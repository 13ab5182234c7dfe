//! Characters and strings: what the standard library does to a `String`, and
//! the passage between a string and the vector of its characters.

use vstd::prelude::*;

verus! {

/// `String::push` puts one character at the end of the string and leaves the
/// rest as it was.
pub assume_specification[ String::push ](s: &mut String, ch: char)
    ensures
        final(s)@ == old(s)@.push(ch),
;

/// One of the ten decimal digits.
pub open spec fn is_digit(c: char) -> bool {
    '0' <= c && c <= '9'
}

/// Every character of the text is a decimal digit.
pub open spec fn all_digits(s: Seq<char>) -> bool {
    forall|i: int| 0 <= i < s.len() ==> is_digit(#[trigger] s[i])
}

/// The characters of a string, in order.
pub fn to_chars(s: &str) -> (v: Vec<char>)
    ensures
        v@ == s@,
{
    let mut v: Vec<char> = Vec::new();
    for c in it: s.chars()
        invariant
            it.seq() == s@,
            v@ == s@.take(it.index() as int),
    {
        v.push(c);
    }
    v
}

/// The string made of the characters `v[from..to]`.
pub fn from_chars(v: &Vec<char>, from: usize, to: usize) -> (s: String)
    requires
        from <= to <= v.len(),
    ensures
        s@ == v@.subrange(from as int, to as int),
{
    let mut s = String::new();
    let mut i: usize = from;
    while i < to
        invariant
            from <= i <= to <= v.len(),
            s@ == v@.subrange(from as int, i as int),
        decreases to - i,
    {
        s.push(v[i]);
        i += 1;
    }
    s
}

/// Tells whether `c` is a decimal digit.
pub fn digit(c: char) -> (b: bool)
    ensures
        b == is_digit(c),
{
    c >= '0' && c <= '9'
}

/// `i` is where `c` first stands in `s`, or the length of `s` if it stands
/// nowhere.
pub open spec fn is_first_index(s: Seq<char>, c: char, i: int) -> bool {
    &&& 0 <= i <= s.len()
    &&& i < s.len() ==> s[i] == c
    &&& forall|j: int| 0 <= j < i ==> #[trigger] s[j] != c
}

/// Where `c` first stands in `s`, or the length of `s` if it stands nowhere.
pub open spec fn first_index(s: Seq<char>, c: char) -> int {
    choose|i: int| is_first_index(s, c, i)
}

/// There is one first index only.
pub proof fn lemma_first_index(s: Seq<char>, c: char, i: int)
    requires
        is_first_index(s, c, i),
    ensures
        first_index(s, c) == i,
        s.contains(c) <==> i < s.len(),
{
    let k = first_index(s, c);
    assert(is_first_index(s, c, k));
    if k < i {
        assert(s[k] != c);
    }
    if i < k {
        assert(s[i] != c);
    }
    if s.contains(c) {
        let j = choose|j: int| 0 <= j < s.len() && s[j] == c;
        if i >= s.len() {
            assert(s[j] != c);
        }
    }
}

/// Where `c` first stands in `chars`, or their number if it stands nowhere.
pub fn find(chars: &Vec<char>, c: char) -> (i: usize)
    ensures
        i == first_index(chars@, c),
        is_first_index(chars@, c, i as int),
        chars@.contains(c) <==> i < chars.len(),
{
    let mut i: usize = 0;
    while i < chars.len() && chars[i] != c
        invariant
            i <= chars.len(),
            forall|j: int| 0 <= j < i ==> #[trigger] chars@[j] != c,
        decreases chars.len() - i,
    {
        i += 1;
    }
    proof {
        lemma_first_index(chars@, c, i as int);
    }
    i
}

/// Every text has a first index of every character.
pub proof fn lemma_first_index_exists(s: Seq<char>, c: char)
    ensures
        exists|i: int| is_first_index(s, c, i),
    decreases s.len(),
{
    if s.len() == 0 {
        assert(is_first_index(s, c, 0));
    } else {
        lemma_first_index_exists(s.drop_last(), c);
        let i = choose|i: int| is_first_index(s.drop_last(), c, i);
        if i < s.len() - 1 {
            assert(s.drop_last()[i] == s[i]);
            assert forall|j: int| 0 <= j < i implies #[trigger] s[j] != c by {
                assert(s.drop_last()[j] != c);
            }
            assert(is_first_index(s, c, i));
        } else if s.last() == c {
            assert forall|j: int| 0 <= j < s.len() - 1 implies #[trigger] s[j] != c by {
                assert(s.drop_last()[j] != c);
            }
            assert(is_first_index(s, c, s.len() - 1));
        } else {
            assert forall|j: int| 0 <= j < s.len() implies #[trigger] s[j] != c by {
                if j < s.len() - 1 {
                    assert(s.drop_last()[j] != c);
                }
            }
            assert(is_first_index(s, c, s.len() as int));
        }
    }
}

} // verus!
