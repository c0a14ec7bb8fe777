//! Strings as sequences of characters: the searches and character classes
//! that the path rules are stated with.

use vstd::prelude::*;

verus! {

/// The index of the last occurrence of `c` in `s`, if there is one.
pub open spec fn last_index_of(s: Seq<char>, c: char) -> Option<int>
    decreases s.len(),
{
    if s.len() == 0 {
        None
    } else if s.last() == c {
        Some(s.len() - 1)
    } else {
        last_index_of(s.drop_last(), c)
    }
}

/// What `last_index_of` finds: an occurrence with none after it, or nothing
/// when there is no occurrence at all.
pub proof fn lemma_last_index_of(s: Seq<char>, c: char)
    ensures
        match last_index_of(s, c) {
            Some(i) => 0 <= i < s.len() && s[i] == c && forall|j: int|
                i < j < s.len() ==> s[j] != c,
            None => forall|j: int| 0 <= j < s.len() ==> s[j] != c,
        },
    decreases s.len(),
{
    if s.len() > 0 && s.last() != c {
        let init = s.drop_last();
        lemma_last_index_of(init, c);
        match last_index_of(init, c) {
            Some(i) => {
                assert(s[i] == init[i]);
                assert forall|j: int| i < j < s.len() implies s[j] != c by {
                    if j < init.len() {
                        assert(s[j] == init[j]);
                    }
                }
            },
            None => {
                assert forall|j: int| 0 <= j < s.len() implies s[j] != c by {
                    if j < init.len() {
                        assert(s[j] == init[j]);
                    }
                }
            },
        }
    }
}

/// An occurrence of `c` with none after it is the one `last_index_of` finds.
pub proof fn lemma_last_index_of_is(s: Seq<char>, c: char, i: int)
    requires
        0 <= i < s.len(),
        s[i] == c,
        forall|j: int| i < j < s.len() ==> s[j] != c,
    ensures
        last_index_of(s, c) == Some(i),
    decreases s.len(),
{
    if s.last() != c {
        lemma_last_index_of_is(s.drop_last(), c, i);
    }
}

/// Without an occurrence of `c`, `last_index_of` finds nothing.
pub proof fn lemma_last_index_of_none(s: Seq<char>, c: char)
    requires
        forall|j: int| 0 <= j < s.len() ==> s[j] != c,
    ensures
        last_index_of(s, c) is None,
    decreases s.len(),
{
    if s.len() > 0 {
        lemma_last_index_of_none(s.drop_last(), c);
    }
}

/// Whether `c` has the Unicode property White_Space.
pub open spec fn is_whitespace(c: char) -> bool {
    let u = c as u32;
    ||| 0x0009 <= u <= 0x000D
    ||| u == 0x0020
    ||| u == 0x0085
    ||| u == 0x00A0
    ||| u == 0x1680
    ||| 0x2000 <= u <= 0x200A
    ||| u == 0x2028
    ||| u == 0x2029
    ||| u == 0x202F
    ||| u == 0x205F
    ||| u == 0x3000
}

/// The number of White_Space characters that `s` begins with.
pub open spec fn leading_whitespace(s: Seq<char>) -> nat
    decreases s.len(),
{
    if s.len() > 0 && is_whitespace(s[0]) {
        1 + leading_whitespace(s.skip(1))
    } else {
        0
    }
}

/// `s` without the White_Space characters it begins with.
pub open spec fn trim_start(s: Seq<char>) -> Seq<char> {
    s.skip(leading_whitespace(s) as int)
}

/// `s` with the ASCII letters `A` to `Z` replaced by `a` to `z`.
pub open spec fn ascii_lowercase(s: Seq<char>) -> Seq<char> {
    s.map_values(|c: char| lower(c))
}

/// The lower-case form of an ASCII capital letter; any other character as it is.
pub open spec fn lower(c: char) -> char {
    if 'A' <= c <= 'Z' {
        ((c as u8) + 32) as char
    } else {
        c
    }
}

/// The characters of `s`, in order.
pub fn chars_of(s: &str) -> (chars: Vec<char>)
    ensures
        chars@ == s@,
{
    let mut chars: Vec<char> = Vec::new();
    for c in it: s.chars()
        invariant
            chars@ == it.seq().take(it.index() as int),
            it.seq() == s@,
    {
        chars.push(c);
    }
    chars
}

/// Finds the last occurrence of `c` among `chars`.
pub fn rfind(chars: &Vec<char>, c: char) -> (found: Option<usize>)
    ensures
        match found {
            Some(i) => i < chars.len() && last_index_of(chars@, c) == Some(i as int),
            None => last_index_of(chars@, c) is None,
        },
{
    let mut i: usize = chars.len();
    while i > 0
        invariant
            i <= chars.len(),
            forall|j: int| i <= j < chars.len() ==> chars@[j] != c,
        decreases i,
    {
        i -= 1;
        if chars[i] == c {
            proof {
                lemma_last_index_of_is(chars@, c, i as int);
            }
            return Some(i);
        }
    }
    proof {
        lemma_last_index_of_none(chars@, c);
    }
    None
}

/// Tells whether `c` has the Unicode property White_Space.
pub fn char_is_whitespace(c: char) -> (b: bool)
    ensures
        b == is_whitespace(c),
{
    let u: u32 = c as u32;
    (0x0009 <= u && u <= 0x000D) || u == 0x0020 || u == 0x0085 || u == 0x00A0 || u == 0x1680 || (
    0x2000 <= u && u <= 0x200A) || u == 0x2028 || u == 0x2029 || u == 0x202F || u == 0x205F || u
        == 0x3000
}

/// Counts the White_Space characters that `chars` begins with.
pub fn count_leading_whitespace(chars: &Vec<char>) -> (n: usize)
    ensures
        n == leading_whitespace(chars@),
        n <= chars.len(),
{
    let mut i: usize = 0;
    proof {
        assert(chars@.skip(0) == chars@);
    }
    while i < chars.len() && char_is_whitespace(chars[i])
        invariant
            i <= chars.len(),
            leading_whitespace(chars@) == i + leading_whitespace(chars@.skip(i as int)),
        decreases chars.len() - i,
    {
        proof {
            assert(chars@.skip(i as int).skip(1) == chars@.skip(i + 1));
        }
        i += 1;
    }
    i
}

} // verus!
