//! Character classification. The Unicode classes that `get_name` and
//! `unindent` go by come from the standard library and are named rather than
//! restated; alongside them stand the few ASCII facts the standard library's
//! documentation plainly gives, which the proofs here rely on.

use vstd::prelude::*;

verus! {

/// What `char::is_whitespace` returns: the Unicode `White_Space` property.
pub uninterp spec fn is_whitespace_char(c: char) -> bool;

/// What `char::is_alphabetic` returns: the Unicode `Alphabetic` property.
pub uninterp spec fn is_alphabetic_char(c: char) -> bool;

/// What `char::is_alphanumeric` returns: a Unicode letter or digit.
pub uninterp spec fn is_alphanumeric_char(c: char) -> bool;

/// An ASCII letter.
pub open spec fn ascii_letter(c: char) -> bool {
    ('a' as u32 <= c as u32 && c as u32 <= 'z' as u32) || ('A' as u32 <= c as u32 && c as u32
        <= 'Z' as u32)
}

/// An ASCII digit.
pub open spec fn ascii_digit(c: char) -> bool {
    '0' as u32 <= c as u32 && c as u32 <= '9' as u32
}

/// An ASCII character that can stand in an identifier.
pub open spec fn ascii_word(c: char) -> bool {
    ascii_letter(c) || ascii_digit(c) || c == '_'
}

/// An ASCII character that ends an identifier: not a letter, not a digit,
/// not an underscore.
pub open spec fn ascii_name_break(c: char) -> bool {
    (c as u32) < 128 && !ascii_word(c)
}

/// Relies on char::is_whitespace: true exactly on Unicode `White_Space`
/// characters, so true on space, tab, newline and carriage return, and false
/// on ASCII letters, digits and the underscore.
pub assume_specification[ char::is_whitespace ](c: char) -> (r: bool)
    ensures
        r == is_whitespace_char(c),
        (c == ' ' || c == '\t' || c == '\n' || c == '\r') ==> r,
        ascii_word(c) ==> !r,
;

/// Relies on char::is_alphabetic: true exactly on Unicode `Alphabetic`
/// characters, so true on ASCII letters and false on every other ASCII
/// character.
pub assume_specification[ char::is_alphabetic ](c: char) -> (r: bool)
    ensures
        r == is_alphabetic_char(c),
        ascii_letter(c) ==> r,
        ((c as u32) < 128 && !ascii_letter(c)) ==> !r,
;

/// Relies on char::is_alphanumeric: true exactly on Unicode letters and
/// digits, so true on ASCII letters and digits and false on every other
/// ASCII character, the underscore included.
pub assume_specification[ char::is_alphanumeric ](c: char) -> (r: bool)
    ensures
        r == is_alphanumeric_char(c),
        (ascii_letter(c) || ascii_digit(c)) ==> r,
        ((c as u32) < 128 && !ascii_letter(c) && !ascii_digit(c)) ==> !r,
;

/// Index of the first whitespace character, or `s.len()` if there is none.
pub open spec fn first_ws(s: Seq<char>) -> int
    decreases s.len(),
{
    if s.len() == 0 {
        0
    } else if is_whitespace_char(s[0]) {
        0
    } else {
        1 + first_ws(s.skip(1))
    }
}

/// Index of the first alphabetic character, or `s.len()` if there is none.
pub open spec fn first_alpha(s: Seq<char>) -> int
    decreases s.len(),
{
    if s.len() == 0 {
        0
    } else if is_alphabetic_char(s[0]) {
        0
    } else {
        1 + first_alpha(s.skip(1))
    }
}

/// A character that no identifier continues over.
pub open spec fn ends_name(c: char) -> bool {
    !is_alphanumeric_char(c) && c != '_'
}

/// Index of the first character that ends an identifier, or `s.len()` if
/// there is none.
pub open spec fn first_name_end(s: Seq<char>) -> int
    decreases s.len(),
{
    if s.len() == 0 {
        0
    } else if ends_name(s[0]) {
        0
    } else {
        1 + first_name_end(s.skip(1))
    }
}

pub proof fn lemma_first_ws_at(s: Seq<char>, k: int)
    requires
        0 <= k <= s.len(),
        forall|j: int| 0 <= j < k ==> !is_whitespace_char(s[j]),
        k < s.len() ==> is_whitespace_char(s[k]),
    ensures
        first_ws(s) == k,
    decreases s.len(),
{
    if s.len() > 0 && !is_whitespace_char(s[0]) {
        lemma_first_ws_at(s.skip(1), k - 1);
    }
}

pub proof fn lemma_first_alpha_at(s: Seq<char>, k: int)
    requires
        0 <= k <= s.len(),
        forall|j: int| 0 <= j < k ==> !is_alphabetic_char(s[j]),
        k < s.len() ==> is_alphabetic_char(s[k]),
    ensures
        first_alpha(s) == k,
    decreases s.len(),
{
    if s.len() > 0 && !is_alphabetic_char(s[0]) {
        lemma_first_alpha_at(s.skip(1), k - 1);
    }
}

pub proof fn lemma_first_name_end_at(s: Seq<char>, k: int)
    requires
        0 <= k <= s.len(),
        forall|j: int| 0 <= j < k ==> !ends_name(s[j]),
        k < s.len() ==> ends_name(s[k]),
    ensures
        first_name_end(s) == k,
    decreases s.len(),
{
    if s.len() > 0 && !ends_name(s[0]) {
        lemma_first_name_end_at(s.skip(1), k - 1);
    }
}

/// Finds the first whitespace character of `s`, the standard library judging
/// what whitespace is. When nothing is found, no character of `s` is
/// whitespace, and in particular none is a space or a tab.
pub fn find_first_ws(s: &str) -> (r: Option<usize>)
    ensures
        match r {
            Some(i) => 0 <= i < s@.len() && first_ws(s@) == i && is_whitespace_char(s@[i as int])
                && forall|j: int|
                0 <= j < i ==> !is_whitespace_char(s@[j]) && s@[j] != ' ' && s@[j] != '\t',
            None => forall|j: int|
                0 <= j < s@.len() ==> !is_whitespace_char(s@[j]) && s@[j] != ' ' && s@[j] != '\t',
        },
        r.is_none() ==> first_ws(s@) == s@.len(),
{
    let n = s.unicode_len();
    let mut i: usize = 0;
    while i < n
        invariant
            0 <= i <= n,
            n == s@.len(),
            forall|j: int| 0 <= j < i ==> !is_whitespace_char(s@[j]),
            forall|j: int| 0 <= j < i ==> s@[j] != ' ' && s@[j] != '\t',
        decreases n - i,
    {
        let c = s.get_char(i);
        if c.is_whitespace() {
            proof {
                lemma_first_ws_at(s@, i as int);
            }
            return Some(i);
        }
        i = i + 1;
    }
    proof {
        lemma_first_ws_at(s@, n as int);
    }
    None
}

/// Finds the first alphabetic character of `s` at or after `from`, the
/// standard library judging what is alphabetic. When nothing is found there
/// is no alphabetic character, and so no ASCII letter, at or after `from`.
pub fn find_first_alpha(s: &str, from: usize) -> (r: Option<usize>)
    requires
        from <= s@.len(),
    ensures
        match r {
            Some(i) => from <= i < s@.len() && first_alpha(s@.skip(from as int)) == i - from
                && is_alphabetic_char(s@[i as int]) && forall|j: int|
                from <= j < i ==> !is_alphabetic_char(s@[j]) && !ascii_letter(s@[j]),
            None => forall|j: int|
                from <= j < s@.len() ==> !is_alphabetic_char(s@[j]) && !ascii_letter(s@[j]),
        },
{
    let n = s.unicode_len();
    let mut i: usize = from;
    while i < n
        invariant
            from <= i <= n,
            n == s@.len(),
            forall|j: int| from <= j < i ==> !is_alphabetic_char(s@[j]),
            forall|j: int| from <= j < i ==> !ascii_letter(s@[j]),
        decreases n - i,
    {
        let c = s.get_char(i);
        if c.is_alphabetic() {
            proof {
                assert(s@.skip(from as int)[i - from] == s@[i as int]);
                assert forall|j: int| 0 <= j < i - from implies !is_alphabetic_char(
                    s@.skip(from as int)[j],
                ) by {
                    assert(s@.skip(from as int)[j] == s@[j + from]);
                }
                lemma_first_alpha_at(s@.skip(from as int), i - from);
            }
            return Some(i);
        }
        i = i + 1;
    }
    None
}

/// Finds the first character at or after `from` that ends an identifier:
/// neither alphanumeric (the standard library judging) nor an underscore.
/// When nothing is found, every character at or after `from` continues an
/// identifier, so none is an ASCII break character.
pub fn find_first_name_end(s: &str, from: usize) -> (r: Option<usize>)
    requires
        from <= s@.len(),
    ensures
        match r {
            Some(i) => from <= i < s@.len() && first_name_end(s@.skip(from as int)) == i - from,
            None => forall|j: int|
                from <= j < s@.len() ==> !ends_name(s@[j]) && !ascii_name_break(s@[j]),
        },
{
    let n = s.unicode_len();
    let mut i: usize = from;
    while i < n
        invariant
            from <= i <= n,
            n == s@.len(),
            forall|j: int| from <= j < i ==> !ends_name(s@[j]),
            forall|j: int| from <= j < i ==> !ascii_name_break(s@[j]),
        decreases n - i,
    {
        let c = s.get_char(i);
        if !c.is_alphanumeric() && c != '_' {
            proof {
                assert forall|j: int| 0 <= j < i - from implies !ends_name(
                    s@.skip(from as int)[j],
                ) by {
                    assert(s@.skip(from as int)[j] == s@[j + from]);
                }
                assert(s@.skip(from as int)[i - from] == s@[i as int]);
                lemma_first_name_end_at(s@.skip(from as int), i - from);
            }
            return Some(i);
        }
        i = i + 1;
    }
    None
}

} // verus!
