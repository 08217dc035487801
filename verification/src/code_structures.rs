//! The domain entity: a single top-level definition (a class or a function)
//! together with its complete original text.

use vstd::prelude::*;
use vstd::string::*;

use crate::chars::{
    find_first_alpha, find_first_name_end, find_first_ws, first_alpha, first_name_end,
    first_ws, lemma_first_alpha_at, lemma_first_name_end_at,
};

verus! {

/// One extracted top-level definition. `Function` and `Class` each carry the
/// exact original source text of the definition line and everything nested
/// beneath it, with trailing newlines trimmed.
#[derive(PartialEq, Eq, Debug)]
pub enum CodeStructure {
    Function(String),
    Class(String),
}

/// Lexicographic order on texts, by code point.
pub open spec fn lex_ordering(a: Seq<char>, b: Seq<char>) -> core::cmp::Ordering
    decreases a.len(),
{
    if a.len() == 0 && b.len() == 0 {
        core::cmp::Ordering::Equal
    } else if a.len() == 0 {
        core::cmp::Ordering::Less
    } else if b.len() == 0 {
        core::cmp::Ordering::Greater
    } else if (a[0] as u32) < (b[0] as u32) {
        core::cmp::Ordering::Less
    } else if (b[0] as u32) < (a[0] as u32) {
        core::cmp::Ordering::Greater
    } else {
        lex_ordering(a.skip(1), b.skip(1))
    }
}

/// Compares two texts lexicographically, by code point.
fn lex_cmp_exec(a: &str, b: &str) -> (r: core::cmp::Ordering)
    ensures
        r == lex_ordering(a@, b@),
{
    let na = a.unicode_len();
    let nb = b.unicode_len();
    let mut i: usize = 0;
    proof {
        assert(a@.skip(0) =~= a@);
        assert(b@.skip(0) =~= b@);
    }
    while i < na && i < nb
        invariant
            0 <= i <= na,
            0 <= i <= nb,
            na == a@.len(),
            nb == b@.len(),
            lex_ordering(a@, b@) == lex_ordering(a@.skip(i as int), b@.skip(i as int)),
        decreases na - i,
    {
        let ca = a.get_char(i);
        let cb = b.get_char(i);
        proof {
            assert(a@.skip(i as int)[0] == a@[i as int]);
            assert(b@.skip(i as int)[0] == b@[i as int]);
        }
        if (ca as u32) < (cb as u32) {
            return core::cmp::Ordering::Less;
        }
        if (cb as u32) < (ca as u32) {
            return core::cmp::Ordering::Greater;
        }
        proof {
            assert(a@.skip(i as int).skip(1) =~= a@.skip(i + 1));
            assert(b@.skip(i as int).skip(1) =~= b@.skip(i + 1));
        }
        i = i + 1;
    }
    if na == nb {
        core::cmp::Ordering::Equal
    } else if na < nb {
        core::cmp::Ordering::Less
    } else {
        core::cmp::Ordering::Greater
    }
}

/// Units carry the total order of their full texts: lexicographic
/// comparison, kept only so that collections of units can be compared
/// deterministically.
impl vstd::std_specs::cmp::PartialOrdSpecImpl for CodeStructure {
    open spec fn obeys_partial_cmp_spec() -> bool {
        true
    }

    open spec fn partial_cmp_spec(&self, other: &Self) -> Option<core::cmp::Ordering> {
        Some(lex_ordering(self@.text, other@.text))
    }
}

impl PartialOrd for CodeStructure {
    fn partial_cmp(&self, other: &Self) -> (r: Option<core::cmp::Ordering>) {
        Some(lex_cmp_exec(self.get_content(), other.get_content()))
    }
}

/// Ghost model of a `CodeStructure`: its tag and the characters of its text.
#[verifier::ext_equal]
pub ghost struct UnitModel {
    pub is_class: bool,
    pub text: Seq<char>,
}

/// Does the text begin with `class` followed by one space?
pub open spec fn starts_class(s: Seq<char>) -> bool {
    s.len() >= 6 && s[0] == 'c' && s[1] == 'l' && s[2] == 'a' && s[3] == 's' && s[4] == 's'
        && s[5] == ' '
}

/// Does the text begin with `def` followed by one space?
pub open spec fn starts_def(s: Seq<char>) -> bool {
    s.len() >= 4 && s[0] == 'd' && s[1] == 'e' && s[2] == 'f' && s[3] == ' '
}

/// A name can be read off the text: it holds a whitespace character, an
/// alphabetic character after the first whitespace, and after the first such
/// alphabetic character a character that ends an identifier. These are
/// exactly the texts on which the three searches of `get_name` all succeed.
pub open spec fn has_name(s: Seq<char>) -> bool {
    let ke = first_ws(s);
    let ns = ke + first_alpha(s.skip(ke));
    ke < s.len() && ns < s.len() && ns + first_name_end(s.skip(ns)) < s.len()
}

/// The identifier after the leading keyword: skip to the first whitespace,
/// then to the first alphabetic character, and take everything up to the
/// first character that is neither alphanumeric nor an underscore. The
/// standard library judges the character classes.
pub open spec fn unit_name(s: Seq<char>) -> Seq<char> {
    let ke = first_ws(s);
    let ns = ke + first_alpha(s.skip(ke));
    let ne = first_name_end(s.skip(ns));
    s.subrange(ns, ns + ne)
}

impl View for CodeStructure {
    type V = UnitModel;

    open spec fn view(&self) -> UnitModel {
        match self {
            CodeStructure::Function(s) => UnitModel { is_class: false, text: s@ },
            CodeStructure::Class(s) => UnitModel { is_class: true, text: s@ },
        }
    }
}

impl DeepView for CodeStructure {
    type V = UnitModel;

    open spec fn deep_view(&self) -> UnitModel {
        self.view()
    }
}

impl CodeStructure {
    /// Builds the typed unit from its raw text: a `class ` prefix yields a
    /// `Class`, a `def ` prefix yields a `Function`. Any other text is a
    /// violation of the extractor's invariant, so it is excluded here rather
    /// than coerced.
    pub fn from_code_string(s: &str) -> (r: Self)
        requires
            starts_class(s@) || starts_def(s@),
        ensures
            r@.is_class == starts_class(s@),
            r@.text == s@,
    {
        let n = s.unicode_len();
        if n >= 6 && s.get_char(0) == 'c' && s.get_char(1) == 'l' && s.get_char(2) == 'a'
            && s.get_char(3) == 's' && s.get_char(4) == 's' && s.get_char(5) == ' ' {
            CodeStructure::Class(String::from_str(s))
        } else {
            CodeStructure::Function(String::from_str(s))
        }
    }

    /// The unit's full original text.
    pub fn get_content(&self) -> (r: &str)
        ensures
            r@ == self@.text,
    {
        match self {
            CodeStructure::Function(s) => s.as_str(),
            CodeStructure::Class(s) => s.as_str(),
        }
    }

    /// The identifier this definition binds: the name after the leading
    /// keyword. The texts that hold no readable name are excluded, since on
    /// them no name can be returned; `try_get_name` accepts them and answers
    /// `None`.
    pub fn get_name(&self) -> (r: String)
        requires
            has_name(self@.text),
        ensures
            r@ == unit_name(self@.text),
    {
        let content = self.get_content();
        let ghost t = content@;
        let ke_opt = find_first_ws(content);
        let ke = ke_opt.unwrap();
        let ns_opt = find_first_alpha(content, ke);
        proof {
            if ns_opt.is_none() {
                assert forall|j: int| 0 <= j < t.len() - ke implies !crate::chars::is_alphabetic_char(
                    t.skip(ke as int)[j],
                ) by {
                    assert(t.skip(ke as int)[j] == t[j + ke]);
                }
                lemma_first_alpha_at(t.skip(ke as int), t.len() - ke);
            }
        }
        let ns = ns_opt.unwrap();
        let ne_opt = find_first_name_end(content, ns);
        proof {
            if ne_opt.is_none() {
                assert forall|j: int| 0 <= j < t.len() - ns implies !crate::chars::ends_name(
                    t.skip(ns as int)[j],
                ) by {
                    assert(t.skip(ns as int)[j] == t[j + ns]);
                }
                lemma_first_name_end_at(t.skip(ns as int), t.len() - ns);
            }
        }
        let nend = ne_opt.unwrap();
        let name = content.substring_char(ns, nend);
        proof {
            assert(first_alpha(t.skip(ke as int)) == ns - ke);
            assert(first_name_end(t.skip(ns as int)) == nend - ns);
        }
        String::from_str(name)
    }

    /// Reads the name off the text where one is there to read, and answers
    /// `None` where `get_name` would have nothing to return: no whitespace,
    /// no alphabetic character after it, or a name that nothing ends.
    pub fn try_get_name(&self) -> (r: Option<String>)
        ensures
            r.is_some() == has_name(self@.text),
            r.is_some() ==> r.unwrap()@ == unit_name(self@.text),
    {
        let content = self.get_content();
        let ghost t = content@;
        let ke_opt = find_first_ws(content);
        if ke_opt.is_none() {
            return None;
        }
        let ke = ke_opt.unwrap();
        let ns_opt = find_first_alpha(content, ke);
        if ns_opt.is_none() {
            proof {
                assert forall|j: int| 0 <= j < t.len() - ke implies !crate::chars::is_alphabetic_char(
                    t.skip(ke as int)[j],
                ) by {
                    assert(t.skip(ke as int)[j] == t[j + ke]);
                }
                lemma_first_alpha_at(t.skip(ke as int), t.len() - ke);
            }
            return None;
        }
        let ns = ns_opt.unwrap();
        let ne_opt = find_first_name_end(content, ns);
        if ne_opt.is_none() {
            proof {
                assert forall|j: int| 0 <= j < t.len() - ns implies !crate::chars::ends_name(
                    t.skip(ns as int)[j],
                ) by {
                    assert(t.skip(ns as int)[j] == t[j + ns]);
                }
                lemma_first_name_end_at(t.skip(ns as int), t.len() - ns);
            }
            return None;
        }
        proof {
            assert(has_name(t));
        }
        Some(self.get_name())
    }

    /// The lowercase label of the unit's kind.
    pub fn get_type(&self) -> (r: &str)
        ensures
            self@.is_class ==> r@ == "class"@,
            !self@.is_class ==> r@ == "function"@,
    {
        match self {
            CodeStructure::Function(_) => "function",
            CodeStructure::Class(_) => "class",
        }
    }
}

} // verus!
