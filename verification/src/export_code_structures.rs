//! The pure side of the export boundary: deriving a module name from a file
//! path, and building the file name a unit is exported under. The writing of
//! files itself happens outside the library, which only hands values over.

use vstd::prelude::*;
use vstd::string::*;

use crate::code_structures::{has_name, unit_name, CodeStructure};
use crate::python_code_parser::{after_last_slash, lemma_after_last_slash_at};

verus! {

/// Does the name end in `.py`?
pub open spec fn ends_py(n: Seq<char>) -> bool {
    n.len() >= 3 && n[n.len() - 3] == '.' && n[n.len() - 2] == 'p' && n[n.len() - 1] == 'y'
}

/// The name with a final `.py` removed, when it has one.
pub open spec fn strip_py_extension(n: Seq<char>) -> Seq<char> {
    if ends_py(n) {
        n.take(n.len() - 3)
    } else {
        n
    }
}

/// The path with its trailing `/` separators removed.
pub open spec fn trim_slashes(p: Seq<char>) -> Seq<char>
    decreases p.len(),
{
    if p.len() > 0 && p.last() == '/' {
        trim_slashes(p.drop_last())
    } else {
        p
    }
}

/// The file name component of a path: the piece after the last `/`, trailing
/// separators ignored.
pub open spec fn file_name_of(p: Seq<char>) -> Seq<char> {
    after_last_slash(trim_slashes(p))
}

/// A file name component that names a file: not empty, and neither of the
/// relative components `.` and `..`.
pub open spec fn names_a_file(n: Seq<char>) -> bool {
    n.len() > 0 && n != seq!['.'] && n != seq!['.', '.']
}

/// The module name a path carries: its file name component, with the Python
/// source extension stripped.
pub open spec fn module_name_of(p: Seq<char>) -> Seq<char> {
    strip_py_extension(file_name_of(p))
}

/// The failure of `get_module_name`: the path carries no file name
/// component.
#[derive(PartialEq, Eq, Debug, Clone, Copy)]
pub struct InvalidPathError;

/// Finds the bounds of the path's file name component: trailing `/`
/// separators are ignored, and the component runs from just after the last
/// remaining `/` (or the start) to there.
pub(crate) fn file_name_bounds(s: &str) -> (r: (usize, usize))
    ensures
        r.0 <= r.1 <= s@.len(),
        file_name_of(s@) == s@.subrange(r.0 as int, r.1 as int),
{
    let n = s.unicode_len();
    let mut e: usize = n;
    proof {
        assert(s@.take(n as int) =~= s@);
    }
    while e > 0 && s.get_char(e - 1) == '/'
        invariant
            0 <= e <= n,
            n == s@.len(),
            trim_slashes(s@) == trim_slashes(s@.take(e as int)),
        decreases e,
    {
        proof {
            let cur = s@.take(e as int);
            assert(cur.last() == '/');
            assert(cur.drop_last() =~= s@.take(e - 1));
        }
        e = e - 1;
    }
    let ghost q = s@.take(e as int);
    proof {
        if e == 0 {
            assert(q =~= Seq::<char>::empty());
        }
        assert(trim_slashes(q) == q);
    }
    let mut cut: usize = 0;
    let mut i: usize = 0;
    while i < e
        invariant
            0 <= cut <= i <= e,
            e <= n == s@.len(),
            q == s@.take(e as int),
            forall|j: int| cut <= j < i ==> s@[j] != '/',
            cut > 0 ==> s@[cut - 1] == '/',
        decreases e - i,
    {
        if s.get_char(i) == '/' {
            cut = i + 1;
        }
        i = i + 1;
    }
    proof {
        assert(forall|j: int| cut <= j < e ==> q[j] == s@[j]);
        lemma_after_last_slash_at(q, cut - 1);
        assert(q.skip(cut as int) =~= s@.subrange(cut as int, e as int));
    }
    (cut, e)
}

/// The module stem of a path: the file name component with a final `.py`
/// stripped, whatever that component is.
pub(crate) fn module_stem(s: &str) -> (r: String)
    ensures
        r@ == module_name_of(s@),
{
    let (cut, e) = file_name_bounds(s);
    let ghost nm = file_name_of(s@);
    if e - cut >= 3 && s.get_char(e - 3) == '.' && s.get_char(e - 2) == 'p' && s.get_char(e - 1)
        == 'y' {
        proof {
            assert(nm[nm.len() - 3] == s@[e - 3]);
            assert(nm[nm.len() - 2] == s@[e - 2]);
            assert(nm[nm.len() - 1] == s@[e - 1]);
            assert(nm.take(nm.len() - 3) =~= s@.subrange(cut as int, e - 3));
        }
        String::from_str(s.substring_char(cut, e - 3))
    } else {
        proof {
            if nm.len() >= 3 {
                assert(nm[nm.len() - 3] == s@[e - 3]);
                assert(nm[nm.len() - 2] == s@[e - 2]);
                assert(nm[nm.len() - 1] == s@[e - 1]);
            }
        }
        String::from_str(s.substring_char(cut, e))
    }
}

/// Derives the module name from a file path: the file name component
/// (trailing `/` separators ignored), with a final `.py` stripped. A path
/// whose file name component is empty, `.` or `..` names no file and is
/// refused.
pub fn get_module_name(file_path: &str) -> (r: Result<String, InvalidPathError>)
    ensures
        r.is_ok() == names_a_file(file_name_of(file_path@)),
        r.is_ok() ==> r.unwrap()@ == module_name_of(file_path@),
{
    let (cut, e) = file_name_bounds(file_path);
    let ghost nm = file_name_of(file_path@);
    let nl = e - cut;
    if nl == 0 {
        Err(InvalidPathError)
    } else if nl == 1 && file_path.get_char(cut) == '.' {
        proof {
            assert(nm =~= seq!['.']);
        }
        Err(InvalidPathError)
    } else if nl == 2 && file_path.get_char(cut) == '.' && file_path.get_char(cut + 1) == '.' {
        proof {
            assert(nm =~= seq!['.', '.']);
        }
        Err(InvalidPathError)
    } else {
        proof {
            assert(nm[0] == file_path@[cut as int]);
            if nm.len() == 1 {
                assert(nm =~= seq![nm[0]]);
            }
            if nm.len() == 2 {
                assert(nm[1] == file_path@[cut + 1]);
                assert(nm =~= seq![nm[0], nm[1]]);
            }
        }
        Ok(module_stem(file_path))
    }
}

/// The file name a unit is exported under: the module name, the unit's own
/// name and its kind label, joined with underscores, with a `.txt`
/// extension.
pub fn export_file_name(module_name: &str, structure: &CodeStructure) -> (r: String)
    requires
        has_name(structure@.text),
    ensures
        r@ == module_name@ + "_"@ + unit_name(structure@.text) + "_"@ + (
        if structure@.is_class {
            "class"@
        } else {
            "function"@
        }) + ".txt"@,
{
    let mut r = String::from_str(module_name);
    r.append("_");
    let name = structure.get_name();
    r.append(name.as_str());
    r.append("_");
    r.append(structure.get_type());
    r.append(".txt");
    r
}

/// Builds the unit's export file name where its text holds a readable name,
/// and answers `None` where it does not.
pub fn try_export_file_name(module_name: &str, structure: &CodeStructure) -> (r: Option<String>)
    ensures
        r.is_some() == has_name(structure@.text),
        r.is_some() ==> r.unwrap()@ == module_name@ + "_"@ + unit_name(structure@.text) + "_"@
            + (
        if structure@.is_class {
            "class"@
        } else {
            "function"@
        }) + ".txt"@,
{
    match structure.try_get_name() {
        Some(_) => Some(export_file_name(module_name, structure)),
        None => None,
    }
}

} // verus!
