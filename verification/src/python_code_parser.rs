//! The executable structural extractor, proved against the model in
//! `extraction_model`, together with the small text utilities around it.

use vstd::prelude::*;
use vstd::string::*;

use crate::chars::{ascii_word, is_whitespace_char};
use crate::code_structures::{starts_class, starts_def, CodeStructure};
use crate::extraction_model::{
    close_frames, extract_spec, init_state, is_blank_line, is_structural_ws, line_indent,
    pop_one, run_lines, step_line, ExtractState, FrameModel,
};
use crate::lines::{
    concat_nl, lemma_concat_nl_add, lemma_concat_nl_one, split_into_lines, split_lines,
    trim_trailing_newlines,
};

verus! {

/// One open block while extraction runs: the indentation it was opened at
/// and the lines collected for it so far.
struct Frame {
    indent: usize,
    lines: Vec<String>,
}

impl View for Frame {
    type V = FrameModel;

    closed spec fn view(&self) -> FrameModel {
        FrameModel { indent: self.indent as int, lines: self.lines.deep_view() }
    }
}

impl DeepView for Frame {
    type V = FrameModel;

    closed spec fn deep_view(&self) -> FrameModel {
        self.view()
    }
}

/// The model state an executable stack and unit list stand for.
pub open spec fn state_of(stack: Seq<FrameModel>, units: Seq<crate::code_structures::UnitModel>) -> ExtractState {
    ExtractState { stack, units }
}

/// Is every character of the line structural whitespace?
fn is_blank_exec(l: &str) -> (r: bool)
    ensures
        r == is_blank_line(l@),
{
    let n = l.unicode_len();
    let mut i: usize = 0;
    while i < n
        invariant
            0 <= i <= n,
            n == l@.len(),
            forall|j: int| 0 <= j < i ==> is_structural_ws(l@[j]),
        decreases n - i,
    {
        let c = l.get_char(i);
        if !(c == ' ' || c == '\t' || c == '\r') {
            return false;
        }
        i = i + 1;
    }
    true
}

/// Counts the leading space characters of the line.
fn line_indent_exec(l: &str) -> (r: usize)
    ensures
        r == line_indent(l@),
{
    let n = l.unicode_len();
    let mut i: usize = 0;
    proof {
        assert(l@.skip(0) =~= l@);
    }
    while i < n && l.get_char(i) == ' '
        invariant
            0 <= i <= n,
            n == l@.len(),
            line_indent(l@) == i + line_indent(l@.skip(i as int)),
        decreases n - i,
    {
        proof {
            assert(l@.skip(i as int)[0] == l@[i as int]);
            assert(l@.skip(i as int).skip(1) =~= l@.skip(i + 1));
        }
        i = i + 1;
    }
    proof {
        if i < n {
            assert(l@.skip(i as int)[0] == l@[i as int]);
        }
        assert(line_indent(l@.skip(i as int)) == 0);
    }
    i
}

/// Does the line begin with `class` and one space?
fn starts_class_exec(l: &str) -> (r: bool)
    ensures
        r == starts_class(l@),
{
    let n = l.unicode_len();
    n >= 6 && l.get_char(0) == 'c' && l.get_char(1) == 'l' && l.get_char(2) == 'a'
        && l.get_char(3) == 's' && l.get_char(4) == 's' && l.get_char(5) == ' '
}

/// Does the line begin with `def` and one space?
fn starts_def_exec(l: &str) -> (r: bool)
    ensures
        r == starts_def(l@),
{
    let n = l.unicode_len();
    n >= 4 && l.get_char(0) == 'd' && l.get_char(1) == 'e' && l.get_char(2) == 'f'
        && l.get_char(3) == ' '
}

/// Joins lines into one text, each line followed by one newline.
fn join_lines(lines: &Vec<String>) -> (t: String)
    ensures
        t@ == concat_nl(lines.deep_view()),
{
    let mut t = String::new();
    let mut i: usize = 0;
    proof {
        assert(lines.deep_view().take(0) =~= Seq::<Seq<char>>::empty());
    }
    while i < lines.len()
        invariant
            0 <= i <= lines.len(),
            t@ == concat_nl(lines.deep_view().take(i as int)),
        decreases lines.len() - i,
    {
        t.append(lines[i].as_str());
        t.append("\n");
        proof {
            reveal_strlit("\n");
            let dv = lines.deep_view();
            assert("\n"@ =~= seq!['\n']);
            lemma_concat_nl_add(dv.take(i as int), seq![dv[i as int]]);
            lemma_concat_nl_one(dv[i as int]);
            assert(dv.take(i + 1) =~= dv.take(i as int) + seq![dv[i as int]]);
            assert(t@ =~= concat_nl(dv.take(i + 1)));
        }
        i = i + 1;
    }
    proof {
        assert(lines.deep_view().take(lines.len() as int) =~= lines.deep_view());
    }
    t
}

/// A character the tokenizer throws away.
pub open spec fn token_ws(c: char) -> bool {
    c == ' ' || c == '\t' || c == '\n' || c == '\r'
}

/// Length of the leading run of identifier characters.
pub open spec fn word_run(s: Seq<char>) -> int
    decreases s.len(),
{
    if s.len() > 0 && ascii_word(s[0]) {
        1 + word_run(s.skip(1))
    } else {
        0
    }
}

/// The lexical atoms of `s`: maximal runs of ASCII letters, digits and
/// underscores come out whole, whitespace is dropped, and every other
/// character is an atom of its own.
pub open spec fn tokens_of(s: Seq<char>) -> Seq<Seq<char>>
    decreases s.len(),
{
    if s.len() == 0 {
        Seq::empty()
    } else if token_ws(s[0]) {
        tokens_of(s.skip(1))
    } else if ascii_word(s[0]) {
        let k = word_run(s);
        if 1 <= k <= s.len() {
            seq![s.take(k)].add(tokens_of(s.skip(k)))
        } else {
            seq![s]
        }
    } else {
        seq![seq![s[0]]].add(tokens_of(s.skip(1)))
    }
}

pub proof fn lemma_word_run_at(s: Seq<char>, k: int)
    requires
        0 <= k <= s.len(),
        forall|j: int| 0 <= j < k ==> ascii_word(s[j]),
        k < s.len() ==> !ascii_word(s[k]),
    ensures
        word_run(s) == k,
    decreases s.len(),
{
    if s.len() > 0 && ascii_word(s[0]) {
        lemma_word_run_at(s.skip(1), k - 1);
    }
}

/// Is `c` an ASCII letter, digit or underscore?
fn is_word_exec(c: char) -> (r: bool)
    ensures
        r == ascii_word(c),
{
    let u = c as u32;
    (97 <= u && u <= 122) || (65 <= u && u <= 90) || (48 <= u && u <= 57) || c == '_'
}

/// Splits `source` into its lexical atoms: identifiers and numbers come out
/// as maximal runs of letters, digits and underscores, whitespace separates
/// and is dropped, and any other character is an atom by itself.
pub fn parse_python_code(source: &str) -> (r: Vec<String>)
    ensures
        r.deep_view() == tokens_of(source@),
{
    let n = source.unicode_len();
    let mut r: Vec<String> = Vec::new();
    let mut i: usize = 0;
    proof {
        assert(r.deep_view() =~= Seq::<Seq<char>>::empty());
        assert(source@.skip(0) =~= source@);
        assert(r.deep_view() + tokens_of(source@) =~= tokens_of(source@));
    }
    while i < n
        invariant
            0 <= i <= n,
            n == source@.len(),
            tokens_of(source@) =~= r.deep_view() + tokens_of(source@.skip(i as int)),
        decreases n - i,
    {
        let ghost s = source@;
        let c = source.get_char(i);
        proof {
            assert(s.skip(i as int)[0] == s[i as int]);
        }
        if c == ' ' || c == '\t' || c == '\n' || c == '\r' {
            proof {
                assert(s.skip(i as int).skip(1) =~= s.skip(i + 1));
            }
            i = i + 1;
        } else if is_word_exec(c) {
            let mut j: usize = i + 1;
            while j < n && is_word_exec(source.get_char(j))
                invariant
                    i < j <= n,
                    n == source@.len(),
                    forall|m: int| i <= m < j ==> ascii_word(source@[m]),
                decreases n - j,
            {
                j = j + 1;
            }
            proof {
                let rest = s.skip(i as int);
                assert forall|m: int| 0 <= m < j - i implies ascii_word(rest[m]) by {
                    assert(rest[m] == s[m + i]);
                }
                if j < n {
                    assert(rest[j - i] == s[j as int]);
                }
                lemma_word_run_at(rest, j - i);
                assert(rest.take(j - i) =~= s.subrange(i as int, j as int));
                assert(rest.skip(j - i) =~= s.skip(j as int));
            }
            let tok = source.substring_char(i, j);
            r.push(String::from_str(tok));
            proof {
                assert(tokens_of(s) =~= r.deep_view() + tokens_of(s.skip(j as int)));
            }
            i = j;
        } else {
            let tok = source.substring_char(i, i + 1);
            r.push(String::from_str(tok));
            proof {
                assert(s.subrange(i as int, i + 1) =~= seq![s[i as int]]);
                assert(s.skip(i as int).skip(1) =~= s.skip(i + 1));
                assert(tokens_of(s) =~= r.deep_view() + tokens_of(s.skip(i + 1)));
            }
            i = i + 1;
        }
    }
    proof {
        assert(source@.skip(n as int) =~= Seq::<char>::empty());
        assert(r.deep_view() =~= tokens_of(source@));
    }
    r
}

/// Length of a line's leading whitespace run, the standard library judging
/// what whitespace is.
pub open spec fn leading_ws(l: Seq<char>) -> int
    decreases l.len(),
{
    if l.len() > 0 && is_whitespace_char(l[0]) {
        1 + leading_ws(l.skip(1))
    } else {
        0
    }
}

/// A line of nothing but whitespace.
pub open spec fn all_ws(l: Seq<char>) -> bool {
    forall|j: int| 0 <= j < l.len() ==> is_whitespace_char(l[j])
}

/// Is some line not all whitespace?
pub open spec fn has_solid(ls: Seq<Seq<char>>) -> bool {
    exists|i: int| 0 <= i < ls.len() && !all_ws(ls[i])
}

/// The smallest leading-whitespace count over the lines that are not all
/// whitespace; zero when every line is.
pub open spec fn min_indent(ls: Seq<Seq<char>>) -> int
    decreases ls.len(),
{
    if ls.len() == 0 {
        0
    } else {
        let rest = min_indent(ls.skip(1));
        if all_ws(ls[0]) {
            rest
        } else if !has_solid(ls.skip(1)) {
            leading_ws(ls[0])
        } else if leading_ws(ls[0]) <= rest {
            leading_ws(ls[0])
        } else {
            rest
        }
    }
}

/// The line with its first `m` characters removed; a line shorter than `m`
/// becomes empty.
pub open spec fn chop(l: Seq<char>, m: int) -> Seq<char> {
    if 0 <= m <= l.len() {
        l.skip(m)
    } else {
        Seq::empty()
    }
}

/// Lines joined with single newlines between them, none at the end.
pub open spec fn join_sep(ls: Seq<Seq<char>>) -> Seq<char>
    decreases ls.len(),
{
    if ls.len() == 0 {
        Seq::empty()
    } else if ls.len() == 1 {
        ls[0]
    } else {
        ls[0] + seq!['\n'] + join_sep(ls.skip(1))
    }
}

/// A piece that a newline closed loses a final carriage return.
pub open spec fn strip_cr(l: Seq<char>) -> Seq<char> {
    if l.len() > 0 && l.last() == '\r' {
        l.drop_last()
    } else {
        l
    }
}

/// The lines `unindent` works on: the pieces between newlines, each closed
/// piece with its final carriage return dropped, and the empty piece after
/// a trailing newline dropped — so a trailing newline of the input yields no
/// extra line.
pub open spec fn unindent_lines(s: Seq<char>) -> Seq<Seq<char>> {
    let ls = split_lines(s);
    let st = Seq::new(
        ls.len(),
        |i: int|
            if i < ls.len() - 1 {
                strip_cr(ls[i])
            } else {
                ls[i]
            },
    );
    if st.len() > 0 && st.last().len() == 0 {
        st.drop_last()
    } else {
        st
    }
}

/// What `unindent` returns: every line of `s` with the common leading
/// whitespace count of its solid lines removed, rejoined with newlines; a
/// trailing newline of the input is dropped.
pub open spec fn unindent_spec(s: Seq<char>) -> Seq<char> {
    let ls = unindent_lines(s);
    join_sep(Seq::new(ls.len(), |i: int| chop(ls[i], min_indent(ls))))
}

pub proof fn lemma_join_sep_push(ls: Seq<Seq<char>>, x: Seq<char>)
    requires
        ls.len() >= 1,
    ensures
        join_sep(ls.push(x)) == join_sep(ls) + seq!['\n'] + x,
    decreases ls.len(),
{
    if ls.len() == 1 {
        assert(ls.push(x)[0] == ls[0]);
        assert(ls.push(x).skip(1) =~= seq![x]);
        assert(join_sep(seq![x]) == x);
        assert(join_sep(ls.push(x)) =~= join_sep(ls) + seq!['\n'] + x);
    } else {
        assert(ls.push(x).skip(1) =~= ls.skip(1).push(x));
        lemma_join_sep_push(ls.skip(1), x);
        assert(join_sep(ls.push(x)) =~= join_sep(ls) + seq!['\n'] + x);
    }
}

proof fn lemma_leading_ws_at(l: Seq<char>, k: int)
    requires
        0 <= k <= l.len(),
        forall|j: int| 0 <= j < k ==> is_whitespace_char(l[j]),
        k < l.len() ==> !is_whitespace_char(l[k]),
    ensures
        leading_ws(l) == k,
    decreases l.len(),
{
    if l.len() > 0 && is_whitespace_char(l[0]) {
        lemma_leading_ws_at(l.skip(1), k - 1);
    }
}

/// Counts a line's leading whitespace characters; a count that spans the
/// whole line means the line is all whitespace.
fn leading_ws_exec(l: &str) -> (r: usize)
    ensures
        r == leading_ws(l@),
        r <= l@.len(),
        (r == l@.len()) == all_ws(l@),
{
    let n = l.unicode_len();
    let mut i: usize = 0;
    while i < n && l.get_char(i).is_whitespace()
        invariant
            0 <= i <= n,
            n == l@.len(),
            forall|j: int| 0 <= j < i ==> is_whitespace_char(l@[j]),
        decreases n - i,
    {
        i = i + 1;
    }
    proof {
        lemma_leading_ws_at(l@, i as int);
    }
    i
}

/// The path this parser was made for, as a plain string.
pub struct PythonParser {
    file_path: String,
}

impl View for PythonParser {
    type V = Seq<char>;

    closed spec fn view(&self) -> Seq<char> {
        self.file_path@
    }
}

/// The piece of the path after its last `/` (the whole path when it has
/// none).
pub open spec fn after_last_slash(p: Seq<char>) -> Seq<char>
    decreases p.len(),
{
    if p.len() == 0 {
        Seq::empty()
    } else if p.last() == '/' {
        Seq::empty()
    } else {
        after_last_slash(p.drop_last()).push(p.last())
    }
}

pub proof fn lemma_after_last_slash_at(p: Seq<char>, k: int)
    requires
        -1 <= k < p.len(),
        forall|j: int| k < j < p.len() ==> p[j] != '/',
        k >= 0 ==> p[k] == '/',
    ensures
        after_last_slash(p) == p.skip(k + 1),
    decreases p.len(),
{
    if p.len() == 0 {
        assert(p.skip(0) =~= p);
    } else if k == p.len() - 1 {
        assert(p.skip(p.len() as int) =~= Seq::<char>::empty());
    } else {
        assert(p.last() != '/');
        lemma_after_last_slash_at(p.drop_last(), k);
        assert(p.drop_last().skip(k + 1).push(p.last()) =~= p.skip(k + 1));
    }
}

impl PythonParser {
    /// Remembers the path of the file this parser is for.
    pub fn new(file_path: &str) -> (r: Self)
        ensures
            r@ == file_path@,
    {
        PythonParser { file_path: String::from_str(file_path) }
    }

    /// The module name from the parser's path: the file name component,
    /// with a final `.py` stripped.
    pub fn get_module_name(&self) -> (r: String)
        ensures
            r@ == crate::export_code_structures::module_name_of(self@),
    {
        crate::export_code_structures::module_stem(self.file_path.as_str())
    }

    /// Removes the common leading whitespace of the solid lines of `s` from
    /// every line, and joins the lines back with newlines. A final carriage
    /// return of each line and a trailing newline of `s` itself are dropped,
    /// as they are when text is read line by line.
    pub fn unindent(s: &str) -> (r: String)
        ensures
            r@ == unindent_spec(s@),
    {
        let raw = split_into_lines(s);
        let ghost rls = raw.deep_view();
        let ghost st = Seq::new(
            rls.len(),
            |q: int|
                if q < rls.len() - 1 {
                    strip_cr(rls[q])
                } else {
                    rls[q]
                },
        );
        let mut lines: Vec<String> = Vec::new();
        let mut t: usize = 0;
        proof {
            assert(lines.deep_view() =~= st.take(0));
        }
        while t < raw.len()
            invariant
                0 <= t <= raw.len(),
                rls == raw.deep_view(),
                st == Seq::new(
                    rls.len(),
                    |q: int|
                        if q < rls.len() - 1 {
                            strip_cr(rls[q])
                        } else {
                            rls[q]
                        },
                ),
                lines.deep_view() == st.take(t as int),
            decreases raw.len() - t,
        {
            let l = &raw[t];
            let n = l.unicode_len();
            proof {
                assert(raw[t as int]@ == rls[t as int]);
            }
            let ghost before = lines.deep_view();
            if t + 1 < raw.len() && n > 0 && l.as_str().get_char(n - 1) == '\r' {
                lines.push(String::from_str(l.as_str().substring_char(0, n - 1)));
                proof {
                    assert(rls[t as int].subrange(0, n - 1) =~= rls[t as int].drop_last());
                    assert(st[t as int] == rls[t as int].drop_last());
                }
            } else {
                lines.push(l.clone());
                proof {
                    assert(st[t as int] == rls[t as int]);
                }
            }
            proof {
                assert(lines.deep_view() =~= before.push(st[t as int]));
                assert(before.push(st[t as int]) =~= st.take(t + 1));
                assert(lines.deep_view() =~= st.take(t + 1));
            }
            t = t + 1;
        }
        proof {
            assert(st.take(raw.len() as int) =~= st);
        }
        if lines.len() > 0 && lines[lines.len() - 1].unicode_len() == 0 {
            let ghost before = lines.deep_view();
            let _ = lines.pop();
            proof {
                assert(lines.deep_view() =~= before.drop_last());
            }
        }
        let ghost ls = unindent_lines(s@);
        proof {
            assert(lines.deep_view() =~= ls);
            assert(ls == lines.deep_view());
        }
        let mut m: usize = 0;
        let mut found = false;
        let mut i: usize = lines.len();
        proof {
            assert(ls.skip(i as int) =~= Seq::<Seq<char>>::empty());
        }
        while i > 0
            invariant
                0 <= i <= lines.len(),
                ls == lines.deep_view(),
                found == has_solid(ls.skip(i as int)),
                found ==> m == min_indent(ls.skip(i as int)),
                !found ==> min_indent(ls.skip(i as int)) == 0 && m == 0,
            decreases i,
        {
            i = i - 1;
            let ghost pre = ls.skip(i + 1);
            let lw = leading_ws_exec(lines[i].as_str());
            let blank = lw == lines[i].unicode_len();
            proof {
                assert(ls.skip(i as int)[0] == ls[i as int]);
                assert(ls.skip(i as int).skip(1) =~= pre);
                assert(lines[i as int]@ == ls[i as int]);
            }
            if !blank {
                if !found {
                    m = lw;
                    found = true;
                } else if lw < m {
                    m = lw;
                }
            }
            proof {
                let cur = ls.skip(i as int);
                if !all_ws(cur[0]) {
                    assert(has_solid(cur)) by {
                        assert(!all_ws(cur[0]));
                    }
                } else {
                    assert(has_solid(cur) == has_solid(pre)) by {
                        if has_solid(cur) {
                            let w = choose|w: int| 0 <= w < cur.len() && !all_ws(cur[w]);
                            assert(w > 0);
                            assert(pre[w - 1] == cur[w]);
                        }
                        if has_solid(pre) {
                            let w = choose|w: int| 0 <= w < pre.len() && !all_ws(pre[w]);
                            assert(cur[w + 1] == pre[w]);
                        }
                    }
                }
            }
        }
        proof {
            assert(ls.skip(0) =~= ls);
            assert(m as int == min_indent(ls));
        }
        let mc = m;
        let mut out = String::new();
        let ghost mapped = Seq::new(ls.len(), |q: int| chop(ls[q], min_indent(ls)));
        let mut k: usize = 0;
        while k < lines.len()
            invariant
                0 <= k <= lines.len(),
                ls == lines.deep_view(),
                mapped == Seq::new(ls.len(), |q: int| chop(ls[q], min_indent(ls))),
                mc == min_indent(ls),
                out@ == join_sep(mapped.take(k as int)),
            decreases lines.len() - k,
        {
            if k > 0 {
                out.append("\n");
            }
            let line = &lines[k];
            let ln = line.unicode_len();
            if mc <= ln {
                out.append(line.as_str().substring_char(mc, ln));
            }
            proof {
                reveal_strlit("\n");
                assert("\n"@ =~= seq!['\n']);
                assert(lines[k as int]@ == ls[k as int]);
                assert(mapped.take(k + 1) =~= mapped.take(k as int).push(mapped[k as int]));
                if mc <= ln {
                    assert(mapped[k as int] =~= ls[k as int].skip(mc as int));
                } else {
                    assert(mapped[k as int] =~= Seq::<char>::empty());
                }
                if k == 0 {
                    assert(join_sep(mapped.take(1)) == mapped.take(1)[0]);
                    assert(mapped.take(1)[0] == mapped[0]);
                } else {
                    lemma_join_sep_push(mapped.take(k as int), mapped[k as int]);
                }
                assert(out@ =~= join_sep(mapped.take(k + 1)));
            }
            k = k + 1;
        }
        proof {
            assert(mapped.take(lines.len() as int) =~= mapped);
        }
        out
    }
}

/// Closes every open frame whose indentation is at or above `ind`, emitting
/// top-level frames as units and folding nested frames into their parents,
/// exactly as `close_frames` does on the model.
fn close_open_frames(stack: &mut Vec<Frame>, units: &mut Vec<CodeStructure>, ind: usize)
    ensures
        state_of(final(stack).deep_view(), final(units).deep_view()) == close_frames(
            state_of(old(stack).deep_view(), old(units).deep_view()),
            ind as int,
        ),
{
    while stack.len() > 0 && stack[stack.len() - 1].indent >= ind
        invariant
            close_frames(state_of(stack.deep_view(), units.deep_view()), ind as int)
                == close_frames(
                state_of(old(stack).deep_view(), old(units).deep_view()),
                ind as int,
            ),
        decreases stack.len(),
    {
        let ghost st0 = state_of(stack.deep_view(), units.deep_view());
        proof {
            assert(st0.stack.last() == stack@[stack@.len() - 1]@);
        }
        let f = stack.pop().unwrap();
        proof {
            assert(stack.deep_view() =~= st0.stack.drop_last());
            assert(f@ == st0.stack.last());
        }
        if f.indent == 0 {
            if f.lines.len() > 0 {
                let sc = starts_class_exec(f.lines[0].as_str());
                let sd = starts_def_exec(f.lines[0].as_str());
                proof {
                    assert(f.lines.deep_view()[0] == f.lines@[0]@);
                }
                if sc || sd {
                    let joined = join_lines(&f.lines);
                    let text = trim_trailing_newlines(joined.as_str());
                    let ghost udv = units.deep_view();
                    if sc {
                        units.push(CodeStructure::Class(text));
                    } else {
                        units.push(CodeStructure::Function(text));
                    }
                    proof {
                        assert(units.deep_view() =~= udv.push(units@.last().deep_view()));
                    }
                }
            }
        } else if stack.len() > 0 {
            let ghost sdv = stack.deep_view();
            let mut parent = stack.pop().unwrap();
            let mut fl = f.lines;
            proof {
                assert(parent@ == sdv.last());
            }
            parent.lines.append(&mut fl);
            proof {
                assert(parent.lines.deep_view() =~= sdv.last().lines + st0.stack.last().lines);
            }
            stack.push(parent);
            proof {
                assert(stack.deep_view() =~= sdv.update(
                    sdv.len() - 1,
                    FrameModel {
                        indent: sdv.last().indent,
                        lines: sdv.last().lines + st0.stack.last().lines,
                    },
                ));
            }
        }
        proof {
            assert(state_of(stack.deep_view(), units.deep_view()) =~~= pop_one(st0));
            assert(close_frames(st0, ind as int) == close_frames(pop_one(st0), ind as int));
        }
    }
}

/// Extracts every top-level `class` and `def` definition from `source`, in
/// source order, each unit carrying the definition's full original text with
/// everything nested beneath it and trailing newlines trimmed. The result is
/// exactly what the model extractor `extract_spec` yields.
pub fn extract_code_structures(source: &str) -> (r: Vec<CodeStructure>)
    ensures
        r.deep_view() == extract_spec(source@),
{
    let lines = split_into_lines(source);
    let ghost ls = lines.deep_view();
    let mut stack: Vec<Frame> = Vec::new();
    let mut units: Vec<CodeStructure> = Vec::new();
    let mut k: usize = 0;
    proof {
        assert(stack.deep_view() =~= Seq::<FrameModel>::empty());
        assert(units.deep_view() =~= Seq::<crate::code_structures::UnitModel>::empty());
        assert(state_of(stack.deep_view(), units.deep_view()) =~~= init_state());
        assert(ls.skip(0) =~= ls);
    }
    while k < lines.len()
        invariant
            0 <= k <= lines.len(),
            ls == lines.deep_view(),
            run_lines(init_state(), ls) == run_lines(
                state_of(stack.deep_view(), units.deep_view()),
                ls.skip(k as int),
            ),
        decreases lines.len() - k,
    {
        let ghost st0 = state_of(stack.deep_view(), units.deep_view());
        let line = &lines[k];
        proof {
            assert(line@ == ls[k as int]);
        }
        if is_blank_exec(line.as_str()) {
            if stack.len() > 0 {
                let ghost sdv = stack.deep_view();
                let mut top = stack.pop().unwrap();
                proof {
                    assert(top@ == sdv.last());
                }
                top.lines.push(line.clone());
                proof {
                    assert(top.lines.deep_view() =~= sdv.last().lines.push(ls[k as int]));
                }
                stack.push(top);
                proof {
                    assert(stack.deep_view() =~= sdv.update(
                        sdv.len() - 1,
                        FrameModel {
                            indent: sdv.last().indent,
                            lines: sdv.last().lines.push(ls[k as int]),
                        },
                    ));
                }
            }
        } else {
            let ind = line_indent_exec(line.as_str());
            close_open_frames(&mut stack, &mut units, ind);
            let ghost sdv = stack.deep_view();
            let mut fl: Vec<String> = Vec::new();
            fl.push(line.clone());
            stack.push(Frame { indent: ind, lines: fl });
            proof {
                assert(stack@.last().lines.deep_view() =~= seq![ls[k as int]]);
                assert(stack.deep_view() =~= sdv.push(
                    FrameModel { indent: ind as int, lines: seq![ls[k as int]] },
                ));
            }
        }
        proof {
            assert(state_of(stack.deep_view(), units.deep_view()) =~~= step_line(
                st0,
                ls[k as int],
            ));
            assert(ls.skip(k as int)[0] == ls[k as int]);
            assert(ls.skip(k as int).skip(1) =~= ls.skip(k + 1));
        }
        k = k + 1;
    }
    proof {
        assert(ls.skip(lines.len() as int) =~= Seq::<Seq<char>>::empty());
    }
    close_open_frames(&mut stack, &mut units, 0);
    units
}

} // verus!
