//! Laws of the extractor, proved over the model: every extracted unit's text
//! is a verbatim contiguous block of the source, the units appear in source
//! order, a source that is one definition block yields exactly that one unit,
//! a source with no definition header yields nothing, and every unit's tag
//! matches its text's leading keyword.

use vstd::prelude::*;

use crate::code_structures::{starts_class, starts_def, UnitModel};
use crate::extraction_model::{
    close_frames, extract_spec, init_state, line_indent, pop_one, run_lines, step_line,
    unit_text, ExtractState, FrameModel,
};
use crate::lines::{
    concat_nl, lemma_concat_nl_add, lemma_concat_nl_one, lemma_concat_nl_split,
    lemma_trim_len_props, split_lines, trim_len, trim_nl,
};

verus! {

/// Frame indentations grow strictly from the bottom of the stack to the top,
/// and none is negative.
pub open spec fn indents_ok(stack: Seq<FrameModel>) -> bool {
    (forall|i: int, j: int| 0 <= i < j < stack.len() ==> stack[i].indent < stack[j].indent)
        && (forall|i: int| 0 <= i < stack.len() ==> stack[i].indent >= 0)
}

/// Every open frame holds at least the line it was opened with.
pub open spec fn frames_nonempty(stack: Seq<FrameModel>) -> bool {
    forall|i: int| 0 <= i < stack.len() ==> stack[i].lines.len() > 0
}

/// The open frames hold contiguous, adjacent runs of the source lines `ls`,
/// the topmost run ending exactly at line `end`.
pub open spec fn stack_ranges_ok(stack: Seq<FrameModel>, ls: Seq<Seq<char>>, end: int) -> bool
    decreases stack.len(),
{
    if stack.len() == 0 {
        true
    } else {
        let f = stack.last();
        let lo = end - f.lines.len();
        0 <= lo && f.lines == ls.subrange(lo, end) && stack_ranges_ok(
            stack.drop_last(),
            ls,
            lo,
        )
    }
}

/// The first source line still held by an open frame (or `end` itself when
/// no frame is open).
pub open spec fn stack_lo(stack: Seq<FrameModel>, end: int) -> int
    decreases stack.len(),
{
    if stack.len() == 0 {
        end
    } else {
        stack_lo(stack.drop_last(), end - stack.last().lines.len())
    }
}

/// The units' texts come from disjoint line ranges in order: the last unit's
/// text is a block of lines ending at or before `hi`, and the units before it
/// lie wholly before that block.
pub open spec fn ordered_line_blocks(units: Seq<UnitModel>, ls: Seq<Seq<char>>, hi: int) -> bool
    decreases units.len(),
{
    if units.len() == 0 {
        true
    } else {
        exists|a: int, b: int|
            0 <= a < b <= hi && units.last().text == unit_text(ls.subrange(a, b))
                && ordered_line_blocks(units.drop_last(), ls, a)
    }
}

/// Everything the induction over the extractor's run maintains.
pub open spec fn wf_state(st: ExtractState, ls: Seq<Seq<char>>, k: int) -> bool {
    indents_ok(st.stack) && frames_nonempty(st.stack) && stack_ranges_ok(st.stack, ls, k)
        && ordered_line_blocks(st.units, ls, stack_lo(st.stack, k))
}

proof fn lemma_ordered_mono(units: Seq<UnitModel>, ls: Seq<Seq<char>>, h1: int, h2: int)
    requires
        ordered_line_blocks(units, ls, h1),
        h1 <= h2,
    ensures
        ordered_line_blocks(units, ls, h2),
{
    if units.len() > 0 {
        let (a, b) = choose|a: int, b: int|
            0 <= a < b <= h1 && units.last().text == unit_text(ls.subrange(a, b))
                && ordered_line_blocks(units.drop_last(), ls, a);
        assert(0 <= a < b <= h2 && units.last().text == unit_text(ls.subrange(a, b))
            && ordered_line_blocks(units.drop_last(), ls, a));
    }
}

proof fn lemma_stack_lo_bounds(stack: Seq<FrameModel>, ls: Seq<Seq<char>>, end: int)
    requires
        stack_ranges_ok(stack, ls, end),
        frames_nonempty(stack),
    ensures
        0 <= stack_lo(stack, end) || stack.len() == 0,
        stack_lo(stack, end) <= end,
    decreases stack.len(),
{
    if stack.len() > 0 {
        let f = stack.last();
        lemma_stack_lo_bounds(stack.drop_last(), ls, end - f.lines.len());
    }
}

/// Closing one frame keeps the state well-formed.
proof fn lemma_pop_one_wf(st: ExtractState, ls: Seq<Seq<char>>, k: int)
    requires
        st.stack.len() > 0,
        k <= ls.len(),
        wf_state(st, ls, k),
    ensures
        wf_state(pop_one(st), ls, k),
{
    let f = st.stack.last();
    let rest = st.stack.drop_last();
    let lo_f = k - f.lines.len();
    assert(stack_ranges_ok(rest, ls, lo_f));
    assert(f.lines.len() > 0);
    if f.indent == 0 {
        if rest.len() > 0 {
            assert(st.stack[st.stack.len() - 2].indent < st.stack[st.stack.len() - 1].indent);
            assert(st.stack[st.stack.len() - 2].indent >= 0);
            assert(false);
        }
        assert(stack_lo(st.stack, k) == stack_lo(rest, lo_f));
        assert(stack_lo(rest, lo_f) == lo_f);
        let first = f.lines[0];
        if starts_class(first) || starts_def(first) {
            let nu = st.units.push(
                UnitModel { is_class: starts_class(first), text: unit_text(f.lines) },
            );
            assert(nu.drop_last() =~= st.units);
            assert(nu.last().text == unit_text(ls.subrange(lo_f, k)));
            assert(ordered_line_blocks(nu, ls, k));
        } else {
            lemma_ordered_mono(st.units, ls, lo_f, k);
        }
    } else if rest.len() > 0 {
        let parent = rest.last();
        let lo_p = lo_f - parent.lines.len();
        assert(0 <= lo_p);
        assert(parent.lines == ls.subrange(lo_p, lo_f));
        assert(stack_ranges_ok(rest.drop_last(), ls, lo_p));
        let merged = FrameModel { indent: parent.indent, lines: parent.lines + f.lines };
        let ns = rest.update(rest.len() - 1, merged);
        assert(merged.lines =~= ls.subrange(lo_p, k)) by {
            assert(ls.subrange(lo_p, lo_f) + ls.subrange(lo_f, k) =~= ls.subrange(lo_p, k));
        }
        assert(ns.drop_last() =~= rest.drop_last());
        assert(ns.last() == merged);
        assert(stack_ranges_ok(ns, ls, k));
        assert(indents_ok(ns)) by {
            assert(forall|i: int| 0 <= i < ns.len() - 1 ==> ns[i] == st.stack[i]);
            assert(ns.last().indent == rest.last().indent);
        }
        assert(frames_nonempty(ns));
        assert(stack_lo(ns, k) == stack_lo(ns.drop_last(), lo_p));
        assert(stack_lo(st.stack, k) == stack_lo(rest, lo_f));
        assert(stack_lo(rest, lo_f) == stack_lo(rest.drop_last(), lo_p));
    } else {
        assert(stack_lo(st.stack, k) == stack_lo(rest, lo_f));
        assert(stack_lo(rest, lo_f) == lo_f);
        lemma_ordered_mono(st.units, ls, lo_f, k);
    }
}

/// After `close_frames`, either nothing is open or the top frame sits at an
/// indentation strictly below `ind`.
proof fn lemma_close_post(st: ExtractState, ind: int)
    ensures
        close_frames(st, ind).stack.len() == 0 || close_frames(st, ind).stack.last().indent
            < ind,
    decreases st.stack.len(),
{
    if st.stack.len() > 0 && st.stack.last().indent >= ind {
        lemma_close_post(pop_one(st), ind);
    }
}

/// Closing frames keeps the state well-formed.
proof fn lemma_close_wf(st: ExtractState, ls: Seq<Seq<char>>, k: int, ind: int)
    requires
        k <= ls.len(),
        wf_state(st, ls, k),
    ensures
        wf_state(close_frames(st, ind), ls, k),
    decreases st.stack.len(),
{
    if st.stack.len() > 0 && st.stack.last().indent >= ind {
        lemma_pop_one_wf(st, ls, k);
        lemma_close_wf(pop_one(st), ls, k, ind);
    }
}

/// One extractor step keeps the state well-formed.
proof fn lemma_step_wf(st: ExtractState, ls: Seq<Seq<char>>, k: int)
    requires
        0 <= k < ls.len(),
        wf_state(st, ls, k),
    ensures
        wf_state(step_line(st, ls[k]), ls, k + 1),
{
    let l = ls[k];
    if crate::extraction_model::is_blank_line(l) {
        if st.stack.len() > 0 {
            let top = st.stack.last();
            let lo_t = k - top.lines.len();
            let nt = FrameModel { indent: top.indent, lines: top.lines.push(l) };
            let ns = st.stack.update(st.stack.len() - 1, nt);
            assert(nt.lines =~= ls.subrange(lo_t, k + 1)) by {
                assert(top.lines == ls.subrange(lo_t, k));
            }
            assert(ns.drop_last() =~= st.stack.drop_last());
            assert(ns.last() == nt);
            assert(stack_ranges_ok(ns, ls, k + 1));
            assert(indents_ok(ns)) by {
                assert(forall|i: int| 0 <= i < ns.len() - 1 ==> ns[i] == st.stack[i]);
            }
            assert(stack_lo(ns, k + 1) == stack_lo(st.stack, k));
        } else {
            lemma_ordered_mono(st.units, ls, k, k + 1);
        }
    } else {
        let ind = line_indent(l);
        let st1 = close_frames(st, ind);
        lemma_close_wf(st, ls, k, ind);
        lemma_close_post(st, ind);
        crate::extraction_model::lemma_line_indent_nonneg(l);
        let nf = FrameModel { indent: ind, lines: seq![l] };
        let ns = st1.stack.push(nf);
        assert(nf.lines =~= ls.subrange(k, k + 1));
        assert(ns.drop_last() =~= st1.stack);
        assert(ns.last() == nf);
        assert(stack_ranges_ok(ns, ls, k + 1));
        assert(indents_ok(ns)) by {
            assert(forall|i: int| 0 <= i < ns.len() - 1 ==> ns[i] == st1.stack[i]);
            assert forall|i: int, j: int| 0 <= i < j < ns.len() implies ns[i].indent
                < ns[j].indent by {
                if j == ns.len() - 1 {
                    if st1.stack.len() > 0 {
                        assert(st1.stack[i].indent <= st1.stack.last().indent);
                    }
                }
            }
        }
        assert(frames_nonempty(ns));
        assert(stack_lo(ns, k + 1) == stack_lo(st1.stack, k));
    }
}

/// Running the extractor from a well-formed state keeps it well-formed.
proof fn lemma_run_wf(st: ExtractState, ls: Seq<Seq<char>>, k: int)
    requires
        0 <= k <= ls.len(),
        wf_state(st, ls, k),
    ensures
        wf_state(run_lines(st, ls.skip(k)), ls, ls.len() as int),
    decreases ls.len() - k,
{
    if k == ls.len() {
        assert(ls.skip(k) =~= Seq::<Seq<char>>::empty());
    } else {
        lemma_step_wf(st, ls, k);
        assert(ls.skip(k)[0] == ls[k]);
        assert(ls.skip(k).skip(1) =~= ls.skip(k + 1));
        lemma_run_wf(step_line(st, ls[k]), ls, k + 1);
        assert(run_lines(st, ls.skip(k)) == run_lines(step_line(st, ls[k]), ls.skip(k + 1)));
    }
}

/// The extractor's final state is well-formed: in particular its units are,
/// in order, blocks of whole source lines.
pub proof fn lemma_extract_wf(s: Seq<char>)
    ensures
        ordered_line_blocks(extract_spec(s), split_lines(s), split_lines(s).len() as int),
{
    let ls = split_lines(s);
    assert(wf_state(init_state(), ls, 0));
    assert(ls.skip(0) =~= ls);
    lemma_run_wf(init_state(), ls, 0);
    let rst = run_lines(init_state(), ls);
    lemma_close_wf(rst, ls, ls.len() as int, 0);
    let fst = close_frames(rst, 0);
    lemma_stack_lo_bounds(fst.stack, ls, ls.len() as int);
    lemma_ordered_mono(fst.units, ls, stack_lo(fst.stack, ls.len() as int), ls.len() as int);
}

/// The texts of a sequence of units.
pub open spec fn unit_texts(us: Seq<UnitModel>) -> Seq<Seq<char>> {
    Seq::new(us.len(), |i: int| us[i].text)
}

/// The texts come from disjoint stretches of `s` in order: the last text is
/// verbatim a piece of `s` that begins at a line start (the start of `s`, or
/// right after a newline) and ends at or before `hi`, and the texts before
/// it lie wholly before that piece.
pub open spec fn ordered_char_blocks(texts: Seq<Seq<char>>, s: Seq<char>, hi: int) -> bool
    decreases texts.len(),
{
    if texts.len() == 0 {
        true
    } else {
        exists|a: int, b: int|
            0 <= a <= b <= hi && (a == 0 || s[a - 1] == '\n') && texts.last() == s.subrange(
                a,
                b,
            ) && ordered_char_blocks(texts.drop_last(), s, a)
    }
}

/// The character position at which line `a` starts, in the joined text.
pub open spec fn line_off(ls: Seq<Seq<char>>, a: int) -> int {
    concat_nl(ls.take(a)).len() as int
}

proof fn lemma_line_off_split(ls: Seq<Seq<char>>, a: int, b: int)
    requires
        0 <= a <= b <= ls.len(),
    ensures
        concat_nl(ls.take(b)) == concat_nl(ls.take(a)) + concat_nl(ls.subrange(a, b)),
        line_off(ls, a) <= line_off(ls, b),
        line_off(ls, b) - line_off(ls, a) == concat_nl(ls.subrange(a, b)).len(),
{
    assert(ls.take(a) + ls.subrange(a, b) =~= ls.take(b));
    lemma_concat_nl_add(ls.take(a), ls.subrange(a, b));
}

proof fn lemma_line_off_le(ls: Seq<Seq<char>>, a: int)
    requires
        0 <= a < ls.len(),
    ensures
        line_off(ls, a) + ls[a].len() + 1 <= line_off(ls, ls.len() as int),
{
    lemma_line_off_split(ls, a, a + 1);
    lemma_line_off_split(ls, a + 1, ls.len() as int);
    assert(ls.subrange(a, a + 1) =~= seq![ls[a]]);
    lemma_concat_nl_one(ls[a]);
}

/// Units whose texts are ordered blocks of whole lines have texts that are
/// ordered stretches of the joined source text.
proof fn lemma_blocks_to_char(units: Seq<UnitModel>, s: Seq<char>, hi: int)
    requires
        0 <= hi <= split_lines(s).len(),
        ordered_line_blocks(units, split_lines(s), hi),
    ensures
        ordered_char_blocks(
            unit_texts(units),
            s,
            if line_off(split_lines(s), hi) <= s.len() {
                line_off(split_lines(s), hi)
            } else {
                s.len() as int
            },
        ),
    decreases units.len(),
{
    let ls = split_lines(s);
    let texts = unit_texts(units);
    let hic: int = if line_off(ls, hi) <= s.len() {
        line_off(ls, hi)
    } else {
        s.len() as int
    };
    if units.len() == 0 {
        assert(texts.len() == 0);
    } else {
        let (a, b) = choose|a: int, b: int|
            0 <= a < b <= hi && units.last().text == unit_text(ls.subrange(a, b))
                && ordered_line_blocks(units.drop_last(), ls, a);
        lemma_blocks_to_char(units.drop_last(), s, a);
        lemma_line_off_le(ls, a);
        lemma_line_off_split(ls, 0, a);
        lemma_line_off_split(ls, a, b);
        lemma_line_off_split(ls, b, ls.len() as int);
        lemma_concat_nl_split(s);
        let oa = line_off(ls, a);
        let ob = line_off(ls, b);
        let c = concat_nl(ls.subrange(a, b));
        let full = s.push('\n');
        assert(line_off(ls, ls.len() as int) == s.len() + 1) by {
            assert(ls.take(ls.len() as int) =~= ls);
        }
        assert(oa + ls[a].len() + 1 <= s.len() + 1);
        assert(0 <= oa <= s.len());
        assert(ob <= s.len() + 1);
        assert(concat_nl(ls.take(b)) == concat_nl(ls.take(a)) + c);
        assert(full == concat_nl(ls.take(b)) + concat_nl(ls.skip(b))) by {
            assert(ls.take(b) + ls.skip(b) =~= ls);
            lemma_concat_nl_add(ls.take(b), ls.skip(b));
        }
        assert(c =~= full.subrange(oa, ob));
        let tl = trim_len(c);
        lemma_trim_len_props(c);
        assert(units.last().text == c.take(tl));
        if tl > 0 {
            assert(c[tl - 1] != '\n');
            assert(full[oa + tl - 1] != '\n');
            assert(full[s.len() as int] == '\n');
            assert(oa + tl <= s.len());
        }
        assert(c.take(tl) =~= s.subrange(oa, oa + tl));
        assert(oa + tl <= hic) by {
            if line_off(ls, hi) <= s.len() {
                lemma_line_off_split(ls, b, hi);
            }
        }
        assert(oa == 0 || s[oa - 1] == '\n') by {
            if a == 0 {
                assert(ls.take(0) =~= Seq::<Seq<char>>::empty());
            } else {
                lemma_line_off_split(ls, a - 1, a);
                assert(ls.subrange(a - 1, a) =~= seq![ls[a - 1]]);
                lemma_concat_nl_one(ls[a - 1]);
                let pre = concat_nl(ls.take(a));
                assert(pre == concat_nl(ls.take(a - 1)) + ls[a - 1].push('\n'));
                assert(pre[oa - 1] == '\n');
                assert(full[oa - 1] == pre[oa - 1]);
            }
        }
        assert(texts.last() == units.last().text);
        assert(texts.drop_last() =~= unit_texts(units.drop_last()));
        assert(0 <= oa <= oa + tl <= hic && (oa == 0 || s[oa - 1] == '\n') && texts.last()
            == s.subrange(oa, oa + tl) && ordered_char_blocks(texts.drop_last(), s, oa));
    }
}

/// Every extracted unit's text is, verbatim, a contiguous stretch of the
/// source that begins at a line start, and the units of one extraction
/// cover disjoint stretches in source order: the text of each unit ends at
/// or before the point where the text of the next one starts. Together with
/// `lemma_unit_kind_matches_text` this settles containment in general: a
/// unit opens only where a line begins with its own unindented `class ` or
/// `def ` keyword, so a definition line indented under an enclosing
/// definition never opens a unit of its own — its text can only lie inside
/// the enclosing unit's stretch.
pub proof fn lemma_units_are_ordered_source_blocks(s: Seq<char>)
    ensures
        ordered_char_blocks(unit_texts(extract_spec(s)), s, s.len() as int),
{
    let ls = split_lines(s);
    lemma_extract_wf(s);
    lemma_blocks_to_char(extract_spec(s), s, ls.len() as int);
    lemma_concat_nl_split(s);
    assert(line_off(ls, ls.len() as int) == s.len() + 1) by {
        assert(ls.take(ls.len() as int) =~= ls);
    }
}

/// Each unit's tag agrees with its text's leading keyword.
pub open spec fn units_tagged(units: Seq<UnitModel>) -> bool {
    forall|i: int|
        0 <= i < units.len() ==> (units[i].is_class ==> starts_class(units[i].text)) && (
        !units[i].is_class ==> starts_def(units[i].text))
}

/// A block's text keeps the leading keyword of its first line: trimming only
/// ever removes trailing newlines, never the header.
proof fn lemma_unit_text_prefix(ls: Seq<Seq<char>>)
    requires
        ls.len() > 0,
        starts_class(ls[0]) || starts_def(ls[0]),
    ensures
        starts_class(unit_text(ls)) == starts_class(ls[0]),
        starts_def(unit_text(ls)) == starts_def(ls[0]),
{
    let c = concat_nl(ls);
    let tl = trim_len(c);
    lemma_trim_len_props(c);
    assert(c == ls[0] + seq!['\n'] + concat_nl(ls.skip(1)));
    assert(forall|j: int| 0 <= j < ls[0].len() ==> c[j] == ls[0][j]);
    if starts_class(ls[0]) {
        assert(c[5] == ' ');
        assert(tl >= 6);
    } else {
        assert(c[3] == ' ');
        assert(tl >= 4);
    }
    assert(forall|j: int| 0 <= j < tl ==> unit_text(ls)[j] == c[j]);
}

proof fn lemma_pop_tagged(st: ExtractState)
    requires
        st.stack.len() > 0,
        units_tagged(st.units),
    ensures
        units_tagged(pop_one(st).units),
{
    let f = st.stack.last();
    if f.indent == 0 {
        let first = crate::extraction_model::frame_first_line(f);
        if starts_class(first) || starts_def(first) {
            assert(f.lines.len() > 0);
            lemma_unit_text_prefix(f.lines);
            let nu = pop_one(st).units;
            assert(nu.last().is_class == starts_class(first));
            assert(forall|i: int| 0 <= i < nu.len() - 1 ==> nu[i] == st.units[i]);
        }
    }
}

proof fn lemma_close_tagged(st: ExtractState, ind: int)
    requires
        units_tagged(st.units),
    ensures
        units_tagged(close_frames(st, ind).units),
    decreases st.stack.len(),
{
    if st.stack.len() > 0 && st.stack.last().indent >= ind {
        lemma_pop_tagged(st);
        lemma_close_tagged(pop_one(st), ind);
    }
}

proof fn lemma_run_tagged(st: ExtractState, ls: Seq<Seq<char>>)
    requires
        units_tagged(st.units),
    ensures
        units_tagged(run_lines(st, ls).units),
    decreases ls.len(),
{
    if ls.len() > 0 {
        let st1 = step_line(st, ls[0]);
        if !crate::extraction_model::is_blank_line(ls[0]) {
            lemma_close_tagged(st, line_indent(ls[0]));
        }
        lemma_run_tagged(st1, ls.skip(1));
    }
}

/// Every extracted unit is tagged by its own text: a `Class` unit's text
/// begins with `class `, a `Function` unit's text begins with `def `.
pub proof fn lemma_unit_kind_matches_text(s: Seq<char>)
    ensures
        units_tagged(extract_spec(s)),
{
    lemma_run_tagged(init_state(), split_lines(s));
    lemma_close_tagged(run_lines(init_state(), split_lines(s)), 0);
}

proof fn lemma_pop_no_units(st: ExtractState, ls: Seq<Seq<char>>, k: int)
    requires
        st.stack.len() > 0,
        k <= ls.len(),
        wf_state(st, ls, k),
        st.units.len() == 0,
        forall|i: int| 0 <= i < ls.len() ==> !starts_class(ls[i]) && !starts_def(ls[i]),
    ensures
        wf_state(pop_one(st), ls, k),
        pop_one(st).units.len() == 0,
{
    lemma_pop_one_wf(st, ls, k);
    let f = st.stack.last();
    if f.indent == 0 {
        let lo_f = k - f.lines.len();
        assert(f.lines == ls.subrange(lo_f, k));
        assert(f.lines.len() > 0);
        assert(f.lines[0] == ls[lo_f]);
    }
}

proof fn lemma_close_no_units(st: ExtractState, ls: Seq<Seq<char>>, k: int, ind: int)
    requires
        k <= ls.len(),
        wf_state(st, ls, k),
        st.units.len() == 0,
        forall|i: int| 0 <= i < ls.len() ==> !starts_class(ls[i]) && !starts_def(ls[i]),
    ensures
        wf_state(close_frames(st, ind), ls, k),
        close_frames(st, ind).units.len() == 0,
    decreases st.stack.len(),
{
    if st.stack.len() > 0 && st.stack.last().indent >= ind {
        lemma_pop_no_units(st, ls, k);
        lemma_close_no_units(pop_one(st), ls, k, ind);
    }
}

proof fn lemma_run_no_units(st: ExtractState, ls: Seq<Seq<char>>, k: int)
    requires
        0 <= k <= ls.len(),
        wf_state(st, ls, k),
        st.units.len() == 0,
        forall|i: int| 0 <= i < ls.len() ==> !starts_class(ls[i]) && !starts_def(ls[i]),
    ensures
        wf_state(run_lines(st, ls.skip(k)), ls, ls.len() as int),
        run_lines(st, ls.skip(k)).units.len() == 0,
    decreases ls.len() - k,
{
    if k == ls.len() {
        assert(ls.skip(k) =~= Seq::<Seq<char>>::empty());
    } else {
        lemma_step_wf(st, ls, k);
        let st1 = step_line(st, ls[k]);
        if !crate::extraction_model::is_blank_line(ls[k]) {
            lemma_close_no_units(st, ls, k, line_indent(ls[k]));
        }
        assert(st1.units.len() == 0);
        assert(ls.skip(k)[0] == ls[k]);
        assert(ls.skip(k).skip(1) =~= ls.skip(k + 1));
        lemma_run_no_units(st1, ls, k + 1);
        assert(run_lines(st, ls.skip(k)) == run_lines(st1, ls.skip(k + 1)));
    }
}

/// A source in which no line begins with `class ` or `def ` yields no unit
/// at all; the empty source in particular yields none.
pub proof fn lemma_no_headers_no_units(s: Seq<char>)
    requires
        forall|i: int|
            0 <= i < split_lines(s).len() ==> !starts_class(split_lines(s)[i]) && !starts_def(
                split_lines(s)[i],
            ),
    ensures
        extract_spec(s).len() == 0,
{
    let ls = split_lines(s);
    assert(wf_state(init_state(), ls, 0));
    assert(ls.skip(0) =~= ls);
    lemma_run_no_units(init_state(), ls, 0);
    let rst = run_lines(init_state(), ls);
    lemma_close_no_units(rst, ls, ls.len() as int, 0);
}

/// The invariant of a source that is one single top-level block: one frame
/// chain open, rooted at indentation zero on the very first line, and no
/// unit emitted yet.
pub open spec fn single_block_inv(st: ExtractState, ls: Seq<Seq<char>>, k: int) -> bool {
    wf_state(st, ls, k) && st.stack.len() >= 1 && st.stack[0].indent == 0 && stack_lo(
        st.stack,
        k,
    ) == 0 && st.units.len() == 0
}

proof fn lemma_close_keeps_bottom(st: ExtractState, ls: Seq<Seq<char>>, k: int, ind: int)
    requires
        k <= ls.len(),
        ind >= 1,
        single_block_inv(st, ls, k),
    ensures
        single_block_inv(close_frames(st, ind), ls, k),
        close_frames(st, ind).units == st.units,
    decreases st.stack.len(),
{
    if st.stack.len() > 0 && st.stack.last().indent >= ind {
        let f = st.stack.last();
        let rest = st.stack.drop_last();
        assert(st.stack.len() >= 2) by {
            assert(st.stack[0].indent == 0);
        }
        lemma_pop_one_wf(st, ls, k);
        let ns = pop_one(st);
        let lo_f = k - f.lines.len();
        let parent = rest.last();
        let lo_p = lo_f - parent.lines.len();
        assert(ns.stack[0].indent == 0) by {
            if rest.len() == 1 {
                assert(ns.stack[0].indent == parent.indent);
                assert(parent == st.stack[0]);
            } else {
                assert(ns.stack[0] == st.stack[0]);
            }
        }
        assert(stack_lo(ns.stack, k) == 0) by {
            assert(stack_lo(ns.stack, k) == stack_lo(ns.stack.drop_last(), lo_p));
            assert(ns.stack.drop_last() =~= rest.drop_last());
            assert(stack_lo(st.stack, k) == stack_lo(rest, lo_f));
            assert(stack_lo(rest, lo_f) == stack_lo(rest.drop_last(), lo_p));
        }
        lemma_close_keeps_bottom(ns, ls, k, ind);
    }
}

proof fn lemma_step_single(st: ExtractState, ls: Seq<Seq<char>>, k: int)
    requires
        1 <= k < ls.len(),
        single_block_inv(st, ls, k),
        crate::extraction_model::is_blank_line(ls[k]) || line_indent(ls[k]) >= 1,
    ensures
        single_block_inv(step_line(st, ls[k]), ls, k + 1),
{
    lemma_step_wf(st, ls, k);
    let l = ls[k];
    let ns = step_line(st, l);
    if crate::extraction_model::is_blank_line(l) {
        let top = st.stack.last();
        assert(ns.stack[0].indent == 0) by {
            if st.stack.len() == 1 {
                assert(ns.stack[0].indent == top.indent);
                assert(top == st.stack[0]);
            } else {
                assert(ns.stack[0] == st.stack[0]);
            }
        }
        assert(stack_lo(ns.stack, k + 1) == 0) by {
            assert(ns.stack.drop_last() =~= st.stack.drop_last());
            assert(stack_lo(ns.stack, k + 1) == stack_lo(
                st.stack.drop_last(),
                k - top.lines.len(),
            ));
            assert(stack_lo(st.stack, k) == stack_lo(st.stack.drop_last(), k - top.lines.len()));
        }
    } else {
        let ind = line_indent(l);
        lemma_close_keeps_bottom(st, ls, k, ind);
        let st1 = close_frames(st, ind);
        assert(ns.stack[0] == st1.stack[0]);
        assert(stack_lo(ns.stack, k + 1) == 0) by {
            assert(ns.stack.drop_last() =~= st1.stack);
            assert(stack_lo(ns.stack, k + 1) == stack_lo(st1.stack, k));
        }
    }
}

proof fn lemma_run_single(st: ExtractState, ls: Seq<Seq<char>>, k: int)
    requires
        1 <= k <= ls.len(),
        single_block_inv(st, ls, k),
        forall|j: int|
            1 <= j < ls.len() ==> crate::extraction_model::is_blank_line(ls[j]) || line_indent(
                ls[j],
            ) >= 1,
    ensures
        single_block_inv(run_lines(st, ls.skip(k)), ls, ls.len() as int),
    decreases ls.len() - k,
{
    if k == ls.len() {
        assert(ls.skip(k) =~= Seq::<Seq<char>>::empty());
    } else {
        lemma_step_single(st, ls, k);
        assert(ls.skip(k)[0] == ls[k]);
        assert(ls.skip(k).skip(1) =~= ls.skip(k + 1));
        lemma_run_single(step_line(st, ls[k]), ls, k + 1);
        assert(run_lines(st, ls.skip(k)) == run_lines(step_line(st, ls[k]), ls.skip(k + 1)));
    }
}

proof fn lemma_close_all_single(st: ExtractState, ls: Seq<Seq<char>>, k: int)
    requires
        k <= ls.len(),
        single_block_inv(st, ls, k),
        starts_class(ls[0]) || starts_def(ls[0]),
    ensures
        close_frames(st, 0).units =~= seq![
            UnitModel {
                is_class: starts_class(ls[0]),
                text: unit_text(ls.subrange(0, k)),
            },
        ],
    decreases st.stack.len(),
{
    let f = st.stack.last();
    let rest = st.stack.drop_last();
    let lo_f = k - f.lines.len();
    assert(f.indent >= 0);
    if st.stack.len() == 1 {
        assert(f == st.stack[0]);
        assert(stack_lo(st.stack, k) == stack_lo(rest, lo_f));
        assert(lo_f == 0);
        assert(f.lines == ls.subrange(0, k));
        assert(f.lines.len() > 0);
        assert(f.lines[0] == ls[0]);
        let ns = pop_one(st);
        assert(ns.stack.len() == 0);
        assert(ns.units =~= seq![
            UnitModel { is_class: starts_class(ls[0]), text: unit_text(ls.subrange(0, k)) },
        ]);
        assert(close_frames(st, 0) == close_frames(ns, 0));
    } else {
        assert(st.stack[0].indent < f.indent);
        assert(f.indent != 0);
        lemma_pop_one_wf(st, ls, k);
        let ns = pop_one(st);
        let parent = rest.last();
        let lo_p = lo_f - parent.lines.len();
        assert(ns.stack[0].indent == 0) by {
            if rest.len() == 1 {
                assert(ns.stack[0].indent == parent.indent);
                assert(parent == st.stack[0]);
            } else {
                assert(ns.stack[0] == st.stack[0]);
            }
        }
        assert(stack_lo(ns.stack, k) == 0) by {
            assert(ns.stack.drop_last() =~= rest.drop_last());
            assert(stack_lo(ns.stack, k) == stack_lo(rest.drop_last(), lo_p));
            assert(stack_lo(st.stack, k) == stack_lo(rest, lo_f));
            assert(stack_lo(rest, lo_f) == stack_lo(rest.drop_last(), lo_p));
        }
        lemma_close_all_single(ns, ls, k);
        assert(close_frames(st, 0) == close_frames(ns, 0));
    }
}

/// A source that is one single definition block — a `class ` or `def `
/// header on its first line, every later line blank or indented — yields
/// exactly one unit, tagged by that header, whose text is the whole source
/// with its trailing newlines trimmed. In particular every nested line
/// (a method of the class, say) stays inside that one unit's text, and no
/// separate unit is made for it.
pub proof fn lemma_single_block_single_unit(s: Seq<char>)
    requires
        starts_class(split_lines(s)[0]) || starts_def(split_lines(s)[0]),
        forall|j: int|
            1 <= j < split_lines(s).len() ==> crate::extraction_model::is_blank_line(
                split_lines(s)[j],
            ) || line_indent(split_lines(s)[j]) >= 1,
    ensures
        extract_spec(s).len() == 1,
        extract_spec(s)[0].is_class == starts_class(split_lines(s)[0]),
        extract_spec(s)[0].text == trim_nl(s.push('\n')),
{
    let ls = split_lines(s);
    crate::lines::lemma_split_lines_nonempty(s);
    let l0 = ls[0];
    assert(!crate::extraction_model::is_blank_line(l0)) by {
        assert(!crate::extraction_model::is_structural_ws(l0[0]));
    }
    assert(line_indent(l0) == 0);
    let st1 = step_line(init_state(), l0);
    assert(close_frames(init_state(), 0) == init_state());
    assert(st1.stack =~= seq![FrameModel { indent: 0, lines: seq![l0] }]);
    assert(st1.units.len() == 0);
    assert(single_block_inv(st1, ls, 1)) by {
        assert(st1.stack.last() == FrameModel { indent: 0, lines: seq![l0] });
        assert(st1.stack.last().lines.len() == 1);
        assert(st1.stack.last().lines =~= ls.subrange(0, 1));
        assert(st1.stack.drop_last() =~= Seq::<FrameModel>::empty());
        assert(stack_ranges_ok(Seq::<FrameModel>::empty(), ls, 0));
        assert(stack_ranges_ok(st1.stack.drop_last(), ls, 0));
        assert(stack_ranges_ok(st1.stack, ls, 1));
        assert(stack_lo(st1.stack, 1) == stack_lo(st1.stack.drop_last(), 0));
    }
    assert(ls.skip(0) =~= ls);
    assert(ls.skip(0)[0] == ls[0]);
    assert(ls.skip(0).skip(1) =~= ls.skip(1));
    assert(run_lines(init_state(), ls) == run_lines(st1, ls.skip(1)));
    lemma_run_single(st1, ls, 1);
    let rst = run_lines(st1, ls.skip(1));
    lemma_close_all_single(rst, ls, ls.len() as int);
    assert(ls.subrange(0, ls.len() as int) =~= ls);
    lemma_concat_nl_split(s);
    assert(unit_text(ls) == trim_nl(s.push('\n')));
}

/// The empty source yields no unit.
pub proof fn lemma_empty_input_no_units()
    ensures
        extract_spec(Seq::<char>::empty()).len() == 0,
{
    let s = Seq::<char>::empty();
    assert(forall|i: int|
        0 <= i < split_lines(s).len() ==> !starts_class(split_lines(s)[i]) && !starts_def(
            split_lines(s)[i],
        )) by {
        assert(split_lines(s) =~= seq![s]);
    }
    lemma_no_headers_no_units(s);
}

} // verus!
