//! The mathematical model of the structural extractor: an explicit stack of
//! open frames, driven line by line over the physical lines of the source.
//!
//! A frame is one currently-open block, holding the indentation at which it
//! was opened and the lines collected for it so far. A line whose indentation
//! is at or below the top frame's closes that frame: a frame opened at the
//! top level (indentation zero) becomes a finished unit, any other frame is
//! folded into the frame below it, so nested definitions stay inside their
//! parent's text. Blank lines never close a frame; they are collected into
//! the open frame (and ignored when no frame is open).

use vstd::prelude::*;

use crate::code_structures::{starts_class, starts_def, UnitModel};
use crate::lines::{concat_nl, split_lines, trim_nl};

verus! {

/// One open block: the indentation at which it was opened and the source
/// lines collected for it so far.
#[verifier::ext_equal]
pub ghost struct FrameModel {
    pub indent: int,
    pub lines: Seq<Seq<char>>,
}

/// The extractor's whole state: the stack of open frames (innermost last)
/// and the finished units, in source order.
#[verifier::ext_equal]
pub ghost struct ExtractState {
    pub stack: Seq<FrameModel>,
    pub units: Seq<UnitModel>,
}

/// Characters that make a line blank: spaces, tabs and carriage returns.
pub open spec fn is_structural_ws(c: char) -> bool {
    c == ' ' || c == '\t' || c == '\r'
}

/// A line with nothing but whitespace on it (the empty line included).
pub open spec fn is_blank_line(l: Seq<char>) -> bool {
    forall|i: int| 0 <= i < l.len() ==> is_structural_ws(l[i])
}

/// The indentation of a line: the number of leading space characters.
pub open spec fn line_indent(l: Seq<char>) -> int
    decreases l.len(),
{
    if l.len() > 0 && l[0] == ' ' {
        1 + line_indent(l.skip(1))
    } else {
        0
    }
}

pub proof fn lemma_line_indent_nonneg(l: Seq<char>)
    ensures
        line_indent(l) >= 0,
    decreases l.len(),
{
    if l.len() > 0 && l[0] == ' ' {
        lemma_line_indent_nonneg(l.skip(1));
    }
}

/// A finished block's text: its lines joined with newlines, with the
/// trailing newlines trimmed.
pub open spec fn unit_text(ls: Seq<Seq<char>>) -> Seq<char> {
    trim_nl(concat_nl(ls))
}

/// The line a frame was opened with.
pub open spec fn frame_first_line(f: FrameModel) -> Seq<char> {
    if f.lines.len() > 0 {
        f.lines[0]
    } else {
        Seq::empty()
    }
}

/// A closed top-level frame becomes a unit when its first line is a `class `
/// or `def ` header; anything else at the top level is discarded.
pub open spec fn emit_frame(units: Seq<UnitModel>, f: FrameModel) -> Seq<UnitModel> {
    let first = frame_first_line(f);
    if starts_class(first) || starts_def(first) {
        units.push(UnitModel { is_class: starts_class(first), text: unit_text(f.lines) })
    } else {
        units
    }
}

/// Closes the top frame: a top-level frame is emitted, a nested frame is
/// folded into its parent's lines, and a nested frame with no parent left is
/// discarded.
pub open spec fn pop_one(st: ExtractState) -> ExtractState
    recommends
        st.stack.len() > 0,
{
    let f = st.stack.last();
    let rest = st.stack.drop_last();
    if f.indent == 0 {
        ExtractState { stack: rest, units: emit_frame(st.units, f) }
    } else if rest.len() > 0 {
        let parent = rest.last();
        ExtractState {
            stack: rest.update(
                rest.len() - 1,
                FrameModel { indent: parent.indent, lines: parent.lines + f.lines },
            ),
            units: st.units,
        }
    } else {
        ExtractState { stack: rest, units: st.units }
    }
}

/// Closes every frame opened at indentation `ind` or deeper.
pub open spec fn close_frames(st: ExtractState, ind: int) -> ExtractState
    decreases st.stack.len(),
{
    if st.stack.len() > 0 && st.stack.last().indent >= ind {
        close_frames(pop_one(st), ind)
    } else {
        st
    }
}

/// One step of the extractor. A blank line is collected into the open frame;
/// any other line first closes the frames at its indentation or deeper, then
/// opens a new frame of its own.
pub open spec fn step_line(st: ExtractState, l: Seq<char>) -> ExtractState {
    if is_blank_line(l) {
        if st.stack.len() > 0 {
            let top = st.stack.last();
            ExtractState {
                stack: st.stack.update(
                    st.stack.len() - 1,
                    FrameModel { indent: top.indent, lines: top.lines.push(l) },
                ),
                units: st.units,
            }
        } else {
            st
        }
    } else {
        let st1 = close_frames(st, line_indent(l));
        ExtractState {
            stack: st1.stack.push(FrameModel { indent: line_indent(l), lines: seq![l] }),
            units: st1.units,
        }
    }
}

/// Runs the extractor over a sequence of lines.
pub open spec fn run_lines(st: ExtractState, ls: Seq<Seq<char>>) -> ExtractState
    decreases ls.len(),
{
    if ls.len() == 0 {
        st
    } else {
        run_lines(step_line(st, ls[0]), ls.skip(1))
    }
}

/// The state the extractor starts from: no open frame, no unit.
pub open spec fn init_state() -> ExtractState {
    ExtractState { stack: Seq::empty(), units: Seq::empty() }
}

/// The extractor itself: split the source into physical lines, run the stack
/// over them, then close whatever is still open. The result is the sequence
/// of top-level units in source order.
pub open spec fn extract_spec(s: Seq<char>) -> Seq<UnitModel> {
    close_frames(run_lines(init_state(), split_lines(s)), 0).units
}

} // verus!
