//! Cutting source bytes into definition segments along regex matches: every
//! match of an anchored `class` or `def` header opens a segment that runs to
//! the next match (or to the end of the text). The regex engine only reports
//! where the headers stand; merging the match lists, cutting the text and
//! tagging each segment is done here and proved.

use vstd::prelude::*;
use vstd::string::*;

verus! {

/// What `regex::Regex::find_iter` returns for a given pattern on a given
/// byte text: the byte spans of its matches, in order.
pub uninterp spec fn found_spans(pattern: Seq<char>, text: Seq<u8>) -> Seq<(int, int)>;

/// The pattern that finds `class` headers at the start of a line.
pub open spec fn class_pattern() -> Seq<char> {
    "(?m)^class\\s+(\\w+)"@
}

/// The pattern that finds `def` headers at the start of a line.
pub open spec fn def_pattern() -> Seq<char> {
    "(?m)^def\\s+(\\w+)"@
}

/// Byte spans as mathematical pairs.
pub open spec fn spans_view(s: Seq<(usize, usize)>) -> Seq<(int, int)> {
    Seq::new(s.len(), |i: int| (s[i].0 as int, s[i].1 as int))
}

/// Marks as mathematical pairs.
pub open spec fn marks_view(s: Seq<(bool, usize)>) -> Seq<(bool, int)> {
    Seq::new(s.len(), |i: int| (s[i].0, s[i].1 as int))
}

/// Relies on regex::Regex::find_iter with the pattern `(?m)^class\s+(\w+)`:
/// the iterator yields successive non-overlapping matches, leftmost first;
/// each match's span is in byte offsets, lies within the text, and covers at
/// least `class` and one more character, the five letters `class` first.
/// Text that is not valid UTF-8 has no matches.
#[verifier::external_body]
fn find_class_spans(text: &Vec<u8>) -> (r: Vec<(usize, usize)>)
    ensures
        spans_view(r@) == found_spans(class_pattern(), text@),
        forall|i: int| 0 <= i < r@.len() ==> (#[trigger] r@[i]).0 + 5 < r@[i].1 <= text@.len(),
        forall|i: int, j: int| 0 <= i < j < r@.len() ==> (#[trigger] r@[i]).1 <= (#[trigger] r@[j]).0,
        forall|i: int|
            0 <= i < r@.len() ==> text@.subrange(r@[i].0 as int, r@[i].0 + 5) == seq![
                'c' as u8,
                'l' as u8,
                'a' as u8,
                's' as u8,
                's' as u8,
            ],
{
    match std::str::from_utf8(text.as_slice()) {
        Ok(s) => {
            let re = regex::Regex::new(r"(?m)^class\s+(\w+)").unwrap();
            let mut v: Vec<(usize, usize)> = Vec::new();
            for m in re.find_iter(s) {
                v.push((m.start(), m.end()));
            }
            v
        },
        Err(_) => Vec::new(),
    }
}

/// Relies on regex::Regex::find_iter with the pattern `(?m)^def\s+(\w+)`:
/// the iterator yields successive non-overlapping matches, leftmost first;
/// each match's span is in byte offsets, lies within the text, and covers at
/// least `def` and one more character, the three letters `def` first. Text
/// that is not valid UTF-8 has no matches.
#[verifier::external_body]
fn find_def_spans(text: &Vec<u8>) -> (r: Vec<(usize, usize)>)
    ensures
        spans_view(r@) == found_spans(def_pattern(), text@),
        forall|i: int| 0 <= i < r@.len() ==> (#[trigger] r@[i]).0 + 3 < r@[i].1 <= text@.len(),
        forall|i: int, j: int| 0 <= i < j < r@.len() ==> (#[trigger] r@[i]).1 <= (#[trigger] r@[j]).0,
        forall|i: int|
            0 <= i < r@.len() ==> text@.subrange(r@[i].0 as int, r@[i].0 + 3) == seq![
                'd' as u8,
                'e' as u8,
                'f' as u8,
            ],
{
    match std::str::from_utf8(text.as_slice()) {
        Ok(s) => {
            let re = regex::Regex::new(r"(?m)^def\s+(\w+)").unwrap();
            let mut v: Vec<(usize, usize)> = Vec::new();
            for m in re.find_iter(s) {
                v.push((m.start(), m.end()));
            }
            v
        },
        Err(_) => Vec::new(),
    }
}

/// The two match lists merged into one list of tagged segment starts,
/// ascending by position; where a class match and a def match start at the
/// same place, the class mark comes first.
pub open spec fn merge_marks(cs: Seq<(int, int)>, ds: Seq<(int, int)>) -> Seq<(bool, int)>
    decreases cs.len() + ds.len(),
{
    if cs.len() == 0 && ds.len() == 0 {
        Seq::empty()
    } else if ds.len() == 0 || (cs.len() > 0 && cs[0].0 <= ds[0].0) {
        seq![(true, cs[0].0)].add(merge_marks(cs.skip(1), ds))
    } else {
        seq![(false, ds[0].0)].add(merge_marks(cs, ds.skip(1)))
    }
}

/// One definition segment: its tag and its bytes, which run from its own
/// header to the next header (or the end of the text).
pub struct Segment {
    pub is_class: bool,
    pub body: Vec<u8>,
}

/// Ghost model of a segment.
#[verifier::ext_equal]
pub ghost struct SegmentModel {
    pub is_class: bool,
    pub body: Seq<u8>,
}

impl View for Segment {
    type V = SegmentModel;

    open spec fn view(&self) -> SegmentModel {
        SegmentModel { is_class: self.is_class, body: self.body@ }
    }
}

impl DeepView for Segment {
    type V = SegmentModel;

    open spec fn deep_view(&self) -> SegmentModel {
        self.view()
    }
}

/// The segments the marks cut the bytes into: each runs from its mark to the
/// next mark, the last one to the end.
pub open spec fn segments_spec(marks: Seq<(bool, int)>, bytes: Seq<u8>) -> Seq<SegmentModel> {
    Seq::new(
        marks.len(),
        |i: int|
            SegmentModel {
                is_class: marks[i].0,
                body: bytes.subrange(
                    marks[i].1,
                    if i + 1 < marks.len() {
                        marks[i + 1].1
                    } else {
                        bytes.len() as int
                    },
                ),
            },
    )
}

/// What harvesting a byte text yields: the class and def matches merged in
/// order, and the text cut at every match start.
pub open spec fn harvest_spec(
    cs: Seq<(int, int)>,
    ds: Seq<(int, int)>,
    bytes: Seq<u8>,
) -> Seq<SegmentModel> {
    segments_spec(merge_marks(cs, ds), bytes)
}

proof fn lemma_merge_marks_lower(cs: Seq<(int, int)>, ds: Seq<(int, int)>, lo: int)
    requires
        forall|i: int| 0 <= i < cs.len() ==> lo <= cs[i].0,
        forall|i: int| 0 <= i < ds.len() ==> lo <= ds[i].0,
    ensures
        forall|i: int| 0 <= i < merge_marks(cs, ds).len() ==> lo <= merge_marks(cs, ds)[i].1,
    decreases cs.len() + ds.len(),
{
    let m = merge_marks(cs, ds);
    if cs.len() == 0 && ds.len() == 0 {
    } else if ds.len() == 0 || (cs.len() > 0 && cs[0].0 <= ds[0].0) {
        lemma_merge_marks_lower(cs.skip(1), ds, lo);
        assert forall|i: int| 0 <= i < m.len() implies lo <= m[i].1 by {
            if i > 0 {
                assert(m[i] == merge_marks(cs.skip(1), ds)[i - 1]);
            }
        }
    } else {
        lemma_merge_marks_lower(cs, ds.skip(1), lo);
        assert forall|i: int| 0 <= i < m.len() implies lo <= m[i].1 by {
            if i > 0 {
                assert(m[i] == merge_marks(cs, ds.skip(1))[i - 1]);
            }
        }
    }
}

proof fn lemma_merge_marks_upper(cs: Seq<(int, int)>, ds: Seq<(int, int)>, hi: int)
    requires
        forall|i: int| 0 <= i < cs.len() ==> cs[i].0 <= hi,
        forall|i: int| 0 <= i < ds.len() ==> ds[i].0 <= hi,
    ensures
        forall|i: int| 0 <= i < merge_marks(cs, ds).len() ==> merge_marks(cs, ds)[i].1 <= hi,
    decreases cs.len() + ds.len(),
{
    let m = merge_marks(cs, ds);
    if cs.len() == 0 && ds.len() == 0 {
    } else if ds.len() == 0 || (cs.len() > 0 && cs[0].0 <= ds[0].0) {
        lemma_merge_marks_upper(cs.skip(1), ds, hi);
        assert forall|i: int| 0 <= i < m.len() implies m[i].1 <= hi by {
            if i > 0 {
                assert(m[i] == merge_marks(cs.skip(1), ds)[i - 1]);
            }
        }
    } else {
        lemma_merge_marks_upper(cs, ds.skip(1), hi);
        assert forall|i: int| 0 <= i < m.len() implies m[i].1 <= hi by {
            if i > 0 {
                assert(m[i] == merge_marks(cs, ds.skip(1))[i - 1]);
            }
        }
    }
}

proof fn lemma_merge_marks_sorted(cs: Seq<(int, int)>, ds: Seq<(int, int)>)
    requires
        forall|i: int, j: int| 0 <= i <= j < cs.len() ==> cs[i].0 <= cs[j].0,
        forall|i: int, j: int| 0 <= i <= j < ds.len() ==> ds[i].0 <= ds[j].0,
    ensures
        forall|i: int|
            0 <= i < merge_marks(cs, ds).len() - 1 ==> (#[trigger] merge_marks(cs, ds)[i]).1
                <= merge_marks(cs, ds)[i + 1].1,
    decreases cs.len() + ds.len(),
{
    let m = merge_marks(cs, ds);
    if cs.len() == 0 && ds.len() == 0 {
    } else if ds.len() == 0 || (cs.len() > 0 && cs[0].0 <= ds[0].0) {
        let rest = merge_marks(cs.skip(1), ds);
        assert(forall|i: int, j: int|
            0 <= i <= j < cs.skip(1).len() ==> cs.skip(1)[i].0 <= cs.skip(1)[j].0);
        lemma_merge_marks_sorted(cs.skip(1), ds);
        assert(forall|i: int| 0 <= i < cs.skip(1).len() ==> cs[0].0 <= cs.skip(1)[i].0);
        lemma_merge_marks_lower(cs.skip(1), ds, cs[0].0);
        assert forall|i: int| 0 <= i < m.len() - 1 implies (#[trigger] m[i]).1 <= m[i + 1].1 by {
            assert(m[i + 1] == rest[i]);
            if i > 0 {
                assert(m[i] == rest[i - 1]);
            }
        }
    } else {
        let rest = merge_marks(cs, ds.skip(1));
        assert(forall|i: int, j: int|
            0 <= i <= j < ds.skip(1).len() ==> ds.skip(1)[i].0 <= ds.skip(1)[j].0);
        lemma_merge_marks_sorted(cs, ds.skip(1));
        assert(forall|i: int| 0 <= i < ds.skip(1).len() ==> ds[0].0 <= ds.skip(1)[i].0);
        lemma_merge_marks_lower(cs, ds.skip(1), ds[0].0);
        assert forall|i: int| 0 <= i < m.len() - 1 implies (#[trigger] m[i]).1 <= m[i + 1].1 by {
            assert(m[i + 1] == rest[i]);
            if i > 0 {
                assert(m[i] == rest[i - 1]);
            }
        }
    }
}

/// Merges the two span lists into tagged marks, class marks first on ties.
fn merge_span_starts(cs: &Vec<(usize, usize)>, ds: &Vec<(usize, usize)>) -> (r: Vec<(bool, usize)>)
    ensures
        marks_view(r@) == merge_marks(spans_view(cs@), spans_view(ds@)),
{
    let mut r: Vec<(bool, usize)> = Vec::new();
    let mut i: usize = 0;
    let mut j: usize = 0;
    proof {
        assert(marks_view(r@) =~= Seq::<(bool, int)>::empty());
        assert(spans_view(cs@).skip(0) =~= spans_view(cs@));
        assert(spans_view(ds@).skip(0) =~= spans_view(ds@));
    }
    while i < cs.len() || j < ds.len()
        invariant
            0 <= i <= cs.len(),
            0 <= j <= ds.len(),
            merge_marks(spans_view(cs@), spans_view(ds@)) =~= marks_view(r@) + merge_marks(
                spans_view(cs@).skip(i as int),
                spans_view(ds@).skip(j as int),
            ),
        decreases cs.len() - i + ds.len() - j,
    {
        let ghost crest = spans_view(cs@).skip(i as int);
        let ghost drest = spans_view(ds@).skip(j as int);
        let take_class = if j >= ds.len() {
            true
        } else if i >= cs.len() {
            false
        } else {
            cs[i].0 <= ds[j].0
        };
        if take_class {
            let ghost old_r = r@;
            r.push((true, cs[i].0));
            proof {
                assert(crest[0] == spans_view(cs@)[i as int]);
                assert(crest.skip(1) =~= spans_view(cs@).skip(i + 1));
                assert(marks_view(r@) =~= marks_view(old_r).push((true, cs@[i as int].0 as int)));
            }
            i = i + 1;
        } else {
            let ghost old_r = r@;
            r.push((false, ds[j].0));
            proof {
                assert(drest[0] == spans_view(ds@)[j as int]);
                assert(drest.skip(1) =~= spans_view(ds@).skip(j + 1));
                assert(marks_view(r@) =~= marks_view(old_r).push((false, ds@[j as int].0 as int)));
            }
            j = j + 1;
        }
    }
    proof {
        assert(spans_view(cs@).skip(i as int) =~= Seq::<(int, int)>::empty());
        assert(spans_view(ds@).skip(j as int) =~= Seq::<(int, int)>::empty());
        assert(marks_view(r@) =~= merge_marks(spans_view(cs@), spans_view(ds@)));
    }
    r
}

/// Cuts the bytes at the marks: each segment runs from its mark to the next
/// (the last one to the end), and carries its mark's tag.
fn cut_segments(marks: &Vec<(bool, usize)>, bytes: &Vec<u8>) -> (r: Vec<Segment>)
    requires
        forall|i: int| 0 <= i < marks@.len() ==> marks@[i].1 <= bytes@.len(),
        forall|i: int| 0 <= i < marks@.len() - 1 ==> (#[trigger] marks@[i]).1 <= marks@[i + 1].1,
    ensures
        r.deep_view() == segments_spec(marks_view(marks@), bytes@),
{
    let mut r: Vec<Segment> = Vec::new();
    let mut i: usize = 0;
    while i < marks.len()
        invariant
            0 <= i <= marks@.len(),
            forall|q: int| 0 <= q < marks@.len() ==> marks@[q].1 <= bytes@.len(),
            forall|q: int| 0 <= q < marks@.len() - 1 ==> (#[trigger] marks@[q]).1 <= marks@[q + 1].1,
            r@.len() == i,
            forall|q: int|
                0 <= q < i ==> r@[q].deep_view() == segments_spec(marks_view(marks@), bytes@)[q],
        decreases marks@.len() - i,
    {
        let start = marks[i].1;
        let end = if i + 1 < marks.len() {
            marks[i + 1].1
        } else {
            bytes.len()
        };
        let mut body: Vec<u8> = Vec::new();
        let mut p: usize = start;
        proof {
            assert(body@ =~= bytes@.subrange(start as int, start as int));
        }
        while p < end
            invariant
                start <= p <= end <= bytes@.len(),
                body@ == bytes@.subrange(start as int, p as int),
            decreases end - p,
        {
            body.push(bytes[p]);
            proof {
                assert(body@ =~= bytes@.subrange(start as int, p + 1));
            }
            p = p + 1;
        }
        r.push(Segment { is_class: marks[i].0, body });
        proof {
            assert(r@[i as int].deep_view() =~= segments_spec(marks_view(marks@), bytes@)[i as int]);
        }
        i = i + 1;
    }
    proof {
        assert(r.deep_view() =~= segments_spec(marks_view(marks@), bytes@));
    }
    r
}

/// Cuts the byte text into definition segments: one for every `class` or
/// `def` header the regex engine finds at a line start, each running to the
/// next header or the end, tagged by which pattern found it.
pub fn harvest_segments(contents: &Vec<u8>) -> (r: Vec<Segment>)
    ensures
        r.deep_view() == harvest_spec(
            found_spans(class_pattern(), contents@),
            found_spans(def_pattern(), contents@),
            contents@,
        ),
{
    let cs = find_class_spans(contents);
    let ds = find_def_spans(contents);
    let marks = merge_span_starts(&cs, &ds);
    proof {
        let cv = spans_view(cs@);
        let dv = spans_view(ds@);
        assert(forall|i: int| 0 <= i < cv.len() ==> 0 <= (#[trigger] cv[i]).0 <= contents@.len());
        assert(forall|i: int| 0 <= i < dv.len() ==> 0 <= (#[trigger] dv[i]).0 <= contents@.len());
        assert(forall|i: int, j: int| 0 <= i <= j < cv.len() ==> (#[trigger] cv[i]).0 <= (#[trigger] cv[j]).0);
        assert(forall|i: int, j: int| 0 <= i <= j < dv.len() ==> (#[trigger] dv[i]).0 <= (#[trigger] dv[j]).0);
        lemma_merge_marks_upper(cv, dv, contents@.len() as int);
        lemma_merge_marks_lower(cv, dv, 0);
        lemma_merge_marks_sorted(cv, dv);
        assert(forall|i: int| 0 <= i < marks@.len() ==> marks_view(marks@)[i] == merge_marks(
            cv,
            dv,
        )[i]);
        assert forall|i: int| 0 <= i < marks@.len() implies (#[trigger] marks@[i]).1
            <= contents@.len() by {
            assert(marks_view(marks@)[i] == merge_marks(cv, dv)[i]);
            assert(marks_view(marks@)[i].1 == marks@[i].1 as int);
        }
        assert forall|i: int| 0 <= i < marks@.len() - 1 implies (#[trigger] marks@[i]).1
            <= marks@[i + 1].1 by {
            assert(marks_view(marks@)[i] == merge_marks(cv, dv)[i]);
            assert(marks_view(marks@)[i + 1] == merge_marks(cv, dv)[i + 1]);
        }
    }
    cut_segments(&marks, contents)
}

/// The file name a harvested segment is written under: the module name, the
/// segment's name and its kind label, joined with underscores, with a `.txt`
/// extension.
pub fn harvest_file_name(module_name: &str, is_class: bool, name: &str) -> (r: String)
    ensures
        r@ == module_name@ + "_"@ + name@ + "_"@ + (
        if is_class {
            "class"@
        } else {
            "function"@
        }) + ".txt"@,
{
    let mut r = String::from_str(module_name);
    r.append("_");
    r.append(name);
    r.append("_");
    if is_class {
        r.append("class");
    } else {
        r.append("function");
    }
    r.append(".txt");
    r
}

} // verus!
