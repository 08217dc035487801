//! Physical lines: splitting source text at newlines, joining lines back
//! into a block of text, and trimming trailing newlines.

use vstd::prelude::*;

verus! {

/// Index of the first `'\n'` in `s`, or `s.len()` if there is none.
pub open spec fn first_newline(s: Seq<char>) -> int
    decreases s.len(),
{
    if s.len() == 0 {
        0
    } else if s[0] == '\n' {
        0
    } else {
        1 + first_newline(s.skip(1))
    }
}

/// The physical lines of `s`: maximal `'\n'`-free pieces, in order. The text
/// after the last `'\n'` is a line too, so an empty text has one empty line
/// and a text that ends in `'\n'` ends in an empty line.
pub open spec fn split_lines(s: Seq<char>) -> Seq<Seq<char>>
    decreases s.len(),
{
    let i = first_newline(s);
    if 0 <= i && i < s.len() {
        seq![s.take(i)].add(split_lines(s.skip(i + 1)))
    } else {
        seq![s]
    }
}

/// The lines joined back into one text, each line followed by one `'\n'`.
pub open spec fn concat_nl(ls: Seq<Seq<char>>) -> Seq<char>
    decreases ls.len(),
{
    if ls.len() == 0 {
        Seq::empty()
    } else {
        ls[0] + seq!['\n'] + concat_nl(ls.skip(1))
    }
}

/// Length of `s` once every trailing `'\n'` is removed.
pub open spec fn trim_len(s: Seq<char>) -> int
    decreases s.len(),
{
    if s.len() > 0 && s.last() == '\n' {
        trim_len(s.drop_last())
    } else {
        s.len() as int
    }
}

/// `s` with every trailing `'\n'` removed.
pub open spec fn trim_nl(s: Seq<char>) -> Seq<char> {
    s.take(trim_len(s))
}

pub proof fn lemma_first_newline_props(s: Seq<char>)
    ensures
        0 <= first_newline(s) <= s.len(),
        first_newline(s) < s.len() ==> s[first_newline(s)] == '\n',
        forall|j: int| 0 <= j < first_newline(s) ==> s[j] != '\n',
    decreases s.len(),
{
    if s.len() > 0 && s[0] != '\n' {
        lemma_first_newline_props(s.skip(1));
        assert forall|j: int| 0 <= j < first_newline(s) implies s[j] != '\n' by {
            if j > 0 {
                assert(s.skip(1)[j - 1] == s[j]);
            }
        }
    }
}

/// If nothing before `k` is a newline and `k` is one (or the end), the first
/// newline is exactly at `k`.
pub proof fn lemma_first_newline_at(s: Seq<char>, k: int)
    requires
        0 <= k <= s.len(),
        forall|j: int| 0 <= j < k ==> s[j] != '\n',
        k < s.len() ==> s[k] == '\n',
    ensures
        first_newline(s) == k,
    decreases s.len(),
{
    if s.len() > 0 && s[0] != '\n' {
        lemma_first_newline_at(s.skip(1), k - 1);
    }
}

pub proof fn lemma_split_lines_nonempty(s: Seq<char>)
    ensures
        split_lines(s).len() >= 1,
    decreases s.len(),
{
    let i = first_newline(s);
    if i != s.len() {
        lemma_first_newline_props(s);
        lemma_split_lines_nonempty(s.skip(i + 1));
    }
}

/// Joining one line is that line and its closing `'\n'`.
pub proof fn lemma_concat_nl_one(x: Seq<char>)
    ensures
        concat_nl(seq![x]) == x.push('\n'),
{
    let l = seq![x];
    assert(l.skip(1) =~= Seq::<Seq<char>>::empty());
    assert(concat_nl(Seq::<Seq<char>>::empty()) == Seq::<char>::empty());
    assert(concat_nl(l) =~= x.push('\n'));
}

/// Joining distributes over concatenation of line sequences.
pub proof fn lemma_concat_nl_add(a: Seq<Seq<char>>, b: Seq<Seq<char>>)
    ensures
        concat_nl(a + b) == concat_nl(a) + concat_nl(b),
    decreases a.len(),
{
    if a.len() == 0 {
        assert(a + b =~= b);
        assert(concat_nl(a) + concat_nl(b) =~= concat_nl(b));
    } else {
        lemma_concat_nl_add(a.skip(1), b);
        assert((a + b).skip(1) =~= a.skip(1) + b);
        assert(concat_nl(a + b) =~= concat_nl(a) + concat_nl(b));
    }
}

/// Splitting and rejoining gives back the text, plus the `'\n'` that closes
/// its final line.
pub proof fn lemma_concat_nl_split(s: Seq<char>)
    ensures
        concat_nl(split_lines(s)) == s.push('\n'),
    decreases s.len(),
{
    lemma_first_newline_props(s);
    let i = first_newline(s);
    if i == s.len() {
        lemma_concat_nl_one(s);
    } else {
        lemma_concat_nl_split(s.skip(i + 1));
        lemma_concat_nl_add(seq![s.take(i)], split_lines(s.skip(i + 1)));
        lemma_concat_nl_one(s.take(i));
        assert(split_lines(s) == seq![s.take(i)] + split_lines(s.skip(i + 1)));
        assert(s.take(i).push('\n') + s.skip(i + 1).push('\n') =~= s.push('\n'));
    }
}

pub proof fn lemma_trim_len_props(s: Seq<char>)
    ensures
        0 <= trim_len(s) <= s.len(),
        trim_len(s) > 0 ==> s[trim_len(s) - 1] != '\n',
        forall|j: int| trim_len(s) <= j < s.len() ==> s[j] == '\n',
    decreases s.len(),
{
    if s.len() > 0 && s.last() == '\n' {
        lemma_trim_len_props(s.drop_last());
        assert forall|j: int| trim_len(s) <= j < s.len() implies s[j] == '\n' by {
            if j < s.len() - 1 {
                assert(s.drop_last()[j] == s[j]);
            }
        }
    }
}

/// Splits `source` into its physical lines.
pub fn split_into_lines(source: &str) -> (r: Vec<String>)
    ensures
        r.deep_view() == split_lines(source@),
        r.len() >= 1,
{
    let n = source.unicode_len();
    let mut r: Vec<String> = Vec::new();
    let mut start: usize = 0;
    let mut i: usize = 0;
    proof {
        assert(r.deep_view() =~= Seq::<Seq<char>>::empty());
        assert(source@.skip(0) =~= source@);
        assert(r.deep_view() + split_lines(source@) =~= split_lines(source@));
    }
    while i < n
        invariant
            start <= i <= n,
            n == source@.len(),
            split_lines(source@) =~= r.deep_view() + split_lines(source@.skip(start as int)),
            forall|j: int| start <= j < i ==> source@[j] != '\n',
        decreases n - i,
    {
        if source.get_char(i) == '\n' {
            let line = source.substring_char(start, i);
            r.push(String::from_str(line));
            proof {
                let rest = source@.skip(start as int);
                lemma_first_newline_at(rest, i - start);
                assert(rest.take(i - start) =~= source@.subrange(start as int, i as int));
                assert(rest.skip(i - start + 1) =~= source@.skip(i + 1));
                assert(split_lines(rest) == seq![rest.take(i - start)].add(
                    split_lines(source@.skip(i + 1))));
                assert(split_lines(source@) =~= r.deep_view() + split_lines(
                    source@.skip(i + 1)));
            }
            start = i + 1;
        }
        i = i + 1;
    }
    let line = source.substring_char(start, n);
    r.push(String::from_str(line));
    proof {
        let rest = source@.skip(start as int);
        lemma_first_newline_at(rest, n - start);
        assert(rest =~= source@.subrange(start as int, n as int));
        assert(split_lines(rest) == seq![rest]);
        assert(r.deep_view() =~= split_lines(source@));
    }
    r
}

/// Removes every trailing `'\n'` from `t`.
pub fn trim_trailing_newlines(t: &str) -> (r: String)
    ensures
        r@ == trim_nl(t@),
{
    let n = t.unicode_len();
    let mut k: usize = n;
    proof {
        assert(t@.take(n as int) =~= t@);
    }
    while k > 0 && t.get_char(k - 1) == '\n'
        invariant
            0 <= k <= n,
            n == t@.len(),
            trim_len(t@) == trim_len(t@.take(k as int)),
        decreases k,
    {
        proof {
            let cur = t@.take(k as int);
            assert(cur.last() == '\n');
            assert(cur.drop_last() =~= t@.take(k - 1));
        }
        k = k - 1;
    }
    proof {
        let cur = t@.take(k as int);
        if k == 0 {
            assert(trim_len(cur) == 0);
        } else {
            assert(cur.last() == t@[k - 1]);
            assert(trim_len(cur) == k);
        }
        assert(t@.take(trim_len(t@)) == trim_nl(t@));
    }
    let kept = t.substring_char(0, k);
    String::from_str(kept)
}

} // verus!
