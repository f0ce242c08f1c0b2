use vstd::prelude::*;

use crate::palette::{Color, Style};

verus! {

/// One occurrence of a pattern in a line: the half-open byte range
/// `start..end` and the color of the pattern that produced it.
#[derive(Clone, Copy, Debug, PartialEq, Eq, Structural)]
pub struct Match {
    pub start: usize,
    pub end: usize,
    pub color: Color,
}

/// A piece of the output for one line: the byte range `start..end` of the
/// line, written with `style`, or unstyled where `style` is `None`.
#[derive(Clone, Copy, Debug, PartialEq, Eq, Structural)]
pub struct Segment {
    pub start: usize,
    pub end: usize,
    pub style: Option<Style>,
}

/// What to write for one line: its segments in order, then a line terminator.
/// `matched` tells whether any pattern matched the line.
pub struct LineOutput {
    pub matched: bool,
    pub segments: Vec<Segment>,
}

/// An unstyled segment.
pub open spec fn plain(start: usize, end: usize) -> Segment {
    Segment { start, end, style: None }
}

/// The segment that shows match `m`.
pub open spec fn styled(m: Match, background: bool) -> Segment {
    Segment { start: m.start, end: m.end, style: Some(Style { color: m.color, background }) }
}

/// `s` with `m` placed after every element that starts at or before `m`.
pub open spec fn insert_by_start(s: Seq<Match>, m: Match) -> Seq<Match>
    decreases s.len(),
{
    if s.len() == 0 {
        seq![m]
    } else if s.last().start <= m.start {
        s.push(m)
    } else {
        insert_by_start(s.drop_last(), m).push(s.last())
    }
}

/// `s` in ascending order of `start`; matches with equal starts keep their
/// order in `s` (a stable sort).
pub open spec fn sort_by_start(s: Seq<Match>) -> Seq<Match>
    decreases s.len(),
{
    if s.len() == 0 {
        s
    } else {
        insert_by_start(sort_by_start(s.drop_last()), s.last())
    }
}

/// The segments of span mode for the sorted matches `s`, when the text before
/// `last_end` has already been written: a match that starts before `last_end`
/// is skipped; any other one is written after the unstyled text before it.
/// The rest of the line, up to `len`, ends the list unstyled.
pub open spec fn span_segments(s: Seq<Match>, last_end: usize, len: usize, background: bool) -> Seq<
    Segment,
>
    decreases s.len(),
{
    if s.len() == 0 {
        seq![plain(last_end, len)]
    } else if s[0].start >= last_end {
        seq![plain(last_end, s[0].start), styled(s[0], background)] + span_segments(
            s.drop_first(),
            s[0].end,
            len,
            background,
        )
    } else {
        span_segments(s.drop_first(), last_end, len, background)
    }
}

/// The output for a line of `len` bytes on which the matches `ms` were found,
/// in the order in which they were found: whether anything matched, and the
/// segments.
pub open spec fn line_plan(len: usize, ms: Seq<Match>, whole_line: bool, background: bool) -> (
    bool,
    Seq<Segment>,
) {
    if ms.len() == 0 {
        (false, seq![plain(0, len)])
    } else if whole_line {
        (
            true,
            seq![
                Segment {
                    start: 0,
                    end: len,
                    style: Some(Style { color: sort_by_start(ms)[0].color, background }),
                },
            ],
        )
    } else {
        (true, span_segments(sort_by_start(ms), 0, len, background))
    }
}

proof fn lemma_insert_contents(s: Seq<Match>, m: Match)
    ensures
        insert_by_start(s, m).len() == s.len() + 1,
        forall|x: Match| #[trigger] insert_by_start(s, m).contains(x) <==> (s.contains(x) || x == m),
    decreases s.len(),
{
    if s.len() == 0 {
        assert(seq![m][0] == m);
    } else if s.last().start <= m.start {
        assert forall|x: Match| s.push(m).contains(x) <==> (s.contains(x) || x == m) by {
            if s.push(m).contains(x) {
                let k = choose|k: int| 0 <= k < s.len() + 1 && s.push(m)[k] == x;
                if k < s.len() {
                    assert(s[k] == x);
                }
            }
            if s.contains(x) {
                let k = choose|k: int| 0 <= k < s.len() && s[k] == x;
                assert(s.push(m)[k] == x);
            }
            if x == m {
                assert(s.push(m)[s.len() as int] == x);
            }
        }
    } else {
        let t = s.drop_last();
        lemma_insert_contents(t, m);
        let r = insert_by_start(t, m);
        assert forall|x: Match| r.push(s.last()).contains(x) <==> (s.contains(x) || x == m) by {
            if r.push(s.last()).contains(x) {
                let k = choose|k: int| 0 <= k < r.len() + 1 && r.push(s.last())[k] == x;
                if k < r.len() {
                    assert(r[k] == x);
                    assert(r.contains(x));
                    if t.contains(x) {
                        let j = choose|j: int| 0 <= j < t.len() && t[j] == x;
                        assert(s[j] == x);
                        assert(s.contains(x));
                    }
                } else {
                    assert(s[s.len() - 1] == x);
                    assert(s.contains(x));
                }
            }
            if s.contains(x) {
                let k = choose|k: int| 0 <= k < s.len() && s[k] == x;
                if k < s.len() - 1 {
                    assert(t[k] == x);
                    assert(t.contains(x));
                    assert(r.contains(x));
                    let j = choose|j: int| 0 <= j < r.len() && r[j] == x;
                    assert(r.push(s.last())[j] == x);
                    assert(r.push(s.last()).contains(x));
                } else {
                    assert(s.last() == x);
                    assert(r.push(s.last())[r.len() as int] == x);
                    assert(r.push(s.last()).contains(x));
                }
            }
            if x == m {
                assert(t.contains(x) || x == m);
                assert(r.contains(x));
                let j = choose|j: int| 0 <= j < r.len() && r[j] == x;
                assert(r.push(s.last())[j] == x);
                assert(r.push(s.last()).contains(x));
            }
        }
    }
}

/// Sorting keeps the length and the elements.
pub proof fn lemma_sort_contents(s: Seq<Match>)
    ensures
        sort_by_start(s).len() == s.len(),
        forall|x: Match| #[trigger] sort_by_start(s).contains(x) <==> s.contains(x),
    decreases s.len(),
{
    if s.len() > 0 {
        let t = s.drop_last();
        lemma_sort_contents(t);
        lemma_insert_contents(sort_by_start(t), s.last());
        assert forall|x: Match| sort_by_start(s).contains(x) <==> s.contains(x) by {
            if t.contains(x) {
                let k = choose|k: int| 0 <= k < t.len() && t[k] == x;
                assert(s[k] == x);
            }
            if s.contains(x) {
                let k = choose|k: int| 0 <= k < s.len() && s[k] == x;
                if k < s.len() - 1 {
                    assert(t[k] == x);
                }
            }
        }
    }
}

/// Inserting `m` right after the prefix of `s` that starts at or before it.
proof fn lemma_insert_at(s: Seq<Match>, m: Match, j: int)
    requires
        0 <= j <= s.len(),
        j == 0 || s[j - 1].start <= m.start,
        forall|k: int| j <= k < s.len() ==> s[k].start > m.start,
    ensures
        insert_by_start(s, m) == s.insert(j, m),
    decreases s.len(),
{
    if s.len() == j {
        if j == 0 {
            assert(s.insert(j, m) =~= seq![m]);
        } else {
            assert(s.insert(j, m) =~= s.push(m));
        }
    } else {
        let t = s.drop_last();
        lemma_insert_at(t, m, j);
        assert(s.insert(j, m) =~= t.insert(j, m).push(s.last()));
    }
}

/// Sorts matches by ascending start; matches with equal starts keep their
/// order.
pub fn sort_matches(ms: &Vec<Match>) -> (r: Vec<Match>)
    ensures
        r@ == sort_by_start(ms@),
{
    let mut out: Vec<Match> = Vec::new();
    let mut i: usize = 0;
    while i < ms.len()
        invariant
            i <= ms.len(),
            out@ == sort_by_start(ms@.subrange(0, i as int)),
        decreases ms.len() - i,
    {
        let m = ms[i];
        let mut j: usize = out.len();
        while j > 0 && out[j - 1].start > m.start
            invariant
                j <= out.len(),
                forall|k: int| j <= k < out.len() ==> out[k].start > m.start,
            decreases j,
        {
            j = j - 1;
        }
        proof {
            lemma_insert_at(out@, m, j as int);
            assert(ms@.subrange(0, i + 1).drop_last() =~= ms@.subrange(0, i as int));
            assert(ms@.subrange(0, i + 1).last() == m);
        }
        out.insert(j, m);
        i = i + 1;
    }
    assert(ms@.subrange(0, ms.len() as int) =~= ms@);
    out
}

/// Works out the span-mode segments for matches already sorted by start.
fn span_mode(line_len: usize, sorted: &Vec<Match>, background: bool) -> (r: Vec<Segment>)
    ensures
        r@ == span_segments(sorted@, 0, line_len, background),
{
    let mut out: Vec<Segment> = Vec::new();
    let mut last_end: usize = 0;
    let mut i: usize = 0;
    assert(sorted@.subrange(0, sorted.len() as int) =~= sorted@);
    while i < sorted.len()
        invariant
            i <= sorted.len(),
            out@ + span_segments(sorted@.subrange(i as int, sorted.len() as int), last_end, line_len, background)
                == span_segments(sorted@, 0, line_len, background),
        decreases sorted.len() - i,
    {
        let m = sorted[i];
        let ghost rest = sorted@.subrange(i as int, sorted.len() as int);
        assert(rest[0] == m);
        assert(rest.drop_first() =~= sorted@.subrange(i + 1, sorted.len() as int));
        if m.start >= last_end {
            let gap = Segment { start: last_end, end: m.start, style: None };
            let shown = Segment {
                start: m.start,
                end: m.end,
                style: Some(Style { color: m.color, background }),
            };
            proof {
                assert(out@.push(gap).push(shown) =~= out@ + seq![
                    plain(last_end, m.start),
                    styled(m, background),
                ]);
                vstd::seq_lib::lemma_concat_associative(
                    out@,
                    seq![plain(last_end, m.start), styled(m, background)],
                    span_segments(rest.drop_first(), m.end, line_len, background),
                );
            }
            out.push(gap);
            out.push(shown);
            last_end = m.end;
        }
        i = i + 1;
    }
    let tail = Segment { start: last_end, end: line_len, style: None };
    proof {
        assert(sorted@.subrange(i as int, sorted.len() as int) =~= Seq::<Match>::empty());
        assert(out@.push(tail) =~= out@ + seq![plain(last_end, line_len)]);
    }
    out.push(tail);
    out
}

/// The output for a line of `line_len` bytes on which the matches `matches`
/// were found, in the order in which the patterns found them.
///
/// With no match the line is written unstyled. In whole-line mode the whole
/// line takes the color of the earliest-starting match (on equal starts, the
/// one found first). In span mode each match is written in its color unless it
/// starts before the end of a match written earlier, in which case it is left
/// out; the text between matches is written unstyled.
pub fn plan_line(line_len: usize, matches: &Vec<Match>, whole_line: bool, background: bool) -> (r:
    LineOutput)
    ensures
        (r.matched, r.segments@) == line_plan(line_len, matches@, whole_line, background),
{
    if matches.len() == 0 {
        let mut segments: Vec<Segment> = Vec::new();
        segments.push(Segment { start: 0, end: line_len, style: None });
        proof {
            assert(segments@ =~= seq![plain(0, line_len)]);
        }
        return LineOutput { matched: false, segments };
    }
    let sorted = sort_matches(matches);
    proof {
        lemma_sort_contents(matches@);
    }
    if whole_line {
        let color: Color = sorted[0].color;
        let mut segments: Vec<Segment> = Vec::new();
        segments.push(
            Segment { start: 0, end: line_len, style: Some(Style { color, background }) },
        );
        proof {
            assert(segments@ =~= line_plan(line_len, matches@, whole_line, background).1);
        }
        LineOutput { matched: true, segments }
    } else {
        let segments = span_mode(line_len, &sorted, background);
        LineOutput { matched: true, segments }
    }
}

/// The bytes of `line` that the segments cover, one segment after another.
pub open spec fn concat_slices(line: Seq<u8>, segs: Seq<Segment>) -> Seq<u8>
    decreases segs.len(),
{
    if segs.len() == 0 {
        Seq::empty()
    } else {
        line.subrange(segs[0].start as int, segs[0].end as int) + concat_slices(
            line,
            segs.drop_first(),
        )
    }
}

/// Every match lies inside a line of `len` bytes.
pub open spec fn all_within(ms: Seq<Match>, len: int) -> bool {
    forall|k: int| 0 <= k < ms.len() ==> ms[k].start <= #[trigger] ms[k].end <= len
}

proof fn lemma_span_segments_concat(line: Seq<u8>, s: Seq<Match>, last_end: usize, background: bool)
    requires
        line.len() <= usize::MAX,
        last_end <= line.len(),
        all_within(s, line.len() as int),
    ensures
        concat_slices(line, span_segments(s, last_end, line.len() as usize, background))
            == line.subrange(last_end as int, line.len() as int),
    decreases s.len(),
{
    let len = line.len() as usize;
    let segs = span_segments(s, last_end, len, background);
    if s.len() == 0 {
        assert(segs.drop_first() =~= Seq::<Segment>::empty());
        assert(concat_slices(line, Seq::<Segment>::empty()) == Seq::<u8>::empty());
        assert(concat_slices(line, segs) =~= line.subrange(last_end as int, len as int));
    } else {
        let m = s[0];
        let t = s.drop_first();
        assert(all_within(t, line.len() as int)) by {
            assert forall|k: int| 0 <= k < t.len() implies t[k].start <= #[trigger] t[k].end
                <= line.len() by {
                assert(t[k] == s[k + 1]);
            }
        }
        assert(m.start <= m.end <= line.len()) by {
            assert(s[0].end == m.end);
        }
        if m.start >= last_end {
            lemma_span_segments_concat(line, t, m.end, background);
            let rest = span_segments(t, m.end, len, background);
            let head = seq![plain(last_end, m.start), styled(m, background)];
            assert(segs == head + rest);
            assert(segs[0] == plain(last_end, m.start));
            assert(segs.drop_first() =~= seq![styled(m, background)] + rest);
            assert((seq![styled(m, background)] + rest).drop_first() =~= rest);
            let d = seq![styled(m, background)] + rest;
            assert(d[0] == styled(m, background));
            assert(concat_slices(line, d) == line.subrange(m.start as int, m.end as int)
                + concat_slices(line, d.drop_first()));
            assert(concat_slices(line, segs) == line.subrange(last_end as int, m.start as int)
                + concat_slices(line, segs.drop_first()));
            assert(concat_slices(line, segs) =~= line.subrange(last_end as int, m.start as int) + (
            line.subrange(m.start as int, m.end as int) + line.subrange(m.end as int, len as int)));
            assert(concat_slices(line, segs) =~= line.subrange(last_end as int, len as int));
        } else {
            lemma_span_segments_concat(line, t, last_end, background);
        }
    }
}

/// Sorting keeps every match inside the line.
proof fn lemma_sort_within(ms: Seq<Match>, len: int)
    requires
        all_within(ms, len),
    ensures
        all_within(sort_by_start(ms), len),
{
    lemma_sort_contents(ms);
    let sorted = sort_by_start(ms);
    assert forall|k: int| 0 <= k < sorted.len() implies sorted[k].start <= #[trigger] sorted[k].end
        <= len by {
        assert(sorted.contains(sorted[k]));
        assert(ms.contains(sorted[k]));
        let j = choose|j: int| 0 <= j < ms.len() && ms[j] == sorted[k];
        assert(ms[j].end == sorted[k].end);
    }
}

/// In span mode, the segments of a line put together give back the line
/// exactly: no byte is dropped or repeated, whatever the matches, as long as
/// each lies inside the line.
pub proof fn lemma_span_mode_round_trip(line: Seq<u8>, ms: Seq<Match>, background: bool)
    requires
        line.len() <= usize::MAX,
        all_within(ms, line.len() as int),
    ensures
        concat_slices(line, line_plan(line.len() as usize, ms, false, background).1) == line,
{
    let len = line.len() as usize;
    if ms.len() == 0 {
        let segs = seq![plain(0, len)];
        assert(segs.drop_first() =~= Seq::<Segment>::empty());
        assert(concat_slices(line, Seq::<Segment>::empty()) == Seq::<u8>::empty());
        assert(concat_slices(line, segs) =~= line);
    } else {
        lemma_sort_within(ms, line.len() as int);
        lemma_span_segments_concat(line, sort_by_start(ms), 0, background);
        assert(line.subrange(0, line.len() as int) =~= line);
    }
}

/// A line on which nothing matched is written as it is, unstyled, and is
/// reported as not matched.
pub proof fn lemma_no_match_passthrough(len: usize, whole_line: bool, background: bool)
    ensures
        line_plan(len, Seq::empty(), whole_line, background) == (false, seq![plain(0, len)]),
{
}

/// Of two matches whose spans overlap, only the one that starts first is
/// shown, in whichever order the patterns found them.
pub proof fn lemma_overlap_dropped(len: usize, a: Match, b: Match, ms: Seq<Match>, background: bool)
    requires
        a.start < b.start < a.end,
        ms == seq![a, b] || ms == seq![b, a],
    ensures
        line_plan(len, ms, false, background).1 == seq![
            plain(0, a.start),
            styled(a, background),
            plain(a.end, len),
        ],
{
    assert(seq![a].drop_last() =~= Seq::<Match>::empty());
    assert(seq![b].drop_last() =~= Seq::<Match>::empty());
    assert(seq![a, b].drop_last() =~= seq![a]);
    assert(seq![b, a].drop_last() =~= seq![b]);
    assert(sort_by_start(Seq::<Match>::empty()) == Seq::<Match>::empty());
    assert(insert_by_start(Seq::<Match>::empty(), a) == seq![a]);
    assert(insert_by_start(Seq::<Match>::empty(), b) == seq![b]);
    assert(sort_by_start(seq![a]) =~= seq![a]);
    assert(sort_by_start(seq![b]) =~= seq![b]);
    assert(seq![b].drop_last() =~= Seq::<Match>::empty());
    assert(insert_by_start(seq![b], a) =~= seq![a, b]);
    assert(insert_by_start(seq![a], b) =~= seq![a, b]);
    assert(sort_by_start(ms) =~= seq![a, b]);
    let s = seq![a, b];
    assert(s.drop_first() =~= seq![b]);
    assert(seq![b].drop_first() =~= Seq::<Match>::empty());
    assert(seq![b][0] == b);
    assert(span_segments(Seq::<Match>::empty(), a.end, len, background) == seq![plain(a.end, len)]);
    assert(span_segments(seq![b], a.end, len, background) =~= seq![plain(a.end, len)]);
    assert(span_segments(s, 0, len, background) =~= seq![
        plain(0, a.start),
        styled(a, background),
        plain(a.end, len),
    ]);
}

proof fn lemma_insert_first_new(s: Seq<Match>, m: Match)
    requires
        forall|i: int| 0 <= i < s.len() ==> #[trigger] s[i].start > m.start,
    ensures
        insert_by_start(s, m)[0] == m,
    decreases s.len(),
{
    if s.len() > 0 {
        let t = s.drop_last();
        assert(s.last().start > m.start);
        assert forall|i: int| 0 <= i < t.len() implies #[trigger] t[i].start > m.start by {
            assert(t[i] == s[i]);
        }
        lemma_insert_first_new(t, m);
        lemma_insert_contents(t, m);
    }
}

proof fn lemma_insert_keeps_first(s: Seq<Match>, m: Match)
    requires
        s.len() > 0,
        m.start >= s[0].start,
    ensures
        insert_by_start(s, m)[0] == s[0],
    decreases s.len(),
{
    if s.last().start > m.start {
        let t = s.drop_last();
        assert(s.len() >= 2);
        assert(t[0] == s[0]);
        lemma_insert_keeps_first(t, m);
        lemma_insert_contents(t, m);
    }
}

/// The first match after sorting is the match at `k` when it starts strictly
/// before every earlier match and no later match starts before it.
proof fn lemma_sort_first(ms: Seq<Match>, k: int)
    requires
        0 <= k < ms.len(),
        forall|j: int| 0 <= j < k ==> #[trigger] ms[j].start > ms[k].start,
        forall|j: int| k < j < ms.len() ==> #[trigger] ms[j].start >= ms[k].start,
    ensures
        sort_by_start(ms)[0] == ms[k],
    decreases ms.len(),
{
    let n = ms.len() as int;
    let t = ms.drop_last();
    lemma_sort_contents(t);
    let st = sort_by_start(t);
    if k == n - 1 {
        assert forall|i: int| 0 <= i < st.len() implies #[trigger] st[i].start > ms[k].start by {
            assert(st.contains(st[i]));
            assert(t.contains(st[i]));
            let j = choose|j: int| 0 <= j < t.len() && t[j] == st[i];
            assert(ms[j] == t[j]);
        }
        lemma_insert_first_new(st, ms[k]);
    } else {
        assert forall|j: int| 0 <= j < k implies #[trigger] t[j].start > t[k].start by {
            assert(ms[j] == t[j]);
        }
        assert forall|j: int| k < j < t.len() implies #[trigger] t[j].start >= t[k].start by {
            assert(ms[j] == t[j]);
        }
        lemma_sort_first(t, k);
        assert(ms[n - 1].start >= ms[k].start);
        lemma_insert_keeps_first(st, ms.last());
    }
}

/// In whole-line mode the line takes the color of the match that starts
/// earliest; among matches with the same start, of the one found first.
pub proof fn lemma_whole_line_color(len: usize, ms: Seq<Match>, background: bool, k: int)
    requires
        0 <= k < ms.len(),
        forall|j: int| 0 <= j < k ==> #[trigger] ms[j].start > ms[k].start,
        forall|j: int| k < j < ms.len() ==> #[trigger] ms[j].start >= ms[k].start,
    ensures
        line_plan(len, ms, true, background) == (
            true,
            seq![
                Segment {
                    start: 0,
                    end: len,
                    style: Some(Style { color: ms[k].color, background }),
                },
            ],
        ),
{
    lemma_sort_first(ms, k);
}

} // verus!
