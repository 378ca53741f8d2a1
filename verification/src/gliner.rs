//! Choosing which detected spans of a document get tokenized, and splicing the tokens in.
//!
//! Entity mentions from the recognizer and extra spans (such as located inspection
//! evidence) are merged: invalid ones are dropped, the rest are ordered by start (longer
//! first on ties) and taken greedily so that no two chosen spans overlap. The chosen spans
//! are handed back last-first, the order in which the session mints their tokens, and the
//! tokens then replace the spans in the text.
use vstd::prelude::*;
use vstd::utf8::*;
use crate::gaze::{ClassLabel, ClassView, pii_class, spec_pii_class};
use crate::reject::{is_rejected, spec_normalize, spec_rejected};
use crate::splice::{spliceable, on_boundaries, spec_splice, encodings, range_views, splice};

verus! {

/// An entity mention found by the recognizer: a byte range of the text, the label it was
/// found for, and the text it covers.
#[derive(Debug, Clone, PartialEq, Eq)]
pub struct Mention {
    pub char_start: usize,
    pub char_end: usize,
    pub field: String,
    pub text: String,
}

/// A span chosen for tokenization.
#[derive(Debug, Clone, PartialEq, Eq)]
pub struct Span {
    pub start: usize,
    pub end: usize,
    pub class: ClassLabel,
    pub raw: String,
}

/// The mathematical form of a [`Span`].
pub struct SpanView {
    pub start: int,
    pub end: int,
    pub class: ClassView,
    pub raw: Seq<char>,
}

impl View for Span {
    type V = SpanView;

    open spec fn view(&self) -> SpanView {
        SpanView {
            start: self.start as int,
            end: self.end as int,
            class: self.class@,
            raw: self.raw@,
        }
    }
}

impl Span {
    /// A copy of this span.
    pub fn duplicate(&self) -> (r: Span)
        ensures
            r@ == self@,
    {
        Span { start: self.start, end: self.end, class: self.class.duplicate(), raw: self.raw.clone() }
    }
}

/// The byte ranges of a sequence of spans.
pub open spec fn span_ranges(s: Seq<SpanView>) -> Seq<(int, int)> {
    s.map_values(|x: SpanView| (x.start, x.end))
}

/// The views of a sequence of spans.
pub open spec fn span_views(s: Seq<Span>) -> Seq<SpanView> {
    s.map_values(|x: Span| x@)
}

/// A mention is usable when it lies inside the text, is not empty and is not a rejected word.
pub open spec fn mention_ok(len: int, m: Mention) -> bool {
    &&& m.char_end <= len
    &&& m.char_start < m.char_end
    &&& !spec_rejected().contains(spec_normalize(m.text@))
}

/// The span a usable mention stands for.
pub open spec fn mention_span(m: Mention) -> SpanView {
    SpanView {
        start: m.char_start as int,
        end: m.char_end as int,
        class: spec_pii_class(m.field@),
        raw: m.text@,
    }
}

/// The spans of the usable mentions, in their order.
pub open spec fn mention_spans(len: int, ms: Seq<Mention>) -> Seq<SpanView>
    decreases ms.len(),
{
    if ms.len() == 0 {
        seq![]
    } else {
        let prev = mention_spans(len, ms.drop_last());
        if mention_ok(len, ms.last()) {
            prev.push(mention_span(ms.last()))
        } else {
            prev
        }
    }
}

/// An extra span is usable when both ends are character boundaries, it lies inside the
/// text and is not empty.
pub open spec fn extra_ok(text: Seq<u8>, e: ExtraView) -> bool {
    &&& 0 <= e.0
    &&& is_char_boundary(text, e.0)
    &&& is_char_boundary(text, e.1)
    &&& e.1 <= text.len()
    &&& e.0 < e.1
}

/// The span a usable extra stands for.
pub open spec fn extra_span(e: ExtraView) -> SpanView {
    SpanView { start: e.0, end: e.1, class: spec_pii_class(e.2), raw: e.3 }
}

/// An extra span `(start, end, label, text)` as integers and character sequences.
pub type ExtraView = (int, int, Seq<char>, Seq<char>);

/// The view of an extra span.
pub open spec fn extra_view(e: (usize, usize, String, String)) -> ExtraView {
    (e.0 as int, e.1 as int, e.2@, e.3@)
}

/// The views of a vector of extra spans.
pub open spec fn extra_views(v: Seq<(usize, usize, String, String)>) -> Seq<ExtraView> {
    v.map_values(|e: (usize, usize, String, String)| extra_view(e))
}

/// The spans of the usable extras, in their order.
pub open spec fn extra_spans(text: Seq<u8>, es: Seq<ExtraView>) -> Seq<
    SpanView,
>
    decreases es.len(),
{
    if es.len() == 0 {
        seq![]
    } else {
        let prev = extra_spans(text, es.drop_last());
        if extra_ok(text, es.last()) {
            prev.push(extra_span(es.last()))
        } else {
            prev
        }
    }
}

/// `a` is ordered strictly before `b`: it starts earlier, or starts together and ends later.
pub open spec fn precedes(a: SpanView, b: SpanView) -> bool {
    a.start < b.start || (a.start == b.start && a.end > b.end)
}

/// Where a stable sort inserts `x` into the sorted `r`: before the first element it precedes.
pub open spec fn insert_pos(r: Seq<SpanView>, x: SpanView) -> int
    decreases r.len(),
{
    if r.len() == 0 {
        0
    } else if precedes(x, r[0]) {
        0
    } else {
        1 + insert_pos(r.drop_first(), x)
    }
}

/// The spans stably sorted by start, longer spans first among equal starts.
pub open spec fn sort_spans(s: Seq<SpanView>) -> Seq<SpanView>
    decreases s.len(),
{
    if s.len() == 0 {
        s
    } else {
        let r = sort_spans(s.drop_last());
        r.insert(insert_pos(r, s.last()), s.last())
    }
}

/// Greedy choice over sorted spans: a span is kept when it starts at or after the end of
/// the last kept span. Also yields that end.
pub open spec fn greedy(s: Seq<SpanView>) -> (Seq<SpanView>, int)
    decreases s.len(),
{
    if s.len() == 0 {
        (seq![], 0)
    } else {
        let prev = greedy(s.drop_last());
        let x = s.last();
        if x.start < prev.1 {
            prev
        } else {
            (prev.0.push(x), x.end)
        }
    }
}

/// All usable candidate spans: the mentions' first, then the extras'.
pub open spec fn candidates(
    text: Seq<u8>,
    ms: Seq<Mention>,
    es: Seq<ExtraView>,
) -> Seq<SpanView> {
    mention_spans(text.len() as int, ms) + extra_spans(text, es)
}

/// The spans chosen for tokenization, last in the text first.
pub open spec fn spec_select(
    text: Seq<u8>,
    ms: Seq<Mention>,
    es: Seq<ExtraView>,
) -> Seq<SpanView> {
    greedy(sort_spans(candidates(text, ms, es))).0.reverse()
}

/// Two spans share at least one byte.
pub open spec fn overlaps(a: SpanView, b: SpanView) -> bool {
    a.start < b.end && b.start < a.end
}

/// No element comes strictly before an earlier one.
pub open spec fn sorted_spans(s: Seq<SpanView>) -> bool {
    forall|i: int, j: int| 0 <= i < j < s.len() ==> !precedes(#[trigger] s[j], #[trigger] s[i])
}

/// Every span is non-empty and lies inside a text of `len` bytes.
pub open spec fn all_in_bounds(len: int, s: Seq<SpanView>) -> bool {
    forall|i: int| 0 <= i < s.len() ==> 0 <= #[trigger] s[i].start < s[i].end <= len
}

proof fn lemma_insert_pos_props(r: Seq<SpanView>, x: SpanView)
    requires
        sorted_spans(r),
    ensures
        0 <= insert_pos(r, x) <= r.len(),
        forall|k: int| 0 <= k < insert_pos(r, x) ==> !precedes(x, #[trigger] r[k]),
        forall|k: int| insert_pos(r, x) <= k < r.len() ==> precedes(x, #[trigger] r[k]),
    decreases r.len(),
{
    if r.len() > 0 {
        let t = r.drop_first();
        assert forall|i: int, j: int| 0 <= i < j < t.len() implies !precedes(#[trigger] t[j], #[trigger] t[i]) by {
            assert(t[j] == r[j + 1] && t[i] == r[i + 1]);
        }
        lemma_insert_pos_props(t, x);
        if precedes(x, r[0]) {
            assert forall|k: int| 0 <= k < r.len() implies precedes(x, #[trigger] r[k]) by {
                if k > 0 {
                    assert(!precedes(r[k], r[0]));
                }
            }
        } else {
            assert forall|k: int| 0 <= k < insert_pos(r, x) implies !precedes(x, #[trigger] r[k]) by {
                if k > 0 {
                    assert(r[k] == t[k - 1]);
                }
            }
            assert forall|k: int| insert_pos(r, x) <= k < r.len() implies precedes(x, #[trigger] r[k]) by {
                assert(r[k] == t[k - 1]);
            }
        }
    }
}

/// Sorting keeps exactly the same elements and orders them.
pub proof fn lemma_sort_spans(s: Seq<SpanView>)
    ensures
        sort_spans(s).len() == s.len(),
        sorted_spans(sort_spans(s)),
        forall|i: int| 0 <= i < s.len() ==> sort_spans(s).contains(#[trigger] s[i]),
        forall|i: int| 0 <= i < s.len() ==> s.contains(#[trigger] sort_spans(s)[i]),
    decreases s.len(),
{
    if s.len() > 0 {
        let d = s.drop_last();
        let r = sort_spans(d);
        let x = s.last();
        lemma_sort_spans(d);
        lemma_insert_pos_props(r, x);
        let p = insert_pos(r, x);
        let q = r.insert(p, x);
        assert(q == sort_spans(s));
        assert forall|i: int, j: int| 0 <= i < j < q.len() implies !precedes(#[trigger] q[j], #[trigger] q[i]) by {
            if j < p {
                assert(q[i] == r[i] && q[j] == r[j]);
            } else if j == p {
                assert(q[i] == r[i]);
            } else if i < p {
                assert(q[i] == r[i] && q[j] == r[j - 1]);
            } else if i == p {
                assert(q[j] == r[j - 1]);
                assert(precedes(x, r[j - 1]));
            } else {
                assert(q[i] == r[i - 1] && q[j] == r[j - 1]);
            }
        }
        assert forall|i: int| 0 <= i < s.len() implies q.contains(#[trigger] s[i]) by {
            if i == s.len() - 1 {
                assert(q[p] == x);
            } else {
                assert(s[i] == d[i]);
                assert(r.contains(d[i]));
                let k = choose|k: int| 0 <= k < r.len() && r[k] == d[i];
                if k < p {
                    assert(q[k] == r[k]);
                } else {
                    assert(q[k + 1] == r[k]);
                }
            }
        }
        assert forall|i: int| 0 <= i < q.len() implies s.contains(#[trigger] q[i]) by {
            if i == p {
                assert(s[s.len() - 1] == x);
            } else {
                let k = if i < p { i } else { i - 1 };
                assert(q[i] == r[k]);
                assert(d.contains(r[k]));
                let m = choose|m: int| 0 <= m < d.len() && d[m] == r[k];
                assert(s[m] == d[m]);
            }
        }
    }
}

/// The greedy choice over sorted non-empty spans keeps spans of the input in order without
/// overlap, and every input span overlaps a kept one.
#[verifier::spinoff_prover]
#[verifier::rlimit(100)]
pub proof fn lemma_greedy(s: Seq<SpanView>)
    requires
        sorted_spans(s),
        forall|i: int| 0 <= i < s.len() ==> #[trigger] s[i].start < s[i].end,
        forall|i: int| 0 <= i < s.len() ==> 0 <= #[trigger] s[i].start,
    ensures
        ({
            let (k, c) = greedy(s);
            &&& forall|a: int| 0 <= a < k.len() ==> s.contains(#[trigger] k[a])
            &&& forall|a: int, b: int| 0 <= a < b < k.len() ==> #[trigger] k[a].end <= #[trigger] k[b].start
            &&& forall|a: int| 0 <= a < k.len() ==> #[trigger] k[a].end <= c
            &&& 0 <= c
            &&& k.len() == 0 ==> c == 0
            &&& k.len() > 0 ==> c == k.last().end && exists|m: int| 0 <= m < s.len() && s[m] == k.last()
            &&& forall|i: int| 0 <= i < s.len() ==> exists|a: int| 0 <= a < k.len() && overlaps(#[trigger] s[i], k[a])
        }),
    decreases s.len(),
{
    if s.len() > 0 {
        let d = s.drop_last();
        assert forall|i: int, j: int| 0 <= i < j < d.len() implies !precedes(#[trigger] d[j], #[trigger] d[i]) by {
            assert(d[i] == s[i] && d[j] == s[j]);
        }
        assert forall|i: int| 0 <= i < d.len() implies #[trigger] d[i].start < d[i].end by {
            assert(d[i] == s[i]);
        }
        assert forall|i: int| 0 <= i < d.len() implies 0 <= #[trigger] d[i].start by {
            assert(d[i] == s[i]);
        }
        lemma_greedy(d);
        let (k0, c0) = greedy(d);
        let x = s.last();
        let n = s.len() - 1;
        assert(x == s[n]);
        assert forall|a: int| 0 <= a < k0.len() implies s.contains(#[trigger] k0[a]) by {
            let m = choose|m: int| 0 <= m < d.len() && d[m] == k0[a];
            assert(s[m] == d[m]);
        }
        if x.start < c0 {
            assert(k0.len() > 0);
            let m = choose|m: int| 0 <= m < d.len() && d[m] == k0.last();
            assert(s[m] == d[m]);
            assert(!precedes(s[n], s[m]));
            assert(overlaps(x, k0[k0.len() - 1]));
            assert forall|i: int| 0 <= i < s.len() implies exists|a: int| 0 <= a < k0.len() && overlaps(#[trigger] s[i], k0[a]) by {
                if i < n {
                    assert(s[i] == d[i]);
                } else {
                    assert(overlaps(s[i], k0[k0.len() - 1]));
                }
            }
            assert(exists|mm: int| 0 <= mm < s.len() && s[mm] == k0.last()) by {
                assert(s[m] == k0.last());
            }
        } else {
            let k = k0.push(x);
            assert(greedy(s) == (k, x.end));
            assert forall|a: int| 0 <= a < k.len() implies s.contains(#[trigger] k[a]) by {
                if a < k0.len() {
                    assert(k[a] == k0[a]);
                } else {
                    assert(s[n] == k[a]);
                }
            }
            assert forall|a: int, b: int| 0 <= a < b < k.len() implies #[trigger] k[a].end <= #[trigger] k[b].start by {
                if b < k0.len() {
                    assert(k[a] == k0[a] && k[b] == k0[b]);
                } else {
                    assert(k[a] == k0[a]);
                    assert(k0[a].end <= c0);
                }
            }
            assert forall|a: int| 0 <= a < k.len() implies #[trigger] k[a].end <= x.end by {
                if a < k0.len() {
                    assert(k[a] == k0[a]);
                    assert(k0[a].end <= c0);
                }
            }
            assert forall|i: int| 0 <= i < s.len() implies exists|a: int| 0 <= a < k.len() && overlaps(#[trigger] s[i], k[a]) by {
                if i < n {
                    assert(s[i] == d[i]);
                    let a = choose|a: int| 0 <= a < k0.len() && overlaps(d[i], k0[a]);
                    assert(k[a] == k0[a]);
                } else {
                    assert(k[k.len() - 1] == x);
                    assert(overlaps(s[i], k[k.len() - 1]));
                }
            }
            assert(exists|mm: int| 0 <= mm < s.len() && s[mm] == k.last()) by {
                assert(s[n] == k.last());
            }
        }
    }
}

proof fn lemma_mention_spans_bounds(len: int, ms: Seq<Mention>)
    ensures
        all_in_bounds(len, mention_spans(len, ms)),
    decreases ms.len(),
{
    if ms.len() > 0 {
        lemma_mention_spans_bounds(len, ms.drop_last());
    }
}

proof fn lemma_extra_spans_bounds(text: Seq<u8>, es: Seq<ExtraView>)
    ensures
        all_in_bounds(text.len() as int, extra_spans(text, es)),
    decreases es.len(),
{
    if es.len() > 0 {
        lemma_extra_spans_bounds(text, es.drop_last());
    }
}

proof fn lemma_candidates_bounds(text: Seq<u8>, ms: Seq<Mention>, es: Seq<ExtraView>)
    ensures
        all_in_bounds(text.len() as int, candidates(text, ms, es)),
{
    let len = text.len() as int;
    let c = candidates(text, ms, es);
    let m = mention_spans(len, ms);
    let e = extra_spans(text, es);
    lemma_mention_spans_bounds(len, ms);
    lemma_extra_spans_bounds(text, es);
    assert forall|i: int| 0 <= i < c.len() implies 0 <= #[trigger] c[i].start < c[i].end <= len by {
        if i < m.len() {
            assert(c[i] == m[i]);
        } else {
            assert(c[i] == e[i - m.len()]);
        }
    }
}

proof fn lemma_chosen_from_sorted(srt: Seq<SpanView>, len: int)
    requires
        sorted_spans(srt),
        all_in_bounds(len, srt),
    ensures
        spliceable(len, span_ranges(greedy(srt).0.reverse())),
        forall|i: int| 0 <= i < greedy(srt).0.reverse().len() ==> srt.contains(#[trigger] greedy(srt).0.reverse()[i]),
        forall|j: int| 0 <= j < srt.len() ==> exists|i: int| 0 <= i < greedy(srt).0.reverse().len() && overlaps(#[trigger] srt[j], greedy(srt).0.reverse()[i]),
{
    let k = greedy(srt).0;
    let r = k.reverse();
    assert forall|i: int| 0 <= i < r.len() implies srt.contains(#[trigger] r[i]) by {
        lemma_greedy(srt);
        assert(r[i] == k[k.len() - 1 - i]);
    }
    assert forall|i: int| 0 <= i < r.len() implies 0 <= #[trigger] r[i].start < r[i].end <= len by {
        assert(srt.contains(r[i]));
        let q = choose|q: int| 0 <= q < srt.len() && srt[q] == r[i];
    }
    assert forall|j: int, i: int| 0 <= i < j < r.len() implies #[trigger] r[j].end <= #[trigger] r[i].start by {
        lemma_greedy(srt);
        assert(r[i] == k[k.len() - 1 - i]);
        assert(r[j] == k[k.len() - 1 - j]);
    }
    assert forall|j: int| 0 <= j < srt.len() implies exists|i: int| 0 <= i < r.len() && overlaps(#[trigger] srt[j], r[i]) by {
        lemma_greedy(srt);
        let a = choose|a: int| 0 <= a < k.len() && overlaps(srt[j], k[a]);
        assert(r[k.len() - 1 - a] == k[a]);
    }
    lemma_ranges_of(r, len);
}

proof fn lemma_ranges_of(r: Seq<SpanView>, len: int)
    requires
        forall|i: int| 0 <= i < r.len() ==> 0 <= #[trigger] r[i].start < r[i].end <= len,
        forall|j: int, i: int| 0 <= i < j < r.len() ==> #[trigger] r[j].end <= #[trigger] r[i].start,
    ensures
        spliceable(len, span_ranges(r)),
{
    let q = span_ranges(r);
    assert forall|i: int| 0 <= i < q.len() implies 0 <= #[trigger] q[i].0 < q[i].1 <= len by {
        assert(q[i] == (r[i].start, r[i].end));
    }
    assert forall|j: int, k: int| 0 <= k < j < q.len() implies #[trigger] q[j].1 <= #[trigger] q[k].0 by {
        assert(q[j] == (r[j].start, r[j].end));
        assert(q[k] == (r[k].start, r[k].end));
    }
}

proof fn lemma_select_of(c: Seq<SpanView>, len: int)
    requires
        all_in_bounds(len, c),
    ensures
        spliceable(len, span_ranges(greedy(sort_spans(c)).0.reverse())),
        forall|i: int| 0 <= i < greedy(sort_spans(c)).0.reverse().len() ==> c.contains(#[trigger] greedy(sort_spans(c)).0.reverse()[i]),
        forall|j: int| 0 <= j < c.len() ==> exists|i: int| 0 <= i < greedy(sort_spans(c)).0.reverse().len() && overlaps(#[trigger] c[j], greedy(sort_spans(c)).0.reverse()[i]),
{
    let srt = sort_spans(c);
    let r = greedy(srt).0.reverse();
    assert(sorted_spans(srt) && all_in_bounds(len, srt)) by {
        lemma_sort_spans(c);
        assert forall|i: int| 0 <= i < srt.len() implies 0 <= #[trigger] srt[i].start < srt[i].end <= len by {
            let k = choose|k: int| 0 <= k < c.len() && c[k] == srt[i];
        }
    }
    lemma_chosen_from_sorted(srt, len);
    assert forall|i: int| 0 <= i < r.len() implies c.contains(#[trigger] r[i]) by {
        lemma_sort_spans(c);
        let q = choose|q: int| 0 <= q < srt.len() && srt[q] == r[i];
    }
    assert forall|j: int| 0 <= j < c.len() implies exists|i: int| 0 <= i < r.len() && overlaps(#[trigger] c[j], r[i]) by {
        lemma_sort_spans(c);
        let q = choose|q: int| 0 <= q < srt.len() && srt[q] == c[j];
    }
}

/// What the chosen spans are: non-empty spans inside the text, listed last-first without
/// overlap, each one a usable candidate, and every usable candidate overlaps a chosen span
/// (a candidate is left out only because it collides with a chosen one).
pub proof fn lemma_select(text: Seq<u8>, ms: Seq<Mention>, es: Seq<ExtraView>)
    ensures
        spliceable(text.len() as int, span_ranges(spec_select(text, ms, es))),
        forall|i: int| 0 <= i < spec_select(text, ms, es).len() ==> candidates(text, ms, es).contains(#[trigger] spec_select(text, ms, es)[i]),
        forall|j: int| 0 <= j < candidates(text, ms, es).len() ==> exists|i: int| 0 <= i < spec_select(text, ms, es).len() && overlaps(#[trigger] candidates(text, ms, es)[j], spec_select(text, ms, es)[i]),
{
    lemma_candidates_bounds(text, ms, es);
    lemma_select_of(candidates(text, ms, es), text.len() as int);
}

proof fn lemma_insert_pos(r: Seq<SpanView>, x: SpanView, j: int)
    requires
        0 <= j <= r.len(),
        forall|k: int| 0 <= k < j ==> !precedes(x, #[trigger] r[k]),
        j == r.len() || precedes(x, r[j]),
    ensures
        insert_pos(r, x) == j,
    decreases r.len(),
{
    if r.len() > 0 && j > 0 {
        assert forall|k: int| 0 <= k < j - 1 implies !precedes(x, #[trigger] r.drop_first()[k]) by {
            assert(r.drop_first()[k] == r[k + 1]);
        }
        lemma_insert_pos(r.drop_first(), x, j - 1);
    }
}

fn precedes_exec(a: &Span, b: &Span) -> (r: bool)
    ensures
        r == precedes(a@, b@),
{
    a.start < b.start || (a.start == b.start && a.end > b.end)
}

/// Stable sort of `spans` by [`precedes`].
fn sort_spans_exec(spans: &Vec<Span>) -> (r: Vec<Span>)
    ensures
        span_views(r@) == sort_spans(span_views(spans@)),
{
    let mut sorted: Vec<Span> = Vec::new();
    let mut i: usize = 0;
    while i < spans.len()
        invariant
            i <= spans@.len(),
            span_views(sorted@) == sort_spans(span_views(spans@).take(i as int)),
        decreases spans@.len() - i,
    {
        let x = spans[i].duplicate();
        let mut j: usize = 0;
        while j < sorted.len() && !precedes_exec(&x, &sorted[j])
            invariant
                j <= sorted@.len(),
                forall|k: int| 0 <= k < j ==> !precedes(x@, #[trigger] span_views(sorted@)[k]),
            decreases sorted@.len() - j,
        {
            j += 1;
        }
        proof {
            lemma_insert_pos(span_views(sorted@), x@, j as int);
            assert(span_views(spans@).take(i + 1).drop_last() =~= span_views(spans@).take(
                i as int,
            ));
        }
        let ghost before = sorted@;
        sorted.insert(j, x);
        proof {
            assert(span_views(sorted@) =~= span_views(before).insert(j as int, x@));
        }
        i += 1;
    }
    proof {
        assert(span_views(spans@).take(spans@.len() as int) =~= span_views(spans@));
    }
    sorted
}

/// The greedy choice over `sorted`, in text order.
fn greedy_exec(sorted: &Vec<Span>) -> (r: Vec<Span>)
    ensures
        span_views(r@) == greedy(span_views(sorted@)).0,
{
    let mut kept: Vec<Span> = Vec::new();
    let mut cursor: usize = 0;
    let mut i: usize = 0;
    while i < sorted.len()
        invariant
            i <= sorted@.len(),
            (span_views(kept@), cursor as int) == greedy(span_views(sorted@).take(i as int)),
        decreases sorted@.len() - i,
    {
        proof {
            assert(span_views(sorted@).take(i + 1).drop_last() =~= span_views(sorted@).take(
                i as int,
            ));
        }
        if sorted[i].start >= cursor {
            cursor = sorted[i].end;
            let ghost before = kept@;
            kept.push(sorted[i].duplicate());
            proof {
                assert(span_views(kept@) =~= span_views(before).push(sorted@[i as int]@));
            }
        }
        i += 1;
    }
    proof {
        assert(span_views(sorted@).take(sorted@.len() as int) =~= span_views(sorted@));
    }
    kept
}

/// The spans of `v` in reverse order.
fn reverse_spans(v: &Vec<Span>) -> (r: Vec<Span>)
    ensures
        span_views(r@) == span_views(v@).reverse(),
{
    let mut out: Vec<Span> = Vec::new();
    let mut i: usize = v.len();
    while i > 0
        invariant
            i <= v@.len(),
            span_views(out@) == span_views(v@).skip(i as int).reverse(),
        decreases i,
    {
        i -= 1;
        let ghost before = out@;
        out.push(v[i].duplicate());
        proof {
            let a = span_views(v@);
            assert(span_views(out@) =~= span_views(before).push(a[i as int]));
            assert(a.skip(i as int).reverse() =~= a.skip(i + 1).reverse().push(a[i as int]));
        }
    }
    proof {
        assert(span_views(v@).skip(0) =~= span_views(v@));
    }
    out
}

/// The spans of a document to tokenize, given the recognizer's mentions and extra spans
/// `(start, end, label, text)` over the same text: last in the text first.
pub fn select_spans(text: &str, mentions: &Vec<Mention>, extra: &Vec<(usize, usize, String, String)>) -> (r:
    Vec<Span>)
    ensures
        span_views(r@) == spec_select(encode_utf8(text@), mentions@, extra_views(extra@)),
        spliceable(encode_utf8(text@).len() as int, span_ranges(span_views(r@))),
{
    proof {
        lemma_select(encode_utf8(text@), mentions@, extra_views(extra@));
    }
    let ghost bytes = encode_utf8(text@);
    let len = text.as_bytes().len();
    let mut cands: Vec<Span> = Vec::new();
    let mut i: usize = 0;
    while i < mentions.len()
        invariant
            bytes == encode_utf8(text@),
            len == bytes.len(),
            i <= mentions@.len(),
            span_views(cands@) == mention_spans(len as int, mentions@.take(i as int)),
        decreases mentions@.len() - i,
    {
        let m = &mentions[i];
        proof {
            assert(mentions@.take(i + 1).drop_last() =~= mentions@.take(i as int));
        }
        if m.char_end <= len && m.char_start < m.char_end && !is_rejected(m.text.as_str()) {
            let ghost before = cands@;
            let class = pii_class(m.field.as_str());
            cands.push(Span { start: m.char_start, end: m.char_end, class, raw: m.text.clone() });
            proof {
                assert(span_views(cands@) =~= span_views(before).push(mention_span(*m)));
            }
        }
        i += 1;
    }
    proof {
        assert(mentions@.take(mentions@.len() as int) =~= mentions@);
    }
    let ghost from_mentions = cands@;
    let mut k: usize = 0;
    while k < extra.len()
        invariant
            bytes == encode_utf8(text@),
            len == bytes.len(),
            k <= extra@.len(),
            span_views(from_mentions) == mention_spans(len as int, mentions@),
            span_views(cands@) == span_views(from_mentions) + extra_spans(bytes, extra_views(extra@).take(k as int)),
        decreases extra@.len() - k,
    {
        let e = &extra[k];
        proof {
            assert(extra_views(extra@).take(k + 1).drop_last() =~= extra_views(extra@).take(k as int));
            assert(extra_views(extra@).take(k + 1).last() == extra_view(*e));
        }
        if text.is_char_boundary(e.0) && text.is_char_boundary(e.1) && e.1 <= len && e.0 < e.1 {
            let ghost before = cands@;
            let class = pii_class(e.2.as_str());
            cands.push(Span { start: e.0, end: e.1, class, raw: e.3.clone() });
            proof {
                assert(span_views(cands@) =~= span_views(before).push(extra_span(extra_view(*e))));
                assert(span_views(from_mentions) + extra_spans(bytes, extra_views(extra@).take(k + 1))
                    =~= (span_views(from_mentions) + extra_spans(bytes, extra_views(extra@).take(k as int))).push(extra_span(extra_view(*e))));
            }
        }
        k += 1;
    }
    proof {
        assert(extra_views(extra@).take(extra@.len() as int) =~= extra_views(extra@));
    }
    let sorted = sort_spans_exec(&cands);
    let kept = greedy_exec(&sorted);
    reverse_spans(&kept)
}

proof fn lemma_on_boundaries_at(b: Seq<u8>, q: Seq<(int, int)>, k: int)
    requires
        on_boundaries(b, q),
        0 <= k < q.len(),
    ensures
        is_char_boundary(b, q[k].0),
        is_char_boundary(b, q[k].1),
{
}

/// Whether every span starts and ends on a character boundary of `text` (splicing needs it;
/// mentions are not checked for it when they are chosen).
pub fn spans_on_boundaries(text: &str, spans: &Vec<Span>) -> (r: bool)
    ensures
        r == on_boundaries(encode_utf8(text@), span_ranges(span_views(spans@))),
{
    let ghost q = span_ranges(span_views(spans@));
    let mut i: usize = 0;
    while i < spans.len()
        invariant
            i <= spans@.len(),
            q == span_ranges(span_views(spans@)),
            forall|j: int|
                #![trigger q[j]]
                0 <= j < i ==> is_char_boundary(encode_utf8(text@), q[j].0) && is_char_boundary(encode_utf8(text@), q[j].1),
        decreases spans@.len() - i,
    {
        assert(q[i as int] == (spans@[i as int].start as int, spans@[i as int].end as int));
        if !text.is_char_boundary(spans[i].start) || !text.is_char_boundary(spans[i].end) {
            proof {
                let k = i as int;
                assert(q.len() == spans@.len());
                let b = encode_utf8(text@);
                assert(0 <= k < q.len());
                assert(!(is_char_boundary(b, q[k].0) && is_char_boundary(b, q[k].1)));
                if on_boundaries(b, q) {
                    lemma_on_boundaries_at(b, q, k);
                }
            }
            return false;
        }
        i += 1;
    }
    true
}

/// `text` with each chosen span (last-first, as [`select_spans`] lists them) replaced by the
/// token at the same index.
pub fn splice_tokens(text: &str, spans: &Vec<Span>, tokens: &Vec<String>) -> (r: String)
    requires
        spans@.len() == tokens@.len(),
        spliceable(encode_utf8(text@).len() as int, span_ranges(span_views(spans@))),
        on_boundaries(encode_utf8(text@), span_ranges(span_views(spans@))),
    ensures
        encode_utf8(r@) == spec_splice(encode_utf8(text@), span_ranges(span_views(spans@)), encodings(tokens@)),
{
    let mut ranges: Vec<(usize, usize)> = Vec::new();
    let mut i: usize = 0;
    while i < spans.len()
        invariant
            i <= spans@.len(),
            range_views(ranges@) == span_ranges(span_views(spans@)).take(i as int),
        decreases spans@.len() - i,
    {
        let ghost before = ranges@;
        ranges.push((spans[i].start, spans[i].end));
        proof {
            assert(range_views(ranges@) =~= range_views(before).push((spans@[i as int].start as int, spans@[i as int].end as int)));
            assert(span_ranges(span_views(spans@))[i as int] == (spans@[i as int].start as int, spans@[i as int].end as int));
        }
        i += 1;
        proof {
            assert(range_views(ranges@) =~= span_ranges(span_views(spans@)).take(i as int));
        }
    }
    proof {
        assert(span_ranges(span_views(spans@)).take(spans@.len() as int) =~= span_ranges(span_views(spans@)));
    }
    splice(text, &ranges, tokens)
}

/// The file name of the ONNX Runtime library on an operating system (as
/// `std::env::consts::OS` names it).
pub open spec fn spec_dylib_name(os: Seq<char>) -> Seq<char> {
    if os == "windows"@ {
        "onnxruntime.dll"@
    } else if os == "macos"@ {
        "libonnxruntime.dylib"@
    } else {
        "libonnxruntime.so"@
    }
}

/// The file name of the ONNX Runtime library on the operating system `os`.
pub fn dylib_name(os: &str) -> (r: &'static str)
    ensures
        r@ == spec_dylib_name(os@),
{
    if crate::text::str_eq(os, "windows") {
        return "onnxruntime.dll";
    }
    if crate::text::str_eq(os, "macos") {
        return "libonnxruntime.dylib";
    }
    "libonnxruntime.so"
}

/// The name of the ONNX Runtime release archive for an operating system and architecture,
/// if a build is published for them.
pub open spec fn spec_ort_archive_stem(os: Seq<char>, arch: Seq<char>) -> Option<Seq<char>> {
    if os == "macos"@ && arch == "aarch64"@ {
        Some("onnxruntime-osx-arm64-1.23.2"@)
    } else if os == "macos"@ && arch == "x86_64"@ {
        Some("onnxruntime-osx-x86_64-1.23.2"@)
    } else if os == "linux"@ && arch == "x86_64"@ {
        Some("onnxruntime-linux-x64-1.23.2"@)
    } else if os == "linux"@ && arch == "aarch64"@ {
        Some("onnxruntime-linux-aarch64-1.23.2"@)
    } else {
        None
    }
}

/// The name of the ONNX Runtime release archive for `os` and `arch` (see
/// [`spec_ort_archive_stem`]).
pub fn ort_archive_stem(os: &str, arch: &str) -> (r: Option<&'static str>)
    ensures
        match r {
            Some(s) => spec_ort_archive_stem(os@, arch@) == Some(s@),
            None => spec_ort_archive_stem(os@, arch@) is None,
        },
{
    let mac = crate::text::str_eq(os, "macos");
    let linux = crate::text::str_eq(os, "linux");
    let arm = crate::text::str_eq(arch, "aarch64");
    let x86 = crate::text::str_eq(arch, "x86_64");
    if mac && arm {
        Some("onnxruntime-osx-arm64-1.23.2")
    } else if mac && x86 {
        Some("onnxruntime-osx-x86_64-1.23.2")
    } else if linux && x86 {
        Some("onnxruntime-linux-x64-1.23.2")
    } else if linux && arm {
        Some("onnxruntime-linux-aarch64-1.23.2")
    } else {
        None
    }
}

proof fn lemma_mention_spans_not_rejected(len: int, ms: Seq<Mention>)
    ensures
        forall|k: int|
            0 <= k < mention_spans(len, ms).len() ==> !spec_rejected().contains(
                spec_normalize(#[trigger] mention_spans(len, ms)[k].raw),
            ),
    decreases ms.len(),
{
    if ms.len() > 0 {
        lemma_mention_spans_not_rejected(len, ms.drop_last());
        let prev = mention_spans(len, ms.drop_last());
        assert forall|k: int| 0 <= k < mention_spans(len, ms).len() implies !spec_rejected().contains(
            spec_normalize(#[trigger] mention_spans(len, ms)[k].raw),
        ) by {
            if k < prev.len() {
                assert(mention_spans(len, ms)[k] == prev[k]);
            }
        }
    }
}

/// Generic contract words are never masked on the recognizer's word: without extra spans,
/// no chosen span is a rejected word.
pub proof fn lemma_rejected_words_kept(text: Seq<u8>, ms: Seq<Mention>)
    ensures
        forall|i: int|
            0 <= i < spec_select(text, ms, Seq::empty()).len() ==> !spec_rejected().contains(
                spec_normalize(#[trigger] spec_select(text, ms, Seq::empty())[i].raw),
            ),
{
    lemma_select(text, ms, Seq::empty());
    lemma_mention_spans_not_rejected(text.len() as int, ms);
    let c = candidates(text, ms, Seq::empty());
    assert(extra_spans(text, Seq::<ExtraView>::empty()) =~= Seq::<SpanView>::empty());
    assert(c =~= mention_spans(text.len() as int, ms));
    let chosen = spec_select(text, ms, Seq::empty());
    assert forall|i: int| 0 <= i < chosen.len() implies !spec_rejected().contains(
        spec_normalize(#[trigger] chosen[i].raw),
    ) by {
        assert(c.contains(chosen[i]));
        let k = choose|k: int| 0 <= k < c.len() && c[k] == chosen[i];
        assert(mention_spans(text.len() as int, ms)[k] == chosen[i]);
    }
}

/// Whether the spans are listed last-first without overlap, each inside `text` (see
/// [`spliceable`]).
pub fn spans_spliceable(text: &str, spans: &Vec<Span>) -> (r: bool)
    ensures
        r == spliceable(encode_utf8(text@).len() as int, span_ranges(span_views(spans@))),
{
    let ghost q = span_ranges(span_views(spans@));
    let len = text.as_bytes().len();
    let mut i: usize = 0;
    while i < spans.len()
        invariant
            q == span_ranges(span_views(spans@)),
            len == encode_utf8(text@).len(),
            q.len() == spans@.len(),
            i <= q.len(),
            forall|k: int| 0 <= k < i ==> 0 <= #[trigger] q[k].0 <= q[k].1 <= len,
            forall|j: int, k: int| 0 <= k < j < i ==> #[trigger] q[j].1 <= #[trigger] q[k].0,
        decreases q.len() - i,
    {
        assert(q[i as int] == (spans@[i as int].start as int, spans@[i as int].end as int));
        if !(spans[i].start <= spans[i].end && spans[i].end <= len) {
            proof {
                let k = i as int;
                assert(0 <= k < q.len());
                assert(!(0 <= q[k].0 <= q[k].1 <= encode_utf8(text@).len()));
                if spliceable(encode_utf8(text@).len() as int, q) {
                    crate::splice::lemma_spliceable_at(encode_utf8(text@).len() as int, q, k);
                }
            }
            return false;
        }
        if i > 0 {
            assert(q[i - 1] == (spans@[i - 1].start as int, spans@[i - 1].end as int));
            if spans[i].end > spans[i - 1].start {
                proof {
                    if spliceable(encode_utf8(text@).len() as int, q) {
                        crate::splice::lemma_spliceable_at(encode_utf8(text@).len() as int, q, i as int);
                    }
                }
                return false;
            }
            proof {
                let a = q[i - 1];
                let c = q[i as int];
                assert(c.1 <= a.0);
                assert(0 <= a.0 <= a.1);
                assert forall|j: int, k: int| 0 <= k < j < i + 1 implies #[trigger] q[j].1 <= #[trigger] q[k].0 by {
                    if j == i && k < i - 1 {
                        assert(q[i - 1].1 <= q[k].0);
                        assert(q[i - 1].0 <= q[i - 1].1);
                    }
                }
            }
        }
        i += 1;
    }
    true
}

proof fn lemma_contains_at(h: Seq<char>, p: Seq<char>, k: int)
    requires
        0 <= k,
        k + p.len() <= h.len(),
        h.subrange(k, k + p.len()) == p,
    ensures
        crate::search::contains(h, p),
{
    crate::search::lemma_first_from_found(h, p, 0, k);
}

/// The ONNX Runtime archive is chosen for exactly the four supported platforms (Linux and
/// macOS, on x86-64 and ARM64), different platforms get different archives, and each
/// archive names the platform's operating system (`linux` or `osx`) and architecture
/// (`x64`/`x86_64` or `aarch64`/`arm64`).
pub proof fn lemma_ort_archive_stem(os: Seq<char>, arch: Seq<char>, os2: Seq<char>, arch2: Seq<char>)
    ensures
        spec_ort_archive_stem(os, arch) is Some <==> ((os == "linux"@ || os == "macos"@) && (arch == "x86_64"@
            || arch == "aarch64"@)),
        spec_ort_archive_stem(os, arch) is Some && spec_ort_archive_stem(os, arch) == spec_ort_archive_stem(os2, arch2)
            ==> os == os2 && arch == arch2,
        spec_ort_archive_stem(os, arch) matches Some(stem) ==> {
            &&& (os == "linux"@ ==> crate::search::contains(stem, "linux"@))
            &&& (os == "macos"@ ==> crate::search::contains(stem, "osx"@))
            &&& (arch == "x86_64"@ ==> crate::search::contains(stem, "x64"@) || crate::search::contains(stem, "x86_64"@))
            &&& (arch == "aarch64"@ ==> crate::search::contains(stem, "aarch64"@) || crate::search::contains(stem, "arm64"@))
        },
{
    reveal_strlit("linux");
    reveal_strlit("macos");
    reveal_strlit("x86_64");
    reveal_strlit("aarch64");
    reveal_strlit("osx");
    reveal_strlit("x64");
    reveal_strlit("arm64");
    reveal_strlit("onnxruntime-osx-arm64-1.23.2");
    reveal_strlit("onnxruntime-osx-x86_64-1.23.2");
    reveal_strlit("onnxruntime-linux-x64-1.23.2");
    reveal_strlit("onnxruntime-linux-aarch64-1.23.2");
    let s1 = "onnxruntime-osx-arm64-1.23.2"@;
    let s2 = "onnxruntime-osx-x86_64-1.23.2"@;
    let s3 = "onnxruntime-linux-x64-1.23.2"@;
    let s4 = "onnxruntime-linux-aarch64-1.23.2"@;
    assert("linux"@ != "macos"@) by {
        assert("linux"@[0] != "macos"@[0]);
    }
    assert("x86_64"@ != "aarch64"@) by {
        assert("x86_64"@.len() != "aarch64"@.len());
    }
    // The four stems differ pairwise.
    assert(s1 != s2) by {
        assert(s1.len() != s2.len());
    }
    assert(s1 != s3) by {
        assert(s1[12] != s3[12]);
    }
    assert(s1 != s4) by {
        assert(s1.len() != s4.len());
    }
    assert(s2 != s3) by {
        assert(s2[12] != s3[12]);
    }
    assert(s2 != s4) by {
        assert(s2.len() != s4.len());
    }
    assert(s3 != s4) by {
        assert(s3.len() != s4.len());
    }
    // What each stem names.
    assert(s1.subrange(12, 15) =~= "osx"@);
    lemma_contains_at(s1, "osx"@, 12);
    assert(s1.subrange(16, 21) =~= "arm64"@);
    lemma_contains_at(s1, "arm64"@, 16);
    assert(s2.subrange(12, 15) =~= "osx"@);
    lemma_contains_at(s2, "osx"@, 12);
    assert(s2.subrange(16, 22) =~= "x86_64"@);
    lemma_contains_at(s2, "x86_64"@, 16);
    assert(s3.subrange(12, 17) =~= "linux"@);
    lemma_contains_at(s3, "linux"@, 12);
    assert(s3.subrange(18, 21) =~= "x64"@);
    lemma_contains_at(s3, "x64"@, 18);
    assert(s4.subrange(12, 17) =~= "linux"@);
    lemma_contains_at(s4, "linux"@, 12);
    assert(s4.subrange(18, 25) =~= "aarch64"@);
    lemma_contains_at(s4, "aarch64"@, 18);
}

} // verus!
