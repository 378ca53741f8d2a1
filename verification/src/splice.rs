//! Replacing byte ranges of a text by tokens.
use vstd::prelude::*;
use vstd::utf8::*;
use crate::text::{bytes_of, string_from_bytes};

verus! {

/// The byte ranges of `v` as integer pairs.
pub open spec fn range_views(v: Seq<(usize, usize)>) -> Seq<(int, int)> {
    v.map_values(|r: (usize, usize)| (r.0 as int, r.1 as int))
}

/// Byte ranges that can be spliced into a text of `len` bytes: each inside the text, listed
/// last-first without overlap.
pub open spec fn spliceable(len: int, spans: Seq<(int, int)>) -> bool {
    &&& forall|i: int| 0 <= i < spans.len() ==> 0 <= #[trigger] spans[i].0 <= spans[i].1 <= len
    &&& forall|j: int, k: int| 0 <= k < j < spans.len() ==> #[trigger] spans[j].1 <= #[trigger] spans[k].0
}

/// Every range of `spans` starts and ends on a character boundary of `text`.
pub open spec fn on_boundaries(text: Seq<u8>, spans: Seq<(int, int)>) -> bool {
    forall|i: int|
        #![trigger spans[i]]
        0 <= i < spans.len() ==> is_char_boundary(text, spans[i].0) && is_char_boundary(text, spans[i].1)
}

/// `text` with each range replaced by its token; the ranges are listed last-first.
pub open spec fn spec_splice(text: Seq<u8>, spans: Seq<(int, int)>, tokens: Seq<Seq<u8>>) -> Seq<u8>
    decreases spans.len(),
{
    if spans.len() == 0 || tokens.len() == 0 {
        text
    } else {
        spec_splice(text.take(spans[0].0), spans.drop_first(), tokens.drop_first()) + tokens[0]
            + text.skip(spans[0].1)
    }
}

/// The UTF-8 encodings of a sequence of strings.
pub open spec fn encodings(v: Seq<String>) -> Seq<Seq<u8>> {
    v.map_values(|t: String| encode_utf8(t@))
}

proof fn lemma_splice_extend(b: Seq<u8>, spans: Seq<(int, int)>, toks: Seq<Seq<u8>>, c: int, m: int)
    requires
        0 <= c <= m <= b.len(),
        spans.len() > 0 ==> 0 <= spans[0].0 <= spans[0].1 <= c,
    ensures
        spec_splice(b.take(m), spans, toks) == spec_splice(b.take(c), spans, toks) + b.subrange(c, m),
{
    if spans.len() == 0 || toks.len() == 0 {
        assert(b.take(m) =~= b.take(c) + b.subrange(c, m));
    } else {
        let s0 = spans[0].0;
        let e0 = spans[0].1;
        assert(b.take(m).take(s0) =~= b.take(s0));
        assert(b.take(c).take(s0) =~= b.take(s0));
        assert(b.take(m).skip(e0) =~= b.take(c).skip(e0) + b.subrange(c, m));
        let p = spec_splice(b.take(s0), spans.drop_first(), toks.drop_first());
        assert(p + toks[0] + b.take(m).skip(e0) =~= (p + toks[0] + b.take(c).skip(e0)) + b.subrange(c, m));
    }
}

proof fn lemma_boundary_prefix(b: Seq<u8>, m: int, x: int)
    requires
        valid_utf8(b),
        0 <= x <= m <= b.len(),
        is_char_boundary(b, m),
        is_char_boundary(b, x),
    ensures
        valid_utf8(b.take(m)),
        is_char_boundary(b.take(m), x),
{
    valid_utf8_split(b, m);
    assert(b.take(m) =~= b.subrange(0, m));
    is_char_boundary_start_end_of_seq(b.take(m));
    if 0 < x < m {
        is_char_boundary_iff_not_is_continuation_byte(b, x);
        is_char_boundary_iff_not_is_continuation_byte(b.take(m), x);
    }
}

proof fn lemma_splice_valid(b: Seq<u8>, spans: Seq<(int, int)>, toks: Seq<Seq<u8>>)
    requires
        valid_utf8(b),
        spliceable(b.len() as int, spans),
        on_boundaries(b, spans),
        forall|i: int| 0 <= i < toks.len() ==> valid_utf8(#[trigger] toks[i]),
    ensures
        valid_utf8(spec_splice(b, spans, toks)),
    decreases spans.len(),
{
    if spans.len() > 0 && toks.len() > 0 {
        let s0 = spans[0].0;
        let e0 = spans[0].1;
        let rest = spans.drop_first();
        let pre = b.take(s0);
        lemma_boundary_prefix(b, s0, s0);
        assert forall|i: int| 0 <= i < rest.len() implies is_char_boundary(pre, #[trigger] rest[i].0)
            && is_char_boundary(pre, rest[i].1) by {
            assert(rest[i] == spans[i + 1]);
            assert(spans[i + 1].1 <= spans[0].0);
            lemma_boundary_prefix(b, s0, rest[i].0);
            lemma_boundary_prefix(b, s0, rest[i].1);
        }
        assert forall|j: int, k: int| 0 <= k < j < rest.len() implies #[trigger] rest[j].1 <= #[trigger] rest[k].0 by {
            assert(rest[j] == spans[j + 1]);
            assert(rest[k] == spans[k + 1]);
        }
        assert forall|i: int| 0 <= i < rest.len() implies 0 <= #[trigger] rest[i].0 <= rest[i].1 <= pre.len() by {
            assert(rest[i] == spans[i + 1]);
            assert(spans[i + 1].1 <= spans[0].0);
        }
        assert forall|i: int| 0 <= i < toks.drop_first().len() implies valid_utf8(#[trigger] toks.drop_first()[i]) by {
            assert(toks.drop_first()[i] == toks[i + 1]);
        }
        lemma_splice_valid(pre, rest, toks.drop_first());
        valid_utf8_split(b, e0);
        assert(b.skip(e0) =~= b.subrange(e0, b.len() as int));
        let p = spec_splice(pre, rest, toks.drop_first());
        valid_utf8_concat(p, toks[0]);
        valid_utf8_concat(p + toks[0], b.skip(e0));
    }
}

/// `text` with each byte range of `spans` (listed last-first) replaced by the token at the
/// same index.
pub fn splice(text: &str, spans: &Vec<(usize, usize)>, tokens: &Vec<String>) -> (r: String)
    requires
        spans@.len() == tokens@.len(),
        spliceable(encode_utf8(text@).len() as int, range_views(spans@)),
        on_boundaries(encode_utf8(text@), range_views(spans@)),
    ensures
        encode_utf8(r@) == spec_splice(encode_utf8(text@), range_views(spans@), encodings(tokens@)),
{
    let b = text.as_bytes();
    let ghost bv = b@;
    let ghost views = range_views(spans@);
    let ghost toks = encodings(tokens@);
    let n = spans.len();
    let mut out: Vec<u8> = Vec::new();
    let mut cursor: usize = 0;
    let mut i: usize = n;
    while i > 0
        invariant
            bv == b@,
            bv == encode_utf8(text@),
            views == range_views(spans@),
            toks == encodings(tokens@),
            n == spans@.len(),
            n == tokens@.len(),
            spliceable(bv.len() as int, views),
            i <= n,
            cursor <= bv.len(),
            i < n ==> cursor == views[i as int].1,
            i == n ==> cursor == 0,
            out@ == spec_splice(bv.take(cursor as int), views.skip(i as int), toks.skip(i as int)),
        decreases i,
    {
        i -= 1;
        let start = spans[i].0;
        let end = spans[i].1;
        proof {
            assert(views[i as int] == (spans@[i as int].0 as int, spans@[i as int].1 as int));
            assert(0 <= views[i as int].0 <= views[i as int].1 <= bv.len());
            if i + 1 < n {
                assert(views[i + 1].1 <= views[i as int].0);
            }
            assert(cursor <= start);
        }
        let ghost old_out = out@;
        let ghost old_cursor = cursor as int;
        let mut j: usize = cursor;
        while j < start
            invariant
                bv == b@,
                0 <= old_cursor <= j <= start,
                start <= bv.len(),
                out@ == old_out + bv.subrange(old_cursor, j as int),
            decreases start - j,
        {
            out.push(b[j]);
            j += 1;
            proof {
                assert(out@ =~= old_out + bv.subrange(old_cursor, j as int));
            }
        }
        let tb = crate::text::bytes_of(tokens[i].as_str());
        let mut t: usize = 0;
        let ghost mid = out@;
        while t < tb.len()
            invariant
                t <= tb@.len(),
                out@ == mid + tb@.take(t as int),
            decreases tb@.len() - t,
        {
            out.push(tb[t]);
            t += 1;
            proof {
                assert(out@ =~= mid + tb@.take(t as int));
            }
        }
        proof {
            assert(tb@.take(tb@.len() as int) =~= tb@);
            let sk = views.skip(i as int);
            assert(sk[0] == views[i as int]);
            assert(sk.drop_first() =~= views.skip(i + 1));
            assert(toks.skip(i as int).drop_first() =~= toks.skip(i + 1));
            assert(toks.skip(i as int)[0] == toks[i as int]);
            assert(toks[i as int] == tb@);
            let pre = bv.take(end as int);
            assert(pre.take(start as int) =~= bv.take(start as int));
            assert(pre.skip(end as int) =~= Seq::<u8>::empty());
            lemma_splice_extend(bv, views.skip(i + 1), toks.skip(i + 1), old_cursor, start as int);
            assert(out@ =~= spec_splice(bv.take(start as int), views.skip(i + 1), toks.skip(i + 1)) + tb@);
            assert(spec_splice(pre, sk, toks.skip(i as int)) =~= spec_splice(bv.take(start as int), views.skip(i + 1), toks.skip(i + 1)) + tb@ + pre.skip(end as int));
        }
        cursor = end;
    }
    let ghost old_out = out@;
    let mut j: usize = cursor;
    while j < b.len()
        invariant
            bv == b@,
            cursor <= j <= bv.len(),
            out@ == old_out + bv.subrange(cursor as int, j as int),
        decreases bv.len() - j,
    {
        out.push(b[j]);
        j += 1;
        proof {
            assert(out@ =~= old_out + bv.subrange(cursor as int, j as int));
        }
    }
    proof {
        assert(views.skip(0) =~= views);
        assert(toks.skip(0) =~= toks);
        lemma_splice_extend(bv, views, toks, cursor as int, bv.len() as int);
        assert(bv.take(bv.len() as int) =~= bv);
        encode_utf8_valid_utf8(text@);
        assert forall|k: int| 0 <= k < toks.len() implies valid_utf8(#[trigger] toks[k]) by {
            encode_utf8_valid_utf8(tokens@[k]@);
        }
        lemma_splice_valid(bv, views, toks);
    }
    string_from_bytes(out)
}

/// What spliceable ranges give at one index: the range lies in the text and ends before the
/// start of the range listed just before it.
pub proof fn lemma_spliceable_at(len: int, spans: Seq<(int, int)>, k: int)
    requires
        spliceable(len, spans),
        0 <= k < spans.len(),
    ensures
        0 <= spans[k].0 <= spans[k].1 <= len,
        k > 0 ==> spans[k].1 <= spans[k - 1].0,
{
    if k > 0 {
        assert(spans[k].1 <= spans[k - 1].0);
    }
}

} // verus!
