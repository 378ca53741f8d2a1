//! Compact display of session tokens and the way back.
//!
//! Session tokens look like `<hex:Class_n>`, where `hex` names the session. Formatting drops
//! the session prefix (`<Class_n>`); unformatting maps compact or bare labels found in a text
//! back to the full tokens the session issued.
use vstd::prelude::*;
use vstd::utf8::*;
use crate::splice::{spec_splice, encodings, range_views, splice};
use crate::search::{occurs_at, replace_all, replace_chars, replace_from};
use crate::text::{chars_of, chars_eq, lowercase, string_from_chars, substring, to_lowercase};

verus! {

/// Formats and restores session tokens.
#[derive(Debug, Clone, Copy, PartialEq, Eq)]
pub struct TokenFormatter;

/// The prefix that the tokens of a session start with: `<hex:`.
pub open spec fn session_prefix(hex: Seq<char>) -> Seq<char> {
    seq!['<'] + hex + seq![':']
}

/// The label inside a full token `<hex:label>` of the session, if `t` is one.
pub open spec fn inner_label(hex: Seq<char>, t: Seq<char>) -> Option<Seq<char>> {
    let p = session_prefix(hex);
    if t.len() >= p.len() + 1 && t.take(p.len() as int) == p && t.last() == '>' {
        Some(t.subrange(p.len() as int, t.len() - 1))
    } else {
        None
    }
}

/// `label` names the session token `t`: it is the full token, its compact form `<label>`
/// or its bare label.
pub open spec fn names(hex: Seq<char>, t: Seq<char>, label: Seq<char>) -> bool {
    match inner_label(hex, t) {
        Some(inner) => label == t || label == compact(inner) || label == inner,
        None => false,
    }
}

/// The compact form `<label>` of a token.
pub open spec fn compact(inner: Seq<char>) -> Seq<char> {
    seq!['<'] + inner + seq!['>']
}

/// The full token a label in a text stands for: the last session token it names.
pub open spec fn lookup(hex: Seq<char>, tokens: Seq<Seq<char>>, label: Seq<char>) -> Option<Seq<char>>
    decreases tokens.len(),
{
    if tokens.len() == 0 {
        None
    } else if names(hex, tokens.last(), label) {
        Some(tokens.last())
    } else {
        lookup(hex, tokens.drop_last(), label)
    }
}

/// The matches of `text` whose label a session token is found for, in order, each with that
/// token.
pub open spec fn found_tokens(
    hex: Seq<char>,
    tokens: Seq<Seq<char>>,
    text: Seq<u8>,
    ms: Seq<(int, int)>,
) -> Seq<((int, int), Seq<char>)>
    decreases ms.len(),
{
    if ms.len() == 0 {
        seq![]
    } else {
        let prev = found_tokens(hex, tokens, text, ms.drop_last());
        let m = ms.last();
        match lookup(hex, tokens, decode_utf8(text.subrange(m.0, m.1))) {
            Some(t) => prev.push((m, t)),
            None => prev,
        }
    }
}

/// `text` with every match whose label a session token is found for replaced by that token.
pub open spec fn spec_unformat(
    hex: Seq<char>,
    tokens: Seq<Seq<char>>,
    text: Seq<u8>,
    ms: Seq<(int, int)>,
) -> Seq<u8> {
    let f = found_tokens(hex, tokens, text, ms);
    spec_splice(
        text,
        f.map_values(|x: ((int, int), Seq<char>)| x.0).reverse(),
        f.map_values(|x: ((int, int), Seq<char>)| encode_utf8(x.1)).reverse(),
    )
}

/// Byte ranges of a text as a regular-expression search reports its matches: each inside
/// the text on character boundaries, in order and without overlap.
pub open spec fn ordered_matches(text: Seq<u8>, ms: Seq<(int, int)>) -> bool {
    &&& forall|i: int|
        #![trigger ms[i]]
        0 <= i < ms.len() ==> 0 <= ms[i].0 <= ms[i].1 <= text.len() && is_char_boundary(text, ms[i].0)
            && is_char_boundary(text, ms[i].1)
    &&& forall|i: int, j: int| 0 <= i < j < ms.len() ==> #[trigger] ms[i].1 <= #[trigger] ms[j].0
}

/// The spec of [`TokenFormatter::format`].
pub open spec fn spec_format(hex: Seq<char>, text: Seq<char>) -> Seq<char> {
    replace_all(text, session_prefix(hex), seq!['<'])
}

fn prefix_chars(hex: &str) -> (r: Vec<char>)
    ensures
        r@ == session_prefix(hex@),
{
    let mut p: Vec<char> = Vec::new();
    p.push('<');
    let h = chars_of(hex);
    let mut i: usize = 0;
    while i < h.len()
        invariant
            i <= h@.len(),
            p@ == seq!['<'] + h@.take(i as int),
        decreases h@.len() - i,
    {
        p.push(h[i]);
        i += 1;
        proof {
            assert(p@ =~= seq!['<'] + h@.take(i as int));
        }
    }
    p.push(':');
    proof {
        assert(h@.take(h@.len() as int) =~= h@);
        assert(p@ =~= session_prefix(hex@));
    }
    p
}

/// The label inside `t` as a full token of the session with prefix `p`, if it is one.
fn inner_label_exec(p: &Vec<char>, t: &Vec<char>, Ghost(hex): Ghost<Seq<char>>) -> (r: Option<Vec<char>>)
    requires
        p@ == session_prefix(hex),
    ensures
        match r {
            Some(v) => inner_label(hex, t@) == Some(v@),
            None => inner_label(hex, t@) is None,
        },
{
    if t.len() <= p.len() || t[t.len() - 1] != '>' {
        return None;
    }
    let mut i: usize = 0;
    while i < p.len()
        invariant
            p@ == session_prefix(hex),
            p@.len() + 1 <= t@.len(),
            i <= p@.len(),
            forall|q: int| 0 <= q < i ==> t@[q] == p@[q],
        decreases p@.len() - i,
    {
        if t[i] != p[i] {
            proof {
                assert(t@.take(p@.len() as int)[i as int] != p@[i as int]);
                assert(t@.take(p@.len() as int) != p@);
            }
            return None;
        }
        i += 1;
    }
    proof {
        assert(t@.take(p@.len() as int) =~= p@);
    }
    let mut inner: Vec<char> = Vec::new();
    let mut k: usize = p.len();
    while k < t.len() - 1
        invariant
            p@ == session_prefix(hex),
            t@.take(p@.len() as int) == p@,
            t@.last() == '>',
            p@.len() <= k <= t@.len() - 1,
            inner@ == t@.subrange(p@.len() as int, k as int),
        decreases t@.len() - 1 - k,
    {
        inner.push(t[k]);
        k += 1;
        proof {
            assert(inner@ =~= t@.subrange(p@.len() as int, k as int));
        }
    }
    Some(inner)
}

fn wrap_compact(inner: &Vec<char>) -> (r: Vec<char>)
    ensures
        r@ == compact(inner@),
{
    let mut out: Vec<char> = Vec::new();
    out.push('<');
    let mut i: usize = 0;
    while i < inner.len()
        invariant
            i <= inner@.len(),
            out@ == seq!['<'] + inner@.take(i as int),
        decreases inner@.len() - i,
    {
        out.push(inner[i]);
        i += 1;
        proof {
            assert(out@ =~= seq!['<'] + inner@.take(i as int));
        }
    }
    out.push('>');
    proof {
        assert(inner@.take(inner@.len() as int) =~= inner@);
        assert(out@ =~= compact(inner@));
    }
    out
}

/// The index of the token [`lookup`] finds for `label`.
fn lookup_exec(p: &Vec<char>, toks: &Vec<Vec<char>>, label: &Vec<char>, Ghost(hex): Ghost<Seq<char>>) -> (r: Option<usize>)
    requires
        p@ == session_prefix(hex),
    ensures
        match r {
            Some(i) => i < toks@.len() && lookup(hex, toks@.map_values(|v: Vec<char>| v@), label@) == Some(toks@[i as int]@),
            None => lookup(hex, toks@.map_values(|v: Vec<char>| v@), label@) is None,
        },
{
    let ghost all = toks@.map_values(|v: Vec<char>| v@);
    let mut n: usize = toks.len();
    proof {
        assert(all.take(n as int) =~= all);
    }
    while n > 0
        invariant
            p@ == session_prefix(hex),
            n <= toks@.len(),
            all == toks@.map_values(|v: Vec<char>| v@),
            lookup(hex, all, label@) == lookup(hex, all.take(n as int), label@),
        decreases n,
    {
        let t = &toks[n - 1];
        let ghost pre = all.take(n as int);
        proof {
            assert(all[n - 1] == toks@[n - 1]@);
            assert(pre.last() == t@);
            assert(pre.drop_last() =~= all.take(n - 1));
        }
        match inner_label_exec(p, t, Ghost(hex)) {
            Some(inner) => {
                let compact = wrap_compact(&inner);
                if chars_eq(label, t) || chars_eq(label, &compact) || chars_eq(label, &inner) {
                    return Some(n - 1);
                }
            },
            None => {},
        }
        n -= 1;
    }
    None
}

impl TokenFormatter {
    /// The case-folded form under which a raw value is tokenized.
    pub fn casefold(raw: &str) -> (r: String)
        ensures
            r@ == lowercase(raw@),
    {
        to_lowercase(raw)
    }

    /// `text` with the session prefix of every token removed: `<hex:Name_1>` becomes `<Name_1>`.
    pub fn format(&self, session_hex: &str, text: &str) -> (r: String)
        ensures
            r@ == spec_format(session_hex@, text@),
    {
        let p = prefix_chars(session_hex);
        let h = chars_of(text);
        let mut rep: Vec<char> = Vec::new();
        rep.push('<');
        proof {
            assert(rep@ =~= seq!['<']);
        }
        let out = replace_chars(&h, &p, &rep);
        string_from_chars(out)
    }

    /// `text` with every match (byte ranges of token-shaped labels, in order) whose label a
    /// token of the session stands for replaced by that full token; `tokens` are the session's
    /// tokens in the order it lists them.
    pub fn unformat(&self, session_hex: &str, tokens: &Vec<String>, matches: &Vec<(usize, usize)>, text: &str) -> (r: String)
        requires
            ordered_matches(encode_utf8(text@), range_views(matches@)),
        ensures
            encode_utf8(r@) == spec_unformat(
                session_hex@,
                tokens@.map_values(|t: String| t@),
                encode_utf8(text@),
                range_views(matches@),
            ),
    {
        let ghost hex = session_hex@;
        let ghost b = encode_utf8(text@);
        let ghost ms = range_views(matches@);
        let ghost all = tokens@.map_values(|t: String| t@);
        let p = prefix_chars(session_hex);
        let mut toks: Vec<Vec<char>> = Vec::new();
        let mut i: usize = 0;
        while i < tokens.len()
            invariant
                i <= tokens@.len(),
                toks@.len() == i,
                forall|j: int| 0 <= j < i ==> #[trigger] toks@[j]@ == tokens@[j]@,
            decreases tokens@.len() - i,
        {
            toks.push(chars_of(tokens[i].as_str()));
            i += 1;
        }
        proof {
            assert(toks@.map_values(|v: Vec<char>| v@) =~= all);
        }
        // Found matches, in order, with the tokens they are restored to.
        let mut ranges: Vec<(usize, usize)> = Vec::new();
        let mut fulls: Vec<String> = Vec::new();
        let mut k: usize = 0;
        while k < matches.len()
            invariant
                p@ == session_prefix(hex),
                b == encode_utf8(text@),
                ms == range_views(matches@),
                all == tokens@.map_values(|t: String| t@),
                toks@.map_values(|v: Vec<char>| v@) == all,
                toks@.len() == tokens@.len(),
                forall|j: int| 0 <= j < toks@.len() ==> #[trigger] toks@[j]@ == tokens@[j]@,
                ordered_matches(b, ms),
                k <= matches@.len(),
                ranges@.len() == fulls@.len(),
                range_views(ranges@) == found_tokens(hex, all, b, ms.take(k as int)).map_values(|x: ((int, int), Seq<char>)| x.0),
                fulls@.map_values(|t: String| t@) == found_tokens(hex, all, b, ms.take(k as int)).map_values(|x: ((int, int), Seq<char>)| x.1),
            decreases matches@.len() - k,
        {
            let (s, e) = matches[k];
            proof {
                assert(ms[k as int] == (s as int, e as int));
                assert(ms.take(k + 1).drop_last() =~= ms.take(k as int));
            }
            let label = substring(text, s, e);
            let lc = chars_of(label);
            let ghost f0 = found_tokens(hex, all, b, ms.take(k as int));
            match lookup_exec(&p, &toks, &lc, Ghost(hex)) {
                Some(j) => {
                    let ghost rb = ranges@;
                    let ghost fb = fulls@;
                    ranges.push((s, e));
                    fulls.push(tokens[j].clone());
                    proof {
                        assert(toks@[j as int]@ == tokens@[j as int]@);
                        let f1 = f0.push(((s as int, e as int), tokens@[j as int]@));
                        assert(found_tokens(hex, all, b, ms.take(k + 1)) == f1);
                        assert(f1.map_values(|x: ((int, int), Seq<char>)| x.0) =~= f0.map_values(|x: ((int, int), Seq<char>)| x.0).push((s as int, e as int)));
                        assert(f1.map_values(|x: ((int, int), Seq<char>)| x.1) =~= f0.map_values(|x: ((int, int), Seq<char>)| x.1).push(tokens@[j as int]@));
                        assert(range_views(ranges@) =~= range_views(rb).push((s as int, e as int)));
                        assert(fulls@.map_values(|t: String| t@) =~= fb.map_values(|t: String| t@).push(tokens@[j as int]@));
                    }
                },
                None => {
                    proof {
                        assert(found_tokens(hex, all, b, ms.take(k + 1)) == f0);
                    }
                },
            }
            k += 1;
        }
        proof {
            assert(ms.take(ms.len() as int) =~= ms);
        }
        // Reverse into the last-first order the splice takes.
        let mut rev_ranges: Vec<(usize, usize)> = Vec::new();
        let mut rev_fulls: Vec<String> = Vec::new();
        let mut q: usize = ranges.len();
        while q > 0
            invariant
                q <= ranges@.len(),
                ranges@.len() == fulls@.len(),
                rev_ranges@.len() == rev_fulls@.len(),
                range_views(rev_ranges@) == range_views(ranges@).skip(q as int).reverse(),
                encodings(rev_fulls@) == encodings(fulls@).skip(q as int).reverse(),
            decreases q,
        {
            q -= 1;
            let ghost rr = rev_ranges@;
            let ghost rf = rev_fulls@;
            rev_ranges.push(ranges[q]);
            rev_fulls.push(fulls[q].clone());
            proof {
                assert(range_views(rev_ranges@) =~= range_views(rr).push(range_views(ranges@)[q as int]));
                assert(range_views(ranges@).skip(q as int).reverse() =~= range_views(ranges@).skip(q + 1).reverse().push(range_views(ranges@)[q as int]));
                assert(encodings(rev_fulls@) =~= encodings(rf).push(encodings(fulls@)[q as int]));
                assert(encodings(fulls@).skip(q as int).reverse() =~= encodings(fulls@).skip(q + 1).reverse().push(encodings(fulls@)[q as int]));
            }
        }
        proof {
            let f = found_tokens(hex, all, b, ms);
            assert(range_views(ranges@).skip(0) =~= range_views(ranges@));
            assert(encodings(fulls@).skip(0) =~= encodings(fulls@));
            assert forall|i: int| 0 <= i < fulls@.len() implies #[trigger] encodings(fulls@)[i] == f.map_values(|x: ((int, int), Seq<char>)| encode_utf8(x.1))[i] by {
                assert(fulls@.map_values(|t: String| t@)[i] == fulls@[i]@);
                assert(f.map_values(|x: ((int, int), Seq<char>)| x.1)[i] == f[i].1);
            }
            assert(encodings(fulls@) =~= f.map_values(|x: ((int, int), Seq<char>)| encode_utf8(x.1)));
            lemma_found_ordered(hex, all, b, ms);
        }
        splice(text, &rev_ranges, &rev_fulls)
    }
}

/// The found matches are some of the matches, so they keep their order and boundaries.
proof fn lemma_found_ordered(hex: Seq<char>, tokens: Seq<Seq<char>>, text: Seq<u8>, ms: Seq<(int, int)>)
    requires
        ordered_matches(text, ms),
    ensures
        ordered_matches(text, found_tokens(hex, tokens, text, ms).map_values(|x: ((int, int), Seq<char>)| x.0)),
        forall|i: int| 0 <= i < found_tokens(hex, tokens, text, ms).len() ==> #[trigger] found_tokens(hex, tokens, text, ms)[i].0.1 <= (if ms.len() == 0 { 0 } else { ms.last().1 }),
    decreases ms.len(),
{
    if ms.len() > 0 {
        let d = ms.drop_last();
        assert forall|i: int| #![trigger d[i]] 0 <= i < d.len() implies 0 <= d[i].0 <= d[i].1 <= text.len() && is_char_boundary(text, d[i].0) && is_char_boundary(text, d[i].1) by {
            assert(d[i] == ms[i]);
        }
        assert forall|i: int, j: int| 0 <= i < j < d.len() implies #[trigger] d[i].1 <= #[trigger] d[j].0 by {
            assert(d[i] == ms[i] && d[j] == ms[j]);
        }
        lemma_found_ordered(hex, tokens, text, d);
        let f0 = found_tokens(hex, tokens, text, d);
        let r0 = f0.map_values(|x: ((int, int), Seq<char>)| x.0);
        let f = found_tokens(hex, tokens, text, ms);
        let r = f.map_values(|x: ((int, int), Seq<char>)| x.0);
        let m = ms.last();
        assert(m == ms[ms.len() - 1]);
        if d.len() > 0 {
            assert(d.last() == ms[ms.len() - 2]);
            assert(ms[ms.len() - 2].1 <= ms[ms.len() - 1].0);
        }
        assert forall|i: int| 0 <= i < f0.len() implies #[trigger] f0[i].0.1 <= m.0 by {
            if d.len() > 0 {
                assert(ms[ms.len() - 2].1 <= ms[ms.len() - 1].0);
            }
        }
        if f.len() > f0.len() {
            assert(f == f0.push((m, f.last().1)));
        } else {
            assert(f == f0);
        }
        assert forall|i: int| #![trigger r[i]] 0 <= i < r.len() implies 0 <= r[i].0 <= r[i].1 <= text.len() && is_char_boundary(text, r[i].0) && is_char_boundary(text, r[i].1) by {
            if i < f0.len() {
                assert(r[i] == r0[i]);
            } else {
                assert(r[i] == m);
            }
        }
        assert forall|i: int, j: int| 0 <= i < j < r.len() implies #[trigger] r[i].1 <= #[trigger] r[j].0 by {
            if j < f0.len() {
                assert(r[i] == r0[i] && r[j] == r0[j]);
            } else {
                assert(r[j] == m);
                assert(r[i] == f0[i].0);
            }
        }
        assert forall|i: int| 0 <= i < f.len() implies #[trigger] f[i].0.1 <= m.1 by {
            if i < f0.len() {
                assert(f[i] == f0[i]);
            }
        }
    }
}

proof fn lemma_replace_no_marker(h: Seq<char>, p: Seq<char>, r: Seq<char>, i: int)
    requires
        0 <= i <= h.len(),
        p.len() > 0,
        p[0] == '<',
        forall|k: int| i <= k < h.len() ==> h[k] != '<',
    ensures
        replace_from(h, p, r, i) == h.skip(i),
    decreases h.len() - i,
{
    if i < h.len() {
        assert(!occurs_at(h, p, i)) by {
            if occurs_at(h, p, i) {
                assert(h.subrange(i, i + p.len())[0] == h[i]);
            }
        }
        lemma_replace_no_marker(h, p, r, i + 1);
        assert(h.skip(i) =~= seq![h[i]] + h.skip(i + 1));
    }
}

/// Formatting a session token `<hex:label>` yields its compact form `<label>` (labels never
/// hold `<`).
pub proof fn lemma_format_token(hex: Seq<char>, inner: Seq<char>)
    requires
        !inner.contains('<'),
    ensures
        spec_format(hex, session_prefix(hex) + inner + seq!['>']) == compact(inner),
{
    let p = session_prefix(hex);
    let t = p + inner + seq!['>'];
    assert(t.subrange(0, p.len() as int) =~= p);
    assert(occurs_at(t, p, 0));
    assert forall|k: int| p.len() <= k < t.len() implies t[k] != '<' by {
        if k < t.len() - 1 {
            assert(t[k] == inner[k - p.len()]);
            if inner[k - p.len()] == '<' {
                assert(inner.contains('<'));
            }
        }
    }
    lemma_replace_no_marker(t, p, seq!['<'], p.len() as int);
    assert(t.skip(p.len() as int) =~= inner + seq!['>']);
    assert(seq!['<'] + (inner + seq!['>']) =~= compact(inner));
}

/// A compact label is restored to the last session token it names.
pub proof fn lemma_lookup_compact(hex: Seq<char>, tokens: Seq<Seq<char>>, i: int, inner: Seq<char>)
    requires
        0 <= i < tokens.len(),
        tokens[i] == session_prefix(hex) + inner + seq!['>'],
        forall|k: int| i < k < tokens.len() ==> !names(hex, #[trigger] tokens[k], compact(inner)),
    ensures
        lookup(hex, tokens, compact(inner)) == Some(tokens[i]),
    decreases tokens.len(),
{
    let t = tokens[i];
    let p = session_prefix(hex);
    assert(t.take(p.len() as int) =~= p);
    assert(t.subrange(p.len() as int, t.len() - 1) =~= inner);
    assert(inner_label(hex, t) == Some(inner));
    if i < tokens.len() - 1 {
        assert(!names(hex, tokens[tokens.len() - 1], compact(inner)));
        let d = tokens.drop_last();
        assert(d[i] == t);
        assert forall|k: int| i < k < d.len() implies !names(hex, #[trigger] d[k], compact(inner)) by {
            assert(d[k] == tokens[k]);
        }
        lemma_lookup_compact(hex, d, i, inner);
    }
}

/// Unformatting undoes formatting: a session token, formatted and then unformatted with its
/// compact label as the match, comes back unchanged.
pub proof fn lemma_round_trip(hex: Seq<char>, tokens: Seq<Seq<char>>, i: int, inner: Seq<char>)
    requires
        0 <= i < tokens.len(),
        tokens[i] == session_prefix(hex) + inner + seq!['>'],
        !inner.contains('<'),
        forall|k: int| i < k < tokens.len() ==> !names(hex, #[trigger] tokens[k], compact(inner)),
    ensures
        ({
            let shown = encode_utf8(spec_format(hex, tokens[i]));
            spec_unformat(hex, tokens, shown, seq![(0int, shown.len() as int)]) == encode_utf8(tokens[i])
        }),
{
    lemma_format_token(hex, inner);
    lemma_lookup_compact(hex, tokens, i, inner);
    let shown = encode_utf8(compact(inner));
    let ms = seq![(0int, shown.len() as int)];
    assert(shown.subrange(0, shown.len() as int) =~= shown);
    encode_utf8_decode_utf8(compact(inner));
    assert(ms.drop_last() =~= Seq::<(int, int)>::empty());
    let m = ms.last();
    assert(m == (0int, shown.len() as int));
    assert(decode_utf8(shown.subrange(m.0, m.1)) == compact(inner));
    assert(lookup(hex, tokens, decode_utf8(shown.subrange(m.0, m.1))) == Some(tokens[i]));
    assert(found_tokens(hex, tokens, shown, ms.drop_last()) =~= Seq::<((int, int), Seq<char>)>::empty());
    let f = found_tokens(hex, tokens, shown, ms);
    assert(f =~= seq![((0int, shown.len() as int), tokens[i])]);
    let rs = f.map_values(|x: ((int, int), Seq<char>)| x.0).reverse();
    let ts = f.map_values(|x: ((int, int), Seq<char>)| encode_utf8(x.1)).reverse();
    assert(rs =~= seq![(0int, shown.len() as int)]);
    assert(ts =~= seq![encode_utf8(tokens[i])]);
    assert(rs.drop_first() =~= Seq::<(int, int)>::empty());
    let pre = shown.take(0);
    assert(spec_splice(pre, rs.drop_first(), ts.drop_first()) == pre);
    assert(pre =~= Seq::<u8>::empty());
    assert(shown.skip(shown.len() as int) =~= Seq::<u8>::empty());
    assert(spec_splice(shown, rs, ts) == spec_splice(pre, rs.drop_first(), ts.drop_first()) + ts[0] + shown.skip(rs[0].1));
    assert(spec_splice(shown, rs, ts) =~= encode_utf8(tokens[i]));
}

/// Whether `matches` are byte ranges of `text` as a regular-expression search reports them
/// (see [`ordered_matches`]).
pub fn check_matches(text: &str, matches: &Vec<(usize, usize)>) -> (r: bool)
    ensures
        r == ordered_matches(encode_utf8(text@), range_views(matches@)),
{
    let ghost b = encode_utf8(text@);
    let ghost ms = range_views(matches@);
    let len = text.as_bytes().len();
    let mut i: usize = 0;
    while i < matches.len()
        invariant
            b == encode_utf8(text@),
            ms == range_views(matches@),
            len == b.len(),
            i <= ms.len(),
            forall|k: int|
                #![trigger ms[k]]
                0 <= k < i ==> 0 <= ms[k].0 <= ms[k].1 <= b.len() && is_char_boundary(b, ms[k].0)
                    && is_char_boundary(b, ms[k].1),
            forall|k: int, j: int| 0 <= k < j < i ==> #[trigger] ms[k].1 <= #[trigger] ms[j].0,
        decreases ms.len() - i,
    {
        let (s, e) = matches[i];
        assert(ms[i as int] == (s as int, e as int));
        if !(s <= e && e <= len && text.is_char_boundary(s) && text.is_char_boundary(e)) {
            return false;
        }
        if i > 0 {
            let (_, prev_end) = matches[i - 1];
            assert(ms[i - 1].1 == prev_end);
            if prev_end > s {
                return false;
            }
            proof {
                assert forall|k: int, j: int| 0 <= k < j < i + 1 implies #[trigger] ms[k].1 <= #[trigger] ms[j].0 by {
                    if j == i && k < i - 1 {
                        assert(ms[k].1 <= ms[i - 1].0);
                    }
                }
            }
        }
        i += 1;
    }
    true
}

/// The full session token with label `l`: `<hex:l>`.
pub open spec fn full_token(hex: Seq<char>, l: Seq<char>) -> Seq<char> {
    session_prefix(hex) + l + seq!['>']
}

/// The text `p0 t1 p1 ... tn pn` made of the pieces `ps` and the full session tokens of the
/// labels `ls` between them.
pub open spec fn with_tokens(hex: Seq<char>, ps: Seq<Seq<char>>, ls: Seq<Seq<char>>) -> Seq<char>
    decreases ls.len(),
{
    if ls.len() == 0 {
        if ps.len() > 0 { ps[0] } else { seq![] }
    } else {
        with_tokens(hex, ps.drop_last(), ls.drop_last()) + full_token(hex, ls.last()) + ps.last()
    }
}

/// The same text with the compact tokens `<l>` in place of the full ones.
pub open spec fn with_compacts(ps: Seq<Seq<char>>, ls: Seq<Seq<char>>) -> Seq<char>
    decreases ls.len(),
{
    if ls.len() == 0 {
        if ps.len() > 0 { ps[0] } else { seq![] }
    } else {
        with_compacts(ps.drop_last(), ls.drop_last()) + compact(ls.last()) + ps.last()
    }
}

proof fn lemma_replace_shift(a: Seq<char>, b: Seq<char>, p: Seq<char>, r: Seq<char>, i: int)
    requires
        0 <= i <= b.len(),
        p.len() > 0,
    ensures
        replace_from(a + b, p, r, a.len() + i) == replace_from(b, p, r, i),
    decreases b.len() - i,
{
    let h = a + b;
    if i == b.len() {
        assert(h.skip(a.len() + i) =~= b.skip(i));
    } else {
        if i + p.len() <= b.len() {
            assert(h.subrange(a.len() + i, a.len() + i + p.len()) =~= b.subrange(i, i + p.len()));
        }
        assert(h[a.len() + i] == b[i]);
        if occurs_at(b, p, i) {
            lemma_replace_shift(a, b, p, r, i + p.len());
        } else {
            lemma_replace_shift(a, b, p, r, i + 1);
        }
    }
}

proof fn lemma_replace_concat(x: Seq<char>, y: Seq<char>, p: Seq<char>, r: Seq<char>, i: int)
    requires
        0 <= i <= x.len(),
        p.len() > 0,
        forall|k: int| i <= k < x.len() && k + p.len() > x.len() ==> !occurs_at(x + y, p, k),
    ensures
        replace_from(x + y, p, r, i) == replace_from(x, p, r, i) + replace_from(x + y, p, r, x.len() as int),
    decreases x.len() - i,
{
    let h = x + y;
    if i == x.len() {
        assert(x.skip(i) =~= Seq::<char>::empty());
        assert(replace_from(x, p, r, i) + replace_from(h, p, r, i) =~= replace_from(h, p, r, i));
    } else {
        if i + p.len() <= x.len() {
            assert(h.subrange(i, i + p.len()) =~= x.subrange(i, i + p.len()));
        }
        assert(h[i] == x[i]);
        if occurs_at(x, p, i) {
            lemma_replace_concat(x, y, p, r, i + p.len());
            assert(r + (replace_from(x, p, r, i + p.len()) + replace_from(h, p, r, x.len() as int))
                =~= (r + replace_from(x, p, r, i + p.len())) + replace_from(h, p, r, x.len() as int));
        } else {
            lemma_replace_concat(x, y, p, r, i + 1);
            assert(seq![x[i]] + (replace_from(x, p, r, i + 1) + replace_from(h, p, r, x.len() as int))
                =~= (seq![x[i]] + replace_from(x, p, r, i + 1)) + replace_from(h, p, r, x.len() as int));
        }
    }
}

proof fn lemma_replace_absent(h: Seq<char>, p: Seq<char>, r: Seq<char>, i: int)
    requires
        0 <= i <= h.len(),
        p.len() > 0,
        crate::search::find(h, p) is None,
    ensures
        replace_from(h, p, r, i) == h.skip(i),
    decreases h.len() - i,
{
    if i < h.len() {
        if occurs_at(h, p, i) {
            crate::search::lemma_first_from_found(h, p, 0, i);
        }
        lemma_replace_absent(h, p, r, i + 1);
        assert(h.skip(i) =~= seq![h[i]] + h.skip(i + 1));
    }
}

proof fn lemma_no_straddle(h: Seq<char>, hex: Seq<char>, b: int, k: int)
    requires
        !hex.contains('<'),
        0 <= k < b < k + session_prefix(hex).len(),
        b < h.len(),
        h[b] == '<',
    ensures
        !occurs_at(h, session_prefix(hex), k),
{
    let p = session_prefix(hex);
    if occurs_at(h, p, k) {
        assert(h.subrange(k, k + p.len())[b - k] == h[b]);
        let d = b - k;
        if d <= hex.len() {
            assert(p[d] == hex[d - 1]);
            assert(hex.contains('<'));
        }
    }
}

/// Formatting a text made of pieces and session tokens gives the same pieces with the
/// compact tokens, when the session hex and the labels hold no `<` and no piece holds the
/// session prefix.
pub proof fn lemma_format_text(hex: Seq<char>, ps: Seq<Seq<char>>, ls: Seq<Seq<char>>)
    requires
        ps.len() == ls.len() + 1,
        !hex.contains('<'),
        forall|i: int| 0 <= i < ls.len() ==> !(#[trigger] ls[i]).contains('<'),
        forall|i: int| 0 <= i < ps.len() ==> crate::search::find(#[trigger] ps[i], session_prefix(hex)) is None,
    ensures
        spec_format(hex, with_tokens(hex, ps, ls)) == with_compacts(ps, ls),
    decreases ls.len(),
{
    let p = session_prefix(hex);
    let lt = seq!['<'];
    if ls.len() == 0 {
        assert(ps[0] == ps[0]);
        lemma_replace_absent(ps[0], p, lt, 0);
        assert(ps[0].skip(0) =~= ps[0]);
    } else {
        let ps1 = ps.drop_last();
        let ls1 = ls.drop_last();
        assert forall|i: int| 0 <= i < ls1.len() implies !(#[trigger] ls1[i]).contains('<') by {
            assert(ls1[i] == ls[i]);
        }
        assert forall|i: int| 0 <= i < ps1.len() implies crate::search::find(#[trigger] ps1[i], p) is None by {
            assert(ps1[i] == ps[i]);
        }
        lemma_format_text(hex, ps1, ls1);
        let x1 = with_tokens(hex, ps1, ls1);
        let l = ls.last();
        let k = full_token(hex, l);
        let last = ps.last();
        assert(!l.contains('<')) by {
            assert(ls[ls.len() - 1] == l);
        }
        assert(crate::search::find(last, p) is None) by {
            assert(ps[ps.len() - 1] == last);
        }
        // The token: formatted on its own.
        lemma_format_token(hex, l);
        // Splitting before the token: nothing straddles its opening `<`.
        let x = x1 + k;
        assert(x[x1.len() as int] == '<');
        assert forall|j: int| 0 <= j < x1.len() && j + p.len() > x1.len() implies !occurs_at(x1 + k, p, j) by {
            lemma_no_straddle(x1 + k, hex, x1.len() as int, j);
        }
        lemma_replace_concat(x1, k, p, lt, 0);
        lemma_replace_shift(x1, k, p, lt, 0);
        assert(x1.len() + 0 == x1.len());
        // Splitting after the token: an occurrence reaching into the last piece would start
        // inside the token after its `<`, where no `<` is.
        assert forall|j: int| 0 <= j < x.len() && j + p.len() > x.len() implies !occurs_at(x + last, p, j) by {
            let h = x + last;
            if j < x1.len() {
                assert(h[x1.len() as int] == '<');
                lemma_no_straddle(h, hex, x1.len() as int, j);
            } else if j > x1.len() {
                if occurs_at(h, p, j) {
                    assert(h.subrange(j, j + p.len())[0] == h[j]);
                    let m = j - x1.len();
                    assert(h[j] == k[m]);
                    if m <= hex.len() + 1 {
                        if m <= hex.len() {
                            assert(k[m] == hex[m - 1]);
                            assert(hex.contains('<'));
                        }
                    } else if m < k.len() - 1 {
                        assert(k[m] == l[m - p.len()]);
                        assert(l.contains('<'));
                    }
                }
            }
        }
        lemma_replace_concat(x, last, p, lt, 0);
        lemma_replace_shift(x, last, p, lt, 0);
        lemma_replace_absent(last, p, lt, 0);
        assert(last.skip(0) =~= last);
        assert(with_tokens(hex, ps, ls) == x + last);
        assert(x.len() + 0 == x.len());
    }
}

/// The UTF-8 encoding of a concatenation is the concatenation of the encodings.
pub proof fn lemma_encode_concat(a: Seq<char>, b: Seq<char>)
    ensures
        encode_utf8(a + b) == encode_utf8(a) + encode_utf8(b),
    decreases a.len(),
{
    if a.len() == 0 {
        assert(a + b =~= b);
        assert(encode_utf8(a) =~= Seq::<u8>::empty());
        assert(Seq::<u8>::empty() + encode_utf8(b) =~= encode_utf8(b));
    } else {
        lemma_encode_concat(a.drop_first(), b);
        assert((a + b).drop_first() =~= a.drop_first() + b);
        assert((a + b)[0] == a[0]);
        assert(encode_scalar(a[0] as u32) + (encode_utf8(a.drop_first()) + encode_utf8(b))
            =~= (encode_scalar(a[0] as u32) + encode_utf8(a.drop_first())) + encode_utf8(b));
    }
}

/// The byte ranges of the compact tokens in [`with_compacts`], in order.
pub open spec fn compact_ranges(ps: Seq<Seq<char>>, ls: Seq<Seq<char>>) -> Seq<(int, int)>
    decreases ls.len(),
{
    if ls.len() == 0 {
        seq![]
    } else {
        let start = encode_utf8(with_compacts(ps.drop_last(), ls.drop_last())).len() as int;
        compact_ranges(ps.drop_last(), ls.drop_last()).push(
            (start, start + encode_utf8(compact(ls.last())).len()),
        )
    }
}

proof fn lemma_compact_ranges_bounds(ps: Seq<Seq<char>>, ls: Seq<Seq<char>>)
    ensures
        forall|k: int|
            0 <= k < compact_ranges(ps, ls).len() ==> 0 <= (#[trigger] compact_ranges(ps, ls)[k]).0
                <= compact_ranges(ps, ls)[k].1 <= encode_utf8(with_compacts(ps, ls)).len(),
    decreases ls.len(),
{
    if ls.len() > 0 {
        let ps1 = ps.drop_last();
        let ls1 = ls.drop_last();
        lemma_compact_ranges_bounds(ps1, ls1);
        let w1 = with_compacts(ps1, ls1);
        let c = compact(ls.last());
        lemma_encode_concat(w1, c);
        lemma_encode_concat(w1 + c, ps.last());
        let prev = compact_ranges(ps1, ls1);
        assert forall|k: int| 0 <= k < compact_ranges(ps, ls).len() implies 0 <= (#[trigger] compact_ranges(ps, ls)[k]).0
            <= compact_ranges(ps, ls)[k].1 <= encode_utf8(with_compacts(ps, ls)).len() by {
            if k < prev.len() {
                assert(compact_ranges(ps, ls)[k] == prev[k]);
            }
        }
    }
}

proof fn lemma_found_prefix(hex: Seq<char>, tokens: Seq<Seq<char>>, t: Seq<u8>, u: Seq<u8>, ms: Seq<(int, int)>)
    requires
        forall|k: int| 0 <= k < ms.len() ==> 0 <= (#[trigger] ms[k]).0 <= ms[k].1 <= t.len(),
    ensures
        found_tokens(hex, tokens, t + u, ms) == found_tokens(hex, tokens, t, ms),
    decreases ms.len(),
{
    if ms.len() > 0 {
        let d = ms.drop_last();
        assert forall|k: int| 0 <= k < d.len() implies 0 <= (#[trigger] d[k]).0 <= d[k].1 <= t.len() by {
            assert(d[k] == ms[k]);
        }
        lemma_found_prefix(hex, tokens, t, u, d);
        let m = ms.last();
        assert(m == ms[ms.len() - 1]);
        assert((t + u).subrange(m.0, m.1) =~= t.subrange(m.0, m.1));
    }
}

/// Unformatting a text made of pieces and compact tokens, with the compact tokens as the
/// matches, gives the same pieces with the full session tokens, when each compact label
/// is restored to its own token.
pub proof fn lemma_unformat_text(hex: Seq<char>, tokens: Seq<Seq<char>>, ps: Seq<Seq<char>>, ls: Seq<Seq<char>>)
    requires
        ps.len() == ls.len() + 1,
        forall|i: int| 0 <= i < ls.len() ==> lookup(hex, tokens, compact(#[trigger] ls[i])) == Some(full_token(hex, ls[i])),
    ensures
        spec_unformat(hex, tokens, encode_utf8(with_compacts(ps, ls)), compact_ranges(ps, ls))
            == encode_utf8(with_tokens(hex, ps, ls)),
    decreases ls.len(),
{
    if ls.len() == 0 {
        let f = found_tokens(hex, tokens, encode_utf8(ps[0]), Seq::<(int, int)>::empty());
        assert(f.map_values(|x: ((int, int), Seq<char>)| x.0).reverse() =~= Seq::<(int, int)>::empty());
    } else {
        let ps1 = ps.drop_last();
        let ls1 = ls.drop_last();
        assert forall|i: int| 0 <= i < ls1.len() implies lookup(hex, tokens, compact(#[trigger] ls1[i])) == Some(full_token(hex, ls1[i])) by {
            assert(ls1[i] == ls[i]);
        }
        lemma_unformat_text(hex, tokens, ps1, ls1);
        let l = ls.last();
        assert(lookup(hex, tokens, compact(l)) == Some(full_token(hex, l))) by {
            assert(ls[ls.len() - 1] == l);
        }
        let w1 = with_compacts(ps1, ls1);
        let c = compact(l);
        let last = ps.last();
        let e1 = encode_utf8(w1);
        let ec = encode_utf8(c);
        let el = encode_utf8(last);
        lemma_encode_concat(w1, c);
        lemma_encode_concat(w1 + c, last);
        let big = encode_utf8(with_compacts(ps, ls));
        assert(with_compacts(ps, ls) == w1 + c + last);
        assert(big =~= e1 + (ec + el));
        let ms1 = compact_ranges(ps1, ls1);
        let ms = compact_ranges(ps, ls);
        let m: (int, int) = (e1.len() as int, (e1.len() + ec.len()) as int);
        assert(ms == ms1.push(m));
        assert(ms.drop_last() =~= ms1);
        assert(ms.last() == m);
        lemma_compact_ranges_bounds(ps1, ls1);
        lemma_found_prefix(hex, tokens, e1, ec + el, ms1);
        assert(big.subrange(m.0, m.1) =~= ec);
        encode_utf8_decode_utf8(c);
        let f1 = found_tokens(hex, tokens, e1, ms1);
        let full = full_token(hex, l);
        let f = found_tokens(hex, tokens, big, ms);
        assert(f == f1.push((m, full)));
        let rs = f.map_values(|x: ((int, int), Seq<char>)| x.0).reverse();
        let ts = f.map_values(|x: ((int, int), Seq<char>)| encode_utf8(x.1)).reverse();
        let rs1 = f1.map_values(|x: ((int, int), Seq<char>)| x.0).reverse();
        let ts1 = f1.map_values(|x: ((int, int), Seq<char>)| encode_utf8(x.1)).reverse();
        assert(rs.drop_first() =~= rs1);
        assert(ts.drop_first() =~= ts1);
        assert(rs[0] == m);
        assert(ts[0] == encode_utf8(full));
        assert(big.take(m.0) =~= e1);
        assert(big.skip(m.1) =~= el);
        assert(spec_splice(big, rs, ts) == spec_splice(e1, rs1, ts1) + encode_utf8(full) + el);
        let wt1 = with_tokens(hex, ps1, ls1);
        lemma_encode_concat(wt1, full);
        lemma_encode_concat(wt1 + full, last);
        assert(with_tokens(hex, ps, ls) == wt1 + full + last);
    }
}

/// Unformatting undoes formatting for a whole text: a text of pieces and session tokens,
/// formatted and then unformatted with its compact tokens as the matches, comes back
/// unchanged, when the session hex and the labels hold no `<`, no piece holds the session
/// prefix, and each compact label is restored to its own token.
pub proof fn lemma_round_trip_text(hex: Seq<char>, tokens: Seq<Seq<char>>, ps: Seq<Seq<char>>, ls: Seq<Seq<char>>)
    requires
        ps.len() == ls.len() + 1,
        !hex.contains('<'),
        forall|i: int| 0 <= i < ls.len() ==> !(#[trigger] ls[i]).contains('<'),
        forall|i: int| 0 <= i < ps.len() ==> crate::search::find(#[trigger] ps[i], session_prefix(hex)) is None,
        forall|i: int| 0 <= i < ls.len() ==> lookup(hex, tokens, compact(#[trigger] ls[i])) == Some(full_token(hex, ls[i])),
    ensures
        ({
            let t = with_tokens(hex, ps, ls);
            let shown = spec_format(hex, t);
            &&& shown == with_compacts(ps, ls)
            &&& spec_unformat(hex, tokens, encode_utf8(shown), compact_ranges(ps, ls)) == encode_utf8(t)
        }),
{
    lemma_format_text(hex, ps, ls);
    lemma_unformat_text(hex, tokens, ps, ls);
}

/// No session prefix is left in a text of pieces and compact tokens, when the session hex
/// holds no `<` or `>`, the labels no `<` or `:`, and no piece holds the session prefix.
pub proof fn lemma_compacts_free(hex: Seq<char>, ps: Seq<Seq<char>>, ls: Seq<Seq<char>>)
    requires
        ps.len() == ls.len() + 1,
        !hex.contains('<'),
        !hex.contains('>'),
        forall|i: int| 0 <= i < ls.len() ==> !(#[trigger] ls[i]).contains('<') && !ls[i].contains(':'),
        forall|i: int| 0 <= i < ps.len() ==> crate::search::find(#[trigger] ps[i], session_prefix(hex)) is None,
    ensures
        crate::search::find(with_compacts(ps, ls), session_prefix(hex)) is None,
    decreases ls.len(),
{
    let p = session_prefix(hex);
    let w = with_compacts(ps, ls);
    crate::search::lemma_first_from_occurs(w, p, 0);
    if ls.len() == 0 {
        assert(ps[0] == w);
    } else {
        let ps1 = ps.drop_last();
        let ls1 = ls.drop_last();
        assert forall|i: int| 0 <= i < ls1.len() implies !(#[trigger] ls1[i]).contains('<') && !ls1[i].contains(':') by {
            assert(ls1[i] == ls[i]);
        }
        assert forall|i: int| 0 <= i < ps1.len() implies crate::search::find(#[trigger] ps1[i], p) is None by {
            assert(ps1[i] == ps[i]);
        }
        lemma_compacts_free(hex, ps1, ls1);
        let w1 = with_compacts(ps1, ls1);
        let l = ls.last();
        let c = compact(l);
        let last = ps.last();
        assert(!l.contains('<') && !l.contains(':')) by {
            assert(ls[ls.len() - 1] == l);
        }
        assert(crate::search::find(last, p) is None) by {
            assert(ps[ps.len() - 1] == last);
        }
        assert(w == w1 + c + last);
        let n1 = w1.len() as int;
        let n2 = n1 + c.len();
        if crate::search::find(w, p) is Some {
            let k = crate::search::find(w, p)->0;
            assert(occurs_at(w, p, k));
            let sub = w.subrange(k, k + p.len());
            if k + p.len() <= n1 {
                assert(w1.subrange(k, k + p.len()) =~= sub);
                crate::search::lemma_first_from_found(w1, p, 0, k);
            } else if k < n1 {
                assert(sub[n1 - k] == w[n1]);
                assert(w[n1] == '<');
                assert(p[n1 - k] == hex[n1 - k - 1] || n1 - k == hex.len() + 1);
                if n1 - k <= hex.len() {
                    assert(hex.contains('<'));
                }
            } else if k >= n2 {
                assert(last.subrange(k - n2, k - n2 + p.len()) =~= sub);
                crate::search::lemma_first_from_found(last, p, 0, k - n2);
            } else if k > n1 {
                assert(sub[0] == w[k]);
                assert(w[k] == c[k - n1]);
                if k - n1 < c.len() - 1 {
                    assert(c[k - n1] == l[k - n1 - 1]);
                    assert(l.contains('<'));
                }
            } else {
                // The occurrence starts at the compact token's `<`.
                if p.len() >= c.len() {
                    let d = c.len() - 1;
                    assert(sub[d] == w[n1 + d]);
                    assert(w[n1 + d] == '>');
                    if d <= hex.len() {
                        assert(p[d] == hex[d - 1]);
                        assert(hex.contains('>'));
                    }
                } else {
                    let d = p.len() - 1;
                    assert(sub[d] == w[n1 + d]);
                    assert(p[d] == ':');
                    assert(w[n1 + d] == l[d - 1]);
                    assert(l.contains(':'));
                }
            }
        }
    }
}

} // verus!
