//! Inspection of a document by a language model: the request it is sent, the findings it
//! reports, and where their evidence occurs in the document.
use vstd::prelude::*;
use vstd::utf8::*;
use crate::digest::{hex_digit, sha256, sha256_hex, spec_hex};
use crate::llamacpp::LlmResponse;
use crate::text::bytes_of;

pub mod occupations;

verus! {

/// One kind of identifier the model found, with the spans it copied from the input.
#[derive(Debug, Clone, PartialEq, Eq)]
pub struct Finding {
    pub kind: String,
    pub evidence: Vec<String>,
}

/// The mathematical form of a [`Finding`].
pub struct FindingView {
    pub kind: Seq<char>,
    pub evidence: Seq<Seq<char>>,
}

impl View for Finding {
    type V = FindingView;

    open spec fn view(&self) -> FindingView {
        FindingView { kind: self.kind@, evidence: self.evidence@.map_values(|e: String| e@) }
    }
}

/// One place where a finding's evidence occurs in the document, as byte offsets.
#[derive(Debug, Clone, PartialEq, Eq)]
pub struct EvidenceSpan {
    pub start: usize,
    pub end: usize,
    pub kind: String,
    pub text: String,
}

/// The mathematical form of an [`EvidenceSpan`].
pub struct EvidenceSpanView {
    pub start: int,
    pub end: int,
    pub kind: Seq<char>,
    pub text: Seq<char>,
}

impl View for EvidenceSpan {
    type V = EvidenceSpanView;

    open spec fn view(&self) -> EvidenceSpanView {
        EvidenceSpanView { start: self.start as int, end: self.end as int, kind: self.kind@, text: self.text@ }
    }
}

/// Findings stored for a document, bound to it by the SHA-256 of its text.
#[derive(Debug, Clone)]
pub struct FindingsArtifact {
    pub document_sha256: String,
    pub findings: Vec<Finding>,
}

/// What an inspection found, with the generations that produced it.
#[derive(Debug, Clone)]
pub struct Inspection {
    pub findings: Vec<Finding>,
    pub generations: Vec<LlmResponse>,
}

/// What is sent to the model for an inspection: the prompt, and the JSON schema its answer
/// is constrained to.
#[derive(Debug, Clone, PartialEq, Eq)]
pub struct InspectionRequest {
    pub prompt: String,
    pub schema: String,
}

/// Why an inspection could not be requested.
#[derive(Debug, Clone, Copy, PartialEq, Eq)]
pub enum InspectError {
    /// No identifier kind was given.
    NoIdentifiers,
    /// Stored findings were made for another document.
    FingerprintMismatch,
}

/// Start offsets of the occurrences of `p` in `h` from offset `i` on: the leftmost first,
/// each next one searched after the end of the previous (what `str::match_indices` reports).
pub open spec fn match_starts(h: Seq<u8>, p: Seq<u8>, i: int) -> Seq<int>
    decreases h.len() - i,
{
    if p.len() == 0 || i < 0 || i + p.len() > h.len() {
        seq![]
    } else if h.subrange(i, i + p.len()) == p {
        seq![i] + match_starts(h, p, i + p.len())
    } else {
        match_starts(h, p, i + 1)
    }
}

/// The spans of one piece of evidence in the document bytes `h`.
pub open spec fn evidence_matches(h: Seq<u8>, kind: Seq<char>, ev: Seq<char>) -> Seq<EvidenceSpanView> {
    let p = encode_utf8(ev);
    match_starts(h, p, 0).map_values(
        |s: int| EvidenceSpanView { start: s, end: s + p.len(), kind: kind, text: ev },
    )
}

/// The spans of all the evidence of one finding, evidence by evidence.
pub open spec fn finding_spans(h: Seq<u8>, kind: Seq<char>, evs: Seq<Seq<char>>) -> Seq<EvidenceSpanView>
    decreases evs.len(),
{
    if evs.len() == 0 {
        seq![]
    } else {
        finding_spans(h, kind, evs.drop_last()) + evidence_matches(h, kind, evs.last())
    }
}

/// The spans of all findings, finding by finding.
pub open spec fn spec_evidence_spans(h: Seq<u8>, fs: Seq<FindingView>) -> Seq<EvidenceSpanView>
    decreases fs.len(),
{
    if fs.len() == 0 {
        seq![]
    } else {
        spec_evidence_spans(h, fs.drop_last()) + finding_spans(h, fs.last().kind, fs.last().evidence)
    }
}

/// The views of a vector of spans.
pub open spec fn span_views(v: Seq<EvidenceSpan>) -> Seq<EvidenceSpanView> {
    v.map_values(|s: EvidenceSpan| s@)
}

/// The views of a vector of findings.
pub open spec fn finding_views(v: Seq<Finding>) -> Seq<FindingView> {
    v.map_values(|f: Finding| f@)
}

/// Whether `p` occurs in `h` at byte offset `i`.
fn occurs_at_bytes(h: &Vec<u8>, p: &Vec<u8>, i: usize) -> (r: bool)
    requires
        i + p@.len() <= h@.len(),
    ensures
        r == (h@.subrange(i as int, i + p@.len()) == p@),
{
    let mut k: usize = 0;
    while k < p.len()
        invariant
            i + p@.len() <= h@.len(),
            k <= p@.len(),
            forall|q: int| 0 <= q < k ==> h@[i + q] == p@[q],
        decreases p@.len() - k,
    {
        assert(i + k < h.len());
        if h[i + k] != p[k] {
            proof {
                assert(h@.subrange(i as int, i + p@.len())[k as int] != p@[k as int]);
            }
            return false;
        }
        k += 1;
    }
    proof {
        assert(h@.subrange(i as int, i + p@.len()) =~= p@);
    }
    true
}

/// Appends the spans of evidence `ev` of kind `kind` in the document bytes `h` to `out`.
fn push_evidence_matches(h: &Vec<u8>, p: &Vec<u8>, kind: &String, ev: &String, out: &mut Vec<EvidenceSpan>)
    requires
        p@ == encode_utf8(ev@),
        p@.len() > 0,
    ensures
        span_views(final(out)@) == span_views(old(out)@) + evidence_matches(h@, kind@, ev@),
{
    let ghost base = span_views(out@);
    let ghost all = match_starts(h@, p@, 0);
    let ghost mut acc: Seq<int> = seq![];
    let ghost mk = |s: int| EvidenceSpanView { start: s, end: s + p@.len(), kind: kind@, text: ev@ };
    let mut i: usize = 0;
    while i <= h.len() && p.len() <= h.len() - i
        invariant
            p@ == encode_utf8(ev@),
            p@.len() > 0,
            i <= h@.len(),
            all == match_starts(h@, p@, 0),
            acc + match_starts(h@, p@, i as int) == all,
            span_views(out@) == base + acc.map_values(mk),
            mk == (|s: int| EvidenceSpanView { start: s, end: s + p@.len(), kind: kind@, text: ev@ }),
        decreases h@.len() - i,
    {
        if occurs_at_bytes(h, p, i) {
            let ghost prev = out@;
            out.push(EvidenceSpan { start: i, end: i + p.len(), kind: kind.clone(), text: ev.clone() });
            proof {
                assert(match_starts(h@, p@, i as int) == seq![i as int] + match_starts(h@, p@, i + p@.len()));
                assert(acc.push(i as int) + match_starts(h@, p@, i + p@.len()) =~= acc + match_starts(h@, p@, i as int));
                assert(span_views(out@) =~= span_views(prev).push(mk(i as int)));
                assert(acc.push(i as int).map_values(mk) =~= acc.map_values(mk).push(mk(i as int)));
                acc = acc.push(i as int);
            }
            i = i + p.len();
        } else {
            i = i + 1;
        }
    }
    proof {
        assert(match_starts(h@, p@, i as int) =~= Seq::<int>::empty());
        assert(acc =~= all);
    }
}

/// Where the evidence of each finding occurs in `text`: for each finding in order, for each
/// non-empty piece of evidence in order, every occurrence left to right without overlap, as
/// byte offsets, with the finding's kind and the evidence itself.
pub fn evidence_spans(text: &str, findings: &Vec<Finding>) -> (r: Vec<EvidenceSpan>)
    ensures
        span_views(r@) == spec_evidence_spans(encode_utf8(text@), finding_views(findings@)),
{
    let h = bytes_of(text);
    let ghost fs = finding_views(findings@);
    let mut spans: Vec<EvidenceSpan> = Vec::new();
    let mut i: usize = 0;
    while i < findings.len()
        invariant
            h@ == encode_utf8(text@),
            fs == finding_views(findings@),
            i <= findings@.len(),
            span_views(spans@) == spec_evidence_spans(h@, fs.take(i as int)),
        decreases findings@.len() - i,
    {
        let finding = &findings[i];
        let ghost evs = finding.evidence@.map_values(|e: String| e@);
        let ghost before = span_views(spans@);
        let mut j: usize = 0;
        while j < finding.evidence.len()
            invariant
                h@ == encode_utf8(text@),
                j <= finding.evidence@.len(),
                evs == finding.evidence@.map_values(|e: String| e@),
                span_views(spans@) == before + finding_spans(h@, finding.kind@, evs.take(j as int)),
            decreases finding.evidence@.len() - j,
        {
            let ev = &finding.evidence[j];
            proof {
                assert(evs.take(j + 1).drop_last() =~= evs.take(j as int));
                assert(evs.take(j + 1).last() == ev@);
            }
            let p = bytes_of(ev.as_str());
            if p.len() > 0 {
                push_evidence_matches(&h, &p, &finding.kind, ev, &mut spans);
            } else {
                proof {
                    assert(evidence_matches(h@, finding.kind@, ev@) =~= Seq::<EvidenceSpanView>::empty());
                }
            }
            proof {
                assert(span_views(spans@) =~= before + finding_spans(h@, finding.kind@, evs.take(j + 1)));
            }
            j += 1;
        }
        proof {
            assert(evs.take(evs.len() as int) =~= evs);
            assert(fs.take(i + 1).drop_last() =~= fs.take(i as int));
            assert(fs.take(i + 1).last() == finding@);
        }
        i += 1;
    }
    proof {
        assert(fs.take(fs.len() as int) =~= fs);
    }
    spans
}

/// The SHA-256 fingerprint of a document's text, in lowercase hexadecimal.
pub fn document_sha256(text: &str) -> (r: String)
    ensures
        r@ == spec_hex(sha256(encode_utf8(text@))),
        r@.len() == 64,
{
    let b = text.as_bytes();
    sha256_hex(b)
}

/// `items` joined with `sep` between neighbours (what `[&str]::join` yields).
pub open spec fn join_with(items: Seq<Seq<char>>, sep: Seq<char>) -> Seq<char>
    decreases items.len(),
{
    if items.len() == 0 {
        seq![]
    } else if items.len() == 1 {
        items[0]
    } else {
        join_with(items.drop_last(), sep) + sep + items.last()
    }
}

/// The views of a slice of string slices.
pub open spec fn str_views(v: Seq<&str>) -> Seq<Seq<char>> {
    v.map_values(|s: &str| s@)
}

/// The prompt of an inspection: the caller's prompt, the kinds, the instructions, the input.
pub open spec fn spec_inspection_prompt(text: Seq<char>, prompt: Seq<char>, ids: Seq<Seq<char>>) -> Seq<char> {
    prompt + "\nKinds: "@ + join_with(ids, ", "@)
        + "\nKinds are categories to extract, not words to search for.\nCopy every matching span exactly from the input.\n\nInput:\n"@
        + text
}

/// How one character is written inside a JSON string: quote and backslash behind a
/// backslash, the control characters below U+0020 as their short escapes where JSON has one
/// and as `\u00XX` (lowercase hexadecimal) otherwise, any other character as itself.
pub open spec fn json_escape(c: char) -> Seq<char> {
    if c == '"' {
        seq!['\\', '"']
    } else if c == '\\' {
        seq!['\\', '\\']
    } else if c == '\u{8}' {
        seq!['\\', 'b']
    } else if c == '\t' {
        seq!['\\', 't']
    } else if c == '\n' {
        seq!['\\', 'n']
    } else if c == '\u{c}' {
        seq!['\\', 'f']
    } else if c == '\r' {
        seq!['\\', 'r']
    } else if (c as u32) < 0x20 {
        seq!['\\', 'u', '0', '0', hex_digit(c as int / 16), hex_digit(c as int % 16)]
    } else {
        seq![c]
    }
}

/// Every character of `s` escaped for a JSON string.
pub open spec fn json_escape_all(s: Seq<char>) -> Seq<char>
    decreases s.len(),
{
    if s.len() == 0 {
        seq![]
    } else {
        json_escape_all(s.drop_last()) + json_escape(s.last())
    }
}

/// A string as a JSON string literal: quoted, its characters escaped.
pub open spec fn json_quoted(s: Seq<char>) -> Seq<char> {
    seq!['"'] + json_escape_all(s) + seq!['"']
}

/// `serde_json::to_string` on a string: the JSON string literal for `s`, escaped as
/// `serde_json`'s compact formatter escapes (see [`json_escape`]). Writing a string into
/// memory cannot fail, so the error arm does not run.
#[verifier::external_body]
fn json_string(s: &str) -> (r: String)
    ensures
        r@ == json_quoted(s@),
{
    match serde_json::to_string(s) {
        Ok(q) => q,
        Err(_) => String::new(),
    }
}

/// The compact JSON text of the schema a findings answer must follow, the kinds as the
/// values its `kind` may take (keys in sorted order, as a `serde_json` value prints them).
pub open spec fn spec_findings_schema(ids: Seq<Seq<char>>) -> Seq<char> {
    "{\"additionalProperties\":false,\"properties\":{\"findings\":{\"items\":{\"additionalProperties\":false,\"properties\":{\"evidence\":{\"items\":{\"type\":\"string\"},\"type\":\"array\"},\"kind\":{\"enum\":["@
        + join_with(ids.map_values(|s: Seq<char>| json_quoted(s)), ","@)
        + "]}},\"required\":[\"kind\",\"evidence\"],\"type\":\"object\"},\"type\":\"array\"}},\"required\":[\"findings\"],\"type\":\"object\"}"@
}

proof fn lemma_join_step(items: Seq<Seq<char>>, sep: Seq<char>, i: int)
    requires
        0 <= i < items.len(),
    ensures
        join_with(items.take(i + 1), sep) == join_with(items.take(i), sep) + (if i == 0 { Seq::<char>::empty() } else { sep }) + items[i],
{
    let t = items.take(i + 1);
    assert(t.drop_last() =~= items.take(i));
    assert(t.last() == items[i]);
    if i == 0 {
        assert(items.take(0) =~= Seq::<Seq<char>>::empty());
        assert(t.len() == 1);
        assert(Seq::<char>::empty() + Seq::<char>::empty() + items[0] =~= items[0]);
    }
}

/// `items` joined with `sep`.
fn join(items: &[&str], sep: &str) -> (r: String)
    ensures
        r@ == join_with(str_views(items@), sep@),
{
    let ghost v = str_views(items@);
    let mut out = String::new();
    proof {
        assert(v.take(0) =~= Seq::<Seq<char>>::empty());
    }
    let mut i: usize = 0;
    while i < items.len()
        invariant
            v == str_views(items@),
            i <= items@.len(),
            out@ == join_with(v.take(i as int), sep@),
        decreases items@.len() - i,
    {
        proof {
            lemma_join_step(v, sep@, i as int);
        }
        let ghost before = out@;
        if i > 0 {
            out.append(sep);
        }
        out.append(items[i]);
        proof {
            if i == 0 {
                assert(out@ =~= before + Seq::<char>::empty() + v[i as int]);
            } else {
                assert(out@ =~= before + sep@ + v[i as int]);
            }
        }
        i += 1;
    }
    proof {
        assert(v.take(v.len() as int) =~= v);
    }
    out
}

fn inspection_prompt(text: &str, prompt: &str, identifiers: &[&str]) -> (r: String)
    ensures
        r@ == spec_inspection_prompt(text@, prompt@, str_views(identifiers@)),
{
    let kinds = join(identifiers, ", ");
    let mut out = String::from_str(prompt);
    out.append("\nKinds: ");
    out.append(kinds.as_str());
    out.append("\nKinds are categories to extract, not words to search for.\nCopy every matching span exactly from the input.\n\nInput:\n");
    out.append(text);
    out
}

fn findings_schema(identifiers: &[&str]) -> (r: String)
    ensures
        r@ == spec_findings_schema(str_views(identifiers@)),
{
    let ghost q = str_views(identifiers@).map_values(|s: Seq<char>| json_quoted(s));
    let mut out = String::from_str("{\"additionalProperties\":false,\"properties\":{\"findings\":{\"items\":{\"additionalProperties\":false,\"properties\":{\"evidence\":{\"items\":{\"type\":\"string\"},\"type\":\"array\"},\"kind\":{\"enum\":[");
    let ghost head = out@;
    proof {
        assert(q.take(0) =~= Seq::<Seq<char>>::empty());
    }
    let mut i: usize = 0;
    while i < identifiers.len()
        invariant
            q == str_views(identifiers@).map_values(|s: Seq<char>| json_quoted(s)),
            i <= identifiers@.len(),
            out@ == head + join_with(q.take(i as int), ","@),
        decreases identifiers@.len() - i,
    {
        proof {
            lemma_join_step(q, ","@, i as int);
        }
        let ghost before = out@;
        if i > 0 {
            out.append(",");
        }
        let quoted = json_string(identifiers[i]);
        proof {
            assert(q[i as int] == json_quoted(identifiers@[i as int]@));
        }
        out.append(quoted.as_str());
        proof {
            if i == 0 {
                assert(out@ =~= head + (join_with(q.take(i as int), ","@) + Seq::<char>::empty() + q[i as int]));
            } else {
                assert(out@ =~= head + (join_with(q.take(i as int), ","@) + ","@ + q[i as int]));
            }
        }
        i += 1;
    }
    proof {
        assert(q.take(q.len() as int) =~= q);
    }
    out.append("]}},\"required\":[\"kind\",\"evidence\"],\"type\":\"object\"},\"type\":\"array\"}},\"required\":[\"findings\"],\"type\":\"object\"}");
    out
}

/// The request for inspecting `text` for the given kinds of identifier: refused when no kind
/// is given, else the inspection prompt and the findings schema for those kinds.
pub fn inspect(text: &str, prompt: &str, identifiers: &[&str]) -> (r: Result<InspectionRequest, InspectError>)
    ensures
        identifiers@.len() == 0 <==> r is Err,
        r matches Err(e) ==> e == InspectError::NoIdentifiers,
        r matches Ok(req) ==> req.prompt@ == spec_inspection_prompt(text@, prompt@, str_views(identifiers@))
            && req.schema@ == spec_findings_schema(str_views(identifiers@)),
{
    if identifiers.len() == 0 {
        return Err(InspectError::NoIdentifiers);
    }
    let schema = findings_schema(identifiers);
    let prompt = inspection_prompt(text, prompt, identifiers);
    Ok(InspectionRequest { prompt, schema })
}

/// The artifact that binds `findings` to the document `text`.
pub fn artifact_for(text: &str, findings: Vec<Finding>) -> (r: FindingsArtifact)
    ensures
        r.document_sha256@ == spec_hex(sha256(encode_utf8(text@))),
        r.findings@ == findings@,
{
    FindingsArtifact { document_sha256: document_sha256(text), findings }
}

/// The findings of a stored artifact, if it was made for the document `text`: refused when
/// its fingerprint is not the document's.
pub fn findings_for_document(artifact: FindingsArtifact, text: &str) -> (r: Result<Vec<Finding>, InspectError>)
    ensures
        (artifact.document_sha256@ == spec_hex(sha256(encode_utf8(text@)))) <==> r is Ok,
        r matches Ok(f) ==> f@ == artifact.findings@,
        r matches Err(e) ==> e == InspectError::FingerprintMismatch,
{
    let expected = document_sha256(text);
    if crate::text::str_eq(artifact.document_sha256.as_str(), expected.as_str()) {
        Ok(artifact.findings)
    } else {
        Err(InspectError::FingerprintMismatch)
    }
}

/// The occurrences `match_starts` reports are occurrences of `p`.
proof fn lemma_match_starts(h: Seq<u8>, p: Seq<u8>, i: int)
    ensures
        forall|k: int|
            0 <= k < match_starts(h, p, i).len() ==> {
                let s = #[trigger] match_starts(h, p, i)[k];
                &&& 0 <= s
                &&& s + p.len() <= h.len()
                &&& h.subrange(s, s + p.len()) == p
            },
    decreases h.len() - i,
{
    if p.len() == 0 || i < 0 || i + p.len() > h.len() {
    } else if h.subrange(i, i + p.len()) == p {
        lemma_match_starts(h, p, i + p.len());
        let rest = match_starts(h, p, i + p.len());
        let all = match_starts(h, p, i);
        assert(all == seq![i] + rest);
        assert forall|k: int| 0 <= k < all.len() implies {
            let s = #[trigger] all[k];
            &&& 0 <= s
            &&& s + p.len() <= h.len()
            &&& h.subrange(s, s + p.len()) == p
        } by {
            if k > 0 {
                assert(all[k] == rest[k - 1]);
            } else {
                assert(all[k] == i);
            }
        }
    } else {
        lemma_match_starts(h, p, i + 1);
        let all = match_starts(h, p, i);
        let rest = match_starts(h, p, i + 1);
        assert(all == rest);
        assert forall|k: int| 0 <= k < all.len() implies {
            let s = #[trigger] all[k];
            &&& 0 <= s
            &&& s + p.len() <= h.len()
            &&& h.subrange(s, s + p.len()) == p
        } by {
            assert(all[k] == rest[k]);
        }
    }
}

proof fn lemma_finding_spans_in_text(h: Seq<u8>, kind: Seq<char>, evs: Seq<Seq<char>>)
    ensures
        forall|k: int|
            0 <= k < finding_spans(h, kind, evs).len() ==> {
                let s = #[trigger] finding_spans(h, kind, evs)[k];
                &&& 0 <= s.start <= s.end <= h.len()
                &&& h.subrange(s.start, s.end) == encode_utf8(s.text)
                &&& s.kind == kind
            },
    decreases evs.len(),
{
    if evs.len() > 0 {
        lemma_finding_spans_in_text(h, kind, evs.drop_last());
        let ev = evs.last();
        lemma_match_starts(h, encode_utf8(ev), 0);
        let prev = finding_spans(h, kind, evs.drop_last());
        let m = evidence_matches(h, kind, ev);
        assert forall|k: int| 0 <= k < finding_spans(h, kind, evs).len() implies {
            let s = #[trigger] finding_spans(h, kind, evs)[k];
            &&& 0 <= s.start <= s.end <= h.len()
            &&& h.subrange(s.start, s.end) == encode_utf8(s.text)
            &&& s.kind == kind
        } by {
            if k < prev.len() {
                assert(finding_spans(h, kind, evs)[k] == prev[k]);
            } else {
                assert(finding_spans(h, kind, evs)[k] == m[k - prev.len()]);
                let st = match_starts(h, encode_utf8(ev), 0)[k - prev.len()];
                assert(m[k - prev.len()].start == st);
            }
        }
    }
}

/// Every located piece of evidence is copied from the document: its byte range lies in the
/// text, and the text there is exactly the evidence.
pub proof fn lemma_evidence_in_text(h: Seq<u8>, fs: Seq<FindingView>)
    ensures
        forall|k: int|
            0 <= k < spec_evidence_spans(h, fs).len() ==> {
                let s = #[trigger] spec_evidence_spans(h, fs)[k];
                &&& 0 <= s.start <= s.end <= h.len()
                &&& h.subrange(s.start, s.end) == encode_utf8(s.text)
            },
    decreases fs.len(),
{
    if fs.len() > 0 {
        lemma_evidence_in_text(h, fs.drop_last());
        let f = fs.last();
        lemma_finding_spans_in_text(h, f.kind, f.evidence);
        let prev = spec_evidence_spans(h, fs.drop_last());
        let more = finding_spans(h, f.kind, f.evidence);
        assert forall|k: int| 0 <= k < spec_evidence_spans(h, fs).len() implies {
            let s = #[trigger] spec_evidence_spans(h, fs)[k];
            &&& 0 <= s.start <= s.end <= h.len()
            &&& h.subrange(s.start, s.end) == encode_utf8(s.text)
        } by {
            if k < prev.len() {
                assert(spec_evidence_spans(h, fs)[k] == prev[k]);
            } else {
                assert(spec_evidence_spans(h, fs)[k] == more[k - prev.len()]);
            }
        }
    }
}

} // verus!
