//! The vault: which labels are masked, how session tokens are shown, which spans of a text
//! are tokenized, and the restore map listed in a stable order.
use vstd::prelude::*;
use vstd::utf8::*;
use vstd::multiset::Multiset;
use crate::gliner::{extra_view, extra_views, select_spans, span_views, spec_select, ExtraView, Mention, Span};
use crate::inspect::{evidence_spans, finding_views, spec_evidence_spans, EvidenceSpanView, Finding};
use crate::splice::range_views;
use crate::text::{bytes_of, substring};
use crate::token_formatter::{ordered_matches, spec_format, spec_unformat, TokenFormatter};

verus! {

/// Where the session snapshot is kept unless told otherwise.
pub const DEFAULT_SNAPSHOT: &'static str = "data/gaze.snapshot";

/// One entry of the restore map: a token, the value it stands for, and its class.
#[derive(Debug, Clone, PartialEq, Eq)]
pub struct VaultMapping {
    pub token: String,
    pub value: String,
    pub class: String,
}

/// The mathematical form of a [`VaultMapping`].
pub struct MappingView {
    pub token: Seq<char>,
    pub value: Seq<char>,
    pub class: Seq<char>,
}

impl View for VaultMapping {
    type V = MappingView;

    open spec fn view(&self) -> MappingView {
        MappingView { token: self.token@, value: self.value@, class: self.class@ }
    }
}

/// A vault: its session snapshot, the labels whose mentions it masks, and the formatter
/// its tokens are shown through, if any.
#[derive(Debug)]
pub struct Vault {
    pub snapshot: String,
    pub labels: Vec<String>,
    pub token_formatter: Option<TokenFormatter>,
}

/// An evidence span as an extra span `(start, end, kind, text)` for selection.
pub open spec fn extra_of(s: EvidenceSpanView) -> ExtraView {
    (s.start, s.end, s.kind, s.text)
}

/// Byte order of two byte strings (how `String`s compare): a proper prefix comes first,
/// else the first differing byte decides.
pub open spec fn bytes_lt(a: Seq<u8>, b: Seq<u8>) -> bool
    decreases a.len(),
{
    if a.len() == 0 {
        b.len() > 0
    } else if b.len() == 0 {
        false
    } else if a[0] != b[0] {
        a[0] < b[0]
    } else {
        bytes_lt(a.drop_first(), b.drop_first())
    }
}

/// `a` comes before `b` in `String` order.
pub open spec fn str_lt(a: Seq<char>, b: Seq<char>) -> bool {
    bytes_lt(encode_utf8(a), encode_utf8(b))
}

/// `x` may come before `y` in the restore map: ordered by class, then token, then value.
pub open spec fn mapping_le(x: MappingView, y: MappingView) -> bool {
    ||| str_lt(x.class, y.class)
    ||| (x.class == y.class && str_lt(x.token, y.token))
    ||| (x.class == y.class && x.token == y.token && (str_lt(x.value, y.value) || x.value == y.value))
}

/// Each mapping may come before the next one.
pub open spec fn mappings_sorted(s: Seq<MappingView>) -> bool {
    forall|i: int| 0 <= i < s.len() - 1 ==> mapping_le(#[trigger] s[i], s[i + 1])
}

/// The views of a vector of mappings.
pub open spec fn mapping_views(v: Seq<VaultMapping>) -> Seq<MappingView> {
    v.map_values(|m: VaultMapping| m@)
}

/// The restore-map entry for a session entry `(token, value, class)`, its token shown
/// through the formatter when there is one.
pub open spec fn entry_mapping(hex: Seq<char>, formatted: bool, e: (Seq<char>, Seq<char>, Seq<char>)) -> MappingView {
    MappingView { token: if formatted { spec_format(hex, e.0) } else { e.0 }, value: e.1, class: e.2 }
}

/// The views of session entries `(token, value, class)`.
pub open spec fn entry_views(v: Seq<(String, String, String)>) -> Seq<(Seq<char>, Seq<char>, Seq<char>)> {
    v.map_values(|e: (String, String, String)| (e.0@, e.1@, e.2@))
}

/// Whether `a` comes before `b` in byte order.
fn bytes_less(a: &Vec<u8>, b: &Vec<u8>) -> (r: bool)
    ensures
        r == bytes_lt(a@, b@),
{
    let mut i: usize = 0;
    proof {
        assert(a@.skip(0) =~= a@);
        assert(b@.skip(0) =~= b@);
    }
    while i < a.len() && i < b.len() && a[i] == b[i]
        invariant
            i <= a@.len(),
            i <= b@.len(),
            bytes_lt(a@, b@) == bytes_lt(a@.skip(i as int), b@.skip(i as int)),
        decreases a@.len() - i,
    {
        proof {
            let x = a@.skip(i as int);
            let y = b@.skip(i as int);
            assert(x.drop_first() =~= a@.skip(i + 1));
            assert(y.drop_first() =~= b@.skip(i + 1));
            assert(x[0] == a@[i as int]);
            assert(y[0] == b@[i as int]);
        }
        i += 1;
    }
    proof {
        let x = a@.skip(i as int);
        let y = b@.skip(i as int);
        if i < a@.len() {
            assert(x[0] == a@[i as int]);
        }
        if i < b@.len() {
            assert(y[0] == b@[i as int]);
        }
    }
    if i == a.len() {
        i < b.len()
    } else if i == b.len() {
        false
    } else {
        a[i] < b[i]
    }
}

/// Whether `a` comes before `b` in `String` order.
fn str_less(a: &str, b: &str) -> (r: bool)
    ensures
        r == str_lt(a@, b@),
{
    bytes_less(&bytes_of(a), &bytes_of(b))
}

/// Whether `x` may come before `y` in the restore map.
fn mapping_less_eq(x: &VaultMapping, y: &VaultMapping) -> (r: bool)
    ensures
        r == mapping_le(x@, y@),
{
    if str_less(x.class.as_str(), y.class.as_str()) {
        return true;
    }
    if !crate::text::str_eq(x.class.as_str(), y.class.as_str()) {
        return false;
    }
    if str_less(x.token.as_str(), y.token.as_str()) {
        return true;
    }
    if !crate::text::str_eq(x.token.as_str(), y.token.as_str()) {
        return false;
    }
    str_less(x.value.as_str(), y.value.as_str()) || crate::text::str_eq(x.value.as_str(), y.value.as_str())
}

proof fn lemma_bytes_total(a: Seq<u8>, b: Seq<u8>)
    ensures
        a == b || bytes_lt(a, b) || bytes_lt(b, a),
    decreases a.len(),
{
    if a.len() > 0 && b.len() > 0 && a[0] == b[0] {
        lemma_bytes_total(a.drop_first(), b.drop_first());
        if a.drop_first() == b.drop_first() {
            assert(a =~= seq![a[0]] + a.drop_first());
            assert(b =~= seq![b[0]] + b.drop_first());
        }
    } else if a.len() == 0 && b.len() == 0 {
        assert(a =~= b);
    }
}

proof fn lemma_mapping_total(x: MappingView, y: MappingView)
    ensures
        mapping_le(x, y) || mapping_le(y, x),
{
    lemma_bytes_total(encode_utf8(x.class), encode_utf8(y.class));
    lemma_bytes_total(encode_utf8(x.token), encode_utf8(y.token));
    lemma_bytes_total(encode_utf8(x.value), encode_utf8(y.value));
    if encode_utf8(x.class) == encode_utf8(y.class) {
        crate::text::lemma_encode_injective(x.class, y.class);
    }
    if encode_utf8(x.token) == encode_utf8(y.token) {
        crate::text::lemma_encode_injective(x.token, y.token);
    }
    if encode_utf8(x.value) == encode_utf8(y.value) {
        crate::text::lemma_encode_injective(x.value, y.value);
    }
}

/// The mappings in restore-map order: the same mappings, each one ordered no later than the
/// next by class, then token, then value.
pub fn sort_mappings(v: Vec<VaultMapping>) -> (r: Vec<VaultMapping>)
    ensures
        mappings_sorted(mapping_views(r@)),
        mapping_views(r@).to_multiset() == mapping_views(v@).to_multiset(),
{
    broadcast use vstd::seq_lib::to_multiset_build, vstd::seq_lib::to_multiset_insert, vstd::seq_lib::to_multiset_len, vstd::multiset::group_multiset_properties;
    let ghost all = mapping_views(v@).to_multiset();
    let mut rest = v;
    let mut out: Vec<VaultMapping> = Vec::new();
    proof {
        assert(mapping_views(out@) =~= Seq::<MappingView>::empty());
        vstd::seq_lib::to_multiset_len(mapping_views(out@));
        vstd::multiset::lemma_multiset_empty_len(mapping_views(out@).to_multiset());
    }
    while rest.len() > 0
        invariant
            mappings_sorted(mapping_views(out@)),
            mapping_views(out@).to_multiset().add(mapping_views(rest@).to_multiset()) == all,
        decreases rest@.len(),
    {
        let ghost before_rest = rest@;
        let ghost before_out = out@;
        let x = rest.pop().unwrap();
        proof {
            assert(mapping_views(before_rest) =~= mapping_views(rest@).push(x@));
        }
        let mut p: usize = 0;
        while p < out.len() && mapping_less_eq(&out[p], &x)
            invariant
                p <= out@.len(),
                out@ == before_out,
                forall|k: int| 0 <= k < p ==> mapping_le(#[trigger] mapping_views(out@)[k], x@),
            decreases out@.len() - p,
        {
            p += 1;
        }
        let ghost s = mapping_views(out@);
        proof {
            if p < s.len() {
                assert(!mapping_le(s[p as int], x@));
                lemma_mapping_total(s[p as int], x@);
            }
        }
        out.insert(p, x);
        proof {
            let s2 = mapping_views(out@);
            assert(s2 =~= s.insert(p as int, x@));
            assert forall|i: int| 0 <= i < s2.len() - 1 implies mapping_le(#[trigger] s2[i], s2[i + 1]) by {
                if i < p - 1 {
                    assert(s2[i] == s[i] && s2[i + 1] == s[i + 1]);
                } else if i == p - 1 {
                    assert(s2[i] == s[i] && s2[i + 1] == x@);
                } else if i == p {
                    assert(s2[i] == x@ && s2[i + 1] == s[i]);
                } else {
                    assert(s2[i] == s[i - 1] && s2[i + 1] == s[i]);
                }
            }
            vstd::seq_lib::to_multiset_insert(s, p as int, x@);
            assert(s2.to_multiset() == s.to_multiset().insert(x@));
            vstd::seq_lib::to_multiset_build(mapping_views(rest@), x@);
            assert(mapping_views(before_rest).to_multiset() == mapping_views(rest@).to_multiset().insert(x@));
            assert(s2.to_multiset().add(mapping_views(rest@).to_multiset()) =~= s.to_multiset().add(mapping_views(before_rest).to_multiset())) by {
                broadcast use vstd::multiset::group_multiset_axioms;
            }
        }
    }
    proof {
        assert(mapping_views(rest@) =~= Seq::<MappingView>::empty());
        vstd::seq_lib::to_multiset_len(mapping_views(rest@));
        vstd::multiset::lemma_multiset_empty_len(mapping_views(rest@).to_multiset());
        assert(mapping_views(out@).to_multiset().add(Multiset::<MappingView>::empty()) =~= mapping_views(out@).to_multiset()) by {
            broadcast use vstd::multiset::group_multiset_axioms;
        }
    }
    out
}

/// The extra spans `(start, end, kind, text)` that the findings' evidence yields in `text`.
pub fn evidence_extras(text: &str, findings: &Vec<Finding>) -> (r: Vec<(usize, usize, String, String)>)
    ensures
        extra_views(r@) == spec_evidence_spans(encode_utf8(text@), finding_views(findings@)).map_values(
            |s: EvidenceSpanView| extra_of(s),
        ),
{
    let spans = evidence_spans(text, findings);
    let ghost sv = crate::inspect::span_views(spans@);
    let mut out: Vec<(usize, usize, String, String)> = Vec::new();
    let mut i: usize = 0;
    while i < spans.len()
        invariant
            sv == crate::inspect::span_views(spans@),
            i <= spans@.len(),
            extra_views(out@) == sv.take(i as int).map_values(|s: EvidenceSpanView| extra_of(s)),
        decreases spans@.len() - i,
    {
        let s = &spans[i];
        let ghost before = out@;
        out.push((s.start, s.end, s.kind.clone(), s.text.clone()));
        proof {
            assert(extra_views(out@) =~= extra_views(before).push(extra_of(s@)));
            assert(sv.take(i + 1).map_values(|s: EvidenceSpanView| extra_of(s)) =~= sv.take(i as int).map_values(
                |s: EvidenceSpanView| extra_of(s),
            ).push(extra_of(s@)));
        }
        i += 1;
    }
    proof {
        assert(sv.take(sv.len() as int) =~= sv);
    }
    out
}

/// The views of a vector of strings.
pub open spec fn string_views(v: Seq<String>) -> Seq<Seq<char>> {
    v.map_values(|s: String| s@)
}

impl Vault {
    /// A vault over the session snapshot at `snapshot`, masking no labels and showing full
    /// tokens.
    pub fn open(snapshot: &str) -> (r: Vault)
        ensures
            r.snapshot@ == snapshot@,
            r.labels@.len() == 0,
            r.token_formatter is None,
    {
        Vault { snapshot: String::from_str(snapshot), labels: Vec::new(), token_formatter: None }
    }

    /// This vault masking the mentions of `labels`.
    pub fn with_labels(self, labels: &[&str]) -> (r: Vault)
        ensures
            r.snapshot == self.snapshot,
            string_views(r.labels@) == crate::inspect::str_views(labels@),
            r.token_formatter == self.token_formatter,
    {
        let mut names: Vec<String> = Vec::new();
        let mut i: usize = 0;
        while i < labels.len()
            invariant
                i <= labels@.len(),
                string_views(names@) == crate::inspect::str_views(labels@).take(i as int),
            decreases labels@.len() - i,
        {
            let ghost before = names@;
            names.push(String::from_str(labels[i]));
            proof {
                assert(string_views(names@) =~= string_views(before).push(labels@[i as int]@));
                assert(crate::inspect::str_views(labels@).take(i + 1) =~= crate::inspect::str_views(labels@).take(i as int).push(labels@[i as int]@));
            }
            i += 1;
        }
        proof {
            assert(crate::inspect::str_views(labels@).take(labels@.len() as int) =~= crate::inspect::str_views(labels@));
        }
        Vault { snapshot: self.snapshot, labels: names, token_formatter: self.token_formatter }
    }

    /// This vault showing its tokens through `token_formatter`.
    pub fn with_token_formatter(self, token_formatter: TokenFormatter) -> (r: Vault)
        ensures
            r.snapshot == self.snapshot,
            r.labels == self.labels,
            r.token_formatter == Some(token_formatter),
    {
        Vault { snapshot: self.snapshot, labels: self.labels, token_formatter: Some(token_formatter) }
    }

    /// Whether the recognizer is asked for mentions: only when some label is masked.
    pub fn uses_recognizer(&self) -> (r: bool)
        ensures
            r == (self.labels@.len() > 0),
    {
        self.labels.len() > 0
    }

    /// The spans of `text` to tokenize, last in the text first, given the recognizer's
    /// mentions (ignored when no label is masked) and the findings whose evidence is masked
    /// too.
    pub fn encode_with_findings(&self, text: &str, findings: &Vec<Finding>, mentions: &Vec<Mention>) -> (r: Vec<Span>)
        ensures
            span_views(r@) == spec_select(
                encode_utf8(text@),
                if self.labels@.len() > 0 { mentions@ } else { Seq::<Mention>::empty() },
                spec_evidence_spans(encode_utf8(text@), finding_views(findings@)).map_values(
                    |s: EvidenceSpanView| extra_of(s),
                ),
            ),
            crate::splice::spliceable(encode_utf8(text@).len() as int, crate::gliner::span_ranges(span_views(r@))),
    {
        let extra = evidence_extras(text, findings);
        if self.labels.len() > 0 {
            select_spans(text, mentions, &extra)
        } else {
            let none: Vec<Mention> = Vec::new();
            proof {
                assert(none@ =~= Seq::<Mention>::empty());
            }
            select_spans(text, &none, &extra)
        }
    }

    /// The spans of `text` to tokenize, given the recognizer's mentions (ignored when no
    /// label is masked).
    pub fn encode(&self, text: &str, mentions: &Vec<Mention>) -> (r: Vec<Span>)
        ensures
            span_views(r@) == spec_select(
                encode_utf8(text@),
                if self.labels@.len() > 0 { mentions@ } else { Seq::<Mention>::empty() },
                Seq::empty(),
            ),
            crate::splice::spliceable(encode_utf8(text@).len() as int, crate::gliner::span_ranges(span_views(r@))),
    {
        let none: Vec<Finding> = Vec::new();
        proof {
            assert(finding_views(none@) =~= Seq::<crate::inspect::FindingView>::empty());
            assert(spec_evidence_spans(encode_utf8(text@), finding_views(none@)).map_values(
                |s: EvidenceSpanView| extra_of(s)) =~= Seq::<ExtraView>::empty());
        }
        self.encode_with_findings(text, &none, mentions)
    }

    /// An encoded text as the vault shows it: its tokens formatted when the vault has a
    /// formatter.
    pub fn present(&self, session_hex: &str, clean: &str) -> (r: String)
        ensures
            r@ == (if self.token_formatter is Some { spec_format(session_hex@, clean@) } else { clean@ }),
    {
        match &self.token_formatter {
            Some(f) => f.format(session_hex, clean),
            None => String::from_str(clean),
        }
    }

    /// A text with the vault's shown tokens brought back to the session's full tokens before
    /// it is restored: unformatted when the vault has a formatter, else kept.
    pub fn decode(&self, session_hex: &str, tokens: &Vec<String>, matches: &Vec<(usize, usize)>, text: &str) -> (r: String)
        requires
            ordered_matches(encode_utf8(text@), range_views(matches@)),
        ensures
            self.token_formatter is Some ==> encode_utf8(r@) == spec_unformat(
                session_hex@,
                tokens@.map_values(|t: String| t@),
                encode_utf8(text@),
                range_views(matches@),
            ),
            self.token_formatter is None ==> r@ == text@,
    {
        match &self.token_formatter {
            Some(f) => f.unformat(session_hex, tokens, matches, text),
            None => String::from_str(text),
        }
    }

    /// The token-shaped labels of `text`, given where they occur.
    pub fn labels(&self, text: &str, matches: &Vec<(usize, usize)>) -> (r: Vec<String>)
        requires
            ordered_matches(encode_utf8(text@), range_views(matches@)),
        ensures
            r@.len() == matches@.len(),
            forall|i: int|
                0 <= i < r@.len() ==> #[trigger] r@[i]@ == decode_utf8(
                    encode_utf8(text@).subrange(matches@[i].0 as int, matches@[i].1 as int),
                ),
    {
        let ghost ms = range_views(matches@);
        let mut out: Vec<String> = Vec::new();
        let mut i: usize = 0;
        while i < matches.len()
            invariant
                ms == range_views(matches@),
                ordered_matches(encode_utf8(text@), ms),
                i <= matches@.len(),
                out@.len() == i,
                forall|k: int|
                    0 <= k < i ==> #[trigger] out@[k]@ == decode_utf8(
                        encode_utf8(text@).subrange(matches@[k].0 as int, matches@[k].1 as int),
                    ),
            decreases matches@.len() - i,
        {
            let (s, e) = matches[i];
            proof {
                assert(ms[i as int] == (s as int, e as int));
            }
            let piece = substring(text, s, e);
            out.push(String::from_str(piece));
            i += 1;
        }
        out
    }

    /// The restore map of the session, from its entries `(token, value, class)`: each token
    /// shown as the vault shows it, in restore-map order.
    pub fn mappings(&self, session_hex: &str, entries: Vec<(String, String, String)>) -> (r: Vec<VaultMapping>)
        ensures
            mappings_sorted(mapping_views(r@)),
            mapping_views(r@).to_multiset() == entry_views(entries@).map_values(
                |e: (Seq<char>, Seq<char>, Seq<char>)| entry_mapping(session_hex@, self.token_formatter is Some, e),
            ).to_multiset(),
    {
        let ghost want = entry_views(entries@).map_values(
            |e: (Seq<char>, Seq<char>, Seq<char>)| entry_mapping(session_hex@, self.token_formatter is Some, e),
        );
        let mut ms: Vec<VaultMapping> = Vec::new();
        let mut i: usize = 0;
        while i < entries.len()
            invariant
                i <= entries@.len(),
                want == entry_views(entries@).map_values(
                    |e: (Seq<char>, Seq<char>, Seq<char>)| entry_mapping(session_hex@, self.token_formatter is Some, e),
                ),
                mapping_views(ms@) == want.take(i as int),
            decreases entries@.len() - i,
        {
            let e = &entries[i];
            let token = self.present(session_hex, e.0.as_str());
            let ghost before = ms@;
            ms.push(VaultMapping { token, value: e.1.clone(), class: e.2.clone() });
            proof {
                assert(want[i as int] == entry_mapping(session_hex@, self.token_formatter is Some, (e.0@, e.1@, e.2@)));
                assert(mapping_views(ms@) =~= mapping_views(before).push(want[i as int]));
                assert(want.take(i + 1) =~= want.take(i as int).push(want[i as int]));
            }
            i += 1;
        }
        proof {
            assert(want.take(want.len() as int) =~= want);
        }
        sort_mappings(ms)
    }
}

/// Whether an answer to the reset question confirms it: `y` or `yes` in any ASCII case,
/// ignoring surrounding whitespace.
pub open spec fn spec_confirms(answer: Seq<char>) -> bool {
    let a = crate::gaze::spec_ascii_lowercase(crate::search::trim(answer));
    a == "y"@ || a == "yes"@
}

/// Whether `answer` confirms a reset (see [`spec_confirms`]).
pub fn confirms(answer: &str) -> (r: bool)
    ensures
        r == spec_confirms(answer@),
{
    let t = crate::text::string_from_chars(crate::search::trim_chars(&crate::text::chars_of(answer)));
    let a = crate::gaze::ascii_lowercase(t.as_str());
    crate::text::str_eq(a.as_str(), "y") || crate::text::str_eq(a.as_str(), "yes")
}

proof fn lemma_bytes_lt_irreflexive(a: Seq<u8>)
    ensures
        !bytes_lt(a, a),
    decreases a.len(),
{
    if a.len() > 0 {
        lemma_bytes_lt_irreflexive(a.drop_first());
    }
}

proof fn lemma_bytes_lt_asymmetric(a: Seq<u8>, b: Seq<u8>)
    ensures
        bytes_lt(a, b) ==> !bytes_lt(b, a),
    decreases a.len(),
{
    if a.len() > 0 && b.len() > 0 && a[0] == b[0] {
        lemma_bytes_lt_asymmetric(a.drop_first(), b.drop_first());
    }
}

proof fn lemma_bytes_lt_transitive(a: Seq<u8>, b: Seq<u8>, c: Seq<u8>)
    ensures
        bytes_lt(a, b) && bytes_lt(b, c) ==> bytes_lt(a, c),
    decreases a.len(),
{
    if a.len() > 0 && b.len() > 0 && c.len() > 0 && a[0] == b[0] && b[0] == c[0] {
        lemma_bytes_lt_transitive(a.drop_first(), b.drop_first(), c.drop_first());
    }
}

proof fn lemma_str_lt_facts(a: Seq<char>, b: Seq<char>, c: Seq<char>)
    ensures
        !str_lt(a, a),
        str_lt(a, b) ==> !str_lt(b, a),
        str_lt(a, b) && str_lt(b, c) ==> str_lt(a, c),
        str_lt(a, b) ==> a != b,
{
    lemma_bytes_lt_irreflexive(encode_utf8(a));
    lemma_bytes_lt_asymmetric(encode_utf8(a), encode_utf8(b));
    lemma_bytes_lt_transitive(encode_utf8(a), encode_utf8(b), encode_utf8(c));
}

proof fn lemma_mapping_order(x: MappingView, y: MappingView, z: MappingView)
    ensures
        mapping_le(x, y) && mapping_le(y, x) ==> x == y,
        mapping_le(x, y) && mapping_le(y, z) ==> mapping_le(x, z),
{
    lemma_str_lt_facts(x.class, y.class, z.class);
    lemma_str_lt_facts(y.class, x.class, z.class);
    lemma_str_lt_facts(x.token, y.token, z.token);
    lemma_str_lt_facts(y.token, x.token, z.token);
    lemma_str_lt_facts(x.value, y.value, z.value);
    lemma_str_lt_facts(y.value, x.value, z.value);
}

proof fn lemma_sorted_all(s: Seq<MappingView>)
    requires
        mappings_sorted(s),
    ensures
        forall|i: int, j: int| 0 <= i <= j < s.len() ==> mapping_le(#[trigger] s[i], #[trigger] s[j]),
    decreases s.len(),
{
    if s.len() > 0 {
        let t = s.drop_last();
        assert forall|i: int| 0 <= i < t.len() - 1 implies mapping_le(#[trigger] t[i], t[i + 1]) by {
            assert(t[i] == s[i] && t[i + 1] == s[i + 1]);
        }
        lemma_sorted_all(t);
        assert forall|i: int, j: int| 0 <= i <= j < s.len() implies mapping_le(#[trigger] s[i], #[trigger] s[j]) by {
            if j < s.len() - 1 {
                assert(t[i] == s[i] && t[j] == s[j]);
            } else if i == j {
                lemma_mapping_total(s[i], s[i]);
            } else {
                let n = s.len() - 1;
                assert(t[i] == s[i] && t[n - 1] == s[n - 1]);
                assert(mapping_le(s[n - 1], s[n]));
                lemma_mapping_order(s[i], s[n - 1], s[n]);
            }
        }
    }
}

/// The restore-map order is canonical: two listings of the same mappings that are both in
/// restore-map order are the same listing, whatever order the entries came in.
pub proof fn lemma_mappings_canonical(a: Seq<MappingView>, b: Seq<MappingView>)
    requires
        mappings_sorted(a),
        mappings_sorted(b),
        a.to_multiset() == b.to_multiset(),
    ensures
        a == b,
    decreases a.len(),
{
    broadcast use vstd::seq_lib::group_to_multiset_ensures;
    lemma_sorted_all(a);
    lemma_sorted_all(b);
    assert(a.len() == b.len()) by {
        vstd::seq_lib::to_multiset_len(a);
        vstd::seq_lib::to_multiset_len(b);
    }
    if a.len() > 0 {
        let x = a[0];
        let y = b[0];
        assert(a.contains(x));
        vstd::seq_lib::to_multiset_contains(a, x);
        vstd::seq_lib::to_multiset_contains(b, x);
        vstd::seq_lib::to_multiset_contains(b, y);
        vstd::seq_lib::to_multiset_contains(a, y);
        assert(b.contains(y));
        let i = choose|i: int| 0 <= i < b.len() && b[i] == x;
        let j = choose|j: int| 0 <= j < a.len() && a[j] == y;
        assert(mapping_le(b[0], b[i]));
        assert(mapping_le(a[0], a[j]));
        lemma_mapping_order(x, y, x);
        assert(x == y);
        let a1 = a.drop_first();
        let b1 = b.drop_first();
        vstd::seq_lib::to_multiset_remove(a, 0);
        vstd::seq_lib::to_multiset_remove(b, 0);
        assert(a.remove(0) =~= a1);
        assert(b.remove(0) =~= b1);
        assert forall|k: int| 0 <= k < a1.len() - 1 implies mapping_le(#[trigger] a1[k], a1[k + 1]) by {
            assert(a1[k] == a[k + 1] && a1[k + 1] == a[k + 2]);
        }
        assert forall|k: int| 0 <= k < b1.len() - 1 implies mapping_le(#[trigger] b1[k], b1[k + 1]) by {
            assert(b1[k] == b[k + 1] && b1[k + 1] == b[k + 2]);
        }
        lemma_mappings_canonical(a1, b1);
        assert(a =~= seq![x] + a1);
        assert(b =~= seq![y] + b1);
    }
}

/// A reset is confirmed exactly by the answers `y` and `yes`, in any ASCII case and with
/// any surrounding whitespace: every other answer, and in particular every answer starting
/// with `n`, keeps the vault.
pub proof fn lemma_confirms(answer: Seq<char>)
    ensures
        ({
            let t = crate::gaze::spec_ascii_lowercase(crate::search::trim(answer));
            &&& spec_confirms(answer) <==> (t == seq!['y'] || t == seq!['y', 'e', 's'])
            &&& t.len() > 0 && t[0] != 'y' ==> !spec_confirms(answer)
            &&& spec_confirms(answer) ==> t.len() > 0 && t[0] == 'y'
        }),
{
    reveal_strlit("y");
    reveal_strlit("yes");
    assert("y"@ =~= seq!['y']);
    assert("yes"@ =~= seq!['y', 'e', 's']);
}

} // verus!
