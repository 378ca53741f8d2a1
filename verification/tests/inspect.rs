use mask::inspect::occupations;
use mask::inspect::{
    artifact_for, document_sha256, evidence_spans, findings_for_document, inspect, EvidenceSpan, Finding,
    InspectError,
};

fn finding(kind: &str, evidence: &[&str]) -> Finding {
    Finding { kind: kind.to_string(), evidence: evidence.iter().map(|e| e.to_string()).collect() }
}

fn span(start: usize, end: usize, kind: &str, text: &str) -> EvidenceSpan {
    EvidenceSpan { start, end, kind: kind.to_string(), text: text.to_string() }
}

#[test]
fn evidence_is_located_finding_by_finding() {
    let text = "ab ab a";
    let findings = vec![finding("k", &["ab", "", "a"]), finding("m", &["zz"])];
    assert_eq!(
        evidence_spans(text, &findings),
        vec![span(0, 2, "k", "ab"), span(3, 5, "k", "ab"), span(0, 1, "k", "a"), span(3, 4, "k", "a"), span(6, 7, "k", "a")]
    );
}

#[test]
fn evidence_matches_do_not_overlap() {
    let spans = evidence_spans("aaaa", &vec![finding("k", &["aa"])]);
    assert_eq!(spans, vec![span(0, 2, "k", "aa"), span(2, 4, "k", "aa")]);
    let spans = evidence_spans("aaa", &vec![finding("k", &["aa"])]);
    assert_eq!(spans, vec![span(0, 2, "k", "aa")]);
}

#[test]
fn evidence_offsets_are_bytes() {
    let text = "Zoë is a labor economist.";
    let spans = evidence_spans(text, &vec![finding("occupation", &["labor economist"])]);
    assert_eq!(spans, vec![span(10, 25, "occupation", "labor economist")]);
    assert_eq!(&text[10..25], "labor economist");
}

#[test]
fn fingerprint_is_sha256_hex() {
    assert_eq!(document_sha256(""), "e3b0c44298fc1c149afbf4c8996fb92427ae41e4649b934ca495991b7852b855");
    assert_eq!(document_sha256("abc"), "ba7816bf8f01cfea414140de5dae2223b00361a396177a9cb410ff61f20015ad");
}

#[test]
fn inspection_needs_a_kind() {
    assert_eq!(inspect("text", "prompt", &[]), Err(InspectError::NoIdentifiers));
}

#[test]
fn inspection_prompt_and_schema() {
    let req = inspect("T", "P", &["a", "b"]).expect("request");
    assert_eq!(
        req.prompt,
        "P\nKinds: a, b\nKinds are categories to extract, not words to search for.\nCopy every matching span exactly from the input.\n\nInput:\nT"
    );
    assert_eq!(
        req.schema,
        "{\"additionalProperties\":false,\"properties\":{\"findings\":{\"items\":{\"additionalProperties\":false,\"properties\":{\"evidence\":{\"items\":{\"type\":\"string\"},\"type\":\"array\"},\"kind\":{\"enum\":[\"a\",\"b\"]}},\"required\":[\"kind\",\"evidence\"],\"type\":\"object\"},\"type\":\"array\"}},\"required\":[\"findings\"],\"type\":\"object\"}"
    );
    let parsed: serde_json::Value = serde_json::from_str(&req.schema).expect("schema is JSON");
    assert_eq!(parsed["properties"]["findings"]["items"]["properties"]["kind"]["enum"][1], "b");
}

#[test]
fn schema_escapes_kinds() {
    let req = inspect("", "", &["say \"hi\""]).expect("request");
    assert!(req.schema.contains("\"enum\":[\"say \\\"hi\\\"\"]"));
}

#[test]
fn occupations_request() {
    let req = occupations::inspect("Jonah is a labor economist.");
    assert!(req.prompt.starts_with("Find every instance of the given identifier kinds. A kind names a category such as occupation, not a search term. Copy evidence exactly from the input. Report every match.\n\nKinds: occupation\n"));
    assert!(req.prompt.ends_with("Input:\nJonah is a labor economist."));
    assert!(req.schema.contains("\"enum\":[\"occupation\"]"));
    assert_eq!(occupations::KIND, "occupation");
}

#[test]
fn artifacts_are_bound_to_their_document() {
    let findings = vec![finding("occupation", &["labor economist"])];
    let artifact = artifact_for("abc", findings.clone());
    assert_eq!(artifact.document_sha256, document_sha256("abc"));
    assert_eq!(findings_for_document(artifact.clone(), "abc"), Ok(findings));
    assert_eq!(findings_for_document(artifact, "abd"), Err(InspectError::FingerprintMismatch));
}

#[test]
fn kinds_are_escaped_as_serde_json_escapes_them() {
    let req = inspect("", "", &["a\"\\\n\u{1}é"]).expect("request");
    assert!(req.schema.contains("\"enum\":[\"a\\\"\\\\\\n\\u0001é\"]"), "schema {}", req.schema);
}
