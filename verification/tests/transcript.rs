//! Redaction, size capping and encoding of transcript records.

use serde_json::{Number, Value};
use switchyard::lines::complete_lines;
use switchyard::transcript::{
    encode_line, enforce_size_cap, is_bare_credential, looks_like_credential,
    redact_and_truncate_value, should_redact_key, should_redact_text, truncate_string, DropCounter, DropReason, RedactionMode, TranscriptEventKind,
    TranscriptPolicy, TranscriptRecord,
};

fn policy(redaction: RedactionMode) -> TranscriptPolicy {
    TranscriptPolicy {
        redaction,
        ..TranscriptPolicy::default()
    }
}

fn text(s: &str) -> Value {
    Value::String(s.to_string())
}

fn object(members: Vec<(&str, Value)>) -> Value {
    let mut map = serde_json::Map::new();
    for (key, value) in members {
        map.insert(key.to_string(), value);
    }
    Value::Object(map)
}

#[test]
fn strict_redacts_credential_free_text_and_suspicious_keys() {
    let value = object(vec![
        ("authorization", text("Bearer abc")),
        ("note", text("use sk-secret-value now")),
        ("safe", text("plain text")),
    ]);
    let out = redact_and_truncate_value(&value, policy(RedactionMode::Strict));
    assert_eq!(out["authorization"], "[REDACTED]");
    assert_eq!(out["note"], "[REDACTED]");
    assert_eq!(out["safe"], "plain text");
}

#[test]
fn balanced_keeps_free_text_but_still_redacts_keys_and_bare_credentials() {
    let value = object(vec![
        ("api_key", text("xyz")),
        ("prose", text("a long normal sentence with no secrets")),
        ("leaked", text("Bearer abc")),
    ]);
    let out = redact_and_truncate_value(&value, policy(RedactionMode::Balanced));
    assert_eq!(out["api_key"], "[REDACTED]");
    assert_eq!(out["prose"], "a long normal sentence with no secrets");
    assert_eq!(out["leaked"], "[REDACTED]");
}

#[test]
fn off_leaves_content_but_still_truncates_long_strings() {
    let long = "x".repeat(10_000);
    let value = object(vec![
        ("authorization", text("Bearer abc")),
        ("body", text(&long)),
    ]);
    let out = redact_and_truncate_value(&value, policy(RedactionMode::Off));
    assert_eq!(out["authorization"], "Bearer abc");
    assert_eq!(out["body"]["truncated"], true);
}

#[test]
fn unsafe_full_raw_bypasses_redaction_and_truncation() {
    let long = "y".repeat(10_000);
    let value = object(vec![
        ("authorization", text("Bearer abc")),
        ("body", text(&long)),
    ]);
    let out = redact_and_truncate_value(
        &value,
        TranscriptPolicy {
            unsafe_full_raw: true,
            ..TranscriptPolicy::default()
        },
    );
    assert_eq!(out, value);
}

#[test]
fn enforce_size_cap_drops_heavy_payloads_until_it_fits() {
    let big = object(vec![("blob", text(&"z".repeat(50_000)))]);
    let record = object(vec![
        ("v", Value::Number(Number::from(1))),
        ("event", text("normalized_response")),
        ("request_id", text("r1")),
        ("raw", big.clone()),
        ("normalized", big),
    ]);
    let capped = enforce_size_cap(
        record,
        TranscriptPolicy {
            max_bytes_per_record: 1024,
            ..TranscriptPolicy::default()
        },
    );
    assert_eq!(capped["truncated"], true);
    assert_eq!(capped["raw"]["dropped"], true);
    assert!(capped["raw"]["sha256"].is_string());
    // Correlation metadata survives the cap.
    assert_eq!(capped["request_id"], "r1");
    assert!(serde_json::to_vec(&capped).unwrap().len() <= 1024);
}

#[test]
fn a_record_under_the_cap_is_kept_as_it_is() {
    let record = object(vec![
        ("raw", text("short")),
        ("count", Value::Number(Number::from(12_345))),
        ("none", Value::Null),
        ("list", Value::Array(vec![Value::Bool(true), text("x")])),
    ]);
    assert_eq!(
        enforce_size_cap(record.clone(), TranscriptPolicy::default()),
        record
    );
    let redacted = redact_and_truncate_value(&record, TranscriptPolicy::default());
    assert_eq!(redacted, record);
}

#[test]
fn long_texts_are_summarized_by_their_hash() {
    let out = truncate_string("abc", 2);
    assert_eq!(out["truncated"], true);
    assert_eq!(
        out["sha256"],
        "ba7816bf8f01cfea414140de5dae2223b00361a396177a9cb410ff61f20015ad"
    );
    assert_eq!(truncate_string("abc", 3), "abc");
}

#[test]
fn credentials_and_secret_keys_are_recognized() {
    assert!(looks_like_credential("Bearer abc"));
    assert!(!looks_like_credential("plain text"));
    assert!(should_redact_key("Authorization"));
    assert!(should_redact_key("API_KEY"));
    assert!(!should_redact_key("note"));
}

fn record() -> TranscriptRecord {
    TranscriptRecord {
        v: 1,
        ts: "2026-01-01T00:00:00.000Z".to_string(),
        event: TranscriptEventKind::NormalizedResponse,
        request_id: "r1".to_string(),
        session_id: None,
        trial_id: None,
        wire_format: "openai".to_string(),
        tools_hash: None,
        route_id: None,
        selected_model: Some("m".to_string()),
        tier: None,
        streaming: Some(false),
        normalized: Some(object(vec![("text", text("line\nbreak"))])),
        raw: None,
        error: None,
    }
}

#[test]
fn encoded_records_read_back_line_by_line() {
    let line = encode_line(&record(), TranscriptPolicy::default()).unwrap();
    assert_eq!(line.last(), Some(&b'\n'));
    let parsed: Value = serde_json::from_slice(&line).unwrap();
    assert_eq!(parsed["request_id"], "r1");
    assert_eq!(parsed["event"], "normalized_response");
    assert_eq!(parsed["selected_model"], "m");
    assert_eq!(parsed["streaming"], false);

    let mut log = line.clone();
    log.extend_from_slice(&line);
    log.extend_from_slice(b"{\"partial\":");
    let lines = complete_lines(&log);
    assert_eq!(lines.len(), 2);
    let first: Value = serde_json::from_slice(&lines[0]).unwrap();
    assert_eq!(first, parsed);
}

#[test]
fn drops_are_reported_at_powers_of_two() {
    let mut counter = DropCounter::new();
    let warned: Vec<bool> = (0..8)
        .map(|_| counter.count_drop(DropReason::QueueFull))
        .collect();
    assert_eq!(counter.dropped, 8);
    assert_eq!(
        warned,
        vec![true, true, false, true, false, false, false, true]
    );
}

#[test]
fn the_privacy_summary_names_the_policy() {
    assert_eq!(
        TranscriptPolicy::default().privacy_summary(),
        "redaction=strict unsafe_full_raw=false max_bytes_per_record=262144"
    );
    assert_eq!(
        TranscriptPolicy {
            unsafe_full_raw: true,
            max_bytes_per_record: 0,
            ..policy(RedactionMode::Off)
        }
        .privacy_summary(),
        "redaction=off unsafe_full_raw=true max_bytes_per_record=0"
    );
}

#[test]
fn balanced_redaction_leaves_prose_alone() {
    let value = object(vec![("prose", text("finish the task-list today"))]);
    let balanced = policy(RedactionMode::Balanced);
    assert_eq!(redact_and_truncate_value(&value, balanced), value);
    // Prose that mentions a credential is free text; strict redaction takes no chances.
    let note = object(vec![("note", text("use sk-secret-value now"))]);
    assert_eq!(redact_and_truncate_value(&note, balanced), note);
    let strict = policy(RedactionMode::Strict);
    assert_eq!(redact_and_truncate_value(&note, strict)["note"], "[REDACTED]");
    // White space and case do not hide a bare credential.
    for bare in ["Bearer abc", "  bEARER\tx y", "\u{a0}SK-abc\n", "sk-"] {
        let tab = bare.contains('\t');
        assert_eq!(is_bare_credential(bare), !tab, "{bare:?}");
        let out = redact_and_truncate_value(&text(bare), balanced);
        assert_eq!(out == "[REDACTED]", !tab, "{bare:?}");
    }
    for kept in ["", "Bearer", " bearer ", "the bearer of news", "ask-me"] {
        assert!(!is_bare_credential(kept), "{kept:?}");
        assert!(!should_redact_text(kept, RedactionMode::Balanced));
    }
    assert!(!should_redact_text("Bearer abc", RedactionMode::Off));
}

#[test]
fn secrets_are_redacted_at_every_depth() {
    let deep = object(vec![(
        "list",
        Value::Array(vec![object(vec![
            ("password", object(vec![("inner", text("x"))])),
            ("note", text("kept")),
        ])]),
    )]);
    for mode in [RedactionMode::Strict, RedactionMode::Balanced] {
        let out = redact_and_truncate_value(&deep, policy(mode));
        assert_eq!(out["list"][0]["password"], "[REDACTED]");
        assert_eq!(out["list"][0]["note"], "kept");
        assert_eq!(out["list"][0].as_object().unwrap().len(), 2);
    }
    assert_eq!(redact_and_truncate_value(&deep, policy(RedactionMode::Off)), deep);
}
