//! Transcript records: redaction, truncation, and the per-record size cap.
//!
//! A record is redacted and size-capped before it is queued for writing. Redaction is
//! heuristic: it replaces the values of credential-like keys and texts that look like
//! a bearer token or an API key, and shortens oversized texts to a hash and a preview.
//! The balanced mode leaves prose alone and replaces only a text that is a credential.

use vstd::prelude::*;
use vstd::string::*;
use vstd::utf8::encode_utf8;

use crate::json::{
    assemble, encode, find_member, inspect, json_encoding, json_of, jsons_of, lists_members, member,
    set_member, text_value, Json, Part, Shape,
};
use crate::text::{
    characters, decimal, ends_in, has_ending, has_start, has_text, lower, lower_characters,
    lemma_trimmed_stands, occurs, push_decimal, stands_at, starts_in, text_of, trim, trimmed,
};

verus! {

/// Version tag carried by every transcript record.
pub const TRANSCRIPT_SCHEMA_VERSION: u32 = 1;

/// Queue depth of the background writer: a brief disk stall buffers a burst without
/// letting an unbounded backlog grow.
pub const WRITER_QUEUE_CAPACITY: usize = 4096;

/// How much of a record is redacted.
#[derive(Clone, Copy, Debug, PartialEq, Eq, Structural)]
pub enum RedactionMode {
    /// Redact suspicious keys and any text that looks like a credential.
    Strict,
    /// Redact suspicious keys and bare credentials; leave other free text intact.
    Balanced,
    /// No redaction. Texts are still shortened unless `unsafe_full_raw`.
    Off,
}

/// Privacy and size settings for transcript records.
#[derive(Clone, Copy, Debug, PartialEq, Eq, Structural)]
pub struct TranscriptPolicy {
    pub redaction: RedactionMode,
    pub unsafe_full_raw: bool,
    pub max_bytes_per_record: usize,
    pub max_string_chars: usize,
}

impl Default for TranscriptPolicy {
    fn default() -> (policy: Self)
        ensures
            policy.redaction == RedactionMode::Strict,
            !policy.unsafe_full_raw,
            policy.max_bytes_per_record == 262144,
            policy.max_string_chars == 4096,
    {
        TranscriptPolicy {
            redaction: RedactionMode::Strict,
            unsafe_full_raw: false,
            max_bytes_per_record: 262144,
            max_string_chars: 4096,
        }
    }
}

/// The name of a redaction mode.
pub open spec fn mode_name(mode: RedactionMode) -> Seq<char> {
    match mode {
        RedactionMode::Strict => "strict"@,
        RedactionMode::Balanced => "balanced"@,
        RedactionMode::Off => "off"@,
    }
}

/// `true` or `false`.
pub open spec fn bool_text(b: bool) -> Seq<char> {
    if b {
        "true"@
    } else {
        "false"@
    }
}

impl TranscriptPolicy {
    /// Human-readable summary of the privacy posture for startup logging.
    pub fn privacy_summary(&self) -> (summary: String)
        ensures
            summary@ == "redaction="@ + mode_name(self.redaction) + " unsafe_full_raw="@ + bool_text(
                self.unsafe_full_raw,
            ) + " max_bytes_per_record="@ + decimal(self.max_bytes_per_record as nat),
    {
        let mut summary = String::new();
        summary.append("redaction=");
        match self.redaction {
            RedactionMode::Strict => summary.append("strict"),
            RedactionMode::Balanced => summary.append("balanced"),
            RedactionMode::Off => summary.append("off"),
        }
        summary.append(" unsafe_full_raw=");
        if self.unsafe_full_raw {
            summary.append("true");
        } else {
            summary.append("false");
        }
        summary.append(" max_bytes_per_record=");
        push_decimal(&mut summary, self.max_bytes_per_record as u64);
        assert(Seq::<char>::empty() + "redaction="@ =~= "redaction="@);
        summary
    }
}

// ── Hashing ─────────────────────────────────────────────────────────────────

/// The lower-case hexadecimal SHA-256 digest of `bytes`.
pub uninterp spec fn sha256_text(bytes: Seq<u8>) -> Seq<char>;

/// Whether `c` is a lower-case hexadecimal digit.
pub open spec fn hex_digit(c: char) -> bool {
    ('0' <= c && c <= '9') || ('a' <= c && c <= 'f')
}

/// `sha2::Sha256` over `bytes`, formatted with `{:x}`: 64 lower-case hexadecimal digits.
#[verifier::external_body]
pub(crate) fn sha256_hex(bytes: &[u8]) -> (text: String)
    ensures
        text@ == sha256_text(bytes@),
        text@.len() == 64,
        forall|i: int| 0 <= i < text@.len() ==> hex_digit(#[trigger] text@[i]),
{
    format!("{:x}", <sha2::Sha256 as sha2::Digest>::digest(bytes))
}

// ── Redaction and truncation ────────────────────────────────────────────────

/// Whether something in a text looks like a bearer token or an API key.
pub open spec fn credential(text: Seq<char>) -> bool {
    occurs(lower(text), "bearer "@) || occurs(lower(text), "sk-"@)
}

/// Whether a text is nothing but a credential: between its white space it starts like a bearer
/// token or an API key.
pub open spec fn bare_credential(text: Seq<char>) -> bool {
    starts_in(lower(trimmed(text)), "bearer "@) || starts_in(lower(trimmed(text)), "sk-"@)
}

/// Whether a free text is redacted: any that looks like a credential under strict redaction, a
/// bare credential under balanced redaction.
pub open spec fn redactable(text: Seq<char>, mode: RedactionMode) -> bool {
    match mode {
        RedactionMode::Strict => credential(text),
        RedactionMode::Balanced => bare_credential(text),
        RedactionMode::Off => false,
    }
}

/// Whether a key names a secret.
pub open spec fn secret_key(key: Seq<char>) -> bool {
    let lowered = lower(key);
    ||| occurs(lowered, "authorization"@)
    ||| occurs(lowered, "api_key"@)
    ||| ends_in(lowered, "_key"@)
    ||| occurs(lowered, "token"@)
    ||| occurs(lowered, "secret"@)
    ||| occurs(lowered, "password"@)
}

/// What stands in place of a redacted value.
pub open spec fn redacted_text() -> Seq<char> {
    "[REDACTED]"@
}

/// A text of at most `max_chars` characters as it is; a longer one as its hash, its length,
/// and a preview of `max_chars` characters.
pub open spec fn shortened(text: Seq<char>, max_chars: nat) -> Json {
    if text.len() <= max_chars {
        Json::Text(text)
    } else {
        Json::Record(
            Map::<Seq<char>, Json>::empty().insert(
                "sha256"@,
                Json::Text(sha256_text(encode_utf8(text))),
            ).insert("len_chars"@, Json::Number(decimal(text.len()))).insert(
                "preview"@,
                Json::Text(text.take(max_chars as int)),
            ).insert("truncated"@, Json::Bool(true)),
        )
    }
}

/// What a free text becomes.
pub open spec fn redacted_free_text(text: Seq<char>, policy: TranscriptPolicy) -> Json {
    let kept = if redactable(text, policy.redaction) {
        redacted_text()
    } else {
        text
    };
    shortened(kept, policy.max_string_chars as nat)
}

/// What a value becomes under redaction and truncation.
pub open spec fn redacted(json: Json, policy: TranscriptPolicy) -> Json {
    if policy.unsafe_full_raw {
        json
    } else {
        redacted_tree(json, policy)
    }
}

/// What a value becomes when `unsafe_full_raw` is off.
pub open spec fn redacted_tree(json: Json, policy: TranscriptPolicy) -> Json
    decreases json,
{
    match json {
        Json::Text(text) => redacted_free_text(text, policy),
        Json::List(items) => Json::List(
            Seq::new(
                items.len(),
                |i: int|
                    if 0 <= i < items.len() {
                        redacted_tree(items[i], policy)
                    } else {
                        Json::Null
                    },
            ),
        ),
        Json::Record(map) => Json::Record(
            Map::new(
                |key: Seq<char>| map.contains_key(key),
                |key: Seq<char>|
                    if policy.redaction != RedactionMode::Off && secret_key(key) {
                        Json::Text(redacted_text())
                    } else if map.contains_key(key) {
                        redacted_tree(map[key], policy)
                    } else {
                        Json::Null
                    },
            ),
        ),
        _ => json,
    }
}

/// Whether no text inside a value is one that a redaction mode redacts.
pub open spec fn credential_free(json: Json, mode: RedactionMode) -> bool
    decreases json,
{
    match json {
        Json::Text(text) => !redactable(text, mode),
        Json::List(items) => forall|i: int|
            0 <= i < items.len() ==> credential_free(#[trigger] items[i], mode),
        Json::Record(map) => forall|key: Seq<char>| #[trigger]
            map.contains_key(key) ==> credential_free(map[key], mode),
        _ => true,
    }
}

proof fn lemma_start_occurs(text: Seq<char>, needle: Seq<char>)
    requires
        starts_in(lower(trimmed(text)), needle),
    ensures
        occurs(lower(text), needle),
{
    let (from, to) = lemma_trimmed_stands(text);
    assert(lower(trimmed(text)).subrange(0, needle.len() as int) =~= lower(text).subrange(
        from,
        from + needle.len(),
    ));
    assert(stands_at(lower(text), needle, from));
}

/// A bare credential looks like a credential, so balanced redaction hides no text that strict
/// redaction keeps.
pub proof fn law_balanced_hides_no_more_than_strict(text: Seq<char>)
    ensures
        redactable(text, RedactionMode::Balanced) ==> redactable(text, RedactionMode::Strict),
{
    if starts_in(lower(trimmed(text)), "bearer "@) {
        lemma_start_occurs(text, "bearer "@);
    }
    if starts_in(lower(trimmed(text)), "sk-"@) {
        lemma_start_occurs(text, "sk-"@);
    }
}

proof fn lemma_hex_is_no_credential(text: Seq<char>)
    requires
        forall|i: int| 0 <= i < text.len() ==> hex_digit(#[trigger] text[i]),
    ensures
        !credential(text),
{
    reveal_strlit("bearer ");
    reveal_strlit("sk-");
    let lowered = lower(text);
    assert forall|at: int| !stands_at(lowered, "bearer "@, at) by {
        if stands_at(lowered, "bearer "@, at) {
            assert(lowered.subrange(at, at + 7)[6] == ' ');
            assert(hex_digit(text[at + 6]));
        }
    }
    assert forall|at: int| !stands_at(lowered, "sk-"@, at) by {
        if stands_at(lowered, "sk-"@, at) {
            assert(lowered.subrange(at, at + 3)[2] == '-');
            assert(hex_digit(text[at + 2]));
        }
    }
}

proof fn lemma_prefix_is_no_credential(text: Seq<char>, n: int)
    requires
        0 <= n <= text.len(),
        !credential(text),
    ensures
        !credential(text.take(n)),
{
    let part = lower(text.take(n));
    let whole = lower(text);
    assert forall|needle: Seq<char>, at: int| #[trigger] stands_at(part, needle, at) implies stands_at(
        whole,
        needle,
        at,
    ) by {
        assert(part.subrange(at, at + needle.len()) =~= whole.subrange(at, at + needle.len()));
    }
}

proof fn lemma_prefix_starts(text: Seq<char>, n: int, needle: Seq<char>)
    requires
        0 <= n <= text.len(),
        needle.len() > 0,
        starts_in(lower(trimmed(text.take(n))), needle),
    ensures
        starts_in(lower(trimmed(text)), needle),
{
    let part = text.take(n);
    let (from, to) = lemma_trimmed_stands(text);
    let (start, end) = lemma_trimmed_stands(part);
    assert(part[start] == text[start] && part[end - 1] == text[end - 1]);
    assert(from <= start && end <= to);
    if from < start {
        assert(part[from] == text[from]);
    }
    assert(lower(trimmed(part)).subrange(0, needle.len() as int) =~= lower(trimmed(text)).subrange(
        0,
        needle.len() as int,
    ));
}

proof fn lemma_prefix_is_not_redacted(text: Seq<char>, n: int, mode: RedactionMode)
    requires
        0 <= n <= text.len(),
        !redactable(text, mode),
    ensures
        !redactable(text.take(n), mode),
{
    reveal_strlit("bearer ");
    reveal_strlit("sk-");
    if mode == RedactionMode::Strict {
        lemma_prefix_is_no_credential(text, n);
    } else if mode == RedactionMode::Balanced && bare_credential(text.take(n)) {
        if starts_in(lower(trimmed(text.take(n))), "bearer "@) {
            lemma_prefix_starts(text, n, "bearer "@);
        } else {
            lemma_prefix_starts(text, n, "sk-"@);
        }
    }
}

proof fn lemma_marker_is_no_credential()
    ensures
        !credential(redacted_text()),
{
    reveal_strlit("[REDACTED]");
    reveal_strlit("bearer ");
    reveal_strlit("sk-");
    let lowered = lower("[REDACTED]"@);
    assert forall|at: int| !stands_at(lowered, "bearer "@, at) by {
        if stands_at(lowered, "bearer "@, at) {
            assert(lowered.subrange(at, at + 7)[0] == 'b');
        }
    }
    assert forall|at: int| !stands_at(lowered, "sk-"@, at) by {
        if stands_at(lowered, "sk-"@, at) {
            assert(lowered.subrange(at, at + 3)[0] == 's');
        }
    }
}

/// Whether something in a text looks like a bearer token or an API key.
pub fn looks_like_credential(value: &str) -> (r: bool)
    ensures
        r == credential(value@),
{
    let lowered = lower_characters(value);
    has_text(&lowered, "bearer ") || has_text(&lowered, "sk-")
}

/// Whether a text is nothing but a bearer token or an API key.
pub fn is_bare_credential(value: &str) -> (r: bool)
    ensures
        r == bare_credential(value@),
{
    let lowered = lower_characters(trim(value).as_str());
    has_start(&lowered, "bearer ") || has_start(&lowered, "sk-")
}

/// Whether a redaction mode redacts a free text.
pub fn should_redact_text(value: &str, mode: RedactionMode) -> (r: bool)
    ensures
        r == redactable(value@, mode),
{
    match mode {
        RedactionMode::Strict => looks_like_credential(value),
        RedactionMode::Balanced => is_bare_credential(value),
        RedactionMode::Off => false,
    }
}

/// Whether a key names a secret.
pub fn should_redact_key(key: &str) -> (r: bool)
    ensures
        r == secret_key(key@),
{
    let lowered = lower_characters(key);
    has_text(&lowered, "authorization") || has_text(&lowered, "api_key") || has_ending(
        &lowered,
        "_key",
    ) || has_text(&lowered, "token") || has_text(&lowered, "secret") || has_text(
        &lowered,
        "password",
    )
}

/// Replaces an oversized text with a hash and a bounded preview, so the record stays small
/// while keeping enough signal to correlate.
pub fn truncate_string(value: &str, max_chars: usize) -> (out: serde_json::Value)
    ensures
        json_of(out) == shortened(value@, max_chars as nat),
        forall|mode: RedactionMode| #[trigger]
            redactable(value@, mode) || credential_free(json_of(out), mode),
{
    let chars = characters(value);
    if chars.len() <= max_chars {
        return text_value(value.to_owned());
    }
    let preview = text_of(&chars, 0, max_chars);
    let hash = sha256_hex(value.as_bytes());
    proof {
        lemma_hex_is_no_credential(hash@);
        law_balanced_hides_no_more_than_strict(hash@);
    }
    let mut out = assemble(Part::EmptyRecord);
    set_member(&mut out, "sha256".to_owned(), text_value(hash));
    set_member(&mut out, "len_chars".to_owned(), assemble(Part::Count(chars.len() as u64)));
    set_member(&mut out, "preview".to_owned(), text_value(preview));
    set_member(&mut out, "truncated".to_owned(), assemble(Part::Bool(true)));
    proof {
        reveal_with_fuel(credential_free, 2);
        assert forall|mode: RedactionMode| #[trigger] redactable(value@, mode) || credential_free(
            json_of(out),
            mode,
        ) by {
            if !redactable(value@, mode) {
                lemma_prefix_is_not_redacted(value@, max_chars as int, mode);
            }
        }
    }
    out
}

/// Redacts and truncates one value.
pub fn redact_and_truncate_value(value: &serde_json::Value, policy: TranscriptPolicy) -> (out:
    serde_json::Value)
    ensures
        json_of(out) == redacted(json_of(*value), policy),
        !policy.unsafe_full_raw ==> credential_free(json_of(out), policy.redaction),
{
    if policy.unsafe_full_raw {
        return value.clone();
    }
    redact_tree(value, policy)
}

fn redact_tree(value: &serde_json::Value, policy: TranscriptPolicy) -> (out: serde_json::Value)
    ensures
        json_of(out) == redacted_tree(json_of(*value), policy),
        credential_free(json_of(out), policy.redaction),
    decreases json_of(*value),
{
    proof {
        lemma_marker_is_no_credential();
        law_balanced_hides_no_more_than_strict(redacted_text());
        assert(!redactable(redacted_text(), policy.redaction));
    }
    match inspect(value) {
        Shape::Text(text) => {
            if should_redact_text(text.as_str(), policy.redaction) {
                truncate_string("[REDACTED]", policy.max_string_chars)
            } else {
                truncate_string(text.as_str(), policy.max_string_chars)
            }
        },
        Shape::List(items) => {
            let mut out: Vec<serde_json::Value> = Vec::new();
            let mut i: usize = 0;
            while i < items.len()
                invariant
                    i <= items@.len(),
                    out@.len() == i,
                    json_of(*value) == Json::List(jsons_of(items@)),
                    forall|j: int|
                        0 <= j < i ==> json_of(#[trigger] out@[j]) == redacted_tree(
                            json_of(items@[j]),
                            policy,
                        ) && credential_free(json_of(out@[j]), policy.redaction),
                decreases items.len() - i,
            {
                proof {
                    let list = json_of(*value)->List_0;
                    assert(list[i as int] == json_of(items@[i as int]));
                    assert(decreases_to!(list => list[i as int]));
                }
                out.push(redact_tree(&items[i], policy));
                i = i + 1;
            }
            proof {
                let want = redacted_tree(json_of(*value), policy)->List_0;
                assert(jsons_of(out@) =~= want) by {
                    assert forall|j: int| 0 <= j < want.len() implies jsons_of(out@)[j] == want[j] by {
                        assert(jsons_of(items@)[j] == json_of(items@[j]));
                        assert(jsons_of(out@)[j] == json_of(out@[j]));
                    }
                }
            }
            assemble(Part::List(out))
        },
        Shape::Record(entries) => {
            let mut out = assemble(Part::EmptyRecord);
            let ghost map = json_of(*value)->Record_0;
            let ghost want = redacted_tree(json_of(*value), policy)->Record_0;
            let mut i: usize = 0;
            while i < entries.len()
                invariant
                    i <= entries@.len(),
                    json_of(*value) == Json::Record(map),
                    lists_members(entries@, map),
                    want == redacted_tree(json_of(*value), policy)->Record_0,
                    json_of(out) is Record,
                    forall|key: Seq<char>| #[trigger]
                        json_of(out)->Record_0.contains_key(key) <==> exists|j: int|
                            0 <= j < i && (#[trigger] entries@[j]).0@ == key,
                    forall|key: Seq<char>| #[trigger]
                        json_of(out)->Record_0.contains_key(key) ==> want.contains_key(key)
                            && json_of(out)->Record_0[key] == want[key] && credential_free(
                            json_of(out)->Record_0[key],
                            policy.redaction,
                        ),
                    !redactable(redacted_text(), policy.redaction),
                decreases entries.len() - i,
            {
                let key = entries[i].0;
                assert(map.contains_key(entries@[i as int].0@));
                let item = if policy.redaction != RedactionMode::Off && should_redact_key(key.as_str()) {
                    text_value("[REDACTED]".to_owned())
                } else {
                    redact_tree(entries[i].1, policy)
                };
                let ghost before = json_of(out)->Record_0;
                set_member(&mut out, key.clone(), item);
                proof {
                    assert(json_of(item) == want[key@]);
                    assert forall|k: Seq<char>| #[trigger]
                        json_of(out)->Record_0.contains_key(k) <==> exists|j: int|
                            0 <= j < i + 1 && (#[trigger] entries@[j]).0@ == k by {
                        if k == key@ {
                            assert(entries@[i as int].0@ == k);
                        } else if before.contains_key(k) {
                            let j = choose|j: int| 0 <= j < i && (#[trigger] entries@[j]).0@ == k;
                            assert(0 <= j < i + 1 && entries@[j].0@ == k);
                        }
                    }
                }
                i = i + 1;
            }
            proof {
                assert(json_of(out)->Record_0 =~= want) by {
                    assert forall|k: Seq<char>| want.contains_key(k) implies #[trigger] json_of(
                        out,
                    )->Record_0.contains_key(k) by {
                        assert(map.contains_key(k));
                        let j = choose|j: int| 0 <= j < entries@.len() && (#[trigger] entries@[j]).0@ == k;
                        assert(entries@[j].0@ == k);
                    }
                }
            }
            out
        },
        _ => value.clone(),
    }
}

// ── Size cap ────────────────────────────────────────────────────────────────

/// The bytes a value encodes to, none where encoding fails.
pub open spec fn encoded_bytes(json: Json) -> Seq<u8> {
    match json_encoding(json) {
        Some(bytes) => bytes,
        None => Seq::empty(),
    }
}

/// What stands in place of a dropped payload: its hash and its size.
pub open spec fn payload_summary(json: Json) -> Json {
    Json::Record(
        Map::<Seq<char>, Json>::empty().insert(
            "sha256"@,
            Json::Text(sha256_text(encoded_bytes(json))),
        ).insert("len_bytes"@, Json::Number(decimal(encoded_bytes(json).len()))).insert(
            "dropped"@,
            Json::Bool(true),
        ),
    )
}

/// The record with one payload dropped, if the record is over the cap and has that payload.
pub open spec fn shed(record: Json, field: Seq<char>, cap: nat) -> Json {
    match member(record, field) {
        Some(payload) => if encoded_bytes(record).len() > cap && payload != Json::Null {
            Json::Record(
                record->Record_0.insert(field, payload_summary(payload)).insert(
                    "truncated"@,
                    Json::Bool(true),
                ),
            )
        } else {
            record
        },
        None => record,
    }
}

/// The record as it is kept: the raw provider body goes first, then the normalized one.
pub open spec fn capped(record: Json, cap: nat) -> Json {
    shed(shed(record, "raw"@, cap), "normalized"@, cap)
}

fn record_len(record: &serde_json::Value) -> (len: usize)
    ensures
        len == encoded_bytes(json_of(*record)).len(),
{
    match encode(record) {
        Some(bytes) => bytes.len(),
        None => 0,
    }
}

fn summarize(field: &serde_json::Value) -> (summary: serde_json::Value)
    ensures
        json_of(summary) == payload_summary(json_of(*field)),
{
    let bytes: Vec<u8> = match encode(field) {
        Some(bytes) => bytes,
        None => Vec::new(),
    };
    let mut summary = assemble(Part::EmptyRecord);
    assert(bytes@ =~= encoded_bytes(json_of(*field)));
    set_member(&mut summary, "sha256".to_owned(), text_value(sha256_hex(bytes.as_slice())));
    set_member(&mut summary, "len_bytes".to_owned(), assemble(Part::Count(bytes.len() as u64)));
    set_member(&mut summary, "dropped".to_owned(), assemble(Part::Bool(true)));
    summary
}

fn shed_field(record: serde_json::Value, field: &str, cap: usize) -> (out: serde_json::Value)
    ensures
        json_of(out) == shed(json_of(record), field@, cap as nat),
{
    if record_len(&record) <= cap {
        return record;
    }
    let summary: Option<serde_json::Value> = match find_member(&record, field) {
        Some(payload) => match inspect(payload) {
            Shape::Null => None,
            _ => Some(summarize(payload)),
        },
        None => None,
    };
    match summary {
        Some(summary) => {
            let mut out = record;
            set_member(&mut out, field.to_owned(), summary);
            set_member(&mut out, "truncated".to_owned(), assemble(Part::Bool(true)));
            out
        },
        None => record,
    }
}

/// Sheds the heavy `raw` and `normalized` payloads, in this order, replacing each with a hash
/// summary, until the encoded record fits under the cap. Every other field is kept, so a record
/// is over the cap only once both payloads are gone.
pub fn enforce_size_cap(record: serde_json::Value, policy: TranscriptPolicy) -> (out:
    serde_json::Value)
    ensures
        json_of(out) == capped(json_of(record), policy.max_bytes_per_record as nat),
{
    let record = shed_field(record, "raw", policy.max_bytes_per_record);
    shed_field(record, "normalized", policy.max_bytes_per_record)
}

// ── Records ─────────────────────────────────────────────────────────────────

/// What a transcript record is about.
#[derive(Clone, Copy, Debug, PartialEq, Eq, Structural)]
pub enum TranscriptEventKind {
    NormalizedRequest,
    ProviderRequest,
    ProviderResponse,
    NormalizedResponse,
    Error,
}

/// The name an event is written under.
pub open spec fn event_name(event: TranscriptEventKind) -> Seq<char> {
    match event {
        TranscriptEventKind::NormalizedRequest => "normalized_request"@,
        TranscriptEventKind::ProviderRequest => "provider_request"@,
        TranscriptEventKind::ProviderResponse => "provider_response"@,
        TranscriptEventKind::NormalizedResponse => "normalized_response"@,
        TranscriptEventKind::Error => "error"@,
    }
}

impl TranscriptEventKind {
    fn name(self) -> (name: &'static str)
        ensures
            name@ == event_name(self),
    {
        match self {
            TranscriptEventKind::NormalizedRequest => "normalized_request",
            TranscriptEventKind::ProviderRequest => "provider_request",
            TranscriptEventKind::ProviderResponse => "provider_response",
            TranscriptEventKind::NormalizedResponse => "normalized_response",
            TranscriptEventKind::Error => "error",
        }
    }
}

/// One transcript event before redaction.
#[derive(Debug)]
pub struct TranscriptRecord {
    pub v: u32,
    pub ts: String,
    pub event: TranscriptEventKind,
    pub request_id: String,
    pub session_id: Option<String>,
    pub trial_id: Option<String>,
    pub wire_format: String,
    pub tools_hash: Option<String>,
    pub route_id: Option<String>,
    pub selected_model: Option<String>,
    pub tier: Option<String>,
    pub streaming: Option<bool>,
    pub normalized: Option<serde_json::Value>,
    pub raw: Option<serde_json::Value>,
    pub error: Option<serde_json::Value>,
}

/// A text, or null.
pub open spec fn nullable_text(text: Option<String>) -> Json {
    match text {
        Some(text) => Json::Text(text@),
        None => Json::Null,
    }
}

/// `map` with a member set when the text is there.
pub open spec fn with_text(
    map: Map<Seq<char>, Json>,
    key: Seq<char>,
    text: Option<String>,
) -> Map<Seq<char>, Json> {
    match text {
        Some(text) => map.insert(key, Json::Text(text@)),
        None => map,
    }
}

/// `map` with a member set when the value is there.
pub open spec fn with_value(
    map: Map<Seq<char>, Json>,
    key: Seq<char>,
    value: Option<serde_json::Value>,
) -> Map<Seq<char>, Json> {
    match value {
        Some(value) => map.insert(key, json_of(value)),
        None => map,
    }
}

/// The JSON object of a record: `session_id` and `trial_id` are always there, the fields
/// from `tools_hash` on only when set.
pub open spec fn record_json(record: TranscriptRecord) -> Json {
    let always = Map::<Seq<char>, Json>::empty().insert(
        "v"@,
        Json::Number(decimal(record.v as nat)),
    ).insert("ts"@, Json::Text(record.ts@)).insert(
        "event"@,
        Json::Text(event_name(record.event)),
    ).insert("request_id"@, Json::Text(record.request_id@)).insert(
        "session_id"@,
        nullable_text(record.session_id),
    ).insert("trial_id"@, nullable_text(record.trial_id)).insert(
        "wire_format"@,
        Json::Text(record.wire_format@),
    );
    let labelled = with_text(
        with_text(
            with_text(
                with_text(always, "tools_hash"@, record.tools_hash),
                "route_id"@,
                record.route_id,
            ),
            "selected_model"@,
            record.selected_model,
        ),
        "tier"@,
        record.tier,
    );
    let flagged = match record.streaming {
        Some(streaming) => labelled.insert("streaming"@, Json::Bool(streaming)),
        None => labelled,
    };
    Json::Record(
        with_value(
            with_value(
                with_value(flagged, "normalized"@, record.normalized),
                "raw"@,
                record.raw,
            ),
            "error"@,
            record.error,
        ),
    )
}

fn set_text(value: &mut serde_json::Value, key: &str, text: &Option<String>)
    requires
        json_of(*old(value)) is Record,
    ensures
        json_of(*final(value)) == Json::Record(
            with_text(json_of(*old(value))->Record_0, key@, *text),
        ),
{
    match text {
        Some(text) => set_member(value, key.to_owned(), text_value(text.clone())),
        None => {},
    }
}

fn set_nullable_text(value: &mut serde_json::Value, key: &str, text: &Option<String>)
    requires
        json_of(*old(value)) is Record,
    ensures
        json_of(*final(value)) == Json::Record(
            json_of(*old(value))->Record_0.insert(key@, nullable_text(*text)),
        ),
{
    match text {
        Some(text) => set_member(value, key.to_owned(), text_value(text.clone())),
        None => set_member(value, key.to_owned(), assemble(Part::Null)),
    }
}

fn set_value(value: &mut serde_json::Value, key: &str, item: &Option<serde_json::Value>)
    requires
        json_of(*old(value)) is Record,
    ensures
        json_of(*final(value)) == Json::Record(
            with_value(json_of(*old(value))->Record_0, key@, *item),
        ),
{
    match item {
        Some(item) => set_member(value, key.to_owned(), item.clone()),
        None => {},
    }
}

impl TranscriptRecord {
    /// The JSON object of this record.
    pub fn to_value(&self) -> (value: serde_json::Value)
        ensures
            json_of(value) == record_json(*self),
    {
        let mut value = assemble(Part::EmptyRecord);
        set_member(&mut value, "v".to_owned(), assemble(Part::Count(self.v as u64)));
        set_member(&mut value, "ts".to_owned(), text_value(self.ts.clone()));
        set_member(&mut value, "event".to_owned(), text_value(self.event.name().to_owned()));
        set_member(&mut value, "request_id".to_owned(), text_value(self.request_id.clone()));
        set_nullable_text(&mut value, "session_id", &self.session_id);
        set_nullable_text(&mut value, "trial_id", &self.trial_id);
        set_member(&mut value, "wire_format".to_owned(), text_value(self.wire_format.clone()));
        set_text(&mut value, "tools_hash", &self.tools_hash);
        set_text(&mut value, "route_id", &self.route_id);
        set_text(&mut value, "selected_model", &self.selected_model);
        set_text(&mut value, "tier", &self.tier);
        match self.streaming {
            Some(streaming) => set_member(
                &mut value,
                "streaming".to_owned(),
                assemble(Part::Bool(streaming)),
            ),
            None => {},
        }
        set_value(&mut value, "normalized", &self.normalized);
        set_value(&mut value, "raw", &self.raw);
        set_value(&mut value, "error", &self.error);
        value
    }
}

/// What is written for a record.
pub open spec fn kept_json(record: TranscriptRecord, policy: TranscriptPolicy) -> Json {
    capped(redacted(record_json(record), policy), policy.max_bytes_per_record as nat)
}

/// Redacts, size-caps, and encodes a record into the exact bytes to append: the compact
/// JSON of the kept record and a newline, or nothing where encoding fails.
///
/// This runs on the calling thread so the background writer only performs I/O.
pub fn encode_line(record: &TranscriptRecord, policy: TranscriptPolicy) -> (line: Option<Vec<u8>>)
    ensures
        match json_encoding(kept_json(*record, policy)) {
            Some(bytes) => line matches Some(line) && line@ == bytes.push(10u8)
                && crate::lines::one_line(line@),
            None => line is None,
        },
{
    let value = record.to_value();
    let kept = enforce_size_cap(redact_and_truncate_value(&value, policy), policy);
    match encode(&kept) {
        Some(bytes) => Some(crate::lines::terminate_line(bytes)),
        None => None,
    }
}

// ── What redaction and the cap promise ──────────────────────────────────────

/// `unsafe_full_raw` switches redaction and truncation off altogether.
pub proof fn law_unsafe_full_raw_changes_nothing(json: Json, policy: TranscriptPolicy)
    requires
        policy.unsafe_full_raw,
    ensures
        redacted(json, policy) == json,
{
}

/// Whether the member under every secret key, at every depth, is the redaction marker.
pub open spec fn secrets_redacted(json: Json) -> bool
    decreases json,
{
    match json {
        Json::List(items) => forall|i: int|
            0 <= i < items.len() ==> secrets_redacted(#[trigger] items[i]),
        Json::Record(map) => forall|key: Seq<char>| #[trigger]
            map.contains_key(key) ==> if secret_key(key) {
                map[key] == Json::Text(redacted_text())
            } else {
                secrets_redacted(map[key])
            },
        _ => true,
    }
}

/// Whether two values have the same items and members at every depth, texts and what stands
/// under a secret key aside.
pub open spec fn same_layout(before: Json, after: Json) -> bool
    decreases before,
{
    match before {
        Json::Text(_) => true,
        Json::List(items) => after is List && after->List_0.len() == items.len() && forall|i: int|
            0 <= i < items.len() ==> same_layout(#[trigger] items[i], after->List_0[i]),
        Json::Record(map) => after is Record && after->Record_0.dom() == map.dom() && forall|
            key: Seq<char>,
        | #[trigger]
            map.contains_key(key) && !secret_key(key) ==> same_layout(
                map[key],
                after->Record_0[key],
            ),
        _ => after == before,
    }
}

proof fn lemma_lacking_a_letter(text: Seq<char>, needle: Seq<char>, at: int)
    requires
        0 <= at < needle.len(),
        forall|i: int| 0 <= i < text.len() ==> #[trigger] text[i] != needle[at],
    ensures
        !occurs(text, needle),
{
    assert forall|from: int| !stands_at(text, needle, from) by {
        if stands_at(text, needle, from) {
            assert(text.subrange(from, from + needle.len())[at] == text[from + at]);
        }
    }
}

/// Every word for a secret has an `o` or a `k`, or both an `s` and a `t`.
proof fn lemma_no_secret_word(key: Seq<char>, letter: char)
    requires
        letter == 's' || letter == 't',
        forall|i: int|
            0 <= i < key.len() ==> (#[trigger] lower(key)[i]) != 'o' && lower(key)[i] != 'k'
                && lower(key)[i] != letter,
    ensures
        !secret_key(key),
{
    reveal_strlit("authorization");
    reveal_strlit("api_key");
    reveal_strlit("_key");
    reveal_strlit("token");
    reveal_strlit("secret");
    reveal_strlit("password");
    let lowered = lower(key);
    lemma_lacking_a_letter(lowered, "authorization"@, 4);
    lemma_lacking_a_letter(lowered, "api_key"@, 4);
    lemma_lacking_a_letter(lowered, "_key"@, 1);
    lemma_lacking_a_letter(lowered, "token"@, 1);
    lemma_lacking_a_letter(lowered, "secret"@, if letter == 's' { 0 } else { 5 });
    lemma_lacking_a_letter(lowered, "password"@, 5);
    assert(ends_in(lowered, "_key"@) ==> occurs(lowered, "_key"@));
}

proof fn lemma_shortened_holds_no_secret(text: Seq<char>, max_chars: nat)
    ensures
        secrets_redacted(shortened(text, max_chars)),
{
    reveal_with_fuel(secrets_redacted, 2);
    reveal_strlit("sha256");
    reveal_strlit("len_chars");
    reveal_strlit("preview");
    reveal_strlit("truncated");
    lemma_no_secret_word("sha256"@, 't');
    lemma_no_secret_word("len_chars"@, 't');
    lemma_no_secret_word("preview"@, 't');
    lemma_no_secret_word("truncated"@, 's');
}

/// Unless redaction is off, the member under a secret key is the redaction marker whatever it
/// held, at every depth, and redaction neither adds nor removes items or members.
pub proof fn law_secret_members_are_redacted(json: Json, policy: TranscriptPolicy)
    requires
        policy.redaction != RedactionMode::Off,
        !policy.unsafe_full_raw,
    ensures
        secrets_redacted(redacted(json, policy)),
        same_layout(json, redacted(json, policy)),
    decreases json,
{
    let after = redacted(json, policy);
    match json {
        Json::Text(text) => {
            lemma_shortened_holds_no_secret(text, policy.max_string_chars as nat);
            lemma_shortened_holds_no_secret(redacted_text(), policy.max_string_chars as nat);
        },
        Json::List(items) => {
            assert forall|i: int| 0 <= i < items.len() implies secrets_redacted(
                #[trigger] after->List_0[i],
            ) && same_layout(items[i], after->List_0[i]) by {
                law_secret_members_are_redacted(items[i], policy);
            }
        },
        Json::Record(map) => {
            assert(after->Record_0.dom() =~= map.dom());
            assert forall|key: Seq<char>| #[trigger]
                map.contains_key(key) && !secret_key(key) implies secrets_redacted(
                after->Record_0[key],
            ) && same_layout(map[key], after->Record_0[key]) by {
                law_secret_members_are_redacted(map[key], policy);
            }
            assert forall|key: Seq<char>| #[trigger] after->Record_0.contains_key(key) implies if secret_key(
                key,
            ) {
                after->Record_0[key] == Json::Text(redacted_text())
            } else {
                secrets_redacted(after->Record_0[key])
            } by {
                assert(map.contains_key(key));
            }
        },
        _ => {},
    }
}

/// Whether no text inside a value is longer than `max_chars`.
pub open spec fn short_texts(json: Json, max_chars: nat) -> bool
    decreases json,
{
    match json {
        Json::Text(text) => text.len() <= max_chars,
        Json::List(items) => forall|i: int|
            0 <= i < items.len() ==> short_texts(#[trigger] items[i], max_chars),
        Json::Record(map) => forall|key: Seq<char>| #[trigger]
            map.contains_key(key) ==> short_texts(map[key], max_chars),
        _ => true,
    }
}

/// Whether no key inside a value names a secret.
pub open spec fn plain_keys(json: Json) -> bool
    decreases json,
{
    match json {
        Json::List(items) => forall|i: int|
            0 <= i < items.len() ==> plain_keys(#[trigger] items[i]),
        Json::Record(map) => forall|key: Seq<char>| #[trigger]
            map.contains_key(key) ==> !secret_key(key) && plain_keys(map[key]),
        _ => true,
    }
}

/// A value without oversized texts, credentials and secret keys comes out as it went in. Under
/// balanced redaction prose that mentions a credential is no credential; with redaction off only
/// oversized texts change.
pub proof fn law_other_values_are_kept(json: Json, policy: TranscriptPolicy)
    requires
        short_texts(json, policy.max_string_chars as nat),
        credential_free(json, policy.redaction),
        policy.redaction == RedactionMode::Off || plain_keys(json),
    ensures
        redacted(json, policy) == json,
    decreases json,
{
    if !policy.unsafe_full_raw {
        match json {
            Json::List(items) => {
                assert forall|i: int| 0 <= i < items.len() implies redacted_tree(
                    #[trigger] items[i],
                    policy,
                ) == items[i] by {
                    law_other_values_are_kept(items[i], policy);
                }
                assert(redacted_tree(json, policy)->List_0 =~= items);
            },
            Json::Record(map) => {
                assert forall|key: Seq<char>| #[trigger] map.contains_key(key) implies redacted_tree(
                    map[key],
                    policy,
                ) == map[key] by {
                    law_other_values_are_kept(map[key], policy);
                }
                assert(redacted_tree(json, policy)->Record_0 =~= map);
            },
            _ => {},
        }
    }
}

/// With redaction off nothing is a credential, so only oversized texts change.
pub proof fn law_off_changes_only_long_texts(json: Json, policy: TranscriptPolicy)
    requires
        policy.redaction == RedactionMode::Off,
        short_texts(json, policy.max_string_chars as nat),
    ensures
        redacted(json, policy) == json,
{
    lemma_off_redacts_no_text(json);
    law_other_values_are_kept(json, policy);
}

proof fn lemma_off_redacts_no_text(json: Json)
    ensures
        credential_free(json, RedactionMode::Off),
    decreases json,
{
    match json {
        Json::List(items) => {
            assert forall|i: int| 0 <= i < items.len() implies credential_free(
                #[trigger] items[i],
                RedactionMode::Off,
            ) by {
                lemma_off_redacts_no_text(items[i]);
            }
        },
        Json::Record(map) => {
            assert forall|key: Seq<char>| #[trigger] map.contains_key(key) implies credential_free(
                map[key],
                RedactionMode::Off,
            ) by {
                lemma_off_redacts_no_text(map[key]);
            }
        },
        _ => {},
    }
}

/// Whether a payload is gone from a kept record: never there, null, or summarized.
pub open spec fn payload_gone(record: Json, kept: Json, field: Seq<char>) -> bool {
    match member(record, field) {
        Some(payload) => payload == Json::Null || member(kept, field) == Some(
            payload_summary(payload),
        ),
        None => true,
    }
}

/// The cap sheds until the record fits: a kept record is within the cap unless both heavy
/// payloads are already gone.
pub proof fn law_cap_sheds_until_it_fits(record: Json, cap: nat)
    ensures
        encoded_bytes(capped(record, cap)).len() <= cap || (payload_gone(
            record,
            capped(record, cap),
            "raw"@,
        ) && payload_gone(record, capped(record, cap), "normalized"@)),
{
    reveal_strlit("raw");
    reveal_strlit("normalized");
    reveal_strlit("truncated");
    assert("raw"@.len() == 3 && "normalized"@.len() == 10 && "truncated"@.len() == 9);
}

/// Everything but the two payloads and the truncation flag survives the cap, and a record
/// within the cap is kept as it is.
pub proof fn law_cap_keeps_the_rest(record: Json, cap: nat, key: Seq<char>)
    ensures
        encoded_bytes(record).len() <= cap ==> capped(record, cap) == record,
        key != "raw"@ && key != "normalized"@ && key != "truncated"@ ==> member(
            capped(record, cap),
            key,
        ) == member(record, key),
        capped(record, cap) != record ==> member(capped(record, cap), "truncated"@) == Some(
            Json::Bool(true),
        ),
{
}

// ── Dropped records ─────────────────────────────────────────────────────────

/// Why a record never reached the writer.
#[derive(Clone, Copy, Debug, PartialEq, Eq, Structural)]
pub enum DropReason {
    /// The record could not be encoded.
    EncodingFailed,
    /// The writer's queue was full.
    QueueFull,
}

/// Counts the records that were dropped instead of written.
#[derive(Clone, Copy, Debug, PartialEq, Eq, Structural)]
pub struct DropCounter {
    pub dropped: u64,
}

/// Whether `n` is a power of two.
pub open spec fn power_of_two(n: int) -> bool {
    exists|k: nat| n == #[trigger] vstd::arithmetic::power2::pow2(k)
}

fn is_power_of_two(n: u64) -> (r: bool)
    ensures
        r == power_of_two(n as int),
    decreases n,
{
    proof {
        vstd::arithmetic::power2::lemma2_to64();
        assert forall|k: nat| n == #[trigger] vstd::arithmetic::power2::pow2(k) && k > 0 implies n % 2
            == 0 && n / 2 == vstd::arithmetic::power2::pow2((k - 1) as nat) by {
            vstd::arithmetic::power2::lemma_pow2_unfold(k);
        }
        assert forall|k: nat| #[trigger] vstd::arithmetic::power2::pow2(k) > 0 by {
            vstd::arithmetic::power2::lemma_pow2_pos(k);
        }
    }
    if n == 0 {
        false
    } else if n == 1 {
        assert(n == vstd::arithmetic::power2::pow2(0));
        true
    } else if n % 2 == 1 {
        false
    } else {
        let r = is_power_of_two(n / 2);
        proof {
            if r {
                let k = choose|k: nat| (n / 2) as int == #[trigger] vstd::arithmetic::power2::pow2(k);
                vstd::arithmetic::power2::lemma_pow2_unfold(k + 1);
                assert(n == vstd::arithmetic::power2::pow2(k + 1));
            }
        }
        r
    }
}

impl DropCounter {
    /// No record dropped yet.
    pub fn new() -> (counter: Self)
        ensures
            counter.dropped == 0,
    {
        DropCounter { dropped: 0 }
    }

    /// Counts one dropped record and says whether to warn: always when a record could not
    /// be encoded; for a full queue only on the first drop and each power of two.
    pub fn count_drop(&mut self, reason: DropReason) -> (warn: bool)
        requires
            old(self).dropped < u64::MAX,
        ensures
            final(self).dropped == old(self).dropped + 1,
            warn == (reason == DropReason::EncodingFailed || power_of_two(
                final(self).dropped as int,
            )),
    {
        self.dropped = self.dropped + 1;
        match reason {
            DropReason::EncodingFailed => true,
            DropReason::QueueFull => is_power_of_two(self.dropped),
        }
    }
}

// ── What redaction means ────────────────────────────────────────────────────

/// A key names a secret exactly if, in any ASCII case, it holds one of five words or ends in
/// `_key`.
pub proof fn law_secret_keys_hold_a_secret_word(key: Seq<char>)
    ensures
        secret_key(key) <==> {
            ||| occurs(lower(key), "authorization"@)
            ||| occurs(lower(key), "api_key"@)
            ||| occurs(lower(key), "token"@)
            ||| occurs(lower(key), "secret"@)
            ||| occurs(lower(key), "password"@)
            ||| ends_in(lower(key), "_key"@)
        },
{
}

/// Strict redaction takes every text in which a credential occurs, balanced redaction the texts
/// that start as one behind their white space, and neither is taken with redaction off.
pub proof fn law_each_mode_takes_its_credentials(text: Seq<char>)
    ensures
        redactable(text, RedactionMode::Strict) <==> occurs(lower(text), "bearer "@) || occurs(
            lower(text),
            "sk-"@,
        ),
        redactable(text, RedactionMode::Balanced) <==> starts_in(lower(trimmed(text)), "bearer "@)
            || starts_in(lower(trimmed(text)), "sk-"@),
        !redactable(text, RedactionMode::Off),
{
}

/// A text of at most `max_chars` characters stays; a longer one becomes its hash, its length, its
/// first `max_chars` characters and a mark.
pub proof fn law_long_texts_become_hash_length_and_preview(text: Seq<char>, max_chars: nat)
    ensures
        text.len() <= max_chars ==> shortened(text, max_chars) == Json::Text(text),
        text.len() > max_chars ==> {
            let short = shortened(text, max_chars);
            &&& member(short, "sha256"@) == Some(Json::Text(sha256_text(encode_utf8(text))))
            &&& member(short, "len_chars"@) == Some(Json::Number(decimal(text.len())))
            &&& member(short, "preview"@) == Some(Json::Text(text.take(max_chars as int)))
            &&& member(short, "truncated"@) == Some(Json::Bool(true))
            &&& short->Record_0.dom() == set!["sha256"@, "len_chars"@, "preview"@, "truncated"@]
        },
{
    reveal_strlit("sha256");
    reveal_strlit("len_chars");
    reveal_strlit("preview");
    reveal_strlit("truncated");
    assert("sha256"@.len() == 6 && "len_chars"@.len() == 9 && "preview"@.len() == 7
        && "truncated"@.len() == 9);
    assert("len_chars"@[0] == 'l' && "truncated"@[0] == 't');
    if text.len() > max_chars {
        assert(shortened(text, max_chars)->Record_0.dom() =~= set![
            "sha256"@,
            "len_chars"@,
            "preview"@,
            "truncated"@,
        ]);
    }
}

/// Redaction of a text: a redactable one gives way to the marker, and what is left is shortened.
pub proof fn law_redactable_texts_give_way_to_the_marker(text: Seq<char>, policy: TranscriptPolicy)
    requires
        !policy.unsafe_full_raw,
    ensures
        redactable(text, policy.redaction) ==> redacted(Json::Text(text), policy) == shortened(
            "[REDACTED]"@,
            policy.max_string_chars as nat,
        ),
        !redactable(text, policy.redaction) ==> redacted(Json::Text(text), policy) == shortened(
            text,
            policy.max_string_chars as nat,
        ),
{
}

/// Redaction works inside: item by item in a list, member by member in an object, but for the
/// members under secret keys; nulls, flags and numbers stay.
pub proof fn law_redaction_works_inside(
    items: Seq<Json>,
    i: int,
    map: Map<Seq<char>, Json>,
    key: Seq<char>,
    policy: TranscriptPolicy,
    leaf: Json,
)
    requires
        !policy.unsafe_full_raw,
        0 <= i < items.len(),
        map.contains_key(key),
        leaf is Null || leaf is Bool || leaf is Number,
    ensures
        redacted(Json::List(items), policy) is List,
        redacted(Json::List(items), policy)->List_0.len() == items.len(),
        redacted(Json::List(items), policy)->List_0[i] == redacted(items[i], policy),
        redacted(Json::Record(map), policy) is Record,
        redacted(Json::Record(map), policy)->Record_0.dom() == map.dom(),
        member(redacted(Json::Record(map), policy), key) == if policy.redaction
            != RedactionMode::Off && secret_key(key) {
            Some(Json::Text("[REDACTED]"@))
        } else {
            Some(redacted(map[key], policy))
        },
        redacted(leaf, policy) == leaf,
{
    assert(redacted(Json::Record(map), policy)->Record_0.dom() =~= map.dom());
}

/// A dropped payload is summarized by the hash and the length of its encoding.
pub proof fn law_dropped_payloads_leave_hash_and_length(payload: Json, bytes: Seq<u8>)
    requires
        json_encoding(payload) == Some(bytes),
    ensures
        member(payload_summary(payload), "sha256"@) == Some(Json::Text(sha256_text(bytes))),
        member(payload_summary(payload), "len_bytes"@) == Some(
            Json::Number(decimal(bytes.len())),
        ),
        member(payload_summary(payload), "dropped"@) == Some(Json::Bool(true)),
        payload_summary(payload)->Record_0.dom() == set!["sha256"@, "len_bytes"@, "dropped"@],
{
    reveal_strlit("sha256");
    reveal_strlit("len_bytes");
    reveal_strlit("dropped");
    assert("sha256"@.len() == 6 && "len_bytes"@.len() == 9 && "dropped"@.len() == 7);
    assert(payload_summary(payload)->Record_0.dom() =~= set!["sha256"@, "len_bytes"@, "dropped"@]);
}

/// A record over the cap loses its raw payload first; the normalized one stays if that suffices,
/// and goes too if it does not.
pub proof fn law_the_raw_payload_goes_first(record: Json, cap: nat, raw: Json, normalized: Json)
    requires
        encoded_bytes(record).len() > cap,
        member(record, "raw"@) == Some(raw),
        member(record, "normalized"@) == Some(normalized),
        raw != Json::Null,
        normalized != Json::Null,
    ensures
        ({
            let lighter = Json::Record(
                record->Record_0.insert("raw"@, payload_summary(raw)).insert(
                    "truncated"@,
                    Json::Bool(true),
                ),
            );
            &&& encoded_bytes(lighter).len() <= cap ==> capped(record, cap) == lighter
            &&& encoded_bytes(lighter).len() > cap ==> capped(record, cap) == Json::Record(
                lighter->Record_0.insert("normalized"@, payload_summary(normalized)).insert(
                    "truncated"@,
                    Json::Bool(true),
                ),
            )
        }),
{
    reveal_strlit("raw");
    reveal_strlit("normalized");
    reveal_strlit("truncated");
    assert("raw"@.len() == 3 && "normalized"@.len() == 10 && "truncated"@.len() == 9);
}

/// A value's size is that of its encoding, and none where it has no encoding.
pub proof fn law_sizes_are_those_of_the_encoding(json: Json)
    ensures
        json_encoding(json) is Some ==> encoded_bytes(json) == json_encoding(json)->0,
        json_encoding(json) is None ==> encoded_bytes(json).len() == 0,
{
}

/// What is written of a record is its object, redacted first and capped then.
pub proof fn law_records_are_redacted_before_they_are_capped(
    record: TranscriptRecord,
    policy: TranscriptPolicy,
)
    ensures
        kept_json(record, policy) == capped(
            redacted(record_json(record), policy),
            policy.max_bytes_per_record as nat,
        ),
{
}

proof fn lemma_record_keys()
    ensures
        seq![
            "v"@,
            "ts"@,
            "event"@,
            "request_id"@,
            "session_id"@,
            "trial_id"@,
            "wire_format"@,
            "tools_hash"@,
            "route_id"@,
            "selected_model"@,
            "tier"@,
            "streaming"@,
            "normalized"@,
            "raw"@,
            "error"@,
        ].no_duplicates(),
{
    reveal_strlit("v");
    reveal_strlit("ts");
    reveal_strlit("event");
    reveal_strlit("request_id");
    reveal_strlit("session_id");
    reveal_strlit("trial_id");
    reveal_strlit("wire_format");
    reveal_strlit("tools_hash");
    reveal_strlit("route_id");
    reveal_strlit("selected_model");
    reveal_strlit("tier");
    reveal_strlit("streaming");
    reveal_strlit("normalized");
    reveal_strlit("raw");
    reveal_strlit("error");
    assert("v"@.len() == 1 && "ts"@.len() == 2 && "raw"@.len() == 3 && "tier"@.len() == 4);
    assert("event"@.len() == 5 && "error"@.len() == 5 && "event"@[1] == 'v' && "error"@[1] == 'r');
    assert("trial_id"@.len() == 8 && "route_id"@.len() == 8 && "trial_id"@[0] == 't' && "route_id"@[0]
        == 'r');
    assert("streaming"@.len() == 9 && "wire_format"@.len() == 11 && "selected_model"@.len() == 14);
    assert("request_id"@.len() == 10 && "session_id"@.len() == 10 && "tools_hash"@.len() == 10
        && "normalized"@.len() == 10);
    assert("request_id"@[0] == 'r' && "session_id"@[0] == 's' && "tools_hash"@[0] == 't'
        && "normalized"@[0] == 'n');
}

/// The object of a record has each field under its name: the identifying ones always, an absent
/// session or trial as null, the others only where they are set.
#[verifier::rlimit(30)]
pub proof fn law_record_objects_have_each_field_under_its_name(record: TranscriptRecord)
    ensures
        ({
            let json = record_json(record);
            &&& member(json, "v"@) == Some(Json::Number(decimal(record.v as nat)))
            &&& member(json, "ts"@) == Some(Json::Text(record.ts@))
            &&& member(json, "event"@) == Some(Json::Text(event_name(record.event)))
            &&& member(json, "request_id"@) == Some(Json::Text(record.request_id@))
            &&& member(json, "wire_format"@) == Some(Json::Text(record.wire_format@))
            &&& member(json, "session_id"@) == match record.session_id {
                Some(id) => Some(Json::Text(id@)),
                None => Some(Json::Null),
            }
            &&& member(json, "trial_id"@) == match record.trial_id {
                Some(id) => Some(Json::Text(id@)),
                None => Some(Json::Null),
            }
            &&& member(json, "tools_hash"@) == match record.tools_hash {
                Some(text) => Some(Json::Text(text@)),
                None => None,
            }
            &&& member(json, "route_id"@) == match record.route_id {
                Some(text) => Some(Json::Text(text@)),
                None => None,
            }
            &&& member(json, "selected_model"@) == match record.selected_model {
                Some(text) => Some(Json::Text(text@)),
                None => None,
            }
            &&& member(json, "tier"@) == match record.tier {
                Some(text) => Some(Json::Text(text@)),
                None => None,
            }
            &&& member(json, "streaming"@) == match record.streaming {
                Some(on) => Some(Json::Bool(on)),
                None => None,
            }
            &&& member(json, "normalized"@) == match record.normalized {
                Some(value) => Some(json_of(value)),
                None => None,
            }
            &&& member(json, "raw"@) == match record.raw {
                Some(value) => Some(json_of(value)),
                None => None,
            }
            &&& member(json, "error"@) == match record.error {
                Some(value) => Some(json_of(value)),
                None => None,
            }
        }),
{
    lemma_record_keys();
    let keys = seq![
        "v"@,
        "ts"@,
        "event"@,
        "request_id"@,
        "session_id"@,
        "trial_id"@,
        "wire_format"@,
        "tools_hash"@,
        "route_id"@,
        "selected_model"@,
        "tier"@,
        "streaming"@,
        "normalized"@,
        "raw"@,
        "error"@,
    ];
    assert(forall|i: int, j: int| 0 <= i < 15 && 0 <= j < 15 && i != j ==> keys[i] != keys[j]);
    assert(keys[0] == "v"@ && keys[1] == "ts"@ && keys[2] == "event"@ && keys[3] == "request_id"@);
    assert(keys[4] == "session_id"@ && keys[5] == "trial_id"@ && keys[6] == "wire_format"@);
    assert(keys[7] == "tools_hash"@ && keys[8] == "route_id"@ && keys[9] == "selected_model"@);
    assert(keys[10] == "tier"@ && keys[11] == "streaming"@ && keys[12] == "normalized"@);
    assert(keys[13] == "raw"@ && keys[14] == "error"@);
}

/// Modes and events are written under their names in small letters.
pub proof fn law_names_of_modes_and_events()
    ensures
        mode_name(RedactionMode::Strict) == "strict"@,
        mode_name(RedactionMode::Balanced) == "balanced"@,
        mode_name(RedactionMode::Off) == "off"@,
        event_name(TranscriptEventKind::NormalizedRequest) == "normalized_request"@,
        event_name(TranscriptEventKind::ProviderRequest) == "provider_request"@,
        event_name(TranscriptEventKind::ProviderResponse) == "provider_response"@,
        event_name(TranscriptEventKind::NormalizedResponse) == "normalized_response"@,
        event_name(TranscriptEventKind::Error) == "error"@,
        bool_text(true) == "true"@,
        bool_text(false) == "false"@,
{
}

/// Warnings thin out: one is a power of two, twice a positive number is one exactly if the number
/// is, and no other odd number is.
pub proof fn law_warnings_thin_out(n: int)
    requires
        n > 0,
    ensures
        power_of_two(1),
        power_of_two(2 * n) <==> power_of_two(n),
        n % 2 == 1 && n > 1 ==> !power_of_two(n),
{
    vstd::arithmetic::power2::lemma2_to64();
    assert(1 == vstd::arithmetic::power2::pow2(0));
    if power_of_two(n) {
        let k = choose|k: nat| n == #[trigger] vstd::arithmetic::power2::pow2(k);
        vstd::arithmetic::power2::lemma_pow2_unfold(k + 1);
        assert(2 * n == vstd::arithmetic::power2::pow2(k + 1));
        if k > 0 {
            vstd::arithmetic::power2::lemma_pow2_unfold(k);
        }
    }
    if power_of_two(2 * n) {
        let k = choose|k: nat| 2 * n == #[trigger] vstd::arithmetic::power2::pow2(k);
        if k > 0 {
            vstd::arithmetic::power2::lemma_pow2_unfold(k);
            assert(n == vstd::arithmetic::power2::pow2((k - 1) as nat));
        }
    }
}

} // verus!
