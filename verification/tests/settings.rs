//! Joining command-line and file settings, and text predicates.

use switchyard::settings::{
    resolve_logs, resolve_tls, transcript_file_name, CommandLineLogs, FileLogs, TranscriptPlace,
    DEFAULT_TRANSCRIPT_BYTES,
};
use switchyard::tables::text_before;
use switchyard::text::{is_blank, is_unpadded};

fn line(routing: Option<&'static str>, transcript: Option<&'static str>) -> CommandLineLogs<&'static str> {
    CommandLineLogs {
        routing_log_file: routing,
        transcript_log_file: transcript,
        transcript_redaction: "strict".to_string(),
        transcript_unsafe_full_raw: false,
        transcript_max_bytes_per_record: DEFAULT_TRANSCRIPT_BYTES,
    }
}

fn file(routing: Option<&'static str>, transcript: Option<&'static str>) -> FileLogs<&'static str> {
    FileLogs {
        routing_log_file: routing,
        transcript_log_file: transcript,
        transcript_redaction: Some("balanced".to_string()),
        transcript_unsafe_full_raw: Some(true),
        transcript_max_bytes_per_record: Some(1_024),
    }
}

#[test]
fn the_command_line_wins_over_the_file() {
    let settings = resolve_logs(line(Some("a"), Some("b")), file(Some("c"), Some("d")));
    assert_eq!(settings.routing, Some("a"));
    let transcript = settings.transcript.unwrap();
    assert!(matches!(transcript.place, TranscriptPlace::At("b")));
    // Redaction and size are at their defaults, so the file's count.
    assert_eq!(transcript.redaction, "balanced");
    assert_eq!(transcript.max_bytes, 1_024);
    assert!(transcript.unsafe_full_raw);

    let explicit = CommandLineLogs {
        transcript_redaction: "off".to_string(),
        transcript_max_bytes_per_record: 7,
        ..line(None, None)
    };
    let settings = resolve_logs(explicit, file(None, Some("d")));
    let transcript = settings.transcript.unwrap();
    assert!(matches!(transcript.place, TranscriptPlace::At("d")));
    assert_eq!(transcript.redaction, "off");
    assert_eq!(transcript.max_bytes, 7);
}

#[test]
fn transcripts_go_beside_the_routing_log_unless_told() {
    let plain = || FileLogs {
        transcript_redaction: None,
        transcript_unsafe_full_raw: None,
        transcript_max_bytes_per_record: None,
        ..file(None, None)
    };
    let settings = resolve_logs(line(Some("a"), None), plain());
    let transcript = settings.transcript.unwrap();
    assert!(matches!(transcript.place, TranscriptPlace::BesideRoutingLog));
    assert_eq!(transcript.redaction, "strict");
    assert!(!transcript.unsafe_full_raw);
    assert_eq!(transcript.max_bytes, 262_144);
    assert!(resolve_logs(line(None, None), plain()).transcript.is_none());
}

#[test]
fn tls_needs_both_files() {
    assert!(matches!(
        resolve_tls(Some(("cert", true)), Some(("key", true))),
        Ok(Some(options)) if options.cert == "cert" && options.key == "key"
    ));
    assert!(matches!(
        resolve_tls(Some(("cert", true)), Some(("key", false))),
        Err(("cert", "key"))
    ));
    assert!(matches!(resolve_tls(Some(("cert", true)), None), Ok(None)));
}

#[test]
fn white_space_is_that_of_unicode() {
    for n in 0..=0x10_FFFFu32 {
        if let Some(c) = char::from_u32(n) {
            let text = c.to_string();
            assert_eq!(is_blank(&text), text.trim().is_empty(), "{n:x}");
        }
    }
    for text in ["", "a", " a", "a ", "a b", "\u{a0}a", "a\u{2003}"] {
        assert_eq!(is_unpadded(text), text.trim() == text, "{text:?}");
    }
}

#[test]
fn texts_are_ordered_as_strings_are() {
    let texts = ["", "a", "aa", "b", "\u{e9}", "\u{ffff}", "\u{10000}", "Z"];
    for a in texts {
        for b in texts {
            assert_eq!(text_before(a, b), a < b, "{a:?} {b:?}");
        }
    }
}

#[test]
fn transcripts_beside_the_routing_log_have_a_fixed_name() {
    assert_eq!(transcript_file_name(), "routing.transcript.jsonl");
}
