//! How command-line and file settings of the server are joined.
//!
//! `P` stands for a path of the host.

use vstd::prelude::*;

use crate::text::same_text;

verus! {

/// Transcript bytes retained per record unless configured otherwise.
pub const DEFAULT_TRANSCRIPT_BYTES: usize = 262_144;

/// Log settings given on the command line.
pub struct CommandLineLogs<P> {
    pub routing_log_file: Option<P>,
    pub transcript_log_file: Option<P>,
    /// `strict` unless given.
    pub transcript_redaction: String,
    pub transcript_unsafe_full_raw: bool,
    /// The default unless given.
    pub transcript_max_bytes_per_record: usize,
}

/// Log settings given in the configuration file.
pub struct FileLogs<P> {
    pub routing_log_file: Option<P>,
    pub transcript_log_file: Option<P>,
    pub transcript_redaction: Option<String>,
    pub transcript_unsafe_full_raw: Option<bool>,
    pub transcript_max_bytes_per_record: Option<usize>,
}

/// The name of the transcript log in the routing log's directory.
pub fn transcript_file_name() -> (name: &'static str)
    ensures
        name@ == "routing.transcript.jsonl"@,
{
    "routing.transcript.jsonl"
}

/// Where transcripts are appended.
pub enum TranscriptPlace<P> {
    At(P),
    /// In the routing log's directory, under [`transcript_file_name`].
    BesideRoutingLog,
}

/// How transcripts are written.
pub struct TranscriptSettings<P> {
    pub place: TranscriptPlace<P>,
    pub redaction: String,
    pub unsafe_full_raw: bool,
    pub max_bytes: usize,
}

/// The joined log settings.
pub struct LogSettings<P> {
    pub routing: Option<P>,
    pub transcript: Option<TranscriptSettings<P>>,
}

/// The first of two optional settings that is given.
pub open spec fn given<T>(first: Option<T>, second: Option<T>) -> Option<T> {
    match first {
        Some(value) => Some(value),
        None => second,
    }
}

/// The redaction mode: the file's counts only where the command line is at its default.
pub open spec fn redaction_of(line: String, file: Option<String>) -> String {
    match file {
        Some(mode) => if line@ == "strict"@ {
            mode
        } else {
            line
        },
        None => line,
    }
}

/// The bytes per record: the file's count only where the command line is at its default.
pub open spec fn max_bytes_of(line: usize, file: Option<usize>) -> usize {
    match file {
        Some(bytes) => if line != DEFAULT_TRANSCRIPT_BYTES {
            line
        } else {
            bytes
        },
        None => line,
    }
}

/// Where transcripts go: where told, else beside the routing log, else nowhere.
pub open spec fn place_of<P>(told: Option<P>, routing: bool) -> Option<TranscriptPlace<P>> {
    match told {
        Some(path) => Some(TranscriptPlace::At(path)),
        None => if routing {
            Some(TranscriptPlace::BesideRoutingLog)
        } else {
            None
        },
    }
}

/// Joins the log settings of the command line with those of the configuration file.
pub fn resolve_logs<P>(line: CommandLineLogs<P>, file: FileLogs<P>) -> (settings: LogSettings<P>)
    ensures
        settings.routing == given(line.routing_log_file, file.routing_log_file),
        match place_of(
            given(line.transcript_log_file, file.transcript_log_file),
            given(line.routing_log_file, file.routing_log_file) is Some,
        ) {
            Some(place) => settings.transcript == Some(
                TranscriptSettings {
                    place,
                    redaction: redaction_of(line.transcript_redaction, file.transcript_redaction),
                    unsafe_full_raw: line.transcript_unsafe_full_raw
                        || file.transcript_unsafe_full_raw == Some(true),
                    max_bytes: max_bytes_of(
                        line.transcript_max_bytes_per_record,
                        file.transcript_max_bytes_per_record,
                    ),
                },
            ),
            None => settings.transcript is None,
        },
{
    let routing = match line.routing_log_file {
        Some(path) => Some(path),
        None => file.routing_log_file,
    };
    let told = match line.transcript_log_file {
        Some(path) => Some(path),
        None => file.transcript_log_file,
    };
    let place = match told {
        Some(path) => Some(TranscriptPlace::At(path)),
        None => if routing.is_some() {
            Some(TranscriptPlace::BesideRoutingLog)
        } else {
            None
        },
    };
    let transcript = match place {
        Some(place) => {
            let redaction = match file.transcript_redaction {
                Some(mode) => if same_text(line.transcript_redaction.as_str(), "strict") {
                    mode
                } else {
                    line.transcript_redaction
                },
                None => line.transcript_redaction,
            };
            let max_bytes: usize = match file.transcript_max_bytes_per_record {
                Some(bytes) => if line.transcript_max_bytes_per_record != DEFAULT_TRANSCRIPT_BYTES {
                    line.transcript_max_bytes_per_record
                } else {
                    bytes
                },
                None => line.transcript_max_bytes_per_record,
            };
            let unsafe_full_raw = line.transcript_unsafe_full_raw || match file.transcript_unsafe_full_raw {
                Some(on) => on,
                None => false,
            };
            Some(TranscriptSettings { place, redaction, unsafe_full_raw, max_bytes })
        },
        None => None,
    };
    LogSettings { routing, transcript }
}

/// A certificate and key with which connections are served.
pub struct TlsOptions<P> {
    pub cert: P,
    pub key: P,
}

/// Joins certificate and key, each with whether its file exists.
///
/// Nothing is served over TLS unless both are given. If one of the files is missing, both paths
/// come back as the error.
pub fn resolve_tls<P>(cert: Option<(P, bool)>, key: Option<(P, bool)>) -> (r: Result<
    Option<TlsOptions<P>>,
    (P, P),
>)
    ensures
        r == match (cert, key) {
            (Some(cert), Some(key)) => if cert.1 && key.1 {
                Ok::<Option<TlsOptions<P>>, (P, P)>(Some(TlsOptions { cert: cert.0, key: key.0 }))
            } else {
                Err((cert.0, key.0))
            },
            _ => Ok(None),
        },
{
    match (cert, key) {
        (Some((cert, cert_exists)), Some((key, key_exists))) => if cert_exists && key_exists {
            Ok(Some(TlsOptions { cert, key }))
        } else {
            Err((cert, key))
        },
        _ => Ok(None),
    }
}

// ── Laws ────────────────────────────────────────────────────────────────────

/// The command line goes before the file: the file's value counts only where the command line
/// gives none.
pub proof fn law_the_command_line_goes_first<T>(line: T, file: Option<T>)
    ensures
        given(Some(line), file) == Some(line),
        given(None, file) == file,
{
}

/// The file's redaction mode and size count exactly where the command line is at its default.
pub proof fn law_defaults_give_way_to_the_file(
    line: String,
    mode: String,
    size: usize,
    bytes: usize,
)
    ensures
        line@ == "strict"@ ==> redaction_of(line, Some(mode)) == mode,
        line@ != "strict"@ ==> redaction_of(line, Some(mode)) == line,
        redaction_of(line, None) == line,
        size == 262_144 ==> max_bytes_of(size, Some(bytes)) == bytes,
        size != 262_144 ==> max_bytes_of(size, Some(bytes)) == size,
        max_bytes_of(size, None) == size,
{
}

/// Transcripts go where they are told to, else beside the routing log if there is one.
pub proof fn law_transcripts_follow_the_routing_log<P>(path: P, routing: bool)
    ensures
        place_of(Some(path), routing) == Some(TranscriptPlace::At(path)),
        place_of::<P>(None, true) == Some(TranscriptPlace::<P>::BesideRoutingLog),
        place_of::<P>(None, false) is None,
{
}

} // verus!
