//! Why a route could not be built or run.

use vstd::prelude::*;

use crate::binary64::Binary64;
use crate::model::{text_option, ModelId};

verus! {

/// Why a classifier could not be built.
#[derive(Debug, PartialEq)]
pub enum AlgorithmError {
    /// The base threshold is not between 0 and 1.
    BaseThreshold { got: Binary64 },
    /// The threshold step is not finite or is negative.
    ThresholdStep { got: Binary64 },
    /// The threshold of an unsupported task exceeds 1.
    UnsupportedThreshold { got: Binary64 },
    /// A judge is granted no completion tokens.
    MaxOutputTokens,
    /// Message-hash affinity is on while session affinity is off.
    MessageHashWithoutAffinity,
    /// Confidence zones need a capability ladder.
    ZonesWithoutLadder,
    /// The bandit correction needs confidence zones.
    BanditWithoutZones,
    /// One rung is not a ladder.
    LadderTooShort,
    /// A rung's capability is not between 0 and 1.
    RungCapability { target: ModelId, got: Binary64 },
    /// A zone threshold is not between 0 and 1.
    ZoneThresholds { low: Binary64, high: Binary64 },
    /// The low zone threshold exceeds the high one.
    ZoneOrder { low: Binary64, high: Binary64 },
    /// A fan-out calls no rung.
    ZoneFanOut,
    /// The output judge is granted no completion tokens.
    OutputJudgeMaxOutputTokens,
    /// A judge contract did not compile.
    Contract { message: String },
    /// A custom classifier has fewer than two targets.
    TooFewTargets,
    /// A target label is blank or has surrounding white space.
    PaddedLabel,
    /// Two targets have the same label.
    DuplicateLabel { label: String },
    /// Two labels have the same target.
    DuplicateTarget { target: ModelId },
    /// The default label is none of the configured ones.
    UnknownDefault { label: String },
    /// The policy selector is not a JSON Pointer; the message says why.
    InvalidSelector { message: String },
    /// The policy selector names the whole verdict instead of a field.
    RootSelector,
    /// The fallback target is none of the route's targets.
    DefaultNotRouted { target: ModelId },
}

/// The text of an error that shows neither a double nor a quoted name.
pub open spec fn plain_text(error: AlgorithmError) -> Option<Seq<char>> {
    match error {
        AlgorithmError::MaxOutputTokens => Some("max_output_tokens must be at least 1"@),
        AlgorithmError::MessageHashWithoutAffinity => Some(
            "message_hash_fallback requires session_affinity"@,
        ),
        AlgorithmError::ZonesWithoutLadder => Some(
            "capability_zones requires a capability_targets ladder"@,
        ),
        AlgorithmError::BanditWithoutZones => Some("bandit correction requires capability_zones"@),
        AlgorithmError::LadderTooShort => Some("capability_targets requires at least two rungs"@),
        AlgorithmError::ZoneFanOut => Some("zone fan_out must be at least 1"@),
        AlgorithmError::OutputJudgeMaxOutputTokens => Some(
            "output judge max_output_tokens must be at least 1"@,
        ),
        AlgorithmError::Contract { message } => Some(message@),
        AlgorithmError::TooFewTargets => Some("custom classifier requires at least two targets"@),
        AlgorithmError::PaddedLabel => Some(
            "custom classifier target labels must be non-empty and have no surrounding whitespace"@,
        ),
        AlgorithmError::InvalidSelector { message } => Some(message@),
        AlgorithmError::RootSelector => Some("policy selector must identify a response field"@),
        _ => None,
    }
}

impl AlgorithmError {
    /// The text of an error that shows neither a double nor a quoted name.
    pub fn plain_message(&self) -> (text: Option<String>)
        ensures
            text_option(text) == plain_text(*self),
    {
        let text: &str = match self {
            AlgorithmError::MaxOutputTokens => "max_output_tokens must be at least 1",
            AlgorithmError::MessageHashWithoutAffinity =>
            "message_hash_fallback requires session_affinity",
            AlgorithmError::ZonesWithoutLadder =>
            "capability_zones requires a capability_targets ladder",
            AlgorithmError::BanditWithoutZones => "bandit correction requires capability_zones",
            AlgorithmError::LadderTooShort => "capability_targets requires at least two rungs",
            AlgorithmError::ZoneFanOut => "zone fan_out must be at least 1",
            AlgorithmError::OutputJudgeMaxOutputTokens =>
            "output judge max_output_tokens must be at least 1",
            AlgorithmError::Contract { message } => message.as_str(),
            AlgorithmError::TooFewTargets => "custom classifier requires at least two targets",
            AlgorithmError::PaddedLabel =>
            "custom classifier target labels must be non-empty and have no surrounding whitespace",
            AlgorithmError::InvalidSelector { message } => message.as_str(),
            AlgorithmError::RootSelector => "policy selector must identify a response field",
            _ => {
                return None;
            },
        };
        Some(text.to_owned())
    }
}

/// The texts of the errors that show neither a double nor a quoted name.
pub proof fn law_texts_of_errors(message: String)
    ensures
        plain_text(AlgorithmError::MaxOutputTokens) == Some(
            "max_output_tokens must be at least 1"@,
        ),
        plain_text(AlgorithmError::MessageHashWithoutAffinity) == Some(
            "message_hash_fallback requires session_affinity"@,
        ),
        plain_text(AlgorithmError::ZonesWithoutLadder) == Some(
            "capability_zones requires a capability_targets ladder"@,
        ),
        plain_text(AlgorithmError::BanditWithoutZones) == Some(
            "bandit correction requires capability_zones"@,
        ),
        plain_text(AlgorithmError::LadderTooShort) == Some(
            "capability_targets requires at least two rungs"@,
        ),
        plain_text(AlgorithmError::ZoneFanOut) == Some("zone fan_out must be at least 1"@),
        plain_text(AlgorithmError::OutputJudgeMaxOutputTokens) == Some(
            "output judge max_output_tokens must be at least 1"@,
        ),
        plain_text(AlgorithmError::Contract { message }) == Some(message@),
        plain_text(AlgorithmError::TooFewTargets) == Some(
            "custom classifier requires at least two targets"@,
        ),
        plain_text(AlgorithmError::PaddedLabel) == Some(
            "custom classifier target labels must be non-empty and have no surrounding whitespace"@,
        ),
        plain_text(AlgorithmError::InvalidSelector { message }) == Some(message@),
        plain_text(AlgorithmError::RootSelector) == Some(
            "policy selector must identify a response field"@,
        ),
{
}

} // verus!
