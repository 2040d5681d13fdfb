//! Requests to a model.

use vstd::prelude::*;

use crate::headers::{copy_headers, header_values};
use crate::json::{json_of, Json};
use crate::messages::{copy_blocks, turns_of, ContentBlock, Message, Role, Turn};
use crate::messages::blocks_of;
use crate::model::text_option;

verus! {

/// Facts about a request that are not sent to the model.
pub struct Metadata {
    pub session_id: Option<String>,
    pub correlation_id: Option<String>,
    pub http_headers: Option<http::HeaderMap<http::HeaderValue>>,
    /// Named texts that routing stages attach to a request.
    pub extra_metadata: Option<Vec<(String, String)>>,
}

/// A system or developer instruction.
#[derive(Debug, PartialEq)]
pub struct InstructionBlock {
    pub role: Role,
    pub content: Vec<ContentBlock>,
}

/// Limits and format of the completion.
#[derive(Debug, PartialEq)]
pub struct OutputParams {
    pub max_output_tokens: Option<u64>,
    pub response_format: Option<serde_json::Value>,
}

/// What is sent to a model.
#[derive(Debug, PartialEq)]
pub struct LlmRequest {
    pub model: Option<String>,
    pub instructions: Vec<InstructionBlock>,
    pub messages: Vec<Message>,
    pub output: OutputParams,
    pub stream: bool,
}

/// A request on its way through the router.
pub struct Request {
    pub llm_request: LlmRequest,
    pub raw_request: Option<serde_json::Value>,
    pub metadata: Option<Metadata>,
}

/// What a request's metadata holds.
#[verifier::ext_equal]
pub struct Facts {
    pub session_id: Option<Seq<char>>,
    pub correlation_id: Option<Seq<char>>,
    /// All values under each header name.
    pub headers: Option<Map<Seq<char>, Seq<Seq<u8>>>>,
    pub extra: Option<Seq<(Seq<char>, Seq<char>)>>,
}

/// What is asked of a model.
#[verifier::ext_equal]
pub struct Ask {
    pub model: Option<Seq<char>>,
    pub instructions: Seq<Turn>,
    pub turns: Seq<Turn>,
    pub max_output_tokens: Option<u64>,
    pub response_format: Option<Json>,
    pub stream: bool,
}

/// The texts of a list of named texts.
pub open spec fn entries_of(entries: Seq<(String, String)>) -> Seq<(Seq<char>, Seq<char>)> {
    entries.map_values(|entry: (String, String)| (entry.0@, entry.1@))
}

/// The contents of an optional JSON value.
pub open spec fn json_option(value: Option<serde_json::Value>) -> Option<Json> {
    match value {
        Some(value) => Some(json_of(value)),
        None => None,
    }
}

impl View for Metadata {
    type V = Facts;

    open spec fn view(&self) -> Facts {
        Facts {
            session_id: text_option(self.session_id),
            correlation_id: text_option(self.correlation_id),
            headers: match self.http_headers {
                Some(headers) => Some(header_values(headers)),
                None => None,
            },
            extra: match self.extra_metadata {
                Some(entries) => Some(entries_of(entries@)),
                None => None,
            },
        }
    }
}

impl View for InstructionBlock {
    type V = Turn;

    open spec fn view(&self) -> Turn {
        Turn { role: self.role, content: blocks_of(self.content@) }
    }
}

impl View for LlmRequest {
    type V = Ask;

    open spec fn view(&self) -> Ask {
        Ask {
            model: text_option(self.model),
            instructions: self.instructions@.map_values(|block: InstructionBlock| block@),
            turns: turns_of(self.messages@),
            max_output_tokens: self.output.max_output_tokens,
            response_format: json_option(self.output.response_format),
            stream: self.stream,
        }
    }
}

/// What an optional metadata record holds.
pub open spec fn facts_option(metadata: Option<Metadata>) -> Option<Facts> {
    match metadata {
        Some(metadata) => Some(metadata@),
        None => None,
    }
}

/// A copy of an optional text.
pub(crate) fn copy_text(text: &Option<String>) -> (copy: Option<String>)
    ensures
        copy == *text,
{
    match text {
        Some(text) => Some(text.clone()),
        None => None,
    }
}

impl Metadata {
    /// A copy of this metadata.
    pub fn copy(&self) -> (copy: Metadata)
        ensures
            copy@ == self@,
    {
        let http_headers = match &self.http_headers {
            Some(headers) => Some(copy_headers(headers)),
            None => None,
        };
        let extra_metadata = match &self.extra_metadata {
            Some(entries) => {
                let mut copy: Vec<(String, String)> = Vec::new();
                let mut i: usize = 0;
                while i < entries.len()
                    invariant
                        i <= entries@.len(),
                        copy@ == entries@.take(i as int),
                    decreases entries.len() - i,
                {
                    copy.push((entries[i].0.clone(), entries[i].1.clone()));
                    assert(copy@ =~= entries@.take(i + 1));
                    i = i + 1;
                }
                assert(copy@ =~= entries@);
                Some(copy)
            },
            None => None,
        };
        Metadata {
            session_id: copy_text(&self.session_id),
            correlation_id: copy_text(&self.correlation_id),
            http_headers,
            extra_metadata,
        }
    }
}

impl InstructionBlock {
    /// A copy of this instruction.
    fn copy(&self) -> (copy: InstructionBlock)
        ensures
            copy@ == self@,
    {
        InstructionBlock { role: self.role, content: copy_blocks(&self.content) }
    }
}

impl LlmRequest {
    /// A request without instructions, messages or limits.
    pub fn empty() -> (request: LlmRequest)
        ensures
            request@ == (Ask {
                model: None,
                instructions: Seq::empty(),
                turns: Seq::empty(),
                max_output_tokens: None,
                response_format: None,
                stream: false,
            }),
    {
        let request = LlmRequest {
            model: None,
            instructions: Vec::new(),
            messages: Vec::new(),
            output: OutputParams { max_output_tokens: None, response_format: None },
            stream: false,
        };
        assert(request@.instructions =~= Seq::empty());
        assert(request@.turns =~= Seq::empty());
        request
    }

    /// A copy of this request.
    pub fn copy(&self) -> (copy: LlmRequest)
        ensures
            copy@ == self@,
    {
        let mut instructions: Vec<InstructionBlock> = Vec::new();
        let mut i: usize = 0;
        while i < self.instructions.len()
            invariant
                i <= self.instructions@.len(),
                instructions@.len() == i,
                forall|j: int|
                    0 <= j < i ==> (#[trigger] instructions@[j])@ == self.instructions@[j]@,
            decreases self.instructions.len() - i,
        {
            instructions.push(self.instructions[i].copy());
            i = i + 1;
        }
        let mut messages: Vec<Message> = Vec::new();
        let mut k: usize = 0;
        while k < self.messages.len()
            invariant
                k <= self.messages@.len(),
                messages@.len() == k,
                forall|j: int| 0 <= j < k ==> (#[trigger] messages@[j])@ == self.messages@[j]@,
            decreases self.messages.len() - k,
        {
            messages.push(self.messages[k].copy());
            k = k + 1;
        }
        let response_format = match &self.output.response_format {
            Some(format) => Some(format.clone()),
            None => None,
        };
        let copy = LlmRequest {
            model: copy_text(&self.model),
            instructions,
            messages,
            output: OutputParams {
                max_output_tokens: self.output.max_output_tokens,
                response_format,
            },
            stream: self.stream,
        };
        assert(copy@.instructions =~= self@.instructions);
        assert(copy@.turns =~= self@.turns);
        copy
    }
}

impl Request {
    /// A copy of this request.
    pub fn copy(&self) -> (copy: Request)
        ensures
            copy.llm_request@ == self.llm_request@,
            json_option(copy.raw_request) == json_option(self.raw_request),
            facts_option(copy.metadata) == facts_option(self.metadata),
    {
        let raw_request = match &self.raw_request {
            Some(raw) => Some(raw.clone()),
            None => None,
        };
        let metadata = match &self.metadata {
            Some(metadata) => Some(metadata.copy()),
            None => None,
        };
        Request { llm_request: self.llm_request.copy(), raw_request, metadata }
    }
}

// ── Laws ────────────────────────────────────────────────────────────────────

/// What is asked of a model holds every part of the request: two requests that ask the same have
/// the same model, instructions, messages, limit, format and streaming.
pub proof fn law_asks_hold_every_part(request: LlmRequest, i: int)
    ensures
        request@.model == text_option(request.model),
        request@.instructions.len() == request.instructions@.len(),
        0 <= i < request.instructions@.len() ==> request@.instructions[i].role
            == request.instructions@[i].role && request@.instructions[i].content == blocks_of(
            request.instructions@[i].content@,
        ),
        request@.turns.len() == request.messages@.len(),
        0 <= i < request.messages@.len() ==> request@.turns[i].role == request.messages@[i].role
            && request@.turns[i].content == blocks_of(request.messages@[i].content@),
        request@.max_output_tokens == request.output.max_output_tokens,
        request@.response_format == json_option(request.output.response_format),
        request@.stream == request.stream,
{
}

/// The facts about a request hold every part of its metadata.
pub proof fn law_facts_hold_every_part(metadata: Metadata, i: int)
    ensures
        metadata@.session_id == text_option(metadata.session_id),
        metadata@.correlation_id == text_option(metadata.correlation_id),
        metadata@.headers is Some <==> metadata.http_headers is Some,
        metadata.http_headers is Some ==> metadata@.headers->0 == header_values(
            metadata.http_headers->0,
        ),
        metadata@.extra is Some <==> metadata.extra_metadata is Some,
        metadata.extra_metadata is Some ==> metadata@.extra->0.len()
            == metadata.extra_metadata->0@.len() && (0 <= i < metadata@.extra->0.len()
            ==> metadata@.extra->0[i] == (
            metadata.extra_metadata->0@[i].0@,
            metadata.extra_metadata->0@[i].1@,
        )),
{
}

/// An optional part holds what it is given, and nothing where nothing is given.
pub proof fn law_views_of_optional_parts(metadata: Metadata, value: serde_json::Value, text: String)
    ensures
        facts_option(Some(metadata)) == Some(metadata@),
        facts_option(None) is None,
        json_option(Some(value)) == Some(json_of(value)),
        json_option(None) is None,
        text_option(Some(text)) == Some(text@),
        text_option(None) is None,
{
}

} // verus!
