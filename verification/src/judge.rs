//! Judge contracts, and the structured requests that judges are sent.

use vstd::prelude::*;

use crate::json::json_of;
use crate::messages::{turns_of, Block, Message, Role, Turn};
use crate::request::{
    copy_text, facts_option, json_option, Ask, InstructionBlock, LlmRequest, OutputParams, Request,
};

verus! {

/// Completion tokens granted to a judge's verdict unless configured otherwise.
pub const DEFAULT_JUDGE_MAX_OUTPUT_TOKENS: u64 = 1_024;

/// How a judge is asked to shape its verdict.
#[derive(Clone, Copy, Debug, PartialEq, Eq, Structural)]
pub enum ClassifierResponseFormat {
    JsonSchema,
    JsonObject,
}

impl Default for ClassifierResponseFormat {
    fn default() -> (format: Self)
        ensures
            format == ClassifierResponseFormat::JsonSchema,
    {
        ClassifierResponseFormat::JsonSchema
    }
}

/// Prompt and verdict settings of a judge, before they are compiled.
#[derive(Debug, PartialEq)]
pub struct ClassifierContractConfig {
    /// Replaces the packaged prompt.
    pub prompt: Option<String>,
    pub response_format_type: ClassifierResponseFormat,
}

impl Default for ClassifierContractConfig {
    fn default() -> (config: Self)
        ensures
            config == (ClassifierContractConfig {
                prompt: None,
                response_format_type: ClassifierResponseFormat::JsonSchema,
            }),
    {
        ClassifierContractConfig {
            prompt: None,
            response_format_type: ClassifierResponseFormat::JsonSchema,
        }
    }
}

impl ClassifierContractConfig {
    /// These settings with `prompt` in place of the packaged one.
    pub fn with_prompt(self, prompt: String) -> (config: Self)
        ensures
            config == (ClassifierContractConfig { prompt: Some(prompt), ..self }),
    {
        ClassifierContractConfig {
            prompt: Some(prompt),
            response_format_type: self.response_format_type,
        }
    }

    /// These settings with another response format.
    pub fn with_response_format_type(self, response_format_type: ClassifierResponseFormat) -> (config:
        Self)
        ensures
            config == (ClassifierContractConfig { response_format_type, ..self }),
    {
        ClassifierContractConfig { prompt: self.prompt, response_format_type }
    }
}

/// A compiled judge contract: the rendered prompt and the response format to request.
#[derive(Debug, PartialEq)]
pub struct ClassifierContract {
    pub system_prompt: String,
    pub response_format: serde_json::Value,
}

/// A turn holding one text.
pub open spec fn text_turn(role: Role, text: Seq<char>) -> Turn {
    Turn { role, content: seq![Block::Text(text)] }
}

/// What a judge is asked: the contract's prompt as the only instruction, `turns`, and a verdict
/// in the contract's format of at most `max_output_tokens`, not streamed.
pub open spec fn judge_ask(
    model: Option<Seq<char>>,
    turns: Seq<Turn>,
    contract: ClassifierContract,
    max_output_tokens: u64,
) -> Ask {
    Ask {
        model,
        instructions: seq![text_turn(Role::System, contract.system_prompt@)],
        turns,
        max_output_tokens: Some(max_output_tokens),
        response_format: Some(json_of(contract.response_format)),
        stream: false,
    }
}

/// The request by which a judge is shown `messages` of `request`.
pub fn judge_request(
    request: &Request,
    messages: Vec<Message>,
    contract: &ClassifierContract,
    max_output_tokens: u64,
) -> (judged: Request)
    ensures
        judged.llm_request@ == judge_ask(
            request.llm_request@.model,
            turns_of(messages@),
            *contract,
            max_output_tokens,
        ),
        judged.raw_request is None,
        facts_option(judged.metadata) == facts_option(request.metadata),
{
    let mut instructions: Vec<InstructionBlock> = Vec::new();
    let prompt = Message::text(Role::System, contract.system_prompt.as_str());
    instructions.push(InstructionBlock { role: Role::System, content: prompt.content });
    let metadata = match &request.metadata {
        Some(metadata) => Some(metadata.copy()),
        None => None,
    };
    let judged = Request {
        llm_request: LlmRequest {
            model: copy_text(&request.llm_request.model),
            instructions,
            messages,
            output: OutputParams {
                max_output_tokens: Some(max_output_tokens),
                response_format: Some(contract.response_format.clone()),
            },
            stream: false,
        },
        raw_request: None,
        metadata,
    };
    assert(judged.llm_request@.instructions =~= seq![
        text_turn(Role::System, contract.system_prompt@),
    ]);
    assert(json_option(judged.llm_request.output.response_format) == Some(
        json_of(contract.response_format),
    ));
    judged
}

// ── Laws ────────────────────────────────────────────────────────────────────

/// A judge is asked with the request's model, the contract's prompt as its only instruction, the
/// shown turns as they are, the granted tokens and the contract's format, not streamed.
pub proof fn law_judges_are_asked_by_their_contract(
    model: Option<Seq<char>>,
    turns: Seq<Turn>,
    contract: ClassifierContract,
    max_output_tokens: u64,
)
    ensures
        ({
            let ask = judge_ask(model, turns, contract, max_output_tokens);
            &&& ask.model == model
            &&& ask.instructions.len() == 1
            &&& ask.instructions[0].role == Role::System
            &&& ask.instructions[0].content == seq![Block::Text(contract.system_prompt@)]
            &&& ask.turns == turns
            &&& ask.max_output_tokens == Some(max_output_tokens)
            &&& ask.response_format == Some(json_of(contract.response_format))
            &&& !ask.stream
        }),
{
}

/// A text turn says just its text.
pub proof fn law_text_turns_say_their_text(role: Role, text: Seq<char>)
    ensures
        text_turn(role, text).role == role,
        text_turn(role, text).content == seq![Block::Text(text)],
{
}

} // verus!
