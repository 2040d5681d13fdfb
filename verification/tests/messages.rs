//! Which messages a judge is shown.

use serde_json::Value;
use switchyard::judge::{judge_request, ClassifierContract, DEFAULT_JUDGE_MAX_OUTPUT_TOKENS};
use switchyard::messages::{
    task_messages, trim_messages, window_start, ContentBlock, Message, Role, TaskInput, ToolCall,
    ToolResult,
};
use switchyard::request::{InstructionBlock, LlmRequest, Metadata, Request};

fn judged_contents(recent_turn_window: usize) -> Vec<String> {
    let messages = vec![
        Message::text(Role::System, "client instructions"),
        Message::text(Role::User, "initial task"),
        Message::text(Role::Assistant, "old response"),
        Message::text(Role::User, "old follow-up"),
        Message::text(Role::Assistant, "recent 1"),
        Message::text(Role::User, "recent 2"),
    ];
    let input = TaskInput {
        recent_turn_window: Some(recent_turn_window),
    };
    input
        .build_messages(&messages)
        .iter()
        .filter_map(|message| message.text_content("\n"))
        .collect()
}

#[test]
fn a_window_widens_the_judge_to_the_surrounding_conversation() {
    // Client instructions and the opening task, plus the last two turns.
    let contents = judged_contents(2);
    assert!(contents.contains(&"client instructions".to_string()));
    assert!(contents.contains(&"initial task".to_string()));
    assert!(contents.contains(&"recent 1".to_string()));
    assert!(contents.contains(&"recent 2".to_string()));
    assert!(!contents.contains(&"old response".to_string()));
}

#[test]
fn a_zero_window_keeps_only_the_instructions_and_the_task() {
    let contents = judged_contents(0);
    assert!(contents.contains(&"client instructions".to_string()));
    assert!(contents.contains(&"initial task".to_string()));
    assert!(!contents.contains(&"recent 2".to_string()));
}

fn tool_call(id: &str) -> Message {
    Message {
        role: Role::Assistant,
        content: vec![ContentBlock::ToolCall(ToolCall {
            id: id.to_string(),
            name: "search".to_string(),
            arguments: Value::Null,
        })],
    }
}

fn result_block(id: &str) -> ContentBlock {
    ContentBlock::ToolResult(ToolResult {
        tool_call_id: id.to_string(),
        content: vec![ContentBlock::Text {
            text: "tool output".to_string(),
        }],
        is_error: None,
    })
}

fn tool_result(id: &str) -> Message {
    Message {
        role: Role::Tool,
        content: vec![result_block(id)],
    }
}

/// A count-based window can begin on a tool result, which leaves the call that introduced its id
/// outside the window and the classifier history invalid.
#[test]
fn trimming_keeps_the_call_that_introduced_a_kept_tool_result() {
    let messages = vec![
        Message::text(Role::System, "client instructions"),
        Message::text(Role::User, "initial task"),
        Message::text(Role::Assistant, "old response"),
        tool_call("call-1"),
        tool_result("call-1"),
        Message::text(Role::Assistant, "recent 1"),
        Message::text(Role::User, "recent 2"),
        Message::text(Role::Assistant, "recent 3"),
        Message::text(Role::User, "recent 4"),
    ];

    // The five-message tail begins exactly on the tool result.
    let kept = trim_messages(&messages, 5);

    assert_eq!(
        kept,
        vec![
            Message::text(Role::System, "client instructions"),
            Message::text(Role::User, "initial task"),
            tool_call("call-1"),
            tool_result("call-1"),
            Message::text(Role::Assistant, "recent 1"),
            Message::text(Role::User, "recent 2"),
            Message::text(Role::Assistant, "recent 3"),
            Message::text(Role::User, "recent 4"),
        ]
    );
}

/// Ids repeat across a conversation, so a later call must not stand in for the one that answers an
/// earlier result.
#[test]
fn trimming_pairs_a_repeated_id_with_the_call_that_precedes_it() {
    let messages = vec![
        Message::text(Role::System, "client instructions"),
        Message::text(Role::User, "initial task"),
        tool_call("x"),
        tool_result("x"),
        Message::text(Role::Assistant, "later"),
        tool_call("x"),
        tool_result("x"),
    ];

    // The four-message tail begins on the first result, whose own call sits one earlier.
    let kept = trim_messages(&messages, 4);

    assert_eq!(
        kept,
        vec![
            Message::text(Role::System, "client instructions"),
            Message::text(Role::User, "initial task"),
            tool_call("x"),
            tool_result("x"),
            Message::text(Role::Assistant, "later"),
            tool_call("x"),
            tool_result("x"),
        ]
    );
}

/// A result whose call precedes the opening task can never be paired, because trimming never
/// reaches behind the task. The window must not widen hunting for it.
#[test]
fn trimming_keeps_the_counted_window_when_a_result_cannot_be_paired() {
    let messages = vec![
        Message::text(Role::System, "client instructions"),
        tool_call("orphan"),
        Message::text(Role::User, "initial task"),
        Message::text(Role::Assistant, "old response"),
        tool_result("orphan"),
        Message::text(Role::Assistant, "recent 1"),
        Message::text(Role::User, "recent 2"),
    ];

    let kept = trim_messages(&messages, 3);

    assert_eq!(
        kept,
        vec![
            Message::text(Role::System, "client instructions"),
            Message::text(Role::User, "initial task"),
            tool_result("orphan"),
            Message::text(Role::Assistant, "recent 1"),
            Message::text(Role::User, "recent 2"),
        ]
    );
}

/// The no-window path keeps only task text: tool blocks are stripped so the judge never receives
/// an orphaned call or result.
#[test]
fn task_messages_strip_tool_blocks() {
    let messages = vec![
        Message::text(Role::User, "initial task"),
        tool_call("call-1"),
        Message {
            role: Role::User,
            content: vec![
                result_block("call-1"),
                ContentBlock::Text {
                    text: "latest follow-up".to_string(),
                },
            ],
        },
    ];

    let kept = task_messages(&messages);

    assert_eq!(
        kept,
        vec![
            Message::text(Role::User, "initial task"),
            Message::text(Role::User, "latest follow-up"),
        ]
    );
}

/// A follow-up carrying only a tool result has no task text and is dropped, leaving the opening
/// task alone rather than an orphaned result.
#[test]
fn task_messages_drop_a_follow_up_left_empty() {
    let messages = vec![
        Message::text(Role::User, "initial task"),
        Message {
            role: Role::User,
            content: vec![result_block("call-1")],
        },
    ];

    let kept = task_messages(&messages);

    assert_eq!(kept, vec![Message::text(Role::User, "initial task")]);
}

#[test]
fn capability_judge_builds_a_structured_request() {
    let contract = ClassifierContract {
        system_prompt: "Judge the task.".to_string(),
        response_format: Value::String("verdict".to_string()),
    };
    let request = Request {
        llm_request: LlmRequest {
            model: Some("inbound".to_string()),
            messages: vec![
                Message::text(Role::System, "client instructions"),
                Message::text(Role::Developer, "client developer instructions"),
                Message::text(Role::User, "initial task"),
                Message::text(Role::Assistant, "old response"),
                Message::text(Role::User, "old follow-up"),
                Message::text(Role::Assistant, "recent 1"),
                Message::text(Role::User, "recent 2"),
                Message::text(Role::Assistant, "recent 3"),
                Message::text(Role::User, "recent 4"),
                Message::text(Role::Assistant, "recent 5"),
            ],
            ..LlmRequest::empty()
        },
        raw_request: None,
        metadata: Some(Metadata {
            session_id: Some("s".to_string()),
            correlation_id: None,
            http_headers: Some(http::HeaderMap::new()),
            extra_metadata: Some(vec![("k".to_string(), "v".to_string())]),
        }),
    };
    let input = TaskInput {
        recent_turn_window: None,
    };
    let shown = input.build_messages(&request.llm_request.messages);
    let judge_request = judge_request(
        &request,
        shown,
        &contract,
        DEFAULT_JUDGE_MAX_OUTPUT_TOKENS,
    );

    assert_eq!(judge_request.llm_request.model, request.llm_request.model);
    assert_eq!(judge_request.llm_request.instructions.len(), 1);
    assert_eq!(judge_request.llm_request.instructions[0].role, Role::System);
    assert_eq!(
        judge_request.llm_request.instructions[0].content,
        InstructionBlock {
            role: Role::System,
            content: Message::text(Role::System, &contract.system_prompt).content,
        }
        .content,
    );
    assert_eq!(judge_request.llm_request.messages.len(), 2);
    let contents = judge_request
        .llm_request
        .messages
        .iter()
        .filter_map(|message| message.text_content("\n"))
        .collect::<Vec<_>>();
    assert!(contents.contains(&"recent 4".to_string()));
    assert!(contents.contains(&"initial task".to_string()));
    assert!(!contents.contains(&"recent 5".to_string()));
    assert!(!contents.contains(&"client instructions".to_string()));
    assert_eq!(
        judge_request.llm_request.output.response_format,
        Some(contract.response_format.clone())
    );
    assert_eq!(
        judge_request.llm_request.output.max_output_tokens,
        Some(DEFAULT_JUDGE_MAX_OUTPUT_TOKENS)
    );
    let metadata = judge_request.metadata.unwrap();
    assert_eq!(metadata.session_id.as_deref(), Some("s"));
    assert_eq!(metadata.extra_metadata.unwrap()[0].1, "v");
}

#[test]
fn a_call_after_its_result_in_one_message_does_not_pair_it() {
    let backward = Message {
        role: Role::Assistant,
        content: vec![
            result_block("a"),
            ContentBlock::ToolCall(ToolCall {
                id: "a".to_string(),
                name: "search".to_string(),
                arguments: Value::Null,
            }),
        ],
    };
    let early = tool_call("a");
    let text = Message::text(Role::User, "x");
    let tail = vec![&text, &early, &text, &backward];
    assert_eq!(window_start(&tail, 1), 1);
    assert_eq!(window_start(&tail, 0), 4);
    assert_eq!(window_start(&tail, 9), 0);
}

#[test]
fn a_conversation_without_a_task_keeps_its_instructions() {
    let messages = vec![
        Message::text(Role::Developer, "rules"),
        Message::text(Role::Assistant, "hello"),
    ];
    assert_eq!(
        trim_messages(&messages, 3),
        vec![Message::text(Role::Developer, "rules")]
    );
    assert_eq!(task_messages(&messages), Vec::<Message>::new());
}

#[test]
fn other_blocks_are_carried_through() {
    let image = ContentBlock::Other(Value::String("image".to_string()));
    let messages = vec![Message {
        role: Role::User,
        content: vec![
            image,
            ContentBlock::Text {
                text: "a".to_string(),
            },
            ContentBlock::Text {
                text: "b".to_string(),
            },
        ],
    }];
    let kept = task_messages(&messages);
    assert_eq!(kept, messages);
    assert_eq!(kept[0].text_content("\n").as_deref(), Some("a\nb"));
    assert_eq!(tool_call("a").text_content("\n"), None);
}
