//! Conversations, and the parts of one that a classifier judge is shown.

use vstd::prelude::*;
use vstd::string::*;

use crate::json::{json_of, Json};
use crate::model::text_option;
use crate::text::same_text;

verus! {

/// Who speaks in a message.
#[derive(Clone, Copy, Debug, PartialEq, Eq, Structural)]
pub enum Role {
    System,
    Developer,
    User,
    Assistant,
    Tool,
}

/// A tool invocation by the assistant.
#[derive(Debug, PartialEq)]
pub struct ToolCall {
    pub id: String,
    pub name: String,
    pub arguments: serde_json::Value,
}

/// What a tool answered to the call `tool_call_id`.
#[derive(Debug, PartialEq)]
pub struct ToolResult {
    pub tool_call_id: String,
    pub content: Vec<ContentBlock>,
    pub is_error: Option<bool>,
}

/// One piece of a message.
#[derive(Debug, PartialEq)]
pub enum ContentBlock {
    Text { text: String },
    ToolCall(ToolCall),
    ToolResult(ToolResult),
    /// Any other block, carried through unread.
    Other(serde_json::Value),
}

/// One message of a conversation.
#[derive(Debug, PartialEq)]
pub struct Message {
    pub role: Role,
    pub content: Vec<ContentBlock>,
}

/// What a content block holds.
pub enum Block {
    Text(Seq<char>),
    Call { id: Seq<char>, name: Seq<char>, arguments: Json },
    Answer { id: Seq<char>, content: Seq<Block>, is_error: Option<bool> },
    Other(Json),
}

/// What a message holds.
pub struct Turn {
    pub role: Role,
    pub content: Seq<Block>,
}

impl ContentBlock {
    /// What this block holds.
    pub open spec fn block(self) -> Block
        decreases self,
    {
        match self {
            ContentBlock::Text { text } => Block::Text(text@),
            ContentBlock::ToolCall(call) => Block::Call {
                id: call.id@,
                name: call.name@,
                arguments: json_of(call.arguments),
            },
            ContentBlock::ToolResult(result) => Block::Answer {
                id: result.tool_call_id@,
                content: Seq::new(
                    result.content@.len(),
                    |i: int|
                        if 0 <= i < result.content@.len() {
                            result.content@[i].block()
                        } else {
                            Block::Text(Seq::empty())
                        },
                ),
                is_error: result.is_error,
            },
            ContentBlock::Other(value) => Block::Other(json_of(value)),
        }
    }
}

/// What several blocks hold.
pub open spec fn blocks_of(content: Seq<ContentBlock>) -> Seq<Block> {
    content.map_values(|block: ContentBlock| block.block())
}

impl View for Message {
    type V = Turn;

    open spec fn view(&self) -> Turn {
        Turn { role: self.role, content: blocks_of(self.content@) }
    }
}

/// What several messages hold.
pub open spec fn turns_of(messages: Seq<Message>) -> Seq<Turn> {
    messages.map_values(|message: Message| message@)
}

/// A copy of several blocks.
pub fn copy_blocks(content: &Vec<ContentBlock>) -> (copy: Vec<ContentBlock>)
    ensures
        blocks_of(copy@) == blocks_of(content@),
    decreases content,
{
    let mut copy: Vec<ContentBlock> = Vec::new();
    let mut i: usize = 0;
    while i < content.len()
        invariant
            i <= content@.len(),
            copy@.len() == i,
            forall|j: int| 0 <= j < i ==> (#[trigger] copy@[j]).block() == content@[j].block(),
        decreases content.len() - i,
    {
        assert(decreases_to!(content => content[i as int]));
        copy.push(copy_block(&content[i]));
        i = i + 1;
    }
    assert(blocks_of(copy@) =~= blocks_of(content@));
    copy
}

/// A copy of one block.
pub fn copy_block(block: &ContentBlock) -> (copy: ContentBlock)
    ensures
        copy.block() == block.block(),
    decreases block,
{
    match block {
        ContentBlock::Text { text } => ContentBlock::Text { text: text.clone() },
        ContentBlock::ToolCall(call) => ContentBlock::ToolCall(
            ToolCall {
                id: call.id.clone(),
                name: call.name.clone(),
                arguments: call.arguments.clone(),
            },
        ),
        ContentBlock::ToolResult(result) => {
            let content = copy_blocks(&result.content);
            let copy = ToolResult {
                tool_call_id: result.tool_call_id.clone(),
                content,
                is_error: result.is_error,
            };
            proof {
                assert(ContentBlock::ToolResult(copy).block()->Answer_content =~= blocks_of(
                    content@,
                ));
                assert(block.block()->Answer_content =~= blocks_of(result.content@));
            }
            ContentBlock::ToolResult(copy)
        },
        ContentBlock::Other(value) => ContentBlock::Other(value.clone()),
    }
}

/// The texts among the blocks, joined by `separator`; nothing if there are none.
pub open spec fn said(blocks: Seq<Block>, separator: Seq<char>) -> Option<Seq<char>>
    decreases blocks.len(),
{
    if blocks.len() == 0 {
        None
    } else {
        let sofar = said(blocks.drop_last(), separator);
        match blocks.last() {
            Block::Text(text) => match sofar {
                Some(sofar) => Some(sofar + separator + text),
                None => Some(text),
            },
            _ => sofar,
        }
    }
}

impl Message {
    /// A message holding one text.
    pub fn text(role: Role, text: &str) -> (message: Message)
        ensures
            message@ == (Turn { role, content: seq![Block::Text(text@)] }),
    {
        let mut content: Vec<ContentBlock> = Vec::new();
        content.push(ContentBlock::Text { text: text.to_owned() });
        let message = Message { role, content };
        assert(message@.content =~= seq![Block::Text(text@)]);
        message
    }

    /// The texts of this message, joined by `separator`, if it has any.
    pub fn text_content(&self, separator: &str) -> (text: Option<String>)
        ensures
            text_option(text) == said(self@.content, separator@),
    {
        let ghost blocks = self@.content;
        let mut text: Option<String> = None;
        let mut i: usize = 0;
        assert(blocks.take(0) =~= Seq::<Block>::empty());
        while i < self.content.len()
            invariant
                i <= self.content@.len(),
                blocks == blocks_of(self.content@),
                text_option(text) == said(blocks.take(i as int), separator@),
            decreases self.content.len() - i,
        {
            proof {
                assert(blocks.take(i + 1).drop_last() =~= blocks.take(i as int));
                assert(blocks.take(i + 1).last() == blocks[i as int]);
            }
            match &self.content[i] {
                ContentBlock::Text { text: next } => {
                    text = match text {
                        Some(mut sofar) => {
                            sofar.append(separator);
                            sofar.append(next.as_str());
                            Some(sofar)
                        },
                        None => Some(next.clone()),
                    };
                },
                _ => {},
            }
            i = i + 1;
        }
        assert(blocks.take(i as int) =~= blocks);
        text
    }

    /// A copy of this message.
    pub fn copy(&self) -> (copy: Message)
        ensures
            copy@ == self@,
    {
        Message { role: self.role, content: copy_blocks(&self.content) }
    }
}

/// Whether this turn carries client instructions.
pub open spec fn instructs(turn: Turn) -> bool {
    turn.role == Role::System || turn.role == Role::Developer
}

/// Whether this turn was spoken by the user.
pub open spec fn asks(turn: Turn) -> bool {
    turn.role == Role::User
}

/// All blocks of a conversation in order.
pub open spec fn transcript(turns: Seq<Turn>) -> Seq<Block>
    decreases turns.len(),
{
    if turns.len() == 0 {
        Seq::empty()
    } else {
        turns[0].content + transcript(turns.skip(1))
    }
}

/// Whether the block is a tool result for the call `id`.
pub open spec fn answers(block: Block, id: Seq<char>) -> bool {
    block matches Block::Answer { id: named, .. } && named == id
}

/// Whether the block is the tool call `id`.
pub open spec fn calls(block: Block, id: Seq<char>) -> bool {
    block matches Block::Call { id: named, .. } && named == id
}

/// Whether some result for `id` has no call `id` before it.
pub open spec fn waiting(blocks: Seq<Block>, id: Seq<char>) -> bool {
    exists|p: int|
        #![trigger blocks[p]]
        0 <= p < blocks.len() && answers(blocks[p], id) && uncalled(blocks, p, id)
}

/// Whether no block before position `p` is the tool call `id`.
pub open spec fn uncalled(blocks: Seq<Block>, p: int, id: Seq<char>) -> bool {
    forall|q: int| 0 <= q < p ==> !calls(#[trigger] blocks[q], id)
}

/// Whether every tool result has its call before it.
pub open spec fn paired(blocks: Seq<Block>) -> bool {
    forall|id: Seq<char>| !waiting(blocks, id)
}

/// The latest start, at most `limit`, from which every tool result has its call; negative if
/// there is none.
pub open spec fn latest_paired_start(tail: Seq<Turn>, limit: int) -> int
    decreases limit + 1,
{
    if limit < 0 {
        -1
    } else if paired(transcript(tail.skip(limit))) {
        limit
    } else {
        latest_paired_start(tail, limit - 1)
    }
}

/// Where a window of `window` turns begins when only turns are counted.
pub open spec fn counted_start(tail: Seq<Turn>, window: nat) -> int {
    if window < tail.len() {
        tail.len() - window
    } else {
        0
    }
}

/// Where the trailing window of `window` turns begins: at the latest turn, not after the counted
/// start, from which tool pairs are whole, or at the counted start if there is no such turn.
pub open spec fn window_turn(tail: Seq<Turn>, window: nat) -> int {
    let start = latest_paired_start(tail, counted_start(tail, window));
    if start < 0 {
        counted_start(tail, window)
    } else {
        start
    }
}

/// The first position of a turn spoken by the user, or the length if there is none.
pub open spec fn opening(turns: Seq<Turn>) -> int
    decreases turns.len(),
{
    if turns.len() == 0 || asks(turns[0]) {
        0
    } else {
        1 + opening(turns.skip(1))
    }
}

/// The turns after the opening task that carry no instructions.
pub open spec fn after_opening(turns: Seq<Turn>) -> Seq<Turn> {
    turns.skip(opening(turns) + 1).filter(|turn: Turn| !instructs(turn))
}

/// The client instructions, the opening task and the trailing window after it.
pub open spec fn trimmed(turns: Seq<Turn>, window: nat) -> Seq<Turn> {
    let kept = turns.filter(|turn: Turn| instructs(turn));
    if opening(turns) == turns.len() {
        kept
    } else {
        let tail = after_opening(turns);
        kept.push(turns[opening(turns)]) + tail.skip(window_turn(tail, window))
    }
}

proof fn lemma_filter_step<T>(s: Seq<T>, keep: spec_fn(T) -> bool, i: int)
    requires
        0 <= i < s.len(),
    ensures
        s.take(i + 1).filter(keep) == if keep(s[i]) {
            s.take(i).filter(keep).push(s[i])
        } else {
            s.take(i).filter(keep)
        },
{
    reveal(Seq::filter);
    assert(s.take(i + 1).drop_last() =~= s.take(i));
    assert(s.take(i + 1).last() == s[i]);
}

/// Putting one block in front changes what waits only for that block's own id.
proof fn lemma_waiting_step(block: Block, rest: Seq<Block>, id: Seq<char>)
    ensures
        waiting(seq![block] + rest, id) == if answers(block, id) {
            true
        } else if calls(block, id) {
            false
        } else {
            waiting(rest, id)
        },
{
    let all = seq![block] + rest;
    assert(all[0] == block);
    assert(forall|i: int| 0 <= i < rest.len() ==> all[i + 1] == #[trigger] rest[i]);
    if answers(block, id) {
        assert(answers(all[0], id) && uncalled(all, 0, id));
    } else if !calls(block, id) {
        if waiting(rest, id) {
            let p = choose|p: int|
                #![trigger rest[p]]
                0 <= p < rest.len() && answers(rest[p], id) && uncalled(rest, p, id);
            assert forall|q: int| 0 <= q < p + 1 implies !calls(#[trigger] all[q], id) by {
                if q > 0 {
                    assert(all[q] == rest[q - 1]);
                }
            }
            assert(answers(all[p + 1], id) && uncalled(all, p + 1, id));
        }
        if waiting(all, id) {
            let p = choose|p: int|
                #![trigger all[p]]
                0 <= p < all.len() && answers(all[p], id) && uncalled(all, p, id);
            assert(p > 0);
            assert(all[p] == rest[p - 1]);
            assert forall|q: int| 0 <= q < p - 1 implies !calls(#[trigger] rest[q], id) by {
                assert(all[q + 1] == rest[q]);
            }
            assert(answers(rest[p - 1], id) && uncalled(rest, p - 1, id));
        }
    } else {
        if waiting(all, id) {
            let p = choose|p: int|
                #![trigger all[p]]
                0 <= p < all.len() && answers(all[p], id) && uncalled(all, p, id);
            assert(calls(all[0], id));
        }
    }
}

/// Whether `id` occurs among `ids`.
pub open spec fn lists(ids: Seq<&String>, id: Seq<char>) -> bool {
    exists|k: int| 0 <= k < ids.len() && (#[trigger] ids[k])@ == id
}

/// Whether `ids` lists exactly the ids that wait in `blocks`.
spec fn lists_waiting(ids: Seq<&String>, blocks: Seq<Block>) -> bool {
    forall|id: Seq<char>| #[trigger] waiting(blocks, id) == lists(ids, id)
}

/// Removes every entry equal to `id`.
fn forget<'a>(ids: Vec<&'a String>, id: &String) -> (rest: Vec<&'a String>)
    ensures
        forall|name: Seq<char>|
            #[trigger] lists(rest@, name) == (name != id@ && lists(ids@, name)),
{
    let mut rest: Vec<&'a String> = Vec::new();
    let mut i: usize = 0;
    while i < ids.len()
        invariant
            i <= ids@.len(),
            forall|k: int|
                0 <= k < rest@.len() ==> (#[trigger] rest@[k])@ != id@ && lists(ids@, rest@[k]@),
            forall|j: int|
                0 <= j < i && (#[trigger] ids@[j])@ != id@ ==> lists(rest@, ids@[j]@),
        decreases ids.len() - i,
    {
        let ghost before = rest@;
        if !same_text(ids[i].as_str(), id.as_str()) {
            rest.push(ids[i]);
            assert(rest@.last() == ids@[i as int]);
            assert(rest@.last()@ == ids@[i as int]@);
        }
        assert forall|j: int| 0 <= j < i + 1 && (#[trigger] ids@[j])@ != id@ implies lists(
            rest@,
            ids@[j]@,
        ) by {
            if j < i {
                let k = choose|k: int| 0 <= k < before.len() && (#[trigger] before[k])@ == ids@[j]@;
                assert(rest@[k] == before[k]);
            } else {
                assert(rest@[rest@.len() - 1]@ == ids@[j]@);
            }
        }
        i = i + 1;
    }
    rest
}

/// What several borrowed messages hold.
pub open spec fn borrowed_turns(messages: Seq<&Message>) -> Seq<Turn> {
    messages.map_values(|message: &Message| message@)
}

/// The first index of the trailing window of `recent_turn_window` messages.
///
/// Counting messages alone can start the window between a tool call and the result answering it.
/// The start therefore moves back to the nearest one that keeps every tool pair whole; a result
/// that cannot be paired leaves the counted start.
pub fn window_start(tail: &Vec<&Message>, recent_turn_window: usize) -> (start: usize)
    ensures
        start == window_turn(borrowed_turns(tail@), recent_turn_window as nat),
        start <= tail@.len(),
{
    let ghost turns = borrowed_turns(tail@);
    let counted: usize = if recent_turn_window < tail.len() {
        tail.len() - recent_turn_window
    } else {
        0
    };
    assert(counted == counted_start(turns, recent_turn_window as nat));
    if counted == tail.len() {
        proof {
            assert(turns.skip(counted as int) =~= Seq::<Turn>::empty());
            assert(transcript(turns.skip(counted as int)) =~= Seq::<Block>::empty());
            assert(paired(transcript(turns.skip(counted as int))));
        }
        return counted;
    }
    let mut unpaired: Vec<&String> = Vec::new();
    let mut start: usize = tail.len();
    proof {
        assert(turns.skip(start as int) =~= Seq::<Turn>::empty());
        assert(lists_waiting(unpaired@, transcript(turns.skip(start as int))));
    }
    while start > 0
        invariant
            turns == borrowed_turns(tail@),
            start <= tail@.len(),
            counted < tail@.len(),
            counted == counted_start(turns, recent_turn_window as nat),
            lists_waiting(unpaired@, transcript(turns.skip(start as int))),
            latest_paired_start(turns, counted as int) == latest_paired_start(
                turns,
                if start <= counted {
                    start - 1
                } else {
                    counted as int
                },
            ),
        decreases start,
    {
        start = start - 1;
        let message = tail[start];
        let ghost later = transcript(turns.skip(start + 1));
        let ghost content = turns[start as int].content;
        let mut at: usize = message.content.len();
        proof {
            assert(content.skip(at as int) + later =~= later);
        }
        while at > 0
            invariant
                at <= message.content@.len(),
                content == blocks_of(message.content@),
                lists_waiting(unpaired@, content.skip(at as int) + later),
            decreases at,
        {
            at = at - 1;
            let ghost before = content.skip(at + 1) + later;
            let ghost block = content[at as int];
            let ghost listed = unpaired@;
            proof {
                assert(content.skip(at as int) + later =~= seq![block] + before);
                assert forall|id: Seq<char>| #[trigger]
                    waiting(seq![block] + before, id) == if answers(block, id) {
                        true
                    } else if calls(block, id) {
                        false
                    } else {
                        waiting(before, id)
                    } by {
                    lemma_waiting_step(block, before, id);
                }
            }
            match &message.content[at] {
                ContentBlock::ToolResult(result) => {
                    unpaired.push(&result.tool_call_id);
                    proof {
                        assert(unpaired@.last()@ == result.tool_call_id@);
                        assert forall|id: Seq<char>| #[trigger]
                            waiting(seq![block] + before, id) == lists(unpaired@, id) by {
                            if id == result.tool_call_id@ {
                                assert(unpaired@[unpaired@.len() - 1]@ == id);
                            } else if waiting(before, id) {
                                let k = choose|k: int|
                                    0 <= k < listed.len() && (#[trigger] listed[k])@ == id;
                                assert(unpaired@[k] == listed[k]);
                            } else if lists(unpaired@, id) {
                                let k = choose|k: int|
                                    0 <= k < unpaired@.len() && (#[trigger] unpaired@[k])@ == id;
                                assert(listed[k]@ == id);
                            }
                        }
                    }
                },
                ContentBlock::ToolCall(call) => {
                    unpaired = forget(unpaired, &call.id);
                    assert(lists_waiting(unpaired@, seq![block] + before));
                },
                _ => {
                    assert(lists_waiting(unpaired@, seq![block] + before));
                },
            }
        }
        proof {
            assert(content.skip(0) =~= content);
            assert(turns.skip(start as int).skip(1) =~= turns.skip(start + 1));
            assert(turns.skip(start as int)[0] == turns[start as int]);
            assert(transcript(turns.skip(start as int)) == content + later);
        }
        if unpaired.len() == 0 {
            proof {
                assert(paired(transcript(turns.skip(start as int))));
            }
            if start <= counted {
                return start;
            }
        } else {
            proof {
                assert(unpaired@[0]@ == unpaired@[0]@);
                assert(waiting(transcript(turns.skip(start as int)), unpaired@[0]@));
                assert(!paired(transcript(turns.skip(start as int))));
            }
        }
    }
    counted
}

/// Copies of several borrowed messages.
fn copy_messages(messages: &Vec<&Message>) -> (copy: Vec<Message>)
    ensures
        turns_of(copy@) == borrowed_turns(messages@),
{
    let mut copy: Vec<Message> = Vec::new();
    let mut i: usize = 0;
    while i < messages.len()
        invariant
            i <= messages@.len(),
            copy@.len() == i,
            forall|j: int| 0 <= j < i ==> (#[trigger] copy@[j])@ == messages@[j]@,
        decreases messages.len() - i,
    {
        copy.push(messages[i].copy());
        i = i + 1;
    }
    assert(turns_of(copy@) =~= borrowed_turns(messages@));
    copy
}

/// Whether the message carries client instructions.
fn is_instruction(message: &Message) -> (r: bool)
    ensures
        r == instructs(message@),
{
    message.role == Role::System || message.role == Role::Developer
}

/// The messages from `from` on whose being instructions equals `wanted`.
fn select<'a>(messages: &'a Vec<Message>, from: usize, wanted: bool) -> (kept: Vec<&'a Message>)
    requires
        from <= messages@.len(),
    ensures
        borrowed_turns(kept@) == turns_of(messages@).skip(from as int).filter(
            |turn: Turn| instructs(turn) == wanted,
        ),
{
    let ghost turns = turns_of(messages@).skip(from as int);
    let ghost keep = |turn: Turn| instructs(turn) == wanted;
    let mut kept: Vec<&'a Message> = Vec::new();
    let mut i: usize = from;
    proof {
        reveal(Seq::filter);
        assert(turns.take(0).filter(keep) =~= Seq::<Turn>::empty());
        assert(borrowed_turns(kept@) =~= Seq::<Turn>::empty());
    }
    while i < messages.len()
        invariant
            from <= i <= messages@.len(),
            turns == turns_of(messages@).skip(from as int),
            keep == |turn: Turn| instructs(turn) == wanted,
            borrowed_turns(kept@) == turns.take(i - from).filter(keep),
        decreases messages.len() - i,
    {
        let ghost before = kept@;
        proof {
            lemma_filter_step(turns, keep, i - from);
            assert(turns[i - from] == messages@[i as int]@);
        }
        if is_instruction(&messages[i]) == wanted {
            kept.push(&messages[i]);
            assert(borrowed_turns(kept@) =~= borrowed_turns(before).push(messages@[i as int]@));
        }
        i = i + 1;
    }
    assert(turns.take(i - from) =~= turns);
    kept
}

/// The position of the first message spoken by the user, or the number of messages.
fn find_opening(messages: &Vec<Message>) -> (at: usize)
    ensures
        at == opening(turns_of(messages@)),
        at <= messages@.len(),
{
    let ghost turns = turns_of(messages@);
    let mut at: usize = 0;
    assert(turns.skip(0) =~= turns);
    while at < messages.len()
        invariant
            at <= messages@.len(),
            turns == turns_of(messages@),
            opening(turns) == at + opening(turns.skip(at as int)),
        decreases messages.len() - at,
    {
        assert(turns.skip(at as int)[0] == messages@[at as int]@);
        if messages[at].role == Role::User {
            return at;
        }
        assert(turns.skip(at as int).skip(1) =~= turns.skip(at + 1));
        at = at + 1;
    }
    at
}

/// Keeps the client instructions, the opening task and the last `recent_turn_window` turns after
/// it. A window of `0` keeps the instructions and the task alone.
pub fn trim_messages(messages: &Vec<Message>, recent_turn_window: usize) -> (kept: Vec<Message>)
    ensures
        turns_of(kept@) == trimmed(turns_of(messages@), recent_turn_window as nat),
{
    let ghost turns = turns_of(messages@);
    let mut kept = select(messages, 0, true);
    proof {
        assert(turns.skip(0) =~= turns);
        lemma_filter_same(
            turns,
            |turn: Turn| instructs(turn) == true,
            |turn: Turn| instructs(turn),
        );
    }
    let task = find_opening(messages);
    if task == messages.len() {
        return copy_messages(&kept);
    }
    let ghost instructions = kept@;
    kept.push(&messages[task]);
    let tail = select(messages, task + 1, false);
    proof {
        lemma_filter_same(
            turns.skip(task + 1),
            |turn: Turn| instructs(turn) == false,
            |turn: Turn| !instructs(turn),
        );
        assert(borrowed_turns(tail@) == after_opening(turns));
    }
    let start = window_start(&tail, recent_turn_window);
    let ghost head = kept@;
    let ghost all = borrowed_turns(tail@);
    let mut i: usize = start;
    proof {
        assert(borrowed_turns(kept@) =~= borrowed_turns(instructions).push(turns[task as int]));
        assert(all.subrange(start as int, i as int) =~= Seq::<Turn>::empty());
        assert(borrowed_turns(kept@) =~= borrowed_turns(head) + all.subrange(
            start as int,
            i as int,
        ));
    }
    while i < tail.len()
        invariant
            start <= i <= tail@.len(),
            all == borrowed_turns(tail@),
            borrowed_turns(kept@) == borrowed_turns(head) + all.subrange(start as int, i as int),
        decreases tail.len() - i,
    {
        let ghost before = kept@;
        kept.push(tail[i]);
        proof {
            assert(borrowed_turns(kept@) =~= borrowed_turns(before).push(all[i as int]));
            assert(all.subrange(start as int, i + 1) =~= all.subrange(start as int, i as int).push(
                all[i as int],
            ));
        }
        i = i + 1;
        assert(borrowed_turns(kept@) =~= borrowed_turns(head) + all.subrange(
            start as int,
            i as int,
        ));
    }
    assert(all.subrange(start as int, i as int) =~= all.skip(start as int));
    copy_messages(&kept)
}

proof fn lemma_filter_same<T>(s: Seq<T>, f: spec_fn(T) -> bool, g: spec_fn(T) -> bool)
    requires
        forall|x: T| #[trigger] f(x) == g(x),
    ensures
        s.filter(f) == s.filter(g),
    decreases s.len(),
{
    reveal(Seq::filter);
    if s.len() > 0 {
        lemma_filter_same(s.drop_last(), f, g);
    }
}

/// Whether the block is neither a tool call nor a tool result.
pub open spec fn spoken(block: Block) -> bool {
    !(block is Call) && !(block is Answer)
}

/// The turn without its tool blocks.
pub open spec fn without_tools(turn: Turn) -> Turn {
    Turn { role: turn.role, content: turn.content.filter(|block: Block| spoken(block)) }
}

/// The turn without its tool blocks, or nothing if it holds no other block.
pub open spec fn told(turn: Turn) -> Seq<Turn> {
    if without_tools(turn).content.len() == 0 {
        Seq::empty()
    } else {
        seq![without_tools(turn)]
    }
}

/// The opening task and the latest user follow-up, without tool blocks.
pub open spec fn task_turns(turns: Seq<Turn>) -> Seq<Turn> {
    let asked = turns.filter(|turn: Turn| asks(turn));
    if asked.len() == 0 {
        Seq::empty()
    } else if asked.len() == 1 {
        told(asked[0])
    } else {
        told(asked[0]) + told(asked.last())
    }
}

/// Appends the message without its tool blocks, if anything is left of it.
fn push_told(messages: &mut Vec<Message>, message: &Message)
    ensures
        turns_of(final(messages)@) == turns_of(old(messages)@) + told(message@),
{
    let ghost blocks = message@.content;
    let ghost keep = |block: Block| spoken(block);
    let mut content: Vec<ContentBlock> = Vec::new();
    let mut i: usize = 0;
    proof {
        reveal(Seq::filter);
        assert(blocks.take(0).filter(keep) =~= Seq::<Block>::empty());
        assert(blocks_of(content@) =~= Seq::<Block>::empty());
    }
    while i < message.content.len()
        invariant
            i <= message.content@.len(),
            blocks == blocks_of(message.content@),
            keep == |block: Block| spoken(block),
            blocks_of(content@) == blocks.take(i as int).filter(keep),
        decreases message.content.len() - i,
    {
        let ghost before = content@;
        proof {
            lemma_filter_step(blocks, keep, i as int);
        }
        match &message.content[i] {
            ContentBlock::ToolCall(_) => {},
            ContentBlock::ToolResult(_) => {},
            _ => {
                content.push(copy_block(&message.content[i]));
                assert(blocks_of(content@) =~= blocks_of(before).push(blocks[i as int]));
            },
        }
        i = i + 1;
    }
    let ghost before = messages@;
    proof {
        assert(blocks.take(i as int) =~= blocks);
        assert(blocks_of(content@) == without_tools(message@).content);
    }
    if content.len() > 0 {
        messages.push(Message { role: message.role, content });
        assert(turns_of(messages@) =~= turns_of(before) + told(message@));
    } else {
        assert(turns_of(messages@) =~= turns_of(before) + told(message@));
    }
}

/// Keeps the opening task and the latest user follow-up when they differ.
///
/// Two user turns cannot preserve tool pairs, so tool blocks are stripped, and a message left
/// with no content is dropped.
pub fn task_messages(messages: &Vec<Message>) -> (kept: Vec<Message>)
    ensures
        turns_of(kept@) == task_turns(turns_of(messages@)),
{
    let ghost turns = turns_of(messages@);
    let ghost keep = |turn: Turn| asks(turn);
    let mut asked: Vec<&Message> = Vec::new();
    let mut i: usize = 0;
    proof {
        reveal(Seq::filter);
        assert(turns.take(0).filter(keep) =~= Seq::<Turn>::empty());
        assert(borrowed_turns(asked@) =~= Seq::<Turn>::empty());
    }
    while i < messages.len()
        invariant
            i <= messages@.len(),
            turns == turns_of(messages@),
            keep == |turn: Turn| asks(turn),
            borrowed_turns(asked@) == turns.take(i as int).filter(keep),
        decreases messages.len() - i,
    {
        let ghost before = asked@;
        proof {
            lemma_filter_step(turns, keep, i as int);
        }
        if messages[i].role == Role::User {
            asked.push(&messages[i]);
            assert(borrowed_turns(asked@) =~= borrowed_turns(before).push(turns[i as int]));
        }
        i = i + 1;
    }
    assert(turns.take(i as int) =~= turns);
    let mut kept: Vec<Message> = Vec::new();
    assert(turns_of(kept@) =~= Seq::<Turn>::empty());
    if asked.len() > 0 {
        push_told(&mut kept, asked[0]);
        assert(turns_of(kept@) =~= told(asked@[0]@));
        if asked.len() > 1 {
            push_told(&mut kept, asked[asked.len() - 1]);
        }
    }
    kept
}

/// Selects the messages that a capability or custom-schema judge is shown.
#[derive(Clone, Copy, Debug, PartialEq, Eq, Structural)]
pub struct TaskInput {
    /// How many turns after the opening task are shown; none judges the task and its latest
    /// follow-up alone.
    pub recent_turn_window: Option<usize>,
}

impl TaskInput {
    /// The turns shown of a conversation.
    pub open spec fn shown(self, turns: Seq<Turn>) -> Seq<Turn> {
        match self.recent_turn_window {
            Some(window) => trimmed(turns, window as nat),
            None => task_turns(turns),
        }
    }

    /// The messages that the judge is shown.
    pub fn build_messages(&self, messages: &Vec<Message>) -> (shown: Vec<Message>)
        ensures
            turns_of(shown@) == self.shown(turns_of(messages@)),
    {
        match self.recent_turn_window {
            Some(window) => trim_messages(messages, window),
            None => task_messages(messages),
        }
    }
}

/// The trailing window holds at least the last `window` turns, or all of them if there are fewer.
pub proof fn law_window_keeps_the_last_turns(tail: Seq<Turn>, window: nat)
    ensures
        0 <= window_turn(tail, window) <= counted_start(tail, window) <= tail.len(),
        tail.skip(window_turn(tail, window)).len() >= if window < tail.len() {
            window
        } else {
            tail.len()
        },
{
    lemma_latest_start(tail, counted_start(tail, window));
}

proof fn lemma_latest_start(tail: Seq<Turn>, limit: int)
    ensures
        latest_paired_start(tail, limit) <= limit || limit < 0,
        latest_paired_start(tail, limit) >= -1,
        latest_paired_start(tail, limit) >= 0 ==> paired(
            transcript(tail.skip(latest_paired_start(tail, limit))),
        ),
        forall|s: int|
            latest_paired_start(tail, limit) < s <= limit && 0 <= s ==> !paired(
                #[trigger] transcript(tail.skip(s)),
            ),
    decreases limit + 1,
{
    if limit >= 0 && !paired(transcript(tail.skip(limit))) {
        lemma_latest_start(tail, limit - 1);
    }
}

/// If any start up to the counted one keeps tool pairs whole, the window keeps every tool result
/// together with its call.
pub proof fn law_window_keeps_tool_pairs(tail: Seq<Turn>, window: nat, start: int)
    requires
        0 <= start <= counted_start(tail, window),
        paired(transcript(tail.skip(start))),
    ensures
        paired(transcript(tail.skip(window_turn(tail, window)))),
        start <= window_turn(tail, window),
{
    lemma_latest_start(tail, counted_start(tail, window));
    assert(paired(transcript(tail.skip(start))));
}

/// If no start up to the counted one keeps tool pairs whole, the window is the counted one.
pub proof fn law_unpairable_results_do_not_widen_the_window(tail: Seq<Turn>, window: nat)
    requires
        forall|s: int|
            0 <= s <= counted_start(tail, window) ==> !paired(#[trigger] transcript(tail.skip(s))),
    ensures
        window_turn(tail, window) == counted_start(tail, window),
{
    lemma_latest_start(tail, counted_start(tail, window));
    let start = latest_paired_start(tail, counted_start(tail, window));
    if start >= 0 {
        assert(!paired(transcript(tail.skip(start))));
    }
}

/// A window of zero turns keeps the instructions and the opening task alone.
pub proof fn law_zero_window_keeps_the_task_alone(turns: Seq<Turn>)
    requires
        opening(turns) < turns.len(),
    ensures
        trimmed(turns, 0) == turns.filter(|turn: Turn| instructs(turn)).push(
            turns[opening(turns)],
        ),
{
    let tail = after_opening(turns);
    assert(tail.skip(tail.len() as int) =~= Seq::<Turn>::empty());
    assert(transcript(tail.skip(tail.len() as int)) =~= Seq::<Block>::empty());
    assert(paired(transcript(tail.skip(tail.len() as int))));
    assert(window_turn(tail, 0) == tail.len());
    assert(trimmed(turns, 0) =~= turns.filter(|turn: Turn| instructs(turn)).push(
        turns[opening(turns)],
    ));
}

/// The task messages are at most two, each spoken by the user, with something said and no tool
/// block left.
pub proof fn law_task_messages_carry_no_tool_blocks(turns: Seq<Turn>)
    ensures
        task_turns(turns).len() <= 2,
        forall|i: int|
            0 <= i < task_turns(turns).len() ==> {
                &&& asks(#[trigger] task_turns(turns)[i])
                &&& task_turns(turns)[i].content.len() > 0
            },
        forall|i: int, j: int|
            0 <= i < task_turns(turns).len() && 0 <= j < task_turns(turns)[i].content.len()
                ==> spoken(#[trigger] task_turns(turns)[i].content[j]),
{
    let keep = |turn: Turn| asks(turn);
    let asked = turns.filter(keep);
    assert forall|i: int| 0 <= i < asked.len() implies asks(#[trigger] asked[i]) by {
        turns.lemma_filter_pred(keep, i);
    }
    assert forall|turn: Turn, i: int, j: int|
        0 <= i < told(turn).len() && 0 <= j < told(turn)[i].content.len() implies spoken(
        #[trigger] told(turn)[i].content[j],
    ) by {
        turn.content.lemma_filter_pred(|block: Block| spoken(block), j);
    }
}

/// Something is said exactly if some block is a text.
pub proof fn lemma_said_if_texts(blocks: Seq<Block>, separator: Seq<char>)
    ensures
        said(blocks, separator) is Some <==> exists|i: int|
            0 <= i < blocks.len() && (#[trigger] blocks[i]) is Text,
    decreases blocks.len(),
{
    if blocks.len() > 0 {
        let front = blocks.drop_last();
        lemma_said_if_texts(front, separator);
        if said(front, separator) is Some {
            let i = choose|i: int| 0 <= i < front.len() && (#[trigger] front[i]) is Text;
            assert(blocks[i] is Text);
        }
        if blocks.last() is Text {
            assert(blocks[blocks.len() - 1] is Text);
        }
        if exists|i: int| 0 <= i < blocks.len() && (#[trigger] blocks[i]) is Text {
            let i = choose|i: int| 0 <= i < blocks.len() && (#[trigger] blocks[i]) is Text;
            if i < front.len() {
                assert(front[i] is Text);
            }
        }
    }
}

proof fn lemma_opening_is_the_first(turns: Seq<Turn>, at: int)
    requires
        0 <= at <= turns.len(),
        at < turns.len() ==> asks(turns[at]),
        forall|i: int| 0 <= i < at ==> !asks(#[trigger] turns[i]),
    ensures
        opening(turns) == at,
    decreases turns.len(),
{
    if at > 0 {
        let rest = turns.skip(1);
        assert(at < turns.len() ==> rest[at - 1] == turns[at]);
        assert forall|i: int| 0 <= i < at - 1 implies !asks(#[trigger] rest[i]) by {
            assert(rest[i] == turns[i + 1]);
        }
        assert(!asks(turns[0]));
        lemma_opening_is_the_first(rest, at - 1);
    }
}

/// Trimming shows all instructions in order, the first user turn, and then the end of the other
/// turns after it: at least the last `window` of them, just those where no tool pair is cut, and
/// all of them where there are no more than `window`.
pub proof fn law_trimming_shows_instructions_task_and_last_turns(
    turns: Seq<Turn>,
    window: nat,
    at: int,
)
    requires
        0 <= at < turns.len(),
        turns[at].role == Role::User,
        forall|i: int| 0 <= i < at ==> (#[trigger] turns[i]).role != Role::User,
    ensures
        ({
            let head = turns.filter(
                |turn: Turn| turn.role == Role::System || turn.role == Role::Developer,
            ).push(turns[at]);
            let tail = turns.skip(at + 1).filter(
                |turn: Turn| turn.role != Role::System && turn.role != Role::Developer,
            );
            let shown = trimmed(turns, window);
            let least = if window <= tail.len() {
                window
            } else {
                tail.len()
            };
            &&& shown.len() >= head.len() + least
            &&& shown == head + tail.skip(tail.len() - (shown.len() - head.len()))
            &&& tail.len() <= window ==> shown == head + tail
            &&& paired(transcript(tail.skip(tail.len() - least))) ==> shown == head + tail.skip(
                tail.len() - least,
            )
        }),
{
    let instructing = |turn: Turn| turn.role == Role::System || turn.role == Role::Developer;
    let other = |turn: Turn| turn.role != Role::System && turn.role != Role::Developer;
    lemma_opening_is_the_first(turns, at);
    lemma_filter_same(turns, |turn: Turn| instructs(turn), instructing);
    lemma_filter_same(turns.skip(at + 1), |turn: Turn| !instructs(turn), other);
    let head = turns.filter(instructing).push(turns[at]);
    let tail = turns.skip(at + 1).filter(other);
    assert(tail == after_opening(turns));
    let shown = trimmed(turns, window);
    let start = window_turn(tail, window);
    law_window_keeps_the_last_turns(tail, window);
    lemma_latest_start(tail, counted_start(tail, window));
    assert(shown == head + tail.skip(start));
    assert(shown.len() == head.len() + tail.len() - start);
    if tail.len() <= window {
        assert(start == 0);
        assert(tail.skip(0) =~= tail);
    }
}

/// Without a user turn only the instructions are shown.
pub proof fn law_without_a_task_only_instructions_are_shown(turns: Seq<Turn>, window: nat)
    requires
        forall|i: int| 0 <= i < turns.len() ==> (#[trigger] turns[i]).role != Role::User,
    ensures
        trimmed(turns, window) == turns.filter(
            |turn: Turn| turn.role == Role::System || turn.role == Role::Developer,
        ),
        task_turns(turns).len() == 0,
{
    lemma_opening_is_the_first(turns, turns.len() as int);
    lemma_filter_same(
        turns,
        |turn: Turn| instructs(turn),
        |turn: Turn| turn.role == Role::System || turn.role == Role::Developer,
    );
    lemma_filter_none(turns, |turn: Turn| asks(turn));
}

proof fn lemma_filter_none<T>(s: Seq<T>, keep: spec_fn(T) -> bool)
    requires
        forall|i: int| 0 <= i < s.len() ==> !keep(#[trigger] s[i]),
    ensures
        s.filter(keep) == Seq::<T>::empty(),
    decreases s.len(),
{
    reveal(Seq::filter);
    if s.len() > 0 {
        assert forall|i: int| 0 <= i < s.drop_last().len() implies !keep(
            #[trigger] s.drop_last()[i],
        ) by {
            assert(s.drop_last()[i] == s[i]);
        }
        lemma_filter_none(s.drop_last(), keep);
    }
}

/// Tool pairs are whole exactly if every tool result has a call of its id before it.
pub proof fn law_whole_pairs_have_their_call_before(blocks: Seq<Block>)
    ensures
        paired(blocks) <==> forall|p: int|
            0 <= p < blocks.len() && (#[trigger] blocks[p]) is Answer ==> exists|q: int|
                0 <= q < p && (#[trigger] blocks[q]) is Call && blocks[q]->Call_id
                    == blocks[p]->Answer_id,
{
    if paired(blocks) {
        assert forall|p: int| 0 <= p < blocks.len() && (
        #[trigger] blocks[p]) is Answer implies exists|q: int|
            0 <= q < p && (#[trigger] blocks[q]) is Call && blocks[q]->Call_id
                == blocks[p]->Answer_id by {
            let id = blocks[p]->Answer_id;
            assert(!waiting(blocks, id));
            assert(answers(blocks[p], id));
            assert(!uncalled(blocks, p, id));
            let q = choose|q: int| 0 <= q < p && calls(#[trigger] blocks[q], id);
            assert(blocks[q] is Call && blocks[q]->Call_id == id);
        }
    } else {
        let id = choose|id: Seq<char>| waiting(blocks, id);
        let p = choose|p: int|
            #![trigger blocks[p]]
            0 <= p < blocks.len() && answers(blocks[p], id) && uncalled(blocks, p, id);
        assert(blocks[p] is Answer && blocks[p]->Answer_id == id);
        assert forall|q: int| 0 <= q < p implies !((#[trigger] blocks[q]) is Call
            && blocks[q]->Call_id == id) by {
            assert(!calls(blocks[q], id));
        }
    }
}

/// The blocks of a conversation are those of its turns, one turn after the other.
pub proof fn law_transcript_joins_the_turns(turns: Seq<Turn>, turn: Turn)
    ensures
        transcript(Seq::empty()).len() == 0,
        transcript(turns.push(turn)) == transcript(turns) + turn.content,
    decreases turns.len(),
{
    let all = turns.push(turn);
    if turns.len() > 0 {
        law_transcript_joins_the_turns(turns.skip(1), turn);
        assert(all.skip(1) =~= turns.skip(1).push(turn));
        assert(all[0] == turns[0]);
        assert(transcript(all) =~= transcript(turns) + turn.content);
    } else {
        assert(all.skip(1) =~= Seq::<Turn>::empty());
        assert(transcript(all.skip(1)) =~= Seq::<Block>::empty());
        assert(all[0] == turn);
        assert(transcript(all) =~= transcript(turns) + turn.content);
    }
}

/// The task messages are the first user turn and, if there is another one, the last user turn,
/// both without their tool blocks.
pub proof fn law_task_messages_are_the_first_and_the_latest(
    turns: Seq<Turn>,
    first: int,
    last: int,
)
    requires
        0 <= first <= last < turns.len(),
        turns[first].role == Role::User,
        turns[last].role == Role::User,
        forall|i: int| 0 <= i < first ==> (#[trigger] turns[i]).role != Role::User,
        forall|i: int| last < i < turns.len() ==> (#[trigger] turns[i]).role != Role::User,
    ensures
        ({
            let stripped = |turn: Turn|
                {
                    let content = turn.content.filter(
                        |block: Block| block is Text || block is Other,
                    );
                    if content.len() == 0 {
                        Seq::empty()
                    } else {
                        seq![Turn { role: turn.role, content }]
                    }
                };
            task_turns(turns) == if first == last {
                stripped(turns[first])
            } else {
                stripped(turns[first]) + stripped(turns[last])
            }
        }),
{
    let keep = |turn: Turn| asks(turn);
    let before = turns.take(first);
    let middle = turns.subrange(first + 1, last);
    let after = turns.skip(last + 1);
    lemma_filter_none(before, keep);
    lemma_filter_none(after, keep);
    lemma_stripped(turns[first]);
    lemma_stripped(turns[last]);
    lemma_filter_one(turns[first], keep);
    lemma_filter_one(turns[last], keep);
    if first == last {
        assert(turns =~= before + (seq![turns[first]] + after));
        Seq::filter_distributes_over_add(before, seq![turns[first]] + after, keep);
        Seq::filter_distributes_over_add(seq![turns[first]], after, keep);
        assert(turns.filter(keep) =~= seq![turns[first]]);
    } else {
        assert(turns =~= before + (seq![turns[first]] + (middle + (seq![turns[last]] + after))));
        Seq::filter_distributes_over_add(
            before,
            seq![turns[first]] + (middle + (seq![turns[last]] + after)),
            keep,
        );
        Seq::filter_distributes_over_add(
            seq![turns[first]],
            middle + (seq![turns[last]] + after),
            keep,
        );
        Seq::filter_distributes_over_add(middle, seq![turns[last]] + after, keep);
        Seq::filter_distributes_over_add(seq![turns[last]], after, keep);
        assert(turns.filter(keep) =~= seq![turns[first]] + (middle.filter(keep) + seq![
            turns[last],
        ]));
        assert(turns.filter(keep)[0] == turns[first]);
        assert(turns.filter(keep).last() == turns[last]);
    }
}

proof fn lemma_filter_one<T>(item: T, keep: spec_fn(T) -> bool)
    ensures
        seq![item].filter(keep) == if keep(item) {
            seq![item]
        } else {
            Seq::empty()
        },
{
    reveal(Seq::filter);
    assert(seq![item].drop_last() =~= Seq::<T>::empty());
    assert(Seq::<T>::empty().filter(keep) =~= Seq::<T>::empty());
    assert(Seq::<T>::empty().push(item) =~= seq![item]);
}

proof fn lemma_stripped(turn: Turn)
    ensures
        turn.content.filter(|block: Block| block is Text || block is Other) == without_tools(
            turn,
        ).content,
{
    lemma_filter_same(
        turn.content,
        |block: Block| spoken(block),
        |block: Block| block is Text || block is Other,
    );
}

/// A further text is joined to what was said before by the separator; other blocks say nothing.
pub proof fn law_texts_are_joined_by_the_separator(
    blocks: Seq<Block>,
    block: Block,
    separator: Seq<char>,
)
    ensures
        said(Seq::empty(), separator) is None,
        !(block is Text) ==> said(blocks.push(block), separator) == said(blocks, separator),
        block is Text ==> said(blocks.push(block), separator) == match said(blocks, separator) {
            Some(text) => Some(text + separator + block->Text_0),
            None => Some(block->Text_0),
        },
{
    assert(blocks.push(block).drop_last() =~= blocks);
}

/// A judge with a window is shown the trimmed conversation, one without the task messages.
pub proof fn law_the_window_decides_what_is_shown(turns: Seq<Turn>, window: usize)
    ensures
        (TaskInput { recent_turn_window: Some(window) }).shown(turns) == trimmed(
            turns,
            window as nat,
        ),
        (TaskInput { recent_turn_window: None }).shown(turns) == task_turns(turns),
{
}

/// A block holds every part of a content block.
pub proof fn law_blocks_hold_every_part(block: ContentBlock, i: int)
    ensures
        block is Text ==> block.block() == Block::Text(block->text@),
        block is ToolCall ==> block.block() == (Block::Call {
            id: block->ToolCall_0.id@,
            name: block->ToolCall_0.name@,
            arguments: json_of(block->ToolCall_0.arguments),
        }),
        block is ToolResult ==> {
            let result = block->ToolResult_0;
            &&& block.block() is Answer
            &&& block.block()->Answer_id == result.tool_call_id@
            &&& block.block()->Answer_content.len() == result.content@.len()
            &&& 0 <= i < result.content@.len() ==> block.block()->Answer_content[i]
                == result.content@[i].block()
            &&& block.block()->is_error == result.is_error
        },
        block is Other ==> block.block() == Block::Other(json_of(block->Other_0)),
{
}

/// Counted alone, a window of `window` turns begins that many turns before the end, or at the
/// start where there are fewer.
pub proof fn law_counted_windows(tail: Seq<Turn>, window: nat)
    ensures
        window <= tail.len() ==> counted_start(tail, window) == tail.len() - window,
        window > tail.len() ==> counted_start(tail, window) == 0,
{
}

/// What several messages and blocks hold, one by one.
pub proof fn law_views_of_messages(messages: Seq<Message>, content: Seq<ContentBlock>, i: int)
    ensures
        turns_of(messages).len() == messages.len(),
        0 <= i < messages.len() ==> turns_of(messages)[i].role == messages[i].role
            && turns_of(messages)[i].content == blocks_of(messages[i].content@),
        blocks_of(content).len() == content.len(),
        0 <= i < content.len() ==> blocks_of(content)[i] == content[i].block(),
{
}

/// What several borrowed messages hold, one by one.
pub proof fn law_views_of_borrowed_messages(messages: Seq<&Message>, i: int)
    ensures
        borrowed_turns(messages).len() == messages.len(),
        0 <= i < messages.len() ==> borrowed_turns(messages)[i] == messages[i]@,
{
}

} // verus!
