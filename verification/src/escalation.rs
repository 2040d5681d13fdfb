//! Escalation: serve the efficient target, judge its replies, and latch to the capable target once
//! enough consecutive verdicts ask for it.
//!
//! The classifier talks to models, so it is written as steps: [`EscalationClassifier::start`],
//! [`EscalationClassifier::on_reply`] with the efficient target's reply, and
//! [`EscalationClassifier::on_judged`] with the judge's decision on it.

use vstd::prelude::*;

use crate::capability::{label_option, routing_tier, tier_of};
use crate::classification::{decides, decisive, Classification};
use crate::judge::ClassifierContract;
use crate::messages::{blocks_of, turns_of, Block, ContentBlock, Message, Role, Turn};
use crate::model::ModelId;
use crate::request::{facts_option, json_option, Ask, Request};
use crate::tables::TextMap;

verus! {

/// A value that routing stages keep in a session's state.
#[derive(Debug, PartialEq)]
pub enum StateValue {
    Count(u32),
    Text(String),
}

/// A session's state.
pub struct State {
    pub extra: TextMap<StateValue>,
}

/// The state key that holds the streak of consecutive escalation verdicts.
pub open spec fn streak_key() -> Seq<char> {
    "escalation_streak"@
}

/// The streak held in a session's state; zero where none is held.
pub open spec fn streak_of(extra: Map<Seq<char>, StateValue>) -> u32 {
    if extra.contains_key(streak_key()) {
        match extra[streak_key()] {
            StateValue::Count(n) => n,
            _ => 0,
        }
    } else {
        0
    }
}

impl State {
    /// The state of a new session.
    pub fn new() -> (state: Self)
        ensures
            state.extra@ == Map::<Seq<char>, StateValue>::empty(),
    {
        State { extra: TextMap::new() }
    }
}

/// The streak held in a session's state; zero where none is held.
pub fn streak(state: &State) -> (n: u32)
    ensures
        n == streak_of(state.extra@),
{
    match state.extra.get("escalation_streak") {
        Some(StateValue::Count(n)) => *n,
        _ => 0,
    }
}

/// What the judge's best-scored target means for the streak.
#[derive(Clone, Copy, Debug, PartialEq, Eq, Structural)]
pub enum Signal {
    /// The capable target is asked for.
    Escalate,
    /// Another target is asked for.
    Decline,
    /// The judge gave no usable verdict.
    Silent,
}

/// The signal of a best-scored target.
pub open spec fn signal_of(best: Option<Seq<char>>, capable: Seq<char>) -> Signal {
    match best {
        Some(target) => if target == capable {
            Signal::Escalate
        } else {
            Signal::Decline
        },
        None => Signal::Silent,
    }
}

/// The streak after one more signal.
pub open spec fn next_streak(held: int, signal: Signal) -> int {
    match signal {
        Signal::Escalate => held + 1,
        Signal::Decline => 0,
        Signal::Silent => held,
    }
}

/// How the call of the efficient target ended. `E` is an error of the model client.
pub enum EfficientReply<E> {
    /// The request exceeded the efficient target's context window.
    ContextWindowExceeded,
    /// The call failed otherwise.
    CallFailed(E),
    /// The transport failed while the reply was read.
    TransportFailed,
    /// Reading the reply failed otherwise.
    ReadFailed(E),
    /// The reply was read whole; this is the content of its first output, if it has one.
    Answered(Option<Vec<ContentBlock>>),
}

/// What is done about the efficient target's reply.
pub enum ReplyStep<E> {
    /// The capable target serves the request.
    Decided(Classification),
    /// The call's error is the route's error.
    Fail(E),
    /// The error of reading the reply is the route's error, attributed to the target.
    FailReading { target: ModelId, source: E },
    /// Ask the judge with this request, and go on with [`EscalationClassifier::on_judged`].
    Judge(Request),
}

/// The turn that carries the efficient target's reply.
pub open spec fn reply_turn(content: Option<Vec<ContentBlock>>) -> Turn {
    Turn {
        role: Role::Assistant,
        content: match content {
            Some(content) => blocks_of(content@),
            None => Seq::empty(),
        },
    }
}

/// The message that carries the efficient target's reply.
pub fn assistant_message(content: Option<Vec<ContentBlock>>) -> (message: Message)
    ensures
        message@ == reply_turn(content),
{
    match content {
        Some(content) => Message { role: Role::Assistant, content },
        None => {
            let message = Message { role: Role::Assistant, content: Vec::new() };
            assert(message@.content =~= Seq::<Block>::empty());
            message
        },
    }
}

/// Calls the efficient model, judges its response, and latches to capable once the streak
/// confirms.
#[derive(Debug, PartialEq)]
pub struct EscalationClassifier {
    /// Target that produces escalation verdicts.
    pub judge_target: ModelId,
    pub contract: ClassifierContract,
    /// Completion tokens available to a verdict.
    pub max_output_tokens: u64,
    pub capable: ModelId,
    pub efficient: ModelId,
    /// Consecutive escalate verdicts required to latch.
    pub confirmations: u32,
}

impl EscalationClassifier {
    /// Whether a session with this state is confirmed to stay on the capable target.
    pub open spec fn latched(self, extra: Map<Seq<char>, StateValue>) -> bool {
        streak_of(extra) >= self.confirmations
    }

    /// The tier of a selected target.
    pub fn routing_tier(&self, selected: &ModelId) -> (tier: Option<&'static str>)
        ensures
            label_option(tier) == tier_of(selected@, self.efficient@, self.capable@),
    {
        routing_tier(selected, &self.efficient, &self.capable)
    }

    /// The decision for a confirmed session, which needs no call; otherwise the efficient target
    /// is called with the request.
    pub fn start(&self, state: &State) -> (decision: Option<Classification>)
        ensures
            match decision {
                Some(decision) => self.latched(state.extra@) && decision@ == decides(
                    self.capable@,
                ),
                None => !self.latched(state.extra@),
            },
    {
        if streak(state) >= self.confirmations {
            Some(decisive(&self.capable))
        } else {
            None
        }
    }

    /// Takes the efficient target's reply.
    ///
    /// A request that is too long and a transport that fails fall back to the capable target;
    /// other errors stay errors. A reply is appended to the conversation that the judge reads.
    pub fn on_reply<E>(&self, request: &Request, reply: EfficientReply<E>) -> (step: ReplyStep<E>)
        ensures
            match reply {
                EfficientReply::ContextWindowExceeded | EfficientReply::TransportFailed =>
                    step matches ReplyStep::Decided(decision) && decision@ == decides(self.capable@),
                EfficientReply::CallFailed(error) => step == ReplyStep::Fail(error),
                EfficientReply::ReadFailed(error) => step == (ReplyStep::FailReading {
                    target: self.efficient,
                    source: error,
                }),
                EfficientReply::Answered(content) => step matches ReplyStep::Judge(judged)
                    && judged.llm_request@ == (Ask {
                    turns: request.llm_request@.turns.push(reply_turn(content)),
                    ..request.llm_request@
                }) && json_option(judged.raw_request) == json_option(request.raw_request)
                    && facts_option(judged.metadata) == facts_option(request.metadata),
            },
    {
        match reply {
            EfficientReply::ContextWindowExceeded => ReplyStep::Decided(decisive(&self.capable)),
            EfficientReply::TransportFailed => ReplyStep::Decided(decisive(&self.capable)),
            EfficientReply::CallFailed(error) => ReplyStep::Fail(error),
            EfficientReply::ReadFailed(error) => ReplyStep::FailReading {
                target: self.efficient.clone(),
                source: error,
            },
            EfficientReply::Answered(content) => {
                let mut judged = request.copy();
                let ghost copied = judged.llm_request@;
                let ghost before = judged.llm_request.messages@;
                let message = assistant_message(content);
                judged.llm_request.messages.push(message);
                proof {
                    assert(judged.llm_request@.turns =~= turns_of(before).push(
                        reply_turn(content),
                    ));
                    assert(judged.llm_request@.instructions =~= copied.instructions);
                }
                ReplyStep::Judge(judged)
            },
        }
    }

    /// The target that a verdict asks for.
    pub fn asked_target(&self, escalate: bool) -> (target: &ModelId)
        ensures
            *target == if escalate {
                self.capable
            } else {
                self.efficient
            },
    {
        if escalate {
            &self.capable
        } else {
            &self.efficient
        }
    }

    /// Takes the target that the judge scored best, records the streak, and decides: the capable
    /// target once the streak confirms, else the efficient target. Also says whether the reply
    /// already bought is served.
    pub fn on_judged(&self, state: &mut State, best: Option<&ModelId>) -> (r: (
        Classification,
        bool,
    ))
        requires
            streak_of(old(state).extra@) < u32::MAX,
        ensures
            ({
                let signal = signal_of(
                    match best {
                        Some(target) => Some(target@),
                        None => None,
                    },
                    self.capable@,
                );
                let pending = next_streak(streak_of(old(state).extra@) as int, signal);
                &&& final(state).extra@ == old(state).extra@.insert(
                    streak_key(),
                    StateValue::Count(pending as u32),
                )
                &&& r.1 == !(signal == Signal::Escalate && pending >= self.confirmations)
                &&& r.0@ == if r.1 {
                    decides(self.efficient@)
                } else {
                    decides(self.capable@)
                }
            }),
    {
        let held = streak(state);
        let (escalate, pending): (bool, u32) = match best {
            Some(target) => if target.same(&self.capable) {
                (true, held + 1)
            } else {
                (false, 0)
            },
            None => (false, held),
        };
        state.extra.insert("escalation_streak".to_owned(), StateValue::Count(pending));
        if escalate && pending >= self.confirmations {
            (decisive(&self.capable), false)
        } else {
            (decisive(&self.efficient), true)
        }
    }
}

// ── Laws ────────────────────────────────────────────────────────────────────

/// The streak after a run of signals.
pub open spec fn streak_after(held: int, signals: Seq<Signal>) -> int
    decreases signals.len(),
{
    if signals.len() == 0 {
        held
    } else {
        next_streak(streak_after(held, signals.drop_last()), signals.last())
    }
}

/// From no streak, uninterrupted escalation verdicts confirm a session exactly when there are
/// `confirmations` of them, and silent verdicts in between do not matter.
pub proof fn law_consecutive_verdicts_confirm(signals: Seq<Signal>)
    requires
        forall|i: int| 0 <= i < signals.len() ==> #[trigger] signals[i] != Signal::Decline,
    ensures
        streak_after(0, signals) == signals.filter(|signal: Signal| signal == Signal::Escalate).len(),
    decreases signals.len(),
{
    reveal(Seq::filter);
    if signals.len() > 0 {
        let front = signals.drop_last();
        assert forall|i: int| 0 <= i < front.len() implies #[trigger] front[i]
            != Signal::Decline by {
            assert(front[i] == signals[i]);
        }
        law_consecutive_verdicts_confirm(front);
        assert(signals.last() == signals[signals.len() - 1]);
    }
}

/// A declining verdict starts the count over.
pub proof fn law_declining_resets_the_streak(held: int, before: Seq<Signal>, after: Seq<Signal>)
    ensures
        streak_after(held, before.push(Signal::Decline) + after) == streak_after(0, after),
    decreases after.len(),
{
    let all = before.push(Signal::Decline) + after;
    if after.len() > 0 {
        law_declining_resets_the_streak(held, before, after.drop_last());
        assert(all.drop_last() =~= before.push(Signal::Decline) + after.drop_last());
        assert(all.last() == after.last());
    } else {
        assert(all =~= before.push(Signal::Decline));
        assert(all.drop_last() =~= before);
    }
}

/// A session confirmed by a verdict stays confirmed: its recorded streak latches.
pub proof fn law_confirmed_sessions_stay_capable(
    classifier: EscalationClassifier,
    extra: Map<Seq<char>, StateValue>,
    pending: u32,
)
    ensures
        classifier.latched(extra.insert(streak_key(), StateValue::Count(pending))) == (pending
            >= classifier.confirmations),
{
}

/// In a session that was not confirmed, the capable target is decided on exactly when the recorded
/// streak confirms the session.
pub proof fn law_decision_follows_the_latch(
    classifier: EscalationClassifier,
    extra: Map<Seq<char>, StateValue>,
    signal: Signal,
)
    requires
        !classifier.latched(extra),
        streak_of(extra) < u32::MAX,
    ensures
        ({
            let pending = next_streak(streak_of(extra) as int, signal);
            let next = extra.insert(streak_key(), StateValue::Count(pending as u32));
            (signal == Signal::Escalate && pending >= classifier.confirmations)
                == classifier.latched(next)
        }),
{
}

/// A verdict for the capable target lengthens the streak by one, one for another target ends it,
/// and no verdict leaves it.
pub proof fn law_streaks_count_verdicts_for_the_capable_target(
    held: int,
    best: Seq<char>,
    capable: Seq<char>,
)
    ensures
        next_streak(held, signal_of(Some(capable), capable)) == held + 1,
        best != capable ==> next_streak(held, signal_of(Some(best), capable)) == 0,
        next_streak(held, signal_of(None, capable)) == held,
        signal_of(Some(best), capable) == Signal::Escalate <==> best == capable,
{
}

/// The held streak is the count under its key, and none without one; it latches a session exactly
/// from the required confirmations on.
pub proof fn law_the_held_streak_latches(
    classifier: EscalationClassifier,
    extra: Map<Seq<char>, StateValue>,
    count: u32,
    text: String,
)
    ensures
        streak_of(extra.insert("escalation_streak"@, StateValue::Count(count))) == count,
        streak_of(extra.insert("escalation_streak"@, StateValue::Text(text))) == 0,
        !extra.contains_key("escalation_streak"@) ==> streak_of(extra) == 0,
        classifier.latched(extra.insert("escalation_streak"@, StateValue::Count(count))) <==> count
            >= classifier.confirmations,
{
}

/// The judge reads the reply as an assistant turn with the reply's blocks, or with none.
pub proof fn law_replies_are_assistant_turns(content: Vec<ContentBlock>)
    ensures
        reply_turn(Some(content)).role == Role::Assistant,
        reply_turn(Some(content)).content == blocks_of(content@),
        reply_turn(None).role == Role::Assistant,
        reply_turn(None).content.len() == 0,
{
}

} // verus!
