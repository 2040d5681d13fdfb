//! Cost-aware routing over a capability ladder, with confidence zones and fan-out.
//!
//! The classifier talks to models, so it is written as steps. Each step takes what came back from
//! the outside, decides, and says what is to be done next:
//!
//! 1. [`CostAwareClassifier::on_verdict`] takes the capability judge's verdict.
//! 2. [`CostAwareClassifier::on_sample`] takes the bandit sample that step 1 may ask for.
//! 3. [`CostAwareClassifier::on_answers`] takes the answers of the rungs that were fanned out to.
//! 4. [`pick_winner`] takes the output judge's pick among several answers.

use vstd::arithmetic::power2::{lemma_pow2_pos, pow2};
use vstd::prelude::*;
use vstd::string::*;

use crate::binary64::{
    law_addition_commutes, law_addition_is_monotone, lemma_below_finite, lemma_nearest_exact,
    lemma_nearest_exists, lemma_nearest_monotone, lemma_scaled_increases, lemma_sum_value,
    magnitude_of, nearest, rounded, scaled, signed, Binary64, HALF, INFINITY_BITS, ONE, ZERO,
};
use crate::capability::{
    first_adequate, find_adequate, fraction, is_fraction, CapabilityTarget, TaskClassifierPolicy,
    TaskClassifierVerdict,
};
use crate::classification::{abstains, abstention, decides, decisive, Classification, Ruling};
use crate::error::AlgorithmError;
use crate::judge::{
    judge_ask, judge_request, text_turn, ClassifierContract, ClassifierContractConfig,
};
use crate::messages::{task_messages, task_turns, turns_of, Message, Role, TaskInput, Turn};
use crate::model::{names_of, ModelId};
use crate::request::{facts_option, Request};
use crate::text::{decimal, push_decimal};
use crate::thompson::{
    bucket_label, estimate_request_tokens, lemma_text_chars_grow, text_chars, token_bucket,
};

verus! {

/// Context headroom: a rung is eligible only if its window fits the request with 15% to spare, so
/// the estimate's slack does not push a call over the limit.
pub const CONTEXT_HEADROOM_PERCENT: u64 = 115;

// ── Configuration ───────────────────────────────────────────────────────────

/// Confidence-zone and fan-out settings for cost-aware routing.
///
/// Zones partition the judge's `p_solve`: high confidence answers with a single cheapest-adequate
/// call, low confidence routes straight to the most capable rung, and the mid band fans out to
/// several rungs and lets an output judge pick the best answer.
#[derive(Debug, PartialEq)]
pub struct ZoneConfig {
    /// `p_solve` at or above this answers with one cheapest-adequate call.
    pub high_threshold: Binary64,
    /// `p_solve` below this routes straight to the most capable rung.
    pub low_threshold: Binary64,
    /// How many eligible rungs a fan-out calls before their answers are judged.
    pub fan_out: usize,
    /// Target that judges the fanned-out candidate answers.
    pub output_judge_target: ModelId,
    /// Prompt and verdict contract settings for the output judge.
    pub output_judge_contract: ClassifierContractConfig,
    /// Maximum completion tokens available to the output judge verdict.
    pub output_judge_max_output_tokens: u64,
}

/// Zone boundaries with the output-judge contract compiled, ready to serve.
#[derive(Debug, PartialEq)]
pub struct ZoneRuntime {
    pub low_threshold: Binary64,
    pub high_threshold: Binary64,
    pub fan_out: usize,
    pub output_judge_target: ModelId,
    pub output_contract: ClassifierContract,
    pub output_max_output_tokens: u64,
}

impl ZoneConfig {
    /// The first thing wrong with these settings, if any.
    pub open spec fn fault(self) -> Option<AlgorithmError> {
        if !is_fraction(self.low_threshold) || !is_fraction(self.high_threshold) {
            Some(
                AlgorithmError::ZoneThresholds {
                    low: self.low_threshold,
                    high: self.high_threshold,
                },
            )
        } else if self.high_threshold.less(self.low_threshold) {
            Some(AlgorithmError::ZoneOrder { low: self.low_threshold, high: self.high_threshold })
        } else if self.fan_out == 0 {
            Some(AlgorithmError::ZoneFanOut)
        } else if self.output_judge_max_output_tokens == 0 {
            Some(AlgorithmError::OutputJudgeMaxOutputTokens)
        } else {
            None
        }
    }

    /// Checks the zone boundaries, the fan-out and the output judge's completion tokens.
    pub fn validate(&self) -> (r: Result<(), AlgorithmError>)
        ensures
            match r {
                Ok(_) => self.fault() is None,
                Err(error) => self.fault() == Some(error),
            },
    {
        if !fraction(self.low_threshold) || !fraction(self.high_threshold) {
            return Err(
                AlgorithmError::ZoneThresholds {
                    low: self.low_threshold,
                    high: self.high_threshold,
                },
            );
        }
        if self.high_threshold.lt(self.low_threshold) {
            return Err(
                AlgorithmError::ZoneOrder { low: self.low_threshold, high: self.high_threshold },
            );
        }
        if self.fan_out == 0 {
            return Err(AlgorithmError::ZoneFanOut);
        }
        if self.output_judge_max_output_tokens == 0 {
            return Err(AlgorithmError::OutputJudgeMaxOutputTokens);
        }
        Ok(())
    }

    /// The runtime of valid settings, given the compiled output-judge contract.
    pub open spec fn runtime(self, contract: ClassifierContract) -> ZoneRuntime {
        ZoneRuntime {
            low_threshold: self.low_threshold,
            high_threshold: self.high_threshold,
            fan_out: self.fan_out,
            output_judge_target: self.output_judge_target,
            output_contract: contract,
            output_max_output_tokens: self.output_judge_max_output_tokens,
        }
    }

    /// Validates the settings and joins them with the output-judge contract, whose compilation
    /// gave `contract`.
    pub fn build_runtime(&self, contract: Result<ClassifierContract, String>) -> (r: Result<
        ZoneRuntime,
        AlgorithmError,
    >)
        ensures
            r == match self.fault() {
                Some(error) => Err::<ZoneRuntime, AlgorithmError>(error),
                None => match contract {
                    Ok(contract) => Ok(self.runtime(contract)),
                    Err(message) => Err(AlgorithmError::Contract { message }),
                },
            },
    {
        match self.validate() {
            Ok(_) => {},
            Err(error) => {
                return Err(error);
            },
        }
        match contract {
            Ok(output_contract) => Ok(
                ZoneRuntime {
                    low_threshold: self.low_threshold,
                    high_threshold: self.high_threshold,
                    fan_out: self.fan_out,
                    output_judge_target: self.output_judge_target.clone(),
                    output_contract,
                    output_max_output_tokens: self.output_judge_max_output_tokens,
                },
            ),
            Err(message) => Err(AlgorithmError::Contract { message }),
        }
    }
}

/// Optional bandit correction to the judge's confidence.
///
/// The bandit never replaces the judge: it only shifts `p_solve` before zone classification.
#[derive(Clone, Copy, Debug, PartialEq, Eq, Structural)]
pub struct BanditConfig {
    /// How far one sample can move `p_solve`: `p_solve + (sample - 0.5) * scale`.
    pub scale: Binary64,
}

// ── Zones ───────────────────────────────────────────────────────────────────

/// Which zone a validated verdict falls into.
#[derive(Clone, Copy, Debug, PartialEq, Eq, Structural)]
pub enum Zone {
    /// High confidence: one cheapest-adequate call.
    Answer,
    /// Low confidence or an unsupported boundary: the most capable rung.
    Capable,
    /// Mid confidence: fan out and judge the candidates' answers.
    FanOut,
}

/// The zone of a confidence at a boundary.
pub open spec fn zone_of(p_solve: Binary64, boundary: Seq<char>, zones: ZoneRuntime) -> Zone {
    if boundary == "unsupported"@ {
        Zone::Capable
    } else if zones.high_threshold.at_most(p_solve) {
        Zone::Answer
    } else if p_solve.less(zones.low_threshold) {
        Zone::Capable
    } else {
        Zone::FanOut
    }
}

/// The confidence after one bandit sample.
pub open spec fn corrected(p_solve: Binary64, sample: Binary64, scale: Binary64) -> Binary64 {
    p_solve.plus(sample.minus(Binary64::of(HALF)).times(scale)).clamped(
        Binary64::of(ZERO),
        Binary64::of(ONE),
    )
}

/// Whether a rung may be fanned out to: it clears the judged level, if there is one, and fits the
/// request.
pub open spec fn eligible(rung: CapabilityTarget, level: Option<Binary64>, needed: Option<u64>) -> bool {
    (level matches Some(required) ==> required.at_most(rung.capability)) && !rung.overflows(needed)
}

/// The rungs that a fan-out calls: the first `limit` eligible ones of the ladder.
pub open spec fn fanned(
    ladder: Seq<CapabilityTarget>,
    level: Option<Binary64>,
    needed: Option<u64>,
    limit: nat,
) -> Seq<Seq<char>> {
    let all = ladder.filter(|rung: CapabilityTarget| eligible(rung, level, needed)).map_values(
        |rung: CapabilityTarget| rung.target@,
    );
    if all.len() <= limit {
        all
    } else {
        all.take(limit as int)
    }
}

/// Whether the estimated size of a conversation, with headroom, fits the machine's integers.
pub open spec fn measurable(turns: Seq<Turn>) -> bool {
    text_chars(turns) <= usize::MAX && (text_chars(turns) / 4) * CONTEXT_HEADROOM_PERCENT
        <= u64::MAX
}

/// Whether the estimated size of a request, with headroom, fits the machine's integers.
pub fn is_measurable(request: &Request) -> (r: bool)
    ensures
        r == measurable(request.llm_request@.turns),
{
    let ghost turns = request.llm_request@.turns;
    let mut chars: usize = 0;
    let mut i: usize = 0;
    assert(turns.take(0) =~= Seq::<Turn>::empty());
    while i < request.llm_request.messages.len()
        invariant
            i <= turns.len(),
            turns == turns_of(request.llm_request.messages@),
            chars == text_chars(turns.take(i as int)),
        decreases request.llm_request.messages.len() - i,
    {
        let length: usize = match request.llm_request.messages[i].text_content("\n") {
            Some(text) => text.as_str().unicode_len(),
            None => 0,
        };
        proof {
            assert(turns.take(i + 1).drop_last() =~= turns.take(i as int));
            assert(turns.take(i + 1).last() == turns[i as int]);
            lemma_text_chars_grow(turns, i + 1);
        }
        match chars.checked_add(length) {
            Some(sum) => {
                chars = sum;
            },
            None => {
                return false;
            },
        }
        i = i + 1;
    }
    assert(turns.take(i as int) =~= turns);
    ((chars / 4) as u64).checked_mul(CONTEXT_HEADROOM_PERCENT).is_some()
}

/// The estimated size of a conversation with context headroom, rounded up to a whole token.
pub open spec fn needed_for(turns: Seq<Turn>) -> u64 {
    (((text_chars(turns) / 4) * CONTEXT_HEADROOM_PERCENT + 99) / 100) as u64
}

/// The cheapest rung that clears the judged level; without a level, the cheapest rung.
pub open spec fn cheapest_clearing(ladder: Seq<CapabilityTarget>, level: Option<Binary64>) -> Option<
    Seq<char>,
> {
    let at = match level {
        Some(required) => first_adequate(ladder, required, None),
        None => 0,
    };
    if at < ladder.len() {
        Some(ladder[at].target@)
    } else {
        None
    }
}

// ── The classifier ──────────────────────────────────────────────────────────

/// Routes among a cost-ascending capability ladder, optionally fanning out over the mid-confidence
/// zone and judging the candidates' answers with an output judge.
#[derive(Debug, PartialEq)]
pub struct CostAwareClassifier {
    /// Target that produces capability verdicts.
    pub judge_target: ModelId,
    /// Which messages the capability judge is shown.
    pub input: TaskInput,
    /// The capability judge's contract.
    pub contract: ClassifierContract,
    /// Completion tokens available to a capability verdict.
    pub max_output_tokens: u64,
    pub policy: TaskClassifierPolicy,
    /// Cost-ascending capability ladder.
    pub ranked: Vec<CapabilityTarget>,
    /// The most capable rung: the low zone's target and the cascade's fallback.
    pub capable_target: ModelId,
    pub zones: Option<ZoneRuntime>,
    /// Optional bandit correction to the judge's confidence.
    pub bandit: Option<BanditConfig>,
}

/// What the classifier does next.
#[derive(Debug, PartialEq)]
pub enum ScoreStep {
    /// The decision is made; no answer has been bought yet.
    Decided(Classification),
    /// Draw a bandit sample for this arm and go on with [`CostAwareClassifier::on_sample`].
    Sample { target: ModelId, bucket: &'static str },
    /// Call these rungs with the request, concurrently, and go on with
    /// [`CostAwareClassifier::on_answers`].
    FanOut { candidates: Vec<ModelId> },
}

/// What a step holds.
pub enum Step {
    Decided(Ruling),
    Sample { target: Seq<char>, bucket: Seq<char> },
    FanOut { candidates: Seq<Seq<char>> },
}

impl View for ScoreStep {
    type V = Step;

    open spec fn view(&self) -> Step {
        match *self {
            ScoreStep::Decided(decision) => Step::Decided(decision@),
            ScoreStep::Sample { target, bucket } => Step::Sample {
                target: target@,
                bucket: bucket@,
            },
            ScoreStep::FanOut { candidates } => Step::FanOut { candidates: names_of(candidates@) },
        }
    }
}

impl CostAwareClassifier {
    /// The fan-out step: several candidates are called, one is decided on, and none leaves the
    /// task to the most capable rung.
    pub open spec fn fan_out_step(
        self,
        verdict: TaskClassifierVerdict,
        needed: u64,
        limit: nat,
    ) -> Step {
        let candidates = fanned(self.ranked@, verdict.minimum_capability, Some(needed), limit);
        if candidates.len() == 0 {
            Step::Decided(decides(self.capable_target@))
        } else if candidates.len() == 1 {
            Step::Decided(decides(candidates[0]))
        } else {
            Step::FanOut { candidates }
        }
    }

    /// The step for a valid verdict with a given confidence.
    pub open spec fn zone_step(
        self,
        verdict: TaskClassifierVerdict,
        needed: u64,
        p_solve: Binary64,
        zones: ZoneRuntime,
    ) -> Step {
        match zone_of(p_solve, verdict.capability_boundary@, zones) {
            Zone::Answer => Step::Decided(self.policy.ruling(verdict, Some(needed))),
            Zone::Capable => Step::Decided(decides(self.capable_target@)),
            Zone::FanOut => self.fan_out_step(verdict, needed, zones.fan_out as nat),
        }
    }

    /// The step for whatever the capability judge said.
    pub open spec fn verdict_step(
        self,
        verdict: Option<TaskClassifierVerdict>,
        turns: Seq<Turn>,
    ) -> Step {
        match verdict {
            Some(verdict) if verdict.valid() => match self.zones {
                None => Step::Decided(self.policy.ruling(verdict, Some(needed_for(turns)))),
                Some(zones) => match (
                    self.bandit,
                    cheapest_clearing(self.ranked@, verdict.minimum_capability),
                ) {
                    (Some(_), Some(target)) => Step::Sample {
                        target,
                        bucket: bucket_label(text_chars(turns) / 4),
                    },
                    _ => self.zone_step(verdict, needed_for(turns), verdict.p_solve, zones),
                },
            },
            _ => Step::Decided(abstains()),
        }
    }

    /// The request for the capability judge.
    pub fn judge_request(&self, request: &Request) -> (judged: Request)
        ensures
            judged.llm_request@ == judge_ask(
                request.llm_request@.model,
                self.input.shown(request.llm_request@.turns),
                self.contract,
                self.max_output_tokens,
            ),
            judged.raw_request is None,
            facts_option(judged.metadata) == facts_option(request.metadata),
    {
        let messages = self.input.build_messages(&request.llm_request.messages);
        judge_request(request, messages, &self.contract, self.max_output_tokens)
    }

    /// The request's estimated token size with context headroom, rounded up so that a window of
    /// that many tokens has all of it to spare.
    pub fn needed_tokens(request: &Request) -> (needed: u64)
        requires
            measurable(request.llm_request@.turns),
        ensures
            needed == needed_for(request.llm_request@.turns),
            needed * 100 >= (text_chars(request.llm_request@.turns) / 4) * CONTEXT_HEADROOM_PERCENT,
    {
        let padded: u64 = estimate_request_tokens(request) * CONTEXT_HEADROOM_PERCENT;
        if padded % 100 == 0 {
            padded / 100
        } else {
            padded / 100 + 1
        }
    }

    /// Maps a confidence to its zone.
    ///
    /// An unsupported boundary always goes to the capable rung: the judge already distrusts the
    /// cheap tiers, whatever `p_solve` says.
    pub fn zone(p_solve: Binary64, verdict: &TaskClassifierVerdict, zones: &ZoneRuntime) -> (zone:
        Zone)
        ensures
            zone == zone_of(p_solve, verdict.capability_boundary@, *zones),
    {
        if verdict.is_unsupported() {
            Zone::Capable
        } else if zones.high_threshold.le(p_solve) {
            Zone::Answer
        } else if p_solve.lt(zones.low_threshold) {
            Zone::Capable
        } else {
            Zone::FanOut
        }
    }

    /// The cheapest rung clearing the judge's level, whose arm corrects the confidence.
    pub fn cheapest_eligible(&self, verdict: &TaskClassifierVerdict) -> (target: Option<&ModelId>)
        ensures
            match target {
                Some(target) => cheapest_clearing(self.ranked@, verdict.minimum_capability) == Some(
                    target@,
                ),
                None => cheapest_clearing(self.ranked@, verdict.minimum_capability) is None,
            },
    {
        let at: usize = match verdict.minimum_capability {
            Some(required) => find_adequate(&self.ranked, required, None),
            None => 0,
        };
        if at < self.ranked.len() {
            Some(&self.ranked[at].target)
        } else {
            None
        }
    }

    /// The judge's `p_solve`, nudged by a sample of the cheapest adequate rung's arm.
    pub fn corrected_p_solve(
        verdict: &TaskClassifierVerdict,
        sample: Binary64,
        bandit: &BanditConfig,
    ) -> (p_solve: Binary64)
        ensures
            p_solve == corrected(verdict.p_solve, sample, bandit.scale),
    {
        proof {
            assert(scaled(0) == 0);
            lemma_scaled_increases(0, Binary64::of(ONE).magnitude());
        }
        verdict.p_solve.add(sample.sub(Binary64::of(HALF)).mul(bandit.scale)).clamp(
            Binary64::of(ZERO),
            Binary64::of(ONE),
        )
    }

    /// The rungs that a fan-out calls, cheapest first.
    fn candidates(&self, verdict: &TaskClassifierVerdict, needed: u64, limit: usize) -> (targets:
        Vec<ModelId>)
        ensures
            names_of(targets@) == fanned(
                self.ranked@,
                verdict.minimum_capability,
                Some(needed),
                limit as nat,
            ),
    {
        let ghost ladder = self.ranked@;
        let ghost level = verdict.minimum_capability;
        let ghost keep = |rung: CapabilityTarget| eligible(rung, level, Some(needed));
        let ghost name = |rung: CapabilityTarget| rung.target@;
        let mut targets: Vec<ModelId> = Vec::new();
        let mut i: usize = 0;
        proof {
            reveal(Seq::filter);
            assert(ladder.take(0).filter(keep).map_values(name) =~= Seq::<Seq<char>>::empty());
            assert(names_of(targets@) =~= Seq::<Seq<char>>::empty());
        }
        while i < self.ranked.len() && targets.len() < limit
            invariant
                i <= self.ranked@.len(),
                targets@.len() <= limit,
                ladder == self.ranked@,
                level == verdict.minimum_capability,
                keep == |rung: CapabilityTarget| eligible(rung, level, Some(needed)),
                name == |rung: CapabilityTarget| rung.target@,
                names_of(targets@) == ladder.take(i as int).filter(keep).map_values(name),
            decreases self.ranked.len() - i,
        {
            let rung = &self.ranked[i];
            let clears = match verdict.minimum_capability {
                Some(required) => required.le(rung.capability),
                None => true,
            };
            let ghost sofar = targets@;
            proof {
                reveal(Seq::filter);
                assert(ladder.take(i + 1).drop_last() =~= ladder.take(i as int));
                assert(ladder.take(i + 1).last() == *rung);
            }
            if clears && rung.fits_context(Some(needed)) {
                targets.push(rung.target.clone());
                proof {
                    assert(keep(*rung));
                    assert(names_of(targets@) =~= names_of(sofar).push(rung.target@));
                    assert(ladder.take(i + 1).filter(keep).map_values(name) =~= ladder.take(
                        i as int,
                    ).filter(keep).map_values(name).push(rung.target@));
                }
            } else {
                assert(!keep(*rung));
            }
            i = i + 1;
        }
        proof {
            let all = ladder.filter(keep).map_values(name);
            if i < ladder.len() {
                lemma_filter_prefix(ladder, keep, i as int);
                let some = ladder.take(i as int).filter(keep);
                assert(all.take(some.len() as int) =~= some.map_values(name));
                if all.len() <= limit {
                    assert(all =~= some.map_values(name));
                }
            } else {
                assert(ladder.take(i as int) =~= ladder);
                if all.len() > limit {
                    assert(targets@.len() == all.len());
                } else {
                    assert(names_of(targets@) =~= all);
                }
            }
        }
        targets
    }

    /// The step for a valid verdict with a given confidence.
    fn on_confidence(
        &self,
        request: &Request,
        verdict: &TaskClassifierVerdict,
        p_solve: Binary64,
        zones: &ZoneRuntime,
    ) -> (step: ScoreStep)
        requires
            measurable(request.llm_request@.turns),
        ensures
            step@ == self.zone_step(
                *verdict,
                needed_for(request.llm_request@.turns),
                p_solve,
                *zones,
            ),
    {
        let needed = Self::needed_tokens(request);
        match Self::zone(p_solve, verdict, zones) {
            Zone::Answer => ScoreStep::Decided(self.policy.classify(verdict, Some(needed))),
            Zone::Capable => ScoreStep::Decided(decisive(&self.capable_target)),
            Zone::FanOut => {
                let candidates = self.candidates(verdict, needed, zones.fan_out);
                proof {
                    assert(names_of(candidates@).len() == candidates@.len());
                }
                if candidates.len() == 0 {
                    ScoreStep::Decided(decisive(&self.capable_target))
                } else if candidates.len() == 1 {
                    assert(names_of(candidates@)[0] == candidates@[0]@);
                    ScoreStep::Decided(decisive(&candidates[0]))
                } else {
                    ScoreStep::FanOut { candidates }
                }
            },
        }
    }

    /// Takes the capability judge's verdict; none stands for a judge that failed.
    pub fn on_verdict(&self, request: &Request, verdict: Option<&TaskClassifierVerdict>) -> (step:
        ScoreStep)
        requires
            measurable(request.llm_request@.turns),
        ensures
            step@ == self.verdict_step(
                match verdict {
                    Some(verdict) => Some(*verdict),
                    None => None,
                },
                request.llm_request@.turns,
            ),
    {
        let verdict = match verdict {
            Some(verdict) => if verdict.is_valid() {
                verdict
            } else {
                return ScoreStep::Decided(abstention());
            },
            None => {
                return ScoreStep::Decided(abstention());
            },
        };
        match &self.zones {
            None => {
                let needed = Self::needed_tokens(request);
                ScoreStep::Decided(self.policy.classify(verdict, Some(needed)))
            },
            Some(zones) => {
                if self.bandit.is_some() {
                    if let Some(target) = self.cheapest_eligible(verdict) {
                        return ScoreStep::Sample {
                            target: target.clone(),
                            bucket: token_bucket(estimate_request_tokens(request)),
                        };
                    }
                }
                self.on_confidence(request, verdict, verdict.p_solve, zones)
            },
        }
    }

    /// Takes the bandit sample that the verdict asked for.
    pub fn on_sample(
        &self,
        request: &Request,
        verdict: &TaskClassifierVerdict,
        sample: Binary64,
    ) -> (step: ScoreStep)
        requires
            self.zones is Some,
            self.bandit is Some,
            measurable(request.llm_request@.turns),
        ensures
            step@ == self.zone_step(
                *verdict,
                needed_for(request.llm_request@.turns),
                corrected(verdict.p_solve, sample, self.bandit->0.scale),
                self.zones->0,
            ),
            !(step@ is Sample),
    {
        match (&self.zones, &self.bandit) {
            (Some(zones), Some(bandit)) => {
                let p_solve = Self::corrected_p_solve(verdict, sample, bandit);
                self.on_confidence(request, verdict, p_solve, zones)
            },
            _ => ScoreStep::Decided(abstention()),
        }
    }
}

/// A filtered prefix is a prefix of the filtered whole.
proof fn lemma_filter_prefix<T>(s: Seq<T>, keep: spec_fn(T) -> bool, n: int)
    requires
        0 <= n <= s.len(),
    ensures
        s.take(n).filter(keep).len() <= s.filter(keep).len(),
        s.filter(keep).take(s.take(n).filter(keep).len() as int) == s.take(n).filter(keep),
{
    Seq::filter_distributes_over_add(s.take(n), s.skip(n), keep);
    assert(s.take(n) + s.skip(n) =~= s);
    assert(s.filter(keep).take(s.take(n).filter(keep).len() as int) =~= s.take(n).filter(keep));
}

// ── Candidate answers ───────────────────────────────────────────────────────

/// An answer that one fanned-out rung gave: its completion text, and the response itself.
pub struct Candidate<A> {
    pub target: ModelId,
    pub text: String,
    pub answer: A,
}

/// What is done with the answers that came back.
pub enum AnswersStep<A> {
    /// Every candidate failed: abstain, so the cascade's fallback decides.
    Abstain(Classification),
    /// A lone survivor needs no comparison.
    Lone(Classification, Candidate<A>),
    /// Ask the output judge, and go on with [`pick_winner`].
    Compare { judge_target: ModelId, request: Request, candidates: Vec<Candidate<A>> },
}

/// What one candidate holds.
pub open spec fn candidate_of<A>(candidate: Candidate<A>) -> (Seq<char>, Seq<char>, A) {
    (candidate.target@, candidate.text@, candidate.answer)
}

/// What several candidates hold.
pub open spec fn candidates_of<A>(candidates: Seq<Candidate<A>>) -> Seq<(Seq<char>, Seq<char>, A)> {
    candidates.map_values(|candidate: Candidate<A>| candidate_of(candidate))
}

/// The answers among the replies, in order, each with its target.
pub open spec fn survivors<A>(
    targets: Seq<Seq<char>>,
    replies: Seq<Option<(String, A)>>,
) -> Seq<(Seq<char>, Seq<char>, A)>
    decreases replies.len(),
{
    if replies.len() == 0 {
        Seq::empty()
    } else {
        let sofar = survivors(targets, replies.drop_last());
        match replies.last() {
            Some(reply) => sofar.push((targets[replies.len() - 1], reply.0@, reply.1)),
            None => sofar,
        }
    }
}

/// The text by which the output judge is shown the candidate answers, numbered from 0.
pub open spec fn comparison(texts: Seq<Seq<char>>) -> Seq<char>
    decreases texts.len(),
{
    if texts.len() == 0 {
        "Candidate answers, numbered from 0:\n"@
    } else {
        comparison(texts.drop_last()) + "\n--- candidate "@ + decimal((texts.len() - 1) as nat)
            + " ---\n"@ + texts.last() + "\n"@
    }
}

/// The texts of several candidates.
pub open spec fn texts_of<A>(candidates: Seq<Candidate<A>>) -> Seq<Seq<char>> {
    candidates.map_values(|candidate: Candidate<A>| candidate.text@)
}

impl CostAwareClassifier {
    /// Builds the output-judge request: the trimmed task, then the numbered candidates.
    pub fn compare_request<A>(
        request: &Request,
        candidates: &Vec<Candidate<A>>,
        zones: &ZoneRuntime,
    ) -> (judged: Request)
        ensures
            judged.llm_request@ == judge_ask(
                request.llm_request@.model,
                task_turns(request.llm_request@.turns).push(
                    text_turn(Role::User, comparison(texts_of(candidates@))),
                ),
                zones.output_contract,
                zones.output_max_output_tokens,
            ),
            judged.raw_request is None,
            facts_option(judged.metadata) == facts_option(request.metadata),
    {
        let ghost texts = texts_of(candidates@);
        let mut messages = task_messages(&request.llm_request.messages);
        let mut text = "Candidate answers, numbered from 0:\n".to_owned();
        let mut i: usize = 0;
        assert(texts.take(0) =~= Seq::<Seq<char>>::empty());
        while i < candidates.len()
            invariant
                i <= candidates@.len(),
                texts == texts_of(candidates@),
                text@ == comparison(texts.take(i as int)),
            decreases candidates.len() - i,
        {
            text.append("\n--- candidate ");
            push_decimal(&mut text, i as u64);
            text.append(" ---\n");
            text.append(candidates[i].text.as_str());
            text.append("\n");
            proof {
                assert(texts.take(i + 1).drop_last() =~= texts.take(i as int));
                assert(texts.take(i + 1).last() == candidates@[i as int].text@);
            }
            i = i + 1;
        }
        assert(texts.take(i as int) =~= texts);
        let ghost task = messages@;
        messages.push(Message::text(Role::User, text.as_str()));
        assert(turns_of(messages@) =~= turns_of(task).push(
            text_turn(Role::User, comparison(texts)),
        ));
        judge_request(request, messages, &zones.output_contract, zones.output_max_output_tokens)
    }

    /// Takes the replies of the rungs that were fanned out to, one per target; a rung that failed,
    /// or whose answer could not be buffered, gave none.
    pub fn on_answers<A>(
        request: &Request,
        targets: Vec<ModelId>,
        replies: Vec<Option<(String, A)>>,
        zones: &ZoneRuntime,
    ) -> (step: AnswersStep<A>)
        requires
            targets@.len() == replies@.len(),
        ensures
            ({
                let answers = survivors(names_of(targets@), replies@);
                match step {
                    AnswersStep::Abstain(decision) => answers.len() == 0 && decision@ == abstains(),
                    AnswersStep::Lone(decision, candidate) => answers == seq![
                        candidate_of(candidate),
                    ] && decision@ == decides(candidate.target@),
                    AnswersStep::Compare { judge_target, request: judged, candidates } => {
                        &&& answers.len() >= 2
                        &&& candidates_of(candidates@) == answers
                        &&& judge_target == zones.output_judge_target
                        &&& judged.llm_request@ == judge_ask(
                            request.llm_request@.model,
                            task_turns(request.llm_request@.turns).push(
                                text_turn(Role::User, comparison(texts_of(candidates@))),
                            ),
                            zones.output_contract,
                            zones.output_max_output_tokens,
                        )
                        &&& judged.raw_request is None
                        &&& facts_option(judged.metadata) == facts_option(request.metadata)
                    },
                }
            }),
    {
        let mut candidates = collect_answers(targets, replies);
        proof {
            assert(candidates_of(candidates@).len() == candidates@.len());
        }
        if candidates.len() == 0 {
            return AnswersStep::Abstain(abstention());
        }
        if candidates.len() == 1 {
            let ghost all = candidates@;
            let candidate = candidates.swap_remove(0);
            assert(candidates_of(all) =~= seq![candidate_of(candidate)]);
            return AnswersStep::Lone(decisive(&candidate.target), candidate);
        }
        let judged = Self::compare_request(request, &candidates, zones);
        AnswersStep::Compare {
            judge_target: zones.output_judge_target.clone(),
            request: judged,
            candidates,
        }
    }
}

/// The answers among the replies, in order, each with its target.
fn collect_answers<A>(targets: Vec<ModelId>, replies: Vec<Option<(String, A)>>) -> (candidates: Vec<
    Candidate<A>,
>)
    requires
        targets@.len() == replies@.len(),
    ensures
        candidates_of(candidates@) == survivors(names_of(targets@), replies@),
{
    let ghost all = replies@;
    let ghost names = names_of(targets@);
    let mut rest = replies;
    let mut reversed: Vec<Candidate<A>> = Vec::new();
    assert(all.take(all.len() as int) =~= all);
    assert(candidates_of(reversed@).reverse() =~= Seq::<(Seq<char>, Seq<char>, A)>::empty());
    assert(survivors(names, all) =~= survivors(names, rest@) + candidates_of(
        reversed@,
    ).reverse());
    while rest.len() > 0
        invariant
            names == names_of(targets@),
            targets@.len() == all.len(),
            rest@.len() <= all.len(),
            rest@ == all.take(rest@.len() as int),
            survivors(names, all) == survivors(names, rest@) + candidates_of(reversed@).reverse(),
        decreases rest.len(),
    {
        let ghost earlier = rest@;
        let ghost sofar = reversed@;
        let reply = rest.pop();
        proof {
            assert(rest@ =~= earlier.drop_last());
            assert(rest@ =~= all.take(rest@.len() as int));
        }
        match reply {
            Some(Some((text, answer))) => {
                let target = targets[rest.len()].clone();
                let candidate = Candidate { target, text, answer };
                let ghost held = candidate_of(candidate);
                reversed.push(candidate);
                proof {
                    assert(names[rest@.len() as int] == target@);
                    assert(survivors(names, earlier) == survivors(names, rest@).push(held));
                    assert(candidates_of(reversed@) =~= candidates_of(sofar).push(held));
                    assert(candidates_of(reversed@).reverse() =~= seq![held] + candidates_of(
                        sofar,
                    ).reverse());
                    assert(survivors(names, rest@) + candidates_of(reversed@).reverse()
                        =~= survivors(names, earlier) + candidates_of(sofar).reverse());
                }
            },
            _ => {
                assert(survivors(names, earlier) == survivors(names, rest@));
            },
        }
    }
    let ghost backward = reversed@;
    let mut candidates: Vec<Candidate<A>> = Vec::new();
    while reversed.len() > 0
        invariant
            reversed@ == backward.take(reversed@.len() as int),
            reversed@.len() <= backward.len(),
            candidates@ == backward.skip(reversed@.len() as int).reverse(),
        decreases reversed.len(),
    {
        let ghost left = reversed@;
        let next = reversed.pop();
        proof {
            assert(reversed@ =~= backward.take(reversed@.len() as int));
        }
        match next {
            Some(candidate) => {
                candidates.push(candidate);
                proof {
                    assert(candidate == backward[reversed@.len() as int]);
                    assert(candidates@ =~= backward.skip(reversed@.len() as int).reverse());
                }
            },
            None => {},
        }
    }
    proof {
        assert(backward.skip(0) =~= backward);
        assert(survivors(names, Seq::<Option<(String, A)>>::empty()) =~= Seq::empty());
        assert(candidates_of(candidates@) =~= candidates_of(backward).reverse());
        assert(survivors(names, all) =~= candidates_of(backward).reverse());
    }
    candidates
}

/// The position that the output judge picked among `count` candidates: the cheapest one where the
/// judge failed or named none of them.
pub open spec fn winner_of(winner: Option<usize>, count: nat) -> int {
    match winner {
        Some(index) if index < count => index as int,
        _ => 0,
    }
}

/// Takes the output judge's pick; none stands for a judge that failed.
pub fn pick_winner<A>(candidates: Vec<Candidate<A>>, winner: Option<usize>) -> (r: (
    Classification,
    Candidate<A>,
))
    requires
        candidates@.len() > 0,
    ensures
        r.1 == candidates@[winner_of(winner, candidates@.len())],
        forall|i: usize| winner == Some(i) && i < candidates@.len() ==> r.1 == candidates@[i as int],
        r.0@ == decides(r.1.target@),
{
    let mut candidates = candidates;
    let index: usize = match winner {
        Some(index) => if index < candidates.len() {
            index
        } else {
            0
        },
        None => 0,
    };
    let candidate = candidates.swap_remove(index);
    (decisive(&candidate.target), candidate)
}

/// A response handed to the caller: streamed again or whole.
pub enum Delivery<A> {
    Stream(A),
    Whole(A),
}

/// Rebuilds a buffered answer into a response, streamed when the caller asked for a stream.
pub fn into_response<A>(answer: A, stream: bool) -> (delivery: Delivery<A>)
    ensures
        delivery == if stream {
            Delivery::Stream(answer)
        } else {
            Delivery::Whole(answer)
        },
{
    if stream {
        Delivery::Stream(answer)
    } else {
        Delivery::Whole(answer)
    }
}

// ── Laws ────────────────────────────────────────────────────────────────────

/// How much a zone trusts the cheap rungs.
pub open spec fn trust(zone: Zone) -> int {
    match zone {
        Zone::Capable => 0,
        Zone::FanOut => 1,
        Zone::Answer => 2,
    }
}

/// More confidence never moves a task to a zone that trusts the cheap rungs less.
pub proof fn law_zones_rise_with_confidence(
    low: Binary64,
    high: Binary64,
    boundary: Seq<char>,
    zones: ZoneRuntime,
)
    requires
        low.at_most(high),
        is_fraction(zones.low_threshold),
        is_fraction(zones.high_threshold),
        zones.low_threshold.at_most(zones.high_threshold),
    ensures
        trust(zone_of(low, boundary, zones)) <= trust(zone_of(high, boundary, zones)),
{
}

/// An unsupported boundary goes to the most capable rung whatever the confidence and the sample.
pub proof fn law_unsupported_tasks_go_to_the_capable_rung(
    classifier: CostAwareClassifier,
    verdict: TaskClassifierVerdict,
    needed: u64,
    p_solve: Binary64,
    zones: ZoneRuntime,
)
    requires
        verdict.capability_boundary@ == "unsupported"@,
    ensures
        classifier.zone_step(verdict, needed, p_solve, zones) == Step::Decided(
            decides(classifier.capable_target@),
        ),
{
}

/// Whether `name` is the target of an eligible rung.
pub open spec fn names_eligible(
    ladder: Seq<CapabilityTarget>,
    level: Option<Binary64>,
    needed: Option<u64>,
    name: Seq<char>,
) -> bool {
    exists|k: int|
        0 <= k < ladder.len() && (#[trigger] ladder[k]).target@ == name && eligible(
            ladder[k],
            level,
            needed,
        )
}

/// Only the mid zone fans out, over at least two and at most `fan_out` rungs, each of which clears
/// the judged level and fits the request.
pub proof fn law_only_the_mid_zone_fans_out(
    classifier: CostAwareClassifier,
    verdict: TaskClassifierVerdict,
    needed: u64,
    p_solve: Binary64,
    zones: ZoneRuntime,
)
    requires
        classifier.zone_step(verdict, needed, p_solve, zones) is FanOut,
    ensures
        !zones.high_threshold.at_most(p_solve),
        !p_solve.less(zones.low_threshold),
        verdict.capability_boundary@ != "unsupported"@,
        ({
            let called = classifier.zone_step(verdict, needed, p_solve, zones)->candidates;
            &&& 2 <= called.len() <= zones.fan_out
            &&& forall|i: int|
                0 <= i < called.len() ==> names_eligible(
                    classifier.ranked@,
                    verdict.minimum_capability,
                    Some(needed),
                    #[trigger] called[i],
                )
        }),
{
    lemma_fanned_on_ladder(
        classifier.ranked@,
        verdict.minimum_capability,
        Some(needed),
        zones.fan_out as nat,
    );
}

/// Every fanned-out target is that of an eligible rung.
pub proof fn lemma_fanned_on_ladder(
    ladder: Seq<CapabilityTarget>,
    level: Option<Binary64>,
    needed: Option<u64>,
    limit: nat,
)
    ensures
        forall|i: int|
            0 <= i < fanned(ladder, level, needed, limit).len() ==> names_eligible(
                ladder,
                level,
                needed,
                #[trigger] fanned(ladder, level, needed, limit)[i],
            ),
{
    let keep = |rung: CapabilityTarget| eligible(rung, level, needed);
    let called = fanned(ladder, level, needed, limit);
    let kept = ladder.filter(keep);
    assert forall|i: int| 0 <= i < called.len() implies names_eligible(
        ladder,
        level,
        needed,
        #[trigger] called[i],
    ) by {
        assert(called[i] == kept[i].target@);
        ladder.lemma_filter_pred(keep, i);
        lemma_filter_source(ladder, keep, i);
        let k = choose|k: int| 0 <= k < ladder.len() && #[trigger] ladder[k] == kept[i];
        assert(ladder[k].target@ == called[i]);
    }
}

proof fn lemma_filter_source<T>(s: Seq<T>, keep: spec_fn(T) -> bool, i: int)
    requires
        0 <= i < s.filter(keep).len(),
    ensures
        exists|k: int| 0 <= k < s.len() && #[trigger] s[k] == s.filter(keep)[i],
    decreases s.len(),
{
    reveal(Seq::filter);
    if s.len() > 0 {
        let front = s.drop_last();
        if i < front.filter(keep).len() {
            lemma_filter_source(front, keep, i);
            let k = choose|k: int| 0 <= k < front.len() && #[trigger] front[k] == front.filter(
                keep,
            )[i];
            assert(s[k] == s.filter(keep)[i]);
        } else {
            assert(s[s.len() - 1] == s.filter(keep)[i]);
        }
    }
}

/// A corrected confidence is between zero and one.
#[verifier::rlimit(30)]
pub proof fn law_corrected_confidence_is_a_fraction(
    p_solve: Binary64,
    sample: Binary64,
    scale: Binary64,
)
    requires
        is_fraction(p_solve),
        is_fraction(sample),
        scale.finite(),
    ensures
        is_fraction(corrected(p_solve, sample, scale)),
{
    let zero = Binary64::of(ZERO);
    let one = Binary64::of(ONE);
    let half = Binary64::of(HALF);
    let shift = sample.minus(half);
    let nudge = shift.times(scale);
    assert(scaled(0) == 0);
    lemma_scaled_increases(0, one.magnitude());
    lemma_scaled_increases(half.magnitude(), one.magnitude());
    lemma_below_finite(p_solve, one);
    lemma_below_finite(sample, one);
    lemma_opposite(half);
    lemma_sum_value(sample, half.negation());
    lemma_shift_finite(sample);
    let n = scaled(shift.magnitude()) * scaled(scale.magnitude());
    lemma_nearest_exists(n, pow2(1074) as int);
    lemma_signed(shift.negative() != scale.negative(), nearest(n, pow2(1074) as int));
    assert(!nudge.nan());
    if nudge.finite() {
        lemma_sum_value(p_solve, nudge);
    }
    assert(!p_solve.plus(nudge).nan());
}

proof fn lemma_signed(negative: bool, m: int)
    requires
        0 <= m <= INFINITY_BITS,
    ensures
        signed(negative, m).magnitude() == m,
        signed(negative, m).negative() == negative,
{
}

proof fn lemma_opposite(x: Binary64)
    requires
        x.finite(),
    ensures
        x.negation().finite(),
        x.negation().value() == -x.value(),
{
}

/// A fraction less one half is finite.
#[verifier::rlimit(30)]
proof fn lemma_shift_finite(sample: Binary64)
    requires
        is_fraction(sample),
        sample.finite(),
    ensures
        sample.minus(Binary64::of(HALF)).finite(),
{
    let zero = Binary64::of(ZERO);
    let one = Binary64::of(ONE);
    let half = Binary64::of(HALF);
    assert(scaled(0) == 0);
    lemma_scaled_increases(0, one.magnitude());
    lemma_scaled_increases(0, half.magnitude());
    lemma_opposite(half);
    lemma_sum_value(sample, half.negation());
    let exact = sample.value() - half.value();
    let shift = sample.minus(half);
    lemma_nearest_exists(magnitude_of(exact), 1);
    lemma_nearest_exact(one.magnitude(), 1);
    lemma_scaled_increases(half.magnitude(), one.magnitude());
    lemma_nearest_monotone(magnitude_of(exact), 1 * scaled(one.magnitude()), 1);
    lemma_signed(exact < 0, nearest(magnitude_of(exact), 1));
    lemma_signed(sample.negative() && half.negation().negative(), 0);
}

/// A sample of one half leaves the confidence as it was.
#[verifier::rlimit(30)]
pub proof fn law_neutral_sample_changes_nothing(p_solve: Binary64, scale: Binary64)
    requires
        is_fraction(p_solve),
        scale.finite(),
    ensures
        corrected(p_solve, Binary64::of(HALF), scale).value() == p_solve.value(),
{
    let one = Binary64::of(ONE);
    let half = Binary64::of(HALF);
    let shift = half.minus(half);
    let d = pow2(1074) as int;
    assert(scaled(0) == 0);
    lemma_pow2_pos(1074);
    lemma_scaled_increases(0, one.magnitude());
    lemma_below_finite(p_solve, one);
    lemma_opposite(half);
    lemma_signed(half.negative() && half.negation().negative(), 0);
    assert(shift.magnitude() == 0);
    assert(scaled(shift.magnitude()) * scaled(scale.magnitude()) == 0) by (nonlinear_arith)
        requires
            scaled(shift.magnitude()) == 0,
    ;
    lemma_nearest_exact(0, d);
    assert(d * scaled(0) == 0);
    let nudge = shift.times(scale);
    lemma_signed(shift.negative() != scale.negative(), 0);
    assert(nudge.magnitude() == 0);
    lemma_sum_value(p_solve, nudge);
    lemma_nearest_exact(p_solve.magnitude(), 1);
    assert(1 * scaled(p_solve.magnitude()) == scaled(p_solve.magnitude()));
    if p_solve.negative() && p_solve.magnitude() > 0 {
        lemma_scaled_increases(0, p_solve.magnitude());
    }
}

/// A rung of known window that is not ruled out holds the estimated request with the whole
/// headroom to spare.
pub proof fn law_eligible_rungs_have_headroom(
    rung: CapabilityTarget,
    level: Option<Binary64>,
    turns: Seq<Turn>,
    window: u32,
)
    requires
        measurable(turns),
        rung.context_window == Some(window),
        eligible(rung, level, Some(needed_for(turns))),
    ensures
        100 * window >= CONTEXT_HEADROOM_PERCENT * (text_chars(turns) / 4),
{
}

/// Without a bandit, the judge's own confidence picks the zone.
pub proof fn law_without_a_bandit_the_judge_decides(
    classifier: CostAwareClassifier,
    verdict: TaskClassifierVerdict,
    turns: Seq<Turn>,
    zones: ZoneRuntime,
)
    requires
        verdict.valid(),
        classifier.zones == Some(zones),
        classifier.bandit is None,
    ensures
        classifier.verdict_step(Some(verdict), turns) == classifier.zone_step(
            verdict,
            needed_for(turns),
            verdict.p_solve,
            zones,
        ),
{
}

/// A pick that names none of the candidates falls back to the first, cheapest one.
pub proof fn law_a_misfiring_judge_picks_the_cheapest(winner: Option<usize>, count: nat)
    requires
        winner matches Some(index) ==> index >= count,
    ensures
        winner_of(winner, count) == 0,
{
}

/// Whenever the output judge names one of the candidates, that one is served; otherwise the first.
pub proof fn law_the_named_candidate_wins(index: usize, count: nat)
    ensures
        index < count ==> winner_of(Some(index), count) == index,
        index >= count ==> winner_of(Some(index), count) == 0,
        winner_of(None, count) == 0,
{
}

/// The thresholds divide the confidences of a task that is not unsupported: from the high one on
/// it is answered, below the low one it goes to the capable rung, and between them it fans out.
pub proof fn law_thresholds_divide_the_zones(
    p_solve: Binary64,
    boundary: Seq<char>,
    zones: ZoneRuntime,
)
    requires
        !p_solve.nan(),
        !zones.low_threshold.nan(),
        !zones.high_threshold.nan(),
    ensures
        boundary == "unsupported"@ ==> zone_of(p_solve, boundary, zones) == Zone::Capable,
        boundary != "unsupported"@ ==> {
            &&& zone_of(p_solve, boundary, zones) == Zone::Answer <==> p_solve.value()
                >= zones.high_threshold.value()
            &&& zone_of(p_solve, boundary, zones) == Zone::Capable <==> p_solve.value()
                < zones.high_threshold.value() && p_solve.value() < zones.low_threshold.value()
            &&& zone_of(p_solve, boundary, zones) == Zone::FanOut <==> p_solve.value()
                < zones.high_threshold.value() && p_solve.value() >= zones.low_threshold.value()
        },
{
}

/// The exact effect of a sample: the sample less one half, rounded, times the scale, rounded, is
/// added to the confidence, and the rounded sum is moved into the interval from zero to one.
#[verifier::rlimit(30)]
pub proof fn law_correction_is_the_scaled_shift(
    p_solve: Binary64,
    sample: Binary64,
    scale: Binary64,
)
    requires
        is_fraction(p_solve),
        is_fraction(sample),
        scale.finite(),
        !scale.negative(),
    ensures
        ({
            let shift = rounded(sample.value() - Binary64::of(HALF).value());
            let nudge = if shift < 0 {
                -scaled(nearest(-shift * scale.value(), pow2(1074) as int))
            } else {
                scaled(nearest(shift * scale.value(), pow2(1074) as int))
            };
            let sum = rounded(p_solve.value() + nudge);
            corrected(p_solve, sample, scale).value() == if sum < 0 {
                0
            } else if sum > pow2(1074) {
                pow2(1074) as int
            } else {
                sum
            }
        }),
{
    let one = Binary64::of(ONE);
    let half = Binary64::of(HALF);
    let moved = sample.minus(half);
    let added = moved.times(scale);
    assert(scaled(0) == 0);
    crate::thompson::lemma_one();
    lemma_scaled_increases(0, one.magnitude());
    if scale.magnitude() > 0 {
        lemma_scaled_increases(0, scale.magnitude());
    }
    lemma_below_finite(p_solve, one);
    lemma_below_finite(sample, one);
    lemma_opposite(half);
    lemma_sum_value(sample, half.negation());
    lemma_shift_finite(sample);
    lemma_shift_bound(sample);
    lemma_product_value(moved, scale);
    lemma_product_order(moved, half, scale);
    lemma_reach(half.times(scale), scale);
    lemma_sum_value(p_solve, added);
}

/// The value of a product with a factor that is not negative.
proof fn lemma_product_value(a: Binary64, b: Binary64)
    requires
        a.finite(),
        b.finite(),
        b.value() >= 0,
    ensures
        !a.times(b).nan(),
        a.times(b).value() == if a.value() < 0 {
            -scaled(nearest(-a.value() * b.value(), pow2(1074) as int))
        } else {
            scaled(nearest(a.value() * b.value(), pow2(1074) as int))
        },
{
    let d = pow2(1074) as int;
    let x = scaled(a.magnitude());
    let y = scaled(b.magnitude());
    assert(scaled(0) == 0);
    lemma_pow2_pos(1074);
    if a.magnitude() > 0 {
        lemma_scaled_increases(0, a.magnitude());
    }
    if b.magnitude() > 0 {
        lemma_scaled_increases(0, b.magnitude());
    }
    lemma_nearest_exists(x * y, d);
    lemma_signed(a.negative() != b.negative(), nearest(x * y, d));
    assert(b.value() == y);
    if x == 0 || y == 0 {
        assert(x * y == 0) by (nonlinear_arith)
            requires
                x == 0 || y == 0,
        ;
        lemma_nearest_exact(0, d);
        assert(d * scaled(0) == 0);
        if a.value() < 0 {
            assert(-a.value() * b.value() == 0) by (nonlinear_arith)
                requires
                    b.value() == 0,
            ;
        } else {
            assert(a.value() * b.value() == 0) by (nonlinear_arith)
                requires
                    a.value() == 0 || b.value() == 0,
            ;
        }
    }
}

/// One sample moves the confidence by at most half the scale: the corrected confidence lies
/// between the confidence less half the scale and the confidence plus half the scale, each rounded.
#[verifier::rlimit(30)]
pub proof fn law_scale_bounds_the_correction(
    p_solve: Binary64,
    sample: Binary64,
    scale: Binary64,
)
    requires
        is_fraction(p_solve),
        is_fraction(sample),
        scale.finite(),
        !scale.negative(),
    ensures
        ({
            let reach = Binary64::of(HALF).times(scale);
            corrected(p_solve, sample, scale).within(p_solve.minus(reach), p_solve.plus(reach))
        }),
{
    let one = Binary64::of(ONE);
    let half = Binary64::of(HALF);
    let moved = sample.minus(half);
    let added = moved.times(scale);
    let reach = half.times(scale);
    let sum = p_solve.plus(added);
    assert(scaled(0) == 0);
    crate::thompson::lemma_one();
    crate::thompson::lemma_half();
    lemma_scaled_increases(0, half.magnitude());
    lemma_scaled_increases(0, one.magnitude());
    lemma_below_finite(p_solve, one);
    lemma_below_finite(sample, one);
    lemma_shift_finite(sample);
    lemma_shift_bound(sample);
    if scale.magnitude() > 0 {
        lemma_scaled_increases(0, scale.magnitude());
    }
    lemma_product_order(moved, half, scale);
    lemma_reach(reach, scale);
    lemma_moved_sum(p_solve, added, reach);
}

/// A fraction less one half is at most one half in magnitude.
proof fn lemma_shift_bound(sample: Binary64)
    requires
        is_fraction(sample),
        sample.finite(),
    ensures
        scaled(sample.minus(Binary64::of(HALF)).magnitude()) <= scaled(
            Binary64::of(HALF).magnitude(),
        ),
{
    let half = Binary64::of(HALF);
    assert(scaled(0) == 0);
    crate::thompson::lemma_one();
    crate::thompson::lemma_half();
    lemma_scaled_increases(0, half.magnitude());
    lemma_opposite(half);
    let exact = sample.value() - half.value();
    lemma_nearest_exists(magnitude_of(exact), 1);
    lemma_nearest_exact(half.magnitude(), 1);
    lemma_nearest_monotone(magnitude_of(exact), 1 * scaled(half.magnitude()), 1);
    let m = nearest(magnitude_of(exact), 1);
    if m < half.magnitude() {
        lemma_scaled_increases(m, half.magnitude());
    }
    lemma_signed(exact < 0, m);
    lemma_signed(sample.negative() && half.negation().negative(), 0);
}

/// The larger factor has the larger product.
proof fn lemma_product_order(a: Binary64, b: Binary64, c: Binary64)
    requires
        a.finite(),
        b.finite(),
        c.finite(),
        scaled(a.magnitude()) <= scaled(b.magnitude()),
    ensures
        a.times(c).magnitude() <= b.times(c).magnitude() <= INFINITY_BITS,
{
    let d = pow2(1074) as int;
    let x = scaled(a.magnitude());
    let y = scaled(b.magnitude());
    let z = scaled(c.magnitude());
    lemma_pow2_pos(1074);
    assert(scaled(0) == 0);
    if c.magnitude() > 0 {
        lemma_scaled_increases(0, c.magnitude());
    }
    assert(x * z <= y * z) by (nonlinear_arith)
        requires
            x <= y,
            0 <= z,
    ;
    lemma_nearest_monotone(x * z, y * z, d);
    lemma_nearest_exists(x * z, d);
    lemma_nearest_exists(y * z, d);
    lemma_signed(a.negative() != c.negative(), nearest(x * z, d));
    lemma_signed(b.negative() != c.negative(), nearest(y * z, d));
}

/// Half of a finite scale is a finite number without a sign.
proof fn lemma_reach(reach: Binary64, scale: Binary64)
    requires
        reach == Binary64::of(HALF).times(scale),
        scale.finite(),
        !scale.negative(),
    ensures
        reach.finite(),
        !reach.negative(),
{
    let d = pow2(1074) as int;
    let half = Binary64::of(HALF);
    let m = scale.magnitude();
    crate::thompson::lemma_half();
    lemma_pow2_pos(1074);
    assert(scaled(0) == 0);
    if m > 0 {
        lemma_scaled_increases(0, m);
    }
    let n = scaled(half.magnitude()) * scaled(m);
    assert(n <= d * scaled(m)) by (nonlinear_arith)
        requires
            n == scaled(half.magnitude()) * scaled(m),
            2 * scaled(half.magnitude()) == d,
            0 <= scaled(m),
            d > 0,
    ;
    lemma_nearest_monotone(n, d * scaled(m), d);
    lemma_nearest_exact(m, d);
    lemma_nearest_exists(n, d);
    lemma_signed(false, nearest(n, d));
}

/// A sum with a number no larger than the reach, moved between zero and one, stays in reach.
#[verifier::rlimit(30)]
proof fn lemma_moved_sum(p_solve: Binary64, added: Binary64, reach: Binary64)
    requires
        is_fraction(p_solve),
        p_solve.finite(),
        reach.finite(),
        !reach.negative(),
        added.magnitude() <= reach.magnitude(),
    ensures
        p_solve.plus(added).clamped(Binary64::of(ZERO), Binary64::of(ONE)).within(
            p_solve.minus(reach),
            p_solve.plus(reach),
        ),
{
    let zero = Binary64::of(ZERO);
    assert(scaled(0) == 0);
    crate::thompson::lemma_one();
    lemma_pow2_pos(1074);
    if added.magnitude() < reach.magnitude() {
        lemma_scaled_increases(added.magnitude(), reach.magnitude());
    }
    if reach.magnitude() > 0 {
        lemma_scaled_increases(0, reach.magnitude());
    }
    if added.magnitude() > 0 {
        lemma_scaled_increases(0, added.magnitude());
    }
    lemma_opposite(reach);
    law_addition_is_monotone(added, reach, p_solve);
    law_addition_commutes(added, p_solve);
    law_addition_commutes(reach, p_solve);
    law_addition_is_monotone(reach.negation(), added, p_solve);
    law_addition_commutes(reach.negation(), p_solve);
    law_addition_is_monotone(zero, reach, p_solve);
    law_addition_commutes(zero, p_solve);
    law_addition_is_monotone(reach.negation(), zero, p_solve);
    lemma_sum_value(p_solve, zero);
    lemma_sum_value(p_solve, reach);
    lemma_sum_value(p_solve, reach.negation());
    lemma_sum_value(p_solve, added);
    lemma_nearest_exact(p_solve.magnitude(), 1);
    assert(1 * scaled(p_solve.magnitude()) == scaled(p_solve.magnitude()));
    if p_solve.magnitude() > 0 {
        lemma_scaled_increases(0, p_solve.magnitude());
    }
}

/// A scale of zero leaves every confidence as it was, whatever the sample.
pub proof fn law_zero_scale_changes_nothing(p_solve: Binary64, sample: Binary64)
    requires
        is_fraction(p_solve),
        is_fraction(sample),
    ensures
        corrected(p_solve, sample, Binary64::of(ZERO)).value() == p_solve.value(),
{
    let zero = Binary64::of(ZERO);
    let half = Binary64::of(HALF);
    let d = pow2(1074) as int;
    assert(scaled(0) == 0);
    crate::thompson::lemma_one();
    lemma_pow2_pos(1074);
    lemma_below_finite(p_solve, Binary64::of(ONE));
    lemma_below_finite(sample, Binary64::of(ONE));
    lemma_shift_finite(sample);
    let moved = sample.minus(half);
    lemma_nearest_exact(0, d);
    assert(d * scaled(0) == 0);
    assert(scaled(moved.magnitude()) * scaled(zero.magnitude()) == 0) by (nonlinear_arith)
        requires
            scaled(zero.magnitude()) == 0,
    ;
    let added = moved.times(zero);
    lemma_signed(moved.negative() != zero.negative(), 0);
    lemma_sum_value(p_solve, added);
    lemma_nearest_exact(p_solve.magnitude(), 1);
    assert(1 * scaled(p_solve.magnitude()) == scaled(p_solve.magnitude()));
    if p_solve.magnitude() > 0 {
        lemma_scaled_increases(0, p_solve.magnitude());
    }
}

/// A rung may be fanned out to exactly if its capability is not below the judged level, where
/// there is one, and its window, where it is known, is not below the need.
pub proof fn law_eligible_rungs_clear_and_fit(
    rung: CapabilityTarget,
    level: Option<Binary64>,
    needed: u64,
)
    ensures
        eligible(rung, level, Some(needed)) <==> {
            &&& level is Some ==> level->0.at_most(rung.capability)
            &&& rung.context_window is Some ==> rung.context_window->0 >= needed
        },
{
}

/// A fan-out calls the eligible rungs in the ladder's order, up to the limit: the rung with fewer
/// eligible rungs before it than the limit is called at just that place.
pub proof fn law_fan_out_calls_the_first_eligible_rungs(
    ladder: Seq<CapabilityTarget>,
    level: Option<Binary64>,
    needed: u64,
    limit: nat,
    k: int,
)
    requires
        0 <= k < ladder.len(),
    ensures
        ({
            let fits = |rung: CapabilityTarget|
                (level is Some ==> level->0.at_most(rung.capability)) && (
                rung.context_window is Some ==> rung.context_window->0 >= needed);
            let called = fanned(ladder, level, Some(needed), limit);
            let earlier = ladder.take(k).filter(fits).len();
            &&& fits(ladder[k]) && earlier < limit ==> earlier < called.len() && called[earlier as int]
                == ladder[k].target@
            &&& called.len() == if ladder.filter(fits).len() <= limit {
                ladder.filter(fits).len()
            } else {
                limit
            }
        }),
{
    let fits = |rung: CapabilityTarget|
        (level is Some ==> level->0.at_most(rung.capability)) && (rung.context_window is Some
            ==> rung.context_window->0 >= needed);
    let keep = |rung: CapabilityTarget| eligible(rung, level, Some(needed));
    assert(fits =~= keep);
    let name = |rung: CapabilityTarget| rung.target@;
    let front = ladder.take(k);
    let next = ladder.take(k + 1);
    lemma_filter_prefix(ladder, keep, k);
    lemma_filter_prefix(ladder, keep, k + 1);
    assert(next.drop_last() =~= front);
    assert(next.last() == ladder[k]);
    reveal(Seq::filter);
    if keep(ladder[k]) {
        assert(next.filter(keep) == front.filter(keep).push(ladder[k]));
        let at = front.filter(keep).len() as int;
        assert(ladder.filter(keep).take(at + 1)[at] == ladder[k]);
        assert(ladder.filter(keep)[at] == ladder[k]);
    }
}

/// The need is the least number of whole tokens that covers the estimate with its headroom.
pub proof fn law_headroom_is_rounded_up_to_a_token(turns: Seq<Turn>)
    requires
        text_chars(turns) <= usize::MAX,
        (text_chars(turns) / 4) * 115 <= u64::MAX,
    ensures
        measurable(turns),
        115 * (text_chars(turns) / 4) <= 100 * needed_for(turns) < 115 * (text_chars(turns) / 4)
            + 100,
{
}

/// The arm that corrects the confidence is that of the first rung that clears the judged level,
/// whatever its window; without a level it is that of the first rung.
pub proof fn law_the_cheapest_clearing_rung_corrects(
    ladder: Seq<CapabilityTarget>,
    level: Option<Binary64>,
)
    ensures
        level is None ==> cheapest_clearing(ladder, level) == if ladder.len() > 0 {
            Some(ladder[0].target@)
        } else {
            None
        },
        level is Some ==> match cheapest_clearing(ladder, level) {
            Some(name) => exists|at: int|
                {
                    &&& 0 <= at < ladder.len()
                    &&& (#[trigger] ladder[at]).target@ == name
                    &&& level->0.at_most(ladder[at].capability)
                    &&& forall|i: int|
                        0 <= i < at ==> !level->0.at_most((#[trigger] ladder[i]).capability)
                },
            None => forall|i: int|
                0 <= i < ladder.len() ==> !level->0.at_most((#[trigger] ladder[i]).capability),
        },
{
    match level {
        Some(required) => {
            crate::capability::lemma_first_adequate(ladder, required, None);
            let at = first_adequate(ladder, required, None);
            assert forall|i: int| 0 <= i < at implies !required.at_most(
                (#[trigger] ladder[i]).capability,
            ) by {
                assert(!ladder[i].adequate(required, None));
            }
            if at < ladder.len() {
                assert(ladder[at].adequate(required, None));
                assert(required.at_most(ladder[at].capability));
            }
        },
        None => {},
    }
}

/// Each reply that came back joins the candidates behind the earlier ones, under the target that
/// was called for it; a failed one leaves them as they are.
pub proof fn law_replies_become_candidates_in_order<A>(
    targets: Seq<Seq<char>>,
    replies: Seq<Option<(String, A)>>,
    text: String,
    answer: A,
)
    ensures
        survivors(targets, Seq::<Option<(String, A)>>::empty()).len() == 0,
        survivors(targets, replies.push(Some((text, answer)))) == survivors(targets, replies).push(
            (targets[replies.len() as int], text@, answer),
        ),
        survivors(targets, replies.push(None)) == survivors(targets, replies),
{
    assert(replies.push(Some((text, answer))).drop_last() =~= replies);
    assert(replies.push(None).drop_last() =~= replies);
}

/// The comparison shows every candidate's text behind its number, the numbers counted from zero.
pub proof fn law_candidates_are_shown_by_number(texts: Seq<Seq<char>>, text: Seq<char>)
    ensures
        comparison(Seq::empty()) == "Candidate answers, numbered from 0:\n"@,
        comparison(texts.push(text)) == comparison(texts) + "\n--- candidate "@ + decimal(
            texts.len(),
        ) + " ---\n"@ + text + "\n"@,
{
    assert(texts.push(text).drop_last() =~= texts);
}

/// A judge that gave no usable verdict decides nothing; without zones the ladder's pick for the
/// request's size is the decision; and a bandit is asked for a sample of the cheapest clearing
/// rung in the bucket of the request's size.
pub proof fn law_steps_on_a_verdict(
    classifier: CostAwareClassifier,
    verdict: TaskClassifierVerdict,
    turns: Seq<Turn>,
)
    ensures
        classifier.verdict_step(None, turns) == Step::Decided(abstains()),
        !verdict.valid() ==> classifier.verdict_step(Some(verdict), turns) == Step::Decided(
            abstains(),
        ),
        verdict.valid() && classifier.zones is None ==> classifier.verdict_step(
            Some(verdict),
            turns,
        ) == Step::Decided(classifier.policy.ruling(verdict, Some(needed_for(turns)))),
        verdict.valid() && classifier.zones is Some && classifier.bandit is Some
            ==> match cheapest_clearing(classifier.ranked@, verdict.minimum_capability) {
            Some(target) => classifier.verdict_step(Some(verdict), turns) == (Step::Sample {
                target,
                bucket: if text_chars(turns) / 4 < 1_000 {
                    "small"@
                } else if text_chars(turns) / 4 <= 10_000 {
                    "medium"@
                } else {
                    "large"@
                },
            }),
            None => classifier.verdict_step(Some(verdict), turns) == classifier.zone_step(
                verdict,
                needed_for(turns),
                verdict.p_solve,
                classifier.zones->0,
            ),
        },
{
}

/// The zone decides: a high confidence answers with the ladder's pick, a low one goes to the
/// capable rung, and a fan-out with no or one rung to call is a decision.
pub proof fn law_steps_in_each_zone(
    classifier: CostAwareClassifier,
    verdict: TaskClassifierVerdict,
    needed: u64,
    p_solve: Binary64,
    zones: ZoneRuntime,
)
    ensures
        ({
            let step = classifier.zone_step(verdict, needed, p_solve, zones);
            let called = fanned(
                classifier.ranked@,
                verdict.minimum_capability,
                Some(needed),
                zones.fan_out as nat,
            );
            match zone_of(p_solve, verdict.capability_boundary@, zones) {
                Zone::Answer => step == Step::Decided(
                    classifier.policy.ruling(verdict, Some(needed)),
                ),
                Zone::Capable => step == Step::Decided(decides(classifier.capable_target@)),
                Zone::FanOut => {
                    &&& called.len() == 0 ==> step == Step::Decided(
                        decides(classifier.capable_target@),
                    )
                    &&& called.len() == 1 ==> step == Step::Decided(decides(called[0]))
                    &&& called.len() >= 2 ==> step == (Step::FanOut { candidates: called })
                },
            }
        }),
{
}

/// Zones are accepted exactly if both thresholds are fractions in order, a fan-out calls some
/// rung, and the output judge has tokens; the runtime has the settings as they were given.
pub proof fn law_accepted_zones(config: ZoneConfig, contract: ClassifierContract)
    ensures
        config.fault() is None <==> {
            &&& is_fraction(config.low_threshold) && is_fraction(config.high_threshold)
            &&& config.low_threshold.value() <= config.high_threshold.value()
            &&& config.fan_out > 0
            &&& config.output_judge_max_output_tokens > 0
        },
        config.fault() matches Some(AlgorithmError::ZoneThresholds { low, high }) <==> !(
        is_fraction(config.low_threshold) && is_fraction(config.high_threshold)),
        config.fault() matches Some(AlgorithmError::ZoneThresholds { low, high }) ==> low
            == config.low_threshold && high == config.high_threshold,
        config.fault() matches Some(AlgorithmError::ZoneOrder { low, high }) ==> low
            == config.low_threshold && high == config.high_threshold && low.value() > high.value(),
        config.fault() == Some(AlgorithmError::ZoneFanOut) ==> config.fan_out == 0,
        config.fault() == Some(AlgorithmError::OutputJudgeMaxOutputTokens)
            ==> config.output_judge_max_output_tokens == 0,
        ({
            let runtime = config.runtime(contract);
            &&& runtime.low_threshold == config.low_threshold
            &&& runtime.high_threshold == config.high_threshold
            &&& runtime.fan_out == config.fan_out
            &&& runtime.output_judge_target == config.output_judge_target
            &&& runtime.output_contract == contract
            &&& runtime.output_max_output_tokens == config.output_judge_max_output_tokens
        }),
{
}

/// The settings of zones are looked at in order: thresholds, their order, the fan-out, the tokens.
pub proof fn law_zones_are_looked_at_in_order(config: ZoneConfig)
    requires
        is_fraction(config.low_threshold),
        is_fraction(config.high_threshold),
    ensures
        config.low_threshold.value() > config.high_threshold.value() <==> config.fault() matches Some(
            AlgorithmError::ZoneOrder { .. },
        ),
        config.low_threshold.value() <= config.high_threshold.value() && config.fan_out == 0
            <==> config.fault() == Some(AlgorithmError::ZoneFanOut),
        config.low_threshold.value() <= config.high_threshold.value() && config.fan_out > 0
            && config.output_judge_max_output_tokens == 0 <==> config.fault() == Some(
            AlgorithmError::OutputJudgeMaxOutputTokens,
        ),
{
}

/// What candidates and steps hold: each candidate its target, text and answer, each step its
/// decision, arm or targets.
pub proof fn law_views_of_candidates_and_steps<A>(
    candidates: Seq<Candidate<A>>,
    i: int,
    step: ScoreStep,
)
    ensures
        candidates_of(candidates).len() == candidates.len(),
        texts_of(candidates).len() == candidates.len(),
        0 <= i < candidates.len() ==> candidates_of(candidates)[i] == (
            candidates[i].target@,
            candidates[i].text@,
            candidates[i].answer,
        ) && texts_of(candidates)[i] == candidates[i].text@,
        step is Decided ==> step@ == Step::Decided(step->Decided_0@),
        step is Sample ==> step@ == (Step::Sample {
            target: step->target@,
            bucket: step->bucket@,
        }),
        step is FanOut ==> step@ == (Step::FanOut { candidates: names_of(step->candidates@) }),
{
}

/// Half of a scale has no more units than the scale.
proof fn lemma_half_scale(scale: Binary64)
    requires
        scale.finite(),
    ensures
        Binary64::of(HALF).times(scale).finite(),
{
    let d = pow2(1074) as int;
    let half = Binary64::of(HALF);
    let m = scale.magnitude();
    crate::thompson::lemma_half();
    lemma_pow2_pos(1074);
    assert(scaled(0) == 0);
    if m > 0 {
        lemma_scaled_increases(0, m);
    }
    let n = scaled(half.magnitude()) * scaled(m);
    assert(n <= d * scaled(m)) by (nonlinear_arith)
        requires
            n == scaled(half.magnitude()) * scaled(m),
            2 * scaled(half.magnitude()) == d,
            0 <= scaled(m),
            d > 0,
    ;
    lemma_nearest_monotone(n, d * scaled(m), d);
    lemma_nearest_exact(m, d);
    lemma_nearest_exists(n, d);
    lemma_signed(half.negative() != scale.negative(), nearest(n, d));
}

/// A negative scale moves the confidence the other way, by as much: the correction by a sample
/// under the opposite scale is the correction by the mirrored shift.
#[verifier::rlimit(30)]
pub proof fn law_negative_scales_turn_the_correction(
    p_solve: Binary64,
    sample: Binary64,
    scale: Binary64,
)
    requires
        is_fraction(p_solve),
        is_fraction(sample),
        scale.finite(),
        !scale.negative(),
    ensures
        ({
            let shift = rounded(sample.value() - Binary64::of(HALF).value());
            let nudge = if shift < 0 {
                -scaled(nearest(-shift * scale.value(), pow2(1074) as int))
            } else {
                scaled(nearest(shift * scale.value(), pow2(1074) as int))
            };
            let sum = rounded(p_solve.value() - nudge);
            corrected(p_solve, sample, scale.negation()).value() == if sum < 0 {
                0
            } else if sum > pow2(1074) {
                pow2(1074) as int
            } else {
                sum
            }
        }),
{
    let one = Binary64::of(ONE);
    let half = Binary64::of(HALF);
    let moved = sample.minus(half);
    let added = moved.times(scale);
    let back = moved.times(scale.negation());
    assert(scaled(0) == 0);
    crate::thompson::lemma_one();
    lemma_scaled_increases(0, one.magnitude());
    if scale.magnitude() > 0 {
        lemma_scaled_increases(0, scale.magnitude());
    }
    lemma_below_finite(p_solve, one);
    lemma_below_finite(sample, one);
    lemma_opposite(half);
    lemma_opposite(scale);
    lemma_sum_value(sample, half.negation());
    lemma_shift_finite(sample);
    lemma_shift_bound(sample);
    lemma_product_value(moved, scale);
    lemma_product_order(moved, half, scale);
    lemma_half_scale(scale);
    assert(scale.negation().magnitude() == scale.magnitude());
    let n = scaled(moved.magnitude()) * scaled(scale.magnitude());
    lemma_nearest_exists(n, pow2(1074) as int);
    lemma_signed(moved.negative() != scale.negative(), nearest(n, pow2(1074) as int));
    lemma_signed(moved.negative() == scale.negative(), nearest(n, pow2(1074) as int));
    assert(back.value() == -added.value());
    lemma_sum_value(p_solve, back);
}

/// The correction by any sample, not only one between zero and one, as long as neither the shift
/// nor the nudge overflows.
pub proof fn law_correction_by_any_sample(p_solve: Binary64, sample: Binary64, scale: Binary64)
    requires
        is_fraction(p_solve),
        sample.finite(),
        scale.finite(),
    ensures
        ({
            let shift = sample.minus(Binary64::of(HALF));
            let nudge = shift.times(scale);
            let sum = rounded(p_solve.value() + nudge.value());
            shift.finite() && nudge.finite() ==> corrected(p_solve, sample, scale).value() == if sum
                < 0 {
                0
            } else if sum > pow2(1074) {
                pow2(1074) as int
            } else {
                sum
            }
        }),
{
    assert(scaled(0) == 0);
    crate::thompson::lemma_one();
    lemma_below_finite(p_solve, Binary64::of(ONE));
    let nudge = sample.minus(Binary64::of(HALF)).times(scale);
    if nudge.finite() {
        lemma_sum_value(p_solve, nudge);
    }
}

/// A confidence that is no number is neither high nor low: such a task fans out unless its boundary
/// is unsupported.
pub proof fn law_no_number_is_neither_high_nor_low(
    p_solve: Binary64,
    boundary: Seq<char>,
    zones: ZoneRuntime,
)
    requires
        p_solve.nan(),
        boundary != "unsupported"@,
    ensures
        zone_of(p_solve, boundary, zones) == Zone::FanOut,
{
}

} // verus!
