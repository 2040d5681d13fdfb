//! Capability judging: a task-level verdict mapped to a routing target.

use vstd::arithmetic::power2::{lemma_pow2_pos, pow2};
use vstd::prelude::*;

use crate::binary64::{
    law_addition_commutes, law_addition_is_monotone, law_multiplication_is_monotone,
    law_subtraction_is_antitone, law_subtraction_is_monotone, lemma_below_finite,
    lemma_nearest_exact, lemma_nearest_exists, lemma_nearest_monotone, lemma_rounded_sign,
    lemma_scaled_increases, lemma_sum_value, nearest, rounded, scaled, Binary64, EPSILON,
    HIDDEN_BIT, INFINITY_BITS, ONE, TWO, ZERO,
};
use crate::classification::{abstains, abstention, decides, decisive, Classification, Ruling};
use crate::error::AlgorithmError;
use crate::judge::{
    ClassifierContractConfig, ClassifierResponseFormat, DEFAULT_JUDGE_MAX_OUTPUT_TOKENS,
};
use crate::model::ModelId;
use crate::text::{blank, is_blank, is_space, same_text};

verus! {

// ── Verdicts ────────────────────────────────────────────────────────────────

/// A capability judge's verdict on a task.
#[derive(Debug, PartialEq)]
pub struct TaskClassifierVerdict {
    pub crux: String,
    pub primary_rule: String,
    pub capability_boundary: String,
    pub p_solve: Binary64,
    /// The lowest capability level that the judge believes will solve the task; a judge that
    /// serves a binary route may leave it out.
    pub minimum_capability: Option<Binary64>,
}

/// Whether a number lies between 0 and 1.
pub open spec fn is_fraction(x: Binary64) -> bool {
    x.within(Binary64::of(ZERO), Binary64::of(ONE))
}

/// Whether a number lies between 0 and 1.
pub fn fraction(x: Binary64) -> (r: bool)
    ensures
        r == is_fraction(x),
{
    x.is_within(Binary64::of(ZERO), Binary64::of(ONE))
}

/// Whether the rule and the boundary belong together.
pub open spec fn consistent(rule: Seq<char>, boundary: Seq<char>) -> bool {
    ||| (rule == "SUP-1"@ || rule == "SUP-2"@ || rule == "SUP-3"@ || rule == "SUP-4"@ || rule
        == "SUP-5"@) && boundary == "supported"@
    ||| (rule == "UNC-1"@ || rule == "UNC-2"@) && boundary == "uncertain"@
    ||| (rule == "LIM-1"@ || rule == "LIM-2"@) && boundary == "unsupported"@
    ||| rule == "none"@ && boundary == "unmatched"@
}

/// The number of threshold steps that a capability boundary costs.
pub open spec fn steps_of(boundary: Seq<char>) -> Option<u8> {
    if boundary == "supported"@ {
        Some(0u8)
    } else if boundary == "uncertain"@ || boundary == "unmatched"@ {
        Some(1u8)
    } else if boundary == "unsupported"@ {
        Some(2u8)
    } else {
        None
    }
}

impl TaskClassifierVerdict {
    /// Whether the verdict is well formed and consistent.
    pub open spec fn valid(self) -> bool {
        &&& is_fraction(self.p_solve)
        &&& self.minimum_capability matches Some(level) ==> is_fraction(level)
        &&& !blank(self.crux@)
        &&& consistent(self.primary_rule@, self.capability_boundary@)
    }

    /// Rejects malformed or internally inconsistent verdicts before policy evaluation.
    pub fn is_valid(&self) -> (r: bool)
        ensures
            r == self.valid(),
    {
        let level = match self.minimum_capability {
            Some(level) => fraction(level),
            None => true,
        };
        let rule = self.primary_rule.as_str();
        let boundary = self.capability_boundary.as_str();
        let matched = (same_text(rule, "SUP-1") || same_text(rule, "SUP-2") || same_text(
            rule,
            "SUP-3",
        ) || same_text(rule, "SUP-4") || same_text(rule, "SUP-5")) && same_text(
            boundary,
            "supported",
        ) || (same_text(rule, "UNC-1") || same_text(rule, "UNC-2")) && same_text(
            boundary,
            "uncertain",
        ) || (same_text(rule, "LIM-1") || same_text(rule, "LIM-2")) && same_text(
            boundary,
            "unsupported",
        ) || same_text(rule, "none") && same_text(boundary, "unmatched");
        fraction(self.p_solve) && level && !is_blank(self.crux.as_str()) && matched
    }

    /// The number of threshold steps assigned to this capability boundary.
    pub fn boundary_steps(&self) -> (steps: Option<u8>)
        ensures
            steps == steps_of(self.capability_boundary@),
    {
        let boundary = self.capability_boundary.as_str();
        if same_text(boundary, "supported") {
            Some(0)
        } else if same_text(boundary, "uncertain") || same_text(boundary, "unmatched") {
            Some(1)
        } else if same_text(boundary, "unsupported") {
            Some(2)
        } else {
            None
        }
    }

    /// Whether the judge places the task beyond the cheap tiers.
    pub fn is_unsupported(&self) -> (r: bool)
        ensures
            r == (self.capability_boundary@ == "unsupported"@),
    {
        same_text(self.capability_boundary.as_str(), "unsupported")
    }
}

// ── The ladder ──────────────────────────────────────────────────────────────

/// Unit prices of a target.
#[derive(Clone, Copy, Debug, PartialEq, Eq, Structural)]
pub struct TargetCost {
    pub input_per_1m: Binary64,
    pub output_per_1m: Binary64,
}

/// One rung of a cost-aware capability ladder.
#[derive(Debug, PartialEq)]
pub struct CapabilityTarget {
    /// The routing target this rung selects.
    pub target: ModelId,
    /// Declared capability level between 0 and 1.
    pub capability: Binary64,
    /// Unit pricing of the target.
    pub cost: TargetCost,
    /// The context window in tokens; an unknown window is never a reason to skip the rung.
    pub context_window: Option<u32>,
}

impl Clone for CapabilityTarget {
    fn clone(&self) -> (copy: Self)
        ensures
            copy == *self,
    {
        CapabilityTarget {
            target: self.target.clone(),
            capability: self.capability,
            cost: self.cost,
            context_window: self.context_window,
        }
    }
}

impl CapabilityTarget {
    /// The scalar that orders rungs: the sum of the unit prices.
    pub open spec fn price(self) -> Binary64 {
        self.cost.input_per_1m.plus(self.cost.output_per_1m)
    }

    /// Whether the window is known to be too small for `needed` tokens.
    pub open spec fn overflows(self, needed: Option<u64>) -> bool {
        match (self.context_window, needed) {
            (Some(window), Some(needed)) => window < needed,
            _ => false,
        }
    }

    /// Whether the rung clears the level `required` and fits `needed` tokens.
    pub open spec fn adequate(self, required: Binary64, needed: Option<u64>) -> bool {
        required.at_most(self.capability) && !self.overflows(needed)
    }

    /// Validates the declared capability level.
    pub fn is_valid(&self) -> (r: bool)
        ensures
            r == is_fraction(self.capability),
    {
        fraction(self.capability)
    }

    /// Scalar used to order rungs cheapest-first.
    ///
    /// Input and output unit prices are summed because the request's split is not known when a
    /// target is selected.
    pub fn cost_key(&self) -> (key: Binary64)
        ensures
            key == self.price(),
    {
        self.cost.input_per_1m.add(self.cost.output_per_1m)
    }

    /// Whether this rung's context window fits the request; unknown on either side fits.
    pub fn fits_context(&self, needed_tokens: Option<u64>) -> (r: bool)
        ensures
            r == !self.overflows(needed_tokens),
    {
        match (self.context_window, needed_tokens) {
            (Some(window), Some(needed)) => window as u64 >= needed,
            _ => true,
        }
    }
}

/// Where a rung of the given price goes in: before the first dearer rung.
pub open spec fn slot(ladder: Seq<CapabilityTarget>, price: Binary64) -> int
    decreases ladder.len(),
{
    if ladder.len() == 0 || price.less(ladder[0].price()) {
        0
    } else {
        1 + slot(ladder.skip(1), price)
    }
}

/// The rungs ordered by price, rungs of one price in their given order.
pub open spec fn cheapest_first(rungs: Seq<CapabilityTarget>) -> Seq<CapabilityTarget>
    decreases rungs.len(),
{
    if rungs.len() == 0 {
        Seq::empty()
    } else {
        let ladder = cheapest_first(rungs.drop_last());
        ladder.insert(slot(ladder, rungs.last().price()), rungs.last())
    }
}

proof fn lemma_slot_in_range(ladder: Seq<CapabilityTarget>, price: Binary64)
    ensures
        0 <= slot(ladder, price) <= ladder.len(),
        slot(ladder, price) < ladder.len() ==> price.less(ladder[slot(ladder, price)].price()),
        forall|i: int|
            0 <= i < slot(ladder, price) ==> !price.less((#[trigger] ladder[i]).price()),
    decreases ladder.len(),
{
    if ladder.len() > 0 && !price.less(ladder[0].price()) {
        let rest = ladder.skip(1);
        lemma_slot_in_range(rest, price);
        assert forall|i: int| 0 <= i < slot(ladder, price) implies !price.less(
            (#[trigger] ladder[i]).price(),
        ) by {
            if i > 0 {
                assert(rest[i - 1] == ladder[i]);
            }
        }
    }
}

/// Orders the rungs cheapest-first, keeping the given order among rungs of one price.
pub fn sort_ladder(rungs: Vec<CapabilityTarget>) -> (ladder: Vec<CapabilityTarget>)
    ensures
        ladder@ == cheapest_first(rungs@),
{
    let ghost given = rungs@;
    let mut rest = rungs;
    let mut ladder: Vec<CapabilityTarget> = Vec::new();
    let mut i: usize = 0;
    assert(given.take(0) =~= Seq::<CapabilityTarget>::empty());
    while i < rest.len()
        invariant
            i <= rest@.len(),
            rest@ == given,
            ladder@ == cheapest_first(given.take(i as int)),
        decreases rest.len() - i,
    {
        let rung = rest[i].clone();
        let price = rung.cost_key();
        let mut at: usize = 0;
        assert(ladder@.skip(0) =~= ladder@);
        while at < ladder.len() && !price.lt(ladder[at].cost_key())
            invariant
                at <= ladder@.len(),
                price == rung.price(),
                slot(ladder@, price) == at + slot(ladder@.skip(at as int), price),
            decreases ladder.len() - at,
        {
            assert(ladder@.skip(at as int).skip(1) =~= ladder@.skip(at + 1));
            at = at + 1;
        }
        proof {
            assert(at == slot(ladder@, price));
            assert(given.take(i + 1).drop_last() =~= given.take(i as int));
        }
        ladder.insert(at, rung);
        i = i + 1;
    }
    assert(given.take(i as int) =~= given);
    ladder
}

/// The position of the most capable rung, the last of equals; negative for no rung.
pub open spec fn strongest(ladder: Seq<CapabilityTarget>) -> int
    decreases ladder.len(),
{
    if ladder.len() == 0 {
        -1
    } else {
        let best = strongest(ladder.drop_last());
        if best >= 0 && ladder.last().capability.less(ladder[best].capability) {
            best
        } else {
            ladder.len() - 1
        }
    }
}

/// The target of the most capable rung, or `otherwise` for no rung.
pub open spec fn strongest_target(ladder: Seq<CapabilityTarget>, otherwise: Seq<char>) -> Seq<char> {
    if ladder.len() == 0 {
        otherwise
    } else {
        ladder[strongest(ladder)].target@
    }
}

proof fn lemma_strongest_in_range(ladder: Seq<CapabilityTarget>)
    ensures
        -1 <= strongest(ladder) < ladder.len(),
        ladder.len() > 0 ==> strongest(ladder) >= 0,
    decreases ladder.len(),
{
    if ladder.len() > 0 {
        lemma_strongest_in_range(ladder.drop_last());
    }
}

/// The target of the most capable rung, the last of equals, or `otherwise` for no rung.
pub fn most_capable_of(ladder: &Vec<CapabilityTarget>, otherwise: &ModelId) -> (target: ModelId)
    ensures
        target@ == strongest_target(ladder@, otherwise@),
{
    if ladder.len() == 0 {
        return otherwise.clone();
    }
    let mut best: usize = 0;
    let mut i: usize = 1;
    proof {
        assert(strongest(ladder@.take(0)) == -1);
        assert(ladder@.take(1).drop_last() =~= ladder@.take(0));
        assert(strongest(ladder@.take(1)) == 0);
    }
    while i < ladder.len()
        invariant
            1 <= i <= ladder@.len(),
            best < i,
            best == strongest(ladder@.take(i as int)),
        decreases ladder.len() - i,
    {
        proof {
            assert(ladder@.take(i + 1).drop_last() =~= ladder@.take(i as int));
            assert(ladder@.take(i + 1)[best as int] == ladder@[best as int]);
        }
        if !ladder[i].capability.lt(ladder[best].capability) {
            best = i;
        }
        i = i + 1;
    }
    assert(ladder@.take(i as int) =~= ladder@);
    ladder[best].target.clone()
}

/// The position of the first rung that clears `required` and fits `needed`, or the length.
pub open spec fn first_adequate(
    ladder: Seq<CapabilityTarget>,
    required: Binary64,
    needed: Option<u64>,
) -> int
    decreases ladder.len(),
{
    if ladder.len() == 0 || ladder[0].adequate(required, needed) {
        0
    } else {
        1 + first_adequate(ladder.skip(1), required, needed)
    }
}

/// The first adequate rung is adequate, and none before it is.
pub proof fn lemma_first_adequate(ladder: Seq<CapabilityTarget>, required: Binary64, needed: Option<u64>)
    ensures
        0 <= first_adequate(ladder, required, needed) <= ladder.len(),
        first_adequate(ladder, required, needed) < ladder.len() ==> ladder[first_adequate(
            ladder,
            required,
            needed,
        )].adequate(required, needed),
        forall|i: int|
            0 <= i < first_adequate(ladder, required, needed) ==> !(#[trigger] ladder[i]).adequate(
                required,
                needed,
            ),
    decreases ladder.len(),
{
    if ladder.len() > 0 && !ladder[0].adequate(required, needed) {
        let rest = ladder.skip(1);
        lemma_first_adequate(rest, required, needed);
        assert forall|i: int| 0 <= i < first_adequate(ladder, required, needed) implies !(
        #[trigger] ladder[i]).adequate(required, needed) by {
            if i > 0 {
                assert(rest[i - 1] == ladder[i]);
            }
        }
    }
}

/// The position of the first rung that clears `required` and fits `needed`, or the length.
pub fn find_adequate(ladder: &Vec<CapabilityTarget>, required: Binary64, needed: Option<u64>) -> (at:
    usize)
    ensures
        at == first_adequate(ladder@, required, needed),
        at <= ladder@.len(),
{
    let mut at: usize = 0;
    assert(ladder@.skip(0) =~= ladder@);
    while at < ladder.len()
        invariant
            at <= ladder@.len(),
            first_adequate(ladder@, required, needed) == at + first_adequate(
                ladder@.skip(at as int),
                required,
                needed,
            ),
        decreases ladder.len() - at,
    {
        assert(ladder@.skip(at as int)[0] == ladder@[at as int]);
        if required.le(ladder[at].capability) && ladder[at].fits_context(needed) {
            return at;
        }
        assert(ladder@.skip(at as int).skip(1) =~= ladder@.skip(at + 1));
        at = at + 1;
    }
    at
}

// ── Configuration ───────────────────────────────────────────────────────────

/// Settings that control capability classifier prompting and routing.
#[derive(Debug, PartialEq)]
pub struct TaskClassifierConfig {
    /// Lowest solve probability that routes a supported task to the efficient target.
    pub base_threshold: Binary64,
    /// Amount added per capability-boundary step: none for supported verdicts, one for uncertain
    /// and unmatched verdicts, two for unsupported verdicts.
    pub threshold_step: Binary64,
    /// Enables session affinity before the judge-backed classifier.
    pub session_affinity: bool,
    /// Uses the first user message for sticky routing when session metadata is unavailable.
    pub message_hash_fallback: bool,
    /// Trailing turns the judge sees on top of the instructions and the opening task; none judges
    /// the opening task and the latest user follow-up.
    pub recent_turn_window: Option<usize>,
    /// Prompt and verdict contract settings for the classifier judge.
    pub contract: ClassifierContractConfig,
    /// Maximum completion tokens available to the classifier verdict.
    pub max_output_tokens: u64,
}

impl Default for TaskClassifierConfig {
    fn default() -> (config: Self)
        ensures
            config == (TaskClassifierConfig {
                base_threshold: Binary64::of(ZERO),
                threshold_step: Binary64::of(ZERO),
                session_affinity: false,
                message_hash_fallback: false,
                recent_turn_window: None,
                contract: ClassifierContractConfig {
                    prompt: None,
                    response_format_type: ClassifierResponseFormat::JsonSchema,
                },
                max_output_tokens: DEFAULT_JUDGE_MAX_OUTPUT_TOKENS,
            }),
    {
        TaskClassifierConfig {
            base_threshold: Binary64::of(ZERO),
            threshold_step: Binary64::of(ZERO),
            session_affinity: false,
            message_hash_fallback: false,
            recent_turn_window: None,
            contract: ClassifierContractConfig::default(),
            max_output_tokens: DEFAULT_JUDGE_MAX_OUTPUT_TOKENS,
        }
    }
}

/// The flat serialized shape of [`TaskClassifierConfig`]; absent settings are none.
#[derive(Debug, PartialEq)]
pub struct TaskClassifierConfigWire {
    pub base_threshold: Binary64,
    pub threshold_step: Option<Binary64>,
    pub session_affinity: Option<bool>,
    pub message_hash_fallback: Option<bool>,
    pub recent_turn_window: Option<usize>,
    pub prompt: Option<String>,
    pub response_format_type: Option<ClassifierResponseFormat>,
    pub max_output_tokens: Option<u64>,
}

/// The value of an optional setting, or `default` where it is absent.
pub open spec fn setting<T>(value: Option<T>, default: T) -> T {
    match value {
        Some(value) => value,
        None => default,
    }
}

/// The judge's completion tokens where the configuration does not say.
pub fn default_judge_max_output_tokens() -> (tokens: u64)
    ensures
        tokens == DEFAULT_JUDGE_MAX_OUTPUT_TOKENS,
{
    DEFAULT_JUDGE_MAX_OUTPUT_TOKENS
}

/// The threshold that an unsupported verdict must clear.
pub open spec fn unsupported_threshold(base: Binary64, step: Binary64) -> Binary64 {
    base.plus(Binary64::of(TWO).times(step))
}

/// Whether `x` exceeds 1 by more than a rounding error.
pub open spec fn beyond_one(x: Binary64) -> bool {
    Binary64::of(ONE).less(x) && Binary64::of(EPSILON).less(x.minus(Binary64::of(ONE)))
}

impl TaskClassifierConfig {
    /// Maps the flat prompt settings into the runtime contract.
    pub fn from_wire(wire: TaskClassifierConfigWire) -> (config: Self)
        ensures
            config == (TaskClassifierConfig {
                base_threshold: wire.base_threshold,
                threshold_step: setting(wire.threshold_step, Binary64::of(ZERO)),
                session_affinity: setting(wire.session_affinity, false),
                message_hash_fallback: setting(wire.message_hash_fallback, false),
                recent_turn_window: wire.recent_turn_window,
                contract: ClassifierContractConfig {
                    prompt: wire.prompt,
                    response_format_type: setting(
                        wire.response_format_type,
                        ClassifierResponseFormat::JsonSchema,
                    ),
                },
                max_output_tokens: setting(wire.max_output_tokens, DEFAULT_JUDGE_MAX_OUTPUT_TOKENS),
            }),
    {
        let mut contract = ClassifierContractConfig::default();
        if let Some(prompt) = wire.prompt {
            contract = contract.with_prompt(prompt);
        }
        let format = match wire.response_format_type {
            Some(format) => format,
            None => ClassifierResponseFormat::default(),
        };
        contract = contract.with_response_format_type(format);
        TaskClassifierConfig {
            base_threshold: wire.base_threshold,
            threshold_step: match wire.threshold_step {
                Some(step) => step,
                None => Binary64::of(ZERO),
            },
            session_affinity: match wire.session_affinity {
                Some(on) => on,
                None => false,
            },
            message_hash_fallback: match wire.message_hash_fallback {
                Some(on) => on,
                None => false,
            },
            recent_turn_window: wire.recent_turn_window,
            contract,
            max_output_tokens: match wire.max_output_tokens {
                Some(tokens) => tokens,
                None => default_judge_max_output_tokens(),
            },
        }
    }

    /// The first thing wrong with these settings, if any.
    pub open spec fn fault(self) -> Option<AlgorithmError> {
        let highest = unsupported_threshold(self.base_threshold, self.threshold_step);
        if !is_fraction(self.base_threshold) {
            Some(AlgorithmError::BaseThreshold { got: self.base_threshold })
        } else if !self.threshold_step.finite() || self.threshold_step.less(Binary64::of(ZERO)) {
            Some(AlgorithmError::ThresholdStep { got: self.threshold_step })
        } else if beyond_one(highest) {
            Some(AlgorithmError::UnsupportedThreshold { got: highest })
        } else if self.max_output_tokens == 0 {
            Some(AlgorithmError::MaxOutputTokens)
        } else if self.message_hash_fallback && !self.session_affinity {
            Some(AlgorithmError::MessageHashWithoutAffinity)
        } else {
            None
        }
    }

    /// Validates routing thresholds before the classifier is constructed.
    pub fn validate(&self) -> (r: Result<(), AlgorithmError>)
        ensures
            match r {
                Ok(_) => self.fault() is None,
                Err(error) => self.fault() == Some(error),
            },
    {
        if !fraction(self.base_threshold) {
            return Err(AlgorithmError::BaseThreshold { got: self.base_threshold });
        }
        if !self.threshold_step.is_finite() || self.threshold_step.lt(Binary64::of(ZERO)) {
            return Err(AlgorithmError::ThresholdStep { got: self.threshold_step });
        }
        let highest = self.base_threshold.add(Binary64::of(TWO).mul(self.threshold_step));
        let one = Binary64::of(ONE);
        if one.lt(highest) && Binary64::of(EPSILON).lt(highest.sub(one)) {
            return Err(AlgorithmError::UnsupportedThreshold { got: highest });
        }
        if self.max_output_tokens == 0 {
            return Err(AlgorithmError::MaxOutputTokens);
        }
        if self.message_hash_fallback && !self.session_affinity {
            return Err(AlgorithmError::MessageHashWithoutAffinity);
        }
        Ok(())
    }
}

// ── Policy ──────────────────────────────────────────────────────────────────

/// Maps capability verdicts to targets.
#[derive(Debug, PartialEq)]
pub struct TaskClassifierPolicy {
    pub efficient_target: ModelId,
    pub capable_target: ModelId,
    pub base_threshold: Binary64,
    pub threshold_step: Binary64,
    /// Cost-ascending capability ladder; empty selects the binary efficient/capable policy.
    pub ranked: Vec<CapabilityTarget>,
}

/// A step count as a number.
pub open spec fn steps_number(steps: u8) -> Binary64 {
    if steps == 0 {
        Binary64::of(ZERO)
    } else if steps == 1 {
        Binary64::of(ONE)
    } else {
        Binary64::of(TWO)
    }
}

/// Whether a solve probability reaches a threshold, up to a rounding error.
pub open spec fn clears(p_solve: Binary64, threshold: Binary64) -> bool {
    threshold.at_most(p_solve) || threshold.minus(p_solve).absolute().at_most(Binary64::of(EPSILON))
}

impl TaskClassifierPolicy {
    /// The solve probability required at a boundary.
    pub open spec fn required_at(self, boundary: Seq<char>) -> Option<Binary64> {
        match steps_of(boundary) {
            Some(steps) => Some(
                self.base_threshold.plus(steps_number(steps).times(self.threshold_step)),
            ),
            None => None,
        }
    }

    /// The target that the ladder gives a verdict.
    pub open spec fn pick(self, verdict: TaskClassifierVerdict, needed: Option<u64>) -> Seq<char> {
        let fallback = strongest_target(self.ranked@, self.capable_target@);
        if verdict.capability_boundary@ == "unsupported"@ {
            fallback
        } else {
            match verdict.minimum_capability {
                Some(required) => {
                    let at = first_adequate(self.ranked@, required, needed);
                    if at < self.ranked@.len() {
                        self.ranked@[at].target@
                    } else {
                        fallback
                    }
                },
                None => fallback,
            }
        }
    }

    /// The decision on a valid verdict.
    pub open spec fn ruling(self, verdict: TaskClassifierVerdict, needed: Option<u64>) -> Ruling {
        if self.ranked@.len() == 0 {
            match self.required_at(verdict.capability_boundary@) {
                Some(threshold) => if clears(verdict.p_solve, threshold) {
                    decides(self.efficient_target@)
                } else {
                    decides(self.capable_target@)
                },
                None => abstains(),
            }
        } else {
            decides(self.pick(verdict, needed))
        }
    }

    /// The binary policy between two targets.
    pub fn new(
        efficient_target: ModelId,
        capable_target: ModelId,
        config: &TaskClassifierConfig,
    ) -> (policy: Self)
        ensures
            policy.efficient_target == efficient_target,
            policy.capable_target == capable_target,
            policy.base_threshold == config.base_threshold,
            policy.threshold_step == config.threshold_step,
            policy.ranked@ == Seq::<CapabilityTarget>::empty(),
    {
        TaskClassifierPolicy {
            efficient_target,
            capable_target,
            base_threshold: config.base_threshold,
            threshold_step: config.threshold_step,
            ranked: Vec::new(),
        }
    }

    /// The cost-aware form: routes among `ranked` instead of the binary tier pair.
    pub fn with_ranked_targets(self, ranked: Vec<CapabilityTarget>) -> (policy: Self)
        ensures
            policy == (TaskClassifierPolicy { ranked, ..self }),
    {
        TaskClassifierPolicy {
            efficient_target: self.efficient_target,
            capable_target: self.capable_target,
            base_threshold: self.base_threshold,
            threshold_step: self.threshold_step,
            ranked,
        }
    }

    /// The required solve probability for one validated verdict.
    pub fn threshold(&self, verdict: &TaskClassifierVerdict) -> (threshold: Option<Binary64>)
        ensures
            threshold == self.required_at(verdict.capability_boundary@),
    {
        match verdict.boundary_steps() {
            Some(steps) => {
                let number = if steps == 0 {
                    Binary64::of(ZERO)
                } else if steps == 1 {
                    Binary64::of(ONE)
                } else {
                    Binary64::of(TWO)
                };
                Some(self.base_threshold.add(number.mul(self.threshold_step)))
            },
            None => None,
        }
    }

    /// The most capable rung, used when the task is beyond the cheap tiers or the verdict names
    /// no usable level.
    pub fn most_capable(&self) -> (target: ModelId)
        ensures
            target@ == strongest_target(self.ranked@, self.capable_target@),
    {
        most_capable_of(&self.ranked, &self.capable_target)
    }

    /// Picks the cheapest rung that clears the judged level and fits the request's context.
    ///
    /// The ladder is cost-ascending, so the first adequate rung is the pick. `needed_tokens` is
    /// the estimated size with headroom; none skips the context prefilter.
    pub fn ranked_pick(&self, verdict: &TaskClassifierVerdict, needed_tokens: Option<u64>) -> (target:
        ModelId)
        ensures
            target@ == self.pick(*verdict, needed_tokens),
    {
        if verdict.is_unsupported() {
            return self.most_capable();
        }
        match verdict.minimum_capability {
            Some(required) => {
                let at = find_adequate(&self.ranked, required, needed_tokens);
                if at < self.ranked.len() {
                    self.ranked[at].target.clone()
                } else {
                    self.most_capable()
                }
            },
            None => self.most_capable(),
        }
    }

    /// The full pick as a classification, with an optional context size for the prefilter.
    pub fn classify(&self, verdict: &TaskClassifierVerdict, needed_tokens: Option<u64>) -> (decision:
        Classification)
        ensures
            decision@ == self.ruling(*verdict, needed_tokens),
    {
        if self.ranked.len() == 0 {
            match self.threshold(verdict) {
                Some(threshold) => {
                    if threshold.le(verdict.p_solve) || threshold.sub(verdict.p_solve).abs().le(
                        Binary64::of(EPSILON),
                    ) {
                        decisive(&self.efficient_target)
                    } else {
                        decisive(&self.capable_target)
                    }
                },
                None => abstention(),
            }
        } else {
            decisive(&self.ranked_pick(verdict, needed_tokens))
        }
    }

    /// The decision on whatever the judge said; an absent or invalid verdict is ambiguous.
    pub fn to_classification(&self, verdict: Option<&TaskClassifierVerdict>) -> (decision:
        Classification)
        ensures
            decision@ == match verdict {
                Some(verdict) if verdict.valid() => self.ruling(*verdict, None),
                _ => abstains(),
            },
    {
        match verdict {
            Some(verdict) => if verdict.is_valid() {
                self.classify(verdict, None)
            } else {
                abstention()
            },
            None => abstention(),
        }
    }
}

/// The tier of a selected target on a binary route: weak for the efficient target, strong for the
/// capable one, none if they are the same or another was selected.
pub open spec fn tier_of(
    selected: Seq<char>,
    efficient: Seq<char>,
    capable: Seq<char>,
) -> Option<Seq<char>> {
    if efficient == capable {
        None
    } else if selected == efficient {
        Some("weak"@)
    } else if selected == capable {
        Some("strong"@)
    } else {
        None
    }
}

/// The text of an optional literal.
pub open spec fn label_option(label: Option<&'static str>) -> Option<Seq<char>> {
    match label {
        Some(label) => Some(label@),
        None => None,
    }
}

/// The tier of a selected target on a route between two targets.
pub fn routing_tier(selected: &ModelId, efficient: &ModelId, capable: &ModelId) -> (tier: Option<
    &'static str,
>)
    ensures
        label_option(tier) == tier_of(selected@, efficient@, capable@),
{
    if efficient.same(capable) {
        None
    } else if selected.same(efficient) {
        Some("weak")
    } else if selected.same(capable) {
        Some("strong")
    } else {
        None
    }
}

// ── Laws ────────────────────────────────────────────────────────────────────

/// Whether no rung costs more than a later one.
pub open spec fn ascends(ladder: Seq<CapabilityTarget>) -> bool {
    forall|i: int, j: int|
        0 <= i < j < ladder.len() ==> (#[trigger] ladder[i]).price().at_most(
            (#[trigger] ladder[j]).price(),
        )
}

/// Whether every price is a number.
pub open spec fn priced(ladder: Seq<CapabilityTarget>) -> bool {
    forall|i: int| 0 <= i < ladder.len() ==> !(#[trigger] ladder[i]).price().nan()
}

proof fn lemma_inserted_ascends(ladder: Seq<CapabilityTarget>, rung: CapabilityTarget)
    requires
        ascends(ladder),
        priced(ladder),
        !rung.price().nan(),
    ensures
        ascends(ladder.insert(slot(ladder, rung.price()), rung)),
        priced(ladder.insert(slot(ladder, rung.price()), rung)),
        forall|i: int|
            slot(ladder, rung.price()) <= i < ladder.len() ==> rung.price().less(
                (#[trigger] ladder[i]).price(),
            ),
{
    let price = rung.price();
    let at = slot(ladder, price);
    lemma_slot_in_range(ladder, price);
    let next = ladder.insert(at, rung);
    assert forall|i: int| at <= i < ladder.len() implies price.less(
        (#[trigger] ladder[i]).price(),
    ) by {
        if i > at {
            assert(ladder[at].price().at_most(ladder[i].price()));
        }
    }
    assert forall|i: int, j: int| 0 <= i < j < next.len() implies (
    #[trigger] next[i]).price().at_most((#[trigger] next[j]).price()) by {
        if i < at && j < at {
            assert(ladder[i].price().at_most(ladder[j].price()));
        } else if i < at && j == at {
            assert(!price.less(ladder[i].price()));
        } else if i < at {
            assert(ladder[i].price().at_most(ladder[j - 1].price()));
        } else if i == at {
            assert(price.less(ladder[j - 1].price()));
        } else {
            assert(ladder[i - 1].price().at_most(ladder[j - 1].price()));
        }
    }
    assert forall|i: int| 0 <= i < next.len() implies !(#[trigger] next[i]).price().nan() by {
        if i < at {
            assert(!ladder[i].price().nan());
        } else if i > at {
            assert(!ladder[i - 1].price().nan());
        }
    }
}

/// A ladder whose prices are numbers is ordered cheapest-first.
pub proof fn law_ladder_ascends(rungs: Seq<CapabilityTarget>)
    requires
        priced(rungs),
    ensures
        ascends(cheapest_first(rungs)),
        priced(cheapest_first(rungs)),
    decreases rungs.len(),
{
    if rungs.len() > 0 {
        let front = rungs.drop_last();
        assert forall|i: int| 0 <= i < front.len() implies !(#[trigger] front[i]).price().nan() by {
            assert(front[i] == rungs[i]);
        }
        law_ladder_ascends(front);
        lemma_inserted_ascends(cheapest_first(front), rungs.last());
    }
}

/// Ordering a ladder neither loses nor adds a rung.
pub proof fn law_ladder_keeps_its_rungs(rungs: Seq<CapabilityTarget>)
    ensures
        cheapest_first(rungs).to_multiset() == rungs.to_multiset(),
        cheapest_first(rungs).len() == rungs.len(),
    decreases rungs.len(),
{
    if rungs.len() > 0 {
        let front = rungs.drop_last();
        let ladder = cheapest_first(front);
        law_ladder_keeps_its_rungs(front);
        lemma_slot_in_range(ladder, rungs.last().price());
        vstd::seq_lib::to_multiset_insert(
            ladder,
            slot(ladder, rungs.last().price()),
            rungs.last(),
        );
        vstd::seq_lib::to_multiset_build(front, rungs.last());
        assert(front.push(rungs.last()) =~= rungs);
    } else {
        assert(cheapest_first(rungs) =~= rungs);
    }
}

/// Whether every price is a number that no other rung has.
pub open spec fn distinctly_priced(rungs: Seq<CapabilityTarget>) -> bool {
    &&& priced(rungs)
    &&& forall|i: int, j: int|
        0 <= i < j < rungs.len() ==> (#[trigger] rungs[i]).price().value() != (
        #[trigger] rungs[j]).price().value()
}

/// Whether every rung costs more than each earlier one.
spec fn climbs(ladder: Seq<CapabilityTarget>) -> bool {
    forall|i: int, j: int|
        0 <= i < j < ladder.len() ==> (#[trigger] ladder[i]).price().less(
            (#[trigger] ladder[j]).price(),
        )
}

/// A rung in one of two rearrangements of the same rungs is in the other.
proof fn lemma_rearranged(
    rungs: Seq<CapabilityTarget>,
    other: Seq<CapabilityTarget>,
    rung: CapabilityTarget,
)
    requires
        rungs.to_multiset() == other.to_multiset(),
        rungs.contains(rung),
    ensures
        other.contains(rung),
{
    rungs.to_multiset_ensures();
    other.to_multiset_ensures();
    assert(rungs.to_multiset().count(rung) > 0);
    assert(other.to_multiset().count(rung) > 0);
}

proof fn lemma_inserted_climbs(ladder: Seq<CapabilityTarget>, rung: CapabilityTarget)
    requires
        climbs(ladder),
        ascends(ladder),
        priced(ladder),
        !rung.price().nan(),
        forall|i: int|
            0 <= i < ladder.len() ==> (#[trigger] ladder[i]).price().value() != rung.price().value(),
    ensures
        climbs(ladder.insert(slot(ladder, rung.price()), rung)),
{
    lemma_slot_in_range(ladder, rung.price());
    lemma_inserted_ascends(ladder, rung);
    let at = slot(ladder, rung.price());
    let next = ladder.insert(at, rung);
    assert forall|i: int, j: int| 0 <= i < j < next.len() implies (#[trigger] next[i]).price().less(
        (#[trigger] next[j]).price(),
    ) by {
        if i < at && j < at {
            assert(ladder[i].price().less(ladder[j].price()));
        } else if i < at && j == at {
            assert(!rung.price().less(ladder[i].price()));
        } else if i < at {
            assert(ladder[i].price().less(ladder[j - 1].price()));
        } else if i == at {
            assert(rung.price().less(ladder[j - 1].price()));
        } else {
            assert(ladder[i - 1].price().less(ladder[j - 1].price()));
        }
    }
}

proof fn lemma_ladder_climbs(rungs: Seq<CapabilityTarget>)
    requires
        distinctly_priced(rungs),
    ensures
        climbs(cheapest_first(rungs)),
    decreases rungs.len(),
{
    if rungs.len() > 0 {
        let front = rungs.drop_last();
        let rung = rungs.last();
        let ladder = cheapest_first(front);
        assert(forall|i: int| 0 <= i < front.len() ==> #[trigger] front[i] == rungs[i]);
        assert(distinctly_priced(front));
        lemma_ladder_climbs(front);
        law_ladder_ascends(front);
        law_ladder_keeps_its_rungs(front);
        assert forall|i: int| 0 <= i < ladder.len() implies (#[trigger] ladder[i]).price().value()
            != rung.price().value() by {
            lemma_rearranged(ladder, front, ladder[i]);
            let k = choose|k: int| 0 <= k < front.len() && front[k] == ladder[i];
            assert(rungs[k].price().value() != rungs[rungs.len() - 1].price().value());
        }
        lemma_inserted_climbs(ladder, rung);
    }
}

/// Rungs that climb stand in the one order in which they ascend.
proof fn lemma_one_order(ladder: Seq<CapabilityTarget>, other: Seq<CapabilityTarget>)
    requires
        climbs(ladder),
        ascends(other),
        ladder.to_multiset() == other.to_multiset(),
    ensures
        ladder == other,
    decreases ladder.len(),
{
    ladder.to_multiset_ensures();
    other.to_multiset_ensures();
    if ladder.len() > 0 {
        let top = ladder.last();
        let highest = other.last();
        assert(ladder[ladder.len() - 1] == top && other[other.len() - 1] == highest);
        assert(ladder.contains(top) && other.contains(highest));
        lemma_rearranged(ladder, other, top);
        lemma_rearranged(other, ladder, highest);
        let i = choose|i: int| 0 <= i < ladder.len() && ladder[i] == highest;
        let j = choose|j: int| 0 <= j < other.len() && other[j] == top;
        if i < ladder.len() - 1 {
            assert(ladder[i].price().less(top.price()));
            if j < other.len() - 1 {
                assert(other[j].price().at_most(highest.price()));
            }
        }
        assert(top == highest);
        assert(ladder.remove(ladder.len() - 1) =~= ladder.drop_last());
        assert(other.remove(other.len() - 1) =~= other.drop_last());
        lemma_one_order(ladder.drop_last(), other.drop_last());
        assert(ladder =~= ladder.drop_last().push(top));
        assert(other =~= other.drop_last().push(top));
    } else {
        assert(ladder =~= other);
    }
}

/// Rungs of distinct prices make the same ladder in whatever order they are declared.
pub proof fn law_ladder_ignores_declaration_order(
    rungs: Seq<CapabilityTarget>,
    shuffled: Seq<CapabilityTarget>,
)
    requires
        distinctly_priced(rungs),
        shuffled.to_multiset() == rungs.to_multiset(),
    ensures
        cheapest_first(shuffled) == cheapest_first(rungs),
{
    assert forall|i: int| 0 <= i < shuffled.len() implies !(#[trigger] shuffled[i]).price().nan() by {
        lemma_rearranged(shuffled, rungs, shuffled[i]);
    }
    lemma_ladder_climbs(rungs);
    law_ladder_ascends(shuffled);
    law_ladder_keeps_its_rungs(rungs);
    law_ladder_keeps_its_rungs(shuffled);
    lemma_one_order(cheapest_first(rungs), cheapest_first(shuffled));
}

/// Inserting a kept rung where no kept rung follows appends it to the kept ones.
proof fn lemma_filter_inserted(
    ladder: Seq<CapabilityTarget>,
    at: int,
    rung: CapabilityTarget,
    keep: spec_fn(CapabilityTarget) -> bool,
)
    requires
        0 <= at <= ladder.len(),
        keep(rung) ==> forall|i: int| at <= i < ladder.len() ==> !keep(#[trigger] ladder[i]),
    ensures
        ladder.insert(at, rung).filter(keep) == if keep(rung) {
            ladder.filter(keep).push(rung)
        } else {
            ladder.filter(keep)
        },
{
    let low = ladder.take(at);
    let high = ladder.skip(at);
    let none = Seq::<CapabilityTarget>::empty();
    assert(low + high =~= ladder);
    assert(low.push(rung) + high =~= ladder.insert(at, rung));
    Seq::filter_distributes_over_add(low, high, keep);
    Seq::filter_distributes_over_add(low.push(rung), high, keep);
    assert(low.push(rung).filter(keep) == if keep(rung) {
        low.filter(keep).push(rung)
    } else {
        low.filter(keep)
    }) by {
        reveal(Seq::filter);
        assert(low.push(rung).drop_last() =~= low);
    }
    if keep(rung) {
        assert forall|i: int| 0 <= i < high.len() implies !keep(#[trigger] high[i]) by {
            assert(high[i] == ladder[at + i]);
        }
        lemma_none_kept(high, keep);
        assert(low.filter(keep) + none =~= low.filter(keep));
        assert(low.filter(keep).push(rung) + none =~= low.filter(keep).push(rung));
    }
}

/// Rungs of one price keep the order in which they were declared.
pub proof fn law_ladder_is_stable(rungs: Seq<CapabilityTarget>, value: int)
    requires
        priced(rungs),
    ensures
        cheapest_first(rungs).filter(|rung: CapabilityTarget| rung.price().value() == value)
            == rungs.filter(|rung: CapabilityTarget| rung.price().value() == value),
    decreases rungs.len(),
{
    let same = |rung: CapabilityTarget| rung.price().value() == value;
    if rungs.len() > 0 {
        let front = rungs.drop_last();
        let rung = rungs.last();
        assert forall|i: int| 0 <= i < front.len() implies !(#[trigger] front[i]).price().nan() by {
            assert(front[i] == rungs[i]);
        }
        law_ladder_is_stable(front, value);
        law_ladder_ascends(front);
        let ladder = cheapest_first(front);
        lemma_slot_in_range(ladder, rung.price());
        lemma_inserted_ascends(ladder, rung);
        lemma_filter_inserted(ladder, slot(ladder, rung.price()), rung, same);
        assert(rungs.filter(same) == if same(rung) {
            front.filter(same).push(rung)
        } else {
            front.filter(same)
        }) by {
            reveal(Seq::filter);
        }
    } else {
        assert(cheapest_first(rungs) =~= rungs);
    }
}

proof fn lemma_none_kept(s: Seq<CapabilityTarget>, keep: spec_fn(CapabilityTarget) -> bool)
    requires
        forall|i: int| 0 <= i < s.len() ==> !keep(#[trigger] s[i]),
    ensures
        s.filter(keep) == Seq::<CapabilityTarget>::empty(),
    decreases s.len(),
{
    reveal(Seq::filter);
    if s.len() > 0 {
        assert forall|i: int| 0 <= i < s.drop_last().len() implies !keep(
            #[trigger] s.drop_last()[i],
        ) by {
            assert(s.drop_last()[i] == s[i]);
        }
        lemma_none_kept(s.drop_last(), keep);
    }
}

/// No rung is more capable than the strongest one.
pub proof fn law_strongest_rung_is_most_capable(ladder: Seq<CapabilityTarget>)
    requires
        ladder.len() > 0,
        forall|i: int| 0 <= i < ladder.len() ==> !(#[trigger] ladder[i]).capability.nan(),
    ensures
        0 <= strongest(ladder) < ladder.len(),
        forall|i: int|
            0 <= i < ladder.len() ==> (#[trigger] ladder[i]).capability.at_most(
                ladder[strongest(ladder)].capability,
            ),
    decreases ladder.len(),
{
    lemma_strongest_in_range(ladder);
    let front = ladder.drop_last();
    lemma_strongest_in_range(front);
    assert(forall|i: int| 0 <= i < front.len() ==> #[trigger] front[i] == ladder[i]);
    if front.len() > 0 {
        law_strongest_rung_is_most_capable(front);
        assert forall|i: int| 0 <= i < ladder.len() implies (
        #[trigger] ladder[i]).capability.at_most(ladder[strongest(ladder)].capability) by {
            if i < front.len() {
                assert(front[i].capability.at_most(front[strongest(front)].capability));
            }
        }
    }
}

/// On an ascending ladder, a task that is not judged unsupported goes to a rung that clears the
/// judged level and fits the request, and no such rung is cheaper; if there is none, it goes to
/// the strongest rung.
pub proof fn law_pick_is_the_cheapest_adequate_rung(
    policy: TaskClassifierPolicy,
    verdict: TaskClassifierVerdict,
    required: Binary64,
    needed: Option<u64>,
)
    requires
        policy.ranked@.len() > 0,
        ascends(policy.ranked@),
        priced(policy.ranked@),
        verdict.capability_boundary@ != "unsupported"@,
        verdict.minimum_capability == Some(required),
    ensures
        ({
            let at = first_adequate(policy.ranked@, required, needed);
            if at < policy.ranked@.len() {
                &&& policy.pick(verdict, needed) == policy.ranked@[at].target@
                &&& policy.ranked@[at].adequate(required, needed)
                &&& forall|i: int|
                    0 <= i < policy.ranked@.len() && (#[trigger] policy.ranked@[i]).adequate(
                        required,
                        needed,
                    ) ==> policy.ranked@[at].price().at_most(policy.ranked@[i].price())
            } else {
                &&& policy.pick(verdict, needed) == policy.ranked@[strongest(
                    policy.ranked@,
                )].target@
                &&& forall|i: int|
                    0 <= i < policy.ranked@.len() ==> !(#[trigger] policy.ranked@[i]).adequate(
                        required,
                        needed,
                    )
            }
        }),
{
    lemma_first_adequate(policy.ranked@, required, needed);
    let at = first_adequate(policy.ranked@, required, needed);
    if at < policy.ranked@.len() {
        assert forall|i: int|
            0 <= i < policy.ranked@.len() && (#[trigger] policy.ranked@[i]).adequate(
                required,
                needed,
            ) implies policy.ranked@[at].price().at_most(policy.ranked@[i].price()) by {
            if i > at {
                assert(policy.ranked@[at].price().at_most(policy.ranked@[i].price()));
            }
        }
    }
}

/// An unsupported verdict, or one without a level, goes to the strongest rung.
pub proof fn law_distrusted_tasks_go_to_the_strongest_rung(
    policy: TaskClassifierPolicy,
    verdict: TaskClassifierVerdict,
    needed: Option<u64>,
)
    requires
        policy.ranked@.len() > 0,
        verdict.capability_boundary@ == "unsupported"@ || verdict.minimum_capability is None,
    ensures
        policy.ruling(verdict, needed) == decides(
            policy.ranked@[strongest(policy.ranked@)].target@,
        ),
{
}

/// No finite probability clears an infinite threshold.
proof fn lemma_infinite_never_clears(p_solve: Binary64, threshold: Binary64)
    requires
        p_solve.finite(),
        threshold.infinite(),
        !threshold.negative(),
    ensures
        !clears(p_solve, threshold),
{
    lemma_scaled_increases(p_solve.magnitude(), INFINITY_BITS as int);
    lemma_scaled_increases(Binary64::of(EPSILON).magnitude(), INFINITY_BITS as int);
    assert(p_solve.negation().magnitude() == p_solve.magnitude());
}

/// Every finite probability clears a threshold of negative infinity.
proof fn lemma_lowest_is_cleared(p_solve: Binary64, threshold: Binary64)
    requires
        p_solve.finite(),
        threshold.infinite(),
        threshold.negative(),
    ensures
        clears(p_solve, threshold),
{
    lemma_scaled_increases(p_solve.magnitude(), INFINITY_BITS as int);
}

/// A probability that clears a threshold clears every lower one.
#[verifier::rlimit(30)]
pub proof fn law_clearing_is_monotone(p_solve: Binary64, low: Binary64, high: Binary64)
    requires
        p_solve.finite(),
        low.at_most(high),
        clears(p_solve, high),
    ensures
        clears(p_solve, low),
{
    if low.infinite() {
        lemma_scaled_increases(0, INFINITY_BITS as int);
        if low.negative() {
            lemma_lowest_is_cleared(p_solve, low);
        } else if high.finite() {
            lemma_scaled_increases(high.magnitude(), INFINITY_BITS as int);
        } else {
            lemma_infinite_never_clears(p_solve, high);
        }
    } else if high.infinite() {
        lemma_scaled_increases(low.magnitude(), INFINITY_BITS as int);
        if !high.negative() {
            lemma_infinite_never_clears(p_solve, high);
        }
    } else if !high.at_most(p_solve) && !low.at_most(p_solve) {
        law_subtraction_is_monotone(low, high, p_solve);
        law_subtraction_is_monotone(p_solve, low, p_solve);
        lemma_self_difference(p_solve);
        let near = low.minus(p_solve);
        let far = high.minus(p_solve);
        lemma_absolute(near);
        lemma_absolute(far);
    }
}

/// A threshold that a probability clears, every higher probability clears too.
#[verifier::rlimit(30)]
pub proof fn law_confidence_never_hurts(less: Binary64, more: Binary64, threshold: Binary64)
    requires
        less.finite(),
        more.finite(),
        less.at_most(more),
        clears(less, threshold),
    ensures
        clears(more, threshold),
{
    if threshold.infinite() {
        if threshold.negative() {
            lemma_lowest_is_cleared(more, threshold);
        } else {
            lemma_infinite_never_clears(less, threshold);
        }
    } else if !threshold.at_most(more) {
        law_subtraction_is_antitone(less, more, threshold);
        law_subtraction_is_monotone(more, threshold, more);
        lemma_self_difference(more);
        lemma_absolute(threshold.minus(more));
        lemma_absolute(threshold.minus(less));
    }
}

proof fn lemma_self_difference(x: Binary64)
    requires
        x.finite(),
    ensures
        x.minus(x).value() == 0,
        !x.minus(x).nan(),
{
    assert(x.negation().magnitude() == x.magnitude());
    assert(x.value() + x.negation().value() == 0);
    assert(scaled(0) == 0);
}

proof fn lemma_absolute(x: Binary64)
    requires
        !x.nan(),
        x.value() >= 0,
    ensures
        x.absolute().value() == x.value(),
        !x.absolute().nan(),
{
    assert(x.absolute().magnitude() == x.magnitude());
    assert(scaled(0) == 0);
    if x.negative() && x.magnitude() > 0 {
        lemma_scaled_increases(0, x.magnitude());
    }
}

/// Products of a step that is not negative with zero, one and two, in order.
#[verifier::rlimit(30)]
proof fn lemma_step_products(step: Binary64)
    requires
        step.finite(),
        !step.less(Binary64::of(ZERO)),
    ensures
        Binary64::of(ZERO).times(step).finite(),
        Binary64::of(ZERO).times(step).value() == 0,
        Binary64::of(ZERO).times(step).at_most(Binary64::of(ONE).times(step)),
        Binary64::of(ONE).times(step).at_most(Binary64::of(TWO).times(step)),
{
    let zero = Binary64::of(ZERO);
    let one = Binary64::of(ONE);
    let two = Binary64::of(TWO);
    let d = pow2(1074) as int;
    lemma_pow2_pos(1074);
    assert(scaled(0) == 0);
    lemma_nearest_exact(0, d);
    assert(d * scaled(0) == 0);
    assert(nearest(0, d) == 0);
    assert(scaled(zero.magnitude()) * scaled(step.magnitude()) == 0) by (nonlinear_arith)
        requires
            scaled(zero.magnitude()) == 0,
    ;
    if step.magnitude() == 0 {
        assert(scaled(one.magnitude()) * scaled(step.magnitude()) == 0) by (nonlinear_arith)
            requires
                scaled(step.magnitude()) == 0,
        ;
        assert(scaled(two.magnitude()) * scaled(step.magnitude()) == 0) by (nonlinear_arith)
            requires
                scaled(step.magnitude()) == 0,
        ;
    } else {
        lemma_scaled_increases(0, step.magnitude());
        lemma_scaled_increases(0, one.magnitude());
        lemma_scaled_increases(one.magnitude(), two.magnitude());
        law_multiplication_is_monotone(zero, one, step);
        law_multiplication_is_monotone(one, two, step);
    }
}

/// A product of a step that is not negative with one or two is not negative, and infinite if the
/// step is.
proof fn lemma_step_sign(step: Binary64, number: Binary64)
    requires
        !step.nan(),
        !step.less(Binary64::of(ZERO)),
        number == Binary64::of(ONE) || number == Binary64::of(TWO),
    ensures
        step.infinite() ==> number.times(step).infinite() && !number.times(step).negative(),
{
    assert(scaled(0) == 0);
    if step.infinite() {
        lemma_scaled_increases(0, INFINITY_BITS as int);
    }
}

/// A sum with positive infinity is no threshold that a finite probability clears.
proof fn lemma_infinite_sum_never_clears(p_solve: Binary64, base: Binary64, added: Binary64)
    requires
        p_solve.finite(),
        added.infinite(),
        !added.negative(),
    ensures
        !clears(p_solve, base.plus(added)),
{
    let sum = base.plus(added);
    if sum.infinite() && !sum.negative() {
        lemma_infinite_never_clears(p_solve, sum);
    }
}

/// A probability that clears the threshold after some steps clears it after fewer.
#[verifier::rlimit(30)]
proof fn lemma_fewer_steps_clear(
    p_solve: Binary64,
    base: Binary64,
    step: Binary64,
    few: u8,
    many: u8,
)
    requires
        p_solve.finite(),
        !step.nan(),
        !step.less(Binary64::of(ZERO)),
        few < many <= 2,
        clears(p_solve, base.plus(steps_number(many).times(step))),
    ensures
        clears(p_solve, base.plus(steps_number(few).times(step))),
{
    let less = steps_number(few).times(step);
    let more = steps_number(many).times(step);
    lemma_step_sign(step, steps_number(many));
    if step.infinite() {
        lemma_infinite_sum_never_clears(p_solve, base, more);
    } else {
        lemma_step_products(step);
        assert(scaled(0) == 0);
        assert(less.at_most(more) && less.value() >= 0);
        if more.infinite() {
            lemma_scaled_increases(0, INFINITY_BITS as int);
            lemma_infinite_sum_never_clears(p_solve, base, more);
        }
        lemma_below_finite(less, more);
        if base.infinite() {
            if base.negative() {
                lemma_lowest_is_cleared(p_solve, base);
            } else {
                lemma_infinite_never_clears(p_solve, base);
            }
        } else if base.finite() {
            law_addition_is_monotone(less, more, base);
            law_addition_commutes(less, base);
            law_addition_commutes(more, base);
            law_clearing_is_monotone(p_solve, base.plus(less), base.plus(more));
        }
    }
}

/// On a binary route a task that goes to the efficient target still goes there when the judge is
/// more confident, the boundary no more doubtful, or both; the request's size plays no part. Where
/// the confidence is just the one that the boundary requires, the efficient target gets the task.
pub proof fn law_better_verdicts_keep_the_efficient_target(
    policy: TaskClassifierPolicy,
    verdict: TaskClassifierVerdict,
    better: TaskClassifierVerdict,
    needed: Option<u64>,
    other: Option<u64>,
)
    requires
        policy.ranked@.len() == 0,
        Binary64::of(ZERO).at_most(policy.threshold_step),
        verdict.valid(),
        better.valid(),
        verdict.p_solve.at_most(better.p_solve),
        steps_of(better.capability_boundary@)->0 <= steps_of(verdict.capability_boundary@)->0,
    ensures
        policy.ruling(verdict, needed) == decides(policy.efficient_target@) ==> policy.ruling(
            better,
            other,
        ) == decides(policy.efficient_target@),
        policy.required_at(verdict.capability_boundary@) == Some(verdict.p_solve)
            ==> policy.ruling(verdict, needed) == decides(policy.efficient_target@),
{
    let base = policy.base_threshold;
    let step = policy.threshold_step;
    let many = steps_of(verdict.capability_boundary@)->0;
    let few = steps_of(better.capability_boundary@)->0;
    assert(steps_of(verdict.capability_boundary@) is Some);
    assert(steps_of(better.capability_boundary@) is Some);
    assert(decides(policy.efficient_target@)->Scores_0[0].0 == policy.efficient_target@);
    assert(decides(policy.capable_target@)->Scores_0[0].0 == policy.capable_target@);
    if clears(verdict.p_solve, base.plus(steps_number(many).times(step))) {
        lemma_fraction_is_finite(verdict.p_solve);
        lemma_fraction_is_finite(better.p_solve);
        if few < many {
            lemma_fewer_steps_clear(verdict.p_solve, base, step, few, many);
        }
        law_confidence_never_hurts(
            verdict.p_solve,
            better.p_solve,
            base.plus(steps_number(few).times(step)),
        );
    }
}

proof fn lemma_fraction_is_finite(x: Binary64)
    requires
        is_fraction(x),
    ensures
        x.finite(),
{
    assert(scaled(0) == 0);
    lemma_below_finite(x, Binary64::of(ONE));
}

proof fn lemma_infinite_is_beyond_one(x: Binary64)
    requires
        x.infinite(),
        !x.negative(),
    ensures
        beyond_one(x),
{
    let one = Binary64::of(ONE);
    assert(one.negation().magnitude() == one.magnitude());
    lemma_scaled_increases(one.magnitude(), INFINITY_BITS as int);
    lemma_scaled_increases(Binary64::of(EPSILON).magnitude(), INFINITY_BITS as int);
}

/// Thresholds of a valid configuration do not fall from supported over uncertain and unmatched to
/// unsupported, so a task that the efficient target gets at one boundary it also gets at every
/// less doubtful one.
#[verifier::rlimit(30)]
pub proof fn law_thresholds_rise_with_doubt(
    config: TaskClassifierConfig,
    policy: TaskClassifierPolicy,
    p_solve: Binary64,
)
    requires
        config.fault() is None,
        policy.base_threshold == config.base_threshold,
        policy.threshold_step == config.threshold_step,
        is_fraction(p_solve),
    ensures
        policy.required_at("supported"@) is Some,
        policy.required_at("uncertain"@) is Some,
        policy.required_at("unsupported"@) is Some,
        policy.required_at("unmatched"@) == policy.required_at("uncertain"@),
        policy.required_at("supported"@)->0.at_most(policy.required_at("uncertain"@)->0),
        policy.required_at("uncertain"@)->0.at_most(policy.required_at("unsupported"@)->0),
        clears(p_solve, policy.required_at("unsupported"@)->0) ==> clears(
            p_solve,
            policy.required_at("uncertain"@)->0,
        ),
        clears(p_solve, policy.required_at("uncertain"@)->0) ==> clears(
            p_solve,
            policy.required_at("supported"@)->0,
        ),
{
    reveal_strlit("supported");
    reveal_strlit("uncertain");
    reveal_strlit("unmatched");
    reveal_strlit("unsupported");
    assert("supported"@[0] == 's' && "uncertain"@[0] == 'u' && "unmatched"@[0] == 'u'
        && "unsupported"@[0] == 'u');
    assert("uncertain"@.len() == 9 && "unmatched"@.len() == 9 && "unsupported"@.len() == 11);
    let one = Binary64::of(ONE);
    let step = policy.threshold_step;
    let base = policy.base_threshold;
    let none = Binary64::of(ZERO).times(step);
    let single = one.times(step);
    let double = Binary64::of(TWO).times(step);
    let highest = base.plus(double);
    assert(scaled(0) == 0);
    lemma_step_products(step);
    lemma_scaled_increases(0, one.magnitude());
    lemma_below_finite(base, one);
    lemma_below_finite(p_solve, one);
    if double.infinite() {
        if double.negative() {
            lemma_scaled_increases(0, INFINITY_BITS as int);
        }
        lemma_infinite_is_beyond_one(highest);
    }
    assert(double.finite());
    lemma_below_finite(single, double);
    law_addition_is_monotone(none, single, base);
    law_addition_is_monotone(single, double, base);
    law_addition_commutes(none, base);
    law_addition_commutes(single, base);
    law_addition_commutes(double, base);
    lemma_sum_value(base, none);
    lemma_sum_value(base, single);
    lemma_sum_value(base, double);
    lemma_rounded_sign(base.value() + none.value());
    if highest.infinite() {
        if highest.negative() {
            lemma_scaled_increases(0, INFINITY_BITS as int);
        }
        lemma_infinite_is_beyond_one(highest);
    }
    lemma_below_finite(base.plus(single), highest);
    lemma_below_finite(base.plus(none), highest);
    if clears(p_solve, highest) {
        law_clearing_is_monotone(p_solve, base.plus(single), highest);
    }
    if clears(p_solve, base.plus(single)) {
        law_clearing_is_monotone(p_solve, base.plus(none), base.plus(single));
    }
}

// ── What the parts of a decision mean ───────────────────────────────────────

/// A rung's ordering price is the sum of its input price and its output price, rounded once.
pub proof fn law_price_is_the_sum_of_both_rates(rung: CapabilityTarget)
    requires
        rung.cost.input_per_1m.finite(),
        rung.cost.output_per_1m.finite(),
    ensures
        !rung.price().nan(),
        rung.price().value() == rounded(
            rung.cost.input_per_1m.value() + rung.cost.output_per_1m.value(),
        ),
{
    lemma_sum_value(rung.cost.input_per_1m, rung.cost.output_per_1m);
}

/// Whether both prices of every rung are finite numbers.
pub open spec fn finitely_priced(rungs: Seq<CapabilityTarget>) -> bool {
    forall|i: int|
        0 <= i < rungs.len() ==> (#[trigger] rungs[i]).cost.input_per_1m.finite()
            && rungs[i].cost.output_per_1m.finite()
}

/// Along a ladder the sums of input and output price do not fall: a rung comes before another
/// only if its two prices together are not larger.
pub proof fn law_ladder_ascends_in_both_rates_together(
    rungs: Seq<CapabilityTarget>,
    i: int,
    j: int,
)
    requires
        finitely_priced(rungs),
        0 <= i < j < rungs.len(),
    ensures
        ({
            let ladder = cheapest_first(rungs);
            &&& ladder.len() == rungs.len()
            &&& rungs.contains(ladder[i])
            &&& rungs.contains(ladder[j])
            &&& rounded(
                ladder[i].cost.input_per_1m.value() + ladder[i].cost.output_per_1m.value(),
            ) <= rounded(
                ladder[j].cost.input_per_1m.value() + ladder[j].cost.output_per_1m.value(),
            )
        }),
{
    let ladder = cheapest_first(rungs);
    law_ladder_keeps_its_rungs(rungs);
    assert forall|k: int| 0 <= k < rungs.len() implies !(#[trigger] rungs[k]).price().nan() by {
        law_price_is_the_sum_of_both_rates(rungs[k]);
    }
    law_ladder_ascends(rungs);
    lemma_rearranged(ladder, rungs, ladder[i]);
    lemma_rearranged(ladder, rungs, ladder[j]);
    law_price_is_the_sum_of_both_rates(ladder[i]);
    law_price_is_the_sum_of_both_rates(ladder[j]);
    assert(ladder[i].price().at_most(ladder[j].price()));
}

/// Of two rungs with the same input price the one with the larger output price is not cheaper, and
/// with the same output price the one with the larger input price is not.
pub proof fn law_each_rate_makes_a_rung_dearer(rung: CapabilityTarget, dearer: CapabilityTarget)
    requires
        rung.cost.input_per_1m.finite(),
        rung.cost.output_per_1m.finite(),
        dearer.cost.input_per_1m.finite(),
        dearer.cost.output_per_1m.finite(),
        rung.cost.input_per_1m.at_most(dearer.cost.input_per_1m),
        rung.cost.output_per_1m.at_most(dearer.cost.output_per_1m),
    ensures
        rung.price().at_most(dearer.price()),
{
    law_addition_is_monotone(
        rung.cost.input_per_1m,
        dearer.cost.input_per_1m,
        rung.cost.output_per_1m,
    );
    law_addition_is_monotone(
        rung.cost.output_per_1m,
        dearer.cost.output_per_1m,
        dearer.cost.input_per_1m,
    );
    law_addition_commutes(rung.cost.output_per_1m, dearer.cost.input_per_1m);
    law_addition_commutes(dearer.cost.output_per_1m, dearer.cost.input_per_1m);
}

/// Fractions are the numbers from zero to one.
pub proof fn law_fractions_lie_between_zero_and_one(x: Binary64)
    ensures
        is_fraction(x) <==> !x.nan() && 0 <= x.value() <= pow2(1074),
{
    assert(scaled(0) == 0);
    crate::thompson::lemma_one();
}

/// A verdict counts exactly if its probability and its level are fractions, its crux says
/// something, and its rule belongs to the boundary that it names.
pub proof fn law_valid_verdicts_name_a_rule_of_their_boundary(verdict: TaskClassifierVerdict)
    ensures
        verdict.valid() <==> {
            &&& !verdict.p_solve.nan() && 0 <= verdict.p_solve.value() <= pow2(1074)
            &&& verdict.minimum_capability matches Some(level) ==> !level.nan() && 0
                <= level.value() <= pow2(1074)
            &&& exists|i: int| 0 <= i < verdict.crux@.len() && !is_space(#[trigger] verdict.crux@[i])
            &&& {
                let rule = verdict.primary_rule@;
                let boundary = verdict.capability_boundary@;
                ||| boundary == "supported"@ && (rule == "SUP-1"@ || rule == "SUP-2"@ || rule
                    == "SUP-3"@ || rule == "SUP-4"@ || rule == "SUP-5"@)
                ||| boundary == "uncertain"@ && (rule == "UNC-1"@ || rule == "UNC-2"@)
                ||| boundary == "unsupported"@ && (rule == "LIM-1"@ || rule == "LIM-2"@)
                ||| boundary == "unmatched"@ && rule == "none"@
            }
        },
{
    law_fractions_lie_between_zero_and_one(verdict.p_solve);
    match verdict.minimum_capability {
        Some(level) => {
            law_fractions_lie_between_zero_and_one(level);
        },
        None => {},
    }
}

/// The position of a boundary's threshold: none is added for a supported task, one step for an
/// uncertain or unmatched one, two for an unsupported one, and other boundaries have none.
pub proof fn law_each_boundary_costs_its_steps(policy: TaskClassifierPolicy, boundary: Seq<char>)
    requires
        policy.base_threshold.finite(),
        policy.threshold_step.finite(),
        !policy.threshold_step.negative(),
    ensures
        ({
            let base = policy.base_threshold;
            let step = policy.threshold_step;
            let threshold = policy.required_at(boundary);
            &&& boundary == "supported"@ ==> threshold is Some && threshold->0.value()
                == base.value()
            &&& boundary == "uncertain"@ || boundary == "unmatched"@ ==> threshold is Some
                && threshold->0.value() == rounded(base.value() + step.value())
            &&& boundary == "unsupported"@ && Binary64::of(TWO).times(step).finite()
                ==> threshold is Some && threshold->0.value() == rounded(
                base.value() + 2 * step.value(),
            )
            &&& (threshold is Some) == (boundary == "supported"@ || boundary == "uncertain"@
                || boundary == "unmatched"@ || boundary == "unsupported"@)
        }),
{
    lemma_boundary_names();
    let base = policy.base_threshold;
    let step = policy.threshold_step;
    lemma_zero_times(step);
    lemma_one_times(step);
    lemma_sum_value(base, Binary64::of(ZERO).times(step));
    lemma_sum_value(base, Binary64::of(ONE).times(step));
    lemma_finite_rounds_to_itself(base);
    if Binary64::of(TWO).times(step).finite() {
        lemma_two_times(step);
        lemma_sum_value(base, Binary64::of(TWO).times(step));
    }
}

proof fn lemma_boundary_names()
    ensures
        "supported"@ != "uncertain"@,
        "supported"@ != "unmatched"@,
        "supported"@ != "unsupported"@,
        "uncertain"@ != "unsupported"@,
        "unmatched"@ != "unsupported"@,
{
    reveal_strlit("supported");
    reveal_strlit("uncertain");
    reveal_strlit("unmatched");
    reveal_strlit("unsupported");
    assert("supported"@[0] == 's' && "uncertain"@[0] == 'u' && "unmatched"@[0] == 'u'
        && "unsupported"@[0] == 'u');
    assert("uncertain"@.len() == 9 && "unmatched"@.len() == 9 && "unsupported"@.len() == 11);
}

proof fn lemma_finite_rounds_to_itself(x: Binary64)
    requires
        x.finite(),
    ensures
        rounded(x.value()) == x.value(),
{
    let m = x.magnitude();
    lemma_nearest_exact(m, 1);
    assert(1 * scaled(m) == scaled(m));
    assert(scaled(0) == 0);
    if m > 0 {
        lemma_scaled_increases(0, m);
    }
}

proof fn lemma_zero_times(step: Binary64)
    requires
        step.finite(),
    ensures
        Binary64::of(ZERO).times(step).finite(),
        Binary64::of(ZERO).times(step).value() == 0,
{
    let d = pow2(1074) as int;
    lemma_pow2_pos(1074);
    assert(scaled(0) == 0);
    lemma_nearest_exact(0, d);
    assert(d * scaled(0) == 0);
    assert(scaled(Binary64::of(ZERO).magnitude()) * scaled(step.magnitude()) == 0)
        by (nonlinear_arith)
        requires
            scaled(Binary64::of(ZERO).magnitude()) == 0,
    ;
}

proof fn lemma_one_times(step: Binary64)
    requires
        step.finite(),
        !step.negative(),
    ensures
        Binary64::of(ONE).times(step) == step,
{
    let d = pow2(1074) as int;
    lemma_pow2_pos(1074);
    crate::thompson::lemma_one();
    lemma_nearest_exact(step.magnitude(), d);
    assert(scaled(Binary64::of(ONE).magnitude()) * scaled(step.magnitude()) == d * scaled(
        step.magnitude(),
    ));
}

proof fn lemma_two_times(step: Binary64)
    requires
        step.finite(),
        !step.negative(),
        Binary64::of(TWO).times(step).finite(),
    ensures
        Binary64::of(TWO).times(step).value() == 2 * step.value(),
{
    let d = pow2(1074) as int;
    let m = step.magnitude();
    let two = Binary64::of(TWO);
    lemma_pow2_pos(1074);
    crate::thompson::lemma_one();
    crate::routing_log::lemma_doubled(Binary64::of(ONE).magnitude());
    assert(scaled(two.magnitude()) == 2 * d);
    let n = scaled(two.magnitude()) * scaled(m);
    assert(scaled(0) == 0);
    if m >= HIDDEN_BIT {
        crate::routing_log::lemma_doubled(m);
        if m + HIDDEN_BIT <= INFINITY_BITS {
            lemma_nearest_exact(m + HIDDEN_BIT, d);
            assert(n == d * scaled(m + HIDDEN_BIT)) by (nonlinear_arith)
                requires
                    n == (2 * d) * scaled(m),
                    scaled(m + HIDDEN_BIT) == 2 * scaled(m),
            ;
        } else {
            lemma_nearest_exact(INFINITY_BITS as int, d);
            lemma_scaled_increases(INFINITY_BITS as int, m + HIDDEN_BIT);
            assert(d * scaled(INFINITY_BITS as int) <= n) by (nonlinear_arith)
                requires
                    n == (2 * d) * scaled(m),
                    scaled(m + HIDDEN_BIT) == 2 * scaled(m),
                    scaled(INFINITY_BITS as int) <= scaled(m + HIDDEN_BIT),
                    d > 0,
            ;
            lemma_nearest_monotone(d * scaled(INFINITY_BITS as int), n, d);
            lemma_nearest_exists(n, d);
        }
    } else {
        assert(scaled(m) == m);
        crate::routing_log::lemma_small_doubled(m);
        lemma_nearest_exact(2 * m, d);
        assert(n == d * scaled(2 * m)) by (nonlinear_arith)
            requires
                n == (2 * d) * scaled(m),
                scaled(2 * m) == 2 * scaled(m),
        ;
    }
}

/// A probability reaches a threshold exactly if it is not below it, or if what it lacks rounds to
/// no more than the distance from one to the next larger number.
pub proof fn law_reaching_a_threshold(p_solve: Binary64, threshold: Binary64)
    requires
        p_solve.finite(),
        threshold.finite(),
    ensures
        clears(p_solve, threshold) <==> threshold.value() <= p_solve.value() || rounded(
            threshold.value() - p_solve.value(),
        ) <= Binary64::of(EPSILON).value(),
{
    assert(p_solve.negation().magnitude() == p_solve.magnitude());
    assert(p_solve.negation().value() == -p_solve.value());
    lemma_sum_value(threshold, p_solve.negation());
    if threshold.value() > p_solve.value() {
        lemma_rounded_sign(threshold.value() - p_solve.value());
        lemma_absolute(threshold.minus(p_solve));
    }
}

/// On a binary route the efficient target gets exactly the tasks whose probability reaches the
/// threshold of their boundary; the capable target gets the others.
pub proof fn law_binary_routes_compare_with_the_threshold(
    policy: TaskClassifierPolicy,
    verdict: TaskClassifierVerdict,
    needed: Option<u64>,
    threshold: Binary64,
)
    requires
        policy.ranked@.len() == 0,
        policy.required_at(verdict.capability_boundary@) == Some(threshold),
        threshold.finite(),
        verdict.p_solve.finite(),
    ensures
        threshold.value() <= verdict.p_solve.value() ==> policy.ruling(verdict, needed) == decides(
            policy.efficient_target@,
        ),
        rounded(threshold.value() - verdict.p_solve.value()) > Binary64::of(EPSILON).value()
            && threshold.value() > verdict.p_solve.value() ==> policy.ruling(verdict, needed)
            == decides(policy.capable_target@),
{
    law_reaching_a_threshold(verdict.p_solve, threshold);
}

/// A rung is adequate exactly if its capability is not below the level and its window, where both
/// are known, is not below the need.
pub proof fn law_adequate_rungs_clear_and_fit(
    rung: CapabilityTarget,
    required: Binary64,
    needed: Option<u64>,
)
    requires
        !required.nan(),
        !rung.capability.nan(),
    ensures
        rung.adequate(required, needed) <==> {
            &&& required.value() <= rung.capability.value()
            &&& rung.context_window is Some && needed is Some ==> rung.context_window->0
                >= needed->0
        },
        rung.overflows(needed) <==> rung.context_window is Some && needed is Some
            && rung.context_window->0 < needed->0,
{
}

/// Of equally capable rungs the last one is the strongest.
pub proof fn law_strongest_rung_is_the_last_of_equals(ladder: Seq<CapabilityTarget>, i: int)
    requires
        0 <= i < ladder.len(),
        forall|k: int| 0 <= k < ladder.len() ==> !(#[trigger] ladder[k]).capability.nan(),
    ensures
        i > strongest(ladder) ==> ladder[i].capability.value() < ladder[strongest(
            ladder,
        )].capability.value(),
        ladder[i].capability.value() <= ladder[strongest(ladder)].capability.value(),
        strongest_target(ladder, Seq::empty()) == ladder[strongest(ladder)].target@,
    decreases ladder.len(),
{
    lemma_strongest_in_range(ladder);
    let front = ladder.drop_last();
    lemma_strongest_in_range(front);
    assert(forall|k: int| 0 <= k < front.len() ==> #[trigger] front[k] == ladder[k]);
    if i < front.len() {
        law_strongest_rung_is_the_last_of_equals(front, i);
    }
}

/// Without rungs the given target stands in for the strongest one.
pub proof fn law_without_rungs_the_given_target_is_strongest(otherwise: Seq<char>)
    ensures
        strongest_target(Seq::empty(), otherwise) == otherwise,
{
}

/// Settings are accepted exactly if the base threshold is a fraction, the step is a finite number
/// that is not negative, the highest threshold exceeds one by no more than a rounding error, the
/// judge has tokens, and hashing messages comes with affinity.
pub proof fn law_accepted_settings(config: TaskClassifierConfig)
    ensures
        config.fault() is None <==> {
            let highest = config.base_threshold.plus(
                Binary64::of(TWO).times(config.threshold_step),
            );
            &&& !config.base_threshold.nan() && 0 <= config.base_threshold.value() <= pow2(1074)
            &&& config.threshold_step.finite() && config.threshold_step.value() >= 0
            &&& !(Binary64::of(ONE).less(highest) && Binary64::of(EPSILON).less(
                highest.minus(Binary64::of(ONE)),
            ))
            &&& config.max_output_tokens > 0
            &&& config.message_hash_fallback ==> config.session_affinity
        },
        config.fault() matches Some(error) ==> match error {
            AlgorithmError::BaseThreshold { got } => got == config.base_threshold,
            AlgorithmError::ThresholdStep { got } => got == config.threshold_step,
            AlgorithmError::UnsupportedThreshold { got } => got == config.base_threshold.plus(
                Binary64::of(TWO).times(config.threshold_step),
            ),
            AlgorithmError::MaxOutputTokens => config.max_output_tokens == 0,
            AlgorithmError::MessageHashWithoutAffinity => config.message_hash_fallback
                && !config.session_affinity,
            _ => false,
        },
{
    law_fractions_lie_between_zero_and_one(config.base_threshold);
    assert(scaled(0) == 0);
}

/// What is wrong with a setting is reported before what is wrong with a later one: the base
/// threshold, the step, the highest threshold, the tokens, the affinity.
pub proof fn law_settings_are_looked_at_in_order(config: TaskClassifierConfig)
    ensures
        config.fault() matches Some(AlgorithmError::BaseThreshold { .. }) <==> !is_fraction(
            config.base_threshold,
        ),
        config.fault() matches Some(AlgorithmError::ThresholdStep { .. }) <==> is_fraction(
            config.base_threshold,
        ) && !(config.threshold_step.finite() && config.threshold_step.value() >= 0),
        config.fault() matches Some(AlgorithmError::UnsupportedThreshold { .. }) <==> {
            let highest = config.base_threshold.plus(
                Binary64::of(TWO).times(config.threshold_step),
            );
            &&& is_fraction(config.base_threshold)
            &&& config.threshold_step.finite() && config.threshold_step.value() >= 0
            &&& Binary64::of(ONE).less(highest)
            &&& Binary64::of(EPSILON).less(highest.minus(Binary64::of(ONE)))
        },
        config.fault() is Some && config.max_output_tokens == 0 ==> !(config.fault()
            == Some(AlgorithmError::MessageHashWithoutAffinity)),
        config.fault() == Some(AlgorithmError::MessageHashWithoutAffinity)
            ==> config.max_output_tokens > 0,
{
    assert(scaled(0) == 0);
}

/// An absent setting takes its default; a present one stays.
pub proof fn law_settings_keep_what_is_given<T>(value: T, default: T)
    ensures
        setting(Some(value), default) == value,
        setting(None, default) == default,
{
}

/// The tiers of a binary route: weak for the efficient target, strong for the capable one, and
/// none for other targets or where both are the same.
pub proof fn law_tiers_tell_the_two_targets_apart(
    selected: Seq<char>,
    efficient: Seq<char>,
    capable: Seq<char>,
)
    ensures
        efficient != capable ==> tier_of(efficient, efficient, capable) == Some("weak"@) && tier_of(
            capable,
            efficient,
            capable,
        ) == Some("strong"@),
        selected != efficient && selected != capable || efficient == capable ==> tier_of(
            selected,
            efficient,
            capable,
        ) is None,
{
}

/// Whatever the order of the ladder, the pick is the first rung that clears the level and fits, and
/// a strongest rung if there is none.
pub proof fn law_pick_is_the_first_adequate_rung(
    policy: TaskClassifierPolicy,
    verdict: TaskClassifierVerdict,
    required: Binary64,
    needed: Option<u64>,
    at: int,
)
    requires
        policy.ranked@.len() > 0,
        verdict.capability_boundary@ != "unsupported"@,
        verdict.minimum_capability == Some(required),
        0 <= at <= policy.ranked@.len(),
        forall|i: int|
            0 <= i < at ==> !(required.at_most((#[trigger] policy.ranked@[i]).capability) && !(
            policy.ranked@[i].context_window is Some && needed is Some
                && policy.ranked@[i].context_window->0 < needed->0)),
        at < policy.ranked@.len() ==> required.at_most(policy.ranked@[at].capability) && !(
        policy.ranked@[at].context_window is Some && needed is Some
            && policy.ranked@[at].context_window->0 < needed->0),
    ensures
        policy.ruling(verdict, needed) == decides(
            if at < policy.ranked@.len() {
                policy.ranked@[at].target@
            } else {
                policy.ranked@[strongest(policy.ranked@)].target@
            },
        ),
{
    let ladder = policy.ranked@;
    lemma_first_adequate(ladder, required, needed);
    let first = first_adequate(ladder, required, needed);
    assert forall|i: int| 0 <= i < at implies !(#[trigger] ladder[i]).adequate(required, needed) by {
    }
    if first < at {
        assert(ladder[first].adequate(required, needed));
    }
    if at < first {
        assert(ladder[at].adequate(required, needed));
    }
}

/// A boundary without a threshold decides nothing on a binary route.
pub proof fn law_unknown_boundaries_decide_nothing(
    policy: TaskClassifierPolicy,
    verdict: TaskClassifierVerdict,
    needed: Option<u64>,
)
    requires
        policy.ranked@.len() == 0,
        verdict.capability_boundary@ != "supported"@,
        verdict.capability_boundary@ != "uncertain"@,
        verdict.capability_boundary@ != "unmatched"@,
        verdict.capability_boundary@ != "unsupported"@,
    ensures
        policy.ruling(verdict, needed) == abstains(),
{
}

/// An optional label holds its text, and nothing where there is none.
pub proof fn law_views_of_labels(label: &'static str)
    ensures
        label_option(Some(label)) == Some(label@),
        label_option(None) is None,
{
}

/// Prices that are not finite add up as numbers do, too.
pub proof fn law_any_prices_add_up(rung: CapabilityTarget)
    ensures
        rung.price() == rung.cost.input_per_1m.plus(rung.cost.output_per_1m),
        rung.cost.input_per_1m.nan() || rung.cost.output_per_1m.nan() ==> rung.price().nan(),
{
}

/// Thresholds of any base and step: the base plus no, one or two times the step.
pub proof fn law_thresholds_of_any_base_and_step(policy: TaskClassifierPolicy)
    ensures
        ({
            let base = policy.base_threshold;
            let step = policy.threshold_step;
            &&& policy.required_at("supported"@) == Some(base.plus(Binary64::of(ZERO).times(step)))
            &&& policy.required_at("uncertain"@) == Some(base.plus(Binary64::of(ONE).times(step)))
            &&& policy.required_at("unmatched"@) == Some(base.plus(Binary64::of(ONE).times(step)))
            &&& policy.required_at("unsupported"@) == Some(
                base.plus(Binary64::of(TWO).times(step)),
            )
        }),
{
    lemma_boundary_names();
}

/// No probability reaches a threshold that is no number or positive infinity, and every finite one
/// reaches negative infinity.
pub proof fn law_reaching_odd_thresholds(p_solve: Binary64, threshold: Binary64)
    requires
        p_solve.finite(),
    ensures
        threshold.nan() ==> !clears(p_solve, threshold),
        threshold.infinite() ==> (clears(p_solve, threshold) <==> threshold.negative()),
{
    if threshold.infinite() {
        if threshold.negative() {
            lemma_lowest_is_cleared(p_solve, threshold);
        } else {
            lemma_infinite_never_clears(p_solve, threshold);
        }
    }
}

/// A further rung becomes the strongest unless it is less capable than the strongest so far.
pub proof fn law_the_strongest_is_kept_unless_matched(
    ladder: Seq<CapabilityTarget>,
    rung: CapabilityTarget,
)
    ensures
        strongest(ladder.push(rung)) == if ladder.len() > 0 && rung.capability.less(
            ladder[strongest(ladder)].capability,
        ) {
            strongest(ladder)
        } else {
            ladder.len() as int
        },
{
    lemma_strongest_in_range(ladder);
    assert(ladder.push(rung).drop_last() =~= ladder);
    if ladder.len() > 0 {
        assert(ladder.push(rung)[strongest(ladder)] == ladder[strongest(ladder)]);
    }
}

} // verus!
