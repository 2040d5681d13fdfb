//! The judge-backed router: capability, escalation and custom classifier modes.
//!
//! Judge contracts are compiled by the host from prompts and schemas; the router is given what
//! compiling them gave.

use vstd::prelude::*;

use crate::binary64::Binary64;
use crate::capability::{
    cheapest_first, distinctly_priced, is_fraction, label_option, law_ladder_ignores_declaration_order,
    law_ladder_keeps_its_rungs, law_strongest_rung_is_most_capable, lemma_first_adequate,
    most_capable_of, routing_tier, sort_ladder, strongest, strongest_target, tier_of,
    CapabilityTarget, TaskClassifierConfig, TaskClassifierPolicy, TaskClassifierVerdict,
};
use crate::classification::{
    abstains, best_score, chosen, decides, lemma_best_score, Classification, Ruling,
};
use crate::custom::{
    entries_fault, labelled, tabulate, tabulates, CustomClassifier, CustomClassifierConfig,
    CustomClassifierPolicy,
};
use crate::error::AlgorithmError;
use crate::escalation::EscalationClassifier;
use crate::json::Json;
use crate::judge::{judge_ask, judge_request, ClassifierContract, ClassifierContractConfig};
use crate::messages::{TaskInput, Turn};
use crate::model::{name_option, names_of, ModelId};
use crate::request::{facts_option, Request};
use crate::selector::{is_pointer, pointer_error, pointer_text, TargetSelectorPolicy};
use crate::zones::{
    lemma_fanned_on_ladder, needed_for, BanditConfig, CostAwareClassifier, Step, ZoneConfig,
};

verus! {

/// Routes between an efficient and a capable target from a task-level verdict.
#[derive(Debug, PartialEq)]
pub struct TaskClassifier {
    /// Target that produces verdicts.
    pub judge_target: ModelId,
    /// Which messages the judge is shown.
    pub input: TaskInput,
    pub contract: ClassifierContract,
    /// Completion tokens available to a verdict.
    pub max_output_tokens: u64,
    pub policy: TaskClassifierPolicy,
    pub efficient_target: ModelId,
    pub capable_target: ModelId,
}

impl TaskClassifier {
    /// The request for the judge.
    pub fn judge_request(&self, request: &Request) -> (judged: Request)
        ensures
            judged.llm_request@ == judge_ask(
                request.llm_request@.model,
                self.input.shown(request.llm_request@.turns),
                self.contract,
                self.max_output_tokens,
            ),
            judged.raw_request is None,
            facts_option(judged.metadata) == facts_option(request.metadata),
    {
        let messages = self.input.build_messages(&request.llm_request.messages);
        judge_request(request, messages, &self.contract, self.max_output_tokens)
    }

    /// The decision on the judge's verdict; none stands for a judge that failed.
    pub fn on_verdict(&self, verdict: Option<&TaskClassifierVerdict>) -> (decision: Classification)
        ensures
            decision@ == match verdict {
                Some(verdict) if verdict.valid() => self.policy.ruling(*verdict, None),
                _ => abstains(),
            },
    {
        self.policy.to_classification(verdict)
    }
}

/// Whether and how a session's earlier assignment is reused before the classifier is asked.
#[derive(Clone, Copy, Debug, PartialEq, Eq, Structural)]
pub enum Affinity {
    Off,
    /// By session metadata.
    Session,
    /// By session metadata, or by the first user message where there is none.
    SessionOrFirstMessage,
}

/// The classifier of a route.
pub enum InnerClassifier {
    Task(TaskClassifier),
    CostAware(CostAwareClassifier),
    Custom(CustomClassifier),
    Escalation(EscalationClassifier),
}

/// Routes requests through a capability, escalation, or custom classifier mode.
///
/// A request falls through the stages in order: a retained assignment, if affinity is on; the
/// classifier; and the default target, if there is one.
pub struct LlmTaskClassifier {
    pub targets: Vec<ModelId>,
    pub affinity: Affinity,
    pub inner: InnerClassifier,
    pub default_target: Option<ModelId>,
}

/// What is done about a request once the stages before the default target have been asked.
#[derive(Debug, PartialEq)]
pub enum RouteStep<A> {
    /// The answer that the classifier has bought from its target is served.
    Serve { target: ModelId, answer: A },
    /// The target is called.
    Call { target: ModelId },
    /// No stage decided, and there is no default target.
    Undecided,
}

/// What the stages around a classifier are built from.
pub struct ClassifierRouteConfig {
    pub default_target: ModelId,
    pub session_affinity: bool,
    pub message_hash_fallback: bool,
}

/// Escalation policy settings.
#[derive(Clone, Copy, Debug, PartialEq, Eq, Structural)]
pub struct EscalationJudgeConfig {
    /// Consecutive escalate verdicts required to latch.
    pub confirmations: u32,
}

/// Complete construction settings for one LLM classifier mode.
#[non_exhaustive]
#[allow(inconsistent_fields)]
pub enum LlmClassifierConfig {
    /// Routes between efficient and capable targets from a task-level verdict.
    Capability {
        /// Target that produces classifier verdicts.
        judge_target: ModelId,
        /// Target used when the efficient tier can handle the task.
        efficient_target: ModelId,
        /// Target used when the task needs the capable tier.
        capable_target: ModelId,
        /// Capability ladder for cost-aware multi-target routing.
        ///
        /// Empty selects the binary efficient/capable policy. Two or more rungs switch to the
        /// cost-aware pick: the cheapest rung whose declared capability clears the judge's
        /// `minimum_capability`.
        capability_targets: Vec<CapabilityTarget>,
        /// Confidence zones and fan-out. Only valid with a ladder; without them every ranked pick
        /// is a single call.
        capability_zones: Option<ZoneConfig>,
        /// Optional bandit correction to the judge's confidence. Only valid with zones.
        bandit: Option<BanditConfig>,
        /// Capability classifier settings.
        config: TaskClassifierConfig,
    },
    /// Judges efficient responses and escalates after a confirmed streak.
    Escalation {
        /// Target that produces escalation verdicts.
        judge_target: ModelId,
        /// Target called before each escalation decision.
        efficient_target: ModelId,
        /// Target used after escalation is confirmed.
        capable_target: ModelId,
        /// Prompt and verdict contract settings for the escalation judge.
        contract: ClassifierContractConfig,
        /// Escalation policy settings.
        config: EscalationJudgeConfig,
        /// Maximum completion tokens available to the escalation verdict.
        max_output_tokens: u64,
    },
    /// Routes among named targets using a user-supplied schema and policy.
    Custom {
        /// Target that produces classifier verdicts.
        judge_target: ModelId,
        /// User-facing labels paired with their resolved routing targets.
        targets: Vec<(String, ModelId)>,
        /// Label selected when the judge does not produce a usable verdict.
        default_target: String,
        /// Custom classifier settings.
        config: CustomClassifierConfig,
    },
}

/// What compiling a route's judge contracts gave, or why it failed.
pub struct CompiledContracts {
    /// The classifier judge's contract.
    pub classifier: Result<ClassifierContract, String>,
    /// The output judge's contract; read only by a route with confidence zones.
    pub output_judge: Result<ClassifierContract, String>,
}

// ── What is wrong with a configuration ──────────────────────────────────────

/// The first rung whose capability is not between 0 and 1, as an error.
pub open spec fn rung_fault(rungs: Seq<CapabilityTarget>) -> Option<AlgorithmError>
    decreases rungs.len(),
{
    if rungs.len() == 0 {
        None
    } else if !is_fraction(rungs[0].capability) {
        Some(
            AlgorithmError::RungCapability {
                target: rungs[0].target,
                got: rungs[0].capability,
            },
        )
    } else {
        rung_fault(rungs.skip(1))
    }
}

/// What is wrong with a ladder; an empty one is no ladder and is fine.
pub open spec fn ladder_fault(rungs: Seq<CapabilityTarget>) -> Option<AlgorithmError> {
    if rungs.len() == 0 {
        None
    } else if rungs.len() < 2 {
        Some(AlgorithmError::LadderTooShort)
    } else {
        rung_fault(rungs)
    }
}

/// Why a contract did not compile, as an error.
pub open spec fn contract_fault(contract: Result<ClassifierContract, String>) -> Option<
    AlgorithmError,
> {
    match contract {
        Ok(_) => None,
        Err(message) => Some(AlgorithmError::Contract { message }),
    }
}

/// The first of two faults.
pub open spec fn first_fault(
    first: Option<AlgorithmError>,
    second: Option<AlgorithmError>,
) -> Option<AlgorithmError> {
    match first {
        Some(error) => Some(error),
        None => second,
    }
}

/// What is wrong with optional zones.
pub open spec fn zones_fault(
    zones: Option<ZoneConfig>,
    contract: Result<ClassifierContract, String>,
) -> Option<AlgorithmError> {
    match zones {
        Some(zones) => first_fault(zones.fault(), contract_fault(contract)),
        None => None,
    }
}

/// What is wrong with how a capability route's parts fit together.
pub open spec fn parts_fault(rungs: nat, zones: bool, bandit: bool) -> Option<AlgorithmError> {
    if zones && rungs == 0 {
        Some(AlgorithmError::ZonesWithoutLadder)
    } else if bandit && !zones {
        Some(AlgorithmError::BanditWithoutZones)
    } else {
        None
    }
}

/// The first thing wrong with a capability route, if any.
pub open spec fn capability_fault(
    rungs: Seq<CapabilityTarget>,
    zones: Option<ZoneConfig>,
    bandit: Option<BanditConfig>,
    config: TaskClassifierConfig,
    contracts: CompiledContracts,
) -> Option<AlgorithmError> {
    first_fault(
        config.fault(),
        first_fault(
            parts_fault(rungs.len(), zones is Some, bandit is Some),
            first_fault(
                ladder_fault(rungs),
                first_fault(
                    zones_fault(zones, contracts.output_judge),
                    contract_fault(contracts.classifier),
                ),
            ),
        ),
    )
}

/// What is wrong with the settings of an escalation route.
pub open spec fn escalation_fault(
    max_output_tokens: u64,
    contracts: CompiledContracts,
) -> Option<AlgorithmError> {
    if max_output_tokens == 0 {
        Some(AlgorithmError::MaxOutputTokens)
    } else {
        contract_fault(contracts.classifier)
    }
}

/// What is wrong with a policy selector; the message of an invalid one is [`pointer_error`]'s.
pub open spec fn selector_fault(selector: Seq<char>, error: AlgorithmError) -> bool {
    if !is_pointer(selector) {
        error matches AlgorithmError::InvalidSelector { message } && message@
            == "policy selector is not a valid JSON Pointer: "@ + pointer_error(selector)
    } else {
        selector.len() == 0 && error == AlgorithmError::RootSelector
    }
}

/// The first thing wrong with a custom route before its contract and selector are looked at.
pub open spec fn custom_fault(
    targets: Seq<(String, ModelId)>,
    default_target: String,
    config: CustomClassifierConfig,
) -> Option<AlgorithmError> {
    if config.fault() is Some {
        config.fault()
    } else if targets.len() < 2 {
        Some(AlgorithmError::TooFewTargets)
    } else if entries_fault(targets, 0) is Some {
        entries_fault(targets, 0)
    } else if !labelled(targets, targets.len() as int, default_target@) {
        Some(AlgorithmError::UnknownDefault { label: default_target })
    } else {
        None
    }
}

// ── What is built ───────────────────────────────────────────────────────────

/// How affinity is set up.
pub open spec fn affinity_of(session_affinity: bool, message_hash_fallback: bool) -> Affinity {
    if !session_affinity {
        Affinity::Off
    } else if message_hash_fallback {
        Affinity::SessionOrFirstMessage
    } else {
        Affinity::Session
    }
}

/// The names of the rungs' targets.
pub open spec fn rung_names(ladder: Seq<CapabilityTarget>) -> Seq<Seq<char>> {
    ladder.map_values(|rung: CapabilityTarget| rung.target@)
}

/// The policy of a capability route.
pub open spec fn is_policy(
    policy: TaskClassifierPolicy,
    efficient: ModelId,
    capable: ModelId,
    ladder: Seq<CapabilityTarget>,
    config: TaskClassifierConfig,
) -> bool {
    &&& policy.efficient_target == efficient
    &&& policy.capable_target == capable
    &&& policy.base_threshold == config.base_threshold
    &&& policy.threshold_step == config.threshold_step
    &&& policy.ranked@ == ladder
}

/// Whether `inner` is the classifier of a capability route over `rungs`, with the binary policy for
/// no rungs.
pub open spec fn is_capability_classifier(
    inner: InnerClassifier,
    judge: ModelId,
    efficient: ModelId,
    capable: ModelId,
    rungs: Seq<CapabilityTarget>,
    zones: Option<ZoneConfig>,
    bandit: Option<BanditConfig>,
    config: TaskClassifierConfig,
    contracts: CompiledContracts,
) -> bool {
    let ladder = cheapest_first(rungs);
    let input = TaskInput { recent_turn_window: config.recent_turn_window };
    if rungs.len() == 0 {
        inner matches InnerClassifier::Task(task) && {
            &&& task.judge_target == judge
            &&& task.input == input
            &&& contracts.classifier == Ok::<ClassifierContract, String>(task.contract)
            &&& task.max_output_tokens == config.max_output_tokens
            &&& is_policy(task.policy, efficient, capable, ladder, config)
            &&& task.efficient_target == efficient
            &&& task.capable_target == capable
        }
    } else {
        inner matches InnerClassifier::CostAware(aware) && {
            &&& aware.judge_target == judge
            &&& aware.input == input
            &&& contracts.classifier == Ok::<ClassifierContract, String>(aware.contract)
            &&& aware.max_output_tokens == config.max_output_tokens
            &&& is_policy(aware.policy, efficient, capable, ladder, config)
            &&& aware.ranked@ == ladder
            &&& aware.capable_target@ == strongest_target(ladder, capable@)
            &&& aware.bandit == bandit
            &&& match zones {
                Some(zones) => contracts.output_judge matches Ok(contract) && aware.zones == Some(
                    zones.runtime(contract),
                ),
                None => aware.zones is None,
            }
        }
    }
}

impl LlmTaskClassifier {
    /// Whether this is the capability route of the given settings.
    pub open spec fn is_capability_route(
        self,
        judge: ModelId,
        efficient: ModelId,
        capable: ModelId,
        rungs: Seq<CapabilityTarget>,
        zones: Option<ZoneConfig>,
        bandit: Option<BanditConfig>,
        config: TaskClassifierConfig,
        contracts: CompiledContracts,
    ) -> bool {
        let ladder = cheapest_first(rungs);
        &&& names_of(self.targets@) == if rungs.len() == 0 {
            seq![efficient@, capable@]
        } else {
            rung_names(ladder)
        }
        &&& self.default_target matches Some(target) && target@ == strongest_target(
            ladder,
            capable@,
        )
        &&& self.affinity == affinity_of(config.session_affinity, config.message_hash_fallback)
        &&& is_capability_classifier(
            self.inner,
            judge,
            efficient,
            capable,
            rungs,
            zones,
            bandit,
            config,
            contracts,
        )
    }

    /// Whether this is the escalation route of the given settings.
    pub open spec fn is_escalation_route(
        self,
        judge: ModelId,
        efficient: ModelId,
        capable: ModelId,
        confirmations: u32,
        max_output_tokens: u64,
        contracts: CompiledContracts,
    ) -> bool {
        &&& names_of(self.targets@) == seq![capable@, efficient@]
        &&& self.default_target is None
        &&& self.affinity == Affinity::Off
        &&& contracts.classifier matches Ok(contract) && self.inner == InnerClassifier::Escalation(
            EscalationClassifier {
                judge_target: judge,
                contract,
                max_output_tokens,
                capable,
                efficient,
                confirmations,
            },
        )
    }

    /// Whether this is the custom route of the given settings.
    pub open spec fn is_custom_route(
        self,
        judge: ModelId,
        targets: Seq<(String, ModelId)>,
        default_target: Seq<char>,
        config: CustomClassifierConfig,
        contracts: CompiledContracts,
    ) -> bool {
        &&& names_of(self.targets@) == targets.map_values(|entry: (String, ModelId)| entry.1@)
        &&& self.affinity == affinity_of(config.session_affinity, config.message_hash_fallback)
        &&& self.inner matches InnerClassifier::Custom(custom) && {
            &&& custom.judge_target == judge
            &&& custom.input == (TaskInput { recent_turn_window: config.recent_turn_window })
            &&& contracts.classifier == Ok::<ClassifierContract, String>(custom.contract)
            &&& custom.max_output_tokens == config.max_output_tokens
            &&& match config.policy {
                CustomClassifierPolicy::TargetSelector { selector } => is_pointer(selector@)
                    && selector@.len() > 0 && pointer_text(custom.policy.selector) == selector@,
            }
            &&& tabulates(custom.policy.targets@, targets, targets.len() as int)
            &&& custom.policy.learned.listing().len() == 0
            &&& self.default_target matches Some(target) && custom.policy.targets@[default_target]
                == target
        }
    }

    /// Keeps affinity and fallback ordering identical across judge-backed modes.
    ///
    /// The fallback must be one of the targets.
    pub fn from_classifier(
        targets: Vec<ModelId>,
        inner: InnerClassifier,
        config: ClassifierRouteConfig,
    ) -> (r: Result<Self, AlgorithmError>)
        ensures
            match r {
                Ok(router) => {
                    &&& names_of(targets@).contains(config.default_target@)
                    &&& config.message_hash_fallback ==> config.session_affinity
                    &&& router == (LlmTaskClassifier {
                        targets,
                        affinity: affinity_of(config.session_affinity, config.message_hash_fallback),
                        inner,
                        default_target: Some(config.default_target),
                    })
                },
                Err(error) => if !names_of(targets@).contains(config.default_target@) {
                    error == (AlgorithmError::DefaultNotRouted { target: config.default_target })
                } else {
                    config.message_hash_fallback && !config.session_affinity && error
                        == AlgorithmError::MessageHashWithoutAffinity
                },
            },
    {
        let mut known = false;
        let mut i: usize = 0;
        while i < targets.len()
            invariant
                i <= targets@.len(),
                known == exists|j: int|
                    0 <= j < i && (#[trigger] targets@[j])@ == config.default_target@,
            decreases targets.len() - i,
        {
            if targets[i].same(&config.default_target) {
                known = true;
            }
            i = i + 1;
        }
        proof {
            if known {
                let j = choose|j: int|
                    0 <= j < i && (#[trigger] targets@[j])@ == config.default_target@;
                assert(names_of(targets@)[j] == config.default_target@);
            }
            if names_of(targets@).contains(config.default_target@) {
                let j = choose|j: int|
                    0 <= j < names_of(targets@).len() && names_of(targets@)[j]
                        == config.default_target@;
                assert(targets@[j]@ == config.default_target@);
            }
        }
        if !known {
            return Err(AlgorithmError::DefaultNotRouted { target: config.default_target });
        }
        if config.message_hash_fallback && !config.session_affinity {
            return Err(AlgorithmError::MessageHashWithoutAffinity);
        }
        let affinity = if !config.session_affinity {
            Affinity::Off
        } else if config.message_hash_fallback {
            Affinity::SessionOrFirstMessage
        } else {
            Affinity::Session
        };
        Ok(
            LlmTaskClassifier {
                targets,
                affinity,
                inner,
                default_target: Some(config.default_target),
            },
        )
    }

    /// Builds a capability route: binary without rungs, cost-aware over a ladder of them.
    #[verifier::rlimit(30)]
    pub fn build_capability(
        judge_target: ModelId,
        efficient_target: ModelId,
        capable_target: ModelId,
        capability_targets: Vec<CapabilityTarget>,
        capability_zones: Option<ZoneConfig>,
        bandit: Option<BanditConfig>,
        config: TaskClassifierConfig,
        contracts: CompiledContracts,
    ) -> (r: Result<Self, AlgorithmError>)
        ensures
            match r {
                Ok(router) => capability_fault(
                    capability_targets@,
                    capability_zones,
                    bandit,
                    config,
                    contracts,
                ) is None && router.is_capability_route(
                    judge_target,
                    efficient_target,
                    capable_target,
                    capability_targets@,
                    capability_zones,
                    bandit,
                    config,
                    contracts,
                ),
                Err(error) => capability_fault(
                    capability_targets@,
                    capability_zones,
                    bandit,
                    config,
                    contracts,
                ) == Some(error),
            },
    {
        let ghost rungs = capability_targets@;
        let ghost ladder = cheapest_first(rungs);
        match config.validate() {
            Ok(_) => {},
            Err(error) => {
                return Err(error);
            },
        }
        if capability_zones.is_some() && capability_targets.len() == 0 {
            return Err(AlgorithmError::ZonesWithoutLadder);
        }
        if bandit.is_some() && capability_zones.is_none() {
            return Err(AlgorithmError::BanditWithoutZones);
        }
        match check_ladder(&capability_targets) {
            Ok(_) => {},
            Err(error) => {
                return Err(error);
            },
        }
        let ranked = sort_ladder(capability_targets);
        proof {
            law_ladder_keeps_its_rungs(rungs);
        }
        let zones = match capability_zones {
            Some(zones) => match zones.build_runtime(contracts.output_judge) {
                Ok(runtime) => Some(runtime),
                Err(error) => {
                    return Err(error);
                },
            },
            None => None,
        };
        let contract = match contracts.classifier {
            Ok(contract) => contract,
            Err(message) => {
                return Err(AlgorithmError::Contract { message });
            },
        };
        let input = TaskInput { recent_turn_window: config.recent_turn_window };
        let policy = TaskClassifierPolicy::new(
            efficient_target.clone(),
            capable_target.clone(),
            &config,
        ).with_ranked_targets(copy_ladder(&ranked));
        let default_target = most_capable_of(&ranked, &capable_target);
        let mut targets: Vec<ModelId> = Vec::new();
        let inner;
        if ranked.len() == 0 {
            targets.push(efficient_target.clone());
            targets.push(capable_target.clone());
            proof {
                assert(names_of(targets@) =~= seq![efficient_target@, capable_target@]);
                assert(names_of(targets@)[1] == default_target@);
            }
            inner =
            InnerClassifier::Task(
                TaskClassifier {
                    judge_target,
                    input,
                    contract,
                    max_output_tokens: config.max_output_tokens,
                    policy,
                    efficient_target,
                    capable_target,
                },
            );
        } else {
            let mut i: usize = 0;
            while i < ranked.len()
                invariant
                    i <= ranked@.len(),
                    targets@.len() == i,
                    forall|j: int| 0 <= j < i ==> (#[trigger] targets@[j])@ == ranked@[j].target@,
                decreases ranked.len() - i,
            {
                targets.push(ranked[i].target.clone());
                i = i + 1;
            }
            proof {
                assert(names_of(targets@) =~= rung_names(ladder));
                lemma_ladder_is_valid(rungs);
                law_strongest_rung_is_most_capable(ladder);
                assert(names_of(targets@)[strongest(ladder)] == default_target@);
            }
            inner =
            InnerClassifier::CostAware(
                CostAwareClassifier {
                    judge_target,
                    input,
                    contract,
                    max_output_tokens: config.max_output_tokens,
                    policy,
                    ranked,
                    capable_target: default_target.clone(),
                    zones,
                    bandit,
                },
            );
        }
        Self::from_classifier(
            targets,
            inner,
            ClassifierRouteConfig {
                default_target,
                session_affinity: config.session_affinity,
                message_hash_fallback: config.message_hash_fallback,
            },
        )
    }

    /// Builds a route among labelled targets.
    #[verifier::rlimit(30)]
    pub fn build_custom(
        judge_target: ModelId,
        targets: Vec<(String, ModelId)>,
        default_target: String,
        config: CustomClassifierConfig,
        contracts: CompiledContracts,
    ) -> (r: Result<Self, AlgorithmError>)
        ensures
            match r {
                Ok(router) => custom_fault(targets@, default_target, config) is None
                    && router.is_custom_route(
                    judge_target,
                    targets@,
                    default_target@,
                    config,
                    contracts,
                ),
                Err(error) => match custom_fault(targets@, default_target, config) {
                    Some(fault) => error == fault,
                    None => match contracts.classifier {
                        Err(message) => error == (AlgorithmError::Contract { message }),
                        Ok(_) => match config.policy {
                            CustomClassifierPolicy::TargetSelector { selector } => selector_fault(
                                selector@,
                                error,
                            ),
                        },
                    },
                },
            },
    {
        match config.validate() {
            Ok(_) => {},
            Err(error) => {
                return Err(error);
            },
        }
        if targets.len() < 2 {
            return Err(AlgorithmError::TooFewTargets);
        }
        let table = match tabulate(&targets) {
            Ok(table) => table,
            Err(error) => {
                return Err(error);
            },
        };
        let default_name = match table.get(default_target.as_str()) {
            Some(target) => target.clone(),
            None => {
                return Err(AlgorithmError::UnknownDefault { label: default_target });
            },
        };
        let contract = match contracts.classifier {
            Ok(contract) => contract,
            Err(message) => {
                return Err(AlgorithmError::Contract { message });
            },
        };
        let policy = match config.policy {
            CustomClassifierPolicy::TargetSelector { selector } => match TargetSelectorPolicy::new(
                selector,
                table,
            ) {
                Ok(policy) => policy,
                Err(error) => {
                    return Err(error);
                },
            },
        };
        let mut names: Vec<ModelId> = Vec::new();
        let mut i: usize = 0;
        while i < targets.len()
            invariant
                i <= targets@.len(),
                names@.len() == i,
                forall|j: int| 0 <= j < i ==> (#[trigger] names@[j])@ == targets@[j].1@,
            decreases targets.len() - i,
        {
            names.push(targets[i].1.clone());
            i = i + 1;
        }
        proof {
            assert(names_of(names@) =~= targets@.map_values(|entry: (String, ModelId)| entry.1@));
            let j = choose|j: int|
                0 <= j < targets@.len() && (#[trigger] targets@[j]).0@ == default_target@;
            assert(names_of(names@)[j] == default_name@);
        }
        let inner = InnerClassifier::Custom(
            CustomClassifier {
                judge_target,
                input: TaskInput { recent_turn_window: config.recent_turn_window },
                contract,
                max_output_tokens: config.max_output_tokens,
                policy,
            },
        );
        Self::from_classifier(
            names,
            inner,
            ClassifierRouteConfig {
                default_target: default_name,
                session_affinity: config.session_affinity,
                message_hash_fallback: config.message_hash_fallback,
            },
        )
    }

    /// Builds an escalation route.
    ///
    /// A judge that is granted no completion tokens is rejected.
    pub fn build_escalation(
        judge_target: ModelId,
        efficient_target: ModelId,
        capable_target: ModelId,
        config: EscalationJudgeConfig,
        max_output_tokens: u64,
        contracts: CompiledContracts,
    ) -> (r: Result<Self, AlgorithmError>)
        ensures
            match r {
                Ok(router) => escalation_fault(max_output_tokens, contracts) is None
                    && router.is_escalation_route(
                    judge_target,
                    efficient_target,
                    capable_target,
                    config.confirmations,
                    max_output_tokens,
                    contracts,
                ),
                Err(error) => escalation_fault(max_output_tokens, contracts) == Some(error),
            },
    {
        if max_output_tokens == 0 {
            return Err(AlgorithmError::MaxOutputTokens);
        }
        let contract = match contracts.classifier {
            Ok(contract) => contract,
            Err(message) => {
                return Err(AlgorithmError::Contract { message });
            },
        };
        let mut targets: Vec<ModelId> = Vec::new();
        targets.push(capable_target.clone());
        targets.push(efficient_target.clone());
        assert(names_of(targets@) =~= seq![capable_target@, efficient_target@]);
        Ok(
            LlmTaskClassifier {
                targets,
                affinity: Affinity::Off,
                inner: InnerClassifier::Escalation(
                    EscalationClassifier {
                        judge_target,
                        contract,
                        max_output_tokens,
                        capable: capable_target,
                        efficient: efficient_target,
                        confirmations: config.confirmations,
                    },
                ),
                default_target: None,
            },
        )
    }

    /// Builds the classifier mode described by `config`.
    pub fn new(config: LlmClassifierConfig, contracts: CompiledContracts) -> (r: Result<
        Self,
        AlgorithmError,
    >)
        ensures
            match config {
                LlmClassifierConfig::Capability {
                    judge_target,
                    efficient_target,
                    capable_target,
                    capability_targets,
                    capability_zones,
                    bandit,
                    config,
                } => match r {
                    Ok(router) => capability_fault(
                        capability_targets@,
                        capability_zones,
                        bandit,
                        config,
                        contracts,
                    ) is None && router.is_capability_route(
                        judge_target,
                        efficient_target,
                        capable_target,
                        capability_targets@,
                        capability_zones,
                        bandit,
                        config,
                        contracts,
                    ),
                    Err(error) => capability_fault(
                        capability_targets@,
                        capability_zones,
                        bandit,
                        config,
                        contracts,
                    ) == Some(error),
                },
                LlmClassifierConfig::Escalation {
                    judge_target,
                    efficient_target,
                    capable_target,
                    config,
                    max_output_tokens,
                    ..
                } => match r {
                    Ok(router) => escalation_fault(max_output_tokens, contracts) is None
                        && router.is_escalation_route(
                        judge_target,
                        efficient_target,
                        capable_target,
                        config.confirmations,
                        max_output_tokens,
                        contracts,
                    ),
                    Err(error) => escalation_fault(max_output_tokens, contracts) == Some(error),
                },
                LlmClassifierConfig::Custom { judge_target, targets, default_target, config } =>
                match r {
                    Ok(router) => custom_fault(targets@, default_target, config) is None
                        && router.is_custom_route(
                        judge_target,
                        targets@,
                        default_target@,
                        config,
                        contracts,
                    ),
                    Err(error) => match custom_fault(targets@, default_target, config) {
                        Some(fault) => error == fault,
                        None => match contracts.classifier {
                            Err(message) => error == (AlgorithmError::Contract { message }),
                            Ok(_) => match config.policy {
                                CustomClassifierPolicy::TargetSelector { selector } =>
                                selector_fault(selector@, error),
                            },
                        },
                    },
                },
            },
    {
        match config {
            LlmClassifierConfig::Capability {
                judge_target,
                efficient_target,
                capable_target,
                capability_targets,
                capability_zones,
                bandit,
                config,
            } => Self::build_capability(
                judge_target,
                efficient_target,
                capable_target,
                capability_targets,
                capability_zones,
                bandit,
                config,
                contracts,
            ),
            LlmClassifierConfig::Escalation {
                judge_target,
                efficient_target,
                capable_target,
                contract: _,
                config,
                max_output_tokens,
            } => Self::build_escalation(
                judge_target,
                efficient_target,
                capable_target,
                config,
                max_output_tokens,
                contracts,
            ),
            LlmClassifierConfig::Custom { judge_target, targets, default_target, config } =>
            Self::build_custom(judge_target, targets, default_target, config, contracts),
        }
    }

    /// The tier of a selected target: only binary and escalation routes have tiers.
    pub fn routing_tier(&self, selected: &ModelId) -> (tier: Option<&'static str>)
        ensures
            label_option(tier) == match self.inner {
                InnerClassifier::Task(task) => tier_of(
                    selected@,
                    task.efficient_target@,
                    task.capable_target@,
                ),
                InnerClassifier::Escalation(escalation) => tier_of(
                    selected@,
                    escalation.efficient@,
                    escalation.capable@,
                ),
                _ => None,
            },
    {
        match &self.inner {
            InnerClassifier::Task(task) => routing_tier(
                selected,
                &task.efficient_target,
                &task.capable_target,
            ),
            InnerClassifier::Escalation(escalation) => escalation.routing_tier(selected),
            _ => None,
        }
    }

    /// The target that a request falls through to: the session's earlier assignment where it is
    /// reused, then the target that the classifier decided on, then the default target.
    pub open spec fn destination(
        self,
        retained: Option<Seq<char>>,
        decision: Option<Ruling>,
    ) -> Option<Seq<char>> {
        let reused = if self.affinity == Affinity::Off {
            None
        } else {
            retained
        };
        let decided = match decision {
            Some(ruling) => chosen(ruling),
            None => None,
        };
        if reused is Some {
            reused
        } else if decided is Some {
            decided
        } else {
            name_option(self.default_target)
        }
    }

    /// The session's earlier assignment, if this route reuses it; the classifier is asked only
    /// where there is none.
    pub fn reused(&self, retained: Option<ModelId>) -> (target: Option<ModelId>)
        ensures
            target == if self.affinity == Affinity::Off {
                None
            } else {
                retained
            },
    {
        match self.affinity {
            Affinity::Off => None,
            _ => retained,
        }
    }

    /// The target that serves a request, given the session's earlier assignment and what the
    /// classifier decided, if it was asked.
    pub fn next_target(
        &self,
        retained: Option<ModelId>,
        decision: Option<&Classification>,
    ) -> (target: Option<ModelId>)
        ensures
            name_option(target) == self.destination(
                name_option(retained),
                match decision {
                    Some(decision) => Some(decision@),
                    None => None,
                },
            ),
    {
        if let Some(target) = self.reused(retained) {
            return Some(target);
        }
        let decided: Option<&ModelId> = match decision {
            Some(decision) => decision.choice(),
            None => None,
        };
        match (decided, &self.default_target) {
            (Some(target), _) => Some(target.clone()),
            (None, Some(target)) => Some(target.clone()),
            (None, None) => None,
        }
    }

    /// What is done about a request, given the session's earlier assignment, what the classifier
    /// decided and the answer it has bought: a bought answer is served if the classifier decided
    /// on a target and no earlier assignment is reused, else the request's destination is called.
    pub fn next_step<A>(
        &self,
        retained: Option<ModelId>,
        decision: Option<&Classification>,
        bought: Option<A>,
    ) -> (step: RouteStep<A>)
        ensures
            ({
                let reuses = self.affinity != Affinity::Off && retained is Some;
                let ruling = match decision {
                    Some(decision) => Some(decision@),
                    None => None,
                };
                let decided = ruling is Some && chosen(ruling->0) is Some;
                match step {
                    RouteStep::Serve { target, answer } => !reuses && decided && chosen(ruling->0)
                        == Some(target@) && bought == Some(answer),
                    RouteStep::Call { target } => (reuses || !decided || bought is None)
                        && self.destination(name_option(retained), ruling) == Some(target@),
                    RouteStep::Undecided => self.destination(name_option(retained), ruling) is None,
                }
            }),
    {
        let decided: Option<&ModelId> = match decision {
            Some(decision) => decision.choice(),
            None => None,
        };
        let reused = self.reused(retained);
        if reused.is_none() {
            if let (Some(target), Some(answer)) = (decided, bought) {
                return RouteStep::Serve { target: target.clone(), answer };
            }
        }
        match self.next_target(reused, decision) {
            Some(target) => RouteStep::Call { target },
            None => RouteStep::Undecided,
        }
    }

    /// The algorithm's name in spans, metrics and logs.
    pub fn name(&self) -> (name: &'static str)
        ensures
            name@ == "llm_task_classifier"@,
    {
        "llm_task_classifier"
    }
}

/// Rejects a ladder of one rung, or with a capability that is not between 0 and 1.
fn check_ladder(rungs: &Vec<CapabilityTarget>) -> (r: Result<(), AlgorithmError>)
    ensures
        match r {
            Ok(_) => ladder_fault(rungs@) is None,
            Err(error) => ladder_fault(rungs@) == Some(error),
        },
{
    if rungs.len() == 0 {
        return Ok(());
    }
    if rungs.len() < 2 {
        return Err(AlgorithmError::LadderTooShort);
    }
    let mut i: usize = 0;
    assert(rungs@.skip(0) =~= rungs@);
    while i < rungs.len()
        invariant
            i <= rungs@.len(),
            2 <= rungs@.len(),
            rung_fault(rungs@) == rung_fault(rungs@.skip(i as int)),
        decreases rungs.len() - i,
    {
        assert(rungs@.skip(i as int)[0] == rungs@[i as int]);
        if !rungs[i].is_valid() {
            return Err(
                AlgorithmError::RungCapability {
                    target: rungs[i].target.clone(),
                    got: rungs[i].capability,
                },
            );
        }
        assert(rungs@.skip(i as int).skip(1) =~= rungs@.skip(i + 1));
        i = i + 1;
    }
    Ok(())
}

/// A copy of a ladder.
fn copy_ladder(ladder: &Vec<CapabilityTarget>) -> (copy: Vec<CapabilityTarget>)
    ensures
        copy@ == ladder@,
{
    let mut copy: Vec<CapabilityTarget> = Vec::new();
    let mut i: usize = 0;
    while i < ladder.len()
        invariant
            i <= ladder@.len(),
            copy@ == ladder@.take(i as int),
        decreases ladder.len() - i,
    {
        copy.push(ladder[i].clone());
        assert(copy@ =~= ladder@.take(i + 1));
        i = i + 1;
    }
    assert(copy@ =~= ladder@);
    copy
}

proof fn lemma_valid_rungs(rungs: Seq<CapabilityTarget>, i: int)
    requires
        rung_fault(rungs) is None,
        0 <= i < rungs.len(),
    ensures
        is_fraction(rungs[i].capability),
    decreases rungs.len(),
{
    if i > 0 {
        lemma_valid_rungs(rungs.skip(1), i - 1);
    }
}

/// Ordering a ladder of valid rungs gives valid rungs.
proof fn lemma_ladder_is_valid(rungs: Seq<CapabilityTarget>)
    requires
        rung_fault(rungs) is None,
    ensures
        forall|i: int|
            0 <= i < cheapest_first(rungs).len() ==> is_fraction(
                (#[trigger] cheapest_first(rungs)[i]).capability,
            ),
{
    let ladder = cheapest_first(rungs);
    law_ladder_keeps_its_rungs(rungs);
    assert forall|i: int| 0 <= i < ladder.len() implies is_fraction(
        (#[trigger] ladder[i]).capability,
    ) by {
        vstd::seq_lib::to_multiset_contains(ladder, ladder[i]);
        vstd::seq_lib::to_multiset_contains(rungs, ladder[i]);
        assert(rungs.contains(ladder[i]));
        let k = choose|k: int| 0 <= k < rungs.len() && rungs[k] == ladder[i];
        lemma_valid_rungs(rungs, k);
    }
}

// ── Laws ────────────────────────────────────────────────────────────────────

/// Whether a decision abstains or names one of the targets.
pub open spec fn routed(ruling: Ruling, targets: Seq<Seq<char>>) -> bool {
    match ruling {
        Ruling::Scores(scores) => forall|i: int|
            0 <= i < scores.len() ==> targets.contains((#[trigger] scores[i]).0),
        Ruling::Ambiguous(_) => true,
    }
}

/// A capability route falls back to one of its targets, and whatever its judge says, every
/// decision and every fanned-out call is for one of its targets.
#[verifier::rlimit(30)]
pub proof fn law_capability_decisions_are_routed(
    router: LlmTaskClassifier,
    judge: ModelId,
    efficient: ModelId,
    capable: ModelId,
    rungs: Seq<CapabilityTarget>,
    zones: Option<ZoneConfig>,
    bandit: Option<BanditConfig>,
    config: TaskClassifierConfig,
    contracts: CompiledContracts,
    verdict: TaskClassifierVerdict,
    needed: u64,
    p_solve: Binary64,
)
    requires
        capability_fault(rungs, zones, bandit, config, contracts) is None,
        router.is_capability_route(
            judge,
            efficient,
            capable,
            rungs,
            zones,
            bandit,
            config,
            contracts,
        ),
    ensures
        router.default_target matches Some(target) && names_of(router.targets@).contains(target@),
        router.inner matches InnerClassifier::Task(task) ==> routed(
            task.policy.ruling(verdict, None),
            names_of(router.targets@),
        ),
        router.inner matches InnerClassifier::CostAware(aware) ==> {
            &&& routed(aware.policy.ruling(verdict, Some(needed)), names_of(router.targets@))
            &&& aware.zones matches Some(runtime) ==> match aware.zone_step(
                verdict,
                needed,
                p_solve,
                runtime,
            ) {
                Step::Decided(ruling) => routed(ruling, names_of(router.targets@)),
                Step::FanOut { candidates } => forall|i: int|
                    0 <= i < candidates.len() ==> names_of(router.targets@).contains(
                        #[trigger] candidates[i],
                    ),
                Step::Sample { .. } => false,
            }
        },
{
    let ladder = cheapest_first(rungs);
    let names = names_of(router.targets@);
    law_ladder_keeps_its_rungs(rungs);
    if rungs.len() == 0 {
        assert(names[0] == efficient@ && names[1] == capable@);
    } else {
        lemma_ladder_is_valid(rungs);
        law_strongest_rung_is_most_capable(ladder);
        assert(names[strongest(ladder)] == ladder[strongest(ladder)].target@);
        assert forall|i: int| 0 <= i < ladder.len() implies names.contains(
            (#[trigger] ladder[i]).target@,
        ) by {
            assert(names[i] == ladder[i].target@);
        }
        let aware = router.inner->CostAware_0;
        match verdict.minimum_capability {
            Some(required) => {
                lemma_first_adequate(ladder, required, Some(needed));
            },
            None => {},
        }
        match aware.zones {
            Some(runtime) => {
                lemma_fanned_on_ladder(
                    ladder,
                    verdict.minimum_capability,
                    Some(needed),
                    runtime.fan_out as nat,
                );
            },
            None => {},
        }
    }
}

/// Rungs of distinct prices are ordered by cost, never by declaration order: routes that differ
/// only in the order of their rungs ask the judge the same, take the same step on every verdict
/// and every sample, and fall back to the same target.
#[verifier::rlimit(30)]
pub proof fn law_routes_ignore_declaration_order(
    router: LlmTaskClassifier,
    other: LlmTaskClassifier,
    judge: ModelId,
    efficient: ModelId,
    capable: ModelId,
    rungs: Seq<CapabilityTarget>,
    shuffled: Seq<CapabilityTarget>,
    zones: Option<ZoneConfig>,
    bandit: Option<BanditConfig>,
    config: TaskClassifierConfig,
    contracts: CompiledContracts,
    verdict: Option<TaskClassifierVerdict>,
    turns: Seq<Turn>,
    p_solve: Binary64,
)
    requires
        rungs.len() > 0,
        distinctly_priced(rungs),
        shuffled.to_multiset() == rungs.to_multiset(),
        router.is_capability_route(
            judge,
            efficient,
            capable,
            rungs,
            zones,
            bandit,
            config,
            contracts,
        ),
        other.is_capability_route(
            judge,
            efficient,
            capable,
            shuffled,
            zones,
            bandit,
            config,
            contracts,
        ),
    ensures
        names_of(router.targets@) == names_of(other.targets@),
        name_option(router.default_target) == name_option(other.default_target),
        router.affinity == other.affinity,
        router.inner is CostAware,
        other.inner is CostAware,
        ({
            let aware = router.inner->CostAware_0;
            let twin = other.inner->CostAware_0;
            &&& aware.judge_target == twin.judge_target
            &&& aware.input == twin.input
            &&& aware.contract == twin.contract
            &&& aware.max_output_tokens == twin.max_output_tokens
            &&& aware.zones == twin.zones
            &&& aware.bandit == twin.bandit
            &&& aware.verdict_step(verdict, turns) == twin.verdict_step(verdict, turns)
            &&& verdict is Some && aware.zones is Some ==> aware.zone_step(
                verdict->0,
                needed_for(turns),
                p_solve,
                aware.zones->0,
            ) == twin.zone_step(verdict->0, needed_for(turns), p_solve, aware.zones->0)
        }),
{
    law_ladder_ignores_declaration_order(rungs, shuffled);
    rungs.to_multiset_ensures();
    shuffled.to_multiset_ensures();
}

/// A custom route falls back to one of its targets, and every label it can decide on names one.
pub proof fn law_custom_decisions_are_routed(
    router: LlmTaskClassifier,
    judge: ModelId,
    targets: Seq<(String, ModelId)>,
    default_target: String,
    config: CustomClassifierConfig,
    contracts: CompiledContracts,
    verdict: Option<Json>,
)
    requires
        custom_fault(targets, default_target, config) is None,
        router.is_custom_route(judge, targets, default_target@, config, contracts),
    ensures
        router.default_target matches Some(target) && names_of(router.targets@).contains(target@),
        router.inner matches InnerClassifier::Custom(custom) && routed(
            custom.policy.ruling(verdict),
            names_of(router.targets@),
        ),
{
    let names = names_of(router.targets@);
    let custom = router.inner->Custom_0;
    let table = custom.policy.targets@;
    assert forall|label: Seq<char>| #[trigger] table.contains_key(label) implies names.contains(
        table[label]@,
    ) by {
        let i = choose|i: int| 0 <= i < targets.len() && (#[trigger] targets[i]).0@ == label;
        assert(table[targets[i].0@] == targets[i].1);
        assert(names[i] == targets[i].1@);
    }
    assert(table.contains_key(default_target@));
}

/// A retained assignment is final where it is reused; otherwise a decision for one of the route's
/// targets, or a default among them, sends the request to one of them, and with a default target
/// every request goes somewhere.
pub proof fn law_requests_fall_through_in_order(
    router: LlmTaskClassifier,
    retained: Option<Seq<char>>,
    ruling: Ruling,
)
    requires
        routed(ruling, names_of(router.targets@)),
        router.default_target matches Some(target) ==> names_of(router.targets@).contains(target@),
    ensures
        router.affinity != Affinity::Off && retained is Some ==> router.destination(
            retained,
            Some(ruling),
        ) == retained,
        router.affinity == Affinity::Off ==> router.destination(retained, Some(ruling))
            == router.destination(None, Some(ruling)),
        router.destination(None, Some(ruling)) matches Some(target) ==> names_of(
            router.targets@,
        ).contains(target),
        router.default_target is Some ==> router.destination(retained, Some(ruling)) is Some,
{
    match ruling {
        Ruling::Scores(scores) => {
            lemma_best_score(scores);
            if best_score(scores) >= 0 {
                assert(names_of(router.targets@).contains(scores[best_score(scores)].0));
            }
        },
        Ruling::Ambiguous(_) => {},
    }
}

/// An escalation route decides only between its two targets.
pub proof fn law_escalation_decisions_are_routed(
    router: LlmTaskClassifier,
    judge: ModelId,
    efficient: ModelId,
    capable: ModelId,
    confirmations: u32,
    max_output_tokens: u64,
    contracts: CompiledContracts,
)
    requires
        router.is_escalation_route(
            judge,
            efficient,
            capable,
            confirmations,
            max_output_tokens,
            contracts,
        ),
    ensures
        routed(decides(capable@), names_of(router.targets@)),
        routed(decides(efficient@), names_of(router.targets@)),
{
    assert(names_of(router.targets@)[0] == capable@);
    assert(names_of(router.targets@)[1] == efficient@);
}

/// Affinity is off, by session, or by session or first message, as the two settings say.
pub proof fn law_affinity_follows_its_settings(message_hash_fallback: bool)
    ensures
        affinity_of(false, message_hash_fallback) == Affinity::Off,
        affinity_of(true, false) == Affinity::Session,
        affinity_of(true, true) == Affinity::SessionOrFirstMessage,
{
}

/// The destination is the first that there is of: the reused assignment, the decided target, the
/// default target.
pub proof fn law_destinations_come_in_order(
    router: LlmTaskClassifier,
    retained: Seq<char>,
    ruling: Ruling,
)
    ensures
        router.affinity != Affinity::Off ==> router.destination(Some(retained), Some(ruling))
            == Some(retained) && router.destination(Some(retained), None) == Some(retained),
        router.affinity == Affinity::Off ==> router.destination(Some(retained), Some(ruling))
            == router.destination(None, Some(ruling)),
        chosen(ruling) is Some ==> router.destination(None, Some(ruling)) == chosen(ruling),
        chosen(ruling) is None ==> router.destination(None, Some(ruling)) == match router.default_target {
            Some(target) => Some(target@),
            None => None,
        },
        router.destination(None, None) == match router.default_target {
            Some(target) => Some(target@),
            None => None,
        },
{
}

proof fn lemma_rung_fault(rungs: Seq<CapabilityTarget>)
    ensures
        rung_fault(rungs) is None <==> forall|i: int|
            0 <= i < rungs.len() ==> is_fraction((#[trigger] rungs[i]).capability),
        rung_fault(rungs) matches Some(error) ==> exists|at: int|
            {
                &&& 0 <= at < rungs.len()
                &&& !is_fraction((#[trigger] rungs[at]).capability)
                &&& forall|i: int| 0 <= i < at ==> is_fraction((#[trigger] rungs[i]).capability)
                &&& error == (AlgorithmError::RungCapability {
                    target: rungs[at].target,
                    got: rungs[at].capability,
                })
            },
    decreases rungs.len(),
{
    if rungs.len() > 0 && is_fraction(rungs[0].capability) {
        let rest = rungs.skip(1);
        lemma_rung_fault(rest);
        assert(forall|i: int| 0 <= i < rest.len() ==> #[trigger] rest[i] == rungs[i + 1]);
        if rung_fault(rungs) is None {
            assert forall|i: int| 0 <= i < rungs.len() implies is_fraction(
                (#[trigger] rungs[i]).capability,
            ) by {
                if i > 0 {
                    assert(rest[i - 1] == rungs[i]);
                }
            }
        } else {
            let error = rung_fault(rungs)->0;
            let at = choose|at: int|
                {
                    &&& 0 <= at < rest.len()
                    &&& !is_fraction((#[trigger] rest[at]).capability)
                    &&& forall|i: int| 0 <= i < at ==> is_fraction((#[trigger] rest[i]).capability)
                    &&& error == (AlgorithmError::RungCapability {
                        target: rest[at].target,
                        got: rest[at].capability,
                    })
                };
            assert(rungs[at + 1] == rest[at]);
            assert forall|i: int| 0 <= i < at + 1 implies is_fraction(
                (#[trigger] rungs[i]).capability,
            ) by {
                if i > 0 {
                    assert(rest[i - 1] == rungs[i]);
                }
            }
        }
    }
}

/// A capability route is built exactly if its settings and its zones are accepted, zones come with
/// rungs and a bandit with zones, there is no lone rung, every rung's capability is a fraction,
/// and the contracts that are needed compiled.
pub proof fn law_accepted_capability_routes(
    rungs: Seq<CapabilityTarget>,
    zones: Option<ZoneConfig>,
    bandit: Option<BanditConfig>,
    config: TaskClassifierConfig,
    contracts: CompiledContracts,
)
    ensures
        capability_fault(rungs, zones, bandit, config, contracts) is None <==> {
            &&& config.fault() is None
            &&& zones is Some ==> rungs.len() > 0
            &&& bandit is Some ==> zones is Some
            &&& rungs.len() != 1
            &&& forall|i: int|
                0 <= i < rungs.len() ==> is_fraction((#[trigger] rungs[i]).capability)
            &&& zones is Some ==> zones->0.fault() is None && contracts.output_judge is Ok
            &&& contracts.classifier is Ok
        },
        config.fault() is Some ==> capability_fault(rungs, zones, bandit, config, contracts)
            == config.fault(),
        config.fault() is None && zones is Some && rungs.len() == 0 ==> capability_fault(
            rungs,
            zones,
            bandit,
            config,
            contracts,
        ) == Some(AlgorithmError::ZonesWithoutLadder),
        config.fault() is None && zones is None && bandit is Some ==> capability_fault(
            rungs,
            zones,
            bandit,
            config,
            contracts,
        ) == Some(AlgorithmError::BanditWithoutZones),
        config.fault() is None && bandit is None && rungs.len() == 1 ==> capability_fault(
            rungs,
            zones,
            bandit,
            config,
            contracts,
        ) == Some(AlgorithmError::LadderTooShort),
{
    lemma_rung_fault(rungs);
}

/// An escalation route is built exactly if its judge has tokens and a contract.
pub proof fn law_accepted_escalation_routes(max_output_tokens: u64, contracts: CompiledContracts)
    ensures
        escalation_fault(max_output_tokens, contracts) is None <==> max_output_tokens > 0
            && contracts.classifier is Ok,
        max_output_tokens == 0 ==> escalation_fault(max_output_tokens, contracts) == Some(
            AlgorithmError::MaxOutputTokens,
        ),
        max_output_tokens > 0 && contracts.classifier is Err ==> escalation_fault(
            max_output_tokens,
            contracts,
        ) == Some(AlgorithmError::Contract { message: contracts.classifier->Err_0 }),
{
}

/// The parts of a custom route are accepted exactly if its settings are, it has at least two
/// targets, those are accepted, and its default is the label of one of them.
pub proof fn law_accepted_custom_routes(
    targets: Seq<(String, ModelId)>,
    default_target: String,
    config: CustomClassifierConfig,
)
    ensures
        custom_fault(targets, default_target, config) is None <==> {
            &&& config.fault() is None
            &&& targets.len() >= 2
            &&& entries_fault(targets, 0) is None
            &&& exists|i: int|
                0 <= i < targets.len() && (#[trigger] targets[i]).0@ == default_target@
        },
        config.fault() is None && targets.len() < 2 ==> custom_fault(
            targets,
            default_target,
            config,
        ) == Some(AlgorithmError::TooFewTargets),
{
}

/// A capability route without rungs goes between its two targets, efficient first, and falls back
/// to the capable one; its judge sees what the settings say and decides by their thresholds.
pub proof fn law_parts_of_a_binary_route(
    router: LlmTaskClassifier,
    judge: ModelId,
    efficient: ModelId,
    capable: ModelId,
    zones: Option<ZoneConfig>,
    bandit: Option<BanditConfig>,
    config: TaskClassifierConfig,
    contracts: CompiledContracts,
)
    requires
        router.is_capability_route(
            judge,
            efficient,
            capable,
            Seq::empty(),
            zones,
            bandit,
            config,
            contracts,
        ),
    ensures
        names_of(router.targets@) == seq![efficient@, capable@],
        router.default_target is Some && router.default_target->0@ == capable@,
        router.inner is Task,
        ({
            let task = router.inner->Task_0;
            &&& task.judge_target == judge
            &&& task.input.recent_turn_window == config.recent_turn_window
            &&& contracts.classifier is Ok && task.contract == contracts.classifier->Ok_0
            &&& task.max_output_tokens == config.max_output_tokens
            &&& task.efficient_target == efficient && task.capable_target == capable
            &&& task.policy.efficient_target == efficient && task.policy.capable_target == capable
            &&& task.policy.base_threshold == config.base_threshold
            &&& task.policy.threshold_step == config.threshold_step
            &&& task.policy.ranked@.len() == 0
        }),
{
}

/// A capability route over rungs goes to the targets of its ladder, cheapest first, and falls back
/// to that of a most capable rung; its zones, its bandit and its judge are those of the settings.
pub proof fn law_parts_of_a_ladder_route(
    router: LlmTaskClassifier,
    judge: ModelId,
    efficient: ModelId,
    capable: ModelId,
    rungs: Seq<CapabilityTarget>,
    zones: Option<ZoneConfig>,
    bandit: Option<BanditConfig>,
    config: TaskClassifierConfig,
    contracts: CompiledContracts,
    i: int,
)
    requires
        capability_fault(rungs, zones, bandit, config, contracts) is None,
        router.is_capability_route(
            judge,
            efficient,
            capable,
            rungs,
            zones,
            bandit,
            config,
            contracts,
        ),
        0 <= i < rungs.len(),
    ensures
        router.inner is CostAware,
        ({
            let aware = router.inner->CostAware_0;
            let ladder = cheapest_first(rungs);
            &&& router.targets@.len() == rungs.len()
            &&& router.targets@[i]@ == ladder[i].target@
            &&& aware.ranked@ == ladder && aware.policy.ranked@ == ladder
            &&& router.default_target is Some && router.default_target->0@ == aware.capable_target@
            &&& exists|at: int|
                {
                    &&& 0 <= at < ladder.len()
                    &&& (#[trigger] ladder[at]).target@ == aware.capable_target@
                    &&& ladder[i].capability.at_most(ladder[at].capability)
                }
            &&& aware.judge_target == judge
            &&& aware.input.recent_turn_window == config.recent_turn_window
            &&& contracts.classifier is Ok && aware.contract == contracts.classifier->Ok_0
            &&& aware.max_output_tokens == config.max_output_tokens
            &&& aware.bandit == bandit
            &&& zones is None <==> aware.zones is None
            &&& zones is Some ==> contracts.output_judge is Ok && aware.zones == Some(
                zones->0.runtime(contracts.output_judge->Ok_0),
            )
            &&& aware.policy.base_threshold == config.base_threshold
            &&& aware.policy.threshold_step == config.threshold_step
        }),
{
    let ladder = cheapest_first(rungs);
    law_ladder_keeps_its_rungs(rungs);
    lemma_ladder_is_valid(rungs);
    law_strongest_rung_is_most_capable(ladder);
    assert(names_of(router.targets@).len() == router.targets@.len());
    assert(rung_names(ladder).len() == ladder.len());
    assert(names_of(router.targets@)[i] == router.targets@[i]@);
    assert(rung_names(ladder)[i] == ladder[i].target@);
    assert(ladder[strongest(ladder)].target@ == router.inner->CostAware_0.capable_target@);
}

/// A custom route goes to the targets in the order of their labels' declaration and falls back to
/// that of the default label; its judge and its selector are those of the settings.
pub proof fn law_parts_of_a_custom_route(
    router: LlmTaskClassifier,
    judge: ModelId,
    targets: Seq<(String, ModelId)>,
    default_target: Seq<char>,
    config: CustomClassifierConfig,
    contracts: CompiledContracts,
    i: int,
)
    requires
        router.is_custom_route(judge, targets, default_target, config, contracts),
        0 <= i < targets.len(),
    ensures
        router.inner is Custom,
        router.targets@.len() == targets.len(),
        router.targets@[i]@ == targets[i].1@,
        targets[i].0@ == default_target ==> router.default_target == Some(targets[i].1),
        ({
            let custom = router.inner->Custom_0;
            &&& custom.judge_target == judge
            &&& custom.input.recent_turn_window == config.recent_turn_window
            &&& contracts.classifier is Ok && custom.contract == contracts.classifier->Ok_0
            &&& custom.max_output_tokens == config.max_output_tokens
            &&& config.policy matches CustomClassifierPolicy::TargetSelector { selector }
                ==> pointer_text(custom.policy.selector) == selector@
            &&& custom.policy.targets@.contains_key(targets[i].0@)
            &&& custom.policy.targets@[targets[i].0@] == targets[i].1
            &&& custom.policy.learned.listing().len() == 0
        }),
{
    let custom = router.inner->Custom_0;
    let names = targets.map_values(|entry: (String, ModelId)| entry.1@);
    assert(names_of(router.targets@).len() == router.targets@.len());
    assert(names.len() == targets.len());
    assert(names[i] == targets[i].1@);
    assert(names_of(router.targets@)[i] == router.targets@[i]@);
    crate::custom::law_tables_give_each_label_its_target(
        custom.policy.targets@,
        targets,
        i,
        default_target,
    );
}

/// An escalation route goes to its capable and its efficient target, has no default and no
/// affinity, and latches after the required confirmations.
pub proof fn law_parts_of_an_escalation_route(
    router: LlmTaskClassifier,
    judge: ModelId,
    efficient: ModelId,
    capable: ModelId,
    confirmations: u32,
    max_output_tokens: u64,
    contracts: CompiledContracts,
)
    requires
        router.is_escalation_route(
            judge,
            efficient,
            capable,
            confirmations,
            max_output_tokens,
            contracts,
        ),
    ensures
        names_of(router.targets@) == seq![capable@, efficient@],
        router.default_target is None,
        router.affinity == Affinity::Off,
        router.inner is Escalation,
        ({
            let escalation = router.inner->Escalation_0;
            &&& escalation.judge_target == judge
            &&& escalation.efficient == efficient
            &&& escalation.capable == capable
            &&& escalation.confirmations == confirmations
            &&& escalation.max_output_tokens == max_output_tokens
            &&& contracts.classifier is Ok && escalation.contract == contracts.classifier->Ok_0
        }),
{
}

/// What is wrong is reported in the order of looking: the settings, how the parts fit, the ladder,
/// the zones and their contract, the judge's contract.
pub proof fn law_capability_faults_come_in_order(
    rungs: Seq<CapabilityTarget>,
    zones: Option<ZoneConfig>,
    bandit: Option<BanditConfig>,
    config: TaskClassifierConfig,
    contracts: CompiledContracts,
    at: int,
)
    requires
        config.fault() is None,
        zones is Some ==> rungs.len() > 0,
        bandit is Some ==> zones is Some,
        rungs.len() != 1,
        0 <= at <= rungs.len(),
        forall|i: int| 0 <= i < at ==> is_fraction((#[trigger] rungs[i]).capability),
        at < rungs.len() ==> !is_fraction(rungs[at].capability),
    ensures
        ({
            let fault = capability_fault(rungs, zones, bandit, config, contracts);
            if at < rungs.len() {
                fault == Some(
                    AlgorithmError::RungCapability {
                        target: rungs[at].target,
                        got: rungs[at].capability,
                    },
                )
            } else if zones is Some && zones->0.fault() is Some {
                fault == zones->0.fault()
            } else if zones is Some && contracts.output_judge is Err {
                fault == Some(AlgorithmError::Contract { message: contracts.output_judge->Err_0 })
            } else if contracts.classifier is Err {
                fault == Some(AlgorithmError::Contract { message: contracts.classifier->Err_0 })
            } else {
                fault is None
            }
        }),
{
    lemma_rung_fault(rungs);
    if at < rungs.len() {
        assert(!is_fraction(rungs[at].capability));
        let error = rung_fault(rungs)->0;
        let first = choose|first: int|
            {
                &&& 0 <= first < rungs.len()
                &&& !is_fraction((#[trigger] rungs[first]).capability)
                &&& forall|i: int| 0 <= i < first ==> is_fraction((#[trigger] rungs[i]).capability)
                &&& error == (AlgorithmError::RungCapability {
                    target: rungs[first].target,
                    got: rungs[first].capability,
                })
            };
        if first < at {
            assert(is_fraction(rungs[first].capability));
        }
        if at < first {
            assert(is_fraction(rungs[at].capability));
        }
    }
}

/// A selector is refused for not being a pointer, with what is wrong with it, or for naming the
/// whole verdict.
pub proof fn law_refused_selectors(selector: Seq<char>, error: AlgorithmError)
    requires
        selector_fault(selector, error),
    ensures
        is_pointer(selector) ==> selector.len() == 0 && error == AlgorithmError::RootSelector,
        !is_pointer(selector) ==> error is InvalidSelector && error->InvalidSelector_message@
            == "policy selector is not a valid JSON Pointer: "@ + pointer_error(selector),
{
}

} // verus!
