//! Classifiers whose verdict schema and target selection are configured by the user.

use vstd::prelude::*;

use crate::classification::Classification;
use crate::error::AlgorithmError;
use crate::json::json_of;
use crate::judge::{judge_ask, judge_request, ClassifierContract, DEFAULT_JUDGE_MAX_OUTPUT_TOKENS};
use crate::messages::TaskInput;
use crate::model::ModelId;
use crate::request::{facts_option, Request};
use crate::selector::TargetSelectorPolicy;
use crate::tables::TextMap;
use crate::text::{blank, is_blank, is_unpadded, unpadded};

verus! {

/// Policy that maps a custom classifier verdict to a routing target.
#[derive(Debug, PartialEq)]
pub enum CustomClassifierPolicy {
    /// Resolves a JSON Pointer and treats its text as a configured target label.
    TargetSelector {
        /// JSON Pointer evaluated against each schema-validated verdict.
        selector: String,
    },
}

impl Clone for CustomClassifierPolicy {
    fn clone(&self) -> (copy: Self)
        ensures
            copy == *self,
    {
        match self {
            CustomClassifierPolicy::TargetSelector { selector } =>
                CustomClassifierPolicy::TargetSelector { selector: selector.clone() },
        }
    }
}

impl CustomClassifierPolicy {
    /// Creates a policy that selects a target label through a JSON Pointer.
    pub fn target_selector(selector: &str) -> (policy: Self)
        ensures
            policy matches CustomClassifierPolicy::TargetSelector { selector: held } && held@
                == selector@,
    {
        CustomClassifierPolicy::TargetSelector { selector: selector.to_owned() }
    }
}

/// Settings for a classifier whose JSON Schema and target-selection policy are user supplied.
#[derive(Debug, PartialEq)]
pub struct CustomClassifierConfig {
    /// System prompt sent to the classifier judge.
    pub prompt: String,
    /// Inner JSON Schema placed inside the provider's structured-output wrapper.
    pub response_schema: serde_json::Value,
    /// Deterministic policy applied after the verdict passes schema validation.
    pub policy: CustomClassifierPolicy,
    /// Enables session affinity before the judge-backed classifier.
    pub session_affinity: bool,
    /// Uses the first user message when session metadata is unavailable.
    pub message_hash_fallback: bool,
    /// Trailing conversation turns shown to the classifier judge.
    pub recent_turn_window: Option<usize>,
    /// Maximum completion tokens available to the classifier verdict.
    pub max_output_tokens: u64,
}

impl CustomClassifierConfig {
    /// Creates a custom-schema classifier contract with conservative runtime defaults.
    pub fn new(prompt: &str, response_schema: serde_json::Value, policy: CustomClassifierPolicy) -> (config:
        Self)
        ensures
            config.prompt@ == prompt@,
            config.response_schema == response_schema,
            config.policy == policy,
            !config.session_affinity,
            !config.message_hash_fallback,
            config.recent_turn_window is None,
            config.max_output_tokens == DEFAULT_JUDGE_MAX_OUTPUT_TOKENS,
    {
        CustomClassifierConfig {
            prompt: prompt.to_owned(),
            response_schema,
            policy,
            session_affinity: false,
            message_hash_fallback: false,
            recent_turn_window: None,
            max_output_tokens: DEFAULT_JUDGE_MAX_OUTPUT_TOKENS,
        }
    }

    /// The first thing wrong with these settings, if any.
    pub open spec fn fault(self) -> Option<AlgorithmError> {
        if self.max_output_tokens == 0 {
            Some(AlgorithmError::MaxOutputTokens)
        } else if self.message_hash_fallback && !self.session_affinity {
            Some(AlgorithmError::MessageHashWithoutAffinity)
        } else {
            None
        }
    }

    /// Checks the completion tokens and the affinity settings.
    pub fn validate(&self) -> (r: Result<(), AlgorithmError>)
        ensures
            match r {
                Ok(_) => self.fault() is None,
                Err(error) => self.fault() == Some(error),
            },
    {
        if self.max_output_tokens == 0 {
            return Err(AlgorithmError::MaxOutputTokens);
        }
        if self.message_hash_fallback && !self.session_affinity {
            return Err(AlgorithmError::MessageHashWithoutAffinity);
        }
        Ok(())
    }
}

// ── Labelled targets ────────────────────────────────────────────────────────

/// Whether one of the first `n` entries has the label.
pub open spec fn labelled(targets: Seq<(String, ModelId)>, n: int, label: Seq<char>) -> bool {
    exists|i: int| 0 <= i < n && (#[trigger] targets[i]).0@ == label
}

/// Whether one of the first `n` entries has the target.
pub open spec fn resolved(targets: Seq<(String, ModelId)>, n: int, target: Seq<char>) -> bool {
    exists|i: int| 0 <= i < n && (#[trigger] targets[i]).1@ == target
}

/// What is wrong with entry `i`, given the entries before it.
pub open spec fn entry_fault(targets: Seq<(String, ModelId)>, i: int) -> Option<AlgorithmError> {
    if blank(targets[i].0@) || !unpadded(targets[i].0@) {
        Some(AlgorithmError::PaddedLabel)
    } else if labelled(targets, i, targets[i].0@) {
        Some(AlgorithmError::DuplicateLabel { label: targets[i].0 })
    } else if resolved(targets, i, targets[i].1@) {
        Some(AlgorithmError::DuplicateTarget { target: targets[i].1 })
    } else {
        None
    }
}

/// The first thing wrong with the entries from `from` on, if any.
pub open spec fn entries_fault(targets: Seq<(String, ModelId)>, from: int) -> Option<AlgorithmError>
    decreases targets.len() - from,
{
    if from < 0 || from >= targets.len() {
        None
    } else {
        match entry_fault(targets, from) {
            Some(error) => Some(error),
            None => entries_fault(targets, from + 1),
        }
    }
}

/// Whether `table` maps each label to its target, and nothing else.
pub open spec fn tabulates(
    table: Map<Seq<char>, ModelId>,
    targets: Seq<(String, ModelId)>,
    n: int,
) -> bool {
    &&& forall|label: Seq<char>| #[trigger]
        table.contains_key(label) == labelled(targets, n, label)
    &&& forall|i: int| 0 <= i < n ==> table[(#[trigger] targets[i]).0@] == targets[i].1
}

/// Tabulates the labelled targets, rejecting blank or padded labels and anything named twice.
pub fn tabulate(targets: &Vec<(String, ModelId)>) -> (r: Result<TextMap<ModelId>, AlgorithmError>)
    ensures
        match r {
            Ok(table) => entries_fault(targets@, 0) is None && tabulates(
                table@,
                targets@,
                targets@.len() as int,
            ),
            Err(error) => entries_fault(targets@, 0) == Some(error),
        },
{
    let mut table: TextMap<ModelId> = TextMap::new();
    let mut i: usize = 0;
    while i < targets.len()
        invariant
            i <= targets@.len(),
            entries_fault(targets@, 0) == entries_fault(targets@, i as int),
            tabulates(table@, targets@, i as int),
        decreases targets.len() - i,
    {
        let label = targets[i].0.as_str();
        if is_blank(label) || !is_unpadded(label) {
            return Err(AlgorithmError::PaddedLabel);
        }
        if table.get(label).is_some() {
            return Err(AlgorithmError::DuplicateLabel { label: targets[i].0.clone() });
        }
        let mut k: usize = 0;
        while k < i
            invariant
                k <= i,
                i < targets@.len(),
                forall|j: int| 0 <= j < k ==> (#[trigger] targets@[j]).1@ != targets@[i as int].1@,
                entries_fault(targets@, 0) == entries_fault(targets@, i as int),
                !blank(targets@[i as int].0@),
                unpadded(targets@[i as int].0@),
                !labelled(targets@, i as int, targets@[i as int].0@),
            decreases i - k,
        {
            if targets[k].1.same(&targets[i].1) {
                assert(targets@[k as int].1@ == targets@[i as int].1@);
                assert(resolved(targets@, i as int, targets@[i as int].1@));
                return Err(AlgorithmError::DuplicateTarget { target: targets[i].1.clone() });
            }
            k = k + 1;
        }
        let ghost before = table@;
        table.insert(targets[i].0.clone(), targets[i].1.clone());
        proof {
            let key = targets@[i as int].0@;
            assert(!resolved(targets@, i as int, targets@[i as int].1@));
            assert forall|label: Seq<char>| #[trigger]
                table@.contains_key(label) == labelled(targets@, i + 1, label) by {
                if label == key {
                    assert(targets@[i as int].0@ == label);
                } else if labelled(targets@, i + 1, label) {
                    let j = choose|j: int| 0 <= j < i + 1 && (#[trigger] targets@[j]).0@ == label;
                    assert(j < i);
                    assert(labelled(targets@, i as int, label));
                } else if before.contains_key(label) {
                    let j = choose|j: int| 0 <= j < i && (#[trigger] targets@[j]).0@ == label;
                    assert(0 <= j < i + 1 && targets@[j].0@ == label);
                }
            }
            assert forall|j: int| 0 <= j < i + 1 implies table@[(#[trigger] targets@[j]).0@]
                == targets@[j].1 by {
                if j < i {
                    assert(labelled(targets@, i as int, targets@[j].0@));
                }
            }
        }
        i = i + 1;
    }
    Ok(table)
}

// ── The classifier ──────────────────────────────────────────────────────────

/// Routes among named targets using a user-supplied schema and policy.
pub struct CustomClassifier {
    /// Target that produces verdicts.
    pub judge_target: ModelId,
    /// Which messages the judge is shown.
    pub input: TaskInput,
    pub contract: ClassifierContract,
    /// Completion tokens available to a verdict.
    pub max_output_tokens: u64,
    pub policy: TargetSelectorPolicy,
}

impl CustomClassifier {
    /// The request for the judge.
    pub fn judge_request(&self, request: &Request) -> (judged: Request)
        ensures
            judged.llm_request@ == judge_ask(
                request.llm_request@.model,
                self.input.shown(request.llm_request@.turns),
                self.contract,
                self.max_output_tokens,
            ),
            judged.raw_request is None,
            facts_option(judged.metadata) == facts_option(request.metadata),
    {
        let messages = self.input.build_messages(&request.llm_request.messages);
        judge_request(request, messages, &self.contract, self.max_output_tokens)
    }

    /// The decision on a schema-validated verdict; none stands for a judge that failed.
    pub fn to_classification(&self, verdict: Option<&serde_json::Value>) -> (decision:
        Classification)
        ensures
            decision@ == self.policy.ruling(
                match verdict {
                    Some(verdict) => Some(json_of(*verdict)),
                    None => None,
                },
            ),
    {
        self.policy.to_classification(verdict)
    }
}

// ── Laws ────────────────────────────────────────────────────────────────────

/// Settings are accepted exactly if the judge has tokens and hashing messages comes with affinity.
pub proof fn law_accepted_settings(config: CustomClassifierConfig)
    ensures
        config.fault() is None <==> config.max_output_tokens > 0 && (config.message_hash_fallback
            ==> config.session_affinity),
        config.max_output_tokens == 0 ==> config.fault() == Some(AlgorithmError::MaxOutputTokens),
        config.max_output_tokens > 0 && config.fault() is Some ==> config.fault() == Some(
            AlgorithmError::MessageHashWithoutAffinity,
        ),
{
}

/// Labelled targets are accepted exactly if every label is unpadded and not blank, and neither a
/// label nor a target is named twice.
pub proof fn law_accepted_targets(targets: Seq<(String, ModelId)>)
    ensures
        entries_fault(targets, 0) is None <==> {
            &&& forall|i: int|
                0 <= i < targets.len() ==> !blank((#[trigger] targets[i]).0@) && unpadded(
                    targets[i].0@,
                )
            &&& forall|i: int, j: int|
                0 <= i < j < targets.len() ==> (#[trigger] targets[i]).0@ != (
                #[trigger] targets[j]).0@ && targets[i].1@ != targets[j].1@
        },
{
    lemma_entries(targets, 0);
    if entries_fault(targets, 0) is None {
        assert forall|i: int| 0 <= i < targets.len() implies !blank((#[trigger] targets[i]).0@)
            && unpadded(targets[i].0@) by {
            assert(entry_fault(targets, i) is None);
        }
        assert forall|i: int, j: int| 0 <= i < j < targets.len() implies (#[trigger] targets[i]).0@
            != (#[trigger] targets[j]).0@ && targets[i].1@ != targets[j].1@ by {
            assert(entry_fault(targets, j) is None);
            assert(!labelled(targets, j, targets[j].0@));
            assert(!resolved(targets, j, targets[j].1@));
        }
    } else {
        let j = choose|j: int| 0 <= j < targets.len() && #[trigger] entry_fault(targets, j) is Some;
        if labelled(targets, j, targets[j].0@) {
            let i = choose|i: int| 0 <= i < j && (#[trigger] targets[i]).0@ == targets[j].0@;
            assert(targets[i].0@ == targets[j].0@);
        } else if resolved(targets, j, targets[j].1@) {
            let i = choose|i: int| 0 <= i < j && (#[trigger] targets[i]).1@ == targets[j].1@;
            assert(targets[i].1@ == targets[j].1@);
        }
        assert(targets[j] == targets[j]);
    }
}

/// The entries from `from` on are fine exactly if each of them is.
proof fn lemma_entries(targets: Seq<(String, ModelId)>, from: int)
    requires
        0 <= from <= targets.len(),
    ensures
        entries_fault(targets, from) is None <==> forall|i: int|
            from <= i < targets.len() ==> #[trigger] entry_fault(targets, i) is None,
    decreases targets.len() - from,
{
    if from < targets.len() {
        lemma_entries(targets, from + 1);
        if entries_fault(targets, from) is None {
            assert forall|i: int| from <= i < targets.len() implies #[trigger] entry_fault(
                targets,
                i,
            ) is None by {
                if i > from {
                    assert(from + 1 <= i);
                }
            }
        }
    }
}

/// A table of labelled targets gives each label its target and knows no other label.
pub proof fn law_tables_give_each_label_its_target(
    table: Map<Seq<char>, ModelId>,
    targets: Seq<(String, ModelId)>,
    i: int,
    label: Seq<char>,
)
    requires
        tabulates(table, targets, targets.len() as int),
        0 <= i < targets.len(),
    ensures
        table.contains_key(targets[i].0@),
        table[targets[i].0@] == targets[i].1,
        (forall|k: int| 0 <= k < targets.len() ==> (#[trigger] targets[k]).0@ != label)
            ==> !table.contains_key(label),
{
    assert(labelled(targets, targets.len() as int, targets[i].0@));
}

/// The reported fault is that of the first faulty entry: a blank or padded label before a repeated
/// label, and that before a repeated target.
pub proof fn law_the_first_faulty_entry_is_reported(targets: Seq<(String, ModelId)>, at: int)
    requires
        0 <= at < targets.len(),
        forall|i: int|
            0 <= i < at ==> !blank((#[trigger] targets[i]).0@) && unpadded(targets[i].0@),
        forall|i: int, j: int|
            0 <= i < j < at ==> (#[trigger] targets[i]).0@ != (#[trigger] targets[j]).0@
                && targets[i].1@ != targets[j].1@,
    ensures
        blank(targets[at].0@) || !unpadded(targets[at].0@) ==> entries_fault(targets, 0) == Some(
            AlgorithmError::PaddedLabel,
        ),
        !blank(targets[at].0@) && unpadded(targets[at].0@) && (exists|i: int|
            0 <= i < at && (#[trigger] targets[i]).0@ == targets[at].0@) ==> entries_fault(
            targets,
            0,
        ) == Some(AlgorithmError::DuplicateLabel { label: targets[at].0 }),
        !blank(targets[at].0@) && unpadded(targets[at].0@) && (forall|i: int|
            0 <= i < at ==> (#[trigger] targets[i]).0@ != targets[at].0@) && (exists|i: int|
            0 <= i < at && (#[trigger] targets[i]).1@ == targets[at].1@) ==> entries_fault(
            targets,
            0,
        ) == Some(AlgorithmError::DuplicateTarget { target: targets[at].1 }),
{
    assert forall|j: int| 0 <= j < at implies #[trigger] entry_fault(targets, j) is None by {
        assert(targets[j] == targets[j]);
        if labelled(targets, j, targets[j].0@) {
            let i = choose|i: int| 0 <= i < j && (#[trigger] targets[i]).0@ == targets[j].0@;
            assert(targets[i].0@ != targets[j].0@);
        }
        if resolved(targets, j, targets[j].1@) {
            let i = choose|i: int| 0 <= i < j && (#[trigger] targets[i]).1@ == targets[j].1@;
            assert(targets[i].0@ != targets[j].0@);
        }
    }
    lemma_first_fault(targets, 0, at);
    if exists|i: int| 0 <= i < at && (#[trigger] targets[i]).0@ == targets[at].0@ {
        assert(labelled(targets, at, targets[at].0@));
    }
    if exists|i: int| 0 <= i < at && (#[trigger] targets[i]).1@ == targets[at].1@ {
        assert(resolved(targets, at, targets[at].1@));
    }
}

proof fn lemma_first_fault(targets: Seq<(String, ModelId)>, from: int, at: int)
    requires
        0 <= from <= at < targets.len(),
        forall|j: int| from <= j < at ==> #[trigger] entry_fault(targets, j) is None,
    ensures
        entries_fault(targets, from) == entries_fault(targets, at),
    decreases at - from,
{
    if from < at {
        assert(entry_fault(targets, from) is None);
        lemma_first_fault(targets, from + 1, at);
    }
}

} // verus!
