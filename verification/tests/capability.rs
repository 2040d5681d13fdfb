//! Verdicts, thresholds and ladders.

use switchyard::binary64::Binary64;
use switchyard::capability::{
    routing_tier, sort_ladder, CapabilityTarget, TargetCost, TaskClassifierConfig,
    TaskClassifierConfigWire, TaskClassifierPolicy, TaskClassifierVerdict,
};
use switchyard::classification::{Classification, Score};
use switchyard::error::AlgorithmError;
use switchyard::judge::{ClassifierResponseFormat, DEFAULT_JUDGE_MAX_OUTPUT_TOKENS};
use switchyard::model::ModelId;

const TEST_THRESHOLD: f64 = 0.5;

fn b(x: f64) -> Binary64 {
    Binary64 { bits: x.to_bits() }
}

fn test_config(base_threshold: f64) -> TaskClassifierConfig {
    TaskClassifierConfig {
        base_threshold: b(base_threshold),
        ..TaskClassifierConfig::default()
    }
}

fn policy_for(config: &TaskClassifierConfig) -> TaskClassifierPolicy {
    TaskClassifierPolicy::new(ModelId::new("efficient"), ModelId::new("capable"), config)
}

fn policy() -> TaskClassifierPolicy {
    policy_for(&test_config(TEST_THRESHOLD))
}

fn verdict(p_solve: f64, capability_boundary: &str, primary_rule: &str) -> TaskClassifierVerdict {
    TaskClassifierVerdict {
        crux: "test crux".to_string(),
        primary_rule: primary_rule.to_string(),
        capability_boundary: capability_boundary.to_string(),
        p_solve: b(p_solve),
        minimum_capability: None,
    }
}

/// Verdict with an explicit `minimum_capability`, for ranked-ladder tests.
fn ranked_verdict(
    p_solve: f64,
    capability_boundary: &str,
    primary_rule: &str,
    minimum_capability: f64,
) -> TaskClassifierVerdict {
    TaskClassifierVerdict {
        minimum_capability: Some(b(minimum_capability)),
        ..verdict(p_solve, capability_boundary, primary_rule)
    }
}

fn selected(policy: &TaskClassifierPolicy, verdict: Option<&TaskClassifierVerdict>) -> String {
    policy
        .to_classification(verdict)
        .choice()
        .expect("policy abstained")
        .as_str()
        .to_string()
}

fn rung(name: &str, capability: f64, price: f64, window: Option<u32>) -> CapabilityTarget {
    CapabilityTarget {
        target: ModelId::new(name),
        capability: b(capability),
        cost: TargetCost {
            input_per_1m: b(price),
            output_per_1m: b(price),
        },
        context_window: window,
    }
}

#[test]
fn the_threshold_boundary_is_inclusive() {
    let policy = policy();
    let at_threshold = verdict(0.5, "supported", "SUP-1");
    let below_threshold = verdict(0.49, "supported", "SUP-1");
    assert_eq!(selected(&policy, Some(&at_threshold)), "efficient");
    assert_eq!(selected(&policy, Some(&below_threshold)), "capable");
}

#[test]
fn the_threshold_moves_the_routing_boundary() {
    let borderline = verdict(0.5, "supported", "SUP-1");
    let strict = policy_for(&test_config(0.9));
    let lenient = policy_for(&test_config(0.1));
    assert_eq!(selected(&strict, Some(&borderline)), "capable");
    assert_eq!(selected(&lenient, Some(&borderline)), "efficient");
}

#[test]
fn an_unusable_verdict_is_ambiguous() {
    let policy = policy();
    let inconsistent_rule = TaskClassifierVerdict {
        capability_boundary: "uncertain".to_string(),
        ..verdict(1.0, "supported", "SUP-1")
    };
    let empty_crux = TaskClassifierVerdict {
        crux: "  ".to_string(),
        ..verdict(1.0, "supported", "SUP-1")
    };
    let unusable = [
        Some(verdict(1.1, "supported", "SUP-1")),
        Some(inconsistent_rule),
        Some(empty_crux),
        None,
    ];
    for verdict in unusable {
        let classification = policy.to_classification(verdict.as_ref());
        assert!(matches!(classification, Classification::Ambiguous(_)));
        assert!(classification.choice().is_none());
    }
}

#[test]
fn capability_boundaries_apply_monotonic_threshold_steps() {
    let policy = policy_for(&TaskClassifierConfig {
        threshold_step: b(0.1),
        ..test_config(0.4)
    });

    assert_eq!(
        selected(&policy, Some(&verdict(0.4, "supported", "SUP-2"))),
        "efficient"
    );
    assert_eq!(
        selected(&policy, Some(&verdict(0.49, "uncertain", "UNC-1"))),
        "capable"
    );
    assert_eq!(
        selected(&policy, Some(&verdict(0.5, "uncertain", "UNC-1"))),
        "efficient"
    );
    assert_eq!(
        selected(&policy, Some(&verdict(0.5, "unmatched", "none"))),
        "efficient"
    );
    assert_eq!(
        selected(&policy, Some(&verdict(0.59, "unsupported", "LIM-1"))),
        "capable"
    );
    assert_eq!(
        selected(&policy, Some(&verdict(0.6, "unsupported", "LIM-1"))),
        "efficient"
    );
}

/// A four-rung ladder in cost order: nano < strong < ultra < opus by price.
fn ranked_policy() -> TaskClassifierPolicy {
    policy().with_ranked_targets(vec![
        rung("nano", 0.2, 0.1, None),
        rung("strong", 0.5, 0.5, None),
        rung("ultra", 0.8, 1.0, None),
        rung("opus", 1.0, 3.0, None),
    ])
}

#[test]
fn ranked_pick_is_the_cheapest_rung_that_clears_the_judged_level() {
    let policy = ranked_policy();
    assert_eq!(
        selected(
            &policy,
            Some(&ranked_verdict(0.9, "supported", "SUP-1", 0.1))
        ),
        "nano"
    );
    assert_eq!(
        selected(
            &policy,
            Some(&ranked_verdict(0.5, "supported", "SUP-1", 0.5))
        ),
        "strong"
    );
    assert_eq!(
        selected(
            &policy,
            Some(&ranked_verdict(0.3, "uncertain", "UNC-1", 0.9))
        ),
        "opus"
    );
}

#[test]
fn ranked_pick_falls_through_to_the_most_capable_rung() {
    let policy = ranked_policy();
    // An unsupported boundary distrusts the cheap tiers regardless of level.
    assert_eq!(
        selected(
            &policy,
            Some(&ranked_verdict(0.9, "unsupported", "LIM-1", 0.1))
        ),
        "opus"
    );
    // A required level above every rung lands on the strongest rung too.
    assert_eq!(
        selected(
            &policy,
            Some(&ranked_verdict(0.9, "supported", "SUP-1", 1.0))
        ),
        "opus"
    );
    // A verdict without a usable level cannot tell the rungs apart.
    assert_eq!(
        selected(&policy, Some(&verdict(0.9, "supported", "SUP-1"))),
        "opus"
    );
}

#[test]
fn the_context_prefilter_skips_rungs_that_cannot_fit_the_request() {
    // Two same-capability rungs: a cheap one with a tiny window and a pricier roomy one.
    let policy = policy().with_ranked_targets(vec![
        rung("tiny", 0.5, 0.1, Some(1_000)),
        rung("roomy", 0.5, 0.5, Some(1_000_000)),
    ]);
    let verdict = ranked_verdict(0.9, "supported", "SUP-1", 0.5);

    // A 5_000-token request overflows the tiny window, so the roomy rung serves it.
    let big = policy.classify(&verdict, Some(5_000));
    assert_eq!(big.choice(), Some(&ModelId::new("roomy")));

    // A small request fits both, so the cheaper one wins.
    let small = policy.classify(&verdict, Some(100));
    assert_eq!(small.choice(), Some(&ModelId::new("tiny")));

    // A request of exactly the window's size fits.
    let exact = policy.classify(&verdict, Some(1_000));
    assert_eq!(exact.choice(), Some(&ModelId::new("tiny")));
}

#[test]
fn an_unknown_context_window_is_never_a_reason_to_skip_a_rung() {
    let policy = policy().with_ranked_targets(vec![rung("unknown", 0.5, 0.1, None)]);
    let verdict = ranked_verdict(0.9, "supported", "SUP-1", 0.5);
    // Even a huge estimated size cannot prefilter a rung with no declared window.
    let pick = policy.classify(&verdict, Some(u64::MAX));
    assert_eq!(pick.choice(), Some(&ModelId::new("unknown")));
}

#[test]
fn ladders_are_sorted_by_price_and_stable() {
    let ladder = sort_ladder(vec![
        rung("opus", 1.0, 3.0, None),
        rung("first", 0.5, 0.4, None),
        rung("cheap", 0.5, 0.1, None),
        rung("second", 0.5, 0.4, None),
    ]);
    let names: Vec<&str> = ladder.iter().map(|rung| rung.target.as_str()).collect();
    assert_eq!(names, vec!["cheap", "first", "second", "opus"]);
    assert_eq!(ladder[0].cost_key(), b(0.2));
}

#[test]
fn the_most_capable_of_equals_is_the_last() {
    let policy = policy().with_ranked_targets(vec![
        rung("a", 0.9, 0.1, None),
        rung("b", 0.9, 0.2, None),
        rung("c", 0.3, 0.3, None),
    ]);
    assert_eq!(policy.most_capable().as_str(), "b");
    assert_eq!(
        policy_for(&test_config(0.5)).most_capable().as_str(),
        "capable"
    );
}

#[test]
fn verdict_rules_belong_to_their_boundaries() {
    for (rule, boundary, steps) in [
        ("SUP-1", "supported", 0),
        ("SUP-5", "supported", 0),
        ("UNC-2", "uncertain", 1),
        ("none", "unmatched", 1),
        ("LIM-2", "unsupported", 2),
    ] {
        let verdict = verdict(0.5, boundary, rule);
        assert!(verdict.is_valid());
        assert_eq!(verdict.boundary_steps(), Some(steps));
    }
    assert!(!verdict(0.5, "supported", "SUP-6").is_valid());
    assert!(!verdict(f64::NAN, "supported", "SUP-1").is_valid());
    assert!(!ranked_verdict(0.5, "supported", "SUP-1", -0.5).is_valid());
    assert!(verdict(-0.0, "supported", "SUP-1").is_valid());
    assert_eq!(verdict(0.5, "elsewhere", "SUP-1").boundary_steps(), None);
}

#[test]
fn each_invalid_setting_has_its_error() {
    let cases = [
        (
            test_config(1.5),
            AlgorithmError::BaseThreshold { got: b(1.5) },
        ),
        (
            TaskClassifierConfig {
                threshold_step: b(-0.1),
                ..test_config(0.5)
            },
            AlgorithmError::ThresholdStep { got: b(-0.1) },
        ),
        (
            TaskClassifierConfig {
                threshold_step: b(f64::INFINITY),
                ..test_config(0.5)
            },
            AlgorithmError::ThresholdStep {
                got: b(f64::INFINITY),
            },
        ),
        (
            TaskClassifierConfig {
                threshold_step: b(0.11),
                ..test_config(0.8)
            },
            AlgorithmError::UnsupportedThreshold {
                got: b(0.8 + 2.0 * 0.11),
            },
        ),
        (
            TaskClassifierConfig {
                max_output_tokens: 0,
                ..test_config(0.5)
            },
            AlgorithmError::MaxOutputTokens,
        ),
        (
            TaskClassifierConfig {
                message_hash_fallback: true,
                ..test_config(0.5)
            },
            AlgorithmError::MessageHashWithoutAffinity,
        ),
    ];
    for (config, error) in cases {
        assert_eq!(config.validate(), Err(error));
    }
    // A sum that exceeds one by a rounding error only is accepted.
    let config = TaskClassifierConfig {
        threshold_step: b(0.1),
        ..test_config(0.8)
    };
    assert_eq!(config.validate(), Ok(()));
}

#[test]
fn absent_settings_take_their_defaults() {
    let wire = TaskClassifierConfigWire {
        base_threshold: b(0.5),
        threshold_step: None,
        session_affinity: None,
        message_hash_fallback: None,
        recent_turn_window: Some(3),
        prompt: Some("Custom capability rubric.".to_string()),
        response_format_type: None,
        max_output_tokens: None,
    };
    let config = TaskClassifierConfig::from_wire(wire);
    assert_eq!(config.threshold_step, b(0.0));
    assert!(!config.session_affinity);
    assert_eq!(config.recent_turn_window, Some(3));
    assert_eq!(
        config.contract.prompt.as_deref(),
        Some("Custom capability rubric.")
    );
    assert_eq!(
        config.contract.response_format_type,
        ClassifierResponseFormat::JsonSchema
    );
    assert_eq!(config.max_output_tokens, DEFAULT_JUDGE_MAX_OUTPUT_TOKENS);
}

#[test]
fn tiers_name_the_two_targets_of_a_binary_route() {
    let efficient = ModelId::new("e");
    let capable = ModelId::new("c");
    assert_eq!(
        routing_tier(&ModelId::new("e"), &efficient, &capable),
        Some("weak")
    );
    assert_eq!(
        routing_tier(&ModelId::new("c"), &efficient, &capable),
        Some("strong")
    );
    assert_eq!(
        routing_tier(&ModelId::new("x"), &efficient, &capable),
        None
    );
    assert_eq!(routing_tier(&efficient, &efficient, &efficient), None);
}

#[test]
fn better_verdicts_keep_the_efficient_target() {
    let policy = policy_for(&TaskClassifierConfig {
        threshold_step: b(0.2),
        ..test_config(0.4)
    });
    let boundaries = [
        ("supported", "SUP-1"),
        ("uncertain", "UNC-1"),
        ("unsupported", "LIM-1"),
    ];
    // Each row of steps: from some confidence on the efficient target gets the task.
    for (boundary, rule) in boundaries {
        let picks: Vec<String> = (0..=100)
            .map(|i| verdict(i as f64 / 100.0, boundary, rule))
            .filter(|verdict| verdict.is_valid())
            .map(|verdict| selected(&policy, Some(&verdict)))
            .collect();
        let first = picks.iter().position(|pick| pick == "efficient");
        let from = first.unwrap_or(picks.len());
        assert!(picks[from..].iter().all(|pick| pick == "efficient"));
    }
    let pick = |p: f64, at: usize| {
        let (boundary, rule) = boundaries[at];
        selected(&policy, Some(&verdict(p, boundary, rule)))
    };
    assert_eq!(pick(0.4, 0), "efficient");
    assert_eq!(pick(0.5, 1), "capable");
    assert_eq!(pick(0.5, 0), "efficient");
}

#[test]
fn ladders_ignore_the_order_of_declaration() {
    let rungs = || {
        vec![
            rung("a", 0.5, 0.3, None),
            rung("b", 0.9, 0.1, Some(10)),
            rung("c", 0.1, 0.2, None),
        ]
    };
    let names = |rungs: Vec<CapabilityTarget>| -> Vec<String> {
        sort_ladder(rungs)
            .iter()
            .map(|rung| rung.target.as_str().to_string())
            .collect()
    };
    for order in [[0, 1, 2], [0, 2, 1], [1, 0, 2], [1, 2, 0], [2, 0, 1], [2, 1, 0]] {
        let declared = rungs();
        let shuffled = order.iter().map(|&i| declared[i].clone()).collect();
        assert_eq!(names(shuffled), vec!["b", "c", "a"]);
    }
}

#[test]
fn a_decision_is_for_its_best_score() {
    let score = |name: &str, confidence: f64| Score {
        target: ModelId::new(name),
        confidence: b(confidence),
    };
    let scores = || {
        vec![
            score("low", 0.2),
            score("best", 0.9),
            score("tied", 0.9),
            score("mid", 0.5),
        ]
    };
    let decision = Classification::Scores(scores());
    assert_eq!(decision.choice(), Some(&ModelId::new("best")));
    assert_eq!(Classification::Scores(Vec::new()).choice(), None);
    assert_eq!(Classification::Ambiguous(scores()).choice(), None);
}
