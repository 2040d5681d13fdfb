//! Building routes, and driving them over scripted models.

use std::cell::RefCell;

use rand::rngs::StdRng;
use rand::{RngExt, SeedableRng};
use serde_json::Value;
use switchyard::binary64::Binary64;
use switchyard::capability::{
    CapabilityTarget, TargetCost, TaskClassifierConfig, TaskClassifierVerdict,
};
use switchyard::classification::{abstention, decisive, Classification};
use switchyard::custom::{CustomClassifierConfig, CustomClassifierPolicy};
use switchyard::error::AlgorithmError;
use switchyard::escalation::{EfficientReply, EscalationClassifier, ReplyStep, State, streak};
use switchyard::judge::{
    ClassifierContract, ClassifierContractConfig, DEFAULT_JUDGE_MAX_OUTPUT_TOKENS,
};
use switchyard::messages::{ContentBlock, Message, Role};
use switchyard::model::ModelId;
use switchyard::request::{LlmRequest, Metadata, Request};
use switchyard::router::{
    Affinity, CompiledContracts, EscalationJudgeConfig, InnerClassifier, LlmClassifierConfig,
    LlmTaskClassifier, RouteStep,
};
use switchyard::thompson::{
    estimate_request_tokens, gamma_compare, gamma_cube, gamma_plan, gamma_slope, gamma_try,
    GammaPlan, GammaTry, ThompsonSampler,
};
use switchyard::zones::{
    into_response, pick_winner, AnswersStep, BanditConfig, CostAwareClassifier, Delivery,
    ScoreStep, Zone, ZoneConfig,
};

const TEST_THRESHOLD: f64 = 0.5;

fn b(x: f64) -> Binary64 {
    Binary64 { bits: x.to_bits() }
}

fn id(name: &str) -> ModelId {
    ModelId::new(name)
}

fn contract(prompt: &str) -> ClassifierContract {
    ClassifierContract {
        system_prompt: prompt.to_string(),
        response_format: Value::String(format!("{prompt} format")),
    }
}

fn contracts() -> CompiledContracts {
    CompiledContracts {
        classifier: Ok(contract("classify")),
        output_judge: Ok(contract("compare")),
    }
}

fn test_config(base_threshold: f64) -> TaskClassifierConfig {
    TaskClassifierConfig {
        base_threshold: b(base_threshold),
        ..TaskClassifierConfig::default()
    }
}

fn binary(config: TaskClassifierConfig) -> Result<LlmTaskClassifier, AlgorithmError> {
    LlmTaskClassifier::new(
        LlmClassifierConfig::Capability {
            judge_target: id("judge"),
            efficient_target: id("efficient"),
            capable_target: id("capable"),
            capability_targets: Vec::new(),
            capability_zones: None,
            bandit: None,
            config,
        },
        contracts(),
    )
}

fn error_of(r: Result<LlmTaskClassifier, AlgorithmError>) -> AlgorithmError {
    match r {
        Ok(_) => panic!("expected an error"),
        Err(error) => error,
    }
}

fn names(targets: &[ModelId]) -> Vec<&str> {
    targets.iter().map(|target| target.as_str()).collect()
}

fn request(text: &str) -> Request {
    Request {
        llm_request: LlmRequest {
            model: Some("auto".to_string()),
            messages: vec![Message::text(Role::User, text)],
            ..LlmRequest::empty()
        },
        raw_request: None,
        metadata: None,
    }
}

fn verdict(
    p_solve: f64,
    boundary: &str,
    rule: &str,
    minimum_capability: f64,
) -> TaskClassifierVerdict {
    TaskClassifierVerdict {
        crux: "crux".to_string(),
        primary_rule: rule.to_string(),
        capability_boundary: boundary.to_string(),
        p_solve: b(p_solve),
        minimum_capability: Some(b(minimum_capability)),
    }
}

#[test]
fn an_unreachable_judge_routes_capable_instead_of_failing_the_request() {
    let router = binary(test_config(TEST_THRESHOLD)).unwrap();
    let InnerClassifier::Task(task) = &router.inner else {
        panic!("expected the binary classifier");
    };
    assert!(task.on_verdict(None).choice().is_none());
    assert_eq!(router.default_target, Some(id("capable")));
    assert_eq!(names(&router.targets), vec!["efficient", "capable"]);
    assert_eq!(router.affinity, Affinity::Off);
    assert_eq!(router.name(), "llm_task_classifier");
    assert_eq!(router.routing_tier(&id("efficient")), Some("weak"));
    assert_eq!(router.routing_tier(&id("capable")), Some("strong"));
}

#[test]
fn classifier_config_sets_the_judge_completion_cap() {
    let router = binary(TaskClassifierConfig {
        max_output_tokens: 512,
        session_affinity: true,
        ..test_config(TEST_THRESHOLD)
    })
    .unwrap();
    let InnerClassifier::Task(task) = &router.inner else {
        panic!("expected the binary classifier");
    };
    let judged = task.judge_request(&request("classify the text"));
    assert_eq!(judged.llm_request.output.max_output_tokens, Some(512));
    assert_eq!(
        judged.llm_request.instructions[0].content,
        vec![ContentBlock::Text {
            text: "classify".to_string()
        }]
    );
    assert_eq!(router.affinity, Affinity::Session);
    let supported = verdict(0.9, "supported", "SUP-1", 0.1);
    assert_eq!(
        task.on_verdict(Some(&supported)).choice(),
        Some(&id("efficient"))
    );
}

#[test]
fn invalid_classifier_config_is_rejected() {
    for bad in [1.5, -0.1, f64::NAN, f64::INFINITY] {
        assert!(
            binary(test_config(bad)).is_err(),
            "base threshold {bad} should be rejected"
        );
    }
    for config in [
        TaskClassifierConfig {
            base_threshold: b(0.5),
            threshold_step: b(-0.1),
            ..TaskClassifierConfig::default()
        },
        TaskClassifierConfig {
            base_threshold: b(0.8),
            threshold_step: b(0.11),
            ..TaskClassifierConfig::default()
        },
        TaskClassifierConfig {
            base_threshold: b(0.5),
            message_hash_fallback: true,
            ..TaskClassifierConfig::default()
        },
        TaskClassifierConfig {
            base_threshold: b(0.5),
            max_output_tokens: 0,
            ..TaskClassifierConfig::default()
        },
    ] {
        assert!(binary(config).is_err());
    }
    for base_threshold in [0.0, 1.0] {
        assert!(binary(test_config(base_threshold)).is_ok());
    }
}

fn cost_rung(name: &str, capability: f64, price: f64) -> CapabilityTarget {
    CapabilityTarget {
        target: id(name),
        capability: b(capability),
        cost: TargetCost {
            input_per_1m: b(price),
            output_per_1m: b(price),
        },
        context_window: None,
    }
}

fn ladder_route(
    capability_targets: Vec<CapabilityTarget>,
    capability_zones: Option<ZoneConfig>,
    bandit: Option<BanditConfig>,
    contracts: CompiledContracts,
) -> Result<LlmTaskClassifier, AlgorithmError> {
    LlmTaskClassifier::new(
        LlmClassifierConfig::Capability {
            judge_target: id("judge"),
            efficient_target: id("nano"),
            capable_target: id("opus"),
            capability_targets,
            capability_zones,
            bandit,
            config: test_config(TEST_THRESHOLD),
        },
        contracts,
    )
}

fn aware(router: &LlmTaskClassifier) -> &CostAwareClassifier {
    match &router.inner {
        InnerClassifier::CostAware(aware) => aware,
        _ => panic!("expected the cost-aware classifier"),
    }
}

#[test]
fn ranked_pick_orders_by_cost_not_declaration_order() {
    // Declare the rungs dearest-first; the ladder must still pick the cheapest adequate rung, so
    // the route orders by cost, not config order.
    let router = ladder_route(
        vec![
            cost_rung("opus", 1.0, 3.0),
            cost_rung("cheap", 0.5, 0.1),
            cost_rung("mid", 0.5, 0.4),
        ],
        None,
        None,
        contracts(),
    )
    .unwrap();
    assert_eq!(names(&router.targets), vec!["cheap", "mid", "opus"]);
    assert_eq!(router.default_target, Some(id("opus")));
    assert_eq!(router.routing_tier(&id("cheap")), None);
    // The build sorts by cost: cheap (0.2 total) < mid (0.8) < opus (6.0). A 0.5 requirement
    // clears both cheap and mid; the cheapest adequate rung wins.
    let step = aware(&router).on_verdict(
        &request("classify the text"),
        Some(&verdict(0.9, "supported", "SUP-1", 0.5)),
    );
    assert_eq!(decided(step), "cheap");
}

#[test]
fn a_ladder_of_one_or_an_invalid_level_is_rejected() {
    let rung = |name: &str, capability: f64| cost_rung(name, capability, 0.0);
    // One rung is not a ladder.
    assert_eq!(
        error_of(ladder_route(
            vec![rung("only", 0.5)],
            None,
            None,
            contracts()
        )),
        AlgorithmError::LadderTooShort
    );
    // Capability levels outside 0..=1 are rejected.
    assert_eq!(
        error_of(ladder_route(
            vec![rung("a", 0.5), rung("b", 1.5)],
            None,
            None,
            contracts()
        )),
        AlgorithmError::RungCapability {
            target: id("b"),
            got: b(1.5)
        }
    );
}

fn test_zones() -> ZoneConfig {
    ZoneConfig {
        low_threshold: b(0.3),
        high_threshold: b(0.7),
        fan_out: 3,
        output_judge_target: id("output_judge"),
        output_judge_contract: ClassifierContractConfig::default(),
        output_judge_max_output_tokens: 256,
    }
}

fn four_rungs() -> Vec<CapabilityTarget> {
    vec![
        cost_rung("nano", 0.2, 0.1),
        cost_rung("strong", 0.5, 0.5),
        cost_rung("ultra", 0.8, 1.0),
        cost_rung("opus", 1.0, 3.0),
    ]
}

/// A four-rung ladder (nano < strong < ultra < opus by cost) with zones enabled.
fn zoned_router() -> LlmTaskClassifier {
    ladder_route(four_rungs(), Some(test_zones()), None, contracts()).unwrap()
}

fn decided(step: ScoreStep) -> String {
    match step {
        ScoreStep::Decided(decision) => decision.choice().unwrap().as_str().to_string(),
        other => panic!("expected a decision, got {other:?}"),
    }
}

fn fanned(step: ScoreStep) -> Vec<ModelId> {
    match step {
        ScoreStep::FanOut { candidates } => candidates,
        other => panic!("expected a fan-out, got {other:?}"),
    }
}

#[test]
fn zone_a_answers_with_a_single_cheapest_adequate_call() {
    let router = zoned_router();
    let step = aware(&router).on_verdict(
        &request("classify the text"),
        Some(&verdict(0.9, "supported", "SUP-1", 0.2)),
    );
    assert_eq!(decided(step), "nano");
}

#[test]
fn zone_c_routes_to_the_most_capable_rung_without_fanning_out() {
    let router = zoned_router();
    let step = aware(&router).on_verdict(
        &request("classify the text"),
        Some(&verdict(0.1, "supported", "SUP-1", 0.2)),
    );
    assert_eq!(decided(step), "opus");
}

#[test]
fn an_unsupported_boundary_forces_zone_c_even_at_high_confidence() {
    let router = zoned_router();
    let step = aware(&router).on_verdict(
        &request("classify the text"),
        Some(&verdict(0.95, "unsupported", "LIM-1", 0.2)),
    );
    assert_eq!(decided(step), "opus");
    // A boundary that contradicts its rule is no verdict; the route's default serves it.
    let step = aware(&router).on_verdict(
        &request("classify the text"),
        Some(&verdict(0.95, "unsupported", "SUP-1", 0.2)),
    );
    assert!(matches!(
        step,
        ScoreStep::Decided(Classification::Ambiguous(_))
    ));
    assert_eq!(router.default_target, Some(id("opus")));
}

fn fan_out(
    router: &LlmTaskClassifier,
    level: f64,
    winner: Option<usize>,
) -> (Vec<String>, String, Request) {
    let aware = aware(router);
    let request = request("classify the text");
    let targets = fanned(aware.on_verdict(
        &request,
        Some(&verdict(0.5, "supported", "SUP-1", level)),
    ));
    let called: Vec<String> = targets
        .iter()
        .map(|target| target.as_str().to_string())
        .collect();
    let replies: Vec<Option<(String, u32)>> = called
        .iter()
        .enumerate()
        .map(|(i, name)| Some((format!("answer from {name}"), i as u32)))
        .collect();
    let zones = aware.zones.as_ref().unwrap();
    match CostAwareClassifier::on_answers(&request, targets, replies, zones) {
        AnswersStep::Compare {
            judge_target,
            request: judged,
            candidates,
        } => {
            assert_eq!(judge_target.as_str(), "output_judge");
            let (decision, candidate) = pick_winner(candidates, winner);
            assert_eq!(decision.choice(), Some(&candidate.target));
            (called, candidate.text, judged)
        }
        _ => panic!("expected a comparison"),
    }
}

#[test]
fn zone_b_fans_out_and_the_output_judge_picks_the_winner() {
    // Mid confidence, level 0.2: every rung is eligible, so the cheapest three fan out.
    let (called, answer, judged) = fan_out(&zoned_router(), 0.2, Some(1));
    assert_eq!(called, vec!["nano", "strong", "ultra"]);
    // Winner index 1 is "strong".
    assert_eq!(answer, "answer from strong");
    assert_eq!(judged.llm_request.output.max_output_tokens, Some(256));
    assert_eq!(
        judged.llm_request.messages.last().unwrap().text_content(""),
        Some(
            "Candidate answers, numbered from 0:\n\
             \n--- candidate 0 ---\nanswer from nano\n\
             \n--- candidate 1 ---\nanswer from strong\n\
             \n--- candidate 2 ---\nanswer from ultra\n"
                .to_string()
        )
    );
    assert_eq!(
        judged.llm_request.messages[0],
        Message::text(Role::User, "classify the text")
    );
}

#[test]
fn zone_b_fans_out_only_over_the_rungs_that_clear_the_level() {
    // Level 0.6 leaves ultra and opus eligible; only those two fan out.
    let (called, answer, _) = fan_out(&zoned_router(), 0.6, Some(1));
    assert_eq!(called, vec!["ultra", "opus"]);
    assert_eq!(answer, "answer from opus");
}

#[test]
fn zone_b_falls_back_to_the_cheapest_candidate_when_the_judge_misfires() {
    // Winner index 9 is out of range for three candidates: fall back to index 0.
    let (_, answer, _) = fan_out(&zoned_router(), 0.2, Some(9));
    assert_eq!(answer, "answer from nano");
    let (_, answer, _) = fan_out(&zoned_router(), 0.2, None);
    assert_eq!(answer, "answer from nano");
}

#[test]
fn failed_candidates_drop_out_of_a_fan_out() {
    let router = zoned_router();
    let zones = aware(&router).zones.as_ref().unwrap();
    let targets = || vec![id("nano"), id("strong"), id("ultra")];
    let request = request("task");
    let none: Vec<Option<(String, u32)>> = vec![None, None, None];
    assert!(matches!(
        CostAwareClassifier::on_answers(&request, targets(), none, zones),
        AnswersStep::Abstain(Classification::Ambiguous(_))
    ));
    let one = vec![None, Some(("answer".to_string(), 7)), None];
    match CostAwareClassifier::on_answers(&request, targets(), one, zones) {
        AnswersStep::Lone(decision, candidate) => {
            assert_eq!(decision.choice(), Some(&id("strong")));
            assert_eq!(candidate.answer, 7);
        }
        _ => panic!("expected a lone survivor"),
    }
    let two = vec![
        Some(("first".to_string(), 1)),
        None,
        Some(("second".to_string(), 2)),
    ];
    match CostAwareClassifier::on_answers(&request, targets(), two, zones) {
        AnswersStep::Compare { candidates, .. } => {
            let held: Vec<(&str, u32)> = candidates
                .iter()
                .map(|candidate| (candidate.target.as_str(), candidate.answer))
                .collect();
            assert_eq!(held, vec![("nano", 1), ("ultra", 2)]);
        }
        _ => panic!("expected a comparison"),
    }
}

#[test]
fn a_fan_out_over_one_or_no_rung_is_a_decision() {
    let router = zoned_router();
    let mid = |level: f64| verdict(0.5, "uncertain", "UNC-1", level);
    let step = aware(&router).on_verdict(&request("task"), Some(&mid(0.9)));
    assert_eq!(decided(step), "opus");
    let small = |name: &str, capability: f64, price: f64| CapabilityTarget {
        context_window: Some(1),
        ..cost_rung(name, capability, price)
    };
    let router = ladder_route(
        vec![small("a", 0.2, 0.1), small("z", 0.9, 0.5)],
        Some(test_zones()),
        None,
        contracts(),
    )
    .unwrap();
    // Forty letters are ten tokens, twelve with headroom: no window fits them.
    let long = request(&"x".repeat(40));
    assert_eq!(estimate_request_tokens(&long), 10);
    assert_eq!(CostAwareClassifier::needed_tokens(&long), 12);
    let step = aware(&router).on_verdict(&long, Some(&mid(0.1)));
    assert_eq!(decided(step), "z");
}

/// A zoned router with a bandit.
fn bandit_router(scale: f64) -> LlmTaskClassifier {
    ladder_route(
        four_rungs(),
        Some(test_zones()),
        Some(BanditConfig { scale: b(scale) }),
        contracts(),
    )
    .unwrap()
}

/// The step after a sample that `draw` makes for the arm that is asked for.
fn stepped(
    router: &LlmTaskClassifier,
    p_solve: f64,
    draw: impl FnOnce(&ModelId, &str) -> Binary64,
) -> ScoreStep {
    let aware = aware(router);
    let request = request("classify the text");
    let verdict = verdict(p_solve, "supported", "SUP-1", 0.2);
    let sample = match aware.on_verdict(&request, Some(&verdict)) {
        ScoreStep::Sample { target, bucket } => {
            assert_eq!(target.as_str(), "nano");
            assert_eq!(bucket, "small");
            draw(&target, bucket)
        }
        other => panic!("expected a sample, got {other:?}"),
    };
    aware.on_sample(&request, &verdict, sample)
}

fn sampled(router: &LlmTaskClassifier, p_solve: f64, sample: f64) -> ScoreStep {
    stepped(router, p_solve, |_, _| b(sample))
}

/// A draw of a shape of at least one.
fn gamma_sample(rng: &mut StdRng, shape: Binary64) -> Binary64 {
    let f = |x: Binary64| f64::from_bits(x.bits);
    let GammaPlan::Try { d, radicand } = gamma_plan(shape) else {
        panic!("expected a shape of at least one");
    };
    loop {
        let u1 = rng.random::<f64>().max(f64::MIN_POSITIVE);
        let u2 = rng.random::<f64>();
        let x = b((-2.0 * u1.ln()).sqrt() * (2.0 * std::f64::consts::PI * u2).cos());
        let Some(cube) = gamma_cube(gamma_slope(b(f(radicand).sqrt())), x) else {
            continue;
        };
        let u = rng.random::<f64>();
        let draw = match gamma_try(d, x, cube, b(u)) {
            GammaTry::Accept(draw) => Some(draw),
            GammaTry::Compare => gamma_compare(d, x, cube, b(u.ln()), b(f(cube).ln())),
        };
        if let Some(draw) = draw {
            return draw;
        }
    }
}

/// The step after a sample of the cheap arm with the given parameters.
fn learned(p_solve: f64, alpha: f64, beta: f64) -> ScoreStep {
    let mut sampler = ThompsonSampler::new();
    sampler.update_arm(&id("nano"), "small", b(alpha), b(beta));
    let rng = RefCell::new(StdRng::seed_from_u64(7));
    stepped(&bandit_router(1.0), p_solve, |target, bucket| {
        sampler.sample(target, bucket, |shape| gamma_sample(&mut rng.borrow_mut(), shape))
    })
}

#[test]
fn a_failing_cheap_arm_pushes_the_route_off_zone_a() {
    // A hundred failures: samples near 0.01 drag 0.75 + (0.01 - 0.5) * 1.0 below the 0.3 low
    // threshold.
    assert_eq!(decided(learned(0.75, 1.0, 101.0)), "opus");
    assert_eq!(decided(sampled(&bandit_router(1.0), 0.75, 0.01)), "opus");
}

#[test]
fn a_succeeding_cheap_arm_keeps_the_route_cheap() {
    // A hundred successes: samples near 0.99.
    assert_eq!(decided(learned(0.75, 101.0, 1.0)), "nano");
    assert_eq!(decided(sampled(&bandit_router(1.0), 0.75, 0.99)), "nano");
}

#[test]
fn a_neutral_sample_leaves_the_zone_alone() {
    assert_eq!(decided(sampled(&bandit_router(1.0), 0.7, 0.5)), "nano");
    assert_eq!(fanned(sampled(&bandit_router(1.0), 0.3, 0.5)).len(), 3);
    // A correction never leaves the unit interval.
    let corrected = CostAwareClassifier::corrected_p_solve(
        &verdict(0.9, "supported", "SUP-1", 0.2),
        b(1.0),
        &BanditConfig { scale: b(10.0) },
    );
    assert_eq!(corrected, b(1.0));
}

#[test]
fn misfitting_capability_parts_are_rejected_in_order() {
    let zones = |change: fn(&mut ZoneConfig)| {
        let mut zones = test_zones();
        change(&mut zones);
        Some(zones)
    };
    assert_eq!(
        error_of(ladder_route(Vec::new(), zones(|_| {}), None, contracts())),
        AlgorithmError::ZonesWithoutLadder
    );
    assert_eq!(
        error_of(ladder_route(
            four_rungs(),
            None,
            Some(BanditConfig { scale: b(1.0) }),
            contracts()
        )),
        AlgorithmError::BanditWithoutZones
    );
    assert_eq!(
        error_of(ladder_route(
            four_rungs(),
            zones(|zones| zones.low_threshold = b(-0.5)),
            None,
            contracts()
        )),
        AlgorithmError::ZoneThresholds {
            low: b(-0.5),
            high: b(0.7)
        }
    );
    assert_eq!(
        error_of(ladder_route(
            four_rungs(),
            zones(|zones| zones.low_threshold = b(0.9)),
            None,
            contracts()
        )),
        AlgorithmError::ZoneOrder {
            low: b(0.9),
            high: b(0.7)
        }
    );
    assert_eq!(
        error_of(ladder_route(
            four_rungs(),
            zones(|zones| zones.fan_out = 0),
            None,
            contracts()
        )),
        AlgorithmError::ZoneFanOut
    );
    assert_eq!(
        error_of(ladder_route(
            four_rungs(),
            zones(|zones| zones.output_judge_max_output_tokens = 0),
            None,
            contracts()
        )),
        AlgorithmError::OutputJudgeMaxOutputTokens
    );
    let broken = |message: &str| CompiledContracts {
        classifier: Err("classifier".to_string()),
        output_judge: Err(message.to_string()),
    };
    assert_eq!(
        error_of(ladder_route(
            four_rungs(),
            zones(|_| {}),
            None,
            broken("output")
        )),
        AlgorithmError::Contract {
            message: "output".to_string()
        }
    );
    assert_eq!(
        error_of(ladder_route(four_rungs(), None, None, broken("output"))),
        AlgorithmError::Contract {
            message: "classifier".to_string()
        }
    );
}

fn custom_route(
    targets: Vec<(&str, &str)>,
    default_target: &str,
    selector: &str,
    change: fn(&mut CustomClassifierConfig),
) -> Result<LlmTaskClassifier, AlgorithmError> {
    let mut config = CustomClassifierConfig::new(
        "Pick a target.",
        Value::Null,
        CustomClassifierPolicy::target_selector(selector),
    );
    change(&mut config);
    LlmTaskClassifier::new(
        LlmClassifierConfig::Custom {
            judge_target: id("judge"),
            targets: targets
                .into_iter()
                .map(|(label, target)| (label.to_string(), id(target)))
                .collect(),
            default_target: default_target.to_string(),
            config,
        },
        contracts(),
    )
}

#[test]
fn a_custom_route_selects_among_its_labels() {
    let router = custom_route(
        vec![("opus", "model/opus"), ("sonnet", "model/sonnet")],
        "sonnet",
        "/target",
        |config| {
            config.session_affinity = true;
            config.message_hash_fallback = true;
        },
    )
    .unwrap();
    assert_eq!(names(&router.targets), vec!["model/opus", "model/sonnet"]);
    assert_eq!(router.default_target, Some(id("model/sonnet")));
    assert_eq!(router.affinity, Affinity::SessionOrFirstMessage);
    assert_eq!(router.routing_tier(&id("model/opus")), None);
    let InnerClassifier::Custom(custom) = &router.inner else {
        panic!("expected the custom classifier");
    };
    let verdict: Value = serde_json::from_str(r#"{"target":"opus"}"#).unwrap();
    assert_eq!(
        custom.to_classification(Some(&verdict)).choice(),
        Some(&id("model/opus"))
    );
    assert!(custom.to_classification(None).choice().is_none());
    assert_eq!(
        custom
            .judge_request(&request("task"))
            .llm_request
            .output
            .max_output_tokens,
        Some(DEFAULT_JUDGE_MAX_OUTPUT_TOKENS)
    );
}

#[test]
fn each_invalid_custom_route_has_its_error() {
    let two = || vec![("opus", "model/opus"), ("sonnet", "model/sonnet")];
    let cases = [
        (
            custom_route(two(), "opus", "/t", |config| config.max_output_tokens = 0),
            AlgorithmError::MaxOutputTokens,
        ),
        (
            custom_route(two(), "opus", "/t", |config| {
                config.message_hash_fallback = true
            }),
            AlgorithmError::MessageHashWithoutAffinity,
        ),
        (
            custom_route(vec![("opus", "model/opus")], "opus", "/t", |_| {}),
            AlgorithmError::TooFewTargets,
        ),
        (
            custom_route(vec![("a", "m"), (" b", "n")], "a", "/t", |_| {}),
            AlgorithmError::PaddedLabel,
        ),
        (
            custom_route(vec![("a", "m"), ("\u{3000}", "n")], "a", "/t", |_| {}),
            AlgorithmError::PaddedLabel,
        ),
        (
            custom_route(vec![("a", "m"), ("a", "n")], "a", "/t", |_| {}),
            AlgorithmError::DuplicateLabel {
                label: "a".to_string(),
            },
        ),
        (
            custom_route(vec![("a", "m"), ("b", "m")], "a", "/t", |_| {}),
            AlgorithmError::DuplicateTarget { target: id("m") },
        ),
        (
            custom_route(two(), "haiku", "/t", |_| {}),
            AlgorithmError::UnknownDefault {
                label: "haiku".to_string(),
            },
        ),
        (
            custom_route(two(), "opus", "", |_| {}),
            AlgorithmError::RootSelector,
        ),
    ];
    for (result, error) in cases {
        assert_eq!(error_of(result), error);
    }
    match error_of(custom_route(two(), "opus", "no-slash", |_| {})) {
        AlgorithmError::InvalidSelector { message } => {
            assert!(message.contains("valid JSON Pointer"))
        }
        other => panic!("unexpected error {other:?}"),
    }
}

/// Builds a router with escalation enabled.
fn escalation_router(confirmations: u32) -> LlmTaskClassifier {
    LlmTaskClassifier::new(
        LlmClassifierConfig::Escalation {
            judge_target: id("judge"),
            efficient_target: id("efficient"),
            capable_target: id("capable"),
            contract: ClassifierContractConfig::default(),
            config: EscalationJudgeConfig { confirmations },
            max_output_tokens: DEFAULT_JUDGE_MAX_OUTPUT_TOKENS,
        },
        contracts(),
    )
    .unwrap()
}

fn escalation(router: &LlmTaskClassifier) -> &EscalationClassifier {
    match &router.inner {
        InnerClassifier::Escalation(escalation) => escalation,
        _ => panic!("expected the escalation classifier"),
    }
}

fn answered(classifier: &EscalationClassifier, text: &str) -> Request {
    let reply: EfficientReply<String> = EfficientReply::Answered(Some(vec![ContentBlock::Text {
        text: text.to_string(),
    }]));
    match classifier.on_reply(&request("classify the text"), reply) {
        ReplyStep::Judge(judged) => judged,
        _ => panic!("expected a judge request"),
    }
}

#[test]
fn escalation_router_serves_efficient_when_judge_declines() {
    let router = escalation_router(1);
    let classifier = escalation(&router);
    let mut state = State::new();
    assert!(classifier.start(&state).is_none());
    let judged = answered(classifier, "efficient answer");
    assert_eq!(
        judged.llm_request.messages,
        vec![
            Message::text(Role::User, "classify the text"),
            Message::text(Role::Assistant, "efficient answer"),
        ]
    );
    let (decision, keep) = classifier.on_judged(&mut state, Some(&id("efficient")));
    assert!(keep);
    assert_eq!(decision.choice(), Some(&id("efficient")));
    assert_eq!(streak(&state), 0);
    assert_eq!(names(&router.targets), vec!["capable", "efficient"]);
    assert_eq!(router.default_target, None);
    assert_eq!(router.routing_tier(&id("capable")), Some("strong"));
    assert_eq!(classifier.routing_tier(&id("efficient")), Some("weak"));
}

#[test]
fn escalation_router_upgrades_to_capable_when_judge_escalates() {
    let router = escalation_router(1);
    let classifier = escalation(&router);
    let mut state = State::new();
    let (decision, keep) = classifier.on_judged(&mut state, Some(&id("capable")));
    assert!(!keep);
    assert_eq!(decision.choice(), Some(&id("capable")));
}

#[test]
fn escalation_router_stays_capable_after_latch() {
    let router = escalation_router(2);
    let classifier = escalation(&router);
    let mut state = State::new();
    // One verdict is not enough, a silent judge changes nothing, and a decline starts over.
    for (best, expected, held) in [
        (Some("capable"), "efficient", 1),
        (None, "efficient", 1),
        (Some("efficient"), "efficient", 0),
        (Some("capable"), "efficient", 1),
        (Some("capable"), "capable", 2),
    ] {
        assert!(classifier.start(&state).is_none());
        let best = best.map(id);
        let (decision, keep) = classifier.on_judged(&mut state, best.as_ref());
        assert_eq!(decision.choice(), Some(&id(expected)));
        assert_eq!(keep, expected == "efficient");
        assert_eq!(streak(&state), held);
    }
    let latched = classifier.start(&state).unwrap();
    assert_eq!(latched.choice(), Some(&id("capable")));
}

#[test]
fn escalation_classifier_falls_back_to_capable_when_efficient_overflows() {
    let router = escalation_router(1);
    let reply: EfficientReply<String> = EfficientReply::ContextWindowExceeded;
    match escalation(&router).on_reply(&request("task"), reply) {
        ReplyStep::Decided(decision) => assert_eq!(decision.choice(), Some(&id("capable"))),
        _ => panic!("expected a decision"),
    }
}

#[test]
fn escalation_classifier_falls_back_when_efficient_stream_transport_fails() {
    let router = escalation_router(1);
    let reply: EfficientReply<String> = EfficientReply::TransportFailed;
    match escalation(&router).on_reply(&request("task"), reply) {
        ReplyStep::Decided(decision) => assert_eq!(decision.choice(), Some(&id("capable"))),
        _ => panic!("expected a decision"),
    }
}

#[test]
fn escalation_classifier_preserves_non_transport_stream_errors() {
    let router = escalation_router(1);
    let reply = EfficientReply::ReadFailed("invalid stream event".to_string());
    match escalation(&router).on_reply(&request("task"), reply) {
        ReplyStep::FailReading { target, source } => {
            assert_eq!(target.as_str(), "efficient");
            assert_eq!(source, "invalid stream event");
        }
        _ => panic!("expected the stream error"),
    }
    let reply = EfficientReply::CallFailed("refused".to_string());
    match escalation(&router).on_reply(&request("task"), reply) {
        ReplyStep::Fail(source) => assert_eq!(source, "refused"),
        _ => panic!("expected the call's error"),
    }
}

#[test]
fn a_buffered_answer_is_streamed_again_on_demand() {
    assert!(matches!(into_response(1, true), Delivery::Stream(1)));
    assert!(matches!(into_response(1, false), Delivery::Whole(1)));
}

#[test]
fn a_default_that_is_no_target_is_rejected() {
    let router = escalation_router(1);
    let result = LlmTaskClassifier::from_classifier(
        vec![id("a"), id("b")],
        router.inner,
        switchyard::router::ClassifierRouteConfig {
            default_target: id("c"),
            session_affinity: false,
            message_hash_fallback: false,
        },
    );
    assert_eq!(
        error_of(result),
        AlgorithmError::DefaultNotRouted { target: id("c") }
    );
}

#[test]
fn the_headroom_is_a_whole_fifteen_percent() {
    // Twenty letters are five tokens; five and three quarters round up to six.
    let request = request(&"x".repeat(20));
    assert_eq!(estimate_request_tokens(&request), 5);
    assert_eq!(CostAwareClassifier::needed_tokens(&request), 6);
    let sized = |window: u32| {
        let small = CapabilityTarget {
            context_window: Some(window),
            ..cost_rung("small", 0.5, 0.1)
        };
        let rungs = vec![small, cost_rung("large", 0.9, 0.5)];
        let router = ladder_route(rungs, None, None, contracts()).unwrap();
        let verdict = verdict(0.9, "supported", "SUP-1", 0.3);
        decided(aware(&router).on_verdict(&request, Some(&verdict)))
    };
    assert_eq!(sized(5), "large");
    assert_eq!(sized(6), "small");
    for letters in 0..400 {
        let request = self::request(&"x".repeat(letters));
        let estimate = estimate_request_tokens(&request);
        let needed = CostAwareClassifier::needed_tokens(&request);
        assert!(needed * 100 >= estimate * 115 && needed * 100 < estimate * 115 + 100);
    }
}

#[test]
fn requests_fall_through_in_order() {
    let retained = Some(id("retained"));
    let decision = decisive(&id("efficient"));
    let open = binary(test_config(0.5)).unwrap();
    assert_eq!(open.affinity, Affinity::Off);
    assert_eq!(open.reused(retained.clone()), None);
    assert_eq!(open.next_target(retained.clone(), Some(&decision)), Some(id("efficient")));
    assert_eq!(open.next_target(None, Some(&abstention())), Some(id("capable")));
    assert_eq!(open.next_target(None, None), Some(id("capable")));
    let sticky = binary(TaskClassifierConfig {
        session_affinity: true,
        ..test_config(0.5)
    })
    .unwrap();
    assert_eq!(sticky.reused(retained.clone()), retained);
    assert_eq!(sticky.next_target(retained.clone(), Some(&decision)), retained);
    assert_eq!(sticky.next_target(None, Some(&decision)), Some(id("efficient")));
    // An escalation route has no default.
    let escalating = escalation_router(1);
    assert_eq!(escalating.next_target(None, Some(&abstention())), None);
    assert_eq!(escalation(&escalating).asked_target(true), &id("capable"));
    assert_eq!(escalation(&escalating).asked_target(false), &id("efficient"));
}

#[test]
fn a_bought_answer_is_served_where_the_classifier_decided() {
    let router = binary(TaskClassifierConfig {
        session_affinity: true,
        ..test_config(0.5)
    })
    .unwrap();
    let decision = decisive(&id("efficient"));
    let called = |name: &str| RouteStep::Call { target: id(name) };
    assert_eq!(
        router.next_step(None, Some(&decision), Some("answer")),
        RouteStep::Serve {
            target: id("efficient"),
            answer: "answer"
        }
    );
    assert_eq!(router.next_step::<&str>(None, Some(&decision), None), called("efficient"));
    assert_eq!(
        router.next_step(None, Some(&abstention()), Some("answer")),
        called("capable")
    );
    assert_eq!(
        router.next_step(Some(id("kept")), Some(&decision), Some("answer")),
        called("kept")
    );
    let escalating = escalation_router(1);
    assert_eq!(
        escalating.next_step::<&str>(Some(id("kept")), None, None),
        RouteStep::Undecided
    );
}

#[test]
fn an_escalation_judge_without_tokens_is_rejected() {
    let route = |max_output_tokens: u64, contracts: CompiledContracts| {
        LlmTaskClassifier::new(
            LlmClassifierConfig::Escalation {
                judge_target: id("judge"),
                efficient_target: id("efficient"),
                capable_target: id("capable"),
                contract: ClassifierContractConfig::default(),
                config: EscalationJudgeConfig { confirmations: 1 },
                max_output_tokens,
            },
            contracts,
        )
    };
    let broken = || CompiledContracts {
        classifier: Err("broken".to_string()),
        ..contracts()
    };
    assert_eq!(error_of(route(0, contracts())), AlgorithmError::MaxOutputTokens);
    assert_eq!(error_of(route(0, broken())), AlgorithmError::MaxOutputTokens);
    let error = error_of(route(1, broken()));
    assert_eq!(error.plain_message().as_deref(), Some("broken"));
    assert!(route(1, contracts()).is_ok());
    let text = AlgorithmError::MaxOutputTokens.plain_message();
    assert_eq!(text.as_deref(), Some("max_output_tokens must be at least 1"));
    let quoted = AlgorithmError::DuplicateLabel {
        label: "x".to_string(),
    };
    assert_eq!(quoted.plain_message(), None);
}

#[test]
fn copies_keep_every_value_of_a_repeated_header() {
    let mut headers = http::HeaderMap::new();
    for value in ["one", "two", "three"] {
        headers.append("x-tag", http::HeaderValue::from_static(value));
    }
    let given = Request {
        metadata: Some(Metadata {
            session_id: None,
            correlation_id: None,
            http_headers: Some(headers.clone()),
            extra_metadata: None,
        }),
        ..request("task")
    };
    let copied = given.copy().metadata.unwrap().http_headers.unwrap();
    assert_eq!(copied, headers);
    let values: Vec<&str> = copied
        .get_all("x-tag")
        .iter()
        .map(|value| value.to_str().unwrap())
        .collect();
    assert_eq!(values, vec!["one", "two", "three"]);
}

#[test]
fn more_confidence_never_trusts_the_cheap_rungs_less() {
    let router = zoned_router();
    let zones = aware(&router).zones.as_ref().unwrap();
    let task = verdict(0.5, "supported", "SUP-1", 0.2);
    let trust = |p: f64| match CostAwareClassifier::zone(b(p), &task, zones) {
        Zone::Capable => 0,
        Zone::FanOut => 1,
        Zone::Answer => 2,
    };
    let trusts: Vec<i32> = (0..=100).map(|i| trust(i as f64 / 100.0)).collect();
    assert!(trusts.windows(2).all(|pair| pair[0] <= pair[1]));
    assert_eq!((trusts[29], trusts[30], trusts[69], trusts[70]), (0, 1, 1, 2));
}

#[test]
fn every_route_falls_back_to_one_of_its_targets() {
    let custom = custom_route(
        vec![("opus", "model/opus"), ("sonnet", "model/sonnet")],
        "sonnet",
        "/target",
        |_| {},
    )
    .unwrap();
    for router in [
        binary(test_config(0.5)).unwrap(),
        zoned_router(),
        custom,
    ] {
        let default = router.default_target.as_ref().unwrap();
        assert!(router.targets.contains(default));
    }
}
