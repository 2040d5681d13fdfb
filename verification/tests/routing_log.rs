//! Routing records, session totals and rewards.

use http::{HeaderMap, HeaderValue};
use switchyard::binary64::Binary64;
use switchyard::clock::timestamp;
use switchyard::headers::nonempty_header;
use switchyard::request::Metadata;
use switchyard::routing_log::{
    compute_reward, finished_record, reward_summary, snapshot, JudgeVerdict, Outcome,
    RewardSummary, RoutingLogContext, RoutingRecord, TokenUsage,
};

fn b(x: f64) -> Binary64 {
    Binary64 { bits: x.to_bits() }
}

fn f(x: Binary64) -> f64 {
    f64::from_bits(x.bits)
}

fn blank() -> RoutingRecord {
    RoutingRecord {
        ts: String::new(),
        task: None,
        trial_id: None,
        session_id: None,
        request_id: None,
        model: String::new(),
        tier: String::new(),
        prompt_tokens: 0,
        cached_tokens: 0,
        cache_creation_tokens: 0,
        completion_tokens: 0,
        reasoning_tokens: 0,
        total_tokens: 0,
        cost_usd: None,
        latency_ms: None,
        success: None,
        reward: None,
        token_bucket: None,
        judge_p_solve: None,
        judge_capability_boundary: None,
        judge_minimum_capability: None,
    }
}

fn used(session: &str, model: &str, prompt: u64, completion: u64) -> RoutingRecord {
    RoutingRecord {
        session_id: Some(session.to_string()),
        model: model.to_string(),
        prompt_tokens: prompt,
        completion_tokens: completion,
        ..blank()
    }
}

/// Only the requested session is counted, and absent fields fall back to zero and `unknown`.
#[test]
fn snapshot_counts_only_the_requested_session() {
    let records = vec![
        used("a", "m1", 10, 2),
        used("b", "m1", 99, 99),
        used("a", "", 5, 0),
    ];
    let stats = snapshot(&records, "a").expect("session a");
    assert_eq!(stats.session_id, "a");
    assert_eq!(stats.total_calls, 2);
    assert_eq!(stats.total_prompt_tokens, 15);
    assert_eq!(stats.total_completion_tokens, 2);
    assert_eq!(stats.models.get("m1").unwrap().calls, 1);
    assert_eq!(stats.models.get("unknown").unwrap().prompt_tokens, 5);
    assert!(snapshot(&records, "missing").is_none());
}

#[test]
fn failed_calls_are_left_out_and_totals_saturate() {
    let failed = RoutingRecord {
        success: Some(false),
        ..used("a", "m1", 7, 7)
    };
    assert!(snapshot(&vec![failed], "a").is_none());
    let records = vec![
        used("a", "m1", u64::MAX, 1),
        used("a", "m1", 5, 1),
        RoutingRecord {
            success: Some(true),
            cached_tokens: 4,
            cache_creation_tokens: 3,
            ..used("a", "m2", 9, 1)
        },
    ];
    let stats = snapshot(&records, "a").unwrap();
    assert_eq!(stats.total_calls, 3);
    assert_eq!(stats.total_prompt_tokens, u64::MAX);
    assert_eq!(stats.models.get("m1").unwrap().prompt_tokens, u64::MAX);
    assert_eq!(stats.total_cached_tokens, 4);
    assert_eq!(stats.total_cache_creation_tokens, 3);
    assert_eq!(stats.total_completion_tokens, 3);
}

#[test]
fn reward_blends_cost_latency_and_success() {
    // A cheap, fast, successful call scores near the top.
    let best = f(compute_reward(Some(b(0.0)), b(0.0), true));
    assert!((best - 1.0).abs() < f64::EPSILON);
    // A failure scores zero regardless of how cheap or fast it was.
    assert_eq!(f(compute_reward(Some(b(0.0)), b(0.0), false)), 0.0);
    assert_eq!(f(compute_reward(Some(b(0.05)), b(5_000.0), false)), 0.0);
    // Cost and latency are each capped at their scale and pull the blend down.
    let pricey_slow = f(compute_reward(Some(b(0.1)), b(20_000.0), true));
    assert!((pricey_slow - 0.4).abs() < 1e-9);
    // An unknown cost (no pricing configured) reads as free, not as expensive.
    let free = f(compute_reward(None, b(0.0), true));
    assert!((free - 1.0).abs() < f64::EPSILON);
}

#[test]
fn rewards_match_the_machine_and_stay_in_range() {
    for cost in [0.0, 0.001, 0.03, 0.0999, 0.1, 0.5, 1e300] {
        for latency in [0.0, 1.0, 800.0, 12_345.6, 20_000.0, 1e9] {
            let cost_norm = (cost / 0.1f64).min(1.0);
            let latency_norm = (latency / 20_000.0f64).min(1.0);
            let expected = (1.0 - cost_norm) * 0.3 + (1.0 - latency_norm) * 0.3 + 0.4;
            let reward = f(compute_reward(Some(b(cost)), b(latency), true));
            assert_eq!(reward, expected);
            assert!((0.4..=1.0).contains(&reward));
        }
    }
}

#[test]
fn rewards_never_rise_with_cost_or_latency() {
    let costs = [0.0, 1e-9, 0.05, 0.1, 0.2, 1e6];
    let latencies = [0.0, 3.5, 19_999.0, 20_000.0, 20_001.0, 1e12];
    for i in 0..costs.len() {
        for j in 0..latencies.len() {
            let reward = f(compute_reward(Some(b(costs[i])), b(latencies[j]), true));
            assert!(reward >= 0.4);
            for k in i..costs.len() {
                for l in j..latencies.len() {
                    let more = f(compute_reward(Some(b(costs[k])), b(latencies[l]), true));
                    assert!(more <= reward);
                }
            }
        }
    }
    // Beyond the scales nothing changes, and an unknown cost is free.
    let dear = compute_reward(Some(b(0.1)), b(5.0), true);
    assert_eq!(compute_reward(Some(b(7.0)), b(5.0), true), dear);
    let slow = compute_reward(Some(b(0.02)), b(20_000.0), true);
    assert_eq!(compute_reward(Some(b(0.02)), b(90_000.0), true), slow);
    assert_eq!(
        compute_reward(None, b(5.0), true),
        compute_reward(Some(b(0.0)), b(5.0), true)
    );
}

#[test]
fn records_round_trip_reward_fields_and_legacy_records_default() {
    let records = vec![
        // A full answer-call record with the reward fields.
        RoutingRecord {
            model: "nano".to_string(),
            prompt_tokens: 5,
            completion_tokens: 2,
            cost_usd: Some(b(0.001)),
            latency_ms: Some(b(800.0)),
            success: Some(true),
            reward: Some(b(0.77)),
            token_bucket: Some("small".to_string()),
            ..blank()
        },
        // A failed answer call.
        RoutingRecord {
            model: "opus".to_string(),
            success: Some(false),
            reward: Some(b(0.0)),
            token_bucket: Some("large".to_string()),
            ..blank()
        },
        // A classifier call: not an arm, no reward.
        RoutingRecord {
            model: "judge".to_string(),
            tier: "classifier".to_string(),
            prompt_tokens: 3,
            completion_tokens: 1,
            ..blank()
        },
        // A legacy record predating the reward fields.
        used("a", "m1", 10, 2),
    ];

    let arms = reward_summary(&records);
    assert_eq!(
        arms.get("nano", "small"),
        Some(&RewardSummary {
            count: 1,
            sum_reward: b(0.77),
        })
    );
    assert_eq!(
        arms.get("opus", "large"),
        Some(&RewardSummary {
            count: 1,
            sum_reward: b(0.0),
        })
    );
    assert!(arms.get("judge", "small").is_none());
    assert!(arms.get("m1", "small").is_none());
    assert_eq!(arms.len(), 2);
}

#[test]
fn rewards_of_one_arm_add_up() {
    let earned = |model: &str, tier: &str, reward: f64| RoutingRecord {
        model: model.to_string(),
        tier: tier.to_string(),
        reward: Some(b(reward)),
        token_bucket: Some("small".to_string()),
        ..blank()
    };
    let records = vec![
        earned("nano", "", 0.1),
        earned("nano", "weak", 0.2),
        earned("nano", "", 0.3),
        earned("nano", "classifier", 0.9),
        earned("", "", 0.9),
    ];
    let arms = reward_summary(&records);
    assert_eq!(arms.len(), 1);
    let (model, bucket, arm) = arms.row(0);
    assert_eq!((model.as_str(), bucket.as_str()), ("nano", "small"));
    assert_eq!(arm.count, 3);
    assert_eq!(f(arm.sum_reward), 0.1 + 0.2 + 0.3);
}

#[test]
fn arms_are_listed_by_model_and_bucket() {
    let earned = |model: &str, bucket: &str| RoutingRecord {
        model: model.to_string(),
        reward: Some(b(0.5)),
        token_bucket: Some(bucket.to_string()),
        ..blank()
    };
    let records = vec![
        earned("opus", "small"),
        earned("nano", "small"),
        earned("nano", "large"),
        earned("opus", "medium"),
        earned("nano", "small"),
    ];
    let arms = reward_summary(&records);
    let listed: Vec<(&str, &str, u64)> = (0..arms.len())
        .map(|i| arms.row(i))
        .map(|(model, bucket, arm)| (model.as_str(), bucket.as_str(), arm.count))
        .collect();
    assert_eq!(
        listed,
        vec![
            ("nano", "large", 1),
            ("nano", "small", 2),
            ("opus", "medium", 1),
            ("opus", "small", 1),
        ]
    );
}

fn headers(entries: Vec<(&'static str, &[u8])>) -> HeaderMap<HeaderValue> {
    let mut headers = HeaderMap::new();
    for (name, value) in entries {
        headers.append(name, HeaderValue::from_bytes(value).unwrap());
    }
    headers
}

fn metadata(session_id: Option<&str>, headers: Option<HeaderMap<HeaderValue>>) -> Metadata {
    Metadata {
        session_id: session_id.map(str::to_string),
        correlation_id: Some("request-1".to_string()),
        http_headers: headers,
        extra_metadata: None,
    }
}

#[test]
fn the_context_reads_headers_and_prefers_the_session_id() {
    let given = headers(vec![
        ("x-switchyard-intake-task", b"summarize"),
        ("x-switchyard-intake-task", b"second"),
        ("x-switchyard-trial-id", b""),
        ("proxy_x_session_id", b"legacy"),
    ]);
    let context = RoutingLogContext::from_metadata(&metadata(Some("s"), Some(given.clone())));
    assert_eq!(context.task.as_deref(), Some("summarize"));
    assert_eq!(context.trial_id, None);
    assert_eq!(context.session_id.as_deref(), Some("s"));
    assert_eq!(context.request_id.as_deref(), Some("request-1"));
    assert_eq!(context.token_bucket, None);

    let context = RoutingLogContext::from_metadata(&metadata(None, Some(given)))
        .with_estimated_tokens(1_000);
    assert_eq!(context.session_id.as_deref(), Some("legacy"));
    assert_eq!(context.token_bucket.as_deref(), Some("medium"));

    let hidden = headers(vec![("x-switchyard-trial-id", b"caf\xC3\xA9")]);
    let context = RoutingLogContext::from_metadata(&metadata(None, Some(hidden)));
    assert_eq!(context.trial_id, None);
    assert_eq!(context.session_id, None);
    let context = RoutingLogContext::from_metadata(&metadata(None, None));
    assert_eq!(context.task, None);
}

#[test]
fn headers_are_found_in_any_case() {
    let given = headers(vec![("x-switchyard-trial-id", b"t1")]);
    let found = |name: &str| nonempty_header(&given, name);
    assert_eq!(found("X-Switchyard-TRIAL-id").as_deref(), Some("t1"));
    assert_eq!(found("x-switchyard-trial"), None);
    assert_eq!(found("not a name"), None);
    assert_eq!(found(""), None);
    assert_eq!(found(&"x".repeat(100)), None);
}

#[test]
fn the_judge_verdict_is_read_from_the_attached_texts() {
    let mut given = metadata(None, None);
    let verdict = JudgeVerdict::from_metadata(&given, Some(b(0.5)), Some(b(0.5)));
    assert_eq!(
        (
            verdict.p_solve,
            verdict.capability_boundary,
            verdict.minimum_capability
        ),
        (None, None, None)
    );
    given.extra_metadata = Some(vec![
        ("switchyard.judge.p_solve".to_string(), "0.5".to_string()),
        (
            "switchyard.judge.capability_boundary".to_string(),
            "supported".to_string(),
        ),
    ]);
    let verdict = JudgeVerdict::from_metadata(&given, Some(b(0.5)), Some(b(0.5)));
    assert_eq!(verdict.p_solve, Some(b(0.5)));
    assert_eq!(verdict.capability_boundary.as_deref(), Some("supported"));
    assert_eq!(verdict.minimum_capability, None);
}

#[test]
fn a_finished_call_becomes_a_record() {
    let context = RoutingLogContext::from_metadata(&metadata(Some("s"), None))
        .with_estimated_tokens(10_001);
    let record = finished_record(
        context,
        "nano",
        None,
        Some(TokenUsage {
            prompt_tokens: u64::MAX,
            cached_tokens: 1,
            cache_creation_tokens: 2,
            completion_tokens: 3,
            reasoning_tokens: 4,
        }),
        Outcome {
            cost_usd: Some(b(0.25)),
            latency_ms: None,
            success: true,
            reward: Some(b(0.5)),
        },
        JudgeVerdict {
            p_solve: Some(b(0.9)),
            capability_boundary: None,
            minimum_capability: None,
        },
        1_518_568_087_133,
    );
    assert_eq!(record.ts, "2018-02-14T00:28:07.133Z");
    assert_eq!(record.session_id.as_deref(), Some("s"));
    assert_eq!(record.model, "nano");
    assert_eq!(record.tier, "");
    assert_eq!(record.total_tokens, u64::MAX);
    assert_eq!(record.reasoning_tokens, 4);
    assert_eq!(record.success, Some(true));
    assert_eq!(record.token_bucket.as_deref(), Some("large"));
    assert_eq!(record.judge_p_solve, Some(b(0.9)));
}

#[test]
fn timestamps_end_with_the_four_digit_years() {
    assert_eq!(timestamp(0).as_deref(), Some("1970-01-01T00:00:00.000Z"));
    assert_eq!(
        timestamp(253_402_300_799_999).as_deref(),
        Some("9999-12-31T23:59:59.999Z")
    );
    assert_eq!(timestamp(253_402_300_800_000), None);
}
