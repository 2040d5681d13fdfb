//! Target selection from a verdict field and from learned rewards.

use serde_json::Value;
use switchyard::binary64::Binary64;
use switchyard::error::AlgorithmError;
use switchyard::model::ModelId;
use switchyard::selector::{LearnedTargetStat, TargetSelectorPolicy};
use switchyard::tables::TextMap;

fn b(x: f64) -> Binary64 {
    Binary64 { bits: x.to_bits() }
}

fn json(text: &str) -> Value {
    serde_json::from_str(text).unwrap()
}

fn targets(entries: &[(&str, &str)]) -> TextMap<ModelId> {
    let mut table = TextMap::new();
    for (label, target) in entries {
        table.insert(label.to_string(), ModelId::new(target));
    }
    table
}

fn learned(entries: &[(&str, f64, f64)]) -> TextMap<LearnedTargetStat> {
    let mut table = TextMap::new();
    for (label, alpha, beta) in entries {
        let stat = LearnedTargetStat {
            alpha: b(*alpha),
            beta: b(*beta),
        };
        table.insert(label.to_string(), stat);
    }
    table
}

fn two_targets(selector: &str) -> TargetSelectorPolicy {
    match TargetSelectorPolicy::new(
        selector.to_string(),
        targets(&[("opus", "model/opus"), ("sonnet", "model/sonnet")]),
    ) {
        Ok(policy) => policy,
        Err(error) => panic!("{error:?}"),
    }
}

fn one_target() -> TargetSelectorPolicy {
    match TargetSelectorPolicy::new("/target".to_string(), targets(&[("sonnet", "model/sonnet")])) {
        Ok(policy) => policy,
        Err(error) => panic!("{error:?}"),
    }
}

fn selected(policy: &TargetSelectorPolicy, verdict: &str) -> Option<String> {
    policy
        .to_classification(Some(&json(verdict)))
        .choice()
        .map(|target| target.as_str().to_string())
}

#[test]
fn a_verdict_selects_its_mapped_target() {
    let policy = two_targets("/decision/target");
    assert_eq!(
        selected(&policy, r#"{"decision": {"target": "sonnet"}}"#).as_deref(),
        Some("model/sonnet")
    );
}

#[test]
fn a_missing_or_unknown_target_abstains() {
    let policy = one_target();
    assert_eq!(selected(&policy, r#"{"target": "unknown"}"#), None);
    assert_eq!(selected(&policy, r#"{"reason": "missing"}"#), None);
    assert_eq!(selected(&policy, r#"{"target": 7}"#), None);
    assert_eq!(selected(&policy, "\"sonnet\""), None);
    assert!(policy.to_classification(None).choice().is_none());
}

#[test]
fn an_invalid_json_pointer_is_rejected() {
    let result = TargetSelectorPolicy::new("/target~2name".to_string(), TextMap::new());
    assert!(
        matches!(result, Err(AlgorithmError::InvalidSelector { message })
                if message.contains("valid JSON Pointer"))
    );
}

#[test]
fn a_rejected_selector_says_what_is_wrong() {
    let message = |selector: &str| {
        match TargetSelectorPolicy::new(selector.to_string(), TextMap::new()) {
            Err(AlgorithmError::InvalidSelector { message }) => message,
            _ => panic!("expected an invalid selector"),
        }
    };
    let prefix = "policy selector is not a valid JSON Pointer: json pointer failed to parse; ";
    assert_eq!(
        message("a/~2"),
        format!("{prefix}does not start with a slash ('/') and is not empty")
    );
    // Offsets count bytes: the token with the first stray tilde starts after `/ok~0/é`.
    for (selector, offset) in [("/~", 0), ("/ok~0/\u{e9}/a~x/b~", 8), ("/a/b~01~~1", 2)] {
        assert_eq!(
            message(selector),
            format!(
                "{prefix}the first token in the partial-pointer starting at offset {offset} is malformed"
            )
        );
    }
}

#[test]
fn the_root_pointer_is_rejected() {
    let result = TargetSelectorPolicy::new(String::new(), TextMap::new());
    assert!(matches!(result, Err(AlgorithmError::RootSelector)));
    assert!(TargetSelectorPolicy::new("/a~1b~0c".to_string(), TextMap::new()).is_ok());
    assert!(TargetSelectorPolicy::new("a".to_string(), TextMap::new()).is_err());
    assert!(TargetSelectorPolicy::new("/a~".to_string(), TextMap::new()).is_err());
}

#[test]
fn learned_stats_switch_selection_to_the_stronger_target() {
    // The verdict names "sonnet", but learned stats show "opus" outperforming it, so the
    // deterministic pick fully replaces the verdict with the winner.
    let policy = two_targets("/decision/target")
        .with_learned(learned(&[("sonnet", 2.0, 8.0), ("opus", 9.0, 1.0)]));
    assert_eq!(
        selected(&policy, r#"{"decision": {"target": "sonnet"}}"#).as_deref(),
        Some("model/opus")
    );
}

#[test]
fn learned_stats_ignore_labels_without_a_target() {
    // A learned stat for an unmapped label cannot name a destination, so it is dropped: the
    // remaining mapped label decides the pick.
    let policy =
        one_target().with_learned(learned(&[("ghost", 99.0, 1.0), ("sonnet", 3.0, 3.0)]));
    assert_eq!(policy.learned.len(), 1);
    assert_eq!(
        selected(&policy, r#"{"target": "unknown"}"#).as_deref(),
        Some("model/sonnet")
    );
}

#[test]
fn without_learned_stats_the_verdict_still_decides() {
    // An empty learned map keeps the verdict-driven behavior unchanged.
    let policy = two_targets("/target").with_learned(TextMap::new());
    assert_eq!(
        selected(&policy, r#"{"target": "opus"}"#).as_deref(),
        Some("model/opus")
    );
}

#[test]
fn equal_means_go_to_the_last_label() {
    let policy = two_targets("/target")
        .with_learned(learned(&[("sonnet", 1.0, 1.0), ("opus", 4.0, 4.0)]));
    assert_eq!(
        selected(&policy, r#"{"target": "opus"}"#).as_deref(),
        Some("model/sonnet")
    );
    let stat = LearnedTargetStat {
        alpha: b(9.0),
        beta: b(1.0),
    };
    assert_eq!(stat.mean(), b(0.9));
}

#[test]
fn tables_keep_their_keys_in_order() {
    let mut table: TextMap<u32> = TextMap::new();
    for (i, key) in ["b", "a", "c", "aa", "", "b"].iter().enumerate() {
        table.insert(key.to_string(), i as u32);
    }
    let keys: Vec<&str> = (0..table.len()).map(|i| table.key_at(i).as_str()).collect();
    assert_eq!(keys, vec!["", "a", "aa", "b", "c"]);
    assert_eq!(table.get("b"), Some(&5));
    assert_eq!(table.get("d"), None);
    assert_eq!(*table.value_at(2), 3);
}

#[test]
fn selectors_go_through_fields_and_lists() {
    let verdict = r#"{"a": [{"b/c~d": "opus"}, "sonnet"], "0": "sonnet", "": "opus", "~1": "sonnet"}"#;
    for (selector, expected) in [
        ("/a/0/b~1c~0d", Some("model/opus")),
        ("/a/1", Some("model/sonnet")),
        ("/0", Some("model/sonnet")),
        ("/", Some("model/opus")),
        ("/~01", Some("model/sonnet")),
        ("/a/2", None),
        ("/a/01", None),
        ("/a/+1", None),
        ("/a/-", None),
        ("/a/", None),
        ("/a/99999999999999999999999", None),
        ("/0/x", None),
        ("/a/0", None),
    ] {
        let policy = two_targets(selector);
        assert_eq!(selected(&policy, verdict).as_deref(), expected, "{selector}");
    }
}

#[test]
fn the_decision_follows_what_the_selector_found() {
    let policy = two_targets("/decision/target");
    let choice = |found: Option<&Value>| {
        policy
            .on_found(found)
            .choice()
            .map(|target| target.as_str().to_string())
    };
    assert_eq!(choice(Some(&json("\"opus\""))).as_deref(), Some("model/opus"));
    assert_eq!(choice(Some(&json("\"other\""))), None);
    assert_eq!(choice(Some(&json("{\"target\": \"opus\"}"))), None);
    assert_eq!(choice(None), None);
}
