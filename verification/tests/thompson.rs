//! Bandit arms, and draws from them with the machine's own mathematics.

use std::cell::RefCell;

use rand::rngs::StdRng;
use rand::{RngExt, SeedableRng};
use switchyard::binary64::Binary64;
use switchyard::messages::{ContentBlock, Message, Role};
use switchyard::model::ModelId;
use switchyard::request::{LlmRequest, Request};
use switchyard::thompson::{
    beta_sample, estimate_request_tokens, gamma_boost, gamma_compare, gamma_cube, gamma_plan,
    gamma_slope, gamma_try, GammaPlan, GammaTry, ThompsonSampler,
};

fn b(x: f64) -> Binary64 {
    Binary64 { bits: x.to_bits() }
}

fn f(x: Binary64) -> f64 {
    f64::from_bits(x.bits)
}

fn standard_normal(rng: &mut StdRng) -> f64 {
    let u1 = rng.random::<f64>().max(f64::MIN_POSITIVE);
    let u2 = rng.random::<f64>();
    (-2.0 * u1.ln()).sqrt() * (2.0 * std::f64::consts::PI * u2).cos()
}

fn gamma_sample(rng: &mut StdRng, shape: f64) -> f64 {
    match gamma_plan(b(shape)) {
        GammaPlan::Boost { shape, power } => {
            let draw = gamma_sample(rng, f(shape));
            f(gamma_boost(b(draw), b(rng.random::<f64>().powf(f(power)))))
        }
        GammaPlan::Try { d, radicand } => loop {
            let slope = gamma_slope(b(f(radicand).sqrt()));
            let x = b(standard_normal(rng));
            let cube = match gamma_cube(slope, x) {
                Some(cube) => cube,
                None => continue,
            };
            let u = rng.random::<f64>();
            match gamma_try(d, x, cube, b(u)) {
                GammaTry::Accept(draw) => return f(draw),
                GammaTry::Compare => {
                    if let Some(draw) = gamma_compare(d, x, cube, b(u.ln()), b(f(cube).ln())) {
                        return f(draw);
                    }
                }
            }
        },
    }
}

fn sample(sampler: &ThompsonSampler, rng: &mut StdRng, target: &ModelId, bucket: &str) -> f64 {
    let rng = RefCell::new(rng);
    f(sampler.sample(target, bucket, |shape| {
        b(gamma_sample(&mut rng.borrow_mut(), f(shape)))
    }))
}

#[test]
fn an_unseen_arm_samples_from_the_uniform_prior() {
    let sampler = ThompsonSampler::new();
    let mut rng = StdRng::seed_from_u64(7);
    let target = ModelId::new("m");
    // Beta(1,1) is uniform; samples stay in [0,1] and are not degenerate.
    for _ in 0..100 {
        let s = sample(&sampler, &mut rng, &target, "small");
        assert!((0.0..=1.0).contains(&s));
    }
    assert_eq!(f(sampler.mean(&target, "small")), 0.5);
}

#[test]
fn repeated_failures_shift_an_arm_down() {
    let mut sampler = ThompsonSampler::new();
    let mut rng = StdRng::seed_from_u64(7);
    let target = ModelId::new("m");
    // Ten failures: alpha = 0 + 1, beta = 10 + 1.
    sampler.update_arm(&target, "small", b(1.0), b(11.0));
    assert!(f(sampler.mean(&target, "small")) < 0.1);
    // Samples cluster near the low mean rather than the uniform 0.5.
    let sum: f64 = (0..200)
        .map(|_| sample(&sampler, &mut rng, &target, "small"))
        .sum();
    assert!(sum / 200.0 < 0.2, "mean sample {}", sum / 200.0);
}

#[test]
fn repeated_successes_shift_an_arm_up() {
    let mut sampler = ThompsonSampler::new();
    let mut rng = StdRng::seed_from_u64(7);
    let target = ModelId::new("m");
    sampler.update_arm(&target, "small", b(21.0), b(1.0));
    assert!(f(sampler.mean(&target, "small")) > 0.9);
    let sum: f64 = (0..200)
        .map(|_| sample(&sampler, &mut rng, &target, "small"))
        .sum();
    assert!(sum / 200.0 > 0.8, "mean sample {}", sum / 200.0);
}

#[test]
fn arms_are_independent_per_bucket() {
    let mut sampler = ThompsonSampler::new();
    let target = ModelId::new("m");
    sampler.update_arm(&target, "small", b(1.0), b(11.0));
    sampler.update_arm(&target, "large", b(21.0), b(1.0));
    assert!(f(sampler.mean(&target, "small")) < 0.1);
    assert!(f(sampler.mean(&target, "large")) > 0.9);
}

#[test]
fn gamma_steps_follow_the_formulas() {
    for shape in [1e-10, 0.25, 0.999, 1.0, 1.5, 21.0, 101.0] {
        match gamma_plan(b(shape)) {
            GammaPlan::Boost { shape: boosted, power } => {
                assert!(shape < 1.0);
                assert_eq!(f(boosted), shape + 1.0);
                assert_eq!(f(power), 1.0 / shape);
                assert!(matches!(gamma_plan(boosted), GammaPlan::Try { .. }));
            }
            GammaPlan::Try { d, radicand } => {
                assert!(shape >= 1.0);
                assert_eq!(f(d), shape - 1.0 / 3.0);
                assert_eq!(f(radicand), 9.0 * (shape - 1.0 / 3.0));
            }
        }
    }
    let mut seen = [false; 3];
    for i in 0..4_000 {
        let d = 2.0 / 3.0 + (i % 7) as f64;
        let c = 1.0 / (9.0 * d).sqrt();
        let x = (i % 61) as f64 / 10.0 - 3.0;
        let u = (i % 97) as f64 / 97.0;
        let v = 1.0 + c * x;
        let cube = v * v * v;
        let squeeze = 1.0 - 0.0331 * (x * x) * (x * x);
        let held = match gamma_cube(b(c), b(x)) {
            Some(held) => held,
            None => {
                seen[0] = true;
                assert!(v <= 0.0);
                continue;
            }
        };
        assert!(v > 0.0);
        assert_eq!(f(held), cube);
        match gamma_try(b(d), b(x), held, b(u)) {
            GammaTry::Accept(draw) => {
                seen[1] = true;
                assert!(u < squeeze);
                assert_eq!(f(draw), d * cube);
            }
            GammaTry::Compare => {
                seen[2] = true;
                assert!(u >= squeeze);
                let bound = 0.5 * x * x + d * (1.0 - cube + cube.ln());
                let expected = if u.ln() < bound { Some(d * cube) } else { None };
                let got = gamma_compare(b(d), b(x), held, b(u.ln()), b(cube.ln()));
                assert_eq!(got.map(f), expected);
            }
        }
    }
    assert_eq!(seen, [true, true, true]);
}

#[test]
fn vanishing_draws_sample_one_half() {
    assert_eq!(f(beta_sample(b(0.0), b(0.0))), 0.5);
    assert_eq!(f(beta_sample(b(3.0), b(1.0))), 0.75);
    assert_eq!(f(beta_sample(b(1.0), b(f64::MAX))), 1.0 / f64::MAX);
    let mut sampler = ThompsonSampler::new();
    sampler.update_arm(&ModelId::new("m"), "small", b(f64::NAN), b(0.0));
    let (alpha, beta) = sampler.arm(&ModelId::new("m"), "small").gamma_shapes();
    assert_eq!((f(alpha), f(beta)), (1e-10, 1e-10));
}

#[test]
fn token_estimates_count_message_text() {
    let request = Request {
        llm_request: LlmRequest {
            messages: vec![
                Message::text(Role::User, "12345678"),
                Message {
                    role: Role::Assistant,
                    content: vec![
                        ContentBlock::Text {
                            text: "abc".to_string(),
                        },
                        ContentBlock::Other(serde_json::Value::Null),
                        ContentBlock::Text {
                            text: "de".to_string(),
                        },
                    ],
                },
                // One character of four bytes.
                Message::text(Role::User, "\u{1F600}"),
            ],
            ..LlmRequest::empty()
        },
        raw_request: None,
        metadata: None,
    };
    // 8 + (3 + 1 + 2) + 1 characters.
    assert_eq!(estimate_request_tokens(&request), 15 / 4);
}

#[test]
fn token_estimates_count_characters_not_bytes() {
    let request = Request {
        llm_request: LlmRequest {
            messages: vec![Message::text(Role::User, &"\u{e9}".repeat(8))],
            ..LlmRequest::empty()
        },
        raw_request: None,
        metadata: None,
    };
    assert_eq!(estimate_request_tokens(&request), 2);
}

#[test]
fn samples_of_odd_arms_are_probabilities() {
    let mut sampler = ThompsonSampler::new();
    let mut rng = StdRng::seed_from_u64(11);
    let target = ModelId::new("m");
    let odd = [0.0, -3.0, 1e-12, 0.5, 1.0, 1e15];
    for alpha in odd {
        for beta in odd {
            sampler.update_arm(&target, "small", b(alpha), b(beta));
            for _ in 0..20 {
                let s = sample(&sampler, &mut rng, &target, "small");
                assert!((0.0..=1.0).contains(&s), "{alpha} {beta} {s}");
            }
        }
    }
    assert_eq!(f(gamma_boost(b(3.0), b(0.25))), 0.75);
    assert_eq!(f(gamma_slope(b(4.0))), 0.25);
    assert_eq!(f(sampler.sample(&target, "large", |_| b(1.0))), 0.5);
    // The draws are made of the arm's own shapes.
    sampler.update_arm(&target, "small", b(-3.0), b(6.0));
    let shapes = RefCell::new(Vec::new());
    let fixed = sampler.sample(&target, "small", |shape| {
        shapes.borrow_mut().push(f(shape));
        b(if f(shape) < 1.0 { 1.0 } else { 3.0 })
    });
    assert_eq!(*shapes.borrow(), vec![1e-10, 6.0]);
    assert_eq!(f(fixed), 0.25);
}
