//! Arithmetic on bit patterns against the machine's own doubles.

use switchyard::binary64::Binary64;
use switchyard::thompson::token_bucket;

fn b(x: f64) -> Binary64 {
    Binary64 { bits: x.to_bits() }
}

fn same(r: Binary64, x: f64) -> bool {
    let y = f64::from_bits(r.bits);
    if x.is_nan() {
        y.is_nan()
    } else {
        r.bits == x.to_bits()
    }
}

#[test]
fn arithmetic_matches_the_machine() {
    let mut seed: u64 = 0x9E37_79B9_7F4A_7C15;
    let mut next = || {
        seed ^= seed << 13;
        seed ^= seed >> 7;
        seed ^= seed << 17;
        seed
    };
    let special: Vec<u64> = vec![
        0,
        1,
        2,
        0x000F_FFFF_FFFF_FFFF,
        0x0010_0000_0000_0000,
        0x7FEF_FFFF_FFFF_FFFF,
        0x7FF0_0000_0000_0000,
        0x7FF8_0000_0000_0000,
        0x8000_0000_0000_0000,
        0x8000_0000_0000_0001,
        0xFFF0_0000_0000_0000,
        1.0f64.to_bits(),
        (-1.0f64).to_bits(),
        0.1f64.to_bits(),
        3.0f64.to_bits(),
        f64::EPSILON.to_bits(),
    ];
    let mut pairs: Vec<(u64, u64)> = Vec::new();
    for &x in &special {
        for &y in &special {
            pairs.push((x, y));
        }
        for _ in 0..200 {
            pairs.push((x, next()));
            pairs.push((next(), x));
        }
    }
    for _ in 0..20_000 {
        let x = next();
        let y = next();
        pairs.push((x, y));
        // Close exponents, where alignment and cancellation matter.
        let near = (x & 0xFFF0_0000_0000_0000).wrapping_add((y % 140) << 52);
        pairs.push((x, near | (y & 0x000F_FFFF_FFFF_FFFF)));
        pairs.push((x, x ^ (1 << 63) ^ (y % 8)));
    }
    for (x, y) in pairs {
        let (fx, fy) = (f64::from_bits(x), f64::from_bits(y));
        let (bx, by) = (b(fx), b(fy));
        assert!(same(bx.add(by), fx + fy), "{fx:e} + {fy:e}");
        assert!(same(bx.sub(by), fx - fy), "{fx:e} - {fy:e}");
        assert!(same(bx.mul(by), fx * fy), "{fx:e} * {fy:e}");
        assert!(same(bx.div(by), fx / fy), "{fx:e} / {fy:e}");
        assert_eq!(bx.lt(by), fx < fy);
        assert_eq!(bx.le(by), fx <= fy);
        assert_eq!(bx.is_nan(), fx.is_nan());
        assert_eq!(bx.is_finite(), fx.is_finite());
    }
}

#[test]
fn token_buckets_split_at_their_boundaries() {
    assert_eq!(token_bucket(0), "small");
    assert_eq!(token_bucket(999), "small");
    assert_eq!(token_bucket(1_000), "medium");
    assert_eq!(token_bucket(10_000), "medium");
    assert_eq!(token_bucket(10_001), "large");
}

#[test]
fn arithmetic_keeps_the_order_of_numbers() {
    let numbers = [
        -1e300, -2.5, -1.0, -1e-310, -0.0, 0.0, 1e-310, 0.1, 0.3, 1.0, 1.0000000000000002, 7.5, 1e300,
    ];
    for (i, &low) in numbers.iter().enumerate() {
        for &high in &numbers[i..] {
            for &c in &numbers {
                let (a, z, c) = (b(low), b(high), b(c));
                assert!(a.add(c).le(z.add(c)));
                assert!(a.sub(c).le(z.sub(c)));
                assert!(c.sub(z).le(c.sub(a)));
                assert_eq!(a.add(c), c.add(a));
                if low >= 0.0 && !low.is_sign_negative() && f64::from_bits(c.bits) > 0.0 {
                    assert!(a.mul(c).le(z.mul(c)));
                }
            }
        }
        if low != 0.0 {
            assert_eq!(b(low).add(b(0.0)), b(low));
        }
    }
}

#[test]
fn selections_match_the_machine() {
    let numbers = [-3.0, -0.5, -0.0, 0.0, 0.25, 1.0, 2.0, f64::INFINITY, f64::NAN];
    for x in numbers {
        assert_eq!(b(x).abs().bits, x.abs().to_bits());
        assert!(same(b(x).clamp(b(0.0), b(1.0)), x.clamp(0.0, 1.0)));
        assert_eq!(
            b(x).is_within(b(0.0), b(1.0)),
            (0.0..=1.0).contains(&x)
        );
        assert!(same(b(x).min(b(1.0)), x.min(1.0)));
        assert!(same(b(1.0).min(b(x)), 1.0f64.min(x)));
        assert_eq!(b(x).is_nan(), x.is_nan());
        assert_eq!(b(x).is_finite(), x.is_finite());
    }
}
