//! Doubles against the machine's own.
use geofast::double::Double;
use geofast::geom::radians;
use geofast::ingest::{m_per_ft, to_degrees};
use geofast::search::to_radians;

fn d(x: f64) -> Double {
    Double::from_bits(x.to_bits())
}

fn f(x: Double) -> f64 {
    f64::from_bits(x.to_bits())
}

fn same_bits(a: f64, b: f64) -> bool {
    (a.is_nan() && b.is_nan()) || a.to_bits() == b.to_bits()
}

fn next(state: &mut u64) -> u64 {
    *state = state.wrapping_mul(6364136223846793005).wrapping_add(1442695040888963407);
    let x = *state;
    (x >> 29) ^ x ^ (x << 17)
}

/// Numbers of all kinds: edges, and some of every size.
fn samples() -> Vec<f64> {
    let mut v = vec![
        0.0, -0.0, 1.0, -1.0, 0.5, 1.5, 2.5, -2.5, 3.0, 10.0, 180.0, 43560.0, 1e-9, 1e-6, 0.95, 83.3,
        f64::INFINITY, f64::NEG_INFINITY, f64::NAN, f64::MAX, f64::MIN, f64::MIN_POSITIVE, f64::EPSILON,
        4503599627370495.5, 4503599627370496.0, 9007199254740991.0, 9007199254740993.0, 1.0e308,
        f64::from_bits(1), f64::from_bits(2), f64::from_bits(0x000F_FFFF_FFFF_FFFF),
        f64::from_bits(0x3FEF_FFFF_FFFF_FFFF), f64::from_bits(0x3FF0_0000_0000_0001),
    ];
    let mut s = 12345u64;
    for _ in 0..60 {
        v.push(f64::from_bits(next(&mut s)));
    }
    for _ in 0..40 {
        v.push((next(&mut s) % 2_000_000) as f64 / 1000.0 - 1000.0);
    }
    for _ in 0..20 {
        v.push(f64::from_bits(next(&mut s) & 0x001F_FFFF_FFFF_FFFF));
    }
    v
}

#[test]
fn sums_and_differences() {
    for &a in &samples() {
        for &b in &samples() {
            assert!(same_bits(f(d(a).plus(d(b))), a + b), "{a:e} + {b:e}");
            assert!(same_bits(f(d(a).minus(d(b))), a - b), "{a:e} - {b:e}");
        }
    }
}

#[test]
fn products() {
    for &a in &samples() {
        for &b in &samples() {
            assert!(same_bits(f(d(a).times(d(b))), a * b), "{a:e} * {b:e}");
        }
    }
}

#[test]
fn quotients() {
    for &a in &samples() {
        for &b in &samples() {
            assert!(same_bits(f(d(a).over(d(b))), a / b), "{a:e} / {b:e}");
        }
    }
}

#[test]
fn remainders() {
    for &a in &samples() {
        for &b in &samples() {
            assert!(same_bits(f(d(a).rem(d(b))), a % b), "{a:e} % {b:e}");
            assert!(
                same_bits(f(d(a).rem_euclid(d(b))), a.rem_euclid(b)),
                "{a:e} mod {b:e}"
            );
        }
    }
}

#[test]
fn comparisons() {
    for &a in &samples() {
        for &b in &samples() {
            assert_eq!(d(a).lt(d(b)), a < b);
            assert_eq!(d(a).le(d(b)), a <= b);
            assert_eq!(d(a).same(d(b)), a == b);
            let (lo, hi) = (f(d(a).min(d(b))), f(d(a).max(d(b))));
            assert!(lo == a.min(b) || (lo.is_nan() && a.min(b).is_nan()));
            assert!(hi == a.max(b) || (hi.is_nan() && a.max(b).is_nan()));
        }
        let c = f(d(a).clamp(d(0.0), d(1.0)));
        assert!(c == a.clamp(0.0, 1.0) || (c.is_nan() && a.is_nan()));
    }
}

#[test]
fn signs() {
    for &a in &samples() {
        assert!(same_bits(f(d(a).negated()), -a));
        assert!(same_bits(f(d(a).abs()), a.abs()));
        assert_eq!(d(a).is_nan(), a.is_nan());
        assert!(same_bits(f(d(a)), a));
    }
}

#[test]
fn whole_numbers() {
    for &a in &samples() {
        assert!(same_bits(f(d(a).ceil()), a.ceil()), "ceil {a:e}");
        assert!(same_bits(f(d(a).round()), a.round()), "round {a:e}");
        assert_eq!(d(a).to_index(), a as usize, "index {a:e}");
        let n = a as i64;
        assert!(same_bits(f(Double::of_int(n)), n as f64), "{n}");
        let k = a.abs() as usize;
        assert!(same_bits(f(Double::of_count(k)), k as f64), "{k}");
    }
    assert_eq!(f(Double::of_int(i64::MIN)), i64::MIN as f64);
    assert_eq!(f(Double::of_int(i64::MAX)), i64::MAX as f64);
    assert_eq!(f(Double::of_count(usize::MAX)), usize::MAX as f64);
}

#[test]
fn ratios_are_decimal_literals() {
    assert_eq!(f(Double::ratio(95, 100)), 0.95);
    assert_eq!(f(Double::ratio(833, 10)), 83.3);
    assert_eq!(f(Double::ratio(1, 1_000_000_000)), 1e-9);
    assert_eq!(f(Double::ratio(1, 1_000_000)), 1e-6);
    assert_eq!(f(Double::ratio(1, 1_000_000_000_000)), 1e-12);
    assert_eq!(f(Double::ratio(3048, 10000)), 0.3048);
    assert_eq!(f(m_per_ft()), 0.3048);
    assert_eq!(f(Double::ratio(0, 7)), 0.0);
}

#[test]
fn constants() {
    assert_eq!(f(Double::pi()), std::f64::consts::PI);
    assert!(same_bits(f(Double::zero()), 0.0));
    assert!(same_bits(f(Double::negative_zero()), -0.0));
    assert_eq!(f(Double::infinity()), f64::INFINITY);
}

#[test]
fn angles() {
    for &a in &samples() {
        assert!(same_bits(f(radians(d(a))), (a * std::f64::consts::PI) / 180.0));
        assert!(same_bits(f(to_radians(d(a))), a.to_radians()), "{a:e}");
        assert!(same_bits(f(to_degrees(d(a))), a.to_degrees()), "{a:e}");
    }
}

#[test]
fn sums_start_at_negative_zero() {
    let none: [f64; 0] = [];
    assert!(same_bits(none.iter().sum::<f64>(), f(Double::negative_zero())));
    let zeros = [-0.0f64, -0.0];
    let sum = Double::negative_zero().plus(d(-0.0)).plus(d(-0.0));
    assert!(same_bits(zeros.iter().sum::<f64>(), f(sum)));
}

#[test]
fn sorting_puts_what_is_no_number_last() {
    let v: Vec<Double> = [3.0, f64::NAN, -1.0, 0.0, -0.0, 2.0].iter().map(|&x| d(x)).collect();
    let s: Vec<f64> = geofast::sorting::sort_doubles(&v).into_iter().map(f).collect();
    assert_eq!(&s[..5], &[-1.0, 0.0, -0.0, 2.0, 3.0]);
    assert!(s[1].is_sign_positive() && s[2].is_sign_negative());
    assert!(s[5].is_nan());
    assert_eq!(geofast::sorting::argsort(&v), vec![2, 3, 4, 5, 0, 1]);
}

#[test]
fn sums_keep_order_and_commute() {
    let v = samples();
    for &a in &v {
        for &b in &v {
            let (s, t) = (d(a).plus(d(b)), d(b).plus(d(a)));
            assert!(same_bits(f(s), f(t)));
            for &c in v.iter().take(40) {
                let (x, y) = (d(a).plus(d(c)), d(b).plus(d(c)));
                if a <= b && !x.is_nan() && !y.is_nan() {
                    assert!(x.le(y));
                }
            }
        }
    }
}

#[test]
fn sums_are_the_nearest_doubles() {
    // halfway between two doubles: the even one
    assert_eq!(f(d(1.0).plus(d(f64::EPSILON / 2.0))), 1.0);
    let odd = 1.0 + f64::EPSILON;
    assert_eq!(f(d(odd).plus(d(f64::EPSILON / 2.0))), 1.0 + 2.0 * f64::EPSILON);
    // just beyond halfway
    assert_eq!(f(d(1.0).plus(d(f64::EPSILON / 2.0 * (1.0 + f64::EPSILON)))), odd);
    // beyond the greatest double
    assert_eq!(f(d(f64::MAX).plus(d(f64::MAX))), f64::INFINITY);
    assert_eq!(f(d(f64::MAX).plus(d(1.0))), f64::MAX);
}

#[test]
fn whole_numbers_are_exact() {
    let v = [0i64, 1, 2, 7, 45, 90, 179, 180, 4503599627370495, 9007199254740991];
    for a in v {
        assert_eq!(f(Double::of_int(a)), a as f64);
        assert_eq!(f(Double::of_int(a).round()), a as f64);
        assert_eq!(Double::of_int(a).to_index(), a as usize);
        for b in v {
            assert_eq!(Double::of_int(a).lt(Double::of_int(b)), a < b);
            if a + b < 9007199254740992 {
                assert_eq!(Double::of_int(a).plus(Double::of_int(b)), Double::of_int(a + b));
            }
            if b > 0 && a < 1000 && b < 1000 {
                assert_eq!(Double::of_int(a * b).over(Double::of_int(b)), Double::of_int(a));
            }
        }
    }
}
