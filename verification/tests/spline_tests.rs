use bspline::rational::Rat;
use bspline::spline_eval::SplineDeriv;
use bspline::spline_eval::cardinal_b_spline;
use bspline::spline_eval::cardinal_b_spline_double_prime;
use bspline::spline_eval::cardinal_b_spline_prime;
use bspline::spline_eval::forward_cardinal_b_spline;

fn b(n: u32, num: i128, den: i128) -> Rat {
    cardinal_b_spline(n, &Rat::new(num, den)).unwrap()
}

fn b_prime(n: u32, num: i128, den: i128) -> SplineDeriv {
    cardinal_b_spline_prime(n, &Rat::new(num, den)).unwrap()
}

fn b_prime_fin(n: u32, num: i128, den: i128) -> Rat {
    match b_prime(n, num, den) {
        SplineDeriv::Fin(v) => v,
        _ => panic!("expected a finite derivative"),
    }
}

fn b_second(n: u32, num: i128, den: i128) -> Rat {
    cardinal_b_spline_double_prime(n, &Rat::new(num, den)).unwrap()
}

#[test]
fn test_box() {
    // Outside support.
    assert!(b(0, 11, 10).eq_rat(&Rat::new(0, 1)));
    assert!(b_prime_fin(0, 11, 10).eq_rat(&Rat::new(0, 1)));
    assert!(b(0, -11, 10).eq_rat(&Rat::new(0, 1)));

    // At the boundary.
    assert!(b(0, 1, 2).eq_rat(&Rat::new(1, 2)));
    assert!(matches!(b_prime(0, 1, 2), SplineDeriv::PlusInf));

    // Inside support: t = -1/2 + k/256 for k = 1..255.
    for k in 1..256i128 {
        let t = k - 128;
        assert!(b(0, t, 256).eq_rat(&Rat::new(1, 1)));
        assert!(b_prime_fin(0, t, 256).eq_rat(&Rat::new(0, 1)));
    }

    // Forward cardinal B-spline: t = k/256 for 0 < t < 1.
    for k in 1..256i128 {
        let v = forward_cardinal_b_spline(0, &Rat::new(k, 256)).unwrap();
        assert!(v.eq_rat(&Rat::new(1, 1)));
    }
}

#[test]
fn test_hat() {
    // Outside support.
    assert!(b(1, 21, 10).eq_rat(&Rat::new(0, 1)));
    assert!(b(1, -21, 10).eq_rat(&Rat::new(0, 1)));

    // t = k/256 for -1 <= t <= 1.
    for k in -256..257i128 {
        let expected = Rat::new(256 - k.abs(), 256);
        assert!(b(1, k, 256).eq_rat(&expected));

        let expected_prime = if k == -256 {
            Rat::new(1, 2)
        } else if k == 256 {
            Rat::new(-1, 2)
        } else if k < 0 {
            Rat::new(1, 1)
        } else if k == 0 {
            Rat::new(0, 1)
        } else {
            Rat::new(-1, 1)
        };
        assert!(b_prime_fin(1, k, 256).eq_rat(&expected_prime));
    }

    // Forward cardinal B-spline: expected 1 - |t - 1| on 0 <= t < 2.
    for k in 0..512i128 {
        let v = forward_cardinal_b_spline(1, &Rat::new(k, 256)).unwrap();
        let expected = Rat::new(256 - (k - 256).abs(), 256);
        assert!(v.eq_rat(&expected));
    }
}

fn b2_reference(k: i128) -> Rat {
    // The quadratic B-spline at k/256, in closed form.
    let a = k.abs();
    if a >= 384 {
        Rat::new(0, 1)
    } else if a >= 128 {
        // (|t| - 3/2)^2 / 2
        let d = a - 384;
        Rat::new(d * d, 2 * 256 * 256)
    } else {
        // (2 - (|t| - 1/2)^2 - (|t| + 1/2)^2) / 2
        let t1 = a - 128;
        let t2 = a + 128;
        Rat::new(2 * 256 * 256 - t1 * t1 - t2 * t2, 2 * 256 * 256)
    }
}

fn b2_prime_reference(k: i128) -> Rat {
    let a = k.abs();
    let sign = if k < 0 { -1 } else { 1 };
    if a >= 384 {
        Rat::new(0, 1)
    } else if a >= 128 {
        Rat::new((a - 384) * sign, 256)
    } else {
        Rat::new(-2 * a * sign, 256)
    }
}

#[test]
fn test_quadratic() {
    for k in -1280..1281i128 {
        assert!(b(2, k, 256).eq_rat(&b2_reference(k)));
        assert!(b_prime_fin(2, k, 256).eq_rat(&b2_prime_reference(k)));
    }
}

#[test]
fn test_cubic() {
    assert!(b(3, 0, 1).eq_rat(&Rat::new(2, 3)));
    assert!(b(3, 1, 1).eq_rat(&Rat::new(1, 6)));
    assert!(b(3, 2, 1).eq_rat(&Rat::new(0, 1)));
}

#[test]
fn test_quintic() {
    assert!(b(5, 0, 1).eq_rat(&Rat::new(11, 20)));
    assert!(b(5, 1, 1).eq_rat(&Rat::new(13, 60)));
    assert!(b(5, 2, 1).eq_rat(&Rat::new(1, 120)));
    assert!(b(5, 3, 1).eq_rat(&Rat::new(0, 1)));
}

fn check_derivative_identities(n: u32, k: i128) {
    // B'_n(t) == B_{n-1}(t + 1/2) - B_{n-1}(t - 1/2), exactly.
    let lo = b(n - 1, 2 * k - 256, 512);
    let hi = b(n - 1, 2 * k + 256, 512);
    let expected = hi.sub(&lo);
    assert!(b_prime_fin(n, k, 256).eq_rat(&expected));

    // B''_n(t) == B_{n-2}(t + 1) - 2 B_{n-2}(t) + B_{n-2}(t - 1), exactly.
    let a = b(n - 2, k + 256, 256);
    let m = b(n - 2, k, 256);
    let z = b(n - 2, k - 256, 256);
    let expected_2nd = a.sub(&Rat::new(2, 1).mul(&m)).add(&z);
    assert!(b_second(n, k, 256).eq_rat(&expected_2nd));
}

#[test]
fn test_b_spline_derivatives_n3() {
    // supp = 2; t from -3 to 3 in steps of 1/256.
    for k in -768..769i128 {
        check_derivative_identities(3, k);
    }
}

#[test]
fn test_b_spline_derivatives_n4() {
    // supp = 5/2; t from -7/2 to 7/2 in steps of 1/256.
    for k in -896..897i128 {
        check_derivative_identities(4, k);
    }
}

#[test]
fn test_b_spline_derivatives_n5() {
    // supp = 3; t from -4 to 4 in steps of 1/256.
    for k in -1024..1025i128 {
        check_derivative_identities(5, k);
    }
}

fn translate_sum(n: u32, num: i128, den: i128) -> Rat {
    // Sum of B_n(x0 + k) while x0 + k < (n + 1) / 2.
    let mut sum = Rat::new(0, 1);
    let mut num = num;
    // x < (n + 1) / 2  <=>  2 * num < (n + 1) * den
    while 2 * num < (n as i128 + 1) * den {
        sum = sum.add(&cardinal_b_spline(n, &Rat::new(num, den)).unwrap());
        num += den;
    }
    sum
}

#[test]
fn test_partition_of_unity() {
    let one = Rat::new(1, 1);
    // Order 1, starting points in [-1, 0).
    for start in [(-9, 10), (-5, 10), (-1, 10)] {
        assert!(translate_sum(1, start.0, start.1).eq_rat(&one));
    }
    // Order 2, starting points in [-3/2, -1/2).
    for start in [(-14, 10), (-10, 10), (-6, 10)] {
        assert!(translate_sum(2, start.0, start.1).eq_rat(&one));
    }
    // Order 3, starting points in [-2, -1).
    for start in [(-19, 10), (-15, 10), (-11, 10)] {
        assert!(translate_sum(3, start.0, start.1).eq_rat(&one));
    }
    // Order 4, starting points in [-5/2, -3/2).
    for start in [(-24, 10), (-20, 10), (-16, 10)] {
        assert!(translate_sum(4, start.0, start.1).eq_rat(&one));
    }
}

fn translate_sum_full(n: u32, num: i128, den: i128) -> Rat {
    // The sum of all n + 2 translates that can meet the support, boundary
    // terms included; at order 0 the two boundary halves combine.
    let mut sum = Rat::new(0, 1);
    let mut num = num;
    for _ in 0..n + 2 {
        sum = sum.add(&cardinal_b_spline(n, &Rat::new(num, den)).unwrap());
        num += den;
    }
    sum
}

#[test]
fn test_partition_of_unity_edge_orders() {
    let one = Rat::new(1, 1);
    // Order 0, starting points in [-1/2, 1/2), the boundary included.
    for start in [(-1, 2), (-3, 10), (0, 10), (4, 10)] {
        assert!(translate_sum_full(0, start.0, start.1).eq_rat(&one));
    }
    // Order 5, starting points in [-3, -2), the boundary included.
    for start in [(-3, 1), (-29, 10), (-25, 10), (-21, 10)] {
        assert!(translate_sum_full(5, start.0, start.1).eq_rat(&one));
    }
}

fn sum_close_to_one(sum: &Rat, tolerance: i128) -> bool {
    // |sum - 1| <= tolerance, exactly.
    let diff = sum.sub(&Rat::new(1, 1));
    diff.num().abs() <= tolerance * diff.den()
}

#[test]
fn test_partition_of_unity_n2() {
    for start in [(-12, 10), (-5, 10), (0, 10), (3, 10), (10, 10)] {
        let sum = translate_sum(2, start.0, start.1);
        assert!(sum_close_to_one(&sum, 2));
    }
}

#[test]
fn test_partition_of_unity_n3() {
    for start in [(-15, 10), (-7, 10), (0, 10), (4, 10), (12, 10)] {
        let sum = translate_sum(3, start.0, start.1);
        assert!(sum_close_to_one(&sum, 3));
    }
}

#[test]
fn test_second_derivative_low_orders_refused() {
    for n in 0..3u32 {
        let x = Rat::new(1, 4);
        assert!(cardinal_b_spline_double_prime(n, &x).is_none());
    }
    assert!(cardinal_b_spline_double_prime(3, &Rat::new(1, 4)).is_some());
}

#[test]
fn test_evenness_and_oddness() {
    for k in -512..513i128 {
        // Evenness of the value, exactly.
        assert!(b(4, k, 256).eq_rat(&b(4, -k, 256)));
        // Oddness of the first derivative, exactly.
        let lhs = b_prime_fin(3, -k, 256);
        let rhs = b_prime_fin(3, k, 256).neg();
        assert!(lhs.eq_rat(&rhs));
        // Evenness of the second derivative, exactly.
        assert!(b_second(4, k, 256).eq_rat(&b_second(4, -k, 256)));
    }
}

#[test]
fn test_forward_shift_matches_centred() {
    // forward_B(3, t) == B(3, t - 2).
    for k in -64..1089i128 {
        let f = forward_cardinal_b_spline(3, &Rat::new(k, 256)).unwrap();
        let c = b(3, k - 512, 256);
        assert!(f.eq_rat(&c));
    }
}

#[test]
fn test_hat_derivative_outside_support() {
    // Beyond the support the slope is exactly zero, like the kernel itself.
    let zero = Rat::new(0, 1);
    assert!(b_prime_fin(1, 2, 1).eq_rat(&zero));
    assert!(b_prime_fin(1, -2, 1).eq_rat(&zero));
    assert!(b_prime_fin(1, 21, 10).eq_rat(&zero));
    assert!(b_prime_fin(1, -21, 10).eq_rat(&zero));
    // The derivative recurrence holds there too: B0(x+1/2) - B0(x-1/2) == 0.
    let d = b(0, 5, 2).sub(&b(0, 3, 2));
    assert!(b_prime_fin(1, 2, 1).eq_rat(&d));
    // The boundary values are unchanged.
    assert!(b_prime_fin(1, 1, 1).eq_rat(&Rat::new(-1, 2)));
    assert!(b_prime_fin(1, -1, 1).eq_rat(&Rat::new(1, 2)));
}

#[test]
fn test_outside_support_never_refused() {
    // Far outside the support the result is exactly zero, even where the
    // in-support capacity bound would fail.
    let zero = Rat::new(0, 1);
    let x = Rat::new(i128::MAX, 1_000_000_007);
    assert!(cardinal_b_spline(40, &x).unwrap().eq_rat(&zero));
    match cardinal_b_spline_prime(40, &x) {
        Some(SplineDeriv::Fin(v)) => assert!(v.eq_rat(&zero)),
        _ => panic!("expected a finite zero derivative"),
    }
    assert!(cardinal_b_spline_double_prime(40, &x).unwrap().eq_rat(&zero));
}

#[test]
fn test_overflowing_order_is_refused() {
    // An order too large for i128 arithmetic at this denominator.
    let x = Rat::new(1, 1_000_000_007);
    assert!(cardinal_b_spline(40, &x).is_none());
    assert!(cardinal_b_spline_prime(40, &x).is_none());
    assert!(cardinal_b_spline_double_prime(40, &x).is_none());
    // Low orders never overflow.
    assert!(cardinal_b_spline(0, &x).is_some());
    assert!(cardinal_b_spline(1, &x).is_some());
}

#[test]
fn test_rational_helpers() {
    let a = Rat::new(1, 2);
    let c = Rat::new(2, 4);
    assert!(a.eq_rat(&c));
    assert!(!a.eq_rat(&Rat::new(1, 3)));
    assert!(a.add(&Rat::new(1, 3)).eq_rat(&Rat::new(5, 6)));
    assert!(a.sub(&Rat::new(1, 3)).eq_rat(&Rat::new(1, 6)));
    assert!(a.mul(&Rat::new(2, 3)).eq_rat(&Rat::new(1, 3)));
    assert!(a.neg().eq_rat(&Rat::new(-1, 2)));
    assert_eq!(Rat::new(3, 4).num(), 3);
    assert_eq!(Rat::new(3, 4).den(), 4);
}
