use wbdd::double::Double;

fn of(value: f64) -> Double {
    Double { bits: value.to_bits() }
}

fn back(value: Double) -> f64 {
    f64::from_bits(value.bits)
}

/// Numbers at the edges of the format.
fn edges() -> Vec<f64> {
    let mut values = vec![
        0.0,
        1.0,
        2.0,
        3.0,
        0.1,
        0.5,
        1.5,
        10.0,
        1e-9,
        1e300,
        f64::MAX,
        f64::MIN_POSITIVE,
        f64::EPSILON,
        f64::INFINITY,
        f64::NAN,
        f64::from_bits(1),
        f64::from_bits(2),
        f64::from_bits(3),
        f64::from_bits(0x000F_FFFF_FFFF_FFFF),
        f64::from_bits(0x0010_0000_0000_0001),
        f64::from_bits(0x7FEF_FFFF_FFFF_FFFE),
        f64::from_bits(0x3FF0_0000_0000_0001),
        f64::from_bits(0x3FEF_FFFF_FFFF_FFFF),
        f64::from_bits(0x4340_0000_0000_0000),
        f64::from_bits(0x4340_0000_0000_0001),
        f64::from_bits(0x4350_0000_0000_0000),
    ];
    let negatives: Vec<f64> = values.iter().map(|v| -v).collect();
    values.extend(negatives);
    values
}

struct Pattern {
    state: u64,
}

impl Pattern {
    fn next(&mut self) -> u64 {
        self.state ^= self.state << 13;
        self.state ^= self.state >> 7;
        self.state ^= self.state << 17;
        self.state
    }
}

fn same(got: Double, expected: f64, what: &str) {
    if expected.is_nan() {
        assert!(got.is_nan(), "{what}: got {:x}, expected NaN", got.bits);
    } else {
        assert_eq!(got.bits, expected.to_bits(), "{what}: expected {expected:e}, got {:e}", back(got));
    }
}

fn same_arithmetic(a: f64, b: f64) {
    let (x, y) = (of(a), of(b));
    same(x.plus(y), a + b, &format!("{a:e} + {b:e}"));
    same(x.minus(y), a - b, &format!("{a:e} - {b:e}"));
    same(x.times(y), a * b, &format!("{a:e} * {b:e}"));
    same(x.over(y), a / b, &format!("{a:e} / {b:e}"));
    same(x.sqrt(), a.sqrt(), &format!("sqrt {a:e}"));
    assert_eq!(x.lt(y), a < b);
    assert_eq!(x.le(y), a <= b);
    assert_eq!(x.total_lt(y), a.total_cmp(&b) == std::cmp::Ordering::Less);
    assert_eq!(x.is_nan(), a.is_nan());
    assert_eq!(x.is_finite(), a.is_finite());
    assert_eq!(x.is_zero(), a == 0.0);
    same(x.neg(), -a, "negation");
    same(x.abs(), a.abs(), "absolute value");
    if a != b {
        same(x.max(y), a.max(b), &format!("max {a:e} {b:e}"));
        same(x.min(y), a.min(b), &format!("min {a:e} {b:e}"));
    }
}

#[test]
fn arithmetic_at_the_edges_is_native() {
    for a in edges() {
        for b in edges() {
            same_arithmetic(a, b);
        }
    }
}

#[test]
fn arithmetic_on_random_patterns_is_native() {
    let mut pattern = Pattern { state: 0x9E37_79B9_7F4A_7C15 };
    for _ in 0..20_000 {
        let a = f64::from_bits(pattern.next());
        let b = f64::from_bits(pattern.next());
        same_arithmetic(a, b);
    }
}

#[test]
fn arithmetic_on_numbers_of_like_size_is_native() {
    let mut pattern = Pattern { state: 0xD1B5_4A32_D192_ED03 };
    for _ in 0..20_000 {
        let spread = pattern.next() % 130;
        let a = f64::from_bits(0x3FF0_0000_0000_0000 + (pattern.next() >> 12));
        let b = f64::from_bits(
            ((0x3FF - 65 + spread) << 52) + (pattern.next() >> 12) + (pattern.next() << 63),
        );
        same_arithmetic(a, b);
        same_arithmetic(b, a);
    }
}

#[test]
fn arithmetic_among_tiny_numbers_is_native() {
    let mut pattern = Pattern { state: 0x2545_F491_4F6C_DD1D };
    for _ in 0..20_000 {
        let a = f64::from_bits(pattern.next() >> (pattern.next() % 60 + 4));
        let b = f64::from_bits((pattern.next() >> (pattern.next() % 12 + 2)) + (pattern.next() << 63));
        same_arithmetic(a, b);
        same_arithmetic(b, a);
    }
}

#[test]
fn counts_round_to_the_nearest_number() {
    for count in [0usize, 1, 2, 3, 10, 100, 101, 12345, 1 << 52, (1 << 53) + 1, usize::MAX] {
        assert_eq!(Double::from_count(count).bits, (count as f64).to_bits());
    }
}

#[test]
fn clamp_moves_into_the_range() {
    for a in edges() {
        for (low, high) in [(-1.0, 1.0), (0.5, 0.5), (f64::NEG_INFINITY, 3.0), (-2.0, f64::INFINITY)] {
            same(of(a).clamp(of(low), of(high)), a.clamp(low, high), "clamp");
        }
    }
}

#[test]
fn exact_sums_and_products() {
    assert_eq!(of(0.1).plus(of(0.2)).bits, 0x3FD3_3333_3333_3334);
    assert_eq!(of(0.1).times(of(3.0)).bits, 0x3FD3_3333_3333_3334);
    assert_eq!(of(1.0).over(of(3.0)).bits, 0x3FD5_5555_5555_5555);
    assert_eq!(of(2.0).sqrt().bits, 0x3FF6_A09E_667F_3BCD);
}
