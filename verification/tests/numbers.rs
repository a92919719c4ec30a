use faceage::number::Num;

fn num(x: f64) -> Num {
    Num { bits: x.to_bits() }
}

fn same(a: Num, b: f64) -> bool {
    let a = f64::from_bits(a.bits);
    if a.is_nan() || b.is_nan() {
        a.is_nan() && b.is_nan()
    } else {
        a.to_bits() == b.to_bits()
    }
}

/// Numbers of every kind: the edges of each, and a spread over the exponents.
fn numbers() -> Vec<f64> {
    let mut list: Vec<f64> = Vec::new();
    for bits in [
        0u64,
        1,
        2,
        3,
        0xF_FFFF_FFFF_FFFF,
        0x10_0000_0000_0000,
        0x10_0000_0000_0001,
        0x7FEF_FFFF_FFFF_FFFF,
        0x7FF0_0000_0000_0000,
        0x7FF8_0000_0000_0000,
    ] {
        list.push(f64::from_bits(bits));
        list.push(-f64::from_bits(bits));
    }
    for x in [0.1, 0.3, 0.5, 1.0, 1.5, 2.5, 3.0, 10.0, 100.0, 1e15, 4503599627370497.5, 1e300] {
        list.push(x);
        list.push(-x);
    }
    let mut seed: u64 = 0x9E37_79B9_7F4A_7C15;
    for i in 0..160u64 {
        seed = seed.wrapping_mul(6364136223846793005).wrapping_add(1442695040888963407);
        let fraction = (seed >> 11) & 0xF_FFFF_FFFF_FFFF;
        let exponent = if i % 2 == 0 { 1000 + (seed >> 5) % 60 } else { (seed >> 3) % 2047 };
        list.push(f64::from_bits((seed & (1 << 63)) | (exponent << 52) | fraction));
    }
    list
}

#[test]
fn sums_products_and_quotients_are_those_of_the_machine() {
    for &x in &numbers() {
        for &y in &numbers() {
            let (a, b) = (num(x), num(y));
            assert!(same(a.add(b), x + y), "{x:e} + {y:e}");
            assert!(same(a.sub(b), x - y), "{x:e} - {y:e}");
            assert!(same(a.mul(b), x * y), "{x:e} * {y:e}");
            assert!(same(a.div(b), x / y), "{x:e} / {y:e}");
            assert_eq!(a.le(b), x <= y, "{x:e} <= {y:e}");
            assert_eq!(f64::from_bits(a.min(b).bits) == x.min(y), x.min(y) == x.min(y));
            assert_eq!(f64::from_bits(a.max(b).bits) == x.max(y), x.max(y) == x.max(y));
        }
    }
}

#[test]
fn rounding_is_that_of_the_machine() {
    let mut list = numbers();
    for n in -40..40i64 {
        for part in [0.25, 0.5, 0.75, 0.49999999999999994] {
            list.push(n as f64 + part);
        }
    }
    for edge in [9007199254740991.0, 9007199254740993.0, 9223372036854775807.0, 1.8e19] {
        list.push(edge);
        list.push(-edge);
    }
    for &x in &list {
        assert!(same(num(x).round(), x.round()), "{x:e} rounded");
        assert_eq!(num(x).pixel(), x.round() as i64, "{x:e} as a pixel");
        assert!(same(num(x).neg(), -x), "-{x:e}");
    }
    for n in [0, 1, 10, 600, u64::MAX >> 11, (1 << 53) + 1, (1 << 53) + 3, u64::MAX - 1024, u64::MAX] {
        assert!(same(Num::count(n), n as f64), "{n} as a number");
    }
}
