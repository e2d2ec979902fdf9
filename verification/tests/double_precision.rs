//! Tests of intervals over a machine-double bound.
//!
//! This bound wraps `f64` directly: every operation rounds to nearest, the
//! precision is the double's own 53 bits, and the directed variants fall
//! back to the plain operations, as a plain-double backend does. The
//! expected values below were computed with that behaviour; a value that is
//! exactly zero prints as `0` whatever its sign.

use honest_intervals::fp::{self, Float, Sign};
use honest_intervals::interval::Interval;
use std::str::FromStr as StdFromStr;
use honest_intervals::fp::{Abs, Add as FpAdd, Div as FpDiv, FromStr as FpFromStr, MinMax, Mul as FpMul, Sub as FpSub, Transc as FpTransc};

/// A bound backed by one machine double.
#[derive(Clone, Copy, Debug, PartialEq)]
pub struct D(pub f64);

impl fp::Bnd for D {}

impl PartialOrd for D {
    fn partial_cmp(&self, rhs: &D) -> Option<std::cmp::Ordering> {
        self.0.partial_cmp(&rhs.0)
    }
}

impl fp::FromStr for D {
    fn from_str_lo(s: &str, _precision: usize) -> Option<D> {
        parse_f64(s)
    }
    fn from_str_hi(s: &str, _precision: usize) -> Option<D> {
        parse_f64(s)
    }
}

fn parse_f64(s: &str) -> Option<D> {
    let t = s.trim();
    let lower = t.to_ascii_lowercase();
    match lower.as_str() {
        "inf" | "+inf" => return Some(D(f64::INFINITY)),
        "-inf" => return Some(D(f64::NEG_INFINITY)),
        "nan" | "-nan" | "+nan" => return Some(D(f64::NAN)),
        _ => {}
    }
    if !t.bytes().all(|c| c.is_ascii_digit() || c == b'.' || c == b'-' || c == b'+' || c == b'e'
        || c == b'E') {
        return None;
    }
    t.parse::<f64>().ok().map(D)
}

impl fp::MinMax for D {
    fn min(self, rhs: D) -> D {
        D(self.0.min(rhs.0))
    }
    fn max(self, rhs: D) -> D {
        D(self.0.max(rhs.0))
    }
}

impl fp::Abs for D {
    fn abs(self) -> D {
        D(self.0.abs())
    }
}

impl fp::Add for D {
    fn add_lo(self, rhs: D) -> D {
        D(self.0 + rhs.0)
    }
    fn add_hi(self, rhs: D) -> D {
        D(self.0 + rhs.0)
    }
}

impl fp::Sub for D {
    fn sub_lo(self, rhs: D) -> D {
        D(self.0 - rhs.0)
    }
    fn sub_hi(self, rhs: D) -> D {
        D(self.0 - rhs.0)
    }
}

impl fp::Mul for D {
    fn mul_lo(self, rhs: D) -> D {
        D(self.0 * rhs.0)
    }
    fn mul_hi(self, rhs: D) -> D {
        D(self.0 * rhs.0)
    }
}

impl fp::Div for D {
    fn div_lo(self, rhs: D) -> D {
        D(self.0 / rhs.0)
    }
    fn div_hi(self, rhs: D) -> D {
        D(self.0 / rhs.0)
    }
}

impl fp::Transc for D {
    fn log_lo(self) -> D {
        D(self.0.ln())
    }
    fn log_hi(self) -> D {
        D(self.0.ln())
    }
    fn exp_lo(self) -> D {
        D(self.0.exp())
    }
    fn exp_hi(self) -> D {
        D(self.0.exp())
    }
    fn pow_lo(self, rhs: D) -> D {
        D(self.0.powf(rhs.0))
    }
    fn pow_hi(self, rhs: D) -> D {
        D(self.0.powf(rhs.0))
    }
}

impl Float for D {
    fn zero(_precision: usize) -> D {
        D(0.0)
    }
    fn neg_zero(_precision: usize) -> D {
        D(-0.0)
    }
    fn one(_precision: usize) -> D {
        D(1.0)
    }
    fn infinity(_precision: usize) -> D {
        D(f64::INFINITY)
    }
    fn neg_infinity(_precision: usize) -> D {
        D(f64::NEG_INFINITY)
    }
    fn nan(_precision: usize) -> D {
        D(f64::NAN)
    }
    fn sign(&self) -> Sign {
        if self.0 < 0.0 {
            Sign::Negative
        } else if self.0 > 0.0 {
            Sign::Positive
        } else {
            Sign::Zero
        }
    }
    fn precision(&self) -> usize {
        53
    }
    fn is_finite(&self) -> bool {
        self.0.is_finite()
    }
    fn is_infinite(&self) -> bool {
        self.0.is_infinite()
    }
    fn is_zero(&self) -> bool {
        self.0 == 0.0
    }
    fn is_infinity(&self) -> bool {
        self.0.is_infinite() && self.0.is_sign_positive()
    }
    fn is_neg_infinity(&self) -> bool {
        self.0.is_infinite() && self.0.is_sign_negative()
    }
    fn is_nan(&self) -> bool {
        self.0.is_nan()
    }
    fn le(&self, rhs: &D) -> bool {
        self.0 <= rhs.0
    }
    fn lt(&self, rhs: &D) -> bool {
        self.0 < rhs.0
    }
    fn eq_val(&self, rhs: &D) -> bool {
        self.0 == rhs.0
    }
    fn neg(self) -> D {
        D(-self.0)
    }
    fn dup(&self) -> D {
        *self
    }
    fn to_str(&self) -> String {
        if self.0 == 0.0 {
            "0".to_owned()
        } else {
            format!("{}", self.0)
        }
    }
}

type IV = Interval<D>;

const PREC: usize = 2;

fn b(s: &str) -> D {
    parse_f64(s).unwrap()
}

fn iv(s: &str) -> IV {
    IV::from_str_with_prec(s, PREC).unwrap()
}

fn simple<'a>() -> Vec<(&'a str, IV)> {
    vec![
        ("nan", iv("NaN")),
        ("whl", iv("<-inf, inf>")),
        ("m", iv("<-1, 1>")),
        ("z", iv("0")),
        ("p", iv("<1, 2>")),
        ("n", iv("<-2, -1>")),
    ]
}

fn all_sign_classes<'a>() -> Vec<(&'a str, IV)> {
    vec![
        ("nan", iv("NaN")),
        ("whl", iv("<-inf, inf>")),
        ("m", iv("<-1, 1>")),
        ("z", iv("0")),
        ("p0", iv("<0, 1>")),
        ("p1", iv("<1, 2>")),
        ("n0", iv("<-1, 0>")),
        ("n1", iv("<-2, -1>")),
    ]
}

fn find_unary_case<'z>(cases: &'z Vec<(&str, &str)>, cx: &str) -> &'z str {
    for &(cz, z) in cases {
        if cx == cz || cz == "*" {
            return z;
        }
    }
    panic!("unmatched case: {}", cx);
}

fn find_binary_case<'z>(
    cases: &'z Vec<(&str, &str)>,
    cx: &str,
    cy: &str,
    commutative: bool,
) -> Option<&'z str> {
    for &(cz, z) in cases {
        let mut is_match = format!("{}.{}", cx, cy) == cz
            || format!("{}.*", cx) == cz
            || format!("*.{}", cy) == cz
            || cz == "*.*";
        if commutative {
            is_match = is_match
                || format!("{}.{}", cy, cx) == cz
                || format!("{}.*", cy) == cz
                || format!("*.{}", cx) == cz;
        }
        if is_match {
            return Some(z);
        }
    }
    None
}

fn check_unary<OP: Fn(IV) -> String>(op: OP, cases: Vec<(&str, IV)>, expected: Vec<(&str, &str)>) {
    for (cx, x) in cases {
        let z = op(x.clone());
        assert_eq!(String::from(find_unary_case(&expected, cx)), z, "case {}", cx);
    }
}

fn check_binary<OP: Fn(IV, IV) -> String>(
    op: OP,
    cases: Vec<(&str, IV)>,
    expected: Vec<(&str, &str)>,
    commutative: bool,
) {
    for (cx, x) in cases.clone() {
        for (cy, y) in cases.clone() {
            let z = op(x.clone(), y.clone());
            let cz = find_binary_case(&expected, cx, cy, commutative)
                .unwrap_or_else(|| panic!("unmatched case: {}.{}", cx, cy));
            assert_eq!(String::from(cz), z, "case {}.{}", cx, cy);
        }
    }
}

#[test]
fn tests_f64_test_new() {
    assert_eq!("<0, 1>", IV::new(b("0"), b("1")).display_string());
    assert_eq!("<-1, 0>", IV::new(b("-1"), b("0")).display_string());
    assert_eq!("-1", IV::new(b("-1"), b("-1")).display_string());
    assert_eq!("NaN", IV::new(b("NaN"), b("NaN")).display_string());
    assert_eq!("<-inf, inf>", IV::new(b("-inf"), b("inf")).display_string());
}

#[test]
fn tests_f64_test_singleton() {
    assert_eq!("-1", IV::singleton(b("-1")).display_string());
    assert_eq!("NaN", IV::singleton(b("NaN")).display_string());
}

#[test]
fn tests_f64_test_constants() {
    assert_eq!("0", IV::zero(PREC).display_string());
    assert_eq!("1", IV::one(PREC).display_string());
    assert_eq!("NaN", IV::nan(PREC).display_string());
    assert_eq!("<-inf, inf>", IV::whole(PREC).display_string());
}

#[test]
fn tests_f64_test_sign_class() {
    check_unary(
        |x| x.sign_class().display_string(),
        all_sign_classes(),
        vec![
            ("nan", "z"),
            ("whl", "m"),
            ("m", "m"),
            ("z", "z"),
            ("p0", "p0"),
            ("p1", "p1"),
            ("n0", "n0"),
            ("n1", "n1"),
        ],
    );
}

#[test]
fn tests_f64_test_size() {
    check_unary(
        |x| x.size().display_string(),
        simple(),
        vec![
            ("nan", "NaN"),
            ("whl", "NaN"),
            ("m", "2"),
            ("z", "0"),
            ("p", "1"),
            ("n", "1"),
        ],
    );
    assert_eq!("2", iv("<-1.1, 0.9>").size().display_string());
}

#[test]
fn tests_f64_test_is_singleton() {
    check_unary(
        |x| format!("{}", x.is_singleton()),
        all_sign_classes(),
        vec![
            ("nan", "false"),
            ("whl", "false"),
            ("m", "false"),
            ("z", "true"),
            ("p0", "false"),
            ("p1", "false"),
            ("n0", "false"),
            ("n1", "false"),
        ],
    );
    assert!(iv("<-1, -1>").is_singleton());
}

#[test]
fn tests_f64_test_is_zero() {
    check_unary(
        |x| format!("{}", x.is_zero()),
        all_sign_classes(),
        vec![
            ("nan", "false"),
            ("whl", "false"),
            ("m", "false"),
            ("z", "true"),
            ("p0", "false"),
            ("p1", "false"),
            ("n0", "false"),
            ("n1", "false"),
        ],
    );
    assert!(!iv("<-1, -1>").is_zero());
}

#[test]
fn tests_f64_test_is_nan() {
    check_unary(
        |x| format!("{}", x.is_nan()),
        all_sign_classes(),
        vec![
            ("nan", "true"),
            ("whl", "false"),
            ("m", "false"),
            ("z", "false"),
            ("p0", "false"),
            ("p1", "false"),
            ("n0", "false"),
            ("n1", "false"),
        ],
    );
}

#[test]
fn tests_f64_test_is_whole() {
    check_unary(
        |x| format!("{}", x.is_whole()),
        all_sign_classes(),
        vec![
            ("nan", "false"),
            ("whl", "true"),
            ("m", "false"),
            ("z", "false"),
            ("p0", "false"),
            ("p1", "false"),
            ("n0", "false"),
            ("n1", "false"),
        ],
    );
}

#[test]
fn tests_f64_test_has_zero() {
    check_unary(
        |x| format!("{}", x.has_zero()),
        all_sign_classes(),
        vec![
            ("nan", "true"),
            ("whl", "true"),
            ("m", "true"),
            ("z", "true"),
            ("p0", "true"),
            ("p1", "false"),
            ("n0", "true"),
            ("n1", "false"),
        ],
    );
}

#[test]
fn tests_f64_test_split() {
    check_unary(
        |x| {
            let (l, r) = x.split(b("0"));
            format!("{} | {}", l.display_string(), r.display_string())
        },
        all_sign_classes(),
        vec![
            ("nan", "NaN | NaN"),
            ("whl", "<-inf, 0> | <0, inf>"),
            ("m", "<-1, 0> | <0, 1>"),
            ("z", "NaN | 0"),
            ("p0", "NaN | <0, 1>"),
            ("p1", "NaN | <1, 2>"),
            ("n0", "<-1, 0> | NaN"),
            ("n1", "<-2, -1> | NaN"),
        ],
    );
}

#[test]
fn tests_f64_test_from_str() {
    assert_eq!("0", IV::from_str("0").unwrap().display_string());
    assert_eq!(
        "0.9999999999999999",
        IV::from_str("0.9999999999999999").unwrap().display_string()
    );
    assert_eq!(
        "1.000000000000001",
        IV::from_str("1.000000000000001").unwrap().display_string()
    );
    assert_eq!(
        "-0.9999999999999999",
        IV::from_str("-0.9999999999999999").unwrap().display_string()
    );
    assert_eq!(
        "-1.000000000000001",
        IV::from_str("-1.000000000000001").unwrap().display_string()
    );
    assert_eq!("NaN", IV::from_str("NaN").unwrap().display_string());
}

#[test]
fn tests_f64_test_into_pair() {
    let (lo, hi) = iv("<0, 1>").into_pair();
    assert_eq!("0", lo.to_str());
    assert_eq!("1", hi.to_str());
}

#[test]
fn tests_f64_test_partial_eq() {
    assert!(iv("NaN") == iv("NaN"));
    assert!(iv("0") == iv("0"));
    assert!(iv("<0, 1>") == iv("<0, 1>"));
    assert!(iv("<0, 1>") != iv("<0, 2>"));
}

#[test]
fn tests_f64_test_neg() {
    check_unary(
        |x| x.neg().display_string(),
        simple(),
        vec![
            ("nan", "NaN"),
            ("whl", "<-inf, inf>"),
            ("m", "<-1, 1>"),
            ("z", "0"),
            ("p", "<-2, -1>"),
            ("n", "<1, 2>"),
        ],
    );
}

#[test]
fn tests_f64_test_add() {
    check_binary(
        |x, y| x.add(y).display_string(),
        simple(),
        vec![
            ("nan.*", "NaN"),
            ("whl.*", "<-inf, inf>"),
            ("m.m", "<-2, 2>"),
            ("m.z", "<-1, 1>"),
            ("m.p", "<0, 3>"),
            ("m.n", "<-3, 0>"),
            ("z.z", "0"),
            ("z.p", "<1, 2>"),
            ("z.n", "<-2, -1>"),
            ("p.p", "<2, 4>"),
            ("p.n", "<-1, 1>"),
            ("n.n", "<-4, -2>"),
        ],
        true,
    );
}

#[test]
fn tests_f64_test_sub() {
    check_binary(
        |x, y| x.sub(y).display_string(),
        simple(),
        vec![
            ("nan.*", "NaN"),
            ("*.nan", "NaN"),
            ("whl.*", "<-inf, inf>"),
            ("*.whl", "<-inf, inf>"),
            ("m.m", "<-2, 2>"),
            ("m.z", "<-1, 1>"),
            ("m.p", "<-3, 0>"),
            ("m.n", "<0, 3>"),
            ("z.m", "<-1, 1>"),
            ("z.z", "0"),
            ("z.p", "<-2, -1>"),
            ("z.n", "<1, 2>"),
            ("p.m", "<0, 3>"),
            ("p.z", "<1, 2>"),
            ("p.p", "<-1, 1>"),
            ("p.n", "<2, 4>"),
            ("n.m", "<-3, 0>"),
            ("n.z", "<-2, -1>"),
            ("n.p", "<-4, -2>"),
            ("n.n", "<-1, 1>"),
        ],
        false,
    );
}

#[test]
fn tests_f64_test_mul() {
    check_binary(
        |x, y| x.mul(y).display_string(),
        all_sign_classes(),
        vec![
            ("nan.*", "NaN"),
            ("z.*", "0"),
            ("whl.*", "<-inf, inf>"),
            ("m.m", "<-1, 1>"),
            ("m.p0", "<-1, 1>"),
            ("m.p1", "<-2, 2>"),
            ("m.n0", "<-1, 1>"),
            ("m.n1", "<-2, 2>"),
            ("p0.p0", "<0, 1>"),
            ("p0.p1", "<0, 2>"),
            ("p0.n0", "<-1, 0>"),
            ("p0.n1", "<-2, 0>"),
            ("p1.p1", "<1, 4>"),
            ("p1.n0", "<-2, 0>"),
            ("p1.n1", "<-4, -1>"),
            ("n0.n0", "<0, 1>"),
            ("n0.n1", "<0, 2>"),
            ("n1.n1", "<1, 4>"),
        ],
        true,
    );
}

#[test]
fn tests_f64_test_div() {
    check_binary(
        |x, y| x.div(y).display_string(),
        all_sign_classes(),
        vec![
            ("nan.*", "NaN"),
            ("*.nan", "NaN"),
            ("*.z", "NaN"),
            ("z.*", "0"),
            ("whl.*", "<-inf, inf>"),
            ("*.whl", "<-inf, inf>"),
            ("m.m", "<-inf, inf>"),
            ("m.p0", "<-inf, inf>"),
            ("m.p1", "<-1, 1>"),
            ("m.n0", "<-inf, inf>"),
            ("m.n1", "<-1, 1>"),
            ("p0.m", "<-inf, inf>"),
            ("p0.p0", "<0, inf>"),
            ("p0.p1", "<0, 1>"),
            ("p0.n0", "<-inf, 0>"),
            ("p0.n1", "<-1, 0>"),
            ("p1.m", "<-inf, inf>"),
            ("p1.p0", "<1, inf>"),
            ("p1.p1", "<0.5, 2>"),
            ("p1.n0", "<-inf, -1>"),
            ("p1.n1", "<-2, -0.5>"),
            ("n0.m", "<-inf, inf>"),
            ("n0.p0", "<-inf, 0>"),
            ("n0.p1", "<-1, 0>"),
            ("n0.n0", "<0, inf>"),
            ("n0.n1", "<0, 1>"),
            ("n1.m", "<-inf, inf>"),
            ("n1.p0", "<-inf, -1>"),
            ("n1.p1", "<-2, -0.5>"),
            ("n1.n0", "<1, inf>"),
            ("n1.n1", "<0.5, 2>"),
        ],
        false,
    );
}

#[test]
fn f64_test_from_str_lo() {
    assert_eq!(0.9, D::from_str_lo("0.9", PREC).unwrap().0);
    assert_eq!(1.1, D::from_str_lo("1.1", PREC).unwrap().0);
    assert_eq!(0.0000000000000000, D::from_str_lo("0", PREC).unwrap().0);
    assert_eq!(-0.9000000000000000, D::from_str_lo("-0.9", PREC).unwrap().0);
    assert_eq!(-1.1000000000000001, D::from_str_lo("-1.1", PREC).unwrap().0);
    assert_eq!(f64::INFINITY, D::from_str_lo("inf", PREC).unwrap().0);
    assert_eq!(f64::NEG_INFINITY, D::from_str_lo("-inf", PREC).unwrap().0);
    assert!(D::from_str_lo("NaN", PREC).unwrap().0.is_nan());
}

#[test]
fn f64_test_from_str_hi() {
    assert_eq!(0.0000000000000000, D::from_str_hi("0", PREC).unwrap().0);
    assert_eq!(0.9000000000000000, D::from_str_hi("0.9", PREC).unwrap().0);
    assert_eq!(1.1000000000000001, D::from_str_hi("1.1", PREC).unwrap().0);
    assert_eq!(-0.9, D::from_str_hi("-0.9", PREC).unwrap().0);
    assert_eq!(-1.1, D::from_str_hi("-1.1", PREC).unwrap().0);
    assert_eq!(f64::INFINITY, D::from_str_hi("inf", PREC).unwrap().0);
    assert_eq!(f64::NEG_INFINITY, D::from_str_hi("-inf", PREC).unwrap().0);
    assert!(D::from_str_hi("NaN", PREC).unwrap().0.is_nan());
}

#[test]
fn f64_test_min() {
    assert_eq!(0.0, D(0.0).min(D(1.0)).0);
    assert_eq!(0.0, D(1.0).min(D(0.0)).0);
}

#[test]
fn f64_test_max() {
    assert_eq!(1.0, D(0.0).max(D(1.0)).0);
    assert_eq!(1.0, D(1.0).max(D(0.0)).0);
}

#[test]
fn f64_test_abs() {
    assert_eq!(0.0, D(0.0).abs().0);
    assert_eq!(1.0, D(1.0).abs().0);
    assert_eq!(1.0, D(-1.0).abs().0);
}

#[test]
fn f64_test_add_lo() {
    assert_eq!(1.1, D(0.1).add_lo(D(1.0)).0);
    assert_eq!(-1.1, D(-0.1).add_lo(D(-1.0)).0);
}

#[test]
fn f64_test_add_hi() {
    assert_eq!(1.1, D(0.1).add_hi(D(1.0)).0);
    assert_eq!(-1.1, D(-0.1).add_hi(D(-1.0)).0);
}

#[test]
fn f64_test_sub_lo() {
    assert_eq!(-0.9, D(0.1).sub_lo(D(1.0)).0);
    assert_eq!(0.9, D(-0.1).sub_lo(D(-1.0)).0);
}

#[test]
fn f64_test_sub_hi() {
    assert_eq!(-0.9, D(0.1).sub_hi(D(1.0)).0);
    assert_eq!(0.9, D(-0.1).sub_hi(D(-1.0)).0);
}

#[test]
fn f64_test_mul_lo() {
    assert_eq!(0.9900000000000001, D(1.1).mul_lo(D(0.9)).0);
    assert_eq!(-0.9900000000000001, D(-1.1).mul_lo(D(0.9)).0);
}

#[test]
fn f64_test_mul_hi() {
    assert_eq!(0.9900000000000001, D(1.1).mul_hi(D(0.9)).0);
    assert_eq!(-0.9900000000000001, D(-1.1).mul_hi(D(0.9)).0);
}

#[test]
fn f64_test_div_lo() {
    assert_eq!(1.2222222222222223, D(1.1).div_lo(D(0.9)).0);
    assert_eq!(-1.2222222222222223, D(-1.1).div_lo(D(0.9)).0);
}

#[test]
fn f64_test_div_hi() {
    assert_eq!(1.2222222222222223, D(1.1).div_hi(D(0.9)).0);
    assert_eq!(-1.2222222222222223, D(-1.1).div_hi(D(0.9)).0);
}

#[test]
fn f64_test_log_lo() {
    assert_eq!(0.0, D(1.0).log_lo().0);
    assert_eq!(-0.6931471805599453, D(0.5).log_lo().0);
    assert_eq!(0.6931471805599453, D(2.0).log_lo().0);
}

#[test]
fn f64_test_log_hi() {
    assert_eq!(0.0, D(1.0).log_hi().0);
    assert_eq!(-0.6931471805599453, D(0.5).log_hi().0);
    assert_eq!(0.6931471805599453, D(2.0).log_hi().0);
}

#[test]
fn f64_test_exp_lo() {
    assert_eq!(2.718281828459045, D(1.0).exp_lo().0);
    assert_eq!(0.36787944117144233, D(-1.0).exp_lo().0);
    assert_eq!(1.6487212707001282, D(0.5).exp_lo().0);
    assert_eq!(0.6065306597126334, D(-0.5).exp_lo().0);
}

#[test]
fn f64_test_exp_hi() {
    assert_eq!(2.7182818284590453, D(1.0).exp_hi().0);
    assert_eq!(0.36787944117144233, D(-1.0).exp_hi().0);
    assert_eq!(1.6487212707001282, D(0.5).exp_hi().0);
    assert_eq!(0.6065306597126334, D(-0.5).exp_hi().0);
}

#[test]
fn f64_test_pow_lo() {
    assert_eq!(1.0, D(1.0).pow_lo(D(2.0)).0);
    assert_eq!(1.4142135623730951, D(2.0).pow_lo(D(0.5)).0);
}

#[test]
fn f64_test_pow_hi() {
    assert_eq!(1.0, D(1.0).pow_hi(D(2.0)).0);
    assert_eq!(1.4142135623730951, D(2.0).pow_hi(D(0.5)).0);
}

#[test]
fn f64_test_constants() {
    assert_eq!(0.0, D::zero(PREC).0);
    assert_eq!(f64::INFINITY, D::one(PREC).0 / D::zero(PREC).0);
    assert_eq!(0.0, D::neg_zero(PREC).0);
    assert_eq!(f64::NEG_INFINITY, D::one(PREC).0 / D::neg_zero(PREC).0);
    assert_eq!(1.0, D::one(PREC).0);
    assert_eq!(f64::INFINITY, D::infinity(PREC).0);
    assert_eq!(f64::NEG_INFINITY, D::neg_infinity(PREC).0);
    assert!(D::nan(PREC).0.is_nan());
}
