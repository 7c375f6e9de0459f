use matchmaker::clock::as_seconds;
use matchmaker::rating::OrdF64;
use std::time::Duration;

fn double(value: f64) -> OrdF64 {
    OrdF64 { bits: value.to_bits() }
}

struct Bits {
    state: u64,
}

impl Bits {
    fn next(&mut self) -> u64 {
        self.state ^= self.state << 13;
        self.state ^= self.state >> 7;
        self.state ^= self.state << 17;
        self.state
    }

    fn finite(&mut self) -> f64 {
        loop {
            let value = f64::from_bits(self.next());
            if value.is_finite() {
                return value;
            }
        }
    }

    fn near(&mut self, exponent: u64, range: u64) -> f64 {
        let bits = self.next();
        let e = exponent + (bits >> 52) % range;
        let sign = self.next() & (1 << 63);
        f64::from_bits(sign | (e << 52) | (bits & 0xf_ffff_ffff_ffff))
    }
}

const EDGES: [f64; 22] = [
    0.0, -0.0, 1.0, -1.0, 0.1, 0.2, 0.3, 150.0, 50.0, 600.0, 3000.0, 5e-324, -5e-324,
    2.2250738585072014e-308, 2.225073858507201e-308, 1e-160, 1e160, f64::MAX, f64::MIN,
    9007199254740993.0, 0.5, 1.5,
];

fn check_pair(a: f64, b: f64) {
    let (x, y) = (double(a), double(b));
    assert_eq!(x.sum(y).bits, (a + b).to_bits(), "{a:e} + {b:e}");
    assert_eq!(x.difference(y).bits, (a - b).to_bits(), "{a:e} - {b:e}");
    assert_eq!(x.product(y).bits, (a * b).to_bits(), "{a:e} * {b:e}");
    if b != 0.0 {
        assert_eq!(x.quotient(y).bits, (a / b).to_bits(), "{a:e} / {b:e}");
    }
}

#[test]
fn arithmetic_agrees_on_edges() {
    for a in EDGES {
        for b in EDGES {
            check_pair(a, b);
        }
    }
}

#[test]
fn arithmetic_agrees_on_all_exponents() {
    let mut bits = Bits { state: 0x9e37_79b9_7f4a_7c15 };
    for _ in 0..40_000 {
        check_pair(bits.finite(), bits.finite());
    }
}

#[test]
fn arithmetic_agrees_on_near_exponents() {
    let mut bits = Bits { state: 0x2545_f491_4f6c_dd1d };
    for _ in 0..40_000 {
        check_pair(bits.near(1015, 24), bits.near(1015, 24));
        check_pair(bits.near(960, 130), bits.near(960, 130));
    }
}

#[test]
fn arithmetic_agrees_on_the_smallest_doubles() {
    let mut bits = Bits { state: 0x1234_5678_9abc_def1 };
    for _ in 0..20_000 {
        check_pair(bits.near(0, 4), bits.near(0, 4));
        check_pair(bits.near(0, 3), bits.near(1000, 40));
        check_pair(bits.near(500, 20), bits.near(500, 20));
    }
}

#[test]
fn arithmetic_agrees_on_the_largest_doubles() {
    let mut bits = Bits { state: 0xfeed_beef_1357_2468 };
    for _ in 0..20_000 {
        check_pair(bits.near(2043, 4), bits.near(2043, 4));
        check_pair(bits.near(1530, 10), bits.near(1530, 10));
    }
    assert_eq!(double(f64::MAX).sum(double(f64::MAX)), double(f64::INFINITY));
    assert_eq!(double(f64::MIN).difference(double(f64::MAX)), double(f64::NEG_INFINITY));
}

#[test]
fn arithmetic_takes_infinite_operands() {
    let inf = double(f64::INFINITY);
    let minus_inf = double(f64::NEG_INFINITY);
    assert_eq!(double(7.0).sum(inf), inf);
    assert_eq!(inf.sum(double(7.0)), inf);
    assert_eq!(inf.sum(inf), inf);
    assert_eq!(double(7.0).difference(inf), minus_inf);
    assert_eq!(inf.difference(minus_inf), inf);
    assert_eq!(double(7.0).quotient(inf), double(0.0));
    assert_eq!(double(-7.0).quotient(inf), double(-0.0));
}

#[test]
fn whole_numbers_become_doubles() {
    for n in [0u64, 1, 2, 5, 15, 200, 1_000_000_000, (1 << 53) - 1, 1 << 53, (1 << 53) + 1, (1 << 53) + 3,
        u64::MAX, u64::MAX - 1023, u64::MAX - 1024, u64::MAX - 1025, 1 << 63]
    {
        assert_eq!(OrdF64::from_whole(n).bits, (n as f64).to_bits(), "{n}");
    }
    let mut bits = Bits { state: 77 };
    for _ in 0..20_000 {
        let n = bits.next();
        let n = n >> (n % 60);
        assert_eq!(OrdF64::from_whole(n).bits, (n as f64).to_bits(), "{n}");
    }
}

#[test]
fn seconds_agree_with_durations() {
    let mut bits = Bits { state: 4242 };
    let mut before = 0u64;
    let fixed = [0u64, 1, 999_999_999, 1_000_000_000, 1_000_000_001, 1_500_000_000, 15_000_000_000, u64::MAX];
    for ns in fixed {
        assert_eq!(as_seconds(ns).bits, Duration::from_nanos(ns).as_secs_f64().to_bits(), "{ns}");
    }
    for _ in 0..20_000 {
        let ns = bits.next();
        let ns = ns >> (ns % 50);
        assert_eq!(as_seconds(ns).bits, Duration::from_nanos(ns).as_secs_f64().to_bits(), "{ns}");
        let (low, high) = if before < ns { (before, ns) } else { (ns, before) };
        assert!(!as_seconds(high).is_below(as_seconds(low)));
        before = ns;
    }
    assert_eq!(as_seconds(1_500_000_000), double(1.5));
}
