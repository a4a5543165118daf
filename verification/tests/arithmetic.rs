use swle::binary32::Binary32;

fn number(x: f32) -> Binary32 {
    Binary32::from_bits(x.to_bits())
}

fn float(x: Binary32) -> f32 {
    f32::from_bits(x.to_bits())
}

fn same(a: f32, b: f32) -> bool {
    a == b || (a.is_nan() && b.is_nan())
}

struct Random {
    state: u64,
}

impl Random {
    fn next(&mut self) -> u64 {
        self.state ^= self.state << 13;
        self.state ^= self.state >> 7;
        self.state ^= self.state << 17;
        self.state
    }
}

const NOTABLE: [u32; 24] = [
    0x0000_0000, 0x8000_0000, 0x0000_0001, 0x8000_0001, 0x007f_ffff, 0x0080_0000, 0x0080_0001,
    0x00ff_ffff, 0x0100_0000, 0x3f80_0000, 0xbf80_0000, 0x3f7f_ffff, 0x3f80_0001, 0x4b80_0000,
    0x4b80_0001, 0xcb80_0000, 0x7f7f_ffff, 0xff7f_ffff, 0x7f80_0000, 0xff80_0000, 0x7fc0_0000,
    0x7f80_0001, 0x7380_0000, 0x7300_0000,
];

fn check_pair(a: u32, b: u32) {
    let (x, y) = (f32::from_bits(a), f32::from_bits(b));
    let (p, q) = (Binary32::from_bits(a), Binary32::from_bits(b));
    assert!(same(float(p.plus(q)), x + y), "{:x} + {:x}", a, b);
    assert_eq!(p.at_least(q), x >= y, "{:x} >= {:x}", a, b);
}

#[test]
fn notable_numbers_add_and_compare_as_the_format_says() {
    for a in NOTABLE {
        for b in NOTABLE {
            check_pair(a, b);
        }
        let x = f32::from_bits(a);
        let p = Binary32::from_bits(a);
        assert!(same(float(p.negate()), -x));
        assert!(same(float(p.max_with_zero()), f32::max(0.0, x)));
    }
}

#[test]
fn random_numbers_add_and_compare_as_the_format_says() {
    let mut random = Random { state: 0x9e37_79b9_7f4a_7c15 };
    for _ in 0..100_000 {
        let r = random.next();
        check_pair(r as u32, (r >> 32) as u32);
    }
}

#[test]
fn numbers_of_like_size_add_as_the_format_says() {
    let mut random = Random { state: 0x0123_4567_89ab_cdef };
    for _ in 0..100_000 {
        let r = random.next();
        let a = r as u32;
        let step = ((r >> 32) % 70) as i64 - 35;
        let exponent = ((a >> 23) & 0xff) as i64 + step;
        let b = ((r >> 40) as u32 & 0x807f_ffff) | ((exponent.clamp(0, 254) as u32) << 23);
        check_pair(a, b);
    }
}

#[test]
fn ties_go_to_the_even_number() {
    let sum = number(16777216.0).plus(number(1.0));
    assert_eq!(float(sum), 16777216.0);
    let sum = number(16777218.0).plus(number(1.0));
    assert_eq!(float(sum), 16777220.0);
    assert_eq!(number(1.0).plus(number(0.1)).to_bits(), 0x3f8c_cccd);
}

#[test]
fn counts_convert_as_the_format_says() {
    let mut random = Random { state: 42 };
    for count in 0..2000u64 {
        assert_eq!(float(Binary32::from_count(count)), count as f32);
    }
    for _ in 0..20_000 {
        let r = random.next();
        let count = r >> (r % 64);
        assert_eq!(float(Binary32::from_count(count)), count as f32);
    }
    assert_eq!(float(Binary32::from_count(u64::MAX)), u64::MAX as f32);
    assert_eq!(Binary32::from_count(16777217).to_bits(), 16777216f32.to_bits());
}

#[test]
fn inverses_of_counts_are_as_the_format_says() {
    let mut random = Random { state: 43 };
    for count in 1..5000u64 {
        assert_eq!(float(Binary32::inverse_of_count(count)), 1.0 / (count as f32));
    }
    for _ in 0..20_000 {
        let r = random.next();
        let count = (r >> (r % 64)).max(1);
        assert_eq!(float(Binary32::inverse_of_count(count)), 1.0 / (count as f32));
    }
    assert_eq!(Binary32::inverse_of_count(3).to_bits(), 0x3eaa_aaab);
}
