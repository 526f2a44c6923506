use vtuber_tracking::binary::{Binary32, Binary64};
use vtuber_tracking::content_hash::fnv1a;
use vtuber_tracking::ordering::{ascending_order, order_descending};
use vtuber_tracking::takes::sorted_takes;
use vtuber_tracking::text::append_decimal;

fn narrow(value: f32) -> Binary32 {
    Binary32::from_bits(value.to_bits())
}

fn wide(value: f64) -> Binary64 {
    Binary64::from_bits(value.to_bits())
}

fn same_32(actual: Binary32, expected: f32) -> bool {
    if expected.is_nan() {
        f32::from_bits(actual.to_bits()).is_nan()
    } else {
        actual.to_bits() == expected.to_bits()
    }
}

fn same_64(actual: Binary64, expected: f64) -> bool {
    if expected.is_nan() {
        f64::from_bits(actual.to_bits()).is_nan()
    } else {
        actual.to_bits() == expected.to_bits()
    }
}

struct Stream(u64);

impl Stream {
    fn next(&mut self) -> u64 {
        self.0 = self.0.wrapping_mul(6_364_136_223_846_793_005).wrapping_add(1_442_695_040_888_963_407);
        let x = self.0 ^ (self.0 >> 29);
        x.wrapping_mul(0xbf58_476d_1ce4_e5b9) ^ (x >> 32)
    }
}

fn special_32() -> Vec<u32> {
    vec![
        0,
        0x8000_0000,
        1,
        0x8000_0001,
        2,
        3,
        0x007f_ffff,
        0x0080_0000,
        0x0080_0001,
        0x00ff_ffff,
        0x0100_0000,
        0x3f7f_ffff,
        0x3f80_0000,
        0x3f80_0001,
        0xbf80_0000,
        0x4000_0000,
        0x4b00_0000,
        0x4b7f_ffff,
        0x7f00_0000,
        0x7f7f_ffff,
        0xff7f_ffff,
        0x7f80_0000,
        0xff80_0000,
        0x7fc0_0000,
        0x7f80_0001,
    ]
}

fn check_pair_32(a: u32, b: u32) {
    let x = f32::from_bits(a);
    let y = f32::from_bits(b);
    let p = Binary32::from_bits(a);
    let q = Binary32::from_bits(b);
    assert!(same_32(p.sum(q), x + y), "{x:e} + {y:e}");
    assert!(same_32(p.difference(q), x - y), "{x:e} - {y:e}");
    assert!(same_32(p.product(q), x * y), "{x:e} * {y:e}");
    assert!(same_32(p.quotient(q), x / y), "{x:e} / {y:e}");
    assert_eq!(p.is_less(q), x < y);
    assert_eq!(p.is_at_most(q), x <= y);
    assert_eq!(p.is_same_number(q), x == y);
    assert_eq!(p.total_order() < q.total_order(), x.total_cmp(&y).is_lt());
}

fn check_pair_64(a: u64, b: u64) {
    let x = f64::from_bits(a);
    let y = f64::from_bits(b);
    let p = Binary64::from_bits(a);
    let q = Binary64::from_bits(b);
    assert!(same_64(p.sum(q), x + y), "{x:e} + {y:e}");
    assert!(same_64(p.difference(q), x - y), "{x:e} - {y:e}");
    assert!(same_64(p.product(q), x * y), "{x:e} * {y:e}");
    assert!(same_64(p.quotient(q), x / y), "{x:e} / {y:e}");
    assert_eq!(p.is_less(q), x < y);
    assert_eq!(p.is_at_most(q), x <= y);
    assert_eq!(p.total_order() < q.total_order(), x.total_cmp(&y).is_lt());
}

#[test]
fn binary32_arithmetic_agrees_with_the_machine() {
    for a in special_32() {
        for b in special_32() {
            check_pair_32(a, b);
        }
    }
    let mut stream = Stream(7);
    for _ in 0..20_000 {
        let a = stream.next() as u32;
        let b = stream.next() as u32;
        check_pair_32(a, b);
        let near = (a & 0xff80_0000) | (b & 0x007f_ffff);
        check_pair_32(a, near);
    }
}

#[test]
fn binary64_arithmetic_agrees_with_the_machine() {
    let special = [
        0.0_f64.to_bits(),
        (-0.0_f64).to_bits(),
        1,
        0x000f_ffff_ffff_ffff,
        0x0010_0000_0000_0000,
        1.0_f64.to_bits(),
        (-1.0_f64).to_bits(),
        (1.0_f64 + f64::EPSILON).to_bits(),
        f64::MAX.to_bits(),
        f64::INFINITY.to_bits(),
        f64::NEG_INFINITY.to_bits(),
        f64::NAN.to_bits(),
    ];
    for a in special {
        for b in special {
            check_pair_64(a, b);
        }
    }
    let mut stream = Stream(11);
    for _ in 0..20_000 {
        let a = stream.next();
        let b = stream.next();
        check_pair_64(a, b);
        let near = (a & 0xfff0_0000_0000_0000) | (b & 0x000f_ffff_ffff_ffff);
        check_pair_64(a, near);
    }
}

#[test]
fn roots_and_conversions_agree_with_the_machine() {
    let mut stream = Stream(13);
    for bits in special_32() {
        let x = f32::from_bits(bits);
        assert!(same_32(Binary32::from_bits(bits).square_root(), x.sqrt()));
        assert!(same_64(Binary32::from_bits(bits).widen(), f64::from(x)));
    }
    for _ in 0..20_000 {
        let a = stream.next() as u32;
        let b = stream.next();
        let x = f32::from_bits(a);
        let y = f64::from_bits(b);
        assert!(same_32(Binary32::from_bits(a).square_root(), x.sqrt()));
        assert!(same_64(Binary64::from_bits(b).square_root(), y.sqrt()));
        assert!(same_64(Binary32::from_bits(a).widen(), f64::from(x)));
        assert!(same_32(Binary64::from_bits(b).narrow(), y as f32));
        let mixed = f64::from(x) * (1.0 + f64::from((b & 0xffff) as u32) * 1.0e-12);
        assert!(same_32(wide(mixed).narrow(), mixed as f32));
        assert!(same_32(Binary32::from_integer(b), b as f32));
        assert!(same_64(Binary64::from_integer(b), b as f64));
        let small = b >> (b % 60);
        assert!(same_32(Binary32::from_integer(small), small as f32));
        assert!(same_64(Binary64::from_integer(small), small as f64));
    }
}

#[test]
fn whole_numbers_round_as_the_machine_does() {
    for value in [0.0_f32, 0.4, 0.5, 0.6, 1.5, 2.5, 9.6, 16_777_216.0, 1.0e18, 1.0e20, -0.5, -3.0] {
        assert_eq!(narrow(value).round(), value.round() as u64, "{value}");
        assert_eq!(narrow(value).floor(), value.floor().max(0.0) as u64, "{value}");
    }
    for value in [f32::NAN, f32::INFINITY, f32::NEG_INFINITY] {
        assert_eq!(narrow(value).round(), value.round() as u64);
    }
    for value in [0.0_f64, 0.5, 16_666.666_666, 16_666.5, 8_333.333, 250_000.0, 1.0e30, -1.0] {
        assert_eq!(wide(value).round(), value.round() as u64, "{value}");
    }
    let mut stream = Stream(17);
    for _ in 0..20_000 {
        let a = f32::from_bits(stream.next() as u32);
        let b = f64::from_bits(stream.next());
        assert_eq!(narrow(a).round(), a.round() as u64, "{a:e}");
        assert_eq!(narrow(a).floor(), a.floor().max(0.0) as u64, "{a:e}");
        assert_eq!(wide(b).round(), b.round() as u64, "{b:e}");
    }
}

#[test]
fn clamping_keeps_what_lies_inside() {
    for value in [-1.0_f32, -0.0, 0.0, 0.25, 1.0, 1.5] {
        assert!(same_32(
            narrow(value).clamp(narrow(0.0), narrow(1.0)),
            value.clamp(0.0, 1.0)
        ));
    }
    assert!(narrow(f32::NAN).clamp(narrow(0.0), narrow(1.0)).is_nan());
    assert_eq!(narrow(-0.0).canonical_zero().to_bits(), 0);
    assert_eq!(narrow(-2.5).abs().to_bits(), 2.5_f32.to_bits());
    assert_eq!(narrow(2.5).neg().to_bits(), (-2.5_f32).to_bits());
}

#[test]
fn narrowing_undoes_widening() {
    let mut stream = Stream(19);
    for _ in 0..5_000 {
        let bits = stream.next() as u32;
        if !f32::from_bits(bits).is_nan() {
            assert_eq!(Binary32::from_bits(bits).widen().narrow().to_bits(), bits);
        }
    }
}

#[test]
fn rounded_sums_keep_order() {
    let mut stream = Stream(23);
    for _ in 0..5_000 {
        let a = f32::from_bits(stream.next() as u32);
        let b = f32::from_bits(stream.next() as u32);
        let c = f32::from_bits(stream.next() as u32);
        if a.is_finite() && b.is_finite() && c.is_finite() && a <= b {
            assert!(narrow(a).sum(narrow(c)).is_at_most(narrow(b).sum(narrow(c))));
        }
    }
}

#[test]
fn fnv_hash_of_known_texts() {
    assert_eq!(fnv1a(b""), 0xcbf2_9ce4_8422_2325);
    assert_eq!(fnv1a(b"a"), 0xaf63_dc4c_8601_ec8c);
    assert_eq!(fnv1a(b"foobar"), 0x8594_4171_f739_67e8);
}

#[test]
fn decimals_are_written_as_usual() {
    for value in [0_u64, 7, 10, 99, 100, 18_446_744_073_709_551_615] {
        let mut text = String::from("n=");
        append_decimal(&mut text, value);
        assert_eq!(text, format!("n={value}"));
    }
}

#[test]
fn orders_are_stable() {
    assert_eq!(ascending_order(&vec![3, 1, 3, -2]), vec![3, 1, 0, 2]);
    let numbers = vec![wide(0.5), wide(2.0), wide(0.5), wide(-1.0)];
    assert_eq!(order_descending(&numbers), vec![1, 0, 2, 3]);
}

#[test]
fn takes_are_sorted_once() {
    let takes = vec!["b".to_owned(), "a".to_owned(), "b".to_owned(), "".to_owned()];
    assert_eq!(
        sorted_takes(&takes),
        vec!["".to_owned(), "a".to_owned(), "b".to_owned()]
    );
}
