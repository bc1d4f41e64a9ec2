use adaptive_network::single::Single;
use adaptive_network::text::{push_hundredths, push_rounded};

fn samples() -> Vec<u32> {
    let mut out = vec![
        0u32, 0x8000_0000, 1, 0x8000_0001, 0x007f_ffff, 0x0080_0000, 0x7f7f_ffff, 0xff7f_ffff,
        0x7f80_0000, 0xff80_0000, 0x3f80_0000, 0xbf80_0000, 0x3f00_0000, 0x4b00_0000, 0x4b7f_ffff,
        0x5f00_0000, 0x5f80_0000, 0x3eff_ffff, 0x3f00_0001, 0x7f00_0000, 0x0100_0000,
    ];
    for x in [0.4f32, 0.7, 0.85, 0.2, 0.15, 0.9, 0.1, 0.3, 0.6, 1.15, 1.75, 2.5, 3.5, 40.0, 95.0, 255.0, -12.5] {
        out.push(x.to_bits());
    }
    let mut seed = 0x1234_5678u32;
    for _ in 0..60 {
        seed = seed.wrapping_mul(1664525).wrapping_add(1013904223);
        out.push(seed);
        out.push((seed >> 9) | 0x3f00_0000);
    }
    out
}

fn same(a: Single, b: f32) -> bool {
    if b.is_nan() { a.is_nan() } else { a.to_bits() == b.to_bits() }
}

#[test]
fn arithmetic_agrees_with_the_machine() {
    for &x in &samples() {
        for &y in &samples() {
            let (a, b) = (Single::from_bits(x), Single::from_bits(y));
            let (p, q) = (f32::from_bits(x), f32::from_bits(y));
            assert!(same(a.plus(b), p + q), "{} + {}", p, q);
            assert!(same(a.minus(b), p - q), "{} - {}", p, q);
            assert!(same(a.times(b), p * q), "{} * {}", p, q);
            assert!(same(a.over(b), p / q), "{} / {}", p, q);
            assert_eq!(a.lt(b), p < q);
            assert_eq!(a.le(b), p <= q);
            assert_eq!(a.gt(b), p > q);
            assert_eq!(a.ge(b), p >= q);
            if p != q {
                assert!(same(a.max(b), p.max(q)), "{} max {}", p, q);
                assert!(same(a.min(b), p.min(q)), "{} min {}", p, q);
            }
        }
    }
}

#[test]
fn whole_numbers_agree_with_the_machine() {
    for n in [0u64, 1, 2, 40, 95, 255, 16_777_216, 16_777_217, 16_777_219, u32::MAX as u64, u64::MAX] {
        assert!(same(Single::from_whole(n), n as f32), "{}", n);
    }
    for &x in &samples() {
        let (a, p) = (Single::from_bits(x), f32::from_bits(x));
        assert_eq!(a.round(), p.round() as u64, "{}", p);
        assert_eq!(a.ceil(), p.ceil() as u64, "{}", p);
    }
}

#[test]
fn number_texts_agree_with_the_machine() {
    for &x in &samples() {
        let p = f32::from_bits(x);
        let mut s = String::new();
        push_rounded(&mut s, Single::from_bits(x));
        assert_eq!(s, format!("{:.0}", p));
        let mut s = String::new();
        push_hundredths(&mut s, Single::from_bits(x));
        assert_eq!(s, format!("{:.2}", p));
    }
}

#[test]
fn whole_numbers_come_back_from_rounding() {
    for n in (0..0x0100_0000u64).step_by(4099).chain([0, 1, 255, 0x00ff_ffff]) {
        assert_eq!(Single::from_whole(n).round(), n);
        assert_eq!(Single::from_whole(n).to_bits(), (n as f32).to_bits());
    }
    // Above that the nearest number is taken.
    assert_eq!(Single::from_whole(0x0100_0001).round(), 0x0100_0000);
    assert_eq!(Single::from_whole(u64::MAX).to_bits(), (u64::MAX as f32).to_bits());
}
