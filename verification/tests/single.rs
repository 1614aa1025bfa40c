use schematic_diff::single::{in_hundredths, round, round_ratio};

#[test]
fn whole_numbers_are_rounded_to_single_precision() {
    for n in [0u64, 1, 0xff_ffff, 0x100_0000, 0x100_0001, 0x100_0003, 0x3ff_fffd, 0x123_4567_89ab] {
        assert_eq!(round(n), n as f32 as u64);
    }
    assert_eq!(round(0x100_0001), 0x100_0000);
    assert_eq!(round(0x100_0003), 0x100_0004);
}

#[test]
fn fractions_are_rounded_to_single_precision() {
    assert_eq!(round_ratio(7, 2), 4);
    assert_eq!(round_ratio(5, 2), 2);
    assert_eq!(round_ratio(0x200_0000 * 3 + 1, 3), 0x200_0000);
    assert_eq!(round_ratio(0x100_0000 * 255, 255), 0x100_0000);
}

#[test]
fn shares_are_told_in_hundredths() {
    let said = |share: f32| (share * 100.0).round() as i32;
    for n in 0..=2000u32 {
        let share = n as f32 / 2000.0;
        assert_eq!(in_hundredths(share.to_bits()), said(share));
    }
    for share in [0.004_999_999_8f32, 0.005, 0.125, 0.994_999_9, 0.995, 1.0, 1.0 / 3.0] {
        assert_eq!(in_hundredths(share.to_bits()), said(share));
    }
    assert_eq!(in_hundredths(1.0f32.to_bits()), 100);
    assert_eq!(in_hundredths(0.745f32.to_bits()), 75);
}

#[test]
fn any_number_is_told_in_hundredths() {
    let said = |value: f32| (value * 100.0).round() as i32;
    let mut bits: u32 = 0x9e37_79b9;
    for _ in 0..20_000 {
        bits = bits.wrapping_mul(1_664_525).wrapping_add(1_013_904_223);
        assert_eq!(in_hundredths(bits), said(f32::from_bits(bits)));
    }
    for value in [0.0f32, -0.0, -0.005, -1.5, 2.0e7, 2.147_483_6e7, -2.2e7, f32::MIN_POSITIVE] {
        assert_eq!(in_hundredths(value.to_bits()), said(value));
    }
    for value in [f32::NAN, f32::INFINITY, f32::NEG_INFINITY, f32::MAX] {
        assert_eq!(in_hundredths(value.to_bits()), said(value));
    }
}
