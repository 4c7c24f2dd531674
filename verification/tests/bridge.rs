use half::f16;
use image_js::bridge::{f16_to_rgba8, f16_to_rgba8_unpremul, rgba8_to_f16};

#[test]
fn every_byte_widens_as_the_half_crate_does() {
    for b in 0..=255u8 {
        let want = f16::from_f32(f32::from(b) / 255.0).to_le_bytes();
        assert_eq!(rgba8_to_f16(&[b]), want.to_vec(), "byte {b}");
    }
}

#[test]
fn every_finite_pattern_narrows_as_the_half_crate_does() {
    for bits in 0..=u16::MAX {
        let h = f16::from_bits(bits);
        let want = (h.to_f32().clamp(0.0, 1.0) * 255.0).round() as u8;
        assert_eq!(f16_to_rgba8(&bits.to_le_bytes()), vec![want], "pattern {bits:#06x}");
    }
}

#[test]
fn a_window_round_trips() {
    let all: Vec<u8> = (0..=255).collect();
    assert_eq!(f16_to_rgba8(&rgba8_to_f16(&all)), all);
}

#[test]
fn a_premultiplied_window_is_dissociated() {
    let quotient = |c: u16, a: u16| {
        let v = f16::from_bits(c).to_f32() / f16::from_bits(a).to_f32();
        (v.clamp(0.0, 1.0) * 255.0).round() as u8
    };
    let window = |px: [f32; 4]| {
        px.iter().flat_map(|v| f16::from_f32(*v).to_le_bytes()).collect::<Vec<u8>>()
    };
    let half = window([0.25, 0.5, 0.0, 0.5]);
    assert_eq!(f16_to_rgba8_unpremul(&half, &quotient), vec![128, 255, 0, 128]);
    let clear = window([0.25, 0.5, 1.0, 0.0]);
    assert_eq!(f16_to_rgba8_unpremul(&clear, &quotient), vec![0, 0, 0, 0]);
    let over = window([0.25, 0.5, 1.0, 4.0]);
    assert_eq!(f16_to_rgba8_unpremul(&over, &quotient), vec![64, 128, 255, 255]);
    let nan = window([0.25, 0.5, 1.0, f32::NAN]);
    assert_eq!(f16_to_rgba8_unpremul(&nan, &quotient), vec![0, 0, 0, 0]);
}
