use image_js::pixels::{ByteOrder, Pixels, Rgba8, SampleDepth};
use std::sync::Arc;

#[test]
fn an_8bit_buffer_is_borrowed_not_copied() {
    let p = Pixels::from_rgba8(Arc::new(vec![1u8, 2, 3, 4]));
    assert!(matches!(p.to_rgba8(), Rgba8::Borrowed(_)));
    assert_eq!(p.bytes_per_pixel(), 4);
    assert_eq!(p.pixel_count(), 1);
}

#[test]
fn a_16bit_buffer_narrows_by_the_high_byte() {
    let p = Pixels::from_rgba16(&[0x1234, 0x5678, 0x9ABC, 0xFFFF]);
    assert_eq!(p.bytes_per_pixel(), 8);
    assert_eq!(p.pixel_count(), 1);
    assert_eq!(p.to_rgba8().as_slice(), &[0x12, 0x56, 0x9A, 0xFF]);
}

#[test]
fn widening_maps_white_to_white_exactly() {
    let p = Pixels::from_rgba8(Arc::new(vec![255u8, 0, 128, 255]));
    assert_eq!(p.sample16(0, 0), 0xFFFF);
    assert_eq!(p.sample16(0, 1), 0x0000);
    assert_eq!(p.sample16(0, 2), 0x8080);
}

#[test]
fn a_16bit_sample_reads_back_unchanged() {
    let p = Pixels::from_rgba16(&[0x1234, 0x5678, 0x9ABC, 0xFFFF]);
    assert_eq!(p.sample16(0, 0), 0x1234);
    assert_eq!(p.sample16(0, 3), 0xFFFF);
}

#[test]
fn narrow_then_widen_is_stable_for_8bit_content() {
    let src: Vec<u8> = (0..=255).collect();
    let p = Pixels::from_rgba8(Arc::new(src.clone()));
    let wide: Vec<u16> = (0..src.len()).map(|i| p.sample16(i / 4, i % 4)).collect();
    let back = Pixels::from_rgba16(&wide);
    assert_eq!(back.to_rgba8().as_slice(), &src[..]);
}

#[test]
fn raw_bytes_keep_their_depth() {
    let p = Pixels::from_raw(vec![1, 2, 3, 4, 5, 6, 7, 8], SampleDepth::U16);
    assert!(p.is_16bit() && !p.is_empty());
    assert_eq!((p.len(), p.pixel_count()), (8, 1));
    assert_eq!(p.sample16(0, 0), u16::from_ne_bytes([1, 2]));
    assert_eq!(p.depth(), SampleDepth::U16);
}

#[test]
fn samples_are_packed_in_the_machine_s_own_order() {
    let samples = [0x1234u16, 0x5678, 0x9ABC, 0xFFFE];
    let native: Vec<u8> = samples.iter().flat_map(|s| s.to_ne_bytes()).collect();
    assert_eq!(Pixels::from_rgba16(&samples).raw(), &native[..]);
}

#[test]
fn either_byte_order_reads_back_and_narrows_alike() {
    let samples = [0x1234u16, 0x5678, 0x9ABC, 0xFFFE];
    let low = Pixels::from_rgba16_in(&samples, ByteOrder::LowFirst);
    let high = Pixels::from_rgba16_in(&samples, ByteOrder::HighFirst);
    assert_eq!(low.raw(), &[0x34, 0x12, 0x78, 0x56, 0xBC, 0x9A, 0xFE, 0xFF]);
    assert_eq!(high.raw(), &[0x12, 0x34, 0x56, 0x78, 0x9A, 0xBC, 0xFF, 0xFE]);
    for p in [low, high] {
        assert_eq!(p.to_rgba8().as_slice(), &[0x12, 0x56, 0x9A, 0xFF]);
        for (c, s) in samples.iter().enumerate() {
            assert_eq!(p.sample16(0, c), *s);
        }
    }
}
