use image_js::cmyk::InkOutcome;
use image_js::coverage::Region;
use image_js::display::ProfileOutcome;
use image_js::ingest::DecodedImage;
use image_js::layers::{HistoryStep, LayerStack};
use image_js::pixels::{Pixels, SampleDepth};
use image_js::source::{admit_source, finish_source, upright_source, ChannelLayout, SourceInfo};
use std::sync::Arc;

/// The ingest of a codec's full-frame RGBA read.
fn opened(width: u32, height: u32, depth: SampleDepth, buf: Vec<u8>) -> DecodedImage {
    let info = SourceInfo { width, height, channels: ChannelLayout::Rgba, depth, orientation: None };
    let want = admit_source(&info).expect("must open");
    assert_eq!(want, buf.len() as u128);
    let source = upright_source(&info, buf, InkOutcome::Absent).expect("upright");
    finish_source(source, ProfileOutcome::Absent)
}

fn png16(width: u32, height: u32, samples: &[u16]) -> DecodedImage {
    let mut buf = Vec::with_capacity(samples.len() * 2);
    for s in samples {
        buf.extend_from_slice(&s.to_le_bytes());
    }
    opened(width, height, SampleDepth::U16, buf)
}

const PROBE: [u16; 8] = [0x1234, 0x5678, 0x9ABC, 0xFFFF, 0xDE01, 0x02FE, 0x8001, 0x7FFF];

#[test]
fn a_16bit_png_opens_and_keeps_its_depth() {
    let img = png16(2, 1, &PROBE);
    assert_eq!(img.width, 2);
    assert_eq!(img.height, 1);
    assert!(img.rgba.is_16bit(), "the depth must survive the ingest");
    assert_eq!(img.rgba.pixel_count(), 2);
    assert_eq!(img.rgba.len(), 16, "2 px x 4 ch x 2 bytes");
}

#[test]
fn nothing_was_narrowed_so_nothing_claims_it_was() {
    let img = png16(2, 1, &PROBE);
    assert!(!img.depth_reduced, "a 16-bit PNG that keeps its bits was not reduced");
}

#[test]
fn every_bit_survives_the_ingest_lane() {
    let src = [0x1234u16, 0x5678, 0x9ABC, 0xFFFF];
    let img = png16(1, 1, &src);
    for (c, want) in src.iter().enumerate() {
        assert_eq!(img.rgba.sample16(0, c), *want, "channel {c}");
    }
}

#[test]
fn the_values_an_8bit_lane_could_not_tell_apart_stay_distinct() {
    let img = png16(1, 1, &[0xFFFF, 0xFF00, 0x8000, 0xFFFF]);
    assert_ne!(img.rgba.sample16(0, 0), img.rgba.sample16(0, 1));
    assert_eq!(img.rgba.sample16(0, 0), 0xFFFF);
    assert_eq!(img.rgba.sample16(0, 1), 0xFF00);
}

#[test]
fn an_8bit_png_is_neither_widened_nor_marked_reduced() {
    let src = [10u8, 20, 30, 255, 40, 50, 60, 128];
    let img = opened(2, 1, SampleDepth::U8, src.to_vec());
    assert!(!img.depth_reduced, "an 8-bit PNG lost nothing");
    assert!(!img.rgba.is_16bit(), "an 8-bit file must not be widened");
    assert_eq!(img.rgba.to_rgba8().as_slice(), &src[..]);
}

fn px16(w: u32, h: u32, v: u16) -> Pixels {
    Pixels::from_rgba16(&vec![v; (w * h * 4) as usize])
}

#[test]
fn a_16bit_layer_edit_journals_and_undoes_at_16_bits() {
    let mut s = LayerStack::from_image_px(4, 4, px16(4, 4, 0x1234)).unwrap();
    assert!(s.active().rgba.is_16bit(), "the stack must start 16-bit");

    let record = s
        .edit_active("paint", Region::new(0, 0, 4, 4), px16(4, 4, 0xABCD))
        .expect("unlocked");
    assert_eq!(s.active().rgba.sample16(0, 0), 0xABCD);
    assert!(s.active().rgba.is_16bit(), "the edit must not narrow");

    s.undo(HistoryStep { scope: record.scope, label: record.label, pixels: record.before })
        .expect("something to undo");
    assert_eq!(
        s.active().rgba.sample16(0, 0),
        0x1234,
        "undo must restore the FULL sample, not its high byte"
    );
    assert!(s.active().rgba.is_16bit(), "undo must not narrow either");
}

#[test]
fn a_mismatched_depth_edit_is_refused_rather_than_narrowed() {
    let mut s = LayerStack::from_image_px(4, 4, px16(4, 4, 0x1234)).unwrap();
    let eight = Pixels::from_rgba8(Arc::new(vec![9u8; 4 * 4 * 4]));
    let err = s
        .edit_active("paint", Region::new(0, 0, 4, 4), eight)
        .expect_err("a depth mismatch must be refused");
    assert!(
        err.to_text().contains("depths must match"),
        "the refusal must say why: {}",
        err.to_text()
    );
}

#[test]
fn an_8bit_stack_is_untouched_by_any_of_this() {
    let mut s = LayerStack::from_image(4, 4, Arc::new(vec![10u8; 4 * 4 * 4])).unwrap();
    assert!(!s.active().rgba.is_16bit());
    let record = s
        .edit_active(
            "paint",
            Region::new(0, 0, 4, 4),
            Pixels::from_rgba8(Arc::new(vec![20u8; 4 * 4 * 4])),
        )
        .expect("unlocked");
    assert_eq!(s.active().rgba.to_rgba8().as_slice()[0], 20);
    s.undo(HistoryStep { scope: record.scope, label: record.label, pixels: record.before })
        .expect("something to undo");
    assert_eq!(s.active().rgba.to_rgba8().as_slice()[0], 10);
    assert!(!s.active().rgba.is_16bit(), "must not be widened");
}
