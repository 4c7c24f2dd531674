use image_js::cmyk::InkOutcome;
use image_js::display::{DisplayTreatment, ProfileOutcome};
use image_js::errors::IngestError;
use image_js::ingest::DecodedImage;
use image_js::orientation::Orientation;
use image_js::pixels::SampleDepth;
use image_js::saveback::{encode_rgba8, encode_rgba8_opt, EncodeJob, LosslessShape, RasterFormat};
use image_js::source::{
    decode_rgba8, ChannelLayout, Format, Lane, PsdComposite, PsdRefusal, SourceInfo,
};

const PNG: [u8; 4] = [0x89, 0x50, 0x4e, 0x47];
const JPEG: [u8; 3] = [0xff, 0xd8, 0xff];

fn header(channels: ChannelLayout, width: u32, height: u32) -> SourceInfo {
    SourceInfo { width, height, channels, depth: SampleDepth::U8, orientation: None }
}

/// Decode `bytes` with a codec that reads `frame`.
fn decode(
    bytes: &[u8],
    info: Result<SourceInfo, String>,
    frame: Result<Vec<u8>, String>,
    ink: &dyn Fn(&Vec<u8>) -> InkOutcome,
    display: &dyn Fn(&Vec<u8>) -> ProfileOutcome,
) -> Result<DecodedImage, IngestError> {
    let psd = |_: &[u8]| Err(PsdRefusal::Other("not asked".to_string()));
    let probe = |_: Format, seen: &[u8]| match &info {
        Ok(i) if seen == bytes => Ok(SourceInfo { ..*i }),
        Ok(_) => Err("another file".to_string()),
        Err(e) => Err(e.clone()),
    };
    let lane = Lane {
        read: |_: Format, seen: &[u8], n: usize| {
            assert_eq!(seen, bytes, "the file's own frame");
            if let Ok(f) = &frame {
                assert_eq!(f.len(), n, "the frame that the header promises");
            }
            frame.clone()
        },
        ink: |_: &[u8], buf: &Vec<u8>| ink(buf),
        display: |_: &[u8], buf: &Vec<u8>| display(buf),
    };
    decode_rgba8(bytes, &psd, &probe, &lane)
}

fn untagged(_: &Vec<u8>) -> ProfileOutcome {
    ProfileOutcome::Absent
}

fn no_ink(_: &Vec<u8>) -> InkOutcome {
    panic!("only ink is cast")
}

#[test]
fn grey_spreads_and_turns_upright() {
    let mut info = header(ChannelLayout::Gray, 2, 1);
    info.orientation = Some(Orientation::TopRight);
    let image = decode(&JPEG, Ok(info), Ok(vec![7, 9]), &no_ink, &untagged).expect("decoded");
    assert_eq!((image.width, image.height), (2, 1));
    assert_eq!(image.rgba.to_rgba8().as_slice(), &[9, 9, 9, 255, 7, 7, 7, 255]);
    assert_eq!(image.display, DisplayTreatment::AssumedSrgb);
}

#[test]
fn the_display_transform_sees_upright_pixels() {
    let negative =
        |buf: &Vec<u8>| ProfileOutcome::Applied(buf.iter().map(|b| 255 - b).collect());
    let info = header(ChannelLayout::Rgba, 1, 1);
    let image = decode(&PNG, Ok(info), Ok(vec![1, 2, 3, 4]), &no_ink, &negative).expect("decoded");
    assert_eq!(image.rgba.to_rgba8().as_slice(), &[254, 253, 252, 251]);
    assert_eq!(image.display, DisplayTreatment::Managed);
}

#[test]
fn ink_settles_its_own_treatment() {
    let managed = |_: &Vec<u8>| InkOutcome::Applied(vec![5, 6, 7, 255]);
    let asked = |_: &Vec<u8>| -> ProfileOutcome { panic!("the cast settled it") };
    let info = header(ChannelLayout::Cmyk, 1, 1);
    let image = decode(&JPEG, Ok(info), Ok(vec![0, 0, 0, 0]), &managed, &asked).expect("decoded");
    assert_eq!(image.rgba.to_rgba8().as_slice(), &[5, 6, 7, 255]);
    assert_eq!(image.display, DisplayTreatment::Managed);
    let lost = |_: &Vec<u8>| InkOutcome::NoDestination("gone".to_string());
    let info = header(ChannelLayout::Cmyk, 1, 1);
    let err = decode(&JPEG, Ok(info), Ok(vec![0; 4]), &lost, &asked).unwrap_err();
    assert_eq!(err.to_text(), "unsupported: CMYK ingest destination: gone");
}

#[test]
fn every_refusal_is_in_its_own_words() {
    let info = || header(ChannelLayout::Rgba, 1, 1);
    let err = decode(b"GIF89a", Ok(info()), Ok(vec![0; 4]), &no_ink, &untagged).unwrap_err();
    assert!(err.to_text().starts_with("unsupported: unrecognized image container"));
    let err = decode(&PNG, Err("bad header".into()), Ok(vec![0; 4]), &no_ink, &untagged)
        .unwrap_err();
    assert_eq!(err.to_text(), "decode: bad header");
    let err = decode(&PNG, Ok(info()), Err("cut short".into()), &no_ink, &untagged).unwrap_err();
    assert_eq!(err.to_text(), "decode: cut short");
    let unread = Err("the frame is not read".to_string());
    let five = header(ChannelLayout::Cmyka, 1, 1);
    let err = decode(&PNG, Ok(five), unread, &no_ink, &untagged).unwrap_err();
    assert_eq!(err.to_text(), "unsupported: CMYK+alpha placed images (no 5-channel ingest lane)");
}

#[test]
fn a_layered_file_is_its_merged_composite() {
    let probe = |_: Format, _: &[u8]| -> Result<SourceInfo, String> { panic!("no raster codec") };
    let lane = Lane {
        read: |_: Format, _: &[u8], _: usize| -> Result<Vec<u8>, String> { panic!("no raster codec") },
        ink: |_: &[u8], buf: &Vec<u8>| no_ink(buf),
        display: |_: &[u8], buf: &Vec<u8>| untagged(buf),
    };
    let merged = |_: &[u8]| {
        Ok(PsdComposite { width: 1, height: 1, rgba: vec![1, 2, 3, 4], depth_reduced: true })
    };
    let image = decode_rgba8(b"8BPS", &merged, &probe, &lane).expect("decoded");
    assert_eq!(image.rgba.to_rgba8().as_slice(), &[1, 2, 3, 4]);
    assert!(image.depth_reduced);
    assert_eq!(image.display, DisplayTreatment::AssumedSrgb);
    let lab = |_: &[u8]| Err(PsdRefusal::Unsupported("Lab".to_string()));
    let err = decode_rgba8(b"8BPS", &lab, &probe, &lane).unwrap_err();
    assert_eq!(err.to_text(), "unsupported: Lab");
    let torn = |_: &[u8]| Err(PsdRefusal::Other("torn".to_string()));
    let err = decode_rgba8(b"8BPS", &torn, &probe, &lane).unwrap_err();
    assert_eq!(err.to_text(), "decode: torn");
}

/// Decode what a codec that loses nothing reads of a job's file.
fn read_back(job: &EncodeJob) -> DecodedImage {
    let (channels, frame) = match job.shape {
        LosslessShape::Gray => (ChannelLayout::Gray, job.bytes.clone()),
        LosslessShape::GrayA => (ChannelLayout::GrayA, job.bytes.clone()),
        LosslessShape::Rgba => (ChannelLayout::Rgba, job.bytes.clone()),
        LosslessShape::Rgb => {
            let filled = job.bytes.chunks_exact(3).flat_map(|p| [p[0], p[1], p[2], 255]).collect();
            (ChannelLayout::Rgba, filled)
        }
    };
    let info = header(channels, job.width, job.height);
    decode(&PNG, Ok(info), Ok(frame), &no_ink, &untagged).expect("decoded")
}

#[test]
fn what_is_encoded_decodes_to_itself() {
    let contents: [(&[u8], LosslessShape); 4] = [
        (&[1, 2, 3, 4, 5, 6, 7, 8], LosslessShape::Rgba),
        (&[1, 2, 3, 255, 5, 6, 7, 255], LosslessShape::Rgb),
        (&[9, 9, 9, 4, 7, 7, 7, 0], LosslessShape::GrayA),
        (&[9, 9, 9, 255, 7, 7, 7, 255], LosslessShape::Gray),
    ];
    for (rgba, shape) in contents {
        let whole = encode_rgba8(rgba, 2, 1, RasterFormat::Png).expect("sized");
        let small = encode_rgba8_opt(rgba, 2, 1, RasterFormat::Png, 90, true).expect("sized");
        assert_eq!(small.shape, shape);
        for job in [whole, small] {
            let image = read_back(&job);
            assert_eq!((image.width, image.height), (2, 1));
            assert_eq!(image.rgba.raw(), rgba);
            assert_eq!(image.rgba.depth(), SampleDepth::U8);
            assert_eq!(image.display, DisplayTreatment::AssumedSrgb);
            assert!(!image.depth_reduced);
        }
    }
}
