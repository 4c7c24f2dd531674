use image_js::errors::IngestError;
use image_js::saveback::{
    encode_composite_rle, encode_rgba8, planes_from_rgba8, psd_write_adjusted, single_layer,
    ColorMode, LayerEdit, PsdDocument, PsdLayer, PsdSaveBackShape, RasterFormat,
};

fn flat_psd() -> PsdDocument {
    PsdDocument {
        psb: false,
        depth: 8,
        color_mode: ColorMode::Rgb,
        width: 2,
        height: 1,
        channels: 3,
        transparency_in_merged: false,
        layers: Vec::new(),
    }
}

/// Packs a one-row plane as a count and the row itself.
fn pack(plane: &Vec<u8>) -> Result<Vec<u8>, String> {
    let mut out = (plane.len() as u16).to_be_bytes().to_vec();
    out.extend_from_slice(plane);
    Ok(out)
}

fn full_canvas(ids: &[i16]) -> PsdLayer {
    PsdLayer { top: 0, left: 0, bottom: 1, right: 2, channel_ids: ids.to_vec(), divider: false }
}

#[test]
fn image_editor_saveback_psd_round_trips_the_adjusted_pixels() {
    let file = flat_psd();
    let rgba = vec![1u8, 2, 3, 255, 4, 5, 6, 255];
    let plan = psd_write_adjusted(&file, 2, 1, &rgba, &pack).expect("save-back");
    assert_eq!(
        plan.shape,
        PsdSaveBackShape::Flattened,
        "a layerless PSD gains the synthesized single layer"
    );
    assert_eq!(plan.planes, vec![vec![1, 4], vec![2, 5], vec![3, 6]]);
    assert_eq!(plan.channels, 3);
    assert_eq!(plan.composite, vec![0, 2, 0, 2, 0, 2, 1, 4, 2, 5, 3, 6]);
    match plan.edit {
        LayerEdit::Flatten { record } => {
            assert_eq!(record.channels.iter().map(|c| c.id).collect::<Vec<_>>(), vec![0, 1, 2]);
            assert_eq!(record.channel_data, plan.packed);
            assert_eq!((record.top, record.left, record.bottom, record.right), (0, 0, 1, 2));
            assert_eq!((&record.blend_sig, &record.blend_key), (b"8BIM", b"norm"));
            assert_eq!(record.name, "Adjusted");
        }
        LayerEdit::Replace { .. } => panic!("there is no layer to replace"),
    }
}

#[test]
fn image_editor_saveback_psd_replaces_a_single_full_canvas_layer_in_place() {
    let mut file = flat_psd();
    file.layers = vec![full_canvas(&[0, 1, 2])];
    let rgba = vec![7u8, 8, 9, 255, 10, 11, 12, 255];
    let plan = psd_write_adjusted(&file, 2, 1, &rgba, &pack).expect("save-back");
    assert_eq!(plan.shape, PsdSaveBackShape::LayerReplaced);
    assert_eq!(plan.planes, vec![vec![7, 10], vec![8, 11], vec![9, 12]]);
    match plan.edit {
        LayerEdit::Replace { layer, planes } => {
            assert_eq!(layer, 0);
            assert_eq!(planes, vec![0, 1, 2]);
        }
        LayerEdit::Flatten { .. } => panic!("no records added/removed"),
    }
}

#[test]
fn image_editor_saveback_psd_rejects_a_size_mismatch() {
    let file = flat_psd();
    let err = psd_write_adjusted(&file, 4, 4, &[0u8; 64], &pack).unwrap_err();
    assert!(matches!(err, IngestError::Unsupported(_)), "got {err:?}");
}

#[test]
fn other_depths_modes_and_torn_buffers_are_refused() {
    let mut deep = flat_psd();
    deep.depth = 16;
    let err = psd_write_adjusted(&deep, 2, 1, &[0u8; 8], &pack).unwrap_err();
    assert!(err.to_text().contains("depth 16"), "{}", err.to_text());
    let mut cmyk = flat_psd();
    cmyk.color_mode = ColorMode::Cmyk;
    let err = psd_write_adjusted(&cmyk, 2, 1, &[0u8; 8], &pack).unwrap_err();
    assert!(matches!(err, IngestError::Unsupported(_)), "got {err:?}");
    let err = psd_write_adjusted(&flat_psd(), 2, 1, &[0u8; 7], &pack).unwrap_err();
    assert!(matches!(err, IngestError::Decode(_)), "got {err:?}");
}

#[test]
fn a_divider_is_no_content_layer() {
    let mut file = flat_psd();
    let mut divider = full_canvas(&[]);
    divider.divider = true;
    file.layers = vec![divider, full_canvas(&[2, 1, 0])];
    let plan = psd_write_adjusted(&file, 2, 1, &[1, 2, 3, 255, 4, 5, 6, 255], &pack).expect("save-back");
    match plan.edit {
        LayerEdit::Replace { layer, planes } => {
            assert_eq!(layer, 1);
            assert_eq!(planes, vec![2, 1, 0], "each channel takes the plane of its id");
        }
        LayerEdit::Flatten { .. } => panic!("one content layer"),
    }
    file.layers.push(full_canvas(&[0, 1, 2]));
    let plan = psd_write_adjusted(&file, 2, 1, &[0u8; 8], &pack).expect("save-back");
    assert_eq!(plan.shape, PsdSaveBackShape::Flattened, "two content layers flatten");
}

#[test]
fn alpha_travels_where_the_merged_composite_declares_it() {
    let mut file = flat_psd();
    file.transparency_in_merged = true;
    file.channels = 4;
    let plan = psd_write_adjusted(&file, 2, 1, &[1, 2, 3, 9, 4, 5, 6, 8], &pack).expect("save-back");
    assert_eq!(plan.planes[3], vec![9, 8]);
    assert_eq!(plan.channels, 4);
    assert!(plan.transparency_in_merged);
    let record = single_layer(&plan.packed, 2, 1, true);
    assert_eq!(record.channels.iter().map(|c| c.id).collect::<Vec<_>>(), vec![-1, 0, 1, 2]);
    assert!(record.channels.iter().all(|c| c.data_len == 6));
    assert_eq!(record.channel_data[0], vec![0, 2, 9, 8]);
    assert_eq!(planes_from_rgba8(&[1, 2, 3, 9], 1, true), vec![vec![1], vec![2], vec![3], vec![9]]);
}

#[test]
fn image_editor_saveback_encode_rejects_a_length_mismatch() {
    assert!(encode_rgba8(&[0u8; 6], 2, 1, RasterFormat::Png).is_err());
}

#[test]
fn an_encode_job_carries_the_pixels_it_was_given() {
    let rgba = vec![255u8, 0, 0, 255, 0, 255, 0, 255];
    let job = encode_rgba8(&rgba, 2, 1, RasterFormat::Png).expect("png");
    assert_eq!((job.width, job.height), (2, 1));
    assert_eq!(job.format, RasterFormat::Png);
    assert_eq!(job.bytes, rgba);
}

#[test]
fn image_editor_saveback_raster_format_names_round_trip() {
    assert_eq!(RasterFormat::from_wire("png"), Some(RasterFormat::Png));
    assert_eq!(RasterFormat::from_wire("jpg"), Some(RasterFormat::Jpeg));
    assert_eq!(RasterFormat::from_wire("jpeg"), Some(RasterFormat::Jpeg));
    assert_eq!(RasterFormat::from_wire("webp"), None);
    assert_eq!(RasterFormat::Png.extension(), ".png");
    assert_eq!(RasterFormat::Jpeg.mime(), "image/jpeg");
    assert_eq!(RasterFormat::Png.mime(), "image/png");
    assert_eq!(RasterFormat::Jpeg.extension(), ".jpg");
}

#[test]
fn the_shapes_describe_themselves() {
    assert!(PsdSaveBackShape::LayerReplaced.describe().contains("layer structure preserved"));
    assert!(PsdSaveBackShape::Flattened.describe().contains("FLATTENED"));
    for (shape, tag) in [
        (PsdSaveBackShape::LayerReplaced, "layer-replaced: "),
        (PsdSaveBackShape::Flattened, "flattened: "),
    ] {
        assert_eq!(shape.answer(), format!("{tag}{}", shape.describe()));
    }
}

#[test]
fn a_composite_section_lists_its_rows_before_its_data() {
    // Two planes of one row: both counts come first, then both rows.
    let rows = vec![vec![0u8, 2, 0xff, 7], vec![0, 3, 1, 5, 6]];
    let packed = |p: &Vec<u8>| Ok(p.clone());
    let (section, kept) = encode_composite_rle(&rows, false, 1, &packed).expect("well-formed");
    assert_eq!(section, vec![0, 2, 0, 3, 0xff, 7, 1, 5, 6]);
    assert_eq!(kept, rows);
    let err = encode_composite_rle(&rows, true, 2, &packed).unwrap_err();
    assert!(err.to_text().contains("short count table"));
    let refuse = |_: &Vec<u8>| Err("no room".to_string());
    let err = encode_composite_rle(&rows, false, 1, &refuse).unwrap_err();
    assert_eq!(err.to_text(), "decode: no room");
}
