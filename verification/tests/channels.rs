use image_js::channels::{channel_bytes, stats_json, stats_of, Channel, ChannelStats};

const TWO: [u8; 8] = [10, 20, 30, 40, 200, 100, 50, 255];

fn mean(s: &ChannelStats) -> f64 {
    s.sum as f64 / s.count as f64
}

#[test]
fn image_channels_readout_reduces_each_channel_separately() {
    for (c, min, max, m) in [
        (Channel::Red, 10, 200, 105.0),
        (Channel::Green, 20, 100, 60.0),
        (Channel::Blue, 30, 50, 40.0),
        (Channel::Alpha, 40, 255, 147.5),
    ] {
        let s = stats_of(&TWO, c).expect("measured");
        assert_eq!((s.min, s.max, mean(&s)), (min, max, m));
    }
}

#[test]
fn image_channels_readout_empty_is_unmeasured_not_zero() {
    assert!(stats_of(&[], Channel::Red).is_none());
    assert!(stats_json(&[]).contains("\"min\":null"));
}

#[test]
fn image_channels_to_selection_copies_bytes_without_thresholding() {
    assert_eq!(channel_bytes(&TWO, Channel::Red), vec![10, 200]);
    assert_eq!(channel_bytes(&TWO, Channel::Alpha), vec![40, 255]);
    let grey = [128, 128, 128, 255];
    assert_eq!(
        channel_bytes(&grey, Channel::Red),
        vec![128],
        "a 50% channel is a 50% selection, not a rounded 0 or 255"
    );
}

#[test]
fn image_channels_readout_luma_is_rec709() {
    assert_eq!(channel_bytes(&[0, 255, 0, 255], Channel::Luma), vec![182]);
    assert_eq!(channel_bytes(&[255, 0, 0, 255], Channel::Luma), vec![54]);
    assert_eq!(channel_bytes(&[0, 0, 255, 255], Channel::Luma), vec![18]);
    assert_eq!(channel_bytes(&[255, 255, 255, 255], Channel::Luma), vec![255]);
}

#[test]
fn image_channels_to_selection_refuses_an_unknown_channel_name() {
    assert_eq!(Channel::from_name("red"), Some(Channel::Red));
    assert_eq!(Channel::from_name("luma"), Some(Channel::Luma));
    assert_eq!(Channel::from_name("rd"), None);
    assert_eq!(Channel::from_name(""), None);
    assert_eq!(Channel::from_name("Red"), None, "the wire name is lowercase");
}

#[test]
fn image_channels_readout_json_lists_five_rows_in_order() {
    let json = stats_json(&TWO);
    let order: Vec<&str> = ["red", "green", "blue", "alpha", "luma"]
        .iter()
        .filter(|n| json.contains(&format!("\"name\":\"{n}\"")))
        .copied()
        .collect();
    assert_eq!(order, ["red", "green", "blue", "alpha", "luma"]);
    assert!(json.contains("\"mean\":105.000"), "{json}");
}

#[test]
fn names_round_trip_and_values_read_their_channel() {
    for c in [Channel::Red, Channel::Green, Channel::Blue, Channel::Alpha, Channel::Luma] {
        assert_eq!(Channel::from_name(c.name()), Some(c));
    }
    assert_eq!(Channel::Blue.value_at(&TWO[4..]), 50);
}

#[test]
fn luma_agrees_with_single_precision_on_a_grid() {
    for r in (0..=255u8).step_by(5) {
        for g in (0..=255u8).step_by(3) {
            for b in (0..=255u8).step_by(5) {
                let want = (0.2126f32 * f32::from(r) + 0.7152 * f32::from(g)
                    + 0.0722 * f32::from(b))
                .round()
                .clamp(0.0, 255.0) as u8;
                assert_eq!(channel_bytes(&[r, g, b, 255], Channel::Luma)[0], want, "{r} {g} {b}");
            }
        }
    }
}

#[test]
fn the_mean_is_printed_as_a_double_with_three_decimals() {
    let mut px = Vec::new();
    for i in 0..7u8 {
        px.extend_from_slice(&[i * 3, i, 255 - i, 17 * i]);
    }
    let json = stats_json(&px);
    for c in [Channel::Red, Channel::Green, Channel::Blue, Channel::Alpha, Channel::Luma] {
        let bytes = channel_bytes(&px, c);
        let sum: u64 = bytes.iter().map(|b| u64::from(*b)).sum();
        let want = format!("\"mean\":{:.3}", sum as f64 / bytes.len() as f64);
        assert!(json.contains(&want), "{json} lacks {want}");
    }
}
