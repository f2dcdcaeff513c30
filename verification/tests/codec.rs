use termchat::ascii::{ascii_for_rgb, luminance, AsciiFrame, FrameFormatError};

const PALETTE: &str = " .'`^\",:;Il!i><~+_-?][}{1)(|\\tfjrxnuvczXYUJCLQ0OZmwqpdbkhao*#MW&8%B@$";

#[test]
fn blank_frame_has_blank_cells() {
    let f = AsciiFrame::new(3, 2);
    assert_eq!(f.width, 3);
    assert_eq!(f.height, 2);
    assert_eq!(f.cells.len(), 6);
    for c in &f.cells {
        assert_eq!(*c, (' ', 0, 0, 0));
    }
}

#[test]
fn luminance_exact_values() {
    assert_eq!(luminance(0, 0, 0), 0);
    assert_eq!(luminance(255, 255, 255), 255);
    assert_eq!(luminance(255, 0, 0), 76);
    assert_eq!(luminance(0, 0, 255), 29);
    assert_eq!(luminance(100, 50, 200), 82);
}

#[test]
fn glyph_for_extremes() {
    assert_eq!(ascii_for_rgb(0, 0, 0), ' ');
    assert_eq!(ascii_for_rgb(255, 255, 255), '$');
    assert_eq!(ascii_for_rgb(128, 128, 128), 'n');
}

#[test]
fn glyph_rank_monotonic_in_luminance() {
    // A gray sample's luminance is the gray level itself, so walking the
    // gray axis walks the ramp without ever stepping backwards.
    let mut last = 0usize;
    for l in 0..=255u8 {
        let g = ascii_for_rgb(l, l, l);
        let rank = PALETTE.find(g).expect("glyph must come from the ramp");
        assert!(rank >= last);
        last = rank;
    }
    assert_eq!(last, PALETTE.chars().count() - 1);
}

#[test]
fn from_rgb_data_colored_cells() {
    let data = [255u8, 0, 0, 0, 0, 255];
    let f = AsciiFrame::from_rgb_data(&data, 2, 1, false).unwrap();
    assert_eq!(f.cells, vec![(']', 255, 0, 0), (':', 0, 0, 255)]);
}

#[test]
fn from_rgb_data_mono_desaturates() {
    let data = [255u8, 0, 0];
    let f = AsciiFrame::from_rgb_data(&data, 1, 1, true).unwrap();
    assert_eq!(f.cells, vec![(']', 76, 76, 76)]);
}

#[test]
fn from_rgb_data_short_buffer_pads_black() {
    let data = [10u8, 20, 30];
    let f = AsciiFrame::from_rgb_data(&data, 2, 2, false).unwrap();
    assert_eq!(f.cells.len(), 4);
    assert_eq!(f.cells[0], (ascii_for_rgb(10, 20, 30), 10, 20, 30));
    for i in 1..4 {
        assert_eq!(f.cells[i], (' ', 0, 0, 0));
    }
}

#[test]
fn serialize_layout_is_fixed() {
    let f = AsciiFrame { width: 1, height: 1, cells: vec![('A', 1, 2, 3)] };
    assert_eq!(f.serialize(), vec![1, 0, 1, 0, 65, 1, 2, 3]);
}

#[test]
fn serialize_then_deserialize_round_trips() {
    let data = [255u8, 0, 0, 0, 255, 0, 0, 0, 255, 9, 9, 9];
    let f = AsciiFrame::from_rgb_data(&data, 2, 2, false).unwrap();
    let bytes = f.serialize();
    let g = AsciiFrame::deserialize(&bytes).unwrap();
    assert_eq!(g.width, f.width);
    assert_eq!(g.height, f.height);
    assert_eq!(g.cells, f.cells);
}

#[test]
fn deserialize_rejects_short_header() {
    assert!(matches!(
        AsciiFrame::deserialize(&[1, 2, 3]),
        Err(FrameFormatError::TooShort)
    ));
    assert!(matches!(AsciiFrame::deserialize(&[]), Err(FrameFormatError::TooShort)));
}

#[test]
fn deserialize_rejects_wrong_length() {
    // 1x1 frame must be exactly 8 bytes.
    assert!(matches!(
        AsciiFrame::deserialize(&[1, 0, 1, 0, 65, 1, 2]),
        Err(FrameFormatError::LengthMismatch)
    ));
    assert!(matches!(
        AsciiFrame::deserialize(&[1, 0, 1, 0, 65, 1, 2, 3, 4]),
        Err(FrameFormatError::LengthMismatch)
    ));
}

#[test]
fn deserialize_empty_frame_is_exactly_header() {
    let f = AsciiFrame::deserialize(&[0, 0, 0, 0]).unwrap();
    assert_eq!(f.width, 0);
    assert_eq!(f.height, 0);
    assert_eq!(f.cells.len(), 0);
    assert!(matches!(
        AsciiFrame::deserialize(&[0, 0, 0, 0, 7]),
        Err(FrameFormatError::LengthMismatch)
    ));
}

#[test]
fn colored_text_of_single_cell() {
    let f = AsciiFrame { width: 1, height: 1, cells: vec![('A', 1, 22, 255)] };
    assert_eq!(f.to_string_colored(), "\x1b[38;2;1;22;255mA\x1b[0m\n");
}

#[test]
fn colored_text_breaks_rows() {
    let f = AsciiFrame::new(2, 2);
    let s = f.to_string_colored();
    assert_eq!(s.matches('\n').count(), 2);
    assert_eq!(s, "\x1b[38;2;0;0;0m \x1b[38;2;0;0;0m \x1b[0m\n\x1b[38;2;0;0;0m \x1b[38;2;0;0;0m \x1b[0m\n");
}
