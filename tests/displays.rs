use epdriver::display::palette_index;
use epdriver::display_connector::{SpiConnector, WireEvent, WireRecorder};
use epdriver::{EPaper75TriColour, EPaper75TriColourV2, EPaperDisplay};

/// A command and the data bytes that followed it.
type Step = (u8, Vec<u8>);

fn steps(events: &[WireEvent]) -> Vec<Step> {
    let mut out: Vec<Step> = Vec::new();
    let mut data_mode = true;
    for event in events {
        match event {
            WireEvent::DcLine(high) => data_mode = *high,
            WireEvent::Write(bytes) => {
                if data_mode {
                    out.last_mut().expect("data before any command").1.extend(bytes.iter());
                } else {
                    for b in bytes {
                        out.push((*b, Vec::new()));
                    }
                }
            }
            _ => {}
        }
    }
    out
}

fn v1() -> EPaper75TriColour<SpiConnector<WireRecorder>> {
    EPaper75TriColour::new(SpiConnector::new(WireRecorder::new(), 4096))
}

fn v2() -> EPaper75TriColourV2<SpiConnector<WireRecorder>> {
    EPaper75TriColourV2::new(WireRecorder::new(), 4096)
}

fn v1_steps(d: &EPaper75TriColour<SpiConnector<WireRecorder>>) -> Vec<Step> {
    steps(d.connector().link().events())
}

fn v2_steps(d: &EPaper75TriColourV2<SpiConnector<WireRecorder>>) -> Vec<Step> {
    steps(d.connector().link().events())
}

fn opcodes(steps: &[Step]) -> Vec<u8> {
    steps.iter().map(|s| s.0).collect()
}

#[test]
fn legacy_solid_images_pack_to_one_byte() {
    for (colour, byte) in [(0u8, 0x00u8), (1, 0x44), (2, 0x33), (9, 0x33)] {
        let mut d = v1();
        assert!(d.push_image_with(|_, _| colour).is_ok());
        let s = v1_steps(&d);
        assert_eq!(opcodes(&s), vec![0x10, 0x04, 0x71, 0x12, 0x71, 0x02]);
        assert_eq!(s[0].1.len(), 640 * 384 / 2);
        assert!(s[0].1.iter().all(|b| *b == byte));
    }
}

#[test]
fn legacy_pixels_pair_left_in_the_high_nibble() {
    let mut d = v1();
    assert!(d.push_image_with(|x, y| ((x + 3 * y) % 3) as u8).is_ok());
    let data = &v1_steps(&d)[0].1;
    // Row 0: colours 0, 1, 2, 0, ... ; row 1 starts at colour 0 again.
    assert_eq!(data[0], 0x04);
    assert_eq!(data[1], 0x30);
    assert_eq!(data[2], 0x43);
    assert_eq!(data[320], 0x04);
    assert_eq!(EPaper75TriColour::<SpiConnector<WireRecorder>>::map_pix_value(7), 0x03);
}

#[test]
fn legacy_init_sequence() {
    let mut d = v1();
    assert!(d.init().is_ok());
    let events = d.connector().link().events();
    assert_eq!(events[0], WireEvent::ResetLine(true));
    let expected: Vec<Step> = vec![
        (0x01, vec![0x37, 0x00]),
        (0x00, vec![0xcf, 0x08]),
        (0x30, vec![0x3c]),
        (0x82, vec![0x1e]),
        (0x06, vec![0xc7, 0xcc, 0x28]),
        (0x50, vec![0x77]),
        (0x60, vec![0x22]),
        (0x65, vec![0x00]),
        (0x61, vec![0x02, 0x80, 0x01, 0x80]),
        (0xe5, vec![0x03]),
    ];
    assert_eq!(v1_steps(&d), expected);
    assert_eq!((d.width(), d.height()), (640, 384));
}

#[test]
fn legacy_clear_sleep_and_fill() {
    let mut d = v1();
    assert!(d.clear().is_ok());
    let s = v1_steps(&d);
    assert_eq!(opcodes(&s), vec![0x10, 0x04, 0x71, 0x12, 0x71]);
    assert_eq!(s[0].1.len(), 640 * 384 / 2);
    assert!(s[0].1.iter().all(|b| *b == 0));

    let mut d = v1();
    assert!(d.clear_with_val(0x33).is_ok());
    let s = v1_steps(&d);
    assert_eq!(opcodes(&s), vec![0x10, 0x04, 0x71, 0x12, 0x71, 0x02]);
    assert!(s[0].1.iter().all(|b| *b == 0x33));

    let mut d = v1();
    assert!(d.sleep().is_ok());
    assert_eq!(v1_steps(&d), vec![(0x02, vec![]), (0x71, vec![]), (0x07, vec![0xa5])]);
}

#[test]
fn dual_plane_all_white_scenario() {
    let mut d = v2();
    assert!(d.push_image_with(|_, _| 2).is_ok());
    let s = v2_steps(&d);
    assert_eq!(opcodes(&s), vec![0x10, 0x71, 0x13, 0x71, 0x12, 0x71]);
    assert_eq!(s[0].1.len(), 800 * 480 / 8);
    assert_eq!(s[0].1.len(), 48000);
    assert!(s[0].1.iter().all(|b| *b == 0xff));
    assert_eq!(s[2].1.len(), 48000);
    assert!(s[2].1.iter().all(|b| *b == 0x00));
    assert!(!opcodes(&s).contains(&0x04));
    assert!(!opcodes(&s).contains(&0x02));
}

#[test]
fn dual_plane_bits_per_colour() {
    let mut d = v2();
    // Row 0 runs 2, 1, 0, 2, 1, 0, ...; every other row is black.
    assert!(d
        .push_image_with(|x, y| if y == 0 { [2u8, 1, 0][(x % 3) as usize] } else { 0 })
        .is_ok());
    let s = v2_steps(&d);
    let white = &s[0].1;
    let accent = &s[2].1;
    assert_eq!(white[0], 0b1001_0010);
    assert_eq!(accent[0], 0b0100_1001);
    assert_eq!(white[100], 0);
    assert_eq!(accent[100], 0);
    assert!(white.iter().zip(accent.iter()).all(|(w, a)| w & a == 0));
}

#[test]
fn dual_plane_accent_image() {
    let mut d = v2();
    assert!(d.push_image_with(|_, _| 1).is_ok());
    let s = v2_steps(&d);
    assert!(s[0].1.iter().all(|b| *b == 0x00));
    assert!(s[2].1.iter().all(|b| *b == 0xff));

    let mut d = v2();
    assert!(d.push_image_with(|_, _| 0).is_ok());
    let s = v2_steps(&d);
    assert!(s[0].1.iter().all(|b| *b == 0x00));
    assert!(s[2].1.iter().all(|b| *b == 0x00));
}

#[test]
fn dual_plane_init_sequence() {
    let mut d = v2();
    assert!(d.init().is_ok());
    let expected: Vec<Step> = vec![
        (0x01, vec![0x07, 0x07, 0x3f, 0x3f, 0x03]),
        (0x04, vec![]),
        (0x71, vec![]),
        (0x00, vec![0x0f]),
        (0x61, vec![0x03, 0x20, 0x01, 0xe0]),
        (0x15, vec![0x00]),
        (0x50, vec![0x11, 0x07]),
        (0x60, vec![0x22]),
        (0x65, vec![0x00, 0x00, 0x00, 0x00]),
    ];
    assert_eq!(v2_steps(&d), expected);
    assert_eq!((d.width(), d.height()), (800, 480));
}

#[test]
fn dual_plane_clear_and_sleep() {
    let mut d = v2();
    assert!(d.clear().is_ok());
    let s = v2_steps(&d);
    assert_eq!(opcodes(&s), vec![0x10, 0x04, 0x71, 0x12, 0x71, 0x02]);
    assert_eq!(s[0].1.len(), 800 * 480 / 2);
    assert!(s[0].1.iter().all(|b| *b == 0));

    let mut d = v2();
    assert!(d.clear_with_val(0xaa).is_ok());
    let s = v2_steps(&d);
    assert!(s[0].1.iter().all(|b| *b == 0xaa));

    let mut d = v2();
    assert!(d.sleep().is_ok());
    assert_eq!(v2_steps(&d), vec![(0x02, vec![]), (0x71, vec![]), (0x07, vec![0xa5])]);
}

#[test]
fn palette_levels() {
    assert_eq!(palette_index(0), 0);
    assert_eq!(palette_index(84), 0);
    assert_eq!(palette_index(85), 1);
    assert_eq!(palette_index(0x93), 1);
    assert_eq!(palette_index(169), 1);
    assert_eq!(palette_index(170), 2);
    assert_eq!(palette_index(255), 2);
}
