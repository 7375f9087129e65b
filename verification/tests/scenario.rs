//! Scenario scripts.

use drmkit::display::{DisplayParams, Rect};
use drmkit::planes::{PlaneCapabilities, PlaneType};
use drmkit::scenario::{
    crtc_mask, layer_display, layer_size, mask_of, parse_line, parse_signed, parse_size, pick_output,
    plane_type_of, usable_connector, Command, OutputChoice,
};
use drmkit::text::{is_white_char, join, lines, sorts_before, take_before, trim, trim_end_of, words};

#[test]
fn a_line_says_one_thing() {
    assert_eq!(parse_line(""), Ok(None));
    assert_eq!(parse_line("   # only a comment"), Ok(None));
    assert_eq!(parse_line("frame"), Ok(Some(Command::Frame)));
    assert_eq!(
        parse_line("\tframe and more # anything"),
        Ok(Some(Command::Frame))
    );
    assert_eq!(
        parse_line("del video # gone"),
        Ok(Some(Command::Del {
            name: "video".to_owned()
        }))
    );
    assert_eq!(
        parse_line("add video -3 +10 -20 640 480\r"),
        Ok(Some(Command::Add {
            name: "video".to_owned(),
            zpos: -3,
            x: 10,
            y: -20,
            w: 640,
            h: 480
        }))
    );
}

#[test]
fn a_line_that_makes_no_sense_says_why() {
    let error = |line: &str| parse_line(line).expect_err("refused");
    assert_eq!(error("del"), "del: missing name");
    assert_eq!(error("add video 1 2 3 4"), "add: bad args");
    assert_eq!(error("add video 1 2 3 4 5 6"), "add: bad args");
    assert_eq!(error("add v one 2 3 4 5"), "add: bad number one");
    assert_eq!(error("add v 1 2 y 4 5"), "add: bad number y");
    assert_eq!(error("add v 1 2 3 -4 5"), "add: bad size -4");
    assert_eq!(error("add v 1 2 3 4 4294967296"), "add: bad size 4294967296");
    assert_eq!(error("blink"), "unknown command: blink");
    assert_eq!(error("add v x 2 3 y 5"), "add: bad number x", "the first");
}

#[test]
fn numbers_fit_or_are_refused() {
    assert_eq!(parse_signed("-2147483648"), Some(i32::MIN));
    assert_eq!(parse_signed("-2147483649"), None);
    assert_eq!(parse_signed("2147483647"), Some(i32::MAX));
    assert_eq!(parse_signed("2147483648"), None);
    assert_eq!(parse_signed("-"), None);
    assert_eq!(parse_signed("+"), None);
    assert_eq!(parse_signed(""), None);
    assert_eq!(parse_signed("1_000"), None);
    assert_eq!(parse_signed("-0"), Some(0));
    assert_eq!(parse_size("0004294967295"), Some(u32::MAX));
    assert_eq!(parse_size("-0"), None);
    assert_eq!(parse_size("99999999999999999999999"), None);
    for text in ["7", "+7", "-7", "00", "x7", "7x", "--7", "\u{663}"] {
        assert_eq!(parse_signed(text), text.parse::<i32>().ok(), "{text}");
        assert_eq!(parse_size(text), text.parse::<u32>().ok(), "{text}");
    }
}

#[test]
fn a_layer_without_a_size_fills_the_mode() {
    assert_eq!(layer_size(0, 0, (1920, 1080)), (1920, 1080));
    assert_eq!(layer_size(0, 5, (1920, 1080)), (0, 5));
    assert_eq!(
        layer_display(-4, 10, -20, (64, 32)),
        DisplayParams {
            src_rect: Rect {
                x: 0,
                y: 0,
                w: 64,
                h: 32
            },
            dst_rect: Rect {
                x: 10,
                y: -20,
                w: 64,
                h: 32
            },
            zpos: Some(4),
            ..DisplayParams::default()
        }
    );
    assert_eq!(
        layer_display(i32::MIN, 0, 0, (1, 1)).zpos,
        Some(2_147_483_648)
    );
}

#[test]
fn plane_types_are_numbered() {
    assert_eq!(plane_type_of(0), Some(PlaneType::Overlay));
    assert_eq!(plane_type_of(1), Some(PlaneType::Primary));
    assert_eq!(plane_type_of(2), Some(PlaneType::Cursor));
    assert_eq!(plane_type_of(3), None);
}

#[test]
fn a_connector_needs_a_display_and_a_mode() {
    assert!(usable_connector(true, 1));
    assert!(!usable_connector(true, 0));
    assert!(!usable_connector(false, 3));
}

#[test]
fn a_mask_has_a_bit_per_allowed_crtc() {
    assert_eq!(crtc_mask(&vec![70, 50], &vec![50, 60, 70]), 0b101);
    assert_eq!(crtc_mask(&vec![99], &vec![50, 60]), 0);
    let many: Vec<u32> = (0..40).collect();
    assert_eq!(crtc_mask(&vec![31, 32, 39], &many), 1 << 31);
    assert_eq!(crtc_mask(&vec![5], &vec![5, 5]), 1, "the first of two");
}

#[test]
fn text_comes_apart_at_white_space() {
    assert_eq!(words(" a\tbc \u{2003} d\n"), vec!["a", "bc", "d"]);
    assert!(words(" \t ").is_empty());
    assert_eq!(lines("a\n\nb"), vec!["a", "", "b"]);
    assert_eq!(lines("a\n"), vec!["a"]);
    assert!(lines("").is_empty());
    assert_eq!(trim("\u{a0} x y\n"), "x y");
    assert_eq!(trim("   "), "");
    assert_eq!(trim_end_of("Board\0\0", '\0'), "Board");
    assert_eq!(take_before("a#b#c", '#'), "a");
    assert_eq!(take_before("abc", '#'), "abc");
}

#[test]
fn white_space_is_what_unicode_says() {
    for c in '\0'..=char::MAX {
        assert_eq!(is_white_char(c), c.is_whitespace(), "{c:?}");
    }
}

#[test]
fn text_sorts_by_character() {
    assert!(sorts_before("", "a"));
    assert!(sorts_before("a", "ab"));
    assert!(sorts_before("Z", "a"));
    assert!(!sorts_before("a", "a"));
    for (a, b) in [("\u{ff5e}", "\u{1f600}"), ("card10", "card2"), ("b", "\u{e9}")] {
        assert_eq!(sorts_before(a, b), a < b, "{a} {b}");
        assert_eq!(sorts_before(b, a), b < a, "{a} {b}");
    }
    assert_eq!(
        join(&vec!["x".to_owned(), "y".to_owned(), "z".to_owned()], ", "),
        "x, y, z"
    );
    assert_eq!(join(&vec![], ", "), "");
}

#[test]
fn the_first_usable_output_is_picked() {
    let feeding = PlaneCapabilities {
        possible_crtcs: 1,
        ..PlaneCapabilities::default()
    };
    let elsewhere = PlaneCapabilities {
        possible_crtcs: 2,
        ..PlaneCapabilities::default()
    };
    let connectors = vec![
        (50, false, vec![(640, 480)]),
        (51, true, Vec::new()),
        (52, true, vec![(1920, 1080), (1280, 720)]),
    ];
    let planes = vec![feeding];
    assert_eq!(
        pick_output(&[40, 41], &connectors, &planes),
        Ok(OutputChoice {
            crtc_id: 40,
            crtc_index: 0,
            connector_id: 52,
            width: 1920,
            height: 1080,
        })
    );
    let reason = |text: &str| Err(text.to_owned());
    assert_eq!(pick_output(&[], &connectors, &planes), reason("no crtc"));
    assert_eq!(
        pick_output(&[40], &connectors[..2], &planes),
        reason("no connected connector with a mode")
    );
    assert_eq!(
        pick_output(&[40], &connectors, &[elsewhere]),
        reason("crtc has no compatible planes")
    );
}

#[test]
fn a_mask_has_a_bit_at_each_place() {
    assert_eq!(mask_of(&vec![]), 0);
    assert_eq!(mask_of(&vec![0, 4, 5, 4, 64]), 0b11_0001);
    assert_eq!(mask_of(&vec![63]), 1 << 63);
}
