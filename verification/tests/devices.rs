//! Profiles of devices, and a corpus of them held to rules.

use drmkit::corpus::{check_all, summary, Report};
use drmkit::dump::{in_name_order, read_dump, Device, Member, Node};
use drmkit::fourcc::{ARGB8888, XRGB8888};
use drmkit::order::{sort, Tally};
use drmkit::planes::{PlaneCapabilities, PlaneRegistry, PlaneType};
use drmkit::probe::{
    connectors, count_of, crtcs, default_cards, host, min_framebuffer, plane_visibility, planes,
    probe, profile, size_step, ConnectorEntry, ConnectorProfile, CrtcPipeline, Measured, SizeStep,
    Trait,
};
use drmkit::rules::{
    every_primary_can_host_a_canvas, rotation_always_advertises_zero, rotation_violation,
    src_w_on_every_atomic_plane, the_corpus_parsed_into_something_usable, CanvasAnswer, Finding,
};
use drmkit::signaling::MaxBpc;
use drmkit::survey::{
    cursor_paths, damage_clips_by_driver, degenerate_mutable_zpos, rotation_shapes, zpos_shapes,
    CursorPath, Row, Survey,
};

// Profiles.

fn capabilities(id: u32, plane_type: PlaneType) -> PlaneCapabilities {
    PlaneCapabilities {
        id,
        plane_type,
        ..PlaneCapabilities::default()
    }
}

#[test]
fn planes_are_counted_by_capability() {
    let mut primary = capabilities(1, PlaneType::Primary);
    primary.rotation_bits = 0x35;
    primary.supports_rotation = true;
    primary.zpos_min = Some(0);
    primary.zpos_max = Some(0);
    primary.has_fb_damage_clips = true;
    let mut overlay = capabilities(2, PlaneType::Overlay);
    overlay.zpos_min = Some(1);
    overlay.zpos_max = Some(17);
    overlay.rotation_bits = 0xf;
    let cursor = capabilities(3, PlaneType::Cursor);
    let mut other = capabilities(4, PlaneType::Overlay);
    other.rotation_bits = 0xf;
    other.has_format_modifiers = true;
    let registry = PlaneRegistry::from_capabilities(vec![primary, overlay, cursor, other]);
    assert_eq!(count_of(registry.all(), Trait::Overlay), 2);
    assert_eq!(
        planes(Ok(&registry)),
        concat_all(&[
            r#"{"total":4,"primary":1,"cursor":1,"overlay":2,"with_damage_clips":1,"#,
            r#""with_blend_mode":0,"with_alpha":0,"with_color_encoding":0,"with_in_formats":1,"#,
            r#""with_zpos":2,"with_rotation":1,"rotation_masks":{"0x0":1,"0xf":2,"0x35":1},"#,
            r#""zpos_ranges":{"[0,0]":1,"[1,17]":1,"none":2}}"#,
        ])
    );
    assert_eq!(planes(Err("no \"planes\"")), r#"{"error":"no \"planes\""}"#);
}

fn concat_all(parts: &[&str]) -> String {
    parts.concat()
}

#[test]
fn crtcs_are_counted_by_pipeline() {
    let full = CrtcPipeline {
        has_degamma_lut: true,
        has_ctm: true,
        has_gamma_lut: true,
        gamma_lut_size: 4096,
    };
    let small = CrtcPipeline {
        has_degamma_lut: false,
        has_ctm: false,
        has_gamma_lut: true,
        gamma_lut_size: 256,
    };
    let bare = CrtcPipeline {
        has_gamma_lut: false,
        ..small
    };
    assert_eq!(
        crtcs(Some(&vec![Some(full), None, Some(small), Some(full), Some(bare)])),
        concat_all(&[
            r#"{"total":5,"color_pipelines":{"degamma=false ctm=false gamma=false":1,"#,
            r#""degamma=false ctm=false gamma=true":1,"degamma=true ctm=true gamma=true":2},"#,
            r#""gamma_lut_sizes":{"256":1,"4096":2}}"#,
        ])
    );
    assert_eq!(crtcs(None), r#"{"error":"resources unreadable"}"#);
}

#[test]
fn connectors_are_listed_by_name() {
    let entry = |name: &str, capabilities: Option<ConnectorProfile>| ConnectorEntry {
        name: name.to_owned(),
        connected: capabilities.is_some(),
        modes: 3,
        capabilities,
    };
    let caps = ConnectorProfile {
        colorspace_entries: 4,
        has_hdr_output_metadata: true,
        can_signal_hdr: true,
        max_bpc: Some(MaxBpc {
            min: 8,
            max: 12,
            current: 8,
        }),
    };
    let plain = ConnectorProfile {
        max_bpc: None,
        ..caps
    };
    assert_eq!(
        connectors(Some(&vec![
            entry("HDMI-A-1", Some(caps)),
            entry("DP-1", Some(plain)),
            entry("eDP-1", None)
        ])),
        concat_all(&[
            r#"[{"name":"HDMI-A-1","connected":true,"modes":3,"colorspace_entries":4,"#,
            r#""hdr_output_metadata":true,"can_signal_hdr":true,"max_bpc":"[8,12]"},"#,
            r#"{"name":"DP-1","connected":true,"modes":3,"colorspace_entries":4,"#,
            r#""hdr_output_metadata":true,"can_signal_hdr":true,"max_bpc":"none"},"#,
            r#"{"name":"eDP-1","connected":false,"modes":3}]"#,
        ])
    );
    assert_eq!(connectors(None), r#"{"error":"connectors unreadable"}"#);
}

#[test]
fn the_smallest_framebuffer_is_searched_from_one_up() {
    assert_eq!(size_step(1, false), SizeStep::Try(2));
    assert_eq!(size_step(10, true), SizeStep::Smallest(10));
    assert_eq!(size_step(64, false), SizeStep::Nothing);
    assert_eq!(size_step(64, true), SizeStep::Smallest(64));
    assert_eq!(
        min_framebuffer(Some(10), Some(1)),
        r#"{"min_width":10,"min_height":1}"#
    );
    assert_eq!(
        min_framebuffer(Some(10), None),
        r#"{"error":"no size up to 64 was accepted"}"#
    );
}

#[test]
fn a_profile_is_host_and_cards() {
    let host = host("6.12.1\n", "aarch64", " Raspberry \"Pi\" 5\0\n");
    assert_eq!(
        host,
        r#"{"kernel":"6.12.1","arch":"aarch64","model":"Raspberry \"Pi\" 5"}"#
    );
    assert_eq!(
        plane_visibility(2, 10, 10, 10),
        r#"{"neither_cap":2,"atomic_only":10,"universal_only":10,"both":10}"#
    );
    let measured = Measured {
        driver: "vc4".to_owned(),
        plane_visibility: "1".to_owned(),
        min_framebuffer: "2".to_owned(),
        planes: "3".to_owned(),
        crtcs: "4".to_owned(),
        connectors: "[]".to_owned(),
    };
    let card = probe("/dev/dri/card0", Ok(&measured));
    assert_eq!(
        card,
        concat_all(&[
            r#"{"path":"/dev/dri/card0","driver":"vc4","plane_visibility":1,"#,
            r#""min_framebuffer":2,"planes":3,"crtcs":4,"connectors":[]}"#,
        ])
    );
    let failed = probe("/dev/dri/card1", Err("busy"));
    assert_eq!(failed, r#"{"path":"/dev/dri/card1","error":"busy"}"#);
    assert_eq!(
        profile("{}", &vec![failed]),
        concat_all(&[
            "{\n  \"host\": {\n    \n  },\n  \"cards\": [\n    {\n",
            "      \"path\": \"/dev/dri/card1\",\n      \"error\": \"busy\"\n    }\n  ]\n}",
        ])
    );
}

#[test]
fn cards_are_picked_and_sorted() {
    let names: Vec<String> = ["renderD128", "card2", "by-path", "card10", "card", "car"]
        .iter()
        .map(|name| (*name).to_owned())
        .collect();
    assert_eq!(
        default_cards(&names),
        vec!["/dev/dri/card", "/dev/dri/card10", "/dev/dri/card2"]
    );
}

#[test]
fn counts_are_kept_by_label_in_order() {
    let mut tally = Tally::new();
    for (rank, label) in [(2, "b"), (1, "z"), (2, "a"), (2, "b")] {
        tally.note(rank, label.to_owned(), 1, 1);
    }
    let seen: Vec<(u64, &str, usize)> = tally
        .entries
        .iter()
        .map(|e| (e.rank, e.label.as_str(), e.count))
        .collect();
    assert_eq!(seen, vec![(1, "z", 1), (2, "a", 1), (2, "b", 2)]);
    assert_eq!(
        sort(vec!["b".to_owned(), "a".to_owned(), "b".to_owned()]),
        vec!["a", "b", "b"]
    );
}

// Dumps.

fn number(n: u64) -> Node {
    Node::Unsigned(n)
}

fn text(s: &str) -> Node {
    Node::Text(s.to_owned())
}

fn object(members: Vec<(&str, Node)>) -> Node {
    Node::Object(
        members
            .into_iter()
            .map(|(name, value)| Member {
                name: name.to_owned(),
                value,
            })
            .collect(),
    )
}

fn entry(name: &str, value: u64) -> Node {
    object(vec![("name", text(name)), ("value", number(value))])
}

fn plane_value(kind: u64, more: Vec<(&str, Node)>) -> Node {
    let mut properties = vec![
        (
            "type",
            object(vec![
                ("raw_value", number(kind)),
                (
                    "spec",
                    Node::Array(vec![
                        entry("Overlay", 0),
                        entry("Primary", 1),
                        entry("Cursor", 2),
                    ]),
                ),
            ]),
        ),
        ("CRTC_X", Node::Null),
        ("SRC_W", Node::Null),
    ];
    properties.extend(more);
    object(vec![
        ("id", number(31)),
        ("possible_crtcs", number(1)),
        (
            "formats",
            Node::Array(vec![
                number(u64::from(XRGB8888)),
                object(vec![("fourcc", number(u64::from(ARGB8888)))]),
                number(u64::MAX),
                Node::Number,
            ]),
        ),
        ("properties", object(properties)),
    ])
}

fn dump(driver: &str, planes: Vec<Node>) -> Node {
    object(vec![
        ("driver", object(vec![("name", text(driver))])),
        ("planes", Node::Array(planes)),
        (
            "crtcs",
            Node::Array(vec![object(vec![(
                "properties",
                object(vec![("GAMMA_LUT", Node::Null)]),
            )])]),
        ),
    ])
}

fn zpos(min: u64, spelling: &'static str, max: u64, immutable: bool) -> (&'static str, Node) {
    (
        "zpos",
        object(vec![
            ("immutable", Node::Bool(immutable)),
            (
                "spec",
                object(vec![("min", number(min)), (spelling, number(max))]),
            ),
        ]),
    )
}

fn rotation(names: &[&str]) -> (&'static str, Node) {
    (
        "rotation",
        object(vec![(
            "spec",
            Node::Array(names.iter().map(|name| entry(name, 0)).collect()),
        )]),
    )
}

#[test]
fn a_dump_is_read_into_capabilities() {
    let value = dump(
        "vc4",
        vec![plane_value(
            1,
            vec![
                zpos(1, "Max", 17, true),
                rotation(&["rotate-0", "reflect-x"]),
                ("alpha", Node::Null),
            ],
        )],
    );
    let device = Device::from_json("pi5", &value);
    assert_eq!((device.name.as_str(), device.driver.as_str()), ("pi5", "vc4"));
    assert!(device.atomic);
    assert_eq!(device.crtc_count(), 1);
    assert!(device.crtcs[0].has("GAMMA_LUT") && !device.crtcs[0].has("CTM"));
    let plane = &device.planes[0];
    assert_eq!(plane.caps.id, 31);
    assert_eq!(plane.caps.plane_type, PlaneType::Primary);
    assert_eq!(plane.caps.formats, vec![XRGB8888, ARGB8888]);
    assert_eq!((plane.caps.zpos_min, plane.caps.zpos_max), (Some(1), Some(17)));
    assert!(plane.zpos_immutable);
    assert_eq!(plane.rotation_names, vec!["rotate-0", "reflect-x"]);
    assert!(plane.caps.supports_rotation && plane.caps.supports_scaling);
    assert!(plane.caps.has_per_plane_alpha && !plane.caps.has_color_range);
    assert_eq!(
        plane.properties,
        vec!["type", "CRTC_X", "SRC_W", "zpos", "rotation", "alpha"]
    );
}

#[test]
fn a_dump_that_says_little_is_read_as_little() {
    let device = Device::from_json("empty", &Node::Null);
    assert_eq!(device.driver, "unknown");
    assert!(!device.atomic && device.planes.is_empty() && device.crtcs.is_empty());

    let planes = Node::Array(vec![object(vec![
        ("id", number(1 << 40)),
        (
            "properties",
            object(vec![
                ("zpos", object(vec![("raw_value", number(3))])),
                ("rotation", Node::Null),
            ]),
        ),
    ])]);
    let old = Device::from_json("old", &object(vec![("planes", planes)]));
    assert!(!old.atomic);
    let plane = &old.planes[0];
    assert_eq!(plane.caps.id, 0, "out of range");
    assert_eq!(plane.caps.plane_type, PlaneType::Overlay);
    assert_eq!((plane.caps.zpos_min, plane.caps.zpos_max), (None, None));
    assert!(plane.rotation_names.is_empty());
}

#[test]
fn a_dump_is_read_from_its_text() {
    let text = r#"{
        "driver": {"name": "vkms"},
        "planes": [{
            "id": 31, "possible_crtcs": 1, "formats": [875713112, -1, {"fourcc": 875713089}],
            "properties": {
                "CRTC_X": {},
                "type": {"raw_value": 1, "spec": [{"name": "Primary", "value": 1}]},
                "zpos": {"immutable": true, "spec": {"min": 0, "Max": 0}}
            }
        }],
        "crtcs": [{"properties": {"CTM": null, "ACTIVE": 1.5}}]
    }"#;
    let device = read_dump("card0", text).expect("JSON");
    assert_eq!(device.name, "card0");
    assert_eq!(device.driver, "vkms");
    assert!(device.atomic);
    assert_eq!(device.planes[0].caps.plane_type, PlaneType::Primary);
    assert_eq!(device.planes[0].caps.formats, vec![XRGB8888, ARGB8888]);
    assert_eq!(device.planes[0].caps.zpos_max, Some(0));
    assert!(device.planes[0].zpos_immutable);
    assert_eq!(device.planes[0].properties, vec!["CRTC_X", "type", "zpos"]);
    assert!(device.crtcs[0].has("CTM") && device.crtcs[0].has("ACTIVE"));
    assert_eq!(read_dump("broken", "{\"driver\":"), None);
    assert_eq!(read_dump("list", "[1, \"x\"]").expect("JSON").driver, "unknown");
}

#[test]
fn both_spellings_of_the_maximum_are_read() {
    for spelling in ["Max", "max"] {
        let value = dump("x", vec![plane_value(0, vec![zpos(2, spelling, 9, false)])]);
        let device = Device::from_json("d", &value);
        assert_eq!(device.planes[0].caps.zpos_max, Some(9), "{spelling}");
    }
}

#[test]
fn values_answer_for_what_they_are() {
    let value = object(vec![("a", number(1)), ("b", Node::Bool(true))]);
    assert_eq!(value.get("a").and_then(Node::as_u64), Some(1));
    assert_eq!(value.get("b").and_then(Node::as_bool), Some(true));
    assert_eq!(value.get("c"), None);
    assert_eq!(value.keys(), vec!["a", "b"]);
    assert_eq!(text("x").as_str(), Some("x"));
    assert_eq!(Node::Number.as_u64(), None);
    assert_eq!(Node::Array(vec![Node::Null]).as_array().map(Vec::len), Some(1));
    assert!(Node::Null.keys().is_empty() && Node::Null.as_str().is_none());
}

fn read(name: &str, driver: &str, planes: Vec<Node>) -> Device {
    Device::from_json(name, &dump(driver, planes))
}

#[test]
fn a_corpus_is_reported_in_name_order() {
    let devices = in_name_order(vec![
        read("c", "x", vec![]),
        read("a", "y", vec![]),
        read("b", "x", vec![]),
    ]);
    let names: Vec<&str> = devices.iter().map(|d| d.name.as_str()).collect();
    assert_eq!(names, vec!["a", "b", "c"]);
    assert_eq!(summary(&devices), "3 device(s), 2 driver(s)\n");
}

// Rules.

#[test]
fn a_corpus_that_was_not_read_is_noticed() {
    let fine = read("fine", "x", vec![plane_value(0, vec![])]);
    let mut lost = read("lost", "y", vec![plane_value(0, vec![])]);
    lost.planes[0].caps.possible_crtcs = 0;
    let old = read("old", "z", vec![]);
    let finding = the_corpus_parsed_into_something_usable(&vec![fine, lost, old]);
    assert_eq!(finding.checked, 2);
    assert_eq!(
        finding.violations,
        vec!["lost (y): 1 plane(s), 1 CRTC(s), and no plane can feed any of them"]
    );
}

#[test]
fn a_plane_without_src_w_is_noticed() {
    let mut device = read("d", "x", vec![plane_value(0, vec![]), plane_value(1, vec![])]);
    device.planes[1].caps.supports_scaling = false;
    let finding = src_w_on_every_atomic_plane(&vec![device]);
    assert_eq!(finding.checked, 2);
    assert_eq!(finding.violations, vec!["d (x): plane 31 has no SRC_W"]);
}

#[test]
fn a_plane_that_must_be_rotated_is_noticed() {
    let device = read(
        "d",
        "x",
        vec![
            plane_value(0, vec![rotation(&["rotate-0"])]),
            plane_value(0, vec![rotation(&["rotate-90", "reflect\"y"])]),
            plane_value(0, vec![]),
        ],
    );
    assert_eq!(
        rotation_violation(&device, &device.planes[1], "LIST"),
        "d (x): plane 31 advertises LIST without rotate-0"
    );
    let finding = rotation_always_advertises_zero(&vec![device]);
    assert_eq!(finding.checked, 2);
    assert_eq!(
        finding.violations,
        vec!["d (x): plane 31 advertises [\"rotate-90\", \"reflect\\\"y\"] without rotate-0"]
    );
}

fn answer(hosts: bool, names: &[&str]) -> CanvasAnswer {
    CanvasAnswer {
        hosts,
        names: names.iter().map(|name| (*name).to_owned()).collect(),
    }
}

#[test]
fn a_primary_without_a_canvas_is_noticed() {
    let device = read(
        "d",
        "x",
        vec![
            plane_value(1, vec![]),
            plane_value(1, vec![]),
            plane_value(0, vec![]),
        ],
    );
    let answers = vec![vec![
        answer(true, &[]),
        answer(false, &["A", "B", "C", "D", "E", "F", "G"]),
        answer(false, &[]),
    ]];
    let finding = every_primary_can_host_a_canvas(&vec![device], &answers);
    assert_eq!(finding.checked, 2, "only primaries are asked");
    assert_eq!(
        finding.violations,
        vec!["d (x): primary 31 scans out none of the canvas formats; it has A, B, C, D, E, F"]
    );
}

// Surveys.

fn rows(survey: &Survey) -> Vec<(&str, usize)> {
    survey
        .rows
        .iter()
        .map(|row| (row.label.as_str(), row.count))
        .collect()
}

#[test]
fn surveys_rank_by_count_and_then_by_label() {
    let devices = vec![
        read(
            "a",
            "vc4",
            vec![
                plane_value(0, vec![zpos(0, "Max", 0, true), rotation(&["b", "a"])]),
                plane_value(0, vec![zpos(0, "Max", 0, false), rotation(&["a", "b"])]),
                plane_value(0, vec![zpos(1, "Max", 17, false), rotation(&["a"])]),
            ],
        ),
        read(
            "b",
            "amdgpu",
            vec![
                plane_value(0, vec![("FB_DAMAGE_CLIPS", Node::Null), ("zpos", Node::Null)]),
                plane_value(0, vec![]),
                plane_value(0, vec![]),
            ],
        ),
        read("c", "bare", vec![]),
    ];
    assert_eq!(rows(&rotation_shapes(&devices)), vec![("a,b", 2), ("a", 1)]);
    assert_eq!(
        rows(&zpos_shapes(&devices)),
        vec![
            ("no zpos property", 2),
            ("degenerate and immutable", 1),
            ("degenerate at 0, NOT immutable", 1),
            ("settable [1,17]", 1),
            ("zpos present, no stated range", 1),
        ]
    );
    assert_eq!(rows(&degenerate_mutable_zpos(&devices)), vec![("vc4", 1)]);
    assert_eq!(
        rows(&damage_clips_by_driver(&devices)),
        vec![
            ("amdgpu: 1 of 3 planes", 1),
            ("bare: 0 of 0 planes", 0),
            ("vc4: 0 of 3 planes", 0),
        ]
    );
}

#[test]
fn cursor_paths_are_counted_per_crtc() {
    let with_cursor = read("a", "x", vec![plane_value(2, vec![])]);
    let mut no_argb = read("b", "x", vec![plane_value(2, vec![])]);
    no_argb.planes[0].caps.formats = vec![XRGB8888];
    let none = read("c", "x", vec![plane_value(0, vec![])]);
    let old = read("d", "x", vec![]);
    let survey = cursor_paths(
        &vec![with_cursor, no_argb, none, old],
        &vec![
            vec![CursorPath::AtomicCursor],
            vec![CursorPath::AtomicOverlay],
            vec![CursorPath::Legacy],
            vec![],
        ],
    );
    assert_eq!(
        rows(&survey),
        vec![
            ("a dedicated cursor plane", 1),
            ("an overlay, atomically", 1),
            ("drmModeSetCursor, the legacy path", 1),
            ("  (of which: no cursor plane on the CRTC)", 1),
            ("  (of which: a cursor plane that cannot take ARGB8888)", 1),
        ]
    );
}

#[test]
fn a_report_discloses_what_it_leaves_out() {
    let report = Report {
        findings: vec![
            Finding {
                rule: "kept",
                matters: "not shown",
                checked: 3,
                violations: vec![],
            },
            Finding {
                rule: "broken",
                matters: "it matters",
                checked: 20,
                violations: (0..12).map(|i| format!("v{i}")).collect(),
            },
        ],
        surveys: vec![Survey {
            title: "shapes".to_owned(),
            note: "why",
            rows: (0..16)
                .map(|i| Row {
                    label: format!("row {i}"),
                    count: 100 - i,
                })
                .collect(),
        }],
    };
    assert_eq!(report.violations(), 12);
    let text = report.render(&vec![
        read("a", "x", vec![plane_value(0, vec![])]),
        read("b", "x", vec![]),
    ]);
    let mut expected = String::from(
        "1 of 2 dumps carry atomic plane properties; rules about them apply to those.\n\n",
    );
    expected.push_str("ok    kept (3 checked)\n");
    expected.push_str("FAIL  broken -- 12 of 20 checked\n      it matters\n");
    for i in 0..10 {
        expected.push_str(&format!("      v{i}\n"));
    }
    expected.push_str("      ... and 2 more\n");
    expected.push_str("\nshapes\n  (why)\n");
    for i in 0..14 {
        expected.push_str(&format!("  {:>6}  row {i}\n", 100 - i));
    }
    expected.push_str("         ... 2 more row(s), 171 plane(s)\n");
    assert_eq!(text, expected);
}

#[test]
fn a_corpus_is_asked_everything() {
    let devices = vec![read("a", "x", vec![plane_value(1, vec![])])];
    let report = check_all(
        &devices,
        &vec![vec![answer(true, &[])]],
        &vec![vec![CursorPath::Unavailable]],
    );
    assert_eq!(report.findings.len(), 4);
    assert_eq!(report.surveys.len(), 5);
    assert_eq!(report.violations(), 0);
    assert!(report
        .render(&devices)
        .contains("\n       1  nothing can carry a cursor\n"));
}
