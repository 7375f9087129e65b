//! The baseline and the skip line.

use drmkit::skip::{skip_line, MARKER};

#[test]
fn baseline_is_recorded() {
    assert_eq!(drmkit::UPSTREAM_BASELINE, "4a0b64a");
}

#[test]
fn a_skip_names_its_case_and_its_reason() {
    assert_eq!(MARKER, "DRMKIT-SKIP");
    assert_eq!(
        skip_line(Some("device::a_case"), "this CRTC has no gamma table"),
        "DRMKIT-SKIP\tdevice::a_case\tthis CRTC has no gamma table"
    );
    assert_eq!(
        skip_line(None, "no card"),
        "DRMKIT-SKIP\t<unnamed>\tno card"
    );
}
