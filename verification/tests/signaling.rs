//! What a frame asks its connector to signal.

use drmkit::display::DisplayParams;
use drmkit::signaling::{
    derive_output_signalling, is_hdr, widest_gamut, ColorPrimaries, Colorspace,
    ConnectorCapabilities, MaxBpc, TransferFunction,
};

/// A chromaticity coordinate as the standards write it.
fn unit(ten_thousandths: u32) -> f64 {
    f64::from(ten_thousandths) / 10_000.0
}

/// A layer that says nothing about its colours.
fn plain() -> DisplayParams {
    DisplayParams::default()
}

fn layer(primaries: Option<ColorPrimaries>, eotf: Option<TransferFunction>) -> DisplayParams {
    DisplayParams {
        color_primaries: primaries,
        source_eotf: eotf,
        ..DisplayParams::default()
    }
}

/// A connector that can carry HDR: the blob and ten bits.
fn hdr_capable() -> ConnectorCapabilities {
    ConnectorCapabilities::new(1)
        .with_hdr_output_metadata(true)
        .with_max_bpc(MaxBpc {
            min: 8,
            max: 10,
            current: 10,
        })
}

// Canonical primaries.

#[test]
fn bt709_is_canonical_srgb() {
    let c = ColorPrimaries::Bt709.colorimetry();
    assert!((unit(c.red.x) - 0.640).abs() < 1e-6 && (unit(c.red.y) - 0.330).abs() < 1e-6);
    assert!((unit(c.green.x) - 0.300).abs() < 1e-6 && (unit(c.green.y) - 0.600).abs() < 1e-6);
    assert!((unit(c.blue.x) - 0.150).abs() < 1e-6 && (unit(c.blue.y) - 0.060).abs() < 1e-6);
    assert!((unit(c.white.x) - 0.3127).abs() < 1e-6 && (unit(c.white.y) - 0.3290).abs() < 1e-6);
    assert!(c.has_primaries && c.has_default_white);
}

#[test]
fn bt2020_matches_rec2100() {
    let c = ColorPrimaries::Bt2020.colorimetry();
    assert!((unit(c.red.x) - 0.708).abs() < 1e-6);
    assert!((unit(c.green.y) - 0.797).abs() < 1e-6);
    assert!((unit(c.blue.x) - 0.131).abs() < 1e-6);
}

#[test]
fn dci_p3_d65_matches_smpte_eg432() {
    let c = ColorPrimaries::DciP3.colorimetry();
    assert!((unit(c.red.x) - 0.680).abs() < 1e-6);
    assert!((unit(c.green.x) - 0.265).abs() < 1e-6);
    // D65, not the DCI theatre white -- this is the consumer variant.
    assert!((unit(c.white.x) - 0.3127).abs() < 1e-6);
}

#[test]
fn adobe_rgb_differs_from_bt709_only_in_green() {
    // The whole of Adobe RGB's extra gamut is the green primary. Red and
    // blue matching BT.709 is the check that the table was not copied
    // from the wrong row.
    let adobe = ColorPrimaries::AdobeRgb.colorimetry();
    let bt709 = ColorPrimaries::Bt709.colorimetry();
    assert_eq!(adobe.red, bt709.red);
    assert_eq!(adobe.blue, bt709.blue);
    assert_ne!(adobe.green, bt709.green);
    assert!((unit(adobe.green.y) - 0.710).abs() < 1e-6);
}

// Widest gamut.

#[test]
fn no_layers_name_no_gamut() {
    assert_eq!(widest_gamut(&[] as &[DisplayParams]), None);
    assert_eq!(widest_gamut(&[plain(), plain()]), None);
}

#[test]
fn one_layer_passes_its_own_through() {
    let layers = [layer(Some(ColorPrimaries::DciP3), None)];
    assert_eq!(widest_gamut(&layers), Some(ColorPrimaries::DciP3));
}

#[test]
fn the_ranking_runs_bt2020_over_p3_over_adobe_over_bt709() {
    for (wider, narrower) in [
        (ColorPrimaries::Bt2020, ColorPrimaries::DciP3),
        (ColorPrimaries::DciP3, ColorPrimaries::AdobeRgb),
        (ColorPrimaries::AdobeRgb, ColorPrimaries::Bt709),
    ] {
        assert!(wider.is_wider_than(narrower), "{wider:?} over {narrower:?}");
        // Order-independent: the answer is the gamut, not the position.
        assert_eq!(
            widest_gamut(&[layer(Some(narrower), None), layer(Some(wider), None)]),
            Some(wider)
        );
        assert_eq!(
            widest_gamut(&[layer(Some(wider), None), layer(Some(narrower), None)]),
            Some(wider)
        );
    }
}

#[test]
fn a_mixed_set_selects_the_widest() {
    let layers = [
        layer(Some(ColorPrimaries::Bt709), None),
        plain(),
        layer(Some(ColorPrimaries::Bt2020), None),
        layer(Some(ColorPrimaries::AdobeRgb), None),
    ];
    assert_eq!(widest_gamut(&layers), Some(ColorPrimaries::Bt2020));
}

#[test]
fn layers_that_say_nothing_are_passed_over_not_counted_as_bt709() {
    // Counting an unset layer as BT.709 would be harmless here but wrong
    // in `derive`: a frame of nothing-but-unset layers must leave the
    // connector alone, not write Default over whatever is there.
    let layers = [plain(), layer(Some(ColorPrimaries::DciP3), None), plain()];
    assert_eq!(widest_gamut(&layers), Some(ColorPrimaries::DciP3));
}

// Primaries to connector enum.

#[test]
fn bt709_maps_to_default_rather_than_bt709_ycc() {
    // BT709_YCC would force YCC encoding on an RGB source. `Default` lets
    // the driver use its standard SDR signalling, which is what an sRGB
    // desktop wants.
    assert_eq!(ColorPrimaries::Bt709.colorspace(), Colorspace::Default);
}

#[test]
fn the_other_three_map_to_their_own_entries() {
    assert_eq!(ColorPrimaries::Bt2020.colorspace(), Colorspace::Bt2020Rgb);
    assert_eq!(ColorPrimaries::DciP3.colorspace(), Colorspace::DciP3RgbD65);
    assert_eq!(ColorPrimaries::AdobeRgb.colorspace(), Colorspace::OpRgb);
}

// Deriving the whole thing.

#[test]
fn no_layers_signal_nothing() {
    let signalling = derive_output_signalling(&[], None);
    assert_eq!(signalling.colorspace, None);
    assert_eq!(signalling.hdr_metadata, None);
    assert!(!signalling.hdr_downgraded);
}

#[test]
fn an_all_sdr_frame_that_names_nothing_leaves_the_connector_alone() {
    let signalling = derive_output_signalling(&[plain(), plain()], None);
    assert_eq!(signalling.colorspace, None);
    assert_eq!(signalling.hdr_metadata, None);
}

#[test]
fn an_sdr_bt709_layer_asks_for_default_and_no_hdr() {
    let layers = [layer(Some(ColorPrimaries::Bt709), None)];
    let signalling = derive_output_signalling(&layers, None);
    assert_eq!(signalling.colorspace, Some(Colorspace::Default));
    assert_eq!(signalling.hdr_metadata, None);
}

#[test]
fn a_bt2020_pq_layer_produces_hdr_signalling() {
    let layers = [layer(
        Some(ColorPrimaries::Bt2020),
        Some(TransferFunction::SmpteSt2084Pq),
    )];
    let signalling = derive_output_signalling(&layers, None);
    assert_eq!(signalling.colorspace, Some(Colorspace::Bt2020Rgb));
    let hdr = signalling.hdr_metadata.expect("hdr");
    assert_eq!(hdr.eotf, TransferFunction::SmpteSt2084Pq);
    assert_eq!(
        hdr.display_primaries,
        ColorPrimaries::Bt2020.colorimetry(),
        "the mastering primaries come from the widest-gamut layer"
    );
    // Left at zero deliberately: inventing luminance would have the sink
    // tone-map to numbers nobody measured.
    assert_eq!(hdr.max_display_mastering_luminance, 0);
    assert_eq!(hdr.max_content_light_level, 0);
}

#[test]
fn one_hdr_layer_among_sdr_ones_carries_the_frame() {
    let layers = [
        layer(Some(ColorPrimaries::Bt709), None),
        layer(
            Some(ColorPrimaries::Bt2020),
            Some(TransferFunction::SmpteSt2084Pq),
        ),
    ];
    let signalling = derive_output_signalling(&layers, None);
    assert_eq!(signalling.colorspace, Some(Colorspace::Bt2020Rgb));
    assert!(signalling.hdr_metadata.is_some());
}

#[test]
fn pq_wins_when_both_hdr_curves_are_present() {
    // HDR10 is the common path, and the two cannot both be signalled.
    for order in [[0, 1], [1, 0]] {
        let both = [
            layer(
                Some(ColorPrimaries::Bt2020),
                Some(TransferFunction::SmpteSt2084Pq),
            ),
            layer(
                Some(ColorPrimaries::Bt2020),
                Some(TransferFunction::Bt2100Hlg),
            ),
        ];
        let layers = [both[order[0]], both[order[1]]];
        let hdr = derive_output_signalling(&layers, None)
            .hdr_metadata
            .expect("hdr");
        assert_eq!(hdr.eotf, TransferFunction::SmpteSt2084Pq);
    }
}

#[test]
fn an_hlg_only_frame_signals_hlg() {
    let layers = [layer(
        Some(ColorPrimaries::Bt2020),
        Some(TransferFunction::Bt2100Hlg),
    )];
    let hdr = derive_output_signalling(&layers, None)
        .hdr_metadata
        .expect("hdr");
    assert_eq!(hdr.eotf, TransferFunction::Bt2100Hlg);
}

#[test]
fn an_hdr_layer_that_names_no_gamut_masters_in_bt2020() {
    // BT.709 would be the wrong default here: content that is HDR and did
    // not say is far more likely to be BT.2020, and telling the sink
    // BT.709 shrinks the gamut it renders into.
    let layers = [layer(None, Some(TransferFunction::SmpteSt2084Pq))];
    let signalling = derive_output_signalling(&layers, None);
    assert_eq!(signalling.colorspace, None, "no layer named a gamut");
    let hdr = signalling.hdr_metadata.expect("hdr");
    assert_eq!(hdr.display_primaries, ColorPrimaries::Bt2020.colorimetry());
}

#[test]
fn traditional_gamma_hdr_is_not_hdr_signalling() {
    // HDR content over a BT.1886 path. Publishing PQ metadata for it would
    // tell the sink to apply a curve the content is not in.
    let layers = [layer(
        Some(ColorPrimaries::Bt2020),
        Some(TransferFunction::TraditionalGammaHdr),
    )];
    let signalling = derive_output_signalling(&layers, None);
    assert_eq!(signalling.hdr_metadata, None);
    assert!(!signalling.hdr_downgraded, "nothing was dropped");
    assert_eq!(signalling.colorspace, Some(Colorspace::Bt2020Rgb));
}

// Connector constraints.

#[test]
fn a_capable_connector_keeps_the_metadata() {
    let layers = [layer(
        Some(ColorPrimaries::Bt2020),
        Some(TransferFunction::SmpteSt2084Pq),
    )];
    let signalling = derive_output_signalling(&layers, Some(&hdr_capable()));
    assert!(signalling.hdr_metadata.is_some());
    assert!(!signalling.hdr_downgraded);
}

#[test]
fn a_connector_without_the_blob_downgrades() {
    let layers = [layer(
        Some(ColorPrimaries::Bt2020),
        Some(TransferFunction::SmpteSt2084Pq),
    )];
    let no_blob = ConnectorCapabilities::new(1).with_max_bpc(MaxBpc {
        min: 8,
        max: 12,
        current: 12,
    });
    let signalling = derive_output_signalling(&layers, Some(&no_blob));
    assert_eq!(signalling.hdr_metadata, None);
    assert!(signalling.hdr_downgraded);
    // The gamut still goes out: that half is not gated on HDR.
    assert_eq!(signalling.colorspace, Some(Colorspace::Bt2020Rgb));
}

#[test]
fn a_connector_capped_at_eight_bits_downgrades() {
    // The metadata would be accepted and the sink would show banded SDR.
    let layers = [layer(
        Some(ColorPrimaries::Bt2020),
        Some(TransferFunction::SmpteSt2084Pq),
    )];
    let eight_bit = ConnectorCapabilities::new(1)
        .with_hdr_output_metadata(true)
        .with_max_bpc(MaxBpc {
            min: 6,
            max: 8,
            current: 8,
        });
    let signalling = derive_output_signalling(&layers, Some(&eight_bit));
    assert_eq!(signalling.hdr_metadata, None);
    assert!(signalling.hdr_downgraded);
}

#[test]
fn ten_bits_is_enough() {
    // The boundary, and it is inclusive: ten is where PQ stops banding.
    let layers = [layer(
        Some(ColorPrimaries::Bt2020),
        Some(TransferFunction::SmpteSt2084Pq),
    )];
    assert!(
        derive_output_signalling(&layers, Some(&hdr_capable()))
            .hdr_metadata
            .is_some()
    );
}

#[test]
fn an_sdr_frame_is_never_downgraded() {
    // There was nothing to drop, so the flag must stay false even on a
    // connector that could not have carried HDR.
    let layers = [layer(Some(ColorPrimaries::Bt709), None)];
    let eight_bit = ConnectorCapabilities::new(1).with_max_bpc(MaxBpc {
        min: 6,
        max: 8,
        current: 8,
    });
    let signalling = derive_output_signalling(&layers, Some(&eight_bit));
    assert!(!signalling.hdr_downgraded);
    assert_eq!(signalling.colorspace, Some(Colorspace::Default));
}

#[test]
fn without_capabilities_the_constraint_is_not_checked() {
    // For a caller that gated up front, and for a test that wants the
    // derive in isolation.
    let layers = [layer(
        Some(ColorPrimaries::Bt2020),
        Some(TransferFunction::SmpteSt2084Pq),
    )];
    let signalling = derive_output_signalling(&layers, None);
    assert!(signalling.hdr_metadata.is_some());
    assert!(!signalling.hdr_downgraded);
}

#[test]
fn the_defaults_name_nothing() {
    let params = DisplayParams::default();
    assert_eq!(params.color_primaries, None);
    assert_eq!(params.source_eotf, None);
}

#[test]
fn only_the_two_hdr_curves_are_hdr() {
    assert!(is_hdr(TransferFunction::SmpteSt2084Pq));
    assert!(is_hdr(TransferFunction::Bt2100Hlg));
    assert!(!is_hdr(TransferFunction::TraditionalGammaHdr));
    assert!(!is_hdr(TransferFunction::TraditionalGammaSdr));
}

#[test]
fn a_connector_without_a_stated_depth_is_not_held_back() {
    assert!(ConnectorCapabilities::new(1)
        .with_hdr_output_metadata(true)
        .can_signal_hdr());
    assert!(!ConnectorCapabilities::new(1).can_signal_hdr());
    assert!(hdr_capable().can_signal_hdr());
    assert_eq!(ColorPrimaries::default(), ColorPrimaries::Bt709);
}

#[test]
fn layer_order_does_not_change_what_is_signalled() {
    let a = layer(
        Some(ColorPrimaries::AdobeRgb),
        Some(TransferFunction::Bt2100Hlg),
    );
    let b = layer(Some(ColorPrimaries::DciP3), None);
    let c = layer(None, Some(TransferFunction::SmpteSt2084Pq));
    assert_eq!(
        derive_output_signalling(&[a, b, c], Some(&hdr_capable())),
        derive_output_signalling(&[c, b, a], Some(&hdr_capable()))
    );
}
