//! What to tell the connector about the frame it is being handed.
//!
//! The producer side describes each layer's container colorimetry and transfer
//! function. The connector wants one colorspace and, for HDR, one block of
//! mastering metadata. This is the bridge between them.

use vstd::prelude::*;
use crate::display::DisplayParams;

verus! {

/// The container colorimetry a producer says its layer is in, narrowest gamut
/// first.
#[derive(Debug, Clone, Copy, PartialEq, Eq, PartialOrd, Ord, Structural)]
pub enum ColorPrimaries {
    /// BT.709 / sRGB. The SDR default.
    Bt709,
    /// Adobe RGB (1998).
    AdobeRgb,
    /// DCI-P3 D65, display-referred consumer P3.
    DciP3,
    /// BT.2020 / Rec.2100. HDR and wide-gamut SDR.
    Bt2020,
}

/// The transfer functions of the HDR static metadata block.
#[derive(Debug, Clone, Copy, PartialEq, Eq, Structural)]
pub enum TransferFunction {
    /// Traditional gamma, SDR luminance range.
    TraditionalGammaSdr,
    /// Traditional gamma, HDR luminance range.
    TraditionalGammaHdr,
    /// SMPTE ST 2084, PQ.
    SmpteSt2084Pq,
    /// ITU-R BT.2100 HLG.
    Bt2100Hlg,
}

/// The connector colorspaces the scene asks for.
#[derive(Debug, Clone, Copy, PartialEq, Eq, Structural)]
pub enum Colorspace {
    /// The driver's standard SDR signalling.
    Default,
    /// opRGB.
    OpRgb,
    /// DCI-P3 with a D65 white point, RGB.
    DciP3RgbD65,
    /// BT.2020, RGB.
    Bt2020Rgb,
}

/// A CIE 1931 chromaticity, in ten-thousandths.
#[derive(Debug, Clone, Copy, PartialEq, Eq, Structural)]
pub struct Chromaticity {
    /// The x coordinate.
    pub x: u32,
    /// The y coordinate.
    pub y: u32,
}

/// A set of primaries and its white point.
#[derive(Debug, Clone, Copy, PartialEq, Eq, Structural)]
pub struct ColorimetryInfo {
    /// Red primary.
    pub red: Chromaticity,
    /// Green primary.
    pub green: Chromaticity,
    /// Blue primary.
    pub blue: Chromaticity,
    /// White point.
    pub white: Chromaticity,
    /// Whether the primaries are stated.
    pub has_primaries: bool,
    /// Whether the white point is stated.
    pub has_default_white: bool,
}

/// Mastering metadata for one frame.
#[derive(Debug, Clone, Copy, PartialEq, Eq, Structural)]
pub struct HdrSourceMetadata {
    /// The transfer function.
    pub eotf: TransferFunction,
    /// The mastering display's primaries.
    pub display_primaries: ColorimetryInfo,
    /// Peak mastering luminance, zero when unknown.
    pub max_display_mastering_luminance: u32,
    /// Minimum mastering luminance, zero when unknown.
    pub min_display_mastering_luminance: u32,
    /// `MaxCLL`, zero when unknown.
    pub max_content_light_level: u32,
    /// `MaxFALL`, zero when unknown.
    pub max_frame_average_light_level: u32,
}

/// A connector's bits-per-component range.
#[derive(Debug, Clone, Copy, PartialEq, Eq, Structural)]
pub struct MaxBpc {
    /// The least it can be set to.
    pub min: u64,
    /// The most it can be set to.
    pub max: u64,
    /// What it is set to.
    pub current: u64,
}

/// What a connector can carry, as far as signalling asks.
#[derive(Debug, Clone, Copy, PartialEq, Eq, Structural)]
pub struct ConnectorCapabilities {
    /// The connector.
    pub connector_id: u32,
    /// Whether it takes `HDR_OUTPUT_METADATA`.
    pub has_hdr_output_metadata: bool,
    /// Its bits-per-component range, where it states one.
    pub max_bpc: Option<MaxBpc>,
}

impl ConnectorCapabilities {
    /// A connector that states nothing.
    pub fn new(connector_id: u32) -> (caps: Self)
        ensures
            caps == (ConnectorCapabilities {
                connector_id,
                has_hdr_output_metadata: false,
                max_bpc: None,
            }),
    {
        ConnectorCapabilities { connector_id, has_hdr_output_metadata: false, max_bpc: None }
    }

    /// The same connector, with or without `HDR_OUTPUT_METADATA`.
    pub fn with_hdr_output_metadata(self, present: bool) -> (caps: Self)
        ensures
            caps == (ConnectorCapabilities { has_hdr_output_metadata: present, ..self }),
    {
        ConnectorCapabilities { has_hdr_output_metadata: present, ..self }
    }

    /// The same connector, with this bits-per-component range.
    pub fn with_max_bpc(self, max_bpc: MaxBpc) -> (caps: Self)
        ensures
            caps == (ConnectorCapabilities { max_bpc: Some(max_bpc), ..self }),
    {
        ConnectorCapabilities { max_bpc: Some(max_bpc), ..self }
    }

    /// Whether the connector takes the metadata and no ceiling below ten bits
    /// per component stands in the way.
    pub open spec fn carries_hdr(self) -> bool {
        self.has_hdr_output_metadata && (self.max_bpc is Some ==> self.max_bpc->0.max >= 10)
    }

    /// Whether HDR can be signalled through this connector.
    pub fn can_signal_hdr(&self) -> (can: bool)
        ensures
            can == self.carries_hdr(),
            can <==> self.has_hdr_output_metadata && (self.max_bpc is None || self.max_bpc->0.max
                >= 10),
    {
        let deep_enough: bool = match self.max_bpc {
            Some(bpc) => bpc.max >= 10,
            None => true,
        };
        self.has_hdr_output_metadata && deep_enough
    }
}

impl ColorPrimaries {
    /// Where these primaries stand among the four, the widest gamut highest.
    pub open spec fn gamut_rank(self) -> int {
        match self {
            ColorPrimaries::Bt709 => 0,
            ColorPrimaries::AdobeRgb => 1,
            ColorPrimaries::DciP3 => 2,
            ColorPrimaries::Bt2020 => 3,
        }
    }

    fn rank(self) -> (rank: u8)
        ensures
            rank == self.gamut_rank(),
    {
        match self {
            ColorPrimaries::Bt709 => 0,
            ColorPrimaries::AdobeRgb => 1,
            ColorPrimaries::DciP3 => 2,
            ColorPrimaries::Bt2020 => 3,
        }
    }

    /// Whether this gamut is strictly wider than `other`.
    pub fn is_wider_than(self, other: Self) -> (wider: bool)
        ensures
            wider == (self.gamut_rank() > other.gamut_rank()),
    {
        self.rank() > other.rank()
    }

    /// The canonical chromaticities, all four with a D65 white.
    pub open spec fn chromaticities(self) -> ColorimetryInfo {
        ColorimetryInfo {
            red: match self {
                ColorPrimaries::Bt709 => Chromaticity { x: 6400, y: 3300 },
                ColorPrimaries::Bt2020 => Chromaticity { x: 7080, y: 2920 },
                ColorPrimaries::DciP3 => Chromaticity { x: 6800, y: 3200 },
                ColorPrimaries::AdobeRgb => Chromaticity { x: 6400, y: 3300 },
            },
            green: match self {
                ColorPrimaries::Bt709 => Chromaticity { x: 3000, y: 6000 },
                ColorPrimaries::Bt2020 => Chromaticity { x: 1700, y: 7970 },
                ColorPrimaries::DciP3 => Chromaticity { x: 2650, y: 6900 },
                ColorPrimaries::AdobeRgb => Chromaticity { x: 2100, y: 7100 },
            },
            blue: match self {
                ColorPrimaries::Bt709 => Chromaticity { x: 1500, y: 600 },
                ColorPrimaries::Bt2020 => Chromaticity { x: 1310, y: 460 },
                ColorPrimaries::DciP3 => Chromaticity { x: 1500, y: 600 },
                ColorPrimaries::AdobeRgb => Chromaticity { x: 1500, y: 600 },
            },
            white: Chromaticity { x: 3127, y: 3290 },
            has_primaries: true,
            has_default_white: true,
        }
    }

    /// Canonical CIE 1931 chromaticities, ready to seed mastering-display
    /// primaries.
    pub fn colorimetry(self) -> (info: ColorimetryInfo)
        ensures
            info == self.chromaticities(),
    {
        let (red, green, blue) = match self {
            // ITU-R BT.709-6 section 3.2.
            ColorPrimaries::Bt709 => (
                Chromaticity { x: 6400, y: 3300 },
                Chromaticity { x: 3000, y: 6000 },
                Chromaticity { x: 1500, y: 600 },
            ),
            // ITU-R BT.2020-2 section 2.3.
            ColorPrimaries::Bt2020 => (
                Chromaticity { x: 7080, y: 2920 },
                Chromaticity { x: 1700, y: 7970 },
                Chromaticity { x: 1310, y: 460 },
            ),
            // SMPTE EG 432-1.
            ColorPrimaries::DciP3 => (
                Chromaticity { x: 6800, y: 3200 },
                Chromaticity { x: 2650, y: 6900 },
                Chromaticity { x: 1500, y: 600 },
            ),
            // Adobe RGB (1998) section 4.3.4.1: BT.709 but for its green.
            ColorPrimaries::AdobeRgb => (
                Chromaticity { x: 6400, y: 3300 },
                Chromaticity { x: 2100, y: 7100 },
                Chromaticity { x: 1500, y: 600 },
            ),
        };
        ColorimetryInfo {
            red,
            green,
            blue,
            white: Chromaticity { x: 3127, y: 3290 },
            has_primaries: true,
            has_default_white: true,
        }
    }

    /// The connector enum that best carries these primaries.
    pub open spec fn colorspace_spec(self) -> Colorspace {
        match self {
            ColorPrimaries::Bt709 => Colorspace::Default,
            ColorPrimaries::Bt2020 => Colorspace::Bt2020Rgb,
            ColorPrimaries::DciP3 => Colorspace::DciP3RgbD65,
            ColorPrimaries::AdobeRgb => Colorspace::OpRgb,
        }
    }

    /// The connector enum that best carries these primaries.
    ///
    /// BT.709 maps to the driver's default: its YCC entry would force an
    /// encoding an RGB source is not in.
    pub fn colorspace(self) -> (colorspace: Colorspace)
        ensures
            colorspace == self.colorspace_spec(),
    {
        match self {
            ColorPrimaries::Bt709 => Colorspace::Default,
            ColorPrimaries::Bt2020 => Colorspace::Bt2020Rgb,
            ColorPrimaries::DciP3 => Colorspace::DciP3RgbD65,
            ColorPrimaries::AdobeRgb => Colorspace::OpRgb,
        }
    }
}

impl Default for ColorPrimaries {
    fn default() -> (primaries: Self)
        ensures
            primaries == ColorPrimaries::Bt709,
    {
        ColorPrimaries::Bt709
    }
}

/// What the scene wants declared on the connector for one frame.
#[derive(Debug, Clone, Copy, PartialEq, Eq, Structural)]
pub struct OutputSignalling {
    /// The colorspace to write, or `None` to leave the property alone.
    pub colorspace: Option<Colorspace>,
    /// The metadata to publish, or `None` for no HDR signalling.
    pub hdr_metadata: Option<HdrSourceMetadata>,
    /// Whether HDR was called for and could not be carried.
    pub hdr_downgraded: bool,
}

/// Whether `gamut` is the widest any layer names: some layer names it and none
/// names a wider one, or it is `None` and no layer names any.
pub open spec fn is_widest_gamut(layers: Seq<DisplayParams>, gamut: Option<ColorPrimaries>) -> bool {
    match gamut {
        Some(primaries) => {
            &&& exists|i: int| 0 <= i < layers.len() && layers[i].color_primaries == Some(primaries)
            &&& forall|i: int|
                0 <= i < layers.len() && (#[trigger] layers[i]).color_primaries is Some
                    ==> layers[i].color_primaries->0.gamut_rank() <= primaries.gamut_rank()
        },
        None => forall|i: int|
            0 <= i < layers.len() ==> (#[trigger] layers[i]).color_primaries is None,
    }
}

/// The widest gamut the layers of a frame name.
pub open spec fn frame_gamut(layers: Seq<DisplayParams>) -> Option<ColorPrimaries> {
    choose|gamut: Option<ColorPrimaries>| is_widest_gamut(layers, gamut)
}

/// The widest-gamut primaries any layer names, or `None` when none names any.
pub fn widest_gamut(layers: &[DisplayParams]) -> (gamut: Option<ColorPrimaries>)
    ensures
        is_widest_gamut(layers@, gamut),
{
    let mut gamut: Option<ColorPrimaries> = None;
    let mut i: usize = 0;
    while i < layers.len()
        invariant
            0 <= i <= layers@.len(),
            is_widest_gamut(layers@.take(i as int), gamut),
        decreases layers@.len() - i,
    {
        let ghost seen = layers@.take(i as int);
        let ghost next = layers@.take(i + 1);
        let named: Option<ColorPrimaries> = layers[i].color_primaries;
        let ghost before = gamut;
        if let Some(primaries) = named {
            let wider: bool = match gamut {
                Some(best) => primaries.is_wider_than(best),
                None => true,
            };
            if wider {
                gamut = Some(primaries);
            }
        }
        proof {
            assert(next =~= seen.push(layers@[i as int]));
            assert forall|j: int| 0 <= j < i implies #[trigger] next[j] == seen[j] by {}
            assert(next[i as int] == layers@[i as int]);
            if let Some(primaries) = gamut {
                if gamut != before {
                    assert(next[i as int].color_primaries == Some(primaries));
                } else {
                    let k = choose|k: int|
                        0 <= k < seen.len() && seen[k].color_primaries == Some(primaries);
                    assert(next[k].color_primaries == Some(primaries));
                }
            }
        }
        i += 1;
    }
    assert(layers@.take(layers@.len() as int) =~= layers@);
    gamut
}

/// Whether a transfer function needs HDR signalling.
///
/// HDR content over a traditional gamma does not: PQ metadata would tell the
/// sink to apply a curve the content is not in.
pub open spec fn needs_hdr(eotf: TransferFunction) -> bool {
    eotf == TransferFunction::SmpteSt2084Pq || eotf == TransferFunction::Bt2100Hlg
}

/// Whether a transfer function is one that needs HDR signalling.
pub fn is_hdr(eotf: TransferFunction) -> (hdr: bool)
    ensures
        hdr == needs_hdr(eotf),
{
    matches!(eotf, TransferFunction::SmpteSt2084Pq | TransferFunction::Bt2100Hlg)
}

/// Whether some layer is encoded with `eotf`.
pub open spec fn some_layer_in(layers: Seq<DisplayParams>, eotf: TransferFunction) -> bool {
    exists|i: int| 0 <= i < layers.len() && (#[trigger] layers[i]).source_eotf == Some(eotf)
}

/// The transfer function a frame of these layers is signalled with: PQ if any
/// layer is in it, otherwise HLG if any is, otherwise none.
pub open spec fn frame_eotf(layers: Seq<DisplayParams>) -> Option<TransferFunction> {
    if some_layer_in(layers, TransferFunction::SmpteSt2084Pq) {
        Some(TransferFunction::SmpteSt2084Pq)
    } else if some_layer_in(layers, TransferFunction::Bt2100Hlg) {
        Some(TransferFunction::Bt2100Hlg)
    } else {
        None
    }
}

fn hdr_eotf(layers: &[DisplayParams]) -> (eotf: Option<TransferFunction>)
    ensures
        eotf == frame_eotf(layers@),
{
    let mut pq: bool = false;
    let mut hlg: bool = false;
    let mut i: usize = 0;
    while i < layers.len()
        invariant
            0 <= i <= layers@.len(),
            pq == some_layer_in(layers@.take(i as int), TransferFunction::SmpteSt2084Pq),
            hlg == some_layer_in(layers@.take(i as int), TransferFunction::Bt2100Hlg),
        decreases layers@.len() - i,
    {
        let ghost seen = layers@.take(i as int);
        let ghost next = layers@.take(i + 1);
        let named: Option<TransferFunction> = layers[i].source_eotf;
        if let Some(eotf) = named {
            if is_hdr(eotf) {
                if eotf == TransferFunction::SmpteSt2084Pq {
                    pq = true;
                } else {
                    hlg = true;
                }
            }
        }
        proof {
            assert(next[i as int] == layers@[i as int]);
            assert forall|e: TransferFunction| #[trigger]
                some_layer_in(next, e) == (some_layer_in(seen, e) || named == Some(e)) by {
                if some_layer_in(seen, e) {
                    let k = choose|k: int|
                        0 <= k < seen.len() && (#[trigger] seen[k]).source_eotf == Some(e);
                    assert(next[k].source_eotf == Some(e));
                }
                if some_layer_in(next, e) && named != Some(e) {
                    let k = choose|k: int|
                        0 <= k < next.len() && (#[trigger] next[k]).source_eotf == Some(e);
                    assert(k < i);
                    assert(seen[k].source_eotf == Some(e));
                }
            }
        }
        i += 1;
    }
    assert(layers@.take(layers@.len() as int) =~= layers@);
    if pq {
        Some(TransferFunction::SmpteSt2084Pq)
    } else if hlg {
        Some(TransferFunction::Bt2100Hlg)
    } else {
        None
    }
}

/// The metadata for a frame in `eotf` whose widest gamut is `gamut`. Primaries
/// nobody named are BT.2020's, and luminance nobody measured stays zero.
pub open spec fn metadata_for(
    eotf: TransferFunction,
    gamut: Option<ColorPrimaries>,
) -> HdrSourceMetadata {
    HdrSourceMetadata {
        eotf,
        display_primaries: match gamut {
            Some(primaries) => primaries.chromaticities(),
            None => ColorPrimaries::Bt2020.chromaticities(),
        },
        max_display_mastering_luminance: 0,
        min_display_mastering_luminance: 0,
        max_content_light_level: 0,
        max_frame_average_light_level: 0,
    }
}

/// What the connector should signal, given the frame's widest gamut.
pub open spec fn signalling_for(
    layers: Seq<DisplayParams>,
    gamut: Option<ColorPrimaries>,
    capabilities: Option<ConnectorCapabilities>,
) -> OutputSignalling {
    let blocked = capabilities is Some && !capabilities->0.carries_hdr();
    OutputSignalling {
        colorspace: match gamut {
            Some(primaries) => Some(primaries.colorspace_spec()),
            None => None,
        },
        hdr_metadata: match frame_eotf(layers) {
            Some(eotf) if !blocked => Some(metadata_for(eotf, gamut)),
            _ => None,
        },
        hdr_downgraded: frame_eotf(layers) is Some && blocked,
    }
}

/// Derive what the connector should signal for this frame's layers.
///
/// The widest-gamut layer decides the colorspace and the mastering primaries.
/// Any layer in PQ or HLG produces metadata, PQ winning over HLG.
/// `capabilities` gates the HDR half; `None` skips that check.
pub fn derive_output_signalling(
    layers: &[DisplayParams],
    capabilities: Option<&ConnectorCapabilities>,
) -> (signalling: OutputSignalling)
    ensures
        signalling == signalling_for(
            layers@,
            frame_gamut(layers@),
            match capabilities {
                Some(caps) => Some(*caps),
                None => None,
            },
        ),
{
    let gamut: Option<ColorPrimaries> = widest_gamut(layers);
    proof {
        law_widest_gamut_is_unique(layers@, gamut, frame_gamut(layers@));
    }
    let eotf: Option<TransferFunction> = hdr_eotf(layers);
    let colorspace: Option<Colorspace> = match gamut {
        Some(primaries) => Some(primaries.colorspace()),
        None => None,
    };
    let metadata: Option<HdrSourceMetadata> = match eotf {
        Some(eotf) => Some(
            HdrSourceMetadata {
                eotf,
                display_primaries: match gamut {
                    Some(primaries) => primaries.colorimetry(),
                    None => ColorPrimaries::Bt2020.colorimetry(),
                },
                max_display_mastering_luminance: 0,
                min_display_mastering_luminance: 0,
                max_content_light_level: 0,
                max_frame_average_light_level: 0,
            },
        ),
        None => None,
    };
    let blocked: bool = match capabilities {
        Some(caps) => !caps.can_signal_hdr(),
        None => false,
    };
    if metadata.is_some() && blocked {
        OutputSignalling { colorspace, hdr_metadata: None, hdr_downgraded: true }
    } else {
        OutputSignalling { colorspace, hdr_metadata: metadata, hdr_downgraded: false }
    }
}

// --- laws --------------------------------------------------------------------

/// The widest gamut is one value: two answers that both are the widest agree.
pub proof fn law_widest_gamut_is_unique(
    layers: Seq<DisplayParams>,
    a: Option<ColorPrimaries>,
    b: Option<ColorPrimaries>,
)
    requires
        is_widest_gamut(layers, a),
        is_widest_gamut(layers, b),
    ensures
        a == b,
{
    if let Some(p) = a {
        let i = choose|i: int| 0 <= i < layers.len() && layers[i].color_primaries == Some(p);
        assert(layers[i].color_primaries == Some(p));
    }
    if let Some(q) = b {
        let j = choose|j: int| 0 <= j < layers.len() && layers[j].color_primaries == Some(q);
        assert(layers[j].color_primaries == Some(q));
    }
}

/// Neither the gamut nor the transfer function of a frame depends on the order
/// of its layers.
pub proof fn law_signalling_ignores_layer_order(
    layers: Seq<DisplayParams>,
    shuffled: Seq<DisplayParams>,
    gamut: Option<ColorPrimaries>,
)
    requires
        layers.to_multiset() == shuffled.to_multiset(),
        is_widest_gamut(layers, gamut),
    ensures
        is_widest_gamut(shuffled, gamut),
        frame_eotf(layers) == frame_eotf(shuffled),
{
    assert forall|d: DisplayParams| #[trigger] layers.contains(d) == shuffled.contains(d) by {
        layers.to_multiset_ensures();
        shuffled.to_multiset_ensures();
        assert(layers.contains(d) <==> layers.to_multiset().count(d) > 0);
        assert(shuffled.contains(d) <==> shuffled.to_multiset().count(d) > 0);
    }
    if let Some(p) = gamut {
        let i = choose|i: int| 0 <= i < layers.len() && layers[i].color_primaries == Some(p);
        assert(layers.contains(layers[i]));
        let j = choose|j: int| 0 <= j < shuffled.len() && shuffled[j] == layers[i];
        assert(shuffled[j].color_primaries == Some(p));
    }
    assert forall|k: int| 0 <= k < shuffled.len() implies exists|i: int|
        0 <= i < layers.len() && layers[i] == #[trigger] shuffled[k] by {
        assert(shuffled.contains(shuffled[k]));
        assert(layers.contains(shuffled[k]));
    }
    assert forall|k: int| 0 <= k < layers.len() implies exists|i: int|
        0 <= i < shuffled.len() && shuffled[i] == #[trigger] layers[k] by {
        assert(layers.contains(layers[k]));
        assert(shuffled.contains(layers[k]));
    }
    assert(is_widest_gamut(shuffled, gamut));
    assert forall|e: TransferFunction| #[trigger]
        some_layer_in(layers, e) == some_layer_in(shuffled, e) by {
        if some_layer_in(layers, e) {
            let i = choose|i: int|
                0 <= i < layers.len() && (#[trigger] layers[i]).source_eotf == Some(e);
            let j = choose|j: int| 0 <= j < shuffled.len() && shuffled[j] == layers[i];
            assert(shuffled[j].source_eotf == Some(e));
        }
        if some_layer_in(shuffled, e) {
            let i = choose|i: int|
                0 <= i < shuffled.len() && (#[trigger] shuffled[i]).source_eotf == Some(e);
            let j = choose|j: int| 0 <= j < layers.len() && layers[j] == shuffled[i];
            assert(layers[j].source_eotf == Some(e));
        }
    }
}

/// Metadata is published, or its loss is reported, exactly when some layer is
/// in an HDR curve; a frame with none is never downgraded.
pub proof fn law_hdr_is_signalled_or_reported(
    layers: Seq<DisplayParams>,
    gamut: Option<ColorPrimaries>,
    capabilities: Option<ConnectorCapabilities>,
)
    ensures
        ({
            let signalling = signalling_for(layers, gamut, capabilities);
            &&& (signalling.hdr_metadata is Some || signalling.hdr_downgraded)
                == (exists|i: int|
                0 <= i < layers.len() && (#[trigger] layers[i]).source_eotf is Some && needs_hdr(
                    layers[i].source_eotf->0,
                ))
            &&& !(signalling.hdr_metadata is Some && signalling.hdr_downgraded)
        }),
{
    assert forall|i: int|
        0 <= i < layers.len() && (#[trigger] layers[i]).source_eotf is Some && needs_hdr(
            layers[i].source_eotf->0,
        ) implies frame_eotf(layers) is Some by {
        assert(some_layer_in(layers, layers[i].source_eotf->0));
    }
}

/// A wider gamut is never also a narrower one, and any two different gamuts
/// are ranked.
pub proof fn law_gamuts_are_totally_ordered(a: ColorPrimaries, b: ColorPrimaries)
    ensures
        a == b || a.gamut_rank() > b.gamut_rank() || b.gamut_rank() > a.gamut_rank(),
        !(a.gamut_rank() > b.gamut_rank() && b.gamut_rank() > a.gamut_rank()),
{
}

/// A connector carries HDR exactly where it takes the metadata and its ceiling,
/// if it states one, is at least ten bits: what it is set to now, and the least
/// it could be set to, do not matter.
pub proof fn law_hdr_goes_by_the_ceiling(a: ConnectorCapabilities, b: ConnectorCapabilities)
    ensures
        a.carries_hdr() <==> a.has_hdr_output_metadata && (a.max_bpc is None || a.max_bpc->0.max
            >= 10),
        a.has_hdr_output_metadata == b.has_hdr_output_metadata && a.max_bpc is Some && b.max_bpc
            is Some && a.max_bpc->0.max == b.max_bpc->0.max ==> a.carries_hdr() == b.carries_hdr(),
        a.has_hdr_output_metadata && a.max_bpc is Some && b.has_hdr_output_metadata && b.max_bpc
            is Some && a.max_bpc->0.max <= b.max_bpc->0.max && a.carries_hdr() ==> b.carries_hdr(),
{
}

/// Whether some layer names these primaries.
pub open spec fn some_layer_names(layers: Seq<DisplayParams>, primaries: ColorPrimaries) -> bool {
    exists|i: int|
        0 <= i < layers.len() && (#[trigger] layers[i]).color_primaries == Some(primaries)
}

proof fn lemma_a_widest_gamut_exists(layers: Seq<DisplayParams>)
    ensures
        exists|gamut: Option<ColorPrimaries>| is_widest_gamut(layers, gamut),
    decreases layers.len(),
{
    if layers.len() == 0 {
        assert(is_widest_gamut(layers, None));
    } else {
        let rest = layers.drop_last();
        lemma_a_widest_gamut_exists(rest);
        let best = choose|gamut: Option<ColorPrimaries>| is_widest_gamut(rest, gamut);
        let last = layers.last().color_primaries;
        assert(layers[layers.len() - 1] == layers.last());
        assert forall|j: int| 0 <= j < rest.len() implies #[trigger] layers[j] == rest[j] by {}
        let wider = match (last, best) {
            (Some(p), Some(b)) => p.gamut_rank() > b.gamut_rank(),
            (Some(_), None) => true,
            _ => false,
        };
        let gamut = if wider {
            last
        } else {
            best
        };
        if let Some(p) = gamut {
            if wider {
                assert(layers[layers.len() - 1].color_primaries == Some(p));
            } else {
                let k = choose|k: int| 0 <= k < rest.len() && rest[k].color_primaries == Some(p);
                assert(layers[k].color_primaries == Some(p));
            }
        }
        assert(is_widest_gamut(layers, gamut));
    }
}

/// What a frame signals, in full. The colorspace is that of the widest gamut any
/// layer names, BT.2020 before DCI-P3 before Adobe RGB before BT.709, and is left
/// alone where none names any. Metadata is published exactly where a layer is in
/// PQ or HLG and nothing of the connector stands in the way, with PQ if any layer
/// is in it and no luminance made up; where the connector does stand in the way
/// it is reported.
pub proof fn law_a_frame_signals_its_widest_layer(
    layers: Seq<DisplayParams>,
    capabilities: Option<ConnectorCapabilities>,
)
    ensures
        ({
            let signalled = signalling_for(layers, frame_gamut(layers), capabilities);
            let bt2020 = some_layer_names(layers, ColorPrimaries::Bt2020);
            let p3 = some_layer_names(layers, ColorPrimaries::DciP3);
            let adobe = some_layer_names(layers, ColorPrimaries::AdobeRgb);
            let bt709 = some_layer_names(layers, ColorPrimaries::Bt709);
            let pq = exists|i: int|
                0 <= i < layers.len() && (#[trigger] layers[i]).source_eotf == Some(
                    TransferFunction::SmpteSt2084Pq,
                );
            let hlg = exists|i: int|
                0 <= i < layers.len() && (#[trigger] layers[i]).source_eotf == Some(
                    TransferFunction::Bt2100Hlg,
                );
            let carried = capabilities is None || (capabilities->0.has_hdr_output_metadata && (
            capabilities->0.max_bpc is None || capabilities->0.max_bpc->0.max >= 10));
            &&& bt2020 ==> signalled.colorspace == Some(Colorspace::Bt2020Rgb)
            &&& !bt2020 && p3 ==> signalled.colorspace == Some(Colorspace::DciP3RgbD65)
            &&& !bt2020 && !p3 && adobe ==> signalled.colorspace == Some(Colorspace::OpRgb)
            &&& !bt2020 && !p3 && !adobe && bt709 ==> signalled.colorspace == Some(
                Colorspace::Default,
            )
            &&& !bt2020 && !p3 && !adobe && !bt709 ==> signalled.colorspace is None
            &&& signalled.hdr_metadata is Some <==> (pq || hlg) && carried
            &&& signalled.hdr_downgraded <==> (pq || hlg) && !carried
            &&& signalled.hdr_metadata matches Some(metadata) ==> {
                &&& metadata.eotf == if pq {
                    TransferFunction::SmpteSt2084Pq
                } else {
                    TransferFunction::Bt2100Hlg
                }
                &&& metadata.max_display_mastering_luminance == 0
                &&& metadata.min_display_mastering_luminance == 0
                &&& metadata.max_content_light_level == 0
                &&& metadata.max_frame_average_light_level == 0
                &&& metadata.display_primaries.has_primaries
                &&& metadata.display_primaries.has_default_white
                &&& metadata.display_primaries.white == (Chromaticity { x: 3127, y: 3290 })
                &&& bt2020 || (!p3 && !adobe && !bt709) ==> metadata.display_primaries.red == (
                Chromaticity { x: 7080, y: 2920 }) && metadata.display_primaries.green == (
                Chromaticity { x: 1700, y: 7970 }) && metadata.display_primaries.blue == (
                Chromaticity { x: 1310, y: 460 })
                &&& !bt2020 && p3 ==> metadata.display_primaries.red == (Chromaticity {
                    x: 6800,
                    y: 3200,
                }) && metadata.display_primaries.green == (Chromaticity { x: 2650, y: 6900 })
                    && metadata.display_primaries.blue == (Chromaticity { x: 1500, y: 600 })
                &&& !bt2020 && !p3 && adobe ==> metadata.display_primaries.red == (Chromaticity {
                    x: 6400,
                    y: 3300,
                }) && metadata.display_primaries.green == (Chromaticity { x: 2100, y: 7100 })
                    && metadata.display_primaries.blue == (Chromaticity { x: 1500, y: 600 })
                &&& !bt2020 && !p3 && !adobe && bt709 ==> metadata.display_primaries.red == (
                Chromaticity { x: 6400, y: 3300 }) && metadata.display_primaries.green == (
                Chromaticity { x: 3000, y: 6000 }) && metadata.display_primaries.blue == (
                Chromaticity { x: 1500, y: 600 })
            }
        }),
{
    let gamut = frame_gamut(layers);
    lemma_a_widest_gamut_exists(layers);
    assert(is_widest_gamut(layers, gamut));
    assert forall|p: ColorPrimaries| #[trigger] some_layer_names(layers, p) implies gamut is Some
        && p.gamut_rank() <= gamut->0.gamut_rank() by {
        let i = choose|i: int|
            0 <= i < layers.len() && (#[trigger] layers[i]).color_primaries == Some(p);
        assert(layers[i].color_primaries is Some);
    }
    if let Some(p) = gamut {
        let i = choose|i: int| 0 <= i < layers.len() && layers[i].color_primaries == Some(p);
        assert(layers[i].color_primaries == Some(p));
        assert(some_layer_names(layers, p));
    }
    assert(some_layer_in(layers, TransferFunction::SmpteSt2084Pq) <==> exists|i: int|
        0 <= i < layers.len() && (#[trigger] layers[i]).source_eotf == Some(
            TransferFunction::SmpteSt2084Pq,
        ));
    assert(some_layer_in(layers, TransferFunction::Bt2100Hlg) <==> exists|i: int|
        0 <= i < layers.len() && (#[trigger] layers[i]).source_eotf == Some(
            TransferFunction::Bt2100Hlg,
        ));
}

/// A gamut is wider than another exactly in the order BT.2020, DCI-P3, Adobe RGB,
/// BT.709; and HDR signalling is for PQ and HLG, never for a gamma curve.
pub proof fn law_gamuts_and_curves_are_told_apart()
    ensures
        ColorPrimaries::Bt2020.gamut_rank() > ColorPrimaries::DciP3.gamut_rank(),
        ColorPrimaries::DciP3.gamut_rank() > ColorPrimaries::AdobeRgb.gamut_rank(),
        ColorPrimaries::AdobeRgb.gamut_rank() > ColorPrimaries::Bt709.gamut_rank(),
        needs_hdr(TransferFunction::SmpteSt2084Pq),
        needs_hdr(TransferFunction::Bt2100Hlg),
        !needs_hdr(TransferFunction::TraditionalGammaSdr),
        !needs_hdr(TransferFunction::TraditionalGammaHdr),
{
}

/// Asking a connector gives the same answer: HDR goes through exactly where the
/// metadata property is there and no ceiling below ten bits is.
pub proof fn law_asking_goes_by_the_ceiling(caps: ConnectorCapabilities, can: bool)
    requires
        call_ensures(ConnectorCapabilities::can_signal_hdr, (&caps,), can),
    ensures
        can <==> caps.has_hdr_output_metadata && !(caps.max_bpc matches Some(bpc) && bpc.max < 10),
{
}

} // verus!
