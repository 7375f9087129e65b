//! What a DRM device is, written down as a profile.
//!
//! A profile is deterministic and free of object ids: ids are assigned per boot
//! on some drivers, and a baseline that moved every reboot would be ignored.
//! Everything is aggregated by capability instead, *how many* planes carry a
//! rotation mask and not which.

use vstd::prelude::*;
use crate::json::{array_of, field, object_of, pretty, indented, quoted, truth, Json};
use crate::order::{noted_total, ordered, sort, tallied, views, Entry, EntryView, Tally};
use crate::planes::{PlaneCapabilities, PlaneRegistry, PlaneType};
use crate::signaling::MaxBpc;
use crate::text::{
    chars_of, decimal, hexadecimal, is_char, push_decimal, push_hexadecimal, push_text, shortened,
    texts, trim, trim_end_of, trimmed,
};

verus! {

/// An object holding one error.
pub open spec fn failure(error: Seq<char>) -> Seq<char> {
    object_of(seq![field("error"@, quoted(error))])
}

/// An object holding one error.
fn report_failure(error: &str) -> (text: String)
    ensures
        text@ == failure(error@),
{
    let mut out = Json::object();
    out.string("error", error);
    assert(out.entries@ =~= seq![field("error"@, quoted(error@))]);
    out.finish()
}

// --- counts by label ---------------------------------------------------------

/// The fields of a histogram.
pub open spec fn histogram_fields(entries: Seq<EntryView>) -> Seq<Seq<char>> {
    entries.map_values(|e: EntryView| field(e.label, decimal(e.count)))
}

/// A histogram of a run of notes, one field per label.
pub open spec fn histogram(notes: Seq<EntryView>) -> Seq<char> {
    object_of(histogram_fields(tallied(notes)))
}

/// One note under a label.
pub open spec fn one(rank: u64, label: Seq<char>) -> EntryView {
    EntryView { rank, label, count: 1, total: 1 }
}

/// Write a histogram down.
fn write_histogram(tally: &Tally) -> (text: String)
    requires
        tally.well_formed(),
    ensures
        text@ == histogram(tally.notes@),
{
    let mut out = Json::object();
    let ghost fields = histogram_fields(tallied(tally.notes@));
    let mut i: usize = 0;
    assert(fields.take(0) =~= Seq::empty());
    while i < tally.entries.len()
        invariant
            tally.well_formed(),
            fields == histogram_fields(tallied(tally.notes@)),
            0 <= i <= tally.entries@.len(),
            fields.len() == tally.entries@.len(),
            out.is_object,
            out.well_formed(),
            out.entries@ == fields.take(i as int),
        decreases tally.entries@.len() - i,
    {
        let entry: &Entry = &tally.entries[i];
        assert(views(tally.entries@)[i as int] == entry@);
        out.number(entry.label.as_str(), entry.count);
        assert(fields.take(i + 1) =~= fields.take(i as int).push(fields[i as int]));
        i += 1;
    }
    assert(fields.take(i as int) =~= fields);
    out.finish()
}

// --- planes ------------------------------------------------------------------

/// The counts of planes visible under each client capability.
pub open spec fn visibility_fields(
    neither: nat,
    atomic: nat,
    universal: nat,
    both: nat,
) -> Seq<Seq<char>> {
    seq![
        field("neither_cap"@, decimal(neither)),
        field("atomic_only"@, decimal(atomic)),
        field("universal_only"@, decimal(universal)),
        field("both"@, decimal(both)),
    ]
}

/// How many planes are visible under each client capability.
///
/// Four numbers rather than one because the difference between them is the
/// thing that surprises people.
pub fn plane_visibility(neither: usize, atomic: usize, universal: usize, both: usize) -> (text:
    String)
    ensures
        text@ == object_of(
            visibility_fields(neither as nat, atomic as nat, universal as nat, both as nat),
        ),
{
    let mut out = Json::object();
    out.number("neither_cap", neither);
    out.number("atomic_only", atomic);
    out.number("universal_only", universal);
    out.number("both", both);
    assert(out.entries@ =~= visibility_fields(neither as nat, atomic as nat, universal as nat, both as nat));
    out.finish()
}

/// The largest size tried when looking for the smallest accepted one.
pub const LARGEST_TRIED: u32 = 64;

/// What to do after trying one size.
#[derive(Debug, Clone, Copy, PartialEq, Eq, Structural)]
pub enum SizeStep {
    /// This size next.
    Try(u32),
    /// This is the smallest size the driver accepts.
    Smallest(u32),
    /// No size was accepted.
    Nothing,
}

/// The next step after `tried` was accepted or refused.
///
/// Sizes are tried one by one from 1 up: the range is tiny, and a driver whose
/// answer is not monotonic would fool a binary search into a plausible wrong
/// number.
pub fn size_step(tried: u32, accepted: bool) -> (step: SizeStep)
    ensures
        step == if accepted {
            SizeStep::Smallest(tried)
        } else if tried < LARGEST_TRIED {
            SizeStep::Try((tried + 1) as u32)
        } else {
            SizeStep::Nothing
        },
{
    if accepted {
        SizeStep::Smallest(tried)
    } else if tried < LARGEST_TRIED {
        SizeStep::Try(tried + 1)
    } else {
        SizeStep::Nothing
    }
}

/// The fields of the smallest framebuffer a driver accepts.
pub open spec fn size_fields(width: nat, height: nat) -> Seq<Seq<char>> {
    seq![field("min_width"@, decimal(width)), field("min_height"@, decimal(height))]
}

/// The smallest framebuffer the driver accepts, per dimension.
pub fn min_framebuffer(width: Option<u32>, height: Option<u32>) -> (text: String)
    ensures
        text@ == match (width, height) {
            (Some(w), Some(h)) => object_of(size_fields(w as nat, h as nat)),
            _ => failure("no size up to 64 was accepted"@),
        },
{
    match (width, height) {
        (Some(w), Some(h)) => {
            let mut out = Json::object();
            out.number("min_width", w as usize);
            out.number("min_height", h as usize);
            assert(out.entries@ =~= size_fields(w as nat, h as nat));
            out.finish()
        },
        _ => report_failure("no size up to 64 was accepted"),
    }
}

/// Something a plane may be or have.
#[derive(Debug, Clone, Copy, PartialEq, Eq, Structural)]
pub enum Trait {
    /// It is a primary plane.
    Primary,
    /// It is a cursor plane.
    Cursor,
    /// It is an overlay.
    Overlay,
    /// It takes damage clips.
    DamageClips,
    /// It has a blend mode.
    BlendMode,
    /// It has an alpha of its own.
    Alpha,
    /// It has a colour encoding.
    ColorEncoding,
    /// It lists format modifiers.
    InFormats,
    /// It states a least stacking position.
    Zpos,
    /// It has a rotation property.
    Rotation,
}

/// Whether a plane has a trait.
pub open spec fn shows(plane: PlaneCapabilities, what: Trait) -> bool {
    match what {
        Trait::Primary => plane.plane_type == PlaneType::Primary,
        Trait::Cursor => plane.plane_type == PlaneType::Cursor,
        Trait::Overlay => plane.plane_type == PlaneType::Overlay,
        Trait::DamageClips => plane.has_fb_damage_clips,
        Trait::BlendMode => plane.has_pixel_blend_mode,
        Trait::Alpha => plane.has_per_plane_alpha,
        Trait::ColorEncoding => plane.has_color_encoding,
        Trait::InFormats => plane.has_format_modifiers,
        Trait::Zpos => plane.zpos_min is Some,
        Trait::Rotation => plane.supports_rotation,
    }
}

/// How many planes have a trait.
pub open spec fn how_many(planes: Seq<PlaneCapabilities>, what: Trait) -> nat
    decreases planes.len(),
{
    if planes.len() == 0 {
        0
    } else {
        how_many(planes.drop_last(), what) + if shows(planes.last(), what) {
            1nat
        } else {
            0
        }
    }
}

/// How many planes have a trait.
pub fn count_of(planes: &Vec<PlaneCapabilities>, what: Trait) -> (count: usize)
    ensures
        count == how_many(planes@, what),
        count <= planes@.len(),
{
    let mut count: usize = 0;
    let mut i: usize = 0;
    while i < planes.len()
        invariant
            0 <= i <= planes@.len(),
            count <= i,
            count == how_many(planes@.take(i as int), what),
        decreases planes@.len() - i,
    {
        assert(planes@.take(i + 1).drop_last() =~= planes@.take(i as int));
        let plane = &planes[i];
        let shown = match what {
            Trait::Primary => plane.plane_type == PlaneType::Primary,
            Trait::Cursor => plane.plane_type == PlaneType::Cursor,
            Trait::Overlay => plane.plane_type == PlaneType::Overlay,
            Trait::DamageClips => plane.has_fb_damage_clips,
            Trait::BlendMode => plane.has_pixel_blend_mode,
            Trait::Alpha => plane.has_per_plane_alpha,
            Trait::ColorEncoding => plane.has_color_encoding,
            Trait::InFormats => plane.has_format_modifiers,
            Trait::Zpos => plane.zpos_min.is_some(),
            Trait::Rotation => plane.supports_rotation,
        };
        if shown {
            count += 1;
        }
        i += 1;
    }
    assert(planes@.take(i as int) =~= planes@);
    count
}

/// A rotation mask as a label.
pub open spec fn mask_label(mask: u64) -> Seq<char> {
    "0x"@ + hexadecimal(mask as nat)
}

/// A range as a label.
pub open spec fn range_label(min: u64, max: u64) -> Seq<char> {
    "["@ + decimal(min as nat) + ","@ + decimal(max as nat) + "]"@
}

/// A plane's stacking range as a label.
pub open spec fn zpos_label(plane: PlaneCapabilities) -> Seq<char> {
    match (plane.zpos_min, plane.zpos_max) {
        (Some(min), Some(max)) => range_label(min, max),
        _ => "none"@,
    }
}

/// Each plane's rotation mask, by value.
pub open spec fn mask_notes(planes: Seq<PlaneCapabilities>) -> Seq<EntryView> {
    planes.map_values(|p: PlaneCapabilities| one(p.rotation_bits, mask_label(p.rotation_bits)))
}

/// Each plane's stacking range, by label.
pub open spec fn zpos_notes(planes: Seq<PlaneCapabilities>) -> Seq<EntryView> {
    planes.map_values(|p: PlaneCapabilities| one(0, zpos_label(p)))
}

/// A range as a label.
fn write_range(min: u64, max: u64) -> (label: String)
    ensures
        label@ == range_label(min, max),
{
    let mut out = String::new();
    push_text(&mut out, "[");
    push_decimal(&mut out, min);
    push_text(&mut out, ",");
    push_decimal(&mut out, max);
    push_text(&mut out, "]");
    assert(out@ =~= range_label(min, max));
    out
}

/// A rotation mask as a label.
fn write_mask(mask: u64) -> (label: String)
    ensures
        label@ == mask_label(mask),
{
    let mut out = String::new();
    push_text(&mut out, "0x");
    push_hexadecimal(&mut out, mask);
    assert(out@ =~= mask_label(mask));
    out
}

/// How many planes carry each rotation mask, lowest mask first.
fn rotation_masks(planes: &Vec<PlaneCapabilities>) -> (text: String)
    ensures
        text@ == histogram(mask_notes(planes@)),
{
    let len: usize = planes.len();
    let mut tally = Tally::new();
    let mut i: usize = 0;
    let ghost notes = mask_notes(planes@);
    assert(notes.take(0) =~= tally.notes@);
    while i < planes.len()
        invariant
            0 <= i <= planes@.len(),
            len == planes@.len(),
            notes == mask_notes(planes@),
            tally.well_formed(),
            tally.notes@ == notes.take(i as int),
            noted_total(tally.notes@) == i,
        decreases planes@.len() - i,
    {
        let mask: u64 = planes[i].rotation_bits;
        let label = write_mask(mask);
        tally.note(mask, label, 1, 1);
        assert(notes.take(i + 1) =~= notes.take(i as int).push(notes[i as int]));
        i += 1;
    }
    assert(notes.take(i as int) =~= notes);
    write_histogram(&tally)
}

/// How many planes have each stacking range, by label.
fn zpos_ranges(planes: &Vec<PlaneCapabilities>) -> (text: String)
    ensures
        text@ == histogram(zpos_notes(planes@)),
{
    let len: usize = planes.len();
    let mut tally = Tally::new();
    let mut i: usize = 0;
    let ghost notes = zpos_notes(planes@);
    assert(notes.take(0) =~= tally.notes@);
    while i < planes.len()
        invariant
            0 <= i <= planes@.len(),
            len == planes@.len(),
            notes == zpos_notes(planes@),
            tally.well_formed(),
            tally.notes@ == notes.take(i as int),
            noted_total(tally.notes@) == i,
        decreases planes@.len() - i,
    {
        let label: String = match (planes[i].zpos_min, planes[i].zpos_max) {
            (Some(min), Some(max)) => write_range(min, max),
            _ => "none".to_owned(),
        };
        tally.note(0, label, 1, 1);
        assert(notes.take(i + 1) =~= notes.take(i as int).push(notes[i as int]));
        i += 1;
    }
    assert(notes.take(i as int) =~= notes);
    write_histogram(&tally)
}

/// The fields of a device's planes.
///
/// Counts rather than booleans: a driver where only some planes carry a
/// property is the interesting case.
pub open spec fn plane_fields(planes: Seq<PlaneCapabilities>) -> Seq<Seq<char>> {
    seq![
        field("total"@, decimal(planes.len())),
        field("primary"@, decimal(how_many(planes, Trait::Primary))),
        field("cursor"@, decimal(how_many(planes, Trait::Cursor))),
        field("overlay"@, decimal(how_many(planes, Trait::Overlay))),
        field("with_damage_clips"@, decimal(how_many(planes, Trait::DamageClips))),
        field("with_blend_mode"@, decimal(how_many(planes, Trait::BlendMode))),
        field("with_alpha"@, decimal(how_many(planes, Trait::Alpha))),
        field("with_color_encoding"@, decimal(how_many(planes, Trait::ColorEncoding))),
        field("with_in_formats"@, decimal(how_many(planes, Trait::InFormats))),
        field("with_zpos"@, decimal(how_many(planes, Trait::Zpos))),
        field("with_rotation"@, decimal(how_many(planes, Trait::Rotation))),
        field("rotation_masks"@, histogram(mask_notes(planes))),
        field("zpos_ranges"@, histogram(zpos_notes(planes))),
    ]
}

/// A device's planes by capability, or why they could not be read.
pub fn planes(registry: Result<&PlaneRegistry, &str>) -> (text: String)
    ensures
        match registry {
            Ok(known) => text@ == object_of(plane_fields(known.planes@)),
            Err(error) => text@ == failure(error@),
        },
{
    let all: &Vec<PlaneCapabilities> = match registry {
        Ok(known) => known.all(),
        Err(error) => {
            return report_failure(error);
        },
    };
    let mut out = Json::object();
    out.number("total", all.len());
    out.number("primary", count_of(all, Trait::Primary));
    out.number("cursor", count_of(all, Trait::Cursor));
    out.number("overlay", count_of(all, Trait::Overlay));
    out.number("with_damage_clips", count_of(all, Trait::DamageClips));
    out.number("with_blend_mode", count_of(all, Trait::BlendMode));
    out.number("with_alpha", count_of(all, Trait::Alpha));
    out.number("with_color_encoding", count_of(all, Trait::ColorEncoding));
    out.number("with_in_formats", count_of(all, Trait::InFormats));
    out.number("with_zpos", count_of(all, Trait::Zpos));
    out.number("with_rotation", count_of(all, Trait::Rotation));
    let masks = rotation_masks(all);
    out.raw("rotation_masks", masks.as_str());
    let ranges = zpos_ranges(all);
    out.raw("zpos_ranges", ranges.as_str());
    assert(out.entries@ =~= plane_fields(all@));
    out.finish()
}

// --- CRTCs -------------------------------------------------------------------

/// The colour pipeline of one CRTC.
#[derive(Debug, Clone, Copy, PartialEq, Eq, Structural)]
pub struct CrtcPipeline {
    /// Whether it has a degamma table.
    pub has_degamma_lut: bool,
    /// Whether it has a colour matrix.
    pub has_ctm: bool,
    /// Whether it has a gamma table.
    pub has_gamma_lut: bool,
    /// How many entries the gamma table has.
    pub gamma_lut_size: u32,
}

/// A colour pipeline's shape as a label.
pub open spec fn shape_label(pipeline: CrtcPipeline) -> Seq<char> {
    "degamma="@ + truth(pipeline.has_degamma_lut) + " ctm="@ + truth(pipeline.has_ctm) + " gamma="@
        + truth(pipeline.has_gamma_lut)
}

/// The shape of each pipeline that could be read.
pub open spec fn shape_notes(crtcs: Seq<Option<CrtcPipeline>>) -> Seq<EntryView>
    decreases crtcs.len(),
{
    if crtcs.len() == 0 {
        Seq::empty()
    } else {
        let head = shape_notes(crtcs.drop_last());
        match crtcs.last() {
            Some(pipeline) => head.push(one(0, shape_label(pipeline))),
            None => head,
        }
    }
}

/// The size of each gamma table there is.
pub open spec fn gamma_notes(crtcs: Seq<Option<CrtcPipeline>>) -> Seq<EntryView>
    decreases crtcs.len(),
{
    if crtcs.len() == 0 {
        Seq::empty()
    } else {
        let head = gamma_notes(crtcs.drop_last());
        match crtcs.last() {
            Some(pipeline) => if pipeline.has_gamma_lut {
                head.push(
                    one(
                        pipeline.gamma_lut_size as u64,
                        decimal(pipeline.gamma_lut_size as nat),
                    ),
                )
            } else {
                head
            },
            None => head,
        }
    }
}

/// The fields of a device's CRTCs.
pub open spec fn crtc_fields(crtcs: Seq<Option<CrtcPipeline>>) -> Seq<Seq<char>> {
    seq![
        field("total"@, decimal(crtcs.len())),
        field("color_pipelines"@, histogram(shape_notes(crtcs))),
        field("gamma_lut_sizes"@, histogram(gamma_notes(crtcs))),
    ]
}

fn push_truth(out: &mut String, value: bool)
    ensures
        final(out)@ == old(out)@ + truth(value),
{
    push_text(out, if value { "true" } else { "false" });
}

/// A colour pipeline's shape as a label.
fn write_shape(pipeline: &CrtcPipeline) -> (label: String)
    ensures
        label@ == shape_label(*pipeline),
{
    let mut out = String::new();
    push_text(&mut out, "degamma=");
    push_truth(&mut out, pipeline.has_degamma_lut);
    push_text(&mut out, " ctm=");
    push_truth(&mut out, pipeline.has_ctm);
    push_text(&mut out, " gamma=");
    push_truth(&mut out, pipeline.has_gamma_lut);
    assert(out@ =~= shape_label(*pipeline));
    out
}

/// A device's CRTCs by colour pipeline.
///
/// `None` for the list is resources that could not be read; `None` for one
/// CRTC is a CRTC that is counted and no more.
pub fn crtcs(listed: Option<&Vec<Option<CrtcPipeline>>>) -> (text: String)
    ensures
        match listed {
            Some(list) => text@ == object_of(crtc_fields(list@)),
            None => text@ == failure("resources unreadable"@),
        },
{
    let list: &Vec<Option<CrtcPipeline>> = match listed {
        Some(list) => list,
        None => {
            return report_failure("resources unreadable");
        },
    };
    let len: usize = list.len();
    let mut shapes = Tally::new();
    let mut sizes = Tally::new();
    let mut i: usize = 0;
    assert(shapes.notes@ =~= shape_notes(list@.take(0)));
    assert(sizes.notes@ =~= gamma_notes(list@.take(0)));
    while i < list.len()
        invariant
            0 <= i <= list@.len(),
            len == list@.len(),
            shapes.well_formed(),
            shapes.notes@ == shape_notes(list@.take(i as int)),
            noted_total(shapes.notes@) <= i,
            sizes.well_formed(),
            sizes.notes@ == gamma_notes(list@.take(i as int)),
            noted_total(sizes.notes@) <= i,
        decreases list@.len() - i,
    {
        assert(list@.take(i + 1).drop_last() =~= list@.take(i as int));
        if let Some(pipeline) = &list[i] {
            let label = write_shape(pipeline);
            shapes.note(0, label, 1, 1);
            if pipeline.has_gamma_lut {
                let mut size = String::new();
                push_decimal(&mut size, pipeline.gamma_lut_size as u64);
                assert(size@ =~= decimal(pipeline.gamma_lut_size as nat));
                sizes.note(pipeline.gamma_lut_size as u64, size, 1, 1);
            }
        }
        i += 1;
    }
    assert(list@.take(i as int) =~= list@);
    let mut out = Json::object();
    out.number("total", list.len());
    let shapes_text = write_histogram(&shapes);
    out.raw("color_pipelines", shapes_text.as_str());
    let sizes_text = write_histogram(&sizes);
    out.raw("gamma_lut_sizes", sizes_text.as_str());
    assert(out.entries@ =~= crtc_fields(list@));
    out.finish()
}

// --- connectors --------------------------------------------------------------

/// What a connector can carry, as a profile lists it.
#[derive(Debug, Clone, Copy, PartialEq, Eq, Structural)]
pub struct ConnectorProfile {
    /// How many of the known colorspaces it takes.
    pub colorspace_entries: usize,
    /// Whether it takes `HDR_OUTPUT_METADATA`.
    pub has_hdr_output_metadata: bool,
    /// Whether HDR can be signalled on it at all.
    pub can_signal_hdr: bool,
    /// Its bits-per-component range, where it states one.
    pub max_bpc: Option<MaxBpc>,
}

/// One connector of a device.
#[derive(Debug, PartialEq, Eq)]
pub struct ConnectorEntry {
    /// Its name, which is stable across boots where its id is not.
    pub name: String,
    /// Whether something is plugged in.
    pub connected: bool,
    /// How many modes it offers.
    pub modes: usize,
    /// What it can carry, where that could be read.
    pub capabilities: Option<ConnectorProfile>,
}

/// A bits-per-component range as a label.
pub open spec fn bpc_label(range: Option<MaxBpc>) -> Seq<char> {
    match range {
        Some(bpc) => range_label(bpc.min, bpc.max),
        None => "none"@,
    }
}

/// The fields every connector has.
pub open spec fn connector_head(entry: ConnectorEntry) -> Seq<Seq<char>> {
    seq![
        field("name"@, quoted(entry.name@)),
        field("connected"@, truth(entry.connected)),
        field("modes"@, decimal(entry.modes as nat)),
    ]
}

/// The fields of one connector.
pub open spec fn connector_fields(entry: ConnectorEntry) -> Seq<Seq<char>> {
    match entry.capabilities {
        Some(caps) => connector_head(entry).push(
            field("colorspace_entries"@, decimal(caps.colorspace_entries as nat)),
        ).push(field("hdr_output_metadata"@, truth(caps.has_hdr_output_metadata))).push(
            field("can_signal_hdr"@, truth(caps.can_signal_hdr)),
        ).push(field("max_bpc"@, quoted(bpc_label(caps.max_bpc)))),
        None => connector_head(entry),
    }
}

/// Every connector of a device, as values of an array.
pub open spec fn connector_values(entries: Seq<ConnectorEntry>) -> Seq<Seq<char>> {
    entries.map_values(|e: ConnectorEntry| object_of(connector_fields(e)))
}

/// One connector.
fn connector(entry: &ConnectorEntry) -> (text: String)
    ensures
        text@ == object_of(connector_fields(*entry)),
{
    let mut out = Json::object();
    out.string("name", entry.name.as_str());
    out.bool("connected", entry.connected);
    out.number("modes", entry.modes);
    assert(out.entries@ =~= connector_head(*entry));
    if let Some(caps) = &entry.capabilities {
        out.number("colorspace_entries", caps.colorspace_entries);
        out.bool("hdr_output_metadata", caps.has_hdr_output_metadata);
        out.bool("can_signal_hdr", caps.can_signal_hdr);
        match caps.max_bpc {
            Some(bpc) => {
                let range = write_range(bpc.min, bpc.max);
                out.string("max_bpc", range.as_str());
            },
            None => out.string("max_bpc", "none"),
        }
    }
    assert(out.entries@ =~= connector_fields(*entry));
    out.finish()
}

/// A device's connectors, in the order it lists them.
pub fn connectors(listed: Option<&Vec<ConnectorEntry>>) -> (text: String)
    ensures
        match listed {
            Some(list) => text@ == array_of(connector_values(list@)),
            None => text@ == failure("connectors unreadable"@),
        },
{
    let list: &Vec<ConnectorEntry> = match listed {
        Some(list) => list,
        None => {
            return report_failure("connectors unreadable");
        },
    };
    let mut out = Json::array();
    let ghost values = connector_values(list@);
    let mut i: usize = 0;
    assert(values.take(0) =~= Seq::empty());
    while i < list.len()
        invariant
            0 <= i <= list@.len(),
            values == connector_values(list@),
            !out.is_object,
            out.well_formed(),
            out.entries@ == values.take(i as int),
        decreases list@.len() - i,
    {
        let entry = connector(&list[i]);
        out.push(entry.as_str());
        assert(values.take(i + 1) =~= values.take(i as int).push(values[i as int]));
        i += 1;
    }
    assert(values.take(i as int) =~= values);
    out.finish()
}

// --- the whole profile -------------------------------------------------------

/// The fields that say what machine this is.
pub open spec fn host_fields(kernel: Seq<char>, arch: Seq<char>, model: Seq<char>) -> Seq<
    Seq<char>,
> {
    seq![
        field("kernel"@, quoted(trimmed(kernel))),
        field("arch"@, quoted(arch)),
        field("model"@, quoted(trimmed(shortened(trimmed(model), is_char('\0'))))),
    ]
}

/// Kernel release and machine, the two things that explain a capability
/// changing under you. The device tree ends its model with a NUL.
pub fn host(kernel: &str, arch: &str, model: &str) -> (text: String)
    ensures
        text@ == object_of(host_fields(kernel@, arch@, model@)),
{
    let mut out = Json::object();
    let release = trim(kernel);
    out.string("kernel", release.as_str());
    out.string("arch", arch);
    let read = trim(model);
    let ended = trim_end_of(read.as_str(), '\0');
    let shown = trim(ended.as_str());
    out.string("model", shown.as_str());
    assert(out.entries@ =~= host_fields(kernel@, arch@, model@));
    out.finish()
}

/// What was measured of one device, each part as JSON.
#[derive(Debug, PartialEq, Eq)]
pub struct Measured {
    /// The driver's name.
    pub driver: String,
    /// From [`plane_visibility`].
    pub plane_visibility: String,
    /// From [`min_framebuffer`].
    pub min_framebuffer: String,
    /// From [`planes`].
    pub planes: String,
    /// From [`crtcs`].
    pub crtcs: String,
    /// From [`connectors`].
    pub connectors: String,
}

/// The fields of one device.
pub open spec fn card_fields(path: Seq<char>, measured: Measured) -> Seq<Seq<char>> {
    seq![
        field("path"@, quoted(path)),
        field("driver"@, quoted(measured.driver@)),
        field("plane_visibility"@, measured.plane_visibility@),
        field("min_framebuffer"@, measured.min_framebuffer@),
        field("planes"@, measured.planes@),
        field("crtcs"@, measured.crtcs@),
        field("connectors"@, measured.connectors@),
    ]
}

/// The fields of a device that could not be measured.
pub open spec fn failed_fields(path: Seq<char>, error: Seq<char>) -> Seq<Seq<char>> {
    seq![field("path"@, quoted(path)), field("error"@, quoted(error))]
}

/// One device, or why it could not be measured.
pub fn probe(path: &str, measured: Result<&Measured, &str>) -> (text: String)
    ensures
        match measured {
            Ok(parts) => text@ == object_of(card_fields(path@, *parts)),
            Err(error) => text@ == object_of(failed_fields(path@, error@)),
        },
{
    let mut out = Json::object();
    out.string("path", path);
    match measured {
        Ok(parts) => {
            out.string("driver", parts.driver.as_str());
            out.raw("plane_visibility", parts.plane_visibility.as_str());
            out.raw("min_framebuffer", parts.min_framebuffer.as_str());
            out.raw("planes", parts.planes.as_str());
            out.raw("crtcs", parts.crtcs.as_str());
            out.raw("connectors", parts.connectors.as_str());
            assert(out.entries@ =~= card_fields(path@, *parts));
        },
        Err(error) => {
            out.string("error", error);
            assert(out.entries@ =~= failed_fields(path@, error@));
        },
    }
    out.finish()
}

/// The fields of a profile.
pub open spec fn profile_fields(host: Seq<char>, cards: Seq<Seq<char>>) -> Seq<Seq<char>> {
    seq![field("host"@, host), field("cards"@, array_of(cards))]
}

/// The whole profile, ready to be printed.
pub fn profile(host: &str, cards: &Vec<String>) -> (text: String)
    ensures
        text@ == indented(object_of(profile_fields(host@, texts(cards@)))),
{
    let mut nodes = Json::array();
    let ghost values = texts(cards@);
    let mut i: usize = 0;
    assert(values.take(0) =~= Seq::empty());
    while i < cards.len()
        invariant
            0 <= i <= cards@.len(),
            values == texts(cards@),
            !nodes.is_object,
            nodes.well_formed(),
            nodes.entries@ == values.take(i as int),
        decreases cards@.len() - i,
    {
        nodes.push(cards[i].as_str());
        assert(values.take(i + 1) =~= values.take(i as int).push(values[i as int]));
        i += 1;
    }
    assert(values.take(i as int) =~= values);
    let listed = nodes.finish();
    let mut out = Json::object();
    out.raw("host", host);
    out.raw("cards", listed.as_str());
    assert(out.entries@ =~= profile_fields(host@, values));
    let compact = out.finish();
    pretty(compact.as_str())
}

/// Whether a text starts with another.
pub open spec fn starts_with(text: Seq<char>, prefix: Seq<char>) -> bool {
    prefix.len() <= text.len() && text.take(prefix.len() as int) == prefix
}

/// The card nodes among the entries of a directory, as paths.
pub open spec fn card_paths(names: Seq<Seq<char>>) -> Seq<Seq<char>>
    decreases names.len(),
{
    if names.len() == 0 {
        Seq::empty()
    } else {
        let head = card_paths(names.drop_last());
        if starts_with(names.last(), "card"@) {
            head.push("/dev/dri/"@ + names.last())
        } else {
            head
        }
    }
}

fn has_prefix(text: &str, prefix: &str) -> (has: bool)
    ensures
        has == starts_with(text@, prefix@),
{
    let whole = chars_of(text);
    let wanted = chars_of(prefix);
    if whole.len() < wanted.len() {
        return false;
    }
    let mut i: usize = 0;
    while i < wanted.len()
        invariant
            whole@ == text@,
            wanted@ == prefix@,
            wanted@.len() <= whole@.len(),
            0 <= i <= wanted@.len(),
            forall|j: int| 0 <= j < i ==> #[trigger] whole@[j] == wanted@[j],
        decreases wanted@.len() - i,
    {
        if whole[i] != wanted[i] {
            assert(text@.take(prefix@.len() as int)[i as int] != prefix@[i as int]);
            return false;
        }
        i += 1;
    }
    assert(text@.take(prefix@.len() as int) =~= prefix@);
    true
}

/// Every card node of a device directory, in order, given its entries.
pub fn default_cards(names: &Vec<String>) -> (cards: Vec<String>)
    ensures
        texts(cards@) == ordered::<String>(card_paths(texts(names@))),
{
    let mut found: Vec<String> = Vec::new();
    let mut i: usize = 0;
    assert(texts(found@) =~= card_paths(texts(names@).take(0)));
    while i < names.len()
        invariant
            0 <= i <= names@.len(),
            texts(found@) == card_paths(texts(names@).take(i as int)),
        decreases names@.len() - i,
    {
        let ghost before = found@;
        assert(texts(names@).take(i + 1).drop_last() =~= texts(names@).take(i as int));
        if has_prefix(names[i].as_str(), "card") {
            let mut path = "/dev/dri/".to_owned();
            push_text(&mut path, names[i].as_str());
            found.push(path);
            assert(texts(found@) =~= texts(before).push(path@));
        }
        i += 1;
    }
    assert(texts(names@).take(i as int) =~= texts(names@));
    sort(found)
}

// --- laws --------------------------------------------------------------------

proof fn lemma_how_many_is_a_filter(planes: Seq<PlaneCapabilities>)
    ensures
        how_many(planes, Trait::Primary) == planes.filter(|p: PlaneCapabilities| p.plane_type == PlaneType::Primary).len(),
        how_many(planes, Trait::Cursor) == planes.filter(|p: PlaneCapabilities| p.plane_type == PlaneType::Cursor).len(),
        how_many(planes, Trait::Overlay) == planes.filter(|p: PlaneCapabilities| p.plane_type == PlaneType::Overlay).len(),
        how_many(planes, Trait::DamageClips) == planes.filter(|p: PlaneCapabilities| p.has_fb_damage_clips).len(),
        how_many(planes, Trait::BlendMode) == planes.filter(|p: PlaneCapabilities| p.has_pixel_blend_mode).len(),
        how_many(planes, Trait::Alpha) == planes.filter(|p: PlaneCapabilities| p.has_per_plane_alpha).len(),
        how_many(planes, Trait::ColorEncoding) == planes.filter(|p: PlaneCapabilities| p.has_color_encoding).len(),
        how_many(planes, Trait::InFormats) == planes.filter(|p: PlaneCapabilities| p.has_format_modifiers).len(),
        how_many(planes, Trait::Zpos) == planes.filter(|p: PlaneCapabilities| p.zpos_min is Some).len(),
        how_many(planes, Trait::Rotation) == planes.filter(|p: PlaneCapabilities| p.supports_rotation).len(),
    decreases planes.len(),
{
    reveal(Seq::filter);
    if planes.len() > 0 {
        lemma_how_many_is_a_filter(planes.drop_last());
    }
}

/// A device's planes are reported by how many are of each type and how many have
/// each property, under those names and in that order.
pub proof fn law_planes_are_reported_by_capability(planes: Seq<PlaneCapabilities>)
    ensures
        plane_fields(planes).len() == 13,
        plane_fields(planes)[0] == field("total"@, decimal(planes.len())),
        plane_fields(planes)[1] == field(
            "primary"@,
            decimal(planes.filter(|p: PlaneCapabilities| p.plane_type == PlaneType::Primary).len()),
        ),
        plane_fields(planes)[2] == field(
            "cursor"@,
            decimal(planes.filter(|p: PlaneCapabilities| p.plane_type == PlaneType::Cursor).len()),
        ),
        plane_fields(planes)[3] == field(
            "overlay"@,
            decimal(planes.filter(|p: PlaneCapabilities| p.plane_type == PlaneType::Overlay).len()),
        ),
        plane_fields(planes)[4] == field(
            "with_damage_clips"@,
            decimal(planes.filter(|p: PlaneCapabilities| p.has_fb_damage_clips).len()),
        ),
        plane_fields(planes)[5] == field(
            "with_blend_mode"@,
            decimal(planes.filter(|p: PlaneCapabilities| p.has_pixel_blend_mode).len()),
        ),
        plane_fields(planes)[6] == field(
            "with_alpha"@,
            decimal(planes.filter(|p: PlaneCapabilities| p.has_per_plane_alpha).len()),
        ),
        plane_fields(planes)[7] == field(
            "with_color_encoding"@,
            decimal(planes.filter(|p: PlaneCapabilities| p.has_color_encoding).len()),
        ),
        plane_fields(planes)[8] == field(
            "with_in_formats"@,
            decimal(planes.filter(|p: PlaneCapabilities| p.has_format_modifiers).len()),
        ),
        plane_fields(planes)[9] == field(
            "with_zpos"@,
            decimal(planes.filter(|p: PlaneCapabilities| p.zpos_min is Some).len()),
        ),
        plane_fields(planes)[10] == field(
            "with_rotation"@,
            decimal(planes.filter(|p: PlaneCapabilities| p.supports_rotation).len()),
        ),
        plane_fields(planes)[11] == field("rotation_masks"@, histogram(mask_notes(planes))),
        plane_fields(planes)[12] == field("zpos_ranges"@, histogram(zpos_notes(planes))),
{
    lemma_how_many_is_a_filter(planes);
}

/// Each plane is noted once under its rotation mask in hexadecimal, ranked by it,
/// and once under its stacking range, which is none unless both ends are stated.
pub proof fn law_planes_are_noted_by_mask_and_range(planes: Seq<PlaneCapabilities>, i: int)
    requires
        0 <= i < planes.len(),
    ensures
        mask_notes(planes).len() == planes.len(),
        mask_notes(planes)[i] == (EntryView {
            rank: planes[i].rotation_bits,
            label: "0x"@ + hexadecimal(planes[i].rotation_bits as nat),
            count: 1,
            total: 1,
        }),
        zpos_notes(planes).len() == planes.len(),
        zpos_notes(planes)[i].rank == 0 && zpos_notes(planes)[i].count == 1,
        planes[i].zpos_min is Some && planes[i].zpos_max is Some ==> zpos_notes(planes)[i].label
            == "["@ + decimal(planes[i].zpos_min->0 as nat) + ","@ + decimal(
            planes[i].zpos_max->0 as nat,
        ) + "]"@,
        planes[i].zpos_min is None || planes[i].zpos_max is None ==> zpos_notes(planes)[i].label
            == "none"@,
{
}

/// A histogram has one field for each label, with its count.
pub proof fn law_a_histogram_has_a_field_for_each_label(notes: Seq<EntryView>, k: int)
    requires
        0 <= k < tallied(notes).len(),
    ensures
        histogram(notes) == object_of(histogram_fields(tallied(notes))),
        histogram_fields(tallied(notes)).len() == tallied(notes).len(),
        histogram_fields(tallied(notes))[k] == field(
            tallied(notes)[k].label,
            decimal(tallied(notes)[k].count),
        ),
{
}

/// The CRTCs that could be read are noted by the shape of their colour pipeline,
/// and those with a gamma table by its size.
pub proof fn law_crtcs_are_noted_by_pipeline(crtcs: Seq<Option<CrtcPipeline>>, next: Option<CrtcPipeline>)
    ensures
        shape_notes(Seq::empty()).len() == 0,
        gamma_notes(Seq::empty()).len() == 0,
        next is None ==> shape_notes(crtcs.push(next)) == shape_notes(crtcs) && gamma_notes(
            crtcs.push(next),
        ) == gamma_notes(crtcs),
        next matches Some(pipeline) ==> {
            &&& shape_notes(crtcs.push(next)) == shape_notes(crtcs).push(
                EntryView {
                    rank: 0,
                    label: "degamma="@ + (if pipeline.has_degamma_lut {
                        "true"@
                    } else {
                        "false"@
                    }) + " ctm="@ + (if pipeline.has_ctm {
                        "true"@
                    } else {
                        "false"@
                    }) + " gamma="@ + (if pipeline.has_gamma_lut {
                        "true"@
                    } else {
                        "false"@
                    }),
                    count: 1,
                    total: 1,
                },
            )
            &&& pipeline.has_gamma_lut ==> gamma_notes(crtcs.push(next)) == gamma_notes(crtcs).push(
                EntryView {
                    rank: pipeline.gamma_lut_size as u64,
                    label: decimal(pipeline.gamma_lut_size as nat),
                    count: 1,
                    total: 1,
                },
            )
            &&& !pipeline.has_gamma_lut ==> gamma_notes(crtcs.push(next)) == gamma_notes(crtcs)
        },
        crtc_fields(crtcs) == seq![
            field("total"@, decimal(crtcs.len())),
            field("color_pipelines"@, histogram(shape_notes(crtcs))),
            field("gamma_lut_sizes"@, histogram(gamma_notes(crtcs))),
        ],
{
    assert(crtcs.push(next).drop_last() =~= crtcs);
}

/// A connector is reported with its name, whether it is connected, how many modes
/// it has, and, where they could be read, what it can signal and its bit range.
pub proof fn law_connectors_are_reported_as_they_are(entry: ConnectorEntry)
    ensures
        connector_fields(entry)[0] == field("name"@, quoted(entry.name@)),
        connector_fields(entry)[1] == field(
            "connected"@,
            if entry.connected {
                "true"@
            } else {
                "false"@
            },
        ),
        connector_fields(entry)[2] == field("modes"@, decimal(entry.modes as nat)),
        entry.capabilities is None ==> connector_fields(entry).len() == 3,
        entry.capabilities matches Some(caps) ==> {
            &&& connector_fields(entry).len() == 7
            &&& connector_fields(entry)[3] == field(
                "colorspace_entries"@,
                decimal(caps.colorspace_entries as nat),
            )
            &&& connector_fields(entry)[4] == field(
                "hdr_output_metadata"@,
                if caps.has_hdr_output_metadata {
                    "true"@
                } else {
                    "false"@
                },
            )
            &&& connector_fields(entry)[5] == field(
                "can_signal_hdr"@,
                if caps.can_signal_hdr {
                    "true"@
                } else {
                    "false"@
                },
            )
            &&& connector_fields(entry)[6] == field(
                "max_bpc"@,
                quoted(
                    match caps.max_bpc {
                        Some(bpc) => "["@ + decimal(bpc.min as nat) + ","@ + decimal(bpc.max as nat)
                            + "]"@,
                        None => "none"@,
                    },
                ),
            )
        },
{
}

/// Every connector stands in the list, in order.
pub proof fn law_every_connector_is_listed(entries: Seq<ConnectorEntry>, i: int)
    requires
        0 <= i < entries.len(),
    ensures
        connector_values(entries).len() == entries.len(),
        connector_values(entries)[i] == object_of(connector_fields(entries[i])),
{
}

/// A profile names its parts: the visible planes under each client capability, the
/// smallest framebuffer, the host, each card with its measurements or its error.
pub proof fn law_a_profile_names_its_parts(
    counts: (nat, nat, nat, nat),
    path: Seq<char>,
    measured: Measured,
    error: Seq<char>,
    kernel: Seq<char>,
    arch: Seq<char>,
    model: Seq<char>,
    cards: Seq<Seq<char>>,
)
    ensures
        visibility_fields(counts.0, counts.1, counts.2, counts.3) == seq![
            field("neither_cap"@, decimal(counts.0)),
            field("atomic_only"@, decimal(counts.1)),
            field("universal_only"@, decimal(counts.2)),
            field("both"@, decimal(counts.3)),
        ],
        size_fields(counts.0, counts.1) == seq![
            field("min_width"@, decimal(counts.0)),
            field("min_height"@, decimal(counts.1)),
        ],
        failure(error) == object_of(seq![field("error"@, quoted(error))]),
        card_fields(path, measured) == seq![
            field("path"@, quoted(path)),
            field("driver"@, quoted(measured.driver@)),
            field("plane_visibility"@, measured.plane_visibility@),
            field("min_framebuffer"@, measured.min_framebuffer@),
            field("planes"@, measured.planes@),
            field("crtcs"@, measured.crtcs@),
            field("connectors"@, measured.connectors@),
        ],
        failed_fields(path, error) == seq![
            field("path"@, quoted(path)),
            field("error"@, quoted(error)),
        ],
        host_fields(kernel, arch, model)[0] == field("kernel"@, quoted(trimmed(kernel))),
        host_fields(kernel, arch, model)[1] == field("arch"@, quoted(arch)),
        host_fields(kernel, arch, model)[2] == field(
            "model"@,
            quoted(trimmed(shortened(trimmed(model), |c: char| c == '\0'))),
        ),
        host_fields(kernel, arch, model).len() == 3,
        profile_fields(arch, cards) == seq![field("host"@, arch), field("cards"@, array_of(cards))],
{
    assert(is_char('\0') =~= |c: char| c == '\0');
}

/// The cards of a device directory are the entries that begin with `card`, under
/// their full paths; each of them once.
pub proof fn law_cards_are_the_entries_that_begin_so(names: Seq<Seq<char>>, next: Seq<char>)
    ensures
        card_paths(Seq::empty()).len() == 0,
        next.len() >= 4 && next.take(4) == seq!['c', 'a', 'r', 'd'] ==> card_paths(names.push(next))
            == card_paths(names).push("/dev/dri/"@ + next),
        next.len() < 4 || next.take(4) != seq!['c', 'a', 'r', 'd'] ==> card_paths(names.push(next))
            == card_paths(names),
{
    reveal_strlit("card");
    assert("card"@ =~= seq!['c', 'a', 'r', 'd']);
    assert(names.push(next).drop_last() =~= names);
}

/// Sizes are tried one by one from the smallest up to sixty-four, and the first
/// accepted is the answer.
pub proof fn law_sizes_are_tried_one_by_one(tried: u32, accepted: bool, step: SizeStep)
    requires
        call_ensures(size_step, (tried, accepted), step),
    ensures
        accepted ==> step == SizeStep::Smallest(tried),
        !accepted && tried < 64 ==> step == SizeStep::Try((tried + 1) as u32),
        !accepted && tried >= 64 ==> step == SizeStep::Nothing,
{
}

/// A text starts with another where that much of it is the other.
pub proof fn law_a_start_is_a_start(prefix: Seq<char>, rest: Seq<char>, text: Seq<char>, i: int)
    ensures
        starts_with(prefix + rest, prefix),
        text.len() < prefix.len() ==> !starts_with(text, prefix),
        0 <= i < prefix.len() <= text.len() && text[i] != prefix[i] ==> !starts_with(text, prefix),
{
    assert((prefix + rest).take(prefix.len() as int) =~= prefix);
    if 0 <= i < prefix.len() <= text.len() && text[i] != prefix[i] {
        assert(text.take(prefix.len() as int)[i] == text[i]);
    }
}

} // verus!
