//! Distributions over a corpus of devices, which are not pass or fail.

use vstd::prelude::*;
use crate::dump::{has_name, Device, Plane};
use crate::fourcc::ARGB8888;
use crate::order::{
    count_under, law_sorting_sorts, lemma_count_under_push, lemma_total_under_push, noted_total,
    ordered, sort, tallied, total_under, views, Entry, EntryView, Ranked, Tally,
};
use crate::planes::PlaneType;
use crate::text::{
    decimal, join, joined, law_texts_are_totally_ordered, push_decimal, push_text, sorts_before,
    text_before, texts,
};

verus! {

/// A label and how many it stands for.
#[derive(Debug, PartialEq, Eq)]
pub struct Row {
    /// The label.
    pub label: String,
    /// How many.
    pub count: usize,
}

/// What a row holds.
pub struct RowView {
    /// The label.
    pub label: Seq<char>,
    /// How many.
    pub count: nat,
}

impl View for Row {
    type V = RowView;

    open spec fn view(&self) -> RowView {
        RowView { label: self.label@, count: self.count as nat }
    }
}

impl Ranked for Row {
    /// The larger count comes first, and among equals the earlier label.
    open spec fn precedes(a: RowView, b: RowView) -> bool {
        a.count > b.count || (a.count == b.count && text_before(a.label, b.label))
    }

    proof fn order_is_strict(a: RowView, b: RowView, c: RowView) {
        law_texts_are_totally_ordered(a.label, b.label, c.label);
        law_texts_are_totally_ordered(b.label, c.label, a.label);
        law_texts_are_totally_ordered(c.label, a.label, b.label);
        law_texts_are_totally_ordered(c.label, b.label, a.label);
        law_texts_are_totally_ordered(b.label, a.label, c.label);
    }

    fn is_before(&self, other: &Self) -> (before: bool) {
        self.count > other.count || (self.count == other.count && sorts_before(
            self.label.as_str(),
            other.label.as_str(),
        ))
    }
}

/// A distribution worth knowing, which is not pass or fail.
#[derive(Debug, PartialEq, Eq)]
pub struct Survey {
    /// What is counted.
    pub title: String,
    /// Why the shape matters, in the terms of the thing that depends on it.
    pub note: &'static str,
    /// The counts, already ordered by whatever the survey ranks on.
    pub rows: Vec<Row>,
}

/// Which cursor path a CRTC would get.
#[derive(Debug, Clone, Copy, PartialEq, Eq, Structural)]
pub enum CursorPath {
    /// A dedicated cursor plane.
    AtomicCursor,
    /// An overlay, in an atomic commit.
    AtomicOverlay,
    /// The legacy call.
    Legacy,
    /// None at all.
    Unavailable,
}

/// Whether a survey is what was asked for.
pub open spec fn surveyed(
    survey: Survey,
    title: Seq<char>,
    note: Seq<char>,
    rows: Seq<RowView>,
) -> bool {
    &&& survey.title@ == title
    &&& survey.note@ == note
    &&& views(survey.rows@) == rows
}

/// Count a run of notes.
pub(crate) fn tally_notes(notes: Vec<Entry>) -> (tally: Tally)
    requires
        forall|i: int|
            0 <= i < notes@.len() ==> (#[trigger] notes@[i]).count <= notes@[i].total
                && notes@[i].total <= 1,
    ensures
        tally.well_formed(),
        tally.notes@ == views(notes@),
{
    let ghost all = notes@;
    let mut rest = notes;
    let len: usize = rest.len();
    let mut tally = Tally::new();
    let ghost done: int = 0;
    assert(views(all).take(0) =~= tally.notes@);
    while rest.len() > 0
        invariant
            0 <= done <= all.len(),
            len == all.len(),
            rest@ == all.skip(done),
            forall|i: int|
                0 <= i < all.len() ==> (#[trigger] all[i]).count <= all[i].total && all[i].total
                    <= 1,
            tally.well_formed(),
            tally.notes@ == views(all).take(done),
            noted_total(tally.notes@) <= done,
        decreases rest@.len(),
    {
        let note = rest.remove(0);
        assert(note == all[done]);
        assert(rest@ =~= all.skip(done + 1));
        tally.note(note.rank, note.label, note.count, note.total);
        proof {
            assert(views(all).take(done + 1) =~= views(all).take(done).push(views(all)[done]));
            done = done + 1;
        }
    }
    assert(views(all).take(done) =~= views(all));
    tally
}

/// An entry as a row.
pub open spec fn row_of(entry: EntryView) -> RowView {
    RowView { label: entry.label, count: entry.count }
}

/// The rows of a run of notes, in label order.
pub open spec fn listed_rows(notes: Seq<EntryView>) -> Seq<RowView> {
    tallied(notes).map_values(|e: EntryView| row_of(e))
}

/// The rows of a run of notes, largest count first.
pub open spec fn ranked_rows(notes: Seq<EntryView>) -> Seq<RowView> {
    ordered::<Row>(listed_rows(notes))
}

/// The rows of a tally, in label order.
fn list_rows(tally: Tally) -> (rows: Vec<Row>)
    requires
        tally.well_formed(),
    ensures
        views(rows@) == listed_rows(tally.notes@),
{
    let mut rows: Vec<Row> = Vec::new();
    let ghost all = listed_rows(tally.notes@);
    let ghost entries = tallied(tally.notes@);
    let mut i: usize = 0;
    assert(views(rows@) =~= all.take(0));
    while i < tally.entries.len()
        invariant
            0 <= i <= tally.entries@.len(),
            views(tally.entries@) == entries,
            entries.len() == tally.entries@.len(),
            all == entries.map_values(|e: EntryView| row_of(e)),
            views(rows@) == all.take(i as int),
        decreases tally.entries@.len() - i,
    {
        let ghost before = rows@;
        assert(entries[i as int] == tally.entries@[i as int]@);
        let row = Row { label: tally.entries[i].label.clone(), count: tally.entries[i].count };
        rows.push(row);
        assert(views(rows@) =~= views(before).push(row@));
        assert(all.take(i + 1) =~= all.take(i as int).push(all[i as int]));
        i += 1;
    }
    assert(all.take(i as int) =~= all);
    rows
}

/// A distribution over every plane.
#[derive(Debug, Clone, Copy, PartialEq, Eq, Structural)]
pub enum PlaneSurvey {
    /// Which rotations a rotatable plane advertises.
    Rotation,
    /// What its stacking range looks like.
    Zpos,
    /// Which driver left a degenerate stacking range mutable.
    DegenerateZpos,
}

/// What a plane's stacking range looks like.
pub open spec fn zpos_shape(plane: Plane) -> Seq<char> {
    match (plane.caps.zpos_min, plane.caps.zpos_max) {
        (Some(min), Some(max)) => if min == max && plane.zpos_immutable {
            "degenerate and immutable"@
        } else if min == max {
            "degenerate at "@ + decimal(min as nat) + ", NOT immutable"@
        } else {
            "settable ["@ + decimal(min as nat) + ","@ + decimal(max as nat) + "]"@
        },
        _ => if texts(plane.properties@).contains("zpos"@) {
            "zpos present, no stated range"@
        } else {
            "no zpos property"@
        },
    }
}

/// Whether a plane states a degenerate stacking range without flagging it.
pub open spec fn degenerate_but_mutable(plane: Plane) -> bool {
    match (plane.caps.zpos_min, plane.caps.zpos_max) {
        (Some(min), Some(max)) => min == max && !plane.zpos_immutable,
        _ => false,
    }
}

/// The label a plane counts under, where the survey counts it.
pub open spec fn survey_label(survey: PlaneSurvey, device: Device, plane: Plane) -> Option<
    Seq<char>,
> {
    match survey {
        PlaneSurvey::Rotation => if plane.rotation_names@.len() == 0 {
            None
        } else {
            Some(joined(ordered::<String>(texts(plane.rotation_names@)), ","@))
        },
        PlaneSurvey::Zpos => Some(zpos_shape(plane)),
        PlaneSurvey::DegenerateZpos => if degenerate_but_mutable(plane) {
            Some(device.driver@)
        } else {
            None
        },
    }
}

/// One note under a label.
pub open spec fn one(label: Seq<char>) -> EntryView {
    EntryView { rank: 0, label, count: 1, total: 1 }
}

/// What the first `upto` planes of a device add to a survey.
pub open spec fn device_notes(survey: PlaneSurvey, device: Device, upto: int) -> Seq<EntryView>
    decreases upto,
{
    if upto <= 0 {
        Seq::empty()
    } else {
        let head = device_notes(survey, device, upto - 1);
        match survey_label(survey, device, device.planes@[upto - 1]) {
            Some(label) => head.push(one(label)),
            None => head,
        }
    }
}

/// What a corpus adds to a survey.
pub open spec fn survey_notes(survey: PlaneSurvey, devices: Seq<Device>) -> Seq<EntryView>
    decreases devices.len(),
{
    if devices.len() == 0 {
        Seq::empty()
    } else {
        survey_notes(survey, devices.drop_last()) + device_notes(
            survey,
            devices.last(),
            devices.last().planes@.len() as int,
        )
    }
}

/// What a plane's stacking range looks like.
fn write_zpos_shape(plane: &Plane) -> (shape: String)
    ensures
        shape@ == zpos_shape(*plane),
{
    match (plane.caps.zpos_min, plane.caps.zpos_max) {
        (Some(min), Some(max)) => {
            if min == max && plane.zpos_immutable {
                "degenerate and immutable".to_owned()
            } else if min == max {
                let mut out: String = "degenerate at ".to_owned();
                push_decimal(&mut out, min);
                push_text(&mut out, ", NOT immutable");
                out
            } else {
                let mut out: String = "settable [".to_owned();
                push_decimal(&mut out, min);
                push_text(&mut out, ",");
                push_decimal(&mut out, max);
                push_text(&mut out, "]");
                out
            }
        },
        _ => {
            if has_name(&plane.properties, "zpos") {
                "zpos present, no stated range".to_owned()
            } else {
                "no zpos property".to_owned()
            }
        },
    }
}

/// Copies of strings.
fn copied(names: &Vec<String>) -> (copies: Vec<String>)
    ensures
        texts(copies@) == texts(names@),
{
    let mut copies: Vec<String> = Vec::new();
    let mut i: usize = 0;
    let ghost all = texts(names@);
    assert(texts(copies@) =~= all.take(0));
    while i < names.len()
        invariant
            0 <= i <= names@.len(),
            all == texts(names@),
            texts(copies@) == all.take(i as int),
        decreases names@.len() - i,
    {
        let ghost before = copies@;
        let name: String = names[i].clone();
        copies.push(name);
        assert(texts(copies@) =~= texts(before).push(name@));
        assert(all.take(i + 1) =~= all.take(i as int).push(all[i as int]));
        i += 1;
    }
    assert(all.take(i as int) =~= all);
    copies
}

/// The label a plane counts under, where the survey counts it.
fn label_plane(survey: PlaneSurvey, device: &Device, plane: &Plane) -> (label: Option<String>)
    ensures
        match (label, survey_label(survey, *device, *plane)) {
            (Some(text), Some(meant)) => text@ == meant,
            (None, None) => true,
            _ => false,
        },
{
    match survey {
        PlaneSurvey::Rotation => {
            if plane.rotation_names.len() == 0 {
                None
            } else {
                let names = sort(copied(&plane.rotation_names));
                Some(join(&names, ","))
            }
        },
        PlaneSurvey::Zpos => Some(write_zpos_shape(plane)),
        PlaneSurvey::DegenerateZpos => {
            match (plane.caps.zpos_min, plane.caps.zpos_max) {
                (Some(min), Some(max)) => {
                    if min == max && !plane.zpos_immutable {
                        Some(device.driver.clone())
                    } else {
                        None
                    }
                },
                _ => None,
            }
        },
    }
}

/// Count every plane of a corpus under its label.
fn survey_planes(survey: PlaneSurvey, devices: &Vec<Device>) -> (rows: Vec<Row>)
    ensures
        views(rows@) == ranked_rows(survey_notes(survey, devices@)),
{
    let mut notes: Vec<Entry> = Vec::new();
    let mut i: usize = 0;
    assert(devices@.take(0) =~= Seq::empty());
    assert(views(notes@) =~= Seq::empty());
    while i < devices.len()
        invariant
            0 <= i <= devices@.len(),
            views(notes@) == survey_notes(survey, devices@.take(i as int)),
            forall|k: int|
                0 <= k < notes@.len() ==> (#[trigger] notes@[k]).count <= notes@[k].total
                    && notes@[k].total <= 1,
        decreases devices@.len() - i,
    {
        let device = &devices[i];
        let ghost before = views(notes@);
        assert(devices@.take(i + 1).drop_last() =~= devices@.take(i as int));
        let mut j: usize = 0;
        assert(before + device_notes(survey, *device, 0) =~= before);
        while j < device.planes.len()
            invariant
                0 <= j <= device.planes@.len(),
                views(notes@) == before + device_notes(survey, *device, j as int),
                forall|k: int|
                    0 <= k < notes@.len() ==> (#[trigger] notes@[k]).count <= notes@[k].total
                        && notes@[k].total <= 1,
            decreases device.planes@.len() - j,
        {
            let ghost was = notes@;
            if let Some(label) = label_plane(survey, device, &device.planes[j]) {
                let note = Entry { rank: 0, label, count: 1, total: 1 };
                notes.push(note);
                assert(views(notes@) =~= views(was).push(note@));
            }
            assert(views(notes@) =~= before + device_notes(survey, *device, j + 1));
            j += 1;
        }
        i += 1;
    }
    assert(devices@.take(i as int) =~= devices@);
    sort(list_rows(tally_notes(notes)))
}

/// Which rotations planes advertise.
pub fn rotation_shapes(devices: &Vec<Device>) -> (survey: Survey)
    ensures
        surveyed(
            survey,
            "rotation shapes in the wild"@,
            "the allocator gates on bits, not on the property's presence, because a rotatable plane that cannot do 90/270 is common"@,
            ranked_rows(survey_notes(PlaneSurvey::Rotation, devices@)),
        ),
{
    Survey {
        title: "rotation shapes in the wild".to_owned(),
        note:
            "the allocator gates on bits, not on the property's presence, because a rotatable plane that cannot do 90/270 is common",
        rows: survey_planes(PlaneSurvey::Rotation, devices),
    }
}

/// What stacking ranges planes state.
pub fn zpos_shapes(devices: &Vec<Device>) -> (survey: Survey)
    ensures
        surveyed(
            survey,
            "zpos shapes"@,
            "a degenerate range that is NOT immutable is the P-6 case; clamp_zpos is what keeps it from refusing the frame"@,
            ranked_rows(survey_notes(PlaneSurvey::Zpos, devices@)),
        ),
{
    Survey {
        title: "zpos shapes".to_owned(),
        note:
            "a degenerate range that is NOT immutable is the P-6 case; clamp_zpos is what keeps it from refusing the frame",
        rows: survey_planes(PlaneSurvey::Zpos, devices),
    }
}

/// Planes whose stacking range is degenerate but not flagged immutable.
///
/// Reported rather than asserted: a position is clamped into the plane's own
/// range before it is written, so such a plane gets the one value it takes.
/// What is worth knowing is that the count is not zero.
pub fn degenerate_mutable_zpos(devices: &Vec<Device>) -> (survey: Survey)
    ensures
        surveyed(
            survey,
            "degenerate but mutable zpos, by driver (the P-6 shape)"@,
            "clamp_zpos turns these into a write of the only legal value; without it the frame is refused whole"@,
            ranked_rows(survey_notes(PlaneSurvey::DegenerateZpos, devices@)),
        ),
{
    Survey {
        title: "degenerate but mutable zpos, by driver (the P-6 shape)".to_owned(),
        note:
            "clamp_zpos turns these into a write of the only legal value; without it the frame is refused whole",
        rows: survey_planes(PlaneSurvey::DegenerateZpos, devices),
    }
}

/// What a device and its first `upto` planes add to the count of planes that
/// take damage clips: the driver is listed even without a plane.
pub open spec fn device_damage_notes(device: Device, upto: int) -> Seq<EntryView>
    decreases upto,
{
    if upto <= 0 {
        seq![EntryView { rank: 0, label: device.driver@, count: 0, total: 0 }]
    } else {
        device_damage_notes(device, upto - 1).push(
            EntryView {
                rank: 0,
                label: device.driver@,
                count: if device.planes@[upto - 1].caps.has_fb_damage_clips {
                    1
                } else {
                    0
                },
                total: 1,
            },
        )
    }
}

/// What a corpus adds to the count of planes that take damage clips.
pub open spec fn damage_notes(devices: Seq<Device>) -> Seq<EntryView>
    decreases devices.len(),
{
    if devices.len() == 0 {
        Seq::empty()
    } else {
        damage_notes(devices.drop_last()) + device_damage_notes(
            devices.last(),
            devices.last().planes@.len() as int,
        )
    }
}

/// A driver's planes that take damage clips, as a row.
pub open spec fn damage_row(entry: EntryView) -> RowView {
    RowView {
        label: entry.label + ": "@ + decimal(entry.count) + " of "@ + decimal(entry.total)
            + " planes"@,
        count: entry.count,
    }
}

/// The rows of planes that take damage clips, largest count first.
pub open spec fn damage_rows(notes: Seq<EntryView>) -> Seq<RowView> {
    ordered::<Row>(tallied(notes).map_values(|e: EntryView| damage_row(e)))
}

/// The rows of planes that take damage clips, in driver order.
fn list_damage_rows(tally: Tally) -> (rows: Vec<Row>)
    requires
        tally.well_formed(),
    ensures
        views(rows@) == tallied(tally.notes@).map_values(|e: EntryView| damage_row(e)),
{
    let mut rows: Vec<Row> = Vec::new();
    let ghost entries = tallied(tally.notes@);
    let ghost all = entries.map_values(|e: EntryView| damage_row(e));
    let mut i: usize = 0;
    assert(views(rows@) =~= all.take(0));
    while i < tally.entries.len()
        invariant
            0 <= i <= tally.entries@.len(),
            views(tally.entries@) == entries,
            entries.len() == tally.entries@.len(),
            all == entries.map_values(|e: EntryView| damage_row(e)),
            views(rows@) == all.take(i as int),
        decreases tally.entries@.len() - i,
    {
        let ghost before = rows@;
        let entry = &tally.entries[i];
        assert(entries[i as int] == entry@);
        let mut label: String = entry.label.clone();
        push_text(&mut label, ": ");
        push_decimal(&mut label, entry.count as u64);
        push_text(&mut label, " of ");
        push_decimal(&mut label, entry.total as u64);
        push_text(&mut label, " planes");
        let row = Row { label, count: entry.count };
        rows.push(row);
        assert(row@ == all[i as int]);
        assert(views(rows@) =~= views(before).push(row@));
        assert(all.take(i + 1) =~= all.take(i as int).push(all[i as int]));
        i += 1;
    }
    assert(all.take(i as int) =~= all);
    rows
}

/// Which drivers' planes take damage clips.
pub fn damage_clips_by_driver(devices: &Vec<Device>) -> (survey: Survey)
    ensures
        surveyed(
            survey,
            "FB_DAMAGE_CLIPS by driver"@,
            "a comment in the reference names vc4 as capable; the driver never attaches the property -- this is issue #255"@,
            damage_rows(damage_notes(devices@)),
        ),
{
    let mut notes: Vec<Entry> = Vec::new();
    let mut i: usize = 0;
    assert(devices@.take(0) =~= Seq::empty());
    assert(views(notes@) =~= Seq::empty());
    while i < devices.len()
        invariant
            0 <= i <= devices@.len(),
            views(notes@) == damage_notes(devices@.take(i as int)),
            forall|k: int|
                0 <= k < notes@.len() ==> (#[trigger] notes@[k]).count <= notes@[k].total
                    && notes@[k].total <= 1,
        decreases devices@.len() - i,
    {
        let device = &devices[i];
        let ghost before = views(notes@);
        let ghost start = notes@;
        assert(devices@.take(i + 1).drop_last() =~= devices@.take(i as int));
        let mut j: usize = 0;
        let listed = Entry { rank: 0, label: device.driver.clone(), count: 0, total: 0 };
        notes.push(listed);
        assert(views(notes@) =~= views(start).push(listed@));
        assert(views(notes@) =~= before + device_damage_notes(*device, 0));
        while j < device.planes.len()
            invariant
                0 <= j <= device.planes@.len(),
                views(notes@) == before + device_damage_notes(*device, j as int),
                forall|k: int|
                    0 <= k < notes@.len() ==> (#[trigger] notes@[k]).count <= notes@[k].total
                        && notes@[k].total <= 1,
            decreases device.planes@.len() - j,
        {
            let ghost was = notes@;
            let count: usize = if device.planes[j].caps.has_fb_damage_clips {
                1
            } else {
                0
            };
            let note = Entry { rank: 0, label: device.driver.clone(), count, total: 1 };
            notes.push(note);
            assert(views(notes@) =~= views(was).push(note@));
            assert(views(notes@) =~= before + device_damage_notes(*device, j + 1));
            j += 1;
        }
        i += 1;
    }
    assert(devices@.take(i as int) =~= devices@);
    Survey {
        title: "FB_DAMAGE_CLIPS by driver".to_owned(),
        note:
            "a comment in the reference names vc4 as capable; the driver never attaches the property -- this is issue #255",
        rows: sort(list_damage_rows(tally_notes(notes))),
    }
}

// --- cursors -----------------------------------------------------------------

/// How a path is named.
pub open spec fn path_label(path: CursorPath) -> Seq<char> {
    match path {
        CursorPath::AtomicCursor => "a dedicated cursor plane"@,
        CursorPath::AtomicOverlay => "an overlay, atomically"@,
        CursorPath::Legacy => "drmModeSetCursor, the legacy path"@,
        CursorPath::Unavailable => "nothing can carry a cursor"@,
    }
}

fn write_path_label(path: CursorPath) -> (label: String)
    ensures
        label@ == path_label(path),
{
    match path {
        CursorPath::AtomicCursor => "a dedicated cursor plane".to_owned(),
        CursorPath::AtomicOverlay => "an overlay, atomically".to_owned(),
        CursorPath::Legacy => "drmModeSetCursor, the legacy path".to_owned(),
        CursorPath::Unavailable => "nothing can carry a cursor".to_owned(),
    }
}

/// What stands in the way of a dedicated cursor plane.
#[derive(Debug, Clone, Copy, PartialEq, Eq, Structural)]
pub enum CursorState {
    /// No cursor plane can feed the CRTC.
    NoPlane,
    /// A cursor plane can, and none of them takes `ARGB8888`.
    NoFormat,
    /// Nothing.
    Ready,
}

/// Whether a plane is a cursor plane that can feed a CRTC.
pub open spec fn is_cursor_for(plane: Plane, crtc: u32) -> bool {
    plane.caps.plane_type == PlaneType::Cursor && plane.caps.feeds(crtc)
}

/// What stands in the way of a dedicated cursor plane on a CRTC.
pub open spec fn cursor_state(device: Device, crtc: u32) -> CursorState {
    if !exists|i: int|
        0 <= i < device.planes@.len() && is_cursor_for(#[trigger] device.planes@[i], crtc) {
        CursorState::NoPlane
    } else if !exists|i: int|
        0 <= i < device.planes@.len() && is_cursor_for(#[trigger] device.planes@[i], crtc)
            && device.planes@[i].caps.formats@.contains(ARGB8888) {
        CursorState::NoFormat
    } else {
        CursorState::Ready
    }
}

fn find_cursor_state(device: &Device, crtc: u32) -> (state: CursorState)
    ensures
        state == cursor_state(*device, crtc),
{
    let mut any = false;
    let mut i: usize = 0;
    while i < device.planes.len()
        invariant
            0 <= i <= device.planes@.len(),
            any == exists|j: int| 0 <= j < i && is_cursor_for(#[trigger] device.planes@[j], crtc),
            forall|j: int|
                0 <= j < i && is_cursor_for(#[trigger] device.planes@[j], crtc)
                    ==> !device.planes@[j].caps.formats@.contains(ARGB8888),
        decreases device.planes@.len() - i,
    {
        let plane = &device.planes[i];
        if plane.caps.plane_type == PlaneType::Cursor && plane.caps.compatible_with_crtc(crtc) {
            assert(is_cursor_for(device.planes@[i as int], crtc));
            any = true;
            if plane.caps.supports_format(ARGB8888) {
                return CursorState::Ready;
            }
        }
        i += 1;
    }
    if any {
        CursorState::NoFormat
    } else {
        CursorState::NoPlane
    }
}

/// What stands in the way on each CRTC of a device, in order. The question
/// cannot be asked of a dump that is not atomic.
pub open spec fn device_states(device: Device) -> Seq<CursorState> {
    if device.atomic {
        Seq::new(device.crtc_bound(), |crtc: int| cursor_state(device, crtc as u32))
    } else {
        Seq::empty()
    }
}

/// What stands in the way on each CRTC of a corpus.
pub open spec fn corpus_states(devices: Seq<Device>) -> Seq<CursorState>
    decreases devices.len(),
{
    if devices.len() == 0 {
        Seq::empty()
    } else {
        corpus_states(devices.drop_last()) + device_states(devices.last())
    }
}

/// The path of each CRTC of a corpus.
pub open spec fn corpus_paths(devices: Seq<Device>, paths: Seq<Vec<CursorPath>>) -> Seq<CursorPath>
    decreases devices.len(),
{
    if devices.len() == 0 {
        Seq::empty()
    } else {
        corpus_paths(devices.drop_last(), paths.drop_last()) + if devices.last().atomic {
            paths.last()@
        } else {
            Seq::empty()
        }
    }
}

/// Whether every CRTC of every atomic device has its path.
pub open spec fn paths_fit(devices: Seq<Device>, paths: Seq<Vec<CursorPath>>) -> bool {
    &&& paths.len() == devices.len()
    &&& forall|i: int|
        0 <= i < devices.len() && devices[i].atomic ==> (#[trigger] paths[i])@.len()
            == devices[i].crtc_bound()
}

/// How many are in a state.
pub open spec fn count_state(states: Seq<CursorState>, state: CursorState) -> nat
    decreases states.len(),
{
    if states.len() == 0 {
        0
    } else {
        count_state(states.drop_last(), state) + if states.last() == state {
            1nat
        } else {
            0
        }
    }
}

fn count_in_state(states: &Vec<CursorState>, state: CursorState) -> (count: usize)
    ensures
        count == count_state(states@, state),
{
    let mut count: usize = 0;
    let mut i: usize = 0;
    assert(states@.take(0) =~= Seq::empty());
    while i < states.len()
        invariant
            0 <= i <= states@.len(),
            count <= i,
            count == count_state(states@.take(i as int), state),
        decreases states@.len() - i,
    {
        assert(states@.take(i + 1).drop_last() =~= states@.take(i as int));
        if states[i] == state {
            count += 1;
        }
        i += 1;
    }
    assert(states@.take(i as int) =~= states@);
    count
}

/// The rows of a cursor survey: the paths by label, then what stood in the way.
pub open spec fn cursor_rows(states: Seq<CursorState>, paths: Seq<CursorPath>) -> Seq<RowView> {
    listed_rows(paths.map_values(|p: CursorPath| one(path_label(p)))).push(
        RowView {
            label: "  (of which: no cursor plane on the CRTC)"@,
            count: count_state(states, CursorState::NoPlane),
        },
    ).push(
        RowView {
            label: "  (of which: a cursor plane that cannot take ARGB8888)"@,
            count: count_state(states, CursorState::NoFormat),
        },
    )
}

/// Which cursor path each CRTC in a corpus would get.
///
/// A dedicated cursor plane is preferred; an overlay takes its place when there
/// is none or when it cannot take `ARGB8888`, and the legacy call after that.
/// What this answers is whether the fallbacks are reachable.
pub fn cursor_paths(devices: &Vec<Device>, paths: &Vec<Vec<CursorPath>>) -> (survey: Survey)
    requires
        paths_fit(devices@, paths@),
    ensures
        surveyed(
            survey,
            "cursor path per CRTC, replayed through select_plane"@,
            "each fallback costs an overlay, or the ability to coalesce the cursor with a frame and to rotate it"@,
            cursor_rows(corpus_states(devices@), corpus_paths(devices@, paths@)),
        ),
{
    let mut states: Vec<CursorState> = Vec::new();
    let mut notes: Vec<Entry> = Vec::new();
    let ghost mut taken: Seq<CursorPath> = Seq::empty();
    let mut i: usize = 0;
    proof {
        assert(devices@.take(0) =~= Seq::empty());
        assert(states@ =~= Seq::empty());
        assert(views(notes@) =~= taken.map_values(|p: CursorPath| one(path_label(p))));
    }
    while i < devices.len()
        invariant
            0 <= i <= devices@.len(),
            paths_fit(devices@, paths@),
            states@ == corpus_states(devices@.take(i as int)),
            taken == corpus_paths(devices@.take(i as int), paths@.take(i as int)),
            views(notes@) == taken.map_values(|p: CursorPath| one(path_label(p))),
            forall|k: int|
                0 <= k < notes@.len() ==> (#[trigger] notes@[k]).count <= notes@[k].total
                    && notes@[k].total <= 1,
        decreases devices@.len() - i,
    {
        let device = &devices[i];
        let ghost states_before = states@;
        let ghost taken_before = taken;
        let ghost own = device_states(*device);
        let ghost given = paths@[i as int]@;
        proof {
            assert(devices@.take(i + 1).drop_last() =~= devices@.take(i as int));
            assert(paths@.take(i + 1).drop_last() =~= paths@.take(i as int));
        }
        if device.atomic {
            let count: u32 = device.crtc_count();
            let mut crtc: u32 = 0;
            proof {
                assert(states_before + own.take(0) =~= states_before);
                assert(taken_before + given.take(0) =~= taken_before);
            }
            while crtc < count
                invariant
                    0 <= crtc <= count,
                    0 <= i < devices@.len(),
                    paths@.len() == devices@.len(),
                    count == device.crtc_bound(),
                    device.atomic,
                    own == device_states(*device),
                    given == paths@[i as int]@,
                    given.len() == count,
                    states@ == states_before + own.take(crtc as int),
                    taken == taken_before + given.take(crtc as int),
                    views(notes@) == taken.map_values(|p: CursorPath| one(path_label(p))),
                    forall|k: int|
                        0 <= k < notes@.len() ==> (#[trigger] notes@[k]).count <= notes@[k].total
                            && notes@[k].total <= 1,
                decreases count - crtc,
            {
                let ghost was = notes@;
                let ghost taken_was = taken;
                states.push(find_cursor_state(device, crtc));
                let path: CursorPath = paths[i][crtc as usize];
                let note = Entry { rank: 0, label: write_path_label(path), count: 1, total: 1 };
                notes.push(note);
                proof {
                    assert(own.take(crtc + 1) =~= own.take(crtc as int).push(own[crtc as int]));
                    assert(states@ =~= states_before + own.take(crtc + 1));
                    taken = taken.push(path);
                    assert(taken =~= taken_before + given.take(crtc + 1));
                    assert(views(notes@) =~= views(was).push(note@));
                    assert(views(notes@) =~= taken.map_values(
                        |p: CursorPath| one(path_label(p)),
                    ));
                }
                crtc += 1;
            }
            proof {
                assert(own.take(crtc as int) =~= own);
                assert(given.take(crtc as int) =~= given);
            }
        } else {
            assert(states_before + own =~= states_before);
            assert(taken_before + Seq::<CursorPath>::empty() =~= taken_before);
        }
        i += 1;
    }
    proof {
        assert(devices@.take(i as int) =~= devices@);
        assert(paths@.take(i as int) =~= paths@);
    }
    let no_plane: usize = count_in_state(&states, CursorState::NoPlane);
    let no_format: usize = count_in_state(&states, CursorState::NoFormat);
    let mut rows = list_rows(tally_notes(notes));
    let ghost listed = rows@;
    let without = Row {
        label: "  (of which: no cursor plane on the CRTC)".to_owned(),
        count: no_plane,
    };
    rows.push(without);
    let unusable = Row {
        label: "  (of which: a cursor plane that cannot take ARGB8888)".to_owned(),
        count: no_format,
    };
    rows.push(unusable);
    assert(views(rows@) =~= views(listed).push(without@).push(unusable@));
    Survey {
        title: "cursor path per CRTC, replayed through select_plane".to_owned(),
        note:
            "each fallback costs an overlay, or the ability to coalesce the cursor with a frame and to rotate it",
        rows,
    }
}

// --- what the surveys say -----------------------------------------------------

/// A row comes before another where it counts more, or as much under an earlier
/// label.
pub proof fn law_larger_rows_come_first(a: RowView, b: RowView)
    ensures
        a.count > b.count ==> Row::precedes(a, b) && !Row::precedes(b, a),
        a.count == b.count ==> (Row::precedes(a, b) <==> text_before(a.label, b.label)),
{
}

/// The rows of a survey hold every label of its notes with what is noted under
/// it, and the larger come first.
pub proof fn law_rows_are_ranked(notes: Seq<EntryView>, i: int, j: int)
    ensures
        ranked_rows(notes).len() == tallied(notes).len(),
        ranked_rows(notes).to_multiset() == tallied(notes).map_values(
            |e: EntryView| RowView { label: e.label, count: e.count },
        ).to_multiset(),
        0 <= i < j < ranked_rows(notes).len() ==> ranked_rows(notes)[i].count >= ranked_rows(
            notes,
        )[j].count,
{
    let listed = listed_rows(notes);
    assert(listed =~= tallied(notes).map_values(
        |e: EntryView| RowView { label: e.label, count: e.count },
    ));
    law_sorting_sorts::<Row>(listed);
    listed.to_multiset_ensures();
    ranked_rows(notes).to_multiset_ensures();
    if 0 <= i < j < ranked_rows(notes).len() {
        assert(!Row::precedes(ranked_rows(notes)[j], ranked_rows(notes)[i]));
    }
}

/// What a plane's stacking range looks like is told by its bounds and by its
/// flag: fixed, fixed without saying so, settable between the two, or unstated.
pub proof fn law_stacking_shapes_are_told_apart(plane: Plane, low: u64, high: u64)
    ensures
        plane.caps.zpos_min == Some(low) && plane.caps.zpos_max == Some(high) ==> {
            &&& low != high ==> zpos_shape(plane) == "settable ["@ + decimal(low as nat) + ","@
                + decimal(high as nat) + "]"@
            &&& low == high && plane.zpos_immutable ==> zpos_shape(plane)
                == "degenerate and immutable"@
            &&& low == high && !plane.zpos_immutable ==> zpos_shape(plane) == "degenerate at "@
                + decimal(low as nat) + ", NOT immutable"@
        },
        plane.caps.zpos_min is None || plane.caps.zpos_max is None ==> {
            &&& (exists|k: int|
                0 <= k < plane.properties@.len() && (#[trigger] plane.properties@[k])@ == "zpos"@)
                ==> zpos_shape(plane) == "zpos present, no stated range"@
            &&& (forall|k: int|
                0 <= k < plane.properties@.len() ==> (#[trigger] plane.properties@[k])@ != "zpos"@)
                ==> zpos_shape(plane) == "no zpos property"@
        },
{
    let listed = texts(plane.properties@);
    if exists|k: int|
        0 <= k < plane.properties@.len() && (#[trigger] plane.properties@[k])@ == "zpos"@ {
        let k = choose|k: int|
            0 <= k < plane.properties@.len() && (#[trigger] plane.properties@[k])@ == "zpos"@;
        assert(listed[k] == "zpos"@);
    } else if listed.contains("zpos"@) {
        let k = choose|k: int| 0 <= k < listed.len() && listed[k] == "zpos"@;
        assert(plane.properties@[k]@ == "zpos"@);
    }
}

/// Every plane counts once under its stacking shape; once under its rotations,
/// where it advertises any; and once under its driver, where its range is one
/// value that is not flagged fixed.
pub proof fn law_planes_count_under_their_labels(
    device: Device,
    plane: Plane,
    low: u64,
    high: u64,
)
    ensures
        survey_label(PlaneSurvey::Zpos, device, plane) == Some(zpos_shape(plane)),
        survey_label(PlaneSurvey::Rotation, device, plane) is Some
            <==> plane.rotation_names@.len() > 0,
        plane.rotation_names@.len() > 0 ==> survey_label(PlaneSurvey::Rotation, device, plane)
            == Some(joined(ordered::<String>(texts(plane.rotation_names@)), ","@)),
        plane.caps.zpos_min == Some(low) && plane.caps.zpos_max == Some(high) ==> survey_label(
            PlaneSurvey::DegenerateZpos,
            device,
            plane,
        ) == if low == high && !plane.zpos_immutable {
            Some(device.driver@)
        } else {
            None
        },
        plane.caps.zpos_min is None || plane.caps.zpos_max is None ==> survey_label(
            PlaneSurvey::DegenerateZpos,
            device,
            plane,
        ) is None,
{
}

/// A survey goes over every plane of every device, in order, and adds one to the
/// label of each plane it counts.
pub proof fn law_surveys_count_every_plane(
    survey: PlaneSurvey,
    devices: Seq<Device>,
    device: Device,
    upto: int,
    label: Seq<char>,
)
    ensures
        survey_notes(survey, Seq::empty()).len() == 0,
        survey_notes(survey, devices.push(device)) == survey_notes(survey, devices)
            + device_notes(survey, device, device.planes@.len() as int),
        device_notes(survey, device, 0).len() == 0,
        0 <= upto < device.planes@.len() && survey_label(survey, device, device.planes@[upto])
            == Some(label) ==> device_notes(survey, device, upto + 1) == device_notes(
            survey,
            device,
            upto,
        ).push(EntryView { rank: 0, label, count: 1, total: 1 }),
        0 <= upto < device.planes@.len() && survey_label(survey, device, device.planes@[upto])
            is None ==> device_notes(survey, device, upto + 1) == device_notes(survey, device, upto),
{
    assert(devices.push(device).drop_last() =~= devices);
}

proof fn lemma_notes_append(a: Seq<EntryView>, b: Seq<EntryView>, rank: u64, label: Seq<char>)
    ensures
        total_under(a + b, rank, label) == total_under(a, rank, label) + total_under(
            b,
            rank,
            label,
        ),
        count_under(a + b, rank, label) == count_under(a, rank, label) + count_under(
            b,
            rank,
            label,
        ),
    decreases b.len(),
{
    if b.len() == 0 {
        assert(a + b =~= a);
    } else {
        let head = b.drop_last();
        lemma_notes_append(a, head, rank, label);
        lemma_count_under_push(head, b.last(), rank, label);
        lemma_total_under_push(head, b.last(), rank, label);
        lemma_count_under_push(a + head, b.last(), rank, label);
        lemma_total_under_push(a + head, b.last(), rank, label);
        assert(head.push(b.last()) =~= b);
        assert((a + head).push(b.last()) =~= a + b);
    }
}

/// A device adds to its driver as many planes as it has, and counts those that
/// take damage clips; a driver without a plane is listed with none.
pub proof fn law_damage_is_counted_by_driver(devices: Seq<Device>, device: Device, driver: Seq<char>)
    ensures
        damage_notes(Seq::empty()).len() == 0,
        total_under(damage_notes(devices.push(device)), 0, driver) == total_under(
            damage_notes(devices),
            0,
            driver,
        ) + if device.driver@ == driver {
            device.planes@.len()
        } else {
            0
        },
        count_under(damage_notes(devices.push(device)), 0, driver) == count_under(
            damage_notes(devices),
            0,
            driver,
        ) + if device.driver@ == driver {
            device.planes@.filter(|p: Plane| p.caps.has_fb_damage_clips).len()
        } else {
            0
        },
        damage_notes(devices.push(device)).len() == damage_notes(devices).len()
            + device.planes@.len() + 1,
{
    assert(devices.push(device).drop_last() =~= devices);
    let upto = device.planes@.len() as int;
    lemma_device_damage(device, upto, driver);
    assert(device.planes@.take(upto) =~= device.planes@);
    lemma_notes_append(damage_notes(devices), device_damage_notes(device, upto), 0, driver);
}

proof fn lemma_device_damage(device: Device, upto: int, driver: Seq<char>)
    requires
        0 <= upto <= device.planes@.len(),
    ensures
        total_under(device_damage_notes(device, upto), 0, driver) == if device.driver@ == driver {
            upto
        } else {
            0
        },
        count_under(device_damage_notes(device, upto), 0, driver) == if device.driver@ == driver {
            device.planes@.take(upto).filter(|p: Plane| p.caps.has_fb_damage_clips).len()
        } else {
            0
        },
        device_damage_notes(device, upto).len() == upto + 1,
    decreases upto,
{
    reveal(Seq::filter);
    let notes = device_damage_notes(device, upto);
    let none = Seq::<EntryView>::empty();
    if upto == 0 {
        assert(none.push(notes[0]) =~= notes);
        lemma_count_under_push(none, notes[0], 0, driver);
        lemma_total_under_push(none, notes[0], 0, driver);
        assert(device.planes@.take(0) =~= Seq::empty());
    } else {
        let head = device_damage_notes(device, upto - 1);
        lemma_device_damage(device, upto - 1, driver);
        lemma_count_under_push(head, notes.last(), 0, driver);
        lemma_total_under_push(head, notes.last(), 0, driver);
        assert(head.push(notes.last()) =~= notes);
        assert(device.planes@.take(upto).drop_last() =~= device.planes@.take(upto - 1));
    }
}

/// A driver's row says how many of its planes take damage clips, out of how many.
pub proof fn law_damage_rows_say_how_many(entry: EntryView)
    ensures
        damage_row(entry).count == entry.count,
        damage_row(entry).label == entry.label + ": "@ + decimal(entry.count) + " of "@ + decimal(
            entry.total,
        ) + " planes"@,
{
}

/// A CRTC has its dedicated cursor where some cursor plane that can feed it takes
/// `ARGB8888`; what is missing otherwise is the format, or the plane itself.
pub proof fn law_cursor_states_are_told_apart(device: Device, crtc: u32, i: int)
    ensures
        0 <= i < device.planes@.len() && device.planes@[i].caps.plane_type is Cursor
            && device.planes@[i].caps.feeds(crtc) ==> !(cursor_state(device, crtc) is NoPlane) && (
        device.planes@[i].caps.formats@.contains(0x34325241u32) ==> cursor_state(device, crtc)
            is Ready),
        cursor_state(device, crtc) is Ready ==> exists|k: int|
            0 <= k < device.planes@.len() && (#[trigger] device.planes@[k]).caps.plane_type
                is Cursor && device.planes@[k].caps.feeds(crtc)
                && device.planes@[k].caps.formats@.contains(0x34325241u32),
        cursor_state(device, crtc) is NoFormat ==> exists|k: int|
            0 <= k < device.planes@.len() && (#[trigger] device.planes@[k]).caps.plane_type
                is Cursor && device.planes@[k].caps.feeds(crtc),
{
    if 0 <= i < device.planes@.len() && device.planes@[i].caps.plane_type is Cursor
        && device.planes@[i].caps.feeds(crtc) {
        assert(is_cursor_for(device.planes@[i], crtc));
    }
    if cursor_state(device, crtc) is Ready {
        let k = choose|k: int|
            0 <= k < device.planes@.len() && is_cursor_for(#[trigger] device.planes@[k], crtc)
                && device.planes@[k].caps.formats@.contains(ARGB8888);
        assert(device.planes@[k].caps.feeds(crtc));
    }
    if cursor_state(device, crtc) is NoFormat {
        let k = choose|k: int|
            0 <= k < device.planes@.len() && is_cursor_for(#[trigger] device.planes@[k], crtc);
        assert(device.planes@[k].caps.feeds(crtc));
    }
}

/// Every CRTC of every atomic device is asked once, in order; other devices are
/// passed over.
pub proof fn law_every_crtc_is_asked(
    devices: Seq<Device>,
    paths: Seq<Vec<CursorPath>>,
    device: Device,
    given: Vec<CursorPath>,
    crtc: u32,
)
    requires
        devices.len() == paths.len(),
        device.crtcs@.len() <= u32::MAX,
    ensures
        corpus_states(Seq::empty()).len() == 0,
        corpus_paths(Seq::empty(), Seq::empty()).len() == 0,
        !device.atomic ==> corpus_states(devices.push(device)) == corpus_states(devices)
            && corpus_paths(devices.push(device), paths.push(given)) == corpus_paths(
            devices,
            paths,
        ),
        device.atomic ==> {
            &&& corpus_states(devices.push(device)).len() == corpus_states(devices).len()
                + device.crtcs@.len()
            &&& corpus_states(devices.push(device)).take(corpus_states(devices).len() as int)
                == corpus_states(devices)
            &&& crtc < device.crtcs@.len() ==> corpus_states(
                devices.push(device),
            )[corpus_states(devices).len() + crtc] == cursor_state(device, crtc)
            &&& corpus_paths(devices.push(device), paths.push(given)) == corpus_paths(
                devices,
                paths,
            ) + given@
        },
{
    assert(devices.push(device).drop_last() =~= devices);
    assert(paths.push(given).drop_last() =~= paths);
    let all = corpus_states(devices.push(device));
    let head = corpus_states(devices);
    assert(all == head + device_states(device));
    assert(all.take(head.len() as int) =~= head);
    if !device.atomic {
        assert(all =~= head);
        assert(corpus_paths(devices.push(device), paths.push(given)) =~= corpus_paths(
            devices,
            paths,
        ));
    }
}

/// A survey of cursors lists each path under its name, and behind them how many
/// CRTCs lack a cursor plane and how many lack the format.
pub proof fn law_cursor_surveys_say_what_was_missing(
    states: Seq<CursorState>,
    paths: Seq<CursorPath>,
)
    ensures
        ({
            let rows = cursor_rows(states, paths);
            let listed = tallied(
                paths.map_values(
                    |p: CursorPath|
                        EntryView {
                            rank: 0,
                            label: match p {
                                CursorPath::AtomicCursor => "a dedicated cursor plane"@,
                                CursorPath::AtomicOverlay => "an overlay, atomically"@,
                                CursorPath::Legacy => "drmModeSetCursor, the legacy path"@,
                                CursorPath::Unavailable => "nothing can carry a cursor"@,
                            },
                            count: 1,
                            total: 1,
                        },
                ),
            );
            &&& rows.len() == listed.len() + 2
            &&& forall|k: int|
                0 <= k < listed.len() ==> (#[trigger] rows[k]).label == listed[k].label
                    && rows[k].count == listed[k].count
            &&& rows[listed.len() as int].count == states.filter(
                |s: CursorState| s is NoPlane,
            ).len()
            &&& rows[listed.len() as int + 1].count == states.filter(|s: CursorState| s is NoFormat).len()
        }),
{
    let told = paths.map_values(
        |p: CursorPath|
            EntryView {
                rank: 0,
                label: match p {
                    CursorPath::AtomicCursor => "a dedicated cursor plane"@,
                    CursorPath::AtomicOverlay => "an overlay, atomically"@,
                    CursorPath::Legacy => "drmModeSetCursor, the legacy path"@,
                    CursorPath::Unavailable => "nothing can carry a cursor"@,
                },
                count: 1,
                total: 1,
            },
    );
    assert(told =~= paths.map_values(|p: CursorPath| one(path_label(p))));
    lemma_states_counted(states);
}

proof fn lemma_states_counted(states: Seq<CursorState>)
    ensures
        count_state(states, CursorState::NoPlane) == states.filter(
            |s: CursorState| s is NoPlane,
        ).len(),
        count_state(states, CursorState::NoFormat) == states.filter(
            |s: CursorState| s is NoFormat,
        ).len(),
    decreases states.len(),
{
    reveal(Seq::filter);
    if states.len() > 0 {
        lemma_states_counted(states.drop_last());
    }
}

/// A survey carries its title, its note and its rows, in order.
pub proof fn law_a_survey_carries_its_rows(
    survey: Survey,
    title: Seq<char>,
    note: Seq<char>,
    rows: Seq<RowView>,
    i: int,
)
    requires
        surveyed(survey, title, note, rows),
    ensures
        survey.title@ == title,
        survey.note@ == note,
        survey.rows@.len() == rows.len(),
        0 <= i < rows.len() ==> survey.rows@[i].label@ == rows[i].label && survey.rows@[i].count
            == rows[i].count,
{
    assert(views(survey.rows@).len() == survey.rows@.len());
    if 0 <= i < rows.len() {
        assert(views(survey.rows@)[i] == survey.rows@[i]@);
    }
}

} // verus!
