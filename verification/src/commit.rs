//! Turning plane assignments into atomic commits.
//!
//! This is the seam between deciding what goes where and asking the kernel for
//! it. A request is the list of property writes it will make.

use std::collections::{HashMap, HashSet};
use vstd::prelude::*;
use crate::frame::KernelResult;
use crate::planes::{
    to_unsigned_slot, unsigned_slot, Layer, LayerId, PlaneCapabilities, PlaneRegistry, PropTag,
    PropertySnapshot, TagTable, TestFailure, TAG_COUNT,
};
use crate::presenter::MAX_DAMAGE;
use crate::release::Acquisition;
use crate::report::CommitReport;
use crate::plan::{FrameBuild, PlanePlan};
use crate::source::DamageRect;

verus! {

broadcast use vstd::std_specs::hash::group_hash_axioms;

// --- requests ----------------------------------------------------------------

/// One property write.
#[derive(Debug, Clone, Copy, PartialEq, Eq, Structural)]
pub struct PropertyWrite {
    /// The plane, CRTC or connector written to.
    pub object_id: u32,
    /// The property.
    pub property_id: u32,
    /// Its new value.
    pub value: u64,
}

/// The property writes of one commit, in order.
#[derive(Debug)]
pub struct AtomicRequest {
    /// The writes.
    pub writes: Vec<PropertyWrite>,
}

impl AtomicRequest {
    /// An empty request.
    pub fn new() -> (request: Self)
        ensures
            request.writes@.len() == 0,
    {
        AtomicRequest { writes: Vec::new() }
    }

    /// An empty request with room for `capacity` writes.
    pub fn with_capacity(capacity: usize) -> (request: Self)
        ensures
            request.writes@.len() == 0,
    {
        AtomicRequest { writes: Vec::with_capacity(capacity) }
    }

    /// Add one write.
    pub fn add_property(&mut self, object_id: u32, property_id: u32, value: u64)
        ensures
            final(self).writes@ == old(self).writes@.push(
                PropertyWrite { object_id, property_id, value },
            ),
    {
        self.writes.push(PropertyWrite { object_id, property_id, value });
    }

    /// The writes so far, in order.
    pub fn writes(&self) -> (writes: &Vec<PropertyWrite>)
        ensures
            *writes == self.writes,
    {
        &self.writes
    }
}

// --- what planes expose ------------------------------------------------------

/// One entry of an enum property.
#[derive(Debug)]
pub struct EnumEntry {
    /// Its name.
    pub name: String,
    /// The value the driver gave it.
    pub value: u64,
}

/// One property an object exposes.
#[derive(Debug)]
pub struct PropertyInfo {
    /// The property's id on this object.
    pub id: u32,
    /// Its name.
    pub name: String,
    /// Whether the kernel refuses every write to it.
    pub immutable: bool,
    /// Its entries, for an enum.
    pub entries: Vec<EnumEntry>,
    /// Its bounds, for a range.
    pub range: Option<(u64, u64)>,
}

/// The first property with a name.
pub open spec fn place_named(properties: Seq<PropertyInfo>, name: Seq<char>) -> Option<int>
    decreases properties.len(),
{
    if properties.len() == 0 {
        None
    } else if properties[0].name@ == name {
        Some(0)
    } else {
        match place_named(properties.skip(1), name) {
            Some(place) => Some(place + 1),
            None => None,
        }
    }
}

proof fn lemma_place_named(properties: Seq<PropertyInfo>, name: Seq<char>, upto: int)
    requires
        0 <= upto <= properties.len(),
        forall|i: int| 0 <= i < upto ==> (#[trigger] properties[i]).name@ != name,
    ensures
        upto == properties.len() ==> place_named(properties, name) is None,
        upto < properties.len() && properties[upto].name@ == name ==> place_named(properties, name)
            == Some(upto),
    decreases upto,
{
    if upto > 0 {
        let rest = properties.skip(1);
        assert forall|i: int| 0 <= i < upto - 1 implies (#[trigger] rest[i]).name@ != name by {
            assert(rest[i] == properties[i + 1]);
        }
        lemma_place_named(rest, name, upto - 1);
        if upto < properties.len() {
            assert(rest[upto - 1] == properties[upto]);
        }
    }
}

fn find_named(properties: &[PropertyInfo], name: &str) -> (place: Option<usize>)
    ensures
        match (place, place_named(properties@, name@)) {
            (Some(found), Some(place)) => found == place && found < properties@.len(),
            (None, None) => true,
            _ => false,
        },
{
    let wanted: String = name.to_owned();
    let mut i: usize = 0;
    while i < properties.len()
        invariant
            0 <= i <= properties@.len(),
            wanted@ == name@,
            forall|j: int| 0 <= j < i ==> (#[trigger] properties@[j]).name@ != name@,
        decreases properties@.len() - i,
    {
        if properties[i].name == wanted {
            proof {
                lemma_place_named(properties@, name@, i as int);
            }
            return Some(i);
        }
        i += 1;
    }
    proof {
        lemma_place_named(properties@, name@, i as int);
    }
    None
}

/// The value of the first entry with a name.
pub open spec fn entry_named(entries: Seq<EnumEntry>, name: Seq<char>) -> Option<u64>
    decreases entries.len(),
{
    if entries.len() == 0 {
        None
    } else if entries[0].name@ == name {
        Some(entries[0].value)
    } else {
        entry_named(entries.skip(1), name)
    }
}

fn find_entry(entries: &Vec<EnumEntry>, name: &str) -> (value: Option<u64>)
    ensures
        value == entry_named(entries@, name@),
{
    let wanted: String = name.to_owned();
    let mut i: usize = 0;
    assert(entries@.skip(0) =~= entries@);
    while i < entries.len()
        invariant
            0 <= i <= entries@.len(),
            wanted@ == name@,
            entry_named(entries@, name@) == entry_named(entries@.skip(i as int), name@),
        decreases entries@.len() - i,
    {
        if entries[i].name == wanted {
            return Some(entries[i].value);
        }
        assert(entries@.skip(i as int).skip(1) =~= entries@.skip(i + 1));
        i += 1;
    }
    None
}

/// A plane's colorimetry properties, resolved to the values the scene writes.
#[derive(Debug, Clone, Copy, PartialEq, Eq, Structural)]
pub struct ColorProps {
    /// The encoding property.
    pub encoding_id: u32,
    /// The value asked for.
    pub encoding_value: u64,
    /// The range property.
    pub range_id: u32,
    /// The value asked for.
    pub range_value: u64,
}

/// Why an object's properties could not be learned.
#[derive(Debug, Clone, Copy, PartialEq, Eq, Structural)]
pub enum LearnError {
    /// A property the scene cannot do without is missing.
    MissingProperty,
    /// An enum property lacks the entry the scene asks for.
    MissingEnumEntry,
}

/// The colorimetry the scene asks for on every plane it programs: BT.709,
/// limited range.
pub const DEFAULT_COLOR_ENCODING: &'static str = "ITU-R BT.709 YCbCr";

/// The range half of [`DEFAULT_COLOR_ENCODING`].
pub const DEFAULT_COLOR_RANGE: &'static str = "YCbCr limited range";

/// A plane's colorimetry: absent unless it exposes both properties, and an
/// error if it exposes both and lacks an entry.
pub open spec fn color_of(properties: Seq<PropertyInfo>) -> Result<Option<ColorProps>, LearnError> {
    match (
        place_named(properties, "COLOR_ENCODING"@),
        place_named(properties, "COLOR_RANGE"@),
    ) {
        (Some(encoding), Some(range)) => {
            match (
                entry_named(properties[encoding].entries@, DEFAULT_COLOR_ENCODING@),
                entry_named(properties[range].entries@, DEFAULT_COLOR_RANGE@),
            ) {
                (Some(encoding_value), Some(range_value)) => Ok(
                    Some(
                        ColorProps {
                            encoding_id: properties[encoding].id,
                            encoding_value,
                            range_id: properties[range].id,
                            range_value,
                        },
                    ),
                ),
                _ => Err(LearnError::MissingEnumEntry),
            }
        },
        _ => Ok(None),
    }
}

fn find_color(properties: &[PropertyInfo]) -> (color: Result<Option<ColorProps>, LearnError>)
    ensures
        color == color_of(properties@),
{
    match (find_named(properties, "COLOR_ENCODING"), find_named(properties, "COLOR_RANGE")) {
        (Some(encoding), Some(range)) => {
            match (
                find_entry(&properties[encoding].entries, DEFAULT_COLOR_ENCODING),
                find_entry(&properties[range].entries, DEFAULT_COLOR_RANGE),
            ) {
                (Some(encoding_value), Some(range_value)) => Ok(
                    Some(
                        ColorProps {
                            encoding_id: properties[encoding].id,
                            encoding_value,
                            range_id: properties[range].id,
                            range_value,
                        },
                    ),
                ),
                _ => Err(LearnError::MissingEnumEntry),
            }
        },
        _ => Ok(None),
    }
}

/// The id of the property a tag names, if the plane exposes it and takes
/// writes to it. The two hint tags are no property of any plane.
pub open spec fn writable_id(properties: Seq<PropertyInfo>, tag: PropTag) -> Option<u32> {
    match place_named(properties, tag.name_spec()) {
        Some(place) if !tag.is_hint_spec() && !properties[place].immutable => Some(
            properties[place].id,
        ),
        _ => None,
    }
}

/// The id of the property a tag names, if the plane exposes it and refuses
/// every write to it.
pub open spec fn frozen_id(properties: Seq<PropertyInfo>, tag: PropTag) -> Option<u32> {
    match place_named(properties, tag.name_spec()) {
        Some(place) if !tag.is_hint_spec() && properties[place].immutable => Some(
            properties[place].id,
        ),
        _ => None,
    }
}

/// The writable property of each tag.
pub open spec fn writable_ids(properties: Seq<PropertyInfo>) -> TagTable<u32> {
    TagTable {
        fb_id: writable_id(properties, PropTag::FbId),
        crtc_id: writable_id(properties, PropTag::CrtcId),
        crtc_x: writable_id(properties, PropTag::CrtcX),
        crtc_y: writable_id(properties, PropTag::CrtcY),
        crtc_w: writable_id(properties, PropTag::CrtcW),
        crtc_h: writable_id(properties, PropTag::CrtcH),
        src_x: writable_id(properties, PropTag::SrcX),
        src_y: writable_id(properties, PropTag::SrcY),
        src_w: writable_id(properties, PropTag::SrcW),
        src_h: writable_id(properties, PropTag::SrcH),
        pixel_format: writable_id(properties, PropTag::PixelFormat),
        fb_modifier: writable_id(properties, PropTag::FbModifier),
        rotation: writable_id(properties, PropTag::Rotation),
        zpos: writable_id(properties, PropTag::Zpos),
        alpha: writable_id(properties, PropTag::Alpha),
        in_fence_fd: writable_id(properties, PropTag::InFenceFd),
    }
}

/// The immutable property of each tag.
pub open spec fn frozen_ids(properties: Seq<PropertyInfo>) -> TagTable<u32> {
    TagTable {
        fb_id: frozen_id(properties, PropTag::FbId),
        crtc_id: frozen_id(properties, PropTag::CrtcId),
        crtc_x: frozen_id(properties, PropTag::CrtcX),
        crtc_y: frozen_id(properties, PropTag::CrtcY),
        crtc_w: frozen_id(properties, PropTag::CrtcW),
        crtc_h: frozen_id(properties, PropTag::CrtcH),
        src_x: frozen_id(properties, PropTag::SrcX),
        src_y: frozen_id(properties, PropTag::SrcY),
        src_w: frozen_id(properties, PropTag::SrcW),
        src_h: frozen_id(properties, PropTag::SrcH),
        pixel_format: frozen_id(properties, PropTag::PixelFormat),
        fb_modifier: frozen_id(properties, PropTag::FbModifier),
        rotation: frozen_id(properties, PropTag::Rotation),
        zpos: frozen_id(properties, PropTag::Zpos),
        alpha: frozen_id(properties, PropTag::Alpha),
        in_fence_fd: frozen_id(properties, PropTag::InFenceFd),
    }
}

proof fn lemma_table_by_tag(table: TagTable<u32>, other: TagTable<u32>)
    requires
        forall|place: int|
            0 <= place < TAG_COUNT ==> table.value(#[trigger] PropTag::nth(place)) == other.value(
                PropTag::nth(place),
            ),
    ensures
        table == other,
{
    assert(PropTag::nth(0) == PropTag::FbId);
    assert(PropTag::nth(1) == PropTag::CrtcId);
    assert(PropTag::nth(2) == PropTag::CrtcX);
    assert(PropTag::nth(3) == PropTag::CrtcY);
    assert(PropTag::nth(4) == PropTag::CrtcW);
    assert(PropTag::nth(5) == PropTag::CrtcH);
    assert(PropTag::nth(6) == PropTag::SrcX);
    assert(PropTag::nth(7) == PropTag::SrcY);
    assert(PropTag::nth(8) == PropTag::SrcW);
    assert(PropTag::nth(9) == PropTag::SrcH);
    assert(PropTag::nth(10) == PropTag::PixelFormat);
    assert(PropTag::nth(11) == PropTag::FbModifier);
    assert(PropTag::nth(12) == PropTag::Rotation);
    assert(PropTag::nth(13) == PropTag::Zpos);
    assert(PropTag::nth(14) == PropTag::Alpha);
    assert(PropTag::nth(15) == PropTag::InFenceFd);
}

/// The stacking range a plane states.
pub open spec fn zpos_range_of(properties: Seq<PropertyInfo>) -> Option<(u64, u64)> {
    match place_named(properties, "zpos"@) {
        Some(place) => properties[place].range,
        None => None,
    }
}

/// Resolves tags to the property ids of each plane.
///
/// Ids are per-object and stable for a device's lifetime, so they are resolved
/// once per plane.
pub struct PlanePropertyMap {
    /// Each plane's writable properties.
    pub planes: HashMap<u32, TagTable<u32>>,
    /// Each plane's immutable properties, which a commit must never write.
    pub immutable: HashMap<u32, TagTable<u32>>,
    /// Colorimetry, for the planes that have it.
    pub color: HashMap<u32, ColorProps>,
    /// Planes whose colorimetry the kernel has already taken.
    pub color_committed: HashSet<u32>,
    /// The stacking range of the planes that state one.
    pub zpos_range: HashMap<u32, (u64, u64)>,
    /// The damage clip property of the planes that take clips.
    pub damage_clips: HashMap<u32, u32>,
}

/// The damage clip property a plane takes, if it takes clips.
pub open spec fn damage_id_of(properties: Seq<PropertyInfo>) -> Option<u32> {
    match place_named(properties, "FB_DAMAGE_CLIPS"@) {
        Some(place) => if properties[place].immutable {
            None
        } else {
            Some(properties[place].id)
        },
        None => None,
    }
}

/// Whether `after` is `before` with one plane learned from what it exposes.
pub open spec fn learned_plane(
    before: PlanePropertyMap,
    plane_id: u32,
    properties: Seq<PropertyInfo>,
    after: PlanePropertyMap,
) -> bool {
    &&& after.planes@ == before.planes@.insert(plane_id, writable_ids(properties))
    &&& after.immutable@ == before.immutable@.insert(plane_id, frozen_ids(properties))
    &&& after.color@ == match color_of(properties) {
        Ok(Some(color)) => before.color@.insert(plane_id, color),
        _ => before.color@,
    }
    &&& after.zpos_range@ == match zpos_range_of(properties) {
        Some(range) => before.zpos_range@.insert(plane_id, range),
        None => before.zpos_range@,
    }
    &&& after.damage_clips@ == match damage_id_of(properties) {
        Some(id) => before.damage_clips@.insert(plane_id, id),
        None => before.damage_clips@,
    }
    &&& after.color_committed == before.color_committed
}

/// Whether `states` is a map learning the first planes of a registry, one after
/// the other.
pub open spec fn learned_planes(
    before: PlanePropertyMap,
    planes: Seq<PlaneCapabilities>,
    properties: Seq<Vec<PropertyInfo>>,
    states: Seq<PlanePropertyMap>,
) -> bool {
    &&& 1 <= states.len() <= planes.len() + 1
    &&& states[0] == before
    &&& forall|k: int|
        0 <= k < states.len() - 1 ==> learned_plane(
            #[trigger] states[k],
            planes[k].id,
            properties[k]@,
            states[k + 1],
        ) && color_of(properties[k]@) is Ok
}

impl PlanePropertyMap {
    /// An empty map.
    pub fn new() -> (map: Self)
        ensures
            map.planes@ == Map::<u32, TagTable<u32>>::empty(),
            map.immutable@ == Map::<u32, TagTable<u32>>::empty(),
            map.color@ == Map::<u32, ColorProps>::empty(),
            map.color_committed@ == Set::<u32>::empty(),
            map.zpos_range@ == Map::<u32, (u64, u64)>::empty(),
            map.damage_clips@ == Map::<u32, u32>::empty(),
    {
        PlanePropertyMap {
            planes: HashMap::new(),
            immutable: HashMap::new(),
            color: HashMap::new(),
            color_committed: HashSet::new(),
            zpos_range: HashMap::new(),
            damage_clips: HashMap::new(),
        }
    }

    /// The property id of a tag on a plane, if it is writable there.
    pub open spec fn id_of(&self, plane_id: u32, tag: PropTag) -> Option<u32> {
        if self.planes@.contains_key(plane_id) {
            self.planes@[plane_id].value(tag)
        } else {
            None
        }
    }

    /// Resolve and keep every tag for a plane that exposes `properties`.
    ///
    /// A tag the plane does not expose is simply absent. A plane whose
    /// colorimetry lacks an entry the scene needs teaches nothing.
    pub fn learn_plane(&mut self, plane_id: u32, properties: &[PropertyInfo]) -> (learned: Result<
        (),
        LearnError,
    >)
        ensures
            match color_of(properties@) {
                Err(error) => learned == Err::<(), LearnError>(error) && *final(self) == *old(self),
                Ok(color) => {
                    &&& learned == Ok::<(), LearnError>(())
                    &&& learned_plane(*old(self), plane_id, properties@, *final(self))
                },
            },
    {
        let color: Option<ColorProps> = match find_color(properties) {
            Ok(color) => color,
            Err(error) => {
                return Err(error);
            },
        };
        if let Some(color) = color {
            self.color.insert(plane_id, color);
        }
        if let Some(place) = find_named(properties, "zpos") {
            if let Some(range) = properties[place].range {
                self.zpos_range.insert(plane_id, range);
            }
        }
        if let Some(place) = find_named(properties, "FB_DAMAGE_CLIPS") {
            if !properties[place].immutable {
                self.damage_clips.insert(plane_id, properties[place].id);
            }
        }
        let mut ids: TagTable<u32> = TagTable::empty();
        let mut frozen: TagTable<u32> = TagTable::empty();
        let mut i: usize = 0;
        while i < TAG_COUNT
            invariant
                0 <= i <= TAG_COUNT,
                forall|place: int|
                    0 <= place < TAG_COUNT ==> ids.value(#[trigger] PropTag::nth(place)) == if place
                        < i {
                        writable_id(properties@, PropTag::nth(place))
                    } else {
                        None
                    },
                forall|place: int|
                    0 <= place < TAG_COUNT ==> frozen.value(#[trigger] PropTag::nth(place)) == if place
                        < i {
                        frozen_id(properties@, PropTag::nth(place))
                    } else {
                        None
                    },
            decreases TAG_COUNT - i,
        {
            let tag: PropTag = PropTag::at(i);
            let ghost ids_before = ids;
            let ghost frozen_before = frozen;
            if !tag.is_hint() {
                if let Some(found) = find_named(properties, tag.name()) {
                    if properties[found].immutable {
                        frozen.set(tag, properties[found].id);
                    } else {
                        ids.set(tag, properties[found].id);
                    }
                }
            }
            proof {
                assert forall|place: int| 0 <= place < TAG_COUNT implies ids.value(
                    #[trigger] PropTag::nth(place),
                ) == if place < i + 1 {
                    writable_id(properties@, PropTag::nth(place))
                } else {
                    None
                } by {
                    lemma_set_one(ids_before, tag, PropTag::nth(place));
                }
                assert forall|place: int| 0 <= place < TAG_COUNT implies frozen.value(
                    #[trigger] PropTag::nth(place),
                ) == if place < i + 1 {
                    frozen_id(properties@, PropTag::nth(place))
                } else {
                    None
                } by {
                    lemma_set_one(frozen_before, tag, PropTag::nth(place));
                }
            }
            i += 1;
        }
        proof {
            assert forall|place: int| 0 <= place < TAG_COUNT implies ids.value(
                #[trigger] PropTag::nth(place),
            ) == writable_ids(properties@).value(PropTag::nth(place)) by {
                lemma_ids_by_tag(properties@, PropTag::nth(place));
            }
            assert forall|place: int| 0 <= place < TAG_COUNT implies frozen.value(
                #[trigger] PropTag::nth(place),
            ) == frozen_ids(properties@).value(PropTag::nth(place)) by {
                lemma_ids_by_tag(properties@, PropTag::nth(place));
            }
            lemma_table_by_tag(ids, writable_ids(properties@));
            lemma_table_by_tag(frozen, frozen_ids(properties@));
        }
        self.planes.insert(plane_id, ids);
        self.immutable.insert(plane_id, frozen);
        Ok(())
    }

    /// Resolve every plane of a registry, given what each of them exposes.
    ///
    /// Planes are learned in order. The first that cannot be ends it with that
    /// error, and what was learned before it stays.
    pub fn learn_all(&mut self, registry: &PlaneRegistry, properties: &[Vec<PropertyInfo>]) -> (learned:
        Result<(), LearnError>)
        requires
            properties@.len() == registry.planes@.len(),
        ensures
            exists|states: Seq<PlanePropertyMap>| #[trigger]
                learned_planes(*old(self), registry.planes@, properties@, states)
                    && *final(self) == states.last() && match learned {
                    Ok(()) => states.len() == registry.planes@.len() + 1,
                    Err(error) => states.len() <= registry.planes@.len() && color_of(
                        properties@[states.len() - 1]@,
                    ) == Err::<Option<ColorProps>, LearnError>(error),
                },
    {
        let ghost mut states: Seq<PlanePropertyMap> = seq![*self];
        let mut i: usize = 0;
        while i < registry.planes.len()
            invariant
                0 <= i <= registry.planes@.len(),
                properties@.len() == registry.planes@.len(),
                states.len() == i + 1,
                states.last() == *self,
                learned_planes(*old(self), registry.planes@, properties@, states),
            decreases registry.planes@.len() - i,
        {
            let ghost before = states;
            match self.learn_plane(registry.planes[i].id, properties[i].as_slice()) {
                Err(error) => {
                    assert(learned_planes(*old(self), registry.planes@, properties@, states));
                    return Err(error);
                },
                Ok(()) => {},
            }
            proof {
                states = states.push(*self);
                assert forall|k: int| 0 <= k < states.len() - 1 implies learned_plane(
                    #[trigger] states[k],
                    registry.planes@[k].id,
                    properties@[k]@,
                    states[k + 1],
                ) && color_of(properties@[k]@) is Ok by {
                    if k < i {
                        assert(states[k] == before[k]);
                        assert(states[k + 1] == before[k + 1]);
                    }
                }
            }
            i += 1;
        }
        assert(learned_planes(*old(self), registry.planes@, properties@, states));
        Ok(())
    }

    /// Record that a real commit carried a plane's colorimetry.
    ///
    /// Only after the kernel accepted it: a test commit applies nothing.
    pub fn note_color_committed(&mut self, plane_id: u32)
        ensures
            final(self).color_committed@ == old(self).color_committed@.insert(plane_id),
            *final(self) == (PlanePropertyMap {
                color_committed: final(self).color_committed,
                ..*old(self)
            }),
    {
        self.color_committed.insert(plane_id);
    }

    /// The property id for a tag on a plane, if it is writable there.
    pub fn property_id(&self, plane_id: u32, tag: PropTag) -> (id: Option<u32>)
        ensures
            id == self.id_of(plane_id, tag),
    {
        match self.planes.get(&plane_id) {
            Some(table) => table.get(tag),
            None => None,
        }
    }

    /// Whether the plane marks this property immutable.
    pub fn is_immutable(&self, plane_id: u32, tag: PropTag) -> (immutable: bool)
        ensures
            immutable == (self.immutable@.contains_key(plane_id)
                && self.immutable@[plane_id].value(tag) is Some),
    {
        match self.immutable.get(&plane_id) {
            Some(table) => table.get(tag).is_some(),
            None => false,
        }
    }

    /// How many planes have been learned.
    pub fn len(&self) -> (len: usize)
        ensures
            len == self.planes@.len(),
    {
        self.planes.len()
    }

    /// Whether nothing has been learned yet.
    pub fn is_empty(&self) -> (empty: bool)
        ensures
            empty == (self.planes@.len() == 0),
    {
        self.planes.len() == 0
    }

    /// A stacking position bent into the plane's stated range.
    pub open spec fn clamped(&self, plane_id: u32, zpos: u64) -> u64 {
        if self.zpos_range@.contains_key(plane_id) {
            let (low, high) = self.zpos_range@[plane_id];
            if zpos < low {
                low
            } else if zpos > high {
                high
            } else {
                zpos
            }
        } else {
            zpos
        }
    }

    /// Bend a derived stacking position to fit the plane.
    ///
    /// A position outside the range refuses the whole frame. A plane that states
    /// no range is not second-guessed.
    pub fn clamp_zpos(&self, plane_id: u32, zpos: u64) -> (clamped: u64)
        ensures
            clamped == self.clamped(plane_id, zpos),
    {
        match self.zpos_range.get(&plane_id) {
            Some(range) => {
                let (low, high) = *range;
                if zpos < low {
                    low
                } else if zpos > high {
                    high
                } else {
                    zpos
                }
            },
            None => zpos,
        }
    }
}

proof fn lemma_set_one(table: TagTable<u32>, tag: PropTag, other: PropTag)
    ensures
        forall|id: u32| #[trigger]
            table.with(tag, id).value(other) == if other == tag {
                Some(id)
            } else {
                table.value(other)
            },
{
}

proof fn lemma_ids_by_tag(properties: Seq<PropertyInfo>, tag: PropTag)
    ensures
        writable_ids(properties).value(tag) == writable_id(properties, tag),
        frozen_ids(properties).value(tag) == frozen_id(properties, tag),
{
}

// --- emitting ----------------------------------------------------------------

/// Whether a property has to be written, given what the kernel last took.
///
/// Two are written every commit: `FB_ID`, whose re-attachment is what queues
/// the flip event, and `IN_FENCE_FD`, which the kernel consumes each time.
/// Everything else only where it differs.
pub open spec fn must_write(tag: PropTag, value: u64, baseline: Option<PropertySnapshot>) -> bool {
    tag == PropTag::FbId || tag == PropTag::InFenceFd || match baseline {
        Some(snapshot) => snapshot.value(tag) != Some(value),
        None => true,
    }
}

/// Whether a property has to be written, given what the kernel last took.
pub fn needs_write(tag: PropTag, value: u64, baseline: Option<&PropertySnapshot>) -> (needed: bool)
    ensures
        needed == must_write(
            tag,
            value,
            match baseline {
                Some(snapshot) => Some(*snapshot),
                None => None,
            },
        ),
        needed <==> tag == PropTag::FbId || tag == PropTag::InFenceFd || baseline is None || (
        *baseline->0).value(tag) != Some(value),
{
    if matches!(tag, PropTag::FbId | PropTag::InFenceFd) {
        return true;
    }
    match baseline {
        Some(snapshot) => snapshot.get(tag) != Some(value),
        None => true,
    }
}

/// The write a layer makes for one tag, if it makes one.
///
/// A tag the layer does not set or the plane does not take is passed over, and
/// so is the framebuffer of an externally bound layer.
pub open spec fn tag_write(
    map: PlanePropertyMap,
    plane_id: u32,
    layer: Layer,
    baseline: Option<PropertySnapshot>,
    tag: PropTag,
) -> Option<PropertyWrite> {
    match (layer.properties.value(tag), map.id_of(plane_id, tag)) {
        (Some(value), Some(property_id)) => if (layer.externally_bound && tag == PropTag::FbId)
            || !must_write(tag, value, baseline) {
            None
        } else {
            Some(PropertyWrite { object_id: plane_id, property_id, value })
        },
        _ => None,
    }
}

/// The writes a layer makes for the first `upto` tags, in tag order.
pub open spec fn tag_writes(
    map: PlanePropertyMap,
    plane_id: u32,
    layer: Layer,
    baseline: Option<PropertySnapshot>,
    upto: int,
) -> Seq<PropertyWrite>
    decreases upto,
{
    if upto <= 0 {
        Seq::empty()
    } else {
        let before = tag_writes(map, plane_id, layer, baseline, upto - 1);
        match tag_write(map, plane_id, layer, baseline, PropTag::nth(upto - 1)) {
            Some(write) => before.push(write),
            None => before,
        }
    }
}

/// All the writes a layer makes on a plane.
pub open spec fn layer_writes(
    map: PlanePropertyMap,
    plane_id: u32,
    layer: Layer,
    baseline: Option<PropertySnapshot>,
) -> Seq<PropertyWrite> {
    tag_writes(map, plane_id, layer, baseline, TAG_COUNT as int)
}

/// Emit one layer's properties onto a plane. Returns how many were written.
pub fn emit_layer(
    request: &mut AtomicRequest,
    map: &PlanePropertyMap,
    plane_id: u32,
    layer: &Layer,
    baseline: Option<&PropertySnapshot>,
) -> (written: usize)
    ensures
        final(request).writes@ == old(request).writes@ + layer_writes(
            *map,
            plane_id,
            *layer,
            match baseline {
                Some(snapshot) => Some(*snapshot),
                None => None,
            },
        ),
        written == final(request).writes@.len() - old(request).writes@.len(),
{
    let start: usize = request.writes.len();
    let ghost before = request.writes@;
    let ghost held = match baseline {
        Some(snapshot) => Some(*snapshot),
        None => None,
    };
    assert(before + tag_writes(*map, plane_id, *layer, held, 0) =~= before);
    let mut i: usize = 0;
    while i < TAG_COUNT
        invariant
            0 <= i <= TAG_COUNT,
            held == match baseline {
                Some(snapshot) => Some(*snapshot),
                None => None,
            },
            start == before.len(),
            request.writes@ == before + tag_writes(*map, plane_id, *layer, held, i as int),
        decreases TAG_COUNT - i,
    {
        let tag: PropTag = PropTag::at(i);
        let ghost so_far = tag_writes(*map, plane_id, *layer, held, i as int);
        if let Some(value) = layer.property(tag) {
            if let Some(property_id) = map.property_id(plane_id, tag) {
                if !(layer.is_externally_bound() && tag == PropTag::FbId) && needs_write(
                    tag,
                    value,
                    baseline,
                ) {
                    request.add_property(plane_id, property_id, value);
                    assert(request.writes@ =~= before + so_far.push(
                        PropertyWrite { object_id: plane_id, property_id, value },
                    ));
                }
            }
        }
        i += 1;
    }
    request.writes.len() - start
}

/// The writes that detach a plane: its framebuffer and its CRTC, zeroed.
pub open spec fn disable_writes(map: PlanePropertyMap, plane_id: u32) -> Seq<PropertyWrite> {
    (match map.id_of(plane_id, PropTag::FbId) {
        Some(property_id) => seq![PropertyWrite { object_id: plane_id, property_id, value: 0 }],
        None => Seq::empty(),
    }) + (match map.id_of(plane_id, PropTag::CrtcId) {
        Some(property_id) => seq![PropertyWrite { object_id: plane_id, property_id, value: 0 }],
        None => Seq::empty(),
    })
}

/// Emit the writes that detach a plane. Returns how many were written.
///
/// A plane left out of an assignment keeps whatever the last commit put there,
/// and has to be cleared explicitly.
pub fn emit_disable(request: &mut AtomicRequest, map: &PlanePropertyMap, plane_id: u32) -> (written:
    usize)
    ensures
        final(request).writes@ == old(request).writes@ + disable_writes(*map, plane_id),
        written == final(request).writes@.len() - old(request).writes@.len(),
{
    let start: usize = request.writes.len();
    let ghost before = request.writes@;
    if let Some(property_id) = map.property_id(plane_id, PropTag::FbId) {
        request.add_property(plane_id, property_id, 0);
    }
    if let Some(property_id) = map.property_id(plane_id, PropTag::CrtcId) {
        request.add_property(plane_id, property_id, 0);
    }
    assert(request.writes@ =~= before + disable_writes(*map, plane_id));
    request.writes.len() - start
}

/// A plane's colorimetry writes: both properties, unless it has none or the
/// kernel has taken them already.
pub open spec fn color_writes(map: PlanePropertyMap, plane_id: u32) -> Seq<PropertyWrite> {
    if map.color@.contains_key(plane_id) && !map.color_committed@.contains(plane_id) {
        let color = map.color@[plane_id];
        seq![
            PropertyWrite {
                object_id: plane_id,
                property_id: color.encoding_id,
                value: color.encoding_value,
            },
            PropertyWrite {
                object_id: plane_id,
                property_id: color.range_id,
                value: color.range_value,
            },
        ]
    } else {
        Seq::empty()
    }
}

/// Emit a plane's colorimetry, if it has any and the kernel has not taken it.
///
/// These properties outlive a client, so they are written once to displace what
/// the last one left, and then left alone.
pub fn emit_color_props(request: &mut AtomicRequest, map: &PlanePropertyMap, plane_id: u32) -> (written:
    usize)
    ensures
        final(request).writes@ == old(request).writes@ + color_writes(*map, plane_id),
        written == color_writes(*map, plane_id).len(),
{
    let ghost before = request.writes@;
    let color: ColorProps = match map.color.get(&plane_id) {
        Some(color) => *color,
        None => {
            assert(before + color_writes(*map, plane_id) =~= before);
            return 0;
        },
    };
    if map.color_committed.contains(&plane_id) {
        assert(before + color_writes(*map, plane_id) =~= before);
        return 0;
    }
    request.add_property(plane_id, color.encoding_id, color.encoding_value);
    request.add_property(plane_id, color.range_id, color.range_value);
    assert(request.writes@ =~= before + color_writes(*map, plane_id));
    2
}

/// The CRTC and connector writes that bring a display up.
///
/// Plane properties alone do not light a screen: until the CRTC has a mode and
/// is active, and a connector routes to it, binding planes to it is refused.
#[derive(Debug, Clone, Copy, PartialEq, Eq, Structural)]
pub struct Modeset {
    /// The CRTC.
    pub crtc_id: u32,
    /// The connector that routes to it.
    pub connector_id: u32,
    /// The CRTC's `ACTIVE` property.
    pub crtc_active: u32,
    /// The CRTC's `MODE_ID` property.
    pub crtc_mode_id: u32,
    /// The connector's `CRTC_ID` property.
    pub connector_crtc_id: u32,
    /// The blob that describes the mode.
    pub mode_blob: u64,
}

/// The three ids a modeset needs, or `None` if one is missing.
pub open spec fn modeset_ids(crtc: Seq<PropertyInfo>, connector: Seq<PropertyInfo>) -> Option<
    (u32, u32, u32),
> {
    match (
        place_named(crtc, "ACTIVE"@),
        place_named(crtc, "MODE_ID"@),
        place_named(connector, "CRTC_ID"@),
    ) {
        (Some(active), Some(mode), Some(route)) => Some(
            (crtc[active].id, crtc[mode].id, connector[route].id),
        ),
        _ => None,
    }
}

impl Modeset {
    /// Resolve the three property ids around a staged mode blob.
    ///
    /// Every atomic driver exposes all three, so an absent one means this is not
    /// an atomic-capable device.
    pub fn learn(
        crtc_id: u32,
        connector_id: u32,
        crtc: &[PropertyInfo],
        connector: &[PropertyInfo],
        mode_blob: u64,
    ) -> (modeset: Result<Modeset, LearnError>)
        ensures
            modeset == match modeset_ids(crtc@, connector@) {
                Some((crtc_active, crtc_mode_id, connector_crtc_id)) => Ok::<Modeset, LearnError>(
                    Modeset {
                        crtc_id,
                        connector_id,
                        crtc_active,
                        crtc_mode_id,
                        connector_crtc_id,
                        mode_blob,
                    },
                ),
                None => Err(LearnError::MissingProperty),
            },
    {
        match (
            find_named(crtc, "ACTIVE"),
            find_named(crtc, "MODE_ID"),
            find_named(connector, "CRTC_ID"),
        ) {
            (Some(active), Some(mode), Some(route)) => Ok(
                Modeset {
                    crtc_id,
                    connector_id,
                    crtc_active: crtc[active].id,
                    crtc_mode_id: crtc[mode].id,
                    connector_crtc_id: connector[route].id,
                    mode_blob,
                },
            ),
            _ => Err(LearnError::MissingProperty),
        }
    }

    /// The three writes: the mode, the activation, the route.
    pub open spec fn writes(self) -> Seq<PropertyWrite> {
        seq![
            PropertyWrite {
                object_id: self.crtc_id,
                property_id: self.crtc_mode_id,
                value: self.mode_blob,
            },
            PropertyWrite {
                object_id: self.crtc_id,
                property_id: self.crtc_active,
                value: 1,
            },
            PropertyWrite {
                object_id: self.connector_id,
                property_id: self.connector_crtc_id,
                value: self.crtc_id as u64,
            },
        ]
    }

    /// Emit the modeset writes. Returns how many were written.
    pub fn emit(&self, request: &mut AtomicRequest) -> (written: usize)
        ensures
            final(request).writes@ == old(request).writes@ + self.writes(),
            written == 3,
    {
        let ghost before = request.writes@;
        request.add_property(self.crtc_id, self.crtc_mode_id, self.mode_blob);
        request.add_property(self.crtc_id, self.crtc_active, 1);
        request.add_property(self.connector_id, self.connector_crtc_id, self.crtc_id as u64);
        assert(request.writes@ =~= before + self.writes());
        3
    }

    /// The blob id backing `MODE_ID`.
    pub fn mode_blob(&self) -> (blob: u64)
        ensures
            blob == self.mode_blob,
    {
        self.mode_blob
    }
}

/// The writes of an optional modeset.
pub open spec fn modeset_writes(modeset: Option<Modeset>) -> Seq<PropertyWrite> {
    match modeset {
        Some(modeset) => modeset.writes(),
        None => Seq::empty(),
    }
}

/// The writes that detach a run of planes, in order.
pub open spec fn disables_writes(map: PlanePropertyMap, disables: Seq<u32>) -> Seq<PropertyWrite>
    decreases disables.len(),
{
    if disables.len() == 0 {
        Seq::empty()
    } else {
        disables_writes(map, disables.drop_last()) + disable_writes(map, disables.last())
    }
}

/// The writes of a plan: for each entry its layer, diffed against what the
/// plane holds, then the plane's colorimetry.
pub open spec fn plan_writes(map: PlanePropertyMap, plan: Seq<PlanePlan>) -> Seq<PropertyWrite>
    decreases plan.len(),
{
    if plan.len() == 0 {
        Seq::empty()
    } else {
        let entry = plan.last();
        plan_writes(map, plan.drop_last()) + layer_writes(
            map,
            entry.plane_id,
            entry.layer,
            entry.baseline,
        ) + color_writes(map, entry.plane_id)
    }
}

/// The writes of a built frame: the modeset if there is one, then the disables,
/// then the plan. The disables come first, so that a plane inheriting stale
/// state cannot make a valid migration look invalid.
pub open spec fn frame_writes(
    map: PlanePropertyMap,
    plan: Seq<PlanePlan>,
    disables: Seq<u32>,
    modeset: Option<Modeset>,
) -> Seq<PropertyWrite> {
    modeset_writes(modeset) + disables_writes(map, disables) + plan_writes(map, plan)
}

fn emit_disables(request: &mut AtomicRequest, map: &PlanePropertyMap, disables: &[u32])
    ensures
        final(request).writes@ == old(request).writes@ + disables_writes(*map, disables@),
{
    let ghost before = request.writes@;
    assert(before + disables_writes(*map, disables@.take(0)) =~= before);
    let mut i: usize = 0;
    while i < disables.len()
        invariant
            0 <= i <= disables@.len(),
            request.writes@ == before + disables_writes(*map, disables@.take(i as int)),
        decreases disables@.len() - i,
    {
        let ghost so_far = disables_writes(*map, disables@.take(i as int));
        assert(disables@.take(i + 1).drop_last() =~= disables@.take(i as int));
        emit_disable(request, map, disables[i]);
        assert(request.writes@ =~= before + (so_far + disable_writes(*map, disables@[i as int])));
        i += 1;
    }
    assert(disables@.take(disables@.len() as int) =~= disables@);
}

/// Emit a built frame's apply commit. Returns how many properties were written.
pub fn emit_frame(
    request: &mut AtomicRequest,
    map: &PlanePropertyMap,
    plan: &[PlanePlan],
    disables: &[u32],
    modeset: Option<&Modeset>,
) -> (written: usize)
    ensures
        final(request).writes@ == old(request).writes@ + frame_writes(
            *map,
            plan@,
            disables@,
            match modeset {
                Some(modeset) => Some(*modeset),
                None => None,
            },
        ),
        written == final(request).writes@.len() - old(request).writes@.len(),
{
    let start: usize = request.writes.len();
    let ghost before = request.writes@;
    if let Some(modeset) = modeset {
        modeset.emit(request);
    }
    emit_disables(request, map, disables);
    let ghost head = request.writes@;
    assert(head + plan_writes(*map, plan@.take(0)) =~= head);
    let mut i: usize = 0;
    while i < plan.len()
        invariant
            0 <= i <= plan@.len(),
            request.writes@ == head + plan_writes(*map, plan@.take(i as int)),
        decreases plan@.len() - i,
    {
        let ghost so_far = plan_writes(*map, plan@.take(i as int));
        assert(plan@.take(i + 1).drop_last() =~= plan@.take(i as int));
        let entry: PlanePlan = plan[i];
        emit_layer(request, map, entry.plane_id, &entry.layer, entry.baseline.as_ref());
        emit_color_props(request, map, entry.plane_id);
        assert(request.writes@ =~= head + (so_far + layer_writes(
            *map,
            entry.plane_id,
            entry.layer,
            entry.baseline,
        ) + color_writes(*map, entry.plane_id)));
        i += 1;
    }
    assert(plan@.take(plan@.len() as int) =~= plan@);
    assert(request.writes@ =~= before + frame_writes(
        *map,
        plan@,
        disables@,
        match modeset {
            Some(modeset) => Some(*modeset),
            None => None,
        },
    ));
    request.writes.len() - start
}

// --- test commits ------------------------------------------------------------

/// A layer and the plane it is tried on.
#[derive(Debug, Clone, Copy, PartialEq, Eq, Structural)]
pub struct TriedLayer {
    /// The plane.
    pub plane_id: u32,
    /// The layer's properties.
    pub layer: Layer,
}

/// Whether an assignment uses a plane.
pub open spec fn tries(assignment: Seq<TriedLayer>, plane_id: u32) -> bool {
    exists|i: int| 0 <= i < assignment.len() && (#[trigger] assignment[i]).plane_id == plane_id
}

/// The candidate planes an assignment leaves alone, in order.
pub open spec fn untried(candidates: Seq<u32>, assignment: Seq<TriedLayer>) -> Seq<u32>
    decreases candidates.len(),
{
    if candidates.len() == 0 {
        Seq::empty()
    } else {
        let before = untried(candidates.drop_last(), assignment);
        if tries(assignment, candidates.last()) {
            before
        } else {
            before.push(candidates.last())
        }
    }
}

/// The writes of every tried layer in full, in order.
pub open spec fn tried_writes(map: PlanePropertyMap, assignment: Seq<TriedLayer>) -> Seq<
    PropertyWrite,
>
    decreases assignment.len(),
{
    if assignment.len() == 0 {
        Seq::empty()
    } else {
        tried_writes(map, assignment.drop_last()) + layer_writes(
            map,
            assignment.last().plane_id,
            assignment.last().layer,
            None,
        )
    }
}

fn is_tried(assignment: &[TriedLayer], plane_id: u32) -> (tried: bool)
    ensures
        tried == tries(assignment@, plane_id),
{
    let mut i: usize = 0;
    while i < assignment.len()
        invariant
            0 <= i <= assignment@.len(),
            forall|j: int| 0 <= j < i ==> (#[trigger] assignment@[j]).plane_id != plane_id,
        decreases assignment@.len() - i,
    {
        if assignment[i].plane_id == plane_id {
            return true;
        }
        i += 1;
    }
    false
}

/// Why a commit failed.
#[derive(Debug, Clone, Copy, PartialEq, Eq, Structural)]
pub enum CommitError {
    /// The caller is not DRM master.
    NotMaster,
    /// Anything else.
    Other,
}

/// Builds the test commits that ask the kernel about an assignment.
///
/// The candidates are the planes of the CRTC that an apply commit would clear,
/// so that a test and the commit that follows it clear the same set.
#[derive(Debug)]
pub struct DeviceCommitter {
    /// Planes on this CRTC that a test may need to switch off.
    pub candidates: Vec<u32>,
    /// Writes to put before every test, while the CRTC still needs bringing up.
    pub modeset: Option<Modeset>,
    /// How many test commits have been built.
    pub commits: usize,
}

impl DeviceCommitter {
    /// A committer over the planes this CRTC could use.
    pub fn new(candidates: Vec<u32>, modeset: Option<Modeset>) -> (committer: Self)
        ensures
            committer == (DeviceCommitter { candidates, modeset, commits: 0 }),
    {
        DeviceCommitter { candidates, modeset, commits: 0 }
    }

    /// The writes of the test of an assignment: the modeset if there is one,
    /// then every untried candidate switched off, then every layer in full.
    ///
    /// Full writes: the assignment tried is not a change to the current state.
    pub open spec fn test_writes(
        &self,
        map: PlanePropertyMap,
        assignment: Seq<TriedLayer>,
    ) -> Seq<PropertyWrite> {
        modeset_writes(self.modeset) + disables_writes(map, untried(self.candidates@, assignment))
            + tried_writes(map, assignment)
    }

    /// The request that tests an assignment.
    pub fn test_assignment(&mut self, map: &PlanePropertyMap, assignment: &[TriedLayer]) -> (request:
        AtomicRequest)
        requires
            old(self).commits < usize::MAX,
        ensures
            request.writes@ == old(self).test_writes(*map, assignment@),
            *final(self) == (DeviceCommitter {
                commits: (old(self).commits + 1) as usize,
                ..*old(self)
            }),
    {
        self.commits += 1;
        let mut request = AtomicRequest::new();
        if let Some(modeset) = &self.modeset {
            modeset.emit(&mut request);
        }
        assert(request.writes@ =~= modeset_writes(self.modeset));
        let ghost head = request.writes@;
        let ghost candidates = self.candidates@;
        assert(head + disables_writes(*map, untried(candidates.take(0), assignment@)) =~= head);
        let mut i: usize = 0;
        while i < self.candidates.len()
            invariant
                0 <= i <= candidates.len(),
                candidates == self.candidates@,
                request.writes@ == head + disables_writes(
                    *map,
                    untried(candidates.take(i as int), assignment@),
                ),
            decreases candidates.len() - i,
        {
            assert(candidates.take(i + 1).drop_last() =~= candidates.take(i as int));
            let ghost left = untried(candidates.take(i as int), assignment@);
            let plane_id: u32 = self.candidates[i];
            if !is_tried(assignment, plane_id) {
                emit_disable(&mut request, map, plane_id);
                assert(left.push(plane_id).drop_last() =~= left);
                assert(request.writes@ =~= head + (disables_writes(*map, left) + disable_writes(
                    *map,
                    plane_id,
                )));
            }
            i += 1;
        }
        assert(candidates.take(candidates.len() as int) =~= candidates);
        let ghost head = request.writes@;
        assert(head + tried_writes(*map, assignment@.take(0)) =~= head);
        let mut j: usize = 0;
        while j < assignment.len()
            invariant
                0 <= j <= assignment@.len(),
                request.writes@ == head + tried_writes(*map, assignment@.take(j as int)),
            decreases assignment@.len() - j,
        {
            assert(assignment@.take(j + 1).drop_last() =~= assignment@.take(j as int));
            let ghost so_far = tried_writes(*map, assignment@.take(j as int));
            let tried: TriedLayer = assignment[j];
            emit_layer(&mut request, map, tried.plane_id, &tried.layer, None);
            assert(request.writes@ =~= head + (so_far + layer_writes(
                *map,
                tried.plane_id,
                tried.layer,
                None,
            )));
            j += 1;
        }
        assert(assignment@.take(assignment@.len() as int) =~= assignment@);
        assert(request.writes@ =~= old(self).test_writes(*map, assignment@));
        request
    }
}

/// What a test commit's answer means to the search that issued it.
pub fn test_verdict(result: &Result<(), CommitError>) -> (verdict: Result<(), TestFailure>)
    ensures
        verdict == match *result {
            Ok(()) => Ok::<(), TestFailure>(()),
            Err(CommitError::NotMaster) => Err(TestFailure::NotMaster),
            Err(CommitError::Other) => Err(TestFailure::Rejected),
        },
{
    match result {
        Ok(()) => Ok(()),
        Err(CommitError::NotMaster) => Err(TestFailure::NotMaster),
        Err(CommitError::Other) => Err(TestFailure::Rejected),
    }
}

/// Classify a real commit's outcome.
pub fn classify(result: &Result<(), CommitError>) -> (outcome: KernelResult)
    ensures
        outcome == match *result {
            Ok(()) => KernelResult::Applied,
            Err(CommitError::NotMaster) => KernelResult::NotMaster,
            Err(CommitError::Other) => KernelResult::Rejected,
        },
{
    match result {
        Ok(()) => KernelResult::Applied,
        Err(CommitError::NotMaster) => KernelResult::NotMaster,
        Err(CommitError::Other) => KernelResult::Rejected,
    }
}

// --- acquire fences ----------------------------------------------------------

/// What becomes of a buffer's render-done fence.
#[derive(Debug, Clone, Copy, PartialEq, Eq, Structural)]
pub enum FenceAction {
    /// The kernel waits: the fence is written to this property.
    Arm {
        /// The plane's `IN_FENCE_FD`.
        property_id: u32,
    },
    /// The plane takes no fence, so the wait happens before the commit.
    CpuWait,
}

/// Whether a plane takes the fence or the CPU waits for it.
pub fn fence_action(property_id: Option<u32>) -> (action: FenceAction)
    ensures
        action == match property_id {
            Some(property_id) => FenceAction::Arm { property_id },
            None => FenceAction::CpuWait,
        },
{
    match property_id {
        Some(property_id) => FenceAction::Arm { property_id },
        None => FenceAction::CpuWait,
    }
}

/// The descriptor of the fence a layer's buffer carries this frame, if it
/// carries one.
pub open spec fn fence_of(acquisitions: Seq<Acquisition>, layer: LayerId) -> Option<i32>
    decreases acquisitions.len(),
{
    if acquisitions.len() == 0 {
        None
    } else if acquisitions[0].layer == layer {
        match acquisitions[0].buffer.acquire_fence {
            Some(fence) => fence.fd,
            None => None,
        }
    } else {
        fence_of(acquisitions.skip(1), layer)
    }
}

pub(crate) fn find_fence(acquisitions: &Vec<Acquisition>, layer: LayerId) -> (fd: Option<i32>)
    ensures
        fd == fence_of(acquisitions@, layer),
{
    let mut i: usize = 0;
    assert(acquisitions@.skip(0) =~= acquisitions@);
    while i < acquisitions.len()
        invariant
            0 <= i <= acquisitions@.len(),
            fence_of(acquisitions@, layer) == fence_of(acquisitions@.skip(i as int), layer),
        decreases acquisitions@.len() - i,
    {
        if acquisitions[i].layer == layer {
            return match &acquisitions[i].buffer.acquire_fence {
                Some(fence) => fence.as_fd(),
                None => None,
            };
        }
        assert(acquisitions@.skip(i as int).skip(1) =~= acquisitions@.skip(i + 1));
        i += 1;
    }
    None
}

/// The fence writes of a plan: one for each entry whose buffer carries a fence
/// its plane takes, in order.
pub open spec fn fence_writes(
    map: PlanePropertyMap,
    acquisitions: Seq<Acquisition>,
    plan: Seq<PlanePlan>,
) -> Seq<PropertyWrite>
    decreases plan.len(),
{
    if plan.len() == 0 {
        Seq::empty()
    } else {
        let before = fence_writes(map, acquisitions, plan.drop_last());
        let entry = plan.last();
        match (
            fence_of(acquisitions, entry.layer_id),
            map.id_of(entry.plane_id, PropTag::InFenceFd),
        ) {
            (Some(fd), Some(property_id)) => before.push(
                PropertyWrite {
                    object_id: entry.plane_id,
                    property_id,
                    value: unsigned_slot(fd),
                },
            ),
            _ => before,
        }
    }
}

/// The fences of a plan that their planes do not take, in order.
pub open spec fn cpu_waits(
    map: PlanePropertyMap,
    acquisitions: Seq<Acquisition>,
    plan: Seq<PlanePlan>,
) -> Seq<i32>
    decreases plan.len(),
{
    if plan.len() == 0 {
        Seq::empty()
    } else {
        let before = cpu_waits(map, acquisitions, plan.drop_last());
        let entry = plan.last();
        match (
            fence_of(acquisitions, entry.layer_id),
            map.id_of(entry.plane_id, PropTag::InFenceFd),
        ) {
            (Some(fd), None) => before.push(fd),
            _ => before,
        }
    }
}

/// Give every fenced buffer of a built frame its wait.
///
/// Where the plane takes the fence it is written to the request. Where it does
/// not, a real commit has to wait for it first: those descriptors are returned,
/// in order. A test commit waits for nothing. The report counts both.
pub fn arm_acquire_fences(
    build: &mut FrameBuild,
    request: &mut AtomicRequest,
    map: &PlanePropertyMap,
    is_real: bool,
) -> (waits: Vec<i32>)
    requires
        old(build).report.in_fences_armed + old(build).plan@.len() <= usize::MAX,
        old(build).report.in_fence_cpu_waits + old(build).plan@.len() <= usize::MAX,
    ensures
        final(request).writes@ == old(request).writes@ + fence_writes(
            *map,
            old(build).acquisitions@,
            old(build).plan@,
        ),
        waits@ == if is_real {
            cpu_waits(*map, old(build).acquisitions@, old(build).plan@)
        } else {
            Seq::empty()
        },
        *final(build) == (FrameBuild {
            report: CommitReport {
                in_fences_armed: (old(build).report.in_fences_armed + fence_writes(
                    *map,
                    old(build).acquisitions@,
                    old(build).plan@,
                ).len()) as usize,
                in_fence_cpu_waits: (old(build).report.in_fence_cpu_waits + waits@.len()) as usize,
                ..old(build).report
            },
            ..*old(build)
        }),
{
    let ghost before = request.writes@;
    let ghost acquisitions = build.acquisitions@;
    let ghost plan = build.plan@;
    let mut armed: usize = 0;
    let mut waits: Vec<i32> = Vec::new();
    assert(before + fence_writes(*map, acquisitions, plan.take(0)) =~= before);
    let mut i: usize = 0;
    while i < build.plan.len()
        invariant
            0 <= i <= plan.len(),
            plan == build.plan@,
            acquisitions == build.acquisitions@,
            request.writes@ == before + fence_writes(*map, acquisitions, plan.take(i as int)),
            armed == fence_writes(*map, acquisitions, plan.take(i as int)).len(),
            armed <= i,
            waits@ == if is_real {
                cpu_waits(*map, acquisitions, plan.take(i as int))
            } else {
                Seq::empty()
            },
            waits@.len() <= i,
            *build == *old(build),
        decreases plan.len() - i,
    {
        assert(plan.take(i + 1).drop_last() =~= plan.take(i as int));
        let ghost so_far = fence_writes(*map, acquisitions, plan.take(i as int));
        let entry: PlanePlan = build.plan[i];
        if let Some(fd) = find_fence(&build.acquisitions, entry.layer_id) {
            match fence_action(map.property_id(entry.plane_id, PropTag::InFenceFd)) {
                FenceAction::Arm { property_id } => {
                    request.add_property(entry.plane_id, property_id, to_unsigned_slot(fd));
                    assert(request.writes@ =~= before + so_far.push(
                        PropertyWrite {
                            object_id: entry.plane_id,
                            property_id,
                            value: unsigned_slot(fd),
                        },
                    ));
                    armed += 1;
                },
                FenceAction::CpuWait => {
                    if is_real {
                        waits.push(fd);
                    }
                },
            }
        }
        i += 1;
    }
    assert(plan.take(plan.len() as int) =~= plan);
    build.report.in_fences_armed = build.report.in_fences_armed + armed;
    build.report.in_fence_cpu_waits = build.report.in_fence_cpu_waits + waits.len();
    waits
}

// --- damage ------------------------------------------------------------------

/// One damage clip, as the kernel reads it: two corners, the second outside.
#[derive(Debug, Clone, Copy, PartialEq, Eq, Structural)]
pub struct ClipRect {
    /// Left edge.
    pub x1: i32,
    /// Top edge.
    pub y1: i32,
    /// Right edge, outside the clip.
    pub x2: i32,
    /// Bottom edge, outside the clip.
    pub y2: i32,
}

/// The clips one plane is to be given.
#[derive(Debug)]
pub struct PlaneDamage {
    /// The plane.
    pub plane_id: u32,
    /// Its damage clip property.
    pub property_id: u32,
    /// The clips, to be made into a blob.
    pub clips: Vec<ClipRect>,
}

/// The far edge of a span, as far as an `i32` goes.
pub open spec fn far_edge(start: i32, size: u32) -> i32 {
    if start + size <= i32::MAX {
        (start + size) as i32
    } else {
        i32::MAX
    }
}

/// The clip a damaged region makes.
pub open spec fn clip_of(damage: DamageRect) -> ClipRect {
    ClipRect {
        x1: damage.x,
        y1: damage.y,
        x2: far_edge(damage.x, damage.w),
        y2: far_edge(damage.y, damage.h),
    }
}

/// The clips of a buffer's damage, in order. A region with no area makes none.
pub open spec fn clips_of(damage: Seq<DamageRect>) -> Seq<ClipRect>
    decreases damage.len(),
{
    if damage.len() == 0 {
        Seq::empty()
    } else {
        let before = clips_of(damage.drop_last());
        if damage.last().w > 0 && damage.last().h > 0 {
            before.push(clip_of(damage.last()))
        } else {
            before
        }
    }
}

/// The clips a layer's buffer asks for this frame: none where more regions are
/// damaged than a frame carries.
pub open spec fn damage_of(acquisitions: Seq<Acquisition>, layer: LayerId) -> Seq<ClipRect>
    decreases acquisitions.len(),
{
    if acquisitions.len() == 0 {
        Seq::empty()
    } else if acquisitions[0].layer == layer {
        if acquisitions[0].buffer.damage@.len() <= MAX_DAMAGE {
            clips_of(acquisitions[0].buffer.damage@)
        } else {
            Seq::empty()
        }
    } else {
        damage_of(acquisitions.skip(1), layer)
    }
}

/// The damage of a plan as plane, property and clips: one for each entry whose
/// buffer has some and whose plane takes clips, in order.
pub open spec fn plan_damage(
    map: PlanePropertyMap,
    acquisitions: Seq<Acquisition>,
    plan: Seq<PlanePlan>,
) -> Seq<(u32, u32, Seq<ClipRect>)>
    decreases plan.len(),
{
    if plan.len() == 0 {
        Seq::empty()
    } else {
        let before = plan_damage(map, acquisitions, plan.drop_last());
        let entry = plan.last();
        let clips = damage_of(acquisitions, entry.layer_id);
        if clips.len() > 0 && map.damage_clips@.contains_key(entry.plane_id) {
            before.push((entry.plane_id, map.damage_clips@[entry.plane_id], clips))
        } else {
            before
        }
    }
}

/// What a list of plane damage holds.
pub open spec fn damage_views(damage: Seq<PlaneDamage>) -> Seq<(u32, u32, Seq<ClipRect>)> {
    damage.map_values(|plane: PlaneDamage| (plane.plane_id, plane.property_id, plane.clips@))
}

fn reach(start: i32, size: u32) -> (end: i32)
    ensures
        end == far_edge(start, size),
{
    let end: i64 = start as i64 + size as i64;
    if end <= i32::MAX as i64 {
        end as i32
    } else {
        i32::MAX
    }
}

fn clip_all(damage: &Vec<DamageRect>) -> (clips: Vec<ClipRect>)
    ensures
        clips@ == clips_of(damage@),
{
    let mut clips: Vec<ClipRect> = Vec::new();
    let mut i: usize = 0;
    while i < damage.len()
        invariant
            0 <= i <= damage@.len(),
            clips@ == clips_of(damage@.take(i as int)),
        decreases damage@.len() - i,
    {
        assert(damage@.take(i + 1).drop_last() =~= damage@.take(i as int));
        let rect: DamageRect = damage[i];
        if rect.w > 0 && rect.h > 0 {
            clips.push(
                ClipRect {
                    x1: rect.x,
                    y1: rect.y,
                    x2: reach(rect.x, rect.w),
                    y2: reach(rect.y, rect.h),
                },
            );
        }
        i += 1;
    }
    assert(damage@.take(damage@.len() as int) =~= damage@);
    clips
}

fn find_damage(acquisitions: &Vec<Acquisition>, layer: LayerId) -> (clips: Vec<ClipRect>)
    ensures
        clips@ == damage_of(acquisitions@, layer),
{
    let mut i: usize = 0;
    assert(acquisitions@.skip(0) =~= acquisitions@);
    while i < acquisitions.len()
        invariant
            0 <= i <= acquisitions@.len(),
            damage_of(acquisitions@, layer) == damage_of(acquisitions@.skip(i as int), layer),
        decreases acquisitions@.len() - i,
    {
        if acquisitions[i].layer == layer {
            if acquisitions[i].buffer.damage.len() <= MAX_DAMAGE {
                return clip_all(&acquisitions[i].buffer.damage);
            }
            return Vec::new();
        }
        assert(acquisitions@.skip(i as int).skip(1) =~= acquisitions@.skip(i + 1));
        i += 1;
    }
    Vec::new()
}

/// List the damage a built frame can hand to the kernel.
///
/// A buffer with no damage stated, with too much of it, or on a plane that
/// takes no clips, is shown in full and is not listed.
pub fn list_damage(build: &FrameBuild, map: &PlanePropertyMap) -> (damage: Vec<PlaneDamage>)
    ensures
        damage_views(damage@) == plan_damage(*map, build.acquisitions@, build.plan@),
{
    let ghost plan = build.plan@;
    let mut damage: Vec<PlaneDamage> = Vec::new();
    let mut i: usize = 0;
    assert(damage_views(damage@) =~= plan_damage(*map, build.acquisitions@, plan.take(0)));
    while i < build.plan.len()
        invariant
            0 <= i <= plan.len(),
            plan == build.plan@,
            damage_views(damage@) == plan_damage(*map, build.acquisitions@, plan.take(i as int)),
        decreases plan.len() - i,
    {
        assert(plan.take(i + 1).drop_last() =~= plan.take(i as int));
        let entry: PlanePlan = build.plan[i];
        let clips: Vec<ClipRect> = find_damage(&build.acquisitions, entry.layer_id);
        let ghost before = damage@;
        if clips.len() > 0 {
            if let Some(property_id) = map.damage_clips.get(&entry.plane_id) {
                let property_id: u32 = *property_id;
                damage.push(PlaneDamage { plane_id: entry.plane_id, property_id, clips });
                assert(damage_views(damage@) =~= damage_views(before).push(
                    (entry.plane_id, property_id, clips@),
                ));
            }
        }
        i += 1;
    }
    assert(plan.take(plan.len() as int) =~= plan);
    damage
}

/// The writes that hand damage to its planes, one blob each.
pub open spec fn damage_writes(damage: Seq<PlaneDamage>, blobs: Seq<u64>) -> Seq<PropertyWrite> {
    damage.map(
        |i: int, plane: PlaneDamage|
            PropertyWrite {
                object_id: plane.plane_id,
                property_id: plane.property_id,
                value: blobs[i],
            },
    )
}

/// Hand a built frame's damage to its planes, given the blob made of each
/// plane's clips. The report counts them.
pub fn arm_damage(
    build: &mut FrameBuild,
    request: &mut AtomicRequest,
    damage: &Vec<PlaneDamage>,
    blobs: &Vec<u64>,
)
    requires
        blobs@.len() == damage@.len(),
    ensures
        final(request).writes@ == old(request).writes@ + damage_writes(damage@, blobs@),
        *final(build) == (FrameBuild {
            report: CommitReport { damaged_layers: damage@.len() as usize, ..old(build).report },
            ..*old(build)
        }),
{
    let ghost before = request.writes@;
    let mut i: usize = 0;
    assert(before + damage_writes(damage@, blobs@).take(0) =~= before);
    while i < damage.len()
        invariant
            0 <= i <= damage@.len(),
            blobs@.len() == damage@.len(),
            request.writes@ == before + damage_writes(damage@, blobs@).take(i as int),
        decreases damage@.len() - i,
    {
        request.add_property(damage[i].plane_id, damage[i].property_id, blobs[i]);
        assert(request.writes@ =~= before + damage_writes(damage@, blobs@).take(i + 1));
        i += 1;
    }
    assert(damage_writes(damage@, blobs@).take(damage@.len() as int) =~= damage_writes(
        damage@,
        blobs@,
    ));
    build.report.damaged_layers = damage.len();
}

// --- what a request came to --------------------------------------------------

/// Whether a write attaches a framebuffer to a plane.
pub open spec fn attaches(map: PlanePropertyMap, write: PropertyWrite) -> bool {
    map.id_of(write.object_id, PropTag::FbId) == Some(write.property_id) && write.value != 0
}

/// How many writes attach a framebuffer.
pub open spec fn attached_count(map: PlanePropertyMap, writes: Seq<PropertyWrite>) -> int
    decreases writes.len(),
{
    if writes.len() == 0 {
        0
    } else {
        attached_count(map, writes.drop_last()) + if attaches(map, writes.last()) {
            1int
        } else {
            0
        }
    }
}

/// Record in a built frame's report what its request has come to: every property
/// enqueued, and how many of them attach a framebuffer.
pub fn record_emission(build: &mut FrameBuild, request: &AtomicRequest, map: &PlanePropertyMap)
    ensures
        *final(build) == (FrameBuild {
            report: CommitReport {
                properties_written: request.writes@.len() as usize,
                fbs_attached: attached_count(*map, request.writes@) as usize,
                ..old(build).report
            },
            ..*old(build)
        }),
{
    let ghost writes = request.writes@;
    let mut attached: usize = 0;
    let mut i: usize = 0;
    while i < request.writes.len()
        invariant
            0 <= i <= writes.len(),
            writes == request.writes@,
            attached == attached_count(*map, writes.take(i as int)),
            attached <= i,
        decreases writes.len() - i,
    {
        assert(writes.take(i + 1).drop_last() =~= writes.take(i as int));
        let write: PropertyWrite = request.writes[i];
        if map.property_id(write.object_id, PropTag::FbId) == Some(write.property_id)
            && write.value != 0 {
            attached += 1;
        }
        i += 1;
    }
    assert(writes.take(writes.len() as int) =~= writes);
    build.report.properties_written = request.writes.len();
    build.report.fbs_attached = attached;
}

// --- laws --------------------------------------------------------------------

proof fn lemma_nth_covers(tag: PropTag)
    ensures
        0 <= tag.index() < TAG_COUNT,
        PropTag::nth(tag.index()) == tag,
{
}

proof fn lemma_tag_writes_are_tag_writes(
    map: PlanePropertyMap,
    plane_id: u32,
    layer: Layer,
    baseline: Option<PropertySnapshot>,
    upto: int,
    write: PropertyWrite,
)
    requires
        0 <= upto <= TAG_COUNT,
    ensures
        tag_writes(map, plane_id, layer, baseline, upto).contains(write) <==> exists|place: int|
            0 <= place < upto && tag_write(
                map,
                plane_id,
                layer,
                baseline,
                #[trigger] PropTag::nth(place),
            ) == Some(write),
    decreases upto,
{
    if upto > 0 {
        lemma_tag_writes_are_tag_writes(map, plane_id, layer, baseline, upto - 1, write);
        let before = tag_writes(map, plane_id, layer, baseline, upto - 1);
        let after = tag_writes(map, plane_id, layer, baseline, upto);
        let last = tag_write(map, plane_id, layer, baseline, PropTag::nth(upto - 1));
        if after.contains(write) {
            let k = choose|k: int| 0 <= k < after.len() && after[k] == write;
            if k < before.len() {
                assert(before[k] == write);
            } else {
                assert(last == Some(write));
            }
        }
        if exists|place: int|
            0 <= place < upto && tag_write(
                map,
                plane_id,
                layer,
                baseline,
                #[trigger] PropTag::nth(place),
            ) == Some(write) {
            let place = choose|place: int|
                0 <= place < upto && tag_write(
                    map,
                    plane_id,
                    layer,
                    baseline,
                    #[trigger] PropTag::nth(place),
                ) == Some(write);
            if place == upto - 1 {
                assert(after[before.len() as int] == write);
            } else {
                assert(before.contains(write));
                let k = choose|k: int| 0 <= k < before.len() && before[k] == write;
                assert(after[k] == write);
            }
        }
    }
}

/// A layer's writes are exactly those of its tags: each goes to the plane, to a
/// property the plane takes, and carries the value the layer set.
pub proof fn law_layer_writes_are_its_tags(
    map: PlanePropertyMap,
    plane_id: u32,
    layer: Layer,
    baseline: Option<PropertySnapshot>,
    write: PropertyWrite,
)
    ensures
        layer_writes(map, plane_id, layer, baseline).contains(write) <==> exists|tag: PropTag|
            #[trigger] tag_write(map, plane_id, layer, baseline, tag) == Some(write),
{
    lemma_tag_writes_are_tag_writes(map, plane_id, layer, baseline, TAG_COUNT as int, write);
    if exists|tag: PropTag| #[trigger]
        tag_write(map, plane_id, layer, baseline, tag) == Some(write) {
        let tag = choose|tag: PropTag| #[trigger]
            tag_write(map, plane_id, layer, baseline, tag) == Some(write);
        lemma_nth_covers(tag);
        assert(tag_write(map, plane_id, layer, baseline, PropTag::nth(tag.index())) == Some(write));
    }
}

/// A frame that hands a plane the properties it already holds writes at most
/// its framebuffer and its fence.
pub proof fn law_steady_layer_writes_only_the_framebuffer(
    map: PlanePropertyMap,
    plane_id: u32,
    layer: Layer,
    tag: PropTag,
)
    requires
        tag != PropTag::FbId,
        tag != PropTag::InFenceFd,
    ensures
        tag_write(map, plane_id, layer, Some(layer.properties), tag) is None,
{
}

/// A framebuffer the scene owns is re-attached on every commit, changed or not.
pub proof fn law_framebuffer_is_always_attached(
    map: PlanePropertyMap,
    plane_id: u32,
    layer: Layer,
    baseline: Option<PropertySnapshot>,
)
    requires
        !layer.externally_bound,
        layer.properties.fb_id is Some,
        map.id_of(plane_id, PropTag::FbId) is Some,
    ensures
        tag_write(map, plane_id, layer, baseline, PropTag::FbId) == Some(
            PropertyWrite {
                object_id: plane_id,
                property_id: map.id_of(plane_id, PropTag::FbId)->0,
                value: layer.properties.fb_id->0,
            },
        ),
{
}

/// A property the plane refuses, and a hint that is no property at all, is
/// never resolved to an id that could be written.
pub proof fn law_only_writable_properties_resolve(properties: Seq<PropertyInfo>, tag: PropTag)
    ensures
        tag.is_hint_spec() ==> writable_ids(properties).value(tag) is None,
        frozen_ids(properties).value(tag) is Some ==> writable_ids(properties).value(tag) is None,
{
    lemma_ids_by_tag(properties, tag);
}

/// A clamped stacking position lies in the plane's range, is unchanged if it
/// already did, and clamping again changes nothing.
pub proof fn law_clamped_zpos_is_in_range(map: PlanePropertyMap, plane_id: u32, zpos: u64)
    requires
        map.zpos_range@.contains_key(plane_id),
        map.zpos_range@[plane_id].0 <= map.zpos_range@[plane_id].1,
    ensures
        map.zpos_range@[plane_id].0 <= map.clamped(plane_id, zpos) <= map.zpos_range@[plane_id].1,
        map.zpos_range@[plane_id].0 <= zpos <= map.zpos_range@[plane_id].1 ==> map.clamped(
            plane_id,
            zpos,
        ) == zpos,
        map.clamped(plane_id, map.clamped(plane_id, zpos)) == map.clamped(plane_id, zpos),
{
}

/// Colorimetry the kernel has taken is not written again.
pub proof fn law_color_is_written_once(before: PlanePropertyMap, after: PlanePropertyMap, plane_id: u32)
    requires
        after.color_committed@ == before.color_committed@.insert(plane_id),
    ensures
        color_writes(after, plane_id).len() == 0,
{
}

/// Every fenced buffer on a plane is waited for one way or the other, never
/// both: the kernel's waits and the CPU's add up to the fences carried.
pub proof fn law_every_fence_is_waited_for(
    map: PlanePropertyMap,
    acquisitions: Seq<Acquisition>,
    plan: Seq<PlanePlan>,
)
    ensures
        fence_writes(map, acquisitions, plan).len() + cpu_waits(map, acquisitions, plan).len()
            == plan.filter(|entry: PlanePlan| fence_of(acquisitions, entry.layer_id) is Some).len(),
    decreases plan.len(),
{
    let fenced = |entry: PlanePlan| fence_of(acquisitions, entry.layer_id) is Some;
    reveal(Seq::filter);
    if plan.len() > 0 {
        law_every_fence_is_waited_for(map, acquisitions, plan.drop_last());
    }
}

/// Whether a property is the first of its name.
pub open spec fn is_named(properties: Seq<PropertyInfo>, name: Seq<char>, i: int) -> bool {
    0 <= i < properties.len() && properties[i].name@ == name && forall|j: int|
        0 <= j < i ==> (#[trigger] properties[j]).name@ != name
}

/// A property is looked up by the first with its name.
pub proof fn law_the_first_of_a_name_is_found(
    properties: Seq<PropertyInfo>,
    name: Seq<char>,
    i: int,
)
    ensures
        is_named(properties, name, i) ==> place_named(properties, name) == Some(i),
        place_named(properties, name) matches Some(place) ==> is_named(properties, name, place),
        place_named(properties, name) is None <==> forall|j: int|
            0 <= j < properties.len() ==> (#[trigger] properties[j]).name@ != name,
    decreases properties.len(),
{
    if is_named(properties, name, i) {
        lemma_place_named(properties, name, i);
    }
    if properties.len() > 0 {
        let rest = properties.skip(1);
        assert forall|j: int| 0 <= j < rest.len() implies #[trigger] rest[j] == properties[j + 1] by {}
        if properties[0].name@ == name {
            assert(is_named(properties, name, 0));
        } else {
            law_the_first_of_a_name_is_found(rest, name, 0);
            match place_named(rest, name) {
                Some(place) => {
                    assert(is_named(properties, name, place + 1)) by {
                        assert forall|j: int| 0 <= j < place + 1 implies (
                        #[trigger] properties[j]).name@ != name by {
                            if j > 0 {
                                assert(rest[j - 1].name@ != name);
                            }
                        }
                    }
                },
                None => {
                    assert forall|j: int| 0 <= j < properties.len() implies (
                    #[trigger] properties[j]).name@ != name by {
                        if j > 0 {
                            assert(rest[j - 1].name@ != name);
                        }
                    }
                },
            }
        }
    }
}

/// Whether an enum entry is the first of its name.
pub open spec fn is_entry(entries: Seq<EnumEntry>, name: Seq<char>, i: int) -> bool {
    0 <= i < entries.len() && entries[i].name@ == name && forall|j: int|
        0 <= j < i ==> (#[trigger] entries[j]).name@ != name
}

proof fn lemma_entry_named(entries: Seq<EnumEntry>, name: Seq<char>, i: int)
    ensures
        is_entry(entries, name, i) ==> entry_named(entries, name) == Some(entries[i].value),
        entry_named(entries, name) is None <==> forall|j: int|
            0 <= j < entries.len() ==> (#[trigger] entries[j]).name@ != name,
    decreases entries.len(),
{
    if entries.len() > 0 {
        let rest = entries.skip(1);
        assert forall|j: int| 0 <= j < rest.len() implies #[trigger] rest[j] == entries[j + 1] by {}
        if entries[0].name@ == name {
            if is_entry(entries, name, i) && i > 0 {
                assert(entries[0].name@ != name);
            }
        } else {
            lemma_entry_named(rest, name, i - 1);
            if is_entry(entries, name, i) {
                assert(is_entry(rest, name, i - 1)) by {
                    assert forall|j: int| 0 <= j < i - 1 implies (#[trigger] rest[j]).name@
                        != name by {
                        assert(entries[j + 1].name@ != name);
                    }
                }
            }
            if entry_named(rest, name) is None {
                assert forall|j: int| 0 <= j < entries.len() implies (#[trigger] entries[j]).name@
                    != name by {
                    if j > 0 {
                        assert(rest[j - 1].name@ != name);
                    }
                }
            }
        }
    }
}

/// A plane learned from what it exposes resolves a tag to the id of the first
/// property of that name if it takes writes, and says it is immutable if it does
/// not; the two hints resolve to nothing. What it knew of other planes stays.
pub proof fn law_a_learned_plane_resolves_its_properties(
    before: PlanePropertyMap,
    plane_id: u32,
    properties: Seq<PropertyInfo>,
    after: PlanePropertyMap,
    tag: PropTag,
    other: u32,
)
    requires
        learned_plane(before, plane_id, properties, after),
    ensures
        forall|i: int| #[trigger]
            is_named(properties, tag.name_spec(), i) && tag != PropTag::PixelFormat && tag
                != PropTag::FbModifier ==> {
                &&& !properties[i].immutable ==> after.id_of(plane_id, tag) == Some(properties[i].id)
                &&& properties[i].immutable ==> after.id_of(plane_id, tag) is None
                    && after.immutable@[plane_id].value(tag) is Some
            },
        (forall|j: int|
            0 <= j < properties.len() ==> (#[trigger] properties[j]).name@ != tag.name_spec())
            ==> after.id_of(plane_id, tag) is None && after.immutable@[plane_id].value(tag) is None,
        tag == PropTag::PixelFormat || tag == PropTag::FbModifier ==> after.id_of(plane_id, tag)
            is None,
        other != plane_id ==> after.id_of(other, tag) == before.id_of(other, tag),
{
    lemma_ids_by_tag(properties, tag);
    law_the_first_of_a_name_is_found(properties, tag.name_spec(), 0);
    assert forall|i: int| #[trigger]
        is_named(properties, tag.name_spec(), i) && tag != PropTag::PixelFormat && tag
            != PropTag::FbModifier implies {
        &&& !properties[i].immutable ==> after.id_of(plane_id, tag) == Some(properties[i].id)
        &&& properties[i].immutable ==> after.id_of(plane_id, tag) is None
            && after.immutable@[plane_id].value(tag) is Some
    } by {
        law_the_first_of_a_name_is_found(properties, tag.name_spec(), i);
    }
}

/// A learned plane's stacking range, damage property and colorimetry are those of
/// the properties that bear their names: BT.709 in limited range.
pub proof fn law_a_learned_plane_knows_its_extras(
    before: PlanePropertyMap,
    plane_id: u32,
    properties: Seq<PropertyInfo>,
    after: PlanePropertyMap,
)
    requires
        learned_plane(before, plane_id, properties, after),
    ensures
        forall|i: int| #[trigger]
            is_named(properties, "zpos"@, i) && properties[i].range is Some
                ==> after.zpos_range@.contains_key(plane_id) && after.zpos_range@[plane_id]
                == properties[i].range->0,
        forall|i: int| #[trigger]
            is_named(properties, "FB_DAMAGE_CLIPS"@, i) && !properties[i].immutable
                ==> after.damage_clips@.contains_key(plane_id) && after.damage_clips@[plane_id]
                == properties[i].id,
        forall|i: int, j: int, e: int, r: int|
            #![trigger is_named(properties, "COLOR_ENCODING"@, i), is_named(properties, "COLOR_RANGE"@, j), is_entry(properties[i].entries@, "ITU-R BT.709 YCbCr"@, e), is_entry(properties[j].entries@, "YCbCr limited range"@, r)]
            is_named(properties, "COLOR_ENCODING"@, i) && is_named(properties, "COLOR_RANGE"@, j)
                && is_entry(properties[i].entries@, "ITU-R BT.709 YCbCr"@, e) && is_entry(
                properties[j].entries@,
                "YCbCr limited range"@,
                r,
            ) ==> after.color@.contains_key(plane_id) && after.color@[plane_id] == (ColorProps {
                encoding_id: properties[i].id,
                encoding_value: properties[i].entries@[e].value,
                range_id: properties[j].id,
                range_value: properties[j].entries@[r].value,
            }),
        after.color_committed@ == before.color_committed@,
{
    assert forall|i: int| #[trigger]
        is_named(properties, "zpos"@, i) && properties[i].range is Some
            implies after.zpos_range@.contains_key(plane_id) && after.zpos_range@[plane_id]
        == properties[i].range->0 by {
        law_the_first_of_a_name_is_found(properties, "zpos"@, i);
    }
    assert forall|i: int| #[trigger]
        is_named(properties, "FB_DAMAGE_CLIPS"@, i) && !properties[i].immutable
            implies after.damage_clips@.contains_key(plane_id) && after.damage_clips@[plane_id]
        == properties[i].id by {
        law_the_first_of_a_name_is_found(properties, "FB_DAMAGE_CLIPS"@, i);
    }
    assert forall|i: int, j: int, e: int, r: int|
        #![trigger is_named(properties, "COLOR_ENCODING"@, i), is_named(properties, "COLOR_RANGE"@, j), is_entry(properties[i].entries@, "ITU-R BT.709 YCbCr"@, e), is_entry(properties[j].entries@, "YCbCr limited range"@, r)]
        is_named(properties, "COLOR_ENCODING"@, i) && is_named(properties, "COLOR_RANGE"@, j)
            && is_entry(properties[i].entries@, "ITU-R BT.709 YCbCr"@, e) && is_entry(
            properties[j].entries@,
            "YCbCr limited range"@,
            r,
        ) implies after.color@.contains_key(plane_id) && after.color@[plane_id] == (ColorProps {
        encoding_id: properties[i].id,
        encoding_value: properties[i].entries@[e].value,
        range_id: properties[j].id,
        range_value: properties[j].entries@[r].value,
    }) by {
        law_the_first_of_a_name_is_found(properties, "COLOR_ENCODING"@, i);
        law_the_first_of_a_name_is_found(properties, "COLOR_RANGE"@, j);
        lemma_entry_named(properties[i].entries@, "ITU-R BT.709 YCbCr"@, e);
        lemma_entry_named(properties[j].entries@, "YCbCr limited range"@, r);
    }
}

/// A plane with both colorimetry properties that lacks an entry the scene asks
/// for cannot be learned; one that lacks a property has no colorimetry.
pub proof fn law_colorimetry_needs_its_entries(properties: Seq<PropertyInfo>, i: int, j: int)
    ensures
        is_named(properties, "COLOR_ENCODING"@, i) && is_named(properties, "COLOR_RANGE"@, j) && ((
        forall|e: int|
            0 <= e < properties[i].entries@.len() ==> (
            #[trigger] properties[i].entries@[e]).name@ != "ITU-R BT.709 YCbCr"@) || (forall|e: int|
            0 <= e < properties[j].entries@.len() ==> (
            #[trigger] properties[j].entries@[e]).name@ != "YCbCr limited range"@)) ==> color_of(
            properties,
        ) == Err::<Option<ColorProps>, LearnError>(LearnError::MissingEnumEntry),
        (forall|k: int|
            0 <= k < properties.len() ==> (#[trigger] properties[k]).name@ != "COLOR_ENCODING"@) || (
        forall|k: int|
            0 <= k < properties.len() ==> (#[trigger] properties[k]).name@ != "COLOR_RANGE"@)
            ==> color_of(properties) == Ok::<Option<ColorProps>, LearnError>(None),
{
    law_the_first_of_a_name_is_found(properties, "COLOR_ENCODING"@, i);
    law_the_first_of_a_name_is_found(properties, "COLOR_RANGE"@, j);
    if is_named(properties, "COLOR_ENCODING"@, i) && is_named(properties, "COLOR_RANGE"@, j) {
        lemma_entry_named(properties[i].entries@, "ITU-R BT.709 YCbCr"@, 0);
        lemma_entry_named(properties[j].entries@, "YCbCr limited range"@, 0);
    }
}

/// A modeset resolves to the CRTC's `ACTIVE` and `MODE_ID` and the connector's
/// `CRTC_ID`, and to nothing where one of them is missing.
pub proof fn law_a_modeset_resolves_by_name(
    crtc: Seq<PropertyInfo>,
    connector: Seq<PropertyInfo>,
    active: int,
    mode: int,
    route: int,
)
    ensures
        is_named(crtc, "ACTIVE"@, active) && is_named(crtc, "MODE_ID"@, mode) && is_named(
            connector,
            "CRTC_ID"@,
            route,
        ) ==> modeset_ids(crtc, connector) == Some(
            (crtc[active].id, crtc[mode].id, connector[route].id),
        ),
        (forall|j: int| 0 <= j < crtc.len() ==> (#[trigger] crtc[j]).name@ != "ACTIVE"@)
            ==> modeset_ids(crtc, connector) is None,
        (forall|j: int| 0 <= j < crtc.len() ==> (#[trigger] crtc[j]).name@ != "MODE_ID"@)
            ==> modeset_ids(crtc, connector) is None,
        (forall|j: int| 0 <= j < connector.len() ==> (#[trigger] connector[j]).name@ != "CRTC_ID"@)
            ==> modeset_ids(crtc, connector) is None,
{
    law_the_first_of_a_name_is_found(crtc, "ACTIVE"@, active);
    law_the_first_of_a_name_is_found(crtc, "MODE_ID"@, mode);
    law_the_first_of_a_name_is_found(connector, "CRTC_ID"@, route);
}

/// A clamped stacking position is the nearest the plane has, and a plane that
/// states no range is given what was asked.
pub proof fn law_clamping_goes_to_the_nearest(
    map: PlanePropertyMap,
    plane_id: u32,
    zpos: u64,
    other: u64,
)
    ensures
        !map.zpos_range@.contains_key(plane_id) ==> map.clamped(plane_id, zpos) == zpos,
        map.zpos_range@.contains_key(plane_id) && map.zpos_range@[plane_id].0 <= other
            <= map.zpos_range@[plane_id].1 ==> {
            let near = map.clamped(plane_id, zpos) as int;
            (if near < zpos {
                zpos - near
            } else {
                near - zpos
            }) <= (if other < zpos {
                zpos - other
            } else {
                other - zpos
            })
        },
{
}

// --- fences and damage -------------------------------------------------------

/// Whether a buffer is the first listed for a layer.
pub open spec fn is_buffer_of(acquisitions: Seq<Acquisition>, layer: LayerId, k: int) -> bool {
    0 <= k < acquisitions.len() && acquisitions[k].layer == layer && forall|j: int|
        0 <= j < k ==> (#[trigger] acquisitions[j]).layer != layer
}

/// The fence waited for on behalf of a layer is that of its own buffer.
pub proof fn law_a_layers_fence_is_its_buffers(
    acquisitions: Seq<Acquisition>,
    layer: LayerId,
    k: int,
)
    ensures
        is_buffer_of(acquisitions, layer, k) ==> fence_of(acquisitions, layer)
            == match acquisitions[k].buffer.acquire_fence {
            Some(fence) => fence.fd,
            None => None,
        },
        (forall|j: int| 0 <= j < acquisitions.len() ==> (#[trigger] acquisitions[j]).layer != layer)
            ==> fence_of(acquisitions, layer) is None,
    decreases acquisitions.len(),
{
    if acquisitions.len() > 0 {
        let rest = acquisitions.skip(1);
        assert forall|j: int| 0 <= j < rest.len() implies #[trigger] rest[j] == acquisitions[j
            + 1] by {}
        if acquisitions[0].layer == layer {
            if is_buffer_of(acquisitions, layer, k) && k > 0 {
                assert(acquisitions[0].layer != layer);
            }
        } else {
            law_a_layers_fence_is_its_buffers(rest, layer, k - 1);
            if is_buffer_of(acquisitions, layer, k) {
                assert(is_buffer_of(rest, layer, k - 1)) by {
                    assert forall|j: int| 0 <= j < k - 1 implies (#[trigger] rest[j]).layer
                        != layer by {
                        assert(acquisitions[j + 1].layer != layer);
                    }
                }
            }
        }
    }
}

/// A fenced buffer's plane is handed that very fence if it takes fences, and the
/// CPU waits for it otherwise; no other fence is written or waited for.
pub proof fn law_each_fence_goes_to_its_plane(
    map: PlanePropertyMap,
    acquisitions: Seq<Acquisition>,
    plan: Seq<PlanePlan>,
)
    ensures
        forall|i: int|
            0 <= i < plan.len() && fence_of(acquisitions, (#[trigger] plan[i]).layer_id) is Some
                ==> match map.id_of(plan[i].plane_id, PropTag::InFenceFd) {
                Some(property_id) => fence_writes(map, acquisitions, plan).contains(
                    PropertyWrite {
                        object_id: plan[i].plane_id,
                        property_id,
                        value: unsigned_slot(fence_of(acquisitions, plan[i].layer_id)->0),
                    },
                ),
                None => cpu_waits(map, acquisitions, plan).contains(
                    fence_of(acquisitions, plan[i].layer_id)->0,
                ),
            },
        forall|w: int|
            0 <= w < fence_writes(map, acquisitions, plan).len() ==> exists|i: int|
                0 <= i < plan.len() && (#[trigger] plan[i]).plane_id == (#[trigger] fence_writes(
                    map,
                    acquisitions,
                    plan,
                )[w]).object_id && map.id_of(plan[i].plane_id, PropTag::InFenceFd) == Some(
                    fence_writes(map, acquisitions, plan)[w].property_id,
                ) && fence_of(acquisitions, plan[i].layer_id) is Some && unsigned_slot(
                    fence_of(acquisitions, plan[i].layer_id)->0,
                ) == fence_writes(map, acquisitions, plan)[w].value,
        forall|w: int|
            0 <= w < cpu_waits(map, acquisitions, plan).len() ==> exists|i: int|
                0 <= i < plan.len() && fence_of(acquisitions, (#[trigger] plan[i]).layer_id) == Some(
                    #[trigger] cpu_waits(map, acquisitions, plan)[w],
                ) && map.id_of(plan[i].plane_id, PropTag::InFenceFd) is None,
    decreases plan.len(),
{
    if plan.len() > 0 {
        let rest = plan.drop_last();
        let last = plan.last();
        law_each_fence_goes_to_its_plane(map, acquisitions, rest);
        let writes = fence_writes(map, acquisitions, plan);
        let earlier = fence_writes(map, acquisitions, rest);
        let waits = cpu_waits(map, acquisitions, plan);
        let waited = cpu_waits(map, acquisitions, rest);
        assert(plan[plan.len() - 1] == last);
        assert forall|i: int| 0 <= i < rest.len() implies #[trigger] rest[i] == plan[i] by {}
        assert forall|i: int|
            0 <= i < plan.len() && fence_of(acquisitions, (#[trigger] plan[i]).layer_id) is Some
                implies match map.id_of(plan[i].plane_id, PropTag::InFenceFd) {
            Some(property_id) => writes.contains(
                PropertyWrite {
                    object_id: plan[i].plane_id,
                    property_id,
                    value: unsigned_slot(fence_of(acquisitions, plan[i].layer_id)->0),
                },
            ),
            None => waits.contains(fence_of(acquisitions, plan[i].layer_id)->0),
        } by {
            let fd = fence_of(acquisitions, plan[i].layer_id)->0;
            if i < rest.len() {
                assert(rest[i] == plan[i]);
                match map.id_of(plan[i].plane_id, PropTag::InFenceFd) {
                    Some(property_id) => {
                        let write = PropertyWrite {
                            object_id: plan[i].plane_id,
                            property_id,
                            value: unsigned_slot(fd),
                        };
                        let w = choose|w: int| 0 <= w < earlier.len() && earlier[w] == write;
                        assert(writes[w] == write);
                    },
                    None => {
                        let w = choose|w: int| 0 <= w < waited.len() && waited[w] == fd;
                        assert(waits[w] == fd);
                    },
                }
            } else {
                match map.id_of(last.plane_id, PropTag::InFenceFd) {
                    Some(property_id) => {
                        assert(writes[earlier.len() as int].property_id == property_id);
                    },
                    None => {
                        assert(waits[waited.len() as int] == fd);
                    },
                }
            }
        }
        assert forall|w: int| 0 <= w < writes.len() implies exists|i: int|
            0 <= i < plan.len() && (#[trigger] plan[i]).plane_id == (#[trigger] writes[w]).object_id
                && map.id_of(plan[i].plane_id, PropTag::InFenceFd) == Some(writes[w].property_id)
                && fence_of(acquisitions, plan[i].layer_id) is Some && unsigned_slot(
                fence_of(acquisitions, plan[i].layer_id)->0,
            ) == writes[w].value by {
            if w < earlier.len() {
                assert(writes[w] == earlier[w]);
                let i = choose|i: int|
                    0 <= i < rest.len() && (#[trigger] rest[i]).plane_id == earlier[w].object_id
                        && map.id_of(rest[i].plane_id, PropTag::InFenceFd) == Some(
                        earlier[w].property_id,
                    ) && fence_of(acquisitions, rest[i].layer_id) is Some && unsigned_slot(
                        fence_of(acquisitions, rest[i].layer_id)->0,
                    ) == earlier[w].value;
                assert(plan[i] == rest[i]);
            } else {
                assert(plan[plan.len() - 1].plane_id == writes[w].object_id);
            }
        }
        assert forall|w: int| 0 <= w < waits.len() implies exists|i: int|
            0 <= i < plan.len() && fence_of(acquisitions, (#[trigger] plan[i]).layer_id) == Some(
                #[trigger] waits[w],
            ) && map.id_of(plan[i].plane_id, PropTag::InFenceFd) is None by {
            if w < waited.len() {
                assert(waits[w] == waited[w]);
                let i = choose|i: int|
                    0 <= i < rest.len() && fence_of(acquisitions, (#[trigger] rest[i]).layer_id)
                        == Some(waited[w]) && map.id_of(rest[i].plane_id, PropTag::InFenceFd)
                        is None;
                assert(plan[i] == rest[i]);
            } else {
                assert(fence_of(acquisitions, plan[plan.len() - 1].layer_id) == Some(waits[w]));
            }
        }
    }
}

/// A clip covers the damaged region, pixel for pixel, as far as coordinates go;
/// every region with an area has its clip and no other clip is made.
pub proof fn law_clips_cover_the_damage(damage: Seq<DamageRect>)
    ensures
        forall|k: int|
            0 <= k < damage.len() && (#[trigger] damage[k]).w > 0 && damage[k].h > 0 ==> exists|c: int|
                0 <= c < clips_of(damage).len() && (#[trigger] clips_of(damage)[c]).x1 == damage[k].x
                    && clips_of(damage)[c].y1 == damage[k].y && (clips_of(damage)[c].x2
                    == damage[k].x + damage[k].w || (clips_of(damage)[c].x2 == i32::MAX && damage[k].x
                    + damage[k].w > i32::MAX)) && (clips_of(damage)[c].y2 == damage[k].y
                    + damage[k].h || (clips_of(damage)[c].y2 == i32::MAX && damage[k].y + damage[k].h
                    > i32::MAX)),
        clips_of(damage).len() == damage.filter(|rect: DamageRect| rect.w > 0 && rect.h > 0).len(),
    decreases damage.len(),
{
    reveal(Seq::filter);
    if damage.len() > 0 {
        let rest = damage.drop_last();
        law_clips_cover_the_damage(rest);
        let before = clips_of(rest);
        let after = clips_of(damage);
        assert forall|k: int|
            0 <= k < damage.len() && (#[trigger] damage[k]).w > 0 && damage[k].h > 0
                implies exists|c: int|
            0 <= c < after.len() && (#[trigger] after[c]).x1 == damage[k].x && after[c].y1
                == damage[k].y && (after[c].x2 == damage[k].x + damage[k].w || (after[c].x2
                == i32::MAX && damage[k].x + damage[k].w > i32::MAX)) && (after[c].y2 == damage[k].y
                + damage[k].h || (after[c].y2 == i32::MAX && damage[k].y + damage[k].h > i32::MAX))
            by {
            if k < rest.len() {
                assert(rest[k] == damage[k]);
                let c = choose|c: int|
                    0 <= c < before.len() && (#[trigger] before[c]).x1 == rest[k].x && before[c].y1
                        == rest[k].y && (before[c].x2 == rest[k].x + rest[k].w || (before[c].x2
                        == i32::MAX && rest[k].x + rest[k].w > i32::MAX)) && (before[c].y2
                        == rest[k].y + rest[k].h || (before[c].y2 == i32::MAX && rest[k].y
                        + rest[k].h > i32::MAX));
                assert(after[c] == before[c]);
            } else {
                assert(after[before.len() as int].x1 == damage[k].x);
            }
        }
    }
}

/// A plane that takes clips is handed those of the buffer on it, if its damage
/// is stated and not too much of it; every other plane is shown in full.
pub proof fn law_damage_goes_to_its_plane(
    map: PlanePropertyMap,
    acquisitions: Seq<Acquisition>,
    plan: Seq<PlanePlan>,
    i: int,
)
    requires
        0 <= i < plan.len(),
        map.damage_clips@.contains_key(plan[i].plane_id),
        damage_of(acquisitions, plan[i].layer_id).len() > 0,
    ensures
        plan_damage(map, acquisitions, plan).contains(
            (
                plan[i].plane_id,
                map.damage_clips@[plan[i].plane_id],
                damage_of(acquisitions, plan[i].layer_id),
            ),
        ),
        plan_damage(map, acquisitions, plan).len() == plan.filter(
            |entry: PlanePlan|
                map.damage_clips@.contains_key(entry.plane_id) && damage_of(
                    acquisitions,
                    entry.layer_id,
                ).len() > 0,
        ).len(),
    decreases plan.len(),
{
    lemma_damage_count(map, acquisitions, plan);
    let rest = plan.drop_last();
    let before = plan_damage(map, acquisitions, rest);
    let after = plan_damage(map, acquisitions, plan);
    let wanted = (
        plan[i].plane_id,
        map.damage_clips@[plan[i].plane_id],
        damage_of(acquisitions, plan[i].layer_id),
    );
    if i < rest.len() {
        assert(rest[i] == plan[i]);
        law_damage_goes_to_its_plane(map, acquisitions, rest, i);
        let k = choose|k: int| 0 <= k < before.len() && before[k] == wanted;
        assert(after[k] == wanted);
    } else {
        assert(after[before.len() as int] == wanted);
    }
}

proof fn lemma_damage_count(
    map: PlanePropertyMap,
    acquisitions: Seq<Acquisition>,
    plan: Seq<PlanePlan>,
)
    ensures
        plan_damage(map, acquisitions, plan).len() == plan.filter(
            |entry: PlanePlan|
                map.damage_clips@.contains_key(entry.plane_id) && damage_of(
                    acquisitions,
                    entry.layer_id,
                ).len() > 0,
        ).len(),
    decreases plan.len(),
{
    reveal(Seq::filter);
    if plan.len() > 0 {
        lemma_damage_count(map, acquisitions, plan.drop_last());
    }
}

/// The damage of a layer is that of its own buffer: as stated, up to sixteen
/// regions, and the whole frame beyond.
pub proof fn law_a_layers_damage_is_its_buffers(
    acquisitions: Seq<Acquisition>,
    layer: LayerId,
    k: int,
)
    ensures
        is_buffer_of(acquisitions, layer, k) ==> damage_of(acquisitions, layer) == if acquisitions[k].buffer.damage@.len()
            <= 16 {
            clips_of(acquisitions[k].buffer.damage@)
        } else {
            Seq::empty()
        },
        (forall|j: int| 0 <= j < acquisitions.len() ==> (#[trigger] acquisitions[j]).layer != layer)
            ==> damage_of(acquisitions, layer).len() == 0,
    decreases acquisitions.len(),
{
    if acquisitions.len() > 0 {
        let rest = acquisitions.skip(1);
        assert forall|j: int| 0 <= j < rest.len() implies #[trigger] rest[j] == acquisitions[j
            + 1] by {}
        if acquisitions[0].layer == layer {
            if is_buffer_of(acquisitions, layer, k) && k > 0 {
                assert(acquisitions[0].layer != layer);
            }
        } else {
            law_a_layers_damage_is_its_buffers(rest, layer, k - 1);
            if is_buffer_of(acquisitions, layer, k) {
                assert(is_buffer_of(rest, layer, k - 1)) by {
                    assert forall|j: int| 0 <= j < k - 1 implies (#[trigger] rest[j]).layer
                        != layer by {
                        assert(acquisitions[j + 1].layer != layer);
                    }
                }
            }
        }
    }
}

/// Each damage write names its plane, its property and the blob made for it.
pub proof fn law_damage_writes_carry_their_blobs(damage: Seq<PlaneDamage>, blobs: Seq<u64>, i: int)
    requires
        0 <= i < damage.len() == blobs.len(),
    ensures
        damage_writes(damage, blobs).len() == damage.len(),
        damage_writes(damage, blobs)[i].object_id == damage[i].plane_id,
        damage_writes(damage, blobs)[i].property_id == damage[i].property_id,
        damage_writes(damage, blobs)[i].value == blobs[i],
{
}

/// The framebuffers a request attaches are the writes of a nonzero value to a
/// plane's framebuffer property.
pub proof fn law_attachments_are_nonzero_framebuffer_writes(
    map: PlanePropertyMap,
    writes: Seq<PropertyWrite>,
)
    ensures
        attached_count(map, writes) == writes.filter(
            |write: PropertyWrite|
                map.planes@.contains_key(write.object_id)
                    && map.planes@[write.object_id].value(PropTag::FbId) == Some(write.property_id)
                    && write.value != 0,
        ).len(),
    decreases writes.len(),
{
    reveal(Seq::filter);
    if writes.len() > 0 {
        law_attachments_are_nonzero_framebuffer_writes(map, writes.drop_last());
    }
}

/// A test of an assignment switches off exactly the candidates it does not try.
pub proof fn law_a_test_clears_what_it_does_not_try(
    candidates: Seq<u32>,
    assignment: Seq<TriedLayer>,
    plane_id: u32,
)
    ensures
        untried(candidates, assignment).contains(plane_id) <==> candidates.contains(plane_id)
            && forall|i: int|
            0 <= i < assignment.len() ==> (#[trigger] assignment[i]).plane_id != plane_id,
    decreases candidates.len(),
{
    if candidates.len() > 0 {
        let rest = candidates.drop_last();
        let before = untried(rest, assignment);
        let after = untried(candidates, assignment);
        law_a_test_clears_what_it_does_not_try(rest, assignment, plane_id);
        assert(candidates[candidates.len() - 1] == candidates.last());
        if candidates.contains(plane_id) && candidates.last() != plane_id {
            let k = choose|k: int| 0 <= k < candidates.len() && candidates[k] == plane_id;
            assert(rest[k] == plane_id);
        }
        if rest.contains(plane_id) {
            let k = choose|k: int| 0 <= k < rest.len() && rest[k] == plane_id;
            assert(candidates[k] == plane_id);
        }
        if after.len() > before.len() {
            assert(after[before.len() as int] == candidates.last());
            if after.contains(plane_id) && candidates.last() != plane_id {
                let k = choose|k: int| 0 <= k < after.len() && after[k] == plane_id;
                assert(before[k] == plane_id);
            }
            if before.contains(plane_id) {
                let k = choose|k: int| 0 <= k < before.len() && before[k] == plane_id;
                assert(after[k] == plane_id);
            }
        }
    }
}

/// A plane is used by an assignment exactly where some layer is tried on it.
pub proof fn law_a_plane_is_tried_where_a_layer_is(
    assignment: Seq<TriedLayer>,
    plane_id: u32,
    i: int,
)
    ensures
        0 <= i < assignment.len() && assignment[i].plane_id == plane_id ==> tries(
            assignment,
            plane_id,
        ),
        (forall|k: int| 0 <= k < assignment.len() ==> (#[trigger] assignment[k]).plane_id
            != plane_id) ==> !tries(assignment, plane_id),
{
}

/// Planes are learned one after the other, each from its own properties.
pub proof fn law_planes_are_learned_in_turn(
    before: PlanePropertyMap,
    planes: Seq<PlaneCapabilities>,
    properties: Seq<Vec<PropertyInfo>>,
    states: Seq<PlanePropertyMap>,
    k: int,
)
    requires
        learned_planes(before, planes, properties, states),
    ensures
        states[0] == before,
        1 <= states.len() <= planes.len() + 1,
        0 <= k < states.len() - 1 ==> learned_plane(
            states[k],
            planes[k].id,
            properties[k]@,
            states[k + 1],
        ) && color_of(properties[k]@) is Ok,
{
}

} // verus!
