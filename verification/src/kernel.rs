//! What the kernel holds, as far as property writes decide it: a model to say
//! what a frame's writes do.

use vstd::prelude::*;
use crate::commit::{
    color_writes, disable_writes, disables_writes, frame_writes, is_named,
    law_a_learned_plane_resolves_its_properties, law_layer_writes_are_its_tags,
    law_the_first_of_a_name_is_found, layer_writes, learned_plane, modeset_writes, place_named,
    plan_writes, tag_write, tried_writes, untried, DeviceCommitter, Modeset, PlanePropertyMap,
    PropertyInfo, PropertyWrite, TriedLayer,
};
use crate::compose::Composition;
use crate::draft::FrameDraft;
use crate::finalize::{recorded, untouched_planes};
use crate::frame::CommitKind;
use crate::plan::{
    builds, law_no_plane_is_planned_twice, law_plans_are_based_on_the_records,
    law_what_is_lit_and_unused_is_switched_off, plan_of, rescue_of, uses, FrameBuild, PlanePlan,
};
use crate::planes::{Allocation, Layer, PlaneRegistry, PropTag, PropertySnapshot};
use crate::scene::CommittedPlane;

verus! {

/// Each object's properties, by object and property id.
pub type KernelState = Map<(u32, u32), u64>;

/// What the kernel holds once it has taken some writes, in order.
pub open spec fn taken(state: KernelState, writes: Seq<PropertyWrite>) -> KernelState
    decreases writes.len(),
{
    if writes.len() == 0 {
        state
    } else {
        let write = writes.last();
        taken(state, writes.drop_last()).insert((write.object_id, write.property_id), write.value)
    }
}

/// Whether the kernel holds a value.
pub open spec fn holds(state: KernelState, object_id: u32, property_id: u32, value: u64) -> bool {
    state.contains_key((object_id, property_id)) && state[(object_id, property_id)] == value
}

/// Whether no write goes to a property.
pub open spec fn untouched(writes: Seq<PropertyWrite>, object_id: u32, property_id: u32) -> bool {
    forall|i: int|
        0 <= i < writes.len() ==> (#[trigger] writes[i]).object_id != object_id
            || writes[i].property_id != property_id
}

/// Whether the properties of a plane have ids of their own: those of two tags
/// differ, and colorimetry has none of theirs.
pub open spec fn ids_apart(map: PlanePropertyMap, plane_id: u32) -> bool {
    &&& forall|a: PropTag, b: PropTag|
        a != b && (#[trigger] map.id_of(plane_id, a)) is Some && (#[trigger] map.id_of(
            plane_id,
            b,
        )) is Some ==> map.id_of(plane_id, a) != map.id_of(plane_id, b)
    &&& map.color@.contains_key(plane_id) ==> forall|tag: PropTag|
        (#[trigger] map.id_of(plane_id, tag)) != Some(map.color@[plane_id].encoding_id)
            && map.id_of(plane_id, tag) != Some(map.color@[plane_id].range_id)
}

/// Whether a plane holds every property a layer sets and the plane takes. The
/// framebuffer of an externally bound layer is not the scene's to set.
pub open spec fn shows_layer(
    state: KernelState,
    map: PlanePropertyMap,
    plane_id: u32,
    layer: Layer,
) -> bool {
    forall|tag: PropTag|
        (#[trigger] layer.properties.value(tag)) is Some && map.id_of(plane_id, tag) is Some && !(
        layer.externally_bound && tag == PropTag::FbId) ==> holds(
            state,
            plane_id,
            map.id_of(plane_id, tag)->0,
            layer.properties.value(tag)->0,
        )
}

/// Whether a record is the first of its plane.
pub open spec fn is_first(committed: Seq<CommittedPlane>, k: int) -> bool {
    0 <= k < committed.len() && forall|j: int|
        0 <= j < k ==> (#[trigger] committed[j]).plane_id != committed[k].plane_id
}

/// Whether the kernel holds what the scene has recorded: on each plane, what its
/// first record says.
pub open spec fn agrees(
    state: KernelState,
    map: PlanePropertyMap,
    committed: Seq<CommittedPlane>,
) -> bool {
    forall|k: int| #[trigger]
        is_first(committed, k) ==> shows_layer(
            state,
            map,
            committed[k].plane_id,
            committed[k].layer,
        )
}

/// Whether an entry's baseline is what the scene has recorded of its plane: the
/// properties of its first record, or nothing where there is none.
pub open spec fn based_on(committed: Seq<CommittedPlane>, entry: PlanePlan) -> bool {
    match entry.baseline {
        Some(snapshot) => exists|k: int| #[trigger]
            is_first(committed, k) && committed[k].plane_id == entry.plane_id
                && committed[k].layer.properties == snapshot,
        None => forall|k: int|
            0 <= k < committed.len() ==> (#[trigger] committed[k]).plane_id != entry.plane_id,
    }
}

// --- how writes add up -------------------------------------------------------

proof fn lemma_taken_in_turn(state: KernelState, a: Seq<PropertyWrite>, b: Seq<PropertyWrite>)
    ensures
        taken(state, a + b) == taken(taken(state, a), b),
    decreases b.len(),
{
    if b.len() == 0 {
        assert(a + b =~= a);
    } else {
        assert((a + b).drop_last() =~= a + b.drop_last());
        lemma_taken_in_turn(state, a, b.drop_last());
    }
}

proof fn lemma_untouched_stays(
    state: KernelState,
    writes: Seq<PropertyWrite>,
    object_id: u32,
    property_id: u32,
)
    requires
        untouched(writes, object_id, property_id),
    ensures
        taken(state, writes).contains_key((object_id, property_id)) == state.contains_key(
            (object_id, property_id),
        ),
        taken(state, writes)[(object_id, property_id)] == state[(object_id, property_id)],
    decreases writes.len(),
{
    if writes.len() > 0 {
        assert(writes[writes.len() - 1] == writes.last());
        assert(untouched(writes.drop_last(), object_id, property_id)) by {
            assert forall|i: int| 0 <= i < writes.drop_last().len() implies (
            #[trigger] writes.drop_last()[i]).object_id != object_id
                || writes.drop_last()[i].property_id != property_id by {
                assert(writes[i] == writes.drop_last()[i]);
            }
        }
        lemma_untouched_stays(state, writes.drop_last(), object_id, property_id);
    }
}

proof fn lemma_written_holds(
    state: KernelState,
    writes: Seq<PropertyWrite>,
    object_id: u32,
    property_id: u32,
    value: u64,
)
    requires
        forall|i: int|
            0 <= i < writes.len() && (#[trigger] writes[i]).object_id == object_id
                && writes[i].property_id == property_id ==> writes[i].value == value,
        writes.contains(PropertyWrite { object_id, property_id, value }) || holds(
            state,
            object_id,
            property_id,
            value,
        ),
    ensures
        holds(taken(state, writes), object_id, property_id, value),
    decreases writes.len(),
{
    if writes.len() > 0 {
        let rest = writes.drop_last();
        let last = writes.last();
        assert(writes[writes.len() - 1] == last);
        assert forall|i: int|
            0 <= i < rest.len() && (#[trigger] rest[i]).object_id == object_id
                && rest[i].property_id == property_id implies rest[i].value == value by {
            assert(writes[i] == rest[i]);
        }
        if last.object_id == object_id && last.property_id == property_id {
            assert(last.value == value);
        } else {
            if writes.contains(PropertyWrite { object_id, property_id, value }) {
                let k = choose|k: int|
                    0 <= k < writes.len() && writes[k] == (PropertyWrite {
                        object_id,
                        property_id,
                        value,
                    });
                assert(rest[k] == (PropertyWrite { object_id, property_id, value }));
                assert(rest.contains(PropertyWrite { object_id, property_id, value }));
            }
            lemma_written_holds(state, rest, object_id, property_id, value);
        }
    }
}

// --- one plane ---------------------------------------------------------------

/// Every change reaches the request: a value the layer sets and the plane takes
/// is written unless the plane already holds exactly that value.
pub proof fn law_every_change_is_written(
    map: PlanePropertyMap,
    plane_id: u32,
    layer: Layer,
    baseline: Option<PropertySnapshot>,
    tag: PropTag,
    value: u64,
    property_id: u32,
)
    requires
        layer.properties.value(tag) == Some(value),
        map.planes@.contains_key(plane_id),
        map.planes@[plane_id].value(tag) == Some(property_id),
        !(layer.externally_bound && tag == PropTag::FbId),
        baseline is None || baseline->0.value(tag) != Some(value) || tag == PropTag::FbId || tag
            == PropTag::InFenceFd,
    ensures
        layer_writes(map, plane_id, layer, baseline).contains(
            PropertyWrite { object_id: plane_id, property_id, value },
        ),
{
    let write = PropertyWrite { object_id: plane_id, property_id, value };
    assert(tag_write(map, plane_id, layer, baseline, tag) == Some(write));
    law_layer_writes_are_its_tags(map, plane_id, layer, baseline, write);
}

/// Nothing else reaches the request: every write of a layer goes to its plane,
/// to a property the plane takes, with the value the layer sets there, and
/// unless it is the framebuffer or a fence the plane did not hold that value.
pub proof fn law_only_changes_are_written(
    map: PlanePropertyMap,
    plane_id: u32,
    layer: Layer,
    baseline: Option<PropertySnapshot>,
    write: PropertyWrite,
)
    requires
        layer_writes(map, plane_id, layer, baseline).contains(write),
    ensures
        write.object_id == plane_id,
        exists|tag: PropTag|
            (#[trigger] layer.properties.value(tag)) == Some(write.value)
                && map.planes@.contains_key(plane_id) && map.planes@[plane_id].value(tag) == Some(
                write.property_id,
            ) && !(layer.externally_bound && tag == PropTag::FbId) && (tag == PropTag::FbId || tag
                == PropTag::InFenceFd || baseline is None || baseline->0.value(tag) != Some(
                write.value,
            )),
{
    law_layer_writes_are_its_tags(map, plane_id, layer, baseline, write);
    let tag = choose|tag: PropTag| #[trigger]
        tag_write(map, plane_id, layer, baseline, tag) == Some(write);
    assert(layer.properties.value(tag) == Some(write.value));
}

proof fn lemma_entry_writes_stay_on_the_plane(
    map: PlanePropertyMap,
    entry: PlanePlan,
    object_id: u32,
    property_id: u32,
)
    requires
        object_id != entry.plane_id,
    ensures
        untouched(
            layer_writes(map, entry.plane_id, entry.layer, entry.baseline),
            object_id,
            property_id,
        ),
        untouched(color_writes(map, entry.plane_id), object_id, property_id),
{
    let writes = layer_writes(map, entry.plane_id, entry.layer, entry.baseline);
    assert forall|i: int| 0 <= i < writes.len() implies (#[trigger] writes[i]).object_id
        != object_id || writes[i].property_id != property_id by {
        assert(writes.contains(writes[i]));
        law_only_changes_are_written(map, entry.plane_id, entry.layer, entry.baseline, writes[i]);
    }
}

proof fn lemma_one_entry(state: KernelState, map: PlanePropertyMap, entry: PlanePlan)
    requires
        ids_apart(map, entry.plane_id),
        forall|tag: PropTag|
            entry.baseline is Some && tag != PropTag::FbId && tag != PropTag::InFenceFd && (
            #[trigger] entry.baseline->0.value(tag)) is Some && map.id_of(entry.plane_id, tag)
                is Some ==> holds(
                state,
                entry.plane_id,
                map.id_of(entry.plane_id, tag)->0,
                entry.baseline->0.value(tag)->0,
            ),
    ensures
        shows_layer(
            taken(
                taken(state, layer_writes(map, entry.plane_id, entry.layer, entry.baseline)),
                color_writes(map, entry.plane_id),
            ),
            map,
            entry.plane_id,
            entry.layer,
        ),
{
    let writes = layer_writes(map, entry.plane_id, entry.layer, entry.baseline);
    let colors = color_writes(map, entry.plane_id);
    let between = taken(state, writes);
    let layer = entry.layer;
    assert forall|tag: PropTag|
        (#[trigger] layer.properties.value(tag)) is Some && map.id_of(entry.plane_id, tag) is Some
            && !(layer.externally_bound && tag == PropTag::FbId) implies holds(
        taken(between, colors),
        entry.plane_id,
        map.id_of(entry.plane_id, tag)->0,
        layer.properties.value(tag)->0,
    ) by {
        let value = layer.properties.value(tag)->0;
        let id = map.id_of(entry.plane_id, tag)->0;
        if entry.baseline is None || entry.baseline->0.value(tag) != Some(value) || tag
            == PropTag::FbId || tag == PropTag::InFenceFd {
            law_every_change_is_written(
                map,
                entry.plane_id,
                layer,
                entry.baseline,
                tag,
                value,
                id,
            );
        } else {
            assert(entry.baseline->0.value(tag) is Some);
        }
        assert forall|i: int|
            0 <= i < writes.len() && (#[trigger] writes[i]).object_id == entry.plane_id
                && writes[i].property_id == id implies writes[i].value == value by {
            assert(writes.contains(writes[i]));
            law_only_changes_are_written(
                map,
                entry.plane_id,
                layer,
                entry.baseline,
                writes[i],
            );
            let other = choose|other: PropTag|
                (#[trigger] layer.properties.value(other)) == Some(writes[i].value)
                    && map.planes@.contains_key(entry.plane_id)
                    && map.planes@[entry.plane_id].value(other) == Some(writes[i].property_id)
                    && !(layer.externally_bound && other == PropTag::FbId) && (other
                    == PropTag::FbId || other == PropTag::InFenceFd || entry.baseline is None
                    || entry.baseline->0.value(other) != Some(writes[i].value));
            assert(map.id_of(entry.plane_id, other) == Some(id));
            if other != tag {
                assert(map.id_of(entry.plane_id, tag) == Some(id));
            }
        }
        lemma_written_holds(state, writes, entry.plane_id, id, value);
        assert(untouched(colors, entry.plane_id, id)) by {
            assert(map.id_of(entry.plane_id, tag) == Some(id));
        }
        lemma_untouched_stays(between, colors, entry.plane_id, id);
    }
}

// --- a frame -----------------------------------------------------------------

proof fn lemma_plan_writes_stay_on_its_planes(
    map: PlanePropertyMap,
    plan: Seq<PlanePlan>,
    object_id: u32,
    property_id: u32,
)
    requires
        forall|i: int| 0 <= i < plan.len() ==> (#[trigger] plan[i]).plane_id != object_id,
    ensures
        untouched(plan_writes(map, plan), object_id, property_id),
    decreases plan.len(),
{
    if plan.len() > 0 {
        let entry = plan.last();
        assert(plan[plan.len() - 1] == entry);
        assert forall|i: int| 0 <= i < plan.drop_last().len() implies (
        #[trigger] plan.drop_last()[i]).plane_id != object_id by {
            assert(plan[i] == plan.drop_last()[i]);
        }
        lemma_plan_writes_stay_on_its_planes(map, plan.drop_last(), object_id, property_id);
        lemma_entry_writes_stay_on_the_plane(map, entry, object_id, property_id);
    }
}

proof fn lemma_disables_stay_on_their_planes(
    map: PlanePropertyMap,
    disables: Seq<u32>,
    object_id: u32,
    property_id: u32,
)
    requires
        !disables.contains(object_id),
    ensures
        untouched(disables_writes(map, disables), object_id, property_id),
    decreases disables.len(),
{
    if disables.len() > 0 {
        assert(disables[disables.len() - 1] == disables.last());
        assert(!disables.drop_last().contains(object_id)) by {
            if disables.drop_last().contains(object_id) {
                let k = choose|k: int|
                    0 <= k < disables.drop_last().len() && disables.drop_last()[k] == object_id;
                assert(disables[k] == object_id);
            }
        }
        lemma_disables_stay_on_their_planes(map, disables.drop_last(), object_id, property_id);
    }
}

proof fn lemma_plan(
    state: KernelState,
    map: PlanePropertyMap,
    plan: Seq<PlanePlan>,
)
    requires
        forall|i: int, j: int|
            0 <= i < j < plan.len() ==> (#[trigger] plan[i]).plane_id != (
            #[trigger] plan[j]).plane_id,
        forall|i: int| 0 <= i < plan.len() ==> ids_apart(map, (#[trigger] plan[i]).plane_id),
        forall|i: int, tag: PropTag|
            0 <= i < plan.len() && (#[trigger] plan[i]).baseline is Some && tag != PropTag::FbId
                && tag != PropTag::InFenceFd && (#[trigger] plan[i].baseline->0.value(tag)) is Some
                && map.id_of(plan[i].plane_id, tag) is Some ==> holds(
                state,
                plan[i].plane_id,
                map.id_of(plan[i].plane_id, tag)->0,
                plan[i].baseline->0.value(tag)->0,
            ),
    ensures
        forall|i: int|
            0 <= i < plan.len() ==> shows_layer(
                taken(state, plan_writes(map, plan)),
                map,
                (#[trigger] plan[i]).plane_id,
                plan[i].layer,
            ),
    decreases plan.len(),
{
    if plan.len() > 0 {
        let rest = plan.drop_last();
        let entry = plan.last();
        let writes = layer_writes(map, entry.plane_id, entry.layer, entry.baseline);
        let colors = color_writes(map, entry.plane_id);
        let earlier = taken(state, plan_writes(map, rest));
        let after = taken(state, plan_writes(map, plan));
        assert forall|i: int| 0 <= i < rest.len() implies #[trigger] rest[i] == plan[i] by {}
        lemma_plan(state, map, rest);
        lemma_taken_in_turn(state, plan_writes(map, rest), writes);
        lemma_taken_in_turn(state, plan_writes(map, rest) + writes, colors);
        assert(after == taken(taken(earlier, writes), colors));
        assert(plan[plan.len() - 1] == entry);
        assert forall|tag: PropTag|
            entry.baseline is Some && tag != PropTag::FbId && tag != PropTag::InFenceFd && (
            #[trigger] entry.baseline->0.value(tag)) is Some && map.id_of(entry.plane_id, tag)
                is Some implies holds(
            earlier,
            entry.plane_id,
            map.id_of(entry.plane_id, tag)->0,
            entry.baseline->0.value(tag)->0,
        ) by {
            let id = map.id_of(entry.plane_id, tag)->0;
            assert(plan[plan.len() - 1].baseline->0.value(tag) is Some);
            assert forall|i: int| 0 <= i < rest.len() implies (#[trigger] rest[i]).plane_id
                != entry.plane_id by {
                assert(plan[i].plane_id != plan[plan.len() - 1].plane_id);
            }
            lemma_plan_writes_stay_on_its_planes(map, rest, entry.plane_id, id);
            lemma_untouched_stays(state, plan_writes(map, rest), entry.plane_id, id);
        }
        lemma_one_entry(earlier, map, entry);
        assert forall|i: int| 0 <= i < plan.len() implies shows_layer(
            after,
            map,
            (#[trigger] plan[i]).plane_id,
            plan[i].layer,
        ) by {
            if i < rest.len() {
                assert(rest[i] == plan[i]);
                let layer = plan[i].layer;
                let plane_id = plan[i].plane_id;
                assert(plan[i].plane_id != plan[plan.len() - 1].plane_id);
                assert(shows_layer(earlier, map, rest[i].plane_id, rest[i].layer));
                assert forall|tag: PropTag|
                    (#[trigger] layer.properties.value(tag)) is Some && map.id_of(plane_id, tag)
                        is Some && !(layer.externally_bound && tag == PropTag::FbId) implies holds(
                    after,
                    plane_id,
                    map.id_of(plane_id, tag)->0,
                    layer.properties.value(tag)->0,
                ) by {
                    let id = map.id_of(plane_id, tag)->0;
                    lemma_entry_writes_stay_on_the_plane(map, entry, plane_id, id);
                    lemma_untouched_stays(earlier, writes, plane_id, id);
                    lemma_untouched_stays(taken(earlier, writes), colors, plane_id, id);
                }
            }
        }
    }
}

/// A frame's writes make every plane of the plan show its layer, whole: after
/// them, each property a layer sets and its plane takes holds the layer's value,
/// whether it changed or not.
pub proof fn law_a_frame_shows_its_plan(
    state: KernelState,
    map: PlanePropertyMap,
    committed: Seq<CommittedPlane>,
    plan: Seq<PlanePlan>,
    disables: Seq<u32>,
    modeset: Option<Modeset>,
)
    requires
        agrees(state, map, committed),
        forall|i: int| 0 <= i < plan.len() ==> based_on(committed, #[trigger] plan[i]),
        forall|i: int, j: int|
            0 <= i < j < plan.len() ==> (#[trigger] plan[i]).plane_id != (
            #[trigger] plan[j]).plane_id,
        forall|i: int| 0 <= i < plan.len() ==> ids_apart(map, (#[trigger] plan[i]).plane_id),
        forall|i: int| 0 <= i < plan.len() ==> !disables.contains((#[trigger] plan[i]).plane_id),
        modeset matches Some(modeset) ==> forall|i: int|
            0 <= i < plan.len() ==> (#[trigger] plan[i]).plane_id != modeset.crtc_id
                && plan[i].plane_id != modeset.connector_id,
    ensures
        forall|i: int|
            0 <= i < plan.len() ==> shows_layer(
                taken(state, frame_writes(map, plan, disables, modeset)),
                map,
                (#[trigger] plan[i]).plane_id,
                plan[i].layer,
            ),
{
    let head = modeset_writes(modeset) + disables_writes(map, disables);
    let staged = taken(state, head);
    lemma_taken_in_turn(state, head, plan_writes(map, plan));
    assert forall|i: int, tag: PropTag|
        0 <= i < plan.len() && (#[trigger] plan[i]).baseline is Some && tag != PropTag::FbId && tag
            != PropTag::InFenceFd && (#[trigger] plan[i].baseline->0.value(tag)) is Some
            && map.id_of(plan[i].plane_id, tag) is Some implies holds(
        staged,
        plan[i].plane_id,
        map.id_of(plan[i].plane_id, tag)->0,
        plan[i].baseline->0.value(tag)->0,
    ) by {
        let entry = plan[i];
        let id = map.id_of(entry.plane_id, tag)->0;
        lemma_baseline_is_held(state, map, committed, entry, tag);
        lemma_disables_stay_on_their_planes(map, disables, entry.plane_id, id);
        lemma_modeset_stays_off_planes(modeset, entry.plane_id, id);
        lemma_untouched_stays(state, modeset_writes(modeset), entry.plane_id, id);
        lemma_untouched_stays(
            taken(state, modeset_writes(modeset)),
            disables_writes(map, disables),
            entry.plane_id,
            id,
        );
        lemma_taken_in_turn(state, modeset_writes(modeset), disables_writes(map, disables));
    }
    lemma_plan(staged, map, plan);
}

proof fn lemma_modeset_stays_off_planes(modeset: Option<Modeset>, object_id: u32, property_id: u32)
    requires
        modeset matches Some(modeset) ==> object_id != modeset.crtc_id && object_id
            != modeset.connector_id,
    ensures
        untouched(modeset_writes(modeset), object_id, property_id),
{
}

proof fn lemma_baseline_is_held(
    state: KernelState,
    map: PlanePropertyMap,
    committed: Seq<CommittedPlane>,
    entry: PlanePlan,
    tag: PropTag,
)
    requires
        agrees(state, map, committed),
        based_on(committed, entry),
        entry.baseline is Some,
        tag != PropTag::FbId,
        entry.baseline->0.value(tag) is Some,
        map.id_of(entry.plane_id, tag) is Some,
    ensures
        holds(
            state,
            entry.plane_id,
            map.id_of(entry.plane_id, tag)->0,
            entry.baseline->0.value(tag)->0,
        ),
{
    let k = choose|k: int| #[trigger]
        is_first(committed, k) && committed[k].plane_id == entry.plane_id
            && committed[k].layer.properties == entry.baseline->0;
    assert(shows_layer(state, map, committed[k].plane_id, committed[k].layer));
    assert(committed[k].layer.properties.value(tag) is Some);
}

/// A frame's writes leave alone every property of an object that is neither in
/// the plan, nor switched off, nor part of the modeset.
pub proof fn law_a_frame_touches_nothing_else(
    state: KernelState,
    map: PlanePropertyMap,
    plan: Seq<PlanePlan>,
    disables: Seq<u32>,
    modeset: Option<Modeset>,
    object_id: u32,
    property_id: u32,
)
    requires
        forall|i: int| 0 <= i < plan.len() ==> (#[trigger] plan[i]).plane_id != object_id,
        !disables.contains(object_id),
        modeset matches Some(modeset) ==> object_id != modeset.crtc_id && object_id
            != modeset.connector_id,
    ensures
        taken(state, frame_writes(map, plan, disables, modeset)).contains_key(
            (object_id, property_id),
        ) == state.contains_key((object_id, property_id)),
        taken(state, frame_writes(map, plan, disables, modeset))[(object_id, property_id)]
            == state[(object_id, property_id)],
{
    let tail = disables_writes(map, disables) + plan_writes(map, plan);
    assert(frame_writes(map, plan, disables, modeset) =~= modeset_writes(modeset) + tail);
    lemma_taken_in_turn(state, modeset_writes(modeset), tail);
    lemma_modeset_stays_off_planes(modeset, object_id, property_id);
    lemma_untouched_stays(state, modeset_writes(modeset), object_id, property_id);
    lemma_outside_frame(
        taken(state, modeset_writes(modeset)),
        map,
        plan,
        disables,
        object_id,
        property_id,
    );
}

proof fn lemma_disabled(
    state: KernelState,
    map: PlanePropertyMap,
    disables: Seq<u32>,
    plane_id: u32,
    tag: PropTag,
)
    requires
        disables.contains(plane_id),
        tag == PropTag::FbId || tag == PropTag::CrtcId,
        map.id_of(plane_id, tag) is Some,
    ensures
        holds(
            taken(state, disables_writes(map, disables)),
            plane_id,
            map.id_of(plane_id, tag)->0,
            0,
        ),
    decreases disables.len(),
{
    let id = map.id_of(plane_id, tag)->0;
    let rest = disables.drop_last();
    let last = disables.last();
    let earlier = taken(state, disables_writes(map, rest));
    lemma_taken_in_turn(state, disables_writes(map, rest), disable_writes(map, last));
    if last == plane_id {
        let writes = disable_writes(map, last);
        let write = PropertyWrite { object_id: plane_id, property_id: id, value: 0 };
        assert(writes.contains(write)) by {
            if tag == PropTag::FbId {
                assert(writes[0] == write);
            } else {
                assert(writes[writes.len() - 1] == write);
            }
        }
        lemma_written_holds(earlier, writes, plane_id, id, 0);
    } else {
        assert(rest.contains(plane_id)) by {
            let k = choose|k: int| 0 <= k < disables.len() && disables[k] == plane_id;
            assert(rest[k] == plane_id);
        }
        lemma_disabled(state, map, rest, plane_id, tag);
        lemma_untouched_stays(earlier, disable_writes(map, last), plane_id, id);
    }
}

/// A plane a frame switches off ends with no framebuffer and on no CRTC.
pub proof fn law_a_frame_switches_planes_off(
    state: KernelState,
    map: PlanePropertyMap,
    plan: Seq<PlanePlan>,
    disables: Seq<u32>,
    modeset: Option<Modeset>,
    plane_id: u32,
    tag: PropTag,
)
    requires
        disables.contains(plane_id),
        forall|i: int| 0 <= i < plan.len() ==> (#[trigger] plan[i]).plane_id != plane_id,
        tag == PropTag::FbId || tag == PropTag::CrtcId,
        map.planes@.contains_key(plane_id),
        map.planes@[plane_id].value(tag) is Some,
    ensures
        holds(
            taken(state, frame_writes(map, plan, disables, modeset)),
            plane_id,
            map.planes@[plane_id].value(tag)->0,
            0,
        ),
{
    let id = map.planes@[plane_id].value(tag)->0;
    let staged = taken(state, modeset_writes(modeset));
    lemma_taken_in_turn(state, modeset_writes(modeset), disables_writes(map, disables));
    lemma_taken_in_turn(
        state,
        modeset_writes(modeset) + disables_writes(map, disables),
        plan_writes(map, plan),
    );
    lemma_disabled(staged, map, disables, plane_id, tag);
    lemma_plan_writes_stay_on_its_planes(map, plan, plane_id, id);
    lemma_untouched_stays(
        taken(staged, disables_writes(map, disables)),
        plan_writes(map, plan),
        plane_id,
        id,
    );
}

/// A modeset gives the CRTC its mode, activates it, and routes the connector to
/// it.
pub proof fn law_a_frame_sets_its_mode(
    state: KernelState,
    map: PlanePropertyMap,
    plan: Seq<PlanePlan>,
    disables: Seq<u32>,
    modeset: Modeset,
)
    requires
        modeset.crtc_active != modeset.crtc_mode_id,
        modeset.crtc_id != modeset.connector_id,
        forall|i: int|
            0 <= i < plan.len() ==> (#[trigger] plan[i]).plane_id != modeset.crtc_id
                && plan[i].plane_id != modeset.connector_id,
        !disables.contains(modeset.crtc_id),
        !disables.contains(modeset.connector_id),
    ensures
        ({
            let after = taken(state, frame_writes(map, plan, disables, Some(modeset)));
            &&& holds(after, modeset.crtc_id, modeset.crtc_mode_id, modeset.mode_blob)
            &&& holds(after, modeset.crtc_id, modeset.crtc_active, 1)
            &&& holds(
                after,
                modeset.connector_id,
                modeset.connector_crtc_id,
                modeset.crtc_id as u64,
            )
        }),
{
    let writes = modeset_writes(Some(modeset));
    let staged = taken(state, writes);
    let tail = disables_writes(map, disables) + plan_writes(map, plan);
    assert(frame_writes(map, plan, disables, Some(modeset)) =~= writes + tail);
    lemma_taken_in_turn(state, writes, tail);
    assert(writes[0].value == modeset.mode_blob);
    lemma_written_of(state, writes, 0);
    lemma_written_of(state, writes, 1);
    lemma_written_of(state, writes, 2);
    lemma_outside_frame(staged, map, plan, disables, modeset.crtc_id, modeset.crtc_mode_id);
    lemma_outside_frame(staged, map, plan, disables, modeset.crtc_id, modeset.crtc_active);
    lemma_outside_frame(
        staged,
        map,
        plan,
        disables,
        modeset.connector_id,
        modeset.connector_crtc_id,
    );
}

proof fn lemma_written_of(state: KernelState, writes: Seq<PropertyWrite>, at: int)
    requires
        0 <= at < writes.len(),
        forall|i: int|
            0 <= i < writes.len() && i != at ==> (#[trigger] writes[i]).object_id
                != writes[at].object_id || writes[i].property_id != writes[at].property_id,
    ensures
        holds(
            taken(state, writes),
            writes[at].object_id,
            writes[at].property_id,
            writes[at].value,
        ),
{
    assert(writes[at] == (PropertyWrite {
        object_id: writes[at].object_id,
        property_id: writes[at].property_id,
        value: writes[at].value,
    }));
    assert(writes.contains(writes[at]));
    lemma_written_holds(
        state,
        writes,
        writes[at].object_id,
        writes[at].property_id,
        writes[at].value,
    );
}

proof fn lemma_outside_frame(
    state: KernelState,
    map: PlanePropertyMap,
    plan: Seq<PlanePlan>,
    disables: Seq<u32>,
    object_id: u32,
    property_id: u32,
)
    requires
        forall|i: int| 0 <= i < plan.len() ==> (#[trigger] plan[i]).plane_id != object_id,
        !disables.contains(object_id),
    ensures
        taken(state, disables_writes(map, disables) + plan_writes(map, plan)).contains_key(
            (object_id, property_id),
        ) == state.contains_key((object_id, property_id)),
        taken(state, disables_writes(map, disables) + plan_writes(map, plan))[(
            object_id,
            property_id,
        )] == state[(object_id, property_id)],
{
    lemma_disables_stay_on_their_planes(map, disables, object_id, property_id);
    lemma_plan_writes_stay_on_its_planes(map, plan, object_id, property_id);
    lemma_untouched_stays(
        state,
        disables_writes(map, disables) + plan_writes(map, plan),
        object_id,
        property_id,
    );
}

/// An applied frame leaves the scene's records true: what it records of each
/// plane is what the kernel holds there, so the next frame is measured against
/// the kernel's own state.
pub proof fn law_records_stay_true(
    state: KernelState,
    map: PlanePropertyMap,
    committed: Seq<CommittedPlane>,
    plan: Seq<PlanePlan>,
    disables: Seq<u32>,
    modeset: Option<Modeset>,
)
    requires
        agrees(state, map, committed),
        forall|i: int| 0 <= i < plan.len() ==> based_on(committed, #[trigger] plan[i]),
        forall|i: int, j: int|
            0 <= i < j < plan.len() ==> (#[trigger] plan[i]).plane_id != (
            #[trigger] plan[j]).plane_id,
        forall|i: int| 0 <= i < plan.len() ==> ids_apart(map, (#[trigger] plan[i]).plane_id),
        forall|i: int| 0 <= i < plan.len() ==> !disables.contains((#[trigger] plan[i]).plane_id),
        modeset matches Some(modeset) ==> (forall|i: int|
            0 <= i < plan.len() ==> (#[trigger] plan[i]).plane_id != modeset.crtc_id
                && plan[i].plane_id != modeset.connector_id) && (forall|k: int|
            0 <= k < committed.len() ==> (#[trigger] committed[k]).plane_id != modeset.crtc_id
                && committed[k].plane_id != modeset.connector_id),
    ensures
        agrees(
            taken(state, frame_writes(map, plan, disables, modeset)),
            map,
            recorded(committed, plan, disables),
        ),
{
    let after = taken(state, frame_writes(map, plan, disables, modeset));
    let kept = untouched_planes(committed, plan, disables);
    let all = recorded(committed, plan, disables);
    law_a_frame_shows_its_plan(state, map, committed, plan, disables, modeset);
    assert forall|k: int| #[trigger] is_first(all, k) implies shows_layer(
        after,
        map,
        all[k].plane_id,
        all[k].layer,
    ) by {
        if k < kept.len() {
            assert(all[k] == kept[k]);
            lemma_kept_records(committed, plan, disables, k);
            let m = choose|m: int|
                0 <= m < committed.len() && (#[trigger] committed[m]).plane_id == kept[k].plane_id
                    && committed[m].layer == kept[k].layer && (forall|j: int|
                    0 <= j < m && (#[trigger] committed[j]).plane_id == committed[m].plane_id
                        ==> exists|h: int|
                        0 <= h < k && (#[trigger] kept[h]).plane_id == kept[k].plane_id);
            assert forall|j: int| 0 <= j < m implies (#[trigger] committed[j]).plane_id
                != committed[m].plane_id by {
                if committed[j].plane_id == committed[m].plane_id {
                    let h = choose|h: int|
                        0 <= h < k && (#[trigger] kept[h]).plane_id == kept[k].plane_id;
                    assert(all[h] == kept[h]);
                }
            }
            assert(is_first(committed, m));
            assert(shows_layer(state, map, committed[m].plane_id, committed[m].layer));
            let layer = all[k].layer;
            let plane_id = all[k].plane_id;
            assert forall|tag: PropTag|
                (#[trigger] layer.properties.value(tag)) is Some && map.id_of(plane_id, tag)
                    is Some && !(layer.externally_bound && tag == PropTag::FbId) implies holds(
                after,
                plane_id,
                map.id_of(plane_id, tag)->0,
                layer.properties.value(tag)->0,
            ) by {
                law_a_frame_touches_nothing_else(
                    state,
                    map,
                    plan,
                    disables,
                    modeset,
                    plane_id,
                    map.id_of(plane_id, tag)->0,
                );
                assert(committed[m].layer.properties.value(tag) is Some);
            }
        } else {
            assert(all[k].plane_id == plan[k - kept.len()].plane_id);
            assert(all[k].layer == plan[k - kept.len()].layer);
        }
    }
}

proof fn lemma_kept_records(
    committed: Seq<CommittedPlane>,
    plan: Seq<PlanePlan>,
    disables: Seq<u32>,
    k: int,
)
    requires
        0 <= k < untouched_planes(committed, plan, disables).len(),
    ensures
        ({
            let kept = untouched_planes(committed, plan, disables);
            &&& forall|i: int| 0 <= i < plan.len() ==> (#[trigger] plan[i]).plane_id
                != kept[k].plane_id
            &&& !disables.contains(kept[k].plane_id)
            &&& exists|m: int|
                0 <= m < committed.len() && (#[trigger] committed[m]).plane_id == kept[k].plane_id
                    && committed[m].layer == kept[k].layer && (forall|j: int|
                    0 <= j < m && (#[trigger] committed[j]).plane_id == committed[m].plane_id
                        ==> exists|h: int|
                        0 <= h < k && (#[trigger] kept[h]).plane_id == kept[k].plane_id)
        }),
    decreases committed.len(),
{
    let rest = committed.drop_last();
    let before = untouched_planes(rest, plan, disables);
    let kept = untouched_planes(committed, plan, disables);
    if committed.len() > 0 {
        if k < before.len() {
            assert forall|h: int| 0 <= h < before.len() implies #[trigger] kept[h] == before[h] by {}
            lemma_kept_records(rest, plan, disables, k);
            let m = choose|m: int|
                0 <= m < rest.len() && (#[trigger] rest[m]).plane_id == before[k].plane_id
                    && rest[m].layer == before[k].layer && (forall|j: int|
                    0 <= j < m && (#[trigger] rest[j]).plane_id == rest[m].plane_id ==> exists|h: int|
                        0 <= h < k && (#[trigger] before[h]).plane_id == before[k].plane_id);
            assert(committed[m] == rest[m]);
            assert forall|j: int|
                0 <= j < m && (#[trigger] committed[j]).plane_id == committed[m].plane_id
                    implies exists|h: int|
                0 <= h < k && (#[trigger] kept[h]).plane_id == kept[k].plane_id by {
                assert(rest[j] == committed[j]);
                let h = choose|h: int|
                    0 <= h < k && (#[trigger] before[h]).plane_id == before[k].plane_id;
                assert(kept[h].plane_id == kept[k].plane_id);
            }
        } else {
            let m = committed.len() - 1;
            assert(committed[m] == committed.last());
            assert forall|j: int|
                0 <= j < m && (#[trigger] committed[j]).plane_id == committed[m].plane_id
                    implies exists|h: int|
                0 <= h < k && (#[trigger] kept[h]).plane_id == kept[k].plane_id by {
                assert(rest[j] == committed[j]);
                lemma_kept_when_unused(rest, plan, disables, j);
                let h = choose|h: int|
                    0 <= h < before.len() && (#[trigger] before[h]).plane_id == rest[j].plane_id;
                assert(kept[h] == before[h]);
            }
        }
    }
}

proof fn lemma_kept_when_unused(
    committed: Seq<CommittedPlane>,
    plan: Seq<PlanePlan>,
    disables: Seq<u32>,
    j: int,
)
    requires
        0 <= j < committed.len(),
        forall|i: int|
            0 <= i < plan.len() ==> (#[trigger] plan[i]).plane_id != committed[j].plane_id,
        !disables.contains(committed[j].plane_id),
    ensures
        exists|h: int|
            0 <= h < untouched_planes(committed, plan, disables).len() && (
            #[trigger] untouched_planes(committed, plan, disables)[h]).plane_id
                == committed[j].plane_id,
    decreases committed.len(),
{
    let rest = committed.drop_last();
    let before = untouched_planes(rest, plan, disables);
    let kept = untouched_planes(committed, plan, disables);
    if j == committed.len() - 1 {
        assert(kept[before.len() as int].plane_id == committed[j].plane_id);
    } else {
        assert(rest[j] == committed[j]);
        lemma_kept_when_unused(rest, plan, disables, j);
        let h = choose|h: int|
            0 <= h < before.len() && (#[trigger] before[h]).plane_id == rest[j].plane_id;
        assert(kept[h] == before[h]);
    }
}

/// A plane's colorimetry reaches the kernel with the frame that first uses the
/// plane, and keeps its place afterwards.
pub proof fn law_colorimetry_is_written_with_its_plane(map: PlanePropertyMap, plane_id: u32)
    requires
        map.color@.contains_key(plane_id),
    ensures
        ({
            let color = map.color@[plane_id];
            let writes = color_writes(map, plane_id);
            if map.color_committed@.contains(plane_id) {
                writes.len() == 0
            } else {
                &&& writes.contains(
                    PropertyWrite {
                        object_id: plane_id,
                        property_id: color.encoding_id,
                        value: color.encoding_value,
                    },
                )
                &&& writes.contains(
                    PropertyWrite {
                        object_id: plane_id,
                        property_id: color.range_id,
                        value: color.range_value,
                    },
                )
                &&& writes.len() == 2
            }
        }),
{
    let color = map.color@[plane_id];
    let writes = color_writes(map, plane_id);
    if !map.color_committed@.contains(plane_id) {
        assert(writes[0] == (PropertyWrite {
            object_id: plane_id,
            property_id: color.encoding_id,
            value: color.encoding_value,
        }));
        assert(writes[1] == (PropertyWrite {
            object_id: plane_id,
            property_id: color.range_id,
            value: color.range_value,
        }));
    }
}

/// A built frame reaches the kernel whole: given records that are true, a draft
/// that names each layer once and a search that uses each plane once, its writes
/// leave every plane of its plan showing its layer.
pub proof fn law_a_built_frame_is_shown(
    state: KernelState,
    map: PlanePropertyMap,
    build: FrameBuild,
    draft: FrameDraft,
    allocation: Allocation,
    registry: PlaneRegistry,
    candidates: Seq<u32>,
    committed: Seq<CommittedPlane>,
    kind: CommitKind,
    canvas: Option<Composition>,
    crtc_id: u32,
    modeset: Option<Modeset>,
)
    requires
        builds(
            build,
            draft,
            allocation,
            registry,
            candidates,
            committed,
            kind,
            canvas,
            crtc_id,
        ),
        agrees(state, map, committed),
        forall|i: int, j: int|
            0 <= i < j < draft.lowered@.len() ==> (#[trigger] draft.lowered@[i]).id != (
            #[trigger] draft.lowered@[j]).id,
        forall|i: int, j: int|
            0 <= i < j < allocation.assignment.entries@.len() ==> (
            #[trigger] allocation.assignment.entries@[i]).0 != (
            #[trigger] allocation.assignment.entries@[j]).0,
        forall|i: int|
            0 <= i < build.plan@.len() ==> ids_apart(map, (#[trigger] build.plan@[i]).plane_id),
        modeset matches Some(modeset) ==> forall|i: int|
            0 <= i < build.plan@.len() ==> (#[trigger] build.plan@[i]).plane_id != modeset.crtc_id
                && build.plan@[i].plane_id != modeset.connector_id,
    ensures
        forall|i: int|
            0 <= i < build.plan@.len() ==> shows_layer(
                taken(state, frame_writes(map, build.plan@, build.disables@, modeset)),
                map,
                (#[trigger] build.plan@[i]).plane_id,
                build.plan@[i].layer,
            ),
{
    let entries = allocation.assignment.entries@;
    let bare = plan_of(draft.lowered@, entries, committed);
    let rescue = rescue_of(canvas, draft.lowered@, entries, bare);
    law_plans_are_based_on_the_records(draft.lowered@, entries, committed, rescue, crtc_id);
    law_no_plane_is_planned_twice(draft.lowered@, entries, committed, canvas, crtc_id);
    assert forall|i: int| 0 <= i < build.plan@.len() implies !build.disables@.contains(
        (#[trigger] build.plan@[i]).plane_id,
    ) by {
        law_what_is_lit_and_unused_is_switched_off(
            candidates,
            committed,
            build.plan@,
            build.plan@[i].plane_id,
        );
    }
    law_a_frame_shows_its_plan(state, map, committed, build.plan@, build.disables@, modeset);
}

proof fn lemma_full_layer(state: KernelState, map: PlanePropertyMap, plane_id: u32, layer: Layer)
    requires
        ids_apart(map, plane_id),
    ensures
        shows_layer(taken(state, layer_writes(map, plane_id, layer, None)), map, plane_id, layer),
{
    let writes = layer_writes(map, plane_id, layer, None);
    assert forall|tag: PropTag|
        (#[trigger] layer.properties.value(tag)) is Some && map.id_of(plane_id, tag) is Some && !(
        layer.externally_bound && tag == PropTag::FbId) implies holds(
        taken(state, writes),
        plane_id,
        map.id_of(plane_id, tag)->0,
        layer.properties.value(tag)->0,
    ) by {
        let value = layer.properties.value(tag)->0;
        let id = map.id_of(plane_id, tag)->0;
        law_every_change_is_written(map, plane_id, layer, None, tag, value, id);
        assert forall|i: int|
            0 <= i < writes.len() && (#[trigger] writes[i]).object_id == plane_id
                && writes[i].property_id == id implies writes[i].value == value by {
            assert(writes.contains(writes[i]));
            law_only_changes_are_written(map, plane_id, layer, None, writes[i]);
            let other = choose|other: PropTag|
                (#[trigger] layer.properties.value(other)) == Some(writes[i].value)
                    && map.planes@.contains_key(plane_id) && map.planes@[plane_id].value(other)
                    == Some(writes[i].property_id);
            assert(map.id_of(plane_id, other) == Some(id));
            if other != tag {
                assert(map.id_of(plane_id, tag) == Some(id));
            }
        }
        lemma_written_holds(state, writes, plane_id, id, value);
    }
}

proof fn lemma_layer_writes_stay_on_the_plane(
    map: PlanePropertyMap,
    plane_id: u32,
    layer: Layer,
    object_id: u32,
    property_id: u32,
)
    requires
        object_id != plane_id,
    ensures
        untouched(layer_writes(map, plane_id, layer, None), object_id, property_id),
{
    let writes = layer_writes(map, plane_id, layer, None);
    assert forall|i: int| 0 <= i < writes.len() implies (#[trigger] writes[i]).object_id
        != object_id || writes[i].property_id != property_id by {
        assert(writes.contains(writes[i]));
        law_only_changes_are_written(map, plane_id, layer, None, writes[i]);
    }
}

/// A test commit tries its assignment in full: whatever the kernel held, each
/// tried plane would show its layer.
pub proof fn law_a_test_shows_its_assignment(
    state: KernelState,
    map: PlanePropertyMap,
    assignment: Seq<TriedLayer>,
)
    requires
        forall|i: int, j: int|
            0 <= i < j < assignment.len() ==> (#[trigger] assignment[i]).plane_id != (
            #[trigger] assignment[j]).plane_id,
        forall|i: int|
            0 <= i < assignment.len() ==> ids_apart(map, (#[trigger] assignment[i]).plane_id),
    ensures
        forall|i: int|
            0 <= i < assignment.len() ==> shows_layer(
                taken(state, tried_writes(map, assignment)),
                map,
                (#[trigger] assignment[i]).plane_id,
                assignment[i].layer,
            ),
    decreases assignment.len(),
{
    if assignment.len() > 0 {
        let rest = assignment.drop_last();
        let last = assignment.last();
        let earlier = taken(state, tried_writes(map, rest));
        let writes = layer_writes(map, last.plane_id, last.layer, None);
        assert forall|i: int| 0 <= i < rest.len() implies #[trigger] rest[i] == assignment[i] by {}
        assert(assignment[assignment.len() - 1] == last);
        law_a_test_shows_its_assignment(state, map, rest);
        lemma_taken_in_turn(state, tried_writes(map, rest), writes);
        lemma_full_layer(earlier, map, last.plane_id, last.layer);
        assert forall|i: int| 0 <= i < assignment.len() implies shows_layer(
            taken(state, tried_writes(map, assignment)),
            map,
            (#[trigger] assignment[i]).plane_id,
            assignment[i].layer,
        ) by {
            if i < rest.len() {
                assert(rest[i] == assignment[i]);
                let layer = assignment[i].layer;
                let plane_id = assignment[i].plane_id;
                assert(assignment[i].plane_id != assignment[assignment.len() - 1].plane_id);
                assert(shows_layer(earlier, map, rest[i].plane_id, rest[i].layer));
                assert forall|tag: PropTag|
                    (#[trigger] layer.properties.value(tag)) is Some && map.id_of(plane_id, tag)
                        is Some && !(layer.externally_bound && tag == PropTag::FbId) implies holds(
                    taken(earlier, writes),
                    plane_id,
                    map.id_of(plane_id, tag)->0,
                    layer.properties.value(tag)->0,
                ) by {
                    let id = map.id_of(plane_id, tag)->0;
                    lemma_layer_writes_stay_on_the_plane(
                        map,
                        last.plane_id,
                        last.layer,
                        plane_id,
                        id,
                    );
                    lemma_untouched_stays(earlier, writes, plane_id, id);
                }
            }
        }
    }
}

/// The request of a test is the modeset, then the candidates it does not try
/// switched off, then the assignment in full, one after the other.
pub proof fn law_a_test_takes_its_steps_in_turn(
    state: KernelState,
    map: PlanePropertyMap,
    committer: DeviceCommitter,
    assignment: Seq<TriedLayer>,
)
    ensures
        taken(state, committer.test_writes(map, assignment)) == taken(
            taken(
                taken(state, modeset_writes(committer.modeset)),
                disables_writes(map, untried(committer.candidates@, assignment)),
            ),
            tried_writes(map, assignment),
        ),
{
    let off = disables_writes(map, untried(committer.candidates@, assignment));
    lemma_taken_in_turn(state, modeset_writes(committer.modeset), off);
    lemma_taken_in_turn(
        state,
        modeset_writes(committer.modeset) + off,
        tried_writes(map, assignment),
    );
}

/// What tells the names apart: their length, their first letter and their last.
spec fn signature(name: Seq<char>) -> (nat, char, char) {
    (name.len(), name[0], name[name.len() - 1])
}

proof fn lemma_signatures()
    ensures
        signature(PropTag::FbId.name_spec()) == (5nat, 'F', 'D'),
        signature(PropTag::CrtcId.name_spec()) == (7nat, 'C', 'D'),
        signature(PropTag::CrtcX.name_spec()) == (6nat, 'C', 'X'),
        signature(PropTag::CrtcY.name_spec()) == (6nat, 'C', 'Y'),
        signature(PropTag::CrtcW.name_spec()) == (6nat, 'C', 'W'),
        signature(PropTag::CrtcH.name_spec()) == (6nat, 'C', 'H'),
        signature(PropTag::SrcX.name_spec()) == (5nat, 'S', 'X'),
        signature(PropTag::SrcY.name_spec()) == (5nat, 'S', 'Y'),
        signature(PropTag::SrcW.name_spec()) == (5nat, 'S', 'W'),
        signature(PropTag::SrcH.name_spec()) == (5nat, 'S', 'H'),
        signature(PropTag::Rotation.name_spec()) == (8nat, 'r', 'n'),
        signature(PropTag::Zpos.name_spec()) == (4nat, 'z', 's'),
        signature(PropTag::Alpha.name_spec()) == (5nat, 'a', 'a'),
        signature(PropTag::InFenceFd.name_spec()) == (11nat, 'I', 'D'),
{
    reveal_strlit("FB_ID");
    reveal_strlit("CRTC_ID");
    reveal_strlit("CRTC_X");
    reveal_strlit("CRTC_Y");
    reveal_strlit("CRTC_W");
    reveal_strlit("CRTC_H");
    reveal_strlit("SRC_X");
    reveal_strlit("SRC_Y");
    reveal_strlit("SRC_W");
    reveal_strlit("SRC_H");
    reveal_strlit("rotation");
    reveal_strlit("zpos");
    reveal_strlit("alpha");
    reveal_strlit("IN_FENCE_FD");
    assert("FB_ID"@.len() == 5 && "FB_ID"@[0] == 'F' && "FB_ID"@[4] == 'D');
    assert("CRTC_ID"@.len() == 7 && "CRTC_ID"@[0] == 'C' && "CRTC_ID"@[6] == 'D');
    assert("CRTC_X"@.len() == 6 && "CRTC_X"@[0] == 'C' && "CRTC_X"@[5] == 'X');
    assert("CRTC_Y"@.len() == 6 && "CRTC_Y"@[0] == 'C' && "CRTC_Y"@[5] == 'Y');
    assert("CRTC_W"@.len() == 6 && "CRTC_W"@[0] == 'C' && "CRTC_W"@[5] == 'W');
    assert("CRTC_H"@.len() == 6 && "CRTC_H"@[0] == 'C' && "CRTC_H"@[5] == 'H');
    assert("SRC_X"@.len() == 5 && "SRC_X"@[0] == 'S' && "SRC_X"@[4] == 'X');
    assert("SRC_Y"@.len() == 5 && "SRC_Y"@[0] == 'S' && "SRC_Y"@[4] == 'Y');
    assert("SRC_W"@.len() == 5 && "SRC_W"@[0] == 'S' && "SRC_W"@[4] == 'W');
    assert("SRC_H"@.len() == 5 && "SRC_H"@[0] == 'S' && "SRC_H"@[4] == 'H');
    assert("rotation"@.len() == 8 && "rotation"@[0] == 'r' && "rotation"@[7] == 'n');
    assert("zpos"@.len() == 4 && "zpos"@[0] == 'z' && "zpos"@[3] == 's');
    assert("alpha"@.len() == 5 && "alpha"@[0] == 'a' && "alpha"@[4] == 'a');
    assert("IN_FENCE_FD"@.len() == 11 && "IN_FENCE_FD"@[0] == 'I' && "IN_FENCE_FD"@[10] == 'D');
}

proof fn lemma_names_differ(a: PropTag, b: PropTag)
    requires
        a.name_spec() == b.name_spec(),
        !a.is_hint_spec(),
        !b.is_hint_spec(),
    ensures
        a == b,
{
    lemma_signatures();
    assert(signature(a.name_spec()) == signature(b.name_spec()));
}

/// A plane whose properties have ids of their own is learned with ids of their
/// own.
pub proof fn law_learned_ids_are_apart(
    before: PlanePropertyMap,
    plane_id: u32,
    properties: Seq<PropertyInfo>,
    after: PlanePropertyMap,
    a: PropTag,
    b: PropTag,
)
    requires
        learned_plane(before, plane_id, properties, after),
        forall|i: int, j: int|
            0 <= i < j < properties.len() ==> (#[trigger] properties[i]).id != (
            #[trigger] properties[j]).id,
        a != b,
        after.id_of(plane_id, a) is Some,
        after.id_of(plane_id, b) is Some,
    ensures
        after.id_of(plane_id, a) != after.id_of(plane_id, b),
{
    law_a_learned_plane_resolves_its_properties(before, plane_id, properties, after, a, plane_id);
    law_a_learned_plane_resolves_its_properties(before, plane_id, properties, after, b, plane_id);
    law_the_first_of_a_name_is_found(properties, a.name_spec(), 0);
    law_the_first_of_a_name_is_found(properties, b.name_spec(), 0);
    let i = place_named(properties, a.name_spec())->0;
    let j = place_named(properties, b.name_spec())->0;
    assert(is_named(properties, a.name_spec(), i));
    assert(is_named(properties, b.name_spec(), j));
    if i == j {
        lemma_names_differ(a, b);
    } else if i < j {
        assert(properties[i].id != properties[j].id);
    } else {
        assert(properties[j].id != properties[i].id);
    }
}

} // verus!
