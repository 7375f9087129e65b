//! Building a frame: what goes on which plane, and what is reported of it.

use vstd::prelude::*;
use crate::compose::{canvas_id, canvas_layer, lower_canvas, Composition};
use crate::draft::{fresh_count, FrameDraft, LoweredLayer};
use crate::finalize::contains_layer;
use crate::frame::{AcquireTally, CommitKind};
use crate::kernel::{based_on, is_first};
use crate::planes::{
    describes_first, law_the_first_entry_places_a_layer, law_the_first_plane_of_an_id_answers,
    names_first, Allocation, Assignment, Layer, LayerId, PlaneRegistry, PropertySnapshot, TestFailure,
};
use crate::release::Acquisition;
use crate::report::{CommitReport, LayerPlacement, Placement};
use crate::scene::{
    deliveries, homeless, homes_of, kept_at, lives_in, only_kept, only_slot, routed, same_layers,
    same_retiring, CommittedPlane, Homes, LayerScene, SceneError, SceneLayer,
};
use crate::source::LayerBufferSource;

verus! {

/// One plane's share of a built frame.
#[derive(Debug, Clone, Copy, PartialEq, Eq, Structural)]
pub struct PlanePlan {
    /// The plane this layer, or the canvas, landed on.
    pub plane_id: u32,
    /// Which layer it is, or [`canvas_id`] for the canvas.
    pub layer_id: LayerId,
    /// The lowered properties to write.
    pub layer: Layer,
    /// What the kernel already holds on the plane, or `None` to write
    /// everything.
    pub baseline: Option<PropertySnapshot>,
}

/// A frame that has been built and is awaiting the kernel's answer.
///
/// Holding one means holding acquisitions: dropping it without
/// [`LayerScene::finalize_frame`] leaks them.
#[derive(Debug)]
pub struct FrameBuild {
    /// The buffers acquired for it.
    pub acquisitions: Vec<Acquisition>,
    /// What to write, one entry per plane used; the canvas comes last.
    pub plan: Vec<PlanePlan>,
    /// The planes to switch off.
    pub disables: Vec<u32>,
    /// The layers that go on showing their last buffer.
    pub carried: Vec<LayerId>,
    /// The report so far.
    pub report: CommitReport,
    /// What kind of commit it is for.
    pub kind: CommitKind,
}

impl FrameBuild {
    /// The report so far, complete except for what the kernel's answer decides.
    pub fn report(&self) -> (report: &CommitReport)
        ensures
            *report == self.report,
    {
        &self.report
    }

    /// How many buffers this frame is holding.
    pub fn held(&self) -> (count: usize)
        ensures
            count == self.acquisitions@.len(),
    {
        self.acquisitions.len()
    }

    /// Which layer landed on which plane, as lowered property bags.
    pub fn plan(&self) -> (plan: &Vec<PlanePlan>)
        ensures
            *plan == self.plan,
    {
        &self.plan
    }

    /// The lit planes this frame does not use.
    pub fn disables(&self) -> (disables: &Vec<u32>)
        ensures
            *disables == self.disables,
    {
        &self.disables
    }
}

/// What the kernel holds on a plane: its first listing.
pub open spec fn baseline_of(committed: Seq<CommittedPlane>, plane_id: u32) -> Option<
    PropertySnapshot,
>
    decreases committed.len(),
{
    if committed.len() == 0 {
        None
    } else if committed[0].plane_id == plane_id {
        Some(committed[0].layer.properties)
    } else {
        baseline_of(committed.skip(1), plane_id)
    }
}

/// The plan a placement makes of the lowered layers, in order.
pub open spec fn plan_of(
    layers: Seq<LoweredLayer>,
    entries: Seq<(u32, LayerId)>,
    committed: Seq<CommittedPlane>,
) -> Seq<PlanePlan>
    decreases layers.len(),
{
    if layers.len() == 0 {
        Seq::empty()
    } else {
        let before = plan_of(layers.drop_last(), entries, committed);
        match Assignment::plane_of(entries, layers.last().id) {
            Some(plane_id) => before.push(
                PlanePlan {
                    plane_id,
                    layer_id: layers.last().id,
                    layer: layers.last().layer,
                    baseline: baseline_of(committed, plane_id),
                },
            ),
            None => before,
        }
    }
}

/// The held layers a placement keeps on a plane, in order.
pub open spec fn carried_of(layers: Seq<LoweredLayer>, entries: Seq<(u32, LayerId)>) -> Seq<LayerId>
    decreases layers.len(),
{
    if layers.len() == 0 {
        Seq::empty()
    } else {
        let before = carried_of(layers.drop_last(), entries);
        if layers.last().held && Assignment::plane_of(entries, layers.last().id) is Some {
            before.push(layers.last().id)
        } else {
            before
        }
    }
}

/// How many layers with a buffer of this frame a placement puts on a plane.
pub open spec fn placed_count(layers: Seq<LoweredLayer>, entries: Seq<(u32, LayerId)>) -> int
    decreases layers.len(),
{
    if layers.len() == 0 {
        0
    } else {
        placed_count(layers.drop_last(), entries) + if !layers.last().held && Assignment::plane_of(
            entries,
            layers.last().id,
        ) is Some {
            1int
        } else {
            0
        }
    }
}

/// Whether a plan uses a plane.
pub open spec fn uses(plan: Seq<PlanePlan>, plane_id: u32) -> bool {
    exists|i: int| 0 <= i < plan.len() && (#[trigger] plan[i]).plane_id == plane_id
}

/// The planes to switch off: those of `candidates` the kernel has lit and the
/// plan does not use, in order. A plane already off is left alone.
pub open spec fn disables_of(
    candidates: Seq<u32>,
    committed: Seq<CommittedPlane>,
    plan: Seq<PlanePlan>,
) -> Seq<u32>
    decreases candidates.len(),
{
    if candidates.len() == 0 {
        Seq::empty()
    } else {
        let before = disables_of(candidates.drop_last(), committed, plan);
        if baseline_of(committed, candidates.last()) is Some && !uses(plan, candidates.last()) {
            before.push(candidates.last())
        } else {
            before
        }
    }
}

/// The outcome recorded for one placed layer.
pub open spec fn placement_on(entry: (u32, LayerId), registry: PlaneRegistry) -> LayerPlacement {
    LayerPlacement {
        layer: entry.1,
        placement: Placement::AssignedToPlane,
        plane_id: Some(entry.0),
        plane_rotation_bits: registry.rotation_bits_of(entry.0),
    }
}

/// The outcome recorded for one layer no plane was found for.
pub open spec fn placement_nowhere(layer: LayerId) -> LayerPlacement {
    LayerPlacement {
        layer,
        placement: Placement::Unassigned,
        plane_id: None,
        plane_rotation_bits: 0,
    }
}

/// Whether a lowered layer has a buffer of this frame and no plane.
pub open spec fn overflows(layer: LoweredLayer, entries: Seq<(u32, LayerId)>) -> bool {
    !layer.held && Assignment::plane_of(entries, layer.id) is None
}

/// Whether a layer is one of those that overflow.
pub open spec fn is_overflow(
    layers: Seq<LoweredLayer>,
    entries: Seq<(u32, LayerId)>,
    layer: LayerId,
) -> bool {
    exists|i: int|
        0 <= i < layers.len() && (#[trigger] layers[i]).id == layer && overflows(layers[i], entries)
}

/// The layers that overflow and are not in `listed`, in order.
pub open spec fn unlisted(
    layers: Seq<LoweredLayer>,
    entries: Seq<(u32, LayerId)>,
    listed: Seq<LayerId>,
) -> Seq<LayerId>
    decreases layers.len(),
{
    if layers.len() == 0 {
        Seq::empty()
    } else {
        let before = unlisted(layers.drop_last(), entries, listed);
        if overflows(layers.last(), entries) && !listed.contains(layers.last().id) {
            before.push(layers.last().id)
        } else {
            before
        }
    }
}

/// Every layer no plane was found for: those the search names, then any it
/// left out.
pub open spec fn overflow_of(layers: Seq<LoweredLayer>, allocation: Allocation) -> Seq<LayerId> {
    allocation.composited@ + unlisted(
        layers,
        allocation.assignment.entries@,
        allocation.composited@,
    )
}

/// How many layers overflow and are among those that could be mapped.
pub open spec fn rescued_count(
    layers: Seq<LoweredLayer>,
    entries: Seq<(u32, LayerId)>,
    mapped: Seq<LayerId>,
) -> int
    decreases layers.len(),
{
    if layers.len() == 0 {
        0
    } else {
        rescued_count(layers.drop_last(), entries, mapped) + if overflows(layers.last(), entries)
            && mapped.contains(layers.last().id) {
            1int
        } else {
            0
        }
    }
}

/// The composition a frame takes up: the one on offer, if it has something to
/// show and its plane is not already used by the plan.
pub open spec fn rescue_of(
    canvas: Option<Composition>,
    layers: Seq<LoweredLayer>,
    entries: Seq<(u32, LayerId)>,
    plan: Seq<PlanePlan>,
) -> Option<Composition> {
    match canvas {
        Some(canvas) => if rescued_count(layers, entries, canvas.mapped@) > 0 && !uses(
            plan,
            canvas.target.plane_id,
        ) {
            Some(canvas)
        } else {
            None
        },
        None => None,
    }
}

/// How many layers a composition rescues.
pub open spec fn composited_count(
    layers: Seq<LoweredLayer>,
    entries: Seq<(u32, LayerId)>,
    rescue: Option<Composition>,
) -> int {
    match rescue {
        Some(canvas) => rescued_count(layers, entries, canvas.mapped@),
        None => 0,
    }
}

/// The outcome recorded for a layer no plane was found for: in the canvas, if
/// there is one and the layer is in it.
pub open spec fn placement_off_plane(
    layer: LayerId,
    layers: Seq<LoweredLayer>,
    entries: Seq<(u32, LayerId)>,
    rescue: Option<Composition>,
) -> LayerPlacement {
    match rescue {
        Some(canvas) => if canvas.mapped@.contains(layer) && is_overflow(layers, entries, layer) {
            LayerPlacement {
                layer,
                placement: Placement::Composited,
                plane_id: Some(canvas.target.plane_id),
                plane_rotation_bits: 0,
            }
        } else {
            placement_nowhere(layer)
        },
        None => placement_nowhere(layer),
    }
}

/// The outcomes of a placement: the placed layers, then the others.
pub open spec fn placements_of(
    layers: Seq<LoweredLayer>,
    allocation: Allocation,
    registry: PlaneRegistry,
    rescue: Option<Composition>,
) -> Seq<LayerPlacement> {
    let entries = allocation.assignment.entries@;
    entries.map_values(|entry: (u32, LayerId)| placement_on(entry, registry)) + overflow_of(
        layers,
        allocation,
    ).map_values(|layer: LayerId| placement_off_plane(layer, layers, entries, rescue))
}

/// The canvas's share of a frame.
pub open spec fn canvas_entry(
    canvas: Composition,
    crtc_id: u32,
    committed: Seq<CommittedPlane>,
) -> PlanePlan {
    PlanePlan {
        plane_id: canvas.target.plane_id,
        layer_id: canvas_id(),
        layer: canvas_layer(canvas.target, crtc_id),
        baseline: baseline_of(committed, canvas.target.plane_id),
    }
}

/// A plan with the canvas behind it, where there is one.
pub open spec fn with_canvas(
    plan: Seq<PlanePlan>,
    rescue: Option<Composition>,
    crtc_id: u32,
    committed: Seq<CommittedPlane>,
) -> Seq<PlanePlan> {
    match rescue {
        Some(canvas) => plan.push(canvas_entry(canvas, crtc_id, committed)),
        None => plan,
    }
}

/// Whether `report` is what a tally, the lowered layers, their placement and
/// the composition taken up come to.
pub open spec fn reports(
    report: CommitReport,
    tally: AcquireTally,
    layers: Seq<LoweredLayer>,
    allocation: Allocation,
    registry: PlaneRegistry,
    rescue: Option<Composition>,
) -> bool {
    let entries = allocation.assignment.entries@;
    let placed = placed_count(layers, entries);
    let composited = composited_count(layers, entries, rescue);
    &&& report == (CommitReport {
        layers_total: (tally.acquired + tally.skipped_no_frame) as usize,
        layers_assigned: placed as usize,
        layers_composited: composited as usize,
        layers_unassigned: (fresh_count(layers) - placed - composited) as usize,
        layers_skipped_no_frame: tally.skipped_no_frame,
        composition_buckets: if rescue is Some {
            1
        } else {
            0
        },
        in_fence_cpu_waits: match rescue {
            Some(canvas) => canvas.waits,
            None => 0,
        },
        test_commits_issued: allocation.test_commits_issued,
        fb_delta_fast_path: allocation.fb_delta_fast_path,
        budget_exhausted: allocation.budget_exhausted,
        ..CommitReport::blank(report.placements)
    })
    &&& report.placements@ == placements_of(layers, allocation, registry, rescue)
}

fn find_baseline(
    committed: &Vec<CommittedPlane>,
    plane_id: u32,
) -> (found: Option<PropertySnapshot>)
    ensures
        found == baseline_of(committed@, plane_id),
{
    let mut i: usize = 0;
    assert(committed@.skip(0) =~= committed@);
    while i < committed.len()
        invariant
            0 <= i <= committed@.len(),
            baseline_of(committed@, plane_id) == baseline_of(committed@.skip(i as int), plane_id),
        decreases committed@.len() - i,
    {
        if committed[i].plane_id == plane_id {
            return Some(committed[i].layer.properties);
        }
        assert(committed@.skip(i as int).skip(1) =~= committed@.skip(i + 1));
        i += 1;
    }
    None
}

pub(crate) fn plan_uses(plan: &Vec<PlanePlan>, plane_id: u32) -> (used: bool)
    ensures
        used == uses(plan@, plane_id),
{
    let mut i: usize = 0;
    while i < plan.len()
        invariant
            0 <= i <= plan@.len(),
            forall|j: int| 0 <= j < i ==> (#[trigger] plan@[j]).plane_id != plane_id,
        decreases plan@.len() - i,
    {
        if plan[i].plane_id == plane_id {
            return true;
        }
        i += 1;
    }
    false
}

fn list_disables(
    candidates: &[u32],
    committed: &Vec<CommittedPlane>,
    plan: &Vec<PlanePlan>,
) -> (disables: Vec<u32>)
    ensures
        disables@ == disables_of(candidates@, committed@, plan@),
{
    let mut disables: Vec<u32> = Vec::new();
    let mut i: usize = 0;
    while i < candidates.len()
        invariant
            0 <= i <= candidates@.len(),
            disables@ == disables_of(candidates@.take(i as int), committed@, plan@),
        decreases candidates@.len() - i,
    {
        assert(candidates@.take(i + 1).drop_last() =~= candidates@.take(i as int));
        let plane_id: u32 = candidates[i];
        if find_baseline(committed, plane_id).is_some() && !plan_uses(plan, plane_id) {
            disables.push(plane_id);
        }
        i += 1;
    }
    assert(candidates@.take(candidates@.len() as int) =~= candidates@);
    disables
}

fn list_overflow(layers: &Vec<LoweredLayer>, allocation: &Allocation) -> (overflow: Vec<LayerId>)
    ensures
        overflow@ == overflow_of(layers@, *allocation),
{
    let ghost entries = allocation.assignment.entries@;
    let ghost listed = allocation.composited@;
    let mut overflow: Vec<LayerId> = Vec::new();
    let mut k: usize = 0;
    while k < allocation.composited.len()
        invariant
            0 <= k <= listed.len(),
            listed == allocation.composited@,
            overflow@ == listed.take(k as int),
        decreases listed.len() - k,
    {
        overflow.push(allocation.composited[k]);
        assert(overflow@ =~= listed.take(k + 1));
        k += 1;
    }
    assert(overflow@ =~= listed + unlisted(layers@.take(0), entries, listed));
    let mut i: usize = 0;
    while i < layers.len()
        invariant
            0 <= i <= layers@.len(),
            entries == allocation.assignment.entries@,
            listed == allocation.composited@,
            overflow@ == listed + unlisted(layers@.take(i as int), entries, listed),
        decreases layers@.len() - i,
    {
        assert(layers@.take(i + 1).drop_last() =~= layers@.take(i as int));
        let entry: LoweredLayer = layers[i];
        if !entry.held && allocation.assignment.get_plane_of(entry.id).is_none()
            && !contains_layer(&allocation.composited, entry.id) {
            overflow.push(entry.id);
        }
        assert(overflow@ =~= listed + unlisted(layers@.take(i + 1), entries, listed));
        i += 1;
    }
    assert(layers@.take(layers@.len() as int) =~= layers@);
    overflow
}

fn overflow_holds(layers: &Vec<LoweredLayer>, assignment: &Assignment, layer: LayerId) -> (found:
    bool)
    ensures
        found == is_overflow(layers@, assignment.entries@, layer),
{
    let mut i: usize = 0;
    while i < layers.len()
        invariant
            0 <= i <= layers@.len(),
            forall|j: int|
                0 <= j < i ==> !((#[trigger] layers@[j]).id == layer && overflows(
                    layers@[j],
                    assignment.entries@,
                )),
        decreases layers@.len() - i,
    {
        let entry: LoweredLayer = layers[i];
        if entry.id == layer && !entry.held && assignment.get_plane_of(entry.id).is_none() {
            assert(overflows(layers@[i as int], assignment.entries@));
            return true;
        }
        i += 1;
    }
    false
}

fn count_rescued(
    layers: &Vec<LoweredLayer>,
    assignment: &Assignment,
    mapped: &Vec<LayerId>,
) -> (count:
    usize)
    ensures
        count == rescued_count(layers@, assignment.entries@, mapped@),
{
    let mut count: usize = 0;
    let mut i: usize = 0;
    while i < layers.len()
        invariant
            0 <= i <= layers@.len(),
            count == rescued_count(layers@.take(i as int), assignment.entries@, mapped@),
            count <= i,
        decreases layers@.len() - i,
    {
        assert(layers@.take(i + 1).drop_last() =~= layers@.take(i as int));
        let entry: LoweredLayer = layers[i];
        if !entry.held && assignment.get_plane_of(entry.id).is_none() && contains_layer(
            mapped,
            entry.id,
        ) {
            count += 1;
        }
        i += 1;
    }
    assert(layers@.take(layers@.len() as int) =~= layers@);
    count
}

proof fn lemma_counts_are_counts(
    layers: Seq<LoweredLayer>,
    entries: Seq<(u32, LayerId)>,
    mapped: Seq<LayerId>,
)
    ensures
        0 <= placed_count(layers, entries),
        0 <= rescued_count(layers, entries, mapped),
        placed_count(layers, entries) + rescued_count(layers, entries, mapped) <= fresh_count(
            layers,
        ) <= layers.len(),
    decreases layers.len(),
{
    if layers.len() > 0 {
        lemma_counts_are_counts(layers.drop_last(), entries, mapped);
    }
}

/// Assemble the report for a built frame.
///
/// Every layer is counted once: a layer that goes on showing its last buffer
/// counts as skipped, not as assigned, and one in the canvas as composited.
pub fn build_report(
    tally: &AcquireTally,
    layers: &Vec<LoweredLayer>,
    allocation: &Allocation,
    registry: &PlaneRegistry,
    rescue: &Option<Composition>,
) -> (report: CommitReport)
    requires
        fresh_count(layers@) == tally.acquired,
        tally.acquired + tally.skipped_no_frame <= usize::MAX,
    ensures
        reports(report, *tally, layers@, *allocation, *registry, *rescue),
        report.balances(),
{
    let ghost entries = allocation.assignment.entries@;
    let mut assigned: usize = 0;
    let mut i: usize = 0;
    while i < layers.len()
        invariant
            0 <= i <= layers@.len(),
            entries == allocation.assignment.entries@,
            assigned == placed_count(layers@.take(i as int), entries),
            assigned <= i,
        decreases layers@.len() - i,
    {
        assert(layers@.take(i + 1).drop_last() =~= layers@.take(i as int));
        let entry: LoweredLayer = layers[i];
        if !entry.held && allocation.assignment.get_plane_of(entry.id).is_some() {
            assigned += 1;
        }
        i += 1;
    }
    assert(layers@.take(layers@.len() as int) =~= layers@);
    let composited: usize = match rescue {
        Some(canvas) => count_rescued(layers, &allocation.assignment, &canvas.mapped),
        None => 0,
    };
    proof {
        match rescue {
            Some(canvas) => lemma_counts_are_counts(layers@, entries, canvas.mapped@),
            None => lemma_counts_are_counts(layers@, entries, Seq::empty()),
        }
    }

    let mut placements: Vec<LayerPlacement> = Vec::new();
    let mut j: usize = 0;
    while j < allocation.assignment.entries.len()
        invariant
            0 <= j <= entries.len(),
            entries == allocation.assignment.entries@,
            placements@ == entries.take(j as int).map_values(
                |entry: (u32, LayerId)| placement_on(entry, *registry),
            ),
        decreases entries.len() - j,
    {
        let (plane_id, layer) = allocation.assignment.entries[j];
        let plane_rotation_bits: u64 = match registry.by_id(plane_id) {
            Some(plane) => plane.rotation_bits,
            None => 0,
        };
        placements.push(
            LayerPlacement {
                layer,
                placement: Placement::AssignedToPlane,
                plane_id: Some(plane_id),
                plane_rotation_bits,
            },
        );
        assert(placements@ =~= entries.take(j + 1).map_values(
            |entry: (u32, LayerId)| placement_on(entry, *registry),
        ));
        j += 1;
    }
    assert(entries.take(entries.len() as int) =~= entries);
    let ghost on_planes = placements@;
    let overflow: Vec<LayerId> = list_overflow(layers, allocation);
    let mut k: usize = 0;
    while k < overflow.len()
        invariant
            0 <= k <= overflow@.len(),
            entries == allocation.assignment.entries@,
            placements@ == on_planes + overflow@.take(k as int).map_values(
                |layer: LayerId| placement_off_plane(layer, layers@, entries, *rescue),
            ),
        decreases overflow@.len() - k,
    {
        let layer: LayerId = overflow[k];
        let canvas_plane: Option<u32> = match rescue {
            Some(canvas) => if contains_layer(&canvas.mapped, layer) && overflow_holds(
                layers,
                &allocation.assignment,
                layer,
            ) {
                Some(canvas.target.plane_id)
            } else {
                None
            },
            None => None,
        };
        placements.push(
            LayerPlacement {
                layer,
                placement: if canvas_plane.is_some() {
                    Placement::Composited
                } else {
                    Placement::Unassigned
                },
                plane_id: canvas_plane,
                plane_rotation_bits: 0,
            },
        );
        assert(placements@ =~= on_planes + overflow@.take(k + 1).map_values(
            |layer: LayerId| placement_off_plane(layer, layers@, entries, *rescue),
        ));
        k += 1;
    }
    assert(overflow@.take(overflow@.len() as int) =~= overflow@);
    let mut report = CommitReport::default();
    report.layers_total = tally.considered();
    report.layers_assigned = assigned;
    report.layers_composited = composited;
    report.layers_unassigned = tally.acquired - assigned - composited;
    report.layers_skipped_no_frame = tally.skipped_no_frame;
    if let Some(canvas) = rescue {
        report.composition_buckets = 1;
        report.in_fence_cpu_waits = canvas.waits;
    }
    report.test_commits_issued = allocation.test_commits_issued;
    report.fb_delta_fast_path = allocation.fb_delta_fast_path;
    report.budget_exhausted = allocation.budget_exhausted;
    report.placements = placements;
    report
}

/// A layer table whose hints have been seen.
pub open spec fn settled<S>(slots: Seq<Option<SceneLayer<S>>>) -> Seq<Option<SceneLayer<S>>> {
    slots.map_values(
        |slot: Option<SceneLayer<S>>|
            match slot {
                Some(layer) => Some(SceneLayer { hints_dirty: false, ..layer }),
                None => None,
            },
    )
}

/// Whether `build` is the frame a draft, its placement and the composition on
/// offer make.
pub open spec fn builds(
    build: FrameBuild,
    draft: FrameDraft,
    allocation: Allocation,
    registry: PlaneRegistry,
    candidates: Seq<u32>,
    committed: Seq<CommittedPlane>,
    kind: CommitKind,
    canvas: Option<Composition>,
    crtc_id: u32,
) -> bool {
    let entries = allocation.assignment.entries@;
    let plan = plan_of(draft.lowered@, entries, committed);
    let rescue = rescue_of(canvas, draft.lowered@, entries, plan);
    &&& build.acquisitions == draft.acquisitions
    &&& build.plan@ == with_canvas(plan, rescue, crtc_id, committed)
    &&& build.disables@ == disables_of(candidates, committed, build.plan@)
    &&& build.carried@ == carried_of(draft.lowered@, entries)
    &&& reports(build.report, draft.tally, draft.lowered@, allocation, registry, rescue)
    &&& build.kind == kind
}

/// Whether an allocation placed nothing and cost nothing.
pub open spec fn places_nothing(allocation: Allocation) -> bool {
    allocation.assignment.entries@.len() == 0 && allocation.composited@.len() == 0
        && allocation.test_commits_issued == 0 && !allocation.fb_delta_fast_path
        && !allocation.budget_exhausted
}

impl<S: LayerBufferSource> LayerScene<S> {
    /// Note that the current hints have been seen.
    fn settle_hints(&mut self)
        requires
            old(self).well_formed(),
        ensures
            final(self).well_formed(),
            final(self).slots@ == settled(old(self).slots@),
            *final(self) == (LayerScene { slots: final(self).slots, ..*old(self) }),
    {
        let ghost before = self.slots@;
        let mut i: usize = 0;
        while i < self.slots.len()
            invariant
                0 <= i <= before.len(),
                before == old(self).slots@,
                old(self).well_formed(),
                self.slots@.len() == before.len(),
                self.slots@ == settled(before.take(i as int)) + before.skip(i as int),
                *self == (LayerScene { slots: self.slots, ..*old(self) }),
            decreases before.len() - i,
        {
            assert(self.slots@[i as int] == before[i as int]);
            if let Some(layer) = &mut self.slots[i] {
                layer.hints_dirty = false;
            }
            assert(self.slots@ =~= settled(before.take(i + 1)) + before.skip(i + 1));
            i += 1;
        }
        assert(self.slots@ =~= settled(before));
        proof {
            assert forall|k: int| 0 <= k < self.free@.len() implies self.slots@[(
            #[trigger] self.free@[k]) - 1] is None by {
                assert(old(self).slots@[old(self).free@[k] - 1] is None);
            }
            assert forall|k: int| 0 <= k < self.slots@.len() && (#[trigger] self.slots@[k])
                is None implies self.free@.contains((k + 1) as u32) by {
                assert(old(self).slots@[k] is None);
            }
        }
    }

    /// Turn a draft and its placement into a frame to commit.
    ///
    /// `placed` is where the layers of the draft were put; `candidates` are the
    /// planes of this CRTC that may have to be switched off. If DRM master was
    /// lost while placing them, the draft's buffers go straight back. A search
    /// the kernel refused outright counts as one that placed nothing.
    ///
    /// `canvas` is the composition on offer for layers without a plane. It is
    /// taken up if one of them is in it and its plane is free.
    pub fn build_frame(
        &mut self,
        draft: FrameDraft,
        placed: Result<Allocation, TestFailure>,
        registry: &PlaneRegistry,
        candidates: &[u32],
        kind: CommitKind,
        canvas: Option<Composition>,
    ) -> (build: Result<FrameBuild, SceneError>)
        requires
            old(self).well_formed(),
            draft.well_formed(),
        ensures
            final(self).well_formed(),
            match build {
                Ok(build) => {
                    &&& placed != Err::<Allocation, TestFailure>(TestFailure::NotMaster)
                    &&& match placed {
                        Ok(allocation) => builds(
                            build,
                            draft,
                            allocation,
                            *registry,
                            candidates@,
                            old(self).committed@,
                            kind,
                            canvas,
                            old(self).crtc_id,
                        ),
                        Err(_) => exists|nothing: Allocation| #[trigger]
                            places_nothing(nothing) && builds(
                                build,
                                draft,
                                nothing,
                                *registry,
                                candidates@,
                                old(self).committed@,
                                kind,
                                canvas,
                                old(self).crtc_id,
                            ),
                    }
                    &&& build.report.balances()
                    &&& final(self).slots@ == settled(old(self).slots@)
                    &&& *final(self) == (LayerScene { slots: final(self).slots, ..*old(self) })
                },
                Err(error) => {
                    &&& error == SceneError::NotMaster
                    &&& placed == Err::<Allocation, TestFailure>(TestFailure::NotMaster)
                    &&& same_layers(old(self).slots@, final(self).slots@)
                    &&& final(self).calls@ == old(self).calls@ + deliveries(
                        old(self).slots@,
                        old(self).generations@,
                        old(self).retiring@,
                        draft.acquisitions@,
                    )
                    &&& if old(self).lifecycle.releases.held().len() == 0 {
                        final(self).retiring@.len() == 0
                    } else {
                        same_retiring(old(self).retiring@, final(self).retiring@)
                    }
                    &&& *final(self) == (LayerScene {
                        slots: final(self).slots,
                        retiring: final(self).retiring,
                        calls: final(self).calls,
                        ..*old(self)
                    })
                },
            },
            build matches Ok(build) ==> forall|i: int|
                0 <= i < build.plan@.len() ==> based_on(
                    old(self).committed@,
                    #[trigger] build.plan@[i],
                ),
            build is Err ==> exists|route: Seq<Homes<S>>|
                #![trigger routed(
                    homes_of(*old(self)),
                    route,
                    draft.acquisitions@.len(),
                    *final(self),
                )]
                routed(homes_of(*old(self)), route, draft.acquisitions@.len(), *final(self)) && (forall|k: int|
                    #![trigger route[k]]
                    0 <= k < draft.acquisitions@.len() ==> {
                        ||| exists|i: int, asked: &mut S|
                            #![trigger lives_in(
                                route[k].slots,
                                old(self).generations@,
                                draft.acquisitions@[k].layer,
                                i,
                            ), call_ensures(
                                S::release_with_fence,
                                (asked, draft.acquisitions@[k].buffer, draft.acquisitions@[k].release_fence),
                                (),
                            )]
                            lives_in(
                                route[k].slots,
                                old(self).generations@,
                                draft.acquisitions@[k].layer,
                                i,
                            )
                                && *asked == route[k].slots[i]->0.source && *final(asked)
                                == route[k + 1].slots[i]->0.source && only_slot(
                                    route[k],
                                    route[k + 1],
                                    i,
                                )
                                && call_ensures(
                                S::release_with_fence,
                                (asked, draft.acquisitions@[k].buffer, draft.acquisitions@[k].release_fence),
                                (),
                            )
                        ||| exists|j: int, asked: &mut S|
                            #![trigger kept_at(
                                route[k],
                                old(self).generations@,
                                draft.acquisitions@[k].layer,
                                j,
                            ), call_ensures(
                                S::release_with_fence,
                                (asked, draft.acquisitions@[k].buffer, draft.acquisitions@[k].release_fence),
                                (),
                            )]
                            kept_at(
                                route[k],
                                old(self).generations@,
                                draft.acquisitions@[k].layer,
                                j,
                            )
                                && *asked == route[k].retiring[j].source && *final(asked)
                                == route[k + 1].retiring[j].source && only_kept(
                                    route[k],
                                    route[k + 1],
                                    j,
                                )
                                && call_ensures(
                                S::release_with_fence,
                                (asked, draft.acquisitions@[k].buffer, draft.acquisitions@[k].release_fence),
                                (),
                            )
                        ||| homeless(
                            route[k],
                            old(self).generations@,
                            draft.acquisitions@[k].layer,
                        ) && route[k + 1] == route[k]
                    }),
    {
        let allocation: Allocation = match placed {
            Ok(allocation) => allocation,
            Err(TestFailure::NotMaster) => {
                self.release_all(draft.acquisitions);
                return Err(SceneError::NotMaster);
            },
            Err(TestFailure::Rejected) => Allocation::nothing(),
        };
        assert(placed is Err ==> places_nothing(allocation));
        self.settle_hints();

        let ghost entries = allocation.assignment.entries@;
        let ghost layers = draft.lowered@;
        let mut plan: Vec<PlanePlan> = Vec::new();
        let mut carried: Vec<LayerId> = Vec::new();
        let mut i: usize = 0;
        while i < draft.lowered.len()
            invariant
                0 <= i <= layers.len(),
                layers == draft.lowered@,
                entries == allocation.assignment.entries@,
                plan@ == plan_of(layers.take(i as int), entries, self.committed@),
                carried@ == carried_of(layers.take(i as int), entries),
            decreases layers.len() - i,
        {
            assert(layers.take(i + 1).drop_last() =~= layers.take(i as int));
            let entry: LoweredLayer = draft.lowered[i];
            if let Some(plane_id) = allocation.assignment.get_plane_of(entry.id) {
                plan.push(
                    PlanePlan {
                        plane_id,
                        layer_id: entry.id,
                        layer: entry.layer,
                        baseline: find_baseline(&self.committed, plane_id),
                    },
                );
                if entry.held {
                    carried.push(entry.id);
                }
            }
            i += 1;
        }
        assert(layers.take(layers.len() as int) =~= layers);
        let rescue: Option<Composition> = match canvas {
            Some(offered) => if count_rescued(
                &draft.lowered,
                &allocation.assignment,
                &offered.mapped,
            ) > 0 && !plan_uses(&plan, offered.target.plane_id) {
                Some(offered)
            } else {
                None
            },
            None => None,
        };
        let report = build_report(&draft.tally, &draft.lowered, &allocation, registry, &rescue);
        if let Some(taken) = &rescue {
            plan.push(
                PlanePlan {
                    plane_id: taken.target.plane_id,
                    layer_id: LayerId(0),
                    layer: lower_canvas(&taken.target, self.crtc_id),
                    baseline: find_baseline(&self.committed, taken.target.plane_id),
                },
            );
        }
        let disables: Vec<u32> = list_disables(candidates, &self.committed, &plan);
        proof {
            law_plans_are_based_on_the_records(
                layers,
                entries,
                self.committed@,
                rescue,
                self.crtc_id,
            );
            assert(plan@ =~= with_canvas(
                plan_of(layers, entries, self.committed@),
                rescue,
                self.crtc_id,
                self.committed@,
            ));
        }
        Ok(
            FrameBuild {
                acquisitions: draft.acquisitions,
                plan,
                disables,
                carried,
                report,
                kind,
            },
        )
    }
}

// --- laws --------------------------------------------------------------------

/// The planes a frame switches off are exactly the lit candidates it does not
/// use, so no plane is both programmed and switched off, and a lit plane whose
/// layer has gone is switched off.
pub proof fn law_disables_are_the_lit_unused_candidates(
    candidates: Seq<u32>,
    committed: Seq<CommittedPlane>,
    plan: Seq<PlanePlan>,
    plane_id: u32,
)
    ensures
        disables_of(candidates, committed, plan).contains(plane_id) <==> (candidates.contains(
            plane_id,
        ) && baseline_of(committed, plane_id) is Some && !uses(plan, plane_id)),
    decreases candidates.len(),
{
    if candidates.len() > 0 {
        law_disables_are_the_lit_unused_candidates(
            candidates.drop_last(),
            committed,
            plan,
            plane_id,
        );
        let before = disables_of(candidates.drop_last(), committed, plan);
        let after = disables_of(candidates, committed, plan);
        assert(candidates =~= candidates.drop_last().push(candidates.last()));
        if candidates.contains(plane_id) && candidates.last() != plane_id {
            let k = choose|k: int| 0 <= k < candidates.len() && candidates[k] == plane_id;
            assert(candidates.drop_last()[k] == plane_id);
        }
        if candidates.drop_last().contains(plane_id) {
            let k = choose|k: int|
                0 <= k < candidates.drop_last().len() && candidates.drop_last()[k] == plane_id;
            assert(candidates[k] == plane_id);
        }
        if after.len() > before.len() {
            assert(after[before.len() as int] == candidates.last());
            if after.contains(plane_id) && candidates.last() != plane_id {
                let k = choose|k: int| 0 <= k < after.len() && after[k] == plane_id;
                assert(before[k] == plane_id);
            }
            if before.contains(plane_id) {
                let k = choose|k: int| 0 <= k < before.len() && before[k] == plane_id;
                assert(after[k] == plane_id);
            }
        }
    }
}

/// A built frame that reused the last placement without a test commit says so
/// consistently.
pub proof fn law_reports_keep_the_fast_path_contract(
    report: CommitReport,
    tally: AcquireTally,
    layers: Seq<LoweredLayer>,
    allocation: Allocation,
    registry: PlaneRegistry,
    rescue: Option<Composition>,
)
    requires
        reports(report, tally, layers, allocation, registry, rescue),
        allocation.fb_delta_fast_path ==> allocation.test_commits_issued == 0,
    ensures
        report.fast_path_holds(),
{
}

proof fn lemma_everything_mapped_is_rescued(
    layers: Seq<LoweredLayer>,
    entries: Seq<(u32, LayerId)>,
    mapped: Seq<LayerId>,
)
    requires
        forall|layer: LayerId| #[trigger] is_overflow(layers, entries, layer) ==> mapped.contains(layer),
    ensures
        placed_count(layers, entries) + rescued_count(
            layers,
            entries,
            mapped,
        ) == fresh_count(layers),
    decreases layers.len(),
{
    if layers.len() > 0 {
        let rest = layers.drop_last();
        assert forall|layer: LayerId| #[trigger] is_overflow(rest, entries, layer) implies mapped.contains(
            layer,
        ) by {
            let i = choose|i: int|
                0 <= i < rest.len() && (#[trigger] rest[i]).id == layer && overflows(
                    rest[i],
                    entries,
                );
            assert(layers[i] == rest[i]);
            assert(is_overflow(layers, entries, layer));
        }
        lemma_everything_mapped_is_rescued(rest, entries, mapped);
        if overflows(layers.last(), entries) {
            assert(layers[layers.len() - 1].id == layers.last().id);
            assert(is_overflow(layers, entries, layers.last().id));
        }
    }
}

/// Where the canvas is taken up and every layer without a plane is in it, none
/// is dropped, and at least one reached the screen that way.
pub proof fn law_the_canvas_rescues_what_is_mapped(
    report: CommitReport,
    tally: AcquireTally,
    layers: Seq<LoweredLayer>,
    allocation: Allocation,
    registry: PlaneRegistry,
    canvas: Composition,
    plan: Seq<PlanePlan>,
)
    requires
        fresh_count(layers) == tally.acquired,
        rescue_of(Some(canvas), layers, allocation.assignment.entries@, plan) is Some,
        reports(report, tally, layers, allocation, registry, Some(canvas)),
        forall|layer: LayerId| #[trigger]
            is_overflow(layers, allocation.assignment.entries@, layer) ==> canvas.mapped@.contains(
                layer,
            ),
    ensures
        report.layers_unassigned == 0,
        report.layers_composited > 0,
        report.composition_buckets == 1,
{
    let entries = allocation.assignment.entries@;
    lemma_everything_mapped_is_rescued(layers, entries, canvas.mapped@);
    lemma_counts_are_counts(layers, entries, canvas.mapped@);
}

proof fn lemma_unlisted_are_the_rest(
    layers: Seq<LoweredLayer>,
    entries: Seq<(u32, LayerId)>,
    listed: Seq<LayerId>,
    i: int,
)
    requires
        0 <= i < layers.len(),
        overflows(layers[i], entries),
        !listed.contains(layers[i].id),
    ensures
        unlisted(layers, entries, listed).contains(layers[i].id),
    decreases layers.len(),
{
    let before = unlisted(layers.drop_last(), entries, listed);
    let after = unlisted(layers, entries, listed);
    if i == layers.len() - 1 {
        assert(after[before.len() as int] == layers[i].id);
    } else {
        assert(layers.drop_last()[i] == layers[i]);
        lemma_unlisted_are_the_rest(layers.drop_last(), entries, listed, i);
        let k = choose|k: int| 0 <= k < before.len() && before[k] == layers[i].id;
        assert(after[k] == layers[i].id);
    }
}

/// A layer without a plane is reported composited, on the canvas plane, if it
/// is in the canvas, and dropped if it is not: a source that cannot be mapped
/// is never reported on screen.
pub proof fn law_overflow_is_reported_where_it_went(
    layers: Seq<LoweredLayer>,
    allocation: Allocation,
    registry: PlaneRegistry,
    canvas: Composition,
    layer: LayerId,
)
    requires
        is_overflow(layers, allocation.assignment.entries@, layer),
    ensures
        ({
            let placements = placements_of(layers, allocation, registry, Some(canvas));
            let composited = LayerPlacement {
                layer,
                placement: Placement::Composited,
                plane_id: Some(canvas.target.plane_id),
                plane_rotation_bits: 0,
            };
            if canvas.mapped@.contains(layer) {
                placements.contains(composited)
            } else {
                placements.contains(placement_nowhere(layer)) && !placements.contains(composited)
            }
        }),
{
    let entries = allocation.assignment.entries@;
    let listed = allocation.composited@;
    let overflow = overflow_of(layers, allocation);
    let placements = placements_of(layers, allocation, registry, Some(canvas));
    let i = choose|i: int|
        0 <= i < layers.len() && (#[trigger] layers[i]).id == layer && overflows(
            layers[i],
            entries,
        );
    let k = if listed.contains(layer) {
        choose|k: int| 0 <= k < listed.len() && listed[k] == layer
    } else {
        lemma_unlisted_are_the_rest(layers, entries, listed, i);
        let rest = unlisted(layers, entries, listed);
        listed.len() + choose|k: int| 0 <= k < rest.len() && rest[k] == layer
    };
    assert(overflow[k] == layer);
    assert(placements[entries.len() + k] == placement_off_plane(
        layer,
        layers,
        entries,
        Some(canvas),
    ));
    if !canvas.mapped@.contains(layer) {
        assert forall|n: int| 0 <= n < placements.len() implies (#[trigger] placements[n])
            != (LayerPlacement {
            layer,
            placement: Placement::Composited,
            plane_id: Some(canvas.target.plane_id),
            plane_rotation_bits: 0,
        }) by {
            if n < entries.len() {
                assert(placements[n] == placement_on(entries[n], registry));
            } else {
                assert(placements[n] == placement_off_plane(
                    overflow[n - entries.len()],
                    layers,
                    entries,
                    Some(canvas),
                ));
            }
        }
    }
}

/// The canvas has one plane of its own: no layer of the plan is on it, and the
/// frame that arms it does not switch it off.
pub proof fn law_the_canvas_has_a_plane_of_its_own(
    candidates: Seq<u32>,
    committed: Seq<CommittedPlane>,
    layers: Seq<LoweredLayer>,
    entries: Seq<(u32, LayerId)>,
    canvas: Composition,
    crtc_id: u32,
)
    requires
        rescue_of(Some(canvas), layers, entries, plan_of(layers, entries, committed)) is Some,
    ensures
        ({
            let plan = with_canvas(
                plan_of(layers, entries, committed),
                Some(canvas),
                crtc_id,
                committed,
            );
            &&& plan.last() == canvas_entry(canvas, crtc_id, committed)
            &&& forall|i: int|
                0 <= i < plan.len() - 1 ==> (#[trigger] plan[i]).plane_id != canvas.target.plane_id
            &&& !disables_of(candidates, committed, plan).contains(canvas.target.plane_id)
        }),
{
    let bare = plan_of(layers, entries, committed);
    let plan = with_canvas(bare, Some(canvas), crtc_id, committed);
    assert forall|i: int| 0 <= i < plan.len() - 1 implies (#[trigger] plan[i]).plane_id
        != canvas.target.plane_id by {
        assert(plan[i] == bare[i]);
    }
    assert(plan[plan.len() - 1].plane_id == canvas.target.plane_id);
    assert(uses(plan, canvas.target.plane_id));
    law_disables_are_the_lit_unused_candidates(
        candidates,
        committed,
        plan,
        canvas.target.plane_id,
    );
}

proof fn lemma_plane_of_is_an_entry(entries: Seq<(u32, LayerId)>, layer: LayerId)
    ensures
        Assignment::plane_of(entries, layer) matches Some(plane_id) ==> exists|i: int|
            0 <= i < entries.len() && #[trigger] entries[i] == (plane_id, layer),
    decreases entries.len(),
{
    if entries.len() > 0 {
        lemma_plane_of_is_an_entry(entries.drop_last(), layer);
        if let Some(plane_id) = Assignment::plane_of(entries.drop_last(), layer) {
            let i = choose|i: int|
                0 <= i < entries.drop_last().len() && #[trigger] entries.drop_last()[i] == (
                    plane_id,
                    layer,
                );
            assert(entries[i] == (plane_id, layer));
        } else if entries.last().1 == layer {
            assert(entries[entries.len() - 1] == (entries.last().0, layer));
        }
    }
}

proof fn lemma_planned_is_placed(
    layers: Seq<LoweredLayer>,
    entries: Seq<(u32, LayerId)>,
    committed: Seq<CommittedPlane>,
    i: int,
)
    requires
        0 <= i < plan_of(layers, entries, committed).len(),
    ensures
        ({
            let entry = plan_of(layers, entries, committed)[i];
            &&& Assignment::plane_of(entries, entry.layer_id) == Some(entry.plane_id)
            &&& exists|k: int| 0 <= k < layers.len() && (#[trigger] layers[k]).id == entry.layer_id
        }),
    decreases layers.len(),
{
    if layers.len() > 0 {
        let before = plan_of(layers.drop_last(), entries, committed);
        if i < before.len() {
            lemma_planned_is_placed(layers.drop_last(), entries, committed, i);
            let k = choose|k: int|
                0 <= k < layers.drop_last().len() && (#[trigger] layers.drop_last()[k]).id
                    == before[i].layer_id;
            assert(layers[k].id == before[i].layer_id);
        } else {
            assert(layers[layers.len() - 1].id == layers.last().id);
        }
    }
}

/// Given a placement that uses each plane once, no two entries of a frame are
/// on one plane, the canvas included.
pub proof fn law_no_plane_is_planned_twice(
    layers: Seq<LoweredLayer>,
    entries: Seq<(u32, LayerId)>,
    committed: Seq<CommittedPlane>,
    canvas: Option<Composition>,
    crtc_id: u32,
)
    requires
        forall|i: int, j: int|
            0 <= i < j < layers.len() ==> (#[trigger] layers[i]).id != (#[trigger] layers[j]).id,
        forall|i: int, j: int|
            0 <= i < j < entries.len() ==> (#[trigger] entries[i]).0 != (#[trigger] entries[j]).0,
    ensures
        ({
            let bare = plan_of(layers, entries, committed);
            let plan = with_canvas(
                bare,
                rescue_of(canvas, layers, entries, bare),
                crtc_id,
                committed,
            );
            forall|i: int, j: int|
                0 <= i < j < plan.len() ==> (#[trigger] plan[i]).plane_id
                    != (#[trigger] plan[j]).plane_id
        }),
{
    let bare = plan_of(layers, entries, committed);
    let plan = with_canvas(bare, rescue_of(canvas, layers, entries, bare), crtc_id, committed);
    lemma_planned_planes_are_distinct(layers, entries, committed);
    assert forall|i: int, j: int| 0 <= i < j < plan.len() implies (#[trigger] plan[i]).plane_id
        != (#[trigger] plan[j]).plane_id by {
        assert(plan[i] == bare[i]);
        if j < bare.len() {
            assert(plan[j] == bare[j]);
        }
    }
}

proof fn lemma_planned_planes_are_distinct(
    layers: Seq<LoweredLayer>,
    entries: Seq<(u32, LayerId)>,
    committed: Seq<CommittedPlane>,
)
    requires
        forall|i: int, j: int|
            0 <= i < j < layers.len() ==> (#[trigger] layers[i]).id != (#[trigger] layers[j]).id,
        forall|i: int, j: int|
            0 <= i < j < entries.len() ==> (#[trigger] entries[i]).0 != (#[trigger] entries[j]).0,
    ensures
        forall|i: int, j: int|
            0 <= i < j < plan_of(layers, entries, committed).len() ==> (
            #[trigger] plan_of(layers, entries, committed)[i]).plane_id != (
            #[trigger] plan_of(layers, entries, committed)[j]).plane_id,
    decreases layers.len(),
{
    if layers.len() > 0 {
        let rest = layers.drop_last();
        let before = plan_of(rest, entries, committed);
        let plan = plan_of(layers, entries, committed);
        lemma_planned_planes_are_distinct(rest, entries, committed);
        assert forall|i: int, j: int| 0 <= i < j < plan.len() implies (#[trigger] plan[i]).plane_id
            != (#[trigger] plan[j]).plane_id by {
            assert(plan[i] == before[i]);
            if j < before.len() {
                assert(plan[j] == before[j]);
            } else {
                lemma_planned_is_placed(rest, entries, committed, i);
                let k = choose|k: int|
                    0 <= k < rest.len() && (#[trigger] rest[k]).id == before[i].layer_id;
                assert(layers[k].id != layers[layers.len() - 1].id);
                lemma_plane_of_is_an_entry(entries, plan[i].layer_id);
                lemma_plane_of_is_an_entry(entries, plan[j].layer_id);
                let a = choose|a: int|
                    0 <= a < entries.len() && #[trigger] entries[a] == (
                        plan[i].plane_id,
                        plan[i].layer_id,
                    );
                let b = choose|b: int|
                    0 <= b < entries.len() && #[trigger] entries[b] == (
                        plan[j].plane_id,
                        plan[j].layer_id,
                    );
                assert(a != b);
                if a < b {
                    assert(entries[a].0 != entries[b].0);
                } else {
                    assert(entries[b].0 != entries[a].0);
                }
            }
        }
    }
}

/// What a frame is measured against is what the kernel was last seen to take on
/// the plane: its first record.
pub proof fn law_the_first_record_is_the_baseline(
    committed: Seq<CommittedPlane>,
    plane_id: u32,
    k: int,
)
    ensures
        is_first(committed, k) && committed[k].plane_id == plane_id ==> baseline_of(
            committed,
            plane_id,
        ) == Some(committed[k].layer.properties),
        baseline_of(committed, plane_id) is None <==> forall|j: int|
            0 <= j < committed.len() ==> (#[trigger] committed[j]).plane_id != plane_id,
        baseline_of(committed, plane_id) matches Some(snapshot) ==> exists|j: int| #[trigger]
            is_first(committed, j) && committed[j].plane_id == plane_id
                && committed[j].layer.properties == snapshot,
    decreases committed.len(),
{
    if committed.len() > 0 {
        let rest = committed.skip(1);
        assert forall|j: int| 0 <= j < rest.len() implies #[trigger] rest[j] == committed[j + 1] by {}
        if committed[0].plane_id == plane_id {
            assert(is_first(committed, 0));
            if is_first(committed, k) && committed[k].plane_id == plane_id && k > 0 {
                assert(committed[0].plane_id != committed[k].plane_id);
            }
        } else {
            law_the_first_record_is_the_baseline(rest, plane_id, k - 1);
            if is_first(committed, k) && committed[k].plane_id == plane_id {
                assert(is_first(rest, k - 1)) by {
                    assert forall|j: int| 0 <= j < k - 1 implies (#[trigger] rest[j]).plane_id
                        != rest[k - 1].plane_id by {
                        assert(committed[j + 1].plane_id != committed[k].plane_id);
                    }
                }
            }
            match baseline_of(rest, plane_id) {
                Some(snapshot) => {
                    let j = choose|j: int| #[trigger]
                        is_first(rest, j) && rest[j].plane_id == plane_id
                            && rest[j].layer.properties == snapshot;
                    assert(is_first(committed, j + 1)) by {
                        assert forall|h: int| 0 <= h < j + 1 implies (
                        #[trigger] committed[h]).plane_id != committed[j + 1].plane_id by {
                            if h > 0 {
                                assert(rest[h - 1].plane_id != rest[j].plane_id);
                            }
                        }
                    }
                    assert(committed[j + 1].plane_id == plane_id);
                },
                None => {
                    assert forall|j: int| 0 <= j < committed.len() implies (
                    #[trigger] committed[j]).plane_id != plane_id by {
                        if j > 0 {
                            assert(rest[j - 1].plane_id != plane_id);
                        }
                    }
                },
            }
        }
    }
}

proof fn lemma_planned_is_based(
    layers: Seq<LoweredLayer>,
    entries: Seq<(u32, LayerId)>,
    committed: Seq<CommittedPlane>,
    i: int,
)
    requires
        0 <= i < plan_of(layers, entries, committed).len(),
    ensures
        based_on(committed, plan_of(layers, entries, committed)[i]),
    decreases layers.len(),
{
    if layers.len() > 0 {
        let before = plan_of(layers.drop_last(), entries, committed);
        if i < before.len() {
            lemma_planned_is_based(layers.drop_last(), entries, committed, i);
        } else {
            let entry = plan_of(layers, entries, committed)[i];
            law_the_first_record_is_the_baseline(committed, entry.plane_id, 0);
        }
    }
}

/// Every entry of a frame is measured against what is recorded of its very
/// plane, the canvas's included.
pub proof fn law_plans_are_based_on_the_records(
    layers: Seq<LoweredLayer>,
    entries: Seq<(u32, LayerId)>,
    committed: Seq<CommittedPlane>,
    rescue: Option<Composition>,
    crtc_id: u32,
)
    ensures
        ({
            let plan = with_canvas(
                plan_of(layers, entries, committed),
                rescue,
                crtc_id,
                committed,
            );
            forall|i: int| 0 <= i < plan.len() ==> based_on(committed, #[trigger] plan[i])
        }),
{
    let bare = plan_of(layers, entries, committed);
    let plan = with_canvas(bare, rescue, crtc_id, committed);
    assert forall|i: int| 0 <= i < plan.len() implies based_on(committed, #[trigger] plan[i]) by {
        if i < bare.len() {
            assert(plan[i] == bare[i]);
            lemma_planned_is_based(layers, entries, committed, i);
        } else {
            law_the_first_record_is_the_baseline(committed, plan[i].plane_id, 0);
        }
    }
}

/// Whether the search placed a layer: some entry names it.
pub open spec fn is_placed(entries: Seq<(u32, LayerId)>, layer: LayerId) -> bool {
    exists|e: int| 0 <= e < entries.len() && (#[trigger] entries[e]).1 == layer
}

proof fn lemma_placed_has_a_plane(entries: Seq<(u32, LayerId)>, layer: LayerId)
    ensures
        is_placed(entries, layer) <==> Assignment::plane_of(entries, layer) is Some,
{
    law_the_first_entry_places_a_layer(entries, layer, 0);
}

/// Every layer the search placed is in the plan, on the plane its first entry
/// names and exactly as it was lowered, held or not; nothing else is, and each
/// of them once.
pub proof fn law_every_placed_layer_is_planned(
    layers: Seq<LoweredLayer>,
    entries: Seq<(u32, LayerId)>,
    committed: Seq<CommittedPlane>,
)
    ensures
        ({
            let plan = plan_of(layers, entries, committed);
            &&& forall|k: int, e: int|
                0 <= k < layers.len() && #[trigger] names_first(entries, layers[k].id, e)
                    ==> exists|i: int|
                    0 <= i < plan.len() && (#[trigger] plan[i]).layer_id == layers[k].id
                        && plan[i].plane_id == entries[e].0 && plan[i].layer == layers[k].layer
            &&& forall|i: int|
                0 <= i < plan.len() ==> exists|k: int|
                    0 <= k < layers.len() && (#[trigger] layers[k]).id == (
                    #[trigger] plan[i]).layer_id && layers[k].layer == plan[i].layer
            &&& forall|i: int|
                0 <= i < plan.len() ==> exists|e: int|
                    0 <= e < entries.len() && #[trigger] entries[e] == ((
                    #[trigger] plan[i]).plane_id, plan[i].layer_id)
            &&& plan.len() == layers.filter(
                |layer: LoweredLayer| is_placed(entries, layer.id),
            ).len()
        }),
    decreases layers.len(),
{
    let placed = |layer: LoweredLayer| is_placed(entries, layer.id);
    reveal(Seq::filter);
    let plan = plan_of(layers, entries, committed);
    if layers.len() > 0 {
        let rest = layers.drop_last();
        let before = plan_of(rest, entries, committed);
        let last = layers.last();
        law_every_placed_layer_is_planned(rest, entries, committed);
        lemma_placed_has_a_plane(entries, last.id);
        assert(layers[layers.len() - 1] == last);
        assert forall|k: int, e: int|
            0 <= k < layers.len() && #[trigger] names_first(entries, layers[k].id, e)
                implies exists|i: int|
            0 <= i < plan.len() && (#[trigger] plan[i]).layer_id == layers[k].id && plan[i].plane_id
                == entries[e].0 && plan[i].layer == layers[k].layer by {
            if k < rest.len() {
                assert(rest[k] == layers[k]);
                assert(names_first(entries, rest[k].id, e));
                let i = choose|i: int|
                    0 <= i < before.len() && (#[trigger] before[i]).layer_id == rest[k].id
                        && before[i].plane_id == entries[e].0 && before[i].layer == rest[k].layer;
                assert(plan[i] == before[i]);
            } else {
                law_the_first_entry_places_a_layer(entries, last.id, e);
                assert(plan[before.len() as int].layer_id == last.id);
            }
        }
        assert forall|i: int| 0 <= i < plan.len() implies exists|k: int|
            0 <= k < layers.len() && (#[trigger] layers[k]).id == (#[trigger] plan[i]).layer_id
                && layers[k].layer == plan[i].layer by {
            if i < before.len() {
                assert(plan[i] == before[i]);
                let k = choose|k: int|
                    0 <= k < rest.len() && (#[trigger] rest[k]).id == before[i].layer_id
                        && rest[k].layer == before[i].layer;
                assert(layers[k] == rest[k]);
            } else {
                assert(layers[layers.len() - 1].id == plan[i].layer_id);
            }
        }
        assert forall|i: int| 0 <= i < plan.len() implies exists|e: int|
            0 <= e < entries.len() && #[trigger] entries[e] == ((#[trigger] plan[i]).plane_id,
                plan[i].layer_id) by {
            if i < before.len() {
                assert(plan[i] == before[i]);
                let e = choose|e: int|
                    0 <= e < entries.len() && #[trigger] entries[e] == (
                        before[i].plane_id,
                        before[i].layer_id,
                    );
                assert(entries[e] == (plan[i].plane_id, plan[i].layer_id));
            } else {
                law_the_first_entry_places_a_layer(entries, last.id, 0);
                let e = choose|e: int| #[trigger]
                    names_first(entries, last.id, e) && entries[e].0 == plan[i].plane_id;
                assert(entries[e] == (plan[i].plane_id, plan[i].layer_id));
            }
        }
    }
}

/// The planes a frame switches off, in plain terms: the candidates something was
/// recorded on that no entry of the plan is for.
pub proof fn law_what_is_lit_and_unused_is_switched_off(
    candidates: Seq<u32>,
    committed: Seq<CommittedPlane>,
    plan: Seq<PlanePlan>,
    plane_id: u32,
)
    ensures
        disables_of(candidates, committed, plan).contains(plane_id) <==> {
            &&& candidates.contains(plane_id)
            &&& exists|k: int|
                0 <= k < committed.len() && (#[trigger] committed[k]).plane_id == plane_id
            &&& forall|i: int| 0 <= i < plan.len() ==> (#[trigger] plan[i]).plane_id != plane_id
        },
{
    law_disables_are_the_lit_unused_candidates(candidates, committed, plan, plane_id);
    law_the_first_record_is_the_baseline(committed, plane_id, 0);
}

/// The layers that go on showing their last buffer are exactly the held ones
/// the search kept on a plane.
pub proof fn law_held_layers_on_a_plane_are_carried(
    layers: Seq<LoweredLayer>,
    entries: Seq<(u32, LayerId)>,
    layer: LayerId,
)
    ensures
        carried_of(layers, entries).contains(layer) <==> exists|k: int|
            0 <= k < layers.len() && (#[trigger] layers[k]).id == layer && layers[k].held
                && is_placed(entries, layer),
    decreases layers.len(),
{
    if layers.len() > 0 {
        let rest = layers.drop_last();
        let before = carried_of(rest, entries);
        let after = carried_of(layers, entries);
        law_held_layers_on_a_plane_are_carried(rest, entries, layer);
        lemma_placed_has_a_plane(entries, layers.last().id);
        assert(layers[layers.len() - 1] == layers.last());
        if after.contains(layer) {
            let i = choose|i: int| 0 <= i < after.len() && after[i] == layer;
            if i < before.len() {
                assert(before[i] == layer);
                let k = choose|k: int|
                    0 <= k < rest.len() && (#[trigger] rest[k]).id == layer && rest[k].held
                        && is_placed(entries, layer);
                assert(layers[k].id == layer);
            } else {
                assert(layers[layers.len() - 1].id == layer);
            }
        }
        if exists|k: int|
            0 <= k < layers.len() && (#[trigger] layers[k]).id == layer && layers[k].held
                && is_placed(entries, layer) {
            let k = choose|k: int|
                0 <= k < layers.len() && (#[trigger] layers[k]).id == layer && layers[k].held
                    && is_placed(entries, layer);
            if k < rest.len() {
                assert(rest[k] == layers[k]);
                let i = choose|i: int| 0 <= i < before.len() && before[i] == layer;
                assert(after[i] == layer);
            } else {
                assert(after[before.len() as int] == layer);
            }
        }
    }
}

proof fn lemma_counts_are_filters(
    layers: Seq<LoweredLayer>,
    entries: Seq<(u32, LayerId)>,
    mapped: Seq<LayerId>,
)
    ensures
        fresh_count(layers) == layers.filter(|layer: LoweredLayer| !layer.held).len(),
        placed_count(layers, entries) == layers.filter(
            |layer: LoweredLayer| !layer.held && is_placed(entries, layer.id),
        ).len(),
        rescued_count(layers, entries, mapped) == layers.filter(
            |layer: LoweredLayer|
                !layer.held && !is_placed(entries, layer.id) && mapped.contains(layer.id),
        ).len(),
        fresh_count(layers) - placed_count(layers, entries) - rescued_count(layers, entries, mapped)
            == layers.filter(
            |layer: LoweredLayer|
                !layer.held && !is_placed(entries, layer.id) && !mapped.contains(layer.id),
        ).len(),
    decreases layers.len(),
{
    reveal(Seq::filter);
    if layers.len() > 0 {
        lemma_counts_are_filters(layers.drop_last(), entries, mapped);
        lemma_placed_has_a_plane(entries, layers.last().id);
    }
}

/// The report of a frame counts, of the layers with a buffer of this frame, those
/// on a plane, those in the canvas and those dropped; every other count is what
/// it was told, and what only the request decides is still zero.
pub proof fn law_the_report_counts_the_layers(
    report: CommitReport,
    tally: AcquireTally,
    layers: Seq<LoweredLayer>,
    allocation: Allocation,
    registry: PlaneRegistry,
    rescue: Option<Composition>,
)
    requires
        reports(report, tally, layers, allocation, registry, rescue),
        layers.len() <= usize::MAX,
        tally.acquired + tally.skipped_no_frame <= usize::MAX,
    ensures
        ({
            let entries = allocation.assignment.entries@;
            let mapped = match rescue {
                Some(canvas) => canvas.mapped@,
                None => Seq::empty(),
            };
            &&& report.layers_total == tally.acquired + tally.skipped_no_frame
            &&& report.layers_assigned == layers.filter(
                |layer: LoweredLayer| !layer.held && is_placed(entries, layer.id),
            ).len()
            &&& report.layers_composited == layers.filter(
                |layer: LoweredLayer|
                    !layer.held && !is_placed(entries, layer.id) && mapped.contains(layer.id),
            ).len()
            &&& report.layers_unassigned == layers.filter(
                |layer: LoweredLayer|
                    !layer.held && !is_placed(entries, layer.id) && !mapped.contains(layer.id),
            ).len()
            &&& report.layers_skipped_no_frame == tally.skipped_no_frame
            &&& report.composition_buckets == if rescue is Some {
                1int
            } else {
                0
            }
            &&& report.in_fence_cpu_waits == match rescue {
                Some(canvas) => canvas.waits,
                None => 0,
            }
            &&& report.test_commits_issued == allocation.test_commits_issued
            &&& report.fb_delta_fast_path == allocation.fb_delta_fast_path
            &&& report.budget_exhausted == allocation.budget_exhausted
            &&& report.pin_requests_unhonored == 0
            &&& report.properties_written == 0
            &&& report.fbs_attached == 0
            &&& report.damaged_layers == 0
            &&& report.in_fences_armed == 0
        }),
{
    let entries = allocation.assignment.entries@;
    let mapped = match rescue {
        Some(canvas) => canvas.mapped@,
        None => Seq::empty(),
    };
    lemma_counts_are_filters(layers, entries, mapped);
    lemma_counts_are_counts(layers, entries, mapped);
    if rescue is None {
        lemma_nothing_mapped_rescues_nothing(layers, entries);
    }
}

proof fn lemma_nothing_mapped_rescues_nothing(
    layers: Seq<LoweredLayer>,
    entries: Seq<(u32, LayerId)>,
)
    ensures
        rescued_count(layers, entries, Seq::empty()) == 0,
    decreases layers.len(),
{
    if layers.len() > 0 {
        lemma_nothing_mapped_rescues_nothing(layers.drop_last(), entries);
    }
}

/// A placed layer is reported on the plane the search gave it, with that plane's
/// own rotate and reflect bits, in the search's order.
pub proof fn law_placed_layers_are_reported_on_their_planes(
    layers: Seq<LoweredLayer>,
    allocation: Allocation,
    registry: PlaneRegistry,
    rescue: Option<Composition>,
    e: int,
)
    requires
        0 <= e < allocation.assignment.entries@.len(),
    ensures
        ({
            let placement = placements_of(layers, allocation, registry, rescue)[e];
            let entry = allocation.assignment.entries@[e];
            &&& placement.layer == entry.1
            &&& placement.placement == Placement::AssignedToPlane
            &&& placement.plane_id == Some(entry.0)
            &&& forall|at: int| #[trigger]
                describes_first(registry.planes@, entry.0, at) ==> placement.plane_rotation_bits == registry.planes@[at].rotation_bits
            &&& (forall|j: int|
                0 <= j < registry.planes@.len() ==> (#[trigger] registry.planes@[j]).id != entry.0)
                ==> placement.plane_rotation_bits == 0
        }),
{
    let entry = allocation.assignment.entries@[e];
    let placement = placements_of(layers, allocation, registry, rescue)[e];
    assert(placement == placement_on(entry, registry));
    law_the_first_plane_of_an_id_answers(registry.planes@, entry.0, 0);
    assert forall|at: int| #[trigger] describes_first(
        registry.planes@,
        entry.0,
        at,
    ) implies placement.plane_rotation_bits == registry.planes@[at].rotation_bits by {
        law_the_first_plane_of_an_id_answers(registry.planes@, entry.0, at);
    }
}

/// Building a frame marks every layer's hints as seen and changes nothing else
/// of a layer.
pub proof fn law_building_only_settles_hints<S>(slots: Seq<Option<SceneLayer<S>>>, i: int)
    requires
        0 <= i < slots.len(),
    ensures
        settled(slots).len() == slots.len(),
        settled(slots)[i] is Some <==> slots[i] is Some,
        slots[i] matches Some(layer) ==> {
            &&& !settled(slots)[i]->0.hints_dirty
            &&& settled(slots)[i]->0.source == layer.source
            &&& settled(slots)[i]->0.display == layer.display
            &&& settled(slots)[i]->0.content_type == layer.content_type
            &&& settled(slots)[i]->0.update_hint_hz == layer.update_hint_hz
            &&& settled(slots)[i]->0.app_priority == layer.app_priority
        },
{
}

/// A canvas on offer is taken up exactly when some layer without a plane is in it
/// and no layer of the plan is on its plane.
pub proof fn law_the_canvas_is_taken_up_where_it_helps(
    canvas: Composition,
    layers: Seq<LoweredLayer>,
    entries: Seq<(u32, LayerId)>,
    plan: Seq<PlanePlan>,
)
    ensures
        rescue_of(Some(canvas), layers, entries, plan) is Some <==> (exists|k: int|
            0 <= k < layers.len() && !(#[trigger] layers[k]).held && !is_placed(
                entries,
                layers[k].id,
            ) && canvas.mapped@.contains(layers[k].id)) && forall|i: int|
            0 <= i < plan.len() ==> (#[trigger] plan[i]).plane_id != canvas.target.plane_id,
        rescue_of(Some(canvas), layers, entries, plan) matches Some(taken) ==> taken == canvas,
        rescue_of(None, layers, entries, plan) is None,
{
    lemma_some_rescued(layers, entries, canvas.mapped@);
}

proof fn lemma_some_rescued(
    layers: Seq<LoweredLayer>,
    entries: Seq<(u32, LayerId)>,
    mapped: Seq<LayerId>,
)
    ensures
        rescued_count(layers, entries, mapped) >= 0,
        rescued_count(layers, entries, mapped) > 0 <==> exists|k: int|
            0 <= k < layers.len() && !(#[trigger] layers[k]).held && !is_placed(
                entries,
                layers[k].id,
            ) && mapped.contains(layers[k].id),
    decreases layers.len(),
{
    if layers.len() > 0 {
        let rest = layers.drop_last();
        lemma_some_rescued(rest, entries, mapped);
        lemma_placed_has_a_plane(entries, layers.last().id);
        assert(layers[layers.len() - 1] == layers.last());
        if rescued_count(rest, entries, mapped) > 0 {
            let k = choose|k: int|
                0 <= k < rest.len() && !(#[trigger] rest[k]).held && !is_placed(
                    entries,
                    rest[k].id,
                ) && mapped.contains(rest[k].id);
            assert(layers[k] == rest[k]);
        }
        if exists|k: int|
            0 <= k < layers.len() && !(#[trigger] layers[k]).held && !is_placed(
                entries,
                layers[k].id,
            ) && mapped.contains(layers[k].id) {
            let k = choose|k: int|
                0 <= k < layers.len() && !(#[trigger] layers[k]).held && !is_placed(
                    entries,
                    layers[k].id,
                ) && mapped.contains(layers[k].id);
            if k < rest.len() {
                assert(rest[k] == layers[k]);
            }
        }
    }
}

/// The canvas's entry is for its plane, under an identity no layer has, and shows
/// the canvas as it is lowered.
pub proof fn law_the_canvas_entry_is_the_canvas(
    plan: Seq<PlanePlan>,
    canvas: Composition,
    crtc_id: u32,
    committed: Seq<CommittedPlane>,
)
    ensures
        with_canvas(plan, None, crtc_id, committed) == plan,
        with_canvas(plan, Some(canvas), crtc_id, committed).len() == plan.len() + 1,
        with_canvas(plan, Some(canvas), crtc_id, committed).drop_last() == plan,
        with_canvas(plan, Some(canvas), crtc_id, committed).last().plane_id
            == canvas.target.plane_id,
        with_canvas(plan, Some(canvas), crtc_id, committed).last().layer_id == LayerId(0),
        with_canvas(plan, Some(canvas), crtc_id, committed).last().layer == canvas_layer(
            canvas.target,
            crtc_id,
        ),
{
    assert(with_canvas(plan, Some(canvas), crtc_id, committed).drop_last() =~= plan);
}

/// A search the kernel refused outright placed no layer, composited none and cost
/// no test commit.
pub proof fn law_a_refused_search_places_nothing(allocation: Allocation)
    requires
        places_nothing(allocation),
    ensures
        allocation.assignment.entries@.len() == 0,
        allocation.composited@.len() == 0,
        allocation.test_commits_issued == 0,
        !allocation.fb_delta_fast_path,
        !allocation.budget_exhausted,
{
}

} // verus!
