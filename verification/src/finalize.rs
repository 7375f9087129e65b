//! Finalizing a frame: what the kernel's answer does to the scene.

use vstd::prelude::*;
use crate::plan::{plan_uses, uses, FrameBuild, PlanePlan};
use crate::draft::{lemma_listed_is_shown, shown};
use crate::frame::{
    applied, fast_path_refused, CommitKind, FrameLifecycle, FrameOutcome, KernelResult,
};
use crate::planes::LayerId;
use crate::release::{Acquisition, ReleaseQueue};
use crate::report::CommitReport;
use crate::scene::{
    deliveries, homeless, homes_of, kept_at, lives_in, only_kept, only_slot, routed, same_layers,
    same_retiring, CommittedPlane, Homes, LayerScene,
};
use crate::source::LayerBufferSource;

verus! {

/// The buffers of layers in `carried`, in order.
pub open spec fn carried_over(acquisitions: Seq<Acquisition>, carried: Seq<LayerId>) -> Seq<
    Acquisition,
>
    decreases acquisitions.len(),
{
    if acquisitions.len() == 0 {
        Seq::empty()
    } else {
        let before = carried_over(acquisitions.drop_last(), carried);
        if carried.contains(acquisitions.last().layer) {
            before.push(acquisitions.last())
        } else {
            before
        }
    }
}

/// The buffers of layers not in `carried`, in order.
pub open spec fn left_behind(acquisitions: Seq<Acquisition>, carried: Seq<LayerId>) -> Seq<
    Acquisition,
>
    decreases acquisitions.len(),
{
    if acquisitions.len() == 0 {
        Seq::empty()
    } else {
        let before = left_behind(acquisitions.drop_last(), carried);
        if carried.contains(acquisitions.last().layer) {
            before
        } else {
            before.push(acquisitions.last())
        }
    }
}

/// The planes that stay as they were under a commit, no longer any layer's.
pub open spec fn untouched_planes(
    committed: Seq<CommittedPlane>,
    plan: Seq<PlanePlan>,
    disables: Seq<u32>,
) -> Seq<CommittedPlane>
    decreases committed.len(),
{
    if committed.len() == 0 {
        Seq::empty()
    } else {
        let before = untouched_planes(committed.drop_last(), plan, disables);
        let plane = committed.last();
        if uses(plan, plane.plane_id) || disables.contains(plane.plane_id) {
            before
        } else {
            before.push(CommittedPlane { layer_id: None, ..plane })
        }
    }
}

/// What the kernel holds on a planned plane once the plan is applied.
pub open spec fn planned_plane(entry: PlanePlan) -> CommittedPlane {
    CommittedPlane {
        plane_id: entry.plane_id,
        layer_id: Some(entry.layer_id),
        layer: entry.layer,
    }
}

/// What the kernel holds once a plan is applied.
pub open spec fn recorded(
    committed: Seq<CommittedPlane>,
    plan: Seq<PlanePlan>,
    disables: Seq<u32>,
) -> Seq<CommittedPlane> {
    untouched_planes(committed, plan, disables) + plan.map_values(
        |entry: PlanePlan| planned_plane(entry),
    )
}

pub(crate) fn contains_layer(layers: &Vec<LayerId>, layer: LayerId) -> (found: bool)
    ensures
        found == layers@.contains(layer),
{
    let mut i: usize = 0;
    while i < layers.len()
        invariant
            0 <= i <= layers@.len(),
            forall|j: int| 0 <= j < i ==> layers@[j] != layer,
        decreases layers@.len() - i,
    {
        if layers[i] == layer {
            return true;
        }
        i += 1;
    }
    false
}

fn contains_plane(planes: &Vec<u32>, plane_id: u32) -> (found: bool)
    ensures
        found == planes@.contains(plane_id),
{
    let mut i: usize = 0;
    while i < planes.len()
        invariant
            0 <= i <= planes@.len(),
            forall|j: int| 0 <= j < i ==> planes@[j] != plane_id,
        decreases planes@.len() - i,
    {
        if planes[i] == plane_id {
            return true;
        }
        i += 1;
    }
    false
}

/// Split buffers into those left behind and those carried over.
fn split_carried(acquisitions: Vec<Acquisition>, carried: &Vec<LayerId>) -> (split: (
    Vec<Acquisition>,
    Vec<Acquisition>,
))
    ensures
        split.0@ == left_behind(acquisitions@, carried@),
        split.1@ == carried_over(acquisitions@, carried@),
{
    let ghost all = acquisitions@;
    let ghost done: int = 0;
    let mut rest: Vec<Acquisition> = acquisitions;
    let mut left: Vec<Acquisition> = Vec::new();
    let mut over: Vec<Acquisition> = Vec::new();
    while rest.len() > 0
        invariant
            0 <= done <= all.len(),
            rest@ == all.skip(done),
            left@ == left_behind(all.take(done), carried@),
            over@ == carried_over(all.take(done), carried@),
        decreases rest@.len(),
    {
        let acquisition = rest.remove(0);
        proof {
            assert(acquisition == all[done]);
            assert(all.take(done + 1).drop_last() =~= all.take(done));
            assert(rest@ =~= all.skip(done + 1));
            done = done + 1;
        }
        if contains_layer(carried, acquisition.layer) {
            over.push(acquisition);
        } else {
            left.push(acquisition);
        }
    }
    assert(all.take(done) =~= all);
    (left, over)
}

/// Record what the kernel holds once a plan is applied.
fn record_commit(
    committed: &Vec<CommittedPlane>,
    plan: &Vec<PlanePlan>,
    disables: &Vec<u32>,
) -> (held:
    Vec<CommittedPlane>)
    ensures
        held@ == recorded(committed@, plan@, disables@),
{
    let mut held: Vec<CommittedPlane> = Vec::new();
    let mut i: usize = 0;
    while i < committed.len()
        invariant
            0 <= i <= committed@.len(),
            held@ == untouched_planes(committed@.take(i as int), plan@, disables@),
        decreases committed@.len() - i,
    {
        assert(committed@.take(i + 1).drop_last() =~= committed@.take(i as int));
        let plane: CommittedPlane = committed[i];
        if !plan_uses(plan, plane.plane_id) && !contains_plane(disables, plane.plane_id) {
            held.push(
                CommittedPlane { plane_id: plane.plane_id, layer_id: None, layer: plane.layer },
            );
        }
        i += 1;
    }
    assert(committed@.take(committed@.len() as int) =~= committed@);
    let ghost kept = held@;
    let mut j: usize = 0;
    while j < plan.len()
        invariant
            0 <= j <= plan@.len(),
            held@ == kept + plan@.take(j as int).map_values(|entry: PlanePlan| planned_plane(entry)),
        decreases plan@.len() - j,
    {
        let entry: PlanePlan = plan[j];
        held.push(
            CommittedPlane {
                plane_id: entry.plane_id,
                layer_id: Some(entry.layer_id),
                layer: entry.layer,
            },
        );
        assert(held@ =~= kept + plan@.take(j + 1).map_values(
            |entry: PlanePlan| planned_plane(entry),
        ));
        j += 1;
    }
    assert(plan@.take(plan@.len() as int) =~= plan@);
    held
}

/// The scene asks for no out-fence, so no layer is given one.
fn wants_no_fence(layer: LayerId) -> (wanted: bool)
    ensures
        !wanted,
{
    false
}

fn duplicates_nothing(fd: i32) -> (copy: Option<i32>)
    ensures
        copy is None,
{
    None
}

/// The buffers a finished frame hands back: the ones two commits deep if the
/// frame was applied, its own otherwise.
pub open spec fn handed_back(
    build: FrameBuild,
    result: KernelResult,
    releases: ReleaseQueue,
) -> Seq<Acquisition> {
    if applied(build.kind, result) {
        releases.two_ago@
    } else {
        build.acquisitions@
    }
}

impl<S: LayerBufferSource> LayerScene<S> {
    /// Reconcile scene state with the kernel's answer.
    ///
    /// A frame that was applied holds its buffers, and the buffers its carried
    /// layers go on showing, for two more commits; one that was not gives its
    /// buffers straight back. Only an applied frame changes what the scene knows
    /// the kernel to hold.
    pub fn finalize_frame(&mut self, build: FrameBuild, result: KernelResult) -> (report:
        CommitReport)
        requires
            old(self).well_formed(),
        ensures
            final(self).well_formed(),
            same_layers(old(self).slots@, final(self).slots@),
            if applied(build.kind, result) {
                &&& final(self).lifecycle.releases.previous@ == build.acquisitions@ + carried_over(
                    old(self).lifecycle.releases.previous@,
                    build.carried@,
                )
                &&& final(self).lifecycle.releases.two_ago@ == left_behind(
                    old(self).lifecycle.releases.previous@,
                    build.carried@,
                )
                &&& final(self).committed@ == recorded(
                    old(self).committed@,
                    build.plan@,
                    build.disables@,
                )
            } else {
                &&& final(self).lifecycle.releases == old(self).lifecycle.releases
                &&& final(self).committed == old(self).committed
            },
            final(self).calls@ == old(self).calls@ + deliveries(
                old(self).slots@,
                old(self).generations@,
                old(self).retiring@,
                handed_back(build, result, old(self).lifecycle.releases),
            ),
            if final(self).lifecycle.releases.held().len() == 0 {
                final(self).retiring@.len() == 0
            } else {
                same_retiring(old(self).retiring@, final(self).retiring@)
            },
            final(self).lifecycle.pending_flip.armed == (old(self).lifecycle.pending_flip.armed || (
            applied(build.kind, result) && build.kind->arms_flip)),
            final(self).lifecycle.suspended == (old(self).lifecycle.suspended || (build.kind is Real
                && result == KernelResult::NotMaster)),
            final(self).placement_stale == (old(self).placement_stale || fast_path_refused(
                build.kind,
                result,
                build.report,
            )),
            report == (CommitReport {
                fb_delta_fast_path: build.report.fb_delta_fast_path && !fast_path_refused(
                    build.kind,
                    result,
                    build.report,
                ),
                ..build.report
            }),
            *final(self) == (LayerScene {
                slots: final(self).slots,
                committed: final(self).committed,
                placement_stale: final(self).placement_stale,
                lifecycle: final(self).lifecycle,
                retiring: final(self).retiring,
                calls: final(self).calls,
                ..*old(self)
            }),
            exists|route: Seq<Homes<S>>|
                #![trigger routed(
                    homes_of(*old(self)),
                    route,
                    handed_back(build, result, old(self).lifecycle.releases).len(),
                    *final(self),
                )]
                routed(homes_of(*old(self)), route, handed_back(build, result, old(self).lifecycle.releases).len(), *final(self)) && (forall|k: int|
                    #![trigger route[k]]
                    0 <= k < handed_back(build, result, old(self).lifecycle.releases).len() ==> {
                        ||| exists|i: int, asked: &mut S|
                            #![trigger lives_in(
                                route[k].slots,
                                old(self).generations@,
                                handed_back(build, result, old(self).lifecycle.releases)[k].layer,
                                i,
                            ), call_ensures(
                                S::release_with_fence,
                                (asked, handed_back(
                                    build,
                                    result,
                                    old(self).lifecycle.releases,
                                )[k].buffer, handed_back(
                                    build,
                                    result,
                                    old(self).lifecycle.releases,
                                )[k].release_fence),
                                (),
                            )]
                            lives_in(
                                route[k].slots,
                                old(self).generations@,
                                handed_back(build, result, old(self).lifecycle.releases)[k].layer,
                                i,
                            )
                                && *asked == route[k].slots[i]->0.source && *final(asked)
                                == route[k + 1].slots[i]->0.source && only_slot(
                                    route[k],
                                    route[k + 1],
                                    i,
                                )
                                && call_ensures(
                                S::release_with_fence,
                                (asked, handed_back(
                                    build,
                                    result,
                                    old(self).lifecycle.releases,
                                )[k].buffer, handed_back(
                                    build,
                                    result,
                                    old(self).lifecycle.releases,
                                )[k].release_fence),
                                (),
                            )
                        ||| exists|j: int, asked: &mut S|
                            #![trigger kept_at(
                                route[k],
                                old(self).generations@,
                                handed_back(build, result, old(self).lifecycle.releases)[k].layer,
                                j,
                            ), call_ensures(
                                S::release_with_fence,
                                (asked, handed_back(
                                    build,
                                    result,
                                    old(self).lifecycle.releases,
                                )[k].buffer, handed_back(
                                    build,
                                    result,
                                    old(self).lifecycle.releases,
                                )[k].release_fence),
                                (),
                            )]
                            kept_at(
                                route[k],
                                old(self).generations@,
                                handed_back(build, result, old(self).lifecycle.releases)[k].layer,
                                j,
                            )
                                && *asked == route[k].retiring[j].source && *final(asked)
                                == route[k + 1].retiring[j].source && only_kept(
                                    route[k],
                                    route[k + 1],
                                    j,
                                )
                                && call_ensures(
                                S::release_with_fence,
                                (asked, handed_back(
                                    build,
                                    result,
                                    old(self).lifecycle.releases,
                                )[k].buffer, handed_back(
                                    build,
                                    result,
                                    old(self).lifecycle.releases,
                                )[k].release_fence),
                                (),
                            )
                        ||| homeless(
                            route[k],
                            old(self).generations@,
                            handed_back(build, result, old(self).lifecycle.releases)[k].layer,
                        ) && route[k + 1] == route[k]
                    }),
    {
        let kind: CommitKind = build.kind;
        let mut acquisitions: Vec<Acquisition> = build.acquisitions;
        let ghost own = acquisitions@;
        let ghost on_screen = self.lifecycle.releases.previous@;
        let took_hold: bool = matches!(kind, CommitKind::Real { .. }) && result
            == KernelResult::Applied;
        if took_hold {
            self.committed = record_commit(&self.committed, &build.plan, &build.disables);
            let mut previous: Vec<Acquisition> = Vec::new();
            core::mem::swap(&mut previous, &mut self.lifecycle.releases.previous);
            let (left, over) = split_carried(previous, &build.carried);
            let mut over = over;
            acquisitions.append(&mut over);
            self.lifecycle.releases.previous = left;
        }
        let ghost staged = self.lifecycle;
        let outcome: FrameOutcome = self.lifecycle.finalize(
            kind,
            result,
            acquisitions,
            build.report,
            None,
            wants_no_fence,
            duplicates_nothing,
        );
        proof {
            if applied(kind, result) {
                assert(self.lifecycle.releases.two_ago@ =~= staged.releases.previous@);
            }
        }
        if outcome.invalidate_allocation {
            self.placement_stale = true;
        }
        let ghost mid = *self;
        let ghost going = outcome.released.acquisitions@;
        let route = self.deliver(outcome.released);
        proof {
            assert(going == handed_back(build, result, old(self).lifecycle.releases));
            assert(homes_of(mid) == homes_of(*old(self)));
            assert(routed(homes_of(*old(self)), route@, going.len(), *self));
        }
        outcome.report
    }

    /// Hand every held buffer back, oldest first, without waiting on the kernel
    /// and without landing an armed flip.
    pub fn drain(&mut self)
        requires
            old(self).well_formed(),
        ensures
            final(self).well_formed(),
            same_layers(old(self).slots@, final(self).slots@),
            final(self).lifecycle.releases.held().len() == 0,
            final(self).lifecycle == (FrameLifecycle {
                releases: final(self).lifecycle.releases,
                ..old(self).lifecycle
            }),
            final(self).retiring@.len() == 0,
            final(self).calls@ == old(self).calls@ + deliveries(
                old(self).slots@,
                old(self).generations@,
                old(self).retiring@,
                old(self).lifecycle.releases.held(),
            ),
            *final(self) == (LayerScene {
                slots: final(self).slots,
                lifecycle: final(self).lifecycle,
                retiring: final(self).retiring,
                calls: final(self).calls,
                ..*old(self)
            }),
            exists|route: Seq<Homes<S>>|
                #![trigger routed(
                    homes_of(*old(self)),
                    route,
                    old(self).lifecycle.releases.held().len(),
                    *final(self),
                )]
                routed(homes_of(*old(self)), route, old(self).lifecycle.releases.held().len(), *final(self)) && (forall|k: int|
                    #![trigger route[k]]
                    0 <= k < old(self).lifecycle.releases.held().len() ==> {
                        ||| exists|i: int, asked: &mut S|
                            #![trigger lives_in(
                                route[k].slots,
                                old(self).generations@,
                                old(self).lifecycle.releases.held()[k].layer,
                                i,
                            ), call_ensures(
                                S::release_with_fence,
                                (asked, old(self).lifecycle.releases.held()[k].buffer, old(self).lifecycle.releases.held()[k].release_fence),
                                (),
                            )]
                            lives_in(
                                route[k].slots,
                                old(self).generations@,
                                old(self).lifecycle.releases.held()[k].layer,
                                i,
                            )
                                && *asked == route[k].slots[i]->0.source && *final(asked)
                                == route[k + 1].slots[i]->0.source && only_slot(
                                    route[k],
                                    route[k + 1],
                                    i,
                                )
                                && call_ensures(
                                S::release_with_fence,
                                (asked, old(self).lifecycle.releases.held()[k].buffer, old(self).lifecycle.releases.held()[k].release_fence),
                                (),
                            )
                        ||| exists|j: int, asked: &mut S|
                            #![trigger kept_at(
                                route[k],
                                old(self).generations@,
                                old(self).lifecycle.releases.held()[k].layer,
                                j,
                            ), call_ensures(
                                S::release_with_fence,
                                (asked, old(self).lifecycle.releases.held()[k].buffer, old(self).lifecycle.releases.held()[k].release_fence),
                                (),
                            )]
                            kept_at(
                                route[k],
                                old(self).generations@,
                                old(self).lifecycle.releases.held()[k].layer,
                                j,
                            )
                                && *asked == route[k].retiring[j].source && *final(asked)
                                == route[k + 1].retiring[j].source && only_kept(
                                    route[k],
                                    route[k + 1],
                                    j,
                                )
                                && call_ensures(
                                S::release_with_fence,
                                (asked, old(self).lifecycle.releases.held()[k].buffer, old(self).lifecycle.releases.held()[k].release_fence),
                                (),
                            )
                        ||| homeless(
                            route[k],
                            old(self).generations@,
                            old(self).lifecycle.releases.held()[k].layer,
                        ) && route[k + 1] == route[k]
                    }),
    {
        let released = self.lifecycle.drain();
        let ghost mid = *self;
        let ghost going = released.acquisitions@;
        let route = self.deliver(released);
        proof {
            assert(going == old(self).lifecycle.releases.held());
            assert(homes_of(mid) == homes_of(*old(self)));
            assert(routed(homes_of(*old(self)), route@, going.len(), *self));
        }
    }
}

// --- laws --------------------------------------------------------------------

/// An applied frame splits the buffers on screen in two without losing or
/// inventing any: those its carried layers go on showing, which stay held, and
/// the rest, which are one commit from going back.
pub proof fn law_shown_buffers_are_not_released(
    on_screen: Seq<Acquisition>,
    carried: Seq<LayerId>,
)
    ensures
        (left_behind(on_screen, carried) + carried_over(on_screen, carried)).to_multiset()
            == on_screen.to_multiset(),
        forall|i: int|
            0 <= i < left_behind(on_screen, carried).len() ==> !carried.contains(
                (#[trigger] left_behind(on_screen, carried)[i]).layer,
            ),
        forall|i: int|
            0 <= i < carried_over(on_screen, carried).len() ==> carried.contains(
                (#[trigger] carried_over(on_screen, carried)[i]).layer,
            ),
    decreases on_screen.len(),
{
    broadcast use vstd::seq_lib::group_to_multiset_ensures;

    if on_screen.len() > 0 {
        let rest = on_screen.drop_last();
        let last = on_screen.last();
        law_shown_buffers_are_not_released(rest, carried);
        let left = left_behind(rest, carried);
        let over = carried_over(rest, carried);
        assert(on_screen =~= rest.push(last));
        vstd::seq_lib::lemma_multiset_commutative(left, over);
        if carried.contains(last.layer) {
            assert(left + over.push(last) =~= (left + over).push(last));
        } else {
            vstd::seq_lib::lemma_multiset_commutative(left.push(last), over);
        }
    } else {
        assert(left_behind(on_screen, carried) + carried_over(on_screen, carried) =~= on_screen);
    }
}

/// After an applied frame every planned layer is shown on its plane: the next
/// frame has something to hold if its source falls behind.
pub proof fn law_planned_layers_are_shown(
    committed: Seq<CommittedPlane>,
    plan: Seq<PlanePlan>,
    disables: Seq<u32>,
    i: int,
)
    requires
        0 <= i < plan.len(),
    ensures
        shown(recorded(committed, plan, disables), plan[i].layer_id) is Some,
{
    let all = recorded(committed, plan, disables);
    let kept = untouched_planes(committed, plan, disables);
    assert(all[kept.len() + i] == planned_plane(plan[i]));
    lemma_listed_is_shown(all, plan[i].layer_id, kept.len() + i);
}

/// Whether something is recorded of a plane.
pub open spec fn was_recorded(committed: Seq<CommittedPlane>, plane_id: u32) -> bool {
    exists|m: int| 0 <= m < committed.len() && (#[trigger] committed[m]).plane_id == plane_id
}

/// What is recorded once a frame is applied: every planned plane with its layer,
/// as it was written; every other plane that was lit and not switched off, as it
/// was but no longer any layer's; and nothing else.
pub proof fn law_an_applied_frame_is_recorded(
    committed: Seq<CommittedPlane>,
    plan: Seq<PlanePlan>,
    disables: Seq<u32>,
)
    ensures
        ({
            let after = recorded(committed, plan, disables);
            &&& forall|i: int|
                0 <= i < plan.len() ==> exists|k: int|
                    0 <= k < after.len() && (#[trigger] after[k]).plane_id == (
                    #[trigger] plan[i]).plane_id && after[k].layer_id == Some(plan[i].layer_id)
                        && after[k].layer == plan[i].layer
            &&& forall|m: int|
                0 <= m < committed.len() && !disables.contains((#[trigger] committed[m]).plane_id)
                    && !uses(plan, committed[m].plane_id) ==> exists|k: int|
                    0 <= k < after.len() && (#[trigger] after[k]).plane_id == committed[m].plane_id
                        && after[k].layer == committed[m].layer && after[k].layer_id is None
            &&& forall|k: int|
                0 <= k < after.len() ==> uses(plan, (#[trigger] after[k]).plane_id) || (
                !disables.contains(after[k].plane_id) && was_recorded(
                    committed,
                    after[k].plane_id,
                ))
        }),
    decreases committed.len(),
{
    let after = recorded(committed, plan, disables);
    let kept = untouched_planes(committed, plan, disables);
    assert forall|i: int| 0 <= i < plan.len() implies exists|k: int|
        0 <= k < after.len() && (#[trigger] after[k]).plane_id == (#[trigger] plan[i]).plane_id
            && after[k].layer_id == Some(plan[i].layer_id) && after[k].layer == plan[i].layer by {
        assert(after[kept.len() + i].plane_id == plan[i].plane_id);
    }
    lemma_untouched_planes(committed, plan, disables);
    assert forall|m: int|
        0 <= m < committed.len() && !disables.contains((#[trigger] committed[m]).plane_id) && !uses(
            plan,
            committed[m].plane_id,
        ) implies exists|k: int|
        0 <= k < after.len() && (#[trigger] after[k]).plane_id == committed[m].plane_id
            && after[k].layer == committed[m].layer && after[k].layer_id is None by {
        let k = choose|k: int|
            0 <= k < kept.len() && (#[trigger] kept[k]).plane_id == committed[m].plane_id
                && kept[k].layer == committed[m].layer && kept[k].layer_id is None;
        assert(after[k] == kept[k]);
    }
    assert forall|k: int| 0 <= k < after.len() implies uses(plan, (#[trigger] after[k]).plane_id)
        || (!disables.contains(after[k].plane_id) && was_recorded(
        committed,
        after[k].plane_id,
    )) by {
        if k < kept.len() {
            assert(after[k] == kept[k]);
            assert(!disables.contains(kept[k].plane_id));
        } else {
            assert(plan[k - kept.len()].plane_id == after[k].plane_id);
        }
    }
}

proof fn lemma_untouched_planes(
    committed: Seq<CommittedPlane>,
    plan: Seq<PlanePlan>,
    disables: Seq<u32>,
)
    ensures
        ({
            let kept = untouched_planes(committed, plan, disables);
            &&& forall|m: int|
                0 <= m < committed.len() && !disables.contains((#[trigger] committed[m]).plane_id)
                    && !uses(plan, committed[m].plane_id) ==> exists|k: int|
                    0 <= k < kept.len() && (#[trigger] kept[k]).plane_id == committed[m].plane_id
                        && kept[k].layer == committed[m].layer && kept[k].layer_id is None
            &&& forall|k: int|
                0 <= k < kept.len() ==> !disables.contains((#[trigger] kept[k]).plane_id)
                    && was_recorded(committed, kept[k].plane_id)
        }),
    decreases committed.len(),
{
    if committed.len() > 0 {
        let rest = committed.drop_last();
        let before = untouched_planes(rest, plan, disables);
        let kept = untouched_planes(committed, plan, disables);
        lemma_untouched_planes(rest, plan, disables);
        assert(committed[committed.len() - 1] == committed.last());
        assert forall|m: int|
            0 <= m < committed.len() && !disables.contains((#[trigger] committed[m]).plane_id)
                && !uses(plan, committed[m].plane_id) implies exists|k: int|
            0 <= k < kept.len() && (#[trigger] kept[k]).plane_id == committed[m].plane_id
                && kept[k].layer == committed[m].layer && kept[k].layer_id is None by {
            if m < rest.len() {
                assert(rest[m] == committed[m]);
                let k = choose|k: int|
                    0 <= k < before.len() && (#[trigger] before[k]).plane_id == rest[m].plane_id
                        && before[k].layer == rest[m].layer && before[k].layer_id is None;
                assert(kept[k] == before[k]);
            } else {
                assert(kept[before.len() as int].plane_id == committed[m].plane_id);
            }
        }
        assert forall|k: int| 0 <= k < kept.len() implies !disables.contains(
            (#[trigger] kept[k]).plane_id,
        ) && was_recorded(committed, kept[k].plane_id) by {
            if k < before.len() {
                assert(kept[k] == before[k]);
                assert(was_recorded(rest, before[k].plane_id));
                let m = choose|m: int|
                    0 <= m < rest.len() && (#[trigger] rest[m]).plane_id == before[k].plane_id;
                assert(committed[m] == rest[m]);
            } else {
                assert(committed[committed.len() - 1].plane_id == kept[k].plane_id);
            }
        }
    }
}

/// Only a real commit the kernel took hands back older buffers; a test and a
/// refusal hand the frame's own buffers straight back.
pub proof fn law_only_an_applied_frame_keeps_its_buffers(
    build: FrameBuild,
    result: KernelResult,
    releases: ReleaseQueue,
)
    ensures
        build.kind is Real && result == KernelResult::Applied ==> handed_back(
            build,
            result,
            releases,
        ) == releases.two_ago@,
        build.kind is Test || result != KernelResult::Applied ==> handed_back(
            build,
            result,
            releases,
        ) == build.acquisitions@,
        fast_path_refused(build.kind, result, build.report) <==> build.kind is Real && result
            == KernelResult::Rejected && build.report.fb_delta_fast_path,
{
}

/// The buffers a frame carries over keep the order they were held in, and so do
/// those it leaves behind.
pub proof fn law_carrying_over_keeps_the_order(
    on_screen: Seq<Acquisition>,
    carried: Seq<LayerId>,
)
    ensures
        carried_over(on_screen, carried) == on_screen.filter(
            |held: Acquisition| carried.contains(held.layer),
        ),
        left_behind(on_screen, carried) == on_screen.filter(
            |held: Acquisition| !carried.contains(held.layer),
        ),
    decreases on_screen.len(),
{
    reveal(Seq::filter);
    if on_screen.len() > 0 {
        law_carrying_over_keeps_the_order(on_screen.drop_last(), carried);
    }
}

} // verus!
