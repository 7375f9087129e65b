//! What one scene commit did.

use vstd::prelude::*;
use crate::planes::LayerId;

verus! {

/// How a layer reached scanout.
#[derive(Debug, Clone, Copy, PartialEq, Eq, PartialOrd, Ord, Hash, Structural)]
pub enum Placement {
    /// On its own hardware plane.
    AssignedToPlane,
    /// Composited into the canvas plane.
    Composited,
    /// Dropped this frame.
    Unassigned,
}

impl Default for Placement {
    fn default() -> (placement: Self)
        ensures
            placement == Placement::Unassigned,
    {
        Placement::Unassigned
    }
}

/// One layer's outcome.
#[derive(Debug, Clone, Copy, PartialEq, Eq, Structural)]
pub struct LayerPlacement {
    /// Which layer.
    pub layer: LayerId,
    /// How it reached scanout.
    pub placement: Placement,
    /// The plane its content scanned out on, the canvas plane for a composited
    /// layer.
    pub plane_id: Option<u32>,
    /// The assigned plane's rotate and reflect mask; 0 otherwise.
    pub plane_rotation_bits: u64,
}

impl Default for LayerPlacement {
    /// Unassigned, on no plane, for no layer.
    fn default() -> (placement: Self)
        ensures
            placement == (LayerPlacement {
                layer: LayerId(0),
                placement: Placement::Unassigned,
                plane_id: None,
                plane_rotation_bits: 0,
            }),
    {
        LayerPlacement {
            layer: LayerId(0),
            placement: Placement::Unassigned,
            plane_id: None,
            plane_rotation_bits: 0,
        }
    }
}

/// A snapshot of a single commit.
#[derive(Debug, PartialEq, Eq)]
pub struct CommitReport {
    /// Layers in the scene at commit time.
    pub layers_total: usize,
    /// Layers put directly on a hardware plane.
    pub layers_assigned: usize,
    /// Layers rescued by composition into the canvas.
    pub layers_composited: usize,
    /// Layers neither placed nor composited.
    pub layers_unassigned: usize,
    /// Layers whose source had no frame.
    pub layers_skipped_no_frame: usize,
    /// Composition buckets emitted.
    pub composition_buckets: usize,
    /// Layers that asked to be pinned to a plane but could not be.
    pub pin_requests_unhonored: usize,
    /// Properties enqueued on the atomic request.
    pub properties_written: usize,
    /// Of those, `FB_ID` attachments.
    pub fbs_attached: usize,
    /// Layers that got a damage blob.
    pub damaged_layers: usize,
    /// Layers whose acquire fence was handed to the kernel.
    pub in_fences_armed: usize,
    /// Layers whose fence the plane could not take, waited for on the CPU.
    pub in_fence_cpu_waits: usize,
    /// Internal test commits issued while searching.
    pub test_commits_issued: usize,
    /// Whether only content changed, so the cached assignment was reused.
    pub fb_delta_fast_path: bool,
    /// Whether the test-commit budget stopped more layers reaching planes.
    pub budget_exhausted: bool,
    /// Per-layer outcomes.
    pub placements: Vec<LayerPlacement>,
}

impl CommitReport {
    /// A report in which nothing happened, over these placements.
    pub open spec fn blank(placements: Vec<LayerPlacement>) -> CommitReport {
        CommitReport {
            layers_total: 0,
            layers_assigned: 0,
            layers_composited: 0,
            layers_unassigned: 0,
            layers_skipped_no_frame: 0,
            composition_buckets: 0,
            pin_requests_unhonored: 0,
            properties_written: 0,
            fbs_attached: 0,
            damaged_layers: 0,
            in_fences_armed: 0,
            in_fence_cpu_waits: 0,
            test_commits_issued: 0,
            fb_delta_fast_path: false,
            budget_exhausted: false,
            placements,
        }
    }

    /// The first placement recorded for a layer.
    pub open spec fn first_placement(
        placements: Seq<LayerPlacement>,
        layer: LayerId,
    ) -> Option<LayerPlacement>
        decreases placements.len(),
    {
        if placements.len() == 0 {
            None
        } else if placements[0].layer == layer {
            Some(placements[0])
        } else {
            CommitReport::first_placement(placements.skip(1), layer)
        }
    }

    /// What became of one layer this commit, or `None` when it was not in the
    /// frame.
    pub fn placement_of(&self, layer: LayerId) -> (placement: Option<&LayerPlacement>)
        ensures
            match placement {
                Some(found) => Some(*found),
                None => None,
            } == CommitReport::first_placement(self.placements@, layer),
    {
        let mut i: usize = 0;
        assert(self.placements@.skip(0) =~= self.placements@);
        while i < self.placements.len()
            invariant
                0 <= i <= self.placements@.len(),
                CommitReport::first_placement(self.placements@, layer)
                    == CommitReport::first_placement(self.placements@.skip(i as int), layer),
            decreases self.placements@.len() - i,
        {
            if self.placements[i].layer == layer {
                return Some(&self.placements[i]);
            }
            assert(self.placements@.skip(i as int).skip(1) =~= self.placements@.skip(i + 1));
            i += 1;
        }
        None
    }

    /// Whether the layer went into the canvas rather than onto a plane of its
    /// own. False for a dropped layer too.
    pub fn was_composited(&self, layer: LayerId) -> (composited: bool)
        ensures
            composited == match CommitReport::first_placement(self.placements@, layer) {
                Some(found) => found.placement == Placement::Composited,
                None => false,
            },
    {
        match self.placement_of(layer) {
            Some(found) => found.placement == Placement::Composited,
            None => false,
        }
    }

    /// Every layer is counted in exactly one tally.
    pub open spec fn balances(&self) -> bool {
        self.layers_total == self.layers_assigned + self.layers_composited + self.layers_unassigned
            + self.layers_skipped_no_frame
    }

    /// Whether the layer tallies add up to the total.
    pub fn accounting_balances(&self) -> (balances: bool)
        ensures
            balances == self.balances(),
    {
        self.layers_total as u128 == self.layers_assigned as u128 + self.layers_composited as u128
            + self.layers_unassigned as u128 + self.layers_skipped_no_frame as u128
    }

    /// Taking the fast path means issuing no test commits.
    pub open spec fn fast_path_holds(&self) -> bool {
        self.fb_delta_fast_path ==> self.test_commits_issued == 0
    }

    /// Whether the fast path's implied contract holds.
    pub fn fast_path_consistent(&self) -> (consistent: bool)
        ensures
            consistent == self.fast_path_holds(),
    {
        !self.fb_delta_fast_path || self.test_commits_issued == 0
    }
}

impl Default for CommitReport {
    /// A report in which nothing happened.
    fn default() -> (report: Self)
        ensures
            report == CommitReport::blank(report.placements),
            report.placements@.len() == 0,
    {
        CommitReport {
            layers_total: 0,
            layers_assigned: 0,
            layers_composited: 0,
            layers_unassigned: 0,
            layers_skipped_no_frame: 0,
            composition_buckets: 0,
            pin_requests_unhonored: 0,
            properties_written: 0,
            fbs_attached: 0,
            damaged_layers: 0,
            in_fences_armed: 0,
            in_fence_cpu_waits: 0,
            test_commits_issued: 0,
            fb_delta_fast_path: false,
            budget_exhausted: false,
            placements: Vec::new(),
        }
    }
}

/// An answer for a layer is one of the placements recorded for that very
/// layer, so a handle to a layer that left never reads its successor's outcome.
pub proof fn law_placement_answers_for_its_own_layer(
    placements: Seq<LayerPlacement>,
    layer: LayerId,
)
    ensures
        match CommitReport::first_placement(placements, layer) {
            Some(found) => found.layer == layer && placements.contains(found),
            None => forall|i: int| 0 <= i < placements.len() ==> (#[trigger] placements[i]).layer
                != layer,
        },
    decreases placements.len(),
{
    if placements.len() > 0 && placements[0].layer != layer {
        law_placement_answers_for_its_own_layer(placements.skip(1), layer);
        match CommitReport::first_placement(placements, layer) {
            Some(found) => {
                let i = choose|i: int|
                    0 <= i < placements.skip(1).len() && placements.skip(1)[i] == found;
                assert(placements[i + 1] == found);
            },
            None => {
                assert forall|i: int| 0 <= i < placements.len() implies (#[trigger] placements[i]).layer
                    != layer by {
                    if i > 0 {
                        assert(placements.skip(1)[i - 1] == placements[i]);
                    }
                }
            },
        }
    }
}

/// Every layer is counted once: on a plane, in the canvas, dropped, or without a
/// frame.
pub proof fn law_the_tallies_add_up(report: CommitReport)
    ensures
        report.balances() <==> report.layers_total == report.layers_assigned
            + report.layers_composited + report.layers_unassigned + report.layers_skipped_no_frame,
        report.fast_path_holds() <==> !report.fb_delta_fast_path || report.test_commits_issued == 0,
{
}

/// A layer's outcome is the first recorded for it.
pub proof fn law_the_first_outcome_of_a_layer_answers(
    placements: Seq<LayerPlacement>,
    layer: LayerId,
    at: int,
)
    requires
        0 <= at < placements.len(),
        placements[at].layer == layer,
        forall|j: int| 0 <= j < at ==> (#[trigger] placements[j]).layer != layer,
    ensures
        CommitReport::first_placement(placements, layer) == Some(placements[at]),
    decreases placements.len(),
{
    if at > 0 {
        let rest = placements.skip(1);
        assert(placements[0].layer != layer);
        assert forall|j: int| 0 <= j < at - 1 implies (#[trigger] rest[j]).layer != layer by {
            assert(placements[j + 1].layer != layer);
        }
        assert(rest[at - 1] == placements[at]);
        law_the_first_outcome_of_a_layer_answers(rest, layer, at - 1);
    }
}

/// An answer about composition is true for a layer whose first outcome is the
/// canvas, and for no other.
pub proof fn law_composited_means_in_the_canvas(
    report: CommitReport,
    layer: LayerId,
    composited: bool,
    at: int,
)
    requires
        call_ensures(CommitReport::was_composited, (&report, layer), composited),
    ensures
        0 <= at < report.placements@.len() && report.placements@[at].layer == layer && (forall|
            j: int,
        | 0 <= j < at ==> (#[trigger] report.placements@[j]).layer != layer) ==> composited == (
        report.placements@[at].placement == Placement::Composited),
        (forall|j: int|
            0 <= j < report.placements@.len() ==> (#[trigger] report.placements@[j]).layer != layer)
            ==> !composited,
{
    law_placement_answers_for_its_own_layer(report.placements@, layer);
    if 0 <= at < report.placements@.len() && report.placements@[at].layer == layer && (forall|
        j: int,
    | 0 <= j < at ==> (#[trigger] report.placements@[j]).layer != layer) {
        law_the_first_outcome_of_a_layer_answers(report.placements@, layer, at);
    }
}

} // verus!
