//! The scene: layers, their sources, and the two-phase commit.
//!
//! A frame is drafted, placed, built, committed and finalized.
//! [`LayerScene::draft_frame`] acquires a buffer from every source and lowers
//! every layer. Whoever knows the planes then decides which layer goes where,
//! and [`LayerScene::build_frame`] turns that decision into a plan and a report.
//! The plan is committed, and [`LayerScene::finalize_frame`] settles the
//! bookkeeping with the kernel's answer: which buffers go back, what the planes
//! now hold, whether the scene is suspended.

use vstd::prelude::*;
use crate::plan::baseline_of;
use crate::display::{unset_display, DisplayParams};
use crate::frame::FrameLifecycle;
use crate::planes::{ContentType, Layer, LayerId};
use crate::release::{Acquisition, Released, ScenePendingFlip};
use crate::source::{AcquiredBuffer, BindingModel, LayerBufferSource, SourceError, SourceFormat};
use crate::sync::SyncFence;

verus! {

// --- handles -----------------------------------------------------------------

/// Generation-tagged identity for a scene layer.
///
/// The scene recycles table slots; the generation keeps a handle to a removed
/// layer from addressing whatever took its place.
#[derive(Debug, Clone, Copy, PartialEq, Eq, PartialOrd, Ord, Hash, Structural)]
pub struct LayerHandle {
    /// 1-based slot index; 0 is the invalid sentinel.
    pub id: u32,
    /// Bumped each time the slot is vacated.
    pub generation: u32,
}

impl Default for LayerHandle {
    /// The invalid sentinel.
    fn default() -> (handle: Self)
        ensures
            handle == (LayerHandle { id: 0, generation: 0 }),
    {
        LayerHandle { id: 0, generation: 0 }
    }
}

impl LayerHandle {
    /// The identity this handle gives its layer: slot and generation, packed.
    pub open spec fn identity(self) -> LayerId {
        LayerId((self.id * 0x1_0000_0000 + self.generation) as u64)
    }

    /// Whether this is not the default sentinel. Says nothing about liveness.
    pub fn is_valid(self) -> (valid: bool)
        ensures
            valid == (self.id != 0),
    {
        self.id != 0
    }

    /// A stable identity for plane assignments. A recycled slot yields a
    /// different one.
    pub fn layer_id(self) -> (layer: LayerId)
        ensures
            layer == self.identity(),
    {
        let id: u32 = self.id;
        let generation: u32 = self.generation;
        assert((((id as u64) << 32u64) | generation as u64) == (id as u64) * 0x1_0000_0000u64 + (
        generation as u64)) by (bit_vector)
            requires
                id <= 0xFFFF_FFFFu32,
                generation <= 0xFFFF_FFFFu32,
        ;
        LayerId(((id as u64) << 32) | generation as u64)
    }
}

/// Two handles share an identity only if they are the same handle.
pub proof fn law_identities_are_distinct(a: LayerHandle, b: LayerHandle)
    requires
        a.identity() == b.identity(),
    ensures
        a == b,
{
    assert(a.id * 0x1_0000_0000 + a.generation <= u64::MAX);
    assert(b.id * 0x1_0000_0000 + b.generation <= u64::MAX);
}

// --- layers ------------------------------------------------------------------

/// A layer's live scene state.
pub struct SceneLayer<S> {
    /// Where its buffers come from.
    pub source: S,
    /// How it is displayed.
    pub display: DisplayParams,
    /// What it shows.
    pub content_type: ContentType,
    /// The producer's expected refresh rate, or 0.
    pub update_hint_hz: u32,
    /// The application's placement priority.
    pub app_priority: u8,
    /// Whether a hint changed since the last built frame.
    pub hints_dirty: bool,
}

/// A layer as it joins a scene.
pub open spec fn fresh_layer<S>(source: S) -> SceneLayer<S> {
    SceneLayer {
        source,
        display: unset_display(),
        content_type: ContentType::Generic,
        update_hint_hz: 0,
        app_priority: 0,
        hints_dirty: false,
    }
}

/// Whether two states of a layer differ at most in their source's own state.
pub open spec fn same_layer<S>(a: SceneLayer<S>, b: SceneLayer<S>) -> bool {
    a == (SceneLayer { source: a.source, ..b })
}

impl<S: LayerBufferSource> SceneLayer<S> {
    /// How this layer is displayed.
    pub fn display(&self) -> (display: &DisplayParams)
        ensures
            *display == self.display,
    {
        &self.display
    }

    /// Change how this layer is displayed.
    ///
    /// Geometry only affects the values written to whatever plane the layer
    /// already has, so this does not ask for a new placement.
    pub fn set_display(&mut self, display: DisplayParams)
        ensures
            *final(self) == (SceneLayer { display, ..*old(self) }),
    {
        self.display = display;
    }

    /// The content-type hint.
    pub fn content_type(&self) -> (content_type: ContentType)
        ensures
            content_type == self.content_type,
    {
        self.content_type
    }

    /// Change the content-type hint, which asks for a new placement.
    pub fn set_content_type(&mut self, content_type: ContentType)
        ensures
            *final(self) == (SceneLayer { content_type, hints_dirty: true, ..*old(self) }),
    {
        self.content_type = content_type;
        self.hints_dirty = true;
    }

    /// The producer's expected refresh rate, or 0.
    pub fn update_hint_hz(&self) -> (hz: u32)
        ensures
            hz == self.update_hint_hz,
    {
        self.update_hint_hz
    }

    /// Change the refresh-rate hint, which asks for a new placement.
    pub fn set_update_hint(&mut self, hz: u32)
        ensures
            *final(self) == (SceneLayer { update_hint_hz: hz, hints_dirty: true, ..*old(self) }),
    {
        self.update_hint_hz = hz;
        self.hints_dirty = true;
    }

    /// The application's placement priority within a content class.
    pub fn app_priority(&self) -> (priority: u8)
        ensures
            priority == self.app_priority,
    {
        self.app_priority
    }

    /// Change the placement priority, which asks for a new placement.
    pub fn set_app_priority(&mut self, priority: u8)
        ensures
            *final(self) == (SceneLayer { app_priority: priority, hints_dirty: true, ..*old(self) }),
    {
        self.app_priority = priority;
        self.hints_dirty = true;
    }

    /// Whether a hint changed since the last built frame.
    pub fn hints_dirty(&self) -> (dirty: bool)
        ensures
            dirty == self.hints_dirty,
    {
        self.hints_dirty
    }

    /// The buffer source.
    pub fn source(&self) -> (source: &S)
        ensures
            *source == self.source,
    {
        &self.source
    }

    /// The buffer source, mutably: for painting into it.
    pub fn source_mut(&mut self) -> (source: &mut S)
        ensures
            *source == old(self).source,
            *final(self) == (SceneLayer { source: *final(source), ..*old(self) }),
    {
        &mut self.source
    }
}

/// A source whose layer was removed while buffers were still in flight.
pub struct RetiringSource<S> {
    /// The layer it belonged to.
    pub layer: LayerId,
    /// The source, kept until its buffers have come back.
    pub source: S,
}

/// What the kernel holds on one plane.
#[derive(Debug, Clone, Copy, PartialEq, Eq, Structural)]
pub struct CommittedPlane {
    /// The plane.
    pub plane_id: u32,
    /// The layer it shows, or `None` once that layer has left the scene.
    pub layer_id: Option<LayerId>,
    /// What was written to it.
    pub layer: Layer,
}

/// One call the scene made on a source, with what came back.
pub enum SourceCall {
    /// A buffer was acquired from a source of this shape and binding.
    Acquired {
        /// The layer.
        layer: LayerId,
        /// The buffer.
        buffer: AcquiredBuffer,
        /// The source's format.
        format: SourceFormat,
        /// The source's binding.
        binding: BindingModel,
    },
    /// The source had no frame.
    Starved {
        /// The layer.
        layer: LayerId,
    },
    /// The source failed.
    Failed {
        /// The layer.
        layer: LayerId,
        /// The failure.
        error: SourceError,
    },
    /// A buffer went back to the source of this layer.
    Returned {
        /// The layer.
        layer: LayerId,
        /// The buffer.
        buffer: AcquiredBuffer,
        /// The fence that came with it.
        fence: Option<SyncFence>,
    },
    /// A buffer had no source left to go back to.
    Orphaned {
        /// The layer.
        layer: LayerId,
        /// The buffer.
        buffer: AcquiredBuffer,
    },
}

/// Why a frame could not be built.
#[derive(Debug, Clone, Copy, PartialEq, Eq, Structural)]
#[non_exhaustive]
pub enum SceneError {
    /// The scene is suspended after losing DRM master.
    Suspended,
    /// A source failed for a real reason.
    Source(SourceError),
    /// DRM master was lost while placing the layers.
    NotMaster,
}

/// One CRTC's layers and the commit machinery around them.
pub struct LayerScene<S> {
    /// The CRTC this scene drives.
    pub crtc_id: u32,
    /// The layer table.
    pub slots: Vec<Option<SceneLayer<S>>>,
    /// One generation per slot.
    pub generations: Vec<u32>,
    /// Vacant slots, by handle id, the next to be reused last.
    pub free: Vec<u32>,
    /// What the kernel holds, one entry per lit plane.
    pub committed: Vec<CommittedPlane>,
    /// Whether the cached placement must be dropped before the next one.
    pub placement_stale: bool,
    /// Layers that left since the last draft.
    pub departed: Vec<LayerId>,
    /// The frame bookkeeping.
    pub lifecycle: FrameLifecycle,
    /// Sources kept alive for their buffers.
    pub retiring: Vec<RetiringSource<S>>,
    /// Every call made on a source, in order.
    pub calls: Ghost<Seq<SourceCall>>,
}

/// The handle of the layer in a slot.
pub open spec fn handle_at(generations: Seq<u32>, slot: int) -> LayerHandle {
    LayerHandle { id: (slot + 1) as u32, generation: generations[slot] }
}

/// Whether two states of a slot differ at most in their source's own state.
pub open spec fn same_slot<S>(a: Option<SceneLayer<S>>, b: Option<SceneLayer<S>>) -> bool {
    match (a, b) {
        (Some(x), Some(y)) => same_layer(x, y),
        (None, None) => true,
        _ => false,
    }
}

/// Whether two layer tables hold the same layers, up to their sources' own
/// state.
pub open spec fn same_layers<S>(
    a: Seq<Option<SceneLayer<S>>>,
    b: Seq<Option<SceneLayer<S>>>,
) -> bool {
    a.len() == b.len() && forall|i: int|
        0 <= i < a.len() ==> same_slot(#[trigger] a[i], b[i])
}

/// Whether two lists keep the same sources for the same layers.
pub open spec fn same_retiring<S>(a: Seq<RetiringSource<S>>, b: Seq<RetiringSource<S>>) -> bool {
    a.len() == b.len() && forall|i: int|
        0 <= i < a.len() ==> (#[trigger] a[i]).layer == b[i].layer
}

/// The handles of the layers in the first `upto` slots, in slot order.
pub open spec fn live_handles<S>(
    slots: Seq<Option<SceneLayer<S>>>,
    generations: Seq<u32>,
) -> Seq<LayerHandle>
    decreases slots.len(),
{
    if slots.len() == 0 {
        Seq::empty()
    } else {
        let before = live_handles(slots.drop_last(), generations);
        if slots.last() is Some {
            before.push(handle_at(generations, slots.len() - 1))
        } else {
            before
        }
    }
}

impl<S: LayerBufferSource> LayerScene<S> {
    /// The table is consistent: one generation per slot, every vacant slot
    /// listed exactly once, and every listed slot vacant.
    pub open spec fn well_formed(&self) -> bool {
        &&& self.slots@.len() == self.generations@.len()
        &&& self.slots@.len() <= u32::MAX
        &&& forall|i: int|
            0 <= i < self.free@.len() ==> 1 <= (#[trigger] self.free@[i]) <= self.slots@.len()
                && self.slots@[self.free@[i] - 1] is None
        &&& self.free@.no_duplicates()
        &&& forall|i: int|
            0 <= i < self.slots@.len() && (#[trigger] self.slots@[i]) is None ==> self.free@.contains(
                (i + 1) as u32,
            )
    }

    /// The slot a handle addresses, its generation checked.
    pub open spec fn resolved(&self, handle: LayerHandle) -> Option<int> {
        if handle.id != 0 && handle.id <= self.generations@.len() && self.generations@[handle.id - 1]
            == handle.generation {
            Some(handle.id - 1)
        } else {
            None
        }
    }

    /// The layer a handle addresses.
    pub open spec fn layer_spec(&self, handle: LayerHandle) -> Option<SceneLayer<S>> {
        match self.resolved(handle) {
            Some(slot) => self.slots@[slot],
            None => None,
        }
    }

    /// A scene driving `crtc_id`, with no layers.
    pub fn new(crtc_id: u32) -> (scene: Self)
        ensures
            scene.well_formed(),
            scene.crtc_id == crtc_id,
            scene.slots@.len() == 0,
            scene.committed@.len() == 0,
            !scene.placement_stale,
            scene.departed@.len() == 0,
            scene.lifecycle.releases.held().len() == 0,
            !scene.lifecycle.pending_flip.armed,
            !scene.lifecycle.suspended,
            scene.retiring@.len() == 0,
            scene.calls@.len() == 0,
    {
        LayerScene {
            crtc_id,
            slots: Vec::new(),
            generations: Vec::new(),
            free: Vec::new(),
            committed: Vec::new(),
            placement_stale: false,
            departed: Vec::new(),
            lifecycle: FrameLifecycle::new(),
            retiring: Vec::new(),
            calls: Ghost(Seq::empty()),
        }
    }

    /// The CRTC this scene drives.
    pub fn crtc_id(&self) -> (crtc_id: u32)
        ensures
            crtc_id == self.crtc_id,
    {
        self.crtc_id
    }

    /// How many layers the scene holds.
    pub fn len(&self) -> (len: usize)
        ensures
            len == live_handles(self.slots@, self.generations@).len(),
    {
        let mut len: usize = 0;
        let mut i: usize = 0;
        while i < self.slots.len()
            invariant
                0 <= i <= self.slots@.len(),
                len <= i,
                len == live_handles(self.slots@.take(i as int), self.generations@).len(),
            decreases self.slots@.len() - i,
        {
            assert(self.slots@.take(i + 1).drop_last() =~= self.slots@.take(i as int));
            if self.slots[i].is_some() {
                len += 1;
            }
            i += 1;
        }
        assert(self.slots@.take(self.slots@.len() as int) =~= self.slots@);
        len
    }

    /// Whether the scene holds no layers.
    pub fn is_empty(&self) -> (empty: bool)
        ensures
            empty == (live_handles(self.slots@, self.generations@).len() == 0),
    {
        self.len() == 0
    }

    /// Whether the scene is suspended after losing DRM master.
    pub fn is_suspended(&self) -> (suspended: bool)
        ensures
            suspended == self.lifecycle.suspended,
    {
        self.lifecycle.is_suspended()
    }

    /// Whether a page-flip event is armed and undispatched.
    pub fn has_pending_flip(&self) -> (pending: bool)
        ensures
            pending == self.lifecycle.pending_flip.armed,
    {
        self.lifecycle.has_pending_flip()
    }

    /// Record that the armed page-flip event was dispatched.
    pub fn flip_landed(&mut self)
        ensures
            *final(self) == (LayerScene {
                lifecycle: FrameLifecycle {
                    pending_flip: ScenePendingFlip { armed: false },
                    ..old(self).lifecycle
                },
                ..*old(self)
            }),
    {
        self.lifecycle.flip_landed();
    }

    /// Lift a suspension after the session resumes.
    pub fn resume(&mut self)
        ensures
            *final(self) == (LayerScene {
                lifecycle: FrameLifecycle { suspended: false, ..old(self).lifecycle },
                ..*old(self)
            }),
    {
        self.lifecycle.resume();
    }

    /// Add a layer backed by `source`.
    ///
    /// It takes the most recently vacated slot under that slot's current
    /// generation, or a new one under generation 1.
    pub fn add_layer(&mut self, source: S) -> (handle: LayerHandle)
        requires
            old(self).well_formed(),
            old(self).free@.len() == 0 ==> old(self).slots@.len() < u32::MAX,
        ensures
            final(self).well_formed(),
            if old(self).free@.len() > 0 {
                &&& handle.id == old(self).free@.last()
                &&& handle == handle_at(old(self).generations@, handle.id - 1)
                &&& final(self).slots@ == old(self).slots@.update(
                    handle.id - 1,
                    Some(fresh_layer(source)),
                )
                &&& final(self).generations@ == old(self).generations@
                &&& final(self).free@ == old(self).free@.drop_last()
            } else {
                &&& handle == (LayerHandle {
                    id: (old(self).slots@.len() + 1) as u32,
                    generation: 1,
                })
                &&& final(self).slots@ == old(self).slots@.push(Some(fresh_layer(source)))
                &&& final(self).generations@ == old(self).generations@.push(1)
                &&& final(self).free@ == old(self).free@
            },
            *final(self) == (LayerScene {
                slots: final(self).slots,
                generations: final(self).generations,
                free: final(self).free,
                ..*old(self)
            }),
    {
        let layer = SceneLayer {
            source,
            display: DisplayParams::default(),
            content_type: ContentType::Generic,
            update_hint_hz: 0,
            app_priority: 0,
            hints_dirty: false,
        };
        let ghost before = *self;
        if self.free.len() > 0 {
            let id: u32 = self.free[self.free.len() - 1];
            self.free.pop();
            let index: usize = id as usize - 1;
            self.slots[index] = Some(layer);
            proof {
                assert forall|i: int| 0 <= i < self.slots@.len() && (#[trigger] self.slots@[i])
                    is None implies self.free@.contains((i + 1) as u32) by {
                    assert(before.slots@[i] is None);
                    let k = choose|k: int|
                        0 <= k < before.free@.len() && before.free@[k] == (i + 1) as u32;
                    assert(self.free@[k] == (i + 1) as u32);
                }
            }
            LayerHandle { id, generation: self.generations[index] }
        } else {
            self.slots.push(Some(layer));
            self.generations.push(1);
            let id: u32 = self.slots.len() as u32;
            proof {
                assert forall|i: int| 0 <= i < self.slots@.len() && (#[trigger] self.slots@[i])
                    is None implies self.free@.contains((i + 1) as u32) by {
                    assert(before.slots@[i] is None);
                }
            }
            LayerHandle { id, generation: 1 }
        }
    }

    /// Resolve a handle to a slot index, checking the generation.
    pub fn resolve(&self, handle: LayerHandle) -> (slot: Option<usize>)
        ensures
            match (slot, self.resolved(handle)) {
                (Some(found), Some(slot)) => found == slot,
                (None, None) => true,
                _ => false,
            },
    {
        if !handle.is_valid() {
            return None;
        }
        let index: usize = handle.id as usize - 1;
        if index >= self.generations.len() || self.generations[index] != handle.generation {
            return None;
        }
        Some(index)
    }

    /// Borrow a layer, or `None` if the handle is stale.
    pub fn layer(&self, handle: LayerHandle) -> (layer: Option<&SceneLayer<S>>)
        requires
            self.well_formed(),
        ensures
            match layer {
                Some(found) => self.layer_spec(handle) == Some(*found),
                None => self.layer_spec(handle) is None,
            },
    {
        match self.resolve(handle) {
            Some(index) => self.slots[index].as_ref(),
            None => None,
        }
    }

    /// Borrow a layer mutably, or `None` if the handle is stale.
    pub fn layer_mut(&mut self, handle: LayerHandle) -> (layer: Option<&mut SceneLayer<S>>)
        requires
            old(self).well_formed(),
        ensures
            match layer {
                Some(layer) => {
                    &&& old(self).layer_spec(handle) == Some(*layer)
                    &&& final(self).well_formed()
                    &&& final(self).slots@ == old(self).slots@.update(
                        old(self).resolved(handle)->0,
                        Some(*final(layer)),
                    )
                    &&& *final(self) == (LayerScene { slots: final(self).slots, ..*old(self) })
                },
                None => old(self).layer_spec(handle) is None && *final(self) == *old(self),
            },
    {
        match self.resolve(handle) {
            Some(index) => {
                if self.slots[index].is_some() {
                    self.slots[index].as_mut()
                } else {
                    None
                }
            },
            None => None,
        }
    }

    /// Every live handle, in slot order.
    pub fn handles(&self) -> (handles: Vec<LayerHandle>)
        requires
            self.well_formed(),
        ensures
            handles@ == live_handles(self.slots@, self.generations@),
    {
        let mut handles: Vec<LayerHandle> = Vec::new();
        let mut i: usize = 0;
        while i < self.slots.len()
            invariant
                self.well_formed(),
                0 <= i <= self.slots@.len(),
                handles@ == live_handles(self.slots@.take(i as int), self.generations@),
            decreases self.slots@.len() - i,
        {
            assert(self.slots@.take(i + 1).drop_last() =~= self.slots@.take(i as int));
            if self.slots[i].is_some() {
                handles.push(LayerHandle { id: (i + 1) as u32, generation: self.generations[i] });
            }
            i += 1;
        }
        assert(self.slots@.take(self.slots@.len() as int) =~= self.slots@);
        handles
    }
}

// --- routing buffers back ----------------------------------------------------

/// Whether the layer in slot `i` is the one with this identity.
pub open spec fn lives_in<S>(
    slots: Seq<Option<SceneLayer<S>>>,
    generations: Seq<u32>,
    layer: LayerId,
    i: int,
) -> bool {
    0 <= i < slots.len() && slots[i] is Some && handle_at(generations, i).identity() == layer
}

/// Whether a buffer of this layer still has a source to go back to: the layer
/// is live, or its source is being kept for exactly this.
pub open spec fn has_home<S>(
    slots: Seq<Option<SceneLayer<S>>>,
    generations: Seq<u32>,
    retiring: Seq<RetiringSource<S>>,
    layer: LayerId,
) -> bool {
    ||| exists|i: int| lives_in(slots, generations, layer, i)
    ||| exists|j: int| 0 <= j < retiring.len() && (#[trigger] retiring[j]).layer == layer
}

/// Every source a buffer can go back to: those of live layers, and those kept
/// for layers that have left.
pub struct Homes<S> {
    /// The layer table.
    pub slots: Seq<Option<SceneLayer<S>>>,
    /// The kept sources.
    pub retiring: Seq<RetiringSource<S>>,
}

/// The sources of a scene.
pub open spec fn homes_of<S>(scene: LayerScene<S>) -> Homes<S> {
    Homes { slots: scene.slots@, retiring: scene.retiring@ }
}

/// Whether the source kept for this layer stands at `j`: the layer is not live,
/// and `j` is the first place that names it.
pub open spec fn kept_at<S>(homes: Homes<S>, generations: Seq<u32>, layer: LayerId, j: int) -> bool {
    &&& forall|i: int| !lives_in(homes.slots, generations, layer, i)
    &&& 0 <= j < homes.retiring.len()
    &&& homes.retiring[j].layer == layer
    &&& forall|k: int| 0 <= k < j ==> (#[trigger] homes.retiring[k]).layer != layer
}

/// Whether no source is left for this layer.
pub open spec fn homeless<S>(homes: Homes<S>, generations: Seq<u32>, layer: LayerId) -> bool {
    !has_home(homes.slots, generations, homes.retiring, layer)
}

/// Whether nothing but the source in slot `i` differs.
pub open spec fn only_slot<S>(before: Homes<S>, after: Homes<S>, i: int) -> bool {
    &&& after.retiring == before.retiring
    &&& after.slots.len() == before.slots.len()
    &&& same_slot(before.slots[i], after.slots[i])
    &&& forall|j: int|
        0 <= j < before.slots.len() && j != i ==> #[trigger] after.slots[j] == before.slots[j]
}

/// Whether nothing but the source kept at `j` differs.
pub open spec fn only_kept<S>(before: Homes<S>, after: Homes<S>, j: int) -> bool {
    &&& after.slots == before.slots
    &&& after.retiring.len() == before.retiring.len()
    &&& after.retiring[j].layer == before.retiring[j].layer
    &&& forall|k: int|
        0 <= k < before.retiring.len() && k != j ==> #[trigger] after.retiring[k]
            == before.retiring[k]
}

/// Whether `route` leads from `first` through one hand-back per buffer to the
/// sources of `after`. Sources kept for buffers that are all back are gone by
/// then.
pub open spec fn routed<S>(
    first: Homes<S>,
    route: Seq<Homes<S>>,
    buffers: nat,
    after: LayerScene<S>,
) -> bool {
    &&& route.len() == buffers + 1
    &&& route[0] == first
    &&& route.last().slots == after.slots@
    &&& after.lifecycle.releases.held().len() > 0 ==> route.last().retiring == after.retiring@
}

/// The call that hands one buffer back.
pub open spec fn delivery<S>(
    slots: Seq<Option<SceneLayer<S>>>,
    generations: Seq<u32>,
    retiring: Seq<RetiringSource<S>>,
    acquisition: Acquisition,
) -> SourceCall {
    if has_home(slots, generations, retiring, acquisition.layer) {
        SourceCall::Returned {
            layer: acquisition.layer,
            buffer: acquisition.buffer,
            fence: acquisition.release_fence,
        }
    } else {
        SourceCall::Orphaned { layer: acquisition.layer, buffer: acquisition.buffer }
    }
}

/// The calls that hand a run of buffers back, in order.
pub open spec fn deliveries<S>(
    slots: Seq<Option<SceneLayer<S>>>,
    generations: Seq<u32>,
    retiring: Seq<RetiringSource<S>>,
    acquisitions: Seq<Acquisition>,
) -> Seq<SourceCall> {
    acquisitions.map_values(|a: Acquisition| delivery(slots, generations, retiring, a))
}

pub(crate) proof fn lemma_home_is_stable<S>(
    slots: Seq<Option<SceneLayer<S>>>,
    later: Seq<Option<SceneLayer<S>>>,
    generations: Seq<u32>,
    retiring: Seq<RetiringSource<S>>,
    later_retiring: Seq<RetiringSource<S>>,
    layer: LayerId,
)
    requires
        same_layers(slots, later),
        same_retiring(retiring, later_retiring),
    ensures
        has_home(slots, generations, retiring, layer) == has_home(
            later,
            generations,
            later_retiring,
            layer,
        ),
{
    assert forall|i: int| lives_in(slots, generations, layer, i) == #[trigger] lives_in(
        later,
        generations,
        layer,
        i,
    ) by {
        if 0 <= i < slots.len() {
            assert(same_slot(slots[i], later[i]));
        }
    }
    if exists|i: int| lives_in(slots, generations, layer, i) {
        let i = choose|i: int| lives_in(slots, generations, layer, i);
        assert(lives_in(later, generations, layer, i));
    }
    if exists|j: int| 0 <= j < retiring.len() && (#[trigger] retiring[j]).layer == layer {
        let j = choose|j: int| 0 <= j < retiring.len() && (#[trigger] retiring[j]).layer == layer;
        assert(later_retiring[j].layer == layer);
    }
    if exists|j: int|
        0 <= j < later_retiring.len() && (#[trigger] later_retiring[j]).layer == layer {
        let j = choose|j: int|
            0 <= j < later_retiring.len() && (#[trigger] later_retiring[j]).layer == layer;
        assert(retiring[j].layer == layer);
    }
}

impl<S: LayerBufferSource> LayerScene<S> {
    /// The slot of the live layer with this identity.
    pub(crate) fn live_slot(&self, layer: LayerId) -> (slot: Option<usize>)
        requires
            self.well_formed(),
        ensures
            match slot {
                Some(i) => lives_in(self.slots@, self.generations@, layer, i as int),
                None => forall|i: int| !lives_in(self.slots@, self.generations@, layer, i),
            },
    {
        let mut i: usize = 0;
        while i < self.slots.len()
            invariant
                self.well_formed(),
                0 <= i <= self.slots@.len(),
                forall|j: int| j < i ==> !lives_in(self.slots@, self.generations@, layer, j),
            decreases self.slots@.len() - i,
        {
            let handle = LayerHandle { id: (i + 1) as u32, generation: self.generations[i] };
            if self.slots[i].is_some() && handle.layer_id() == layer {
                return Some(i);
            }
            i += 1;
        }
        None
    }

    /// The place of the first kept source for this layer.
    fn retiring_place(&self, layer: LayerId) -> (place: Option<usize>)
        ensures
            match place {
                Some(j) => j < self.retiring@.len() && self.retiring@[j as int].layer == layer
                    && forall|k: int|
                    0 <= k < j ==> (#[trigger] self.retiring@[k]).layer != layer,
                None => forall|j: int|
                    0 <= j < self.retiring@.len() ==> (#[trigger] self.retiring@[j]).layer != layer,
            },
    {
        let mut j: usize = 0;
        while j < self.retiring.len()
            invariant
                0 <= j <= self.retiring@.len(),
                forall|k: int| 0 <= k < j ==> (#[trigger] self.retiring@[k]).layer != layer,
            decreases self.retiring@.len() - j,
        {
            if self.retiring[j].layer == layer {
                return Some(j);
            }
            j += 1;
        }
        None
    }

    /// Hand one buffer back to the source that produced it.
    fn deliver_one(&mut self, acquisition: Acquisition)
        requires
            old(self).well_formed(),
        ensures
            final(self).well_formed(),
            same_layers(old(self).slots@, final(self).slots@),
            same_retiring(old(self).retiring@, final(self).retiring@),
            final(self).calls@ == old(self).calls@.push(
                delivery(
                    old(self).slots@,
                    old(self).generations@,
                    old(self).retiring@,
                    acquisition,
                ),
            ),
            ({
                ||| exists|i: int, asked: &mut S|
                    #![trigger lives_in(
                        homes_of(*old(self)).slots,
                        old(self).generations@,
                        acquisition.layer,
                        i,
                    ), call_ensures(
                        S::release_with_fence,
                        (asked, acquisition.buffer, acquisition.release_fence),
                        (),
                    )]
                    lives_in(
                        homes_of(*old(self)).slots,
                        old(self).generations@,
                        acquisition.layer,
                        i,
                    ) && *asked == homes_of(*old(self)).slots[i]->0.source
                        && *final(asked) == homes_of(*final(self)).slots[i]->0.source && only_slot(
                            homes_of(*old(self)),
                            homes_of(*final(self)),
                            i,
                        ) && call_ensures(
                        S::release_with_fence,
                        (asked, acquisition.buffer, acquisition.release_fence),
                        (),
                    )
                ||| exists|j: int, asked: &mut S|
                    #![trigger kept_at(
                        homes_of(*old(self)),
                        old(self).generations@,
                        acquisition.layer,
                        j,
                    ), call_ensures(
                        S::release_with_fence,
                        (asked, acquisition.buffer, acquisition.release_fence),
                        (),
                    )]
                    kept_at(
                        homes_of(*old(self)),
                        old(self).generations@,
                        acquisition.layer,
                        j,
                    ) && *asked == homes_of(*old(self)).retiring[j].source && *final(asked)
                        == homes_of(*final(self)).retiring[j].source && only_kept(
                            homes_of(*old(self)),
                            homes_of(*final(self)),
                            j,
                        ) && call_ensures(
                        S::release_with_fence,
                        (asked, acquisition.buffer, acquisition.release_fence),
                        (),
                    )
                ||| homeless(
                    homes_of(*old(self)),
                    old(self).generations@,
                    acquisition.layer,
                ) && homes_of(*final(self)) == homes_of(*old(self))
            }),
            *final(self) == (LayerScene {
                slots: final(self).slots,
                retiring: final(self).retiring,
                calls: final(self).calls,
                ..*old(self)
            }),
    {
        let layer: LayerId = acquisition.layer;
        let ghost call = delivery(self.slots@, self.generations@, self.retiring@, acquisition);
        let ghost before = homes_of(*self);
        match self.live_slot(layer) {
            Some(i) => {
                assert(lives_in(self.slots@, self.generations@, layer, i as int));
                if let Some(live) = &mut self.slots[i] {
                    live.source.release_with_fence(acquisition.buffer, acquisition.release_fence);
                }
                assert(only_slot(before, homes_of(*self), i as int));
            },
            None => {
                if let Some(j) = self.retiring_place(layer) {
                    assert(self.retiring@[j as int].layer == layer);
                    assert(kept_at(before, self.generations@, layer, j as int));
                    self.retiring[j].source.release_with_fence(
                        acquisition.buffer,
                        acquisition.release_fence,
                    );
                    assert(only_kept(before, homes_of(*self), j as int));
                } else {
                    assert(homeless(before, self.generations@, layer));
                }
            },
        }
        self.calls = Ghost(self.calls@.push(call));
    }

    /// Route released buffers to the sources that produced them, in order.
    ///
    /// Once nothing is in flight, the sources kept for their buffers go. The
    /// sources as they stood in between come back: one hand-back leads from each
    /// to the next.
    #[verifier::rlimit(60)]
    pub(crate) fn deliver(&mut self, released: Released) -> (route: Ghost<Seq<Homes<S>>>)
        requires
            old(self).well_formed(),
        ensures
            final(self).well_formed(),
            same_layers(old(self).slots@, final(self).slots@),
            if old(self).lifecycle.releases.held().len() == 0 {
                final(self).retiring@.len() == 0
            } else {
                same_retiring(old(self).retiring@, final(self).retiring@)
            },
            final(self).calls@ == old(self).calls@ + deliveries(
                old(self).slots@,
                old(self).generations@,
                old(self).retiring@,
                released.acquisitions@,
            ),
            routed(
                homes_of(*old(self)),
                route@,
                released.acquisitions@.len(),
                *final(self),
            ),
            forall|k: int|
                #![trigger route@[k]]
                0 <= k < released.acquisitions@.len() ==> {
                    ||| exists|i: int, asked: &mut S|
                        #![trigger lives_in(
                            route@[k].slots,
                            old(self).generations@,
                            released.acquisitions@[k].layer,
                            i,
                        ), call_ensures(
                            S::release_with_fence,
                            (asked, released.acquisitions@[k].buffer, released.acquisitions@[k].release_fence),
                            (),
                        )]
                        lives_in(
                            route@[k].slots,
                            old(self).generations@,
                            released.acquisitions@[k].layer,
                            i,
                        )
                            && *asked == route@[k].slots[i]->0.source && *final(asked)
                            == route@[k + 1].slots[i]->0.source && only_slot(
                                route@[k],
                                route@[k + 1],
                                i,
                            )
                            && call_ensures(
                            S::release_with_fence,
                            (asked, released.acquisitions@[k].buffer, released.acquisitions@[k].release_fence),
                            (),
                        )
                    ||| exists|j: int, asked: &mut S|
                        #![trigger kept_at(
                            route@[k],
                            old(self).generations@,
                            released.acquisitions@[k].layer,
                            j,
                        ), call_ensures(
                            S::release_with_fence,
                            (asked, released.acquisitions@[k].buffer, released.acquisitions@[k].release_fence),
                            (),
                        )]
                        kept_at(
                            route@[k],
                            old(self).generations@,
                            released.acquisitions@[k].layer,
                            j,
                        )
                            && *asked == route@[k].retiring[j].source && *final(asked)
                            == route@[k + 1].retiring[j].source && only_kept(
                                route@[k],
                                route@[k + 1],
                                j,
                            )
                            && call_ensures(
                            S::release_with_fence,
                            (asked, released.acquisitions@[k].buffer, released.acquisitions@[k].release_fence),
                            (),
                        )
                    ||| homeless(
                        route@[k],
                        old(self).generations@,
                        released.acquisitions@[k].layer,
                    ) && route@[k + 1] == route@[k]
                },
            *final(self) == (LayerScene {
                slots: final(self).slots,
                retiring: final(self).retiring,
                calls: final(self).calls,
                ..*old(self)
            }),
    {
        let ghost all = released.acquisitions@;
        let mut rest: Vec<Acquisition> = released.acquisitions;
        let ghost done: int = 0;
        let ghost mut route: Seq<Homes<S>> = seq![homes_of(*self)];
        while rest.len() > 0
            invariant
                self.well_formed(),
                route.len() == done + 1,
                route[0] == homes_of(*old(self)),
                route.last() == homes_of(*self),
                forall|k: int|
                    #![trigger route[k]]
                    0 <= k < done ==> {
                        ||| exists|i: int, asked: &mut S|
                            #![trigger lives_in(
                                route[k].slots,
                                old(self).generations@,
                                all[k].layer,
                                i,
                            ), call_ensures(
                                S::release_with_fence,
                                (asked, all[k].buffer, all[k].release_fence),
                                (),
                            )]
                            lives_in(route[k].slots, old(self).generations@, all[k].layer, i)
                                && *asked == route[k].slots[i]->0.source && *final(asked)
                                == route[k + 1].slots[i]->0.source && only_slot(
                                    route[k],
                                    route[k + 1],
                                    i,
                                )
                                && call_ensures(
                                S::release_with_fence,
                                (asked, all[k].buffer, all[k].release_fence),
                                (),
                            )
                        ||| exists|j: int, asked: &mut S|
                            #![trigger kept_at(
                                route[k],
                                old(self).generations@,
                                all[k].layer,
                                j,
                            ), call_ensures(
                                S::release_with_fence,
                                (asked, all[k].buffer, all[k].release_fence),
                                (),
                            )]
                            kept_at(route[k], old(self).generations@, all[k].layer, j)
                                && *asked == route[k].retiring[j].source && *final(asked)
                                == route[k + 1].retiring[j].source && only_kept(
                                    route[k],
                                    route[k + 1],
                                    j,
                                )
                                && call_ensures(
                                S::release_with_fence,
                                (asked, all[k].buffer, all[k].release_fence),
                                (),
                            )
                        ||| homeless(
                            route[k],
                            old(self).generations@,
                            all[k].layer,
                        ) && route[k + 1] == route[k]
                    },
                0 <= done <= all.len(),
                rest@ == all.skip(done),
                same_layers(old(self).slots@, self.slots@),
                same_retiring(old(self).retiring@, self.retiring@),
                self.calls@ == old(self).calls@ + deliveries(
                    old(self).slots@,
                    old(self).generations@,
                    old(self).retiring@,
                    all.take(done),
                ),
                *self == (LayerScene {
                    slots: self.slots,
                    retiring: self.retiring,
                    calls: self.calls,
                    ..*old(self)
                }),
            decreases rest@.len(),
        {
            let ghost before = self.slots@;
            let ghost before_retiring = self.retiring@;
            let acquisition = rest.remove(0);
            proof {
                assert(acquisition == all[done]);
                lemma_home_is_stable(
                    old(self).slots@,
                    self.slots@,
                    self.generations@,
                    old(self).retiring@,
                    self.retiring@,
                    acquisition.layer,
                );
            }
            let ghost route_before = route;
            self.deliver_one(acquisition);
            proof {
                route = route.push(homes_of(*self));
                assert forall|k: int|
                    #![trigger route[k]]
                    0 <= k < done + 1 implies {
                        ||| exists|i: int, asked: &mut S|
                            #![trigger lives_in(
                                route[k].slots,
                                old(self).generations@,
                                all[k].layer,
                                i,
                            ), call_ensures(
                                S::release_with_fence,
                                (asked, all[k].buffer, all[k].release_fence),
                                (),
                            )]
                            lives_in(route[k].slots, old(self).generations@, all[k].layer, i)
                                && *asked == route[k].slots[i]->0.source && *final(asked)
                                == route[k + 1].slots[i]->0.source && only_slot(
                                    route[k],
                                    route[k + 1],
                                    i,
                                )
                                && call_ensures(
                                S::release_with_fence,
                                (asked, all[k].buffer, all[k].release_fence),
                                (),
                            )
                        ||| exists|j: int, asked: &mut S|
                            #![trigger kept_at(
                                route[k],
                                old(self).generations@,
                                all[k].layer,
                                j,
                            ), call_ensures(
                                S::release_with_fence,
                                (asked, all[k].buffer, all[k].release_fence),
                                (),
                            )]
                            kept_at(route[k], old(self).generations@, all[k].layer, j)
                                && *asked == route[k].retiring[j].source && *final(asked)
                                == route[k + 1].retiring[j].source && only_kept(
                                    route[k],
                                    route[k + 1],
                                    j,
                                )
                                && call_ensures(
                                S::release_with_fence,
                                (asked, all[k].buffer, all[k].release_fence),
                                (),
                            )
                        ||| homeless(
                            route[k],
                            old(self).generations@,
                            all[k].layer,
                        ) && route[k + 1] == route[k]
                    } by {
                    if k < done {
                        assert(route_before[k] == route[k]);
                        assert(route_before[k + 1] == route[k + 1]);
                    } else {
                        assert(route[k] == route_before.last());
                        assert(all[k] == acquisition);
                        assert(route[k + 1] == homes_of(*self));
                    }
                }
                assert forall|i: int| 0 <= i < self.slots@.len() implies same_slot(
                    #[trigger] old(self).slots@[i],
                    self.slots@[i],
                ) by {
                    assert(same_slot(old(self).slots@[i], before[i]));
                    assert(same_slot(before[i], self.slots@[i]));
                }
                assert forall|i: int| 0 <= i < self.retiring@.len() implies (
                #[trigger] old(self).retiring@[i]).layer == self.retiring@[i].layer by {
                    assert(old(self).retiring@[i].layer == before_retiring[i].layer);
                    assert(before_retiring[i].layer == self.retiring@[i].layer);
                }
                assert(all.take(done + 1) =~= all.take(done).push(all[done]));
                assert(deliveries(
                    old(self).slots@,
                    old(self).generations@,
                    old(self).retiring@,
                    all.take(done + 1),
                ) =~= deliveries(
                    old(self).slots@,
                    old(self).generations@,
                    old(self).retiring@,
                    all.take(done),
                ).push(
                    delivery(
                        old(self).slots@,
                        old(self).generations@,
                        old(self).retiring@,
                        all[done],
                    ),
                ));
                assert(all.skip(done + 1) =~= rest@);
                done = done + 1;
            }
        }
        assert(all.take(done) =~= all);
        if self.lifecycle.releases.is_empty() {
            self.retiring.clear();
        }
        Ghost(route)
    }
}

// --- leaving -----------------------------------------------------------------

/// What the kernel holds, with one layer's identity struck out.
///
/// The planes stay listed: they are still lit, and forgetting that would leave
/// the departed layer's last framebuffer on screen.
pub open spec fn without_layer(committed: Seq<CommittedPlane>, layer: LayerId) -> Seq<
    CommittedPlane,
> {
    committed.map_values(
        |plane: CommittedPlane|
            if plane.layer_id == Some(layer) {
                CommittedPlane { layer_id: None, ..plane }
            } else {
                plane
            },
    )
}

fn strike_layer(committed: &mut Vec<CommittedPlane>, layer: LayerId)
    ensures
        final(committed)@ == without_layer(old(committed)@, layer),
{
    let ghost before = committed@;
    let mut i: usize = 0;
    while i < committed.len()
        invariant
            0 <= i <= before.len(),
            committed@.len() == before.len(),
            committed@ == without_layer(before.take(i as int), layer) + before.skip(i as int),
        decreases before.len() - i,
    {
        let mut plane: CommittedPlane = committed[i];
        assert(plane == before[i as int]);
        if plane.layer_id == Some(layer) {
            plane.layer_id = None;
        }
        committed.set(i, plane);
        assert(committed@ =~= without_layer(before.take(i + 1), layer) + before.skip(i + 1));
        i += 1;
    }
    assert(committed@ =~= without_layer(before, layer));
}

/// The next generation of a slot, wrapping past the last.
pub open spec fn next_generation(generation: u32) -> u32 {
    if generation == u32::MAX {
        0
    } else {
        (generation + 1) as u32
    }
}

impl<S: LayerBufferSource> LayerScene<S> {
    /// Remove a layer. A stale handle is a no-op.
    ///
    /// If buffers are still in flight the layer's source is kept until they
    /// come back. What the kernel shows is not touched: the next built frame
    /// switches the plane off.
    pub fn remove_layer(&mut self, handle: LayerHandle) -> (removed: bool)
        requires
            old(self).well_formed(),
        ensures
            final(self).well_formed(),
            removed == old(self).layer_spec(handle) is Some,
            !removed ==> *final(self) == *old(self),
            removed ==> {
                let slot = handle.id - 1;
                &&& final(self).slots@ == old(self).slots@.update(slot, None)
                &&& final(self).generations@ == old(self).generations@.update(
                    slot,
                    next_generation(handle.generation),
                )
                &&& final(self).free@ == old(self).free@.push(handle.id)
                &&& final(self).departed@ == old(self).departed@.push(handle.identity())
                &&& final(self).committed@ == without_layer(old(self).committed@, handle.identity())
                &&& if old(self).lifecycle.releases.held().len() == 0 {
                    final(self).retiring == old(self).retiring
                } else {
                    final(self).retiring@ == old(self).retiring@.push(
                        RetiringSource {
                            layer: handle.identity(),
                            source: old(self).slots@[slot]->0.source,
                        },
                    )
                }
                &&& *final(self) == (LayerScene {
                    slots: final(self).slots,
                    generations: final(self).generations,
                    free: final(self).free,
                    departed: final(self).departed,
                    committed: final(self).committed,
                    retiring: final(self).retiring,
                    ..*old(self)
                })
            },
    {
        let index: usize = match self.resolve(handle) {
            Some(index) => index,
            None => {
                return false;
            },
        };
        if self.slots[index].is_none() {
            return false;
        }
        let ghost before = *self;
        let mut taken: Option<SceneLayer<S>> = None;
        core::mem::swap(&mut taken, &mut self.slots[index]);

        let generation: u32 = self.generations[index];
        self.generations.set(index, if generation == u32::MAX { 0 } else { generation + 1 });
        self.free.push(handle.id);
        proof {
            assert forall|i: int| 0 <= i < before.free@.len() implies #[trigger] before.free@[i]
                != handle.id by {
                assert(before.slots@[before.free@[i] - 1] is None);
            }
            assert forall|i: int| 0 <= i < self.slots@.len() && (#[trigger] self.slots@[i])
                is None implies self.free@.contains((i + 1) as u32) by {
                if i == index {
                    assert(self.free@[before.free@.len() as int] == (i + 1) as u32);
                } else {
                    assert(before.slots@[i] is None);
                    let k = choose|k: int|
                        0 <= k < before.free@.len() && before.free@[k] == (i + 1) as u32;
                    assert(self.free@[k] == (i + 1) as u32);
                }
            }
        }

        let layer: LayerId = handle.layer_id();
        self.departed.push(layer);
        strike_layer(&mut self.committed, layer);
        if let Some(layer_state) = taken {
            if !self.lifecycle.releases.is_empty() {
                self.retiring.push(RetiringSource { layer, source: layer_state.source });
            }
        }
        true
    }
}

// --- laws --------------------------------------------------------------------

/// A slot's generation after it has been vacated `times` times.
pub open spec fn generation_after(generation: u32, times: nat) -> u32
    decreases times,
{
    if times == 0 {
        generation
    } else {
        next_generation(generation_after(generation, (times - 1) as nat))
    }
}

proof fn lemma_generation_after(generation: u32, times: nat)
    ensures
        generation_after(generation, times) == (generation + times) % 0x1_0000_0000,
    decreases times,
{
    if times > 0 {
        lemma_generation_after(generation, (times - 1) as nat);
    }
}

/// A handle to a removed layer addresses nothing, however often its slot is
/// reused, until the slot has been vacated a full turn of generations.
pub proof fn law_stale_handle_stays_stale<S: LayerBufferSource>(
    scene: LayerScene<S>,
    handle: LayerHandle,
    removals: nat,
)
    requires
        0 < removals < 0x1_0000_0000,
        0 < handle.id <= scene.generations@.len(),
        scene.generations@[handle.id - 1] == generation_after(handle.generation, removals),
    ensures
        scene.resolved(handle) is None,
        scene.layer_spec(handle) is None,
{
    lemma_generation_after(handle.generation, removals);
    let g = handle.generation as int;
    if g + removals < 0x1_0000_0000 {
        assert((g + removals) % 0x1_0000_0000 == g + removals);
    } else {
        assert((g + removals) % 0x1_0000_0000 == g + removals - 0x1_0000_0000);
    }
}

/// Removing a layer leaves every plane as lit as it was.
pub proof fn law_removal_leaves_planes_lit(
    committed: Seq<CommittedPlane>,
    layer: LayerId,
    plane_id: u32,
)
    ensures
        baseline_of(without_layer(committed, layer), plane_id) == baseline_of(committed, plane_id),
    decreases committed.len(),
{
    if committed.len() > 0 {
        assert(without_layer(committed, layer).skip(1) =~= without_layer(committed.skip(1), layer));
        law_removal_leaves_planes_lit(committed.skip(1), layer, plane_id);
    }
}

/// A buffer goes back to the layer that produced it, with its own fence, as long
/// as that layer is live or its source is kept; otherwise it is let go. Every
/// buffer is accounted for, in order.
pub proof fn law_each_buffer_goes_home<S>(
    slots: Seq<Option<SceneLayer<S>>>,
    generations: Seq<u32>,
    retiring: Seq<RetiringSource<S>>,
    acquisitions: Seq<Acquisition>,
    k: int,
)
    requires
        0 <= k < acquisitions.len(),
    ensures
        ({
            let calls = deliveries(slots, generations, retiring, acquisitions);
            let held = acquisitions[k];
            let live = exists|i: int|
                #![trigger slots[i]]
                0 <= i < slots.len() && slots[i] is Some && held.layer == LayerId(
                    ((i + 1) as u32 * 0x1_0000_0000 + generations[i]) as u64,
                );
            let kept = exists|j: int|
                0 <= j < retiring.len() && (#[trigger] retiring[j]).layer == held.layer;
            &&& calls.len() == acquisitions.len()
            &&& live || kept ==> calls[k] == (SourceCall::Returned {
                layer: held.layer,
                buffer: held.buffer,
                fence: held.release_fence,
            })
            &&& !live && !kept ==> calls[k] == (SourceCall::Orphaned {
                layer: held.layer,
                buffer: held.buffer,
            })
        }),
{
    let held = acquisitions[k];
    let live = exists|i: int|
        #![trigger slots[i]]
        0 <= i < slots.len() && slots[i] is Some && held.layer == LayerId(
            ((i + 1) as u32 * 0x1_0000_0000 + generations[i]) as u64,
        );
    if live {
        let i = choose|i: int|
            #![trigger slots[i]]
            0 <= i < slots.len() && slots[i] is Some && held.layer == LayerId(
                ((i + 1) as u32 * 0x1_0000_0000 + generations[i]) as u64,
            );
        assert(lives_in(slots, generations, held.layer, i));
    }
    if exists|i: int| lives_in(slots, generations, held.layer, i) {
        let i = choose|i: int| lives_in(slots, generations, held.layer, i);
        assert(slots[i] is Some);
    }
}

/// A handle resolves to the slot it was made for while the slot's generation is
/// the handle's, and to nothing otherwise.
pub proof fn law_handles_resolve_by_generation<S: LayerBufferSource>(
    scene: LayerScene<S>,
    handle: LayerHandle,
)
    ensures
        scene.resolved(handle) matches Some(slot) ==> slot == handle.id - 1 && 0 <= slot
            < scene.generations@.len() && scene.generations@[slot] == handle.generation,
        1 <= handle.id <= scene.generations@.len() && scene.generations@[handle.id - 1]
            == handle.generation ==> scene.resolved(handle) == Some(handle.id - 1),
        handle.id == 0 ==> scene.resolved(handle) is None,
        handle.id > scene.generations@.len() ==> scene.resolved(handle) is None,
{
}

/// The handles a scene lists are those of its live slots, each once and in slot
/// order.
pub proof fn law_every_live_slot_is_listed<S>(
    slots: Seq<Option<SceneLayer<S>>>,
    generations: Seq<u32>,
    i: int,
)
    requires
        slots.len() <= u32::MAX,
    ensures
        live_handles(slots, generations).len() == slots.filter(
            |slot: Option<SceneLayer<S>>| slot is Some,
        ).len(),
        0 <= i < slots.len() ==> (slots[i] is Some <==> exists|k: int|
            0 <= k < live_handles(slots, generations).len() && (#[trigger] live_handles(
                slots,
                generations,
            )[k]).id == i + 1 && live_handles(slots, generations)[k].generation == generations[i]),
        forall|k: int|
            0 <= k < live_handles(slots, generations).len() ==> 1 <= (#[trigger] live_handles(
                slots,
                generations,
            )[k]).id <= slots.len(),
    decreases slots.len(),
{
    reveal(Seq::filter);
    if slots.len() > 0 {
        let rest = slots.drop_last();
        let before = live_handles(rest, generations);
        let after = live_handles(slots, generations);
        law_every_live_slot_is_listed(rest, generations, i);
        assert forall|k: int| 0 <= k < after.len() implies 1 <= (#[trigger] after[k]).id
            <= slots.len() by {
            if k < before.len() {
                assert(after[k] == before[k]);
            }
        }
        if 0 <= i < rest.len() {
            assert(rest[i] == slots[i]);
            if slots[i] is Some {
                let k = choose|k: int|
                    0 <= k < before.len() && (#[trigger] before[k]).id == i + 1
                        && before[k].generation == generations[i];
                assert(after[k] == before[k]);
            } else {
                assert forall|k: int| 0 <= k < after.len() implies !((#[trigger] after[k]).id == i
                    + 1 && after[k].generation == generations[i]) by {
                    if k < before.len() {
                        assert(after[k] == before[k]);
                    }
                }
            }
        } else if i == rest.len() {
            if slots[i] is Some {
                assert(after[before.len() as int].id == i + 1);
            } else {
                assert forall|k: int| 0 <= k < after.len() implies (#[trigger] after[k]).id != i
                    + 1 by {
                    assert(after[k] == before[k]);
                    assert(before[k].id <= rest.len());
                }
            }
        }
    }
}

/// Removing a layer forgets it on every plane it is recorded on and changes no
/// plane's properties.
pub proof fn law_a_struck_layer_is_forgotten(
    committed: Seq<CommittedPlane>,
    layer: LayerId,
    k: int,
)
    requires
        0 <= k < committed.len(),
    ensures
        without_layer(committed, layer).len() == committed.len(),
        without_layer(committed, layer)[k].plane_id == committed[k].plane_id,
        without_layer(committed, layer)[k].layer == committed[k].layer,
        without_layer(committed, layer)[k].layer_id == if committed[k].layer_id == Some(layer) {
            None
        } else {
            committed[k].layer_id
        },
{
}

/// A slot's generation moves on by one each time, and starts over past the last.
pub proof fn law_generations_move_on(generation: u32)
    ensures
        next_generation(generation) != generation,
        generation < u32::MAX ==> next_generation(generation) == generation + 1,
        generation == u32::MAX ==> next_generation(generation) == 0,
{
}

/// A layer joins with its own source, nothing said of its display, and hints
/// that ask for nothing.
pub proof fn law_a_fresh_layer_asks_for_nothing<S>(source: S)
    ensures
        fresh_layer(source).source == source,
        fresh_layer(source).display == unset_display(),
        fresh_layer(source).content_type is Generic,
        fresh_layer(source).update_hint_hz == 0,
        fresh_layer(source).app_priority == 0,
        !fresh_layer(source).hints_dirty,
{
}

/// Where only one layer's source was called, every other layer is untouched, and
/// so is everything but the source of that one.
pub proof fn law_a_call_moves_one_source<S>(before: Homes<S>, after: Homes<S>, i: int, j: int)
    requires
        only_slot(before, after, i),
        0 <= i < before.slots.len(),
        0 <= j < before.slots.len(),
    ensures
        after.slots.len() == before.slots.len(),
        after.retiring == before.retiring,
        j != i ==> after.slots[j] == before.slots[j],
        after.slots[i] is Some <==> before.slots[i] is Some,
        before.slots[i] is Some ==> {
            &&& after.slots[i]->0.display == before.slots[i]->0.display
            &&& after.slots[i]->0.content_type == before.slots[i]->0.content_type
            &&& after.slots[i]->0.update_hint_hz == before.slots[i]->0.update_hint_hz
            &&& after.slots[i]->0.app_priority == before.slots[i]->0.app_priority
            &&& after.slots[i]->0.hints_dirty == before.slots[i]->0.hints_dirty
        },
{
}

/// Where only a kept source was called, no live layer is touched, and every kept
/// source still stands for its layer.
pub proof fn law_a_call_moves_one_kept_source<S>(before: Homes<S>, after: Homes<S>, j: int, k: int)
    requires
        only_kept(before, after, j),
        0 <= j < before.retiring.len(),
        0 <= k < before.retiring.len(),
    ensures
        after.slots == before.slots,
        after.retiring.len() == before.retiring.len(),
        after.retiring[k].layer == before.retiring[k].layer,
        k != j ==> after.retiring[k] == before.retiring[k],
{
}

/// A buffer goes to its own layer while that is live, and otherwise to the first
/// source kept for it; where there is neither, it has no home.
pub proof fn law_a_live_layer_comes_before_a_kept_one<S>(
    homes: Homes<S>,
    generations: Seq<u32>,
    layer: LayerId,
    i: int,
    j: int,
)
    ensures
        lives_in(homes.slots, generations, layer, i) <==> 0 <= i < homes.slots.len()
            && homes.slots[i] is Some && layer.0 == ((i + 1) as u32 * 0x1_0000_0000
            + generations[i]) as u64,
        kept_at(homes, generations, layer, j) <==> 0 <= j < homes.retiring.len()
            && homes.retiring[j].layer == layer && (forall|k: int|
            0 <= k < j ==> (#[trigger] homes.retiring[k]).layer != layer) && (forall|k: int| !
        #[trigger] lives_in(homes.slots, generations, layer, k)),
        homeless(homes, generations, layer) <==> (forall|k: int|
            0 <= k < homes.retiring.len() ==> (#[trigger] homes.retiring[k]).layer != layer) && (
        forall|k: int| !#[trigger] lives_in(homes.slots, generations, layer, k)),
{
}

/// Two tables hold the same layers where slot for slot both are vacant, or differ
/// in nothing but the source's own state.
pub proof fn law_the_same_layers_differ_only_in_their_sources<S>(
    a: Seq<Option<SceneLayer<S>>>,
    b: Seq<Option<SceneLayer<S>>>,
    i: int,
)
    requires
        same_layers(a, b),
        0 <= i < a.len(),
    ensures
        a.len() == b.len(),
        a[i] is Some <==> b[i] is Some,
        a[i] is Some ==> {
            &&& a[i]->0.display == b[i]->0.display
            &&& a[i]->0.content_type == b[i]->0.content_type
            &&& a[i]->0.update_hint_hz == b[i]->0.update_hint_hz
            &&& a[i]->0.app_priority == b[i]->0.app_priority
            &&& a[i]->0.hints_dirty == b[i]->0.hints_dirty
        },
{
    assert(same_slot(a[i], b[i]));
}

/// The same sources are kept where the lists name the same layers, in order.
pub proof fn law_the_same_sources_are_kept<S>(
    a: Seq<RetiringSource<S>>,
    b: Seq<RetiringSource<S>>,
    i: int,
)
    requires
        same_retiring(a, b),
    ensures
        a.len() == b.len(),
        0 <= i < a.len() ==> a[i].layer == b[i].layer,
{
}

/// Handing buffers back is one step for each, from the sources as they were to
/// the scene as it is left.
pub proof fn law_every_buffer_is_one_step<S>(
    first: Homes<S>,
    route: Seq<Homes<S>>,
    buffers: nat,
    after: LayerScene<S>,
)
    requires
        routed(first, route, buffers, after),
    ensures
        route.len() == buffers + 1,
        route[0] == first,
        route[buffers as int].slots == after.slots@,
        after.lifecycle.releases.held().len() > 0 ==> route[buffers as int].retiring
            == after.retiring@,
{
}

} // verus!
