//! Drafting a frame: a buffer from every source, and every layer lowered.

use vstd::prelude::*;
use crate::compose::canvas_id;
use crate::frame::AcquireTally;
use crate::lower::{law_lowering_shows_the_layer_as_asked, lower_layer, lowered, LoweringInput};
use crate::planes::{signed_position, Layer, LayerId};
use crate::release::{Acquisition, ReleaseReason, Released};
use crate::scene::{
    deliveries, delivery, handle_at, homeless, homes_of, kept_at, law_identities_are_distinct,
    law_the_same_layers_differ_only_in_their_sources, lemma_home_is_stable, lives_in, only_kept,
    only_slot, routed, same_layer, same_layers, same_retiring, same_slot, without_layer,
    CommittedPlane, Homes, LayerHandle, LayerScene, RetiringSource, SceneError, SceneLayer,
    SourceCall,
};
use crate::source::{AcquiredBuffer, BindingModel, LayerBufferSource, SourceError, SourceFormat};

verus! {

/// One layer, lowered for this frame.
#[derive(Debug, Clone, Copy, PartialEq, Eq, Structural)]
pub struct LoweredLayer {
    /// The layer.
    pub id: LayerId,
    /// Its properties.
    pub layer: Layer,
    /// Whether its source had no frame and it goes on showing its last one.
    pub held: bool,
}

/// A frame whose buffers are acquired and whose layers are lowered, waiting to
/// be placed on planes.
#[derive(Debug)]
pub struct FrameDraft {
    /// The buffers acquired for it.
    pub acquisitions: Vec<Acquisition>,
    /// The layers to place, in slot order.
    pub lowered: Vec<LoweredLayer>,
    /// How many layers contributed and how many had nothing.
    pub tally: AcquireTally,
    /// Layers that left since the last draft; whoever places layers forgets
    /// them.
    pub departed: Vec<LayerId>,
    /// Whether whoever places layers must start over rather than reuse the last
    /// placement.
    pub reset_placement: bool,
}

/// How many lowered layers carry a buffer of this frame.
pub open spec fn fresh_count(layers: Seq<LoweredLayer>) -> int
    decreases layers.len(),
{
    if layers.len() == 0 {
        0
    } else {
        fresh_count(layers.drop_last()) + if layers.last().held {
            0int
        } else {
            1
        }
    }
}

impl FrameDraft {
    /// The tally agrees with the layers: every buffer acquired is for one layer
    /// to place.
    pub open spec fn well_formed(&self) -> bool {
        &&& fresh_count(self.lowered@) == self.tally.acquired
        &&& self.acquisitions@.len() == self.tally.acquired
        &&& self.tally.acquired + self.tally.skipped_no_frame <= usize::MAX
    }
}

/// What the kernel holds for a layer: its first listed plane.
pub open spec fn shown(committed: Seq<CommittedPlane>, layer: LayerId) -> Option<Layer>
    decreases committed.len(),
{
    if committed.len() == 0 {
        None
    } else if committed[0].layer_id == Some(layer) {
        Some(committed[0].layer)
    } else {
        shown(committed.skip(1), layer)
    }
}

/// A live layer lowered around an acquired framebuffer.
pub open spec fn lowered_live<S>(
    layer: SceneLayer<S>,
    crtc_id: u32,
    fb_id: u32,
    format: SourceFormat,
    binding: BindingModel,
) -> Layer {
    Layer {
        content_type: layer.content_type,
        update_hint_hz: layer.update_hint_hz,
        app_priority: layer.app_priority,
        ..lowered(
            LoweringInput {
                display: layer.display,
                format,
                binding,
                fb_id,
                crtc_id,
                default_zpos: None,
            },
            Layer::empty(),
        )
    }
}

/// Whether a call is an acquire of this layer that did not fail.
pub open spec fn acquires(call: SourceCall, layer: LayerId) -> bool {
    match call {
        SourceCall::Acquired { layer: l, .. } => l == layer,
        SourceCall::Starved { layer: l } => l == layer,
        _ => false,
    }
}

/// How many layers stand in the slots before one.
pub open spec fn live_before<S>(slots: Seq<Option<SceneLayer<S>>>, slot: int) -> int
    decreases slot,
{
    if slot <= 0 {
        0
    } else {
        live_before(slots, slot - 1) + if slots[slot - 1] is Some {
            1int
        } else {
            0
        }
    }
}

/// Whether an acquire is listed as what the source answered.
pub open spec fn answers(call: SourceCall, taken: Result<AcquiredBuffer, SourceError>) -> bool {
    match call {
        SourceCall::Acquired { buffer, .. } => taken == Ok::<AcquiredBuffer, SourceError>(buffer),
        SourceCall::Starved { .. } => taken == Err::<AcquiredBuffer, SourceError>(
            SourceError::WouldBlock,
        ),
        SourceCall::Failed { error, .. } => taken == Err::<AcquiredBuffer, SourceError>(error),
        _ => false,
    }
}

/// Whether the format and binding listed with an acquired buffer are what the
/// source states.
pub open spec fn shape_stated<S: LayerBufferSource>(source: S, call: SourceCall) -> bool {
    match call {
        SourceCall::Acquired { format, binding, .. } => call_ensures(
            S::format,
            (&source,),
            format,
        ) && call_ensures(S::binding_model, (&source,), binding),
        _ => true,
    }
}

proof fn lemma_pass_length<S>(
    slots: Seq<Option<SceneLayer<S>>>,
    upto: int,
    generations: Seq<u32>,
    calls: Seq<SourceCall>,
)
    requires
        0 <= upto <= slots.len(),
        acquire_pass(slots.take(upto), generations, calls),
    ensures
        calls.len() == live_before(slots, upto),
    decreases upto,
{
    if upto > 0 {
        let head = slots.take(upto);
        assert(head.drop_last() =~= slots.take(upto - 1));
        if slots[upto - 1] is None {
            lemma_pass_length(slots, upto - 1, generations, calls);
        } else {
            lemma_pass_length(slots, upto - 1, generations, calls.drop_last());
        }
    }
}

proof fn lemma_live_before_grows<S>(slots: Seq<Option<SceneLayer<S>>>, low: int, high: int)
    requires
        0 <= low < high,
        slots[low] is Some,
    ensures
        0 <= live_before(slots, low) < live_before(slots, high),
    decreases high,
{
    if low + 1 < high {
        lemma_live_before_grows(slots, low, high - 1);
    } else {
        lemma_live_before_is_a_count(slots, low);
    }
}

proof fn lemma_live_before_is_a_count<S>(slots: Seq<Option<SceneLayer<S>>>, slot: int)
    ensures
        0 <= live_before(slots, slot),
    decreases slot,
{
    if slot > 0 {
        lemma_live_before_is_a_count(slots, slot - 1);
    }
}

/// Whether `calls` is one acquire per layer of the table, in slot order, none
/// of which failed.
pub open spec fn acquire_pass<S>(
    slots: Seq<Option<SceneLayer<S>>>,
    generations: Seq<u32>,
    calls: Seq<SourceCall>,
) -> bool
    decreases slots.len(),
{
    if slots.len() == 0 {
        calls.len() == 0
    } else if slots.last() is None {
        acquire_pass(slots.drop_last(), generations, calls)
    } else {
        calls.len() > 0 && acquires(
            calls.last(),
            handle_at(generations, slots.len() - 1).identity(),
        ) && acquire_pass(slots.drop_last(), generations, calls.drop_last())
    }
}

/// The buffers a run of calls acquired, in order.
pub open spec fn buffers_taken(calls: Seq<SourceCall>) -> Seq<Acquisition>
    decreases calls.len(),
{
    if calls.len() == 0 {
        Seq::empty()
    } else {
        let before = buffers_taken(calls.drop_last());
        match calls.last() {
            SourceCall::Acquired { layer, buffer, .. } => before.push(
                Acquisition { layer, buffer, release_fence: None },
            ),
            _ => before,
        }
    }
}

/// How many of a run of calls found a source with no frame.
pub open spec fn starved_count(calls: Seq<SourceCall>) -> int
    decreases calls.len(),
{
    if calls.len() == 0 {
        0
    } else {
        starved_count(calls.drop_last()) + if calls.last() is Starved {
            1int
        } else {
            0
        }
    }
}

/// The layers to place after an acquire pass: each layer that contributed a
/// buffer, lowered around it, and each starved layer the kernel is showing,
/// exactly as it is shown.
pub open spec fn lowered_pass<S>(
    slots: Seq<Option<SceneLayer<S>>>,
    generations: Seq<u32>,
    committed: Seq<CommittedPlane>,
    crtc_id: u32,
    calls: Seq<SourceCall>,
) -> Seq<LoweredLayer>
    decreases slots.len(),
{
    if slots.len() == 0 {
        Seq::empty()
    } else if slots.last() is None {
        lowered_pass(slots.drop_last(), generations, committed, crtc_id, calls)
    } else {
        let before = lowered_pass(
            slots.drop_last(),
            generations,
            committed,
            crtc_id,
            calls.drop_last(),
        );
        let id = handle_at(generations, slots.len() - 1).identity();
        match calls.last() {
            SourceCall::Acquired { buffer, format, binding, .. } => before.push(
                LoweredLayer {
                    id,
                    layer: lowered_live(
                        slots.last()->0,
                        crtc_id,
                        buffer.fb_id,
                        format,
                        binding,
                    ),
                    held: false,
                },
            ),
            _ => match shown(committed, id) {
                Some(layer) => before.push(LoweredLayer { id, layer, held: true }),
                None => before,
            },
        }
    }
}

/// Whether some layer's hints changed since the last built frame.
pub open spec fn some_hint_dirty<S>(slots: Seq<Option<SceneLayer<S>>>) -> bool {
    exists|i: int|
        0 <= i < slots.len() && (#[trigger] slots[i]) is Some && slots[i]->0.hints_dirty
}

/// Whether `calls` is an acquire pass that a failure cut short: the layers
/// before slot `at` in order, the failure itself, and then every buffer the
/// pass had taken, handed back.
pub open spec fn aborted_pass<S>(
    slots: Seq<Option<SceneLayer<S>>>,
    generations: Seq<u32>,
    retiring: Seq<RetiringSource<S>>,
    calls: Seq<SourceCall>,
    error: SourceError,
    at: int,
    made: Seq<SourceCall>,
) -> bool {
    &&& 0 <= at < slots.len()
    &&& slots[at] is Some
    &&& acquire_pass(slots.take(at), generations, made)
    &&& calls == made.push(
        SourceCall::Failed { layer: handle_at(generations, at).identity(), error },
    ) + deliveries(slots, generations, retiring, buffers_taken(made))
}

/// The acquires of a pass that a failure cut short, the failure last.
pub open spec fn tried<S>(
    before: LayerScene<S>,
    error: SceneError,
    at: int,
    made: Seq<SourceCall>,
) -> Seq<SourceCall> {
    made.push(
        SourceCall::Failed {
            layer: handle_at(before.generations@, at).identity(),
            error: error->Source_0,
        },
    )
}

/// Whether a draft was cut short at a slot, leaving the sources as `asked` says
/// before anything went back: none after that slot was asked.
pub open spec fn abort_at<S>(
    before: LayerScene<S>,
    after: LayerScene<S>,
    error: SceneError,
    at: int,
    made: Seq<SourceCall>,
    asked: Seq<Option<SceneLayer<S>>>,
) -> bool {
    &&& aborted_pass(
        before.slots@,
        before.generations@,
        before.retiring@,
        after.calls@.skip(before.calls@.len() as int),
        error->Source_0,
        at,
        made,
    )
    &&& same_layers(before.slots@, asked)
    &&& forall|j: int| at < j < asked.len() ==> #[trigger] asked[j] == before.slots@[j]
}

/// What one pass over the layers came to.
struct AcquirePass {
    acquisitions: Vec<Acquisition>,
    lowered: Vec<LoweredLayer>,
    tally: AcquireTally,
    /// The failure that cut the pass short.
    failed: Option<SourceError>,
    /// How many slots were passed without a failure.
    reached: usize,
    made: Ghost<Seq<SourceCall>>,
}

fn find_shown(committed: &Vec<CommittedPlane>, layer: LayerId) -> (found: Option<Layer>)
    ensures
        found == shown(committed@, layer),
{
    let mut i: usize = 0;
    assert(committed@.skip(0) =~= committed@);
    while i < committed.len()
        invariant
            0 <= i <= committed@.len(),
            shown(committed@, layer) == shown(committed@.skip(i as int), layer),
        decreases committed@.len() - i,
    {
        if committed[i].layer_id == Some(layer) {
            return Some(committed[i].layer);
        }
        assert(committed@.skip(i as int).skip(1) =~= committed@.skip(i + 1));
        i += 1;
    }
    None
}

/// What a source gave, read from what was made of it.
pub open spec fn given(
    outcome: Result<(AcquiredBuffer, Layer, Ghost<(SourceFormat, BindingModel)>), SourceError>,
) -> Result<AcquiredBuffer, SourceError> {
    match outcome {
        Ok((buffer, _, _)) => Ok(buffer),
        Err(error) => Err(error),
    }
}

impl<S: LayerBufferSource> SceneLayer<S> {
    /// Acquire from the source and lower the layer around what it gave.
    ///
    /// What the source gives decides: its buffer, under the format and binding it
    /// then states, or its error.
    fn acquire_and_lower(&mut self, crtc_id: u32) -> (outcome: Result<
        (AcquiredBuffer, Layer, Ghost<(SourceFormat, BindingModel)>),
        SourceError,
    >)
        ensures
            same_layer(*old(self), *final(self)),
            exists|asked: &mut S|
                *asked == old(self).source && *final(asked) == final(self).source
                    && #[trigger] call_ensures(S::acquire, (asked,), given(outcome)),
            outcome matches Ok((buffer, layer, shape)) ==> {
                &&& call_ensures(S::format, (&final(self).source,), shape@.0)
                &&& call_ensures(S::binding_model, (&final(self).source,), shape@.1)
                &&& layer == lowered_live(
                    *old(self),
                    crtc_id,
                    buffer.fb_id,
                    shape@.0,
                    shape@.1,
                )
            },
    {
        let buffer = match self.source.acquire() {
            Ok(buffer) => buffer,
            Err(error) => {
                return Err(error);
            },
        };
        let format: SourceFormat = self.source.format();
        let binding: BindingModel = self.source.binding_model();
        let mut layer = Layer::new();
        lower_layer(
            &LoweringInput {
                display: self.display,
                format,
                binding,
                fb_id: buffer.fb_id,
                crtc_id,
                default_zpos: None,
            },
            &mut layer,
        );
        layer.content_type = self.content_type;
        layer.update_hint_hz = self.update_hint_hz;
        layer.app_priority = self.app_priority;
        Ok((buffer, layer, Ghost((format, binding))))
    }
}

impl<S: LayerBufferSource> LayerScene<S> {
    /// Whether some layer's hints changed since the last built frame.
    fn any_hint_dirty(&self) -> (dirty: bool)
        ensures
            dirty == some_hint_dirty(self.slots@),
    {
        let mut i: usize = 0;
        while i < self.slots.len()
            invariant
                0 <= i <= self.slots@.len(),
                forall|j: int|
                    0 <= j < i && (#[trigger] self.slots@[j]) is Some
                        ==> !self.slots@[j]->0.hints_dirty,
            decreases self.slots@.len() - i,
        {
            if let Some(layer) = &self.slots[i] {
                if layer.hints_dirty() {
                    assert(self.slots@[i as int] is Some);
                    return true;
                }
            }
            i += 1;
        }
        false
    }

    /// Acquire from every layer, in slot order, and lower it.
    ///
    /// A source with no frame is **skipped and counted**, never a failure, and a
    /// layer the kernel is showing goes on being shown. A source that fails
    /// aborts the draft, and every buffer it had taken goes straight back.
    #[verifier::rlimit(80)]
    pub fn draft_frame(&mut self) -> (draft: Result<FrameDraft, SceneError>)
        requires
            old(self).well_formed(),
        ensures
            final(self).well_formed(),
            same_layers(old(self).slots@, final(self).slots@),
            match draft {
                Err(SceneError::Suspended) => old(self).lifecycle.suspended && *final(self) == *old(
                    self,
                ),
                Err(SceneError::Source(error)) => {
                    &&& !old(self).lifecycle.suspended
                    &&& error != SourceError::WouldBlock
                    &&& exists|at: int, made: Seq<SourceCall>| #[trigger]
                        aborted_pass(
                            old(self).slots@,
                            old(self).generations@,
                            old(self).retiring@,
                            final(self).calls@.skip(old(self).calls@.len() as int),
                            error,
                            at,
                            made,
                        )
                    &&& final(self).calls@.take(old(self).calls@.len() as int) == old(self).calls@
                    &&& if old(self).lifecycle.releases.held().len() == 0 {
                        final(self).retiring@.len() == 0
                    } else {
                        same_retiring(old(self).retiring@, final(self).retiring@)
                    }
                    &&& *final(self) == (LayerScene {
                        slots: final(self).slots,
                        retiring: final(self).retiring,
                        calls: final(self).calls,
                        ..*old(self)
                    })
                },
                Err(SceneError::NotMaster) => false,
                Ok(draft) => {
                    let made = final(self).calls@.skip(old(self).calls@.len() as int);
                    &&& !old(self).lifecycle.suspended
                    &&& draft.well_formed()
                    &&& final(self).calls@ == old(self).calls@ + made
                    &&& acquire_pass(old(self).slots@, old(self).generations@, made)
                    &&& draft.acquisitions@ == buffers_taken(made)
                    &&& draft.lowered@ == lowered_pass(
                        old(self).slots@,
                        old(self).generations@,
                        old(self).committed@,
                        old(self).crtc_id,
                        made,
                    )
                    &&& draft.tally.acquired == buffers_taken(made).len()
                    &&& draft.tally.skipped_no_frame == starved_count(made)
                    &&& draft.departed == old(self).departed
                    &&& final(self).departed@.len() == 0
                    &&& draft.reset_placement == (old(self).placement_stale || some_hint_dirty(
                        old(self).slots@,
                    ))
                    &&& !final(self).placement_stale
                    &&& *final(self) == (LayerScene {
                        slots: final(self).slots,
                        departed: final(self).departed,
                        placement_stale: false,
                        calls: final(self).calls,
                        ..*old(self)
                    })
                },
            },
            draft is Ok ==> (forall|j: int|
                #![trigger final(self).slots@[j]]
                0 <= j < old(self).slots@.len() && old(self).slots@[j] is Some ==> (exists|
                    source: &mut S,
                    taken: Result<AcquiredBuffer, SourceError>,
                |
                    *source == old(self).slots@[j]->0.source && *final(source) == final(self).slots@[j]->0.source
                        && #[trigger] call_ensures(S::acquire, (source,), taken) && answers(
                        final(self).calls@.skip(old(self).calls@.len() as int)[live_before(
                            old(self).slots@,
                            j,
                        )],
                        taken,
                    )) && shape_stated(
                        final(self).slots@[j]->0.source,
                        final(self).calls@.skip(old(self).calls@.len() as int)[live_before(
                            old(self).slots@,
                            j,
                        )],
                    )),
            draft matches Err(SceneError::Source(_)) ==> exists|
                at: int,
                made: Seq<SourceCall>,
                asked: Seq<Option<SceneLayer<S>>>,
                route: Seq<Homes<S>>,
            |
                #![trigger abort_at(
                    *old(self),
                    *final(self),
                    draft->Err_0,
                    at,
                    made,
                    asked,
                ), routed(
                    Homes { slots: asked, retiring: old(self).retiring@ },
                    route,
                    buffers_taken(made).len(),
                    *final(self),
                )]
                abort_at(*old(self), *final(self), draft->Err_0, at, made, asked) && routed(
                    Homes { slots: asked, retiring: old(self).retiring@ },
                    route,
                    buffers_taken(made).len(),
                    *final(self),
                ) && (forall|j: int|
                    #![trigger asked[j]]
                    0 <= j < at + 1 && old(self).slots@[j] is Some ==> (exists|
                        source: &mut S,
                        taken: Result<AcquiredBuffer, SourceError>,
                    |
                        *source == old(self).slots@[j]->0.source && *final(source) == asked[j]->0.source
                            && #[trigger] call_ensures(S::acquire, (source,), taken) && answers(
                            tried(
                                *old(self),
                                draft->Err_0,
                                at,
                                made,
                            )[live_before(old(self).slots@, j)],
                            taken,
                        )) && shape_stated(asked[j]->0.source, tried(*old(self), draft->Err_0, at, made)[live_before(old(self).slots@, j)])) && (forall|k: int|
                    #![trigger route[k]]
                    0 <= k < buffers_taken(made).len() ==> {
                        ||| exists|i: int, asked: &mut S|
                            #![trigger lives_in(
                                route[k].slots,
                                old(self).generations@,
                                buffers_taken(made)[k].layer,
                                i,
                            ), call_ensures(
                                S::release_with_fence,
                                (asked, buffers_taken(made)[k].buffer, buffers_taken(made)[k].release_fence),
                                (),
                            )]
                            lives_in(
                                route[k].slots,
                                old(self).generations@,
                                buffers_taken(made)[k].layer,
                                i,
                            )
                                && *asked == route[k].slots[i]->0.source && *final(asked)
                                == route[k + 1].slots[i]->0.source && only_slot(
                                    route[k],
                                    route[k + 1],
                                    i,
                                )
                                && call_ensures(
                                S::release_with_fence,
                                (asked, buffers_taken(made)[k].buffer, buffers_taken(made)[k].release_fence),
                                (),
                            )
                        ||| exists|j: int, asked: &mut S|
                            #![trigger kept_at(
                                route[k],
                                old(self).generations@,
                                buffers_taken(made)[k].layer,
                                j,
                            ), call_ensures(
                                S::release_with_fence,
                                (asked, buffers_taken(made)[k].buffer, buffers_taken(made)[k].release_fence),
                                (),
                            )]
                            kept_at(
                                route[k],
                                old(self).generations@,
                                buffers_taken(made)[k].layer,
                                j,
                            )
                                && *asked == route[k].retiring[j].source && *final(asked)
                                == route[k + 1].retiring[j].source && only_kept(
                                    route[k],
                                    route[k + 1],
                                    j,
                                )
                                && call_ensures(
                                S::release_with_fence,
                                (asked, buffers_taken(made)[k].buffer, buffers_taken(made)[k].release_fence),
                                (),
                            )
                        ||| homeless(
                            route[k],
                            old(self).generations@,
                            buffers_taken(made)[k].layer,
                        ) && route[k + 1] == route[k]
                    }),
    {
        if self.lifecycle.is_suspended() {
            proof {
                lemma_same_layers_reflexive(self.slots@);
            }
            return Err(SceneError::Suspended);
        }
        let reset_placement: bool = self.placement_stale || self.any_hint_dirty();
        let ghost start = *self;
        let pass = self.acquire_slots();
        let ghost made = pass.made@;
        if let Some(error) = pass.failed {
            let ghost at_failure = *self;
            let ghost failed = SourceCall::Failed {
                layer: handle_at(start.generations@, pass.reached as int).identity(),
                error,
            };
            let route = self.release_all(pass.acquisitions);
            proof {
                lemma_deliveries_are_stable(
                    start.slots@,
                    at_failure.slots@,
                    start.generations@,
                    start.retiring@,
                    at_failure.retiring@,
                    buffers_taken(made),
                );
                let tail = made.push(failed) + deliveries(
                    start.slots@,
                    start.generations@,
                    start.retiring@,
                    buffers_taken(made),
                );
                assert(self.calls@ =~= start.calls@ + tail);
                assert(self.calls@.skip(start.calls@.len() as int) =~= tail);
                assert(self.calls@.take(start.calls@.len() as int) =~= start.calls@);
                assert(aborted_pass(
                    start.slots@,
                    start.generations@,
                    start.retiring@,
                    tail,
                    error,
                    pass.reached as int,
                    made,
                ));
                lemma_same_layers_transitive(start.slots@, at_failure.slots@, self.slots@);
                assert(abort_at(
                    start,
                    *self,
                    SceneError::Source(error),
                    pass.reached as int,
                    made,
                    at_failure.slots@,
                ));
                assert(routed(
                    Homes { slots: at_failure.slots@, retiring: start.retiring@ },
                    route@,
                    buffers_taken(made).len(),
                    *self,
                ));
            }
            return Err(SceneError::Source(error));
        }
        proof {
            assert(start.slots@.take(pass.reached as int) =~= start.slots@);
            assert(self.calls@.skip(start.calls@.len() as int) =~= made);
            lemma_fresh_count(
                start.slots@,
                start.generations@,
                start.committed@,
                start.crtc_id,
                made,
            );
        }
        let mut departed: Vec<LayerId> = Vec::new();
        core::mem::swap(&mut departed, &mut self.departed);
        self.placement_stale = false;
        Ok(
            FrameDraft {
                acquisitions: pass.acquisitions,
                lowered: pass.lowered,
                tally: pass.tally,
                departed,
                reset_placement,
            },
        )
    }

    /// Acquire from the layers in slot order, up to the first that fails.
    fn acquire_slots(&mut self) -> (pass: AcquirePass)
        requires
            old(self).well_formed(),
        ensures
            final(self).well_formed(),
            same_layers(old(self).slots@, final(self).slots@),
            pass.reached <= old(self).slots@.len(),
            acquire_pass(
                old(self).slots@.take(pass.reached as int),
                old(self).generations@,
                pass.made@,
            ),
            pass.acquisitions@ == buffers_taken(pass.made@),
            pass.lowered@ == lowered_pass(
                old(self).slots@.take(pass.reached as int),
                old(self).generations@,
                old(self).committed@,
                old(self).crtc_id,
                pass.made@,
            ),
            pass.tally.acquired == buffers_taken(pass.made@).len(),
            pass.tally.skipped_no_frame == starved_count(pass.made@),
            pass.tally.acquired + pass.tally.skipped_no_frame <= pass.reached,
            match pass.failed {
                None => {
                    &&& pass.reached == old(self).slots@.len()
                    &&& final(self).calls@ == old(self).calls@ + pass.made@
                },
                Some(error) => {
                    &&& pass.reached < old(self).slots@.len()
                    &&& old(self).slots@[pass.reached as int] is Some
                    &&& error != SourceError::WouldBlock
                    &&& final(self).calls@ == old(self).calls@ + tried(
                        *old(self),
                        SceneError::Source(error),
                        pass.reached as int,
                        pass.made@,
                    )
                    &&& forall|j: int|
                        pass.reached < j < old(self).slots@.len() ==> #[trigger] final(self).slots@[j]
                            == old(self).slots@[j]
                },
            },
            pass.failed is None ==> (forall|j: int|
                #![trigger final(self).slots@[j]]
                0 <= j < old(self).slots@.len() && old(self).slots@[j] is Some ==> (exists|
                    source: &mut S,
                    taken: Result<AcquiredBuffer, SourceError>,
                |
                    *source == old(self).slots@[j]->0.source && *final(source) == final(self).slots@[j]->0.source
                        && #[trigger] call_ensures(S::acquire, (source,), taken) && answers(
                        pass.made@[live_before(old(self).slots@, j)],
                        taken,
                    )) && shape_stated(
                        final(self).slots@[j]->0.source,
                        pass.made@[live_before(old(self).slots@, j)],
                    )),
            pass.failed matches Some(error) ==> (forall|j: int|
                #![trigger final(self).slots@[j]]
                0 <= j < pass.reached + 1 && old(self).slots@[j] is Some ==> (exists|
                    source: &mut S,
                    taken: Result<AcquiredBuffer, SourceError>,
                |
                    *source == old(self).slots@[j]->0.source && *final(source) == final(self).slots@[j]->0.source
                        && #[trigger] call_ensures(S::acquire, (source,), taken) && answers(
                        tried(
                            *old(self),
                            SceneError::Source(error),
                            pass.reached as int,
                            pass.made@,
                        )[live_before(old(self).slots@, j)],
                        taken,
                    )) && shape_stated(
                        final(self).slots@[j]->0.source,
                        tried(
                            *old(self),
                            SceneError::Source(error),
                            pass.reached as int,
                            pass.made@,
                        )[live_before(old(self).slots@, j)],
                    )),
            *final(self) == (LayerScene {
                slots: final(self).slots,
                calls: final(self).calls,
                ..*old(self)
            }),
    {
        let mut tally = AcquireTally::default();
        let mut acquisitions: Vec<Acquisition> = Vec::new();
        let mut lowered_layers: Vec<LoweredLayer> = Vec::new();
        let ghost start = *self;
        let ghost mut made: Seq<SourceCall> = Seq::empty();
        proof {
            lemma_same_layers_reflexive(self.slots@);
            assert(start.calls@ + made =~= start.calls@);
        }
        let mut i: usize = 0;
        while i < self.slots.len()
            invariant
                self.well_formed(),
                start == *old(self),
                start.well_formed(),
                0 <= i <= self.slots@.len(),
                same_layers(start.slots@, self.slots@),
                forall|j: int| i <= j < start.slots@.len() ==> #[trigger] self.slots@[j]
                    == start.slots@[j],
                self.calls@ == start.calls@ + made,
                acquire_pass(start.slots@.take(i as int), start.generations@, made),
                acquisitions@ == buffers_taken(made),
                lowered_layers@ == lowered_pass(
                    start.slots@.take(i as int),
                    start.generations@,
                    start.committed@,
                    start.crtc_id,
                    made,
                ),
                tally.acquired == buffers_taken(made).len(),
                tally.skipped_no_frame == starved_count(made),
                tally.acquired + tally.skipped_no_frame <= i,
                forall|j: int|
                    #![trigger self.slots@[j]]
                    0 <= j < i && start.slots@[j] is Some ==> (exists|
                        source: &mut S,
                        taken: Result<AcquiredBuffer, SourceError>,
                    |
                        *source == start.slots@[j]->0.source && *final(source) == self.slots@[j]->0.source
                            && #[trigger] call_ensures(S::acquire, (source,), taken) && answers(
                            made[live_before(start.slots@, j)],
                            taken,
                        )) && shape_stated(
                            self.slots@[j]->0.source,
                            made[live_before(start.slots@, j)],
                        ),
                *self == (LayerScene { slots: self.slots, calls: self.calls, ..start }),
            decreases self.slots@.len() - i,
        {
            let ghost before = *self;
            let ghost made_before = made;
            proof {
                lemma_pass_length(start.slots@, i as int, start.generations@, made);
                assert(start.slots@.take(i + 1).drop_last() =~= start.slots@.take(i as int));
            }
            let crtc_id: u32 = self.crtc_id;
            let id: LayerId = LayerHandle {
                id: (i + 1) as u32,
                generation: self.generations[i],
            }.layer_id();
            if self.slots[i].is_some() {
                let outcome = match &mut self.slots[i] {
                    Some(layer) => layer.acquire_and_lower(crtc_id),
                    None => Err(SourceError::WouldBlock),
                };
                proof {
                    assert(same_slot(before.slots@[i as int], self.slots@[i as int]));
                    assert forall|j: int| 0 <= j < start.slots@.len() implies same_slot(
                        #[trigger] start.slots@[j],
                        self.slots@[j],
                    ) by {
                        assert(same_slot(start.slots@[j], before.slots@[j]));
                    }
                }
                match outcome {
                    Ok((buffer, layer, shape)) => {
                        tally.record(true);
                        proof {
                            made = made.push(
                                SourceCall::Acquired {
                                    layer: id,
                                    buffer,
                                    format: shape@.0,
                                    binding: shape@.1,
                                },
                            );
                            assert(made.drop_last() =~= made_before);
                            assert(start.calls@ + made =~= (start.calls@ + made_before).push(
                                made.last(),
                            ));
                        }
                        self.calls = Ghost(self.calls@.push(made.last()));
                        lowered_layers.push(LoweredLayer { id, layer, held: false });
                        acquisitions.push(Acquisition::new(id, buffer));
                    },
                    Err(SourceError::WouldBlock) => {
                        tally.record(false);
                        proof {
                            made = made.push(SourceCall::Starved { layer: id });
                            assert(made.drop_last() =~= made_before);
                            assert(start.calls@ + made =~= (start.calls@ + made_before).push(
                                made.last(),
                            ));
                        }
                        self.calls = Ghost(self.calls@.push(made.last()));
                        if let Some(layer) = find_shown(&self.committed, id) {
                            lowered_layers.push(LoweredLayer { id, layer, held: true });
                        }
                    },
                    Err(error) => {
                        let ghost failed = SourceCall::Failed { layer: id, error };
                        self.calls = Ghost(self.calls@.push(failed));
                        proof {
                            let whole = made.push(failed);
                            assert(self.calls@ =~= start.calls@ + whole);
                            assert forall|j: int|
                                #![trigger self.slots@[j]]
                                0 <= j < i + 1 && start.slots@[j] is Some implies (exists|
                                    source: &mut S,
                                    taken: Result<AcquiredBuffer, SourceError>,
                                |
                                    *source == start.slots@[j]->0.source && *final(source) == self.slots@[j]->0.source
                                        && #[trigger] call_ensures(
                                            S::acquire,
                                            (source,),
                                            taken,
                                        ) && answers(
                                        whole[live_before(start.slots@, j)],
                                        taken,
                                    )) && shape_stated(
                                        self.slots@[j]->0.source,
                                        whole[live_before(start.slots@, j)],
                                    ) by {
                                if j < i {
                                    assert(self.slots@[j] == before.slots@[j]);
                                    lemma_live_before_grows(start.slots@, j, i as int);
                                    assert(whole[live_before(start.slots@, j)] == made[live_before(
                                        start.slots@,
                                        j,
                                    )]);
                                } else {
                                    assert(whole[live_before(start.slots@, j)] == failed);
                                }
                            }
                        }
                        return AcquirePass {
                            acquisitions,
                            lowered: lowered_layers,
                            tally,
                            failed: Some(error),
                            reached: i,
                            made: Ghost(made),
                        };
                    },
                }
            } else {
                assert(start.slots@[i as int] is None);
            }
            proof {
                assert forall|j: int|
                    #![trigger self.slots@[j]]
                    0 <= j < i + 1 && start.slots@[j] is Some implies (exists|
                        source: &mut S,
                        taken: Result<AcquiredBuffer, SourceError>,
                    |
                        *source == start.slots@[j]->0.source && *final(source) == self.slots@[j]->0.source
                            && #[trigger] call_ensures(S::acquire, (source,), taken) && answers(
                            made[live_before(start.slots@, j)],
                            taken,
                        )) && shape_stated(
                            self.slots@[j]->0.source,
                            made[live_before(start.slots@, j)],
                        ) by {
                    if j < i {
                        assert(self.slots@[j] == before.slots@[j]);
                        lemma_live_before_grows(start.slots@, j, i as int);
                        assert(made[live_before(start.slots@, j)] == made_before[live_before(
                            start.slots@,
                            j,
                        )]);
                    } else {
                        assert(made[live_before(start.slots@, j)] == made.last());
                    }
                }
            }
            i += 1;
        }
        AcquirePass {
            acquisitions,
            lowered: lowered_layers,
            tally,
            failed: None,
            reached: i,
            made: Ghost(made),
        }
    }

    /// Hand a set of acquisitions back at once, for a frame that will not be.
    pub(crate) fn release_all(&mut self, acquisitions: Vec<Acquisition>) -> (route: Ghost<
        Seq<Homes<S>>,
    >)
        requires
            old(self).well_formed(),
        ensures
            final(self).well_formed(),
            same_layers(old(self).slots@, final(self).slots@),
            if old(self).lifecycle.releases.held().len() == 0 {
                final(self).retiring@.len() == 0
            } else {
                same_retiring(old(self).retiring@, final(self).retiring@)
            },
            final(self).calls@ == old(self).calls@ + deliveries(
                old(self).slots@,
                old(self).generations@,
                old(self).retiring@,
                acquisitions@,
            ),
            routed(homes_of(*old(self)), route@, acquisitions@.len(), *final(self)),
            forall|k: int|
                #![trigger route@[k]]
                0 <= k < acquisitions@.len() ==> {
                    ||| exists|i: int, asked: &mut S|
                        #![trigger lives_in(
                            route@[k].slots,
                            old(self).generations@,
                            acquisitions@[k].layer,
                            i,
                        ), call_ensures(
                            S::release_with_fence,
                            (asked, acquisitions@[k].buffer, acquisitions@[k].release_fence),
                            (),
                        )]
                        lives_in(route@[k].slots, old(self).generations@, acquisitions@[k].layer, i)
                            && *asked == route@[k].slots[i]->0.source && *final(asked)
                            == route@[k + 1].slots[i]->0.source && only_slot(
                                route@[k],
                                route@[k + 1],
                                i,
                            )
                            && call_ensures(
                            S::release_with_fence,
                            (asked, acquisitions@[k].buffer, acquisitions@[k].release_fence),
                            (),
                        )
                    ||| exists|j: int, asked: &mut S|
                        #![trigger kept_at(
                            route@[k],
                            old(self).generations@,
                            acquisitions@[k].layer,
                            j,
                        ), call_ensures(
                            S::release_with_fence,
                            (asked, acquisitions@[k].buffer, acquisitions@[k].release_fence),
                            (),
                        )]
                        kept_at(route@[k], old(self).generations@, acquisitions@[k].layer, j)
                            && *asked == route@[k].retiring[j].source && *final(asked)
                            == route@[k + 1].retiring[j].source && only_kept(
                                route@[k],
                                route@[k + 1],
                                j,
                            )
                            && call_ensures(
                            S::release_with_fence,
                            (asked, acquisitions@[k].buffer, acquisitions@[k].release_fence),
                            (),
                        )
                    ||| homeless(
                        route@[k],
                        old(self).generations@,
                        acquisitions@[k].layer,
                    ) && route@[k + 1] == route@[k]
                },
            *final(self) == (LayerScene {
                slots: final(self).slots,
                retiring: final(self).retiring,
                calls: final(self).calls,
                ..*old(self)
            }),
    {
        self.deliver(Released { acquisitions, reason: ReleaseReason::CommitFailed })
    }
}

pub(crate) proof fn lemma_same_layers_reflexive<S>(slots: Seq<Option<SceneLayer<S>>>)
    ensures
        same_layers(slots, slots),
{
}

pub(crate) proof fn lemma_same_layers_transitive<S>(
    a: Seq<Option<SceneLayer<S>>>,
    b: Seq<Option<SceneLayer<S>>>,
    c: Seq<Option<SceneLayer<S>>>,
)
    requires
        same_layers(a, b),
        same_layers(b, c),
    ensures
        same_layers(a, c),
{
    assert forall|i: int| 0 <= i < a.len() implies same_slot(#[trigger] a[i], c[i]) by {
        assert(same_slot(a[i], b[i]));
        assert(same_slot(b[i], c[i]));
    }
}

proof fn lemma_deliveries_are_stable<S>(
    slots: Seq<Option<SceneLayer<S>>>,
    later: Seq<Option<SceneLayer<S>>>,
    generations: Seq<u32>,
    retiring: Seq<RetiringSource<S>>,
    later_retiring: Seq<RetiringSource<S>>,
    acquisitions: Seq<Acquisition>,
)
    requires
        same_layers(slots, later),
        same_retiring(retiring, later_retiring),
    ensures
        deliveries(slots, generations, retiring, acquisitions) == deliveries(
            later,
            generations,
            later_retiring,
            acquisitions,
        ),
{
    assert forall|i: int| 0 <= i < acquisitions.len() implies delivery(
        slots,
        generations,
        retiring,
        #[trigger] acquisitions[i],
    ) == delivery(later, generations, later_retiring, acquisitions[i]) by {
        lemma_home_is_stable(
            slots,
            later,
            generations,
            retiring,
            later_retiring,
            acquisitions[i].layer,
        );
    }
    assert(deliveries(slots, generations, retiring, acquisitions) =~= deliveries(
        later,
        generations,
        later_retiring,
        acquisitions,
    ));
}

proof fn lemma_fresh_count<S>(
    slots: Seq<Option<SceneLayer<S>>>,
    generations: Seq<u32>,
    committed: Seq<CommittedPlane>,
    crtc_id: u32,
    calls: Seq<SourceCall>,
)
    requires
        acquire_pass(slots, generations, calls),
    ensures
        fresh_count(lowered_pass(slots, generations, committed, crtc_id, calls)) == buffers_taken(
            calls,
        ).len(),
    decreases slots.len(),
{
    if slots.len() > 0 {
        if slots.last() is None {
            lemma_fresh_count(slots.drop_last(), generations, committed, crtc_id, calls);
        } else {
            lemma_fresh_count(
                slots.drop_last(),
                generations,
                committed,
                crtc_id,
                calls.drop_last(),
            );
            let before = lowered_pass(
                slots.drop_last(),
                generations,
                committed,
                crtc_id,
                calls.drop_last(),
            );
            let after = lowered_pass(slots, generations, committed, crtc_id, calls);
            if after.len() > before.len() {
                assert(after.drop_last() =~= before);
            }
        }
    }
}

// --- laws --------------------------------------------------------------------

/// A layer that has left is no longer shown, so it cannot be held over.
pub proof fn law_removed_layer_is_not_held(committed: Seq<CommittedPlane>, layer: LayerId)
    ensures
        shown(without_layer(committed, layer), layer) is None,
    decreases committed.len(),
{
    if committed.len() > 0 {
        assert(without_layer(committed, layer).skip(1) =~= without_layer(committed.skip(1), layer));
        law_removed_layer_is_not_held(committed.skip(1), layer);
    }
}

pub(crate) proof fn lemma_listed_is_shown(committed: Seq<CommittedPlane>, layer: LayerId, at: int)
    requires
        0 <= at < committed.len(),
        committed[at].layer_id == Some(layer),
    ensures
        shown(committed, layer) is Some,
    decreases committed.len(),
{
    if committed[0].layer_id != Some(layer) {
        lemma_listed_is_shown(committed.skip(1), layer, at - 1);
    }
}

proof fn lemma_lowered_comes_from_a_slot<S>(
    slots: Seq<Option<SceneLayer<S>>>,
    generations: Seq<u32>,
    committed: Seq<CommittedPlane>,
    crtc_id: u32,
    calls: Seq<SourceCall>,
    k: int,
)
    requires
        0 <= k < lowered_pass(slots, generations, committed, crtc_id, calls).len(),
    ensures
        exists|j: int|
            0 <= j < slots.len() && lowered_pass(
                slots,
                generations,
                committed,
                crtc_id,
                calls,
            )[k].id == #[trigger] handle_at(generations, j).identity(),
    decreases slots.len(),
{
    if slots.len() > 0 {
        let rest = slots.drop_last();
        let left = if slots.last() is None {
            calls
        } else {
            calls.drop_last()
        };
        let before = lowered_pass(rest, generations, committed, crtc_id, left);
        if k < before.len() {
            lemma_lowered_comes_from_a_slot(rest, generations, committed, crtc_id, left, k);
            let j = choose|j: int|
                0 <= j < rest.len() && before[k].id == #[trigger] handle_at(
                    generations,
                    j,
                ).identity();
            assert(0 <= j < slots.len());
        } else {
            assert(handle_at(generations, slots.len() - 1).identity() == lowered_pass(
                slots,
                generations,
                committed,
                crtc_id,
                calls,
            )[k].id);
        }
    }
}

/// A draft names each layer at most once, and none by the identity of the
/// canvas.
pub proof fn law_a_draft_names_each_layer_once<S>(
    slots: Seq<Option<SceneLayer<S>>>,
    generations: Seq<u32>,
    committed: Seq<CommittedPlane>,
    crtc_id: u32,
    calls: Seq<SourceCall>,
)
    requires
        slots.len() <= u32::MAX,
    ensures
        ({
            let layers = lowered_pass(slots, generations, committed, crtc_id, calls);
            &&& forall|a: int, b: int|
                0 <= a < b < layers.len() ==> (#[trigger] layers[a]).id != (#[trigger] layers[b]).id
            &&& forall|a: int| 0 <= a < layers.len() ==> (#[trigger] layers[a]).id != canvas_id()
        }),
    decreases slots.len(),
{
    let layers = lowered_pass(slots, generations, committed, crtc_id, calls);
    assert forall|a: int| 0 <= a < layers.len() implies (#[trigger] layers[a]).id
        != canvas_id() by {
        lemma_lowered_comes_from_a_slot(slots, generations, committed, crtc_id, calls, a);
        let j = choose|j: int|
            0 <= j < slots.len() && layers[a].id == #[trigger] handle_at(generations, j).identity();
        let handle = handle_at(generations, j);
        assert(handle.id >= 1);
        assert(0x1_0000_0000 <= handle.id * 0x1_0000_0000 + handle.generation <= u64::MAX);
    }
    if slots.len() > 0 {
        let rest = slots.drop_last();
        let left = if slots.last() is None {
            calls
        } else {
            calls.drop_last()
        };
        let before = lowered_pass(rest, generations, committed, crtc_id, left);
        law_a_draft_names_each_layer_once(rest, generations, committed, crtc_id, left);
        assert forall|a: int, b: int| 0 <= a < b < layers.len() implies (#[trigger] layers[a]).id
            != (#[trigger] layers[b]).id by {
            assert(layers[a] == before[a]);
            if b < before.len() {
                assert(layers[b] == before[b]);
            } else {
                lemma_lowered_comes_from_a_slot(rest, generations, committed, crtc_id, left, a);
                let j = choose|j: int|
                    0 <= j < rest.len() && before[a].id == #[trigger] handle_at(
                        generations,
                        j,
                    ).identity();
                let last = handle_at(generations, slots.len() - 1);
                if handle_at(generations, j).identity() == last.identity() {
                    law_identities_are_distinct(handle_at(generations, j), last);
                }
            }
        }
    }
}

/// A layer the kernel is showing is found by the first record that names it.
pub proof fn law_a_shown_layer_is_its_first_record(
    committed: Seq<CommittedPlane>,
    layer: LayerId,
    k: int,
)
    ensures
        0 <= k < committed.len() && committed[k].layer_id == Some(layer) && (forall|j: int|
            0 <= j < k ==> (#[trigger] committed[j]).layer_id != Some(layer)) ==> shown(
            committed,
            layer,
        ) == Some(committed[k].layer),
        (forall|j: int| 0 <= j < committed.len() ==> (#[trigger] committed[j]).layer_id != Some(layer))
            <==> shown(committed, layer) is None,
    decreases committed.len(),
{
    if committed.len() > 0 {
        let rest = committed.skip(1);
        assert forall|j: int| 0 <= j < rest.len() implies #[trigger] rest[j] == committed[j + 1] by {}
        if committed[0].layer_id != Some(layer) {
            law_a_shown_layer_is_its_first_record(rest, layer, k - 1);
            if 0 <= k < committed.len() && committed[k].layer_id == Some(layer) && (forall|j: int|
                0 <= j < k ==> (#[trigger] committed[j]).layer_id != Some(layer)) {
                assert forall|j: int| 0 <= j < k - 1 implies (#[trigger] rest[j]).layer_id != Some(
                    layer,
                ) by {
                    assert(committed[j + 1].layer_id != Some(layer));
                }
            }
            if shown(rest, layer) is None {
                assert forall|j: int| 0 <= j < committed.len() implies (
                #[trigger] committed[j]).layer_id != Some(layer) by {
                    if j > 0 {
                        assert(rest[j - 1].layer_id != Some(layer));
                    }
                }
            } else {
                assert(!(forall|j: int|
                    0 <= j < rest.len() ==> (#[trigger] rest[j]).layer_id != Some(layer)));
                let j = choose|j: int|
                    0 <= j < rest.len() && (#[trigger] rest[j]).layer_id == Some(layer);
                assert(committed[j + 1].layer_id == Some(layer));
            }
        }
    }
}

/// The buffers a pass took are those its acquires handed over, one for each, and
/// every other acquire found its source with no frame.
pub proof fn law_a_pass_keeps_every_buffer(calls: Seq<SourceCall>)
    ensures
        buffers_taken(calls).len() == calls.filter(|call: SourceCall| call is Acquired).len(),
        starved_count(calls) == calls.filter(|call: SourceCall| call is Starved).len(),
        forall|c: int|
            0 <= c < calls.len() && (#[trigger] calls[c]) is Acquired ==> exists|k: int|
                0 <= k < buffers_taken(calls).len() && (#[trigger] buffers_taken(calls)[k]).layer
                    == calls[c]->Acquired_layer && buffers_taken(calls)[k].buffer
                    == calls[c]->Acquired_buffer && buffers_taken(calls)[k].release_fence is None,
    decreases calls.len(),
{
    reveal(Seq::filter);
    if calls.len() > 0 {
        let rest = calls.drop_last();
        let before = buffers_taken(rest);
        let after = buffers_taken(calls);
        law_a_pass_keeps_every_buffer(rest);
        assert forall|c: int| 0 <= c < calls.len() && (#[trigger] calls[c]) is Acquired implies exists|
            k: int,
        |
            0 <= k < after.len() && (#[trigger] after[k]).layer == calls[c]->Acquired_layer
                && after[k].buffer == calls[c]->Acquired_buffer && after[k].release_fence is None by {
            if c < rest.len() {
                assert(rest[c] == calls[c]);
                let k = choose|k: int|
                    0 <= k < before.len() && (#[trigger] before[k]).layer == rest[c]->Acquired_layer
                        && before[k].buffer == rest[c]->Acquired_buffer && before[k].release_fence
                        is None;
                assert(after[k] == before[k]);
            } else {
                assert(after[before.len() as int].layer == calls[c]->Acquired_layer);
            }
        }
    }
}

/// Each layer of the scene is asked once, in slot order, and is drafted by what
/// it answered. With a buffer it is lowered around that very buffer, as it is
/// displayed and hinted. Without one it is held exactly as the kernel shows it,
/// if it does, and left out otherwise.
pub proof fn law_each_layer_is_drafted_as_it_answered<S>(
    slots: Seq<Option<SceneLayer<S>>>,
    generations: Seq<u32>,
    committed: Seq<CommittedPlane>,
    crtc_id: u32,
    calls: Seq<SourceCall>,
    i: int,
)
    requires
        acquire_pass(slots, generations, calls),
        0 <= i < slots.len(),
        slots[i] is Some,
    ensures
        ({
            let layers = lowered_pass(slots, generations, committed, crtc_id, calls);
            let id = handle_at(generations, i).identity();
            let at = live_before(slots, i);
            &&& 0 <= at < calls.len()
            &&& calls[at] matches SourceCall::Acquired { layer, buffer, format, binding } ==> {
                &&& layer == id
                &&& exists|k: int|
                    0 <= k < layers.len() && (#[trigger] layers[k]).id == id && !layers[k].held
                        && drafted_as(
                        layers[k].layer,
                        slots[i]->0,
                        crtc_id,
                        buffer.fb_id,
                        format,
                        binding,
                    )
            }
            &&& !(calls[at] is Acquired) ==> {
                &&& calls[at] == (SourceCall::Starved { layer: id })
                &&& shown(committed, id) matches Some(layer) ==> exists|k: int|
                    0 <= k < layers.len() && #[trigger] layers[k] == (LoweredLayer {
                        id,
                        layer,
                        held: true,
                    })
            }
        }),
    decreases slots.len(),
{
    let rest = slots.drop_last();
    let layers = lowered_pass(slots, generations, committed, crtc_id, calls);
    let id = handle_at(generations, i).identity();
    lemma_live_before_is_local(slots, rest, i);
    assert(slots.take(slots.len() as int) =~= slots);
    lemma_pass_length(slots, slots.len() as int, generations, calls);
    if i == slots.len() - 1 {
        let before = lowered_pass(rest, generations, committed, crtc_id, calls.drop_last());
        assert(rest.take(rest.len() as int) =~= rest);
        assert(slots.take(i) =~= rest);
        assert(acquire_pass(rest, generations, calls.drop_last()));
        lemma_pass_length(slots, i, generations, calls.drop_last());
        assert(live_before(slots, i) == calls.len() - 1);
        if calls.last() is Acquired {
            law_lowering_shows_the_layer_as_asked(
                LoweringInput {
                    display: slots[i]->0.display,
                    format: calls.last()->Acquired_format,
                    binding: calls.last()->Acquired_binding,
                    fb_id: calls.last()->Acquired_buffer.fb_id,
                    crtc_id,
                    default_zpos: None,
                },
                Layer::empty(),
            );
            assert(layers[before.len() as int].id == id);
        } else if shown(committed, id) is Some {
            assert(layers[before.len() as int].id == id);
        }
    } else {
        assert(rest[i] == slots[i]);
        let left = if slots.last() is None {
            calls
        } else {
            calls.drop_last()
        };
        let before = lowered_pass(rest, generations, committed, crtc_id, left);
        law_each_layer_is_drafted_as_it_answered(
            rest,
            generations,
            committed,
            crtc_id,
            left,
            i,
        );
        let at = live_before(slots, i);
        assert(calls[at] == left[at]);
        assert forall|k: int| 0 <= k < before.len() implies #[trigger] layers[k] == before[k] by {}
        if calls[at] is Acquired {
            let k = choose|k: int|
                0 <= k < before.len() && (#[trigger] before[k]).id == id && !before[k].held
                    && drafted_as(
                    before[k].layer,
                    slots[i]->0,
                    crtc_id,
                    calls[at]->Acquired_buffer.fb_id,
                    calls[at]->Acquired_format,
                    calls[at]->Acquired_binding,
                );
            assert(layers[k].id == id);
        } else if shown(committed, id) is Some {
            let k = choose|k: int|
                0 <= k < before.len() && #[trigger] before[k] == (LoweredLayer {
                    id,
                    layer: shown(committed, id)->0,
                    held: true,
                });
            assert(layers[k] == before[k]);
        }
    }
}

/// Whether a property bag shows a layer of the scene around a buffer: placed as
/// it is displayed, from the part of the buffer it asks for, with its hints.
pub open spec fn drafted_as<S>(
    drafted: Layer,
    layer: SceneLayer<S>,
    crtc_id: u32,
    fb_id: u32,
    format: SourceFormat,
    binding: BindingModel,
) -> bool {
    let held = drafted.properties;
    let display = layer.display;
    &&& drafted.content_type == layer.content_type
    &&& drafted.update_hint_hz == layer.update_hint_hz
    &&& drafted.app_priority == layer.app_priority
    &&& drafted.externally_bound == (binding == BindingModel::DriverOwnsBinding)
    &&& binding == BindingModel::SceneSubmitsFbId ==> held.fb_id == Some(fb_id as u64)
    &&& binding == BindingModel::DriverOwnsBinding ==> held.fb_id is None
    &&& held.crtc_id == Some(crtc_id as u64)
    &&& signed_position(held.crtc_x->0) == display.dst_rect.x
    &&& signed_position(held.crtc_y->0) == display.dst_rect.y
    &&& held.crtc_w == Some(display.dst_rect.w as u64)
    &&& held.crtc_h == Some(display.dst_rect.h as u64)
    &&& signed_position((held.src_x->0 / 0x1_0000) as u64) == display.src_rect.x
    &&& signed_position((held.src_y->0 / 0x1_0000) as u64) == display.src_rect.y
    &&& held.src_w->0 == 0x1_0000 * if display.src_rect.w != 0 {
        display.src_rect.w as int
    } else {
        format.width as int
    }
    &&& held.src_h->0 == 0x1_0000 * if display.src_rect.h != 0 {
        display.src_rect.h as int
    } else {
        format.height as int
    }
    &&& held.pixel_format == Some(format.fourcc as u64)
    &&& held.fb_modifier == Some(format.modifier)
    &&& held.zpos == display.zpos
    &&& held.rotation == if display.rotation != 0 {
        Some(display.rotation)
    } else {
        None
    }
    &&& held.alpha == match display.alpha {
        Some(alpha) => Some(alpha as u64),
        None => None,
    }
    &&& held.in_fence_fd is None
}

proof fn lemma_live_before_is_local<S>(
    a: Seq<Option<SceneLayer<S>>>,
    b: Seq<Option<SceneLayer<S>>>,
    slot: int,
)
    requires
        0 <= slot <= b.len() <= a.len(),
        forall|j: int| 0 <= j < slot ==> #[trigger] a[j] == b[j],
    ensures
        live_before(a, slot) == live_before(b, slot),
    decreases slot,
{
    if slot > 0 {
        lemma_live_before_is_local(a, b, slot - 1);
        assert(a[slot - 1] == b[slot - 1]);
    }
}

/// A draft that a failing source cuts short asks the layers before it, in order,
/// reports the failure, and hands every buffer it had taken straight back.
pub proof fn law_an_aborted_draft_keeps_no_buffer<S>(
    slots: Seq<Option<SceneLayer<S>>>,
    generations: Seq<u32>,
    retiring: Seq<RetiringSource<S>>,
    calls: Seq<SourceCall>,
    error: SourceError,
    at: int,
    made: Seq<SourceCall>,
    c: int,
)
    requires
        aborted_pass(slots, generations, retiring, calls, error, at, made),
    ensures
        0 <= at < slots.len(),
        slots[at] is Some,
        made.len() < calls.len(),
        calls.take(made.len() as int) == made,
        calls[made.len() as int] == (SourceCall::Failed {
            layer: handle_at(generations, at).identity(),
            error,
        }),
        calls.len() == made.len() + 1 + made.filter(|call: SourceCall| call is Acquired).len(),
        0 <= c < made.len() && made[c] is Acquired ==> exists|r: int|
            made.len() < r < calls.len() && given_back(#[trigger] calls[r], made[c]),
{
    let taken = buffers_taken(made);
    let back = deliveries(slots, generations, retiring, taken);
    law_a_pass_keeps_every_buffer(made);
    assert(calls.take(made.len() as int) =~= made);
    if 0 <= c < made.len() && made[c] is Acquired {
        let k = choose|k: int|
            0 <= k < taken.len() && (#[trigger] taken[k]).layer == made[c]->Acquired_layer
                && taken[k].buffer == made[c]->Acquired_buffer && taken[k].release_fence is None;
        let r = made.len() + 1 + k;
        assert(calls[r] == back[k]);
        assert(given_back(calls[r], made[c]));
    }
}

/// Whether a call is an acquired buffer's way back: to its source, without a
/// fence, or dropped where the source is gone.
pub open spec fn given_back(call: SourceCall, acquire: SourceCall) -> bool {
    match (call, acquire) {
        (
            SourceCall::Returned { layer: to, buffer: back, fence },
            SourceCall::Acquired { layer, buffer, .. },
        ) => to == layer && back == buffer && fence is None,
        (
            SourceCall::Orphaned { layer: to, buffer: back },
            SourceCall::Acquired { layer, buffer, .. },
        ) => to == layer && back == buffer,
        _ => false,
    }
}

/// A draft goes the long way round where some live layer's hints changed, and
/// nowhere else on their account.
pub proof fn law_a_changed_hint_is_noticed<S>(slots: Seq<Option<SceneLayer<S>>>, i: int)
    ensures
        0 <= i < slots.len() && slots[i] is Some && slots[i]->0.hints_dirty ==> some_hint_dirty(
            slots,
        ),
        (forall|k: int|
            0 <= k < slots.len() && (#[trigger] slots[k]) is Some ==> !slots[k]->0.hints_dirty)
            ==> !some_hint_dirty(slots),
{
}

/// An acquire is listed as the source answered: the very buffer, nothing to show,
/// or the error.
pub proof fn law_acquires_are_listed_as_answered(
    call: SourceCall,
    taken: Result<AcquiredBuffer, SourceError>,
)
    requires
        answers(call, taken),
    ensures
        call matches SourceCall::Acquired { buffer, .. } ==> taken == Ok::<
            AcquiredBuffer,
            SourceError,
        >(buffer),
        call is Starved ==> taken == Err::<AcquiredBuffer, SourceError>(SourceError::WouldBlock),
        call matches SourceCall::Failed { error, .. } ==> taken == Err::<
            AcquiredBuffer,
            SourceError,
        >(error),
        call is Acquired || call is Starved || call is Failed,
{
}

/// A draft that is cut short asks no source behind the one that failed, and
/// leaves every layer as it was but for its source.
pub proof fn law_an_aborted_draft_stops_at_the_failure<S>(
    before: LayerScene<S>,
    after: LayerScene<S>,
    error: SceneError,
    at: int,
    made: Seq<SourceCall>,
    asked: Seq<Option<SceneLayer<S>>>,
    j: int,
)
    requires
        abort_at(before, after, error, at, made, asked),
        before.calls@.len() <= after.calls@.len(),
        0 <= j < before.slots@.len(),
    ensures
        asked.len() == before.slots@.len(),
        j > at ==> asked[j] == before.slots@[j],
        asked[j] is Some <==> before.slots@[j] is Some,
        asked[j] is Some ==> asked[j]->0.display == before.slots@[j]->0.display,
        made.len() < after.calls@.len() - before.calls@.len(),
        after.calls@[before.calls@.len() as int + made.len()] == (SourceCall::Failed {
            layer: handle_at(before.generations@, at).identity(),
            error: error->Source_0,
        }),
{
    law_the_same_layers_differ_only_in_their_sources(before.slots@, asked, j);
    let calls = after.calls@.skip(before.calls@.len() as int);
    law_an_aborted_draft_keeps_no_buffer(
        before.slots@,
        before.generations@,
        before.retiring@,
        calls,
        error->Source_0,
        at,
        made,
        0,
    );
    assert(calls[made.len() as int] == after.calls@[before.calls@.len() as int + made.len()]);
}

} // verus!
