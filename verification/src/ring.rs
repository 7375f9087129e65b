//! An N-slot ring over caller-owned DMA-BUFs, for a rotating producer.

use core::time::Duration;
use vstd::prelude::*;
use crate::errno::{Errno, EINVAL};
use crate::external::{
    import_outcome, ExternalError, ExternalPlane, ImportedFramebuffer, InvalidReason,
};
use crate::presenter::{
    advanced, cleared_of_frames, lemma_place_of_token, merged, place_of_token, spent_fence, token_after, FenceWait,
    Present, RingPresenter,
};
use crate::source::{AcquiredBuffer, DamageRect, LayerBufferSource, SourceError, SourceFormat};
use crate::sync::{keep_spent, with_spent, SyncFence};

verus! {

/// A buffer the producer may reuse, with the out-fence of the commit that
/// displaced it.
#[derive(Debug, PartialEq, Eq, Structural)]
pub struct FreedBuffer {
    /// The slot, or the pool's key.
    pub buffer: u64,
    /// The fence to wait for before writing to it, if there is one.
    pub fence: Option<SyncFence>,
}

/// What a presentation decision makes of the framebuffer it names.
///
/// A new frame needs its framebuffer. A held one whose framebuffer is gone is
/// not presented: committing a stale id would take the whole frame down.
pub open spec fn presented(kind: Present, fb: Option<u32>) -> Result<u32, SourceError> {
    match (kind, fb) {
        (Present::Fresh, Some(fb_id)) => Ok(fb_id),
        (Present::Fresh, None) => Err(SourceError::Failed(Errno { raw: EINVAL })),
        (Present::Hold, Some(fb_id)) => Ok(fb_id),
        _ => Err(SourceError::WouldBlock),
    }
}

/// The framebuffer to present, or why there is none.
pub fn resolve_framebuffer(kind: Present, fb: Option<u32>) -> (resolved: Result<u32, SourceError>)
    ensures
        resolved == presented(kind, fb),
{
    match (kind, fb) {
        (Present::Fresh, Some(fb_id)) => Ok(fb_id),
        (Present::Fresh, None) => Err(SourceError::Failed(Errno::new(EINVAL))),
        (Present::Hold, Some(fb_id)) => Ok(fb_id),
        _ => Err(SourceError::WouldBlock),
    }
}

/// A rotating ring of externally allocated DMA-BUFs.
#[derive(Debug)]
pub struct ExternalDmaBufRing {
    /// One framebuffer per slot.
    pub slots: Vec<ImportedFramebuffer>,
    /// What is pending and what is on screen.
    pub presenter: RingPresenter,
    /// Whether the producer listens for its slots coming back.
    pub listening: bool,
    /// Slots that left the screen, for the producer to be told of.
    pub freed: Vec<FreedBuffer>,
    /// The shape of every slot.
    pub format: SourceFormat,
}

/// One slot of a ring to be: its planes, and what the kernel made of them.
#[derive(Debug)]
pub struct SlotImport {
    /// The slot's planes.
    pub planes: Vec<ExternalPlane>,
    /// The framebuffer registered for them, or why there is none.
    pub imported: Result<u32, Errno>,
}

/// What each slot's import comes to.
pub open spec fn outcomes(format: SourceFormat, slots: Seq<SlotImport>) -> Seq<
    Result<ImportedFramebuffer, ExternalError>,
> {
    slots.map_values(|slot: SlotImport| import_outcome(format, slot.planes@, slot.imported))
}

/// The first import that failed.
pub open spec fn first_refusal(imports: Seq<Result<ImportedFramebuffer, ExternalError>>) -> Option<
    ExternalError,
>
    decreases imports.len(),
{
    if imports.len() == 0 {
        None
    } else {
        match imports[0] {
            Err(error) => Some(error),
            Ok(_) => first_refusal(imports.skip(1)),
        }
    }
}

/// Whether a ring is idle, with nothing submitted or shown yet.
pub open spec fn idle_ring(
    ring: ExternalDmaBufRing,
    format: SourceFormat,
    fence_deadline: Option<Duration>,
) -> bool {
    &&& ring.format == format
    &&& !ring.listening
    &&& ring.freed@.len() == 0
    &&& ring.presenter.well_formed()
    &&& ring.presenter.pending is None
    &&& ring.presenter.scanning_key is None
    &&& ring.presenter.outstanding@.len() == 0
    &&& ring.presenter.next_token == 0
    &&& ring.presenter.scanning_token == 0
    &&& ring.presenter.carried_damage@.len() == 0
    &&& !ring.presenter.carried_whole
    &&& ring.presenter.spent@.len() == 0
    &&& ring.presenter.fence_deadline == fence_deadline
}

/// What making a ring of imports comes to: no ring without a slot, the first
/// failure if there is one, and otherwise a ring of every slot.
pub open spec fn ring_made(
    format: SourceFormat,
    imports: Seq<Result<ImportedFramebuffer, ExternalError>>,
    fence_deadline: Option<Duration>,
    made: Result<ExternalDmaBufRing, ExternalError>,
) -> bool {
    if imports.len() == 0 {
        made == Err::<ExternalDmaBufRing, ExternalError>(
            ExternalError::Invalid { reason: InvalidReason::NoSlots },
        )
    } else {
        match first_refusal(imports) {
            Some(error) => made == Err::<ExternalDmaBufRing, ExternalError>(error),
            None => made matches Ok(ring) && {
                &&& idle_ring(ring, format, fence_deadline)
                &&& ring.slots@.len() == imports.len()
                &&& forall|i: int|
                    0 <= i < imports.len() ==> Ok::<ImportedFramebuffer, ExternalError>(
                        #[trigger] ring.slots@[i],
                    ) == imports[i]
            },
        }
    }
}

impl ExternalDmaBufRing {
    /// Import every slot, in order, and make a ring of them.
    ///
    /// Refuses an empty list: such a ring could never present. The first slot
    /// that cannot be imported ends it with that error, and there is no partial
    /// ring.
    pub fn create(
        format: SourceFormat,
        slots: &Vec<SlotImport>,
        fence_deadline: Option<Duration>,
    ) -> (ring: Result<Self, ExternalError>)
        ensures
            ring_made(format, outcomes(format, slots@), fence_deadline, ring),
    {
        let mut imports: Vec<Result<ImportedFramebuffer, ExternalError>> = Vec::new();
        let mut i: usize = 0;
        while i < slots.len()
            invariant
                0 <= i <= slots@.len(),
                imports@ == outcomes(format, slots@.take(i as int)),
            decreases slots@.len() - i,
        {
            imports.push(
                ImportedFramebuffer::import(
                    format,
                    slots[i].planes.as_slice(),
                    slots[i].imported,
                ),
            );
            assert(imports@ =~= outcomes(format, slots@.take(i + 1)));
            i += 1;
        }
        assert(slots@.take(i as int) =~= slots@);
        ExternalDmaBufRing::from_imports(format, imports, fence_deadline)
    }

    /// A ring over imports that are done. Refuses an empty list, and gives the
    /// first failure back.
    pub fn from_imports(
        format: SourceFormat,
        imports: Vec<Result<ImportedFramebuffer, ExternalError>>,
        fence_deadline: Option<Duration>,
    ) -> (ring: Result<Self, ExternalError>)
        ensures
            ring_made(format, imports@, fence_deadline, ring),
    {
        if imports.len() == 0 {
            return Err(ExternalError::Invalid { reason: InvalidReason::NoSlots });
        }
        let ghost all = imports@;
        let mut rest: Vec<Result<ImportedFramebuffer, ExternalError>> = imports;
        let mut slots: Vec<ImportedFramebuffer> = Vec::new();
        while rest.len() > 0
            invariant
                all.len() > 0,
                all == imports@,
                slots@.len() <= all.len(),
                rest@ == all.skip(slots@.len() as int),
                first_refusal(all) == first_refusal(rest@),
                forall|i: int|
                    0 <= i < slots@.len() ==> Ok::<ImportedFramebuffer, ExternalError>(
                        #[trigger] slots@[i],
                    ) == all[i],
            decreases rest@.len(),
        {
            let ghost left = rest@;
            let outcome = rest.remove(0);
            assert(rest@ =~= left.skip(1));
            assert(outcome == all[slots@.len() as int]);
            match outcome {
                Ok(slot) => {
                    slots.push(slot);
                    assert(rest@ =~= all.skip(slots@.len() as int));
                },
                Err(error) => {
                    return Err(error);
                },
            }
        }
        Ok(
            ExternalDmaBufRing {
                slots,
                presenter: RingPresenter::new(fence_deadline),
                listening: false,
                freed: Vec::new(),
                format,
            },
        )
    }

    /// Start telling the producer of slots that leave the screen.
    pub fn set_on_release(&mut self)
        ensures
            *final(self) == (ExternalDmaBufRing { listening: true, ..*old(self) }),
    {
        self.listening = true;
    }

    /// The slots that left the screen since the last call, oldest first.
    pub fn take_freed(&mut self) -> (freed: Vec<FreedBuffer>)
        ensures
            freed == old(self).freed,
            final(self).freed@.len() == 0,
            *final(self) == (ExternalDmaBufRing { freed: final(self).freed, ..*old(self) }),
    {
        let mut freed: Vec<FreedBuffer> = Vec::new();
        core::mem::swap(&mut freed, &mut self.freed);
        freed
    }

    /// The fences done with since the last call, for their descriptors to be
    /// closed.
    pub fn take_spent(&mut self) -> (spent: Vec<SyncFence>)
        ensures
            old(self).presenter.well_formed() ==> final(self).presenter.well_formed(),
            spent == old(self).presenter.spent,
            final(self).presenter.spent@.len() == 0,
            *final(self) == (ExternalDmaBufRing {
                presenter: RingPresenter {
                    spent: final(self).presenter.spent,
                    ..old(self).presenter
                },
                ..*old(self)
            }),
    {
        self.presenter.take_spent()
    }

    /// Hand in a freshly rendered slot, replacing any frame not yet picked up.
    ///
    /// A slot index past the end is ignored, its fence handed back; otherwise
    /// the fence of the frame it replaces comes back.
    pub fn submit(&mut self, slot: usize, fence: Option<SyncFence>, damage: &[DamageRect]) -> (displaced:
        Option<SyncFence>)
        ensures
            if slot >= old(self).slots@.len() {
                displaced == fence && *final(self) == *old(self)
            } else {
                &&& final(self).presenter.pending matches Some(frame) && frame.key == slot
                    && frame.fence == fence && !frame.signaled && frame.damage@
                    == crate::presenter::capped(damage@)
                &&& displaced == match old(self).presenter.pending {
                    Some(frame) => frame.fence,
                    None => None,
                }
                &&& *final(self) == (ExternalDmaBufRing {
                    presenter: RingPresenter {
                        pending: final(self).presenter.pending,
                        ..old(self).presenter
                    },
                    ..*old(self)
                })
            },
            old(self).presenter.well_formed() ==> final(self).presenter.well_formed(),
    {
        if slot >= self.slots.len() {
            return fence;
        }
        self.presenter.submit(slot as u64, fence, damage)
    }

    /// How many slots the ring holds.
    pub fn slot_count(&self) -> (count: usize)
        ensures
            count == self.slots@.len(),
    {
        self.slots.len()
    }

    /// Whether a submitted frame is waiting to be picked up.
    pub fn has_fresh_frame(&self) -> (fresh: bool)
        ensures
            fresh == self.presenter.pending is Some,
    {
        self.presenter.has_fresh_frame()
    }

    /// The slot currently on screen, if any.
    pub fn scanning_slot(&self) -> (slot: Option<usize>)
        ensures
            slot == match self.presenter.scanning_key {
                Some(key) if key <= usize::MAX => Some(key as usize),
                _ => None,
            },
    {
        match self.presenter.scanning_key() {
            Some(key) => {
                if key <= usize::MAX as u64 {
                    Some(key as usize)
                } else {
                    None
                }
            },
            None => None,
        }
    }

    /// The wait that must come before the next acquire, if there is one.
    pub fn fence_wait(&self) -> (wait: Option<FenceWait>)
        ensures
            wait is Some == (self.presenter.fence_deadline is Some && self.presenter.pending is Some
                && self.presenter.pending->0.fence is Some),
            wait is Some ==> wait->0.fd == self.presenter.pending->0.fence->0.fd && wait->0.nanos
                == crate::presenter::wait_nanos(self.presenter.fence_deadline->0),
    {
        self.presenter.fence_wait()
    }

    /// Record how that wait ended.
    pub fn note_fence_wait(&mut self, signaled: bool)
        ensures
            old(self).presenter.well_formed() ==> final(self).presenter.well_formed(),
            match old(self).presenter.pending {
                Some(frame) => final(self).presenter.pending == Some(
                    crate::presenter::PendingFrame { signaled, ..frame },
                ),
                None => final(self).presenter.pending is None,
            },
            *final(self) == (ExternalDmaBufRing {
                presenter: RingPresenter {
                    pending: final(self).presenter.pending,
                    ..old(self).presenter
                },
                ..*old(self)
            }),
    {
        self.presenter.note_fence_wait(signaled);
    }

    /// The framebuffer a key names: none for a key past the last slot.
    pub open spec fn framebuffer(&self, key: u64) -> Option<u32> {
        if key < self.slots@.len() {
            self.slots@[key as int].fb
        } else {
            None
        }
    }

    fn fb_of(&self, key: u64) -> (fb: Option<u32>)
        ensures
            fb == self.framebuffer(key),
    {
        if key < self.slots.len() as u64 {
            self.slots[key as usize].fb_id()
        } else {
            None
        }
    }
}

impl LayerBufferSource for ExternalDmaBufRing {
    /// Present whatever the presenter decides.
    fn acquire(&mut self) -> (acquired: Result<AcquiredBuffer, SourceError>)
        ensures
            old(self).presenter.well_formed() ==> final(self).presenter.well_formed(),
            final(self).slots == old(self).slots,
            advanced(old(self).presenter, final(self).presenter),
            final(self).presenter.spent@ == with_spent(
                old(self).presenter.spent@,
                spent_fence(old(self).presenter, acquired is Ok),
            ),
            final(self).format == old(self).format,
            final(self).listening == old(self).listening,
            final(self).freed == old(self).freed,
            if old(self).presenter.pending_ready() {
                let frame = old(self).presenter.pending->0;
                match presented(Present::Fresh, old(self).framebuffer(frame.key)) {
                    Ok(fb_id) => acquired matches Ok(buffer) && buffer.fb_id == fb_id
                        && buffer.token == token_after(old(self).presenter.next_token)
                        && buffer.acquire_fence == (if old(
                        self,
                    ).presenter.fence_deadline is None {
                        frame.fence
                    } else {
                        None
                    }) && buffer.damage@ == merged(
                        old(self).presenter.carried_damage@,
                        old(self).presenter.carried_whole,
                        frame.damage@,
                    ),
                    Err(error) => acquired == Err::<AcquiredBuffer, SourceError>(error),
                }
            } else {
                match old(self).presenter.scanning_key {
                    Some(key) => match presented(Present::Hold, old(self).framebuffer(key)) {
                        Ok(fb_id) => acquired matches Ok(buffer) && buffer.fb_id == fb_id
                            && buffer.token == old(self).presenter.scanning_token
                            && buffer.acquire_fence is None && buffer.damage@.len() == 0,
                        Err(error) => acquired == Err::<AcquiredBuffer, SourceError>(error),
                    },
                    None => acquired == Err::<AcquiredBuffer, SourceError>(SourceError::WouldBlock),
                }
            },
    {
        let decision = self.presenter.acquire();
        let fb: Option<u32> = self.fb_of(decision.key);
        match resolve_framebuffer(decision.kind, fb) {
            Ok(fb_id) => Ok(
                AcquiredBuffer {
                    fb_id,
                    token: decision.token,
                    acquire_fence: decision.fence,
                    damage: decision.damage,
                },
            ),
            Err(error) => {
                keep_spent(&mut self.presenter.spent, decision.fence);
                Err(error)
            },
        }
    }

    fn release(&mut self, acquired: AcquiredBuffer)
        ensures
            old(self).presenter.well_formed() ==> final(self).presenter.well_formed(),
            freed_by(*old(self), *final(self), acquired, None),
    {
        self.release_with_fence(acquired, None);
    }

    /// Retire the buffer's token, and tell a listening producer of its slot.
    fn release_with_fence(&mut self, acquired: AcquiredBuffer, release_fence: Option<SyncFence>)
        ensures
            old(self).presenter.well_formed() ==> final(self).presenter.well_formed(),
            freed_by(*old(self), *final(self), acquired, release_fence),
    {
        keep_spent(&mut self.presenter.spent, acquired.acquire_fence);
        let told: Option<u64> = match self.presenter.release(acquired.token) {
            Some(key) => {
                if self.listening && key <= usize::MAX as u64 {
                    Some(key)
                } else {
                    None
                }
            },
            None => None,
        };
        match told {
            Some(key) => self.freed.push(FreedBuffer { buffer: key, fence: release_fence }),
            None => keep_spent(&mut self.presenter.spent, release_fence),
        }
    }

    /// Only worth asking the kernel for an out-fence if someone listens for it.
    fn wants_release_fence(&self) -> (wants: bool)
        ensures
            wants == self.listening,
    {
        self.listening
    }

    fn has_fresh_content(&self) -> (fresh: bool)
        ensures
            fresh == self.presenter.pending is Some,
    {
        self.presenter.has_fresh_frame()
    }

    fn format(&self) -> (format: SourceFormat)
        ensures
            format == self.format,
    {
        self.format
    }

    /// Forget every framebuffer and everything presented: the descriptor they
    /// belong to is revoked.
    fn on_session_paused(&mut self)
        ensures
            final(self).slots@.len() == old(self).slots@.len(),
            forall|i: int|
                0 <= i < final(self).slots@.len() ==> (#[trigger] final(self).slots@[i]).fb is None,
            final(self).presenter.well_formed(),
            cleared_of_frames(old(self).presenter, final(self).presenter),
            final(self).listening == old(self).listening,
            final(self).format == old(self).format,
            final(self).freed == old(self).freed,
    {
        let mut i: usize = 0;
        while i < self.slots.len()
            invariant
                0 <= i <= self.slots@.len(),
                self.slots@.len() == old(self).slots@.len(),
                forall|j: int| 0 <= j < i ==> (#[trigger] self.slots@[j]).fb is None,
                *self == (ExternalDmaBufRing { slots: self.slots, ..*old(self) }),
            decreases self.slots@.len() - i,
        {
            let ghost before = self.slots@;
            self.slots[i].forget();
            assert forall|j: int| 0 <= j < i implies (#[trigger] self.slots@[j]).fb is None by {
                assert(self.slots@[j] == before[j]);
            }
            i += 1;
        }
        self.presenter.reset();
    }
}

/// What releasing a buffer does to a ring: the presenter retires its token, and a
/// listening producer is told of the slot it named. Fences that go no further are
/// done with.
pub open spec fn freed_by(
    before: ExternalDmaBufRing,
    after: ExternalDmaBufRing,
    acquired: AcquiredBuffer,
    fence: Option<SyncFence>,
) -> bool {
    let closed = with_spent(before.presenter.spent@, acquired.acquire_fence);
    &&& match place_of_token(before.presenter.outstanding@, acquired.token) {
        Some(place) if acquired.token != 0 && acquired.token != before.presenter.scanning_token => {
            let key = before.presenter.outstanding@[place].key;
            &&& after.presenter.outstanding@ == before.presenter.outstanding@.remove(place)
            &&& if before.listening && key <= usize::MAX {
                &&& after.freed@ == before.freed@.push(FreedBuffer { buffer: key, fence })
                &&& after.presenter.spent@ == closed
            } else {
                &&& after.freed == before.freed
                &&& after.presenter.spent@ == with_spent(closed, fence)
            }
        },
        _ => {
            &&& after.presenter.outstanding == before.presenter.outstanding
            &&& after.freed == before.freed
            &&& after.presenter.spent@ == with_spent(closed, fence)
        },
    }
    &&& after == (ExternalDmaBufRing {
        presenter: RingPresenter {
            outstanding: after.presenter.outstanding,
            spent: after.presenter.spent,
            ..before.presenter
        },
        freed: after.freed,
        ..before
    })
}

// --- laws --------------------------------------------------------------------

/// A new frame needs its framebuffer and fails without it; what is held is shown
/// again only while it has one, and skipped otherwise.
pub proof fn law_what_is_presented_has_a_framebuffer(fb: Option<u32>)
    ensures
        fb matches Some(fb_id) ==> presented(Present::Fresh, fb) == Ok::<u32, SourceError>(fb_id)
            && presented(Present::Hold, fb) == Ok::<u32, SourceError>(fb_id),
        fb is None ==> presented(Present::Fresh, fb) == Err::<u32, SourceError>(
            SourceError::Failed(Errno { raw: 22 }),
        ) && presented(Present::Hold, fb) == Err::<u32, SourceError>(SourceError::WouldBlock),
        presented(Present::Nothing, fb) == Err::<u32, SourceError>(SourceError::WouldBlock),
{
}

/// A ring is made of every slot's import, and refused by the first that failed.
pub proof fn law_the_first_failed_slot_refuses_a_ring(
    imports: Seq<Result<ImportedFramebuffer, ExternalError>>,
    at: int,
)
    ensures
        0 <= at < imports.len() && imports[at] is Err && (forall|j: int|
            0 <= j < at ==> (#[trigger] imports[j]) is Ok) ==> first_refusal(imports) == Some(
            imports[at]->Err_0,
        ),
        (forall|j: int| 0 <= j < imports.len() ==> (#[trigger] imports[j]) is Ok)
            ==> first_refusal(imports) is None,
    decreases imports.len(),
{
    if imports.len() > 0 {
        let rest = imports.skip(1);
        assert forall|j: int| 0 <= j < rest.len() implies #[trigger] rest[j] == imports[j + 1] by {}
        law_the_first_failed_slot_refuses_a_ring(rest, at - 1);
        if 0 < at < imports.len() && imports[at] is Err && (forall|j: int|
            0 <= j < at ==> (#[trigger] imports[j]) is Ok) {
            assert(imports[0] is Ok);
            assert forall|j: int| 0 <= j < at - 1 implies (#[trigger] rest[j]) is Ok by {
                assert(imports[j + 1] is Ok);
            }
        }
        if forall|j: int| 0 <= j < imports.len() ==> (#[trigger] imports[j]) is Ok {
            assert(imports[0] is Ok);
            assert forall|j: int| 0 <= j < rest.len() implies (#[trigger] rest[j]) is Ok by {
                assert(imports[j + 1] is Ok);
            }
        }
    }
}

/// A released slot is told to a producer that listens, with the fence to wait
/// for, exactly when its token gives a buffer back.
pub proof fn law_a_listening_producer_hears_of_its_slot(
    before: ExternalDmaBufRing,
    after: ExternalDmaBufRing,
    acquired: AcquiredBuffer,
    fence: Option<SyncFence>,
    at: int,
)
    requires
        freed_by(before, after, acquired, fence),
    ensures
        0 <= at < before.presenter.outstanding@.len() && before.presenter.outstanding@[at].token
            == acquired.token && (forall|j: int|
            0 <= j < at ==> (#[trigger] before.presenter.outstanding@[j]).token != acquired.token)
            && acquired.token != 0 && acquired.token != before.presenter.scanning_token ==> {
            let key = before.presenter.outstanding@[at].key;
            &&& before.listening && key <= usize::MAX ==> after.freed@ == before.freed@.push(
                FreedBuffer { buffer: key, fence },
            )
            &&& !before.listening ==> after.freed@ == before.freed@
            &&& after.presenter.outstanding@ == before.presenter.outstanding@.remove(at)
        },
        acquired.token == 0 || acquired.token == before.presenter.scanning_token ==> after.freed@
            == before.freed@ && after.presenter.outstanding@ == before.presenter.outstanding@,
        after.slots@ == before.slots@,
        after.presenter.scanning_key == before.presenter.scanning_key,
{
    if 0 <= at < before.presenter.outstanding@.len() && before.presenter.outstanding@[at].token
        == acquired.token && (forall|j: int|
        0 <= j < at ==> (#[trigger] before.presenter.outstanding@[j]).token != acquired.token) {
        lemma_place_of_token(before.presenter.outstanding@, acquired.token, at);
    }
}

/// A ring comes into being exactly where there is a slot and every slot was
/// imported. It is then idle, holds the imports in order, and waits as long as it
/// was told to.
pub proof fn law_a_ring_starts_idle_with_every_slot(
    format: SourceFormat,
    imports: Seq<Result<ImportedFramebuffer, ExternalError>>,
    fence_deadline: Option<Duration>,
    made: Result<ExternalDmaBufRing, ExternalError>,
    i: int,
)
    requires
        ring_made(format, imports, fence_deadline, made),
    ensures
        made is Ok <==> imports.len() > 0 && forall|k: int|
            0 <= k < imports.len() ==> (#[trigger] imports[k]) is Ok,
        imports.len() == 0 ==> made == Err::<ExternalDmaBufRing, ExternalError>(
            ExternalError::Invalid { reason: InvalidReason::NoSlots },
        ),
        0 <= i < imports.len() && imports[i] is Err && (forall|k: int|
            0 <= k < i ==> (#[trigger] imports[k]) is Ok) ==> made == Err::<
            ExternalDmaBufRing,
            ExternalError,
        >(imports[i]->Err_0),
        made matches Ok(ring) ==> {
            &&& ring.slots@.len() == imports.len()
            &&& 0 <= i < imports.len() ==> imports[i] == Ok::<ImportedFramebuffer, ExternalError>(
                ring.slots@[i],
            )
            &&& ring.format == format
            &&& ring.presenter.pending is None
            &&& ring.presenter.scanning_key is None
            &&& ring.presenter.outstanding@.len() == 0
            &&& ring.presenter.carried_damage@.len() == 0
            &&& !ring.presenter.carried_whole
            &&& ring.presenter.fence_deadline == fence_deadline
            &&& ring.freed@.len() == 0
            &&& !ring.listening
        },
{
    law_the_first_failed_slot_refuses_a_ring(imports, i);
    if exists|k: int| 0 <= k < imports.len() && (#[trigger] imports[k]) is Err {
        let at = lemma_first_failure(imports);
        law_the_first_failed_slot_refuses_a_ring(imports, at);
    }
}

proof fn lemma_first_failure(imports: Seq<Result<ImportedFramebuffer, ExternalError>>) -> (at: int)
    requires
        exists|k: int| 0 <= k < imports.len() && (#[trigger] imports[k]) is Err,
    ensures
        0 <= at < imports.len(),
        imports[at] is Err,
        forall|k: int| 0 <= k < at ==> (#[trigger] imports[k]) is Ok,
    decreases imports.len(),
{
    let rest = imports.drop_last();
    if exists|k: int| 0 <= k < rest.len() && (#[trigger] rest[k]) is Err {
        let at = lemma_first_failure(rest);
        assert(rest[at] == imports[at]);
        assert forall|k: int| 0 <= k < at implies (#[trigger] imports[k]) is Ok by {
            assert(rest[k] == imports[k]);
        }
        at
    } else {
        assert forall|k: int| 0 <= k < rest.len() implies (#[trigger] imports[k]) is Ok by {
            assert(rest[k] == imports[k]);
        }
        imports.len() - 1
    }
}

} // verus!
