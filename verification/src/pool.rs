//! A lazily populated pool of caller-owned DMA-BUFs, keyed by the producer.
//!
//! A buffer is imported the first time it is submitted, and its framebuffer
//! reused on every later submit of the same key.

use core::time::Duration;
use vstd::prelude::*;
use crate::errno::Errno;
use crate::external::{import_outcome, ExternalPlane, ImportedFramebuffer};
use crate::presenter::{
    advanced, capped, cleared_of_frames, lemma_place_of_token, merged, place_of_token, spent_fence,
    token_after, FenceWait, PendingFrame, Present, RingPresenter,
};
use crate::ring::{presented, resolve_framebuffer, FreedBuffer};
use crate::source::{AcquiredBuffer, DamageRect, LayerBufferSource, SourceError, SourceFormat};
use crate::sync::{keep_spent, with_spent, SyncFence};

verus! {

/// One imported buffer.
#[derive(Debug)]
pub struct PoolSlot {
    /// The producer's key.
    pub key: u64,
    /// Its framebuffer.
    pub imported: ImportedFramebuffer,
    /// Whether it belongs to a configuration the producer has moved on from.
    pub retiring: bool,
}

/// Whether a key is cached.
pub open spec fn caches(slots: Seq<PoolSlot>, key: u64) -> bool {
    exists|i: int| 0 <= i < slots.len() && (#[trigger] slots[i]).key == key
}

/// The framebuffer cached under a key.
pub open spec fn cached_fb(slots: Seq<PoolSlot>, key: u64) -> Option<u32>
    decreases slots.len(),
{
    if slots.len() == 0 {
        None
    } else if slots[0].key == key {
        slots[0].imported.fb
    } else {
        cached_fb(slots.skip(1), key)
    }
}

/// The slots that survive a sweep: those not retiring, and those still
/// referenced, in order.
pub open spec fn swept(slots: Seq<PoolSlot>, presenter: RingPresenter) -> Seq<PoolSlot>
    decreases slots.len(),
{
    if slots.len() == 0 {
        Seq::empty()
    } else {
        let before = swept(slots.drop_last(), presenter);
        if !slots.last().retiring || presenter.references(slots.last().key) {
            before.push(slots.last())
        } else {
            before
        }
    }
}

/// The framebuffer of a slot, where it has one, as a list.
pub open spec fn fb_list(slot: PoolSlot) -> Seq<u32> {
    match slot.imported.fb {
        Some(fb) => seq![fb],
        None => Seq::empty(),
    }
}

/// The framebuffers a sweep leaves to be destroyed, in order.
pub open spec fn swept_away(slots: Seq<PoolSlot>, presenter: RingPresenter) -> Seq<u32>
    decreases slots.len(),
{
    if slots.len() == 0 {
        Seq::empty()
    } else {
        let before = swept_away(slots.drop_last(), presenter);
        if !slots.last().retiring || presenter.references(slots.last().key) {
            before
        } else {
            before + fb_list(slots.last())
        }
    }
}

/// The buffers cached once a key has been submitted: those there were, and the
/// key's own import if it was not among them.
pub open spec fn slots_after(slots: Seq<PoolSlot>, key: u64, fb: Option<u32>) -> Seq<PoolSlot> {
    if caches(slots, key) {
        slots
    } else {
        slots.push(PoolSlot { key, imported: ImportedFramebuffer { fb }, retiring: false })
    }
}

/// What submitting a buffer does to a pool, given the framebuffer a new key was
/// imported as.
pub open spec fn submitted(
    before: ExternalDmaBufPool,
    key: u64,
    imported: Option<u32>,
    fence: Option<SyncFence>,
    damage: Seq<DamageRect>,
    after: ExternalDmaBufPool,
    taken: bool,
) -> bool {
    &&& taken == (caches(before.slots@, key) || imported is Some)
    &&& after.presenter.spent@ == with_spent(
        before.presenter.spent@,
        if !taken {
            fence
        } else {
            match before.presenter.pending {
                Some(frame) => frame.fence,
                None => None,
            }
        },
    )
    &&& if taken {
        &&& after.slots@ == slots_after(before.slots@, key, imported)
        &&& after.presenter.pending matches Some(frame) && frame.key == key && frame.fence == fence
            && !frame.signaled && frame.damage@ == capped(damage)
        &&& after == (ExternalDmaBufPool {
            slots: after.slots,
            presenter: RingPresenter {
                pending: after.presenter.pending,
                spent: after.presenter.spent,
                ..before.presenter
            },
            ..before
        })
    } else {
        after == (ExternalDmaBufPool {
            presenter: RingPresenter { spent: after.presenter.spent, ..before.presenter },
            ..before
        })
    }
}

/// A pool of externally allocated DMA-BUFs, imported on first sight.
#[derive(Debug)]
pub struct ExternalDmaBufPool {
    /// The imported buffers.
    pub slots: Vec<PoolSlot>,
    /// What is pending and what is on screen.
    pub presenter: RingPresenter,
    /// The shape future imports have.
    pub format: SourceFormat,
    /// Whether the producer listens for its buffers coming back.
    pub listening: bool,
    /// Buffers that left the screen, for the producer to be told of.
    pub freed: Vec<FreedBuffer>,
    /// Framebuffers no longer needed, to be destroyed.
    pub dropped: Vec<u32>,
}

impl ExternalDmaBufPool {
    /// No key is cached twice, and the presenter is consistent.
    pub open spec fn well_formed(&self) -> bool {
        &&& self.presenter.well_formed()
        &&& forall|i: int, j: int|
            0 <= i < j < self.slots@.len() ==> (#[trigger] self.slots@[i]).key
                != (#[trigger] self.slots@[j]).key
    }

    /// An empty pool.
    pub fn new(format: SourceFormat, fence_deadline: Option<Duration>) -> (pool: Self)
        ensures
            pool.well_formed(),
            pool.slots@.len() == 0,
            pool.format == format,
            !pool.listening,
            pool.freed@.len() == 0,
            pool.presenter.pending is None,
            pool.presenter.scanning_key is None,
            pool.presenter.scanning_token == 0,
            pool.presenter.next_token == 0,
            pool.presenter.outstanding@.len() == 0,
            pool.presenter.carried_damage@.len() == 0,
            !pool.presenter.carried_whole,
            pool.presenter.spent@.len() == 0,
            pool.dropped@.len() == 0,
            pool.presenter.fence_deadline == fence_deadline,
    {
        ExternalDmaBufPool {
            slots: Vec::new(),
            presenter: RingPresenter::new(fence_deadline),
            format,
            listening: false,
            freed: Vec::new(),
            dropped: Vec::new(),
        }
    }

    /// The framebuffers to destroy that came up since the last call.
    pub fn take_dropped(&mut self) -> (dropped: Vec<u32>)
        ensures
            dropped == old(self).dropped,
            final(self).dropped@.len() == 0,
            *final(self) == (ExternalDmaBufPool { dropped: final(self).dropped, ..*old(self) }),
    {
        let mut dropped: Vec<u32> = Vec::new();
        core::mem::swap(&mut dropped, &mut self.dropped);
        dropped
    }

    /// Start telling the producer of buffers that leave the screen.
    pub fn set_on_release(&mut self)
        ensures
            *final(self) == (ExternalDmaBufPool { listening: true, ..*old(self) }),
    {
        self.listening = true;
    }

    /// The buffers that left the screen since the last call, oldest first.
    pub fn take_freed(&mut self) -> (freed: Vec<FreedBuffer>)
        ensures
            freed == old(self).freed,
            final(self).freed@.len() == 0,
            *final(self) == (ExternalDmaBufPool { freed: final(self).freed, ..*old(self) }),
    {
        let mut freed: Vec<FreedBuffer> = Vec::new();
        core::mem::swap(&mut freed, &mut self.freed);
        freed
    }

    /// The fences done with since the last call, for their descriptors to be
    /// closed.
    pub fn take_spent(&mut self) -> (spent: Vec<SyncFence>)
        ensures
            old(self).presenter.well_formed() ==> final(self).presenter.well_formed(),
            spent == old(self).presenter.spent,
            final(self).presenter.spent@.len() == 0,
            *final(self) == (ExternalDmaBufPool {
                presenter: RingPresenter {
                    spent: final(self).presenter.spent,
                    ..old(self).presenter
                },
                ..*old(self)
            }),
    {
        self.presenter.take_spent()
    }

    /// Whether a key has to be imported before it can be submitted.
    pub fn needs_import(&self, key: u64) -> (needed: bool)
        ensures
            needed == !caches(self.slots@, key),
    {
        let mut i: usize = 0;
        while i < self.slots.len()
            invariant
                0 <= i <= self.slots@.len(),
                forall|j: int| 0 <= j < i ==> (#[trigger] self.slots@[j]).key != key,
            decreases self.slots@.len() - i,
        {
            if self.slots[i].key == key {
                return false;
            }
            i += 1;
        }
        true
    }

    /// Hand in the buffer to scan out next. Returns whether the frame was taken.
    ///
    /// A key not seen before is imported under the pool's format: `imported` is
    /// what the kernel made of its planes. A known key ignores both. A new key
    /// whose import failed skips the frame, and the last good buffer stays up. A
    /// fence that goes no further is done with.
    pub fn submit(
        &mut self,
        key: u64,
        planes: &[ExternalPlane],
        imported: Result<u32, Errno>,
        fence: Option<SyncFence>,
        damage: &[DamageRect],
    ) -> (taken: bool)
        ensures
            old(self).well_formed() ==> final(self).well_formed(),
            submitted(
                *old(self),
                key,
                match import_outcome(old(self).format, planes@, imported) {
                    Ok(framebuffer) => framebuffer.fb,
                    Err(_) => None,
                },
                fence,
                damage@,
                *final(self),
                taken,
            ),
    {
        let mut fb: Option<u32> = None;
        if let Ok(framebuffer) = ImportedFramebuffer::import(self.format, planes, imported) {
            fb = framebuffer.fb_id();
        }
        self.submit_imported(key, fb, fence, damage)
    }

    /// Hand in the buffer to scan out next, given the framebuffer a new key was
    /// imported as. Returns whether the frame was taken.
    pub fn submit_imported(
        &mut self,
        key: u64,
        imported: Option<u32>,
        fence: Option<SyncFence>,
        damage: &[DamageRect],
    ) -> (taken: bool)
        ensures
            old(self).well_formed() ==> final(self).well_formed(),
            submitted(*old(self), key, imported, fence, damage@, *final(self), taken),
    {
        if self.needs_import(key) {
            match imported {
                Some(fb_id) => {
                    let ghost before = self.slots@;
                    self.slots.push(
                        PoolSlot {
                            key,
                            imported: ImportedFramebuffer { fb: Some(fb_id) },
                            retiring: false,
                        },
                    );
                    assert forall|i: int| 0 <= i < before.len() implies (#[trigger] before[i]).key
                        != key by {}
                },
                None => {
                    keep_spent(&mut self.presenter.spent, fence);
                    return false;
                },
            }
        }
        let displaced: Option<SyncFence> = self.presenter.submit(key, fence, damage);
        keep_spent(&mut self.presenter.spent, displaced);
        true
    }

    /// How many buffers are currently imported.
    pub fn cached_count(&self) -> (count: usize)
        ensures
            count == self.slots@.len(),
    {
        self.slots.len()
    }

    /// The wait that must come before the next acquire, if there is one.
    pub fn fence_wait(&self) -> (wait: Option<FenceWait>)
        ensures
            wait is Some == (self.presenter.fence_deadline is Some && self.presenter.pending is Some
                && self.presenter.pending->0.fence is Some),
            wait is Some ==> wait->0.fd == self.presenter.pending->0.fence->0.fd && wait->0.nanos
                == crate::presenter::wait_nanos(self.presenter.fence_deadline->0),
    {
        self.presenter.fence_wait()
    }

    /// Record how that wait ended.
    pub fn note_fence_wait(&mut self, signaled: bool)
        ensures
            old(self).well_formed() ==> final(self).well_formed(),
            match old(self).presenter.pending {
                Some(frame) => final(self).presenter.pending == Some(
                    PendingFrame { signaled, ..frame },
                ),
                None => final(self).presenter.pending is None,
            },
            *final(self) == (ExternalDmaBufPool {
                presenter: RingPresenter {
                    pending: final(self).presenter.pending,
                    ..old(self).presenter
                },
                ..*old(self)
            }),
    {
        self.presenter.note_fence_wait(signaled);
    }

    /// Move to a new buffer generation, such as a decoder resolution change.
    ///
    /// Every buffer cached now is marked for retirement, and goes once no commit
    /// still references it.
    pub fn reset_generation(&mut self, format: SourceFormat)
        ensures
            old(self).well_formed() ==> final(self).well_formed(),
            final(self).format == format,
            final(self).slots@ == old(self).slots@.map_values(
                |slot: PoolSlot| PoolSlot { retiring: true, ..slot },
            ),
            *final(self) == (ExternalDmaBufPool {
                format,
                slots: final(self).slots,
                ..*old(self)
            }),
    {
        self.format = format;
        let ghost before = self.slots@;
        let mut i: usize = 0;
        while i < self.slots.len()
            invariant
                0 <= i <= before.len(),
                before == old(self).slots@,
                self.slots@.len() == before.len(),
                forall|j: int|
                    0 <= j < before.len() ==> #[trigger] self.slots@[j] == if j < i {
                        PoolSlot { retiring: true, ..before[j] }
                    } else {
                        before[j]
                    },
                *self == (ExternalDmaBufPool { format, slots: self.slots, ..*old(self) }),
            decreases before.len() - i,
        {
            self.slots[i].retiring = true;
            i += 1;
        }
        assert(self.slots@ =~= before.map_values(
            |slot: PoolSlot| PoolSlot { retiring: true, ..slot },
        ));
        assert forall|a: int, b: int|
            old(self).well_formed() && 0 <= a < b < self.slots@.len() implies (
        #[trigger] self.slots@[a]).key != (#[trigger] self.slots@[b]).key by {
            assert(before[a].key != before[b].key);
        }
    }

    /// Drop retiring buffers no commit still holds.
    fn sweep(&mut self)
        ensures
            old(self).well_formed() ==> final(self).well_formed(),
            final(self).slots@ == swept(old(self).slots@, old(self).presenter),
            final(self).dropped@ == old(self).dropped@ + swept_away(
                old(self).slots@,
                old(self).presenter,
            ),
            *final(self) == (ExternalDmaBufPool {
                slots: final(self).slots,
                dropped: final(self).dropped,
                ..*old(self)
            }),
    {
        let ghost all = self.slots@;
        let ghost done: int = 0;
        let mut rest: Vec<PoolSlot> = Vec::new();
        core::mem::swap(&mut rest, &mut self.slots);
        let mut kept: Vec<PoolSlot> = Vec::new();
        assert(self.dropped@ =~= old(self).dropped@ + swept_away(
            all.take(0),
            self.presenter,
        ));
        while rest.len() > 0
            invariant
                self.dropped@ == old(self).dropped@ + swept_away(all.take(done), self.presenter),
                0 <= done <= all.len(),
                all == old(self).slots@,
                rest@ == all.skip(done),
                kept@ == swept(all.take(done), self.presenter),
                self.presenter == old(self).presenter,
                *self == (ExternalDmaBufPool {
                    slots: self.slots,
                    dropped: self.dropped,
                    ..*old(self)
                }),
            decreases rest@.len(),
        {
            let slot = rest.remove(0);
            let ghost gone = self.dropped@;
            proof {
                assert(slot == all[done]);
                assert(all.take(done + 1).drop_last() =~= all.take(done));
                assert(rest@ =~= all.skip(done + 1));
                done = done + 1;
            }
            if !slot.retiring || self.presenter.is_referenced(slot.key) {
                kept.push(slot);
            } else {
                if let Some(fb) = slot.imported.fb {
                    self.dropped.push(fb);
                }
                assert(self.dropped@ =~= gone + fb_list(slot));
                assert(self.dropped@ =~= old(self).dropped@ + swept_away(
                    all.take(done),
                    self.presenter,
                ));
            }
        }
        assert(all.take(done) =~= all);
        self.slots = kept;
        proof {
            if old(self).well_formed() {
                lemma_swept_keeps_keys_apart(all, self.presenter);
            }
        }
    }

    fn fb_of(&self, key: u64) -> (fb: Option<u32>)
        ensures
            fb == cached_fb(self.slots@, key),
    {
        let mut i: usize = 0;
        assert(self.slots@.skip(0) =~= self.slots@);
        while i < self.slots.len()
            invariant
                0 <= i <= self.slots@.len(),
                cached_fb(self.slots@, key) == cached_fb(self.slots@.skip(i as int), key),
            decreases self.slots@.len() - i,
        {
            if self.slots[i].key == key {
                return self.slots[i].imported.fb_id();
            }
            assert(self.slots@.skip(i as int).skip(1) =~= self.slots@.skip(i + 1));
            i += 1;
        }
        None
    }
}

proof fn lemma_swept_is_sublist(slots: Seq<PoolSlot>, presenter: RingPresenter)
    ensures
        forall|i: int|
            0 <= i < swept(slots, presenter).len() ==> exists|j: int|
                0 <= j < slots.len() && slots[j] == #[trigger] swept(slots, presenter)[i],
    decreases slots.len(),
{
    if slots.len() > 0 {
        let rest = slots.drop_last();
        lemma_swept_is_sublist(rest, presenter);
        let before = swept(rest, presenter);
        let after = swept(slots, presenter);
        assert forall|i: int| 0 <= i < after.len() implies exists|j: int|
            0 <= j < slots.len() && slots[j] == #[trigger] after[i] by {
            if i < before.len() {
                assert(after[i] == before[i]);
                let j = choose|j: int| 0 <= j < rest.len() && rest[j] == before[i];
                assert(slots[j] == after[i]);
            } else {
                assert(slots[slots.len() - 1] == after[i]);
            }
        }
    }
}

proof fn lemma_swept_keeps_keys_apart(slots: Seq<PoolSlot>, presenter: RingPresenter)
    requires
        forall|i: int, j: int|
            0 <= i < j < slots.len() ==> (#[trigger] slots[i]).key != (#[trigger] slots[j]).key,
    ensures
        forall|i: int, j: int|
            0 <= i < j < swept(slots, presenter).len() ==> (#[trigger] swept(
                slots,
                presenter,
            )[i]).key != (#[trigger] swept(slots, presenter)[j]).key,
    decreases slots.len(),
{
    if slots.len() > 0 {
        let rest = slots.drop_last();
        assert forall|i: int, j: int| 0 <= i < j < rest.len() implies (#[trigger] rest[i]).key != (
        #[trigger] rest[j]).key by {
            assert(rest[i] == slots[i] && rest[j] == slots[j]);
        }
        lemma_swept_keeps_keys_apart(rest, presenter);
        lemma_swept_is_sublist(rest, presenter);
        let before = swept(rest, presenter);
        let after = swept(slots, presenter);
        assert forall|i: int, j: int| 0 <= i < j < after.len() implies (#[trigger] after[i]).key != (
        #[trigger] after[j]).key by {
            assert(after[i] == before[i]);
            if j < before.len() {
                assert(after[j] == before[j]);
            } else {
                let k = choose|k: int| 0 <= k < rest.len() && rest[k] == before[i];
                assert(slots[k].key != slots[slots.len() - 1].key);
            }
        }
    }
}

impl LayerBufferSource for ExternalDmaBufPool {
    /// Present whatever the presenter decides, then drop what has retired.
    fn acquire(&mut self) -> (acquired: Result<AcquiredBuffer, SourceError>)
        ensures
            old(self).well_formed() ==> final(self).well_formed(),
            final(self).slots@ == swept(old(self).slots@, final(self).presenter),
            final(self).dropped@ == old(self).dropped@ + swept_away(
                old(self).slots@,
                final(self).presenter,
            ),
            advanced(old(self).presenter, final(self).presenter),
            final(self).presenter.spent@ == with_spent(
                old(self).presenter.spent@,
                spent_fence(old(self).presenter, acquired is Ok),
            ),
            final(self).format == old(self).format,
            final(self).listening == old(self).listening,
            final(self).freed == old(self).freed,
            if old(self).presenter.pending_ready() {
                let frame = old(self).presenter.pending->0;
                match presented(Present::Fresh, cached_fb(old(self).slots@, frame.key)) {
                    Ok(fb_id) => acquired matches Ok(buffer) && buffer.fb_id == fb_id
                        && buffer.token == token_after(old(self).presenter.next_token)
                        && buffer.acquire_fence == (if old(
                        self,
                    ).presenter.fence_deadline is None {
                        frame.fence
                    } else {
                        None
                    }) && buffer.damage@ == merged(
                        old(self).presenter.carried_damage@,
                        old(self).presenter.carried_whole,
                        frame.damage@,
                    ),
                    Err(error) => acquired == Err::<AcquiredBuffer, SourceError>(error),
                }
            } else {
                match old(self).presenter.scanning_key {
                    Some(key) => match presented(Present::Hold, cached_fb(old(self).slots@, key)) {
                        Ok(fb_id) => acquired matches Ok(buffer) && buffer.fb_id == fb_id
                            && buffer.token == old(self).presenter.scanning_token
                            && buffer.acquire_fence is None && buffer.damage@.len() == 0,
                        Err(error) => acquired == Err::<AcquiredBuffer, SourceError>(error),
                    },
                    None => acquired == Err::<AcquiredBuffer, SourceError>(SourceError::WouldBlock),
                }
            },
    {
        let decision = self.presenter.acquire();
        let resolved: Result<u32, SourceError> = match decision.kind {
            Present::Nothing => Err(SourceError::WouldBlock),
            kind => resolve_framebuffer(kind, self.fb_of(decision.key)),
        };
        let mut fence: Option<SyncFence> = decision.fence;
        if resolved.is_err() {
            keep_spent(&mut self.presenter.spent, fence);
            fence = None;
        }
        // After the decision, so a buffer this frame just took survives.
        self.sweep();
        match resolved {
            Ok(fb_id) => Ok(
                AcquiredBuffer {
                    fb_id,
                    token: decision.token,
                    acquire_fence: fence,
                    damage: decision.damage,
                },
            ),
            Err(error) => Err(error),
        }
    }

    fn release(&mut self, acquired: AcquiredBuffer)
        ensures
            old(self).well_formed() ==> final(self).well_formed(),
            pool_freed_by(*old(self), *final(self), acquired, None),
    {
        self.release_with_fence(acquired, None);
    }

    /// Retire the buffer's token, tell a listening producer of its key, and drop
    /// what has retired.
    fn release_with_fence(&mut self, acquired: AcquiredBuffer, release_fence: Option<SyncFence>)
        ensures
            old(self).well_formed() ==> final(self).well_formed(),
            pool_freed_by(*old(self), *final(self), acquired, release_fence),
    {
        keep_spent(&mut self.presenter.spent, acquired.acquire_fence);
        match self.presenter.release(acquired.token) {
            Some(key) => {
                if self.listening {
                    self.freed.push(FreedBuffer { buffer: key, fence: release_fence });
                } else {
                    keep_spent(&mut self.presenter.spent, release_fence);
                }
                self.sweep();
            },
            None => {
                keep_spent(&mut self.presenter.spent, release_fence);
            },
        }
    }

    fn wants_release_fence(&self) -> (wants: bool)
        ensures
            wants == self.listening,
    {
        self.listening
    }

    fn has_fresh_content(&self) -> (fresh: bool)
        ensures
            fresh == self.presenter.pending is Some,
    {
        self.presenter.has_fresh_frame()
    }

    fn format(&self) -> (format: SourceFormat)
        ensures
            format == self.format,
    {
        self.format
    }

    /// Drop every import and everything presented: the descriptor they belong to
    /// is revoked, and the producer's next submit imports afresh.
    fn on_session_paused(&mut self)
        ensures
            final(self).well_formed(),
            final(self).slots@.len() == 0,
            cleared_of_frames(old(self).presenter, final(self).presenter),
            final(self).listening == old(self).listening,
            final(self).format == old(self).format,
            final(self).freed == old(self).freed,
            final(self).dropped == old(self).dropped,
    {
        self.slots.clear();
        self.presenter.reset();
    }
}

/// What releasing a buffer does to a pool: its token is retired, a listening
/// producer is told of its key, and what has retired is dropped. Fences that go
/// no further are done with.
pub open spec fn pool_freed_by(
    before: ExternalDmaBufPool,
    after: ExternalDmaBufPool,
    acquired: AcquiredBuffer,
    fence: Option<SyncFence>,
) -> bool {
    let closed = with_spent(before.presenter.spent@, acquired.acquire_fence);
    &&& match place_of_token(before.presenter.outstanding@, acquired.token) {
        Some(place) if acquired.token != 0 && acquired.token != before.presenter.scanning_token => {
            let key = before.presenter.outstanding@[place].key;
            &&& after.presenter.outstanding@ == before.presenter.outstanding@.remove(place)
            &&& after.slots@ == swept(before.slots@, after.presenter)
            &&& after.dropped@ == before.dropped@ + swept_away(before.slots@, after.presenter)
            &&& if before.listening {
                &&& after.freed@ == before.freed@.push(FreedBuffer { buffer: key, fence })
                &&& after.presenter.spent@ == closed
            } else {
                &&& after.freed == before.freed
                &&& after.presenter.spent@ == with_spent(closed, fence)
            }
        },
        _ => {
            &&& after.presenter.outstanding == before.presenter.outstanding
            &&& after.slots == before.slots
            &&& after.dropped == before.dropped
            &&& after.freed == before.freed
            &&& after.presenter.spent@ == with_spent(closed, fence)
        },
    }
    &&& after == (ExternalDmaBufPool {
        slots: after.slots,
        presenter: RingPresenter {
            outstanding: after.presenter.outstanding,
            spent: after.presenter.spent,
            ..before.presenter
        },
        freed: after.freed,
        dropped: after.dropped,
        ..before
    })
}

// --- laws --------------------------------------------------------------------

/// A sweep never tears down a buffer a commit still references, nor one that is
/// not retiring, and it leaves nothing else behind.
pub proof fn law_sweep_keeps_what_is_referenced(
    slots: Seq<PoolSlot>,
    presenter: RingPresenter,
    slot: PoolSlot,
)
    ensures
        swept(slots, presenter).contains(slot) <==> slots.contains(slot) && (!slot.retiring
            || presenter.references(slot.key)),
    decreases slots.len(),
{
    if slots.len() > 0 {
        let rest = slots.drop_last();
        law_sweep_keeps_what_is_referenced(rest, presenter, slot);
        let before = swept(rest, presenter);
        let after = swept(slots, presenter);
        if slots.contains(slot) && slots.last() != slot {
            let k = choose|k: int| 0 <= k < slots.len() && slots[k] == slot;
            assert(rest[k] == slot);
        }
        if rest.contains(slot) {
            let k = choose|k: int| 0 <= k < rest.len() && rest[k] == slot;
            assert(slots[k] == slot);
        }
        if slots.last() == slot {
            assert(slots[slots.len() - 1] == slot);
        }
        if after.len() > before.len() {
            assert(after[before.len() as int] == slots.last());
            if after.contains(slot) && slots.last() != slot {
                let k = choose|k: int| 0 <= k < after.len() && after[k] == slot;
                assert(before[k] == slot);
            }
            if before.contains(slot) {
                let k = choose|k: int| 0 <= k < before.len() && before[k] == slot;
                assert(after[k] == slot);
            }
        }
    }
}

/// A key is imported once: submitting a key already cached imports nothing and
/// is taken, whatever comes of another import, and what a new key was imported
/// as stays its framebuffer.
pub proof fn law_known_keys_are_not_imported(
    before: ExternalDmaBufPool,
    key: u64,
    imported: Option<u32>,
    fence: Option<SyncFence>,
    damage: Seq<DamageRect>,
    after: ExternalDmaBufPool,
    taken: bool,
)
    requires
        submitted(before, key, imported, fence, damage, after, taken),
    ensures
        caches(before.slots@, key) ==> taken && after.slots@ == before.slots@,
        !caches(before.slots@, key) && imported is Some ==> taken && cached_fb(after.slots@, key)
            == imported,
        taken ==> caches(after.slots@, key),
        !taken ==> after.slots@ == before.slots@,
{
    if taken && !caches(before.slots@, key) {
        lemma_pushed_is_cached(before.slots@, key, imported);
    }
}

proof fn lemma_pushed_is_cached(slots: Seq<PoolSlot>, key: u64, fb: Option<u32>)
    requires
        !caches(slots, key),
    ensures
        caches(slots_after(slots, key, fb), key),
        cached_fb(slots_after(slots, key, fb), key) == fb,
    decreases slots.len(),
{
    let after = slots_after(slots, key, fb);
    assert(after[slots.len() as int].key == key);
    if slots.len() > 0 {
        let rest = slots.skip(1);
        assert(!caches(rest, key)) by {
            if caches(rest, key) {
                let i = choose|i: int| 0 <= i < rest.len() && (#[trigger] rest[i]).key == key;
                assert(slots[i + 1].key == key);
            }
        }
        lemma_pushed_is_cached(rest, key, fb);
        assert(after.skip(1) =~= slots_after(rest, key, fb));
        assert(slots[0].key != key);
    }
}

/// A key's framebuffer is that of the slot that bears the key.
pub proof fn law_a_key_names_its_framebuffer(slots: Seq<PoolSlot>, key: u64, at: int)
    ensures
        0 <= at < slots.len() && slots[at].key == key && (forall|j: int|
            0 <= j < at ==> (#[trigger] slots[j]).key != key) ==> cached_fb(slots, key)
            == slots[at].imported.fb,
        (forall|j: int| 0 <= j < slots.len() ==> (#[trigger] slots[j]).key != key) ==> cached_fb(
            slots,
            key,
        ) is None && !caches(slots, key),
    decreases slots.len(),
{
    if slots.len() > 0 {
        let rest = slots.skip(1);
        assert forall|j: int| 0 <= j < rest.len() implies #[trigger] rest[j] == slots[j + 1] by {}
        if slots[0].key == key {
            if 0 < at < slots.len() && (forall|j: int|
                0 <= j < at ==> (#[trigger] slots[j]).key != key) {
                assert(slots[0].key != key);
            }
        } else {
            law_a_key_names_its_framebuffer(rest, key, at - 1);
            if 0 <= at < slots.len() && slots[at].key == key && (forall|j: int|
                0 <= j < at ==> (#[trigger] slots[j]).key != key) {
                assert forall|j: int| 0 <= j < at - 1 implies (#[trigger] rest[j]).key != key by {
                    assert(slots[j + 1].key != key);
                }
            }
        }
    }
}

/// The framebuffers a sweep leaves to be destroyed are those of the slots it
/// drops, and no other.
pub proof fn law_a_sweep_destroys_what_it_drops(
    slots: Seq<PoolSlot>,
    presenter: RingPresenter,
    fb: u32,
)
    ensures
        swept_away(slots, presenter).contains(fb) <==> exists|i: int|
            0 <= i < slots.len() && (#[trigger] slots[i]).retiring && !presenter.references(
                slots[i].key,
            ) && slots[i].imported.fb == Some(fb),
    decreases slots.len(),
{
    if slots.len() > 0 {
        let rest = slots.drop_last();
        let before = swept_away(rest, presenter);
        let after = swept_away(slots, presenter);
        let last = slots.last();
        law_a_sweep_destroys_what_it_drops(rest, presenter, fb);
        assert(slots[slots.len() - 1] == last);
        if before.contains(fb) {
            let k = choose|k: int| 0 <= k < before.len() && before[k] == fb;
            assert(after[k] == fb);
        }
        if after.contains(fb) && !before.contains(fb) {
            let k = choose|k: int| 0 <= k < after.len() && after[k] == fb;
            if k < before.len() {
                assert(before[k] == fb);
            }
            assert(last.imported.fb == Some(fb));
        }
        if last.retiring && !presenter.references(last.key) && last.imported.fb == Some(fb) {
            assert(after[before.len() as int] == fb);
        }
        if exists|i: int|
            0 <= i < rest.len() && (#[trigger] rest[i]).retiring && !presenter.references(
                rest[i].key,
            ) && rest[i].imported.fb == Some(fb) {
            let i = choose|i: int|
                0 <= i < rest.len() && (#[trigger] rest[i]).retiring && !presenter.references(
                    rest[i].key,
                ) && rest[i].imported.fb == Some(fb);
            assert(slots[i] == rest[i]);
        }
        if exists|i: int|
            0 <= i < slots.len() && (#[trigger] slots[i]).retiring && !presenter.references(
                slots[i].key,
            ) && slots[i].imported.fb == Some(fb) {
            let i = choose|i: int|
                0 <= i < slots.len() && (#[trigger] slots[i]).retiring && !presenter.references(
                    slots[i].key,
                ) && slots[i].imported.fb == Some(fb);
            if i < rest.len() {
                assert(rest[i] == slots[i]);
            }
        }
    }
}

/// Submitting queues the frame under its key, as it was given; the frame it
/// replaces gives its fence up. A new key that could not be imported changes
/// nothing that is shown.
pub proof fn law_a_submitted_buffer_is_queued(
    before: ExternalDmaBufPool,
    key: u64,
    imported: Option<u32>,
    fence: Option<SyncFence>,
    damage: Seq<DamageRect>,
    after: ExternalDmaBufPool,
    taken: bool,
)
    requires
        submitted(before, key, imported, fence, damage, after, taken),
    ensures
        taken <==> imported is Some || exists|i: int|
            0 <= i < before.slots@.len() && (#[trigger] before.slots@[i]).key == key,
        taken ==> after.presenter.pending is Some && after.presenter.pending->0.key == key
            && after.presenter.pending->0.fence == fence && !after.presenter.pending->0.signaled
            && after.presenter.pending->0.damage@ == if damage.len() <= 16 {
            damage
        } else {
            Seq::empty()
        },
        !taken ==> after.presenter.pending == before.presenter.pending && after.slots@
            == before.slots@,
        after.presenter.scanning_key == before.presenter.scanning_key,
        after.presenter.outstanding@ == before.presenter.outstanding@,
        after.format == before.format,
        after.freed@ == before.freed@,
        after.dropped@ == before.dropped@,
{
}

/// A released buffer is told to a producer that listens, with the fence to wait
/// for, exactly when its token gives a buffer back.
pub proof fn law_a_listening_producer_hears_of_its_buffer(
    before: ExternalDmaBufPool,
    after: ExternalDmaBufPool,
    acquired: AcquiredBuffer,
    fence: Option<SyncFence>,
    at: int,
)
    requires
        pool_freed_by(before, after, acquired, fence),
    ensures
        0 <= at < before.presenter.outstanding@.len() && before.presenter.outstanding@[at].token
            == acquired.token && (forall|j: int|
            0 <= j < at ==> (#[trigger] before.presenter.outstanding@[j]).token != acquired.token)
            && acquired.token != 0 && acquired.token != before.presenter.scanning_token ==> {
            let key = before.presenter.outstanding@[at].key;
            &&& before.listening ==> after.freed@ == before.freed@.push(
                FreedBuffer { buffer: key, fence },
            )
            &&& !before.listening ==> after.freed@ == before.freed@
            &&& after.presenter.outstanding@ == before.presenter.outstanding@.remove(at)
        },
        acquired.token == 0 || acquired.token == before.presenter.scanning_token ==> after.freed@
            == before.freed@ && after.slots@ == before.slots@,
        after.presenter.scanning_key == before.presenter.scanning_key,
{
    if 0 <= at < before.presenter.outstanding@.len() && before.presenter.outstanding@[at].token
        == acquired.token && (forall|j: int|
        0 <= j < at ==> (#[trigger] before.presenter.outstanding@[j]).token != acquired.token) {
        lemma_place_of_token(before.presenter.outstanding@, acquired.token, at);
    }
}

/// A key is cached once: a known one changes nothing, and a new one goes behind
/// the rest with its own framebuffer, in use.
pub proof fn law_a_new_key_is_cached_once(
    slots: Seq<PoolSlot>,
    key: u64,
    fb: Option<u32>,
    i: int,
)
    ensures
        (exists|k: int| 0 <= k < slots.len() && (#[trigger] slots[k]).key == key) ==> slots_after(
            slots,
            key,
            fb,
        ) == slots,
        (forall|k: int| 0 <= k < slots.len() ==> (#[trigger] slots[k]).key != key) ==> {
            let after = slots_after(slots, key, fb);
            &&& after.len() == slots.len() + 1
            &&& 0 <= i < slots.len() ==> after[i] == slots[i]
            &&& after[slots.len() as int].key == key
            &&& after[slots.len() as int].imported.fb == fb
            &&& !after[slots.len() as int].retiring
        },
{
}

} // verus!
