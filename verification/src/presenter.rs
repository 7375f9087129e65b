//! The presentation state machine shared by the externally-fed sources.
//!
//! Tracks which buffer is pending and which is on screen, hands out the tokens
//! the deferred-release protocol keys on, carries damage forward across frames
//! it drops, and enforces the optional fence deadline. It owns no buffer
//! storage: a buffer is only a key.

use core::time::Duration;
use vstd::prelude::*;
use crate::source::DamageRect;
use crate::sync::{keep_spent, with_spent, SyncFence};
use crate::time::duration_nanos;

verus! {

/// Opaque buffer identity: a slot index, or a pool's own key.
pub type SlotKey = u64;

/// How many damage rectangles a frame can carry.
///
/// More than that degrades to whole-frame rather than truncating: a short list
/// would under-report the dirty area.
pub const MAX_DAMAGE: usize = 16;

/// What the commit thread should do this vblank.
#[derive(Debug, Clone, Copy, PartialEq, Eq, Structural)]
pub enum Present {
    /// Nothing to present.
    Nothing,
    /// A newly acquired frame, under a new token.
    Fresh,
    /// Re-present the buffer already on screen, under its existing token.
    Hold,
}

/// The commit thread's decision.
#[derive(Debug)]
pub struct Acquired {
    /// What to do.
    pub kind: Present,
    /// Which buffer, for `Fresh` and `Hold`.
    pub key: SlotKey,
    /// The token the release protocol keys on.
    pub token: u64,
    /// The producer's render fence. `Fresh` only, and never set when a deadline
    /// is configured.
    pub fence: Option<SyncFence>,
    /// Dirty regions, `Fresh` only. Empty means whole-frame.
    pub damage: Vec<DamageRect>,
}

/// A frame handed in and not yet picked up.
#[derive(Debug)]
pub struct PendingFrame {
    /// The buffer.
    pub key: SlotKey,
    /// The producer's render fence.
    pub fence: Option<SyncFence>,
    /// Whether the fence has been waited for and signaled in time.
    pub signaled: bool,
    /// Dirty regions. Empty means whole-frame.
    pub damage: Vec<DamageRect>,
}

/// A wait a configured deadline asks for before the next acquire.
#[derive(Debug, Clone, Copy, PartialEq, Eq, Structural)]
pub struct FenceWait {
    /// The fence's descriptor, `None` for a fence that holds none.
    pub fd: Option<i32>,
    /// How long to wait, in nanoseconds.
    pub nanos: u128,
}

/// A token handed out, with the buffer it names.
#[derive(Debug, Clone, Copy, PartialEq, Eq, Structural)]
pub struct Outstanding {
    /// The token.
    pub token: u64,
    /// The buffer.
    pub key: SlotKey,
}

/// Tracks pending, scanning and in-flight buffers across frames.
#[derive(Debug)]
pub struct RingPresenter {
    /// The frame waiting to be picked up.
    pub pending: Option<PendingFrame>,
    /// The buffer on screen.
    pub scanning_key: Option<SlotKey>,
    /// The token it was presented under, zero before the first.
    pub scanning_token: u64,
    /// The last token handed out.
    pub next_token: u64,
    /// Tokens handed out and not yet retired, oldest first.
    pub outstanding: Vec<Outstanding>,
    /// How long a frame may wait for its fence, if that is bounded.
    pub fence_deadline: Option<Duration>,
    /// Damage of frames dropped on a deadline miss, owed to the next frame.
    pub carried_damage: Vec<DamageRect>,
    /// Whether what is owed is the whole frame.
    pub carried_whole: bool,
    /// Fences that are done with, for their descriptors to be closed.
    pub spent: Vec<SyncFence>,
}

fn copy_damage(damage: &[DamageRect]) -> (copy: Vec<DamageRect>)
    ensures
        copy@ == damage@,
{
    let mut copy: Vec<DamageRect> = Vec::new();
    let mut i: usize = 0;
    while i < damage.len()
        invariant
            0 <= i <= damage@.len(),
            copy@ == damage@.take(i as int),
        decreases damage@.len() - i,
    {
        copy.push(damage[i]);
        assert(copy@ =~= damage@.take(i + 1));
        i += 1;
    }
    assert(copy@ =~= damage@);
    copy
}

/// A damage list as a frame can carry it: whole-frame if it is too long.
pub open spec fn capped(damage: Seq<DamageRect>) -> Seq<DamageRect> {
    if damage.len() <= MAX_DAMAGE {
        damage
    } else {
        Seq::empty()
    }
}

/// The damage of a frame that also owes what earlier ones did. Whole-frame if
/// either is, or if the two together are too many.
pub open spec fn merged(
    carried: Seq<DamageRect>,
    carried_whole: bool,
    damage: Seq<DamageRect>,
) -> Seq<DamageRect> {
    if carried_whole || damage.len() == 0 || carried.len() + damage.len() > MAX_DAMAGE {
        Seq::empty()
    } else {
        carried + damage
    }
}

/// The token after one, never the zero sentinel.
pub open spec fn token_after(token: u64) -> u64 {
    if token == u64::MAX {
        1
    } else {
        (token + 1) as u64
    }
}

/// How long a deadline waits, in nanoseconds. A wait polls in whole
/// milliseconds, so anything shorter is rounded up to one; zero stays zero.
pub open spec fn wait_nanos(deadline: Duration) -> nat {
    if duration_nanos(deadline) == 0 {
        0
    } else if duration_nanos(deadline) < 1_000_000 {
        1_000_000
    } else {
        duration_nanos(deadline)
    }
}

/// The first outstanding entry with a token.
pub open spec fn place_of_token(outstanding: Seq<Outstanding>, token: u64) -> Option<int>
    decreases outstanding.len(),
{
    if outstanding.len() == 0 {
        None
    } else if outstanding[0].token == token {
        Some(0)
    } else {
        match place_of_token(outstanding.skip(1), token) {
            Some(place) => Some(place + 1),
            None => None,
        }
    }
}

pub(crate) proof fn lemma_place_of_token(outstanding: Seq<Outstanding>, token: u64, upto: int)
    requires
        0 <= upto <= outstanding.len(),
        forall|i: int| 0 <= i < upto ==> (#[trigger] outstanding[i]).token != token,
    ensures
        upto == outstanding.len() ==> place_of_token(outstanding, token) is None,
        upto < outstanding.len() && outstanding[upto].token == token ==> place_of_token(
            outstanding,
            token,
        ) == Some(upto),
    decreases upto,
{
    if upto > 0 {
        let rest = outstanding.skip(1);
        assert forall|i: int| 0 <= i < upto - 1 implies (#[trigger] rest[i]).token != token by {
            assert(rest[i] == outstanding[i + 1]);
        }
        lemma_place_of_token(rest, token, upto - 1);
        if upto < outstanding.len() {
            assert(rest[upto - 1] == outstanding[upto]);
        }
    }
}

/// One vblank, as it moves a presenter: a ready frame goes up under a new token
/// and nothing stays owed; otherwise what is on screen stays, and what a dropped
/// frame changed is owed.
pub open spec fn advanced(before: RingPresenter, after: RingPresenter) -> bool {
    &&& after.pending is None
    &&& after.fence_deadline == before.fence_deadline
    &&& if before.pending_ready() {
        let frame = before.pending->0;
        let token = token_after(before.next_token);
        &&& after.scanning_key == Some(frame.key)
        &&& after.scanning_token == token
        &&& after.next_token == token
        &&& after.outstanding@ == before.outstanding@.push(Outstanding { token, key: frame.key })
        &&& after.carried_damage@.len() == 0
        &&& !after.carried_whole
    } else {
        &&& after.scanning_key == before.scanning_key
        &&& after.scanning_token == before.scanning_token
        &&& after.next_token == before.next_token
        &&& after.outstanding == before.outstanding
        &&& match before.pending {
            Some(dropped) => {
                &&& after.carried_whole == (before.carried_whole || dropped.damage@.len() == 0
                    || before.carried_damage@.len() + dropped.damage@.len() > MAX_DAMAGE)
                &&& after.carried_damage@ == merged(
                    before.carried_damage@,
                    before.carried_whole,
                    dropped.damage@,
                )
            },
            None => after.carried_damage == before.carried_damage && after.carried_whole
                == before.carried_whole,
        }
    }
}

/// Whether a frame is the one waiting to be picked up.
pub open spec fn queued(
    presenter: RingPresenter,
    key: SlotKey,
    fence: Option<SyncFence>,
    damage: Seq<DamageRect>,
) -> bool {
    presenter.pending matches Some(frame) && frame.key == key && frame.fence == fence
        && !frame.signaled && frame.damage@ == capped(damage)
}

/// What one vblank presents: a ready frame under a new token, with the damage
/// owed; otherwise what is on screen, again.
pub open spec fn shows(before: RingPresenter, acquired: Acquired) -> bool {
    if before.pending_ready() {
        let frame = before.pending->0;
        &&& acquired.kind == Present::Fresh
        &&& acquired.key == frame.key
        &&& acquired.token == token_after(before.next_token)
        &&& acquired.fence == if before.fence_deadline is None {
            frame.fence
        } else {
            None
        }
        &&& acquired.damage@ == merged(before.carried_damage@, before.carried_whole, frame.damage@)
    } else {
        &&& acquired.kind == if before.scanning_key is Some {
            Present::Hold
        } else {
            Present::Nothing
        }
        &&& acquired.key == match before.scanning_key {
            Some(key) => key,
            None => 0,
        }
        &&& acquired.token == if before.scanning_key is Some {
            before.scanning_token
        } else {
            0
        }
        &&& acquired.fence is None
        &&& acquired.damage@.len() == 0
    }
}

/// What retiring a token does: the buffer it names comes back, unless it is the
/// sentinel, names what is on screen, or is not outstanding.
pub open spec fn retires(
    before: RingPresenter,
    token: u64,
    key: Option<SlotKey>,
    after: RingPresenter,
) -> bool {
    match place_of_token(before.outstanding@, token) {
        Some(place) if token != 0 && token != before.scanning_token => {
            &&& key == Some(before.outstanding@[place].key)
            &&& after.outstanding@ == before.outstanding@.remove(place)
            &&& after == (RingPresenter { outstanding: after.outstanding, ..before })
        },
        _ => key is None && after == before,
    }
}

/// Whether `after` is `before` with everything dropped but the token counter,
/// the deadline and the fences done with.
pub open spec fn cleared_of_frames(before: RingPresenter, after: RingPresenter) -> bool {
    &&& after.pending is None
    &&& after.scanning_key is None
    &&& after.scanning_token == 0
    &&& after.outstanding@.len() == 0
    &&& after.carried_damage@.len() == 0
    &&& !after.carried_whole
    &&& after.next_token == before.next_token
    &&& after.fence_deadline == before.fence_deadline
    &&& after.spent@ == with_spent(
        before.spent@,
        match before.pending {
            Some(frame) => frame.fence,
            None => None,
        },
    )
}

/// The fence a vblank is done with: the pending frame's, unless the frame is
/// shown and hands it on.
pub open spec fn spent_fence(presenter: RingPresenter, shown: bool) -> Option<SyncFence> {
    match presenter.pending {
        Some(frame) => if presenter.fence_deadline is Some || !shown {
            frame.fence
        } else {
            None
        },
        None => None,
    }
}

impl RingPresenter {
    /// What is on screen is outstanding under its token, no token is the
    /// sentinel, and every list fits a frame.
    pub open spec fn well_formed(&self) -> bool {
        &&& self.scanning_key is Some ==> self.scanning_token != 0 && self.outstanding@.contains(
            Outstanding { token: self.scanning_token, key: self.scanning_key->0 },
        )
        &&& forall|i: int|
            0 <= i < self.outstanding@.len() ==> (#[trigger] self.outstanding@[i]).token != 0
        &&& self.carried_damage@.len() <= MAX_DAMAGE
        &&& self.pending is Some ==> self.pending->0.damage@.len() <= MAX_DAMAGE
    }

    /// Whether the pending frame may be shown: its fence need not be waited for
    /// here, or has signaled in time.
    pub open spec fn pending_ready(&self) -> bool {
        self.pending is Some && (self.fence_deadline is None || self.pending->0.fence is None
            || self.pending->0.signaled)
    }

    /// A presenter with an optional fence deadline.
    pub fn new(fence_deadline: Option<Duration>) -> (presenter: Self)
        ensures
            presenter.well_formed(),
            presenter.pending is None,
            presenter.scanning_key is None,
            presenter.scanning_token == 0,
            presenter.next_token == 0,
            presenter.outstanding@.len() == 0,
            presenter.fence_deadline == fence_deadline,
            presenter.carried_damage@.len() == 0,
            !presenter.carried_whole,
            presenter.spent@.len() == 0,
    {
        RingPresenter {
            pending: None,
            scanning_key: None,
            scanning_token: 0,
            next_token: 0,
            outstanding: Vec::new(),
            fence_deadline,
            carried_damage: Vec::new(),
            carried_whole: false,
            spent: Vec::new(),
        }
    }

    /// The fences done with since the last call.
    pub fn take_spent(&mut self) -> (spent: Vec<SyncFence>)
        ensures
            old(self).well_formed() ==> final(self).well_formed(),
            spent == old(self).spent,
            final(self).spent@.len() == 0,
            *final(self) == (RingPresenter { spent: final(self).spent, ..*old(self) }),
    {
        let mut spent: Vec<SyncFence> = Vec::new();
        core::mem::swap(&mut spent, &mut self.spent);
        spent
    }

    /// The configured fence deadline, if any.
    pub fn fence_deadline(&self) -> (deadline: Option<Duration>)
        ensures
            deadline == self.fence_deadline,
    {
        self.fence_deadline
    }

    /// Hand in a freshly rendered buffer.
    ///
    /// Replaces any pending frame rather than queueing: a producer that outruns
    /// the display shows its newest frame. The fence of the frame it replaces,
    /// if any, comes back.
    pub fn submit(&mut self, key: SlotKey, fence: Option<SyncFence>, damage: &[DamageRect]) -> (displaced:
        Option<SyncFence>)
        ensures
            old(self).well_formed() ==> final(self).well_formed(),
            queued(*final(self), key, fence, damage@),
            displaced == match old(self).pending {
                Some(frame) => frame.fence,
                None => None,
            },
            *final(self) == (RingPresenter { pending: final(self).pending, ..*old(self) }),
    {
        let damage: Vec<DamageRect> = if damage.len() <= MAX_DAMAGE {
            copy_damage(damage)
        } else {
            Vec::new()
        };
        let mut replaced: Option<PendingFrame> = Some(
            PendingFrame { key, fence, signaled: false, damage },
        );
        core::mem::swap(&mut replaced, &mut self.pending);
        match replaced {
            Some(frame) => frame.fence,
            None => None,
        }
    }

    /// Whether a submitted frame is waiting.
    pub fn has_fresh_frame(&self) -> (fresh: bool)
        ensures
            fresh == self.pending is Some,
    {
        self.pending.is_some()
    }

    /// The buffer currently on screen, if any.
    pub fn scanning_key(&self) -> (key: Option<SlotKey>)
        ensures
            key == self.scanning_key,
    {
        self.scanning_key
    }

    /// Whether a buffer is on screen or named by an unretired token.
    pub open spec fn references(&self, key: SlotKey) -> bool {
        self.scanning_key == Some(key) || exists|i: int|
            0 <= i < self.outstanding@.len() && (#[trigger] self.outstanding@[i]).key == key
    }

    /// Whether `key` is still on screen or named by an unretired token.
    pub fn is_referenced(&self, key: SlotKey) -> (referenced: bool)
        ensures
            referenced == self.references(key),
    {
        if self.scanning_key == Some(key) {
            return true;
        }
        let mut i: usize = 0;
        while i < self.outstanding.len()
            invariant
                0 <= i <= self.outstanding@.len(),
                forall|j: int| 0 <= j < i ==> (#[trigger] self.outstanding@[j]).key != key,
            decreases self.outstanding@.len() - i,
        {
            if self.outstanding[i].key == key {
                return true;
            }
            i += 1;
        }
        false
    }

    /// The wait that must come before the next acquire, if a deadline is set and
    /// the pending frame carries a fence.
    pub fn fence_wait(&self) -> (wait: Option<FenceWait>)
        ensures
            match (self.fence_deadline, self.pending) {
                (Some(deadline), Some(frame)) if frame.fence is Some => wait == Some(
                    FenceWait {
                        fd: frame.fence->0.fd,
                        nanos: wait_nanos(deadline) as u128,
                    },
                ) && wait_nanos(deadline) <= u128::MAX,
                _ => wait is None,
            },
    {
        match (self.fence_deadline, &self.pending) {
            (Some(deadline), Some(frame)) => {
                match &frame.fence {
                    Some(fence) => {
                        let total: u128 = deadline.as_nanos();
                        let nanos: u128 = if total == 0 {
                            0
                        } else if total < 1_000_000 {
                            1_000_000
                        } else {
                            total
                        };
                        Some(FenceWait { fd: fence.as_fd(), nanos })
                    },
                    None => None,
                }
            },
            _ => None,
        }
    }

    /// Record how the wait for the pending frame's fence ended.
    pub fn note_fence_wait(&mut self, signaled: bool)
        ensures
            old(self).well_formed() ==> final(self).well_formed(),
            match old(self).pending {
                Some(frame) => final(self).pending == Some(PendingFrame { signaled, ..frame }),
                None => final(self).pending is None,
            },
            *final(self) == (RingPresenter { pending: final(self).pending, ..*old(self) }),
    {
        if let Some(frame) = &mut self.pending {
            frame.signaled = signaled;
        }
    }

    /// Advance one vblank.
    ///
    /// A ready frame goes up under a new token, owing whatever damage earlier
    /// frames owed. With a deadline set its fence has been waited for already
    /// and is not also handed to the kernel; a frame whose fence did not signal
    /// in time is dropped, its damage carried forward, and the last good one
    /// held. Without anything new, what is on screen is shown again under the
    /// same token.
    pub fn acquire(&mut self) -> (acquired: Acquired)
        ensures
            old(self).well_formed() ==> final(self).well_formed(),
            advanced(*old(self), *final(self)),
            final(self).spent@ == with_spent(old(self).spent@, spent_fence(*old(self), true)),
            shows(*old(self), acquired),
    {
        let mut taken: Option<PendingFrame> = None;
        core::mem::swap(&mut taken, &mut self.pending);
        let mut ready: Option<PendingFrame> = None;
        if let Some(frame) = taken {
            if self.fence_deadline.is_some() && frame.fence.is_some() && !frame.signaled {
                self.carry(&frame.damage);
                keep_spent(&mut self.spent, frame.fence);
            } else {
                ready = Some(frame);
            }
        }
        if let Some(frame) = ready {
            let token: u64 = if self.next_token == u64::MAX { 1 } else { self.next_token + 1 };
            let ghost before = self.outstanding@;
            self.scanning_key = Some(frame.key);
            self.next_token = token;
            self.scanning_token = token;
            self.outstanding.push(Outstanding { token, key: frame.key });
            assert(self.outstanding@[before.len() as int] == (Outstanding { token, key: frame.key }));
            self.carry(&frame.damage);
            let mut damage: Vec<DamageRect> = Vec::new();
            core::mem::swap(&mut damage, &mut self.carried_damage);
            self.carried_whole = false;
            let fence: Option<SyncFence> = if self.fence_deadline.is_none() {
                frame.fence
            } else {
                keep_spent(&mut self.spent, frame.fence);
                None
            };
            return Acquired { kind: Present::Fresh, key: frame.key, token, fence, damage };
        }
        match self.scanning_key {
            Some(key) => Acquired {
                kind: Present::Hold,
                key,
                token: self.scanning_token,
                fence: None,
                damage: Vec::new(),
            },
            None => Acquired {
                kind: Present::Nothing,
                key: 0,
                token: 0,
                fence: None,
                damage: Vec::new(),
            },
        }
    }

    /// Retire the acquisition that carried `token`.
    ///
    /// Returns the buffer to hand back, or `None` when there is nothing to
    /// release: the sentinel token, a buffer still on screen, or a token already
    /// retired.
    pub fn release(&mut self, token: u64) -> (key: Option<SlotKey>)
        ensures
            old(self).well_formed() ==> final(self).well_formed(),
            retires(*old(self), token, key, *final(self)),
    {
        if token == 0 || token == self.scanning_token {
            return None;
        }
        let mut i: usize = 0;
        while i < self.outstanding.len()
            invariant
                0 <= i <= self.outstanding@.len(),
                *self == *old(self),
                token != 0,
                token != self.scanning_token,
                forall|j: int| 0 <= j < i ==> (#[trigger] self.outstanding@[j]).token != token,
            decreases self.outstanding@.len() - i,
        {
            if self.outstanding[i].token == token {
                proof {
                    lemma_place_of_token(self.outstanding@, token, i as int);
                }
                let ghost before = self.outstanding@;
                let retired: Outstanding = self.outstanding.remove(i);
                proof {
                    assert forall|j: int|
                        old(self).well_formed() && 0 <= j < self.outstanding@.len() implies (
                    #[trigger] self.outstanding@[j]).token != 0 by {
                        if j < i {
                            assert(self.outstanding@[j] == before[j]);
                        } else {
                            assert(self.outstanding@[j] == before[j + 1]);
                        }
                    }
                    if old(self).well_formed() && self.scanning_key is Some {
                        let key = self.scanning_key->0;
                        let live = Outstanding { token: self.scanning_token, key };
                        let k = choose|k: int| 0 <= k < before.len() && before[k] == live;
                        assert(k != i);
                        if k < i {
                            assert(self.outstanding@[k] == live);
                        } else {
                            assert(self.outstanding@[k - 1] == live);
                        }
                    }
                }
                return Some(retired.key);
            }
            i += 1;
        }
        proof {
            lemma_place_of_token(self.outstanding@, token, i as int);
        }
        None
    }

    /// Drop all pending, in-flight and scanning state, for a session resume.
    pub fn reset(&mut self)
        ensures
            final(self).well_formed(),
            cleared_of_frames(*old(self), *final(self)),
    {
        let mut pending: Option<PendingFrame> = None;
        core::mem::swap(&mut pending, &mut self.pending);
        if let Some(frame) = pending {
            keep_spent(&mut self.spent, frame.fence);
        }
        self.scanning_key = None;
        self.scanning_token = 0;
        self.outstanding.clear();
        self.carried_damage.clear();
        self.carried_whole = false;
    }

    /// Add a frame's damage to what is owed.
    fn carry(&mut self, damage: &Vec<DamageRect>)
        ensures
            final(self).carried_damage@ == merged(
                old(self).carried_damage@,
                old(self).carried_whole,
                damage@,
            ),
            final(self).carried_whole == (old(self).carried_whole || damage@.len() == 0 || old(
                self,
            ).carried_damage@.len() + damage@.len() > MAX_DAMAGE),
            *final(self) == (RingPresenter {
                carried_damage: final(self).carried_damage,
                carried_whole: final(self).carried_whole,
                ..*old(self)
            }),
    {
        if self.carried_whole || damage.len() == 0 || damage.len() > MAX_DAMAGE
            || self.carried_damage.len() > MAX_DAMAGE - damage.len() {
            self.carried_damage.clear();
            self.carried_whole = true;
            return;
        }
        let mut more: Vec<DamageRect> = copy_damage(damage.as_slice());
        self.carried_damage.append(&mut more);
    }
}

// --- laws --------------------------------------------------------------------

/// What a frame is presented with covers what it owes and what it changed: it
/// is whole-frame, or it lists every rectangle of both.
pub proof fn law_no_damage_is_forgotten(
    carried: Seq<DamageRect>,
    carried_whole: bool,
    damage: Seq<DamageRect>,
    rect: DamageRect,
)
    requires
        carried.contains(rect) || damage.contains(rect),
    ensures
        merged(carried, carried_whole, damage).len() == 0 || merged(
            carried,
            carried_whole,
            damage,
        ).contains(rect),
{
    let both = carried + damage;
    if carried.contains(rect) {
        let k = choose|k: int| 0 <= k < carried.len() && carried[k] == rect;
        assert(both[k] == rect);
    } else {
        let k = choose|k: int| 0 <= k < damage.len() && damage[k] == rect;
        assert(both[carried.len() + k] == rect);
    }
}

/// A whole-frame debt, or a whole-frame change, is presented whole-frame.
pub proof fn law_whole_frames_stay_whole(
    carried: Seq<DamageRect>,
    carried_whole: bool,
    damage: Seq<DamageRect>,
)
    requires
        carried_whole || damage.len() == 0,
    ensures
        merged(carried, carried_whole, damage).len() == 0,
{
}

/// Tokens never hit the sentinel, and consecutive ones differ.
pub proof fn law_tokens_skip_the_sentinel(token: u64)
    ensures
        token_after(token) != 0,
        token_after(token) != token,
{
}

/// What is on screen is referenced, so it is never evicted.
pub proof fn law_scanning_buffer_is_referenced(presenter: RingPresenter)
    requires
        presenter.well_formed(),
        presenter.scanning_key is Some,
    ensures
        presenter.references(presenter.scanning_key->0),
{
}

// --- runs of calls -----------------------------------------------------------

/// One call on a presenter, with what it answered.
pub enum Call {
    /// A frame was submitted.
    Submitted {
        /// Its buffer.
        key: SlotKey,
        /// Its fence.
        fence: Option<SyncFence>,
        /// What changed in it.
        damage: Seq<DamageRect>,
    },
    /// A wait was recorded, or spent fences were taken.
    Noted,
    /// A vblank.
    Acquired(Acquired),
    /// A token was retired.
    Released {
        /// The token.
        token: u64,
        /// The buffer that came back.
        back: Option<SlotKey>,
    },
    /// Everything was dropped.
    Reset,
}

/// Whether a call led from one state to the next.
pub open spec fn called(before: RingPresenter, call: Call, after: RingPresenter) -> bool {
    match call {
        Call::Submitted { key, fence, damage } => {
            &&& queued(after, key, fence, damage)
            &&& after == (RingPresenter { pending: after.pending, ..before })
        },
        Call::Noted => {
            &&& after.pending is Some == before.pending is Some
            &&& after == (RingPresenter { pending: after.pending, spent: after.spent, ..before })
        },
        Call::Acquired(acquired) => advanced(before, after) && shows(before, acquired),
        Call::Released { token, back } => retires(before, token, back, after),
        Call::Reset => cleared_of_frames(before, after),
    }
}

/// Whether a call put up a new frame.
pub open spec fn is_fresh(call: Call) -> bool {
    match call {
        Call::Acquired(acquired) => acquired.kind == Present::Fresh,
        _ => false,
    }
}

/// How many calls put up a new frame.
pub open spec fn fresh_calls(calls: Seq<Call>) -> nat
    decreases calls.len(),
{
    if calls.len() == 0 {
        0
    } else {
        fresh_calls(calls.drop_last()) + if is_fresh(calls.last()) {
            1nat
        } else {
            0
        }
    }
}

/// Whether `states` is a new presenter taken through `calls`, before its token
/// counter wraps.
pub open spec fn ran(states: Seq<RingPresenter>, calls: Seq<Call>) -> bool {
    &&& states.len() == calls.len() + 1
    &&& states[0].scanning_key is None
    &&& states[0].scanning_token == 0
    &&& states[0].next_token == 0
    &&& states[0].outstanding@.len() == 0
    &&& forall|i: int|
        0 <= i < calls.len() ==> called(states[i], #[trigger] calls[i], states[i + 1])
    &&& fresh_calls(calls) <= u64::MAX
}

/// Whether a call put up this buffer under this token.
pub open spec fn put_up(call: Call, token: u64, key: SlotKey) -> bool {
    match call {
        Call::Acquired(acquired) => acquired.kind == Present::Fresh && acquired.token == token
            && acquired.key == key,
        _ => false,
    }
}

/// Whether outstanding tokens are distinct, in the order they were handed out,
/// none past the last; and while any is outstanding, the last one is on screen.
pub open spec fn tokens_in_order(presenter: RingPresenter) -> bool {
    &&& forall|i: int, j: int|
        0 <= i < j < presenter.outstanding@.len() ==> (#[trigger] presenter.outstanding@[i]).token
            < (#[trigger] presenter.outstanding@[j]).token
    &&& forall|i: int|
        0 <= i < presenter.outstanding@.len() ==> 0 < (#[trigger] presenter.outstanding@[i]).token
            <= presenter.next_token
    &&& presenter.outstanding@.len() > 0 || presenter.scanning_key is Some ==> presenter.scanning_key
        is Some && presenter.scanning_token == presenter.next_token
}

/// Whether a token is outstanding.
pub open spec fn is_outstanding(presenter: RingPresenter, token: u64) -> bool {
    exists|i: int|
        0 <= i < presenter.outstanding@.len() && (#[trigger] presenter.outstanding@[i]).token
            == token
}

proof fn lemma_token_found(outstanding: Seq<Outstanding>, token: u64)
    ensures
        match place_of_token(outstanding, token) {
            Some(place) => 0 <= place < outstanding.len() && outstanding[place].token == token,
            None => forall|i: int|
                0 <= i < outstanding.len() ==> (#[trigger] outstanding[i]).token != token,
        },
    decreases outstanding.len(),
{
    if outstanding.len() > 0 && outstanding[0].token != token {
        let rest = outstanding.skip(1);
        lemma_token_found(rest, token);
        assert forall|i: int| 1 <= i < outstanding.len() implies #[trigger] outstanding[i] == rest[i
            - 1] by {}
    }
}

proof fn lemma_fresh_calls_grow(calls: Seq<Call>, upto: int)
    requires
        0 <= upto <= calls.len(),
    ensures
        fresh_calls(calls.take(upto)) <= fresh_calls(calls),
    decreases calls.len(),
{
    if upto == calls.len() {
        assert(calls.take(upto) =~= calls);
    } else {
        assert(calls.drop_last().take(upto) =~= calls.take(upto));
        lemma_fresh_calls_grow(calls.drop_last(), upto);
    }
}

/// Every call keeps outstanding tokens distinct and in order, until the counter
/// wraps.
pub proof fn law_tokens_stay_in_order(before: RingPresenter, call: Call, after: RingPresenter)
    requires
        tokens_in_order(before),
        called(before, call, after),
        is_fresh(call) ==> before.next_token < u64::MAX,
    ensures
        tokens_in_order(after),
{
    if let Call::Released { token, back } = call {
        lemma_token_found(before.outstanding@, token);
        if back is Some {
            let place = place_of_token(before.outstanding@, token)->0;
            assert forall|i: int| 0 <= i < after.outstanding@.len() implies #[trigger]
                after.outstanding@[i] == before.outstanding@[if i < place {
                i
            } else {
                i + 1
            }] by {}
        }
    }
}

/// The invariant of a run: the counter counts the frames put up, tokens stay in
/// order, and every outstanding token was put up with its buffer.
proof fn lemma_run(states: Seq<RingPresenter>, calls: Seq<Call>, n: int)
    requires
        ran(states, calls),
        0 <= n <= calls.len(),
    ensures
        states[n].next_token == fresh_calls(calls.take(n)),
        tokens_in_order(states[n]),
        forall|i: int|
            0 <= i < states[n].outstanding@.len() ==> exists|m: int|
                0 <= m < n && put_up(
                    #[trigger] calls[m],
                    (#[trigger] states[n].outstanding@[i]).token,
                    states[n].outstanding@[i].key,
                ),
    decreases n,
{
    if n > 0 {
        let k = n - 1;
        lemma_run(states, calls, k);
        let before = states[k];
        let after = states[n];
        let call = calls[k];
        assert(called(before, call, states[k + 1]));
        assert(calls.take(n).drop_last() =~= calls.take(k));
        assert(calls.take(n).last() == call);
        lemma_fresh_calls_grow(calls, n);
        law_tokens_stay_in_order(before, call, after);
        match call {
            Call::Submitted { .. } | Call::Noted => {
                assert(after.outstanding@ == before.outstanding@);
            },
            Call::Acquired(acquired) => {
                if before.pending_ready() {
                    assert(is_fresh(call));
                    assert(before.next_token < u64::MAX);
                    assert forall|i: int| 0 <= i < after.outstanding@.len() implies exists|m: int|
                        0 <= m < n && put_up(
                            #[trigger] calls[m],
                            (#[trigger] after.outstanding@[i]).token,
                            after.outstanding@[i].key,
                        ) by {
                        if i < before.outstanding@.len() {
                            assert(after.outstanding@[i] == before.outstanding@[i]);
                            let m = choose|m: int|
                                0 <= m < k && put_up(
                                    #[trigger] calls[m],
                                    before.outstanding@[i].token,
                                    before.outstanding@[i].key,
                                );
                            assert(put_up(
                                calls[m],
                                after.outstanding@[i].token,
                                after.outstanding@[i].key,
                            ));
                        } else {
                            assert(put_up(
                                calls[k],
                                after.outstanding@[i].token,
                                after.outstanding@[i].key,
                            ));
                        }
                    }
                } else {
                    assert(!is_fresh(call));
                    assert(after.outstanding@ == before.outstanding@);
                }
            },
            Call::Released { token, back } => {
                lemma_token_found(before.outstanding@, token);
                if back is Some {
                    let place = place_of_token(before.outstanding@, token)->0;
                    assert forall|i: int| 0 <= i < after.outstanding@.len() implies #[trigger]
                        after.outstanding@[i] == before.outstanding@[if i < place {
                        i
                    } else {
                        i + 1
                    }] by {}
                }
            },
            Call::Reset => {},
        }
    }
}

/// A token that has been handed out and is not outstanding never is again.
proof fn lemma_retired_stays_retired(
    states: Seq<RingPresenter>,
    calls: Seq<Call>,
    token: u64,
    a: int,
    b: int,
)
    requires
        ran(states, calls),
        0 <= a <= b <= calls.len(),
        token <= states[a].next_token,
        !is_outstanding(states[a], token),
    ensures
        token <= states[b].next_token,
        !is_outstanding(states[b], token),
    decreases b - a,
{
    if a < b {
        lemma_retired_stays_retired(states, calls, token, a, b - 1);
        lemma_run(states, calls, b - 1);
        lemma_run(states, calls, b);
        let before = states[b - 1];
        let after = states[b];
        let call = calls[b - 1];
        assert(called(before, call, states[b - 1 + 1]));
        assert(calls.take(b).drop_last() =~= calls.take(b - 1));
        if is_outstanding(after, token) {
            let i = choose|i: int|
                0 <= i < after.outstanding@.len() && (#[trigger] after.outstanding@[i]).token
                    == token;
            match call {
                Call::Submitted { .. } | Call::Noted => {
                    assert(before.outstanding@[i].token == token);
                },
                Call::Acquired(acquired) => {
                    lemma_fresh_calls_grow(calls, b);
                    if i < before.outstanding@.len() {
                        assert(after.outstanding@[i] == before.outstanding@[i]);
                        assert(before.outstanding@[i].token == token);
                    }
                },
                Call::Released { token: gone, back } => {
                    lemma_token_found(before.outstanding@, gone);
                    if back is Some {
                        let place = place_of_token(before.outstanding@, gone)->0;
                        let was = if i < place {
                            i
                        } else {
                            i + 1
                        };
                        assert(after.outstanding@[i] == before.outstanding@[was]);
                        assert(before.outstanding@[was].token == token);
                    } else {
                        assert(before.outstanding@[i].token == token);
                    }
                },
                Call::Reset => {},
            }
        }
    }
}

/// A new frame goes up under a token of its own: not the sentinel, and unlike
/// every token still outstanding.
pub proof fn law_fresh_tokens_are_new(states: Seq<RingPresenter>, calls: Seq<Call>, at: int)
    requires
        ran(states, calls),
        0 <= at < calls.len(),
        is_fresh(calls[at]),
    ensures
        calls[at]->Acquired_0.token != 0,
        !is_outstanding(states[at], calls[at]->Acquired_0.token),
        is_outstanding(states[at + 1], calls[at]->Acquired_0.token),
{
    lemma_run(states, calls, at);
    lemma_run(states, calls, at + 1);
    lemma_fresh_calls_grow(calls, at + 1);
    assert(called(states[at], calls[at], states[at + 1]));
    assert(calls.take(at + 1).drop_last() =~= calls.take(at));
    let token = calls[at]->Acquired_0.token;
    assert(states[at].pending_ready());
    assert(states[at + 1].outstanding@[states[at].outstanding@.len() as int].token == token);
}

/// A frame submitted without a fence goes up at the next vblank.
pub proof fn law_a_submitted_frame_goes_up(
    states: Seq<RingPresenter>,
    calls: Seq<Call>,
    at: int,
    key: SlotKey,
    damage: Seq<DamageRect>,
)
    requires
        ran(states, calls),
        0 <= at < calls.len() - 1,
        calls[at] == (Call::Submitted { key, fence: None, damage }),
        calls[at + 1] is Acquired,
    ensures
        is_fresh(calls[at + 1]),
        calls[at + 1]->Acquired_0.key == key,
        states[at + 2].pending is None,
{
    assert(called(states[at], calls[at], states[at + 1]));
    assert(called(states[at + 1], calls[at + 1], states[at + 1 + 1]));
}

/// A submitted frame is presented once: the vblank that takes it up shows it
/// under its token, and as long as nothing else is submitted or dropped, each
/// vblank after holds it under the same token, with no fence and no damage.
pub proof fn law_a_frame_is_presented_once(
    states: Seq<RingPresenter>,
    calls: Seq<Call>,
    at: int,
    later: int,
)
    requires
        ran(states, calls),
        0 <= at < later < calls.len(),
        is_fresh(calls[at]),
        forall|i: int|
            at < i <= later ==> (#[trigger] calls[i]) is Acquired || calls[i] is Released,
        calls[later] is Acquired,
    ensures
        calls[later]->Acquired_0.kind == Present::Hold,
        calls[later]->Acquired_0.key == calls[at]->Acquired_0.key,
        calls[later]->Acquired_0.token == calls[at]->Acquired_0.token,
        calls[later]->Acquired_0.fence is None,
        calls[later]->Acquired_0.damage@.len() == 0,
        states[later].pending is None,
{
    lemma_held(states, calls, at, later);
    assert(called(states[later], calls[later], states[later + 1]));
}

proof fn lemma_held(states: Seq<RingPresenter>, calls: Seq<Call>, at: int, upto: int)
    requires
        ran(states, calls),
        0 <= at < upto <= calls.len(),
        is_fresh(calls[at]),
        forall|i: int|
            at < i < upto ==> (#[trigger] calls[i]) is Acquired || calls[i] is Released,
    ensures
        states[upto].pending is None,
        states[upto].scanning_key == Some(calls[at]->Acquired_0.key),
        states[upto].scanning_token == calls[at]->Acquired_0.token,
    decreases upto - at,
{
    assert(called(states[upto - 1], calls[upto - 1], states[upto - 1 + 1]));
    if upto > at + 1 {
        lemma_held(states, calls, at, upto - 1);
    }
}

/// A buffer comes back only for a token it was put up under, only after a newer
/// frame went up, and at most once for each token. The sentinel and the token on
/// screen give nothing back, and where nothing comes back nothing changes.
pub proof fn law_a_buffer_comes_back_once(states: Seq<RingPresenter>, calls: Seq<Call>, at: int)
    requires
        ran(states, calls),
        0 <= at < calls.len(),
        calls[at] is Released,
    ensures
        calls[at]->back matches Some(key) ==> {
            &&& exists|m: int, newer: int|
                0 <= m < newer < at && put_up(#[trigger] calls[m], calls[at]->token, key)
                    && is_fresh(#[trigger] calls[newer])
            &&& forall|other: int|
                0 <= other < calls.len() && other != at && (#[trigger] calls[other]) is Released
                    && calls[other]->token == calls[at]->token ==> calls[other]->back is None
        },
        calls[at]->token == 0 || calls[at]->token == states[at].scanning_token ==> calls[at]->back
            is None,
        calls[at]->back is None ==> states[at + 1] == states[at],
{
    let token = calls[at]->token;
    let before = states[at];
    assert(called(before, calls[at], states[at + 1]));
    lemma_run(states, calls, at);
    lemma_token_found(before.outstanding@, token);
    if let Some(key) = calls[at]->back {
        let place = place_of_token(before.outstanding@, token)->0;
        let m = choose|m: int|
            0 <= m < at && put_up(
                #[trigger] calls[m],
                before.outstanding@[place].token,
                before.outstanding@[place].key,
            );
        assert(put_up(calls[m], token, key));
        lemma_later_token_is_later(states, calls, m, at);
        let newer = choose|newer: int| m < newer < at && is_fresh(#[trigger] calls[newer]);
        assert(0 <= m < newer < at && put_up(calls[m], token, key) && is_fresh(calls[newer]));
        assert forall|other: int|
            0 <= other < calls.len() && other != at && (#[trigger] calls[other]) is Released
                && calls[other]->token == token implies calls[other]->back is None by {
            if calls[other]->back is Some {
                if other < at {
                    lemma_release_retires(states, calls, other);
                    lemma_retired_stays_retired(states, calls, token, other + 1, at);
                    assert(before.outstanding@[place].token == token);
                } else {
                    lemma_release_retires(states, calls, at);
                    lemma_retired_stays_retired(states, calls, token, at + 1, other);
                    assert(called(states[other], calls[other], states[other + 1]));
                    lemma_token_found(states[other].outstanding@, token);
                    let again = place_of_token(states[other].outstanding@, token)->0;
                    assert(states[other].outstanding@[again].token == token);
                }
            }
        }
    }
}

/// A token that gives its buffer back is not outstanding afterwards.
proof fn lemma_release_retires(states: Seq<RingPresenter>, calls: Seq<Call>, at: int)
    requires
        ran(states, calls),
        0 <= at < calls.len(),
        calls[at] is Released,
        calls[at]->back is Some,
    ensures
        calls[at]->token <= states[at + 1].next_token,
        !is_outstanding(states[at + 1], calls[at]->token),
{
    let token = calls[at]->token;
    let before = states[at];
    let after = states[at + 1];
    assert(called(before, calls[at], after));
    lemma_run(states, calls, at);
    lemma_token_found(before.outstanding@, token);
    let place = place_of_token(before.outstanding@, token)->0;
    assert(before.outstanding@[place].token == token);
    assert forall|i: int| 0 <= i < after.outstanding@.len() implies (
    #[trigger] after.outstanding@[i]).token != token by {
        let was = if i < place {
            i
        } else {
            i + 1
        };
        assert(after.outstanding@[i] == before.outstanding@[was]);
        if was < place {
            assert(before.outstanding@[was].token < before.outstanding@[place].token);
        } else {
            assert(before.outstanding@[place].token < before.outstanding@[was].token);
        }
    }
}

/// Where the token of an earlier frame is no longer the last, a newer frame went
/// up in between.
proof fn lemma_later_token_is_later(states: Seq<RingPresenter>, calls: Seq<Call>, m: int, at: int)
    requires
        ran(states, calls),
        0 <= m < at <= calls.len(),
        is_fresh(calls[m]),
        calls[m]->Acquired_0.token < states[at].next_token,
    ensures
        exists|newer: int| m < newer < at && is_fresh(#[trigger] calls[newer]),
    decreases at,
{
    lemma_run(states, calls, m);
    lemma_run(states, calls, at - 1);
    lemma_fresh_calls_grow(calls, at);
    lemma_fresh_calls_grow(calls, m + 1);
    assert(calls.take(at).drop_last() =~= calls.take(at - 1));
    assert(calls.take(m + 1).drop_last() =~= calls.take(m));
    assert(called(states[at - 1], calls[at - 1], states[at - 1 + 1]));
    assert(called(states[m], calls[m], states[m + 1]));
    lemma_run(states, calls, at);
    if at == m + 1 {
        assert(states[at].next_token == calls[m]->Acquired_0.token);
    } else if is_fresh(calls[at - 1]) {
        assert(m < at - 1 < at);
    } else {
        assert(states[at].next_token == states[at - 1].next_token);
        lemma_later_token_is_later(states, calls, m, at - 1);
        let newer = choose|newer: int| m < newer < at - 1 && is_fresh(#[trigger] calls[newer]);
        assert(m < newer < at);
    }
}

/// One vblank, in full. A pending frame goes up unless a deadline is set, its
/// fence has not signaled, and it carries one. What goes up does so under the next
/// token, with its fence if no deadline waited for it, and with what it changed
/// and what was owed: listed, or the whole frame if either is or they are too
/// many. What does not go up is owed. Without anything to go up, what is on
/// screen is held.
pub proof fn law_a_vblank_shows_the_newest_ready_frame(
    before: RingPresenter,
    after: RingPresenter,
    acquired: Acquired,
)
    requires
        advanced(before, after),
        shows(before, acquired),
    ensures
        after.pending is None,
        after.fence_deadline == before.fence_deadline,
        before.pending matches Some(frame) ==> (before.fence_deadline is None || frame.fence is None
            || frame.signaled) ==> {
            &&& acquired.kind == Present::Fresh
            &&& acquired.key == frame.key
            &&& acquired.token == if before.next_token == u64::MAX {
                1int
            } else {
                before.next_token + 1
            }
            &&& acquired.fence == if before.fence_deadline is None {
                frame.fence
            } else {
                None
            }
            &&& acquired.damage@ == if before.carried_whole || frame.damage@.len() == 0
                || before.carried_damage@.len() + frame.damage@.len() > 16 {
                Seq::empty()
            } else {
                before.carried_damage@ + frame.damage@
            }
            &&& after.scanning_key == Some(frame.key)
            &&& after.scanning_token == acquired.token
            &&& after.next_token == acquired.token
            &&& after.outstanding@.len() == before.outstanding@.len() + 1
            &&& after.outstanding@.last() == (Outstanding {
                token: acquired.token,
                key: frame.key,
            })
            &&& forall|i: int|
                0 <= i < before.outstanding@.len() ==> (#[trigger] after.outstanding@[i])
                    == before.outstanding@[i]
            &&& after.carried_damage@.len() == 0
            &&& !after.carried_whole
        },
        before.pending matches Some(frame) ==> before.fence_deadline is Some && frame.fence is Some
            && !frame.signaled ==> {
            &&& after.scanning_key == before.scanning_key
            &&& after.next_token == before.next_token
            &&& after.outstanding@ == before.outstanding@
            &&& after.carried_whole <==> before.carried_whole || frame.damage@.len() == 0
                || before.carried_damage@.len() + frame.damage@.len() > 16
            &&& !after.carried_whole ==> after.carried_damage@ == before.carried_damage@
                + frame.damage@
            &&& after.carried_whole ==> after.carried_damage@.len() == 0
        },
        before.pending is None || (before.fence_deadline is Some && before.pending->0.fence is Some
            && !before.pending->0.signaled) ==> {
            &&& acquired.fence is None
            &&& acquired.damage@.len() == 0
            &&& before.scanning_key matches Some(key) ==> acquired.kind == Present::Hold
                && acquired.key == key && acquired.token == before.scanning_token
            &&& before.scanning_key is None ==> acquired.kind == Present::Nothing && acquired.token
                == 0
        },
{
}

/// A frame can carry up to sixteen damaged regions; a longer list stands for the
/// whole frame.
pub proof fn law_long_damage_is_the_whole_frame(damage: Seq<DamageRect>)
    ensures
        damage.len() <= 16 ==> capped(damage) == damage,
        damage.len() > 16 ==> capped(damage).len() == 0,
{
}

/// A deadline waits its own length, but at least a millisecond unless it is none.
pub proof fn law_a_deadline_waits_its_length(deadline: Duration)
    ensures
        duration_nanos(deadline) == 0 ==> wait_nanos(deadline) == 0,
        0 < duration_nanos(deadline) < 1_000_000 ==> wait_nanos(deadline) == 1_000_000,
        duration_nanos(deadline) >= 1_000_000 ==> wait_nanos(deadline) == duration_nanos(deadline),
{
}

/// Retiring a token gives back the buffer it was handed out with, forgets that
/// entry and no other, and does neither for the sentinel, the token on screen or
/// a token nobody holds.
pub proof fn law_retiring_gives_back_the_tokens_buffer(
    before: RingPresenter,
    token: u64,
    back: Option<SlotKey>,
    after: RingPresenter,
    at: int,
)
    requires
        retires(before, token, back, after),
    ensures
        token == 0 || token == before.scanning_token ==> back is None && after == before,
        !is_outstanding(before, token) ==> back is None && after == before,
        token != 0 && token != before.scanning_token && is_outstanding(before, token) ==> back
            is Some && after.outstanding@.len() == before.outstanding@.len() - 1,
        0 <= at < before.outstanding@.len() && before.outstanding@[at].token == token && (forall|
            j: int,
        |
            0 <= j < at ==> (#[trigger] before.outstanding@[j]).token != token) && token != 0
            && token != before.scanning_token ==> back == Some(before.outstanding@[at].key)
            && after.outstanding@ == before.outstanding@.remove(at),
        after.scanning_key == before.scanning_key,
        after.next_token == before.next_token,
{
    lemma_token_found(before.outstanding@, token);
    if is_outstanding(before, token) {
        let i = choose|i: int|
            0 <= i < before.outstanding@.len() && (#[trigger] before.outstanding@[i]).token
                == token;
        assert(before.outstanding@[i].token == token);
    }
    if let Some(place) = place_of_token(before.outstanding@, token) {
        assert(is_outstanding(before, token));
    }
    if 0 <= at < before.outstanding@.len() && before.outstanding@[at].token == token && (forall|
        j: int,
    | 0 <= j < at ==> (#[trigger] before.outstanding@[j]).token != token) {
        lemma_place_of_token(before.outstanding@, token, at);
    }
}

/// A buffer is referenced while it is on screen or an outstanding token names it.
pub proof fn law_references_are_tokens_and_the_screen(presenter: RingPresenter, key: SlotKey)
    ensures
        presenter.references(key) <==> presenter.scanning_key == Some(key) || exists|i: int|
            0 <= i < presenter.outstanding@.len() && (#[trigger] presenter.outstanding@[i]).key
                == key,
{
}

/// A fence is done with once it was waited for, or its frame was not shown; a
/// shown frame's fence goes on to the kernel where no deadline waited for it.
pub proof fn law_spent_fences_are_those_nobody_else_holds(presenter: RingPresenter, shown: bool)
    ensures
        presenter.pending is None ==> spent_fence(presenter, shown) is None,
        presenter.pending matches Some(frame) ==> {
            &&& presenter.fence_deadline is Some ==> spent_fence(presenter, shown) == frame.fence
            &&& !shown ==> spent_fence(presenter, shown) == frame.fence
            &&& presenter.fence_deadline is None && shown ==> spent_fence(presenter, shown) is None
        },
        forall|spent: Seq<SyncFence>, fence: SyncFence| #[trigger]
            with_spent(spent, Some(fence)) == spent.push(fence),
        forall|spent: Seq<SyncFence>| #[trigger] with_spent(spent, None) == spent,
{
}

/// A reset forgets every frame, shown or waiting, and all damage, and keeps the
/// token counter and the deadline. The fence of a frame that waited is done with.
pub proof fn law_a_reset_forgets_every_frame(before: RingPresenter, after: RingPresenter)
    requires
        cleared_of_frames(before, after),
    ensures
        after.pending is None,
        after.scanning_key is None,
        after.scanning_token == 0,
        after.outstanding@.len() == 0,
        after.carried_damage@.len() == 0,
        !after.carried_whole,
        after.next_token == before.next_token,
        after.fence_deadline == before.fence_deadline,
        before.pending is None || before.pending->0.fence is None ==> after.spent@ == before.spent@,
        before.pending matches Some(frame) ==> frame.fence matches Some(fence) ==> after.spent@
            == before.spent@.push(fence),
{
}

/// A submitted frame waits as it was given: its own buffer, its own fence not yet
/// signaled, and its damage, which past sixteen regions is the whole frame. It may
/// be shown once there is no fence, no deadline to wait out here, or a signal.
pub proof fn law_a_frame_waits_as_it_was_submitted(
    presenter: RingPresenter,
    key: SlotKey,
    fence: Option<SyncFence>,
    damage: Seq<DamageRect>,
)
    requires
        queued(presenter, key, fence, damage),
    ensures
        presenter.pending is Some,
        presenter.pending->0.key == key,
        presenter.pending->0.fence == fence,
        !presenter.pending->0.signaled,
        damage.len() <= 16 ==> presenter.pending->0.damage@ == damage,
        damage.len() > 16 ==> presenter.pending->0.damage@.len() == 0,
        presenter.pending_ready() <==> fence is None || presenter.fence_deadline is None,
{
}

/// A frame may be shown exactly where there is one and nothing is left to wait
/// for.
pub proof fn law_only_a_signaled_frame_is_ready(presenter: RingPresenter)
    ensures
        presenter.pending is None ==> !presenter.pending_ready(),
        presenter.pending matches Some(frame) ==> (presenter.pending_ready() <==> frame.signaled
            || frame.fence is None || presenter.fence_deadline is None),
{
}

} // verus!
