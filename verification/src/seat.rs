//! What a seat connection decides before and between its calls.

use vstd::prelude::*;
use crate::session::RawEvent;

verus! {

/// How many dispatches to give a seat to activate before giving up.
pub const ACTIVATION_ATTEMPTS: u32 = 64;

/// The first enable in a run of events.
pub open spec fn first_enable(events: Seq<RawEvent>) -> Option<int>
    decreases events.len(),
{
    if events.len() == 0 {
        None
    } else if events[0] == RawEvent::Enable {
        Some(0)
    } else {
        match first_enable(events.skip(1)) {
            Some(place) => Some(place + 1),
            None => None,
        }
    }
}

proof fn lemma_first_enable(events: Seq<RawEvent>, upto: int)
    requires
        0 <= upto <= events.len(),
        forall|i: int| 0 <= i < upto ==> #[trigger] events[i] != RawEvent::Enable,
    ensures
        upto == events.len() ==> first_enable(events) is None,
        upto < events.len() && events[upto] == RawEvent::Enable ==> first_enable(events) == Some(
            upto,
        ),
    decreases upto,
{
    if upto > 0 {
        let rest = events.skip(1);
        assert forall|i: int| 0 <= i < upto - 1 implies #[trigger] rest[i] != RawEvent::Enable by {
            assert(rest[i] == events[i + 1]);
        }
        lemma_first_enable(rest, upto - 1);
        if upto < events.len() {
            assert(rest[upto - 1] == events[upto]);
        }
    }
}

/// Drop everything up to and including the seat's first enable.
///
/// Returns whether one was there. What is left is what happened after the seat
/// became ours, which a session has to hear about. Without an enable the seat
/// was never ours, and nothing is left.
pub fn drain_through_activation(events: &mut Vec<RawEvent>) -> (activated: bool)
    ensures
        match first_enable(old(events)@) {
            Some(place) => activated && final(events)@ == old(events)@.skip(place + 1),
            None => !activated && final(events)@.len() == 0,
        },
{
    let ghost before = events@;
    let mut i: usize = 0;
    while i < events.len()
        invariant
            0 <= i <= before.len(),
            events@ == before,
            before == old(events)@,
            forall|j: int| 0 <= j < i ==> #[trigger] before[j] != RawEvent::Enable,
        decreases before.len() - i,
    {
        if events[i] == RawEvent::Enable {
            proof {
                lemma_first_enable(before, i as int);
            }
            let left: Vec<RawEvent> = events.split_off(i + 1);
            assert(left@ =~= before.skip(i + 1));
            *events = left;
            return true;
        }
        i += 1;
    }
    proof {
        lemma_first_enable(before, i as int);
    }
    events.clear();
    false
}

/// What to do after one dispatch of a seat that has not activated yet.
#[derive(Debug, Clone, Copy, PartialEq, Eq, Structural)]
pub enum ActivationStep {
    /// The seat is ours.
    Active,
    /// Dispatch again.
    Again,
    /// The seat answered often enough without activating.
    GaveUp,
}

/// Waiting for a freshly opened seat to activate.
#[derive(Debug, Clone, Copy, PartialEq, Eq, Structural)]
pub struct Activation {
    /// How many dispatches it has had.
    pub attempts: u32,
}

impl Activation {
    /// A seat that has had no dispatch.
    pub fn new() -> (activation: Self)
        ensures
            activation.attempts == 0,
    {
        Activation { attempts: 0 }
    }

    /// Look at what one dispatch delivered.
    ///
    /// The enable that announces the activation is swallowed: a session starts
    /// active, and a resume it never paused for would reopen everything for
    /// nothing.
    pub fn observe(&mut self, events: &mut Vec<RawEvent>) -> (step: ActivationStep)
        requires
            old(self).attempts < ACTIVATION_ATTEMPTS,
        ensures
            final(self).attempts == old(self).attempts + 1,
            match first_enable(old(events)@) {
                Some(place) => step == ActivationStep::Active && final(events)@ == old(
                    events,
                )@.skip(place + 1),
                None => final(events)@.len() == 0 && step == if final(self).attempts
                    < ACTIVATION_ATTEMPTS {
                    ActivationStep::Again
                } else {
                    ActivationStep::GaveUp
                },
            },
    {
        self.attempts += 1;
        if drain_through_activation(events) {
            ActivationStep::Active
        } else if self.attempts < ACTIVATION_ATTEMPTS {
            ActivationStep::Again
        } else {
            ActivationStep::GaveUp
        }
    }
}

impl Default for Activation {
    fn default() -> (activation: Self)
        ensures
            activation.attempts == 0,
    {
        Activation::new()
    }
}

/// Whether a path can be handed to the seat: it holds no NUL.
pub fn path_is_acceptable(path: &str) -> (acceptable: bool)
    ensures
        acceptable == !path@.contains('\0'),
{
    let len: usize = path.unicode_len();
    let mut i: usize = 0;
    while i < len
        invariant
            0 <= i <= len,
            len == path@.len(),
            forall|j: int| 0 <= j < i ==> path@[j] != '\0',
        decreases len - i,
    {
        if path.get_char(i) == '\0' {
            assert(path@[i as int] == '\0');
            return false;
        }
        i += 1;
    }
    true
}

/// A seat is active from its first enable on: what came before is done with.
pub proof fn law_the_first_enable_activates(events: Seq<RawEvent>, at: int)
    ensures
        0 <= at < events.len() && events[at] == RawEvent::Enable && (forall|j: int|
            0 <= j < at ==> (#[trigger] events[j]) != RawEvent::Enable) ==> first_enable(events)
            == Some(at),
        (forall|j: int| 0 <= j < events.len() ==> (#[trigger] events[j]) != RawEvent::Enable)
            <==> first_enable(events) is None,
    decreases events.len(),
{
    if events.len() > 0 {
        let rest = events.skip(1);
        assert forall|j: int| 0 <= j < rest.len() implies #[trigger] rest[j] == events[j + 1] by {}
        law_the_first_enable_activates(rest, at - 1);
        if 0 < at < events.len() && events[at] == RawEvent::Enable && (forall|j: int|
            0 <= j < at ==> (#[trigger] events[j]) != RawEvent::Enable) {
            assert(events[0] != RawEvent::Enable);
            assert forall|j: int| 0 <= j < at - 1 implies (#[trigger] rest[j])
                != RawEvent::Enable by {
                assert(events[j + 1] != RawEvent::Enable);
            }
        }
        if events[0] != RawEvent::Enable {
            if first_enable(rest) is None {
                assert forall|j: int| 0 <= j < events.len() implies (#[trigger] events[j])
                    != RawEvent::Enable by {
                    if j > 0 {
                        assert(rest[j - 1] != RawEvent::Enable);
                    }
                }
            } else {
                assert(!(forall|j: int|
                    0 <= j < rest.len() ==> (#[trigger] rest[j]) != RawEvent::Enable));
                let j = choose|j: int|
                    0 <= j < rest.len() && (#[trigger] rest[j]) == RawEvent::Enable;
                assert(events[j + 1] == RawEvent::Enable);
            }
        }
    }
}

} // verus!
