//! Holding devices across a VT switch.
//!
//! A seat hands out descriptors it can revoke. What arrives from it is two
//! events: *paused*, after which nothing held may be touched, and *resumed*,
//! with fresh descriptors for everything. Which devices are held, what happens
//! to them across a pause, and what a caller may do while inactive is decided
//! here, over whatever seat is underneath.

use std::collections::VecDeque;
use vstd::prelude::*;
use crate::path::{is_same_path, same_path};

verus! {

/// What can go wrong holding a session.
#[derive(Debug, Clone, PartialEq, Eq)]
#[non_exhaustive]
pub enum SessionError {
    /// No seat backend is available.
    NoBackend,
    /// The seat is not active, so devices cannot be opened.
    Inactive,
    /// The device is not one this session opened.
    UnknownDevice,
    /// The seat refused.
    Seat(String),
}

/// A seat's handle for one open device.
#[derive(Debug, Clone, Copy, PartialEq, Eq, Hash, Structural)]
pub struct DeviceId(pub i32);

/// A device this session is holding.
#[derive(Debug, PartialEq, Eq)]
pub struct TakenDevice {
    /// Where it was opened from. A resume reopens by path.
    pub path: String,
    /// The seat's handle, for closing it.
    pub id: DeviceId,
    /// The descriptor as it stands now. The seat closes it.
    pub fd: i32,
}

/// Whether two records describe the same open device.
pub open spec fn same_device(a: TakenDevice, b: TakenDevice) -> bool {
    a.path@ == b.path@ && a.id == b.id && a.fd == b.fd
}

/// Whether two lists describe the same open devices, in order.
pub open spec fn same_devices(a: Seq<TakenDevice>, b: Seq<TakenDevice>) -> bool {
    a.len() == b.len() && forall|i: int| 0 <= i < a.len() ==> same_device(#[trigger] a[i], b[i])
}

impl Clone for TakenDevice {
    fn clone(&self) -> (copy: Self)
        ensures
            same_device(*self, copy),
    {
        TakenDevice { path: self.path.clone(), id: self.id, fd: self.fd }
    }
}

/// What a seat says, before the session has made sense of it.
#[derive(Debug, Clone, Copy, PartialEq, Eq, Structural)]
pub enum RawEvent {
    /// The session has become active.
    Enable,
    /// The session is about to become inactive.
    Disable,
}

/// What a caller needs to act on.
#[derive(Debug, PartialEq, Eq)]
pub enum SessionEvent {
    /// Stop touching every device now.
    Paused,
    /// The devices are back, on new descriptors.
    Resumed {
        /// The devices as they now stand, in the order they were taken.
        devices: Vec<TakenDevice>,
    },
}

/// What a seat has to be able to do.
pub trait Backend {
    /// Open a device the seat controls.
    fn open_device(&mut self, path: &str) -> Result<(DeviceId, i32), SessionError>;

    /// Close one this session opened.
    fn close_device(&mut self, id: DeviceId) -> Result<(), SessionError>;

    /// Tell the seat the pause has been acted on.
    fn acknowledge_pause(&mut self) -> Result<(), SessionError>;

    /// Ask to switch to another session, by VT number.
    fn switch_session(&mut self, session: i32) -> Result<(), SessionError>;

    /// A descriptor that becomes readable when the seat has something to say.
    fn poll_fd(&self) -> Option<i32>;

    /// Let the seat deliver whatever it has, appending to `events`.
    fn dispatch(&mut self, timeout_ms: i32, events: &mut Vec<RawEvent>) -> Result<(), SessionError>;
}

/// One call made on the seat, with what came back.
#[allow(inconsistent_fields)]
pub enum SeatCall {
    /// A device was opened.
    Opened {
        /// Its path.
        path: Seq<char>,
        /// The answer.
        result: Result<(DeviceId, i32), SessionError>,
    },
    /// A device was closed.
    Closed {
        /// Its handle.
        id: DeviceId,
        /// The answer.
        result: Result<(), SessionError>,
    },
    /// A pause was acknowledged.
    Acknowledged {
        /// The answer.
        result: Result<(), SessionError>,
    },
    /// A switch was asked for.
    Switched {
        /// The VT.
        session: i32,
        /// The answer.
        result: Result<(), SessionError>,
    },
    /// The seat was dispatched.
    Dispatched {
        /// How long it was allowed to wait.
        timeout_ms: i32,
        /// What it delivered.
        events: Seq<RawEvent>,
        /// The answer.
        result: Result<(), SessionError>,
    },
}

/// Devices held across VT switches.
pub struct Session<B: Backend> {
    /// The seat.
    pub backend: B,
    /// The devices held, in the order they were taken.
    pub devices: Vec<TakenDevice>,
    /// Whether the session owns the display.
    pub active: bool,
    /// What the caller has yet to act on, oldest first.
    pub pending: VecDeque<SessionEvent>,
    /// Every call made on the seat, in order.
    pub calls: Ghost<Seq<SeatCall>>,
}

/// The first held device with a path.
pub open spec fn place_of_path(devices: Seq<TakenDevice>, path: Seq<char>) -> Option<int>
    decreases devices.len(),
{
    if devices.len() == 0 {
        None
    } else if same_path(devices[0].path@, path) {
        Some(0)
    } else {
        match place_of_path(devices.skip(1), path) {
            Some(place) => Some(place + 1),
            None => None,
        }
    }
}

/// Whether no path is held twice.
pub open spec fn distinct_paths(devices: Seq<TakenDevice>) -> bool {
    forall|i: int, j: int|
        0 <= i < j < devices.len() ==> !same_path(
            (#[trigger] devices[i]).path@,
            (#[trigger] devices[j]).path@,
        )
}

/// Whether a path is held.
pub open spec fn holds_path(devices: Seq<TakenDevice>, path: Seq<char>) -> bool {
    place_of_path(devices, path) is Some
}

proof fn lemma_holds_path(devices: Seq<TakenDevice>, path: Seq<char>)
    ensures
        holds_path(devices, path) == exists|i: int|
            0 <= i < devices.len() && same_path((#[trigger] devices[i]).path@, path),
        place_of_path(devices, path) matches Some(place) ==> 0 <= place < devices.len()
            && same_path(devices[place].path@, path),
    decreases devices.len(),
{
    if devices.len() > 0 && !same_path(devices[0].path@, path) {
        let rest = devices.skip(1);
        lemma_holds_path(rest, path);
        if holds_path(rest, path) {
            let i = choose|i: int| 0 <= i < rest.len() && same_path((#[trigger] rest[i]).path@, path);
            assert(same_path(devices[i + 1].path@, path));
        }
        if exists|i: int| 0 <= i < devices.len() && same_path((#[trigger] devices[i]).path@, path) {
            let i = choose|i: int| 0 <= i < devices.len() && same_path((#[trigger] devices[i]).path@, path);
            assert(rest[i - 1] == devices[i]);
        }
        if let Some(place) = place_of_path(rest, path) {
            assert(rest[place] == devices[place + 1]);
        }
    }
}

proof fn lemma_place_of_path(devices: Seq<TakenDevice>, path: Seq<char>, upto: int)
    requires
        0 <= upto <= devices.len(),
        forall|i: int| 0 <= i < upto ==> !same_path((#[trigger] devices[i]).path@, path),
    ensures
        upto == devices.len() ==> place_of_path(devices, path) is None,
        upto < devices.len() && same_path(
            devices[upto].path@,
            path,
        ) ==> place_of_path(devices, path) == Some(
            upto,
        ),
    decreases upto,
{
    if upto > 0 {
        let rest = devices.skip(1);
        assert forall|i: int| 0 <= i < upto - 1 implies !same_path((#[trigger] rest[i]).path@, path) by {
            assert(rest[i] == devices[i + 1]);
        }
        lemma_place_of_path(rest, path, upto - 1);
        if upto < devices.len() {
            assert(rest[upto - 1] == devices[upto]);
        }
    }
}

/// How a session reacts to the seat going away.
///
/// The first time, the caller is told and the pause acknowledged at once.
/// Repeated, nothing happens.
pub open spec fn disabled<B: Backend>(
    before: Session<B>,
    after: Session<B>,
    result: Result<(), SessionError>,
) -> bool {
    if before.active {
        &&& after.pending@ == before.pending@.push(SessionEvent::Paused)
        &&& after.calls@ == before.calls@.push(SeatCall::Acknowledged { result })
        &&& after == (Session {
            backend: after.backend,
            active: false,
            pending: after.pending,
            calls: after.calls,
            ..before
        })
    } else {
        after == before && result == Ok::<(), SessionError>(())
    }
}

/// Whether `calls` closes and reopens the first `count` devices, one after the
/// other, each with success, and `reopened` is what came of it.
pub open spec fn reopens(
    devices: Seq<TakenDevice>,
    count: int,
    calls: Seq<SeatCall>,
    reopened: Seq<TakenDevice>,
) -> bool {
    &&& 0 <= count <= devices.len()
    &&& calls.len() == 2 * count
    &&& reopened.len() == count
    &&& forall|i: int|
        #![trigger reopened[i]]
        0 <= i < count ==> {
            &&& calls[2 * i] == (SeatCall::Closed { id: devices[i].id, result: Ok(()) })
            &&& calls[2 * i + 1] == (SeatCall::Opened {
                path: devices[i].path@,
                result: Ok((reopened[i].id, reopened[i].fd)),
            })
            &&& reopened[i].path@ == devices[i].path@
        }
}

/// How a resume fails: some devices were reopened, and then a close or an open
/// was refused.
pub open spec fn reopen_refused(
    devices: Seq<TakenDevice>,
    calls: Seq<SeatCall>,
    error: SessionError,
    count: int,
    reopened: Seq<TakenDevice>,
) -> bool {
    &&& count < devices.len()
    &&& reopens(devices, count, calls.take(2 * count), reopened)
    &&& if calls.len() == 2 * count + 1 {
        calls[2 * count] == (SeatCall::Closed { id: devices[count].id, result: Err(error) })
    } else {
        &&& calls.len() == 2 * count + 2
        &&& calls[2 * count] == (SeatCall::Closed { id: devices[count].id, result: Ok(()) })
        &&& calls[2 * count + 1] == (SeatCall::Opened {
            path: devices[count].path@,
            result: Err(error),
        })
    }
}

/// How a session reacts to the seat coming back.
///
/// Every device is closed and reopened, in the order they were taken, and the
/// caller is told of them as they now stand. If the seat refuses one, the
/// devices are lost and the caller is given the error. A session that was
/// active already does nothing.
pub open spec fn enabled<B: Backend>(
    before: Session<B>,
    after: Session<B>,
    result: Result<(), SessionError>,
) -> bool {
    if before.active {
        after == before && result == Ok::<(), SessionError>(())
    } else {
        let made = after.calls@.skip(before.calls@.len() as int);
        &&& after.active
        &&& after.calls@ == before.calls@ + made
        &&& match result {
            Ok(()) => {
                &&& reopens(before.devices@, before.devices@.len() as int, made, after.devices@)
                &&& after.pending@.len() == before.pending@.len() + 1
                &&& after.pending@.drop_last() == before.pending@
                &&& after.pending@.last() matches SessionEvent::Resumed { devices }
                    && same_devices(after.devices@, devices@)
            },
            Err(error) => {
                &&& after.pending == before.pending
                &&& after.devices@.len() == 0
                &&& exists|count: int, reopened: Seq<TakenDevice>| #[trigger]
                    reopen_refused(before.devices@, made, error, count, reopened)
            },
        }
    }
}

/// How a session reacts to one event.
pub open spec fn reacts<B: Backend>(
    before: Session<B>,
    event: RawEvent,
    after: Session<B>,
    result: Result<(), SessionError>,
) -> bool {
    match event {
        RawEvent::Disable => disabled(before, after, result),
        RawEvent::Enable => enabled(before, after, result),
    }
}

/// Whether `states` is a session reacting to the first events of a run, each
/// with success.
pub open spec fn reacts_to_all<B: Backend>(states: Seq<Session<B>>, events: Seq<RawEvent>) -> bool {
    &&& states.len() >= 1
    &&& states.len() <= events.len() + 1
    &&& forall|i: int|
        #![trigger states[i]]
        0 <= i < states.len() - 1 ==> reacts(states[i], events[i], states[i + 1], Ok(()))
}

impl<B: Backend> Session<B> {
    /// Wrap a seat that is currently active.
    pub fn new(backend: B) -> (session: Self)
        ensures
            session.backend == backend,
            session.devices@.len() == 0,
            session.active,
            session.pending@.len() == 0,
            session.calls@.len() == 0,
    {
        Session {
            backend,
            devices: Vec::new(),
            active: true,
            pending: VecDeque::new(),
            calls: Ghost(Seq::empty()),
        }
    }

    /// Whether the session currently owns the display.
    pub fn is_active(&self) -> (active: bool)
        ensures
            active == self.active,
    {
        self.active
    }

    /// The devices being held.
    pub fn devices(&self) -> (devices: &Vec<TakenDevice>)
        ensures
            *devices == self.devices,
    {
        &self.devices
    }

    /// The seat underneath.
    pub fn backend(&self) -> (backend: &B)
        ensures
            *backend == self.backend,
    {
        &self.backend
    }

    /// The seat underneath, mutably.
    pub fn backend_mut(&mut self) -> (backend: &mut B)
        ensures
            *backend == old(self).backend,
            *final(self) == (Session { backend: *final(backend), ..*old(self) }),
    {
        &mut self.backend
    }

    /// A descriptor to poll for seat activity: the seat's own.
    pub fn poll_fd(&self) -> (fd: Option<i32>)
        ensures
            call_ensures(B::poll_fd, (&self.backend,), fd),
    {
        self.backend.poll_fd()
    }

    fn find_path(&self, path: &str) -> (place: Option<usize>)
        ensures
            match (place, place_of_path(self.devices@, path@)) {
                (Some(found), Some(place)) => found == place && found < self.devices@.len(),
                (None, None) => true,
                _ => false,
            },
    {
        let mut i: usize = 0;
        while i < self.devices.len()
            invariant
                0 <= i <= self.devices@.len(),
                forall|j: int|
                    0 <= j < i ==> !same_path((#[trigger] self.devices@[j]).path@, path@),
            decreases self.devices@.len() - i,
        {
            if is_same_path(self.devices[i].path.as_str(), path) {
                proof {
                    lemma_place_of_path(self.devices@, path@, i as int);
                }
                return Some(i);
            }
            i += 1;
        }
        proof {
            lemma_place_of_path(self.devices@, path@, i as int);
        }
        None
    }

    /// Open a device through the seat and hold it.
    ///
    /// Refused while the session does not own the display. Taking a path that is
    /// already held, however it is spelled, gives what is held rather than a
    /// second descriptor, and the seat is not asked.
    pub fn take_device(&mut self, path: &str) -> (taken: Result<TakenDevice, SessionError>)
        ensures
            if !old(self).active {
                taken == Err::<TakenDevice, SessionError>(SessionError::Inactive) && *final(self)
                    == *old(self)
            } else {
                match place_of_path(old(self).devices@, path@) {
                    Some(place) => taken matches Ok(device) && same_device(
                        old(self).devices@[place],
                        device,
                    ) && *final(self) == *old(self),
                    None => {
                        &&& final(self).calls@.len() == old(self).calls@.len() + 1
                        &&& final(self).calls@.drop_last() == old(self).calls@
                        &&& final(self).calls@.last() matches SeatCall::Opened { path: p, result }
                            && p == path@ && match result {
                            Ok((id, fd)) => {
                                &&& taken matches Ok(device) && device.path@ == path@ && device.id
                                    == id && device.fd == fd
                                &&& final(self).devices@.len() == old(self).devices@.len() + 1
                                &&& final(self).devices@.drop_last() == old(self).devices@
                                &&& same_device(final(self).devices@.last(), taken->Ok_0)
                            },
                            Err(error) => taken == Err::<TakenDevice, SessionError>(error)
                                && final(self).devices == old(self).devices,
                        }
                        &&& *final(self) == (Session {
                            backend: final(self).backend,
                            devices: final(self).devices,
                            calls: final(self).calls,
                            ..*old(self)
                        })
                    },
                }
            },
            old(self).active && place_of_path(old(self).devices@, path@) is None ==> exists|
                asked: &mut B,
                result: Result<(DeviceId, i32), SessionError>,
            |
                *asked == old(self).backend && *final(asked) == final(self).backend
                    && #[trigger] call_ensures(B::open_device, (asked, path), result)
                    && final(self).calls@.last() == (SeatCall::Opened { path: path@, result }),
            distinct_paths(old(self).devices@) ==> distinct_paths(final(self).devices@),
            taken is Ok ==> holds_path(final(self).devices@, path@),
    {
        proof {
            lemma_holds_path(self.devices@, path@);
        }
        if !self.active {
            return Err(SessionError::Inactive);
        }
        if let Some(place) = self.find_path(path) {
            return Ok(self.devices[place].clone());
        }
        let ghost before = *self;
        let result = self.backend.open_device(path);
        self.calls = Ghost(self.calls@.push(SeatCall::Opened { path: path@, result }));
        assert(self.calls@.drop_last() =~= before.calls@);
        match result {
            Ok((id, fd)) => {
                let device = TakenDevice { path: path.to_owned(), id, fd };
                let held = device.clone();
                self.devices.push(held);
                proof {
                    assert(self.devices@.drop_last() =~= before.devices@);
                    lemma_holds_path(self.devices@, path@);
                    assert(self.devices@[before.devices@.len() as int].path@ == path@);
                }
                Ok(device)
            },
            Err(error) => Err(error),
        }
    }

    /// Give a device back to the seat.
    ///
    /// It is no longer held whatever the seat answers.
    pub fn release_device(&mut self, path: &str) -> (released: Result<(), SessionError>)
        ensures
            match place_of_path(old(self).devices@, path@) {
                None => released == Err::<(), SessionError>(SessionError::UnknownDevice)
                    && *final(self) == *old(self),
                Some(place) => {
                    &&& final(self).devices@ == old(self).devices@.remove(place)
                    &&& final(self).calls@ == old(self).calls@.push(
                        SeatCall::Closed { id: old(self).devices@[place].id, result: released },
                    )
                    &&& *final(self) == (Session {
                        backend: final(self).backend,
                        devices: final(self).devices,
                        calls: final(self).calls,
                        ..*old(self)
                    })
                },
            },
            place_of_path(old(self).devices@, path@) matches Some(place) ==> exists|asked: &mut B|
                *asked == old(self).backend && *final(asked) == final(self).backend
                    && #[trigger] call_ensures(
                    B::close_device,
                    (asked, old(self).devices@[place].id),
                    released,
                ),
            distinct_paths(old(self).devices@) ==> distinct_paths(final(self).devices@)
                && !holds_path(final(self).devices@, path@),
    {
        proof {
            lemma_holds_path(self.devices@, path@);
        }
        let ghost before = self.devices@;
        let place: usize = match self.find_path(path) {
            Some(place) => place,
            None => {
                return Err(SessionError::UnknownDevice);
            },
        };
        let device = self.devices.remove(place);
        proof {
            lemma_holds_path(self.devices@, path@);
            let after = self.devices@;
            if distinct_paths(before) {
                assert forall|i: int, j: int| 0 <= i < j < after.len() implies !same_path(
                    (#[trigger] after[i]).path@,
                    (#[trigger] after[j]).path@,
                ) by {
                    let oi = if i < place {
                        i
                    } else {
                        i + 1
                    };
                    let oj = if j < place {
                        j
                    } else {
                        j + 1
                    };
                    assert(after[i] == before[oi] && after[j] == before[oj]);
                }
                assert forall|i: int| 0 <= i < after.len() implies !same_path(
                    (#[trigger] after[i]).path@,
                    path@,
                ) by {
                    let oi = if i < place {
                        i
                    } else {
                        i + 1
                    };
                    assert(after[i] == before[oi]);
                    assert(same_path(before[place as int].path@, path@));
                }
            }
        }
        let result = self.backend.close_device(device.id);
        self.calls = Ghost(self.calls@.push(SeatCall::Closed { id: device.id, result }));
        result
    }

    /// Ask to switch to another session, by VT number. Nothing changes until the
    /// seat says so.
    pub fn switch_session(&mut self, session: i32) -> (asked: Result<(), SessionError>)
        ensures
            final(self).calls@ == old(self).calls@.push(
                SeatCall::Switched { session, result: asked },
            ),
            exists|seat: &mut B|
                *seat == old(self).backend && *final(seat) == final(self).backend
                    && #[trigger] call_ensures(B::switch_session, (seat, session), asked),
            *final(self) == (Session {
                backend: final(self).backend,
                calls: final(self).calls,
                ..*old(self)
            }),
    {
        let result = self.backend.switch_session(session);
        self.calls = Ghost(self.calls@.push(SeatCall::Switched { session, result }));
        result
    }

    /// The next thing the caller has to act on.
    pub fn next_event(&mut self) -> (event: Option<SessionEvent>)
        ensures
            if old(self).pending@.len() > 0 {
                event == Some(old(self).pending@[0]) && final(self).pending@ == old(
                    self,
                ).pending@.skip(1)
            } else {
                event is None && final(self).pending@ == old(self).pending@
            },
            *final(self) == (Session { pending: final(self).pending, ..*old(self) }),
    {
        let ghost before = self.pending@;
        let event = self.pending.pop_front();
        assert(before.len() > 0 ==> self.pending@ =~= before.skip(1));
        event
    }

    /// Handle the seat going away.
    fn on_disable(&mut self) -> (result: Result<(), SessionError>)
        ensures
            disabled(*old(self), *final(self), result),
            old(self).active ==> exists|asked: &mut B|
                *asked == old(self).backend && *final(asked) == final(self).backend
                    && #[trigger] call_ensures(B::acknowledge_pause, (asked,), result),
    {
        if !self.active {
            return Ok(());
        }
        self.active = false;
        self.pending.push_back(SessionEvent::Paused);
        let result = self.backend.acknowledge_pause();
        self.calls = Ghost(self.calls@.push(SeatCall::Acknowledged { result }));
        result
    }

    /// Handle the seat coming back.
    ///
    /// The seat's states in between come back too: one call leads from each to the
    /// next.
    fn on_enable(&mut self) -> (reaction: (Result<(), SessionError>, Ghost<Seq<B>>))
        ensures
            enabled(*old(self), *final(self), reaction.0),
            chained(old(self).backend, reaction.1@, final(self).backend),
            reaction.1@.len() == since(*old(self), *final(self)).len() + 1,
            forall|k: int|
                #![trigger reaction.1@[k]]
                0 <= k < since(*old(self), *final(self)).len() ==> {
                    ||| exists|
                        asked: &mut B,
                        path: &str,
                        result: Result<(DeviceId, i32), SessionError>,
                    |
                        *asked == reaction.1@[k] && *final(asked) == reaction.1@[k + 1]
                            && #[trigger] call_ensures(B::open_device, (asked, path), result)
                            && since(
                                *old(self),
                                *final(self),
                            )[k] == (SeatCall::Opened { path: path@, result })
                    ||| exists|asked: &mut B, id: DeviceId, result: Result<(), SessionError>|
                        *asked == reaction.1@[k] && *final(asked) == reaction.1@[k + 1]
                            && #[trigger] call_ensures(B::close_device, (asked, id), result)
                            && since(
                                *old(self),
                                *final(self),
                            )[k] == (SeatCall::Closed { id, result })
                    ||| exists|asked: &mut B, result: Result<(), SessionError>|
                        *asked == reaction.1@[k] && *final(asked) == reaction.1@[k + 1]
                            && #[trigger] call_ensures(B::acknowledge_pause, (asked,), result)
                            && since(
                                *old(self),
                                *final(self),
                            )[k] == (SeatCall::Acknowledged { result })
                },
    {
        let ghost mut seats: Seq<B> = seq![self.backend];
        if self.active {
            return (Ok(()), Ghost(seats));
        }
        let ghost before = *self;
        self.active = true;
        let mut rest: Vec<TakenDevice> = Vec::new();
        core::mem::swap(&mut rest, &mut self.devices);
        let ghost all = rest@;
        let mut reopened: Vec<TakenDevice> = Vec::new();
        let mut told: Vec<TakenDevice> = Vec::new();
        let ghost mut made: Seq<SeatCall> = Seq::empty();
        let ghost done: int = 0;
        assert(before.calls@ + made =~= before.calls@);
        while rest.len() > 0
            invariant
                before == *old(self),
                !before.active,
                all == before.devices@,
                0 <= done <= all.len(),
                rest@ == all.skip(done),
                reopens(all, done, made, reopened@),
                same_devices(reopened@, told@),
                self.calls@ == before.calls@ + made,
                self.active,
                self.devices@.len() == 0,
                self.pending == before.pending,
                chained(before.backend, seats, self.backend),
                seats.len() == made.len() + 1,
                forall|k: int|
                    #![trigger seats[k]]
                    0 <= k < made.len() ==> {
                        ||| exists|
                            asked: &mut B,
                            path: &str,
                            result: Result<(DeviceId, i32), SessionError>,
                        |
                            *asked == seats[k] && *final(asked) == seats[k + 1]
                                && #[trigger] call_ensures(B::open_device, (asked, path), result)
                                && made[k] == (SeatCall::Opened { path: path@, result })
                        ||| exists|asked: &mut B, id: DeviceId, result: Result<(), SessionError>|
                            *asked == seats[k] && *final(asked) == seats[k + 1]
                                && #[trigger] call_ensures(B::close_device, (asked, id), result)
                                && made[k] == (SeatCall::Closed { id, result })
                        ||| exists|asked: &mut B, result: Result<(), SessionError>|
                            *asked == seats[k] && *final(asked) == seats[k + 1]
                                && #[trigger] call_ensures(B::acknowledge_pause, (asked,), result)
                                && made[k] == (SeatCall::Acknowledged { result })
                    },
            decreases rest@.len(),
        {
            let ghost made_before = made;
            let ghost reopened_before = reopened@;
            let device = rest.remove(0);
            assert(device == all[done]);
            assert(rest@ =~= all.skip(done + 1));
            let closed = self.backend.close_device(device.id);
            proof {
                seats = seats.push(self.backend);
                made = made.push(SeatCall::Closed { id: device.id, result: closed });
                assert(before.calls@ + made =~= (before.calls@ + made_before).push(made.last()));
            }
            self.calls = Ghost(self.calls@.push(made.last()));
            if let Err(error) = closed {
                proof {
                    assert(made.take(2 * done) =~= made_before);
                    assert(self.calls@.skip(before.calls@.len() as int) =~= made);
                    assert(reopen_refused(all, made, error, done, reopened_before));
                }
                return (Err(error), Ghost(seats));
            }
            let ghost made_closed = made;
            assert(closed->Ok_0 == ());
            let opened = self.backend.open_device(device.path.as_str());
            proof {
                seats = seats.push(self.backend);
                made = made.push(SeatCall::Opened { path: device.path@, result: opened });
                assert(before.calls@ + made =~= (before.calls@ + made_closed).push(made.last()));
            }
            self.calls = Ghost(self.calls@.push(made.last()));
            match opened {
                Err(error) => {
                    proof {
                        assert(made.take(2 * done) =~= made_before);
                        assert(self.calls@.skip(before.calls@.len() as int) =~= made);
                        assert(reopen_refused(all, made, error, done, reopened_before));
                    }
                    return (Err(error), Ghost(seats));
                },
                Ok((id, fd)) => {
                    let fresh = TakenDevice { path: device.path, id, fd };
                    let copy = fresh.clone();
                    reopened.push(fresh);
                    told.push(copy);
                },
            }
            proof {
                assert forall|i: int|
                    #![trigger reopened@[i]]
                    0 <= i < done + 1 implies {
                    &&& made[2 * i] == (SeatCall::Closed { id: all[i].id, result: Ok(()) })
                    &&& made[2 * i + 1] == (SeatCall::Opened {
                        path: all[i].path@,
                        result: Ok((reopened@[i].id, reopened@[i].fd)),
                    })
                    &&& reopened@[i].path@ == all[i].path@
                } by {
                    if i < done {
                        assert(reopened@[i] == reopened_before[i]);
                        assert(made[2 * i] == made_before[2 * i]);
                        assert(made[2 * i + 1] == made_before[2 * i + 1]);
                    }
                }
                done = done + 1;
            }
        }
        self.devices = reopened;
        self.pending.push_back(SessionEvent::Resumed { devices: told });
        proof {
            assert(self.calls@.skip(before.calls@.len() as int) =~= made);
            assert(self.pending@.drop_last() =~= before.pending@);
        }
        (Ok(()), Ghost(seats))
    }

    /// React to one event, with the seat's states in between.
    fn react_once(
        &mut self,
        event: RawEvent,
    ) -> (reaction: (Result<(), SessionError>, Ghost<Seq<B>>))
        ensures
            reacts(*old(self), event, *final(self), reaction.0),
            chained(old(self).backend, reaction.1@, final(self).backend),
            reaction.1@.len() == since(*old(self), *final(self)).len() + 1,
            forall|k: int|
                #![trigger reaction.1@[k]]
                0 <= k < since(*old(self), *final(self)).len() ==> {
                    ||| exists|
                        asked: &mut B,
                        path: &str,
                        result: Result<(DeviceId, i32), SessionError>,
                    |
                        *asked == reaction.1@[k] && *final(asked) == reaction.1@[k + 1]
                            && #[trigger] call_ensures(B::open_device, (asked, path), result)
                            && since(
                                *old(self),
                                *final(self),
                            )[k] == (SeatCall::Opened { path: path@, result })
                    ||| exists|asked: &mut B, id: DeviceId, result: Result<(), SessionError>|
                        *asked == reaction.1@[k] && *final(asked) == reaction.1@[k + 1]
                            && #[trigger] call_ensures(B::close_device, (asked, id), result)
                            && since(
                                *old(self),
                                *final(self),
                            )[k] == (SeatCall::Closed { id, result })
                    ||| exists|asked: &mut B, result: Result<(), SessionError>|
                        *asked == reaction.1@[k] && *final(asked) == reaction.1@[k + 1]
                            && #[trigger] call_ensures(B::acknowledge_pause, (asked,), result)
                            && since(
                                *old(self),
                                *final(self),
                            )[k] == (SeatCall::Acknowledged { result })
                },
    {
        match event {
            RawEvent::Enable => self.on_enable(),
            RawEvent::Disable => {
                let ghost before = *self;
                let result = self.on_disable();
                let ghost seats = if before.active {
                    seq![before.backend, self.backend]
                } else {
                    seq![before.backend]
                };
                proof {
                    if before.active {
                        assert(since(before, *self) =~= seq![SeatCall::Acknowledged { result }]);
                    } else {
                        assert(since(before, *self) =~= Seq::empty());
                    }
                }
                (result, Ghost(seats))
            },
        }
    }

    /// React to events in order, with the session's and the seat's states in
    /// between. A reaction the seat refuses ends it.
    fn react_all(&mut self, events: &Vec<RawEvent>) -> (reaction: (
        Result<(), SessionError>,
        Ghost<(Seq<Session<B>>, Seq<B>)>,
    ))
        ensures
            reacted(*old(self), reaction.1@.0, events@, *final(self), reaction.0),
            chained(old(self).backend, reaction.1@.1, final(self).backend),
            reaction.1@.1.len() == since(*old(self), *final(self)).len() + 1,
            final(self).calls@ == old(self).calls@ + since(*old(self), *final(self)),
            forall|k: int|
                #![trigger reaction.1@.1[k]]
                0 <= k < since(*old(self), *final(self)).len() ==> {
                    ||| exists|
                        asked: &mut B,
                        path: &str,
                        result: Result<(DeviceId, i32), SessionError>,
                    |
                        *asked == reaction.1@.1[k] && *final(asked) == reaction.1@.1[k + 1]
                            && #[trigger] call_ensures(B::open_device, (asked, path), result)
                            && since(
                                *old(self),
                                *final(self),
                            )[k] == (SeatCall::Opened { path: path@, result })
                    ||| exists|asked: &mut B, id: DeviceId, result: Result<(), SessionError>|
                        *asked == reaction.1@.1[k] && *final(asked) == reaction.1@.1[k + 1]
                            && #[trigger] call_ensures(B::close_device, (asked, id), result)
                            && since(
                                *old(self),
                                *final(self),
                            )[k] == (SeatCall::Closed { id, result })
                    ||| exists|asked: &mut B, result: Result<(), SessionError>|
                        *asked == reaction.1@.1[k] && *final(asked) == reaction.1@.1[k + 1]
                            && #[trigger] call_ensures(B::acknowledge_pause, (asked,), result)
                            && since(
                                *old(self),
                                *final(self),
                            )[k] == (SeatCall::Acknowledged { result })
                },
    {
        let ghost mut states: Seq<Session<B>> = seq![*self];
        let ghost mut seats: Seq<B> = seq![self.backend];
        let mut i: usize = 0;
        proof {
            assert(since(*self, *self) =~= Seq::empty());
            assert(self.calls@ + since(*self, *self) =~= self.calls@);
        }
        while i < events.len()
            invariant
                0 <= i <= events@.len(),
                states.len() == i + 1,
                states[0] == *old(self),
                states.last() == *self,
                reacts_to_all(states, events@),
                chained(old(self).backend, seats, self.backend),
                seats.len() == since(*old(self), *self).len() + 1,
                self.calls@ == old(self).calls@ + since(*old(self), *self),
                forall|k: int|
                    #![trigger seats[k]]
                    0 <= k < since(*old(self), *self).len() ==> {
                        ||| exists|
                            asked: &mut B,
                            path: &str,
                            result: Result<(DeviceId, i32), SessionError>,
                        |
                            *asked == seats[k] && *final(asked) == seats[k + 1]
                                && #[trigger] call_ensures(B::open_device, (asked, path), result)
                                && since(
                                    *old(self),
                                    *self,
                                )[k] == (SeatCall::Opened { path: path@, result })
                        ||| exists|asked: &mut B, id: DeviceId, result: Result<(), SessionError>|
                            *asked == seats[k] && *final(asked) == seats[k + 1]
                                && #[trigger] call_ensures(B::close_device, (asked, id), result)
                                && since(*old(self), *self)[k] == (SeatCall::Closed { id, result })
                        ||| exists|asked: &mut B, result: Result<(), SessionError>|
                            *asked == seats[k] && *final(asked) == seats[k + 1]
                                && #[trigger] call_ensures(B::acknowledge_pause, (asked,), result)
                                && since(
                                    *old(self),
                                    *self,
                                )[k] == (SeatCall::Acknowledged { result })
                    },
            decreases events@.len() - i,
        {
            let ghost before = *self;
            let ghost states_before = states;
            let ghost seats_before = seats;
            let (reaction, more) = self.react_once(events[i]);
            proof {
                lemma_calls_grow(before, events@[i as int], *self, reaction);
                seats = seats_before + more@.skip(1);
                let base = since(*old(self), before);
                let added = since(before, *self);
                let total = since(*old(self), *self);
                assert(total =~= base + added);
                assert(self.calls@ =~= old(self).calls@ + total);
                assert forall|k: int| 0 <= k <= added.len() implies seats[base.len() + k]
                    == #[trigger] more@[k] by {
                    if k == 0 {
                        assert(seats[base.len() as int] == seats_before.last());
                    }
                }
                assert forall|k: int| 0 <= k <= base.len() implies #[trigger] seats[k]
                    == seats_before[k] by {}
                assert forall|k: int| 0 <= k < added.len() implies #[trigger] added[k]
                    == total[base.len() + k] by {}
                assert forall|k: int|
                    #![trigger seats[k]]
                    0 <= k < total.len() implies {
                        ||| exists|
                            asked: &mut B,
                            path: &str,
                            result: Result<(DeviceId, i32), SessionError>,
                        |
                            *asked == seats[k] && *final(asked) == seats[k + 1]
                                && #[trigger] call_ensures(B::open_device, (asked, path), result)
                                && total[k] == (SeatCall::Opened { path: path@, result })
                        ||| exists|asked: &mut B, id: DeviceId, result: Result<(), SessionError>|
                            *asked == seats[k] && *final(asked) == seats[k + 1]
                                && #[trigger] call_ensures(B::close_device, (asked, id), result)
                                && total[k] == (SeatCall::Closed { id, result })
                        ||| exists|asked: &mut B, result: Result<(), SessionError>|
                            *asked == seats[k] && *final(asked) == seats[k + 1]
                                && #[trigger] call_ensures(B::acknowledge_pause, (asked,), result)
                                && total[k] == (SeatCall::Acknowledged { result })
                    } by {
                    if k < base.len() {
                        assert(seats_before[k] == seats[k]);
                        assert(seats_before[k + 1] == seats[k + 1]);
                        assert(base[k] == total[k]);
                    } else {
                        let j = k - base.len();
                        assert(more@[j] == seats[k]);
                        assert(more@[j + 1] == seats[k + 1]);
                        assert(added[j] == total[k]);
                    }
                }
                assert(chained(old(self).backend, seats, self.backend));
            }
            if let Err(error) = reaction {
                return (Err(error), Ghost((states, seats)));
            }
            proof {
                assert(reaction->Ok_0 == ());
                states = states.push(*self);
                assert forall|k: int|
                    #![trigger states[k]]
                    0 <= k < states.len() - 1 implies reacts(
                    states[k],
                    events@[k],
                    states[k + 1],
                    Ok(()),
                ) by {
                    if k < i {
                        assert(states[k] == states_before[k]);
                        assert(states[k + 1] == states_before[k + 1]);
                    }
                }
            }
            i += 1;
        }
        (Ok(()), Ghost((states, seats)))
    }

    /// React to what the seat delivered, in order, given the seat's own answer.
    ///
    /// A reaction the seat refuses ends it with that error; otherwise the answer
    /// is given.
    pub fn handle_events(&mut self, events: &Vec<RawEvent>, answer: Result<(), SessionError>) -> (
        result: Result<(), SessionError>)
        ensures
            exists|states: Seq<Session<B>>, reaction: Result<(), SessionError>|
                #[trigger] reacted(*old(self), states, events@, *final(self), reaction)
                    && result == match reaction {
                    Ok(()) => answer,
                    Err(error) => Err(error),
                },
            exists|seats: Seq<B>|
                #[trigger] chained(old(self).backend, seats, final(self).backend) && seats.len()
                    == since(*old(self), *final(self)).len() + 1 && forall|k: int|
                        #![trigger seats[k]]
                        0 <= k < since(*old(self), *final(self)).len() ==> {
                            ||| exists|
                                asked: &mut B,
                                path: &str,
                                result: Result<(DeviceId, i32), SessionError>,
                            |
                                *asked == seats[k] && *final(asked) == seats[k + 1]
                                    && #[trigger] call_ensures(
                                        B::open_device,
                                        (asked, path),
                                        result,
                                    )
                                    && since(
                                        *old(self),
                                        *final(self),
                                    )[k] == (SeatCall::Opened { path: path@, result })
                            ||| exists|
                                asked: &mut B,
                                id: DeviceId,
                                result: Result<(), SessionError>,
                            |
                                *asked == seats[k] && *final(asked) == seats[k + 1]
                                    && #[trigger] call_ensures(B::close_device, (asked, id), result)
                                    && since(
                                        *old(self),
                                        *final(self),
                                    )[k] == (SeatCall::Closed { id, result })
                            ||| exists|asked: &mut B, result: Result<(), SessionError>|
                                *asked == seats[k] && *final(asked) == seats[k + 1]
                                    && #[trigger] call_ensures(
                                        B::acknowledge_pause,
                                        (asked,),
                                        result,
                                    )
                                    && since(
                                        *old(self),
                                        *final(self),
                                    )[k] == (SeatCall::Acknowledged { result })
                        },
    {
        let (reaction, passed) = self.react_all(events);
        proof {
            assert(reacted(*old(self), passed@.0, events@, *self, reaction));
            assert(chained(old(self).backend, passed@.1, self.backend));
        }
        match reaction {
            Ok(()) => answer,
            Err(error) => Err(error),
        }
    }

    /// Let the seat deliver what it has, turning it into events to act on.
    ///
    /// The session reacts to each event in order. A reaction the seat refuses
    /// ends the dispatch with that error; otherwise the seat's own answer is
    /// given. Every call listed is one the seat got, in that order.
    pub fn dispatch(&mut self, timeout_ms: i32) -> (result: Result<(), SessionError>)
        ensures
            exists|states: Seq<Session<B>>, events: Seq<RawEvent>, answer: Result<(), SessionError>|
                #[trigger]
                dispatched(*old(self), timeout_ms, states, events, answer, *final(self), result),
            exists|seats: Seq<B>|
                #[trigger] chained(old(self).backend, seats, final(self).backend) && seats.len()
                    == since(*old(self), *final(self)).len() + 1 && forall|k: int|
                        #![trigger seats[k]]
                        0 <= k < since(*old(self), *final(self)).len() ==> {
                            ||| exists|
                                asked: &mut B,
                                path: &str,
                                result: Result<(DeviceId, i32), SessionError>,
                            |
                                *asked == seats[k] && *final(asked) == seats[k + 1]
                                    && #[trigger] call_ensures(
                                        B::open_device,
                                        (asked, path),
                                        result,
                                    )
                                    && since(
                                        *old(self),
                                        *final(self),
                                    )[k] == (SeatCall::Opened { path: path@, result })
                            ||| exists|
                                asked: &mut B,
                                id: DeviceId,
                                result: Result<(), SessionError>,
                            |
                                *asked == seats[k] && *final(asked) == seats[k + 1]
                                    && #[trigger] call_ensures(B::close_device, (asked, id), result)
                                    && since(
                                        *old(self),
                                        *final(self),
                                    )[k] == (SeatCall::Closed { id, result })
                            ||| exists|asked: &mut B, result: Result<(), SessionError>|
                                *asked == seats[k] && *final(asked) == seats[k + 1]
                                    && #[trigger] call_ensures(
                                        B::acknowledge_pause,
                                        (asked,),
                                        result,
                                    )
                                    && since(
                                        *old(self),
                                        *final(self),
                                    )[k] == (SeatCall::Acknowledged { result })
                            ||| exists|
                                asked: &mut B,
                                timeout: i32,
                                list: &mut Vec<RawEvent>,
                                result: Result<(), SessionError>,
                            |
                                *asked == seats[k] && *final(asked) == seats[k + 1] && list@.len() == 0
                                    && #[trigger] call_ensures(
                                        B::dispatch,
                                        (asked, timeout, list),
                                        result,
                                    )
                                    && since(*old(self), *final(self))[k] == (SeatCall::Dispatched {
                                    timeout_ms: timeout,
                                    events: final(list)@,
                                    result,
                                })
                        },
    {
        let mut raw: Vec<RawEvent> = Vec::new();
        let answer = self.backend.dispatch(timeout_ms, &mut raw);
        let ghost events = raw@;
        let ghost call = SeatCall::Dispatched { timeout_ms, events, result: answer };
        self.calls = Ghost(self.calls@.push(call));
        let ghost started = *self;
        let (reaction, passed) = self.react_all(&raw);
        let result = match reaction {
            Ok(()) => answer,
            Err(error) => Err(error),
        };
        proof {
            assert(reacts_to_all(passed@.0, events));
            assert(dispatched(
                *old(self),
                timeout_ms,
                passed@.0,
                events,
                answer,
                *self,
                result,
            ));
            let later = passed@.1;
            let seats = seq![old(self).backend] + later;
            let added = since(started, *self);
            let total = since(*old(self), *self);
            assert(total =~= seq![call] + added);
            assert forall|k: int| 0 <= k < later.len() implies seats[k + 1] == #[trigger] later[k] by {}
            assert forall|k: int| 0 <= k < added.len() implies total[k + 1] == #[trigger] added[k] by {}
            assert forall|k: int|
                #![trigger seats[k]]
                0 <= k < total.len() implies {
                    ||| exists|
                        asked: &mut B,
                        path: &str,
                        result: Result<(DeviceId, i32), SessionError>,
                    |
                        *asked == seats[k] && *final(asked) == seats[k + 1]
                            && #[trigger] call_ensures(B::open_device, (asked, path), result)
                            && total[k] == (SeatCall::Opened { path: path@, result })
                    ||| exists|asked: &mut B, id: DeviceId, result: Result<(), SessionError>|
                        *asked == seats[k] && *final(asked) == seats[k + 1]
                            && #[trigger] call_ensures(B::close_device, (asked, id), result)
                            && total[k] == (SeatCall::Closed { id, result })
                    ||| exists|asked: &mut B, result: Result<(), SessionError>|
                        *asked == seats[k] && *final(asked) == seats[k + 1]
                            && #[trigger] call_ensures(B::acknowledge_pause, (asked,), result)
                            && total[k] == (SeatCall::Acknowledged { result })
                    ||| exists|
                        asked: &mut B,
                        timeout: i32,
                        list: &mut Vec<RawEvent>,
                        result: Result<(), SessionError>,
                    |
                        *asked == seats[k] && *final(asked) == seats[k + 1] && list@.len() == 0
                            && #[trigger] call_ensures(B::dispatch, (asked, timeout, list), result)
                            && total[k] == (SeatCall::Dispatched {
                            timeout_ms: timeout,
                            events: final(list)@,
                            result,
                        })
                } by {
                if k > 0 {
                    assert(later[k - 1] == seats[k]);
                    assert(later[k] == seats[k + 1]);
                    assert(added[k - 1] == total[k]);
                } else {
                    assert(seats[1] == later[0]);
                }
            }
            assert(chained(old(self).backend, seats, self.backend));
        }
        result
    }
}

proof fn lemma_calls_grow<B: Backend>(
    before: Session<B>,
    event: RawEvent,
    after: Session<B>,
    result: Result<(), SessionError>,
)
    requires
        reacts(before, event, after, result),
    ensures
        after.calls@ == before.calls@ + since(before, after),
{
    assert(after.calls@ =~= before.calls@ + since(before, after));
}

/// The calls made on the seat between two states of a session.
pub open spec fn since<B: Backend>(before: Session<B>, after: Session<B>) -> Seq<SeatCall> {
    after.calls@.skip(before.calls@.len() as int)
}

/// Whether a run of seat states leads from one to another.
pub open spec fn chained<B: Backend>(first: B, seats: Seq<B>, last: B) -> bool {
    seats.len() > 0 && seats[0] == first && seats.last() == last
}

/// A session reacting to events: it goes through `states`, and either reacts to
/// all of them or has the reaction to the next one refused.
pub open spec fn reacted<B: Backend>(
    before: Session<B>,
    states: Seq<Session<B>>,
    events: Seq<RawEvent>,
    after: Session<B>,
    reaction: Result<(), SessionError>,
) -> bool {
    &&& reacts_to_all(states, events)
    &&& states[0] == before
    &&& if states.len() == events.len() + 1 {
        after == states.last() && reaction == Ok::<(), SessionError>(())
    } else {
        reaction is Err && reacts(states.last(), events[states.len() - 1], after, reaction)
    }
}

/// The session once the seat has been dispatched and before it reacts.
pub open spec fn after_seat<B: Backend>(
    before: Session<B>,
    after: Session<B>,
    timeout_ms: i32,
    events: Seq<RawEvent>,
    answer: Result<(), SessionError>,
) -> bool {
    &&& after.calls@ == before.calls@.push(
        SeatCall::Dispatched { timeout_ms, events, result: answer },
    )
    &&& after == (Session { backend: after.backend, calls: after.calls, ..before })
}

/// One whole dispatch: the seat delivers `events` and answers, and the session
/// goes through `states` reacting to them. Either it reacts to all of them and
/// the answer is the seat's, or the reaction to the next one is refused.
pub open spec fn dispatched<B: Backend>(
    before: Session<B>,
    timeout_ms: i32,
    states: Seq<Session<B>>,
    events: Seq<RawEvent>,
    answer: Result<(), SessionError>,
    after: Session<B>,
    result: Result<(), SessionError>,
) -> bool {
    &&& reacts_to_all(states, events)
    &&& after_seat(before, states[0], timeout_ms, events, answer)
    &&& if states.len() == events.len() + 1 {
        after == states.last() && result == answer
    } else {
        result is Err && reacts(states.last(), events[states.len() - 1], after, result)
    }
}

// --- laws --------------------------------------------------------------------

/// Whatever a dispatch delivers, an active session has paused its caller
/// before anything is reopened: reacting to an enable while active touches
/// nothing.
pub proof fn law_resume_needs_a_pause<B: Backend>(
    before: Session<B>,
    after: Session<B>,
    result: Result<(), SessionError>,
)
    requires
        before.active,
        reacts(before, RawEvent::Enable, after, result),
    ensures
        after == before,
        result is Ok,
{
}

/// A seat that pauses twice is reported once.
pub proof fn law_repeated_pause_is_reported_once<B: Backend>(
    before: Session<B>,
    between: Session<B>,
    after: Session<B>,
    first: Result<(), SessionError>,
    second: Result<(), SessionError>,
)
    requires
        before.active,
        reacts(before, RawEvent::Disable, between, first),
        reacts(between, RawEvent::Disable, after, second),
    ensures
        after == between,
        after.pending@ == before.pending@.push(SessionEvent::Paused),
        !after.active,
{
}

/// A resume closes every device before it opens it again, and with success:
/// opening a path whose old handle is still open would leak the handle.
pub proof fn law_closed_before_reopened<B: Backend>(
    before: Session<B>,
    after: Session<B>,
    i: int,
)
    requires
        !before.active,
        reacts(before, RawEvent::Enable, after, Ok(())),
        0 <= i < before.devices@.len(),
    ensures
        exists|closed: int, opened: int|
            before.calls@.len() <= closed < opened < after.calls@.len()
                && #[trigger] after.calls@[closed] == (SeatCall::Closed {
                id: before.devices@[i].id,
                result: Ok(()),
            }) && #[trigger] after.calls@[opened] == (SeatCall::Opened {
                path: before.devices@[i].path@,
                result: Ok((after.devices@[i].id, after.devices@[i].fd)),
            }),
{
    let start = before.calls@.len() as int;
    let made = after.calls@.skip(start);
    assert(reopens(before.devices@, before.devices@.len() as int, made, after.devices@));
    assert(after.devices@[i].path@ == before.devices@[i].path@);
    assert(made[2 * i] == after.calls@[start + 2 * i]);
    assert(made[2 * i + 1] == after.calls@[start + 2 * i + 1]);
}

/// No path is ever held twice, whatever the seat says.
pub proof fn law_reactions_keep_paths_distinct<B: Backend>(
    before: Session<B>,
    event: RawEvent,
    after: Session<B>,
    result: Result<(), SessionError>,
)
    requires
        distinct_paths(before.devices@),
        reacts(before, event, after, result),
    ensures
        distinct_paths(after.devices@),
{
    if event == RawEvent::Enable && !before.active && result is Ok {
        assert(result->Ok_0 == ());
        let made = after.calls@.skip(before.calls@.len() as int);
        assert(reopens(before.devices@, before.devices@.len() as int, made, after.devices@));
        assert forall|i: int, j: int| 0 <= i < j < after.devices@.len() implies !same_path(
            (#[trigger] after.devices@[i]).path@,
            (#[trigger] after.devices@[j]).path@,
        ) by {
            assert(after.devices@[i].path@ == before.devices@[i].path@);
            assert(after.devices@[j].path@ == before.devices@[j].path@);
        }
    }
}

/// Every device held across a pause comes back, by path and in the order they
/// were taken, or the caller is given an error.
pub proof fn law_every_device_comes_back<B: Backend>(
    before: Session<B>,
    paused: Session<B>,
    after: Session<B>,
    acknowledged: Result<(), SessionError>,
    i: int,
)
    requires
        before.active,
        reacts(before, RawEvent::Disable, paused, acknowledged),
        reacts(paused, RawEvent::Enable, after, Ok(())),
        0 <= i < before.devices@.len(),
    ensures
        after.active,
        after.devices@.len() == before.devices@.len(),
        after.devices@[i].path@ == before.devices@[i].path@,
{
    assert(after.devices@[i].path@ == paused.devices@[i].path@);
}

/// A device is found by the first path that is the same as the one asked for.
pub proof fn law_a_device_is_found_by_its_path(
    devices: Seq<TakenDevice>,
    path: Seq<char>,
    at: int,
)
    ensures
        0 <= at < devices.len() && same_path(devices[at].path@, path) && (forall|j: int|
            0 <= j < at ==> !same_path((#[trigger] devices[j]).path@, path)) ==> place_of_path(
            devices,
            path,
        ) == Some(at),
        (forall|j: int| 0 <= j < devices.len() ==> !same_path((#[trigger] devices[j]).path@, path))
            <==> place_of_path(devices, path) is None,
        holds_path(devices, path) <==> place_of_path(devices, path) is Some,
{
    lemma_holds_path(devices, path);
    if 0 <= at < devices.len() && same_path(devices[at].path@, path) && (forall|j: int|
        0 <= j < at ==> !same_path((#[trigger] devices[j]).path@, path)) {
        lemma_place_of_path(devices, path, at);
    }
}

/// Losing the display tells the caller once, acknowledges it to the seat right
/// away, and keeps every device on record for the way back.
pub proof fn law_a_pause_is_told_and_acknowledged<B: Backend>(
    before: Session<B>,
    after: Session<B>,
    result: Result<(), SessionError>,
)
    requires
        reacts(before, RawEvent::Disable, after, result),
    ensures
        before.active ==> {
            &&& !after.active
            &&& after.pending@.len() == before.pending@.len() + 1
            &&& after.pending@.last() is Paused
            &&& after.pending@.drop_last() == before.pending@
            &&& after.calls@.len() == before.calls@.len() + 1
            &&& after.calls@.last() == (SeatCall::Acknowledged { result })
            &&& after.devices@ == before.devices@
        },
        !before.active ==> after == before && result is Ok,
{
    if before.active {
        assert(after.pending@.drop_last() =~= before.pending@);
    }
}

/// Getting the display back closes and opens each device in turn, by its own id
/// and path, and nothing else; the caller is told of the descriptors that came
/// back.
pub proof fn law_a_resume_reopens_each_device<B: Backend>(
    before: Session<B>,
    after: Session<B>,
    i: int,
)
    requires
        !before.active,
        reacts(before, RawEvent::Enable, after, Ok(())),
    ensures
        after.active,
        after.devices@.len() == before.devices@.len(),
        after.calls@.len() == before.calls@.len() + 2 * before.devices@.len(),
        after.pending@.len() == before.pending@.len() + 1,
        after.pending@.last() is Resumed,
        after.pending@.last()->devices@.len() == after.devices@.len(),
        0 <= i < before.devices@.len() ==> {
            &&& after.calls@[before.calls@.len() + 2 * i] == (SeatCall::Closed {
                id: before.devices@[i].id,
                result: Ok(()),
            })
            &&& after.calls@[before.calls@.len() + 2 * i + 1] == (SeatCall::Opened {
                path: before.devices@[i].path@,
                result: Ok((after.devices@[i].id, after.devices@[i].fd)),
            })
            &&& after.devices@[i].path@ == before.devices@[i].path@
            &&& after.pending@.last()->devices@[i].path@ == after.devices@[i].path@
            &&& after.pending@.last()->devices@[i].id == after.devices@[i].id
            &&& after.pending@.last()->devices@[i].fd == after.devices@[i].fd
        },
{
    let start = before.calls@.len() as int;
    let made = after.calls@.skip(start);
    assert(after.calls@.len() == start + made.len());
    assert(reopens(before.devices@, before.devices@.len() as int, made, after.devices@));
    if 0 <= i < before.devices@.len() {
        assert(after.devices@[i].path@ == before.devices@[i].path@);
        assert(made[2 * i] == after.calls@[start + 2 * i]);
        assert(made[2 * i + 1] == after.calls@[start + 2 * i + 1]);
        let told = after.pending@.last()->devices@;
        assert(same_device(after.devices@[i], told[i]));
    }
}

/// A device the seat does not give back ends the resume: the error is the seat's
/// own, nothing is told to the caller as if it had come back, and no device is
/// held.
pub proof fn law_a_refused_resume_holds_nothing<B: Backend>(
    before: Session<B>,
    after: Session<B>,
    error: SessionError,
)
    requires
        !before.active,
        reacts(before, RawEvent::Enable, after, Err(error)),
    ensures
        after.active,
        after.devices@.len() == 0,
        after.pending@ == before.pending@,
        after.calls@.len() > before.calls@.len(),
        match after.calls@.last() {
            SeatCall::Closed { result, .. } => result == Err::<(), SessionError>(error),
            SeatCall::Opened { result, .. } => result == Err::<(DeviceId, i32), SessionError>(
                error,
            ),
            _ => false,
        },
{
    let start = before.calls@.len() as int;
    let made = after.calls@.skip(start);
    let (count, reopened) = choose|count: int, reopened: Seq<TakenDevice>| #[trigger]
        reopen_refused(before.devices@, made, error, count, reopened);
    assert(reopen_refused(before.devices@, made, error, count, reopened));
    assert(made.len() > 0);
    assert(made.last() == after.calls@.last());
}

/// Events are reacted to in the order they were delivered, each from where the
/// last left off.
pub proof fn law_events_are_taken_in_order<B: Backend>(
    before: Session<B>,
    states: Seq<Session<B>>,
    events: Seq<RawEvent>,
    after: Session<B>,
    reaction: Result<(), SessionError>,
    i: int,
)
    requires
        reacted(before, states, events, after, reaction),
    ensures
        states[0] == before,
        reaction is Ok ==> states.len() == events.len() + 1 && after == states.last(),
        0 <= i < states.len() - 1 ==> reacts(states[i], events[i], states[i + 1], Ok(())),
        reaction is Err ==> states.len() <= events.len() && reacts(
            states.last(),
            events[states.len() - 1],
            after,
            reaction,
        ),
{
}

/// A dispatch is one call on the seat, then the reactions to what it delivered,
/// in order. Where every reaction succeeds the answer is the seat's own; where
/// one is refused, nothing after it is reacted to and its error is the answer.
pub proof fn law_a_dispatch_answers_for_the_seat<B: Backend>(
    before: Session<B>,
    timeout_ms: i32,
    states: Seq<Session<B>>,
    events: Seq<RawEvent>,
    answer: Result<(), SessionError>,
    after: Session<B>,
    result: Result<(), SessionError>,
    i: int,
)
    requires
        dispatched(before, timeout_ms, states, events, answer, after, result),
    ensures
        states[0].calls@ == before.calls@.push(
            SeatCall::Dispatched { timeout_ms, events, result: answer },
        ),
        states[0].active == before.active,
        states[0].pending == before.pending,
        states[0].devices == before.devices,
        1 <= states.len() <= events.len() + 1,
        0 <= i < states.len() - 1 ==> reacts(states[i], events[i], states[i + 1], Ok(())),
        states.len() == events.len() + 1 ==> after == states.last() && result == answer,
        states.len() <= events.len() ==> result is Err && reacts(
            states.last(),
            events[states.len() - 1],
            after,
            result,
        ),
{
}

/// Two records are of one device where path, id and descriptor agree.
pub proof fn law_a_device_is_its_path_id_and_descriptor(a: TakenDevice, b: TakenDevice)
    ensures
        same_device(a, b) <==> a.path@ == b.path@ && a.id == b.id && a.fd == b.fd,
{
}

/// The calls on a seat lead from how it was to how it is left.
pub proof fn law_seat_calls_lead_from_first_to_last<B: Backend>(first: B, seats: Seq<B>, last: B)
    requires
        chained(first, seats, last),
    ensures
        seats.len() >= 1,
        seats[0] == first,
        seats[seats.len() - 1] == last,
{
}

} // verus!
