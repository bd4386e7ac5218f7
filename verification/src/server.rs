//! The verified core of the listener: the per-request step that turns a
//! decoded frame into its reply, the accept-retry backoff schedule, and
//! the admission-slot accounting that bounds concurrent connections. The
//! sockets, tasks and timers around them are the caller's.

use crate::cmd::{CmdRes, Command, CommandV};
use crate::db::Db;
use crate::frame::{Frame, FrameV};
use crate::parse::ParseError;
use vstd::prelude::*;

verus! {

/// The most connections served at once; pure backpressure on accepting.
pub const MAX_CONNECT: usize = 250;

/// One request handled end to end: the frame is read as a command and run
/// against the store at instant `now`, yielding the one reply frame owed,
/// or the protocol failure that ends the connection. A failed request
/// leaves the store untouched.
pub fn handle_frame(frame: Frame, db: &mut Db, now: u64) -> (r: Result<Frame, ParseError>)
    requires
        old(db).wf(),
    ensures
        final(db).wf(),
        match crate::cmd::spec_from_frame(frame@) {
            CmdRes::Cmd(cv) => (r matches Ok(reply) && match cv {
                CommandV::Get(k) => *final(db) == *old(db) && (match old(db).spec_live(k, now) {
                    Some(v) => reply@ == FrameV::Bulk(v),
                    None => reply@ == FrameV::Null,
                }),
                CommandV::SetCmd(fields) => reply@ == FrameV::Simple("OK"@) && (forall|
                    k2: Seq<char>,
                |
                    #![trigger final(db).spec_lookup(k2)]
                    final(db).spec_lookup(k2) == (if k2 == fields.0 {
                        Some((fields.1, Command::deadline_of(fields.2, now)))
                    } else {
                        old(db).spec_lookup(k2)
                    })),
                CommandV::UnKnown(name) => *final(db) == *old(db) && reply@ == FrameV::Error(
                    "unknown command '"@ + name + "'"@,
                ),
            }),
            CmdRes::FailEnd => (r matches Err(ParseError::EndOfStream) && *final(db) == *old(db)),
            CmdRes::FailOther => (r matches Err(ParseError::Other(m)) && *final(db) == *old(db)),
        },
{
    let cmd = match Command::from_frame(frame) {
        Ok(cmd) => cmd,
        Err(e) => {
            return Err(e);
        },
    };
    Ok(cmd.apply(db, now))
}

/// The accept-retry delay: it starts at one second, doubles after every
/// failed accept, and past 64 seconds the listener gives up.
pub struct Backoff {
    delay_s: u64,
}

impl View for Backoff {
    type V = u64;

    closed spec fn view(&self) -> u64 {
        self.delay_s
    }
}

impl Backoff {
    /// The initial one-second delay.
    pub fn new() -> (b: Backoff)
        ensures
            b@ == 1,
    {
        Backoff { delay_s: 1 }
    }

    /// The current delay in seconds.
    pub fn delay_secs(&self) -> (d: u64)
        ensures
            d == self@,
    {
        self.delay_s
    }

    /// True once the delay has grown past the 64-second ceiling: the next
    /// accept error is terminal.
    pub fn give_up(&self) -> (b: bool)
        ensures
            b == (self@ > 64),
    {
        self.delay_s > 64
    }

    /// Doubles the delay after a failed accept.
    pub fn advance(&mut self)
        requires
            old(self)@ <= 64,
        ensures
            final(self)@ == old(self)@ * 2,
    {
        self.delay_s = self.delay_s * 2;
    }
}

/// Admission-slot accounting for the connection pool: a fixed number of
/// slots, one held by each open connection. The listener accepts only
/// while a slot is free, so the pool is pure backpressure.
pub struct Admission {
    available: usize,
    capacity: usize,
}

impl Admission {
    /// Free slots right now.
    pub closed spec fn spec_available(&self) -> usize {
        self.available
    }

    /// The fixed pool size.
    pub closed spec fn spec_capacity(&self) -> usize {
        self.capacity
    }

    /// No more slots are free than the pool holds.
    pub open spec fn wf(&self) -> bool {
        self.spec_available() <= self.spec_capacity()
    }

    /// A full pool of `capacity` free slots.
    pub fn new(capacity: usize) -> (a: Admission)
        ensures
            a.wf(),
            a.spec_available() == capacity,
            a.spec_capacity() == capacity,
    {
        Admission { available: capacity, capacity }
    }

    /// Takes one slot when one is free; with none free the caller must
    /// wait for a release before accepting another connection.
    pub fn try_acquire(&mut self) -> (ok: bool)
        requires
            old(self).wf(),
        ensures
            final(self).wf(),
            final(self).spec_capacity() == old(self).spec_capacity(),
            old(self).spec_available() > 0 ==> ok && final(self).spec_available() == old(
                self,
            ).spec_available() - 1,
            old(self).spec_available() == 0 ==> !ok && final(self).spec_available() == 0,
    {
        if self.available > 0 {
            self.available = self.available - 1;
            true
        } else {
            false
        }
    }

    /// Returns the slot a finished handler held.
    pub fn release(&mut self)
        requires
            old(self).wf(),
            old(self).spec_available() < old(self).spec_capacity(),
        ensures
            final(self).wf(),
            final(self).spec_capacity() == old(self).spec_capacity(),
            final(self).spec_available() == old(self).spec_available() + 1,
    {
        self.available = self.available + 1;
    }
}

} // verus!
