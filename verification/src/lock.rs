//! Freezing values: one background writer per locked address, each
//! re-asserting a fixed value until it is told to stop.
//!
//! The writers themselves run outside this module. Here are the decisions:
//! what a writer does at each tick, and which locks a session holds.

use std::collections::HashMap;
use std::sync::atomic::AtomicBool;
use std::sync::Arc;
use vstd::prelude::*;

verus! {

broadcast use vstd::std_specs::hash::group_hash_axioms;

/// Pause of a writer between two writes, in milliseconds.
pub const LOCK_INTERVAL_MILLIS: u64 = 1;

/// The session's half of a lock: the means to stop its writer.
pub struct LockHandle {
    address: usize,
    active: Arc<AtomicBool>,
}

/// The writer's half of a lock: what to write, where, and the flag that
/// tells it to stop.
pub struct Worker {
    address: usize,
    value: Vec<u8>,
    active: Arc<AtomicBool>,
}

/// What a writer does next.
#[derive(Clone, Copy, Debug)]
pub enum Step<'a> {
    /// Write `value` at `address`, whatever became of the write before,
    /// then pause for `LOCK_INTERVAL_MILLIS` and ask again.
    Write { address: usize, value: &'a [u8] },
    /// Stop for good.
    Stop,
}

/// `Arc::clone` on the flag that the two halves of a lock share. Trusted:
/// the clone is the flag it was cloned from.
#[verifier::external_body]
fn share(flag: &Arc<AtomicBool>) -> (shared: Arc<AtomicBool>)
    ensures
        shared == *flag,
{
    Arc::clone(flag)
}

impl LockHandle {
    /// The locked address.
    pub closed spec fn address(&self) -> usize {
        self.address
    }

    /// The flag through which the writer is stopped.
    pub closed spec fn flag(&self) -> Arc<AtomicBool> {
        self.active
    }

    /// The locked address.
    pub fn locked_address(&self) -> (address: usize)
        ensures
            address == self.address(),
    {
        self.address
    }

    /// Asks the writer to stop. It stops at its next tick; a write that is
    /// under way is still finished.
    pub fn cancel(&self) {
        self.active.store(false, std::sync::atomic::Ordering::Relaxed);
    }
}

impl Worker {
    /// The address the writer writes to.
    pub closed spec fn address(&self) -> usize {
        self.address
    }

    /// The bytes the writer writes.
    pub closed spec fn value(&self) -> Seq<u8> {
        self.value@
    }

    /// The flag through which the writer is stopped.
    pub closed spec fn flag(&self) -> Arc<AtomicBool> {
        self.active
    }

    /// Whether `next` is a write of this writer's value at its address.
    pub open spec fn writes(&self, next: Step<'_>) -> bool {
        &&& next matches Step::Write { address, value }
        &&& address == self.address()
        &&& value@ == self.value()
    }

    /// What the writer does at a tick, given whether its lock is still
    /// active: it writes while the lock is active and stops once it is not.
    /// What became of earlier writes plays no part.
    pub fn decide(&self, active: bool) -> (next: Step<'_>)
        ensures
            active ==> self.writes(next),
            !active ==> next is Stop,
    {
        if active {
            Step::Write { address: self.address, value: self.value.as_slice() }
        } else {
            Step::Stop
        }
    }

    /// Looks at the flag and decides what to do at this tick.
    pub fn step(&self) -> (next: Step<'_>)
        ensures
            next is Stop || self.writes(next),
    {
        let active = self.active.load(std::sync::atomic::Ordering::Relaxed);
        self.decide(active)
    }
}

/// Starts a lock on `address`: the handle stays with the session, the
/// worker goes to the background writer.
pub fn lock(address: usize, value: Vec<u8>) -> (halves: (LockHandle, Worker))
    ensures
        halves.0.address() == address,
        halves.1.address() == address,
        halves.1.value() == value@,
        halves.1.flag() == halves.0.flag(),
{
    let active = Arc::new(AtomicBool::new(true));
    let shared = share(&active);
    (LockHandle { address, active }, Worker { address, value, active: shared })
}

/// The locks a session holds, by address. An address has at most one entry.
pub struct LockTable {
    locks: HashMap<usize, LockHandle>,
}

impl View for LockTable {
    type V = Map<usize, LockHandle>;

    closed spec fn view(&self) -> Map<usize, LockHandle> {
        self.locks@
    }
}

impl LockTable {
    /// Every entry is the lock of the address it is filed under.
    pub open spec fn wf(&self) -> bool {
        forall|address: usize|
            self@.contains_key(address) ==> (#[trigger] self@[address]).address() == address
    }

    /// A table without locks.
    pub fn new() -> (table: LockTable)
        ensures
            table.wf(),
            table@ == Map::<usize, LockHandle>::empty(),
    {
        LockTable { locks: HashMap::new() }
    }

    /// Whether `address` is locked.
    pub fn is_locked(&self, address: usize) -> (locked: bool)
        ensures
            locked == self@.contains_key(address),
    {
        self.locks.contains_key(&address)
    }

    /// Number of locked addresses.
    pub fn len(&self) -> (n: usize)
        ensures
            n == self@.len(),
    {
        self.locks.len()
    }

    /// Locks `address` to `value` and hands out the worker to run.
    ///
    /// A lock that the table already held for this address is displaced and
    /// handed back as it is: its writer has not been told to stop, and the
    /// two writers do not know of each other.
    pub fn lock(&mut self, address: usize, value: Vec<u8>) -> (started: (Worker, Option<LockHandle>))
        requires
            old(self).wf(),
        ensures
            final(self).wf(),
            final(self)@ == old(self)@.insert(address, final(self)@[address]),
            final(self)@[address].address() == address,
            started.0.address() == address,
            started.0.value() == value@,
            started.0.flag() == final(self)@[address].flag(),
            started.1 == (if old(self)@.contains_key(address) {
                Some(old(self)@[address])
            } else {
                None
            }),
            started.1 matches Some(displaced) ==> displaced.address() == address,
    {
        let (handle, worker) = lock(address, value);
        let displaced = self.locks.insert(address, handle);
        assert forall|other: usize| self@.contains_key(other) implies (#[trigger] self@[other]).address()
            == other by {
            if other != address {
                assert(old(self)@.contains_key(other) && self@[other] == old(self)@[other]);
            }
        }
        (worker, displaced)
    }

    /// Releases the lock on `address`, if there is one: its writer is told
    /// to stop and the entry is dropped. The call does not wait for the
    /// writer. The released lock is handed back.
    pub fn unlock(&mut self, address: usize) -> (released: Option<LockHandle>)
        requires
            old(self).wf(),
        ensures
            final(self).wf(),
            final(self)@ == old(self)@.remove(address),
            released == (if old(self)@.contains_key(address) {
                Some(old(self)@[address])
            } else {
                None
            }),
            released matches Some(lock) ==> lock.address() == address,
    {
        let released = self.locks.remove(&address);
        assert forall|other: usize| self@.contains_key(other) implies (#[trigger] self@[other]).address()
            == other by {
            assert(old(self)@.contains_key(other) && self@[other] == old(self)@[other]);
        }
        match &released {
            Some(handle) => handle.cancel(),
            None => {},
        }
        released
    }
}

} // verus!
