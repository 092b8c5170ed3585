//! A ticketed lock: access to a value is asked for in arrival order on the
//! owner's side, and taken up later, elsewhere, or never.
//!
//! The lock hands out a ticket for each request. A ticket becomes due when
//! every ticket issued before it has been redeemed and released, or given up.
//! Read tickets that follow one another share one place in the order.

pub mod laws;
pub mod model;
pub mod raw;

use crate::model::Model;
use std::marker::PhantomData;
use vstd::prelude::*;

verus! {

/// Proof of read access to the value of a `TicketedLock<T>`.
pub struct ReadLockGuard<T> {
    inner: raw::LockGuard,
    data: PhantomData<T>,
}

/// A ticket to read the value at some point.
pub struct ReadTicket<T> {
    inner: raw::Ticket<raw::Read>,
    data: PhantomData<T>,
}

/// Proof of read and write access to the value of a `TicketedLock<T>`.
pub struct WriteLockGuard<T> {
    inner: raw::LockGuard,
    data: PhantomData<T>,
}

/// A ticket to read and write the value at some point.
pub struct WriteTicket<T> {
    inner: raw::Ticket<raw::Write>,
    data: PhantomData<T>,
}

/// The ticketed lock, which wraps the value.
pub struct TicketedLock<T> {
    inner: raw::TicketedLock,
    data: T,
}

impl<T> ReadLockGuard<T> {
    /// The slot that the guard keeps active.
    pub closed spec fn slot(&self) -> nat {
        self.inner.slot()
    }

    /// Gives the guard back as a handle of the sequencer, to be released.
    pub fn into_raw(self) -> (guard: raw::LockGuard)
        ensures
            guard.slot() == self.slot(),
    {
        self.inner
    }
}

impl<T> WriteLockGuard<T> {
    /// The slot that the guard keeps active.
    pub closed spec fn slot(&self) -> nat {
        self.inner.slot()
    }

    /// Gives the guard back as a handle of the sequencer, to be released.
    pub fn into_raw(self) -> (guard: raw::LockGuard)
        ensures
            guard.slot() == self.slot(),
    {
        self.inner
    }
}

impl<T> ReadTicket<T> {
    /// The slot that the ticket stands on.
    pub closed spec fn slot(&self) -> nat {
        self.inner.slot()
    }

    /// Redeems the ticket if it is due. A ticket that is not yet due comes
    /// back unchanged.
    pub fn wait(self, lock: &TicketedLock<T>) -> (r: Result<ReadLockGuard<T>, ReadTicket<T>>)
        requires
            lock.wf(),
        ensures
            r is Ok <==> lock@.due(self.slot()),
            r matches Ok(guard) ==> guard.slot() == self.slot(),
            r matches Err(ticket) ==> ticket == self,
    {
        match self.inner.wait(&lock.inner) {
            Ok(guard) => Ok(ReadLockGuard { inner: guard, data: PhantomData }),
            Err(ticket) => Err(ReadTicket { inner: ticket, data: PhantomData }),
        }
    }

    /// Gives the ticket back as a handle of the sequencer, to be given up.
    pub fn into_raw(self) -> (ticket: raw::Ticket<raw::Read>)
        ensures
            ticket.slot() == self.slot(),
    {
        self.inner
    }
}

impl<T> WriteTicket<T> {
    /// The slot that the ticket stands on.
    pub closed spec fn slot(&self) -> nat {
        self.inner.slot()
    }

    /// Redeems the ticket if it is due. A ticket that is not yet due comes
    /// back unchanged.
    pub fn wait(self, lock: &TicketedLock<T>) -> (r: Result<WriteLockGuard<T>, WriteTicket<T>>)
        requires
            lock.wf(),
        ensures
            r is Ok <==> lock@.due(self.slot()),
            r matches Ok(guard) ==> guard.slot() == self.slot(),
            r matches Err(ticket) ==> ticket == self,
    {
        match self.inner.wait(&lock.inner) {
            Ok(guard) => Ok(WriteLockGuard { inner: guard, data: PhantomData }),
            Err(ticket) => Err(WriteTicket { inner: ticket, data: PhantomData }),
        }
    }

    /// Gives the ticket back as a handle of the sequencer, to be given up.
    pub fn into_raw(self) -> (ticket: raw::Ticket<raw::Write>)
        ensures
            ticket.slot() == self.slot(),
    {
        self.inner
    }
}

impl<T> View for TicketedLock<T> {
    type V = Model;

    closed spec fn view(&self) -> Model {
        self.inner@
    }
}

impl<T> TicketedLock<T> {
    /// The sequencer's invariant.
    pub closed spec fn wf(&self) -> bool {
        self.inner.wf()
    }

    /// The wrapped value.
    pub closed spec fn data(&self) -> T {
        self.data
    }

    /// Whether no ticket and no guard of the lock is left anywhere.
    pub open spec fn idle(&self) -> bool {
        forall|i: nat| self@.holders(i) == 0
    }

    /// Create a new ticketed lock.
    pub fn new(data: T) -> (lock: TicketedLock<T>)
        ensures
            lock.wf(),
            lock@ == Model::fresh(),
            lock.data() == data,
    {
        TicketedLock { inner: raw::TicketedLock::new(), data }
    }

    /// Remove the lock and extract the value. Every ticket and guard must be
    /// gone by then.
    pub fn unlock(self) -> (data: T)
        requires
            self.wf(),
            self.idle(),
        ensures
            data == self.data(),
    {
        self.data
    }

    /// Remove the lock and extract the value if no ticket and no guard is
    /// left; else the lock comes back, after a drain step.
    pub fn try_unlock(self) -> (r: Result<T, TicketedLock<T>>)
        requires
            self.wf(),
        ensures
            r is Ok <==> self.idle(),
            r matches Ok(data) ==> data == self.data(),
            r matches Err(lock) ==> lock.wf() && lock@ == self@.flushed() && lock.data()
                == self.data(),
    {
        let mut lock = self;
        if lock.inner.flush() {
            Ok(lock.unlock())
        } else {
            Err(lock)
        }
    }

    /// Acquire a read-only ticket.
    pub fn read(&mut self) -> (ticket: ReadTicket<T>)
        requires
            old(self).wf(),
            old(self)@.cached is None ==> old(self)@.issued < usize::MAX,
            old(self)@.cached matches Some(c) ==> old(self)@.holders(c) < usize::MAX,
        ensures
            final(self).wf(),
            final(self)@ == old(self)@.read(),
            final(self).data() == old(self).data(),
            ticket.slot() == old(self)@.read_slot(),
    {
        ReadTicket { inner: self.inner.read(), data: PhantomData }
    }

    /// Acquire a read/write ticket.
    pub fn write(&mut self) -> (ticket: WriteTicket<T>)
        requires
            old(self).wf(),
            old(self)@.issued < usize::MAX,
        ensures
            final(self).wf(),
            final(self)@ == old(self)@.wrote(),
            final(self).data() == old(self).data(),
            ticket.slot() == old(self)@.issued + 1,
    {
        WriteTicket { inner: self.inner.write(), data: PhantomData }
    }

    /// A further ticket on the slot of a read ticket that the caller holds.
    pub fn share(&mut self, ticket: &ReadTicket<T>) -> (copy: Option<ReadTicket<T>>)
        requires
            old(self).wf(),
            old(self)@.holders(ticket.slot()) < usize::MAX,
        ensures
            final(self).wf(),
            copy is Some <==> old(self)@.holders(ticket.slot()) > 0 && old(self)@.reads(
                ticket.slot(),
            ),
            copy matches Some(t) ==> t.slot() == ticket.slot(),
            final(self)@ == if copy is Some {
                old(self)@.bumped(ticket.slot())
            } else {
                old(self)@
            },
            final(self).data() == old(self).data(),
    {
        match self.inner.share(&ticket.inner) {
            Some(inner) => Some(ReadTicket { inner, data: PhantomData }),
            None => None,
        }
    }

    /// Ends the access that `guard` stands for.
    pub fn release(&mut self, guard: raw::LockGuard)
        requires
            old(self).wf(),
        ensures
            final(self).wf(),
            final(self)@ == old(self)@.dropped(guard.slot()),
            final(self).data() == old(self).data(),
    {
        self.inner.release(guard);
    }

    /// Gives up a ticket that will not be waited on.
    pub fn abandon<A>(&mut self, ticket: raw::Ticket<A>)
        requires
            old(self).wf(),
        ensures
            final(self).wf(),
            final(self)@ == old(self)@.dropped(ticket.slot()),
            final(self).data() == old(self).data(),
    {
        self.inner.abandon(ticket);
    }

    /// The value, for the holder of a read guard.
    pub fn get(&self, guard: &ReadLockGuard<T>) -> (data: &T)
        ensures
            *data == self.data(),
    {
        &self.data
    }

    /// The value, for the holder of a write guard.
    pub fn peek(&self, guard: &WriteLockGuard<T>) -> (data: &T)
        ensures
            *data == self.data(),
    {
        &self.data
    }

    /// Puts a new value in place, for the holder of a write guard.
    pub fn set(&mut self, guard: &WriteLockGuard<T>, data: T)
        ensures
            final(self).wf() == old(self).wf(),
            final(self)@ == old(self)@,
            final(self).data() == data,
    {
        self.data = data;
    }
}

} // verus!
