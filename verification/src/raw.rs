//! The ticket-sequencing engine.
//!
//! The sequencer owns the whole ordering state. Tickets and guards are
//! handles on its slots: they carry no state of their own, and every move of
//! the protocol is a call on the sequencer. None of the calls blocks; a
//! caller that wants to sleep until a ticket is due does so around `wait`.

use crate::model::{prune, Entry, Model};
use vstd::prelude::*;

verus! {

/// The access that a read ticket stands for.
pub type Read = ();

/// The access that a write ticket stands for.
pub struct Write;

/// A place in the order of access. It can be handed around freely; it is
/// redeemed by `wait` or given up by `TicketedLock::abandon`.
pub struct Ticket<A> {
    index: usize,
    access: A,
}

/// Proof that a ticket became active. The slots behind it stay blocked until
/// it is handed to `TicketedLock::release`.
pub struct LockGuard {
    index: usize,
}

/// What the sequencer keeps for one slot.
#[derive(Clone, Copy)]
struct Slot {
    /// Place in issuance order.
    index: usize,
    /// Tickets and guards that callers hold on the slot. While there is one,
    /// the slot's registry of successor seals is alive.
    holders: usize,
    /// Registries of earlier slots that still hold a seal of this slot.
    seals: usize,
    /// Set once the last seal is broken; a ticket of the slot may then go on.
    released: bool,
    /// Whether the slot was opened by a read.
    read: bool,
}

/// The sequencer: it issues tickets in order and propagates releases.
pub struct TicketedLock {
    next_index: usize,
    legacies: Vec<Slot>,
    last_read: Option<usize>,
}

/// The slots as the model sees them.
spec fn entries(slots: Seq<Slot>) -> Seq<Entry> {
    Seq::new(
        slots.len(),
        |p: int|
            Entry {
                index: slots[p].index as nat,
                holders: slots[p].holders as nat,
                read: slots[p].read,
            },
    )
}

/// How many of the first `p` slots still have a handle held on them: the
/// number of registries in which a seal of the slot at `p` lies.
spec fn live_before(slots: Seq<Entry>, p: int) -> nat
    decreases p,
{
    if p <= 0 {
        0
    } else {
        live_before(slots, p - 1) + if slots[p - 1].holders > 0 { 1nat } else { 0nat }
    }
}

/// A slot's seal count is unchanged by handles coming and going on slots that
/// keep at least one handle, and drops by one behind a slot that lost its last.
proof fn lemma_live_before_change(a: Seq<Entry>, b: Seq<Entry>, p: int, q: int)
    requires
        a.len() == b.len(),
        0 <= q <= a.len(),
        forall|r: int| 0 <= r < a.len() && r != p ==> (a[r].holders > 0) == (b[r].holders > 0),
    ensures
        live_before(a, q) - (if 0 <= p < q && a[p].holders > 0 { 1int } else { 0int })
            == live_before(b, q) - (if 0 <= p < q && b[p].holders > 0 { 1int } else { 0int }),
    decreases q,
{
    if q > 0 {
        lemma_live_before_change(a, b, p, q - 1);
    }
}

/// No handle is held on any of the first `p` slots exactly if none of them is
/// counted live.
proof fn lemma_live_before_zero(s: Seq<Entry>, p: int)
    requires
        0 <= p <= s.len(),
    ensures
        live_before(s, p) == 0 <==> forall|q: int| 0 <= q < p ==> (#[trigger] s[q]).holders == 0,
    decreases p,
{
    if p > 0 {
        lemma_live_before_zero(s, p - 1);
        if live_before(s, p) == 0 {
            assert forall|q: int| 0 <= q < p implies (#[trigger] s[q]).holders == 0 by {
                if q < p - 1 {
                }
            }
        }
    }
}

/// Where a handle is held on every slot, each counts.
proof fn lemma_live_before_all(s: Seq<Entry>, p: int)
    requires
        0 <= p <= s.len(),
        forall|q: int| 0 <= q < s.len() ==> (#[trigger] s[q]).holders > 0,
    ensures
        live_before(s, p) == p,
    decreases p,
{
    if p > 0 {
        lemma_live_before_all(s, p - 1);
    }
}

/// The count over a prefix does not depend on what follows the prefix.
proof fn lemma_live_before_prefix(a: Seq<Entry>, b: Seq<Entry>, p: int)
    requires
        0 <= p <= a.len(),
        p <= b.len(),
        forall|q: int| 0 <= q < p ==> a[q] == b[q],
    ensures
        live_before(a, p) == live_before(b, p),
    decreases p,
{
    if p > 0 {
        lemma_live_before_prefix(a, b, p - 1);
    }
}

impl<A> Ticket<A> {
    /// The slot that the ticket stands on.
    pub closed spec fn slot(&self) -> nat {
        self.index as nat
    }

    /// The slot that the ticket stands on, as its place in issuance order.
    pub fn index(&self) -> (i: usize)
        ensures
            i == self.slot(),
    {
        self.index
    }

    /// Redeems the ticket if it is due: if a handle is held on its slot and
    /// none on any earlier slot. A ticket that is not yet due comes back
    /// unchanged, to be tried again after a release.
    pub fn wait(self, lock: &TicketedLock) -> (r: Result<LockGuard, Ticket<A>>)
        requires
            lock.wf(),
        ensures
            r is Ok <==> lock@.due(self.slot()),
            r matches Ok(guard) ==> guard.slot() == self.slot(),
            r matches Err(ticket) ==> ticket == self,
    {
        if lock.is_due(self.index) {
            Ok(LockGuard { index: self.index })
        } else {
            Err(self)
        }
    }
}

impl LockGuard {
    /// The slot that the guard keeps active.
    pub closed spec fn slot(&self) -> nat {
        self.index as nat
    }

    /// The slot that the guard keeps active, as its place in issuance order.
    pub fn index(&self) -> (i: usize)
        ensures
            i == self.slot(),
    {
        self.index
    }
}

impl View for TicketedLock {
    type V = Model;

    closed spec fn view(&self) -> Model {
        Model {
            issued: self.next_index as nat,
            slots: entries(self.legacies@),
            cached: match self.last_read {
                Some(c) => Some(c as nat),
                None => None,
            },
        }
    }
}

impl TicketedLock {
    /// Every slot holds as many seals as there are earlier slots with a
    /// handle on them, and is released exactly when it holds none.
    pub closed spec fn sealed(&self) -> bool {
        forall|p: int|
            0 <= p < self.legacies@.len() ==> {
                &&& (#[trigger] self.legacies@[p]).seals == live_before(entries(self.legacies@), p)
                &&& self.legacies@[p].released == (self.legacies@[p].seals == 0)
            }
    }

    /// The sequencer's invariant.
    pub open spec fn wf(&self) -> bool {
        self@.wf() && self.sealed()
    }

    /// A sequencer that has issued nothing.
    pub fn new() -> (lock: TicketedLock)
        ensures
            lock.wf(),
            lock@ == Model::fresh(),
    {
        let lock = TicketedLock { next_index: 0, legacies: Vec::new(), last_read: None };
        assert(lock@.slots =~= Seq::empty());
        lock
    }

    /// Where the slot `index` stands among the slots that are kept.
    fn position(&self, index: usize) -> (r: Option<usize>)
        requires
            self@.wf(),
        ensures
            r matches Some(p) ==> p < self.legacies@.len() && self.legacies@[p as int].index
                == index && self@.position(index as nat) == p,
            r is Some <==> self@.tracks(index as nat),
    {
        let mut p: usize = 0;
        while p < self.legacies.len()
            invariant
                p <= self.legacies@.len(),
                self@.wf(),
                forall|q: int| 0 <= q < p ==> self.legacies@[q].index != index,
            decreases self.legacies@.len() - p,
        {
            if self.legacies[p].index == index {
                proof {
                    self@.lemma_holders_at(p as int);
                }
                return Some(p);
            }
            p += 1;
        }
        proof {
            if self@.tracks(index as nat) {
                let c = self@.position(index as nat);
                assert(self@.slots[c].index == index as nat);
                assert(self.legacies@[c].index != index);
            }
        }
        None
    }

    /// Whether a ticket of slot `index` is due.
    fn is_due(&self, index: usize) -> (due: bool)
        requires
            self.wf(),
        ensures
            due == self@.due(index as nat),
    {
        match self.position(index) {
            Some(p) => {
                let slot = self.legacies[p];
                proof {
                    self@.lemma_due_at(p as int);
                    lemma_live_before_zero(self@.slots, p as int);
                }
                slot.holders > 0 && slot.released
            },
            None => false,
        }
    }

    /// Gives up one handle on slot `index`. When it was the last one, the
    /// slot's registry goes, and with it one seal of every slot behind it; a
    /// slot whose last seal breaks is released.
    fn drop_handle(&mut self, index: usize)
        requires
            old(self).wf(),
        ensures
            final(self).wf(),
            final(self)@ == old(self)@.dropped(index as nat),
    {
        let ghost before = self@;
        match self.position(index) {
            Some(p) => {
                let slot = self.legacies[p];
                if slot.holders > 0 {
                    self.legacies[p] = Slot {
                        index: slot.index,
                        holders: slot.holders - 1,
                        seals: slot.seals,
                        released: slot.released,
                        read: slot.read,
                    };
                    proof {
                        assert forall|q: int| 0 <= q < before.slots.len() && q != p as int implies (
                        #[trigger] before.slots[q]).index != index as nat by {
                            if q < p {
                                assert(before.slots[q].index < before.slots[p as int].index);
                            } else {
                                assert(before.slots[p as int].index < before.slots[q].index);
                            }
                        }
                        assert(self@.slots =~= before.dropped(index as nat).slots);
                    }
                    let n = self.legacies.len();
                    let mut q: usize = if slot.holders == 1 {
                        p + 1
                    } else {
                        n
                    };
                    proof {
                        assert forall|r: int| 0 <= r < q implies (
                        #[trigger] self.legacies@[r]).seals == live_before(self@.slots, r) by {
                            lemma_live_before_change(before.slots, self@.slots, p as int, r);
                        }
                    }
                    while q < n
                        invariant
                            p < q <= n,
                            n == self.legacies@.len(),
                            n == before.slots.len(),
                            self@ == before.dropped(index as nat),
                            before.slots[p as int].holders > 0,
                            q < n ==> self@.slots[p as int].holders == 0,
                            before.slots[p as int].index == index as nat,
                            forall|r: int|
                                0 <= r < n && r != p as int ==> (#[trigger] before.slots[r]).index
                                    != index as nat,
                            forall|r: int|
                                0 <= r < n ==> (#[trigger] self.legacies@[r]).released == (
                                self.legacies@[r].seals == 0),
                            forall|r: int|
                                0 <= r < q ==> (#[trigger] self.legacies@[r]).seals == live_before(
                                    self@.slots,
                                    r,
                                ),
                            forall|r: int|
                                q <= r < n ==> (#[trigger] self.legacies@[r]).seals == live_before(
                                    before.slots,
                                    r,
                                ),
                        decreases n - q,
                    {
                        let next = self.legacies[q];
                        proof {
                            lemma_live_before_change(before.slots, self@.slots, p as int, q as int);
                        }
                        let ghost mid = self@.slots;
                        self.legacies[q] = Slot {
                            index: next.index,
                            holders: next.holders,
                            seals: next.seals - 1,
                            released: next.seals == 1,
                            read: next.read,
                        };
                        proof {
                            assert(self@.slots =~= mid);
                        }
                        q += 1;
                    }
                } else {
                    proof {
                        before.lemma_holders_at(p as int);
                        assert(self@.slots =~= before.dropped(index as nat).slots);
                    }
                }
            },
            None => {
                assert(self@.slots =~= before.dropped(index as nat).slots);
            },
        }
        proof {
            before.lemma_dropped_wf(index as nat);
        }
    }

    /// Forgets every slot on which no handle is held. Returns how many are
    /// left: the registries that a new slot's seal goes to.
    fn sweep(&mut self) -> (live: usize)
        requires
            old(self).wf(),
            old(self).last_read is None,
        ensures
            final(self).wf(),
            final(self)@ == old(self)@.flushed(),
            live == final(self)@.slots.len(),
            forall|p: int|
                0 <= p < final(self)@.slots.len() ==> (#[trigger] final(self)@.slots[p]).holders > 0,
    {
        let ghost start = self@;
        let ghost before = self@.slots;
        let mut kept: Vec<Slot> = Vec::new();
        let mut p: usize = 0;
        assert(before.take(0) =~= Seq::empty());
        assert(entries(kept@) =~= Seq::empty());
        while p < self.legacies.len()
            invariant
                p <= self.legacies@.len(),
                self.wf(),
                before == self@.slots,
                before == entries(self.legacies@),
                entries(kept@) == prune(before.take(p as int)),
                kept@.len() == live_before(before, p as int),
                kept@.len() <= p,
                forall|m: int|
                    0 <= m < kept@.len() ==> {
                        &&& (#[trigger] kept@[m]).seals == m
                        &&& kept@[m].released == (m == 0)
                        &&& kept@[m].holders > 0
                    },
            decreases self.legacies@.len() - p,
        {
            let slot = self.legacies[p];
            proof {
                assert(before.take(p + 1).drop_last() =~= before.take(p as int));
                assert(before.take(p + 1).last() == before[p as int]);
            }
            if slot.holders > 0 {
                let ghost prior = kept@;
                kept.push(slot);
                proof {
                    assert(entries(kept@) =~= entries(prior).push(before[p as int]));
                }
            }
            p += 1;
        }
        proof {
            assert(before.take(p as int) =~= before);
        }
        self.legacies = kept;
        proof {
            let after = self@.slots;
            start.lemma_flushed_wf();
            assert forall|m: int| 0 <= m < after.len() implies (#[trigger] after[m]).holders
                > 0 by {
                assert(self.legacies@[m].holders > 0);
            }
            assert forall|m: int| 0 <= m < self.legacies@.len() implies (
            #[trigger] self.legacies@[m]).seals == live_before(after, m) by {
                lemma_live_before_all(after, m);
            }
        }
        self.legacies.len()
    }

    /// Opens a new slot behind all others and returns its index. Its seal goes
    /// to the registry of every slot on which a handle is held; with no such
    /// slot the seal breaks at once and the new slot is released.
    fn issue(&mut self, read: bool) -> (index: usize)
        requires
            old(self).wf(),
            old(self).last_read is None,
            old(self).next_index < usize::MAX,
        ensures
            final(self).wf(),
            final(self)@ == old(self)@.issuing(read),
            final(self).last_read is None,
            index == old(self)@.issued + 1,
    {
        let ghost start = self@;
        let seals = self.sweep();
        self.next_index += 1;
        let index = self.next_index;
        let ghost swept = self@.slots;
        let ghost prior = self.legacies@;
        self.legacies.push(Slot { index, holders: 1, seals, released: seals == 0, read });
        proof {
            let after = self@.slots;
            assert(after =~= swept.push(Entry { index: index as nat, holders: 1, read }));
            start.lemma_issuing(read, 0);
            lemma_live_before_all(after, seals as int);
            assert forall|m: int| 0 <= m < self.legacies@.len() implies (
            #[trigger] self.legacies@[m]).seals == live_before(after, m) by {
                if m < seals {
                    assert(self.legacies@[m] == prior[m]);
                    lemma_live_before_prefix(swept, after, m);
                }
            }
            assert forall|m: int| 0 <= m < self.legacies@.len() implies (
            #[trigger] self.legacies@[m]).released == (self.legacies@[m].seals == 0) by {
                if m < seals {
                    assert(self.legacies@[m] == prior[m]);
                }
            }
        }
        index
    }

    /// Issues a write ticket on a new slot behind every slot issued so far.
    /// Reads that follow no longer join the reads before it.
    pub fn write(&mut self) -> (ticket: Ticket<Write>)
        requires
            old(self).wf(),
            old(self)@.issued < usize::MAX,
        ensures
            final(self).wf(),
            final(self)@ == old(self)@.wrote(),
            ticket.slot() == old(self)@.issued + 1,
    {
        self.last_read = None;
        let index = self.issue(false);
        Ticket { index, access: Write }
    }

    /// Issues a read ticket. While no write has come since the last read, the
    /// ticket joins that read's slot; else it stands on a new slot, which the
    /// reads that follow will join.
    pub fn read(&mut self) -> (ticket: Ticket<Read>)
        requires
            old(self).wf(),
            old(self)@.cached is None ==> old(self)@.issued < usize::MAX,
            old(self)@.cached matches Some(c) ==> old(self)@.holders(c) < usize::MAX,
        ensures
            final(self).wf(),
            final(self)@ == old(self)@.read(),
            ticket.slot() == old(self)@.read_slot(),
    {
        let ghost before = self@;
        match self.last_read {
            Some(index) => {
                proof {
                    before.lemma_holders_at(before.slots.len() - 1);
                }
                let found = self.position(index);
                let p = found.unwrap();
                self.add_handle(p);
                Ticket { index, access: () }
            },
            None => {
                let index = self.issue(true);
                self.last_read = Some(index);
                Ticket { index, access: () }
            },
        }
    }

    /// Counts one more handle on the slot at position `p`.
    fn add_handle(&mut self, p: usize)
        requires
            old(self).wf(),
            p < old(self).legacies@.len(),
            old(self).legacies@[p as int].holders < usize::MAX,
            old(self).legacies@[p as int].holders > 0 || p + 1 == old(self).legacies@.len(),
            old(self).legacies@[p as int].read,
        ensures
            final(self).wf(),
            final(self)@ == old(self)@.bumped(old(self).legacies@[p as int].index as nat),
    {
        let ghost before = self@;
        let slot = self.legacies[p];
        self.legacies[p] = Slot {
            index: slot.index,
            holders: slot.holders + 1,
            seals: slot.seals,
            released: slot.released,
            read: slot.read,
        };
        proof {
            assert forall|q: int| 0 <= q < before.slots.len() && q != p as int implies (
            #[trigger] before.slots[q]).index != slot.index as nat by {
                if q < p {
                    assert(before.slots[q].index < before.slots[p as int].index);
                } else {
                    assert(before.slots[p as int].index < before.slots[q].index);
                }
            }
            assert(self@.slots =~= before.bumped(slot.index as nat).slots);
            assert forall|r: int| 0 <= r < self.legacies@.len() implies (
            #[trigger] self.legacies@[r]).seals == live_before(self@.slots, r) by {
                lemma_live_before_change(before.slots, self@.slots, p as int, r);
            }
            before.lemma_holders_at(p as int);
            before.lemma_bumped_wf(slot.index as nat);
        }
    }

    /// A further ticket on the slot of a read ticket that the caller holds.
    /// Nothing is handed out for a ticket on whose slot no handle is held, or
    /// whose slot was not opened by a read.
    pub fn share(&mut self, ticket: &Ticket<Read>) -> (copy: Option<Ticket<Read>>)
        requires
            old(self).wf(),
            old(self)@.holders(ticket.slot()) < usize::MAX,
        ensures
            final(self).wf(),
            copy is Some <==> old(self)@.holders(ticket.slot()) > 0 && old(self)@.reads(
                ticket.slot(),
            ),
            copy matches Some(t) ==> t.slot() == ticket.slot(),
            final(self)@ == if copy is Some {
                old(self)@.bumped(ticket.slot())
            } else {
                old(self)@
            },
    {
        match self.position(ticket.index) {
            Some(p) => {
                proof {
                    self@.lemma_holders_at(p as int);
                }
                if self.legacies[p].holders > 0 && self.legacies[p].read {
                    self.add_handle(p);
                    Some(Ticket { index: ticket.index, access: () })
                } else {
                    None
                }
            },
            None => None,
        }
    }

    /// Ends the access that `guard` stands for. When it was the last handle on
    /// its slot, the slots behind it lose the predecessor that held them back.
    pub fn release(&mut self, guard: LockGuard)
        requires
            old(self).wf(),
        ensures
            final(self).wf(),
            final(self)@ == old(self)@.dropped(guard.slot()),
    {
        self.drop_handle(guard.index);
    }

    /// Gives up a ticket that will not be waited on. For the order this is the
    /// same as redeeming it and releasing the guard at once.
    pub fn abandon<A>(&mut self, ticket: Ticket<A>)
        requires
            old(self).wf(),
        ensures
            final(self).wf(),
            final(self)@ == old(self)@.dropped(ticket.slot()),
    {
        self.drop_handle(ticket.index);
    }

    /// One step of draining: closes the read slot for joining, forgets every
    /// slot without a handle, and tells whether nothing is outstanding. A
    /// caller that must wait for that repeats the step after each release.
    pub fn flush(&mut self) -> (idle: bool)
        requires
            old(self).wf(),
        ensures
            final(self).wf(),
            final(self)@ == old(self)@.flushed(),
            idle <==> final(self)@.slots.len() == 0,
            idle <==> forall|i: nat| old(self)@.holders(i) == 0,
    {
        let ghost before = self@;
        self.last_read = None;
        let live = self.sweep();
        proof {
            before.lemma_idle();
        }
        live == 0
    }

    /// How many slots the sequencer keeps at the moment, finished ones that
    /// the next issuance will forget included.
    pub fn len(&self) -> (n: usize)
        ensures
            n == self@.slots.len(),
    {
        self.legacies.len()
    }

    /// How many slots have been issued so far.
    pub fn issued(&self) -> (n: usize)
        ensures
            n == self@.issued,
    {
        self.next_index
    }

    /// The slot that the next read ticket will join, if there is one.
    pub fn cached(&self) -> (slot: Option<usize>)
        ensures
            slot is Some <==> self@.cached is Some,
            slot matches Some(c) ==> self@.cached == Some(c as nat),
    {
        self.last_read
    }

    /// How many tickets and guards are held on slot `index`.
    pub fn holders(&self, index: usize) -> (n: usize)
        requires
            self.wf(),
        ensures
            n == self@.holders(index as nat),
    {
        match self.position(index) {
            Some(p) => self.legacies[p].holders,
            None => 0,
        }
    }
}

} // verus!
