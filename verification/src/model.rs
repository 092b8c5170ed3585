//! The sequencer as a mathematical state machine.
//!
//! A `Model` records, for every ordering slot that the sequencer still keeps,
//! how many handles (tickets and guards) callers hold on it. Everything the
//! executable engine promises is stated over this model.

use vstd::prelude::*;

verus! {

/// An ordering slot that the sequencer keeps: its place in issuance order and
/// the number of tickets and guards that callers still hold on it.
pub struct Entry {
    pub index: nat,
    pub holders: nat,
    /// Whether the slot was opened by a read, so that more than one handle
    /// may stand on it.
    pub read: bool,
}

/// The abstract state of a sequencer.
pub struct Model {
    /// How many slots have been issued so far; the newest slot has this index.
    pub issued: nat,
    /// The slots that the sequencer keeps, oldest first. A slot stays here after its last
    /// handle is gone until the next issuance sweeps it out.
    pub slots: Seq<Entry>,
    /// The slot that further reads join, if the newest slot is a read slot.
    pub cached: Option<nat>,
}

/// One move of the protocol, as the sequencer sees it.
pub enum Step {
    /// A write ticket is issued.
    Write,
    /// A read ticket is issued.
    Read,
    /// A further ticket is asked for on the slot of a read ticket.
    Share(nat),
    /// A handle on a slot is given up: a guard is released or a ticket
    /// abandoned.
    Drop(nat),
    /// A drain step.
    Flush,
}

/// The slots of `slots` on which a handle is still held, in the same order.
pub open spec fn prune(slots: Seq<Entry>) -> Seq<Entry>
    decreases slots.len(),
{
    if slots.len() == 0 {
        Seq::empty()
    } else if slots.last().holders > 0 {
        prune(slots.drop_last()).push(slots.last())
    } else {
        prune(slots.drop_last())
    }
}

/// Whether a slot with index `i` is among `slots`.
pub open spec fn listed(slots: Seq<Entry>, i: nat) -> bool {
    exists|p: int| 0 <= p < slots.len() && (#[trigger] slots[p]).index == i
}

/// The position of a slot with index `i` among `slots`, if there is one.
pub open spec fn place(slots: Seq<Entry>, i: nat) -> int {
    choose|p: int| 0 <= p < slots.len() && (#[trigger] slots[p]).index == i
}

/// Whether the slots stand in strictly rising order of index.
pub open spec fn rising(slots: Seq<Entry>) -> bool {
    forall|p: int, q: int|
        0 <= p < q < slots.len() ==> (#[trigger] slots[p]).index < (#[trigger] slots[q]).index
}

/// Sweeping keeps exactly the slots with a handle, in their order.
pub proof fn lemma_prune(slots: Seq<Entry>)
    requires
        rising(slots),
    ensures
        prune(slots).len() <= slots.len(),
        rising(prune(slots)),
        forall|m: int|
            0 <= m < prune(slots).len() ==> (#[trigger] prune(slots)[m]).holders > 0
                && slots.contains(prune(slots)[m]),
        forall|p: int|
            0 <= p < slots.len() && (#[trigger] slots[p]).holders > 0 ==> prune(slots).contains(
                slots[p],
            ),
    decreases slots.len(),
{
    if slots.len() > 0 {
        let front = slots.drop_last();
        let last = slots.last();
        lemma_prune(front);
        let kept = prune(front);
        let all = prune(slots);
        assert forall|m: int| 0 <= m < kept.len() implies (#[trigger] kept[m]).index
            < last.index && slots.contains(kept[m]) by {
            assert(front.contains(kept[m]));
            let p = choose|p: int| 0 <= p < front.len() && front[p] == kept[m];
            assert(slots[p] == kept[m]);
            assert(slots[p].index < slots[slots.len() - 1].index);
        }
        assert forall|m: int| 0 <= m < all.len() implies (#[trigger] all[m]).holders > 0
            && slots.contains(all[m]) by {
            if m < kept.len() {
                assert(all[m] == kept[m]);
            } else {
                assert(all[m] == slots[slots.len() - 1]);
            }
        }
        assert forall|p: int| 0 <= p < slots.len() && (#[trigger] slots[p]).holders
            > 0 implies all.contains(slots[p]) by {
            if p < front.len() {
                assert(front[p] == slots[p]);
                assert(kept.contains(front[p]));
                let m = choose|m: int| 0 <= m < kept.len() && kept[m] == front[p];
                assert(all[m] == slots[p]);
            } else {
                assert(all[all.len() - 1] == slots[p]);
            }
        }
        assert forall|m: int, k: int| 0 <= m < k < all.len() implies (#[trigger] all[m]).index < (
        #[trigger] all[k]).index by {
            if k < kept.len() {
                assert(all[m] == kept[m] && all[k] == kept[k]);
            } else {
                assert(all[m] == kept[m]);
            }
        }
    }
}

impl Model {
    /// The state of a sequencer that has issued nothing.
    pub open spec fn fresh() -> Model {
        Model { issued: 0, slots: Seq::empty(), cached: None }
    }

    /// Slots are numbered from 1 up to `issued` and kept in strictly rising
    /// order, a slot that a write opened has at most one handle, and the
    /// slot that reads may join, if any, is a read slot and the newest of all.
    pub open spec fn wf(self) -> bool {
        &&& forall|p: int|
            0 <= p < self.slots.len() ==> 1 <= (#[trigger] self.slots[p]).index <= self.issued
        &&& rising(self.slots)
        &&& forall|p: int|
            0 <= p < self.slots.len() && !(#[trigger] self.slots[p]).read ==> self.slots[p].holders
                <= 1
        &&& self.cached matches Some(c) ==> c == self.issued && self.slots.len() > 0
            && self.slots.last().index == c && self.slots.last().read
    }

    /// Whether slot `i` is still in the collection.
    pub open spec fn tracks(self, i: nat) -> bool {
        listed(self.slots, i)
    }

    /// Where slot `i` stands in the collection, if it is there.
    pub open spec fn position(self, i: nat) -> int {
        place(self.slots, i)
    }

    /// The number of tickets and guards held on slot `i`.
    pub open spec fn holders(self, i: nat) -> nat {
        if self.tracks(i) {
            self.slots[self.position(i)].holders
        } else {
            0
        }
    }

    /// Whether slot `i` is in the collection and was opened by a read.
    pub open spec fn reads(self, i: nat) -> bool {
        self.tracks(i) && self.slots[self.position(i)].read
    }

    /// A slot is live while a caller holds a handle on it or the sequencer
    /// keeps it for further reads to join.
    pub open spec fn live(self, i: nat) -> bool {
        self.holders(i) > 0 || self.cached == Some(i)
    }

    /// Slot `i` is released: no handle is left on any slot issued before it.
    pub open spec fn released(self, i: nat) -> bool {
        forall|k: nat| k < i ==> self.holders(k) == 0
    }

    /// A ticket of slot `i` may become active: a handle on the slot exists and
    /// the slot is released.
    pub open spec fn due(self, i: nat) -> bool {
        self.holders(i) > 0 && self.released(i)
    }

    /// One more handle on slot `i`.
    pub open spec fn bumped(self, i: nat) -> Model {
        Model {
            issued: self.issued,
            slots: Seq::new(
                self.slots.len(),
                |p: int|
                    if self.slots[p].index == i {
                        Entry {
                            index: i,
                            holders: self.slots[p].holders + 1,
                            read: self.slots[p].read,
                        }
                    } else {
                        self.slots[p]
                    },
            ),
            cached: self.cached,
        }
    }

    /// One handle on slot `i` given up, if there was one.
    pub open spec fn dropped(self, i: nat) -> Model {
        Model {
            issued: self.issued,
            slots: Seq::new(
                self.slots.len(),
                |p: int|
                    if self.slots[p].index == i && self.slots[p].holders > 0 {
                        Entry {
                            index: i,
                            holders: (self.slots[p].holders - 1) as nat,
                            read: self.slots[p].read,
                        }
                    } else {
                        self.slots[p]
                    },
            ),
            cached: self.cached,
        }
    }

    /// The sequencer no longer keeps a read slot open for joining.
    pub open spec fn uncached(self) -> Model {
        Model { issued: self.issued, slots: self.slots, cached: None }
    }

    /// Slots without a handle swept out, then a new slot with one handle
    /// appended, for a read or for a write.
    pub open spec fn issuing(self, read: bool) -> Model {
        Model {
            issued: self.issued + 1,
            slots: prune(self.slots).push(Entry { index: self.issued + 1, holders: 1, read }),
            cached: self.cached,
        }
    }

    /// The state after a write ticket was issued.
    pub open spec fn wrote(self) -> Model {
        self.uncached().issuing(false)
    }

    /// The slot that the next read ticket will stand on.
    pub open spec fn read_slot(self) -> nat {
        match self.cached {
            Some(c) => c,
            None => self.issued + 1,
        }
    }

    /// The state after a read ticket was issued.
    pub open spec fn read(self) -> Model {
        match self.cached {
            Some(c) => self.bumped(c),
            None => Model {
                issued: self.issued + 1,
                slots: self.issuing(true).slots,
                cached: Some(self.issued + 1),
            },
        }
    }

    /// The state after a drain step: nothing cached, no slot kept but those
    /// on which a handle is held.
    pub open spec fn flushed(self) -> Model {
        Model { issued: self.issued, slots: prune(self.slots), cached: None }
    }
    /// Where indices rise, a slot is found at its own position.
    pub proof fn lemma_holders_at(self, p: int)
        requires
            rising(self.slots),
            0 <= p < self.slots.len(),
        ensures
            self.tracks(self.slots[p].index),
            self.position(self.slots[p].index) == p,
            self.holders(self.slots[p].index) == self.slots[p].holders,
            self.reads(self.slots[p].index) == self.slots[p].read,
    {
        let i = self.slots[p].index;
        assert(self.slots[p].index == i);
        let c = self.position(i);
        assert(self.slots[c].index == i);
        if c < p {
            assert(self.slots[c].index < self.slots[p].index);
        }
        if p < c {
            assert(self.slots[p].index < self.slots[c].index);
        }
    }

    /// The slot at position `p` is due exactly if a handle is held on it and
    /// none on the slots in front of it.
    pub proof fn lemma_due_at(self, p: int)
        requires
            self.wf(),
            0 <= p < self.slots.len(),
        ensures
            self.due(self.slots[p].index) <==> self.slots[p].holders > 0 && forall|q: int|
                0 <= q < p ==> (#[trigger] self.slots[q]).holders == 0,
    {
        let i = self.slots[p].index;
        self.lemma_holders_at(p);
        if self.due(i) {
            assert forall|q: int| 0 <= q < p implies (#[trigger] self.slots[q]).holders == 0 by {
                self.lemma_holders_at(q);
                assert(self.slots[q].index < self.slots[p].index);
                assert(self.holders(self.slots[q].index) == 0);
            }
        }
        if self.slots[p].holders > 0 && forall|q: int|
            0 <= q < p ==> (#[trigger] self.slots[q]).holders == 0 {
            assert forall|k: nat| k < i implies self.holders(k) == 0 by {
                if self.tracks(k) {
                    let q = self.position(k);
                    assert(self.slots[q].index == k);
                    if p <= q {
                        if p < q {
                            assert(self.slots[p].index < self.slots[q].index);
                        }
                    } else {
                        assert(self.slots[q].holders == 0);
                    }
                }
            }
        }
    }

    /// Sweeping changes the number of handles on no slot.
    pub proof fn lemma_prune_holders(self, i: nat)
        requires
            self.wf(),
        ensures
            self.flushed().holders(i) == self.holders(i),
    {
        let t = self.flushed();
        lemma_prune(self.slots);
        if self.holders(i) > 0 {
            let p = self.position(i);
            assert(self.slots[p].index == i);
            assert(t.slots.contains(self.slots[p]));
            let m = choose|m: int| 0 <= m < t.slots.len() && t.slots[m] == self.slots[p];
            t.lemma_holders_at(m);
        } else if t.tracks(i) {
            let m = t.position(i);
            assert(t.slots[m].index == i);
            assert(self.slots.contains(t.slots[m]));
            let p = choose|p: int| 0 <= p < self.slots.len() && self.slots[p] == t.slots[m];
            self.lemma_holders_at(p);
        }
    }

    /// Nothing is left after a sweep exactly if no handle is held on any slot.
    pub proof fn lemma_idle(self)
        requires
            self.wf(),
        ensures
            prune(self.slots).len() == 0 <==> forall|i: nat| self.holders(i) == 0,
    {
        let t = self.flushed();
        lemma_prune(self.slots);
        if t.slots.len() == 0 {
            assert forall|i: nat| self.holders(i) == 0 by {
                self.lemma_prune_holders(i);
                assert(!t.tracks(i));
            }
        } else {
            t.lemma_holders_at(0);
            self.lemma_prune_holders(t.slots[0].index);
        }
    }

    /// What `holders` says after a handle on slot `i` came or went.
    pub proof fn lemma_holders_moved(self, i: nat, k: nat)
        requires
            self.wf(),
        ensures
            self.dropped(i).holders(k) == if k == i && self.holders(i) > 0 {
                (self.holders(i) - 1) as nat
            } else {
                self.holders(k)
            },
            self.bumped(i).holders(k) == if k == i && self.tracks(i) {
                self.holders(i) + 1
            } else {
                self.holders(k)
            },
    {
        let d = self.dropped(i);
        let b = self.bumped(i);
        assert forall|p: int| 0 <= p < self.slots.len() implies (#[trigger] d.slots[p]).index
            == self.slots[p].index && (#[trigger] b.slots[p]).index == self.slots[p].index by {}
        if self.tracks(k) {
            let p = self.position(k);
            assert(self.slots[p].index == k);
            self.lemma_holders_at(p);
            assert(d.slots[p].index == k);
            assert(b.slots[p].index == k);
            assert(rising(d.slots));
            assert(rising(b.slots));
            d.lemma_holders_at(p);
            b.lemma_holders_at(p);
        } else {
            if d.tracks(k) {
                let p = d.position(k);
                assert(d.slots[p].index == k);
                assert(self.slots[p].index == k);
            }
            if b.tracks(k) {
                let p = b.position(k);
                assert(b.slots[p].index == k);
                assert(self.slots[p].index == k);
            }
        }
    }

    /// Giving up a handle keeps the state well formed.
    pub proof fn lemma_dropped_wf(self, i: nat)
        requires
            self.wf(),
        ensures
            self.dropped(i).wf(),
    {
        let d = self.dropped(i);
        assert forall|p: int| 0 <= p < self.slots.len() implies (#[trigger] d.slots[p]).index
            == self.slots[p].index && d.slots[p].read == self.slots[p].read by {}
        assert forall|p: int| 0 <= p < d.slots.len() && !(#[trigger] d.slots[p]).read implies
            d.slots[p].holders <= 1 by {
            assert(!self.slots[p].read);
        }
    }

    /// A further handle keeps the state well formed.
    pub proof fn lemma_bumped_wf(self, i: nat)
        requires
            self.wf(),
            self.reads(i) || !self.tracks(i),
        ensures
            self.bumped(i).wf(),
    {
        let b = self.bumped(i);
        assert forall|p: int| 0 <= p < self.slots.len() implies (#[trigger] b.slots[p]).index
            == self.slots[p].index && b.slots[p].read == self.slots[p].read by {}
        assert forall|p: int| 0 <= p < b.slots.len() && !(#[trigger] b.slots[p]).read implies
            b.slots[p].holders <= 1 by {
            assert(!self.slots[p].read);
            self.lemma_holders_at(p);
        }
    }
    /// The state after the move `step`.
    pub open spec fn step(self, step: Step) -> Model {
        match step {
            Step::Write => self.wrote(),
            Step::Read => self.read(),
            Step::Share(i) => if self.holders(i) > 0 && self.reads(i) {
                self.bumped(i)
            } else {
                self
            },
            Step::Drop(i) => self.dropped(i),
            Step::Flush => self.flushed(),
        }
    }

    /// A sweep keeps the state well formed.
    pub proof fn lemma_flushed_wf(self)
        requires
            self.wf(),
        ensures
            self.flushed().wf(),
    {
        let t = self.flushed();
        lemma_prune(self.slots);
        assert forall|m: int| 0 <= m < t.slots.len() implies 1 <= (#[trigger] t.slots[m]).index
            <= t.issued by {
            assert(self.slots.contains(t.slots[m]));
            let p = choose|p: int| 0 <= p < self.slots.len() && self.slots[p] == t.slots[m];
            assert(1 <= self.slots[p].index <= self.issued);
        }
        assert forall|m: int| 0 <= m < t.slots.len() && !(#[trigger] t.slots[m]).read implies
            t.slots[m].holders <= 1 by {
            assert(self.slots.contains(t.slots[m]));
            let p = choose|p: int| 0 <= p < self.slots.len() && self.slots[p] == t.slots[m];
            assert(!self.slots[p].read);
        }
    }

    /// Opening a slot keeps the state well formed, and leaves the handles on
    /// the slots before it as they were.
    pub proof fn lemma_issuing(self, read: bool, k: nat)
        requires
            self.wf(),
        ensures
            self.cached is None ==> self.issuing(read).wf(),
            rising(self.issuing(read).slots),
            self.issuing(read).holders(k) == if k == self.issued + 1 {
                1
            } else {
                self.holders(k)
            },
    {
        let t = self.flushed();
        let u = self.issuing(read);
        self.lemma_flushed_wf();
        self.lemma_prune_holders(k);
        let n = t.slots.len() as int;
        assert(u.slots.len() == n + 1);
        assert forall|m: int| 0 <= m < n implies (#[trigger] u.slots[m]) == t.slots[m] by {}
        assert forall|m: int| 0 <= m < n + 1 implies 1 <= (#[trigger] u.slots[m]).index
            <= u.issued by {
            if m < n {
                assert(u.slots[m] == t.slots[m]);
            }
        }
        assert forall|p: int, q: int| 0 <= p < q < n + 1 implies (#[trigger] u.slots[p]).index < (
        #[trigger] u.slots[q]).index by {
            assert(u.slots[p] == t.slots[p]);
            if q < n {
                assert(u.slots[q] == t.slots[q]);
            }
        }
        assert(rising(u.slots));
        assert forall|m: int| 0 <= m < n + 1 && !(#[trigger] u.slots[m]).read implies
            u.slots[m].holders <= 1 by {
            if m < n {
                assert(u.slots[m] == t.slots[m]);
            }
        }
        if k == self.issued + 1 {
            u.lemma_holders_at(n);
        } else if t.tracks(k) {
            let m = t.position(k);
            assert(t.slots[m].index == k);
            t.lemma_holders_at(m);
            assert(u.slots[m] == t.slots[m]);
            u.lemma_holders_at(m);
        } else if u.tracks(k) {
            let m = u.position(k);
            assert(u.slots[m].index == k);
            assert(u.slots[m] == t.slots[m]);
            assert(t.slots[m].index == k);
        }
    }
}

} // verus!
