//! What holds of every run of the sequencer, stated over its model.

use crate::model::{lemma_prune, Model, Step};
use vstd::prelude::*;

verus! {

/// Every move leads from a well-formed state to a well-formed state.
pub proof fn law_steps_keep_well_formed(s: Model, step: Step)
    requires
        s.wf(),
    ensures
        s.step(step).wf(),
{
    s.lemma_issuing(true, 0);
    s.uncached().lemma_issuing(false, 0);
    s.lemma_flushed_wf();
    match step {
        Step::Share(i) => {
            if s.holders(i) > 0 && s.reads(i) {
                s.lemma_bumped_wf(i);
            }
        },
        Step::Drop(i) => s.lemma_dropped_wf(i),
        Step::Read => {
            if let Some(c) = s.cached {
                s.lemma_holders_at(s.slots.len() - 1);
                s.lemma_bumped_wf(c);
            }
        },
        _ => {},
    }
}

/// How each move changes the number of handles on a slot: a new slot starts
/// with one, a joined or shared slot gains one, a dropped handle is one less,
/// and nothing else changes.
pub proof fn law_handles_after_step(s: Model, step: Step, k: nat)
    requires
        s.wf(),
    ensures
        s.step(step).holders(k) == match step {
            Step::Write => if k == s.issued + 1 {
                1
            } else {
                s.holders(k)
            },
            Step::Read => if k == s.read_slot() {
                s.holders(k) + 1
            } else {
                s.holders(k)
            },
            Step::Share(i) => if k == i && s.holders(i) > 0 && s.reads(i) {
                s.holders(k) + 1
            } else {
                s.holders(k)
            },
            Step::Drop(i) => if k == i && s.holders(i) > 0 {
                (s.holders(k) - 1) as nat
            } else {
                s.holders(k)
            },
            Step::Flush => s.holders(k),
        },
{
    match step {
        Step::Write => {
            s.uncached().lemma_issuing(false, k);
            assert(s.uncached().holders(k) == s.holders(k));
        },
        Step::Read => {
            match s.cached {
                Some(c) => {
                    s.lemma_holders_at(s.slots.len() - 1);
                    s.lemma_holders_moved(c, k);
                },
                None => {
                    s.lemma_issuing(true, k);
                    let t = s.read();
                    assert(t.holders(k) == s.issuing(true).holders(k));
                    if s.tracks(s.issued + 1) {
                        let p = s.position(s.issued + 1);
                        assert(s.slots[p].index == s.issued + 1);
                    }
                },
            }
        },
        Step::Share(i) => {
            s.lemma_holders_moved(i, k);
        },
        Step::Drop(i) => {
            s.lemma_holders_moved(i, k);
        },
        Step::Flush => {
            s.lemma_prune_holders(k);
        },
    }
}

/// Tickets on different slots become active in the order of issue: while a
/// handle is held on a slot, no ticket of a later slot is due. A write ticket
/// always stands on a slot of its own, so write tickets become active one by
/// one, in the order in which they were issued.
pub proof fn law_active_in_issuance_order(s: Model, i: nat, j: nat)
    requires
        s.wf(),
        i < j,
        s.holders(i) > 0,
    ensures
        !s.due(j),
{
}

/// At most one slot is active at a time: two tickets that are both due stand
/// on the same slot.
pub proof fn law_one_slot_at_a_time(s: Model, i: nat, j: nat)
    requires
        s.wf(),
        s.due(i),
        s.due(j),
    ensures
        i == j,
{
}

/// A write is alone: on a slot that a write opened there is never more than
/// one handle, and while that handle is held no ticket of any other slot is
/// due. So the holder of a write guard is the only holder of any guard.
pub proof fn law_write_is_exclusive(s: Model, j: nat, i: nat)
    requires
        s.wf(),
        s.tracks(j),
        !s.reads(j),
        s.holders(j) > 0,
        i != j,
    ensures
        s.holders(j) == 1,
        !(s.due(i) && s.due(j)),
{
    let p = s.position(j);
    assert(s.slots[p].index == j);
}

/// The state after the moves `steps`, made one after another from `s`.
pub open spec fn run(s: Model, steps: Seq<Step>) -> Model
    decreases steps.len(),
{
    if steps.len() == 0 {
        s
    } else {
        run(s, steps.drop_last()).step(steps.last())
    }
}

/// Whatever moves are made on a new sequencer, in whatever order, the state
/// they lead to is well formed.
pub proof fn law_every_run_is_well_formed(steps: Seq<Step>)
    ensures
        run(Model::fresh(), steps).wf(),
    decreases steps.len(),
{
    if steps.len() > 0 {
        law_every_run_is_well_formed(steps.drop_last());
        law_steps_keep_well_formed(run(Model::fresh(), steps.drop_last()), steps.last());
    }
}

/// Whatever moves were made, and however issuing, waiting, releasing and
/// giving up were interleaved: while a handle is held on a slot, no ticket of
/// a later slot is due.
pub proof fn law_order_in_every_run(steps: Seq<Step>, i: nat, j: nat)
    requires
        i < j,
        run(Model::fresh(), steps).holders(i) > 0,
    ensures
        !run(Model::fresh(), steps).due(j),
{
    law_every_run_is_well_formed(steps);
    law_active_in_issuance_order(run(Model::fresh(), steps), i, j);
}

/// The counter of issued slots never falls; a write raises it by one, and so
/// does a read that opens a slot, and nothing else changes it.
pub proof fn law_counter_rises(s: Model, step: Step)
    requires
        s.wf(),
    ensures
        s.step(step).issued == match step {
            Step::Write => s.issued + 1,
            Step::Read => if s.cached is None {
                s.issued + 1
            } else {
                s.issued
            },
            _ => s.issued,
        },
{
}

/// A slot that is finished stays finished: once no handle is held on an
/// issued slot and no read can join it, no move brings a handle back. So a
/// ticket that has become due stays due until it is redeemed or given up.
pub proof fn law_finished_stays_finished(s: Model, step: Step, k: nat)
    requires
        s.wf(),
        1 <= k <= s.issued,
        !s.live(k),
    ensures
        !s.step(step).live(k),
{
    law_handles_after_step(s, step, k);
    law_steps_keep_well_formed(s, step);
}

/// A release is final: once no handle is left on any slot before an issued
/// slot, no move brings one back.
pub proof fn law_release_is_final(s: Model, step: Step, j: nat)
    requires
        s.wf(),
        j <= s.issued,
        s.released(j),
    ensures
        s.step(step).released(j),
{
    let t = s.step(step);
    assert forall|k: nat| k < j implies t.holders(k) == 0 by {
        assert(s.holders(k) == 0);
        law_handles_after_step(s, step, k);
    }
}

/// Once due, a ticket stays due under every move that leaves its slot's
/// handles alone.
pub proof fn law_due_stays_due(s: Model, step: Step, j: nat)
    requires
        s.wf(),
        s.due(j),
        step != Step::Drop(j),
    ensures
        s.step(step).due(j),
{
    let p = s.position(j);
    assert(s.slots[p].index == j);
    law_handles_after_step(s, step, j);
    law_release_is_final(s, step, j);
}

/// Reads that follow one another with no write between them stand on one
/// slot: the second of two such tickets names the slot of the first, and the
/// slot then counts one handle more. Whether a ticket is due depends on its
/// slot alone, so all of them are due together and none waits for another.
pub proof fn law_consecutive_reads_share_slot(s: Model)
    requires
        s.wf(),
    ensures
        s.read().cached == Some(s.read_slot()),
        s.read().read_slot() == s.read_slot(),
        s.read().holders(s.read_slot()) > 0,
        s.read().read().holders(s.read_slot()) == s.read().holders(s.read_slot()) + 1,
        s.read().due(s.read_slot()) == s.read().read().due(s.read_slot()),
{
    let r = s.read_slot();
    let t = s.read();
    law_steps_keep_well_formed(s, Step::Read);
    law_handles_after_step(s, Step::Read, r);
    law_handles_after_step(t, Step::Read, r);
    assert(t.step(Step::Read) == t.read());
    assert(s.step(Step::Read) == t);
    let u = t.read();
    assert forall|k: nat| k != r implies #[trigger] u.holders(k) == t.holders(k) by {
        law_handles_after_step(t, Step::Read, k);
    }
    if t.due(r) {
        assert forall|k: nat| k < r implies u.holders(k) == 0 by {
            assert(t.holders(k) == 0);
        }
    }
    if u.due(r) {
        assert forall|k: nat| k < r implies t.holders(k) == 0 by {
            assert(u.holders(k) == 0);
        }
    }
}

/// The state after `n` read tickets were issued in a row.
pub open spec fn read_many(s: Model, n: nat) -> Model
    decreases n,
{
    if n == 0 {
        s
    } else {
        read_many(s, (n - 1) as nat).read()
    }
}

/// However many reads follow one another, all their tickets stand on the
/// slot of the first, and the slot counts one handle for each.
pub proof fn law_reads_in_a_row_share_slot(s: Model, n: nat)
    requires
        s.wf(),
        n >= 1,
    ensures
        read_many(s, n).wf(),
        read_many(s, (n - 1) as nat).read_slot() == s.read_slot(),
        read_many(s, n).cached == Some(s.read_slot()),
        read_many(s, n).holders(s.read_slot()) == s.holders(s.read_slot()) + n,
    decreases n,
{
    let r = s.read_slot();
    if n == 1 {
        law_steps_keep_well_formed(s, Step::Read);
        law_handles_after_step(s, Step::Read, r);
        law_consecutive_reads_share_slot(s);
    } else {
        let t = read_many(s, (n - 1) as nat);
        law_reads_in_a_row_share_slot(s, (n - 1) as nat);
        law_steps_keep_well_formed(t, Step::Read);
        law_handles_after_step(t, Step::Read, r);
        law_consecutive_reads_share_slot(t);
    }
}

/// The handles on one slot do not wait for one another: while another handle
/// remains on a slot that is due, giving one up leaves the slot due.
pub proof fn law_handles_of_a_slot_are_not_ordered(s: Model, r: nat)
    requires
        s.wf(),
        s.due(r),
        s.holders(r) >= 2,
    ensures
        s.dropped(r).due(r),
{
    s.lemma_holders_moved(r, r);
    assert forall|k: nat| k < r implies s.dropped(r).holders(k) == 0 by {
        s.lemma_holders_moved(r, k);
    }
}

/// A write ticket issued while a handle is held on an earlier slot is not due
/// when it is issued, and the write leaves that handle in place. In
/// particular a write that follows a read waits for every ticket and guard
/// of that read.
pub proof fn law_write_waits_for_earlier_handles(s: Model, k: nat)
    requires
        s.wf(),
        s.holders(k) > 0,
    ensures
        k <= s.issued,
        s.wrote().holders(k) == s.holders(k),
        !s.wrote().due(s.issued + 1),
{
    let p = s.position(k);
    assert(s.slots[p].index == k);
    law_handles_after_step(s, Step::Write, k);
}

/// A read and then a write: the write ticket is not due while a handle of
/// the read remains.
pub proof fn law_write_after_read_waits(s: Model)
    requires
        s.wf(),
    ensures
        s.read_slot() < s.read().issued + 1,
        !s.read().wrote().due(s.read().issued + 1),
{
    let r = s.read_slot();
    let t = s.read();
    law_steps_keep_well_formed(s, Step::Read);
    law_handles_after_step(s, Step::Read, r);
    law_write_waits_for_earlier_handles(t, r);
}

/// Giving up the last handle on the only slot that holds a ticket back makes
/// that ticket due, whether the handle was a guard or a ticket that nobody
/// waited on.
pub proof fn law_last_drop_unblocks(s: Model, i: nat, j: nat)
    requires
        s.wf(),
        i < j,
        s.holders(i) == 1,
        s.holders(j) > 0,
        forall|k: nat| k < j && k != i ==> s.holders(k) == 0,
    ensures
        s.dropped(i).due(j),
{
    s.lemma_holders_moved(i, j);
    assert forall|k: nat| k < j implies s.dropped(i).holders(k) == 0 by {
        s.lemma_holders_moved(i, k);
    }
}

/// An issuance forgets what is finished: of the slots kept after it, every
/// one but the new one has a handle held on it. So the sequencer never keeps
/// more slots than there are slots in use, and one.
pub proof fn law_issuance_forgets_finished_slots(s: Model, read: bool, p: int)
    requires
        s.wf(),
        0 <= p < s.issuing(read).slots.len() - 1,
    ensures
        s.issuing(read).slots[p].holders > 0,
        s.slots.contains(s.issuing(read).slots[p]),
{
    lemma_prune(s.slots);
    assert(s.issuing(read).slots[p] == s.flushed().slots[p]);
}

/// Issues one ticket after another and gives each up at once: a write ticket
/// where `writes` says so, else a read ticket.
pub open spec fn churn(s: Model, writes: Seq<bool>) -> Model
    decreases writes.len(),
{
    if writes.len() == 0 {
        s
    } else {
        let t = churn(s, writes.drop_last());
        if writes.last() {
            t.wrote().dropped(t.issued + 1)
        } else {
            t.read().dropped(t.read_slot())
        }
    }
}

/// Churn on a state with at most one slot and no handle leaves such a state.
proof fn lemma_churn(s: Model, writes: Seq<bool>)
    requires
        s.wf(),
        s.slots.len() <= 1,
        forall|i: nat| s.holders(i) == 0,
    ensures
        churn(s, writes).wf(),
        churn(s, writes).slots.len() <= 1,
        writes.len() > 0 ==> churn(s, writes).slots.len() == 1,
        forall|i: nat| churn(s, writes).holders(i) == 0,
        churn(s, writes).issued <= s.issued + writes.len(),
    decreases writes.len(),
{
    if writes.len() > 0 {
        let t = churn(s, writes.drop_last());
        lemma_churn(s, writes.drop_last());
        t.lemma_idle();
        if writes.last() {
            let u = t.wrote();
            law_steps_keep_well_formed(t, Step::Write);
            let w = t.issued + 1;
            let d = u.dropped(w);
            u.lemma_dropped_wf(w);
            assert forall|i: nat| d.holders(i) == 0 by {
                law_handles_after_step(t, Step::Write, i);
                u.lemma_holders_moved(w, i);
            }
        } else {
            let u = t.read();
            let r = t.read_slot();
            law_steps_keep_well_formed(t, Step::Read);
            let d = u.dropped(r);
            u.lemma_dropped_wf(r);
            assert forall|i: nat| d.holders(i) == 0 by {
                law_handles_after_step(t, Step::Read, i);
                u.lemma_holders_moved(r, i);
            }
        }
    }
}

/// Tickets that are issued and given up one after another, never waited on,
/// do not pile up: after any number of them the sequencer holds no slot but
/// the one issued last, no handle is counted on it, and a drain step finds
/// nothing outstanding.
pub proof fn law_churn_leaves_nothing(writes: Seq<bool>)
    ensures
        churn(Model::fresh(), writes).wf(),
        churn(Model::fresh(), writes).slots.len() <= 1,
        forall|i: nat| churn(Model::fresh(), writes).holders(i) == 0,
        churn(Model::fresh(), writes).flushed().slots.len() == 0,
        churn(Model::fresh(), writes).issued <= writes.len(),
{
    let s = Model::fresh();
    assert forall|i: nat| s.holders(i) == 0 by {
        assert(!s.tracks(i));
    }
    lemma_churn(s, writes);
    churn(s, writes).lemma_idle();
}

} // verus!
