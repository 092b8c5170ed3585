use ticketed_lock::raw::{LockGuard, Ticket, TicketedLock, Write};

fn redeem<A>(ticket: Ticket<A>, lock: &TicketedLock) -> LockGuard {
    match ticket.wait(lock) {
        Ok(guard) => guard,
        Err(_) => panic!("the ticket is not due"),
    }
}

fn refused<A>(ticket: Ticket<A>, lock: &TicketedLock) -> Ticket<A> {
    match ticket.wait(lock) {
        Ok(_) => panic!("the ticket is due"),
        Err(ticket) => ticket,
    }
}

#[test]
fn new_sequencer_is_empty() {
    let mut lock = TicketedLock::new();
    assert_eq!(lock.len(), 0);
    assert_eq!(lock.issued(), 0);
    assert_eq!(lock.cached(), None);
    assert_eq!(lock.holders(1), 0);
    assert!(lock.flush());
}

#[test]
fn first_ticket_is_due_at_once() {
    let mut lock = TicketedLock::new();
    let w = lock.write();
    assert_eq!(w.index(), 1);
    assert_eq!(lock.issued(), 1);
    assert_eq!(lock.holders(1), 1);
    let guard = redeem(w, &lock);
    assert_eq!(guard.index(), 1);
    assert_eq!(lock.holders(1), 1);
    lock.release(guard);
    assert_eq!(lock.holders(1), 0);
}

#[test]
fn writes_become_active_in_issuance_order() {
    let mut lock = TicketedLock::new();
    let w1 = lock.write();
    let w2 = lock.write();
    let w3 = lock.write();
    assert_eq!((w1.index(), w2.index(), w3.index()), (1, 2, 3));
    let w3 = refused(w3, &lock);
    let w2 = refused(w2, &lock);
    let g1 = redeem(w1, &lock);
    let w3 = refused(w3, &lock);
    let w2 = refused(w2, &lock);
    lock.release(g1);
    let w3 = refused(w3, &lock);
    let g2 = redeem(w2, &lock);
    let w3 = refused(w3, &lock);
    lock.release(g2);
    let g3 = redeem(w3, &lock);
    lock.release(g3);
    assert!(lock.flush());
}

#[test]
fn consecutive_reads_share_a_slot() {
    let mut lock = TicketedLock::new();
    let w = lock.write();
    let r1 = lock.read();
    let r2 = lock.read();
    let r3 = lock.read();
    assert_eq!(r1.index(), 2);
    assert_eq!(r2.index(), 2);
    assert_eq!(r3.index(), 2);
    assert_eq!(lock.issued(), 2);
    assert_eq!(lock.cached(), Some(2));
    assert_eq!(lock.holders(2), 3);
    let r1 = refused(r1, &lock);
    let r3 = refused(r3, &lock);
    lock.abandon(w);
    let g3 = redeem(r3, &lock);
    let g1 = redeem(r1, &lock);
    let g2 = redeem(r2, &lock);
    assert_eq!(lock.holders(2), 3);
    lock.release(g1);
    lock.release(g2);
    lock.release(g3);
    assert_eq!(lock.holders(2), 0);
}

#[test]
fn write_after_read_waits_for_the_read() {
    let mut lock = TicketedLock::new();
    let r = lock.read();
    let w = lock.write();
    assert_eq!(r.index(), 1);
    assert_eq!(w.index(), 2);
    assert_eq!(lock.cached(), None);
    let w = refused(w, &lock);
    let g = redeem(r, &lock);
    let w = refused(w, &lock);
    lock.release(g);
    let g = redeem(w, &lock);
    lock.release(g);
}

#[test]
fn read_after_write_opens_a_new_slot() {
    let mut lock = TicketedLock::new();
    let r1 = lock.read();
    let w = lock.write();
    let r2 = lock.read();
    assert_eq!((r1.index(), w.index(), r2.index()), (1, 2, 3));
    let r2 = refused(r2, &lock);
    lock.abandon(r1);
    let r2 = refused(r2, &lock);
    lock.abandon(w);
    let g = redeem(r2, &lock);
    lock.release(g);
}

#[test]
fn read_read_write_scenario() {
    let mut lock = TicketedLock::new();
    let r1 = lock.read();
    let r2 = lock.read();
    let w3 = lock.write();
    assert_eq!(r1.index(), r2.index());
    assert_eq!(w3.index(), 2);
    let w3 = refused(w3, &lock);
    let g1 = redeem(r1, &lock);
    lock.release(g1);
    let w3 = refused(w3, &lock);
    let g2 = redeem(r2, &lock);
    let w3 = refused(w3, &lock);
    lock.release(g2);
    let g3 = redeem(w3, &lock);
    assert_eq!(g3.index(), 2);
    lock.release(g3);
}

#[test]
fn abandoned_write_releases_its_successor() {
    let mut lock = TicketedLock::new();
    let w1 = lock.write();
    let w2 = lock.write();
    lock.abandon(w1);
    let g2 = redeem(w2, &lock);
    assert_eq!(g2.index(), 2);
    lock.release(g2);
}

#[test]
fn abandoning_equals_waiting_and_releasing() {
    let mut a = TicketedLock::new();
    let a1 = a.write();
    let a2 = a.write();
    let a3 = a.read();
    a.abandon(a1);

    let mut b = TicketedLock::new();
    let b1 = b.write();
    let b2 = b.write();
    let b3 = b.read();
    let g = redeem(b1, &b);
    b.release(g);

    assert_eq!(a.len(), b.len());
    assert_eq!(a.issued(), b.issued());
    assert_eq!(a.cached(), b.cached());
    for index in 0..5 {
        assert_eq!(a.holders(index), b.holders(index));
    }
    let a3 = refused(a3, &a);
    let b3 = refused(b3, &b);
    let ga = redeem(a2, &a);
    let gb = redeem(b2, &b);
    a.release(ga);
    b.release(gb);
    let ga = redeem(a3, &a);
    let gb = redeem(b3, &b);
    assert_eq!(ga.index(), gb.index());
}

#[test]
fn abandoned_ticket_in_the_middle_does_not_block() {
    let mut lock = TicketedLock::new();
    let w1 = lock.write();
    let w2 = lock.write();
    let w3 = lock.write();
    lock.abandon(w2);
    let w3 = refused(w3, &lock);
    let g1 = redeem(w1, &lock);
    let w3 = refused(w3, &lock);
    lock.release(g1);
    let g3 = redeem(w3, &lock);
    lock.release(g3);
}

#[test]
fn churn_of_writes_leaves_one_slot() {
    let mut lock = TicketedLock::new();
    for n in 1..=50usize {
        let w = lock.write();
        assert_eq!(w.index(), n);
        lock.abandon(w);
        assert_eq!(lock.len(), 1);
        assert_eq!(lock.holders(n), 0);
    }
    assert_eq!(lock.issued(), 50);
    assert!(lock.flush());
    assert_eq!(lock.len(), 0);
}

#[test]
fn churn_of_reads_leaves_one_slot() {
    let mut lock = TicketedLock::new();
    for _ in 0..50 {
        let r = lock.read();
        assert_eq!(r.index(), 1);
        lock.abandon(r);
        assert_eq!(lock.len(), 1);
        assert_eq!(lock.holders(1), 0);
    }
    assert_eq!(lock.issued(), 1);
    assert!(lock.flush());
    assert_eq!(lock.len(), 0);
    assert_eq!(lock.cached(), None);
}

#[test]
fn churn_of_mixed_tickets_leaves_one_slot() {
    let mut lock = TicketedLock::new();
    for n in 0..40 {
        if n % 3 == 0 {
            let w = lock.write();
            lock.abandon(w);
        } else {
            let r = lock.read();
            lock.abandon(r);
        }
        assert_eq!(lock.len(), 1);
    }
    assert!(lock.flush());
}

#[test]
fn finished_slots_are_forgotten_at_the_next_issuance() {
    let mut lock = TicketedLock::new();
    let w1 = lock.write();
    let w2 = lock.write();
    let w3 = lock.write();
    assert_eq!(lock.len(), 3);
    lock.abandon(w1);
    lock.abandon(w3);
    assert_eq!(lock.len(), 3);
    let w4 = lock.write();
    assert_eq!(w4.index(), 4);
    assert_eq!(lock.len(), 2);
    assert_eq!(lock.holders(1), 0);
    assert_eq!(lock.holders(2), 1);
    assert_eq!(lock.holders(3), 0);
    assert_eq!(lock.holders(4), 1);
    let w4 = refused(w4, &lock);
    lock.abandon(w2);
    let g4 = redeem(w4, &lock);
    lock.release(g4);
}

#[test]
fn read_slot_stays_open_after_its_tickets_are_gone() {
    let mut lock = TicketedLock::new();
    let r1 = lock.read();
    lock.abandon(r1);
    assert_eq!(lock.holders(1), 0);
    let r2 = lock.read();
    assert_eq!(r2.index(), 1);
    assert_eq!(lock.holders(1), 1);
    let g = redeem(r2, &lock);
    lock.release(g);
    let w = lock.write();
    assert_eq!(w.index(), 2);
    assert_eq!(lock.len(), 1);
    let g = redeem(w, &lock);
    lock.release(g);
}

#[test]
fn share_gives_a_ticket_on_the_same_slot() {
    let mut lock = TicketedLock::new();
    let w = lock.write();
    let r = lock.read();
    let w2 = lock.write();
    let copy = match lock.share(&r) {
        Some(copy) => copy,
        None => panic!("a held ticket can be shared"),
    };
    assert_eq!(copy.index(), r.index());
    assert_eq!(lock.holders(2), 2);
    let g = redeem(w, &lock);
    lock.release(g);
    let g1 = redeem(r, &lock);
    let w2 = refused(w2, &lock);
    lock.release(g1);
    let w2 = refused(w2, &lock);
    lock.abandon(copy);
    let g = redeem(w2, &lock);
    lock.release(g);
}

#[test]
fn ticket_of_another_sequencer_is_not_due() {
    let mut a = TicketedLock::new();
    let b = TicketedLock::new();
    let w = a.write();
    let w = refused(w, &b);
    let g = redeem(w, &a);
    a.release(g);
}

#[test]
fn share_of_an_unknown_slot_gives_nothing() {
    let mut a = TicketedLock::new();
    let mut b = TicketedLock::new();
    let r = a.read();
    assert!(b.share(&r).is_none());
    assert_eq!(b.len(), 0);
    a.abandon(r);
}

#[test]
fn dropping_on_an_unknown_slot_changes_nothing() {
    let mut a = TicketedLock::new();
    let mut b = TicketedLock::new();
    let _a1 = a.write();
    let a2 = a.write();
    let b1 = b.write();
    b.abandon(a2);
    assert_eq!(b.len(), 1);
    assert_eq!(b.holders(1), 1);
    assert_eq!(b.holders(2), 0);
    let g = redeem(b1, &b);
    b.release(g);
}

#[test]
fn flush_reports_outstanding_tickets() {
    let mut lock = TicketedLock::new();
    let w1 = lock.write();
    let r2 = lock.read();
    assert!(!lock.flush());
    assert_eq!(lock.cached(), None);
    assert_eq!(lock.len(), 2);
    lock.abandon(w1);
    assert!(!lock.flush());
    assert_eq!(lock.len(), 1);
    let g = redeem(r2, &lock);
    assert!(!lock.flush());
    lock.release(g);
    assert!(lock.flush());
    assert_eq!(lock.len(), 0);
}

#[test]
fn flush_closes_the_read_slot() {
    let mut lock = TicketedLock::new();
    let r1 = lock.read();
    assert!(!lock.flush());
    let r2 = lock.read();
    assert_eq!(r1.index(), 1);
    assert_eq!(r2.index(), 2);
    let r2 = refused(r2, &lock);
    lock.abandon(r1);
    let g = redeem(r2, &lock);
    lock.release(g);
}

#[test]
fn guard_keeps_successors_waiting_until_released() {
    let mut lock = TicketedLock::new();
    let w1 = lock.write();
    let g1 = redeem(w1, &lock);
    let mut later: Vec<Ticket<Write>> = Vec::new();
    for _ in 0..5 {
        later.push(lock.write());
    }
    let mut kept: Vec<Ticket<Write>> = Vec::new();
    for ticket in later {
        kept.push(refused(ticket, &lock));
    }
    lock.release(g1);
    let mut expected = 2;
    for ticket in kept {
        let guard = redeem(ticket, &lock);
        assert_eq!(guard.index(), expected);
        lock.release(guard);
        expected += 1;
    }
    assert!(lock.flush());
}

#[test]
fn share_on_a_write_slot_gives_nothing() {
    let mut a = TicketedLock::new();
    let mut b = TicketedLock::new();
    let r = a.read();
    let w = b.write();
    assert_eq!(r.index(), w.index());
    assert!(b.share(&r).is_none());
    assert_eq!(b.holders(1), 1);
    let g = redeem(w, &b);
    b.release(g);
    a.abandon(r);
}

#[test]
fn releasing_one_read_guard_leaves_the_others_active() {
    let mut lock = TicketedLock::new();
    let r1 = lock.read();
    let r2 = lock.read();
    let r3 = lock.read();
    let g2 = redeem(r2, &lock);
    lock.release(g2);
    assert_eq!(lock.holders(1), 2);
    let g1 = redeem(r1, &lock);
    let g3 = redeem(r3, &lock);
    lock.release(g3);
    lock.release(g1);
    assert_eq!(lock.holders(1), 0);
}

#[test]
fn waiting_changes_nothing() {
    let mut lock = TicketedLock::new();
    let w1 = lock.write();
    let w2 = lock.write();
    let w2 = refused(w2, &lock);
    assert_eq!(w2.index(), 2);
    assert_eq!((lock.len(), lock.issued(), lock.holders(1), lock.holders(2)), (2, 2, 1, 1));
    let g1 = redeem(w1, &lock);
    assert_eq!((lock.len(), lock.issued(), lock.holders(1), lock.holders(2)), (2, 2, 1, 1));
    lock.release(g1);
    lock.abandon(w2);
    assert_eq!((lock.len(), lock.issued(), lock.holders(1), lock.holders(2)), (2, 2, 0, 0));
}
