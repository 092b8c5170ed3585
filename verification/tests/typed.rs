use ticketed_lock::TicketedLock;

#[test]
fn unlock_gives_the_value_back() {
    let lock = TicketedLock::new(4u8);
    assert_eq!(lock.unlock(), 4);
}

#[test]
fn read_guard_sees_the_value() {
    let mut lock = TicketedLock::new(String::from("abc"));
    let r = lock.read();
    let guard = match r.wait(&lock) {
        Ok(guard) => guard,
        Err(_) => panic!("the first ticket is due"),
    };
    assert_eq!(lock.get(&guard).as_str(), "abc");
    lock.release(guard.into_raw());
    match lock.try_unlock() {
        Ok(data) => assert_eq!(data, "abc"),
        Err(_) => panic!("nothing is outstanding"),
    }
}

#[test]
fn order_of_two_reads_and_a_write() {
    let mut storage = TicketedLock::new(4u8);
    let t1 = storage.read();
    let t2 = storage.read();
    let t3 = storage.write();

    let t3 = match t3.wait(&storage) {
        Ok(_) => panic!("the write must wait for the reads"),
        Err(ticket) => ticket,
    };
    let g2 = match t2.wait(&storage) {
        Ok(guard) => guard,
        Err(_) => panic!("t2 is due"),
    };
    let g1 = match t1.wait(&storage) {
        Ok(guard) => guard,
        Err(_) => panic!("t1 is due"),
    };
    assert_eq!(*storage.get(&g1), 4);
    assert_eq!(*storage.get(&g2), 4);
    storage.release(g2.into_raw());
    let t3 = match t3.wait(&storage) {
        Ok(_) => panic!("the write must wait for both reads"),
        Err(ticket) => ticket,
    };
    storage.release(g1.into_raw());
    let g3 = match t3.wait(&storage) {
        Ok(guard) => guard,
        Err(_) => panic!("t3 is due"),
    };
    let next = *storage.peek(&g3) + 1;
    storage.set(&g3, next);
    assert_eq!(*storage.peek(&g3), 5);
    storage.release(g3.into_raw());
    match storage.try_unlock() {
        Ok(data) => assert_eq!(data, 5),
        Err(_) => panic!("nothing is outstanding"),
    }
}

#[test]
fn try_unlock_refuses_while_a_ticket_is_out() {
    let mut lock = TicketedLock::new(7u32);
    let w = lock.write();
    let mut lock = match lock.try_unlock() {
        Ok(_) => panic!("a ticket is outstanding"),
        Err(lock) => lock,
    };
    lock.abandon(w.into_raw());
    match lock.try_unlock() {
        Ok(data) => assert_eq!(data, 7),
        Err(_) => panic!("nothing is outstanding"),
    }
}

#[test]
fn try_unlock_ignores_the_open_read_slot() {
    let mut lock = TicketedLock::new(1i64);
    let r = lock.read();
    lock.abandon(r.into_raw());
    match lock.try_unlock() {
        Ok(data) => assert_eq!(data, 1),
        Err(_) => panic!("nothing is outstanding"),
    }
}

#[test]
fn shared_read_ticket_holds_the_write_back() {
    let mut lock = TicketedLock::new(0u8);
    let r = lock.read();
    let copy = match lock.share(&r) {
        Some(copy) => copy,
        None => panic!("a held ticket can be shared"),
    };
    let w = lock.write();
    lock.abandon(r.into_raw());
    let w = match w.wait(&lock) {
        Ok(_) => panic!("a read ticket is still out"),
        Err(ticket) => ticket,
    };
    lock.abandon(copy.into_raw());
    assert!(w.wait(&lock).is_ok());
}
