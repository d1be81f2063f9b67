use rut::store::Store;
use rut::trap::TrapKind;

#[test]
fn the_borrow_guard_lives_on_the_entry() {
    let mut s = Store::new();
    let b = s.insert(16);
    s.borrow_exclusive(b).expect("the exclusive borrow runs");
    let t = s.borrow_shared(b).unwrap_err();
    assert_eq!(t.kind, TrapKind::Invalid, "shared under mut must trap");
    assert!(t.msg.contains("`&mut`-borrowed"));
    let again = s.borrow_exclusive(b);
    assert!(again.unwrap_err().msg.contains("borrowed by an outer host call"));
    s.end_exclusive(b);
    s.borrow_shared(b).expect("the guard clears when the closure returns");
    s.borrow_shared(b).expect("shared borrows stack");
    assert!(s.borrow_exclusive(b).is_err(), "no exclusive borrow under a shared one");
    s.end_shared(b);
    s.end_shared(b);
    s.borrow_exclusive(b).expect("all borrows closed");
}

#[test]
fn the_view_holds_an_rc_and_clones_share_the_entry() {
    let mut s = Store::new();
    let b = s.insert(24);
    s.retain(b);
    assert_eq!(s.release(b), None);
    assert_eq!(s.live(), 1, "c still pins the entry");
    assert_eq!(s.release(b), Some(24));
    assert_eq!(s.live(), 0, "rc-0 frees the entry");
}

#[test]
fn a_dead_slot_is_the_next_minted() {
    let mut s = Store::new();
    let a = s.insert(8);
    let b = s.insert(8);
    assert_ne!(a, b);
    assert_eq!(s.note_death(a), 8);
    let c = s.insert(40);
    assert_eq!(c, a, "the freed slot is reused");
    assert_eq!(s.live(), 2);
}

#[test]
fn teardown_balances_the_counters() {
    let mut s = Store::new();
    let a = s.insert(10);
    let _b = s.insert(20);
    let _c = s.insert(30);
    s.release(a);
    assert_eq!(s.teardown(), (2, 50), "the survivors and their charges");
    assert_eq!(s.live(), 0);
}

#[test]
fn an_oversized_charge_is_recorded_capped() {
    let mut s = Store::new();
    let a = s.insert(1u64 << 33);
    assert_eq!(s.note_death(a), u32::MAX);
}
