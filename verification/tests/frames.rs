use rut::acct::HeapAcct;
use rut::cells::CellArena;
use rut::frames::{CallStack, Slot};

fn charged(bytes: u64) -> HeapAcct {
    let mut acct = HeapAcct::new(None);
    acct.charge(bytes).unwrap();
    acct
}

#[test]
fn a_returned_reference_moves_into_the_callers_register() {
    let mut acct = charged(8 + 16);
    let mut arena = CellArena::new();
    let a = arena.mint(8, vec![]);
    let b = arena.mint(16, vec![]);
    let mut st = CallStack::new();
    st.enter(0, vec![Slot::Ref(Some(a)), Slot::Word(5), Slot::Ref(None)], None);
    st.enter(1, vec![Slot::Ref(Some(b)), Slot::Word(7)], Some(2));
    assert_eq!(st.saved.len(), 1);
    assert_eq!(st.cur.func, 1);
    let r = st.do_ret(&mut arena, &mut acct, Slot::Ref(Some(b)));
    assert_eq!(r, None);
    assert_eq!(st.cur.func, 0);
    assert_eq!(st.cur.regs, vec![Slot::Ref(Some(a)), Slot::Word(5), Slot::Ref(Some(b))]);
    assert_eq!(arena.refs_of(b), 1, "the callee's register gave its reference back");
    // the root returns a word: every register reference goes
    let r = st.do_ret(&mut arena, &mut acct, Slot::Word(42));
    assert_eq!(r, Some(Slot::Word(42)));
    assert!(!st.running);
    assert!(!arena.is_live(a));
    assert!(!arena.is_live(b));
    assert_eq!(acct.used_bytes(), 0);
}

#[test]
fn a_discarded_reference_result_is_released() {
    let mut acct = charged(8);
    let mut arena = CellArena::new();
    let c = arena.mint(8, vec![]);
    let mut st = CallStack::new();
    st.enter(0, vec![Slot::Word(1)], None);
    st.enter(1, vec![Slot::Ref(Some(c))], None);
    assert_eq!(st.do_ret(&mut arena, &mut acct, Slot::Ref(Some(c))), None);
    assert!(!arena.is_live(c), "nobody took the result");
    assert_eq!(st.cur.regs, vec![Slot::Word(1)]);
}

#[test]
fn the_displaced_destination_is_released() {
    let mut acct = charged(8 + 8);
    let mut arena = CellArena::new();
    let old = arena.mint(8, vec![]);
    let new = arena.mint(8, vec![]);
    let mut st = CallStack::new();
    st.enter(0, vec![Slot::Ref(Some(old))], None);
    st.enter(1, vec![Slot::Ref(Some(new))], Some(0));
    st.do_ret(&mut arena, &mut acct, Slot::Ref(Some(new)));
    assert!(!arena.is_live(old), "the register's old cell lost its last reference");
    assert!(arena.is_live(new));
    assert_eq!(st.cur.regs, vec![Slot::Ref(Some(new))]);
    assert_eq!(acct.used_bytes(), 8);
}

#[test]
fn the_root_result_keeps_its_reference_for_the_host() {
    let mut acct = charged(8);
    let mut arena = CellArena::new();
    let c = arena.mint(8, vec![]);
    let mut st = CallStack::new();
    st.enter(0, vec![Slot::Ref(Some(c))], None);
    assert_eq!(st.do_ret(&mut arena, &mut acct, Slot::Ref(Some(c))), Some(Slot::Ref(Some(c))));
    assert!(arena.is_live(c), "the host holds the result");
    assert_eq!(arena.refs_of(c), 1);
    arena.release(&mut acct, c);
    assert!(!arena.is_live(c));
}
