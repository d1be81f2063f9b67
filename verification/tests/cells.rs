use rut::acct::HeapAcct;
use rut::cells::CellArena;
use rut::trap::TrapKind;

fn charged(bytes: u64) -> HeapAcct {
    let mut acct = HeapAcct::new(None);
    acct.charge(bytes).unwrap();
    acct
}

#[test]
fn the_last_release_frees_a_cell_and_its_children() {
    let mut acct = charged(8 + 16);
    let mut a = CellArena::new();
    let leaf = a.mint(8, vec![]);
    let rec = a.mint(16, vec![leaf]);
    assert_eq!(a.refs_of(leaf), 1, "the record's field holds the leaf");
    a.retain(rec);
    assert_eq!(a.refs_of(rec), 2);
    a.release(&mut acct, rec);
    assert_eq!(a.refs_of(rec), 1);
    assert!(a.is_live(leaf));
    a.release(&mut acct, rec);
    assert!(!a.is_live(rec));
    assert!(!a.is_live(leaf), "the field's reference died with the record");
    assert_eq!(acct.used_bytes(), 0, "both charges refunded");
    assert_eq!(a.free, vec![rec, leaf]);
}

#[test]
fn a_shared_child_outlives_one_parent() {
    let mut acct = charged(8 + 16 + 16);
    let mut a = CellArena::new();
    let leaf = a.mint(8, vec![]);
    a.retain(leaf);
    let p = a.mint(16, vec![leaf]);
    let q = a.mint(16, vec![leaf]);
    assert_eq!(a.refs_of(leaf), 2);
    a.release(&mut acct, p);
    assert!(a.is_live(leaf));
    assert_eq!(a.refs_of(leaf), 1);
    a.release(&mut acct, q);
    assert!(!a.is_live(leaf));
    assert_eq!(acct.used_bytes(), 0);
}

#[test]
fn freed_slots_are_reused_last_freed_first() {
    let mut acct = charged(8 + 8);
    let mut a = CellArena::new();
    let x = a.mint(8, vec![]);
    let y = a.mint(8, vec![]);
    a.release(&mut acct, x);
    a.release(&mut acct, y);
    assert_eq!(a.mint(8, vec![]), y);
    assert_eq!(a.mint(8, vec![]), x);
    assert_eq!(a.cells.len(), 2);
}

#[test]
fn a_drop_callback_pins_the_dying_cell() {
    let mut acct = charged(8 + 4);
    let mut a = CellArena::new();
    let obj = a.mint(8, vec![]);
    let cleanup = a.mint(4, vec![]);
    a.set_drop_fn(&mut acct, Some(obj), Some(cleanup)).unwrap();
    assert_eq!(a.refs_of(cleanup), 2, "the registration holds the cleanup");
    a.release(&mut acct, obj);
    assert!(a.is_live(obj), "pinned, not freed");
    assert_eq!(a.refs_of(obj), 1);
    assert_eq!(a.pending, vec![(obj, cleanup)]);
    assert_eq!(a.take_pending(), Some((obj, cleanup)));
    assert_eq!(a.take_pending(), None);
    // the callback has run: the caller releases both
    a.release(&mut acct, obj);
    a.release(&mut acct, cleanup);
    assert!(!a.is_live(obj));
    assert!(a.is_live(cleanup), "the test still holds its own reference");
    a.release(&mut acct, cleanup);
    assert!(!a.is_live(cleanup));
    assert_eq!(acct.used_bytes(), 0);
}

#[test]
fn on_drop_is_refused_on_nil_and_twice() {
    let mut acct = charged(8 + 4);
    let mut a = CellArena::new();
    let obj = a.mint(8, vec![]);
    let cleanup = a.mint(4, vec![]);
    let e = a.set_drop_fn(&mut acct, None, Some(cleanup)).unwrap_err();
    assert_eq!(e.kind, TrapKind::NilDeref);
    assert_eq!(e.msg, "on_drop on nil");
    let e = a.set_drop_fn(&mut acct, Some(obj), None).unwrap_err();
    assert_eq!(e.kind, TrapKind::Invalid);
    assert_eq!(e.msg, "on_drop: nil cleanup");
    a.set_drop_fn(&mut acct, Some(obj), Some(cleanup)).unwrap();
    let e = a.set_drop_fn(&mut acct, Some(obj), Some(cleanup)).unwrap_err();
    assert_eq!(e.kind, TrapKind::Invalid);
    assert_eq!(e.msg, "on_drop already attached to this pointer");
    assert_eq!(a.refs_of(cleanup), 2, "the refused attach gave its reference back");
    assert_eq!(a.drop_fn_of(obj), Some(cleanup));
}

#[test]
fn a_nil_slot_releases_nothing() {
    let mut acct = charged(8);
    let mut a = CellArena::new();
    let x = a.mint(8, vec![]);
    a.release_slot(&mut acct, None);
    assert!(a.is_live(x));
    assert_eq!(acct.used_bytes(), 8);
    a.release_slot(&mut acct, Some(x));
    assert!(!a.is_live(x));
    assert_eq!(acct.used_bytes(), 0);
}

#[test]
fn a_weak_box_upgrades_while_its_referent_lives() {
    let mut acct = charged(8 + 4);
    let mut a = CellArena::new();
    let r = a.mint(8, vec![]);
    let w = a.mint_weak(4, r);
    assert_eq!(a.refs_of(r), 1, "the weak box holds no reference");
    assert_eq!(a.upgrade(Some(w)).unwrap(), Some(r));
    assert_eq!(a.refs_of(r), 2, "the upgrade hands out a reference");
    a.release(&mut acct, r);
    a.release(&mut acct, r);
    assert!(!a.is_live(r));
    assert!(a.is_live(w));
    assert_eq!(a.upgrade(Some(w)).unwrap(), None, "the referent died: nil");
}

#[test]
fn weak_boxes_go_nil_before_the_drop_callback_runs() {
    let mut acct = charged(8 + 4 + 4);
    let mut a = CellArena::new();
    let obj = a.mint(8, vec![]);
    let cleanup = a.mint(4, vec![]);
    let w = a.mint_weak(4, obj);
    a.set_drop_fn(&mut acct, Some(obj), Some(cleanup)).unwrap();
    a.release(&mut acct, obj);
    assert!(a.is_live(obj), "pinned for its callback");
    assert_eq!(a.upgrade(Some(w)).unwrap(), None, "already nil while pinned");
}

#[test]
fn upgrade_is_refused_on_nil_and_on_other_cells() {
    let mut a = CellArena::new();
    let x = a.mint(8, vec![]);
    let e = a.upgrade(None).unwrap_err();
    assert_eq!(e.kind, TrapKind::NilDeref);
    assert_eq!(e.msg, "upgrade on nil");
    let e = a.upgrade(Some(x)).unwrap_err();
    assert_eq!(e.kind, TrapKind::Invalid);
    assert_eq!(e.msg, "upgrade on non-weak");
}

#[test]
fn own_copies_a_record_and_shares_its_fields() {
    let mut acct = charged(8 + 16);
    let mut a = CellArena::new();
    let leaf = a.mint(8, vec![]);
    let rec = a.mint(16, vec![leaf]);
    let copy = a.own_cell(&mut acct, rec).unwrap();
    assert_ne!(copy, rec);
    assert_eq!(acct.used_bytes(), 40, "the copy is charged the record's bytes");
    assert_eq!(a.refs_of(copy), 1);
    assert_eq!(a.refs_of(leaf), 2, "each record's field holds the leaf");
    a.release(&mut acct, rec);
    assert!(a.is_live(leaf), "the copy still holds the leaf");
    a.release(&mut acct, copy);
    assert!(!a.is_live(leaf));
    assert_eq!(acct.used_bytes(), 0);
}

#[test]
fn own_over_budget_traps_and_changes_nothing() {
    let mut acct = HeapAcct::new(Some(30));
    acct.charge(24).unwrap();
    let mut a = CellArena::new();
    let leaf = a.mint(8, vec![]);
    let rec = a.mint(16, vec![leaf]);
    let t = a.own_cell(&mut acct, rec).unwrap_err();
    assert_eq!(t.kind, TrapKind::OutOfMemory);
    assert_eq!(t.msg, "heap budget exceeded: 40 > 30 bytes");
    assert_eq!(acct.used_bytes(), 24);
    assert_eq!(a.refs_of(leaf), 1);
}
