use rut::acct::HeapAcct;
use rut::cells::CellArena;
use rut::cell::PrimTy;
use rut::nmap::{KeyKind, KeyVal, NativeTable, TyTag, ValSlot};
use rut::tablecells::{hvput_lane, hvremove_lane};

fn charged(bytes: u64) -> HeapAcct {
    let mut acct = HeapAcct::new(None);
    acct.charge(bytes).unwrap();
    acct
}

#[test]
fn a_displaced_value_cell_is_released_once() {
    let mut acct = charged(8 + 16);
    let mut a = CellArena::new();
    let x = a.mint(8, vec![]);
    let y = a.mint(16, vec![]);
    let mut t = NativeTable::new(4);
    assert_eq!(t.hvput(&mut a, &mut acct, KeyKind::Bits, KeyVal::Bits(7), ValSlot::Ref(x as u64)).unwrap(), 1);
    assert_eq!(t.hvput(&mut a, &mut acct, KeyKind::Bits, KeyVal::Bits(7), ValSlot::Ref(y as u64)).unwrap(), 0);
    assert!(!a.is_live(x), "the displaced cell's one reference went");
    assert!(a.is_live(y));
    assert_eq!(acct.used_bytes(), 16);
    assert_eq!(t.hremove(&mut a, &mut acct, KeyKind::Bits, &KeyVal::Bits(7)).unwrap(), 0);
    assert!(!a.is_live(y), "the removed cell's reference went");
    assert_eq!(acct.used_bytes(), 0);
    assert_eq!(t.hremove(&mut a, &mut acct, KeyKind::Bits, &KeyVal::Bits(7)).unwrap(), -1);
}

#[test]
fn a_raw_write_releases_the_cell_it_replaces() {
    let mut acct = charged(8);
    let mut a = CellArena::new();
    let x = a.mint(8, vec![]);
    let mut t = NativeTable::new(4);
    let ans = t.hvput(&mut a, &mut acct, KeyKind::Bits, KeyVal::Bits(1), ValSlot::Ref(x as u64)).unwrap();
    t.val_set_u(&mut a, &mut acct, (ans >> 1) as i32, 99).unwrap();
    assert!(!a.is_live(x));
    assert_eq!(t.val_get_u((ans >> 1) as i32).unwrap(), 99);
    assert!(t.val_set_u(&mut a, &mut acct, 5, 1).is_err());
}

#[test]
fn the_tables_death_returns_usage_to_its_base() {
    let mut acct = charged(8 + 8);
    let base = 0;
    let mut a = CellArena::new();
    let x = a.mint(8, vec![]);
    let y = a.mint(8, vec![]);
    a.retain(x);
    let mut t = NativeTable::new(4);
    t.hvput(&mut a, &mut acct, KeyKind::Bits, KeyVal::Bits(1), ValSlot::Ref(x as u64)).unwrap();
    t.hvput(&mut a, &mut acct, KeyKind::Bits, KeyVal::Bits(2), ValSlot::Ref(x as u64)).unwrap();
    t.hvput(&mut a, &mut acct, KeyKind::Bits, KeyVal::Bits(3), ValSlot::Ref(y as u64)).unwrap();
    t.hvput(&mut a, &mut acct, KeyKind::Bits, KeyVal::Bits(4), ValSlot::Bits(5)).unwrap();
    t.finalize(&mut a, &mut acct);
    assert_eq!(t.len(), 0);
    assert!(!a.is_live(x), "held twice, released twice");
    assert!(!a.is_live(y));
    assert_eq!(acct.used_bytes(), base);
}

#[test]
fn the_valued_put_lane_retains_the_value_and_releases_what_it_displaces() {
    let mut acct = charged(8 + 16);
    let mut a = CellArena::new();
    let x = a.mint(8, vec![]);
    let y = a.mint(16, vec![]);
    let mut t = NativeTable::new(4);
    let ans = hvput_lane(&mut t, &mut a, &mut acct, TyTag::Str, 0, "alpha", &[], TyTag::Str, x as u64).unwrap();
    assert_eq!(ans, 1, "a fresh birth answers (0 << 1) | 1");
    a.release(&mut acct, x);
    assert!(a.is_live(x), "the table holds its own reference");
    let ans = hvput_lane(&mut t, &mut a, &mut acct, TyTag::Str, 0, "alpha", &[], TyTag::Bytes, y as u64).unwrap();
    assert_eq!(ans, 0, "a replace answers (0 << 1) | 0");
    assert!(!a.is_live(x), "the displaced cell's one reference went");
    assert_eq!(acct.used_bytes(), 16);
    let ans = hvput_lane(&mut t, &mut a, &mut acct, TyTag::Str, 0, "beta", &[], TyTag::Prim(PrimTy::I64), 42).unwrap();
    assert_eq!(ans, 3, "the second birth answers (1 << 1) | 1");
    assert_eq!(t.val_get_u(1).unwrap(), 42);
}

#[test]
fn the_valued_put_lane_refuses_before_it_retains() {
    let mut acct = charged(8);
    let mut a = CellArena::new();
    let x = a.mint(8, vec![]);
    let mut t = NativeTable::new(4);
    hvput_lane(&mut t, &mut a, &mut acct, TyTag::Prim(PrimTy::I64), 5, "", &[], TyTag::Prim(PrimTy::I64), 1).unwrap();
    let e = hvput_lane(&mut t, &mut a, &mut acct, TyTag::Str, 0, "k", &[], TyTag::Str, x as u64).unwrap_err();
    assert_eq!(e.msg, "nmap: mixed key kinds in one table (table holds Str keys)");
    a.release(&mut acct, x);
    assert!(!a.is_live(x), "nothing was retained for the refused put");
    let e = hvput_lane(&mut t, &mut a, &mut acct, TyTag::Prim(PrimTy::F64), 0, "", &[], TyTag::Prim(PrimTy::I64), 1).unwrap_err();
    assert!(e.msg.contains("floats have no stable equality contract"));
    assert_eq!(t.len(), 1);
}

#[test]
fn the_valued_remove_lane_releases_the_value_it_held() {
    let mut acct = charged(8);
    let mut a = CellArena::new();
    let x = a.mint(8, vec![]);
    let mut t = NativeTable::new(4);
    hvput_lane(&mut t, &mut a, &mut acct, TyTag::Bytes, 0, "", &[1, 2], TyTag::Str, x as u64).unwrap();
    a.release(&mut acct, x);
    assert!(a.is_live(x));
    assert_eq!(hvremove_lane(&mut t, &mut a, &mut acct, TyTag::Bytes, 0, "", &[1, 2]).unwrap(), 0);
    assert!(!a.is_live(x));
    assert_eq!(acct.used_bytes(), 0);
    assert_eq!(hvremove_lane(&mut t, &mut a, &mut acct, TyTag::Bytes, 0, "", &[1, 2]).unwrap(), -1);
    assert!(hvremove_lane(&mut t, &mut a, &mut acct, TyTag::Prim(PrimTy::F32), 0, "", &[]).is_err());
}
