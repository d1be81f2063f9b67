use rut::acct::HeapAcct;
use rut::blocks::{Block, Blocks, N_CLASSES, SMALL_MAX};
use rut::cell::{window_setf_trap, ArrData, ArrKind, CellKind, PrimTy, Slots, TraceFrame, TyShape, INLINE_SLOTS};
use rut::strheap::{alloc_char, alloc_str_bytes, append_bytes, encode_utf8, reserve_append};
use rut::arrheap::{alloc_array, alloc_array_filled, alloc_bytes, bytes_clone};
use rut::pool::{mint_tries_pool, retire_action, Pool, RetireAction, HIGH_WATER, POOL_MAX};
use rut::seq::{seq_get, seq_set, slice_window, SeqCell};
use rut::trap::TrapKind;

// ---- heap accounting ----

#[test]
fn a_charge_within_the_budget_counts_and_lifts_the_peak() {
    let mut a = HeapAcct::new(Some(100));
    assert!(a.charge(60).is_ok());
    assert_eq!(a.used_bytes(), 60);
    assert_eq!(a.peak_bytes(), 60);
    a.refund(50);
    assert_eq!(a.used_bytes(), 10);
    assert_eq!(a.peak_bytes(), 60, "a refund never lowers the peak");
    assert!(a.charge(90).is_ok(), "exactly at the budget is fine");
    assert_eq!(a.used_bytes(), 100);
    assert_eq!(a.peak_bytes(), 100);
}

#[test]
fn a_charge_past_the_budget_traps_and_charges_nothing() {
    let mut a = HeapAcct::new(Some(100));
    a.charge(40).unwrap();
    let t = a.charge(61).unwrap_err();
    assert_eq!(t.kind, TrapKind::OutOfMemory);
    assert_eq!(t.msg, "heap budget exceeded: 101 > 100 bytes");
    assert_eq!(a.used_bytes(), 40);
    assert_eq!(a.peak_bytes(), 40);
}

#[test]
fn refunds_saturate_and_an_unlimited_heap_never_traps() {
    let mut a = HeapAcct::new(None);
    a.charge(u64::MAX / 2).unwrap();
    a.refund(u64::MAX);
    assert_eq!(a.used_bytes(), 0);
    assert_eq!(a.peak_bytes(), u64::MAX / 2);
    a.set_limit(Some(7));
    assert_eq!(a.limit(), Some(7));
    assert_eq!(a.charge(8).unwrap_err().kind, TrapKind::OutOfMemory);
}

// ---- cell layout ----

#[test]
fn prim_widths_and_names() {
    assert_eq!(PrimTy::U8.width(), 1);
    assert_eq!(PrimTy::I16.width(), 2);
    assert_eq!(PrimTy::F32.width(), 4);
    assert_eq!(PrimTy::I64.width(), 8);
    assert_eq!(PrimTy::Char.name(), "char");
    assert!(PrimTy::U32.is_int() && PrimTy::U32.is_unsigned());
    assert!(!PrimTy::I32.is_unsigned());
    assert!(PrimTy::F64.is_float() && !PrimTy::F64.is_int());
}

#[test]
fn element_kinds_pack_to_the_machine_width() {
    let table = vec![
        TyShape::Prim(PrimTy::U8),
        TyShape::Prim(PrimTy::I64),
        TyShape::Opt(3),
        TyShape::Prim(PrimTy::I16),
        TyShape::Other,
        TyShape::Opt(4),
        TyShape::Prim(PrimTy::Bool),
    ];
    assert_eq!(ArrKind::of(0, &table), ArrKind::U8);
    assert_eq!(ArrKind::of(1, &table), ArrKind::Slots, "8-byte primitives keep a slot");
    assert_eq!(ArrKind::of(2, &table), ArrKind::Opt(PrimTy::I16));
    assert_eq!(ArrKind::of(4, &table), ArrKind::Slots);
    assert_eq!(ArrKind::of(5, &table), ArrKind::Slots, "an optional reference keeps a slot");
    assert_eq!(ArrKind::of(6, &table), ArrKind::Bool);
    assert_eq!(ArrKind::of(u32::MAX, &table), ArrKind::Slots, "the untyped sentinel");
    assert_eq!(ArrKind::U8.width(), 1);
    assert_eq!(ArrKind::Opt(PrimTy::I16).width(), 3);
    assert_eq!(ArrKind::Opt(PrimTy::F64).width(), 9);
    assert_eq!(ArrKind::Slots.width(), 8);
}

#[test]
fn an_array_run_starts_empty() {
    let a = ArrData::new(ArrKind::Opt(PrimTy::U32), Block::Small(7), 16);
    assert_eq!(a.len(), 0);
    assert!(a.is_empty());
    assert_eq!(a.width(), 5);
    assert_eq!(a.opt_kind(), Some(PrimTy::U32));
    assert_eq!(ArrData::new(ArrKind::I32, Block::Large(0), 4).opt_kind(), None);
    let f = TraceFrame { func: 3, pc: 9 };
    assert_eq!((f.func, f.pc), (3, 9));
}

#[test]
fn only_an_array_view_refuses_field_writes() {
    let t = window_setf_trap(CellKind::ArrView).unwrap();
    assert_eq!(t.kind, TrapKind::Invalid);
    assert_eq!(t.msg, "an array view is fixed-length — copy the elements out to grow or shrink");
    assert!(window_setf_trap(CellKind::Array).is_none());
    assert!(window_setf_trap(CellKind::Record).is_none());
}

#[test]
fn the_ascii_flag_follows_appends() {
    let mut acct = HeapAcct::new(None);
    let mut s = Blocks::new();
    let mut c = alloc_str_bytes(&mut acct, &mut s, b"abc").unwrap();
    assert!(c.val.ascii);
    assert_eq!(c.val.bytes(&s), b"abc");
    assert_eq!(c.val.cap, 16, "the block's class capacity");
    assert_eq!(c.bytes, 27, "overhead plus the octets");
    append_bytes(&mut acct, &mut s, &mut c, b"de").unwrap();
    assert_eq!(c.val.bytes(&s), b"abcde");
    assert!(c.val.ascii);
    append_bytes(&mut acct, &mut s, &mut c, "é".as_bytes()).unwrap();
    assert!(!c.val.ascii, "one non-ASCII octet clears the flag");
    append_bytes(&mut acct, &mut s, &mut c, b"x").unwrap();
    assert!(!c.val.ascii, "and it never comes back");
    assert_eq!(c.val.bytes(&s), "abcdeéx".as_bytes());
    let h = alloc_str_bytes(&mut acct, &mut s, "héllo".as_bytes()).unwrap();
    assert!(!h.val.ascii);
}

#[test]
fn appends_grow_geometrically_and_charge_the_capacity() {
    let mut acct = HeapAcct::new(None);
    let mut s = Blocks::new();
    let mut c = alloc_str_bytes(&mut acct, &mut s, b"0123456789").unwrap();
    assert_eq!(acct.used_bytes(), 34);
    append_bytes(&mut acct, &mut s, &mut c, b"abcdef").unwrap();
    assert_eq!(c.val.cap, 16, "16 octets still fit the first block");
    assert_eq!(acct.used_bytes(), 34, "no growth, no charge");
    append_bytes(&mut acct, &mut s, &mut c, b"!").unwrap();
    assert_eq!(c.val.cap, 32, "max(17, 2 * 16)");
    assert_eq!(c.bytes, 24 + 8 + 32, "the charge is the capacity held");
    assert_eq!(acct.used_bytes(), 64);
    assert_eq!(c.val.bytes(&s), b"0123456789abcdef!");
    reserve_append(&mut acct, &mut s, &mut c, 100).unwrap();
    assert!(c.val.cap >= 117);
    assert_eq!(c.val.bytes(&s), b"0123456789abcdef!", "reserving moves the text along");
}

#[test]
fn a_refused_charge_appends_nothing() {
    let mut acct = HeapAcct::new(Some(60));
    let mut s = Blocks::new();
    let mut c = alloc_str_bytes(&mut acct, &mut s, b"0123456789abcdef").unwrap();
    assert_eq!(acct.used_bytes(), 40);
    let t = append_bytes(&mut acct, &mut s, &mut c, b"x").unwrap_err();
    assert_eq!(t.kind, TrapKind::OutOfMemory);
    assert_eq!(t.msg, "heap budget exceeded: 64 > 60 bytes");
    assert_eq!(c.val.bytes(&s), b"0123456789abcdef", "the text is untouched");
    assert_eq!(c.bytes, 40);
    assert_eq!(acct.used_bytes(), 40);
    let big = alloc_str_bytes(&mut acct, &mut s, &[b'a'; 30]);
    assert!(matches!(big, Err(t) if t.kind == TrapKind::OutOfMemory));
}

// ---- the block store ----

#[test]
fn classes_round_requests_up() {
    assert_eq!(Blocks::class_of(1), 0);
    assert_eq!(Blocks::class_of(16), 0);
    assert_eq!(Blocks::class_of(17), 1);
    assert_eq!(Blocks::class_of(72), 4);
    assert_eq!(Blocks::class_of(257), 12);
    assert_eq!(Blocks::class_of(SMALL_MAX), N_CLASSES - 1);
}

#[test]
fn a_block_carries_its_class_capacity() {
    let mut s = Blocks::new();
    let a = s.allocate(0);
    assert_eq!(s.cap_of(a), 16, "even an empty request gets the smallest class");
    let b = s.allocate(72);
    assert_eq!(s.cap_of(b), 80, "the header holds the class value, never the raw request");
    let c = s.allocate(2049);
    assert!(matches!(c, Block::Large(_)));
    assert_eq!(s.cap_of(c), 2056, "a large block holds the word-rounded request");
    assert_ne!(a, b);
    assert_eq!(s.bytes(b), &[0u8; 80][..], "fresh memory is zeroed");
}

#[test]
fn a_freed_block_is_the_next_of_its_class() {
    let mut s = Blocks::new();
    let a = s.allocate(40);
    let b = s.allocate(40);
    s.write(a, 0, b"payload");
    s.free(a);
    let c = s.allocate(33);
    assert_eq!(c, a, "the cache hands the freed block straight back");
    assert_eq!(&s.bytes(c)[..7], b"payload", "recycled memory is not re-zeroed");
    s.free(b);
    s.free(c);
    // b was pushed out of the cache into its class list: LIFO order
    let d = s.allocate(48);
    let e = s.allocate(48);
    assert_eq!(d, c);
    assert_eq!(e, b);
}

#[test]
fn classes_do_not_share_free_blocks() {
    let mut s = Blocks::new();
    let small = s.allocate(16);
    s.free(small);
    let other = s.allocate(100);
    assert_ne!(other, small, "a 112-byte request never takes a 16-byte block");
    let again = s.allocate(10);
    assert_eq!(again, small);
}

#[test]
fn growth_is_geometric_and_keeps_the_prefix() {
    let mut s = Blocks::new();
    let a = s.allocate(16);
    s.write(a, 0, b"abc");
    let same = s.grow(a, 3, 10);
    assert_eq!(same, a, "a block that already holds the request stays");
    let g = s.grow(a, 3, 17);
    assert_ne!(g, a);
    assert_eq!(s.cap_of(g), 32, "max(17, 2 * 16) = 32");
    assert_eq!(&s.bytes(g)[..3], b"abc");
    let h = s.grow(g, 3, 100);
    assert_eq!(s.cap_of(h), 112, "max(100, 64) rounds to the 112 class");
    assert_eq!(&s.bytes(h)[..3], b"abc");
    let back = s.allocate(16);
    assert_eq!(back, a, "the grown-out block was freed into its class");
}

#[test]
fn large_blocks_are_dedicated_and_freed_wholesale() {
    let mut s = Blocks::new();
    let a = s.allocate(4096);
    s.write(a, 4000, &[9, 9]);
    assert_eq!(s.bytes(a)[4001], 9);
    s.free(a);
    let b = s.allocate(4096);
    assert_ne!(a, b, "a freed large block is gone, not cached");
}

#[test]
fn pages_are_carved_in_order() {
    let mut s = Blocks::new();
    // 2048-byte blocks take 257 words: fifteen fit in a 4096-word page
    let mut v = Vec::new();
    for _ in 0..20 {
        v.push(s.allocate(2048));
    }
    for i in 0..20 {
        for j in 0..i {
            assert_ne!(v[i], v[j]);
        }
    }
}

// ---- the host payload pool ----

fn die(pool: &mut Pool, size: usize, align: usize, raw: usize) {
    if retire_action(size) == RetireAction::Park {
        pool.park(size, align, raw);
    }
}

fn mint(pool: &mut Pool, size: usize, align: usize, fresh: usize) -> usize {
    if mint_tries_pool(size) {
        if let Some(b) = pool.take(size, align) {
            return b;
        }
    }
    fresh
}

#[test]
fn roundtrip_reuses_same_block() {
    let mut pool = Pool::new();
    let addr1 = mint(&mut pool, 64, 1, 0x1000);
    assert_eq!(pool.parked(), 0, "a live mint parks nothing");
    die(&mut pool, 64, 1, addr1);
    assert_eq!(pool.parked(), 1, "the death parks its block");
    let addr2 = mint(&mut pool, 64, 1, 0x2000);
    assert_eq!(pool.parked(), 0, "the mint popped the parked block");
    assert_eq!(addr1, addr2, "same size class: the block is recycled");
}

#[test]
fn classes_are_separate() {
    let mut pool = Pool::new();
    die(&mut pool, 32, 1, 0xa0);
    die(&mut pool, 128, 1, 0xb0);
    assert_eq!(pool.parked(), 2);
    let a2 = mint(&mut pool, 32, 1, 0);
    let b2 = mint(&mut pool, 128, 1, 0);
    assert_eq!((a2, b2), (0xa0, 0xb0));
    assert_eq!(pool.parked(), 0, "each class popped its own block");
    die(&mut pool, 32, 1, a2);
    assert_eq!(mint(&mut pool, 32, 8, 0xc0), 0xc0, "class keys are exact (size, align)");
    assert_eq!(mint(&mut pool, 32, 1, 0xc0), a2);
}

#[test]
fn trim_caps_the_pool() {
    let mut pool = Pool::new();
    let mut evicted = 0;
    for i in 0..600usize {
        evicted += pool.park(4, 4, i).len();
    }
    let parked = pool.parked();
    assert!(parked < 600, "trim must cap the pool: {parked} parked");
    assert!(parked <= HIGH_WATER, "HIGH_WATER respected: {parked} parked");
    assert_eq!(parked + evicted, 600, "every block is parked or handed back");
}

#[test]
fn big_and_zero_sized_bypass_the_pool() {
    let mut pool = Pool::new();
    assert!(!mint_tries_pool(POOL_MAX + 1));
    die(&mut pool, POOL_MAX + 1, 1, 0x10);
    assert_eq!(retire_action(POOL_MAX + 1), RetireAction::Dealloc);
    assert_eq!(pool.parked(), 0, "oversized payloads skip the pool");
    die(&mut pool, 0, 1, 0x20);
    assert_eq!(retire_action(0), RetireAction::Nothing);
    assert_eq!(pool.parked(), 0, "ZST payloads skip the pool (no block exists)");
    die(&mut pool, POOL_MAX, 1, 0x30);
    assert_eq!(pool.parked(), 1, "the boundary size still pools");
}

#[test]
fn any_parked_pulls_the_latest_block() {
    let mut pool = Pool::new();
    pool.park(8, 8, 1);
    pool.park(16, 8, 2);
    assert_eq!(pool.any_parked(), Some(((16, 8), 2)));
    assert_eq!(pool.any_parked(), Some(((8, 8), 1)));
    assert_eq!(pool.any_parked(), None);
}

// ---- sequence indexing ----

#[test]
fn array_reads_refuse_negative_and_large_indices() {
    let a = SeqCell::Array(vec![10, 20, 30]);
    let none = SeqCell::Other;
    assert_eq!(seq_get(&a, &none, 2).unwrap(), 30);
    let t = seq_get(&a, &none, -1).unwrap_err();
    assert_eq!(t.kind, TrapKind::IndexOutOfBounds);
    assert_eq!(t.msg, "array index -1 out of bounds (len 3)");
    assert_eq!(seq_get(&a, &none, 3).unwrap_err().msg, "array index 3 out of bounds (len 3)");
    let t = seq_get(&none, &a, 0).unwrap_err();
    assert_eq!((t.kind, t.msg.as_str()), (TrapKind::Invalid, "index on non-sequence"));
}

#[test]
fn a_write_reads_back_and_answers_the_displaced_word() {
    let mut a = SeqCell::Array(vec![1, 2, 3]);
    let mut none = SeqCell::Other;
    assert_eq!(seq_set(&mut a, &mut none, 1, 42).unwrap(), 2);
    assert_eq!(seq_get(&a, &none, 1).unwrap(), 42);
    assert_eq!(seq_get(&a, &none, 0).unwrap(), 1);
    let t = seq_set(&mut a, &mut none, 5, 0).unwrap_err();
    assert_eq!(t.msg, "index 5 out of bounds (len 3)");
    let t = seq_set(&mut none, &mut a, 0, 0).unwrap_err();
    assert_eq!(t.msg, "index-set on non-sequence");
}

#[test]
fn a_window_write_lands_in_the_parent() {
    let mut parent = SeqCell::Array(vec![0, 1, 2, 3, 4, 5]);
    let mut view = SeqCell::View { off: 2, len: 3 };
    assert_eq!(seq_get(&view, &parent, 0).unwrap(), 2);
    assert_eq!(seq_set(&mut view, &mut parent, 1, 99).unwrap(), 3);
    assert_eq!(seq_get(&parent, &SeqCell::Other, 3).unwrap(), 99, "the window is a pointer, not a copy");
    assert_eq!(seq_get(&view, &parent, 1).unwrap(), 99);
    let t = seq_get(&view, &parent, 3).unwrap_err();
    assert_eq!(t.msg, "view index 3 out of bounds (len 3)");
    let t = seq_get(&view, &parent, -1).unwrap_err();
    assert_eq!(t.msg, "view index -1 out of bounds (len 3)");
    let t = seq_get(&view, &SeqCell::Other, 0).unwrap_err();
    assert_eq!((t.kind, t.msg.as_str()), (TrapKind::Invalid, "view over a non-array backing"));
}

#[test]
fn a_window_past_its_parent_still_traps() {
    let mut parent = SeqCell::Array(vec![7, 8]);
    let mut view = SeqCell::View { off: 1, len: 4 };
    assert_eq!(seq_get(&view, &parent, 0).unwrap(), 8);
    assert_eq!(seq_get(&view, &parent, 2).unwrap_err().kind, TrapKind::IndexOutOfBounds);
    assert!(seq_set(&mut view, &mut parent, 3, 1).is_err());
    assert_eq!(seq_get(&parent, &SeqCell::Other, 1).unwrap(), 8, "a refused write changes nothing");
}

// ---- packed element storage ----



fn run_of(s: &mut Blocks, kind: ArrKind, cap: u32) -> ArrData {
    let b = s.allocate(cap as usize * kind.width());
    ArrData::new(kind, b, cap)
}

#[test]
fn narrow_elements_truncate_on_write_and_extend_on_read() {
    let mut s = Blocks::new();
    let mut a = run_of(&mut s, ArrKind::I16, 4);
    a.push(&mut s, -2);
    a.push(&mut s, 70000);
    assert_eq!(a.get(&s, 0), Some(-2), "sign-extended");
    assert_eq!(a.get(&s, 1), Some(4464), "70000 keeps its low 16 bits");
    assert_eq!(a.get(&s, 2), None, "past the length");
    let mut u = run_of(&mut s, ArrKind::U8, 2);
    u.push(&mut s, -1);
    assert_eq!(u.get(&s, 0), Some(255), "zero-extended");
    let mut f = run_of(&mut s, ArrKind::Bool, 2);
    f.push(&mut s, 5);
    f.push(&mut s, 0);
    assert_eq!(f.to_slots(&s), vec![1, 0]);
    let mut w = run_of(&mut s, ArrKind::Slots, 1);
    w.push(&mut s, i64::MIN);
    assert_eq!(w.get(&s, 0), Some(i64::MIN), "a slot keeps the whole word");
}

#[test]
fn set_answers_the_displaced_element_and_pop_undoes_push() {
    let mut s = Blocks::new();
    let mut a = run_of(&mut s, ArrKind::I32, 3);
    a.push(&mut s, 10);
    a.push(&mut s, 20);
    assert_eq!(a.set(&mut s, 0, -5), Some(10));
    assert_eq!(a.set(&mut s, 2, 1), None, "past the length nothing changes");
    assert_eq!(a.to_slots(&s), vec![-5, 20]);
    a.push(&mut s, 30);
    assert_eq!(a.pop(&s), Some(30));
    assert_eq!(a.to_slots(&s), vec![-5, 20]);
    assert_eq!(a.pop(&s), Some(20));
    assert_eq!(a.pop(&s), Some(-5));
    assert_eq!(a.pop(&s), None);
    assert!(a.is_empty());
}

#[test]
fn a_full_run_grows_its_block_and_keeps_its_elements() {
    let mut s = Blocks::new();
    let mut a = run_of(&mut s, ArrKind::U16, 2);
    for v in 0..40i64 {
        a.push(&mut s, v * 1000);
    }
    assert_eq!(a.len(), 40);
    assert!(a.cap >= 40);
    let got = a.to_slots(&s);
    for v in 0..40i64 {
        assert_eq!(got[v as usize], (v * 1000) & 0xffff);
    }
}

#[test]
fn the_nil_tagged_store_keeps_payload_and_tag() {
    let mut s = Blocks::new();
    let a = run_of(&mut s, ArrKind::Opt(PrimTy::U16), 4);
    assert_eq!(a.width(), 3);
    assert_eq!(a.opt_raw(&s, 0), None, "a zeroed block is all nil");
    a.write_opt(&mut s, 0, Some(7));
    a.write_opt(&mut s, 1, None);
    a.write_opt_raw(&mut s, 2, 65537);
    assert_eq!(a.opt_raw(&s, 0), Some(7));
    assert!(a.opt_tag(&s, 0));
    assert_eq!(a.opt_raw(&s, 1), None);
    assert!(!a.opt_tag(&s, 1));
    assert_eq!(a.opt_raw(&s, 2), Some(1), "the payload keeps its low 16 bits");
    a.write_opt(&mut s, 0, None);
    assert_eq!(a.opt_raw(&s, 0), None);
    assert_eq!(a.opt_raw(&s, 2), Some(1), "other elements are untouched");
    let wide = run_of(&mut s, ArrKind::Opt(PrimTy::I64), 1);
    wide.write_opt(&mut s, 0, Some(-9));
    assert_eq!(wide.opt_raw(&s, 0), Some(-9));
    let plain = run_of(&mut s, ArrKind::I8, 1);
    assert_eq!(plain.opt_raw(&s, 0), None, "not a nil-tagged store");
}

#[test]
fn equal_runs_compare_equal_by_kind() {
    let mut s = Blocks::new();
    let mut a = run_of(&mut s, ArrKind::I16, 4);
    let mut b = run_of(&mut s, ArrKind::I16, 8);
    for v in [3i64, -4, 5] {
        a.push(&mut s, v);
        b.push(&mut s, v);
    }
    assert!(a.array_eq(&b, &s));
    b.set(&mut s, 1, 4);
    assert!(!a.array_eq(&b, &s));
    let mut c = run_of(&mut s, ArrKind::I32, 4);
    for v in [3i64, -4, 5] {
        c.push(&mut s, v);
    }
    assert!(!a.array_eq(&c, &s), "kinds must match");
    let mut x = run_of(&mut s, ArrKind::Slots, 2);
    let mut y = run_of(&mut s, ArrKind::Slots, 2);
    x.push(&mut s, 9);
    y.push(&mut s, 9);
    assert!(x.array_eq(&y, &s));
    y.push(&mut s, 1);
    assert!(!x.array_eq(&y, &s), "lengths must match");
}

#[test]
fn record_slots_live_inline_until_they_spill() {
    let z = Slots::zeroed(3);
    assert!(matches!(z, Slots::Inline { len: 3, .. }));
    assert_eq!(z.len(), 3);
    assert_eq!(z.get(2), Some(0));
    assert_eq!(z.get(3), None);
    let big = Slots::zeroed(INLINE_SLOTS + 1);
    assert!(matches!(big, Slots::Heap(_)));
    let mut v = Slots::from_vec(vec![1, 2, 3, 4]);
    assert!(matches!(v, Slots::Inline { .. }));
    assert_eq!(v.set(1, 20), Some(2));
    assert_eq!(v.set(4, 0), None);
    assert_eq!(v.take_slots(), vec![1, 20, 3, 4]);
    assert_eq!(v.len(), 0);
    let mut h = Slots::from_vec(vec![1, 2, 3, 4, 5]);
    assert_eq!(h.set(4, 50), Some(5));
    assert_eq!(h.get(4), Some(50));
    assert_eq!(h.take_slots(), vec![1, 2, 3, 4, 50]);
    assert_eq!(h.len(), 0);
}

#[test]
fn array_cells_are_built_at_their_final_length() {
    let mut acct = HeapAcct::new(None);
    let mut s = Blocks::new();
    let a = alloc_array(&mut acct, &mut s, ArrKind::I8, &[1, -1, 200]).unwrap();
    assert_eq!(a.items.to_slots(&s), vec![1, -1, -56], "each element as an i8 keeps it");
    assert_eq!(a.bytes, 24 + 3);
    assert_eq!(acct.used_bytes(), 27);
    let f = alloc_array_filled(&mut acct, &mut s, ArrKind::U32, 5, -1).unwrap();
    assert_eq!(f.items.to_slots(&s), vec![4294967295; 5]);
    assert_eq!(f.bytes, 24 + 20);
    let b = alloc_bytes(&mut acct, &mut s, &[9, 8, 7]).unwrap();
    assert_eq!(b.items.kind, ArrKind::U8);
    assert_eq!(b.items.to_slots(&s), vec![9, 8, 7]);
    let e = alloc_array(&mut acct, &mut s, ArrKind::Slots, &[]).unwrap();
    assert!(e.items.is_empty());
    assert_eq!(e.bytes, 24);
}

#[test]
fn array_cells_are_charged_against_the_budget() {
    let mut acct = HeapAcct::new(Some(40));
    let mut s = Blocks::new();
    assert!(alloc_bytes(&mut acct, &mut s, &[0; 16]).is_ok());
    let r = alloc_array_filled(&mut acct, &mut s, ArrKind::Slots, 1, 7);
    assert!(matches!(r, Err(t) if t.kind == TrapKind::OutOfMemory && t.msg == "heap budget exceeded: 72 > 40 bytes"));
    assert_eq!(acct.used_bytes(), 40);
}

#[test]
fn bytes_copy_keeps_each_elements_low_byte() {
    let mut acct = HeapAcct::new(None);
    let mut s = Blocks::new();
    let b = alloc_bytes(&mut acct, &mut s, &[1, 2, 255]).unwrap();
    assert_eq!(b.items.bytes_copy(&s), vec![1, 2, 255]);
    let w = alloc_array(&mut acct, &mut s, ArrKind::I32, &[300, -1]).unwrap();
    assert_eq!(w.items.bytes_copy(&s), vec![44, 255]);
}

#[test]
fn char_len_counts_characters_not_octets() {
    let mut acct = HeapAcct::new(None);
    let mut s = Blocks::new();
    let a = alloc_str_bytes(&mut acct, &mut s, b"hello").unwrap();
    assert_eq!(a.val.char_len(&s), 5);
    let h = alloc_str_bytes(&mut acct, &mut s, "héllo".as_bytes()).unwrap();
    assert_eq!(h.val.bytes(&s).len(), 6);
    assert_eq!(h.val.char_len(&s), 5);
    let w = alloc_str_bytes(&mut acct, &mut s, "日本€😀".as_bytes()).unwrap();
    assert_eq!(w.val.char_len(&s), 4);
    let e = alloc_str_bytes(&mut acct, &mut s, b"").unwrap();
    assert_eq!(e.val.char_len(&s), 0);
}

#[test]
fn a_slice_of_an_array_is_a_window_at_its_offset() {
    assert_eq!(slice_window(&vec![], true, 1, 3, 5).unwrap(), (1, 2));
    assert_eq!(slice_window(&vec![], true, 0, 0, 0).unwrap(), (0, 0));
    assert_eq!(slice_window(&vec![], true, 5, 5, 5).unwrap(), (5, 0));
}

#[test]
fn a_slice_of_a_window_flattens_onto_the_backing_array() {
    // a window of 4 at offset 2; its slice 1..3 sits at 3 in the array
    assert_eq!(slice_window(&vec![(2, 4)], true, 1, 3, 99).unwrap(), (3, 2));
    // the window's own length bounds the slice, not the caller's
    let e = slice_window(&vec![(2, 4)], true, 0, 5, 99).unwrap_err();
    assert_eq!(e.kind, TrapKind::IndexOutOfBounds);
    assert_eq!(e.msg, "slice 0..5 out of bounds (len 4)");
}

#[test]
fn a_slice_outside_the_live_length_traps() {
    let e = slice_window(&vec![], true, 2, 6, 5).unwrap_err();
    assert_eq!(e.kind, TrapKind::IndexOutOfBounds);
    assert_eq!(e.msg, "slice 2..6 out of bounds (len 5)");
    let e = slice_window(&vec![], true, -1, 2, 5).unwrap_err();
    assert_eq!(e.msg, "slice -1..2 out of bounds (len 5)");
    let e = slice_window(&vec![], true, 3, 2, 5).unwrap_err();
    assert_eq!(e.msg, "slice 3..2 out of bounds (len 5)");
}

#[test]
fn a_slice_of_a_non_sequence_is_invalid() {
    let e = slice_window(&vec![], false, 0, 1, 5).unwrap_err();
    assert_eq!(e.kind, TrapKind::Invalid);
    assert_eq!(e.msg, "slice on non-sequence");
}

#[test]
fn encode_utf8_agrees_with_the_standard_encoder() {
    let probes = ['\0', 'a', '\u{7f}', '\u{80}', 'é', '\u{7ff}', '\u{800}', '€', '\u{d7ff}', '\u{e000}', '\u{ffff}', '\u{10000}', '😀', '\u{10ffff}'];
    for c in probes {
        let mut buf = [0u8; 4];
        assert_eq!(encode_utf8(c), c.encode_utf8(&mut buf).as_bytes(), "{c:?}");
    }
    for v in (0u32..0x11000).step_by(7) {
        if let Some(c) = char::from_u32(v) {
            let mut buf = [0u8; 4];
            assert_eq!(encode_utf8(c), c.encode_utf8(&mut buf).as_bytes(), "{v:#x}");
        }
    }
}

#[test]
fn a_char_cell_holds_one_character() {
    let mut acct = HeapAcct::new(None);
    let mut s = Blocks::new();
    let a = alloc_char(&mut acct, &mut s, 'a').unwrap();
    assert_eq!(a.val.bytes(&s), b"a");
    assert!(a.val.ascii);
    assert_eq!(a.bytes, 25);
    let e = alloc_char(&mut acct, &mut s, '€').unwrap();
    assert_eq!(e.val.bytes(&s), &[0xE2, 0x82, 0xAC]);
    assert!(!e.val.ascii);
    assert_eq!(e.val.char_len(&s), 1);
    assert_eq!(e.bytes, 27);
    let g = alloc_char(&mut acct, &mut s, '😀').unwrap();
    assert_eq!(g.val.bytes(&s), "😀".as_bytes());
    assert_eq!(g.val.char_len(&s), 1);
    assert_eq!(acct.used_bytes(), 25 + 27 + 28);
}

#[test]
fn a_char_cell_over_budget_is_refused() {
    let mut acct = HeapAcct::new(Some(26));
    let mut s = Blocks::new();
    assert!(alloc_char(&mut acct, &mut s, 'a').is_ok());
    match alloc_char(&mut acct, &mut s, 'b') {
        Err(e) => assert_eq!(e.kind, TrapKind::OutOfMemory),
        Ok(_) => panic!("over budget"),
    }
}

#[test]
fn a_bytes_clone_is_an_independent_copy() {
    let mut acct = HeapAcct::new(None);
    let mut s = Blocks::new();
    let a = alloc_bytes(&mut acct, &mut s, &[1, 2, 255]).unwrap();
    let used = acct.used_bytes();
    let c = bytes_clone(&mut acct, &mut s, &a.items).unwrap();
    assert_eq!(acct.used_bytes(), used + 27, "overhead plus the octets");
    assert_eq!(c.items.bytes_copy(&s), vec![1, 2, 255]);
    assert_ne!(c.items.block, a.items.block);
    a.items.set(&mut s, 0, 9).unwrap();
    assert_eq!(a.items.bytes_copy(&s), vec![9, 2, 255]);
    assert_eq!(c.items.bytes_copy(&s), vec![1, 2, 255], "the clone does not see the write");
}

#[test]
fn only_bytes_clone() {
    let mut acct = HeapAcct::new(None);
    let mut s = Blocks::new();
    let a = alloc_array(&mut acct, &mut s, ArrKind::I8, &[1, -1]).unwrap();
    let used = acct.used_bytes();
    match bytes_clone(&mut acct, &mut s, &a.items) {
        Err(e) => {
            assert_eq!(e.kind, TrapKind::Invalid);
            assert_eq!(e.msg, "clone on non-bytes");
        }
        Ok(_) => panic!("an i8 array is no bytes value"),
    }
    assert_eq!(acct.used_bytes(), used);
}
