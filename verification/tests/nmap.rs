use rut::cell::PrimTy;
use rut::nmap::{decode_key, decode_val, key_of_bool, key_of_bytes, key_of_i64, ty_label, TyTag};
use rut::nmap::{
    fused_find, fused_find_s, fused_find_sv, fused_put, fused_put_s, fused_put_sv, fused_remove,
    fused_remove_s, fused_remove_sv, hash_bytes, hash_payload, pack_answer, sv_range, KeyKind,
    KeyVal, NativeTable, ValSlot,
};
use rut::acct::HeapAcct;
use rut::cells::CellArena;
use rut::trap::TrapKind;

fn mix64(bits: u64) -> u64 {
    (14695981039346656037u64 ^ bits).wrapping_mul(1099511628211u64)
}

fn bits(v: u64) -> KeyVal {
    KeyVal::Bits(v)
}

#[test]
fn native_table_shallow_size_is_pinned() {
    assert_eq!(std::mem::size_of::<NativeTable>(), 40);
}

#[test]
fn the_capacity_law_is_hashmaps_reserve_semantics() {
    assert_eq!(NativeTable::new(0).cap(), 0);
    assert_eq!(NativeTable::new(-5).cap(), 0);
    assert!(NativeTable::new(4).cap() >= 4);
    assert!(NativeTable::new(1000).cap() >= 1000);
}

#[test]
fn key_kinds_admit_but_never_mix() {
    let mut t = NativeTable::new(8);
    assert_eq!(fused_put(&mut t, bits(1)).unwrap(), pack_answer(0, true));
    assert_eq!(fused_put(&mut t, bits(2)).unwrap(), pack_answer(1, true));
    let err = fused_put(&mut t, KeyVal::Str("x".into())).unwrap_err();
    assert!(err.msg.contains("mixed key kinds"), "{}", err.msg);
    let err = fused_find(&t, &KeyVal::Str("x".into())).unwrap_err();
    assert!(err.msg.contains("mixed key kinds"), "{}", err.msg);
    let err = fused_remove(&mut t, &KeyVal::Str("x".into())).unwrap_err();
    assert!(err.msg.contains("mixed key kinds"), "{}", err.msg);
    assert_eq!(t.len(), 2, "the rejected keys stored nothing");
    assert_eq!(t.kind(), KeyKind::Bits);
}

#[test]
fn str_key_equality_is_content_equality() {
    let mut t = NativeTable::new(8);
    let a = fused_put_s(&mut t, "alpha").unwrap();
    assert_eq!(a & 1, 1, "fresh");
    let alpha = (a >> 1) as i32;
    assert_eq!(fused_find_s(&t, "alpha").unwrap(), alpha);
    assert_eq!(fused_find_s(&t, "alph").unwrap(), -1);
    assert_eq!(fused_put_s(&mut t, "alpha").unwrap(), pack_answer(alpha, false));
    assert_eq!(t.len(), 1);
    assert_eq!(fused_remove_s(&mut t, "alpha").unwrap().0, alpha);
    assert_eq!(fused_find_s(&t, "alpha").unwrap(), -1);

    let mut t = NativeTable::new(8);
    let b = fused_put(&mut t, KeyVal::Bytes(vec![9, 8, 7])).unwrap();
    assert_eq!(b & 1, 1, "fresh");
    let hd = (b >> 1) as i32;
    assert_eq!(fused_find(&t, &KeyVal::Bytes(vec![9, 8, 7])).unwrap(), hd);
    assert_eq!(fused_find(&t, &KeyVal::Bytes(vec![9, 8])).unwrap(), -1);
}

#[test]
fn hash_payload_bits_are_pinned_bit_for_bit() {
    assert_eq!(hash_payload(&KeyVal::Bits(0)), 12638153115695167455);
    assert_eq!(hash_payload(&KeyVal::Bits(1)), 12638152016183539244);
    assert_eq!(hash_payload(&KeyVal::Bits(11)), 12638163011299821354);
    assert_eq!(hash_payload(&KeyVal::Bits(255)), 12638352127299873646);
    assert_eq!(hash_payload(&KeyVal::Bits(u64::MAX)), 5808589858502755950);
    assert_eq!(hash_payload(&KeyVal::Str("alpha".into())), 9999721509958787115);
    assert_eq!(hash_payload(&KeyVal::Str("beta".into())), 8513880941419438247);
    assert_eq!(hash_payload(&KeyVal::Bytes(vec![1, 2, 3])), 15035938162879559083);
}

#[test]
fn widening_distinctness_matches_the_bits_law() {
    let mut t = NativeTable::new(8);
    let neg = fused_put(&mut t, bits((-1i64) as u64)).unwrap();
    assert_eq!(neg & 1, 1, "fresh");
    let u8_255 = fused_put(&mut t, bits(255)).unwrap();
    assert_eq!(u8_255 & 1, 1, "255 is a fresh key");
    assert_eq!(
        fused_put(&mut t, bits(255i64 as u64)).unwrap(),
        u8_255 & !1,
        "same handle, newly = false — equal bits collapse"
    );
    assert_eq!(t.len(), 2);
    let found_neg = fused_find(&t, &bits((-1i64) as u64)).unwrap();
    assert_ne!(found_neg, (u8_255 >> 1) as i32);
    assert!(found_neg >= 0, "-1i8 is stored, not missing");
    assert_eq!(fused_find(&t, &bits(255)).unwrap(), (u8_255 >> 1) as i32);
    assert_eq!(fused_find(&t, &bits(256)).unwrap(), -1);
}

#[test]
fn the_bool_lane_hashes_the_wrappers_bools() {
    let mut t = NativeTable::new(8);
    let tru = fused_put(&mut t, bits(1)).unwrap();
    assert_eq!(tru & 1, 1, "fresh");
    assert_eq!(fused_find(&t, &bits(1)).unwrap(), (tru >> 1) as i32);
    assert_eq!(fused_find(&t, &bits(0)).unwrap(), -1, "false misses");
    let fal = fused_put(&mut t, bits(0)).unwrap();
    assert_eq!(fal & 1, 1);
    assert_eq!(fused_find(&t, &bits(0)).unwrap(), (fal >> 1) as i32);
    assert_eq!(fused_remove(&mut t, &bits(0)).unwrap().0, (fal >> 1) as i32);
    assert_eq!(hash_payload(&KeyVal::Bits(0)), mix64(0));
    assert_eq!(hash_payload(&KeyVal::Bits(1)), mix64(1));
}

#[test]
fn val_lanes_round_trip_raw_bits_and_trap_on_empty_and_dead_handles() {
    let mut t = NativeTable::new(8);
    let mut a = CellArena::new();
    let mut acct = HeapAcct::new(None);
    for k in 0u64..5 {
        let ans = fused_put(&mut t, bits(k)).unwrap();
        let hd = (ans >> 1) as i32;
        let err = t.val_get_u(hd).unwrap_err();
        assert!(err.msg.contains("no bits"), "{}", err.msg);
        t.val_set_u(&mut a, &mut acct, hd, u64::MAX - k).unwrap();
    }
    for k in 0u64..5 {
        let hd = fused_find(&t, &bits(k)).unwrap();
        assert_eq!(t.val_get_u(hd).unwrap(), u64::MAX - k, "key {k}");
    }
    // f64 patterns ride the same Bits storage as their bit patterns
    let vals = [1.5f64, -2.25, 0.0, -0.0, f64::MIN_POSITIVE, f64::MAX, f64::MIN];
    let hd = fused_find(&t, &bits(0)).unwrap();
    for (i, v) in vals.iter().enumerate() {
        t.val_set_u(&mut a, &mut acct, hd, v.to_bits()).unwrap();
        assert_eq!(f64::from_bits(t.val_get_u(hd).unwrap()), *v, "val {i}");
        assert_eq!(t.val_get_u(hd).unwrap(), v.to_bits(), "the raw word {i}");
    }
    t.val_set_u(&mut a, &mut acct, hd, 0.0f64.to_bits()).unwrap();
    let zero = t.val_get_u(hd).unwrap();
    t.val_set_u(&mut a, &mut acct, hd, (-0.0f64).to_bits()).unwrap();
    assert_ne!(t.val_get_u(hd).unwrap(), zero);
    for h in [-1, 5, i32::MAX] {
        let err = t.val_get_u(h).unwrap_err();
        assert_eq!(err.kind, TrapKind::Invalid);
        assert!(err.msg.contains("out of range"), "{}", err.msg);
        let err = t.val_set_u(&mut a, &mut acct, h, 1).unwrap_err();
        assert!(err.msg.contains("out of range"), "{}", err.msg);
    }
    let hd = fused_find(&t, &bits(1)).unwrap();
    assert_eq!(fused_remove(&mut t, &bits(1)).unwrap().0, hd);
    let err = t.val_get_u(hd).unwrap_err();
    assert!(err.msg.contains("no live entry"), "{}", err.msg);
    let err = t.val_set_u(&mut a, &mut acct, hd, 9).unwrap_err();
    assert!(err.msg.contains("no live entry"), "{}", err.msg);
}

#[test]
fn the_handle_rebased_val_lanes_match_a_reference_map() {
    let mut t = NativeTable::new(4);
    let mut a = CellArena::new();
    let mut acct = HeapAcct::new(None);
    let mut reference: std::collections::HashMap<u64, u64> = std::collections::HashMap::new();
    let mut handles: std::collections::HashMap<u64, i32> = std::collections::HashMap::new();
    let val_of = |k: u64| -> u64 {
        if k % 7 == 0 {
            (-(k as f64)).to_bits()
        } else {
            k * 7 + 1
        }
    };
    for k in 0u64..150 {
        let ans = fused_put(&mut t, bits(k)).unwrap();
        assert_eq!(ans & 1, 1, "key {k} fresh");
        let hd = (ans >> 1) as i32;
        handles.insert(k, hd);
        t.val_set_u(&mut a, &mut acct, hd, val_of(k)).unwrap();
        reference.insert(k, val_of(k));
    }
    assert_eq!(t.len(), 150);
    assert!(t.cap() >= 150, "growth happened internally: {}", t.cap());
    for k in (0u64..150).step_by(4) {
        let ans = fused_put(&mut t, bits(k)).unwrap();
        assert_eq!(ans, pack_answer(handles[&k], false), "replace key {k}");
        t.val_set_u(&mut a, &mut acct, handles[&k], val_of(k).wrapping_add(1)).unwrap();
        reference.insert(k, val_of(k).wrapping_add(1));
    }
    for k in (0u64..150).step_by(3) {
        let hd = handles.remove(&k).unwrap();
        assert_eq!(fused_remove(&mut t, &bits(k)).unwrap().0, hd);
        reference.remove(&k);
        let err = t.val_get_u(hd).unwrap_err();
        assert!(err.msg.contains("no live entry"), "key {k}: {}", err.msg);
    }
    for k in (0u64..150).step_by(6) {
        let ans = fused_put(&mut t, bits(k)).unwrap();
        assert_eq!(ans & 1, 1, "re-add key {k} is a new birth");
        let hd = (ans >> 1) as i32;
        assert_ne!(hd, handles.get(&k).copied().unwrap_or(-1), "never recycled");
        handles.insert(k, hd);
        t.val_set_u(&mut a, &mut acct, hd, val_of(k).wrapping_add(2)).unwrap();
        reference.insert(k, val_of(k).wrapping_add(2));
    }
    assert_eq!(t.len(), reference.len() as i32);
    for (k, v) in &reference {
        let hd = handles[k];
        assert_eq!(fused_find(&t, &bits(*k)).unwrap(), hd, "key {k}");
        assert_eq!(t.val_get_u(hd).unwrap(), *v, "key {k}");
    }
}

#[test]
fn the_valued_lanes_round_trip_bits_trap_on_empty_and_refuse_float_keys() {
    let mut t = NativeTable::new(8);
    let mut a = CellArena::new();
    let mut acct = HeapAcct::new(None);
    let ans = t.hvput(&mut a, &mut acct, KeyKind::Bits, bits(0), ValSlot::Bits(0)).unwrap();
    assert_eq!(ans, pack_answer(0, true), "fresh birth");
    match t.hvget(KeyKind::Bits, &bits(0)).unwrap() {
        Some(ValSlot::Bits(s)) => assert_eq!(s, 0, "some(0), never nil"),
        other => panic!("expected Bits, got {other:?}"),
    }
    assert_eq!(t.hvget(KeyKind::Bits, &bits(1)).unwrap(), None, "the miss");
    let ans = t.hvput(&mut a, &mut acct, KeyKind::Bits, bits(0), ValSlot::Bits(7)).unwrap();
    assert_eq!(ans, pack_answer(0, false), "replace");
    match t.hvget(KeyKind::Bits, &bits(0)).unwrap() {
        Some(ValSlot::Bits(s)) => assert_eq!(s, 7),
        other => panic!("expected Bits, got {other:?}"),
    }
    let ans = t.hput(KeyKind::Bits, bits(9)).unwrap();
    let hd = (ans >> 1) as i32;
    let err = t.hvget(KeyKind::Bits, &bits(9)).unwrap_err();
    assert_eq!(err.kind, TrapKind::Invalid);
    assert!(err.msg.contains("Empty") && err.msg.contains("placeholder"), "{}", err.msg);
    let ans = t.hvput(&mut a, &mut acct, KeyKind::Bits, bits(9), ValSlot::Bits(90)).unwrap();
    assert_eq!(ans, pack_answer(hd, false), "the birth's handle, not newly");
    assert_eq!(t.hremove(&mut a, &mut acct, KeyKind::Bits, &bits(0)).unwrap(), 0);
    assert_eq!(t.hvget(KeyKind::Bits, &bits(0)).unwrap(), None);
    assert_eq!(t.hremove(&mut a, &mut acct, KeyKind::Bits, &bits(0)).unwrap(), -1);
    assert_eq!(t.len(), 1, "nine survives; zero was removed");
}

#[test]
fn the_valued_lanes_match_a_reference_map() {
    let mut t = NativeTable::new(4);
    let mut a = CellArena::new();
    let mut acct = HeapAcct::new(None);
    let mut reference: std::collections::HashMap<u64, u64> = std::collections::HashMap::new();
    let mut handles: std::collections::HashMap<u64, i32> = std::collections::HashMap::new();
    let val_of = |k: u64| k * 7 + 1;
    for k in 0u64..150 {
        let ans = t.hvput(&mut a, &mut acct, KeyKind::Bits, bits(k), ValSlot::Bits(val_of(k))).unwrap();
        assert_eq!(ans & 1, 1, "key {k} fresh");
        handles.insert(k, (ans >> 1) as i32);
        reference.insert(k, val_of(k));
    }
    assert_eq!(t.len(), 150);
    for k in (0u64..150).step_by(4) {
        let ans = t.hvput(&mut a, &mut acct, KeyKind::Bits, bits(k), ValSlot::Bits(val_of(k) + 1)).unwrap();
        assert_eq!(ans, pack_answer(handles[&k], false), "replace key {k}");
        reference.insert(k, val_of(k) + 1);
    }
    for k in (0u64..150).step_by(3) {
        let hd = handles.remove(&k).unwrap();
        assert_eq!(t.hremove(&mut a, &mut acct, KeyKind::Bits, &bits(k)).unwrap(), hd);
        reference.remove(&k);
        assert_eq!(t.hvget(KeyKind::Bits, &bits(k)).unwrap(), None, "key {k} gone");
    }
    assert_eq!(t.len(), reference.len() as i32);
    for (k, v) in &reference {
        assert_eq!(t.hvget(KeyKind::Bits, &bits(*k)).unwrap(), Some(ValSlot::Bits(*v)), "key {k}");
        assert_eq!(
            t.hvget(KeyKind::Bits, &bits(*k)).unwrap(),
            t.hvget(KeyKind::Bits, &bits(*k)).unwrap(),
            "identity: two gets read the same storage"
        );
    }
}

#[test]
fn hash_bytes_is_bit_for_bit_the_payload_hasher() {
    assert_eq!(hash_bytes(b"alpha"), 9999721509958787115);
    assert_eq!(hash_bytes(b"beta"), 8513880941419438247);
    assert_eq!(hash_bytes(b""), 14695981039346656037, "the bare offset basis");
    assert_eq!(hash_bytes(b"alpha"), hash_payload(&KeyVal::Str("alpha".into())));
    assert_eq!(hash_bytes(b"beta"), hash_payload(&KeyVal::Str("beta".into())));
    let s = "héllo→";
    assert_eq!(hash_bytes(s.as_bytes()), hash_payload(&KeyVal::Str(s.into())));
    assert_eq!(hash_bytes(&[1, 2, 3]), hash_payload(&KeyVal::Bytes(vec![1, 2, 3])));
    let parent = "alpha-beta";
    assert_eq!(hash_bytes(&parent.as_bytes()[0..5]), hash_bytes(b"alpha"));
    assert_eq!(hash_bytes(&parent.as_bytes()[6..10]), hash_payload(&KeyVal::Str("beta".into())));
}

#[test]
fn sv_range_traps_mid_codepoint_and_out_of_range() {
    let ascii = "abcdef";
    assert_eq!(sv_range(ascii, 0, 6).unwrap(), "abcdef", "the full range");
    assert_eq!(sv_range(ascii, 2, 3).unwrap(), "cde", "a middle window");
    assert_eq!(sv_range(ascii, 6, 0).unwrap(), "", "the empty tail window");
    assert_eq!(sv_range(ascii, 0, 0).unwrap(), "", "the empty head window");

    let utf8 = "héllo";
    assert_eq!(sv_range(utf8, 0, 3).unwrap(), "hé");
    assert_eq!(sv_range(utf8, 3, 3).unwrap(), "llo");
    assert_eq!(sv_range(utf8, 0, 6).unwrap(), utf8);
    let err = sv_range(utf8, 2, 2).unwrap_err();
    assert_eq!(err.kind, TrapKind::Invalid);
    assert!(err.msg.contains("not a UTF-8 boundary"), "{}", err.msg);
    assert!(err.msg.contains("offset 2"), "{}", err.msg);
    let err = sv_range(utf8, 0, 2).unwrap_err();
    assert!(
        err.msg.contains("end offset 2") && err.msg.contains("not a UTF-8 boundary"),
        "{}",
        err.msg
    );
    for (off, len) in [(-1, 2), (2, -1), (i32::MIN, 0), (0, i32::MIN)] {
        let err = sv_range(utf8, off, len).unwrap_err();
        assert_eq!(err.kind, TrapKind::Invalid);
        assert!(err.msg.contains("out of range"), "{off}/{len}: {}", err.msg);
    }
    let err = sv_range(utf8, 0, 7).unwrap_err();
    assert!(err.msg.contains("out of range"), "{}", err.msg);
    let err = sv_range(utf8, i32::MAX, 1).unwrap_err();
    assert!(err.msg.contains("out of range"), "{}", err.msg);
    let err = sv_range("", 0, 1).unwrap_err();
    assert!(err.msg.contains("out of range"), "{}", err.msg);
    assert_eq!(sv_range("", 0, 0).unwrap(), "");
}

#[test]
fn sv_and_s_lanes_assign_identical_handles_both_directions() {
    let parent = "alpha-beta-gamma-delta";
    let windows: [(i32, i32); 8] = [(0, 5), (6, 4), (11, 5), (17, 5), (0, 4), (5, 5), (10, 6), (16, 6)];
    let texts: [String; 8] = [
        "alpha".into(),
        "beta".into(),
        "gamma".into(),
        "delta".into(),
        "alph".into(),
        "-beta".into(),
        "-gamma".into(),
        "-delta".into(),
    ];
    for ((off, len), text) in windows.iter().zip(texts.iter()) {
        assert_eq!(&parent[*off as usize..(off + len) as usize], text);
    }
    let build = |mode: u8| -> NativeTable {
        let mut t = NativeTable::new(4);
        for i in 0..8 {
            let ans = match mode {
                0 => fused_put_sv(&mut t, parent, windows[i].0, windows[i].1),
                1 => fused_put_s(&mut t, &texts[i]),
                _ => {
                    if i % 2 == 0 {
                        fused_put_sv(&mut t, parent, windows[i].0, windows[i].1)
                    } else {
                        fused_put_s(&mut t, &texts[i])
                    }
                }
            }
            .unwrap();
            assert_eq!(ans & 1, 1, "key {i} inserts fresh");
        }
        t
    };
    let a = build(0);
    let b = build(1);
    let c = build(2);
    assert_eq!(a.len(), 8);
    assert_eq!(b.len(), 8);
    assert_eq!(c.len(), 8);
    assert_eq!(a.kind(), KeyKind::Str);
    for i in 0..8 {
        let (off, len) = windows[i];
        let ha = fused_find_sv(&a, parent, off, len).unwrap();
        assert!(ha >= 0, "key {i} lost on the sv build");
        assert_eq!(ha, fused_find_s(&a, &texts[i]).unwrap());
        assert_eq!(ha, fused_find_sv(&b, parent, off, len).unwrap());
        assert_eq!(ha, fused_find_s(&b, &texts[i]).unwrap());
        assert_eq!(ha, fused_find_s(&c, &texts[i]).unwrap(), "the mixed build too");
    }
    let mut a = a;
    let alpha = fused_find_sv(&a, parent, 0, 5).unwrap();
    assert_eq!(fused_put_s(&mut a, "alpha").unwrap(), pack_answer(alpha, false));
    assert_eq!(a.len(), 8);
    let beta = fused_find_s(&a, "beta").unwrap();
    assert_eq!(fused_put_sv(&mut a, parent, 6, 4).unwrap(), pack_answer(beta, false));
    assert_eq!(a.len(), 8);
    assert_eq!(fused_remove_sv(&mut a, parent, 0, 5).unwrap().0, alpha);
    assert_eq!(fused_remove_s(&mut a, "alpha").unwrap().0, -1);
    assert_eq!(fused_find_sv(&a, parent, 0, 5).unwrap(), -1);
    assert_eq!(fused_find_s(&a, "alpha").unwrap(), -1);
    assert_eq!(a.len(), 7);
    let ans = fused_put_s(&mut a, "alpha").unwrap();
    assert_eq!(ans & 1, 1, "the re-add is a new birth");
    assert!(((ans >> 1) as i32) > alpha, "births are monotonic");
}

#[test]
fn sv_lanes_admit_and_trap_like_the_s_lanes() {
    let mut t = NativeTable::new(8);
    assert_eq!(fused_put(&mut t, bits(1)).unwrap() & 1, 1);
    let err = fused_find_sv(&t, "ab", 0, 2).unwrap_err();
    assert!(err.msg.contains("mixed key kinds"), "{}", err.msg);
    let err = fused_put_sv(&mut t, "ab", 0, 2).unwrap_err();
    assert!(err.msg.contains("mixed key kinds"), "{}", err.msg);
    let err = fused_remove_sv(&mut t, "ab", 0, 2).unwrap_err();
    assert!(err.msg.contains("mixed key kinds"), "{}", err.msg);
    let err = fused_put_s(&mut t, "ab").unwrap_err();
    assert!(err.msg.contains("mixed key kinds"), "{}", err.msg);
    assert_eq!(t.len(), 1, "the rejected keys stored nothing");
    let mut t = NativeTable::new(8);
    let ans = fused_put_sv(&mut t, "xy", 0, 2).unwrap();
    assert_eq!(ans & 1, 1);
    assert_eq!(t.kind(), KeyKind::Str);
}

#[test]
fn sv_lanes_survive_multi_grow_sweeps() {
    let mut parent = String::new();
    for i in 0..150usize {
        parent.push((b'A' + (i % 26) as u8) as char);
        parent.push((b'a' + (i / 26) as u8) as char);
        parent.push((b'0' + (i % 10) as u8) as char);
    }
    let off_of = |i: usize| (3 * i) as i32;
    let text_of = |i: usize| parent[3 * i..3 * i + 3].to_string();
    let mut t = NativeTable::new(4);
    let mut distinct = std::collections::HashSet::new();
    for i in 0..150usize {
        let ans = fused_put_sv(&mut t, &parent, off_of(i), 3).unwrap();
        assert_eq!(ans & 1, 1, "window {i} inserts fresh");
        distinct.insert(text_of(i));
    }
    assert_eq!(distinct.len(), 150, "the sweep's keys are distinct");
    assert_eq!(t.len(), 150);
    assert!(t.cap() >= 150, "growth is std's and internal: {}", t.cap());
    for i in (0..150).step_by(3) {
        assert!(fused_remove_sv(&mut t, &parent, off_of(i), 3).unwrap().0 >= 0);
    }
    assert_eq!(t.len(), 100);
    for i in (0..150).step_by(3) {
        let ans = fused_put_s(&mut t, &text_of(i)).unwrap();
        assert_eq!(ans & 1, 1, "re-add {i} is a fresh birth");
    }
    assert_eq!(t.len(), 150);
    for i in 0..150usize {
        let via_sv = fused_find_sv(&t, &parent, off_of(i), 3).unwrap();
        assert!(via_sv >= 0, "key {i} lost");
        assert_eq!(via_sv, fused_find_s(&t, &text_of(i)).unwrap(), "key {i}");
    }
}

#[test]
fn the_packed_answer_law_is_bit0_newly_rest_handle() {
    assert_eq!(pack_answer(0, false), 0);
    assert_eq!(pack_answer(0, true), 1);
    assert_eq!(pack_answer(1, false), 2);
    assert_eq!(pack_answer(1, true), 3);
    assert_eq!(pack_answer(1_000_000_000, true), 2_000_000_001);
    for hd in [0i32, 1, 7, 1 << 20] {
        for newly in [false, true] {
            let ans = pack_answer(hd, newly);
            assert_eq!((ans & 1) == 1, newly);
            assert_eq!((ans >> 1) as i32, hd);
        }
    }
    let mut seen = std::collections::HashSet::new();
    for hd in 0..2000i32 {
        assert!(seen.insert(pack_answer(hd, true)));
        assert!(seen.insert(pack_answer(hd, false)));
    }
}

#[test]
fn hput_answers_handles_and_hfind_agrees() {
    let mut t = NativeTable::new(8);
    for i in 0..3u64 {
        let ans = fused_put(&mut t, bits(i)).unwrap();
        assert_eq!(ans, pack_answer(i as i32, true), "birth {i}");
    }
    assert_eq!(fused_put(&mut t, bits(1)).unwrap(), pack_answer(1, false));
    assert_eq!(fused_find(&t, &bits(0)).unwrap(), 0);
    assert_eq!(fused_find(&t, &bits(1)).unwrap(), 1);
    assert_eq!(fused_find(&t, &bits(99)).unwrap(), -1);
    assert_eq!(t.len(), 3);
}

#[test]
fn handles_survive_multi_grow_sweeps_untouched() {
    let mut t = NativeTable::new(4);
    let mut handles = Vec::new();
    for i in 0..500u64 {
        let ans = fused_put(&mut t, bits(i.wrapping_mul(0x9E3779B1))).unwrap();
        assert_eq!(ans & 1, 1, "every key fresh");
        handles.push((ans >> 1) as i32);
    }
    assert!(t.cap() >= 500, "the sweep grew the map internally: {}", t.cap());
    assert_eq!(t.len(), 500);
    for (i, hd) in handles.iter().enumerate() {
        let key = (i as u64).wrapping_mul(0x9E3779B1);
        assert_eq!(fused_find(&t, &bits(key)).unwrap(), *hd, "key {i}");
    }
    let mut sorted = handles.clone();
    sorted.sort();
    for (i, hd) in sorted.iter().enumerate() {
        assert_eq!(*hd, i as i32);
    }
}

#[test]
fn hremove_answers_the_dead_handle_and_reinsert_is_a_new_birth() {
    let mut t = NativeTable::new(8);
    fused_put(&mut t, bits(7)).unwrap();
    fused_put(&mut t, bits(8)).unwrap();
    assert_eq!(fused_remove(&mut t, &bits(7)).unwrap().0, 0);
    assert_eq!(fused_remove(&mut t, &bits(7)).unwrap().0, -1);
    assert_eq!(fused_find(&t, &bits(7)).unwrap(), -1);
    let ans = fused_put(&mut t, bits(7)).unwrap();
    assert_eq!(ans, pack_answer(2, true));
    assert_eq!(fused_find(&t, &bits(8)).unwrap(), 1);
}

#[test]
fn the_sv_and_s_lanes_answer_one_handle() {
    let mut t = NativeTable::new(8);
    let parent = "xx-alpha-xx-beta-xx";
    let via_sv = fused_put_sv(&mut t, parent, 3, 5).unwrap();
    let via_s = fused_put_s(&mut t, "alpha").unwrap();
    assert_eq!(via_sv & 1, 1, "the sv put was the fresh birth");
    assert_eq!(via_s & 1, 0, "the s put found the sv key: a replace");
    assert_eq!(via_sv >> 1, via_s >> 1, "ONE key, ONE handle");
    assert_eq!(fused_find_s(&t, "alpha").unwrap(), fused_find_sv(&t, parent, 3, 5).unwrap());
    assert_eq!(fused_remove_sv(&mut t, parent, 3, 5).unwrap().0, (via_s >> 1) as i32);
    assert_eq!(fused_find_s(&t, "alpha").unwrap(), -1);
}

#[test]
fn bytes_and_bool_lanes_ride_the_fused_family() {
    let mut t = NativeTable::new(8);
    assert_eq!(fused_put(&mut t, KeyVal::Bytes(vec![1, 2, 3])).unwrap(), pack_answer(0, true));
    assert_eq!(fused_find(&t, &KeyVal::Bytes(vec![1, 2, 3])).unwrap(), 0);
    assert_eq!(fused_put(&mut t, KeyVal::Bytes(vec![1, 2, 3])).unwrap(), pack_answer(0, false));
    assert_eq!(fused_remove(&mut t, &KeyVal::Bytes(vec![1, 2, 3])).unwrap().0, 0);
    let mut b = NativeTable::new(8);
    assert_eq!(fused_put(&mut b, bits(1)).unwrap(), pack_answer(0, true), "bool true = bits 1");
    assert_eq!(fused_find(&b, &bits(1)).unwrap(), 0);
    assert_eq!(fused_remove(&mut b, &bits(1)).unwrap().0, 0);
    assert!(fused_put(&mut t, KeyVal::Str("s".into())).is_err());
}

#[test]
fn key_decoding_admits_the_closed_set_and_names_the_rest() {
    for (p, w) in [(PrimTy::I8, -5i64), (PrimTy::U16, 65_535), (PrimTy::U64, -1), (PrimTy::Bool, 1)] {
        match decode_key(TyTag::Prim(p), w, "", &[]).unwrap() {
            KeyVal::Bits(b) => assert_eq!(b, w as u64, "raw bits for {p:?}"),
            other => panic!("expected Bits, got {other:?}"),
        }
    }
    match decode_key(TyTag::Str, 0, "hello", &[]).unwrap() {
        KeyVal::Str(s) => assert_eq!(s, "hello"),
        other => panic!("expected Str, got {other:?}"),
    }
    match decode_key(TyTag::Bytes, 0, "", &[9, 8, 7]).unwrap() {
        KeyVal::Bytes(b) => assert_eq!(b, vec![9, 8, 7]),
        other => panic!("expected Bytes, got {other:?}"),
    }
    let t = decode_key(TyTag::Prim(PrimTy::F64), 0, "", &[]).unwrap_err();
    assert_eq!(t.kind, TrapKind::Invalid);
    assert_eq!(t.msg, "nmap: key type f64 is not in the closed key set (floats have no stable equality contract)");
    let t = decode_key(TyTag::Data, 0, "", &[]).unwrap_err();
    assert_eq!(t.msg, "nmap: key type a record is not in the closed key set (integer primitives, bool, str, bytes)");
    assert_eq!(ty_label(TyTag::Opt), "an optional");
    assert_eq!(ty_label(TyTag::Prim(PrimTy::U32)), "u32");
    assert!(matches!(decode_val(TyTag::Prim(PrimTy::F64), 7), ValSlot::Bits(7)));
    assert!(matches!(decode_val(TyTag::Str, 7), ValSlot::Ref(7)));
}

#[test]
fn the_typed_lanes_cross_their_keys_as_bits_or_octets() {
    let mut t = NativeTable::new(8);
    assert_eq!(fused_put(&mut t, key_of_i64(-1)).unwrap(), pack_answer(0, true));
    assert_eq!(fused_put(&mut t, bits(u64::MAX)).unwrap(), pack_answer(0, false), "-1 is the all-ones word");
    assert_eq!(fused_put(&mut t, key_of_bool(true)).unwrap(), pack_answer(1, true));
    assert_eq!(fused_find(&t, &bits(1)).unwrap(), 1, "true is the word 1");
    assert_eq!(fused_find(&t, &key_of_bool(false)).unwrap(), -1);
    let mut y = NativeTable::new(8);
    assert_eq!(fused_put(&mut y, key_of_bytes(&[1, 2])).unwrap(), pack_answer(0, true));
    assert_eq!(fused_find(&y, &KeyVal::Bytes(vec![1, 2])).unwrap(), 0);
}
