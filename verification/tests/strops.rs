use rut::acct::HeapAcct;
use rut::blocks::Blocks;
use rut::cell::{count_chars, PrimTy};
use rut::strheap::alloc_str_bytes;
use rut::strops::{
    builder_capacity, char_of_word, char_start_of, code_point_octets, concat_in_place, concat_octets, concat_route,
    render_member, render_prim,
    str_char_at, str_compare, str_slice, ConcatRoute,
};
use rut::trap::TrapKind;

#[test]
fn unsigned_widths_render_unsigned() {
    assert_eq!(render_prim(PrimTy::U8, -1), "255");
    assert_eq!(render_prim(PrimTy::U16, 65536 + 7), "7");
    assert_eq!(render_prim(PrimTy::U32, -1), "4294967295");
    assert_eq!(render_prim(PrimTy::U64, -1), "18446744073709551615");
    assert_eq!(render_prim(PrimTy::I64, -42), "-42");
    assert_eq!(render_prim(PrimTy::I8, 300), "300");
    assert_eq!(render_prim(PrimTy::I64, i64::MIN), "-9223372036854775808");
}

#[test]
fn bools_and_chars_render_as_themselves() {
    assert_eq!(render_prim(PrimTy::Bool, 1), "true");
    assert_eq!(render_prim(PrimTy::Bool, 0), "false");
    assert_eq!(render_prim(PrimTy::Char, 'é' as i64), "é");
    assert_eq!(render_prim(PrimTy::Char, 0xD800), "\0");
    assert_eq!(char_of_word(0x1F600, '?'), '😀');
    assert_eq!(char_of_word(0x110000, '\u{FFFD}'), '\u{FFFD}');
    assert_eq!(char_of_word((1i64 << 32) | 0x41, '?'), 'A');
}

#[test]
fn enums_render_by_member_name() {
    let names = vec!["Red".to_string(), "Green".to_string()];
    assert_eq!(render_member(&names, Some(1)).unwrap(), "Green");
    let e = render_member(&names, None).unwrap_err();
    assert_eq!(e.kind, TrapKind::Invalid);
    assert_eq!(e.msg, "render on non-enum");
}

#[test]
fn char_starts_are_octet_offsets() {
    let t = "aé😀b".as_bytes();
    assert_eq!(char_start_of(t, 0), 0);
    assert_eq!(char_start_of(t, 1), 1);
    assert_eq!(char_start_of(t, 2), 3);
    assert_eq!(char_start_of(t, 3), 7);
    assert_eq!(char_start_of(t, 4), 8);
    assert_eq!(char_start_of(t, 9), 8);
    assert_eq!(count_chars(t), 4);
}

#[test]
fn a_string_slice_counts_characters() {
    let t = "héllo".as_bytes();
    // chars 1..3 are "él": octets 1..4 of the text
    assert_eq!(str_slice(true, t, false, &vec![], Some(false), 1, 3).unwrap(), (1, 3, false));
    // a window at 10 of its root flattens onto the root
    assert_eq!(str_slice(true, t, false, &vec![10], Some(true), 1, 3).unwrap(), (11, 3, true));
    assert_eq!(str_slice(true, b"hello", true, &vec![], Some(true), 1, 4).unwrap(), (1, 3, true));
    assert_eq!(str_slice(true, t, false, &vec![], Some(false), 5, 5).unwrap(), (6, 0, false));
}

#[test]
fn a_string_slice_outside_the_characters_traps() {
    let t = "héllo".as_bytes();
    let e = str_slice(true, t, false, &vec![], Some(false), 2, 6).unwrap_err();
    assert_eq!(e.kind, TrapKind::IndexOutOfBounds);
    assert_eq!(e.msg, "slice 2..6 out of bounds (len 5)");
    let e = str_slice(true, t, false, &vec![], Some(false), -1, 2).unwrap_err();
    assert_eq!(e.msg, "slice -1..2 out of bounds (len 5)");
    let e = str_slice(false, t, false, &vec![], Some(false), 0, 1).unwrap_err();
    assert_eq!(e.kind, TrapKind::Invalid);
    assert_eq!(e.msg, "slice on non-string");
    let e = str_slice(true, t, false, &vec![], None, 0, 1).unwrap_err();
    assert_eq!(e.msg, "slice on non-string");
}

#[test]
fn indexing_a_string_answers_its_characters() {
    let t = "aé😀€".as_bytes();
    assert_eq!(str_char_at(t, false, 0).unwrap(), 'a');
    assert_eq!(str_char_at(t, false, 1).unwrap(), 'é');
    assert_eq!(str_char_at(t, false, 2).unwrap(), '😀');
    assert_eq!(str_char_at(t, false, 3).unwrap(), '€');
    let e = str_char_at(t, false, 4).unwrap_err();
    assert_eq!(e.kind, TrapKind::IndexOutOfBounds);
    assert_eq!(e.msg, "string index 4 out of bounds (4 chars)");
    let e = str_char_at(t, false, -1).unwrap_err();
    assert_eq!(e.msg, "string index -1 out of bounds (4 chars)");
    assert_eq!(str_char_at(b"hey", true, 2).unwrap(), 'y');
    let e = str_char_at(b"hey", true, 3).unwrap_err();
    assert_eq!(e.msg, "string index 3 out of bounds (3 bytes)");
}

#[test]
fn indexing_agrees_with_the_standard_decoder() {
    let s = "Grüße, 世界! 🦀 ½ x";
    let chars: Vec<char> = s.chars().collect();
    for (i, c) in chars.iter().enumerate() {
        assert_eq!(str_char_at(s.as_bytes(), false, i as i64).unwrap(), *c);
    }
}

#[test]
fn concatenation_copies_every_part_in_order() {
    let parts = vec![b"ab".to_vec(), vec![], "é".as_bytes().to_vec(), b"c".to_vec()];
    assert_eq!(concat_octets(&parts), "abéc".as_bytes());
    assert_eq!(concat_octets(&vec![]), Vec::<u8>::new());
}

#[test]
fn an_accumulator_grows_once_for_all_parts() {
    let mut acct = HeapAcct::new(None);
    let mut s = Blocks::new();
    let mut c = alloc_str_bytes(&mut acct, &mut s, b"0123456789").unwrap();
    assert_eq!(c.val.cap, 16);
    let parts = vec![b"abc".to_vec(), b"def".to_vec(), b"ghijk".to_vec()];
    concat_in_place(&mut acct, &mut s, &mut c, &parts).unwrap();
    assert_eq!(c.val.bytes(&s), b"0123456789abcdefghijk");
    assert_eq!(c.val.cap, 32, "one doubling covers all three parts");
    let used = acct.used_bytes();
    concat_in_place(&mut acct, &mut s, &mut c, &vec![b"xy".to_vec()]).unwrap();
    assert_eq!(acct.used_bytes(), used, "room already reserved: nothing charged");
    assert_eq!(c.val.bytes(&s), b"0123456789abcdefghijkxy");
}

#[test]
fn a_refused_growth_appends_nothing() {
    let mut acct = HeapAcct::new(Some(40));
    let mut s = Blocks::new();
    let mut c = alloc_str_bytes(&mut acct, &mut s, b"0123456789").unwrap();
    let e = concat_in_place(&mut acct, &mut s, &mut c, &vec![b"abcdefghij".to_vec()]).unwrap_err();
    assert_eq!(e.kind, TrapKind::OutOfMemory);
    assert_eq!(c.val.bytes(&s), b"0123456789");
}

#[test]
fn the_concat_route() {
    assert_eq!(concat_route(1, true, true, true, false), ConcatRoute::Alias);
    assert_eq!(concat_route(3, true, true, true, false), ConcatRoute::InPlace);
    assert_eq!(concat_route(3, true, true, true, true), ConcatRoute::Copy);
    assert_eq!(concat_route(3, true, false, true, false), ConcatRoute::Copy);
    assert_eq!(concat_route(3, true, true, false, false), ConcatRoute::Copy);
    assert_eq!(concat_route(2, false, true, true, false), ConcatRoute::Copy);
}

#[test]
fn a_slice_window_encodes_the_characters_between_its_bounds() {
    let s = "añb€c😀d";
    let t = s.as_bytes();
    let chars: Vec<char> = s.chars().collect();
    for from in 0..=chars.len() {
        for to in from..=chars.len() {
            let (off, len, _) = str_slice(true, t, false, &vec![], Some(false), from as i64, to as i64).unwrap();
            let want: String = chars[from..to].iter().collect();
            assert_eq!(&t[off as usize..(off + len) as usize], want.as_bytes(), "{from}..{to}");
        }
    }
}

#[test]
fn strings_compare_by_their_octets() {
    assert!(str_compare("héllo".as_bytes(), "héllo".as_bytes(), true));
    assert!(!str_compare("héllo".as_bytes(), "hello".as_bytes(), true));
    assert!(str_compare("héllo".as_bytes(), "hello".as_bytes(), false));
    assert!(!str_compare(b"ab", b"abc", true));
    assert!(str_compare(b"", b"", true));
    assert!(!str_compare(b"", b"", false));
}

#[test]
fn a_builder_capacity_is_never_negative() {
    assert_eq!(builder_capacity(0).unwrap(), 0);
    assert_eq!(builder_capacity(64).unwrap(), 64);
    let e = builder_capacity(-3).unwrap_err();
    assert_eq!(e.kind, TrapKind::Invalid);
    assert_eq!(e.msg, "StrBuf(cap): capacity must be >= 0, got -3");
}

#[test]
fn push_code_appends_one_character() {
    assert_eq!(code_point_octets(0x41), b"A");
    assert_eq!(code_point_octets(0x20AC), "€".as_bytes());
    assert_eq!(code_point_octets(0xD800), "\u{FFFD}".as_bytes(), "a surrogate mints U+FFFD");
    assert_eq!(code_point_octets(0x110000), "\u{FFFD}".as_bytes());
    assert_eq!(code_point_octets(-1), "\u{FFFD}".as_bytes());
}
