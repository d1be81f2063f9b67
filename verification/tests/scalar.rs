use rut::boundary::{expect_kind, narrow_i64, DeclKind};
use rut::cell::PrimTy;
use rut::scalar::{arith_int, bitop_int, compare_int, convert_int, fits, neg_int, trunc_to, BitOp, CompareOp, IntOp};
use rut::trap::TrapKind;

const OVERFLOW_TEXT: &str = "arithmetic overflow — use the &+ &- &* wrapping forms";

#[test]
fn checked_arithmetic_traps_outside_the_operand_type() {
    assert_eq!(arith_int(IntOp::Add, false, PrimTy::I8, 100, 27).unwrap(), 127);
    let t = arith_int(IntOp::Add, false, PrimTy::I8, 100, 28).unwrap_err();
    assert_eq!(t.kind, TrapKind::Overflow);
    assert_eq!(t.msg, OVERFLOW_TEXT);
    assert_eq!(arith_int(IntOp::Sub, false, PrimTy::U8, 0, 1).unwrap_err().kind, TrapKind::Overflow);
    assert_eq!(arith_int(IntOp::Mul, false, PrimTy::I64, i64::MAX, 2).unwrap_err().kind, TrapKind::Overflow);
    assert_eq!(arith_int(IntOp::Add, false, PrimTy::I64, i64::MAX, 1).unwrap_err().msg, OVERFLOW_TEXT);
    assert_eq!(arith_int(IntOp::Mul, false, PrimTy::I32, -46341, 46341).unwrap_err().kind, TrapKind::Overflow);
    assert_eq!(arith_int(IntOp::Mul, false, PrimTy::I32, -46340, 46340).unwrap(), -2147395600);
}

#[test]
fn wrapping_arithmetic_truncates_to_the_width() {
    assert_eq!(arith_int(IntOp::Add, true, PrimTy::I8, 100, 100).unwrap(), -56);
    assert_eq!(arith_int(IntOp::Add, true, PrimTy::U8, 255, 1).unwrap(), 0);
    assert_eq!(arith_int(IntOp::Sub, true, PrimTy::U16, 0, 1).unwrap(), 65535);
    assert_eq!(arith_int(IntOp::Add, true, PrimTy::I64, i64::MAX, 1).unwrap(), i64::MIN);
    assert_eq!(arith_int(IntOp::Mul, true, PrimTy::U32, 0x10000, 0x10000).unwrap(), 0);
}

#[test]
fn division_truncates_toward_zero_and_traps_on_zero() {
    assert_eq!(arith_int(IntOp::Div, false, PrimTy::I64, -7, 2).unwrap(), -3);
    assert_eq!(arith_int(IntOp::Mod, false, PrimTy::I64, -7, 3).unwrap(), -1);
    assert_eq!(arith_int(IntOp::Mod, false, PrimTy::I64, 7, -3).unwrap(), 1);
    let t = arith_int(IntOp::Div, true, PrimTy::I32, 1, 0).unwrap_err();
    assert_eq!((t.kind, t.msg.as_str()), (TrapKind::DivByZero, "division by zero"));
    let t = arith_int(IntOp::Mod, false, PrimTy::U8, 1, 0).unwrap_err();
    assert_eq!((t.kind, t.msg.as_str()), (TrapKind::DivByZero, "mod by zero"));
}

#[test]
fn unsigned_words_divide_and_compare_as_unsigned() {
    // the u64 word 2^64 - 1 is stored as -1
    assert_eq!(arith_int(IntOp::Div, false, PrimTy::U64, -1, 2).unwrap(), i64::MAX);
    assert_eq!(arith_int(IntOp::Mod, false, PrimTy::U64, -1, 10).unwrap(), 5);
    assert!(compare_int(CompareOp::Gt, PrimTy::U64, -1, 1));
    assert!(compare_int(CompareOp::Lt, PrimTy::I64, -1, 1));
    assert!(compare_int(CompareOp::Eq, PrimTy::U64, 5, 5));
    assert!(compare_int(CompareOp::Ne, PrimTy::I8, 5, 6));
    assert!(compare_int(CompareOp::Le, PrimTy::U32, 3, 3));
    assert!(!compare_int(CompareOp::Ge, PrimTy::I32, -3, 3));
}

#[test]
fn bit_operations_check_the_range_except_the_wrapping_shift() {
    assert_eq!(bitop_int(BitOp::And, PrimTy::U8, 0xf0, 0x3c).unwrap(), 0x30);
    assert_eq!(bitop_int(BitOp::Or, PrimTy::U8, 0xf0, 0x0f).unwrap(), 0xff);
    assert_eq!(bitop_int(BitOp::Xor, PrimTy::I64, -1, 0).unwrap(), -1);
    let t = bitop_int(BitOp::Shl, PrimTy::U8, 0x80, 1).unwrap_err();
    assert_eq!((t.kind, t.msg.as_str()), (TrapKind::Overflow, "bit op out of range"));
    assert_eq!(bitop_int(BitOp::WrapShl, PrimTy::U8, 0x81, 1).unwrap(), 2);
    assert_eq!(bitop_int(BitOp::Shr, PrimTy::U64, -1, 60).unwrap(), 15, "logical on unsigned");
    assert_eq!(bitop_int(BitOp::Shr, PrimTy::I64, -16, 2).unwrap(), -4, "arithmetic on signed");
    assert_eq!(bitop_int(BitOp::Shl, PrimTy::I64, 1, 65).unwrap(), 2, "shift amounts wrap at 64");
}

#[test]
fn negation_and_conversion() {
    assert_eq!(neg_int(PrimTy::I8, -127).unwrap(), 127);
    assert_eq!(neg_int(PrimTy::I8, -128).unwrap_err().msg, "negate overflow");
    assert_eq!(neg_int(PrimTy::I64, i64::MIN).unwrap_err().kind, TrapKind::Overflow);
    assert_eq!(convert_int(200, PrimTy::I32, PrimTy::U8).unwrap(), 200);
    let t = convert_int(300, PrimTy::I32, PrimTy::U8).unwrap_err();
    assert_eq!(t.kind, TrapKind::Overflow);
    assert_eq!(t.msg, "narrowing conversion i32 -> u8 loses the value");
    assert_eq!(convert_int(-1, PrimTy::I64, PrimTy::U32).unwrap_err().msg, "narrowing conversion i64 -> u32 loses the value");
}

#[test]
fn truncation_and_fit() {
    assert_eq!(trunc_to(0x1ff, PrimTy::U8), 0xff);
    assert_eq!(trunc_to(0x80, PrimTy::I8), -128);
    assert_eq!(trunc_to(-1, PrimTy::U16), 65535);
    assert_eq!(trunc_to(-1, PrimTy::I64), -1);
    assert!(fits(255, PrimTy::U8));
    assert!(!fits(256, PrimTy::U8));
    assert!(fits(-1, PrimTy::U64), "a u64 word is any bit pattern");
    assert!(fits(trunc_to(123456789, PrimTy::I16), PrimTy::I16));
}

#[test]
fn the_boundary_narrows_or_names_both_sides() {
    assert_eq!(narrow_i64(255, PrimTy::U8).unwrap(), 255);
    let t = narrow_i64(300, PrimTy::U8).unwrap_err();
    assert_eq!(t.kind, TrapKind::Invalid);
    assert_eq!(t.msg, "boundary: `300` does not fit `u8`");
    assert_eq!(narrow_i64(-1, PrimTy::U64).unwrap_err().msg, "boundary: `-1` does not fit `u64`");
    assert_eq!(narrow_i64(-129, PrimTy::I8).unwrap_err().msg, "boundary: `-129` does not fit `i8`");
    assert_eq!(narrow_i64(i64::MIN, PrimTy::I64).unwrap(), i64::MIN);
    assert_eq!(narrow_i64(4_000_000_000, PrimTy::U32).unwrap(), 4_000_000_000);
    assert!(narrow_i64(4_294_967_296, PrimTy::U32).is_err());
}

#[test]
fn the_kind_check_names_both_sides() {
    assert!(expect_kind(DeclKind::Prim(PrimTy::U8), "u8", false, "u8").is_ok());
    let t = expect_kind(DeclKind::Prim(PrimTy::U8), "u8", false, "i64").unwrap_err();
    assert_eq!(t.kind, TrapKind::Invalid);
    assert_eq!(t.msg, "boundary: got `u8` where `i64` binds: kind mismatch");
    let t = expect_kind(DeclKind::Str, "str", true, "String").unwrap_err();
    assert_eq!(t.msg, "boundary: got `str` where `String` binds: nil does not bind a reference type");
    assert!(expect_kind(DeclKind::Str, "str", false, "&str").is_ok());
    assert!(expect_kind(DeclKind::Bytes, "bytes", false, "&[u8]").is_ok());
    assert!(expect_kind(DeclKind::Opaque, "opaque", false, "OpaqueRef").is_ok());
    assert!(expect_kind(DeclKind::Data, "(i64, str)", false, "(i64, String)").is_ok());
    assert!(expect_kind(DeclKind::Nil, "nil", true, "()").is_ok(), "a nil slot binds nil");
    assert!(expect_kind(DeclKind::Prim(PrimTy::I32), "i32", true, "i32").is_ok(), "and a primitive");
    assert!(expect_kind(DeclKind::Prim(PrimTy::Char), "char", false, "char").is_err());
    assert!(expect_kind(DeclKind::Other, "[i64]", false, "Vec<i64>").is_err());
}
