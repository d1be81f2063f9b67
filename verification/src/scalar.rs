//! Integer scalar semantics of the interpreter: checked and wrapping
//! arithmetic, bit operations, comparisons, negation, and integer
//! conversions, each on the untagged 64-bit slot word under the operand's
//! primitive type.
use vstd::prelude::*;
use crate::trap::{Trap, TrapKind};
use crate::cell::{PrimTy, prim_is_unsigned, prim_is_float, prim_name};
use crate::boundary::int_fits;
use crate::text::push_str;
use vstd::wrapping::i64_specs as wi;

verus! {

/// The slot word truncated to the width of `p` (sign- or zero-extended
/// back to 64 bits); 64-bit and non-integer types keep the word.
pub open spec fn trunc_spec(v: i64, p: PrimTy) -> i64 {
    match p {
        PrimTy::U8 => (v as u8) as i64,
        PrimTy::U16 => (v as u16) as i64,
        PrimTy::U32 => (v as u32) as i64,
        PrimTy::I8 => (v as i8) as i64,
        PrimTy::I16 => (v as i16) as i64,
        PrimTy::I32 => (v as i32) as i64,
        _ => v,
    }
}

/// The word is already a value of `p`.
pub open spec fn fits_spec(v: i64, p: PrimTy) -> bool {
    trunc_spec(v, p) == v
}

/// Truncates the slot word to the width of `p`.
pub fn trunc_to(v: i64, p: PrimTy) -> (r: i64)
    ensures
        r == trunc_spec(v, p),
{
    match p {
        PrimTy::U8 => (v as u8) as i64,
        PrimTy::U16 => (v as u16) as i64,
        PrimTy::U32 => (v as u32) as i64,
        PrimTy::I8 => (v as i8) as i64,
        PrimTy::I16 => (v as i16) as i64,
        PrimTy::I32 => (v as i32) as i64,
        _ => v,
    }
}

/// Whether the word is already a value of `p`.
pub fn fits(v: i64, p: PrimTy) -> (b: bool)
    ensures
        b == fits_spec(v, p),
{
    trunc_to(v, p) == v
}

/// A word fits an integer type exactly when it lies in that type's
/// range (for `u64`, the word's bits are the value: every word fits).
pub proof fn lemma_fits_is_the_range(v: i64, p: PrimTy)
    ensures
        p != PrimTy::U64 && p != PrimTy::I64 && crate::cell::prim_is_int(p) ==> (fits_spec(v, p)
            <==> int_fits(v as int, p)),
        p == PrimTy::U64 || p == PrimTy::I64 ==> fits_spec(v, p),
{
    assert(((v as u8) as i64 == v) <==> (0 <= v <= 255)) by (bit_vector);
    assert(((v as u16) as i64 == v) <==> (0 <= v <= 65535)) by (bit_vector);
    assert(((v as u32) as i64 == v) <==> (0 <= v <= 0xffff_ffff)) by (bit_vector);
    assert(((v as i8) as i64 == v) <==> (-128 <= v <= 127)) by (bit_vector);
    assert(((v as i16) as i64 == v) <==> (-32768 <= v <= 32767)) by (bit_vector);
    assert(((v as i32) as i64 == v) <==> (-0x8000_0000 <= v <= 0x7fff_ffff)) by (bit_vector);
}

/// Truncation is idempotent: a truncated word fits its type.
pub proof fn lemma_trunc_fits(v: i64, p: PrimTy)
    ensures
        fits_spec(trunc_spec(v, p), p),
{
    assert((((v as u8) as i64) as u8) as i64 == (v as u8) as i64) by (bit_vector);
    assert((((v as u16) as i64) as u16) as i64 == (v as u16) as i64) by (bit_vector);
    assert((((v as u32) as i64) as u32) as i64 == (v as u32) as i64) by (bit_vector);
    assert((((v as i8) as i64) as i8) as i64 == (v as i8) as i64) by (bit_vector);
    assert((((v as i16) as i64) as i16) as i64 == (v as i16) as i64) by (bit_vector);
    assert((((v as i32) as i64) as i32) as i64 == (v as i32) as i64) by (bit_vector);
}

/// The integer arithmetic operations.
#[derive(Clone, Copy, Debug, PartialEq, Eq, Structural)]
pub enum IntOp {
    Add,
    Sub,
    Mul,
    Div,
    Mod,
}

/// Rust's integer division, truncating toward zero (`/` here is
/// Euclidean division, which agrees for a non-negative dividend).
pub open spec fn div_trunc(a: int, b: int) -> int {
    if a >= 0 {
        a / b
    } else {
        -((-a) / b)
    }
}

/// Rust's integer remainder: it takes the dividend's sign.
pub open spec fn rem_trunc(a: int, b: int) -> int {
    if a >= 0 {
        a % b
    } else {
        -((-a) % b)
    }
}

/// The mathematical result of `op` on the words (unsigned types divide
/// the words as unsigned numbers).
pub open spec fn exact_result(op: IntOp, unsigned: bool, a: i64, b: i64) -> int {
    match op {
        IntOp::Add => a + b,
        IntOp::Sub => a - b,
        IntOp::Mul => a * b,
        IntOp::Div => if unsigned {
            (a as u64) as int / (b as u64) as int
        } else {
            div_trunc(a as int, b as int)
        },
        IntOp::Mod => if unsigned {
            (a as u64) as int % (b as u64) as int
        } else {
            rem_trunc(a as int, b as int)
        },
    }
}

/// The 64-bit word `op` produces, and whether the 64-bit operation
/// overflowed (division never flags: an unsigned quotient is its word).
pub open spec fn raw_result(op: IntOp, unsigned: bool, a: i64, b: i64) -> (i64, bool) {
    match op {
        IntOp::Add => (wi::wrapping_add(a, b), !(i64::MIN <= a + b <= i64::MAX)),
        IntOp::Sub => (wi::wrapping_sub(a, b), !(i64::MIN <= a - b <= i64::MAX)),
        IntOp::Mul => (wi::wrapping_mul(a, b), !(i64::MIN <= a * b <= i64::MAX)),
        _ => (exact_result(op, unsigned, a, b) as i64, false),
    }
}

/// Integer arithmetic under the operand type `p`: division by zero traps;
/// the checked form (`wrap == false`) traps `Overflow` when the 64-bit
/// operation overflows or the result leaves `p`'s range; the wrapping
/// form truncates to `p`'s width instead.
pub fn arith_int(op: IntOp, wrap: bool, p: PrimTy, a: i64, b: i64) -> (r: Result<i64, Trap>)
    requires
        (op == IntOp::Div || op == IntOp::Mod) && !prim_is_unsigned(p) ==> !(a == i64::MIN && b == -1),
    ensures
        arith_outcome(op, wrap, p, a, b, r),
{
    let unsigned = p.is_unsigned();
    let (x, o): (i64, bool) = match op {
        IntOp::Add => match a.checked_add(b) {
            Some(x) => (x, false),
            None => (a.wrapping_add(b), true),
        },
        IntOp::Sub => match a.checked_sub(b) {
            Some(x) => (x, false),
            None => (a.wrapping_sub(b), true),
        },
        IntOp::Mul => match a.checked_mul(b) {
            Some(x) => (x, false),
            None => (a.wrapping_mul(b), true),
        },
        IntOp::Div => {
            if b == 0 {
                return Err(Trap::new(TrapKind::DivByZero, "division by zero".to_owned()));
            }
            if unsigned {
                assert(b as u64 != 0) by (bit_vector)
                    requires
                        b != 0,
                ;
                (#[verifier::truncate] (((a as u64) / (b as u64)) as i64), false)
            } else {
                (a / b, false)
            }
        },
        IntOp::Mod => {
            if b == 0 {
                return Err(Trap::new(TrapKind::DivByZero, "mod by zero".to_owned()));
            }
            if unsigned {
                assert(b as u64 != 0) by (bit_vector)
                    requires
                        b != 0,
                ;
                (#[verifier::truncate] (((a as u64) % (b as u64)) as i64), false)
            } else {
                (a % b, false)
            }
        },
    };
    assert(op == IntOp::Add ==> (x, o) == raw_result(op, unsigned, a, b));
    assert(op == IntOp::Sub ==> (x, o) == raw_result(op, unsigned, a, b));
    assert(op == IntOp::Mul ==> (x, o) == raw_result(op, unsigned, a, b));
    assert(op == IntOp::Div && unsigned ==> (x, o) == raw_result(op, unsigned, a, b));
    assert(op == IntOp::Div && !unsigned ==> (x, o) == raw_result(op, unsigned, a, b));
    assert(op == IntOp::Mod && unsigned ==> (x, o) == raw_result(op, unsigned, a, b));
    assert(op == IntOp::Mod && !unsigned ==> (x, o) == raw_result(op, unsigned, a, b));
    if !wrap && (o || !fits(x, p)) {
        return Err(
            Trap::new(
                TrapKind::Overflow,
                "arithmetic overflow — use the &+ &- &* wrapping forms".to_owned(),
            ),
        );
    }
    Ok(trunc_to(x, p))
}

/// What `arith_int` answers.
pub open spec fn arith_outcome(op: IntOp, wrap: bool, p: PrimTy, a: i64, b: i64, r: Result<i64, Trap>) -> bool {
    if (op == IntOp::Div || op == IntOp::Mod) && b == 0 {
        r matches Err(t) && t.kind == TrapKind::DivByZero && t.msg@ == (if op == IntOp::Div {
            "division by zero"@
        } else {
            "mod by zero"@
        })
    } else {
        let (x, o) = raw_result(op, prim_is_unsigned(p), a, b);
        if !wrap && (o || !fits_spec(x, p)) {
            r matches Err(t) && t.kind == TrapKind::Overflow && t.msg@
                == "arithmetic overflow — use the &+ &- &* wrapping forms"@
        } else {
            r == Ok::<i64, Trap>(trunc_spec(x, p))
        }
    }
}


/// What `bitop_int` answers: the wrapping shift truncates to `p`'s
/// width; any other result outside `p`'s range traps `Overflow`.
pub open spec fn bitop_outcome(op: BitOp, p: PrimTy, a: i64, b: i64, r: Result<i64, Trap>) -> bool {
    let x = bit_raw(op, prim_is_unsigned(p), a, b);
    if op == BitOp::WrapShl {
        r == Ok::<i64, Trap>(trunc_spec(x, p))
    } else if !fits_spec(x, p) {
        r matches Err(t) && t.kind == TrapKind::Overflow && t.msg@ == "bit op out of range"@
    } else {
        r == Ok::<i64, Trap>(x)
    }
}

/// What `neg_int` answers: the negation, or `Overflow` when it leaves the
/// 64-bit word or `p`'s range.
pub open spec fn neg_outcome(p: PrimTy, a: i64, r: Result<i64, Trap>) -> bool {
    if a == i64::MIN || !fits_spec((-a) as i64, p) {
        r matches Err(t) && t.kind == TrapKind::Overflow && t.msg@ == "negate overflow"@
    } else {
        r == Ok::<i64, Trap>((-a) as i64)
    }
}

/// What `convert_int` answers: the word itself when it is a value of the
/// target type, else `Overflow`.
pub open spec fn conv_outcome(v: i64, from: PrimTy, to: PrimTy, r: Result<i64, Trap>) -> bool {
    if fits_spec(v, to) {
        r == Ok::<i64, Trap>(v)
    } else {
        r matches Err(t) && t.kind == TrapKind::Overflow && t.msg@ == narrowing_text(from, to)
    }
}

/// The integer bit operations.
#[derive(Clone, Copy, Debug, PartialEq, Eq, Structural)]
pub enum BitOp {
    And,
    Or,
    Xor,
    Shl,
    Shr,
    /// the wrapping shift: shifted-out bits are gone, never a trap
    WrapShl,
}

/// The word a bit operation produces before the range check (shift
/// amounts are taken modulo 64; `>>` is logical on unsigned types and
/// arithmetic on signed ones).
pub open spec fn bit_raw(op: BitOp, unsigned: bool, a: i64, b: i64) -> i64 {
    let n = (b & 63) as u32;
    match op {
        BitOp::And => a & b,
        BitOp::Or => a | b,
        BitOp::Xor => a ^ b,
        BitOp::Shl => wi::wrapping_shl(a, n),
        BitOp::Shr => if unsigned {
            ((a as u64) >> n) as i64
        } else {
            a >> n
        },
        BitOp::WrapShl => wi::wrapping_shl(a, n),
    }
}

/// Integer bit operations under the operand type `p`: the wrapping shift
/// truncates to `p`'s width; every other result that leaves `p`'s range
/// traps `Overflow`.
pub fn bitop_int(op: BitOp, p: PrimTy, a: i64, b: i64) -> (r: Result<i64, Trap>)
    ensures
        bitop_outcome(op, p, a, b, r),
{
    let n = (b & 63) as u32;
    assert(n < 64) by (bit_vector)
        requires
            n == (b & 63) as u32,
    ;
    let x = match op {
        BitOp::And => a & b,
        BitOp::Or => a | b,
        BitOp::Xor => a ^ b,
        BitOp::Shl => a.wrapping_shl(n),
        BitOp::Shr => {
            if p.is_unsigned() {
                #[verifier::truncate]
                (((a as u64) >> n) as i64)
            } else {
                a >> n
            }
        },
        BitOp::WrapShl => {
            return Ok(trunc_to(a.wrapping_shl(n), p));
        },
    };
    if !fits(x, p) {
        return Err(Trap::new(TrapKind::Overflow, "bit op out of range".to_owned()));
    }
    Ok(x)
}

/// The integer comparisons.
#[derive(Clone, Copy, Debug, PartialEq, Eq, Structural)]
pub enum CompareOp {
    Eq,
    Ne,
    Lt,
    Gt,
    Le,
    Ge,
}

/// An ordering comparison of two numbers.
pub open spec fn ordered(op: CompareOp, x: int, y: int) -> bool {
    match op {
        CompareOp::Eq => x == y,
        CompareOp::Ne => x != y,
        CompareOp::Lt => x < y,
        CompareOp::Gt => x > y,
        CompareOp::Le => x <= y,
        CompareOp::Ge => x >= y,
    }
}

/// What an integer comparison answers: unsigned types order their words
/// as unsigned numbers, signed ones as signed.
pub open spec fn int_compare(op: CompareOp, p: PrimTy, a: i64, b: i64) -> bool {
    if prim_is_unsigned(p) {
        ordered(op, (a as u64) as int, (b as u64) as int)
    } else {
        ordered(op, a as int, b as int)
    }
}

/// Integer comparison: unsigned types order their words as unsigned
/// numbers, signed ones as signed.
pub fn compare_int(op: CompareOp, p: PrimTy, a: i64, b: i64) -> (r: bool)
    ensures
        r == int_compare(op, p, a, b),
{
    match op {
        CompareOp::Eq => {
            assert((a == b) == ((a as u64) == (b as u64))) by (bit_vector);
            a == b
        },
        CompareOp::Ne => {
            assert((a == b) == ((a as u64) == (b as u64))) by (bit_vector);
            a != b
        },
        _ => {
            if p.is_unsigned() {
                let (x, y) = (a as u64, b as u64);
                match op {
                    CompareOp::Lt => x < y,
                    CompareOp::Gt => x > y,
                    CompareOp::Le => x <= y,
                    _ => x >= y,
                }
            } else {
                match op {
                    CompareOp::Lt => a < b,
                    CompareOp::Gt => a > b,
                    CompareOp::Le => a <= b,
                    _ => a >= b,
                }
            }
        },
    }
}

/// Integer negation under `p`: traps `Overflow` when the 64-bit negation
/// overflows or the result leaves `p`'s range.
pub fn neg_int(p: PrimTy, a: i64) -> (r: Result<i64, Trap>)
    ensures
        neg_outcome(p, a, r),
{
    if a == i64::MIN {
        return Err(Trap::new(TrapKind::Overflow, "negate overflow".to_owned()));
    }
    let x = -a;
    if !fits(x, p) {
        return Err(Trap::new(TrapKind::Overflow, "negate overflow".to_owned()));
    }
    Ok(x)
}

/// The trap text for a lossy integer conversion.
pub open spec fn narrowing_text(from: PrimTy, to: PrimTy) -> Seq<char> {
    "narrowing conversion "@ + prim_name(from) + " -> "@ + prim_name(to) + " loses the value"@
}

/// Explicit conversion between non-float primitives: the word itself when
/// it is a value of the target type, else an `Overflow` trap.
pub fn convert_int(v: i64, from: PrimTy, to: PrimTy) -> (r: Result<i64, Trap>)
    requires
        !prim_is_float(from),
        !prim_is_float(to),
    ensures
        conv_outcome(v, from, to, r),
{
    if !fits(v, to) {
        let mut m = String::new();
        push_str(&mut m, "narrowing conversion ");
        push_str(&mut m, from.name());
        push_str(&mut m, " -> ");
        push_str(&mut m, to.name());
        push_str(&mut m, " loses the value");
        return Err(Trap::new(TrapKind::Overflow, m));
    }
    Ok(v)
}

/// A checked operation that succeeds answers the exact mathematical
/// result, and it lies in the operand type's range.
pub proof fn law_checked_arith_is_exact(op: IntOp, p: PrimTy, a: i64, b: i64, v: i64)
    requires
        op == IntOp::Add || op == IntOp::Sub || op == IntOp::Mul,
        p != PrimTy::U64,
        crate::cell::prim_is_int(p),
        arith_outcome(op, false, p, a, b, Ok(v)),
    ensures
        v == exact_result(op, prim_is_unsigned(p), a, b),
        int_fits(v as int, p),
{
    let (x, o) = raw_result(op, prim_is_unsigned(p), a, b);
    lemma_fits_is_the_range(x, p);
}

/// Every integer result is a value of its operand type, checked or
/// wrapping.
pub proof fn law_results_fit_their_type(op: IntOp, wrap: bool, p: PrimTy, a: i64, b: i64, v: i64)
    requires
        arith_outcome(op, wrap, p, a, b, Ok(v)),
    ensures
        fits_spec(v, p),
{
    let (x, o) = raw_result(op, prim_is_unsigned(p), a, b);
    lemma_trunc_fits(x, p);
}

/// The wrapping forms never trap, except on division by zero.
pub proof fn law_wrapping_never_overflows(op: IntOp, p: PrimTy, a: i64, b: i64, r: Result<i64, Trap>)
    requires
        arith_outcome(op, true, p, a, b, r),
        !((op == IntOp::Div || op == IntOp::Mod) && b == 0),
    ensures
        r is Ok,
{
}

/// The six comparisons are one order, read two ways: `>=` is not `<`,
/// `<=` is not `>`, `!=` is not `==`; `>` and `<=` are `<` and `>=` with
/// the operands swapped; `==` is equality of the words; every word is
/// `>=` and `<=` itself and neither `<` nor `>` itself; and `<` is the
/// order of the words as signed numbers for a signed type, as unsigned
/// numbers for an unsigned one.
pub proof fn law_comparisons_are_one_order(p: PrimTy, a: i64, b: i64)
    ensures
        int_compare(CompareOp::Ge, p, a, b) == !int_compare(CompareOp::Lt, p, a, b),
        int_compare(CompareOp::Le, p, a, b) == !int_compare(CompareOp::Gt, p, a, b),
        int_compare(CompareOp::Ne, p, a, b) == !int_compare(CompareOp::Eq, p, a, b),
        int_compare(CompareOp::Gt, p, a, b) == int_compare(CompareOp::Lt, p, b, a),
        int_compare(CompareOp::Le, p, a, b) == int_compare(CompareOp::Ge, p, b, a),
        int_compare(CompareOp::Eq, p, a, b) == (a == b),
        int_compare(CompareOp::Ge, p, a, a),
        int_compare(CompareOp::Le, p, a, a),
        !int_compare(CompareOp::Lt, p, a, a),
        !int_compare(CompareOp::Gt, p, a, a),
        !prim_is_unsigned(p) ==> int_compare(CompareOp::Lt, p, a, b) == (a < b),
        prim_is_unsigned(p) ==> int_compare(CompareOp::Lt, p, a, b) == ((a as u64) < (b as u64)),
{
    assert((a == b) == ((a as u64) == (b as u64))) by (bit_vector);
}

/// Checked division and remainder on a signed type are one division: a
/// divisor of zero traps both; otherwise the quotient and the remainder
/// rebuild the dividend (`a == q * b + m`), the remainder is smaller than
/// the divisor in size, and it is zero or has the dividend's sign (the
/// quotient rounds toward zero).
pub proof fn law_division_rebuilds_the_dividend(p: PrimTy, a: i64, b: i64, q: i64, m: i64)
    requires
        !prim_is_unsigned(p),
        !(a == i64::MIN && b == -1),
        arith_outcome(IntOp::Div, false, p, a, b, Ok(q)),
        arith_outcome(IntOp::Mod, false, p, a, b, Ok(m)),
    ensures
        b != 0,
        a == q * b + m,
        -b < m < b || b < m < -b,
        m == 0 || (m < 0) == (a < 0),
{
    let ai = a as int;
    let bi = b as int;
    if ai >= 0 {
        vstd::arithmetic::div_mod::lemma_fundamental_div_mod(ai, bi);
        assert(0 <= ai % bi < if bi > 0 { bi } else { -bi }) by (nonlinear_arith)
            requires
                bi != 0,
        ;
        assert(bi * (ai / bi) == (ai / bi) * bi) by (nonlinear_arith);
        assert(-ai <= ai / bi <= ai) by (nonlinear_arith)
            requires
                ai >= 0,
                bi != 0,
        ;
        assert((ai / bi) as i64 == ai / bi);
    } else {
        let na = -ai;
        vstd::arithmetic::div_mod::lemma_fundamental_div_mod(na, bi);
        assert(0 <= na % bi < if bi > 0 { bi } else { -bi }) by (nonlinear_arith)
            requires
                bi != 0,
        ;
        assert(bi * (na / bi) == (na / bi) * bi) by (nonlinear_arith);
        assert((-(na / bi)) * bi == -((na / bi) * bi)) by (nonlinear_arith);
        assert(-na <= na / bi <= na) by (nonlinear_arith)
            requires
                na > 0,
                bi != 0,
        ;
        if bi == -1 {
            assert(na / bi == -na) by (nonlinear_arith)
                requires
                    bi == -1,
            ;
        } else if bi < -1 {
            assert(-na < na / bi <= 0) by (nonlinear_arith)
                requires
                    na > 0,
                    bi < -1,
            ;
        }
        assert((-(na / bi)) as i64 == -(na / bi));
    }
}

/// Negation and conversion keep the value: a negation that succeeds
/// answers the exact negative, the most negative word never negates, and
/// on a type narrower than 64 bits a negation or a conversion succeeds
/// exactly when its result lies in the type's range; a conversion that
/// succeeds answers the word unchanged.
pub proof fn law_negation_and_conversion_keep_the_value(
    p: PrimTy,
    a: i64,
    r: Result<i64, Trap>,
    from: PrimTy,
    c: Result<i64, Trap>,
)
    ensures
        neg_outcome(p, a, r) ==> (r matches Ok(v) ==> v == -a) && (a == i64::MIN ==> r is Err),
        neg_outcome(p, a, r) && p != PrimTy::U64 && p != PrimTy::I64 && crate::cell::prim_is_int(p) ==> (r is Ok
            <==> (a != i64::MIN && int_fits(-a, p))),
        conv_outcome(a, from, p, c) ==> (c matches Ok(v) ==> v == a),
        conv_outcome(a, from, p, c) && p != PrimTy::U64 && p != PrimTy::I64 && crate::cell::prim_is_int(p) ==> (c is Ok
            <==> int_fits(a as int, p)),
        conv_outcome(a, from, p, c) && (p == PrimTy::U64 || p == PrimTy::I64) ==> c == Ok::<i64, Trap>(a),
{
    lemma_fits_is_the_range(a, p);
    if a != i64::MIN {
        lemma_fits_is_the_range((-a) as i64, p);
    }
}

/// The bit operations on words: `&`, `|` and `^` answer the words' bitwise
/// and, or and xor whenever they succeed (always, on 64-bit types), and
/// the wrapping shift never traps.
pub proof fn law_bit_ops_are_bitwise(op: BitOp, p: PrimTy, a: i64, b: i64, r: Result<i64, Trap>)
    requires
        bitop_outcome(op, p, a, b, r),
    ensures
        op == BitOp::And ==> (r matches Ok(v) ==> v == a & b),
        op == BitOp::Or ==> (r matches Ok(v) ==> v == a | b),
        op == BitOp::Xor ==> (r matches Ok(v) ==> v == a ^ b),
        (op == BitOp::And || op == BitOp::Or || op == BitOp::Xor) && (p == PrimTy::U64 || p == PrimTy::I64) ==> r is Ok,
        op == BitOp::WrapShl ==> r is Ok,
{
    lemma_fits_is_the_range(bit_raw(op, prim_is_unsigned(p), a, b), p);
}

/// The wrapping forms agree with the checked ones whenever the exact
/// result is a value of the type: a wrapping sum, difference or product
/// whose exact value lies in the type's range answers that value.
pub proof fn law_wrapping_agrees_in_range(op: IntOp, p: PrimTy, a: i64, b: i64, v: i64)
    requires
        op == IntOp::Add || op == IntOp::Sub || op == IntOp::Mul,
        crate::cell::prim_is_int(p),
        p != PrimTy::U64,
        arith_outcome(op, true, p, a, b, Ok(v)),
        int_fits(exact_result(op, prim_is_unsigned(p), a, b), p),
    ensures
        v == exact_result(op, prim_is_unsigned(p), a, b),
{
    let (x, o) = raw_result(op, prim_is_unsigned(p), a, b);
    assert(x == exact_result(op, prim_is_unsigned(p), a, b));
    lemma_fits_is_the_range(x, p);
}

} // verus!
