//! The match interpreter's step for the frame-local ops: moves, raw
//! constants, integer arithmetic, bit operations, comparisons, negation
//! and conversions, reference moves, reference identity, jumps, branches
//! and unlabelled assertions. A word result lands in its destination
//! register; a trap leaves the frame as it was. A reference move retains
//! the moved cell and releases the one the destination held.
use vstd::prelude::*;
use vstd::multiset::Multiset;
use crate::acct::{HeapAcct, charge_outcome, admits as admits_charge};
use crate::bytecode::{Op, IntOp as BinOp, CmpOp, ProgramShape};
use crate::fuel::{FuelMeter, out_of_fuel_text};
use crate::cells::{CellArena, occurrences, refunded, freed_bytes, lemma_freed_trans, lemma_freed_none};
use crate::cell::{PrimTy, prim_is_unsigned, prim_is_float};
use crate::frames::{CallStack, Frame, Slot, refs_in, saved_refs, slot_refs, lemma_refs_update, lemma_refs_step, lemma_occurrences_concat, ret_outcome};
use crate::layout::ty_is_ref;
use crate::scalar::{
    arith_int, bitop_int, compare_int, neg_int, convert_int, IntOp, BitOp, CompareOp, arith_outcome, bit_raw,
    ordered, fits_spec, trunc_spec, narrowing_text,
};
use crate::trap::{Trap, TrapKind};

verus! {

/// The word a register holds (a reference register reads as zero).
pub open spec fn word(s: Slot) -> i64 {
    match s {
        Slot::Word(w) => w,
        Slot::Ref(_) => 0,
    }
}

/// The boolean word: `1` for true, `0` for false.
pub open spec fn bool_word(b: bool) -> i64 {
    if b {
        1
    } else {
        0
    }
}

/// The ops the frame-local step runs.
pub open spec fn local_op(op: Op) -> bool {
    match op {
        Op::LoopHead | Op::Mov { .. } | Op::MovRef { .. } | Op::ConstRaw { .. } | Op::Not { .. } | Op::IntBin { .. }
        | Op::IntCmp { .. } | Op::NegI { .. } | Op::RefEq { .. } | Op::Jmp { .. } | Op::Br { .. } => true,
        Op::Conv { from, to, .. } => !prim_is_float(from) && !prim_is_float(to),
        Op::Assert { msg, .. } => msg is None,
        _ => false,
    }
}

/// Register `r` is in the frame and holds a word.
pub open spec fn is_word(regs: Seq<Slot>, r: u16) -> bool {
    r < regs.len() && regs[r as int] is Word
}

/// Register `r` is in the frame and is a reference register.
pub open spec fn is_ref(regs: Seq<Slot>, r: u16) -> bool {
    r < regs.len() && regs[r as int] is Ref
}

/// Whether a division by the words `a / b` under `p` is defined (the
/// signed `MIN / -1` is not).
pub open spec fn div_defined(p: PrimTy, a: i64, b: i64) -> bool {
    prim_is_unsigned(p) || !(a == i64::MIN && b == -1)
}

/// The operands of `op` are registers of the kinds it reads and writes:
/// words for the scalar ops, references for the reference ops.
pub open spec fn operands_ok(regs: Seq<Slot>, op: Op) -> bool {
    match op {
        Op::Mov { dst, src } => is_word(regs, dst) && is_word(regs, src),
        Op::MovRef { dst, src } => is_ref(regs, dst) && is_ref(regs, src),
        Op::ConstRaw { dst, .. } => is_word(regs, dst),
        Op::Not { dst, a } => is_word(regs, dst) && is_word(regs, a),
        Op::IntBin { op, prim, dst, a, b } => is_word(regs, dst) && is_word(regs, a) && is_word(regs, b) && (
        (op == BinOp::Div || op == BinOp::Mod || op == BinOp::WDiv || op == BinOp::WMod) ==> div_defined(
            prim,
            word(regs[a as int]),
            word(regs[b as int]),
        )),
        Op::IntCmp { dst, a, b, .. } => is_word(regs, dst) && is_word(regs, a) && is_word(regs, b),
        Op::NegI { dst, a, .. } => is_word(regs, dst) && is_word(regs, a),
        Op::Conv { dst, src, .. } => is_word(regs, dst) && is_word(regs, src),
        Op::RefEq { dst, a, b, .. } => is_word(regs, dst) && is_ref(regs, a) && is_ref(regs, b),
        Op::Br { cond, .. } => is_word(regs, cond),
        Op::Assert { cond, .. } => is_word(regs, cond),
        _ => true,
    }
}

/// What an integer binary op answers on the words `a`, `b` under `p`.
pub open spec fn bin_outcome(op: BinOp, p: PrimTy, a: i64, b: i64, r: Result<i64, Trap>) -> bool {
    match op {
        BinOp::Add => arith_outcome(IntOp::Add, false, p, a, b, r),
        BinOp::Sub => arith_outcome(IntOp::Sub, false, p, a, b, r),
        BinOp::Mul => arith_outcome(IntOp::Mul, false, p, a, b, r),
        BinOp::Div => arith_outcome(IntOp::Div, false, p, a, b, r),
        BinOp::Mod => arith_outcome(IntOp::Mod, false, p, a, b, r),
        BinOp::WAdd => arith_outcome(IntOp::Add, true, p, a, b, r),
        BinOp::WSub => arith_outcome(IntOp::Sub, true, p, a, b, r),
        BinOp::WMul => arith_outcome(IntOp::Mul, true, p, a, b, r),
        BinOp::WDiv => arith_outcome(IntOp::Div, true, p, a, b, r),
        BinOp::WMod => arith_outcome(IntOp::Mod, true, p, a, b, r),
        BinOp::And => bit_outcome(BitOp::And, p, a, b, r),
        BinOp::Or => bit_outcome(BitOp::Or, p, a, b, r),
        BinOp::Xor => bit_outcome(BitOp::Xor, p, a, b, r),
        BinOp::Shl => bit_outcome(BitOp::Shl, p, a, b, r),
        BinOp::Shr => bit_outcome(BitOp::Shr, p, a, b, r),
        BinOp::WrapShl => bit_outcome(BitOp::WrapShl, p, a, b, r),
    }
}

/// What a bit operation answers (as `bitop_int` states).
pub open spec fn bit_outcome(op: BitOp, p: PrimTy, a: i64, b: i64, r: Result<i64, Trap>) -> bool {
    let x = bit_raw(op, prim_is_unsigned(p), a, b);
    if op == BitOp::WrapShl {
        r == Ok::<i64, Trap>(trunc_spec(x, p))
    } else if !fits_spec(x, p) {
        r matches Err(t) && t.kind == TrapKind::Overflow && t.msg@ == "bit op out of range"@
    } else {
        r == Ok::<i64, Trap>(x)
    }
}

/// A comparison of the words `a`, `b` under `p`.
pub open spec fn compares_true(op: CmpOp, p: PrimTy, a: i64, b: i64) -> bool {
    let c = match op {
        CmpOp::Eq => CompareOp::Eq,
        CmpOp::Ne => CompareOp::Ne,
        CmpOp::Lt => CompareOp::Lt,
        CmpOp::Gt => CompareOp::Gt,
        CmpOp::Le => CompareOp::Le,
        CmpOp::Ge => CompareOp::Ge,
    };
    if prim_is_unsigned(p) {
        ordered(c, (a as u64) as int, (b as u64) as int)
    } else {
        ordered(c, a as int, b as int)
    }
}

/// The register a word-producing op writes.
pub open spec fn word_dst(op: Op) -> u16 {
    match op {
        Op::Mov { dst, .. } => dst,
        Op::ConstRaw { dst, .. } => dst,
        Op::Not { dst, .. } => dst,
        Op::IntBin { dst, .. } => dst,
        Op::IntCmp { dst, .. } => dst,
        Op::NegI { dst, .. } => dst,
        Op::Conv { dst, .. } => dst,
        Op::RefEq { dst, .. } => dst,
        _ => 0,
    }
}

/// What a word-producing op answers on the registers `regs`.
pub open spec fn word_outcome(regs: Seq<Slot>, op: Op, r: Result<i64, Trap>) -> bool {
    match op {
        Op::Mov { src, .. } => r == Ok::<i64, Trap>(word(regs[src as int])),
        Op::ConstRaw { bits, .. } => r == Ok::<i64, Trap>(bits as i64),
        Op::Not { a, .. } => r == Ok::<i64, Trap>(bool_word(word(regs[a as int]) == 0)),
        Op::IntBin { op, prim, a, b, .. } => bin_outcome(op, prim, word(regs[a as int]), word(regs[b as int]), r),
        Op::IntCmp { op, prim, a, b, .. } => r == Ok::<i64, Trap>(
            bool_word(compares_true(op, prim, word(regs[a as int]), word(regs[b as int]))),
        ),
        Op::NegI { prim, a, .. } => {
            let v = word(regs[a as int]);
            if v == i64::MIN || !fits_spec((-v) as i64, prim) {
                r matches Err(t) && t.kind == TrapKind::Overflow && t.msg@ == "negate overflow"@
            } else {
                r == Ok::<i64, Trap>((-v) as i64)
            }
        },
        Op::Conv { src, from, to, .. } => {
            let v = word(regs[src as int]);
            if fits_spec(v, to) {
                r == Ok::<i64, Trap>(v)
            } else {
                r matches Err(t) && t.kind == TrapKind::Overflow && t.msg@ == narrowing_text(from, to)
            }
        },
        Op::RefEq { eq, a, b, .. } => r == Ok::<i64, Trap>(bool_word((regs[a as int] == regs[b as int]) == eq)),
        _ => false,
    }
}

/// Whether `op` produces a word into a register.
pub open spec fn writes_word(op: Op) -> bool {
    match op {
        Op::Mov { .. } | Op::ConstRaw { .. } | Op::Not { .. } | Op::IntBin { .. } | Op::IntCmp { .. }
        | Op::NegI { .. } | Op::Conv { .. } | Op::RefEq { .. } => true,
        _ => false,
    }
}

/// What one frame-local step does: `old` and `new` are the call stack
/// before and after, `ea` and `eb` the arena's outside references before
/// and after. The frame's pc moves only on a jump or branch; nothing but
/// the current frame's registers and pc changes.
pub open spec fn step_outcome(
    old: CallStack,
    new: CallStack,
    ea: Multiset<usize>,
    eb: Multiset<usize>,
    op: Op,
    r: Result<(), Trap>,
) -> bool {
    let regs = old.cur.regs@;
    &&& new.saved@ == old.saved@
    &&& new.running == old.running
    &&& new.cur.func == old.cur.func
    &&& new.cur.ret_dst == old.cur.ret_dst
    &&& if writes_word(op) {
        &&& eb == ea
        &&& new.cur.pc == old.cur.pc
        &&& match r {
            Ok(()) => exists|v: i64| #[trigger] word_outcome(regs, op, Ok(v)) && new.cur.regs@ == regs.update(
                word_dst(op) as int,
                Slot::Word(v),
            ),
            Err(t) => word_outcome(regs, op, Err(t)) && new.cur.regs@ == regs,
        }
    } else {
        match op {
            Op::MovRef { dst, src } => {
                &&& r is Ok
                &&& new.cur.pc == old.cur.pc
                &&& new.cur.regs@ == regs.update(dst as int, regs[src as int])
                &&& forall|x: usize| #[trigger] eb.count(x) == ea.count(x) + slot_refs(regs[src as int], x)
                    - slot_refs(regs[dst as int], x)
            },
            Op::Jmp { target } => r is Ok && new.cur.pc == target && new.cur.regs@ == regs && eb == ea,
            Op::Br { cond, then_t, else_t } => r is Ok && new.cur.pc == (if word(regs[cond as int]) != 0 {
                then_t
            } else {
                else_t
            }) && new.cur.regs@ == regs && eb == ea,
            Op::Assert { cond, .. } => new.cur.pc == old.cur.pc && new.cur.regs@ == regs && eb == ea && if word(
                regs[cond as int],
            ) != 0 {
                r is Ok
            } else {
                r matches Err(t) && t.kind == TrapKind::Assert && t.msg@ == "assertion failed"@
            },
            _ => r is Ok && new.cur.pc == old.cur.pc && new.cur.regs@ == regs && eb == ea,
        }
    }
}

fn word_of(s: Slot) -> (w: i64)
    ensures
        w == word(s),
{
    match s {
        Slot::Word(w) => w,
        Slot::Ref(_) => 0,
    }
}

fn bool_of(b: bool) -> (w: i64)
    ensures
        w == bool_word(b),
{
    if b {
        1
    } else {
        0
    }
}

fn same_slot(a: Slot, b: Slot) -> (r: bool)
    ensures
        r == (a == b),
{
    match (a, b) {
        (Slot::Word(x), Slot::Word(y)) => x == y,
        (Slot::Ref(None), Slot::Ref(None)) => true,
        (Slot::Ref(Some(x)), Slot::Ref(Some(y))) => x == y,
        _ => false,
    }
}

/// The word a word-producing op answers, or its trap.
fn word_result(regs: &Vec<Slot>, op: &Op) -> (r: Result<i64, Trap>)
    requires
        writes_word(*op),
        local_op(*op),
        operands_ok(regs@, *op),
    ensures
        word_outcome(regs@, *op, r),
{
    match op {
        Op::Mov { src, .. } => Ok(word_of(regs[*src as usize])),
        Op::ConstRaw { bits, .. } => Ok(*bits as i64),
        Op::Not { a, .. } => Ok(bool_of(word_of(regs[*a as usize]) == 0)),
        Op::IntBin { op, prim, a, b, .. } => {
            let x = word_of(regs[*a as usize]);
            let y = word_of(regs[*b as usize]);
            match op {
                BinOp::Add => arith_int(IntOp::Add, false, *prim, x, y),
                BinOp::Sub => arith_int(IntOp::Sub, false, *prim, x, y),
                BinOp::Mul => arith_int(IntOp::Mul, false, *prim, x, y),
                BinOp::Div => arith_int(IntOp::Div, false, *prim, x, y),
                BinOp::Mod => arith_int(IntOp::Mod, false, *prim, x, y),
                BinOp::WAdd => arith_int(IntOp::Add, true, *prim, x, y),
                BinOp::WSub => arith_int(IntOp::Sub, true, *prim, x, y),
                BinOp::WMul => arith_int(IntOp::Mul, true, *prim, x, y),
                BinOp::WDiv => arith_int(IntOp::Div, true, *prim, x, y),
                BinOp::WMod => arith_int(IntOp::Mod, true, *prim, x, y),
                BinOp::And => bitop_int(BitOp::And, *prim, x, y),
                BinOp::Or => bitop_int(BitOp::Or, *prim, x, y),
                BinOp::Xor => bitop_int(BitOp::Xor, *prim, x, y),
                BinOp::Shl => bitop_int(BitOp::Shl, *prim, x, y),
                BinOp::Shr => bitop_int(BitOp::Shr, *prim, x, y),
                BinOp::WrapShl => bitop_int(BitOp::WrapShl, *prim, x, y),
            }
        },
        Op::IntCmp { op, prim, a, b, .. } => {
            let x = word_of(regs[*a as usize]);
            let y = word_of(regs[*b as usize]);
            let c = match op {
                CmpOp::Eq => CompareOp::Eq,
                CmpOp::Ne => CompareOp::Ne,
                CmpOp::Lt => CompareOp::Lt,
                CmpOp::Gt => CompareOp::Gt,
                CmpOp::Le => CompareOp::Le,
                CmpOp::Ge => CompareOp::Ge,
            };
            Ok(bool_of(compare_int(c, *prim, x, y)))
        },
        Op::NegI { prim, a, .. } => neg_int(*prim, word_of(regs[*a as usize])),
        Op::Conv { src, from, to, .. } => convert_int(word_of(regs[*src as usize]), *from, *to),
        Op::RefEq { eq, a, b, .. } => Ok(bool_of(same_slot(regs[*a as usize], regs[*b as usize]) == *eq)),
        _ => Err(Trap::new(TrapKind::Invalid, String::new())),
    }
}

fn dst_reg(op: &Op) -> (d: u16)
    ensures
        d == word_dst(*op),
{
    match op {
        Op::Mov { dst, .. } | Op::ConstRaw { dst, .. } | Op::Not { dst, .. } | Op::IntBin { dst, .. }
        | Op::IntCmp { dst, .. } | Op::NegI { dst, .. } | Op::Conv { dst, .. } | Op::RefEq { dst, .. } => *dst,
        _ => 0,
    }
}

/// Overwriting a word register with a word leaves the references alone.
proof fn lemma_word_write_keeps_refs(st: CallStack, d: int, v: i64, x: usize)
    requires
        0 <= d < st.cur.regs@.len(),
        st.cur.regs@[d] is Word,
    ensures
        occurrences(saved_refs(st.saved@) + refs_in(st.cur.regs@.update(d, Slot::Word(v))), x) == occurrences(
            st.refs(),
            x,
        ),
{
    lemma_refs_update(st.cur.regs@, d, Slot::Word(v), x);
    lemma_occurrences_concat(saved_refs(st.saved@), refs_in(st.cur.regs@.update(d, Slot::Word(v))), x);
    lemma_occurrences_concat(saved_refs(st.saved@), refs_in(st.cur.regs@), x);
}

/// The reference move: the destination takes the source's cell, which
/// gains a reference; the cell the destination held loses one.
fn mov_ref(st: &mut CallStack, arena: &mut CellArena, acct: &mut HeapAcct, dst: u16, src: u16)
    requires
        old(arena).wf(),
        old(st).held_by(*old(arena)),
        is_ref(old(st).cur.regs@, dst),
        is_ref(old(st).cur.regs@, src),
    ensures
        final(arena).wf(),
        final(st).held_by(*final(arena)),
        final(st).saved@ == old(st).saved@,
        final(st).running == old(st).running,
        final(st).cur.func == old(st).cur.func,
        final(st).cur.ret_dst == old(st).cur.ret_dst,
        final(st).cur.pc == old(st).cur.pc,
        final(st).cur.regs@ == old(st).cur.regs@.update(dst as int, old(st).cur.regs@[src as int]),
        forall|x: usize| #[trigger] final(arena).ext@.count(x) == old(arena).ext@.count(x) + slot_refs(
            old(st).cur.regs@[src as int],
            x,
        ) - slot_refs(old(st).cur.regs@[dst as int], x),
        final(acct).used == refunded(old(acct).used, freed_bytes(old(arena).cells@, final(arena).cells@)),
        final(acct).peak == old(acct).peak,
        final(acct).limit == old(acct).limit,
{
    let ghost regs0 = st.cur.regs@;
    let ghost s0 = *st;
    let ghost e0 = arena.ext@;
    let v = st.cur.regs[src as usize];
    let old_v = st.cur.regs[dst as usize];
    proof {
        assert forall|x: usize| occurrences(refs_in(regs0), x) <= e0.count(x) by {
            lemma_occurrences_concat(saved_refs(s0.saved@), refs_in(regs0), x);
            assert(s0.held_by(*old(arena)));
            assert(occurrences(s0.refs(), x) <= e0.count(x));
        }
        assert forall|x: usize| occurrences(refs_in(regs0), x) >= slot_refs(regs0[src as int], x) + 0 by {
            lemma_refs_update(regs0, src as int, Slot::Word(0), x);
        }
        assert forall|x: usize| occurrences(refs_in(regs0), x) >= slot_refs(regs0[dst as int], x) + 0 by {
            lemma_refs_update(regs0, dst as int, Slot::Word(0), x);
        }
    }
    if let Slot::Ref(Some(c)) = v {
        proof {
            assert(slot_refs(regs0[src as int], c) == 1);
            assert(e0.count(c) >= 1);
            assert(old(arena).balanced(c));
        }
        arena.retain(c);
    }
    let ghost a1 = *arena;
    proof {
        assert forall|x: usize| #[trigger] a1.ext@.count(x) == e0.count(x) + slot_refs(v, x) by {}
    }
    st.cur.regs.set(dst as usize, v);
    if let Slot::Ref(Some(d)) = old_v {
        proof {
            assert(slot_refs(regs0[dst as int], d) == 1);
        }
        arena.release(acct, d);
    }
    proof {
        assert forall|x: usize| #[trigger] arena.ext@.count(x) == e0.count(x) + slot_refs(v, x) - slot_refs(old_v, x) by {}
        assert forall|x: usize| #[trigger] occurrences(st.refs(), x) <= arena.ext@.count(x) by {
            lemma_refs_update(regs0, dst as int, v, x);
            lemma_occurrences_concat(saved_refs(s0.saved@), refs_in(regs0), x);
            lemma_occurrences_concat(saved_refs(st.saved@), refs_in(st.cur.regs@), x);
            assert(s0.held_by(*old(arena)));
            assert(occurrences(s0.refs(), x) <= e0.count(x));
            assert(st.cur.regs@ == regs0.update(dst as int, v));
        }
        assert forall|i: int| 0 <= i < a1.cells@.len() && #[trigger] a1.cells@[i] is Some implies old(arena).cells@[i] is Some
            && a1.cells@[i]->Some_0.bytes == old(arena).cells@[i]->Some_0.bytes by {}
        assert forall|i: int| 0 <= i < arena.cells@.len() && #[trigger] arena.cells@[i] is Some implies a1.cells@[i] is Some by {
            assert(arena.live(i as usize));
        }
        lemma_freed_trans(old(arena).cells@, a1.cells@, arena.cells@);
        assert forall|i: int| 0 <= i < old(arena).cells@.len() && #[trigger] old(arena).cells@[i] is Some implies a1.cells@[i] is Some by {}
        lemma_freed_none(old(arena).cells@, a1.cells@);
    }
}

/// The number of fields a record of type `ty` has (zero for any other
/// type).
pub open spec fn field_count(p: ProgramShape, ty: u32) -> nat {
    if (ty as int) < p.types@.len() {
        match p.types@[ty as int] {
            crate::bytecode::TyKind::Data(fs) => fs@.len(),
            _ => 0,
        }
    } else {
        0
    }
}

/// The `NewCell` op: a record of type `ty` with every field zeroed is
/// charged eight bytes a field (a budget it would exceed traps with
/// nothing changed), takes a fresh slot with no references in it, and
/// lands in the reference register `dst`, whose previous cell loses its
/// reference.
pub fn op_new_cell(p: &ProgramShape, st: &mut CallStack, arena: &mut CellArena, acct: &mut HeapAcct, dst: u16, ty: u32)
    -> (r: Result<(), Trap>)
    requires
        old(arena).wf(),
        old(st).held_by(*old(arena)),
        is_ref(old(st).cur.regs@, dst),
        old(arena).cells@.len() < usize::MAX,
        field_count(*p, ty) * 8 <= u32::MAX,
        old(acct).used + field_count(*p, ty) * 8 <= u64::MAX,
    ensures
        final(arena).wf(),
        final(st).held_by(*final(arena)),
        final(st).saved@ == old(st).saved@,
        final(st).cur.func == old(st).cur.func,
        final(st).cur.pc == old(st).cur.pc,
        final(acct).limit == old(acct).limit,
        match r {
            Err(t) => charge_outcome(*old(acct), *final(acct), (field_count(*p, ty) * 8) as u64, Err(t)) && *final(st)
                == *old(st) && *final(arena) == *old(arena),
            Ok(()) => admits_charge(*old(acct), (field_count(*p, ty) * 8) as u64) && final(acct).used <= old(acct).used
                + field_count(*p, ty) * 8 && (old(st).cur.regs@[dst as int] == Slot::Ref(None) ==> final(acct).used
                == old(acct).used + field_count(*p, ty) * 8) && exists|c: usize| {
                &&& !#[trigger] old(arena).live(c)
                &&& final(st).cur.regs@ == old(st).cur.regs@.update(dst as int, Slot::Ref(Some(c)))
                &&& forall|x: usize| #[trigger] final(arena).ext@.count(x) == old(arena).ext@.count(x) + (if x == c {
                    1int
                } else {
                    0int
                }) - slot_refs(old(st).cur.regs@[dst as int], x)
            },
        },
{
    let n: usize = if (ty as usize) < p.types.len() {
        match &p.types[ty as usize] {
            crate::bytecode::TyKind::Data(fs) => fs.len(),
            _ => 0,
        }
    } else {
        0
    };
    let bytes: u32 = (n * 8) as u32;
    match acct.charge(bytes as u64) {
        Err(t) => {
            return Err(t);
        },
        Ok(()) => {},
    }
    let ghost regs0 = st.cur.regs@;
    let ghost s0 = *st;
    let ghost e0 = arena.ext@;
    proof {
        assert forall|x: usize| occurrences(refs_in(regs0), x) <= e0.count(x) by {
            lemma_occurrences_concat(saved_refs(s0.saved@), refs_in(regs0), x);
            assert(s0.held_by(*old(arena)));
            assert(occurrences(s0.refs(), x) <= e0.count(x));
        }
        assert forall|x: usize| occurrences(refs_in(regs0), x) >= slot_refs(regs0[dst as int], x) + 0 by {
            lemma_refs_update(regs0, dst as int, Slot::Word(0), x);
        }
    }
    let c = arena.mint(bytes, Vec::new());
    let old_v = st.cur.regs[dst as usize];
    st.cur.regs.set(dst as usize, Slot::Ref(Some(c)));
    if let Slot::Ref(Some(d)) = old_v {
        proof {
            assert(slot_refs(regs0[dst as int], d) == 1);
        }
        arena.release(acct, d);
    }
    proof {
        assert forall|x: usize| #[trigger] arena.ext@.count(x) == e0.count(x) + (if x == c { 1int } else { 0int }) - slot_refs(old_v, x) by {
            assert(occurrences(Seq::<usize>::empty(), x) == 0);
        }
        assert forall|x: usize| #[trigger] occurrences(st.refs(), x) <= arena.ext@.count(x) by {
            lemma_refs_update(regs0, dst as int, Slot::Ref(Some(c)), x);
            lemma_occurrences_concat(saved_refs(s0.saved@), refs_in(regs0), x);
            lemma_occurrences_concat(saved_refs(st.saved@), refs_in(st.cur.regs@), x);
            assert(s0.held_by(*old(arena)));
            assert(occurrences(s0.refs(), x) <= e0.count(x));
        }
        assert(!old(arena).live(c));
    }
    Ok(())
}

/// One frame-local step of the match interpreter (see [`step_outcome`]).
pub fn step(st: &mut CallStack, arena: &mut CellArena, acct: &mut HeapAcct, op: &Op) -> (r: Result<(), Trap>)
    requires
        old(arena).wf(),
        old(st).held_by(*old(arena)),
        local_op(*op),
        operands_ok(old(st).cur.regs@, *op),
    ensures
        final(arena).wf(),
        final(st).held_by(*final(arena)),
        step_outcome(*old(st), *final(st), old(arena).ext@, final(arena).ext@, *op, r),
        final(acct).used == refunded(old(acct).used, freed_bytes(old(arena).cells@, final(arena).cells@)),
        final(acct).peak == old(acct).peak,
        final(acct).limit == old(acct).limit,
        !(*op is MovRef) ==> *final(arena) == *old(arena) && *final(acct) == *old(acct),
{
    proof {
        arena.lemma_nothing_freed(*arena);
    }
    let ghost s_in = *st;
    match op {
        Op::LoopHead => Ok(()),
        Op::Jmp { target } => {
            st.cur.pc = *target;
            assert(st.refs() == s_in.refs());
            Ok(())
        },
        Op::Br { cond, then_t, else_t } => {
            let c = word_of(st.cur.regs[*cond as usize]);
            st.cur.pc = if c != 0 {
                *then_t
            } else {
                *else_t
            };
            assert(st.refs() == s_in.refs());
            Ok(())
        },
        Op::Assert { cond, .. } => {
            if word_of(st.cur.regs[*cond as usize]) != 0 {
                Ok(())
            } else {
                Err(Trap::new(TrapKind::Assert, "assertion failed".to_owned()))
            }
        },
        Op::MovRef { dst, src } => {
            mov_ref(st, arena, acct, *dst, *src);
            Ok(())
        },
        _ => {
            let d = dst_reg(op);
            match word_result(&st.cur.regs, op) {
                Ok(v) => {
                    let ghost s0 = *st;
                    st.cur.regs.set(d as usize, Slot::Word(v));
                    proof {
                        assert forall|x: usize| #[trigger] occurrences(st.refs(), x) <= arena.ext@.count(x) by {
                            lemma_word_write_keeps_refs(s0, d as int, v, x);
                        }
                        assert(word_outcome(s0.cur.regs@, *op, Ok(v)));
                    }
                    Ok(())
                },
                Err(t) => Err(t),
            }
        },
    }
}

/// Whether every op of function `fi` is one the match interpreter runs
/// here: frame-local, or a return.
pub open spec fn runnable(p: ProgramShape, fi: int) -> bool {
    forall|pc: int| 0 <= pc < p.funcs@[fi].code@.len() ==> local_op(#[trigger] p.funcs@[fi].code@[pc]) || p.funcs@[fi].code@[pc] is Ret
        || p.funcs@[fi].code@[pc] is Call
}

/// The registers a call gives its callee: the arguments' values in
/// parameter order, then nil in a reference register and zero in any
/// other.
pub open spec fn callee_regs(p: ProgramShape, regs: Seq<Slot>, func: u32, args: Seq<u16>) -> Seq<Slot> {
    let tys = p.funcs@[func as int].regs@;
    Seq::new(
        tys.len(),
        |i: int|
            if i < args.len() {
                regs[args[i] as int]
            } else if ty_is_ref(p, tys[i] as int) {
                Slot::Ref(None)
            } else {
                Slot::Word(0)
            },
    )
}

/// A call's operands fit: the callee exists and takes at least the
/// arguments, and every argument and the destination are in the frame.
pub open spec fn call_ok(p: ProgramShape, regs: Seq<Slot>, op: Op) -> bool {
    match op {
        Op::Call { func, args, dst } => {
            &&& func < p.funcs@.len()
            &&& args@.len() <= p.funcs@[func as int].regs@.len()
            &&& forall|k: int| 0 <= k < args@.len() ==> (#[trigger] args@[k] as int) < regs.len()
            &&& dst matches Some(d) ==> (d as int) < regs.len()
        },
        _ => false,
    }
}

/// What a call does to the stack `old` (its pc already past the call),
/// leaving `new`, and to the arena's outside references `ea` (now `eb`).
pub open spec fn call_outcome(old: CallStack, new: CallStack, ea: Multiset<usize>, eb: Multiset<usize>, p: ProgramShape, op: Op) -> bool {
    match op {
        Op::Call { func, args, dst } => {
            &&& new.running
            &&& new.saved@ == old.saved@.push(old.cur)
            &&& new.cur.func == func
            &&& new.cur.pc == 0
            &&& new.cur.regs@ == callee_regs(p, old.cur.regs@, func, args@)
            &&& new.cur.ret_dst == dst_index(dst)
            &&& forall|x: usize| #[trigger] eb.count(x) == ea.count(x) + occurrences(refs_in(callee_regs(p, old.cur.regs@, func, args@)), x)
        },
        _ => false,
    }
}

/// The optional destination register as a register index.
pub open spec fn dst_index(dst: Option<u16>) -> Option<usize> {
    match dst {
        Some(d) => Some(d as usize),
        None => None,
    }
}

/// A call: the current frame (its pc already past the call) is suspended
/// and the callee's frame starts at pc 0 with its registers, the call's
/// destination taking the eventual result; every reference an argument
/// passes gains one count.
fn op_call(p: &ProgramShape, st: &mut CallStack, arena: &mut CellArena, func: u32, args: &Vec<u16>, dst: Option<u16>)
    requires
        old(arena).wf(),
        old(st).held_by(*old(arena)),
        old(st).running,
        func < p.funcs@.len(),
        args@.len() <= p.funcs@[func as int].regs@.len(),
        forall|k: int| 0 <= k < args@.len() ==> (#[trigger] args@[k] as int) < old(st).cur.regs@.len(),
    ensures
        final(arena).wf(),
        final(st).held_by(*final(arena)),
        final(st).running,
        final(st).saved@ == old(st).saved@.push(old(st).cur),
        final(st).cur.func == func,
        final(st).cur.pc == 0,
        final(st).cur.regs@ == callee_regs(*p, old(st).cur.regs@, func, args@),
        final(st).cur.ret_dst == dst_index(dst),
        forall|x: usize| #[trigger] final(arena).ext@.count(x) == old(arena).ext@.count(x) + occurrences(
            refs_in(callee_regs(*p, old(st).cur.regs@, func, args@)),
            x,
        ),
        final(arena).cells@.len() == old(arena).cells@.len(),
        forall|x: usize| #[trigger] final(arena).live(x) <==> old(arena).live(x),
        forall|x: usize| #[trigger] final(arena).live(x) ==> final(arena).node(x).bytes == old(arena).node(x).bytes,
{
    let ghost regs0 = st.cur.regs@;
    let ghost s0 = *st;
    let ghost e0 = arena.ext@;
    let ghost want = callee_regs(*p, regs0, func, args@);
    proof {
        assert forall|x: usize| occurrences(refs_in(regs0), x) <= e0.count(x) by {
            lemma_occurrences_concat(saved_refs(s0.saved@), refs_in(regs0), x);
            assert(s0.held_by(*old(arena)));
            assert(occurrences(s0.refs(), x) <= e0.count(x));
        }
    }
    let tys = &p.funcs[func as usize].regs;
    let mut regs: Vec<Slot> = Vec::new();
    let mut i: usize = 0;
    while i < tys.len()
        invariant
            tys@ == p.funcs@[func as int].regs@,
            want == callee_regs(*p, regs0, func, args@),
            args@.len() <= tys@.len(),
            forall|k: int| 0 <= k < args@.len() ==> (#[trigger] args@[k] as int) < regs0.len(),
            regs0 == st.cur.regs@,
            i <= tys@.len(),
            regs@ == want.take(i as int),
            arena.wf(),
            forall|x: usize| occurrences(refs_in(regs0), x) <= e0.count(x),
            forall|x: usize| #[trigger] arena.ext@.count(x) == e0.count(x) + occurrences(refs_in(regs@), x),
            arena.cells@.len() == old(arena).cells@.len(),
            forall|x: usize| #[trigger] arena.live(x) <==> old(arena).live(x),
            forall|x: usize| #[trigger] arena.live(x) ==> arena.node(x).bytes == old(arena).node(x).bytes,
        decreases tys@.len() - i,
    {
        let s = if i < args.len() {
            st.cur.regs[args[i] as usize]
        } else {
            let t = tys[i];
            let r = (t as usize) < p.types.len() && match &p.types[t as usize] {
                crate::bytecode::TyKind::Prim(_) | crate::bytecode::TyKind::Nil | crate::bytecode::TyKind::Fn => false,
                _ => true,
            };
            if r {
                Slot::Ref(None)
            } else {
                Slot::Word(0)
            }
        };
        assert(s == want[i as int]);
        let ghost before = *arena;
        let ghost built = regs@;
        if let Slot::Ref(Some(c)) = s {
            proof {
                let a = args@[i as int];
                lemma_refs_update(regs0, a as int, Slot::Word(0), c);
                assert(e0.count(c) >= 1);
                assert(arena.ext@.count(c) >= 1);
                assert(arena.balanced(c));
            }
            arena.retain(c);
            proof {
                assert forall|x: usize| #[trigger] arena.live(x) <==> before.live(x) by {
                    if x != c && (x as int) < arena.cells@.len() {
                        assert(arena.cells@[x as int] == before.cells@[x as int]);
                    }
                }
                assert forall|x: usize| #[trigger] arena.live(x) implies arena.node(x).bytes == before.node(x).bytes by {
                    if x != c {
                        assert(arena.cells@[x as int] == before.cells@[x as int]);
                    }
                }
            }
        }
        regs.push(s);
        proof {
            assert(regs@.drop_last() =~= built);
            assert(regs@ =~= want.take(i + 1));
            assert forall|x: usize| #[trigger] arena.ext@.count(x) == e0.count(x) + occurrences(refs_in(regs@), x) by {
                lemma_refs_step(regs@, x);
            }
        }
        i += 1;
    }
    proof {
        assert(regs@ =~= want);
    }
    st.enter(func, regs, match dst {
        Some(d) => Some(d as usize),
        None => None,
    });
    proof {
        assert forall|x: usize| #[trigger] occurrences(st.refs(), x) <= arena.ext@.count(x) by {
            lemma_occurrences_concat(s0.refs(), refs_in(want), x);
            assert(s0.held_by(*old(arena)));
            assert(occurrences(s0.refs(), x) <= e0.count(x));
        }
    }
}


/// The value a return hands back: its register, or the zero word.
pub open spec fn ret_val(regs: Seq<Slot>, val: Option<u16>) -> Slot {
    match val {
        Some(r) => regs[r as int],
        None => Slot::Word(0),
    }
}

/// The stack with the current frame's pc moved to `pc`.
pub open spec fn at_pc(s: CallStack, pc: u32) -> CallStack {
    CallStack { cur: Frame { pc, ..s.cur }, ..s }
}

/// One op of the match interpreter: a stack that runs nothing answers
/// the zero word; a pc past the code returns the zero word; otherwise the
/// op is charged to the meter (a spent budget parks the frame at the op,
/// nothing else changed), a return returns its value, and any other op
/// runs with the pc already past it (a jump or branch sets it).
pub fn step_one(p: &ProgramShape, st: &mut CallStack, arena: &mut CellArena, acct: &mut HeapAcct, meter: &mut FuelMeter)
    -> (r: Result<Option<Slot>, Trap>)
    requires
        old(arena).wf(),
        old(st).held_by(*old(arena)),
        old(st).running ==> old(st).cur.func < p.funcs@.len() && runnable(*p, old(st).cur.func as int),
        old(st).running && old(st).cur.pc < p.funcs@[old(st).cur.func as int].code@.len() && old(meter).fuel
            != Some(0u64) ==> ({
            let op = p.funcs@[old(st).cur.func as int].code@[old(st).cur.pc as int];
            &&& operands_ok(old(st).cur.regs@, op)
            &&& op matches Op::Ret { val: Some(x) } ==> x < old(st).cur.regs@.len()
            &&& op is Call ==> call_ok(*p, old(st).cur.regs@, op)
        }),
        old(st).saved@.len() > 0 && old(st).cur.ret_dst is Some ==> old(st).cur.ret_dst->Some_0
            < old(st).saved@.last().regs@.len(),
        old(st).running && old(st).cur.pc < p.funcs@[old(st).cur.func as int].code@.len() ==> old(st).cur.pc < u32::MAX
            && old(meter).fuel_used < u64::MAX && old(meter).since_check < u32::MAX,
    ensures
        final(arena).wf(),
        final(st).held_by(*final(arena)),
        final(acct).used == refunded(old(acct).used, freed_bytes(old(arena).cells@, final(arena).cells@)),
        final(acct).peak == old(acct).peak,
        final(acct).limit == old(acct).limit,
        !old(st).running ==> r == Ok::<Option<Slot>, Trap>(Some(Slot::Word(0))) && *final(st) == *old(st)
            && *final(arena) == *old(arena) && *final(meter) == *old(meter),
        old(st).running && old(st).cur.pc >= p.funcs@[old(st).cur.func as int].code@.len() ==> (*final(meter)
            == *old(meter) && (r matches Ok(o) && ret_outcome(
            *old(st),
            *final(st),
            old(arena).ext@,
            final(arena).ext@,
            Slot::Word(0),
            o,
        ))),
        old(st).running && old(st).cur.pc < p.funcs@[old(st).cur.func as int].code@.len() ==> ({
            let op = p.funcs@[old(st).cur.func as int].code@[old(st).cur.pc as int];
            &&& final(meter).fuel_used == old(meter).fuel_used + 1
            &&& final(meter).interrupt_every == old(meter).interrupt_every
            &&& final(meter).since_check == (if old(meter).fuel is None && old(meter).since_check + 1
                >= old(meter).interrupt_every {
                0
            } else {
                old(meter).since_check + 1
            })
            &&& if old(meter).fuel == Some(0u64) {
                &&& r matches Err(t) && t.kind == TrapKind::OutOfFuel && t.msg@ == out_of_fuel_text()
                &&& final(meter).fuel == Some(0u64)
                &&& *final(st) == *old(st)
                &&& *final(arena) == *old(arena)
            } else {
                &&& final(meter).fuel == (match old(meter).fuel {
                    Some(f) => Some((f - 1) as u64),
                    None => None,
                })
                &&& if op is Ret {
                    r matches Ok(o) && ret_outcome(
                        *old(st),
                        *final(st),
                        old(arena).ext@,
                        final(arena).ext@,
                        ret_val(old(st).cur.regs@, op->Ret_val),
                        o,
                    )
                } else if op is Call {
                    &&& r == Ok::<Option<Slot>, Trap>(None)
                    &&& call_outcome(at_pc(*old(st), (old(st).cur.pc + 1) as u32), *final(st), old(arena).ext@, final(arena).ext@, *p, op)
                } else {
                    &&& r is Err || r == Ok::<Option<Slot>, Trap>(None)
                    &&& step_outcome(
                        at_pc(*old(st), (old(st).cur.pc + 1) as u32),
                        *final(st),
                        old(arena).ext@,
                        final(arena).ext@,
                        op,
                        match r {
                            Ok(_) => Ok(()),
                            Err(t) => Err(t),
                        },
                    )
                }
            }
        }),
{
    if !st.running {
        proof {
            arena.lemma_nothing_freed(*arena);
        }
        return Ok(Some(Slot::Word(0)));
    }
    let code = &p.funcs[st.cur.func as usize].code;
    let pc = st.cur.pc;
    if pc as usize >= code.len() {
        let o = st.do_ret(arena, acct, Slot::Word(0));
        return Ok(o);
    }
    let op = &code[pc as usize];
    match meter.tick() {
        Err(t) => {
            proof {
                arena.lemma_nothing_freed(*arena);
            }
            return Err(t);
        },
        Ok(()) => {},
    }
    if let Op::Ret { val } = op {
        let v = match val {
            Some(x) => st.cur.regs[*x as usize],
            None => Slot::Word(0),
        };
        proof {
            if let Slot::Ref(Some(c)) = v {
                let x = val->Some_0;
                lemma_refs_update(st.cur.regs@, x as int, Slot::Word(0), c);
            }
        }
        let o = st.do_ret(arena, acct, v);
        return Ok(o);
    }
    st.cur.pc = pc + 1;
    if let Op::Call { func, args, dst } = op {
        proof {
            assert(*st == at_pc(*old(st), (pc + 1) as u32));
            assert(st.refs() == old(st).refs());
        }
        let ghost before = *arena;
        op_call(p, st, arena, *func, args, *dst);
        proof {
            arena.lemma_nothing_freed(before);
        }
        return Ok(None);
    }
    proof {
        assert(*st == at_pc(*old(st), (pc + 1) as u32));
        assert(st.refs() == old(st).refs());
        assert(local_op(*op));
    }
    match step(st, arena, acct, op) {
        Ok(()) => Ok(None),
        Err(t) => Err(t),
    }
}

/// Whether `c` holds between the numbers `x` and `y`, by its name.
pub open spec fn holds_between(c: CmpOp, x: int, y: int) -> bool {
    match c {
        CmpOp::Eq => x == y,
        CmpOp::Ne => x != y,
        CmpOp::Lt => x < y,
        CmpOp::Gt => x > y,
        CmpOp::Le => x <= y,
        CmpOp::Ge => x >= y,
    }
}

/// What the word ops write, by their meaning: a successful step of a
/// word op leaves the pc and every other register alone and writes, at
/// the destination: the source's word (`Mov`); the constant's bits
/// (`ConstRaw`); `1` when the operand is the word `0` and `0` otherwise
/// (`Not`); `1` exactly when the two registers hold the same reference,
/// or differ for `RefEq { eq: false }` (`RefEq`); `1` exactly when the
/// comparison holds between the operands, read as signed numbers for a
/// signed type and as unsigned ones for an unsigned type (`IntCmp`); the
/// exact sum, difference or product (checked `IntBin` add, sub, mul on a
/// type narrower than `u64`); the quotient and remainder of a
/// non-negative dividend by a positive divisor on a signed type (checked
/// `IntBin` div, mod); the operands' `&`, `|`, `^` (`IntBin` and,
/// or, xor); the operand's negation (`NegI`); the operand itself (`Conv`).
pub proof fn law_word_ops_write_what_they_mean(old: CallStack, new: CallStack, ea: Multiset<usize>, eb: Multiset<usize>, op: Op)
    requires
        writes_word(op),
        operands_ok(old.cur.regs@, op),
        step_outcome(old, new, ea, eb, op, Ok(())),
    ensures
        new.cur.pc == old.cur.pc,
        eb == ea,
        ({
            let regs = old.cur.regs@;
            let d = word_dst(op) as int;
            &&& new.cur.regs@.len() == regs.len()
            &&& forall|i: int| 0 <= i < regs.len() && i != d ==> new.cur.regs@[i] == regs[i]
            &&& new.cur.regs@[d] is Word
            &&& ({
                let v = word(new.cur.regs@[d]);
                &&& (op matches Op::Mov { src, .. } ==> new.cur.regs@[d] == regs[src as int])
                &&& (op matches Op::ConstRaw { bits, .. } ==> v == bits as i64)
                &&& (op matches Op::Not { a, .. } ==> (v == 1 && word(regs[a as int]) == 0) || (v == 0 && word(
                    regs[a as int],
                ) != 0))
                &&& (op matches Op::RefEq { eq, a, b, .. } ==> (v == 1 || v == 0) && (v == 1 <==> ((regs[a as int]
                    == regs[b as int]) == eq)))
                &&& (op matches Op::IntCmp { op: c, prim, a, b, .. } ==> (v == 1 || v == 0) && (v == 1 <==> if prim_is_unsigned(prim) {
                    holds_between(c, (word(regs[a as int]) as u64) as int, (word(regs[b as int]) as u64) as int)
                } else {
                    holds_between(c, word(regs[a as int]) as int, word(regs[b as int]) as int)
                }))
                &&& (op matches Op::IntBin { op: BinOp::Add, prim, a, b, .. } ==> prim != PrimTy::U64 && crate::cell::prim_is_int(prim)
                    ==> v == word(regs[a as int]) + word(regs[b as int]))
                &&& (op matches Op::IntBin { op: BinOp::Sub, prim, a, b, .. } ==> prim != PrimTy::U64 && crate::cell::prim_is_int(prim)
                    ==> v == word(regs[a as int]) - word(regs[b as int]))
                &&& (op matches Op::IntBin { op: BinOp::Mul, prim, a, b, .. } ==> prim != PrimTy::U64 && crate::cell::prim_is_int(prim)
                    ==> v == word(regs[a as int]) * word(regs[b as int]))
                &&& (op matches Op::IntBin { op: BinOp::Div, prim, a, b, .. } ==> !prim_is_unsigned(prim) && 0 <= word(regs[a as int])
                    && 0 < word(regs[b as int]) ==> v == word(regs[a as int]) / word(regs[b as int]))
                &&& (op matches Op::IntBin { op: BinOp::Mod, prim, a, b, .. } ==> !prim_is_unsigned(prim) && 0 <= word(regs[a as int])
                    && 0 < word(regs[b as int]) ==> v == word(regs[a as int]) % word(regs[b as int]))
                &&& (op matches Op::IntBin { op: BinOp::And, a, b, .. } ==> v == word(regs[a as int]) & word(regs[b as int]))
                &&& (op matches Op::IntBin { op: BinOp::Or, a, b, .. } ==> v == word(regs[a as int]) | word(regs[b as int]))
                &&& (op matches Op::IntBin { op: BinOp::Xor, a, b, .. } ==> v == word(regs[a as int]) ^ word(regs[b as int]))
                &&& (op matches Op::NegI { a, .. } ==> v == -word(regs[a as int]))
                &&& (op matches Op::Conv { src, .. } ==> v == word(regs[src as int]))
            })
        }),
{
    let regs = old.cur.regs@;
    let v = choose|v: i64| #[trigger] word_outcome(regs, op, Ok(v)) && new.cur.regs@ == regs.update(word_dst(op) as int, Slot::Word(v));
    assert(word(new.cur.regs@[word_dst(op) as int]) == v);
    match op {
        Op::IntBin { op: bop, prim, a, b, .. } => {
            let (x, y) = (word(regs[a as int]), word(regs[b as int]));
            if bop == BinOp::Add || bop == BinOp::Sub || bop == BinOp::Mul {
                if prim != PrimTy::U64 && crate::cell::prim_is_int(prim) {
                    let iop = if bop == BinOp::Add {
                        IntOp::Add
                    } else if bop == BinOp::Sub {
                        IntOp::Sub
                    } else {
                        IntOp::Mul
                    };
                    crate::scalar::law_checked_arith_is_exact(iop, prim, x, y, v);
                }
            }
        },
        _ => {},
    }
}

/// Division and remainder by zero trap `DivByZero`, checked or wrapping,
/// and leave the frame as it was.
pub proof fn law_division_by_zero_traps(old: CallStack, new: CallStack, ea: Multiset<usize>, eb: Multiset<usize>, op: Op, r: Result<(), Trap>)
    requires
        operands_ok(old.cur.regs@, op),
        step_outcome(old, new, ea, eb, op, r),
        op matches Op::IntBin { op: bop, b, .. } && (bop == BinOp::Div || bop == BinOp::Mod || bop == BinOp::WDiv
            || bop == BinOp::WMod) && word(old.cur.regs@[b as int]) == 0,
    ensures
        r matches Err(t) && t.kind == TrapKind::DivByZero,
        new.cur.regs@ == old.cur.regs@,
        new.cur.pc == old.cur.pc,
{
    if r is Ok {
        let v = choose|v: i64| #[trigger] word_outcome(old.cur.regs@, op, Ok(v)) && new.cur.regs@ == old.cur.regs@.update(word_dst(op) as int, Slot::Word(v));
    }
}

/// The control ops: a jump goes to its target; a branch goes to its
/// first target exactly when the condition word is not zero, else to the
/// second; an assertion passes exactly when its condition word is not
/// zero and otherwise traps `Assert`. None of them touches a register.
pub proof fn law_control_ops_go_where_they_say(old: CallStack, new: CallStack, ea: Multiset<usize>, eb: Multiset<usize>, op: Op, r: Result<(), Trap>)
    requires
        step_outcome(old, new, ea, eb, op, r),
        op is Jmp || op is Br || op is Assert,
    ensures
        new.cur.regs@ == old.cur.regs@,
        eb == ea,
        op matches Op::Jmp { target } ==> r is Ok && new.cur.pc == target,
        op matches Op::Br { cond, then_t, else_t } ==> r is Ok && (word(old.cur.regs@[cond as int]) != 0 ==> new.cur.pc
            == then_t) && (word(old.cur.regs@[cond as int]) == 0 ==> new.cur.pc == else_t),
        op matches Op::Assert { cond, .. } ==> new.cur.pc == old.cur.pc && (r is Ok <==> word(old.cur.regs@[cond as int])
            != 0) && (r matches Err(t) ==> t.kind == TrapKind::Assert),
{
}

/// A reference move puts the source's slot in the destination, leaves the
/// other registers and the pc alone, and moves one count: the source's
/// cell gains one, the cell the destination held loses one, and a move of
/// a register onto itself (or of a cell onto a register already holding
/// it) changes no count.
pub proof fn law_a_reference_move_moves_one_count(old: CallStack, new: CallStack, ea: Multiset<usize>, eb: Multiset<usize>, dst: u16, src: u16)
    requires
        operands_ok(old.cur.regs@, Op::MovRef { dst, src }),
        step_outcome(old, new, ea, eb, Op::MovRef { dst, src }, Ok(())),
    ensures
        new.cur.regs@[dst as int] == old.cur.regs@[src as int],
        forall|i: int| 0 <= i < old.cur.regs@.len() && i != dst ==> new.cur.regs@[i] == old.cur.regs@[i],
        new.cur.pc == old.cur.pc,
        forall|c: usize| old.cur.regs@[src as int] == Slot::Ref(Some(c)) && old.cur.regs@[dst as int] != Slot::Ref(Some(c))
            ==> #[trigger] eb.count(c) == ea.count(c) + 1,
        forall|c: usize| old.cur.regs@[dst as int] == Slot::Ref(Some(c)) && old.cur.regs@[src as int] != Slot::Ref(Some(c))
            ==> #[trigger] eb.count(c) + 1 == ea.count(c),
        old.cur.regs@[src as int] == old.cur.regs@[dst as int] ==> eb == ea,
{
    if old.cur.regs@[src as int] == old.cur.regs@[dst as int] {
        assert(eb =~= ea);
    }
}

/// A call passes argument `i` to the callee's register `i`, in order:
/// the callee's frame has its function's register count, starts at pc 0,
/// holds the caller's register `args[i]` in register `i`, and nil or zero
/// in every register past the arguments; the caller is suspended with
/// its pc and registers as they were, and no cell's count falls.
pub proof fn law_a_call_passes_its_arguments_in_order(
    old: CallStack,
    new: CallStack,
    ea: Multiset<usize>,
    eb: Multiset<usize>,
    p: ProgramShape,
    func: u32,
    args: Vec<u16>,
    dst: Option<u16>,
)
    requires
        call_outcome(old, new, ea, eb, p, Op::Call { func, args, dst }),
    ensures
        new.cur.func == func,
        new.cur.pc == 0,
        new.cur.regs@.len() == p.funcs@[func as int].regs@.len(),
        forall|i: int| 0 <= i < args@.len() && i < new.cur.regs@.len() ==> new.cur.regs@[i] == old.cur.regs@[#[trigger] args@[i] as int],
        forall|i: int| args@.len() <= i < new.cur.regs@.len() ==> #[trigger] new.cur.regs@[i] == Slot::Ref(None) || new.cur.regs@[i]
            == Slot::Word(0),
        new.saved@.last() == old.cur,
        new.saved@.drop_last() == old.saved@,
        new.cur.ret_dst == (match dst {
            Some(d) => Some(d as usize),
            None => None,
        }),
        forall|x: usize| #[trigger] eb.count(x) >= ea.count(x),
{
    let regs = callee_regs(p, old.cur.regs@, func, args@);
    assert forall|i: int| 0 <= i < args@.len() && i < new.cur.regs@.len() implies new.cur.regs@[i] == old.cur.regs@[#[trigger] args@[i] as int] by {
        assert(new.cur.regs@[i] == regs[i]);
    }
    assert forall|i: int| args@.len() <= i < new.cur.regs@.len() implies #[trigger] new.cur.regs@[i] == Slot::Ref(None) || new.cur.regs@[i]
        == Slot::Word(0) by {
        assert(new.cur.regs@[i] == regs[i]);
    }
    assert(old.saved@.push(old.cur).drop_last() =~= old.saved@);
}

} // verus!
