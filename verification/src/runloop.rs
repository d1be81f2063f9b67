//! The match interpreter's run loop: op after op under the fuel meter,
//! through calls and returns, until the root frame returns, an op traps,
//! or the budget parks the frame. The run's course is a function of the program, the
//! registers, the pc and the meter alone; the arena only follows it.
use vstd::prelude::*;
use crate::acct::HeapAcct;
use crate::bytecode::{Op, IntOp as BinOp, ProgramShape};
use crate::cells::CellArena;
use crate::cell::{PrimTy, prim_is_unsigned};
use crate::frames::{CallStack, Frame, Slot, ret_outcome};
use crate::fuel::{FuelMeter, out_of_fuel_text};
use crate::scalar::{IntOp, BitOp, raw_result, bit_raw, fits_spec, trunc_spec};
use crate::step::{
    step_one, step_outcome, word_outcome, writes_word, word_dst, local_op, operands_ok, runnable, ret_val, at_pc, word,
    bool_word, compares_true, call_ok, callee_regs, dst_index,
};
use crate::trap::{Trap, TrapKind};

verus! {

/// The word integer arithmetic answers, or `None` when it traps.
pub open spec fn arith_value(op: IntOp, wrap: bool, p: PrimTy, a: i64, b: i64) -> Option<i64> {
    if (op == IntOp::Div || op == IntOp::Mod) && b == 0 {
        None
    } else {
        let (x, o) = raw_result(op, prim_is_unsigned(p), a, b);
        if !wrap && (o || !fits_spec(x, p)) {
            None
        } else {
            Some(trunc_spec(x, p))
        }
    }
}

/// The word a bit operation answers, or `None` when it traps.
pub open spec fn bit_value(op: BitOp, p: PrimTy, a: i64, b: i64) -> Option<i64> {
    let x = bit_raw(op, prim_is_unsigned(p), a, b);
    if op == BitOp::WrapShl {
        Some(trunc_spec(x, p))
    } else if !fits_spec(x, p) {
        None
    } else {
        Some(x)
    }
}

/// The word an integer binary op answers, or `None` when it traps.
pub open spec fn bin_value(op: BinOp, p: PrimTy, a: i64, b: i64) -> Option<i64> {
    match op {
        BinOp::Add => arith_value(IntOp::Add, false, p, a, b),
        BinOp::Sub => arith_value(IntOp::Sub, false, p, a, b),
        BinOp::Mul => arith_value(IntOp::Mul, false, p, a, b),
        BinOp::Div => arith_value(IntOp::Div, false, p, a, b),
        BinOp::Mod => arith_value(IntOp::Mod, false, p, a, b),
        BinOp::WAdd => arith_value(IntOp::Add, true, p, a, b),
        BinOp::WSub => arith_value(IntOp::Sub, true, p, a, b),
        BinOp::WMul => arith_value(IntOp::Mul, true, p, a, b),
        BinOp::WDiv => arith_value(IntOp::Div, true, p, a, b),
        BinOp::WMod => arith_value(IntOp::Mod, true, p, a, b),
        BinOp::And => bit_value(BitOp::And, p, a, b),
        BinOp::Or => bit_value(BitOp::Or, p, a, b),
        BinOp::Xor => bit_value(BitOp::Xor, p, a, b),
        BinOp::Shl => bit_value(BitOp::Shl, p, a, b),
        BinOp::Shr => bit_value(BitOp::Shr, p, a, b),
        BinOp::WrapShl => bit_value(BitOp::WrapShl, p, a, b),
    }
}

/// The word a word-producing op answers, or `None` when it traps.
pub open spec fn word_value(regs: Seq<Slot>, op: Op) -> Option<i64> {
    match op {
        Op::Mov { src, .. } => Some(word(regs[src as int])),
        Op::ConstRaw { bits, .. } => Some(bits as i64),
        Op::Not { a, .. } => Some(bool_word(word(regs[a as int]) == 0)),
        Op::IntBin { op, prim, a, b, .. } => bin_value(op, prim, word(regs[a as int]), word(regs[b as int])),
        Op::IntCmp { op, prim, a, b, .. } => Some(
            bool_word(compares_true(op, prim, word(regs[a as int]), word(regs[b as int]))),
        ),
        Op::NegI { prim, a, .. } => {
            let v = word(regs[a as int]);
            if v == i64::MIN || !fits_spec((-v) as i64, prim) {
                None
            } else {
                Some((-v) as i64)
            }
        },
        Op::Conv { src, to, .. } => {
            let v = word(regs[src as int]);
            if fits_spec(v, to) {
                Some(v)
            } else {
                None
            }
        },
        Op::RefEq { eq, a, b, .. } => Some(bool_word((regs[a as int] == regs[b as int]) == eq)),
        _ => None,
    }
}

/// Where a frame-local op leaves the registers and the pc (`pc` already
/// past the op), or that it traps.
pub enum Next {
    Go(Seq<Slot>, u32),
    Trap,
}

/// The effect of the frame-local op `op` on the registers.
pub open spec fn local_next(regs: Seq<Slot>, pc: u32, op: Op) -> Next {
    if writes_word(op) {
        match word_value(regs, op) {
            Some(v) => Next::Go(regs.update(word_dst(op) as int, Slot::Word(v)), pc),
            None => Next::Trap,
        }
    } else {
        match op {
            Op::MovRef { dst, src } => Next::Go(regs.update(dst as int, regs[src as int]), pc),
            Op::Jmp { target } => Next::Go(regs, target),
            Op::Br { cond, then_t, else_t } => Next::Go(regs, if word(regs[cond as int]) != 0 {
                then_t
            } else {
                else_t
            }),
            Op::Assert { cond, .. } => if word(regs[cond as int]) != 0 {
                Next::Go(regs, pc)
            } else {
                Next::Trap
            },
            _ => Next::Go(regs, pc),
        }
    }
}

/// How a run ends: the root frame returns a value; an op traps (the pc
/// already past it, the registers as they were); or the budget is spent
/// before the op at a pc, which parks there.
pub enum RunEnd {
    Returned(Slot),
    Trapped(u32, Seq<Slot>, Op),
    Parked(u32, Seq<Slot>),
}

/// The budget after one tick.
pub open spec fn fuel_after(fuel: Option<u64>) -> Option<u64> {
    match fuel {
        Some(f) => Some((f - 1) as u64),
        None => None,
    }
}

/// The interrupt counter after one tick.
pub open spec fn since_after(fuel: Option<u64>, since: u32, every: u32) -> u32 {
    if fuel is None && since + 1 >= every {
        0
    } else {
        (since + 1) as u32
    }
}

/// A frame as the run sees it: function, pc, registers, and the
/// caller's register that takes its result.
pub type FrameView = (u32, u32, Seq<Slot>, Option<usize>);

/// The view of a frame.
pub open spec fn frame_view(f: Frame) -> FrameView {
    (f.func, f.pc, f.regs@, f.ret_dst)
}

/// The views of the suspended frames, bottom first.
pub open spec fn saved_view(s: Seq<Frame>) -> Seq<FrameView> {
    s.map_values(|f: Frame| frame_view(f))
}

/// Every frame's result register is inside its caller's frame.
pub open spec fn dsts_ok(cur: FrameView, saved: Seq<FrameView>) -> bool {
    &&& saved.len() > 0 ==> (cur.3 matches Some(d) ==> d < saved.last().2.len())
    &&& forall|k: int| 0 < k < saved.len() ==> (#[trigger] saved[k].3 matches Some(d) ==> d < saved[k - 1].2.len())
}

/// The caller's frame after a return of `val` from `cur`.
pub open spec fn resumed(cur: FrameView, caller: FrameView, val: Slot) -> FrameView {
    (caller.0, caller.1, match cur.3 {
        Some(d) => caller.2.update(d as int, val),
        None => caller.2,
    }, caller.3)
}

/// The run from the frame `cur` over the suspended frames `saved`, with
/// the meter's budget, count and interrupt counter, within `n` ops: how it
/// ends, or `None` when it goes on past `n` ops or reaches an op it cannot
/// run (operands of the wrong kind, a call that does not fit, a counter at
/// its limit).
pub open spec fn run_within(
    p: ProgramShape,
    cur: FrameView,
    saved: Seq<FrameView>,
    fuel: Option<u64>,
    used: u64,
    since: u32,
    every: u32,
    n: nat,
) -> Option<RunEnd>
    decreases n,
{
    let (fi, pc, regs, _rd) = cur;
    if n == 0 || fi >= p.funcs@.len() || !dsts_ok(cur, saved) {
        None
    } else {
        let code = p.funcs@[fi as int].code@;
        if pc >= code.len() {
            if saved.len() == 0 {
                Some(RunEnd::Returned(Slot::Word(0)))
            } else {
                run_within(p, resumed(cur, saved.last(), Slot::Word(0)), saved.drop_last(), fuel, used, since, every, (n - 1) as nat)
            }
        } else if used == u64::MAX || since == u32::MAX {
            None
        } else if fuel == Some(0u64) {
            Some(RunEnd::Parked(pc, regs))
        } else {
            let op = code[pc as int];
            let (f2, u2, s2) = (fuel_after(fuel), (used + 1) as u64, since_after(fuel, since, every));
            if op is Ret {
                let val = match op->Ret_val {
                    Some(x) => regs[x as int],
                    None => Slot::Word(0),
                };
                if op->Ret_val matches Some(x) && x >= regs.len() {
                    None
                } else if saved.len() == 0 {
                    Some(RunEnd::Returned(val))
                } else {
                    run_within(p, resumed(cur, saved.last(), val), saved.drop_last(), f2, u2, s2, every, (n - 1) as nat)
                }
            } else if pc + 1 > u32::MAX {
                None
            } else if op is Call {
                if !call_ok(p, regs, op) {
                    None
                } else {
                    let (func, args, dst) = (op->Call_func, op->Call_args, op->Call_dst);
                    run_within(
                        p,
                        (func, 0, callee_regs(p, regs, func, args@), dst_index(dst)),
                        saved.push((fi, (pc + 1) as u32, regs, cur.3)),
                        f2,
                        u2,
                        s2,
                        every,
                        (n - 1) as nat,
                    )
                }
            } else if !local_op(op) || !operands_ok(regs, op) {
                None
            } else {
                match local_next(regs, (pc + 1) as u32, op) {
                    Next::Trap => Some(RunEnd::Trapped((pc + 1) as u32, regs, op)),
                    Next::Go(r2, p2) => run_within(p, (fi, p2, r2, cur.3), saved, f2, u2, s2, every, (n - 1) as nat),
                }
            }
        }
    }
}

/// The run from a stack ends (returns, traps or parks) without reaching an
/// op it cannot run.
pub open spec fn run_ends(p: ProgramShape, st: CallStack, m: FuelMeter) -> bool {
    exists|n: nat| #[trigger] run_within(p, frame_view(st.cur), saved_view(st.saved@), m.fuel, m.fuel_used, m.since_check, m.interrupt_every, n) is Some
}

/// How a run that ends ends.
pub open spec fn run_outcome(p: ProgramShape, st: CallStack, m: FuelMeter) -> RunEnd {
    run_within(
        p,
        frame_view(st.cur),
        saved_view(st.saved@),
        m.fuel,
        m.fuel_used,
        m.since_check,
        m.interrupt_every,
        choose|n: nat| #[trigger] run_within(p, frame_view(st.cur), saved_view(st.saved@), m.fuel, m.fuel_used, m.since_check, m.interrupt_every, n) is Some,
    )->0
}

/// The trap an op raised, as its step states it.
pub open spec fn trap_of(regs: Seq<Slot>, op: Op, t: Trap) -> bool {
    if writes_word(op) {
        word_outcome(regs, op, Err(t))
    } else {
        t.kind == TrapKind::Assert && t.msg@ == "assertion failed"@
    }
}

proof fn lemma_word_outcome_is_the_value(regs: Seq<Slot>, op: Op, r: Result<i64, Trap>)
    requires
        writes_word(op),
        word_outcome(regs, op, r),
    ensures
        r is Ok <==> word_value(regs, op) is Some,
        r matches Ok(v) ==> word_value(regs, op) == Some(v),
{
}

/// The run loop of the match interpreter: ops run one by one under the
/// meter, calls entering their callees and returns resuming their
/// callers, until the root frame returns (the answer), an op traps (its
/// trap, the frame left just past it), or the budget is spent
/// (`OutOfFuel`, the frame parked at the op that did not run).
pub fn run_loop(p: &ProgramShape, st: &mut CallStack, arena: &mut CellArena, acct: &mut HeapAcct, meter: &mut FuelMeter)
    -> (r: Result<Slot, Trap>)
    requires
        old(arena).wf(),
        old(st).held_by(*old(arena)),
        old(st).running,
        forall|f: int| 0 <= f < p.funcs@.len() ==> runnable(*p, f) && #[trigger] p.funcs@[f].code@.len() <= u32::MAX,
        run_ends(*p, *old(st), *old(meter)),
    ensures
        final(arena).wf(),
        final(st).held_by(*final(arena)),
        final(acct).used <= old(acct).used,
        final(acct).peak == old(acct).peak,
        final(acct).limit == old(acct).limit,
        match run_outcome(*p, *old(st), *old(meter)) {
            RunEnd::Returned(v) => r == Ok::<Slot, Trap>(v) && !final(st).running,
            RunEnd::Trapped(pc, regs, op) => r matches Err(t) && trap_of(regs, op, t) && final(st).running
                && final(st).cur.pc == pc && final(st).cur.regs@ == regs,
            RunEnd::Parked(pc, regs) => r matches Err(t) && t.kind == TrapKind::OutOfFuel && t.msg@
                == out_of_fuel_text() && final(st).running && final(st).cur.pc == pc && final(st).cur.regs@ == regs
                && final(meter).fuel == Some(0u64),
        },
{
    let ghost m0 = *meter;
    let ghost n0 = choose|n: nat| #[trigger] run_within(*p, frame_view(st.cur), saved_view(st.saved@), m0.fuel, m0.fuel_used, m0.since_check, m0.interrupt_every, n) is Some;
    let ghost goal = run_within(*p, frame_view(st.cur), saved_view(st.saved@), m0.fuel, m0.fuel_used, m0.since_check, m0.interrupt_every, n0);
    let ghost mut n: nat = n0;
    loop
        invariant
            arena.wf(),
            st.held_by(*arena),
            st.running,
            forall|f: int| 0 <= f < p.funcs@.len() ==> runnable(*p, f) && #[trigger] p.funcs@[f].code@.len() <= u32::MAX,
            goal is Some,
            goal->0 == run_outcome(*p, *old(st), *old(meter)),
            run_within(*p, frame_view(st.cur), saved_view(st.saved@), meter.fuel, meter.fuel_used, meter.since_check, meter.interrupt_every, n) == goal,
            acct.used <= old(acct).used,
            acct.peak == old(acct).peak,
            acct.limit == old(acct).limit,
        decreases n,
    {
        let ghost s0 = *st;
        let ghost mt = *meter;
        let ghost pc0 = st.cur.pc;
        let ghost regs0 = st.cur.regs@;
        let ghost fi = st.cur.func as int;
        proof {
            assert(n > 0);
            assert(fi < p.funcs@.len());
            assert(runnable(*p, fi));
            assert(p.funcs@[fi].code@.len() <= u32::MAX);
            assert(dsts_ok(frame_view(s0.cur), saved_view(s0.saved@)));
            if s0.saved@.len() > 0 {
                assert(saved_view(s0.saved@).last() == frame_view(s0.saved@.last()));
            }
        }
        let r = step_one(p, st, arena, acct, meter);
        match r {
            Err(t) => {
                proof {
                    let op = p.funcs@[fi].code@[pc0 as int];
                    if mt.fuel != Some(0u64) {
                        if writes_word(op) {
                            lemma_word_outcome_is_the_value(regs0, op, Err(t));
                        }
                    }
                }
                return Err(t);
            },
            Ok(Some(v)) => {
                return Ok(v);
            },
            Ok(None) => {
                proof {
                    let code = p.funcs@[fi].code@;
                    if (pc0 as int) < code.len() {
                        let op = code[pc0 as int];
                        if writes_word(op) {
                            let v = choose|v: i64| #[trigger] word_outcome(regs0, op, Ok(v)) && st.cur.regs@ == regs0.update(
                                word_dst(op) as int,
                                Slot::Word(v),
                            );
                            lemma_word_outcome_is_the_value(regs0, op, Ok(v));
                        }
                        if op is Call || op is Ret {
                            assert(saved_view(st.saved@) =~= if op is Call {
                                saved_view(s0.saved@).push(frame_view(at_pc(s0, (pc0 + 1) as u32).cur))
                            } else {
                                saved_view(s0.saved@).drop_last()
                            });
                        }
                    } else {
                        assert(saved_view(st.saved@) =~= saved_view(s0.saved@).drop_last());
                    }
                    n = (n - 1) as nat;
                }
            },
        }
    }
}

/// The run's course, op by op: with its budget spent the frame parks at
/// the op it has not run; a return from the root frame answers its
/// register; an op that neither jumps nor traps hands on to the next op,
/// one op of budget and count later; and a jump hands on to its target.
pub proof fn law_a_run_goes_op_by_op(
    p: ProgramShape,
    fi: u32,
    pc: u32,
    regs: Seq<Slot>,
    fuel: Option<u64>,
    used: u64,
    since: u32,
    every: u32,
    n: nat,
)
    requires
        fi < p.funcs@.len(),
        pc < p.funcs@[fi as int].code@.len(),
        pc + 1 <= u32::MAX,
        used < u64::MAX,
        since < u32::MAX,
    ensures
        fuel == Some(0u64) ==> run_within(p, (fi, pc, regs, None), Seq::empty(), fuel, used, since, every, n + 1) == Some(
            RunEnd::Parked(pc, regs),
        ),
        fuel != Some(0u64) ==> ({
            let op = p.funcs@[fi as int].code@[pc as int];
            let next = |q: u32| run_within(p, (fi, q, regs, None), Seq::empty(), fuel_after(fuel), (used + 1) as u64, since_after(fuel, since, every), every, n);
            &&& (op matches Op::Ret { val: Some(x) } ==> (x < regs.len() ==> run_within(p, (fi, pc, regs, None), Seq::empty(), fuel, used, since, every, n + 1)
                == Some(RunEnd::Returned(regs[x as int]))))
            &&& (op is LoopHead ==> run_within(p, (fi, pc, regs, None), Seq::empty(), fuel, used, since, every, n + 1) == next((pc + 1) as u32))
            &&& (op matches Op::Jmp { target } ==> run_within(p, (fi, pc, regs, None), Seq::empty(), fuel, used, since, every, n + 1) == next(target))
        }),
{
    assert(dsts_ok((fi, pc, regs, None), Seq::empty()));
}

} // verus!
