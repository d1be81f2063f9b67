//! The threaded stretch with a fuel budget: the portable driver loop that
//! runs the handler ops of the current frame until one answers, hands an
//! op without a handler back to the match interpreter (a bail), or parks
//! the frame when the budget is spent.
use vstd::prelude::*;
use crate::dispatch::{
    h_add, h_br, h_jmp, h_lt, h_ret, returns_at, run_within, step, step_ok, outcome, lemma_run_deterministic, Code,
    Flow, ThreadOut,
    K_ADD, K_BR, K_JMP, K_LT, K_RET,
};
use crate::fuel::{fuel_after_tick, thread_fuel_of, out_of_fuel_text, FuelMeter};
use crate::trap::{Trap, TrapKind};

verus! {

/// How a threaded stretch ends.
pub enum StretchEnd {
    /// a handler answered
    Done(i64),
    /// the op at this pc has no handler: the match interpreter runs it
    Bail(u32),
    /// the budget was spent before the op at this pc: the frame parks there
    Parked(u32),
}

/// Whether the op at `pc` has a threaded handler (the five loop ops do;
/// any other tag is run by the match interpreter).
pub open spec fn threaded_at(tags: Seq<u8>, pc: int) -> bool {
    tags[pc] <= K_RET
}

/// The threaded stretch from `pc` with the budget `fuel` (`-1`:
/// unlimited) and `used` ops counted, within at most `n` ops: how it ends,
/// the registers, and the counters it leaves; `None` when it goes on past
/// `n` ops or reaches an op that cannot run.
pub open spec fn stretch_within(
    tags: Seq<u8>,
    ops: Seq<[u32; 4]>,
    regs: Seq<i64>,
    pc: int,
    fuel: int,
    used: int,
    n: nat,
) -> Option<(StretchEnd, Seq<i64>, int, int)>
    decreases n,
{
    if n == 0 || !(0 <= pc < tags.len() && pc < ops.len()) {
        None
    } else if !threaded_at(tags, pc) {
        Some((StretchEnd::Bail(pc as u32), regs, fuel, used))
    } else if used >= u64::MAX {
        None
    } else {
        match fuel_after_tick(fuel) {
            None => Some((StretchEnd::Parked(pc as u32), regs, 0, used + 1)),
            Some(f2) => {
                if !step_ok(tags, ops, pc) {
                    None
                } else if returns_at(tags, pc) {
                    Some((StretchEnd::Done(regs[ops[pc][0] as int]), regs, f2, used + 1))
                } else {
                    let (r2, p2) = step(tags, ops, regs, pc);
                    stretch_within(tags, ops, r2, p2, f2, used + 1, (n - 1) as nat)
                }
            },
        }
    }
}

/// The stretch ends (by an answer, a bail or a park) without reaching an
/// op that cannot run.
pub open spec fn stretch_ends(
    tags: Seq<u8>,
    ops: Seq<[u32; 4]>,
    regs: Seq<i64>,
    pc: int,
    fuel: int,
    used: int,
) -> bool {
    exists|n: nat| #[trigger] stretch_within(tags, ops, regs, pc, fuel, used, n) is Some
}

/// How a stretch that ends ends.
pub open spec fn stretch_outcome(
    tags: Seq<u8>,
    ops: Seq<[u32; 4]>,
    regs: Seq<i64>,
    pc: int,
    fuel: int,
    used: int,
) -> (StretchEnd, Seq<i64>, int, int) {
    stretch_within(
        tags,
        ops,
        regs,
        pc,
        fuel,
        used,
        choose|n: nat| #[trigger] stretch_within(tags, ops, regs, pc, fuel, used, n) is Some,
    )->0
}

/// A stretch that ends within two bounds ends the same way within both.
pub proof fn lemma_stretch_deterministic(
    tags: Seq<u8>,
    ops: Seq<[u32; 4]>,
    regs: Seq<i64>,
    pc: int,
    fuel: int,
    used: int,
    n1: nat,
    n2: nat,
)
    requires
        stretch_within(tags, ops, regs, pc, fuel, used, n1) is Some,
        stretch_within(tags, ops, regs, pc, fuel, used, n2) is Some,
    ensures
        stretch_within(tags, ops, regs, pc, fuel, used, n1) == stretch_within(tags, ops, regs, pc, fuel, used, n2),
    decreases n1,
{
    if threaded_at(tags, pc) && fuel_after_tick(fuel) is Some && !returns_at(tags, pc) {
        let (r2, p2) = step(tags, ops, regs, pc);
        let f2 = fuel_after_tick(fuel)->0;
        lemma_stretch_deterministic(tags, ops, r2, p2, f2, used + 1, (n1 - 1) as nat, (n2 - 1) as nat);
    }
}

/// With no budget and a handler for every op of the program, the threaded
/// stretch is the match interpreter's run: it answers what the run
/// returns and leaves the same registers, counting one op per step.
pub proof fn law_an_unlimited_stretch_is_the_match_run(
    tags: Seq<u8>,
    ops: Seq<[u32; 4]>,
    regs: Seq<i64>,
    pc: int,
    used: int,
    n: nat,
)
    requires
        run_within(tags, ops, regs, pc, n) is Some,
        forall|i: int| 0 <= i < tags.len() ==> #[trigger] tags[i] <= K_RET,
        0 <= used,
        used + n <= u64::MAX,
    ensures
        ({
            let (v, rs) = run_within(tags, ops, regs, pc, n)->0;
            stretch_within(tags, ops, regs, pc, -1, used, n) matches Some((end, r, f, _u))
                && end == StretchEnd::Done(v) && r == rs && f == -1
        }),
    decreases n,
{
    assert(tags[pc] <= K_RET);
    assert(fuel_after_tick(-1) == Some(-1int));
    if !returns_at(tags, pc) {
        let (r2, p2) = step(tags, ops, regs, pc);
        law_an_unlimited_stretch_is_the_match_run(tags, ops, r2, p2, used + 1, (n - 1) as nat);
    }
}

/// So the driver with no budget answers what the match interpreter
/// answers: a run that returns within `n` ops, on a program whose every
/// op has a handler, makes a stretch that ends, with the run's answer and
/// registers and the budget still unlimited.
pub proof fn law_an_unlimited_stretch_answers_the_run(
    tags: Seq<u8>,
    ops: Seq<[u32; 4]>,
    regs: Seq<i64>,
    pc: int,
    used: int,
    n: nat,
)
    requires
        run_within(tags, ops, regs, pc, n) is Some,
        forall|i: int| 0 <= i < tags.len() ==> #[trigger] tags[i] <= K_RET,
        0 <= used,
        used + n <= u64::MAX,
    ensures
        stretch_ends(tags, ops, regs, pc, -1, used),
        ({
            let (v, rs) = outcome(tags, ops, regs, pc);
            let (end, r, f, _u) = stretch_outcome(tags, ops, regs, pc, -1, used);
            end == StretchEnd::Done(v) && r == rs && f == -1
        }),
{
    law_an_unlimited_stretch_is_the_match_run(tags, ops, regs, pc, used, n);
    assert(stretch_within(tags, ops, regs, pc, -1, used, n) is Some);
    let m = choose|m: nat| #[trigger] stretch_within(tags, ops, regs, pc, -1, used, m) is Some;
    lemma_stretch_deterministic(tags, ops, regs, pc, -1, used, m, n);
    let f = choose|f: nat| #[trigger] run_within(tags, ops, regs, pc, f) is Some;
    lemma_run_deterministic(tags, ops, regs, pc, f, n);
}

/// The portable threaded driver. From the machine's pc it runs the frame's
/// ops through their handlers with the meter's budget carried as the
/// threaded loop carries it; at an op without a handler it writes the pc
/// and the counters back and bails; when the budget is spent it parks the
/// frame at the op (`OutOfFuel`, the meter at zero, the pc at that op, so
/// that a resume runs it); when a handler answers it returns the answer.
pub fn run_parked(code: &Code, regs: &mut [i64; 5], pc: &mut u32, meter: &mut FuelMeter) -> (r: Result<ThreadOut<i64>, Trap>)
    requires
        code.tags@.len() <= u32::MAX,
        stretch_ends(
            code.tags@,
            code.ops@,
            old(regs)@,
            *old(pc) as int,
            thread_fuel_of(old(meter).fuel) as int,
            old(meter).fuel_used as int,
        ),
    ensures
        ({
            let (end, rs, fuel, used) = stretch_outcome(
                code.tags@,
                code.ops@,
                old(regs)@,
                *old(pc) as int,
                thread_fuel_of(old(meter).fuel) as int,
                old(meter).fuel_used as int,
            );
            &&& final(regs)@ == rs
            &&& final(meter).since_check == old(meter).since_check
            &&& final(meter).interrupt_every == old(meter).interrupt_every
            &&& match r {
                Ok(ThreadOut::Done(v)) => {
                    &&& end == StretchEnd::Done(v)
                    &&& *final(meter) == *old(meter)
                    &&& *final(pc) == *old(pc)
                },
                Ok(ThreadOut::Bail) => {
                    &&& end == StretchEnd::Bail(*final(pc))
                    &&& final(meter).fuel == (if fuel < 0 { None } else { Some(fuel as u64) })
                    &&& final(meter).fuel_used == used
                },
                Err(t) => {
                    &&& end == StretchEnd::Parked(*final(pc))
                    &&& t.kind == TrapKind::OutOfFuel
                    &&& t.msg@ == out_of_fuel_text()
                    &&& final(meter).fuel == Some(0u64)
                    &&& final(meter).fuel_used == used
                },
            }
        }),
{
    let ghost tags = code.tags@;
    let ghost ops = code.ops@;
    let ghost fuel0 = thread_fuel_of(meter.fuel) as int;
    let ghost used0 = meter.fuel_used as int;
    let ghost n0 = choose|n: nat| #[trigger] stretch_within(tags, ops, regs@, *pc as int, fuel0, used0, n) is Some;
    let ghost goal = stretch_within(tags, ops, regs@, *pc as int, fuel0, used0, n0);
    let ghost mut n: nat = n0;
    let ghost meter0 = *meter;
    let ghost pc_in = *pc;
    let mut at: u32 = *pc;
    let mut fuel: i64 = meter.thread_fuel();
    let mut used: u64 = meter.fuel_used;
    loop
        invariant
            tags == code.tags@,
            ops == code.ops@,
            tags.len() <= u32::MAX,
            goal is Some,
            goal->0 == stretch_outcome(tags, ops, old(regs)@, pc_in as int, fuel0, used0),
            stretch_within(tags, ops, regs@, at as int, fuel as int, used as int, n) == goal,
            fuel >= -1,
            *meter == meter0,
            *pc == pc_in,
            meter0 == *old(meter),
            pc_in == *old(pc),
            fuel0 == thread_fuel_of(meter0.fuel) as int,
            used0 == meter0.fuel_used as int,
        decreases n,
    {
        assert(n > 0 && at < tags.len() && at < ops.len());
        let t = code.tags[at as usize];
        if t > K_RET {
            assert(!threaded_at(tags, at as int));
            assert(goal == Some((StretchEnd::Bail(at), regs@, fuel as int, used as int)));
            meter.sync(fuel, used);
            *pc = at;
            return Ok(ThreadOut::Bail);
        }
        assert(threaded_at(tags, at as int));
        assert(used < u64::MAX);
        used = used + 1;
        if fuel == 0 {
            assert(goal == Some((StretchEnd::Parked(at), regs@, 0int, used as int)));
            meter.sync(0, used);
            *pc = at;
            return Err(
                Trap::new(
                    TrapKind::OutOfFuel,
                    "fuel exhausted — the frame is parked; add fuel and resume()".to_owned(),
                ),
            );
        }
        if fuel > 0 {
            fuel = fuel - 1;
        }
        assert(step_ok(tags, ops, at as int));
        let ghost before = regs@;
        let flow = if t == K_ADD {
            h_add(code, regs, at)
        } else if t == K_LT {
            h_lt(code, regs, at)
        } else if t == K_JMP {
            h_jmp(code, regs, at)
        } else if t == K_BR {
            h_br(code, regs, at)
        } else {
            h_ret(code, regs, at)
        };
        match flow {
            Flow::Next(next) => {
                at = next;
            },
            Flow::Done(v) => {
                assert(returns_at(tags, at as int));
                assert(goal == Some((StretchEnd::Done(v), before, fuel as int, used as int)));
                return Ok(ThreadOut::Done(v));
            },
        }
        proof {
            n = (n - 1) as nat;
        }
    }
}

} // verus!
