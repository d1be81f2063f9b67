//! A self-contained dispatch workload: one tiny integer loop,
//! `s = sum(i for i in 0..n)`, as bytecode, and the interpreter that runs
//! it. The op bodies and the state shape (code, tags, registers, pc) are
//! what the VM's threaded backends share.
use vstd::prelude::*;
use vstd::wrapping::i64_specs::wrapping_add as wadd;

verus! {

pub const K_ADD: u8 = 0;
pub const K_LT: u8 = 1;
pub const K_JMP: u8 = 2;
pub const K_BR: u8 = 3;
pub const K_RET: u8 = 4;

/// A program: one tag and one operand quadruple per op.
pub struct Code {
    pub tags: Vec<u8>,
    pub ops: Vec<[u32; 4]>,
}

/// Whether the op at `pc` can run: the pc is inside the program and every
/// register operand the op reads or writes names one of the five registers.
pub open spec fn step_ok(tags: Seq<u8>, ops: Seq<[u32; 4]>, pc: int) -> bool {
    &&& 0 <= pc < tags.len()
    &&& pc < ops.len()
    &&& {
        let o = ops[pc];
        let t = tags[pc];
        if t == K_ADD {
            o[0] < 5 && o[1] < 5
        } else if t == K_LT {
            o[0] < 5 && o[1] < 5 && o[2] < 5
        } else if t == K_BR {
            o[0] < 5
        } else if t == K_JMP {
            true
        } else {
            o[0] < 5
        }
    }
}

/// One non-returning step: the registers and pc after the op at `pc`.
pub open spec fn step(tags: Seq<u8>, ops: Seq<[u32; 4]>, regs: Seq<i64>, pc: int) -> (Seq<i64>, int) {
    let o = ops[pc];
    let t = tags[pc];
    if t == K_ADD {
        (regs.update(o[0] as int, wadd(regs[o[0] as int], regs[o[1] as int])), pc + 1)
    } else if t == K_LT {
        (regs.update(o[0] as int, if regs[o[1] as int] < regs[o[2] as int] { 1i64 } else { 0i64 }), pc + 1)
    } else if t == K_BR {
        (regs, if regs[o[0] as int] == 0 { o[1] as int } else { pc + 1 })
    } else {
        (regs, o[0] as int)
    }
}

/// Whether the op at `pc` returns (every tag past the four others does).
pub open spec fn returns_at(tags: Seq<u8>, pc: int) -> bool {
    let t = tags[pc];
    t != K_ADD && t != K_LT && t != K_BR && t != K_JMP
}

/// Running from `pc` for at most `fuel` ops: the returned value and the
/// final registers, or `None` when the run does not return within `fuel`
/// ops or reaches an op that cannot run.
pub open spec fn run_within(
    tags: Seq<u8>,
    ops: Seq<[u32; 4]>,
    regs: Seq<i64>,
    pc: int,
    fuel: nat,
) -> Option<(i64, Seq<i64>)>
    decreases fuel,
{
    if fuel == 0 || !step_ok(tags, ops, pc) {
        None
    } else if returns_at(tags, pc) {
        Some((regs[ops[pc][0] as int], regs))
    } else {
        let (r2, p2) = step(tags, ops, regs, pc);
        run_within(tags, ops, r2, p2, (fuel - 1) as nat)
    }
}

/// The run from `pc` returns (without reaching an op that cannot run).
pub open spec fn halts(tags: Seq<u8>, ops: Seq<[u32; 4]>, regs: Seq<i64>, pc: int) -> bool {
    exists|f: nat| #[trigger] run_within(tags, ops, regs, pc, f) is Some
}

/// The outcome of a run that halts.
pub open spec fn outcome(tags: Seq<u8>, ops: Seq<[u32; 4]>, regs: Seq<i64>, pc: int) -> (i64, Seq<i64>) {
    run_within(tags, ops, regs, pc, choose|f: nat| #[trigger] run_within(tags, ops, regs, pc, f) is Some)->0
}

/// The `match` interpreter: dispatch on the tag, one op body per arm,
/// until a return op answers its register. Defined on the runs that
/// return; the registers are left as the run left them.
pub fn run_match(code: &Code, regs: &mut [i64; 5], pc0: u32) -> (v: i64)
    requires
        halts(code.tags@, code.ops@, old(regs)@, pc0 as int),
    ensures
        (v, final(regs)@) == outcome(code.tags@, code.ops@, old(regs)@, pc0 as int),
{
    let ghost tags = code.tags@;
    let ghost ops = code.ops@;
    let ghost f0 = choose|f: nat| #[trigger] run_within(tags, ops, regs@, pc0 as int, f) is Some;
    let ghost goal = run_within(tags, ops, regs@, pc0 as int, f0);
    let ghost mut fuel: nat = f0;
    let mut pc: usize = pc0 as usize;
    loop
        invariant
            tags == code.tags@,
            ops == code.ops@,
            goal is Some,
            run_within(tags, ops, regs@, pc as int, fuel) == goal,
            goal->0 == outcome(tags, ops, old(regs)@, pc0 as int),
        decreases fuel,
    {
        assert(fuel > 0 && step_ok(tags, ops, pc as int));
        let n = code.tags.len();
        assert(pc < n);
        let t = code.tags[pc];
        if t == K_ADD {
            let o = code.ops[pc];
            let d = o[0] as usize;
            regs[d] = regs[d].wrapping_add(regs[o[1] as usize]);
            pc += 1;
        } else if t == K_LT {
            let o = code.ops[pc];
            regs[o[0] as usize] = if regs[o[1] as usize] < regs[o[2] as usize] { 1 } else { 0 };
            pc += 1;
        } else if t == K_BR {
            let o = code.ops[pc];
            pc = if regs[o[0] as usize] == 0 { o[1] as usize } else { pc + 1 };
        } else if t == K_JMP {
            pc = code.ops[pc][0] as usize;
        } else {
            return regs[code.ops[pc][0] as usize];
        }
        proof {
            fuel = (fuel - 1) as nat;
        }
    }
}


/// The loop program's tags: `t = i < n; if !t goto 5; s += i; i += 1;
/// goto 0; return s` over the registers `[i, s, t, n, one]`.
pub open spec fn loop_tags() -> Seq<u8> {
    seq![K_LT, K_BR, K_ADD, K_ADD, K_JMP, K_RET]
}

/// The loop program's operands, op by op.
pub open spec fn loop_ops() -> Seq<[u32; 4]> {
    seq![[2u32, 0, 3, 0], [2u32, 5, 0, 0], [1u32, 0, 0, 0], [0u32, 4, 0, 0], [0u32, 0, 0, 0], [1u32, 0, 0, 0]]
}

/// The next step of a threaded op in the current frame: go on at a pc,
/// or finish with an answer.
pub enum Flow<O> {
    Next(u32),
    Done(O),
}

/// The result of a threaded stretch: an answer, or a bail-out at an op
/// the threaded handlers do not run (the machine's state synced to it).
pub enum ThreadOut<O> {
    Done(O),
    Bail,
}

/// What a handler must answer for the op at `pc`: the next pc after the
/// op's step, or the returned register.
pub open spec fn handler_flow(
    tags: Seq<u8>,
    ops: Seq<[u32; 4]>,
    before: Seq<i64>,
    after: Seq<i64>,
    pc: int,
    f: Flow<i64>,
) -> bool {
    if returns_at(tags, pc) {
        f == Flow::<i64>::Done(before[ops[pc][0] as int]) && after == before
    } else {
        let (r2, p2) = step(tags, ops, before, pc);
        f == Flow::<i64>::Next(p2 as u32) && p2 == p2 as u32 && after == r2
    }
}

/// The `add` handler: `r[d] += r[a]` (wrapping), then the next op.
pub(crate) fn h_add(code: &Code, regs: &mut [i64; 5], pc: u32) -> (f: Flow<i64>)
    requires
        step_ok(code.tags@, code.ops@, pc as int),
        code.tags@[pc as int] == K_ADD,
        code.tags@.len() <= u32::MAX,
    ensures
        handler_flow(code.tags@, code.ops@, old(regs)@, final(regs)@, pc as int, f),
{
    let o = code.ops[pc as usize];
    let d = o[0] as usize;
    regs[d] = regs[d].wrapping_add(regs[o[1] as usize]);
    Flow::Next(pc + 1)
}

/// The `lt` handler: `r[d] = r[a] < r[b]`, then the next op.
pub(crate) fn h_lt(code: &Code, regs: &mut [i64; 5], pc: u32) -> (f: Flow<i64>)
    requires
        step_ok(code.tags@, code.ops@, pc as int),
        code.tags@[pc as int] == K_LT,
        code.tags@.len() <= u32::MAX,
    ensures
        handler_flow(code.tags@, code.ops@, old(regs)@, final(regs)@, pc as int, f),
{
    let o = code.ops[pc as usize];
    regs[o[0] as usize] = if regs[o[1] as usize] < regs[o[2] as usize] { 1 } else { 0 };
    Flow::Next(pc + 1)
}

/// The `jmp` handler: go on at the target.
pub(crate) fn h_jmp(code: &Code, regs: &mut [i64; 5], pc: u32) -> (f: Flow<i64>)
    requires
        step_ok(code.tags@, code.ops@, pc as int),
        code.tags@[pc as int] == K_JMP,
    ensures
        handler_flow(code.tags@, code.ops@, old(regs)@, final(regs)@, pc as int, f),
{
    Flow::Next(code.ops[pc as usize][0])
}

/// The `br` handler: go on at the target when the condition register is
/// zero, at the next op otherwise.
pub(crate) fn h_br(code: &Code, regs: &mut [i64; 5], pc: u32) -> (f: Flow<i64>)
    requires
        step_ok(code.tags@, code.ops@, pc as int),
        code.tags@[pc as int] == K_BR,
        code.tags@.len() <= u32::MAX,
    ensures
        handler_flow(code.tags@, code.ops@, old(regs)@, final(regs)@, pc as int, f),
{
    let o = code.ops[pc as usize];
    let n = if regs[o[0] as usize] == 0 { o[1] } else { pc + 1 };
    Flow::Next(n)
}

/// The `ret` handler: answer the register.
pub(crate) fn h_ret(code: &Code, regs: &mut [i64; 5], pc: u32) -> (f: Flow<i64>)
    requires
        step_ok(code.tags@, code.ops@, pc as int),
        returns_at(code.tags@, pc as int),
    ensures
        handler_flow(code.tags@, code.ops@, old(regs)@, final(regs)@, pc as int, f),
{
    Flow::Done(regs[code.ops[pc as usize][0] as usize])
}

/// The handler-table interpreter: each op is one handler that answers
/// the next pc or the result, and the driver dispatches the next op by
/// its tag. Same op bodies, same outcome as [`run_match`].
pub fn run(code: &Code, regs: &mut [i64; 5], pc0: u32) -> (v: i64)
    requires
        halts(code.tags@, code.ops@, old(regs)@, pc0 as int),
        code.tags@.len() <= u32::MAX,
    ensures
        (v, final(regs)@) == outcome(code.tags@, code.ops@, old(regs)@, pc0 as int),
{
    let ghost tags = code.tags@;
    let ghost ops = code.ops@;
    let ghost f0 = choose|f: nat| #[trigger] run_within(tags, ops, regs@, pc0 as int, f) is Some;
    let ghost goal = run_within(tags, ops, regs@, pc0 as int, f0);
    let ghost mut fuel: nat = f0;
    let mut pc: u32 = pc0;
    loop
        invariant
            tags == code.tags@,
            ops == code.ops@,
            tags.len() <= u32::MAX,
            goal is Some,
            run_within(tags, ops, regs@, pc as int, fuel) == goal,
            goal->0 == outcome(tags, ops, old(regs)@, pc0 as int),
        decreases fuel,
    {
        assert(fuel > 0 && step_ok(tags, ops, pc as int));
        let t = code.tags[pc as usize];
        let flow = if t == K_ADD {
            h_add(code, regs, pc)
        } else if t == K_LT {
            h_lt(code, regs, pc)
        } else if t == K_JMP {
            h_jmp(code, regs, pc)
        } else if t == K_BR {
            h_br(code, regs, pc)
        } else {
            h_ret(code, regs, pc)
        };
        match flow {
            Flow::Next(n) => {
                pc = n;
            },
            Flow::Done(v) => {
                return v;
            },
        }
        proof {
            fuel = (fuel - 1) as nat;
        }
    }
}

/// The threaded entry point of the portable build: the handler-table
/// driver.
pub fn run_threaded(code: &Code, regs: &mut [i64; 5], pc0: u32) -> (v: i64)
    requires
        halts(code.tags@, code.ops@, old(regs)@, pc0 as int),
        code.tags@.len() <= u32::MAX,
    ensures
        (v, final(regs)@) == outcome(code.tags@, code.ops@, old(regs)@, pc0 as int),
{
    run(code, regs, pc0)
}

/// Builds the summing loop.
pub fn make_loop() -> (code: Code)
    ensures
        code.tags@ == loop_tags(),
        code.ops@ == loop_ops(),
{
    let mut tags: Vec<u8> = Vec::new();
    let mut ops: Vec<[u32; 4]> = Vec::new();
    tags.push(K_LT);
    ops.push([2, 0, 3, 0]);
    tags.push(K_BR);
    ops.push([2, 5, 0, 0]);
    tags.push(K_ADD);
    ops.push([1, 0, 0, 0]);
    tags.push(K_ADD);
    ops.push([0, 4, 0, 0]);
    tags.push(K_JMP);
    ops.push([0, 0, 0, 0]);
    tags.push(K_RET);
    ops.push([1, 0, 0, 0]);
    assert(tags@ =~= loop_tags());
    assert(ops@ =~= loop_ops());
    Code { tags, ops }
}

/// The loop's starting registers: `i = 0, s = 0, t = 0, n, one = 1`.
pub fn init_regs(n: i64) -> (r: [i64; 5])
    ensures
        r@ == seq![0i64, 0, 0, n, 1],
{
    let r = [0, 0, 0, n, 1];
    assert(r@ =~= seq![0i64, 0, 0, n, 1]);
    r
}

/// `0 + 1 + ... + (n - 1)` with wrapping addition (`0` when `n <= 0`).
pub open spec fn wrapping_sum(n: int) -> i64
    decreases n,
{
    if n <= 0 {
        0
    } else {
        wadd(wrapping_sum(n - 1), (n - 1) as i64)
    }
}

/// The loop's expected answer.
pub fn expected(n: i64) -> (s: i64)
    ensures
        s == wrapping_sum(n as int),
{
    let mut s: i64 = 0;
    let mut i: i64 = 0;
    while i < n
        invariant
            0 <= i,
            i <= n || n <= 0,
            i == 0 || i <= n,
            s == wrapping_sum(i as int),
        decreases n - i,
    {
        s = s.wrapping_add(i);
        i += 1;
    }
    s
}

/// A run that returns within two budgets returns the same way within both.
pub proof fn lemma_run_deterministic(
    tags: Seq<u8>,
    ops: Seq<[u32; 4]>,
    regs: Seq<i64>,
    pc: int,
    f1: nat,
    f2: nat,
)
    requires
        run_within(tags, ops, regs, pc, f1) is Some,
        run_within(tags, ops, regs, pc, f2) is Some,
    ensures
        run_within(tags, ops, regs, pc, f1) == run_within(tags, ops, regs, pc, f2),
    decreases f1,
{
    if !returns_at(tags, pc) {
        let (r2, p2) = step(tags, ops, regs, pc);
        lemma_run_deterministic(tags, ops, r2, p2, (f1 - 1) as nat, (f2 - 1) as nat);
    }
}

proof fn lemma_loop_from(n: i64, k: i64, t: i64)
    requires
        0 <= k <= n,
    ensures
        run_within(
            loop_tags(),
            loop_ops(),
            seq![k, wrapping_sum(k as int), t, n, 1i64],
            0,
            (5 * (n - k) + 3) as nat,
        ) == Some((wrapping_sum(n as int), seq![n, wrapping_sum(n as int), 0i64, n, 1i64])),
    decreases n - k,
{
    let tg = loop_tags();
    let op = loop_ops();
    let f = (5 * (n - k) + 3) as nat;
    let r0 = seq![k, wrapping_sum(k as int), t, n, 1i64];
    assert(step_ok(tg, op, 0));
    let r1 = r0.update(2, if k < n { 1i64 } else { 0i64 });
    assert(step(tg, op, r0, 0) == (r1, 1int));
    assert(step_ok(tg, op, 1));
    if k == n {
        assert(step(tg, op, r1, 1) == (r1, 5int));
        assert(step_ok(tg, op, 5));
        assert(returns_at(tg, 5));
        assert(run_within(tg, op, r1, 5, (f - 2) as nat) == Some((r1[1], r1)));
        assert(run_within(tg, op, r1, 1, (f - 1) as nat) == Some((r1[1], r1)));
        assert(r1 =~= seq![n, wrapping_sum(n as int), 0i64, n, 1i64]);
    } else {
        assert(step(tg, op, r1, 1) == (r1, 2int));
        let r3 = r1.update(1, wadd(r1[1], r1[0]));
        assert(step_ok(tg, op, 2));
        assert(step(tg, op, r1, 2) == (r3, 3int));
        assert(r3[1] == wrapping_sum(k + 1));
        let r4 = r3.update(0, wadd(r3[0], r3[4]));
        assert(step_ok(tg, op, 3));
        assert(step(tg, op, r3, 3) == (r4, 4int));
        assert(r4[0] == k + 1);
        assert(step_ok(tg, op, 4));
        assert(step(tg, op, r4, 4) == (r4, 0int));
        assert(r4 =~= seq![(k + 1) as i64, wrapping_sum(k + 1), 1i64, n, 1i64]);
        lemma_loop_from(n, (k + 1) as i64, 1);
        let g = run_within(tg, op, r4, 0, (f - 5) as nat);
        assert(run_within(tg, op, r4, 4, (f - 4) as nat) == g);
        assert(run_within(tg, op, r3, 3, (f - 3) as nat) == g);
        assert(run_within(tg, op, r1, 2, (f - 2) as nat) == g);
        assert(run_within(tg, op, r1, 1, (f - 1) as nat) == g);
    }
}

/// The loop program is correct: from the starting registers for `n`, it
/// returns (whatever `n`), answering the wrapping sum `0 + ... + (n - 1)`,
/// and leaves `i = max(n, 0)`, `s` the answer, `t = 0`.
pub proof fn law_the_loop_computes_the_sum(n: i64)
    ensures
        halts(loop_tags(), loop_ops(), seq![0i64, 0, 0, n, 1], 0),
        outcome(loop_tags(), loop_ops(), seq![0i64, 0, 0, n, 1], 0) == (
            wrapping_sum(n as int),
            seq![if n < 0 { 0i64 } else { n }, wrapping_sum(n as int), 0i64, n, 1i64],
        ),
{
    let tg = loop_tags();
    let op = loop_ops();
    let r0 = seq![0i64, 0, 0, n, 1];
    let want = Some((wrapping_sum(n as int), seq![if n < 0 { 0i64 } else { n }, wrapping_sum(n as int), 0i64, n, 1i64]));
    let f: nat;
    if n >= 0 {
        f = (5 * n + 3) as nat;
        assert(r0 =~= seq![0i64, wrapping_sum(0), 0i64, n, 1i64]);
        lemma_loop_from(n, 0, 0);
        assert(run_within(tg, op, r0, 0, f) == want);
    } else {
        f = 3;
        assert(step_ok(tg, op, 0));
        let r1 = r0.update(2, 0i64);
        assert(step(tg, op, r0, 0) == (r1, 1int));
        assert(r1 =~= r0);
        assert(step_ok(tg, op, 1));
        assert(step(tg, op, r0, 1) == (r0, 5int));
        assert(step_ok(tg, op, 5));
        assert(run_within(tg, op, r0, 5, 1) == Some((0i64, r0)));
        assert(run_within(tg, op, r0, 1, 2) == Some((0i64, r0)));
        assert(r0 =~= seq![0i64, wrapping_sum(n as int), 0i64, n, 1i64]);
        assert(run_within(tg, op, r0, 0, f) == want);
    }
    assert(run_within(tg, op, r0, 0, f) is Some);
    let c = choose|g: nat| #[trigger] run_within(tg, op, r0, 0, g) is Some;
    lemma_run_deterministic(tg, op, r0, 0, c, f);
}

} // verus!
