//! Captured stack traces: which frames a capture records, the bounds-checked
//! frame read, the call-site position lookup, and the whole-trace
//! symbolication string.
use vstd::prelude::*;
use crate::cell::TraceFrame;
use crate::trap::{Trap, TrapKind};
use crate::text::{push_char, push_str, push_i64, push_u64, dec_int, dec_digits};

verus! {

/// What a trace needs of one function of the program: its name and its
/// call-site position table (entry `pc` is the `(line, col)` of the op at
/// `pc`; empty when the program was stripped).
pub struct FuncSite {
    pub name: String,
    pub pos: Vec<(u32, u32)>,
}

/// The frame a saved caller contributes: its resume point is the op after
/// the call, so the call site is one before it (never below zero).
pub open spec fn caller_frame(f: TraceFrame) -> TraceFrame {
    TraceFrame { func: f.func, pc: if f.pc == 0 { 0 } else { (f.pc - 1) as u32 } }
}

/// The frames a capture records: the executing function at its current
/// op first, then every saved frame from the innermost caller outwards.
pub open spec fn captured(cur_func: u32, cur_pc: u32, saved: Seq<TraceFrame>) -> Seq<TraceFrame> {
    seq![TraceFrame { func: cur_func, pc: cur_pc }]
        + Seq::new(saved.len(), |i: int| caller_frame(saved[saved.len() - 1 - i]))
}

/// Captures a trace. `saved` is the call stack of suspended frames, the
/// outermost first, each holding its resume pc.
pub fn capture_frames(cur_func: u32, cur_pc: u32, saved: &Vec<TraceFrame>) -> (r: Vec<TraceFrame>)
    ensures
        r@ == captured(cur_func, cur_pc, saved@),
{
    let mut r: Vec<TraceFrame> = Vec::new();
    r.push(TraceFrame { func: cur_func, pc: cur_pc });
    let n = saved.len();
    let mut k: usize = 0;
    while k < n
        invariant
            n == saved@.len(),
            k <= n,
            r@ =~= captured(cur_func, cur_pc, saved@).take(k + 1),
        decreases n - k,
    {
        let f = saved[n - 1 - k];
        let pc = if f.pc == 0 { 0 } else { f.pc - 1 };
        r.push(TraceFrame { func: f.func, pc });
        k = k + 1;
        assert(r@ =~= captured(cur_func, cur_pc, saved@).take(k + 1));
    }
    assert(captured(cur_func, cur_pc, saved@).take(n + 1) =~= captured(cur_func, cur_pc, saved@));
    r
}

/// The trap text for a frame index outside the trace.
pub open spec fn frame_index_text(i: int, len: nat) -> Seq<char> {
    "StackTrace index "@ + dec_int(i) + " out of range — len is "@ + dec_digits(len)
}

/// Reads frame `i` of a trace: an index outside it is a bug in the caller
/// and traps loudly.
pub fn frame_at(frames: &Vec<TraceFrame>, i: i64) -> (r: Result<TraceFrame, Trap>)
    ensures
        0 <= i < frames@.len() ==> r == Ok::<TraceFrame, Trap>(frames@[i as int]),
        !(0 <= i < frames@.len()) ==> (r matches Err(t) && t.kind == TrapKind::IndexOutOfBounds
            && t.msg@ == frame_index_text(i as int, frames@.len())),
{
    if i < 0 || i as u64 >= frames.len() as u64 {
        let mut m = String::new();
        push_str(&mut m, "StackTrace index ");
        push_i64(&mut m, i);
        push_str(&mut m, " out of range — len is ");
        push_u64(&mut m, frames.len() as u64);
        proof {
            assert(m@ =~= frame_index_text(i as int, frames@.len()));
        }
        return Err(Trap::new(TrapKind::IndexOutOfBounds, m));
    }
    Ok(frames[i as usize])
}

/// The call-site position of `pc`: its entry in the position table, or
/// `(0, 0)` when the table has none (a stripped program).
pub open spec fn pos_of(pos: Seq<(u32, u32)>, pc: u32) -> (u32, u32) {
    if pc < pos.len() {
        pos[pc as int]
    } else {
        (0, 0)
    }
}

/// Looks up the call-site position of `pc`.
pub fn frame_pos(pos: &Vec<(u32, u32)>, pc: u32) -> (r: (u32, u32))
    ensures
        r == pos_of(pos@, pc),
{
    if (pc as usize) < pos.len() {
        pos[pc as usize]
    } else {
        (0, 0)
    }
}

/// Whether every frame names a function of the program.
pub open spec fn frames_resolve(funcs: Seq<FuncSite>, frames: Seq<TraceFrame>) -> bool {
    forall|i: int| 0 <= i < frames.len() ==> #[trigger] frames[i].func < funcs.len()
}

/// One rendered frame: `at NAME (PROG:LINE:COL)` where the position is
/// known, else the pc-only form `at NAME (PROG #FUNC @ pc PC)`.
pub open spec fn frame_text(prog: Seq<char>, site: FuncSite, f: TraceFrame) -> Seq<char> {
    let at = pos_of(site.pos@, f.pc);
    if at.0 == 0 && at.1 == 0 {
        "at "@ + site.name@ + " ("@ + prog + " #"@ + dec_digits(f.func as nat) + " @ pc "@
            + dec_digits(f.pc as nat) + ")"@
    } else {
        "at "@ + site.name@ + " ("@ + prog + ":"@ + dec_digits(at.0 as nat) + ":"@
            + dec_digits(at.1 as nat) + ")"@
    }
}

/// The whole trace, innermost frame first, one frame per line.
pub open spec fn trace_text(prog: Seq<char>, funcs: Seq<FuncSite>, frames: Seq<TraceFrame>) -> Seq<char>
    decreases frames.len(),
{
    if frames.len() == 0 {
        Seq::empty()
    } else {
        let line = frame_text(prog, funcs[frames.last().func as int], frames.last());
        if frames.len() == 1 {
            line
        } else {
            trace_text(prog, funcs, frames.drop_last()) + seq!['\n'] + line
        }
    }
}

/// Renders a trace against the program's function table.
pub fn render_trace(prog: &str, funcs: &Vec<FuncSite>, frames: &Vec<TraceFrame>) -> (r: String)
    requires
        frames_resolve(funcs@, frames@),
    ensures
        r@ == trace_text(prog@, funcs@, frames@),
{
    let mut out = String::new();
    let n = frames.len();
    let mut i: usize = 0;
    while i < n
        invariant
            n == frames@.len(),
            i <= n,
            frames_resolve(funcs@, frames@),
            out@ == trace_text(prog@, funcs@, frames@.take(i as int)),
        decreases n - i,
    {
        let f = frames[i];
        assert(f.func < funcs@.len()) by {
            assert(frames@[i as int].func < funcs@.len());
        }
        let site = &funcs[f.func as usize];
        let ghost before = out@;
        if i > 0 {
            push_char(&mut out, '\n');
        }
        push_str(&mut out, "at ");
        push_str(&mut out, site.name.as_str());
        push_str(&mut out, " (");
        push_str(&mut out, prog);
        let ghost head = out@;
        let at = frame_pos(&site.pos, f.pc);
        if at.0 == 0 && at.1 == 0 {
            push_str(&mut out, " #");
            push_u64(&mut out, f.func as u64);
            push_str(&mut out, " @ pc ");
            push_u64(&mut out, f.pc as u64);
            push_char(&mut out, ')');
            assert(out@ =~= head + " #"@ + dec_digits(f.func as nat) + " @ pc "@
                + dec_digits(f.pc as nat) + ")"@) by {
                reveal_strlit(")");
            }
        } else {
            push_char(&mut out, ':');
            push_u64(&mut out, at.0 as u64);
            push_char(&mut out, ':');
            push_u64(&mut out, at.1 as u64);
            push_char(&mut out, ')');
            assert(out@ =~= head + ":"@ + dec_digits(at.0 as nat) + ":"@
                + dec_digits(at.1 as nat) + ")"@) by {
                reveal_strlit(")");
                reveal_strlit(":");
            }
        }
        proof {
            let fs = frames@.take(i + 1);
            assert(fs.drop_last() =~= frames@.take(i as int));
            assert(fs.last() == f);
            assert(*site == funcs@[f.func as int]);
            let line = frame_text(prog@, funcs@[f.func as int], f);
            let lead: Seq<char> = if i == 0 { Seq::empty() } else { seq!['\n'] };
            assert(head =~= before + lead + "at "@ + site.name@ + " ("@ + prog@);
            assert(out@ =~= before + lead + line);
            if i == 0 {
                assert(before =~= Seq::<char>::empty());
                assert(out@ =~= line);
            }
        }
        i = i + 1;
    }
    assert(frames@.take(n as int) =~= frames@);
    out
}

} // verus!
