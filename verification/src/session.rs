//! The playground session's decisions around a guest run: the budgets a
//! run gets, what its end reports, and the one parked frame a resume
//! continues. The machine itself lives with the host, which performs each
//! step and hands the session what happened.
use vstd::prelude::*;
use crate::fuel::Limits;
use crate::trap::TrapKind;
use crate::value::{Value, entry_err, err_of_value};
use crate::envelope::{run_envelope, run_json};

verus! {

/// The budgets of a run: a zero argument means unlimited.
pub fn limits_for(fuel: u64, heap_bytes: u64) -> (l: Limits)
    ensures
        l.fuel == (if fuel == 0 { None } else { Some(fuel) }),
        l.heap_limit_bytes == (if heap_bytes == 0 { None } else { Some(heap_bytes) }),
        l.interrupt_every == 1024,
{
    Limits {
        fuel: if fuel == 0 { None } else { Some(fuel) },
        heap_limit_bytes: if heap_bytes == 0 { None } else { Some(heap_bytes) },
        interrupt_every: 1024,
    }
}

/// How a guest call ended, as the host saw it.
pub enum CallEnd {
    /// `main` returned this value
    Returned(Value),
    /// the run trapped; `running` tells whether a live frame remains
    Trapped { kind: TrapKind, name: String, running: bool },
}

/// What the envelope reports of a call's end.
pub struct Outcome {
    /// the trap's name, when the run trapped
    pub trap: Option<String>,
    /// whether the frame parked (it ran out of fuel with a live frame)
    pub parked: bool,
    /// the returned error, when `main` returned one
    pub err: Option<String>,
}

/// A call's end in the envelope's terms: a return fills only the err
/// channel (by the returned-error convention); a trap fills only the trap
/// channel, and parks the frame when it is an out-of-fuel trap with a
/// live frame.
pub fn outcome_of(end: &CallEnd) -> (o: Outcome)
    ensures
        match end {
            CallEnd::Returned(v) => {
                &&& o.trap is None
                &&& !o.parked
                &&& match o.err {
                    Some(e) => entry_err(*v) == Some(e@),
                    None => entry_err(*v) is None,
                }
            },
            CallEnd::Trapped { kind, name, running } => {
                &&& o.trap matches Some(t) && t@ == name@
                &&& o.parked == (*kind == TrapKind::OutOfFuel && *running)
                &&& o.err is None
            },
        },
{
    match end {
        CallEnd::Returned(v) => Outcome { trap: None, parked: false, err: err_of_value(v) },
        CallEnd::Trapped { kind, name, running } => Outcome {
            trap: Some(name.clone()),
            parked: *kind == TrapKind::OutOfFuel && *running,
            err: None,
        },
    }
}

/// The trap a resume with nothing parked reports.
pub open spec fn no_frame_text() -> Seq<char> {
    "no parked frame — run first (resume continues, never restarts)"@
}

/// The envelope a resume with nothing parked answers.
pub open spec fn no_frame_envelope() -> Seq<char> {
    run_json(Seq::empty(), Some(no_frame_text()), None, 0, 0, false)
}

/// What a resume answers and leaves: a parked frame is taken to continue;
/// with none parked, the no-frame envelope. Either way nothing stays
/// parked until the call ends.
pub open spec fn resume_outcome(old: Session, new: Session, r: Result<(), String>) -> bool {
    &&& !new.holds_frame()
    &&& if old.holds_frame() {
        r is Ok
    } else {
        r matches Err(j) && j@ == no_frame_envelope()
    }
}

/// Whether a frame is parked for a resume.
pub struct Session {
    parked: bool,
}

impl Session {
    /// Whether a frame is parked.
    pub closed spec fn holds_frame(&self) -> bool {
        self.parked
    }

    /// A session with nothing parked.
    pub fn new() -> (s: Session)
        ensures
            !s.holds_frame(),
    {
        Session { parked: false }
    }

    /// Whether a frame is parked.
    pub fn has_frame(&self) -> (b: bool)
        ensures
            b == self.holds_frame(),
    {
        self.parked
    }

    /// A fresh run supersedes any parked frame: it is retired first.
    pub fn begin_run(&mut self)
        ensures
            !final(self).holds_frame(),
    {
        self.parked = false;
    }

    /// After a run or a resume: the frame stays parked exactly when the
    /// call's end parked it.
    pub fn end_call(&mut self, o: &Outcome)
        ensures
            final(self).holds_frame() == o.parked,
    {
        self.parked = o.parked;
    }

    /// Takes the parked frame to continue it. With nothing parked the
    /// answer is the envelope naming that, and nothing re-runs.
    pub fn begin_resume(&mut self) -> (r: Result<(), String>)
        ensures
            resume_outcome(*old(self), *final(self), r),
    {
        if !self.parked {
            let lines: Vec<String> = Vec::new();
            let j = run_envelope(
                lines.as_slice(),
                Some("no parked frame — run first (resume continues, never restarts)"),
                None,
                0,
                0,
                false,
            );
            assert(lines@.map_values(|l: String| l@) =~= Seq::<Seq<char>>::empty());
            return Err(j);
        }
        self.parked = false;
        Ok(())
    }

    /// Retires the parked frame: 1 when one was dropped, 0 when none was
    /// parked.
    pub fn drop_frame(&mut self) -> (n: u32)
        ensures
            n == (if old(self).holds_frame() { 1u32 } else { 0u32 }),
            !final(self).holds_frame(),
    {
        let n = if self.parked { 1 } else { 0 };
        self.parked = false;
        n
    }
}

/// Resume continues, never restarts: the frame a run parked is taken by
/// the next resume, and a second resume without a new park is refused
/// with the no-frame envelope.
pub proof fn law_resume_continues_never_restarts(
    s1: Session,
    o: Outcome,
    s2: Session,
    r1: Result<(), String>,
    s3: Session,
    r2: Result<(), String>,
)
    requires
        o.parked,
        s1.holds_frame() == o.parked,
        resume_outcome(s1, s2, r1),
        resume_outcome(s2, s3, r2),
    ensures
        r1 is Ok,
        r2 matches Err(j) && j@ == no_frame_envelope(),
{
}

} // verus!
