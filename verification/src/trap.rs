use vstd::prelude::*;

verus! {

/// What went wrong, in the engine's closed vocabulary.
#[derive(Clone, Copy, Debug, PartialEq, Eq, Structural)]
pub enum TrapKind {
    OutOfFuel,
    OutOfMemory,
    Interrupted,
    Overflow,
    DivByZero,
    UnwrapNone,
    IndexOutOfBounds,
    Assert,
    Panic,
    BadUnbox,
    NilDeref,
    Invalid,
}

/// A trap: the engine's error value, never a Rust panic.
#[derive(Clone, Debug)]
pub struct Trap {
    pub kind: TrapKind,
    pub msg: String,
}

impl Trap {
    pub fn new(kind: TrapKind, msg: String) -> (t: Trap)
        ensures
            t.kind == kind,
            t.msg@ == msg@,
    {
        Trap { kind, msg }
    }

    /// The kind's name, as hosts print it.
    pub fn name(&self) -> (n: String)
        ensures
            n@ == kind_name(self.kind),
    {
        match self.kind {
            TrapKind::OutOfFuel => "OutOfFuel".to_owned(),
            TrapKind::OutOfMemory => "OutOfMemory".to_owned(),
            TrapKind::Interrupted => "Interrupted".to_owned(),
            TrapKind::Overflow => "Overflow".to_owned(),
            TrapKind::DivByZero => "DivByZero".to_owned(),
            TrapKind::UnwrapNone => "UnwrapNone".to_owned(),
            TrapKind::IndexOutOfBounds => "IndexOutOfBounds".to_owned(),
            TrapKind::Assert => "Assert".to_owned(),
            TrapKind::Panic => "Panic".to_owned(),
            TrapKind::BadUnbox => "BadUnbox".to_owned(),
            TrapKind::NilDeref => "NilDeref".to_owned(),
            TrapKind::Invalid => "Invalid".to_owned(),
        }
    }
}

/// The name of each trap kind.
pub open spec fn kind_name(k: TrapKind) -> Seq<char> {
    match k {
        TrapKind::OutOfFuel => "OutOfFuel"@,
        TrapKind::OutOfMemory => "OutOfMemory"@,
        TrapKind::Interrupted => "Interrupted"@,
        TrapKind::Overflow => "Overflow"@,
        TrapKind::DivByZero => "DivByZero"@,
        TrapKind::UnwrapNone => "UnwrapNone"@,
        TrapKind::IndexOutOfBounds => "IndexOutOfBounds"@,
        TrapKind::Assert => "Assert"@,
        TrapKind::Panic => "Panic"@,
        TrapKind::BadUnbox => "BadUnbox"@,
        TrapKind::NilDeref => "NilDeref"@,
        TrapKind::Invalid => "Invalid"@,
    }
}

} // verus!
