//! The bytecode as loaded: the op set, the shapes of functions and of the
//! type table that the load-time checks read, and the register and type
//! operands each op names.
use vstd::prelude::*;
use crate::cell::PrimTy;

verus! {

/// The integer binary operations (checked, wrapping, bitwise, shifts).
#[derive(Clone, Copy, Debug, PartialEq, Eq, Structural)]
pub enum IntOp {
    Add,
    Sub,
    Mul,
    Div,
    Mod,
    WAdd,
    WSub,
    WMul,
    WDiv,
    WMod,
    And,
    Or,
    Xor,
    Shl,
    Shr,
    WrapShl,
}

/// The float binary operations.
#[derive(Clone, Copy, Debug, PartialEq, Eq, Structural)]
pub enum FloatOp {
    Add,
    Sub,
    Mul,
    Div,
    Mod,
}

/// The comparisons.
#[derive(Clone, Copy, Debug, PartialEq, Eq, Structural)]
pub enum CmpOp {
    Eq,
    Ne,
    Lt,
    Gt,
    Le,
    Ge,
}

/// One op. Registers are `u16` indices into the frame; types, functions,
/// trait slots and jump targets are `u32` ids; `repr` is the baked slot
/// representation code of the value the op moves.
pub enum Op {
    Mov { dst: u16, src: u16 },
    MovRef { dst: u16, src: u16 },
    Const { dst: u16, k: u32 },
    ConstRaw { dst: u16, bits: u64 },
    NewCell { dst: u16, ty: u32 },
    ArrNew { dst: u16, ty: u32, len: u16, repr: u32 },
    ArrLit { dst: u16, ty: u32 },
    EnumNew { dst: u16, ty: u32, member: u32 },
    OptNone { dst: u16, ty: u32 },
    Panic { msg: u16 },
    MakeRecord { dst: u16, ty: u32, vals: Vec<u16> },
    Not { dst: u16, a: u16 },
    NegF { prim: PrimTy, dst: u16, a: u16 },
    NegI { prim: PrimTy, dst: u16, a: u16 },
    StrCmp { eq: bool, dst: u16, a: u16, b: u16 },
    RefEq { eq: bool, dst: u16, a: u16, b: u16 },
    ArrayCmp { eq: bool, dst: u16, a: u16, b: u16 },
    ArrGet { dst: u16, arr: u16, idx: u16, repr: u32 },
    ArrGetF { dst: u16, obj: u16, field: u32, idx: u16, repr: u32 },
    FloatBin { op: FloatOp, prim: PrimTy, dst: u16, a: u16, b: u16 },
    FloatCmp { op: CmpOp, dst: u16, a: u16, b: u16 },
    IntBin { op: IntOp, prim: PrimTy, dst: u16, a: u16, b: u16 },
    IntCmp { op: CmpOp, prim: PrimTy, dst: u16, a: u16, b: u16 },
    Own { dst: u16, src: u16, ty: u32 },
    OptSome { dst: u16, val: u16, ty: u32 },
    ResOk { dst: u16, val: u16, ty: u32 },
    ResErr { dst: u16, val: u16, ty: u32 },
    SetF { obj: u16, field: u32, val: u16, repr: u32 },
    ArrSet { arr: u16, idx: u16, val: u16, repr: u32 },
    ArrSetF { obj: u16, field: u32, idx: u16, val: u16, repr: u32 },
    SumIs { dst: u16, v: u16, member: u32 },
    Unwrap { dst: u16, v: u16 },
    Unbox { dst: u16, box_: u16, ty: u32 },
    UnwrapOr { dst: u16, v: u16, default: u16 },
    Box { dst: u16, val: u16, ty: u32 },
    Expect { dst: u16, v: u16, msg: u16 },
    TidOf { dst: u16, obj: u16 },
    IsType { dst: u16, obj: u16, want: u32 },
    IsTrait { dst: u16, obj: u16, want: u32 },
    Br { cond: u16, then_t: u32, else_t: u32 },
    BrTable { idx: u16, table: Vec<u32>, default: u32 },
    Jmp { target: u32 },
    LoopHead,
    Call { func: u32, args: Vec<u16>, dst: Option<u16> },
    CallM { func: u32, recv: u16, args: Vec<u16>, dst: Option<u16> },
    CallI { slot: u32, recv: u16, args: Vec<u16>, dst: Option<u16> },
    CallNat { nat: u32, recv: Option<u16>, args: Vec<u16>, dst: Option<u16> },
    CallFn { fval: u16, args: Vec<u16>, dst: Option<u16> },
    Ret { val: Option<u16> },
    GetF { dst: u16, obj: u16, field: u32, repr: u32 },
    MakeClosure { dst: u16, func: u32, captures: Vec<u16> },
    Conv { dst: u16, src: u16, from: PrimTy, to: PrimTy },
    StrCharAt { dst: u16, s: u16, idx: u16 },
    Assert { cond: u16, msg: Option<u16> },
}

/// What the load-time checks read of a type-table entry.
pub enum TyKind {
    Prim(PrimTy),
    /// the unit type
    Nil,
    /// a function type
    Fn,
    Str,
    Bytes,
    /// an array of the element type with this id
    Array(u32),
    /// a record with fields of these type ids, in order
    Data(Vec<u32>),
    /// an enum with this many members
    Enum(u32),
    /// an optional over the type with this id
    Option(u32),
    Result,
    /// any other type
    Other,
}

/// A function as loaded: its name, the static type of each register, its
/// parameter types, whether it is a method, and its code.
pub struct FuncShape {
    pub name: String,
    pub regs: Vec<u32>,
    pub params: Vec<u32>,
    pub is_method: bool,
    pub code: Vec<Op>,
}

/// A program as loaded: functions, the type table with each type's slot
/// representation code, the id of `u8` in it, and the sizes of the trait
/// slot and trait tables.
pub struct ProgramShape {
    pub funcs: Vec<FuncShape>,
    pub types: Vec<TyKind>,
    pub reprs: Vec<u32>,
    pub byte_ty: u32,
    pub trait_slots: u32,
    pub traits: u32,
}

/// The register an optional operand names, if any.
pub open spec fn opt_reg(o: Option<u16>) -> Seq<u16> {
    match o {
        Some(r) => seq![r],
        None => Seq::empty(),
    }
}

/// The registers an op reads or writes, in operand order.
pub open spec fn op_regs(op: Op) -> Seq<u16> {
    match op {
        Op::Mov { dst, src } => seq![dst, src],
        Op::MovRef { dst, src } => seq![dst, src],
        Op::Const { dst, .. } => seq![dst],
        Op::ConstRaw { dst, .. } => seq![dst],
        Op::NewCell { dst, .. } => seq![dst],
        Op::ArrNew { dst, .. } => seq![dst],
        Op::ArrLit { dst, .. } => seq![dst],
        Op::EnumNew { dst, .. } => seq![dst],
        Op::OptNone { dst, .. } => seq![dst],
        Op::Panic { msg } => seq![msg],
        Op::MakeRecord { dst, vals, .. } => seq![dst] + vals@,
        Op::Not { dst, a } => seq![dst, a],
        Op::NegF { dst, a, .. } => seq![dst, a],
        Op::NegI { dst, a, .. } => seq![dst, a],
        Op::StrCmp { dst, a, b, .. } => seq![dst, a, b],
        Op::RefEq { dst, a, b, .. } => seq![dst, a, b],
        Op::ArrayCmp { dst, a, b, .. } => seq![dst, a, b],
        Op::ArrGet { dst, arr, idx, .. } => seq![dst, arr, idx],
        Op::ArrGetF { dst, obj, idx, .. } => seq![dst, obj, idx],
        Op::FloatBin { dst, a, b, .. } => seq![dst, a, b],
        Op::FloatCmp { dst, a, b, .. } => seq![dst, a, b],
        Op::IntBin { dst, a, b, .. } => seq![dst, a, b],
        Op::IntCmp { dst, a, b, .. } => seq![dst, a, b],
        Op::Own { dst, src, .. } => seq![dst, src],
        Op::OptSome { dst, val, .. } => seq![dst, val],
        Op::ResOk { dst, val, .. } => seq![dst, val],
        Op::ResErr { dst, val, .. } => seq![dst, val],
        Op::SetF { obj, val, .. } => seq![obj, val],
        Op::ArrSet { arr, idx, val, .. } => seq![arr, idx, val],
        Op::ArrSetF { obj, idx, val, .. } => seq![obj, idx, val],
        Op::SumIs { dst, v, .. } => seq![dst, v],
        Op::Unwrap { dst, v } => seq![dst, v],
        Op::Unbox { dst, box_, .. } => seq![dst, box_],
        Op::UnwrapOr { dst, v, default } => seq![dst, v, default],
        Op::Box { dst, val, .. } => seq![dst, val],
        Op::Expect { dst, v, msg } => seq![dst, v, msg],
        Op::TidOf { dst, obj } => seq![dst, obj],
        Op::IsType { dst, obj, .. } => seq![dst, obj],
        Op::IsTrait { dst, obj, .. } => seq![dst, obj],
        Op::Br { cond, .. } => seq![cond],
        Op::BrTable { idx, .. } => seq![idx],
        Op::Jmp { .. } => Seq::empty(),
        Op::LoopHead => Seq::empty(),
        Op::Call { args, dst, .. } => args@ + opt_reg(dst),
        Op::CallM { recv, args, dst, .. } => seq![recv] + args@ + opt_reg(dst),
        Op::CallI { recv, args, dst, .. } => seq![recv] + args@ + opt_reg(dst),
        Op::CallNat { recv, args, dst, .. } => opt_reg(recv) + args@ + opt_reg(dst),
        Op::CallFn { fval, args, dst } => seq![fval] + args@ + opt_reg(dst),
        Op::Ret { val } => opt_reg(val),
        Op::GetF { dst, obj, .. } => seq![dst, obj],
        Op::MakeClosure { dst, captures, .. } => seq![dst] + captures@,
        Op::Conv { dst, src, .. } => seq![dst, src],
        Op::StrCharAt { dst, s, idx } => seq![dst, s, idx],
        Op::Assert { cond, msg } => seq![cond] + opt_reg(msg),
    }
}

/// The type ids an op names.
pub open spec fn op_tys(op: Op) -> Seq<u32> {
    match op {
        Op::NewCell { ty, .. } => seq![ty],
        Op::Own { ty, .. } => seq![ty],
        Op::ArrNew { ty, .. } => seq![ty],
        Op::ArrLit { ty, .. } => seq![ty],
        Op::EnumNew { ty, .. } => seq![ty],
        Op::OptSome { ty, .. } => seq![ty],
        Op::OptNone { ty, .. } => seq![ty],
        Op::ResOk { ty, .. } => seq![ty],
        Op::ResErr { ty, .. } => seq![ty],
        Op::IsType { want, .. } => seq![want],
        Op::Unbox { ty, .. } => seq![ty],
        Op::Box { ty, .. } => seq![ty],
        Op::MakeRecord { ty, .. } => seq![ty],
        _ => Seq::empty(),
    }
}

/// Every register an op reads or writes is among its register operands
/// (so the load check holds each one to the frame), and an op names no
/// register beyond them: its count is exactly the registers it has.
pub proof fn law_every_register_operand_is_listed(op: Op)
    ensures
        op matches Op::Mov { dst, src } ==> op_regs(op).contains(dst) && op_regs(op).contains(src) && op_regs(op).len() == 2,
        op matches Op::MovRef { dst, src } ==> op_regs(op).contains(dst) && op_regs(op).contains(src) && op_regs(op).len() == 2,
        op matches Op::Own { dst, src, .. } ==> op_regs(op).contains(dst) && op_regs(op).contains(src) && op_regs(op).len() == 2,
        op matches Op::Conv { dst, src, .. } ==> op_regs(op).contains(dst) && op_regs(op).contains(src) && op_regs(op).len() == 2,
        op matches Op::Not { dst, a } ==> op_regs(op).contains(dst) && op_regs(op).contains(a),
        op matches Op::NegI { dst, a, .. } ==> op_regs(op).contains(dst) && op_regs(op).contains(a),
        op matches Op::NegF { dst, a, .. } ==> op_regs(op).contains(dst) && op_regs(op).contains(a),
        op matches Op::IntBin { dst, a, b, .. } ==> op_regs(op).contains(dst) && op_regs(op).contains(a) && op_regs(op).contains(b),
        op matches Op::IntCmp { dst, a, b, .. } ==> op_regs(op).contains(dst) && op_regs(op).contains(a) && op_regs(op).contains(b),
        op matches Op::FloatBin { dst, a, b, .. } ==> op_regs(op).contains(dst) && op_regs(op).contains(a) && op_regs(op).contains(b),
        op matches Op::FloatCmp { dst, a, b, .. } ==> op_regs(op).contains(dst) && op_regs(op).contains(a) && op_regs(op).contains(b),
        op matches Op::StrCmp { dst, a, b, .. } ==> op_regs(op).contains(dst) && op_regs(op).contains(a) && op_regs(op).contains(b),
        op matches Op::RefEq { dst, a, b, .. } ==> op_regs(op).contains(dst) && op_regs(op).contains(a) && op_regs(op).contains(b),
        op matches Op::ArrayCmp { dst, a, b, .. } ==> op_regs(op).contains(dst) && op_regs(op).contains(a) && op_regs(op).contains(b),
        op matches Op::ArrGet { dst, arr, idx, .. } ==> op_regs(op).contains(dst) && op_regs(op).contains(arr) && op_regs(op).contains(idx),
        op matches Op::ArrGetF { dst, obj, idx, .. } ==> op_regs(op).contains(dst) && op_regs(op).contains(obj) && op_regs(op).contains(idx),
        op matches Op::ArrSet { arr, idx, val, .. } ==> op_regs(op).contains(arr) && op_regs(op).contains(idx) && op_regs(op).contains(val),
        op matches Op::ArrSetF { obj, idx, val, .. } ==> op_regs(op).contains(obj) && op_regs(op).contains(idx) && op_regs(op).contains(val),
        op matches Op::SetF { obj, val, .. } ==> op_regs(op).contains(obj) && op_regs(op).contains(val),
        op matches Op::GetF { dst, obj, .. } ==> op_regs(op).contains(dst) && op_regs(op).contains(obj),
        op matches Op::OptSome { dst, val, .. } ==> op_regs(op).contains(dst) && op_regs(op).contains(val),
        op matches Op::ResOk { dst, val, .. } ==> op_regs(op).contains(dst) && op_regs(op).contains(val),
        op matches Op::ResErr { dst, val, .. } ==> op_regs(op).contains(dst) && op_regs(op).contains(val),
        op matches Op::Box { dst, val, .. } ==> op_regs(op).contains(dst) && op_regs(op).contains(val),
        op matches Op::Unbox { dst, box_, .. } ==> op_regs(op).contains(dst) && op_regs(op).contains(box_),
        op matches Op::SumIs { dst, v, .. } ==> op_regs(op).contains(dst) && op_regs(op).contains(v),
        op matches Op::Unwrap { dst, v } ==> op_regs(op).contains(dst) && op_regs(op).contains(v),
        op matches Op::UnwrapOr { dst, v, default } ==> op_regs(op).contains(dst) && op_regs(op).contains(v) && op_regs(op).contains(default),
        op matches Op::Expect { dst, v, msg } ==> op_regs(op).contains(dst) && op_regs(op).contains(v) && op_regs(op).contains(msg),
        op matches Op::TidOf { dst, obj } ==> op_regs(op).contains(dst) && op_regs(op).contains(obj),
        op matches Op::IsType { dst, obj, .. } ==> op_regs(op).contains(dst) && op_regs(op).contains(obj),
        op matches Op::IsTrait { dst, obj, .. } ==> op_regs(op).contains(dst) && op_regs(op).contains(obj),
        op matches Op::StrCharAt { dst, s, idx } ==> op_regs(op).contains(dst) && op_regs(op).contains(s) && op_regs(op).contains(idx),
        op matches Op::Const { dst, .. } ==> op_regs(op) == seq![dst],
        op matches Op::ConstRaw { dst, .. } ==> op_regs(op) == seq![dst],
        op matches Op::NewCell { dst, .. } ==> op_regs(op) == seq![dst],
        op matches Op::ArrNew { dst, .. } ==> op_regs(op) == seq![dst],
        op matches Op::ArrLit { dst, .. } ==> op_regs(op) == seq![dst],
        op matches Op::EnumNew { dst, .. } ==> op_regs(op) == seq![dst],
        op matches Op::OptNone { dst, .. } ==> op_regs(op) == seq![dst],
        op matches Op::Panic { msg } ==> op_regs(op) == seq![msg],
        op matches Op::Br { cond, .. } ==> op_regs(op) == seq![cond],
        op matches Op::BrTable { idx, .. } ==> op_regs(op) == seq![idx],
        op is Jmp || op is LoopHead ==> op_regs(op).len() == 0,
        op matches Op::MakeRecord { dst, vals, .. } ==> op_regs(op).contains(dst) && forall|k: int| 0 <= k < vals@.len() ==> op_regs(op).contains(#[trigger] vals@[k]),
        op matches Op::MakeClosure { dst, captures, .. } ==> op_regs(op).contains(dst) && forall|k: int| 0 <= k < captures@.len() ==> op_regs(op).contains(#[trigger] captures@[k]),
        op matches Op::Call { args, dst, .. } ==> (forall|k: int| 0 <= k < args@.len() ==> op_regs(op).contains(#[trigger] args@[k])) && (dst matches Some(d) ==> op_regs(op).contains(d)),
        op matches Op::CallM { recv, args, dst, .. } ==> op_regs(op).contains(recv) && (forall|k: int| 0 <= k < args@.len() ==> op_regs(op).contains(#[trigger] args@[k])) && (dst matches Some(d) ==> op_regs(op).contains(d)),
        op matches Op::CallI { recv, args, dst, .. } ==> op_regs(op).contains(recv) && (forall|k: int| 0 <= k < args@.len() ==> op_regs(op).contains(#[trigger] args@[k])) && (dst matches Some(d) ==> op_regs(op).contains(d)),
        op matches Op::CallFn { fval, args, dst } ==> op_regs(op).contains(fval) && (forall|k: int| 0 <= k < args@.len() ==> op_regs(op).contains(#[trigger] args@[k])) && (dst matches Some(d) ==> op_regs(op).contains(d)),
        op matches Op::CallNat { recv, args, dst, .. } ==> (recv matches Some(r) ==> op_regs(op).contains(r)) && (forall|k: int| 0 <= k < args@.len() ==> op_regs(op).contains(#[trigger] args@[k])) && (dst matches Some(d) ==> op_regs(op).contains(d)),
        op matches Op::Ret { val } ==> (val matches Some(r) ==> op_regs(op) == seq![r]) && (val is None ==> op_regs(op).len() == 0),
        op matches Op::Assert { cond, msg } ==> op_regs(op).contains(cond) && (msg matches Some(m) ==> op_regs(op).contains(m)),
{
    let rs = op_regs(op);
    match op {
        Op::MakeRecord { dst, vals, .. } | Op::MakeClosure { dst, captures: vals, .. } => {
            assert(rs[0] == dst);
            assert forall|k: int| 0 <= k < vals@.len() implies rs.contains(#[trigger] vals@[k]) by {
                assert(rs[k + 1] == vals@[k]);
            }
        },
        Op::Call { args, dst, .. } => {
            assert forall|k: int| 0 <= k < args@.len() implies rs.contains(#[trigger] args@[k]) by {
                assert(rs[k] == args@[k]);
            }
            if let Some(d) = dst {
                assert(rs[args@.len() as int] == d);
            }
        },
        Op::CallM { recv, args, dst, .. } | Op::CallI { recv, args, dst, .. } | Op::CallFn { fval: recv, args, dst } => {
            assert(rs[0] == recv);
            assert forall|k: int| 0 <= k < args@.len() implies rs.contains(#[trigger] args@[k]) by {
                assert(rs[k + 1] == args@[k]);
            }
            if let Some(d) = dst {
                assert(rs[args@.len() + 1int] == d);
            }
        },
        Op::CallNat { recv, args, dst, .. } => {
            let o = opt_reg(recv).len();
            if let Some(r) = recv {
                assert(rs[0] == r);
            }
            assert forall|k: int| 0 <= k < args@.len() implies rs.contains(#[trigger] args@[k]) by {
                assert(rs[o as int + k] == args@[k]);
            }
            if let Some(d) = dst {
                assert(rs[(o + args@.len()) as int] == d);
            }
        },
        Op::Assert { cond, msg } => {
            assert(rs[0] == cond);
            if let Some(m) = msg {
                assert(rs[1] == m);
            }
        },
        _ => {
            if rs.len() > 0 {
                assert(rs[0] == rs[0]);
            }
            if rs.len() > 1 {
                assert(rs[1] == rs[1]);
            }
            if rs.len() > 2 {
                assert(rs[2] == rs[2]);
            }
        },
    }
}

/// The type operand of each op that names a type is listed (so the load
/// check holds it to the table): the type it builds, converts to, boxes,
/// unboxes or tests for.
pub proof fn law_every_type_operand_is_listed(op: Op)
    ensures
        op matches Op::NewCell { ty, .. } ==> op_tys(op) == seq![ty],
        op matches Op::Own { ty, .. } ==> op_tys(op) == seq![ty],
        op matches Op::ArrNew { ty, .. } ==> op_tys(op) == seq![ty],
        op matches Op::ArrLit { ty, .. } ==> op_tys(op) == seq![ty],
        op matches Op::EnumNew { ty, .. } ==> op_tys(op) == seq![ty],
        op matches Op::OptSome { ty, .. } ==> op_tys(op) == seq![ty],
        op matches Op::OptNone { ty, .. } ==> op_tys(op) == seq![ty],
        op matches Op::ResOk { ty, .. } ==> op_tys(op) == seq![ty],
        op matches Op::ResErr { ty, .. } ==> op_tys(op) == seq![ty],
        op matches Op::IsType { want, .. } ==> op_tys(op) == seq![want],
        op matches Op::Unbox { ty, .. } ==> op_tys(op) == seq![ty],
        op matches Op::Box { ty, .. } ==> op_tys(op) == seq![ty],
        op matches Op::MakeRecord { ty, .. } ==> op_tys(op) == seq![ty],
{
}

fn push_all(v: &mut Vec<u16>, s: &Vec<u16>)
    ensures
        final(v)@ == old(v)@ + s@,
{
    let mut i: usize = 0;
    while i < s.len()
        invariant
            i <= s@.len(),
            v@ == old(v)@ + s@.subrange(0, i as int),
        decreases s@.len() - i,
    {
        v.push(s[i]);
        i += 1;
        assert(s@.subrange(0, i as int) =~= s@.subrange(0, i - 1).push(s@[i - 1]));
    }
    assert(s@.subrange(0, i as int) =~= s@);
}

fn push_opt(v: &mut Vec<u16>, o: Option<u16>)
    ensures
        final(v)@ == old(v)@ + opt_reg(o),
{
    if let Some(r) = o {
        v.push(r);
    }
    assert(v@ =~= old(v)@ + opt_reg(o));
}

fn list(rs: &[u16]) -> (v: Vec<u16>)
    ensures
        v@ == rs@,
{
    vstd::slice::slice_to_vec(rs)
}

/// The registers an op names, in operand order.
pub fn regs_of(op: &Op) -> (v: Vec<u16>)
    ensures
        v@ == op_regs(*op),
{
    let mut v: Vec<u16>;
    match op {
        Op::Mov { dst, src } | Op::MovRef { dst, src } | Op::Own { dst, src, .. } | Op::Conv { dst, src, .. } => {
            v = list(&[*dst, *src]);
        },
        Op::Const { dst, .. } | Op::ConstRaw { dst, .. } | Op::NewCell { dst, .. } | Op::ArrNew { dst, .. }
        | Op::ArrLit { dst, .. } | Op::EnumNew { dst, .. } | Op::OptNone { dst, .. } | Op::Panic { msg: dst } => {
            v = list(&[*dst]);
        },
        Op::MakeRecord { dst, vals, .. } => {
            v = list(&[*dst]);
            push_all(&mut v, vals);
        },
        Op::Not { dst, a } | Op::NegF { dst, a, .. } | Op::NegI { dst, a, .. } | Op::SumIs { dst, v: a, .. }
        | Op::Unwrap { dst, v: a } | Op::Unbox { dst, box_: a, .. } | Op::TidOf { dst, obj: a }
        | Op::IsType { dst, obj: a, .. } | Op::IsTrait { dst, obj: a, .. } | Op::GetF { dst, obj: a, .. }
        | Op::OptSome { dst, val: a, .. } | Op::ResOk { dst, val: a, .. } | Op::ResErr { dst, val: a, .. }
        | Op::Box { dst, val: a, .. } => {
            v = list(&[*dst, *a]);
        },
        Op::StrCmp { dst, a, b, .. } | Op::RefEq { dst, a, b, .. } | Op::ArrayCmp { dst, a, b, .. }
        | Op::ArrGet { dst, arr: a, idx: b, .. } | Op::ArrGetF { dst, obj: a, idx: b, .. }
        | Op::FloatBin { dst, a, b, .. } | Op::FloatCmp { dst, a, b, .. } | Op::IntBin { dst, a, b, .. }
        | Op::IntCmp { dst, a, b, .. } | Op::UnwrapOr { dst, v: a, default: b } | Op::Expect { dst, v: a, msg: b }
        | Op::StrCharAt { dst, s: a, idx: b } | Op::ArrSet { arr: dst, idx: a, val: b, .. }
        | Op::ArrSetF { obj: dst, idx: a, val: b, .. } => {
            v = list(&[*dst, *a, *b]);
        },
        Op::SetF { obj, val, .. } => {
            v = list(&[*obj, *val]);
        },
        Op::Br { cond: r, .. } | Op::BrTable { idx: r, .. } => {
            v = list(&[*r]);
        },
        Op::Jmp { .. } | Op::LoopHead => {
            v = Vec::new();
        },
        Op::Call { args, dst, .. } => {
            v = Vec::new();
            push_all(&mut v, args);
            push_opt(&mut v, *dst);
        },
        Op::CallM { recv, args, dst, .. } | Op::CallI { recv, args, dst, .. } | Op::CallFn { fval: recv, args, dst } => {
            v = list(&[*recv]);
            push_all(&mut v, args);
            push_opt(&mut v, *dst);
        },
        Op::CallNat { recv, args, dst, .. } => {
            v = Vec::new();
            push_opt(&mut v, *recv);
            push_all(&mut v, args);
            push_opt(&mut v, *dst);
        },
        Op::Ret { val } => {
            v = Vec::new();
            push_opt(&mut v, *val);
        },
        Op::MakeClosure { dst, captures, .. } => {
            v = list(&[*dst]);
            push_all(&mut v, captures);
        },
        Op::Assert { cond, msg } => {
            v = list(&[*cond]);
            push_opt(&mut v, *msg);
        },
    }
    assert(v@ =~= op_regs(*op));
    v
}

/// The type ids an op names.
pub fn tys_of(op: &Op) -> (v: Vec<u32>)
    ensures
        v@ == op_tys(*op),
{
    let v = match op {
        Op::NewCell { ty, .. } | Op::Own { ty, .. } | Op::ArrNew { ty, .. } | Op::ArrLit { ty, .. }
        | Op::EnumNew { ty, .. } | Op::OptSome { ty, .. } | Op::OptNone { ty, .. } | Op::ResOk { ty, .. }
        | Op::ResErr { ty, .. } | Op::IsType { want: ty, .. } | Op::Unbox { ty, .. } | Op::Box { ty, .. }
        | Op::MakeRecord { ty, .. } => vstd::slice::slice_to_vec(&[*ty]),
        _ => Vec::new(),
    };
    assert(v@ =~= op_tys(*op));
    v
}

} // verus!
