//! The load-time check: a program whose shape is corrupt never executes.
//! Per function, per op: every register operand is inside the frame,
//! every type operand inside the type table, jump targets inside the code,
//! call arities match their callees, and the baked representation and
//! primitive of each typed op match the static types it touches; every
//! function ends in `Ret`. The first fault found is the load error,
//! naming the function and the op.
use vstd::prelude::*;
use crate::bytecode::{Op, TyKind, FuncShape, ProgramShape, op_regs, op_tys, regs_of, tys_of, IntOp as BinOp};
use crate::cell::{PrimTy, prim_is_int, prim_is_float};
use crate::text::{push_str, push_u64, dec_digits};

verus! {

/// The decimal spelling of a count or id.
pub open spec fn dec(n: int) -> Seq<char> {
    dec_digits(n as nat)
}

/// The type table's entry for `ty`; an id outside the table reads as a
/// type of no particular kind.
pub open spec fn kind_at(p: ProgramShape, ty: int) -> TyKind {
    if 0 <= ty < p.types@.len() {
        p.types@[ty]
    } else {
        TyKind::Other
    }
}

/// The table is closed: one representation per type, and every type id
/// that registers, array elements, record fields and the byte type name is
/// inside the table.
pub open spec fn shape_wf(p: ProgramShape) -> bool {
    &&& p.reprs@.len() == p.types@.len()
    &&& p.byte_ty < p.types@.len()
    &&& forall|i: int| 0 <= i < p.types@.len() ==> ty_closed(#[trigger] p.types@[i], p.types@.len())
}

/// The type ids an entry names are inside a table of `n` types.
pub open spec fn ty_closed(t: TyKind, n: nat) -> bool {
    match t {
        TyKind::Array(e) => e < n,
        TyKind::Option(e) => e < n,
        TyKind::Data(fs) => forall|k: int| 0 <= k < fs@.len() ==> #[trigger] fs@[k] < n,
        _ => true,
    }
}

/// The first register in `rs` outside a frame of `n` registers.
pub open spec fn first_bad_reg(rs: Seq<u16>, n: nat) -> Option<u16>
    decreases rs.len(),
{
    if rs.len() == 0 {
        None
    } else if rs[0] >= n {
        Some(rs[0])
    } else {
        first_bad_reg(rs.subrange(1, rs.len() as int), n)
    }
}

/// The first type id in `ts` outside a table of `n` types (`u32::MAX`
/// marks an untyped operand and passes).
pub open spec fn first_bad_ty(ts: Seq<u32>, n: nat) -> Option<u32>
    decreases ts.len(),
{
    if ts.len() == 0 {
        None
    } else if ts[0] != u32::MAX && ts[0] >= n {
        Some(ts[0])
    } else {
        first_bad_ty(ts.subrange(1, ts.len() as int), n)
    }
}

/// The first jump target in `ts` outside code of `n` ops.
pub open spec fn first_bad_target(ts: Seq<u32>, n: nat) -> Option<u32>
    decreases ts.len(),
{
    if ts.len() == 0 {
        None
    } else if ts[0] >= n {
        Some(ts[0])
    } else {
        first_bad_target(ts.subrange(1, ts.len() as int), n)
    }
}

/// The primitive a register's static type is, if it is one.
pub open spec fn reg_prim(p: ProgramShape, f: FuncShape, r: u16) -> Option<PrimTy> {
    match kind_at(p, f.regs@[r as int] as int) {
        TyKind::Prim(q) => Some(q),
        _ => None,
    }
}

/// The element type of a sequence kind (`bytes` holds `u8`).
pub open spec fn elem_of(p: ProgramShape, k: TyKind) -> Option<u32> {
    match k {
        TyKind::Array(e) => Some(e),
        TyKind::Bytes => Some(p.byte_ty),
        _ => None,
    }
}

/// A field access `obj.field` with the baked representation `repr`.
pub open spec fn field_fault(p: ProgramShape, f: FuncShape, obj: u16, field: u32, repr: u32) -> Option<Seq<char>> {
    match kind_at(p, f.regs@[obj as int] as int) {
        TyKind::Data(fs) => if field >= fs@.len() {
            Some("field index "@ + dec(field as int) + " out of range"@)
        } else if p.reprs@[fs@[field as int] as int] != repr {
            Some("field access repr does not match the field type"@)
        } else {
            None
        },
        _ => Some("field access on a non-record register"@),
    }
}

/// An element access through the register `arr`.
pub open spec fn arr_fault(p: ProgramShape, f: FuncShape, arr: u16, repr: u32) -> Option<Seq<char>> {
    match elem_of(p, kind_at(p, f.regs@[arr as int] as int)) {
        Some(e) => if p.reprs@[e as int] != repr {
            Some("array op repr does not match the element type"@)
        } else {
            None
        },
        None => Some("array op on a non-sequence register"@),
    }
}

/// A new sequence of type `ty`.
pub open spec fn arrnew_fault(p: ProgramShape, ty: u32, repr: u32) -> Option<Seq<char>> {
    match elem_of(p, kind_at(p, ty as int)) {
        Some(e) => if p.reprs@[e as int] != repr {
            Some("arrnew repr does not match the element type"@)
        } else {
            None
        },
        None => Some("arrnew over a non-array type"@),
    }
}

/// An element access through the array field `obj.field`.
pub open spec fn field_arr_fault(p: ProgramShape, f: FuncShape, obj: u16, field: u32, repr: u32) -> Option<Seq<char>> {
    match kind_at(p, f.regs@[obj as int] as int) {
        TyKind::Data(fs) => if field >= fs@.len() {
            Some("field-array op field index out of range"@)
        } else {
            match kind_at(p, fs@[field as int] as int) {
                TyKind::Array(e) => if p.reprs@[e as int] != repr {
                    Some("field-array op repr does not match the element type"@)
                } else {
                    None
                },
                _ => Some("field-array op on a non-array field"@),
            }
        },
        _ => Some("field-array op on a non-record register"@),
    }
}

/// A record of type `ty` built from the registers `vals`.
pub open spec fn record_fault(p: ProgramShape, f: FuncShape, ty: u32, vals: Seq<u16>) -> Option<Seq<char>> {
    match kind_at(p, ty as int) {
        TyKind::Data(fs) => if vals.len() != fs@.len() {
            Some("MakeRecord value count does not match the field count"@)
        } else if exists|i: int| 0 <= i < vals.len() && f.regs@[#[trigger] vals[i] as int] != fs@[i] {
            Some("MakeRecord value type does not match the field type"@)
        } else {
            None
        },
        _ => Some("MakeRecord over a non-record type"@),
    }
}

/// What is wrong with an op beyond its register and type operands, given
/// those are in range.
pub open spec fn kind_fault(p: ProgramShape, f: FuncShape, op: Op) -> Option<Seq<char>> {
    let ncode = f.code@.len();
    let nf = p.funcs@.len();
    match op {
        Op::Jmp { target } => if target >= ncode {
            Some("jump target "@ + dec(target as int) + " out of range"@)
        } else {
            None
        },
        Op::Br { then_t, else_t, .. } => match first_bad_target(seq![then_t, else_t], ncode) {
            Some(t) => Some("branch target "@ + dec(t as int) + " out of range"@),
            None => None,
        },
        Op::BrTable { table, default, .. } => match first_bad_target(table@.push(default), ncode) {
            Some(t) => Some("brtable target "@ + dec(t as int) + " out of range"@),
            None => None,
        },
        Op::Call { func, args, .. } => if func >= nf {
            Some("call target #"@ + dec(func as int) + " out of range"@)
        } else if args@.len() != p.funcs@[func as int].params@.len() {
            Some(
                "call arity: "@ + dec(args@.len() as int) + " args for "@ + dec(p.funcs@[func as int].params@.len() as int)
                    + " params"@,
            )
        } else {
            None
        },
        Op::CallM { func, args, .. } => if func >= nf {
            Some("call target #"@ + dec(func as int) + " out of range"@)
        } else if !p.funcs@[func as int].is_method {
            Some("CallM to a non-method"@)
        } else if args@.len() + 1 != p.funcs@[func as int].params@.len() {
            Some(
                "method arity: "@ + dec(args@.len() as int) + " args + self for "@ + dec(
                    p.funcs@[func as int].params@.len() as int,
                ) + " params"@,
            )
        } else {
            None
        },
        Op::CallI { slot, .. } => if slot >= p.trait_slots {
            Some("trait slot "@ + dec(slot as int) + " out of range"@)
        } else {
            None
        },
        Op::MakeClosure { func, .. } => if func >= nf {
            Some("closure target #"@ + dec(func as int) + " out of range"@)
        } else {
            None
        },
        Op::EnumNew { ty, member, .. } => match kind_at(p, ty as int) {
            TyKind::Enum(n) => if member >= n {
                Some("enum member out of range"@)
            } else {
                None
            },
            _ => Some("EnumNew over a non-enum type"@),
        },
        Op::GetF { obj, field, repr, .. } => field_fault(p, f, obj, field, repr),
        Op::SetF { obj, field, repr, .. } => field_fault(p, f, obj, field, repr),
        Op::ArrGet { arr, repr, .. } => arr_fault(p, f, arr, repr),
        Op::ArrSet { arr, repr, .. } => arr_fault(p, f, arr, repr),
        Op::ArrNew { ty, repr, .. } => arrnew_fault(p, ty, repr),
        Op::ArrGetF { obj, field, repr, .. } => field_arr_fault(p, f, obj, field, repr),
        Op::ArrSetF { obj, field, repr, .. } => field_arr_fault(p, f, obj, field, repr),
        Op::MakeRecord { ty, vals, .. } => record_fault(p, f, ty, vals@),
        Op::IsTrait { want, .. } => if want >= p.traits {
            Some("IsTrait want not in the trait table"@)
        } else {
            None
        },
        Op::FloatBin { prim, a, b, .. } => if !prim_is_float(prim) {
            Some("float arith op with a non-float primitive"@)
        } else if reg_prim(p, f, a) != Some(prim) || reg_prim(p, f, b) != Some(prim) {
            Some("float arith operand is not the embedded primitive"@)
        } else {
            None
        },
        Op::NegF { prim, a, .. } => if !prim_is_float(prim) {
            Some("float neg with a non-float primitive"@)
        } else if reg_prim(p, f, a) != Some(prim) {
            Some("float neg operand is not the embedded primitive"@)
        } else {
            None
        },
        Op::FloatCmp { a, b, .. } => if !(reg_prim(p, f, a) matches Some(q) && prim_is_float(q)) || !(reg_prim(p, f, b) matches Some(q) && prim_is_float(q)) {
            Some("float compare operand is not a float"@)
        } else {
            None
        },
        Op::IntBin { prim, a, b, .. } => if !prim_is_int(prim) {
            Some("int op with a non-integer primitive"@)
        } else if reg_prim(p, f, a) != Some(prim) || reg_prim(p, f, b) != Some(prim) {
            Some("int op operand is not the embedded primitive"@)
        } else {
            None
        },
        Op::NegI { prim, a, .. } => if !prim_is_int(prim) {
            Some("int neg with a non-integer primitive"@)
        } else if reg_prim(p, f, a) != Some(prim) {
            Some("int neg operand is not the embedded primitive"@)
        } else {
            None
        },
        Op::IntCmp { prim, a, b, .. } => if prim_is_float(prim) {
            Some("int compare with a float primitive"@)
        } else if reg_prim(p, f, a) != Some(prim) || reg_prim(p, f, b) != Some(prim) {
            Some("int compare operand is not the embedded primitive"@)
        } else {
            None
        },
        Op::Conv { dst, src, from, to } => if reg_prim(p, f, src) != Some(from) || reg_prim(p, f, dst) != Some(to) {
            Some("conv operand types do not match the embedded primitives"@)
        } else {
            None
        },
        Op::OptSome { ty, .. } => if !(kind_at(p, ty as int) is Option) {
            Some("Option op over a non-Option type"@)
        } else {
            None
        },
        Op::OptNone { ty, .. } => if !(kind_at(p, ty as int) is Option) {
            Some("Option op over a non-Option type"@)
        } else {
            None
        },
        Op::ResOk { ty, .. } => if !(kind_at(p, ty as int) is Result) {
            Some("Result op over a non-Result type"@)
        } else {
            None
        },
        Op::ResErr { ty, .. } => if !(kind_at(p, ty as int) is Result) {
            Some("Result op over a non-Result type"@)
        } else {
            None
        },
        _ => None,
    }
}

/// What is wrong with the op at `pc` of `f`, if anything: a register
/// operand first, then a type operand, then the op's own checks.
pub open spec fn op_fault(p: ProgramShape, f: FuncShape, pc: int) -> Option<Seq<char>> {
    let op = f.code@[pc];
    let nregs = f.regs@.len();
    match first_bad_reg(op_regs(op), nregs) {
        Some(r) => Some("register r"@ + dec(r as int) + " out of range ("@ + dec(nregs as int) + " regs)"@),
        None => match first_bad_ty(op_tys(op), p.types@.len()) {
            Some(t) => Some("type id "@ + dec(t as int) + " out of range"@),
            None => kind_fault(p, f, op),
        },
    }
}

/// The first faulty op of `f` at or after `pc`, with its fault.
pub open spec fn code_fault(p: ProgramShape, f: FuncShape, pc: int) -> Option<(int, Seq<char>)>
    decreases f.code@.len() - pc,
{
    if pc < 0 || pc >= f.code@.len() {
        None
    } else {
        match op_fault(p, f, pc) {
            Some(m) => Some((pc, m)),
            None => code_fault(p, f, pc + 1),
        }
    }
}

/// The load error of function `fi`, if any: its first faulty op, or a
/// last op that is not `Ret`.
pub open spec fn func_fault(p: ProgramShape, fi: int) -> Option<Seq<char>> {
    let f = p.funcs@[fi];
    let ctx = "function "@ + f.name@ + " (#"@ + dec(fi) + "): "@;
    match code_fault(p, f, 0) {
        Some((pc, m)) => Some(ctx + "op @"@ + dec(pc) + ": "@ + m),
        None => if f.code@.len() > 0 && f.code@.last() is Ret {
            None
        } else {
            Some(ctx + "function must end in Ret"@)
        },
    }
}

/// The load error of the first faulty function at or after `fi`.
pub open spec fn faults_from(p: ProgramShape, fi: int) -> Option<Seq<char>>
    decreases p.funcs@.len() - fi,
{
    if fi < 0 || fi >= p.funcs@.len() {
        None
    } else {
        match func_fault(p, fi) {
            Some(m) => Some(m),
            None => faults_from(p, fi + 1),
        }
    }
}

/// The program's load error, if any.
pub open spec fn program_fault(p: ProgramShape) -> Option<Seq<char>> {
    faults_from(p, 0)
}

fn text(t: &str) -> (s: String)
    ensures
        s@ == t@,
{
    let mut s = String::new();
    push_str(&mut s, t);
    s
}

fn text_num(pre: &str, n: u64, post: &str) -> (s: String)
    ensures
        s@ == pre@ + dec_digits(n as nat) + post@,
{
    let mut s = String::new();
    push_str(&mut s, pre);
    push_u64(&mut s, n);
    push_str(&mut s, post);
    s
}

fn find_bad_reg(rs: &Vec<u16>, n: usize) -> (r: Option<u16>)
    ensures
        r == first_bad_reg(rs@, n as nat),
{
    let mut i: usize = 0;
    assert(rs@.subrange(0, rs@.len() as int) =~= rs@);
    while i < rs.len()
        invariant
            i <= rs@.len(),
            first_bad_reg(rs@, n as nat) == first_bad_reg(rs@.subrange(i as int, rs@.len() as int), n as nat),
        decreases rs@.len() - i,
    {
        let ghost rest = rs@.subrange(i as int, rs@.len() as int);
        assert(rest.subrange(1, rest.len() as int) =~= rs@.subrange(i + 1, rs@.len() as int));
        if rs[i] as usize >= n {
            return Some(rs[i]);
        }
        i += 1;
    }
    None
}

fn find_bad_ty(ts: &Vec<u32>, n: usize) -> (r: Option<u32>)
    ensures
        r == first_bad_ty(ts@, n as nat),
{
    let mut i: usize = 0;
    assert(ts@.subrange(0, ts@.len() as int) =~= ts@);
    while i < ts.len()
        invariant
            i <= ts@.len(),
            first_bad_ty(ts@, n as nat) == first_bad_ty(ts@.subrange(i as int, ts@.len() as int), n as nat),
        decreases ts@.len() - i,
    {
        let ghost rest = ts@.subrange(i as int, ts@.len() as int);
        assert(rest.subrange(1, rest.len() as int) =~= ts@.subrange(i + 1, ts@.len() as int));
        if ts[i] != u32::MAX && ts[i] as usize >= n {
            return Some(ts[i]);
        }
        i += 1;
    }
    None
}

fn find_bad_target(ts: &Vec<u32>, n: usize) -> (r: Option<u32>)
    ensures
        r == first_bad_target(ts@, n as nat),
{
    let mut i: usize = 0;
    assert(ts@.subrange(0, ts@.len() as int) =~= ts@);
    while i < ts.len()
        invariant
            i <= ts@.len(),
            first_bad_target(ts@, n as nat) == first_bad_target(ts@.subrange(i as int, ts@.len() as int), n as nat),
        decreases ts@.len() - i,
    {
        let ghost rest = ts@.subrange(i as int, ts@.len() as int);
        assert(rest.subrange(1, rest.len() as int) =~= ts@.subrange(i + 1, ts@.len() as int));
        if ts[i] as usize >= n {
            return Some(ts[i]);
        }
        i += 1;
    }
    None
}

/// The primitive of register `r`'s static type, if it is one.
fn prim_of_reg(p: &ProgramShape, f: &FuncShape, r: u16) -> (q: Option<PrimTy>)
    requires
        (r as int) < f.regs@.len(),
    ensures
        q == reg_prim(*p, *f, r),
{
    let t = f.regs[r as usize];
    if (t as usize) < p.types.len() {
        match &p.types[t as usize] {
            TyKind::Prim(q) => Some(*q),
            _ => None,
        }
    } else {
        None
    }
}

fn is_prim(q: Option<PrimTy>, want: PrimTy) -> (b: bool)
    ensures
        b == (q == Some(want)),
{
    match q {
        Some(x) => x == want,
        None => false,
    }
}

fn is_float_prim(q: Option<PrimTy>) -> (b: bool)
    ensures
        b == (q matches Some(x) && prim_is_float(x)),
{
    match q {
        Some(x) => x.is_float(),
        None => false,
    }
}

/// The element type of the sequence type `ty`, if it is one.
fn elem_of_ty(p: &ProgramShape, ty: u32) -> (e: Option<u32>)
    requires
        shape_wf(*p),
    ensures
        e == elem_of(*p, kind_at(*p, ty as int)),
        e matches Some(x) ==> x < p.types@.len(),
{
    if (ty as usize) < p.types.len() {
        match &p.types[ty as usize] {
            TyKind::Array(e) => Some(*e),
            TyKind::Bytes => Some(p.byte_ty),
            _ => None,
        }
    } else {
        None
    }
}

fn check_field(p: &ProgramShape, f: &FuncShape, obj: u16, field: u32, repr: u32) -> (m: Option<String>)
    requires
        shape_wf(*p),
        (obj as int) < f.regs@.len(),
    ensures
        match m {
            Some(s) => field_fault(*p, *f, obj, field, repr) == Some(s@),
            None => field_fault(*p, *f, obj, field, repr) is None,
        },
{
    let t = f.regs[obj as usize];
    if (t as usize) < p.types.len() {
        if let TyKind::Data(fs) = &p.types[t as usize] {
            if field as usize >= fs.len() {
                return Some(text_num("field index ", field as u64, " out of range"));
            }
            let ft = fs[field as usize];
            proof {
                assert(p.types@[t as int] matches TyKind::Data(g) && g@ == fs@);
                assert(fs@[field as int] < p.types@.len());
            }
            if p.reprs[ft as usize] != repr {
                return Some(text("field access repr does not match the field type"));
            }
            return None;
        }
    }
    Some(text("field access on a non-record register"))
}

fn check_arr(p: &ProgramShape, f: &FuncShape, arr: u16, repr: u32) -> (m: Option<String>)
    requires
        shape_wf(*p),
        (arr as int) < f.regs@.len(),
    ensures
        match m {
            Some(s) => arr_fault(*p, *f, arr, repr) == Some(s@),
            None => arr_fault(*p, *f, arr, repr) is None,
        },
{
    match elem_of_ty(p, f.regs[arr as usize]) {
        Some(e) => if p.reprs[e as usize] != repr {
            Some(text("array op repr does not match the element type"))
        } else {
            None
        },
        None => Some(text("array op on a non-sequence register")),
    }
}

fn check_arrnew(p: &ProgramShape, ty: u32, repr: u32) -> (m: Option<String>)
    requires
        shape_wf(*p),
    ensures
        match m {
            Some(s) => arrnew_fault(*p, ty, repr) == Some(s@),
            None => arrnew_fault(*p, ty, repr) is None,
        },
{
    match elem_of_ty(p, ty) {
        Some(e) => if p.reprs[e as usize] != repr {
            Some(text("arrnew repr does not match the element type"))
        } else {
            None
        },
        None => Some(text("arrnew over a non-array type")),
    }
}

fn check_field_arr(p: &ProgramShape, f: &FuncShape, obj: u16, field: u32, repr: u32) -> (m: Option<String>)
    requires
        shape_wf(*p),
        (obj as int) < f.regs@.len(),
    ensures
        match m {
            Some(s) => field_arr_fault(*p, *f, obj, field, repr) == Some(s@),
            None => field_arr_fault(*p, *f, obj, field, repr) is None,
        },
{
    let t = f.regs[obj as usize];
    if (t as usize) < p.types.len() {
        if let TyKind::Data(fs) = &p.types[t as usize] {
            if field as usize >= fs.len() {
                return Some(text("field-array op field index out of range"));
            }
            let ft = fs[field as usize];
            proof {
                assert(p.types@[t as int] matches TyKind::Data(g) && g@ == fs@);
                assert(fs@[field as int] < p.types@.len());
            }
            if let TyKind::Array(e) = &p.types[ft as usize] {
                proof {
                    assert(p.types@[ft as int] matches TyKind::Array(x) && x == *e);
                }
                if p.reprs[*e as usize] != repr {
                    return Some(text("field-array op repr does not match the element type"));
                }
                return None;
            }
            return Some(text("field-array op on a non-array field"));
        }
    }
    Some(text("field-array op on a non-record register"))
}

fn check_record(p: &ProgramShape, f: &FuncShape, ty: u32, vals: &Vec<u16>) -> (m: Option<String>)
    requires
        forall|i: int| 0 <= i < vals@.len() ==> (#[trigger] vals@[i] as int) < f.regs@.len(),
    ensures
        match m {
            Some(s) => record_fault(*p, *f, ty, vals@) == Some(s@),
            None => record_fault(*p, *f, ty, vals@) is None,
        },
{
    if (ty as usize) < p.types.len() {
        if let TyKind::Data(fs) = &p.types[ty as usize] {
            proof {
                assert(p.types@[ty as int] matches TyKind::Data(g) && g@ == fs@);
            }
            if vals.len() != fs.len() {
                return Some(text("MakeRecord value count does not match the field count"));
            }
            let mut i: usize = 0;
            while i < vals.len()
                invariant
                    i <= vals@.len(),
                    vals@.len() == fs@.len(),
                    (ty as int) < p.types@.len(),
                    p.types@[ty as int] matches TyKind::Data(g) && g@ == fs@,
                    forall|i: int| 0 <= i < vals@.len() ==> (#[trigger] vals@[i] as int) < f.regs@.len(),
                    forall|k: int| 0 <= k < i ==> f.regs@[#[trigger] vals@[k] as int] == fs@[k],
                decreases vals@.len() - i,
            {
                if f.regs[vals[i] as usize] != fs[i] {
                    assert(f.regs@[vals@[i as int] as int] != fs@[i as int]);
                    assert(exists|j: int| 0 <= j < vals@.len() && f.regs@[#[trigger] vals@[j] as int] != fs@[j]);
                    return Some(text("MakeRecord value type does not match the field type"));
                }
                i += 1;
            }
            return None;
        }
    }
    Some(text("MakeRecord over a non-record type"))
}

/// The op's own checks, its register operands being in range.
fn check_kind(p: &ProgramShape, f: &FuncShape, op: &Op) -> (m: Option<String>)
    requires
        shape_wf(*p),
        first_bad_reg(op_regs(*op), f.regs@.len()) is None,
    ensures
        match m {
            Some(s) => kind_fault(*p, *f, *op) == Some(s@),
            None => kind_fault(*p, *f, *op) is None,
        },
{
    proof {
        lemma_regs_in_range(op_regs(*op), f.regs@.len());
    }
    let ncode = f.code.len();
    let nf = p.funcs.len();
    match op {
        Op::Jmp { target } => if *target as usize >= ncode {
            Some(text_num("jump target ", *target as u64, " out of range"))
        } else {
            None
        },
        Op::Br { then_t, else_t, .. } => {
            let ts = vstd::slice::slice_to_vec(&[*then_t, *else_t]);
            assert(ts@ =~= seq![*then_t, *else_t]);
            match find_bad_target(&ts, ncode) {
                Some(t) => Some(text_num("branch target ", t as u64, " out of range")),
                None => None,
            }
        },
        Op::BrTable { table, default, .. } => {
            let mut ts = vstd::slice::slice_to_vec(table.as_slice());
            ts.push(*default);
            match find_bad_target(&ts, ncode) {
                Some(t) => Some(text_num("brtable target ", t as u64, " out of range")),
                None => None,
            }
        },
        Op::Call { func, args, .. } => if *func as usize >= nf {
            Some(text_num("call target #", *func as u64, " out of range"))
        } else {
            let np = p.funcs[*func as usize].params.len();
            if args.len() != np {
                let mut s = text_num("call arity: ", args.len() as u64, " args for ");
                push_u64(&mut s, np as u64);
                push_str(&mut s, " params");
                Some(s)
            } else {
                None
            }
        },
        Op::CallM { func, args, .. } => if *func as usize >= nf {
            Some(text_num("call target #", *func as u64, " out of range"))
        } else if !p.funcs[*func as usize].is_method {
            Some(text("CallM to a non-method"))
        } else {
            let np = p.funcs[*func as usize].params.len();
            if np == 0 || args.len() != np - 1 {
                let mut s = text_num("method arity: ", args.len() as u64, " args + self for ");
                push_u64(&mut s, np as u64);
                push_str(&mut s, " params");
                Some(s)
            } else {
                None
            }
        },
        Op::CallI { slot, .. } => if *slot >= p.trait_slots {
            Some(text_num("trait slot ", *slot as u64, " out of range"))
        } else {
            None
        },
        Op::MakeClosure { func, .. } => if *func as usize >= nf {
            Some(text_num("closure target #", *func as u64, " out of range"))
        } else {
            None
        },
        Op::EnumNew { ty, member, .. } => {
            if (*ty as usize) < p.types.len() {
                if let TyKind::Enum(n) = &p.types[*ty as usize] {
                    return if *member >= *n {
                        Some(text("enum member out of range"))
                    } else {
                        None
                    };
                }
            }
            Some(text("EnumNew over a non-enum type"))
        },
        Op::GetF { obj, field, repr, .. } | Op::SetF { obj, field, repr, .. } => check_field(p, f, *obj, *field, *repr),
        Op::ArrGet { arr, repr, .. } | Op::ArrSet { arr, repr, .. } => check_arr(p, f, *arr, *repr),
        Op::ArrNew { ty, repr, .. } => check_arrnew(p, *ty, *repr),
        Op::ArrGetF { obj, field, repr, .. } | Op::ArrSetF { obj, field, repr, .. } => check_field_arr(
            p,
            f,
            *obj,
            *field,
            *repr,
        ),
        Op::MakeRecord { ty, vals, .. } => {
            proof {
                assert forall|i: int| 0 <= i < vals@.len() implies (#[trigger] vals@[i] as int) < f.regs@.len() by {
                    assert(op_regs(*op)[i + 1] == vals@[i]);
                }
            }
            check_record(p, f, *ty, vals)
        },
        Op::IsTrait { want, .. } => if *want >= p.traits {
            Some(text("IsTrait want not in the trait table"))
        } else {
            None
        },
        Op::FloatBin { prim, a, b, .. } => if !prim.is_float() {
            Some(text("float arith op with a non-float primitive"))
        } else if !is_prim(prim_of_reg(p, f, *a), *prim) || !is_prim(prim_of_reg(p, f, *b), *prim) {
            Some(text("float arith operand is not the embedded primitive"))
        } else {
            None
        },
        Op::NegF { prim, a, .. } => if !prim.is_float() {
            Some(text("float neg with a non-float primitive"))
        } else if !is_prim(prim_of_reg(p, f, *a), *prim) {
            Some(text("float neg operand is not the embedded primitive"))
        } else {
            None
        },
        Op::FloatCmp { a, b, .. } => if !is_float_prim(prim_of_reg(p, f, *a)) || !is_float_prim(prim_of_reg(p, f, *b)) {
            Some(text("float compare operand is not a float"))
        } else {
            None
        },
        Op::IntBin { prim, a, b, .. } => if !prim.is_int() {
            Some(text("int op with a non-integer primitive"))
        } else if !is_prim(prim_of_reg(p, f, *a), *prim) || !is_prim(prim_of_reg(p, f, *b), *prim) {
            Some(text("int op operand is not the embedded primitive"))
        } else {
            None
        },
        Op::NegI { prim, a, .. } => if !prim.is_int() {
            Some(text("int neg with a non-integer primitive"))
        } else if !is_prim(prim_of_reg(p, f, *a), *prim) {
            Some(text("int neg operand is not the embedded primitive"))
        } else {
            None
        },
        Op::IntCmp { prim, a, b, .. } => if prim.is_float() {
            Some(text("int compare with a float primitive"))
        } else if !is_prim(prim_of_reg(p, f, *a), *prim) || !is_prim(prim_of_reg(p, f, *b), *prim) {
            Some(text("int compare operand is not the embedded primitive"))
        } else {
            None
        },
        Op::Conv { dst, src, from, to } => if !is_prim(prim_of_reg(p, f, *src), *from) || !is_prim(
            prim_of_reg(p, f, *dst),
            *to,
        ) {
            Some(text("conv operand types do not match the embedded primitives"))
        } else {
            None
        },
        Op::OptSome { ty, .. } | Op::OptNone { ty, .. } => {
            if (*ty as usize) < p.types.len() {
                if let TyKind::Option(_) = &p.types[*ty as usize] {
                    return None;
                }
            }
            Some(text("Option op over a non-Option type"))
        },
        Op::ResOk { ty, .. } | Op::ResErr { ty, .. } => {
            if (*ty as usize) < p.types.len() {
                if let TyKind::Result = &p.types[*ty as usize] {
                    return None;
                }
            }
            Some(text("Result op over a non-Result type"))
        },
        _ => None,
    }
}

/// No register is out of range: each one is inside the frame.
proof fn lemma_regs_in_range(rs: Seq<u16>, n: nat)
    requires
        first_bad_reg(rs, n) is None,
    ensures
        forall|i: int| 0 <= i < rs.len() ==> (#[trigger] rs[i] as int) < n,
    decreases rs.len(),
{
    if rs.len() > 0 {
        let rest = rs.subrange(1, rs.len() as int);
        lemma_regs_in_range(rest, n);
        assert forall|i: int| 0 <= i < rs.len() implies (#[trigger] rs[i] as int) < n by {
            if i > 0 {
                assert(rs[i] == rest[i - 1]);
            }
        }
    }
}

/// The fault of the op at `pc`, if any.
fn check_op(p: &ProgramShape, f: &FuncShape, pc: usize) -> (m: Option<String>)
    requires
        shape_wf(*p),
        pc < f.code@.len(),
    ensures
        match m {
            Some(s) => op_fault(*p, *f, pc as int) == Some(s@),
            None => op_fault(*p, *f, pc as int) is None,
        },
{
    let op = &f.code[pc];
    let nregs = f.regs.len();
    let rs = regs_of(op);
    if let Some(r) = find_bad_reg(&rs, nregs) {
        let mut s = text_num("register r", r as u64, " out of range (");
        push_u64(&mut s, nregs as u64);
        push_str(&mut s, " regs)");
        return Some(s);
    }
    let ts = tys_of(op);
    if let Some(t) = find_bad_ty(&ts, p.types.len()) {
        return Some(text_num("type id ", t as u64, " out of range"));
    }
    check_kind(p, f, op)
}

/// The load error of function `fi`, if any.
fn check_func(p: &ProgramShape, fi: usize) -> (m: Option<String>)
    requires
        shape_wf(*p),
        fi < p.funcs@.len(),
    ensures
        match m {
            Some(s) => func_fault(*p, fi as int) == Some(s@),
            None => func_fault(*p, fi as int) is None,
        },
{
    let f = &p.funcs[fi];
    let mut pc: usize = 0;
    while pc < f.code.len()
        invariant
            shape_wf(*p),
            *f == p.funcs@[fi as int],
            pc <= f.code@.len(),
            code_fault(*p, *f, 0) == code_fault(*p, *f, pc as int),
        decreases f.code@.len() - pc,
    {
        if let Some(m) = check_op(p, f, pc) {
            assert(code_fault(*p, *f, pc as int) == Some((pc as int, m@)));
            let mut s = text("function ");
            push_str(&mut s, f.name.as_str());
            push_str(&mut s, " (#");
            push_u64(&mut s, fi as u64);
            push_str(&mut s, "): ");
            push_str(&mut s, "op @");
            push_u64(&mut s, pc as u64);
            push_str(&mut s, ": ");
            push_str(&mut s, m.as_str());
            assert(s@ =~= "function "@ + f.name@ + " (#"@ + dec(fi as int) + "): "@ + "op @"@ + dec(pc as int) + ": "@ + m@);
            return Some(s);
        }
        pc += 1;
    }
    assert(code_fault(*p, *f, pc as int) is None);
    let n = f.code.len();
    if n > 0 {
        if let Op::Ret { .. } = &f.code[n - 1] {
            return None;
        }
    }
    let mut s = text("function ");
    push_str(&mut s, f.name.as_str());
    push_str(&mut s, " (#");
    push_u64(&mut s, fi as u64);
    push_str(&mut s, "): ");
    push_str(&mut s, "function must end in Ret");
    assert(s@ =~= "function "@ + f.name@ + " (#"@ + dec(fi as int) + "): "@ + "function must end in Ret"@);
    Some(s)
}

proof fn lemma_no_fault_from(p: ProgramShape, from: int, fi: int)
    requires
        0 <= from <= fi < p.funcs@.len(),
        faults_from(p, from) is None,
    ensures
        func_fault(p, fi) is None,
    decreases fi - from,
{
    if from < fi {
        lemma_no_fault_from(p, from + 1, fi);
    }
}

proof fn lemma_no_op_fault_from(p: ProgramShape, f: FuncShape, from: int, pc: int)
    requires
        0 <= from <= pc < f.code@.len(),
        code_fault(p, f, from) is None,
    ensures
        op_fault(p, f, pc) is None,
    decreases pc - from,
{
    if from < pc {
        lemma_no_op_fault_from(p, f, from + 1, pc);
    }
}

/// A program that passes the load check runs only sound ops: every op of
/// every function names registers inside its frame, a jump stays inside
/// the function's code, a direct call's argument count is the callee's
/// parameter count, and every function ends in `Ret`.
pub proof fn law_a_checked_program_stays_in_its_frames(p: ProgramShape, fi: int, pc: int)
    requires
        program_fault(p) is None,
        0 <= fi < p.funcs@.len(),
        0 <= pc < p.funcs@[fi].code@.len(),
    ensures
        ({
            let f = p.funcs@[fi];
            let op = f.code@[pc];
            &&& forall|i: int| 0 <= i < op_regs(op).len() ==> (#[trigger] op_regs(op)[i] as int) < f.regs@.len()
            &&& (op matches Op::Jmp { target } ==> target < f.code@.len())
            &&& (op matches Op::Call { func, args, .. } ==> func < p.funcs@.len() && args@.len() == p.funcs@[func as int].params@.len())
            &&& f.code@.last() is Ret
        }),
{
    let f = p.funcs@[fi];
    lemma_no_fault_from(p, 0, fi);
    lemma_no_op_fault_from(p, f, 0, pc);
    lemma_regs_in_range(op_regs(f.code@[pc]), f.regs@.len());
}

proof fn lemma_targets_in_range(ts: Seq<u32>, n: nat)
    requires
        first_bad_target(ts, n) is None,
    ensures
        forall|i: int| 0 <= i < ts.len() ==> (#[trigger] ts[i] as int) < n,
    decreases ts.len(),
{
    if ts.len() > 0 {
        let rest = ts.subrange(1, ts.len() as int);
        lemma_targets_in_range(rest, n);
        assert forall|i: int| 0 <= i < ts.len() implies (#[trigger] ts[i] as int) < n by {
            if i > 0 {
                assert(ts[i] == rest[i - 1]);
            }
        }
    }
}

proof fn lemma_tys_in_range(ts: Seq<u32>, n: nat)
    requires
        first_bad_ty(ts, n) is None,
    ensures
        forall|i: int| 0 <= i < ts.len() ==> #[trigger] ts[i] == u32::MAX || (ts[i] as int) < n,
    decreases ts.len(),
{
    if ts.len() > 0 {
        let rest = ts.subrange(1, ts.len() as int);
        lemma_tys_in_range(rest, n);
        assert forall|i: int| 0 <= i < ts.len() implies #[trigger] ts[i] == u32::MAX || (ts[i] as int) < n by {
            if i > 0 {
                assert(ts[i] == rest[i - 1]);
            }
        }
    }
}

/// Register `obj` of `f` holds a record with a field `field` whose type's
/// representation is `repr`.
pub open spec fn field_typed(p: ProgramShape, f: FuncShape, obj: u16, field: u32, repr: u32) -> bool {
    let t = f.regs@[obj as int];
    t < p.types@.len() && (p.types@[t as int] matches TyKind::Data(fs) && field < fs@.len() && p.reprs@[fs@[field as int] as int] == repr)
}

/// The type `t` is an array, whose element type has the representation
/// `repr`, or `bytes` with `u8`'s representation `repr`.
pub open spec fn elems_typed(p: ProgramShape, t: u32, repr: u32) -> bool {
    t < p.types@.len() && ((p.types@[t as int] matches TyKind::Array(e) && p.reprs@[e as int] == repr) || (p.types@[t as int] is Bytes
        && p.reprs@[p.byte_ty as int] == repr))
}

/// Whether the static type of register `r` of `f` is the primitive `q`.
pub open spec fn reg_is_prim(p: ProgramShape, f: FuncShape, r: u16, q: PrimTy) -> bool {
    0 <= f.regs@[r as int] < p.types@.len() && p.types@[f.regs@[r as int] as int] == TyKind::Prim(q)
}

/// A program that passes the load check has only well-shaped ops: every
/// branch target, table target and default lies inside the code; a method
/// call names a method whose parameters are its arguments plus the
/// receiver; trait slots, closure targets and trait ids are inside their
/// tables; an enum is built over an enum type with a member it has; every
/// type operand is in the table (or untyped); integer ops carry an integer
/// primitive and read registers of exactly that primitive, float ops a
/// float primitive, integer comparisons no float; conversions read and
/// write registers of their two primitives; `Option` and `Result` ops name
/// types of those kinds; a record is built over a record type from one
/// register per field, each of the field's type.
pub proof fn law_a_checked_program_is_well_shaped(p: ProgramShape, fi: int, pc: int)
    requires
        program_fault(p) is None,
        0 <= fi < p.funcs@.len(),
        0 <= pc < p.funcs@[fi].code@.len(),
    ensures
        ({
            let f = p.funcs@[fi];
            let op = f.code@[pc];
            let n = f.code@.len();
            &&& (op matches Op::Br { then_t, else_t, .. } ==> then_t < n && else_t < n)
            &&& (op matches Op::BrTable { table, default, .. } ==> default < n && forall|k: int| 0 <= k < table@.len() ==> #[trigger] table@[k] < n)
            &&& (op matches Op::CallM { func, args, .. } ==> func < p.funcs@.len() && p.funcs@[func as int].is_method
                && args@.len() + 1 == p.funcs@[func as int].params@.len())
            &&& (op matches Op::CallI { slot, .. } ==> slot < p.trait_slots)
            &&& (op matches Op::MakeClosure { func, .. } ==> func < p.funcs@.len())
            &&& (op matches Op::IsTrait { want, .. } ==> want < p.traits)
            &&& (op matches Op::EnumNew { ty, member, .. } ==> ty < p.types@.len() && (p.types@[ty as int] matches TyKind::Enum(m) && member < m))
            &&& forall|i: int| 0 <= i < op_tys(op).len() ==> #[trigger] op_tys(op)[i] == u32::MAX || op_tys(op)[i] < p.types@.len()
            &&& (op matches Op::IntBin { prim, a, b, .. } ==> prim_is_int(prim) && reg_is_prim(p, f, a, prim) && reg_is_prim(p, f, b, prim))
            &&& (op matches Op::NegI { prim, a, .. } ==> prim_is_int(prim) && reg_is_prim(p, f, a, prim))
            &&& (op matches Op::IntCmp { prim, a, b, .. } ==> !prim_is_float(prim) && reg_is_prim(p, f, a, prim) && reg_is_prim(p, f, b, prim))
            &&& (op matches Op::FloatBin { prim, a, b, .. } ==> prim_is_float(prim) && reg_is_prim(p, f, a, prim) && reg_is_prim(p, f, b, prim))
            &&& (op matches Op::NegF { prim, a, .. } ==> prim_is_float(prim) && reg_is_prim(p, f, a, prim))
            &&& (op matches Op::Conv { dst, src, from, to } ==> reg_is_prim(p, f, src, from) && reg_is_prim(p, f, dst, to))
            &&& (op matches Op::OptSome { ty, .. } ==> ty < p.types@.len() && p.types@[ty as int] is Option)
            &&& (op matches Op::OptNone { ty, .. } ==> ty < p.types@.len() && p.types@[ty as int] is Option)
            &&& (op matches Op::ResOk { ty, .. } ==> ty < p.types@.len() && p.types@[ty as int] is Result)
            &&& (op matches Op::ResErr { ty, .. } ==> ty < p.types@.len() && p.types@[ty as int] is Result)
            &&& (op matches Op::GetF { obj, field, repr, .. } ==> field_typed(p, f, obj, field, repr))
            &&& (op matches Op::SetF { obj, field, repr, .. } ==> field_typed(p, f, obj, field, repr))
            &&& (op matches Op::ArrGet { arr, repr, .. } ==> elems_typed(p, f.regs@[arr as int], repr))
            &&& (op matches Op::ArrSet { arr, repr, .. } ==> elems_typed(p, f.regs@[arr as int], repr))
            &&& (op matches Op::ArrNew { ty, repr, .. } ==> elems_typed(p, ty, repr))
            &&& (op matches Op::MakeRecord { ty, vals, .. } ==> ty < p.types@.len() && (p.types@[ty as int] matches TyKind::Data(fs)
                && fs@.len() == vals@.len() && forall|k: int| 0 <= k < vals@.len() ==> f.regs@[#[trigger] vals@[k] as int] == fs@[k]))
        }),
{
    let f = p.funcs@[fi];
    let op = f.code@[pc];
    lemma_no_fault_from(p, 0, fi);
    lemma_no_op_fault_from(p, f, 0, pc);
    lemma_tys_in_range(op_tys(op), p.types@.len());
    match op {
        Op::Br { then_t, else_t, .. } => {
            lemma_targets_in_range(seq![then_t, else_t], f.code@.len());
            assert(seq![then_t, else_t][1] == else_t);
        },
        Op::BrTable { table, default, .. } => {
            let ts = table@.push(default);
            lemma_targets_in_range(ts, f.code@.len());
            assert(ts[table@.len() as int] == default);
            assert forall|k: int| 0 <= k < table@.len() implies #[trigger] table@[k] < f.code@.len() by {
                assert(ts[k] == table@[k]);
            }
        },
        Op::MakeRecord { ty, vals, .. } => {
            if let TyKind::Data(fs) = kind_at(p, ty as int) {
                if vals@.len() == fs@.len() {
                    assert forall|k: int| 0 <= k < vals@.len() implies f.regs@[#[trigger] vals@[k] as int] == fs@[k] by {
                        if f.regs@[vals@[k] as int] != fs@[k] {
                            assert(exists|i: int| 0 <= i < vals@.len() && f.regs@[#[trigger] vals@[i] as int] != fs@[i]);
                        }
                    }
                }
            }
        },
        _ => {},
    }
}

/// The load-time check: `Ok` exactly when no function has a fault, else
/// the first fault's text, naming the function (and the op).
pub fn verify(p: &ProgramShape) -> (r: Result<(), String>)
    requires
        shape_wf(*p),
    ensures
        r is Ok <==> program_fault(*p) is None,
        r matches Err(m) ==> program_fault(*p) == Some(m@),
{
    let mut fi: usize = 0;
    while fi < p.funcs.len()
        invariant
            shape_wf(*p),
            fi <= p.funcs@.len(),
            program_fault(*p) == faults_from(*p, fi as int),
        decreases p.funcs@.len() - fi,
    {
        if let Some(m) = check_func(p, fi) {
            return Err(m);
        }
        fi += 1;
    }
    Ok(())
}

} // verus!
