//! What the machine works out from a program before it runs: each type's
//! slot representation, each function's reference registers (the ones a
//! frame teardown releases), and each type's reference fields (the ones a
//! dying cell releases).
use vstd::prelude::*;
use crate::bytecode::{TyKind, FuncShape, ProgramShape};
use crate::cell::PrimTy;

verus! {

/// How a value of a type sits in a slot: a primitive word, a word that
/// holds no reference (unit, functions), or a counted reference.
#[derive(Clone, Copy, Debug, PartialEq, Eq, Structural)]
pub enum Repr {
    Prim(PrimTy),
    Any,
    Ref,
}

/// The representation of a type of kind `k`.
pub open spec fn repr_of_kind(k: TyKind) -> Repr {
    match k {
        TyKind::Prim(p) => Repr::Prim(p),
        TyKind::Nil | TyKind::Fn => Repr::Any,
        _ => Repr::Ref,
    }
}

/// Whether values of the type with id `ty` are counted references.
pub open spec fn ty_is_ref(p: ProgramShape, ty: int) -> bool {
    0 <= ty < p.types@.len() && repr_of_kind(p.types@[ty]) == Repr::Ref
}

/// The registers of a frame whose static type is a reference, ascending.
pub open spec fn ref_regs_spec(p: ProgramShape, regs: Seq<u32>, upto: int) -> Seq<u16>
    decreases upto,
{
    if upto <= 0 {
        Seq::empty()
    } else {
        ref_regs_spec(p, regs, upto - 1) + if ty_is_ref(p, regs[upto - 1] as int) {
            seq![(upto - 1) as u16]
        } else {
            Seq::empty()
        }
    }
}

/// The reference fields of a type, ascending: a record's reference-typed
/// fields, the payload slot of an optional over a reference type, none
/// otherwise.
pub open spec fn ref_fields_spec(p: ProgramShape, k: TyKind) -> Seq<u16> {
    match k {
        TyKind::Data(fs) => ref_regs_spec(p, fs@, fs@.len() as int),
        TyKind::Option(e) => if ty_is_ref(p, e as int) {
            seq![0u16]
        } else {
            Seq::empty()
        },
        _ => Seq::empty(),
    }
}

fn repr_of_entry(k: &TyKind) -> (r: Repr)
    ensures
        r == repr_of_kind(*k),
{
    match k {
        TyKind::Prim(q) => Repr::Prim(*q),
        TyKind::Nil | TyKind::Fn => Repr::Any,
        _ => Repr::Ref,
    }
}

fn repr_at(p: &ProgramShape, ty: u32) -> (r: Repr)
    ensures
        (ty as int) < p.types@.len() ==> r == repr_of_kind(p.types@[ty as int]),
        (ty as int) >= p.types@.len() ==> r == Repr::Any,
{
    if (ty as usize) < p.types.len() {
        repr_of_entry(&p.types[ty as usize])
    } else {
        Repr::Any
    }
}

/// Each type's slot representation, by type id.
pub fn type_reprs(p: &ProgramShape) -> (v: Vec<Repr>)
    ensures
        v@.len() == p.types@.len(),
        forall|i: int| 0 <= i < v@.len() ==> v@[i] == repr_of_kind(#[trigger] p.types@[i]),
{
    let mut v: Vec<Repr> = Vec::new();
    let mut i: usize = 0;
    while i < p.types.len()
        invariant
            i <= p.types@.len(),
            v@.len() == i,
            forall|j: int| 0 <= j < i ==> v@[j] == repr_of_kind(#[trigger] p.types@[j]),
        decreases p.types@.len() - i,
    {
        v.push(repr_of_entry(&p.types[i]));
        i += 1;
    }
    v
}

/// The positions in `tys` whose type is a reference, ascending.
fn ref_positions(p: &ProgramShape, tys: &Vec<u32>) -> (v: Vec<u16>)
    requires
        tys@.len() <= u16::MAX + 1,
    ensures
        v@ == ref_regs_spec(*p, tys@, tys@.len() as int),
{
    let mut v: Vec<u16> = Vec::new();
    let mut i: usize = 0;
    while i < tys.len()
        invariant
            i <= tys@.len(),
            tys@.len() <= u16::MAX + 1,
            v@ == ref_regs_spec(*p, tys@, i as int),
        decreases tys@.len() - i,
    {
        if repr_at(p, tys[i]) == Repr::Ref {
            v.push(i as u16);
        }
        i += 1;
    }
    v
}

/// Each function's reference registers: the registers a return releases.
pub fn ref_regs(p: &ProgramShape) -> (v: Vec<Vec<u16>>)
    requires
        forall|f: int| 0 <= f < p.funcs@.len() ==> (#[trigger] p.funcs@[f]).regs@.len() <= u16::MAX + 1,
    ensures
        v@.len() == p.funcs@.len(),
        forall|f: int| 0 <= f < v@.len() ==> (#[trigger] v@[f])@ == ref_regs_spec(
            *p,
            p.funcs@[f].regs@,
            p.funcs@[f].regs@.len() as int,
        ),
{
    let mut v: Vec<Vec<u16>> = Vec::new();
    let mut f: usize = 0;
    while f < p.funcs.len()
        invariant
            f <= p.funcs@.len(),
            v@.len() == f,
            forall|g: int| 0 <= g < p.funcs@.len() ==> (#[trigger] p.funcs@[g]).regs@.len() <= u16::MAX + 1,
            forall|g: int| 0 <= g < f ==> (#[trigger] v@[g])@ == ref_regs_spec(
                *p,
                p.funcs@[g].regs@,
                p.funcs@[g].regs@.len() as int,
            ),
        decreases p.funcs@.len() - f,
    {
        let fs: &FuncShape = &p.funcs[f];
        v.push(ref_positions(p, &fs.regs));
        f += 1;
    }
    v
}

/// Each type's reference fields: the fields a dying cell of that type
/// releases.
pub fn ref_fields(p: &ProgramShape) -> (v: Vec<Vec<u16>>)
    requires
        forall|t: int| 0 <= t < p.types@.len() ==> (#[trigger] p.types@[t] matches TyKind::Data(fs) ==> fs@.len()
            <= u16::MAX + 1),
    ensures
        v@.len() == p.types@.len(),
        forall|t: int| 0 <= t < v@.len() ==> (#[trigger] v@[t])@ == ref_fields_spec(*p, p.types@[t]),
{
    let mut v: Vec<Vec<u16>> = Vec::new();
    let mut t: usize = 0;
    while t < p.types.len()
        invariant
            t <= p.types@.len(),
            v@.len() == t,
            forall|u: int| 0 <= u < p.types@.len() ==> (#[trigger] p.types@[u] matches TyKind::Data(fs) ==> fs@.len()
                <= u16::MAX + 1),
            forall|u: int| 0 <= u < t ==> (#[trigger] v@[u])@ == ref_fields_spec(*p, p.types@[u]),
        decreases p.types@.len() - t,
    {
        let fields: Vec<u16> = match &p.types[t] {
            TyKind::Data(fs) => ref_positions(p, fs),
            TyKind::Option(e) => {
                if repr_at(p, *e) == Repr::Ref {
                    let mut one: Vec<u16> = Vec::new();
                    one.push(0);
                    assert(one@ =~= seq![0u16]);
                    one
                } else {
                    let none: Vec<u16> = Vec::new();
                    assert(none@ =~= Seq::<u16>::empty());
                    none
                }
            },
            _ => {
                let none: Vec<u16> = Vec::new();
                assert(none@ =~= Seq::<u16>::empty());
                none
            },
        };
        v.push(fields);
        t += 1;
    }
    v
}

} // verus!
