//! The host boundary's integer narrowing: a value crossing into a host
//! parameter of a narrower integer type must fit it.
use vstd::prelude::*;
use crate::trap::{Trap, TrapKind};
use crate::cell::{PrimTy, prim_is_int, prim_name};
use crate::text::{push_str, push_i64, dec_int};

verus! {

/// The value range of each integer primitive.
pub open spec fn int_fits(n: int, p: PrimTy) -> bool {
    match p {
        PrimTy::U8 => 0 <= n <= u8::MAX,
        PrimTy::I8 => i8::MIN <= n <= i8::MAX,
        PrimTy::U16 => 0 <= n <= u16::MAX,
        PrimTy::I16 => i16::MIN <= n <= i16::MAX,
        PrimTy::U32 => 0 <= n <= u32::MAX,
        PrimTy::I32 => i32::MIN <= n <= i32::MAX,
        PrimTy::U64 => 0 <= n <= u64::MAX,
        PrimTy::I64 => i64::MIN <= n <= i64::MAX,
        _ => false,
    }
}

/// The trap text for a value that does not fit its host type.
pub open spec fn no_fit_text(n: int, p: PrimTy) -> Seq<char> {
    "boundary: `"@ + dec_int(n) + "` does not fit `"@ + prim_name(p) + "`"@
}

/// Narrows a slot's integer to the host parameter's type `ty`: the value
/// itself when it fits, else an `Invalid` trap naming both.
pub fn narrow_i64(n: i64, ty: PrimTy) -> (r: Result<i64, Trap>)
    requires
        prim_is_int(ty),
    ensures
        match r {
            Ok(v) => int_fits(n as int, ty) && v == n,
            Err(t) => !int_fits(n as int, ty) && t.kind == TrapKind::Invalid && t.msg@
                == no_fit_text(n as int, ty),
        },
{
    let ok = match ty {
        PrimTy::U8 => 0 <= n && n <= 255,
        PrimTy::I8 => -128 <= n && n <= 127,
        PrimTy::U16 => 0 <= n && n <= 65535,
        PrimTy::I16 => -32768 <= n && n <= 32767,
        PrimTy::U32 => 0 <= n && n <= 4294967295,
        PrimTy::I32 => -2147483648 <= n && n <= 2147483647,
        PrimTy::U64 => 0 <= n,
        _ => true,
    };
    if ok {
        Ok(n)
    } else {
        let mut m = String::new();
        push_str(&mut m, "boundary: `");
        push_i64(&mut m, n);
        push_str(&mut m, "` does not fit `");
        push_str(&mut m, ty.name());
        push_str(&mut m, "`");
        Err(Trap::new(TrapKind::Invalid, m))
    }
}

/// What the kind check reads of a declared type.
#[derive(Clone, Copy, Debug, PartialEq, Eq, Structural)]
pub enum DeclKind {
    Prim(PrimTy),
    Str,
    Bytes,
    Opaque,
    Nil,
    /// a record (a tuple crossing)
    Data,
    /// any other type
    Other,
}

/// Whether a value of the declared kind binds the Rust-side type named
/// `rust`.
pub open spec fn binds(k: DeclKind, rust: Seq<char>) -> bool {
    match k {
        DeclKind::Prim(p) => p != PrimTy::Char && rust == prim_name(p),
        DeclKind::Str => rust == "String"@ || rust == "&str"@,
        DeclKind::Bytes => rust == "Vec<u8>"@ || rust == "&[u8]"@,
        DeclKind::Opaque => "Opaque"@.is_prefix_of(rust),
        DeclKind::Nil => rust == "()"@,
        DeclKind::Data => "("@.is_prefix_of(rust),
        DeclKind::Other => false,
    }
}

/// The trap text of a refused crossing.
pub open spec fn kind_text(declared: Seq<char>, rust: Seq<char>, why: Seq<char>) -> Seq<char> {
    "boundary: got `"@ + declared + "` where `"@ + rust + "` binds: "@ + why
}

fn chars_of(s: &str) -> (v: Vec<char>)
    ensures
        v@ == s@,
{
    let mut v: Vec<char> = Vec::new();
    for c in it: s.chars()
        invariant
            it.seq() == s@,
            v@ == s@.subrange(0, it.index() as int),
    {
        v.push(c);
        assert(v@ =~= s@.subrange(0, it.index() + 1));
    }
    assert(s@.subrange(0, s@.len() as int) =~= s@);
    v
}

/// Whether `p` begins `s`.
fn starts_with(s: &Vec<char>, p: &str) -> (b: bool)
    ensures
        b == p@.is_prefix_of(s@),
{
    let q = chars_of(p);
    if q.len() > s.len() {
        return false;
    }
    let mut i: usize = 0;
    while i < q.len()
        invariant
            q@ == p@,
            q@.len() <= s@.len(),
            i <= q@.len(),
            q@.subrange(0, i as int) == s@.subrange(0, i as int),
        decreases q@.len() - i,
    {
        if q[i] != s[i] {
            assert(q@.subrange(0, q@.len() as int)[i as int] != s@.subrange(0, q@.len() as int)[i as int]);
            assert(q@ =~= q@.subrange(0, q@.len() as int));
            return false;
        }
        assert(q@.subrange(0, i + 1) =~= q@.subrange(0, i as int).push(q@[i as int]));
        assert(s@.subrange(0, i + 1) =~= s@.subrange(0, i as int).push(s@[i as int]));
        i += 1;
    }
    assert(q@ =~= q@.subrange(0, i as int));
    true
}

/// Whether `s` is exactly `p`.
fn is_text(s: &Vec<char>, p: &str) -> (b: bool)
    ensures
        b == (s@ == p@),
{
    let q = chars_of(p);
    if q.len() != s.len() {
        return false;
    }
    let b = starts_with(s, p);
    assert(s@.subrange(0, s@.len() as int) =~= s@);
    b
}

fn refusal(declared_name: &str, rust: &str, why: &str) -> (t: Trap)
    ensures
        t.kind == TrapKind::Invalid,
        t.msg@ == kind_text(declared_name@, rust@, why@),
{
    let mut m = String::new();
    push_str(&mut m, "boundary: got `");
    push_str(&mut m, declared_name);
    push_str(&mut m, "` where `");
    push_str(&mut m, rust);
    push_str(&mut m, "` binds: ");
    push_str(&mut m, why);
    Trap::new(TrapKind::Invalid, m)
}

/// Checks that a crossing value of the declared kind binds the Rust-side
/// type `rust`: a nil reference only binds a primitive or nil; otherwise
/// the kind must be the one the Rust type stands for. A refusal is an
/// `Invalid` trap naming both sides.
pub fn expect_kind(declared: DeclKind, declared_name: &str, slot_is_null: bool, rust: &str) -> (r: Result<(), Trap>)
    ensures
        if slot_is_null && !(declared is Prim || declared is Nil) {
            r matches Err(t) && t.kind == TrapKind::Invalid && t.msg@ == kind_text(
                declared_name@,
                rust@,
                "nil does not bind a reference type"@,
            )
        } else if binds(declared, rust@) {
            r is Ok
        } else {
            r matches Err(t) && t.kind == TrapKind::Invalid && t.msg@ == kind_text(
                declared_name@,
                rust@,
                "kind mismatch"@,
            )
        },
{
    let ok_null = match declared {
        DeclKind::Prim(_) | DeclKind::Nil => true,
        _ => false,
    };
    if slot_is_null && !ok_null {
        return Err(refusal(declared_name, rust, "nil does not bind a reference type"));
    }
    let r = chars_of(rust);
    let ok = match declared {
        DeclKind::Prim(p) => p != PrimTy::Char && is_text(&r, p.name()),
        DeclKind::Str => is_text(&r, "String") || is_text(&r, "&str"),
        DeclKind::Bytes => is_text(&r, "Vec<u8>") || is_text(&r, "&[u8]"),
        DeclKind::Opaque => starts_with(&r, "Opaque"),
        DeclKind::Nil => is_text(&r, "()"),
        DeclKind::Data => starts_with(&r, "("),
        DeclKind::Other => false,
    };
    if ok {
        Ok(())
    } else {
        Err(refusal(declared_name, rust, "kind mismatch"))
    }
}

} // verus!
