//! The host-function surface check: the functions the mounted packages
//! declare, against the functions an embedder has bound, before any code
//! runs. A function declared but never bound, bound with another
//! signature, or bound but declared nowhere is refused.
use vstd::prelude::*;
use crate::text::push_str;
use crate::trap::{Trap, TrapKind};

verus! {

/// The most parameters a host function takes.
pub const MAX_ARITY: usize = 8;

/// A binding's signature: up to eight parameter type ids in a fixed
/// array, their count, and the return type id.
#[derive(Clone, Copy)]
pub struct HostSig {
    pub tys: [u32; MAX_ARITY],
    pub ret: u32,
    pub n: u8,
}

impl HostSig {
    /// The parameter type ids.
    pub open spec fn params(&self) -> Seq<u32> {
        self.tys@.subrange(0, self.n as int)
    }

    /// A signature with the parameters `tys` and the return `ret`.
    pub fn new(tys: &[u32], ret: u32) -> (s: HostSig)
        requires
            tys@.len() <= MAX_ARITY,
        ensures
            s.n <= MAX_ARITY,
            s.params() == tys@,
            s.ret == ret,
    {
        let mut a = [0u32; MAX_ARITY];
        let mut i: usize = 0;
        while i < tys.len() && i < MAX_ARITY
            invariant
                tys@.len() <= MAX_ARITY,
                i <= tys@.len(),
                a@.len() == MAX_ARITY,
                forall|j: int| 0 <= j < i ==> a@[j] == tys@[j],
            decreases MAX_ARITY - i,
        {
            a[i] = tys[i];
            i += 1;
        }
        let s = HostSig { tys: a, ret, n: tys.len() as u8 };
        assert(s.params() =~= tys@);
        s
    }

    /// The parameter type ids.
    pub fn slice(&self) -> (p: &[u32])
        requires
            self.n <= MAX_ARITY,
        ensures
            p@ == self.params(),
    {
        vstd::slice::slice_subrange(self.tys.as_slice(), 0, self.n as usize)
    }
}

/// A host function a mounted package declares: its full name, parameter
/// types and return type.
pub struct Declared {
    pub name: String,
    pub params: Vec<u32>,
    pub ret: u32,
}

/// A host function an embedder has bound, with the signature derived
/// from its body.
pub struct Bound {
    pub name: String,
    pub sig: HostSig,
}

/// Why a surface was refused.
pub enum SurfaceError {
    /// declared by a mounted package but never bound
    Unbound(String),
    /// bound with a signature other than the declared one
    Drift { name: String, declared: (Vec<u32>, u32), bound: (Vec<u32>, u32) },
    /// bound but declared by no mounted package
    Undeclared(String),
}

/// Some binding has the name.
pub open spec fn is_bound(bound: Seq<Bound>, name: Seq<char>) -> bool {
    exists|j: int| 0 <= j < bound.len() && (#[trigger] bound[j]).name@ == name
}

/// Some declaration has the name.
pub open spec fn is_declared(expected: Seq<Declared>, name: Seq<char>) -> bool {
    exists|i: int| 0 <= i < expected.len() && (#[trigger] expected[i]).name@ == name
}

/// The binding of a declaration's name has the declared signature.
pub open spec fn honoured(bound: Seq<Bound>, e: Declared) -> bool {
    exists|j: int|
        0 <= j < bound.len() && (#[trigger] bound[j]).name@ == e.name@ && bound[j].sig.params() == e.params@
            && bound[j].sig.ret == e.ret
}

/// No two bindings share a name.
pub open spec fn names_distinct(bound: Seq<Bound>) -> bool {
    forall|j: int, k: int| 0 <= j < k < bound.len() ==> (#[trigger] bound[j]).name@ != (#[trigger] bound[k]).name@
}

/// The surface agrees: every declaration is bound with its signature and
/// every binding is declared.
pub open spec fn surface_agrees(bound: Seq<Bound>, expected: Seq<Declared>) -> bool {
    &&& forall|i: int| 0 <= i < expected.len() ==> honoured(bound, #[trigger] expected[i])
    &&& forall|j: int| 0 <= j < bound.len() ==> is_declared(expected, (#[trigger] bound[j]).name@)
}

fn same_name(a: &String, b: &String) -> (r: bool)
    ensures
        r == (a@ == b@),
{
    *a == *b
}

fn same_params(a: &[u32], b: &[u32]) -> (r: bool)
    ensures
        r == (a@ == b@),
{
    if a.len() != b.len() {
        return false;
    }
    let mut i: usize = 0;
    while i < a.len()
        invariant
            a@.len() == b@.len(),
            i <= a@.len(),
            a@.subrange(0, i as int) == b@.subrange(0, i as int),
        decreases a@.len() - i,
    {
        if a[i] != b[i] {
            assert(a@[i as int] != b@[i as int]);
            return false;
        }
        assert(a@.subrange(0, i + 1) =~= a@.subrange(0, i as int).push(a@[i as int]));
        assert(b@.subrange(0, i + 1) =~= b@.subrange(0, i as int).push(b@[i as int]));
        i += 1;
    }
    assert(a@ =~= a@.subrange(0, i as int));
    assert(b@ =~= b@.subrange(0, i as int));
    true
}

fn copy_params(p: &[u32]) -> (v: Vec<u32>)
    ensures
        v@ == p@,
{
    let mut v: Vec<u32> = Vec::new();
    let mut i: usize = 0;
    while i < p.len()
        invariant
            i <= p@.len(),
            v@ == p@.subrange(0, i as int),
        decreases p@.len() - i,
    {
        v.push(p[i]);
        i += 1;
        assert(v@ =~= p@.subrange(0, i as int));
    }
    assert(v@ =~= p@);
    v
}

/// Where the binding named `name` sits, if there is one.
fn find_bound(bound: &[Bound], name: &String) -> (r: Option<usize>)
    ensures
        match r {
            Some(j) => j < bound@.len() && bound@[j as int].name@ == name@,
            None => !is_bound(bound@, name@),
        },
{
    let mut j: usize = 0;
    while j < bound.len()
        invariant
            j <= bound@.len(),
            forall|k: int| 0 <= k < j ==> (#[trigger] bound@[k]).name@ != name@,
        decreases bound@.len() - j,
    {
        if same_name(&bound[j].name, name) {
            return Some(j);
        }
        j += 1;
    }
    None
}

/// Whether some declaration carries `name`.
fn find_declared(expected: &[Declared], name: &String) -> (b: bool)
    ensures
        b == is_declared(expected@, name@),
{
    let mut i: usize = 0;
    while i < expected.len()
        invariant
            i <= expected@.len(),
            forall|k: int| 0 <= k < i ==> (#[trigger] expected@[k]).name@ != name@,
        decreases expected@.len() - i,
    {
        if same_name(&expected[i].name, name) {
            return true;
        }
        i += 1;
    }
    false
}

/// Checks the declared surface against the bindings: declarations are
/// checked in order (the first unbound or drifted one is reported, with
/// both signatures for a drift), then every binding must be declared.
pub fn verify_against(bound: &[Bound], expected: &[Declared]) -> (r: Result<(), SurfaceError>)
    requires
        names_distinct(bound@),
        forall|j: int| 0 <= j < bound@.len() ==> (#[trigger] bound@[j]).sig.n <= MAX_ARITY,
    ensures
        r is Ok <==> surface_agrees(bound@, expected@),
        match r {
            Ok(()) => true,
            Err(SurfaceError::Unbound(n)) => exists|i: int|
                0 <= i < expected@.len() && (#[trigger] expected@[i]).name@ == n@ && !is_bound(bound@, n@)
                    && forall|k: int| 0 <= k < i ==> honoured(bound@, #[trigger] expected@[k]),
            Err(SurfaceError::Drift { name, declared, bound: got }) => exists|i: int, j: int|
                0 <= i < expected@.len() && 0 <= j < bound@.len() && (#[trigger] expected@[i]).name@ == name@
                    && (#[trigger] bound@[j]).name@ == name@ && declared.0@ == expected@[i].params@ && declared.1
                    == expected@[i].ret && got.0@ == bound@[j].sig.params() && got.1 == bound@[j].sig.ret && !(
                got.0@ == declared.0@ && got.1 == declared.1) && forall|k: int|
                    0 <= k < i ==> honoured(bound@, #[trigger] expected@[k]),
            Err(SurfaceError::Undeclared(n)) => is_bound(bound@, n@) && !is_declared(expected@, n@),
        },
{
    let mut i: usize = 0;
    while i < expected.len()
        invariant
            names_distinct(bound@),
            forall|j: int| 0 <= j < bound@.len() ==> (#[trigger] bound@[j]).sig.n <= MAX_ARITY,
            i <= expected@.len(),
            forall|k: int| 0 <= k < i ==> honoured(bound@, #[trigger] expected@[k]),
        decreases expected@.len() - i,
    {
        let e = &expected[i];
        match find_bound(bound, &e.name) {
            None => {
                proof {
                    assert(!honoured(bound@, expected@[i as int]));
                }
                return Err(SurfaceError::Unbound(e.name.clone()));
            },
            Some(j) => {
                let b = &bound[j];
                let got = b.sig.slice();
                if !same_params(got, e.params.as_slice()) || b.sig.ret != e.ret {
                    proof {
                        assert(bound@[j as int].name@ == e.name@);
                        if honoured(bound@, expected@[i as int]) {
                            let j2 = choose|j2: int|
                                0 <= j2 < bound@.len() && (#[trigger] bound@[j2]).name@ == expected@[i as int].name@
                                    && bound@[j2].sig.params() == expected@[i as int].params@ && bound@[j2].sig.ret
                                    == expected@[i as int].ret;
                            if j2 != j {
                                if j2 < j {
                                    assert(bound@[j2].name@ != bound@[j as int].name@);
                                } else {
                                    assert(bound@[j as int].name@ != bound@[j2].name@);
                                }
                            }
                        }
                    }
                    let declared = (copy_params(e.params.as_slice()), e.ret);
                    let answered = (copy_params(got), b.sig.ret);
                    return Err(SurfaceError::Drift { name: e.name.clone(), declared, bound: answered });
                }
            },
        }
        i += 1;
    }
    let mut j: usize = 0;
    while j < bound.len()
        invariant
            j <= bound@.len(),
            forall|k: int| 0 <= k < expected@.len() ==> honoured(bound@, #[trigger] expected@[k]),
            forall|k: int| 0 <= k < j ==> is_declared(expected@, (#[trigger] bound@[k]).name@),
        decreases bound@.len() - j,
    {
        if !find_declared(expected, &bound[j].name) {
            proof {
                assert(is_bound(bound@, bound@[j as int].name@));
            }
            return Err(SurfaceError::Undeclared(bound[j].name.clone()));
        }
        j += 1;
    }
    Ok(())
}

/// The text of the trap for a host function the program declares and no
/// binding provides.
pub open spec fn unbound_host_text(name: Seq<char>) -> Seq<char> {
    "host fn `"@ + name
        + "` is declared by the program but never bound — register the body in the HostRegistry before Vm::new"@
}

/// The program's function `k` is the host function `name`.
pub open spec fn hosts_name(names: Seq<Option<String>>, k: int, name: Seq<char>) -> bool {
    names[k] matches Some(m) && m@ == name
}

/// Whether the program's function `i` joins: it is no host function, or
/// a binding carries its name and no earlier function took that binding.
pub open spec fn joins_at(names: Seq<Option<String>>, bound: Seq<Bound>, i: int) -> bool {
    match names[i] {
        None => true,
        Some(n) => is_bound(bound, n@) && forall|k: int| 0 <= k < i ==> !#[trigger] hosts_name(names, k, n@),
    }
}

fn unbound_host(name: &String) -> (t: Trap)
    ensures
        t.kind == TrapKind::Invalid,
        t.msg@ == unbound_host_text(name@),
{
    let mut m = String::new();
    push_str(&mut m, "host fn `");
    push_str(&mut m, name.as_str());
    push_str(
        &mut m,
        "` is declared by the program but never bound — register the body in the HostRegistry before Vm::new",
    );
    Trap::new(TrapKind::Invalid, m)
}

/// The host join at boot: every function of the program that is a host
/// function (`names[i]` its host name) takes the binding of that name,
/// in program order; a binding is taken once. The answer gives each
/// function its binding's position; the first host function left without
/// one traps `Invalid`, naming it.
pub fn join_hosts(names: &[Option<String>], bound: &[Bound]) -> (r: Result<Vec<Option<usize>>, Trap>)
    requires
        names_distinct(bound@),
    ensures
        r is Ok <==> forall|i: int| 0 <= i < names@.len() ==> joins_at(names@, bound@, i),
        r matches Ok(slots) ==> {
            &&& slots@.len() == names@.len()
            &&& forall|i: int| 0 <= i < names@.len() ==> match #[trigger] names@[i] {
                None => slots@[i] is None,
                Some(n) => slots@[i] matches Some(j) && j < bound@.len() && bound@[j as int].name@ == n@,
            }
        },
        r matches Err(t) ==> exists|i: int|
            0 <= i < names@.len() && !joins_at(names@, bound@, i) && (forall|k: int|
                0 <= k < i ==> joins_at(names@, bound@, k)) && (#[trigger] names@[i] matches Some(n)
                && t.kind == TrapKind::Invalid && t.msg@ == unbound_host_text(n@)),
{
    let mut taken: Vec<bool> = Vec::new();
    while taken.len() < bound.len()
        invariant
            taken@.len() <= bound@.len(),
            forall|j: int| 0 <= j < taken@.len() ==> !#[trigger] taken@[j],
        decreases bound@.len() - taken@.len(),
    {
        taken.push(false);
    }
    let mut slots: Vec<Option<usize>> = Vec::new();
    let mut i: usize = 0;
    while i < names.len()
        invariant
            names_distinct(bound@),
            i <= names@.len(),
            taken@.len() == bound@.len(),
            slots@.len() == i,
            forall|k: int| 0 <= k < i ==> joins_at(names@, bound@, k),
            forall|k: int| 0 <= k < i ==> match #[trigger] names@[k] {
                None => slots@[k] is None,
                Some(n) => slots@[k] matches Some(j) && j < bound@.len() && bound@[j as int].name@ == n@,
            },
            forall|j: int| 0 <= j < bound@.len() ==> (#[trigger] taken@[j] <==> exists|k: int|
                0 <= k < i && #[trigger] hosts_name(names@, k, bound@[j].name@)),
        decreases names@.len() - i,
    {
        match &names[i] {
            None => {
                slots.push(None);
            },
            Some(n) => {
                match find_bound(bound, n) {
                    None => {
                        assert(!joins_at(names@, bound@, i as int));
                        return Err(unbound_host(n));
                    },
                    Some(j) => {
                        if taken[j] {
                            proof {
                                let k = choose|k: int| 0 <= k < i && #[trigger] hosts_name(names@, k, bound@[j as int].name@);
                                assert(hosts_name(names@, k, n@));
                                assert(!joins_at(names@, bound@, i as int));
                            }
                            return Err(unbound_host(n));
                        }
                        proof {
                            assert forall|k: int| 0 <= k < i implies !#[trigger] hosts_name(names@, k, n@) by {
                                if hosts_name(names@, k, n@) {
                                    assert(hosts_name(names@, k, bound@[j as int].name@));
                                }
                            }
                        }
                        taken.set(j, true);
                        slots.push(Some(j));
                        proof {
                            assert forall|j2: int| 0 <= j2 < bound@.len() implies (#[trigger] taken@[j2] <==> exists|k: int|
                                0 <= k < i + 1 && #[trigger] hosts_name(names@, k, bound@[j2].name@)) by {
                                if j2 == j {
                                    assert(hosts_name(names@, i as int, bound@[j2].name@));
                                } else {
                                    if hosts_name(names@, i as int, bound@[j2].name@) {
                                        if j2 < j {
                                            assert(bound@[j2].name@ != bound@[j as int].name@);
                                        } else {
                                            assert(bound@[j as int].name@ != bound@[j2].name@);
                                        }
                                    }
                                    if taken@[j2] {
                                        let k = choose|k: int| 0 <= k < i && #[trigger] hosts_name(names@, k, bound@[j2].name@);
                                        assert(0 <= k < i + 1 && hosts_name(names@, k, bound@[j2].name@));
                                    }
                                }
                            }
                        }
                    },
                }
            },
        }
        i += 1;
    }
    Ok(slots)
}

} // verus!
