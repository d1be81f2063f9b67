//! Array cells on the heap: a packed element run in a block of its own,
//! built at its final length in one allocation and charged to the heap
//! budget.
use vstd::prelude::*;
use crate::acct::{HeapAcct, admits, charge_outcome};
use crate::blocks::{Block, Blocks, alloc_cap, lemma_alloc_cap, lemma_payload_spans_the_capacity};
use crate::cell::{ArrData, ArrKind, kind_width};
use crate::elems::{exact_kind, kind_prim, stored};
use crate::strheap::{CELL_OVERHEAD, capped, outcome_of};
use crate::trap::{Trap, TrapKind};

verus! {

/// An array cell: its element run and the bytes charged for it.
pub struct ArrCell {
    pub items: ArrData,
    /// the accounted bytes, refunded when the cell dies
    pub bytes: u32,
}

/// The words an array of kind `k` holds after storing `items`.
pub open spec fn stored_all(k: ArrKind, items: Seq<i64>) -> Seq<i64> {
    items.map_values(|v: i64| stored(kind_prim(k), v))
}

/// A block holding `n` elements of width `w`, as an empty run of the
/// capacity the block's class gives.
fn empty_run(s: &mut Blocks, kind: ArrKind, n: usize) -> (a: ArrData)
    requires
        old(s).wf(),
        n * kind_width(kind) + 8 <= u32::MAX,
    ensures
        a.fits_in(*final(s)),
        a.kind == kind,
        a.len == 0,
        a.cap >= n,
        old(s).spare(a.block) || !old(s).valid(a.block),
        forall|x: Block| x != a.block ==> #[trigger] final(s).keeps(*old(s), x),
{
    let w = kind.width();
    let b = s.allocate(w * n);
    let c = s.cap_of(b);
    proof {
        lemma_alloc_cap((w * n) as int);
        assert(c >= n * w);
        assert(c / w >= n) by (nonlinear_arith)
            requires
                w > 0,
                c >= n * w,
        ;
        assert((c / w) * w <= c) by (nonlinear_arith)
            requires
                w > 0,
        ;
    }
    ArrData::new(kind, b, (c / w) as u32)
}

/// An array cell of kind `kind` holding `items` (each stored as the kind
/// keeps it), charged its overhead plus the packed bytes. A refused charge
/// leaves the block taken.
pub fn alloc_array(acct: &mut HeapAcct, s: &mut Blocks, kind: ArrKind, items: &[i64]) -> (r: Result<ArrCell, Trap>)
    requires
        old(s).wf(),
        exact_kind(kind),
        !(kind is Opt),
        items@.len() * kind_width(kind) + 8 <= u32::MAX,
        old(acct).used + CELL_OVERHEAD + items@.len() * kind_width(kind) <= u64::MAX,
    ensures
        final(s).wf(),
        charge_outcome(
            *old(acct),
            *final(acct),
            (CELL_OVERHEAD + items@.len() * kind_width(kind)) as u64,
            outcome_of(r),
        ),
        r matches Ok(c) ==> {
            &&& c.items.fits_in(*final(s))
            &&& c.items.kind == kind
            &&& c.items.elems(*final(s)) == stored_all(kind, items@)
            &&& c.bytes == capped(CELL_OVERHEAD + items@.len() * kind_width(kind))
            &&& forall|x: Block| x != c.items.block ==> #[trigger] final(s).keeps(*old(s), x)
        },
{
    let n = items.len();
    let mut a = empty_run(s, kind, n);
    let mut i: usize = 0;
    while i < n
        invariant
            n == items@.len(),
            n * kind_width(kind) + 8 <= u32::MAX,
            exact_kind(kind),
            !(kind is Opt),
            a.fits_in(*s),
            a.kind == kind,
            a.cap >= n,
            i <= n,
            a.len == i,
            a.elems(*s) == stored_all(kind, items@.subrange(0, i as int)),
            forall|x: Block| x != a.block ==> #[trigger] s.keeps(*old(s), x),
        decreases n - i,
    {
        proof {
            assert((i + 1) * kind_width(kind) <= n * kind_width(kind)) by (nonlinear_arith)
                requires
                    i < n,
            ;
        }
        let ghost s_before = *s;
        let ghost a_before = a;
        a.push(s, items[i]);
        proof {
            assert(a.block == a_before.block);
            assert forall|x: Block| x != a.block implies #[trigger] s.keeps(*old(s), x) by {
                assert(s_before.keeps(*old(s), x));
                assert(s.keeps(s_before, x));
            }
            assert(stored_all(kind, items@.subrange(0, i + 1)) =~= stored_all(kind, items@.subrange(0, i as int)).push(
                stored(kind_prim(kind), items@[i as int]),
            ));
        }
        i += 1;
    }
    proof {
        assert(items@.subrange(0, n as int) =~= items@);
    }
    let charge = CELL_OVERHEAD + (n * kind.width()) as u64;
    match acct.charge(charge) {
        Ok(()) => {},
        Err(t) => {
            return Err(t);
        },
    }
    let bytes: u32 = if charge > u32::MAX as u64 {
        u32::MAX
    } else {
        charge as u32
    };
    Ok(ArrCell { items: a, bytes })
}

/// An array cell of `n` elements of kind `kind`, each `default` (stored
/// as the kind keeps it): the `Array<T>(n)` path, built at its final length
/// in one block. A refused charge leaves the block taken.
pub fn alloc_array_filled(acct: &mut HeapAcct, s: &mut Blocks, kind: ArrKind, n: usize, default: i64) -> (r: Result<ArrCell, Trap>)
    requires
        old(s).wf(),
        exact_kind(kind),
        !(kind is Opt),
        n * kind_width(kind) + 8 <= u32::MAX,
        old(acct).used + CELL_OVERHEAD + n * kind_width(kind) <= u64::MAX,
    ensures
        final(s).wf(),
        charge_outcome(*old(acct), *final(acct), (CELL_OVERHEAD + n * kind_width(kind)) as u64, outcome_of(r)),
        r matches Ok(c) ==> {
            &&& c.items.fits_in(*final(s))
            &&& c.items.kind == kind
            &&& c.items.elems(*final(s)) == Seq::new(n as nat, |i: int| stored(kind_prim(kind), default))
            &&& c.bytes == capped(CELL_OVERHEAD + n * kind_width(kind))
            &&& forall|x: Block| x != c.items.block ==> #[trigger] final(s).keeps(*old(s), x)
        },
{
    let mut a = empty_run(s, kind, n);
    let mut i: usize = 0;
    while i < n
        invariant
            n * kind_width(kind) + 8 <= u32::MAX,
            exact_kind(kind),
            !(kind is Opt),
            a.fits_in(*s),
            a.kind == kind,
            a.cap >= n,
            i <= n,
            a.len == i,
            a.elems(*s) == Seq::new(i as nat, |j: int| stored(kind_prim(kind), default)),
            forall|x: Block| x != a.block ==> #[trigger] s.keeps(*old(s), x),
        decreases n - i,
    {
        proof {
            assert((i + 1) * kind_width(kind) <= n * kind_width(kind)) by (nonlinear_arith)
                requires
                    i < n,
            ;
        }
        let ghost s_before = *s;
        a.push(s, default);
        proof {
            assert forall|x: Block| x != a.block implies #[trigger] s.keeps(*old(s), x) by {
                assert(s_before.keeps(*old(s), x));
                assert(s.keeps(s_before, x));
            }
            assert(a.elems(*s) =~= Seq::new((i + 1) as nat, |j: int| stored(kind_prim(kind), default)));
        }
        i += 1;
    }
    let charge = CELL_OVERHEAD + (n * kind.width()) as u64;
    match acct.charge(charge) {
        Ok(()) => {},
        Err(t) => {
            return Err(t);
        },
    }
    let bytes: u32 = if charge > u32::MAX as u64 {
        u32::MAX
    } else {
        charge as u32
    };
    Ok(ArrCell { items: a, bytes })
}

/// An immutable `bytes` cell: a `u8` run holding `octets`, copied into a
/// block of its own and charged its overhead plus the octets. A refused
/// charge leaves the block taken.
pub fn alloc_bytes(acct: &mut HeapAcct, s: &mut Blocks, octets: &[u8]) -> (r: Result<ArrCell, Trap>)
    requires
        old(s).wf(),
        octets@.len() + 8 <= u32::MAX,
        old(acct).used + CELL_OVERHEAD + octets@.len() <= u64::MAX,
    ensures
        final(s).wf(),
        charge_outcome(*old(acct), *final(acct), (CELL_OVERHEAD + octets@.len()) as u64, outcome_of(r)),
        r matches Ok(c) ==> {
            &&& c.items.fits_in(*final(s))
            &&& c.items.kind == ArrKind::U8
            &&& c.items.elems(*final(s)) == octets@.map_values(|b: u8| b as i64)
            &&& c.bytes == capped(CELL_OVERHEAD + octets@.len())
            &&& (old(s).spare(c.items.block) || !old(s).valid(c.items.block))
            &&& forall|x: Block| x != c.items.block ==> #[trigger] final(s).keeps(*old(s), x)
        },
{
    let n = octets.len();
    let mut a = empty_run(s, ArrKind::U8, n);
    let ghost mid = *s;
    proof {
        lemma_payload_spans_the_capacity(*s, a.block);
    }
    s.write(a.block, 0, octets);
    a.len = n as u32;
    proof {
        let p = s.payload(a.block);
        assert forall|x: Block| x != a.block implies #[trigger] s.keeps(*old(s), x) by {
            assert(mid.keeps(*old(s), x));
            assert(s.keeps(mid, x));
        }
        let op = mid.payload(a.block);
        assert(p == op.subrange(0, 0) + octets@ + op.subrange(n as int, mid.cap(a.block) as int));
        assert forall|i: int| 0 <= i < n implies #[trigger] a.elems(*s)[i] == octets@[i] as i64 by {
            assert(a.elems(*s)[i] == a.elem(*s, i));
            assert(i * kind_width(ArrKind::U8) == i);
            assert((op.subrange(0, 0) + octets@)[i] == octets@[i]);
            assert(p[i] == octets@[i]);
            assert(crate::elems::le_word(p, i, 1) == p[i] as u64);
        }
        assert(a.elems(*s) =~= octets@.map_values(|b: u8| b as i64));
    }
    let charge = CELL_OVERHEAD + n as u64;
    match acct.charge(charge) {
        Ok(()) => {},
        Err(t) => {
            return Err(t);
        },
    }
    let bytes: u32 = if charge > u32::MAX as u64 {
        u32::MAX
    } else {
        charge as u32
    };
    Ok(ArrCell { items: a, bytes })
}

/// `b.clone()` on a `bytes` value: the one explicit copy of a byte
/// buffer, into a fresh array cell of its own. Anything but a `u8` array
/// is refused.
pub fn bytes_clone(acct: &mut HeapAcct, s: &mut Blocks, a: &ArrData) -> (r: Result<ArrCell, Trap>)
    requires
        old(s).wf(),
        a.fits_in(*old(s)),
        a.len + 8 <= u32::MAX,
        old(acct).used + CELL_OVERHEAD + a.len <= u64::MAX,
    ensures
        final(s).wf(),
        a.kind != ArrKind::U8 ==> {
            &&& *final(acct) == *old(acct)
            &&& *final(s) == *old(s)
            &&& r matches Err(t) && t.kind == TrapKind::Invalid && t.msg@ == "clone on non-bytes"@
        },
        a.kind == ArrKind::U8 ==> charge_outcome(*old(acct), *final(acct), (CELL_OVERHEAD + a.len) as u64, outcome_of(r)),
        r matches Ok(c) ==> {
            &&& c.items.fits_in(*final(s))
            &&& c.items.kind == ArrKind::U8
            &&& c.items.elems(*final(s)) == a.elems(*old(s))
            &&& c.items.block != a.block
            &&& forall|x: Block| x != c.items.block ==> #[trigger] final(s).keeps(*old(s), x)
        },
{
    match a.kind {
        ArrKind::U8 => {},
        _ => {
            return Err(Trap::new(TrapKind::Invalid, "clone on non-bytes".to_owned()));
        },
    }
    let src = a.bytes_copy(s);
    let r = alloc_bytes(acct, s, src.as_slice());
    proof {
        if r is Ok {
            let c = r->Ok_0;
            let e = a.elems(*old(s));
            assert(src@.len() == e.len());
            assert forall|i: int| 0 <= i < e.len() implies #[trigger] c.items.elems(*s)[i] == e[i] by {
                assert(e[i] == a.elem(*old(s), i));
                assert(0 <= e[i] < 256);
            }
            assert(c.items.elems(*s) =~= e);
        }
    }
    r
}

} // verus!
