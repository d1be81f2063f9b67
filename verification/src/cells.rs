//! The cell arena's reference counting. Each live cell counts the
//! references held on it: by the fields (children) of live cells, by a
//! registered drop callback, by the queue of pinned cells waiting for
//! their callback, and by everything outside the arena (registers, host
//! handles). Releasing the last reference frees the cell, refunds its
//! charge, recycles its slot and then releases its children in order; a
//! cell with a drop callback is instead pinned and queued. Weak boxes
//! observe a cell without holding a reference and read nil from the
//! moment its last reference goes. A count that saturates makes the cell
//! immortal.
use vstd::prelude::*;
use vstd::multiset::Multiset;
use crate::acct::{HeapAcct, charge_outcome};
use crate::trap::{Trap, TrapKind};

verus! {

/// A live cell as the release walk sees it.
pub struct Node {
    /// references held on the cell; `u32::MAX` marks an immortal cell
    pub refs: u32,
    /// the charge refunded at death
    pub bytes: u32,
    /// the cells its reference-typed fields hold, in declaration order
    pub children: Vec<usize>,
    /// the cleanup closure cell registered to run at its death
    pub drop_fn: Option<usize>,
    /// whether the cell is a weak box
    pub is_weak: bool,
    /// a weak box's referent, held without a reference; `None` once the
    /// referent's last reference went
    pub weak: Option<usize>,
}

/// The arena: cell slots (a dead slot is `None`), the free list of dead
/// slots, and the queue of pinned cells with their cleanup closures. The
/// references held from outside the arena are tracked as a ghost
/// multiset.
pub struct CellArena {
    pub cells: Vec<Option<Node>>,
    pub free: Vec<usize>,
    pub pending: Vec<(usize, usize)>,
    pub ext: Ghost<Multiset<usize>>,
}

/// How often `x` occurs in `s`.
pub open spec fn occurrences(s: Seq<usize>, x: usize) -> nat
    decreases s.len(),
{
    if s.len() == 0 {
        0
    } else {
        occurrences(s.drop_last(), x) + if s.last() == x { 1nat } else { 0nat }
    }
}

/// The references one slot holds on `x`: a live cell's fields and its
/// registered cleanup.
pub open spec fn slot_holds(n: Option<Node>, x: usize) -> nat {
    match n {
        Some(n) => occurrences(n.children@, x) + if n.drop_fn == Some(x) { 1nat } else { 0nat },
        None => 0,
    }
}

/// The references the arena's live cells hold on `x`.
pub open spec fn held(cells: Seq<Option<Node>>, x: usize) -> nat
    decreases cells.len(),
{
    if cells.len() == 0 {
        0
    } else {
        held(cells.drop_last(), x) + slot_holds(cells.last(), x)
    }
}

/// The references the drop queue holds on `x` (a pinned cell and its
/// cleanup each).
pub open spec fn queued(p: Seq<(usize, usize)>, x: usize) -> nat
    decreases p.len(),
{
    if p.len() == 0 {
        0
    } else {
        queued(p.drop_last(), x) + (if p.last().0 == x { 1nat } else { 0nat }) + (if p.last().1 == x {
            1nat
        } else {
            0nat
        })
    }
}

/// The number of live cells.
pub open spec fn live_count(cells: Seq<Option<Node>>) -> nat
    decreases cells.len(),
{
    if cells.len() == 0 {
        0
    } else {
        live_count(cells.drop_last()) + if cells.last() is Some { 1nat } else { 0nat }
    }
}

proof fn lemma_occurrences_bound(s: Seq<usize>, x: usize)
    ensures
        occurrences(s, x) <= s.len(),
        occurrences(s, x) > 0 <==> s.contains(x),
    decreases s.len(),
{
    if s.len() > 0 {
        lemma_occurrences_bound(s.drop_last(), x);
        if s.drop_last().contains(x) {
            let k = choose|k: int| 0 <= k < s.drop_last().len() && s.drop_last()[k] == x;
            assert(s[k] == x);
        }
        if s.contains(x) && s.last() != x {
            let k = choose|k: int| 0 <= k < s.len() && s[k] == x;
            assert(s.drop_last()[k] == x);
        }
    }
}

proof fn lemma_prefix_occurrences(s: Seq<usize>, k: int, x: usize)
    requires
        0 <= k <= s.len(),
    ensures
        occurrences(s.take(k), x) <= occurrences(s, x),
    decreases s.len() - k,
{
    if k < s.len() {
        lemma_prefix_occurrences(s, k + 1, x);
        assert(s.take(k + 1).drop_last() =~= s.take(k));
    } else {
        assert(s.take(k) =~= s);
    }
}

/// Replacing one slot changes what the arena holds by exactly that slot's
/// references.
proof fn lemma_held_update(cells: Seq<Option<Node>>, i: int, v: Option<Node>, x: usize)
    requires
        0 <= i < cells.len(),
    ensures
        held(cells.update(i, v), x) + slot_holds(cells[i], x) == held(cells, x) + slot_holds(v, x),
        live_count(cells.update(i, v)) + (if cells[i] is Some { 1nat } else { 0nat }) == live_count(cells)
            + (if v is Some { 1nat } else { 0nat }),
    decreases cells.len(),
{
    let u = cells.update(i, v);
    if i == cells.len() - 1 {
        assert(u.drop_last() =~= cells.drop_last());
    } else {
        assert(u.drop_last() =~= cells.drop_last().update(i, v));
        lemma_held_update(cells.drop_last(), i, v, x);
    }
}

/// Appending a slot adds that slot's references.
proof fn lemma_held_push(cells: Seq<Option<Node>>, v: Option<Node>, x: usize)
    ensures
        held(cells.push(v), x) == held(cells, x) + slot_holds(v, x),
        live_count(cells.push(v)) == live_count(cells) + (if v is Some { 1nat } else { 0nat }),
{
    assert(cells.push(v).drop_last() =~= cells);
}

/// A live slot's references are part of what the arena holds.
proof fn lemma_held_includes(cells: Seq<Option<Node>>, i: int, x: usize)
    requires
        0 <= i < cells.len(),
    ensures
        slot_holds(cells[i], x) <= held(cells, x),
    decreases cells.len(),
{
    if i < cells.len() - 1 {
        lemma_held_includes(cells.drop_last(), i, x);
    }
}

/// `m` with one occurrence of each element of `s` added.
pub open spec fn add_all(m: Multiset<usize>, s: Seq<usize>) -> Multiset<usize>
    decreases s.len(),
{
    if s.len() == 0 {
        m
    } else {
        add_all(m, s.drop_last()).insert(s.last())
    }
}

/// `m` with one occurrence of each element of `s` taken away.
pub open spec fn take_all(m: Multiset<usize>, s: Seq<usize>) -> Multiset<usize>
    decreases s.len(),
{
    if s.len() == 0 {
        m
    } else {
        take_all(m, s.drop_last()).remove(s.last())
    }
}

proof fn lemma_add_all(m: Multiset<usize>, s: Seq<usize>, x: usize)
    ensures
        add_all(m, s).count(x) == m.count(x) + occurrences(s, x),
    decreases s.len(),
{
    if s.len() > 0 {
        lemma_add_all(m, s.drop_last(), x);
    }
}

proof fn lemma_take_all(m: Multiset<usize>, s: Seq<usize>, x: usize)
    requires
        forall|y: usize| occurrences(s, y) <= m.count(y),
    ensures
        take_all(m, s).count(x) == m.count(x) - occurrences(s, x),
    decreases s.len(),
{
    if s.len() > 0 {
        let t = s.drop_last();
        assert forall|y: usize| occurrences(t, y) <= m.count(y) by {
            assert(occurrences(s, y) >= occurrences(t, y));
        }
        lemma_take_all(m, t, x);
        let l = s.last();
        lemma_take_all(m, t, l);
    }
}

/// The bytes charged for the cells live in `a` and dead in `b` (two
/// states of the same slots).
pub open spec fn freed_bytes(a: Seq<Option<Node>>, b: Seq<Option<Node>>) -> nat
    decreases a.len(),
{
    if a.len() == 0 {
        0
    } else {
        freed_bytes(a.drop_last(), b.drop_last()) + if a.last() is Some && b.last() is None {
            a.last()->Some_0.bytes as nat
        } else {
            0nat
        }
    }
}

/// The live bytes after refunding `freed`, floored at zero as the refund
/// saturates.
pub open spec fn refunded(used: u64, freed: nat) -> u64 {
    if used >= freed {
        (used - freed) as u64
    } else {
        0
    }
}

/// Slots that stay live and keep their charge free nothing.
pub proof fn lemma_freed_none(a: Seq<Option<Node>>, b: Seq<Option<Node>>)
    requires
        a.len() == b.len(),
        forall|i: int| 0 <= i < a.len() && #[trigger] a[i] is Some ==> b[i] is Some,
    ensures
        freed_bytes(a, b) == 0,
    decreases a.len(),
{
    if a.len() > 0 {
        assert forall|i: int| 0 <= i < a.drop_last().len() && #[trigger] a.drop_last()[i] is Some implies b.drop_last()[i] is Some by {
            assert(a[i] is Some);
        }
        lemma_freed_none(a.drop_last(), b.drop_last());
        assert(a[a.len() - 1] is Some ==> b[b.len() - 1] is Some);
    }
}

/// Freeing one slot frees exactly its charge.
proof fn lemma_freed_one(a: Seq<Option<Node>>, i: int)
    requires
        0 <= i < a.len(),
        a[i] is Some,
    ensures
        freed_bytes(a, a.update(i, None)) == a[i]->Some_0.bytes,
    decreases a.len(),
{
    let b = a.update(i, None);
    if i == a.len() - 1 {
        assert(b.drop_last() =~= a.drop_last());
        lemma_freed_none(a.drop_last(), b.drop_last());
    } else {
        assert(b.drop_last() =~= a.drop_last().update(i, None));
        lemma_freed_one(a.drop_last(), i);
    }
}

/// What two steps free adds up, when the second frees only what the first
/// left alive with its charge unchanged.
pub proof fn lemma_freed_trans(a: Seq<Option<Node>>, b: Seq<Option<Node>>, c: Seq<Option<Node>>)
    requires
        a.len() == b.len(),
        b.len() == c.len(),
        forall|i: int| 0 <= i < b.len() && #[trigger] b[i] is Some ==> a[i] is Some && b[i]->Some_0.bytes
            == a[i]->Some_0.bytes,
        forall|i: int| 0 <= i < c.len() && #[trigger] c[i] is Some ==> b[i] is Some,
    ensures
        freed_bytes(a, c) == freed_bytes(a, b) + freed_bytes(b, c),
    decreases a.len(),
{
    if a.len() > 0 {
        let (a1, b1, c1) = (a.drop_last(), b.drop_last(), c.drop_last());
        assert forall|i: int| 0 <= i < b1.len() && #[trigger] b1[i] is Some implies a1[i] is Some && b1[i]->Some_0.bytes
            == a1[i]->Some_0.bytes by {
            assert(b[i] is Some);
        }
        assert forall|i: int| 0 <= i < c1.len() && #[trigger] c1[i] is Some implies b1[i] is Some by {
            assert(c[i] is Some);
        }
        lemma_freed_trans(a1, b1, c1);
        let n = a.len() - 1;
        assert(b[n] is Some ==> a[n] is Some);
        assert(c[n] is Some ==> b[n] is Some);
    }
}

/// Refunds in two steps are one refund of the sum.
proof fn lemma_refunded_twice(u: u64, x: nat, y: nat)
    ensures
        refunded(refunded(u, x), y) == refunded(u, x + y),
{
}

/// The slots after a referent's death: every weak box that observed it
/// reads nil.
pub open spec fn nulled(cells: Seq<Option<Node>>, id: usize) -> Seq<Option<Node>> {
    Seq::new(
        cells.len(),
        |k: int|
            match cells[k] {
                Some(n) => if n.weak == Some(id) {
                    Some(Node { weak: None, ..n })
                } else {
                    Some(n)
                },
                None => None,
            },
    )
}

/// Nulling weak boxes neither frees nor revives a slot.
proof fn lemma_live_count_nulled(cells: Seq<Option<Node>>, id: usize)
    ensures
        live_count(nulled(cells, id)) == live_count(cells),
    decreases cells.len(),
{
    if cells.len() > 0 {
        assert(nulled(cells, id).drop_last() =~= nulled(cells.drop_last(), id));
        lemma_live_count_nulled(cells.drop_last(), id);
    }
}

/// What `upgrade` answers on the arena `a` for the slot `w`.
pub open spec fn upgrade_outcome(a: CellArena, w: Option<usize>, r: Result<Option<usize>, Trap>) -> bool {
    match w {
        None => r matches Err(t) && t.kind == TrapKind::NilDeref && t.msg@ == "upgrade on nil"@,
        Some(b) => if !a.cells@[b as int]->Some_0.is_weak {
            r matches Err(t) && t.kind == TrapKind::Invalid && t.msg@ == "upgrade on non-weak"@
        } else {
            r == Ok::<Option<usize>, Trap>(a.cells@[b as int]->Some_0.weak)
        },
    }
}

/// Whether slot `x` holds a live cell.
pub open spec fn is_live(cells: Seq<Option<Node>>, x: usize) -> bool {
    x < cells.len() && cells[x as int] is Some
}

impl CellArena {
    /// Whether slot `x` holds a live cell.
    pub open spec fn live(&self, x: usize) -> bool {
        is_live(self.cells@, x)
    }

    /// The live cell in slot `x`.
    pub open spec fn node(&self, x: usize) -> Node {
        self.cells@[x as int]->Some_0
    }

    /// Whether the cell in slot `i` is sound: counted at least once, and
    /// every cell it holds is live.
    pub open spec fn node_ok(&self, i: usize) -> bool {
        let n = self.node(i);
        &&& n.refs >= 1
        &&& forall|k: int| 0 <= k < n.children@.len() ==> #[trigger] self.live(n.children@[k])
        &&& (n.drop_fn matches Some(c) ==> self.live(c))
        &&& (n.weak matches Some(r) ==> self.live(r))
    }

    /// Whether `x`'s count is exact: a live mortal cell counts every
    /// reference held on it, and whatever is referenced is live.
    pub open spec fn balanced(&self, x: usize) -> bool {
        &&& (self.live(x) && self.node(x).refs != u32::MAX) ==> self.node(x).refs == held(self.cells@, x)
            + self.ext@.count(x) + queued(self.pending@, x)
        &&& (self.ext@.count(x) > 0 || queued(self.pending@, x) > 0 || held(self.cells@, x) > 0) ==> self.live(x)
    }

    /// The arena's invariant.
    pub open spec fn wf(&self) -> bool {
        &&& self.cells@.len() <= usize::MAX
        &&& forall|i: usize| #[trigger] self.live(i) ==> self.node_ok(i)
        &&& forall|x: usize| #[trigger] self.balanced(x)
        &&& forall|k: int| 0 <= k < self.free@.len() ==> {
            let f = #[trigger] self.free@[k];
            f < self.cells@.len() && self.cells@[f as int] is None
        }
        &&& self.free@.no_duplicates()
    }

    /// An empty arena.
    pub fn new() -> (a: CellArena)
        ensures
            a.wf(),
            a.cells@.len() == 0,
            a.ext@ == Multiset::<usize>::empty(),
    {
        let a = CellArena { cells: Vec::new(), free: Vec::new(), pending: Vec::new(), ext: Ghost(Multiset::empty()) };
        assert forall|x: usize| #[trigger] a.balanced(x) by {
            assert(held(a.cells@, x) == 0);
            assert(queued(a.pending@, x) == 0);
        }
        a
    }

    /// Takes a slot (a recycled one first) for a new cell holding
    /// `children`: the children's references move from outside the arena
    /// into the new cell's fields, and the one reference to the new cell
    /// goes to the caller.
    pub fn mint(&mut self, bytes: u32, children: Vec<usize>) -> (id: usize)
        requires
            old(self).wf(),
            old(self).cells@.len() < usize::MAX,
            forall|x: usize| occurrences(children@, x) <= old(self).ext@.count(x),
        ensures
            final(self).wf(),
            !old(self).live(id),
            final(self).live(id),
            final(self).node(id) == (Node { refs: 1, bytes, children, drop_fn: None, is_weak: false, weak: None }),
            forall|x: usize| x < old(self).cells@.len() && x != id ==> #[trigger] final(self).cells@[x as int] == old(self).cells@[x as int],
            final(self).cells@.len() >= old(self).cells@.len(),
            forall|x: usize| #[trigger] final(self).ext@.count(x) == old(self).ext@.count(x) - occurrences(
                children@,
                x,
            ) + if x == id { 1int } else { 0int },
            final(self).pending@ == old(self).pending@,
    {
        let ghost cs = children@;
        let ghost old_cells = self.cells@;
        let node = Node { refs: 1, bytes, children, drop_fn: None, is_weak: false, weak: None };
        let id = match self.free.pop() {
            Some(i) => {
                proof {
                    assert(old(self).free@[old(self).free@.len() - 1] == i);
                }
                self.cells.set(i, Some(node));
                i
            },
            None => {
                self.cells.push(Some(node));
                self.cells.len() - 1
            },
        };
        proof {
            let e0 = self.ext@;
            self.ext@ = take_all(e0, cs).insert(id);
            assert forall|x: usize| #[trigger] self.ext@.count(x) == e0.count(x) - occurrences(cs, x) + if x == id { 1int } else { 0int } by {
                lemma_take_all(e0, cs, x);
            }
            assert(!is_live(old_cells, id));
            assert(old(self).balanced(id));
            assert forall|x: usize| #[trigger] held(self.cells@, x) == held(old_cells, x) + occurrences(cs, x) by {
                if id < old_cells.len() {
                    lemma_held_update(old_cells, id as int, Some(node), x);
                } else {
                    assert(self.cells@ =~= old_cells.push(Some(node)));
                    lemma_held_push(old_cells, Some(node), x);
                }
            }
            assert forall|k: int| 0 <= k < cs.len() implies #[trigger] self.live(cs[k]) by {
                lemma_occurrences_bound(cs, cs[k]);
                assert(cs.contains(cs[k]));
                assert(old(self).balanced(cs[k]));
            }
            assert(occurrences(cs, id) == 0) by {
                lemma_occurrences_bound(cs, id);
                if cs.contains(id) {
                    let k = choose|k: int| 0 <= k < cs.len() && cs[k] == id;
                    assert(old(self).balanced(cs[k]));
                }
            }
            assert forall|i: usize| #[trigger] self.live(i) implies self.node_ok(i) by {
                if i != id {
                    assert(old(self).live(i));
                    assert(old(self).node_ok(i));
                    let n = self.node(i);
                    assert forall|k: int| 0 <= k < n.children@.len() implies #[trigger] self.live(n.children@[k]) by {
                        assert(old(self).live(n.children@[k]));
                    }
                }
            }
            assert forall|x: usize| #[trigger] self.balanced(x) by {
                assert(old(self).balanced(x));
                if x != id && self.live(x) {
                    assert(old(self).live(x));
                }
            }
            assert forall|k: int| 0 <= k < self.free@.len() implies {
                let f = #[trigger] self.free@[k];
                f < self.cells@.len() && self.cells@[f as int] is None
            } by {
                let f = self.free@[k];
                assert(old(self).free@[k] == f);
                assert(f != id) by {
                    if id < old_cells.len() {
                        assert(old(self).free@[old(self).free@.len() - 1] == id);
                        assert(old(self).free@.no_duplicates());
                    }
                }
            }
        }
        id
    }

    /// Takes one more reference to a live cell; a count that would pass
    /// `u32::MAX` saturates there and the cell becomes immortal.
    pub fn retain(&mut self, id: usize)
        requires
            old(self).wf(),
            old(self).live(id),
        ensures
            final(self).wf(),
            final(self).live(id),
            final(self).node(id).refs == (if old(self).node(id).refs == u32::MAX {
                u32::MAX
            } else {
                (old(self).node(id).refs + 1) as u32
            }),
            final(self).cells@ == old(self).cells@.update(
                id as int,
                Some(Node { refs: final(self).node(id).refs, ..old(self).node(id) }),
            ),
            final(self).ext@ == old(self).ext@.insert(id),
            final(self).pending@ == old(self).pending@,
            final(self).free@ == old(self).free@,
    {
        let ghost old_cells = self.cells@;
        let mut slot: Option<Node> = None;
        self.cells.set_and_swap(id, &mut slot);
        let mut n = slot.unwrap();
        n.refs = if n.refs == u32::MAX { u32::MAX } else { n.refs + 1 };
        self.cells.set(id, Some(n));
        proof {
            self.ext@ = self.ext@.insert(id);
            assert(self.cells@ =~= old_cells.update(id as int, self.cells@[id as int]));
            assert forall|x: usize| #[trigger] held(self.cells@, x) == held(old_cells, x) by {
                assert(slot_holds(self.cells@[id as int], x) == slot_holds(old_cells[id as int], x));
                lemma_held_update(old_cells, id as int, self.cells@[id as int], x);
            }
            assert forall|i: usize| #[trigger] self.live(i) implies self.node_ok(i) by {
                assert(old(self).live(i));
                assert(old(self).node_ok(i));
                let m = self.node(i);
                assert forall|k: int| 0 <= k < m.children@.len() implies #[trigger] self.live(m.children@[k]) by {
                    assert(old(self).live(m.children@[k]));
                }
            }
            assert forall|x: usize| #[trigger] self.balanced(x) by {
                assert(old(self).balanced(x));
            }
            assert forall|k: int| 0 <= k < self.free@.len() implies {
                let f = #[trigger] self.free@[k];
                f < self.cells@.len() && self.cells@[f as int] is None
            } by {
                assert(old(self).free@[k] == self.free@[k]);
            }
        }
    }

    /// The shallow copy `own` makes of a record or array cell: the copy's
    /// charge (the source's) is taken from the budget first, and a budget
    /// it would exceed traps with nothing changed; then every cell the
    /// source holds gains a reference for the copy, and the copy takes a
    /// fresh slot with the same fields and charge, its one reference going
    /// to the caller.
    pub fn own_cell(&mut self, acct: &mut HeapAcct, id: usize) -> (r: Result<usize, Trap>)
        requires
            old(self).wf(),
            old(self).live(id),
            old(self).cells@.len() < usize::MAX,
            old(acct).used + old(self).node(id).bytes <= u64::MAX,
        ensures
            final(self).wf(),
            charge_outcome(
                *old(acct),
                *final(acct),
                old(self).node(id).bytes as u64,
                match r {
                    Ok(_) => Ok(()),
                    Err(e) => Err(e),
                },
            ),
            r is Err ==> *final(self) == *old(self),
            r matches Ok(c) ==> {
                &&& !old(self).live(c)
                &&& final(self).live(c)
                &&& final(self).node(c).refs == 1
                &&& final(self).node(c).bytes == old(self).node(id).bytes
                &&& final(self).node(c).children@ == old(self).node(id).children@
                &&& final(self).node(c).drop_fn is None
                &&& !final(self).node(c).is_weak
                &&& final(self).node(c).weak is None
                &&& forall|x: usize| #[trigger] final(self).ext@.count(x) == old(self).ext@.count(x) + if x == c {
                    1int
                } else {
                    0int
                }
                &&& forall|x: usize| #[trigger] old(self).live(x) ==> final(self).live(x)
            },
    {
        let (bytes, children) = match &self.cells[id] {
            Some(n) => (n.bytes, n.children.clone()),
            None => (0, Vec::new()),
        };
        proof {
            assert(children@ =~= old(self).node(id).children@);
            assert(old(self).node_ok(id));
        }
        acct.charge(bytes as u64)?;
        let mut i: usize = 0;
        while i < children.len()
            invariant
                self.wf(),
                i <= children@.len(),
                children@ == old(self).node(id).children@,
                forall|k: int| 0 <= k < children@.len() ==> #[trigger] self.live(children@[k]),
                self.cells@.len() == old(self).cells@.len(),
                forall|x: usize| #[trigger] self.live(x) == old(self).live(x),
                forall|x: usize| #[trigger] self.ext@.count(x) == old(self).ext@.count(x) + occurrences(
                    children@.take(i as int),
                    x,
                ),
            decreases children@.len() - i,
        {
            let ghost bc = self.cells@;
            let c = children[i];
            assert(self.live(children@[i as int]));
            let ghost before = *self;
            self.retain(c);
            proof {
                assert(self.cells@.len() == bc.len());
                assert(children@.take(i + 1).drop_last() =~= children@.take(i as int));
                assert forall|x: usize| #[trigger] self.live(x) == is_live(bc, x) by {
                    if x != c && (x as int) < self.cells@.len() {
                        assert(self.cells@[x as int] == bc[x as int]);
                    }
                }
                assert forall|k: int| 0 <= k < children@.len() implies #[trigger] self.live(children@[k]) by {
                    assert(before.live(children@[k]));
                }
                assert forall|x: usize| #[trigger] self.live(x) == old(self).live(x) by {
                    assert(self.live(x) == is_live(bc, x));
                    assert(before.live(x) == old(self).live(x));
                }
            }
            i = i + 1;
        }
        proof {
            assert(children@.take(children@.len() as int) =~= children@);
        }
        let ghost mid = *self;
        let c = self.mint(bytes, children);
        proof {
            assert forall|x: usize| #[trigger] old(self).live(x) implies self.live(x) by {
                assert(mid.live(x));
                if x != c {
                    assert(self.cells@[x as int] == mid.cells@[x as int]);
                }
            }
        }
        Ok(c)
    }

    /// The count on a live cell.
    pub fn refs_of(&self, id: usize) -> (n: u32)
        requires
            self.live(id),
        ensures
            n == self.node(id).refs,
    {
        match &self.cells[id] {
            Some(c) => c.refs,
            None => 0,
        }
    }

    /// Whether slot `id` holds a live cell.
    pub fn is_live(&self, id: usize) -> (b: bool)
        ensures
            b == self.live(id),
    {
        id < self.cells.len() && self.cells[id].is_some()
    }

    /// Releases one reference to `id`. An immortal cell ignores it; a
    /// count above one drops by one; the last reference pins a cell with
    /// a drop callback (its count stays one, and the cell with its
    /// cleanup joins the queue) and frees any other cell: its charge is
    /// refunded, its slot recycled, and then its children are released in
    /// order.
    pub fn release(&mut self, acct: &mut HeapAcct, id: usize)
        requires
            old(self).wf(),
            old(self).ext@.count(id) >= 1,
        ensures
            final(self).wf(),
            final(self).ext@ == old(self).ext@.remove(id),
            final(self).cells@.len() == old(self).cells@.len(),
            live_count(final(self).cells@) <= live_count(old(self).cells@),
            forall|x: usize| #[trigger] final(self).live(x) ==> old(self).live(x)
                && final(self).node(x).children == old(self).node(x).children
                && final(self).node(x).bytes == old(self).node(x).bytes
                && final(self).node(x).is_weak == old(self).node(x).is_weak
                && (final(self).node(x).weak is None || final(self).node(x).weak == old(self).node(x).weak),
            final(self).pending@.len() >= old(self).pending@.len(),
            forall|k: int| 0 <= k < old(self).pending@.len() ==> #[trigger] final(self).pending@[k] == old(self).pending@[k],
            final(acct).used == refunded(old(acct).used, freed_bytes(old(self).cells@, final(self).cells@)),
            final(acct).peak == old(acct).peak,
            final(acct).limit == old(acct).limit,
            old(self).node(id).refs == u32::MAX ==> final(self).cells@ == old(self).cells@
                && final(self).pending@ == old(self).pending@ && *final(acct) == *old(acct),
            1 < old(self).node(id).refs < u32::MAX ==> final(self).cells@ == old(self).cells@.update(
                id as int,
                Some(Node { refs: (old(self).node(id).refs - 1) as u32, ..old(self).node(id) }),
            ) && final(self).pending@ == old(self).pending@ && *final(acct) == *old(acct),
            (old(self).node(id).refs <= 1 && old(self).node(id).drop_fn is Some) ==> final(self).cells@
                == nulled(old(self).cells@, id).update(
                id as int,
                Some(Node { drop_fn: None, ..nulled(old(self).cells@, id)[id as int]->Some_0 }),
            ) && final(self).pending@ == old(self).pending@.push((id, old(self).node(id).drop_fn->Some_0))
                && *final(acct) == *old(acct),
            old(self).node(id).refs <= 1 ==> forall|x: usize| #[trigger] final(self).live(x) ==> final(self).node(x).weak
                != Some(id),
            (old(self).node(id).refs <= 1 && old(self).node(id).drop_fn is None) ==> !final(self).live(id),
        decreases live_count(old(self).cells@), 1nat,
    {
        proof {
            assert(old(self).balanced(id));
        }
        let refs = self.refs_of(id);
        if refs == u32::MAX {
            proof {
                self.ext@ = self.ext@.remove(id);
                assert forall|x: usize| #[trigger] self.balanced(x) by {
                    assert(old(self).balanced(x));
                }
                assert forall|x: usize| #[trigger] self.live(x) implies old(self).live(x) && self.node(x).refs >= 1 by {
                    assert(old(self).live(x));
                    assert(old(self).node_ok(x));
                }
                self.lemma_weak_kept(*old(self));
                self.lemma_keeps_soundness(*old(self));
                self.lemma_nothing_freed(*old(self));
            }
            return;
        }
        let ghost old_cells = self.cells@;
        if refs > 1 {
            let mut slot: Option<Node> = None;
            self.cells.set_and_swap(id, &mut slot);
            let mut n = slot.unwrap();
            n.refs = n.refs - 1;
            self.cells.set(id, Some(n));
            proof {
                self.ext@ = self.ext@.remove(id);
                assert(self.cells@ =~= old_cells.update(id as int, self.cells@[id as int]));
                assert forall|x: usize| #[trigger] held(self.cells@, x) == held(old_cells, x) by {
                    assert(slot_holds(self.cells@[id as int], x) == slot_holds(old_cells[id as int], x));
                    lemma_held_update(old_cells, id as int, self.cells@[id as int], x);
                }
                lemma_held_update(old_cells, id as int, self.cells@[id as int], 0);
                assert forall|x: usize| #[trigger] self.balanced(x) by {
                    assert(old(self).balanced(x));
                }
                assert forall|x: usize| #[trigger] self.live(x) implies old(self).live(x)
                    && self.node(x).children == old(self).node(x).children
                    && (self.node(x).drop_fn matches Some(c) ==> old(self).node(x).drop_fn == Some(c))
                    && self.node(x).refs >= 1 by {
                    if x != id {
                        assert(self.cells@[x as int] == old_cells[x as int]);
                        assert(old(self).live(x));
                        assert(old(self).node_ok(x));
                    }
                }
                self.lemma_keeps_soundness(*old(self));
                assert forall|x: usize| #[trigger] old(self).live(x) implies self.live(x) by {
                    if x != id {
                        assert(self.cells@[x as int] == old_cells[x as int]);
                    }
                }
                self.lemma_nothing_freed(*old(self));
            }
            return;
        }
        self.null_weaks(id);
        let ghost w = *self;
        proof {
            assert(w.live(id)) by {
                assert(w.cells@[id as int] is Some);
            }
            assert(w.node(id).refs == old(self).node(id).refs);
            assert(w.balanced(id));
        }
        let mut slot: Option<Node> = None;
        self.cells.set_and_swap(id, &mut slot);
        let mut n = slot.unwrap();
        match n.drop_fn {
            Some(c) => {
                n.drop_fn = None;
                self.cells.set(id, Some(n));
                self.pending.push((id, c));
                proof {
                    self.ext@ = self.ext@.remove(id);
                    assert(self.cells@ =~= w.cells@.update(id as int, self.cells@[id as int]));
                    assert(w.balanced(c));
                    assert forall|x: usize| #[trigger] held(self.cells@, x) + (if x == c { 1nat } else { 0nat })
                        == held(w.cells@, x) by {
                        lemma_held_update(w.cells@, id as int, self.cells@[id as int], x);
                    }
                    lemma_held_update(w.cells@, id as int, self.cells@[id as int], 0);
                    assert forall|x: usize| #[trigger] queued(self.pending@, x) == queued(w.pending@, x)
                        + (if x == id { 1nat } else { 0nat }) + (if x == c { 1nat } else { 0nat }) by {
                        assert(self.pending@.drop_last() =~= w.pending@);
                    }
                    assert(c != id) by {
                        lemma_held_includes(w.cells@, id as int, id);
                    }
                    assert forall|x: usize| #[trigger] self.balanced(x) by {
                        assert(w.balanced(x));
                    }
                    assert(w.node_ok(id));
                    assert forall|x: usize| #[trigger] self.live(x) <==> w.live(x) by {
                        if x != id && x < self.cells@.len() {
                            assert(self.cells@[x as int] == w.cells@[x as int]);
                        }
                    }
                    assert forall|x: usize| #[trigger] self.live(x) implies w.live(x) && self.node(x).refs >= 1 by {
                        if x != id {
                            assert(self.cells@[x as int] == w.cells@[x as int]);
                            assert(w.node_ok(x));
                        }
                    }
                    assert forall|x: usize| self.live(x) implies #[trigger] self.node(x).weak == w.node(x).weak by {
                        if x != id {
                            assert(self.cells@[x as int] == w.cells@[x as int]);
                        }
                    }
                    self.lemma_weak_kept(w);
                    self.lemma_keeps_soundness(w);
                    lemma_live_count_nulled(old(self).cells@, id);
                    assert forall|x: usize| #[trigger] old(self).live(x) implies self.live(x) by {
                        assert(w.cells@[x as int] == nulled(old(self).cells@, id)[x as int]);
                    }
                    self.lemma_nothing_freed(*old(self));
                }
            },
            None => {
                self.cells.set(id, Some(n));
                proof {
                    assert(self.cells@ =~= w.cells@);
                    lemma_live_count_nulled(old(self).cells@, id);
                    assert forall|x: usize| #[trigger] self.balanced(x) by {
                        assert(w.balanced(x));
                    }
                    assert forall|x: usize| #[trigger] self.live(x) <==> w.live(x) by {}
                    assert forall|x: usize| #[trigger] self.live(x) implies w.live(x) && self.node(x).refs >= 1 by {
                        assert(w.node_ok(x));
                    }
                    assert forall|x: usize| self.live(x) implies #[trigger] self.node(x).weak == w.node(x).weak by {}
                    self.lemma_weak_kept(w);
                    self.lemma_keeps_soundness(w);
                }
                let ghost pre = *self;
                self.release_cell(acct, id);
                proof {
                    assert forall|x: usize| #[trigger] old(self).live(x) implies w.live(x) by {
                        assert(w.cells@[x as int] == nulled(old(self).cells@, id)[x as int]);
                    }
                    w.lemma_nothing_freed(*old(self));
                    assert forall|x: usize| #[trigger] w.live(x) implies old(self).live(x) && w.node(x).bytes
                        == old(self).node(x).bytes by {
                        assert(w.cells@[x as int] == nulled(old(self).cells@, id)[x as int]);
                    }
                    assert forall|x: usize| #[trigger] self.live(x) implies w.live(x) by {
                        assert(pre.live(x));
                    }
                    self.lemma_refund_chain(*old(self), w, old(acct).used, old(acct).used, acct.used);
                }
            },
        }
    }

    /// A weak box observing `referent` without holding a reference to it;
    /// the one reference to the box goes to the caller.
    pub fn mint_weak(&mut self, bytes: u32, referent: usize) -> (id: usize)
        requires
            old(self).wf(),
            old(self).cells@.len() < usize::MAX,
            old(self).live(referent),
        ensures
            final(self).wf(),
            !old(self).live(id),
            final(self).live(id),
            final(self).node(id) == (Node {
                refs: 1,
                bytes,
                children: final(self).node(id).children,
                drop_fn: None,
                is_weak: true,
                weak: Some(referent),
            }),
            final(self).node(id).children@.len() == 0,
            forall|x: usize| x < old(self).cells@.len() && x != id ==> #[trigger] final(self).cells@[x as int] == old(self).cells@[x as int],
            final(self).ext@ == old(self).ext@.insert(id),
            final(self).pending@ == old(self).pending@,
    {
        let id = self.mint(bytes, Vec::new());
        let ghost prev = *self;
        let mut slot: Option<Node> = None;
        self.cells.set_and_swap(id, &mut slot);
        let mut n = slot.unwrap();
        n.is_weak = true;
        n.weak = Some(referent);
        self.cells.set(id, Some(n));
        proof {
            assert(self.cells@ =~= prev.cells@.update(id as int, self.cells@[id as int]));
            assert forall|x: usize| #[trigger] held(self.cells@, x) == held(prev.cells@, x) by {
                lemma_held_update(prev.cells@, id as int, self.cells@[id as int], x);
            }
            assert forall|x: usize| #[trigger] self.live(x) <==> prev.live(x) by {
                if x != id && x < self.cells@.len() {
                    assert(self.cells@[x as int] == prev.cells@[x as int]);
                }
            }
            assert forall|x: usize| #[trigger] self.balanced(x) by {
                assert(prev.balanced(x));
            }
            assert forall|x: usize| #[trigger] self.live(x) implies prev.live(x) && self.node(x).refs >= 1 by {
                assert(prev.node_ok(x));
            }
            assert(prev.live(referent));
            assert forall|x: usize| self.live(x) && #[trigger] self.node(x).weak is Some implies self.live(
                self.node(x).weak->Some_0,
            ) by {
                if x != id {
                    assert(self.cells@[x as int] == prev.cells@[x as int]);
                    assert(prev.node_ok(x));
                }
            }
            self.lemma_keeps_soundness(prev);
            assert(Seq::<usize>::empty().len() == 0);
            assert forall|x: usize| #[trigger] self.ext@.count(x) == old(self).ext@.insert(id).count(x) by {
                assert(occurrences(Seq::<usize>::empty(), x) == 0);
            }
            assert(self.ext@ =~= old(self).ext@.insert(id));
        }
        id
    }

    /// `w.upgrade()`: a weak box whose referent is alive answers it with
    /// one more reference for the caller; once the referent's last
    /// reference went it answers nil. Refused on a nil slot or on a cell
    /// that is no weak box.
    pub fn upgrade(&mut self, w: Option<usize>) -> (r: Result<Option<usize>, Trap>)
        requires
            old(self).wf(),
            w matches Some(b) ==> old(self).live(b),
        ensures
            final(self).wf(),
            final(self).pending@ == old(self).pending@,
            upgrade_outcome(*old(self), w, r),
            r matches Ok(Some(x)) ==> final(self).ext@ == old(self).ext@.insert(x) && final(self).live(x),
            !(r matches Ok(Some(_))) ==> *final(self) == *old(self),
    {
        let b = match w {
            None => {
                return Err(Trap::new(TrapKind::NilDeref, "upgrade on nil".to_owned()));
            },
            Some(b) => b,
        };
        let (is_weak, referent) = match &self.cells[b] {
            Some(n) => (n.is_weak, n.weak),
            None => (false, None),
        };
        if !is_weak {
            return Err(Trap::new(TrapKind::Invalid, "upgrade on non-weak".to_owned()));
        }
        match referent {
            None => Ok(None),
            Some(x) => {
                proof {
                    assert(old(self).node_ok(b));
                }
                self.retain(x);
                Ok(Some(x))
            },
        }
    }

    /// Releases a reference slot: a nil slot holds nothing and is left
    /// alone; any other is released as `release` does.
    pub fn release_slot(&mut self, acct: &mut HeapAcct, s: Option<usize>)
        requires
            old(self).wf(),
            s matches Some(id) ==> old(self).ext@.count(id) >= 1,
        ensures
            final(self).wf(),
            s is None ==> *final(self) == *old(self) && *final(acct) == *old(acct),
            s matches Some(id) ==> final(self).ext@ == old(self).ext@.remove(id),
            s matches Some(id) ==> final(acct).used == refunded(old(acct).used, freed_bytes(old(self).cells@, final(self).cells@)),
            s matches Some(id) ==> (old(self).node(id).refs <= 1 && old(self).node(id).drop_fn is None
                ==> !final(self).live(id)),
    {
        match s {
            None => {},
            Some(id) => self.release(acct, id),
        }
    }

    /// A referent's last reference is going: every weak box observing it
    /// reads nil from now on, before anything else happens to it.
    fn null_weaks(&mut self, id: usize)
        requires
            old(self).wf(),
        ensures
            final(self).wf(),
            final(self).cells@ == nulled(old(self).cells@, id),
            final(self).ext@ == old(self).ext@,
            final(self).pending@ == old(self).pending@,
            final(self).free@ == old(self).free@,
    {
        let n = self.cells.len();
        let mut k: usize = 0;
        while k < n
            invariant
                n == self.cells@.len(),
                n == old(self).cells@.len(),
                k <= n,
                self.wf(),
                self.ext@ == old(self).ext@,
                self.pending@ == old(self).pending@,
                self.free@ == old(self).free@,
                forall|j: int| 0 <= j < k ==> #[trigger] self.cells@[j] == nulled(old(self).cells@, id)[j],
                forall|j: int| k <= j < n ==> #[trigger] self.cells@[j] == old(self).cells@[j],
            decreases n - k,
        {
            let hit = match &self.cells[k] {
                Some(c) => match c.weak {
                    Some(r) => r == id,
                    None => false,
                },
                None => false,
            };
            if hit {
                let ghost prev = *self;
                let mut slot: Option<Node> = None;
                self.cells.set_and_swap(k, &mut slot);
                let mut c = slot.unwrap();
                c.weak = None;
                self.cells.set(k, Some(c));
                proof {
                    assert(self.cells@ =~= prev.cells@.update(k as int, self.cells@[k as int]));
                    assert forall|x: usize| #[trigger] held(self.cells@, x) == held(prev.cells@, x) by {
                        lemma_held_update(prev.cells@, k as int, self.cells@[k as int], x);
                    }
                    assert forall|x: usize| #[trigger] self.live(x) <==> prev.live(x) by {
                        if x == k {
                        } else if x < n {
                            assert(self.cells@[x as int] == prev.cells@[x as int]);
                        }
                    }
                    assert forall|x: usize| #[trigger] self.balanced(x) by {
                        assert(prev.balanced(x));
                    }
                    assert forall|x: usize| #[trigger] self.live(x) implies prev.live(x) && self.node(x).refs >= 1 by {
                        assert(prev.node_ok(x));
                    }
                    assert forall|x: usize| self.live(x) && #[trigger] self.node(x).weak is Some implies self.live(
                        self.node(x).weak->Some_0,
                    ) by {
                        assert(x != k);
                        assert(self.cells@[x as int] == prev.cells@[x as int]);
                        assert(prev.node_ok(x));
                    }
                    self.lemma_keeps_soundness(prev);
                }
            }
            k = k + 1;
        }
        assert(self.cells@ =~= nulled(old(self).cells@, id));
    }

    /// Refunds chain: what `b` freed of `a`, then `self` of `b`, is what
    /// `self` freed of `a`, given that `b` kept every surviving charge and
    /// `self` revived nothing.
    pub proof fn lemma_refund_chain(&self, a: CellArena, b: CellArena, u0: u64, u1: u64, u2: u64)
        requires
            a.cells@.len() <= usize::MAX,
            a.cells@.len() == b.cells@.len(),
            b.cells@.len() == self.cells@.len(),
            forall|x: usize| #[trigger] b.live(x) ==> a.live(x) && b.node(x).bytes == a.node(x).bytes,
            forall|x: usize| #[trigger] self.live(x) ==> b.live(x),
            u1 == refunded(u0, freed_bytes(a.cells@, b.cells@)),
            u2 == refunded(u1, freed_bytes(b.cells@, self.cells@)),
        ensures
            u2 == refunded(u0, freed_bytes(a.cells@, self.cells@)),
    {
        assert forall|i: int| 0 <= i < b.cells@.len() && #[trigger] b.cells@[i] is Some implies a.cells@[i] is Some
            && b.cells@[i]->Some_0.bytes == a.cells@[i]->Some_0.bytes by {
            assert(b.live(i as usize));
        }
        assert forall|i: int| 0 <= i < self.cells@.len() && #[trigger] self.cells@[i] is Some implies b.cells@[i] is Some by {
            assert(self.live(i as usize));
        }
        lemma_freed_trans(a.cells@, b.cells@, self.cells@);
        lemma_refunded_twice(u0, freed_bytes(a.cells@, b.cells@), freed_bytes(b.cells@, self.cells@));
    }

    /// A step that kills no slot frees nothing.
    pub proof fn lemma_nothing_freed(&self, a: CellArena)
        requires
            a.cells@.len() <= usize::MAX,
            a.cells@.len() == self.cells@.len(),
            forall|x: usize| #[trigger] a.live(x) ==> self.live(x),
        ensures
            freed_bytes(a.cells@, self.cells@) == 0,
    {
        assert forall|i: int| 0 <= i < a.cells@.len() && #[trigger] a.cells@[i] is Some implies self.cells@[i] is Some by {
            assert(a.live(i as usize));
        }
        lemma_freed_none(a.cells@, self.cells@);
    }

    /// When no slot came alive or died and no weak box changed its
    /// referent, every weak box still observes a live cell.
    proof fn lemma_weak_kept(&self, old: CellArena)
        requires
            old.wf(),
            forall|x: usize| #[trigger] self.live(x) <==> old.live(x),
            forall|x: usize| self.live(x) ==> #[trigger] self.node(x).weak == old.node(x).weak,
        ensures
            forall|x: usize| self.live(x) && #[trigger] self.node(x).weak is Some ==> self.live(self.node(x).weak->Some_0),
    {
        assert forall|x: usize| self.live(x) && #[trigger] self.node(x).weak is Some implies self.live(
            self.node(x).weak->Some_0,
        ) by {
            assert(old.live(x));
            assert(old.node_ok(x));
            assert(old.live(old.node(x).weak->Some_0));
        }
    }

    /// The soundness facts every operation here re-proves in the same way:
    /// given that no slot came alive, the free list is unchanged and every
    /// count balances, every live cell is sound.
    proof fn lemma_keeps_soundness(&self, old: CellArena)
        requires
            old.wf(),
            self.cells@.len() == old.cells@.len(),
            self.free@ == old.free@,
            forall|x: usize| #[trigger] self.live(x) ==> old.live(x) && self.node(x).refs >= 1,
            forall|x: usize| #[trigger] self.balanced(x),
            forall|x: usize| self.live(x) && #[trigger] self.node(x).weak is Some ==> self.live(self.node(x).weak->Some_0),
        ensures
            self.wf(),
    {
        assert forall|i: usize| #[trigger] self.live(i) implies self.node_ok(i) by {
            assert(old.node_ok(i));
            let m = self.node(i);
            assert forall|k: int| 0 <= k < m.children@.len() implies #[trigger] self.live(m.children@[k]) by {
                let y = m.children@[k];
                lemma_occurrences_bound(m.children@, y);
                assert(m.children@.contains(y));
                lemma_held_includes(self.cells@, i as int, y);
                assert(self.balanced(y));
            }
            if let Some(c) = m.drop_fn {
                lemma_held_includes(self.cells@, i as int, c);
                assert(self.balanced(c));
            }
        }
        assert forall|k: int| 0 <= k < self.free@.len() implies {
            let f = #[trigger] self.free@[k];
            f < self.cells@.len() && self.cells@[f as int] is None
        } by {
            let f = self.free@[k];
            assert(old.free@[k] == f);
            assert(!self.live(f));
        }
    }

    /// Frees a cell whose last reference is being released: the charge is
    /// refunded, the slot recycled, and the children released in order.
    fn release_cell(&mut self, acct: &mut HeapAcct, id: usize)
        requires
            old(self).wf(),
            old(self).ext@.count(id) >= 1,
            old(self).live(id),
            old(self).node(id).refs <= 1,
            old(self).node(id).drop_fn is None,
            forall|x: usize| old(self).live(x) ==> #[trigger] old(self).node(x).weak != Some(id),
        ensures
            final(self).wf(),
            final(self).ext@ == old(self).ext@.remove(id),
            final(self).cells@.len() == old(self).cells@.len(),
            live_count(final(self).cells@) < live_count(old(self).cells@),
            !final(self).live(id),
            forall|x: usize| #[trigger] final(self).live(x) ==> old(self).live(x)
                && final(self).node(x).children == old(self).node(x).children
                && final(self).node(x).bytes == old(self).node(x).bytes
                && final(self).node(x).is_weak == old(self).node(x).is_weak
                && (final(self).node(x).weak is None || final(self).node(x).weak == old(self).node(x).weak),
            final(self).pending@.len() >= old(self).pending@.len(),
            forall|k: int| 0 <= k < old(self).pending@.len() ==> #[trigger] final(self).pending@[k] == old(self).pending@[k],
            final(acct).used == refunded(old(acct).used, freed_bytes(old(self).cells@, final(self).cells@)),
            final(acct).peak == old(acct).peak,
            final(acct).limit == old(acct).limit,
        decreases live_count(old(self).cells@), 0nat,
    {
        proof {
            assert(old(self).balanced(id));
            assert(old(self).node_ok(id));
        }
        let ghost old_cells = self.cells@;
        let mut slot: Option<Node> = None;
        self.cells.set_and_swap(id, &mut slot);
        let n = slot.unwrap();
        acct.used = acct.used.saturating_sub(n.bytes as u64);
        self.free.push(id);
        let kids = n.children;
        let ghost base = old(self).ext@.remove(id);
        proof {
            self.ext@ = add_all(base, kids@);
            assert(self.cells@ =~= old_cells.update(id as int, None));
            lemma_freed_one(old_cells, id as int);
            lemma_held_update(old_cells, id as int, None, 0);
            assert forall|x: usize| #[trigger] held(self.cells@, x) + occurrences(kids@, x) == held(old_cells, x) by {
                lemma_held_update(old_cells, id as int, None, x);
            }
            assert forall|x: usize| #[trigger] self.ext@.count(x) == base.count(x) + occurrences(kids@, x) by {
                lemma_add_all(base, kids@, x);
            }
            assert forall|x: usize| #[trigger] self.balanced(x) by {
                assert(old(self).balanced(x));
                if occurrences(kids@, x) > 0 {
                    lemma_occurrences_bound(kids@, x);
                    let k = choose|k: int| 0 <= k < kids@.len() && kids@[k] == x;
                    assert(old(self).live(kids@[k]));
                    assert(x != id) by {
                        lemma_held_includes(old_cells, id as int, id);
                    }
                }
            }
            assert forall|x: usize| #[trigger] self.live(x) implies self.node_ok(x) by {
                assert(old(self).live(x));
                assert(old(self).node_ok(x));
                assert(old(self).node(x).weak != Some(id));
                let m = self.node(x);
                assert forall|k: int| 0 <= k < m.children@.len() implies #[trigger] self.live(m.children@[k]) by {
                    let y = m.children@[k];
                    lemma_occurrences_bound(m.children@, y);
                    assert(m.children@.contains(y));
                    lemma_held_includes(self.cells@, x as int, y);
                    assert(self.balanced(y));
                }
                if let Some(c) = m.drop_fn {
                    lemma_held_includes(self.cells@, x as int, c);
                    assert(self.balanced(c));
                }
            }
            assert forall|k: int| 0 <= k < self.free@.len() implies {
                let f = #[trigger] self.free@[k];
                f < self.cells@.len() && self.cells@[f as int] is None
            } by {
                if k < old(self).free@.len() {
                    assert(old(self).free@[k] == self.free@[k]);
                }
            }
            assert(self.free@.no_duplicates()) by {
                assert forall|a: int, b: int| 0 <= a < b < self.free@.len() implies self.free@[a] != self.free@[b] by {
                    if b == self.free@.len() - 1 {
                        assert(old(self).free@[a] == self.free@[a]);
                    } else {
                        assert(old(self).free@[a] == self.free@[a]);
                        assert(old(self).free@[b] == self.free@[b]);
                    }
                }
            }
        }
        let ghost snap = *self;
        let nk = kids.len();
        let mut k: usize = 0;
        while k < nk
            invariant
                nk == kids@.len(),
                k <= nk,
                self.wf(),
                self.cells@.len() == old(self).cells@.len(),
                live_count(self.cells@) < live_count(old(self).cells@),
                !self.live(id),
                forall|x: usize| #[trigger] self.ext@.count(x) == base.count(x) + occurrences(kids@, x)
                    - occurrences(kids@.take(k as int), x),
                forall|x: usize| occurrences(kids@.take(k as int), x) <= occurrences(kids@, x),
                forall|x: usize| #[trigger] self.live(x) ==> old(self).live(x)
                    && self.node(x).children == old(self).node(x).children
                    && self.node(x).bytes == old(self).node(x).bytes
                    && self.node(x).is_weak == old(self).node(x).is_weak
                    && (self.node(x).weak is None || self.node(x).weak == old(self).node(x).weak),
                self.pending@.len() >= old(self).pending@.len(),
                forall|j: int| 0 <= j < old(self).pending@.len() ==> #[trigger] self.pending@[j] == old(self).pending@[j],
                acct.used == refunded(old(acct).used, freed_bytes(old(self).cells@, self.cells@)),
                acct.peak == old(acct).peak,
                acct.limit == old(acct).limit,
            decreases nk - k,
        {
            let c = kids[k];
            let ghost e_before = self.ext@;
            let ghost pre = *self;
            let ghost pre_used = acct.used;
            proof {
                assert(kids@.take(k + 1).drop_last() =~= kids@.take(k as int));
                assert(kids@.take(k + 1).last() == c);
                lemma_prefix_occurrences(kids@, k + 1, c);
                assert(e_before.count(c) >= 1);
            }
            self.release(acct, c);
            k = k + 1;
            proof {
                assert forall|x: usize| #[trigger] pre.live(x) implies old(self).live(x) && pre.node(x).bytes
                    == old(self).node(x).bytes by {}
                self.lemma_refund_chain(*old(self), pre, old(acct).used, pre_used, acct.used);
                assert forall|x: usize| #[trigger] self.ext@.count(x) == base.count(x) + occurrences(kids@, x)
                    - occurrences(kids@.take(k as int), x) by {
                    assert(kids@.take(k as int).drop_last() =~= kids@.take(k - 1));
                    assert(self.ext@.count(x) == e_before.count(x) - if x == c { 1int } else { 0int });
                }
                assert forall|x: usize| occurrences(kids@.take(k as int), x) <= occurrences(kids@, x) by {
                    lemma_prefix_occurrences(kids@, k as int, x);
                }
            }
        }
        proof {
            assert(kids@.take(nk as int) =~= kids@);
            assert(self.ext@ =~= base);
        }
    }

    /// Registers `cleanup` to run when `obj` dies; the registration holds
    /// a reference to the cleanup closure. Refused on a nil cell or a nil
    /// cleanup, and on a cell that already has one (the extra reference is
    /// then given back).
    pub fn set_drop_fn(&mut self, acct: &mut HeapAcct, obj: Option<usize>, cleanup: Option<usize>) -> (r: Result<(), Trap>)
        requires
            old(self).wf(),
            obj matches Some(o) ==> old(self).live(o),
            cleanup matches Some(c) ==> old(self).ext@.count(c) >= 1,
        ensures
            final(self).wf(),
            final(self).ext@ == old(self).ext@,
            *final(acct) == *old(acct),
            final(self).pending@ == old(self).pending@,
            match (obj, cleanup) {
                (None, _) => {
                    &&& r matches Err(t) && t.kind == TrapKind::NilDeref && t.msg@ == "on_drop on nil"@
                    &&& final(self).cells@ == old(self).cells@
                },
                (Some(_), None) => {
                    &&& r matches Err(t) && t.kind == TrapKind::Invalid && t.msg@ == "on_drop: nil cleanup"@
                    &&& final(self).cells@ == old(self).cells@
                },
                (Some(o), Some(c)) => if old(self).node(o).drop_fn is Some {
                    r matches Err(t) && t.kind == TrapKind::Invalid
                        && t.msg@ == "on_drop already attached to this pointer"@
                } else {
                    &&& r is Ok
                    &&& final(self).live(o)
                    &&& final(self).node(o).drop_fn == Some(c)
                },
            },
    {
        let o = match obj {
            None => {
                return Err(Trap::new(TrapKind::NilDeref, "on_drop on nil".to_owned()));
            },
            Some(o) => o,
        };
        let c = match cleanup {
            None => {
                return Err(Trap::new(TrapKind::Invalid, "on_drop: nil cleanup".to_owned()));
            },
            Some(c) => c,
        };
        proof {
            assert(old(self).balanced(c));
        }
        self.retain(c);
        if self.drop_fn_of(o).is_some() {
            self.release(acct, c);
            return Err(Trap::new(TrapKind::Invalid, "on_drop already attached to this pointer".to_owned()));
        }
        let ghost mid = *self;
        let mut slot: Option<Node> = None;
        self.cells.set_and_swap(o, &mut slot);
        let mut n = slot.unwrap();
        n.drop_fn = Some(c);
        self.cells.set(o, Some(n));
        proof {
            self.ext@ = self.ext@.remove(c);
            assert(self.cells@ =~= mid.cells@.update(o as int, self.cells@[o as int]));
            assert forall|x: usize| #[trigger] held(self.cells@, x) == held(mid.cells@, x) + if x == c { 1nat } else { 0nat } by {
                lemma_held_update(mid.cells@, o as int, self.cells@[o as int], x);
            }
            assert forall|x: usize| #[trigger] self.balanced(x) by {
                assert(mid.balanced(x));
            }
            assert forall|x: usize| #[trigger] self.live(x) implies mid.live(x) && self.node(x).refs >= 1 by {
                assert(mid.live(x));
                assert(mid.node_ok(x));
            }
            self.lemma_keeps_soundness(mid);
        }
        Ok(())
    }

    /// The cleanup registered on a live cell.
    pub fn drop_fn_of(&self, id: usize) -> (d: Option<usize>)
        requires
            self.live(id),
        ensures
            d == self.node(id).drop_fn,
    {
        match &self.cells[id] {
            Some(n) => n.drop_fn,
            None => None,
        }
    }

    /// Takes the next pinned cell off the drop queue with its cleanup
    /// closure: both references pass to the caller, who runs the cleanup
    /// and then releases the two.
    pub fn take_pending(&mut self) -> (r: Option<(usize, usize)>)
        requires
            old(self).wf(),
        ensures
            final(self).wf(),
            final(self).cells@ == old(self).cells@,
            old(self).pending@.len() == 0 ==> r is None && final(self).pending@ == old(self).pending@
                && final(self).ext@ == old(self).ext@,
            old(self).pending@.len() > 0 ==> r == Some(old(self).pending@.last())
                && final(self).pending@ == old(self).pending@.drop_last()
                && final(self).ext@ == old(self).ext@.insert(r->Some_0.0).insert(r->Some_0.1),
    {
        let r = self.pending.pop();
        proof {
            if let Some((p, c)) = r {
                self.ext@ = self.ext@.insert(p).insert(c);
                assert(old(self).pending@.drop_last() =~= self.pending@);
                assert forall|x: usize| #[trigger] self.balanced(x) by {
                    assert(old(self).balanced(x));
                }
                assert forall|x: usize| #[trigger] self.live(x) implies old(self).live(x) && self.node(x).refs >= 1 by {
                    assert(old(self).live(x));
                    assert(old(self).node_ok(x));
                }
                self.lemma_keeps_soundness(*old(self));
            } else {
                assert(self.pending@ =~= old(self).pending@);
                assert forall|x: usize| #[trigger] self.balanced(x) by {
                    assert(old(self).balanced(x));
                }
                assert forall|x: usize| #[trigger] self.live(x) implies old(self).live(x) && self.node(x).refs >= 1 by {
                    assert(old(self).live(x));
                    assert(old(self).node_ok(x));
                }
                self.lemma_keeps_soundness(*old(self));
            }
        }
        r
    }
}

/// No reference dangles: in a sound arena every reference — a live
/// cell's field or cleanup, a queued pin, or one held from outside —
/// names a live cell, and every live mortal cell's count is exactly the
/// number of references held on it.
pub proof fn law_no_reference_dangles(a: CellArena, x: usize)
    requires
        a.wf(),
    ensures
        a.ext@.count(x) > 0 ==> a.live(x),
        queued(a.pending@, x) > 0 ==> a.live(x),
        a.live(x) ==> forall|k: int| 0 <= k < a.node(x).children@.len() ==> #[trigger] a.live(a.node(x).children@[k]),
        a.live(x) && a.node(x).drop_fn is Some ==> a.live(a.node(x).drop_fn->Some_0),
        a.live(x) && a.node(x).refs != u32::MAX ==> a.node(x).refs == held(a.cells@, x) + a.ext@.count(x) + queued(
            a.pending@,
            x,
        ),
{
    assert(a.balanced(x));
    if a.live(x) {
        assert(a.node_ok(x));
    }
}

/// A release undoes a retain: taking one more reference to a mortal cell
/// and giving it back leaves the arena's cells as they were.
pub proof fn law_release_undoes_retain(a: CellArena, b: CellArena, c: CellArena, id: usize)
    requires
        a.wf(),
        a.live(id),
        a.node(id).refs < u32::MAX - 1,
        b.cells@ == a.cells@.update(id as int, Some(Node { refs: (a.node(id).refs + 1) as u32, ..a.node(id) })),
        c.cells@ == b.cells@.update(
            id as int,
            Some(Node { refs: (b.cells@[id as int]->Some_0.refs - 1) as u32, ..b.cells@[id as int]->Some_0 }),
        ),
    ensures
        c.cells@ == a.cells@,
{
    assert(c.cells@ =~= a.cells@);
}

/// A weak box never outlives its referent: once the last reference to a
/// cell is released, every weak box that observed it upgrades to nil.
pub proof fn law_a_weak_box_reads_nil_after_its_referent_dies(
    a: CellArena,
    b: CellArena,
    id: usize,
    w: usize,
    r: Result<Option<usize>, Trap>,
)
    requires
        a.wf(),
        a.live(w),
        a.node(w).is_weak,
        a.node(w).weak == Some(id),
        b.live(w),
        b.node(w).is_weak == a.node(w).is_weak,
        b.node(w).weak is None || b.node(w).weak == a.node(w).weak,
        forall|x: usize| #[trigger] b.live(x) ==> b.node(x).weak != Some(id),
        upgrade_outcome(b, Some(w), r),
    ensures
        r == Ok::<Option<usize>, Trap>(None),
{
    assert(b.live(w));
}

} // verus!
