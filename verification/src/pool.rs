//! The host payload pool: a size-classed free list for the erased
//! payload blocks behind host boxes. A death parks its block under its
//! exact `(size, align)` class; a mint of the same class pops it again.
//! The pool is bounded: parking past the high-water mark first evicts
//! parked blocks, which the caller deallocates.
use vstd::prelude::*;
use vstd::multiset::Multiset;

verus! {

/// Payloads wider than this many bytes bypass the pool.
pub const POOL_MAX: usize = 256;
/// Parked blocks retained before trimming.
pub const HIGH_WATER: usize = 512;

/// A block's allocation class: its payload's `(size, align)`.
pub type PoolKey = (usize, usize);

/// The blocks of class `k` among `s`, oldest first.
pub open spec fn class_of(s: Seq<(PoolKey, usize)>, k: PoolKey) -> Seq<usize>
    decreases s.len(),
{
    if s.len() == 0 {
        Seq::empty()
    } else if s.last().0 == k {
        class_of(s.drop_last(), k).push(s.last().1)
    } else {
        class_of(s.drop_last(), k)
    }
}

/// The parked blocks, by class: each class is a LIFO stack.
pub struct Pool {
    parked: Vec<(PoolKey, usize)>,
}

/// Whether a payload of `size` bytes rides the pool (zero-sized payloads
/// own no block; oversized ones are left to the allocator).
pub open spec fn pooled(size: nat) -> bool {
    0 < size <= POOL_MAX
}

proof fn lemma_class_remove_last_of(s: Seq<(PoolKey, usize)>, i: int)
    requires
        0 <= i < s.len(),
        forall|j: int| i < j < s.len() ==> s[j].0 != s[i].0,
    ensures
        class_of(s, s[i].0).len() > 0,
        class_of(s, s[i].0).last() == s[i].1,
        class_of(s.remove(i), s[i].0) == class_of(s, s[i].0).drop_last(),
        forall|k: PoolKey| k != s[i].0 ==> #[trigger] class_of(s.remove(i), k) == class_of(s, k),
    decreases s.len(),
{
    let t = s.remove(i);
    if i == s.len() - 1 {
        assert(t =~= s.drop_last());
    } else {
        let s1 = s.drop_last();
        assert(forall|j: int| i < j < s1.len() ==> s1[j].0 != s1[i].0);
        lemma_class_remove_last_of(s1, i);
        assert(t.drop_last() =~= s1.remove(i));
        assert(t.last() == s.last());
        assert forall|k: PoolKey| k != s[i].0 implies #[trigger] class_of(t, k) == class_of(s, k) by {
            assert(class_of(s1.remove(i), k) == class_of(s1, k));
        }
    }
}

proof fn lemma_class_len(s: Seq<(PoolKey, usize)>, k: PoolKey)
    ensures
        class_of(s, k).len() <= s.len(),
        class_of(s, k).len() == 0 <==> forall|j: int| 0 <= j < s.len() ==> s[j].0 != k,
    decreases s.len(),
{
    if s.len() > 0 {
        lemma_class_len(s.drop_last(), k);
        let t = s.drop_last();
        if class_of(s, k).len() == 0 {
            assert forall|j: int| 0 <= j < s.len() implies s[j].0 != k by {
                if j < t.len() {
                    assert(t[j] == s[j]);
                }
            }
        }
    }
}

/// What `take` answers and does: the most recently parked block of the
/// class leaves the pool, or `None` when the class is empty.
pub open spec fn take_outcome(old: Pool, new: Pool, key: PoolKey, r: Option<usize>) -> bool {
    match r {
        Some(b) => {
            &&& old.class(key).len() > 0
            &&& b == old.class(key).last()
            &&& new.class(key) == old.class(key).drop_last()
            &&& forall|k: PoolKey| k != key ==> #[trigger] new.class(k) == old.class(k)
            &&& old.items().count((key, b)) > 0
            &&& new.items() == old.items().remove((key, b))
            &&& new.count() == old.count() - 1
        },
        None => old.class(key).len() == 0 && new.unchanged_from(old),
    }
}

/// What `park` does: the block joins its class on top, after evicting
/// just enough parked blocks to stay under the mark; every evicted block
/// was parked before, and nothing else leaves.
pub open spec fn park_outcome(old: Pool, new: Pool, key: PoolKey, raw: usize, evicted: Seq<(PoolKey, usize)>) -> bool {
    &&& new.count() == (if old.count() >= HIGH_WATER { (HIGH_WATER - 1) as nat } else { old.count() }) + 1
    &&& evicted.len() + new.count() == old.count() + 1
    &&& new.items().add(evicted.to_multiset()) == old.items().insert((key, raw))
    &&& new.class(key).len() > 0
    &&& new.class(key).last() == raw
}

impl Pool {
    /// The blocks parked under class `k`, oldest first.
    pub closed spec fn class(&self, k: PoolKey) -> Seq<usize> {
        class_of(self.parked@, k)
    }

    /// Every parked block with its class, counted with multiplicity.
    pub closed spec fn items(&self) -> Multiset<(PoolKey, usize)> {
        self.parked@.to_multiset()
    }

    /// The number of parked blocks.
    pub closed spec fn count(&self) -> nat {
        self.parked@.len()
    }

    /// Nothing parked differs from `other`.
    pub open spec fn unchanged_from(&self, other: Pool) -> bool {
        &&& self.items() == other.items()
        &&& self.count() == other.count()
        &&& forall|k: PoolKey| #[trigger] self.class(k) == other.class(k)
    }

    /// The pool respects its high-water mark.
    pub closed spec fn wf(&self) -> bool {
        self.parked@.len() <= HIGH_WATER
    }

    /// An empty pool.
    pub fn new() -> (p: Pool)
        ensures
            p.wf(),
            p.count() == 0,
            p.items() == Multiset::<(PoolKey, usize)>::empty(),
            forall|k: PoolKey| #[trigger] p.class(k) == Seq::<usize>::empty(),
    {
        let p = Pool { parked: Vec::new() };
        proof {
            broadcast use vstd::seq_lib::group_to_multiset_ensures;
            assert(p.parked@.to_multiset().len() == 0);
            assert(p.parked@.to_multiset() =~= Multiset::empty());
        }
        p
    }

    /// The parked-block count.
    pub fn parked(&self) -> (n: usize)
        ensures
            n == self.count(),
            n == self.items().len(),
    {
        proof {
            broadcast use vstd::seq_lib::group_to_multiset_ensures;
        }
        self.parked.len()
    }

    /// Pops the most recently parked block of class `(sz, al)`, if any.
    pub fn take(&mut self, sz: usize, al: usize) -> (r: Option<usize>)
        requires
            old(self).wf(),
        ensures
            final(self).wf(),
            take_outcome(*old(self), *final(self), (sz, al), r),
    {
        let key = (sz, al);
        let mut i = self.parked.len();
        while i > 0
            invariant
                self.parked@ == old(self).parked@,
                self.wf(),
                key == (sz, al),
                i <= self.parked@.len(),
                forall|j: int| i <= j < self.parked@.len() ==> self.parked@[j].0 != key,
            decreases i,
        {
            let k = self.parked[i - 1].0;
            if k.0 == sz && k.1 == al {
                let ghost s = self.parked@;
                let e = self.parked.remove(i - 1);
                proof {
                    lemma_class_remove_last_of(s, i - 1);
                    broadcast use vstd::seq_lib::group_to_multiset_ensures;
                    assert(s.contains(s[i - 1]));
                }
                return Some(e.1);
            }
            i -= 1;
        }
        proof {
            lemma_class_len(self.parked@, key);
        }
        None
    }

    /// Pulls a parked block out of whichever class has one: the most
    /// recently parked block overall, which is the last of its class.
    pub fn any_parked(&mut self) -> (r: Option<(PoolKey, usize)>)
        requires
            old(self).wf(),
        ensures
            final(self).wf(),
            match r {
                Some((k, b)) => {
                    &&& old(self).class(k).len() > 0
                    &&& b == old(self).class(k).last()
                    &&& final(self).class(k) == old(self).class(k).drop_last()
                    &&& forall|k2: PoolKey| k2 != k ==> #[trigger] final(self).class(k2) == old(self).class(k2)
                    &&& old(self).items().count((k, b)) > 0
                    &&& final(self).items() == old(self).items().remove((k, b))
                    &&& final(self).count() == old(self).count() - 1
                },
                None => old(self).count() == 0 && final(self).unchanged_from(*old(self)),
            },
    {
        let n = self.parked.len();
        if n == 0 {
            return None;
        }
        let ghost s = self.parked@;
        let e = self.parked.remove(n - 1);
        proof {
            lemma_class_remove_last_of(s, n - 1);
            broadcast use vstd::seq_lib::group_to_multiset_ensures;
            assert(s.contains(s[n - 1]));
        }
        Some(e)
    }

    /// Parks a block of class `(sz, al)`. When the pool is at its mark,
    /// parked blocks are evicted first (from whichever classes hold them)
    /// and handed back for the caller to deallocate; the pool never holds
    /// more than `HIGH_WATER` blocks, and no block is lost or duplicated.
    pub fn park(&mut self, sz: usize, al: usize, raw: usize) -> (evicted: Vec<(PoolKey, usize)>)
        requires
            old(self).wf(),
        ensures
            final(self).wf(),
            park_outcome(*old(self), *final(self), (sz, al), raw, evicted@),
    {
        let mut evicted: Vec<(PoolKey, usize)> = Vec::new();
        let ghost start = self.items();
        proof {
            broadcast use vstd::seq_lib::group_to_multiset_ensures;
            assert(evicted@.to_multiset() =~= Multiset::empty());
            assert(self.items().add(evicted@.to_multiset()) =~= start);
        }
        while self.parked.len() >= HIGH_WATER
            invariant
                self.wf(),
                self.items().add(evicted@.to_multiset()) == start,
                evicted@.len() + self.count() == old(self).count(),
                old(self).count() >= HIGH_WATER ==> self.count() >= HIGH_WATER - 1,
                old(self).count() < HIGH_WATER ==> self.count() == old(self).count(),
            decreases self.parked@.len(),
        {
            match self.any_parked() {
                Some(e) => {
                    let ghost ev = evicted@;
                    evicted.push(e);
                    proof {
                        broadcast use vstd::seq_lib::group_to_multiset_ensures;
                        broadcast use vstd::multiset::group_multiset_axioms;
                        assert(evicted@ =~= ev.push(e));
                        assert(self.items().add(evicted@.to_multiset()) =~= start);
                    }
                },
                None => {
                },
            }
        }
        let ghost s = self.parked@;
        self.parked.push(((sz, al), raw));
        proof {
            broadcast use vstd::seq_lib::group_to_multiset_ensures;
            broadcast use vstd::multiset::group_multiset_axioms;
            assert(self.parked@.drop_last() =~= s);
            assert(self.items().add(evicted@.to_multiset()) =~= start.insert(((sz, al), raw)));
        }
        evicted
    }
}

/// What a payload's death does with its block.
#[derive(Clone, Copy, Debug, PartialEq, Eq, Structural)]
pub enum RetireAction {
    /// a zero-sized payload owns no block
    Nothing,
    /// an oversized block goes straight back to the allocator
    Dealloc,
    /// a poolable block is parked for the next mint of its class
    Park,
}

/// Whether a mint of a `size`-byte payload tries the pool first.
pub fn mint_tries_pool(size: usize) -> (b: bool)
    ensures
        b == pooled(size as nat),
{
    size != 0 && size <= POOL_MAX
}

/// What the death of a `size`-byte payload does with its block, after its
/// destructor has run in place.
pub fn retire_action(size: usize) -> (a: RetireAction)
    ensures
        a == (if pooled(size as nat) {
            RetireAction::Park
        } else if size == 0 {
            RetireAction::Nothing
        } else {
            RetireAction::Dealloc
        }),
{
    if size == 0 {
        RetireAction::Nothing
    } else if size > POOL_MAX {
        RetireAction::Dealloc
    } else {
        RetireAction::Park
    }
}

/// A death parks its block and the next mint of the same class gets
/// that very block back.
pub proof fn law_park_then_take_reuses_the_block(
    p0: Pool,
    p1: Pool,
    p2: Pool,
    key: PoolKey,
    raw: usize,
    evicted: Seq<(PoolKey, usize)>,
    r: Option<usize>,
)
    requires
        park_outcome(p0, p1, key, raw, evicted),
        take_outcome(p1, p2, key, r),
    ensures
        r == Some(raw),
{
}

/// Trimming caps the pool: whatever was parked, a park leaves at most
/// `HIGH_WATER` blocks, and evicts nothing while under the mark.
pub proof fn law_park_respects_the_mark(
    p0: Pool,
    p1: Pool,
    key: PoolKey,
    raw: usize,
    evicted: Seq<(PoolKey, usize)>,
)
    requires
        park_outcome(p0, p1, key, raw, evicted),
    ensures
        p1.count() <= HIGH_WATER,
        p0.count() < HIGH_WATER ==> evicted.len() == 0,
{
}

} // verus!
