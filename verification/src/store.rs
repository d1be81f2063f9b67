//! The opaque store: a slab of entries for host-held values. Each entry
//! carries its reference count, its borrow guard, and the bytes charged
//! when it was minted; a dead entry's slot returns to the free list. The
//! store keeps counters whose balance is checked at teardown: every entry
//! minted dies exactly once, and the charge outstanding is exactly the
//! live entries' own.
use vstd::prelude::*;
use crate::trap::{Trap, TrapKind};

verus! {

/// The borrow-guard value of an entry under one exclusive borrow (any
/// smaller value counts shared borrows).
pub const BORROW_MUT: u32 = 0xffff_ffff;

/// A live entry's bookkeeping.
#[derive(Clone, Copy, Debug, PartialEq, Eq, Structural)]
pub struct EntryMeta {
    /// references held on the entry
    pub refs: u32,
    /// 0: free; `BORROW_MUT`: one exclusive borrow; else shared borrows
    pub borrows: u32,
    /// the charge refunded at death
    pub bytes: u32,
}

/// The bytes the live entries carry.
pub open spec fn live_bytes(s: Seq<Option<EntryMeta>>) -> nat
    decreases s.len(),
{
    if s.len() == 0 {
        0
    } else {
        live_bytes(s.drop_last()) + match s.last() {
            Some(e) => e.bytes as nat,
            None => 0,
        }
    }
}

/// The number of live entries.
pub open spec fn live_count(s: Seq<Option<EntryMeta>>) -> nat
    decreases s.len(),
{
    if s.len() == 0 {
        0
    } else {
        live_count(s.drop_last()) + if s.last() is Some {
            1nat
        } else {
            0
        }
    }
}

proof fn lemma_update_counts(s: Seq<Option<EntryMeta>>, i: int, v: Option<EntryMeta>)
    requires
        0 <= i < s.len(),
    ensures
        live_count(s.update(i, v)) + (if s[i] is Some { 1nat } else { 0 }) == live_count(s) + (if v is Some {
            1nat
        } else {
            0
        }),
        live_bytes(s.update(i, v)) + (match s[i] {
            Some(e) => e.bytes as nat,
            None => 0,
        }) == live_bytes(s) + (match v {
            Some(e) => e.bytes as nat,
            None => 0,
        }),
    decreases s.len(),
{
    let t = s.update(i, v);
    if i < s.len() - 1 {
        lemma_update_counts(s.drop_last(), i, v);
        assert(t.drop_last() =~= s.drop_last().update(i, v));
    } else {
        assert(t.drop_last() =~= s.drop_last());
    }
}

proof fn lemma_push_counts(s: Seq<Option<EntryMeta>>, v: Option<EntryMeta>)
    ensures
        live_count(s.push(v)) == live_count(s) + (if v is Some { 1nat } else { 0 }),
        live_bytes(s.push(v)) == live_bytes(s) + (match v {
            Some(e) => e.bytes as nat,
            None => 0,
        }),
{
    assert(s.push(v).drop_last() =~= s);
}

proof fn lemma_counts_bounded(s: Seq<Option<EntryMeta>>)
    ensures
        live_count(s) <= s.len(),
    decreases s.len(),
{
    if s.len() > 0 {
        lemma_counts_bounded(s.drop_last());
    }
}

/// The opaque store.
pub struct Store {
    entries: Vec<Option<EntryMeta>>,
    free: Vec<usize>,
    live: usize,
    charged: u64,
    inserts: u64,
    deaths: u64,
    /// what the charges exceeded the entries' recorded bytes by
    excess: Ghost<nat>,
}

impl Store {
    /// The entries by slot: `Some` while live.
    pub closed spec fn slots(&self) -> Seq<Option<EntryMeta>> {
        self.entries@
    }

    /// Entries minted so far.
    pub closed spec fn minted(&self) -> nat {
        self.inserts as nat
    }

    /// Entries that have died.
    pub closed spec fn died(&self) -> nat {
        self.deaths as nat
    }

    /// The charge counter.
    pub closed spec fn charge(&self) -> nat {
        self.charged as nat
    }

    /// What the charges exceeded the recorded (32-bit) entry bytes by.
    pub closed spec fn overcharge(&self) -> nat {
        self.excess@
    }

    /// Whether slot `h` holds a live entry.
    pub open spec fn is_live(&self, h: int) -> bool {
        0 <= h < self.slots().len() && self.slots()[h] is Some
    }

    /// The free list holds exactly the dead slots, each once; the counters
    /// agree with the entries.
    pub closed spec fn wf(&self) -> bool {
        &&& forall|k: int|
            0 <= k < self.free@.len() ==> (#[trigger] self.free@[k]) < self.entries@.len() && self.entries@[self.free@[k] as int] is None
        &&& forall|k1: int, k2: int|
            0 <= k1 < k2 < self.free@.len() ==> #[trigger] self.free@[k1] != #[trigger] self.free@[k2]
        &&& forall|h: int|
            0 <= h < self.entries@.len() && (#[trigger] self.entries@[h]) is None ==> self.free@.contains(h as usize)
        &&& self.live == live_count(self.entries@)
        &&& self.inserts == self.deaths + self.live
        &&& self.charged == live_bytes(self.entries@) + self.excess@
    }

    /// An empty store.
    pub fn new() -> (s: Store)
        ensures
            s.wf(),
            s.slots() == Seq::<Option<EntryMeta>>::empty(),
            s.minted() == 0,
            s.died() == 0,
            s.charge() == 0,
            s.overcharge() == 0,
    {
        Store {
            entries: Vec::new(),
            free: Vec::new(),
            live: 0,
            charged: 0,
            inserts: 0,
            deaths: 0,
            excess: Ghost(0),
        }
    }

    /// The live entry count.
    pub fn live(&self) -> (n: usize)
        requires
            self.wf(),
        ensures
            n == live_count(self.slots()),
    {
        self.live
    }

    /// Mints an entry holding one reference and charged `bytes` (the entry
    /// records the charge capped at 32 bits): a freed slot is reused first,
    /// the most recently freed one.
    pub fn insert(&mut self, bytes: u64) -> (h: usize)
        requires
            old(self).wf(),
            old(self).charge() + bytes <= u64::MAX,
            old(self).minted() < u64::MAX,
        ensures
            final(self).wf(),
            !old(self).is_live(h as int),
            final(self).slots() == (if h < old(self).slots().len() {
                old(self).slots().update(h as int, Some(fresh_entry(bytes)))
            } else {
                old(self).slots().push(Some(fresh_entry(bytes)))
            }),
            h <= old(self).slots().len(),
            final(self).minted() == old(self).minted() + 1,
            final(self).died() == old(self).died(),
            final(self).charge() == old(self).charge() + bytes,
            final(self).overcharge() == old(self).overcharge() + (bytes - fresh_entry(bytes).bytes),
    {
        let e = EntryMeta { refs: 1, borrows: 0, bytes: if bytes > 0xffff_ffffu64 { 0xffff_ffffu32 } else { bytes as u32 } };
        let ghost s0 = self.entries@;
        let h = match self.free.pop() {
            Some(p) => {
                proof {
                    lemma_update_counts(s0, p as int, Some(e));
                }
                self.entries.set(p, Some(e));
                let n_e = self.entries.len();
                proof {
                    assert(self.entries@.len() == n_e);
                    assert forall|k: int| 0 <= k < self.free@.len() implies (#[trigger] self.free@[k]) < self.entries@.len()
                        && self.entries@[self.free@[k] as int] is None by {
                        assert(old(self).free@[k] == self.free@[k]);
                        assert(old(self).free@[k] != old(self).free@[old(self).free@.len() - 1]);
                    }
                    assert forall|q: int| 0 <= q < self.entries@.len() && (#[trigger] self.entries@[q]) is None implies self.free@.contains(q as usize) by {
                        assert(q != p);
                        assert(p == old(self).free@[old(self).free@.len() - 1]);
                        assert(old(self).free@.contains(q as usize));
                        let k = choose|k: int| 0 <= k < old(self).free@.len() && old(self).free@[k] == q as usize;
                        assert(k != old(self).free@.len() - 1);
                        assert(self.free@[k] == q as usize);
                    }
                }
                p
            },
            None => {
                proof {
                    lemma_push_counts(s0, Some(e));
                    lemma_counts_bounded(s0);
                }
                self.entries.push(Some(e));
                proof {
                    assert forall|q: int| 0 <= q < self.entries@.len() && (#[trigger] self.entries@[q]) is None implies self.free@.contains(q as usize) by {
                        assert(q < s0.len());
                        assert(s0[q] is None);
                    }
                }
                self.entries.len() - 1
            },
        };
        proof {
            lemma_counts_bounded(self.entries@);
        }
        self.live = self.live + 1;
        self.charged = self.charged + bytes;
        self.inserts = self.inserts + 1;
        proof {
            self.excess@ = (self.excess@ + (bytes - e.bytes)) as nat;
        }
        h
    }

    /// Death bookkeeping for slot `h`, whose payload the caller has taken:
    /// the slot returns to the free list and the entry's recorded charge
    /// leaves the charge counter.
    pub fn note_death(&mut self, h: usize) -> (bytes: u32)
        requires
            old(self).wf(),
            old(self).is_live(h as int),
            old(self).died() < u64::MAX,
        ensures
            final(self).wf(),
            bytes == old(self).slots()[h as int]->0.bytes,
            final(self).slots() == old(self).slots().update(h as int, None),
            final(self).minted() == old(self).minted(),
            final(self).died() == old(self).died() + 1,
            final(self).charge() == old(self).charge() - bytes,
            final(self).overcharge() == old(self).overcharge(),
    {
        let e = self.entries[h].unwrap();
        let ghost s0 = self.entries@;
        proof {
            lemma_update_counts(s0, h as int, None);
        }
        self.entries.set(h, None);
        self.free.push(h);
        proof {
            assert forall|k: int| 0 <= k < self.free@.len() implies (#[trigger] self.free@[k]) < self.entries@.len()
                && self.entries@[self.free@[k] as int] is None by {
                if k < old(self).free@.len() {
                    assert(self.free@[k] == old(self).free@[k]);
                }
            }
            assert forall|k1: int, k2: int| 0 <= k1 < k2 < self.free@.len() implies #[trigger] self.free@[k1]
                != #[trigger] self.free@[k2] by {
                if k2 == self.free@.len() - 1 {
                    assert(old(self).entries@[old(self).free@[k1] as int] is None);
                }
            }
            assert forall|q: int| 0 <= q < self.entries@.len() && (#[trigger] self.entries@[q]) is None implies self.free@.contains(q as usize) by {
                if q == h {
                    assert(self.free@[self.free@.len() - 1] == h);
                } else {
                    let k = choose|k: int| 0 <= k < old(self).free@.len() && old(self).free@[k] == q as usize;
                    assert(self.free@[k] == q as usize);
                }
            }
        }
        self.live = self.live - 1;
        self.charged = self.charged - e.bytes as u64;
        self.deaths = self.deaths + 1;
        e.bytes
    }

    /// Takes one more reference on a live entry.
    pub fn retain(&mut self, h: usize)
        requires
            old(self).wf(),
            old(self).is_live(h as int),
            old(self).slots()[h as int]->0.refs < u32::MAX,
        ensures
            final(self).wf(),
            final(self).slots() == old(self).slots().update(
                h as int,
                Some(EntryMeta { refs: (old(self).slots()[h as int]->0.refs + 1) as u32, ..old(self).slots()[h as int]->0 }),
            ),
            final(self).minted() == old(self).minted(),
            final(self).died() == old(self).died(),
            final(self).charge() == old(self).charge(),
            final(self).overcharge() == old(self).overcharge(),
    {
        let e = self.entries[h].unwrap();
        let ne = EntryMeta { refs: e.refs + 1, ..e };
        self.replace_meta(h, ne);
    }

    /// Drops one reference; the last one kills the entry, and its recorded
    /// charge is answered for the refund.
    pub fn release(&mut self, h: usize) -> (refund: Option<u32>)
        requires
            old(self).wf(),
            old(self).is_live(h as int),
            old(self).slots()[h as int]->0.refs > 0,
            old(self).died() < u64::MAX,
        ensures
            final(self).wf(),
            final(self).minted() == old(self).minted(),
            final(self).overcharge() == old(self).overcharge(),
            old(self).slots()[h as int]->0.refs == 1 ==> {
                &&& refund == Some(old(self).slots()[h as int]->0.bytes)
                &&& final(self).slots() == old(self).slots().update(h as int, None)
                &&& final(self).died() == old(self).died() + 1
                &&& final(self).charge() == old(self).charge() - old(self).slots()[h as int]->0.bytes
            },
            old(self).slots()[h as int]->0.refs > 1 ==> {
                &&& refund is None
                &&& final(self).slots() == old(self).slots().update(
                    h as int,
                    Some(EntryMeta { refs: (old(self).slots()[h as int]->0.refs - 1) as u32, ..old(self).slots()[h as int]->0 }),
                )
                &&& final(self).died() == old(self).died()
                &&& final(self).charge() == old(self).charge()
            },
    {
        let e = self.entries[h].unwrap();
        if e.refs == 1 {
            let b = self.note_death(h);
            return Some(b);
        }
        let ne = EntryMeta { refs: e.refs - 1, ..e };
        self.replace_meta(h, ne);
        None
    }

    fn replace_meta(&mut self, h: usize, ne: EntryMeta)
        requires
            old(self).wf(),
            old(self).is_live(h as int),
            ne.bytes == old(self).slots()[h as int]->0.bytes,
        ensures
            final(self).wf(),
            final(self).slots() == old(self).slots().update(h as int, Some(ne)),
            final(self).minted() == old(self).minted(),
            final(self).died() == old(self).died(),
            final(self).charge() == old(self).charge(),
            final(self).overcharge() == old(self).overcharge(),
    {
        let ghost s0 = self.entries@;
        proof {
            lemma_update_counts(s0, h as int, Some(ne));
        }
        self.entries.set(h, Some(ne));
        proof {
            assert forall|k: int| 0 <= k < self.free@.len() implies (#[trigger] self.free@[k]) < self.entries@.len()
                && self.entries@[self.free@[k] as int] is None by {
                assert(s0[self.free@[k] as int] is None);
            }
            assert forall|q: int| 0 <= q < self.entries@.len() && (#[trigger] self.entries@[q]) is None implies self.free@.contains(q as usize) by {
                assert(s0[q] is None);
            }
        }
    }

    /// Opens a shared borrow of a live entry's payload: refused while an
    /// exclusive borrow is out.
    pub fn borrow_shared(&mut self, h: usize) -> (r: Result<(), Trap>)
        requires
            old(self).wf(),
            old(self).is_live(h as int),
            old(self).slots()[h as int]->0.borrows < BORROW_MUT - 1 || old(self).slots()[h as int]->0.borrows == BORROW_MUT,
        ensures
            final(self).wf(),
            guard_outcome(*old(self), *final(self), h as int, shared_step(old(self).slots()[h as int]->0.borrows), r),
            r matches Err(t) ==> t.msg@ == "host box is `&mut`-borrowed by an outer host call"@,
    {
        let e = self.entries[h].unwrap();
        if e.borrows == BORROW_MUT {
            return Err(Trap::new(TrapKind::Invalid, "host box is `&mut`-borrowed by an outer host call".to_owned()));
        }
        self.replace_meta(h, EntryMeta { borrows: e.borrows + 1, ..e });
        Ok(())
    }

    /// Closes a shared borrow.
    pub fn end_shared(&mut self, h: usize)
        requires
            old(self).wf(),
            old(self).is_live(h as int),
            0 < old(self).slots()[h as int]->0.borrows < BORROW_MUT,
        ensures
            final(self).wf(),
            guard_outcome(*old(self), *final(self), h as int, Some((old(self).slots()[h as int]->0.borrows - 1) as u32), Ok(())),
    {
        let e = self.entries[h].unwrap();
        self.replace_meta(h, EntryMeta { borrows: e.borrows - 1, ..e });
    }

    /// Opens the exclusive borrow of a live entry's payload: refused while
    /// any borrow is out.
    pub fn borrow_exclusive(&mut self, h: usize) -> (r: Result<(), Trap>)
        requires
            old(self).wf(),
            old(self).is_live(h as int),
        ensures
            final(self).wf(),
            guard_outcome(*old(self), *final(self), h as int, exclusive_step(old(self).slots()[h as int]->0.borrows), r),
            r matches Err(t) ==> t.msg@ == "host box is borrowed by an outer host call"@,
    {
        let e = self.entries[h].unwrap();
        if e.borrows != 0 {
            return Err(Trap::new(TrapKind::Invalid, "host box is borrowed by an outer host call".to_owned()));
        }
        self.replace_meta(h, EntryMeta { borrows: BORROW_MUT, ..e });
        Ok(())
    }

    /// Closes the exclusive borrow.
    pub fn end_exclusive(&mut self, h: usize)
        requires
            old(self).wf(),
            old(self).is_live(h as int),
            old(self).slots()[h as int]->0.borrows == BORROW_MUT,
        ensures
            final(self).wf(),
            guard_outcome(*old(self), *final(self), h as int, Some(0u32), Ok(())),
    {
        let e = self.entries[h].unwrap();
        self.replace_meta(h, EntryMeta { borrows: 0, ..e });
    }

    /// Drops every entry still live and answers how many there were and
    /// the charges they carried; the counters are then cleared.
    pub fn teardown(&mut self) -> (r: (u64, u64))
        requires
            old(self).wf(),
        ensures
            r.0 == live_count(old(self).slots()),
            r.1 == live_bytes(old(self).slots()),
            old(self).minted() == old(self).died() + r.0,
            old(self).charge() == r.1 + old(self).overcharge(),
            final(self).charge() == 0,
            live_count(final(self).slots()) == 0,
    {
        let mut freed: u64 = 0;
        let mut refund: u64 = 0;
        let mut i: usize = 0;
        while i < self.entries.len()
            invariant
                self.wf(),
                self.entries@ == old(self).entries@,
                self.charged == old(self).charged,
                self.inserts == old(self).inserts,
                self.deaths == old(self).deaths,
                self.excess == old(self).excess,
                i <= self.entries@.len(),
                freed == live_count(self.entries@.subrange(0, i as int)),
                refund == live_bytes(self.entries@.subrange(0, i as int)),
            decreases self.entries@.len() - i,
        {
            let ghost pre = self.entries@.subrange(0, i as int);
            proof {
                assert(self.entries@.subrange(0, i + 1).drop_last() =~= pre);
                lemma_prefix_bounds(self.entries@, i as int + 1);
            }
            if let Some(e) = self.entries[i] {
                freed = freed + 1;
                refund = refund + e.bytes as u64;
            }
            i += 1;
        }
        proof {
            assert(self.entries@.subrange(0, i as int) =~= self.entries@);
        }
        let mut j: usize = 0;
        while j < self.entries.len()
            invariant
                j <= self.entries@.len(),
                self.entries@.len() == old(self).entries@.len(),
                forall|q: int| 0 <= q < j ==> self.entries@[q] is None,
            decreases self.entries@.len() - j,
        {
            self.entries.set(j, None);
            j += 1;
        }
        proof {
            lemma_all_dead(self.entries@);
        }
        self.free = Vec::new();
        self.charged = 0;
        self.live = 0;
        proof {
            self.excess@ = 0;
        }
        (freed, refund)
    }
}

proof fn lemma_prefix_bounds(s: Seq<Option<EntryMeta>>, n: int)
    requires
        0 <= n <= s.len(),
    ensures
        live_count(s.subrange(0, n)) <= live_count(s),
        live_bytes(s.subrange(0, n)) <= live_bytes(s),
    decreases s.len() - n,
{
    if n < s.len() {
        lemma_prefix_bounds(s, n + 1);
        assert(s.subrange(0, n + 1).drop_last() =~= s.subrange(0, n));
    } else {
        assert(s.subrange(0, n) =~= s);
    }
}

proof fn lemma_all_dead(s: Seq<Option<EntryMeta>>)
    requires
        forall|q: int| 0 <= q < s.len() ==> s[q] is None,
    ensures
        live_count(s) == 0,
        live_bytes(s) == 0,
    decreases s.len(),
{
    if s.len() > 0 {
        lemma_all_dead(s.drop_last());
    }
}

/// A freshly minted entry: one reference, no borrow, the charge capped at
/// 32 bits.
pub open spec fn fresh_entry(bytes: u64) -> EntryMeta {
    EntryMeta { refs: 1, borrows: 0, bytes: if bytes > 0xffff_ffffu64 { 0xffff_ffffu32 } else { bytes as u32 } }
}

/// The guard a shared borrow moves to, or `None` when it is refused.
pub open spec fn shared_step(g: u32) -> Option<u32> {
    if g == BORROW_MUT {
        None
    } else {
        Some((g + 1) as u32)
    }
}

/// The guard the exclusive borrow moves to, or `None` when it is refused.
pub open spec fn exclusive_step(g: u32) -> Option<u32> {
    if g != 0 {
        None
    } else {
        Some(BORROW_MUT)
    }
}

/// What a guard operation on entry `h` does: with a next guard value it
/// succeeds and sets it; without one it refuses with an `Invalid` trap
/// and changes nothing. Nothing but the guard ever changes.
pub open spec fn guard_outcome(old: Store, new: Store, h: int, next: Option<u32>, r: Result<(), Trap>) -> bool {
    &&& new.minted() == old.minted()
    &&& new.died() == old.died()
    &&& new.charge() == old.charge()
    &&& new.overcharge() == old.overcharge()
    &&& match next {
        Some(g) => r is Ok && new.slots() == old.slots().update(h, Some(EntryMeta { borrows: g, ..old.slots()[h]->0 })),
        None => r matches Err(t) && t.kind == TrapKind::Invalid && new.slots() == old.slots(),
    }
}

/// Every entry minted dies exactly once: the store's counters always
/// balance the live entries, and the charge outstanding is the live
/// entries' recorded bytes plus whatever exceeded a 32-bit record.
pub proof fn law_every_entry_dies_once(s: Store)
    requires
        s.wf(),
    ensures
        s.minted() == s.died() + live_count(s.slots()),
        s.charge() == live_bytes(s.slots()) + s.overcharge(),
{
}

/// A shared borrow under the exclusive one is refused, and so is an
/// exclusive borrow under any borrow; a shared borrow counts one more.
pub proof fn law_the_borrow_guard(g: u32)
    ensures
        shared_step(BORROW_MUT) is None,
        exclusive_step(BORROW_MUT) is None,
        g != 0 ==> exclusive_step(g) is None,
        exclusive_step(0) == Some(BORROW_MUT),
        g < BORROW_MUT - 1 ==> shared_step(g) == Some((g + 1) as u32),
{
}

} // verus!
