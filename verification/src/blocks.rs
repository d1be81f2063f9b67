//! The block store: variable-size payload memory for heap cells. Small
//! blocks are carved from pages by a bump pointer and recycled through
//! per-class free lists, with a one-block cache in front; large blocks are
//! dedicated allocations. Every block's capacity is its class value, so a
//! freed block goes back to the class it came from.
use vstd::prelude::*;

verus! {

/// Requests above this many bytes get a dedicated block.
pub const SMALL_MAX: usize = 2048;
/// The number of size classes.
pub const N_CLASSES: usize = 24;
/// Page size in 8-byte words: the carving granularity of small blocks.
pub const PAGE_WORDS: usize = 4096;
/// Header bytes in front of each payload.
pub const HDR: usize = 8;

/// The size classes in bytes: 16 to 128 in steps of 16, then four steps
/// per doubling up to 2048 (160, 192, 224, 256, 320, ..., 1792, 2048).
pub open spec fn class_at(i: int) -> int {
    if i < 8 {
        16 * (i + 1)
    } else if i < 12 {
        128 + 32 * (i - 7)
    } else if i < 16 {
        256 + 64 * (i - 11)
    } else if i < 20 {
        512 + 128 * (i - 15)
    } else {
        1024 + 256 * (i - 19)
    }
}

/// The first class from `i` on that holds `req` bytes (the last class when
/// none does).
pub open spec fn class_index_from(i: int, req: int) -> int
    decreases 23 - i,
{
    if i >= 23 || class_at(i) >= req {
        i
    } else {
        class_index_from(i + 1, req)
    }
}

/// The smallest class that holds `req` bytes.
pub open spec fn class_index(req: int) -> int {
    class_index_from(0, req)
}

/// `n` rounded up to a whole number of 8-byte words.
pub open spec fn round_up8(n: int) -> int {
    ((n + 7) / 8) * 8
}

/// The byte request behind an allocation of `len` bytes.
pub open spec fn request(len: int) -> int {
    round_up8(if len < 1 { 1 } else { len })
}

/// The capacity an allocation of `len` bytes gets: the class value for a
/// small request, the rounded request itself for a large one.
pub open spec fn alloc_cap(len: int) -> int {
    if request(len) > SMALL_MAX {
        request(len)
    } else {
        class_at(class_index(request(len)))
    }
}

/// Header and payload of a block of `cap` bytes, in whole words.
pub open spec fn block_words(cap: int) -> int {
    (cap + HDR + 7) / 8
}

proof fn lemma_classes_increase(i: int, j: int)
    requires
        0 <= i < j < N_CLASSES,
    ensures
        class_at(i) < class_at(j),
{
}

proof fn lemma_class_range(i: int)
    requires
        0 <= i < N_CLASSES,
    ensures
        class_at(i) % 8 == 0,
        16 <= class_at(i) <= SMALL_MAX,
{
}

proof fn lemma_class_index_from(i: int, req: int)
    requires
        0 <= i <= 23,
        req <= SMALL_MAX,
        forall|j: int| 0 <= j < i ==> class_at(j) < req,
    ensures
        i <= class_index_from(i, req) < N_CLASSES,
        class_at(class_index_from(i, req)) >= req,
        forall|j: int| 0 <= j < class_index_from(i, req) ==> class_at(j) < req,
    decreases 23 - i,
{
    if i < 23 && class_at(i) < req {
        lemma_class_index_from(i + 1, req);
    }
}

/// The smallest class holding a small request holds it, and no smaller
/// class does.
proof fn lemma_class_index(req: int)
    requires
        req <= SMALL_MAX,
    ensures
        0 <= class_index(req) < N_CLASSES,
        class_at(class_index(req)) >= req,
        forall|j: int| 0 <= j < class_index(req) ==> class_at(j) < req,
{
    lemma_class_index_from(0, req);
}

/// A class value is its own class.
proof fn lemma_class_of_class(i: int)
    requires
        0 <= i < N_CLASSES,
    ensures
        class_index(class_at(i)) == i,
{
    lemma_class_index(class_at(i));
    let c = class_index(class_at(i));
    if c < i {
        lemma_classes_increase(c, i);
    } else if c > i {
        assert(class_at(i) < class_at(i));
    }
}

/// An allocation gets at least what it asked for, and at most a word
/// more than it asked for or the largest class.
pub proof fn lemma_alloc_cap(len: int)
    requires
        0 <= len,
    ensures
        alloc_cap(len) >= len,
        alloc_cap(len) >= request(len) >= len,
        alloc_cap(len) <= (if len + 8 > SMALL_MAX { len + 8 } else { SMALL_MAX as int }),
{
    if request(len) <= SMALL_MAX {
        lemma_class_index(request(len));
        lemma_class_range(class_index(request(len)));
    }
}

/// Whether `cap` is one of the class values.
pub open spec fn is_class(cap: int) -> bool {
    &&& 0 < cap <= SMALL_MAX
    &&& class_at(class_index(cap)) == cap
}

/// A small block: its class capacity, where it was carved (page and word
/// offset of its header), and its payload octets.
struct Carved {
    cap: usize,
    page: usize,
    off: usize,
    data: Vec<u8>,
}

/// A block handle: the `k`-th carved small block, or the `k`-th dedicated
/// large block.
#[derive(Clone, Copy, Debug, PartialEq, Eq, Structural)]
pub enum Block {
    Small(usize),
    Large(usize),
}

/// The block store.
pub struct Blocks {
    /// pages carved so far
    pages: usize,
    /// word offset of the bump frontier in the last page; `PAGE_WORDS`
    /// means no room left
    bump: usize,
    /// every small block ever carved, in carving order
    carved: Vec<Carved>,
    /// per-class free lists of small blocks
    free: Vec<Vec<usize>>,
    /// dedicated large blocks; `None` once freed
    dedicated: Vec<Option<Vec<u8>>>,
    /// the one-block cache of the most recent small free: (block, class bytes)
    recent: Option<(usize, usize)>,
}

/// `b` is carved right after `a`: behind it on the same page, or at the
/// start of the next page.
spec fn placed_after(a: Carved, b: Carved) -> bool {
    ||| b.page == a.page && b.off == a.off + block_words(a.cap as int)
    ||| b.page == a.page + 1 && b.off == 0
}

spec fn carved_ok(c: Carved, k: int) -> bool {
    &&& is_class(c.cap as int)
    &&& c.data@.len() == c.cap
    &&& c.page <= k
    &&& c.off + block_words(c.cap as int) <= PAGE_WORDS
}

impl Blocks {
    /// Whether `b` names a block of this store that has not been returned
    /// to the allocator (a small block, once carved, always is).
    pub closed spec fn valid(&self, b: Block) -> bool {
        match b {
            Block::Small(k) => k < self.carved@.len(),
            Block::Large(k) => k < self.dedicated@.len() && self.dedicated@[k as int] is Some,
        }
    }

    /// The capacity recorded in a block's header.
    pub closed spec fn cap(&self, b: Block) -> nat {
        match b {
            Block::Small(k) => self.carved@[k as int].cap as nat,
            Block::Large(k) => match self.dedicated@[k as int] {
                Some(d) => d@.len(),
                None => 0,
            },
        }
    }

    /// A block's payload octets.
    pub closed spec fn payload(&self, b: Block) -> Seq<u8> {
        match b {
            Block::Small(k) => self.carved@[k as int].data@,
            Block::Large(k) => match self.dedicated@[k as int] {
                Some(d) => d@,
                None => Seq::empty(),
            },
        }
    }

    spec fn free_list(&self, cap: int) -> Seq<usize> {
        self.free@[class_index(cap)]@
    }

    /// Whether small block `k` sits in its class's free list.
    spec fn listed(&self, k: usize) -> bool {
        self.free_list(self.carved@[k as int].cap as int).contains(k)
    }

    /// Whether `b` is a freed small block waiting for reuse.
    pub closed spec fn spare(&self, b: Block) -> bool {
        match b {
            Block::Small(k) => k < self.carved@.len() && (self.recent == Some((k, self.carved@[k as int].cap))
                || self.listed(k)),
            Block::Large(_) => false,
        }
    }

    /// The block in the one-block cache.
    pub closed spec fn cached(&self) -> Option<Block> {
        match self.recent {
            Some(r) => Some(Block::Small(r.0)),
            None => None,
        }
    }

    /// Where small block `b` was carved: its page, the word offset of its
    /// header, and its length in words.
    pub closed spec fn placement(&self, b: Block) -> (nat, nat, nat) {
        match b {
            Block::Small(k) => {
                let c = self.carved@[k as int];
                (c.page as nat, c.off as nat, block_words(c.cap as int) as nat)
            },
            Block::Large(_) => (0, 0, 0),
        }
    }

    /// The block the next allocation of class value `need` takes: the
    /// cached block when it has that class, else the top of the class's
    /// free list; `None` when a fresh block must be carved.
    pub closed spec fn reuse(&self, need: int) -> Option<Block> {
        let top = if self.free_list(need).len() > 0 {
            Some(Block::Small(self.free_list(need).last()))
        } else {
            None
        };
        match self.recent {
            Some(r) => if r.1 == need {
                Some(Block::Small(r.0))
            } else {
                top
            },
            None => top,
        }
    }

    /// The store's invariant: free lists hold distinct blocks of their own
    /// class, the cache holds a block of its class that is not listed,
    /// carved blocks lie one after another within their pages, and large
    /// blocks are larger than every class.
    pub closed spec fn wf(&self) -> bool {
        &&& self.free@.len() == N_CLASSES
        &&& forall|c: int, j: int|
            #![trigger self.free@[c]@[j]]
            0 <= c < N_CLASSES && 0 <= j < self.free@[c]@.len() ==> {
                &&& self.free@[c]@[j] < self.carved@.len()
                &&& self.carved@[self.free@[c]@[j] as int].cap == class_at(c)
            }
        &&& forall|c: int, i: int, j: int|
            0 <= c < N_CLASSES && 0 <= i < j < self.free@[c]@.len() ==> #[trigger] self.free@[c]@[i]
                != #[trigger] self.free@[c]@[j]
        &&& match self.recent {
            Some(r) => {
                &&& r.0 < self.carved@.len()
                &&& self.carved@[r.0 as int].cap == r.1
                &&& !self.listed(r.0)
            },
            None => true,
        }
        &&& forall|k: int| 0 <= k < self.carved@.len() ==> carved_ok(#[trigger] self.carved@[k], k)
        &&& forall|k: int|
            0 <= k < self.carved@.len() - 1 ==> placed_after(#[trigger] self.carved@[k], self.carved@[k + 1])
        &&& self.carved@.len() == 0 ==> self.pages == 0 && self.bump == PAGE_WORDS
        &&& self.carved@.len() > 0 ==> {
            let last = self.carved@.last();
            &&& self.pages == last.page + 1
            &&& self.bump == last.off + block_words(last.cap as int)
        }
        &&& forall|k: int|
            0 <= k < self.dedicated@.len() && (#[trigger] self.dedicated@[k]) is Some
                ==> self.dedicated@[k]->0@.len() > SMALL_MAX
    }

    /// Block `x` is as it was in `old`: as valid, as spare, with the same
    /// capacity and payload.
    pub open spec fn keeps(&self, old: Blocks, x: Block) -> bool {
        &&& self.valid(x) == old.valid(x)
        &&& self.spare(x) == old.spare(x)
        &&& old.valid(x) ==> self.cap(x) == old.cap(x) && self.payload(x) == old.payload(x)
    }
}

/// What an allocation of `len` bytes answers: a block in use with the
/// capacity `alloc_cap(len)`, taken from the cache or the class's free list
/// when they hold one of its class (its octets as they were), else fresh
/// and zeroed; every other block is untouched.
pub open spec fn alloc_outcome(old: Blocks, new: Blocks, len: int, b: Block) -> bool {
    &&& new.valid(b)
    &&& !new.spare(b)
    &&& new.cap(b) == alloc_cap(len)
    &&& (if request(len) <= SMALL_MAX {
        match old.reuse(alloc_cap(len)) {
            Some(x) => b == x && old.spare(b) && new.payload(b) == old.payload(b),
            None => b is Small && !old.valid(b) && new.payload(b) == Seq::new(new.cap(b), |i: int| 0u8),
        }
    } else {
        b is Large && !old.valid(b) && new.payload(b) == Seq::new(new.cap(b), |i: int| 0u8)
    })
    &&& forall|x: Block| x != b ==> #[trigger] new.keeps(old, x)
}

/// What freeing `b` does: a large block goes back to the allocator; a
/// small one becomes the cached block (the block it displaces from the
/// cache joins its class's free list), keeping its capacity and octets.
pub open spec fn free_outcome(old: Blocks, new: Blocks, b: Block) -> bool {
    &&& (match b {
        Block::Large(_) => !new.valid(b),
        Block::Small(_) => {
            &&& new.valid(b)
            &&& new.spare(b)
            &&& new.cached() == Some(b)
            &&& new.cap(b) == old.cap(b)
            &&& new.payload(b) == old.payload(b)
        },
    })
    &&& forall|x: Block| x != b ==> #[trigger] new.keeps(old, x)
}

/// What growing `b` into a block for `target` bytes does: the answer is
/// the block an allocation of `target` bytes takes before `b` is freed,
/// holding `b`'s first `old_len` octets; `b` is then freed; every other
/// block is untouched.
pub open spec fn grow_outcome(old: Blocks, new: Blocks, b: Block, old_len: int, target: int, r: Block) -> bool {
    &&& r != b
    &&& new.valid(r)
    &&& !new.spare(r)
    &&& new.cap(r) == alloc_cap(target)
    &&& (if request(target) <= SMALL_MAX {
        match old.reuse(alloc_cap(target)) {
            Some(x) => r == x,
            None => r is Small && !old.valid(r),
        }
    } else {
        r is Large && !old.valid(r)
    })
    &&& new.payload(r).subrange(0, old_len) == old.payload(b).subrange(0, old_len)
    &&& (match b {
        Block::Large(_) => !new.valid(b),
        Block::Small(_) => {
            &&& new.valid(b)
            &&& new.spare(b)
            &&& new.cached() == Some(b)
            &&& new.cap(b) == old.cap(b)
            &&& new.payload(b) == old.payload(b)
        },
    })
    &&& forall|x: Block| x != b && x != r ==> #[trigger] new.keeps(old, x)
}

impl Blocks {
    /// An empty store.
    pub fn new() -> (s: Blocks)
        ensures
            s.wf(),
            forall|b: Block| !(#[trigger] s.valid(b)),
            s.cached() is None,
    {
        let mut free: Vec<Vec<usize>> = Vec::new();
        let mut i: usize = 0;
        while i < N_CLASSES
            invariant
                i <= N_CLASSES,
                free@.len() == i,
                forall|c: int| 0 <= c < i ==> (#[trigger] free@[c])@.len() == 0,
            decreases N_CLASSES - i,
        {
            free.push(Vec::new());
            i += 1;
        }
        Blocks { pages: 0, bump: PAGE_WORDS, carved: Vec::new(), free, dedicated: Vec::new(), recent: None }
    }

    /// The byte size of class `i`.
    fn class_bytes(i: usize) -> (c: usize)
        requires
            i < N_CLASSES,
        ensures
            c == class_at(i as int),
    {
        if i < 8 {
            16 * (i + 1)
        } else if i < 12 {
            128 + 32 * (i - 7)
        } else if i < 16 {
            256 + 64 * (i - 11)
        } else if i < 20 {
            512 + 128 * (i - 15)
        } else {
            1024 + 256 * (i - 19)
        }
    }

    /// The smallest class that holds `req` bytes.
    pub fn class_of(req: usize) -> (i: usize)
        requires
            req <= SMALL_MAX,
        ensures
            i == class_index(req as int),
            i < N_CLASSES,
            class_at(i as int) >= req,
    {
        proof {
            lemma_class_index(req as int);
        }
        let mut i: usize = 0;
        while i < 23 && Self::class_bytes(i) < req
            invariant
                i <= 23,
                class_index_from(i as int, req as int) == class_index(req as int),
            decreases 23 - i,
        {
            i += 1;
        }
        i
    }

    /// The capacity in a block's header.
    pub fn cap_of(&self, b: Block) -> (c: usize)
        requires
            self.valid(b),
        ensures
            c == self.cap(b),
    {
        match b {
            Block::Small(k) => self.carved[k].cap,
            Block::Large(k) => match &self.dedicated[k] {
                Some(d) => d.len(),
                None => 0,
            },
        }
    }

    fn alloc_dedicated(&mut self, need: usize) -> (b: Block)
        requires
            old(self).wf(),
            need > SMALL_MAX,
        ensures
            final(self).wf(),
            b is Large,
            !old(self).valid(b),
            final(self).valid(b),
            !final(self).spare(b),
            final(self).cap(b) == need,
            final(self).payload(b) == Seq::new(need as nat, |i: int| 0u8),
            forall|x: Block| x != b ==> #[trigger] final(self).keeps(*old(self), x),
    {
        let data: Vec<u8> = vec![0u8; need];
        assert(data@ =~= Seq::new(need as nat, |i: int| 0u8));
        self.dedicated.push(Some(data));
        let b = Block::Large(self.dedicated.len() - 1);
        proof {
            let o = *old(self);
            assert forall|x: Block| x != b implies #[trigger] self.keeps(o, x) by {
                match x {
                    Block::Large(k) => {
                        if k < o.dedicated@.len() {
                            assert(self.dedicated@[k as int] == o.dedicated@[k as int]);
                        }
                    },
                    Block::Small(k) => {},
                }
            }
            assert forall|k: int|
                0 <= k < self.dedicated@.len() && (#[trigger] self.dedicated@[k]) is Some implies
                    self.dedicated@[k]->0@.len() > SMALL_MAX by {
                if k < o.dedicated@.len() {
                    assert(self.dedicated@[k] == o.dedicated@[k]);
                }
            }
        }
        b
    }

    /// A block with at least `len` usable bytes: the rounded request's
    /// class, served from the cache, the class's free list, or freshly
    /// carved zeroed memory in the last page (a new page when it is full);
    /// a request above `SMALL_MAX` gets a dedicated block of its own.
    pub fn allocate(&mut self, len: usize) -> (b: Block)
        requires
            old(self).wf(),
            len <= usize::MAX - 8,
        ensures
            final(self).wf(),
            alloc_outcome(*old(self), *final(self), len as int, b),
    {
        let m = if len < 1 { 1 } else { len };
        let req = (m + 7) & !7usize;
        proof {
            let x = (m + 7) as usize;
            assert((x & !7usize) == x - x % 8) by (bit_vector);
            assert(req == request(len as int));
        }
        if req > SMALL_MAX {
            return self.alloc_dedicated(req);
        }
        let ci = Self::class_of(req);
        let need = Self::class_bytes(ci);
        proof {
            lemma_class_index(req as int);
            lemma_class_of_class(ci as int);
            assert(need == alloc_cap(len as int));
        }
        let ghost o = *old(self);
        match self.recent {
            Some(r) => {
                if r.1 == need {
                    self.recent = None;
                    let b = Block::Small(r.0);
                    proof {
                        assert(o.reuse(need as int) == Some(b));
                        assert forall|x: Block| x != b implies #[trigger] self.keeps(o, x) by {}
                    }
                    return b;
                }
            },
            None => {},
        }
        if self.free[ci].len() > 0 {
            let ghost l = self.free@[ci as int]@;
            let k = self.free[ci].pop().unwrap();
            let b = Block::Small(k);
            proof {
                assert(self.free@[ci as int]@ =~= l.drop_last());
                assert(k == l[l.len() - 1]);
                assert(o.reuse(need as int) == Some(b));
                assert(self.carved@[k as int].cap == class_at(ci as int));
                assert forall|x: Block| x != b implies #[trigger] self.keeps(o, x) by {
                    match x {
                        Block::Small(j) => {
                            if j < self.carved@.len() {
                                let cj = class_index(self.carved@[j as int].cap as int);
                                if cj != ci {
                                    assert(self.free@[cj] == o.free@[cj]);
                                } else {
                                    assert(l.contains(j) ==> l.drop_last().contains(j)) by {
                                        if l.contains(j) {
                                            let t = choose|t: int| 0 <= t < l.len() && l[t] == j;
                                            if t == l.len() - 1 {
                                                assert(j == k);
                                            } else {
                                                assert(l.drop_last()[t] == j);
                                            }
                                        }
                                    }
                                }
                            }
                        },
                        Block::Large(_) => {},
                    }
                }
                assert(!self.listed(k)) by {
                    if self.listed(k) {
                        let t = choose|t: int| 0 <= t < l.len() - 1 && l.drop_last()[t] == k;
                        assert(l[t] == l[l.len() - 1]);
                    }
                }
            }
            return b;
        }
        let words = (need + HDR + 7) / 8;
        let mut off = self.bump;
        let mut page = if self.pages == 0 { 0 } else { self.pages - 1 };
        if off + words > PAGE_WORDS {
            // the last page is full: carve a fresh one
            page = self.pages;
            off = 0;
        }
        let data: Vec<u8> = vec![0u8; need];
        proof {
            if o.carved@.len() > 0 {
                assert(carved_ok(o.carved@[o.carved@.len() - 1], o.carved@.len() - 1));
            }
        }
        self.carved.push(Carved { cap: need, page, off, data });
        let n = self.carved.len();
        assert(page < n);
        self.pages = page + 1;
        self.bump = off + words;
        let b = Block::Small(self.carved.len() - 1);
        proof {
            assert(self.carved@.last().data@ =~= Seq::new(need as nat, |i: int| 0u8));
            assert forall|x: Block| x != b implies #[trigger] self.keeps(o, x) by {
                match x {
                    Block::Small(j) => {
                        if j < o.carved@.len() {
                            assert(self.carved@[j as int] == o.carved@[j as int]);
                        }
                    },
                    Block::Large(_) => {},
                }
            }
        }
        b
    }

    /// Moves the cached block to its class's free list; every block stays
    /// as it was (the moved one is still spare).
    fn evict_cached(&mut self)
        requires
            old(self).wf(),
            old(self).recent is Some,
        ensures
            final(self).wf(),
            final(self).recent is None,
            final(self).carved@ == old(self).carved@,
            final(self).dedicated@ == old(self).dedicated@,
            forall|x: Block| #[trigger] final(self).keeps(*old(self), x),
    {
        let ghost o = *old(self);
        let r = self.recent.unwrap();
        // the cached block is always small, so its class is exact
        let cls = Self::class_of(r.1);
        let ghost l = self.free@[cls as int]@;
        proof {
            lemma_class_of_class(class_index(r.1 as int));
        }
        self.free[cls].push(r.0);
        self.recent = None;
        proof {
            assert(self.free@[cls as int]@ =~= l.push(r.0));
            assert forall|x: Block| #[trigger] self.keeps(o, x) by {
                if let Block::Small(j) = x {
                    if j < self.carved@.len() {
                        let cj = class_index(self.carved@[j as int].cap as int);
                        if cj != cls {
                            assert(self.free@[cj] == o.free@[cj]);
                        } else if j != r.0 {
                            assert(l.push(r.0).contains(j) ==> l.contains(j)) by {
                                if l.push(r.0).contains(j) {
                                    let t = choose|t: int| 0 <= t < l.len() + 1 && l.push(r.0)[t] == j;
                                    assert(t < l.len());
                                    assert(l[t] == j);
                                }
                            }
                            assert(l.contains(j) ==> l.push(r.0).contains(j)) by {
                                if l.contains(j) {
                                    let t = choose|t: int| 0 <= t < l.len() && l[t] == j;
                                    assert(l.push(r.0)[t] == j);
                                }
                            }
                        } else {
                            assert(self.free@[cls as int]@[l.len() as int] == j);
                        }
                    }
                }
            }
            assert forall|c: int, i: int, j: int|
                0 <= c < N_CLASSES && 0 <= i < j < self.free@[c]@.len() implies #[trigger] self.free@[c]@[i]
                    != #[trigger] self.free@[c]@[j] by {
                if c == cls && j == l.len() {
                    assert(self.free@[c]@[i] == l[i]);
                    assert(!o.listed(r.0));
                }
            }
        }
    }

    fn release_dedicated(&mut self, k: usize)
        requires
            old(self).wf(),
            old(self).valid(Block::Large(k)),
        ensures
            final(self).wf(),
            free_outcome(*old(self), *final(self), Block::Large(k)),
    {
        let ghost o = *old(self);
        let b = Block::Large(k);
        self.dedicated[k] = None;
        proof {
            assert forall|x: Block| x != b implies #[trigger] self.keeps(o, x) by {
                if let Block::Large(j) = x {
                    if j < o.dedicated@.len() {
                        assert(self.dedicated@[j as int] == o.dedicated@[j as int]);
                    }
                }
            }
            assert forall|j: int|
                0 <= j < self.dedicated@.len() && (#[trigger] self.dedicated@[j]) is Some implies
                    self.dedicated@[j]->0@.len() > SMALL_MAX by {
                assert(self.dedicated@[j] == o.dedicated@[j]);
            }
        }
    }

    /// Returns a block. A large block goes back to the allocator; a small
    /// one becomes the cached block, and the block it displaces from the
    /// cache joins its class's free list.
    pub fn free(&mut self, b: Block)
        requires
            old(self).wf(),
            old(self).valid(b),
            !old(self).spare(b),
        ensures
            final(self).wf(),
            free_outcome(*old(self), *final(self), b),
    {
        let ghost o = *old(self);
        let c = self.cap_of(b);
        if c > SMALL_MAX {
            if let Block::Large(k) = b {
                self.release_dedicated(k);
            }
            return;
        }
        let k = match b {
            Block::Small(k) => k,
            Block::Large(_) => {
                return;
            },
        };
        if self.recent.is_some() {
            self.evict_cached();
        }
        let ghost mid = *self;
        self.recent = Some((k, c));
        proof {
            assert(mid.keeps(o, b));
            assert(!mid.listed(k));
            assert forall|x: Block| x != b implies #[trigger] self.keeps(o, x) by {
                assert(mid.keeps(o, x));
            }
        }
    }

    /// A block's payload octets.
    pub fn bytes(&self, b: Block) -> (r: &[u8])
        requires
            self.valid(b),
        ensures
            r@ == self.payload(b),
    {
        match b {
            Block::Small(k) => self.carved[k].data.as_slice(),
            Block::Large(k) => match &self.dedicated[k] {
                Some(d) => d.as_slice(),
                None => &[],
            },
        }
    }

    /// Writes `src` into a block's payload at byte offset `at`.
    pub fn write(&mut self, b: Block, at: usize, src: &[u8])
        requires
            old(self).wf(),
            old(self).valid(b),
            at + src@.len() <= old(self).cap(b),
        ensures
            final(self).wf(),
            final(self).valid(b),
            final(self).spare(b) == old(self).spare(b),
            final(self).cap(b) == old(self).cap(b),
            final(self).payload(b) == old(self).payload(b).subrange(0, at as int) + src@ + old(self).payload(
                b,
            ).subrange(at + src@.len(), old(self).cap(b) as int),
            final(self).cached() == old(self).cached(),
            forall|x: Block| x != b ==> #[trigger] final(self).keeps(*old(self), x),
    {
        let ghost o = *old(self);
        let ghost target = o.payload(b).subrange(0, at as int) + src@ + o.payload(b).subrange(
            at + src@.len(),
            o.cap(b) as int,
        );
        match b {
            Block::Small(k) => {
                let mut i: usize = 0;
                while i < src.len()
                    invariant
                        o.wf(),
                        o.valid(b),
                        b == Block::Small(k),
                        at + src@.len() <= o.cap(b),
                        i <= src@.len(),
                        self.free@ == o.free@,
                        self.recent == o.recent,
                        self.pages == o.pages,
                        self.bump == o.bump,
                        self.dedicated@ == o.dedicated@,
                        self.carved@.len() == o.carved@.len(),
                        forall|j: int| 0 <= j < o.carved@.len() && j != k ==> self.carved@[j] == o.carved@[j],
                        self.carved@[k as int].cap == o.carved@[k as int].cap,
                        self.carved@[k as int].page == o.carved@[k as int].page,
                        self.carved@[k as int].off == o.carved@[k as int].off,
                        self.carved@[k as int].data@.len() == o.carved@[k as int].data@.len(),
                        forall|j: int|
                            0 <= j < self.carved@[k as int].data@.len() ==> #[trigger] self.carved@[k as int].data@[j]
                                == (if at <= j < at + i {
                                src@[j - at]
                            } else {
                                o.carved@[k as int].data@[j]
                            }),
                    decreases src@.len() - i,
                {
                    self.carved[k].data[at + i] = src[i];
                    i += 1;
                }
                proof {
                    assert(self.carved@[k as int].data@ =~= target);
                    assert forall|j: int| 0 <= j < self.carved@.len() implies carved_ok(
                        #[trigger] self.carved@[j],
                        j,
                    ) by {
                        assert(carved_ok(o.carved@[j], j));
                    }
                    assert forall|j: int| 0 <= j < self.carved@.len() - 1 implies placed_after(
                        #[trigger] self.carved@[j],
                        self.carved@[j + 1],
                    ) by {
                        assert(placed_after(o.carved@[j], o.carved@[j + 1]));
                    }
                    assert forall|x: Block| x != b implies #[trigger] self.keeps(o, x) by {
                        if let Block::Small(j) = x {
                            if j < o.carved@.len() {
                                assert(self.carved@[j as int] == o.carved@[j as int]);
                            }
                        }
                    }
                }
            },
            Block::Large(k) => {
                let mut d = self.dedicated[k].take().unwrap();
                let dl = d.len();
                let mut i: usize = 0;
                while i < src.len()
                    invariant
                        i <= src@.len(),
                        d@.len() == dl,
                        at + src@.len() <= d@.len(),
                        d@.len() == o.payload(b).len(),
                        forall|j: int|
                            0 <= j < d@.len() ==> #[trigger] d@[j] == (if at <= j < at + i {
                                src@[j - at]
                            } else {
                                o.payload(b)[j]
                            }),
                    decreases src@.len() - i,
                {
                    d[at + i] = src[i];
                    i += 1;
                }
                assert(d@ =~= target);
                self.dedicated[k] = Some(d);
                proof {
                    assert forall|x: Block| x != b implies #[trigger] self.keeps(o, x) by {
                        if let Block::Large(j) = x {
                            if j < o.dedicated@.len() {
                                assert(self.dedicated@[j as int] == o.dedicated@[j as int]);
                            }
                        }
                    }
                    assert forall|j: int|
                        0 <= j < self.dedicated@.len() && (#[trigger] self.dedicated@[j]) is Some implies
                            self.dedicated@[j]->0@.len() > SMALL_MAX by {
                        if j != k {
                            assert(self.dedicated@[j] == o.dedicated@[j]);
                        }
                    }
                }
            },
        }
    }

    /// Grows a block to hold at least `want` bytes. A block that already
    /// does is kept; otherwise a block for `max(want, 2 * cap)` bytes is
    /// allocated (so one-byte appends reach the allocator O(log n) times),
    /// the first `old_len` octets are copied over, and the old block is
    /// freed.
    pub fn grow(&mut self, b: Block, old_len: usize, want: usize) -> (r: Block)
        requires
            old(self).wf(),
            old(self).valid(b),
            !old(self).spare(b),
            old_len <= old(self).cap(b),
            want <= usize::MAX - 8,
            2 * old(self).cap(b) <= usize::MAX - 8,
        ensures
            final(self).wf(),
            want <= old(self).cap(b) ==> r == b && forall|x: Block| #[trigger] final(self).keeps(*old(self), x),
            want > old(self).cap(b) ==> grow_outcome(
                *old(self),
                *final(self),
                b,
                old_len as int,
                (if want > 2 * old(self).cap(b) { want as int } else { 2 * old(self).cap(b) as int }),
                r,
            ),
    {
        let c = self.cap_of(b);
        if want <= c {
            return b;
        }
        let ghost o = *old(self);
        let target = if want > 2 * c { want } else { 2 * c };
        let src = self.bytes(b);
        let mut prefix: Vec<u8> = Vec::new();
        let mut i: usize = 0;
        while i < old_len
            invariant
                i <= old_len,
                old_len <= src@.len(),
                prefix@ == src@.subrange(0, i as int),
            decreases old_len - i,
        {
            prefix.push(src[i]);
            i += 1;
        }
        let np = self.allocate(target);
        proof {
            lemma_alloc_cap(target as int);
        }
        let ghost mid = *self;
        assert(np != b);
        self.write(np, 0, prefix.as_slice());
        let ghost mid2 = *self;
        proof {
            assert(mid.keeps(o, b));
            assert(mid2.keeps(mid, b));
        }
        self.free(b);
        proof {
            assert(self.keeps(mid2, np));
            assert(self.payload(np).subrange(0, old_len as int) =~= o.payload(b).subrange(0, old_len as int));
            assert forall|x: Block| x != b && x != np implies #[trigger] self.keeps(o, x) by {
                assert(mid.keeps(o, x));
                assert(mid2.keeps(mid, x));
                assert(self.keeps(mid2, x));
            }
        }
        np
    }
}

proof fn lemma_carving_order(s: Blocks, k1: int, k2: int)
    requires
        s.wf(),
        0 <= k1 < k2 < s.carved@.len(),
    ensures
        s.carved@[k1].page <= s.carved@[k2].page,
        s.carved@[k1].page == s.carved@[k2].page ==> s.carved@[k1].off + block_words(
            s.carved@[k1].cap as int,
        ) <= s.carved@[k2].off,
    decreases k2 - k1,
{
    assert(placed_after(s.carved@[k2 - 1], s.carved@[k2]));
    assert(carved_ok(s.carved@[k2 - 1], k2 - 1));
    if k2 - 1 > k1 {
        lemma_carving_order(s, k1, k2 - 1);
    }
}

/// Carved blocks never overlap: each lies within its page, and two blocks
/// on the same page occupy disjoint word ranges.
pub proof fn law_carved_blocks_never_overlap(s: Blocks, k1: usize, k2: usize)
    requires
        s.wf(),
        s.valid(Block::Small(k1)),
        s.valid(Block::Small(k2)),
        k1 != k2,
    ensures
        ({
            let (p1, o1, w1) = s.placement(Block::Small(k1));
            let (p2, o2, w2) = s.placement(Block::Small(k2));
            &&& o1 + w1 <= PAGE_WORDS
            &&& p1 == p2 ==> o1 + w1 <= o2 || o2 + w2 <= o1
        }),
{
    assert(carved_ok(s.carved@[k1 as int], k1 as int));
    if k1 < k2 {
        lemma_carving_order(s, k1 as int, k2 as int);
    } else {
        lemma_carving_order(s, k2 as int, k1 as int);
    }
}

/// An allocation holds what it asked for: a small request gets a class
/// value no smaller than the request, a large one the rounded request.
pub proof fn law_an_allocation_fits_its_request(old: Blocks, new: Blocks, len: int, b: Block)
    requires
        0 <= len,
        alloc_outcome(old, new, len, b),
    ensures
        new.cap(b) >= len,
        new.cap(b) % 8 == 0,
        request(len) <= SMALL_MAX ==> is_class(new.cap(b) as int),
{
    lemma_alloc_cap(len);
    if request(len) <= SMALL_MAX {
        lemma_class_index(request(len));
        lemma_class_range(class_index(request(len)));
        lemma_class_of_class(class_index(request(len)));
    }
}

/// An allocation never hands out a block that is in use: the answer was
/// either waiting in the cache or a free list, or did not exist before.
pub proof fn law_no_block_is_handed_out_twice(old: Blocks, new: Blocks, len: int, b: Block)
    requires
        alloc_outcome(old, new, len, b),
    ensures
        old.spare(b) || !old.valid(b),
{
}

/// A freed small block is the very block the next allocation of its class
/// gets back, with its octets as they were.
pub proof fn law_free_then_alloc_reuses_the_block(
    s0: Blocks,
    s1: Blocks,
    s2: Blocks,
    k: usize,
    len: int,
    r: Block,
)
    requires
        s1.wf(),
        free_outcome(s0, s1, Block::Small(k)),
        alloc_outcome(s1, s2, len, r),
        request(len) <= SMALL_MAX,
        alloc_cap(len) == s0.cap(Block::Small(k)),
    ensures
        r == Block::Small(k),
        s2.payload(r) == s0.payload(Block::Small(k)),
{
}

/// Growth is geometric: a grown block holds at least twice the old
/// capacity, and at least what was wanted.
pub proof fn law_growth_is_geometric(
    old: Blocks,
    new: Blocks,
    b: Block,
    old_len: int,
    want: int,
    r: Block,
)
    requires
        want > old.cap(b),
        grow_outcome(old, new, b, old_len, (if want > 2 * old.cap(b) { want } else { 2 * old.cap(b) as int }), r),
    ensures
        new.cap(r) >= want,
        new.cap(r) >= 2 * old.cap(b),
{
    lemma_alloc_cap(if want > 2 * old.cap(b) { want } else { 2 * old.cap(b) as int });
}

/// A block's payload spans exactly its capacity.
pub proof fn lemma_payload_spans_the_capacity(s: Blocks, b: Block)
    requires
        s.wf(),
        s.valid(b),
    ensures
        s.payload(b).len() == s.cap(b),
{
    if let Block::Small(k) = b {
        assert(carved_ok(s.carved@[k as int], k as int));
    }
}

} // verus!
