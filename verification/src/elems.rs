//! Packed element storage of array cells. Element `i` occupies `width`
//! bytes of the array's block from byte `i * width`, little-endian: narrow
//! integer kinds truncate on write and sign- or zero-extend on read, and
//! the primitive-optional store keeps a one-byte nil tag after the
//! payload. The `f32` lanes round through floating point and are not
//! handled here.
use vstd::prelude::*;
use crate::blocks::{Blocks, lemma_payload_spans_the_capacity, lemma_alloc_cap};
use crate::cell::{ArrData, ArrKind, PrimTy, prim_width, kind_width};

verus! {

/// Byte `j` (least significant first) of a word.
pub open spec fn byte_of(v: u64, j: int) -> u8 {
    (v >> ((8 * j) as u64)) as u8
}

/// The `w` low bytes of a word, least significant first.
pub open spec fn le_bytes(v: u64, w: nat) -> Seq<u8> {
    Seq::new(w, |j: int| byte_of(v, j))
}

/// The little-endian word in the `w` bytes of `b` from `at` (`w` is 1, 2,
/// 4 or 8).
pub open spec fn le_word(b: Seq<u8>, at: int, w: nat) -> u64 {
    if w == 1 {
        b[at] as u64
    } else if w == 2 {
        (b[at] as u64) | ((b[at + 1] as u64) << 8u64)
    } else if w == 4 {
        (b[at] as u64) | ((b[at + 1] as u64) << 8u64) | ((b[at + 2] as u64) << 16u64) | ((b[at + 3]
            as u64) << 24u64)
    } else {
        (b[at] as u64) | ((b[at + 1] as u64) << 8u64) | ((b[at + 2] as u64) << 16u64) | ((b[at + 3]
            as u64) << 24u64) | ((b[at + 4] as u64) << 32u64) | ((b[at + 5] as u64) << 40u64) | ((b[at
            + 6] as u64) << 48u64) | ((b[at + 7] as u64) << 56u64)
    }
}

/// The primitive an element kind stores (a slot is a 64-bit word).
pub open spec fn kind_prim(k: ArrKind) -> PrimTy {
    match k {
        ArrKind::Slots => PrimTy::I64,
        ArrKind::U8 => PrimTy::U8,
        ArrKind::I8 => PrimTy::I8,
        ArrKind::U16 => PrimTy::U16,
        ArrKind::I16 => PrimTy::I16,
        ArrKind::U32 => PrimTy::U32,
        ArrKind::I32 => PrimTy::I32,
        ArrKind::F32 => PrimTy::F32,
        ArrKind::Bool => PrimTy::Bool,
        ArrKind::Opt(p) => p,
    }
}

/// Whether a kind stores its elements without a float rounding.
pub open spec fn exact_kind(k: ArrKind) -> bool {
    kind_prim(k) != PrimTy::F32
}

/// The slot word a stored payload of primitive `p` reads back as: the
/// bytes zero- or sign-extended by `p`'s signedness; a `bool` is 0 or 1;
/// 8-byte payloads (and `f64` bits) are the word itself.
pub open spec fn prim_read(p: PrimTy, b: Seq<u8>, at: int) -> i64 {
    match p {
        PrimTy::U8 => (le_word(b, at, 1) as u8) as i64,
        PrimTy::I8 => ((le_word(b, at, 1) as u8) as i8) as i64,
        PrimTy::U16 => (le_word(b, at, 2) as u16) as i64,
        PrimTy::I16 => ((le_word(b, at, 2) as u16) as i16) as i64,
        PrimTy::U32 | PrimTy::Char | PrimTy::F32 => (le_word(b, at, 4) as u32) as i64,
        PrimTy::I32 => ((le_word(b, at, 4) as u32) as i32) as i64,
        PrimTy::Bool => if b[at] != 0 {
            1
        } else {
            0
        },
        _ => le_word(b, at, 8) as i64,
    }
}

/// The payload bytes a slot word of primitive `p` is stored as.
pub open spec fn prim_bytes(p: PrimTy, v: i64) -> Seq<u8> {
    if p == PrimTy::Bool {
        seq![if v != 0 { 1u8 } else { 0u8 }]
    } else {
        le_bytes(v as u64, prim_width(p))
    }
}

/// What storing the word `v` as primitive `p` keeps of it.
pub open spec fn stored(p: PrimTy, v: i64) -> i64 {
    match p {
        PrimTy::U8 => (v as u8) as i64,
        PrimTy::I8 => (v as i8) as i64,
        PrimTy::U16 => (v as u16) as i64,
        PrimTy::I16 => (v as i16) as i64,
        PrimTy::U32 | PrimTy::Char | PrimTy::F32 => (v as u32) as i64,
        PrimTy::I32 => (v as i32) as i64,
        PrimTy::Bool => if v != 0 {
            1
        } else {
            0
        },
        _ => v,
    }
}

/// The element at byte `at` of a block: the nil-tagged store reads `0`
/// (the null word) for nil and the raw payload otherwise.
pub open spec fn decode(k: ArrKind, b: Seq<u8>, at: int) -> i64 {
    match k {
        ArrKind::Opt(p) => if b[at + prim_width(p)] == 0 {
            0
        } else {
            prim_read(p, b, at)
        },
        _ => prim_read(kind_prim(k), b, at),
    }
}

/// The bytes an element of kind `k` is written as: the payload, and for
/// the nil-tagged store the tag after it (a nil is all zero bytes).
pub open spec fn encode(k: ArrKind, v: Option<i64>) -> Seq<u8> {
    match k {
        ArrKind::Opt(p) => match v {
            Some(raw) => prim_bytes(p, raw).push(1u8),
            None => Seq::new(prim_width(p) + 1, |j: int| 0u8),
        },
        _ => prim_bytes(kind_prim(k), v.unwrap_or(0)),
    }
}

proof fn lemma_le_round_trip(v: u64)
    by (bit_vector)
    ensures
        (((v >> 0u64) as u8) as u64) == (v as u8) as u64,
        (((v >> 0u64) as u8) as u64) | ((((v >> 8u64) as u8) as u64) << 8u64) == (v as u16) as u64,
        (((v >> 0u64) as u8) as u64) | ((((v >> 8u64) as u8) as u64) << 8u64) | ((((v >> 16u64) as u8)
            as u64) << 16u64) | ((((v >> 24u64) as u8) as u64) << 24u64) == (v as u32) as u64,
        (((v >> 0u64) as u8) as u64) | ((((v >> 8u64) as u8) as u64) << 8u64) | ((((v >> 16u64) as u8)
            as u64) << 16u64) | ((((v >> 24u64) as u8) as u64) << 24u64) | ((((v >> 32u64) as u8)
            as u64) << 32u64) | ((((v >> 40u64) as u8) as u64) << 40u64) | ((((v >> 48u64) as u8)
            as u64) << 48u64) | ((((v >> 56u64) as u8) as u64) << 56u64) == v,
{
}

/// Reading back the bytes a word was stored as gives what storing keeps.
proof fn lemma_prim_round_trip(p: PrimTy, v: i64)
    requires
        p != PrimTy::F32,
    ensures
        prim_bytes(p, v).len() == prim_width(p),
        prim_read(p, prim_bytes(p, v), 0) == stored(p, v),
{
    let u = v as u64;
    lemma_le_round_trip(u);
    let w = prim_width(p);
    if p != PrimTy::Bool {
        let b = le_bytes(u, w);
        assert(b.len() == w);
        assert(b[0] == (u >> 0u64) as u8);
        if w >= 2 {
            assert(b[1] == (u >> 8u64) as u8);
        }
        if w >= 4 {
            assert(b[2] == (u >> 16u64) as u8);
            assert(b[3] == (u >> 24u64) as u8);
        }
        if w >= 8 {
            assert(b[4] == (u >> 32u64) as u8);
            assert(b[5] == (u >> 40u64) as u8);
            assert(b[6] == (u >> 48u64) as u8);
            assert(b[7] == (u >> 56u64) as u8);
        }
        assert(((u as u8) as i64) == (v as u8) as i64) by (bit_vector)
            requires
                u == v as u64,
        ;
        assert((((u as u8) as i8) as i64) == (v as i8) as i64) by (bit_vector)
            requires
                u == v as u64,
        ;
        assert(((u as u16) as i64) == (v as u16) as i64 && (((u as u16) as i16) as i64) == (v
            as i16) as i64 && ((u as u32) as i64) == (v as u32) as i64 && (((u as u32) as i32)
            as i64) == (v as i32) as i64 && (u as i64) == v) by (bit_vector)
            requires
                u == v as u64,
        ;
    }
}

/// A payload read depends only on the payload's own bytes.
proof fn lemma_prim_read_local(p: PrimTy, b1: Seq<u8>, b2: Seq<u8>, at1: int, at2: int)
    requires
        0 <= at1,
        0 <= at2,
        at1 + prim_width(p) <= b1.len(),
        at2 + prim_width(p) <= b2.len(),
        b1.subrange(at1, at1 + prim_width(p)) == b2.subrange(at2, at2 + prim_width(p)),
    ensures
        prim_read(p, b1, at1) == prim_read(p, b2, at2),
{
    let n = prim_width(p) as int;
    let s1 = b1.subrange(at1, at1 + n);
    let s2 = b2.subrange(at2, at2 + n);
    assert forall|t: int| 0 <= t < n implies #[trigger] s1[t] == b1[at1 + t] && s2[t] == b2[at2 + t] by {}
    assert(s1[0] == s2[0]);
    if n >= 2 {
        assert(s1[1] == s2[1]);
    }
    if n >= 4 {
        assert(s1[2] == s2[2]);
        assert(s1[3] == s2[3]);
    }
    if n >= 8 {
        assert(s1[4] == s2[4]);
        assert(s1[5] == s2[5]);
        assert(s1[6] == s2[6]);
        assert(s1[7] == s2[7]);
    }
}

/// An element's value depends only on its own bytes (the payload and,
/// for the nil-tagged store, the tag).
proof fn lemma_decode_local(k: ArrKind, b1: Seq<u8>, b2: Seq<u8>, at1: int, at2: int)
    requires
        0 <= at1,
        0 <= at2,
        at1 + kind_width(k) <= b1.len(),
        at2 + kind_width(k) <= b2.len(),
        b1.subrange(at1, at1 + kind_width(k)) == b2.subrange(at2, at2 + kind_width(k)),
    ensures
        decode(k, b1, at1) == decode(k, b2, at2),
{
    let n = kind_width(k) as int;
    let p = kind_prim(k);
    let w = prim_width(p) as int;
    let s1 = b1.subrange(at1, at1 + n);
    let s2 = b2.subrange(at2, at2 + n);
    assert(b1.subrange(at1, at1 + w) =~= s1.subrange(0, w));
    assert(b2.subrange(at2, at2 + w) =~= s2.subrange(0, w));
    lemma_prim_read_local(p, b1, b2, at1, at2);
    if let ArrKind::Opt(q) = k {
        assert(s1[w] == b1[at1 + w]);
        assert(s2[w] == b2[at2 + w]);
    }
}

/// The word a slot-sized element reads back as, from its written bytes.
pub open spec fn elem_value(k: ArrKind, v: Option<i64>) -> i64 {
    match k {
        ArrKind::Opt(p) => match v {
            Some(raw) => stored(p, raw),
            None => 0,
        },
        _ => stored(kind_prim(k), v.unwrap_or(0)),
    }
}

proof fn lemma_encode_round_trip(k: ArrKind, v: Option<i64>)
    requires
        exact_kind(k),
    ensures
        encode(k, v).len() == kind_width(k),
        decode(k, encode(k, v), 0) == elem_value(k, v),
{
    match k {
        ArrKind::Opt(p) => {
            let w = prim_width(p) as int;
            match v {
                Some(raw) => {
                    lemma_prim_round_trip(p, raw);
                    let e = prim_bytes(p, raw).push(1u8);
                    assert(e.subrange(0, w) =~= prim_bytes(p, raw).subrange(0, w));
                    lemma_prim_read_local(p, e, prim_bytes(p, raw), 0, 0);
                },
                None => {
                    let z = Seq::new((w + 1) as nat, |j: int| 0u8);
                    assert(z[w] == 0u8);
                },
            }
        },
        _ => {
            lemma_prim_round_trip(kind_prim(k), v.unwrap_or(0));
        },
    }
}

/// The word in the `w` bytes of `b` from `at`.
fn read_le(b: &[u8], at: usize, w: usize) -> (r: u64)
    requires
        w == 1 || w == 2 || w == 4 || w == 8,
        at + w <= b@.len(),
    ensures
        r == le_word(b@, at as int, w as nat),
{
    if w == 1 {
        b[at] as u64
    } else if w == 2 {
        (b[at] as u64) | ((b[at + 1] as u64) << 8u64)
    } else if w == 4 {
        (b[at] as u64) | ((b[at + 1] as u64) << 8u64) | ((b[at + 2] as u64) << 16u64) | ((b[at + 3]
            as u64) << 24u64)
    } else {
        (b[at] as u64) | ((b[at + 1] as u64) << 8u64) | ((b[at + 2] as u64) << 16u64) | ((b[at + 3]
            as u64) << 24u64) | ((b[at + 4] as u64) << 32u64) | ((b[at + 5] as u64) << 40u64) | ((b[at
            + 6] as u64) << 48u64) | ((b[at + 7] as u64) << 56u64)
    }
}

/// The `w` low bytes of `v`, least significant first.
fn write_le(v: u64, w: usize) -> (out: Vec<u8>)
    requires
        w <= 8,
    ensures
        out@ == le_bytes(v, w as nat),
{
    let mut out: Vec<u8> = Vec::new();
    let mut j: usize = 0;
    while j < w
        invariant
            j <= w <= 8,
            out@ == Seq::new(j as nat, |k: int| byte_of(v, k)),
        decreases w - j,
    {
        out.push((v >> ((8 * j) as u64)) as u8);
        j += 1;
        assert(out@ =~= Seq::new(j as nat, |k: int| byte_of(v, k)));
    }
    out
}

/// The payload read of primitive `p` at byte `at`.
fn read_prim(p: PrimTy, b: &[u8], at: usize) -> (r: i64)
    requires
        at + prim_width(p) <= b@.len(),
    ensures
        r == prim_read(p, b@, at as int),
{
    match p {
        PrimTy::U8 => (read_le(b, at, 1) as u8) as i64,
        PrimTy::I8 => ((read_le(b, at, 1) as u8) as i8) as i64,
        PrimTy::U16 => (read_le(b, at, 2) as u16) as i64,
        PrimTy::I16 => ((read_le(b, at, 2) as u16) as i16) as i64,
        PrimTy::U32 | PrimTy::Char | PrimTy::F32 => (read_le(b, at, 4) as u32) as i64,
        PrimTy::I32 => ((read_le(b, at, 4) as u32) as i32) as i64,
        PrimTy::Bool => if b[at] != 0 {
            1
        } else {
            0
        },
        _ => read_le(b, at, 8) as i64,
    }
}

/// The payload bytes of `v` as primitive `p`.
fn prim_encode(p: PrimTy, v: i64) -> (out: Vec<u8>)
    ensures
        out@ == prim_bytes(p, v),
{
    if p == PrimTy::Bool {
        let mut out: Vec<u8> = Vec::new();
        out.push(if v != 0 { 1u8 } else { 0u8 });
        assert(out@ =~= prim_bytes(p, v));
        out
    } else {
        write_le(v as u64, p.width())
    }
}

/// A nil-tagged element's tag and payload read depend only on its own bytes.
proof fn lemma_opt_local(p: PrimTy, b1: Seq<u8>, b2: Seq<u8>, at1: int, at2: int)
    requires
        0 <= at1,
        0 <= at2,
        at1 + prim_width(p) + 1 <= b1.len(),
        at2 + prim_width(p) + 1 <= b2.len(),
        b1.subrange(at1, at1 + prim_width(p) + 1) == b2.subrange(at2, at2 + prim_width(p) + 1),
    ensures
        b1[at1 + prim_width(p)] == b2[at2 + prim_width(p)],
        prim_read(p, b1, at1) == prim_read(p, b2, at2),
{
    let w = prim_width(p) as int;
    let s1 = b1.subrange(at1, at1 + w + 1);
    let s2 = b2.subrange(at2, at2 + w + 1);
    assert(s1[w] == b1[at1 + w]);
    assert(s2[w] == b2[at2 + w]);
    assert(b1.subrange(at1, at1 + w) =~= s1.subrange(0, w));
    assert(b2.subrange(at2, at2 + w) =~= s2.subrange(0, w));
    lemma_prim_read_local(p, b1, b2, at1, at2);
}

/// Two element slots of stride `w` never overlap.
proof fn lemma_stride(i: int, j: int, w: int)
    by (nonlinear_arith)
    requires
        0 <= i,
        0 <= j,
        i != j,
        0 <= w,
    ensures
        j * w + w <= i * w || i * w + w <= j * w,
{
    if j < i {
        assert(j * w + w == (j + 1) * w);
        assert((j + 1) * w <= i * w);
    } else {
        assert(i * w + w == (i + 1) * w);
        assert((i + 1) * w <= j * w);
    }
}

/// Element `i` of `cap` lies inside the first `cap * w` bytes.
proof fn lemma_slot_inside(i: int, cap: int, w: int)
    by (nonlinear_arith)
    requires
        0 <= i < cap,
        0 <= w,
    ensures
        0 <= i * w,
        i * w + w <= cap * w,
{
    assert(i * w + w == (i + 1) * w);
}

fn prim_of(k: ArrKind) -> (p: PrimTy)
    ensures
        p == kind_prim(k),
{
    match k {
        ArrKind::Slots => PrimTy::I64,
        ArrKind::U8 => PrimTy::U8,
        ArrKind::I8 => PrimTy::I8,
        ArrKind::U16 => PrimTy::U16,
        ArrKind::I16 => PrimTy::I16,
        ArrKind::U32 => PrimTy::U32,
        ArrKind::I32 => PrimTy::I32,
        ArrKind::F32 => PrimTy::F32,
        ArrKind::Bool => PrimTy::Bool,
        ArrKind::Opt(p) => p,
    }
}

/// The raw payload of element `i` of a nil-tagged store, `None` when the
/// element is nil or the store is of another kind.
pub open spec fn opt_elem(a: ArrData, s: Blocks, i: int) -> Option<i64> {
    match a.kind {
        ArrKind::Opt(p) => {
            let b = s.payload(a.block);
            let at = i * kind_width(a.kind);
            if b[at + prim_width(p)] == 0 {
                None
            } else {
                Some(prim_read(p, b, at))
            }
        },
        _ => None,
    }
}

/// What `set` answers and leaves: below the length, the displaced
/// element, with the new word stored as the kind keeps it; past it,
/// `None` and nothing changed.
pub open spec fn set_outcome(a: ArrData, s1: Blocks, s2: Blocks, i: int, v: i64, r: Option<i64>) -> bool {
    if 0 <= i < a.len {
        &&& r == Some(a.elem(s1, i))
        &&& a.elems(s2) == a.elems(s1).update(i, stored(kind_prim(a.kind), v))
        &&& forall|x| x != a.block ==> #[trigger] s2.keeps(s1, x)
    } else {
        r is None && s2 == s1
    }
}

/// Whether two runs compare equal: same length and kind, and then the
/// same words (slot arrays) or the same packed bytes (every other kind).
pub open spec fn arrays_equal(a: ArrData, b: ArrData, s: Blocks) -> bool {
    &&& a.len == b.len
    &&& a.kind == b.kind
    &&& if a.kind == ArrKind::Slots {
        a.elems(s) == b.elems(s)
    } else {
        let m = a.len * kind_width(a.kind);
        s.payload(a.block).subrange(0, m) == s.payload(b.block).subrange(0, m)
    }
}

/// What `pop` answers and leaves: the last element, gone from the run;
/// `None` from an empty run.
pub open spec fn pop_outcome(a1: ArrData, a2: ArrData, s: Blocks, r: Option<i64>) -> bool {
    &&& a2.kind == a1.kind
    &&& if a1.len == 0 {
        r is None && a2.len == 0
    } else {
        r == Some(a1.elems(s).last()) && a2.elems(s) == a1.elems(s).drop_last()
    }
}

/// What `push` leaves: the word, as the kind keeps it, after the elements.
pub open spec fn push_outcome(a1: ArrData, s1: Blocks, a2: ArrData, s2: Blocks, v: i64) -> bool {
    &&& a2.kind == a1.kind
    &&& a2.elems(s2) == a1.elems(s1).push(stored(kind_prim(a1.kind), v))
}

impl ArrData {
    /// The run fits its block: a block in use with room for `cap`
    /// elements, at most `cap` of them live.
    pub open spec fn fits_in(&self, s: Blocks) -> bool {
        &&& s.wf()
        &&& s.valid(self.block)
        &&& !s.spare(self.block)
        &&& self.len <= self.cap
        &&& self.cap * kind_width(self.kind) <= s.cap(self.block)
    }

    /// Element `i` as the block's bytes hold it.
    pub open spec fn elem(&self, s: Blocks, i: int) -> i64 {
        decode(self.kind, s.payload(self.block), i * kind_width(self.kind))
    }

    /// The live elements.
    pub open spec fn elems(&self, s: Blocks) -> Seq<i64> {
        Seq::new(self.len as nat, |i: int| self.elem(s, i))
    }

    /// Reads element `i` (of the capacity, live or not).
    fn slot_at(&self, s: &Blocks, i: usize) -> (r: i64)
        requires
            self.fits_in(*s),
            i < self.cap,
            exact_kind(self.kind),
        ensures
            r == self.elem(*s, i as int),
    {
        let w = self.kind.width();
        proof {
            lemma_payload_spans_the_capacity(*s, self.block);
            lemma_slot_inside(i as int, self.cap as int, w as int);
        }
        let b = s.bytes(self.block);
        let n = b.len();
        assert(i * w + w <= n);
        let at = i * w;
        match self.kind {
            ArrKind::Opt(p) => {
                if b[at + p.width()] == 0 {
                    0
                } else {
                    read_prim(p, b, at)
                }
            },
            _ => read_prim(prim_of(self.kind), b, at),
        }
    }

    /// Writes the bytes of `v` into element `i`; every other element, and
    /// every other block, stays as it was.
    fn write_slot(&self, s: &mut Blocks, i: usize, v: Option<i64>)
        requires
            self.fits_in(*old(s)),
            i < self.cap,
            exact_kind(self.kind),
        ensures
            self.fits_in(*final(s)),
            self.elem(*final(s), i as int) == elem_value(self.kind, v),
            forall|j: int| 0 <= j < self.cap && j != i ==> #[trigger] self.elem(*final(s), j) == self.elem(*old(s), j),
            forall|x| x != self.block ==> #[trigger] final(s).keeps(*old(s), x),
            final(s).cached() == old(s).cached(),
            final(s).cap(self.block) == old(s).cap(self.block),
            final(s).payload(self.block) == old(s).payload(self.block).subrange(0, i * kind_width(self.kind))
                + encode(self.kind, v) + old(s).payload(self.block).subrange(
                i * kind_width(self.kind) + kind_width(self.kind),
                old(s).cap(self.block) as int,
            ),
    {
        let w = self.kind.width();
        proof {
            lemma_payload_spans_the_capacity(*old(s), self.block);
            lemma_slot_inside(i as int, self.cap as int, w as int);
            lemma_encode_round_trip(self.kind, v);
        }
        let bytes: Vec<u8> = match self.kind {
            ArrKind::Opt(p) => match v {
                Some(raw) => {
                    let mut e = prim_encode(p, raw);
                    e.push(1u8);
                    e
                },
                None => {
                    let z: Vec<u8> = vec![0u8; w];
                    assert(z@ =~= Seq::new((prim_width(p) + 1) as nat, |j: int| 0u8));
                    z
                },
            },
            _ => prim_encode(prim_of(self.kind), match v {
                Some(x) => x,
                None => 0,
            }),
        };
        assert(bytes@ == encode(self.kind, v));
        let n = s.bytes(self.block).len();
        assert(i * w + w <= n);
        let at = i * w;
        let ghost before = s.payload(self.block);
        s.write(self.block, at, bytes.as_slice());
        proof {
            let after = s.payload(self.block);
            let cap = s.cap(self.block) as int;
            lemma_payload_spans_the_capacity(*s, self.block);
            assert(after.subrange(at as int, at + w) =~= bytes@);
            assert(bytes@.subrange(0, w as int) =~= bytes@);
            lemma_decode_local(self.kind, after, bytes@, at as int, 0);
            assert forall|j: int| 0 <= j < self.cap && j != i implies #[trigger] self.elem(*s, j) == self.elem(
                *old(s),
                j,
            ) by {
                lemma_stride(i as int, j, w as int);
                lemma_slot_inside(j, self.cap as int, w as int);
                assert(after.subrange(j * w, j * w + w) =~= before.subrange(j * w, j * w + w));
                lemma_decode_local(self.kind, after, before, j * w, j * w);
            }
        }
    }

    /// The element at `i`, when `i` is below the length.
    pub fn get(&self, s: &Blocks, i: usize) -> (r: Option<i64>)
        requires
            self.fits_in(*s),
            exact_kind(self.kind),
        ensures
            r == (if i < self.len {
                Some(self.elem(*s, i as int))
            } else {
                None
            }),
    {
        if i < self.len as usize {
            Some(self.slot_at(s, i))
        } else {
            None
        }
    }

    /// Overwrites element `i` below the length and answers the displaced
    /// element; past the length nothing changes and the answer is `None`.
    pub fn set(&self, s: &mut Blocks, i: usize, v: i64) -> (r: Option<i64>)
        requires
            self.fits_in(*old(s)),
            exact_kind(self.kind),
            !(self.kind is Opt),
        ensures
            self.fits_in(*final(s)),
            set_outcome(*self, *old(s), *final(s), i as int, v, r),
    {
        if i >= self.len as usize {
            return None;
        }
        let displaced = self.slot_at(s, i);
        self.write_slot(s, i, Some(v));
        proof {
            assert(self.elems(*s) =~= self.elems(*old(s)).update(i as int, stored(kind_prim(self.kind), v)));
        }
        Some(displaced)
    }

    /// Removes and answers the last element.
    pub fn pop(&mut self, s: &Blocks) -> (r: Option<i64>)
        requires
            old(self).fits_in(*s),
            exact_kind(old(self).kind),
        ensures
            final(self).fits_in(*s),
            final(self).block == old(self).block,
            final(self).cap == old(self).cap,
            pop_outcome(*old(self), *final(self), *s, r),
    {
        if self.len == 0 {
            return None;
        }
        let v = self.slot_at(s, self.len as usize - 1);
        self.len = self.len - 1;
        proof {
            assert(self.elems(*s) =~= old(self).elems(*s).drop_last());
        }
        Some(v)
    }

    /// Appends an element, growing the block geometrically when the run
    /// is full.
    pub fn push(&mut self, s: &mut Blocks, v: i64)
        requires
            old(self).fits_in(*old(s)),
            exact_kind(old(self).kind),
            !(old(self).kind is Opt),
            old(self).len < u32::MAX,
            old(self).len >= old(self).cap ==> 2 * old(s).cap(old(self).block) + 16 <= u32::MAX
                && (old(self).len + 1) * kind_width(old(self).kind) + 16 <= u32::MAX,
        ensures
            final(self).fits_in(*final(s)),
            push_outcome(*old(self), *old(s), *final(self), *final(s), v),
            final(self).len == old(self).len + 1,
            old(self).len < old(self).cap ==> {
                &&& final(self).block == old(self).block
                &&& final(self).cap == old(self).cap
                &&& final(s).cap(final(self).block) == old(s).cap(old(self).block)
                &&& forall|x| x != old(self).block ==> #[trigger] final(s).keeps(*old(s), x)
            },
    {
        let w = self.kind.width();
        let ghost s0 = *old(s);
        let ghost a0 = *old(self);
        if self.len == self.cap {
            let old_len = self.len as usize;
            proof {
                lemma_payload_spans_the_capacity(*s, self.block);
                assert(old_len * w <= s.cap(self.block)) by (nonlinear_arith)
                    requires
                        old_len == self.cap,
                        self.cap * w <= s.cap(self.block),
                ;
                assert((old_len + 1) * w == old_len * w + w) by (nonlinear_arith);
            }
            let nb = s.grow(self.block, old_len * w, (old_len + 1) * w);
            let ghost want = (old_len + 1) * w;
            let ghost grew = want > s0.cap(a0.block);
            proof {
                if !grew {
                    assert(s.keeps(s0, a0.block));
                } else {
                    let target = if want > 2 * s0.cap(a0.block) { want as int } else { 2 * s0.cap(a0.block) as int };
                    lemma_alloc_cap(target);
                }
            }
            let c = s.cap_of(nb);
            proof {
                assert(c <= u32::MAX);
                assert(c >= want);
                assert(w > 0);
            }
            self.block = nb;
            self.cap = (c / w) as u32;
            proof {
                assert((c / w) * w <= c) by (nonlinear_arith)
                    requires
                        w > 0,
                ;
                assert(c / w >= old_len + 1) by (nonlinear_arith)
                    requires
                        w > 0,
                        c >= (old_len + 1) * w,
                ;
                lemma_payload_spans_the_capacity(*s, nb);
                assert forall|j: int| 0 <= j < a0.len implies #[trigger] self.elem(*s, j) == a0.elem(s0, j) by {
                    if grew {
                        lemma_slot_inside(j, old_len as int, w as int);
                        let p1 = s.payload(nb);
                        let p0 = s0.payload(a0.block);
                        let l = old_len * w;
                        assert(p1.subrange(0, l) == p0.subrange(0, l));
                        assert(p1.subrange(j * w, j * w + w) =~= p1.subrange(0, l).subrange(j * w, j * w + w));
                        assert(p0.subrange(j * w, j * w + w) =~= p0.subrange(0, l).subrange(j * w, j * w + w));
                        lemma_decode_local(self.kind, p1, p0, j * w, j * w);
                    }
                }
            }
        }
        let ghost mid = *s;
        let ghost a1 = *self;
        self.write_slot(s, self.len as usize, Some(v));
        self.len = self.len + 1;
        proof {
            assert forall|j: int| 0 <= j < a0.len implies #[trigger] self.elem(*s, j) == a0.elem(s0, j) by {
                assert(a1.elem(*s, j) == a1.elem(mid, j));
            }
            if a0.len < a0.cap {
                assert(mid == s0);
                assert forall|x| x != a0.block implies #[trigger] s.keeps(s0, x) by {
                    assert(s.keeps(mid, x));
                }
            }
            assert(self.elems(*s) =~= a0.elems(s0).push(stored(kind_prim(self.kind), v)));
        }
    }

    /// Whether element `i` of the nil-tagged store holds a value.
    pub fn opt_tag(&self, s: &Blocks, i: usize) -> (r: bool)
        requires
            self.fits_in(*s),
            i < self.cap,
            self.kind is Opt,
        ensures
            r == (s.payload(self.block)[i * kind_width(self.kind) + prim_width(kind_prim(self.kind))] != 0),
    {
        let w = self.kind.width();
        proof {
            lemma_payload_spans_the_capacity(*s, self.block);
            lemma_slot_inside(i as int, self.cap as int, w as int);
        }
        let p = prim_of(self.kind);
        let b = s.bytes(self.block);
        let n = b.len();
        assert(i * w + w <= n);
        b[i * w + p.width()] != 0
    }

    /// The raw payload of element `i` of the nil-tagged store; `None` for
    /// a nil element or another kind of store.
    pub fn opt_raw(&self, s: &Blocks, i: usize) -> (r: Option<i64>)
        requires
            self.fits_in(*s),
            i < self.cap,
            exact_kind(self.kind),
        ensures
            r == opt_elem(*self, *s, i as int),
    {
        match self.kind {
            ArrKind::Opt(p) => {
                if !self.opt_tag(s, i) {
                    return None;
                }
                let w = self.kind.width();
                proof {
                    lemma_payload_spans_the_capacity(*s, self.block);
                    lemma_slot_inside(i as int, self.cap as int, w as int);
                }
                let b = s.bytes(self.block);
                let n = b.len();
                assert(i * w + w <= n);
                Some(read_prim(p, b, i * w))
            },
            _ => None,
        }
    }

    /// Stores a `?prim` value into element `i` of the nil-tagged store:
    /// `None` writes an all-zero nil, `Some(raw)` the payload and a set tag.
    pub fn write_opt(&self, s: &mut Blocks, i: usize, v: Option<i64>)
        requires
            self.fits_in(*old(s)),
            i < self.cap,
            exact_kind(self.kind),
            self.kind is Opt,
        ensures
            self.fits_in(*final(s)),
            opt_elem(*self, *final(s), i as int) == (match v {
                Some(raw) => Some(stored(kind_prim(self.kind), raw)),
                None => None,
            }),
            forall|j: int| 0 <= j < self.cap && j != i ==> #[trigger] self.elem(*final(s), j) == self.elem(*old(s), j),
            forall|j: int| 0 <= j < self.cap && j != i ==> #[trigger] opt_elem(*self, *final(s), j) == opt_elem(*self, *old(s), j),
    {
        let ghost k = self.kind;
        let ghost before = s.payload(self.block);
        self.write_slot(s, i, v);
        proof {
            let w = kind_width(k) as int;
            let after = s.payload(self.block);
            let p = kind_prim(k);
            lemma_payload_spans_the_capacity(*old(s), self.block);
            lemma_payload_spans_the_capacity(*s, self.block);
            lemma_slot_inside(i as int, self.cap as int, w);
            let enc = encode(k, v);
            lemma_encode_round_trip(k, v);
            assert forall|j: int| 0 <= j < self.cap && j != i implies #[trigger] opt_elem(*self, *s, j)
                == opt_elem(*self, *old(s), j) by {
                lemma_stride(i as int, j, w);
                lemma_slot_inside(j, self.cap as int, w);
                assert(after.subrange(j * w, j * w + w) =~= before.subrange(j * w, j * w + w));
                lemma_opt_local(p, after, before, j * w, j * w);
            }
            assert(after.subrange(i * w, i * w + w) =~= enc);
            assert(enc.subrange(0, w) =~= enc);
            lemma_opt_local(p, after, enc, i * w, 0);
            if v is None {
                assert(enc[prim_width(p) as int] == 0u8);
            } else {
                assert(enc[prim_width(p) as int] == 1u8);
            }
        }
    }

    /// Stores a raw payload with a set tag into element `i` of the
    /// nil-tagged store (any other store is left alone).
    pub fn write_opt_raw(&self, s: &mut Blocks, i: usize, raw: i64)
        requires
            self.fits_in(*old(s)),
            i < self.cap,
            exact_kind(self.kind),
        ensures
            self.fits_in(*final(s)),
            self.kind is Opt ==> opt_elem(*self, *final(s), i as int) == Some(stored(kind_prim(self.kind), raw)),
            !(self.kind is Opt) ==> *final(s) == *old(s),
            forall|j: int| 0 <= j < self.cap && j != i ==> #[trigger] self.elem(*final(s), j) == self.elem(*old(s), j),
            forall|j: int| 0 <= j < self.cap && j != i ==> #[trigger] opt_elem(*self, *final(s), j) == opt_elem(*self, *old(s), j),
    {
        if let ArrKind::Opt(_) = self.kind {
            self.write_opt(s, i, Some(raw));
        }
    }

    /// The live elements, in order.
    pub fn to_slots(&self, s: &Blocks) -> (v: Vec<i64>)
        requires
            self.fits_in(*s),
            exact_kind(self.kind),
        ensures
            v@ == self.elems(*s),
    {
        let mut v: Vec<i64> = Vec::new();
        let mut i: usize = 0;
        while i < self.len as usize
            invariant
                self.fits_in(*s),
                exact_kind(self.kind),
                i <= self.len,
                v@ == self.elems(*s).subrange(0, i as int),
            decreases self.len - i,
        {
            v.push(self.slot_at(s, i));
            i += 1;
            assert(v@ =~= self.elems(*s).subrange(0, i as int));
        }
        assert(self.elems(*s).subrange(0, i as int) =~= self.elems(*s));
        v
    }

    /// Whether two runs hold the same elements: equal length and kind, and
    /// then equal words for slot arrays, equal packed bytes otherwise.
    pub fn array_eq(&self, other: &ArrData, s: &Blocks) -> (r: bool)
        requires
            self.fits_in(*s),
            other.fits_in(*s),
        ensures
            r == arrays_equal(*self, *other, *s),
    {
        if self.len != other.len || self.kind != other.kind {
            return false;
        }
        let n = self.len as usize;
        match self.kind {
            ArrKind::Slots => {
                let mut i: usize = 0;
                while i < n
                    invariant
                        self.fits_in(*s),
                        other.fits_in(*s),
                        self.kind == ArrKind::Slots,
                        other.kind == ArrKind::Slots,
                        n == self.len,
                        n == other.len,
                        i <= n,
                        self.elems(*s).subrange(0, i as int) == other.elems(*s).subrange(0, i as int),
                    decreases n - i,
                {
                    if self.slot_at(s, i) != other.slot_at(s, i) {
                        assert(self.elems(*s)[i as int] != other.elems(*s)[i as int]);
                        return false;
                    }
                    assert(self.elems(*s).subrange(0, i + 1) =~= self.elems(*s).subrange(0, i as int).push(
                        self.elems(*s)[i as int],
                    ));
                    assert(other.elems(*s).subrange(0, i + 1) =~= other.elems(*s).subrange(0, i as int).push(
                        other.elems(*s)[i as int],
                    ));
                    i += 1;
                }
                assert(self.elems(*s) =~= self.elems(*s).subrange(0, n as int));
                assert(other.elems(*s) =~= other.elems(*s).subrange(0, n as int));
                true
            },
            _ => {
                let w = self.kind.width();
                proof {
                    lemma_payload_spans_the_capacity(*s, self.block);
                    lemma_payload_spans_the_capacity(*s, other.block);
                    assert(n * w <= self.cap * w) by (nonlinear_arith)
                        requires
                            n <= self.cap,
                    ;
                    assert(n * w <= other.cap * w) by (nonlinear_arith)
                        requires
                            n <= other.cap,
                    ;
                }
                let x = s.bytes(self.block);
                let y = s.bytes(other.block);
                let xl = x.len();
                let yl = y.len();
                let m = n * w;
                let ghost px = s.payload(self.block);
                let ghost py = s.payload(other.block);
                let mut i: usize = 0;
                assert(m <= xl && m <= yl);
                while i < m
                    invariant
                        px == s.payload(self.block),
                        py == s.payload(other.block),
                        self.len == other.len,
                        self.kind == other.kind,
                        m == self.len * kind_width(self.kind),
                        self.kind != ArrKind::Slots,
                        x@.len() == xl,
                        y@.len() == yl,
                        m <= xl,
                        m <= yl,
                        x@ == px,
                        y@ == py,
                        i <= m,
                        px.subrange(0, i as int) == py.subrange(0, i as int),
                    decreases m - i,
                {
                    if x[i] != y[i] {
                        assert(px.subrange(0, m as int)[i as int] != py.subrange(0, m as int)[i as int]);
                        assert(px.subrange(0, m as int) != py.subrange(0, m as int));
                        assert(m == self.len * kind_width(self.kind));
                        assert(self.kind != ArrKind::Slots);
                        return false;
                    }
                    assert(px.subrange(0, i + 1) =~= px.subrange(0, i as int).push(px[i as int]));
                    assert(py.subrange(0, i + 1) =~= py.subrange(0, i as int).push(py[i as int]));
                    i += 1;
                }
                true
            },
        }
    }

    /// The elements as octets (the `bytes` conversion): a `u8` run copies
    /// its packed bytes; any other run keeps each element's low byte.
    pub fn bytes_copy(&self, s: &Blocks) -> (v: Vec<u8>)
        requires
            self.fits_in(*s),
            exact_kind(self.kind),
        ensures
            v@ == self.elems(*s).map_values(|e: i64| e as u8),
    {
        let n = self.len as usize;
        let mut v: Vec<u8> = Vec::new();
        let packed = match self.kind {
            ArrKind::U8 => true,
            _ => false,
        };
        if packed {
            proof {
                lemma_payload_spans_the_capacity(*s, self.block);
                assert(self.cap * kind_width(self.kind) == self.cap);
            }
            let b = s.bytes(self.block);
            let mut i: usize = 0;
            while i < n
                invariant
                    self.fits_in(*s),
                    self.kind == ArrKind::U8,
                    n == self.len,
                    b@ == s.payload(self.block),
                    n <= b@.len(),
                    i <= n,
                    v@ == self.elems(*s).map_values(|e: i64| e as u8).subrange(0, i as int),
                decreases n - i,
            {
                proof {
                    assert(kind_width(self.kind) == 1);
                    assert(i * kind_width(self.kind) == i) by (nonlinear_arith)
                        requires
                            kind_width(self.kind) == 1,
                    ;
                    assert(self.elems(*s)[i as int] == self.elem(*s, i as int));
                    assert(le_word(b@, i as int, 1) == b@[i as int] as u64);
                }
                v.push(b[i]);
                i += 1;
                assert(v@ =~= self.elems(*s).map_values(|e: i64| e as u8).subrange(0, i as int));
            }
        } else {
            let mut i: usize = 0;
            while i < n
                invariant
                    self.fits_in(*s),
                    exact_kind(self.kind),
                    n == self.len,
                    i <= n,
                    v@ == self.elems(*s).map_values(|e: i64| e as u8).subrange(0, i as int),
                decreases n - i,
            {
                let e = self.slot_at(s, i);
                v.push(#[verifier::truncate] (e as u8));
                i += 1;
                assert(v@ =~= self.elems(*s).map_values(|e: i64| e as u8).subrange(0, i as int));
            }
        }
        assert(self.elems(*s).map_values(|e: i64| e as u8).subrange(0, n as int) =~= self.elems(*s).map_values(
            |e: i64| e as u8,
        ));
        v
    }
}

/// An element reads back what was stored in it: the written word as the
/// element type keeps it, every other element unchanged.
pub proof fn law_an_element_reads_back_what_was_stored(
    a: ArrData,
    s1: Blocks,
    s2: Blocks,
    i: int,
    v: i64,
    r: Option<i64>,
    j: int,
)
    requires
        set_outcome(a, s1, s2, i, v, r),
        r is Some,
        0 <= j < a.len,
    ensures
        a.elem(s2, i) == stored(kind_prim(a.kind), v),
        j != i ==> a.elem(s2, j) == a.elem(s1, j),
{
    assert(a.elems(s2)[i] == a.elem(s2, i));
    assert(a.elems(s2)[j] == a.elem(s2, j));
    assert(a.elems(s1)[j] == a.elem(s1, j));
}

/// A packed integer store keeps a word truncated to the element type, so
/// a value of that type comes back exactly.
pub proof fn law_packing_truncates_to_the_element_type(p: PrimTy, v: i64)
    requires
        crate::cell::prim_is_int(p),
    ensures
        stored(p, v) == crate::scalar::trunc_spec(v, p),
        crate::scalar::fits_spec(v, p) ==> stored(p, v) == v,
{
}

/// A pop undoes a push: it answers the pushed word (as the kind keeps
/// it) and leaves the elements as they were before the push.
pub proof fn law_pop_undoes_push(
    a0: ArrData,
    s0: Blocks,
    a1: ArrData,
    s1: Blocks,
    a2: ArrData,
    v: i64,
    r: Option<i64>,
)
    requires
        push_outcome(a0, s0, a1, s1, v),
        pop_outcome(a1, a2, s1, r),
    ensures
        r == Some(stored(kind_prim(a0.kind), v)),
        a2.elems(s1) == a0.elems(s0),
{
    assert(a1.elems(s1).len() > 0);
    assert(a1.len > 0);
    assert(a1.elems(s1).drop_last() =~= a0.elems(s0));
}

/// Slot arrays compare element by element over their whole length: two
/// slot runs of one length are equal exactly when every element agrees;
/// runs of different lengths or kinds are never equal; and any run equals
/// itself.
pub proof fn law_slot_arrays_compare_every_element(a: ArrData, b: ArrData, s: Blocks)
    ensures
        a.kind == ArrKind::Slots && b.kind == ArrKind::Slots && a.len == b.len ==> (arrays_equal(a, b, s) <==> forall|i: int|
            0 <= i < a.len ==> #[trigger] a.elem(s, i) == b.elem(s, i)),
        a.len != b.len || a.kind != b.kind ==> !arrays_equal(a, b, s),
        arrays_equal(a, a, s),
        arrays_equal(a, b, s) == arrays_equal(b, a, s),
{
    if a.kind == ArrKind::Slots && b.kind == ArrKind::Slots && a.len == b.len {
        if forall|i: int| 0 <= i < a.len ==> #[trigger] a.elem(s, i) == b.elem(s, i) {
            assert(a.elems(s) =~= b.elems(s));
        }
        if arrays_equal(a, b, s) {
            assert forall|i: int| 0 <= i < a.len implies #[trigger] a.elem(s, i) == b.elem(s, i) by {
                assert(a.elems(s)[i] == a.elem(s, i));
                assert(b.elems(s)[i] == b.elem(s, i));
            }
        }
    }
}

} // verus!
