//! Cell layout facts: primitive types, the packed element kinds of
//! sequence cells, and the shape checks the interpreter runs on cells.
use vstd::prelude::*;
use crate::trap::{Trap, TrapKind};
use crate::blocks::{Block, Blocks, lemma_payload_spans_the_capacity};
use crate::strops::{valid_utf8, utf8_text, lemma_valid_concat, lemma_count_of_encoding};

verus! {

/// The primitive value types.
#[derive(Clone, Copy, Debug, PartialEq, Eq, Structural)]
pub enum PrimTy {
    U8,
    I8,
    U16,
    I16,
    U32,
    I32,
    U64,
    I64,
    F32,
    F64,
    Bool,
    Char,
}

/// Bytes a primitive occupies in a packed store.
pub open spec fn prim_width(p: PrimTy) -> nat {
    match p {
        PrimTy::U8 | PrimTy::I8 | PrimTy::Bool => 1,
        PrimTy::U16 | PrimTy::I16 => 2,
        PrimTy::U32 | PrimTy::I32 | PrimTy::F32 | PrimTy::Char => 4,
        PrimTy::U64 | PrimTy::I64 | PrimTy::F64 => 8,
    }
}

/// Whether a primitive is an integer type.
pub open spec fn prim_is_int(p: PrimTy) -> bool {
    match p {
        PrimTy::F32 | PrimTy::F64 | PrimTy::Bool | PrimTy::Char => false,
        _ => true,
    }
}

/// Whether a primitive is an unsigned integer type.
pub open spec fn prim_is_unsigned(p: PrimTy) -> bool {
    match p {
        PrimTy::U8 | PrimTy::U16 | PrimTy::U32 | PrimTy::U64 => true,
        _ => false,
    }
}

/// Whether a primitive is a float type.
pub open spec fn prim_is_float(p: PrimTy) -> bool {
    p == PrimTy::F32 || p == PrimTy::F64
}

impl PrimTy {
    /// Bytes per value in a packed store.
    pub fn width(self) -> (w: usize)
        ensures
            w == prim_width(self),
    {
        match self {
            PrimTy::U8 | PrimTy::I8 | PrimTy::Bool => 1,
            PrimTy::U16 | PrimTy::I16 => 2,
            PrimTy::U32 | PrimTy::I32 | PrimTy::F32 | PrimTy::Char => 4,
            PrimTy::U64 | PrimTy::I64 | PrimTy::F64 => 8,
        }
    }

    /// Whether this is an integer type.
    pub fn is_int(self) -> (b: bool)
        ensures
            b == prim_is_int(self),
    {
        match self {
            PrimTy::F32 | PrimTy::F64 | PrimTy::Bool | PrimTy::Char => false,
            _ => true,
        }
    }

    /// Whether this is an unsigned integer type.
    pub fn is_unsigned(self) -> (b: bool)
        ensures
            b == prim_is_unsigned(self),
    {
        match self {
            PrimTy::U8 | PrimTy::U16 | PrimTy::U32 | PrimTy::U64 => true,
            _ => false,
        }
    }

    /// Whether this is a float type.
    pub fn is_float(self) -> (b: bool)
        ensures
            b == prim_is_float(self),
    {
        match self {
            PrimTy::F32 | PrimTy::F64 => true,
            _ => false,
        }
    }

    /// The type's source name.
    pub fn name(self) -> (n: &'static str)
        ensures
            n@ == prim_name(self),
    {
        match self {
            PrimTy::U8 => "u8",
            PrimTy::I8 => "i8",
            PrimTy::U16 => "u16",
            PrimTy::I16 => "i16",
            PrimTy::U32 => "u32",
            PrimTy::I32 => "i32",
            PrimTy::U64 => "u64",
            PrimTy::I64 => "i64",
            PrimTy::F32 => "f32",
            PrimTy::F64 => "f64",
            PrimTy::Bool => "bool",
            PrimTy::Char => "char",
        }
    }
}

/// The source name of each primitive.
pub open spec fn prim_name(p: PrimTy) -> Seq<char> {
    match p {
        PrimTy::U8 => "u8"@,
        PrimTy::I8 => "i8"@,
        PrimTy::U16 => "u16"@,
        PrimTy::I16 => "i16"@,
        PrimTy::U32 => "u32"@,
        PrimTy::I32 => "i32"@,
        PrimTy::U64 => "u64"@,
        PrimTy::I64 => "i64"@,
        PrimTy::F32 => "f32"@,
        PrimTy::F64 => "f64"@,
        PrimTy::Bool => "bool"@,
        PrimTy::Char => "char"@,
    }
}

/// Payload slots a record keeps inline before spilling to the heap.
pub const INLINE_SLOTS: usize = 4;

/// The payload slots of a record cell: a few live inline in the cell,
/// larger payloads spill to a heap vector.
pub enum Slots {
    Inline { len: u8, data: [i64; INLINE_SLOTS] },
    Heap(Vec<i64>),
}

impl View for Slots {
    type V = Seq<i64>;

    open spec fn view(&self) -> Seq<i64> {
        match self {
            Slots::Inline { len, data } => data@.subrange(0, *len as int),
            Slots::Heap(v) => v@,
        }
    }
}

impl Slots {
    /// An inline payload never claims more than its buffer.
    pub open spec fn wf(&self) -> bool {
        self matches Slots::Inline { len, .. } ==> len <= INLINE_SLOTS
    }

    /// `n` null slots, inline when they fit.
    pub fn zeroed(n: usize) -> (s: Slots)
        ensures
            s.wf(),
            s@ == Seq::new(n as nat, |i: int| 0i64),
            (s is Inline) == (n <= INLINE_SLOTS),
    {
        if n <= INLINE_SLOTS {
            let s = Slots::Inline { len: n as u8, data: [0i64; INLINE_SLOTS] };
            assert(s@ =~= Seq::new(n as nat, |i: int| 0i64));
            s
        } else {
            let v: Vec<i64> = vec![0i64; n];
            let s = Slots::Heap(v);
            assert(s@ =~= Seq::new(n as nat, |i: int| 0i64));
            s
        }
    }

    /// The given slots, inline when they fit.
    pub fn from_vec(v: Vec<i64>) -> (s: Slots)
        ensures
            s.wf(),
            s@ == v@,
            (s is Inline) == (v@.len() <= INLINE_SLOTS),
    {
        if v.len() <= INLINE_SLOTS {
            let mut data = [0i64; INLINE_SLOTS];
            let mut i: usize = 0;
            while i < v.len()
                invariant
                    v@.len() <= INLINE_SLOTS,
                    i <= v@.len(),
                    data@.len() == INLINE_SLOTS,
                    forall|j: int| 0 <= j < i ==> data@[j] == v@[j],
                decreases v@.len() - i,
            {
                data[i] = v[i];
                i += 1;
            }
            let s = Slots::Inline { len: v.len() as u8, data };
            assert(s@ =~= v@);
            s
        } else {
            Slots::Heap(v)
        }
    }

    /// Moves every slot out, leaving the payload empty.
    pub fn take_slots(&mut self) -> (v: Vec<i64>)
        requires
            old(self).wf(),
        ensures
            final(self).wf(),
            v@ == old(self)@,
            final(self)@.len() == 0,
    {
        match self {
            Slots::Heap(items) => {
                let mut out: Vec<i64> = Vec::new();
                std::mem::swap(items, &mut out);
                out
            },
            Slots::Inline { len, data } => {
                let n = if (*len as usize) < INLINE_SLOTS { *len as usize } else { INLINE_SLOTS };
                let mut out: Vec<i64> = Vec::new();
                let mut i: usize = 0;
                while i < n
                    invariant
                        n <= INLINE_SLOTS,
                        i <= n,
                        data@.len() == INLINE_SLOTS,
                        out@ == data@.subrange(0, i as int),
                    decreases n - i,
                {
                    out.push(data[i]);
                    i += 1;
                    assert(out@ =~= data@.subrange(0, i as int));
                }
                *len = 0;
                out
            },
        }
    }

    /// The slot count.
    pub fn len(&self) -> (n: usize)
        requires
            self.wf(),
        ensures
            n == self@.len(),
    {
        match self {
            Slots::Inline { len, .. } => *len as usize,
            Slots::Heap(v) => v.len(),
        }
    }

    /// Slot `i`, if there is one.
    pub fn get(&self, i: usize) -> (r: Option<i64>)
        requires
            self.wf(),
        ensures
            r == (if i < self@.len() {
                Some(self@[i as int])
            } else {
                None
            }),
    {
        match self {
            Slots::Inline { len, data } => {
                if i < *len as usize {
                    Some(data[i])
                } else {
                    None
                }
            },
            Slots::Heap(v) => {
                if i < v.len() {
                    Some(v[i])
                } else {
                    None
                }
            },
        }
    }

    /// Overwrites slot `i` and answers the displaced slot; `None` (and no
    /// change) past the end.
    pub fn set(&mut self, i: usize, v: i64) -> (r: Option<i64>)
        requires
            old(self).wf(),
        ensures
            final(self).wf(),
            i < old(self)@.len() ==> r == Some(old(self)@[i as int]) && final(self)@ == old(self)@.update(
                i as int,
                v,
            ),
            i >= old(self)@.len() ==> r is None && final(self)@ == old(self)@,
    {
        match self {
            Slots::Inline { len, data } => {
                if i < *len as usize {
                    let displaced = data[i];
                    data[i] = v;
                    proof {
                        assert(data@.subrange(0, *len as int) =~= old(self)@.update(i as int, v));
                    }
                    Some(displaced)
                } else {
                    None
                }
            },
            Slots::Heap(items) => {
                if i < items.len() {
                    let displaced = items[i];
                    items.set(i, v);
                    Some(displaced)
                } else {
                    None
                }
            },
        }
    }
}

/// What the element-kind choice reads of a type-table entry.
#[derive(Clone, Copy, Debug, PartialEq, Eq, Structural)]
pub enum TyShape {
    /// a primitive type
    Prim(PrimTy),
    /// an optional over the type with this id
    Opt(u32),
    /// any other type (records, strings, arrays, ...)
    Other,
}

/// Every optional names a type inside the table.
pub open spec fn table_closed(table: Seq<TyShape>) -> bool {
    forall|i: int| 0 <= i < table.len() ==> (#[trigger] table[i] matches TyShape::Opt(e) ==> e < table.len())
}

/// Compact element storage kinds for a sequence cell: sub-slot-width
/// primitives pack to their machine width; 8-byte primitives and every
/// reference element keep an 8-byte slot; `Opt(p)` holds the raw `p`
/// payload plus a one-byte nil tag.
#[derive(Clone, Copy, Debug, PartialEq, Eq, Structural)]
pub enum ArrKind {
    Slots,
    U8,
    I8,
    U16,
    I16,
    U32,
    I32,
    F32,
    Bool,
    Opt(PrimTy),
}

/// The storage kind chosen for elements of type `elem`.
pub open spec fn kind_for(elem: int, table: Seq<TyShape>) -> ArrKind {
    if elem < 0 || elem >= table.len() {
        ArrKind::Slots
    } else {
        match table[elem] {
            TyShape::Prim(PrimTy::U8) => ArrKind::U8,
            TyShape::Prim(PrimTy::I8) => ArrKind::I8,
            TyShape::Prim(PrimTy::U16) => ArrKind::U16,
            TyShape::Prim(PrimTy::I16) => ArrKind::I16,
            TyShape::Prim(PrimTy::U32) => ArrKind::U32,
            TyShape::Prim(PrimTy::I32) => ArrKind::I32,
            TyShape::Prim(PrimTy::F32) => ArrKind::F32,
            TyShape::Prim(PrimTy::Bool) => ArrKind::Bool,
            TyShape::Opt(e) => match table[e as int] {
                TyShape::Prim(p) => ArrKind::Opt(p),
                _ => ArrKind::Slots,
            },
            _ => ArrKind::Slots,
        }
    }
}

/// Bytes per element of each storage kind.
pub open spec fn kind_width(k: ArrKind) -> nat {
    match k {
        ArrKind::U8 | ArrKind::I8 | ArrKind::Bool => 1,
        ArrKind::U16 | ArrKind::I16 => 2,
        ArrKind::U32 | ArrKind::I32 | ArrKind::F32 => 4,
        ArrKind::Slots => 8,
        ArrKind::Opt(p) => prim_width(p) + 1,
    }
}

impl ArrKind {
    /// Picks the storage kind for `elem`; ids outside the table (such as
    /// the untyped sentinel) fall back to slots.
    pub fn of(elem: u32, table: &[TyShape]) -> (k: ArrKind)
        requires
            table_closed(table@),
        ensures
            k == kind_for(elem as int, table@),
    {
        if (elem as usize) >= table.len() {
            return ArrKind::Slots;
        }
        match table[elem as usize] {
            TyShape::Prim(PrimTy::U8) => ArrKind::U8,
            TyShape::Prim(PrimTy::I8) => ArrKind::I8,
            TyShape::Prim(PrimTy::U16) => ArrKind::U16,
            TyShape::Prim(PrimTy::I16) => ArrKind::I16,
            TyShape::Prim(PrimTy::U32) => ArrKind::U32,
            TyShape::Prim(PrimTy::I32) => ArrKind::I32,
            TyShape::Prim(PrimTy::F32) => ArrKind::F32,
            TyShape::Prim(PrimTy::Bool) => ArrKind::Bool,
            TyShape::Opt(e) => {
                assert(table@[elem as int] matches TyShape::Opt(e) ==> e < table@.len());
                match table[e as usize] {
                    TyShape::Prim(p) => ArrKind::Opt(p),
                    _ => ArrKind::Slots,
                }
            },
            _ => ArrKind::Slots,
        }
    }

    /// Bytes per element: the optional store strides payload plus tag.
    pub fn width(self) -> (w: usize)
        ensures
            w == kind_width(self),
    {
        match self {
            ArrKind::U8 | ArrKind::I8 | ArrKind::Bool => 1,
            ArrKind::U16 | ArrKind::I16 => 2,
            ArrKind::U32 | ArrKind::I32 | ArrKind::F32 => 4,
            ArrKind::Slots => 8,
            ArrKind::Opt(p) => p.width() + 1,
        }
    }
}

/// The element run of one array cell: its block, length, element
/// capacity, and storage kind.
pub struct ArrData {
    /// the payload block in the block store
    pub block: Block,
    pub len: u32,
    /// element capacity (class-rounded via the block header)
    pub cap: u32,
    pub kind: ArrKind,
}

impl ArrData {
    /// An empty run over a zeroed block with room for `cap` elements.
    pub fn new(kind: ArrKind, block: Block, cap: u32) -> (a: ArrData)
        ensures
            a.kind == kind,
            a.block == block,
            a.cap == cap,
            a.len == 0,
    {
        ArrData { block, len: 0, cap, kind }
    }

    /// The element count.
    pub fn len(&self) -> (n: usize)
        ensures
            n == self.len,
    {
        self.len as usize
    }

    /// Whether there are no elements.
    pub fn is_empty(&self) -> (b: bool)
        ensures
            b == (self.len == 0),
    {
        self.len == 0
    }

    /// Bytes per element.
    pub fn width(&self) -> (w: usize)
        ensures
            w == kind_width(self.kind),
    {
        self.kind.width()
    }

    /// The primitive of a primitive-optional store, if this is one.
    pub fn opt_kind(&self) -> (p: Option<PrimTy>)
        ensures
            p == (match self.kind {
                ArrKind::Opt(q) => Some(q),
                _ => None,
            }),
    {
        match self.kind {
            ArrKind::Opt(p) => Some(p),
            _ => None,
        }
    }
}

/// One captured stack-trace frame: the function id and the call-site pc.
#[derive(Clone, Copy, Debug)]
pub struct TraceFrame {
    pub func: u32,
    pub pc: u32,
}

/// Whether every octet is 7-bit ASCII.
pub open spec fn all_ascii(s: Seq<u8>) -> bool {
    forall|i: int| 0 <= i < s.len() ==> #[trigger] s[i] < 128
}

/// Whether an octet starts a UTF-8 character (it is not a continuation
/// octet `0b10xx_xxxx`).
pub open spec fn starts_char(b: u8) -> bool {
    b < 0x80 || b >= 0xC0
}

/// The number of characters a UTF-8 text holds: the octets that start one.
pub open spec fn char_count(s: Seq<u8>) -> nat
    decreases s.len(),
{
    if s.len() == 0 {
        0
    } else {
        char_count(s.drop_last()) + if starts_char(s.last()) { 1nat } else { 0nat }
    }
}

/// In ASCII text every octet is a character.
pub proof fn lemma_ascii_counts_every_octet(s: Seq<u8>)
    requires
        all_ascii(s),
    ensures
        char_count(s) == s.len(),
    decreases s.len(),
{
    if s.len() > 0 {
        assert(all_ascii(s.drop_last())) by {
            assert forall|i: int| 0 <= i < s.drop_last().len() implies #[trigger] s.drop_last()[i] < 128 by {
                assert(s.drop_last()[i] == s[i]);
            }
        }
        lemma_ascii_counts_every_octet(s.drop_last());
        assert(s.last() == s[s.len() - 1]);
    }
}

/// Counts the characters of a UTF-8 text: one per octet that starts one.
pub fn count_chars(b: &[u8]) -> (n: usize)
    ensures
        n == char_count(b@),
        n <= b@.len(),
{
    let mut c: usize = 0;
    let mut k: usize = 0;
    while k < b.len()
        invariant
            k <= b@.len(),
            c == char_count(b@.take(k as int)),
            c <= k,
        decreases b@.len() - k,
    {
        proof {
            assert(b@.take(k + 1).drop_last() =~= b@.take(k as int));
        }
        let x = b[k];
        if x < 0x80 || x >= 0xC0 {
            c = c + 1;
        }
        k = k + 1;
    }
    assert(b@.take(b@.len() as int) =~= b@);
    c
}

pub(crate) fn octets_are_ascii(b: &[u8]) -> (r: bool)
    ensures
        r == all_ascii(b@),
{
    let mut i: usize = 0;
    while i < b.len()
        invariant
            i <= b.len(),
            all_ascii(b@.subrange(0, i as int)),
        decreases b.len() - i,
    {
        if b[i] >= 128 {
            assert(b@[i as int] >= 128);
            return false;
        }
        assert(b@.subrange(0, i + 1) =~= b@.subrange(0, i as int).push(b@[i as int]));
        i += 1;
    }
    assert(b@.subrange(0, i as int) =~= b@);
    true
}

/// A `str` payload: the first `len` octets of its block (UTF-8), the
/// block's usable capacity as its header records it, and whether the
/// octets are all ASCII (then a char index is a byte index). The flag is
/// computed at allocation and kept by appends.
pub struct StrVal {
    pub block: Block,
    pub len: u32,
    pub cap: u32,
    pub ascii: bool,
}

impl StrVal {
    /// The text's octets.
    pub open spec fn text(&self, s: Blocks) -> Seq<u8> {
        s.payload(self.block).subrange(0, self.len as int)
    }

    /// The payload lives in a block in use whose capacity `cap` records,
    /// the text is valid UTF-8, and the ASCII flag is exact.
    pub open spec fn fits_in(&self, s: Blocks) -> bool {
        &&& s.wf()
        &&& s.valid(self.block)
        &&& !s.spare(self.block)
        &&& self.cap == s.cap(self.block)
        &&& self.len <= self.cap
        &&& valid_utf8(self.text(s))
        &&& self.ascii == all_ascii(self.text(s))
    }

    /// The valid octets.
    pub fn bytes<'a>(&self, s: &'a Blocks) -> (b: &'a [u8])
        requires
            self.fits_in(*s),
        ensures
            b@ == self.text(*s),
    {
        proof {
            lemma_payload_spans_the_capacity(*s, self.block);
        }
        vstd::slice::slice_subrange(s.bytes(self.block), 0, self.len as usize)
    }

    /// The number of characters: the byte length when the text is all
    /// ASCII, else one per octet that starts a character — which is the
    /// number of characters the octets encode.
    pub fn char_len(&self, s: &Blocks) -> (n: usize)
        requires
            self.fits_in(*s),
        ensures
            n == char_count(self.text(*s)),
            forall|cs: Seq<char>| #[trigger] utf8_text(cs) == self.text(*s) ==> n == cs.len(),
    {
        proof {
            assert forall|cs: Seq<char>| #[trigger] utf8_text(cs) == self.text(*s) implies char_count(self.text(*s)) == cs.len() by {
                lemma_count_of_encoding(cs);
            }
        }
        if self.ascii {
            proof {
                lemma_payload_spans_the_capacity(*s, self.block);
                lemma_ascii_counts_every_octet(self.text(*s));
            }
            return self.len as usize;
        }
        count_chars(self.bytes(s))
    }

    /// In-place append into room the caller has already reserved; the
    /// ASCII flag survives only if the new octets are ASCII too.
    pub fn append(&mut self, s: &mut Blocks, extra: &[u8])
        requires
            old(self).fits_in(*old(s)),
            old(self).len + extra@.len() <= old(self).cap,
            valid_utf8(extra@),
        ensures
            final(self).fits_in(*final(s)),
            final(self).text(*final(s)) == old(self).text(*old(s)) + extra@,
            final(self).block == old(self).block,
            final(self).cap == old(self).cap,
            final(self).ascii == (old(self).ascii && all_ascii(extra@)),
            final(s).cached() == old(s).cached(),
            forall|x: Block| x != old(self).block ==> #[trigger] final(s).keeps(*old(s), x),
    {
        let extra_ascii = octets_are_ascii(extra);
        let ghost before = self.text(*s);
        let ghost op = s.payload(self.block);
        let ghost n0 = self.len as int;
        proof {
            lemma_payload_spans_the_capacity(*s, self.block);
        }
        s.write(self.block, self.len as usize, extra);
        proof {
            let p1 = s.payload(self.block);
            assert(p1.subrange(0, n0 + extra@.len()) =~= op.subrange(0, n0) + extra@);
        }
        self.len = self.len + extra.len() as u32;
        self.ascii = self.ascii && extra_ascii;
        proof {
            lemma_payload_spans_the_capacity(*s, self.block);
            let after = before + extra@;
            assert(self.text(*s) =~= after);
            lemma_valid_concat(before, extra@);
            if all_ascii(before) && all_ascii(extra@) {
                assert forall|i: int| 0 <= i < after.len() implies #[trigger] after[i] < 128 by {
                    if i < before.len() {
                        assert(after[i] == before[i]);
                    } else {
                        assert(after[i] == extra@[i - before.len()]);
                    }
                }
            }
            if !all_ascii(before) {
                let j = choose|j: int| 0 <= j < before.len() && !(before[j] < 128);
                assert(after[j] == before[j]);
            }
            if !all_ascii(extra@) {
                let j = choose|j: int| 0 <= j < extra@.len() && !(extra@[j] < 128);
                assert(after[before.len() + j] == extra@[j]);
            }
        }
    }
}

/// The payload shape of a heap cell.
#[derive(Clone, Copy, Debug, PartialEq, Eq, Structural)]
pub enum CellKind {
    Str,
    Array,
    StrView,
    ArrView,
    Enum,
    Record,
    Closure,
    Trace,
    StrBuf,
}

/// The window intercept for a field write: an array view is fixed-length,
/// so no field of it can be written; every other cell passes.
pub fn window_setf_trap(cell: CellKind) -> (r: Option<Trap>)
    ensures
        match r {
            Some(t) => cell == CellKind::ArrView && t.kind == TrapKind::Invalid && t.msg@
                == "an array view is fixed-length — copy the elements out to grow or shrink"@,
            None => cell != CellKind::ArrView,
        },
{
    if cell == CellKind::ArrView {
        return Some(
            Trap::new(
                TrapKind::Invalid,
                "an array view is fixed-length — copy the elements out to grow or shrink".to_owned(),
            ),
        );
    }
    None
}

} // verus!
