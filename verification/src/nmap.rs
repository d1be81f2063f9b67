//! The native key table: a map from a closed set of key flavors (integer
//! and bool bits, `str`, `bytes`) to stable birth handles and value slots.
use vstd::prelude::*;
use crate::trap::{Trap, TrapKind};
use crate::cell::{PrimTy, prim_is_int, prim_name};
use crate::text::{push_str, push_i32, push_i64, push_u64, dec_int, dec_digits};
use vstd::utf8::{valid_utf8, is_char_boundary};
use vstd::string::StringSliceAdditionalSpecFns;

verus! {

/// Which payload flavor a table stores — fixed by the first inserted key.
#[derive(Clone, Copy, Debug, PartialEq, Eq, Structural)]
pub enum KeyKind {
    /// nothing stored yet
    Unset,
    /// integer primitives and `bool`: equality is the payload bits
    Bits,
    /// `str`: equality is content equality
    Str,
    /// `bytes`: equality is content equality
    Bytes,
}

/// A stored key, as owned data.
#[derive(Clone, Debug)]
pub enum KeyVal {
    /// the slot word's raw bits (negative integers sign-extended)
    Bits(u64),
    /// an owned `str` copy
    Str(String),
    /// an owned `bytes` copy
    Bytes(Vec<u8>),
}

/// The mathematical content of a key: what it says, never where it lives.
pub enum KeyModel {
    Bits(u64),
    Str(Seq<char>),
    Bytes(Seq<u8>),
}

impl View for KeyVal {
    type V = KeyModel;

    open spec fn view(&self) -> KeyModel {
        match self {
            KeyVal::Bits(v) => KeyModel::Bits(*v),
            KeyVal::Str(s) => KeyModel::Str(s@),
            KeyVal::Bytes(b) => KeyModel::Bytes(b@),
        }
    }
}

/// The flavor of a key's content.
pub open spec fn model_kind(k: KeyModel) -> KeyKind {
    match k {
        KeyModel::Bits(_) => KeyKind::Bits,
        KeyModel::Str(_) => KeyKind::Str,
        KeyModel::Bytes(_) => KeyKind::Bytes,
    }
}

/// The key's flavor: every integer primitive and `bool` share `Bits`.
pub fn kind_of(key: &KeyVal) -> (k: KeyKind)
    ensures
        k == model_kind(key@),
{
    match key {
        KeyVal::Bits(_) => KeyKind::Bits,
        KeyVal::Str(_) => KeyKind::Str,
        KeyVal::Bytes(_) => KeyKind::Bytes,
    }
}

/// FNV-1a 64's offset basis.
pub const FNV_OFFSET: u64 = 14695981039346656037;
/// FNV-1a 64's prime.
pub const FNV_PRIME: u64 = 1099511628211;

/// Multiplication modulo 2^64.
pub open spec fn mul_wrap(x: u64, y: u64) -> u64 {
    ((x as nat * y as nat) % 0x1_0000_0000_0000_0000nat) as u64
}

/// One FNV-1a round: xor the octet in, multiply by the prime.
pub open spec fn fnv_round(h: u64, b: u8) -> u64 {
    mul_wrap(h ^ (b as u64), FNV_PRIME)
}

/// FNV-1a 64 over an octet sequence.
pub open spec fn fnv1a(bytes: Seq<u8>) -> u64
    decreases bytes.len(),
{
    if bytes.len() == 0 {
        FNV_OFFSET
    } else {
        fnv_round(fnv1a(bytes.drop_last()), bytes.last())
    }
}

/// The one-word mix for integer and bool bits.
pub open spec fn mix64(bits: u64) -> u64 {
    mul_wrap(FNV_OFFSET ^ bits, FNV_PRIME)
}

/// The payload hash of a key's content.
pub open spec fn payload_hash(k: KeyModel) -> u64 {
    match k {
        KeyModel::Bits(v) => mix64(v),
        KeyModel::Str(s) => fnv1a(vstd::utf8::encode_utf8(s)),
        KeyModel::Bytes(b) => fnv1a(b),
    }
}

/// FNV-1a 64 over an octet range: the one `str`/`bytes` hasher.
pub fn hash_bytes(bytes: &[u8]) -> (h: u64)
    ensures
        h == fnv1a(bytes@),
{
    let mut h: u64 = FNV_OFFSET;
    let mut i: usize = 0;
    while i < bytes.len()
        invariant
            i <= bytes@.len(),
            h == fnv1a(bytes@.subrange(0, i as int)),
        decreases bytes@.len() - i,
    {
        assert(bytes@.subrange(0, i as int + 1).drop_last() =~= bytes@.subrange(0, i as int));
        h = (h ^ bytes[i] as u64).wrapping_mul(FNV_PRIME);
        i += 1;
    }
    assert(bytes@.subrange(0, i as int) =~= bytes@);
    h
}

/// The payload hasher: mix64 for the bits lane, FNV-1a 64 over the octets
/// for `str` and `bytes`.
pub fn hash_payload(k: &KeyVal) -> (h: u64)
    ensures
        h == payload_hash(k@),
{
    match k {
        KeyVal::Bits(v) => (FNV_OFFSET ^ *v).wrapping_mul(FNV_PRIME),
        KeyVal::Str(s) => hash_bytes(s.as_str().as_bytes()),
        KeyVal::Bytes(b) => hash_bytes(b.as_slice()),
    }
}


/// The packed put answer: bit 0 is the newly bit, the rest the handle.
pub open spec fn packed(hd: int, newly: bool) -> int {
    2 * hd + if newly { 1int } else { 0int }
}

/// The packed `hput` answer: `(handle << 1) | newly`.
pub fn pack_answer(hd: i32, newly: bool) -> (ans: i64)
    ensures
        ans == packed(hd as int, newly),
{
    let h = hd as i64;
    let b: i64 = if newly { 1 } else { 0 };
    let r = (h << 1u32) | b;
    assert(r == 2 * h + b) by (bit_vector)
        requires
            -0x8000_0000 <= h < 0x8000_0000,
            b == 0 || b == 1,
            r == (h << 1u32) | b,
    ;
    r
}

/// A window `[off, off + len)` of the octets `pb` is well-formed: inside
/// the parent, both ends on codepoint boundaries.
pub open spec fn sv_window_ok(pb: Seq<u8>, off: int, len: int) -> bool {
    &&& 0 <= off
    &&& 0 <= len
    &&& off + len <= pb.len()
    &&& is_char_boundary(pb, off)
    &&& is_char_boundary(pb, off + len)
}

/// The trap text for a refused window over the octets `pb`.
pub open spec fn sv_refusal(pb: Seq<u8>, off: int, len: int) -> Seq<char> {
    let plen = dec_digits(pb.len());
    if off < 0 || len < 0 {
        "nmap: sv range off "@ + dec_int(off) + " len "@ + dec_int(len)
            + " out of range (parent "@ + plen + " bytes)"@
    } else if off + len > pb.len() {
        "nmap: sv range ["@ + dec_int(off) + ".."@ + dec_int(off + len)
            + "] out of range (parent "@ + plen + " bytes)"@
    } else if !is_char_boundary(pb, off) {
        "nmap: sv offset "@ + dec_int(off) + " is not a UTF-8 boundary (parent "@ + plen
            + " bytes)"@
    } else {
        "nmap: sv end offset "@ + dec_int(off + len) + " is not a UTF-8 boundary (parent "@
            + plen + " bytes)"@
    }
}

proof fn lemma_boundary_in_prefix(b: Seq<u8>, hi: int, i: int)
    requires
        valid_utf8(b),
        is_char_boundary(b, hi),
        is_char_boundary(b, i),
        0 <= i <= hi <= b.len(),
    ensures
        valid_utf8(b.subrange(0, hi)),
        is_char_boundary(b.subrange(0, hi), i),
{
    vstd::utf8::valid_utf8_split(b, hi);
    let head = b.subrange(0, hi);
    if i == hi {
        vstd::utf8::is_char_boundary_start_end_of_seq(head);
    } else {
        vstd::utf8::is_char_boundary_iff_not_is_continuation_byte(b, i);
        vstd::utf8::is_char_boundary_iff_not_is_continuation_byte(head, i);
    }
}

/// The sv lanes' window check: `off`/`len` are byte offsets into the
/// parent's octets; the window must lie inside the parent and both ends
/// must sit on UTF-8 codepoint boundaries. Anything else is an `Invalid`
/// trap, never a silent mis-read.
pub fn sv_range<'a>(parent: &'a str, off: i32, len: i32) -> (r: Result<&'a str, Trap>)
    ensures
        match r {
            Ok(w) => sv_window_ok(parent.spec_bytes(), off as int, len as int)
                && w.spec_bytes() == parent.spec_bytes().subrange(off as int, off + len),
            Err(t) => !sv_window_ok(parent.spec_bytes(), off as int, len as int)
                && t.kind == TrapKind::Invalid
                && t.msg@ == sv_refusal(parent.spec_bytes(), off as int, len as int),
        },
{
    let ghost pb = parent.spec_bytes();
    let plen = parent.as_bytes().len();
    let end: i64 = off as i64 + len as i64;
    if off < 0 || len < 0 {
        let mut m = String::new();
        push_str(&mut m, "nmap: sv range off ");
        push_i32(&mut m, off);
        push_str(&mut m, " len ");
        push_i32(&mut m, len);
        push_str(&mut m, " out of range (parent ");
        push_u64(&mut m, plen as u64);
        push_str(&mut m, " bytes)");
        assert(m@ =~= sv_refusal(pb, off as int, len as int));
        return Err(Trap::new(TrapKind::Invalid, m));
    }
    let o = off as usize;
    let l = len as usize;
    if o + l > plen {
        let mut m = String::new();
        push_str(&mut m, "nmap: sv range [");
        push_i32(&mut m, off);
        push_str(&mut m, "..");
        push_i64(&mut m, end);
        push_str(&mut m, "] out of range (parent ");
        push_u64(&mut m, plen as u64);
        push_str(&mut m, " bytes)");
        assert(m@ =~= sv_refusal(pb, off as int, len as int));
        return Err(Trap::new(TrapKind::Invalid, m));
    }
    if !parent.is_char_boundary(o) {
        let mut m = String::new();
        push_str(&mut m, "nmap: sv offset ");
        push_i32(&mut m, off);
        push_str(&mut m, " is not a UTF-8 boundary (parent ");
        push_u64(&mut m, plen as u64);
        push_str(&mut m, " bytes)");
        assert(m@ =~= sv_refusal(pb, off as int, len as int));
        return Err(Trap::new(TrapKind::Invalid, m));
    }
    if !parent.is_char_boundary(o + l) {
        let mut m = String::new();
        push_str(&mut m, "nmap: sv end offset ");
        push_i64(&mut m, end);
        push_str(&mut m, " is not a UTF-8 boundary (parent ");
        push_u64(&mut m, plen as u64);
        push_str(&mut m, " bytes)");
        assert(m@ =~= sv_refusal(pb, off as int, len as int));
        return Err(Trap::new(TrapKind::Invalid, m));
    }
    proof {
        vstd::utf8::encode_utf8_valid_utf8(parent@);
        lemma_boundary_in_prefix(pb, (o + l) as int, o as int);
    }
    let (head, _) = parent.split_at(o + l);
    let (_, w) = head.split_at(o);
    assert(w.spec_bytes() =~= pb.subrange(off as int, off + len));
    Ok(w)
}


/// One entry's value storage: a birth holds `Empty` until a valued lane
/// fills it; `Bits` is an untagged 8-byte prim value, `Ref` a reference
/// value's cell handle (one reference held by the table).
#[derive(Clone, Copy, Debug, PartialEq, Eq, Structural)]
pub enum ValSlot {
    Empty,
    Bits(u64),
    Ref(u64),
}

/// A stored entry: the key, its stable birth handle, and its value.
pub struct Entry {
    pub key: KeyVal,
    pub handle: i32,
    pub val: ValSlot,
}

/// What the table says of one key: its handle and its value.
pub type EntryView = (i32, ValSlot);

/// The map an entry sequence stands for (later entries win, though a
/// well-formed table never holds a key twice).
pub open spec fn map_of(s: Seq<Entry>) -> Map<KeyModel, EntryView>
    decreases s.len(),
{
    if s.len() == 0 {
        Map::empty()
    } else {
        map_of(s.drop_last()).insert(s.last().key@, (s.last().handle, s.last().val))
    }
}

/// No key occurs twice.
pub open spec fn keys_distinct(s: Seq<Entry>) -> bool {
    forall|i: int, j: int| 0 <= i < j < s.len() ==> s[i].key@ != s[j].key@
}

/// No handle occurs twice.
pub open spec fn handles_distinct(s: Seq<Entry>) -> bool {
    forall|i: int, j: int| 0 <= i < j < s.len() ==> s[i].handle != s[j].handle
}

/// How many entries hold a reference to cell `c`.
pub open spec fn count_refs(s: Seq<Entry>, c: u64) -> nat
    decreases s.len(),
{
    if s.len() == 0 {
        0
    } else {
        count_refs(s.drop_last(), c) + if s.last().val == ValSlot::Ref(c) { 1nat } else { 0nat }
    }
}

/// Whether a value is a reference to `c` (one, or none).
pub open spec fn refs_to(v: ValSlot, c: u64) -> nat {
    if v == ValSlot::Ref(c) {
        1
    } else {
        0
    }
}

/// How often `c` occurs in a list of cells.
pub open spec fn count_cells(s: Seq<u64>, c: u64) -> nat
    decreases s.len(),
{
    if s.len() == 0 {
        0
    } else {
        count_cells(s.drop_last(), c) + if s.last() == c { 1nat } else { 0nat }
    }
}

proof fn lemma_count_refs_update(s: Seq<Entry>, i: int, e: Entry, c: u64)
    requires
        0 <= i < s.len(),
    ensures
        count_refs(s.update(i, e), c) + refs_to(s[i].val, c) == count_refs(s, c) + refs_to(e.val, c),
    decreases s.len(),
{
    let u = s.update(i, e);
    if i == s.len() - 1 {
        assert(u.drop_last() =~= s.drop_last());
    } else {
        assert(u.drop_last() =~= s.drop_last().update(i, e));
        lemma_count_refs_update(s.drop_last(), i, e, c);
    }
}

proof fn lemma_count_refs_remove(s: Seq<Entry>, i: int, c: u64)
    requires
        0 <= i < s.len(),
    ensures
        count_refs(s.remove(i), c) + refs_to(s[i].val, c) == count_refs(s, c),
    decreases s.len(),
{
    let u = s.remove(i);
    if i == s.len() - 1 {
        assert(u =~= s.drop_last());
    } else {
        assert(u.drop_last() =~= s.drop_last().remove(i));
        lemma_count_refs_remove(s.drop_last(), i, c);
    }
}

proof fn lemma_count_refs_push(s: Seq<Entry>, e: Entry, c: u64)
    ensures
        count_refs(s.push(e), c) == count_refs(s, c) + refs_to(e.val, c),
{
    assert(s.push(e).drop_last() =~= s);
}

proof fn lemma_map_of(s: Seq<Entry>)
    requires
        keys_distinct(s),
    ensures
        forall|k: KeyModel| #[trigger] map_of(s).dom().contains(k) <==> exists|j: int|
            0 <= j < s.len() && s[j].key@ == k,
        forall|j: int|
            0 <= j < s.len() ==> #[trigger] map_of(s)[s[j].key@] == (s[j].handle, s[j].val),
        map_of(s).dom().finite(),
        map_of(s).len() == s.len(),
    decreases s.len(),
{
    if s.len() > 0 {
        let t = s.drop_last();
        assert(keys_distinct(t));
        lemma_map_of(t);
        let n = s.len() - 1;
        assert forall|k: KeyModel| #[trigger] map_of(s).dom().contains(k) <==> exists|j: int|
            0 <= j < s.len() && s[j].key@ == k by {
            if map_of(s).dom().contains(k) {
                if k == s.last().key@ {
                    assert(s[n].key@ == k);
                } else {
                    let j = choose|j: int| 0 <= j < t.len() && t[j].key@ == k;
                    assert(s[j].key@ == k);
                }
            }
            if exists|j: int| 0 <= j < s.len() && s[j].key@ == k {
                let j = choose|j: int| 0 <= j < s.len() && s[j].key@ == k;
                if j < n {
                    assert(t[j].key@ == k);
                }
            }
        }
        assert forall|j: int| 0 <= j < s.len() implies #[trigger] map_of(s)[s[j].key@] == (
        s[j].handle, s[j].val) by {
            if j < n {
                assert(t[j] == s[j]);
                assert(s[j].key@ != s[n].key@);
            }
        }
        assert(!map_of(t).dom().contains(s.last().key@)) by {
            if map_of(t).dom().contains(s.last().key@) {
                let j = choose|j: int| 0 <= j < t.len() && t[j].key@ == s.last().key@;
                assert(s[j].key@ == s[n].key@);
            }
        }
    }
}

proof fn lemma_map_of_remove(s: Seq<Entry>, i: int)
    requires
        keys_distinct(s),
        0 <= i < s.len(),
    ensures
        keys_distinct(s.remove(i)),
        map_of(s.remove(i)) == map_of(s).remove(s[i].key@),
{
    let t = s.remove(i);
    assert forall|a: int, b: int| 0 <= a < b < t.len() implies t[a].key@ != t[b].key@ by {
        let a2 = if a < i { a } else { a + 1 };
        let b2 = if b < i { b } else { b + 1 };
        assert(t[a] == s[a2] && t[b] == s[b2]);
    }
    lemma_map_of(s);
    lemma_map_of(t);
    let m = map_of(s).remove(s[i].key@);
    assert forall|k: KeyModel| #[trigger] map_of(t).dom().contains(k) <==> m.dom().contains(k) by {
        if map_of(t).dom().contains(k) {
            let j = choose|j: int| 0 <= j < t.len() && t[j].key@ == k;
            let j2 = if j < i { j } else { j + 1 };
            assert(s[j2].key@ == k);
            assert(map_of(s).dom().contains(k));
        }
        if m.dom().contains(k) {
            let j = choose|j: int| 0 <= j < s.len() && s[j].key@ == k;
            assert(j != i);
            let j2 = if j < i { j } else { j - 1 };
            assert(t[j2].key@ == k);
        }
    }
    assert forall|k: KeyModel| #[trigger] map_of(t).dom().contains(k) implies map_of(t)[k] == m[k] by {
        let j = choose|j: int| 0 <= j < t.len() && t[j].key@ == k;
        let j2 = if j < i { j } else { j + 1 };
        assert(t[j] == s[j2]);
        assert(map_of(t)[t[j].key@] == (t[j].handle, t[j].val));
        assert(map_of(s)[s[j2].key@] == (s[j2].handle, s[j2].val));
    }
    assert(map_of(t) =~= m);
}

proof fn lemma_map_of_update(s: Seq<Entry>, i: int, e: Entry)
    requires
        keys_distinct(s),
        0 <= i < s.len(),
        e.key@ == s[i].key@,
    ensures
        keys_distinct(s.update(i, e)),
        map_of(s.update(i, e)) == map_of(s).insert(e.key@, (e.handle, e.val)),
{
    let t = s.update(i, e);
    assert forall|a: int, b: int| 0 <= a < b < t.len() implies t[a].key@ != t[b].key@ by {
        assert(t[a].key@ == s[a].key@ && t[b].key@ == s[b].key@);
    }
    lemma_map_of(s);
    lemma_map_of(t);
    let m = map_of(s).insert(e.key@, (e.handle, e.val));
    assert forall|k: KeyModel| #[trigger] map_of(t).dom().contains(k) <==> m.dom().contains(k) by {
        if map_of(t).dom().contains(k) {
            let j = choose|j: int| 0 <= j < t.len() && t[j].key@ == k;
            assert(s[j].key@ == k);
        }
        if m.dom().contains(k) && k != e.key@ {
            let j = choose|j: int| 0 <= j < s.len() && s[j].key@ == k;
            assert(t[j].key@ == k);
        }
        if k == e.key@ {
            assert(t[i].key@ == k);
        }
    }
    assert forall|k: KeyModel| #[trigger] map_of(t).dom().contains(k) implies map_of(t)[k] == m[k] by {
        let j = choose|j: int| 0 <= j < t.len() && t[j].key@ == k;
        assert(map_of(t)[t[j].key@] == (t[j].handle, t[j].val));
        if j != i {
            assert(map_of(s)[s[j].key@] == (s[j].handle, s[j].val));
        }
    }
    assert(map_of(t) =~= m);
}

/// Content equality of two byte strings.
fn bytes_eq(a: &Vec<u8>, b: &Vec<u8>) -> (r: bool)
    ensures
        r == (a@ == b@),
{
    if a.len() != b.len() {
        return false;
    }
    let mut i: usize = 0;
    while i < a.len()
        invariant
            a@.len() == b@.len(),
            i <= a@.len(),
            forall|j: int| 0 <= j < i ==> a@[j] == b@[j],
        decreases a@.len() - i,
    {
        if a[i] != b[i] {
            return false;
        }
        i += 1;
    }
    assert(a@ =~= b@);
    true
}

/// Content equality of two keys.
fn key_eq(a: &KeyVal, b: &KeyVal) -> (r: bool)
    ensures
        r == (a@ == b@),
{
    match a {
        KeyVal::Bits(x) => match b {
            KeyVal::Bits(y) => *x == *y,
            _ => false,
        },
        KeyVal::Str(x) => match b {
            KeyVal::Str(y) => {
                let e = x.eq(y);
                assert(e == (x@ == y@));
                e
            },
            _ => false,
        },
        KeyVal::Bytes(x) => match b {
            KeyVal::Bytes(y) => bytes_eq(x, y),
            _ => false,
        },
    }
}

/// The spelling of a key kind in trap messages.
pub open spec fn kind_text(k: KeyKind) -> Seq<char> {
    match k {
        KeyKind::Unset => "Unset"@,
        KeyKind::Bits => "Bits"@,
        KeyKind::Str => "Str"@,
        KeyKind::Bytes => "Bytes"@,
    }
}

fn push_kind(m: &mut String, k: KeyKind)
    ensures
        final(m)@ == old(m)@ + kind_text(k),
{
    match k {
        KeyKind::Unset => push_str(m, "Unset"),
        KeyKind::Bits => push_str(m, "Bits"),
        KeyKind::Str => push_str(m, "Str"),
        KeyKind::Bytes => push_str(m, "Bytes"),
    }
}

/// The trap text for a crossing whose kind the table refuses.
pub open spec fn mixed_kinds_text(k: KeyKind) -> Seq<char> {
    "nmap: mixed key kinds in one table (table holds "@ + kind_text(k) + " keys)"@
}

/// The native table: entries with content-equal keys collapse to one,
/// each holding a stable birth handle (monotonic, never recycled) and a
/// value slot; plus the admission kind and the birth counter.
pub struct NativeTable {
    entries: Vec<Entry>,
    reserve: usize,
    next_handle: i32,
    kind: KeyKind,
}

impl View for NativeTable {
    type V = Map<KeyModel, EntryView>;

    closed spec fn view(&self) -> Map<KeyModel, EntryView> {
        map_of(self.entries@)
    }
}

impl NativeTable {
    /// The table's admission kind (`Unset` until the first birth).
    pub closed spec fn key_kind(&self) -> KeyKind {
        self.kind
    }

    /// The number of births so far: the next fresh handle.
    pub closed spec fn births(&self) -> int {
        self.next_handle as int
    }

    /// How many entries hold a reference to cell `c`.
    pub closed spec fn ref_count(&self, c: u64) -> nat {
        count_refs(self.entries@, c)
    }

    /// The capacity requested at construction.
    pub closed spec fn reserved(&self) -> nat {
        self.reserve as nat
    }

    /// Internal consistency: keys and handles are unique, every handle is
    /// a past birth.
    pub closed spec fn wf(&self) -> bool {
        &&& keys_distinct(self.entries@)
        &&& handles_distinct(self.entries@)
        &&& forall|i: int|
            0 <= i < self.entries@.len() ==> 0 <= #[trigger] self.entries@[i].handle
                < self.next_handle
        &&& self.entries@.len() <= self.next_handle
        &&& 0 <= self.next_handle
        &&& self.reserve <= i32::MAX
    }

    /// Whether a crossing of `kind` is admitted: homogeneous per table.
    pub open spec fn admits(&self, kind: KeyKind) -> bool {
        self.key_kind() == KeyKind::Unset || self.key_kind() == kind
    }

    /// Every live handle is a past birth, and no two keys share one.
    pub proof fn lemma_handles(&self)
        requires
            self.wf(),
        ensures
            forall|k: KeyModel| #[trigger] self@.contains_key(k) ==> 0 <= self@[k].0 < self.births(),
            forall|k1: KeyModel, k2: KeyModel|
                #[trigger] self@.contains_key(k1) && #[trigger] self@.contains_key(k2) && k1 != k2
                    ==> self@[k1].0 != self@[k2].0,
            self@.dom().finite(),
            self@.len() <= self.births(),
    {
        lemma_map_of(self.entries@);
        let s = self.entries@;
        assert forall|k: KeyModel| #[trigger] self@.contains_key(k) implies 0 <= self@[k].0
            < self.births() by {
            let j = choose|j: int| 0 <= j < s.len() && s[j].key@ == k;
            assert(self@[s[j].key@] == (s[j].handle, s[j].val));
        }
        assert forall|k1: KeyModel, k2: KeyModel|
            #[trigger] self@.contains_key(k1) && #[trigger] self@.contains_key(k2) && k1 != k2
                implies self@[k1].0 != self@[k2].0 by {
            let a = choose|j: int| 0 <= j < s.len() && s[j].key@ == k1;
            let b = choose|j: int| 0 <= j < s.len() && s[j].key@ == k2;
            assert(self@[s[a].key@] == (s[a].handle, s[a].val));
            assert(self@[s[b].key@] == (s[b].handle, s[b].val));
            if a < b {
            } else {
                assert(a != b);
            }
        }
    }

    /// A table with room for at least `cap` entries (negative asks for
    /// none; the hint is clamped to `i32::MAX`).
    pub fn new(cap: i64) -> (t: NativeTable)
        ensures
            t.wf(),
            t@ == Map::<KeyModel, EntryView>::empty(),
            t.births() == 0,
            t.key_kind() == KeyKind::Unset,
            t.reserved() == (if cap < 0 { 0 } else if cap > i32::MAX { i32::MAX as int } else { cap as int }),
    {
        let c: usize = if cap < 0 {
            0
        } else if cap > i32::MAX as i64 {
            i32::MAX as usize
        } else {
            cap as usize
        };
        NativeTable { entries: Vec::with_capacity(c), reserve: c, next_handle: 0, kind: KeyKind::Unset }
    }

    /// The capacity at the i32 boundary: at least the requested reserve
    /// and at least the live entry count.
    pub fn cap(&self) -> (c: i32)
        requires
            self.wf(),
        ensures
            c as int == (if self.reserved() >= self@.len() { self.reserved() as int } else { self@.len() as int }),
            c >= self@.len(),
            c >= self.reserved(),
    {
        proof {
            lemma_map_of(self.entries@);
        }
        if self.reserve >= self.entries.len() {
            self.reserve as i32
        } else {
            self.entries.len() as i32
        }
    }

    /// The live entry count.
    pub fn len(&self) -> (n: i32)
        requires
            self.wf(),
        ensures
            n == self@.len(),
    {
        proof {
            lemma_map_of(self.entries@);
        }
        self.entries.len() as i32
    }

    /// The table's admission kind.
    pub fn kind(&self) -> (k: KeyKind)
        ensures
            k == self.key_kind(),
    {
        self.kind
    }

    /// Kind admission: a mismatch is a host/wrapper bug and traps instead
    /// of silently missing.
    fn admission(&self, kind: KeyKind) -> (r: Result<(), Trap>)
        ensures
            r is Ok <==> self.admits(kind),
            r matches Err(t) ==> t.kind == TrapKind::Invalid && t.msg@ == mixed_kinds_text(kind),
    {
        if self.kind != KeyKind::Unset && self.kind != kind {
            let mut m = String::new();
            push_str(&mut m, "nmap: mixed key kinds in one table (table holds ");
            push_kind(&mut m, kind);
            push_str(&mut m, " keys)");
            return Err(Trap::new(TrapKind::Invalid, m));
        }
        Ok(())
    }

    /// The admission check the valued put lanes run before decoding (and
    /// retaining) a value.
    pub fn check_kind(&self, kind: KeyKind) -> (r: Result<(), Trap>)
        ensures
            r is Ok <==> self.admits(kind),
            r matches Err(t) ==> t.kind == TrapKind::Invalid && t.msg@ == mixed_kinds_text(kind),
    {
        self.admission(kind)
    }

    /// The position of the entry holding `key`, if any.
    fn find(&self, key: &KeyVal) -> (r: Option<usize>)
        requires
            self.wf(),
        ensures
            match r {
                Some(i) => i < self.entries@.len() && self.entries@[i as int].key@ == key@,
                None => !self@.contains_key(key@),
            },
    {
        proof {
            lemma_map_of(self.entries@);
        }
        let mut i: usize = 0;
        while i < self.entries.len()
            invariant
                i <= self.entries@.len(),
                forall|j: int| 0 <= j < i ==> self.entries@[j].key@ != key@,
            decreases self.entries@.len() - i,
        {
            if key_eq(&self.entries[i].key, key) {
                return Some(i);
            }
            i += 1;
        }
        None
    }
}


/// The table after a fresh birth of `k` holding `v`: the next handle is
/// taken, and the first birth fixes the table's kind.
pub open spec fn is_fresh_birth(
    old: NativeTable,
    new: NativeTable,
    kind: KeyKind,
    k: KeyModel,
    v: ValSlot,
) -> bool {
    &&& new@ == old@.insert(k, (old.births() as i32, v))
    &&& new.births() == old.births() + 1
    &&& new.key_kind() == (if old.key_kind() == KeyKind::Unset { kind } else { old.key_kind() })
}

/// The table's births and kind are as before (its map may differ).
pub open spec fn keeps_births_and_kind(old: NativeTable, new: NativeTable) -> bool {
    &&& new.births() == old.births()
    &&& new.key_kind() == old.key_kind()
    &&& new.reserved() == old.reserved()
}

/// A refused crossing: the mixed-kinds trap, nothing stored.
pub open spec fn is_kind_refusal(old: NativeTable, new: NativeTable, kind: KeyKind, t: Trap) -> bool {
    &&& !old.admits(kind)
    &&& t.kind == TrapKind::Invalid
    &&& t.msg@ == mixed_kinds_text(kind)
    &&& new@ == old@
    &&& keeps_births_and_kind(old, new)
}

/// What `hput` answers and does: an existing key answers its own handle
/// with `newly = false` and changes nothing; a fresh key is a new birth
/// holding the `Empty` placeholder, answered with `newly = true`; a
/// refused kind traps and changes nothing.
pub open spec fn put_outcome(
    old: NativeTable,
    new: NativeTable,
    kind: KeyKind,
    k: KeyModel,
    r: Result<i64, Trap>,
) -> bool {
    match r {
        Err(t) => is_kind_refusal(old, new, kind, t),
        Ok(ans) => old.admits(kind) && if old@.contains_key(k) {
            &&& ans == packed(old@[k].0 as int, false)
            &&& new@ == old@
            &&& keeps_births_and_kind(old, new)
        } else {
            &&& ans == packed(old.births(), true)
            &&& is_fresh_birth(old, new, kind, k, ValSlot::Empty)
        },
    }
}

/// What `hfind` answers: the key's handle, `-1` when absent, or the
/// mixed-kinds trap.
pub open spec fn find_outcome(t: NativeTable, kind: KeyKind, k: KeyModel, r: Result<i32, Trap>) -> bool {
    match r {
        Err(e) => !t.admits(kind) && e.kind == TrapKind::Invalid && e.msg@ == mixed_kinds_text(kind),
        Ok(h) => t.admits(kind) && h == (if t@.contains_key(k) {
            t@[k].0 as int
        } else {
            -1int
        }),
    }
}

/// What `hremove` answers and does: a present key leaves the table and
/// answers its handle and held value; an absent key answers `-1` and
/// `Empty`; a refused kind traps. Births and kind never change.
pub open spec fn remove_outcome(
    old: NativeTable,
    new: NativeTable,
    kind: KeyKind,
    k: KeyModel,
    r: Result<(i32, ValSlot), Trap>,
) -> bool {
    &&& keeps_births_and_kind(old, new)
    &&& match r {
        Err(t) => is_kind_refusal(old, new, kind, t),
        Ok((h, v)) => old.admits(kind) && if old@.contains_key(k) {
            &&& (h, v) == old@[k]
            &&& new@ == old@.remove(k)
        } else {
            &&& h == -1
            &&& v == ValSlot::Empty
            &&& new@ == old@
        },
    }
}

impl NativeTable {
    /// The fused put: an existing key answers its own handle with
    /// `newly = false` and stores nothing new; a fresh key takes the next
    /// birth handle with the `Empty` placeholder and `newly = true`. The
    /// answer is packed as `(handle << 1) | newly`.
    pub fn hput(&mut self, kind: KeyKind, key: KeyVal) -> (r: Result<i64, Trap>)
        requires
            old(self).wf(),
            old(self).births() < i32::MAX || !old(self).admits(kind) || old(self)@.contains_key(key@),
        ensures
            final(self).wf(),
            final(self).reserved() == old(self).reserved(),
            put_outcome(*old(self), *final(self), kind, key@, r),
            forall|c: u64| #[trigger] final(self).ref_count(c) == old(self).ref_count(c),
    {
        if let Err(t) = self.admission(kind) {
            return Err(t);
        }
        match self.find(&key) {
            Some(i) => {
                proof {
                    lemma_map_of(self.entries@);
                }
                Ok(pack_answer(self.entries[i].handle, false))
            },
            None => {
                let handle = self.birth(kind, key, ValSlot::Empty);
                Ok(pack_answer(handle, true))
            },
        }
    }

    /// Appends a fresh entry for an absent key under the next birth handle.
    fn birth(&mut self, kind: KeyKind, key: KeyVal, val: ValSlot) -> (handle: i32)
        requires
            old(self).wf(),
            old(self).births() < i32::MAX,
            !old(self)@.contains_key(key@),
        ensures
            final(self).wf(),
            final(self).reserved() == old(self).reserved(),
            handle == old(self).births(),
            is_fresh_birth(*old(self), *final(self), kind, key@, val),
            forall|c: u64| #[trigger] final(self).ref_count(c) == old(self).ref_count(c) + refs_to(val, c),
    {
        proof {
            lemma_map_of(self.entries@);
        }
        if self.kind == KeyKind::Unset {
            self.kind = kind;
        }
        let handle = self.next_handle;
        self.next_handle = handle + 1;
        let ghost s = self.entries@;
        let ghost k = key@;
        self.entries.push(Entry { key, handle, val });
        proof {
            assert forall|c: u64| #[trigger] count_refs(self.entries@, c) == count_refs(s, c) + refs_to(val, c) by {
                assert(self.entries@ == s.push(self.entries@.last()));
                lemma_count_refs_push(s, self.entries@.last(), c);
            }
            let t = self.entries@;
            assert(t.drop_last() =~= s);
            assert forall|a: int, b: int| 0 <= a < b < t.len() implies t[a].key@ != t[b].key@ by {
                if b == s.len() {
                    assert(t[a] == s[a]);
                    assert(map_of(s)[s[a].key@] == (s[a].handle, s[a].val));
                }
            }
            assert forall|a: int, b: int| 0 <= a < b < t.len() implies t[a].handle != t[b].handle by {
                if b == s.len() {
                    assert(t[a] == s[a]);
                }
            }
            assert forall|i: int| 0 <= i < t.len() implies 0 <= #[trigger] t[i].handle
                < self.next_handle by {
                if i < s.len() {
                    assert(t[i] == s[i]);
                }
            }
        }
        handle
    }

    /// The fused lookup: the key's handle, or `-1` when absent.
    pub fn hfind(&self, kind: KeyKind, key: &KeyVal) -> (r: Result<i32, Trap>)
        requires
            self.wf(),
        ensures
            find_outcome(*self, kind, key@, r),
    {
        if let Err(t) = self.admission(kind) {
            return Err(t);
        }
        proof {
            lemma_map_of(self.entries@);
        }
        match self.find(key) {
            Some(i) => Ok(self.entries[i].handle),
            None => Ok(-1),
        }
    }

    /// The fused remove: the entry leaves the table and its handle
    /// answers (or `-1` when absent), together with the value it held, so
    /// the caller can release a held cell. The handle is never recycled:
    /// a re-insert is a new birth.
    pub(crate) fn take_key(&mut self, kind: KeyKind, key: &KeyVal) -> (r: Result<(i32, ValSlot), Trap>)
        requires
            old(self).wf(),
        ensures
            final(self).wf(),
            remove_outcome(*old(self), *final(self), kind, key@, r),
            match r {
                Ok((_, d)) => forall|c: u64| #[trigger] final(self).ref_count(c) + refs_to(d, c) == old(self).ref_count(c),
                Err(_) => forall|c: u64| #[trigger] final(self).ref_count(c) == old(self).ref_count(c),
            },
    {
        if let Err(t) = self.admission(kind) {
            return Err(t);
        }
        proof {
            lemma_map_of(self.entries@);
        }
        match self.find(key) {
            Some(i) => {
                let ghost s = self.entries@;
                let e = self.entries.remove(i);
                proof {
                    assert forall|c: u64| #[trigger] count_refs(self.entries@, c) + refs_to(e.val, c) == count_refs(s, c) by {
                        lemma_count_refs_remove(s, i as int, c);
                    }
                    lemma_map_of_remove(s, i as int);
                    let t = self.entries@;
                    assert forall|a: int, b: int| 0 <= a < b < t.len() implies t[a].handle
                        != t[b].handle by {
                        let a2 = if a < i { a } else { a + 1 };
                        let b2 = if b < i { b } else { b + 1 };
                        assert(t[a] == s[a2] && t[b] == s[b2]);
                    }
                    assert forall|j: int| 0 <= j < t.len() implies 0 <= #[trigger] t[j].handle
                        < self.next_handle by {
                        let j2 = if j < i { j } else { j + 1 };
                        assert(t[j] == s[j2]);
                    }
                }
                Ok((e.handle, e.val))
            },
            None => Ok((-1, ValSlot::Empty)),
        }
    }

    /// The valued put: an existing key keeps its handle and takes the new
    /// value (`newly = false`), handing back the value it displaced; a
    /// fresh key is a new birth holding `val` (`newly = true`), displacing
    /// nothing (`Empty`). The answer packs like `hput`'s.
    pub(crate) fn put_value(&mut self, kind: KeyKind, key: KeyVal, val: ValSlot) -> (r: Result<(i64, ValSlot), Trap>)
        requires
            old(self).wf(),
            old(self).births() < i32::MAX || !old(self).admits(kind) || old(self)@.contains_key(key@),
        ensures
            final(self).wf(),
            final(self).reserved() == old(self).reserved(),
            r is Err ==> forall|c: u64| #[trigger] final(self).ref_count(c) == old(self).ref_count(c),
            match r {
                Err(t) => is_kind_refusal(*old(self), *final(self), kind, t),
                Ok((ans, displaced)) => (forall|c: u64| #[trigger] final(self).ref_count(c) + refs_to(displaced, c)
                    == old(self).ref_count(c) + refs_to(val, c)) && old(self).admits(kind) && if old(self)@.contains_key(key@) {
                    &&& ans == packed(old(self)@[key@].0 as int, false)
                    &&& displaced == old(self)@[key@].1
                    &&& final(self)@ == old(self)@.insert(key@, (old(self)@[key@].0, val))
                    &&& keeps_births_and_kind(*old(self), *final(self))
                } else {
                    &&& ans == packed(old(self).births(), true)
                    &&& displaced == ValSlot::Empty
                    &&& is_fresh_birth(*old(self), *final(self), kind, key@, val)
                },
            },
    {
        if let Err(t) = self.admission(kind) {
            return Err(t);
        }
        match self.find(&key) {
            Some(i) => {
                proof {
                    lemma_map_of(self.entries@);
                }
                let ghost s = self.entries@;
                let handle = self.entries[i].handle;
                let displaced = self.entries[i].val;
                self.entries[i].val = val;
                proof {
                    assert(self.entries@ =~= s.update(i as int, self.entries@[i as int]));
                    assert forall|c: u64| #[trigger] count_refs(self.entries@, c) + refs_to(displaced, c) == count_refs(s, c)
                        + refs_to(val, c) by {
                        lemma_count_refs_update(s, i as int, self.entries@[i as int], c);
                    }
                    lemma_map_of_update(s, i as int, self.entries@[i as int]);
                    let t = self.entries@;
                    assert forall|a: int, b: int| 0 <= a < b < t.len() implies t[a].handle
                        != t[b].handle by {
                        assert(t[a].handle == s[a].handle && t[b].handle == s[b].handle);
                    }
                    assert forall|j: int| 0 <= j < t.len() implies 0 <= #[trigger] t[j].handle
                        < self.next_handle by {
                        assert(t[j].handle == s[j].handle);
                    }
                }
                Ok((pack_answer(handle, false), displaced))
            },
            None => {
                let handle = self.birth(kind, key, val);
                Ok((pack_answer(handle, true), ValSlot::Empty))
            },
        }
    }

    /// The valued get: the stored value as-is (`None` when the key is
    /// absent). An `Empty` placeholder — a birth that never took a value
    /// — traps loudly instead of answering a silent nil.
    pub fn hvget(&self, kind: KeyKind, key: &KeyVal) -> (r: Result<Option<ValSlot>, Trap>)
        requires
            self.wf(),
        ensures
            match r {
                Err(t) => t.kind == TrapKind::Invalid && if !self.admits(kind) {
                    t.msg@ == mixed_kinds_text(kind)
                } else {
                    &&& self@.contains_key(key@)
                    &&& self@[key@].1 == ValSlot::Empty
                    &&& t.msg@ == empty_read_text(self@[key@].0 as int)
                },
                Ok(None) => self.admits(kind) && !self@.contains_key(key@),
                Ok(Some(v)) => self.admits(kind) && self@.contains_key(key@) && v == self@[key@].1
                    && v != ValSlot::Empty,
            },
    {
        if let Err(t) = self.admission(kind) {
            return Err(t);
        }
        proof {
            lemma_map_of(self.entries@);
        }
        match self.find(key) {
            None => Ok(None),
            Some(i) => {
                let e = &self.entries[i];
                match e.val {
                    ValSlot::Empty => {
                        let mut m = String::new();
                        push_str(&mut m, "nmap: valued get over the `Empty` placeholder (handle ");
                        push_i32(&mut m, e.handle);
                        push_str(
                            &mut m,
                            "; an hput birth holds no value — a valued read of it is a caller bug)",
                        );
                        Err(Trap::new(TrapKind::Invalid, m))
                    },
                    v => Ok(Some(v)),
                }
            },
        }
    }

    /// Whether some live key holds handle `h`.
    pub open spec fn holds_handle(&self, h: int) -> bool {
        exists|k: KeyModel| #[trigger] self@.contains_key(k) && self@[k].0 == h
    }

    /// The birth range check of the raw value lanes.
    pub fn check_birth(&self, handle: i32) -> (r: Result<(), Trap>)
        ensures
            r is Ok <==> 0 <= handle < self.births(),
            r matches Err(t) ==> t.kind == TrapKind::Invalid && t.msg@ == handle_range_text(
                handle as int,
                self.births(),
            ),
    {
        if handle < 0 || handle >= self.next_handle {
            let mut m = String::new();
            push_str(&mut m, "nmap: val handle ");
            push_i32(&mut m, handle);
            push_str(&mut m, " out of range (births ");
            push_i32(&mut m, self.next_handle);
            push_str(&mut m, ")");
            return Err(Trap::new(TrapKind::Invalid, m));
        }
        Ok(())
    }

    /// The position of the live entry holding `handle`: a birth whose key
    /// was removed traps by name.
    fn entry_by_handle(&self, handle: i32) -> (r: Result<usize, Trap>)
        requires
            self.wf(),
        ensures
            match r {
                Ok(i) => i < self.entries@.len() && self.entries@[i as int].handle == handle,
                Err(t) => !self.holds_handle(handle as int) && t.kind == TrapKind::Invalid && (
                if 0 <= handle < self.births() {
                    t.msg@ == dead_handle_text(handle as int, self.births())
                } else {
                    t.msg@ == handle_range_text(handle as int, self.births())
                }),
            },
    {
        proof {
            lemma_map_of(self.entries@);
            self.lemma_handles();
        }
        if let Err(t) = self.check_birth(handle) {
            return Err(t);
        }
        let mut i: usize = 0;
        while i < self.entries.len()
            invariant
                self.wf(),
                i <= self.entries@.len(),
                forall|j: int| 0 <= j < i ==> self.entries@[j].handle != handle,
            decreases self.entries@.len() - i,
        {
            if self.entries[i].handle == handle {
                return Ok(i);
            }
            i += 1;
        }
        proof {
            lemma_map_of(self.entries@);
            let s = self.entries@;
            assert forall|k: KeyModel| #[trigger] self@.contains_key(k) implies self@[k].0
                != handle by {
                let j = choose|j: int| 0 <= j < s.len() && s[j].key@ == k;
                assert(self@[s[j].key@] == (s[j].handle, s[j].val));
            }
        }
        Err(dead_handle_trap(handle, self.next_handle))
    }

    /// The raw value read: the stored bits iff the live key at `handle`
    /// holds `Bits`; the `Empty` placeholder and a held cell trap, never
    /// reinterpret.
    pub fn val_get_u(&self, handle: i32) -> (r: Result<u64, Trap>)
        requires
            self.wf(),
        ensures
            match r {
                Ok(v) => exists|k: KeyModel| #[trigger] self@.contains_key(k) && self@[k] == (
                handle, ValSlot::Bits(v)),
                Err(t) => t.kind == TrapKind::Invalid && if !self.holds_handle(handle as int) {
                    if 0 <= handle < self.births() {
                        t.msg@ == dead_handle_text(handle as int, self.births())
                    } else {
                        t.msg@ == handle_range_text(handle as int, self.births())
                    }
                } else {
                    &&& forall|k: KeyModel| #[trigger] self@.contains_key(k) && self@[k].0 == handle
                        ==> !(self@[k].1 is Bits)
                    &&& t.msg@ == no_bits_text(handle as int)
                },
            },
    {
        let i = match self.entry_by_handle(handle) {
            Ok(i) => i,
            Err(t) => return Err(t),
        };
        proof {
            lemma_map_of(self.entries@);
            self.lemma_handles();
            let s = self.entries@;
            assert(self@[s[i as int].key@] == (s[i as int].handle, s[i as int].val));
            assert(self@.contains_key(s[i as int].key@));
        }
        match self.entries[i].val {
            ValSlot::Bits(v) => Ok(v),
            _ => {
                let mut m = String::new();
                push_str(&mut m, "nmap: val handle ");
                push_i32(&mut m, handle);
                push_str(&mut m, " holds no bits (the h-family placeholder or a reference cell)");
                Err(Trap::new(TrapKind::Invalid, m))
            },
        }
    }

    /// The raw value write: stores `raw` as `Bits` at the live key holding
    /// `handle`, handing back the displaced value (a held cell is the
    /// caller's to release).
    pub(crate) fn swap_value_u(&mut self, handle: i32, raw: u64) -> (r: Result<ValSlot, Trap>)
        requires
            old(self).wf(),
        ensures
            final(self).wf(),
            keeps_births_and_kind(*old(self), *final(self)),
            match r {
                Ok(d) => forall|c: u64| #[trigger] final(self).ref_count(c) + refs_to(d, c) == old(self).ref_count(c),
                Err(_) => forall|c: u64| #[trigger] final(self).ref_count(c) == old(self).ref_count(c),
            },
            match r {
                Ok(d) => exists|k: KeyModel| #[trigger] old(self)@.contains_key(k)
                    && old(self)@[k] == (handle, d)
                    && final(self)@ == old(self)@.insert(k, (handle, ValSlot::Bits(raw))),
                Err(t) => final(self)@ == old(self)@ && !old(self).holds_handle(handle as int)
                    && t.kind == TrapKind::Invalid && if 0 <= handle < old(self).births() {
                    t.msg@ == dead_handle_text(handle as int, old(self).births())
                } else {
                    t.msg@ == handle_range_text(handle as int, old(self).births())
                },
            },
    {
        let i = match self.entry_by_handle(handle) {
            Ok(i) => i,
            Err(t) => return Err(t),
        };
        proof {
            lemma_map_of(self.entries@);
        }
        let ghost s = self.entries@;
        let displaced = self.entries[i].val;
        self.entries[i].val = ValSlot::Bits(raw);
        proof {
            assert(self.entries@ =~= s.update(i as int, self.entries@[i as int]));
            assert forall|c: u64| #[trigger] count_refs(self.entries@, c) + refs_to(displaced, c) == count_refs(s, c) by {
                lemma_count_refs_update(s, i as int, self.entries@[i as int], c);
            }
            lemma_map_of_update(s, i as int, self.entries@[i as int]);
            let t = self.entries@;
            assert forall|a: int, b: int| 0 <= a < b < t.len() implies t[a].handle
                != t[b].handle by {
                assert(t[a].handle == s[a].handle && t[b].handle == s[b].handle);
            }
            assert forall|j: int| 0 <= j < t.len() implies 0 <= #[trigger] t[j].handle
                < self.next_handle by {
                assert(t[j].handle == s[j].handle);
            }
            assert(old(self)@[s[i as int].key@] == (s[i as int].handle, s[i as int].val));
            assert(old(self)@.contains_key(s[i as int].key@));
        }
        Ok(displaced)
    }
}

impl NativeTable {
    /// The entry-death hook: every held cell is handed out (one per entry
    /// that holds a `Ref`, for the caller to release) and the table is
    /// cleared; births and kind stay.
    pub(crate) fn drain_values(&mut self) -> (cells: Vec<u64>)
        requires
            old(self).wf(),
        ensures
            final(self).wf(),
            final(self)@ == Map::<KeyModel, EntryView>::empty(),
            keeps_births_and_kind(*old(self), *final(self)),
            forall|c: u64| #[trigger] count_cells(cells@, c) == old(self).ref_count(c),
            forall|c: u64| #[trigger] final(self).ref_count(c) == 0,
            exists|ks: Seq<KeyModel>| {
                &&& ks.no_duplicates()
                &&& ks.len() == cells@.len()
                &&& forall|i: int| 0 <= i < ks.len() ==> #[trigger] old(self)@.contains_key(ks[i])
                    && old(self)@[ks[i]].1 == ValSlot::Ref(cells@[i])
                &&& forall|k: KeyModel| #[trigger] old(self)@.contains_key(k) && old(self)@[k].1 is Ref
                    ==> ks.contains(k)
            },
    {
        proof {
            lemma_map_of(self.entries@);
        }
        let ghost s = self.entries@;
        let ghost mut ks: Seq<KeyModel> = Seq::empty();
        let ghost mut idx: Seq<int> = Seq::empty();
        let mut cells: Vec<u64> = Vec::new();
        let mut i: usize = 0;
        while i < self.entries.len()
            invariant
                self.entries@ == s,
                self.wf(),
                i <= s.len(),
                ks.len() == cells@.len(),
                idx.len() == ks.len(),
                forall|a: int| 0 <= a < idx.len() ==> 0 <= #[trigger] idx[a] < i && s[idx[a]].key@ == ks[a]
                    && s[idx[a]].val == ValSlot::Ref(cells@[a]),
                forall|a: int, b: int| 0 <= a < b < idx.len() ==> idx[a] < idx[b],
                forall|j: int| 0 <= j < i && #[trigger] s[j].val is Ref ==> exists|a: int| 0 <= a < idx.len() && idx[a] == j,
                forall|c: u64| #[trigger] count_cells(cells@, c) == count_refs(s.take(i as int), c),
            decreases s.len() - i,
        {
            let ghost idx0 = idx;
            let ghost cells0 = cells@;
            if let ValSlot::Ref(c) = self.entries[i].val {
                cells.push(c);
                proof {
                    ks = ks.push(s[i as int].key@);
                    idx = idx.push(i as int);
                }
            }
            proof {
                assert forall|c: u64| #[trigger] count_cells(cells@, c) == count_refs(s.take(i + 1), c) by {
                    let t = s.take(i + 1);
                    assert(t.drop_last() =~= s.take(i as int));
                    assert(t.last() == s[i as int]);
                    assert(count_refs(t, c) == count_refs(s.take(i as int), c) + refs_to(s[i as int].val, c));
                    assert(count_cells(cells0, c) == count_refs(s.take(i as int), c));
                    if s[i as int].val is Ref {
                        assert(cells@.drop_last() =~= cells0);
                        assert(count_cells(cells@, c) == count_cells(cells0, c) + refs_to(s[i as int].val, c));
                    } else {
                        assert(cells@ =~= cells0);
                    }
                }
                assert forall|j: int| 0 <= j < i + 1 && #[trigger] s[j].val is Ref implies exists|a: int|
                    0 <= a < idx.len() && idx[a] == j by {
                    if j == i {
                        assert(idx[idx.len() - 1] == j);
                    } else {
                        let a = choose|a: int| 0 <= a < idx0.len() && idx0[a] == j;
                        assert(idx[a] == j);
                    }
                }
            }
            i += 1;
        }
        proof {
            assert(s.take(s.len() as int) =~= s);
            assert forall|a: int, b: int| 0 <= a < ks.len() && 0 <= b < ks.len() && a != b implies ks[a] != ks[b] by {
                if a < b {
                    assert(idx[a] < idx[b]);
                } else {
                    assert(idx[b] < idx[a]);
                }
            }
            assert forall|a: int| 0 <= a < ks.len() implies #[trigger] old(self)@.contains_key(ks[a])
                && old(self)@[ks[a]].1 == ValSlot::Ref(cells@[a]) by {
                assert(map_of(s)[s[idx[a]].key@] == (s[idx[a]].handle, s[idx[a]].val));
            }
            assert forall|k: KeyModel| #[trigger] old(self)@.contains_key(k) && old(self)@[k].1 is Ref implies ks.contains(k) by {
                let j = choose|j: int| 0 <= j < s.len() && s[j].key@ == k;
                assert(map_of(s)[s[j].key@] == (s[j].handle, s[j].val));
                let a = choose|a: int| 0 <= a < idx.len() && idx[a] == j;
                assert(ks[a] == k);
            }
        }
        let ghost before = *self;
        self.entries.clear();
        proof {
            lemma_map_of(self.entries@);
            assert(self@ =~= Map::<KeyModel, EntryView>::empty());
            assert({
                &&& ks.no_duplicates()
                &&& ks.len() == cells@.len()
                &&& forall|i: int| 0 <= i < ks.len() ==> #[trigger] before@.contains_key(ks[i])
                    && before@[ks[i]].1 == ValSlot::Ref(cells@[i])
                &&& forall|k: KeyModel| #[trigger] before@.contains_key(k) && before@[k].1 is Ref
                    ==> ks.contains(k)
            });
        }
        cells
    }
}

/// The trap text for a valued read of an `Empty` placeholder.
pub open spec fn empty_read_text(h: int) -> Seq<char> {
    "nmap: valued get over the `Empty` placeholder (handle "@ + dec_int(h)
        + "; an hput birth holds no value — a valued read of it is a caller bug)"@
}

/// The trap text for a handle outside the births range.
pub open spec fn handle_range_text(h: int, births: int) -> Seq<char> {
    "nmap: val handle "@ + dec_int(h) + " out of range (births "@ + dec_int(births) + ")"@
}

/// The trap text for a past birth whose key was removed.
pub open spec fn dead_handle_text(h: int, births: int) -> Seq<char> {
    "nmap: val handle "@ + dec_int(h) + " has no live entry (the key was removed; births "@
        + dec_int(births) + ")"@
}

/// The trap text for a raw read of a value that is not bits.
pub open spec fn no_bits_text(h: int) -> Seq<char> {
    "nmap: val handle "@ + dec_int(h) + " holds no bits (the h-family placeholder or a reference cell)"@
}

/// The removed-key handle's trap: the handle stays inside the births
/// range forever, but its entry is gone.
pub fn dead_handle_trap(handle: i32, births: i32) -> (t: Trap)
    ensures
        t.kind == TrapKind::Invalid,
        t.msg@ == dead_handle_text(handle as int, births as int),
{
    let mut m = String::new();
    push_str(&mut m, "nmap: val handle ");
    push_i32(&mut m, handle);
    push_str(&mut m, " has no live entry (the key was removed; births ");
    push_i32(&mut m, births);
    push_str(&mut m, ")");
    Trap::new(TrapKind::Invalid, m)
}

} // verus!

verus! {

/// The identity hasher: a table buckets on the one word a key's hash
/// writes ([`hash_payload`]) — no second hashing pass.
#[derive(Default)]
pub struct IdHasher(pub u64);

impl core::hash::Hasher for IdHasher {
    fn write_u64(&mut self, v: u64) {
        self.0 = v;
    }

    fn write(&mut self, _bytes: &[u8]) {
    }

    fn finish(&self) -> u64 {
        self.0
    }
}

/// The key an `i64` crosses as on the i lane: its two's-complement bits.
pub fn key_of_i64(k: i64) -> (key: KeyVal)
    ensures
        key@ == KeyModel::Bits(k as u64),
{
    KeyVal::Bits(k as u64)
}

/// The key a `bool` crosses as on the b lane: `0` or `1`.
pub fn key_of_bool(b: bool) -> (key: KeyVal)
    ensures
        key@ == KeyModel::Bits(if b { 1 } else { 0 }),
{
    KeyVal::Bits(if b { 1 } else { 0 })
}

/// The key a byte string crosses as on the y lane: an owned copy.
pub fn key_of_bytes(k: &[u8]) -> (key: KeyVal)
    ensures
        key@ == KeyModel::Bytes(k@),
{
    KeyVal::Bytes(vstd::slice::slice_to_vec(k))
}

/// The i/u/b/y lanes' fused put.
pub fn fused_put(t: &mut NativeTable, key: KeyVal) -> (r: Result<i64, Trap>)
    requires
        old(t).wf(),
        old(t).births() < i32::MAX || !old(t).admits(model_kind(key@)) || old(t)@.contains_key(key@),
    ensures
        final(t).wf(),
        final(t).reserved() == old(t).reserved(),
        put_outcome(*old(t), *final(t), model_kind(key@), key@, r),
{
    let k = kind_of(&key);
    t.hput(k, key)
}

/// The i/u/b/y lanes' fused find.
pub fn fused_find(t: &NativeTable, key: &KeyVal) -> (r: Result<i32, Trap>)
    requires
        t.wf(),
    ensures
        find_outcome(*t, model_kind(key@), key@, r),
{
    t.hfind(kind_of(key), key)
}

/// The i/u/b/y lanes' fused remove: the dead key's handle (or `-1`) and
/// the value it held.
pub fn fused_remove(t: &mut NativeTable, key: &KeyVal) -> (r: Result<(i32, ValSlot), Trap>)
    requires
        old(t).wf(),
    ensures
        final(t).wf(),
        remove_outcome(*old(t), *final(t), model_kind(key@), key@, r),
{
    t.take_key(kind_of(key), key)
}

/// The s lane's fused put: one owned `str` key per crossing.
pub fn fused_put_s(t: &mut NativeTable, k: &str) -> (r: Result<i64, Trap>)
    requires
        old(t).wf(),
        old(t).births() < i32::MAX || !old(t).admits(KeyKind::Str) || old(t)@.contains_key(
            KeyModel::Str(k@),
        ),
    ensures
        final(t).wf(),
        final(t).reserved() == old(t).reserved(),
        put_outcome(*old(t), *final(t), KeyKind::Str, KeyModel::Str(k@), r),
{
    t.hput(KeyKind::Str, KeyVal::Str(k.to_owned()))
}

/// The s lane's fused find.
pub fn fused_find_s(t: &NativeTable, k: &str) -> (r: Result<i32, Trap>)
    requires
        t.wf(),
    ensures
        find_outcome(*t, KeyKind::Str, KeyModel::Str(k@), r),
{
    t.hfind(KeyKind::Str, &KeyVal::Str(k.to_owned()))
}

/// The s lane's fused remove.
pub fn fused_remove_s(t: &mut NativeTable, k: &str) -> (r: Result<(i32, ValSlot), Trap>)
    requires
        old(t).wf(),
    ensures
        final(t).wf(),
        remove_outcome(*old(t), *final(t), KeyKind::Str, KeyModel::Str(k@), r),
{
    t.take_key(KeyKind::Str, &KeyVal::Str(k.to_owned()))
}

/// The text of the window `[off, off + len)` of `parent`'s octets.
pub open spec fn window_text(parent: &str, off: int, len: int) -> Seq<char> {
    vstd::utf8::decode_utf8(parent.spec_bytes().subrange(off, off + len))
}

proof fn lemma_window_text(parent: &str, w: &str, off: int, len: int)
    requires
        w.spec_bytes() == parent.spec_bytes().subrange(off, off + len),
    ensures
        w@ == window_text(parent, off, len),
{
    vstd::utf8::encode_utf8_decode_utf8(w@);
}

/// The sv lane's fused put: the window check first (a bad window traps
/// and leaves the table intact), then the s lane on the window's text —
/// so an sv key and the equal-content `str` key are one key.
pub fn fused_put_sv(t: &mut NativeTable, parent: &str, off: i32, len: i32) -> (r: Result<i64, Trap>)
    requires
        old(t).wf(),
        old(t).births() < i32::MAX || !old(t).admits(KeyKind::Str) || old(t)@.contains_key(
            KeyModel::Str(window_text(parent, off as int, len as int)),
        ),
    ensures
        final(t).wf(),
        final(t).reserved() == old(t).reserved(),
        if sv_window_ok(parent.spec_bytes(), off as int, len as int) {
            put_outcome(
                *old(t),
                *final(t),
                KeyKind::Str,
                KeyModel::Str(window_text(parent, off as int, len as int)),
                r,
            )
        } else {
            &&& final(t)@ == old(t)@
            &&& keeps_births_and_kind(*old(t), *final(t))
            &&& r matches Err(e) && e.kind == TrapKind::Invalid && e.msg@ == sv_refusal(
                parent.spec_bytes(),
                off as int,
                len as int,
            )
        },
{
    let w = match sv_range(parent, off, len) {
        Ok(w) => w,
        Err(e) => return Err(e),
    };
    proof {
        lemma_window_text(parent, w, off as int, len as int);
    }
    fused_put_s(t, w)
}

/// The sv lane's fused find.
pub fn fused_find_sv(t: &NativeTable, parent: &str, off: i32, len: i32) -> (r: Result<i32, Trap>)
    requires
        t.wf(),
    ensures
        if sv_window_ok(parent.spec_bytes(), off as int, len as int) {
            find_outcome(*t, KeyKind::Str, KeyModel::Str(window_text(parent, off as int, len as int)), r)
        } else {
            r matches Err(e) && e.kind == TrapKind::Invalid && e.msg@ == sv_refusal(
                parent.spec_bytes(),
                off as int,
                len as int,
            )
        },
{
    let w = match sv_range(parent, off, len) {
        Ok(w) => w,
        Err(e) => return Err(e),
    };
    proof {
        lemma_window_text(parent, w, off as int, len as int);
    }
    fused_find_s(t, w)
}

/// The sv lane's fused remove.
pub fn fused_remove_sv(t: &mut NativeTable, parent: &str, off: i32, len: i32) -> (r: Result<(i32, ValSlot), Trap>)
    requires
        old(t).wf(),
    ensures
        final(t).wf(),
        if sv_window_ok(parent.spec_bytes(), off as int, len as int) {
            remove_outcome(
                *old(t),
                *final(t),
                KeyKind::Str,
                KeyModel::Str(window_text(parent, off as int, len as int)),
                r,
            )
        } else {
            &&& final(t)@ == old(t)@
            &&& keeps_births_and_kind(*old(t), *final(t))
            &&& r matches Err(e) && e.kind == TrapKind::Invalid && e.msg@ == sv_refusal(
                parent.spec_bytes(),
                off as int,
                len as int,
            )
        },
{
    let w = match sv_range(parent, off, len) {
        Ok(w) => w,
        Err(e) => return Err(e),
    };
    proof {
        lemma_window_text(parent, w, off as int, len as int);
    }
    fused_remove_s(t, w)
}

} // verus!

verus! {

/// A put is visible to the next find: after a successful put of `k`, the
/// table holds `k`, and the answer packs its handle with `newly` exactly
/// when the key was absent before.
pub proof fn law_put_then_find(old: NativeTable, new: NativeTable, kind: KeyKind, k: KeyModel, ans: i64)
    requires
        old.wf(),
        put_outcome(old, new, kind, k, Ok(ans)),
    ensures
        new@.contains_key(k),
        find_outcome(new, kind, k, Ok(new@[k].0)),
        ans == packed(new@[k].0 as int, !old@.contains_key(k)),
{
}

/// Handles are births, never recycled: once a key is removed, putting it
/// again is a fresh birth whose handle differs from the removed one.
pub proof fn law_reinsert_is_a_new_birth(
    t0: NativeTable,
    t1: NativeTable,
    t2: NativeTable,
    kind: KeyKind,
    k: KeyModel,
    removed: (i32, ValSlot),
    ans: i64,
)
    requires
        t0.wf(),
        t0@.contains_key(k),
        remove_outcome(t0, t1, kind, k, Ok(removed)),
        put_outcome(t1, t2, kind, k, Ok(ans)),
    ensures
        removed.0 < t0.births(),
        ans == packed(t0.births(), true),
        t2@[k].0 != removed.0,
{
    t0.lemma_handles();
}

/// Key kinds admit but never mix: the first birth fixes the table's kind,
/// after which a crossing of any other kind is refused.
pub proof fn law_first_birth_fixes_the_kind(
    old: NativeTable,
    new: NativeTable,
    kind: KeyKind,
    k: KeyModel,
    ans: i64,
    other: KeyKind,
)
    requires
        old.key_kind() == KeyKind::Unset,
        kind != KeyKind::Unset,
        put_outcome(old, new, kind, k, Ok(ans)),
        !old@.contains_key(k),
        other != kind,
    ensures
        new.key_kind() == kind,
        !new.admits(other),
{
}

/// The packed answer decodes: bit 0 is the newly flag, the rest the
/// handle — so distinct (handle, newly) pairs answer distinctly.
pub proof fn law_packed_answer_decodes(hd: int, newly: bool)
    ensures
        packed(hd, newly) % 2 == (if newly { 1int } else { 0int }),
        packed(hd, newly) / 2 == hd,
{
}

/// The s/sv and y lanes hash over the octets exactly as the payload
/// hasher does for the same content.
pub proof fn law_octet_hash_is_the_payload_hash(text: Seq<char>, bytes: Seq<u8>)
    ensures
        payload_hash(KeyModel::Str(text)) == fnv1a(vstd::utf8::encode_utf8(text)),
        payload_hash(KeyModel::Bytes(bytes)) == fnv1a(bytes),
        payload_hash(KeyModel::Bytes(vstd::utf8::encode_utf8(text))) == payload_hash(KeyModel::Str(text)),
{
}

/// What key decoding reads of an argument's static type.
#[derive(Clone, Copy, Debug, PartialEq, Eq, Structural)]
pub enum TyTag {
    Nil,
    Prim(PrimTy),
    Str,
    Bytes,
    Array,
    Enum,
    Data,
    TraitObj,
    Opaque,
    Trace,
    StrBuf,
    Opt,
    Fn,
}

/// The words naming each kind of type in key diagnostics.
pub open spec fn ty_label_text(t: TyTag) -> Seq<char> {
    match t {
        TyTag::Nil => "nil"@,
        TyTag::Prim(p) => prim_name(p),
        TyTag::Str => "str"@,
        TyTag::Bytes => "bytes"@,
        TyTag::Array => "an array"@,
        TyTag::Enum => "an enum"@,
        TyTag::Data => "a record"@,
        TyTag::TraitObj => "a trait object"@,
        TyTag::Opaque => "an opaque"@,
        TyTag::Trace => "a stack trace"@,
        TyTag::StrBuf => "a StrBuf"@,
        TyTag::Opt => "an optional"@,
        TyTag::Fn => "a fn value"@,
    }
}

/// A static label for a type in key diagnostics.
pub fn ty_label(t: TyTag) -> (s: &'static str)
    ensures
        s@ == ty_label_text(t),
{
    match t {
        TyTag::Nil => "nil",
        TyTag::Prim(p) => p.name(),
        TyTag::Str => "str",
        TyTag::Bytes => "bytes",
        TyTag::Array => "an array",
        TyTag::Enum => "an enum",
        TyTag::Data => "a record",
        TyTag::TraitObj => "a trait object",
        TyTag::Opaque => "an opaque",
        TyTag::Trace => "a stack trace",
        TyTag::StrBuf => "a StrBuf",
        TyTag::Opt => "an optional",
        TyTag::Fn => "a fn value",
    }
}

/// The trap text of a key type outside the closed set.
pub open spec fn refused_key_text(label: Seq<char>, why: Seq<char>) -> Seq<char> {
    "nmap: key type "@ + label + " is not in the closed key set ("@ + why + ")"@
}

fn refused_key(label: &str, why: &str) -> (t: Trap)
    ensures
        t.kind == TrapKind::Invalid,
        t.msg@ == refused_key_text(label@, why@),
{
    let mut m = String::new();
    push_str(&mut m, "nmap: key type ");
    push_str(&mut m, label);
    push_str(&mut m, " is not in the closed key set (");
    push_str(&mut m, why);
    push_str(&mut m, ")");
    Trap::new(TrapKind::Invalid, m)
}

/// Decodes a key argument of static type `ty`: an integer or `bool` is
/// its slot word's raw bits (so `-1i8` and `255u8` are different words
/// only if the words differ); a `str` or `bytes` key is an owned copy of
/// its cell's octets (`text` / `octets`); a float, a char, or any other
/// type traps by name.
pub fn decode_key(ty: TyTag, word: i64, text: &str, octets: &[u8]) -> (r: Result<KeyVal, Trap>)
    ensures
        match ty {
            TyTag::Prim(p) => if prim_is_int(p) || p == PrimTy::Bool {
                r matches Ok(k) && k@ == KeyModel::Bits(word as u64)
            } else {
                r matches Err(t) && t.kind == TrapKind::Invalid && t.msg@ == refused_key_text(
                    prim_name(p),
                    "floats have no stable equality contract"@,
                )
            },
            TyTag::Str => r matches Ok(k) && k@ == KeyModel::Str(text@),
            TyTag::Bytes => r matches Ok(k) && k@ == KeyModel::Bytes(octets@),
            _ => r matches Err(t) && t.kind == TrapKind::Invalid && t.msg@ == refused_key_text(
                ty_label_text(ty),
                "integer primitives, bool, str, bytes"@,
            ),
        },
{
    match ty {
        TyTag::Prim(p) => {
            if p.is_int() || p == PrimTy::Bool {
                Ok(KeyVal::Bits(word as u64))
            } else {
                Err(refused_key(p.name(), "floats have no stable equality contract"))
            }
        },
        TyTag::Str => Ok(KeyVal::Str(text.to_owned())),
        TyTag::Bytes => Ok(KeyVal::Bytes(vstd::slice::slice_to_vec(octets))),
        _ => Err(refused_key(ty_label(ty), "integer primitives, bool, str, bytes")),
    }
}

/// Decodes a value argument of static type `ty`: a primitive's word moves
/// as its bits; any reference answers its own cell (the caller takes the
/// reference the stored value holds).
pub fn decode_val(ty: TyTag, word: u64) -> (v: ValSlot)
    ensures
        v == (if ty is Prim {
            ValSlot::Bits(word)
        } else {
            ValSlot::Ref(word)
        }),
{
    match ty {
        TyTag::Prim(_) => ValSlot::Bits(word),
        _ => ValSlot::Ref(word),
    }
}

/// A successful table crossing, for stating what runs of them do.
pub enum TableOp {
    Put(KeyKind, KeyModel),
    VPut(KeyKind, KeyModel, ValSlot),
    Remove(KeyKind, KeyModel),
    /// the raw value write through the handle of the key
    SetU(KeyModel, i32, u64),
}

/// What a successful valued put answers and does (as `hvput` states).
pub open spec fn vput_outcome(old: NativeTable, new: NativeTable, kind: KeyKind, k: KeyModel, v: ValSlot, ans: int) -> bool {
    old.admits(kind) && if old@.contains_key(k) {
        &&& ans == packed(old@[k].0 as int, false)
        &&& new@ == old@.insert(k, (old@[k].0, v))
        &&& keeps_births_and_kind(old, new)
    } else {
        &&& ans == packed(old.births(), true)
        &&& is_fresh_birth(old, new, kind, k, v)
    }
}

/// Whether `new` is what the successful crossing `op` answering `ans`
/// leaves of `old`.
pub open spec fn op_ok(old: NativeTable, new: NativeTable, op: TableOp, ans: i64) -> bool {
    match op {
        TableOp::Put(kind, k) => put_outcome(old, new, kind, k, Ok(ans)),
        TableOp::VPut(kind, k, v) => vput_outcome(old, new, kind, k, v, ans as int),
        TableOp::Remove(kind, k) => exists|v: ValSlot| #[trigger] remove_outcome(old, new, kind, k, Ok(((#[verifier::truncate] (ans as i32)), v))),
        TableOp::SetU(k, h, raw) => {
            &&& old@.contains_key(k)
            &&& old@[k].0 == h
            &&& new@ == old@.insert(k, (h, ValSlot::Bits(raw)))
            &&& keeps_births_and_kind(old, new)
        },
    }
}

/// Whether the crossing is a birth: a put of a key the table lacks.
pub open spec fn is_birth(t: NativeTable, op: TableOp) -> bool {
    match op {
        TableOp::Put(_, k) => !t@.contains_key(k),
        TableOp::VPut(_, k, _) => !t@.contains_key(k),
        TableOp::Remove(_, _) => false,
        TableOp::SetU(_, _, _) => false,
    }
}

/// How many of the first `i` crossings were births.
pub open spec fn births_before(ts: Seq<NativeTable>, ops: Seq<TableOp>, i: int) -> nat
    decreases i,
{
    if i <= 0 {
        0
    } else {
        births_before(ts, ops, i - 1) + if is_birth(ts[i - 1], ops[i - 1]) { 1nat } else { 0nat }
    }
}

/// Whether `ts` is a run of successful crossings `ops` answering `ans`.
pub open spec fn is_run(ts: Seq<NativeTable>, ops: Seq<TableOp>, ans: Seq<i64>) -> bool {
    &&& ts.len() == ops.len() + 1
    &&& ans.len() == ops.len()
    &&& forall|i: int| 0 <= i < ops.len() ==> #[trigger] op_ok(ts[i], ts[i + 1], ops[i], ans[i])
}

proof fn lemma_births_along(ts: Seq<NativeTable>, ops: Seq<TableOp>, ans: Seq<i64>, i: int)
    requires
        is_run(ts, ops, ans),
        0 <= i <= ops.len(),
    ensures
        ts[i].births() == ts[0].births() + births_before(ts, ops, i),
    decreases i,
{
    if i > 0 {
        lemma_births_along(ts, ops, ans, i - 1);
        let j = i - 1;
        assert(op_ok(ts[j], ts[j + 1], ops[j], ans[j]));
        assert(ts[j + 1] == ts[i]);
        if let TableOp::Remove(kind, k) = ops[i - 1] {
            let v = choose|v: ValSlot| #[trigger] remove_outcome(ts[i - 1], ts[i], kind, k, Ok(((#[verifier::truncate] (ans[i - 1] as i32)), v)));
        }
    }
}

/// Handles are birth numbers, handed out in order: over any run of
/// successful crossings, the `j`-th birth answers the handle the table
/// started counting from plus `j` (from a new table: 0, 1, 2, ...), so no
/// handle is ever issued twice, a removed key's included.
pub proof fn law_handles_are_births_in_order(ts: Seq<NativeTable>, ops: Seq<TableOp>, ans: Seq<i64>)
    requires
        is_run(ts, ops, ans),
    ensures
        forall|i: int| 0 <= i < ops.len() && #[trigger] is_birth(ts[i], ops[i]) ==> ans[i] == packed(
            ts[0].births() + births_before(ts, ops, i),
            true,
        ),
        ts.last().births() == ts[0].births() + births_before(ts, ops, ops.len() as int),
{
    assert forall|i: int| 0 <= i < ops.len() && #[trigger] is_birth(ts[i], ops[i]) implies ans[i] == packed(
        ts[0].births() + births_before(ts, ops, i),
        true,
    ) by {
        lemma_births_along(ts, ops, ans, i);
        assert(op_ok(ts[i], ts[i + 1], ops[i], ans[i]));
    }
    lemma_births_along(ts, ops, ans, ops.len() as int);
}

/// The values a table holds, key by key.
pub open spec fn values_of(m: Map<KeyModel, EntryView>) -> Map<KeyModel, ValSlot> {
    Map::new(|k: KeyModel| m.contains_key(k), |k: KeyModel| m[k].1)
}

/// A plain map driven by the same crossings: a put adds an absent key
/// (with no value yet), a valued put or a raw write sets, a remove
/// removes.
pub open spec fn apply_op(r: Map<KeyModel, ValSlot>, op: TableOp) -> Map<KeyModel, ValSlot> {
    match op {
        TableOp::Put(_, k) => if r.contains_key(k) { r } else { r.insert(k, ValSlot::Empty) },
        TableOp::VPut(_, k, v) => r.insert(k, v),
        TableOp::Remove(_, k) => r.remove(k),
        TableOp::SetU(k, _, raw) => r.insert(k, ValSlot::Bits(raw)),
    }
}

/// The plain map after the first `i` crossings.
pub open spec fn apply_ops(r: Map<KeyModel, ValSlot>, ops: Seq<TableOp>, i: int) -> Map<KeyModel, ValSlot>
    decreases i,
{
    if i <= 0 {
        r
    } else {
        apply_op(apply_ops(r, ops, i - 1), ops[i - 1])
    }
}

/// The table behaves like a plain map: over any run of successful
/// crossings, the keys it holds and their values are those of a plain map
/// driven by the same crossings.
pub proof fn law_a_table_is_a_reference_map(ts: Seq<NativeTable>, ops: Seq<TableOp>, ans: Seq<i64>, i: int)
    requires
        is_run(ts, ops, ans),
        0 <= i <= ops.len(),
    ensures
        values_of(ts[i]@) == apply_ops(values_of(ts[0]@), ops, i),
    decreases i,
{
    if i > 0 {
        law_a_table_is_a_reference_map(ts, ops, ans, i - 1);
        let j = i - 1;
        assert(op_ok(ts[j], ts[j + 1], ops[j], ans[j]));
        let (a, b) = (ts[j], ts[j + 1]);
        let r = values_of(a@);
        match ops[i - 1] {
            TableOp::Put(kind, k) => {
                if a@.contains_key(k) {
                    assert(values_of(b@) =~= apply_op(r, ops[i - 1]));
                } else {
                    assert(values_of(b@) =~= apply_op(r, ops[i - 1]));
                }
            },
            TableOp::VPut(kind, k, v) => {
                assert(values_of(b@) =~= apply_op(r, ops[i - 1]));
            },
            TableOp::Remove(kind, k) => {
                let v = choose|v: ValSlot| #[trigger] remove_outcome(a, b, kind, k, Ok(((#[verifier::truncate] (ans[i - 1] as i32)), v)));
                assert(values_of(b@) =~= apply_op(r, ops[i - 1]));
            },
            TableOp::SetU(k, h, raw) => {
                assert(values_of(b@) =~= apply_op(r, ops[i - 1]));
            },
        }
    }
}

/// Whether the crossing removes the key `k`.
pub open spec fn removes(op: TableOp, k: KeyModel) -> bool {
    op matches TableOp::Remove(_, j) && j == k
}

/// A live key's handle never changes: over any run of successful
/// crossings that does not remove it, a key live at one point stays live
/// with the handle it was born with, whatever else is put, replaced,
/// written or removed (so a find answers that handle throughout).
pub proof fn law_a_live_keys_handle_never_changes(
    ts: Seq<NativeTable>,
    ops: Seq<TableOp>,
    ans: Seq<i64>,
    k: KeyModel,
    i: int,
    j: int,
)
    requires
        is_run(ts, ops, ans),
        0 <= i <= j <= ops.len(),
        ts[i]@.contains_key(k),
        forall|m: int| i <= m < j ==> !removes(#[trigger] ops[m], k),
    ensures
        ts[j]@.contains_key(k),
        ts[j]@[k].0 == ts[i]@[k].0,
    decreases j - i,
{
    if i < j {
        law_a_live_keys_handle_never_changes(ts, ops, ans, k, i, j - 1);
        let m = j - 1;
        assert(op_ok(ts[m], ts[m + 1], ops[m], ans[m]));
        assert(!removes(ops[m], k));
        assert(ts[m + 1] == ts[j]);
        match ops[m] {
            TableOp::Remove(kind, r) => {
                let v = choose|v: ValSlot| #[trigger] remove_outcome(ts[m], ts[j], kind, r, Ok(((#[verifier::truncate] (ans[m] as i32)), v)));
            },
            _ => {},
        }
    }
}

} // verus!
