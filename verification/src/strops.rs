//! The string natives' decisions: rendering scalars, character positions
//! in UTF-8 text, `slice` windows counted in characters, indexing by
//! character, and concatenation (in place into a uniquely owned
//! accumulator, or by copying).
use vstd::prelude::*;
use crate::acct::{HeapAcct, admits, charge_outcome};
use crate::blocks::{Blocks, lemma_payload_spans_the_capacity};
use crate::cell::{PrimTy, all_ascii, char_count, count_chars, starts_char, lemma_ascii_counts_every_octet};
use crate::seq::slice_text;
use crate::strheap::{StrCell, grown_charge, grown_cap, growth_delta, reserve_append, utf8_of, encode_utf8, law_a_char_encodes_to_one_character};
use crate::text::{push_char, push_str, push_i64, push_u64, dec_int, dec_digits};
use crate::trap::{Trap, TrapKind};

verus! {

/// Whether `v` is a Unicode scalar value (not a surrogate, at most
/// `0x10FFFF`).
pub open spec fn is_scalar(v: int) -> bool {
    (0 <= v <= 0xD7FF) || (0xE000 <= v <= 0x10FFFF)
}

/// `char::from_u32`: the character whose scalar value is `v`, or `None`
/// when `v` is a surrogate or above `0x10FFFF`.
#[verifier::external_body]
fn char_from_u32(v: u32) -> (r: Option<char>)
    ensures
        r is Some <==> is_scalar(v as int),
        r matches Some(c) ==> c as int == v,
{
    char::from_u32(v)
}

/// The character a register word holds: its low 32 bits as a scalar
/// value, or `fallback` when they are not one.
pub open spec fn word_char(w: i64, fallback: char) -> char {
    let v = (#[verifier::truncate] (w as u32)) as int;
    if is_scalar(v) {
        v as char
    } else {
        fallback
    }
}

/// Reads a character out of a register word.
pub fn char_of_word(w: i64, fallback: char) -> (c: char)
    ensures
        c == word_char(w, fallback),
{
    match char_from_u32(w as u32) {
        Some(c) => c,
        None => fallback,
    }
}

/// How a primitive value renders inside `f"..."`: unsigned widths as
/// unsigned numbers of their width, signed ones as the full word, `bool`
/// as `true`/`false`, `char` as itself (`'\0'` for a word that is no
/// character).
pub open spec fn prim_text(p: PrimTy, w: i64) -> Seq<char> {
    match p {
        PrimTy::U8 => dec_digits((#[verifier::truncate] (w as u8)) as nat),
        PrimTy::U16 => dec_digits((#[verifier::truncate] (w as u16)) as nat),
        PrimTy::U32 => dec_digits((#[verifier::truncate] (w as u32)) as nat),
        PrimTy::U64 => dec_digits((#[verifier::truncate] (w as u64)) as nat),
        PrimTy::Bool => if w != 0 { "true"@ } else { "false"@ },
        PrimTy::Char => seq![word_char(w, '\0')],
        _ => dec_int(w as int),
    }
}

/// Renders a non-float primitive (floats render on the host side).
pub fn render_prim(p: PrimTy, w: i64) -> (s: String)
    requires
        p != PrimTy::F32,
        p != PrimTy::F64,
    ensures
        s@ == prim_text(p, w),
{
    let mut s = String::new();
    match p {
        PrimTy::U8 => push_u64(&mut s, (w as u8) as u64),
        PrimTy::U16 => push_u64(&mut s, (w as u16) as u64),
        PrimTy::U32 => push_u64(&mut s, (w as u32) as u64),
        PrimTy::U64 => push_u64(&mut s, w as u64),
        PrimTy::Bool => {
            if w != 0 {
                push_str(&mut s, "true");
            } else {
                push_str(&mut s, "false");
            }
        },
        PrimTy::Char => {
            let c = char_of_word(w, '\0');
            push_char(&mut s, c);
        },
        _ => push_i64(&mut s, w),
    }
    s
}

/// Renders an enum value by its member's name; a cell that is no enum
/// member is refused.
pub fn render_member(names: &Vec<String>, member: Option<u32>) -> (r: Result<String, Trap>)
    requires
        member matches Some(m) ==> m < names@.len(),
    ensures
        match member {
            Some(m) => r matches Ok(s) && s@ == names@[m as int]@,
            None => r matches Err(t) && t.kind == TrapKind::Invalid && t.msg@ == "render on non-enum"@,
        },
{
    match member {
        Some(m) => Ok(names[m as usize].clone()),
        None => Err(Trap::new(TrapKind::Invalid, "render on non-enum".to_owned())),
    }
}

/// The octet offset at which character `n` of `b` starts, scanning from
/// `k`: the offset of the `n`-th octet from `k` on that starts a
/// character, or the text's length when there are not that many.
pub open spec fn start_from(b: Seq<u8>, k: int, n: nat) -> int
    decreases b.len() - k,
{
    if k >= b.len() {
        b.len() as int
    } else if starts_char(b[k]) {
        if n == 0 {
            k
        } else {
            start_from(b, k + 1, (n - 1) as nat)
        }
    } else {
        start_from(b, k + 1, n)
    }
}

/// The octet offset of character `n` of a UTF-8 text (its length when
/// the text has no character `n`).
pub open spec fn char_start(b: Seq<u8>, n: nat) -> int {
    start_from(b, 0, n)
}

/// A start lies between the scan's beginning and the text's end, and a
/// later character never starts before an earlier one.
pub proof fn lemma_start_bounds(b: Seq<u8>, k: int, n: nat, m: nat)
    requires
        0 <= k <= b.len(),
        n <= m,
    ensures
        k <= start_from(b, k, n) <= b.len(),
        start_from(b, k, n) <= start_from(b, k, m),
    decreases b.len() - k,
{
    if k < b.len() {
        if starts_char(b[k]) {
            if n == 0 {
                lemma_start_bounds(b, k + 1, 0, if m == 0 { 0 } else { (m - 1) as nat });
            } else {
                lemma_start_bounds(b, k + 1, (n - 1) as nat, (m - 1) as nat);
            }
        } else {
            lemma_start_bounds(b, k + 1, n, m);
        }
    }
}

/// In ASCII text character `n` starts at octet `n`.
pub proof fn lemma_ascii_start(b: Seq<u8>, k: int, n: nat)
    requires
        all_ascii(b),
        0 <= k <= b.len(),
    ensures
        start_from(b, k, n) == if k + n <= b.len() { k + n } else { b.len() as int },
    decreases b.len() - k,
{
    if k < b.len() {
        assert(b[k] < 128);
        if n > 0 {
            lemma_ascii_start(b, k + 1, (n - 1) as nat);
        }
    }
}

/// Finds where character `n` starts (the text's length when it has
/// fewer characters).
pub fn char_start_of(b: &[u8], n: u64) -> (k: usize)
    ensures
        k == char_start(b@, n as nat),
{
    let len = b.len();
    let mut k: usize = 0;
    let mut left: u64 = n;
    while k < len
        invariant
            len == b@.len(),
            k <= len,
            start_from(b@, k as int, left as nat) == char_start(b@, n as nat),
        decreases len - k,
    {
        let x = b[k];
        if x < 0x80 || x >= 0xC0 {
            if left == 0 {
                return k;
            }
            left = left - 1;
        }
        k = k + 1;
    }
    len
}

/// The total of a chain of window offsets.
pub open spec fn offs_sum(offs: Seq<u32>) -> int
    decreases offs.len(),
{
    if offs.len() == 0 {
        0
    } else {
        offs_sum(offs.drop_last()) + offs.last()
    }
}

proof fn lemma_offs_nonneg(offs: Seq<u32>)
    ensures
        offs_sum(offs) >= 0,
    decreases offs.len(),
{
    if offs.len() > 0 {
        lemma_offs_nonneg(offs.drop_last());
    }
}

proof fn lemma_offs_prefix(offs: Seq<u32>, k: int)
    requires
        0 <= k <= offs.len(),
    ensures
        0 <= offs_sum(offs.take(k)) <= offs_sum(offs),
    decreases offs.len() - k,
{
    lemma_offs_nonneg(offs.take(k));
    if k < offs.len() {
        lemma_offs_prefix(offs, k + 1);
        assert(offs.take(k + 1).drop_last() =~= offs.take(k));
    } else {
        assert(offs.take(k) =~= offs);
    }
}

/// What `s.slice(from, to)` answers: bounds in characters, checked
/// against the receiver's character count, then the new window's octet
/// offset into the owned text at the end of the window chain, its octet
/// length, and that owned text's ASCII flag. `recv_is_str` says whether
/// the receiver is a string at all, `offs` are the offsets of the windows
/// met from the receiver to the owned text, and `root` is that text's
/// ASCII flag (`None` when the chain ends at something else).
pub open spec fn str_slice_outcome(
    recv_is_str: bool,
    text: Seq<u8>,
    offs: Seq<u32>,
    root: Option<bool>,
    from: i64,
    to: i64,
    r: Result<(u32, u32, bool), Trap>,
) -> bool {
    let clen = char_count(text) as int;
    if !recv_is_str {
        r matches Err(t) && t.kind == TrapKind::Invalid && t.msg@ == "slice on non-string"@
    } else if from < 0 || to < from || to > clen {
        r matches Err(t) && t.kind == TrapKind::IndexOutOfBounds && t.msg@ == slice_text(from, to, clen)
    } else {
        match root {
            None => r matches Err(t) && t.kind == TrapKind::Invalid && t.msg@ == "slice on non-string"@,
            Some(ra) => {
                let bfrom = char_start(text, from as nat);
                let bto = char_start(text, to as nat);
                r == Ok::<(u32, u32, bool), Trap>(((offs_sum(offs) + bfrom) as u32, (bto - bfrom) as u32, ra))
            },
        }
    }
}

/// Decides a string slice. `text` is the receiver's own octets and
/// `ascii` its ASCII flag; an ASCII text is indexed by octet directly.
pub fn str_slice(
    recv_is_str: bool,
    text: &[u8],
    ascii: bool,
    offs: &Vec<u32>,
    root: Option<bool>,
    from: i64,
    to: i64,
) -> (r: Result<(u32, u32, bool), Trap>)
    requires
        ascii == all_ascii(text@),
        offs_sum(offs@) + text@.len() <= u32::MAX,
    ensures
        str_slice_outcome(recv_is_str, text@, offs@, root, from, to, r),
{
    if !recv_is_str {
        return Err(Trap::new(TrapKind::Invalid, "slice on non-string".to_owned()));
    }
    proof {
        lemma_offs_nonneg(offs@);
    }
    let clen: i64 = if ascii {
        proof {
            lemma_ascii_counts_every_octet(text@);
        }
        text.len() as i64
    } else {
        count_chars(text) as i64
    };
    if from < 0 || to < from || to > clen {
        let mut m = String::new();
        push_str(&mut m, "slice ");
        push_i64(&mut m, from);
        push_str(&mut m, "..");
        push_i64(&mut m, to);
        push_str(&mut m, " out of bounds (len ");
        push_i64(&mut m, clen);
        push_str(&mut m, ")");
        return Err(Trap::new(TrapKind::IndexOutOfBounds, m));
    }
    let n = offs.len();
    let mut base: u32 = 0;
    let mut k: usize = 0;
    while k < n
        invariant
            n == offs@.len(),
            k <= n,
            offs_sum(offs@) + text@.len() <= u32::MAX,
            base == offs_sum(offs@.take(k as int)),
        decreases n - k,
    {
        proof {
            lemma_offs_prefix(offs@, (k + 1) as int);
            assert(offs@.take(k + 1).drop_last() =~= offs@.take(k as int));
        }
        base = base + offs[k];
        k = k + 1;
    }
    assert(offs@.take(n as int) =~= offs@);
    let ra = match root {
        None => {
            return Err(Trap::new(TrapKind::Invalid, "slice on non-string".to_owned()));
        },
        Some(ra) => ra,
    };
    proof {
        lemma_start_bounds(text@, 0, from as nat, to as nat);
        lemma_start_bounds(text@, 0, to as nat, to as nat);
    }
    let (bfrom, bto) = if ascii {
        proof {
            lemma_ascii_counts_every_octet(text@);
            lemma_ascii_start(text@, 0, from as nat);
            lemma_ascii_start(text@, 0, to as nat);
        }
        (from as usize, to as usize)
    } else {
        (char_start_of(text, from as u64), char_start_of(text, to as u64))
    };
    Ok((base + bfrom as u32, (bto - bfrom) as u32, ra))
}

/// The octets of several parts one after another.
pub open spec fn flatten(parts: Seq<Seq<u8>>) -> Seq<u8>
    decreases parts.len(),
{
    if parts.len() == 0 {
        Seq::empty()
    } else {
        flatten(parts.drop_last()) + parts.last()
    }
}

/// The parts' octets as plain sequences.
pub open spec fn part_octets(parts: Seq<Vec<u8>>) -> Seq<Seq<u8>> {
    Seq::new(parts.len(), |i: int| parts[i]@)
}

proof fn lemma_flatten_step(parts: Seq<Vec<u8>>, k: int)
    requires
        0 <= k < parts.len(),
    ensures
        flatten(part_octets(parts.take(k + 1))) == flatten(part_octets(parts.take(k))) + parts[k]@,
{
    assert(part_octets(parts.take(k + 1)).drop_last() =~= part_octets(parts.take(k)));
}

proof fn lemma_flatten_len(parts: Seq<Vec<u8>>, k: int)
    requires
        0 <= k <= parts.len(),
    ensures
        flatten(part_octets(parts.take(k))).len() <= flatten(part_octets(parts)).len(),
    decreases parts.len() - k,
{
    if k < parts.len() {
        lemma_flatten_step(parts, k);
        lemma_flatten_len(parts, k + 1);
    } else {
        assert(parts.take(k) =~= parts);
    }
}

/// The copying concatenation: one buffer holding every part in order.
pub fn concat_octets(parts: &Vec<Vec<u8>>) -> (out: Vec<u8>)
    ensures
        out@ == flatten(part_octets(parts@)),
{
    let mut out: Vec<u8> = Vec::new();
    let n = parts.len();
    let mut k: usize = 0;
    while k < n
        invariant
            n == parts@.len(),
            k <= n,
            out@ == flatten(part_octets(parts@.take(k as int))),
        decreases n - k,
    {
        proof {
            lemma_flatten_step(parts@, k as int);
        }
        out.extend_from_slice(parts[k].as_slice());
        k = k + 1;
    }
    assert(parts@.take(n as int) =~= parts@);
    out
}


/// The in-place concatenation onto a uniquely owned accumulator: one
/// growth decision for all the parts together, then plain appends into
/// the reserved room. A refused growth charge appends nothing.
pub fn concat_in_place(acct: &mut HeapAcct, s: &mut Blocks, cell: &mut StrCell, parts: &Vec<Vec<u8>>)
    -> (r: Result<(), Trap>)
    requires
        old(cell).val.fits_in(*old(s)),
        forall|i: int| 0 <= i < parts@.len() ==> valid_utf8(#[trigger] parts@[i]@),
        old(cell).val.len + flatten(part_octets(parts@)).len() + 16 <= u32::MAX,
        2 * old(cell).val.cap + 16 <= u32::MAX,
        old(cell).val.len + flatten(part_octets(parts@)).len() > old(cell).val.cap ==> old(acct).used
            + growth_delta(old(cell).bytes, grown_cap(old(cell).val.len + flatten(part_octets(parts@)).len(), old(cell).val.cap as int))
            <= u64::MAX,
    ensures
        final(cell).val.fits_in(*final(s)),
        r is Ok ==> final(cell).val.text(*final(s)) == old(cell).val.text(*old(s)) + flatten(part_octets(parts@)),
        r is Err ==> final(cell).val.text(*final(s)) == old(cell).val.text(*old(s)),
        old(cell).val.len + flatten(part_octets(parts@)).len() <= old(cell).val.cap ==> r is Ok
            && *final(acct) == *old(acct),
        old(cell).val.len + flatten(part_octets(parts@)).len() > old(cell).val.cap ==> charge_outcome(
            *old(acct),
            *final(acct),
            growth_delta(old(cell).bytes, grown_cap(old(cell).val.len + flatten(part_octets(parts@)).len(), old(cell).val.cap as int)),
            r,
        ),
        old(cell).val.len + flatten(part_octets(parts@)).len() > old(cell).val.cap ==> final(cell).val.cap == grown_cap(
            old(cell).val.len + flatten(part_octets(parts@)).len(),
            old(cell).val.cap as int,
        ),
{
    let n = parts.len();
    let mut total: usize = 0;
    let mut k: usize = 0;
    while k < n
        invariant
            n == parts@.len(),
            k <= n,
            total == flatten(part_octets(parts@.take(k as int))).len(),
            flatten(part_octets(parts@)).len() <= u32::MAX,
        decreases n - k,
    {
        proof {
            lemma_flatten_step(parts@, k as int);
            lemma_flatten_len(parts@, (k + 1) as int);
        }
        total = total + parts[k].len();
        k = k + 1;
    }
    assert(parts@.take(n as int) =~= parts@);
    match reserve_append(acct, s, cell, total) {
        Ok(()) => {},
        Err(t) => {
            return Err(t);
        },
    }
    let ghost t0 = cell.val.text(*s);
    let ghost acct1 = *acct;
    let ghost cap1 = cell.val.cap;
    proof {
        lemma_payload_spans_the_capacity(*s, cell.val.block);
    }
    let mut k: usize = 0;
    while k < n
        invariant
            n == parts@.len(),
            k <= n,
            total == flatten(part_octets(parts@)).len(),
            cell.val.fits_in(*s),
            cell.val.len + (total - flatten(part_octets(parts@.take(k as int))).len()) <= cell.val.cap,
            cell.val.len == t0.len() + flatten(part_octets(parts@.take(k as int))).len(),
            cell.val.text(*s) == t0 + flatten(part_octets(parts@.take(k as int))),
            cell.val.cap == cap1,
            *acct == acct1,
            forall|i: int| 0 <= i < parts@.len() ==> valid_utf8(#[trigger] parts@[i]@),
        decreases n - k,
    {
        proof {
            lemma_flatten_step(parts@, k as int);
            lemma_flatten_len(parts@, (k + 1) as int);
        }
        cell.val.append(s, parts[k].as_slice());
        k = k + 1;
        proof {
            lemma_payload_spans_the_capacity(*s, cell.val.block);
            assert(cell.val.text(*s) =~= t0 + flatten(part_octets(parts@.take(k as int))));
        }
    }
    assert(parts@.take(n as int) =~= parts@);
    Ok(())
}

/// How a concatenation proceeds: a single part is the identity (the
/// destination aliases it), a uniquely owned accumulator that is the
/// first part and no later one grows in place, and anything else copies
/// every part into a fresh string.
#[derive(Clone, Copy, Debug, PartialEq, Eq, Structural)]
pub enum ConcatRoute {
    Alias,
    InPlace,
    Copy,
}

/// Chooses the concatenation route. `dst_is_first`: the destination
/// register is the first part; `unique_owned`: its cell is a live owned
/// string (not a window) with one reference; `aliased_later`: a later
/// part is that same cell.
pub fn concat_route(n_parts: usize, has_dst: bool, dst_is_first: bool, unique_owned: bool, aliased_later: bool)
    -> (r: ConcatRoute)
    ensures
        r == (if n_parts == 1 {
            ConcatRoute::Alias
        } else if has_dst && dst_is_first && unique_owned && !aliased_later {
            ConcatRoute::InPlace
        } else {
            ConcatRoute::Copy
        }),
{
    if n_parts == 1 {
        ConcatRoute::Alias
    } else if has_dst && dst_is_first && unique_owned && !aliased_later {
        ConcatRoute::InPlace
    } else {
        ConcatRoute::Copy
    }
}

/// The UTF-8 encoding of a character sequence.
pub open spec fn utf8_text(cs: Seq<char>) -> Seq<u8>
    decreases cs.len(),
{
    if cs.len() == 0 {
        Seq::empty()
    } else {
        utf8_text(cs.drop_last()) + utf8_of(cs.last())
    }
}

/// Whether octets are valid UTF-8: the encoding of some characters.
pub open spec fn valid_utf8(b: Seq<u8>) -> bool {
    exists|cs: Seq<char>| utf8_text(cs) == b
}

/// Valid UTF-8 stays valid when more valid UTF-8 follows it.
pub proof fn lemma_valid_concat(a: Seq<u8>, b: Seq<u8>)
    requires
        valid_utf8(a),
        valid_utf8(b),
    ensures
        valid_utf8(a + b),
{
    let ca = choose|cs: Seq<char>| utf8_text(cs) == a;
    let cb = choose|cs: Seq<char>| utf8_text(cs) == b;
    lemma_utf8_concat(ca, cb);
    assert(utf8_text(ca + cb) == a + b);
}

/// A character's encoding is valid UTF-8.
pub proof fn lemma_valid_char(c: char)
    ensures
        valid_utf8(utf8_of(c)),
{
    let one = seq![c];
    assert(one.drop_last() =~= Seq::<char>::empty());
    assert(utf8_text(one.drop_last()) =~= Seq::<u8>::empty());
    assert(utf8_text(one) =~= utf8_of(c));
}

/// How many octets a character takes, read off its first octet.
pub open spec fn lead_len(b0: u8) -> int {
    if b0 < 0x80 {
        1
    } else if b0 < 0xE0 {
        2
    } else if b0 < 0xF0 {
        3
    } else {
        4
    }
}

/// The scalar value spelled by the octets of one character.
pub open spec fn decode_one(t: Seq<u8>) -> int {
    let l = lead_len(t[0]);
    if l == 1 {
        t[0] as int
    } else if l == 2 {
        (t[0] - 0xC0) * 64 + (t[1] - 0x80)
    } else if l == 3 {
        (t[0] - 0xE0) * 4096 + (t[1] - 0x80) * 64 + (t[2] - 0x80)
    } else {
        (t[0] - 0xF0) * 262144 + (t[1] - 0x80) * 4096 + (t[2] - 0x80) * 64 + (t[3] - 0x80)
    }
}

/// A character's encoding: a lead octet that gives its length, then
/// continuation octets, and the octets spell the character back.
pub proof fn lemma_utf8_shape(c: char)
    ensures
        utf8_of(c).len() == lead_len(utf8_of(c)[0]),
        starts_char(utf8_of(c)[0]),
        forall|m: int| 1 <= m < utf8_of(c).len() ==> 0x80 <= #[trigger] utf8_of(c)[m] < 0xC0,
        decode_one(utf8_of(c)) == c as int,
{
    let v = c as int;
    let t = utf8_of(c);
    assert(0 <= v <= 0x10FFFF);
    if v < 0x80 {
    } else if v < 0x800 {
        assert(v == (v / 64) * 64 + v % 64);
    } else if v < 0x10000 {
        assert(v == (v / 4096) * 4096 + ((v / 64) % 64) * 64 + v % 64) by {
            assert(v / 64 == (v / 4096) * 64 + (v / 64) % 64);
            assert(v == (v / 64) * 64 + v % 64);
        }
    } else {
        assert(v == (v / 262144) * 262144 + ((v / 4096) % 64) * 4096 + ((v / 64) % 64) * 64 + v % 64) by {
            assert(v / 4096 == (v / 262144) * 64 + (v / 4096) % 64);
            assert(v / 64 == (v / 4096) * 64 + (v / 64) % 64);
            assert(v == (v / 64) * 64 + v % 64);
        }
    }
}

/// Encoding distributes over concatenation.
pub proof fn lemma_utf8_concat(a: Seq<char>, b: Seq<char>)
    ensures
        utf8_text(a + b) == utf8_text(a) + utf8_text(b),
    decreases b.len(),
{
    if b.len() == 0 {
        assert(a + b =~= a);
        assert(utf8_text(a) + utf8_text(b) =~= utf8_text(a));
    } else {
        assert((a + b).drop_last() =~= a + b.drop_last());
        assert((a + b).last() == b.last());
        lemma_utf8_concat(a, b.drop_last());
        assert(utf8_text(a + b) =~= utf8_text(a) + utf8_text(b));
    }
}

/// The encoding splits around character `j`.
pub proof fn lemma_utf8_split(cs: Seq<char>, j: int)
    requires
        0 <= j < cs.len(),
    ensures
        utf8_text(cs) == utf8_text(cs.take(j)) + utf8_of(cs[j]) + utf8_text(cs.skip(j + 1)),
        utf8_text(cs.take(j + 1)) == utf8_text(cs.take(j)) + utf8_of(cs[j]),
{
    assert(cs =~= cs.take(j) + seq![cs[j]] + cs.skip(j + 1));
    lemma_utf8_concat(cs.take(j) + seq![cs[j]], cs.skip(j + 1));
    lemma_utf8_concat(cs.take(j), seq![cs[j]]);
    let one = seq![cs[j]];
    assert(one.drop_last() =~= Seq::<char>::empty());
    assert(one.last() == cs[j]);
    assert(utf8_text(one.drop_last()) =~= Seq::<u8>::empty());
    assert(utf8_text(one) =~= utf8_of(cs[j]));
    assert(cs.take(j + 1) =~= cs.take(j) + seq![cs[j]]);
}

/// Octets that start no character do not move a character scan.
proof fn lemma_skip_continuations(t: Seq<u8>, a: int, b: int, n: nat)
    requires
        0 <= a <= b <= t.len(),
        forall|m: int| a <= m < b ==> !starts_char(#[trigger] t[m]),
    ensures
        start_from(t, a, n) == start_from(t, b, n),
    decreases b - a,
{
    if a < b {
        assert(!starts_char(t[a]));
        lemma_skip_continuations(t, a + 1, b, n);
    }
}

/// In encoded text, character `j + n` starts where the encoding of the
/// first `j + n` characters ends.
pub proof fn lemma_char_starts(cs: Seq<char>, j: int, n: nat)
    requires
        0 <= j <= cs.len(),
    ensures
        start_from(utf8_text(cs), utf8_text(cs.take(j)).len() as int, n) == if j + n < cs.len() {
            utf8_text(cs.take(j + n)).len() as int
        } else {
            utf8_text(cs).len() as int
        },
    decreases cs.len() - j,
{
    let t = utf8_text(cs);
    if j == cs.len() {
        assert(cs.take(j) =~= cs);
    } else {
        lemma_utf8_split(cs, j);
        let p = utf8_text(cs.take(j));
        let e = utf8_of(cs[j]);
        let k = p.len() as int;
        lemma_utf8_shape(cs[j]);
        assert(t[k] == e[0]);
        if n > 0 {
            assert forall|m: int| k + 1 <= m < k + e.len() implies !starts_char(#[trigger] t[m]) by {
                assert(t[m] == e[m - k]);
                assert(0x80 <= e[m - k] < 0xC0);
            }
            lemma_skip_continuations(t, k + 1, k + e.len(), (n - 1) as nat);
            lemma_char_starts(cs, j + 1, (n - 1) as nat);
        }
    }
}

/// A character count adds up over concatenation.
proof fn lemma_char_count_concat(a: Seq<u8>, b: Seq<u8>)
    ensures
        char_count(a + b) == char_count(a) + char_count(b),
    decreases b.len(),
{
    if b.len() == 0 {
        assert(a + b =~= a);
    } else {
        assert((a + b).drop_last() =~= a + b.drop_last());
        lemma_char_count_concat(a, b.drop_last());
    }
}

/// Encoded text holds exactly as many characters as were encoded.
pub proof fn lemma_count_of_encoding(cs: Seq<char>)
    ensures
        char_count(utf8_text(cs)) == cs.len(),
    decreases cs.len(),
{
    if cs.len() > 0 {
        lemma_count_of_encoding(cs.drop_last());
        lemma_char_count_concat(utf8_text(cs.drop_last()), utf8_of(cs.last()));
        law_a_char_encodes_to_one_character(cs.last());
    }
}

/// Character `j` of encoded text occupies the octets from its start on,
/// exactly its own encoding.
pub proof fn lemma_char_window(cs: Seq<char>, j: int)
    requires
        0 <= j < cs.len(),
    ensures
        char_start(utf8_text(cs), j as nat) == utf8_text(cs.take(j)).len(),
        utf8_text(cs.take(j)).len() + utf8_of(cs[j]).len() <= utf8_text(cs).len(),
        utf8_text(cs).subrange(
            utf8_text(cs.take(j)).len() as int,
            (utf8_text(cs.take(j)).len() + utf8_of(cs[j]).len()) as int,
        ) == utf8_of(cs[j]),
{
    assert(cs.take(0) =~= Seq::<char>::empty());
    lemma_char_starts(cs, 0, j as nat);
    lemma_utf8_split(cs, j);
    let p = utf8_text(cs.take(j));
    let e = utf8_of(cs[j]);
    assert(utf8_text(cs).subrange(p.len() as int, (p.len() + e.len()) as int) =~= e);
}

/// Two character sequences with the same encoding agree character by
/// character.
pub proof fn lemma_chars_agree(cs: Seq<char>, ds: Seq<char>, j: int)
    requires
        utf8_text(cs) == utf8_text(ds),
        0 <= j < cs.len(),
        0 <= j < ds.len(),
    ensures
        ds[j] == cs[j],
{
    lemma_char_window(cs, j);
    lemma_char_window(ds, j);
    lemma_utf8_shape(cs[j]);
    lemma_utf8_shape(ds[j]);
    let t = utf8_text(cs);
    let k = char_start(t, j as nat);
    let e = utf8_of(cs[j]);
    let f = utf8_of(ds[j]);
    assert(e[0] == t[k]);
    assert(f[0] == t[k]);
    assert(f =~= e);
    vstd::utf8::char_u32_cast(cs[j], cs[j] as u32);
    vstd::utf8::char_u32_cast(ds[j], ds[j] as u32);
}

/// The trap text for a character index outside a string (`unit` is
/// `bytes` for an ASCII string, `chars` otherwise).
pub open spec fn char_index_text(i: i64, n: nat, ascii: bool) -> Seq<char> {
    "string index "@ + dec_int(i as int) + " out of bounds ("@ + dec_digits(n)
        + if ascii { " bytes)"@ } else { " chars)"@ }
}

/// What `s[i]` answers for a string whose octets are `text`: the
/// character at index `i` (the word's value as an unsigned index), or the
/// trap, for every character sequence the octets encode.
pub open spec fn char_at_outcome(text: Seq<u8>, ascii: bool, i: i64, r: Result<char, Trap>) -> bool {
    forall|cs: Seq<char>| #[trigger] utf8_text(cs) == text ==> {
        let idx = (#[verifier::truncate] (i as usize)) as int;
        if idx < cs.len() {
            r == Ok::<char, Trap>(cs[idx])
        } else {
            r matches Err(t) && t.kind == TrapKind::IndexOutOfBounds && t.msg@ == char_index_text(i, cs.len(), ascii)
        }
    }
}

/// Reads the character at index `i` of a string: an ASCII string by
/// octet, any other by walking its characters.
pub fn str_char_at(text: &[u8], ascii: bool, i: i64) -> (r: Result<char, Trap>)
    requires
        ascii == all_ascii(text@),
        valid_utf8(text@),
    ensures
        char_at_outcome(text@, ascii, i, r),
{
    let ghost cs = choose|cs: Seq<char>| utf8_text(cs) == text@;
    proof {
        lemma_count_of_encoding(cs);
        if ascii {
            lemma_ascii_counts_every_octet(text@);
        }
        assert forall|ds: Seq<char>| #[trigger] utf8_text(ds) == text@ implies ds.len() == cs.len() by {
            lemma_count_of_encoding(ds);
        }
    }
    let idx = #[verifier::truncate] (i as usize);
    let n = if ascii { text.len() } else { count_chars(text) };
    if idx >= n {
        let mut m = String::new();
        push_str(&mut m, "string index ");
        push_i64(&mut m, i);
        push_str(&mut m, " out of bounds (");
        push_u64(&mut m, n as u64);
        if ascii {
            push_str(&mut m, " bytes)");
        } else {
            push_str(&mut m, " chars)");
        }
        return Err(Trap::new(TrapKind::IndexOutOfBounds, m));
    }
    let k = if ascii {
        proof {
            lemma_ascii_start(text@, 0, idx as nat);
        }
        idx
    } else {
        char_start_of(text, idx as u64)
    };
    proof {
        lemma_char_window(cs, idx as int);
        lemma_utf8_shape(cs[idx as int]);
        let e = utf8_of(cs[idx as int]);
        assert forall|m: int| 0 <= m < e.len() implies #[trigger] text@[k + m] == e[m] by {
            assert(text@.subrange(k as int, k + e.len())[m] == text@[k + m]);
        }
    }
    let ghost e = utf8_of(cs[idx as int]);
    let b0 = text[k];
    let v: u32 = if b0 < 0x80 {
        b0 as u32
    } else if b0 < 0xE0 {
        (b0 - 0xC0) as u32 * 64 + (text[k + 1] - 0x80) as u32
    } else if b0 < 0xF0 {
        (b0 - 0xE0) as u32 * 4096 + (text[k + 1] - 0x80) as u32 * 64 + (text[k + 2] - 0x80) as u32
    } else {
        (b0 - 0xF0) as u32 * 262144 + (text[k + 1] - 0x80) as u32 * 4096 + (text[k + 2] - 0x80) as u32 * 64
            + (text[k + 3] - 0x80) as u32
    };
    proof {
        assert(text@[k as int] == e[0]);
        assert(v == decode_one(e));
        assert(v == cs[idx as int] as int);
        vstd::utf8::char_is_scalar(cs[idx as int]);
    }
    let c = char_from_u32(v).unwrap();
    proof {
        vstd::utf8::char_u32_cast(c, c as u32);
        vstd::utf8::char_u32_cast(cs[idx as int], cs[idx as int] as u32);
        assert(c == cs[idx as int]);
        assert forall|ds: Seq<char>| #[trigger] utf8_text(ds) == text@ implies ds[idx as int] == c by {
            lemma_chars_agree(cs, ds, idx as int);
        }
    }
    Ok(c)
}

/// Character `n` of encoded text starts where the encoding of the first
/// `n` characters ends (for `n` up to the character count).
pub proof fn lemma_char_start_of_encoding(cs: Seq<char>, n: nat)
    requires
        n <= cs.len(),
    ensures
        char_start(utf8_text(cs), n) == utf8_text(cs.take(n as int)).len(),
{
    assert(cs.take(0) =~= Seq::<char>::empty());
    lemma_char_starts(cs, 0, n);
    if n == cs.len() {
        assert(cs.take(n as int) =~= cs);
    }
}

/// A string slice is a window onto exactly the characters between its
/// bounds: on the encoding of `cs`, `slice(from, to)` answers the octets
/// that encode `cs[from..to]`.
pub proof fn law_a_slice_holds_the_characters_between_its_bounds(
    cs: Seq<char>,
    root_ascii: bool,
    from: i64,
    to: i64,
    r: Result<(u32, u32, bool), Trap>,
)
    requires
        0 <= from <= to <= cs.len(),
        utf8_text(cs).len() <= u32::MAX,
        str_slice_outcome(true, utf8_text(cs), Seq::empty(), Some(root_ascii), from, to, r),
    ensures
        r matches Ok((off, len, ra)) && ra == root_ascii
            && utf8_text(cs).subrange(off as int, off + len) == utf8_text(cs.subrange(from as int, to as int)),
{
    lemma_count_of_encoding(cs);
    lemma_char_start_of_encoding(cs, from as nat);
    lemma_char_start_of_encoding(cs, to as nat);
    let a = cs.take(from as int);
    let m = cs.subrange(from as int, to as int);
    let z = cs.skip(to as int);
    assert(cs.take(to as int) =~= a + m);
    assert(cs =~= a + m + z);
    lemma_utf8_concat(a, m);
    lemma_utf8_concat(a + m, z);
    let t = utf8_text(cs);
    let bfrom = utf8_text(a).len() as int;
    let bto = utf8_text(a + m).len() as int;
    assert(offs_sum(Seq::<u32>::empty()) == 0);
    assert(t =~= utf8_text(a) + utf8_text(m) + utf8_text(z));
    assert(t.subrange(bfrom, bto) =~= utf8_text(m));
}

/// String comparison: two strings are equal exactly when their octets
/// are; `eq` chooses between `==` and `!=`.
pub fn str_compare(a: &[u8], b: &[u8], eq: bool) -> (r: bool)
    ensures
        r == ((a@ == b@) == eq),
{
    let same = if a.len() != b.len() {
        false
    } else {
        let mut k: usize = 0;
        let mut same = true;
        assert(a@.take(0) =~= b@.take(0));
        while k < a.len()
            invariant
                a@.len() == b@.len(),
                k <= a@.len(),
                same == (a@.take(k as int) == b@.take(k as int)),
            decreases a@.len() - k,
        {
            proof {
                assert(a@.take(k + 1) == a@.take(k as int).push(a@[k as int]));
                assert(b@.take(k + 1) == b@.take(k as int).push(b@[k as int]));
                if a@.take(k + 1) == b@.take(k + 1) {
                    assert(a@.take(k + 1)[k as int] == b@.take(k + 1)[k as int]);
                    assert(a@.take(k as int) =~= a@.take(k + 1).drop_last());
                    assert(b@.take(k as int) =~= b@.take(k + 1).drop_last());
                }
            }
            same = same && a[k] == b[k];
            k = k + 1;
        }
        assert(a@.take(a@.len() as int) =~= a@);
        assert(b@.take(b@.len() as int) =~= b@);
        same
    };
    same == eq
}

/// Octet equality is string equality: two character sequences encode to
/// the same octets exactly when they are the same characters.
pub proof fn law_equal_octets_are_equal_strings(cs: Seq<char>, ds: Seq<char>)
    ensures
        (utf8_text(cs) == utf8_text(ds)) <==> (cs == ds),
{
    if utf8_text(cs) == utf8_text(ds) {
        lemma_count_of_encoding(cs);
        lemma_count_of_encoding(ds);
        assert forall|j: int| 0 <= j < cs.len() implies cs[j] == ds[j] by {
            lemma_chars_agree(cs, ds, j);
        }
        assert(cs =~= ds);
    }
}

/// The capacity a string builder is created with: the requested octet
/// count, which must not be negative.
pub fn builder_capacity(cap: i64) -> (r: Result<usize, Trap>)
    ensures
        cap >= 0 ==> r == Ok::<usize, Trap>(cap as usize),
        cap < 0 ==> (r matches Err(t) && t.kind == TrapKind::Invalid
            && t.msg@ == "StrBuf(cap): capacity must be >= 0, got "@ + dec_int(cap as int)),
{
    if cap < 0 {
        let mut m = String::new();
        push_str(&mut m, "StrBuf(cap): capacity must be >= 0, got ");
        push_i64(&mut m, cap);
        return Err(Trap::new(TrapKind::Invalid, m));
    }
    Ok(cap as usize)
}

/// The octets `push_code` appends for a code point: its UTF-8 encoding,
/// or that of U+FFFD when the word is no scalar value (a surrogate, or
/// past `0x10FFFF`). Always exactly one character.
pub fn code_point_octets(cp: i64) -> (b: Vec<u8>)
    ensures
        b@ == utf8_of(word_char(cp, '\u{FFFD}')),
        char_count(b@) == 1,
        valid_utf8(b@),
{
    let c = char_of_word(cp, '\u{FFFD}');
    proof {
        law_a_char_encodes_to_one_character(c);
        lemma_valid_char(c);
    }
    encode_utf8(c)
}

} // verus!
