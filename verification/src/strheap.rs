//! `str` cells on the heap: allocation from octets and in-place appends
//! that grow the payload block geometrically, every byte charged to the
//! heap budget.
use vstd::prelude::*;
use crate::acct::{HeapAcct, admits, charge_outcome};
use crate::blocks::{Block, Blocks, alloc_cap, lemma_alloc_cap, lemma_payload_spans_the_capacity};
use crate::cell::{StrVal, all_ascii, octets_are_ascii, char_count, starts_char};
use crate::trap::Trap;
use crate::strops::{valid_utf8, lemma_valid_char};

verus! {

/// Bytes charged per cell beyond its payload.
pub const CELL_OVERHEAD: u64 = 24;

/// A `str` cell: its payload and the bytes charged for it.
pub struct StrCell {
    pub val: StrVal,
    /// the accounted bytes, refunded when the cell dies
    pub bytes: u32,
}

/// A cell's recorded charge, capped at `u32::MAX`.
pub open spec fn capped(n: int) -> u32 {
    if n > u32::MAX {
        u32::MAX
    } else {
        n as u32
    }
}

/// The charge a grown `str` cell records: overhead, the payload handle,
/// and the capacity it holds.
pub open spec fn grown_charge(cap: int) -> u32 {
    capped(CELL_OVERHEAD + 8 + cap)
}

/// The capacity a `str` cell grows to when `need` octets no longer fit in
/// `cap`: at least double, class-rounded.
pub open spec fn grown_cap(need: int, cap: int) -> int {
    alloc_cap(if need > 2 * cap { need } else { 2 * cap })
}

/// The charge a cell's growth to `cap` adds to what it recorded.
pub open spec fn growth_delta(recorded: u32, cap: int) -> u64 {
    (if grown_charge(cap) > recorded { grown_charge(cap) - recorded } else { 0 }) as u64
}

/// A result with its success value dropped.
pub open spec fn outcome_of<T>(r: Result<T, Trap>) -> Result<(), Trap> {
    match r {
        Ok(_) => Ok(()),
        Err(t) => Err(t),
    }
}

/// A `str` cell holding `octets` (valid UTF-8 by the caller's
/// construction): a block is taken from the store and filled, then the
/// cell is charged its overhead plus the octets. A refused charge leaves
/// the block taken.
pub fn alloc_str_bytes(acct: &mut HeapAcct, s: &mut Blocks, octets: &[u8]) -> (r: Result<StrCell, Trap>)
    requires
        old(s).wf(),
        valid_utf8(octets@),
        octets@.len() + 16 <= u32::MAX,
        old(acct).used + CELL_OVERHEAD + octets@.len() <= u64::MAX,
    ensures
        final(s).wf(),
        charge_outcome(*old(acct), *final(acct), (CELL_OVERHEAD + octets@.len()) as u64, outcome_of(r)),
        r is Ok <==> admits(*old(acct), (CELL_OVERHEAD + octets@.len()) as u64),
        r matches Ok(c) ==> {
            &&& c.val.fits_in(*final(s))
            &&& c.val.text(*final(s)) == octets@
            &&& c.val.cap == alloc_cap(octets@.len() as int)
            &&& c.bytes == capped(CELL_OVERHEAD + octets@.len())
            &&& (old(s).spare(c.val.block) || !old(s).valid(c.val.block))
            &&& forall|x: Block| x != c.val.block ==> #[trigger] final(s).keeps(*old(s), x)
        },
{
    let n = octets.len();
    let ascii = octets_are_ascii(octets);
    let b = s.allocate(n);
    let ghost mid = *s;
    let cap = s.cap_of(b);
    proof {
        lemma_alloc_cap(n as int);
        lemma_payload_spans_the_capacity(*s, b);
    }
    s.write(b, 0, octets);
    let val = StrVal { block: b, len: n as u32, cap: cap as u32, ascii };
    proof {
        let p = s.payload(b);
        assert(p.subrange(0, n as int) =~= octets@);
        assert forall|x: Block| x != b implies #[trigger] s.keeps(*old(s), x) by {
            assert(mid.keeps(*old(s), x));
            assert(s.keeps(mid, x));
        }
    }
    let charge = CELL_OVERHEAD + n as u64;
    match acct.charge(charge) {
        Ok(()) => {},
        Err(t) => {
            return Err(t);
        },
    }
    let bytes: u32 = if charge > u32::MAX as u64 {
        u32::MAX
    } else {
        charge as u32
    };
    Ok(StrCell { val, bytes })
}

/// Makes room for `extra` more octets in a `str` cell, in one growth
/// decision: a cell that has the room is left alone; otherwise the block
/// grows (geometrically, class-rounded) and the cell's charge is raised to
/// the capacity it now holds. A refused charge leaves the text and the
/// recorded charge as they were (only spare capacity was reserved).
pub fn reserve_append(acct: &mut HeapAcct, s: &mut Blocks, cell: &mut StrCell, extra: usize) -> (r: Result<(), Trap>)
    requires
        old(cell).val.fits_in(*old(s)),
        old(cell).val.len + extra + 16 <= u32::MAX,
        2 * old(cell).val.cap + 16 <= u32::MAX,
        old(cell).val.len + extra > old(cell).val.cap ==> old(acct).used + growth_delta(
            old(cell).bytes,
            grown_cap(old(cell).val.len + extra, old(cell).val.cap as int),
        ) <= u64::MAX,
    ensures
        final(cell).val.fits_in(*final(s)),
        final(cell).val.text(*final(s)) == old(cell).val.text(*old(s)),
        final(cell).val.ascii == old(cell).val.ascii,
        r is Ok ==> final(cell).val.len + extra <= final(cell).val.cap,
        old(cell).val.len + extra <= old(cell).val.cap ==> {
            &&& r is Ok
            &&& *final(cell) == *old(cell)
            &&& *final(s) == *old(s)
            &&& *final(acct) == *old(acct)
        },
        old(cell).val.len + extra > old(cell).val.cap ==> {
            let delta = (if grown_charge(final(cell).val.cap as int) > old(cell).bytes {
                grown_charge(final(cell).val.cap as int) - old(cell).bytes
            } else {
                0
            }) as u64;
            &&& final(cell).val.cap >= old(cell).val.len + extra
            &&& final(cell).val.cap >= 2 * old(cell).val.cap
            &&& final(cell).val.cap == grown_cap(old(cell).val.len + extra, old(cell).val.cap as int)
            &&& charge_outcome(*old(acct), *final(acct), delta, r)
            &&& final(cell).bytes == (if r is Ok { grown_charge(final(cell).val.cap as int) } else { old(cell).bytes })
        },
{
    let need = cell.val.len as usize + extra;
    if need > cell.val.cap as usize {
        let ghost s0 = *s;
        let ghost v0 = cell.val;
        let len = cell.val.len as usize;
        let nb = s.grow(cell.val.block, len, need);
        let c = s.cap_of(nb);
        proof {
            let target = if need > 2 * v0.cap { need as int } else { 2 * v0.cap as int };
            lemma_alloc_cap(target);
            lemma_payload_spans_the_capacity(*s, nb);
            lemma_payload_spans_the_capacity(s0, v0.block);
            assert(s.payload(nb).subrange(0, len as int) == s0.payload(v0.block).subrange(0, len as int));
        }
        cell.val.block = nb;
        cell.val.cap = c as u32;
        let full = CELL_OVERHEAD + 8 + c as u64;
        let new_bytes: u32 = if full > u32::MAX as u64 {
            u32::MAX
        } else {
            full as u32
        };
        let delta = (new_bytes as u64).saturating_sub(cell.bytes as u64);
        match acct.charge(delta) {
            Ok(()) => {},
            Err(t) => {
                return Err(t);
            },
        }
        cell.bytes = new_bytes;
    }
    Ok(())
}

/// Appends `extra` to a `str` cell in place, growing it first when it is
/// full (see `reserve_append`); a refused charge appends nothing.
pub fn append_bytes(acct: &mut HeapAcct, s: &mut Blocks, cell: &mut StrCell, extra: &[u8]) -> (r: Result<(), Trap>)
    requires
        old(cell).val.fits_in(*old(s)),
        valid_utf8(extra@),
        old(cell).val.len + extra@.len() + 16 <= u32::MAX,
        2 * old(cell).val.cap + 16 <= u32::MAX,
        old(cell).val.len + extra@.len() > old(cell).val.cap ==> old(acct).used + growth_delta(
            old(cell).bytes,
            grown_cap(old(cell).val.len + extra@.len(), old(cell).val.cap as int),
        ) <= u64::MAX,
    ensures
        final(cell).val.fits_in(*final(s)),
        r is Ok ==> final(cell).val.text(*final(s)) == old(cell).val.text(*old(s)) + extra@,
        r is Err ==> final(cell).val.text(*final(s)) == old(cell).val.text(*old(s)),
        r is Ok <==> (old(cell).val.len + extra@.len() <= old(cell).val.cap || admits(
            *old(acct),
            (if grown_charge(final(cell).val.cap as int) > old(cell).bytes {
                grown_charge(final(cell).val.cap as int) - old(cell).bytes
            } else {
                0
            }) as u64,
        )),
        r is Err ==> *final(acct) == *old(acct),
{
    match reserve_append(acct, s, cell, extra.len()) {
        Ok(()) => {},
        Err(t) => {
            return Err(t);
        },
    }
    let ghost c1 = cell.val;
    cell.val.append(s, extra);
    Ok(())
}

/// The UTF-8 encoding of a character: one octet below `0x80`, else a lead
/// octet carrying the high bits and six bits per continuation octet.
pub open spec fn utf8_of(c: char) -> Seq<u8> {
    let v = c as int;
    if v < 0x80 {
        seq![v as u8]
    } else if v < 0x800 {
        seq![(0xC0 + v / 64) as u8, (0x80 + v % 64) as u8]
    } else if v < 0x10000 {
        seq![(0xE0 + v / 4096) as u8, (0x80 + (v / 64) % 64) as u8, (0x80 + v % 64) as u8]
    } else {
        seq![
            (0xF0 + v / 262144) as u8,
            (0x80 + (v / 4096) % 64) as u8,
            (0x80 + (v / 64) % 64) as u8,
            (0x80 + v % 64) as u8,
        ]
    }
}

/// Encodes a character as UTF-8.
pub fn encode_utf8(c: char) -> (b: Vec<u8>)
    ensures
        b@ == utf8_of(c),
{
    let v = c as u32;
    let mut b: Vec<u8> = Vec::new();
    if v < 0x80 {
        b.push(v as u8);
    } else if v < 0x800 {
        b.push((0xC0 + v / 64) as u8);
        b.push((0x80 + v % 64) as u8);
    } else if v < 0x10000 {
        b.push((0xE0 + v / 4096) as u8);
        b.push((0x80 + (v / 64) % 64) as u8);
        b.push((0x80 + v % 64) as u8);
    } else {
        b.push((0xF0 + v / 262144) as u8);
        b.push((0x80 + (v / 4096) % 64) as u8);
        b.push((0x80 + (v / 64) % 64) as u8);
        b.push((0x80 + v % 64) as u8);
    }
    assert(b@ =~= utf8_of(c));
    b
}

/// A one-character `str` cell: the character's UTF-8 octets in a block of
/// their own, charged like any other `str`.
pub fn alloc_char(acct: &mut HeapAcct, s: &mut Blocks, c: char) -> (r: Result<StrCell, Trap>)
    requires
        old(s).wf(),
        old(acct).used + CELL_OVERHEAD + 4 <= u64::MAX,
    ensures
        final(s).wf(),
        charge_outcome(*old(acct), *final(acct), (CELL_OVERHEAD + utf8_of(c).len()) as u64, outcome_of(r)),
        r is Ok <==> admits(*old(acct), (CELL_OVERHEAD + utf8_of(c).len()) as u64),
        r matches Ok(cell) ==> {
            &&& cell.val.fits_in(*final(s))
            &&& cell.val.text(*final(s)) == utf8_of(c)
            &&& cell.val.ascii == ((c as int) < 0x80)
            &&& cell.bytes == CELL_OVERHEAD + utf8_of(c).len()
        },
{
    let b = encode_utf8(c);
    proof {
        lemma_valid_char(c);
    }
    let r = alloc_str_bytes(acct, s, b.as_slice());
    proof {
        if r is Ok {
            let t = utf8_of(c);
            if (c as int) < 0x80 {
                assert(all_ascii(t));
            } else {
                assert(!(t[0] < 128));
            }
        }
    }
    r
}

/// A character's encoding is one character long: exactly its first octet
/// starts a character.
pub proof fn law_a_char_encodes_to_one_character(c: char)
    ensures
        char_count(utf8_of(c)) == 1,
        1 <= utf8_of(c).len() <= 4,
{
    let t = utf8_of(c);
    reveal_with_fuel(char_count, 5);
    assert(starts_char(t[0]));
    assert(forall|i: int| 1 <= i < t.len() ==> !starts_char(#[trigger] t[i]));
    if t.len() == 1 {
        assert(t.drop_last().len() == 0);
    } else if t.len() == 2 {
        assert(t.drop_last() =~= seq![t[0]]);
        assert(seq![t[0]].drop_last() =~= Seq::<u8>::empty());
    } else if t.len() == 3 {
        assert(t.drop_last() =~= seq![t[0], t[1]]);
        assert(seq![t[0], t[1]].drop_last() =~= seq![t[0]]);
        assert(seq![t[0]].drop_last() =~= Seq::<u8>::empty());
    } else {
        assert(t.drop_last() =~= seq![t[0], t[1], t[2]]);
        assert(seq![t[0], t[1], t[2]].drop_last() =~= seq![t[0], t[1]]);
        assert(seq![t[0], t[1]].drop_last() =~= seq![t[0]]);
        assert(seq![t[0]].drop_last() =~= Seq::<u8>::empty());
    }
}

} // verus!
