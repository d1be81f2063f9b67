//! Element reads and writes on sequence cells. A plain array is indexed
//! directly; an array view is a fixed-length window whose element `i` is
//! element `off + i` of its parent array, and writes through it land in
//! the parent.
use vstd::prelude::*;
use crate::trap::{Trap, TrapKind};
use crate::text::{push_str, push_i64, push_u64, dec_int, dec_digits};

verus! {

/// A sequence cell as indexing sees it: an array with its element words,
/// a window of `len` elements from `off` into its parent, or any other
/// cell.
pub enum SeqCell {
    Array(Vec<i64>),
    View { off: u32, len: u32 },
    Other,
}

/// Array lengths are 32-bit, as in the cell layout.
pub open spec fn seq_wf(c: SeqCell) -> bool {
    c matches SeqCell::Array(items) ==> items@.len() <= u32::MAX
}

/// The trap text for an index outside a plain array (`what` names the
/// access: a read says `array index`, a write `index`).
pub open spec fn array_index_text(what: Seq<char>, i: int, len: nat) -> Seq<char> {
    what + " "@ + dec_int(i) + " out of bounds (len "@ + dec_digits(len) + ")"@
}

/// The trap text for an index outside a window.
pub open spec fn view_index_text(i: int, len: nat) -> Seq<char> {
    array_index_text("view index"@, i, len)
}

/// Whether `r` is an `IndexOutOfBounds` trap with text `msg`.
pub open spec fn is_oob(r: Result<i64, Trap>, msg: Seq<char>) -> bool {
    r matches Err(t) && t.kind == TrapKind::IndexOutOfBounds && t.msg@ == msg
}

/// Whether `r` is an `Invalid` trap with text `msg`.
pub open spec fn is_invalid(r: Result<i64, Trap>, msg: Seq<char>) -> bool {
    r matches Err(t) && t.kind == TrapKind::Invalid && t.msg@ == msg
}

/// The parent element a window index reaches, if the window admits it: a
/// window compares the index's low 32 bits with its length.
pub open spec fn view_slot(off: u32, len: u32, i: i64) -> Option<int> {
    if (#[verifier::truncate] (i as u32)) >= len {
        None
    } else {
        Some(off + (#[verifier::truncate] (i as u32)))
    }
}

/// What reading element `i` of `cell` answers, `parent` being the cell a
/// window looks into.
pub open spec fn get_outcome(cell: SeqCell, parent: SeqCell, i: i64, r: Result<i64, Trap>) -> bool {
    match cell {
        SeqCell::Array(items) => if 0 <= i < items@.len() {
            r == Ok::<i64, Trap>(items@[i as int])
        } else {
            is_oob(r, array_index_text("array index"@, i as int, items@.len()))
        },
        SeqCell::View { off, len } => match view_slot(off, len, i) {
            None => is_oob(r, view_index_text(i as int, len as nat)),
            Some(at) => match parent {
                SeqCell::Array(items) => if at < items@.len() {
                    r == Ok::<i64, Trap>(items@[at])
                } else {
                    is_oob(r, view_index_text(i as int, len as nat))
                },
                _ => is_invalid(r, "view over a non-array backing"@),
            },
        },
        SeqCell::Other => is_invalid(r, "index on non-sequence"@),
    }
}

/// What writing `v` at element `i` of `cell` answers (the displaced
/// word) and leaves behind: a plain array changes in place, a window's
/// write lands in its parent, and a refused write changes nothing.
pub open spec fn set_outcome(
    cell: SeqCell,
    parent: SeqCell,
    i: i64,
    v: i64,
    r: Result<i64, Trap>,
    cell2: SeqCell,
    parent2: SeqCell,
) -> bool {
    match cell {
        SeqCell::Array(items) => if 0 <= i < items@.len() {
            &&& r == Ok::<i64, Trap>(items@[i as int])
            &&& cell2 matches SeqCell::Array(items2) && items2@ == items@.update(i as int, v)
            &&& parent2 == parent
        } else {
            &&& is_oob(r, array_index_text("index"@, i as int, items@.len()))
            &&& cell2 == cell
            &&& parent2 == parent
        },
        SeqCell::View { off, len } => {
            &&& cell2 == cell
            &&& match view_slot(off, len, i) {
                None => is_oob(r, view_index_text(i as int, len as nat)) && parent2 == parent,
                Some(at) => match parent {
                    SeqCell::Array(items) => if at < items@.len() {
                        &&& r == Ok::<i64, Trap>(items@[at])
                        &&& parent2 matches SeqCell::Array(items2) && items2@ == items@.update(at, v)
                    } else {
                        is_oob(r, view_index_text(i as int, len as nat)) && parent2 == parent
                    },
                    _ => is_invalid(r, "view over a non-array backing"@) && parent2 == parent,
                },
            }
        },
        SeqCell::Other => {
            &&& is_invalid(r, "index-set on non-sequence"@)
            &&& cell2 == cell
            &&& parent2 == parent
        },
    }
}

fn index_trap(what: &str, i: i64, len: u64) -> (t: Trap)
    ensures
        t.kind == TrapKind::IndexOutOfBounds,
        t.msg@ == what@ + " "@ + dec_int(i as int) + " out of bounds (len "@ + dec_digits(len as nat) + ")"@,
{
    let mut m = String::new();
    push_str(&mut m, what);
    push_str(&mut m, " ");
    push_i64(&mut m, i);
    push_str(&mut m, " out of bounds (len ");
    push_u64(&mut m, len);
    push_str(&mut m, ")");
    Trap::new(TrapKind::IndexOutOfBounds, m)
}

/// Reads element `i`. A plain array needs one unsigned compare, which
/// refuses negative and too-large indices alike; a window checks its own
/// length and then reads its parent.
pub fn seq_get(cell: &SeqCell, parent: &SeqCell, i: i64) -> (r: Result<i64, Trap>)
    requires
        seq_wf(*cell),
        seq_wf(*parent),
    ensures
        get_outcome(*cell, *parent, i, r),
{
    match cell {
        SeqCell::Array(items) => {
            let n = items.len() as u64;
            assert(((#[verifier::truncate] (i as u64)) < n) == (0 <= i && i < n)) by (bit_vector)
                requires
                    n <= 0xffff_ffffu64,
            ;
            if (#[verifier::truncate] (i as u64)) < n {
                return Ok(items[i as usize]);
            }
            let t = index_trap("array index", i, n);
            assert(t.msg@ == array_index_text("array index"@, i as int, items@.len()));
            assert(!(0 <= i < items@.len()));
            assert(is_oob(Err(t), array_index_text("array index"@, i as int, items@.len())));
            Err(t)
        },
        SeqCell::View { off, len } => {
            let j = #[verifier::truncate] (i as u32);
            if j >= *len {
                let t = index_trap("view index", i, *len as u64);
                assert(t.msg@ == view_index_text(i as int, *len as nat));
                return Err(t);
            }
            match parent {
                SeqCell::Array(items) => {
                    let at = *off as u64 + j as u64;
                    if at < items.len() as u64 {
                        Ok(items[at as usize])
                    } else {
                        Err(index_trap("view index", i, *len as u64))
                    }
                },
                _ => Err(Trap::new(TrapKind::Invalid, "view over a non-array backing".to_owned())),
            }
        },
        SeqCell::Other => Err(Trap::new(TrapKind::Invalid, "index on non-sequence".to_owned())),
    }
}

/// Writes `v` at element `i` and answers the displaced word (the caller
/// releases it). A plain array is written in place; a window's write goes
/// through to its parent (the window is a pointer, not a copy).
pub fn seq_set(cell: &mut SeqCell, parent: &mut SeqCell, i: i64, v: i64) -> (r: Result<i64, Trap>)
    requires
        seq_wf(*old(cell)),
        seq_wf(*old(parent)),
    ensures
        seq_wf(*final(cell)),
        seq_wf(*final(parent)),
        set_outcome(*old(cell), *old(parent), i, v, r, *final(cell), *final(parent)),
{
    match cell {
        SeqCell::Array(items) => {
            let n = items.len() as u64;
            assert(((#[verifier::truncate] (i as u64)) < n) == (0 <= i && i < n)) by (bit_vector)
                requires
                    n <= 0xffff_ffffu64,
            ;
            if (#[verifier::truncate] (i as u64)) < n {
                let displaced = items[i as usize];
                items[i as usize] = v;
                return Ok(displaced);
            }
            let t = index_trap("index", i, n);
            assert(t.msg@ == array_index_text("index"@, i as int, old(cell)->Array_0@.len()));
            assert(is_oob(Err(t), array_index_text("index"@, i as int, old(cell)->Array_0@.len())));
            Err(t)
        },
        SeqCell::View { off, len } => {
            let j = #[verifier::truncate] (i as u32);
            if j >= *len {
                let t = index_trap("view index", i, *len as u64);
                assert(t.msg@ == view_index_text(i as int, *len as nat));
                return Err(t);
            }
            let at = *off as u64 + j as u64;
            match parent {
                SeqCell::Array(items) => {
                    if at < items.len() as u64 {
                        let displaced = items[at as usize];
                        items[at as usize] = v;
                        Ok(displaced)
                    } else {
                        let t = index_trap("view index", i, *len as u64);
                        assert(t.msg@ == view_index_text(i as int, *len as nat));
                        Err(t)
                    }
                },
                _ => Err(Trap::new(TrapKind::Invalid, "view over a non-array backing".to_owned())),
            }
        },
        SeqCell::Other => Err(Trap::new(TrapKind::Invalid, "index-set on non-sequence".to_owned())),
    }
}

/// The total offset of a window chain: the sum of the windows' offsets.
pub open spec fn chain_offset(views: Seq<(u32, u32)>) -> int
    decreases views.len(),
{
    if views.len() == 0 {
        0
    } else {
        chain_offset(views.drop_last()) + views.last().0
    }
}

/// The live length a slice is checked against: the caller's, unless the
/// receiver is a window, and then the length of the last window on the way
/// to the backing array.
pub open spec fn slice_live(views: Seq<(u32, u32)>, live: i64) -> int {
    if views.len() == 0 {
        live as int
    } else {
        views.last().1 as int
    }
}

/// The trap text for a slice outside the live length.
pub open spec fn slice_text(from: i64, to: i64, live: int) -> Seq<char> {
    "slice "@ + dec_int(from as int) + ".."@ + dec_int(to as int) + " out of bounds (len "@
        + dec_int(live) + ")"@
}

/// What `v.slice(from, to)` answers: the window's offset into the backing
/// array and its length, or the trap. `views` are the windows met from the
/// receiver towards the backing array, and `root_is_array` says whether
/// that walk ended at an array (rather than at some other cell).
pub open spec fn slice_outcome(
    views: Seq<(u32, u32)>,
    root_is_array: bool,
    from: i64,
    to: i64,
    live: i64,
    r: Result<(u32, u32), Trap>,
) -> bool {
    let lv = slice_live(views, live);
    if !root_is_array {
        r matches Err(t) && t.kind == TrapKind::Invalid && t.msg@ == "slice on non-sequence"@
    } else if from < 0 || to < from || to > lv {
        r matches Err(t) && t.kind == TrapKind::IndexOutOfBounds && t.msg@ == slice_text(from, to, lv)
    } else {
        r == Ok::<(u32, u32), Trap>((
            (chain_offset(views) + (#[verifier::truncate] (from as u32))) as u32,
            (#[verifier::truncate] ((to - from) as u32)),
        ))
    }
}

/// Decides a slice: flattens a window-of-a-window onto the backing array
/// (so the new window never nests) and checks the bounds against the live
/// length. The windows of a chain lie within the backing array, so their
/// offsets and the last one's extent fit in 32 bits.
pub fn slice_window(views: &Vec<(u32, u32)>, root_is_array: bool, from: i64, to: i64, live: i64)
    -> (r: Result<(u32, u32), Trap>)
    requires
        views@.len() > 0 ==> chain_offset(views@) + views@.last().1 <= u32::MAX,
    ensures
        slice_outcome(views@, root_is_array, from, to, live, r),
{
    let n = views.len();
    let mut base: u32 = 0;
    let mut lv: i64 = live;
    let mut k: usize = 0;
    while k < n
        invariant
            n == views@.len(),
            k <= n,
            n > 0 ==> chain_offset(views@) + views@.last().1 <= u32::MAX,
            base == chain_offset(views@.take(k as int)),
            lv == slice_live(views@.take(k as int), live),
        decreases n - k,
    {
        proof {
            lemma_chain_offset_grows(views@, (k + 1) as int);
            assert(views@.take(k + 1).drop_last() =~= views@.take(k as int));
        }
        let (off, len) = views[k];
        base = base + off;
        lv = len as i64;
        k = k + 1;
    }
    assert(views@.take(n as int) =~= views@);
    if !root_is_array {
        return Err(Trap::new(TrapKind::Invalid, "slice on non-sequence".to_owned()));
    }
    if from < 0 || to < from || to > lv {
        let mut m = String::new();
        push_str(&mut m, "slice ");
        push_i64(&mut m, from);
        push_str(&mut m, "..");
        push_i64(&mut m, to);
        push_str(&mut m, " out of bounds (len ");
        push_i64(&mut m, lv);
        push_str(&mut m, ")");
        return Err(Trap::new(TrapKind::IndexOutOfBounds, m));
    }
    proof {
        if n > 0 {
            assert(from <= views@.last().1);
        }
    }
    Ok((base + from as u32, (to - from) as u32))
}

/// A prefix of a chain has no larger offset than the whole chain.
proof fn lemma_chain_offset_grows(views: Seq<(u32, u32)>, k: int)
    requires
        0 <= k <= views.len(),
    ensures
        chain_offset(views.take(k)) <= chain_offset(views),
    decreases views.len() - k,
{
    if k < views.len() {
        lemma_chain_offset_grows(views, k + 1);
        assert(views.take(k + 1).drop_last() =~= views.take(k));
    } else {
        assert(views.take(k) =~= views);
    }
}

/// A read after a write at the same index answers the written word, on a
/// plain array and through a window alike; other elements read as before.
pub proof fn law_read_after_write(
    cell: SeqCell,
    parent: SeqCell,
    i: i64,
    v: i64,
    w: Result<i64, Trap>,
    cell2: SeqCell,
    parent2: SeqCell,
    k: i64,
    r: Result<i64, Trap>,
    r0: Result<i64, Trap>,
)
    requires
        set_outcome(cell, parent, i, v, w, cell2, parent2),
        w is Ok,
        get_outcome(cell2, parent2, k, r),
        get_outcome(cell, parent, k, r0),
    ensures
        k == i ==> r == Ok::<i64, Trap>(v),
        (match cell {
            SeqCell::View { off, len } => view_slot(off, len, k) != view_slot(off, len, i),
            _ => k != i,
        }) ==> (r is Ok <==> r0 is Ok) && (r is Ok ==> r == r0),
{
}

/// A window is a pointer, not a copy: a write through it is a write to
/// its parent at the window's offset.
pub proof fn law_a_window_write_lands_in_the_parent(
    off: u32,
    len: u32,
    parent: SeqCell,
    i: i64,
    v: i64,
    w: Result<i64, Trap>,
    cell2: SeqCell,
    parent2: SeqCell,
)
    requires
        set_outcome(SeqCell::View { off, len }, parent, i, v, w, cell2, parent2),
        w is Ok,
    ensures
        view_slot(off, len, i) matches Some(at) && parent2 matches SeqCell::Array(items) && items@[at] == v,
        cell2 == (SeqCell::View { off, len }),
{
}

/// A refused write changes nothing.
pub proof fn law_a_refused_write_changes_nothing(
    cell: SeqCell,
    parent: SeqCell,
    i: i64,
    v: i64,
    w: Result<i64, Trap>,
    cell2: SeqCell,
    parent2: SeqCell,
)
    requires
        set_outcome(cell, parent, i, v, w, cell2, parent2),
        w is Err,
    ensures
        cell2 == cell,
        parent2 == parent,
{
}

} // verus!
