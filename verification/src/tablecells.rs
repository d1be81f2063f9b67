//! The native key table's value cells against the cell arena. A `Ref`
//! value holds one reference to its cell, owned by the table: the
//! crossings that displace or remove such a value release that reference
//! exactly once, and the table's death releases every one it holds.
use vstd::prelude::*;
use crate::acct::HeapAcct;
use crate::cells::{CellArena, refunded, freed_bytes, lemma_freed_trans, lemma_freed_none};
use crate::nmap::{NativeTable, KeyKind, KeyVal, KeyModel, ValSlot, TyTag, refs_to, count_cells, remove_outcome, is_kind_refusal, packed, keeps_births_and_kind, is_fresh_birth, decode_key, decode_val, kind_of, model_kind};
use crate::cell::{PrimTy, prim_is_int};
use crate::trap::Trap;

verus! {

/// The arena accounts for the references the table's values hold: each
/// cell a value names is an arena slot, counted once per entry holding it.
pub open spec fn table_held(t: NativeTable, a: CellArena) -> bool {
    &&& forall|c: u64| #[trigger] t.ref_count(c) > 0 ==> c <= usize::MAX
    &&& forall|x: usize| #[trigger] t.ref_count(x as u64) <= a.ext@.count(x)
}

/// The value a removal takes out of the table.
pub open spec fn removed_value(t: NativeTable, kind: KeyKind, k: KeyModel) -> ValSlot {
    if t.admits(kind) && t@.contains_key(k) {
        t@[k].1
    } else {
        ValSlot::Empty
    }
}

/// Releases the reference a displaced or removed value held; any other
/// value holds none.
fn release_value(arena: &mut CellArena, acct: &mut HeapAcct, v: ValSlot)
    requires
        old(arena).wf(),
        v matches ValSlot::Ref(c) ==> c <= usize::MAX && old(arena).ext@.count(c as usize) >= 1,
    ensures
        final(arena).wf(),
        forall|x: usize| #[trigger] final(arena).ext@.count(x) + refs_to(v, x as u64) == old(arena).ext@.count(x),
        final(arena).cells@.len() == old(arena).cells@.len(),
        forall|x: usize| #[trigger] final(arena).live(x) ==> old(arena).live(x) && final(arena).node(x).bytes
            == old(arena).node(x).bytes,
        final(acct).used == refunded(old(acct).used, freed_bytes(old(arena).cells@, final(arena).cells@)),
        final(acct).peak == old(acct).peak,
        final(acct).limit == old(acct).limit,
{
    match v {
        ValSlot::Ref(c) => {
            arena.release(acct, c as usize);
        },
        _ => {
            proof {
                assert forall|x: usize| old(arena).live(x) implies arena.live(x) by {}
                arena.lemma_nothing_freed(*old(arena));
            }
        },
    }
}

impl NativeTable {

    /// The fused remove: the entry leaves the table and its handle answers
    /// (or `-1` when absent); the value it held is released once.
    pub fn hremove(&mut self, arena: &mut CellArena, acct: &mut HeapAcct, kind: KeyKind, key: &KeyVal)
        -> (r: Result<i32, Trap>)
        requires
            old(self).wf(),
            old(arena).wf(),
            table_held(*old(self), *old(arena)),
        ensures
            final(self).wf(),
            final(arena).wf(),
            table_held(*final(self), *final(arena)),
            remove_outcome(
                *old(self),
                *final(self),
                kind,
                key@,
                match r {
                    Ok(h) => Ok((h, removed_value(*old(self), kind, key@))),
                    Err(e) => Err(e),
                },
            ),
            forall|x: usize| #[trigger] final(arena).ext@.count(x) + refs_to(removed_value(*old(self), kind, key@), x as u64)
                == old(arena).ext@.count(x),
            final(acct).used == refunded(old(acct).used, freed_bytes(old(arena).cells@, final(arena).cells@)),
    {
        match self.take_key(kind, key) {
            Ok((h, d)) => {
                proof {
                    if let ValSlot::Ref(c) = d {
                        assert(self.ref_count(c) + refs_to(d, c) == old(self).ref_count(c));
                        assert(old(self).ref_count(c) >= 1);
                        assert(((c as usize) as u64) == c);
                        assert(old(self).ref_count((c as usize) as u64) <= old(arena).ext@.count(c as usize));
                    }
                }
                release_value(arena, acct, d);
                proof {
                    assert forall|x: usize| #[trigger] self.ref_count(x as u64) <= arena.ext@.count(x) by {
                        assert(old(self).ref_count(x as u64) <= old(arena).ext@.count(x));
                    }
                }
                Ok(h)
            },
            Err(e) => {
                proof {
                    arena.lemma_nothing_freed(*old(arena));
                }
                Err(e)
            },
        }
    }

    /// The valued put: the table takes the caller's reference to `val`; an
    /// existing key keeps its handle (`newly = false`) and the value it held
    /// is released once; a fresh key is a new birth (`newly = true`). The
    /// answer packs like `hput`'s.
    pub fn hvput(
        &mut self,
        arena: &mut CellArena,
        acct: &mut HeapAcct,
        kind: KeyKind,
        key: KeyVal,
        val: ValSlot,
    ) -> (r: Result<i64, Trap>)
        requires
            old(self).wf(),
            old(arena).wf(),
            old(self).births() < i32::MAX || !old(self).admits(kind) || old(self)@.contains_key(key@),
            table_held(*old(self), *old(arena)),
            val matches ValSlot::Ref(c) ==> c <= usize::MAX,
            forall|x: usize| #[trigger] old(self).ref_count(x as u64) + refs_to(val, x as u64) <= old(arena).ext@.count(x),
        ensures
            final(self).wf(),
            final(arena).wf(),
            table_held(*final(self), *final(arena)),
            match r {
                Err(e) => is_kind_refusal(*old(self), *final(self), kind, e) && final(arena).ext@ == old(arena).ext@,
                Ok(ans) => old(self).admits(kind) && if old(self)@.contains_key(key@) {
                    &&& ans == packed(old(self)@[key@].0 as int, false)
                    &&& final(self)@ == old(self)@.insert(key@, (old(self)@[key@].0, val))
                    &&& keeps_births_and_kind(*old(self), *final(self))
                    &&& forall|x: usize| #[trigger] final(arena).ext@.count(x) + refs_to(old(self)@[key@].1, x as u64)
                        == old(arena).ext@.count(x)
                } else {
                    &&& ans == packed(old(self).births(), true)
                    &&& is_fresh_birth(*old(self), *final(self), kind, key@, val)
                    &&& final(arena).ext@ == old(arena).ext@
                },
            },
            final(arena).cells@.len() == old(arena).cells@.len(),
            forall|x: usize| #[trigger] final(arena).live(x) ==> old(arena).live(x),
            final(acct).used == refunded(old(acct).used, freed_bytes(old(arena).cells@, final(arena).cells@)),
    {
        let ghost k = key@;
        match self.put_value(kind, key, val) {
            Ok((ans, d)) => {
                proof {
                    if let ValSlot::Ref(c) = d {
                        assert(self.ref_count(c) + refs_to(d, c) == old(self).ref_count(c) + refs_to(val, c));
                        assert(old(self).ref_count(c) + refs_to(val, c) >= 1);
                        assert(old(self).ref_count(c) >= 1 || val == ValSlot::Ref(c));
                        assert(c <= usize::MAX);
                        assert(((c as usize) as u64) == c);
                        assert(old(self).ref_count((c as usize) as u64) + refs_to(val, (c as usize) as u64) <= old(arena).ext@.count(c as usize));
                    }
                }
                release_value(arena, acct, d);
                proof {
                    assert forall|c: u64| #[trigger] self.ref_count(c) > 0 implies c <= usize::MAX by {
                        assert(self.ref_count(c) + refs_to(d, c) == old(self).ref_count(c) + refs_to(val, c));
                    }
                    assert forall|x: usize| #[trigger] self.ref_count(x as u64) <= arena.ext@.count(x) by {
                        assert(self.ref_count(x as u64) + refs_to(d, x as u64) == old(self).ref_count(x as u64) + refs_to(val, x as u64));
                    }
                    if !old(self)@.contains_key(k) {
                        assert(arena.ext@ =~= old(arena).ext@);
                    }
                }
                Ok(ans)
            },
            Err(e) => {
                proof {
                    arena.lemma_nothing_freed(*old(arena));
                    assert forall|x: usize| #[trigger] self.ref_count(x as u64) <= arena.ext@.count(x) by {
                        assert(old(self).ref_count(x as u64) + refs_to(val, x as u64) <= old(arena).ext@.count(x));
                    }
                }
                Err(e)
            },
        }
    }
}

/// Whether a key argument of static type `ty` is in the closed key set.
pub open spec fn key_type_admitted(ty: TyTag) -> bool {
    match ty {
        TyTag::Prim(p) => prim_is_int(p) || p == PrimTy::Bool,
        TyTag::Str => true,
        TyTag::Bytes => true,
        _ => false,
    }
}

/// The key an admitted key argument decodes to.
pub open spec fn key_arg_model(ty: TyTag, word: i64, text: Seq<char>, octets: Seq<u8>) -> KeyModel {
    match ty {
        TyTag::Prim(_) => KeyModel::Bits(word as u64),
        TyTag::Str => KeyModel::Str(text),
        _ => KeyModel::Bytes(octets),
    }
}

/// The value a value argument of static type `ty` is stored as.
pub open spec fn val_arg_slot(ty: TyTag, word: u64) -> ValSlot {
    if ty is Prim {
        ValSlot::Bits(word)
    } else {
        ValSlot::Ref(word)
    }
}

/// The valued put lane. The key decodes by its static type (a key
/// outside the closed set traps, nothing taken); a key of another kind
/// than the table's traps before anything is retained; then a reference
/// value's cell is retained for the table, the value stored under the
/// key, and the value it displaces released once. The answer is the
/// packed `(handle << 1) | newly` word.
pub fn hvput_lane(
    t: &mut NativeTable,
    arena: &mut CellArena,
    acct: &mut HeapAcct,
    key_ty: TyTag,
    key_word: i64,
    key_text: &str,
    key_octets: &[u8],
    val_ty: TyTag,
    val_word: u64,
) -> (r: Result<i64, Trap>)
    requires
        old(t).wf(),
        old(arena).wf(),
        table_held(*old(t), *old(arena)),
        !(val_ty is Prim) ==> val_word <= usize::MAX && old(arena).live(val_word as usize),
        old(t).births() < i32::MAX || old(t)@.contains_key(key_arg_model(key_ty, key_word, key_text@, key_octets@)),
    ensures
        final(t).wf(),
        final(arena).wf(),
        table_held(*final(t), *final(arena)),
        ({
            let k = key_arg_model(key_ty, key_word, key_text@, key_octets@);
            let v = val_arg_slot(val_ty, val_word);
            if !key_type_admitted(key_ty) {
                &&& r is Err
                &&& *final(t) == *old(t)
                &&& *final(arena) == *old(arena)
            } else if !old(t).admits(model_kind(k)) {
                &&& r matches Err(e) && is_kind_refusal(*old(t), *final(t), model_kind(k), e)
                &&& final(arena).ext@ == old(arena).ext@
            } else if old(t)@.contains_key(k) {
                &&& r matches Ok(ans) && ans == packed(old(t)@[k].0 as int, false)
                &&& final(t)@ == old(t)@.insert(k, (old(t)@[k].0, v))
                &&& keeps_births_and_kind(*old(t), *final(t))
                &&& forall|x: usize| #[trigger] final(arena).ext@.count(x) + refs_to(old(t)@[k].1, x as u64)
                    == old(arena).ext@.count(x) + refs_to(v, x as u64)
            } else {
                &&& r matches Ok(ans) && ans == packed(old(t).births(), true)
                &&& is_fresh_birth(*old(t), *final(t), model_kind(k), k, v)
                &&& forall|x: usize| #[trigger] final(arena).ext@.count(x)
                    == old(arena).ext@.count(x) + refs_to(v, x as u64)
            }
        }),
        final(acct).used == refunded(old(acct).used, freed_bytes(old(arena).cells@, final(arena).cells@)),
{
    let key = match decode_key(key_ty, key_word, key_text, key_octets) {
        Ok(k) => k,
        Err(e) => {
            proof {
                arena.lemma_nothing_freed(*old(arena));
            }
            return Err(e);
        },
    };
    let kind = kind_of(&key);
    if let Err(e) = t.check_kind(kind) {
        proof {
            arena.lemma_nothing_freed(*old(arena));
        }
        return Err(e);
    }
    let val = decode_val(val_ty, val_word);
    let ghost a0 = *arena;
    if let ValSlot::Ref(c) = val {
        arena.retain(c as usize);
        proof {
            assert(arena.cells@.len() == a0.cells@.len());
        }
    }
    proof {
        assert forall|x: usize| #[trigger] arena.ext@.count(x) == a0.ext@.count(x) + refs_to(val, x as u64) by {
            if let ValSlot::Ref(c) = val {
                assert(((c as usize) as u64) == c);
            }
        }
        assert forall|x: usize| #[trigger] t.ref_count(x as u64) + refs_to(val, x as u64) <= arena.ext@.count(x) by {
            assert(t.ref_count(x as u64) <= a0.ext@.count(x));
        }
        assert forall|c: u64| #[trigger] t.ref_count(c) > 0 implies c <= usize::MAX by {}
    }
    let ghost a1 = *arena;
    let r = t.hvput(arena, acct, kind, key, val);
    proof {
        assert forall|i: int| 0 <= i < a1.cells@.len() && #[trigger] a1.cells@[i] is Some implies old(arena).cells@[i] is Some
            && a1.cells@[i]->Some_0.bytes == old(arena).cells@[i]->Some_0.bytes by {}
        assert forall|i: int| 0 <= i < arena.cells@.len() && #[trigger] arena.cells@[i] is Some implies a1.cells@[i] is Some by {
            assert(arena.live(i as usize));
        }
        lemma_freed_trans(old(arena).cells@, a1.cells@, arena.cells@);
        assert forall|i: int| 0 <= i < old(arena).cells@.len() && #[trigger] old(arena).cells@[i] is Some implies a1.cells@[i] is Some by {}
        lemma_freed_none(old(arena).cells@, a1.cells@);
    }
    r
}

/// The valued remove lane: the key decodes by its static type (a key
/// outside the closed set traps, nothing changed); then the entry goes,
/// answering its handle (or `-1` when absent), and the value it held is
/// released once.
pub fn hvremove_lane(
    t: &mut NativeTable,
    arena: &mut CellArena,
    acct: &mut HeapAcct,
    key_ty: TyTag,
    key_word: i64,
    key_text: &str,
    key_octets: &[u8],
) -> (r: Result<i32, Trap>)
    requires
        old(t).wf(),
        old(arena).wf(),
        table_held(*old(t), *old(arena)),
    ensures
        final(t).wf(),
        final(arena).wf(),
        table_held(*final(t), *final(arena)),
        ({
            let k = key_arg_model(key_ty, key_word, key_text@, key_octets@);
            if !key_type_admitted(key_ty) {
                &&& r is Err
                &&& *final(t) == *old(t)
                &&& *final(arena) == *old(arena)
            } else {
                &&& remove_outcome(
                    *old(t),
                    *final(t),
                    model_kind(k),
                    k,
                    match r {
                        Ok(h) => Ok((h, removed_value(*old(t), model_kind(k), k))),
                        Err(e) => Err(e),
                    },
                )
                &&& forall|x: usize| #[trigger] final(arena).ext@.count(x) + refs_to(
                    removed_value(*old(t), model_kind(k), k),
                    x as u64,
                ) == old(arena).ext@.count(x)
            }
        }),
        final(acct).used == refunded(old(acct).used, freed_bytes(old(arena).cells@, final(arena).cells@)),
{
    let key = match decode_key(key_ty, key_word, key_text, key_octets) {
        Ok(k) => k,
        Err(e) => {
            proof {
                arena.lemma_nothing_freed(*old(arena));
            }
            return Err(e);
        },
    };
    let kind = kind_of(&key);
    t.hremove(arena, acct, kind, &key)
}

proof fn lemma_count_cells_prefix(s: Seq<u64>, k: int, c: u64)
    requires
        0 <= k < s.len(),
    ensures
        count_cells(s.take(k + 1), c) == count_cells(s.take(k), c) + if s[k] == c { 1nat } else { 0nat },
        count_cells(s.take(k + 1), c) <= count_cells(s, c),
    decreases s.len() - k,
{
    assert(s.take(k + 1).drop_last() =~= s.take(k));
    if k + 1 < s.len() {
        lemma_count_cells_prefix(s, k + 1, c);
    } else {
        assert(s.take(k + 1) =~= s);
    }
}

impl NativeTable {
    /// The raw value write: stores `raw` as `Bits` at the live key holding
    /// `handle`; the value it displaces is released once.
    pub fn val_set_u(&mut self, arena: &mut CellArena, acct: &mut HeapAcct, handle: i32, raw: u64)
        -> (r: Result<(), Trap>)
        requires
            old(self).wf(),
            old(arena).wf(),
            table_held(*old(self), *old(arena)),
        ensures
            final(self).wf(),
            final(arena).wf(),
            table_held(*final(self), *final(arena)),
            keeps_births_and_kind(*old(self), *final(self)),
            r is Ok <==> old(self).holds_handle(handle as int),
            r is Err ==> final(self)@ == old(self)@ && final(arena).ext@ == old(arena).ext@,
            r is Ok ==> exists|k: KeyModel| #[trigger] old(self)@.contains_key(k) && old(self)@[k].0 == handle
                && final(self)@ == old(self)@.insert(k, (handle, ValSlot::Bits(raw)))
                && forall|x: usize| #[trigger] final(arena).ext@.count(x) + refs_to(old(self)@[k].1, x as u64)
                    == old(arena).ext@.count(x),
            final(acct).used == refunded(old(acct).used, freed_bytes(old(arena).cells@, final(arena).cells@)),
    {
        match self.swap_value_u(handle, raw) {
            Ok(d) => {
                proof {
                    if let ValSlot::Ref(c) = d {
                        assert(self.ref_count(c) + refs_to(d, c) == old(self).ref_count(c));
                        assert(((c as usize) as u64) == c);
                        assert(old(self).ref_count((c as usize) as u64) <= old(arena).ext@.count(c as usize));
                    }
                }
                release_value(arena, acct, d);
                proof {
                    assert forall|c: u64| #[trigger] self.ref_count(c) > 0 implies c <= usize::MAX by {
                        assert(self.ref_count(c) + refs_to(d, c) == old(self).ref_count(c));
                    }
                    assert forall|x: usize| #[trigger] self.ref_count(x as u64) <= arena.ext@.count(x) by {
                        assert(self.ref_count(x as u64) + refs_to(d, x as u64) == old(self).ref_count(x as u64));
                    }
                }
                Ok(())
            },
            Err(e) => {
                proof {
                    arena.lemma_nothing_freed(*old(arena));
                }
                Err(e)
            },
        }
    }


    /// The entry-death hook: every reference the table's values hold is
    /// released, one per entry holding a `Ref`, and the table is left empty
    /// (births and kind stay).
    pub fn finalize(&mut self, arena: &mut CellArena, acct: &mut HeapAcct)
        requires
            old(self).wf(),
            old(arena).wf(),
            table_held(*old(self), *old(arena)),
        ensures
            final(self).wf(),
            final(arena).wf(),
            final(self)@ == Map::<KeyModel, (i32, ValSlot)>::empty(),
            keeps_births_and_kind(*old(self), *final(self)),
            forall|x: usize| #[trigger] final(arena).ext@.count(x) + old(self).ref_count(x as u64) == old(arena).ext@.count(x),
            table_held(*final(self), *final(arena)),
            final(acct).used == refunded(old(acct).used, freed_bytes(old(arena).cells@, final(arena).cells@)),
    {
        let cells = self.drain_values();
        let n = cells.len();
        let mut k: usize = 0;
        proof {
            arena.lemma_nothing_freed(*old(arena));
        }
        while k < n
            invariant
                n == cells@.len(),
                k <= n,
                arena.wf(),
                forall|c: u64| #[trigger] count_cells(cells@, c) == old(self).ref_count(c),
                table_held(*old(self), *old(arena)),
                forall|x: usize| #[trigger] arena.ext@.count(x) + count_cells(cells@.take(k as int), x as u64)
                    == old(arena).ext@.count(x),
                arena.cells@.len() == old(arena).cells@.len(),
                forall|x: usize| #[trigger] arena.live(x) ==> old(arena).live(x) && arena.node(x).bytes
                    == old(arena).node(x).bytes,
                acct.used == refunded(old(acct).used, freed_bytes(old(arena).cells@, arena.cells@)),
            decreases n - k,
        {
            let c = cells[k];
            proof {
                lemma_count_cells_prefix(cells@, k as int, c);
                assert(count_cells(cells@, c) >= 1);
                assert(old(self).ref_count(c) > 0);
                assert(((c as usize) as u64) == c);
                assert(count_cells(cells@, (c as usize) as u64) <= old(arena).ext@.count(c as usize));
            }
            let ghost pre = *arena;
            let ghost pre_used = acct.used;
            arena.release(acct, c as usize);
            k = k + 1;
            proof {
                arena.lemma_refund_chain(*old(arena), pre, old(acct).used, pre_used, acct.used);
                assert forall|x: usize| #[trigger] arena.ext@.count(x) + count_cells(cells@.take(k as int), x as u64)
                    == old(arena).ext@.count(x) by {
                    lemma_count_cells_prefix(cells@, k - 1, x as u64);
                }
            }
        }
        proof {
            assert(cells@.take(n as int) =~= cells@);
            assert forall|c: u64| #[trigger] self.ref_count(c) > 0 implies c <= usize::MAX by {}
        }
    }
}

} // verus!
