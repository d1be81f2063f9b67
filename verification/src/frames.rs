//! The interpreter's call stack and its reference discipline. Every
//! reference-typed register holds one reference to its cell; entering a
//! function pushes the caller's frame, and returning releases every
//! reference the callee's registers hold, hands the returned value's
//! reference to the caller's destination register (giving back the one
//! that register held), or to the host when the root frame returns.
use vstd::prelude::*;
use vstd::multiset::Multiset;
use crate::acct::HeapAcct;
use crate::cells::{CellArena, occurrences, refunded, freed_bytes};

verus! {

/// A register: a plain word, or a reference-typed register holding a cell
/// or nil.
#[derive(Clone, Copy, Debug, PartialEq, Eq, Structural)]
pub enum Slot {
    Word(i64),
    Ref(Option<usize>),
}

/// A frame: the function, its resume pc, its registers, and the caller's
/// register that takes its result.
pub struct Frame {
    pub func: u32,
    pub pc: u32,
    pub regs: Vec<Slot>,
    pub ret_dst: Option<usize>,
}

/// The active frame and the suspended callers beneath it.
pub struct CallStack {
    pub cur: Frame,
    pub saved: Vec<Frame>,
    pub running: bool,
}

/// The cells a register file holds references to, in register order.
pub open spec fn refs_in(regs: Seq<Slot>) -> Seq<usize>
    decreases regs.len(),
{
    if regs.len() == 0 {
        Seq::empty()
    } else {
        refs_in(regs.drop_last()) + match regs.last() {
            Slot::Ref(Some(c)) => seq![c],
            _ => Seq::empty(),
        }
    }
}

/// The references the suspended frames hold, bottom frame first.
pub open spec fn saved_refs(saved: Seq<Frame>) -> Seq<usize>
    decreases saved.len(),
{
    if saved.len() == 0 {
        Seq::empty()
    } else {
        saved_refs(saved.drop_last()) + refs_in(saved.last().regs@)
    }
}

/// Whether a slot holds a reference to `x`.
pub open spec fn holds_ref(s: Slot, x: usize) -> bool {
    s == Slot::Ref(Some(x))
}

impl CallStack {
    /// Every reference the stack's registers hold.
    pub open spec fn refs(&self) -> Seq<usize> {
        saved_refs(self.saved@) + refs_in(self.cur.regs@)
    }

    /// The arena accounts for every reference the stack holds.
    pub open spec fn held_by(&self, a: CellArena) -> bool {
        forall|x: usize| #[trigger] occurrences(self.refs(), x) <= a.ext@.count(x)
    }
}

pub proof fn lemma_occurrences_concat(a: Seq<usize>, b: Seq<usize>, x: usize)
    ensures
        occurrences(a + b, x) == occurrences(a, x) + occurrences(b, x),
    decreases b.len(),
{
    if b.len() == 0 {
        assert(a + b =~= a);
    } else {
        assert((a + b).drop_last() =~= a + b.drop_last());
        lemma_occurrences_concat(a, b.drop_last(), x);
    }
}

/// What one register contributes to the references of a register file.
pub open spec fn slot_refs(s: Slot, x: usize) -> nat {
    if holds_ref(s, x) {
        1
    } else {
        0
    }
}

/// The references of a register file are those of all but its last
/// register, then the last one's.
pub proof fn lemma_refs_step(regs: Seq<Slot>, x: usize)
    requires
        regs.len() > 0,
    ensures
        occurrences(refs_in(regs), x) == occurrences(refs_in(regs.drop_last()), x) + slot_refs(regs.last(), x),
{
    let tail: Seq<usize> = match regs.last() {
        Slot::Ref(Some(c)) => seq![c],
        _ => Seq::empty(),
    };
    lemma_occurrences_concat(refs_in(regs.drop_last()), tail, x);
    match regs.last() {
        Slot::Ref(Some(c)) => {
            assert(tail == seq![c]);
            assert(tail.drop_last() =~= Seq::<usize>::empty());
            assert(tail.last() == c);
            assert(occurrences(tail.drop_last(), x) == 0);
            assert(occurrences(tail, x) == if c == x { 1nat } else { 0nat });
        },
        _ => {
            assert(occurrences(tail, x) == 0);
        },
    }
}

/// Overwriting one register changes the references by exactly what it
/// held and what it now holds.
pub proof fn lemma_refs_update(regs: Seq<Slot>, d: int, s: Slot, x: usize)
    requires
        0 <= d < regs.len(),
    ensures
        occurrences(refs_in(regs.update(d, s)), x) + slot_refs(regs[d], x) == occurrences(refs_in(regs), x)
            + slot_refs(s, x),
    decreases regs.len(),
{
    let u = regs.update(d, s);
    lemma_refs_step(regs, x);
    lemma_refs_step(u, x);
    if d == regs.len() - 1 {
        assert(u.drop_last() =~= regs.drop_last());
    } else {
        assert(u.drop_last() =~= regs.drop_last().update(d, s));
        lemma_refs_update(regs.drop_last(), d, s, x);
    }
}

proof fn lemma_refs_prefix(regs: Seq<Slot>, k: int, x: usize)
    requires
        0 <= k < regs.len(),
    ensures
        occurrences(refs_in(regs.take(k + 1)), x) == occurrences(refs_in(regs.take(k)), x) + slot_refs(regs[k], x),
        occurrences(refs_in(regs.take(k + 1)), x) <= occurrences(refs_in(regs), x),
    decreases regs.len() - k,
{
    assert(regs.take(k + 1).drop_last() =~= regs.take(k));
    lemma_refs_step(regs.take(k + 1), x);
    if k + 1 < regs.len() {
        lemma_refs_prefix(regs, k + 1, x);
    } else {
        assert(regs.take(k + 1) =~= regs);
    }
}

proof fn lemma_saved_step(saved: Seq<Frame>, x: usize)
    requires
        saved.len() > 0,
    ensures
        occurrences(saved_refs(saved), x) == occurrences(saved_refs(saved.drop_last()), x) + occurrences(
            refs_in(saved.last().regs@),
            x,
        ),
{
    lemma_occurrences_concat(saved_refs(saved.drop_last()), refs_in(saved.last().regs@), x);
}

/// What a return does to the stack `old` (now `new`) and the arena's
/// outside references `ea` (now `eb`) with the value `val`, answering `r`.
pub open spec fn ret_outcome(old: CallStack, new: CallStack, ea: Multiset<usize>, eb: Multiset<usize>, val: Slot, r: Option<Slot>) -> bool {
    &&& (old.saved@.len() == 0 ==> {
                &&& r == Some(val)
                &&& !new.running
                &&& new.saved@.len() == 0
                &&& new.cur.regs@.len() == 0
                &&& forall|x: usize| #[trigger] eb.count(x) == ea.count(x)
                    - occurrences(refs_in(old.cur.regs@), x) + slot_refs(val, x)
            })
    &&& (old.saved@.len() > 0 ==> {
                let caller = old.saved@.last();
                &&& r is None
                &&& new.running == old.running
                &&& new.saved@ == old.saved@.drop_last()
                &&& new.cur.func == caller.func
                &&& new.cur.pc == caller.pc
                &&& new.cur.ret_dst == caller.ret_dst
                &&& match old.cur.ret_dst {
                    Some(d) => {
                        &&& new.cur.regs@ == caller.regs@.update(d as int, val)
                        &&& forall|x: usize| #[trigger] eb.count(x) == ea.count(x)
                            - occurrences(refs_in(old.cur.regs@), x) + slot_refs(val, x)
                            - slot_refs(caller.regs@[d as int], x)
                    },
                    None => {
                        &&& new.cur.regs@ == caller.regs@
                        &&& forall|x: usize| #[trigger] eb.count(x) == ea.count(x)
                            - occurrences(refs_in(old.cur.regs@), x)
                    },
                }
            })
}

impl CallStack {
    /// An idle stack: no frame running.
    pub fn new() -> (s: CallStack)
        ensures
            !s.running,
            s.saved@.len() == 0,
            s.cur.regs@.len() == 0,
            s.refs() == Seq::<usize>::empty(),
    {
        let s = CallStack { cur: Frame { func: 0, pc: 0, regs: Vec::new(), ret_dst: None }, saved: Vec::new(), running: false };
        assert(saved_refs(s.saved@) =~= Seq::<usize>::empty());
        assert(refs_in(s.cur.regs@) =~= Seq::<usize>::empty());
        assert(s.refs() =~= Seq::<usize>::empty());
        s
    }

    /// Enters `func` with its register file: a running caller's frame is
    /// suspended first, and the new frame starts at pc 0.
    pub fn enter(&mut self, func: u32, regs: Vec<Slot>, ret_dst: Option<usize>)
        ensures
            final(self).running,
            final(self).cur.func == func,
            final(self).cur.pc == 0,
            final(self).cur.regs == regs,
            final(self).cur.ret_dst == ret_dst,
            old(self).running ==> final(self).saved@ == old(self).saved@.push(old(self).cur),
            !old(self).running ==> final(self).saved@ == old(self).saved@,
            final(self).refs() == (if old(self).running { old(self).refs() } else { saved_refs(old(self).saved@) })
                + refs_in(regs@),
    {
        let mut next = Frame { func, pc: 0, regs, ret_dst };
        core::mem::swap(&mut self.cur, &mut next);
        if self.running {
            self.saved.push(next);
            proof {
                assert(self.saved@.drop_last() =~= old(self).saved@);
            }
        }
        self.running = true;
    }

    /// Returns from the active frame with `val`. A reference result is
    /// retained once for the transfer; then every reference the frame's
    /// registers hold is released. A suspended caller resumes: its
    /// destination register takes the result (giving back what it held),
    /// or a discarded reference result is released. When the root frame
    /// returns, the stack stops and the result, with its reference, goes
    /// to the host.
    pub fn do_ret(&mut self, arena: &mut CellArena, acct: &mut HeapAcct, val: Slot) -> (r: Option<Slot>)
        requires
            old(arena).wf(),
            old(self).held_by(*old(arena)),
            val matches Slot::Ref(Some(v)) ==> occurrences(refs_in(old(self).cur.regs@), v) >= 1,
            old(self).saved@.len() > 0 && old(self).cur.ret_dst is Some ==> old(self).cur.ret_dst->Some_0
                < old(self).saved@.last().regs@.len(),
        ensures
            final(arena).wf(),
            final(self).held_by(*final(arena)),
            final(arena).pending@.len() >= old(arena).pending@.len(),
            final(acct).used == refunded(old(acct).used, freed_bytes(old(arena).cells@, final(arena).cells@)),
            final(acct).peak == old(acct).peak,
            final(acct).limit == old(acct).limit,
            ret_outcome(*old(self), *final(self), old(arena).ext@, final(arena).ext@, val, r),
    {
        let ghost s0 = *self;
        let ghost e0 = old(arena).ext@;
        let mut done = Frame { func: 0, pc: 0, regs: Vec::new(), ret_dst: None };
        core::mem::swap(&mut self.cur, &mut done);
        let dst = done.ret_dst;
        let ghost regs0 = done.regs@;
        proof {
            assert forall|x: usize| occurrences(refs_in(regs0), x) <= e0.count(x) by {
                lemma_occurrences_concat(saved_refs(s0.saved@), refs_in(regs0), x);
                assert(s0.held_by(*old(arena)));
                assert(occurrences(s0.refs(), x) <= e0.count(x));
            }
        }
        if let Slot::Ref(Some(v)) = val {
            proof {
                assert(occurrences(refs_in(regs0), v) <= e0.count(v));
                assert(old(arena).balanced(v));
            }
            arena.retain(v);
        }
        let ghost e1 = arena.ext@;
        proof {
            assert forall|x: usize| #[trigger] old(arena).live(x) implies arena.live(x) by {
                if x < old(arena).cells@.len() {
                    assert(arena.cells@[x as int] is Some || !old(arena).live(x));
                }
            }
            arena.lemma_nothing_freed(*old(arena));
        }
        proof {
            assert forall|x: usize| #[trigger] e1.count(x) == e0.count(x) + slot_refs(val, x) by {}
        }
        let n = done.regs.len();
        let mut k: usize = 0;
        while k < n
            invariant
                n == regs0.len(),
                done.regs@ == regs0,
                k <= n,
                arena.wf(),
                forall|x: usize| occurrences(refs_in(regs0), x) <= e0.count(x),
                forall|x: usize| #[trigger] arena.ext@.count(x) == e1.count(x) - occurrences(refs_in(regs0.take(k as int)), x),
                forall|x: usize| #[trigger] e1.count(x) == e0.count(x) + slot_refs(val, x),
                arena.pending@.len() >= old(arena).pending@.len(),
                arena.cells@.len() == old(arena).cells@.len(),
                forall|x: usize| #[trigger] arena.live(x) ==> old(arena).live(x) && arena.node(x).bytes
                    == old(arena).node(x).bytes,
                acct.used == refunded(old(acct).used, freed_bytes(old(arena).cells@, arena.cells@)),
                acct.peak == old(acct).peak,
                acct.limit == old(acct).limit,
            decreases n - k,
        {
            let s = done.regs[k];
            proof {
                assert forall|x: usize| occurrences(refs_in(regs0.take(k + 1)), x) == occurrences(refs_in(regs0.take(k as int)), x)
                    + slot_refs(regs0[k as int], x) && occurrences(refs_in(regs0.take(k + 1)), x) <= occurrences(refs_in(regs0), x) by {
                    lemma_refs_prefix(regs0, k as int, x);
                }
            }
            if let Slot::Ref(Some(c)) = s {
                let ghost pre = *arena;
                let ghost pre_used = acct.used;
                arena.release(acct, c);
                proof {
                    arena.lemma_refund_chain(*old(arena), pre, old(acct).used, pre_used, acct.used);
                }
            }
            k = k + 1;
        }
        proof {
            assert(regs0.take(n as int) =~= regs0);
        }
        let ghost e2 = arena.ext@;
        match self.saved.pop() {
            None => {
                self.running = false;
                proof {
                    assert(self.saved@.len() == 0);
                    assert(self.refs() =~= Seq::<usize>::empty()) by {
                        assert(saved_refs(self.saved@) =~= Seq::<usize>::empty());
                        assert(refs_in(self.cur.regs@) =~= Seq::<usize>::empty());
                    }
                }
                Some(val)
            },
            Some(f) => {
                self.cur = f;
                let ghost caller_regs = self.cur.regs@;
                proof {
                    assert(s0.saved@.drop_last() =~= self.saved@);
                    assert forall|x: usize| occurrences(saved_refs(s0.saved@), x) == occurrences(saved_refs(self.saved@), x)
                        + occurrences(refs_in(caller_regs), x) by {
                        lemma_saved_step(s0.saved@, x);
                    }
                    assert forall|x: usize| occurrences(s0.refs(), x) == occurrences(saved_refs(s0.saved@), x)
                        + occurrences(refs_in(regs0), x) by {
                        lemma_occurrences_concat(saved_refs(s0.saved@), refs_in(regs0), x);
                    }
                }
                match dst {
                    Some(d) => {
                        let old_slot = self.cur.regs[d];
                        self.cur.regs.set(d, val);
                        proof {
                            assert forall|x: usize| occurrences(refs_in(self.cur.regs@), x) + slot_refs(old_slot, x)
                                == occurrences(refs_in(caller_regs), x) + slot_refs(val, x) by {
                                lemma_refs_update(caller_regs, d as int, val, x);
                            }
                        }
                        if let Slot::Ref(Some(o)) = old_slot {
                            proof {
                                lemma_refs_update(caller_regs, d as int, Slot::Word(0), o);
                                assert(occurrences(refs_in(caller_regs), o) >= 1);
                                assert(s0.held_by(*old(arena)));
                                assert(occurrences(s0.refs(), o) <= e0.count(o));
                                assert(arena.ext@.count(o) >= 1);
                            }
                            let ghost pre = *arena;
                            let ghost pre_used = acct.used;
                            arena.release(acct, o);
                            proof {
                                arena.lemma_refund_chain(*old(arena), pre, old(acct).used, pre_used, acct.used);
                            }
                        }
                        proof {
                            assert forall|x: usize| #[trigger] occurrences(self.refs(), x) <= arena.ext@.count(x) by {
                                lemma_occurrences_concat(saved_refs(self.saved@), refs_in(self.cur.regs@), x);
                                assert(s0.held_by(*old(arena)));
                                assert(occurrences(s0.refs(), x) <= e0.count(x));
                            }
                        }
                    },
                    None => {
                        if let Slot::Ref(Some(v)) = val {
                            let ghost pre = *arena;
                            let ghost pre_used = acct.used;
                            arena.release(acct, v);
                            proof {
                                arena.lemma_refund_chain(*old(arena), pre, old(acct).used, pre_used, acct.used);
                            }
                        }
                        proof {
                            assert forall|x: usize| #[trigger] occurrences(self.refs(), x) <= arena.ext@.count(x) by {
                                lemma_occurrences_concat(saved_refs(self.saved@), refs_in(self.cur.regs@), x);
                                assert(s0.held_by(*old(arena)));
                                assert(occurrences(s0.refs(), x) <= e0.count(x));
                            }
                        }
                    },
                }
                None
            },
        }
    }
}

/// A return resumes exactly the caller the call suspended: after
/// entering a callee from a running frame and returning from it, the
/// stack below is as it was and the caller's frame is back with the
/// result in its destination register.
pub proof fn law_return_resumes_the_caller(s0: CallStack, s1: CallStack, s2: CallStack, val: Slot, d: usize)
    requires
        s0.running,
        s1.saved@ == s0.saved@.push(s0.cur),
        s1.cur.ret_dst == Some(d),
        s2.saved@ == s1.saved@.drop_last(),
        s2.cur.func == s1.saved@.last().func,
        s2.cur.pc == s1.saved@.last().pc,
        s2.cur.ret_dst == s1.saved@.last().ret_dst,
        s2.cur.regs@ == s1.saved@.last().regs@.update(d as int, val),
    ensures
        s2.saved@ == s0.saved@,
        s2.cur.func == s0.cur.func,
        s2.cur.pc == s0.cur.pc,
        s2.cur.ret_dst == s0.cur.ret_dst,
        s2.cur.regs@ == s0.cur.regs@.update(d as int, val),
{
    assert(s0.saved@.push(s0.cur).drop_last() =~= s0.saved@);
}

/// A return hands its value back: from the root frame it answers the
/// value and the stack stops; from a called frame the caller resumes at
/// its own pc and function, its destination register holds the value and
/// every other register is as the caller left it (all of them, when the
/// result is discarded), and the frames below are untouched.
pub proof fn law_a_return_hands_back_its_value(
    old: CallStack,
    new: CallStack,
    ea: Multiset<usize>,
    eb: Multiset<usize>,
    val: Slot,
    r: Option<Slot>,
)
    requires
        ret_outcome(old, new, ea, eb, val, r),
    ensures
        old.saved@.len() == 0 ==> r == Some(val) && !new.running,
        old.saved@.len() > 0 ==> {
            let caller = old.saved@[old.saved@.len() - 1];
            &&& r is None
            &&& new.cur.pc == caller.pc
            &&& new.cur.func == caller.func
            &&& new.saved@.len() + 1 == old.saved@.len()
            &&& forall|k: int| 0 <= k < new.saved@.len() ==> new.saved@[k] == old.saved@[k]
            &&& match old.cur.ret_dst {
                Some(d) => d < caller.regs@.len() ==> new.cur.regs@.len() == caller.regs@.len() && new.cur.regs@[d as int]
                    == val && forall|i: int| 0 <= i < caller.regs@.len() && i != d ==> new.cur.regs@[i] == caller.regs@[i],
                None => forall|i: int| 0 <= i < caller.regs@.len() ==> new.cur.regs@[i] == caller.regs@[i],
            }
        },
{
}

} // verus!
