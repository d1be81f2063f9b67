//! Heap accounting: every allocation is charged against the budget
//! before anything is written.
use vstd::prelude::*;
use crate::trap::{Trap, TrapKind};
use crate::text::{push_str, push_u64, dec_digits};

verus! {

/// The heap's byte accounting: live bytes, their high-water mark, and the
/// optional budget.
pub struct HeapAcct {
    pub used: u64,
    /// high-water mark of `used`: never decreases
    pub peak: u64,
    pub limit: Option<u64>,
}

/// The trap text for a charge that would cross the budget.
pub open spec fn budget_text(next: nat, limit: nat) -> Seq<char> {
    "heap budget exceeded: "@ + dec_digits(next) + " > "@ + dec_digits(limit) + " bytes"@
}

/// Whether a charge of `bytes` stays within the budget.
pub open spec fn admits(a: HeapAcct, bytes: u64) -> bool {
    match a.limit {
        Some(l) => a.used + bytes <= l,
        None => true,
    }
}

/// What charging `bytes` answers and leaves: past the budget an
/// `OutOfMemory` trap and nothing charged; otherwise the live bytes grow
/// by `bytes` and the peak follows them up.
pub open spec fn charge_outcome(old: HeapAcct, new: HeapAcct, bytes: u64, r: Result<(), Trap>) -> bool {
    if !admits(old, bytes) {
        &&& r matches Err(t)
        &&& t.kind == TrapKind::OutOfMemory
        &&& t.msg@ == budget_text((old.used + bytes) as nat, old.limit->0 as nat)
        &&& new == old
    } else {
        &&& r is Ok
        &&& new.used == old.used + bytes
        &&& new.peak == (if old.used + bytes > old.peak {
            (old.used + bytes) as u64
        } else {
            old.peak
        })
        &&& new.limit == old.limit
    }
}

impl HeapAcct {
    /// Fresh accounting: nothing used, no peak, the given budget.
    pub fn new(limit: Option<u64>) -> (a: HeapAcct)
        ensures
            a.used == 0,
            a.peak == 0,
            a.limit == limit,
    {
        HeapAcct { used: 0, peak: 0, limit }
    }

    /// The peak never trails the live bytes.
    pub open spec fn wf(&self) -> bool {
        self.used <= self.peak
    }

    /// The live accounted bytes.
    pub fn used_bytes(&self) -> (n: u64)
        ensures
            n == self.used,
    {
        self.used
    }

    /// The high-water mark of the live bytes.
    pub fn peak_bytes(&self) -> (n: u64)
        ensures
            n == self.peak,
    {
        self.peak
    }

    /// The budget, if any.
    pub fn limit(&self) -> (l: Option<u64>)
        ensures
            l == self.limit,
    {
        self.limit
    }

    /// Replaces the budget; the counters are untouched.
    pub fn set_limit(&mut self, limit: Option<u64>)
        ensures
            final(self).limit == limit,
            final(self).used == old(self).used,
            final(self).peak == old(self).peak,
    {
        self.limit = limit;
    }

    /// Charges `bytes` before the write they pay for: past the budget it
    /// traps `OutOfMemory` and charges nothing; otherwise the live bytes
    /// grow and the peak follows them up.
    pub fn charge(&mut self, bytes: u64) -> (r: Result<(), Trap>)
        requires
            old(self).used + bytes <= u64::MAX,
        ensures
            charge_outcome(*old(self), *final(self), bytes, r),
    {
        let next = self.used + bytes;
        if let Some(l) = self.limit {
            if next > l {
                let mut m = String::new();
                push_str(&mut m, "heap budget exceeded: ");
                push_u64(&mut m, next);
                push_str(&mut m, " > ");
                push_u64(&mut m, l);
                push_str(&mut m, " bytes");
                return Err(Trap::new(TrapKind::OutOfMemory, m));
            }
        }
        self.used = next;
        if next > self.peak {
            self.peak = next;
        }
        Ok(())
    }

    /// Returns a dead cell's `bytes` to the budget, saturating at zero
    /// (the peak stays).
    pub fn refund(&mut self, bytes: u64)
        ensures
            final(self).used == (if bytes <= old(self).used { (old(self).used - bytes) as u64 } else { 0 }),
            final(self).peak == old(self).peak,
            final(self).limit == old(self).limit,
    {
        self.used = if bytes <= self.used { self.used - bytes } else { 0 };
    }
}

/// The accounting laws: a charge keeps the peak at or above the live
/// bytes, never lowers the peak, and a granted charge stays within the
/// budget.
pub proof fn law_charge_keeps_the_peak(old: HeapAcct, new: HeapAcct, bytes: u64, r: Result<(), Trap>)
    requires
        old.wf(),
        charge_outcome(old, new, bytes, r),
    ensures
        new.wf(),
        new.peak >= old.peak,
        r is Ok ==> (new.limit matches Some(l) ==> new.used <= l),
{
}

} // verus!
