//! The fuel budget: every executed op ticks the meter; with a budget set,
//! the run parks with `OutOfFuel` when it is spent, and a host can add
//! fuel and resume the very same frame.
use vstd::prelude::*;
use crate::trap::{Trap, TrapKind};

verus! {

/// A run's budgets.
pub struct Limits {
    /// ops the run may execute (`None`: unlimited)
    pub fuel: Option<u64>,
    /// accounted heap bytes (`None`: unlimited)
    pub heap_limit_bytes: Option<u64>,
    /// ops between interrupt checks on an unlimited budget
    pub interrupt_every: u32,
}

impl Default for Limits {
    fn default() -> (l: Limits)
        ensures
            l.fuel is None,
            l.heap_limit_bytes is None,
            l.interrupt_every == 1024,
    {
        Limits { fuel: None, heap_limit_bytes: None, interrupt_every: 1024 }
    }
}

/// The interpreter's fuel meter.
pub struct FuelMeter {
    /// the remaining budget (`None`: unlimited)
    pub fuel: Option<u64>,
    /// ops executed so far
    pub fuel_used: u64,
    /// the interrupt check's period (at least 1)
    pub interrupt_every: u32,
    /// ops since the last interrupt check
    pub since_check: u32,
}

/// The trap text of a spent budget.
pub open spec fn out_of_fuel_text() -> Seq<char> {
    "fuel exhausted — the frame is parked; add fuel and resume()"@
}

impl FuelMeter {
    /// A fresh meter for the given budgets.
    pub fn new(limits: &Limits) -> (m: FuelMeter)
        ensures
            m.fuel == limits.fuel,
            m.fuel_used == 0,
            m.interrupt_every == (if limits.interrupt_every == 0 { 1 } else { limits.interrupt_every }),
            m.since_check == 0,
    {
        FuelMeter {
            fuel: limits.fuel,
            fuel_used: 0,
            interrupt_every: if limits.interrupt_every == 0 { 1 } else { limits.interrupt_every },
            since_check: 0,
        }
    }

    /// Charges one op: the op is counted; with a budget, a spent budget
    /// traps `OutOfFuel` (the caller parks the frame at the op) and
    /// otherwise the budget drops by one; without one, the interrupt
    /// counter wraps at its period.
    pub fn tick(&mut self) -> (r: Result<(), Trap>)
        requires
            old(self).fuel_used < u64::MAX,
            old(self).since_check < u32::MAX,
        ensures
            final(self).fuel_used == old(self).fuel_used + 1,
            final(self).interrupt_every == old(self).interrupt_every,
            match old(self).fuel {
                Some(0) => {
                    &&& r matches Err(t) && t.kind == TrapKind::OutOfFuel && t.msg@ == out_of_fuel_text()
                    &&& final(self).fuel == Some(0u64)
                    &&& final(self).since_check == old(self).since_check + 1
                },
                Some(f) => {
                    &&& r is Ok
                    &&& final(self).fuel == Some((f - 1) as u64)
                    &&& final(self).since_check == old(self).since_check + 1
                },
                None => {
                    &&& r is Ok
                    &&& final(self).fuel is None
                    &&& final(self).since_check == (if old(self).since_check + 1 >= old(self).interrupt_every {
                        0
                    } else {
                        old(self).since_check + 1
                    })
                },
            },
    {
        self.fuel_used = self.fuel_used + 1;
        self.since_check = self.since_check + 1;
        match self.fuel {
            Some(f) => {
                if f == 0 {
                    return Err(
                        Trap::new(
                            TrapKind::OutOfFuel,
                            "fuel exhausted — the frame is parked; add fuel and resume()".to_owned(),
                        ),
                    );
                }
                self.fuel = Some(f - 1);
            },
            None => {
                if self.since_check >= self.interrupt_every {
                    self.since_check = 0;
                }
            },
        }
        Ok(())
    }

    /// Adds `n` to a budget (saturating); an unlimited budget stays so.
    pub fn add_fuel(&mut self, n: u64)
        ensures
            final(self).fuel == (match old(self).fuel {
                Some(f) => Some(if f + n > u64::MAX { u64::MAX } else { (f + n) as u64 }),
                None => None,
            }),
            final(self).fuel_used == old(self).fuel_used,
            final(self).since_check == old(self).since_check,
            final(self).interrupt_every == old(self).interrupt_every,
    {
        self.fuel = match self.fuel {
            Some(f) => Some(f.saturating_add(n)),
            None => None,
        };
    }

    /// The budget as the threaded loop carries it: `-1` for unlimited,
    /// else the remaining ops capped at `i64::MAX`.
    pub fn thread_fuel(&self) -> (f: i64)
        ensures
            f == thread_fuel_of(self.fuel),
    {
        match self.fuel {
            Some(f) => if f > i64::MAX as u64 { i64::MAX } else { f as i64 },
            None => -1,
        }
    }

    /// Writes the threaded loop's counters back.
    pub fn sync(&mut self, fuel: i64, fuel_used: u64)
        ensures
            final(self).fuel == (if fuel < 0 { None } else { Some(fuel as u64) }),
            final(self).fuel_used == fuel_used,
            final(self).since_check == old(self).since_check,
            final(self).interrupt_every == old(self).interrupt_every,
    {
        self.fuel_used = fuel_used;
        self.fuel = if fuel < 0 { None } else { Some(fuel as u64) };
    }
}

/// The threaded loop's encoding of a budget.
pub open spec fn thread_fuel_of(fuel: Option<u64>) -> i64 {
    match fuel {
        Some(f) => if f > i64::MAX { i64::MAX } else { f as i64 },
        None => -1i64,
    }
}

/// What the threaded loop does at each op: count it; park when a budget
/// is spent; spend one unit of a budget (`-1` is unlimited).
pub enum FuelStep {
    /// the budget is spent: park with this many ops counted
    Park(u64),
    /// run the op with the new counters
    Run(i64, u64),
}

/// The threaded loop's per-op fuel decision.
pub fn thread_tick(fuel: i64, used: u64) -> (s: FuelStep)
    requires
        used < u64::MAX,
        fuel >= -1,
    ensures
        match s {
            FuelStep::Park(u) => u == used + 1 && fuel_after_tick(fuel as int) is None,
            FuelStep::Run(f, u) => u == used + 1 && fuel_after_tick(fuel as int) == Some(f as int),
        },
{
    let used = used + 1;
    if fuel == 0 {
        return FuelStep::Park(used);
    }
    FuelStep::Run(if fuel > 0 { fuel - 1 } else { fuel }, used)
}

/// The budget survives the trip through the threaded loop's encoding:
/// an unlimited budget stays unlimited, and a budget comes back as it was
/// (capped at `i64::MAX`).
pub proof fn law_thread_fuel_round_trip(fuel: Option<u64>)
    ensures
        ({
            let f = thread_fuel_of(fuel);
            let back: Option<u64> = if f < 0 { None } else { Some(f as u64) };
            back == match fuel {
                Some(x) => Some(if x > i64::MAX { i64::MAX as u64 } else { x }),
                None => None,
            }
        }),
{
}

/// The budget after one threaded tick, or `None` when the tick parks.
pub open spec fn fuel_after_tick(fuel: int) -> Option<int> {
    if fuel == 0 {
        None
    } else if fuel > 0 {
        Some(fuel - 1)
    } else {
        Some(fuel)
    }
}

/// The budget after `n` threaded ticks, or `None` when one of them parks.
pub open spec fn fuel_after_ticks(fuel: int, n: nat) -> Option<int>
    decreases n,
{
    if n == 0 {
        Some(fuel)
    } else {
        match fuel_after_tick(fuel) {
            Some(g) => fuel_after_ticks(g, (n - 1) as nat),
            None => None,
        }
    }
}

/// A budget of `f` ops lets exactly `f` ticks through and parks at the
/// next one; an unlimited budget (`-1`) never parks.
pub proof fn law_a_budget_parks_after_its_ops(f: nat, n: nat)
    ensures
        fuel_after_ticks(f as int, f) == Some(0int),
        fuel_after_ticks(f as int, f + 1) is None,
        fuel_after_ticks(-1, n) == Some(-1int),
    decreases f + n,
{
    if f > 0 {
        law_a_budget_parks_after_its_ops((f - 1) as nat, n);
        assert(fuel_after_tick(f as int) == Some((f - 1) as int));
    }
    if n > 0 {
        law_a_budget_parks_after_its_ops(f, (n - 1) as nat);
    }
}

} // verus!
