use rut::fuel::{thread_tick, FuelMeter, FuelStep, Limits};
use rut::trap::{Trap, TrapKind};

#[test]
fn default_limits_are_unbounded() {
    let l = Limits::default();
    assert_eq!(l.fuel, None);
    assert_eq!(l.heap_limit_bytes, None);
    assert_eq!(l.interrupt_every, 1024);
}

#[test]
fn a_budget_runs_exactly_its_ops_then_parks() {
    let limits = Limits { fuel: Some(3), heap_limit_bytes: None, interrupt_every: 1024 };
    let mut m = FuelMeter::new(&limits);
    for _ in 0..3 {
        assert!(m.tick().is_ok());
    }
    assert_eq!(m.fuel, Some(0));
    let t = m.tick().unwrap_err();
    assert_eq!(t.kind, TrapKind::OutOfFuel);
    assert_eq!(t.msg, "fuel exhausted — the frame is parked; add fuel and resume()");
    assert_eq!(m.fuel_used, 4, "the parking op is counted");
    m.add_fuel(2);
    assert!(m.tick().is_ok(), "resume continues");
    assert!(m.tick().is_ok());
    assert!(m.tick().is_err());
}

#[test]
fn add_fuel_saturates_and_leaves_unlimited_alone() {
    let mut m = FuelMeter::new(&Limits { fuel: Some(u64::MAX - 1), heap_limit_bytes: None, interrupt_every: 0 });
    assert_eq!(m.interrupt_every, 1, "a zero period becomes one");
    m.add_fuel(10);
    assert_eq!(m.fuel, Some(u64::MAX));
    let mut u = FuelMeter::new(&Limits::default());
    u.add_fuel(10);
    assert_eq!(u.fuel, None);
}

#[test]
fn the_interrupt_counter_wraps_at_its_period() {
    let mut m = FuelMeter::new(&Limits { fuel: None, heap_limit_bytes: None, interrupt_every: 3 });
    m.tick().unwrap();
    m.tick().unwrap();
    assert_eq!(m.since_check, 2);
    m.tick().unwrap();
    assert_eq!(m.since_check, 0);
    assert_eq!(m.fuel_used, 3);
}

#[test]
fn the_threaded_encoding_round_trips() {
    let m = FuelMeter::new(&Limits { fuel: Some(5), heap_limit_bytes: None, interrupt_every: 1 });
    assert_eq!(m.thread_fuel(), 5);
    let big = FuelMeter::new(&Limits { fuel: Some(u64::MAX), heap_limit_bytes: None, interrupt_every: 1 });
    assert_eq!(big.thread_fuel(), i64::MAX);
    let u = FuelMeter::new(&Limits::default());
    assert_eq!(u.thread_fuel(), -1);
    let mut m2 = FuelMeter::new(&Limits::default());
    m2.sync(7, 100);
    assert_eq!((m2.fuel, m2.fuel_used), (Some(7), 100));
    m2.sync(-1, 101);
    assert_eq!(m2.fuel, None);
}

#[test]
fn the_threaded_tick_parks_on_an_empty_budget() {
    assert!(matches!(thread_tick(2, 0), FuelStep::Run(1, 1)));
    assert!(matches!(thread_tick(-1, 9), FuelStep::Run(-1, 10)));
    assert!(matches!(thread_tick(0, 5), FuelStep::Park(6)));
    let mut fuel = 3i64;
    let mut used = 0u64;
    let mut ran = 0;
    loop {
        match thread_tick(fuel, used) {
            FuelStep::Run(f, u) => {
                fuel = f;
                used = u;
                ran += 1;
            }
            FuelStep::Park(u) => {
                used = u;
                break;
            }
        }
    }
    assert_eq!((ran, used), (3, 4));
}

#[test]
fn trap_names() {
    let t = Trap::new(TrapKind::DivByZero, "x".to_string());
    assert_eq!(t.name(), "DivByZero");
    assert_eq!(Trap::new(TrapKind::OutOfFuel, String::new()).name(), "OutOfFuel");
    assert_eq!(Trap::new(TrapKind::IndexOutOfBounds, String::new()).name(), "IndexOutOfBounds");
}
