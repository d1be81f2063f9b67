use rut::session::{limits_for, outcome_of, CallEnd, Session};
use rut::trap::TrapKind;
use rut::value::Value;

#[test]
fn zero_budgets_mean_unlimited() {
    let l = limits_for(0, 0);
    assert_eq!((l.fuel, l.heap_limit_bytes, l.interrupt_every), (None, None, 1024));
    let l = limits_for(12_000_000, 1024);
    assert_eq!((l.fuel, l.heap_limit_bytes), (Some(12_000_000), Some(1024)));
}

#[test]
fn an_out_of_fuel_trap_with_a_live_frame_parks() {
    let o = outcome_of(&CallEnd::Trapped { kind: TrapKind::OutOfFuel, name: "OutOfFuel".to_string(), running: true });
    assert_eq!(o.trap.as_deref(), Some("OutOfFuel"));
    assert!(o.parked);
    assert_eq!(o.err, None, "a trap never fills err");
    let o = outcome_of(&CallEnd::Trapped { kind: TrapKind::OutOfFuel, name: "OutOfFuel".to_string(), running: false });
    assert!(!o.parked, "no live frame, nothing to park");
    let o = outcome_of(&CallEnd::Trapped { kind: TrapKind::Panic, name: "Panic".to_string(), running: true });
    assert!(!o.parked);
}

#[test]
fn a_return_fills_only_the_err_channel() {
    let v = Value::Tuple(vec![Value::Nil, Value::Str("boom".to_string())]);
    let o = outcome_of(&CallEnd::Returned(v));
    assert_eq!((o.trap, o.parked, o.err.as_deref()), (None, false, Some("boom")));
    let o = outcome_of(&CallEnd::Returned(Value::Nil));
    assert_eq!(o.err, None);
}

#[test]
fn resuming_without_a_parked_frame_is_loud() {
    let mut s = Session::new();
    let j = s.begin_resume().unwrap_err();
    assert_eq!(
        j,
        "{\"output\":[],\"trap\":\"no parked frame — run first (resume continues, never restarts)\",\"err\":null,\"fuelUsed\":0,\"heapBytes\":0,\"parked\":false}"
    );
    assert_eq!(s.drop_frame(), 0);
}

#[test]
fn a_parked_frame_is_resumed_once_and_a_fresh_run_supersedes_it() {
    let mut s = Session::new();
    s.begin_run();
    let parked = outcome_of(&CallEnd::Trapped { kind: TrapKind::OutOfFuel, name: "OutOfFuel".to_string(), running: true });
    s.end_call(&parked);
    assert!(s.has_frame());
    assert!(s.begin_resume().is_ok());
    assert!(s.begin_resume().is_err(), "the frame was taken: no restart");
    s.end_call(&parked);
    s.begin_run();
    assert!(!s.has_frame(), "a fresh run retires the parked frame");
    s.end_call(&parked);
    assert_eq!(s.drop_frame(), 1);
    assert!(!s.has_frame());
}
