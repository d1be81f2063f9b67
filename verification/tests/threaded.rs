use rut::dispatch::{expected, init_regs, make_loop, run_match, Code, ThreadOut, K_ADD, K_RET};
use rut::fuel::{FuelMeter, Limits};
use rut::threaded::run_parked;
use rut::trap::TrapKind;

fn meter(fuel: Option<u64>) -> FuelMeter {
    FuelMeter::new(&Limits { fuel, heap_limit_bytes: None, interrupt_every: 1024 })
}

#[test]
fn an_unlimited_stretch_answers_the_loop_sum() {
    let code = make_loop();
    for n in [0i64, 1, 10, 1000] {
        let mut regs = init_regs(n);
        let mut pc = 0u32;
        let mut m = meter(None);
        let r = run_parked(&code, &mut regs, &mut pc, &mut m);
        assert!(matches!(r, Ok(ThreadOut::Done(v)) if v == expected(n)));
        let mut other = init_regs(n);
        run_match(&code, &mut other, 0);
        assert_eq!(regs, other);
        assert_eq!(pc, 0, "an answer leaves the machine's pc alone");
        assert_eq!(m.fuel_used, 0, "an answer leaves the meter alone");
    }
}

#[test]
fn a_spent_budget_parks_at_the_next_op() {
    let code = make_loop();
    let mut regs = init_regs(10);
    let mut pc = 0u32;
    let mut m = meter(Some(3));
    let r = run_parked(&code, &mut regs, &mut pc, &mut m);
    let t = match r {
        Err(t) => t,
        Ok(_) => panic!("the budget of three ops must park"),
    };
    assert_eq!(t.kind, TrapKind::OutOfFuel);
    assert_eq!(t.msg, "fuel exhausted — the frame is parked; add fuel and resume()");
    assert_eq!(pc, 3, "lt, br and the first add ran; the second add waits");
    assert_eq!(m.fuel, Some(0));
    assert_eq!(m.fuel_used, 4, "the parking op is counted");
    assert_eq!(regs, [0, 0, 1, 10, 1]);
}

#[test]
fn a_parked_frame_resumes_to_the_same_answer() {
    let code = make_loop();
    let mut regs = init_regs(10);
    let mut pc = 0u32;
    let mut m = meter(Some(7));
    assert!(run_parked(&code, &mut regs, &mut pc, &mut m).is_err());
    m.add_fuel(1000);
    let r = run_parked(&code, &mut regs, &mut pc, &mut m);
    assert!(matches!(r, Ok(ThreadOut::Done(45))));
}

#[test]
fn an_op_without_a_handler_bails_with_the_counters_written_back() {
    let code = Code { tags: vec![K_ADD, 7, K_RET], ops: vec![[0, 1, 0, 0], [0, 0, 0, 0], [0, 0, 0, 0]] };
    let mut regs = [1i64, 2, 0, 0, 0];
    let mut pc = 0u32;
    let mut m = meter(Some(10));
    let r = run_parked(&code, &mut regs, &mut pc, &mut m);
    assert!(matches!(r, Ok(ThreadOut::Bail)));
    assert_eq!(pc, 1);
    assert_eq!(regs, [3, 2, 0, 0, 0]);
    assert_eq!(m.fuel, Some(9));
    assert_eq!(m.fuel_used, 1);
}
