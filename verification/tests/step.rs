use rut::acct::HeapAcct;
use rut::bytecode::{CmpOp, FuncShape, IntOp, Op, ProgramShape};
use rut::cell::PrimTy;
use rut::cells::CellArena;
use rut::frames::{CallStack, Slot};
use rut::fuel::{FuelMeter, Limits};
use rut::runloop::run_loop;
use rut::step::{op_new_cell, step, step_one};
use rut::trap::TrapKind;

fn frame(regs: Vec<Slot>) -> CallStack {
    let mut st = CallStack::new();
    st.enter(0, regs, None);
    st
}

#[test]
fn a_word_op_writes_its_destination() {
    let mut a = CellArena::new();
    let mut acct = HeapAcct::new(None);
    let mut st = frame(vec![Slot::Word(40), Slot::Word(2), Slot::Word(0)]);
    let op = Op::IntBin { op: IntOp::Add, prim: PrimTy::I64, dst: 2, a: 0, b: 1 };
    step(&mut st, &mut a, &mut acct, &op).unwrap();
    assert_eq!(st.cur.regs[2], Slot::Word(42));
    let cmp = Op::IntCmp { op: CmpOp::Lt, prim: PrimTy::I64, dst: 2, a: 1, b: 0 };
    step(&mut st, &mut a, &mut acct, &cmp).unwrap();
    assert_eq!(st.cur.regs[2], Slot::Word(1));
}

#[test]
fn a_trapping_op_leaves_the_frame_alone() {
    let mut a = CellArena::new();
    let mut acct = HeapAcct::new(None);
    let mut st = frame(vec![Slot::Word(7), Slot::Word(0), Slot::Word(5)]);
    let op = Op::IntBin { op: IntOp::Div, prim: PrimTy::I64, dst: 2, a: 0, b: 1 };
    let t = step(&mut st, &mut a, &mut acct, &op).unwrap_err();
    assert_eq!(t.kind, TrapKind::DivByZero);
    assert_eq!(st.cur.regs[2], Slot::Word(5));
    let over = Op::IntBin { op: IntOp::Add, prim: PrimTy::U8, dst: 2, a: 0, b: 0 };
    st.cur.regs[0] = Slot::Word(200);
    assert_eq!(step(&mut st, &mut a, &mut acct, &over).unwrap_err().kind, TrapKind::Overflow);
    let wrap = Op::IntBin { op: IntOp::WAdd, prim: PrimTy::U8, dst: 2, a: 0, b: 0 };
    step(&mut st, &mut a, &mut acct, &wrap).unwrap();
    assert_eq!(st.cur.regs[2], Slot::Word(144));
}

#[test]
fn a_reference_move_retains_the_new_cell_and_releases_the_old() {
    let mut acct = HeapAcct::new(None);
    acct.charge(16).unwrap();
    let mut a = CellArena::new();
    let x = a.mint(8, vec![]);
    let y = a.mint(8, vec![]);
    let mut st = frame(vec![Slot::Ref(Some(x)), Slot::Ref(Some(y))]);
    step(&mut st, &mut a, &mut acct, &Op::MovRef { dst: 1, src: 0 }).unwrap();
    assert_eq!(st.cur.regs[1], Slot::Ref(Some(x)));
    assert_eq!(a.refs_of(x), 2);
    assert!(!a.is_live(y), "the cell the destination held went");
    assert_eq!(acct.used_bytes(), 8);
    step(&mut st, &mut a, &mut acct, &Op::MovRef { dst: 1, src: 0 }).unwrap();
    assert_eq!(a.refs_of(x), 2, "moving a cell onto itself changes nothing");
}

#[test]
fn jumps_branches_and_assertions() {
    let mut a = CellArena::new();
    let mut acct = HeapAcct::new(None);
    let mut st = frame(vec![Slot::Word(0)]);
    step(&mut st, &mut a, &mut acct, &Op::Br { cond: 0, then_t: 3, else_t: 7 }).unwrap();
    assert_eq!(st.cur.pc, 7);
    step(&mut st, &mut a, &mut acct, &Op::Jmp { target: 2 }).unwrap();
    assert_eq!(st.cur.pc, 2);
    let t = step(&mut st, &mut a, &mut acct, &Op::Assert { cond: 0, msg: None }).unwrap_err();
    assert_eq!(t.kind, TrapKind::Assert);
    assert_eq!(t.msg, "assertion failed");
}

fn program(code: Vec<Op>) -> ProgramShape {
    ProgramShape {
        funcs: vec![FuncShape { name: "main".to_string(), regs: vec![0, 0], params: vec![], is_method: false, code }],
        types: vec![],
        reprs: vec![],
        byte_ty: 0,
        trait_slots: 0,
        traits: 0,
    }
}

#[test]
fn step_one_runs_a_loop_to_its_return_and_parks_on_a_spent_budget() {
    // r0 = 0; loop: r0 += 1 (r1 = 1); if r0 < 3 goto loop; return r0
    let p = program(vec![
        Op::ConstRaw { dst: 1, bits: 1 },
        Op::IntBin { op: IntOp::Add, prim: PrimTy::I64, dst: 0, a: 0, b: 1 },
        Op::IntCmp { op: CmpOp::Lt, prim: PrimTy::I64, dst: 1, a: 0, b: 1 },
        Op::ConstRaw { dst: 1, bits: 3 },
        Op::IntCmp { op: CmpOp::Lt, prim: PrimTy::I64, dst: 1, a: 0, b: 1 },
        Op::Br { cond: 1, then_t: 0, else_t: 6 },
        Op::Ret { val: Some(0) },
    ]);
    let mut a = CellArena::new();
    let mut acct = HeapAcct::new(None);
    let mut st = frame(vec![Slot::Word(0), Slot::Word(0)]);
    let mut m = FuelMeter::new(&Limits { fuel: None, heap_limit_bytes: None, interrupt_every: 1024 });
    let mut n = 0;
    let v = loop {
        n += 1;
        if let Some(v) = step_one(&p, &mut st, &mut a, &mut acct, &mut m).unwrap() {
            break v;
        }
    };
    assert_eq!(v, Slot::Word(3));
    assert_eq!(n, 19);
    assert!(!st.running);
    let mut st = frame(vec![Slot::Word(0), Slot::Word(0)]);
    let mut m = FuelMeter::new(&Limits { fuel: Some(2), heap_limit_bytes: None, interrupt_every: 1024 });
    step_one(&p, &mut st, &mut a, &mut acct, &mut m).unwrap();
    step_one(&p, &mut st, &mut a, &mut acct, &mut m).unwrap();
    let t = step_one(&p, &mut st, &mut a, &mut acct, &mut m).unwrap_err();
    assert_eq!(t.kind, TrapKind::OutOfFuel);
    assert_eq!(st.cur.pc, 2, "parked at the op that was not run");
}

#[test]
fn the_run_loop_returns_traps_or_parks() {
    let p = program(vec![
        Op::ConstRaw { dst: 1, bits: 1 },
        Op::IntBin { op: IntOp::Add, prim: PrimTy::I64, dst: 0, a: 0, b: 1 },
        Op::ConstRaw { dst: 1, bits: 3 },
        Op::IntCmp { op: CmpOp::Lt, prim: PrimTy::I64, dst: 1, a: 0, b: 1 },
        Op::Br { cond: 1, then_t: 0, else_t: 5 },
        Op::Ret { val: Some(0) },
    ]);
    let unlimited = || FuelMeter::new(&Limits { fuel: None, heap_limit_bytes: None, interrupt_every: 1024 });
    let mut a = CellArena::new();
    let mut acct = HeapAcct::new(None);
    let mut st = frame(vec![Slot::Word(0), Slot::Word(0)]);
    let mut m = unlimited();
    assert_eq!(run_loop(&p, &mut st, &mut a, &mut acct, &mut m).unwrap(), Slot::Word(3));
    assert!(!st.running);
    assert_eq!(m.fuel_used, 16);

    let mut st = frame(vec![Slot::Word(0), Slot::Word(0)]);
    let mut m = FuelMeter::new(&Limits { fuel: Some(7), heap_limit_bytes: None, interrupt_every: 1024 });
    let t = run_loop(&p, &mut st, &mut a, &mut acct, &mut m).unwrap_err();
    assert_eq!(t.kind, TrapKind::OutOfFuel);
    assert_eq!(st.cur.pc, 2);
    assert_eq!(st.cur.regs, vec![Slot::Word(2), Slot::Word(1)]);
    m.add_fuel(100);
    assert_eq!(run_loop(&p, &mut st, &mut a, &mut acct, &mut m).unwrap(), Slot::Word(3), "resume continues");

    let div = program(vec![
        Op::IntBin { op: IntOp::Div, prim: PrimTy::I64, dst: 0, a: 0, b: 1 },
        Op::Ret { val: Some(0) },
    ]);
    let mut st = frame(vec![Slot::Word(9), Slot::Word(0)]);
    let mut m = unlimited();
    let t = run_loop(&div, &mut st, &mut a, &mut acct, &mut m).unwrap_err();
    assert_eq!(t.kind, TrapKind::DivByZero);
    assert_eq!(st.cur.pc, 1, "the frame is left just past the trapping op");
}

#[test]
fn the_run_loop_enters_calls_and_resumes_the_caller() {
    let p = ProgramShape {
        funcs: vec![
            FuncShape {
                name: "main".to_string(),
                regs: vec![0, 0, 0],
                params: vec![],
                is_method: false,
                code: vec![
                    Op::ConstRaw { dst: 0, bits: 40 },
                    Op::ConstRaw { dst: 1, bits: 2 },
                    Op::Call { func: 1, args: vec![0, 1], dst: Some(2) },
                    Op::Ret { val: Some(2) },
                ],
            },
            FuncShape {
                name: "add".to_string(),
                regs: vec![0, 0, 0],
                params: vec![0, 0],
                is_method: false,
                code: vec![
                    Op::IntBin { op: IntOp::Add, prim: PrimTy::I64, dst: 2, a: 0, b: 1 },
                    Op::Ret { val: Some(2) },
                ],
            },
        ],
        types: vec![rut::bytecode::TyKind::Prim(PrimTy::I64)],
        reprs: vec![0],
        byte_ty: 0,
        trait_slots: 0,
        traits: 0,
    };
    let mut a = CellArena::new();
    let mut acct = HeapAcct::new(None);
    let mut st = frame(vec![Slot::Word(0), Slot::Word(0), Slot::Word(0)]);
    let mut m = FuelMeter::new(&Limits { fuel: None, heap_limit_bytes: None, interrupt_every: 1024 });
    assert_eq!(run_loop(&p, &mut st, &mut a, &mut acct, &mut m).unwrap(), Slot::Word(42));
    assert_eq!(m.fuel_used, 6);
    assert!(!st.running);
}

#[test]
fn new_cell_charges_its_fields_and_replaces_the_register() {
    let p = ProgramShape {
        funcs: vec![],
        types: vec![rut::bytecode::TyKind::Prim(PrimTy::I64), rut::bytecode::TyKind::Data(vec![0, 0, 0])],
        reprs: vec![0, 0],
        byte_ty: 0,
        trait_slots: 0,
        traits: 0,
    };
    let mut a = CellArena::new();
    let mut acct = HeapAcct::new(Some(40));
    let mut st = frame(vec![Slot::Ref(None)]);
    op_new_cell(&p, &mut st, &mut a, &mut acct, 0, 1).unwrap();
    assert_eq!(acct.used_bytes(), 24, "three fields, eight bytes each");
    let first = match st.cur.regs[0] {
        Slot::Ref(Some(c)) => c,
        other => panic!("expected a cell, got {other:?}"),
    };
    let t = op_new_cell(&p, &mut st, &mut a, &mut acct, 0, 1).unwrap_err();
    assert_eq!(t.kind, TrapKind::OutOfMemory, "48 > 40");
    assert_eq!(st.cur.regs[0], Slot::Ref(Some(first)), "nothing changed");
    let mut roomy = HeapAcct::new(None);
    roomy.charge(24).unwrap();
    op_new_cell(&p, &mut st, &mut a, &mut roomy, 0, 1).unwrap();
    assert!(!a.is_live(first), "the register's previous cell went");
    assert_eq!(roomy.used_bytes(), 24);
}
