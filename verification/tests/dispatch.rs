use rut::dispatch::{expected, init_regs, make_loop, run, run_match, run_threaded, K_ADD, K_BR, K_JMP, K_LT, K_RET};

#[test]
fn the_loop_program_has_six_ops() {
    let code = make_loop();
    assert_eq!(code.tags, vec![K_LT, K_BR, K_ADD, K_ADD, K_JMP, K_RET]);
    assert_eq!(code.ops[0], [2, 0, 3, 0]);
    assert_eq!(code.ops[1], [2, 5, 0, 0]);
    assert_eq!(code.ops[5], [1, 0, 0, 0]);
}

#[test]
fn expected_is_the_wrapping_triangle_sum() {
    assert_eq!(expected(0), 0);
    assert_eq!(expected(1), 0);
    assert_eq!(expected(10), 45);
    assert_eq!(expected(1000), 499_500);
    assert_eq!(expected(-5), 0);
}

#[test]
fn run_match_computes_the_sum_and_leaves_the_registers() {
    let code = make_loop();
    for n in [0i64, 1, 2, 10, 1000] {
        let mut regs = init_regs(n);
        assert_eq!(regs, [0, 0, 0, n, 1]);
        let v = run_match(&code, &mut regs, 0);
        assert_eq!(v, expected(n));
        assert_eq!(regs, [n, expected(n), 0, n, 1]);
    }
}

#[test]
fn a_negative_bound_returns_zero_at_once() {
    let code = make_loop();
    let mut regs = init_regs(-3);
    assert_eq!(run_match(&code, &mut regs, 0), 0);
    assert_eq!(regs, [0, 0, 0, -3, 1]);
}

#[test]
fn the_match_and_handler_drivers_agree() {
    let code = make_loop();
    for n in [0i64, 7, 10_000] {
        let mut a = init_regs(n);
        let mut b = init_regs(n);
        let mut c = init_regs(n);
        let va = run_match(&code, &mut a, 0);
        let vb = run(&code, &mut b, 0);
        let vc = run_threaded(&code, &mut c, 0);
        assert_eq!(va, expected(n));
        assert_eq!(vb, va);
        assert_eq!(vc, va);
        assert_eq!(a, b);
        assert_eq!(a, c);
    }
}
