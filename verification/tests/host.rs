use rut::host::{join_hosts, verify_against, Bound, Declared, HostSig, SurfaceError};
use rut::trap::TrapKind;

fn decl(name: &str, params: &[u32], ret: u32) -> Declared {
    Declared { name: name.to_string(), params: params.to_vec(), ret }
}

fn bind(name: &str, params: &[u32], ret: u32) -> Bound {
    Bound { name: name.to_string(), sig: HostSig::new(params, ret) }
}

#[test]
fn a_signature_keeps_its_parameters() {
    let s = HostSig::new(&[3, 4, 5], 9);
    assert_eq!(s.slice(), &[3, 4, 5]);
    assert_eq!(s.ret, 9);
    assert_eq!(HostSig::new(&[], 1).slice(), &[] as &[u32]);
    assert_eq!(HostSig::new(&[1, 2, 3, 4, 5, 6, 7, 8], 0).slice().len(), 8);
}

#[test]
fn an_agreeing_surface_passes() {
    let bound = vec![bind("calc::abs", &[7], 7), bind("calc::add", &[6, 6], 6)];
    let expected = vec![decl("calc::add", &[6, 6], 6), decl("calc::abs", &[7], 7)];
    assert!(verify_against(&bound, &expected).is_ok());
    assert!(verify_against(&[], &[]).is_ok());
}

#[test]
fn a_declared_but_unbound_fn_is_refused() {
    let bound = vec![bind("calc::abs", &[7], 7)];
    let expected = vec![decl("calc::abs", &[7], 7), decl("calc::neg", &[7], 7)];
    match verify_against(&bound, &expected) {
        Err(SurfaceError::Unbound(n)) => assert_eq!(n, "calc::neg"),
        _ => panic!("expected Unbound"),
    }
}

#[test]
fn signature_drift_reports_both_sides() {
    let bound = vec![bind("calc::abs", &[6], 7)];
    let expected = vec![decl("calc::abs", &[7], 7)];
    match verify_against(&bound, &expected) {
        Err(SurfaceError::Drift { name, declared, bound }) => {
            assert_eq!(name, "calc::abs");
            assert_eq!(declared, (vec![7], 7));
            assert_eq!(bound, (vec![6], 7));
        }
        _ => panic!("expected Drift"),
    }
    let ret_drift = verify_against(&[bind("f", &[1], 2)], &[decl("f", &[1], 3)]);
    assert!(matches!(ret_drift, Err(SurfaceError::Drift { .. })));
}

#[test]
fn a_bound_but_undeclared_fn_is_refused() {
    let bound = vec![bind("calc::abs", &[7], 7), bind("calc::extra", &[], 0)];
    let expected = vec![decl("calc::abs", &[7], 7)];
    match verify_against(&bound, &expected) {
        Err(SurfaceError::Undeclared(n)) => assert_eq!(n, "calc::extra"),
        _ => panic!("expected Undeclared"),
    }
}

#[test]
fn the_host_join_gives_each_host_function_its_binding() {
    let bound = vec![bind("calc::abs", &[10], 10), bind("calc::neg", &[10], 10)];
    let names = vec![None, Some("calc::neg".to_string()), None, Some("calc::abs".to_string())];
    let slots = join_hosts(&names, &bound).unwrap();
    assert_eq!(slots, vec![None, Some(1), None, Some(0)]);
}

#[test]
fn the_host_join_refuses_an_unbound_host_function() {
    let bound = vec![bind("calc::abs", &[10], 10)];
    let names = vec![Some("calc::abs".to_string()), Some("calc::sqrt".to_string())];
    let t = join_hosts(&names, &bound).unwrap_err();
    assert_eq!(t.kind, TrapKind::Invalid);
    assert_eq!(
        t.msg,
        "host fn `calc::sqrt` is declared by the program but never bound — register the body in the HostRegistry before Vm::new"
    );
    let twice = vec![Some("calc::abs".to_string()), Some("calc::abs".to_string())];
    assert!(join_hosts(&twice, &bound).is_err(), "a binding is taken once");
}
