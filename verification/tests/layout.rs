use rut::bytecode::{FuncShape, ProgramShape, TyKind};
use rut::cell::PrimTy;
use rut::layout::{ref_fields, ref_regs, type_reprs, Repr};

fn program() -> ProgramShape {
    ProgramShape {
        funcs: vec![
            FuncShape { name: "f".to_string(), regs: vec![0, 1, 2, 3, 4], params: vec![], is_method: false, code: vec![] },
            FuncShape { name: "g".to_string(), regs: vec![], params: vec![], is_method: false, code: vec![] },
        ],
        // 0 i64, 1 str, 2 unit, 3 record {i64, str}, 4 ?str, 5 ?i64, 6 fn
        types: vec![
            TyKind::Prim(PrimTy::I64),
            TyKind::Str,
            TyKind::Nil,
            TyKind::Data(vec![0, 1]),
            TyKind::Option(1),
            TyKind::Option(0),
            TyKind::Fn,
        ],
        reprs: vec![0; 7],
        byte_ty: 0,
        trait_slots: 0,
        traits: 0,
    }
}

#[test]
fn representations_follow_the_kind() {
    let r = type_reprs(&program());
    assert_eq!(r, vec![Repr::Prim(PrimTy::I64), Repr::Ref, Repr::Any, Repr::Ref, Repr::Ref, Repr::Ref, Repr::Any]);
}

#[test]
fn reference_registers_and_fields_are_listed_in_order() {
    let p = program();
    assert_eq!(ref_regs(&p), vec![vec![1, 3, 4], vec![]]);
    assert_eq!(ref_fields(&p), vec![vec![], vec![], vec![], vec![1], vec![0], vec![], vec![]]);
}
