use rut::bytecode::{regs_of, tys_of, CmpOp, FuncShape, IntOp, Op, ProgramShape, TyKind};
use rut::cell::PrimTy;
use rut::verify::verify;

// type ids: 0 i64, 1 u8, 2 f64, 3 bytes, 4 [i64], 5 record {i64, [i64]}, 6 enum(2), 7 option
fn types() -> Vec<TyKind> {
    vec![
        TyKind::Prim(PrimTy::I64),
        TyKind::Prim(PrimTy::U8),
        TyKind::Prim(PrimTy::F64),
        TyKind::Bytes,
        TyKind::Array(0),
        TyKind::Data(vec![0, 4]),
        TyKind::Enum(2),
        TyKind::Option(0),
    ]
}

fn prog(code: Vec<Op>, regs: Vec<u32>) -> ProgramShape {
    ProgramShape {
        funcs: vec![
            FuncShape { name: "main".to_string(), regs, params: vec![], is_method: false, code },
            FuncShape {
                name: "add".to_string(),
                regs: vec![0, 0],
                params: vec![0, 0],
                is_method: false,
                code: vec![Op::Ret { val: Some(0) }],
            },
        ],
        types: types(),
        reprs: vec![1, 2, 3, 0, 0, 0, 0, 0],
        byte_ty: 1,
        trait_slots: 1,
        traits: 1,
    }
}

#[test]
fn a_sound_program_loads() {
    let code = vec![
        Op::IntBin { op: IntOp::Add, prim: PrimTy::I64, dst: 0, a: 0, b: 1 },
        Op::IntCmp { op: CmpOp::Lt, prim: PrimTy::I64, dst: 2, a: 0, b: 1 },
        Op::Br { cond: 2, then_t: 0, else_t: 3 },
        Op::Call { func: 1, args: vec![0, 1], dst: Some(0) },
        Op::ArrGet { dst: 0, arr: 3, idx: 1, repr: 1 },
        Op::ArrGet { dst: 0, arr: 4, idx: 1, repr: 2 },
        Op::GetF { dst: 0, obj: 5, field: 0, repr: 1 },
        Op::EnumNew { dst: 2, ty: 6, member: 1 },
        Op::Ret { val: Some(0) },
    ];
    assert_eq!(verify(&prog(code, vec![0, 0, 0, 4, 3, 5])), Ok(()));
}

#[test]
fn a_register_out_of_the_frame_is_refused_by_name() {
    let code = vec![Op::Mov { dst: 0, src: 7 }, Op::Ret { val: None }];
    assert_eq!(
        verify(&prog(code, vec![0, 0])).unwrap_err(),
        "function main (#0): op @0: register r7 out of range (2 regs)"
    );
}

#[test]
fn bad_targets_arities_and_types_are_refused() {
    let p = |c: Vec<Op>| verify(&prog(c, vec![0, 0, 0, 4, 3, 5])).unwrap_err();
    assert_eq!(p(vec![Op::Jmp { target: 9 }, Op::Ret { val: None }]), "function main (#0): op @0: jump target 9 out of range");
    assert_eq!(
        p(vec![Op::Call { func: 1, args: vec![0], dst: None }, Op::Ret { val: None }]),
        "function main (#0): op @0: call arity: 1 args for 2 params"
    );
    assert_eq!(
        p(vec![Op::NewCell { dst: 0, ty: 40 }, Op::Ret { val: None }]),
        "function main (#0): op @0: type id 40 out of range"
    );
    assert_eq!(
        p(vec![Op::ArrGet { dst: 0, arr: 4, idx: 1, repr: 9 }, Op::Ret { val: None }]),
        "function main (#0): op @0: array op repr does not match the element type"
    );
    assert_eq!(
        p(vec![Op::IntBin { op: IntOp::Add, prim: PrimTy::I64, dst: 0, a: 3, b: 1 }, Op::Ret { val: None }]),
        "function main (#0): op @0: int op operand is not the embedded primitive"
    );
    assert_eq!(p(vec![Op::LoopHead]), "function main (#0): function must end in Ret");
    assert_eq!(
        p(vec![Op::EnumNew { dst: 0, ty: 6, member: 2 }, Op::Ret { val: None }]),
        "function main (#0): op @0: enum member out of range"
    );
}

#[test]
fn an_untyped_operand_passes_the_type_check() {
    let code = vec![Op::Unbox { dst: 0, box_: 1, ty: u32::MAX }, Op::Ret { val: None }];
    assert_eq!(verify(&prog(code, vec![0, 0])), Ok(()));
}

#[test]
fn regs_of_lists_operands_in_order() {
    assert_eq!(regs_of(&Op::Mov { dst: 1, src: 2 }), vec![1, 2]);
    assert_eq!(regs_of(&Op::CallM { func: 0, recv: 4, args: vec![5, 6], dst: Some(7) }), vec![4, 5, 6, 7]);
    assert_eq!(regs_of(&Op::CallNat { nat: 0, recv: None, args: vec![3], dst: None }), vec![3]);
    assert_eq!(regs_of(&Op::ArrSet { arr: 1, idx: 2, val: 3, repr: 0 }), vec![1, 2, 3]);
    assert_eq!(regs_of(&Op::ArrNew { dst: 1, ty: 4, len: 9, repr: 0 }), vec![1]);
    assert_eq!(regs_of(&Op::Jmp { target: 3 }), Vec::<u16>::new());
    assert_eq!(tys_of(&Op::IsType { dst: 0, obj: 1, want: 5 }), vec![5]);
    assert_eq!(tys_of(&Op::Mov { dst: 0, src: 1 }), Vec::<u32>::new());
}
