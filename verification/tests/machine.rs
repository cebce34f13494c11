//! Opcode behaviour at the edges, and the error paths of whole runs.

use lispvm::data::{Bin, MemData, Op, OpCode, Procedure, Type};
use lispvm::err::{BinOp, Error, RuntimeError};
use lispvm::vm::{LoadOpts, VM};

fn op(
    opcode: OpCode,
    ident: Option<u16>,
    n: Option<u32>,
    val: Option<u16>,
    typ: Option<Type>,
    mute: bool,
) -> Op {
    Op::new(opcode, ident, n, val, typ, mute)
}

fn run(ops: Vec<Op>, consts: Vec<MemData>) -> Result<MemData, RuntimeError> {
    let mut lisp: VM = VM::new();
    let id = lisp.load(
        Bin::new(Procedure::new(ops), vec![], vec![], consts),
        LoadOpts::OverrideVarStrings,
    );
    lisp.call(&id)
}

#[test]
fn add_of_nothing_is_nil() {
    let r = run(
        vec![
            op(OpCode::ADD, None, Some(0), None, None, false),
        ],
        vec![],
    )
    .unwrap();
    assert!(r.eq(&MemData::Nil).unwrap());
}

#[test]
fn add_fold_sums_modulo() {
    let r = run(
        vec![
            op(OpCode::LVR, None, None, Some(0), None, false),
            op(OpCode::LVR, None, None, Some(1), None, false),
            op(OpCode::LVR, None, None, Some(2), None, false),
            op(OpCode::ADD, None, Some(3), None, None, false),
        ],
        vec![
            MemData::Int(u32::MAX),
            MemData::Int(2),
            MemData::Int(5),
        ],
    )
    .unwrap();
    assert!(r.eq(&MemData::Int(6)).unwrap());
}

#[test]
fn sub_and_div_fold() {
    let r = run(
        vec![
            op(OpCode::LVR, None, None, Some(0), None, false),
            op(OpCode::LVR, None, None, Some(1), None, false),
            op(OpCode::LVR, None, None, Some(2), None, false),
            op(OpCode::SUB, None, Some(3), None, None, false),
        ],
        vec![MemData::Int(50), MemData::Int(8), MemData::Int(2)],
    )
    .unwrap();
    assert!(r.eq(&MemData::Int(40)).unwrap());

    let r = run(
        vec![
            op(OpCode::LVR, None, None, Some(0), None, false),
            op(OpCode::LVR, None, None, Some(1), None, false),
            op(OpCode::DIV, None, Some(2), None, None, false),
        ],
        vec![MemData::Int(84), MemData::Int(2)],
    )
    .unwrap();
    assert!(r.eq(&MemData::Int(42)).unwrap());
}

#[test]
fn comparisons_reduce_pairwise() {
    // 3 > 2 > 1 holds.
    let r = run(
        vec![
            op(OpCode::LVR, None, None, Some(0), None, false),
            op(OpCode::LVR, None, None, Some(1), None, false),
            op(OpCode::LVR, None, None, Some(2), None, false),
            op(OpCode::CGT, None, Some(3), None, None, false),
        ],
        vec![MemData::Int(3), MemData::Int(2), MemData::Int(1)],
    )
    .unwrap();
    assert!(r.is_true());

    // 1 < 5 but not 5 < 4.
    let r = run(
        vec![
            op(OpCode::LVR, None, None, Some(0), None, false),
            op(OpCode::LVR, None, None, Some(1), None, false),
            op(OpCode::LVR, None, None, Some(2), None, false),
            op(OpCode::CLT, None, Some(3), None, None, false),
        ],
        vec![MemData::Int(1), MemData::Int(5), MemData::Int(4)],
    )
    .unwrap();
    assert!(r.is_false());

    // Structural equality, through pointers.
    let r = run(
        vec![
            op(OpCode::LVR, None, None, Some(0), None, false),
            op(OpCode::LVR, None, None, Some(1), None, false),
            op(OpCode::CEQ, None, Some(2), None, None, false),
        ],
        vec![MemData::Int(6), MemData::Int(6)],
    )
    .unwrap();
    assert!(r.is_true());
}

#[test]
fn cons_builds_pairs_in_stack_order() {
    // Push 1 then 2: the lower value is the car.
    let r = run(
        vec![
            op(OpCode::LVR, None, None, Some(0), None, false),
            op(OpCode::LVR, None, None, Some(1), None, false),
            op(OpCode::CNS, None, None, None, None, false),
            op(OpCode::CAR, None, Some(1), None, None, false),
        ],
        vec![MemData::Int(1), MemData::Int(2)],
    )
    .unwrap();
    assert!(r.eq(&MemData::Int(1)).unwrap());
}

#[test]
fn recording_and_inline_call() {
    // Record two opcodes, then run them as a body: the result is
    // what the body leaves on top.
    let r = run(
        vec![
            op(OpCode::REC, None, Some(2), None, None, false),
            op(OpCode::LVR, None, None, Some(0), None, false),
            op(OpCode::LVR, None, None, Some(1), None, false),
            op(OpCode::CLL, None, Some(2), None, None, false),
        ],
        vec![MemData::Int(31), MemData::Int(64)],
    )
    .unwrap();
    assert!(r.eq(&MemData::Int(64)).unwrap());
}

#[test]
fn cnt_is_a_no_op() {
    let r = run(
        vec![
            op(OpCode::LVR, None, None, Some(0), None, false),
            op(OpCode::CNT, None, None, None, None, false),
        ],
        vec![MemData::Int(5)],
    )
    .unwrap();
    assert!(r.eq(&MemData::Int(5)).unwrap());
}

#[test]
fn calling_an_unknown_id_fails() {
    let mut lisp: VM = VM::new();
    match lisp.call(&999) {
        Err(RuntimeError {
            instruction: None,
            instruction_num: None,
            error: Error::VariableNotFound(0, 999),
        }) => {}
        other => panic!("unexpected: {:?}", other),
    }
}

#[test]
fn empty_body_leaves_no_result() {
    match run(vec![], vec![]) {
        Err(RuntimeError {
            instruction: None,
            instruction_num: None,
            error: Error::IllegalRegisterPop,
        }) => {}
        other => panic!("unexpected: {:?}", other),
    }
}

#[test]
fn popping_past_the_root_fails() {
    // A loaded body runs in the captured global environment, whose
    // chain holds the root frame alone: popping it fails.
    match run(
        vec![op(OpCode::PPS, None, None, None, None, false)],
        vec![],
    ) {
        Err(RuntimeError {
            instruction: Some(Op { opcode: OpCode::PPS, .. }),
            instruction_num: Some(0),
            error: Error::IllegalStackPop,
        }) => {}
        other => panic!("unexpected: {:?}", other),
    }
}

#[test]
fn displaying_a_non_string_fails() {
    match run(
        vec![
            op(OpCode::LVR, None, None, Some(0), None, false),
            op(OpCode::DSP, None, None, None, None, false),
        ],
        vec![MemData::Int(3)],
    ) {
        Err(RuntimeError {
            instruction: Some(Op { opcode: OpCode::DSP, .. }),
            instruction_num: Some(1),
            error: Error::TypeError(Type::Str, Type::Int),
        }) => {}
        other => panic!("unexpected: {:?}", other),
    }
}

#[test]
fn converting_to_an_unsupported_type_fails() {
    match run(
        vec![
            op(OpCode::LVR, None, None, Some(0), None, false),
            op(OpCode::CNV, None, Some(1), None, Some(Type::Int), false),
        ],
        vec![MemData::Int(3)],
    ) {
        Err(RuntimeError {
            error: Error::IllegalConversion(Type::Pointer, Type::Int),
            ..
        }) => {}
        other => panic!("unexpected: {:?}", other),
    }
}

#[test]
fn missing_constant_fails() {
    match run(
        vec![op(OpCode::LVR, None, None, Some(9), None, false)],
        vec![],
    ) {
        Err(RuntimeError {
            error: Error::ConstantNotFound(9),
            ..
        }) => {}
        other => panic!("unexpected: {:?}", other),
    }
}

#[test]
fn bad_operands_fail() {
    match run(
        vec![
            op(OpCode::LVR, None, None, Some(0), None, false),
            op(OpCode::LVR, None, None, Some(1), None, false),
            op(OpCode::ADD, None, Some(2), None, None, false),
        ],
        vec![MemData::Str("a".to_string()), MemData::Str("b".to_string())],
    ) {
        Err(RuntimeError {
            error: Error::BadOperandTypes(BinOp::Sum, Type::Str, Type::Str),
            ..
        }) => {}
        other => panic!("unexpected: {:?}", other),
    }
}

#[test]
fn branch_errors_wrap_as_sub_job() {
    // CLL of a binding that is not callable: the failure comes back
    // wrapped as a sub-job error at the calling instruction.
    match run(
        vec![
            op(OpCode::DVR, Some(0), None, Some(0), None, true),
            op(OpCode::CLL, Some(0), None, None, None, false),
        ],
        vec![MemData::Int(5)],
    ) {
        Err(RuntimeError {
            instruction: Some(Op { opcode: OpCode::CLL, .. }),
            instruction_num: Some(1),
            error: Error::RuntimeErrorInSubJob(inner),
        }) => match *inner {
            RuntimeError {
                instruction: None,
                instruction_num: None,
                error: Error::TypeError(Type::Proc, Type::Int),
            } => {}
            other => panic!("unexpected inner: {:?}", other),
        },
        other => panic!("unexpected: {:?}", other),
    }
}

#[test]
fn branch_on_truthiness() {
    // Everything but Bool(false) counts as truthy, Nil included:
    // the then-branch runs.
    let r = run(
        vec![
            op(OpCode::REC, None, Some(1), None, None, false),
            op(OpCode::LVR, None, None, Some(0), None, false),
            op(OpCode::PRC, None, Some(1), None, None, false),
            op(OpCode::LVR, None, None, Some(1), None, false),
            op(OpCode::IFT, None, None, None, None, false),
        ],
        vec![MemData::Int(77), MemData::Nil],
    )
    .unwrap();
    assert!(r.eq(&MemData::Int(77)).unwrap());
}

#[test]
fn define_without_mute_pushes_the_binding() {
    let r = run(
        vec![op(OpCode::DVR, Some(0), None, Some(0), None, false)],
        vec![MemData::Int(12)],
    )
    .unwrap();
    assert!(r.eq(&MemData::Int(12)).unwrap());
}

#[test]
fn convert_a_binding_without_popping() {
    // CNV with an id converts the binding and pushes the rendering,
    // leaving the stack otherwise alone.
    let r = run(
        vec![
            op(OpCode::DVR, Some(0), None, Some(0), None, true),
            op(OpCode::CNV, Some(0), None, None, Some(Type::Str), false),
        ],
        vec![MemData::Int(451)],
    )
    .unwrap();
    assert!(r.eq(&MemData::Str("451".to_string())).unwrap());
}

#[test]
fn components_of_a_binding() {
    // CAR/CDR with an id read the binding through its pointer.
    let r = run(
        vec![
            op(OpCode::LVR, None, None, Some(0), None, false),
            op(OpCode::LVR, None, None, Some(1), None, false),
            op(OpCode::CNS, None, None, None, None, false),
            op(OpCode::DVR, Some(0), None, None, None, true),
            op(OpCode::CDR, Some(0), None, None, None, false),
        ],
        vec![MemData::Int(1), MemData::Int(2)],
    )
    .unwrap();
    assert!(r.eq(&MemData::Int(2)).unwrap());
}

#[test]
fn concatenating_a_non_string_fails() {
    match run(
        vec![
            op(OpCode::LVR, None, None, Some(0), None, false),
            op(OpCode::LVR, None, None, Some(1), None, false),
            op(OpCode::CAT, None, Some(2), None, None, false),
        ],
        vec![MemData::Str("a".to_string()), MemData::Int(1)],
    ) {
        Err(RuntimeError {
            error: Error::TypeError(Type::Str, Type::Int),
            ..
        }) => {}
        other => panic!("unexpected: {:?}", other),
    }
}

#[test]
fn arith_with_a_binding() {
    // ADD with an id folds the binding with the popped top.
    let r = run(
        vec![
            op(OpCode::DVR, Some(0), None, Some(0), None, true),
            op(OpCode::LVR, None, None, Some(1), None, false),
            op(OpCode::ADD, Some(0), None, None, None, false),
        ],
        vec![MemData::Int(40), MemData::Int(2)],
    )
    .unwrap();
    assert!(r.eq(&MemData::Int(42)).unwrap());
}

#[test]
fn unit_fits_checks_the_id_spaces() {
    let lisp: VM = VM::new();

    let ok = Bin::new(Procedure::new(vec![]), vec![0], vec![], vec![]);
    assert!(lisp.unit_fits(&ok));

    // A local id this large cannot be remapped into the 16-bit
    // space.
    let too_big = Bin::new(Procedure::new(vec![]), vec![65534], vec![], vec![]);
    assert!(!lisp.unit_fits(&too_big));
}

#[test]
fn display_concatenates_verbatim() {
    let mut lisp: VM = VM::new();
    let id = lisp.load(
        Bin::new(
            Procedure::new(vec![
                op(OpCode::LVR, None, None, Some(0), None, false),
                op(OpCode::DSP, None, None, None, None, false),
                op(OpCode::LVR, None, None, Some(1), None, false),
                op(OpCode::DSP, None, None, None, None, false),
            ]),
            vec![],
            vec![],
            vec![
                MemData::Str("one ".to_string()),
                MemData::Str("two".to_string()),
            ],
        ),
        LoadOpts::OverrideVarStrings,
    );
    let r = lisp.call(&id).unwrap();
    assert!(r.eq(&MemData::Nil).unwrap());
    assert_eq!(lisp.output().as_str(), "one two");
}
