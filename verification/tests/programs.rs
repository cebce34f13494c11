//! Whole-program runs through the loader and the interpreter.

use lispvm::data::{Bin, MemData, Op, OpCode, Procedure, Type};
use lispvm::vm::{LoadOpts, VM};

fn op(
    opcode: OpCode,
    ident: Option<u16>,
    n: Option<u32>,
    val: Option<u16>,
    typ: Option<Type>,
    mute: bool,
) -> Op {
    Op::new(opcode, ident, n, val, typ, mute)
}

fn bin(ops: Vec<Op>, idents: Vec<u16>, names: Vec<(u16, &str)>, consts: Vec<MemData>) -> Bin {
    let var_strings: Vec<(u16, String)> =
        names.into_iter().map(|(i, s)| (i, s.to_string())).collect();
    Bin::new(Procedure::new(ops), idents, var_strings, consts)
}

#[test]
fn prg0() {
    let mut lisp: VM = VM::new();

    let id = lisp.load(
        bin(
            vec![
                op(OpCode::PSS, None, None, None, None, false),
                op(OpCode::DVR, Some(0), None, Some(0), None, true),
                op(OpCode::DVR, Some(1), None, Some(1), None, true),
                op(OpCode::LVR, Some(1), None, None, None, false),
                op(OpCode::LVR, Some(0), None, None, None, false),
                op(OpCode::CNV, None, Some(1), None, Some(Type::Str), false),
                op(OpCode::LVR, None, None, Some(2), None, false),
                op(OpCode::CAT, None, Some(3), None, None, false),
                op(OpCode::DSP, None, None, None, None, false),
                op(OpCode::PPS, None, None, None, None, false),
            ],
            vec![0, 1],
            vec![(0, "a"), (1, "b")],
            vec![
                MemData::Int(10),
                MemData::Str("abc".to_string()),
                MemData::Str("\n".to_string()),
            ],
        ),
        LoadOpts::OverrideVarStrings,
    );

    assert!(lisp.call(&id).unwrap().eq(&MemData::Nil).unwrap());
    assert_eq!(lisp.output().as_str(), "abc10\n");
}

#[test]
fn prg1() {
    let mut lisp: VM = VM::new();
    let id = lisp.load(
        bin(
            vec![op(OpCode::LVR, None, None, Some(0), None, false)],
            vec![],
            vec![],
            vec![MemData::Int(9)],
        ),
        LoadOpts::OverrideVarStrings,
    );

    assert!(lisp.call(&id).unwrap().eq(&MemData::Int(9)).unwrap())
}

#[test]
fn prg2() {
    let mut lisp: VM = VM::new();
    let id = lisp.load(
        bin(
            vec![
                op(OpCode::REC, None, Some(3), None, None, false),
                op(OpCode::DVR, Some(1), None, None, None, true),
                op(OpCode::CDR, Some(1), None, None, None, false),
                op(OpCode::CAR, None, Some(1), None, None, false),
                op(OpCode::LMB, None, Some(3), None, None, false),
                op(OpCode::DVR, Some(0), None, None, None, true),
                op(OpCode::LVR, None, None, Some(0), None, false),
                op(OpCode::LVR, None, None, Some(1), None, false),
                op(OpCode::LVR, None, None, Some(2), None, false),
                op(OpCode::LVR, None, None, Some(3), None, false),
                op(OpCode::CNS, None, None, None, None, false),
                op(OpCode::CNS, None, None, None, None, false),
                op(OpCode::CLL, Some(0), None, None, None, false),
                op(OpCode::ADD, None, Some(2), None, None, false),
            ],
            vec![0, 1],
            vec![(0, "cdar"), (1, "l")],
            vec![
                MemData::Int(8),
                MemData::Int(1),
                MemData::Int(2),
                MemData::Int(3),
            ],
        ),
        LoadOpts::OverrideVarStrings,
    );

    assert!(lisp.call(&id).unwrap().eq(&MemData::Int(10)).unwrap());
}

#[test]
fn prg3() {
    let mut lisp: VM = VM::new();
    let id = lisp.load(
        bin(
            vec![
                op(OpCode::REC, None, Some(5), None, None, false),
                op(OpCode::PSS, None, None, None, None, false),
                op(OpCode::LVR, None, None, Some(2), None, false),
                op(OpCode::DSP, None, None, None, None, true),
                op(OpCode::LVR, None, None, Some(3), None, false),
                op(OpCode::PPS, None, None, None, None, false),
                op(OpCode::PRC, None, Some(5), None, None, false),
                op(OpCode::REC, None, Some(9), None, None, false),
                op(OpCode::REC, None, Some(5), None, None, false),
                op(OpCode::PSS, None, None, None, None, false),
                op(OpCode::LVR, None, None, Some(1), None, false),
                op(OpCode::DSP, None, None, None, None, true),
                op(OpCode::LVR, None, None, Some(4), None, false),
                op(OpCode::PPS, None, None, None, None, false),
                op(OpCode::PRC, None, Some(5), None, None, false),
                op(OpCode::LVR, None, None, Some(0), None, false),
                op(OpCode::IFT, None, None, None, None, false),
                op(OpCode::PRC, None, Some(9), None, None, false),
                op(OpCode::LVR, None, None, Some(5), None, false),
                op(OpCode::LVR, None, None, Some(6), None, false),
                op(OpCode::CGT, None, Some(2), None, None, false),
                op(OpCode::IFE, None, None, None, None, false),
            ],
            vec![],
            vec![],
            vec![
                MemData::Bool(true),
                MemData::Str("true\n".to_string()),
                MemData::Str("not true\n".to_string()),
                MemData::Int(123),
                MemData::Int(321),
                MemData::Int(1),
                MemData::Int(2),
            ],
        ),
        LoadOpts::OverrideVarStrings,
    );

    assert!(lisp.call(&id).unwrap().eq(&MemData::Int(321)).unwrap());
    assert_eq!(lisp.output().as_str(), "true\n");
}

#[test]
fn lambda() {
    let mut lisp: VM = VM::new();
    let id = lisp.load(
        bin(
            vec![
                op(OpCode::PSS, None, None, None, None, false),
                op(OpCode::DVR, Some(0), None, Some(0), None, true),
                op(OpCode::REC, None, Some(5), None, None, false),
                op(OpCode::PSS, None, None, None, None, false),
                op(OpCode::LVR, Some(0), None, None, None, false),
                op(OpCode::DSP, None, None, None, None, true),
                op(OpCode::LVR, Some(0), None, None, None, false),
                op(OpCode::PPS, None, None, None, None, false),
                op(OpCode::LMB, None, Some(5), None, None, false),
                op(OpCode::PPS, None, None, None, None, false),
                op(OpCode::DVR, Some(1), None, None, None, true),
                op(OpCode::DVR, Some(0), None, Some(1), None, true),
                op(OpCode::CLL, Some(1), None, None, None, false),
            ],
            vec![0, 1],
            vec![(0, "foo"), (1, "bar")],
            vec![
                MemData::Str("Heyheyhey".to_string()),
                MemData::Str("Yoyoyo".to_string()),
                MemData::Int(123),
            ],
        ),
        LoadOpts::OverrideVarStrings,
    );

    assert!(lisp
        .call(&id)
        .unwrap()
        .eq(&MemData::Str("Heyheyhey".to_string()))
        .unwrap());
    assert_eq!(lisp.output().as_str(), "Heyheyhey");
}

#[test]
fn multi_bin() {
    let msg = "woop woop woop".to_string();

    let mut lisp: VM = VM::new();
    let id = lisp.load(
        bin(
            vec![op(OpCode::DVR, Some(0), None, Some(0), None, false)],
            vec![0],
            vec![(0, "foo")],
            vec![MemData::Str(msg.clone())],
        ),
        LoadOpts::OverrideVarStrings,
    );

    let _ = lisp.call(&id).unwrap();

    let id = lisp.load(
        bin(
            vec![op(OpCode::LVR, Some(0), None, None, None, false)],
            vec![0],
            vec![(0, "foo")],
            vec![],
        ),
        LoadOpts::ReuseVarStrings,
    );

    assert!(lisp.call(&id).unwrap().eq(&MemData::Str(msg)).unwrap());
}
