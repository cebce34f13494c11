//! The value model: tags, pointers, comparison, equality,
//! conversion and arithmetic.

use lispvm::data::{MemData, Op, OpCode, Procedure, Type};
use lispvm::err::{BinOp, Error};

#[test]
fn tags_and_pointers() {
    assert_eq!(MemData::Int(4).get_type(), Type::Int);
    assert_eq!(MemData::Nil.get_type(), Type::Nil);

    let p = MemData::create_pointer(MemData::Int(5));
    assert_eq!(p.get_type(), Type::Pointer);
    assert_eq!(p.deref().get_type(), Type::Int);

    // Wrapping an existing pointer changes nothing: pointees are
    // never themselves pointers.
    let pp = MemData::create_pointer(p);
    assert_eq!(pp.deref().get_type(), Type::Int);
    assert!(pp.deref().eq(&MemData::Int(5)).unwrap());

    assert!(pp.clone_pointer().is_some());
    assert!(MemData::Int(5).clone_pointer().is_none());
}

#[test]
fn truthiness() {
    assert!(MemData::Bool(true).is_true());
    assert!(!MemData::Bool(true).is_false());
    assert!(MemData::Bool(false).is_false());
    assert!(!MemData::Nil.is_true());
    assert!(!MemData::Nil.is_false());
    assert!(MemData::create_pointer(MemData::Bool(false)).is_false());
}

#[test]
fn comparison() {
    assert!(MemData::Int(3).lt(&MemData::Int(4)).unwrap());
    assert!(MemData::Int(9).gt(&MemData::Int(4)).unwrap());
    assert!(!MemData::Int(4).gt(&MemData::Int(4)).unwrap());
    assert!(MemData::Nil.eq(&MemData::Nil).unwrap());
    assert!(MemData::create_pointer(MemData::Int(7))
        .eq(&MemData::Int(7))
        .unwrap());

    match MemData::Str("a".to_string()).cmp(&MemData::Int(1)) {
        Err(Error::BadOperandTypes(BinOp::Ordering, Type::Str, Type::Int)) => {}
        other => panic!("unexpected: {:?}", other),
    }
}

#[test]
fn string_equality() {
    assert!(MemData::Str("abc".to_string())
        .eq(&MemData::Str("abc".to_string()))
        .unwrap());
    assert!(!MemData::Str("abc".to_string())
        .eq(&MemData::Str("abd".to_string()))
        .unwrap());
}

#[test]
fn structural_equality() {
    let pair = MemData::Pair {
        car: Box::new(MemData::create_pointer(MemData::Int(1))),
        cdr: Box::new(MemData::Str("x".to_string())),
    };
    let same = MemData::Pair {
        car: Box::new(MemData::Int(1)),
        cdr: Box::new(MemData::Str("x".to_string())),
    };
    let other = MemData::Pair {
        car: Box::new(MemData::Int(2)),
        cdr: Box::new(MemData::Str("x".to_string())),
    };
    assert!(pair.struct_equal(&same));
    assert!(!pair.struct_equal(&other));
    assert!(MemData::create_pointer(MemData::Int(5)).struct_equal(&MemData::Int(5)));
    assert!(!MemData::Nil.struct_equal(&MemData::Bool(false)));
}

#[test]
fn conversion_to_str() {
    let r = MemData::Int(1234).convert(&Type::Str).unwrap();
    assert!(r.eq(&MemData::Str("1234".to_string())).unwrap());

    let r = MemData::Int(0).convert(&Type::Str).unwrap();
    assert!(r.eq(&MemData::Str("0".to_string())).unwrap());

    let r = MemData::Int(u32::MAX).convert(&Type::Str).unwrap();
    assert!(r.eq(&MemData::Str("4294967295".to_string())).unwrap());

    // Conversion sees through pointers.
    let r = MemData::create_pointer(MemData::Int(7))
        .convert(&Type::Str)
        .unwrap();
    assert!(r.eq(&MemData::Str("7".to_string())).unwrap());

    let r = MemData::Nil.convert(&Type::Str).unwrap();
    assert!(r.eq(&MemData::Str("Nil".to_string())).unwrap());

    let r = MemData::Bool(true).convert(&Type::Str).unwrap();
    assert!(r.eq(&MemData::Str("Bool(true)".to_string())).unwrap());

    match MemData::Int(1).convert(&Type::Int) {
        Err(Error::IllegalConversion(Type::Int, Type::Int)) => {}
        other => panic!("unexpected: {:?}", other),
    }
}

#[test]
fn arithmetic() {
    let r = MemData::Int(3).arith(BinOp::Sum, &MemData::Int(4)).unwrap();
    assert!(r.eq(&MemData::Int(7)).unwrap());

    // Host u32 arithmetic wraps modulo 2^32.
    let r = MemData::Int(u32::MAX)
        .arith(BinOp::Sum, &MemData::Int(1))
        .unwrap();
    assert!(r.eq(&MemData::Int(0)).unwrap());

    let r = MemData::Int(0)
        .arith(BinOp::Subtraction, &MemData::Int(1))
        .unwrap();
    assert!(r.eq(&MemData::Int(u32::MAX)).unwrap());

    let r = MemData::Int(6)
        .arith(BinOp::Multiplication, &MemData::Int(7))
        .unwrap();
    assert!(r.eq(&MemData::Int(42)).unwrap());

    let r = MemData::Int(9)
        .arith(BinOp::Division, &MemData::Int(2))
        .unwrap();
    assert!(r.eq(&MemData::Int(4)).unwrap());

    match MemData::Int(9).arith(BinOp::Division, &MemData::Int(0)) {
        Err(Error::BadOperandTypes(BinOp::Division, Type::Int, Type::Int)) => {}
        other => panic!("unexpected: {:?}", other),
    }

    match MemData::Int(9).arith(BinOp::Sum, &MemData::Nil) {
        Err(Error::BadOperandTypes(BinOp::Sum, Type::Int, Type::Nil)) => {}
        other => panic!("unexpected: {:?}", other),
    }

    // Operands are seen through pointers.
    let r = MemData::create_pointer(MemData::Int(8))
        .arith(BinOp::Sum, &MemData::create_pointer(MemData::Int(2)))
        .unwrap();
    assert!(r.eq(&MemData::Int(10)).unwrap());
}

#[test]
fn instruction_rewrites() {
    let mut op = Op::new(OpCode::LVR, Some(3), None, Some(2), None, false);
    op.apply_const_offset(10);
    assert_eq!(op.val, Some(12));
    assert_eq!(op.ident, Some(3));

    op.apply_ident_swap(&vec![1, 3], &vec![7, 9]);
    assert_eq!(op.ident, Some(9));

    // An unlisted id is left unchanged.
    let mut other = Op::new(OpCode::LVR, Some(5), None, None, None, false);
    other.apply_ident_swap(&vec![1, 3], &vec![7, 9]);
    assert_eq!(other.ident, Some(5));

    let mut p = Procedure::new(vec![
        Op::new(OpCode::LVR, Some(0), None, Some(0), None, false),
        Op::new(OpCode::DVR, Some(1), None, None, None, true),
    ]);
    p.apply_ident_swaps(vec![0, 1], vec![4, 5]);
    p.apply_const_offset(3);
    assert_eq!(p.iter()[0].ident, Some(4));
    assert_eq!(p.iter()[0].val, Some(3));
    assert_eq!(p.iter()[1].ident, Some(5));
    assert_eq!(p.iter()[1].val, None);
}
