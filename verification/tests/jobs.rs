//! Driving a job directly against a store, below the loader.

use lispvm::data::{MemData, Op, OpCode, Procedure, Type};
use lispvm::job::Job;
use lispvm::mem::{Environment, Store};

fn op(
    opcode: OpCode,
    ident: Option<u16>,
    n: Option<u32>,
    val: Option<u16>,
    typ: Option<Type>,
    mute: bool,
) -> Op {
    Op::new(opcode, ident, n, val, typ, mute)
}

#[test]
fn execute_runs_a_body_in_place() {
    let mut store = Store::new();
    let env = Environment::new(&mut store);
    let c = env.load_const(&mut store, MemData::Int(21)) as u16;

    let mut job = Job::new(env);
    let body = Procedure::new(vec![
        op(OpCode::LVR, None, None, Some(c), None, false),
        op(OpCode::LVR, None, None, Some(c), None, false),
        op(OpCode::ADD, None, Some(2), None, None, false),
    ]);
    job.execute(&mut store, &body, None).unwrap();

    // The body left its result on the operand stack; a call on a
    // binding would pop it.
    assert_eq!(job.output().as_str(), "");
}

#[test]
fn call_pops_exactly_one_result() {
    let mut store = Store::new();
    let env = Environment::new(&mut store);
    let c = env.load_const(&mut store, MemData::Str("hi".to_string())) as u16;

    // Bind a procedure by hand and call it.
    let body = Procedure::new(vec![
        op(OpCode::LVR, None, None, Some(c), None, false),
        op(OpCode::DSP, None, None, None, None, false),
    ]);
    env.define(&mut store, 1, MemData::Proc(body)).unwrap();

    let mut job = Job::new(env);
    let r = job.call(&mut store, &1).unwrap();
    assert!(r.eq(&MemData::Nil).unwrap());
    assert_eq!(job.output().as_str(), "hi");
}

#[test]
fn lambda_runs_under_its_capture() {
    let mut store = Store::new();
    let mut env = Environment::new(&mut store);

    // Capture an environment where id 5 is bound, then leave it.
    env.new_frame(&mut store);
    env.define(&mut store, 5, MemData::Int(99)).unwrap();
    let captured = env;
    env.pop_frame(&store).unwrap();

    let body = Procedure::new(vec![op(OpCode::LVR, Some(5), None, None, None, false)]);
    env.define(&mut store, 1, MemData::Lambda(body, captured))
        .unwrap();

    let mut job = Job::new(env);
    let r = job.call(&mut store, &1).unwrap();
    assert!(r.eq(&MemData::Int(99)).unwrap());
}
