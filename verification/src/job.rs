//! The interpreter: a job holds the current environment, the operand
//! stack, the recording counter and the output log, and drives a
//! small-step machine over a stack of activation tasks.
//!
//! The machine's behaviour is given by the total specification
//! function [`step`]; the executable driver performs exactly one
//! specified step at a time, so every run of [`Job::execute`] or
//! [`Job::call`] is witnessed by a chain of specification steps.

use vstd::prelude::*;

use crate::data::{
    arith_view, convert_view, gt_view, lt_view, res_view, struct_eq, tag_of, unwrapped, vals_view,
    val_view, wrapped, ConstID, IdentID, MemData, Op, OpCode, Procedure, Type, ValView,
};
use crate::err::{BinOp, Error, RuntimeError};
use crate::mem::{
    chain_max, defined, env_wf, lookup, nodes_ranked, popped_frame, pushed_frame, store_wf,
    val_wf, Environment, NodeView, Store, StoreView,
};

verus! {

use vstd::arithmetic::div_mod::{lemma_add_mod_noop, lemma_mod_bound, lemma_small_mod};

/// What a task does when its body completes.
#[derive(Clone, Copy, PartialEq, Eq, Structural, Debug)]
pub enum RetKind {
    /// An inline body (a branch, or the outermost body): completion
    /// just drops the task, after restoring any saved environment.
    Inline,
    /// A call body: completion restores the saved environment if any,
    /// pops the call's result off the operand stack, pops the frame
    /// the call opened, and leaves the result on the stack.
    Call,
}

/// One activation: a body being executed, the position reached in it,
/// the environment to restore at its end, and the completion kind.
#[derive(Debug)]
pub struct Task {
    pub insts: Procedure,
    pub pc: usize,
    pub saved_env: Option<Environment>,
    pub ret: RetKind,
}

/// The model of a task.
pub struct TaskView {
    pub insts: Seq<Op>,
    pub pc: usize,
    pub saved_env: Option<Environment>,
    pub ret: RetKind,
}

impl View for Task {
    type V = TaskView;

    open spec fn view(&self) -> TaskView {
        TaskView { insts: self.insts@, pc: self.pc, saved_env: self.saved_env, ret: self.ret }
    }
}

/// The model of a task stack.
pub open spec fn tasks_view(s: Seq<Task>) -> Seq<TaskView> {
    s.map_values(|t: Task| t@)
}

/// The model of the whole machine: memory, current environment,
/// operand stack, recording counter, output log, and the activation
/// stack.
pub struct MachView {
    pub store: StoreView,
    pub env: Environment,
    pub stack: Seq<ValView>,
    pub recording: usize,
    pub output: Seq<char>,
    pub tasks: Seq<TaskView>,
}

/// What one specification step yields.
pub enum Step {
    /// The machine took a step and keeps running.
    Next(MachView),
    /// The task stack is empty: execution has completed.
    Done(MachView),
    /// An instruction failed: every task has been unwound, each level
    /// wrapping the error, and the machine holds the cleaned-up state.
    Fail(MachView, RuntimeError),
}

/// Whether every value on a stack is well-formed.
pub open spec fn stack_wf(s: Seq<ValView>, nodes: Seq<NodeView>) -> bool {
    forall|i: int| 0 <= i < s.len() ==> val_wf(#[trigger] s[i], nodes)
}

/// Whether every saved environment on a task stack is well-formed.
pub open spec fn tasks_envs_wf(ts: Seq<TaskView>, nodes: Seq<NodeView>) -> bool {
    forall|i: int|
        0 <= i < ts.len() ==> (match #[trigger] ts[i].saved_env {
            Some(e) => env_wf(e, nodes),
            None => true,
        })
}

/// Whether every task's position is inside its body, with every task
/// below the top already past the instruction that spawned its child.
pub open spec fn tasks_pcs_wf(ts: Seq<TaskView>) -> bool {
    &&& forall|i: int| 0 <= i < ts.len() ==> #[trigger] ts[i].pc <= ts[i].insts.len()
    &&& forall|i: int| 0 <= i < ts.len() - 1 ==> #[trigger] ts[i].pc >= 1
}

/// Whether the machine state is well-formed: the store is, the
/// current environment and every environment reachable from the
/// operand stack or a saved slot denote real chains, and every task's
/// position is inside its body.
pub open spec fn mach_wf(m: MachView) -> bool {
    &&& store_wf(m.store)
    &&& env_wf(m.env, m.store.nodes)
    &&& stack_wf(m.stack, m.store.nodes)
    &&& tasks_envs_wf(m.tasks, m.store.nodes)
    &&& tasks_pcs_wf(m.tasks)
}

/// The error that a structurally malformed instruction surfaces: a
/// required field was absent, so dispatch found nothing where a value
/// was expected.
pub open spec fn malformed() -> Error {
    Error::TypeError(Type::Int, Type::Nil)
}

/// The quantifier of an instruction, with `d` for an absent one.
pub open spec fn n_or(inst: Op, d: usize) -> usize {
    match inst.n {
        Some(n) => n as usize,
        None => d,
    }
}

/// An error wrapped with the instruction that raised it.
pub open spec fn at_err(inst: Op, num: int, e: Error) -> RuntimeError {
    RuntimeError { instruction: Some(inst), instruction_num: Some(num as usize), error: e }
}

/// An error raised outside instruction dispatch.
pub open spec fn bare_err(e: Error) -> RuntimeError {
    RuntimeError { instruction: None, instruction_num: None, error: e }
}

/// Unwinds the whole task stack after a failure.  Each task restores
/// its saved environment; a call task releases the frame it opened,
/// as far as one exists; and each enclosing task wraps the error as
/// one of a sub-job, at the instruction that spawned the failing
/// body.
pub open spec fn spec_unwind(m: MachView, re: RuntimeError) -> (MachView, RuntimeError)
    decreases m.tasks.len(),
{
    if m.tasks.len() == 0 {
        (m, re)
    } else {
        let t = m.tasks.last();
        let env1 = match t.saved_env {
            Some(e) => e,
            None => m.env,
        };
        let env2 = if t.ret is Call && env1.len > 1 {
            Environment {
                head: env1.head,
                tail: m.store.nodes[env1.tail as int].parent->0,
                len: (env1.len - 1) as usize,
            }
        } else {
            env1
        };
        let m1 = MachView { env: env2, tasks: m.tasks.drop_last(), ..m };
        if m1.tasks.len() == 0 {
            (m1, re)
        } else {
            let p = m1.tasks.last();
            let inst = p.insts[p.pc - 1];
            let re2 = RuntimeError {
                instruction: Some(inst),
                instruction_num: Some((p.pc - 1) as usize),
                error: Error::RuntimeErrorInSubJob(Box::new(re)),
            };
            spec_unwind(m1, re2)
        }
    }
}

/// A failed step: the error, wrapped at the failing instruction, is
/// carried out through the whole task stack.
pub open spec fn fail_at(m: MachView, inst: Op, e: Error) -> Step {
    let t = m.tasks.last();
    let (m2, re) = spec_unwind(m, at_err(inst, t.pc - 1, e));
    Step::Fail(m2, re)
}

/// A failure outside dispatch (while finishing a call body).
pub open spec fn fail_bare(m: MachView, e: Error) -> Step {
    let (m2, re) = spec_unwind(m, bare_err(e));
    Step::Fail(m2, re)
}

/// The instruction sequence that a run of recorded values carries;
/// the first value that is not a reified instruction fails.
pub open spec fn insts_of(vals: Seq<ValView>) -> Result<Seq<Op>, Error>
    decreases vals.len(),
{
    if vals.len() == 0 {
        Ok(Seq::empty())
    } else {
        match vals.first() {
            ValView::Inst(op) => match insts_of(vals.drop_first()) {
                Ok(rest) => Ok(seq![op] + rest),
                Err(e) => Err(e),
            },
            v => Err(Error::TypeError(Type::Inst, tag_of(v))),
        }
    }
}

/// The reduce of a comparison opcode over consecutive pairs,
/// left-to-right with short-circuit: once a pair fails the relation,
/// later pairs are not examined.
pub open spec fn chain_rel(oc: OpCode, vals: Seq<ValView>) -> Result<bool, Error>
    decreases vals.len(),
{
    if vals.len() < 2 {
        Ok(true)
    } else {
        let first = match oc {
            OpCode::CGT => gt_view(vals[0], vals[1]),
            OpCode::CLT => lt_view(vals[0], vals[1]),
            _ => Ok(struct_eq(vals[0], vals[1])),
        };
        match first {
            Err(e) => Err(e),
            Ok(false) => Ok(false),
            Ok(true) => chain_rel(oc, vals.drop_first()),
        }
    }
}

/// Conversion of a run of values, pushing each result in the original
/// order; the first failure keeps what was already pushed.
pub open spec fn convert_all(stack: Seq<ValView>, vals: Seq<ValView>, t: Type) -> (
    Seq<ValView>,
    Option<Error>,
)
    decreases vals.len(),
{
    if vals.len() == 0 {
        (stack, None)
    } else {
        match convert_view(vals.first(), t) {
            Ok(v) => convert_all(stack.push(v), vals.drop_first(), t),
            Err(e) => (stack, Some(e)),
        }
    }
}

/// The concatenation of a run of values, each of which must
/// dereference to a string, in the given order.
pub open spec fn concat_strs(vals: Seq<ValView>) -> Result<Seq<char>, Error>
    decreases vals.len(),
{
    if vals.len() == 0 {
        Ok(Seq::empty())
    } else {
        match unwrapped(vals.first()) {
            ValView::Str(s) => match concat_strs(vals.drop_first()) {
                Ok(rest) => Ok(s + rest),
                Err(e) => Err(e),
            },
            v => Err(Error::TypeError(Type::Str, tag_of(v))),
        }
    }
}

/// The respective components of a run of values, each of which must
/// be a pair (without dereferencing); all or nothing.
pub open spec fn components(vals: Seq<ValView>, car: bool) -> Result<Seq<ValView>, Error>
    decreases vals.len(),
{
    if vals.len() == 0 {
        Ok(Seq::empty())
    } else {
        match vals.first() {
            ValView::Pair(a, b) => match components(vals.drop_first(), car) {
                Ok(rest) => Ok(seq![if car {
                    *a
                } else {
                    *b
                }] + rest),
                Err(e) => Err(e),
            },
            v => Err(Error::TypeError(Type::Pair, tag_of(v))),
        }
    }
}

/// A left fold of one arithmetic operation over a run of values.
pub open spec fn fold_arith(op: BinOp, acc: ValView, rest: Seq<ValView>) -> Result<ValView, Error>
    decreases rest.len(),
{
    if rest.len() == 0 {
        Ok(acc)
    } else {
        match arith_view(op, acc, rest.first()) {
            Ok(v) => fold_arith(op, v, rest.drop_first()),
            Err(e) => Err(e),
        }
    }
}

/// The mathematical sum of a run of integer values.
pub open spec fn int_sum(vals: Seq<ValView>) -> int
    decreases vals.len(),
{
    if vals.len() == 0 {
        0
    } else {
        (match vals.first() {
            ValView::Int(k) => k as int,
            _ => 0,
        }) + int_sum(vals.drop_first())
    }
}

/// A run of plain integer values.
pub open spec fn all_ints(vals: Seq<ValView>) -> bool {
    forall|i: int| 0 <= i < vals.len() ==> #[trigger] vals[i] is Int
}

proof fn lemma_fold_sum_from(s: int, rest: Seq<ValView>)
    requires
        s >= 0,
        all_ints(rest),
    ensures
        fold_arith(BinOp::Sum, ValView::Int(crate::data::wrap32(s)), rest) == Ok::<
            ValView,
            Error,
        >(ValView::Int(crate::data::wrap32(s + int_sum(rest)))),
    decreases rest.len(),
{
    if rest.len() == 0 {
    } else {
        assert(rest[0] is Int);
        let k = rest.first()->Int_0;
        let m: int = 0x1_0000_0000;
        lemma_mod_bound(s, m);
        lemma_small_mod(k as nat, m as nat);
        lemma_add_mod_noop(s, k as int, m);
        assert((s % m + k as int % m) % m == (s + k) % m);
        assert(crate::data::wrap32(crate::data::wrap32(s) as int + k) == crate::data::wrap32(
            s + k,
        ));
        assert forall|i: int| 0 <= i < rest.drop_first().len() implies #[trigger] rest.drop_first()[i] is Int by {
            assert(rest.drop_first()[i] == rest[i + 1]);
        }
        lemma_fold_sum_from(s + k, rest.drop_first());
    }
}

/// Law: folding addition over any positive number of plain integer
/// values yields their sum modulo `2^32`.
pub proof fn lemma_add_fold_sums(vals: Seq<ValView>)
    requires
        vals.len() >= 1,
        all_ints(vals),
    ensures
        fold_arith(BinOp::Sum, vals.first(), vals.drop_first()) == Ok::<ValView, Error>(
            ValView::Int(crate::data::wrap32(int_sum(vals))),
        ),
{
    assert(vals[0] is Int);
    let k0 = vals.first()->Int_0;
    lemma_small_mod(k0 as nat, 0x1_0000_0000nat);
    assert(vals.first() == ValView::Int(crate::data::wrap32(k0 as int)));
    assert forall|i: int| 0 <= i < vals.drop_first().len() implies #[trigger] vals.drop_first()[i] is Int by {
        assert(vals.drop_first()[i] == vals[i + 1]);
    }
    lemma_fold_sum_from(k0 as int, vals.drop_first());
}

/// The arithmetic operation an opcode denotes.
pub open spec fn arith_of(oc: OpCode) -> BinOp {
    match oc {
        OpCode::ADD => BinOp::Sum,
        OpCode::SUB => BinOp::Subtraction,
        OpCode::MUL => BinOp::Multiplication,
        _ => BinOp::Division,
    }
}

/// A machine with a fresh inline task for a branch body pushed.
pub open spec fn spawn_inline(m: MachView, body: Seq<Op>) -> MachView {
    MachView {
        tasks: m.tasks.push(TaskView { insts: body, pc: 0, saved_env: None, ret: RetKind::Inline }),
        ..m
    }
}

/// What dispatching one instruction yields.  The machine `m` already
/// has the top task's position advanced past `inst`.
pub open spec fn dispatch(m: MachView, inst: Op) -> Step {
    match inst.opcode {
        OpCode::PSS => {
            let (e2, nodes2) = pushed_frame(m.env, m.store.nodes);
            Step::Next(
                MachView { env: e2, store: StoreView { nodes: nodes2, ..m.store }, ..m },
            )
        },
        OpCode::PPS => match popped_frame(m.env, m.store.nodes) {
            Ok(e2) => Step::Next(MachView { env: e2, ..m }),
            Err(e) => fail_at(m, inst, e),
        },
        OpCode::REC => Step::Next(MachView { recording: n_or(inst, 1), ..m }),
        OpCode::LMB => make_proc(m, inst, true),
        OpCode::PRC => make_proc(m, inst, false),
        OpCode::DVR => op_dvr(m, inst),
        OpCode::LVR => op_lvr(m, inst),
        OpCode::IFT => op_if(m, inst, false),
        OpCode::IFE => op_if(m, inst, true),
        OpCode::CGT => op_chain_rel(m, inst),
        OpCode::CLT => op_chain_rel(m, inst),
        OpCode::CEQ => op_chain_rel(m, inst),
        // CNT is reserved in the opcode set with no behaviour
        // defined yet; it is a no-op.
        OpCode::CNT => Step::Next(m),
        OpCode::CLL => op_cll(m, inst),
        OpCode::CNV => op_cnv(m, inst),
        OpCode::CAT => op_cat(m, inst),
        OpCode::CNS => op_cns(m, inst),
        OpCode::CAR => op_components(m, inst, true),
        OpCode::CDR => op_components(m, inst, false),
        OpCode::ADD => op_arith(m, inst),
        OpCode::SUB => op_arith(m, inst),
        OpCode::MUL => op_arith(m, inst),
        OpCode::DIV => op_arith(m, inst),
        OpCode::DSP => op_dsp(m, inst),
    }
}

/// `LMB` / `PRC`: pop `n` recorded instructions and push the
/// assembled procedure value, capturing the current environment for a
/// lambda.
pub open spec fn make_proc(m: MachView, inst: Op, lambda: bool) -> Step {
    match inst.n {
        None => fail_at(m, inst, malformed()),
        Some(n0) => {
            let n = n0 as int;
            if m.stack.len() < n {
                fail_at(m, inst, Error::IllegalRegisterPop)
            } else {
                let kept = m.stack.take(m.stack.len() - n);
                let popped = m.stack.skip(m.stack.len() - n);
                match insts_of(popped) {
                    Err(e) => fail_at(MachView { stack: kept, ..m }, inst, e),
                    Ok(ops) => {
                        let v = if lambda {
                            ValView::Lambda(ops, m.env)
                        } else {
                            ValView::Proc(ops)
                        };
                        Step::Next(MachView { stack: kept.push(v), ..m })
                    },
                }
            }
        },
    }
}

/// `DVR`: bind an id in the tail frame, to the named constant or to
/// the popped value; unless muted, push the fresh binding back,
/// shared behind a pointer.
pub open spec fn op_dvr(m: MachView, inst: Op) -> Step {
    match inst.ident {
        None => fail_at(m, inst, malformed()),
        Some(id) => {
            let got: Result<(Seq<ValView>, ValView), Error> = match inst.val {
                Some(cid) => if cid < m.store.consts.len() {
                    Ok((m.stack, wrapped(m.store.consts[cid as int])))
                } else {
                    Err(Error::ConstantNotFound(cid))
                },
                None => if m.stack.len() == 0 {
                    Err(Error::IllegalRegisterPop)
                } else {
                    Ok((m.stack.drop_last(), m.stack.last()))
                },
            };
            match got {
                Err(e) => fail_at(m, inst, e),
                Ok((stack1, v)) => {
                    let nodes2 = defined(m.store.nodes, m.env.tail as int, id, v);
                    let stack2 = if inst.mute {
                        stack1
                    } else {
                        stack1.push(wrapped(v))
                    };
                    Step::Next(
                        MachView {
                            stack: stack2,
                            store: StoreView { nodes: nodes2, ..m.store },
                            ..m
                        },
                    )
                },
            }
        },
    }
}

/// `LVR`: push the named constant, or the binding of the named id,
/// shared behind a pointer.
pub open spec fn op_lvr(m: MachView, inst: Op) -> Step {
    match inst.val {
        Some(cid) => if cid < m.store.consts.len() {
            Step::Next(MachView { stack: m.stack.push(wrapped(m.store.consts[cid as int])), ..m })
        } else {
            fail_at(m, inst, Error::ConstantNotFound(cid))
        },
        None => match inst.ident {
            None => fail_at(m, inst, malformed()),
            Some(id) => match lookup(m.store.nodes, m.env.tail as int, id) {
                Some(v) => Step::Next(MachView { stack: m.stack.push(wrapped(v)), ..m }),
                None => fail_at(m, inst, Error::VariableNotFound(0, id)),
            },
        },
    }
}

/// `IFT` / `IFE`: pop the condition, then (for `IFE`) the else
/// branch, then the then branch — each branch must dereference to a
/// plain procedure — and run the chosen branch in place, without a
/// fresh frame.
pub open spec fn op_if(m: MachView, inst: Op, has_else: bool) -> Step {
    if m.stack.len() == 0 {
        fail_at(m, inst, Error::IllegalRegisterPop)
    } else {
        let cond = m.stack.last();
        let s1 = m.stack.drop_last();
        let else_got: Result<(Seq<ValView>, Option<Seq<Op>>), Error> = if has_else {
            if s1.len() == 0 {
                Err(Error::IllegalRegisterPop)
            } else {
                match unwrapped(s1.last()) {
                    ValView::Proc(p) => Ok((s1.drop_last(), Some(p))),
                    v => Err(Error::TypeError(Type::Proc, tag_of(v))),
                }
            }
        } else {
            Ok((s1, None))
        };
        match else_got {
            Err(e) => fail_at(
                MachView { stack: if s1.len() == 0 {
                    s1
                } else {
                    s1.drop_last()
                }, ..m },
                inst,
                e,
            ),
            Ok((s2, else_p)) => {
                if s2.len() == 0 {
                    fail_at(MachView { stack: s2, ..m }, inst, Error::IllegalRegisterPop)
                } else {
                    let tv = s2.last();
                    let s3 = s2.drop_last();
                    match unwrapped(tv) {
                        ValView::Proc(then_p) => {
                            let m1 = MachView { stack: s3, ..m };
                            if unwrapped(cond) != ValView::Bool(false) {
                                Step::Next(spawn_inline(m1, then_p))
                            } else {
                                match else_p {
                                    Some(ep) => Step::Next(spawn_inline(m1, ep)),
                                    None => Step::Next(m1),
                                }
                            }
                        },
                        v => fail_at(
                            MachView { stack: s3, ..m },
                            inst,
                            Error::TypeError(Type::Proc, tag_of(v)),
                        ),
                    }
                }
            },
        }
    }
}

/// `CGT` / `CLT` / `CEQ`: pop `n` values and push whether every pair
/// of consecutive values satisfies the relation.
pub open spec fn op_chain_rel(m: MachView, inst: Op) -> Step {
    match inst.n {
        None => fail_at(m, inst, malformed()),
        Some(n0) => {
            let n = n0 as int;
            if m.stack.len() < n {
                fail_at(m, inst, Error::IllegalRegisterPop)
            } else {
                let kept = m.stack.take(m.stack.len() - n);
                let popped = m.stack.skip(m.stack.len() - n);
                match chain_rel(inst.opcode, popped) {
                    Err(e) => fail_at(MachView { stack: kept, ..m }, inst, e),
                    Ok(b) => Step::Next(MachView { stack: kept.push(ValView::Bool(b)), ..m }),
                }
            }
        },
    }
}

/// `CLL`: with an id, call its binding — a lambda swaps its captured
/// environment in — and otherwise assemble a body from `n` recorded
/// instructions; either way a fresh frame wraps the body, and its
/// completion pops one result.
pub open spec fn op_cll(m: MachView, inst: Op) -> Step {
    match inst.ident {
        Some(id) => match lookup(m.store.nodes, m.env.tail as int, id) {
            None => fail_at(
                m,
                inst,
                Error::RuntimeErrorInSubJob(Box::new(bare_err(Error::VariableNotFound(0, id)))),
            ),
            Some(v) => match unwrapped(v) {
                ValView::Proc(p) => {
                    let (e2, nodes2) = pushed_frame(m.env, m.store.nodes);
                    Step::Next(
                        MachView {
                            env: e2,
                            store: StoreView { nodes: nodes2, ..m.store },
                            tasks: m.tasks.push(
                                TaskView { insts: p, pc: 0, saved_env: None, ret: RetKind::Call },
                            ),
                            ..m
                        },
                    )
                },
                ValView::Lambda(p, cap) => {
                    let (e2, nodes2) = pushed_frame(m.env, m.store.nodes);
                    Step::Next(
                        MachView {
                            env: cap,
                            store: StoreView { nodes: nodes2, ..m.store },
                            tasks: m.tasks.push(
                                TaskView {
                                    insts: p,
                                    pc: 0,
                                    saved_env: Some(e2),
                                    ret: RetKind::Call,
                                },
                            ),
                            ..m
                        },
                    )
                },
                w => fail_at(
                    m,
                    inst,
                    Error::RuntimeErrorInSubJob(
                        Box::new(bare_err(Error::TypeError(Type::Proc, tag_of(w)))),
                    ),
                ),
            },
        },
        None => match inst.n {
            None => fail_at(m, inst, malformed()),
            Some(n0) => {
                let n = n0 as int;
                if m.stack.len() < n {
                    fail_at(m, inst, Error::IllegalRegisterPop)
                } else {
                    let kept = m.stack.take(m.stack.len() - n);
                    let popped = m.stack.skip(m.stack.len() - n);
                    match insts_of(popped) {
                        Err(e) => fail_at(MachView { stack: kept, ..m }, inst, e),
                        Ok(ops) => {
                            let (e2, nodes2) = pushed_frame(m.env, m.store.nodes);
                            Step::Next(
                                MachView {
                                    env: e2,
                                    store: StoreView { nodes: nodes2, ..m.store },
                                    stack: kept,
                                    tasks: m.tasks.push(
                                        TaskView {
                                            insts: ops,
                                            pc: 0,
                                            saved_env: None,
                                            ret: RetKind::Call,
                                        },
                                    ),
                                    ..m
                                },
                            )
                        },
                    }
                }
            },
        },
    }
}

/// `CNV`: convert the named binding, or the top `n` values, to the
/// target type, pushing the results in the original order.
pub open spec fn op_cnv(m: MachView, inst: Op) -> Step {
    match inst.typ {
        None => fail_at(m, inst, malformed()),
        Some(t) => {
            let got: Result<(Seq<ValView>, Seq<ValView>), Error> = match inst.ident {
                Some(id) => match lookup(m.store.nodes, m.env.tail as int, id) {
                    Some(v) => Ok((m.stack, seq![wrapped(v)])),
                    None => Err(Error::VariableNotFound(0, id)),
                },
                None => match inst.n {
                    None => Err(malformed()),
                    Some(n0) => if m.stack.len() < n0 as int {
                        Err(Error::IllegalRegisterPop)
                    } else {
                        Ok(
                            (
                                m.stack.take(m.stack.len() - n0 as int),
                                m.stack.skip(m.stack.len() - n0 as int),
                            ),
                        )
                    },
                },
            };
            match got {
                Err(e) => fail_at(m, inst, e),
                Ok((kept, vals)) => {
                    let (stack2, err) = convert_all(kept, vals, t);
                    match err {
                        None => Step::Next(MachView { stack: stack2, ..m }),
                        Some(e) => fail_at(MachView { stack: stack2, ..m }, inst, e),
                    }
                },
            }
        },
    }
}

/// `CAT`: pop `n` values, each of which must dereference to a
/// string, and push their concatenation in popped order.
pub open spec fn op_cat(m: MachView, inst: Op) -> Step {
    match inst.n {
        None => fail_at(m, inst, malformed()),
        Some(n0) => {
            let n = n0 as int;
            if m.stack.len() < n {
                fail_at(m, inst, Error::IllegalRegisterPop)
            } else {
                let kept = m.stack.take(m.stack.len() - n);
                let popped = m.stack.skip(m.stack.len() - n);
                match concat_strs(popped) {
                    Err(e) => fail_at(MachView { stack: kept, ..m }, inst, e),
                    Ok(s) => Step::Next(MachView { stack: kept.push(ValView::Str(s)), ..m }),
                }
            }
        },
    }
}

/// `CNS`: pop two values and push the pair of them — the lower is
/// the car, the top the cdr.
pub open spec fn op_cns(m: MachView, inst: Op) -> Step {
    if m.stack.len() < 2 {
        fail_at(m, inst, Error::IllegalRegisterPop)
    } else {
        let car = m.stack[m.stack.len() - 2];
        let cdr = m.stack.last();
        Step::Next(
            MachView {
                stack: m.stack.take(m.stack.len() - 2).push(
                    ValView::Pair(Box::new(car), Box::new(cdr)),
                ),
                ..m
            },
        )
    }
}

/// `CAR` / `CDR`: take the named binding (dereferenced) or the top
/// `n` values (one by default, not dereferenced), each of which must
/// be a pair, and push the respective components in order.
pub open spec fn op_components(m: MachView, inst: Op, car: bool) -> Step {
    let got: Result<(Seq<ValView>, Seq<ValView>), Error> = match inst.ident {
        Some(id) => match lookup(m.store.nodes, m.env.tail as int, id) {
            Some(v) => Ok((m.stack, seq![unwrapped(v)])),
            None => Err(Error::VariableNotFound(0, id)),
        },
        None => {
            let n = n_or(inst, 1) as int;
            if m.stack.len() < n {
                Err(Error::IllegalRegisterPop)
            } else {
                Ok((m.stack.take(m.stack.len() - n), m.stack.skip(m.stack.len() - n)))
            }
        },
    };
    match got {
        Err(e) => fail_at(m, inst, e),
        Ok((kept, vals)) => match components(vals, car) {
            Err(e) => fail_at(MachView { stack: kept, ..m }, inst, e),
            Ok(rs) => Step::Next(MachView { stack: kept + rs, ..m }),
        },
    }
}

/// `ADD` / `SUB` / `MUL` / `DIV`: fold the operation left over the
/// named binding and the popped top, or over the top `n` values (one
/// by default); an empty run yields `Nil`.
pub open spec fn op_arith(m: MachView, inst: Op) -> Step {
    let got: Result<(Seq<ValView>, Seq<ValView>), Error> = match inst.ident {
        Some(id) => match lookup(m.store.nodes, m.env.tail as int, id) {
            Some(v) => if m.stack.len() == 0 {
                Err(Error::IllegalRegisterPop)
            } else {
                Ok((m.stack.drop_last(), seq![wrapped(v), m.stack.last()]))
            },
            None => Err(Error::VariableNotFound(0, id)),
        },
        None => {
            let n = n_or(inst, 1) as int;
            if m.stack.len() < n {
                Err(Error::IllegalRegisterPop)
            } else {
                Ok((m.stack.take(m.stack.len() - n), m.stack.skip(m.stack.len() - n)))
            }
        },
    };
    match got {
        Err(e) => fail_at(m, inst, e),
        Ok((kept, vals)) => {
            if vals.len() == 0 {
                Step::Next(MachView { stack: kept.push(ValView::Nil), ..m })
            } else {
                match fold_arith(arith_of(inst.opcode), vals.first(), vals.drop_first()) {
                    Err(e) => fail_at(MachView { stack: kept, ..m }, inst, e),
                    Ok(v) => Step::Next(MachView { stack: kept.push(v), ..m }),
                }
            }
        },
    }
}

/// `DSP`: pop the top value, which must dereference to a string, and
/// append it verbatim to the output log; unless muted, push `Nil`.
pub open spec fn op_dsp(m: MachView, inst: Op) -> Step {
    if m.stack.len() == 0 {
        fail_at(m, inst, Error::IllegalRegisterPop)
    } else {
        let v = m.stack.last();
        let s1 = m.stack.drop_last();
        match unwrapped(v) {
            ValView::Str(s) => {
                let stack2 = if inst.mute {
                    s1
                } else {
                    s1.push(ValView::Nil)
                };
                Step::Next(MachView { stack: stack2, output: m.output + s, ..m })
            },
            w => fail_at(
                MachView { stack: s1, ..m },
                inst,
                Error::TypeError(Type::Str, tag_of(w)),
            ),
        }
    }
}

/// Completion of the top task, whose body has run to its end.
pub open spec fn complete_task(m: MachView) -> Step {
    let t = m.tasks.last();
    let menv = match t.saved_env {
        Some(e) => MachView { env: e, ..m },
        None => m,
    };
    match t.ret {
        RetKind::Inline => Step::Next(MachView { tasks: menv.tasks.drop_last(), ..menv }),
        RetKind::Call => {
            if menv.stack.len() == 0 {
                fail_bare(menv, Error::IllegalRegisterPop)
            } else {
                let v = menv.stack.last();
                let s1 = menv.stack.drop_last();
                if menv.env.len == 1 {
                    fail_bare(MachView { stack: s1, ..menv }, Error::IllegalStackPop)
                } else {
                    let e2 = Environment {
                        head: menv.env.head,
                        tail: menv.store.nodes[menv.env.tail as int].parent->0,
                        len: (menv.env.len - 1) as usize,
                    };
                    Step::Next(
                        MachView {
                            env: e2,
                            stack: s1.push(v),
                            tasks: menv.tasks.drop_last(),
                            ..menv
                        },
                    )
                }
            }
        },
    }
}

/// One step of the machine: completion of an ended body, recording of
/// the fetched instruction, or its dispatch.
pub open spec fn step(m: MachView) -> Step {
    if m.tasks.len() == 0 {
        Step::Done(m)
    } else {
        let t = m.tasks.last();
        if t.pc >= t.insts.len() {
            complete_task(m)
        } else {
            let inst = t.insts[t.pc as int];
            let m1 = MachView {
                tasks: m.tasks.update(
                    m.tasks.len() - 1,
                    TaskView { pc: (t.pc + 1) as usize, ..t },
                ),
                ..m
            };
            if m.recording > 0 {
                Step::Next(
                    MachView {
                        recording: (m1.recording - 1) as usize,
                        stack: m1.stack.push(ValView::Inst(inst)),
                        ..m1
                    },
                )
            } else {
                dispatch(m1, inst)
            }
        }
    }
}

/// What one executed machine step reported.
#[derive(Debug)]
pub enum Outcome {
    /// A step was taken; the machine keeps running.
    Running,
    /// The task stack was empty; execution has completed.
    Finished,
    /// An instruction failed; the fully wrapped error is carried out.
    Failed(RuntimeError),
}

/// A job: the per-run state of the interpreter.
#[derive(Debug)]
pub struct Job {
    env: Environment,
    reg_stack: Vec<MemData>,
    recording: usize,
    output: String,
}

/// The model of a job.
pub struct JobView {
    pub env: Environment,
    pub stack: Seq<ValView>,
    pub recording: usize,
    pub output: Seq<char>,
}

impl View for Job {
    type V = JobView;

    closed spec fn view(&self) -> JobView {
        JobView {
            env: self.env,
            stack: vals_view(self.reg_stack@),
            recording: self.recording,
            output: self.output@,
        }
    }
}

/// The machine that a job, a store and a task stack make up.
pub open spec fn mach_of(j: JobView, s: StoreView, tasks: Seq<TaskView>) -> MachView {
    MachView {
        store: s,
        env: j.env,
        stack: j.stack,
        recording: j.recording,
        output: j.output,
        tasks,
    }
}

/// Values that were well-formed stay so when the arena grows without
/// relinking.
pub proof fn lemma_stack_wf_extend(s: Seq<ValView>, a: Seq<NodeView>, b: Seq<NodeView>)
    requires
        crate::mem::nodes_extend(a, b),
        stack_wf(s, a),
    ensures
        stack_wf(s, b),
{
    assert forall|i: int| 0 <= i < s.len() implies val_wf(#[trigger] s[i], b) by {
        crate::mem::lemma_val_wf_extend(s[i], a, b);
    }
}

/// Saved environments stay well-formed when the arena grows without
/// relinking.
proof fn lemma_tasks_wf_extend(ts: Seq<TaskView>, a: Seq<NodeView>, b: Seq<NodeView>)
    requires
        crate::mem::nodes_extend(a, b),
        tasks_envs_wf(ts, a),
    ensures
        tasks_envs_wf(ts, b),
{
    assert forall|i: int| 0 <= i < ts.len() implies (match #[trigger] ts[i].saved_env {
        Some(e) => env_wf(e, b),
        None => true,
    }) by {
        match ts[i].saved_env {
            Some(e) => {
                crate::mem::lemma_env_wf_extend(e, a, b);
            },
            None => {},
        }
    }
}

/// A machine stays well-formed when its store changes to one whose
/// arena extends the old one without relinking, provided the new
/// store is itself well-formed.
proof fn lemma_mach_wf_grow(m: MachView, s2: StoreView)
    requires
        mach_wf(m),
        crate::mem::nodes_extend(m.store.nodes, s2.nodes),
        store_wf(s2),
    ensures
        mach_wf(MachView { store: s2, ..m }),
{
    crate::mem::lemma_env_wf_extend(m.env, m.store.nodes, s2.nodes);
    lemma_stack_wf_extend(m.stack, m.store.nodes, s2.nodes);
    lemma_tasks_wf_extend(m.tasks, m.store.nodes, s2.nodes);
}

/// A well-formed stack keeps well-formed values under take and skip.
proof fn lemma_stack_wf_parts(s: Seq<ValView>, nodes: Seq<NodeView>, at: int)
    requires
        stack_wf(s, nodes),
        0 <= at <= s.len(),
    ensures
        stack_wf(s.take(at), nodes),
        stack_wf(s.skip(at), nodes),
{
    assert forall|i: int| 0 <= i < at implies val_wf(#[trigger] s.take(at)[i], nodes) by {
        assert(s.take(at)[i] == s[i]);
    }
    assert forall|i: int| 0 <= i < s.len() - at implies val_wf(
        #[trigger] s.skip(at)[i],
        nodes,
    ) by {
        assert(s.skip(at)[i] == s[i + at]);
    }
}

/// Pops the top `n` values off the operand stack, keeping their
/// stack order (deepest first).
fn pop_n(stack: &mut Vec<MemData>, n: usize) -> (r: Result<Vec<MemData>, Error>)
    ensures
        match r {
            Ok(vals) => {
                &&& old(stack)@.len() >= n
                &&& final(stack)@ == old(stack)@.take(old(stack)@.len() - n)
                &&& vals_view(vals@) == vals_view(old(stack)@).skip(
                    old(stack)@.len() - n,
                )
                &&& vals@.len() == n
            },
            Err(e) => {
                &&& e == Error::IllegalRegisterPop
                &&& old(stack)@.len() < n
                &&& final(stack)@ == old(stack)@
            },
        },
{
    if stack.len() < n {
        return Err(Error::IllegalRegisterPop);
    }
    let at = stack.len() - n;
    let r = stack.split_off(at);
    proof {
        assert(vals_view(r@) =~= vals_view(old(stack)@).skip(old(stack)@.len() - n));
    }
    Ok(r)
}

/// How one store may evolve during execution: the arena only grows,
/// with no parent link moved, and the constants pool and the string
/// table stay exactly as they were — those are written only while a
/// unit loads.
pub open spec fn store_extends(a: StoreView, b: StoreView) -> bool {
    &&& crate::mem::nodes_extend(a.nodes, b.nodes)
    &&& b.consts == a.consts
    &&& b.var_strings == a.var_strings
}

/// What the ensures of a dispatch executor states: the executed
/// outcome is exactly what [`dispatch`] specifies, and the machine
/// stays well-formed; a failure leaves the task stack drained.
pub open spec fn outcome_matches(pre: MachView, post: MachView, inst: Op, r: Outcome) -> bool {
    match r {
        Outcome::Running => {
            &&& dispatch(pre, inst) == Step::Next(post)
            &&& mach_wf(post)
            &&& store_extends(pre.store, post.store)
        },
        Outcome::Failed(re) => {
            &&& dispatch(pre, inst) == Step::Fail(post, re)
            &&& mach_wf(post)
            &&& post.tasks.len() == 0
            &&& post.store == pre.store
        },
        Outcome::Finished => false,
    }
}

/// The requires every dispatch executor shares: a well-formed
/// machine whose top task has already advanced past the fetched
/// instruction.
pub open spec fn dispatch_pre(m: MachView) -> bool {
    &&& mach_wf(m)
    &&& m.tasks.len() >= 1
    &&& m.tasks.last().pc >= 1
}

/// The value behind a chain of pointers is as well-formed as the
/// chain.
proof fn lemma_val_wf_unwrapped(v: ValView, nodes: Seq<NodeView>)
    requires
        val_wf(v, nodes),
    ensures
        val_wf(unwrapped(v), nodes),
    decreases v,
{
    match v {
        ValView::Pointer(p) => {
            lemma_val_wf_unwrapped(*p, nodes);
        },
        _ => {},
    }
}

/// Conversion only ever pushes strings, so it keeps a stack
/// well-formed.
proof fn lemma_convert_all_wf(
    stack: Seq<ValView>,
    vals: Seq<ValView>,
    t: Type,
    nodes: Seq<NodeView>,
)
    requires
        stack_wf(stack, nodes),
    ensures
        stack_wf(convert_all(stack, vals, t).0, nodes),
    decreases vals.len(),
{
    if vals.len() > 0 {
        match convert_view(vals.first(), t) {
            Ok(v) => {
                assert forall|i: int| 0 <= i < stack.push(v).len() implies val_wf(
                    #[trigger] stack.push(v)[i],
                    nodes,
                ) by {
                    if i < stack.len() {
                        assert(stack.push(v)[i] == stack[i]);
                    }
                }
                lemma_convert_all_wf(stack.push(v), vals.drop_first(), t, nodes);
            },
            Err(_) => {},
        }
    }
}

/// The components of well-formed pairs are well-formed.
proof fn lemma_components_wf(vals: Seq<ValView>, car: bool, nodes: Seq<NodeView>)
    requires
        stack_wf(vals, nodes),
        components(vals, car) is Ok,
    ensures
        stack_wf(components(vals, car)->Ok_0, nodes),
    decreases vals.len(),
{
    if vals.len() > 0 {
        assert(val_wf(vals[0], nodes));
        assert forall|i: int| 0 <= i < vals.drop_first().len() implies val_wf(
            #[trigger] vals.drop_first()[i],
            nodes,
        ) by {
            assert(vals.drop_first()[i] == vals[i + 1]);
        }
        lemma_components_wf(vals.drop_first(), car, nodes);
        let rs = components(vals, car)->Ok_0;
        let rest = components(vals.drop_first(), car)->Ok_0;
        assert forall|i: int| 0 <= i < rs.len() implies val_wf(#[trigger] rs[i], nodes) by {
            if i >= 1 {
                assert(rs[i] == rest[i - 1]);
            }
        }
    }
}

/// An arithmetic fold yields its start value or an integer, so the
/// result is well-formed when the start is.
proof fn lemma_fold_arith_wf(op: BinOp, acc: ValView, rest: Seq<ValView>, nodes: Seq<NodeView>)
    requires
        val_wf(acc, nodes),
        fold_arith(op, acc, rest) is Ok,
    ensures
        val_wf(fold_arith(op, acc, rest)->Ok_0, nodes),
    decreases rest.len(),
{
    if rest.len() > 0 {
        match arith_view(op, acc, rest.first()) {
            Ok(v) => {
                lemma_fold_arith_wf(op, v, rest.drop_first(), nodes);
            },
            Err(_) => {},
        }
    }
}

/// Collects a run of recorded values into an instruction list;
/// mirrors [`insts_of`].
fn collect_insts(vals: &Vec<MemData>) -> (r: Result<Vec<Op>, Error>)
    ensures
        match r {
            Ok(ops) => insts_of(vals_view(vals@)) == Ok::<Seq<Op>, Error>(ops@),
            Err(e) => insts_of(vals_view(vals@)) == Err::<Seq<Op>, Error>(e),
        },
{
    let ghost whole = vals_view(vals@);
    let mut ops: Vec<Op> = Vec::new();
    let mut i: usize = 0;
    proof {
        assert(whole.skip(0) =~= whole);
    }
    while i < vals.len()
        invariant
            i <= vals@.len(),
            whole == vals_view(vals@),
            whole.len() == vals@.len(),
            ops@.len() == i,
            insts_of(whole) == (match insts_of(whole.skip(i as int)) {
                Ok(rest) => Ok::<Seq<Op>, Error>(ops@ + rest),
                Err(e) => Err::<Seq<Op>, Error>(e),
            }),
        decreases vals@.len() - i,
    {
        proof {
            assert(whole.skip(i as int).first() == whole[i as int]);
            assert(whole.skip(i as int).drop_first() =~= whole.skip(i + 1));
        }
        match &vals[i] {
            MemData::Inst(op) => {
                let ghost ops_before = ops@;
                ops.push(*op);
                proof {
                    assert(whole[i as int] == ValView::Inst(*op));
                    match insts_of(whole.skip(i + 1)) {
                        Ok(rest) => {
                            assert(ops@ + rest =~= ops_before + (seq![*op] + rest));
                        },
                        Err(_) => {},
                    }
                }
            },
            v => {
                return Err(v.wrong_type(Type::Inst));
            },
        }
        i = i + 1;
    }
    proof {
        assert(whole.skip(whole.len() as int) =~= Seq::<ValView>::empty());
        assert(ops@ + Seq::<Op>::empty() =~= ops@);
    }
    Ok(ops)
}

/// The reduce of a comparison opcode over consecutive values;
/// mirrors [`chain_rel`].
fn chain_rel_exec(oc: OpCode, vals: &Vec<MemData>) -> (r: Result<bool, Error>)
    ensures
        r == chain_rel(oc, vals_view(vals@)),
{
    let ghost whole = vals_view(vals@);
    if vals.len() < 2 {
        return Ok(true);
    }
    let mut i: usize = 0;
    proof {
        assert(whole.skip(0) =~= whole);
    }
    while i < vals.len() - 1
        invariant
            vals@.len() >= 2,
            i <= vals@.len() - 1,
            whole == vals_view(vals@),
            whole.len() == vals@.len(),
            chain_rel(oc, whole) == chain_rel(oc, whole.skip(i as int)),
        decreases vals@.len() - i,
    {
        proof {
            assert(whole.skip(i as int)[0] == whole[i as int]);
            assert(whole.skip(i as int)[1] == whole[i + 1]);
            assert(whole.skip(i as int).drop_first() =~= whole.skip(i + 1));
        }
        let pair = match oc {
            OpCode::CGT => vals[i].gt(&vals[i + 1]),
            OpCode::CLT => vals[i].lt(&vals[i + 1]),
            _ => Ok(vals[i].struct_equal(&vals[i + 1])),
        };
        match pair {
            Err(e) => {
                return Err(e);
            },
            Ok(false) => {
                return Ok(false);
            },
            Ok(true) => {},
        }
        i = i + 1;
    }
    Ok(true)
}

/// Converts a run of values, pushing each result in order; mirrors
/// [`convert_all`].
fn convert_push(stack: &mut Vec<MemData>, vals: &Vec<MemData>, t: &Type) -> (r: Option<Error>)
    ensures
        ({
            let (s2, err) = convert_all(vals_view(old(stack)@), vals_view(vals@), *t);
            &&& vals_view(final(stack)@) == s2
            &&& r == err
        }),
{
    let ghost whole = vals_view(vals@);
    let mut i: usize = 0;
    proof {
        assert(whole.skip(0) =~= whole);
    }
    while i < vals.len()
        invariant
            i <= vals@.len(),
            whole == vals_view(vals@),
            whole.len() == vals@.len(),
            convert_all(vals_view(old(stack)@), whole, *t) == convert_all(
                vals_view(stack@),
                whole.skip(i as int),
                *t,
            ),
        decreases vals@.len() - i,
    {
        proof {
            assert(whole.skip(i as int).first() == whole[i as int]);
            assert(whole.skip(i as int).drop_first() =~= whole.skip(i + 1));
        }
        let ghost s_before = vals_view(stack@);
        match vals[i].convert(t) {
            Ok(v) => {
                stack.push(v);
                proof {
                    assert(vals_view(stack@) =~= s_before.push(
                        vals_view(stack@).last(),
                    ));
                }
            },
            Err(e) => {
                return Some(e);
            },
        }
        i = i + 1;
    }
    proof {
        assert(whole.skip(whole.len() as int) =~= Seq::<ValView>::empty());
    }
    None
}

/// Concatenates a run of values that dereference to strings; mirrors
/// [`concat_strs`].
fn concat_exec(vals: &Vec<MemData>) -> (r: Result<String, Error>)
    ensures
        match r {
            Ok(s) => concat_strs(vals_view(vals@)) == Ok::<Seq<char>, Error>(s@),
            Err(e) => concat_strs(vals_view(vals@)) == Err::<Seq<char>, Error>(e),
        },
{
    let ghost whole = vals_view(vals@);
    let mut out = String::new();
    let mut i: usize = 0;
    proof {
        assert(whole.skip(0) =~= whole);
    }
    while i < vals.len()
        invariant
            i <= vals@.len(),
            whole == vals_view(vals@),
            whole.len() == vals@.len(),
            concat_strs(whole) == (match concat_strs(whole.skip(i as int)) {
                Ok(rest) => Ok::<Seq<char>, Error>(out@ + rest),
                Err(e) => Err::<Seq<char>, Error>(e),
            }),
        decreases vals@.len() - i,
    {
        proof {
            assert(whole.skip(i as int).first() == whole[i as int]);
            assert(whole.skip(i as int).drop_first() =~= whole.skip(i + 1));
        }
        let ghost out_before = out@;
        let d = vals[i].deref();
        match d {
            MemData::Str(s) => {
                out.append(s.as_str());
                proof {
                    match concat_strs(whole.skip(i + 1)) {
                        Ok(rest) => {
                            assert(out@ + rest =~= out_before + (s@ + rest));
                        },
                        Err(_) => {},
                    }
                }
            },
            _ => {
                return Err(d.wrong_type(Type::Str));
            },
        }
        i = i + 1;
    }
    proof {
        assert(whole.skip(whole.len() as int) =~= Seq::<ValView>::empty());
        assert(out@ + Seq::<char>::empty() =~= out@);
    }
    Ok(out)
}

/// Takes the respective components of a run of pairs; mirrors
/// [`components`].
fn components_exec(vals: &Vec<MemData>, car: bool) -> (r: Result<Vec<MemData>, Error>)
    ensures
        match r {
            Ok(rs) => components(vals_view(vals@), car) == Ok::<Seq<ValView>, Error>(
                vals_view(rs@),
            ),
            Err(e) => components(vals_view(vals@), car) == Err::<Seq<ValView>, Error>(e),
        },
{
    let ghost whole = vals_view(vals@);
    let mut out: Vec<MemData> = Vec::new();
    let mut i: usize = 0;
    proof {
        assert(whole.skip(0) =~= whole);
        assert(vals_view(out@) =~= Seq::<ValView>::empty());
    }
    while i < vals.len()
        invariant
            i <= vals@.len(),
            whole == vals_view(vals@),
            whole.len() == vals@.len(),
            components(whole, car) == (match components(whole.skip(i as int), car) {
                Ok(rest) => Ok::<Seq<ValView>, Error>(vals_view(out@) + rest),
                Err(e) => Err::<Seq<ValView>, Error>(e),
            }),
        decreases vals@.len() - i,
    {
        proof {
            assert(whole.skip(i as int).first() == whole[i as int]);
            assert(whole.skip(i as int).drop_first() =~= whole.skip(i + 1));
        }
        let ghost out_before = vals_view(out@);
        match &vals[i] {
            MemData::Pair { car: c, cdr: d } => {
                let picked = if car {
                    (**c).clone()
                } else {
                    (**d).clone()
                };
                let ghost pv = picked@;
                out.push(picked);
                proof {
                    assert(vals_view(out@) =~= out_before.push(pv));
                    match components(whole.skip(i + 1), car) {
                        Ok(rest) => {
                            assert(vals_view(out@) + rest =~= out_before + (seq![pv] + rest));
                        },
                        Err(_) => {},
                    }
                }
            },
            v => {
                return Err(v.wrong_type(Type::Pair));
            },
        }
        i = i + 1;
    }
    proof {
        assert(whole.skip(whole.len() as int) =~= Seq::<ValView>::empty());
        assert(vals_view(out@) + Seq::<ValView>::empty() =~= vals_view(out@));
    }
    Ok(out)
}

/// Folds one arithmetic operation left over a run of values; mirrors
/// [`fold_arith`].
fn fold_arith_exec(op: BinOp, vals: &Vec<MemData>) -> (r: Result<MemData, Error>)
    requires
        vals@.len() >= 1,
    ensures
        res_view(r) == fold_arith(
            op,
            vals_view(vals@).first(),
            vals_view(vals@).drop_first(),
        ),
{
    let ghost whole = vals_view(vals@);
    let mut acc = vals[0].clone();
    let mut i: usize = 1;
    proof {
        assert(whole.skip(1) =~= whole.drop_first());
    }
    while i < vals.len()
        invariant
            1 <= i <= vals@.len(),
            whole == vals_view(vals@),
            whole.len() == vals@.len(),
            fold_arith(op, whole.first(), whole.drop_first()) == fold_arith(
                op,
                acc@,
                whole.skip(i as int),
            ),
        decreases vals@.len() - i,
    {
        proof {
            assert(whole.skip(i as int).first() == whole[i as int]);
            assert(whole.skip(i as int).drop_first() =~= whole.skip(i + 1));
        }
        match acc.arith(op, &vals[i]) {
            Ok(v) => {
                acc = v;
            },
            Err(e) => {
                return Err(e);
            },
        }
        i = i + 1;
    }
    proof {
        assert(whole.skip(whole.len() as int) =~= Seq::<ValView>::empty());
    }
    Ok(acc)
}

impl Job {
    /// A job over the given environment, with an empty operand
    /// stack, recording off, and no output yet.
    pub fn new(env: Environment) -> (r: Job)
        ensures
            r@ == (JobView {
                env,
                stack: Seq::<ValView>::empty(),
                recording: 0,
                output: Seq::<char>::empty(),
            }),
    {
        let r = Job { env, reg_stack: Vec::new(), recording: 0, output: String::new() };
        proof {
            assert(r@.stack =~= Seq::<ValView>::empty());
        }
        r
    }

    /// Everything the job has displayed so far.
    pub fn output(&self) -> (r: &String)
        ensures
            r@ == self@.output,
    {
        &self.output
    }

    /// Unwinds the whole task stack after a failure, mirroring
    /// [`spec_unwind`]: saved environments are restored, call frames
    /// released where they exist, and the error wrapped at each
    /// enclosing level.
    fn unwind_exec(&mut self, store: &Store, tasks: &mut Vec<Task>, re: RuntimeError) -> (r:
        RuntimeError)
        requires
            mach_wf(mach_of(old(self)@, store@, tasks_view(old(tasks)@))),
        ensures
            ({
                let (m2, re2) = spec_unwind(
                    mach_of(old(self)@, store@, tasks_view(old(tasks)@)),
                    re,
                );
                &&& mach_of(final(self)@, store@, tasks_view(final(tasks)@)) == m2
                &&& r == re2
                &&& final(tasks)@.len() == 0
                &&& mach_wf(m2)
            }),
    {
        let mut cur = re;
        let ghost m0 = mach_of(self@, store@, tasks_view(tasks@));
        let ghost re0 = re;
        while tasks.len() > 0
            invariant
                mach_wf(mach_of(self@, store@, tasks_view(tasks@))),
                spec_unwind(m0, re0) == spec_unwind(
                    mach_of(self@, store@, tasks_view(tasks@)),
                    cur,
                ),
            decreases tasks@.len(),
        {
            let ghost m_iter = mach_of(self@, store@, tasks_view(tasks@));
            let t = match tasks.pop() {
                Some(t) => t,
                None => {
                    proof {
                        assert(false);
                    }
                    unreached()
                },
            };
            proof {
                assert(tasks_view(tasks@) =~= m_iter.tasks.drop_last());
            }
            match t.saved_env {
                Some(e) => {
                    self.env = e;
                },
                None => {},
            }
            let is_call = match t.ret {
                RetKind::Call => true,
                RetKind::Inline => false,
            };
            if is_call && self.env.len > 1 {
                let pop_res = self.env.pop_frame(store);
                proof {
                    assert(pop_res is Ok);
                }
            }
            if tasks.len() > 0 {
                let plen = tasks.len();
                let pc = tasks[plen - 1].pc;
                let inst = tasks[plen - 1].insts.op_at(pc - 1);
                cur = RuntimeError {
                    instruction: Some(inst),
                    instruction_num: Some(pc - 1),
                    error: Error::RuntimeErrorInSubJob(Box::new(cur)),
                };
            }
        }
        cur
    }
}

impl Job {
    /// `PSS`: push a new frame.
    fn exec_pss(&mut self, store: &mut Store, tasks: &Vec<Task>, inst: &Op) -> (r: Outcome)
        requires
            dispatch_pre(mach_of(old(self)@, old(store)@, tasks_view(tasks@))),
            inst.opcode is PSS,
        ensures
            outcome_matches(
                mach_of(old(self)@, old(store)@, tasks_view(tasks@)),
                mach_of(final(self)@, final(store)@, tasks_view(tasks@)),
                *inst,
                r,
            ),
    {
        let ghost pre = mach_of(self@, store@, tasks_view(tasks@));
        self.env.new_frame(store);
        proof {
            let post = mach_of(self@, store@, tasks_view(tasks@));
            crate::mem::lemma_store_wf_push_node(pre.store, Some(pre.env.tail));
            lemma_mach_wf_grow(pre, post.store);
        }
        Outcome::Running
    }

    /// `PPS`: pop the current frame; fails at the root.
    fn exec_pps(&mut self, store: &mut Store, tasks: &mut Vec<Task>, inst: &Op) -> (r: Outcome)
        requires
            dispatch_pre(mach_of(old(self)@, old(store)@, tasks_view(old(tasks)@))),
            inst.opcode is PPS,
        ensures
            outcome_matches(
                mach_of(old(self)@, old(store)@, tasks_view(old(tasks)@)),
                mach_of(final(self)@, final(store)@, tasks_view(final(tasks)@)),
                *inst,
                r,
            ),
    {
        let pc = tasks[tasks.len() - 1].pc;
        match self.env.pop_frame(store) {
            Ok(()) => Outcome::Running,
            Err(e) => {
                let re = self.unwind_exec(store, tasks, RuntimeError::at(*inst, pc - 1, e));
                Outcome::Failed(re)
            },
        }
    }

    /// `REC`: set the recording counter (one when absent).
    fn exec_rec(&mut self, store: &mut Store, tasks: &Vec<Task>, inst: &Op) -> (r: Outcome)
        requires
            dispatch_pre(mach_of(old(self)@, old(store)@, tasks_view(tasks@))),
            inst.opcode is REC,
        ensures
            outcome_matches(
                mach_of(old(self)@, old(store)@, tasks_view(tasks@)),
                mach_of(final(self)@, final(store)@, tasks_view(tasks@)),
                *inst,
                r,
            ),
    {
        self.recording = match inst.n {
            Some(n) => n as usize,
            None => 1,
        };
        Outcome::Running
    }

    /// `DVR`: bind an id to the named constant or the popped value;
    /// unless muted, push the fresh binding back.
    fn exec_dvr(&mut self, store: &mut Store, tasks: &mut Vec<Task>, inst: &Op) -> (r: Outcome)
        requires
            dispatch_pre(mach_of(old(self)@, old(store)@, tasks_view(old(tasks)@))),
            inst.opcode is DVR,
        ensures
            outcome_matches(
                mach_of(old(self)@, old(store)@, tasks_view(old(tasks)@)),
                mach_of(final(self)@, final(store)@, tasks_view(final(tasks)@)),
                *inst,
                r,
            ),
    {
        let ghost pre = mach_of(self@, store@, tasks_view(tasks@));
        let pc = tasks[tasks.len() - 1].pc;
        let id = match inst.ident {
            Some(id) => id,
            None => {
                let re = self.unwind_exec(
                    store,
                    tasks,
                    RuntimeError::at(*inst, pc - 1, Error::TypeError(Type::Int, Type::Nil)),
                );
                return Outcome::Failed(re);
            },
        };
        let got: Result<MemData, Error> = match inst.val {
            Some(cid) => self.env.get_const(store, &cid),
            None => match self.reg_stack.pop() {
                Some(v) => Ok(v),
                None => Err(Error::IllegalRegisterPop),
            },
        };
        let v = match got {
            Ok(v) => v,
            Err(e) => {
                proof {
                    assert(vals_view(self.reg_stack@) =~= pre.stack);
                }
                let re = self.unwind_exec(store, tasks, RuntimeError::at(*inst, pc - 1, e));
                return Outcome::Failed(re);
            },
        };
        let ghost vv = v@;
        proof {
            match inst.val {
                Some(cid) => {
                    assert(val_wf(pre.store.consts[cid as int], pre.store.nodes));
                },
                None => {
                    assert(vv == pre.stack.last());
                    assert(vals_view(self.reg_stack@) =~= pre.stack.drop_last());
                },
            }
            crate::mem::lemma_store_wf_define(pre.store, self.env.tail as int, id, vv);
        }
        let dr = self.env.define(store, id, v);
        proof {
            assert(dr is Ok);
            let post_nodes = defined(pre.store.nodes, self.env.tail as int, id, vv);
            assert(post_nodes[self.env.tail as int].frame.last() == (id, vv));
            assert(lookup(post_nodes, self.env.tail as int, id) == Some(vv));
            lemma_mach_wf_grow(
                MachView { stack: vals_view(self.reg_stack@), ..pre },
                store@,
            );
        }
        if !inst.mute {
            let ghost s_before = vals_view(self.reg_stack@);
            match self.env.get(store, &id) {
                Ok(p) => {
                    proof {
                        assert(p@ == wrapped(vv));
                    }
                    self.reg_stack.push(p);
                    proof {
                        assert(vals_view(self.reg_stack@) =~= s_before.push(wrapped(vv)));
                    }
                },
                Err(_) => {
                    proof {
                        assert(false);
                    }
                },
            }
        }
        Outcome::Running
    }

    /// `LVR`: push the named constant or the binding of the named
    /// id.
    fn exec_lvr(&mut self, store: &mut Store, tasks: &mut Vec<Task>, inst: &Op) -> (r: Outcome)
        requires
            dispatch_pre(mach_of(old(self)@, old(store)@, tasks_view(old(tasks)@))),
            inst.opcode is LVR,
        ensures
            outcome_matches(
                mach_of(old(self)@, old(store)@, tasks_view(old(tasks)@)),
                mach_of(final(self)@, final(store)@, tasks_view(final(tasks)@)),
                *inst,
                r,
            ),
    {
        let ghost pre = mach_of(self@, store@, tasks_view(tasks@));
        let pc = tasks[tasks.len() - 1].pc;
        let got: Result<MemData, Error> = match inst.val {
            Some(cid) => self.env.get_const(store, &cid),
            None => match inst.ident {
                Some(id) => self.env.get(store, &id),
                None => Err(Error::TypeError(Type::Int, Type::Nil)),
            },
        };
        match got {
            Ok(v) => {
                proof {
                    match inst.val {
                        Some(cid) => {
                            assert(val_wf(pre.store.consts[cid as int], pre.store.nodes));
                        },
                        None => {
                            crate::mem::lemma_lookup_wf(
                                pre.store,
                                self.env.tail as int,
                                inst.ident->0,
                            );
                        },
                    }
                }
                self.reg_stack.push(v);
                proof {
                    assert(vals_view(self.reg_stack@) =~= pre.stack.push(
                        vals_view(self.reg_stack@).last(),
                    ));
                }
                Outcome::Running
            },
            Err(e) => {
                let re = self.unwind_exec(store, tasks, RuntimeError::at(*inst, pc - 1, e));
                Outcome::Failed(re)
            },
        }
    }

    /// `LMB` / `PRC`: pop recorded instructions and push the
    /// assembled procedure value.
    fn exec_make_proc(
        &mut self,
        store: &mut Store,
        tasks: &mut Vec<Task>,
        inst: &Op,
        lambda: bool,
    ) -> (r: Outcome)
        requires
            dispatch_pre(mach_of(old(self)@, old(store)@, tasks_view(old(tasks)@))),
            lambda ==> inst.opcode is LMB,
            !lambda ==> inst.opcode is PRC,
        ensures
            outcome_matches(
                mach_of(old(self)@, old(store)@, tasks_view(old(tasks)@)),
                mach_of(final(self)@, final(store)@, tasks_view(final(tasks)@)),
                *inst,
                r,
            ),
    {
        let ghost pre = mach_of(self@, store@, tasks_view(tasks@));
        let pc = tasks[tasks.len() - 1].pc;
        let n = match inst.n {
            Some(n) => n,
            None => {
                let re = self.unwind_exec(
                    store,
                    tasks,
                    RuntimeError::at(*inst, pc - 1, Error::TypeError(Type::Int, Type::Nil)),
                );
                return Outcome::Failed(re);
            },
        };
        let vals = match pop_n(&mut self.reg_stack, n as usize) {
            Ok(vals) => vals,
            Err(e) => {
                let re = self.unwind_exec(store, tasks, RuntimeError::at(*inst, pc - 1, e));
                return Outcome::Failed(re);
            },
        };
        proof {
            assert(vals_view(self.reg_stack@) =~= pre.stack.take(
                pre.stack.len() - n as int,
            ));
            lemma_stack_wf_parts(pre.stack, pre.store.nodes, pre.stack.len() - n as int);
        }
        match collect_insts(&vals) {
            Err(e) => {
                let re = self.unwind_exec(store, tasks, RuntimeError::at(*inst, pc - 1, e));
                Outcome::Failed(re)
            },
            Ok(ops) => {
                let ghost s_before = vals_view(self.reg_stack@);
                let v = if lambda {
                    MemData::Lambda(Procedure::new(ops), self.env)
                } else {
                    MemData::Proc(Procedure::new(ops))
                };
                self.reg_stack.push(v);
                proof {
                    assert(vals_view(self.reg_stack@) =~= s_before.push(
                        vals_view(self.reg_stack@).last(),
                    ));
                }
                Outcome::Running
            },
        }
    }

    /// `IFT` / `IFE`: pop the condition and the branch bodies, and
    /// run the chosen branch in place.
    fn exec_if(&mut self, store: &mut Store, tasks: &mut Vec<Task>, inst: &Op, has_else: bool) -> (r:
        Outcome)
        requires
            dispatch_pre(mach_of(old(self)@, old(store)@, tasks_view(old(tasks)@))),
            has_else ==> inst.opcode is IFE,
            !has_else ==> inst.opcode is IFT,
        ensures
            outcome_matches(
                mach_of(old(self)@, old(store)@, tasks_view(old(tasks)@)),
                mach_of(final(self)@, final(store)@, tasks_view(final(tasks)@)),
                *inst,
                r,
            ),
    {
        let ghost pre = mach_of(self@, store@, tasks_view(tasks@));
        let pc = tasks[tasks.len() - 1].pc;
        let cond = match self.reg_stack.pop() {
            Some(v) => v,
            None => {
                let re = self.unwind_exec(
                    store,
                    tasks,
                    RuntimeError::at(*inst, pc - 1, Error::IllegalRegisterPop),
                );
                return Outcome::Failed(re);
            },
        };
        proof {
            assert(vals_view(self.reg_stack@) =~= pre.stack.drop_last());
        }
        let else_body: Option<Procedure> = if has_else {
            match self.reg_stack.pop() {
                None => {
                    let re = self.unwind_exec(
                        store,
                        tasks,
                        RuntimeError::at(*inst, pc - 1, Error::IllegalRegisterPop),
                    );
                    return Outcome::Failed(re);
                },
                Some(ev) => {
                    proof {
                        assert(vals_view(self.reg_stack@) =~= pre.stack.drop_last().drop_last());
                    }
                    let d = ev.deref();
                    match d {
                        MemData::Proc(p) => Some(p.clone()),
                        _ => {
                            let e = d.wrong_type(Type::Proc);
                            let re = self.unwind_exec(
                                store,
                                tasks,
                                RuntimeError::at(*inst, pc - 1, e),
                            );
                            return Outcome::Failed(re);
                        },
                    }
                },
            }
        } else {
            None
        };
        let tv = match self.reg_stack.pop() {
            Some(v) => v,
            None => {
                let re = self.unwind_exec(
                    store,
                    tasks,
                    RuntimeError::at(*inst, pc - 1, Error::IllegalRegisterPop),
                );
                return Outcome::Failed(re);
            },
        };
        proof {
            if has_else {
                assert(vals_view(self.reg_stack@) =~= pre.stack.drop_last().drop_last()
                    .drop_last());
            } else {
                assert(vals_view(self.reg_stack@) =~= pre.stack.drop_last().drop_last());
            }
        }
        let td = tv.deref();
        let then_body = match td {
            MemData::Proc(p) => p.clone(),
            _ => {
                let e = td.wrong_type(Type::Proc);
                let re = self.unwind_exec(store, tasks, RuntimeError::at(*inst, pc - 1, e));
                return Outcome::Failed(re);
            },
        };
        let ghost tasks_before = tasks_view(tasks@);
        if !cond.is_false() {
            tasks.push(
                Task { insts: then_body, pc: 0, saved_env: None, ret: RetKind::Inline },
            );
            proof {
                assert(tasks_view(tasks@) =~= tasks_before.push(
                    tasks_view(tasks@).last(),
                ));
            }
        } else {
            match else_body {
                Some(eb) => {
                    tasks.push(Task { insts: eb, pc: 0, saved_env: None, ret: RetKind::Inline });
                    proof {
                        assert(tasks_view(tasks@) =~= tasks_before.push(
                            tasks_view(tasks@).last(),
                        ));
                    }
                },
                None => {},
            }
        }
        Outcome::Running
    }

    /// `CGT` / `CLT` / `CEQ`: pop `n` values and push the reduce of
    /// the relation over consecutive pairs.
    fn exec_chain_rel(&mut self, store: &mut Store, tasks: &mut Vec<Task>, inst: &Op) -> (r:
        Outcome)
        requires
            dispatch_pre(mach_of(old(self)@, old(store)@, tasks_view(old(tasks)@))),
            inst.opcode is CGT || inst.opcode is CLT || inst.opcode is CEQ,
        ensures
            outcome_matches(
                mach_of(old(self)@, old(store)@, tasks_view(old(tasks)@)),
                mach_of(final(self)@, final(store)@, tasks_view(final(tasks)@)),
                *inst,
                r,
            ),
    {
        let ghost pre = mach_of(self@, store@, tasks_view(tasks@));
        let pc = tasks[tasks.len() - 1].pc;
        let n = match inst.n {
            Some(n) => n,
            None => {
                let re = self.unwind_exec(
                    store,
                    tasks,
                    RuntimeError::at(*inst, pc - 1, Error::TypeError(Type::Int, Type::Nil)),
                );
                return Outcome::Failed(re);
            },
        };
        let vals = match pop_n(&mut self.reg_stack, n as usize) {
            Ok(vals) => vals,
            Err(e) => {
                let re = self.unwind_exec(store, tasks, RuntimeError::at(*inst, pc - 1, e));
                return Outcome::Failed(re);
            },
        };
        proof {
            assert(vals_view(self.reg_stack@) =~= pre.stack.take(
                pre.stack.len() - n as int,
            ));
            lemma_stack_wf_parts(pre.stack, pre.store.nodes, pre.stack.len() - n as int);
        }
        match chain_rel_exec(inst.opcode, &vals) {
            Err(e) => {
                let re = self.unwind_exec(store, tasks, RuntimeError::at(*inst, pc - 1, e));
                Outcome::Failed(re)
            },
            Ok(b) => {
                let ghost s_before = vals_view(self.reg_stack@);
                self.reg_stack.push(MemData::Bool(b));
                proof {
                    assert(vals_view(self.reg_stack@) =~= s_before.push(ValView::Bool(b)));
                }
                Outcome::Running
            },
        }
    }

    /// `CLL`: call the named binding, or an assembled body, under a
    /// fresh frame whose completion pops one result.
    fn exec_cll(&mut self, store: &mut Store, tasks: &mut Vec<Task>, inst: &Op) -> (r: Outcome)
        requires
            dispatch_pre(mach_of(old(self)@, old(store)@, tasks_view(old(tasks)@))),
            inst.opcode is CLL,
        ensures
            outcome_matches(
                mach_of(old(self)@, old(store)@, tasks_view(old(tasks)@)),
                mach_of(final(self)@, final(store)@, tasks_view(final(tasks)@)),
                *inst,
                r,
            ),
    {
        let ghost pre = mach_of(self@, store@, tasks_view(tasks@));
        let pc = tasks[tasks.len() - 1].pc;
        match inst.ident {
            Some(id) => {
                let v = match self.env.get(store, &id) {
                    Ok(v) => v,
                    Err(e) => {
                        let re = self.unwind_exec(
                            store,
                            tasks,
                            RuntimeError::at(
                                *inst,
                                pc - 1,
                                Error::RuntimeErrorInSubJob(Box::new(RuntimeError::bare(e))),
                            ),
                        );
                        return Outcome::Failed(re);
                    },
                };
                proof {
                    crate::mem::lemma_lookup_wf(pre.store, self.env.tail as int, id);
                    lemma_val_wf_unwrapped(v@, pre.store.nodes);
                }
                let d = v.deref();
                match d {
                    MemData::Proc(p) => {
                        let body = p.clone();
                        self.env.new_frame(store);
                        proof {
                            crate::mem::lemma_store_wf_push_node(pre.store, Some(pre.env.tail));
                            lemma_mach_wf_grow(pre, store@);
                        }
                        let ghost tasks_before = tasks_view(tasks@);
                        tasks.push(
                            Task { insts: body, pc: 0, saved_env: None, ret: RetKind::Call },
                        );
                        proof {
                            assert(tasks_view(tasks@) =~= tasks_before.push(
                                tasks_view(tasks@).last(),
                            ));
                        }
                        Outcome::Running
                    },
                    MemData::Lambda(p, cap) => {
                        let body = p.clone();
                        let cap2 = *cap;
                        self.env.new_frame(store);
                        proof {
                            crate::mem::lemma_store_wf_push_node(pre.store, Some(pre.env.tail));
                            lemma_mach_wf_grow(pre, store@);
                            crate::mem::lemma_env_wf_extend(cap2, pre.store.nodes, store@.nodes);
                        }
                        let saved = self.env;
                        self.env = cap2;
                        let ghost tasks_before = tasks_view(tasks@);
                        tasks.push(
                            Task {
                                insts: body,
                                pc: 0,
                                saved_env: Some(saved),
                                ret: RetKind::Call,
                            },
                        );
                        proof {
                            assert(tasks_view(tasks@) =~= tasks_before.push(
                                tasks_view(tasks@).last(),
                            ));
                        }
                        Outcome::Running
                    },
                    _ => {
                        let e = d.wrong_type(Type::Proc);
                        let re = self.unwind_exec(
                            store,
                            tasks,
                            RuntimeError::at(
                                *inst,
                                pc - 1,
                                Error::RuntimeErrorInSubJob(Box::new(RuntimeError::bare(e))),
                            ),
                        );
                        Outcome::Failed(re)
                    },
                }
            },
            None => {
                let n = match inst.n {
                    Some(n) => n,
                    None => {
                        let re = self.unwind_exec(
                            store,
                            tasks,
                            RuntimeError::at(
                                *inst,
                                pc - 1,
                                Error::TypeError(Type::Int, Type::Nil),
                            ),
                        );
                        return Outcome::Failed(re);
                    },
                };
                let vals = match pop_n(&mut self.reg_stack, n as usize) {
                    Ok(vals) => vals,
                    Err(e) => {
                        let re = self.unwind_exec(
                            store,
                            tasks,
                            RuntimeError::at(*inst, pc - 1, e),
                        );
                        return Outcome::Failed(re);
                    },
                };
                proof {
                    assert(vals_view(self.reg_stack@) =~= pre.stack.take(
                        pre.stack.len() - n as int,
                    ));
                    lemma_stack_wf_parts(pre.stack, pre.store.nodes, pre.stack.len() - n as int);
                }
                match collect_insts(&vals) {
                    Err(e) => {
                        let re = self.unwind_exec(
                            store,
                            tasks,
                            RuntimeError::at(*inst, pc - 1, e),
                        );
                        Outcome::Failed(re)
                    },
                    Ok(ops) => {
                        let ghost mid = mach_of(self@, store@, tasks_view(tasks@));
                        self.env.new_frame(store);
                        proof {
                            crate::mem::lemma_store_wf_push_node(pre.store, Some(pre.env.tail));
                            lemma_mach_wf_grow(mid, store@);
                        }
                        let ghost tasks_before = tasks_view(tasks@);
                        tasks.push(
                            Task {
                                insts: Procedure::new(ops),
                                pc: 0,
                                saved_env: None,
                                ret: RetKind::Call,
                            },
                        );
                        proof {
                            assert(tasks_view(tasks@) =~= tasks_before.push(
                                tasks_view(tasks@).last(),
                            ));
                        }
                        Outcome::Running
                    },
                }
            },
        }
    }

    /// `CNV`: convert the named binding or the top `n` values to the
    /// target type.
    fn exec_cnv(&mut self, store: &mut Store, tasks: &mut Vec<Task>, inst: &Op) -> (r: Outcome)
        requires
            dispatch_pre(mach_of(old(self)@, old(store)@, tasks_view(old(tasks)@))),
            inst.opcode is CNV,
        ensures
            outcome_matches(
                mach_of(old(self)@, old(store)@, tasks_view(old(tasks)@)),
                mach_of(final(self)@, final(store)@, tasks_view(final(tasks)@)),
                *inst,
                r,
            ),
    {
        let ghost pre = mach_of(self@, store@, tasks_view(tasks@));
        let pc = tasks[tasks.len() - 1].pc;
        let t = match inst.typ {
            Some(t) => t,
            None => {
                let re = self.unwind_exec(
                    store,
                    tasks,
                    RuntimeError::at(*inst, pc - 1, Error::TypeError(Type::Int, Type::Nil)),
                );
                return Outcome::Failed(re);
            },
        };
        let vals: Vec<MemData> = match inst.ident {
            Some(id) => {
                match self.env.get(store, &id) {
                    Ok(v) => {
                        let mut vv: Vec<MemData> = Vec::new();
                        vv.push(v);
                        proof {
                            assert(vals_view(vv@) =~= seq![
                                wrapped(lookup(pre.store.nodes, pre.env.tail as int, id)->0),
                            ]);
                        }
                        vv
                    },
                    Err(e) => {
                        let re = self.unwind_exec(
                            store,
                            tasks,
                            RuntimeError::at(*inst, pc - 1, e),
                        );
                        return Outcome::Failed(re);
                    },
                }
            },
            None => {
                let n = match inst.n {
                    Some(n) => n,
                    None => {
                        let re = self.unwind_exec(
                            store,
                            tasks,
                            RuntimeError::at(
                                *inst,
                                pc - 1,
                                Error::TypeError(Type::Int, Type::Nil),
                            ),
                        );
                        return Outcome::Failed(re);
                    },
                };
                match pop_n(&mut self.reg_stack, n as usize) {
                    Ok(vals) => {
                        proof {
                            assert(vals_view(self.reg_stack@) =~= pre.stack.take(
                                pre.stack.len() - n as int,
                            ));
                        }
                        vals
                    },
                    Err(e) => {
                        let re = self.unwind_exec(
                            store,
                            tasks,
                            RuntimeError::at(*inst, pc - 1, e),
                        );
                        return Outcome::Failed(re);
                    },
                }
            },
        };
        let ghost kept = vals_view(self.reg_stack@);
        proof {
            lemma_stack_wf_parts(pre.stack, pre.store.nodes, kept.len() as int);
            assert(stack_wf(kept, pre.store.nodes)) by {
                if inst.ident is None {
                    assert(kept =~= pre.stack.take(kept.len() as int));
                }
            }
            lemma_convert_all_wf(kept, vals_view(vals@), t, pre.store.nodes);
        }
        match convert_push(&mut self.reg_stack, &vals, &t) {
            None => Outcome::Running,
            Some(e) => {
                let re = self.unwind_exec(store, tasks, RuntimeError::at(*inst, pc - 1, e));
                Outcome::Failed(re)
            },
        }
    }

    /// `CAT`: pop `n` values and push their concatenation.
    fn exec_cat(&mut self, store: &mut Store, tasks: &mut Vec<Task>, inst: &Op) -> (r: Outcome)
        requires
            dispatch_pre(mach_of(old(self)@, old(store)@, tasks_view(old(tasks)@))),
            inst.opcode is CAT,
        ensures
            outcome_matches(
                mach_of(old(self)@, old(store)@, tasks_view(old(tasks)@)),
                mach_of(final(self)@, final(store)@, tasks_view(final(tasks)@)),
                *inst,
                r,
            ),
    {
        let ghost pre = mach_of(self@, store@, tasks_view(tasks@));
        let pc = tasks[tasks.len() - 1].pc;
        let n = match inst.n {
            Some(n) => n,
            None => {
                let re = self.unwind_exec(
                    store,
                    tasks,
                    RuntimeError::at(*inst, pc - 1, Error::TypeError(Type::Int, Type::Nil)),
                );
                return Outcome::Failed(re);
            },
        };
        let vals = match pop_n(&mut self.reg_stack, n as usize) {
            Ok(vals) => vals,
            Err(e) => {
                let re = self.unwind_exec(store, tasks, RuntimeError::at(*inst, pc - 1, e));
                return Outcome::Failed(re);
            },
        };
        proof {
            assert(vals_view(self.reg_stack@) =~= pre.stack.take(
                pre.stack.len() - n as int,
            ));
            lemma_stack_wf_parts(pre.stack, pre.store.nodes, pre.stack.len() - n as int);
        }
        match concat_exec(&vals) {
            Err(e) => {
                let re = self.unwind_exec(store, tasks, RuntimeError::at(*inst, pc - 1, e));
                Outcome::Failed(re)
            },
            Ok(s) => {
                let ghost s_before = vals_view(self.reg_stack@);
                self.reg_stack.push(MemData::Str(s));
                proof {
                    assert(vals_view(self.reg_stack@) =~= s_before.push(
                        vals_view(self.reg_stack@).last(),
                    ));
                }
                Outcome::Running
            },
        }
    }

    /// `CNS`: pop two values and push the pair of them.
    fn exec_cns(&mut self, store: &mut Store, tasks: &mut Vec<Task>, inst: &Op) -> (r: Outcome)
        requires
            dispatch_pre(mach_of(old(self)@, old(store)@, tasks_view(old(tasks)@))),
            inst.opcode is CNS,
        ensures
            outcome_matches(
                mach_of(old(self)@, old(store)@, tasks_view(old(tasks)@)),
                mach_of(final(self)@, final(store)@, tasks_view(final(tasks)@)),
                *inst,
                r,
            ),
    {
        let ghost pre = mach_of(self@, store@, tasks_view(tasks@));
        let pc = tasks[tasks.len() - 1].pc;
        if self.reg_stack.len() < 2 {
            let re = self.unwind_exec(
                store,
                tasks,
                RuntimeError::at(*inst, pc - 1, Error::IllegalRegisterPop),
            );
            return Outcome::Failed(re);
        }
        let cdr = match self.reg_stack.pop() {
            Some(v) => v,
            None => {
                proof {
                    assert(false);
                }
                unreached()
            },
        };
        let car = match self.reg_stack.pop() {
            Some(v) => v,
            None => {
                proof {
                    assert(false);
                }
                unreached()
            },
        };
        let ghost s_before = vals_view(self.reg_stack@);
        self.reg_stack.push(MemData::Pair { car: Box::new(car), cdr: Box::new(cdr) });
        proof {
            assert(s_before =~= pre.stack.take(pre.stack.len() - 2));
            lemma_stack_wf_parts(pre.stack, pre.store.nodes, pre.stack.len() - 2);
            assert(vals_view(self.reg_stack@) =~= s_before.push(
                vals_view(self.reg_stack@).last(),
            ));
        }
        Outcome::Running
    }

    /// `CAR` / `CDR`: push the respective components of the named
    /// binding or of the top `n` values.
    fn exec_components(
        &mut self,
        store: &mut Store,
        tasks: &mut Vec<Task>,
        inst: &Op,
        car: bool,
    ) -> (r: Outcome)
        requires
            dispatch_pre(mach_of(old(self)@, old(store)@, tasks_view(old(tasks)@))),
            car ==> inst.opcode is CAR,
            !car ==> inst.opcode is CDR,
        ensures
            outcome_matches(
                mach_of(old(self)@, old(store)@, tasks_view(old(tasks)@)),
                mach_of(final(self)@, final(store)@, tasks_view(final(tasks)@)),
                *inst,
                r,
            ),
    {
        let ghost pre = mach_of(self@, store@, tasks_view(tasks@));
        let pc = tasks[tasks.len() - 1].pc;
        let vals: Vec<MemData> = match inst.ident {
            Some(id) => {
                match self.env.get(store, &id) {
                    Ok(v) => {
                        proof {
                            crate::mem::lemma_lookup_wf(pre.store, self.env.tail as int, id);
                            lemma_val_wf_unwrapped(v@, pre.store.nodes);
                        }
                        let d = v.deref().clone();
                        let mut vv: Vec<MemData> = Vec::new();
                        vv.push(d);
                        proof {
                            assert(vals_view(vv@) =~= seq![
                                unwrapped(
                                    wrapped(lookup(pre.store.nodes, pre.env.tail as int, id)->0),
                                ),
                            ]);
                            assert(unwrapped(
                                wrapped(lookup(pre.store.nodes, pre.env.tail as int, id)->0),
                            ) == unwrapped(
                                lookup(pre.store.nodes, pre.env.tail as int, id)->0,
                            ));
                        }
                        vv
                    },
                    Err(e) => {
                        let re = self.unwind_exec(
                            store,
                            tasks,
                            RuntimeError::at(*inst, pc - 1, e),
                        );
                        return Outcome::Failed(re);
                    },
                }
            },
            None => {
                let n: usize = match inst.n {
                    Some(n) => n as usize,
                    None => 1,
                };
                match pop_n(&mut self.reg_stack, n) {
                    Ok(vals) => {
                        proof {
                            assert(vals_view(self.reg_stack@) =~= pre.stack.take(
                                pre.stack.len() - n as int,
                            ));
                        }
                        vals
                    },
                    Err(e) => {
                        let re = self.unwind_exec(
                            store,
                            tasks,
                            RuntimeError::at(*inst, pc - 1, e),
                        );
                        return Outcome::Failed(re);
                    },
                }
            },
        };
        let ghost kept = vals_view(self.reg_stack@);
        proof {
            assert(stack_wf(kept, pre.store.nodes)) by {
                if inst.ident is None {
                    lemma_stack_wf_parts(pre.stack, pre.store.nodes, kept.len() as int);
                    assert(kept =~= pre.stack.take(kept.len() as int));
                }
            }
            assert(stack_wf(vals_view(vals@), pre.store.nodes)) by {
                match inst.ident {
                    Some(id) => {},
                    None => {
                        lemma_stack_wf_parts(pre.stack, pre.store.nodes, kept.len() as int);
                        assert(vals_view(vals@) =~= pre.stack.skip(kept.len() as int));
                    },
                }
            }
        }
        match components_exec(&vals, car) {
            Err(e) => {
                let re = self.unwind_exec(store, tasks, RuntimeError::at(*inst, pc - 1, e));
                Outcome::Failed(re)
            },
            Ok(mut rs) => {
                proof {
                    lemma_components_wf(vals_view(vals@), car, pre.store.nodes);
                }
                self.reg_stack.append(&mut rs);
                proof {
                    assert(vals_view(self.reg_stack@) =~= kept + components(
                        vals_view(vals@),
                        car,
                    )->Ok_0);
                }
                Outcome::Running
            },
        }
    }

    /// `ADD` / `SUB` / `MUL` / `DIV`: fold the operation over the
    /// named binding and the popped top, or over the top `n` values.
    fn exec_arith(&mut self, store: &mut Store, tasks: &mut Vec<Task>, inst: &Op) -> (r: Outcome)
        requires
            dispatch_pre(mach_of(old(self)@, old(store)@, tasks_view(old(tasks)@))),
            inst.opcode is ADD || inst.opcode is SUB || inst.opcode is MUL || inst.opcode is DIV,
        ensures
            outcome_matches(
                mach_of(old(self)@, old(store)@, tasks_view(old(tasks)@)),
                mach_of(final(self)@, final(store)@, tasks_view(final(tasks)@)),
                *inst,
                r,
            ),
    {
        let ghost pre = mach_of(self@, store@, tasks_view(tasks@));
        let pc = tasks[tasks.len() - 1].pc;
        let vals: Vec<MemData> = match inst.ident {
            Some(id) => {
                let v = match self.env.get(store, &id) {
                    Ok(v) => v,
                    Err(e) => {
                        let re = self.unwind_exec(
                            store,
                            tasks,
                            RuntimeError::at(*inst, pc - 1, e),
                        );
                        return Outcome::Failed(re);
                    },
                };
                let top = match self.reg_stack.pop() {
                    Some(t) => t,
                    None => {
                        let re = self.unwind_exec(
                            store,
                            tasks,
                            RuntimeError::at(*inst, pc - 1, Error::IllegalRegisterPop),
                        );
                        return Outcome::Failed(re);
                    },
                };
                proof {
                    crate::mem::lemma_lookup_wf(pre.store, self.env.tail as int, id);
                    assert(vals_view(self.reg_stack@) =~= pre.stack.drop_last());
                }
                let mut vv: Vec<MemData> = Vec::new();
                vv.push(v);
                vv.push(top);
                proof {
                    assert(vals_view(vv@) =~= seq![
                        wrapped(lookup(pre.store.nodes, pre.env.tail as int, id)->0),
                        pre.stack.last(),
                    ]);
                }
                vv
            },
            None => {
                let n: usize = match inst.n {
                    Some(n) => n as usize,
                    None => 1,
                };
                match pop_n(&mut self.reg_stack, n) {
                    Ok(vals) => {
                        proof {
                            assert(vals_view(self.reg_stack@) =~= pre.stack.take(
                                pre.stack.len() - n as int,
                            ));
                        }
                        vals
                    },
                    Err(e) => {
                        let re = self.unwind_exec(
                            store,
                            tasks,
                            RuntimeError::at(*inst, pc - 1, e),
                        );
                        return Outcome::Failed(re);
                    },
                }
            },
        };
        let ghost kept = vals_view(self.reg_stack@);
        proof {
            assert(stack_wf(kept, pre.store.nodes)) by {
                if inst.ident is Some {
                    assert(kept =~= pre.stack.drop_last());
                    lemma_stack_wf_parts(pre.stack, pre.store.nodes, kept.len() as int);
                    assert(pre.stack.drop_last() =~= pre.stack.take(kept.len() as int));
                } else {
                    lemma_stack_wf_parts(pre.stack, pre.store.nodes, kept.len() as int);
                    assert(kept =~= pre.stack.take(kept.len() as int));
                }
            }
            assert(stack_wf(vals_view(vals@), pre.store.nodes)) by {
                match inst.ident {
                    Some(id) => {
                        assert(val_wf(pre.stack.last(), pre.store.nodes));
                    },
                    None => {
                        lemma_stack_wf_parts(pre.stack, pre.store.nodes, kept.len() as int);
                        assert(vals_view(vals@) =~= pre.stack.skip(kept.len() as int));
                    },
                }
            }
        }
        if vals.len() == 0 {
            let ghost s_before = vals_view(self.reg_stack@);
            self.reg_stack.push(MemData::Nil);
            proof {
                assert(vals_view(self.reg_stack@) =~= s_before.push(ValView::Nil));
            }
            return Outcome::Running;
        }
        let op = match inst.opcode {
            OpCode::ADD => BinOp::Sum,
            OpCode::SUB => BinOp::Subtraction,
            OpCode::MUL => BinOp::Multiplication,
            _ => BinOp::Division,
        };
        match fold_arith_exec(op, &vals) {
            Err(e) => {
                let re = self.unwind_exec(store, tasks, RuntimeError::at(*inst, pc - 1, e));
                Outcome::Failed(re)
            },
            Ok(v) => {
                proof {
                    lemma_fold_arith_wf(
                        op,
                        vals_view(vals@).first(),
                        vals_view(vals@).drop_first(),
                        pre.store.nodes,
                    );
                }
                let ghost s_before = vals_view(self.reg_stack@);
                self.reg_stack.push(v);
                proof {
                    assert(vals_view(self.reg_stack@) =~= s_before.push(
                        vals_view(self.reg_stack@).last(),
                    ));
                }
                Outcome::Running
            },
        }
    }

    /// `DSP`: pop a string and append it verbatim to the output log.
    fn exec_dsp(&mut self, store: &mut Store, tasks: &mut Vec<Task>, inst: &Op) -> (r: Outcome)
        requires
            dispatch_pre(mach_of(old(self)@, old(store)@, tasks_view(old(tasks)@))),
            inst.opcode is DSP,
        ensures
            outcome_matches(
                mach_of(old(self)@, old(store)@, tasks_view(old(tasks)@)),
                mach_of(final(self)@, final(store)@, tasks_view(final(tasks)@)),
                *inst,
                r,
            ),
    {
        let ghost pre = mach_of(self@, store@, tasks_view(tasks@));
        let pc = tasks[tasks.len() - 1].pc;
        let v = match self.reg_stack.pop() {
            Some(v) => v,
            None => {
                let re = self.unwind_exec(
                    store,
                    tasks,
                    RuntimeError::at(*inst, pc - 1, Error::IllegalRegisterPop),
                );
                return Outcome::Failed(re);
            },
        };
        proof {
            assert(vals_view(self.reg_stack@) =~= pre.stack.drop_last());
        }
        let d = v.deref();
        match d {
            MemData::Str(s) => {
                self.output.append(s.as_str());
                if !inst.mute {
                    let ghost s_before = vals_view(self.reg_stack@);
                    self.reg_stack.push(MemData::Nil);
                    proof {
                        assert(vals_view(self.reg_stack@) =~= s_before.push(ValView::Nil));
                    }
                }
                Outcome::Running
            },
            _ => {
                let e = d.wrong_type(Type::Str);
                let re = self.unwind_exec(store, tasks, RuntimeError::at(*inst, pc - 1, e));
                Outcome::Failed(re)
            },
        }
    }
}

/// The machine after `n` steps from `m`: still running, done, or
/// failed.
pub open spec fn run_steps(m: MachView, n: nat) -> Step
    decreases n,
{
    if n == 0 {
        Step::Next(m)
    } else {
        match run_steps(m, (n - 1) as nat) {
            Step::Next(m2) => step(m2),
            done_or_failed => done_or_failed,
        }
    }
}

/// The machine that a body starts on: the body as the sole task, the
/// given environment swapped in with the old one saved, where one is
/// given.
pub open spec fn start_mach(
    j: JobView,
    s: StoreView,
    body: Seq<Op>,
    env: Option<Environment>,
) -> MachView {
    MachView {
        store: s,
        env: match env {
            Some(e) => e,
            None => j.env,
        },
        stack: j.stack,
        recording: j.recording,
        output: j.output,
        tasks: seq![
            TaskView {
                insts: body,
                pc: 0,
                saved_env: match env {
                    Some(_) => Some(j.env),
                    None => None,
                },
                ret: RetKind::Inline,
            },
        ],
    }
}

/// What calling an id resolves to: the body, and the captured
/// environment where the binding is a lambda.
pub open spec fn call_target(s: StoreView, env: Environment, id: IdentID) -> Result<
    (Seq<Op>, Option<Environment>),
    Error,
> {
    match lookup(s.nodes, env.tail as int, id) {
        None => Err(Error::VariableNotFound(0, id)),
        Some(v) => match unwrapped(v) {
            ValView::Proc(p) => Ok((p, None)),
            ValView::Lambda(p, cap) => Ok((p, Some(cap))),
            w => Err(Error::TypeError(Type::Proc, tag_of(w))),
        },
    }
}

/// The machine a call starts on: a fresh frame is opened, the body
/// becomes the sole task, and a lambda's captured environment is
/// swapped in with the framed one saved.
pub open spec fn call_start(
    j: JobView,
    s: StoreView,
    body: Seq<Op>,
    cap: Option<Environment>,
) -> MachView {
    let (e2, nodes2) = pushed_frame(j.env, s.nodes);
    start_mach(
        JobView { env: e2, ..j },
        StoreView { nodes: nodes2, ..s },
        body,
        cap,
    )
}

/// The frame a call opened, released where one exists.
pub open spec fn best_effort_pop(e: Environment, nodes: Seq<NodeView>) -> Environment {
    if e.len <= 1 {
        e
    } else {
        Environment {
            head: e.head,
            tail: nodes[e.tail as int].parent->0,
            len: (e.len - 1) as usize,
        }
    }
}

/// A successful call: the body ran to completion in `n` steps, left
/// at least one value, and the call returned the topmost of them,
/// popping it and the call's frame.
pub open spec fn call_done_ok(m0: MachView, n: nat, j2: JobView, s2: StoreView, v: ValView) -> bool {
    match run_steps(m0, n) {
        Step::Done(d) => {
            &&& d.stack.len() > 0
            &&& v == d.stack.last()
            &&& d.env.len > 1
            &&& s2 == d.store
            &&& j2 == (JobView {
                env: best_effort_pop(d.env, d.store.nodes),
                stack: d.stack.drop_last(),
                recording: d.recording,
                output: d.output,
            })
        },
        _ => false,
    }
}

/// A run that exhausted the interpreter's step budget: after the
/// whole budget of `2^64 - 1` steps the machine was still running,
/// and was unwound exactly as on a failure, with
/// [`Error::StepBudgetExhausted`] carried out.  Nothing short of the
/// full budget admits this outcome, so for every program that halts
/// within it the driver owes the genuine result.
pub open spec fn gave_up(m0: MachView, n: nat, j2: JobView, s2: StoreView, re: RuntimeError) -> bool {
    match run_steps(m0, n) {
        Step::Next(mx) => {
            let (m2, re2) = spec_unwind(mx, bare_err(Error::StepBudgetExhausted));
            &&& n == u64::MAX as nat
            &&& re == re2
            &&& m2 == mach_of(j2, s2, Seq::<TaskView>::empty())
        },
        _ => false,
    }
}

/// A completed or failed run stays so: stepping is deterministic,
/// and `Done` and `Fail` are absorbing.
pub proof fn lemma_run_steps_absorbing(m0: MachView, n1: nat, n2: nat)
    requires
        n1 <= n2,
        !(run_steps(m0, n1) is Next),
    ensures
        run_steps(m0, n2) == run_steps(m0, n1),
    decreases n2 - n1,
{
    if n2 > n1 {
        lemma_run_steps_absorbing(m0, n1, (n2 - 1) as nat);
    }
}

/// Law: the budget escape is closed to every program that halts
/// within the budget.  Once a run reaches `Done` or `Fail` in at
/// most `2^64 - 1` steps, no step count shows it still running at
/// the full budget, so [`gave_up`] — and with it the spurious
/// [`Error::StepBudgetExhausted`] outcome — cannot hold of it: the
/// driver owes the genuine result.
pub proof fn lemma_finished_runs_never_give_up(
    m0: MachView,
    n0: nat,
    n: nat,
    j2: JobView,
    s2: StoreView,
    re: RuntimeError,
)
    requires
        n0 <= u64::MAX as nat,
        !(run_steps(m0, n0) is Next),
    ensures
        !gave_up(m0, n, j2, s2, re),
{
    if gave_up(m0, n, j2, s2, re) {
        lemma_run_steps_absorbing(m0, n0, u64::MAX as nat);
        assert(false);
    }
}

/// A failed run: after `n` steps the machine either failed, with the
/// fully wrapped error and the cleaned-up state carried out, or was
/// still running when the step budget gave out.
pub open spec fn execute_failed(
    m0: MachView,
    n: nat,
    j2: JobView,
    s2: StoreView,
    re: RuntimeError,
) -> bool {
    ||| run_steps(m0, n) == Step::Fail(mach_of(j2, s2, Seq::<TaskView>::empty()), re)
    ||| gave_up(m0, n, j2, s2, re)
}

/// A failed call: either the body failed after `n` steps and its
/// fully wrapped error came out, or it completed without leaving a
/// result, or its environment could not release a frame, or the run
/// exhausted the interpreter's step budget; every path releases the
/// call's frame as far as one exists.
pub open spec fn call_done_err(
    m0: MachView,
    n: nat,
    j2: JobView,
    s2: StoreView,
    re: RuntimeError,
) -> bool {
    match run_steps(m0, n) {
        Step::Done(d) => {
            ||| {
                &&& d.stack.len() == 0
                &&& re == bare_err(Error::IllegalRegisterPop)
                &&& s2 == d.store
                &&& j2 == (JobView {
                    env: best_effort_pop(d.env, d.store.nodes),
                    stack: d.stack,
                    recording: d.recording,
                    output: d.output,
                })
            }
            ||| {
                &&& d.stack.len() > 0
                &&& d.env.len <= 1
                &&& re == bare_err(Error::IllegalStackPop)
                &&& s2 == d.store
                &&& j2 == (JobView {
                    env: d.env,
                    stack: d.stack.drop_last(),
                    recording: d.recording,
                    output: d.output,
                })
            }
        },
        Step::Fail(fm, fre) => {
            &&& re == fre
            &&& s2 == fm.store
            &&& j2 == (JobView {
                env: best_effort_pop(fm.env, fm.store.nodes),
                stack: fm.stack,
                recording: fm.recording,
                output: fm.output,
            })
        },
        Step::Next(mx) => {
            let (m2, re2) = spec_unwind(mx, bare_err(Error::StepBudgetExhausted));
            &&& n == u64::MAX as nat
            &&& re == re2
            &&& s2 == m2.store
            &&& j2 == (JobView {
                env: best_effort_pop(m2.env, m2.store.nodes),
                stack: m2.stack,
                recording: m2.recording,
                output: m2.output,
            })
        },
    }
}

/// Everything [`Job::call`] promises: an unresolved or uncallable id
/// changes nothing and reports why; otherwise the run from the
/// call's starting machine is witnessed by a chain of specification
/// steps, returning the value the completed body left on top of the
/// operand stack, or the fully wrapped error.
pub open spec fn call_ensures(
    j0: JobView,
    s0: StoreView,
    id: IdentID,
    j2: JobView,
    s2: StoreView,
    r: Result<MemData, RuntimeError>,
) -> bool {
    match call_target(s0, j0.env, id) {
        Err(e) => {
            &&& r == Err::<MemData, RuntimeError>(bare_err(e))
            &&& j2 == j0
            &&& s2 == s0
        },
        Ok((body, cap)) => {
            let m0 = call_start(j0, s0, body, cap);
            match r {
                Ok(v) => exists|n: nat| call_done_ok(m0, n, j2, s2, val_view(v)),
                Err(re) => exists|n: nat| call_done_err(m0, n, j2, s2, re),
            }
        },
    }
}

impl Job {
    /// One machine step: completion of an ended body, recording of
    /// the fetched instruction, or its dispatch; mirrors [`step`].
    pub fn machine_step(&mut self, store: &mut Store, tasks: &mut Vec<Task>) -> (r: Outcome)
        requires
            mach_wf(mach_of(old(self)@, old(store)@, tasks_view(old(tasks)@))),
        ensures
            ({
                let pre = mach_of(old(self)@, old(store)@, tasks_view(old(tasks)@));
                let post = mach_of(final(self)@, final(store)@, tasks_view(final(tasks)@));
                match r {
                    Outcome::Finished => {
                        &&& step(pre) == Step::Done(pre)
                        &&& post == pre
                        &&& pre.tasks.len() == 0
                    },
                    Outcome::Running => {
                        &&& step(pre) == Step::Next(post)
                        &&& mach_wf(post)
                        &&& store_extends(pre.store, post.store)
                    },
                    Outcome::Failed(re) => {
                        &&& step(pre) == Step::Fail(post, re)
                        &&& mach_wf(post)
                        &&& post.tasks.len() == 0
                        &&& post.store == pre.store
                    },
                }
            }),
    {
        let ghost pre = mach_of(self@, store@, tasks_view(tasks@));
        let tlen = tasks.len();
        if tlen == 0 {
            return Outcome::Finished;
        }
        let cur_pc = tasks[tlen - 1].pc;
        let cur_len = tasks[tlen - 1].insts.len();
        if cur_pc >= cur_len {
            // The top body has run to its end: complete the task.
            let saved = tasks[tlen - 1].saved_env;
            let ret = tasks[tlen - 1].ret;
            match saved {
                Some(e) => {
                    self.env = e;
                },
                None => {},
            }
            match ret {
                RetKind::Inline => {
                    let _finished = tasks.pop();
                    proof {
                        assert(tasks_view(tasks@) =~= pre.tasks.drop_last());
                    }
                    Outcome::Running
                },
                RetKind::Call => {
                    match self.reg_stack.pop() {
                        None => {
                            let re = self.unwind_exec(
                                store,
                                tasks,
                                RuntimeError::bare(Error::IllegalRegisterPop),
                            );
                            Outcome::Failed(re)
                        },
                        Some(v) => {
                            proof {
                                assert(vals_view(self.reg_stack@) =~= pre.stack.drop_last());
                            }
                            if self.env.len == 1 {
                                let re = self.unwind_exec(
                                    store,
                                    tasks,
                                    RuntimeError::bare(Error::IllegalStackPop),
                                );
                                Outcome::Failed(re)
                            } else {
                                let pr = self.env.pop_frame(store);
                                proof {
                                    assert(pr is Ok);
                                }
                                let ghost s_before = vals_view(self.reg_stack@);
                                let ghost vv = v@;
                                self.reg_stack.push(v);
                                let _finished = tasks.pop();
                                proof {
                                    assert(vals_view(self.reg_stack@) =~= s_before.push(vv));
                                    assert(tasks_view(tasks@) =~= pre.tasks.drop_last());
                                }
                                Outcome::Running
                            }
                        },
                    }
                },
            }
        } else {
            // Fetch the next instruction and advance past it.
            let inst = tasks[tlen - 1].insts.op_at(cur_pc);
            let slot = &mut tasks[tlen - 1];
            slot.pc = cur_pc + 1;
            proof {
                let t = pre.tasks.last();
                assert(tasks_view(tasks@) =~= pre.tasks.update(
                    pre.tasks.len() - 1,
                    TaskView { pc: (t.pc + 1) as usize, ..t },
                ));
            }
            if self.recording > 0 {
                // Recording: capture the instruction as data instead
                // of running it.
                self.recording = self.recording - 1;
                let ghost s_before = vals_view(self.reg_stack@);
                self.reg_stack.push(MemData::Inst(inst));
                proof {
                    assert(vals_view(self.reg_stack@) =~= s_before.push(ValView::Inst(inst)));
                }
                Outcome::Running
            } else {
                match inst.opcode {
                    OpCode::PSS => self.exec_pss(store, tasks, &inst),
                    OpCode::PPS => self.exec_pps(store, tasks, &inst),
                    OpCode::REC => self.exec_rec(store, tasks, &inst),
                    OpCode::LMB => self.exec_make_proc(store, tasks, &inst, true),
                    OpCode::PRC => self.exec_make_proc(store, tasks, &inst, false),
                    OpCode::DVR => self.exec_dvr(store, tasks, &inst),
                    OpCode::LVR => self.exec_lvr(store, tasks, &inst),
                    OpCode::IFT => self.exec_if(store, tasks, &inst, false),
                    OpCode::IFE => self.exec_if(store, tasks, &inst, true),
                    OpCode::CGT => self.exec_chain_rel(store, tasks, &inst),
                    OpCode::CLT => self.exec_chain_rel(store, tasks, &inst),
                    OpCode::CEQ => self.exec_chain_rel(store, tasks, &inst),
                    OpCode::CNT => Outcome::Running,
                    OpCode::CLL => self.exec_cll(store, tasks, &inst),
                    OpCode::CNV => self.exec_cnv(store, tasks, &inst),
                    OpCode::CAT => self.exec_cat(store, tasks, &inst),
                    OpCode::CNS => self.exec_cns(store, tasks, &inst),
                    OpCode::CAR => self.exec_components(store, tasks, &inst, true),
                    OpCode::CDR => self.exec_components(store, tasks, &inst, false),
                    OpCode::ADD => self.exec_arith(store, tasks, &inst),
                    OpCode::SUB => self.exec_arith(store, tasks, &inst),
                    OpCode::MUL => self.exec_arith(store, tasks, &inst),
                    OpCode::DIV => self.exec_arith(store, tasks, &inst),
                    OpCode::DSP => self.exec_dsp(store, tasks, &inst),
                }
            }
        }
    }

    /// Runs a body to completion against the operand stack, swapping
    /// `env` in for its duration where one is given.  The run is
    /// witnessed by a chain of specification steps from the starting
    /// machine.
    #[verifier::rlimit(100)]
    pub fn execute(&mut self, store: &mut Store, insts: &Procedure, env: Option<Environment>) -> (r:
        Result<(), RuntimeError>)
        requires
            store_wf(old(store)@),
            env_wf(old(self)@.env, old(store)@.nodes),
            stack_wf(old(self)@.stack, old(store)@.nodes),
            match env {
                Some(e) => env_wf(e, old(store)@.nodes),
                None => true,
            },
        ensures
            store_wf(final(store)@),
            env_wf(final(self)@.env, final(store)@.nodes),
            stack_wf(final(self)@.stack, final(store)@.nodes),
            store_extends(old(store)@, final(store)@),
            ({
                let m0 = start_mach(old(self)@, old(store)@, insts@, env);
                match r {
                    Ok(()) => exists|n: nat|
                        run_steps(m0, n) == Step::Done(
                            mach_of(final(self)@, final(store)@, Seq::<TaskView>::empty()),
                        ),
                    Err(re) => exists|n: nat|
                        execute_failed(m0, n, final(self)@, final(store)@, re),
                }
            }),
    {
        let mut tasks: Vec<Task> = Vec::new();
        let saved: Option<Environment> = match env {
            Some(e) => {
                let old_env = self.env;
                self.env = e;
                Some(old_env)
            },
            None => None,
        };
        tasks.push(Task { insts: insts.clone(), pc: 0, saved_env: saved, ret: RetKind::Inline });
        let ghost m0 = start_mach(old(self)@, old(store)@, insts@, env);
        proof {
            assert(tasks_view(tasks@) =~= m0.tasks);
            assert(mach_of(self@, store@, tasks_view(tasks@)) == m0);
        }
        let ghost mut n: nat = 0;
        let mut fuel: u64 = u64::MAX;
        loop
            invariant
                m0 == start_mach(old(self)@, old(store)@, insts@, env),
                n + fuel == u64::MAX as nat,
                run_steps(m0, n) == Step::Next(mach_of(self@, store@, tasks_view(tasks@))),
                mach_wf(mach_of(self@, store@, tasks_view(tasks@))),
                store_extends(old(store)@, store@),
            decreases fuel,
        {
            if fuel == 0 {
                // The whole budget is spent: the run is unwound as a
                // failure, exactly as `gave_up` describes.
                let re = self.unwind_exec(
                    store,
                    &mut tasks,
                    RuntimeError::bare(Error::StepBudgetExhausted),
                );
                proof {
                    assert(n == u64::MAX as nat);
                    assert(tasks_view(tasks@) =~= Seq::<TaskView>::empty());
                    assert(execute_failed(m0, n, self@, store@, re));
                }
                return Err(re);
            }
            fuel = fuel - 1;
            let out = self.machine_step(store, &mut tasks);
            match out {
                Outcome::Running => {
                    proof {
                        n = n + 1;
                    }
                },
                Outcome::Finished => {
                    proof {
                        n = n + 1;
                        assert(tasks_view(tasks@) =~= Seq::<TaskView>::empty());
                        assert(run_steps(m0, n) == Step::Done(
                            mach_of(self@, store@, Seq::<TaskView>::empty()),
                        ));
                    }
                    return Ok(());
                },
                Outcome::Failed(re) => {
                    proof {
                        n = n + 1;
                        assert(tasks_view(tasks@) =~= Seq::<TaskView>::empty());
                        assert(execute_failed(m0, n, self@, store@, re));
                    }
                    return Err(re);
                },
            }
        }
    }

    /// Calls the binding of `id`: a plain procedure runs as it
    /// stands, a lambda under its captured environment; either way a
    /// fresh frame wraps the body, and exactly one value is popped
    /// off the operand stack as the call's result.
    #[verifier::rlimit(100)]
    #[verifier::spinoff_prover]
    pub fn call(&mut self, store: &mut Store, id: &IdentID) -> (r: Result<MemData, RuntimeError>)
        requires
            store_wf(old(store)@),
            env_wf(old(self)@.env, old(store)@.nodes),
            stack_wf(old(self)@.stack, old(store)@.nodes),
        ensures
            store_wf(final(store)@),
            env_wf(final(self)@.env, final(store)@.nodes),
            stack_wf(final(self)@.stack, final(store)@.nodes),
            store_extends(old(store)@, final(store)@),
            call_ensures(old(self)@, old(store)@, *id, final(self)@, final(store)@, r),
    {
        let got: Result<(Procedure, Option<Environment>), Error> = match self.env.get(store, id) {
            Err(e) => Err(e),
            Ok(v) => {
                proof {
                    crate::mem::lemma_lookup_wf(store@, self.env.tail as int, *id);
                    lemma_val_wf_unwrapped(v@, store@.nodes);
                }
                let d = v.deref();
                match d {
                    MemData::Proc(p) => Ok((p.clone(), None)),
                    MemData::Lambda(p, c) => Ok((p.clone(), Some(*c))),
                    _ => Err(d.wrong_type(Type::Proc)),
                }
            },
        };
        let (body, capopt) = match got {
            Ok(t) => t,
            Err(e) => {
                proof {
                    assert(call_ensures(
                        old(self)@,
                        old(store)@,
                        *id,
                        self@,
                        store@,
                        Err(RuntimeError { instruction: None, instruction_num: None, error: e }),
                    ));
                }
                return Err(RuntimeError::bare(e));
            },
        };
        let ghost j0 = old(self)@;
        let ghost s0 = old(store)@;
        proof {
            assert(call_target(s0, j0.env, *id) == Ok::<(Seq<Op>, Option<Environment>), Error>(
                (body@, capopt),
            ));
        }
        self.env.new_frame(store);
        proof {
            crate::mem::lemma_store_wf_push_node(old(store)@, Some(old(self)@.env.tail));
            lemma_stack_wf_extend(old(self)@.stack, old(store)@.nodes, store@.nodes);
            match capopt {
                Some(c) => {
                    crate::mem::lemma_env_wf_extend(c, old(store)@.nodes, store@.nodes);
                },
                None => {},
            }
        }
        let ghost j_mid = self@;
        let ghost s_mid = store@;
        let ghost m0x = start_mach(j_mid, s_mid, body@, capopt);
        proof {
            assert(m0x == call_start(j0, s0, body@, capopt));
        }
        let r = self.execute(store, &body, capopt);
        let ghost j_after = self@;
        let ghost s_after = store@;
        match r {
            Err(re) => {
                if self.env.len > 1 {
                    let pr = self.env.pop_frame(store);
                    proof {
                        assert(pr is Ok);
                    }
                }
                proof {
                    let n = choose|n: nat| execute_failed(m0x, n, j_after, s_after, re);
                    assert(execute_failed(m0x, n, j_after, s_after, re));
                    assert(call_done_err(m0x, n, self@, store@, re));
                    assert(call_done_err(call_start(j0, s0, body@, capopt), n, self@, store@, re));
                    let bodyv = call_target(s0, j0.env, *id)->Ok_0.0;
                    let capv = call_target(s0, j0.env, *id)->Ok_0.1;
                    assert(bodyv == body@ && capv == capopt);
                    assert(call_done_err(call_start(j0, s0, bodyv, capv), n, self@, store@, re));
                    assert(call_ensures(j0, s0, *id, self@, store@, Err(re)));
                }
                Err(re)
            },
            Ok(()) => {
                proof {
                    let n = choose|n: nat|
                        run_steps(m0x, n) == Step::Done(
                            mach_of(j_after, s_after, Seq::<TaskView>::empty()),
                        );
                    assert(run_steps(m0x, n) == Step::Done(
                        mach_of(j_after, s_after, Seq::<TaskView>::empty()),
                    ));
                }
                match self.reg_stack.pop() {
                    None => {
                        if self.env.len > 1 {
                            let pr = self.env.pop_frame(store);
                            proof {
                                assert(pr is Ok);
                            }
                        }
                        proof {
                            let n = choose|n: nat|
                                run_steps(m0x, n) == Step::Done(
                                    mach_of(j_after, s_after, Seq::<TaskView>::empty()),
                                );
                            assert(call_done_err(
                                m0x,
                                n,
                                self@,
                                store@,
                                bare_err(Error::IllegalRegisterPop),
                            ));
                            assert(call_done_err(
                                call_start(j0, s0, body@, capopt),
                                n,
                                self@,
                                store@,
                                bare_err(Error::IllegalRegisterPop),
                            ));
                            let bodyv = call_target(s0, j0.env, *id)->Ok_0.0;
                            let capv = call_target(s0, j0.env, *id)->Ok_0.1;
                            assert(bodyv == body@ && capv == capopt);
                            assert(call_done_err(
                                call_start(j0, s0, bodyv, capv),
                                n,
                                self@,
                                store@,
                                bare_err(Error::IllegalRegisterPop),
                            ));
                            assert(call_ensures(
                                j0,
                                s0,
                                *id,
                                self@,
                                store@,
                                Err(RuntimeError {
                                    instruction: None,
                                    instruction_num: None,
                                    error: Error::IllegalRegisterPop,
                                }),
                            ));
                        }
                        Err(RuntimeError::bare(Error::IllegalRegisterPop))
                    },
                    Some(v) => {
                        let ghost vv = v@;
                        proof {
                            assert(vals_view(self.reg_stack@) =~= j_after.stack.drop_last());
                            assert(vv == j_after.stack.last());
                            lemma_stack_wf_parts(
                                j_after.stack,
                                s_after.nodes,
                                j_after.stack.len() - 1,
                            );
                            assert(j_after.stack.drop_last() =~= j_after.stack.take(
                                j_after.stack.len() - 1,
                            ));
                        }
                        if self.env.len == 1 {
                            proof {
                                let n = choose|n: nat|
                                    run_steps(m0x, n) == Step::Done(
                                        mach_of(j_after, s_after, Seq::<TaskView>::empty()),
                                    );
                                assert(call_done_err(
                                    m0x,
                                    n,
                                    self@,
                                    store@,
                                    bare_err(Error::IllegalStackPop),
                                ));
                                assert(call_done_err(
                                    call_start(j0, s0, body@, capopt),
                                    n,
                                    self@,
                                    store@,
                                    bare_err(Error::IllegalStackPop),
                                ));
                                let bodyv = call_target(s0, j0.env, *id)->Ok_0.0;
                                let capv = call_target(s0, j0.env, *id)->Ok_0.1;
                                assert(bodyv == body@ && capv == capopt);
                                assert(call_done_err(
                                    call_start(j0, s0, bodyv, capv),
                                    n,
                                    self@,
                                    store@,
                                    bare_err(Error::IllegalStackPop),
                                ));
                                assert(call_ensures(
                                    j0,
                                    s0,
                                    *id,
                                    self@,
                                    store@,
                                    Err(RuntimeError {
                                        instruction: None,
                                        instruction_num: None,
                                        error: Error::IllegalStackPop,
                                    }),
                                ));
                            }
                            Err(RuntimeError::bare(Error::IllegalStackPop))
                        } else {
                            let pr = self.env.pop_frame(store);
                            proof {
                                assert(pr is Ok);
                                let n = choose|n: nat|
                                    run_steps(m0x, n) == Step::Done(
                                        mach_of(j_after, s_after, Seq::<TaskView>::empty()),
                                    );
                                assert(call_done_ok(m0x, n, self@, store@, vv));
                                assert(call_done_ok(
                                    call_start(j0, s0, body@, capopt),
                                    n,
                                    self@,
                                    store@,
                                    val_view(v),
                                ));
                                let bodyv = call_target(s0, j0.env, *id)->Ok_0.0;
                                let capv = call_target(s0, j0.env, *id)->Ok_0.1;
                                assert(bodyv == body@ && capv == capopt);
                                assert(call_done_ok(
                                    call_start(j0, s0, bodyv, capv),
                                    n,
                                    self@,
                                    store@,
                                    val_view(v),
                                ));
                                assert(call_ensures(j0, s0, *id, self@, store@, Ok(v)));
                            }
                            Ok(v)
                        }
                    },
                }
            },
        }
    }
}

} // verus!
