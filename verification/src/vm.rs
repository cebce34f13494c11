//! The virtual machine: one store, one global environment, and the
//! loader that merges independently produced units into the shared
//! global address space.

use vstd::prelude::*;

use crate::data::{
    op_with_offset, op_with_swapped, Bin, BinView, IdentID, MemData, Op, ValView,
};
use crate::err::RuntimeError;
use crate::job::{call_ensures, stack_wf, Job, JobView};
use crate::mem::{
    defined, env_max, env_wf, next_ident, store_wf, str_lookup, Environment, Store,
    StoreView,
};

verus! {

/// The loader's identifier policy.
#[derive(Clone, Copy, PartialEq, Eq, Structural, Debug)]
pub enum LoadOpts {
    /// Every named id in the unit is allocated a fresh global id,
    /// and the name is rebound to point at it.
    OverrideVarStrings,
    /// A name already known globally resolves to its existing id;
    /// otherwise a fresh id is allocated and the name bound to it.
    ReuseVarStrings,
}

/// The name a unit's private table gives to a local id; the latest
/// entry wins.
pub open spec fn bin_name(names: Seq<(IdentID, Seq<char>)>, i: IdentID) -> Option<Seq<char>>
    decreases names.len(),
{
    if names.len() == 0 {
        None
    } else if names.last().0 == i {
        Some(names.last().1)
    } else {
        bin_name(names.drop_last(), i)
    }
}

/// The loader's id assignment: walking the unit's local ids in
/// order, with a counter starting one past the reserved id, each
/// local id `i` maps to the fresh global id `i + counter` — unless
/// the reuse policy finds its name already bound globally, in which
/// case the existing id is reused.  Fresh ids for named locals are
/// recorded in the global string table as they are made.
pub open spec fn assign_ids(
    strings: Seq<(Seq<char>, IdentID)>,
    ii: int,
    idents: Seq<IdentID>,
    names: Seq<(IdentID, Seq<char>)>,
    reuse: bool,
) -> (Seq<IdentID>, Seq<(Seq<char>, IdentID)>)
    decreases idents.len(),
{
    if idents.len() == 0 {
        (Seq::empty(), strings)
    } else {
        let i = idents.first();
        let ii2 = ii + 1;
        let fresh = (i + ii2) as IdentID;
        let picked: (IdentID, Seq<(Seq<char>, IdentID)>) = match bin_name(names, i) {
            Some(nm) => if reuse {
                match str_lookup(strings, nm) {
                    Some(g) => (g, strings),
                    None => (fresh, strings.push((nm, fresh))),
                }
            } else {
                (fresh, strings.push((nm, fresh)))
            },
            None => (fresh, strings),
        };
        let rec = assign_ids(picked.1, ii2, idents.drop_first(), names, reuse);
        (seq![picked.0] + rec.0, rec.1)
    }
}

/// Everything the loader does to the store, and the id it returns:
/// a fresh global id is reserved and bound to `Nil`; the unit's
/// constants are appended to the pool, and its instruction stream is
/// rebased by the pool's old size; its local ids are remapped per
/// [`assign_ids`]; and the reserved id is rebound to a lambda over
/// the rewritten body, capturing the global environment.
pub open spec fn load_result(s: StoreView, mem: Environment, b: BinView, reuse: bool) -> (
    StoreView,
    IdentID,
) {
    let id = next_ident(mem, s.nodes);
    let nodes1 = defined(s.nodes, mem.tail as int, id, ValView::Nil);
    let const_ofs = s.consts.len() as int;
    let consts1 = s.consts + b.consts;
    let assigned = assign_ids(s.var_strings, id as int, b.idents, b.var_strings, reuse);
    let insts1 = b.insts.map_values(
        |op: Op| op_with_offset(op_with_swapped(op, b.idents, assigned.0), const_ofs),
    );
    let nodes2 = defined(nodes1, mem.tail as int, id, ValView::Lambda(insts1, mem));
    (StoreView { nodes: nodes2, consts: consts1, var_strings: assigned.1 }, id)
}

/// What the machine's limits force on a unit before it can load: the
/// fresh ids it needs, and its rebased constant indices, must stay
/// within the 16-bit id spaces.
pub open spec fn load_fits(s: StoreView, mem: Environment, b: BinView) -> bool {
    &&& (match env_max(mem, s.nodes) {
        Some(m) => m + 1 < IdentID::MAX,
        None => true,
    })
    &&& forall|k: int|
        0 <= k < b.consts.len() ==> crate::mem::val_wf(#[trigger] b.consts[k], s.nodes)
    &&& forall|k: int|
        0 <= k < b.idents.len() ==> #[trigger] b.idents[k] + next_ident(mem, s.nodes) + k + 1
            <= IdentID::MAX
    &&& forall|k: int|
        0 <= k < b.insts.len() ==> (#[trigger] b.insts[k].val is Some ==> b.insts[k].val->0
            + s.consts.len() <= u16::MAX)
}

/// Law: loading a unit and then calling the returned id runs exactly
/// the unit's rewritten body, as a lambda under the global
/// environment.  Together with [`crate::job::call_done_ok`] — a
/// completed call returns precisely the topmost value its body's
/// final step left on the operand stack — this pins down what
/// `load` followed by `call` produces.
pub proof fn lemma_load_then_call_runs_the_unit(
    s: StoreView,
    mem: Environment,
    b: BinView,
    reuse: bool,
)
    requires
        env_wf(mem, s.nodes),
    ensures
        ({
            let lr = load_result(s, mem, b, reuse);
            let rewritten = b.insts.map_values(
                |op: Op| op_with_offset(
                    op_with_swapped(
                        op,
                        b.idents,
                        assign_ids(s.var_strings, lr.1 as int, b.idents, b.var_strings, reuse).0,
                    ),
                    s.consts.len() as int,
                ),
            );
            crate::job::call_target(lr.0, mem, lr.1) == Ok::<
                (Seq<Op>, Option<Environment>),
                crate::err::Error,
            >((rewritten, Some(mem)))
        }),
{
    let lr = load_result(s, mem, b, reuse);
    let nodes2 = lr.0.nodes;
    assert(nodes2[mem.tail as int].frame.last().0 == lr.1);
}

/// The name a unit's private table gives to a local id: the
/// executable mirror of [`bin_name`].
fn name_of<'a>(names: &'a Vec<(IdentID, String)>, i: IdentID) -> (r: Option<&'a String>)
    ensures
        ({
            let nview = names@.map_values(|p: (IdentID, String)| (p.0, p.1@));
            match r {
                Some(s) => bin_name(nview, i) == Some(s@),
                None => bin_name(nview, i) is None,
            }
        }),
{
    let ghost nview = names@.map_values(|p: (IdentID, String)| (p.0, p.1@));
    let mut k: usize = names.len();
    proof {
        assert(nview.take(k as int) =~= nview);
    }
    while k > 0
        invariant
            k <= names@.len(),
            nview == names@.map_values(|p: (IdentID, String)| (p.0, p.1@)),
            nview.len() == names@.len(),
            bin_name(nview, i) == bin_name(nview.take(k as int), i),
        decreases k,
    {
        k = k - 1;
        proof {
            assert(nview.take(k + 1).drop_last() =~= nview.take(k as int));
            assert(nview.take(k + 1).last() == nview[k as int]);
        }
        if names[k].0 == i {
            return Some(&names[k].1);
        }
    }
    None
}

/// A machine: a shared store, the global environment that loaded
/// units capture, and the jobs that run against them.
#[derive(Debug)]
pub struct VM {
    store: Store,
    memory: Environment,
    jobs: Vec<Job>,
}

impl VM {
    /// The machine's memory, as its model.
    pub closed spec fn store_view(&self) -> StoreView {
        self.store@
    }

    /// The global environment handle.
    pub closed spec fn memory_env(&self) -> Environment {
        self.memory
    }

    /// The model of the machine's one job.
    pub closed spec fn job_view(&self) -> JobView {
        self.jobs@[0]@
    }

    /// Whether the machine is well-formed: its store is, its global
    /// environment denotes a real chain, and its job's environment
    /// and operand stack are well-formed against the store.
    pub closed spec fn wf(&self) -> bool {
        &&& store_wf(self.store@)
        &&& env_wf(self.memory, self.store@.nodes)
        &&& self.jobs@.len() == 1
        &&& env_wf(self.jobs@[0]@.env, self.store@.nodes)
        &&& stack_wf(self.jobs@[0]@.stack, self.store@.nodes)
    }

    /// A machine with empty state: one root frame, shared by the
    /// global environment and the single job.
    pub fn new() -> (r: VM)
        ensures
            r.wf(),
            r.store_view().consts == Seq::<ValView>::empty(),
            r.store_view().var_strings == Seq::<(Seq<char>, IdentID)>::empty(),
            env_max(r.memory_env(), r.store_view().nodes) is None,
            r.job_view().env == r.memory_env(),
            r.job_view().stack == Seq::<ValView>::empty(),
            r.job_view().output == Seq::<char>::empty(),
    {
        let mut store = Store::new();
        let memory = Environment::new(&mut store);
        let mut jobs: Vec<Job> = Vec::new();
        jobs.push(Job::new(memory));
        VM { store, memory, jobs }
    }

    /// Everything the machine's one job has displayed so far.
    pub fn output(&self) -> (r: &String)
        requires
            self.wf(),
        ensures
            r@ == self.job_view().output,
    {
        self.jobs[0].output()
    }

    /// Whether a unit can load against the machine's current state:
    /// the executable mirror of [`load_fits`], so that a caller can
    /// test [`VM::load`]'s precondition before calling it.
    pub fn unit_fits(&self, bin: &Bin) -> (r: bool)
        requires
            self.wf(),
        ensures
            r == load_fits(self.store_view(), self.memory_env(), bin@),
    {
        // Headroom for the fresh ids the loader allocates.
        let max = self.memory.max_id(&self.store);
        match max {
            Some(m) => {
                if !((m as u32) + 1 < 65535) {
                    return false;
                }
            },
            None => {},
        }
        let id: u32 = match max {
            None => 1,
            Some(m) => m as u32 + 1,
        };
        proof {
            assert(id == next_ident(self.memory_env(), self.store_view().nodes));
        }
        let ghost headroom = match env_max(self.memory_env(), self.store_view().nodes) {
            Some(m) => m + 1 < IdentID::MAX,
            None => true,
        };
        proof {
            assert(headroom);
        }

        // Every constant must be well-formed against the arena.
        let consts = bin.consts();
        let mut k: usize = 0;
        while k < consts.len()
            invariant
                k <= consts@.len(),
                crate::data::vals_view(consts@) == bin@.consts,
                consts@.len() == bin@.consts.len(),
                forall|j: int|
                    0 <= j < k ==> crate::mem::val_wf(
                        #[trigger] bin@.consts[j],
                        self.store_view().nodes,
                    ),
            decreases consts@.len() - k,
        {
            if !crate::mem::check_val_wf(&consts[k], &self.store) {
                proof {
                    assert(bin@.consts[k as int] == crate::data::vals_view(consts@)[k as int]);
                    assert(!crate::mem::val_wf(bin@.consts[k as int], self.store_view().nodes));
                }
                return false;
            }
            k = k + 1;
        }

        // The fresh ids of the unit's locals must stay in range.
        let idents = bin.idents();
        let mut k: usize = 0;
        while k < idents.len()
            invariant
                k <= idents@.len(),
                idents@ == bin@.idents,
                id >= 1,
                id == next_ident(self.memory_env(), self.store_view().nodes),
                headroom,
                headroom == (match env_max(self.memory_env(), self.store_view().nodes) {
                    Some(m) => m + 1 < IdentID::MAX,
                    None => true,
                }),
                forall|j: int|
                    0 <= j < bin@.consts.len() ==> crate::mem::val_wf(
                        #[trigger] bin@.consts[j],
                        self.store_view().nodes,
                    ),
                forall|j: int|
                    0 <= j < k ==> #[trigger] bin@.idents[j] + id + j + 1 <= IdentID::MAX,
            decreases idents@.len() - k,
        {
            if k >= 65535 {
                // With ids at least one, a local this far down the
                // list can never fit the 16-bit space.
                proof {
                    assert(bin@.idents[k as int] + id + k + 1 > IdentID::MAX);
                }
                return false;
            }
            let sum: u64 = idents[k] as u64 + id as u64 + k as u64 + 1;
            if sum > 65535 {
                return false;
            }
            k = k + 1;
        }

        // Rebased constant indices must stay in range.
        let ops = bin.instructions().iter();
        let pool = self.store.const_count();
        let mut k: usize = 0;
        while k < ops.len()
            invariant
                k <= ops@.len(),
                ops@ == bin@.insts,
                pool == self.store_view().consts.len(),
                id == next_ident(self.memory_env(), self.store_view().nodes),
                headroom,
                headroom == (match env_max(self.memory_env(), self.store_view().nodes) {
                    Some(m) => m + 1 < IdentID::MAX,
                    None => true,
                }),
                forall|j: int|
                    0 <= j < bin@.consts.len() ==> crate::mem::val_wf(
                        #[trigger] bin@.consts[j],
                        self.store_view().nodes,
                    ),
                forall|j: int|
                    0 <= j < bin@.idents.len() ==> #[trigger] bin@.idents[j] + id + j + 1
                        <= IdentID::MAX,
                forall|j: int|
                    0 <= j < k ==> (#[trigger] bin@.insts[j].val is Some
                        ==> bin@.insts[j].val->0 + pool <= u16::MAX),
            decreases ops@.len() - k,
        {
            match ops[k].val {
                Some(v) => {
                    if pool > 65535 {
                        return false;
                    }
                    let sum: u64 = v as u64 + pool as u64;
                    if sum > 65535 {
                        return false;
                    }
                },
                None => {},
            }
            k = k + 1;
        }
        true
    }

    /// Loads a unit: reserves a fresh global id, merges the unit's
    /// constants and identifiers into the global space, and binds
    /// the id to a lambda over the rewritten body; see
    /// [`load_result`].
    pub fn load(&mut self, bin: Bin, opts: LoadOpts) -> (id: IdentID)
        requires
            old(self).wf(),
            load_fits(old(self).store_view(), old(self).memory_env(), bin@),
        ensures
            final(self).wf(),
            ({
                let lr = load_result(
                    old(self).store_view(),
                    old(self).memory_env(),
                    bin@,
                    opts is ReuseVarStrings,
                );
                &&& final(self).store_view() == lr.0
                &&& id == lr.1
            }),
            final(self).memory_env() == old(self).memory_env(),
            final(self).job_view() == old(self).job_view(),
    {
        let ghost s0 = self.store@;
        let ghost mem = self.memory;
        let ghost b = bin@;
        let reuse = match opts {
            LoadOpts::ReuseVarStrings => true,
            LoadOpts::OverrideVarStrings => false,
        };

        // Reserve a fresh global id for the unit's top-level binding
        // and hold its place with `Nil`, so that id accounting
        // advances for everything that follows.
        let id = self.memory.new_ident_id(&mut self.store, None);
        let dr = self.memory.define(&mut self.store, id, MemData::Nil);
        proof {
            assert(dr is Ok);
            crate::mem::lemma_store_wf_define(s0, mem.tail as int, id, ValView::Nil);
            crate::mem::lemma_env_wf_extend(mem, s0.nodes, self.store@.nodes);
            crate::mem::lemma_env_max_after_define(mem, s0.nodes, id, ValView::Nil);
            assert(env_max(mem, self.store@.nodes) == Some(id));
            assert(id < IdentID::MAX);
        }
        let ghost nodes1 = self.store@.nodes;

        // Append the unit's constants; their ids rebase by the old
        // pool size.
        let (mut insts, idents, var_strings, consts) = bin.unpack();
        let const_ofs = self.store.const_count();
        let mut k: usize = 0;
        proof {
            assert(self.store@.consts =~= s0.consts + crate::data::vals_view(consts@).take(0));
        }
        while k < consts.len()
            invariant
                k <= consts@.len(),
                crate::data::vals_view(consts@) == b.consts,
                consts@.len() == b.consts.len(),
                forall|k2: int|
                    0 <= k2 < b.consts.len() ==> crate::mem::val_wf(
                        #[trigger] b.consts[k2],
                        s0.nodes,
                    ),
                crate::mem::nodes_extend(s0.nodes, nodes1),
                self.store@.consts == s0.consts + crate::data::vals_view(consts@).take(k as int),
                self.store@.nodes == nodes1,
                self.store@.var_strings == s0.var_strings,
                store_wf(self.store@),
                env_wf(mem, self.store@.nodes),
                env_max(mem, self.store@.nodes) == Some(id),
                id < IdentID::MAX,
                id == next_ident(mem, s0.nodes),
                mem == self.memory,
                self.jobs@ == old(self).jobs@,
            decreases consts@.len() - k,
        {
            let v = consts[k].clone();
            proof {
                assert(v@ == b.consts[k as int]);
                crate::mem::lemma_val_wf_extend(v@, s0.nodes, nodes1);
                crate::mem::lemma_store_wf_push_const(self.store@, v@);
            }
            let _cid = self.memory.load_const(&mut self.store, v);
            proof {
                assert(self.store@.consts =~= s0.consts + crate::data::vals_view(consts@).take(
                    k + 1,
                ));
            }
            k = k + 1;
        }
        proof {
            assert(crate::data::vals_view(consts@).take(consts@.len() as int) =~= b.consts);
            assert(self.store@.consts =~= s0.consts + b.consts);
        }

        // Compute the global ids of the unit's locals, binding names
        // as the policy asks.
        let fresh_probe = self.memory.new_ident_id(&mut self.store, None);
        proof {
            assert(fresh_probe == id + 1);
        }
        let mut ii: IdentID = fresh_probe - 1;
        proof {
            assert(ii == id);
        }
        let mut new_idents: Vec<IdentID> = Vec::new();
        let mut j: usize = 0;
        let ghost names = b.var_strings;
        let ghost whole = assign_ids(s0.var_strings, id as int, b.idents, names, reuse);
        proof {
            assert(var_strings@.map_values(|p: (IdentID, String)| (p.0, p.1@)) == names);
            assert(b.idents.skip(0) =~= b.idents);
        }
        while j < idents.len()
            invariant
                j <= idents@.len(),
                idents@ == b.idents,
                var_strings@.map_values(|p: (IdentID, String)| (p.0, p.1@)) == names,
                ii == id + j,
                id + j <= IdentID::MAX,
                new_idents@.len() == j,
                forall|k2: int|
                    j <= k2 < b.idents.len() ==> #[trigger] b.idents[k2] + id + k2 + 1
                        <= IdentID::MAX,
                whole == ({
                    let rec = assign_ids(
                        self.store@.var_strings,
                        ii as int,
                        b.idents.skip(j as int),
                        names,
                        reuse,
                    );
                    (new_idents@ + rec.0, rec.1)
                }),
                self.store@.nodes == nodes1,
                self.store@.consts == s0.consts + b.consts,
                crate::mem::nodes_extend(s0.nodes, nodes1),
                store_wf(self.store@),
                env_wf(mem, self.store@.nodes),
                mem == self.memory,
                self.jobs@ == old(self).jobs@,
            decreases idents@.len() - j,
        {
            proof {
                assert(b.idents.skip(j as int).first() == b.idents[j as int]);
                assert(b.idents.skip(j as int).drop_first() =~= b.idents.skip(j + 1));
            }
            ii = ii + 1;
            let i = idents[j];
            let ghost strings_before = self.store@.var_strings;
            let nid: IdentID = match name_of(&var_strings, i) {
                Some(s) => {
                    if reuse {
                        match self.memory.get_ident(&self.store, s) {
                            Some(g) => g,
                            None => {
                                let fresh = i + ii;
                                self.memory.bind_var_string(&mut self.store, s.clone(), fresh);
                                fresh
                            },
                        }
                    } else {
                        let fresh = i + ii;
                        self.memory.bind_var_string(&mut self.store, s.clone(), fresh);
                        fresh
                    }
                },
                None => i + ii,
            };
            let ghost nids_before = new_idents@;
            new_idents.push(nid);
            proof {
                let rec = assign_ids(
                    self.store@.var_strings,
                    ii as int,
                    b.idents.skip(j + 1),
                    names,
                    reuse,
                );
                assert(new_idents@ + rec.0 =~= nids_before + (seq![nid] + rec.0));
            }
            j = j + 1;
        }
        proof {
            assert(b.idents.skip(b.idents.len() as int) =~= Seq::<IdentID>::empty());
            assert(new_idents@ + Seq::<IdentID>::empty() =~= new_idents@);
            assert(whole.0 == new_idents@);
            assert(whole.1 == self.store@.var_strings);
        }

        // Rewrite the instruction stream: identifiers first, then
        // the constant rebase.
        insts.apply_ident_swaps(idents, new_idents);
        insts.apply_const_offset(const_ofs);
        proof {
            assert(insts@ =~= b.insts.map_values(
                |op: Op| op_with_offset(
                    op_with_swapped(op, b.idents, whole.0),
                    s0.consts.len() as int,
                ),
            ));
        }

        // Rebind the reserved id to the unit's body as a lambda
        // capturing the global environment.
        let env = self.memory;
        proof {
            crate::mem::lemma_env_wf_extend(mem, s0.nodes, self.store@.nodes);
            crate::mem::lemma_store_wf_define(
                self.store@,
                mem.tail as int,
                id,
                ValView::Lambda(insts@, env),
            );
        }
        let dr2 = self.memory.define(&mut self.store, id, MemData::Lambda(insts, env));
        proof {
            assert(dr2 is Ok);
            crate::mem::lemma_env_wf_extend(mem, s0.nodes, self.store@.nodes);
            crate::mem::lemma_env_wf_extend(
                old(self).jobs@[0]@.env,
                s0.nodes,
                self.store@.nodes,
            );
            crate::job::lemma_stack_wf_extend(
                old(self).jobs@[0]@.stack,
                s0.nodes,
                self.store@.nodes,
            );
        }
        id
    }

    /// Executes the binding of `id` on the machine's job; see
    /// [`call_ensures`].
    pub fn call(&mut self, id: &IdentID) -> (r: Result<MemData, RuntimeError>)
        requires
            old(self).wf(),
        ensures
            final(self).wf(),
            call_ensures(
                old(self).job_view(),
                old(self).store_view(),
                *id,
                final(self).job_view(),
                final(self).store_view(),
                r,
            ),
            final(self).memory_env() == old(self).memory_env(),
    {
        let ghost mem = self.memory;
        let ghost s0 = self.store@;
        let job = &mut self.jobs[0];
        let r = job.call(&mut self.store, id);
        proof {
            crate::mem::lemma_env_wf_extend(mem, s0.nodes, self.store@.nodes);
        }
        r
    }
}

} // verus!
