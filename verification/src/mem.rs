//! The memory model: a store holding an arena of frames, the constants
//! pool and the identifier/string table, and environments as light
//! handles into that arena.
//!
//! A frame is one scope of identifier-to-value bindings.  An
//! environment is a chain of frames, reached by parent links from its
//! tail; cloning an environment copies only the handle, so a closure's
//! snapshot and the running environment share frames, and a binding
//! made through one is seen through the other.  Frames are never
//! removed from the arena, so a snapshot stays valid while the running
//! environment pushes and pops.

use vstd::prelude::*;

use crate::data::{wrapped, ConstID, IdentID, MemData, ValView};
use crate::err::Error;

verus! {

/// A chain of frames: a handle into the [`Store`]'s arena.
///
/// `head` and `tail` are arena indices; `len` is the number of frames
/// that the environment owns, walking parent links from `tail`.  The
/// chain may continue past `head` (after a splice); lookups follow it
/// to its end, while [`Environment::max_id`] covers exactly the owned
/// frames.
///
/// Two environments are equal exactly when they share head, tail and
/// length; since frames live in one shared arena, equal handles denote
/// the same chain identity, as a pointer comparison would.
#[derive(Clone, Copy, PartialEq, Eq, Structural, Debug)]
pub struct Environment {
    pub head: usize,
    pub tail: usize,
    pub len: usize,
}

/// One scope of identifier-to-value bindings.
///
/// Bindings are appended; the latest entry for an id shadows the
/// earlier ones, so rebinding never destroys a value that a closure
/// may still share.
#[derive(Debug)]
pub struct Frame {
    vars: Vec<(IdentID, MemData)>,
}

/// An arena node: a frame together with the link to its parent scope.
/// The parent link is set when the node is created and never changes
/// afterwards, except through [`Environment::append`].
#[derive(Debug)]
pub struct EnvNode {
    parent: Option<usize>,
    frame: Frame,
}

/// The whole memory of a machine: the frame arena, the append-only
/// constants pool, and the source-name-to-identifier table.
#[derive(Debug)]
pub struct Store {
    nodes: Vec<EnvNode>,
    consts: Vec<MemData>,
    var_strings: Vec<(String, IdentID)>,
}

/// The model of an arena node.
pub struct NodeView {
    pub parent: Option<usize>,
    pub frame: Seq<(IdentID, ValView)>,
}

/// The model of the whole store.
pub struct StoreView {
    pub nodes: Seq<NodeView>,
    pub consts: Seq<ValView>,
    pub var_strings: Seq<(Seq<char>, IdentID)>,
}

impl View for Frame {
    type V = Seq<(IdentID, ValView)>;

    closed spec fn view(&self) -> Seq<(IdentID, ValView)> {
        self.vars@.map_values(|p: (IdentID, MemData)| (p.0, p.1@))
    }
}

impl View for EnvNode {
    type V = NodeView;

    closed spec fn view(&self) -> NodeView {
        NodeView { parent: self.parent, frame: self.frame@ }
    }
}

impl View for Store {
    type V = StoreView;

    closed spec fn view(&self) -> StoreView {
        StoreView {
            nodes: self.nodes@.map_values(|n: EnvNode| n@),
            consts: self.consts@.map_values(|v: MemData| v@),
            var_strings: self.var_strings@.map_values(|p: (String, IdentID)| (p.0@, p.1)),
        }
    }
}

/// The binding for `id` in one frame: the latest entry wins.
pub open spec fn frame_get(f: Seq<(IdentID, ValView)>, id: IdentID) -> Option<ValView>
    decreases f.len(),
{
    if f.len() == 0 {
        None
    } else if f.last().0 == id {
        Some(f.last().1)
    } else {
        frame_get(f.drop_last(), id)
    }
}

/// The larger of two optional ids, where absence counts least.
pub open spec fn opt_id_max(a: Option<IdentID>, b: Option<IdentID>) -> Option<IdentID> {
    match (a, b) {
        (None, y) => y,
        (Some(x), None) => Some(x),
        (Some(x), Some(y)) => Some(if x >= y { x } else { y }),
    }
}

/// The largest id bound in one frame.
pub open spec fn frame_max(f: Seq<(IdentID, ValView)>) -> Option<IdentID>
    decreases f.len(),
{
    if f.len() == 0 {
        None
    } else {
        opt_id_max(frame_max(f.drop_last()), Some(f.last().0))
    }
}

/// Whether `k` parent steps from node `i` stay inside the arena, with
/// each parent index strictly below its child's.
pub open spec fn chain_ok(nodes: Seq<NodeView>, i: int, k: int) -> bool
    decreases k,
{
    &&& 0 <= i < nodes.len()
    &&& (k > 0 ==> {
        &&& nodes[i].parent is Some
        &&& nodes[i].parent->0 < i
        &&& chain_ok(nodes, nodes[i].parent->0 as int, k - 1)
    })
}

/// The node `k` parent steps above node `i`.
pub open spec fn chain_at(nodes: Seq<NodeView>, i: int, k: int) -> int
    decreases k,
{
    if k <= 0 {
        i
    } else {
        match nodes[i].parent {
            Some(p) => chain_at(nodes, p as int, k - 1),
            None => i,
        }
    }
}

/// Whether an environment handle denotes a real chain: at least one
/// frame, a tail inside the arena, `len - 1` parent steps available,
/// and the head at the last of them.
pub open spec fn env_wf(e: Environment, nodes: Seq<NodeView>) -> bool {
    &&& e.len >= 1
    &&& chain_ok(nodes, e.tail as int, e.len - 1)
    &&& e.head == chain_at(nodes, e.tail as int, e.len - 1)
}

/// The binding that a lookup from node `i` finds: the nearest frame on
/// the full parent chain that binds `id`.
pub open spec fn lookup(nodes: Seq<NodeView>, i: int, id: IdentID) -> Option<ValView>
    decreases i,
{
    if !(0 <= i < nodes.len()) {
        None
    } else {
        match frame_get(nodes[i].frame, id) {
            Some(v) => Some(v),
            None => match nodes[i].parent {
                Some(p) => if p < i {
                    lookup(nodes, p as int, id)
                } else {
                    None
                },
                None => None,
            },
        }
    }
}

/// The largest id bound in the `k + 1` frames from node `i` up.
pub open spec fn chain_max(nodes: Seq<NodeView>, i: int, k: int) -> Option<IdentID>
    decreases k,
{
    let fm = frame_max(nodes[i].frame);
    if k <= 0 {
        fm
    } else {
        opt_id_max(fm, chain_max(nodes, nodes[i].parent->0 as int, k - 1))
    }
}

/// Whether every environment reachable inside a value denotes a real
/// chain in the arena.
pub open spec fn val_wf(v: ValView, nodes: Seq<NodeView>) -> bool
    decreases v,
{
    match v {
        ValView::Pointer(p) => val_wf(*p, nodes),
        ValView::Lambda(_, e) => env_wf(e, nodes),
        ValView::Pair(a, b) => val_wf(*a, nodes) && val_wf(*b, nodes),
        _ => true,
    }
}

/// Whether every value bound in a frame is well-formed.
pub open spec fn frame_wf(f: Seq<(IdentID, ValView)>, nodes: Seq<NodeView>) -> bool {
    forall|i: int| 0 <= i < f.len() ==> val_wf(#[trigger] f[i].1, nodes)
}

/// Whether the whole store is well-formed: every parent link points
/// strictly downwards, and every value held in a frame or in the
/// constants pool is well-formed.
pub open spec fn store_wf(s: StoreView) -> bool {
    &&& forall|i: int|
        0 <= i < s.nodes.len() ==> (#[trigger] s.nodes[i].parent is Some ==> s.nodes[i].parent->0
            < i)
    &&& forall|i: int| 0 <= i < s.nodes.len() ==> frame_wf(#[trigger] s.nodes[i].frame, s.nodes)
    &&& forall|i: int| 0 <= i < s.consts.len() ==> val_wf(#[trigger] s.consts[i], s.nodes)
}

/// Whether `b` extends `a` without touching the parent links that `a`
/// already has.  Frames may change; the chain structure may only
/// grow.
pub open spec fn nodes_extend(a: Seq<NodeView>, b: Seq<NodeView>) -> bool {
    &&& a.len() <= b.len()
    &&& forall|i: int| 0 <= i < a.len() ==> #[trigger] b[i].parent == a[i].parent
}

/// A chain stays a chain when the arena grows without relinking.
pub proof fn lemma_chain_extend(a: Seq<NodeView>, b: Seq<NodeView>, i: int, k: int)
    requires
        nodes_extend(a, b),
        chain_ok(a, i, k),
    ensures
        chain_ok(b, i, k),
        chain_at(b, i, k) == chain_at(a, i, k),
    decreases k,
{
    if k > 0 {
        lemma_chain_extend(a, b, a[i].parent->0 as int, k - 1);
    }
}

/// An environment handle stays well-formed when the arena grows
/// without relinking.
pub proof fn lemma_env_wf_extend(e: Environment, a: Seq<NodeView>, b: Seq<NodeView>)
    requires
        nodes_extend(a, b),
        env_wf(e, a),
    ensures
        env_wf(e, b),
{
    lemma_chain_extend(a, b, e.tail as int, e.len - 1);
}

/// A value stays well-formed when the arena grows without relinking.
pub proof fn lemma_val_wf_extend(v: ValView, a: Seq<NodeView>, b: Seq<NodeView>)
    requires
        nodes_extend(a, b),
        val_wf(v, a),
    ensures
        val_wf(v, b),
    decreases v,
{
    match v {
        ValView::Pointer(p) => lemma_val_wf_extend(*p, a, b),
        ValView::Lambda(_, e) => lemma_env_wf_extend(e, a, b),
        ValView::Pair(x, y) => {
            lemma_val_wf_extend(*x, a, b);
            lemma_val_wf_extend(*y, a, b);
        },
        _ => {},
    }
}

/// A parent chain of `k` steps needs `k` strictly descending indices,
/// so it cannot be longer than its starting index.
pub proof fn lemma_chain_bound(nodes: Seq<NodeView>, i: int, k: int)
    requires
        chain_ok(nodes, i, k),
        k >= 0,
    ensures
        k <= i,
    decreases k,
{
    if k > 0 {
        lemma_chain_bound(nodes, nodes[i].parent->0 as int, k - 1);
    }
}

/// A chain survives an update at an index above its start.
pub proof fn lemma_chain_update_above(
    nodes: Seq<NodeView>,
    i: int,
    k: int,
    h: int,
    nv: NodeView,
)
    requires
        chain_ok(nodes, i, k),
        i < h < nodes.len(),
    ensures
        chain_ok(nodes.update(h, nv), i, k),
        chain_at(nodes.update(h, nv), i, k) == chain_at(nodes, i, k),
    decreases k,
{
    if k > 0 {
        lemma_chain_update_above(nodes, nodes[i].parent->0 as int, k - 1, h, nv);
    }
}

/// A chain survives giving a parent to a node that had none: such a
/// node can only stand at the chain's very end, where the new link is
/// never followed.
pub proof fn lemma_chain_relink(nodes: Seq<NodeView>, i: int, k: int, h: int, j: usize)
    requires
        chain_ok(nodes, i, k),
        0 <= h < nodes.len(),
        nodes[h].parent is None,
    ensures
        ({
            let relinked = nodes.update(
                h,
                NodeView { parent: Some(j), frame: nodes[h].frame },
            );
            &&& chain_ok(relinked, i, k)
            &&& chain_at(relinked, i, k) == chain_at(nodes, i, k)
        }),
    decreases k,
{
    if k > 0 {
        lemma_chain_relink(nodes, nodes[i].parent->0 as int, k - 1, h, j);
    }
}

/// Two chains joined by one parent step form one chain, ending where
/// the upper one ends.
pub proof fn lemma_chain_concat(nodes: Seq<NodeView>, i: int, k1: int, k2: int)
    requires
        k1 >= 0,
        k2 >= 0,
        chain_ok(nodes, i, k1),
        nodes[chain_at(nodes, i, k1)].parent is Some,
        nodes[chain_at(nodes, i, k1)].parent->0 < chain_at(nodes, i, k1),
        chain_ok(nodes, nodes[chain_at(nodes, i, k1)].parent->0 as int, k2),
    ensures
        chain_ok(nodes, i, k1 + 1 + k2),
        chain_at(nodes, i, k1 + 1 + k2) == chain_at(
            nodes,
            nodes[chain_at(nodes, i, k1)].parent->0 as int,
            k2,
        ),
    decreases k1,
{
    if k1 > 0 {
        lemma_chain_concat(nodes, nodes[i].parent->0 as int, k1 - 1, k2);
    }
}

/// Where a chain ends: inside the arena, no higher than it starts.
pub proof fn lemma_chain_at_in_bounds(nodes: Seq<NodeView>, i: int, k: int)
    requires
        chain_ok(nodes, i, k),
        k >= 0,
    ensures
        0 <= chain_at(nodes, i, k) <= i,
        chain_at(nodes, i, k) < nodes.len(),
    decreases k,
{
    if k > 0 {
        lemma_chain_at_in_bounds(nodes, nodes[i].parent->0 as int, k - 1);
    }
}

/// An environment handle survives a relink of a parentless node.
pub proof fn lemma_env_wf_relink(e: Environment, nodes: Seq<NodeView>, h: int, j: usize)
    requires
        env_wf(e, nodes),
        0 <= h < nodes.len(),
        nodes[h].parent is None,
    ensures
        env_wf(e, nodes.update(h, NodeView { parent: Some(j), frame: nodes[h].frame })),
{
    lemma_chain_relink(nodes, e.tail as int, e.len - 1, h, j);
}

/// A value survives a relink of a parentless node.
pub proof fn lemma_val_wf_relink(v: ValView, nodes: Seq<NodeView>, h: int, j: usize)
    requires
        val_wf(v, nodes),
        0 <= h < nodes.len(),
        nodes[h].parent is None,
    ensures
        val_wf(v, nodes.update(h, NodeView { parent: Some(j), frame: nodes[h].frame })),
    decreases v,
{
    match v {
        ValView::Pointer(p) => lemma_val_wf_relink(*p, nodes, h, j),
        ValView::Lambda(_, e) => lemma_env_wf_relink(e, nodes, h, j),
        ValView::Pair(a, b) => {
            lemma_val_wf_relink(*a, nodes, h, j);
            lemma_val_wf_relink(*b, nodes, h, j);
        },
        _ => {},
    }
}

/// What a frame lookup finds in a well-formed frame is well-formed.
pub proof fn lemma_frame_get_wf(f: Seq<(IdentID, ValView)>, nodes: Seq<NodeView>, id: IdentID)
    requires
        frame_wf(f, nodes),
        frame_get(f, id) is Some,
    ensures
        val_wf(frame_get(f, id)->0, nodes),
    decreases f.len(),
{
    if f.len() > 0 {
        if f.last().0 == id {
            assert(f[f.len() - 1].1 == f.last().1);
        } else {
            assert(forall|i: int|
                0 <= i < f.len() - 1 ==> f.drop_last()[i] == f[i]);
            lemma_frame_get_wf(f.drop_last(), nodes, id);
        }
    }
}

/// What a chain lookup finds in a well-formed store is well-formed.
pub proof fn lemma_lookup_wf(s: StoreView, i: int, id: IdentID)
    requires
        store_wf(s),
        lookup(s.nodes, i, id) is Some,
    ensures
        val_wf(lookup(s.nodes, i, id)->0, s.nodes),
    decreases i,
{
    if 0 <= i < s.nodes.len() {
        if frame_get(s.nodes[i].frame, id) is Some {
            lemma_frame_get_wf(s.nodes[i].frame, s.nodes, id);
        } else {
            match s.nodes[i].parent {
                Some(p) => {
                    if p < i {
                        lemma_lookup_wf(s, p as int, id);
                    }
                },
                None => {},
            }
        }
    }
}

/// Whether every parent link in the arena points strictly downwards.
pub open spec fn nodes_ranked(nodes: Seq<NodeView>) -> bool {
    forall|i: int|
        0 <= i < nodes.len() ==> (#[trigger] nodes[i].parent is Some ==> nodes[i].parent->0 < i)
}

/// The environment and arena that pushing a fresh frame yields.
pub open spec fn pushed_frame(e: Environment, nodes: Seq<NodeView>) -> (Environment, Seq<
    NodeView,
>) {
    (
        Environment { head: e.head, tail: nodes.len() as usize, len: (e.len + 1) as usize },
        nodes.push(NodeView { parent: Some(e.tail), frame: Seq::empty() }),
    )
}

/// The environment that popping the tail frame yields; popping the
/// sole frame fails.
pub open spec fn popped_frame(e: Environment, nodes: Seq<NodeView>) -> Result<Environment, Error> {
    if e.len == 1 {
        Err(Error::IllegalStackPop)
    } else {
        Ok(
            Environment {
                head: e.head,
                tail: nodes[e.tail as int].parent->0,
                len: (e.len - 1) as usize,
            },
        )
    }
}

/// The arena that binding `id` to `v` in the frame of node `tail`
/// yields.
pub open spec fn defined(nodes: Seq<NodeView>, tail: int, id: IdentID, v: ValView) -> Seq<
    NodeView,
> {
    nodes.update(
        tail,
        NodeView { parent: nodes[tail].parent, frame: nodes[tail].frame.push((id, v)) },
    )
}

/// The id for a source name: the latest association wins.
pub open spec fn str_lookup(tab: Seq<(Seq<char>, IdentID)>, name: Seq<char>) -> Option<IdentID>
    decreases tab.len(),
{
    if tab.len() == 0 {
        None
    } else if tab.last().0 == name {
        Some(tab.last().1)
    } else {
        str_lookup(tab.drop_last(), name)
    }
}

/// The largest id bound across the frames an environment owns.
pub open spec fn env_max(e: Environment, nodes: Seq<NodeView>) -> Option<IdentID> {
    chain_max(nodes, e.tail as int, e.len - 1)
}

/// The id that a fresh allocation returns: one above the largest
/// bound id, or one above zero where nothing is bound.
pub open spec fn next_ident(e: Environment, nodes: Seq<NodeView>) -> IdentID {
    (match env_max(e, nodes) {
        None => 0,
        Some(m) => m as int,
    } + 1) as IdentID
}

/// Law: popping the frame that a push created restores the original
/// environment handle exactly — the same head, the same tail, and the
/// same length.
pub proof fn lemma_pop_after_new_frame(e: Environment, nodes: Seq<NodeView>)
    requires
        env_wf(e, nodes),
        nodes.len() < usize::MAX,
    ensures
        ({
            let (e2, nodes2) = pushed_frame(e, nodes);
            &&& env_wf(e2, nodes2)
            &&& popped_frame(e2, nodes2) == Ok::<Environment, Error>(e)
        }),
{
    let (e2, nodes2) = pushed_frame(e, nodes);
    lemma_chain_bound(nodes, e.tail as int, e.len - 1);
    lemma_chain_extend(nodes, nodes2, e.tail as int, e.len - 1);
    assert(chain_at(nodes2, e2.tail as int, e2.len - 1) == chain_at(
        nodes2,
        e.tail as int,
        e.len - 1,
    ));
}

/// Law: for any id, a lookup through an environment right after
/// binding that id in its tail frame finds exactly the value bound,
/// and hands it out structurally unchanged behind a pointer.
pub proof fn lemma_get_after_define(e: Environment, nodes: Seq<NodeView>, id: IdentID, v: ValView)
    requires
        env_wf(e, nodes),
    ensures
        ({
            let nodes2 = defined(nodes, e.tail as int, id, v);
            &&& lookup(nodes2, e.tail as int, id) == Some(v)
            &&& crate::data::struct_eq(wrapped(v), v)
        }),
{
    let nodes2 = defined(nodes, e.tail as int, id, v);
    assert(nodes2[e.tail as int].frame.last() == (id, v));
    crate::data::lemma_struct_eq_reflexive(v);
    crate::data::lemma_struct_eq_unwrap(wrapped(v), v);
    crate::data::lemma_struct_eq_unwrap(v, v);
}

/// The ids a chain binds are untouched by an update above its start.
pub proof fn lemma_chain_max_update_above(
    nodes: Seq<NodeView>,
    i: int,
    k: int,
    h: int,
    nv: NodeView,
)
    requires
        chain_ok(nodes, i, k),
        i < h < nodes.len(),
    ensures
        chain_max(nodes.update(h, nv), i, k) == chain_max(nodes, i, k),
    decreases k,
{
    if k > 0 {
        lemma_chain_max_update_above(nodes, nodes[i].parent->0 as int, k - 1, h, nv);
    }
}

/// After binding `id` in the tail frame, the largest bound id of the
/// environment is the larger of the old largest and `id`.
pub proof fn lemma_env_max_after_define(
    e: Environment,
    nodes: Seq<NodeView>,
    id: IdentID,
    v: ValView,
)
    requires
        env_wf(e, nodes),
    ensures
        env_max(e, defined(nodes, e.tail as int, id, v)) == opt_id_max(
            env_max(e, nodes),
            Some(id),
        ),
{
    let nodes2 = defined(nodes, e.tail as int, id, v);
    let t = e.tail as int;
    assert(nodes2[t].frame =~= nodes[t].frame.push((id, v)));
    assert(nodes2[t].frame.drop_last() =~= nodes[t].frame);
    assert(frame_max(nodes2[t].frame) == opt_id_max(frame_max(nodes[t].frame), Some(id)));
    if e.len > 1 {
        let p = nodes[t].parent->0 as int;
        lemma_chain_max_update_above(
            nodes,
            p,
            e.len - 2,
            t,
            nodes2[t],
        );
        assert(chain_max(nodes2, p, e.len - 2) == chain_max(nodes, p, e.len - 2));
    }
}

/// Binding a well-formed value keeps the store well-formed; no
/// parent link moves.
pub proof fn lemma_store_wf_define(s: StoreView, tail: int, id: IdentID, v: ValView)
    requires
        store_wf(s),
        0 <= tail < s.nodes.len(),
        val_wf(v, s.nodes),
    ensures
        ({
            let nodes2 = defined(s.nodes, tail, id, v);
            &&& nodes_extend(s.nodes, nodes2)
            &&& store_wf(StoreView { nodes: nodes2, ..s })
        }),
{
    let nodes2 = defined(s.nodes, tail, id, v);
    assert forall|i: int| 0 <= i < nodes2.len() implies frame_wf(
        #[trigger] nodes2[i].frame,
        nodes2,
    ) by {
        assert forall|j: int| 0 <= j < nodes2[i].frame.len() implies val_wf(
            #[trigger] nodes2[i].frame[j].1,
            nodes2,
        ) by {
            if i == tail && j == nodes2[i].frame.len() - 1 {
                lemma_val_wf_extend(v, s.nodes, nodes2);
            } else {
                assert(nodes2[i].frame[j] == s.nodes[i].frame[j]);
                assert(val_wf(s.nodes[i].frame[j].1, s.nodes));
                lemma_val_wf_extend(s.nodes[i].frame[j].1, s.nodes, nodes2);
            }
        }
    }
    assert forall|i: int| 0 <= i < s.consts.len() implies val_wf(
        #[trigger] s.consts[i],
        nodes2,
    ) by {
        lemma_val_wf_extend(s.consts[i], s.nodes, nodes2);
    }
}

/// Appending a fresh node whose parent, if any, lies inside the old
/// arena keeps the store well-formed.
pub proof fn lemma_store_wf_push_node(s: StoreView, parent: Option<usize>)
    requires
        store_wf(s),
        match parent {
            Some(p) => p < s.nodes.len(),
            None => true,
        },
    ensures
        ({
            let nodes2 = s.nodes.push(NodeView { parent, frame: Seq::empty() });
            &&& nodes_extend(s.nodes, nodes2)
            &&& store_wf(StoreView { nodes: nodes2, ..s })
        }),
{
    let nodes2 = s.nodes.push(NodeView { parent, frame: Seq::empty() });
    assert forall|i: int| 0 <= i < nodes2.len() implies frame_wf(
        #[trigger] nodes2[i].frame,
        nodes2,
    ) by {
        if i < s.nodes.len() {
            assert forall|j: int| 0 <= j < nodes2[i].frame.len() implies val_wf(
                #[trigger] nodes2[i].frame[j].1,
                nodes2,
            ) by {
                assert(val_wf(s.nodes[i].frame[j].1, s.nodes));
                lemma_val_wf_extend(s.nodes[i].frame[j].1, s.nodes, nodes2);
            }
        }
    }
    assert forall|i: int| 0 <= i < s.consts.len() implies val_wf(
        #[trigger] s.consts[i],
        nodes2,
    ) by {
        lemma_val_wf_extend(s.consts[i], s.nodes, nodes2);
    }
}

/// Appending a well-formed constant keeps the store well-formed.
pub proof fn lemma_store_wf_push_const(s: StoreView, v: ValView)
    requires
        store_wf(s),
        val_wf(v, s.nodes),
    ensures
        store_wf(StoreView { consts: s.consts.push(v), ..s }),
{
}

impl Frame {
    /// An empty scope.
    pub fn new() -> (r: Frame)
        ensures
            r@ == Seq::<(IdentID, ValView)>::empty(),
    {
        let r = Frame { vars: Vec::new() };
        proof {
            assert(r@ =~= Seq::<(IdentID, ValView)>::empty());
        }
        r
    }

    /// Binds `id` to `val`, shadowing any earlier binding for `id` in
    /// this frame.
    pub fn define(&mut self, id: IdentID, val: MemData)
        ensures
            final(self)@ == old(self)@.push((id, val@)),
    {
        let ghost pre = self@;
        self.vars.push((id, val));
        proof {
            assert(self@ =~= pre.push((id, val@)));
        }
    }

    /// The binding for `id`, shared as a pointer; the latest binding
    /// wins.
    pub fn get(&self, id: &IdentID) -> (r: Option<MemData>)
        ensures
            match r {
                Some(v) => frame_get(self@, *id) is Some && v@ == wrapped(
                    frame_get(self@, *id)->0,
                ),
                None => frame_get(self@, *id) is None,
            },
    {
        let mut i: usize = self.vars.len();
        proof {
            assert(self@.take(i as int) =~= self@);
        }
        while i > 0
            invariant
                i <= self.vars@.len(),
                self@.len() == self.vars@.len(),
                frame_get(self@, *id) == frame_get(self@.take(i as int), *id),
            decreases i,
        {
            i = i - 1;
            proof {
                assert(self@.take(i + 1).drop_last() =~= self@.take(i as int));
                assert(self@.take(i + 1).last() == self@[i as int]);
                assert(self@[i as int].0 == self.vars@[i as int].0);
            }
            if self.vars[i].0 == *id {
                let v = self.vars[i].1.clone();
                return Some(MemData::create_pointer(v));
            }
        }
        None
    }

    /// The largest id bound in this frame.
    pub fn max_id(&self) -> (r: Option<IdentID>)
        ensures
            r == frame_max(self@),
    {
        let mut best: Option<IdentID> = None;
        let mut i: usize = 0;
        proof {
            assert(self@.take(0) =~= Seq::<(IdentID, ValView)>::empty());
        }
        while i < self.vars.len()
            invariant
                i <= self.vars@.len(),
                self@.len() == self.vars@.len(),
                best == frame_max(self@.take(i as int)),
            decreases self.vars@.len() - i,
        {
            proof {
                assert(self@.take(i + 1).drop_last() =~= self@.take(i as int));
                assert(self@.take(i + 1).last() == self@[i as int]);
                assert(self@[i as int].0 == self.vars@[i as int].0);
            }
            let id = self.vars[i].0;
            best = match best {
                None => Some(id),
                Some(m) => Some(if m >= id {
                    m
                } else {
                    id
                }),
            };
            i = i + 1;
        }
        proof {
            assert(self@.take(self@.len() as int) =~= self@);
        }
        best
    }
}

impl EnvNode {
    /// A fresh node with an empty frame and no parent.
    pub fn new() -> (r: EnvNode)
        ensures
            r@ == (NodeView { parent: None, frame: Seq::<(IdentID, ValView)>::empty() }),
    {
        EnvNode { parent: None, frame: Frame::new() }
    }
}

impl Environment {
    /// A fresh environment: a single empty frame, with head and tail
    /// both at it.
    pub fn new(store: &mut Store) -> (e: Environment)
        ensures
            final(store)@.nodes == old(store)@.nodes.push(
                NodeView { parent: None, frame: Seq::empty() },
            ),
            final(store)@.consts == old(store)@.consts,
            final(store)@.var_strings == old(store)@.var_strings,
            e == (Environment {
                head: old(store)@.nodes.len() as usize,
                tail: old(store)@.nodes.len() as usize,
                len: 1,
            }),
            env_wf(e, final(store)@.nodes),
    {
        let idx = store.nodes.len();
        store.nodes.push(EnvNode::new());
        proof {
            assert(final(store)@.nodes =~= old(store)@.nodes.push(
                NodeView { parent: None, frame: Seq::empty() },
            ));
        }
        Environment { head: idx, tail: idx, len: 1 }
    }

    /// Splices `other`'s whole chain onto this environment's tail:
    /// `other`'s head is linked to this tail, and both environments
    /// share every spliced frame thereafter.  `other`'s head must be
    /// a root (no parent yet), created after this tail.
    pub fn append(&mut self, store: &mut Store, other: Environment)
        requires
            env_wf(*old(self), old(store)@.nodes),
            env_wf(other, old(store)@.nodes),
            old(store)@.nodes[other.head as int].parent is None,
            old(self).tail < other.head,
            old(self).len + other.len <= usize::MAX,
        ensures
            final(store)@.nodes == old(store)@.nodes.update(
                other.head as int,
                NodeView {
                    parent: Some(old(self).tail),
                    frame: old(store)@.nodes[other.head as int].frame,
                },
            ),
            final(store)@.consts == old(store)@.consts,
            final(store)@.var_strings == old(store)@.var_strings,
            *final(self) == (Environment {
                head: old(self).head,
                tail: other.tail,
                len: (old(self).len + other.len) as usize,
            }),
            env_wf(*final(self), final(store)@.nodes),
    {
        let old_tail = self.tail;
        proof {
            lemma_chain_at_in_bounds(old(store)@.nodes, other.tail as int, other.len - 1);
        }
        store.nodes[other.head].parent = Some(old_tail);
        proof {
            let pre = old(store)@.nodes;
            let post = pre.update(
                other.head as int,
                NodeView { parent: Some(old_tail), frame: pre[other.head as int].frame },
            );
            assert(final(store)@.nodes =~= post);
            lemma_chain_relink(pre, other.tail as int, other.len - 1, other.head as int, old_tail);
            lemma_chain_update_above(
                pre,
                self.tail as int,
                self.len - 1,
                other.head as int,
                NodeView { parent: Some(old_tail), frame: pre[other.head as int].frame },
            );
            assert(chain_at(post, other.tail as int, other.len - 1) == other.head);
            lemma_chain_concat(post, other.tail as int, other.len - 1, self.len - 1);
        }
        self.len = self.len + other.len;
        self.tail = other.tail;
    }

    /// Appends a fresh empty frame at the tail; the new frame's
    /// parent is the previous tail.
    pub fn new_frame(&mut self, store: &mut Store)
        requires
            env_wf(*old(self), old(store)@.nodes),
        ensures
            ({
                let (e2, nodes2) = pushed_frame(*old(self), old(store)@.nodes);
                &&& *final(self) == e2
                &&& final(store)@.nodes == nodes2
            }),
            final(store)@.consts == old(store)@.consts,
            final(store)@.var_strings == old(store)@.var_strings,
            env_wf(*final(self), final(store)@.nodes),
    {
        let idx = store.nodes.len();
        let mut node = EnvNode::new();
        node.parent = Some(self.tail);
        store.nodes.push(node);
        let grown = store.nodes.len();
        proof {
            let (e2, nodes2) = pushed_frame(*self, old(store)@.nodes);
            assert(final(store)@.nodes =~= nodes2);
            lemma_chain_bound(old(store)@.nodes, self.tail as int, self.len - 1);
            lemma_chain_extend(old(store)@.nodes, nodes2, self.tail as int, self.len - 1);
            assert(self.len <= self.tail + 1 < grown);
        }
        self.tail = idx;
        self.len = self.len + 1;
    }

    /// Detaches the tail frame, promoting its parent; fails with
    /// [`Error::IllegalStackPop`] on an environment of one frame.
    /// The arena is untouched, so snapshots of the popped frame stay
    /// valid.
    pub fn pop_frame(&mut self, store: &Store) -> (r: Result<(), Error>)
        requires
            env_wf(*old(self), store@.nodes),
        ensures
            match popped_frame(*old(self), store@.nodes) {
                Ok(e2) => {
                    &&& r is Ok
                    &&& *final(self) == e2
                    &&& env_wf(e2, store@.nodes)
                },
                Err(er) => {
                    &&& r == Err::<(), Error>(er)
                    &&& *final(self) == *old(self)
                },
            },
    {
        if self.len == 1 {
            return Err(Error::IllegalStackPop);
        }
        let p = match store.nodes[self.tail].parent {
            Some(p) => p,
            None => {
                proof {
                    assert(false);
                }
                0
            },
        };
        self.tail = p;
        self.len = self.len - 1;
        Ok(())
    }

    /// Binds `id` to `val` in the tail frame, shadowing any earlier
    /// binding for that id in the tail only.
    pub fn define(&self, store: &mut Store, ident: IdentID, val: MemData) -> (r: Result<
        (),
        Error,
    >)
        requires
            env_wf(*self, old(store)@.nodes),
        ensures
            r is Ok,
            final(store)@.nodes == defined(old(store)@.nodes, self.tail as int, ident, val@),
            final(store)@.consts == old(store)@.consts,
            final(store)@.var_strings == old(store)@.var_strings,
    {
        store.nodes[self.tail].frame.define(ident, val);
        proof {
            assert(final(store)@.nodes =~= defined(
                old(store)@.nodes,
                self.tail as int,
                ident,
                val@,
            ));
        }
        Ok(())
    }

    /// Resolves `ident` against the chain, walking tail-to-parent to
    /// its end; the binding comes out shared behind a pointer.
    pub fn get(&self, store: &Store, ident: &IdentID) -> (r: Result<MemData, Error>)
        requires
            env_wf(*self, store@.nodes),
            nodes_ranked(store@.nodes),
        ensures
            match lookup(store@.nodes, self.tail as int, *ident) {
                Some(v) => r is Ok && (r->Ok_0)@ == wrapped(v),
                None => r == Err::<MemData, Error>(Error::VariableNotFound(0, *ident)),
            },
    {
        let mut i: usize = self.tail;
        loop
            invariant
                i < store@.nodes.len(),
                nodes_ranked(store@.nodes),
                lookup(store@.nodes, self.tail as int, *ident) == lookup(
                    store@.nodes,
                    i as int,
                    *ident,
                ),
            decreases i,
        {
            match store.nodes[i].frame.get(ident) {
                Some(v) => {
                    return Ok(v);
                },
                None => {},
            }
            match store.nodes[i].parent {
                Some(p) => {
                    i = p;
                },
                None => {
                    return Err(Error::VariableNotFound(0, *ident));
                },
            }
        }
    }

    /// The largest id bound across the frames this environment owns,
    /// head to tail.
    pub fn max_id(&self, store: &Store) -> (r: Option<IdentID>)
        requires
            env_wf(*self, store@.nodes),
        ensures
            r == env_max(*self, store@.nodes),
    {
        chain_max_from(store, self.tail, self.len - 1)
    }

    /// Shares the constant at `constid` out of the pool, behind a
    /// pointer; fails with [`Error::ConstantNotFound`] out of range.
    pub fn get_const(&self, store: &Store, constid: &ConstID) -> (r: Result<MemData, Error>)
        ensures
            if (*constid as int) < store@.consts.len() {
                r is Ok && (r->Ok_0)@ == wrapped(store@.consts[*constid as int])
            } else {
                r == Err::<MemData, Error>(Error::ConstantNotFound(*constid))
            },
    {
        let idx = *constid as usize;
        if idx < store.consts.len() {
            let v = store.consts[idx].clone();
            Ok(MemData::create_pointer(v))
        } else {
            Err(Error::ConstantNotFound(*constid))
        }
    }

    /// Appends a value to the constants pool; returns its index.
    pub fn load_const(&self, store: &mut Store, val: MemData) -> (cid: usize)
        ensures
            final(store)@.consts == old(store)@.consts.push(val@),
            final(store)@.nodes == old(store)@.nodes,
            final(store)@.var_strings == old(store)@.var_strings,
            cid == old(store)@.consts.len(),
    {
        let cid = store.consts.len();
        store.consts.push(val);
        proof {
            assert(final(store)@.consts =~= old(store)@.consts.push(val@));
        }
        cid
    }

    /// The index of the newest constant, if any.
    pub fn max_const_id(&self, store: &Store) -> (r: Option<usize>)
        ensures
            r == (if store@.consts.len() == 0 {
                Option::<usize>::None
            } else {
                Some((store@.consts.len() - 1) as usize)
            }),
    {
        let len = store.consts.len();
        if len == 0 {
            None
        } else {
            Some(len - 1)
        }
    }

    /// Allocates a fresh id, one above every id bound in this
    /// environment; binds `var_str` to it when a name is given.
    pub fn new_ident_id(&self, store: &mut Store, var_str: Option<String>) -> (id: IdentID)
        requires
            env_wf(*self, old(store)@.nodes),
            match env_max(*self, old(store)@.nodes) {
                Some(m) => m < IdentID::MAX,
                None => true,
            },
        ensures
            id == next_ident(*self, old(store)@.nodes),
            final(store)@.nodes == old(store)@.nodes,
            final(store)@.consts == old(store)@.consts,
            final(store)@.var_strings == (match var_str {
                Some(s) => old(store)@.var_strings.push((s@, id)),
                None => old(store)@.var_strings,
            }),
    {
        let id = match self.max_id(store) {
            None => 0,
            Some(m) => m,
        } + 1;
        match var_str {
            Some(s) => {
                self.bind_var_string(store, s, id);
            },
            None => {},
        }
        id
    }

    /// Associates the source name `s` with `id`, shadowing any
    /// earlier association for that name.
    pub fn bind_var_string(&self, store: &mut Store, s: String, id: IdentID)
        ensures
            final(store)@.var_strings == old(store)@.var_strings.push((s@, id)),
            final(store)@.nodes == old(store)@.nodes,
            final(store)@.consts == old(store)@.consts,
    {
        let ghost name = s@;
        store.var_strings.push((s, id));
        proof {
            assert(final(store)@.var_strings =~= old(store)@.var_strings.push((name, id)));
        }
    }

    /// The current id for a source name, if any.
    pub fn get_ident(&self, store: &Store, s: &String) -> (r: Option<IdentID>)
        ensures
            r == str_lookup(store@.var_strings, s@),
    {
        let mut i: usize = store.var_strings.len();
        proof {
            assert(store@.var_strings.take(i as int) =~= store@.var_strings);
        }
        while i > 0
            invariant
                i <= store@.var_strings.len(),
                store@.var_strings.len() == store.var_strings@.len(),
                str_lookup(store@.var_strings, s@) == str_lookup(
                    store@.var_strings.take(i as int),
                    s@,
                ),
            decreases i,
        {
            i = i - 1;
            proof {
                assert(store@.var_strings.take(i + 1).drop_last() =~= store@.var_strings.take(
                    i as int,
                ));
                assert(store@.var_strings.take(i + 1).last() == store@.var_strings[i as int]);
            }
            if store.var_strings[i].0 == *s {
                return Some(store.var_strings[i].1);
            }
        }
        None
    }
}

impl Environment {
    /// Whether this handle denotes a real chain in the arena: the
    /// executable mirror of [`env_wf`].
    pub fn check_wf(&self, store: &Store) -> (r: bool)
        ensures
            r == env_wf(*self, store@.nodes),
    {
        if self.len < 1 {
            return false;
        }
        let mut i: usize = self.tail;
        let mut k: usize = self.len - 1;
        while k > 0
            invariant
                env_wf(*self, store@.nodes) == (chain_ok(store@.nodes, i as int, k as int)
                    && self.head == chain_at(store@.nodes, i as int, k as int)),
            decreases k,
        {
            if i >= store.nodes.len() {
                return false;
            }
            match store.nodes[i].parent {
                Some(p) => {
                    if p >= i {
                        return false;
                    }
                    i = p;
                    k = k - 1;
                },
                None => {
                    return false;
                },
            }
        }
        i < store.nodes.len() && self.head == i
    }
}

/// Whether every environment reachable inside a value denotes a real
/// chain in the arena: the executable mirror of [`val_wf`].
pub fn check_val_wf(v: &MemData, store: &Store) -> (r: bool)
    ensures
        r == val_wf(v@, store@.nodes),
    decreases v,
{
    match v {
        MemData::Pointer(p) => check_val_wf(&**p, store),
        MemData::Lambda(_, e) => e.check_wf(store),
        MemData::Pair { car, cdr } => check_val_wf(&**car, store) && check_val_wf(
            &**cdr,
            store,
        ),
        _ => true,
    }
}

/// The largest id bound in the `k + 1` frames from node `i` up:
/// the executable mirror of [`chain_max`].
fn chain_max_from(store: &Store, i: usize, k: usize) -> (r: Option<IdentID>)
    requires
        chain_ok(store@.nodes, i as int, k as int),
    ensures
        r == chain_max(store@.nodes, i as int, k as int),
    decreases k,
{
    let fm = store.nodes[i].frame.max_id();
    if k == 0 {
        fm
    } else {
        let p = match store.nodes[i].parent {
            Some(p) => p,
            None => {
                proof {
                    assert(false);
                }
                0
            },
        };
        let rest = chain_max_from(store, p, k - 1);
        match (fm, rest) {
            (None, y) => y,
            (Some(x), None) => Some(x),
            (Some(x), Some(y)) => Some(
                if x >= y {
                    x
                } else {
                    y
                },
            ),
        }
    }
}

impl Store {
    /// How many constants the pool holds.
    pub fn const_count(&self) -> (n: usize)
        ensures
            n == self@.consts.len(),
    {
        self.consts.len()
    }

    /// An empty store: no frames, no constants, no names.
    pub fn new() -> (r: Store)
        ensures
            r@.nodes == Seq::<NodeView>::empty(),
            r@.consts == Seq::<ValView>::empty(),
            r@.var_strings == Seq::<(Seq<char>, IdentID)>::empty(),
    {
        let r = Store { nodes: Vec::new(), consts: Vec::new(), var_strings: Vec::new() };
        proof {
            assert(r@.nodes =~= Seq::<NodeView>::empty());
            assert(r@.consts =~= Seq::<ValView>::empty());
            assert(r@.var_strings =~= Seq::<(Seq<char>, IdentID)>::empty());
        }
        r
    }
}

} // verus!
