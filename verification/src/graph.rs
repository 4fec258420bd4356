//! The expression graph and the backward engine.
//!
//! Nodes live in an arena and refer to their operands by index; every
//! operand index is strictly smaller than the index of the node it feeds, so
//! the graph is acyclic by construction and descending index order is a
//! reverse topological order: a node is processed before any of its
//! operands.  The backward pass exploits this: it marks the subgraph
//! reachable from the root, seeds the root's gradient with one, and then
//! walks the indices downward, distributing each marked node's (by then
//! final) gradient to its operands additively.  The whole pass is computed
//! into a scratch vector first and committed to the graph only when every
//! intermediate result was representable, so a failed pass mutates nothing.

use vstd::prelude::*;

use crate::operations::{ASexualOperation, ReproductionMethod, SexualOperation};
use crate::rat::{
    rat_abs, rat_add, rat_div, rat_in_i64, rat_in_unit, rat_le, rat_mul, rat_neg, rat_one,
    rat_sub, rat_tanh, rat_tanh_fits, rat_wf, rat_zero, rat64_add, rat64_div, rat64_mul,
    rat64_neg, rat64_one, rat64_sub, rat64_tanh, rat64_zero, Rat, Rat64,
};

verus! {

broadcast use vstd::seq_lib::lemma_seq_contains_after_push;

/// How a failing operation reports itself.
#[derive(Clone, Copy, PartialEq, Eq, Structural, Debug)]
pub enum EngineError {
    /// A divisor whose datum is exactly zero.
    DivisionByZero,
    /// An exact result whose components do not fit the representation.
    Overflow,
}

/// A scalar cell: an immutable datum and a gradient accumulator.
#[derive(Clone, Copy)]
pub struct Value {
    pub data: Rat64,
    pub grad: Rat64,
}

impl Value {
    /// A fresh cell holds the given datum and a zero gradient.
    pub fn new(data: Rat64) -> (v: Value)
        ensures
            v.data == data,
            v.grad@ == rat_zero(),
    {
        Value { data, grad: rat64_zero() }
    }
}

/// One node of the expression graph: a scalar cell plus the lineage that
/// produced it.
#[derive(Clone, Copy)]
pub struct Node {
    pub value: Value,
    pub lineage: Option<ReproductionMethod<usize>>,
}

/// The lineage of node `i` may only reference strictly earlier nodes, and a
/// tanh node's datum always lies in [-1, 1].
pub open spec fn lineage_wf(nodes: Seq<Node>, i: int) -> bool {
    match nodes[i].lineage {
        None => true,
        Some(ReproductionMethod::Asexual(op, p)) => {
            &&& (p as int) < i
            &&& (op == ASexualOperation::Tanh ==> rat_in_unit(nodes[i].value.data@))
        },
        Some(ReproductionMethod::Sexual(_op, a, b)) => (a as int) < i && (b as int) < i,
    }
}

pub open spec fn node_wf(nodes: Seq<Node>, i: int) -> bool {
    &&& rat_wf(nodes[i].value.data@)
    &&& rat_wf(nodes[i].value.grad@)
    &&& lineage_wf(nodes, i)
}

pub open spec fn graph_wf(nodes: Seq<Node>) -> bool {
    forall|i: int| 0 <= i < nodes.len() ==> #[trigger] node_wf(nodes, i)
}

// ---------------------------------------------------------------------------
// Reachability: which nodes the backward pass touches.
// ---------------------------------------------------------------------------

/// If node `j` is marked, mark its operands.
pub open spec fn mark_step(nodes: Seq<Node>, marks: Seq<bool>, j: int) -> Seq<bool> {
    if marks[j] {
        match nodes[j].lineage {
            None => marks,
            Some(ReproductionMethod::Asexual(_op, p)) => marks.update(p as int, true),
            Some(ReproductionMethod::Sexual(_op, a, b)) => marks.update(
                a as int,
                true,
            ).update(b as int, true),
        }
    } else {
        marks
    }
}

/// Walk `j, j - 1, ..., 0`, marking operands of marked nodes.  Operand
/// indices are strictly decreasing along lineage edges, so one descending
/// sweep reaches the whole ancestry.
pub open spec fn mark_sweep(nodes: Seq<Node>, marks: Seq<bool>, j: int) -> Seq<bool>
    decreases j + 1,
{
    if j < 0 {
        marks
    } else {
        mark_sweep(nodes, mark_step(nodes, marks, j), j - 1)
    }
}

/// The initial marks: only `root` is marked.
pub open spec fn seed_marks(len: nat, root: int) -> Seq<bool> {
    Seq::new(len, |i: int| i == root)
}

/// The marks left by a sweep that starts with only `root` marked.
pub open spec fn reach_marks(nodes: Seq<Node>, root: int) -> Seq<bool> {
    mark_sweep(nodes, seed_marks(nodes.len(), root), root)
}

/// Whether node `i` is an ancestor of `root` (or `root` itself) through
/// lineage edges.
pub open spec fn reachable(nodes: Seq<Node>, root: int, i: int) -> bool {
    reach_marks(nodes, root)[i]
}

/// Whether the lineage of node `j` is safe to differentiate: a quotient
/// needs a divisor whose datum is nonzero.
pub open spec fn div_safe_at(nodes: Seq<Node>, j: int) -> bool {
    match nodes[j].lineage {
        Some(ReproductionMethod::Sexual(op, _a, b)) => op == SexualOperation::Div
            ==> nodes[b as int].value.data@.0 != 0,
        _ => true,
    }
}

/// Whether some node the backward pass would touch divides by a zero datum.
pub open spec fn has_reachable_div_zero(nodes: Seq<Node>, root: int) -> bool {
    exists|j: int|
        0 <= j < nodes.len() && #[trigger] reachable(nodes, root, j) && !div_safe_at(nodes, j)
}

// ---------------------------------------------------------------------------
// The local derivative rules (the operation catalogue's backward half).
// ---------------------------------------------------------------------------

/// The contribution a unary node with datum `own` sends to its operand with
/// datum `parent`, given the node's final upstream gradient `u`.
pub open spec fn unary_delta(op: ASexualOperation, own: Rat, parent: Rat, u: Rat) -> Rat {
    match op {
        ASexualOperation::Relu => if parent.0 > 0 {
            u
        } else {
            rat_zero()
        },
        ASexualOperation::Tanh => rat_mul(u, rat_sub(rat_one(), rat_mul(own, own))),
        ASexualOperation::Neg => rat_neg(u),
    }
}

/// The contribution a binary node sends to its left operand.
pub open spec fn left_delta(op: SexualOperation, da: Rat, db: Rat, u: Rat) -> Rat {
    match op {
        SexualOperation::Add => u,
        SexualOperation::Sub => u,
        SexualOperation::Mul => rat_mul(u, db),
        SexualOperation::Div => rat_div(u, db),
    }
}

/// The contribution a binary node sends to its right operand.
pub open spec fn right_delta(op: SexualOperation, da: Rat, db: Rat, u: Rat) -> Rat {
    match op {
        SexualOperation::Add => u,
        SexualOperation::Sub => rat_neg(u),
        SexualOperation::Mul => rat_mul(u, da),
        SexualOperation::Div => rat_neg(rat_div(rat_mul(u, da), rat_mul(db, db))),
    }
}

/// Whether every intermediate of the unary contribution is representable.
pub open spec fn unary_delta_fits(op: ASexualOperation, own: Rat, u: Rat) -> bool {
    match op {
        ASexualOperation::Relu => true,
        ASexualOperation::Tanh => {
            &&& rat_in_i64(rat_mul(own, own))
            &&& rat_in_i64(rat_sub(rat_one(), rat_mul(own, own)))
            &&& rat_in_i64(rat_mul(u, rat_sub(rat_one(), rat_mul(own, own))))
        },
        ASexualOperation::Neg => rat_in_i64(rat_neg(u)),
    }
}

/// Whether every intermediate of the left contribution is representable.
pub open spec fn left_delta_fits(op: SexualOperation, db: Rat, u: Rat) -> bool {
    match op {
        SexualOperation::Add => true,
        SexualOperation::Sub => true,
        SexualOperation::Mul => rat_in_i64(rat_mul(u, db)),
        SexualOperation::Div => rat_in_i64(rat_div(u, db)),
    }
}

/// Whether every intermediate of the right contribution is representable.
pub open spec fn right_delta_fits(op: SexualOperation, da: Rat, db: Rat, u: Rat) -> bool {
    match op {
        SexualOperation::Add => true,
        SexualOperation::Sub => rat_in_i64(rat_neg(u)),
        SexualOperation::Mul => rat_in_i64(rat_mul(u, da)),
        SexualOperation::Div => {
            &&& rat_in_i64(rat_mul(u, da))
            &&& rat_in_i64(rat_mul(db, db))
            &&& rat_in_i64(rat_div(rat_mul(u, da), rat_mul(db, db)))
            &&& rat_in_i64(rat_neg(rat_div(rat_mul(u, da), rat_mul(db, db))))
        },
    }
}

// ---------------------------------------------------------------------------
// The backward pass, as one mathematical function of the graph.
// ---------------------------------------------------------------------------

/// Distribute the (final) gradient of node `j` to its operands, adding each
/// contribution onto what the operand has accumulated so far.  When the two
/// operands coincide the node contributes twice, left then right.
pub open spec fn prop_step(nodes: Seq<Node>, grads: Seq<Rat>, j: int) -> Seq<Rat> {
    let u = grads[j];
    match nodes[j].lineage {
        None => grads,
        Some(ReproductionMethod::Asexual(op, p)) => {
            let delta = unary_delta(op, nodes[j].value.data@, nodes[p as int].value.data@, u);
            grads.update(p as int, rat_add(grads[p as int], delta))
        },
        Some(ReproductionMethod::Sexual(op, a, b)) => {
            let da = nodes[a as int].value.data@;
            let db = nodes[b as int].value.data@;
            let g1 = grads.update(a as int, rat_add(grads[a as int], left_delta(op, da, db, u)));
            g1.update(b as int, rat_add(g1[b as int], right_delta(op, da, db, u)))
        },
    }
}

/// Whether every rational computed while distributing node `j` fits.
pub open spec fn step_fits(nodes: Seq<Node>, grads: Seq<Rat>, j: int) -> bool {
    let u = grads[j];
    match nodes[j].lineage {
        None => true,
        Some(ReproductionMethod::Asexual(op, p)) => {
            &&& unary_delta_fits(op, nodes[j].value.data@, u)
            &&& rat_in_i64(
                rat_add(
                    grads[p as int],
                    unary_delta(op, nodes[j].value.data@, nodes[p as int].value.data@, u),
                ),
            )
        },
        Some(ReproductionMethod::Sexual(op, a, b)) => {
            let da = nodes[a as int].value.data@;
            let db = nodes[b as int].value.data@;
            let g1 = grads.update(a as int, rat_add(grads[a as int], left_delta(op, da, db, u)));
            &&& left_delta_fits(op, db, u)
            &&& rat_in_i64(rat_add(grads[a as int], left_delta(op, da, db, u)))
            &&& right_delta_fits(op, da, db, u)
            &&& rat_in_i64(rat_add(g1[b as int], right_delta(op, da, db, u)))
        },
    }
}

/// Walk `j, j - 1, ..., 0`, distributing the gradient of every marked node.
/// When a node is processed, every consumer that could contribute to it has
/// a larger index and has therefore already been processed, so the gradient
/// read at step `j` is final.
pub open spec fn prop_sweep(nodes: Seq<Node>, marks: Seq<bool>, grads: Seq<Rat>, j: int) -> Seq<
    Rat,
>
    decreases j + 1,
{
    if j < 0 {
        grads
    } else if marks[j] {
        prop_sweep(nodes, marks, prop_step(nodes, grads, j), j - 1)
    } else {
        prop_sweep(nodes, marks, grads, j - 1)
    }
}

/// Whether every rational computed during the sweep fits.
pub open spec fn sweep_fits(nodes: Seq<Node>, marks: Seq<bool>, grads: Seq<Rat>, j: int) -> bool
    decreases j + 1,
{
    if j < 0 {
        true
    } else if marks[j] {
        step_fits(nodes, grads, j) && sweep_fits(nodes, marks, prop_step(nodes, grads, j), j - 1)
    } else {
        sweep_fits(nodes, marks, grads, j - 1)
    }
}

/// The initial gradients of a backward pass: one at the root, zero elsewhere.
pub open spec fn seed_grads(len: nat, root: int) -> Seq<Rat> {
    Seq::new(len, |i: int| if i == root { rat_one() } else { rat_zero() })
}

/// The gradients the backward pass assigns to every node reachable from
/// `root`: seed the root with one, then sweep the indices downward.
pub open spec fn backward_grads(nodes: Seq<Node>, root: int) -> Seq<Rat> {
    prop_sweep(nodes, reach_marks(nodes, root), seed_grads(nodes.len(), root), root)
}

/// Whether the whole backward pass stays within the representation.
pub open spec fn backward_fits(nodes: Seq<Node>, root: int) -> bool {
    sweep_fits(nodes, reach_marks(nodes, root), seed_grads(nodes.len(), root), root)
}

/// The views of a sequence of representable rationals.
pub open spec fn rats_of(s: Seq<Rat64>) -> Seq<Rat> {
    s.map_values(|r: Rat64| r@)
}

pub open spec fn rats_wf(s: Seq<Rat>) -> bool {
    forall|i: int| 0 <= i < s.len() ==> rat_wf(#[trigger] s[i])
}

proof fn lemma_rats_of_update(s: Seq<Rat64>, i: int, v: Rat64)
    requires
        0 <= i < s.len(),
    ensures
        rats_of(s.update(i, v)) == rats_of(s).update(i, v@),
{
    assert(rats_of(s.update(i, v)) =~= rats_of(s).update(i, v@));
}

/// Add `delta` onto slot `t` of the scratch gradients; reports whether the
/// exact sum was representable, and changes nothing when it was not.
fn accumulate(grads: &mut Vec<Rat64>, t: usize, delta: Rat64) -> (ok: bool)
    requires
        t < old(grads)@.len(),
        rats_wf(rats_of(old(grads)@)),
        rat_wf(delta@),
    ensures
        final(grads)@.len() == old(grads)@.len(),
        rats_wf(rats_of(final(grads)@)),
        ok ==> rats_of(final(grads)@) == rats_of(old(grads)@).update(
            t as int,
            rat_add(rats_of(old(grads)@)[t as int], delta@),
        ) && rat_in_i64(rat_add(rats_of(old(grads)@)[t as int], delta@)),
        !ok ==> !rat_in_i64(rat_add(rats_of(old(grads)@)[t as int], delta@)) && final(grads)@
            == old(grads)@,
{
    let cur = grads[t];
    assert(cur@ == rats_of(grads@)[t as int]);
    match rat64_add(cur, delta) {
        None => false,
        Some(s) => {
            proof {
                lemma_rats_of_update(grads@, t as int, s);
            }
            grads[t] = s;
            proof {
                let g = rats_of(grads@);
                assert forall|i: int| 0 <= i < g.len() implies rat_wf(#[trigger] g[i]) by {
                    if i != t as int {
                        assert(g[i] == rats_of(old(grads)@)[i]);
                    }
                }
            }
            true
        },
    }
}

proof fn lemma_graph_wf_same_structure(n1: Seq<Node>, n2: Seq<Node>)
    requires
        n1.len() == n2.len(),
        graph_wf(n1),
        forall|i: int| 0 <= i < n2.len() ==> #[trigger] n2[i].value.data == n1[i].value.data
            && n2[i].lineage == n1[i].lineage && rat_wf(n2[i].value.grad@),
    ensures
        graph_wf(n2),
{
    assert forall|i: int| 0 <= i < n2.len() implies node_wf(n2, i) by {
        assert(node_wf(n1, i));
        assert(n2[i].value.data == n1[i].value.data);
    }
}

// ---------------------------------------------------------------------------
// The graph itself.
// ---------------------------------------------------------------------------

/// An expression graph.  The arena is private: nodes are created through the
/// constructors below, which maintain well-formedness.
pub struct Graph {
    nodes: Vec<Node>,
}

impl View for Graph {
    type V = Seq<Node>;

    closed spec fn view(&self) -> Seq<Node> {
        self.nodes@
    }
}

proof fn lemma_wf_push(nodes: Seq<Node>, nd: Node)
    requires
        graph_wf(nodes),
        rat_wf(nd.value.data@),
        rat_wf(nd.value.grad@),
        match nd.lineage {
            None => true,
            Some(ReproductionMethod::Asexual(op, p)) => {
                &&& (p as int) < nodes.len()
                &&& (op == ASexualOperation::Tanh ==> rat_in_unit(nd.value.data@))
            },
            Some(ReproductionMethod::Sexual(_op, a, b)) => (a as int) < nodes.len() && (b as int)
                < nodes.len(),
        },
    ensures
        graph_wf(nodes.push(nd)),
{
    let nodes2 = nodes.push(nd);
    assert forall|i: int| 0 <= i < nodes2.len() implies node_wf(nodes2, i) by {
        if i < nodes.len() {
            assert(node_wf(nodes, i));
            assert(nodes2[i] == nodes[i]);
        } else {
            assert(nodes2[i] == nd);
        }
    }
}

impl Graph {
    pub open spec fn wf(self) -> bool {
        graph_wf(self@)
    }

    /// An empty graph.
    pub fn new() -> (g: Graph)
        ensures
            g.wf(),
            g@.len() == 0,
    {
        Graph { nodes: Vec::new() }
    }

    pub fn len(&self) -> (n: usize)
        ensures
            n == self@.len(),
    {
        self.nodes.len()
    }

    /// The datum of node `i`.
    pub fn data(&self, i: usize) -> (d: Rat64)
        requires
            i < self@.len(),
        ensures
            d == self@[i as int].value.data,
    {
        self.nodes[i].value.data
    }

    /// The gradient accumulated on node `i`.
    pub fn grad(&self, i: usize) -> (d: Rat64)
        requires
            i < self@.len(),
        ensures
            d == self@[i as int].value.grad,
    {
        self.nodes[i].value.grad
    }

    /// Append a node produced by `lineage` with datum `data` and a zero
    /// gradient; the forward pass never touches gradients.
    pub fn from_operation(
        &mut self,
        data: Rat64,
        lineage: Option<ReproductionMethod<usize>>,
    ) -> (id: usize)
        requires
            old(self).wf(),
            rat_wf(data@),
            match lineage {
                None => true,
                Some(ReproductionMethod::Asexual(op, p)) => {
                    &&& (p as int) < old(self)@.len()
                    &&& (op == ASexualOperation::Tanh ==> rat_in_unit(data@))
                },
                Some(ReproductionMethod::Sexual(_op, a, b)) => (a as int) < old(self)@.len() && (
                b as int) < old(self)@.len(),
            },
        ensures
            final(self).wf(),
            id == old(self)@.len(),
            final(self)@.len() == old(self)@.len() + 1,
            forall|i: int| 0 <= i < old(self)@.len() ==> final(self)@[i] == old(self)@[i],
            final(self)@[id as int].value.data == data,
            final(self)@[id as int].value.grad@ == rat_zero(),
            final(self)@[id as int].lineage == lineage,
    {
        let id = self.nodes.len();
        let nd = Node { value: Value::new(data), lineage };
        proof {
            lemma_wf_push(self@, nd);
        }
        self.nodes.push(nd);
        id
    }

    /// The sum node `a + b`; fails only when the exact sum is not
    /// representable, and then adds no node.
    pub fn add(&mut self, a: usize, b: usize) -> (r: Result<usize, EngineError>)
        requires
            old(self).wf(),
            a < old(self)@.len(),
            b < old(self)@.len(),
        ensures
            final(self).wf(),
            match r {
                Ok(id) => {
                    let da = old(self)@[a as int].value.data@;
                    let db = old(self)@[b as int].value.data@;
                    &&& rat_in_i64(rat_add(da, db))
                    &&& id == old(self)@.len()
                    &&& final(self)@.len() == old(self)@.len() + 1
                    &&& forall|i: int| 0 <= i < old(self)@.len() ==> final(self)@[i] == old(
                        self,
                    )@[i]
                    &&& final(self)@[id as int].value.data@ == rat_add(da, db)
                    &&& final(self)@[id as int].value.grad@ == rat_zero()
                    &&& final(self)@[id as int].lineage == Some(
                        ReproductionMethod::Sexual(SexualOperation::Add, a, b),
                    )
                },
                Err(e) => {
                    &&& e == EngineError::Overflow
                    &&& !rat_in_i64(
                        rat_add(
                            old(self)@[a as int].value.data@,
                            old(self)@[b as int].value.data@,
                        ),
                    )
                    &&& *final(self) == *old(self)
                },
            },
    {
        proof {
            assert(node_wf(self@, a as int));
            assert(node_wf(self@, b as int));
        }
        let va = self.nodes[a].value.data;
        let vb = self.nodes[b].value.data;
        match rat64_add(va, vb) {
            None => Err(EngineError::Overflow),
            Some(v) => Ok(
                self.from_operation(v, Some(ReproductionMethod::Sexual(SexualOperation::Add, a, b))),
            ),
        }
    }

    /// The difference node `a - b`; fails only when the exact difference is
    /// not representable, and then adds no node.
    pub fn sub(&mut self, a: usize, b: usize) -> (r: Result<usize, EngineError>)
        requires
            old(self).wf(),
            a < old(self)@.len(),
            b < old(self)@.len(),
        ensures
            final(self).wf(),
            match r {
                Ok(id) => {
                    let da = old(self)@[a as int].value.data@;
                    let db = old(self)@[b as int].value.data@;
                    &&& rat_in_i64(rat_sub(da, db))
                    &&& id == old(self)@.len()
                    &&& final(self)@.len() == old(self)@.len() + 1
                    &&& forall|i: int| 0 <= i < old(self)@.len() ==> final(self)@[i] == old(
                        self,
                    )@[i]
                    &&& final(self)@[id as int].value.data@ == rat_sub(da, db)
                    &&& final(self)@[id as int].value.grad@ == rat_zero()
                    &&& final(self)@[id as int].lineage == Some(
                        ReproductionMethod::Sexual(SexualOperation::Sub, a, b),
                    )
                },
                Err(e) => {
                    &&& e == EngineError::Overflow
                    &&& !rat_in_i64(
                        rat_sub(
                            old(self)@[a as int].value.data@,
                            old(self)@[b as int].value.data@,
                        ),
                    )
                    &&& *final(self) == *old(self)
                },
            },
    {
        proof {
            assert(node_wf(self@, a as int));
            assert(node_wf(self@, b as int));
        }
        let va = self.nodes[a].value.data;
        let vb = self.nodes[b].value.data;
        match rat64_sub(va, vb) {
            None => Err(EngineError::Overflow),
            Some(v) => Ok(
                self.from_operation(v, Some(ReproductionMethod::Sexual(SexualOperation::Sub, a, b))),
            ),
        }
    }

    /// The product node `a * b`; fails only when the exact product is not
    /// representable, and then adds no node.
    pub fn mul(&mut self, a: usize, b: usize) -> (r: Result<usize, EngineError>)
        requires
            old(self).wf(),
            a < old(self)@.len(),
            b < old(self)@.len(),
        ensures
            final(self).wf(),
            match r {
                Ok(id) => {
                    let da = old(self)@[a as int].value.data@;
                    let db = old(self)@[b as int].value.data@;
                    &&& rat_in_i64(rat_mul(da, db))
                    &&& id == old(self)@.len()
                    &&& final(self)@.len() == old(self)@.len() + 1
                    &&& forall|i: int| 0 <= i < old(self)@.len() ==> final(self)@[i] == old(
                        self,
                    )@[i]
                    &&& final(self)@[id as int].value.data@ == rat_mul(da, db)
                    &&& final(self)@[id as int].value.grad@ == rat_zero()
                    &&& final(self)@[id as int].lineage == Some(
                        ReproductionMethod::Sexual(SexualOperation::Mul, a, b),
                    )
                },
                Err(e) => {
                    &&& e == EngineError::Overflow
                    &&& !rat_in_i64(
                        rat_mul(
                            old(self)@[a as int].value.data@,
                            old(self)@[b as int].value.data@,
                        ),
                    )
                    &&& *final(self) == *old(self)
                },
            },
    {
        proof {
            assert(node_wf(self@, a as int));
            assert(node_wf(self@, b as int));
        }
        let va = self.nodes[a].value.data;
        let vb = self.nodes[b].value.data;
        match rat64_mul(va, vb) {
            None => Err(EngineError::Overflow),
            Some(v) => Ok(
                self.from_operation(v, Some(ReproductionMethod::Sexual(SexualOperation::Mul, a, b))),
            ),
        }
    }

    /// The quotient node `a / b`.  A divisor whose datum is exactly zero is
    /// rejected with `DivisionByZero`; an unrepresentable exact quotient with
    /// `Overflow`.  On failure no node is added.
    pub fn div(&mut self, a: usize, b: usize) -> (r: Result<usize, EngineError>)
        requires
            old(self).wf(),
            a < old(self)@.len(),
            b < old(self)@.len(),
        ensures
            final(self).wf(),
            match r {
                Ok(id) => {
                    let da = old(self)@[a as int].value.data@;
                    let db = old(self)@[b as int].value.data@;
                    &&& db.0 != 0
                    &&& rat_in_i64(rat_div(da, db))
                    &&& id == old(self)@.len()
                    &&& final(self)@.len() == old(self)@.len() + 1
                    &&& forall|i: int| 0 <= i < old(self)@.len() ==> final(self)@[i] == old(
                        self,
                    )@[i]
                    &&& final(self)@[id as int].value.data@ == rat_div(da, db)
                    &&& final(self)@[id as int].value.grad@ == rat_zero()
                    &&& final(self)@[id as int].lineage == Some(
                        ReproductionMethod::Sexual(SexualOperation::Div, a, b),
                    )
                },
                Err(e) => {
                    let da = old(self)@[a as int].value.data@;
                    let db = old(self)@[b as int].value.data@;
                    &&& *final(self) == *old(self)
                    &&& match e {
                        EngineError::DivisionByZero => db.0 == 0,
                        EngineError::Overflow => db.0 != 0 && !rat_in_i64(rat_div(da, db)),
                    }
                },
            },
    {
        proof {
            assert(node_wf(self@, a as int));
            assert(node_wf(self@, b as int));
        }
        let vb = self.nodes[b].value.data;
        if vb.num == 0 {
            return Err(EngineError::DivisionByZero);
        }
        let va = self.nodes[a].value.data;
        match rat64_div(va, vb) {
            None => Err(EngineError::Overflow),
            Some(v) => Ok(
                self.from_operation(v, Some(ReproductionMethod::Sexual(SexualOperation::Div, a, b))),
            ),
        }
    }

    /// The negation node `-a`; fails only when the negated numerator is not
    /// representable, and then adds no node.
    pub fn neg(&mut self, a: usize) -> (r: Result<usize, EngineError>)
        requires
            old(self).wf(),
            a < old(self)@.len(),
        ensures
            final(self).wf(),
            match r {
                Ok(id) => {
                    let da = old(self)@[a as int].value.data@;
                    &&& rat_in_i64(rat_neg(da))
                    &&& id == old(self)@.len()
                    &&& final(self)@.len() == old(self)@.len() + 1
                    &&& forall|i: int| 0 <= i < old(self)@.len() ==> final(self)@[i] == old(
                        self,
                    )@[i]
                    &&& final(self)@[id as int].value.data@ == rat_neg(da)
                    &&& final(self)@[id as int].value.grad@ == rat_zero()
                    &&& final(self)@[id as int].lineage == Some(
                        ReproductionMethod::Asexual(ASexualOperation::Neg, a),
                    )
                },
                Err(e) => {
                    &&& e == EngineError::Overflow
                    &&& !rat_in_i64(rat_neg(old(self)@[a as int].value.data@))
                    &&& *final(self) == *old(self)
                },
            },
    {
        proof {
            assert(node_wf(self@, a as int));
        }
        let va = self.nodes[a].value.data;
        match rat64_neg(va) {
            None => Err(EngineError::Overflow),
            Some(v) => Ok(
                self.from_operation(v, Some(ReproductionMethod::Asexual(ASexualOperation::Neg, a))),
            ),
        }
    }

    /// The rectifier node `max(0, a)`: the operand's datum when it is
    /// positive, zero when it is zero or negative.  Never fails.
    pub fn relu(&mut self, a: usize) -> (id: usize)
        requires
            old(self).wf(),
            a < old(self)@.len(),
        ensures
            final(self).wf(),
            id == old(self)@.len(),
            final(self)@.len() == old(self)@.len() + 1,
            forall|i: int| 0 <= i < old(self)@.len() ==> final(self)@[i] == old(self)@[i],
            final(self)@[id as int].value.data@ == (if old(self)@[a as int].value.data@.0 > 0 {
                old(self)@[a as int].value.data@
            } else {
                rat_zero()
            }),
            final(self)@[id as int].value.grad@ == rat_zero(),
            final(self)@[id as int].lineage == Some(
                ReproductionMethod::Asexual(ASexualOperation::Relu, a),
            ),
    {
        proof {
            assert(node_wf(self@, a as int));
        }
        let va = self.nodes[a].value.data;
        let data = if va.num > 0 {
            va
        } else {
            rat64_zero()
        };
        self.from_operation(data, Some(ReproductionMethod::Asexual(ASexualOperation::Relu, a)))
    }

    /// The hyperbolic-tangent node, holding the exact value of the clamped
    /// Pade approximant of `tanh` on the operand's datum; fails only when
    /// that value cannot be evaluated or represented, and then adds no node.
    pub fn tanh(&mut self, a: usize) -> (r: Result<usize, EngineError>)
        requires
            old(self).wf(),
            a < old(self)@.len(),
        ensures
            final(self).wf(),
            match r {
                Ok(id) => {
                    let da = old(self)@[a as int].value.data@;
                    &&& rat_tanh_fits(da)
                    &&& id == old(self)@.len()
                    &&& final(self)@.len() == old(self)@.len() + 1
                    &&& forall|i: int| 0 <= i < old(self)@.len() ==> final(self)@[i] == old(
                        self,
                    )@[i]
                    &&& final(self)@[id as int].value.data@ == rat_tanh(da)
                    &&& final(self)@[id as int].value.grad@ == rat_zero()
                    &&& final(self)@[id as int].lineage == Some(
                        ReproductionMethod::Asexual(ASexualOperation::Tanh, a),
                    )
                },
                Err(e) => {
                    &&& e == EngineError::Overflow
                    &&& !rat_tanh_fits(old(self)@[a as int].value.data@)
                    &&& *final(self) == *old(self)
                },
            },
    {
        proof {
            assert(node_wf(self@, a as int));
        }
        let va = self.nodes[a].value.data;
        match rat64_tanh(va) {
            None => Err(EngineError::Overflow),
            Some(v) => Ok(
                self.from_operation(v, Some(ReproductionMethod::Asexual(ASexualOperation::Tanh, a))),
            ),
        }
    }

    /// Mark every node reachable from `root` through lineage edges, by one
    /// descending sweep: operands of a marked node are marked, and operand
    /// indices only ever decrease.
    fn mark_reachable(&self, root: usize) -> (marks: Vec<bool>)
        requires
            self.wf(),
            root < self@.len(),
        ensures
            marks@.len() == self@.len(),
            marks@ == reach_marks(self@, root as int),
    {
        let n = self.nodes.len();
        let mut marks: Vec<bool> = Vec::new();
        let mut i: usize = 0;
        while i < n
            invariant
                i <= n,
                marks@.len() == i,
                forall|k: int| 0 <= k < i ==> marks@[k] == (k == root as int),
            decreases n - i,
        {
            marks.push(i == root);
            i += 1;
        }
        assert(marks@ =~= seed_marks(self@.len(), root as int));
        let mut j: usize = root + 1;
        while j > 0
            invariant
                self.wf(),
                root < self@.len(),
                n == self@.len(),
                marks@.len() == n,
                j <= root + 1,
                mark_sweep(self@, marks@, j as int - 1) == reach_marks(self@, root as int),
            decreases j,
        {
            let idx = j - 1;
            let ghost m0 = marks@;
            if marks[idx] {
                proof {
                    assert(node_wf(self@, idx as int));
                }
                let lin = self.nodes[idx].lineage;
                match lin {
                    None => {},
                    Some(ReproductionMethod::Asexual(_op, p)) => {
                        marks[p] = true;
                    },
                    Some(ReproductionMethod::Sexual(_op, a, b)) => {
                        marks[a] = true;
                        marks[b] = true;
                    },
                }
            }
            proof {
                assert(marks@ == mark_step(self@, m0, idx as int));
                assert(mark_sweep(self@, m0, idx as int) == mark_sweep(
                    self@,
                    mark_step(self@, m0, idx as int),
                    idx as int - 1,
                ));
            }
            j = idx;
        }
        assert(mark_sweep(self@, marks@, -1) == marks@);
        marks
    }

    /// Scan the marked subgraph for a quotient node whose divisor's datum is
    /// exactly zero.
    fn find_div_zero(&self, marks: &Vec<bool>, root: usize) -> (found: bool)
        requires
            self.wf(),
            root < self@.len(),
            marks@.len() == self@.len(),
            marks@ == reach_marks(self@, root as int),
        ensures
            found == has_reachable_div_zero(self@, root as int),
    {
        let n = self.nodes.len();
        let mut i: usize = 0;
        while i < n
            invariant
                self.wf(),
                root < self@.len(),
                n == self@.len(),
                marks@.len() == n,
                marks@ == reach_marks(self@, root as int),
                i <= n,
                forall|k: int|
                    0 <= k < i ==> !(#[trigger] reachable(self@, root as int, k) && !div_safe_at(
                        self@,
                        k,
                    )),
            decreases n - i,
        {
            if marks[i] {
                proof {
                    assert(node_wf(self@, i as int));
                }
                let lin = self.nodes[i].lineage;
                match lin {
                    Some(ReproductionMethod::Sexual(op, _a, bb)) => {
                        match op {
                            SexualOperation::Div => {
                                if self.nodes[bb].value.data.num == 0 {
                                    assert(reachable(self@, root as int, i as int));
                                    assert(!div_safe_at(self@, i as int));
                                    return true;
                                }
                            },
                            _ => {},
                        }
                    },
                    _ => {},
                }
            }
            i += 1;
        }
        false
    }

    /// The backward pass: compute the gradient of node `root` with respect
    /// to every node, and store it in each node's gradient accumulator.
    ///
    /// The pass first resets and re-derives every gradient of the subgraph
    /// reachable from `root` (so stale state from an earlier pass never
    /// leaks in), seeds the root's own gradient with one, and accumulates
    /// each node's contributions additively across all of its consumers; a
    /// node not reachable from `root` keeps its gradient untouched.  The
    /// whole pass is validated and computed before anything is written: on
    /// `DivisionByZero` (some reachable quotient has a divisor datum of
    /// exactly zero) or `Overflow` (some exact intermediate does not fit the
    /// representation) the graph is left exactly as it was.
    pub fn backward(&mut self, root: usize) -> (r: Result<(), EngineError>)
        requires
            old(self).wf(),
            root < old(self)@.len(),
        ensures
            final(self).wf(),
            final(self)@.len() == old(self)@.len(),
            forall|i: int| 0 <= i < old(self)@.len() ==> #[trigger] final(self)@[i].value.data
                == old(self)@[i].value.data && final(self)@[i].lineage == old(self)@[i].lineage,
            match r {
                Ok(_) => {
                    &&& !has_reachable_div_zero(old(self)@, root as int)
                    &&& backward_fits(old(self)@, root as int)
                    &&& forall|i: int|
                        0 <= i < old(self)@.len() && #[trigger] reachable(
                            old(self)@,
                            root as int,
                            i,
                        ) ==> final(self)@[i].value.grad@ == backward_grads(
                            old(self)@,
                            root as int,
                        )[i]
                    &&& forall|i: int|
                        0 <= i < old(self)@.len() && !(#[trigger] reachable(
                            old(self)@,
                            root as int,
                            i,
                        )) ==> final(self)@[i].value.grad == old(self)@[i].value.grad
                },
                Err(e) => {
                    &&& *final(self) == *old(self)
                    &&& match e {
                        EngineError::DivisionByZero => has_reachable_div_zero(
                            old(self)@,
                            root as int,
                        ),
                        EngineError::Overflow => !has_reachable_div_zero(old(self)@, root as int)
                            && !backward_fits(old(self)@, root as int),
                    }
                },
            },
    {
        let ghost nodes0 = self@;
        let n = self.nodes.len();
        let marks = self.mark_reachable(root);
        if self.find_div_zero(&marks, root) {
            return Err(EngineError::DivisionByZero);
        }
        // Seed the scratch gradients: one at the root, zero elsewhere.
        let mut grads: Vec<Rat64> = Vec::new();
        let mut i: usize = 0;
        while i < n
            invariant
                i <= n,
                root < n,
                grads@.len() == i,
                forall|k: int| 0 <= k < i ==> #[trigger] grads@[k]@ == (if k == root as int {
                    rat_one()
                } else {
                    rat_zero()
                }),
            decreases n - i,
        {
            if i == root {
                grads.push(rat64_one());
            } else {
                grads.push(rat64_zero());
            }
            i += 1;
        }
        assert(rats_of(grads@) =~= seed_grads(nodes0.len(), root as int));
        assert(rats_wf(rats_of(grads@)));
        // Propagate, walking the indices downward so that each node's
        // gradient is final before it is distributed.
        let mut j: usize = root + 1;
        while j > 0
            invariant
                self.wf(),
                self@ == nodes0,
                root < n,
                n == self@.len(),
                marks@.len() == n,
                marks@ == reach_marks(nodes0, root as int),
                grads@.len() == n,
                rats_wf(rats_of(grads@)),
                j <= root + 1,
                prop_sweep(nodes0, marks@, rats_of(grads@), j as int - 1) == backward_grads(
                    nodes0,
                    root as int,
                ),
                sweep_fits(nodes0, marks@, rats_of(grads@), j as int - 1) == backward_fits(
                    nodes0,
                    root as int,
                ),
                !has_reachable_div_zero(nodes0, root as int),
            decreases j,
        {
            let idx = j - 1;
            if marks[idx] {
                let ghost gg = rats_of(grads@);
                proof {
                    assert(reachable(nodes0, root as int, idx as int));
                    assert(div_safe_at(nodes0, idx as int));
                }
                let ok = self.grad_parents(&mut grads, idx);
                if !ok {
                    assert(!sweep_fits(nodes0, marks@, gg, idx as int));
                    return Err(EngineError::Overflow);
                }
                proof {
                    assert(rats_of(grads@) == prop_step(nodes0, gg, idx as int));
                    assert(prop_sweep(nodes0, marks@, gg, idx as int) == prop_sweep(
                        nodes0,
                        marks@,
                        rats_of(grads@),
                        idx as int - 1,
                    ));
                    assert(sweep_fits(nodes0, marks@, gg, idx as int) == (step_fits(
                        nodes0,
                        gg,
                        idx as int,
                    ) && sweep_fits(nodes0, marks@, rats_of(grads@), idx as int - 1)));
                }
            } else {
                proof {
                    assert(prop_sweep(nodes0, marks@, rats_of(grads@), idx as int) == prop_sweep(
                        nodes0,
                        marks@,
                        rats_of(grads@),
                        idx as int - 1,
                    ));
                    assert(sweep_fits(nodes0, marks@, rats_of(grads@), idx as int) == sweep_fits(
                        nodes0,
                        marks@,
                        rats_of(grads@),
                        idx as int - 1,
                    ));
                }
            }
            j = idx;
        }
        assert(rats_of(grads@) == backward_grads(nodes0, root as int));
        assert(backward_fits(nodes0, root as int));
        // Commit: every computation succeeded, write the marked gradients.
        let mut i: usize = 0;
        while i < n
            invariant
                i <= n,
                root < n,
                n == self@.len(),
                self@.len() == old(self)@.len(),
                graph_wf(old(self)@),
                marks@.len() == n,
                marks@ == reach_marks(old(self)@, root as int),
                grads@.len() == n,
                rats_of(grads@) == backward_grads(old(self)@, root as int),
                rats_wf(rats_of(grads@)),
                forall|k: int| 0 <= k < n ==> #[trigger] self@[k].value.data == old(
                    self,
                )@[k].value.data && self@[k].lineage == old(self)@[k].lineage,
                forall|k: int| 0 <= k < i && marks@[k] ==> #[trigger] self@[k].value.grad
                    == grads@[k],
                forall|k: int| 0 <= k < n && !(0 <= k < i && marks@[k])
                    ==> #[trigger] self@[k].value.grad == old(self)@[k].value.grad,
            decreases n - i,
        {
            if marks[i] {
                let g = grads[i];
                self.nodes[i].value.grad = g;
            }
            i += 1;
        }
        proof {
            assert forall|k: int| 0 <= k < n implies rat_wf(#[trigger] self@[k].value.grad@) by {
                assert(node_wf(old(self)@, k));
                if marks@[k] {
                    assert(self@[k].value.grad@ == rats_of(grads@)[k]);
                }
            }
            lemma_graph_wf_same_structure(old(self)@, self@);
        }
        Ok(())
    }

    /// Distribute the gradient of node `j`, read from the scratch vector
    /// `grads`, onto its operands' slots, adding each contribution as the
    /// operation's local-derivative rule prescribes.  Reports whether every
    /// intermediate was representable; when it was not, the scratch vector
    /// is only partially updated and must be discarded.
    pub fn grad_parents(&self, grads: &mut Vec<Rat64>, j: usize) -> (ok: bool)
        requires
            self.wf(),
            j < self@.len(),
            old(grads)@.len() == self@.len(),
            rats_wf(rats_of(old(grads)@)),
            div_safe_at(self@, j as int),
        ensures
            final(grads)@.len() == self@.len(),
            rats_wf(rats_of(final(grads)@)),
            ok ==> rats_of(final(grads)@) == prop_step(self@, rats_of(old(grads)@), j as int)
                && step_fits(self@, rats_of(old(grads)@), j as int),
            !ok ==> !step_fits(self@, rats_of(old(grads)@), j as int),
    {
        proof {
            assert(node_wf(self@, j as int));
        }
        let ghost g0 = rats_of(grads@);
        let u = grads[j];
        assert(u@ == g0[j as int]);
        let lin = self.nodes[j].lineage;
        match lin {
            None => true,
            Some(ReproductionMethod::Asexual(op, p)) => {
                let own = self.nodes[j].value.data;
                let pd = self.nodes[p].value.data;
                proof {
                    assert(node_wf(self@, p as int));
                }
                let delta_opt: Option<Rat64> = match op {
                    ASexualOperation::Relu => if pd.num > 0 {
                        Some(u)
                    } else {
                        Some(rat64_zero())
                    },
                    ASexualOperation::Tanh => match rat64_mul(own, own) {
                        None => None,
                        Some(y2) => match rat64_sub(rat64_one(), y2) {
                            None => None,
                            Some(damp) => rat64_mul(u, damp),
                        },
                    },
                    ASexualOperation::Neg => rat64_neg(u),
                };
                match delta_opt {
                    None => {
                        assert(!unary_delta_fits(op, own@, u@));
                        false
                    },
                    Some(delta) => {
                        assert(delta@ == unary_delta(op, own@, pd@, u@));
                        assert(unary_delta_fits(op, own@, u@));
                        accumulate(grads, p, delta)
                    },
                }
            },
            Some(ReproductionMethod::Sexual(op, a, b)) => {
                let da = self.nodes[a].value.data;
                let db = self.nodes[b].value.data;
                proof {
                    assert(node_wf(self@, a as int));
                    assert(node_wf(self@, b as int));
                }
                let ld_opt: Option<Rat64> = match op {
                    SexualOperation::Add => Some(u),
                    SexualOperation::Sub => Some(u),
                    SexualOperation::Mul => rat64_mul(u, db),
                    SexualOperation::Div => rat64_div(u, db),
                };
                match ld_opt {
                    None => {
                        assert(!left_delta_fits(op, db@, u@));
                        false
                    },
                    Some(ld) => {
                        assert(ld@ == left_delta(op, da@, db@, u@));
                        assert(left_delta_fits(op, db@, u@));
                        if !accumulate(grads, a, ld) {
                            false
                        } else {
                            let ghost g1 = rats_of(grads@);
                            let rd_opt: Option<Rat64> = match op {
                                SexualOperation::Add => Some(u),
                                SexualOperation::Sub => rat64_neg(u),
                                SexualOperation::Mul => rat64_mul(u, da),
                                SexualOperation::Div => match rat64_mul(u, da) {
                                    None => None,
                                    Some(t1) => match rat64_mul(db, db) {
                                        None => None,
                                        Some(t2) => {
                                            assert(t2@.0 != 0) by (nonlinear_arith)
                                                requires
                                                    t2@.0 == db@.0 * db@.0,
                                                    db@.0 != 0,
                                            ;
                                            match rat64_div(t1, t2) {
                                                None => None,
                                                Some(t3) => rat64_neg(t3),
                                            }
                                        },
                                    },
                                },
                            };
                            match rd_opt {
                                None => {
                                    assert(!right_delta_fits(op, da@, db@, u@));
                                    false
                                },
                                Some(rd) => {
                                    assert(rd@ == right_delta(op, da@, db@, u@));
                                    assert(right_delta_fits(op, da@, db@, u@));
                                    let ok2 = accumulate(grads, b, rd);
                                    proof {
                                        if ok2 {
                                            assert(rats_of(grads@) == prop_step(
                                                self@,
                                                g0,
                                                j as int,
                                            ));
                                        }
                                    }
                                    ok2
                                },
                            }
                        }
                    },
                }
            },
        }
    }

    /// The indices of every node reachable from `root` (the nodes a backward
    /// pass from `root` touches), in ascending order.
    pub fn parameters(&self, root: usize) -> (ids: Vec<usize>)
        requires
            self.wf(),
            root < self@.len(),
        ensures
            forall|k: int|
                0 <= k < ids@.len() ==> (#[trigger] ids@[k]) < self@.len() && reachable(
                    self@,
                    root as int,
                    ids@[k] as int,
                ),
            forall|i: int|
                0 <= i < self@.len() && #[trigger] reachable(self@, root as int, i)
                    ==> ids@.contains(i as usize),
            forall|k1: int, k2: int| 0 <= k1 < k2 < ids@.len() ==> ids@[k1] < ids@[k2],
    {
        let marks = self.mark_reachable(root);
        let n = self.nodes.len();
        let mut ids: Vec<usize> = Vec::new();
        let mut i: usize = 0;
        while i < n
            invariant
                n == self@.len(),
                marks@.len() == n,
                marks@ == reach_marks(self@, root as int),
                i <= n,
                forall|k: int|
                    0 <= k < ids@.len() ==> (#[trigger] ids@[k]) < i && reachable(
                        self@,
                        root as int,
                        ids@[k] as int,
                    ),
                forall|q: int|
                    0 <= q < i && #[trigger] reachable(self@, root as int, q) ==> ids@.contains(
                        q as usize,
                    ),
                forall|k1: int, k2: int| 0 <= k1 < k2 < ids@.len() ==> ids@[k1] < ids@[k2],
            decreases n - i,
        {
            if marks[i] {
                ids.push(i);
            }
            i += 1;
        }
        ids
    }

    /// A leaf node holding the rational `num / den`.
    pub fn value(&mut self, num: i64, den: i64) -> (id: usize)
        requires
            old(self).wf(),
            den > 0,
        ensures
            final(self).wf(),
            id == old(self)@.len(),
            final(self)@.len() == old(self)@.len() + 1,
            forall|i: int| 0 <= i < old(self)@.len() ==> final(self)@[i] == old(self)@[i],
            final(self)@[id as int].value.data@ == (num as int, den as int),
            final(self)@[id as int].value.grad@ == rat_zero(),
            final(self)@[id as int].lineage is None,
    {
        self.from_operation(Rat64 { num, den }, None)
    }
}

// ---------------------------------------------------------------------------
// Laws.
// ---------------------------------------------------------------------------

/// Law: the backward contribution of a tanh node never exceeds its upstream
/// gradient in magnitude, and lies between zero and the upstream gradient
/// whenever that gradient is nonnegative, because the damping factor
/// `1 - tanh(x)^2` lies in [0, 1].  Well-formedness (`lineage_wf`) guarantees
/// the hypothesis `rat_in_unit(own)` for the datum of every tanh node.
pub proof fn lemma_tanh_contribution_bounded(own: Rat, parent: Rat, up: Rat)
    requires
        rat_wf(own),
        rat_in_unit(own),
        rat_wf(up),
    ensures
        rat_wf(unary_delta(ASexualOperation::Tanh, own, parent, up)),
        rat_le(rat_abs(unary_delta(ASexualOperation::Tanh, own, parent, up)), rat_abs(up)),
        rat_le(rat_zero(), up) ==> {
            &&& rat_le(rat_zero(), unary_delta(ASexualOperation::Tanh, own, parent, up))
            &&& rat_le(unary_delta(ASexualOperation::Tanh, own, parent, up), up)
        },
{
    crate::rat::lemma_damped_contribution_in_unit(own, up);
}

/// Whether the operands of node `k` are all marked.
pub open spec fn operands_marked(nodes: Seq<Node>, marks: Seq<bool>, k: int) -> bool {
    match nodes[k].lineage {
        None => true,
        Some(ReproductionMethod::Asexual(_op, p)) => marks[p as int],
        Some(ReproductionMethod::Sexual(_op, a, b)) => marks[a as int] && marks[b as int],
    }
}

proof fn lemma_mark_sweep_monotone(nodes: Seq<Node>, m: Seq<bool>, j: int, i: int)
    requires
        graph_wf(nodes),
        m.len() == nodes.len(),
        j < nodes.len(),
        0 <= i < m.len(),
        m[i],
    ensures
        mark_sweep(nodes, m, j).len() == m.len(),
        mark_sweep(nodes, m, j)[i],
    decreases j + 1,
{
    if j >= 0 {
        if m[j] {
            assert(node_wf(nodes, j));
        }
        assert(mark_step(nodes, m, j).len() == m.len());
        assert(mark_step(nodes, m, j)[i]);
        lemma_mark_sweep_monotone(nodes, mark_step(nodes, m, j), j - 1, i);
    }
}

proof fn lemma_mark_sweep_frozen_above(nodes: Seq<Node>, m: Seq<bool>, j: int, k: int)
    requires
        graph_wf(nodes),
        m.len() == nodes.len(),
        j < nodes.len(),
        j < k < m.len(),
    ensures
        mark_sweep(nodes, m, j).len() == m.len(),
        mark_sweep(nodes, m, j)[k] == m[k],
    decreases j + 1,
{
    if j >= 0 {
        if m[j] {
            assert(node_wf(nodes, j));
        }
        assert(mark_step(nodes, m, j)[k] == m[k]);
        lemma_mark_sweep_frozen_above(nodes, mark_step(nodes, m, j), j - 1, k);
    }
}

proof fn lemma_mark_sweep_closure(nodes: Seq<Node>, m: Seq<bool>, j: int, k: int)
    requires
        graph_wf(nodes),
        m.len() == nodes.len(),
        j < nodes.len(),
        0 <= k <= j,
        mark_sweep(nodes, m, j)[k],
    ensures
        operands_marked(nodes, mark_sweep(nodes, m, j), k),
    decreases j + 1,
{
    let m1 = mark_step(nodes, m, j);
    assert(node_wf(nodes, j));
    assert(m1.len() == m.len());
    if k < j {
        lemma_mark_sweep_closure(nodes, m1, j - 1, k);
    } else {
        lemma_mark_sweep_frozen_above(nodes, m1, j - 1, j);
        assert(m1[j] == m[j]);
        assert(m[j]);
        match nodes[j].lineage {
            None => {},
            Some(ReproductionMethod::Asexual(_op, p)) => {
                assert(m1[p as int]);
                lemma_mark_sweep_monotone(nodes, m1, j - 1, p as int);
            },
            Some(ReproductionMethod::Sexual(_op, a, b)) => {
                assert(m1[a as int]);
                assert(m1[b as int]);
                lemma_mark_sweep_monotone(nodes, m1, j - 1, a as int);
                lemma_mark_sweep_monotone(nodes, m1, j - 1, b as int);
            },
        }
    }
}

/// The reachable set has the length of the graph.
pub proof fn lemma_reach_marks_len(nodes: Seq<Node>, root: int)
    requires
        graph_wf(nodes),
        0 <= root < nodes.len(),
    ensures
        reach_marks(nodes, root).len() == nodes.len(),
{
    lemma_mark_sweep_monotone(nodes, seed_marks(nodes.len(), root), root, root);
}

/// Law: the root itself is reachable, so a backward pass always seeds it.
pub proof fn lemma_root_reachable(nodes: Seq<Node>, root: int)
    requires
        graph_wf(nodes),
        0 <= root < nodes.len(),
    ensures
        reachable(nodes, root, root),
{
    lemma_mark_sweep_monotone(nodes, seed_marks(nodes.len(), root), root, root);
}

/// Law: reachability is closed under lineage: the operands of a reachable
/// node are reachable, and a node past the root is never reachable.  With
/// `lemma_root_reachable` this characterizes the set a backward pass
/// touches: the root and, transitively, every operand below it.
pub proof fn lemma_reachable_closed_under_operands(nodes: Seq<Node>, root: int, k: int)
    requires
        graph_wf(nodes),
        0 <= root < nodes.len(),
        0 <= k < nodes.len(),
        reachable(nodes, root, k),
    ensures
        k <= root,
        operands_marked(nodes, reach_marks(nodes, root), k),
    decreases 0int,
{
    let seed = seed_marks(nodes.len(), root);
    if k > root {
        lemma_mark_sweep_frozen_above(nodes, seed, root, k);
        assert(!seed[k]);
    } else {
        lemma_mark_sweep_closure(nodes, seed, root, k);
    }
}

proof fn lemma_prop_sweep_unmarked_frozen(
    nodes: Seq<Node>,
    marks: Seq<bool>,
    g: Seq<Rat>,
    j: int,
    i: int,
)
    requires
        graph_wf(nodes),
        marks.len() == nodes.len(),
        g.len() == nodes.len(),
        j < nodes.len(),
        0 <= i < g.len(),
        !marks[i],
        forall|k: int|
            0 <= k <= j && #[trigger] marks[k] ==> operands_marked(nodes, marks, k),
    ensures
        prop_sweep(nodes, marks, g, j).len() == g.len(),
        prop_sweep(nodes, marks, g, j)[i] == g[i],
    decreases j + 1,
{
    if j >= 0 {
        if marks[j] {
            assert(node_wf(nodes, j));
            assert(operands_marked(nodes, marks, j));
            match nodes[j].lineage {
                None => {},
                Some(ReproductionMethod::Asexual(_op, p)) => {
                    assert(marks[p as int]);
                    assert(p as int != i);
                },
                Some(ReproductionMethod::Sexual(_op, a, b)) => {
                    assert(marks[a as int]);
                    assert(marks[b as int]);
                    assert(a as int != i);
                    assert(b as int != i);
                },
            }
            assert(prop_step(nodes, g, j).len() == g.len());
            assert(prop_step(nodes, g, j)[i] == g[i]);
            lemma_prop_sweep_unmarked_frozen(nodes, marks, prop_step(nodes, g, j), j - 1, i);
        } else {
            lemma_prop_sweep_unmarked_frozen(nodes, marks, g, j - 1, i);
        }
    }
}

proof fn lemma_prop_sweep_frozen_at_or_above(
    nodes: Seq<Node>,
    marks: Seq<bool>,
    g: Seq<Rat>,
    j: int,
    k: int,
)
    requires
        graph_wf(nodes),
        g.len() == nodes.len(),
        j < nodes.len(),
        j <= k < g.len(),
    ensures
        prop_sweep(nodes, marks, g, j).len() == g.len(),
        prop_sweep(nodes, marks, g, j)[k] == g[k],
    decreases j + 1,
{
    if j >= 0 {
        if marks[j] {
            assert(node_wf(nodes, j));
            assert(prop_step(nodes, g, j).len() == g.len());
            assert(prop_step(nodes, g, j)[k] == g[k]);
            lemma_prop_sweep_frozen_at_or_above(nodes, marks, prop_step(nodes, g, j), j - 1, k);
        } else {
            lemma_prop_sweep_frozen_at_or_above(nodes, marks, g, j - 1, k);
        }
    }
}

/// Law: the root's own gradient is one, the derivative of the output with
/// respect to itself.  No step of the sweep can add to it, because every
/// contribution lands on an operand of the node being processed, and
/// operand indices are strictly below the indices the sweep still visits.
pub proof fn lemma_root_gradient_is_one(nodes: Seq<Node>, root: int)
    requires
        graph_wf(nodes),
        0 <= root < nodes.len(),
    ensures
        backward_grads(nodes, root)[root] == rat_one(),
{
    let marks = reach_marks(nodes, root);
    lemma_prop_sweep_frozen_at_or_above(nodes, marks, seed_grads(nodes.len(), root), root, root);
}

/// Law: a node the backward pass cannot reach is left at its seed.  In
/// particular a leaf with no reachable consumer accumulates nothing: its
/// computed gradient is exactly zero (and `backward` moreover leaves the
/// stored gradient of an unreachable node untouched).
pub proof fn lemma_unreachable_gradient_is_zero(nodes: Seq<Node>, root: int, i: int)
    requires
        graph_wf(nodes),
        0 <= root < nodes.len(),
        0 <= i < nodes.len(),
        i != root,
        !reachable(nodes, root, i),
    ensures
        backward_grads(nodes, root)[i] == rat_zero(),
{
    let marks = reach_marks(nodes, root);
    lemma_reach_marks_len(nodes, root);
    assert forall|k: int| 0 <= k <= root && #[trigger] marks[k] implies operands_marked(
        nodes,
        marks,
        k,
    ) by {
        lemma_mark_sweep_closure(nodes, seed_marks(nodes.len(), root), root, k);
    }
    lemma_prop_sweep_unmarked_frozen(nodes, marks, seed_grads(nodes.len(), root), root, i);
    assert(seed_grads(nodes.len(), root)[i] == rat_zero());
}

/// Law: nothing propagates below a leaf.  A node without lineage receives
/// contributions from its consumers but distributes none, whatever gradient
/// it carries.
pub proof fn lemma_leaf_distributes_nothing(nodes: Seq<Node>, grads: Seq<Rat>, j: int)
    requires
        0 <= j < nodes.len(),
        nodes[j].lineage is None,
    ensures
        prop_step(nodes, grads, j) == grads,
        step_fits(nodes, grads, j),
{
}

/// Law: gradients accumulate additively across a diamond.  In the smallest
/// diamond — a product whose two operands are the same leaf `x` — the leaf
/// receives the sum of the contributions of both paths, `x + x = 2 * x`,
/// not the contribution of a single path.
pub proof fn lemma_square_diamond_gradient(nodes: Seq<Node>)
    requires
        graph_wf(nodes),
        nodes.len() == 2,
        nodes[0].lineage is None,
        nodes[1].lineage == Some(
            ReproductionMethod::Sexual(SexualOperation::Mul, 0usize, 0usize),
        ),
    ensures
        crate::rat::rat_eq(
            backward_grads(nodes, 1)[0],
            rat_mul((2int, 1int), nodes[0].value.data@),
        ),
{
    let x = nodes[0].value.data@;
    // Reachability: the sweep from node 1 marks node 0.
    let sm = seed_marks(2, 1);
    assert(sm.len() == 2);
    assert(!sm[0]);
    assert(sm[1]);
    let m1 = mark_step(nodes, sm, 1);
    assert(m1 =~= seq![true, true]);
    assert(mark_step(nodes, m1, 0) == m1);
    assert(mark_sweep(nodes, m1, -1) == m1);
    assert(mark_sweep(nodes, m1, 0) == m1);
    assert(reach_marks(nodes, 1) == m1);
    // Propagation: node 1 distributes its seeded gradient of one to node 0
    // twice, once per operand position; the leaf distributes nothing.
    let g0 = seed_grads(2, 1);
    assert(g0[0] == rat_zero());
    assert(g0[1] == rat_one());
    let g1 = prop_step(nodes, g0, 1);
    assert(prop_step(nodes, g1, 0) == g1);
    assert(prop_sweep(nodes, m1, g1, -1) == g1);
    assert(prop_sweep(nodes, m1, g1, 0) == g1);
    assert(prop_sweep(nodes, m1, g0, 1) == g1);
    assert(backward_grads(nodes, 1) == g1);
    let i0 = rat_add(rat_zero(), rat_mul(rat_one(), x));
    assert(i0.0 == x.0);
    assert(i0.1 == x.1);
    let d = rat_add(i0, rat_mul(rat_one(), x));
    assert(g1[0] == d);
    assert(d.0 == i0.0 * (1 * x.1) + (1 * x.0) * i0.1);
    assert(d.1 == i0.1 * (1 * x.1));
    assert(crate::rat::rat_eq(d, rat_mul((2int, 1int), x))) by (nonlinear_arith)
        requires
            d.0 == x.0 * x.1 + x.0 * x.1,
            d.1 == x.1 * x.1,
    ;
}

/// Two graphs with the same data and lineage everywhere; gradients may
/// differ.
pub open spec fn same_structure(n1: Seq<Node>, n2: Seq<Node>) -> bool {
    &&& n1.len() == n2.len()
    &&& forall|i: int|
        0 <= i < n1.len() ==> #[trigger] n1[i].value.data == n2[i].value.data && n1[i].lineage
            == n2[i].lineage
}

proof fn lemma_mark_sweep_structural(n1: Seq<Node>, n2: Seq<Node>, m: Seq<bool>, j: int)
    requires
        same_structure(n1, n2),
        j < n1.len(),
    ensures
        mark_sweep(n1, m, j) == mark_sweep(n2, m, j),
    decreases j + 1,
{
    if j >= 0 {
        assert(n1[j].value.data == n2[j].value.data);
        assert(n1[j].lineage == n2[j].lineage);
        assert(mark_step(n1, m, j) == mark_step(n2, m, j));
        lemma_mark_sweep_structural(n1, n2, mark_step(n1, m, j), j - 1);
    }
}

proof fn lemma_prop_sweep_structural(
    n1: Seq<Node>,
    n2: Seq<Node>,
    m: Seq<bool>,
    g: Seq<Rat>,
    j: int,
)
    requires
        same_structure(n1, n2),
        graph_wf(n1),
        j < n1.len(),
    ensures
        prop_sweep(n1, m, g, j) == prop_sweep(n2, m, g, j),
        sweep_fits(n1, m, g, j) == sweep_fits(n2, m, g, j),
    decreases j + 1,
{
    if j >= 0 {
        assert(node_wf(n1, j));
        assert(n1[j].value.data == n2[j].value.data);
        assert(n1[j].lineage == n2[j].lineage);
        match n1[j].lineage {
            None => {},
            Some(ReproductionMethod::Asexual(_op, p)) => {
                assert(n1[p as int].value.data == n2[p as int].value.data);
            },
            Some(ReproductionMethod::Sexual(_op, a, b)) => {
                assert(n1[a as int].value.data == n2[a as int].value.data);
                assert(n1[b as int].value.data == n2[b as int].value.data);
            },
        }
        assert(prop_step(n1, g, j) == prop_step(n2, g, j));
        assert(step_fits(n1, g, j) == step_fits(n2, g, j));
        if m[j] {
            lemma_prop_sweep_structural(n1, n2, m, prop_step(n1, g, j), j - 1);
        } else {
            lemma_prop_sweep_structural(n1, n2, m, g, j - 1);
        }
    }
}

/// Law: a backward pass is a function of the graph's data and lineage alone;
/// the gradients a graph happens to carry (for instance, those left by an
/// earlier pass) have no influence on what the pass computes.  Since
/// `backward` changes neither data nor lineage, running it twice from the
/// same root resets and recomputes exactly the same gradients both times.
pub proof fn lemma_backward_deterministic(n1: Seq<Node>, n2: Seq<Node>, root: int)
    requires
        same_structure(n1, n2),
        graph_wf(n1),
        0 <= root < n1.len(),
    ensures
        reach_marks(n1, root) == reach_marks(n2, root),
        backward_grads(n1, root) == backward_grads(n2, root),
        backward_fits(n1, root) == backward_fits(n2, root),
        has_reachable_div_zero(n1, root) == has_reachable_div_zero(n2, root),
{
    lemma_mark_sweep_structural(n1, n2, seed_marks(n1.len(), root), root);
    lemma_prop_sweep_structural(n1, n2, reach_marks(n1, root), seed_grads(n1.len(), root), root);
    assert forall|j: int| 0 <= j < n1.len() implies div_safe_at(n1, j) == div_safe_at(n2, j) by {
        assert(node_wf(n1, j));
        assert(n1[j].lineage == n2[j].lineage);
        match n1[j].lineage {
            Some(ReproductionMethod::Sexual(_op, _a, b)) => {
                assert(n1[b as int].value.data == n2[b as int].value.data);
            },
            _ => {},
        }
    }
    if has_reachable_div_zero(n1, root) {
        let j = choose|j: int|
            0 <= j < n1.len() && #[trigger] reachable(n1, root, j) && !div_safe_at(n1, j);
        assert(reachable(n2, root, j) && !div_safe_at(n2, j));
    }
    if has_reachable_div_zero(n2, root) {
        let j = choose|j: int|
            0 <= j < n2.len() && #[trigger] reachable(n2, root, j) && !div_safe_at(n2, j);
        assert(reachable(n1, root, j) && !div_safe_at(n1, j));
    }
}

} // verus!
