//! Nodes of the computation graph.
//!
//! A node carries a unique identifier, its operator, its eagerly computed
//! forward value and the ordered list of its children. Handles are shared:
//! many parents may hold the same node, so the dependency structure is a
//! directed acyclic graph. The ghost view of a handle is the tree of
//! `NodeView` records below it; sharing is recovered from node identifiers.
use vstd::prelude::*;
use std::sync::Arc;
use crate::vecops::{
    seq_add, seq_sub, seq_mul, seq_div, seq_pow, seq_exp, seq_ln, seq_sin, seq_cos, seq_neg,
    zeros, sum_bits,
};

verus! {

/// The operator a node applies; the two leaf kinds carry no operation.
#[derive(Clone, Copy, PartialEq, Eq, Structural, Debug)]
pub enum OpKind {
    Variable,
    Constant,
    Add,
    Subtract,
    Multiply,
    Divide,
    Power,
    SumVec,
    Cos,
    Sin,
    Ln,
    Exp,
    Negate,
    BulkSum,
}

/// The mathematical picture of a node: identifier, operator, cached forward
/// value and the views of its children, as a tree.
pub struct NodeView {
    pub id: u64,
    pub op: OpKind,
    pub value: Seq<u32>,
    pub children: Seq<NodeView>,
}

pub(crate) struct NodeData {
    pub(crate) id: u64,
    pub(crate) op: OpKind,
    pub(crate) value: Vec<u32>,
    pub(crate) children: Vec<ANode>,
    pub(crate) view: Ghost<NodeView>,
}

/// A shared handle to one node; cloning aliases the same node.
#[derive(Clone)]
pub struct ANode(pub(crate) Arc<NodeData>);

pub open spec fn views_of(s: Seq<ANode>) -> Seq<NodeView> {
    s.map_values(|a: ANode| a@)
}

/// Does a leaf of this kind exist, or does the node compute?
pub open spec fn is_leaf_kind(op: OpKind) -> bool {
    op == OpKind::Variable || op == OpKind::Constant
}

/// Only the variable leaf is a gradient-tracked source.
pub open spec fn is_tracked_kind(op: OpKind) -> bool {
    op == OpKind::Variable
}

/// The stored data agrees with the ghost view at every level, and every
/// node's own stored view is the corresponding subtree.
pub open(crate) spec fn matches_view(n: ANode, v: NodeView) -> bool
    decreases v,
{
    &&& n.0.view@ == v
    &&& n.0.id == v.id
    &&& n.0.op == v.op
    &&& n.0.value@ == v.value
    &&& n.0.children@.len() == v.children.len()
    &&& forall|i: int|
        0 <= i < v.children.len() ==> matches_view(#[trigger] n.0.children@[i], v.children[i])
}

/// Arity and length discipline of one node, and that its cached value is
/// exactly what its forward recipe yields from its children's values.
pub open spec fn local_shape_ok(v: NodeView) -> bool {
    match v.op {
        OpKind::Variable => v.children.len() == 0,
        OpKind::Constant => v.children.len() == 0,
        OpKind::Add => binary_shape(v) && v.value == seq_add(v.children[0].value, v.children[1].value),
        OpKind::Subtract => binary_shape(v) && v.value == seq_sub(
            v.children[0].value,
            v.children[1].value,
        ),
        OpKind::Multiply => binary_shape(v) && v.value == seq_mul(
            v.children[0].value,
            v.children[1].value,
        ),
        OpKind::Divide => binary_shape(v) && v.value == seq_div(
            v.children[0].value,
            v.children[1].value,
        ),
        OpKind::Power => binary_shape(v) && v.value == seq_pow(
            v.children[0].value,
            v.children[1].value,
        ),
        OpKind::SumVec => v.children.len() == 1 && v.children[0].value.len() >= 1 && v.value
            == seq![sum_bits(v.children[0].value)],
        OpKind::Cos => v.children.len() == 1 && v.value == seq_cos(v.children[0].value),
        OpKind::Sin => v.children.len() == 1 && v.value == seq_sin(v.children[0].value),
        OpKind::Ln => v.children.len() == 1 && v.value == seq_ln(v.children[0].value),
        OpKind::Exp => v.children.len() == 1 && v.value == seq_exp(v.children[0].value),
        OpKind::Negate => v.children.len() == 1 && v.value == seq_neg(v.children[0].value),
        OpKind::BulkSum => {
            &&& v.children.len() >= 1
            &&& forall|j: int|
                0 <= j < v.children.len() ==> (#[trigger] v.children[j].value).len()
                    == v.children[0].value.len()
            &&& v.value == bulk_sum_value(v.children, v.children.len() as int)
        },
    }
}

pub open spec fn binary_shape(v: NodeView) -> bool {
    v.children.len() == 2 && v.children[0].value.len() == v.children[1].value.len()
}

/// The running elementwise sum of the first `k` children's values, started
/// from a zero buffer.
pub open spec fn bulk_sum_value(cs: Seq<NodeView>, k: int) -> Seq<u32>
    decreases k,
{
    if k <= 0 {
        zeros(cs[0].value.len())
    } else {
        seq_add(bulk_sum_value(cs, k - 1), cs[k - 1].value)
    }
}

/// Every node of the tree keeps its shape discipline.
pub open spec fn shape_ok(v: NodeView) -> bool
    decreases v,
{
    local_shape_ok(v) && forall|i: int|
        0 <= i < v.children.len() ==> shape_ok(#[trigger] v.children[i])
}

impl View for ANode {
    type V = NodeView;

    closed spec fn view(&self) -> NodeView {
        self.0.view@
    }
}

impl ANode {
    /// A handle is well formed when its data agrees with its ghost view and
    /// the whole tree keeps the shape discipline.
    pub open(crate) spec fn wf(&self) -> bool {
        matches_view(*self, self@) && shape_ok(self@)
    }

    pub fn get_id(&self) -> (r: u64)
        requires
            self.wf(),
        ensures
            r == self@.id,
    {
        self.0.id
    }

    pub fn value(&self) -> (r: &Vec<u32>)
        requires
            self.wf(),
        ensures
            r@ == self@.value,
    {
        &self.0.value
    }

    pub fn is_leaf(&self) -> (r: bool)
        requires
            self.wf(),
        ensures
            r == is_leaf_kind(self@.op),
    {
        matches!(self.0.op, OpKind::Variable | OpKind::Constant)
    }

    pub fn requires_grad(&self) -> (r: bool)
        requires
            self.wf(),
        ensures
            r == is_tracked_kind(self@.op),
    {
        matches!(self.0.op, OpKind::Variable)
    }

    pub fn get_children(&self) -> (r: Option<&Vec<ANode>>)
        requires
            self.wf(),
        ensures
            match r {
                Some(cs) => !is_leaf_kind(self@.op) && views_of(cs@) == self@.children && forall|
                    i: int,
                |
                    0 <= i < cs@.len() ==> (#[trigger] cs@[i]).wf(),
                None => is_leaf_kind(self@.op),
            },
    {
        if matches!(self.0.op, OpKind::Variable | OpKind::Constant) {
            None
        } else {
            proof {
                lemma_children_wf(*self);
                assert(views_of(self.0.children@) =~= self@.children);
            }
            Some(&self.0.children)
        }
    }
}

/// The children of a well-formed handle are well formed, and their views are
/// the corresponding subtrees.
pub(crate) proof fn lemma_children_wf(n: ANode)
    requires
        n.wf(),
    ensures
        forall|i: int|
            0 <= i < n.0.children@.len() ==> (#[trigger] n.0.children@[i]).wf()
                && n.0.children@[i]@ == n@.children[i],
{
    assert forall|i: int| 0 <= i < n.0.children@.len() implies (#[trigger] n.0.children@[i]).wf()
        && n.0.children@[i]@ == n@.children[i] by {
        assert(matches_view(n.0.children@[i], n@.children[i]));
        assert(shape_ok(n@.children[i]));
    }
}

/// Relies on `Arc::clone`: the duplicate is the very same shared node.
#[verifier::external_body]
pub(crate) fn dup(n: &ANode) -> (r: ANode)
    ensures
        r == *n,
{
    ANode(Arc::clone(&n.0))
}

/// Allocates node identifiers: a plain monotonic counter, threaded explicitly
/// through construction so that every node built through one allocator gets
/// an identifier no other of its nodes carries. The ghost ledger records the
/// view issued under each identifier; through it, construction provably
/// yields graphs whose distinct nodes never share an identifier.
pub struct IdAllocator {
    pub(crate) next_id: u64,
    pub(crate) issued: Ghost<Map<u64, NodeView>>,
}

impl IdAllocator {
    pub closed spec fn spec_next(&self) -> u64 {
        self.next_id
    }

    /// Every identifier in the ledger predates the counter, names the view
    /// issued under it, and that view's children were themselves issued.
    pub open(crate) spec fn wf(&self) -> bool {
        forall|id: u64| #![trigger self.issued@.dom().contains(id)]
            self.issued@.dom().contains(id) ==> {
                &&& id < self.next_id
                &&& self.issued@[id].id == id
                &&& forall|j: int|
                    0 <= j < self.issued@[id].children.len() ==> {
                        let c = #[trigger] self.issued@[id].children[j];
                        self.issued@.dom().contains(c.id) && self.issued@[c.id] == c
                    }
            }
    }

    /// The allocator issued exactly this view under its identifier.
    pub open(crate) spec fn owns(&self, v: NodeView) -> bool {
        self.issued@.dom().contains(v.id) && self.issued@[v.id] == v
    }

    pub fn new() -> (r: IdAllocator)
        ensures
            r.spec_next() == 0,
            r.wf(),
    {
        let r = IdAllocator { next_id: 0, issued: Ghost(Map::empty()) };
        proof {
            assert(r.wf());
        }
        r
    }

    pub fn fresh(&mut self) -> (r: u64)
        requires
            old(self).spec_next() < u64::MAX,
        ensures
            r == old(self).spec_next(),
            final(self).spec_next() == r + 1,
            old(self).wf() ==> final(self).wf(),
            forall|v: NodeView| old(self).owns(v) ==> #[trigger] final(self).owns(v),
    {
        let id = self.next_id;
        self.next_id = self.next_id + 1;
        id
    }
}

/// Builds a node from parts whose ghost view is already settled and records
/// the fresh identifier in the allocator's ledger; the caller still owes the
/// shape discipline of the new view.
pub(crate) fn assemble(ids: &mut IdAllocator, op: OpKind, children: Vec<ANode>, value: Vec<u32>) -> (r:
    ANode)
    requires
        old(ids).wf(),
        old(ids).spec_next() < u64::MAX,
        forall|i: int|
            0 <= i < children@.len() ==> (#[trigger] children@[i]).wf() && old(ids).owns(
                children@[i]@,
            ),
    ensures
        r@ == (NodeView {
            id: old(ids).spec_next(),
            op,
            value: value@,
            children: views_of(children@),
        }),
        matches_view(r, r@),
        final(ids).wf(),
        final(ids).owns(r@),
        final(ids).spec_next() == old(ids).spec_next() + 1,
        forall|v: NodeView| old(ids).owns(v) ==> #[trigger] final(ids).owns(v),
{
    let id = ids.next_id;
    ids.next_id = ids.next_id + 1;
    let ghost v = NodeView { id, op, value: value@, children: views_of(children@) };
    proof {
        ids.issued@ = ids.issued@.insert(id, v);
    }
    let n = ANode(Arc::new(NodeData { id, op, value, children, view: Ghost(v) }));
    proof {
        assert forall|i: int| 0 <= i < v.children.len() implies matches_view(
            #[trigger] n.0.children@[i],
            v.children[i],
        ) by {
            assert(n.0.children@[i].wf());
            assert(n.0.children@[i]@ == v.children[i]);
        }
        assert(matches_view(n, v));
        assert forall|w: NodeView| old(ids).owns(w) implies #[trigger] ids.owns(w) by {
            assert(w.id < id);
        }
        assert(ids.wf()) by {
            assert forall|q: u64| #![trigger ids.issued@.dom().contains(q)]
                ids.issued@.dom().contains(q) implies {
                &&& q < ids.next_id
                &&& ids.issued@[q].id == q
                &&& forall|j: int|
                    0 <= j < ids.issued@[q].children.len() ==> {
                        let c = #[trigger] ids.issued@[q].children[j];
                        ids.issued@.dom().contains(c.id) && ids.issued@[c.id] == c
                    }
            } by {
                if q == id {
                    assert forall|j: int| 0 <= j < v.children.len() implies {
                        let c = #[trigger] v.children[j];
                        ids.issued@.dom().contains(c.id) && ids.issued@[c.id] == c
                    } by {
                        assert(v.children[j] == children@[j]@);
                        assert(old(ids).owns(children@[j]@));
                        assert(v.children[j].id < id);
                    }
                } else {
                    assert(old(ids).issued@.dom().contains(q));
                }
            }
        }
        assert(ids.owns(v));
    }
    n
}

} // verus!
