//! The backward engine.
//!
//! Given one output node, a pass builds a deduplicated post-order traversal
//! of the graph under it, walks that order from the root downward, and
//! accumulates — exactly once per consumer edge — every node's gradient of
//! the output with respect to that node. The whole pass is pinned, step for
//! step, by the spec-level functions below: what `backward` leaves in the
//! context is `spec_backward` of the root's view, a pure function of the
//! graph alone.
use vstd::prelude::*;
use std::collections::{HashMap, HashSet};
use crate::node::{
    ANode, IdAllocator, NodeView, OpKind, dup, is_leaf_kind, lemma_children_wf, views_of,
};
use crate::ops::{local_grad, lemma_local_grad_len};
use crate::vecops::{seq_add, zeros, ones, vec_add, vec_zeros, vec_ones, vec_dup};

verus! {

broadcast use vstd::std_specs::hash::group_hash_axioms;

/// The deduplicated post-order below one node: children before parents, each
/// distinct identifier emitted at most once. `vis` holds the identifiers
/// already emitted or being visited.
pub open spec fn po_node(v: NodeView, vis: Set<u64>) -> (Seq<NodeView>, Set<u64>)
    decreases v, 0int,
{
    if vis.contains(v.id) {
        (Seq::empty(), vis)
    } else {
        let r = po_kids(v.children, 0, vis.insert(v.id));
        (r.0.push(v), r.1)
    }
}

pub open spec fn po_kids(cs: Seq<NodeView>, i: int, vis: Set<u64>) -> (Seq<NodeView>, Set<u64>)
    decreases cs, cs.len() - i,
{
    if i < 0 || i >= cs.len() {
        (Seq::empty(), vis)
    } else {
        let r1 = po_node(cs[i], vis);
        let r2 = po_kids(cs, i + 1, r1.1);
        (r1.0 + r2.0, r2.1)
    }
}

/// The traversal order of one backward pass.
pub open spec fn postorder(root: NodeView) -> Seq<NodeView> {
    po_node(root, Set::empty()).0
}

/// The node and everything reachable below it.
pub open spec fn nodes_of(v: NodeView) -> Set<NodeView>
    decreases v, 0int,
{
    kids_nodes(v.children, 0).insert(v)
}

pub open spec fn kids_nodes(cs: Seq<NodeView>, i: int) -> Set<NodeView>
    decreases cs, cs.len() - i,
{
    if i < 0 || i >= cs.len() {
        Set::empty()
    } else {
        nodes_of(cs[i]).union(kids_nodes(cs, i + 1))
    }
}

/// Distinct nodes below the root never share an identifier. Construction
/// through one allocator gives exactly this.
pub open spec fn unique_ids(root: NodeView) -> bool {
    forall|a: NodeView, b: NodeView|
        #![trigger nodes_of(root).contains(a), nodes_of(root).contains(b)]
        nodes_of(root).contains(a) && nodes_of(root).contains(b) && a.id == b.id ==> a == b
}

/// One node hands its accumulated gradient `g` on: for each child in order,
/// the local chain-rule contribution is added into the child's accumulator,
/// which starts from a zero buffer the first time the child is touched.
/// Constants take no accumulator at all.
pub open spec fn scatter(v: NodeView, g: Seq<u32>, i: int, acc: Map<u64, Seq<u32>>) -> Map<
    u64,
    Seq<u32>,
>
    decreases v.children.len() - i,
{
    if i < 0 || i >= v.children.len() {
        acc
    } else {
        let c = v.children[i];
        let acc2 = if c.op == OpKind::Constant {
            acc
        } else {
            let base = if acc.contains_key(c.id) {
                acc[c.id]
            } else {
                zeros(c.value.len())
            };
            acc.insert(c.id, seq_add(base, local_grad(v, g, i)))
        };
        scatter(v, g, i + 1, acc2)
    }
}

/// What processing one node of the order does to the accumulator map: a node
/// never reached is skipped, a leaf keeps its accumulator as its answer, and
/// every other node scatters its accumulated gradient to its children.
pub open spec fn step_node(v: NodeView, acc: Map<u64, Seq<u32>>) -> Map<u64, Seq<u32>> {
    if acc.contains_key(v.id) && !is_leaf_kind(v.op) {
        scatter(v, acc[v.id], 0, acc)
    } else {
        acc
    }
}

/// Processes `order[k-1]`, then `order[k-2]`, down to `order[0]`: the
/// post-order walked backwards, root first, leaves last.
pub open spec fn process_down(order: Seq<NodeView>, k: int, acc: Map<u64, Seq<u32>>) -> Map<
    u64,
    Seq<u32>,
>
    decreases k,
{
    if k <= 0 || k > order.len() {
        acc
    } else {
        process_down(order, k - 1, step_node(order[k - 1], acc))
    }
}

/// The root's accumulator is seeded with ones — the output's gradient with
/// respect to itself, elementwise — unless the root is a constant, for which
/// no gradient is ever retained.
pub open spec fn seed(root: NodeView) -> Map<u64, Seq<u32>> {
    if root.op == OpKind::Constant {
        Map::empty()
    } else {
        Map::empty().insert(root.id, ones(root.value.len()))
    }
}

/// The whole backward pass as a pure function of the root's view.
pub open spec fn spec_backward(root: NodeView) -> Map<u64, Seq<u32>> {
    process_down(postorder(root), postorder(root).len() as int, seed(root))
}

/// The gradient buffers as mathematical sequences.
pub open spec fn lift(m: Map<u64, Vec<u32>>) -> Map<u64, Seq<u32>> {
    Map::new(|k: u64| m.dom().contains(k), |k: u64| m[k]@)
}

/// Every accumulated buffer for a reachable node is as long as that node's
/// value: the lengths the engine relies on while it adds buffers.
pub open spec fn grad_lengths_ok(root: NodeView, m: Map<u64, Seq<u32>>) -> bool {
    forall|v: NodeView| #![trigger nodes_of(root).contains(v)]
        nodes_of(root).contains(v) && m.contains_key(v.id) ==> m[v.id].len() == v.value.len()
}

/// A node is among its own reachable nodes.
pub proof fn lemma_self_in_nodes(v: NodeView)
    ensures
        nodes_of(v).contains(v),
{
}

/// Everything reachable from the `j`-th child is among the reachable nodes
/// of any earlier starting index.
proof fn lemma_kids_sub(cs: Seq<NodeView>, i: int, j: int)
    requires
        0 <= i <= j < cs.len(),
    ensures
        forall|x: NodeView|
            nodes_of(cs[j]).contains(x) ==> #[trigger] kids_nodes(cs, i).contains(x),
    decreases j - i,
{
    if i < j {
        lemma_kids_sub(cs, i + 1, j);
        assert forall|x: NodeView| nodes_of(cs[j]).contains(x) implies #[trigger] kids_nodes(
            cs,
            i,
        ).contains(x) by {
            assert(kids_nodes(cs, i + 1).contains(x));
            assert(kids_nodes(cs, i) == nodes_of(cs[i]).union(kids_nodes(cs, i + 1)));
        }
    } else {
        assert forall|x: NodeView| nodes_of(cs[j]).contains(x) implies #[trigger] kids_nodes(
            cs,
            i,
        ).contains(x) by {
            assert(kids_nodes(cs, j) == nodes_of(cs[j]).union(kids_nodes(cs, j + 1)));
        }
    }
}

/// A member of the children's reachable set is reachable from some child.
proof fn lemma_kids_member(cs: Seq<NodeView>, i: int, x: NodeView)
    requires
        kids_nodes(cs, i).contains(x),
    ensures
        exists|j: int| i <= j < cs.len() && nodes_of(#[trigger] cs[j]).contains(x),
    decreases cs.len() - i,
{
    if i < 0 || i >= cs.len() {
        assert(false);
    } else {
        if nodes_of(cs[i]).contains(x) {
            assert(i <= i < cs.len() && nodes_of(cs[i]).contains(x));
        } else {
            lemma_kids_member(cs, i + 1, x);
        }
    }
}

/// The reachable set is closed under taking children.
pub proof fn lemma_nodes_child_closed(root: NodeView, v: NodeView, i: int)
    requires
        nodes_of(root).contains(v),
        0 <= i < v.children.len(),
    ensures
        nodes_of(root).contains(v.children[i]),
    decreases root,
{
    if v == root {
        lemma_self_in_nodes(v.children[i]);
        lemma_kids_sub(root.children, 0, i);
        assert(kids_nodes(root.children, 0).contains(v.children[i]));
    } else {
        assert(kids_nodes(root.children, 0).contains(v));
        lemma_kids_member(root.children, 0, v);
        let j = choose|j: int|
            0 <= j < root.children.len() && nodes_of(#[trigger] root.children[j]).contains(v);
        assert(decreases_to!(root => root.children[j]));
        lemma_nodes_child_closed(root.children[j], v, i);
        lemma_kids_sub(root.children, 0, j);
        assert(kids_nodes(root.children, 0).contains(v.children[i]));
    }
}

/// Every node reachable from a view the allocator issued was itself issued.
proof fn lemma_owned_closed(a: IdAllocator, v: NodeView, w: NodeView)
    requires
        a.wf(),
        a.owns(v),
        nodes_of(v).contains(w),
    ensures
        a.owns(w),
    decreases v,
{
    if w != v {
        assert(kids_nodes(v.children, 0).contains(w));
        lemma_kids_member(v.children, 0, w);
        let j = choose|j: int|
            0 <= j < v.children.len() && nodes_of(#[trigger] v.children[j]).contains(w);
        assert(a.owns(v.children[j]));
        assert(decreases_to!(v => v.children[j]));
        lemma_owned_closed(a, v.children[j], w);
    }
}

/// A graph built through one allocator has unique identifiers: any two
/// reachable nodes that share an identifier are the very same node. This
/// discharges the hypothesis of `Graph::backward` for every graph the
/// constructors produce.
pub proof fn lemma_allocator_unique_ids(a: IdAllocator, v: NodeView)
    requires
        a.wf(),
        a.owns(v),
    ensures
        unique_ids(v),
{
    assert forall|x: NodeView, y: NodeView|
        #![trigger nodes_of(v).contains(x), nodes_of(v).contains(y)]
        nodes_of(v).contains(x) && nodes_of(v).contains(y) && x.id == y.id implies x == y by {
        lemma_owned_closed(a, v, x);
        lemma_owned_closed(a, v, y);
        assert(x == a.issued@[x.id]);
        assert(y == a.issued@[y.id]);
    }
}

/// Every node the postorder emits is reachable from the starting node.
pub proof fn lemma_po_in_nodes(v: NodeView, vis: Set<u64>)
    ensures
        forall|j: int|
            0 <= j < po_node(v, vis).0.len() ==> nodes_of(v).contains(
                #[trigger] po_node(v, vis).0[j],
            ),
    decreases v, 0int,
{
    if !vis.contains(v.id) {
        lemma_po_kids_in_nodes(v.children, 0, vis.insert(v.id));
        let r = po_kids(v.children, 0, vis.insert(v.id));
        assert forall|j: int| 0 <= j < po_node(v, vis).0.len() implies nodes_of(v).contains(
            po_node(v, vis).0[j],
        ) by {
            if j < r.0.len() {
                assert(kids_nodes(v.children, 0).contains(r.0[j]));
            } else {
                assert(po_node(v, vis).0[j] == v);
            }
        }
    }
}

proof fn lemma_po_kids_in_nodes(cs: Seq<NodeView>, i: int, vis: Set<u64>)
    ensures
        forall|j: int|
            0 <= j < po_kids(cs, i, vis).0.len() ==> kids_nodes(cs, i).contains(
                #[trigger] po_kids(cs, i, vis).0[j],
            ),
    decreases cs, cs.len() - i,
{
    if 0 <= i < cs.len() {
        let r1 = po_node(cs[i], vis);
        lemma_po_in_nodes(cs[i], vis);
        lemma_po_kids_in_nodes(cs, i + 1, r1.1);
        assert forall|j: int| 0 <= j < po_kids(cs, i, vis).0.len() implies kids_nodes(
            cs,
            i,
        ).contains(po_kids(cs, i, vis).0[j]) by {
            if j < r1.0.len() {
                assert(nodes_of(cs[i]).contains(r1.0[j]));
            } else {
                assert(kids_nodes(cs, i + 1).contains(po_kids(cs, i + 1, r1.1).0[j - r1.0.len()]));
            }
        }
    }
}

/// Builds the deduplicated post-order below `n`: children fully emitted
/// before their parent, every distinct identifier emitted at most once.
pub(crate) fn dfs(n: &ANode, seen: &mut HashSet<u64>, order: &mut Vec<ANode>)
    requires
        n.wf(),
        forall|j: int| 0 <= j < old(order)@.len() ==> (#[trigger] old(order)@[j]).wf(),
    ensures
        final(seen)@ == po_node(n@, old(seen)@).1,
        views_of(final(order)@) == views_of(old(order)@) + po_node(n@, old(seen)@).0,
        forall|j: int| 0 <= j < final(order)@.len() ==> (#[trigger] final(order)@[j]).wf(),
    decreases n@,
{
    let id = n.get_id();
    if seen.contains(&id) {
        proof {
            assert(views_of(order@) =~= views_of(old(order)@) + po_node(n@, old(seen)@).0);
        }
        return ;
    }
    seen.insert(id);
    let node = dup(n);
    let ghost cs = n@.children;
    let ghost vis0 = old(seen)@.insert(n@.id);
    let ghost order0 = order@;
    proof {
        lemma_children_wf(node);
    }
    let mut i: usize = 0;
    while i < node.0.children.len()
        invariant
            node.wf(),
            node@ == n@,
            cs == n@.children,
            node.0.children@.len() == cs.len(),
            forall|j: int|
                0 <= j < cs.len() ==> (#[trigger] node.0.children@[j]).wf()
                    && node.0.children@[j]@ == cs[j],
            i <= cs.len(),
            forall|j: int| 0 <= j < order@.len() ==> (#[trigger] order@[j]).wf(),
            po_kids(cs, 0, vis0).1 == po_kids(cs, i as int, seen@).1,
            views_of(order0) + po_kids(cs, 0, vis0).0 == views_of(order@) + po_kids(
                cs,
                i as int,
                seen@,
            ).0,
        decreases cs.len() - i,
    {
        let ghost vis_i = seen@;
        let ghost order_i = order@;
        let c = &node.0.children[i];
        proof {
            assert(decreases_to!(n@ => n@.children[i as int]));
        }
        dfs(c, seen, order);
        proof {
            let r1 = po_node(cs[i as int], vis_i);
            assert(po_kids(cs, i as int, vis_i).0 == r1.0 + po_kids(cs, i + 1, r1.1).0);
            assert(views_of(order0) + po_kids(cs, 0, vis0).0 =~= views_of(order@) + po_kids(
                cs,
                i + 1,
                seen@,
            ).0) by {
                assert(views_of(order@) =~= views_of(order_i) + r1.0);
                assert(views_of(order_i) + (r1.0 + po_kids(cs, i + 1, r1.1).0) =~= (views_of(
                    order_i,
                ) + r1.0) + po_kids(cs, i + 1, r1.1).0);
            }
        }
        i += 1;
    }
    let ghost order_pre = order@;
    order.push(node);
    proof {
        assert(po_kids(cs, cs.len() as int, seen@).0 =~= Seq::<NodeView>::empty());
        assert(po_node(n@, old(seen)@).0 == po_kids(cs, 0, vis0).0.push(n@));
        assert(views_of(order_pre) =~= views_of(order0) + po_kids(cs, 0, vis0).0) by {
            assert(views_of(order0) + po_kids(cs, cs.len() as int, seen@).0 =~= views_of(order0));
        }
        assert(views_of(order@) =~= views_of(order_pre).push(n@)) by {
            assert(order@ =~= order_pre.push(node));
        }
        assert(views_of(order@) =~= views_of(old(order)@) + po_node(n@, old(seen)@).0);
    }
}

/// A backward context: accumulated gradients of one pass, keyed by node
/// identifier. Fresh per pass; queries after the pass read it.
pub struct Graph {
    grads: HashMap<u64, Vec<u32>>,
}

impl View for Graph {
    type V = Map<u64, Seq<u32>>;

    closed spec fn view(&self) -> Map<u64, Seq<u32>> {
        lift(self.grads@)
    }
}

impl Graph {
    pub fn new() -> (r: Graph)
        ensures
            r@ == Map::<u64, Seq<u32>>::empty(),
    {
        let g = Graph { grads: HashMap::new() };
        proof {
            assert(g@ =~= Map::<u64, Seq<u32>>::empty());
        }
        g
    }

    /// Runs one backward pass against the chosen root: every gradient the
    /// pass accumulates is exactly what `spec_backward` assigns, a pure
    /// function of the graph below the root. Whatever the context held
    /// before is discarded; no state bleeds between passes. The identifier
    /// hypothesis holds of every graph built through one allocator:
    /// `lemma_allocator_unique_ids` discharges it.
    pub fn backward(&mut self, root: &ANode)
        requires
            root.wf(),
            unique_ids(root@),
        ensures
            final(self)@ == spec_backward(root@),
    {
        let ghost rv = root@;
        let mut seen: HashSet<u64> = HashSet::new();
        let mut order: Vec<ANode> = Vec::new();
        dfs(root, &mut seen, &mut order);
        proof {
            assert(views_of(order@) =~= postorder(rv)) by {
                assert(views_of(Seq::<ANode>::empty()) =~= Seq::<NodeView>::empty());
            }
            lemma_po_in_nodes(rv, Set::empty());
        }
        self.grads = HashMap::new();
        if !matches!(root.0.op, OpKind::Constant) {
            let ones_v = vec_ones(root.value().len());
            self.grads.insert(root.get_id(), ones_v);
        }
        proof {
            assert(lift(self.grads@) =~= seed(rv));
            lemma_self_in_nodes(rv);
            assert(grad_lengths_ok(rv, lift(self.grads@)));
        }
        let ghost ord = views_of(order@);
        let mut k: usize = order.len();
        while k > 0
            invariant
                k <= order@.len(),
                ord == views_of(order@),
                ord == postorder(rv),
                unique_ids(rv),
                forall|j: int| 0 <= j < order@.len() ==> (#[trigger] order@[j]).wf(),
                forall|j: int| 0 <= j < ord.len() ==> nodes_of(rv).contains(#[trigger] ord[j]),
                spec_backward(rv) == process_down(ord, k as int, lift(self.grads@)),
                grad_lengths_ok(rv, lift(self.grads@)),
            decreases k,
        {
            k -= 1;
            let ghost acc0 = lift(self.grads@);
            let n = &order[k];
            let ghost nv = ord[k as int];
            proof {
                assert(nv == n@);
            }
            let id = n.get_id();
            let gopt: Option<Vec<u32>> = match self.grads.get(&id) {
                Some(b) => Some(vec_dup(b)),
                None => None,
            };
            match gopt {
                None => {
                    proof {
                        assert(step_node(nv, acc0) == acc0);
                    }
                },
                Some(g) => {
                    if n.is_leaf() {
                        proof {
                            assert(step_node(nv, acc0) == acc0);
                        }
                    } else {
                        proof {
                            assert(g@ == acc0[nv.id]);
                            assert(g@.len() == nv.value.len());
                            lemma_children_wf(*n);
                        }
                        let mut ci: usize = 0;
                        let ghost ccount = nv.children.len();
                        while ci < n.0.children.len()
                            invariant
                                n.wf(),
                                n@ == nv,
                                nodes_of(rv).contains(nv),
                                !is_leaf_kind(nv.op),
                                unique_ids(rv),
                                ci <= ccount,
                                ccount == nv.children.len(),
                                n.0.children@.len() == ccount,
                                g@ == acc0[nv.id],
                                acc0.contains_key(nv.id),
                                g@.len() == nv.value.len(),
                                scatter(nv, g@, 0, acc0) == scatter(
                                    nv,
                                    g@,
                                    ci as int,
                                    lift(self.grads@),
                                ),
                                grad_lengths_ok(rv, lift(self.grads@)),
                            decreases ccount - ci,
                        {
                            let ghost acc_i = lift(self.grads@);
                            let ghost cv = nv.children[ci as int];
                            proof {
                                lemma_children_wf(*n);
                                lemma_nodes_child_closed(rv, nv, ci as int);
                                lemma_local_grad_len(nv, g@, ci as int);
                            }
                            let part = crate::ops::compute_child_grad(n, ci, &g);
                            let c = &n.0.children[ci];
                            if !matches!(c.0.op, OpKind::Constant) {
                                let cid = c.get_id();
                                let base: Vec<u32> = match self.grads.get(&cid) {
                                    Some(b) => vec_dup(b),
                                    None => vec_zeros(c.value().len()),
                                };
                                proof {
                                    assert(base@.len() == cv.value.len());
                                }
                                let sum = vec_add(&base, &part);
                                self.grads.insert(cid, sum);
                                proof {
                                    assert(lift(self.grads@) =~= acc_i.insert(
                                        cv.id,
                                        seq_add(base@, part@),
                                    ));
                                    assert forall|v: NodeView| #![trigger nodes_of(rv).contains(v)]
                                        nodes_of(rv).contains(v) && lift(
                                            self.grads@,
                                        ).contains_key(v.id) implies lift(self.grads@)[v.id].len()
                                        == v.value.len() by {
                                        if v.id == cv.id {
                                            assert(v == cv);
                                        } else {
                                            assert(acc_i.contains_key(v.id));
                                        }
                                    }
                                }
                            }
                            proof {
                                assert(scatter(nv, g@, ci as int, acc_i) == scatter(
                                    nv,
                                    g@,
                                    ci + 1,
                                    lift(self.grads@),
                                ));
                            }
                            ci += 1;
                        }
                        proof {
                            assert(scatter(nv, g@, ccount as int, lift(self.grads@)) == lift(
                                self.grads@,
                            ));
                            assert(step_node(nv, acc0) == scatter(nv, g@, 0, acc0));
                        }
                    }
                },
            }
            proof {
                assert(process_down(ord, k + 1, acc0) == process_down(
                    ord,
                    k as int,
                    step_node(ord[k as int], acc0),
                ));
                assert(step_node(nv, acc0) == lift(self.grads@));
            }
        }
        proof {
            assert(process_down(ord, 0, lift(self.grads@)) == lift(self.grads@));
        }
    }

    /// Looks a node's accumulated gradient up: the stored buffer if the pass
    /// reached the node and kept one, and an explicit absence otherwise —
    /// never a fabricated zero.
    pub fn get_grad(&self, node: &ANode) -> (r: Option<&Vec<u32>>)
        requires
            node.wf(),
        ensures
            match r {
                Some(g) => self@.contains_key(node@.id) && g@ == self@[node@.id],
                None => !self@.contains_key(node@.id),
            },
    {
        self.grads.get(&node.get_id())
    }
}

} // verus!
