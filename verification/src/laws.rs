//! Engine-level laws, stated over the same spec functions that the public
//! contracts use and proved once and for all.
use vstd::prelude::*;
use crate::node::{NodeView, OpKind, is_leaf_kind, shape_ok, local_shape_ok};
use crate::ops::local_grad;
use crate::graph::{
    nodes_of, po_node, po_kids, postorder, process_down, scatter, seed, spec_backward, step_node,
    lemma_nodes_child_closed, lemma_self_in_nodes,
};
use crate::vecops::{seq_add, seq_neg, seq_mul, zeros, ones};

verus! {

/// Scattering from a reachable node never creates an entry under an
/// identifier that only constants carry.
proof fn lemma_scatter_keeps_absent(
    root: NodeView,
    v: NodeView,
    g: Seq<u32>,
    i: int,
    acc: Map<u64, Seq<u32>>,
    qid: u64,
)
    requires
        nodes_of(root).contains(v),
        forall|w: NodeView| #![trigger nodes_of(root).contains(w)]
            nodes_of(root).contains(w) && w.id == qid ==> w.op == OpKind::Constant,
        !acc.contains_key(qid),
    ensures
        !scatter(v, g, i, acc).contains_key(qid),
    decreases v.children.len() - i,
{
    if 0 <= i < v.children.len() {
        let c = v.children[i];
        lemma_nodes_child_closed(root, v, i);
        if c.op == OpKind::Constant {
            lemma_scatter_keeps_absent(root, v, g, i + 1, acc, qid);
        } else {
            assert(c.id != qid);
            let base = if acc.contains_key(c.id) {
                acc[c.id]
            } else {
                zeros(c.value.len())
            };
            lemma_scatter_keeps_absent(
                root,
                v,
                g,
                i + 1,
                acc.insert(c.id, seq_add(base, local_grad(v, g, i))),
                qid,
            );
        }
    }
}

/// Processing any order of reachable nodes never creates an entry under an
/// identifier that only constants carry.
proof fn lemma_process_keeps_absent(
    root: NodeView,
    order: Seq<NodeView>,
    k: int,
    acc: Map<u64, Seq<u32>>,
    qid: u64,
)
    requires
        forall|j: int| 0 <= j < order.len() ==> nodes_of(root).contains(#[trigger] order[j]),
        forall|w: NodeView| #![trigger nodes_of(root).contains(w)]
            nodes_of(root).contains(w) && w.id == qid ==> w.op == OpKind::Constant,
        !acc.contains_key(qid),
    ensures
        !process_down(order, k, acc).contains_key(qid),
    decreases k,
{
    if 0 < k <= order.len() {
        let v = order[k - 1];
        if acc.contains_key(v.id) && !is_leaf_kind(v.op) {
            lemma_scatter_keeps_absent(root, v, acc[v.id], 0, acc, qid);
        }
        lemma_process_keeps_absent(root, order, k - 1, step_node(v, acc), qid);
    }
}

/// Absence: after a backward pass, an identifier that only constants carry —
/// or that no node below the root carries at all — has no gradient entry.
/// The context answers such queries with an explicit absence, never with a
/// fabricated zero buffer.
pub proof fn lemma_absent_gradient(root: NodeView, qid: u64)
    requires
        forall|w: NodeView| #![trigger nodes_of(root).contains(w)]
            nodes_of(root).contains(w) && w.id == qid ==> w.op == OpKind::Constant,
    ensures
        !spec_backward(root).contains_key(qid),
{
    crate::graph::lemma_po_in_nodes(root, Set::empty());
    lemma_self_in_nodes(root);
    assert(!seed(root).contains_key(qid)) by {
        if root.op != OpKind::Constant {
            assert(root.id != qid);
        }
    }
    lemma_process_keeps_absent(
        root,
        postorder(root),
        postorder(root).len() as int,
        seed(root),
        qid,
    );
}

/// Determinism: the gradients of a backward pass are a pure function of the
/// graph below the root, so two independent passes over the same root agree
/// entry for entry.
pub proof fn lemma_backward_deterministic(
    m1: Map<u64, Seq<u32>>,
    m2: Map<u64, Seq<u32>>,
    root: NodeView,
)
    requires
        m1 == spec_backward(root),
        m2 == spec_backward(root),
    ensures
        m1 == m2,
{
}

/// One backward pass over a binary node whose two children are distinct
/// leaves: the root keeps its seed of ones, and each non-constant leaf
/// accumulates exactly one contribution — its local chain-rule share — on
/// top of a fresh zero buffer.
pub proof fn lemma_binary_backward(root: NodeView, a: NodeView, b: NodeView)
    requires
        shape_ok(root),
        !is_leaf_kind(root.op),
        root.children == seq![a, b],
        is_leaf_kind(a.op),
        is_leaf_kind(b.op),
        a.id != b.id,
        root.id != a.id,
        root.id != b.id,
    ensures
        postorder(root) == seq![a, b, root],
        spec_backward(root).contains_key(root.id),
        spec_backward(root)[root.id] == ones(root.value.len()),
        a.op != OpKind::Constant ==> spec_backward(root).contains_key(a.id) && spec_backward(root)[a.id]
            == seq_add(zeros(a.value.len()), local_grad(root, ones(root.value.len()), 0)),
        a.op == OpKind::Constant ==> !spec_backward(root).contains_key(a.id),
        b.op != OpKind::Constant ==> spec_backward(root).contains_key(b.id) && spec_backward(root)[b.id]
            == seq_add(zeros(b.value.len()), local_grad(root, ones(root.value.len()), 1)),
        b.op == OpKind::Constant ==> !spec_backward(root).contains_key(b.id),
{
    let n = root.value.len();
    let cs = root.children;
    assert(cs[0] == a && cs[1] == b);
    assert(shape_ok(a) && shape_ok(b));
    assert(a.children.len() == 0 && b.children.len() == 0) by {
        assert(local_shape_ok(a) && local_shape_ok(b));
    }
    let e = Set::<u64>::empty();
    let vis0 = e.insert(root.id);
    let vis1 = vis0.insert(a.id);
    let vis2 = vis1.insert(b.id);
    assert(postorder(root) =~= seq![a, b, root]) by {
        assert(!vis0.contains(a.id) && !vis1.contains(b.id) && !e.contains(root.id));
        assert(po_kids(a.children, 0, vis1).0 =~= Seq::<NodeView>::empty());
        assert(po_node(a, vis0).0 =~= seq![a]);
        assert(po_node(a, vis0).1 == vis1);
        assert(po_kids(b.children, 0, vis2).0 =~= Seq::<NodeView>::empty());
        assert(po_node(b, vis1).0 =~= seq![b]);
        assert(po_node(b, vis1).1 == vis2);
        assert(po_kids(cs, 2, vis2).0 =~= Seq::<NodeView>::empty());
        assert(po_kids(cs, 1, vis1).0 =~= seq![b]);
        assert(po_kids(cs, 0, vis0).0 =~= seq![a, b]);
        assert(po_node(root, e).0 =~= seq![a, b].push(root));
        assert(seq![a, b].push(root) =~= seq![a, b, root]);
    }
    let ord = postorder(root);
    let m0 = seed(root);
    let g = ones(n);
    assert(m0 == Map::<u64, Seq<u32>>::empty().insert(root.id, g));
    assert(m0.contains_key(root.id) && m0[root.id] == g);
    let m1 = if a.op == OpKind::Constant {
        m0
    } else {
        m0.insert(a.id, seq_add(zeros(a.value.len()), local_grad(root, g, 0)))
    };
    let m2 = if b.op == OpKind::Constant {
        m1
    } else {
        m1.insert(b.id, seq_add(zeros(b.value.len()), local_grad(root, g, 1)))
    };
    assert(step_node(root, m0) == m2) by {
        assert(!m0.contains_key(a.id) && !m1.contains_key(b.id));
        assert(scatter(root, g, 2, m2) == m2);
        assert(scatter(root, g, 1, m1) == m2);
        assert(scatter(root, g, 0, m0) == m2);
    }
    assert(spec_backward(root) == m2) by {
        assert(process_down(ord, 3, m0) == process_down(ord, 2, m2));
        assert(step_node(b, m2) == m2);
        assert(step_node(a, m2) == m2);
        assert(process_down(ord, 2, m2) == process_down(ord, 1, m2));
        assert(process_down(ord, 1, m2) == process_down(ord, 0, m2));
    }
}

/// Additive rule: for f(x) = x + c with a tracked variable x and a constant
/// c, one pass gives x the gradient `0 + 1` elementwise, the constant gets
/// none, and the root keeps its seed of ones.
pub proof fn lemma_additive_rule(root: NodeView, x: NodeView, c: NodeView)
    requires
        shape_ok(root),
        root.op == OpKind::Add,
        root.children == seq![x, c],
        x.op == OpKind::Variable,
        c.op == OpKind::Constant,
        x.id != c.id,
        root.id != x.id,
        root.id != c.id,
    ensures
        spec_backward(root).contains_key(x.id),
        spec_backward(root)[x.id] == seq_add(zeros(root.value.len()), ones(root.value.len())),
        !spec_backward(root).contains_key(c.id),
        spec_backward(root)[root.id] == ones(root.value.len()),
{
    lemma_binary_backward(root, x, c);
    assert(x.value.len() == root.value.len()) by {
        assert(local_shape_ok(root));
    }
}

/// Linear rule: for f(x) = x * c with a tracked variable x and a constant c,
/// one pass gives x the gradient `0 + c * 1` elementwise — the factor itself
/// — whatever the value of x.
pub proof fn lemma_linear_rule(root: NodeView, x: NodeView, c: NodeView)
    requires
        shape_ok(root),
        root.op == OpKind::Multiply,
        root.children == seq![x, c],
        x.op == OpKind::Variable,
        c.op == OpKind::Constant,
        x.id != c.id,
        root.id != x.id,
        root.id != c.id,
    ensures
        spec_backward(root).contains_key(x.id),
        spec_backward(root)[x.id] == seq_add(
            zeros(root.value.len()),
            seq_mul(c.value, ones(root.value.len())),
        ),
        !spec_backward(root).contains_key(c.id),
{
    lemma_binary_backward(root, x, c);
    assert(x.value.len() == root.value.len()) by {
        assert(local_shape_ok(root));
    }
}

/// Asymmetric subtraction: for f(x, y) = x − y over two tracked variables,
/// one pass gives x the gradient `0 + 1` and y the gradient `0 + (−1)`,
/// elementwise.
pub proof fn lemma_subtraction_rule(root: NodeView, x: NodeView, y: NodeView)
    requires
        shape_ok(root),
        root.op == OpKind::Subtract,
        root.children == seq![x, y],
        x.op == OpKind::Variable,
        y.op == OpKind::Variable,
        x.id != y.id,
        root.id != x.id,
        root.id != y.id,
    ensures
        spec_backward(root).contains_key(x.id),
        spec_backward(root)[x.id] == seq_add(zeros(root.value.len()), ones(root.value.len())),
        spec_backward(root).contains_key(y.id),
        spec_backward(root)[y.id] == seq_add(
            zeros(root.value.len()),
            seq_neg(ones(root.value.len())),
        ),
{
    lemma_binary_backward(root, x, y);
    assert(x.value.len() == root.value.len() && y.value.len() == root.value.len()) by {
        assert(local_shape_ok(root));
    }
}

/// Shared-node accumulation: when one tracked variable is both children of a
/// binary node, its gradient is the sum of both consumer edges' local
/// contributions — each edge counts in full, never a fraction.
pub proof fn lemma_shared_child_accumulates(root: NodeView, x: NodeView)
    requires
        shape_ok(root),
        !is_leaf_kind(root.op),
        root.children == seq![x, x],
        x.op == OpKind::Variable,
        root.id != x.id,
    ensures
        postorder(root) == seq![x, root],
        spec_backward(root).contains_key(x.id),
        spec_backward(root)[x.id] == seq_add(
            seq_add(zeros(x.value.len()), local_grad(root, ones(root.value.len()), 0)),
            local_grad(root, ones(root.value.len()), 1),
        ),
{
    let n = root.value.len();
    let cs = root.children;
    assert(cs[0] == x && cs[1] == x);
    assert(shape_ok(x));
    assert(x.children.len() == 0) by {
        assert(local_shape_ok(x));
    }
    let e = Set::<u64>::empty();
    let vis0 = e.insert(root.id);
    let vis1 = vis0.insert(x.id);
    assert(postorder(root) =~= seq![x, root]) by {
        assert(!vis0.contains(x.id) && !e.contains(root.id));
        assert(po_kids(x.children, 0, vis1).0 =~= Seq::<NodeView>::empty());
        assert(po_node(x, vis0).0 =~= seq![x]);
        assert(po_node(x, vis0).1 == vis1);
        assert(vis1.contains(x.id));
        assert(po_node(x, vis1).0 =~= Seq::<NodeView>::empty());
        assert(po_node(x, vis1).1 == vis1);
        assert(po_kids(cs, 2, vis1).0 =~= Seq::<NodeView>::empty());
        assert(po_kids(cs, 1, vis1).0 =~= Seq::<NodeView>::empty());
        assert(po_kids(cs, 0, vis0).0 =~= seq![x]);
        assert(po_node(root, e).0 =~= seq![x].push(root));
        assert(seq![x].push(root) =~= seq![x, root]);
    }
    let ord = postorder(root);
    let m0 = seed(root);
    let g = ones(n);
    assert(m0.contains_key(root.id) && m0[root.id] == g);
    let s1 = seq_add(zeros(x.value.len()), local_grad(root, g, 0));
    let m1 = m0.insert(x.id, s1);
    let m2 = m1.insert(x.id, seq_add(s1, local_grad(root, g, 1)));
    assert(step_node(root, m0) == m2) by {
        assert(!m0.contains_key(x.id));
        assert(m1.contains_key(x.id) && m1[x.id] == s1);
        assert(scatter(root, g, 2, m2) == m2);
        assert(scatter(root, g, 1, m1) == m2);
        assert(scatter(root, g, 0, m0) == m2);
    }
    assert(spec_backward(root) == m2) by {
        assert(process_down(ord, 2, m0) == process_down(ord, 1, m2));
        assert(step_node(x, m2) == m2);
        assert(process_down(ord, 1, m2) == process_down(ord, 0, m2));
    }
}

/// Chain rule through composition: with a composite node s between the root
/// and a tracked variable x, the upstream sensitivity first accumulates at s
/// — the root's local contribution — and x then receives s's local recipe
/// applied to exactly that accumulated gradient.
pub proof fn lemma_chain_rule(root: NodeView, s: NodeView, x: NodeView, c: NodeView, d: NodeView)
    requires
        shape_ok(root),
        !is_leaf_kind(root.op),
        !is_leaf_kind(s.op),
        root.children == seq![s, c],
        s.children == seq![x, d],
        x.op == OpKind::Variable,
        c.op == OpKind::Constant,
        d.op == OpKind::Constant,
        root.id != s.id,
        root.id != x.id,
        root.id != c.id,
        root.id != d.id,
        s.id != x.id,
        s.id != c.id,
        s.id != d.id,
        x.id != c.id,
        x.id != d.id,
        c.id != d.id,
    ensures
        postorder(root) == seq![x, d, s, c, root],
        spec_backward(root).contains_key(s.id),
        spec_backward(root)[s.id] == seq_add(
            zeros(s.value.len()),
            local_grad(root, ones(root.value.len()), 0),
        ),
        spec_backward(root).contains_key(x.id),
        spec_backward(root)[x.id] == seq_add(
            zeros(x.value.len()),
            local_grad(s, spec_backward(root)[s.id], 0),
        ),
        !spec_backward(root).contains_key(c.id),
        !spec_backward(root).contains_key(d.id),
        spec_backward(root)[root.id] == ones(root.value.len()),
{
    let n = root.value.len();
    let cs = root.children;
    assert(cs[0] == s && cs[1] == c);
    assert(shape_ok(s) && shape_ok(c));
    assert(s.children[0] == x && s.children[1] == d);
    assert(shape_ok(x) && shape_ok(d));
    assert(x.children.len() == 0 && c.children.len() == 0 && d.children.len() == 0) by {
        assert(local_shape_ok(x) && local_shape_ok(c) && local_shape_ok(d));
    }
    let e = Set::<u64>::empty();
    let vis0 = e.insert(root.id);
    let vis1 = vis0.insert(s.id);
    let vis2 = vis1.insert(x.id);
    let vis3 = vis2.insert(d.id);
    let vis4 = vis3.insert(c.id);
    assert(postorder(root) =~= seq![x, d, s, c, root]) by {
        assert(po_kids(x.children, 0, vis2).0 =~= Seq::<NodeView>::empty());
        assert(po_node(x, vis1).0 =~= seq![x]);
        assert(po_node(x, vis1).1 == vis2);
        assert(po_kids(d.children, 0, vis3).0 =~= Seq::<NodeView>::empty());
        assert(po_node(d, vis2).0 =~= seq![d]);
        assert(po_node(d, vis2).1 == vis3);
        assert(po_kids(s.children, 2, vis3).0 =~= Seq::<NodeView>::empty());
        assert(po_kids(s.children, 1, vis2).0 =~= seq![d]);
        assert(po_kids(s.children, 0, vis1).0 =~= seq![x, d]);
        assert(po_kids(s.children, 0, vis1).1 == vis3);
        assert(po_node(s, vis0).0 =~= seq![x, d].push(s));
        assert(seq![x, d].push(s) =~= seq![x, d, s]);
        assert(po_node(s, vis0).1 == vis3);
        assert(po_kids(c.children, 0, vis4).0 =~= Seq::<NodeView>::empty());
        assert(po_node(c, vis3).0 =~= seq![c]);
        assert(po_node(c, vis3).1 == vis4);
        assert(po_kids(cs, 2, vis4).0 =~= Seq::<NodeView>::empty());
        assert(po_kids(cs, 1, vis3).0 =~= seq![c]);
        assert(po_kids(cs, 0, vis0).0 =~= seq![x, d, s].add(seq![c]));
        assert(seq![x, d, s].add(seq![c]) =~= seq![x, d, s, c]);
        assert(po_node(root, e).0 =~= seq![x, d, s, c].push(root));
        assert(seq![x, d, s, c].push(root) =~= seq![x, d, s, c, root]);
    }
    let ord = postorder(root);
    let m0 = seed(root);
    let g = ones(n);
    assert(m0.contains_key(root.id) && m0[root.id] == g);
    let gs = seq_add(zeros(s.value.len()), local_grad(root, g, 0));
    let m1 = m0.insert(s.id, gs);
    assert(step_node(root, m0) == m1) by {
        assert(!m0.contains_key(s.id));
        assert(scatter(root, g, 2, m1) == m1);
        assert(scatter(root, g, 1, m1) == m1);
        assert(scatter(root, g, 0, m0) == m1);
    }
    let gx = seq_add(zeros(x.value.len()), local_grad(s, gs, 0));
    let m2 = m1.insert(x.id, gx);
    assert(step_node(s, m1) == m2) by {
        assert(m1.contains_key(s.id) && m1[s.id] == gs);
        assert(!m1.contains_key(x.id));
        assert(scatter(s, gs, 2, m2) == m2);
        assert(scatter(s, gs, 1, m2) == m2);
        assert(scatter(s, gs, 0, m1) == m2);
    }
    assert(spec_backward(root) == m2) by {
        assert(process_down(ord, 5, m0) == process_down(ord, 4, m1));
        assert(step_node(c, m1) == m1);
        assert(process_down(ord, 4, m1) == process_down(ord, 3, m1));
        assert(process_down(ord, 3, m1) == process_down(ord, 2, m2));
        assert(step_node(d, m2) == m2);
        assert(process_down(ord, 2, m2) == process_down(ord, 1, m2));
        assert(step_node(x, m2) == m2);
        assert(process_down(ord, 1, m2) == process_down(ord, 0, m2));
    }
    assert(spec_backward(root)[s.id] == gs);
    assert(spec_backward(root)[x.id] == gx);
}

/// Diamond accumulation: a tracked variable consumed by two distinct parents
/// under one root receives the sum of both consumers' local contributions —
/// the full downstream sensitivity of each edge, never a fraction. The
/// engine's reverse post-order hands the second-built parent's share over
/// first.
pub proof fn lemma_diamond_accumulation(
    root: NodeView,
    p: NodeView,
    q: NodeView,
    x: NodeView,
    cp: NodeView,
    cq: NodeView,
)
    requires
        shape_ok(root),
        !is_leaf_kind(root.op),
        !is_leaf_kind(p.op),
        !is_leaf_kind(q.op),
        root.children == seq![p, q],
        p.children == seq![x, cp],
        q.children == seq![x, cq],
        x.op == OpKind::Variable,
        cp.op == OpKind::Constant,
        cq.op == OpKind::Constant,
        root.id != p.id,
        root.id != q.id,
        root.id != x.id,
        root.id != cp.id,
        root.id != cq.id,
        p.id != q.id,
        p.id != x.id,
        p.id != cp.id,
        p.id != cq.id,
        q.id != x.id,
        q.id != cp.id,
        q.id != cq.id,
        x.id != cp.id,
        x.id != cq.id,
        cp.id != cq.id,
    ensures
        postorder(root) == seq![x, cp, p, cq, q, root],
        spec_backward(root).contains_key(p.id),
        spec_backward(root)[p.id] == seq_add(
            zeros(p.value.len()),
            local_grad(root, ones(root.value.len()), 0),
        ),
        spec_backward(root).contains_key(q.id),
        spec_backward(root)[q.id] == seq_add(
            zeros(q.value.len()),
            local_grad(root, ones(root.value.len()), 1),
        ),
        spec_backward(root).contains_key(x.id),
        spec_backward(root)[x.id] == seq_add(
            seq_add(zeros(x.value.len()), local_grad(q, spec_backward(root)[q.id], 0)),
            local_grad(p, spec_backward(root)[p.id], 0),
        ),
        !spec_backward(root).contains_key(cp.id),
        !spec_backward(root).contains_key(cq.id),
{
    let n = root.value.len();
    let cs = root.children;
    assert(cs[0] == p && cs[1] == q);
    assert(shape_ok(p) && shape_ok(q));
    assert(p.children[0] == x && p.children[1] == cp);
    assert(q.children[0] == x && q.children[1] == cq);
    assert(shape_ok(x) && shape_ok(cp) && shape_ok(cq));
    assert(x.children.len() == 0 && cp.children.len() == 0 && cq.children.len() == 0) by {
        assert(local_shape_ok(x) && local_shape_ok(cp) && local_shape_ok(cq));
    }
    let e = Set::<u64>::empty();
    let vis0 = e.insert(root.id);
    let vis1 = vis0.insert(p.id);
    let vis2 = vis1.insert(x.id);
    let vis3 = vis2.insert(cp.id);
    let vis4 = vis3.insert(q.id);
    let vis5 = vis4.insert(cq.id);
    assert(postorder(root) =~= seq![x, cp, p, cq, q, root]) by {
        assert(po_kids(x.children, 0, vis2).0 =~= Seq::<NodeView>::empty());
        assert(po_node(x, vis1).0 =~= seq![x]);
        assert(po_node(x, vis1).1 == vis2);
        assert(po_kids(cp.children, 0, vis3).0 =~= Seq::<NodeView>::empty());
        assert(po_node(cp, vis2).0 =~= seq![cp]);
        assert(po_node(cp, vis2).1 == vis3);
        assert(po_kids(p.children, 2, vis3).0 =~= Seq::<NodeView>::empty());
        assert(po_kids(p.children, 1, vis2).0 =~= seq![cp]);
        assert(po_kids(p.children, 0, vis1).0 =~= seq![x, cp]);
        assert(po_kids(p.children, 0, vis1).1 == vis3);
        assert(po_node(p, vis0).0 =~= seq![x, cp].push(p));
        assert(seq![x, cp].push(p) =~= seq![x, cp, p]);
        assert(po_node(p, vis0).1 == vis3);
        assert(vis4.contains(x.id));
        assert(po_node(x, vis4).0 =~= Seq::<NodeView>::empty());
        assert(po_node(x, vis4).1 == vis4);
        assert(po_kids(cq.children, 0, vis5).0 =~= Seq::<NodeView>::empty());
        assert(po_node(cq, vis4).0 =~= seq![cq]);
        assert(po_node(cq, vis4).1 == vis5);
        assert(po_kids(q.children, 2, vis5).0 =~= Seq::<NodeView>::empty());
        assert(po_kids(q.children, 1, vis4).0 =~= seq![cq]);
        assert(po_kids(q.children, 1, vis4).1 == vis5);
        assert(po_kids(q.children, 0, vis4).0 =~= Seq::<NodeView>::empty().add(seq![cq]));
        assert(Seq::<NodeView>::empty().add(seq![cq]) =~= seq![cq]);
        assert(po_kids(q.children, 0, vis4).1 == vis5);
        assert(po_node(q, vis3).0 =~= seq![cq].push(q));
        assert(seq![cq].push(q) =~= seq![cq, q]);
        assert(po_node(q, vis3).1 == vis5);
        assert(po_kids(cs, 2, vis5).0 =~= Seq::<NodeView>::empty());
        assert(po_kids(cs, 1, vis3).0 =~= seq![cq, q]);
        assert(po_kids(cs, 0, vis0).0 =~= seq![x, cp, p].add(seq![cq, q]));
        assert(seq![x, cp, p].add(seq![cq, q]) =~= seq![x, cp, p, cq, q]);
        assert(po_node(root, e).0 =~= seq![x, cp, p, cq, q].push(root));
        assert(seq![x, cp, p, cq, q].push(root) =~= seq![x, cp, p, cq, q, root]);
    }
    let ord = postorder(root);
    let m0 = seed(root);
    let g = ones(n);
    assert(m0.contains_key(root.id) && m0[root.id] == g);
    let gp = seq_add(zeros(p.value.len()), local_grad(root, g, 0));
    let gq = seq_add(zeros(q.value.len()), local_grad(root, g, 1));
    let m1 = m0.insert(p.id, gp);
    let m2 = m1.insert(q.id, gq);
    assert(step_node(root, m0) == m2) by {
        assert(!m0.contains_key(p.id) && !m1.contains_key(q.id));
        assert(scatter(root, g, 2, m2) == m2);
        assert(scatter(root, g, 1, m1) == m2);
        assert(scatter(root, g, 0, m0) == m2);
    }
    let gx1 = seq_add(zeros(x.value.len()), local_grad(q, gq, 0));
    let m3 = m2.insert(x.id, gx1);
    assert(step_node(q, m2) == m3) by {
        assert(m2.contains_key(q.id) && m2[q.id] == gq);
        assert(!m2.contains_key(x.id));
        assert(scatter(q, gq, 2, m3) == m3);
        assert(scatter(q, gq, 1, m3) == m3);
        assert(scatter(q, gq, 0, m2) == m3);
    }
    let gx2 = seq_add(gx1, local_grad(p, gp, 0));
    let m4 = m3.insert(x.id, gx2);
    assert(step_node(p, m3) == m4) by {
        assert(m3.contains_key(p.id) && m3[p.id] == gp);
        assert(m3.contains_key(x.id) && m3[x.id] == gx1);
        assert(scatter(p, gp, 2, m4) == m4);
        assert(scatter(p, gp, 1, m4) == m4);
        assert(scatter(p, gp, 0, m3) == m4);
    }
    assert(spec_backward(root) == m4) by {
        assert(process_down(ord, 6, m0) == process_down(ord, 5, m2));
        assert(process_down(ord, 5, m2) == process_down(ord, 4, m3));
        assert(step_node(cq, m3) == m3);
        assert(process_down(ord, 4, m3) == process_down(ord, 3, m3));
        assert(process_down(ord, 3, m3) == process_down(ord, 2, m4));
        assert(step_node(cp, m4) == m4);
        assert(process_down(ord, 2, m4) == process_down(ord, 1, m4));
        assert(step_node(x, m4) == m4);
        assert(process_down(ord, 1, m4) == process_down(ord, 0, m4));
    }
    assert(spec_backward(root)[p.id] == gp);
    assert(spec_backward(root)[q.id] == gq);
    assert(spec_backward(root)[x.id] == gx2);
}

} // verus!
