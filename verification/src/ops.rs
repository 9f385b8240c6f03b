//! The operator catalog.
//!
//! Two leaves (the gradient-tracked variable and the untracked constant) and
//! twelve composite operators. Every composite constructor computes its
//! forward value immediately from its children's cached values; the local
//! gradient recipe of each operator is stated by `local_grad` and carried out
//! by `ANode::compute_grad`.
use vstd::prelude::*;
use vstd::pervasive::VecAdditionalExecFns;
use crate::node::{
    ANode, IdAllocator, NodeView, OpKind, assemble, bulk_sum_value, is_leaf_kind,
    lemma_children_wf, local_shape_ok, shape_ok, views_of,
};
use crate::vecops::{
    seq_add, seq_sub, seq_mul, seq_div, seq_pow, seq_exp, seq_ln, seq_sin, seq_cos, seq_neg,
    zeros, ones, splat, sum_bits, vec_add, vec_sub, vec_mul, vec_div, vec_pow, vec_exp, vec_ln,
    vec_sin, vec_cos, vec_neg, vec_zeros, vec_ones, vec_splat, vec_sum, vec_dup,
};

verus! {

/// The gradient-tracked leaf: its value is caller-supplied and gradients are
/// anchored at it.
pub struct Variable;

/// The untracked leaf: it participates structurally but no gradient is
/// retained for it.
pub struct Constant;

pub struct AddN;

pub struct Subtract;

pub struct Multiply;

pub struct Divide;

pub struct Power;

pub struct SumVec;

pub struct Cos;

pub struct Sin;

pub struct Ln;

pub struct Exp;

pub struct Negate;

pub struct BulkSum;

impl Variable {
    pub fn new(ids: &mut IdAllocator, value: Vec<u32>) -> (r: ANode)
        requires
            old(ids).wf(),
            old(ids).spec_next() < u64::MAX,
        ensures
            r.wf(),
            r@.op == OpKind::Variable,
            r@.children.len() == 0,
            r@.value == value@,
            r@.id == old(ids).spec_next(),
            final(ids).spec_next() == old(ids).spec_next() + 1,
            final(ids).wf(),
            final(ids).owns(r@),
            forall|v: NodeView| old(ids).owns(v) ==> #[trigger] final(ids).owns(v),
    {
        let n = assemble(ids, OpKind::Variable, Vec::new(), value);
        proof {
            assert(views_of(Seq::<ANode>::empty()) =~= Seq::<NodeView>::empty());
            assert(shape_ok(n@));
        }
        n
    }
}

impl Constant {
    pub fn new(ids: &mut IdAllocator, value: Vec<u32>) -> (r: ANode)
        requires
            old(ids).wf(),
            old(ids).spec_next() < u64::MAX,
        ensures
            r.wf(),
            r@.op == OpKind::Constant,
            r@.children.len() == 0,
            r@.value == value@,
            r@.id == old(ids).spec_next(),
            final(ids).spec_next() == old(ids).spec_next() + 1,
            final(ids).wf(),
            final(ids).owns(r@),
            forall|v: NodeView| old(ids).owns(v) ==> #[trigger] final(ids).owns(v),
    {
        let n = assemble(ids, OpKind::Constant, Vec::new(), value);
        proof {
            assert(views_of(Seq::<ANode>::empty()) =~= Seq::<NodeView>::empty());
            assert(shape_ok(n@));
        }
        n
    }

    pub fn scalar(ids: &mut IdAllocator, value: u32) -> (r: ANode)
        requires
            old(ids).wf(),
            old(ids).spec_next() < u64::MAX,
        ensures
            r.wf(),
            r@.op == OpKind::Constant,
            r@.children.len() == 0,
            r@.value =~= seq![value],
            r@.id == old(ids).spec_next(),
            final(ids).spec_next() == old(ids).spec_next() + 1,
            final(ids).wf(),
            final(ids).owns(r@),
            forall|v: NodeView| old(ids).owns(v) ==> #[trigger] final(ids).owns(v),
    {
        let mut v: Vec<u32> = Vec::new();
        v.push(value);
        Constant::new(ids, v)
    }
}

/// Builds one binary composite node; the caller supplies the freshly computed
/// forward value and has already shown it to be the operator's recipe.
fn assemble_binary(
    ids: &mut IdAllocator,
    op: OpKind,
    left: ANode,
    right: ANode,
    value: Vec<u32>,
) -> (r: ANode)
    requires
        old(ids).wf(),
        old(ids).spec_next() < u64::MAX,
        left.wf(),
        right.wf(),
        old(ids).owns(left@),
        old(ids).owns(right@),
    ensures
        r@.id == old(ids).spec_next(),
        r@.op == op,
        r@.value == value@,
        r@.children == seq![left@, right@],
        crate::node::matches_view(r, r@),
        forall|i: int| 0 <= i < r@.children.len() ==> shape_ok(#[trigger] r@.children[i]),
        final(ids).wf(),
        final(ids).owns(r@),
        final(ids).spec_next() == old(ids).spec_next() + 1,
        forall|v: NodeView| old(ids).owns(v) ==> #[trigger] final(ids).owns(v),
{
    let ghost lv = left@;
    let ghost rv = right@;
    let mut children: Vec<ANode> = Vec::new();
    children.push(left);
    children.push(right);
    let ghost cseq = children@;
    let n = assemble(ids, op, children, value);
    proof {
        assert(n@.children == views_of(cseq));
        assert(n@.children =~= seq![lv, rv]) by {
            assert(cseq[0]@ == lv);
            assert(cseq[1]@ == rv);
        }
        assert(shape_ok(lv) && shape_ok(rv));
    }
    n
}

impl AddN {
    pub fn new(ids: &mut IdAllocator, left: ANode, right: ANode) -> (r: ANode)
        requires
            old(ids).wf(),
            old(ids).spec_next() < u64::MAX,
            left.wf(),
            right.wf(),
            old(ids).owns(left@),
            old(ids).owns(right@),
            left@.value.len() == right@.value.len(),
        ensures
            r.wf(),
            r@.op == OpKind::Add,
            r@.children =~= seq![left@, right@],
            r@.value == seq_add(left@.value, right@.value),
            r@.id == old(ids).spec_next(),
            final(ids).spec_next() == old(ids).spec_next() + 1,
            final(ids).wf(),
            final(ids).owns(r@),
            forall|v: NodeView| old(ids).owns(v) ==> #[trigger] final(ids).owns(v),
    {
        let value = AddN::compute(&left, &right);
        let n = assemble_binary(ids, OpKind::Add, left, right, value);
        proof {
            assert(local_shape_ok(n@));
            assert(shape_ok(n@));
        }
        n
    }

    pub fn compute(left: &ANode, right: &ANode) -> (r: Vec<u32>)
        requires
            left.wf(),
            right.wf(),
            left@.value.len() == right@.value.len(),
        ensures
            r@ == seq_add(left@.value, right@.value),
    {
        vec_add(left.value(), right.value())
    }
}

impl Subtract {
    pub fn new(ids: &mut IdAllocator, left: ANode, right: ANode) -> (r: ANode)
        requires
            old(ids).wf(),
            old(ids).spec_next() < u64::MAX,
            left.wf(),
            right.wf(),
            old(ids).owns(left@),
            old(ids).owns(right@),
            left@.value.len() == right@.value.len(),
        ensures
            r.wf(),
            r@.op == OpKind::Subtract,
            r@.children =~= seq![left@, right@],
            r@.value == seq_sub(left@.value, right@.value),
            r@.id == old(ids).spec_next(),
            final(ids).spec_next() == old(ids).spec_next() + 1,
            final(ids).wf(),
            final(ids).owns(r@),
            forall|v: NodeView| old(ids).owns(v) ==> #[trigger] final(ids).owns(v),
    {
        let value = Subtract::compute(&left, &right);
        let n = assemble_binary(ids, OpKind::Subtract, left, right, value);
        proof {
            assert(local_shape_ok(n@));
            assert(shape_ok(n@));
        }
        n
    }

    pub fn compute(left: &ANode, right: &ANode) -> (r: Vec<u32>)
        requires
            left.wf(),
            right.wf(),
            left@.value.len() == right@.value.len(),
        ensures
            r@ == seq_sub(left@.value, right@.value),
    {
        vec_sub(left.value(), right.value())
    }
}

impl Multiply {
    pub fn new(ids: &mut IdAllocator, left: ANode, right: ANode) -> (r: ANode)
        requires
            old(ids).wf(),
            old(ids).spec_next() < u64::MAX,
            left.wf(),
            right.wf(),
            old(ids).owns(left@),
            old(ids).owns(right@),
            left@.value.len() == right@.value.len(),
        ensures
            r.wf(),
            r@.op == OpKind::Multiply,
            r@.children =~= seq![left@, right@],
            r@.value == seq_mul(left@.value, right@.value),
            r@.id == old(ids).spec_next(),
            final(ids).spec_next() == old(ids).spec_next() + 1,
            final(ids).wf(),
            final(ids).owns(r@),
            forall|v: NodeView| old(ids).owns(v) ==> #[trigger] final(ids).owns(v),
    {
        let value = Multiply::compute(&left, &right);
        let n = assemble_binary(ids, OpKind::Multiply, left, right, value);
        proof {
            assert(local_shape_ok(n@));
            assert(shape_ok(n@));
        }
        n
    }

    pub fn compute(left: &ANode, right: &ANode) -> (r: Vec<u32>)
        requires
            left.wf(),
            right.wf(),
            left@.value.len() == right@.value.len(),
        ensures
            r@ == seq_mul(left@.value, right@.value),
    {
        vec_mul(left.value(), right.value())
    }
}

impl Divide {
    pub fn new(ids: &mut IdAllocator, left: ANode, right: ANode) -> (r: ANode)
        requires
            old(ids).wf(),
            old(ids).spec_next() < u64::MAX,
            left.wf(),
            right.wf(),
            old(ids).owns(left@),
            old(ids).owns(right@),
            left@.value.len() == right@.value.len(),
        ensures
            r.wf(),
            r@.op == OpKind::Divide,
            r@.children =~= seq![left@, right@],
            r@.value == seq_div(left@.value, right@.value),
            r@.id == old(ids).spec_next(),
            final(ids).spec_next() == old(ids).spec_next() + 1,
            final(ids).wf(),
            final(ids).owns(r@),
            forall|v: NodeView| old(ids).owns(v) ==> #[trigger] final(ids).owns(v),
    {
        let value = Divide::compute(&left, &right);
        let n = assemble_binary(ids, OpKind::Divide, left, right, value);
        proof {
            assert(local_shape_ok(n@));
            assert(shape_ok(n@));
        }
        n
    }

    pub fn compute(left: &ANode, right: &ANode) -> (r: Vec<u32>)
        requires
            left.wf(),
            right.wf(),
            left@.value.len() == right@.value.len(),
        ensures
            r@ == seq_div(left@.value, right@.value),
    {
        vec_div(left.value(), right.value())
    }
}

impl Power {
    pub fn new(ids: &mut IdAllocator, base: ANode, exp: ANode) -> (r: ANode)
        requires
            old(ids).wf(),
            old(ids).spec_next() < u64::MAX,
            base.wf(),
            exp.wf(),
            old(ids).owns(base@),
            old(ids).owns(exp@),
            base@.value.len() == exp@.value.len(),
        ensures
            r.wf(),
            r@.op == OpKind::Power,
            r@.children =~= seq![base@, exp@],
            r@.value == seq_pow(base@.value, exp@.value),
            r@.id == old(ids).spec_next(),
            final(ids).spec_next() == old(ids).spec_next() + 1,
            final(ids).wf(),
            final(ids).owns(r@),
            forall|v: NodeView| old(ids).owns(v) ==> #[trigger] final(ids).owns(v),
    {
        let value = Power::compute(&base, &exp);
        let n = assemble_binary(ids, OpKind::Power, base, exp, value);
        proof {
            assert(local_shape_ok(n@));
            assert(shape_ok(n@));
        }
        n
    }

    pub fn compute(left: &ANode, right: &ANode) -> (r: Vec<u32>)
        requires
            left.wf(),
            right.wf(),
            left@.value.len() == right@.value.len(),
        ensures
            r@ == seq_pow(left@.value, right@.value),
    {
        vec_pow(left.value(), right.value())
    }
}

/// Builds one unary composite node from its single child.
fn assemble_unary(ids: &mut IdAllocator, op: OpKind, input: ANode, value: Vec<u32>) -> (r: ANode)
    requires
        old(ids).wf(),
        old(ids).spec_next() < u64::MAX,
        input.wf(),
        old(ids).owns(input@),
    ensures
        r@.id == old(ids).spec_next(),
        r@.op == op,
        r@.value == value@,
        r@.children == seq![input@],
        crate::node::matches_view(r, r@),
        forall|i: int| 0 <= i < r@.children.len() ==> shape_ok(#[trigger] r@.children[i]),
        final(ids).wf(),
        final(ids).owns(r@),
        final(ids).spec_next() == old(ids).spec_next() + 1,
        forall|v: NodeView| old(ids).owns(v) ==> #[trigger] final(ids).owns(v),
{
    let ghost iv = input@;
    let mut children: Vec<ANode> = Vec::new();
    children.push(input);
    let ghost cseq = children@;
    let n = assemble(ids, op, children, value);
    proof {
        assert(n@.children == views_of(cseq));
        assert(n@.children =~= seq![iv]) by {
            assert(cseq[0]@ == iv);
        }
        assert(shape_ok(iv));
    }
    n
}

impl SumVec {
    pub fn new(ids: &mut IdAllocator, input: ANode) -> (r: ANode)
        requires
            old(ids).wf(),
            old(ids).spec_next() < u64::MAX,
            input.wf(),
            old(ids).owns(input@),
            input@.value.len() >= 1,
        ensures
            r.wf(),
            r@.op == OpKind::SumVec,
            r@.children =~= seq![input@],
            r@.value =~= seq![sum_bits(input@.value)],
            r@.id == old(ids).spec_next(),
            final(ids).spec_next() == old(ids).spec_next() + 1,
            final(ids).wf(),
            final(ids).owns(r@),
            forall|v: NodeView| old(ids).owns(v) ==> #[trigger] final(ids).owns(v),
    {
        let value = SumVec::compute(&input);
        let n = assemble_unary(ids, OpKind::SumVec, input, value);
        proof {
            assert(n@.value =~= seq![sum_bits(n@.children[0].value)]);
            assert(local_shape_ok(n@));
            assert(shape_ok(n@));
        }
        n
    }

    pub fn compute(left: &ANode) -> (r: Vec<u32>)
        requires
            left.wf(),
        ensures
            r@ =~= seq![sum_bits(left@.value)],
    {
        let mut out: Vec<u32> = Vec::new();
        out.push(vec_sum(left.value()));
        out
    }
}

impl Cos {
    pub fn new(ids: &mut IdAllocator, input: ANode) -> (r: ANode)
        requires
            old(ids).wf(),
            old(ids).spec_next() < u64::MAX,
            input.wf(),
            old(ids).owns(input@),
        ensures
            r.wf(),
            r@.op == OpKind::Cos,
            r@.children =~= seq![input@],
            r@.value == seq_cos(input@.value),
            r@.id == old(ids).spec_next(),
            final(ids).spec_next() == old(ids).spec_next() + 1,
            final(ids).wf(),
            final(ids).owns(r@),
            forall|v: NodeView| old(ids).owns(v) ==> #[trigger] final(ids).owns(v),
    {
        let value = Cos::compute(&input);
        let n = assemble_unary(ids, OpKind::Cos, input, value);
        proof {
            assert(local_shape_ok(n@));
            assert(shape_ok(n@));
        }
        n
    }

    pub fn compute(left: &ANode) -> (r: Vec<u32>)
        requires
            left.wf(),
        ensures
            r@ == seq_cos(left@.value),
    {
        vec_cos(left.value())
    }
}

impl Sin {
    pub fn new(ids: &mut IdAllocator, input: ANode) -> (r: ANode)
        requires
            old(ids).wf(),
            old(ids).spec_next() < u64::MAX,
            input.wf(),
            old(ids).owns(input@),
        ensures
            r.wf(),
            r@.op == OpKind::Sin,
            r@.children =~= seq![input@],
            r@.value == seq_sin(input@.value),
            r@.id == old(ids).spec_next(),
            final(ids).spec_next() == old(ids).spec_next() + 1,
            final(ids).wf(),
            final(ids).owns(r@),
            forall|v: NodeView| old(ids).owns(v) ==> #[trigger] final(ids).owns(v),
    {
        let value = Sin::compute(&input);
        let n = assemble_unary(ids, OpKind::Sin, input, value);
        proof {
            assert(local_shape_ok(n@));
            assert(shape_ok(n@));
        }
        n
    }

    pub fn compute(left: &ANode) -> (r: Vec<u32>)
        requires
            left.wf(),
        ensures
            r@ == seq_sin(left@.value),
    {
        vec_sin(left.value())
    }
}

impl Ln {
    pub fn new(ids: &mut IdAllocator, input: ANode) -> (r: ANode)
        requires
            old(ids).wf(),
            old(ids).spec_next() < u64::MAX,
            input.wf(),
            old(ids).owns(input@),
        ensures
            r.wf(),
            r@.op == OpKind::Ln,
            r@.children =~= seq![input@],
            r@.value == seq_ln(input@.value),
            r@.id == old(ids).spec_next(),
            final(ids).spec_next() == old(ids).spec_next() + 1,
            final(ids).wf(),
            final(ids).owns(r@),
            forall|v: NodeView| old(ids).owns(v) ==> #[trigger] final(ids).owns(v),
    {
        let value = Ln::compute(&input);
        let n = assemble_unary(ids, OpKind::Ln, input, value);
        proof {
            assert(local_shape_ok(n@));
            assert(shape_ok(n@));
        }
        n
    }

    pub fn compute(left: &ANode) -> (r: Vec<u32>)
        requires
            left.wf(),
        ensures
            r@ == seq_ln(left@.value),
    {
        vec_ln(left.value())
    }
}

impl Exp {
    pub fn new(ids: &mut IdAllocator, input: ANode) -> (r: ANode)
        requires
            old(ids).wf(),
            old(ids).spec_next() < u64::MAX,
            input.wf(),
            old(ids).owns(input@),
        ensures
            r.wf(),
            r@.op == OpKind::Exp,
            r@.children =~= seq![input@],
            r@.value == seq_exp(input@.value),
            r@.id == old(ids).spec_next(),
            final(ids).spec_next() == old(ids).spec_next() + 1,
            final(ids).wf(),
            final(ids).owns(r@),
            forall|v: NodeView| old(ids).owns(v) ==> #[trigger] final(ids).owns(v),
    {
        let value = Exp::compute(&input);
        let n = assemble_unary(ids, OpKind::Exp, input, value);
        proof {
            assert(local_shape_ok(n@));
            assert(shape_ok(n@));
        }
        n
    }

    pub fn compute(left: &ANode) -> (r: Vec<u32>)
        requires
            left.wf(),
        ensures
            r@ == seq_exp(left@.value),
    {
        vec_exp(left.value())
    }
}

impl Negate {
    pub fn new(ids: &mut IdAllocator, input: ANode) -> (r: ANode)
        requires
            old(ids).wf(),
            old(ids).spec_next() < u64::MAX,
            input.wf(),
            old(ids).owns(input@),
        ensures
            r.wf(),
            r@.op == OpKind::Negate,
            r@.children =~= seq![input@],
            r@.value == seq_neg(input@.value),
            r@.id == old(ids).spec_next(),
            final(ids).spec_next() == old(ids).spec_next() + 1,
            final(ids).wf(),
            final(ids).owns(r@),
            forall|v: NodeView| old(ids).owns(v) ==> #[trigger] final(ids).owns(v),
    {
        let value = Negate::compute(&input);
        let n = assemble_unary(ids, OpKind::Negate, input, value);
        proof {
            assert(local_shape_ok(n@));
            assert(shape_ok(n@));
        }
        n
    }

    pub fn compute(left: &ANode) -> (r: Vec<u32>)
        requires
            left.wf(),
        ensures
            r@ == seq_neg(left@.value),
    {
        vec_neg(left.value())
    }
}

impl BulkSum {
    pub fn new(ids: &mut IdAllocator, vecs: Vec<ANode>) -> (r: ANode)
        requires
            old(ids).wf(),
            old(ids).spec_next() < u64::MAX,
            vecs@.len() >= 1,
            forall|i: int|
                0 <= i < vecs@.len() ==> (#[trigger] vecs@[i]).wf() && old(ids).owns(vecs@[i]@),
            forall|i: int|
                0 <= i < vecs@.len() ==> (#[trigger] vecs@[i])@.value.len() == vecs@[0]@.value.len(),
        ensures
            r.wf(),
            r@.op == OpKind::BulkSum,
            r@.children =~= views_of(vecs@),
            r@.value == bulk_sum_value(views_of(vecs@), vecs@.len() as int),
            r@.id == old(ids).spec_next(),
            final(ids).spec_next() == old(ids).spec_next() + 1,
            final(ids).wf(),
            final(ids).owns(r@),
            forall|v: NodeView| old(ids).owns(v) ==> #[trigger] final(ids).owns(v),
    {
        let value = BulkSum::compute(&vecs);
        let ghost cs = views_of(vecs@);
        let n = assemble(ids, OpKind::BulkSum, vecs, value);
        proof {
            assert forall|j: int| 0 <= j < cs.len() implies (#[trigger] cs[j]).value.len()
                == cs[0].value.len() by {}
            assert(local_shape_ok(n@));
            assert(shape_ok(n@));
        }
        n
    }

    pub fn compute(xs: &Vec<ANode>) -> (r: Vec<u32>)
        requires
            xs@.len() >= 1,
            forall|i: int| 0 <= i < xs@.len() ==> (#[trigger] xs@[i]).wf(),
            forall|i: int|
                0 <= i < xs@.len() ==> (#[trigger] xs@[i])@.value.len() == xs@[0]@.value.len(),
        ensures
            r@ == bulk_sum_value(views_of(xs@), xs@.len() as int),
    {
        let ghost cs = views_of(xs@);
        let mut agg = vec_zeros(xs[0].value().len());
        proof {
            assert(agg@ =~= bulk_sum_value(cs, 0));
        }
        let mut i: usize = 0;
        while i < xs.len()
            invariant
                i <= xs@.len(),
                xs@.len() >= 1,
                cs == views_of(xs@),
                forall|j: int| 0 <= j < xs@.len() ==> (#[trigger] xs@[j]).wf(),
                forall|j: int|
                    0 <= j < xs@.len() ==> (#[trigger] xs@[j])@.value.len()
                        == xs@[0]@.value.len(),
                agg@ == bulk_sum_value(cs, i as int),
                agg@.len() == xs@[0]@.value.len(),
            decreases xs@.len() - i,
        {
            agg = vec_add(&agg, xs[i].value());
            i += 1;
        }
        agg
    }
}

/// The local chain-rule contribution of node `v` to its `i`-th child, given
/// the upstream gradient `g` of the output with respect to `v`'s value.
pub open spec fn local_grad(v: NodeView, g: Seq<u32>, i: int) -> Seq<u32> {
    match v.op {
        OpKind::Variable => Seq::empty(),
        OpKind::Constant => Seq::empty(),
        OpKind::Add => g,
        OpKind::Subtract => if i == 0 {
            g
        } else {
            seq_neg(g)
        },
        OpKind::Multiply => if i == 0 {
            seq_mul(v.children[1].value, g)
        } else {
            seq_mul(v.children[0].value, g)
        },
        OpKind::Divide => if i == 0 {
            seq_div(g, v.children[1].value)
        } else {
            seq_neg(
                seq_div(
                    seq_mul(g, v.children[0].value),
                    seq_mul(v.children[1].value, v.children[1].value),
                ),
            )
        },
        OpKind::Power => if i == 0 {
            seq_mul(
                g,
                seq_mul(
                    v.children[1].value,
                    seq_pow(
                        v.children[0].value,
                        seq_sub(v.children[1].value, ones(v.children[1].value.len())),
                    ),
                ),
            )
        } else {
            seq_mul(
                g,
                seq_mul(seq_ln(v.children[0].value), seq_pow(v.children[0].value, v.children[1].value)),
            )
        },
        OpKind::SumVec => splat(v.children[0].value.len(), g[0]),
        OpKind::Cos => seq_mul(g, seq_neg(seq_sin(v.children[0].value))),
        OpKind::Sin => seq_mul(g, seq_cos(v.children[0].value)),
        OpKind::Ln => seq_div(g, v.children[0].value),
        OpKind::Exp => seq_mul(g, v.value),
        OpKind::Negate => seq_neg(g),
        OpKind::BulkSum => g,
    }
}

/// Under the shape discipline, each local contribution is as long as the
/// child's value it flows to.
pub proof fn lemma_local_grad_len(v: NodeView, g: Seq<u32>, i: int)
    requires
        shape_ok(v),
        !is_leaf_kind(v.op),
        0 <= i < v.children.len(),
        g.len() == v.value.len(),
    ensures
        local_grad(v, g, i).len() == v.children[i].value.len(),
{
    if v.op == OpKind::BulkSum {
        lemma_bulk_sum_len(v.children, v.children.len() as int);
    }
}

/// The running bulk sum keeps the length of the first child's value.
pub proof fn lemma_bulk_sum_len(cs: Seq<NodeView>, k: int)
    requires
        0 <= k,
    ensures
        bulk_sum_value(cs, k).len() == cs[0].value.len(),
    decreases k,
{
    if k > 0 {
        lemma_bulk_sum_len(cs, k - 1);
    }
}

/// Computes the local chain-rule contribution of `n` to its `i`-th child.
pub(crate) fn compute_child_grad(n: &ANode, i: usize, g: &Vec<u32>) -> (r: Vec<u32>)
    requires
        n.wf(),
        !is_leaf_kind(n@.op),
        i < n@.children.len(),
        g@.len() == n@.value.len(),
    ensures
        r@ == local_grad(n@, g@, i as int),
{
    proof {
        lemma_children_wf(*n);
        if n@.op == OpKind::BulkSum {
            lemma_bulk_sum_len(n@.children, n@.children.len() as int);
        }
    }
    match n.0.op {
        OpKind::Variable => Vec::new(),
        OpKind::Constant => Vec::new(),
        OpKind::Add => vec_dup(g),
        OpKind::BulkSum => vec_dup(g),
        OpKind::Subtract => {
            if i == 0 {
                vec_dup(g)
            } else {
                vec_neg(g)
            }
        },
        OpKind::Multiply => {
            let other = if i == 0 {
                &n.0.children[1]
            } else {
                &n.0.children[0]
            };
            vec_mul(other.value(), g)
        },
        OpKind::Divide => {
            let x = n.0.children[0].value();
            let y = n.0.children[1].value();
            if i == 0 {
                vec_div(g, y)
            } else {
                let num = vec_mul(g, x);
                let den = vec_mul(y, y);
                let q = vec_div(&num, &den);
                vec_neg(&q)
            }
        },
        OpKind::Power => {
            let x = n.0.children[0].value();
            let y = n.0.children[1].value();
            if i == 0 {
                let one_v = vec_ones(y.len());
                let ym1 = vec_sub(y, &one_v);
                let p = vec_pow(x, &ym1);
                let t = vec_mul(y, &p);
                vec_mul(g, &t)
            } else {
                let lx = vec_ln(x);
                let p = vec_pow(x, y);
                let t = vec_mul(&lx, &p);
                vec_mul(g, &t)
            }
        },
        OpKind::SumVec => {
            let len = n.0.children[0].value().len();
            vec_splat(len, g[0])
        },
        OpKind::Cos => {
            let s = vec_sin(n.0.children[0].value());
            let ns = vec_neg(&s);
            vec_mul(g, &ns)
        },
        OpKind::Sin => {
            let c = vec_cos(n.0.children[0].value());
            vec_mul(g, &c)
        },
        OpKind::Ln => vec_div(g, n.0.children[0].value()),
        OpKind::Exp => vec_mul(g, &n.0.value),
        OpKind::Negate => vec_neg(g),
    }
}

impl ANode {
    /// Overwrites each pre-sized buffer with the local chain-rule
    /// contribution for the matching child; it never accumulates, since
    /// summing across consumers is the backward engine's task. On a leaf it
    /// does nothing, there being no buffer to fill.
    pub fn compute_grad(&self, grad: &Vec<u32>, results: &mut Vec<Vec<u32>>)
        requires
            self.wf(),
            grad@.len() == self@.value.len(),
            old(results)@.len() == self@.children.len(),
        ensures
            final(results)@.len() == self@.children.len(),
            forall|i: int|
                0 <= i < self@.children.len() ==> (#[trigger] final(results)@[i])@ == local_grad(
                    self@,
                    grad@,
                    i,
                ),
    {
        if matches!(self.0.op, OpKind::Variable | OpKind::Constant) {
            return ;
        }
        let mut i: usize = 0;
        while i < self.0.children.len()
            invariant
                self.wf(),
                !is_leaf_kind(self@.op),
                grad@.len() == self@.value.len(),
                i <= self@.children.len(),
                self.0.children@.len() == self@.children.len(),
                results@.len() == self@.children.len(),
                forall|j: int|
                    0 <= j < i ==> (#[trigger] results@[j])@ == local_grad(self@, grad@, j),
            decreases self@.children.len() - i,
        {
            let part = compute_child_grad(self, i, grad);
            results.set(i, part);
            i += 1;
        }
    }
}

} // verus!
