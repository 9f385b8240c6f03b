use revgrad::{
    AddN, BulkSum, Constant, Cos, Divide, Graph, IdAllocator, Ln, Multiply, Negate, Sin, SumVec,
    Variable,
};

fn bits(vs: &[f32]) -> Vec<u32> {
    vs.iter().map(|v| v.to_bits()).collect()
}

#[test]
fn test_cos_forward() {
    let mut ids = IdAllocator::new();
    let x = Variable::new(&mut ids, bits(&[0f32, 1f32]));
    let res = Cos::new(&mut ids, x);
    assert_eq!(res.value(), &vec![1f32.to_bits(), libm::cosf(1f32).to_bits()]);
}

#[test]
fn test_sin_forward() {
    let mut ids = IdAllocator::new();
    let x = Variable::new(&mut ids, bits(&[0f32, 1f32]));
    let res = Sin::new(&mut ids, x);
    assert_eq!(res.value(), &vec![0f32.to_bits(), libm::sinf(1f32).to_bits()]);
}

#[test]
fn test_ln_forward() {
    let mut ids = IdAllocator::new();
    let x = Variable::new(&mut ids, bits(&[1f32, 2f32]));
    let res = Ln::new(&mut ids, x);
    assert_eq!(res.value(), &vec![0f32.to_bits(), libm::logf(2f32).to_bits()]);
}

#[test]
fn test_negate_forward() {
    let mut ids = IdAllocator::new();
    let x = Variable::new(&mut ids, bits(&[1.5f32, -2f32, 0f32]));
    let res = Negate::new(&mut ids, x);
    assert_eq!(res.value(), &bits(&[-1.5f32, 2f32, -0f32]));
}

#[test]
fn test_sum_vec_forward() {
    let mut ids = IdAllocator::new();
    let x = Variable::new(&mut ids, bits(&[1f32, 2f32, 3f32]));
    let res = SumVec::new(&mut ids, x);
    assert_eq!(res.value(), &bits(&[6f32]));
}

#[test]
fn test_bulk_sum() {
    let mut ids = IdAllocator::new();
    let a = Variable::new(&mut ids, bits(&[1f32, 10f32]));
    let b = Variable::new(&mut ids, bits(&[2f32, 20f32]));
    let c = Variable::new(&mut ids, bits(&[3f32, 30f32]));
    let res = BulkSum::new(&mut ids, vec![a.clone(), b.clone(), c]);
    assert_eq!(res.value(), &bits(&[6f32, 60f32]));

    let mut graph = Graph::new();
    graph.backward(&res);
    assert_eq!(Some(&bits(&[1f32, 1f32])), graph.get_grad(&a));
    assert_eq!(Some(&bits(&[1f32, 1f32])), graph.get_grad(&b));
}

#[test]
fn test_divide_by_zero_propagates() {
    let mut ids = IdAllocator::new();
    let x = Variable::new(&mut ids, bits(&[1f32]));
    let y = Variable::new(&mut ids, bits(&[0f32]));
    let res = Divide::new(&mut ids, x, y);
    assert_eq!(res.value(), &bits(&[f32::INFINITY]));
}

#[test]
fn test_determinism_two_passes() {
    let mut ids = IdAllocator::new();
    let x = Variable::new(&mut ids, bits(&[1f32, 2f32]));
    let y = Variable::new(&mut ids, bits(&[3f32, 4f32]));
    let prod = Multiply::new(&mut ids, x.clone(), y.clone());
    let out = SumVec::new(&mut ids, prod);

    let mut g1 = Graph::new();
    g1.backward(&out);
    let mut g2 = Graph::new();
    g2.backward(&out);

    assert_eq!(g1.get_grad(&x), g2.get_grad(&x));
    assert_eq!(g1.get_grad(&y), g2.get_grad(&y));
    assert_eq!(g1.get_grad(&out), g2.get_grad(&out));
    assert_eq!(g1.get_grad(&x), Some(&bits(&[3f32, 4f32])));
}

#[test]
fn test_absent_for_constant() {
    let mut ids = IdAllocator::new();
    let x = Variable::new(&mut ids, bits(&[1f32]));
    let c = Constant::scalar(&mut ids, 2f32.to_bits());
    let out = Multiply::new(&mut ids, x.clone(), c.clone());
    let mut graph = Graph::new();
    graph.backward(&out);
    assert_eq!(None, graph.get_grad(&c));
    assert!(graph.get_grad(&x).is_some());
}

#[test]
fn test_absent_for_unreached_node() {
    let mut ids = IdAllocator::new();
    let x = Variable::new(&mut ids, bits(&[1f32]));
    let y = Variable::new(&mut ids, bits(&[2f32]));
    let other = Variable::new(&mut ids, bits(&[9f32]));
    let out = AddN::new(&mut ids, x.clone(), y);
    let mut graph = Graph::new();
    graph.backward(&out);
    assert_eq!(None, graph.get_grad(&other));
}

#[test]
fn test_absent_before_backward() {
    let mut ids = IdAllocator::new();
    let x = Variable::new(&mut ids, bits(&[1f32]));
    let graph = Graph::new();
    assert_eq!(None, graph.get_grad(&x));
}

#[test]
fn test_shared_node_diamond() {
    // x + x: both consumer edges count in full.
    let mut ids = IdAllocator::new();
    let x = Variable::new(&mut ids, bits(&[5f32]));
    let out = AddN::new(&mut ids, x.clone(), x.clone());
    let mut graph = Graph::new();
    graph.backward(&out);
    assert_eq!(Some(&bits(&[2f32])), graph.get_grad(&x));
}

#[test]
fn test_termination_deep_sharing() {
    // Twenty layers of s_{k+1} = s_k + s_k: heavy fan-out, one pass, done.
    let mut ids = IdAllocator::new();
    let x = Variable::new(&mut ids, bits(&[1f32]));
    let mut s = x.clone();
    for _ in 0..20 {
        s = AddN::new(&mut ids, s.clone(), s.clone());
    }
    assert_eq!(s.value(), &bits(&[1048576f32]));
    let mut graph = Graph::new();
    graph.backward(&s);
    assert_eq!(Some(&bits(&[1048576f32])), graph.get_grad(&x));
}

#[test]
fn test_node_queries() {
    let mut ids = IdAllocator::new();
    let x = Variable::new(&mut ids, bits(&[1f32]));
    let c = Constant::scalar(&mut ids, 2f32.to_bits());
    let out = Multiply::new(&mut ids, x.clone(), c.clone());
    assert_ne!(x.get_id(), c.get_id());
    assert_ne!(x.get_id(), out.get_id());
    assert!(x.is_leaf() && c.is_leaf() && !out.is_leaf());
    assert!(x.requires_grad());
    assert!(!c.requires_grad());
    assert!(!out.requires_grad());
    assert!(x.get_children().is_none());
    let kids = out.get_children().unwrap();
    assert_eq!(kids.len(), 2);
    assert_eq!(kids[0].get_id(), x.get_id());
    assert_eq!(kids[1].get_id(), c.get_id());
}

#[test]
fn test_compute_grad_overwrites() {
    let mut ids = IdAllocator::new();
    let x = Variable::new(&mut ids, bits(&[2f32, 3f32]));
    let y = Variable::new(&mut ids, bits(&[5f32, 7f32]));
    let prod = Multiply::new(&mut ids, x, y);
    let upstream = bits(&[1f32, 1f32]);
    let mut results = vec![bits(&[9f32, 9f32]), bits(&[9f32, 9f32])];
    prod.compute_grad(&upstream, &mut results);
    assert_eq!(results[0], bits(&[5f32, 7f32]));
    assert_eq!(results[1], bits(&[2f32, 3f32]));
}

#[test]
fn test_backward_on_trivial_root() {
    let mut ids = IdAllocator::new();
    let x = Variable::new(&mut ids, bits(&[3f32, 4f32]));
    let mut graph = Graph::new();
    graph.backward(&x);
    assert_eq!(Some(&bits(&[1f32, 1f32])), graph.get_grad(&x));
}

#[test]
fn test_backward_on_constant_root() {
    let mut ids = IdAllocator::new();
    let c = Constant::new(&mut ids, bits(&[3f32]));
    let mut graph = Graph::new();
    graph.backward(&c);
    assert_eq!(None, graph.get_grad(&c));
}

#[test]
fn test_pow_exponent_grad() {
    // f(x) = 2 ^ x at x = 3: df/dx = ln(2) * 2^3, through the exponent branch.
    let mut ids = IdAllocator::new();
    let base = Constant::scalar(&mut ids, 2f32.to_bits());
    let x = Variable::new(&mut ids, bits(&[3f32]));
    let p = revgrad::Power::new(&mut ids, base, x.clone());
    assert_eq!(p.value(), &bits(&[8f32]));
    let mut graph = Graph::new();
    graph.backward(&p);
    assert_eq!(Some(&bits(&[2f32.ln() * 8f32])), graph.get_grad(&x));
}

#[test]
fn test_div_grads() {
    // f(x, y) = x / y at x = 1, y = 4: df/dx = 1/4, df/dy = -1/16.
    let mut ids = IdAllocator::new();
    let x = Variable::new(&mut ids, bits(&[1f32]));
    let y = Variable::new(&mut ids, bits(&[4f32]));
    let res = Divide::new(&mut ids, x.clone(), y.clone());
    let mut graph = Graph::new();
    graph.backward(&res);
    assert_eq!(Some(&bits(&[0.25f32])), graph.get_grad(&x));
    assert_eq!(Some(&bits(&[-0.0625f32])), graph.get_grad(&y));
}

#[test]
fn test_ln_grad() {
    // f(x) = ln(x) at x = 2: df/dx = 1/2.
    let mut ids = IdAllocator::new();
    let x = Variable::new(&mut ids, bits(&[2f32]));
    let res = Ln::new(&mut ids, x.clone());
    let mut graph = Graph::new();
    graph.backward(&res);
    assert_eq!(Some(&bits(&[0.5f32])), graph.get_grad(&x));
}

#[test]
fn test_sin_cos_grads() {
    // At x = 0: d(sin)/dx = cos(0) = 1 and d(cos)/dx = -sin(0) = 0.
    let mut ids = IdAllocator::new();
    let x = Variable::new(&mut ids, bits(&[0f32]));
    let s = Sin::new(&mut ids, x.clone());
    let mut graph = Graph::new();
    graph.backward(&s);
    assert_eq!(Some(&bits(&[1f32])), graph.get_grad(&x));

    let y = Variable::new(&mut ids, bits(&[0f32]));
    let c = Cos::new(&mut ids, y.clone());
    let mut graph2 = Graph::new();
    graph2.backward(&c);
    assert_eq!(Some(&bits(&[0f32])), graph2.get_grad(&y));
}
