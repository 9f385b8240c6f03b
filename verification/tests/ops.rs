use revgrad::{AddN, Constant, Divide, Exp, Graph, IdAllocator, Multiply, Negate, Power, Subtract, SumVec, Variable};

fn bits(vs: &[f32]) -> Vec<u32> {
    vs.iter().map(|v| v.to_bits()).collect()
}

#[test]
fn test_add() {
    let mut ids = IdAllocator::new();
    let x = Variable::new(&mut ids, bits(&[0., 1.]));
    let y = Variable::new(&mut ids, bits(&[2., 3.]));
    let res = AddN::new(&mut ids, x, y);
    assert_eq!(res.value(), &bits(&[2., 4.]));
}

#[test]
fn test_sub() {
    let mut ids = IdAllocator::new();
    let x = Variable::new(&mut ids, bits(&[0., 1.]));
    let y = Variable::new(&mut ids, bits(&[2., 3.]));
    let res = Subtract::new(&mut ids, x, y);
    assert_eq!(res.value(), &bits(&[-2., -2.]));
}

#[test]
fn test_mul() {
    let mut ids = IdAllocator::new();
    let x = Variable::new(&mut ids, bits(&[0., 1.]));
    let y = Variable::new(&mut ids, bits(&[2., 3.]));
    let res = Multiply::new(&mut ids, x, y);
    assert_eq!(res.value(), &bits(&[0., 3.]));
}

#[test]
fn test_div() {
    let mut ids = IdAllocator::new();
    let x = Variable::new(&mut ids, bits(&[0., 1.]));
    let y = Variable::new(&mut ids, bits(&[2., 3.]));
    let res = Divide::new(&mut ids, x, y);
    assert_eq!(res.value(), &bits(&[0., 1. / 3.]));
}

#[test]
fn test_pow() {
    let mut ids = IdAllocator::new();
    let x = Variable::new(&mut ids, bits(&[0., 1., 2.]));
    let y = Variable::new(&mut ids, bits(&[2., 3., 3.]));
    let res = Power::new(&mut ids, x, y);
    assert_eq!(res.value(), &bits(&[0., 1., 8.]));
}

#[test]
fn test_exp() {
    let mut ids = IdAllocator::new();
    let x = Variable::new(&mut ids, bits(&[0., 1., 2.]));
    let out = Exp::new(&mut ids, x.clone());
    let mut graph = Graph::new();
    graph.backward(&out);
    let _grad = graph.get_grad(&x);
    assert_eq!(out.value(), &bits(&[1., 1f32.exp(), 2f32.exp()]));
}

#[test]
fn test_neg_exp() {
    let mut ids = IdAllocator::new();
    let x = Variable::new(&mut ids, bits(&[0., 1., 2.]));
    let nx = Negate::new(&mut ids, x.clone());
    let enx = Exp::new(&mut ids, nx);
    let out = enx;
    let mut graph = Graph::new();
    graph.backward(&out);

    let grad = graph.get_grad(&x).unwrap();
    assert_eq!(grad, &bits(&[-1., -(-1f32).exp(), -(-2f32).exp()]));
}

#[test]
fn test_backward_pass_simple1() {
    // 2x
    // df/dx = 2
    let mut ids = IdAllocator::new();
    let x = Variable::new(&mut ids, bits(&[0f32]));
    let two = Constant::scalar(&mut ids, 2f32.to_bits());
    let x2 = Multiply::new(&mut ids, x.clone(), two);

    let mut graph = Graph::new();
    graph.backward(&x2);
    let x_grad = graph.get_grad(&x);
    assert_eq!(Some(&bits(&[2f32])), x_grad);
}

#[test]
fn test_backward_pass_simple2() {
    // 2 + x
    // df/dx = 1
    let mut ids = IdAllocator::new();
    let x = Variable::new(&mut ids, bits(&[0f32]));
    let two = Constant::scalar(&mut ids, 2f32.to_bits());
    let x2 = AddN::new(&mut ids, x.clone(), two);

    let mut graph = Graph::new();
    graph.backward(&x2);
    let x_grad = graph.get_grad(&x);
    assert_eq!(Some(&bits(&[1f32])), x_grad);
}

#[test]
fn test_backward_pass_simple3() {
    // x - y
    // df/dx = 1
    let mut ids = IdAllocator::new();
    let x = Variable::new(&mut ids, bits(&[1f32]));
    let y = Variable::new(&mut ids, bits(&[2f32]));
    let x2 = Subtract::new(&mut ids, x.clone(), y.clone());

    let mut graph = Graph::new();
    graph.backward(&x2);
    let x_grad = graph.get_grad(&x);
    let y_grad = graph.get_grad(&y);

    assert_eq!(Some(&bits(&[1f32])), x_grad);
    assert_eq!(Some(&bits(&[-1f32])), y_grad);
}

#[test]
fn test_backward_pass_simple4() {
    // x ^ 2
    // df/dx = 2x
    let mut ids = IdAllocator::new();
    let x = Variable::new(&mut ids, bits(&[1f32]));
    let two = Constant::scalar(&mut ids, 2f32.to_bits());
    let x2 = Power::new(&mut ids, x.clone(), two);

    let mut graph = Graph::new();
    graph.backward(&x2);

    let x_grad = graph.get_grad(&x);
    assert_eq!(Some(&bits(&[2f32])), x_grad);
}

#[test]
fn test_backward_pass_simple5() {
    // x ^ 2 + 3x
    // df/dx = 2x + 3
    let mut ids = IdAllocator::new();
    let x = Variable::new(&mut ids, bits(&[1f32]));
    let two = Constant::scalar(&mut ids, 2f32.to_bits());
    let three = Constant::scalar(&mut ids, 3f32.to_bits());
    let x2 = Power::new(&mut ids, x.clone(), two);
    let x3 = Multiply::new(&mut ids, x.clone(), three);
    let x4 = AddN::new(&mut ids, x2, x3);

    assert_eq!(x4.value(), &bits(&[4f32]));

    let mut graph = Graph::new();
    graph.backward(&x4);

    let x_grad = graph.get_grad(&x);
    assert_eq!(Some(&bits(&[5f32])), x_grad);
}

#[test]
fn test_backward_pass_simple6() {
    // 2x + 3
    // df/dx = 2
    let mut ids = IdAllocator::new();
    let x = Variable::new(&mut ids, bits(&[0f32]));
    let two = Constant::scalar(&mut ids, 2f32.to_bits());
    let three = Constant::scalar(&mut ids, 3f32.to_bits());
    let x2 = Multiply::new(&mut ids, x.clone(), two);
    let x2_3 = AddN::new(&mut ids, x2, three);

    let mut graph = Graph::new();
    graph.backward(&x2_3);
    let x_grad = graph.get_grad(&x);
    assert_eq!(Some(&bits(&[2f32])), x_grad);
}

#[test]
fn test_backward_pass_simple7() {
    // dot(x, y)
    let mut ids = IdAllocator::new();
    let x = Variable::new(&mut ids, bits(&[1f32, 2f32, 3f32]));
    let y = Variable::new(&mut ids, bits(&[0f32, 2f32, 4f32]));
    let x2 = Multiply::new(&mut ids, x.clone(), y.clone());
    let ret = SumVec::new(&mut ids, x2);

    assert_eq!(ret.value(), &bits(&[16f32]));
    let mut graph = Graph::new();
    graph.backward(&ret);
    let x_grad = graph.get_grad(&x);
    assert_eq!(Some(&bits(&[0f32, 2f32, 4f32])), x_grad);
}

#[test]
fn test_backward_pass_complicated() {
    // (x+2) ^ 2
    // x^2 + 4x + 4
    // 2x + 4
    let mut ids = IdAllocator::new();
    let x = Variable::new(&mut ids, bits(&[0f32]));
    let two = Constant::scalar(&mut ids, 2f32.to_bits());
    let two_again = Constant::scalar(&mut ids, 2f32.to_bits());
    let x2 = AddN::new(&mut ids, x.clone(), two);
    let x2_2 = Power::new(&mut ids, x2.clone(), two_again);

    assert_eq!(x2_2.value(), &bits(&[4f32]));

    let mut graph = Graph::new();
    graph.backward(&x2_2);

    let _x2_grad = graph.get_grad(&x2);
    let x_grad = graph.get_grad(&x);
    assert_eq!(Some(&bits(&[4f32])), x_grad);
}

#[test]
fn test_composition() {
    // (x+2) ^ 2
    let mut ids = IdAllocator::new();
    let x = Variable::new(&mut ids, bits(&[0f32]));
    let two = Constant::scalar(&mut ids, 2f32.to_bits());
    let exp_two = Constant::scalar(&mut ids, 2f32.to_bits());
    let sum = AddN::new(&mut ids, x.clone(), two);
    let res = Power::new(&mut ids, sum, exp_two);
    assert_eq!(res.value(), &bits(&[4f32]));

    let mut graph = Graph::new();
    graph.backward(&res);

    let x_grad = graph.get_grad(&x);
    assert_eq!(Some(&bits(&[4f32])), x_grad);
}

#[test]
fn test_sigmoid_denom() {
    // e ^ -x
    let mut ids = IdAllocator::new();
    let x = Variable::new(&mut ids, bits(&[1f32]));
    let nx = Negate::new(&mut ids, x.clone());
    let res = Exp::new(&mut ids, nx);
    assert_eq!(res.value(), &bits(&[(-1f32).exp()]));

    let mut graph = Graph::new();
    graph.backward(&res);

    let x_grad = graph.get_grad(&x);
    let expected = -(-1f32).exp();
    assert_eq!(Some(&bits(&[expected])), x_grad);
}

#[test]
fn test_logistic() {
    // 1 / (1 + e ^ -x)
    let mut ids = IdAllocator::new();
    let x = Variable::new(&mut ids, bits(&[0f32]));
    let nx = Negate::new(&mut ids, x.clone());
    let enx = Exp::new(&mut ids, nx);
    let one_denom = Constant::scalar(&mut ids, 1f32.to_bits());
    let denom = AddN::new(&mut ids, enx, one_denom);
    let one_num = Constant::scalar(&mut ids, 1f32.to_bits());
    let res = Divide::new(&mut ids, one_num, denom);
    assert_eq!(res.value(), &bits(&[0.5]));

    let mut graph = Graph::new();
    graph.backward(&res);

    let x_grad = graph.get_grad(&x);
    let r0 = f32::from_bits(res.value()[0]);
    let sigma_trick = r0 * (1f32 - r0);
    assert_eq!(Some(&bits(&[sigma_trick])), x_grad);
}
