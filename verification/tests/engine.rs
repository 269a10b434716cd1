use lamp::nn::layers::bind::ParamCursor;
use lamp::nn::layers::linear::Linear;
use lamp::nn::losses::mse;
use lamp::ops::elementwise::{add, div, hadamard_mul};
use lamp::ops::linalg::matmul;
use lamp::ops::shapes::mean_all;
use lamp::optim::sgd::Sgd;
use lamp::rat::Rat;
use lamp::shape::idx_from_lin;
use lamp::tensor::{ShapeError, Tensor};
use lamp::trace::Trace;
use lamp::utils::params::get_params_id;

fn ri(x: i64) -> Rat {
    Rat::from_int(x)
}

fn rq(n: i64, d: i64) -> Rat {
    Rat::from_ratio(n, d)
}

fn t(data: &[i64], shape: &[usize]) -> Tensor {
    let rats: Vec<Rat> = data.iter().map(|&x| ri(x)).collect();
    Tensor::from_vec(&rats, shape).unwrap()
}

fn assert_tensor_vals(a: &Tensor, expected: &[Rat]) {
    let total: usize = a.shape.iter().product();
    assert_eq!(total, expected.len());
    for lin in 0..total {
        assert_eq!(a.get_from_lin(lin), expected[lin], "mismatch at {}", lin);
    }
}

#[test]
fn rat_canonical_forms() {
    assert_eq!(rq(2, 4), rq(1, 2));
    assert_eq!(rq(-6, 8), rq(-3, 4));
    assert_eq!(rq(0, 7), ri(0));
    assert_eq!(rq(1, 3).add(rq(1, 6)), rq(1, 2));
    assert_eq!(rq(2, 3).mul(rq(3, 4)), rq(1, 2));
    assert_eq!(rq(2, 5).recip(), rq(5, 2));
    assert_eq!(ri(3).sub(ri(5)), ri(-2));
    assert!(rq(1, 3).lt(rq(1, 2)));
    assert!(!rq(1, 2).lt(rq(1, 3)));
    assert_eq!(rq(-7, 2).max(ri(0)), ri(0));
}

// Broadcasting an all-ones origin and reducing back yields the collapse
// count at every position.
#[test]
fn broadcast_roundtrip_counts_collapsed_positions() {
    let ones = Tensor::ones(&[1, 3]);
    let view = ones.broadcast_view(&[4, 3]).unwrap();
    let back = view.sum_over_broadcasted_batches(&[1, 3]);
    assert_eq!(back.shape, vec![1, 3]);
    // numel([4,3]) / numel([1,3]) == 4
    assert_tensor_vals(&back, &[ri(4), ri(4), ri(4)]);
}

// Elementwise add gradient on fixed shapes and a fixed upstream gradient.
#[test]
fn add_gradient_reduces_to_operand_shapes() {
    let a = t(&[5, 5, 5, 5, 5, 5], &[2, 3]);
    let b = t(&[7, 7, 7], &[1, 3]);
    let g = t(&[1, 2, 3, 10, 20, 30], &[2, 3]);

    let mut tr = Trace::new();
    let a_id = tr.param(a.duplicate());
    let b_id = tr.param(b.duplicate());
    let y = add(&mut tr, a_id, b_id).unwrap();
    let g_id = tr.input(g.duplicate());
    let z = hadamard_mul(&mut tr, y, g_id).unwrap();
    let grads = tr.backward_param_grads(z).unwrap();

    assert_eq!(grads[0].shape, vec![2, 3]);
    assert_tensor_vals(&grads[0], &[ri(1), ri(2), ri(3), ri(10), ri(20), ri(30)]);
    assert_eq!(grads[1].shape, vec![1, 3]);
    assert_tensor_vals(&grads[1], &[ri(11), ri(22), ri(33)]);
}

// The rectifier's gradient is zero at every non-positive input, zero
// included, whatever the upstream gradient.
#[test]
fn relu_boundary_gradient() {
    let data = vec![rq(-2, 1), rq(-1, 2), rq(0, 1), rq(1, 2), rq(1, 1)];
    let x = Tensor::from_vec(&data, &[5]).unwrap();
    let g = t(&[9, 9, 9, 9, 9], &[5]);

    let mut tr = Trace::new();
    let x_id = tr.param(x.duplicate());
    let y = lamp::nn::functions::relu(&mut tr, x_id);
    let g_id = tr.input(g.duplicate());
    let z = hadamard_mul(&mut tr, y, g_id).unwrap();
    let grads = tr.backward_param_grads(z).unwrap();

    assert_tensor_vals(&grads[0], &[ri(0), ri(0), ri(0), ri(9), ri(9)]);
}

// Every node of the backward order comes before each of its parents, so a
// node's gradient is complete before its own rule would run.
#[test]
fn order_is_topological() {
    let mut tr = Trace::new();
    let x = tr.param(t(&[1, 2, 3, 4], &[2, 2]));
    let y = lamp::nn::functions::relu(&mut tr, x);
    let w = tr.param(t(&[1, 0, 0, 1], &[2, 2]));
    let p = matmul(&mut tr, y, w).unwrap();
    let s = add(&mut tr, p, x).unwrap();
    let order = tr.order(s);

    // strictly decreasing ids, hence topological for this trace
    for k in 1..order.len() {
        assert!(order[k - 1] > order[k]);
    }
    // the root is first, every parent of a listed node appears after it
    assert_eq!(order[0], s);
    assert!(order.contains(&x) && order.contains(&y) && order.contains(&w) && order.contains(&p));
}

// A parameter that never feeds the root is a missing gradient; forward-only
// branches elsewhere are silently skipped.
#[test]
fn missing_gradient_is_reported() {
    let mut tr = Trace::new();
    let x = tr.param(t(&[1, 2], &[2]));
    let unused = tr.param(t(&[3, 4], &[2]));
    let y = lamp::nn::functions::relu(&mut tr, x);
    let r = tr.backward_param_grads(y);
    assert!(r.is_err());
    let _ = unused;
}

// The mean of [1,2,3,4] is five halves; its gradient spreads a quarter to
// every element.
#[test]
fn mean_all_forward_and_backward() {
    let mut tr = Trace::new();
    let x = tr.param(t(&[1, 2, 3, 4], &[4]));
    let m = mean_all(&mut tr, x);
    assert_eq!(tr.get_tensor(m).shape, Vec::<usize>::new());
    let e: [usize; 0] = [];
    assert_eq!(tr.get_tensor(m).get(&e), rq(5, 2));

    let grads = tr.backward_param_grads(m).unwrap();
    assert_tensor_vals(&grads[0], &[rq(1, 4), rq(1, 4), rq(1, 4), rq(1, 4)]);
}

#[test]
fn mse_of_equal_inputs_is_zero() {
    let mut tr = Trace::new();
    let p = tr.input(t(&[1, 2, 3], &[3]));
    let q = tr.input(t(&[1, 2, 3], &[3]));
    let l = mse(&mut tr, p, q).unwrap();
    let e: [usize; 0] = [];
    assert_eq!(tr.get_tensor(l).get(&e), ri(0));
}

#[test]
fn mse_incompatible_shapes_is_error() {
    let mut tr = Trace::new();
    let p = tr.input(t(&[1, 2, 3], &[3]));
    let q = tr.input(t(&[1, 2], &[2]));
    let r = mse(&mut tr, p, q);
    assert!(matches!(r, Err(ShapeError::Incompatible)));
}

#[test]
fn matmul_dim_mismatch_is_error() {
    let mut tr = Trace::new();
    let a = tr.input(t(&[1, 2, 3, 4, 5, 6], &[2, 3]));
    let b = tr.input(t(&[1, 2, 3, 4], &[2, 2]));
    let r = matmul(&mut tr, a, b);
    assert!(matches!(r, Err(ShapeError::DimMismatch)));
}

#[test]
fn sum_last_and_max_last_keep_dim() {
    let x = t(&[3, 1, 2, 6, 5, 4], &[2, 3]);
    let s = x.sum_last();
    assert_eq!(s.shape, vec![2, 1]);
    assert_eq!(s.get(&[0, 0]), ri(6));
    assert_eq!(s.get(&[1, 0]), ri(15));
    let m = x.max_last();
    assert_eq!(m.shape, vec![2, 1]);
    assert_eq!(m.get(&[0, 0]), ri(3));
    assert_eq!(m.get(&[1, 0]), ri(6));
}

#[test]
fn argmax_last_picks_first_maximum() {
    let x = t(&[1, 3, 3, 2, 0, 0, 0, 0], &[2, 4]);
    let args = x.argmax_last();
    assert_eq!(args, vec![1, 0]);
}

#[test]
fn transpose_and_squeeze_views() {
    let x = t(&[1, 2, 3, 4, 5, 6], &[2, 3]);
    let xt = x.mat_transpose();
    assert_eq!(xt.shape, vec![3, 2]);
    assert_eq!(xt.get(&[0, 1]), ri(4));
    assert_eq!(xt.get(&[2, 0]), ri(3));
    let u = x.unsqueeze_view(0);
    assert_eq!(u.shape, vec![1, 2, 3]);
    assert_eq!(u.get(&[0, 1, 2]), ri(6));
    let sq = u.squeeze_view(0);
    assert_eq!(sq.shape, vec![2, 3]);
    assert_eq!(sq.get(&[1, 1]), ri(5));
}

#[test]
fn from_vec_rejects_wrong_length() {
    let data = vec![ri(1), ri(2), ri(3)];
    let r = Tensor::from_vec(&data, &[2, 2]);
    assert!(matches!(r, Err(ShapeError::Incompatible)));
}

#[test]
fn param_cursor_walks_in_order() {
    let ids: Vec<usize> = vec![4, 7, 9, 12];
    let mut cur = ParamCursor::new(&ids);
    assert_eq!(cur.remaining(), 4);
    let l = Linear::bind(&mut cur);
    assert_eq!(l.w, 4);
    assert_eq!(l.b, 7);
    assert_eq!(cur.take(), 9);
    assert_eq!(cur.remaining(), 1);
}

// One training step of a single-layer linear model under mean-squared error:
// y = x W + b against a zero target, learning rate one tenth, on fixed
// inputs, reproduces hand-computed loss, gradients and updated parameters.
#[test]
fn end_to_end_linear_sgd_step() {
    let w0 = t(&[1, 2, 3, 4], &[2, 2]);
    let b0 = t(&[5, 6], &[2]);
    let x = t(&[1, 2], &[1, 2]);
    let target = t(&[0, 0], &[1, 2]);

    let mut tr = Trace::new();
    let params: Vec<Tensor> = vec![w0.duplicate(), b0.duplicate()];
    let pids = get_params_id(&mut tr, &params);
    let x_id = tr.input(x.duplicate());
    let t_id = tr.input(target.duplicate());

    let mut cur = ParamCursor::new(&pids);
    let layer = Linear::bind(&mut cur);
    let pred = layer.apply(&mut tr, x_id).unwrap();
    // pred = [1*1 + 2*3 + 5, 1*2 + 2*4 + 6] = [12, 16]
    assert_tensor_vals(tr.get_tensor(pred), &[ri(12), ri(16)]);

    let loss = mse(&mut tr, pred, t_id).unwrap();
    let e: [usize; 0] = [];
    // loss = (144 + 256) / 2 = 200
    assert_eq!(tr.get_tensor(loss).get(&e), ri(200));

    let grads = tr.backward_param_grads(loss).unwrap();
    // dW = x^T (pred - target) = [[12, 16], [24, 32]]; db = [12, 16]
    assert_tensor_vals(&grads[0], &[ri(12), ri(16), ri(24), ri(32)]);
    assert_tensor_vals(&grads[1], &[ri(12), ri(16)]);

    let opt = Sgd { lr: rq(1, 10) };
    let updated = opt.update(&params, &grads);
    assert_tensor_vals(&updated[0], &[rq(-1, 5), rq(2, 5), rq(3, 5), rq(4, 5)]);
    assert_tensor_vals(&updated[1], &[rq(19, 5), rq(22, 5)]);
}

// The quotient operator: elementwise forward, quotient-rule backward.
#[test]
fn div_forward_and_quotient_rule_backward() {
    let a = t(&[1, 8, 9], &[3]);
    let b = t(&[2, 4, 3], &[3]);
    let g = t(&[6, 6, 6], &[3]);

    let mut tr = Trace::new();
    let a_id = tr.param(a.duplicate());
    let b_id = tr.param(b.duplicate());
    let y = div(&mut tr, a_id, b_id).unwrap();
    assert_tensor_vals(tr.get_tensor(y), &[rq(1, 2), ri(2), ri(3)]);

    let g_id = tr.input(g.duplicate());
    let z = hadamard_mul(&mut tr, y, g_id).unwrap();
    let grads = tr.backward_param_grads(z).unwrap();
    // da = g / b; db = -g * a / b^2
    assert_tensor_vals(&grads[0], &[ri(3), rq(3, 2), ri(2)]);
    assert_tensor_vals(&grads[1], &[rq(-3, 2), ri(-3), ri(-6)]);
}

#[test]
fn div_by_broadcast_divisor_reduces_gradient() {
    let a = t(&[2, 4, 6, 8], &[2, 2]);
    let b = t(&[2, 2], &[1, 2]);
    let g = t(&[1, 1, 1, 1], &[2, 2]);

    let mut tr = Trace::new();
    let a_id = tr.param(a.duplicate());
    let b_id = tr.param(b.duplicate());
    let y = div(&mut tr, a_id, b_id).unwrap();
    assert_tensor_vals(tr.get_tensor(y), &[ri(1), ri(2), ri(3), ri(4)]);

    let g_id = tr.input(g.duplicate());
    let z = hadamard_mul(&mut tr, y, g_id).unwrap();
    let grads = tr.backward_param_grads(z).unwrap();
    // da = g / b broadcast; db = column sums of -g * a / b^2
    assert_tensor_vals(&grads[0], &[rq(1, 2), rq(1, 2), rq(1, 2), rq(1, 2)]);
    assert_tensor_vals(&grads[1], &[ri(-2), ri(-3)]);
}

// Mapping over a broadcast view materialises a fresh dense tensor rather
// than returning a zero-stride alias.
#[test]
fn apply_materialises_broadcast_views() {
    let ones = Tensor::ones(&[1, 3]);
    let view = ones.broadcast_view(&[2, 3]).unwrap();
    assert_eq!(view.data.len(), 3);
    let r = view.apply(|x| x);
    assert_eq!(r.shape, vec![2, 3]);
    assert_eq!(r.data.len(), 6);
    assert_eq!(r.offset, 0);
    assert_eq!(r.strides, vec![3, 1]);
}

#[test]
fn accum_fills_then_adds() {
    let mut slot: Option<Tensor> = None;
    Trace::accum(&mut slot, t(&[1, 2, 3], &[3]));
    Trace::accum(&mut slot, t(&[10, 20, 30], &[3]));
    let acc = slot.unwrap();
    assert_tensor_vals(&acc, &[ri(11), ri(22), ri(33)]);
}

#[test]
fn param_nodes_are_marked_trainable() {
    let mut tr = Trace::new();
    let p = tr.param(t(&[1], &[1]));
    let i = tr.input(t(&[2], &[1]));
    assert!(tr.is_param(p));
    assert!(!tr.is_param(i));
}

#[test]
fn random_tensor_is_dense_with_requested_shape() {
    let r = Tensor::random(&[2, 3], rq(1, 1));
    assert_eq!(r.shape, vec![2, 3]);
    assert_eq!(r.data.len(), 6);
    assert_eq!(r.offset, 0);
}

#[test]
fn get_from_lin_matches_get() {
    let x = t(&[1, 2, 3, 4, 5, 6, 7, 8], &[2, 2, 2]);
    let total: usize = x.shape.iter().product();
    for lin in 0..total {
        let idx = idx_from_lin(&x.shape, lin);
        assert_eq!(x.get_from_lin(lin), x.get(&idx));
    }
}
