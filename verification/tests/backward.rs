use lamp::ops::elementwise::{add, hadamard_mul, sub};
use lamp::ops::linalg::{matmul, tensor_mul};
use lamp::nn::functions::relu;
use lamp::rat::Rat;
use lamp::shape::idx_from_lin;
use lamp::tensor::Tensor;
use lamp::trace::Trace;

fn ri(x: i64) -> Rat {
    Rat::from_int(x)
}

fn t_seq(shape: &[usize]) -> Tensor {
    let size: usize = shape.iter().product();
    let data: Vec<Rat> = (1..=size).map(|x| ri(x as i64)).collect();
    Tensor::from_vec(&data, shape).unwrap()
}

fn rats(data: &[(i64, i64)]) -> Vec<Rat> {
    data.iter().map(|&(n, d)| Rat::from_ratio(n, d)).collect()
}

fn assert_tensor_exact_eq(a: &Tensor, b: &Tensor) {
    assert_eq!(a.shape, b.shape, "shapes differ: {:?} vs {:?}", a.shape, b.shape);
    let total: usize = a.shape.iter().product();
    for lin in 0..total {
        let idx = idx_from_lin(&a.shape, lin);
        assert_eq!(a.get(&idx), b.get(&idx), "mismatch at {:?}", idx);
    }
}

// Drive an operator's gradient rule with an arbitrary upstream gradient: the
// operator output is multiplied elementwise by the chosen gradient, and the
// backward sweep is run from that product, whose seed of ones turns into
// exactly the chosen upstream gradient at the operator node.
fn grads_of_binary(
    op: fn(&mut Trace, usize, usize) -> Result<usize, lamp::tensor::ShapeError>,
    a: &Tensor,
    b: &Tensor,
    g_out: &Tensor,
) -> (Tensor, Tensor) {
    let mut tr = Trace::new();
    let a_id = tr.param(a.duplicate());
    let b_id = tr.param(b.duplicate());
    let y = op(&mut tr, a_id, b_id).unwrap();
    let g_id = tr.input(g_out.duplicate());
    let z = hadamard_mul(&mut tr, y, g_id).unwrap();
    let grads = tr.backward_param_grads(z).unwrap();
    let ga = grads[0].duplicate();
    let gb = grads[1].duplicate();
    (ga, gb)
}

#[test]
fn backward_add_no_broadcast() {
    let a = t_seq(&[2, 3, 4]);
    let b = t_seq(&[2, 3, 4]);
    let g_out = t_seq(&[2, 3, 4]);
    let (ga, gb) = grads_of_binary(add, &a, &b, &g_out);
    assert_eq!(ga.shape, a.shape);
    assert_eq!(gb.shape, b.shape);
    assert_tensor_exact_eq(&ga, &g_out);
    assert_tensor_exact_eq(&gb, &g_out);
}

#[test]
fn backward_add_broadcast_rhs() {
    let a = t_seq(&[2, 3, 4]);
    let b = t_seq(&[1, 3, 4]);
    let g_out = t_seq(&[2, 3, 4]);
    let (ga, gb) = grads_of_binary(add, &a, &b, &g_out);
    let exp_gb = g_out.sum_over_broadcasted_batches(&b.shape);
    assert_eq!(ga.shape, a.shape);
    assert_eq!(gb.shape, b.shape);
    assert_tensor_exact_eq(&ga, &g_out);
    assert_tensor_exact_eq(&gb, &exp_gb);
}

#[test]
fn backward_add_broadcast_lhs_many_dims() {
    let a = t_seq(&[1, 2, 1, 4]);
    let b = t_seq(&[3, 2, 5, 4]);
    let g_out = t_seq(&[3, 2, 5, 4]);
    let (ga, gb) = grads_of_binary(add, &a, &b, &g_out);
    let exp_ga = g_out.sum_over_broadcasted_batches(&a.shape);
    assert_tensor_exact_eq(&ga, &exp_ga);
    assert_tensor_exact_eq(&gb, &g_out);
}

#[test]
fn backward_sub_negates_second_branch() {
    let a = t_seq(&[2, 3]);
    let b = t_seq(&[1, 3]);
    let g_out = t_seq(&[2, 3]);
    let (ga, gb) = grads_of_binary(sub, &a, &b, &g_out);
    let exp_ga = g_out.sum_over_broadcasted_batches(&a.shape);
    let red = g_out.sum_over_broadcasted_batches(&b.shape);
    assert_tensor_exact_eq(&ga, &exp_ga);
    assert_eq!(gb.shape, b.shape);
    let total: usize = b.shape.iter().product();
    for lin in 0..total {
        let idx = idx_from_lin(&b.shape, lin);
        assert_eq!(gb.get(&idx), red.get(&idx).neg());
    }
}

#[test]
fn backward_relu_elementwise() {
    let x = Tensor::from_vec(
        &rats(&[(-2, 1), (-1, 2), (0, 1), (1, 2), (1, 1), (2, 1), (-1, 1), (3, 1)]),
        &[2, 4],
    )
    .unwrap();
    let g_out = t_seq(&[2, 4]);

    let mut tr = Trace::new();
    let x_id = tr.param(x.duplicate());
    let y = relu(&mut tr, x_id);
    let g_id = tr.input(g_out.duplicate());
    let z = hadamard_mul(&mut tr, y, g_id).unwrap();
    let grads = tr.backward_param_grads(z).unwrap();
    let gx = &grads[0];

    assert_eq!(gx.shape, x.shape);
    let total: usize = x.shape.iter().product();
    for lin in 0..total {
        let idx = idx_from_lin(&x.shape, lin);
        let expected = if Rat::zero().lt(x.get(&idx)) {
            g_out.get(&idx)
        } else {
            ri(0)
        };
        assert_eq!(gx.get(&idx), expected, "mismatch at {:?}", idx);
    }
}

fn matmul_backward_case(a: &Tensor, b: &Tensor) {
    let mut tr = Trace::new();
    let a_id = tr.param(a.duplicate());
    let b_id = tr.param(b.duplicate());
    let y = matmul(&mut tr, a_id, b_id).unwrap();
    let g_out = t_seq(&tr.get_tensor(y).shape.clone());
    let g_id = tr.input(g_out.duplicate());
    let z = hadamard_mul(&mut tr, y, g_id).unwrap();
    let grads = tr.backward_param_grads(z).unwrap();

    let exp_ga_full = tensor_mul(&g_out, &b.mat_transpose()).unwrap();
    let exp_ga = exp_ga_full.sum_over_broadcasted_batches(&a.shape);
    let exp_gb_full = tensor_mul(&a.mat_transpose(), &g_out).unwrap();
    let exp_gb = exp_gb_full.sum_over_broadcasted_batches(&b.shape);

    assert_tensor_exact_eq(&grads[0], &exp_ga);
    assert_tensor_exact_eq(&grads[1], &exp_gb);
}

#[test]
fn backward_matmul_2d() {
    let a = t_seq(&[3, 5]);
    let b = t_seq(&[5, 4]);
    matmul_backward_case(&a, &b);
}

#[test]
fn backward_matmul_batched_no_broadcast() {
    let a = t_seq(&[2, 3, 5]);
    let b = t_seq(&[2, 5, 4]);
    matmul_backward_case(&a, &b);
}

#[test]
fn backward_matmul_broadcast_rhs() {
    let a = t_seq(&[2, 3, 5]);
    let b = t_seq(&[1, 5, 4]);
    matmul_backward_case(&a, &b);
}

#[test]
fn backward_matmul_broadcast_lhs() {
    let a = t_seq(&[1, 3, 5]);
    let b = t_seq(&[2, 5, 4]);
    matmul_backward_case(&a, &b);
}

#[test]
fn backward_matmul_vec_vec() {
    let a = Tensor::from_vec(&rats(&[(1, 1), (2, 1), (3, 1)]), &[3]).unwrap();
    let b = Tensor::from_vec(&rats(&[(4, 1), (5, 1), (6, 1)]), &[3]).unwrap();
    let g_out = Tensor::from_vec(&rats(&[(2, 1)]), &[1, 1]).unwrap();
    let (ga, gb) = grads_of_binary(matmul, &a, &b, &g_out);
    let exp_ga = Tensor::from_vec(&rats(&[(8, 1), (10, 1), (12, 1)]), &[3]).unwrap();
    let exp_gb = Tensor::from_vec(&rats(&[(2, 1), (4, 1), (6, 1)]), &[3]).unwrap();
    assert_tensor_exact_eq(&ga, &exp_ga);
    assert_tensor_exact_eq(&gb, &exp_gb);
}

#[test]
fn backward_matmul_mat_vec() {
    let a = t_seq(&[2, 3]);
    let b = Tensor::from_vec(&rats(&[(7, 1), (8, 1), (9, 1)]), &[3]).unwrap();
    let g_out = Tensor::from_vec(&rats(&[(10, 1), (100, 1)]), &[2]).unwrap();
    let (ga, gb) = grads_of_binary(matmul, &a, &b, &g_out);
    let exp_ga = Tensor::from_vec(
        &rats(&[(70, 1), (80, 1), (90, 1), (700, 1), (800, 1), (900, 1)]),
        &[2, 3],
    )
    .unwrap();
    let exp_gb = Tensor::from_vec(&rats(&[(410, 1), (520, 1), (630, 1)]), &[3]).unwrap();
    assert_tensor_exact_eq(&ga, &exp_ga);
    assert_tensor_exact_eq(&gb, &exp_gb);
}

#[test]
fn backward_matmul_vec_mat() {
    let a = Tensor::from_vec(&rats(&[(1, 1), (2, 1)]), &[2]).unwrap();
    let b = t_seq(&[2, 3]);
    let g_out = Tensor::from_vec(&rats(&[(1, 1), (10, 1), (100, 1)]), &[3]).unwrap();
    let (ga, gb) = grads_of_binary(matmul, &a, &b, &g_out);
    let exp_ga = Tensor::from_vec(&rats(&[(321, 1), (654, 1)]), &[2]).unwrap();
    let exp_gb = Tensor::from_vec(
        &rats(&[(1, 1), (10, 1), (100, 1), (2, 1), (20, 1), (200, 1)]),
        &[2, 3],
    )
    .unwrap();
    assert_tensor_exact_eq(&ga, &exp_ga);
    assert_tensor_exact_eq(&gb, &exp_gb);
}

#[test]
fn backward_matmul_batched_vec() {
    let a = t_seq(&[2, 2, 2]);
    let b = Tensor::from_vec(&rats(&[(1, 1), (2, 1)]), &[2]).unwrap();
    let g_out = Tensor::from_vec(&rats(&[(1, 1), (2, 1), (3, 1), (4, 1)]), &[2, 2]).unwrap();
    let (ga, gb) = grads_of_binary(matmul, &a, &b, &g_out);
    let exp_ga = Tensor::from_vec(
        &rats(&[(1, 1), (2, 1), (2, 1), (4, 1), (3, 1), (6, 1), (4, 1), (8, 1)]),
        &[2, 2, 2],
    )
    .unwrap();
    let exp_gb = Tensor::from_vec(&rats(&[(50, 1), (60, 1)]), &[2]).unwrap();
    assert_tensor_exact_eq(&ga, &exp_ga);
    assert_tensor_exact_eq(&gb, &exp_gb);
}

#[test]
fn backward_matmul_vec_rational_values() {
    let a = Tensor::from_vec(&rats(&[(1, 2), (1, 3)]), &[2]).unwrap();
    let b = Tensor::from_vec(&rats(&[(3, 1), (6, 1)]), &[2]).unwrap();
    let g_out = Tensor::from_vec(&rats(&[(1, 6)]), &[1, 1]).unwrap();
    let (ga, gb) = grads_of_binary(matmul, &a, &b, &g_out);
    let exp_ga = Tensor::from_vec(&rats(&[(1, 2), (1, 1)]), &[2]).unwrap();
    let exp_gb = Tensor::from_vec(&rats(&[(1, 12), (1, 18)]), &[2]).unwrap();
    assert_tensor_exact_eq(&ga, &exp_ga);
    assert_tensor_exact_eq(&gb, &exp_gb);
}
