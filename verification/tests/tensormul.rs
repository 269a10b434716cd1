use lamp::ops::linalg::tensor_mul;
use lamp::rat::Rat;
use lamp::shape::idx_from_lin;
use lamp::tensor::{project_idx, Tensor};

fn ri(x: i64) -> Rat {
    Rat::from_int(x)
}

fn t_seq(shape: &[usize]) -> Tensor {
    let size: usize = shape.iter().product();
    let data: Vec<Rat> = (1..=size).map(|x| ri(x as i64)).collect();
    Tensor::from_vec(&data, shape).unwrap()
}

// Reference batched product: for every output position, contract explicitly,
// reading each operand through the broadcast projection of the batch index.
fn assert_batched_matmul_ok(a: &Tensor, b: &Tensor) {
    let ra = a.shape.len();
    let rb = b.shape.len();
    let m = a.shape[ra - 2];
    let p = a.shape[ra - 1];
    let n = b.shape[rb - 1];
    assert_eq!(p, b.shape[rb - 2]);

    let c = tensor_mul(a, b).unwrap();
    let batch_a: Vec<usize> = a.shape[..ra - 2].to_vec();
    let batch_b: Vec<usize> = b.shape[..rb - 2].to_vec();
    let out_rank = c.shape.len();
    assert_eq!(c.shape[out_rank - 2], m);
    assert_eq!(c.shape[out_rank - 1], n);

    let total: usize = c.shape.iter().product();
    for lin in 0..total {
        let idx = idx_from_lin(&c.shape, lin);
        let bidx = &idx[..out_rank - 2];
        let i = idx[out_rank - 2];
        let j = idx[out_rank - 1];
        let ia = project_idx(bidx, &batch_a);
        let ib = project_idx(bidx, &batch_b);
        let mut expected = Rat::zero();
        for k in 0..p {
            let mut fa = ia.clone();
            fa.push(i);
            fa.push(k);
            let mut fb = ib.clone();
            fb.push(k);
            fb.push(j);
            expected = expected.add(a.get(&fa).mul(b.get(&fb)));
        }
        assert_eq!(c.get(&idx), expected, "mismatch at {:?}", idx);
    }
}

#[test]
fn batch_same_rank_bmk_kn_bn() {
    let a = t_seq(&[2, 2, 3]);
    let b = t_seq(&[2, 3, 4]);
    assert_batched_matmul_ok(&a, &b);
}

#[test]
fn batch_broadcast_rhs() {
    let a = t_seq(&[2, 2, 3]);
    let b = t_seq(&[3, 4]);
    assert_batched_matmul_ok(&a, &b);
}

#[test]
fn batch_broadcast_lhs() {
    let a = t_seq(&[1, 2, 3]);
    let b = t_seq(&[5, 3, 4]);
    assert_batched_matmul_ok(&a, &b);
}

#[test]
fn batch_two_dims_with_partial_broadcast() {
    let a = t_seq(&[2, 3, 2, 3]);
    let b = t_seq(&[2, 1, 3, 2]);
    assert_batched_matmul_ok(&a, &b);
}

#[test]
fn big_batch_small_mnk() {
    let a = t_seq(&[7, 6, 1, 3, 2]);
    let b = t_seq(&[1, 6, 1, 2, 4]);
    assert_batched_matmul_ok(&a, &b);
}

#[test]
fn two_batch_dims_moderately_large_mnk() {
    let a = t_seq(&[8, 9, 10, 11]);
    let b = t_seq(&[8, 9, 11, 12]);
    assert_batched_matmul_ok(&a, &b);
}

#[test]
fn broadcast_on_lhs_many_dims() {
    let a = t_seq(&[1, 1, 8, 16]);
    let b = t_seq(&[2, 3, 16, 5]);
    assert_batched_matmul_ok(&a, &b);
}

#[test]
fn broadcast_on_rhs_many_dims() {
    let a = t_seq(&[2, 3, 32, 64]);
    let b = t_seq(&[1, 1, 64, 7]);
    assert_batched_matmul_ok(&a, &b);
}

#[test]
fn deep_rank_mixed_broadcast() {
    let a = t_seq(&[2, 3, 1, 4, 5, 7]);
    let b = t_seq(&[3, 1, 7, 8]);
    assert_batched_matmul_ok(&a, &b);
}

#[test]
fn k_equals_one_path() {
    let a = t_seq(&[2, 3, 4, 5, 1]);
    let b = t_seq(&[1, 1, 1, 1, 9]);
    assert_batched_matmul_ok(&a, &b);
}

#[test]
fn multi_batch_with_partial_broadcast() {
    let a = t_seq(&[5, 4, 7, 2, 9]);
    let b = t_seq(&[1, 4, 1, 9, 13]);
    assert_batched_matmul_ok(&a, &b);
}

#[test]
fn medium_dense_mnk_three_batch_dims() {
    let a = t_seq(&[3, 2, 4, 6, 8]);
    let b = t_seq(&[3, 2, 4, 8, 6]);
    assert_batched_matmul_ok(&a, &b);
}

#[test]
#[should_panic]
fn panic_on_mismatched_k() {
    let a = t_seq(&[2, 5, 3]);
    let b = t_seq(&[2, 4, 4]);
    let _ = tensor_mul(&a, &b).unwrap();
}

#[test]
#[should_panic]
fn panic_on_incompatible_broadcast() {
    let a = t_seq(&[2, 3, 4, 5]);
    let b = t_seq(&[4, 4, 5, 6]);
    let _ = tensor_mul(&a, &b).unwrap();
}
