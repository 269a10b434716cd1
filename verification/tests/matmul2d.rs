use lamp::ops::linalg::tensor_mul;
use lamp::rat::Rat;
use lamp::tensor::Tensor;

fn ri(x: i64) -> Rat {
    Rat::from_int(x)
}

fn t(data: &[i64], shape: &[usize]) -> Tensor {
    let rats: Vec<Rat> = data.iter().map(|&x| ri(x)).collect();
    Tensor::from_vec(&rats, shape).unwrap()
}

#[test]
fn matmul_2d_2d_basic() {
    let a = t(&[1, 2, 3, 4, 5, 6], &[2, 3]);
    let b = t(&[7, 8, 9, 10, 11, 12], &[3, 2]);
    let c = tensor_mul(&a, &b).unwrap();
    assert_eq!(c.shape, vec![2, 2]);
    assert_eq!(c.get(&[0, 0]), ri(58));
    assert_eq!(c.get(&[0, 1]), ri(64));
    assert_eq!(c.get(&[1, 0]), ri(139));
    assert_eq!(c.get(&[1, 1]), ri(154));
}

#[test]
fn matmul_1d_1d_dot_gives_1x1() {
    let a = t(&[1, 2, 3], &[3]);
    let b = t(&[4, 5, 6], &[3]);
    let c = tensor_mul(&a, &b).unwrap();
    assert_eq!(c.shape, vec![1, 1]);
    assert_eq!(c.get(&[0, 0]), ri(32));
}

#[test]
fn matmul_2d_1d_matrix_times_vector() {
    let a = t(&[1, 2, 3, 4, 5, 6], &[2, 3]);
    let v = t(&[7, 9, 11], &[3]);
    let c = tensor_mul(&a, &v).unwrap();
    assert_eq!(c.shape, vec![2]);
    assert_eq!(c.get(&[0]), ri(58));
    assert_eq!(c.get(&[1]), ri(139));
}

#[test]
fn matmul_1d_2d_vector_times_matrix() {
    let u = t(&[2, 3], &[2]);
    let b = t(&[1, 4, 7, 2, 5, 8], &[2, 3]);
    let c = tensor_mul(&u, &b).unwrap();
    assert_eq!(c.shape, vec![3]);
    assert_eq!(c.get(&[0]), ri(8));
    assert_eq!(c.get(&[1]), ri(23));
    assert_eq!(c.get(&[2]), ri(38));
}

#[test]
fn matmul_2d_2d_non_square() {
    let a = t(&[1, 2, 3, 4, 5, 6], &[3, 2]);
    let b = t(&[7, 8, 9, 10, 11, 12, 13, 14], &[2, 4]);
    let c = tensor_mul(&a, &b).unwrap();
    assert_eq!(c.shape, vec![3, 4]);

    assert_eq!(c.get(&[0, 0]), ri(1 * 7 + 2 * 11));
    assert_eq!(c.get(&[0, 1]), ri(1 * 8 + 2 * 12));
    assert_eq!(c.get(&[0, 2]), ri(1 * 9 + 2 * 13));
    assert_eq!(c.get(&[0, 3]), ri(1 * 10 + 2 * 14));

    assert_eq!(c.get(&[1, 0]), ri(3 * 7 + 4 * 11));
    assert_eq!(c.get(&[1, 1]), ri(3 * 8 + 4 * 12));
    assert_eq!(c.get(&[1, 2]), ri(3 * 9 + 4 * 13));
    assert_eq!(c.get(&[1, 3]), ri(3 * 10 + 4 * 14));

    assert_eq!(c.get(&[2, 0]), ri(5 * 7 + 6 * 11));
    assert_eq!(c.get(&[2, 1]), ri(5 * 8 + 6 * 12));
    assert_eq!(c.get(&[2, 2]), ri(5 * 9 + 6 * 13));
    assert_eq!(c.get(&[2, 3]), ri(5 * 10 + 6 * 14));
}
