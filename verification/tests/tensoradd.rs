use lamp::ops::elementwise::add_direct;
use lamp::rat::Rat;
use lamp::shape::idx_from_lin;
use lamp::tensor::Tensor;

fn ri(x: i64) -> Rat {
    Rat::from_int(x)
}

fn t_seq(shape: &[usize]) -> Tensor {
    let size: usize = shape.iter().product();
    let data: Vec<Rat> = (1..=size).map(|x| ri(x as i64)).collect();
    Tensor::from_vec(&data, shape).unwrap()
}

fn t_seq_scaled(shape: &[usize], num: i64, den: i64) -> Tensor {
    let size: usize = shape.iter().product();
    let data: Vec<Rat> = (1..=size)
        .map(|x| Rat::from_int(x as i64).mul(Rat::from_ratio(num, den)))
        .collect();
    Tensor::from_vec(&data, shape).unwrap()
}

fn assert_tensor_exact_eq(a: &Tensor, b: &Tensor) {
    assert_eq!(a.shape, b.shape, "shapes differ: {:?} vs {:?}", a.shape, b.shape);
    let total: usize = a.shape.iter().product();
    for lin in 0..total {
        let idx = idx_from_lin(&a.shape, lin);
        assert_eq!(a.get(&idx), b.get(&idx), "mismatch at {:?}", idx);
    }
}

fn assert_add_ok(a: &Tensor, b: &Tensor) {
    assert_eq!(a.shape, b.shape);
    let c = add_direct(a, b).unwrap();
    assert_eq!(c.shape, a.shape);
    let total: usize = a.shape.iter().product();
    for lin in 0..total {
        let idx = idx_from_lin(&a.shape, lin);
        let expected = a.get(&idx).add(b.get(&idx));
        assert_eq!(c.get(&idx), expected, "mismatch at {:?}", idx);
    }
}

#[test]
fn add_same_shape_1d() {
    let a = t_seq(&[7]);
    let b = t_seq(&[7]);
    assert_add_ok(&a, &b);
}

#[test]
fn add_same_shape_2d() {
    let a = t_seq(&[3, 4]);
    let b = t_seq_scaled(&[3, 4], -1, 1);
    assert_add_ok(&a, &b);
}

#[test]
fn add_same_shape_deep_rank() {
    let a = t_seq(&[2, 3, 4, 5]);
    let b = t_seq(&[2, 3, 4, 5]);
    assert_add_ok(&a, &b);
}

#[test]
fn add_commutative() {
    let a = t_seq(&[2, 3, 4]);
    let b = t_seq_scaled(&[2, 3, 4], 2, 1);
    let c1 = add_direct(&a, &b).unwrap();
    let c2 = add_direct(&b, &a).unwrap();
    assert_tensor_exact_eq(&c1, &c2);
}

#[test]
fn add_associative() {
    let a = t_seq(&[2, 3, 4]);
    let b = t_seq(&[2, 3, 4]);
    let c = t_seq_scaled(&[2, 3, 4], 1, 2);
    let ab = add_direct(&a, &b).unwrap();
    let left = add_direct(&ab, &c).unwrap();
    let bc = add_direct(&b, &c).unwrap();
    let right = add_direct(&a, &bc).unwrap();
    assert_tensor_exact_eq(&left, &right);
}

#[test]
fn add_with_zeros_identity() {
    let a = t_seq(&[2, 3, 4]);
    let z = t_seq_scaled(&[2, 3, 4], 0, 1);
    let c = add_direct(&a, &z).unwrap();
    assert_tensor_exact_eq(&c, &a);
}

#[test]
fn add_self_doubles_values() {
    let a = t_seq(&[2, 2, 3]);
    let c = add_direct(&a, &a).unwrap();
    let total: usize = a.shape.iter().product();
    for lin in 0..total {
        let idx = idx_from_lin(&a.shape, lin);
        assert_eq!(c.get(&idx), Rat::from_int(2).mul(a.get(&idx)));
    }
}

#[test]
#[should_panic]
fn add_mismatched_last_dim() {
    let a = t_seq(&[3, 5]);
    let b = t_seq(&[3, 4]);
    let _ = add_direct(&a, &b).unwrap();
}

#[test]
#[should_panic]
fn add_mismatched_rank() {
    let a = t_seq(&[6]);
    let b = t_seq(&[2, 3]);
    let _ = add_direct(&a, &b).unwrap();
}

#[test]
#[should_panic]
fn add_same_numel_but_different_shape() {
    let a = t_seq(&[2, 6]);
    let b = t_seq(&[3, 4]);
    let _ = add_direct(&a, &b).unwrap();
}
