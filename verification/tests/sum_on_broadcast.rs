use lamp::rat::Rat;
use lamp::tensor::Tensor;

fn ri(x: i64) -> Rat {
    Rat::from_int(x)
}

fn t_seq(shape: &[usize]) -> Tensor {
    let size: usize = shape.iter().product();
    let data: Vec<Rat> = (1..=size).map(|x| ri(x as i64)).collect();
    Tensor::from_vec(&data, shape).unwrap()
}

fn assert_tensor_eq(t: &Tensor, expected_data: &[i64], expected_shape: &[usize]) {
    assert_eq!(t.shape, expected_shape);
    for (i, &e) in expected_data.iter().enumerate() {
        assert_eq!(t.get_from_lin(i), ri(e), "value mismatch at {}", i);
    }
}

#[test]
fn reduce_row_broadcast_simple() {
    let origin = [1, 3];
    let data: Vec<Rat> = [1i64, 2, 3, 10, 20, 30].iter().map(|&x| ri(x)).collect();
    let g = Tensor::from_vec(&data, &[2, 3]).unwrap();
    let red = g.sum_over_broadcasted_batches(&origin);
    assert_tensor_eq(&red, &[11, 22, 33], &origin);
}

#[test]
fn reduce_with_left_padding_and_parent_dim_one() {
    let origin = [1, 4];
    let g = t_seq(&[2, 3, 4]);
    let red = g.sum_over_broadcasted_batches(&origin);
    assert_tensor_eq(&red, &[66, 72, 78, 84], &origin);
}

#[test]
fn reduce_noop_when_shapes_equal() {
    let origin = [2, 3];
    let g = t_seq(&origin);
    let red = g.sum_over_broadcasted_batches(&origin);
    assert_tensor_eq(&red, &[1, 2, 3, 4, 5, 6], &origin);
}

#[test]
fn reduce_multiple_axes_parent_2_1_1() {
    let origin = [2, 1, 1];
    let g = t_seq(&[2, 3, 4]);
    let red = g.sum_over_broadcasted_batches(&origin);
    assert_tensor_eq(&red, &[78, 222], &origin);
}

#[test]
fn reduce_row_broadcast_non_uniform() {
    let origin = [1, 3];
    let g = t_seq(&[3, 3]);
    let red = g.sum_over_broadcasted_batches(&origin);
    assert_tensor_eq(&red, &[12, 15, 18], &origin);
}
