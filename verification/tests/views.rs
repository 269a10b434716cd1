use lamp::rat::Rat;
use lamp::tensor::Tensor;

fn ri(x: i64) -> Rat {
    Rat::from_int(x)
}

fn t_seq(shape: &[usize]) -> Tensor {
    let size: usize = shape.iter().product();
    let data: Vec<Rat> = (1..=size).map(|x| ri(x as i64)).collect();
    Tensor::from_vec(&data, shape).unwrap()
}

#[test]
fn new_builds_row_major_view_at_offset() {
    let data: Vec<Rat> = (0..8).map(|x| ri(x)).collect();
    let t = Tensor::new(data, &[2, 3], 2);
    assert_eq!(t.shape, vec![2, 3]);
    assert_eq!(t.strides, vec![3, 1]);
    assert_eq!(t.offset, 2);
    assert_eq!(t.get(&[0, 0]), ri(2));
    assert_eq!(t.get(&[1, 2]), ri(7));
}

#[test]
fn get2_reads_rows_and_columns() {
    let t = t_seq(&[2, 3]);
    assert_eq!(t.get2(0, 0), ri(1));
    assert_eq!(t.get2(0, 2), ri(3));
    assert_eq!(t.get2(1, 1), ri(5));
}

#[test]
fn lin_from_idx_and_batch_offset_agree_with_strides() {
    let t = t_seq(&[2, 3, 4]);
    assert_eq!(t.lin_from_idx(&[1, 2, 3]), 12 + 8 + 3);
    assert_eq!(t.batch_offset(&[1, 2]), 12 + 8);
    assert_eq!(t.batch_offset(&[1]), 12);
}

#[test]
fn vue2d_views_trailing_matrix() {
    let t = t_seq(&[2, 2, 2]);
    // second batch entry starts at linear position 4
    let v = t.vue2d(4);
    assert_eq!(v.shape, vec![2, 2]);
    assert_eq!(v.get(&[0, 0]), ri(5));
    assert_eq!(v.get(&[1, 1]), ri(8));
}

#[test]
fn flatten_all_lists_elements_in_order() {
    let t = t_seq(&[2, 3]);
    let f = t.flatten_all();
    assert_eq!(f.shape, vec![6]);
    for l in 0..6usize {
        assert_eq!(f.get(&[l]), ri(l as i64 + 1));
    }
}

#[test]
fn is_broadcasted_detects_zero_strides() {
    let t = t_seq(&[1, 3]);
    assert!(!t.is_broadcasted());
    let v = t.broadcast_view(&[4, 3]).unwrap();
    assert!(v.is_broadcasted());
}

#[test]
fn unsqueeze_first_pads_leading_axes() {
    let t = t_seq(&[2, 3]);
    let u = t.unsqueeze_first(2);
    assert_eq!(u.shape, vec![1, 1, 2, 3]);
    assert_eq!(u.get(&[0, 0, 1, 2]), ri(6));
    let s = u.squeeze_first(2);
    assert_eq!(s.shape, vec![2, 3]);
    assert_eq!(s.get(&[1, 2]), ri(6));
}

#[test]
fn sum_all_totals_every_element() {
    let t = t_seq(&[2, 3]);
    let s = t.sum_all();
    assert_eq!(s.shape, Vec::<usize>::new());
    let e: [usize; 0] = [];
    assert_eq!(s.get(&e), ri(21));
}
