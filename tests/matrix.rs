use neural::matrix::{check_product_shapes, check_same_shape, zip_to, Mat, MatBase, ShapeMismatch};

fn sample() -> Mat<f32> {
    Mat::from_vec((2, 3), vec![1.0, 2.0, 3.0, 4.0, 5.0, 6.0])
}

#[test]
fn from_vec_reads_row_major() {
    let m = sample();
    assert_eq!(m.shape(), (2, 3));
    assert_eq!(*m.get(0, 0), 1.0);
    assert_eq!(*m.get(0, 2), 3.0);
    assert_eq!(*m.get(1, 0), 4.0);
    assert_eq!(m.row_stride(), 3);
    assert_eq!(m.col_stride(), 1);
    assert_eq!(m.row(), 2);
    assert_eq!(m.col(), 3);
}

#[test]
fn transposed_view_swaps_shape_and_strides() {
    let m = sample();
    let t = m.transposed();
    assert_eq!(t.shape(), (3, 2));
    assert_eq!(t.row_stride(), 1);
    assert_eq!(t.col_stride(), 3);
    assert_eq!(*t.get(2, 1), 6.0);
    assert_eq!(*t.get(0, 1), 4.0);
    assert!(std::ptr::eq(t.data(), m.data()));
}

#[test]
fn transpose_twice_reads_identically() {
    let m = sample();
    let t = m.transposed();
    let back = t.transposed();
    for i in 0..2 {
        for j in 0..3 {
            assert_eq!(*back.get(i, j), *m.get(i, j));
            assert_eq!(*t.get(j, i), *m.get(i, j));
        }
    }
}

#[test]
fn to_index_splits_flat_position() {
    let m = sample();
    assert_eq!(m.to_index(0), (0, 0));
    assert_eq!(m.to_index(4), (1, 1));
    assert_eq!(m.transposed().to_index(3), (1, 1));
}

#[test]
fn add_then_sub_reconstructs() {
    let a = sample();
    let b = Mat::from_vec((2, 3), vec![0.1, -2.5, 7.25, 1e3, -0.001, 3.5]);
    let mut sum = Mat::filled((2, 3), 0.0f32);
    zip_to(&a, &b, &mut sum, |x, y| x + y);
    assert_eq!(*sum.get(1, 0), 1004.0);
    let mut back = Mat::filled((2, 3), 0.0f32);
    zip_to(&sum, &b, &mut back, |x, y| x - y);
    for i in 0..2 {
        for j in 0..3 {
            assert!((*back.get(i, j) - *a.get(i, j)).abs() < 1e-3);
        }
    }
}

#[test]
fn zip_assign_reads_a_transposed_rhs() {
    let mut a = Mat::from_vec((3, 2), vec![1.0f32, 1.0, 1.0, 1.0, 1.0, 1.0]);
    let b = sample();
    a.zip_assign(&b.transposed(), |x, y| x * y);
    assert_eq!(a.data(), &vec![1.0, 4.0, 2.0, 5.0, 3.0, 6.0]);
    a.zip_assign(&Mat::filled((3, 2), 1.0f32), |x, y| x - y);
    assert_eq!(*a.get(2, 1), 5.0);
}

#[test]
fn zip_to_from_two_views() {
    let a = sample();
    let b = sample();
    let mut out = Mat::filled((3, 2), 0i64);
    let ai = Mat::from_vec((2, 3), a.data().iter().map(|x| *x as i64).collect());
    let bi = Mat::from_vec((2, 3), b.data().iter().map(|x| *x as i64).collect());
    zip_to(&ai.transposed(), &bi.transposed(), &mut out, |x, y| x * 10 + y);
    assert_eq!(out.data(), &vec![11, 44, 22, 55, 33, 66]);
}

#[test]
fn max_index_first_occurrence_wins() {
    let m = Mat::from_vec((1, 2), vec![0.5f32, 0.5]);
    assert_eq!(m.max_index(|best, x| best >= x), (0, 0));
}

#[test]
fn max_index_finds_greatest() {
    let m = Mat::from_vec((2, 3), vec![1.0f32, 9.0, 3.0, 9.5, 2.0, 9.5]);
    assert_eq!(m.max_index(|best, x| best >= x), (1, 0));
    let t = Mat::from_vec((3, 1), vec![0.0f32, 0.0, 1.0]);
    assert_eq!(t.max_index(|best, x| best >= x), (2, 0));
}

#[test]
fn map_and_map_assign_and_fill() {
    let m = sample();
    let doubled = m.map(|x| x * 2.0);
    assert_eq!(doubled.data(), &vec![2.0, 4.0, 6.0, 8.0, 10.0, 12.0]);
    assert_eq!(m.data(), &vec![1.0, 2.0, 3.0, 4.0, 5.0, 6.0]);
    let mut n = sample();
    n.map_assign(|x| -x);
    assert_eq!(*n.get(1, 2), -6.0);
    n.fill(0.25);
    assert_eq!(n.data(), &vec![0.25; 6]);
}

#[test]
fn filled_and_from_fn_and_set() {
    let f = Mat::filled((2, 2), 3u8);
    assert_eq!(f.data(), &vec![3, 3, 3, 3]);
    let mut g = Mat::from_fn((2, 3), |i, j| i * 10 + j);
    assert_eq!(g.data(), &vec![0, 1, 2, 10, 11, 12]);
    g.set(1, 1, 77);
    assert_eq!(*g.get(1, 1), 77);
    assert_eq!(*g.get(0, 1), 1);
    let c = g.clone_cells();
    assert_eq!(c.data(), g.data());
}

#[test]
fn same_shape_check() {
    let a = sample();
    assert_eq!(check_same_shape(&a, &Mat::filled((2, 3), 0.0f32)), Ok(()));
    assert_eq!(check_same_shape(&a, &a.transposed()), Err(ShapeMismatch { expected: (2, 3), actual: (3, 2) }));
}

#[test]
fn product_shape_check() {
    let a = sample();
    let b = Mat::filled((3, 4), 0.0f32);
    let out = Mat::filled((2, 4), 0.0f32);
    assert_eq!(check_product_shapes(&a, &b, &out), Ok(()));
    assert_eq!(
        check_product_shapes(&a, &a, &out),
        Err(ShapeMismatch { expected: (3, 3), actual: (2, 3) })
    );
    assert_eq!(
        check_product_shapes(&a, &b, &Mat::filled((4, 2), 0.0f32)),
        Err(ShapeMismatch { expected: (2, 4), actual: (4, 2) })
    );
    assert_eq!(check_product_shapes(&a, &a.transposed(), &Mat::filled((2, 2), 0.0f32)), Ok(()));
}

#[test]
fn from_arr_takes_rows_in_order() {
    let m = Mat::from_arr([[1.0f32, 2.0], [3.0, 4.0], [5.0, 6.0]]);
    assert_eq!(m.shape(), (3, 2));
    assert_eq!(m.data(), &vec![1.0, 2.0, 3.0, 4.0, 5.0, 6.0]);
    assert_eq!(*m.get(2, 0), 5.0);
    let e: Mat<u8> = Mat::from_arr([[0u8; 0]; 4]);
    assert_eq!(e.shape(), (4, 0));
}

#[test]
fn wrapping_add_then_sub_restores_exactly() {
    let a = Mat::from_vec((2, 2), vec![i32::MAX, -7, 0, i32::MIN]);
    let b = Mat::from_vec((2, 2), vec![1, i32::MIN, 12, -1]);
    let mut sum = Mat::filled((2, 2), 0i32);
    zip_to(&a, &b, &mut sum, |x, y| x.wrapping_add(y));
    assert_eq!(*sum.get(0, 0), i32::MIN);
    let mut back = Mat::filled((2, 2), 0i32);
    zip_to(&sum, &b, &mut back, |x, y| x.wrapping_sub(y));
    assert_eq!(back.data(), a.data());
}

#[test]
fn max_index_tie_from_arr() {
    let m = Mat::from_arr([[0.5f32, 0.5]]);
    assert_eq!(m.max_index(|best, x| best >= x), (0, 0));
}

#[test]
fn transposed_strides_are_swapped() {
    let m = Mat::from_fn((4, 3), |i, j| (i * 3 + j) as u32);
    assert_eq!(m.data().len(), 12);
    let t = m.transposed();
    assert_eq!((t.row_stride(), t.col_stride()), (m.col_stride(), m.row_stride()));
}
