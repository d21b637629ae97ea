use neural::back_index::Side;

#[test]
fn rev_zero_is_last_position() {
    assert_eq!(Side::Rev(0).to_index(5), 4);
    assert_eq!(Side::Rev(0).to_index(1), 0);
}

#[test]
fn rev_last_is_first_position() {
    assert_eq!(Side::Rev(4).to_index(5), 0);
    assert_eq!(Side::Rev(2).to_index(5), 2);
}

#[test]
fn rev_get_and_set() {
    let mut v = vec![10, 20, 30];
    assert_eq!(*Side::Rev(0).get(&v), 30);
    assert_eq!(*Side::Rev(2).get(&v), 10);
    Side::Rev(1).set(&mut v, 99);
    assert_eq!(v, vec![10, 99, 30]);
}
