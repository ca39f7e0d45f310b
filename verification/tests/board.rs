use life::dyn_array::DynArray;
use life::dyn_array::check_index;
use life::dyn_array::get_index;
use life::engine::Board;
use life::engine::Cell;

#[test]
fn new_board_is_all_dead() {
    let b = Board::new([3, 2], Cell::Dead);
    assert_eq!(b.width(), 3);
    assert_eq!(b.height(), 2);
    assert_eq!(b.data().len(), 6);
    for cell in b.data() {
        assert_eq!(*cell, Cell::Dead);
    }
}

#[test]
fn new_fills_with_given_value() {
    let b = Board::new([2, 2], Cell::Alive);
    assert_eq!(b.data().len(), 4);
    for cell in b.data() {
        assert_eq!(*cell, Cell::Alive);
    }
}

#[test]
fn new_from_data_keeps_data() {
    let data = vec![Cell::Alive, Cell::Dead, Cell::Dead, Cell::Alive, Cell::Dead, Cell::Dead];
    let b = Board::new_from_data([3, 2], data.clone());
    assert_eq!(b.dims(), &[3, 2]);
    assert_eq!(b.data(), &data[..]);
}

#[test]
fn get_and_set_address_cells() {
    let mut b = Board::new([3, 3], Cell::Dead);
    b.set(&[2, 1], Cell::Alive);
    assert_eq!(*b.get(&[2, 1]), Cell::Alive);
    assert_eq!(*b.get(&[1, 2]), Cell::Dead);
    assert_eq!(b.data()[5], Cell::Alive);
}

#[test]
fn get_index_linearizes_little_endian() {
    assert_eq!(get_index(&[3, 4], &[2, 1]), 5);
    assert_eq!(get_index(&[3, 4], &[0, 0]), 0);
    assert_eq!(get_index(&[3, 4], &[2, 3]), 11);
    assert_eq!(get_index(&[2, 3, 4], &[1, 2, 3]), 23);
}

#[test]
fn check_index_detects_out_of_range() {
    assert!(check_index(&[3, 4], &[2, 3]));
    assert!(!check_index(&[3, 4], &[3, 0]));
    assert!(!check_index(&[3, 4], &[0, 4]));
}

#[test]
fn three_dimensional_array_round_trips_values() {
    let mut a: DynArray<u32, 3> = DynArray::new([2, 3, 2], 0);
    a.set(&[1, 2, 1], 42);
    assert_eq!(*a.get(&[1, 2, 1]), 42);
    assert_eq!(a.data()[11], 42);
    assert_eq!(a.to_data().len(), 12);
}

#[test]
fn iterate_yields_linear_order_with_indices() {
    let b = Board::new_from_data(
        [2, 2],
        vec![Cell::Alive, Cell::Dead, Cell::Dead, Cell::Alive],
    );
    let mut it = b.iterate();
    let (i0, c0) = it.next().unwrap();
    assert_eq!(i0, [0, 0]);
    assert_eq!(*c0, Cell::Alive);
    let (i1, c1) = it.next().unwrap();
    assert_eq!(i1, [1, 0]);
    assert_eq!(*c1, Cell::Dead);
    let (i2, c2) = it.next().unwrap();
    assert_eq!(i2, [0, 1]);
    assert_eq!(*c2, Cell::Dead);
    let (i3, c3) = it.next().unwrap();
    assert_eq!(i3, [1, 1]);
    assert_eq!(*c3, Cell::Alive);
    assert!(it.next().is_none());
    assert!(it.next().is_none());
}
