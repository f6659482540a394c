use roguemap::matrix::Matrix;

#[test]
fn set_then_get_returns_value() {
    let mut m = Matrix::new(4, 3, 0u32);
    for y in 0..3 {
        for x in 0..4 {
            let v = (y * 10 + x) as u32;
            assert_eq!(m.set(x, y, v), Some((y * 4 + x) as usize));
            assert_eq!(m.get(x, y), Some(v));
        }
    }
}

#[test]
fn out_of_bounds_is_absent_and_set_is_noop() {
    let mut m = Matrix::new(4, 3, 7u8);
    for (x, y) in [(-1, 0), (0, -1), (4, 0), (0, 3), (i32::MIN, i32::MAX), (100, 100)] {
        assert_eq!(m.get(x, y), None);
        assert_eq!(m.set(x, y, 9), None);
        assert_eq!(m.to_index(x, y), None);
    }
    for y in 0..3 {
        for x in 0..4 {
            assert_eq!(m.get(x, y), Some(7));
        }
    }
}

#[test]
fn index_coord_round_trip() {
    let m = Matrix::new(5, 7, false);
    for y in 0..7 {
        for x in 0..5 {
            let i = m.to_index(x, y).unwrap();
            assert_eq!(m.to_coord(i), (x, y));
        }
    }
    assert_eq!(m.to_index(2, 3), Some(17));
    assert_eq!(m.to_coord(17), (2, 3));
    assert_eq!(m.size(), 35);
}

#[test]
fn fill_overwrites_every_cell() {
    let mut m = Matrix::new(3, 2, 1i32);
    m.fill(-4);
    for y in 0..2 {
        for x in 0..3 {
            assert_eq!(m.get(x, y), Some(-4));
        }
    }
}

#[test]
fn empty_grid_has_no_cells() {
    let m = Matrix::new(0, 5, 0u8);
    assert_eq!(m.size(), 0);
    assert_eq!(m.get(0, 0), None);
}
