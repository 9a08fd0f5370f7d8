use hex_world::hex_tile::{hex_neighbours, hex_region, world_position_units};

#[test]
fn neighbours_of_even_column() {
    let n = hex_neighbours(&(0, 0));
    assert_eq!(n, vec![(1, 0), (1, -1), (0, 1), (0, -1), (-1, 0), (-1, -1)]);
}

#[test]
fn neighbours_of_odd_column() {
    let n = hex_neighbours(&(1, 0));
    assert_eq!(n, vec![(0, 0), (0, 1), (1, -1), (1, 1), (2, 0), (2, 1)]);
}

#[test]
fn neighbours_of_negative_odd_column() {
    let n = hex_neighbours(&(-1, -1));
    assert_eq!(
        n,
        vec![(-2, -1), (-2, 0), (-1, -2), (-1, 0), (0, -1), (0, 0)]
    );
}

#[test]
fn neighbour_relation_is_symmetric_on_samples() {
    let samples = [(0, 0), (1, 0), (-1, -1), (2, 3), (-3, 2), (7, -5)];
    for &a in samples.iter() {
        for b in hex_neighbours(&a) {
            assert!(
                hex_neighbours(&b).contains(&a),
                "{:?} -> {:?} not symmetric",
                a,
                b
            );
        }
    }
}

#[test]
fn no_cell_neighbours_itself() {
    for &a in [(0, 0), (1, 1), (-4, 3)].iter() {
        assert!(!hex_neighbours(&a).contains(&a));
    }
}

#[test]
fn world_position_of_even_column_is_whole_rows() {
    assert_eq!(world_position_units(&(0, 0)), (0, 0));
    assert_eq!(world_position_units(&(2, 3)), (2, 6));
    assert_eq!(world_position_units(&(-4, -2)), (-4, -4));
}

#[test]
fn world_position_of_odd_column_is_offset_half_a_row() {
    assert_eq!(world_position_units(&(1, 0)), (1, 1));
    assert_eq!(world_position_units(&(3, -2)), (3, -3));
    assert_eq!(world_position_units(&(-1, 2)), (-1, 5));
}

#[test]
fn region_of_size_zero_is_the_origin() {
    assert_eq!(hex_region(0), vec![(0, 0)]);
}

#[test]
fn region_of_size_two_has_nineteen_cells() {
    let r = hex_region(2);
    assert_eq!(r.len(), 19);
    let expected = [
        (-2, -1),
        (-2, 0),
        (-2, 1),
        (-1, -2),
        (-1, -1),
        (-1, 0),
        (-1, 1),
        (0, -2),
        (0, -1),
        (0, 0),
        (0, 1),
        (0, 2),
        (1, -2),
        (1, -1),
        (1, 0),
        (1, 1),
        (2, -1),
        (2, 0),
        (2, 1),
    ];
    for p in expected.iter() {
        assert!(r.contains(p), "missing {:?}", p);
    }
    for p in r.iter() {
        assert!(expected.contains(p), "extra {:?}", p);
    }
}

#[test]
fn region_cells_are_unique() {
    let r = hex_region(3);
    for i in 0..r.len() {
        for j in (i + 1)..r.len() {
            assert_ne!(r[i], r[j]);
        }
    }
}
