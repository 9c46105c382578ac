use gamey::{BoardTopology, Coordinates, EngineError, GameEngine, PlayerId, TriangularTopology};

#[test]
fn neighbors_are_symmetric() {
    for size in 1..=8u32 {
        let t = TriangularTopology::new(size);
        let total = t.total_cells();
        for a in 0..total {
            for &b in t.get_neighbors(a) {
                assert!(b < total);
                assert!(t.get_neighbors(b).contains(&a), "size {} cells {} {}", size, a, b);
            }
        }
    }
}

#[test]
fn neighbor_counts_by_position() {
    let size = 6u32;
    let t = TriangularTopology::new(size);
    for idx in 0..t.total_cells() {
        let c = Coordinates::from_index(idx as u32, size);
        let zeros = [c.x(), c.y(), c.z()].iter().filter(|v| **v == 0).count();
        let expected = match zeros {
            2 => 2,
            1 => 4,
            _ => 6,
        };
        assert_eq!(t.get_neighbors(idx).len(), expected, "cell {:?}", c);
    }
}

#[test]
fn region_masks_follow_the_sides() {
    let size = 5u32;
    let t = TriangularTopology::new(size);
    for idx in 0..t.total_cells() {
        let c = Coordinates::from_index(idx as u32, size);
        let m = t.get_cell_regions(idx);
        assert_eq!(m & 1 != 0, c.x() == 0);
        assert_eq!(m & 2 != 0, c.y() == 0);
        assert_eq!(m & 4 != 0, c.z() == 0);
    }
    assert_eq!(t.winning_mask(), 7);
    assert_eq!(t.get_cell_regions(0), 6);
}

#[test]
fn total_cells_formula() {
    for size in 1..=20u32 {
        let t = TriangularTopology::new(size);
        assert_eq!(t.total_cells() as u32, size * (size + 1) / 2);
    }
}

#[test]
fn coordinate_round_trip() {
    for size in 1..=10u32 {
        for x in 0..size {
            for y in 0..(size - x) {
                let z = size - 1 - x - y;
                let c = Coordinates::new(x, y, z);
                let idx = c.to_index(size);
                assert!(idx < size * (size + 1) / 2);
                assert_eq!(Coordinates::from_index(idx, size), c);
            }
        }
        for idx in 0..size * (size + 1) / 2 {
            assert_eq!(Coordinates::from_index(idx, size).to_index(size), idx);
        }
    }
}

#[test]
fn index_layout_by_rows() {
    assert_eq!(Coordinates::from_index(0, 3), Coordinates::new(2, 0, 0));
    assert_eq!(Coordinates::from_index(1, 3), Coordinates::new(1, 0, 1));
    assert_eq!(Coordinates::from_index(2, 3), Coordinates::new(1, 1, 0));
    assert_eq!(Coordinates::from_index(5, 3), Coordinates::new(0, 2, 0));
    assert_eq!(Coordinates::new(0, 1, 1).to_index(3), 4);
}

#[test]
fn side_predicates() {
    let c = Coordinates::new(0, 2, 0);
    assert!(c.touches_side_a());
    assert!(!c.touches_side_b());
    assert!(c.touches_side_c());
}

#[test]
fn engine_refuses_out_of_bounds_and_occupied() {
    let mut e = GameEngine::new(TriangularTopology::new(3));
    assert_eq!(
        e.make_move(6, PlayerId::new(0)),
        Err(EngineError::OutOfBounds { cell: 6 })
    );
    assert_eq!(e.make_move(4, PlayerId::new(0)), Ok(false));
    assert_eq!(
        e.make_move(4, PlayerId::new(1)),
        Err(EngineError::Occupied { cell: 4 })
    );
    assert_eq!(e.state[4], Some(PlayerId::new(0)));
    assert_eq!(e.sets.len(), 1);
}

#[test]
fn engine_detects_a_connecting_group() {
    let mut e = GameEngine::new(TriangularTopology::new(3));
    let p = PlayerId::new(0);
    assert_eq!(e.make_move(5, p), Ok(false));
    assert_eq!(e.make_move(4, p), Ok(false));
    assert_eq!(e.make_move(0, PlayerId::new(1)), Ok(false));
    assert_eq!(e.make_move(3, p), Ok(true));
}

#[test]
fn engine_single_cell_board_wins() {
    let mut e = GameEngine::new(TriangularTopology::new(1));
    assert_eq!(e.make_move(0, PlayerId::new(1)), Ok(true));
}

#[test]
fn engine_other_players_pieces_do_not_connect() {
    let mut e = GameEngine::new(TriangularTopology::new(3));
    assert_eq!(e.make_move(0, PlayerId::new(0)), Ok(false));
    assert_eq!(e.make_move(2, PlayerId::new(1)), Ok(false));
    assert_eq!(e.make_move(4, PlayerId::new(0)), Ok(false));
    assert_eq!(e.make_move(5, PlayerId::new(0)), Ok(false));
    assert_eq!(e.make_move(2, PlayerId::new(0)), Err(EngineError::Occupied { cell: 2 }));
    assert_eq!(e.make_move(1, PlayerId::new(0)), Ok(true));
}
