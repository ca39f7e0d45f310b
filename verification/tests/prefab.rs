use life::engine::Board;
use life::engine::Cell;
use life::engine::Life;
use life::engine::Pos;
use life::prefab::Prefab;
use life::prefab::PrefabPlaceError;
use life::prefab::Prefabable;
use life::prefab::Rotation;

fn blank_engine(w: usize, h: usize) -> Life {
    Life::new((w, h), '_', 'O', false, None)
}

fn pattern(w: usize, h: usize, alive: &[(usize, usize)]) -> Board {
    let mut b = Board::new([w, h], Cell::Dead);
    for (x, y) in alive {
        b.set(&[*x, *y], Cell::Alive);
    }
    b
}

fn alive_positions(life: &Life) -> Vec<(usize, usize)> {
    let w = life.board.width();
    let mut out = Vec::new();
    for (i, cell) in life.board.data().iter().enumerate() {
        if *cell == Cell::Alive {
            out.push((i % w, i / w));
        }
    }
    out
}

#[test]
fn identity_placement_sets_exactly_the_pattern() {
    let pentomino = pattern(3, 3, &[(1, 0), (2, 0), (0, 1), (1, 1), (1, 2)]);
    let mut life = blank_engine(5, 5);
    assert!(life.place_prefab(&pentomino, Rotation::Right).is_ok());
    assert_eq!(alive_positions(&life), vec![(1, 0), (2, 0), (0, 1), (1, 1), (1, 2)]);
}

#[test]
fn second_placement_on_same_footprint_overlaps() {
    let pentomino = pattern(3, 3, &[(1, 0), (2, 0), (0, 1), (1, 1), (1, 2)]);
    let mut life = blank_engine(5, 5);
    assert!(life.place_prefab(&pentomino, Rotation::Right).is_ok());
    let before = life.board.data().to_vec();
    let err = life.place_prefab(&pentomino, Rotation::Right);
    assert_eq!(err, Err(PrefabPlaceError::CellOverlap));
    assert_eq!(life.board.data(), &before[..]);
}

#[test]
fn quarter_turn_swaps_the_bounding_box() {
    let bar = pattern(2, 2, &[(0, 0), (1, 0)]);
    let mut life = blank_engine(4, 4);
    assert!(life.place_prefab(&bar, Rotation::Up).is_ok());
    assert_eq!(alive_positions(&life), vec![(0, 0), (0, 1)]);
}

#[test]
fn flipped_placement_mirrors_the_pattern() {
    let corner = pattern(2, 2, &[(0, 0)]);
    let mut life = blank_engine(4, 4);
    assert!(life.place_prefab(&corner, Rotation::RightFlipped).is_ok());
    assert_eq!(alive_positions(&life), vec![(0, 1)]);
}

#[test]
fn placement_past_the_edge_reports_both_axes() {
    let pentomino = pattern(3, 3, &[(1, 1)]);
    let mut life = blank_engine(2, 2);
    let err = life.place_prefab(&pentomino, Rotation::Right);
    assert_eq!(err, Err(PrefabPlaceError::OutOfBounds(true, true)));
    assert!(alive_positions(&life).is_empty());
}

#[test]
fn placement_at_cursor_offsets_the_pattern() {
    let dot = pattern(1, 1, &[(0, 0)]);
    let mut life = blank_engine(4, 4);
    life.cursor_pos = Pos { x: 2, y: 3 };
    assert!(life.place_prefab(&dot, Rotation::Right).is_ok());
    assert_eq!(alive_positions(&life), vec![(2, 3)]);
}

#[test]
fn placement_off_one_axis_reports_that_axis() {
    let bar = pattern(3, 1, &[(0, 0), (1, 0), (2, 0)]);
    let mut life = blank_engine(4, 4);
    life.cursor_pos = Pos { x: 2, y: 0 };
    let err = life.place_prefab(&bar, Rotation::Right);
    assert_eq!(err, Err(PrefabPlaceError::OutOfBounds(true, false)));
}

#[test]
fn prefabable_reports_pattern_shape() {
    let board = pattern(3, 2, &[(2, 1), (0, 0)]);
    let prefab = Prefab { board, name: String::from("corner pair") };
    assert_eq!(prefab.width(), 3);
    assert_eq!(prefab.height(), 2);
    assert_eq!(prefab.cells(), vec![Pos { x: 0, y: 0 }, Pos { x: 2, y: 1 }]);
    assert_eq!(prefab.name, "corner pair");
}
