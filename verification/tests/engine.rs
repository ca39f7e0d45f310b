use life::engine::Board;
use life::engine::Cell;
use life::engine::Life;
use life::engine::Pos;

fn blank_engine(w: usize, h: usize) -> Life {
    Life::new((w, h), '_', 'O', false, None)
}

fn alive_positions(life: &Life) -> Vec<(usize, usize)> {
    let w = life.board.width();
    let mut out = Vec::new();
    for (i, cell) in life.board.data().iter().enumerate() {
        if *cell == Cell::Alive {
            out.push((i % w, i / w));
        }
    }
    out
}

#[test]
fn new_engine_starts_blank_and_running() {
    let life = blank_engine(4, 3);
    assert_eq!(life.dims(), (4, 3));
    assert!(!life.is_dead());
    assert_eq!(life.cursor_pos, Pos { x: 0, y: 0 });
    assert!(alive_positions(&life).is_empty());
}

#[test]
fn new_engine_uses_supplied_board_verbatim() {
    let mut board = Board::new([3, 2], Cell::Dead);
    board.set(&[2, 1], Cell::Alive);
    let life = Life::new((7, 7), '_', 'O', true, Some(board));
    assert_eq!(life.dims(), (3, 2));
    assert_eq!(alive_positions(&life), vec![(2, 1)]);
}

#[test]
fn randomized_board_has_requested_dims() {
    let life = Life::new((6, 5), '_', 'O', true, None);
    assert_eq!(life.dims(), (6, 5));
    assert_eq!(life.board.data().len(), 30);
}

#[test]
fn toggle_cell_flips_and_reports() {
    let mut life = blank_engine(3, 3);
    assert_eq!(life.toggle_cell(Pos { x: 1, y: 2 }), Ok(Cell::Alive));
    assert_eq!(alive_positions(&life), vec![(1, 2)]);
    assert_eq!(life.toggle_cell(Pos { x: 1, y: 2 }), Ok(Cell::Dead));
    assert!(alive_positions(&life).is_empty());
}

#[test]
fn toggle_cell_out_of_range_is_an_error() {
    let mut life = blank_engine(3, 3);
    assert_eq!(life.toggle_cell(Pos { x: 3, y: 0 }), Err(()));
    assert_eq!(life.toggle_cell(Pos { x: 0, y: 9 }), Err(()));
    assert!(alive_positions(&life).is_empty());
}

#[test]
fn set_cell_writes_unconditionally() {
    let mut life = blank_engine(3, 3);
    assert_eq!(life.set_cell(Pos { x: 0, y: 0 }, Cell::Alive), Ok(Cell::Alive));
    assert_eq!(life.set_cell(Pos { x: 0, y: 0 }, Cell::Alive), Ok(Cell::Alive));
    assert_eq!(life.set_cell(Pos { x: 5, y: 5 }, Cell::Alive), Err(()));
    assert_eq!(alive_positions(&life), vec![(0, 0)]);
}

#[test]
fn save_state_and_reset_round_trip() {
    let mut life = blank_engine(3, 3);
    life.set_cell(Pos { x: 1, y: 1 }, Cell::Alive).unwrap();
    life.save_state();
    life.set_cell(Pos { x: 2, y: 2 }, Cell::Alive).unwrap();
    life.reset();
    assert_eq!(alive_positions(&life), vec![(1, 1)]);
    assert!(!life.is_dead());
}

#[test]
fn fill_rect_rejects_degenerate_rectangle() {
    let mut life = blank_engine(4, 4);
    assert!(!life.fill_rect(Pos { x: 0, y: 0 }, Pos { x: 0, y: 3 }, Cell::Alive));
    assert!(alive_positions(&life).is_empty());
}

#[test]
fn fill_rect_rejects_out_of_range_corner() {
    let mut life = blank_engine(4, 4);
    assert!(!life.fill_rect(Pos { x: 0, y: 0 }, Pos { x: 4, y: 2 }, Cell::Alive));
    assert!(alive_positions(&life).is_empty());
}

#[test]
fn fill_rect_fills_half_open_rectangle() {
    let mut life = blank_engine(4, 4);
    assert!(life.fill_rect(Pos { x: 1, y: 1 }, Pos { x: 3, y: 3 }, Cell::Alive));
    assert_eq!(alive_positions(&life), vec![(1, 1), (2, 1), (1, 2), (2, 2)]);
}

#[test]
fn tick_on_empty_board_terminates_engine() {
    let mut life = blank_engine(3, 3);
    assert!(!life.is_dead());
    life.tick();
    assert!(life.is_dead());
}

#[test]
fn dead_engine_never_changes_until_reset() {
    let mut life = blank_engine(3, 3);
    life.tick();
    assert!(life.is_dead());
    life.set_cell(Pos { x: 1, y: 1 }, Cell::Alive).unwrap();
    let before = life.board.data().to_vec();
    life.tick();
    life.tick();
    assert!(life.is_dead());
    assert_eq!(life.board.data(), &before[..]);
    life.reset();
    assert!(!life.is_dead());
}

#[test]
fn block_is_a_fixed_point() {
    let mut life = blank_engine(4, 4);
    for (x, y) in [(1, 1), (2, 1), (1, 2), (2, 2)] {
        life.set_cell(Pos { x, y }, Cell::Alive).unwrap();
    }
    let before = life.board.data().to_vec();
    life.tick();
    assert_eq!(life.board.data(), &before[..]);
    life.tick();
    assert_eq!(life.board.data(), &before[..]);
    assert!(!life.is_dead());
}

#[test]
fn blinker_oscillates_with_period_two() {
    let mut life = blank_engine(5, 5);
    for (x, y) in [(1, 0), (1, 1), (1, 2)] {
        life.set_cell(Pos { x, y }, Cell::Alive).unwrap();
    }
    let before = life.board.data().to_vec();
    life.tick();
    assert_eq!(alive_positions(&life), vec![(0, 1), (1, 1), (2, 1)]);
    life.tick();
    assert_eq!(life.board.data(), &before[..]);
    assert_eq!(alive_positions(&life), vec![(1, 0), (1, 1), (1, 2)]);
}

#[test]
fn lone_corner_cell_dies_without_wrapping() {
    let mut life = blank_engine(3, 3);
    life.set_cell(Pos { x: 0, y: 0 }, Cell::Alive).unwrap();
    life.tick();
    assert!(alive_positions(&life).is_empty());
    assert!(!life.is_dead());
    life.tick();
    assert!(life.is_dead());
}

#[test]
fn lone_corner_cell_dies_on_wide_board() {
    let mut life = blank_engine(9, 1);
    life.set_cell(Pos { x: 0, y: 0 }, Cell::Alive).unwrap();
    life.tick();
    assert!(alive_positions(&life).is_empty());
}

#[test]
fn zero_area_board_terminates_immediately() {
    let mut life = blank_engine(0, 5);
    assert_eq!(life.dims(), (0, 5));
    assert!(life.board.data().is_empty());
    assert_eq!(life.toggle_cell(Pos { x: 0, y: 0 }), Err(()));
    life.tick();
    assert!(life.is_dead());
}

#[test]
fn single_cell_board_dies_alone() {
    let mut life = blank_engine(1, 1);
    life.set_cell(Pos { x: 0, y: 0 }, Cell::Alive).unwrap();
    life.tick();
    assert!(alive_positions(&life).is_empty());
}

#[test]
fn config_carries_startup_choices() {
    let cfg = life::config::Config {
        board_width: 8,
        board_height: 6,
        dead_cell: '_',
        alive_cell: 'O',
        is_rand: false,
        save_name: Some(String::from("glider")),
    };
    assert_eq!(cfg.board_width, 8);
    assert_eq!(cfg.board_height, 6);
    assert!(!cfg.is_rand);
    assert_eq!(cfg.save_name.as_deref(), Some("glider"));
}
