use wasm_game_of_life::rules::next_cell;
use wasm_game_of_life::{GridError, Universe};

fn input_spaceship() -> Universe {
    let mut universe = Universe::new(64, 64).unwrap();
    universe.set_width(6);
    universe.set_height(6);
    universe.set_cells_alive(&[(1, 2), (2, 3), (3, 1), (3, 2), (3, 3)]).unwrap();
    universe
}

fn expected_spaceship() -> Universe {
    let mut universe = Universe::new(64, 64).unwrap();
    universe.set_width(6);
    universe.set_height(6);
    universe.set_cells_alive(&[(2, 1), (2, 3), (3, 2), (3, 3), (4, 2)]).unwrap();
    universe
}

#[test]
fn test_tick() {
    let mut initial_universe = input_spaceship();
    initial_universe.tick();
    let expected_universe = expected_spaceship();
    assert_eq!(
        expected_universe.get_cells().iter().map(|cell| *cell > 0).collect::<Vec<bool>>(),
        initial_universe.get_cells().iter().map(|cell| *cell > 0).collect::<Vec<bool>>()
    );
}

#[test]
fn glider_step_ages_survivors_and_births_new_cells() {
    let mut universe = input_spaceship();
    universe.tick();
    let mut expected = vec![0u8; 36];
    for (row, col) in [(2, 3), (3, 2), (3, 3)] {
        expected[row * 6 + col] = 2;
    }
    for (row, col) in [(2, 1), (4, 2)] {
        expected[row * 6 + col] = 1;
    }
    assert_eq!(universe.get_cells(), &expected[..]);
    assert_eq!(universe.living_cells_count(), 5);
}

#[test]
fn new_universe_is_64_by_64_with_random_cells() {
    let universe = Universe::new(64, 64).unwrap();
    assert_eq!(universe.width(), 64);
    assert_eq!(universe.height(), 64);
    assert_eq!(universe.get_cells().len(), 64 * 64);
    assert!(universe.get_cells().iter().all(|c| *c <= 1));
    let alive = universe.living_cells_count();
    assert!(alive > 0 && alive < 64 * 64);
}

#[test]
fn kill_all_leaves_no_living_cell() {
    let mut universe = Universe::new(64, 64).unwrap();
    universe.kill_all();
    assert_eq!(universe.living_cells_count(), 0);
    assert_eq!(universe.get_cells().len(), 64 * 64);
    assert_eq!(universe.width(), 64);
}

#[test]
fn resizing_resets_every_cell() {
    let mut universe = Universe::new(64, 64).unwrap();
    universe.set_width(10);
    assert_eq!(universe.living_cells_count(), 0);
    assert_eq!(universe.get_cells().len(), 10 * 64);
    universe.set_cells_alive(&[(0, 0), (3, 4)]).unwrap();
    universe.set_height(7);
    assert_eq!(universe.living_cells_count(), 0);
    assert_eq!(universe.get_cells().len(), 70);
    assert_eq!((universe.width(), universe.height()), (10, 7));
}

#[test]
fn get_index_is_row_major() {
    let mut universe = Universe::new(64, 64).unwrap();
    universe.set_width(6);
    universe.set_height(5);
    assert_eq!(universe.get_index(0, 0), 0);
    assert_eq!(universe.get_index(2, 3), 15);
    assert_eq!(universe.get_index(4, 5), 29);
}

#[test]
fn neighbours_wrap_round_the_edges() {
    let mut universe = Universe::from_cells(6, 6, vec![0; 36]).unwrap();
    universe.set_cells_alive(&[(5, 5)]).unwrap();
    assert_eq!(universe.live_neighbor_count(0, 0), 1);
    assert_eq!(universe.live_neighbor_count(0, 5), 1);
    assert_eq!(universe.live_neighbor_count(5, 0), 1);
    assert_eq!(universe.live_neighbor_count(2, 2), 0);
    assert_eq!(universe.live_neighbor_count(5, 5), 0);
}

#[test]
fn one_wide_grid_counts_a_cell_as_its_own_neighbour() {
    let universe = Universe::from_cells(1, 3, vec![0, 1, 0]).unwrap();
    assert_eq!(universe.live_neighbor_count(1, 0), 2);
    assert_eq!(universe.live_neighbor_count(0, 0), 3);
}

#[test]
fn surviving_block_ages_up_to_seven() {
    let mut universe = Universe::from_cells(6, 6, vec![0; 36]).unwrap();
    universe.set_cells_alive(&[(2, 2), (2, 3), (3, 2), (3, 3)]).unwrap();
    for generation in 1..=12u8 {
        universe.tick();
        let expected = if generation + 1 < 7 { generation + 1 } else { 7 };
        let idx = universe.get_index(2, 2);
        assert_eq!(universe.get_cells()[idx], expected);
        assert_eq!(universe.living_cells_count(), 4);
    }
    assert!(universe.get_cells().iter().all(|c| *c == 0 || *c == 7));
}

#[test]
fn tick_from_the_same_snapshot_repeats() {
    let snapshot: Vec<u8> = (0..64u32).map(|i| ((i * 7 + 3) % 5 % 3) as u8).collect();
    let mut a = Universe::from_cells(8, 8, snapshot.clone()).unwrap();
    let mut b = Universe::from_cells(8, 8, snapshot).unwrap();
    a.tick();
    b.tick();
    assert_eq!(a.get_cells(), b.get_cells());
    a.tick();
    b.tick();
    assert_eq!(a.get_cells(), b.get_cells());
}

#[test]
fn transition_rule_table() {
    assert_eq!(next_cell(0, 3), 1);
    assert_eq!(next_cell(0, 2), 0);
    assert_eq!(next_cell(0, 4), 0);
    assert_eq!(next_cell(1, 1), 0);
    assert_eq!(next_cell(3, 4), 0);
    assert_eq!(next_cell(1, 2), 2);
    assert_eq!(next_cell(6, 3), 7);
    assert_eq!(next_cell(7, 2), 7);
    assert_eq!(next_cell(7, 3), 7);
    assert_eq!(next_cell(7, 8), 0);
}

#[test]
fn out_of_range_coordinate_is_refused() {
    let mut universe = Universe::from_cells(3, 2, vec![0, 1, 0, 0, 0, 2]).unwrap();
    assert_eq!(universe.set_cells_alive(&[(0, 0), (2, 0)]), Err(GridError::IndexOutOfRange));
    assert_eq!(universe.set_cells_alive(&[(0, 3)]), Err(GridError::IndexOutOfRange));
    assert_eq!(universe.get_cells(), &[0, 1, 0, 0, 0, 2]);
    assert_eq!(universe.set_cells_alive(&[(1, 2), (0, 0)]), Ok(()));
    assert_eq!(universe.get_cells(), &[1, 1, 0, 0, 0, 1]);
}

#[test]
fn from_cells_checks_size_and_ages() {
    assert!(matches!(Universe::from_cells(3, 3, vec![0; 8]), Err(GridError::InvalidDimension)));
    assert!(matches!(Universe::from_cells(70000, 70000, vec![]), Err(GridError::InvalidDimension)));
    assert!(matches!(Universe::from_cells(2, 1, vec![0, 8]), Err(GridError::InvalidAge)));
    let universe = Universe::from_cells(2, 1, vec![7, 0]).unwrap();
    assert_eq!(universe.get_cells(), &[7, 0]);
}

#[test]
fn render_draws_one_glyph_per_cell_and_one_line_per_row() {
    let universe = Universe::from_cells(2, 2, vec![0, 3, 1, 0]).unwrap();
    assert_eq!(universe.render(), "\u{1F480}\u{1F602}\n\u{1F602}\u{1F480}\n");
    let empty = Universe::from_cells(0, 4, vec![]).unwrap();
    assert_eq!(empty.render(), "");
}

#[test]
fn empty_grid_ticks_to_itself() {
    let mut universe = Universe::new(64, 64).unwrap();
    universe.set_width(0);
    universe.tick();
    assert_eq!(universe.get_cells().len(), 0);
    assert_eq!(universe.living_cells_count(), 0);
}

#[test]
fn new_takes_the_requested_size_and_refuses_overflow() {
    let universe = Universe::new(5, 3).unwrap();
    assert_eq!((universe.width(), universe.height()), (5, 3));
    assert_eq!(universe.get_cells().len(), 15);
    assert!(universe.get_cells().iter().all(|c| *c <= 1));
    assert!(matches!(Universe::new(70000, 70000), Err(GridError::InvalidDimension)));
    assert_eq!(Universe::new(0, 9).unwrap().get_cells().len(), 0);
}

#[test]
fn from_draws_turns_each_draw_into_a_cell() {
    let universe = Universe::from_draws(3, 2, &vec![true, false, false, true, true, false]);
    assert_eq!((universe.width(), universe.height()), (3, 2));
    assert_eq!(universe.get_cells(), &[1, 0, 0, 1, 1, 0]);
    assert_eq!(universe.living_cells_count(), 3);
}
