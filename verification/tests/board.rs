use n_puzzle_trial::board::board::{
    same_tiles, BAD_CONFIG, BAD_TEMPERATURE, BAD_TILES, MISSING_CONFIG,
};
use n_puzzle_trial::board::board_config::{check_arrangement, copy_tiles};
use n_puzzle_trial::board::order::{compare_boards, compare_tiles};
use n_puzzle_trial::board::scramble::DRAW_LIMIT;
use n_puzzle_trial::{
    Board, BoardBuilder, BoardConfig, BoardConfigBuilder, BoardManager, Temperature, Tile,
    UninformedConfig,
};
use std::cmp::Ordering;

fn standard_goal(n: u8) -> Vec<u8> {
    let cells = n as usize * n as usize;
    let mut goal: Vec<u8> = (1..cells).map(|value| value as u8).collect();
    goal.push(0);
    goal
}

fn config(n: u8, informed: bool) -> BoardConfig {
    let builder = BoardConfigBuilder::builder().essential(n, standard_goal(n));
    let builder = if informed { builder.with_informed() } else { builder };
    builder.build().expect("a config")
}

fn board(n: u8, tiles: Vec<u8>, informed: bool) -> Board {
    Board::with_tiles(config(n, informed), tiles).expect("a board")
}

fn numbers(board: &Board) -> Vec<u8> {
    BoardManager::tiles_of(board).iter().map(|tile| tile.get_value()).collect()
}

fn bad_config() -> BoardConfig {
    BoardConfig::Uninformed(UninformedConfig {
        n: 2,
        empty_tile_idx: 0,
        goal_state: vec![Tile::Value(1), Tile::Value(1), Tile::Value(3), Tile::Empty],
    })
}

#[test]
fn a_temperature_lies_between_one_and_a_thousand() {
    assert!(matches!(Temperature::from(0), Err(BAD_TEMPERATURE)));
    assert!(matches!(Temperature::from(1001), Err(BAD_TEMPERATURE)));
    assert!(matches!(Temperature::from(u16::MAX), Err(BAD_TEMPERATURE)));
    assert_eq!(Temperature::from(1).ok().map(|t| t.0), Some(1));
    assert_eq!(Temperature::from(300).ok().map(|t| t.0), Some(300));
    assert_eq!(Temperature::from(1000).ok().map(|t| t.0), Some(1000));
    assert_eq!(
        BAD_TEMPERATURE,
        "Temperature: temperature must be within 1 and 1000 thousandths (inclusive)"
    );
}

#[test]
fn a_board_needs_a_config() {
    assert!(matches!(BoardBuilder::builder().build(), Err(MISSING_CONFIG)));
    assert!(matches!(
        BoardBuilder::builder().temperature(Temperature(10)).build(),
        Err("BoardBuilder: config must be provided")
    ));
}

#[test]
fn a_board_needs_a_config_that_is_well_formed() {
    assert!(matches!(BoardBuilder::builder().config(bad_config()).build(), Err(BAD_CONFIG)));
    assert!(matches!(Board::with_tiles(bad_config(), vec![1, 2, 3, 0]), Err(BAD_CONFIG)));
}

#[test]
fn cells_that_are_no_arrangement_are_refused() {
    assert!(matches!(Board::with_tiles(config(2, false), vec![1, 2, 3]), Err(BAD_TILES)));
    assert!(matches!(Board::with_tiles(config(2, false), vec![1, 2, 2, 0]), Err(BAD_TILES)));
    assert!(matches!(Board::with_tiles(config(2, false), vec![1, 2, 3, 4]), Err(BAD_TILES)));
    assert!(matches!(Board::with_tiles(config(2, false), vec![1, 2, 3, 0, 0]), Err(BAD_TILES)));
}

#[test]
fn a_board_of_given_cells_knows_its_blank() {
    let board = board(3, vec![1, 2, 3, 4, 0, 6, 7, 5, 8], true);
    assert_eq!(BoardManager::empty_tile_idx(&board), 4);
    assert_eq!(BoardManager::size_of(&board), 3);
    assert_eq!(numbers(&board), vec![1, 2, 3, 4, 0, 6, 7, 5, 8]);
    assert_eq!(BoardManager::goal_of(&board)[8], Tile::Empty);
    assert!(!board.match_goal());
    assert!(BoardManager::is_informed(&board));
}

#[test]
fn a_board_without_heat_is_the_goal() {
    let board = BoardBuilder::builder()
        .config(config(3, true))
        .temperature(Temperature(0))
        .build()
        .expect("a board");
    assert!(board.match_goal());
    assert_eq!(numbers(&board), standard_goal(3));
    assert_eq!(BoardManager::empty_tile_idx(&board), 8);
}

#[test]
fn a_walk_without_steps_returns_the_goal() {
    let goal: Vec<Tile> = vec![Tile::Value(2), Tile::Empty, Tile::Value(1), Tile::Value(3)];
    let (tiles, blank) = BoardManager::generate_random_board(2, &goal, 0);
    assert_eq!(tiles, goal);
    assert_eq!(blank, 1);
}

fn assert_arrangement(tiles: &[Tile], n: u8, blank: u8) {
    let cells = n as usize * n as usize;
    assert_eq!(tiles.len(), cells);
    let mut seen = vec![false; cells];
    for tile in tiles {
        assert!(tile.is_wf());
        let value = tile.get_value() as usize;
        assert!(value < cells);
        assert!(!seen[value]);
        seen[value] = true;
    }
    assert_eq!(tiles.iter().filter(|tile| **tile == Tile::Empty).count(), 1);
    assert_eq!(tiles[blank as usize], Tile::Empty);
}

#[test]
fn a_scrambled_board_is_an_arrangement_with_one_blank() {
    for n in 2..=5u8 {
        for steps in [1u16, 2, 7, 100, 1000] {
            let goal: Vec<Tile> =
                standard_goal(n).into_iter().map(|value| Tile::with_value(value)).collect();
            let (tiles, blank) = BoardManager::generate_random_board(n, &goal, steps);
            assert_arrangement(&tiles, n, blank);
        }
    }
}

#[test]
fn one_slide_from_the_goal_moves_one_piece() {
    // after one slide the blank has changed places with a piece next to it
    for _ in 0..20 {
        let goal: Vec<Tile> =
            standard_goal(3).into_iter().map(|value| Tile::with_value(value)).collect();
        let (tiles, blank) = BoardManager::generate_random_board(3, &goal, 1);
        assert!(blank == 7 || blank == 5);
        let piece = if blank == 7 { Tile::Value(8) } else { Tile::Value(6) };
        assert_eq!(tiles[8], piece);
        let mut back = tiles.clone();
        back.swap(8, blank as usize);
        assert_eq!(back, goal);
    }
}

#[test]
fn a_walk_draws_its_directions() {
    // from the corner two slides stay on the grid, and both are drawn in the long run
    let goal: Vec<Tile> =
        standard_goal(3).into_iter().map(|value| Tile::with_value(value)).collect();
    let mut to_the_left = 0;
    let mut upwards = 0;
    for _ in 0..400 {
        let (_, blank) = BoardManager::generate_random_board(3, &goal, 1);
        if blank == 7 {
            to_the_left += 1;
        } else {
            assert_eq!(blank, 5);
            upwards += 1;
        }
    }
    assert!(to_the_left > 0);
    assert!(upwards > 0);
    // from the middle all four are
    let middle: Vec<Tile> =
        [1u8, 2, 3, 4, 0, 5, 6, 7, 8].iter().map(|value| Tile::with_value(*value)).collect();
    let mut seen = [false; 9];
    for _ in 0..800 {
        let (_, blank) = BoardManager::generate_random_board(3, &middle, 1);
        seen[blank as usize] = true;
    }
    assert_eq!(seen, [false, true, false, true, false, true, false, true, false]);
}

#[test]
fn the_parity_of_a_walk_is_the_parity_of_its_length() {
    // each slide moves the blank to a cell of the other colour of the chessboard
    for steps in [0u16, 1, 2, 3, 10, 11, 300, 301] {
        let goal: Vec<Tile> =
            standard_goal(4).into_iter().map(|value| Tile::with_value(value)).collect();
        let (_, blank) = BoardManager::generate_random_board(4, &goal, steps);
        let colour = (blank / 4 + blank % 4) % 2;
        let start = (15 / 4 + 15 % 4) % 2;
        assert_eq!((colour + start) % 2, (steps % 2) as u8);
    }
}

#[test]
fn a_built_board_keeps_its_config() {
    let built = BoardBuilder::builder()
        .config(
            BoardConfigBuilder::builder()
                .essential(4, standard_goal(4))
                .with_informed()
                .with_depth(3)
                .with_weight(9)
                .build()
                .expect("a config"),
        )
        .temperature(Temperature(50))
        .build()
        .expect("a board");
    assert_eq!(BoardManager::size_of(&built), 4);
    assert_eq!(BoardManager::heuristic_value_of(&built), 9);
    assert_eq!(BoardManager::total_weight(&built), 12);
    assert_arrangement(BoardManager::tiles_of(&built), 4, BoardManager::empty_tile_idx(&built));
    let goal: Vec<u8> = BoardManager::goal_of(&built).iter().map(|t| t.get_value()).collect();
    assert_eq!(goal, standard_goal(4));
    // the default temperature applies where none is given
    let default = BoardBuilder::builder().config(config(3, false)).build().expect("a board");
    assert_arrangement(BoardManager::tiles_of(&default), 3, BoardManager::empty_tile_idx(&default));
    assert!(DRAW_LIMIT > 0);
}

#[test]
fn a_blank_in_a_corner_has_two_neighbours() {
    for tiles in [
        vec![0, 1, 2, 3, 4, 5, 6, 7, 8],
        vec![1, 2, 0, 3, 4, 5, 6, 7, 8],
        vec![1, 2, 3, 4, 5, 6, 0, 7, 8],
        vec![1, 2, 3, 4, 5, 6, 7, 8, 0],
    ] {
        assert_eq!(BoardManager::neigbors_of(&board(3, tiles, false)).len(), 2);
    }
    for tiles in [vec![0, 1, 2, 3], vec![1, 0, 2, 3], vec![1, 2, 0, 3], vec![1, 2, 3, 0]] {
        assert_eq!(BoardManager::neigbors_of(&board(2, tiles, false)).len(), 2);
    }
}

#[test]
fn a_blank_on_an_edge_has_three_neighbours() {
    for tiles in [
        vec![1, 0, 2, 3, 4, 5, 6, 7, 8],
        vec![1, 2, 3, 0, 4, 5, 6, 7, 8],
        vec![1, 2, 3, 4, 5, 0, 6, 7, 8],
        vec![1, 2, 3, 4, 5, 6, 7, 0, 8],
    ] {
        assert_eq!(BoardManager::neigbors_of(&board(3, tiles, false)).len(), 3);
    }
}

#[test]
fn a_blank_inside_has_four_neighbours() {
    let inside = board(3, vec![1, 2, 3, 4, 0, 5, 6, 7, 8], true);
    let neighbors = BoardManager::neigbors_of(&inside);
    assert_eq!(neighbors.len(), 4);
    // left, right, up, down
    assert_eq!(numbers(&neighbors[0]), vec![1, 2, 3, 0, 4, 5, 6, 7, 8]);
    assert_eq!(numbers(&neighbors[1]), vec![1, 2, 3, 4, 5, 0, 6, 7, 8]);
    assert_eq!(numbers(&neighbors[2]), vec![1, 0, 3, 4, 2, 5, 6, 7, 8]);
    assert_eq!(numbers(&neighbors[3]), vec![1, 2, 3, 4, 7, 5, 6, 0, 8]);
    let blanks: Vec<u8> = neighbors.iter().map(|b| BoardManager::empty_tile_idx(b)).collect();
    assert_eq!(blanks, vec![3, 5, 1, 7]);
    let mut tiles: Vec<u8> = (1..=15).collect();
    tiles.insert(5, 0);
    assert_eq!(BoardManager::neigbors_of(&board(4, tiles.clone(), false)).len(), 4);
    tiles.swap(5, 6);
    assert_eq!(BoardManager::neigbors_of(&board(4, tiles.clone(), false)).len(), 4);
    tiles.swap(6, 7);
    assert_eq!(BoardManager::neigbors_of(&board(4, tiles, false)).len(), 3);
}

#[test]
fn a_neighbour_is_one_move_deeper() {
    let start = Board::with_tiles(
        BoardConfigBuilder::builder()
            .essential(3, standard_goal(3))
            .with_informed()
            .with_depth(5)
            .with_weight(4)
            .build()
            .expect("a config"),
        vec![1, 2, 3, 4, 0, 5, 6, 7, 8],
    )
    .expect("a board");
    for neighbor in BoardManager::neigbors_of(&start) {
        assert_eq!(BoardManager::total_weight(&neighbor), 6 + 4);
        assert_eq!(BoardManager::heuristic_value_of(&neighbor), 4);
        assert_eq!(BoardManager::goal_of(&neighbor), BoardManager::goal_of(&start));
    }
    // a board without costs stays without
    for neighbor in BoardManager::neigbors_of(&board(3, vec![1, 2, 3, 4, 0, 5, 6, 7, 8], false)) {
        assert_eq!(BoardManager::total_weight(&neighbor), 0);
        assert!(!BoardManager::is_informed(&neighbor));
    }
}

#[test]
fn the_depth_stays_at_the_largest_number() {
    let deep = Board::with_tiles(
        BoardConfigBuilder::builder()
            .essential(2, standard_goal(2))
            .with_informed()
            .with_depth(usize::MAX)
            .with_weight(3)
            .build()
            .expect("a config"),
        vec![1, 2, 3, 0],
    )
    .expect("a board");
    assert_eq!(BoardManager::total_weight(&deep), usize::MAX);
    let next = BoardManager::swap_empty_tile_with(2, &deep);
    assert_eq!(BoardManager::total_weight(&next), usize::MAX);
    assert_eq!(BoardManager::heuristic_value_of(&next), 3);
    assert_eq!(numbers(&next), vec![1, 2, 0, 3]);
}

#[test]
fn slides_stop_at_the_border() {
    // 3x3: cells 0 1 2 / 3 4 5 / 6 7 8
    assert_eq!(BoardManager::move_left(3, 3), None);
    assert_eq!(BoardManager::move_left(4, 3), Some(3));
    assert_eq!(BoardManager::move_left(0, 3), None);
    assert_eq!(BoardManager::move_right(2, 3), None);
    assert_eq!(BoardManager::move_right(5, 3), None);
    assert_eq!(BoardManager::move_right(8, 3), None);
    assert_eq!(BoardManager::move_right(0, 3), Some(1));
    assert_eq!(BoardManager::move_right(3, 3), Some(4));
    assert_eq!(BoardManager::move_right(4, 3), Some(5));
    assert_eq!(BoardManager::move_right(6, 3), Some(7));
    assert_eq!(BoardManager::move_up(2, 3), None);
    assert_eq!(BoardManager::move_up(3, 3), Some(0));
    assert_eq!(BoardManager::move_down(5, 3), Some(8));
    assert_eq!(BoardManager::move_down(6, 3), None);
    assert_eq!(BoardManager::move_down(8, 3), None);
    // 2x2
    assert_eq!(BoardManager::move_right(0, 2), Some(1));
    assert_eq!(BoardManager::move_right(1, 2), None);
    assert_eq!(BoardManager::move_right(2, 2), Some(3));
    assert_eq!(BoardManager::move_down(1, 2), Some(3));
    assert_eq!(BoardManager::move_down(2, 2), None);
}

#[test]
fn a_direction_is_a_number_below_four() {
    assert_eq!(BoardManager::slide(4, 3, 0), Some(3));
    assert_eq!(BoardManager::slide(4, 3, 1), Some(5));
    assert_eq!(BoardManager::slide(4, 3, 2), Some(1));
    assert_eq!(BoardManager::slide(4, 3, 3), Some(7));
    assert_eq!(BoardManager::slide(4, 3, 4), None);
    assert_eq!(BoardManager::slide(4, 3, 255), None);
    assert_eq!(BoardManager::slide(0, 3, 0), None);
    assert_eq!(BoardManager::slide(0, 3, 2), None);
    assert_eq!(BoardManager::first_slide(4, 3), 3);
    assert_eq!(BoardManager::first_slide(3, 3), 4);
    assert_eq!(BoardManager::first_slide(0, 2), 1);
}

#[test]
fn a_weight_is_kept_by_a_board_with_costs_only() {
    let informed = BoardManager::assign_weight(board(3, standard_goal(3), true), 17);
    assert_eq!(BoardManager::heuristic_value_of(&informed), 17);
    assert_eq!(BoardManager::total_weight(&informed), 17);
    let uninformed = BoardManager::assign_weight(board(3, standard_goal(3), false), 17);
    assert_eq!(BoardManager::heuristic_value_of(&uninformed), 0);
    assert_eq!(BoardManager::total_weight(&uninformed), 0);
}

#[test]
fn costs_can_be_given_and_taken() {
    let plain = board(3, vec![1, 2, 3, 4, 0, 5, 6, 7, 8], false);
    let costed = BoardManager::with_costs(plain);
    assert!(BoardManager::is_informed(&costed));
    assert_eq!(BoardManager::total_weight(&costed), 0);
    assert_eq!(BoardManager::heuristic_value_of(&costed), 0);
    assert_eq!(numbers(&costed), vec![1, 2, 3, 4, 0, 5, 6, 7, 8]);
    assert_eq!(BoardManager::empty_tile_idx(&costed), 4);
    let next = BoardManager::swap_empty_tile_with(5, &costed);
    assert_eq!(BoardManager::total_weight(&next), 1);
    let back = BoardManager::without_costs(next);
    assert!(!BoardManager::is_informed(&back));
    assert_eq!(BoardManager::total_weight(&back), 0);
    assert_eq!(numbers(&back), vec![1, 2, 3, 4, 5, 0, 6, 7, 8]);
    assert_eq!(BoardManager::empty_tile_idx(&back), 5);
    // costs that are there stay
    let heavy = BoardManager::assign_weight(board(3, vec![1, 2, 3, 4, 0, 5, 6, 7, 8], true), 9);
    let same = BoardManager::with_costs(heavy);
    assert_eq!(BoardManager::heuristic_value_of(&same), 9);
    let config = config(2, false).with_costs();
    assert_eq!(config.get_depth(), Some(&0));
    assert_eq!(config.get_weight(), Some(&0));
    assert_eq!(config.n(), 2);
    let config = config.without_costs();
    assert_eq!(config.get_depth(), None);
    assert_eq!(config.goal_state().len(), 4);
}

#[test]
fn boards_are_equal_when_their_cells_are() {
    let cheap = BoardManager::assign_weight(board(3, vec![1, 2, 3, 4, 0, 5, 6, 7, 8], true), 1);
    let dear = BoardManager::assign_weight(board(3, vec![1, 2, 3, 4, 0, 5, 6, 7, 8], true), 9);
    let plain = board(3, vec![1, 2, 3, 4, 0, 5, 6, 7, 8], false);
    let other = board(3, vec![1, 2, 3, 4, 5, 0, 6, 7, 8], true);
    assert!(cheap == dear);
    assert!(cheap == plain);
    assert!(cheap != other);
    assert_eq!(cheap.hash_code(), dear.hash_code());
    assert_eq!(cheap.hash_code(), plain.hash_code());
    assert!(same_tiles(BoardManager::tiles_of(&cheap), BoardManager::tiles_of(&plain)));
    assert!(!same_tiles(BoardManager::tiles_of(&cheap), BoardManager::tiles_of(&other)));
    let copy = other.duplicate();
    assert!(copy == other);
    assert_eq!(BoardManager::empty_tile_idx(&copy), 5);
}

#[test]
fn boards_with_costs_compare_by_their_sum_the_lower_last() {
    let cheap = BoardManager::assign_weight(board(3, vec![1, 2, 3, 4, 0, 5, 6, 7, 8], true), 1);
    let dear = BoardManager::assign_weight(board(3, vec![0, 1, 2, 3, 4, 5, 6, 7, 8], true), 9);
    let as_dear = BoardManager::assign_weight(board(3, vec![1, 0, 2, 3, 4, 5, 6, 7, 8], true), 9);
    assert_eq!(cheap.cmp(&dear), Ordering::Greater);
    assert_eq!(dear.cmp(&cheap), Ordering::Less);
    assert_eq!(cheap.partial_cmp(&dear), Some(Ordering::Greater));
    assert!(cheap > dear);
    assert!(dear < cheap);
    assert_eq!(compare_boards(&cheap, &dear), 1);
    assert_eq!(compare_boards(&dear, &cheap), -1);
    // at the same sum the cells decide: the blank comes before every piece
    assert_eq!(dear.cmp(&as_dear), Ordering::Less);
    assert_eq!(as_dear.cmp(&dear), Ordering::Greater);
    assert_eq!(dear.partial_cmp(&as_dear), Some(Ordering::Less));
    assert!(dear < as_dear);
    assert_eq!(compare_boards(&dear, &as_dear), -1);
    assert_eq!(compare_boards(&as_dear, &dear), 1);
    // the same sum made of another depth and weight, and the same cells
    let deep = Board::with_tiles(
        BoardConfigBuilder::builder()
            .essential(3, standard_goal(3))
            .with_informed()
            .with_depth(4)
            .with_weight(5)
            .build()
            .expect("a config"),
        vec![0, 1, 2, 3, 4, 5, 6, 7, 8],
    )
    .expect("a board");
    assert_eq!(dear.cmp(&deep), Ordering::Equal);
    assert_eq!(deep.cmp(&dear), Ordering::Equal);
    assert_eq!(compare_boards(&dear, &deep), 0);
    assert!(dear == deep);
    assert_eq!(deep.cmp(&as_dear), Ordering::Less);
    // the same cells at another sum are equal, and yet one comes last
    let dearer = BoardManager::assign_weight(dear.duplicate(), 10);
    assert!(dear == dearer);
    assert_eq!(dear.cmp(&dearer), Ordering::Greater);
    assert_eq!(dearer.cmp(&dear), Ordering::Less);
}

#[test]
fn other_boards_compare_by_their_cells() {
    let first = board(3, vec![0, 1, 2, 3, 4, 5, 6, 7, 8], false);
    let second = board(3, vec![1, 0, 2, 3, 4, 5, 6, 7, 8], false);
    let informed = BoardManager::assign_weight(board(3, vec![1, 0, 2, 3, 4, 5, 6, 7, 8], true), 50);
    assert_eq!(first.cmp(&second), Ordering::Less);
    assert_eq!(second.cmp(&first), Ordering::Greater);
    assert_eq!(first.cmp(&first.duplicate()), Ordering::Equal);
    assert_eq!(first.cmp(&informed), Ordering::Less);
    assert_eq!(informed.cmp(&first), Ordering::Greater);
    assert_eq!(second.cmp(&informed), Ordering::Equal);
    let short = [Tile::Value(1), Tile::Value(2)];
    let long = [Tile::Value(1), Tile::Value(2), Tile::Empty];
    assert_eq!(compare_tiles(&short, &long), -1);
    assert_eq!(compare_tiles(&long, &short), 1);
    assert_eq!(compare_tiles(&long, &long), 0);
    assert_eq!(compare_tiles(&[Tile::Empty], &[Tile::Value(0)]), -1);
    assert_eq!(compare_tiles(&[Tile::Value(3)], &[Tile::Value(2), Tile::Value(9)]), 1);
    // the order of cells is the order of the cells themselves
    assert_eq!(short[..].cmp(&long[..]), Ordering::Less);
    assert_eq!([Tile::Empty].cmp(&[Tile::Value(0)]), Ordering::Less);
}

#[test]
fn an_arrangement_holds_each_number_once() {
    let row = |values: &[u8]| -> Vec<Tile> { values.iter().map(|v| Tile::with_value(*v)).collect() };
    assert!(check_arrangement(&row(&[3, 1, 0, 2]), 2));
    assert!(!check_arrangement(&row(&[3, 1, 0, 2]), 3));
    assert!(!check_arrangement(&row(&[3, 1, 1, 2]), 2));
    assert!(!check_arrangement(&row(&[3, 1, 4, 2]), 2));
    assert!(!check_arrangement(&row(&[0]), 1));
    assert!(!check_arrangement(&[Tile::Value(0), Tile::Value(1), Tile::Value(2), Tile::Value(3)], 2));
    assert_eq!(copy_tiles(&row(&[3, 1, 0, 2])), row(&[3, 1, 0, 2]));
    assert_eq!(copy_tiles(&[]), Vec::<Tile>::new());
}

#[test]
fn the_rows_of_a_board_are_its_cells_row_by_row() {
    let board = board(3, vec![1, 2, 3, 4, 0, 5, 6, 7, 8], false);
    assert_eq!(board.rows(), vec![vec![1, 2, 3], vec![4, 0, 5], vec![6, 7, 8]]);
    let wide = Board::with_tiles(config(4, true), standard_goal(4)).expect("a board");
    assert_eq!(
        wide.rows(),
        vec![vec![1, 2, 3, 4], vec![5, 6, 7, 8], vec![9, 10, 11, 12], vec![13, 14, 15, 0]]
    );
}
