use n_puzzle_trial::algorithms::informed_search::heuristic::mahattan_distance::{
    cell_distance, gap,
};
use n_puzzle_trial::{
    mahattan_distance, Board, BoardConfig, BoardConfigBuilder, BoardManager, HeuristicError,
    HeuristicFn, InversionDistance, MahattanDistance, Tile,
};

fn standard_goal(n: u8) -> Vec<u8> {
    let cells = n as usize * n as usize;
    let mut goal: Vec<u8> = (1..cells).map(|value| value as u8).collect();
    goal.push(0);
    goal
}

fn config_for(n: u8, goal: Vec<u8>, informed: bool) -> BoardConfig {
    let builder = BoardConfigBuilder::builder().essential(n, goal);
    let builder = if informed { builder.with_informed() } else { builder };
    builder.build().expect("a config")
}

fn board(n: u8, tiles: Vec<u8>) -> Board {
    Board::with_tiles(config_for(n, standard_goal(n), true), tiles).expect("a board")
}

fn numbers(board: &Board) -> Vec<u8> {
    BoardManager::tiles_of(board).iter().map(|tile| tile.get_value()).collect()
}

/// The Manhattan distance, summed cell by cell.
fn manhattan_by_hand(tiles: &[u8], goal: &[u8], n: usize) -> usize {
    let mut total = 0;
    for (idx, value) in tiles.iter().enumerate() {
        if *value == 0 {
            continue;
        }
        let home = goal.iter().position(|other| other == value).expect("a place in the goal");
        total += (idx % n).abs_diff(home % n) + (idx / n).abs_diff(home / n);
    }
    total
}

/// The inversions of `tiles` against `goal`, both read in the given order of cells.
fn inversions_by_hand(tiles: &[u8], goal: &[u8], reading: &[usize]) -> usize {
    let mut rank = vec![0usize; tiles.len()];
    for (place, cell) in reading.iter().enumerate() {
        rank[goal[*cell] as usize] = place;
    }
    let row: Vec<u8> = reading.iter().map(|cell| tiles[*cell]).collect();
    let mut count = 0;
    for later in 0..row.len() {
        for earlier in 0..later {
            if row[earlier] != 0 && row[later] != 0 && rank[row[earlier] as usize] > rank[row[later] as usize]
            {
                count += 1;
            }
        }
    }
    count
}

fn row_by_row(n: usize) -> Vec<usize> {
    (0..n * n).collect()
}

fn column_by_column(n: usize) -> Vec<usize> {
    (0..n * n).map(|k| (k % n) * n + k / n).collect()
}

fn distance_by_hand(tiles: &[u8], goal: &[u8], n: usize) -> usize {
    let horizontal = inversions_by_hand(tiles, goal, &row_by_row(n));
    let vertical = inversions_by_hand(tiles, goal, &column_by_column(n));
    horizontal / (n - 1) + horizontal % (n - 1) + vertical / (n - 1) + vertical % (n - 1)
}

/// A walk that never steps back at once, chosen by a fixed rule.
fn walk(start: Board, length: usize, seed: u64) -> Vec<Board> {
    let mut boards = vec![start];
    let mut state = seed;
    for _ in 0..length {
        let here = boards.last().expect("a board");
        let before = if boards.len() >= 2 { Some(numbers(&boards[boards.len() - 2])) } else { None };
        let mut choices: Vec<Board> = BoardManager::neigbors_of(here)
            .into_iter()
            .filter(|next| Some(numbers(next)) != before)
            .collect();
        state = state.wrapping_mul(6364136223846793005).wrapping_add(1442695040888963407);
        let pick = ((state >> 33) as usize) % choices.len();
        boards.push(choices.swap_remove(pick));
    }
    boards
}

#[test]
fn the_goal_is_no_distance_from_itself() {
    for n in 2..=5u8 {
        let goal_board = board(n, standard_goal(n));
        assert_eq!(mahattan_distance(&goal_board, None), 0);
        assert_eq!(MahattanDistance.compute(&goal_board, None), Ok(0));
        let mut inversions = InversionDistance::new();
        assert_eq!(inversions.compute(&goal_board, None), Ok(0));
        assert_eq!(inversions.counts_of(&goal_board), Some((0, 0)));
        assert_eq!(inversions.inversion_count(&goal_board, false), 0);
        assert_eq!(inversions.inversion_count(&goal_board, true), 0);
    }
    // a goal of one's own
    let own = Board::with_tiles(
        config_for(3, vec![8, 1, 3, 4, 0, 2, 7, 6, 5], true),
        vec![8, 1, 3, 4, 0, 2, 7, 6, 5],
    )
    .expect("a board");
    assert_eq!(mahattan_distance(&own, None), 0);
    let mut inversions = InversionDistance::new();
    assert_eq!(inversions.compute(&own, None), Ok(0));
    assert_eq!(inversions.counts_of(&own), Some((0, 0)));
}

#[test]
fn one_slide_to_the_left_from_the_goal() {
    // n = 3, goal 1 2 3 / 4 5 6 / 7 8 _ ; the blank slides left, the piece 8 moves right
    let goal_board = board(3, standard_goal(3));
    let mut manhattan = MahattanDistance;
    let mut inversions = InversionDistance::new();
    let at_goal = manhattan.compute(&goal_board, None).expect("a distance");
    assert_eq!(at_goal, 0);
    assert_eq!(inversions.compute(&goal_board, None), Ok(0));
    assert_eq!(inversions.counts_of(&goal_board), Some((0, 0)));
    let goal_board = BoardManager::assign_weight(goal_board, at_goal);

    let neighbors = BoardManager::neigbors_of(&goal_board);
    let left = &neighbors[0];
    assert_eq!(numbers(left), vec![1, 2, 3, 4, 5, 6, 7, 0, 8]);
    // one piece is one cell from home
    assert_eq!(manhattan.compute(left, Some(&goal_board)), Ok(1));
    assert_eq!(manhattan.compute(left, None), Ok(1));
    // read column by column the piece 8 has jumped over 3 and 6
    assert_eq!(inversions.compute(left, Some(&goal_board)), Ok(1));
    assert_eq!(inversions.counts_of(left), Some((0, 2)));
    let mut fresh = InversionDistance::new();
    assert_eq!(fresh.compute(left, None), Ok(1));
    assert_eq!(fresh.counts_of(left), Some((0, 2)));
}

#[test]
fn one_slide_up_from_the_goal() {
    // the blank slides up, the piece 6 moves into the old place of the blank
    let goal_board = board(3, standard_goal(3));
    let mut manhattan = MahattanDistance;
    let mut inversions = InversionDistance::new();
    assert_eq!(manhattan.compute(&goal_board, None), Ok(0));
    assert_eq!(inversions.compute(&goal_board, None), Ok(0));
    let up = BoardManager::swap_empty_tile_with(5, &goal_board);
    assert_eq!(numbers(&up), vec![1, 2, 3, 4, 5, 0, 7, 8, 6]);
    assert_eq!(manhattan.compute(&up, Some(&goal_board)), Ok(1));
    assert_eq!(mahattan_distance(&up, None), 1);
    // read row by row the piece 6 has jumped over 7 and 8
    assert_eq!(inversions.compute(&up, Some(&goal_board)), Ok(1));
    assert_eq!(inversions.counts_of(&up), Some((2, 0)));
}

#[test]
fn the_manhattan_distance_adds_rows_and_columns() {
    assert_eq!(mahattan_distance(&board(3, vec![1, 2, 3, 4, 5, 6, 0, 7, 8]), None), 2);
    assert_eq!(mahattan_distance(&board(3, vec![8, 1, 3, 4, 0, 2, 7, 6, 5]), None), 10);
    assert_eq!(mahattan_distance(&board(3, vec![8, 6, 7, 2, 5, 4, 3, 0, 1]), None), 21);
    assert_eq!(mahattan_distance(&board(2, vec![0, 3, 2, 1]), None), 6);
    assert_eq!(
        mahattan_distance(&board(4, vec![15, 14, 13, 12, 11, 10, 9, 8, 7, 6, 5, 4, 3, 2, 1, 0]), None),
        manhattan_by_hand(&[15, 14, 13, 12, 11, 10, 9, 8, 7, 6, 5, 4, 3, 2, 1, 0], &standard_goal(4), 4)
    );
    // the index handed in besides plays no part
    assert_eq!(mahattan_distance(&board(3, vec![1, 2, 3, 4, 5, 6, 0, 7, 8]), Some(4)), 2);
    assert_eq!(gap(3, 7), 4);
    assert_eq!(gap(7, 3), 4);
    assert_eq!(gap(5, 5), 0);
    assert_eq!(cell_distance(0, 8, 3), 4);
    assert_eq!(cell_distance(5, 3, 3), 2);
    assert_eq!(cell_distance(2, 3, 3), 3);
    // any two cells of any grid
    assert_eq!(cell_distance(usize::MAX, 0, 1), usize::MAX);
    assert_eq!(cell_distance(0, usize::MAX, usize::MAX), 1);
    assert_eq!(cell_distance(usize::MAX, usize::MAX - 1, 2), 1);
    assert_eq!(cell_distance(70_000, 0, 300), 233 + 100);
}

#[test]
fn the_goal_decides_where_home_is() {
    let tiles = vec![1, 2, 3, 4, 5, 6, 7, 8, 0];
    let goal = vec![0, 1, 2, 3, 4, 5, 6, 7, 8];
    let board = Board::with_tiles(config_for(3, goal.clone(), true), tiles.clone()).expect("a board");
    assert_eq!(mahattan_distance(&board, None), manhattan_by_hand(&tiles, &goal, 3));
    assert_eq!(mahattan_distance(&board, None), 12);
    let mut inversions = InversionDistance::new();
    assert_eq!(inversions.compute(&board, None), Ok(distance_by_hand(&tiles, &goal, 3)));
}

#[test]
fn the_inversion_distance_folds_both_counts() {
    // two slides to the left: row by row nothing changes, column by column 7 and 8 have jumped
    let two_left = board(3, vec![1, 2, 3, 4, 5, 6, 0, 7, 8]);
    let mut inversions = InversionDistance::new();
    assert_eq!(inversions.inversion_count(&two_left, false), 0);
    assert_eq!(inversions.inversion_count(&two_left, true), 4);
    assert_eq!(inversions.compute(&two_left, None), Ok(2));
    assert_eq!(inversions.counts_of(&two_left), Some((0, 4)));

    let mixed = board(3, vec![8, 1, 3, 4, 0, 2, 7, 6, 5]);
    let tiles = numbers(&mixed);
    let horizontal = inversions_by_hand(&tiles, &standard_goal(3), &row_by_row(3));
    let vertical = inversions_by_hand(&tiles, &standard_goal(3), &column_by_column(3));
    assert_eq!(horizontal, 12);
    assert_eq!(inversions.inversion_count(&mixed, false), horizontal);
    assert_eq!(inversions.inversion_count(&mixed, true), vertical);
    assert_eq!(
        inversions.compute(&mixed, None),
        Ok(horizontal / 2 + horizontal % 2 + vertical / 2 + vertical % 2)
    );
    // on a 4x4 grid one slide mends at most three inversions
    let reversed = board(4, vec![15, 14, 13, 12, 11, 10, 9, 8, 7, 6, 5, 4, 3, 2, 1, 0]);
    assert_eq!(inversions.inversion_count(&reversed, false), 105);
    assert_eq!(inversions.inversion_count(&reversed, true), 69);
    assert_eq!(inversions.compute(&reversed, None), Ok(35 + 23));
}

#[test]
fn the_cells_can_be_read_column_by_column() {
    let inversions = InversionDistance::new();
    let tiles: Vec<Tile> = (0..9u8).map(Tile::with_value).collect();
    let read: Vec<u8> = inversions.transpose(&tiles, 3).iter().map(|t| t.get_value()).collect();
    assert_eq!(read, vec![0, 3, 6, 1, 4, 7, 2, 5, 8]);
    let tiles: Vec<Tile> = (0..4u8).map(Tile::with_value).collect();
    let read: Vec<u8> = inversions.transpose(&tiles, 2).iter().map(|t| t.get_value()).collect();
    assert_eq!(read, vec![0, 2, 1, 3]);
    let tiles: Vec<Tile> = (0..16u8).map(Tile::with_value).collect();
    let once = inversions.transpose(&tiles, 4);
    assert_eq!(once[1], Tile::Value(4));
    assert_eq!(once[4], Tile::Value(1));
    assert_eq!(inversions.transpose(&once, 4), tiles);
}

#[test]
fn the_order_of_the_goal_ranks_the_pieces() {
    let inversions = InversionDistance::new();
    let board = board(3, vec![1, 2, 3, 4, 5, 6, 0, 7, 8]);
    let rows = inversions.compute_order(&board, false);
    assert_eq!(rows.len(), 9);
    assert_eq!(rows.get(&1), Some(&0));
    assert_eq!(rows.get(&6), Some(&5));
    assert_eq!(rows.get(&0), Some(&8));
    let columns = inversions.compute_order(&board, true);
    assert_eq!(columns.get(&1), Some(&0));
    assert_eq!(columns.get(&4), Some(&1));
    assert_eq!(columns.get(&7), Some(&2));
    assert_eq!(columns.get(&2), Some(&3));
    assert_eq!(columns.get(&6), Some(&7));
    assert_eq!(columns.get(&0), Some(&8));
}

#[test]
fn an_update_gives_what_starting_over_gives() {
    for (n, length, seed) in [(2u8, 40usize, 1u64), (3, 200, 2), (3, 200, 3), (4, 300, 4), (5, 300, 5)] {
        let goal = standard_goal(n);
        let start = board(n, goal.clone());
        let mut manhattan = MahattanDistance;
        let mut inversions = InversionDistance::new();
        let weight = manhattan.compute(&start, None).expect("a distance");
        assert_eq!(inversions.compute(&start, None), Ok(0));
        let mut previous = BoardManager::assign_weight(start.duplicate(), weight);
        for next in walk(start, length, seed).into_iter().skip(1) {
            let tiles = numbers(&next);
            let warm = manhattan.compute(&next, Some(&previous)).expect("a distance");
            assert_eq!(warm, manhattan_by_hand(&tiles, &goal, n as usize));
            assert_eq!(Ok(warm), MahattanDistance.compute(&next, None));
            let warm_inversions = inversions.compute(&next, Some(&previous)).expect("a distance");
            let kept = inversions.counts_of(&next).expect("counts");
            let mut fresh = InversionDistance::new();
            assert_eq!(Ok(warm_inversions), fresh.compute(&next, None));
            assert_eq!(Some(kept), fresh.counts_of(&next));
            assert_eq!(kept.0, inversions_by_hand(&tiles, &goal, &row_by_row(n as usize)));
            assert_eq!(kept.1, inversions_by_hand(&tiles, &goal, &column_by_column(n as usize)));
            assert_eq!(warm_inversions, distance_by_hand(&tiles, &goal, n as usize));
            previous = BoardManager::assign_weight(next, warm);
        }
    }
}

#[test]
fn a_slide_changes_the_manhattan_distance_by_one() {
    let start = board(4, standard_goal(4));
    let boards = walk(start, 150, 11);
    for pair in boards.windows(2) {
        let before = mahattan_distance(&pair[0], None);
        let after = mahattan_distance(&pair[1], None);
        assert_eq!(before.abs_diff(after), 1);
    }
}

#[test]
fn a_board_never_evaluated_cannot_be_updated_from() {
    let first = board(3, standard_goal(3));
    let second = BoardManager::swap_empty_tile_with(7, &first);
    let third = BoardManager::swap_empty_tile_with(6, &second);
    let mut inversions = InversionDistance::new();
    assert_eq!(inversions.compute(&second, Some(&first)), Err(HeuristicError::NotEvaluated));
    assert_eq!(inversions.counts_of(&second), None);
    assert_eq!(inversions.counts_of(&first), None);
    assert_eq!(inversions.compute(&first, None), Ok(0));
    assert_eq!(inversions.compute(&third, Some(&second)), Err(HeuristicError::NotEvaluated));
    // the error has changed nothing, and what was evaluated keeps its counts
    assert_eq!(inversions.counts_of(&first), Some((0, 0)));
    assert_eq!(inversions.counts_of(&third), None);
    assert_eq!(inversions.compute(&second, Some(&first)), Ok(1));
    assert_eq!(inversions.compute(&third, Some(&second)), Ok(2));
    assert_eq!(inversions.counts_of(&first), Some((0, 0)));
    assert_eq!(inversions.counts_of(&second), Some((0, 2)));
}

#[test]
fn counts_are_kept_for_one_goal_at_a_time() {
    let first = board(3, standard_goal(3));
    let second = BoardManager::swap_empty_tile_with(7, &first);
    let elsewhere = Board::with_tiles(
        config_for(3, vec![0, 1, 2, 3, 4, 5, 6, 7, 8], true),
        vec![1, 2, 3, 4, 5, 6, 7, 8, 0],
    )
    .expect("a board");
    let mut inversions = InversionDistance::new();
    assert_eq!(inversions.compute(&first, None), Ok(0));
    assert!(inversions.counts_of(&first).is_some());
    // the same cells with another goal are another matter
    assert_eq!(inversions.counts_of(&elsewhere), None);
    assert!(inversions.compute(&elsewhere, None).is_ok());
    assert!(inversions.counts_of(&elsewhere).is_some());
    assert_eq!(inversions.counts_of(&first), None);
    assert_eq!(inversions.compute(&second, Some(&first)), Err(HeuristicError::NotEvaluated));
}

#[test]
fn a_weight_that_cannot_be_right_is_reported() {
    // the board before carries the weight 0, but one of its pieces is away from home
    let before = board(3, vec![1, 2, 3, 4, 5, 6, 7, 0, 8]);
    let after = BoardManager::swap_empty_tile_with(8, &before);
    assert!(after.match_goal());
    assert_eq!(
        MahattanDistance.compute(&after, Some(&before)),
        Err(HeuristicError::Inconsistent)
    );
    let before = BoardManager::assign_weight(before, 1);
    assert_eq!(MahattanDistance.compute(&after, Some(&before)), Ok(0));
    // a weight so large that nothing can be added to it
    let heavy = BoardManager::assign_weight(board(3, standard_goal(3)), usize::MAX);
    let next = BoardManager::swap_empty_tile_with(7, &heavy);
    assert_eq!(MahattanDistance.compute(&next, Some(&heavy)), Err(HeuristicError::Inconsistent));
}

#[test]
fn a_board_without_costs_is_weighed_from_its_cells() {
    let plain =
        Board::with_tiles(config_for(3, standard_goal(3), false), vec![1, 2, 3, 4, 5, 6, 0, 7, 8])
            .expect("a board");
    assert_eq!(mahattan_distance(&plain, None), 2);
    assert_eq!(MahattanDistance.compute(&plain, None), Ok(2));
    let mut inversions = InversionDistance::new();
    assert_eq!(inversions.compute(&plain, None), Ok(2));
    let next = BoardManager::swap_empty_tile_with(7, &plain);
    assert_eq!(inversions.compute(&next, Some(&plain)), Ok(1));
}
