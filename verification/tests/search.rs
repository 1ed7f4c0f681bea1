use n_puzzle_trial::algorithms::frontier::{Discipline, Frontier};
use n_puzzle_trial::algorithms::best_first::best_first;
use n_puzzle_trial::board::tile_map::{hash_tiles, TileMap};
use n_puzzle_trial::{
    AStarAlgorithms, Algorithms, Board, BoardBuilder, BoardConfig, BoardConfigBuilder,
    BoardManager, DfsAlgorithms, HeuristicFn, InversionDistance, MahattanDistance, NoEstimate,
    Temperature, Tile, UcsAlgorithms,
};
use std::collections::{HashMap, HashSet, VecDeque};

fn standard_goal(n: u8) -> Vec<u8> {
    let cells = n as usize * n as usize;
    let mut goal: Vec<u8> = (1..cells).map(|value| value as u8).collect();
    goal.push(0);
    goal
}

fn config(n: u8, informed: bool) -> BoardConfig {
    let builder = BoardConfigBuilder::builder().essential(n, standard_goal(n));
    let builder = if informed { builder.with_informed() } else { builder };
    builder.build().expect("a config")
}

fn board(n: u8, tiles: Vec<u8>, informed: bool) -> Board {
    Board::with_tiles(config(n, informed), tiles).expect("a board")
}

fn numbers(board: &Board) -> Vec<u8> {
    BoardManager::tiles_of(board).iter().map(|tile| tile.get_value()).collect()
}

fn slides_from(tiles: &[u8], n: usize) -> Vec<Vec<u8>> {
    let blank = tiles.iter().position(|value| *value == 0).expect("a blank");
    let mut targets = Vec::new();
    if blank % n != 0 {
        targets.push(blank - 1);
    }
    if blank % n != n - 1 {
        targets.push(blank + 1);
    }
    if blank >= n {
        targets.push(blank - n);
    }
    if blank + n < n * n {
        targets.push(blank + n);
    }
    targets
        .into_iter()
        .map(|target| {
            let mut next = tiles.to_vec();
            next.swap(blank, target);
            next
        })
        .collect()
}

/// The least number of slides to the goal, for every arrangement that has one.
fn distances_to(goal: &[u8], n: usize) -> HashMap<Vec<u8>, usize> {
    let mut distances = HashMap::new();
    let mut queue = VecDeque::new();
    distances.insert(goal.to_vec(), 0);
    queue.push_back(goal.to_vec());
    while let Some(tiles) = queue.pop_front() {
        let here = distances[&tiles];
        for next in slides_from(&tiles, n) {
            if !distances.contains_key(&next) {
                distances.insert(next.clone(), here + 1);
                queue.push_back(next);
            }
        }
    }
    distances
}

fn assert_solves(initial: &[u8], path: &[Board], n: usize) {
    assert!(!path.is_empty());
    assert_eq!(numbers(&path[0]), initial);
    assert!(path[path.len() - 1].match_goal());
    for pair in path.windows(2) {
        assert!(slides_from(&numbers(&pair[0]), n).contains(&numbers(&pair[1])));
    }
    let mut seen = HashSet::new();
    for step in path {
        assert!(seen.insert(numbers(step)));
    }
    for step in path {
        let blank = BoardManager::empty_tile_idx(step) as usize;
        assert_eq!(BoardManager::tiles_of(step)[blank], Tile::Empty);
        assert_eq!(BoardManager::size_of(step) as usize, n);
    }
}

fn solvers() -> Vec<(&'static str, Box<dyn Algorithms>)> {
    vec![
        ("a* by manhattan distance", Box::new(AStarAlgorithms::with(Box::new(MahattanDistance)))),
        (
            "a* by inversion distance",
            Box::new(AStarAlgorithms::with(Box::new(InversionDistance::new()))),
        ),
        ("uniform cost", Box::new(UcsAlgorithms::new())),
        ("depth first", Box::new(DfsAlgorithms::new())),
    ]
}

#[test]
fn the_goal_is_solved_by_itself() {
    for informed in [true, false] {
        for (name, mut solver) in solvers() {
            let path = solver.solve(board(3, standard_goal(3), informed)).expect(name);
            assert_eq!(path.len(), 1);
            assert!(path[0].match_goal());
        }
    }
}

#[test]
fn every_solver_finds_a_way_on_the_smallest_grid() {
    let distances = distances_to(&standard_goal(2), 2);
    assert_eq!(distances.len(), 12);
    for (tiles, _) in distances.iter() {
        for informed in [true, false] {
            for (name, mut solver) in solvers() {
                let path = solver.solve(board(2, tiles.clone(), informed)).expect(name);
                assert_solves(tiles, &path, 2);
            }
        }
    }
}

#[test]
fn a_star_finds_a_shortest_way_on_the_smallest_grid() {
    let distances = distances_to(&standard_goal(2), 2);
    for (tiles, distance) in distances.iter() {
        let mut manhattan = AStarAlgorithms::with(Box::new(MahattanDistance));
        let path = manhattan.solve(board(2, tiles.clone(), true)).expect("a way");
        assert_eq!(path.len(), distance + 1);
        let mut inversions = AStarAlgorithms::with(Box::new(InversionDistance::new()));
        let path = inversions.solve(board(2, tiles.clone(), true)).expect("a way");
        assert_eq!(path.len(), distance + 1);
        let mut uniform = UcsAlgorithms::new();
        let path = uniform.solve(board(2, tiles.clone(), true)).expect("a way");
        assert_eq!(path.len(), distance + 1);
    }
}

#[test]
fn a_star_finds_a_shortest_way_on_three_by_three() {
    let distances = distances_to(&standard_goal(3), 3);
    assert_eq!(distances.len(), 181440);
    let mut checked = [0usize; 32];
    let mut tried = 0;
    for (tiles, distance) in distances.iter() {
        if *distance > 22 || checked[*distance] >= 3 {
            continue;
        }
        checked[*distance] += 1;
        tried += 1;
        let mut manhattan = AStarAlgorithms::with(Box::new(MahattanDistance));
        let path = manhattan.solve(board(3, tiles.clone(), true)).expect("a way");
        assert_solves(tiles, &path, 3);
        assert_eq!(path.len(), distance + 1);
        let mut inversions = AStarAlgorithms::with(Box::new(InversionDistance::new()));
        let path = inversions.solve(board(3, tiles.clone(), true)).expect("a way");
        assert_solves(tiles, &path, 3);
        assert_eq!(path.len(), distance + 1);
    }
    // one arrangement is no slide from the goal, two are one slide from it
    assert_eq!(tried, 1 + 2 + 3 * 21);
}

#[test]
fn a_hard_board_is_solved_in_the_fewest_slides() {
    // one of the two arrangements that are furthest from the goal
    let tiles = vec![8, 6, 7, 2, 5, 4, 3, 0, 1];
    let mut solver = AStarAlgorithms::with(Box::new(MahattanDistance));
    let path = solver.solve(board(3, tiles.clone(), true)).expect("a way");
    assert_solves(&tiles, &path, 3);
    assert_eq!(path.len(), 31 + 1);
}

#[test]
fn uniform_cost_finds_a_shortest_way() {
    let distances = distances_to(&standard_goal(3), 3);
    let mut checked = [0usize; 32];
    for (tiles, distance) in distances.iter() {
        if *distance > 14 || checked[*distance] >= 2 {
            continue;
        }
        checked[*distance] += 1;
        for informed in [true, false] {
            let mut uniform = UcsAlgorithms::new();
            let path = uniform.solve(board(3, tiles.clone(), informed)).expect("a way");
            assert_solves(tiles, &path, 3);
            assert_eq!(path.len(), distance + 1);
        }
    }
}

#[test]
fn uniform_cost_weighs_nothing() {
    let mut uniform = UcsAlgorithms::new();
    let start = BoardManager::assign_weight(board(3, vec![1, 2, 3, 4, 0, 6, 7, 5, 8], true), 40);
    let path = uniform.solve(start).expect("a way");
    assert_eq!(path.len(), 3);
    for (slides, step) in path.iter().enumerate() {
        assert_eq!(BoardManager::heuristic_value_of(step), 0);
        assert_eq!(BoardManager::total_weight(step), slides);
    }
    assert_eq!(NoEstimate.compute(&path[0], None), Ok(0));
    assert_eq!(NoEstimate.compute(&path[1], Some(&path[0])), Ok(0));
}

#[test]
fn uniform_cost_counts_the_slides_of_a_board_without_costs_itself() {
    let distances = distances_to(&standard_goal(3), 3);
    for tiles in [
        vec![1, 2, 3, 4, 0, 6, 7, 5, 8],
        vec![8, 1, 3, 4, 0, 2, 7, 6, 5],
        vec![1, 2, 3, 4, 5, 6, 7, 8, 0],
    ] {
        let mut uniform = UcsAlgorithms::new();
        let path = uniform.solve(board(3, tiles.clone(), false)).expect("a way");
        assert_solves(&tiles, &path, 3);
        assert_eq!(path.len(), distances[&tiles] + 1);
        for step in &path {
            assert!(!BoardManager::is_informed(step));
            assert_eq!(BoardManager::total_weight(step), 0);
        }
    }
    // with costs, the depth goes on from where the board was
    let deep = Board::with_tiles(
        BoardConfigBuilder::builder()
            .essential(3, standard_goal(3))
            .with_informed()
            .with_depth(7)
            .with_weight(3)
            .build()
            .expect("a config"),
        vec![1, 2, 3, 4, 0, 6, 7, 5, 8],
    )
    .expect("a board");
    let mut uniform = UcsAlgorithms::new();
    let path = uniform.solve(deep).expect("a way");
    let costs: Vec<usize> = path.iter().map(|step| BoardManager::total_weight(step)).collect();
    assert_eq!(costs, vec![7, 8, 9]);
}

#[test]
fn depth_first_finds_some_way() {
    for tiles in [vec![1, 2, 3, 4, 5, 6, 0, 7, 8], vec![8, 1, 3, 4, 0, 2, 7, 6, 5]] {
        let mut solver = DfsAlgorithms::new();
        let path = solver.solve(board(3, tiles.clone(), false)).expect("a way");
        assert_solves(&tiles, &path, 3);
    }
}

#[test]
fn the_costs_on_a_way_count_the_slides() {
    let tiles = vec![1, 2, 3, 4, 0, 6, 7, 5, 8];
    let mut solver = AStarAlgorithms::with(Box::new(MahattanDistance));
    let path = solver.solve(board(3, tiles, true)).expect("a way");
    assert_eq!(path.len(), 3);
    for (slides, step) in path.iter().enumerate() {
        let left = path.len() - 1 - slides;
        assert_eq!(BoardManager::heuristic_value_of(step), left);
        assert_eq!(BoardManager::total_weight(step), slides + left);
    }
}

#[test]
fn a_board_that_cannot_reach_its_goal_has_no_solution() {
    // two pieces exchanged: the other half of the arrangements
    for (name, mut solver) in solvers() {
        assert!(solver.solve(board(2, vec![2, 1, 3, 0], true)).is_none(), "{}", name);
        assert!(solver.solve(board(2, vec![1, 3, 2, 0], false)).is_none(), "{}", name);
    }
    let mut solver = AStarAlgorithms::with(Box::new(MahattanDistance));
    assert!(solver.solve(board(3, vec![2, 1, 3, 4, 5, 6, 7, 8, 0], true)).is_none());
}

#[test]
fn a_scrambled_board_can_be_solved() {
    for (n, heat) in [(2u8, 1000u16), (3, 1000), (3, 7), (4, 24)] {
        let built = BoardBuilder::builder()
            .config(config(n, true))
            .temperature(Temperature(heat))
            .build()
            .expect("a board");
        let tiles = numbers(&built);
        let mut solver = AStarAlgorithms::with(Box::new(MahattanDistance));
        let path = solver.solve(built).expect("a way back to the goal");
        assert_solves(&tiles, &path, n as usize);
        // the walk that scrambled the board, read backwards, is a way too
        assert!(path.len() <= heat as usize + 1);
        assert_eq!((path.len() - 1) % 2, (heat % 2) as usize);
    }
}

#[test]
fn a_solver_can_be_used_again() {
    let mut solver = AStarAlgorithms::with(Box::new(InversionDistance::new()));
    for tiles in [vec![1, 2, 3, 4, 0, 6, 7, 5, 8], vec![1, 2, 3, 4, 5, 6, 0, 7, 8]] {
        let path = solver.solve(board(3, tiles.clone(), true)).expect("a way");
        assert_solves(&tiles, &path, 3);
        assert_eq!(path.len(), 3);
    }
    // another goal
    let own = Board::with_tiles(
        BoardConfigBuilder::builder()
            .essential(3, vec![0, 1, 2, 3, 4, 5, 6, 7, 8])
            .with_informed()
            .build()
            .expect("a config"),
        vec![1, 2, 0, 3, 4, 5, 6, 7, 8],
    )
    .expect("a board");
    let path = solver.solve(own).expect("a way");
    assert_eq!(path.len(), 3);
    assert_eq!(numbers(&path[2]), vec![0, 1, 2, 3, 4, 5, 6, 7, 8]);
}

#[test]
fn the_search_can_be_run_without_a_solver() {
    let mut blind: Option<Box<dyn HeuristicFn>> = None;
    let start = board(3, vec![1, 2, 3, 4, 0, 6, 7, 5, 8], false);
    let path = best_first(start, &mut blind, Discipline::Cheapest).expect("a way");
    assert_eq!(path.len(), 3);
    let start = board(2, vec![1, 2, 0, 3], true);
    let path = best_first(start, &mut blind, Discipline::Newest).expect("a way");
    assert_solves(&[1, 2, 0, 3], &path, 2);
    assert!(blind.is_none());
    let mut led: Option<Box<dyn HeuristicFn>> = Some(Box::new(MahattanDistance));
    let path = best_first(board(3, vec![1, 2, 3, 4, 0, 6, 7, 5, 8], true), &mut led, Discipline::Cheapest)
        .expect("a way");
    assert_eq!(path.len(), 3);
    assert!(led.is_some());
}

#[test]
fn the_frontier_hands_out_by_its_discipline() {
    let make = |weight: usize| BoardManager::assign_weight(board(2, standard_goal(2), true), weight);
    let costs = [5usize, 3, 9, 3, 1, 7, 3];
    let mut cheapest = Frontier::new(Discipline::Cheapest);
    let mut oldest = Frontier::new(Discipline::Cheapest);
    let mut newest = Frontier::new(Discipline::Newest);
    for cost in costs {
        cheapest.push(make(cost), None, cost);
        // at one cost for all, the order of coming decides
        oldest.push(make(cost), Some(cost), 4);
        newest.push(make(cost), None, cost);
    }
    assert_eq!(cheapest.len(), 7);
    assert!(matches!(cheapest.discipline_of(), Discipline::Cheapest));
    let mut out = Vec::new();
    while let Some(entry) = cheapest.pop() {
        out.push((entry.cost, entry.order));
    }
    assert_eq!(out, vec![(1, 4), (3, 1), (3, 3), (3, 6), (5, 0), (7, 5), (9, 2)]);
    let mut out = Vec::new();
    while let Some(entry) = oldest.pop() {
        assert_eq!(entry.cost, 4);
        out.push(entry.parent.expect("a parent"));
    }
    assert_eq!(out, costs.to_vec());
    let mut out = Vec::new();
    while let Some(entry) = newest.pop() {
        assert_eq!(BoardManager::heuristic_value_of(&entry.board), entry.cost);
        out.push(entry.cost);
    }
    let mut reversed = costs.to_vec();
    reversed.reverse();
    assert_eq!(out, reversed);
    assert_eq!(newest.len(), 0);
    assert!(newest.pop().is_none());
}

#[test]
fn a_tile_map_files_by_cells() {
    let row = |values: &[u8]| -> Vec<Tile> { values.iter().map(|v| Tile::with_value(*v)).collect() };
    let mut map: TileMap<usize> = TileMap::new();
    assert!(!map.contains(&row(&[1, 2, 3, 0])));
    assert_eq!(map.get(&row(&[1, 2, 3, 0])), None);
    map.insert(row(&[1, 2, 3, 0]), 7);
    map.insert(row(&[1, 2, 0, 3]), 8);
    map.insert(row(&[]), 9);
    assert_eq!(map.get(&row(&[1, 2, 3, 0])), Some(&7));
    assert_eq!(map.get(&row(&[1, 2, 0, 3])), Some(&8));
    assert_eq!(map.get(&row(&[])), Some(&9));
    assert_eq!(map.get(&row(&[1, 2, 3])), None);
    map.insert(row(&[1, 2, 3, 0]), 70);
    assert_eq!(map.get(&row(&[1, 2, 3, 0])), Some(&70));
    assert_eq!(map.get(&row(&[1, 2, 0, 3])), Some(&8));
    // many rows, some of them filed under the same number
    for a in 0..=255u8 {
        for b in 0..40u8 {
            map.insert(row(&[a, b, a]), a as usize * 256 + b as usize);
        }
    }
    for a in 0..=255u8 {
        for b in 0..40u8 {
            assert_eq!(map.get(&row(&[a, b, a])), Some(&(a as usize * 256 + b as usize)));
        }
    }
    assert!(!map.contains(&row(&[1, 41, 1])));
    assert_eq!(hash_tiles(&row(&[])), 0);
    assert_eq!(hash_tiles(&row(&[0])), 1);
    assert_eq!(hash_tiles(&row(&[0, 0])), 258);
    assert_eq!(hash_tiles(&row(&[3, 1])), 4 * 257 + 2);
    map.clear();
    assert_eq!(map.get(&row(&[1, 2, 3, 0])), None);
}
