use n_puzzle_trial::board::board_config::{BAD_DIMENSION, BAD_GOAL, MISSING_ESSENTIAL};
use n_puzzle_trial::{BoardConfig, BoardConfigBuilder, InformedConfig, Tile, UninformedConfig};

fn standard_goal(n: u8) -> Vec<u8> {
    let cells = n as usize * n as usize;
    let mut goal: Vec<u8> = (1..cells).map(|value| value as u8).collect();
    goal.push(0);
    goal
}

#[test]
fn a_builder_without_essentials_is_refused() {
    assert_eq!(BoardConfigBuilder::builder().build(), Err(MISSING_ESSENTIAL));
    assert_eq!(
        BoardConfigBuilder::builder().with_informed().with_depth(3).build(),
        Err("BoardConfigBuilder: must call self.essential()")
    );
}

#[test]
fn a_side_below_two_is_refused() {
    assert_eq!(BoardConfigBuilder::builder().essential(1, vec![0]).build(), Err(BAD_DIMENSION));
    assert_eq!(BoardConfigBuilder::builder().essential(0, vec![]).build(), Err(BAD_DIMENSION));
}

#[test]
fn a_side_above_sixteen_is_refused() {
    let goal: Vec<u8> = (0..=255u8).collect();
    assert_eq!(BoardConfigBuilder::builder().essential(17, goal).build(), Err(BAD_DIMENSION));
}

#[test]
fn a_goal_of_the_wrong_length_is_refused() {
    assert_eq!(
        BoardConfigBuilder::builder().essential(3, vec![1, 2, 3, 4, 5, 6, 7, 0]).build(),
        Err(BAD_GOAL)
    );
    assert_eq!(BoardConfigBuilder::builder().essential(2, standard_goal(3)).build(), Err(BAD_GOAL));
}

#[test]
fn a_goal_with_a_number_twice_is_refused() {
    assert_eq!(
        BoardConfigBuilder::builder().essential(2, vec![1, 1, 2, 0]).build(),
        Err(BAD_GOAL)
    );
    assert_eq!(
        BoardConfigBuilder::builder().essential(2, vec![0, 1, 2, 0]).build(),
        Err(BAD_GOAL)
    );
}

#[test]
fn a_goal_with_a_number_off_the_grid_is_refused() {
    assert_eq!(
        BoardConfigBuilder::builder().essential(2, vec![1, 2, 4, 0]).build(),
        Err(BAD_GOAL)
    );
}

#[test]
fn the_largest_grid_is_accepted() {
    let goal: Vec<u8> = (0..=255u8).collect();
    let config = BoardConfigBuilder::builder().essential(16, goal).build().expect("a 16x16 grid");
    assert_eq!(config.n(), 16);
    assert_eq!(config.goal_state().len(), 256);
    assert!(config.is_valid());
}

#[test]
fn an_uninformed_config_keeps_no_costs() {
    let mut config =
        BoardConfigBuilder::builder().essential(3, standard_goal(3)).build().expect("a config");
    assert_eq!(config.n(), 3);
    assert_eq!(config.empty_tile_idx(), 0);
    assert_eq!(config.goal_state()[0], Tile::Value(1));
    assert_eq!(config.goal_state()[8], Tile::Empty);
    assert_eq!(config.get_depth(), None);
    assert_eq!(config.get_weight(), None);
    assert!(config.get_mut_depth().is_none());
    assert!(config.get_mut_weight().is_none());
    assert!(matches!(config, BoardConfig::Uninformed(_)));
    // costs given to an uninformed builder are dropped
    let config = BoardConfigBuilder::builder()
        .essential(2, standard_goal(2))
        .with_depth(4)
        .with_weight(5)
        .build()
        .expect("a config");
    assert_eq!(config.get_depth(), None);
    assert_eq!(config.get_weight(), None);
}

#[test]
fn an_informed_config_starts_at_zero() {
    let config = BoardConfigBuilder::builder()
        .essential(3, standard_goal(3))
        .with_informed()
        .build()
        .expect("a config");
    assert!(matches!(config, BoardConfig::Informed(_)));
    assert_eq!(config.get_depth(), Some(&0));
    assert_eq!(config.get_weight(), Some(&0));
}

#[test]
fn an_informed_config_keeps_the_costs_given() {
    let mut config = BoardConfigBuilder::builder()
        .with_weight(11)
        .essential(3, standard_goal(3))
        .with_depth(7)
        .with_informed()
        .build()
        .expect("a config");
    assert_eq!(config.get_depth(), Some(&7));
    assert_eq!(config.get_weight(), Some(&11));
    if let Some(depth) = config.get_mut_depth() {
        *depth += 1;
    }
    if let Some(weight) = config.get_mut_weight() {
        *weight = 2;
    }
    assert_eq!(config.get_depth(), Some(&8));
    assert_eq!(config.get_weight(), Some(&2));
    config.set_empty_tile_idx(5);
    assert_eq!(config.empty_tile_idx(), 5);
    assert_eq!(config.n(), 3);
}

#[test]
fn a_later_essential_replaces_an_earlier_one() {
    let config = BoardConfigBuilder::builder()
        .essential(3, standard_goal(3))
        .essential(2, vec![0, 3, 2, 1])
        .build()
        .expect("a config");
    assert_eq!(config.n(), 2);
    assert_eq!(
        config.goal_state().to_vec(),
        vec![Tile::Empty, Tile::Value(3), Tile::Value(2), Tile::Value(1)]
    );
}

#[test]
fn a_config_written_by_hand_is_checked() {
    let good = BoardConfig::Uninformed(UninformedConfig {
        n: 2,
        empty_tile_idx: 3,
        goal_state: vec![Tile::Value(1), Tile::Value(2), Tile::Value(3), Tile::Empty],
    });
    assert!(good.is_valid());
    let zero_spelled_as_a_piece = BoardConfig::Informed(InformedConfig {
        n: 2,
        empty_tile_idx: 3,
        goal_state: vec![Tile::Value(1), Tile::Value(2), Tile::Value(3), Tile::Value(0)],
        weight: 0,
        depth: 0,
    });
    assert!(!zero_spelled_as_a_piece.is_valid());
    let too_small = BoardConfig::Uninformed(UninformedConfig {
        n: 1,
        empty_tile_idx: 0,
        goal_state: vec![Tile::Empty],
    });
    assert!(!too_small.is_valid());
    let copy = good.duplicate();
    assert_eq!(copy, good);
}
