use n_puzzle_trial::Tile;

#[test]
fn it_should_create_an_empty_tile() {
    let empty_tile = Tile::empty();
    assert_eq!(empty_tile.get_value(), 0);
    assert_eq!(empty_tile, Tile::Empty);
}

#[test]
fn it_should_create_a_tile_with_value() {
    let value_tile = Tile::with_value(12);
    assert_eq!(value_tile, Tile::Value(12));
}

#[test]
fn it_should_create_an_empty_tile_although_using_with_value() {
    let empty_tile = Tile::with_value(0);
    assert_eq!(empty_tile.get_value(), 0);
    assert_eq!(empty_tile, Tile::Empty);
}

#[test]
fn a_tile_knows_whether_it_is_well_formed() {
    assert!(Tile::Empty.is_wf());
    assert!(Tile::Value(1).is_wf());
    assert!(Tile::Value(255).is_wf());
    assert!(!Tile::Value(0).is_wf());
    assert_eq!(Tile::with_value(255).get_value(), 255);
}
