use grid_games::grid::ParseError;
use grid_games::life::GameOfLife;
use grid_games::life::GolCell;

#[test]
fn game_of_life_test_next_state() {
    assert_eq!(GolCell::Alive, GameOfLife::next_state((GolCell::Alive, 3)));
    assert_eq!(GolCell::Alive, GameOfLife::next_state((GolCell::Dead, 3)));
    assert_eq!(GolCell::Dead, GameOfLife::next_state((GolCell::Alive, 1)));
    assert_eq!(GolCell::Dead, GameOfLife::next_state((GolCell::Alive, 4)));
    assert_eq!(GolCell::Dead, GameOfLife::next_state((GolCell::Dead, 2)));
}

#[test]
fn invalid_char() {
    let result = GameOfLife::from_str("F---");
    assert_eq!(result, Err(ParseError::InvalidCharacter));
}

#[test]
fn blinker_oscillates() {
    let mut state1 = GameOfLife::from_str("-----\n--x--\n--x--\n--x--\n-----\n").unwrap();
    let state2 = GameOfLife::from_str("-----\n-----\n-xxx-\n-----\n-----\n").unwrap();
    assert!(state1 != state2);
    state1.iterate();
    assert_eq!(state1, state2);
    assert_eq!(state1.to_str(), "-----\n-----\n-xxx-\n-----\n-----\n");
    state1.iterate();
    assert_eq!(state1.to_str(), "-----\n--x--\n--x--\n--x--\n-----\n");
}

#[test]
fn expand_adds_dead_cells() {
    let mut game = GameOfLife::from_str("x-\n-x\n").unwrap();
    game.expand(3, 3);
    assert_eq!(game.to_str(), "x--\n-x-\n---\n");
}

#[test]
fn id_room_query() {
    let game = GameOfLife::from_str("x-\n-x\n").unwrap();
    assert!(game.has_id_room(10, 10));
    assert!(!game.has_id_room(usize::MAX, 2));
}
