use hex_game::cell::Cell;
use hex_game::errors::GameError;
use hex_game::game::Game;

fn new_game(size: usize) -> Game {
    Game::new("alice".to_string(), "bob".to_string(), size, 0).unwrap()
}

#[test]
#[should_panic]
fn test_place_counter_wrong_player_1() {
    let mut game = new_game(11);
    game.place_counter(&Cell::new(1, 1), 2, 0).unwrap();
}

#[test]
#[should_panic]
fn test_place_counter_wrong_player_2() {
    let mut game = new_game(11);
    game.place_counter(&Cell::new(1, 1), 1, 0).unwrap();
    game.place_counter(&Cell::new(2, 1), 1, 0).unwrap();
}

#[test]
#[should_panic]
fn test_place_counter_cell_is_already_filled() {
    let mut game = new_game(11);
    game.place_counter(&Cell::new(1, 1), 1, 0).unwrap();
    game.place_counter(&Cell::new(1, 1), 2, 0).unwrap();
}

#[test]
fn test_place_counter() {
    let mut game = new_game(11);
    game.place_counter(&Cell::new(1, 1), 1, 0).unwrap();
    game.place_counter(&Cell::new(1, 2), 2, 0).unwrap();
    game.place_counter(&Cell::new(10, 7), 1, 0).unwrap();
    assert_eq!(game.current_block_height, 0);
    assert_eq!(game.prev_block_height, 0);

    game.place_counter(&Cell::new(5, 9), 2, 100).unwrap();
    game.place_counter(&Cell::new(3, 7), 1, 100).unwrap();
    assert_eq!(game.current_block_height, 100);
    assert_eq!(game.prev_block_height, 0);

    assert_eq!(game.first_player, "alice".to_string());
    assert_eq!(game.second_player, "bob".to_string());
    assert_eq!(game.turn, 5);
    for i in 0..11 {
        for j in 0..11 {
            let cell = Cell::new(i, j);
            if cell == Cell::new(1, 1) || cell == Cell::new(10, 7) || cell == Cell::new(3, 7) {
                assert_eq!(game.board.get_cell(&cell).unwrap(), 1);
            } else if cell == Cell::new(1, 2) || cell == Cell::new(5, 9) {
                assert_eq!(game.board.get_cell(&cell).unwrap(), 2);
            } else {
                assert_eq!(game.board.get_cell(&cell).unwrap(), 0);
            }
        }
    }
}

#[test]
#[should_panic]
fn test_swap_rule_too_early() {
    let mut game = new_game(11);
    game.swap_rule(0).unwrap();
}

#[test]
#[should_panic]
fn test_swap_rule_too_late() {
    let mut game = new_game(11);
    game.place_counter(&Cell::new(2, 5), 1, 0).unwrap();
    game.place_counter(&Cell::new(10, 7), 2, 0).unwrap();
    game.swap_rule(0).unwrap();
}

#[test]
fn test_swap_rule() {
    let mut game = new_game(11);
    game.place_counter(&Cell::new(10, 7), 1, 0).unwrap();

    let c = game.swap_rule(0).unwrap();
    assert_eq!(Cell::new(7, 10), c);
    assert_eq!(0, game.board.get_cell(&Cell::new(10, 7)).unwrap());
    assert_eq!(2, game.board.get_cell(&Cell::new(7, 10)).unwrap());

    game.place_counter(&Cell::new(1, 1), 1, 0).unwrap();
    game.place_counter(&Cell::new(5, 9), 2, 0).unwrap();
    game.place_counter(&Cell::new(3, 7), 1, 0).unwrap();

    assert_eq!(game.turn, 5);
    for i in 0..11 {
        for j in 0..11 {
            let cell = Cell::new(i, j);
            if cell == Cell::new(1, 1) || cell == Cell::new(3, 7) {
                assert_eq!(game.board.get_cell(&cell).unwrap(), 1);
            } else if cell == Cell::new(7, 10) || cell == Cell::new(5, 9) {
                assert_eq!(game.board.get_cell(&cell).unwrap(), 2);
            } else {
                assert_eq!(game.board.get_cell(&cell).unwrap(), 0);
            }
        }
    }
}

#[test]
fn test_place_counter_error_values() {
    let mut game = new_game(5);
    // Wrong player on the very first move.
    assert_eq!(
        game.place_counter(&Cell::new(1, 1), 2, 0).unwrap_err(),
        GameError::WrongTurn
    );
    game.place_counter(&Cell::new(1, 1), 1, 0).unwrap();
    assert_eq!(
        game.place_counter(&Cell::new(1, 1), 2, 0).unwrap_err(),
        GameError::CellOccupied
    );
    assert_eq!(
        game.place_counter(&Cell::new(5, 0), 2, 0).unwrap_err(),
        GameError::OutOfBounds
    );
    // A failing placement changed nothing: still the second player's turn.
    assert_eq!(game.turn, 1);
    game.place_counter(&Cell::new(2, 2), 2, 0).unwrap();
    assert_eq!(game.turn, 2);
}

#[test]
fn test_swap_rule_once_and_turn() {
    let mut game = new_game(5);
    assert_eq!(game.swap_rule(0).unwrap_err(), GameError::SwapNotAllowed);
    game.place_counter(&Cell::new(3, 0), 1, 0).unwrap();
    let c = game.swap_rule(0).unwrap();
    assert_eq!(c, Cell::new(0, 3));
    assert_eq!(game.turn, 2);
    assert_eq!(game.board.get_cell(&Cell::new(3, 0)).unwrap(), 0);
    assert_eq!(game.board.get_cell(&Cell::new(0, 3)).unwrap(), 2);
    // A second swap is refused, and refusal changes nothing.
    assert_eq!(game.swap_rule(0).unwrap_err(), GameError::SwapNotAllowed);
    assert_eq!(game.turn, 2);
}
