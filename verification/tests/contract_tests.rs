use hex_game::board::Board;
use hex_game::cell::Cell;
use hex_game::errors::GameError;
use hex_game::game_with_data::GameWithData;
use hex_game::{Contract, MoveType};

#[test]
fn test_create_get() {
    let mut contract = Contract::new(None);
    contract
        .create_game("bob".to_string(), "charlie".to_string(), Some(3), 0)
        .unwrap();
    contract
        .create_game("eugene".to_string(), "danny".to_string(), Some(4), 0)
        .unwrap();
    let id = contract
        .create_game("alice".to_string(), "bob".to_string(), None, 0)
        .unwrap();
    assert_eq!(id, 2);
    let game = contract.get_game(id);

    assert!(contract.get_game(id + 1).is_none());
    assert!(game.is_some());
    assert_eq!(game.clone().unwrap().first_player, "alice".to_string());
    assert_eq!(game.clone().unwrap().second_player, "bob".to_string());
    assert_eq!(game.unwrap().board, Board::new(11).unwrap());
}

#[test]
fn lib_test_make_move() {
    let alice = "alice".to_string();
    let bob = "bob".to_string();
    let mut contract = Contract::new(None);
    let id = contract
        .create_game(alice.clone(), bob.clone(), Some(5), 0)
        .unwrap();

    let mut test_game = GameWithData::new(alice.clone(), bob.clone(), 5, 0).unwrap();
    assert_eq!(test_game, contract.games[id as usize]);

    let game = contract
        .make_move(id, MoveType::PLACE, Some(Cell::new(4, 0)), &alice, 0)
        .unwrap();
    test_game
        .make_move(MoveType::PLACE, Some(Cell::new(4, 0)), &alice, 0)
        .unwrap();
    assert_eq!(test_game.game, game);
    assert_eq!(test_game, contract.games[id as usize]);

    let game = contract
        .make_move(id, MoveType::SWAP, None, &bob, 0)
        .unwrap();
    test_game.make_move(MoveType::SWAP, None, &bob, 0).unwrap();
    assert_eq!(test_game.game, game);
    assert_eq!(test_game, contract.games[id as usize]);
}

#[test]
fn test_create_game_too_big() {
    let mut contract = Contract::new(None);
    assert_eq!(
        contract
            .create_game("alice".to_string(), "bob".to_string(), Some(20), 0)
            .unwrap_err(),
        GameError::ConfigError
    );
    assert!(contract.get_game(0).is_none());
}

#[test]
fn test_make_move_unknown_game() {
    let alice = "alice".to_string();
    let mut contract = Contract::new(None);
    assert_eq!(
        contract
            .make_move(5, MoveType::PLACE, Some(Cell::new(0, 0)), &alice, 0)
            .unwrap_err(),
        GameError::GameNotFound
    );
}

#[test]
fn test_make_move_error_values() {
    let alice = "alice".to_string();
    let bob = "bob".to_string();
    let carol = "carol".to_string();
    let mut contract = Contract::new(None);
    let id = contract
        .create_game(alice.clone(), bob.clone(), Some(5), 0)
        .unwrap();

    assert_eq!(
        contract
            .make_move(id, MoveType::PLACE, None, &alice, 0)
            .unwrap_err(),
        GameError::MalformedRequest
    );
    assert_eq!(
        contract
            .make_move(id, MoveType::PLACE, Some(Cell::new(0, 0)), &carol, 0)
            .unwrap_err(),
        GameError::UnauthorizedCaller
    );
    assert_eq!(
        contract
            .make_move(id, MoveType::SWAP, None, &alice, 0)
            .unwrap_err(),
        GameError::UnauthorizedCaller
    );
    assert_eq!(
        contract
            .make_move(id, MoveType::SWAP, Some(Cell::new(0, 0)), &bob, 0)
            .unwrap_err(),
        GameError::MalformedRequest
    );
    assert_eq!(
        contract
            .make_move(id, MoveType::SWAP, None, &bob, 0)
            .unwrap_err(),
        GameError::SwapNotAllowed
    );
    contract
        .make_move(id, MoveType::PLACE, Some(Cell::new(1, 1)), &alice, 0)
        .unwrap();
    assert_eq!(
        contract
            .make_move(id, MoveType::PLACE, Some(Cell::new(1, 1)), &bob, 0)
            .unwrap_err(),
        GameError::CellOccupied
    );
    assert_eq!(
        contract
            .make_move(id, MoveType::PLACE, Some(Cell::new(9, 9)), &bob, 0)
            .unwrap_err(),
        GameError::OutOfBounds
    );
}
