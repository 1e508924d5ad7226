use hex_game::board::Board;
use hex_game::cell::Cell;
use hex_game::game_with_data::GameWithData;
use hex_game::MoveType;

fn new_game(size: usize) -> GameWithData {
    GameWithData::new("alice".to_string(), "bob".to_string(), size, 0).unwrap()
}

#[test]
fn test_bfs() {
    let mut test_game = new_game(5);
    test_game.game.board.set_cell(&Cell::new(0, 0), 1).unwrap();
    test_game.game.board.set_cell(&Cell::new(0, 1), 1).unwrap();
    test_game.game.board.set_cell(&Cell::new(0, 2), 1).unwrap();

    test_game.game.board.set_cell(&Cell::new(4, 4), 1).unwrap();
    test_game.game.board.set_cell(&Cell::new(3, 4), 1).unwrap();

    test_game.game.board.set_cell(&Cell::new(0, 3), 1).unwrap();
    test_game.game.board.set_cell(&Cell::new(1, 2), 1).unwrap();

    test_game.game.board.set_cell(&Cell::new(4, 0), 2).unwrap();

    test_game.game.board.set_cell(&Cell::new(2, 1), 1).unwrap();

    test_game.game.board.set_cell(&Cell::new(3, 0), 2).unwrap();

    let mut test_data = Board::new(5).unwrap();
    test_data.set_cell(&Cell::new(0, 0), 2).unwrap();
    test_data.set_cell(&Cell::new(0, 1), 2).unwrap();
    test_data.set_cell(&Cell::new(0, 2), 2).unwrap();
    test_data.set_cell(&Cell::new(0, 3), 2).unwrap();
    test_data.set_cell(&Cell::new(1, 2), 2).unwrap();
    test_data.set_cell(&Cell::new(2, 1), 2).unwrap();

    test_game.bfs(Cell::new(0, 2), 1, 2);
    assert_eq!(test_game.data, test_data);

    test_data.set_cell(&Cell::new(4, 0), 2).unwrap();
    test_data.set_cell(&Cell::new(3, 0), 2).unwrap();

    test_game.bfs(Cell::new(3, 0), 2, 2);
    assert_eq!(test_game.data, test_data);
}

#[test]
fn test_process_cell() {
    let mut test_game = new_game(5);
    test_game.game.board.set_cell(&Cell::new(0, 0), 1).unwrap();
    test_game.game.board.set_cell(&Cell::new(0, 1), 1).unwrap();
    test_game.game.board.set_cell(&Cell::new(0, 2), 1).unwrap();

    test_game.game.board.set_cell(&Cell::new(4, 4), 1).unwrap();
    test_game.game.board.set_cell(&Cell::new(3, 4), 1).unwrap();

    test_game.game.board.set_cell(&Cell::new(0, 3), 1).unwrap();
    test_game.game.board.set_cell(&Cell::new(1, 2), 1).unwrap();

    test_game.game.board.set_cell(&Cell::new(4, 0), 2).unwrap();

    test_game.game.board.set_cell(&Cell::new(2, 1), 1).unwrap();

    test_game.game.board.set_cell(&Cell::new(3, 0), 2).unwrap();

    let mut test_data = Board::new(5).unwrap();
    test_data.set_cell(&Cell::new(0, 0), 1).unwrap();
    test_data.set_cell(&Cell::new(0, 1), 1).unwrap();
    test_data.set_cell(&Cell::new(0, 2), 1).unwrap();
    test_data.set_cell(&Cell::new(0, 3), 1).unwrap();
    test_data.set_cell(&Cell::new(1, 2), 1).unwrap();
    test_data.set_cell(&Cell::new(2, 1), 1).unwrap();

    test_game.process_cell(Cell::new(0, 1));
    assert_eq!(test_game.data, Board::new(5).unwrap());

    test_game.process_cell(Cell::new(0, 0));
    assert_eq!(test_game.data, test_data);
}

#[test]
fn game_with_data_test_make_move() {
    let alice = "alice".to_string();
    let bob = "bob".to_string();
    let mut test_game = new_game(5);
    let mut test_data = Board::new(5).unwrap();
    assert_eq!(test_game.data, test_data);

    test_game
        .make_move(MoveType::PLACE, Some(Cell::new(3, 0)), &alice, 0)
        .unwrap();
    test_data.set_cell(&Cell::new(3, 0), 1).unwrap();
    assert_eq!(test_game.data, test_data);

    test_game.make_move(MoveType::SWAP, None, &bob, 0).unwrap();
    test_data.set_cell(&Cell::new(3, 0), 0).unwrap();
    test_data.set_cell(&Cell::new(0, 3), 1).unwrap();
    assert_eq!(test_game.data, test_data);

    test_game
        .make_move(MoveType::PLACE, Some(Cell::new(4, 4)), &alice, 0)
        .unwrap();
    test_data.set_cell(&Cell::new(4, 4), 2).unwrap();
    assert_eq!(test_game.data, test_data);

    test_game
        .make_move(MoveType::PLACE, Some(Cell::new(1, 2)), &bob, 0)
        .unwrap();
    test_data.set_cell(&Cell::new(1, 2), 1).unwrap();
    assert_eq!(test_game.data, test_data);

    test_game
        .make_move(MoveType::PLACE, Some(Cell::new(4, 2)), &alice, 0)
        .unwrap();
    assert_eq!(test_game.data, test_data);

    test_game
        .make_move(MoveType::PLACE, Some(Cell::new(3, 2)), &bob, 0)
        .unwrap();
    assert_eq!(test_game.data, test_data);

    test_game
        .make_move(MoveType::PLACE, Some(Cell::new(4, 3)), &alice, 0)
        .unwrap();
    test_data.set_cell(&Cell::new(4, 2), 2).unwrap();
    test_data.set_cell(&Cell::new(4, 3), 2).unwrap();
    assert_eq!(test_game.data, test_data);
}

#[test]
#[should_panic]
fn test_make_move_incorrect_args() {
    let alice = "alice".to_string();
    let mut test_game = new_game(5);
    test_game.make_move(MoveType::PLACE, None, &alice, 0).unwrap();
}

#[test]
#[should_panic]
fn test_make_move_wrong_player() {
    let bob = "bob".to_string();
    let mut test_game = new_game(5);
    test_game
        .make_move(MoveType::PLACE, Some(Cell::new(0, 0)), &bob, 0)
        .unwrap();
}

#[test]
fn test_bfs_merge_finishes() {
    // A chain of colour 1 whose far end already carries the opposite label:
    // flooding label 2 from the near end meets it and declares the merge.
    let mut test_game = new_game(5);
    test_game.game.board.set_cell(&Cell::new(0, 0), 1).unwrap();
    test_game.game.board.set_cell(&Cell::new(0, 1), 1).unwrap();
    test_game.game.board.set_cell(&Cell::new(0, 2), 1).unwrap();
    test_game.data.set_cell(&Cell::new(0, 2), 1).unwrap();
    assert!(!test_game.game.is_finished);

    test_game.bfs(Cell::new(0, 0), 1, 2);
    assert!(test_game.game.is_finished);
    // The flood stopped at the discovery: the stale label survives.
    assert_eq!(test_game.data.get_cell(&Cell::new(0, 2)).unwrap(), 1);
}
