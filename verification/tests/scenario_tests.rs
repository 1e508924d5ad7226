use hex_game::cell::Cell;
use hex_game::errors::GameError;
use hex_game::{Contract, MoveType};

/// Size 5, the first player opens at (3,0): that cell decodes to 1 and every
/// other cell stays 0.
#[test]
fn scenario_first_placement() {
    let alice = "alice".to_string();
    let mut contract = Contract::new(None);
    let id = contract
        .create_game(alice.clone(), "bob".to_string(), Some(5), 0)
        .unwrap();
    let game = contract
        .make_move(id, MoveType::PLACE, Some(Cell::new(3, 0)), &alice, 0)
        .unwrap();
    for x in 0..5 {
        for y in 0..5 {
            let expected = if x == 3 && y == 0 { 1 } else { 0 };
            assert_eq!(game.board.get_cell(&Cell::new(x, y)).unwrap(), expected);
        }
    }
}

/// Continuing the opening at (3,0), the second player swaps: the opening
/// cell is empty again, its reflection (0,3) holds colour 2, and the turn
/// counter stands at 2.
#[test]
fn scenario_swap_after_first_placement() {
    let alice = "alice".to_string();
    let bob = "bob".to_string();
    let mut contract = Contract::new(None);
    let id = contract
        .create_game(alice.clone(), bob.clone(), Some(5), 0)
        .unwrap();
    contract
        .make_move(id, MoveType::PLACE, Some(Cell::new(3, 0)), &alice, 0)
        .unwrap();
    let game = contract
        .make_move(id, MoveType::SWAP, None, &bob, 0)
        .unwrap();
    assert_eq!(game.board.get_cell(&Cell::new(3, 0)).unwrap(), 0);
    assert_eq!(game.board.get_cell(&Cell::new(0, 3)).unwrap(), 2);
    assert_eq!(game.turn, 2);
}

/// Size 3, colour A builds the connected column (0,0), (0,1), (0,2) that
/// touches both the top row and the bottom row: after the final connecting
/// placement the game is finished, and any further move fails with
/// `GameAlreadyFinished`.
#[test]
fn scenario_winning_chain_finishes_game() {
    let alice = "alice".to_string();
    let bob = "bob".to_string();
    let mut contract = Contract::new(None);
    let id = contract
        .create_game(alice.clone(), bob.clone(), Some(3), 0)
        .unwrap();
    let game = contract
        .make_move(id, MoveType::PLACE, Some(Cell::new(0, 0)), &alice, 0)
        .unwrap();
    assert!(!game.is_finished);
    contract
        .make_move(id, MoveType::PLACE, Some(Cell::new(2, 0)), &bob, 0)
        .unwrap();
    let game = contract
        .make_move(id, MoveType::PLACE, Some(Cell::new(0, 2)), &alice, 0)
        .unwrap();
    assert!(!game.is_finished);
    contract
        .make_move(id, MoveType::PLACE, Some(Cell::new(2, 1)), &bob, 0)
        .unwrap();
    // The connecting stone: (0,1) joins the component labelled from y = 0
    // with the component labelled from y = 2.
    let game = contract
        .make_move(id, MoveType::PLACE, Some(Cell::new(0, 1)), &alice, 0)
        .unwrap();
    assert!(game.is_finished);
    assert_eq!(
        contract
            .make_move(id, MoveType::PLACE, Some(Cell::new(1, 1)), &bob, 0)
            .unwrap_err(),
        GameError::GameAlreadyFinished
    );
}

/// Reading a finished game repeatedly yields identical snapshots, and
/// repeated failing moves never change any state.
#[test]
fn scenario_idempotent_reads_and_failures() {
    let alice = "alice".to_string();
    let bob = "bob".to_string();
    let mut contract = Contract::new(None);
    let id = contract
        .create_game(alice.clone(), bob.clone(), Some(3), 0)
        .unwrap();
    for (player, cell) in [
        (&alice, Cell::new(0, 0)),
        (&bob, Cell::new(2, 0)),
        (&alice, Cell::new(0, 2)),
        (&bob, Cell::new(2, 1)),
        (&alice, Cell::new(0, 1)),
    ] {
        contract
            .make_move(id, MoveType::PLACE, Some(cell), player, 0)
            .unwrap();
    }
    let first = contract.get_game(id).unwrap();
    assert!(first.is_finished);
    let second = contract.get_game(id).unwrap();
    assert_eq!(first, second);

    let before = contract.games[id as usize].clone();
    for _ in 0..3 {
        assert_eq!(
            contract
                .make_move(id, MoveType::PLACE, Some(Cell::new(1, 1)), &bob, 0)
                .unwrap_err(),
            GameError::GameAlreadyFinished
        );
    }
    assert_eq!(before, contract.games[id as usize]);
    assert_eq!(first, contract.get_game(id).unwrap());
}
