use hex_game::board::Board;
use hex_game::cell::Cell;
use hex_game::errors::GameError;

#[test]
#[should_panic]
fn test_board_is_too_big() {
    Board::new(20).unwrap();
}

#[test]
fn test_get_byte_and_bit() {
    let mut test_board = Board::new(11).unwrap();
    assert_eq!((0, 3, 6), test_board.get_byte_and_bit(&Cell::new(4, 1)));
    assert_eq!((0, 0, 0), test_board.get_byte_and_bit(&Cell::new(0, 0)));
    assert_eq!((0, 5, 0), test_board.get_byte_and_bit(&Cell::new(9, 1)));

    let mut test_vec = vec![0u8; 7];
    test_vec[0] = 255;
    test_vec[1] = 19;
    test_vec[2] = 7;
    test_vec[3] = 113;
    test_board = Board {
        size: 5,
        field: test_vec,
    };

    assert_eq!((255, 0, 6), test_board.get_byte_and_bit(&Cell::new(3, 0)));
    assert_eq!((7, 2, 6), test_board.get_byte_and_bit(&Cell::new(1, 2)));
    assert_eq!((19, 1, 0), test_board.get_byte_and_bit(&Cell::new(4, 0)));
    assert_eq!((0, 6, 0), test_board.get_byte_and_bit(&Cell::new(4, 4)));
}

#[test]
#[should_panic]
fn test_get_cell_out_of_bounds() {
    Board::new(11).unwrap().get_cell(&Cell::new(5, 11)).unwrap();
}

#[test]
fn test_get_cell() {
    let mut test_vec = vec![0u8; 7];
    test_vec[0] = 255;
    test_vec[1] = 32;
    test_vec[2] = 7;
    test_vec[3] = 113;
    let test_board = Board {
        size: 5,
        field: test_vec,
    };

    assert_eq!(3, test_board.get_cell(&Cell::new(3, 0)).unwrap());
    assert_eq!(1, test_board.get_cell(&Cell::new(4, 1)).unwrap());
    assert_eq!(3, test_board.get_cell(&Cell::new(4, 2)).unwrap());
    assert_eq!(2, test_board.get_cell(&Cell::new(1, 1)).unwrap());
}

#[test]
#[should_panic]
fn test_set_cell_out_of_bounds() {
    Board::new(5).unwrap().set_cell(&Cell::new(6, 3), 1).unwrap();
}

#[test]
#[should_panic]
fn test_set_cell_too_big_value() {
    Board::new(4).unwrap().set_cell(&Cell::new(1, 1), 3).unwrap();
}

#[test]
fn test_set_sell() {
    let mut test_board = Board::new(11).unwrap();
    let test_cell = Cell::new(2, 5);

    test_board.set_cell(&test_cell, 1).unwrap();
    assert_eq!(1, test_board.get_cell(&test_cell).unwrap());

    test_board.set_cell(&test_cell, 0).unwrap();
    assert_eq!(0, test_board.get_cell(&test_cell).unwrap());

    test_board.set_cell(&test_cell, 2).unwrap();
    assert_eq!(2, test_board.get_cell(&test_cell).unwrap());

    test_board.set_cell(&Cell::new(10, 10), 1).unwrap();
    test_board.set_cell(&Cell::new(3, 5), 1).unwrap();

    assert_eq!(2, test_board.get_cell(&Cell::new(2, 5)).unwrap());
    assert_eq!(1, test_board.get_cell(&Cell::new(10, 10)).unwrap());
    assert_eq!(1, test_board.get_cell(&Cell::new(3, 5)).unwrap());
}

#[test]
fn test_get_coords() {
    let mut test_board = Board::new(5).unwrap();
    assert_eq!(Cell::new(0, 1), test_board.get_coords(10));
    assert_eq!(Cell::new(0, 0), test_board.get_coords(0));
    assert_eq!(Cell::new(0, 0), test_board.get_coords(1));
    assert_eq!(Cell::new(4, 4), test_board.get_coords(48));

    test_board = Board::new(15).unwrap();
    let mut test_cell = Cell::new(11, 7);
    let (_, mut byte, mut bit) = test_board.get_byte_and_bit(&test_cell);
    assert_eq!(test_cell, test_board.get_coords(byte * 8 + bit));

    test_cell = Cell::new(0, 14);
    (_, byte, bit) = test_board.get_byte_and_bit(&test_cell);
    assert_eq!(test_cell, test_board.get_coords(byte * 8 + bit));

    test_cell = Cell::new(10, 2);
    (_, byte, bit) = test_board.get_byte_and_bit(&test_cell);
    assert_eq!(test_cell, test_board.get_coords(byte * 8 + bit));
}

#[test]
fn test_new_size_boundary() {
    assert!(Board::new(19).is_ok());
    assert_eq!(Board::new(20).unwrap_err(), GameError::ConfigError);
    let b = Board::new(19).unwrap();
    assert_eq!(b.field.len(), (19 * 19 + 3) / 4);
    assert!(b.field.iter().all(|&x| x == 0));
}

#[test]
fn test_set_get_roundtrip_all_values() {
    for v in 0u8..3 {
        let mut b = Board::new(7).unwrap();
        let c = Cell::new(4, 6);
        b.set_cell(&c, v).unwrap();
        assert_eq!(v, b.get_cell(&c).unwrap());
        // No other cell decodes differently after the write.
        for x in 0..7 {
            for y in 0..7 {
                if !(x == 4 && y == 6) {
                    assert_eq!(0, b.get_cell(&Cell::new(x, y)).unwrap());
                }
            }
        }
    }
}

#[test]
fn test_set_cell_error_values() {
    let mut b = Board::new(5).unwrap();
    assert_eq!(
        b.set_cell(&Cell::new(5, 0), 1).unwrap_err(),
        GameError::OutOfBounds
    );
    assert_eq!(
        b.set_cell(&Cell::new(0, 0), 3).unwrap_err(),
        GameError::InvalidValue
    );
    assert_eq!(
        b.get_cell(&Cell::new(0, 5)).unwrap_err(),
        GameError::OutOfBounds
    );
}

#[test]
fn test_board_as_strings() {
    let mut b = Board::new(3).unwrap();
    b.set_cell(&Cell::new(1, 0), 1).unwrap();
    b.set_cell(&Cell::new(2, 1), 2).unwrap();
    let rows = b.get_board_as_strings();
    assert_eq!(rows, vec![". R .".to_string(), " . . B".to_string(), "  . . .".to_string()]);
}
