use rush_solver::board::{encode, str_to_u8s, Board, PuzzleError};

const EMPTY_ROWS: &[u8] = b"......\n......\n......\n......\n......\n......\n";

#[test]
fn decode_reads_cells_row_major() {
    let text = b"AB....\n......\n......\n......\n......\n.....Z\n";
    let grid = str_to_u8s(text).unwrap();
    assert_eq!(grid[0], b'A');
    assert_eq!(grid[1], b'B');
    assert_eq!(grid[2], b'.');
    assert_eq!(grid[35], b'Z');
}

#[test]
fn decode_accepts_missing_final_newline() {
    let text = b"......\n......\n......\n......\n......\n......";
    assert!(str_to_u8s(text).is_ok());
}

#[test]
fn decode_ignores_extra_lines() {
    let text = b"......\n......\n......\n......\n......\n......\nextra junk\n";
    assert!(str_to_u8s(text).is_ok());
}

#[test]
fn decode_rejects_short_text() {
    assert_eq!(str_to_u8s(b"......\n......\n"), Err(PuzzleError::MalformedInput));
}

#[test]
fn decode_rejects_short_line() {
    let text = b".....\n......\n......\n......\n......\n.......\n";
    assert_eq!(str_to_u8s(text), Err(PuzzleError::MalformedInput));
}

#[test]
fn decode_rejects_long_line() {
    let text = b".......\n......\n......\n......\n......\n.....\n";
    assert_eq!(str_to_u8s(text), Err(PuzzleError::MalformedInput));
}

#[test]
fn encode_writes_rows_with_terminators() {
    let text = b"AB....\n......\n......\n......\n......\n.....Z\n";
    let grid = str_to_u8s(text).unwrap();
    assert_eq!(encode(&grid), text.to_vec());
}

#[test]
fn decode_encode_round_trip() {
    // decode(encode(decode(t))) == decode(t), also for a text without the
    // final terminator and with trailing junk.
    let texts: [&[u8]; 3] = [
        b"AB....\nCCC...\n......\n......\n......\n.....Z\n",
        b"......\n......\nXX....\n......\n......\n......",
        b"......\n......\nXX....\n......\n......\n......\nleftover\n",
    ];
    for text in texts {
        let grid = str_to_u8s(text).unwrap();
        let grid2 = str_to_u8s(&encode(&grid)).unwrap();
        assert_eq!(grid, grid2);
    }
}

#[test]
fn extraction_finds_orientation_and_length() {
    let mut rows = EMPTY_ROWS.to_vec();
    // horizontal car at (0, 0), vertical truck at column 5 rows 3..5
    rows[0] = b'A';
    rows[1] = b'A';
    rows[3 * 7 + 5] = b'B';
    rows[4 * 7 + 5] = b'B';
    rows[5 * 7 + 5] = b'B';
    let grid = str_to_u8s(&rows).unwrap();
    assert!(Board::is_vertical(grid, 5, 3));
    assert!(!Board::is_vertical(grid, 0, 0));
    assert!(Board::is_truck(grid, 5, 3));
    assert!(!Board::is_truck(grid, 0, 0));
    let board = Board::from_text(&rows).unwrap();
    assert_eq!(board.cars.len(), 2);
    assert_eq!(board.array, grid);
}

#[test]
fn gen_u8s_renders_the_cars() {
    let text = b"AB....\nAB....\nAB....\n......\n......\n......\n";
    let board = Board::from_text(text).unwrap();
    let rendered = Board::gen_u8s(&board.cars);
    assert_eq!(rendered, board.array);
}

#[test]
fn extraction_rejects_single_cell_vehicle() {
    let text = b"A.....\n......\n......\n......\n......\n......\n";
    assert_eq!(Board::from_text(text).unwrap_err(), PuzzleError::MalformedInput);
}

#[test]
fn extraction_rejects_overlong_vehicle() {
    let text = b"AAAA..\n......\n......\n......\n......\n......\n";
    assert_eq!(Board::from_text(text).unwrap_err(), PuzzleError::MalformedInput);
}

#[test]
fn extraction_rejects_split_label() {
    let text = b"AA.AA.\n......\n......\n......\n......\n......\n";
    assert_eq!(Board::from_text(text).unwrap_err(), PuzzleError::MalformedInput);
}

#[test]
fn extraction_rejects_bent_vehicle() {
    let text = b"AA....\n.A....\n......\n......\n......\n......\n";
    assert_eq!(Board::from_text(text).unwrap_err(), PuzzleError::MalformedInput);
}
