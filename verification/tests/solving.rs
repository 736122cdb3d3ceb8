use rush_solver::board::{Board, PuzzleError};
use rush_solver::solver::{dfs, stress_solve};

fn occupied(grid: &[u8; 36]) -> usize {
    grid.iter().filter(|&&c| c != b'.').count()
}

#[test]
fn moves_slide_one_vehicle_over_empty_cells_only() {
    let text = b"..C...\n..C...\nXXC...\n......\n......\nDDD...\n";
    let board = Board::from_text(text).unwrap();
    let succs = board.get_moves();
    assert!(!succs.is_empty());
    for s in &succs {
        // exactly one vehicle moved: the cells that changed either emptied
        // or took a single label, and the occupied-cell total is unchanged
        let mut vacated: Vec<usize> = Vec::new();
        let mut taken: Vec<usize> = Vec::new();
        let mut labels: Vec<u8> = Vec::new();
        for k in 0..36 {
            if board.array[k] != s.array[k] {
                if s.array[k] == b'.' {
                    vacated.push(k);
                    labels.push(board.array[k]);
                } else {
                    assert_eq!(board.array[k], b'.');
                    taken.push(k);
                    labels.push(s.array[k]);
                }
            }
        }
        assert!(!taken.is_empty());
        assert_eq!(vacated.len(), taken.len());
        labels.dedup();
        assert_eq!(labels.len(), 1);
        assert_eq!(occupied(&board.array), occupied(&s.array));
    }
}

#[test]
fn no_phasing_past_an_obstruction() {
    // X may slide right only up to the obstruction at column 3
    let text = b"...C..\n...C..\nXX.C..\n......\n......\n......\n";
    let board = Board::from_text(text).unwrap();
    let succs = board.get_moves();
    for s in &succs {
        // X never appears at or beyond the obstruction's column
        for col in 3..6 {
            assert_ne!(s.array[2 * 6 + col], b'X');
        }
    }
    // and the only X move is the single-cell slide to columns 1..2
    let x_moves: Vec<_> = succs.iter().filter(|s| s.array[2 * 6] != b'X').collect();
    assert_eq!(x_moves.len(), 1);
    assert_eq!(x_moves[0].array[2 * 6 + 1], b'X');
    assert_eq!(x_moves[0].array[2 * 6 + 2], b'X');
}

#[test]
fn solved_initial_state_returns_without_moves() {
    // the goal vehicle already occupies columns 4..5 of row 2
    let text = b"......\n......\n....XX\n......\n......\n......\n";
    let board = Board::from_text(text).unwrap();
    assert!(board.is_solved());
    let solved = dfs(board).unwrap();
    assert!(solved.is_solved());
    assert_eq!(solved.moves.len(), 0);
    assert_eq!(solved.moves_bytes(), Vec::<u8>::new());
}

#[test]
fn clear_row_solves_in_one_slide_of_four() {
    let text = b"......\n......\nXX....\n......\n......\n......\n";
    let board = Board::from_text(text).unwrap();
    assert!(!board.is_solved());
    let solved = dfs(board).unwrap();
    assert!(solved.is_solved());
    assert_eq!(solved.moves.len(), 1);
    assert_eq!(solved.moves[0], [b'X', b'R', b'4']);
    assert_eq!(solved.moves_bytes(), b"XR4\n".to_vec());
}

#[test]
fn blocked_goal_moves_another_vehicle_first() {
    // a vertical truck fills rows 0..2 of column 2: X cannot move at all
    // until the truck slides down, so the first record is not X's
    let text = b"..C...\n..C...\nXXC...\n......\n......\n......\n";
    let board = Board::from_text(text).unwrap();
    let solved = dfs(board).unwrap();
    assert!(solved.is_solved());
    assert!(solved.moves.len() >= 2);
    assert_ne!(solved.moves[0][0], b'X');
}

#[test]
fn repeated_solves_agree_on_the_final_rendering() {
    let text = b"AA..O.\n...BO.\nXX.BO.\n......\n......\n......\n";
    let first = dfs(Board::from_text(text).unwrap()).unwrap();
    let second = dfs(Board::from_text(text).unwrap()).unwrap();
    assert!(first.is_solved());
    assert_eq!(first.array, second.array);
    assert_eq!(first.moves, second.moves);
}

#[test]
fn full_puzzle_solves() {
    // vehicles in both orientations, needing several preparatory slides
    let text = b"AA..O.\n...BO.\nXX.BO.\n......\n......\n......\n";
    let board = Board::from_text(text).unwrap();
    let solved = dfs(board).unwrap();
    assert!(solved.is_solved());
    assert_eq!(solved.array[17], b'X');
    // every record names a vehicle of the puzzle and a sane direction
    for rec in &solved.moves {
        assert!(b"ABOX".contains(&rec[0]));
        assert!(b"LRUD".contains(&rec[1]));
        assert!((b'1'..=b'4').contains(&rec[2]));
    }
}

#[test]
fn walled_exit_has_no_solution() {
    let text = b".....B\n.....B\nXX...B\n.....C\n.....C\n.....C\n";
    let board = Board::from_text(text).unwrap();
    assert_eq!(dfs(board).unwrap_err(), PuzzleError::NoSolution);
}

#[test]
fn empty_grid_has_no_solution() {
    let text = b"......\n......\n......\n......\n......\n......\n";
    let board = Board::from_text(text).unwrap();
    assert_eq!(dfs(board).unwrap_err(), PuzzleError::NoSolution);
}

#[test]
fn stress_solve_runs_to_completion() {
    let text = b"......\n......\nXX....\n......\n......\n......\n";
    let board = Board::from_text(text).unwrap();
    stress_solve(board);
}

#[test]
fn solution_trail_replays_to_the_final_state() {
    // every record of the returned trail matches one generated move, and
    // replaying them from the start reproduces the final rendering
    let text = b"AA..O.\n...BO.\nXX.BO.\n......\n......\n......\n";
    let solved = dfs(Board::from_text(text).unwrap()).unwrap();
    let mut current = Board::from_text(text).unwrap();
    for step in 0..solved.moves.len() {
        let rec = solved.moves[step];
        let succs = current.get_moves();
        current = succs
            .into_iter()
            .find(|s| s.moves.len() == step + 1 && s.moves[step] == rec)
            .expect("each record matches a generated move");
    }
    assert_eq!(current.array, solved.array);
    assert!(current.is_solved());
}
