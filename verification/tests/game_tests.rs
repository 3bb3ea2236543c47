use memory_game::board::Board;
use memory_game::board::BoardError;
use memory_game::board::Tile;
use memory_game::game::check_if_game_finished;
use memory_game::game::check_if_pair_solved;
use memory_game::game::clear_all;
use memory_game::game::hide_mismatched_pair;
use memory_game::game::reset_board;
use memory_game::game::PairOutcome;
use memory_game::game::FINISH_CLEAR_DELAY_MS;
use memory_game::game::FINISH_RESTART_DELAY_MS;
use memory_game::game::MISMATCH_HIDE_DELAY_MS;

fn tile(face: u32) -> Tile {
    Tile { image_index: face, image_visible: false, solved: false }
}

fn flipped(face: u32) -> Tile {
    Tile { image_index: face, image_visible: true, solved: false }
}

fn solved(face: u32, visible: bool) -> Tile {
    Tile { image_index: face, image_visible: visible, solved: true }
}

fn faces_of(board: &Board) -> Vec<u32> {
    board.get_tiles().iter().map(|t| t.image_index).collect()
}

fn sorted_faces_of(board: &Board) -> Vec<u32> {
    let mut faces = faces_of(board);
    faces.sort();
    faces
}

fn flip(board: &mut Board, index: usize) {
    let t = board.get_tiles()[index];
    board
        .set_tile_at(index, Tile { image_visible: true, ..t })
        .unwrap();
}

#[test]
fn reset_clears_every_tile_whatever_came_before() {
    let base: Vec<u32> = vec![1, 2, 3];
    let mut board = Board::from_base(&base).unwrap();
    board.set_tile_at(0, flipped(1)).unwrap();
    board.set_tile_at(3, solved(1, true)).unwrap();
    board.set_tile_at(4, solved(2, false)).unwrap();
    let stock = sorted_faces_of(&board);
    for _ in 0..3 {
        reset_board(&mut board);
        assert_eq!(board.len(), 6);
        for t in board.get_tiles().iter() {
            assert!(!t.image_visible);
            assert!(!t.solved);
        }
        assert_eq!(sorted_faces_of(&board), stock);
    }
}

#[test]
fn reset_keeps_every_face_paired() {
    let base: Vec<u32> = vec![1, 2, 3, 4];
    let mut board = Board::from_base(&base).unwrap();
    reset_board(&mut board);
    for face in base.iter() {
        let count = faces_of(&board).iter().filter(|f| *f == face).count();
        assert_eq!(count, 2);
    }
}

#[test]
fn reset_varies_the_order() {
    let base: Vec<u32> = (0..10).collect();
    let mut board = Board::from_base(&base).unwrap();
    let mut changed = false;
    let mut previous = faces_of(&board);
    for _ in 0..100 {
        reset_board(&mut board);
        let now = faces_of(&board);
        if now != previous {
            changed = true;
        }
        previous = now;
    }
    assert!(changed);
}

#[test]
fn pair_check_does_nothing_with_no_tile_flipped() {
    let base: Vec<u32> = vec![1, 2];
    let mut board = Board::from_base(&base).unwrap();
    let before = board.get_tiles();
    assert_eq!(check_if_pair_solved(&mut board), PairOutcome::NoPair);
    assert_eq!(board.get_tiles(), before);
}

#[test]
fn pair_check_does_nothing_with_one_tile_flipped() {
    let base: Vec<u32> = vec![1, 2];
    let mut board = Board::from_base(&base).unwrap();
    flip(&mut board, 2);
    let before = board.get_tiles();
    assert_eq!(check_if_pair_solved(&mut board), PairOutcome::NoPair);
    assert_eq!(board.get_tiles(), before);
}

#[test]
fn pair_check_solves_an_equal_pair_and_keeps_it_visible() {
    let base: Vec<u32> = vec![1, 2];
    let mut board = Board::from_base(&base).unwrap();
    flip(&mut board, 0);
    flip(&mut board, 2);
    assert_eq!(
        check_if_pair_solved(&mut board),
        PairOutcome::Matched { first: 0, second: 2 }
    );
    let tiles = board.get_tiles();
    assert_eq!(tiles[0], solved(1, true));
    assert_eq!(tiles[2], solved(1, true));
    assert_eq!(tiles[1], tile(2));
    assert_eq!(tiles[3], tile(2));
}

#[test]
fn pair_check_leaves_a_mismatch_untouched_until_hidden() {
    let base: Vec<u32> = vec![1, 2];
    let mut board = Board::from_base(&base).unwrap();
    flip(&mut board, 0);
    flip(&mut board, 1);
    let before = board.get_tiles();
    assert_eq!(
        check_if_pair_solved(&mut board),
        PairOutcome::Mismatched { first: 0, second: 1 }
    );
    assert_eq!(board.get_tiles(), before);
    let t1 = before[0];
    let t2 = before[1];
    assert_eq!(hide_mismatched_pair(&mut board, 0, t1, 1, t2), Ok(()));
    let tiles = board.get_tiles();
    assert_eq!(tiles[0], tile(1));
    assert_eq!(tiles[1], tile(2));
    assert!(!tiles[0].solved && !tiles[1].solved);
}

#[test]
fn pair_check_takes_only_the_first_two_flipped() {
    let base: Vec<u32> = vec![1, 2, 3];
    let mut board = Board::from_base(&base).unwrap();
    flip(&mut board, 1);
    flip(&mut board, 4);
    flip(&mut board, 5);
    assert_eq!(
        check_if_pair_solved(&mut board),
        PairOutcome::Matched { first: 1, second: 4 }
    );
    let tiles = board.get_tiles();
    assert!(tiles[1].solved && tiles[4].solved);
    assert_eq!(tiles[5], flipped(3));
}

#[test]
fn hide_rejects_an_out_of_range_index() {
    let base: Vec<u32> = vec![1, 2];
    let mut board = Board::from_base(&base).unwrap();
    let before = board.get_tiles();
    assert_eq!(
        hide_mismatched_pair(&mut board, 0, tile(1), 7, tile(2)),
        Err(BoardError::IndexOutOfRange)
    );
    assert_eq!(board.get_tiles(), before);
}

#[test]
fn finish_check_reports_a_fully_solved_board() {
    let base: Vec<u32> = vec![1, 2];
    let mut board = Board::from_base(&base).unwrap();
    assert!(!check_if_game_finished(&board));
    for (idx, face) in [1u32, 2, 1, 2].iter().enumerate() {
        board.set_tile_at(idx, solved(*face, true)).unwrap();
        if idx < 3 {
            assert!(!check_if_game_finished(&board));
        }
    }
    assert!(check_if_game_finished(&board));
}

#[test]
fn finale_delays_are_one_second_then_a_quarter() {
    assert_eq!(MISMATCH_HIDE_DELAY_MS, 1000);
    assert_eq!(FINISH_CLEAR_DELAY_MS, 1000);
    assert_eq!(FINISH_RESTART_DELAY_MS, 250);
}

#[test]
fn full_round_scenario() {
    // Base [A, B] doubles to [A, B, A, B].
    let a: u32 = 100;
    let b: u32 = 200;
    let base: Vec<u32> = vec![a, b];
    let mut board = Board::from_base(&base).unwrap();
    assert_eq!(faces_of(&board), vec![a, b, a, b]);

    // A reset yields some cleared permutation of two A's and two B's;
    // install the worked example [B, A, A, B] as the round's layout.
    reset_board(&mut board);
    assert_eq!(sorted_faces_of(&board), vec![a, a, b, b]);
    board.set_tiles(vec![tile(b), tile(a), tile(a), tile(b)]);

    // Flip the two A's: both solve, both stay visible.
    flip(&mut board, 1);
    flip(&mut board, 2);
    assert_eq!(
        check_if_pair_solved(&mut board),
        PairOutcome::Matched { first: 1, second: 2 }
    );
    let tiles = board.get_tiles();
    assert_eq!(tiles[1], solved(a, true));
    assert_eq!(tiles[2], solved(a, true));
    assert!(!check_if_game_finished(&board));

    // Flip the two B's: both solve, and the finish-check fires.
    flip(&mut board, 0);
    flip(&mut board, 3);
    assert_eq!(
        check_if_pair_solved(&mut board),
        PairOutcome::Matched { first: 0, second: 3 }
    );
    assert!(check_if_game_finished(&board));

    // The finale: everything turns face-down and unmatched in place,
    // then a fresh shuffled round is installed.
    clear_all(&mut board);
    assert_eq!(faces_of(&board), vec![b, a, a, b]);
    for t in board.get_tiles().iter() {
        assert!(!t.image_visible);
        assert!(!t.solved);
    }
    reset_board(&mut board);
    assert_eq!(sorted_faces_of(&board), vec![a, a, b, b]);
    for t in board.get_tiles().iter() {
        assert!(!t.image_visible);
        assert!(!t.solved);
    }
}
