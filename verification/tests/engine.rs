use checkers::components::{Board, Piece, Player};

fn mv(from: u8, to: u8, capture: Option<u8>) -> Piece {
    Piece { from, to, capture }
}

fn board(white: u32, black: u32, kings: u32) -> Board {
    Board { white_pieces: white, black_pieces: black, kings, mid_jump_idx: None }
}

#[test]
fn new_board_is_the_starting_position() {
    let b = Board::new();
    assert_eq!(b.white_pieces, 0x041C71C3);
    assert_eq!(b.black_pieces, 0xE3820C38);
    assert_eq!(b.kings, 0);
    assert_eq!(b.mid_jump_idx, None);
    assert_eq!(b.white_pieces.count_ones(), 12);
    assert_eq!(b.black_pieces.count_ones(), 12);
    assert_eq!(b.white_pieces & b.black_pieces, 0);
}

#[test]
fn reset_restores_the_starting_position() {
    let mut b = board(1, 2, 1);
    b.mid_jump_idx = Some(3);
    b.reset();
    let n = Board::new();
    assert_eq!(b.white_pieces, n.white_pieces);
    assert_eq!(b.black_pieces, n.black_pieces);
    assert_eq!(b.kings, 0);
    assert_eq!(b.mid_jump_idx, None);
}

#[test]
fn opening_moves_of_white() {
    let b = Board::new();
    let moves = b.get_legal_moves(&Player::White);
    let expected = vec![
        mv(8, 15, None),
        mv(14, 21, None),
        mv(20, 27, None),
        mv(8, 9, None),
        mv(14, 15, None),
        mv(20, 21, None),
        mv(26, 27, None),
    ];
    assert_eq!(moves, expected);
    // the human plays white
    assert_eq!(b.get_legal_moves(&Player::Human), expected);
}

#[test]
fn opening_moves_of_black() {
    let b = Board::new();
    let expected = vec![
        mv(3, 2, None),
        mv(17, 16, None),
        mv(23, 22, None),
        mv(29, 28, None),
        mv(23, 16, None),
        mv(29, 22, None),
        mv(3, 28, None),
    ];
    assert_eq!(b.get_legal_moves(&Player::Black), expected);
    assert_eq!(b.get_legal_moves(&Player::Ai), expected);
}

#[test]
fn captures_are_compulsory() {
    // white on 14 can jump the black piece on 21; white on 0 could step but may not
    let b = board((1 << 14) | (1 << 0), (1 << 21) | (1 << 31), 0);
    assert_eq!(b.get_legal_moves(&Player::White), vec![mv(14, 28, Some(21))]);
}

#[test]
fn a_piece_that_captured_jumps_again() {
    let mut b = board(1 << 14, (1 << 21) | (1 << 3), 0);
    let moves = b.get_legal_moves(&Player::White);
    assert_eq!(moves, vec![mv(14, 28, Some(21))]);
    let (next, player, score, won) = b.step(moves[0], Player::White);
    assert_eq!(next, vec![mv(28, 10, Some(3))]);
    assert_eq!(player, Player::White);
    assert_eq!((score, won), (0, false));
    assert_eq!(b.mid_jump_idx, Some(28));
    assert_eq!(b.white_pieces, 1 << 28);
    assert_eq!(b.black_pieces, 1 << 3);
    let (next, player, score, won) = b.step(next[0], Player::White);
    assert_eq!(next, vec![]);
    assert_eq!(player, Player::Black);
    assert_eq!((score, won), (0, true));
    assert_eq!(b.mid_jump_idx, None);
    assert_eq!(b.white_pieces, 1 << 10);
    assert_eq!(b.black_pieces, 0);
}

#[test]
fn during_a_multi_jump_only_the_jumping_piece_moves() {
    // two white men could capture, but the jump in progress is the one on 14
    let mut b = board((1 << 14) | (1 << 20), (1 << 21) | (1 << 27), 0);
    assert_eq!(
        b.get_legal_moves(&Player::White),
        vec![mv(20, 2, Some(27)), mv(14, 28, Some(21)), mv(20, 22, Some(21))]
    );
    b.mid_jump_idx = Some(14);
    assert_eq!(b.get_legal_moves(&Player::White), vec![mv(14, 28, Some(21))]);
    // a jumping piece that cannot capture has no move at all
    b.mid_jump_idx = Some(20);
    b.black_pieces = 1 << 31;
    assert_eq!(b.get_legal_moves(&Player::White), vec![]);
}

#[test]
fn reaching_the_far_row_crowns_and_ends_the_turn() {
    let mut b = board(1 << 4, 1 << 18, 0);
    let moves = b.get_legal_moves(&Player::White);
    assert_eq!(moves, vec![mv(4, 11, None), mv(4, 5, None)]);
    let (next, player, score, won) = b.step(moves[0], Player::White);
    assert_eq!(b.white_pieces, 1 << 11);
    assert_eq!(b.kings, 1 << 11);
    assert_eq!(player, Player::Black);
    assert_eq!(next, vec![]);
    assert_eq!((score, won), (0, false));
}

#[test]
fn a_capture_that_crowns_ends_the_turn() {
    let mut b = board(1 << 29, (1 << 4) | (1 << 24), 0);
    let moves = b.get_legal_moves(&Player::White);
    assert_eq!(moves, vec![mv(29, 11, Some(4))]);
    let (next, player, _, _) = b.step(moves[0], Player::White);
    assert_eq!(player, Player::Black);
    assert_eq!(next, vec![mv(24, 23, None), mv(24, 17, None)]);
    assert_eq!(b.kings, 1 << 11);
    assert_eq!(b.black_pieces, 1 << 24);
}

#[test]
fn kings_move_both_ways() {
    // a white king on 21 (row 4, column 3) in the open
    let b = board(1 << 21, 1 << 31, 1 << 21);
    assert_eq!(
        b.get_legal_moves(&Player::White),
        vec![mv(21, 28, None), mv(21, 22, None), mv(21, 20, None), mv(21, 14, None)]
    );
    // a white man only forwards
    let b = board(1 << 21, 1 << 31, 0);
    assert_eq!(b.get_legal_moves(&Player::White), vec![mv(21, 28, None), mv(21, 22, None)]);
}

#[test]
fn moving_a_king_keeps_it_a_king() {
    let mut b = board(1 << 21, 1 << 31, 1 << 21);
    let (_, player, _, _) = b.step(mv(21, 14, None), Player::White);
    assert_eq!(player, Player::Black);
    assert_eq!(b.white_pieces, 1 << 14);
    assert_eq!(b.kings, 1 << 14);
}

#[test]
fn a_capture_takes_exactly_one_piece() {
    let mut b = Board::new();
    // set up a capture for black: white man on 21 in front of black on 28 (row 3, col 2)
    b.white_pieces = 1 << 21 | 1 << 0;
    b.black_pieces = 1 << 28 | 1 << 31;
    let moves = b.get_legal_moves(&Player::Black);
    assert_eq!(moves, vec![mv(28, 14, Some(21))]);
    let (_, player, score, won) = b.step(moves[0], Player::Black);
    assert_eq!(player, Player::White);
    assert_eq!(b.white_pieces.count_ones(), 1);
    assert_eq!(b.black_pieces.count_ones(), 2);
    assert_eq!((score, won), (0, false));
}

#[test]
fn evaluation_counts_men_and_kings() {
    let b = board((1 << 0) | (1 << 1) | (1 << 2), (1 << 20) | (1 << 21), (1 << 1) | (1 << 20) | (1 << 21));
    assert_eq!(b.evaluate(Player::Ai), (-25, false));
    assert_eq!(b.evaluate(Player::White), (0, false));
    assert_eq!(b.evaluate(Player::Human), (0, false));
    assert_eq!(b.evaluate(Player::Black), (0, false));
    let no_white = board(0, 1 << 5, 1 << 5);
    assert_eq!(no_white.evaluate(Player::Ai), (175, true));
    assert_eq!(no_white.evaluate(Player::Black), (0, true));
    assert_eq!(no_white.evaluate(Player::White), (0, false));
    let no_black = board(1 << 5, 0, 0);
    assert_eq!(no_black.evaluate(Player::Human), (0, true));
}

#[test]
fn every_legal_move_names_board_squares() {
    let b = Board::new();
    for p in [Player::White, Player::Black] {
        for m in b.get_legal_moves(&p) {
            assert!(m.from < 32 && m.to < 32);
            assert!(m.capture.is_none());
        }
    }
}
