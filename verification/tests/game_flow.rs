use checkers::components::{App, Board, Message, Mode, Piece, Player, ShowPiece};
use checkers::logic::{minimax, play_move_at, update};

fn mv(from: u8, to: u8, capture: Option<u8>) -> Piece {
    Piece { from, to, capture }
}

#[test]
fn new_app_waits_for_a_game_against_the_ai() {
    let app = App::new();
    assert_eq!(app.mode, Mode::Ai);
    assert_eq!(app.player, Player::NoPlayer);
    assert_eq!(app.depth, 0);
    assert!(app.legal_moves.is_empty());
    assert_eq!(app.selected_piece, ShowPiece::NoPiece);
    assert_eq!(app.last_piece, ShowPiece::NoPiece);
    assert!(app.dots.is_empty());
    assert!(!app.won);
}

#[test]
fn reset_keeps_mode_and_depth() {
    let mut app = App::new();
    app.mode = Mode::Human;
    app.depth = 5;
    app.player = Player::Black;
    app.won = true;
    app.dots = vec![ShowPiece::Piece(3)];
    app.selected_piece = ShowPiece::Piece(2);
    app.last_piece = ShowPiece::Piece(1);
    app.legal_moves = vec![mv(3, 2, None)];
    app.reset();
    assert_eq!(app.mode, Mode::Human);
    assert_eq!(app.depth, 5);
    assert_eq!(app.player, Player::NoPlayer);
    assert!(!app.won);
    assert!(app.dots.is_empty());
    assert!(app.legal_moves.is_empty());
    assert_eq!(app.selected_piece, ShowPiece::NoPiece);
    assert_eq!(app.last_piece, ShowPiece::NoPiece);
}

#[test]
fn selecting_and_moving_a_piece() {
    let mut app = App::new();
    let mut board = Board::new();
    update(&mut app, &mut board, vec![Message::HumanMode, Message::StartGame(Player::White)]);
    assert_eq!(app.mode, Mode::Human);
    assert_eq!(app.player, Player::White);
    assert_eq!(app.legal_moves.len(), 7);

    update(&mut app, &mut board, vec![Message::Clicked(14)]);
    assert_eq!(app.selected_piece, ShowPiece::Piece(14));
    assert_eq!(app.dots, vec![ShowPiece::Piece(21), ShowPiece::Piece(15)]);
    assert_eq!(board.white_pieces, 0x041C71C3);

    update(&mut app, &mut board, vec![Message::Clicked(21)]);
    assert_eq!(app.last_piece, ShowPiece::Piece(21));
    assert!(app.dots.is_empty());
    assert_eq!(app.player, Player::Black);
    assert_eq!(board.white_pieces, 0x043C31C3);
    assert_eq!(board.black_pieces, 0xE3820C38);
    assert_eq!(
        app.legal_moves,
        vec![
            mv(3, 2, None),
            mv(17, 16, None),
            mv(23, 22, None),
            mv(29, 28, None),
            mv(23, 16, None),
            mv(29, 22, None),
            mv(3, 28, None),
        ]
    );
    assert!(!app.won);
}

#[test]
fn clicks_without_a_game_do_nothing() {
    let mut app = App::new();
    let mut board = Board::new();
    update(&mut app, &mut board, vec![Message::Clicked(14), Message::Clicked(21)]);
    assert_eq!(app.selected_piece, ShowPiece::NoPiece);
    assert_eq!(app.last_piece, ShowPiece::NoPiece);
    assert!(app.dots.is_empty());
    assert_eq!(board.white_pieces, 0x041C71C3);
}

#[test]
fn clicking_an_opponent_piece_selects_nothing() {
    let mut app = App::new();
    let mut board = Board::new();
    update(&mut app, &mut board, vec![Message::StartGame(Player::White), Message::Clicked(3)]);
    assert_eq!(app.selected_piece, ShowPiece::NoPiece);
    assert!(app.dots.is_empty());
}

#[test]
fn the_ai_side_cannot_be_moved_by_clicks() {
    let mut app = App::new();
    let mut board = Board::new();
    update(&mut app, &mut board, vec![Message::StartGame(Player::Ai), Message::Clicked(3)]);
    assert_eq!(app.player, Player::Ai);
    assert_eq!(app.selected_piece, ShowPiece::NoPiece);
    assert!(app.dots.is_empty());
}

#[test]
fn modes_change_only_between_games() {
    let mut app = App::new();
    let mut board = Board::new();
    update(&mut app, &mut board, vec![Message::StartGame(Player::Human), Message::HumanMode]);
    assert_eq!(app.mode, Mode::Ai);
    assert_eq!(app.player, Player::Human);
    update(&mut app, &mut board, vec![Message::EndGame, Message::HumanMode]);
    assert_eq!(app.mode, Mode::Human);
    assert_eq!(app.player, Player::NoPlayer);
    update(&mut app, &mut board, vec![Message::AiMode, Message::SetDifficulty(7), Message::NoMessage]);
    assert_eq!(app.mode, Mode::Ai);
    assert_eq!(app.depth, 7);
}

#[test]
fn a_second_start_is_ignored() {
    let mut app = App::new();
    let mut board = Board::new();
    update(&mut app, &mut board, vec![Message::StartGame(Player::White), Message::StartGame(Player::Black)]);
    assert_eq!(app.player, Player::White);
}

#[test]
fn end_game_restores_the_board() {
    let mut app = App::new();
    let mut board = Board::new();
    update(
        &mut app,
        &mut board,
        vec![Message::StartGame(Player::White), Message::Clicked(14), Message::Clicked(21), Message::EndGame],
    );
    assert_eq!(board.white_pieces, 0x041C71C3);
    assert_eq!(board.black_pieces, 0xE3820C38);
    assert_eq!(app.player, Player::NoPlayer);
    assert!(app.legal_moves.is_empty());
}

fn ai_app(board: &Board, depth: u32) -> App {
    let mut app = App::new();
    app.player = Player::Ai;
    app.depth = depth;
    app.legal_moves = board.get_legal_moves(&Player::Ai);
    app
}

#[test]
fn shallow_search_grabs_a_crown() {
    let mut board = Board { white_pieces: 0x40062, black_pieces: 0x20184000, kings: 0, mid_jump_idx: None };
    let app = ai_app(&board, 1);
    let (next, player, score, won, chosen) = minimax(&mut board, &app);
    assert_eq!(chosen, mv(19, 12, None));
    assert_eq!(player, Player::Human);
    assert_eq!(score, 75);
    assert!(!won);
    assert_eq!(next, vec![mv(1, 8, None), mv(6, 13, None), mv(6, 7, None), mv(18, 19, None)]);
    assert_eq!(board.black_pieces, 0x20105000);
    assert_eq!(board.kings, 0x1000);
}

#[test]
fn deeper_search_sees_the_reply() {
    let mut board = Board { white_pieces: 0x40062, black_pieces: 0x20184000, kings: 0, mid_jump_idx: None };
    let app = ai_app(&board, 3);
    let (next, player, score, won, chosen) = minimax(&mut board, &app);
    assert_eq!(chosen, mv(14, 13, None));
    assert_eq!(player, Player::Human);
    assert_eq!((score, won), (0, false));
    assert_eq!(next, vec![mv(1, 8, None), mv(6, 7, None)]);
    assert_eq!(board.black_pieces, 0x20182000);
}

#[test]
fn search_from_the_opening_takes_the_first_of_equal_moves() {
    let mut board = Board::new();
    let app = ai_app(&board, 2);
    let (_, player, _, _, chosen) = minimax(&mut board, &app);
    assert_eq!(chosen, mv(3, 2, None));
    assert_eq!(player, Player::Human);
}

#[test]
fn depth_zero_plays_some_legal_move() {
    for _ in 0..20 {
        let mut board = Board::new();
        let app = ai_app(&board, 0);
        let (next, player, _, _, chosen) = minimax(&mut board, &app);
        assert!(app.legal_moves.contains(&chosen));
        assert_eq!(player, Player::Human);
        assert_eq!(next.len(), 7);
        assert_eq!(board.black_pieces, 0xE3820C38 ^ (1 << chosen.from) ^ (1 << chosen.to));
    }
}

#[test]
fn play_move_at_plays_the_indexed_move() {
    let mut board = Board::new();
    let app = ai_app(&board, 0);
    let (_, player, score, won, chosen) = play_move_at(&mut board, &app, 6);
    assert_eq!(chosen, mv(3, 28, None));
    assert_eq!(player, Player::Human);
    assert_eq!((score, won), (0, false));
    assert_eq!(board.black_pieces, 0xE3820C38 ^ (1 << 3) ^ (1 << 28));
}

#[test]
fn the_ai_captures_when_it_must() {
    let mut board = Board { white_pieces: (1 << 21) | 1, black_pieces: (1 << 28) | (1 << 31), kings: 0, mid_jump_idx: None };
    let app = ai_app(&board, 4);
    let (_, player, _, _, chosen) = minimax(&mut board, &app);
    assert_eq!(chosen, mv(28, 14, Some(21)));
    assert_eq!(player, Player::Human);
    assert_eq!(board.white_pieces, 1);
}
