use vstd::prelude::*;
use crate::bits::{bit, lemma_bit_mask};
use crate::components::{
    legal_moves, lemma_legal_moves_wf, lemma_step_outcome_wf, step_outcome, App, AppView, Board,
    Message, Mode, Piece, Player, ShowPiece,
};
use crate::search::{child_value, is_first_best, lemma_ab_root, minimax_value, search};

verus! {

/// The squares reached by the moves among the first `n` of `moves` that start on `idx`.
pub open spec fn dots_for(moves: Seq<Piece>, idx: usize, n: nat) -> Seq<ShowPiece>
    decreases n,
{
    if n == 0 {
        Seq::empty()
    } else {
        let prev = dots_for(moves, idx, (n - 1) as nat);
        let m = moves[n - 1];
        if m.from as usize == idx {
            prev.push(ShowPiece::Piece(m.to as usize))
        } else {
            prev
        }
    }
}

/// The first of the first `n` of `moves` that goes from `from` to `to`.
pub open spec fn first_move(moves: Seq<Piece>, from: usize, to: usize, n: nat) -> Option<int>
    decreases n,
{
    if n == 0 {
        None
    } else {
        match first_move(moves, from, to, (n - 1) as nat) {
            Some(k) => Some(k),
            None => if moves[n - 1].to as usize == to && moves[n - 1].from as usize == from {
                Some(n - 1)
            } else {
                None
            },
        }
    }
}

proof fn lemma_first_move_stable(moves: Seq<Piece>, from: usize, to: usize, m: nat, n: nat)
    requires
        m <= n,
        first_move(moves, from, to, m) is Some,
    ensures
        first_move(moves, from, to, n) == first_move(moves, from, to, m),
    decreases n,
{
    if n > m {
        lemma_first_move_stable(moves, from, to, m, (n - 1) as nat);
    }
}

/// Whether the square `idx` holds a piece that `p` may pick up.
pub open spec fn selectable(b: Board, p: Player, idx: usize) -> bool {
    match p {
        Player::White | Player::Human => bit(b.white_pieces, idx as u32),
        Player::Black => bit(b.black_pieces, idx as u32),
        _ => false,
    }
}

/// A click on square `idx`: picking one's own piece shows where it can go; clicking one of
/// those squares plays the move from the picked piece.
pub open spec fn click(a: AppView, b: Board, idx: usize) -> (AppView, Board) {
    let a1 = if selectable(b, a.player, idx) {
        AppView {
            selected_piece: ShowPiece::Piece(idx),
            dots: dots_for(a.legal_moves, idx, a.legal_moves.len()),
            ..a
        }
    } else {
        a
    };
    if a1.dots.contains(ShowPiece::Piece(idx)) {
        let a2 = AppView { last_piece: ShowPiece::Piece(idx), ..a1 };
        match a1.selected_piece {
            ShowPiece::Piece(sel) => {
                let a3 = AppView { dots: Seq::empty(), ..a2 };
                match first_move(a1.legal_moves, sel, idx, a1.legal_moves.len()) {
                    Some(k) => {
                        let o = step_outcome(b, a1.legal_moves[k], a1.player);
                        (AppView { legal_moves: o.moves, player: o.player, won: o.won, ..a3 }, o.board)
                    },
                    None => (a3, b),
                }
            },
            ShowPiece::NoPiece => (a2, b),
        }
    } else {
        (a1, b)
    }
}

/// The effect of one message on the interface state and the board.
pub open spec fn handle(a: AppView, b: Board, m: Message) -> (AppView, Board) {
    match m {
        Message::AiMode => if a.player == Player::NoPlayer {
            (AppView { mode: Mode::Ai, ..a.cleared() }, Board::initial())
        } else {
            (a, b)
        },
        Message::HumanMode => if a.player == Player::NoPlayer {
            (AppView { mode: Mode::Human, ..a.cleared() }, Board::initial())
        } else {
            (a, b)
        },
        Message::StartGame(p) => if a.player == Player::NoPlayer {
            (AppView { player: p, legal_moves: legal_moves(b, p), ..a }, b)
        } else {
            (a, b)
        },
        Message::EndGame => (a.cleared(), Board::initial()),
        Message::Clicked(idx) => click(a, b, idx),
        Message::SetDifficulty(depth) => (AppView { depth, ..a }, b),
        Message::NoMessage => (a, b),
    }
}

/// The effect of the messages, in order.
pub open spec fn handle_all(a: AppView, b: Board, ms: Seq<Message>) -> (AppView, Board)
    decreases ms.len(),
{
    if ms.len() == 0 {
        (a, b)
    } else {
        let (a1, b1) = handle_all(a, b, ms.drop_last());
        handle(a1, b1, ms.last())
    }
}

/// The messages the interface can send: clicks name squares of the board, and games are
/// started for an actual side.
pub open spec fn message_ok(m: Message) -> bool {
    match m {
        Message::Clicked(idx) => idx < 32,
        Message::StartGame(p) => p != Player::NoPlayer,
        _ => true,
    }
}

fn on_click(app: &mut App, board: &mut Board, idx: usize)
    requires
        old(app)@.wf(),
        old(board).wf(),
        idx < 32,
    ensures
        (final(app)@, *final(board)) == click(old(app)@, *old(board), idx),
        final(app)@.wf(),
        final(board).wf(),
{
    let ghost a0 = app@;
    let ghost b0 = *board;
    let mask: u32 = 1u32 << (idx as u32);
    proof {
        lemma_bit_mask(board.white_pieces, idx as u32);
        lemma_bit_mask(board.black_pieces, idx as u32);
    }
    let is_valid_selection = match app.player {
        Player::White | Player::Human => (board.white_pieces & mask) != 0,
        Player::Black => (board.black_pieces & mask) != 0,
        Player::Ai => false,
        Player::NoPlayer => false,
    };
    assert(is_valid_selection == selectable(b0, a0.player, idx));
    if is_valid_selection {
        app.selected_piece = ShowPiece::Piece(idx);
        app.dots.clear();
        let mut j: usize = 0;
        while j < app.legal_moves.len()
            invariant
                j <= app.legal_moves.len(),
                app.legal_moves@ == a0.legal_moves,
                app.dots@ == dots_for(a0.legal_moves, idx, j as nat),
                app.player == a0.player,
                app.mode == a0.mode,
                app.depth == a0.depth,
                app.won == a0.won,
                app.last_piece == a0.last_piece,
                app.selected_piece == ShowPiece::Piece(idx),
            decreases app.legal_moves.len() - j,
        {
            let piece = app.legal_moves[j];
            if piece.from as usize == idx {
                app.dots.push(ShowPiece::Piece(piece.to as usize));
            }
            j = j + 1;
        }
    }
    let ghost a1 = app@;
    let mut is_valid_move = false;
    let mut j: usize = 0;
    while j < app.dots.len()
        invariant
            j <= app.dots.len(),
            app@ == a1,
            is_valid_move == exists|k: int| 0 <= k < j && app.dots@[k] == ShowPiece::Piece(idx),
        decreases app.dots.len() - j,
    {
        match app.dots[j] {
            ShowPiece::Piece(dot_idx) => if dot_idx == idx {
                is_valid_move = true;
            },
            ShowPiece::NoPiece => {},
        }
        j = j + 1;
    }
    if is_valid_move {
        app.last_piece = ShowPiece::Piece(idx);
        if let ShowPiece::Piece(selected_idx) = app.selected_piece {
            app.dots.clear();
            let mut found: Option<usize> = None;
            let mut j: usize = 0;
            while j < app.legal_moves.len()
                invariant_except_break
                    found is None,
                    first_move(a1.legal_moves, selected_idx, idx, j as nat) is None,
                invariant
                    j <= app.legal_moves.len(),
                    app.legal_moves@ == a1.legal_moves,
                ensures
                    found matches Some(k) ==> k < app.legal_moves.len() && first_move(
                        a1.legal_moves,
                        selected_idx,
                        idx,
                        app.legal_moves.len() as nat,
                    ) == Some(k as int),
                    found is None ==> first_move(
                        a1.legal_moves,
                        selected_idx,
                        idx,
                        app.legal_moves.len() as nat,
                    ) is None,
                decreases app.legal_moves.len() - j,
            {
                let piece = app.legal_moves[j];
                if piece.to as usize == idx && piece.from as usize == selected_idx {
                    found = Some(j);
                    proof {
                        lemma_first_move_stable(
                            a1.legal_moves,
                            selected_idx,
                            idx,
                            (j + 1) as nat,
                            app.legal_moves.len() as nat,
                        );
                    }
                    break;
                }
                j = j + 1;
            }
            if let Some(k) = found {
                let piece = app.legal_moves[k];
                proof {
                    lemma_step_outcome_wf(b0, piece, app.player);
                }
                let (moves, next, _score, won) = board.step(piece, app.player);
                app.legal_moves = moves;
                app.player = next;
                app.won = won;
            }
        }
    }
}

/// Applies the interface's messages, in order, to the game state and the board.
pub fn update(app: &mut App, board: &mut Board, messages: Vec<Message>)
    requires
        old(app)@.wf(),
        old(board).wf(),
        forall|i: int| 0 <= i < messages@.len() ==> message_ok(#[trigger] messages@[i]),
    ensures
        (final(app)@, *final(board)) == handle_all(old(app)@, *old(board), messages@),
        final(app)@.wf(),
        final(board).wf(),
{
    let ghost a0 = app@;
    let ghost b0 = *board;
    let mut i: usize = 0;
    while i < messages.len()
        invariant
            i <= messages.len(),
            forall|k: int| 0 <= k < messages@.len() ==> message_ok(#[trigger] messages@[k]),
            (app@, *board) == handle_all(a0, b0, messages@.take(i as int)),
            app@.wf(),
            board.wf(),
        decreases messages.len() - i,
    {
        assert(messages@.take((i + 1) as int).drop_last() == messages@.take(i as int));
        assert(message_ok(messages@[i as int]));
        match &messages[i] {
            Message::AiMode => {
                if app.player == Player::NoPlayer {
                    app.reset();
                    board.reset();
                    app.mode = Mode::Ai;
                }
            },
            Message::HumanMode => {
                if app.player == Player::NoPlayer {
                    app.reset();
                    board.reset();
                    app.mode = Mode::Human;
                }
            },
            Message::StartGame(player) => {
                if app.player == Player::NoPlayer {
                    app.player = *player;
                    app.legal_moves = board.get_legal_moves(&app.player);
                    proof {
                        lemma_legal_moves_wf(*board, *player);
                    }
                }
            },
            Message::EndGame => {
                app.reset();
                board.reset();
            },
            Message::Clicked(idx) => {
                on_click(app, board, *idx);
            },
            Message::SetDifficulty(depth) => app.depth = *depth,
            Message::NoMessage => {},
        }
        i = i + 1;
    }
    assert(messages@.take(messages@.len() as int) == messages@);
}

/// Calls `macroquad::rand::gen_range(0, n)` (re-exported from `quad_rand`). For `usize` that
/// function takes `r = rand() / 2^32`, which is below 1, computes `0 + n * r` in `f64` and
/// truncates it, so for `0 < n <= u32::MAX` the result lies in `0..n`. Which index comes out
/// depends on the generator's state and is not stated.
#[verifier::external_body]
fn random_index(n: usize) -> (r: usize)
    requires
        0 < n <= u32::MAX,
    ensures
        r < n,
{
    macroquad::rand::gen_range(0, n)
}

/// Plays the `idx`-th of the current legal moves for the side to move; returns the next
/// side's legal moves, that side, the evaluation for the mover, and the move played.
pub fn play_move_at(board: &mut Board, app: &App, idx: usize) -> (r: (
    Vec<Piece>,
    Player,
    i32,
    bool,
    Piece,
))
    requires
        old(board).wf(),
        app@.wf(),
        app.player != Player::NoPlayer,
        idx < app.legal_moves.len(),
    ensures
        r.4 == app.legal_moves@[idx as int],
        *final(board) == step_outcome(*old(board), r.4, app.player).board,
        r.0@ == step_outcome(*old(board), r.4, app.player).moves,
        r.1 == step_outcome(*old(board), r.4, app.player).player,
        r.2 == step_outcome(*old(board), r.4, app.player).score,
        r.3 == step_outcome(*old(board), r.4, app.player).won,
{
    let chosen_move = app.legal_moves[idx];
    assert(app@.legal_moves[idx as int].wf());
    let (next_moves, next_player, score, won) = board.step(chosen_move, app.player);
    (next_moves, next_player, score, won, chosen_move)
}

/// The AI's move: with search depth 0 a random legal move; otherwise the first legal move
/// (in the order `get_legal_moves` lists them) whose minimax value, searched `depth` moves
/// deep by alpha-beta search, is the best for the side to move. The move is played on
/// `board`; returns the next side's legal moves, that side, the evaluation for the mover,
/// and the move played.
pub fn minimax(board: &mut Board, app: &App) -> (r: (Vec<Piece>, Player, i32, bool, Piece))
    requires
        old(board).wf(),
        app@.wf(),
        app.player != Player::NoPlayer,
        app.legal_moves.len() > 0,
        app.depth == 0 ==> app.legal_moves.len() <= u32::MAX,
    ensures
        exists|k: int| 0 <= k < app.legal_moves@.len() && r.4 == app.legal_moves@[k],
        app.depth > 0 ==> exists|f: int|
            #![trigger app.legal_moves@[f]]
            is_first_best(
                *old(board),
                app.player,
                app.legal_moves@,
                app.depth as nat,
                app.player,
                f,
                app.legal_moves@.len(),
            ) && r.4 == app.legal_moves@[f],
        app.depth > 0 ==> child_value(*old(board), app.player, r.4, app.depth as nat, app.player)
            == minimax_value(
            *old(board),
            app.player,
            app.legal_moves@,
            app.depth as nat,
            app.player,
        ),
        *final(board) == step_outcome(*old(board), r.4, app.player).board,
        r.0@ == step_outcome(*old(board), r.4, app.player).moves,
        r.1 == step_outcome(*old(board), r.4, app.player).player,
        r.2 == step_outcome(*old(board), r.4, app.player).score,
        r.3 == step_outcome(*old(board), r.4, app.player).won,
{
    if app.depth == 0 {
        let random_idx = random_index(app.legal_moves.len());
        return play_move_at(board, app, random_idx);
    }
    assert forall|i: int| 0 <= i < app.legal_moves@.len() implies #[trigger] app.legal_moves@[i].wf() by {
        assert(app@.legal_moves[i].wf());
    }
    let (_, best_move) = search(
        board,
        app.player,
        &app.legal_moves,
        app.depth,
        i32::MIN,
        i32::MAX,
        app.player,
    );
    proof {
        lemma_ab_root(*board, app.player, app@.legal_moves, app.depth as nat);
    }
    let ghost f = choose|f: int|
        is_first_best(
            *board,
            app.player,
            app@.legal_moves,
            app.depth as nat,
            app.player,
            f,
            app@.legal_moves.len(),
        );
    let final_best_move = match best_move {
        Some(best) => best,
        None => app.legal_moves[0],
    };
    assert(final_best_move == app.legal_moves@[f]);
    assert(app@.legal_moves[f].wf());
    let (next_moves, next_player, score, won) = board.step(final_best_move, app.player);
    (next_moves, next_player, score, won, final_best_move)
}

} // verus!
