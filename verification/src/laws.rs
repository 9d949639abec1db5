use vstd::prelude::*;
use crate::bits::{
    bit, lemma_bit_and, lemma_bit_mask, lemma_bit_not, lemma_bit_or, lemma_bit_single, lemma_bit_xor,
    lemma_bits_ext, lemma_ones_below_bound, lemma_ones_remove, ones,
};
use crate::components::{
    BLACK_PROMOTION_ROW, WHITE_PROMOTION_ROW,
    active, after_move, evaluation, all_moves, back, crowns, dir_moves, dir_shift, dir_src, is_up,
    is_white_side, jump_lands, lands, may_go, promotion_row, lemma_legal_moves_wf, lemma_step_outcome_wf, legal_moves, move_to, next_player, own_pieces, opponent_pieces,
    step_outcome, vacant, AppView, Board, Dir, Message, Mode, Piece, Player, ShowPiece,
};
use crate::logic::{click, dots_for, first_move, handle, handle_all, message_ok, selectable};

verus! {

/// A move found among the moves of one direction ends where a move of that direction lands.
proof fn lemma_dir_member(b: Board, p: Player, d: Dir, jump: bool, n: nat, i: int) -> (t: u32)
    requires
        n <= 32,
        0 <= i < dir_moves(b, p, d, jump, n).len(),
    ensures
        t < n,
        lands(b, p, d, jump, t),
        dir_moves(b, p, d, jump, n)[i] == move_to(d, jump, t),
    decreases n,
{
    let prev = dir_moves(b, p, d, jump, (n - 1) as nat);
    if i < prev.len() {
        lemma_dir_member(b, p, d, jump, (n - 1) as nat, i)
    } else {
        (n - 1) as u32
    }
}

/// What every legal move is made of: a direction, and an end square on which a move of
/// that kind lands.
pub open spec fn is_legal_shape(b: Board, p: Player, m: Piece) -> bool {
    exists|d: Dir, jump: bool, t: u32|
        #![trigger move_to(d, jump, t)]
        t < 32 && lands(b, p, d, jump, t) && m == move_to(d, jump, t) && (jump <==> all_moves(
            b,
            p,
            true,
        ).len() > 0)
}

proof fn lemma_all_member(b: Board, p: Player, jump: bool, i: int)
    requires
        0 <= i < all_moves(b, p, jump).len(),
    ensures
        exists|d: Dir, t: u32|
            #![trigger move_to(d, jump, t)]
            t < 32 && lands(b, p, d, jump, t) && all_moves(b, p, jump)[i] == move_to(d, jump, t),
{
    let a = dir_moves(b, p, Dir::UpLeft, jump, 32);
    let bb = dir_moves(b, p, Dir::UpRight, jump, 32);
    let c = dir_moves(b, p, Dir::DownLeft, jump, 32);
    let e = dir_moves(b, p, Dir::DownRight, jump, 32);
    let all = all_moves(b, p, jump);
    if i < a.len() {
        assert(all[i] == a[i]);
        let t = lemma_dir_member(b, p, Dir::UpLeft, jump, 32, i);
        assert(move_to(Dir::UpLeft, jump, t) == all[i]);
    } else if i < a.len() + bb.len() {
        assert(all[i] == bb[i - a.len()]);
        let t = lemma_dir_member(b, p, Dir::UpRight, jump, 32, i - a.len());
        assert(move_to(Dir::UpRight, jump, t) == all[i]);
    } else if i < a.len() + bb.len() + c.len() {
        assert(all[i] == c[i - a.len() - bb.len()]);
        let t = lemma_dir_member(b, p, Dir::DownLeft, jump, 32, i - a.len() - bb.len());
        assert(move_to(Dir::DownLeft, jump, t) == all[i]);
    } else {
        assert(all[i] == e[i - a.len() - bb.len() - c.len()]);
        let t = lemma_dir_member(b, p, Dir::DownRight, jump, 32, i - a.len() - bb.len() - c.len());
        assert(move_to(Dir::DownRight, jump, t) == all[i]);
    }
}

/// Captures are compulsory: when `p` has a capture, every legal move of `p` is a capture;
/// otherwise none is. Every legal move is a move of one direction that lands on an
/// end square as the rules describe.
pub proof fn lemma_legal_move_shape(b: Board, p: Player, i: int)
    requires
        0 <= i < legal_moves(b, p).len(),
    ensures
        is_legal_shape(b, p, legal_moves(b, p)[i]),
        legal_moves(b, p)[i].capture is Some <==> all_moves(b, p, true).len() > 0,
{
    let jump = all_moves(b, p, true).len() > 0;
    lemma_all_member(b, p, jump, i);
    let (d, t) = choose|d: Dir, t: u32|
        #![trigger move_to(d, jump, t)]
        t < 32 && lands(b, p, d, jump, t) && all_moves(b, p, jump)[i] == move_to(d, jump, t);
    assert(legal_moves(b, p)[i] == move_to(d, jump, t));
}

/// No square holds both colours, and kings stand only on occupied squares.
pub open spec fn square_ok(b: Board, q: u32) -> bool {
    &&& !(bit(b.white_pieces, q) && bit(b.black_pieces, q))
    &&& (bit(b.kings, q) ==> bit(b.white_pieces, q) || bit(b.black_pieces, q))
}

/// A consistent position: every square is consistent and a jump in progress names a square.
pub open spec fn valid_position(b: Board) -> bool {
    &&& b.wf()
    &&& forall|q: u32| q < 32 ==> #[trigger] square_ok(b, q)
}

/// What a move does to one square, when it goes from an own piece on `from` to an empty
/// `to`, jumping over an opposing piece on `capture` if any.
proof fn lemma_after_move_square(b: Board, m: Piece, p: Player, q: u32)
    requires
        valid_position(b),
        p != Player::NoPlayer,
        m.wf(),
        q < 32,
        m.from != m.to,
        bit(own_pieces(b, p), m.from as u32),
        vacant(b, m.to as u32),
        m.capture matches Some(c) ==> c != m.from && c != m.to && bit(opponent_pieces(b, p), c as u32),
    ensures
        ({
            let a = after_move(b, m, p);
            let captured = m.capture == Some(q as u8);
            &&& bit(own_pieces(a, p), q) == (((bit(own_pieces(b, p), q) && q != m.from) || q == m.to) && !captured)
            &&& bit(opponent_pieces(a, p), q) == (bit(opponent_pieces(b, p), q) && !captured)
            &&& bit(a.kings, q) == (((bit(b.kings, q) && q != m.from) || (q == m.to && (bit(b.kings, m.from as u32) || crowns(b, m, p)))) && !captured)
        }),
{
    let s = m.from as u32;
    let t = m.to as u32;
    let old_bit = 1u32 << m.from;
    let new_bit = 1u32 << m.to;
    assert(old_bit == 1u32 << s);
    assert(new_bit == 1u32 << t);
    let mask = old_bit | new_bit;
    lemma_bit_single(s, q);
    lemma_bit_single(t, q);
    lemma_bit_or(old_bit, new_bit, q);
    lemma_bit_xor(b.white_pieces, mask, q);
    lemma_bit_xor(b.black_pieces, mask, q);
    lemma_bit_xor(b.kings, mask, q);
    lemma_bit_or(b.kings, new_bit, q);
    lemma_bit_mask(b.kings, s);
    assert(square_ok(b, t));
    let white = if is_white_side(p) { b.white_pieces ^ mask } else { b.white_pieces };
    let black = if is_white_side(p) { b.black_pieces } else { b.black_pieces ^ mask };
    let kings = if b.kings & old_bit != 0 {
        b.kings ^ mask
    } else if crowns(b, m, p) {
        b.kings | new_bit
    } else {
        b.kings
    };
    match m.capture {
        Some(c) => {
            let cb = 1u32 << c;
            assert(cb == 1u32 << (c as u32));
            lemma_bit_single(c as u32, q);
            lemma_bit_not(cb, q);
            lemma_bit_and(white, !cb, q);
            lemma_bit_and(black, !cb, q);
            lemma_bit_and(kings, !cb, q);
        },
        None => {},
    }
}

/// The squares a legal move names: it starts on a piece of the mover, which may move now,
/// and ends on an empty square; a capture jumps over a piece of the opponent; the three
/// squares are different.
pub proof fn lemma_legal_move_squares(b: Board, p: Player, i: int)
    requires
        b.wf(),
        0 <= i < legal_moves(b, p).len(),
    ensures
        ({
            let m = legal_moves(b, p)[i];
            &&& m.wf()
            &&& m.from != m.to
            &&& active(b, p, m.from as u32)
            &&& vacant(b, m.to as u32)
            &&& (m.capture matches Some(c) ==> c != m.from && c != m.to && bit(
                opponent_pieces(b, p),
                c as u32,
            ))
        }),
{
    lemma_legal_move_shape(b, p, i);
    let m = legal_moves(b, p)[i];
    let (d, jump, t) = choose|d: Dir, jump: bool, t: u32|
        #![trigger move_to(d, jump, t)]
        t < 32 && lands(b, p, d, jump, t) && m == move_to(d, jump, t) && (jump <==> all_moves(
            b,
            p,
            true,
        ).len() > 0);
    reveal(lands);
    let c = back(d, t);
    assert(c < 32);
    assert(back(d, c) < 32);
    assert(c != t);
    if jump {
        assert(back(d, c) != t);
        assert(back(d, c) != c);
    }
}

/// Every legal move keeps a consistent position consistent; the mover keeps its number of
/// pieces, and a capture takes exactly one piece of the opponent.
pub proof fn lemma_move_keeps_position_valid(b: Board, p: Player, i: int)
    requires
        valid_position(b),
        p != Player::NoPlayer,
        0 <= i < legal_moves(b, p).len(),
    ensures
        ({
            let m = legal_moves(b, p)[i];
            let a = step_outcome(b, m, p).board;
            &&& valid_position(a)
            &&& ones(own_pieces(a, p)) == ones(own_pieces(b, p))
            &&& ones(opponent_pieces(a, p)) + (if m.capture is Some { 1nat } else { 0nat }) == ones(
                opponent_pieces(b, p),
            )
        }),
{
    lemma_legal_move_squares(b, p, i);
    let m = legal_moves(b, p)[i];
    reveal(step_outcome);
    let moved = after_move(b, m, p);
    let a = step_outcome(b, m, p).board;
    assert(a.white_pieces == moved.white_pieces && a.black_pieces == moved.black_pieces && a.kings
        == moved.kings);
    assert(own_pieces(a, p) == own_pieces(moved, p));
    assert(opponent_pieces(a, p) == opponent_pieces(moved, p));
    let s = m.from as u32;
    let t = m.to as u32;
    assert forall|q: u32| q < 32 implies #[trigger] square_ok(a, q) by {
        lemma_after_move_square(b, m, p, q);
        lemma_after_move_square(b, m, p, s);
        assert(square_ok(b, q));
        assert(square_ok(b, s));
    }
    lemma_step_outcome_wf(b, m, p);
    // The mover's pieces: take away `from`, then add `to`.
    let own = own_pieces(b, p);
    let own2 = own_pieces(a, p);
    let mid = own & !(1u32 << s);
    assert forall|q: u32| q < 32 implies #[trigger] bit(mid, q) == (bit(own, q) && q != s) by {
        lemma_bit_and(own, !(1u32 << s), q);
        lemma_bit_not(1u32 << s, q);
        lemma_bit_single(s, q);
    }
    assert forall|q: u32| q < 32 && q != s implies bit(own, q) == bit(mid, q) by {}
    lemma_ones_remove(own, mid, s, 32);
    assert forall|q: u32| q < 32 && q != t implies bit(own2, q) == bit(mid, q) by {
        lemma_after_move_square(b, m, p, q);
        if let Some(c) = m.capture {
            if q == c as u32 {
                assert(square_ok(b, q));
            }
        }
    }
    lemma_after_move_square(b, m, p, t);
    lemma_ones_remove(own2, mid, t, 32);
    // The opponent's pieces lose exactly the captured one.
    let opp = opponent_pieces(b, p);
    let opp2 = opponent_pieces(a, p);
    match m.capture {
        Some(c) => {
            assert forall|q: u32| q < 32 && q != c as u32 implies bit(opp, q) == bit(opp2, q) by {
                lemma_after_move_square(b, m, p, q);
            }
            lemma_after_move_square(b, m, p, c as u32);
            lemma_ones_remove(opp, opp2, c as u32, 32);
        },
        None => {
            assert forall|q: u32| q < 32 implies bit(opp, q) == bit(opp2, q) by {
                lemma_after_move_square(b, m, p, q);
            }
            lemma_bits_ext(opp, opp2);
        },
    }
}

/// During a multi-jump only the jumping piece moves, and only by capturing.
pub proof fn lemma_mid_jump_moves(b: Board, p: Player, i: int)
    requires
        b.wf(),
        b.mid_jump_idx is Some,
        0 <= i < legal_moves(b, p).len(),
    ensures
        legal_moves(b, p)[i].from == b.mid_jump_idx.unwrap(),
        legal_moves(b, p)[i].capture is Some,
{
    lemma_legal_move_shape(b, p, i);
    lemma_legal_move_squares(b, p, i);
}

/// A side moves twice in a row only to go on jumping with the piece that just captured.
pub proof fn lemma_continued_jump(b: Board, m: Piece, p: Player, i: int)
    requires
        m.wf(),
        p != Player::NoPlayer,
        step_outcome(b, m, p).player == p,
        0 <= i < step_outcome(b, m, p).moves.len(),
    ensures
        m.capture is Some,
        step_outcome(b, m, p).board.mid_jump_idx == Some(m.to),
        step_outcome(b, m, p).moves[i].from == m.to,
        step_outcome(b, m, p).moves[i].capture is Some,
{
    reveal(step_outcome);
    let o = step_outcome(b, m, p);
    assert(next_player(p) != p);
    lemma_mid_jump_moves(o.board, p, i);
}

/// The playable square drawn at `row` (0 at the top, where white is crowned) and `col`
/// (0 at the left) of the 8x8 board, if the cell is a dark one.
pub open spec fn layout(row: int, col: int) -> Option<u32> {
    if row == 0 && col == 1 {
        Some(11u32)
    } else if row == 0 && col == 3 {
        Some(5u32)
    } else if row == 0 && col == 5 {
        Some(31u32)
    } else if row == 0 && col == 7 {
        Some(25u32)
    } else if row == 1 && col == 0 {
        Some(10u32)
    } else if row == 1 && col == 2 {
        Some(4u32)
    } else if row == 1 && col == 4 {
        Some(30u32)
    } else if row == 1 && col == 6 {
        Some(24u32)
    } else if row == 2 && col == 1 {
        Some(3u32)
    } else if row == 2 && col == 3 {
        Some(29u32)
    } else if row == 2 && col == 5 {
        Some(23u32)
    } else if row == 2 && col == 7 {
        Some(17u32)
    } else if row == 3 && col == 0 {
        Some(2u32)
    } else if row == 3 && col == 2 {
        Some(28u32)
    } else if row == 3 && col == 4 {
        Some(22u32)
    } else if row == 3 && col == 6 {
        Some(16u32)
    } else if row == 4 && col == 1 {
        Some(27u32)
    } else if row == 4 && col == 3 {
        Some(21u32)
    } else if row == 4 && col == 5 {
        Some(15u32)
    } else if row == 4 && col == 7 {
        Some(9u32)
    } else if row == 5 && col == 0 {
        Some(26u32)
    } else if row == 5 && col == 2 {
        Some(20u32)
    } else if row == 5 && col == 4 {
        Some(14u32)
    } else if row == 5 && col == 6 {
        Some(8u32)
    } else if row == 6 && col == 1 {
        Some(19u32)
    } else if row == 6 && col == 3 {
        Some(13u32)
    } else if row == 6 && col == 5 {
        Some(7u32)
    } else if row == 6 && col == 7 {
        Some(1u32)
    } else if row == 7 && col == 0 {
        Some(18u32)
    } else if row == 7 && col == 2 {
        Some(12u32)
    } else if row == 7 && col == 4 {
        Some(6u32)
    } else if row == 7 && col == 6 {
        Some(0u32)
    } else {
        None
    }
}

/// The change of row (up is towards row 0) of a step in direction `d`.
pub open spec fn row_step(d: Dir) -> int {
    if is_up(d) {
        -1
    } else {
        1
    }
}

/// The change of column of a step in direction `d`.
pub open spec fn col_step(d: Dir) -> int {
    match d {
        Dir::UpLeft | Dir::DownLeft => -1,
        _ => 1,
    }
}

/// The squares without a neighbour in direction `d`: the edge column on that side and the
/// promotion row ahead.
pub open spec fn blocked(d: Dir, s: u32) -> bool {
    match d {
        Dir::UpLeft => s == 2 || s == 5 || s == 10 || s == 11 || s == 18 || s == 25 || s == 26 || s == 31,
        Dir::UpRight => s == 1 || s == 5 || s == 9 || s == 11 || s == 17 || s == 25 || s == 31,
        Dir::DownLeft => s == 0 || s == 2 || s == 6 || s == 10 || s == 12 || s == 18 || s == 26,
        Dir::DownRight => s == 0 || s == 1 || s == 6 || s == 9 || s == 12 || s == 17 || s == 18 || s == 25,
    }
}

proof fn lemma_dir_src_bits(d: Dir, s: u32)
    requires
        s < 32,
    ensures
        bit(dir_src(d), s) == !blocked(d, s),
{
    reveal(bit);
    match d {
        Dir::UpLeft => {
            assert(((((0xFBFBFBFBu32 & !0x82000820u32) >> s) & 1u32) == 1u32) <==> !(s == 2 || s == 5 || s == 10 || s == 11 || s == 18 || s == 25 || s == 26 || s == 31)) by (bit_vector)
                requires
                    s < 32,
            ;
        },
        Dir::UpRight => {
            assert(((((0xFDFDFDFDu32 & !0x82000820u32) >> s) & 1u32) == 1u32) <==> !(s == 1 || s == 5 || s == 9 || s == 11 || s == 17 || s == 25 || s == 31)) by (bit_vector)
                requires
                    s < 32,
            ;
        },
        Dir::DownLeft => {
            assert(((((0xFBFBFBFBu32 & !0x00041041u32) >> s) & 1u32) == 1u32) <==> !(s == 0 || s == 2 || s == 6 || s == 10 || s == 12 || s == 18 || s == 26)) by (bit_vector)
                requires
                    s < 32,
            ;
        },
        Dir::DownRight => {
            assert(((((0xFDFDFDFDu32 & !0x00041041u32) >> s) & 1u32) == 1u32) <==> !(s == 0 || s == 1 || s == 6 || s == 9 || s == 12 || s == 17 || s == 18 || s == 25)) by (bit_vector)
                requires
                    s < 32,
            ;
        },
    }
}

/// The bitboard directions match the board as drawn: a square has a neighbour in
/// direction `d` exactly when the diagonally adjacent cell is on the board, and that
/// neighbour is the square drawn in that cell.
pub proof fn lemma_directions_match_layout(row: int, col: int, d: Dir)
    requires
        layout(row, col) is Some,
    ensures
        ({
            let s = layout(row, col).unwrap();
            let n = layout(row + row_step(d), col + col_step(d));
            &&& bit(dir_src(d), s) <==> n is Some
            &&& n is Some ==> n.unwrap() == (s + dir_shift(d)) % 32
        }),
{
    let s = layout(row, col).unwrap();
    lemma_dir_src_bits(d, s);
}

/// The starting position is consistent.
pub proof fn lemma_initial_valid()
    ensures
        valid_position(Board::initial()),
{
    let b = Board::initial();
    assert forall|q: u32| q < 32 implies #[trigger] square_ok(b, q) by {
        reveal(bit);
        assert(!(((0x041C71C3u32 >> q) & 1u32 == 1u32) && ((0xE3820C38u32 >> q) & 1u32 == 1u32))
            && !((0u32 >> q) & 1u32 == 1u32)) by (bit_vector)
            requires
                q < 32,
        ;
    }
}

/// Before a game starts (or after it ends) clicks change nothing.
pub proof fn lemma_idle_clicks(a: AppView, b: Board, idx: usize)
    requires
        a.wf(),
        a.player == Player::NoPlayer,
    ensures
        click(a, b, idx) == (a, b),
{
}

/// The game is consistent: the position is, and while a game runs the stored moves are the
/// legal moves of the side to move.
pub open spec fn game_consistent(a: AppView, b: Board) -> bool {
    &&& a.wf()
    &&& valid_position(b)
    &&& (a.player != Player::NoPlayer ==> a.legal_moves == legal_moves(b, a.player))
}

proof fn lemma_click_consistent(a: AppView, b: Board, idx: usize)
    requires
        game_consistent(a, b),
        idx < 32,
    ensures
        game_consistent(click(a, b, idx).0, click(a, b, idx).1),
{
    let a1 = if selectable(b, a.player, idx) {
        AppView {
            selected_piece: ShowPiece::Piece(idx),
            dots: dots_for(a.legal_moves, idx, a.legal_moves.len()),
            ..a
        }
    } else {
        a
    };
    if a1.dots.contains(ShowPiece::Piece(idx)) {
        match a1.selected_piece {
            ShowPiece::Piece(sel) => {
                match first_move(a1.legal_moves, sel, idx, a1.legal_moves.len()) {
                    Some(k) => {
                        lemma_first_move_range(a1.legal_moves, sel, idx, a1.legal_moves.len());
                        assert(a.player != Player::NoPlayer);
                        let m = legal_moves(b, a.player)[k];
                        lemma_move_keeps_position_valid(b, a.player, k);
                        lemma_legal_moves_wf(b, a.player);
                        lemma_step_outcome_wf(b, m, a.player);
                        reveal(step_outcome);
                    },
                    None => {},
                }
            },
            ShowPiece::NoPiece => {},
        }
    }
}

proof fn lemma_first_move_range(moves: Seq<Piece>, from: usize, to: usize, n: nat)
    ensures
        first_move(moves, from, to, n) matches Some(k) ==> 0 <= k < n,
    decreases n,
{
    if n > 0 {
        lemma_first_move_range(moves, from, to, (n - 1) as nat);
    }
}

/// Every message the interface can send keeps the game consistent: in particular no
/// sequence of clicks ever produces an inconsistent position.
pub proof fn lemma_messages_keep_game_consistent(a: AppView, b: Board, ms: Seq<Message>)
    requires
        game_consistent(a, b),
        forall|i: int| 0 <= i < ms.len() ==> message_ok(#[trigger] ms[i]),
    ensures
        game_consistent(handle_all(a, b, ms).0, handle_all(a, b, ms).1),
    decreases ms.len(),
{
    if ms.len() > 0 {
        let prefix = ms.drop_last();
        assert forall|i: int| 0 <= i < prefix.len() implies message_ok(#[trigger] prefix[i]) by {
            assert(prefix[i] == ms[i]);
        }
        lemma_messages_keep_game_consistent(a, b, prefix);
        let (a1, b1) = handle_all(a, b, prefix);
        let m = ms.last();
        assert(message_ok(ms[ms.len() - 1]));
        lemma_initial_valid();
        match m {
            Message::Clicked(idx) => lemma_click_consistent(a1, b1, idx),
            Message::StartGame(p) => lemma_legal_moves_wf(b1, p),
            _ => {},
        }
    }
}

/// A move wins exactly when it leaves the opponent of the mover without pieces.
pub proof fn lemma_win_means_no_opponent_left(b: Board, m: Piece, p: Player)
    requires
        p != Player::NoPlayer,
    ensures
        step_outcome(b, m, p).won == (ones(opponent_pieces(step_outcome(b, m, p).board, p)) == 0),
{
    reveal(step_outcome);
}

/// How far (modulo 32) the bit index moves from the start to the end square of `m`.
pub open spec fn index_offset(m: Piece) -> int {
    (m.to as int - m.from as int + 32) % 32
}

/// Men move and capture only toward their promotion row: on the drawn board up-left is +7
/// and up-right +1 (+14 and +2 for captures), down-left is -1 and down-right -7 (-2 and
/// -14), modulo 32. Every legal move of a man of the white side (White or Human) goes up,
/// every one of a man of the black side (Black or Ai) goes down.
#[verifier::spinoff_prover]
#[verifier::rlimit(40)]
pub proof fn lemma_men_move_forward(b: Board, p: Player, i: int)
    requires
        0 <= i < legal_moves(b, p).len(),
        !bit(b.kings, legal_moves(b, p)[i].from as u32),
    ensures
        (p == Player::White || p == Player::Human) ==> {
            let o = index_offset(legal_moves(b, p)[i]);
            o == 7 || o == 1 || o == 14 || o == 2
        },
        !(p == Player::White || p == Player::Human) ==> {
            let o = index_offset(legal_moves(b, p)[i]);
            o == 31 || o == 25 || o == 30 || o == 18
        },
{
    lemma_legal_move_shape(b, p, i);
    let m = legal_moves(b, p)[i];
    let (d, jump, t) = choose|d: Dir, jump: bool, t: u32|
        #![trigger move_to(d, jump, t)]
        t < 32 && lands(b, p, d, jump, t) && m == move_to(d, jump, t) && (jump <==> all_moves(
            b,
            p,
            true,
        ).len() > 0);
    reveal(lands);
    let c = back(d, t);
    assert(c < 32);
    assert(back(d, c) < 32);
}

proof fn lemma_dir_moves_same_side(b: Board, p: Player, q: Player, d: Dir, jump: bool, n: nat)
    requires
        is_white_side(p) == is_white_side(q),
    ensures
        dir_moves(b, p, d, jump, n) == dir_moves(b, q, d, jump, n),
    decreases n,
{
    reveal(lands);
    if n > 0 {
        lemma_dir_moves_same_side(b, p, q, d, jump, (n - 1) as nat);
    }
}

proof fn lemma_legal_moves_same_side(b: Board, p: Player, q: Player)
    requires
        is_white_side(p) == is_white_side(q),
    ensures
        legal_moves(b, p) == legal_moves(b, q),
{
    lemma_dir_moves_same_side(b, p, q, Dir::UpLeft, true, 32);
    lemma_dir_moves_same_side(b, p, q, Dir::UpRight, true, 32);
    lemma_dir_moves_same_side(b, p, q, Dir::DownLeft, true, 32);
    lemma_dir_moves_same_side(b, p, q, Dir::DownRight, true, 32);
    lemma_dir_moves_same_side(b, p, q, Dir::UpLeft, false, 32);
    lemma_dir_moves_same_side(b, p, q, Dir::UpRight, false, 32);
    lemma_dir_moves_same_side(b, p, q, Dir::DownLeft, false, 32);
    lemma_dir_moves_same_side(b, p, q, Dir::DownRight, false, 32);
}

/// The human plays exactly as white and the AI exactly as black: the same moves are legal,
/// and a move leaves the same board, the same next moves, score and win.
pub proof fn lemma_sides_play_alike(b: Board, m: Piece)
    ensures
        legal_moves(b, Player::Human) == legal_moves(b, Player::White),
        legal_moves(b, Player::Ai) == legal_moves(b, Player::Black),
        step_outcome(b, m, Player::Human).board == step_outcome(b, m, Player::White).board,
        step_outcome(b, m, Player::Human).moves == step_outcome(b, m, Player::White).moves,
        step_outcome(b, m, Player::Human).score == step_outcome(b, m, Player::White).score,
        step_outcome(b, m, Player::Human).won == step_outcome(b, m, Player::White).won,
        step_outcome(b, m, Player::Ai).board == step_outcome(b, m, Player::Black).board,
        step_outcome(b, m, Player::Ai).moves == step_outcome(b, m, Player::Black).moves,
        step_outcome(b, m, Player::Ai).won == step_outcome(b, m, Player::Black).won,
{
    reveal(step_outcome);
    lemma_legal_moves_same_side(b, Player::Human, Player::White);
    lemma_legal_moves_same_side(b, Player::Ai, Player::Black);
    let mh = after_move(b, m, Player::Human);
    let ma = after_move(b, m, Player::Ai);
    assert(mh == after_move(b, m, Player::White));
    assert(ma == after_move(b, m, Player::Black));
    let ch = Board { mid_jump_idx: Some(m.to), ..mh };
    let dh = Board { mid_jump_idx: None, ..mh };
    let ca = Board { mid_jump_idx: Some(m.to), ..ma };
    let da = Board { mid_jump_idx: None, ..ma };
    lemma_legal_moves_same_side(ch, Player::Human, Player::White);
    lemma_legal_moves_same_side(dh, Player::Ai, Player::Black);
    lemma_legal_moves_same_side(ca, Player::Ai, Player::Black);
    lemma_legal_moves_same_side(da, Player::Human, Player::White);
}

/// A man that ends its move on its promotion row (row 0 for the white side, White or
/// Human; row 7 for the black side, Black or Ai) is a king afterwards.
pub proof fn lemma_crowning(b: Board, m: Piece, p: Player)
    requires
        p != Player::NoPlayer,
        m.wf(),
        m.from != m.to,
        m.capture != Some(m.to),
        !bit(b.kings, m.from as u32),
        (p == Player::White || p == Player::Human) ==> bit(
            WHITE_PROMOTION_ROW,
            m.to as u32,
        ),
        !(p == Player::White || p == Player::Human) ==> bit(BLACK_PROMOTION_ROW, m.to as u32),
    ensures
        bit(step_outcome(b, m, p).board.kings, m.to as u32),
{
    reveal(step_outcome);
    let s = m.from as u32;
    let t = m.to as u32;
    let old_bit = 1u32 << m.from;
    let new_bit = 1u32 << m.to;
    assert(old_bit == 1u32 << s);
    assert(new_bit == 1u32 << t);
    lemma_bit_mask(b.kings, s);
    lemma_bit_mask(WHITE_PROMOTION_ROW, t);
    lemma_bit_mask(BLACK_PROMOTION_ROW, t);
    assert(new_bit & WHITE_PROMOTION_ROW == WHITE_PROMOTION_ROW & new_bit) by (bit_vector);
    assert(new_bit & BLACK_PROMOTION_ROW == BLACK_PROMOTION_ROW & new_bit) by (bit_vector);
    assert(crowns(b, m, p));
    let kings = b.kings | new_bit;
    lemma_bit_or(b.kings, new_bit, t);
    lemma_bit_single(t, t);
    if let Some(c) = m.capture {
        let cb = 1u32 << c;
        assert(cb == 1u32 << (c as u32));
        lemma_bit_single(c as u32, t);
        lemma_bit_not(cb, t);
        lemma_bit_and(kings, !cb, t);
    }
}

proof fn lemma_dir_moves_contains(b: Board, p: Player, d: Dir, jump: bool, n: nat, t: u32)
    requires
        n <= 32,
        t < n,
        lands(b, p, d, jump, t),
    ensures
        dir_moves(b, p, d, jump, n).contains(move_to(d, jump, t)),
    decreases n,
{
    let prev = dir_moves(b, p, d, jump, (n - 1) as nat);
    if t < n - 1 {
        lemma_dir_moves_contains(b, p, d, jump, (n - 1) as nat, t);
        let k = choose|k: int| 0 <= k < prev.len() && prev[k] == move_to(d, jump, t);
        assert(dir_moves(b, p, d, jump, n)[k] == move_to(d, jump, t));
    } else {
        let cur = dir_moves(b, p, d, jump, n);
        assert(cur[cur.len() - 1] == move_to(d, jump, t));
    }
}

proof fn lemma_all_moves_contains(b: Board, p: Player, d: Dir, jump: bool, t: u32)
    requires
        t < 32,
        lands(b, p, d, jump, t),
    ensures
        all_moves(b, p, jump).contains(move_to(d, jump, t)),
{
    lemma_dir_moves_contains(b, p, d, jump, 32, t);
    let a = dir_moves(b, p, Dir::UpLeft, jump, 32);
    let bb = dir_moves(b, p, Dir::UpRight, jump, 32);
    let c = dir_moves(b, p, Dir::DownLeft, jump, 32);
    let e = dir_moves(b, p, Dir::DownRight, jump, 32);
    let all = all_moves(b, p, jump);
    let x = move_to(d, jump, t);
    let dm = dir_moves(b, p, d, jump, 32);
    let k = choose|k: int| 0 <= k < dm.len() && dm[k] == x;
    match d {
        Dir::UpLeft => assert(all[k] == x),
        Dir::UpRight => assert(all[a.len() + k] == x),
        Dir::DownLeft => assert(all[a.len() + bb.len() + k] == x),
        Dir::DownRight => assert(all[a.len() + bb.len() + c.len() + k] == x),
    }
}

/// A king captures in every direction: when a king of `p` may move now (no jump is in
/// progress, or it is the jumping piece), the cell next to it in some diagonal direction
/// holds an opposing piece and the cell beyond that is an empty square of the board, then
/// jumping there is a legal move of `p`.
#[verifier::spinoff_prover]
#[verifier::rlimit(40)]
pub proof fn lemma_king_captures_everywhere(b: Board, p: Player, row: int, col: int, d: Dir)
    requires
        layout(row, col) is Some,
        layout(row + row_step(d), col + col_step(d)) is Some,
        layout(row + 2 * row_step(d), col + 2 * col_step(d)) is Some,
        ({
            let s = layout(row, col).unwrap();
            let c = layout(row + row_step(d), col + col_step(d)).unwrap();
            let t = layout(row + 2 * row_step(d), col + 2 * col_step(d)).unwrap();
            let white_side = p == Player::White || p == Player::Human;
            let own = if white_side { b.white_pieces } else { b.black_pieces };
            let opp = if white_side { b.black_pieces } else { b.white_pieces };
            &&& bit(own, s)
            &&& bit(b.kings, s)
            &&& (b.mid_jump_idx is None || b.mid_jump_idx == Some(s as u8))
            &&& bit(opp, c)
            &&& !bit(b.white_pieces, t)
            &&& !bit(b.black_pieces, t)
        }),
    ensures
        legal_moves(b, p).contains(
            Piece {
                from: layout(row, col).unwrap() as u8,
                to: layout(row + 2 * row_step(d), col + 2 * col_step(d)).unwrap() as u8,
                capture: Some(layout(row + row_step(d), col + col_step(d)).unwrap() as u8),
            },
        ),
{
    let s = layout(row, col).unwrap();
    let c = layout(row + row_step(d), col + col_step(d)).unwrap();
    let t = layout(row + 2 * row_step(d), col + 2 * col_step(d)).unwrap();
    lemma_directions_match_layout(row, col, d);
    lemma_directions_match_layout(row + row_step(d), col + col_step(d), d);
    assert(s < 32 && c < 32 && t < 32);
    assert(back(d, t) == c);
    assert(back(d, c) == s);
    reveal(lands);
    assert(jump_lands(b, p, d, t));
    lemma_all_moves_contains(b, p, d, true, t);
    assert(move_to(d, true, t) == Piece { from: s as u8, to: t as u8, capture: Some(c as u8) });
}

proof fn lemma_first_move_found(moves: Seq<Piece>, from: usize, to: usize, n: nat)
    ensures
        first_move(moves, from, to, n) matches Some(k) ==> 0 <= k < n && moves[k].from as usize
            == from && moves[k].to as usize == to,
    decreases n,
{
    if n > 0 {
        lemma_first_move_found(moves, from, to, (n - 1) as nat);
    }
}

proof fn lemma_dots_for(moves: Seq<Piece>, idx: usize, n: nat)
    requires
        n <= moves.len(),
    ensures
        forall|k: int|
            0 <= k < n && moves[k].from as usize == idx ==> dots_for(moves, idx, n).contains(
                ShowPiece::Piece(#[trigger] moves[k].to as usize),
            ),
        forall|j: int|
            0 <= j < dots_for(moves, idx, n).len() ==> exists|k: int|
                0 <= k < n && moves[k].from as usize == idx && #[trigger] dots_for(moves, idx, n)[j]
                    == ShowPiece::Piece(moves[k].to as usize),
    decreases n,
{
    if n > 0 {
        lemma_dots_for(moves, idx, (n - 1) as nat);
        let prev = dots_for(moves, idx, (n - 1) as nat);
        let cur = dots_for(moves, idx, n);
        assert forall|k: int|
            0 <= k < n && moves[k].from as usize == idx implies cur.contains(
            ShowPiece::Piece(#[trigger] moves[k].to as usize),
        ) by {
            if k < n - 1 {
                let j = choose|j: int| 0 <= j < prev.len() && prev[j] == ShowPiece::Piece(moves[k].to as usize);
                assert(cur[j] == prev[j]);
            } else {
                assert(cur[cur.len() - 1] == ShowPiece::Piece(moves[k].to as usize));
            }
        }
        assert forall|j: int| 0 <= j < cur.len() implies exists|k: int|
            0 <= k < n && moves[k].from as usize == idx && #[trigger] cur[j] == ShowPiece::Piece(
                moves[k].to as usize,
            ) by {
            if j < prev.len() {
                assert(cur[j] == prev[j]);
            } else {
                assert(cur[j] == ShowPiece::Piece(moves[n - 1].to as usize));
            }
        }
    }
}

/// Clicking one of the pieces of the side to move (white for White and Human, black for
/// Black) selects it and shows as dots exactly the end squares of that side's legal moves
/// from it; nothing is played.
pub proof fn lemma_click_selects_own_piece(a: AppView, b: Board, idx: usize)
    requires
        game_consistent(a, b),
        idx < 32,
        ((a.player == Player::White || a.player == Player::Human) && bit(
            b.white_pieces,
            idx as u32,
        )) || (a.player == Player::Black && bit(b.black_pieces, idx as u32)),
    ensures
        click(a, b, idx).0.selected_piece == ShowPiece::Piece(idx),
        click(a, b, idx).1 == b,
        forall|k: int|
            0 <= k < legal_moves(b, a.player).len() && legal_moves(b, a.player)[k].from as usize
                == idx ==> click(a, b, idx).0.dots.contains(
                ShowPiece::Piece(#[trigger] legal_moves(b, a.player)[k].to as usize),
            ),
        forall|j: int|
            0 <= j < click(a, b, idx).0.dots.len() ==> exists|k: int|
                0 <= k < legal_moves(b, a.player).len() && legal_moves(b, a.player)[k].from
                    as usize == idx && #[trigger] click(a, b, idx).0.dots[j] == ShowPiece::Piece(
                    legal_moves(b, a.player)[k].to as usize,
                ),
{
    let moves = a.legal_moves;
    assert(selectable(b, a.player, idx));
    lemma_dots_for(moves, idx, moves.len());
    let dots = dots_for(moves, idx, moves.len());
    assert(!dots.contains(ShowPiece::Piece(idx))) by {
        if dots.contains(ShowPiece::Piece(idx)) {
            let j = choose|j: int| 0 <= j < dots.len() && dots[j] == ShowPiece::Piece(idx);
            let k = choose|k: int|
                0 <= k < moves.len() && moves[k].from as usize == idx && #[trigger] dots[j]
                    == ShowPiece::Piece(moves[k].to as usize);
            lemma_legal_move_squares(b, a.player, k);
        }
    }
}

/// A click that plays a move plays it from the selected square to the clicked one: the
/// mover's piece leaves the selected square and arrives on the clicked square, and no other
/// piece of the mover moves.
pub proof fn lemma_click_moves_selected_piece(a: AppView, b: Board, idx: usize)
    requires
        game_consistent(a, b),
        idx < 32,
    ensures
        click(a, b, idx).1 != b ==> {
            let a2 = click(a, b, idx).0;
            let b2 = click(a, b, idx).1;
            let white_side = a.player == Player::White || a.player == Player::Human;
            let own = if white_side { b.white_pieces } else { b.black_pieces };
            let own2 = if white_side { b2.white_pieces } else { b2.black_pieces };
            &&& a2.selected_piece is Piece
            &&& a2.selected_piece->0 < 32
            &&& forall|q: u32|
                q < 32 ==> #[trigger] bit(own2, q) == ((bit(own, q) && q != a2.selected_piece->0
                    as u32) || q == idx as u32)
        },
{
    let a1 = if selectable(b, a.player, idx) {
        AppView {
            selected_piece: ShowPiece::Piece(idx),
            dots: dots_for(a.legal_moves, idx, a.legal_moves.len()),
            ..a
        }
    } else {
        a
    };
    if a1.dots.contains(ShowPiece::Piece(idx)) {
        if let ShowPiece::Piece(sel) = a1.selected_piece {
            if let Some(k) = first_move(a1.legal_moves, sel, idx, a1.legal_moves.len()) {
                lemma_first_move_found(a1.legal_moves, sel, idx, a1.legal_moves.len());
                let p = a.player;
                assert(p != Player::NoPlayer);
                let m = legal_moves(b, p)[k];
                lemma_legal_move_squares(b, p, k);
                reveal(step_outcome);
                let b2 = step_outcome(b, m, p).board;
                assert(own_pieces(b2, p) == own_pieces(after_move(b, m, p), p));
                assert forall|q: u32| q < 32 implies #[trigger] bit(own_pieces(b2, p), q) == ((bit(
                    own_pieces(b, p),
                    q,
                ) && q != sel as u32) || q == idx as u32) by {
                    lemma_after_move_square(b, m, p, q);
                    assert(square_ok(b, q));
                }
            }
        }
    }
}

/// The side that moves after `p` when the turn passes.
pub open spec fn opponent_of(p: Player) -> Player {
    match p {
        Player::White => Player::Black,
        Player::Black => Player::White,
        Player::Human => Player::Ai,
        Player::Ai => Player::Human,
        Player::NoPlayer => Player::NoPlayer,
    }
}

/// What a legal move does to the board: the mover's piece leaves `from` and arrives on
/// `to`, no other piece of the mover moves, the opponent loses exactly the piece on the
/// captured square, and the piece on `to` is a king exactly when it was one or it reached
/// its promotion row (row 0 for White and Human, row 7 for Black and Ai); no other square's
/// king changes. A plain move passes the turn to the opponent with no jump in progress. The
/// moves returned are the legal moves of the side to move next on the new board.
#[verifier::spinoff_prover]
#[verifier::rlimit(40)]
pub proof fn lemma_move_effect(b: Board, p: Player, i: int)
    requires
        valid_position(b),
        p != Player::NoPlayer,
        0 <= i < legal_moves(b, p).len(),
    ensures
        ({
            let m = legal_moves(b, p)[i];
            let o = step_outcome(b, m, p);
            let a = o.board;
            let white_side = p == Player::White || p == Player::Human;
            let own = if white_side { b.white_pieces } else { b.black_pieces };
            let opp = if white_side { b.black_pieces } else { b.white_pieces };
            let own2 = if white_side { a.white_pieces } else { a.black_pieces };
            let opp2 = if white_side { a.black_pieces } else { a.white_pieces };
            let prow = if white_side { WHITE_PROMOTION_ROW } else { BLACK_PROMOTION_ROW };
            &&& forall|q: u32|
                q < 32 ==> #[trigger] bit(own2, q) == ((bit(own, q) && q != m.from as u32) || q
                    == m.to as u32)
            &&& forall|q: u32|
                q < 32 ==> #[trigger] bit(opp2, q) == (bit(opp, q) && m.capture != Some(q as u8))
            &&& forall|q: u32|
                q < 32 ==> #[trigger] bit(a.kings, q) == if q == m.to as u32 {
                    bit(b.kings, m.from as u32) || bit(prow, m.to as u32)
                } else {
                    bit(b.kings, q) && q != m.from as u32 && m.capture != Some(q as u8)
                }
            &&& (m.capture is None ==> o.player == opponent_of(p) && a.mid_jump_idx is None)
            &&& o.moves == legal_moves(a, o.player)
        }),
{
    lemma_legal_move_squares(b, p, i);
    let m = legal_moves(b, p)[i];
    reveal(step_outcome);
    let o = step_outcome(b, m, p);
    let a = o.board;
    let moved = after_move(b, m, p);
    assert(a.white_pieces == moved.white_pieces && a.black_pieces == moved.black_pieces && a.kings
        == moved.kings);
    let s = m.from as u32;
    let t = m.to as u32;
    let new_bit = 1u32 << m.to;
    let old_bit = 1u32 << m.from;
    assert(new_bit == 1u32 << t);
    assert(old_bit == 1u32 << s);
    lemma_bit_mask(b.kings, s);
    lemma_bit_mask(WHITE_PROMOTION_ROW, t);
    lemma_bit_mask(BLACK_PROMOTION_ROW, t);
    assert(new_bit & WHITE_PROMOTION_ROW == WHITE_PROMOTION_ROW & new_bit) by (bit_vector);
    assert(new_bit & BLACK_PROMOTION_ROW == BLACK_PROMOTION_ROW & new_bit) by (bit_vector);
    assert(crowns(b, m, p) == (!bit(b.kings, s) && bit(promotion_row(p), t)));
    let white_side = p == Player::White || p == Player::Human;
    let own2 = if white_side { a.white_pieces } else { a.black_pieces };
    let opp2 = if white_side { a.black_pieces } else { a.white_pieces };
    assert(own2 == own_pieces(moved, p) && opp2 == opponent_pieces(moved, p));
    assert forall|q: u32| q < 32 implies #[trigger] bit(own2, q) == ((bit(own_pieces(b, p), q) && q != s) || q == t) by {
        lemma_after_move_square(b, m, p, q);
        assert(square_ok(b, q));
    }
    assert forall|q: u32| q < 32 implies #[trigger] bit(opp2, q) == (bit(opponent_pieces(b, p), q) && m.capture != Some(q as u8)) by {
        lemma_after_move_square(b, m, p, q);
        if m.capture == Some(q as u8) {
            assert(q < 256);
        }
    }
    assert forall|q: u32| q < 32 implies #[trigger] bit(a.kings, q) == if q == t {
            bit(b.kings, s) || bit(promotion_row(p), t)
        } else {
            bit(b.kings, q) && q != s && m.capture != Some(q as u8)
        } by {
        lemma_after_move_square(b, m, p, q);
        assert(square_ok(b, t));
        if m.capture == Some(q as u8) {
            assert(q < 256);
        }
    }
}

/// The row in which square `s` is drawn.
pub open spec fn square_row(s: u32) -> int {
    if s == 0 {
        7
    } else if s == 1 {
        6
    } else if s == 2 {
        3
    } else if s == 3 {
        2
    } else if s == 4 {
        1
    } else if s == 5 {
        0
    } else if s == 6 {
        7
    } else if s == 7 {
        6
    } else if s == 8 {
        5
    } else if s == 9 {
        4
    } else if s == 10 {
        1
    } else if s == 11 {
        0
    } else if s == 12 {
        7
    } else if s == 13 {
        6
    } else if s == 14 {
        5
    } else if s == 15 {
        4
    } else if s == 16 {
        3
    } else if s == 17 {
        2
    } else if s == 18 {
        7
    } else if s == 19 {
        6
    } else if s == 20 {
        5
    } else if s == 21 {
        4
    } else if s == 22 {
        3
    } else if s == 23 {
        2
    } else if s == 24 {
        1
    } else if s == 25 {
        0
    } else if s == 26 {
        5
    } else if s == 27 {
        4
    } else if s == 28 {
        3
    } else if s == 29 {
        2
    } else if s == 30 {
        1
    } else if s == 31 {
        0
    } else {
        0
    }
}

/// The column in which square `s` is drawn.
pub open spec fn square_col(s: u32) -> int {
    if s == 0 {
        6
    } else if s == 1 {
        7
    } else if s == 2 {
        0
    } else if s == 3 {
        1
    } else if s == 4 {
        2
    } else if s == 5 {
        3
    } else if s == 6 {
        4
    } else if s == 7 {
        5
    } else if s == 8 {
        6
    } else if s == 9 {
        7
    } else if s == 10 {
        0
    } else if s == 11 {
        1
    } else if s == 12 {
        2
    } else if s == 13 {
        3
    } else if s == 14 {
        4
    } else if s == 15 {
        5
    } else if s == 16 {
        6
    } else if s == 17 {
        7
    } else if s == 18 {
        0
    } else if s == 19 {
        1
    } else if s == 20 {
        2
    } else if s == 21 {
        3
    } else if s == 22 {
        4
    } else if s == 23 {
        5
    } else if s == 24 {
        6
    } else if s == 25 {
        7
    } else if s == 26 {
        0
    } else if s == 27 {
        1
    } else if s == 28 {
        2
    } else if s == 29 {
        3
    } else if s == 30 {
        4
    } else if s == 31 {
        5
    } else {
        0
    }
}

/// Every square of the board is drawn in some cell.
pub proof fn lemma_square_drawn(s: u32)
    requires
        s < 32,
    ensures
        layout(square_row(s), square_col(s)) == Some(s),
{
}

/// Every legal move is a diagonal move on the drawn board: a plain move goes to the
/// adjacent cell in some direction, a capture jumps over the adjacent cell (the captured
/// square) to the one beyond; a man only moves toward its promotion row (up for White and
/// Human, down for Black and Ai).
#[verifier::spinoff_prover]
#[verifier::rlimit(40)]
pub proof fn lemma_legal_move_geometry(b: Board, p: Player, i: int)
    requires
        0 <= i < legal_moves(b, p).len(),
    ensures
        ({
            let m = legal_moves(b, p)[i];
            let row = square_row(m.from as u32);
            let col = square_col(m.from as u32);
            exists|d: Dir|
                {
                    &&& layout(row, col) == Some(m.from as u32)
                    &&& (m.capture is None ==> layout(#[trigger] (row + row_step(d)), col + col_step(d))
                        == Some(m.to as u32))
                    &&& (m.capture matches Some(c) ==> layout(row + row_step(d), col + col_step(d))
                        == Some(c as u32) && layout(row + 2 * row_step(d), col + 2 * col_step(d))
                        == Some(m.to as u32))
                    &&& (!bit(b.kings, m.from as u32) ==> (row_step(d) == -1 <==> (p == Player::White
                        || p == Player::Human)))
                }
        }),
{
    lemma_legal_move_shape(b, p, i);
    let m = legal_moves(b, p)[i];
    let (d, jump, t) = choose|d: Dir, jump: bool, t: u32|
        #![trigger move_to(d, jump, t)]
        t < 32 && lands(b, p, d, jump, t) && m == move_to(d, jump, t) && (jump <==> all_moves(
            b,
            p,
            true,
        ).len() > 0);
    reveal(lands);
    let c = back(d, t);
    let s = back(d, c);
    let fs = if jump { s } else { c };
    assert(m.from as u32 == fs);
    assert(fs < 32);
    lemma_square_drawn(fs);
    let row = square_row(fs);
    let col = square_col(fs);
    lemma_directions_match_layout(row, col, d);
    if jump {
        assert((s + dir_shift(d)) % 32 == c);
        lemma_directions_match_layout(row + row_step(d), col + col_step(d), d);
        assert((c + dir_shift(d)) % 32 == t);
    } else {
        assert((c + dir_shift(d)) % 32 == t);
    }
    assert(row_step(d) == -1 <==> is_up(d));
}

/// The moves the rules allow are all legal: when a piece of `p` that may move now (no jump
/// is in progress, or it is the jumping piece) may go in direction `d` (a king in any
/// direction, a man toward its promotion row), then
/// - if the adjacent cell holds an opposing piece and the cell beyond is an empty square,
///   jumping there is a legal move;
/// - if the adjacent cell is an empty square, no jump is in progress and no legal move of
///   `p` is a capture, stepping there is a legal move.
#[verifier::spinoff_prover]
#[verifier::rlimit(40)]
pub proof fn lemma_allowed_moves_are_legal(b: Board, p: Player, row: int, col: int, d: Dir)
    requires
        layout(row, col) is Some,
        ({
            let s = layout(row, col).unwrap();
            let white_side = p == Player::White || p == Player::Human;
            let own = if white_side { b.white_pieces } else { b.black_pieces };
            &&& bit(own, s)
            &&& (b.mid_jump_idx is None || b.mid_jump_idx == Some(s as u8))
            &&& (bit(b.kings, s) || (row_step(d) == -1 <==> white_side))
        }),
    ensures
        ({
            let s = layout(row, col).unwrap();
            let n = layout(row + row_step(d), col + col_step(d));
            let beyond = layout(row + 2 * row_step(d), col + 2 * col_step(d));
            let white_side = p == Player::White || p == Player::Human;
            let opp = if white_side { b.black_pieces } else { b.white_pieces };
            &&& (n is Some && bit(opp, n.unwrap()) && beyond is Some && !bit(
                b.white_pieces,
                beyond.unwrap(),
            ) && !bit(b.black_pieces, beyond.unwrap())) ==> legal_moves(b, p).contains(
                Piece { from: s as u8, to: beyond.unwrap() as u8, capture: Some(n.unwrap() as u8) },
            )
            &&& (n is Some && !bit(b.white_pieces, n.unwrap()) && !bit(b.black_pieces, n.unwrap())
                && b.mid_jump_idx is None && (forall|k: int|
                0 <= k < legal_moves(b, p).len() ==> (#[trigger] legal_moves(b, p)[k]).capture is None))
                ==> legal_moves(b, p).contains(
                Piece { from: s as u8, to: n.unwrap() as u8, capture: None },
            )
        }),
{
    let s = layout(row, col).unwrap();
    let n = layout(row + row_step(d), col + col_step(d));
    let beyond = layout(row + 2 * row_step(d), col + 2 * col_step(d));
    lemma_directions_match_layout(row, col, d);
    assert(row_step(d) == -1 <==> is_up(d));
    if n is Some {
        let c = n.unwrap();
        assert(s < 32 && c < 32);
        assert(back(d, c) == s);
        assert(may_go(b, p, d, s));
        if beyond is Some {
            lemma_directions_match_layout(row + row_step(d), col + col_step(d), d);
            let t = beyond.unwrap();
            assert(t < 32);
            assert(back(d, t) == c);
            if bit(opponent_pieces(b, p), c) && vacant(b, t) {
                lemma_jump_legal(b, p, d, s, c, t);
            }
        }
        lemma_step_legal(b, p, d, s, c);
    }
}

proof fn lemma_jump_legal(b: Board, p: Player, d: Dir, s: u32, c: u32, t: u32)
    requires
        s < 32,
        c < 32,
        t < 32,
        back(d, t) == c,
        back(d, c) == s,
        may_go(b, p, d, s),
        bit(dir_src(d), c),
        bit(opponent_pieces(b, p), c),
        vacant(b, t),
    ensures
        legal_moves(b, p).contains(Piece { from: s as u8, to: t as u8, capture: Some(c as u8) }),
{
    reveal(lands);
    assert(jump_lands(b, p, d, t));
    lemma_all_moves_contains(b, p, d, true, t);
    assert(move_to(d, true, t) == Piece { from: s as u8, to: t as u8, capture: Some(c as u8) });
}

proof fn lemma_step_legal(b: Board, p: Player, d: Dir, s: u32, t: u32)
    requires
        s < 32,
        t < 32,
        back(d, t) == s,
        may_go(b, p, d, s),
    ensures
        (vacant(b, t) && b.mid_jump_idx is None && (forall|k: int|
            0 <= k < legal_moves(b, p).len() ==> (#[trigger] legal_moves(b, p)[k]).capture is None))
            ==> legal_moves(b, p).contains(Piece { from: s as u8, to: t as u8, capture: None }),
{
    let lm = legal_moves(b, p);
    if vacant(b, t) && b.mid_jump_idx is None && (forall|k: int|
        0 <= k < lm.len() ==> (#[trigger] lm[k]).capture is None) {
        if all_moves(b, p, true).len() > 0 {
            lemma_all_member(b, p, true, 0);
            assert(lm[0].capture is Some);
        }
        reveal(lands);
        assert(lands(b, p, d, false, t));
        lemma_all_moves_contains(b, p, d, false, t);
        assert(move_to(d, false, t) == Piece { from: s as u8, to: t as u8, capture: None });
    }
}

/// Two legal moves with the same start and end square are the same move.
pub proof fn lemma_legal_moves_unique(b: Board, p: Player, i: int, j: int)
    requires
        0 <= i < legal_moves(b, p).len(),
        0 <= j < legal_moves(b, p).len(),
        legal_moves(b, p)[i].from == legal_moves(b, p)[j].from,
        legal_moves(b, p)[i].to == legal_moves(b, p)[j].to,
    ensures
        legal_moves(b, p)[i] == legal_moves(b, p)[j],
{
    lemma_legal_move_shape(b, p, i);
    lemma_legal_move_shape(b, p, j);
    let mi = legal_moves(b, p)[i];
    let mj = legal_moves(b, p)[j];
    let (d1, j1, t1) = choose|d: Dir, jump: bool, t: u32|
        #![trigger move_to(d, jump, t)]
        t < 32 && lands(b, p, d, jump, t) && mi == move_to(d, jump, t) && (jump <==> all_moves(
            b,
            p,
            true,
        ).len() > 0);
    let (d2, j2, t2) = choose|d: Dir, jump: bool, t: u32|
        #![trigger move_to(d, jump, t)]
        t < 32 && lands(b, p, d, jump, t) && mj == move_to(d, jump, t) && (jump <==> all_moves(
            b,
            p,
            true,
        ).len() > 0);
    assert(t1 == t2);
    lemma_move_to_injective(d1, d2, j1, t1);
}

proof fn lemma_move_to_injective(d1: Dir, d2: Dir, jump: bool, t: u32)
    requires
        t < 32,
        move_to(d1, jump, t).from == move_to(d2, jump, t).from,
    ensures
        move_to(d1, jump, t) == move_to(d2, jump, t),
{
    let c1 = back(d1, t);
    let c2 = back(d2, t);
    assert(c1 < 32 && c2 < 32);
    assert(back(d1, c1) < 32 && back(d2, c2) < 32);
    if dir_shift(d1) != dir_shift(d2) {
        assert(false);
    }
}

/// Clicking a highlighted square after selecting a piece plays the legal move from the
/// selected square to the clicked one: the board and the side to move become what that move
/// gives, the clicked square is marked as the last move and the dots are cleared.
pub proof fn lemma_click_plays_move(a: AppView, b: Board, idx: usize, sel: usize, k: int)
    requires
        game_consistent(a, b),
        idx < 32,
        a.selected_piece == ShowPiece::Piece(sel),
        a.dots.contains(ShowPiece::Piece(idx)),
        0 <= k < legal_moves(b, a.player).len(),
        legal_moves(b, a.player)[k].from as usize == sel,
        legal_moves(b, a.player)[k].to as usize == idx,
    ensures
        ({
            let o = step_outcome(b, legal_moves(b, a.player)[k], a.player);
            let (a2, b2) = click(a, b, idx);
            &&& b2 == o.board
            &&& a2.player == o.player
            &&& a2.legal_moves == o.moves
            &&& a2.won == o.won
            &&& a2.last_piece == ShowPiece::Piece(idx)
            &&& a2.dots.len() == 0
            &&& a2.selected_piece == a.selected_piece
            &&& a2.mode == a.mode
            &&& a2.depth == a.depth
        }),
{
    let p = a.player;
    assert(p != Player::NoPlayer);
    let lm = legal_moves(b, p);
    lemma_legal_move_squares(b, p, k);
    assert(!selectable(b, p, idx));
    let f = first_move(a.legal_moves, sel, idx, a.legal_moves.len());
    lemma_first_move_range(a.legal_moves, sel, idx, a.legal_moves.len());
    lemma_first_move_found(a.legal_moves, sel, idx, a.legal_moves.len());
    lemma_first_move_finds(a.legal_moves, sel, idx, a.legal_moves.len(), k);
    let k2 = f.unwrap();
    assert(lm[k2].from == lm[k].from) by {
        assert(lm[k2].from < 32 && lm[k].from < 32) by {
            lemma_legal_move_squares(b, p, k2);
        }
    }
    lemma_legal_moves_unique(b, p, k, k2);
}

proof fn lemma_first_move_finds(moves: Seq<Piece>, from: usize, to: usize, n: nat, k: int)
    requires
        0 <= k < n,
        moves[k].from as usize == from,
        moves[k].to as usize == to,
    ensures
        first_move(moves, from, to, n) is Some,
    decreases n,
{
    if k < n - 1 {
        lemma_first_move_finds(moves, from, to, (n - 1) as nat, k);
    }
}

/// What each message other than a click does.
/// - EndGame ends the game (mode and depth kept) and puts the pieces back.
/// - AiMode and HumanMode do the same and set the mode, but only while no game runs.
/// - StartGame(p) lets `p` move first with its legal moves, but only while no game runs.
/// - SetDifficulty sets the search depth; NoMessage does nothing.
pub proof fn lemma_message_effects(a: AppView, b: Board, m: Message)
    ensures
        ({
            let (a2, b2) = handle(a, b, m);
            let ended = {
                &&& a2.player == Player::NoPlayer
                &&& a2.legal_moves.len() == 0
                &&& a2.dots.len() == 0
                &&& a2.selected_piece == ShowPiece::NoPiece
                &&& a2.last_piece == ShowPiece::NoPiece
                &&& !a2.won
                &&& a2.depth == a.depth
                &&& b2.white_pieces == 0x041C71C3
                &&& b2.black_pieces == 0xE3820C38
                &&& b2.kings == 0
                &&& b2.mid_jump_idx is None
            };
            let idle = a.player == Player::NoPlayer;
            &&& (m is EndGame ==> ended && a2.mode == a.mode)
            &&& (m is AiMode ==> if idle { ended && a2.mode == Mode::Ai } else { a2 == a && b2 == b })
            &&& (m is HumanMode ==> if idle { ended && a2.mode == Mode::Human } else { a2 == a && b2 == b })
            &&& (m matches Message::StartGame(p) ==> if idle {
                a2 == AppView { player: p, legal_moves: legal_moves(b, p), ..a } && b2 == b
            } else {
                a2 == a && b2 == b
            })
            &&& (m matches Message::SetDifficulty(x) ==> a2 == AppView { depth: x, ..a } && b2 == b)
            &&& (m is NoMessage ==> a2 == a && b2 == b)
        }),
{
}

/// Material counts: on an empty square, an extra white man lowers the AI's score by 100
/// and an extra white king by 175; an extra black man raises it by 100, a black king by 175.
pub proof fn lemma_score_of_extra_piece(b: Board, q: u32, white: bool, king: bool)
    requires
        q < 32,
        !bit(b.white_pieces, q),
        !bit(b.black_pieces, q),
        !bit(b.kings, q),
    ensures
        ({
            let qb = 1u32 << q;
            let b2 = Board {
                white_pieces: if white { b.white_pieces | qb } else { b.white_pieces },
                black_pieces: if white { b.black_pieces } else { b.black_pieces | qb },
                kings: if king { b.kings | qb } else { b.kings },
                ..b
            };
            let delta: int = if king { 175 } else { 100 };
            evaluation(b2, Player::Ai).0 as int == evaluation(b, Player::Ai).0 as int
                + if white { -delta } else { delta }
        }),
{
    let qb = 1u32 << q;
    let b2 = Board {
        white_pieces: if white { b.white_pieces | qb } else { b.white_pieces },
        black_pieces: if white { b.black_pieces } else { b.black_pieces | qb },
        kings: if king { b.kings | qb } else { b.kings },
        ..b
    };
    assert forall|i: u32| i < 32 implies #[trigger] bit(b2.white_pieces, i) == (bit(b.white_pieces, i) || (white && i == q)) by {
        lemma_bit_or(b.white_pieces, qb, i);
        lemma_bit_single(q, i);
    }
    assert forall|i: u32| i < 32 implies #[trigger] bit(b2.black_pieces, i) == (bit(b.black_pieces, i) || (!white && i == q)) by {
        lemma_bit_or(b.black_pieces, qb, i);
        lemma_bit_single(q, i);
    }
    assert forall|i: u32| i < 32 implies #[trigger] bit(b2.kings, i) == (bit(b.kings, i) || (king && i == q)) by {
        lemma_bit_or(b.kings, qb, i);
        lemma_bit_single(q, i);
    }
    lemma_count_add(b.white_pieces, b2.white_pieces, q, white);
    lemma_count_add(b.black_pieces, b2.black_pieces, q, !white);
    assert forall|i: u32| i < 32 implies #[trigger] bit(b2.white_pieces & b2.kings, i) == (bit(b.white_pieces & b.kings, i) || (white && king && i == q)) by {
        assert(bit(b2.white_pieces, i) == (bit(b.white_pieces, i) || (white && i == q)));
        assert(bit(b2.kings, i) == (bit(b.kings, i) || (king && i == q)));
        lemma_bit_and(b2.white_pieces, b2.kings, i);
        lemma_bit_and(b.white_pieces, b.kings, i);
    }
    assert forall|i: u32| i < 32 implies #[trigger] bit(b2.black_pieces & b2.kings, i) == (bit(b.black_pieces & b.kings, i) || (!white && king && i == q)) by {
        assert(bit(b2.black_pieces, i) == (bit(b.black_pieces, i) || (!white && i == q)));
        assert(bit(b2.kings, i) == (bit(b.kings, i) || (king && i == q)));
        lemma_bit_and(b2.black_pieces, b2.kings, i);
        lemma_bit_and(b.black_pieces, b.kings, i);
    }
    lemma_bit_and(b.white_pieces, b.kings, q);
    lemma_bit_and(b.black_pieces, b.kings, q);
    lemma_count_add(b.white_pieces & b.kings, b2.white_pieces & b2.kings, q, white && king);
    lemma_count_add(b.black_pieces & b.kings, b2.black_pieces & b2.kings, q, !white && king);
    lemma_eval_exact(b);
    lemma_eval_exact(b2);
}

proof fn lemma_eval_exact(b: Board)
    ensures
        evaluation(b, Player::Ai).0 as int == (ones(b.black_pieces) as int - ones(b.white_pieces) as int)
            * 100 + (ones(b.black_pieces & b.kings) as int - ones(b.white_pieces & b.kings) as int)
            * 75,
{
    lemma_ones_below_bound(b.white_pieces, 32);
    lemma_ones_below_bound(b.black_pieces, 32);
    lemma_ones_below_bound(b.white_pieces & b.kings, 32);
    lemma_ones_below_bound(b.black_pieces & b.kings, 32);
    let w = ones(b.white_pieces) as int;
    let bl = ones(b.black_pieces) as int;
    let wk = ones(b.white_pieces & b.kings) as int;
    let bk = ones(b.black_pieces & b.kings) as int;
    assert(-3200 <= (bl - w) * 100 <= 3200) by (nonlinear_arith)
        requires
            0 <= w <= 32,
            0 <= bl <= 32,
    ;
    assert(-2400 <= (bk - wk) * 75 <= 2400) by (nonlinear_arith)
        requires
            0 <= wk <= 32,
            0 <= bk <= 32,
    ;
}

/// Adding square `q` (when `add`) to a bitboard without it adds one to its count.
proof fn lemma_count_add(x: u32, y: u32, q: u32, add: bool)
    requires
        q < 32,
        !bit(x, q),
        forall|i: u32| i < 32 ==> #[trigger] bit(y, i) == (bit(x, i) || (add && i == q)),
    ensures
        ones(y) == ones(x) + if add { 1nat } else { 0nat },
{
    if add {
        lemma_ones_remove(y, x, q, 32);
    } else {
        assert forall|i: u32| i < 32 implies bit(x, i) == bit(y, i) by {}
        lemma_bits_ext(x, y);
    }
}

/// A capture that does not crown continues while the capturing piece can capture again:
/// if on the board after the capture the piece that landed on `to` has an opposing piece
/// next to it in a direction it may move in, with an empty square beyond, then the same
/// side moves again, the jump in progress is that piece's, and that capture is offered.
pub proof fn lemma_capture_continues(b: Board, p: Player, i: int, row: int, col: int, d: Dir)
    requires
        valid_position(b),
        p != Player::NoPlayer,
        0 <= i < legal_moves(b, p).len(),
        legal_moves(b, p)[i].capture is Some,
        layout(row, col) == Some(legal_moves(b, p)[i].to as u32),
        ({
            let m = legal_moves(b, p)[i];
            let a = step_outcome(b, m, p).board;
            let white_side = p == Player::White || p == Player::Human;
            let prow = if white_side { WHITE_PROMOTION_ROW } else { BLACK_PROMOTION_ROW };
            let opp2 = if white_side { a.black_pieces } else { a.white_pieces };
            let n = layout(row + row_step(d), col + col_step(d));
            let beyond = layout(row + 2 * row_step(d), col + 2 * col_step(d));
            &&& (bit(b.kings, m.from as u32) || !bit(prow, m.to as u32))
            &&& (bit(b.kings, m.from as u32) || (row_step(d) == -1 <==> white_side))
            &&& n is Some
            &&& bit(opp2, n.unwrap())
            &&& beyond is Some
            &&& !bit(a.white_pieces, beyond.unwrap())
            &&& !bit(a.black_pieces, beyond.unwrap())
        }),
    ensures
        ({
            let m = legal_moves(b, p)[i];
            let o = step_outcome(b, m, p);
            &&& o.player == p
            &&& o.board.mid_jump_idx == Some(m.to)
            &&& o.moves.contains(
                Piece {
                    from: m.to,
                    to: layout(row + 2 * row_step(d), col + 2 * col_step(d)).unwrap() as u8,
                    capture: Some(layout(row + row_step(d), col + col_step(d)).unwrap() as u8),
                },
            )
        }),
{
    let m = legal_moves(b, p)[i];
    lemma_move_effect(b, p, i);
    lemma_legal_move_squares(b, p, i);
    reveal(step_outcome);
    let moved = after_move(b, m, p);
    let cont = Board { mid_jump_idx: Some(m.to), ..moved };
    let o = step_outcome(b, m, p);
    let white_side = p == Player::White || p == Player::Human;
    let prow = if white_side { WHITE_PROMOTION_ROW } else { BLACK_PROMOTION_ROW };
    let t = m.to as u32;
    let s = m.from as u32;
    let new_bit = 1u32 << m.to;
    let old_bit = 1u32 << m.from;
    assert(new_bit == 1u32 << t);
    assert(old_bit == 1u32 << s);
    lemma_bit_mask(b.kings, s);
    lemma_bit_mask(WHITE_PROMOTION_ROW, t);
    lemma_bit_mask(BLACK_PROMOTION_ROW, t);
    assert(new_bit & WHITE_PROMOTION_ROW == WHITE_PROMOTION_ROW & new_bit) by (bit_vector);
    assert(new_bit & BLACK_PROMOTION_ROW == BLACK_PROMOTION_ROW & new_bit) by (bit_vector);
    assert(!crowns(b, m, p));
    assert(o.board.white_pieces == cont.white_pieces && o.board.black_pieces == cont.black_pieces
        && o.board.kings == cont.kings);
    lemma_after_move_square(b, m, p, t);
    assert(bit(own_pieces(cont, p), t));
    assert(cont.wf());
    lemma_allowed_moves_are_legal(cont, p, row, col, d);
    let x = Piece {
        from: m.to,
        to: layout(row + 2 * row_step(d), col + 2 * col_step(d)).unwrap() as u8,
        capture: Some(layout(row + row_step(d), col + col_step(d)).unwrap() as u8),
    };
    assert(legal_moves(cont, p).contains(x));
    assert(legal_moves(cont, p).len() > 0);
}

/// A click on a square that holds no piece of the side to move and is not highlighted
/// changes nothing.
pub proof fn lemma_click_elsewhere_ignored(a: AppView, b: Board, idx: usize)
    requires
        idx < 32,
        !a.dots.contains(ShowPiece::Piece(idx)),
        !((a.player == Player::White || a.player == Player::Human) && bit(b.white_pieces, idx as u32)),
        !(a.player == Player::Black && bit(b.black_pieces, idx as u32)),
    ensures
        click(a, b, idx) == (a, b),
{
}

/// The direction of a move, as a rank: up-left 0, up-right 1, down-left 2, down-right 3.
pub open spec fn move_rank(m: Piece) -> int {
    let o = index_offset(m);
    if o == 7 || o == 14 {
        0
    } else if o == 1 || o == 2 {
        1
    } else if o == 31 || o == 30 {
        2
    } else {
        3
    }
}

spec fn dir_rank(d: Dir) -> int {
    match d {
        Dir::UpLeft => 0,
        Dir::UpRight => 1,
        Dir::DownLeft => 2,
        Dir::DownRight => 3,
    }
}

proof fn lemma_move_to_rank(d: Dir, jump: bool, t: u32)
    requires
        t < 32,
    ensures
        move_rank(move_to(d, jump, t)) == dir_rank(d),
        move_to(d, jump, t).to == t,
{
    let c = back(d, t);
    assert(c < 32);
    assert(back(d, c) < 32);
}

proof fn lemma_dir_moves_sorted(b: Board, p: Player, d: Dir, jump: bool, n: nat)
    requires
        n <= 32,
    ensures
        forall|i: int, j: int|
            0 <= i < j < dir_moves(b, p, d, jump, n).len() ==> (#[trigger] dir_moves(b, p, d, jump, n)[i]).to
                < (#[trigger] dir_moves(b, p, d, jump, n)[j]).to,
        forall|i: int|
            0 <= i < dir_moves(b, p, d, jump, n).len() ==> (#[trigger] dir_moves(b, p, d, jump, n)[i]).to
                < n && move_rank(dir_moves(b, p, d, jump, n)[i]) == dir_rank(d),
    decreases n,
{
    if n > 0 {
        lemma_dir_moves_sorted(b, p, d, jump, (n - 1) as nat);
        let t = (n - 1) as u32;
        lemma_move_to_rank(d, jump, t);
        let prev = dir_moves(b, p, d, jump, (n - 1) as nat);
        let cur = dir_moves(b, p, d, jump, n);
        assert forall|i: int| 0 <= i < cur.len() implies (#[trigger] cur[i]).to < n && move_rank(cur[i]) == dir_rank(d) by {
            if i < prev.len() {
                assert(cur[i] == prev[i]);
            }
        }
        assert forall|i: int, j: int| 0 <= i < j < cur.len() implies (#[trigger] cur[i]).to < (#[trigger] cur[j]).to by {
            assert(cur[i] == prev[i]);
            if j < prev.len() {
                assert(cur[j] == prev[j]);
            }
        }
    }
}

/// Legal moves come in a fixed order: up-left moves first, then up-right, down-left and
/// down-right ones, and within one direction by increasing end square.
pub proof fn lemma_legal_moves_ordered(b: Board, p: Player, i: int, j: int)
    requires
        0 <= i < j < legal_moves(b, p).len(),
    ensures
        move_rank(legal_moves(b, p)[i]) < move_rank(legal_moves(b, p)[j]) || (move_rank(
            legal_moves(b, p)[i],
        ) == move_rank(legal_moves(b, p)[j]) && legal_moves(b, p)[i].to < legal_moves(b, p)[j].to),
{
    let jump = all_moves(b, p, true).len() > 0;
    let a0 = dir_moves(b, p, Dir::UpLeft, jump, 32);
    let a1 = dir_moves(b, p, Dir::UpRight, jump, 32);
    let a2 = dir_moves(b, p, Dir::DownLeft, jump, 32);
    let a3 = dir_moves(b, p, Dir::DownRight, jump, 32);
    lemma_dir_moves_sorted(b, p, Dir::UpLeft, jump, 32);
    lemma_dir_moves_sorted(b, p, Dir::UpRight, jump, 32);
    lemma_dir_moves_sorted(b, p, Dir::DownLeft, jump, 32);
    lemma_dir_moves_sorted(b, p, Dir::DownRight, jump, 32);
    let all = all_moves(b, p, jump);
    assert(legal_moves(b, p) == all);
    let l0 = a0.len() as int;
    let l1 = l0 + a1.len();
    let l2 = l1 + a2.len();
    assert forall|k: int| 0 <= k < all.len() implies #[trigger] all[k] == if k < l0 {
        a0[k]
    } else if k < l1 {
        a1[k - l0]
    } else if k < l2 {
        a2[k - l1]
    } else {
        a3[k - l2]
    } by {}
    let x = all[i];
    let y = all[j];
    if i < l0 {
        assert(move_rank(a0[i]) == 0);
    } else if i < l1 {
        assert(move_rank(a1[i - l0]) == 1);
    } else if i < l2 {
        assert(move_rank(a2[i - l1]) == 2);
    } else {
        assert(move_rank(a3[i - l2]) == 3);
    }
    if j < l0 {
        assert(move_rank(a0[j]) == 0);
        assert(a0[i].to < a0[j].to);
    } else if j < l1 {
        assert(move_rank(a1[j - l0]) == 1);
        if i >= l0 {
            assert(a1[i - l0].to < a1[j - l0].to);
        }
    } else if j < l2 {
        assert(move_rank(a2[j - l1]) == 2);
        if i >= l1 {
            assert(a2[i - l1].to < a2[j - l1].to);
        }
    } else {
        assert(move_rank(a3[j - l2]) == 3);
        if i >= l2 {
            assert(a3[i - l2].to < a3[j - l2].to);
        }
    }
}

} // verus!
