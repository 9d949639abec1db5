use vstd::prelude::*;
use crate::bits::{
    bit, lemma_bit_and, lemma_bit_not, lemma_bit_or, lemma_bit_rotl, lemma_bit_single, lemma_bit_zero,
    lemma_clear_lowest, ones, popcount, rotate, rotl,
};

verus! {

#[derive(PartialEq, Eq, Structural, Clone, Copy, Debug)]
pub enum Mode {
    Ai,
    Human,
}

/// What the interface asks of the game logic.
pub enum Message {
    AiMode,
    HumanMode,
    StartGame(Player),
    EndGame,
    Clicked(usize),
    SetDifficulty(u32),
    NoMessage,
}

#[derive(PartialEq, Eq, Structural, Clone, Copy, Debug)]
pub enum ShowPiece {
    Piece(usize),
    NoPiece,
}

#[derive(PartialEq, Eq, Structural, Clone, Copy, Debug)]
pub enum Player {
    Black,
    White,
    Ai,
    Human,
    NoPlayer,
}

/// A move of the piece on square `from` to square `to`, jumping over `capture` if any.
#[derive(PartialEq, Eq, Structural, Clone, Copy, Debug)]
pub struct Piece {
    pub from: u8,
    pub to: u8,
    pub capture: Option<u8>,
}

impl Piece {
    /// Every square a move names lies on the board.
    pub open spec fn wf(self) -> bool {
        &&& self.from < 32
        &&& self.to < 32
        &&& (self.capture matches Some(c) ==> c < 32)
    }
}

/// The position: one bit per playable square for each colour and for kings.
#[derive(Clone, Copy, Debug)]
pub struct Board {
    pub white_pieces: u32,
    pub black_pieces: u32,
    pub kings: u32,
    pub mid_jump_idx: Option<u8>,
}

pub const NOT_LEFT_EDGE: u32 = 0xFBFBFBFB;

pub const NOT_RIGHT_EDGE: u32 = 0xFDFDFDFD;

/// Row 0, where white men are crowned.
pub const WHITE_PROMOTION_ROW: u32 = 0x82000820;

/// Row 7, where black men are crowned.
pub const BLACK_PROMOTION_ROW: u32 = 0x00041041;

pub const WHITE_START: u32 = 0x041C71C3;

pub const BLACK_START: u32 = 0xE3820C38;

/// The four diagonal directions a piece can move in.
pub enum Dir {
    UpLeft,
    UpRight,
    DownLeft,
    DownRight,
}

impl Board {
    /// A jump in progress names a square of the board.
    pub open spec fn wf(self) -> bool {
        self.mid_jump_idx matches Some(i) ==> i < 32
    }

    /// The starting position.
    pub open spec fn initial() -> Board {
        Board { white_pieces: WHITE_START, black_pieces: BLACK_START, kings: 0, mid_jump_idx: None }
    }
}

/// White and the human player move up the board; black and the AI move down.
pub open spec fn is_white_side(p: Player) -> bool {
    p == Player::White || p == Player::Human
}

pub open spec fn own_pieces(b: Board, p: Player) -> u32 {
    if is_white_side(p) {
        b.white_pieces
    } else {
        b.black_pieces
    }
}

pub open spec fn opponent_pieces(b: Board, p: Player) -> u32 {
    if is_white_side(p) {
        b.black_pieces
    } else {
        b.white_pieces
    }
}

pub open spec fn is_up(d: Dir) -> bool {
    d is UpLeft || d is UpRight
}

/// How far the bit index of a square moves (modulo 32) when stepping in direction `d`.
pub open spec fn dir_shift(d: Dir) -> u32 {
    match d {
        Dir::UpLeft => 7,
        Dir::UpRight => 1,
        Dir::DownLeft => 31,
        Dir::DownRight => 25,
    }
}

/// The squares that have a neighbour in direction `d`.
pub open spec fn dir_src(d: Dir) -> u32 {
    match d {
        Dir::UpLeft => NOT_LEFT_EDGE & !WHITE_PROMOTION_ROW,
        Dir::UpRight => NOT_RIGHT_EDGE & !WHITE_PROMOTION_ROW,
        Dir::DownLeft => NOT_LEFT_EDGE & !BLACK_PROMOTION_ROW,
        Dir::DownRight => NOT_RIGHT_EDGE & !BLACK_PROMOTION_ROW,
    }
}

/// The square from which a step in direction `d` reaches `t`.
pub open spec fn back(d: Dir, t: u32) -> u32 {
    ((t + 32 - dir_shift(d)) % 32) as u32
}

/// The piece on `s` belongs to `p` and may move now (during a multi-jump only the jumping piece may).
pub open spec fn active(b: Board, p: Player, s: u32) -> bool {
    &&& bit(own_pieces(b, p), s)
    &&& match b.mid_jump_idx {
        Some(m) => m == s,
        None => true,
    }
}

/// The piece of `p` on `s` may step in direction `d`: men only forward, kings both ways,
/// and not off the board.
pub open spec fn may_go(b: Board, p: Player, d: Dir, s: u32) -> bool {
    &&& active(b, p, s)
    &&& (is_up(d) == is_white_side(p) || bit(b.kings, s))
    &&& bit(dir_src(d), s)
}

pub open spec fn vacant(b: Board, t: u32) -> bool {
    !bit(b.white_pieces, t) && !bit(b.black_pieces, t)
}

/// A plain move of `p` in direction `d` ends on `t`.
pub open spec fn step_lands(b: Board, p: Player, d: Dir, t: u32) -> bool {
    may_go(b, p, d, back(d, t)) && vacant(b, t)
}

/// A capture of `p` in direction `d` ends on `t`, jumping over an opponent's piece.
pub open spec fn jump_lands(b: Board, p: Player, d: Dir, t: u32) -> bool {
    let c = back(d, t);
    &&& may_go(b, p, d, back(d, c))
    &&& bit(opponent_pieces(b, p), c)
    &&& bit(dir_src(d), c)
    &&& vacant(b, t)
}

#[verifier::opaque]
pub open spec fn lands(b: Board, p: Player, d: Dir, jump: bool, t: u32) -> bool {
    if jump {
        jump_lands(b, p, d, t)
    } else {
        step_lands(b, p, d, t)
    }
}

/// The move in direction `d` that ends on `t`.
pub open spec fn move_to(d: Dir, jump: bool, t: u32) -> Piece {
    if jump {
        Piece { from: back(d, back(d, t)) as u8, to: t as u8, capture: Some(back(d, t) as u8) }
    } else {
        Piece { from: back(d, t) as u8, to: t as u8, capture: None }
    }
}

/// The moves of `p` in direction `d` that end on squares `0..n`, by increasing end square.
pub open spec fn dir_moves(b: Board, p: Player, d: Dir, jump: bool, n: nat) -> Seq<Piece>
    decreases n,
{
    if n == 0 {
        Seq::empty()
    } else {
        let prev = dir_moves(b, p, d, jump, (n - 1) as nat);
        let t = (n - 1) as u32;
        if lands(b, p, d, jump, t) {
            prev.push(move_to(d, jump, t))
        } else {
            prev
        }
    }
}

/// All captures (or all plain moves) of `p`: up-left, up-right, down-left, then down-right.
pub open spec fn all_moves(b: Board, p: Player, jump: bool) -> Seq<Piece> {
    dir_moves(b, p, Dir::UpLeft, jump, 32) + dir_moves(b, p, Dir::UpRight, jump, 32) + dir_moves(
        b,
        p,
        Dir::DownLeft,
        jump,
        32,
    ) + dir_moves(b, p, Dir::DownRight, jump, 32)
}

/// The legal moves of `p`: captures are compulsory; during a multi-jump only further
/// captures by the jumping piece are allowed.
pub open spec fn legal_moves(b: Board, p: Player) -> Seq<Piece> {
    let jumps = all_moves(b, p, true);
    if jumps.len() > 0 {
        jumps
    } else if b.mid_jump_idx is Some {
        Seq::empty()
    } else {
        all_moves(b, p, false)
    }
}

/// The move ending on `t` in a direction whose step moves a bit index by `32 - cap` (modulo 32).
pub open spec fn landing_piece(cap: u8, jump: bool, t: u32) -> Piece {
    if jump {
        Piece { from: ((t + 2 * cap) % 32) as u8, to: t as u8, capture: Some(((t + cap) % 32) as u8) }
    } else {
        Piece { from: ((t + cap) % 32) as u8, to: t as u8, capture: None }
    }
}

/// The moves ending on the set squares of `land` below `n`, by increasing end square.
pub open spec fn landing_list(land: u32, cap: u8, jump: bool, n: nat) -> Seq<Piece>
    decreases n,
{
    if n == 0 {
        Seq::empty()
    } else {
        let prev = landing_list(land, cap, jump, (n - 1) as nat);
        let t = (n - 1) as u32;
        if bit(land, t) {
            prev.push(landing_piece(cap, jump, t))
        } else {
            prev
        }
    }
}

proof fn lemma_landing_piece(d: Dir, jump: bool, cap: u8, t: u32)
    requires
        t < 32,
        cap == 32 - dir_shift(d),
    ensures
        landing_piece(cap, jump, t) == move_to(d, jump, t),
{
    assert(back(d, t) == (t + cap) % 32);
    assert(back(d, back(d, t)) == (t + 2 * cap) % 32);
}

proof fn lemma_landing_skip(land: u32, cap: u8, jump: bool, a: nat, b: nat)
    requires
        a <= b <= 32,
        forall|i: u32| a <= i < b ==> !bit(land, i),
    ensures
        landing_list(land, cap, jump, b) == landing_list(land, cap, jump, a),
    decreases b,
{
    if b > a {
        lemma_landing_skip(land, cap, jump, a, (b - 1) as nat);
        assert(!bit(land, (b - 1) as u32));
    }
}

proof fn lemma_landing_dir(b: Board, p: Player, d: Dir, jump: bool, land: u32, cap: u8, n: nat)
    requires
        n <= 32,
        cap == 32 - dir_shift(d),
        forall|t: u32| t < 32 ==> #[trigger] bit(land, t) == lands(b, p, d, jump, t),
    ensures
        landing_list(land, cap, jump, n) == dir_moves(b, p, d, jump, n),
    decreases n,
{
    if n > 0 {
        lemma_landing_dir(b, p, d, jump, land, cap, (n - 1) as nat);
        let t = (n - 1) as u32;
        assert(bit(land, t) == lands(b, p, d, jump, t));
        lemma_landing_piece(d, jump, cap, t);
    }
}

/// The move ending on `to`, with its start and jumped square found by wrapping offsets.
fn make_piece(to: u8, from_add: u8, cap_add: u8, jump: bool) -> (piece: Piece)
    requires
        to < 32,
        cap_add < 32,
        from_add == if jump {
            (2 * cap_add) % 32
        } else {
            cap_add as int
        },
    ensures
        piece == landing_piece(cap_add, jump, to as u32),
{
    let from_sum: u8 = to + from_add;
    let cap_sum: u8 = to + cap_add;
    assert(from_sum & 31 == from_sum % 32) by (bit_vector);
    assert(cap_sum & 31 == cap_sum % 32) by (bit_vector);
    assert(jump ==> (to + from_add) % 32 == (to + 2 * cap_add) % 32) by {
        if jump {
            if 2 * cap_add >= 32 {
                assert(from_add == 2 * cap_add - 32);
            }
        }
    }
    if jump {
        Piece { from: from_sum & 31, to, capture: Some(cap_sum & 31) }
    } else {
        Piece { from: from_sum & 31, to, capture: None }
    }
}

/// Appends the moves ending on the set squares of `land`, by increasing end square.
fn push_landings(out: &mut Vec<Piece>, land: u32, from_add: u8, cap_add: u8, jump: bool)
    requires
        cap_add < 32,
        from_add == if jump {
            (2 * cap_add) % 32
        } else {
            cap_add as int
        },
    ensures
        final(out)@ == old(out)@ + landing_list(land, cap_add, jump, 32),
{
    let ghost start = out@;
    let mut rest = land;
    let ghost mut lo: u32 = 0;
    while rest != 0
        invariant
            lo <= 32,
            cap_add < 32,
            from_add == if jump {
                (2 * cap_add) % 32
            } else {
                cap_add as int
            },
            forall|i: u32| i < 32 ==> #[trigger] bit(rest, i) == (lo <= i && bit(land, i)),
            out@ == start + landing_list(land, cap_add, jump, lo as nat),
        decreases rest,
    {
        let tz = rest.trailing_zeros();
        let ghost old_rest = rest;
        let ghost old_out = out@;
        proof {
            lemma_clear_lowest(rest, 0);
            assert(tz >= lo) by {
                if tz < lo {
                    assert(bit(rest, tz));
                }
            }
            assert forall|i: u32| lo <= i < tz implies !bit(land, i) by {
                lemma_clear_lowest(rest, i);
                assert(bit(rest, i) == (lo <= i && bit(land, i)));
            }
            lemma_landing_skip(land, cap_add, jump, lo as nat, tz as nat);
            assert(bit(land, tz));
        }
        let to = tz as u8;
        let piece = make_piece(to, from_add, cap_add, jump);
        out.push(piece);
        rest = rest & (rest - 1);
        proof {
            assert(landing_list(land, cap_add, jump, (tz + 1) as nat) == landing_list(
                land,
                cap_add,
                jump,
                tz as nat,
            ).push(landing_piece(cap_add, jump, tz)));
            assert(out@ == start + landing_list(land, cap_add, jump, (tz + 1) as nat));
            assert forall|i: u32| i < 32 implies #[trigger] bit(rest, i) == ((tz + 1) <= i && bit(
                land,
                i,
            )) by {
                lemma_clear_lowest(old_rest, i);
                assert(bit(old_rest, i) == (lo <= i && bit(land, i)));
            }
            lo = (tz + 1) as u32;
        }
    }
    proof {
        assert forall|i: u32| lo <= i < 32 implies !bit(land, i) by {
            lemma_bit_zero(i);
        }
        lemma_landing_skip(land, cap_add, jump, lo as nat, 32);
    }
}

/// The squares from which the active pieces of `p` may move in direction `d`
/// (before looking at the board's edges).
pub open spec fn movers(b: Board, p: Player, d: Dir) -> u32 {
    let own = own_pieces(b, p);
    let active = match b.mid_jump_idx {
        None => own,
        Some(i) => own & (1u32 << i),
    };
    if is_up(d) == is_white_side(p) {
        active
    } else {
        active & b.kings
    }
}

/// Every bit of `y` moved one step in direction `d`, dropping those that would leave the board.
pub open spec fn step_mask(d: Dir, y: u32) -> u32 {
    rotl(y & dir_src(d), dir_shift(d))
}

/// The squares on which a move of `p` in direction `d` ends, computed on whole bitboards.
pub open spec fn land_mask(b: Board, p: Player, d: Dir, jump: bool) -> u32 {
    let empty = !(b.white_pieces | b.black_pieces);
    if jump {
        step_mask(d, step_mask(d, movers(b, p, d)) & opponent_pieces(b, p)) & empty
    } else {
        step_mask(d, movers(b, p, d)) & empty
    }
}

proof fn lemma_back_range(d: Dir, t: u32)
    requires
        t < 32,
    ensures
        back(d, t) < 32,
{
}

proof fn lemma_step_mask(d: Dir, y: u32, t: u32)
    requires
        t < 32,
    ensures
        bit(step_mask(d, y), t) == (bit(y, back(d, t)) && bit(dir_src(d), back(d, t))),
{
    lemma_bit_rotl(y & dir_src(d), dir_shift(d), t);
    lemma_bit_and(y, dir_src(d), back(d, t));
}

proof fn lemma_movers(b: Board, p: Player, d: Dir, s: u32)
    requires
        b.wf(),
        s < 32,
    ensures
        (bit(movers(b, p, d), s) && bit(dir_src(d), s)) == may_go(b, p, d, s),
{
    let own = own_pieces(b, p);
    let active = match b.mid_jump_idx {
        None => own,
        Some(i) => own & (1u32 << i),
    };
    match b.mid_jump_idx {
        None => {},
        Some(i) => {
            lemma_bit_and(own, 1u32 << i, s);
            lemma_bit_single(i as u32, s);
        },
    }
    lemma_bit_and(active, b.kings, s);
}

proof fn lemma_land_mask(b: Board, p: Player, d: Dir, jump: bool, t: u32)
    requires
        b.wf(),
        t < 32,
    ensures
        bit(land_mask(b, p, d, jump), t) == lands(b, p, d, jump, t),
{
    reveal(lands);
    let empty = !(b.white_pieces | b.black_pieces);
    let c = back(d, t);
    let s = back(d, c);
    lemma_back_range(d, t);
    lemma_back_range(d, c);
    lemma_bit_not(b.white_pieces | b.black_pieces, t);
    lemma_bit_or(b.white_pieces, b.black_pieces, t);
    lemma_movers(b, p, d, c);
    lemma_movers(b, p, d, s);
    if jump {
        let y = step_mask(d, movers(b, p, d)) & opponent_pieces(b, p);
        lemma_bit_and(step_mask(d, y), empty, t);
        lemma_step_mask(d, y, t);
        lemma_bit_and(step_mask(d, movers(b, p, d)), opponent_pieces(b, p), c);
        lemma_step_mask(d, movers(b, p, d), c);
    } else {
        lemma_bit_and(step_mask(d, movers(b, p, d)), empty, t);
        lemma_step_mask(d, movers(b, p, d), t);
    }
}

proof fn lemma_dir_list(b: Board, p: Player, d: Dir, jump: bool, cap: u8)
    requires
        b.wf(),
        cap == 32 - dir_shift(d),
    ensures
        landing_list(land_mask(b, p, d, jump), cap, jump, 32) == dir_moves(b, p, d, jump, 32),
{
    assert forall|t: u32| t < 32 implies #[trigger] bit(land_mask(b, p, d, jump), t) == lands(
        b,
        p,
        d,
        jump,
        t,
    ) by {
        lemma_land_mask(b, p, d, jump, t);
    }
    lemma_landing_dir(b, p, d, jump, land_mask(b, p, d, jump), cap, 32);
}

impl Board {
    /// The legal moves of `player`, in a fixed order: captures (compulsory when any exist)
    /// up-left, up-right, down-left, down-right, each by increasing end square; then, when
    /// there is no capture and no jump in progress, the plain moves in the same order.
    pub fn get_legal_moves(&self, player: &Player) -> (moves: Vec<Piece>)
        requires
            self.wf(),
            *player != Player::NoPlayer,
        ensures
            moves@ == legal_moves(*self, *player),
    {
        let (my_pieces, opp_pieces, is_white) = match player {
            Player::Human | Player::White => (self.white_pieces, self.black_pieces, true),
            _ => (self.black_pieces, self.white_pieces, false),
        };
        let empty = !(self.white_pieces | self.black_pieces);
        let active_pieces = match self.mid_jump_idx {
            None => my_pieces,
            Some(idx) => my_pieces & (1u32 << idx),
        };
        let my_kings = active_pieces & self.kings;
        let up_movers = if is_white {
            active_pieces
        } else {
            my_kings
        };
        let down_movers = if is_white {
            my_kings
        } else {
            active_pieces
        };
        let ul_src = NOT_LEFT_EDGE & !WHITE_PROMOTION_ROW;
        let ur_src = NOT_RIGHT_EDGE & !WHITE_PROMOTION_ROW;
        let dl_src = NOT_LEFT_EDGE & !BLACK_PROMOTION_ROW;
        let dr_src = NOT_RIGHT_EDGE & !BLACK_PROMOTION_ROW;
        let ghost b = *self;
        let ghost p = *player;
        assert(up_movers == movers(b, p, Dir::UpLeft));
        assert(up_movers == movers(b, p, Dir::UpRight));
        assert(down_movers == movers(b, p, Dir::DownLeft));
        assert(down_movers == movers(b, p, Dir::DownRight));
        proof {
            lemma_dir_list(b, p, Dir::UpLeft, true, 25);
            lemma_dir_list(b, p, Dir::UpRight, true, 31);
            lemma_dir_list(b, p, Dir::DownLeft, true, 1);
            lemma_dir_list(b, p, Dir::DownRight, true, 7);
        }

        let mut jumps: Vec<Piece> = Vec::with_capacity(8);
        // up-left: from = to - 14, over to - 7
        let land = rotate(rotate(up_movers & ul_src, 7) & opp_pieces & ul_src, 7) & empty;
        assert(land == land_mask(b, p, Dir::UpLeft, true));
        push_landings(&mut jumps, land, 18, 25, true);
        // up-right: from = to - 2, over to - 1
        let land = rotate(rotate(up_movers & ur_src, 1) & opp_pieces & ur_src, 1) & empty;
        assert(land == land_mask(b, p, Dir::UpRight, true));
        push_landings(&mut jumps, land, 30, 31, true);
        // down-left: from = to + 2, over to + 1
        let land = rotate(rotate(down_movers & dl_src, 31) & opp_pieces & dl_src, 31) & empty;
        assert(land == land_mask(b, p, Dir::DownLeft, true));
        push_landings(&mut jumps, land, 2, 1, true);
        // down-right: from = to + 14, over to + 7
        let land = rotate(rotate(down_movers & dr_src, 25) & opp_pieces & dr_src, 25) & empty;
        assert(land == land_mask(b, p, Dir::DownRight, true));
        push_landings(&mut jumps, land, 14, 7, true);
        assert(jumps@ == all_moves(b, p, true));

        // Captures are compulsory.
        if jumps.len() > 0 {
            return jumps;
        }
        if self.mid_jump_idx.is_some() {
            return Vec::new();
        }
        proof {
            lemma_dir_list(b, p, Dir::UpLeft, false, 25);
            lemma_dir_list(b, p, Dir::UpRight, false, 31);
            lemma_dir_list(b, p, Dir::DownLeft, false, 1);
            lemma_dir_list(b, p, Dir::DownRight, false, 7);
        }
        let mut moves: Vec<Piece> = Vec::with_capacity(16);
        let land = rotate(up_movers & ul_src, 7) & empty;
        assert(land == land_mask(b, p, Dir::UpLeft, false));
        push_landings(&mut moves, land, 25, 25, false);
        let land = rotate(up_movers & ur_src, 1) & empty;
        assert(land == land_mask(b, p, Dir::UpRight, false));
        push_landings(&mut moves, land, 31, 31, false);
        let land = rotate(down_movers & dl_src, 31) & empty;
        assert(land == land_mask(b, p, Dir::DownLeft, false));
        push_landings(&mut moves, land, 1, 1, false);
        let land = rotate(down_movers & dr_src, 25) & empty;
        assert(land == land_mask(b, p, Dir::DownRight, false));
        push_landings(&mut moves, land, 7, 7, false);
        assert(moves@ == all_moves(b, p, false));
        moves
    }
}

/// The score of a position (from black's, that is the AI's, side: a man counts 100 and a
/// king 75 more) and whether the side that `p` plays against has no piece left.
pub open spec fn evaluation(b: Board, p: Player) -> (i32, bool) {
    let white_count = ones(b.white_pieces) as int;
    let black_count = ones(b.black_pieces) as int;
    match p {
        Player::Ai => {
            let white_kings = ones(b.white_pieces & b.kings) as int;
            let black_kings = ones(b.black_pieces & b.kings) as int;
            (
                ((black_count - white_count) * 100 + (black_kings - white_kings) * 75) as i32,
                white_count == 0,
            )
        },
        Player::Human | Player::White => (0, black_count == 0),
        _ => (0, white_count == 0),
    }
}

/// The side that moves after `p`.
pub open spec fn next_player(p: Player) -> Player {
    match p {
        Player::White => Player::Black,
        Player::Black => Player::White,
        Player::Ai => Player::Human,
        Player::Human => Player::Ai,
        Player::NoPlayer => Player::NoPlayer,
    }
}

/// The row on which the men of `p` are crowned.
pub open spec fn promotion_row(p: Player) -> u32 {
    if is_white_side(p) {
        WHITE_PROMOTION_ROW
    } else {
        BLACK_PROMOTION_ROW
    }
}

/// Whether playing `piece` crowns a man of `p`.
pub open spec fn crowns(b: Board, piece: Piece, p: Player) -> bool {
    &&& b.kings & (1u32 << piece.from) == 0
    &&& (1u32 << piece.to) & promotion_row(p) != 0
}

/// The board after `p` plays `piece`: the piece leaves `from` for `to` (a king stays a king,
/// a man reaching its promotion row is crowned) and whatever stood on the captured square
/// is removed. The jump in progress is left as it was.
pub open spec fn after_move(b: Board, piece: Piece, p: Player) -> Board {
    let old_bit = 1u32 << piece.from;
    let new_bit = 1u32 << piece.to;
    let move_mask = old_bit | new_bit;
    let white = if is_white_side(p) {
        b.white_pieces ^ move_mask
    } else {
        b.white_pieces
    };
    let black = if is_white_side(p) {
        b.black_pieces
    } else {
        b.black_pieces ^ move_mask
    };
    let kings = if b.kings & old_bit != 0 {
        b.kings ^ move_mask
    } else if crowns(b, piece, p) {
        b.kings | new_bit
    } else {
        b.kings
    };
    match piece.capture {
        Some(c) => Board {
            white_pieces: white & !(1u32 << c),
            black_pieces: black & !(1u32 << c),
            kings: kings & !(1u32 << c),
            mid_jump_idx: b.mid_jump_idx,
        },
        None => Board {
            white_pieces: white,
            black_pieces: black,
            kings: kings,
            mid_jump_idx: b.mid_jump_idx,
        },
    }
}

/// What one move leads to.
pub struct Outcome {
    pub board: Board,
    /// The legal moves of the side to move next.
    pub moves: Seq<Piece>,
    /// The side to move next.
    pub player: Player,
    pub score: i32,
    pub won: bool,
}

/// The outcome of `p` playing `piece`: after a capture that does not crown, the same piece
/// must go on jumping while it can; otherwise the turn passes to the other side. Score and
/// win are evaluated, for `p`, right after the move.
#[verifier::opaque]
pub open spec fn step_outcome(b: Board, piece: Piece, p: Player) -> Outcome {
    let moved = after_move(b, piece, p);
    let (score, won) = evaluation(moved, p);
    let done = Board { mid_jump_idx: None, ..moved };
    let pass = Outcome {
        board: done,
        moves: legal_moves(done, next_player(p)),
        player: next_player(p),
        score,
        won,
    };
    if piece.capture is Some && !crowns(b, piece, p) {
        let cont = Board { mid_jump_idx: Some(piece.to), ..moved };
        let extra = legal_moves(cont, p);
        if extra.len() == 0 {
            pass
        } else {
            Outcome { board: cont, moves: extra, player: p, score, won }
        }
    } else {
        pass
    }
}

impl Board {
    /// The starting position.
    pub fn new() -> (b: Self)
        ensures
            b == Board::initial(),
    {
        Self { white_pieces: WHITE_START, black_pieces: BLACK_START, kings: 0, mid_jump_idx: None }
    }

    /// Puts the pieces back to the starting position.
    pub fn reset(&mut self)
        ensures
            *final(self) == Board::initial(),
    {
        self.white_pieces = WHITE_START;
        self.black_pieces = BLACK_START;
        self.kings = 0;
        self.mid_jump_idx = None;
    }

    /// The material score of the position and whether the side `player` plays against has
    /// lost all its pieces.
    pub fn evaluate(&self, player: Player) -> (r: (i32, bool))
        requires
            player != Player::NoPlayer,
        ensures
            r == evaluation(*self, player),
    {
        let white_count = popcount(self.white_pieces) as i32;
        let black_count = popcount(self.black_pieces) as i32;
        match player {
            Player::Ai => {
                let white_kings = popcount(self.white_pieces & self.kings) as i32;
                let black_kings = popcount(self.black_pieces & self.kings) as i32;
                let score = (black_count - white_count) * 100 + (black_kings - white_kings) * 75;
                (score, white_count == 0)
            },
            Player::Human | Player::White => (0, black_count == 0),
            _ => (0, white_count == 0),
        }
    }

    /// Plays `piece` for `player`; returns whether a man was crowned.
    fn apply_move(&mut self, piece: &Piece, player: &Player) -> (crowned: bool)
        requires
            piece.wf(),
            *player != Player::NoPlayer,
        ensures
            crowned == crowns(*old(self), *piece, *player),
            *final(self) == after_move(*old(self), *piece, *player),
    {
        let old_piece = 1u32 << piece.from;
        let new_piece = 1u32 << piece.to;
        let move_mask = old_piece | new_piece;
        let mut crowned = false;
        match player {
            Player::Human | Player::White => self.white_pieces = self.white_pieces ^ move_mask,
            _ => self.black_pieces = self.black_pieces ^ move_mask,
        }
        if (self.kings & old_piece) != 0 {
            self.kings = self.kings ^ move_mask;
        } else {
            match player {
                Player::Human | Player::White => {
                    if (new_piece & WHITE_PROMOTION_ROW) != 0 {
                        self.kings = self.kings | new_piece;
                        crowned = true;
                    }
                },
                _ => {
                    if (new_piece & BLACK_PROMOTION_ROW) != 0 {
                        self.kings = self.kings | new_piece;
                        crowned = true;
                    }
                },
            }
        }
        match piece.capture {
            Some(capture) => {
                let capture_mask = !(1u32 << capture);
                self.white_pieces = self.white_pieces & capture_mask;
                self.black_pieces = self.black_pieces & capture_mask;
                self.kings = self.kings & capture_mask;
            },
            None => {},
        }
        crowned
    }

    /// Plays `piece` for `player` and returns the legal moves of the side to move next, that
    /// side, and the evaluation of the position for `player`.
    pub fn step(&mut self, piece: Piece, player: Player) -> (r: (Vec<Piece>, Player, i32, bool))
        requires
            old(self).wf(),
            piece.wf(),
            player != Player::NoPlayer,
        ensures
            *final(self) == step_outcome(*old(self), piece, player).board,
            r.0@ == step_outcome(*old(self), piece, player).moves,
            r.1 == step_outcome(*old(self), piece, player).player,
            r.2 == step_outcome(*old(self), piece, player).score,
            r.3 == step_outcome(*old(self), piece, player).won,
    {
        reveal(step_outcome);
        let crowned = self.apply_move(&piece, &player);
        let (score, won) = self.evaluate(player);
        if piece.capture.is_some() && !crowned {
            self.mid_jump_idx = Some(piece.to);
            let extra_jumps = self.get_legal_moves(&player);
            if extra_jumps.len() == 0 {
                self.mid_jump_idx = None;
                let nxt_player = match player {
                    Player::White => Player::Black,
                    Player::Black => Player::White,
                    Player::Ai => Player::Human,
                    _ => Player::Ai,
                };
                let nxt_legal_moves = self.get_legal_moves(&nxt_player);
                (nxt_legal_moves, nxt_player, score, won)
            } else {
                (extra_jumps, player, score, won)
            }
        } else {
            self.mid_jump_idx = None;
            let nxt_player = match player {
                Player::White => Player::Black,
                Player::Black => Player::White,
                Player::Ai => Player::Human,
                _ => Player::Ai,
            };
            let nxt_legal_moves = self.get_legal_moves(&nxt_player);
            (nxt_legal_moves, nxt_player, score, won)
        }
    }
}

proof fn lemma_dir_moves_wf(b: Board, p: Player, d: Dir, jump: bool, n: nat)
    requires
        n <= 32,
    ensures
        forall|i: int| 0 <= i < dir_moves(b, p, d, jump, n).len() ==> #[trigger] dir_moves(
            b,
            p,
            d,
            jump,
            n,
        )[i].wf(),
    decreases n,
{
    if n > 0 {
        lemma_dir_moves_wf(b, p, d, jump, (n - 1) as nat);
        let t = (n - 1) as u32;
        lemma_back_range(d, t);
        lemma_back_range(d, back(d, t));
        let prev = dir_moves(b, p, d, jump, (n - 1) as nat);
        let cur = dir_moves(b, p, d, jump, n);
        assert(move_to(d, jump, t).wf());
        assert forall|i: int| 0 <= i < cur.len() implies #[trigger] cur[i].wf() by {
            if i < prev.len() {
                assert(cur[i] == prev[i]);
            }
        }
    }
}

/// Every legal move names squares of the board.
pub proof fn lemma_legal_moves_wf(b: Board, p: Player)
    ensures
        forall|i: int| 0 <= i < legal_moves(b, p).len() ==> #[trigger] legal_moves(b, p)[i].wf(),
{
    lemma_dir_moves_wf(b, p, Dir::UpLeft, true, 32);
    lemma_dir_moves_wf(b, p, Dir::UpRight, true, 32);
    lemma_dir_moves_wf(b, p, Dir::DownLeft, true, 32);
    lemma_dir_moves_wf(b, p, Dir::DownRight, true, 32);
    lemma_dir_moves_wf(b, p, Dir::UpLeft, false, 32);
    lemma_dir_moves_wf(b, p, Dir::UpRight, false, 32);
    lemma_dir_moves_wf(b, p, Dir::DownLeft, false, 32);
    lemma_dir_moves_wf(b, p, Dir::DownRight, false, 32);
    let j = all_moves(b, p, true);
    let m = all_moves(b, p, false);
    assert forall|i: int| 0 <= i < j.len() implies #[trigger] j[i].wf() by {
        let a = dir_moves(b, p, Dir::UpLeft, true, 32);
        let bb = dir_moves(b, p, Dir::UpRight, true, 32);
        let c = dir_moves(b, p, Dir::DownLeft, true, 32);
        let d = dir_moves(b, p, Dir::DownRight, true, 32);
        if i < a.len() {
            assert(j[i] == a[i]);
        } else if i < a.len() + bb.len() {
            assert(j[i] == bb[i - a.len()]);
        } else if i < a.len() + bb.len() + c.len() {
            assert(j[i] == c[i - a.len() - bb.len()]);
        } else {
            assert(j[i] == d[i - a.len() - bb.len() - c.len()]);
        }
    }
    assert forall|i: int| 0 <= i < m.len() implies #[trigger] m[i].wf() by {
        let a = dir_moves(b, p, Dir::UpLeft, false, 32);
        let bb = dir_moves(b, p, Dir::UpRight, false, 32);
        let c = dir_moves(b, p, Dir::DownLeft, false, 32);
        let d = dir_moves(b, p, Dir::DownRight, false, 32);
        if i < a.len() {
            assert(m[i] == a[i]);
        } else if i < a.len() + bb.len() {
            assert(m[i] == bb[i - a.len()]);
        } else if i < a.len() + bb.len() + c.len() {
            assert(m[i] == c[i - a.len() - bb.len()]);
        } else {
            assert(m[i] == d[i - a.len() - bb.len() - c.len()]);
        }
    }
}

/// A move leaves a well-formed board, and the next side's moves name squares of the board.
pub proof fn lemma_step_outcome_wf(b: Board, piece: Piece, p: Player)
    requires
        piece.wf(),
        p != Player::NoPlayer,
    ensures
        step_outcome(b, piece, p).board.wf(),
        step_outcome(b, piece, p).player != Player::NoPlayer,
        forall|i: int|
            0 <= i < step_outcome(b, piece, p).moves.len() ==> #[trigger] step_outcome(
                b,
                piece,
                p,
            ).moves[i].wf(),
{
    reveal(step_outcome);
    let moved = after_move(b, piece, p);
    let done = Board { mid_jump_idx: None, ..moved };
    let cont = Board { mid_jump_idx: Some(piece.to), ..moved };
    lemma_legal_moves_wf(done, next_player(p));
    lemma_legal_moves_wf(cont, p);
}

/// The interface state, as plain values.
pub struct AppView {
    pub mode: Mode,
    pub player: Player,
    pub depth: u32,
    pub legal_moves: Seq<Piece>,
    pub selected_piece: ShowPiece,
    pub last_piece: ShowPiece,
    pub dots: Seq<ShowPiece>,
    pub won: bool,
}

/// The state of the game as the interface sees it.
pub struct App {
    pub mode: Mode,
    pub player: Player,
    pub depth: u32,
    pub legal_moves: Vec<Piece>,
    /// The piece picked for moving.
    pub selected_piece: ShowPiece,
    pub last_piece: ShowPiece,
    /// The squares the selected piece can move to.
    pub dots: Vec<ShowPiece>,
    pub won: bool,
}

impl View for App {
    type V = AppView;

    open spec fn view(&self) -> AppView {
        AppView {
            mode: self.mode,
            player: self.player,
            depth: self.depth,
            legal_moves: self.legal_moves@,
            selected_piece: self.selected_piece,
            last_piece: self.last_piece,
            dots: self.dots@,
            won: self.won,
        }
    }
}

impl AppView {
    /// The state of a new game against the AI.
    pub open spec fn initial() -> AppView {
        AppView {
            mode: Mode::Ai,
            player: Player::NoPlayer,
            depth: 0,
            legal_moves: Seq::empty(),
            selected_piece: ShowPiece::NoPiece,
            last_piece: ShowPiece::NoPiece,
            dots: Seq::empty(),
            won: false,
        }
    }

    /// No game running: mode and search depth are kept, everything else is cleared.
    pub open spec fn cleared(self) -> AppView {
        AppView {
            player: Player::NoPlayer,
            legal_moves: Seq::empty(),
            selected_piece: ShowPiece::NoPiece,
            last_piece: ShowPiece::NoPiece,
            dots: Seq::empty(),
            won: false,
            ..self
        }
    }

    /// Squares are shown as targets only while a game runs, and the stored moves name
    /// squares of the board.
    pub open spec fn wf(self) -> bool {
        &&& (self.player == Player::NoPlayer ==> self.dots.len() == 0)
        &&& forall|i: int| 0 <= i < self.legal_moves.len() ==> #[trigger] self.legal_moves[i].wf()
    }
}

impl App {
    pub fn new() -> (app: Self)
        ensures
            app@ == AppView::initial(),
    {
        Self {
            mode: Mode::Ai,
            player: Player::NoPlayer,
            depth: 0,
            legal_moves: Vec::new(),
            selected_piece: ShowPiece::NoPiece,
            last_piece: ShowPiece::NoPiece,
            dots: Vec::new(),
            won: false,
        }
    }

    /// Ends the current game, keeping the mode and search depth.
    pub fn reset(&mut self)
        ensures
            final(self)@ == old(self)@.cleared(),
    {
        self.player = Player::NoPlayer;
        self.legal_moves = Vec::new();
        self.selected_piece = ShowPiece::NoPiece;
        self.last_piece = ShowPiece::NoPiece;
        self.dots = Vec::new();
        self.won = false;
    }
}

} // verus!
