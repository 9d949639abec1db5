use vstd::prelude::*;
use crate::bits::{lemma_ones_below_bound, ones};
use crate::components::{
    evaluation, lemma_step_outcome_wf, step_outcome, Board, Piece, Player,
};

verus! {

/// The score of a position where the search stops, from the AI's side.
pub open spec fn leaf_score(b: Board) -> int {
    evaluation(b, Player::Ai).0 as int
}

/// The plain minimax value of a position with `moves` for `p` to play, searched `depth`
/// moves deep; `root` is the side whose score is maximised.
pub open spec fn minimax_value(b: Board, p: Player, moves: Seq<Piece>, depth: nat, root: Player) -> int
    decreases depth, 1nat, 0nat,
{
    if depth == 0 || moves.len() == 0 {
        leaf_score(b)
    } else {
        prefix_value(b, p, moves, depth, root, moves.len())
    }
}

/// The best of the values of the first `k` moves: the largest when `p` is `root`, else the
/// smallest (starting from the least, or greatest, `i32`).
pub open spec fn prefix_value(
    b: Board,
    p: Player,
    moves: Seq<Piece>,
    depth: nat,
    root: Player,
    k: nat,
) -> int
    decreases depth, 0nat, k,
{
    if depth == 0 {
        leaf_score(b)
    } else if k == 0 {
        if p == root {
            i32::MIN as int
        } else {
            i32::MAX as int
        }
    } else {
        let prev = prefix_value(b, p, moves, depth, root, (k - 1) as nat);
        let o = step_outcome(b, moves[k - 1], p);
        let c = minimax_value(o.board, o.player, o.moves, (depth - 1) as nat, root);
        if p == root {
            if c > prev {
                c
            } else {
                prev
            }
        } else {
            if c < prev {
                c
            } else {
                prev
            }
        }
    }
}

/// The minimax value of the position that playing `m` leads to.
pub open spec fn child_value(b: Board, p: Player, m: Piece, depth: nat, root: Player) -> int {
    let o = step_outcome(b, m, p);
    minimax_value(o.board, o.player, o.moves, (depth - 1) as nat, root)
}

/// Alpha-beta search in the window `alpha..beta`: the score found and the move that
/// first reached it.
pub open spec fn ab_search(
    b: Board,
    p: Player,
    moves: Seq<Piece>,
    depth: nat,
    alpha: int,
    beta: int,
    root: Player,
) -> (int, Option<Piece>)
    decreases depth, 1nat, 0nat,
{
    if depth == 0 || moves.len() == 0 {
        (leaf_score(b), None)
    } else {
        ab_loop(
            b,
            p,
            moves,
            depth,
            root,
            0,
            alpha,
            beta,
            if p == root {
                i32::MIN as int
            } else {
                i32::MAX as int
            },
            None,
        )
    }
}

/// Alpha-beta search over the moves from the `i`-th on, with the window and the best
/// score and move so far; stops as soon as the window closes.
pub open spec fn ab_loop(
    b: Board,
    p: Player,
    moves: Seq<Piece>,
    depth: nat,
    root: Player,
    i: nat,
    alpha: int,
    beta: int,
    best: int,
    best_move: Option<Piece>,
) -> (int, Option<Piece>)
    decreases depth, 0nat, moves.len() - i,
{
    if depth == 0 || i >= moves.len() {
        (best, best_move)
    } else {
        let m = moves[i as int];
        let o = step_outcome(b, m, p);
        let s = ab_search(o.board, o.player, o.moves, (depth - 1) as nat, alpha, beta, root).0;
        let maxing = p == root;
        let improved = if maxing {
            s > best
        } else {
            s < best
        };
        let best2 = if improved {
            s
        } else {
            best
        };
        let move2 = if improved {
            Some(m)
        } else {
            best_move
        };
        let alpha2 = if maxing && best2 > alpha {
            best2
        } else {
            alpha
        };
        let beta2 = if !maxing && best2 < beta {
            best2
        } else {
            beta
        };
        if beta2 <= alpha2 {
            (best2, move2)
        } else {
            ab_loop(b, p, moves, depth, root, i + 1, alpha2, beta2, best2, move2)
        }
    }
}

pub open spec fn clamp(x: int, lo: int, hi: int) -> int {
    if x < lo {
        lo
    } else if x > hi {
        hi
    } else {
        x
    }
}

/// `f` is the first of the first `n` moves whose value is the best of them.
pub open spec fn is_first_best(
    b: Board,
    p: Player,
    moves: Seq<Piece>,
    depth: nat,
    root: Player,
    f: int,
    n: nat,
) -> bool {
    &&& 0 <= f < n
    &&& child_value(b, p, moves[f], depth, root) == prefix_value(b, p, moves, depth, root, n)
    &&& forall|j: int|
        0 <= j < f ==> #[trigger] child_value(b, p, moves[j], depth, root) < prefix_value(
            b,
            p,
            moves,
            depth,
            root,
            n,
        )
}

/// A position's score lies within the material that 32 squares can hold.
pub proof fn lemma_leaf_bounds(b: Board)
    ensures
        -5600 <= leaf_score(b) <= 5600,
{
    lemma_ones_below_bound(b.white_pieces, 32);
    lemma_ones_below_bound(b.black_pieces, 32);
    lemma_ones_below_bound(b.white_pieces & b.kings, 32);
    lemma_ones_below_bound(b.black_pieces & b.kings, 32);
    let w = ones(b.white_pieces) as int;
    let bl = ones(b.black_pieces) as int;
    let wk = ones(b.white_pieces & b.kings) as int;
    let bk = ones(b.black_pieces & b.kings) as int;
    assert(-3200 <= (bl - w) * 100 <= 3200) by (nonlinear_arith)
        requires
            0 <= w <= 32,
            0 <= bl <= 32,
    ;
    assert(-2400 <= (bk - wk) * 75 <= 2400) by (nonlinear_arith)
        requires
            0 <= wk <= 32,
            0 <= bk <= 32,
    ;
}

/// Minimax values are scores of positions.
pub proof fn lemma_value_bounds(b: Board, p: Player, moves: Seq<Piece>, depth: nat, root: Player)
    ensures
        -5600 <= minimax_value(b, p, moves, depth, root) <= 5600,
    decreases depth, 1nat, 0nat,
{
    if depth == 0 || moves.len() == 0 {
        lemma_leaf_bounds(b);
    } else {
        lemma_prefix_bounds(b, p, moves, depth, root, moves.len());
    }
}

proof fn lemma_prefix_bounds(b: Board, p: Player, moves: Seq<Piece>, depth: nat, root: Player, k: nat)
    requires
        depth > 0,
        k >= 1,
    ensures
        -5600 <= prefix_value(b, p, moves, depth, root, k) <= 5600,
    decreases depth, 0nat, k,
{
    let o = step_outcome(b, moves[k - 1], p);
    lemma_value_bounds(o.board, o.player, o.moves, (depth - 1) as nat, root);
    let c = minimax_value(o.board, o.player, o.moves, (depth - 1) as nat, root);
    let prev = prefix_value(b, p, moves, depth, root, (k - 1) as nat);
    if k > 1 {
        lemma_prefix_bounds(b, p, moves, depth, root, (k - 1) as nat);
    } else {
        assert(prev == if p == root { i32::MIN as int } else { i32::MAX as int });
    }
    assert(prefix_value(b, p, moves, depth, root, k) == if p == root {
        if c > prev { c } else { prev }
    } else {
        if c < prev { c } else { prev }
    });
}

/// The best of more moves is at least as good, and at least as good as each of them.
proof fn lemma_prefix_mono(b: Board, p: Player, moves: Seq<Piece>, depth: nat, root: Player, j: nat, k: nat)
    requires
        depth > 0,
        j <= k,
    ensures
        p == root ==> prefix_value(b, p, moves, depth, root, j) <= prefix_value(b, p, moves, depth, root, k),
        p != root ==> prefix_value(b, p, moves, depth, root, j) >= prefix_value(b, p, moves, depth, root, k),
        j < k && p == root ==> child_value(b, p, moves[j as int], depth, root) <= prefix_value(b, p, moves, depth, root, k),
        j < k && p != root ==> child_value(b, p, moves[j as int], depth, root) >= prefix_value(b, p, moves, depth, root, k),
    decreases k,
{
    if j < k {
        lemma_prefix_mono(b, p, moves, depth, root, j, (k - 1) as nat);
        if j < k - 1 {
            lemma_prefix_mono(b, p, moves, depth, root, (j + 1) as nat, (k - 1) as nat);
        }
    }
}

proof fn lemma_clamp_max_step(alpha0: int, beta0: int, a: int, best: int, s: int, c: int, prev: int)
    requires
        alpha0 < beta0,
        a == if best > alpha0 { best } else { alpha0 },
        a < beta0,
        clamp(best, alpha0, beta0) == clamp(prev, alpha0, beta0),
        clamp(s, a, beta0) == clamp(c, a, beta0),
    ensures
        ({
            let best2 = if s > best { s } else { best };
            let a2 = if best2 > a { best2 } else { a };
            &&& clamp(best2, alpha0, beta0) == clamp(if c > prev { c } else { prev }, alpha0, beta0)
            &&& a2 == if best2 > alpha0 { best2 } else { alpha0 }
            &&& (beta0 <= a2 ==> clamp(best2, alpha0, beta0) == beta0)
        }),
{
}

proof fn lemma_clamp_min_step(alpha0: int, beta0: int, bt: int, best: int, s: int, c: int, prev: int)
    requires
        alpha0 < beta0,
        bt == if best < beta0 { best } else { beta0 },
        alpha0 < bt,
        clamp(best, alpha0, beta0) == clamp(prev, alpha0, beta0),
        clamp(s, alpha0, bt) == clamp(c, alpha0, bt),
    ensures
        ({
            let best2 = if s < best { s } else { best };
            let b2 = if best2 < bt { best2 } else { bt };
            &&& clamp(best2, alpha0, beta0) == clamp(if c < prev { c } else { prev }, alpha0, beta0)
            &&& b2 == if best2 < beta0 { best2 } else { beta0 }
            &&& (b2 <= alpha0 ==> clamp(best2, alpha0, beta0) == alpha0)
        }),
{
}

/// Alpha-beta search agrees with minimax inside the window: clamped to `alpha..beta`, the
/// score it finds is the minimax value.
pub proof fn lemma_ab_window(
    b: Board,
    p: Player,
    moves: Seq<Piece>,
    depth: nat,
    root: Player,
    alpha: int,
    beta: int,
)
    requires
        i32::MIN <= alpha < beta <= i32::MAX,
    ensures
        clamp(ab_search(b, p, moves, depth, alpha, beta, root).0, alpha, beta) == clamp(
            minimax_value(b, p, moves, depth, root),
            alpha,
            beta,
        ),
    decreases depth, 1nat, 0nat,
{
    if depth == 0 || moves.len() == 0 {
    } else {
        let init = if p == root {
            i32::MIN as int
        } else {
            i32::MAX as int
        };
        lemma_ab_loop_window(b, p, moves, depth, root, 0, alpha, beta, alpha, beta, init, None);
    }
}

proof fn lemma_ab_loop_window(
    b: Board,
    p: Player,
    moves: Seq<Piece>,
    depth: nat,
    root: Player,
    i: nat,
    alpha0: int,
    beta0: int,
    a: int,
    bt: int,
    best: int,
    bm: Option<Piece>,
)
    requires
        depth > 0,
        i <= moves.len(),
        i32::MIN <= alpha0 < beta0 <= i32::MAX,
        p == root ==> (bt == beta0 && a == (if best > alpha0 { best } else { alpha0 }) && a < beta0),
        p != root ==> (a == alpha0 && bt == (if best < beta0 { best } else { beta0 }) && alpha0 < bt),
        clamp(best, alpha0, beta0) == clamp(prefix_value(b, p, moves, depth, root, i), alpha0, beta0),
    ensures
        clamp(ab_loop(b, p, moves, depth, root, i, a, bt, best, bm).0, alpha0, beta0) == clamp(
            prefix_value(b, p, moves, depth, root, moves.len()),
            alpha0,
            beta0,
        ),
    decreases depth, 0nat, moves.len() - i,
{
    if i < moves.len() {
        let m = moves[i as int];
        let o = step_outcome(b, m, p);
        lemma_ab_window(o.board, o.player, o.moves, (depth - 1) as nat, root, a, bt);
        let s = ab_search(o.board, o.player, o.moves, (depth - 1) as nat, a, bt, root).0;
        let c = minimax_value(o.board, o.player, o.moves, (depth - 1) as nat, root);
        let prev = prefix_value(b, p, moves, depth, root, i);
        assert(prefix_value(b, p, moves, depth, root, i + 1) == if p == root {
            if c > prev { c } else { prev }
        } else {
            if c < prev { c } else { prev }
        });
        if p == root {
            lemma_clamp_max_step(alpha0, beta0, a, best, s, c, prev);
        } else {
            lemma_clamp_min_step(alpha0, beta0, bt, best, s, c, prev);
        }
        let improved = if p == root { s > best } else { s < best };
        let best2 = if improved { s } else { best };
        let move2 = if improved { Some(m) } else { bm };
        let alpha2 = if p == root && best2 > a { best2 } else { a };
        let beta2 = if p != root && best2 < bt { best2 } else { bt };
        if beta2 <= alpha2 {
            lemma_prefix_mono(b, p, moves, depth, root, i + 1, moves.len());
        } else {
            lemma_ab_loop_window(b, p, moves, depth, root, i + 1, alpha0, beta0, alpha2, beta2, best2, move2);
        }
    }
}

/// Alpha-beta search with the full window, at the side being maximised, finds the minimax
/// value and the first move that reaches it.
pub proof fn lemma_ab_root(b: Board, p: Player, moves: Seq<Piece>, depth: nat)
    requires
        depth > 0,
        moves.len() > 0,
    ensures
        ab_search(b, p, moves, depth, i32::MIN as int, i32::MAX as int, p).0 == minimax_value(
            b,
            p,
            moves,
            depth,
            p,
        ),
        ({
            let f = choose|f: int| is_first_best(b, p, moves, depth, p, f, moves.len());
            &&& is_first_best(b, p, moves, depth, p, f, moves.len())
            &&& ab_search(b, p, moves, depth, i32::MIN as int, i32::MAX as int, p).1 == Some(moves[f])
        }),
{
    let f = lemma_ab_root_loop(b, p, moves, depth, 0, i32::MIN as int, None, 0);
}

proof fn lemma_ab_root_loop(
    b: Board,
    p: Player,
    moves: Seq<Piece>,
    depth: nat,
    i: nat,
    best: int,
    bm: Option<Piece>,
    f: int,
) -> (g: int)
    requires
        depth > 0,
        moves.len() > 0,
        i <= moves.len(),
        i == 0 ==> best == i32::MIN && bm is None,
        i > 0 ==> best == prefix_value(b, p, moves, depth, p, i) && is_first_best(b, p, moves, depth, p, f, i) && bm == Some(moves[f]),
    ensures
        is_first_best(b, p, moves, depth, p, g, moves.len()),
        ab_loop(b, p, moves, depth, p, i, best, i32::MAX as int, best, bm) == (
            prefix_value(b, p, moves, depth, p, moves.len()),
            Some(moves[g]),
        ),
    decreases moves.len() - i,
{
    if i == moves.len() {
        f
    } else {
        let m = moves[i as int];
        let o = step_outcome(b, m, p);
        if i > 0 {
            lemma_prefix_bounds(b, p, moves, depth, p, i);
        }
        lemma_ab_window(o.board, o.player, o.moves, (depth - 1) as nat, p, best, i32::MAX as int);
        lemma_value_bounds(o.board, o.player, o.moves, (depth - 1) as nat, p);
        let c = minimax_value(o.board, o.player, o.moves, (depth - 1) as nat, p);
        assert(c == child_value(b, p, m, depth, p));
        let prev = prefix_value(b, p, moves, depth, p, i);
        lemma_prefix_bounds(b, p, moves, depth, p, i + 1);
        let nf = if i == 0 || c > best { i as int } else { f };
        assert(is_first_best(b, p, moves, depth, p, nf, i + 1)) by {
            if i > 0 && c > best {
                assert forall|j: int| 0 <= j < i implies #[trigger] child_value(b, p, moves[j], depth, p) < c by {
                    lemma_prefix_mono(b, p, moves, depth, p, j as nat, i);
                }
            }
        }
        lemma_ab_root_loop(b, p, moves, depth, i + 1, prefix_value(b, p, moves, depth, p, i + 1), Some(moves[nf]), nf)
    }
}

/// Alpha-beta search from a position with `moves` for `player` to play, `depth` moves deep,
/// maximising for `root`; returns the score found and the move that first reached it.
pub fn search(
    board: &Board,
    player: Player,
    moves: &Vec<Piece>,
    depth: u32,
    alpha: i32,
    beta: i32,
    root: Player,
) -> (r: (i32, Option<Piece>))
    requires
        board.wf(),
        player != Player::NoPlayer,
        forall|i: int| 0 <= i < moves@.len() ==> #[trigger] moves@[i].wf(),
    ensures
        r.0 as int == ab_search(
            *board,
            player,
            moves@,
            depth as nat,
            alpha as int,
            beta as int,
            root,
        ).0,
        r.1 == ab_search(*board, player, moves@, depth as nat, alpha as int, beta as int, root).1,
    decreases depth,
{
    if depth == 0 || moves.len() == 0 {
        let (score, _) = board.evaluate(Player::Ai);
        return (score, None);
    }
    let ghost target = ab_search(
        *board,
        player,
        moves@,
        depth as nat,
        alpha as int,
        beta as int,
        root,
    );
    let maxing = player == root;
    let mut alpha = alpha;
    let mut beta = beta;
    let mut best: i32 = if maxing {
        i32::MIN
    } else {
        i32::MAX
    };
    let mut best_move: Option<Piece> = None;
    let mut i: usize = 0;
    while i < moves.len()
        invariant_except_break
            ab_loop(
                *board,
                player,
                moves@,
                depth as nat,
                root,
                i as nat,
                alpha as int,
                beta as int,
                best as int,
                best_move,
            ) == target,
        invariant
            i <= moves.len(),
            depth > 0,
            board.wf(),
            player != Player::NoPlayer,
            maxing == (player == root),
            forall|k: int| 0 <= k < moves@.len() ==> #[trigger] moves@[k].wf(),
        ensures
            (best as int, best_move) == target,
        decreases moves.len() - i,
    {
        let m = moves[i];
        assert(moves@[i as int].wf());
        let mut child = *board;
        proof {
            lemma_step_outcome_wf(*board, m, player);
        }
        let (next_moves, next_player, _, _) = child.step(m, player);
        let (s, _) = search(&child, next_player, &next_moves, depth - 1, alpha, beta, root);
        if maxing {
            if s > best {
                best = s;
                best_move = Some(m);
            }
            if best > alpha {
                alpha = best;
            }
        } else {
            if s < best {
                best = s;
                best_move = Some(m);
            }
            if best < beta {
                beta = best;
            }
        }
        if beta <= alpha {
            break;
        }
        i = i + 1;
    }
    (best, best_move)
}

} // verus!
