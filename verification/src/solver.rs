//! The search engine: candidate move ordering, break points, and the
//! backtracking search with its layer pruning rule.

use vstd::prelude::*;

use crate::grid::{
    activate, activate_spec, apply_all, cell_at, complete, grid_ok, is_complete,
    is_complete_minor, lemma_activate_preserves, lemma_holes_immutable, minor_complete, non_hole,
    toggles, Board, HOLE, OFF,
};

verus! {

/// The layer of a position: its distance from the top-left corner along the
/// nearer axis.
pub open spec fn layer(p: (usize, usize)) -> int {
    if p.0 <= p.1 {
        p.0 as int
    } else {
        p.1 as int
    }
}

/// The strict candidate ordering of positions: ascending by layer, then by
/// row, then by column.
pub open spec fn key_lt(p: (usize, usize), q: (usize, usize)) -> bool {
    ||| layer(p) < layer(q)
    ||| (layer(p) == layer(q) && p.0 < q.0)
    ||| (layer(p) == layer(q) && p.0 == q.0 && p.1 < q.1)
}

/// Every listed position is a non-hole cell of the grid.
pub open spec fn moves_ok(g: Seq<Seq<u8>>, m: Seq<(usize, usize)>) -> bool {
    forall|i: int| 0 <= i < m.len() ==> non_hole(g, #[trigger] m[i])
}

/// The positions are strictly ascending in the candidate ordering.
pub open spec fn strictly_sorted(m: Seq<(usize, usize)>) -> bool {
    forall|i: int, j: int| 0 <= i < j < m.len() ==> key_lt(#[trigger] m[i], #[trigger] m[j])
}

/// The list holds every non-hole position of the grid.
pub open spec fn has_all_candidates(g: Seq<Seq<u8>>, m: Seq<(usize, usize)>) -> bool {
    forall|p: (usize, usize)| #[trigger] non_hole(g, p) ==> m.contains(p)
}

/// The sequence lists distinct non-hole positions of the grid in candidate
/// order: exactly the subsequences of the candidate move list.
pub open spec fn candidate_subseq(g: Seq<Seq<u8>>, s: Seq<(usize, usize)>) -> bool {
    moves_ok(g, s) && strictly_sorted(s)
}

/// The indices are strictly ascending and all lie in [lo, hi).
pub open spec fn ascending_in(idxs: Seq<usize>, lo: int, hi: int) -> bool {
    &&& forall|k: int| 0 <= k < idxs.len() ==> lo <= #[trigger] idxs[k] < hi
    &&& forall|k: int, l: int| 0 <= k < l < idxs.len() ==> idxs[k] < idxs[l]
}

/// The positions of the move list at the given indices, in order.
pub open spec fn chosen_moves(m: Seq<(usize, usize)>, idxs: Seq<usize>) -> Seq<(usize, usize)> {
    Seq::new(idxs.len(), |k: int| m[idxs[k] as int])
}

/// A sequence of activations whose positions all lie at layer `lay` or
/// deeper never changes a cell of the top-left lay-by-lay minor square: each
/// activation only touches its own row and column, both of which stay
/// outside the square.
pub proof fn lemma_deep_moves_fix_minor(
    g: Seq<Seq<u8>>,
    s: Seq<(usize, usize)>,
    lay: int,
    r: int,
    c: int,
)
    requires
        grid_ok(g),
        forall|i: int| 0 <= i < s.len() ==> non_hole(g, #[trigger] s[i]),
        forall|i: int| 0 <= i < s.len() ==> layer(#[trigger] s[i]) >= lay,
        0 <= r < lay,
        0 <= c < lay,
        r < g.len(),
        c < g[r].len(),
    ensures
        apply_all(g, s)[r][c] == g[r][c],
    decreases s.len(),
{
    if s.len() > 0 {
        let p = s[0];
        let x = p.0 as int;
        let y = p.1 as int;
        let g1 = activate_spec(g, x, y);
        lemma_activate_preserves(g, x, y);
        // The first activation leaves (r, c) alone: r < lay <= x and
        // c < lay <= y, so (r, c) shares neither the row nor the column of
        // the target.
        assert(layer(p) >= lay);
        assert(!toggles(g, x, y, r, c)) by {
            assert(r != x && c != y);
        }
        assert(g1[r][c] == g[r][c]);
        let rest = s.drop_first();
        assert forall|i: int| 0 <= i < rest.len() implies non_hole(g1, #[trigger] rest[i])
            && layer(rest[i]) >= lay by {
            assert(rest[i] == s[i + 1]);
            assert(non_hole(g, s[i + 1]));
            assert(layer(s[i + 1]) >= lay);
        }
        lemma_deep_moves_fix_minor(g1, rest, lay, r, c);
    }
}

/// Appending a position that follows every listed one keeps the list
/// strictly sorted.
proof fn lemma_sorted_push(m: Seq<(usize, usize)>, p: (usize, usize))
    requires
        strictly_sorted(m),
        forall|i: int| 0 <= i < m.len() ==> key_lt(#[trigger] m[i], p),
    ensures
        strictly_sorted(m.push(p)),
{
    let m2 = m.push(p);
    assert forall|i: int, j: int|
        0 <= i < j < m2.len() implies key_lt(#[trigger] m2[i], #[trigger] m2[j]) by {
        if j < m.len() {
            assert(m2[i] == m[i] && m2[j] == m[j]);
        } else {
            assert(m2[j] == p && m2[i] == m[i]);
        }
    }
}

/// Membership survives appending: the old members and the new one are all
/// in the extended list.
proof fn lemma_push_contains(m: Seq<(usize, usize)>, p: (usize, usize), q: (usize, usize))
    requires
        m.contains(q) || q == p,
    ensures
        m.push(p).contains(q),
{
    if m.contains(q) {
        let i = choose|i: int| 0 <= i < m.len() && m[i] == q;
        assert(m.push(p)[i] == q);
    } else {
        assert(m.push(p)[m.len() as int] == q);
    }
}

/// Lists every non-hole position of the board, in candidate order:
/// ascending by layer (the smaller of row and column), then row-major
/// within a layer.
fn candidate_moves(board: &Board) -> (m: Vec<(usize, usize)>)
    requires
        board.wf(),
    ensures
        moves_ok(board@, m@),
        strictly_sorted(m@),
        has_all_candidates(board@, m@),
{
    let rows = board.rows;
    let cols = board.cols;
    let lim = if rows < cols {
        rows
    } else {
        cols
    };
    let mut m: Vec<(usize, usize)> = Vec::new();
    let mut l: usize = 0;
    while l < lim
        invariant
            board.wf(),
            rows == board.rows,
            cols == board.cols,
            lim <= rows,
            lim <= cols,
            rows <= lim || cols <= lim,
            l <= lim,
            moves_ok(board@, m@),
            strictly_sorted(m@),
            forall|i: int| 0 <= i < m@.len() ==> layer(#[trigger] m@[i]) < l,
            forall|p: (usize, usize)|
                #[trigger] non_hole(board@, p) && layer(p) < l ==> m@.contains(p),
        decreases lim - l,
    {
        // The row stretch of layer l: (l, c) for c in l..cols.
        let mut c: usize = l;
        while c < cols
            invariant
                board.wf(),
                rows == board.rows,
                cols == board.cols,
                l < rows,
                l < cols,
                l <= c <= cols,
                moves_ok(board@, m@),
                strictly_sorted(m@),
                forall|i: int|
                    0 <= i < m@.len() ==> layer(#[trigger] m@[i]) < l || (m@[i].0 == l && l
                        <= m@[i].1 < c),
                forall|p: (usize, usize)|
                    #[trigger] non_hole(board@, p) && (layer(p) < l || (p.0 == l && l <= p.1 < c))
                        ==> m@.contains(p),
            decreases cols - c,
        {
            if cell_at(board, l, c) != HOLE {
                proof {
                    assert forall|i: int| 0 <= i < m@.len() implies key_lt(
                        #[trigger] m@[i],
                        (l, c),
                    ) by {
                        assert(layer((l, c)) == l);
                    }
                    lemma_sorted_push(m@, (l, c));
                }
                let ghost prev = m@;
                m.push((l, c));
                proof {
                    assert forall|p: (usize, usize)|
                        #[trigger] non_hole(board@, p) && (layer(p) < l || (p.0 == l && l <= p.1 < c
                            + 1)) implies m@.contains(p) by {
                        if layer(p) < l || (p.0 == l && l <= p.1 < c) {
                            assert(prev.contains(p));
                            lemma_push_contains(prev, (l, c), p);
                        } else {
                            assert(p == (l, c));
                            lemma_push_contains(prev, (l, c), p);
                        }
                    }
                }
            }
            c += 1;
        }
        // The column stretch of layer l: (r, l) for r in l + 1..rows.
        let mut r: usize = l + 1;
        while r < rows
            invariant
                board.wf(),
                rows == board.rows,
                cols == board.cols,
                l < rows,
                l < cols,
                l + 1 <= r <= rows,
                moves_ok(board@, m@),
                strictly_sorted(m@),
                forall|i: int|
                    0 <= i < m@.len() ==> layer(#[trigger] m@[i]) < l || (m@[i].0 == l && l
                        <= m@[i].1 < cols) || (m@[i].1 == l && l < m@[i].0 < r),
                forall|p: (usize, usize)|
                    #[trigger] non_hole(board@, p) && (layer(p) < l || (p.0 == l && l <= p.1 < cols)
                        || (p.1 == l && l < p.0 < r)) ==> m@.contains(p),
            decreases rows - r,
        {
            if cell_at(board, r, l) != HOLE {
                proof {
                    assert forall|i: int| 0 <= i < m@.len() implies key_lt(
                        #[trigger] m@[i],
                        (r, l),
                    ) by {
                        assert(layer((r, l)) == l);
                    }
                    lemma_sorted_push(m@, (r, l));
                }
                let ghost prev = m@;
                m.push((r, l));
                proof {
                    assert forall|p: (usize, usize)|
                        #[trigger] non_hole(board@, p) && (layer(p) < l || (p.0 == l && l <= p.1
                            < cols) || (p.1 == l && l < p.0 < r + 1)) implies m@.contains(p) by {
                        if layer(p) < l || (p.0 == l && l <= p.1 < cols) || (p.1 == l && l < p.0
                            < r) {
                            assert(prev.contains(p));
                            lemma_push_contains(prev, (r, l), p);
                        } else {
                            assert(p == (r, l));
                            lemma_push_contains(prev, (r, l), p);
                        }
                    }
                }
            }
            r += 1;
        }
        proof {
            assert forall|i: int| 0 <= i < m@.len() implies layer(#[trigger] m@[i]) < l + 1 by {}
            assert forall|p: (usize, usize)|
                #[trigger] non_hole(board@, p) && layer(p) < l + 1 implies m@.contains(p) by {
                if layer(p) == l {
                    if p.0 == l {
                        assert(l <= p.1 < cols);
                    } else {
                        assert(p.1 == l && l < p.0 < rows);
                    }
                }
            }
        }
        l += 1;
    }
    proof {
        assert forall|p: (usize, usize)| #[trigger] non_hole(board@, p) implies m@.contains(p) by {
            assert(p.0 < rows && p.1 < cols);
            assert(layer(p) < lim);
        }
    }
    m
}

/// Dropping the first index of a selection drops its first position.
proof fn lemma_chosen_drop_first(m: Seq<(usize, usize)>, idxs: Seq<usize>)
    requires
        idxs.len() > 0,
    ensures
        chosen_moves(m, idxs).drop_first() == chosen_moves(m, idxs.drop_first()),
{
    assert(chosen_moves(m, idxs).drop_first() =~= chosen_moves(m, idxs.drop_first()));
}

/// Copies a history of move indices.
fn clone_history(h: &Vec<usize>) -> (r: Vec<usize>)
    ensures
        r@ == h@,
{
    let mut r: Vec<usize> = Vec::new();
    let mut i: usize = 0;
    while i < h.len()
        invariant
            i <= h@.len(),
            r@.len() == i,
            forall|k: int| 0 <= k < i ==> #[trigger] r@[k] == h@[k],
        decreases h@.len() - i,
    {
        r.push(h[i]);
        i += 1;
    }
    proof {
        assert(r@ =~= h@);
    }
    r
}

/// True iff the list of break points holds the given step.
fn holds_step(v: &Vec<usize>, x: usize) -> (res: bool)
    ensures
        res == v@.contains(x),
{
    let mut i: usize = 0;
    while i < v.len()
        invariant
            i <= v@.len(),
            forall|k: int| 0 <= k < i ==> #[trigger] v@[k] != x,
        decreases v@.len() - i,
    {
        if v[i] == x {
            return true;
        }
        i += 1;
    }
    false
}

/// Depth-first backtracking over "include or exclude" for each move from
/// `step` on. A `Some` result extends `history` with a strictly ascending
/// selection of move indices whose activations complete the board; `None`
/// means no such selection exists. At a recorded break point whose move
/// opens a layer the incomplete minor square of which no deeper move can
/// repair, the whole branch is abandoned.
pub fn solve_subroutine(
    board: &Board,
    possible_moves: &Vec<(usize, usize)>,
    step: usize,
    history: &Vec<usize>,
    break_points: &Vec<usize>,
) -> (res: Option<Vec<usize>>)
    requires
        board.wf(),
        moves_ok(board@, possible_moves@),
        strictly_sorted(possible_moves@),
        step <= possible_moves@.len(),
    ensures
        match res {
            Some(h) => exists|idxs: Seq<usize>|
                h@ == history@ + idxs && #[trigger] ascending_in(
                    idxs,
                    step as int,
                    possible_moves@.len() as int,
                ) && complete(apply_all(board@, chosen_moves(possible_moves@, idxs))),
            None => forall|idxs: Seq<usize>|
                #[trigger] ascending_in(idxs, step as int, possible_moves@.len() as int)
                    ==> !complete(apply_all(board@, chosen_moves(possible_moves@, idxs))),
        },
    decreases possible_moves@.len() - step,
{
    let ghost m = possible_moves@;
    let ghost len = possible_moves@.len() as int;
    if is_complete(board) {
        let h = clone_history(history);
        proof {
            let idxs0 = Seq::<usize>::empty();
            assert(chosen_moves(m, idxs0) =~= Seq::<(usize, usize)>::empty());
            assert(apply_all(board@, chosen_moves(m, idxs0)) == board@);
            assert(h@ =~= history@ + idxs0);
            assert(ascending_in(idxs0, step as int, len));
        }
        Some(h)
    } else if step >= possible_moves.len() {
        proof {
            assert forall|idxs: Seq<usize>|
                #[trigger] ascending_in(idxs, step as int, len) implies !complete(
                apply_all(board@, chosen_moves(m, idxs)),
            ) by {
                if idxs.len() > 0 {
                    assert(step as int <= idxs[0] < len);
                } else {
                    assert(chosen_moves(m, idxs) =~= Seq::<(usize, usize)>::empty());
                }
            }
        }
        None
    } else {
        let mv = possible_moves[step];
        let bp = if mv.0 < mv.1 {
            mv.0
        } else {
            mv.1
        };
        proof {
            assert(non_hole(board@, m[step as int]));
            assert(layer(mv) == bp);
        }
        if !is_complete_minor(board, bp) && holds_step(break_points, step) {
            // The move at `step` opens layer `bp`, whose minor square still
            // has an off cell; every remaining move lies at layer `bp` or
            // deeper and can never change that cell, so both branches are
            // hopeless.
            proof {
                let g = board@;
                assert(!minor_complete(g, bp as int));
                assert(exists|r: int, c: int|
                    0 <= r < bp && 0 <= c < bp && r < g.len() && c < g[r].len()
                        && #[trigger] g[r][c] == OFF);
                let (wr, wc) = choose|r: int, c: int|
                    0 <= r < bp && 0 <= c < bp && r < g.len() && c < g[r].len()
                        && #[trigger] g[r][c] == OFF;
                assert forall|idxs: Seq<usize>|
                    #[trigger] ascending_in(idxs, step as int, len) implies !complete(
                    apply_all(g, chosen_moves(m, idxs)),
                ) by {
                    let s = chosen_moves(m, idxs);
                    assert forall|i: int| 0 <= i < s.len() implies non_hole(g, #[trigger] s[i])
                        && layer(s[i]) >= bp by {
                        let ix = idxs[i] as int;
                        assert(step as int <= ix < len);
                        assert(non_hole(g, m[ix]));
                        if (step as int) < ix {
                            assert(key_lt(m[step as int], m[ix]));
                        }
                    }
                    lemma_deep_moves_fix_minor(g, s, bp as int, wr, wc);
                    lemma_holes_immutable(g, s);
                    assert(apply_all(g, s)[wr][wc] == OFF);
                    assert(apply_all(g, s)[wr].len() == g[wr].len());
                }
            }
            None
        } else {
            let new_board = activate(board, mv);
            proof {
                lemma_activate_preserves(board@, mv.0 as int, mv.1 as int);
                assert forall|i: int| 0 <= i < m.len() implies non_hole(
                    new_board@,
                    #[trigger] m[i],
                ) by {
                    assert(non_hole(board@, m[i]));
                }
            }
            let mut new_history = clone_history(history);
            new_history.push(step);
            let result = solve_subroutine(&new_board, possible_moves, step + 1, &new_history,
                break_points);
            match result {
                Some(h) => {
                    proof {
                        let idxs1 = choose|idxs: Seq<usize>|
                            h@ == new_history@ + idxs && #[trigger] ascending_in(
                                idxs,
                                step + 1 as int,
                                len,
                            ) && complete(apply_all(new_board@, chosen_moves(m, idxs)));
                        let idxs_w = seq![step] + idxs1;
                        assert(idxs_w[0] == step);
                        assert forall|k: int| 0 < k < idxs_w.len() implies step
                            < #[trigger] idxs_w[k] < len by {
                            assert(idxs_w[k] == idxs1[k - 1]);
                        }
                        assert(ascending_in(idxs_w, step as int, len));
                        assert(h@ =~= history@ + idxs_w);
                        lemma_chosen_drop_first(m, idxs_w);
                        assert(idxs_w.drop_first() =~= idxs1);
                        assert(chosen_moves(m, idxs_w)[0] == mv);
                        assert(apply_all(board@, chosen_moves(m, idxs_w)) == apply_all(
                            new_board@,
                            chosen_moves(m, idxs1),
                        ));
                    }
                    Some(h)
                },
                None => {
                    let result2 = solve_subroutine(board, possible_moves, step + 1, history,
                        break_points);
                    proof {
                        match &result2 {
                            Some(h2) => {
                                let idxs2 = choose|idxs: Seq<usize>|
                                    h2@ == history@ + idxs && #[trigger] ascending_in(
                                        idxs,
                                        step + 1 as int,
                                        len,
                                    ) && complete(apply_all(board@, chosen_moves(m, idxs)));
                                assert(ascending_in(idxs2, step as int, len));
                            },
                            None => {
                                assert forall|idxs: Seq<usize>|
                                    #[trigger] ascending_in(idxs, step as int, len)
                                    implies !complete(apply_all(board@, chosen_moves(m, idxs))) by {
                                    if idxs.len() == 0 {
                                        assert(chosen_moves(m, idxs) =~= Seq::<(
                                            usize,
                                            usize,
                                        )>::empty());
                                        assert(apply_all(board@, chosen_moves(m, idxs)) == board@);
                                    } else if idxs[0] == step {
                                        let rest = idxs.drop_first();
                                        assert forall|k: int| 0 <= k < rest.len() implies step + 1
                                            <= #[trigger] rest[k] < len by {
                                            assert(rest[k] == idxs[k + 1]);
                                            assert(idxs[0] < idxs[k + 1]);
                                        }
                                        assert forall|k: int, l: int|
                                            0 <= k < l < rest.len() implies #[trigger] rest[k]
                                            < #[trigger] rest[l] by {
                                            assert(rest[k] == idxs[k + 1] && rest[l] == idxs[l
                                                + 1]);
                                        }
                                        assert(ascending_in(rest, step + 1 as int, len));
                                        lemma_chosen_drop_first(m, idxs);
                                        assert(chosen_moves(m, idxs)[0] == mv);
                                        assert(apply_all(board@, chosen_moves(m, idxs))
                                            == apply_all(new_board@, chosen_moves(m, rest)));
                                    } else {
                                        assert forall|k: int| 0 <= k < idxs.len() implies step + 1
                                            <= #[trigger] idxs[k] < len by {
                                            if k > 0 {
                                                assert(idxs[0] < idxs[k]);
                                            }
                                        }
                                        assert(ascending_in(idxs, step + 1 as int, len));
                                    }
                                }
                            },
                        }
                    }
                    result2
                },
            }
        }
    }
}

/// The index at which a move list holds a position.
pub open spec fn index_in(m: Seq<(usize, usize)>, p: (usize, usize)) -> int {
    choose|i: int| 0 <= i < m.len() && m[i] == p
}

/// Every candidate-ordered sequence of non-hole positions is a selection of
/// ascending indices from a strictly sorted move list that holds every
/// candidate.
proof fn lemma_subseq_is_selection(
    g: Seq<Seq<u8>>,
    m: Seq<(usize, usize)>,
    s: Seq<(usize, usize)>,
)
    requires
        m.len() <= usize::MAX,
        strictly_sorted(m),
        has_all_candidates(g, m),
        candidate_subseq(g, s),
    ensures
        ({
            let idxs = Seq::new(s.len(), |k: int| index_in(m, s[k]) as usize);
            ascending_in(idxs, 0, m.len() as int) && chosen_moves(m, idxs) == s
        }),
{
    let idxs = Seq::new(s.len(), |k: int| index_in(m, s[k]) as usize);
    assert forall|k: int, l: int| 0 <= k < l < idxs.len() implies #[trigger] idxs[k]
        < #[trigger] idxs[l] by {
        let ik = index_in(m, s[k]);
        let il = index_in(m, s[l]);
        assert(non_hole(g, s[k]) && m.contains(s[k]));
        assert(non_hole(g, s[l]) && m.contains(s[l]));
        assert(0 <= ik < m.len() && m[ik] == s[k]);
        assert(0 <= il < m.len() && m[il] == s[l]);
        assert(idxs[k] == ik as usize && idxs[l] == il as usize);
        assert(key_lt(s[k], s[l]));
        if ik == il {
            assert(s[k] == s[l]);
        } else if ik > il {
            assert(key_lt(m[il], m[ik]));
        }
    }
    assert forall|k: int| 0 <= k < s.len() implies #[trigger] chosen_moves(m, idxs)[k]
        == s[k] by {
        let ik = index_in(m, s[k]);
        assert(non_hole(g, s[k]) && m.contains(s[k]));
        assert(0 <= ik < m.len() && m[ik] == s[k]);
        assert(idxs[k] == ik as usize);
    }
    assert forall|k: int| 0 <= k < idxs.len() implies 0 <= #[trigger] idxs[k] < m.len() by {
        let ik = index_in(m, s[k]);
        assert(non_hole(g, s[k]) && m.contains(s[k]));
        assert(0 <= ik < m.len() && m[ik] == s[k]);
        assert(idxs[k] == ik as usize);
    }
    assert(chosen_moves(m, idxs) =~= s);
}

/// Solves the board: finds the first sequence, in candidate order, of
/// distinct non-hole activations that switches every non-hole cell on, under
/// depth-first include-before-exclude search. Returns `None` exactly when no
/// candidate-ordered activation sequence completes the board.
pub fn solve(board: &Board) -> (res: Option<Vec<(usize, usize)>>)
    requires
        board.wf(),
    ensures
        match res {
            Some(sol) => {
                &&& candidate_subseq(board@, sol@)
                &&& complete(apply_all(board@, sol@))
                &&& forall|i: int, j: int|
                    0 <= i < j < sol@.len() ==> #[trigger] sol@[i] != #[trigger] sol@[j]
            },
            None => forall|s: Seq<(usize, usize)>|
                #[trigger] candidate_subseq(board@, s) ==> !complete(apply_all(board@, s)),
        },
{
    let possible_moves = candidate_moves(board);
    let ghost m = possible_moves@;
    let mut break_points: Vec<usize> = Vec::new();
    let mut ind: usize = 0;
    while ind < possible_moves.len()
        invariant
            ind <= possible_moves@.len(),
        decreases possible_moves@.len() - ind,
    {
        let mv = possible_moves[ind];
        let l = if mv.0 < mv.1 {
            mv.0
        } else {
            mv.1
        };
        if l > break_points.len() {
            break_points.push(ind);
        }
        ind += 1;
    }
    let history: Vec<usize> = Vec::new();
    let result = solve_subroutine(board, &possible_moves, 0, &history, &break_points);
    match result {
        Some(h) => {
            proof {
                let idxs = choose|idxs: Seq<usize>|
                    h@ == history@ + idxs && #[trigger] ascending_in(idxs, 0, m.len() as int)
                        && complete(apply_all(board@, chosen_moves(m, idxs)));
                assert(h@ =~= idxs);
            }
            let mut sol: Vec<(usize, usize)> = Vec::new();
            let mut k: usize = 0;
            while k < h.len()
                invariant
                    board.wf(),
                    m == possible_moves@,
                    moves_ok(board@, m),
                    strictly_sorted(m),
                    ascending_in(h@, 0, m.len() as int),
                    k <= h@.len(),
                    sol@.len() == k,
                    forall|i: int| 0 <= i < k ==> #[trigger] sol@[i] == m[h@[i] as int],
                decreases h@.len() - k,
            {
                sol.push(possible_moves[h[k]]);
                k += 1;
            }
            proof {
                assert(sol@ =~= chosen_moves(m, h@));
                assert forall|i: int| 0 <= i < sol@.len() implies non_hole(
                    board@,
                    #[trigger] sol@[i],
                ) by {
                    assert(non_hole(board@, m[h@[i] as int]));
                }
                assert forall|i: int, j: int| 0 <= i < j < sol@.len() implies key_lt(
                    #[trigger] sol@[i],
                    #[trigger] sol@[j],
                ) && sol@[i] != sol@[j] by {
                    assert(h@[i] < h@[j]);
                    assert(key_lt(m[h@[i] as int], m[h@[j] as int]));
                    if sol@[i] == sol@[j] {
                        assert(!key_lt(sol@[i], sol@[j]));
                    }
                }
            }
            Some(sol)
        },
        None => {
            proof {
                assert forall|s: Seq<(usize, usize)>|
                    #[trigger] candidate_subseq(board@, s) implies !complete(
                    apply_all(board@, s),
                ) by {
                    lemma_subseq_is_selection(board@, m, s);
                    let idxs = Seq::new(s.len(), |k: int| index_in(m, s[k]) as usize);
                    assert(ascending_in(idxs, 0, m.len() as int));
                    assert(!complete(apply_all(board@, chosen_moves(m, idxs))));
                }
            }
            None
        },
    }
}

} // verus!
