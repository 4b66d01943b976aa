//! Exhaustive minimax search and the engine's choice of move.
use vstd::prelude::*;
use crate::board::{
    candidates, empty_count, lemma_candidates, lemma_not_over, lemma_same_cells, lemma_scan_open,
    lemma_scan_winner, line_filled, mark_of, opponent, status_of, win_for, BoardPos, Cell, Engine,
    GameStatus,
};

verus! {

/// The score of a finished game: +1 when X (the first side) has won, -1 when
/// O has, 0 for a draw.
pub open spec fn score_of(st: GameStatus) -> int {
    match st {
        GameStatus::XWins => 1,
        GameStatus::OWins => -1,
        _ => 0,
    }
}

/// The best score seen so far after also seeing `v`: the larger one when
/// maximizing, the smaller one otherwise.
pub open spec fn combine(maximize: bool, best: int, v: int) -> int {
    if maximize {
        if v > best {
            v
        } else {
            best
        }
    } else {
        if v < best {
            v
        } else {
            best
        }
    }
}

/// The starting point of a fold: below any score when maximizing, above any
/// score otherwise.
pub open spec fn fold_start(maximize: bool) -> int {
    if maximize {
        -9999
    } else {
        9999
    }
}

/// The minimax value of a board with the given side on move: the score of a
/// finished game, or else the best value over the candidate moves, each
/// evaluated with the turn and the role passed to the other side.
pub open spec fn minimax_value(s: Seq<Cell>, x_turn: bool, maximize: bool) -> int
    decreases empty_count(s), 1nat, 0nat,
{
    if s.len() != 9 || status_of(s) != GameStatus::NotOver {
        score_of(status_of(s))
    } else {
        fold_moves(s, x_turn, maximize, candidates(s), fold_start(maximize))
    }
}

/// Folds the values of the moves `ps` into `best`, in order.
pub open spec fn fold_moves(
    s: Seq<Cell>,
    x_turn: bool,
    maximize: bool,
    ps: Seq<int>,
    best: int,
) -> int
    decreases empty_count(s), 0nat, ps.len(),
{
    if ps.len() == 0 {
        best
    } else {
        let k = ps[0];
        let next = if s.len() == 9 && 0 <= k < 9 && s[k] == Cell::Empty {
            combine(
                maximize,
                best,
                minimax_value(s.update(k, mark_of(x_turn)), !x_turn, !maximize),
            )
        } else {
            best
        };
        fold_moves(s, x_turn, maximize, ps.drop_first(), next)
    }
}

/// The value of playing cell `k` on `s` with the given side on move, under
/// optimal play by both sides afterwards.
pub open spec fn move_value(s: Seq<Cell>, x_turn: bool, k: int) -> int {
    minimax_value(s.update(k, mark_of(x_turn)), !x_turn, !x_turn)
}

/// `a` is strictly better than `b` for the side on move.
pub open spec fn prefers(x_turn: bool, a: int, b: int) -> bool {
    if x_turn {
        a > b
    } else {
        a < b
    }
}

/// The engine's choice on a running game: `k` is a candidate move, no
/// candidate is better for the side on move, and every earlier candidate is
/// strictly worse.
pub open spec fn is_best_move(s: Seq<Cell>, x_turn: bool, k: int) -> bool {
    &&& candidates(s).contains(k)
    &&& forall|j: int|
        #![trigger candidates(s).contains(j)]
        candidates(s).contains(j) ==> !prefers(
            x_turn,
            move_value(s, x_turn, j),
            move_value(s, x_turn, k),
        )
    &&& forall|j: int|
        #![trigger candidates(s).contains(j)]
        candidates(s).contains(j) && j < k ==> prefers(
            x_turn,
            move_value(s, x_turn, k),
            move_value(s, x_turn, j),
        )
}

/// One step of a fold over the moves from position `i` of `ps` on.
proof fn lemma_fold_suffix(
    s: Seq<Cell>,
    x_turn: bool,
    maximize: bool,
    ps: Seq<int>,
    i: int,
    best: int,
)
    requires
        0 <= i < ps.len(),
    ensures
        fold_moves(s, x_turn, maximize, ps.subrange(i, ps.len() as int), best) == fold_moves(
            s,
            x_turn,
            maximize,
            ps.subrange(i + 1, ps.len() as int),
            if s.len() == 9 && 0 <= ps[i] < 9 && s[ps[i]] == Cell::Empty {
                combine(
                    maximize,
                    best,
                    minimax_value(s.update(ps[i], mark_of(x_turn)), !x_turn, !maximize),
                )
            } else {
                best
            },
        ),
{
    assert(ps.subrange(i, ps.len() as int).drop_first() =~= ps.subrange(i + 1, ps.len() as int));
}

/// Every game value lies between -1 and 1.
pub proof fn lemma_value_bounds(s: Seq<Cell>, x_turn: bool, maximize: bool)
    requires
        s.len() == 9,
    ensures
        -1 <= minimax_value(s, x_turn, maximize) <= 1,
    decreases empty_count(s), 1nat, 0nat,
{
    if status_of(s) == GameStatus::NotOver {
        lemma_not_over(s, 0);
        lemma_candidates(s);
        lemma_fold_bounds(s, x_turn, maximize, candidates(s), fold_start(maximize));
    }
}

/// A fold over moves of a board, started at `fold_start` or at a score,
/// ends at a score.
proof fn lemma_fold_bounds(s: Seq<Cell>, x_turn: bool, maximize: bool, ps: Seq<int>, best: int)
    requires
        s.len() == 9,
        best == fold_start(maximize) || -1 <= best <= 1,
        forall|j: int|
            0 <= j < ps.len() ==> 0 <= #[trigger] ps[j] < 9 && s[ps[j]] == Cell::Empty,
    ensures
        ps.len() > 0 || -1 <= best <= 1 ==> -1 <= fold_moves(s, x_turn, maximize, ps, best) <= 1,
    decreases empty_count(s), 0nat, ps.len(),
{
    if ps.len() > 0 {
        let k = ps[0];
        lemma_value_bounds(s.update(k, mark_of(x_turn)), !x_turn, !maximize);
        let next = combine(
            maximize,
            best,
            minimax_value(s.update(k, mark_of(x_turn)), !x_turn, !maximize),
        );
        let rest = ps.drop_first();
        assert forall|j: int| 0 <= j < rest.len() implies 0 <= #[trigger] rest[j] < 9
            && s[rest[j]] == Cell::Empty by {
            assert(rest[j] == ps[j + 1]);
        }
        lemma_fold_bounds(s, x_turn, maximize, rest, next);
    }
}

/// The folded value is no worse for the folding role than its start and than
/// the value of any move folded in.
proof fn lemma_fold_covers(s: Seq<Cell>, x_turn: bool, maximize: bool, ps: Seq<int>, best: int)
    requires
        s.len() == 9,
        forall|j: int|
            0 <= j < ps.len() ==> 0 <= #[trigger] ps[j] < 9 && s[ps[j]] == Cell::Empty,
    ensures
        maximize ==> fold_moves(s, x_turn, maximize, ps, best) >= best,
        !maximize ==> fold_moves(s, x_turn, maximize, ps, best) <= best,
        forall|j: int|
            0 <= j < ps.len() ==> {
                let v = minimax_value(
                    s.update(#[trigger] ps[j], mark_of(x_turn)),
                    !x_turn,
                    !maximize,
                );
                &&& maximize ==> fold_moves(s, x_turn, maximize, ps, best) >= v
                &&& !maximize ==> fold_moves(s, x_turn, maximize, ps, best) <= v
            },
        fold_moves(s, x_turn, maximize, ps, best) == best || exists|j: int|
            0 <= j < ps.len() && fold_moves(s, x_turn, maximize, ps, best) == minimax_value(
                s.update(#[trigger] ps[j], mark_of(x_turn)),
                !x_turn,
                !maximize,
            ),
    decreases ps.len(),
{
    if ps.len() > 0 {
        let next = combine(
            maximize,
            best,
            minimax_value(s.update(ps[0], mark_of(x_turn)), !x_turn, !maximize),
        );
        let rest = ps.drop_first();
        assert forall|j: int| 0 <= j < rest.len() implies 0 <= #[trigger] rest[j] < 9
            && s[rest[j]] == Cell::Empty by {
            assert(rest[j] == ps[j + 1]);
        }
        lemma_fold_covers(s, x_turn, maximize, rest, next);
        assert forall|j: int| 1 <= j < ps.len() implies ps[j] == rest[j - 1] by {}
        let f = fold_moves(s, x_turn, maximize, ps, best);
        if f != next {
            let j = choose|j: int|
                0 <= j < rest.len() && f == minimax_value(
                    s.update(#[trigger] rest[j], mark_of(x_turn)),
                    !x_turn,
                    !maximize,
                );
            assert(ps[j + 1] == rest[j]);
        } else if f != best {
            assert(f == minimax_value(s.update(ps[0], mark_of(x_turn)), !x_turn, !maximize));
        }
    }
}

/// The score of the worst outcome for the side on move.
pub open spec fn loss_for(x_turn: bool) -> int {
    if x_turn {
        -1
    } else {
        1
    }
}

/// Cell `k` is empty and marking it with `m` fills line `l`.
pub open spec fn completes_line(s: Seq<Cell>, l: int, k: int, m: Cell) -> bool {
    &&& 0 <= l < 8
    &&& 0 <= k < 9
    &&& s[k] == Cell::Empty
    &&& line_filled(s.update(k, m), l, m)
}

/// Marking an empty cell of a running game with `m` yields a won game for
/// `m` when it fills a line.
proof fn lemma_completing_wins(s: Seq<Cell>, l: int, k: int, m: Cell)
    requires
        s.len() == 9,
        status_of(s) == GameStatus::NotOver,
        m != Cell::Empty,
        completes_line(s, l, k, m),
    ensures
        status_of(s.update(k, m)) == win_for(m),
{
    lemma_not_over(s, 0);
    let s1 = s.update(k, m);
    assert forall|l2: int| 0 <= l2 < 8 implies !line_filled(s1, l2, opponent(m)) by {
        if line_filled(s1, l2, opponent(m)) {
            assert(line_filled(s, l2, opponent(m)));
        }
    }
    lemma_scan_winner(s1, 0, m);
}

/// When X is on move in a running game and cell `k` completes a line of X's,
/// the engine's move `c` wins under optimal play, and it is `k` unless an
/// earlier candidate also wins under optimal play.
pub proof fn lemma_takes_immediate_win(s: Seq<Cell>, l: int, k: int, c: int)
    requires
        s.len() == 9,
        status_of(s) == GameStatus::NotOver,
        completes_line(s, l, k, Cell::X),
        is_best_move(s, true, c),
    ensures
        move_value(s, true, c) == 1,
        (forall|j: int| candidates(s).contains(j) && j < k ==> move_value(s, true, j) != 1)
            ==> c == k,
{
    lemma_candidates(s);
    lemma_completing_wins(s, l, k, Cell::X);
    assert(candidates(s).contains(k));
    assert(move_value(s, true, k) == 1);
    let ci = choose|ci: int| 0 <= ci < candidates(s).len() && candidates(s)[ci] == c;
    lemma_value_bounds(s.update(c, Cell::X), false, false);
}

/// When the opponent of the side on move threatens to complete a line at
/// cell `k`, and the side on move cannot complete a line at once, every other
/// move loses under optimal play, so the engine blocks at `k` unless blocking
/// loses too.
pub proof fn lemma_blocks_threat(s: Seq<Cell>, x_turn: bool, l: int, k: int, c: int)
    requires
        s.len() == 9,
        status_of(s) == GameStatus::NotOver,
        completes_line(s, l, k, mark_of(!x_turn)),
        forall|l2: int, j: int| !completes_line(s, l2, j, mark_of(x_turn)),
        is_best_move(s, x_turn, c),
    ensures
        forall|j: int|
            candidates(s).contains(j) && j != k ==> move_value(s, x_turn, j) == loss_for(x_turn),
        move_value(s, x_turn, k) != loss_for(x_turn) ==> c == k,
{
    let me = mark_of(x_turn);
    let opp = mark_of(!x_turn);
    lemma_candidates(s);
    lemma_not_over(s, 0);
    assert forall|j: int|
        candidates(s).contains(j) && j != k implies move_value(s, x_turn, j) == loss_for(x_turn) by {
        let ji = choose|ji: int| 0 <= ji < candidates(s).len() && candidates(s)[ji] == j;
        let s1 = s.update(j, me);
        assert forall|l2: int| 0 <= l2 < 8 implies !line_filled(s1, l2, Cell::X)
            && !line_filled(s1, l2, Cell::O) by {
            assert(!completes_line(s, l2, j, me));
            if line_filled(s1, l2, opp) {
                assert(line_filled(s, l2, opp));
            }
        }
        assert(s1[k] == Cell::Empty);
        lemma_scan_open(s1, 0);
        lemma_candidates(s1);
        assert(candidates(s1).contains(k));
        let ki = choose|ki: int| 0 <= ki < candidates(s1).len() && candidates(s1)[ki] == k;
        let s2 = s1.update(k, opp);
        assert forall|l2: int| 0 <= l2 < 8 implies !line_filled(s2, l2, opponent(opp)) by {
            if line_filled(s2, l2, opponent(opp)) {
                assert(line_filled(s1, l2, me));
            }
        }
        assert(line_filled(s.update(k, opp), l, opp));
        assert(line_filled(s2, l, opp));
        lemma_scan_winner(s2, 0, opp);
        lemma_fold_covers(s1, !x_turn, !x_turn, candidates(s1), fold_start(!x_turn));
        lemma_value_bounds(s1, !x_turn, !x_turn);
    }
    assert(candidates(s).contains(k));
    lemma_value_bounds(s.update(k, me), !x_turn, !x_turn);
}

/// The engine's move keeps the value of the game: under optimal play by both
/// sides afterwards, the game after move `c` is worth what the game before it
/// was worth to the side on move.
pub proof fn lemma_best_move_keeps_value(s: Seq<Cell>, x_turn: bool, c: int)
    requires
        s.len() == 9,
        status_of(s) == GameStatus::NotOver,
        is_best_move(s, x_turn, c),
    ensures
        move_value(s, x_turn, c) == minimax_value(s, x_turn, x_turn),
{
    let ps = candidates(s);
    lemma_candidates(s);
    lemma_fold_covers(s, x_turn, x_turn, ps, fold_start(x_turn));
    lemma_fold_bounds(s, x_turn, x_turn, ps, fold_start(x_turn));
    lemma_not_over(s, 0);
    let ci = choose|ci: int| 0 <= ci < ps.len() && ps[ci] == c;
    let f = fold_moves(s, x_turn, x_turn, ps, fold_start(x_turn));
    assert(minimax_value(s, x_turn, x_turn) == f);
    let j = choose|j: int|
        0 <= j < ps.len() && f == minimax_value(
            s.update(#[trigger] ps[j], mark_of(x_turn)),
            !x_turn,
            !x_turn,
        );
    assert(ps.contains(ps[j]));
}

impl Engine {
    /// The minimax value of the current game, with X maximizing and O
    /// minimizing, `is_maximizing` telling which role moves now. The game is
    /// the same afterwards.
    #[verifier::rlimit(60)]
    pub fn minimax(&mut self, is_maximizing: bool) -> (r: i32)
        ensures
            r as int == minimax_value(old(self).cells(), old(self).is_x_turn, is_maximizing),
            *final(self) == *old(self),
        decreases empty_count(old(self).cells()),
    {
        let ghost s = self.cells();
        let ghost t = self.is_x_turn;
        match self.get_game_status() {
            GameStatus::XWins => {
                return 1;
            },
            GameStatus::OWins => {
                return -1;
            },
            GameStatus::CatsGame => {
                return 0;
            },
            GameStatus::NotOver => {},
        }
        let mut best: i32 = if is_maximizing {
            -9999
        } else {
            9999
        };
        let positions = self.get_positions();
        proof {
            lemma_candidates(s);
        }
        let ghost ps = candidates(s);
        assert(ps.subrange(0, ps.len() as int) =~= ps);
        let mut i: usize = 0;
        while i < positions.len()
            invariant
                s == old(self).cells(),
                t == old(self).is_x_turn,
                *self == *old(self),
                s.len() == 9,
                status_of(s) == GameStatus::NotOver,
                ps == candidates(s),
                positions@.len() == ps.len(),
                forall|j: int|
                    0 <= j < positions@.len() ==> (#[trigger] positions@[j]).in_bounds()
                        && positions@[j].index() == ps[j],
                forall|j: int|
                    0 <= j < ps.len() ==> 0 <= #[trigger] ps[j] < 9 && s[ps[j]] == Cell::Empty,
                i <= positions@.len(),
                minimax_value(s, t, is_maximizing) == fold_moves(
                    s,
                    t,
                    is_maximizing,
                    ps.subrange(i as int, ps.len() as int),
                    best as int,
                ),
            decreases positions@.len() - i,
        {
            let pos = positions[i];
            proof {
                lemma_fold_suffix(s, t, is_maximizing, ps, i as int, best as int);
            }
            self.make_move(&pos);
            let v = self.minimax(!is_maximizing);
            self.undo_move(&pos);
            proof {
                assert(self.cells() =~= s);
                lemma_same_cells(*self, *old(self));
            }
            if is_maximizing && v > best {
                best = v;
            }
            if !is_maximizing && v < best {
                best = v;
            }
            i = i + 1;
        }
        proof {
            assert(ps.subrange(i as int, ps.len() as int).len() == 0);
        }
        best
    }

    /// Plays the engine's move for the side on move, if the game is not over:
    /// the first candidate in row-major order whose value, under optimal play
    /// by both sides, is best for that side. Returns the cell played, or
    /// `None`, leaving the game unchanged, when the game is already over.
    pub fn make_computer_move(&mut self) -> (r: Option<BoardPos>)
        ensures
            status_of(old(self).cells()) != GameStatus::NotOver ==> r is None && *final(self)
                == *old(self),
            status_of(old(self).cells()) == GameStatus::NotOver ==> r is Some && r->0.in_bounds()
                && is_best_move(old(self).cells(), old(self).is_x_turn, r->0.index())
                && final(self).cells() == old(self).cells().update(
                r->0.index(),
                mark_of(old(self).is_x_turn),
            ) && final(self).is_x_turn == !old(self).is_x_turn,
            old(self).well_formed() ==> final(self).well_formed(),
    {
        if self.is_game_over() {
            return None;
        }
        let ghost s = self.cells();
        let ghost t = self.is_x_turn;
        let x_turn = self.is_x_turn;
        let mut best_val: i32 = if x_turn {
            -9999
        } else {
            9999
        };
        let mut best_pos: Option<BoardPos> = None;
        let positions = self.get_positions();
        proof {
            lemma_candidates(s);
            lemma_not_over(s, 0);
        }
        let ghost ps = candidates(s);
        let mut done = false;
        let mut i: usize = 0;
        while i < positions.len() && !done
            invariant
                s == old(self).cells(),
                t == old(self).is_x_turn,
                x_turn == t,
                *self == *old(self),
                s.len() == 9,
                status_of(s) == GameStatus::NotOver,
                ps == candidates(s),
                ps.len() > 0,
                positions@.len() == ps.len(),
                forall|j: int|
                    0 <= j < positions@.len() ==> (#[trigger] positions@[j]).in_bounds()
                        && positions@[j].index() == ps[j],
                forall|j: int|
                    0 <= j < ps.len() ==> 0 <= #[trigger] ps[j] < 9 && s[ps[j]] == Cell::Empty,
                forall|a: int, b: int| 0 <= a < b < ps.len() ==> ps[a] < ps[b],
                i <= positions@.len(),
                i == 0 ==> best_pos is None && !done,
                i > 0 ==> best_pos is Some,
                best_pos is None ==> best_val == (if t { -9999i32 } else { 9999i32 }),
                best_pos is Some ==> {
                    let k = best_pos->0.index();
                    &&& best_pos->0.in_bounds()
                    &&& exists|kk: int| 0 <= kk < i && ps[kk] == k
                    &&& best_val as int == move_value(s, t, k)
                    &&& forall|j: int|
                        0 <= j < i ==> !prefers(
                            t,
                            move_value(s, t, #[trigger] ps[j]),
                            best_val as int,
                        )
                    &&& forall|j: int|
                        0 <= j < i && ps[j] < k ==> prefers(
                            t,
                            best_val as int,
                            move_value(s, t, #[trigger] ps[j]),
                        )
                },
                done ==> best_val == (if t { 1i32 } else { -1i32 }),
            decreases positions@.len() - i,
        {
            let pos = positions[i];
            self.make_move(&pos);
            let v = self.minimax(!x_turn);
            self.undo_move(&pos);
            proof {
                assert(self.cells() =~= s);
                lemma_same_cells(*self, *old(self));
                lemma_value_bounds(s.update(ps[i as int], mark_of(t)), !t, !t);
            }
            if (x_turn && v > best_val) || (!x_turn && v < best_val) {
                best_val = v;
                best_pos = Some(pos);
                if (x_turn && v == 1) || (!x_turn && v == -1) {
                    done = true;
                }
            }
            i = i + 1;
        }
        match best_pos {
            Some(p) => {
                proof {
                    let k = p.index();
                    let kk = choose|kk: int| 0 <= kk < i && ps[kk] == k;
                    assert(ps.contains(k));
                    assert forall|j: int| #![trigger ps.contains(j)] ps.contains(j) implies !prefers(
                        t,
                        move_value(s, t, j),
                        move_value(s, t, k),
                    ) by {
                        let jj = choose|jj: int| 0 <= jj < ps.len() && ps[jj] == j;
                        if jj >= i {
                            lemma_value_bounds(s.update(j, mark_of(t)), !t, !t);
                        }
                    }
                    assert forall|j: int| #![trigger ps.contains(j)] ps.contains(j) && j < k
                        implies prefers(t, move_value(s, t, k), move_value(s, t, j)) by {
                        let jj = choose|jj: int| 0 <= jj < ps.len() && ps[jj] == j;
                        assert(jj < kk);
                    }
                }
                self.make_move(&p);
                Some(p)
            },
            None => None,
        }
    }
}

} // verus!
