use vstd::prelude::*;
use crate::game::{Player, ROWS, COLS};
use crate::order::{visit, place_of, lemma_visit_permutes};
use crate::position::{Position, key_mass};

verus! {

/// The side that moves at a node: `AI` where the node maximizes.
pub open spec fn mover(maximizer: bool) -> Player {
    if maximizer {
        Player::AI
    } else {
        Player::HUMAN
    }
}

/// The score of a node, `depth` plies below the root, at which the side that
/// moved last has four in a row: half the number of plies that were left,
/// against the side that is to move.
pub open spec fn lost_score(maximizer: bool, depth: nat) -> i8 {
    let magnitude = (ROWS * COLS - depth) / 2;
    if maximizer {
        (-magnitude) as i8
    } else {
        magnitude as i8
    }
}

/// The value that `best` starts from: the worst score for the side to move.
pub open spec fn worst_score(maximizer: bool) -> i8 {
    if maximizer {
        i8::MIN
    } else {
        i8::MAX
    }
}

/// What the visit of the children of a node came to: the best score seen,
/// whether the visit ended in a cutoff, and the cache that it left.
pub struct Sweep {
    pub best: i8,
    pub cutoff: bool,
    pub cache: Map<u128, i8>,
}

/// The score of a node and the cache that its evaluation leaves.
///
/// A position found in the cache has the cached score. Else, where the side
/// that moved last has four in a row, the node is lost for the side to move.
/// Else, at the depth limit, the score is neutral. Else the children are
/// visited; the best score among them is the score of the node, and it is
/// written to the cache unless the visit ended in a cutoff.
pub open spec fn evaluate(
    pos: Position,
    cache: Map<u128, i8>,
    maximizer: bool,
    depth: nat,
    max_depth: nat,
    alpha: i8,
    beta: i8,
) -> (i8, Map<u128, i8>)
    decreases max_depth - depth, COLS + 1,
{
    if cache.contains_key(pos.key()) {
        (cache[pos.key()], cache)
    } else if pos.has_four(mover(maximizer).other()) {
        (lost_score(maximizer, depth), cache)
    } else if depth >= max_depth {
        (0i8, cache)
    } else {
        settle(
            pos,
            sweep(pos, cache, maximizer, depth, max_depth, alpha, beta, worst_score(maximizer), 0),
        )
    }
}

/// The outcome of a node whose children were visited: the best score, cached
/// under the key of the position unless the visit was cut off.
pub open spec fn settle(pos: Position, s: Sweep) -> (i8, Map<u128, i8>) {
    if s.cutoff {
        (s.best, s.cache)
    } else {
        (s.best, s.cache.insert(pos.key(), s.best))
    }
}

/// The visit of the children of a node from place `j` of the visiting order
/// on, with the window `alpha`, `beta` and the best score `best` that the
/// earlier children left. A full column is passed over. After every child
/// the best score and the window's bound of the side to move are raised (or
/// lowered) to the child's score, and the visit is cut off as soon as
/// `beta <= alpha`.
pub open spec fn sweep(
    pos: Position,
    cache: Map<u128, i8>,
    maximizer: bool,
    depth: nat,
    max_depth: nat,
    alpha: i8,
    beta: i8,
    best: i8,
    j: nat,
) -> Sweep
    decreases max_depth - depth, COLS - j,
{
    if j >= COLS || depth >= max_depth {
        Sweep { best, cutoff: false, cache }
    } else if pos.height(visit(j as int)) >= ROWS {
        sweep(pos, cache, maximizer, depth, max_depth, alpha, beta, best, j + 1)
    } else {
        let child = evaluate(
            pos.drop(mover(maximizer), visit(j as int)),
            cache,
            !maximizer,
            depth + 1,
            max_depth,
            alpha,
            beta,
        );
        if maximizer {
            let best = if child.0 > best { child.0 } else { best };
            let alpha = if best > alpha { best } else { alpha };
            if beta <= alpha {
                Sweep { best, cutoff: true, cache: child.1 }
            } else {
                sweep(pos, child.1, maximizer, depth, max_depth, alpha, beta, best, j + 1)
            }
        } else {
            let best = if child.0 < best { child.0 } else { best };
            let beta = if best < beta { best } else { beta };
            if beta <= alpha {
                Sweep { best, cutoff: true, cache: child.1 }
            } else {
                sweep(pos, child.1, maximizer, depth, max_depth, alpha, beta, best, j + 1)
            }
        }
    }
}

/// The cache of a search from `pos` after the first `j` columns of the
/// visiting order: it is empty at the start, and every column that is not
/// full adds what the evaluation of the move into it leaves.
pub open spec fn cache_after(pos: Position, max_depth: nat, j: nat) -> Map<u128, i8>
    decreases j,
{
    if j == 0 {
        Map::empty()
    } else {
        let before = cache_after(pos, max_depth, (j - 1) as nat);
        let col = visit(j - 1);
        if pos.height(col) >= ROWS {
            before
        } else {
            evaluate(pos.drop(Player::AI, col), before, false, 1, max_depth, i8::MIN, i8::MAX).1
        }
    }
}

/// The score of the move of `AI` into column `c`: the worst score where the
/// column is full, else the score of the position after the move, evaluated
/// with the full window and the cache that the columns visited earlier left.
pub open spec fn move_score(pos: Position, max_depth: nat, c: int) -> i8 {
    if pos.height(c) >= ROWS {
        i8::MIN
    } else {
        evaluate(
            pos.drop(Player::AI, c),
            cache_after(pos, max_depth, place_of(c) as nat),
            false,
            1,
            max_depth,
            i8::MIN,
            i8::MAX,
        ).0
    }
}

/// The scores of all columns, by column number.
pub open spec fn column_scores(pos: Position, max_depth: nat) -> Seq<i8> {
    Seq::new(COLS as nat, |c: int| move_score(pos, max_depth, c))
}

/// The greatest magnitude of a score that stands for a won or lost game.
pub open spec fn score_limit() -> int {
    (ROWS * COLS) / 2
}

/// A score between the two limits: the score of a decided game, or neutral.
pub open spec fn is_game_score(score: i8) -> bool {
    -score_limit() <= score <= score_limit()
}

/// Every score of the cache is a game score.
pub open spec fn holds_game_scores(cache: Map<u128, i8>) -> bool {
    forall|k: u128| cache.contains_key(k) ==> is_game_score(#[trigger] cache[k])
}

/// The search cannot run out of cells: the plies that are left to the depth
/// limit fit into the empty cells of the board.
pub open spec fn has_room(pos: Position, depth: nat, max_depth: nat) -> bool {
    depth < max_depth ==> pos.tokens() + (max_depth - depth) <= ROWS * COLS
}

/// `grown` holds every entry of `cache`, and its other keys are heavier than
/// `floor`.
pub open spec fn grows_above(cache: Map<u128, i8>, grown: Map<u128, i8>, floor: int) -> bool {
    &&& forall|k: u128| #[trigger]
        cache.contains_key(k) ==> grown.contains_key(k) && grown[k] == cache[k]
    &&& forall|k: u128| #[trigger]
        grown.contains_key(k) ==> cache.contains_key(k) || key_mass(k) > floor
}

/// What grew in two steps grew above the lower of the two floors.
pub proof fn lemma_grows_in_steps(
    cache: Map<u128, i8>,
    between: Map<u128, i8>,
    grown: Map<u128, i8>,
    first_floor: int,
    second_floor: int,
    floor: int,
)
    requires
        grows_above(cache, between, first_floor),
        grows_above(between, grown, second_floor),
        floor <= first_floor,
        floor <= second_floor,
    ensures
        grows_above(cache, grown, floor),
{
    assert forall|k: u128| #[trigger] cache.contains_key(k) implies grown.contains_key(k)
        && grown[k] == cache[k] by {
        assert(between.contains_key(k));
    }
    assert forall|k: u128| #[trigger] grown.contains_key(k) implies cache.contains_key(k)
        || key_mass(k) > floor by {
        if between.contains_key(k) {
        }
    }
}

/// An evaluation keeps every entry of the cache, and whatever it adds lies
/// under the key of the position or under a heavier key.
pub proof fn lemma_evaluate_grows(
    pos: Position,
    cache: Map<u128, i8>,
    maximizer: bool,
    depth: nat,
    max_depth: nat,
    alpha: i8,
    beta: i8,
)
    requires
        pos.wf(),
    ensures
        grows_above(
            cache,
            evaluate(pos, cache, maximizer, depth, max_depth, alpha, beta).1,
            key_mass(pos.key()) - 1,
        ),
    decreases max_depth - depth, COLS + 1,
{
    if !cache.contains_key(pos.key()) && !pos.has_four(mover(maximizer).other()) && depth
        < max_depth {
        lemma_sweep_grows(
            pos,
            cache,
            maximizer,
            depth,
            max_depth,
            alpha,
            beta,
            worst_score(maximizer),
            0,
        );
        let visited = sweep(
            pos,
            cache,
            maximizer,
            depth,
            max_depth,
            alpha,
            beta,
            worst_score(maximizer),
            0,
        );
        let settled = settle(pos, visited).1;
        assert(grows_above(visited.cache, settled, key_mass(pos.key()) - 1));
        lemma_grows_in_steps(
            cache,
            visited.cache,
            settled,
            key_mass(pos.key()),
            key_mass(pos.key()) - 1,
            key_mass(pos.key()) - 1,
        );
    } else {
        assert(grows_above(cache, cache, key_mass(pos.key()) - 1));
    }
}

/// A visit of the children keeps every entry of the cache, and whatever it
/// adds lies under a key that is heavier than that of the position.
pub proof fn lemma_sweep_grows(
    pos: Position,
    cache: Map<u128, i8>,
    maximizer: bool,
    depth: nat,
    max_depth: nat,
    alpha: i8,
    beta: i8,
    best: i8,
    j: nat,
)
    requires
        pos.wf(),
    ensures
        grows_above(
            cache,
            sweep(pos, cache, maximizer, depth, max_depth, alpha, beta, best, j).cache,
            key_mass(pos.key()),
        ),
    decreases max_depth - depth, COLS - j,
{
    if j < COLS && depth < max_depth {
        lemma_visit_permutes();
        let col = visit(j as int);
        if pos.height(col) >= ROWS {
            lemma_sweep_grows(pos, cache, maximizer, depth, max_depth, alpha, beta, best, j + 1);
        } else {
            let after = pos.drop(mover(maximizer), col);
            pos.lemma_drop(mover(maximizer), col);
            pos.lemma_drop_key(mover(maximizer), col);
            let child = evaluate(after, cache, !maximizer, depth + 1, max_depth, alpha, beta);
            lemma_evaluate_grows(after, cache, !maximizer, depth + 1, max_depth, alpha, beta);
            let floor = key_mass(pos.key());
            lemma_grows_in_steps(cache, child.1, child.1, key_mass(after.key()) - 1, floor, floor);
            if maximizer {
                let best1 = if child.0 > best { child.0 } else { best };
                let alpha1 = if best1 > alpha { best1 } else { alpha };
                if beta > alpha1 {
                    lemma_sweep_grows(
                        pos,
                        child.1,
                        maximizer,
                        depth,
                        max_depth,
                        alpha1,
                        beta,
                        best1,
                        j + 1,
                    );
                    lemma_grows_in_steps(
                        cache,
                        child.1,
                        sweep(pos, child.1, maximizer, depth, max_depth, alpha1, beta, best1, j + 1).cache,
                        floor,
                        floor,
                        floor,
                    );
                }
            } else {
                let best1 = if child.0 < best { child.0 } else { best };
                let beta1 = if best1 < beta { best1 } else { beta };
                if beta1 > alpha {
                    lemma_sweep_grows(
                        pos,
                        child.1,
                        maximizer,
                        depth,
                        max_depth,
                        alpha,
                        beta1,
                        best1,
                        j + 1,
                    );
                    lemma_grows_in_steps(
                        cache,
                        child.1,
                        sweep(pos, child.1, maximizer, depth, max_depth, alpha, beta1, best1, j + 1).cache,
                        floor,
                        floor,
                        floor,
                    );
                }
            }
        }
    } else {
        assert(grows_above(cache, cache, key_mass(pos.key())));
    }
}

/// A node whose children are visited is in the cache afterwards, with the
/// score that the evaluation returned, exactly if the visit was not cut off:
/// after a cutoff the cache does not hold the position.
pub proof fn lemma_cutoff_is_not_cached(
    pos: Position,
    cache: Map<u128, i8>,
    maximizer: bool,
    depth: nat,
    max_depth: nat,
    alpha: i8,
    beta: i8,
)
    requires
        pos.wf(),
        !cache.contains_key(pos.key()),
        !pos.has_four(mover(maximizer).other()),
        depth < max_depth,
    ensures
        ({
            let visited = sweep(
                pos,
                cache,
                maximizer,
                depth,
                max_depth,
                alpha,
                beta,
                worst_score(maximizer),
                0,
            );
            let outcome = evaluate(pos, cache, maximizer, depth, max_depth, alpha, beta);
            &&& visited.cutoff ==> !outcome.1.contains_key(pos.key())
            &&& !visited.cutoff ==> outcome.1.contains_key(pos.key()) && outcome.1[pos.key()]
                == outcome.0
        }),
{
    lemma_sweep_grows(
        pos,
        cache,
        maximizer,
        depth,
        max_depth,
        alpha,
        beta,
        worst_score(maximizer),
        0,
    );
}

/// Where the search cannot run out of cells and the cache holds game scores,
/// an evaluation returns a game score and leaves game scores in the cache.
pub proof fn lemma_evaluate_game_score(
    pos: Position,
    cache: Map<u128, i8>,
    maximizer: bool,
    depth: nat,
    max_depth: nat,
    alpha: i8,
    beta: i8,
)
    requires
        pos.wf(),
        depth <= ROWS * COLS,
        max_depth <= ROWS * COLS || depth <= pos.tokens(),
        has_room(pos, depth, max_depth),
        holds_game_scores(cache),
    ensures
        is_game_score(evaluate(pos, cache, maximizer, depth, max_depth, alpha, beta).0),
        holds_game_scores(evaluate(pos, cache, maximizer, depth, max_depth, alpha, beta).1),
    decreases max_depth - depth, COLS + 1,
{
    pos.lemma_height_bound();
    if cache.contains_key(pos.key()) {
    } else if pos.has_four(mover(maximizer).other()) {
    } else if depth >= max_depth {
    } else {
        lemma_sweep_game_score(
            pos,
            cache,
            maximizer,
            depth,
            max_depth,
            alpha,
            beta,
            worst_score(maximizer),
            0,
        );
        let visited = sweep(
            pos,
            cache,
            maximizer,
            depth,
            max_depth,
            alpha,
            beta,
            worst_score(maximizer),
            0,
        );
        if !is_game_score(visited.best) {
            lemma_visit_permutes();
            assert forall|c: int| 0 <= c < COLS implies #[trigger] pos.height(c) >= ROWS by {
                assert(visit(place_of(c)) == c);
            }
            pos.lemma_full_board();
        }
    }
}

/// Under the conditions of `lemma_evaluate_game_score`, a visit of the
/// children that starts from a game score, or from the worst score, leaves
/// game scores in the cache; its best score is a game score unless every
/// column from place `j` on is full.
pub proof fn lemma_sweep_game_score(
    pos: Position,
    cache: Map<u128, i8>,
    maximizer: bool,
    depth: nat,
    max_depth: nat,
    alpha: i8,
    beta: i8,
    best: i8,
    j: nat,
)
    requires
        pos.wf(),
        depth <= ROWS * COLS,
        max_depth <= ROWS * COLS || depth <= pos.tokens(),
        depth < max_depth,
        has_room(pos, depth, max_depth),
        holds_game_scores(cache),
        is_game_score(best) || best == worst_score(maximizer),
    ensures
        holds_game_scores(
            sweep(pos, cache, maximizer, depth, max_depth, alpha, beta, best, j).cache,
        ),
        is_game_score(sweep(pos, cache, maximizer, depth, max_depth, alpha, beta, best, j).best) || (
        best == worst_score(maximizer) && forall|i: int|
            j <= i < COLS ==> pos.height(#[trigger] visit(i)) >= ROWS),
    decreases max_depth - depth, COLS - j,
{
    if j < COLS {
        lemma_visit_permutes();
        let col = visit(j as int);
        if pos.height(col) >= ROWS {
            lemma_sweep_game_score(
                pos,
                cache,
                maximizer,
                depth,
                max_depth,
                alpha,
                beta,
                best,
                j + 1,
            );
        } else {
            let after = pos.drop(mover(maximizer), col);
            pos.lemma_drop(mover(maximizer), col);
            after.lemma_height_bound();
            let child = evaluate(after, cache, !maximizer, depth + 1, max_depth, alpha, beta);
            lemma_evaluate_game_score(after, cache, !maximizer, depth + 1, max_depth, alpha, beta);
            if maximizer {
                let best1 = if child.0 > best { child.0 } else { best };
                let alpha1 = if best1 > alpha { best1 } else { alpha };
                if beta > alpha1 {
                    lemma_sweep_game_score(
                        pos,
                        child.1,
                        maximizer,
                        depth,
                        max_depth,
                        alpha1,
                        beta,
                        best1,
                        j + 1,
                    );
                }
            } else {
                let best1 = if child.0 < best { child.0 } else { best };
                let beta1 = if best1 < beta { best1 } else { beta };
                if beta1 > alpha {
                    lemma_sweep_game_score(
                        pos,
                        child.1,
                        maximizer,
                        depth,
                        max_depth,
                        alpha,
                        beta1,
                        best1,
                        j + 1,
                    );
                }
            }
        }
    }
}

/// Where the search cannot run out of cells, the cache of a search from
/// `pos` holds game scores after every column.
pub proof fn lemma_cache_after_game_scores(pos: Position, max_depth: nat, j: nat)
    requires
        pos.wf(),
        pos.tokens() + max_depth <= ROWS * COLS,
        j <= COLS,
    ensures
        holds_game_scores(cache_after(pos, max_depth, j)),
    decreases j,
{
    if j > 0 {
        lemma_cache_after_game_scores(pos, max_depth, (j - 1) as nat);
        lemma_visit_permutes();
        let col = visit(j - 1);
        if pos.height(col) < ROWS {
            pos.lemma_drop(Player::AI, col);
            lemma_evaluate_game_score(
                pos.drop(Player::AI, col),
                cache_after(pos, max_depth, (j - 1) as nat),
                false,
                1,
                max_depth,
                i8::MIN,
                i8::MAX,
            );
        }
    }
}

/// There is a score for every column, and a full column has the worst
/// score. Where the search cannot run out of cells, no other column has it.
pub proof fn lemma_worst_score_marks_full_columns(pos: Position, max_depth: nat)
    requires
        pos.wf(),
    ensures
        column_scores(pos, max_depth).len() == COLS,
        forall|c: int|
            0 <= c < COLS && pos.height(c) == ROWS ==> #[trigger] column_scores(pos, max_depth)[c]
                == i8::MIN,
        pos.tokens() + max_depth <= ROWS * COLS ==> forall|c: int|
            0 <= c < COLS && #[trigger] column_scores(pos, max_depth)[c] == i8::MIN ==> pos.height(c)
                == ROWS,
{
    if pos.tokens() + max_depth <= ROWS * COLS {
        assert forall|c: int|
            0 <= c < COLS && #[trigger] column_scores(pos, max_depth)[c]
                == i8::MIN implies pos.height(c) == ROWS by {
            if pos.height(c) < ROWS {
                lemma_visit_permutes();
                lemma_cache_after_game_scores(pos, max_depth, place_of(c) as nat);
                pos.lemma_drop(Player::AI, c);
                lemma_evaluate_game_score(
                    pos.drop(Player::AI, c),
                    cache_after(pos, max_depth, place_of(c) as nat),
                    false,
                    1,
                    max_depth,
                    i8::MIN,
                    i8::MAX,
                );
            }
        }
    }
}

} // verus!
