//! Laws of the rating system, stated and proved over the specification
//! functions that the executable contracts use.

use vstd::prelude::*;
use crate::fixed::SCALE;
use crate::elo::{Game, K_FACTOR, spec_adjustment, spec_batch, lemma_expected_complement};
use crate::driver::{INITIAL_RATING, apply_adjustments, initial_ratings, ratings_after};

verus! {

/// Law: the two adjustments one game earns its two sides cancel exactly
/// whenever the actual-score division is exact; otherwise they sum to one
/// rounding step, `-K_FACTOR` (a millionth of the K-factor). The expected
/// scores of the two sides always sum to exactly one, so only the actual
/// score's rounding can break the symmetry.
pub proof fn lemma_adjustment_pair_sum(r_a: int, p_a: int, r_b: int, p_b: int)
    requires
        0 <= p_a,
        0 <= p_b,
        0 < p_a + p_b,
    ensures
        spec_adjustment(r_a, p_a, r_b, p_b) + spec_adjustment(r_b, p_b, r_a, p_a) == if (p_a
            * SCALE) % (p_a + p_b) == 0 {
            0int
        } else {
            -(K_FACTOR as int)
        },
{
    let t = p_a + p_b;
    let qa = p_a * SCALE / t;
    let ra = (p_a * SCALE) % t;
    let qb = p_b * SCALE / t;
    let rb = (p_b * SCALE) % t;
    vstd::arithmetic::div_mod::lemma_fundamental_div_mod(p_a * SCALE, t);
    vstd::arithmetic::div_mod::lemma_fundamental_div_mod(p_b * SCALE, t);
    vstd::arithmetic::div_mod::lemma_mod_division_less_than_divisor(p_a * SCALE, t);
    vstd::arithmetic::div_mod::lemma_mod_division_less_than_divisor(p_b * SCALE, t);
    assert(p_a * SCALE + p_b * SCALE == t * (SCALE as int)) by (nonlinear_arith)
        requires
            t == p_a + p_b,
    ;
    assert(t * (qa + qb) + (ra + rb) == t * (SCALE as int)) by (nonlinear_arith)
        requires
            p_a * SCALE == t * qa + ra,
            p_b * SCALE == t * qb + rb,
            p_a * SCALE + p_b * SCALE == t * (SCALE as int),
    ;
    assert(ra + rb == t * ((SCALE as int) - qa - qb)) by (nonlinear_arith)
        requires
            t * (qa + qb) + (ra + rb) == t * (SCALE as int),
    ;
    if ra == 0 {
        assert(qa + qb == SCALE) by (nonlinear_arith)
            requires
                ra + rb == t * ((SCALE as int) - qa - qb),
                ra == 0,
                0 <= rb < t,
                0 < t,
        ;
    } else {
        assert(qa + qb == SCALE - 1) by (nonlinear_arith)
            requires
                ra + rb == t * ((SCALE as int) - qa - qb),
                0 < ra < t,
                0 <= rb < t,
                0 < t,
        ;
    }
    lemma_expected_complement(r_a, r_b);
}

/// Law: whenever the actual-score division is exact — as it is for the
/// classical outcomes 1:0, 0:1 and 1:1 — swapping the two sides of a game
/// flips the sign of the adjustment.
pub proof fn lemma_adjustment_antisymmetry(r_a: int, p_a: int, r_b: int, p_b: int)
    requires
        0 <= p_a,
        0 <= p_b,
        0 < p_a + p_b,
        (p_a * SCALE) % (p_a + p_b) == 0,
    ensures
        spec_adjustment(r_a, p_a, r_b, p_b) == -spec_adjustment(r_b, p_b, r_a, p_a),
{
    lemma_adjustment_pair_sum(r_a, p_a, r_b, p_b);
}

/// Law: in a universe of exactly two competitors with the one game between
/// them, a round's two adjustments sum to zero — each is the other's
/// negation — whenever the actual-score division is exact.
pub proof fn lemma_two_competitor_round_zero_sum(ratings: Seq<int>, g: Game)
    requires
        ratings.len() == 2,
        g.index_a == 0,
        g.index_b == 1,
        0 <= g.points_a,
        0 <= g.points_b,
        0 < g.points_a + g.points_b,
        (g.points_a * SCALE) % (g.points_a + g.points_b) == 0,
    ensures
        spec_batch(ratings, seq![g])[0] == -spec_batch(ratings, seq![g])[1],
{
    let games = seq![g];
    assert(games.drop_last() =~= Seq::<Game>::empty());
    assert(games.last() == g);
    let zeros = spec_batch(ratings, games.drop_last());
    assert(zeros == Seq::new(2, |i: int| 0int));
    lemma_adjustment_antisymmetry(
        ratings[0],
        g.points_a as int,
        ratings[1],
        g.points_b as int,
    );
}

/// Law: a game with no recorded outcome adjusts neither side, whatever the
/// ratings are.
pub proof fn lemma_vacuous_game(r_a: int, r_b: int)
    ensures
        spec_adjustment(r_a, 0, r_b, 0) == 0,
        spec_adjustment(r_b, 0, r_a, 0) == 0,
{
}

/// Law: at most one round can be the first converging one, so the rating
/// vector the driver promises for success is a function of the input alone.
pub proof fn lemma_first_converging_round_unique(n: int, games: Seq<Game>, k1: nat, k2: nat)
    requires
        crate::driver::converges_at(n, games, k1),
        crate::driver::converges_at(n, games, k2),
    ensures
        k1 == k2,
{
    if k1 < k2 {
        assert(!crate::driver::round_converged(n, games, k1));
    } else if k2 < k1 {
        assert(!crate::driver::round_converged(n, games, k2));
    }
}

/// Whether the competitor at index `i` appears in any game of the list.
pub open spec fn plays_in(games: Seq<Game>, i: int) -> bool {
    exists|j: int|
        0 <= j < games.len() && ((#[trigger] games[j]).index_a == i || games[j].index_b == i)
}

/// Law: a competitor who appears in no game accumulates an adjustment of
/// exactly zero in a round, whatever the ratings are.
pub proof fn lemma_idle_zero_adjustment(ratings: Seq<int>, games: Seq<Game>, i: int)
    requires
        0 <= i < ratings.len(),
        crate::elo::games_in_range(games, ratings.len() as int),
        !plays_in(games, i),
    ensures
        spec_batch(ratings, games)[i] == 0,
    decreases games.len(),
{
    crate::elo::lemma_spec_batch_len(ratings, games);
    if games.len() > 0 {
        let rest = games.drop_last();
        assert(crate::elo::games_in_range(rest, ratings.len() as int)) by {
            assert forall|j: int| 0 <= j < rest.len() implies crate::elo::game_in_range(
                #[trigger] rest[j],
                ratings.len() as int,
            ) by {
                assert(rest[j] == games[j]);
            }
        }
        crate::elo::lemma_spec_batch_len(ratings, rest);
        assert(!plays_in(rest, i)) by {
            if plays_in(rest, i) {
                let j = choose|j: int|
                    0 <= j < rest.len() && ((#[trigger] rest[j]).index_a == i || rest[j].index_b
                        == i);
                assert(games[j] == rest[j]);
            }
        }
        lemma_idle_zero_adjustment(ratings, rest, i);
        let last = games.len() - 1;
        assert(!(games[last].index_a == i || games[last].index_b == i));
    }
}

/// Law: a competitor who appears in no game stays at the initial rating
/// `1500.0` after every number of rounds.
pub proof fn lemma_idle_keeps_initial(n: int, games: Seq<Game>, k: nat, i: int)
    requires
        0 <= i < n,
        crate::elo::games_in_range(games, n),
        !plays_in(games, i),
    ensures
        ratings_after(n, games, k).len() == n,
        ratings_after(n, games, k)[i] == INITIAL_RATING as int,
    decreases k,
{
    if k == 0 {
        assert(ratings_after(n, games, 0) == initial_ratings(n));
    } else {
        lemma_idle_keeps_initial(n, games, (k - 1) as nat, i);
        let prev = ratings_after(n, games, (k - 1) as nat);
        lemma_idle_zero_adjustment(prev, games, i);
        assert(ratings_after(n, games, k) == apply_adjustments(prev, spec_batch(prev, games)));
    }
}

} // verus!
