//! Pairwise Elo adjustment and the batch aggregator.
//!
//! Basic Elo update: `R += K * (S - Q / (Q + Q_opp))` where `Q = 10^(R/400)`,
//! `S` is the fraction of the points the team took, and `K = 10`. All values
//! are fixed-point millionths (see [`crate::fixed`]).

use vstd::prelude::*;
use vstd::assert_seqs_equal;
use vstd::pervasive::VecAdditionalExecFns;
use crate::fixed::{SCALE, pow10_neg, pow10_neg_fp, lemma_pow10_neg_bounds};

verus! {

/// The Elo K-factor: adjustments are `K_FACTOR * (actual - expected)`.
pub const K_FACTOR: i64 = 10;

/// The largest magnitude one game can adjust a rating by:
/// `K_FACTOR * SCALE`, that is `10.0` in fixed point.
pub const GAME_ADJ_BOUND: i64 = 10_000_000;

/// The largest magnitude one game can add to one slot of the adjustment
/// vector in one round: twice `GAME_ADJ_BOUND`, since a game may pair an
/// index with itself.
pub const GAME_SLOT_BOUND: i64 = 20_000_000;

/// Largest score accepted for one side of a game (one million points),
/// so that the actual-score division cannot overflow.
pub const MAX_POINTS: i64 = 1_000_000_000_000;

/// Largest number of games one batch accepts, so that no rating the
/// convergence driver ever forms can overflow.
pub const MAX_GAMES: usize = 10_000;

/// Largest rating magnitude the adjustment functions accept; the convergence
/// driver keeps every rating far inside this bound.
pub const RATING_BOUND: i64 = 4_000_000_000_000_000;

/// One competitor's side of a game: current rating and points scored.
/// The points can be in any norm; only the fraction of the pair's total
/// matters.
pub struct TeamResult {
    pub rating: i64,
    pub points: i64,
}

/// A game between the competitors at two indices of the rating vector,
/// with the nonnegative score split between them.
#[derive(Clone, Copy)]
pub struct Game {
    pub index_a: usize,
    pub index_b: usize,
    pub points_a: i64,
    pub points_b: i64,
}

/// The expected score of a team rated `r_team` against one rated `r_opp`:
/// `Q / (Q + Q_opp) = 1 / (1 + 10^((r_opp - r_team)/400))`, in fixed point.
/// The power of ten is evaluated on the negative exponent only, so the two
/// branches are exact mirrors and sum to `SCALE`.
pub open spec fn spec_expected(r_team: int, r_opp: int) -> int {
    let diff = r_opp - r_team;
    if diff <= 0 {
        let p = pow10_neg((-diff) / 400);
        (SCALE as int) * (SCALE as int) / (SCALE + p)
    } else {
        let p = pow10_neg(diff / 400);
        SCALE - (SCALE as int) * (SCALE as int) / (SCALE + p)
    }
}

/// The adjustment one game earns a team: zero for a game with no recorded
/// outcome, else `K_FACTOR * (actual - expected)` where `actual` is the
/// team's fraction of the points.
pub open spec fn spec_adjustment(r_team: int, p_team: int, r_opp: int, p_opp: int) -> int {
    if p_team == 0 && p_opp == 0 {
        0
    } else {
        let actual = p_team * SCALE / (p_team + p_opp);
        K_FACTOR * (actual - spec_expected(r_team, r_opp))
    }
}

/// The expected score lies in `[0, SCALE]`.
pub proof fn lemma_expected_bounds(r_team: int, r_opp: int)
    ensures
        0 <= spec_expected(r_team, r_opp) <= SCALE,
{
    let diff = r_opp - r_team;
    let t = if diff <= 0 { (-diff) / 400 } else { diff / 400 };
    vstd::arithmetic::div_mod::lemma_div_pos_is_pos(if diff <= 0 { -diff } else { diff }, 400);
    lemma_pow10_neg_bounds(t);
    let p = pow10_neg(t);
    let e = (SCALE as int) * (SCALE as int) / (SCALE + p);
    vstd::arithmetic::div_mod::lemma_div_pos_is_pos((SCALE as int) * (SCALE as int), SCALE + p);
    vstd::arithmetic::div_mod::lemma_div_is_ordered_by_denominator(
        (SCALE as int) * (SCALE as int),
        SCALE as int,
        SCALE + p,
    );
    vstd::arithmetic::div_mod::lemma_div_by_multiple(SCALE as int, SCALE as int);
    assert(e <= SCALE);
}

/// The two sides of one pairing have expected scores that sum to exactly one:
/// `spec_expected(a, b) + spec_expected(b, a) == SCALE`.
pub proof fn lemma_expected_complement(r_a: int, r_b: int)
    ensures
        spec_expected(r_a, r_b) + spec_expected(r_b, r_a) == SCALE,
{
    if r_a == r_b {
        crate::fixed::lemma_pow10_neg_zero();
        assert(spec_expected(r_a, r_b) == (SCALE as int) * (SCALE as int) / (2 * SCALE as int));
        assert((SCALE as int) * (SCALE as int) / (2 * SCALE as int) == 500_000) by (nonlinear_arith);
    }
}

/// `K_FACTOR * (S - Q/(Q + Q_opp))` for one team of one game, in fixed point.
///
/// The adjustment is zero when neither side scored; otherwise it is the
/// K-factor times the gap between the actual score fraction and the expected
/// one, and never exceeds `GAME_ADJ_BOUND` in magnitude.
pub fn elo_adjustment(team: &TeamResult, opponent: &TeamResult) -> (adj: i64)
    requires
        0 <= team.points <= MAX_POINTS,
        0 <= opponent.points <= MAX_POINTS,
        -RATING_BOUND <= team.rating <= RATING_BOUND,
        -RATING_BOUND <= opponent.rating <= RATING_BOUND,
    ensures
        adj == spec_adjustment(
            team.rating as int,
            team.points as int,
            opponent.rating as int,
            opponent.points as int,
        ),
        -GAME_ADJ_BOUND <= adj <= GAME_ADJ_BOUND,
        team.points == 0 && opponent.points == 0 ==> adj == 0,
    {
    if team.points == 0 && opponent.points == 0 {
        return 0;
    }
    let total: i64 = team.points + opponent.points;
    let actual: i64 = (team.points * SCALE) / total;
    proof {
        vstd::arithmetic::div_mod::lemma_div_pos_is_pos(team.points as int * SCALE as int, total as int);
        assert(team.points * SCALE <= total * SCALE) by (nonlinear_arith)
            requires
                0 <= team.points,
                team.points <= total,
                0 < SCALE,
        ;
        vstd::arithmetic::div_mod::lemma_div_is_ordered(
            team.points as int * SCALE as int,
            total as int * SCALE as int,
            total as int,
        );
        vstd::arithmetic::div_mod::lemma_div_by_multiple(SCALE as int, total as int);
        assert(total as int * SCALE as int == SCALE as int * total as int) by (nonlinear_arith);
        assert(actual <= SCALE);
    }
    let expected: i64 = expected_score(team.rating, opponent.rating);
    K_FACTOR * (actual - expected)
}

/// The expected score of `r_team` against `r_opp`, in fixed point.
pub fn expected_score(r_team: i64, r_opp: i64) -> (e: i64)
    requires
        -RATING_BOUND <= r_team <= RATING_BOUND,
        -RATING_BOUND <= r_opp <= RATING_BOUND,
    ensures
        e == spec_expected(r_team as int, r_opp as int),
        0 <= e <= SCALE,
{
    proof {
        lemma_expected_bounds(r_team as int, r_opp as int);
    }
    let diff: i64 = r_opp - r_team;
    if diff <= 0 {
        let p = pow10_neg_fp((-diff) / 400);
        proof {
            vstd::arithmetic::div_mod::lemma_div_pos_is_pos(-diff as int, 400);
            vstd::arithmetic::div_mod::lemma_div_pos_is_pos(
                (SCALE as int) * (SCALE as int),
                SCALE + p,
            );
            vstd::arithmetic::div_mod::lemma_div_is_ordered_by_denominator(
                (SCALE as int) * (SCALE as int),
                SCALE as int,
                SCALE + p,
            );
            vstd::arithmetic::div_mod::lemma_div_by_multiple(SCALE as int, SCALE as int);
        }
        (SCALE * SCALE) / (SCALE + p)
    } else {
        let p = pow10_neg_fp(diff / 400);
        proof {
            vstd::arithmetic::div_mod::lemma_div_pos_is_pos(diff as int, 400);
            vstd::arithmetic::div_mod::lemma_div_pos_is_pos(
                (SCALE as int) * (SCALE as int),
                SCALE + p,
            );
            vstd::arithmetic::div_mod::lemma_div_is_ordered_by_denominator(
                (SCALE as int) * (SCALE as int),
                SCALE as int,
                SCALE + p,
            );
            vstd::arithmetic::div_mod::lemma_div_by_multiple(SCALE as int, SCALE as int);
        }
        SCALE - (SCALE * SCALE) / (SCALE + p)
    }
}

/// A game that a rating vector of length `n` can accept: indices in range
/// and scores within the machine bound. Says nothing about the scores' signs.
pub open spec fn game_in_range(g: Game, n: int) -> bool {
    g.index_a < n && g.index_b < n && g.points_a <= MAX_POINTS && g.points_b <= MAX_POINTS
}

/// Every game of the list is in range for a rating vector of length `n`.
pub open spec fn games_in_range(games: Seq<Game>, n: int) -> bool {
    forall|i: int| 0 <= i < games.len() ==> game_in_range(#[trigger] games[i], n)
}

/// Every game's two scores are nonnegative.
pub open spec fn all_points_nonneg(games: Seq<Game>) -> bool {
    forall|i: int|
        0 <= i < games.len() ==> 0 <= #[trigger] games[i].points_a && 0 <= games[i].points_b
}

/// The adjustment vector one round earns from `games`, all of it computed
/// against the one rating snapshot `ratings`: for each game, the team at
/// `index_a` accumulates its adjustment against the team at `index_b`, and
/// conversely.
pub open spec fn spec_batch(ratings: Seq<int>, games: Seq<Game>) -> Seq<int>
    decreases games.len(),
{
    if games.len() == 0 {
        Seq::new(ratings.len(), |i: int| 0int)
    } else {
        let prev = spec_batch(ratings, games.drop_last());
        let g = games.last();
        let a = g.index_a as int;
        let b = g.index_b as int;
        let with_a = prev.update(
            a,
            prev[a] + spec_adjustment(ratings[a], g.points_a as int, ratings[b], g.points_b as int),
        );
        with_a.update(
            b,
            with_a[b] + spec_adjustment(
                ratings[b],
                g.points_b as int,
                ratings[a],
                g.points_a as int,
            ),
        )
    }
}

/// The batch never changes the vector's length.
pub proof fn lemma_spec_batch_len(ratings: Seq<int>, games: Seq<Game>)
    requires
        games_in_range(games, ratings.len() as int),
    ensures
        spec_batch(ratings, games).len() == ratings.len(),
    decreases games.len(),
{
    if games.len() > 0 {
        lemma_spec_batch_len(ratings, games.drop_last());
    }
}

/// One round of the batch aggregator: the adjustment every competitor earns
/// from every game, all computed from the one snapshot `ratings`.
pub fn batch_adjustments(ratings: &Vec<i64>, games: &Vec<Game>) -> (adjustments: Vec<i64>)
    requires
        games@.len() <= MAX_GAMES,
        games_in_range(games@, ratings@.len() as int),
        all_points_nonneg(games@),
        forall|i: int|
            0 <= i < ratings@.len() ==> -RATING_BOUND <= #[trigger] ratings@[i] <= RATING_BOUND,
    ensures
        adjustments@.len() == ratings@.len(),
        adjustments@.map_values(|v: i64| v as int) == spec_batch(
            ratings@.map_values(|v: i64| v as int),
            games@,
        ),
        forall|i: int|
            0 <= i < adjustments@.len() ==> -(games@.len() as int) * GAME_SLOT_BOUND
                <= #[trigger] adjustments@[i] <= (games@.len() as int) * GAME_SLOT_BOUND,
{
    let ghost model = ratings@.map_values(|v: i64| v as int);
    let n = ratings.len();
    let mut adjustments: Vec<i64> = Vec::new();
    let mut j: usize = 0;
    while j < n
        invariant
            adjustments@.len() == j <= n,
            forall|i: int| 0 <= i < j ==> adjustments@[i] == 0,
        decreases n - j,
    {
        adjustments.push(0);
        j = j + 1;
    }
    proof {
        assert_seqs_equal!(adjustments@.map_values(|v: i64| v as int), spec_batch(model, games@.take(0)));
    }
    let mut g: usize = 0;
    while g < games.len()
        invariant
            g <= games@.len() <= MAX_GAMES,
            games_in_range(games@, ratings@.len() as int),
            all_points_nonneg(games@),
            forall|i: int|
                0 <= i < ratings@.len() ==> -RATING_BOUND <= #[trigger] ratings@[i]
                    <= RATING_BOUND,
            model == ratings@.map_values(|v: i64| v as int),
            adjustments@.len() == ratings@.len(),
            adjustments@.map_values(|v: i64| v as int) == spec_batch(model, games@.take(g as int)),
            forall|i: int|
                0 <= i < adjustments@.len() ==> -(g as int) * GAME_SLOT_BOUND
                    <= #[trigger] adjustments@[i] <= (g as int) * GAME_SLOT_BOUND,
        decreases games@.len() - g,
    {
        let game = &games[g];
        let team_a = TeamResult { rating: ratings[game.index_a], points: game.points_a };
        let team_b = TeamResult { rating: ratings[game.index_b], points: game.points_b };
        let adj_a = elo_adjustment(&team_a, &team_b);
        let adj_b = elo_adjustment(&team_b, &team_a);
        let ghost before = adjustments@.map_values(|v: i64| v as int);
        proof {
            lemma_step_bound(g as int, games@.len() as int);
        }
        let slot_a = adjustments[game.index_a] + adj_a;
        adjustments.set(game.index_a, slot_a);
        let slot_b = adjustments[game.index_b] + adj_b;
        adjustments.set(game.index_b, slot_b);
        proof {
            let taken = games@.take(g as int + 1);
            assert(taken.drop_last() =~= games@.take(g as int));
            assert(taken.last() == games@[g as int]);
            let a = games@[g as int].index_a as int;
            let b = games@[g as int].index_b as int;
            let with_a = before.update(a, before[a] + adj_a as int);
            assert_seqs_equal!(
                adjustments@.map_values(|v: i64| v as int),
                with_a.update(b, with_a[b] + adj_b as int)
            );
        }
        g = g + 1;
    }
    proof {
        assert(games@.take(games@.len() as int) =~= games@);
    }
    adjustments
}

/// Arithmetic helper: growing a per-slot bound by one game's worth, with the
/// whole-batch bound staying far inside the machine range.
proof fn lemma_step_bound(g: int, len: int)
    requires
        0 <= g < len <= MAX_GAMES,
    ensures
        g * GAME_SLOT_BOUND + GAME_SLOT_BOUND <= len * GAME_SLOT_BOUND,
        -(len * GAME_SLOT_BOUND) <= -(g * GAME_SLOT_BOUND) - GAME_SLOT_BOUND,
        len * GAME_SLOT_BOUND <= 200_000_000_000,
{
    assert((g + 1) * GAME_SLOT_BOUND <= len * GAME_SLOT_BOUND) by (nonlinear_arith)
        requires
            g + 1 <= len,
            0 < GAME_SLOT_BOUND,
    ;
    assert((g + 1) * GAME_SLOT_BOUND == g * GAME_SLOT_BOUND + GAME_SLOT_BOUND) by (nonlinear_arith);
    assert(len * GAME_SLOT_BOUND <= 200_000_000_000) by (nonlinear_arith)
        requires
            0 <= len <= MAX_GAMES,
    ;
}

} // verus!
