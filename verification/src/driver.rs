//! The convergence driver: iterated batch Elo.
//!
//! Starting from a neutral rating of `1500.0` for every competitor, each
//! round recomputes the whole adjustment vector from one snapshot of the
//! ratings, applies it, and then checks the stopping criterion. The driver
//! returns the converged rating vector, or a full diagnostic bundle when the
//! round limit runs out.

use vstd::prelude::*;
use vstd::assert_seqs_equal;
use vstd::pervasive::VecAdditionalExecFns;
use crate::elo::{
    Game, GAME_SLOT_BOUND, MAX_GAMES, all_points_nonneg, batch_adjustments, games_in_range,
    spec_batch,
};

verus! {

/// A round converges when every adjustment's magnitude is at most `EPSILON`
/// (`0.01` in fixed point).
pub const EPSILON: i64 = 10_000;

/// Every competitor's starting rating: `1500.0` in fixed point.
pub const INITIAL_RATING: i64 = 1_500_000_000;

/// Rounds tried before the driver declares failure.
pub const ROUND_LIMIT: usize = 10_000;

/// The rating vector as mathematical integers.
pub open spec fn int_seq(s: Seq<i64>) -> Seq<int> {
    s.map_values(|v: i64| v as int)
}

/// Every competitor starts at the neutral rating.
pub open spec fn initial_ratings(n: int) -> Seq<int> {
    Seq::new(n as nat, |i: int| INITIAL_RATING as int)
}

/// One round's application: every adjustment added to its rating at once.
pub open spec fn apply_adjustments(ratings: Seq<int>, adjustments: Seq<int>) -> Seq<int> {
    Seq::new(ratings.len(), |i: int| ratings[i] + adjustments[i])
}

/// The stopping criterion: every adjustment within `EPSILON` of zero.
pub open spec fn converged(adjustments: Seq<int>) -> bool {
    forall|i: int|
        0 <= i < adjustments.len() ==> -EPSILON <= #[trigger] adjustments[i] <= EPSILON
}

/// The rating vector after `k` full rounds of batch adjustment, starting
/// from the neutral initial vector.
pub open spec fn ratings_after(n: int, games: Seq<Game>, k: nat) -> Seq<int>
    decreases k,
{
    if k == 0 {
        initial_ratings(n)
    } else {
        let prev = ratings_after(n, games, (k - 1) as nat);
        apply_adjustments(prev, spec_batch(prev, games))
    }
}

/// Whether round `k` (counted from 1) meets the stopping criterion: the
/// adjustments computed from the ratings standing before that round are all
/// within `EPSILON`. The adjustments are applied first and checked after.
pub open spec fn round_converged(n: int, games: Seq<Game>, k: nat) -> bool
    recommends
        k >= 1,
{
    converged(spec_batch(ratings_after(n, games, (k - 1) as nat), games))
}

/// Round `k` is the first converging round.
pub open spec fn converges_at(n: int, games: Seq<Game>, k: nat) -> bool {
    &&& 1 <= k
    &&& round_converged(n, games, k)
    &&& forall|j: nat| 1 <= j < k ==> !#[trigger] round_converged(n, games, j)
}

/// The diagnostic bundle of a run that exhausted the round limit: how many
/// rounds ran, and the (unconverged) ratings and adjustments of the last one.
pub struct ConvergenceFailure {
    pub rounds: usize,
    pub last_ratings: Vec<i64>,
    pub last_adjustments: Vec<i64>,
}

/// Everything that can go wrong when rating a competition: a game with a
/// negative score (malformed input, fatal), or a game list whose ratings
/// never settle within the round limit.
pub enum EloError {
    InvalidInput,
    NonConvergence(ConvergenceFailure),
}

/// Arithmetic helper: the total drift of any rating stays far inside the
/// machine range for every round count within the limit.
proof fn lemma_drift_bounds(round: int, glen: int)
    requires
        0 <= round <= ROUND_LIMIT,
        0 <= glen <= MAX_GAMES,
    ensures
        0 <= round * (glen * GAME_SLOT_BOUND) <= 2_000_000_000_000_000,
        0 <= glen * GAME_SLOT_BOUND <= 200_000_000_000,
{
    assert(0 <= glen * GAME_SLOT_BOUND <= 200_000_000_000) by (nonlinear_arith)
        requires
            0 <= glen <= MAX_GAMES,
    ;
    assert(0 <= round * (glen * GAME_SLOT_BOUND) <= 2_000_000_000_000_000) by (nonlinear_arith)
        requires
            0 <= round <= ROUND_LIMIT,
            0 <= glen * GAME_SLOT_BOUND <= 200_000_000_000,
    ;
}

/// Arithmetic helper: one more round of drift.
proof fn lemma_drift_step(round: int, d: int)
    requires
        0 <= round,
        0 <= d,
    ensures
        round * d + d == (round + 1) * d,
{
    assert(round * d + d == (round + 1) * d) by (nonlinear_arith);
}

/// Iterated batch Elo: from a neutral `1500.0` for each of the `n_teams`
/// competitors, apply whole-batch adjustment rounds until every adjustment
/// is within `EPSILON`, for at most `ROUND_LIMIT` rounds.
///
/// Returns the first converged rating vector; `InvalidInput` when any game
/// carries a negative score, before any rating work; and otherwise the
/// `NonConvergence` diagnostic bundle with the final round's state, the
/// adjustments of the final round applied.
pub fn elo_ratings(n_teams: usize, games: &Vec<Game>) -> (result: Result<Vec<i64>, EloError>)
    requires
        games@.len() <= MAX_GAMES,
        games_in_range(games@, n_teams as int),
    ensures
        match result {
            Ok(ratings) => {
                &&& all_points_nonneg(games@)
                &&& ratings@.len() == n_teams
                &&& exists|k: nat|
                    #[trigger] converges_at(n_teams as int, games@, k) && k <= ROUND_LIMIT
                        && int_seq(ratings@) == ratings_after(n_teams as int, games@, k)
            },
            Err(EloError::InvalidInput) => !all_points_nonneg(games@),
            Err(EloError::NonConvergence(failure)) => {
                &&& all_points_nonneg(games@)
                &&& forall|k: nat|
                    1 <= k <= ROUND_LIMIT ==> !#[trigger] round_converged(
                        n_teams as int,
                        games@,
                        k,
                    )
                &&& failure.rounds == ROUND_LIMIT
                &&& failure.last_ratings@.len() == n_teams
                &&& int_seq(failure.last_ratings@) == ratings_after(
                    n_teams as int,
                    games@,
                    ROUND_LIMIT as nat,
                )
                &&& int_seq(failure.last_adjustments@) == spec_batch(
                    ratings_after(n_teams as int, games@, (ROUND_LIMIT - 1) as nat),
                    games@,
                )
            },
        },
{
    let mut v: usize = 0;
    while v < games.len()
        invariant
            v <= games@.len(),
            forall|j: int|
                0 <= j < v ==> 0 <= #[trigger] games@[j].points_a && 0 <= games@[j].points_b,
        decreases games@.len() - v,
    {
        let gm = &games[v];
        if gm.points_a < 0 || gm.points_b < 0 {
            assert(!all_points_nonneg(games@)) by {
                assert(!(0 <= games@[v as int].points_a && 0 <= games@[v as int].points_b));
            }
            return Err(EloError::InvalidInput);
        }
        v = v + 1;
    }
    assert(all_points_nonneg(games@));

    let mut ratings: Vec<i64> = Vec::new();
    let mut t: usize = 0;
    while t < n_teams
        invariant
            ratings@.len() == t <= n_teams,
            forall|j: int| 0 <= j < t ==> #[trigger] ratings@[j] == INITIAL_RATING,
        decreases n_teams - t,
    {
        ratings.push(INITIAL_RATING);
        t = t + 1;
    }
    proof {
        assert_seqs_equal!(int_seq(ratings@), initial_ratings(n_teams as int));
    }

    let glen = games.len();
    let mut last_adjustments: Vec<i64> = Vec::new();
    let mut round: usize = 0;
    while round < ROUND_LIMIT
        invariant
            round <= ROUND_LIMIT,
            glen == games@.len() <= MAX_GAMES,
            games_in_range(games@, n_teams as int),
            all_points_nonneg(games@),
            ratings@.len() == n_teams,
            int_seq(ratings@) == ratings_after(n_teams as int, games@, round as nat),
            forall|k: nat|
                1 <= k <= round ==> !#[trigger] round_converged(n_teams as int, games@, k),
            forall|i: int|
                0 <= i < n_teams ==> INITIAL_RATING - (round as int) * ((glen as int)
                    * GAME_SLOT_BOUND) <= #[trigger] ratings@[i] <= INITIAL_RATING + (
                round as int) * ((glen as int) * GAME_SLOT_BOUND),
            round >= 1 ==> {
                &&& last_adjustments@.len() == n_teams
                &&& int_seq(last_adjustments@) == spec_batch(
                    ratings_after(n_teams as int, games@, (round - 1) as nat),
                    games@,
                )
            },
        decreases ROUND_LIMIT - round,
    {
        proof {
            lemma_drift_bounds(round as int, glen as int);
        }
        let adjustments = batch_adjustments(&ratings, games);
        let ghost prev = int_seq(ratings@);
        let mut converged_now = true;
        let mut i: usize = 0;
        while i < n_teams
            invariant
                i <= n_teams,
                round < ROUND_LIMIT,
                glen == games@.len() <= MAX_GAMES,
                ratings@.len() == n_teams,
                adjustments@.len() == n_teams,
                prev.len() == n_teams,
                forall|j: int| i <= j < n_teams ==> #[trigger] ratings@[j] == prev[j],
                forall|j: int|
                    0 <= j < i ==> #[trigger] ratings@[j] == prev[j] + adjustments@[j],
                forall|j: int|
                    0 <= j < n_teams ==> INITIAL_RATING - (round as int) * ((glen as int)
                        * GAME_SLOT_BOUND) <= #[trigger] prev[j] <= INITIAL_RATING + (
                    round as int) * ((glen as int) * GAME_SLOT_BOUND),
                forall|j: int|
                    0 <= j < n_teams ==> -((glen as int) * GAME_SLOT_BOUND)
                        <= #[trigger] adjustments@[j] <= (glen as int) * GAME_SLOT_BOUND,
                converged_now == (forall|j: int|
                    0 <= j < i ==> -EPSILON <= #[trigger] adjustments@[j] <= EPSILON),
            decreases n_teams - i,
        {
            proof {
                lemma_drift_bounds(round as int, glen as int);
                lemma_drift_bounds(round as int + 1, glen as int);
                lemma_drift_step(round as int, (glen as int) * GAME_SLOT_BOUND);
            }
            let a = adjustments[i];
            let updated = ratings[i] + a;
            ratings.set(i, updated);
            if a > EPSILON || a < -EPSILON {
                converged_now = false;
            }
            i = i + 1;
        }
        proof {
            assert_seqs_equal!(
                int_seq(ratings@),
                apply_adjustments(prev, int_seq(adjustments@))
            );
            assert(int_seq(ratings@) == ratings_after(n_teams as int, games@, (round + 1) as nat));
            let mapped = int_seq(adjustments@);
            assert(mapped.len() == n_teams);
            if converged_now {
                assert forall|j: int| 0 <= j < n_teams implies -EPSILON <= #[trigger] mapped[j]
                    <= EPSILON by {
                    assert(mapped[j] == adjustments@[j] as int);
                    assert(-EPSILON <= adjustments@[j] <= EPSILON);
                }
                assert(converged(mapped));
            } else {
                let j = choose|j: int|
                    0 <= j < n_teams && !(-EPSILON <= #[trigger] adjustments@[j] <= EPSILON);
                assert(mapped[j] == adjustments@[j] as int);
                assert(!converged(mapped));
            }
            assert(converged_now == round_converged(n_teams as int, games@, (round + 1) as nat));
            lemma_drift_bounds(round as int + 1, glen as int);
            lemma_drift_step(round as int, (glen as int) * GAME_SLOT_BOUND);
        }
        last_adjustments = adjustments;
        if converged_now {
            proof {
                assert(converges_at(n_teams as int, games@, (round + 1) as nat));
            }
            return Ok(ratings);
        }
        round = round + 1;
    }
    Err(
        EloError::NonConvergence(
            ConvergenceFailure {
                rounds: ROUND_LIMIT,
                last_ratings: ratings,
                last_adjustments: last_adjustments,
            },
        ),
    )
}

} // verus!
