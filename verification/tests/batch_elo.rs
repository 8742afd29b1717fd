use batch_elo::driver::{elo_ratings, EloError, EPSILON, INITIAL_RATING, ROUND_LIMIT};
use batch_elo::elo::{batch_adjustments, elo_adjustment, expected_score, Game, TeamResult};
use batch_elo::fixed::{pow10_neg_fp, SCALE};

fn game(a: usize, b: usize, pa: i64, pb: i64) -> Game {
    Game { index_a: a, index_b: b, points_a: pa, points_b: pb }
}

#[test]
fn pow10_neg_exact_points() {
    assert_eq!(pow10_neg_fp(0), SCALE);
    assert_eq!(pow10_neg_fp(SCALE), SCALE / 10);
    assert_eq!(pow10_neg_fp(SCALE / 2), 316_228);
    assert_eq!(pow10_neg_fp(13 * SCALE), 0);
    assert_eq!(pow10_neg_fp(i64::MAX), 0);
}

#[test]
fn expected_score_equal_ratings_is_half() {
    assert_eq!(expected_score(INITIAL_RATING, INITIAL_RATING), SCALE / 2);
    assert_eq!(expected_score(0, 0), SCALE / 2);
}

#[test]
fn expected_score_full_class_gap() {
    // 400 rating points of gap: the stronger side expects 1/(1 + 10^-1),
    // which floors to 909090 millionths; the weaker side gets the exact
    // complement.
    let strong = 1_900_000_000;
    let weak = 1_500_000_000;
    assert_eq!(expected_score(strong, weak), 909_090);
    assert_eq!(expected_score(weak, strong), SCALE - 909_090);
}

#[test]
fn round_one_concrete_adjustments() {
    // Two fresh competitors, one game 1.0 : 0.0 -> expected 0.5 each,
    // actual 1.0 and 0.0, so the adjustments are exactly +5.0 and -5.0.
    let a = TeamResult { rating: INITIAL_RATING, points: SCALE };
    let b = TeamResult { rating: INITIAL_RATING, points: 0 };
    assert_eq!(elo_adjustment(&a, &b), 5_000_000);
    assert_eq!(elo_adjustment(&b, &a), -5_000_000);

    let ratings = vec![INITIAL_RATING, INITIAL_RATING];
    let games = vec![game(0, 1, SCALE, 0)];
    let adj = batch_adjustments(&ratings, &games);
    assert_eq!(adj, vec![5_000_000, -5_000_000]);
}

#[test]
fn vacuous_game_adjusts_nobody() {
    let a = TeamResult { rating: 2_222_000_000, points: 0 };
    let b = TeamResult { rating: 1_000_000, points: 0 };
    assert_eq!(elo_adjustment(&a, &b), 0);
    assert_eq!(elo_adjustment(&b, &a), 0);

    // A whole competition of one vacuous game converges immediately with
    // everyone still at the initial rating.
    let games = vec![game(0, 1, 0, 0)];
    let ratings = elo_ratings(2, &games).unwrap_or_else(|_| panic!("must converge"));
    assert_eq!(ratings, vec![INITIAL_RATING, INITIAL_RATING]);
}

#[test]
fn adjustment_swap_is_antisymmetric() {
    // Swapping ratings and points flips the adjustment's sign whenever the
    // actual-score division is exact (here 3.0 : 1.0 and 1.0 : 0.0).
    let cases = [
        (1_505_000_000, 3 * SCALE, 1_495_000_000, SCALE),
        (1_505_000_000, SCALE, 1_495_000_000, 0),
        (1_700_000_000, SCALE, 1_500_000_000, SCALE),
    ];
    for (ra, pa, rb, pb) in cases {
        let team_a = TeamResult { rating: ra, points: pa };
        let team_b = TeamResult { rating: rb, points: pb };
        assert_eq!(elo_adjustment(&team_a, &team_b), -elo_adjustment(&team_b, &team_a));
    }
}

#[test]
fn competitor_with_no_games_keeps_initial_rating() {
    let games = vec![game(0, 1, SCALE, 0)];
    let ratings = elo_ratings(3, &games).unwrap_or_else(|_| panic!("must converge"));
    assert_eq!(ratings.len(), 3);
    assert_eq!(ratings[2], INITIAL_RATING);
}

#[test]
fn negative_points_are_fatal() {
    // One corrupted game aborts the whole computation before any rating
    // comes out.
    let games = vec![game(0, 1, SCALE, 0), game(0, 1, -SCALE, SCALE)];
    match elo_ratings(2, &games) {
        Err(EloError::InvalidInput) => {}
        _ => panic!("negative points must abort"),
    }
    let tiny = vec![game(0, 1, -1, 0)];
    match elo_ratings(2, &tiny) {
        Err(EloError::InvalidInput) => {}
        _ => panic!("negative points must abort"),
    }
}

#[test]
fn one_sided_game_converges_with_winner_on_top() {
    let games = vec![game(0, 1, SCALE, 0)];
    let ratings = elo_ratings(2, &games).unwrap_or_else(|_| panic!("must converge"));
    assert_eq!(ratings.len(), 2);
    assert!(ratings[0] > INITIAL_RATING);
    assert!(ratings[1] < INITIAL_RATING);
}

#[test]
fn repeated_runs_are_identical() {
    let games = vec![game(0, 1, SCALE, 0)];
    let first = elo_ratings(2, &games).unwrap_or_else(|_| panic!("must converge"));
    let second = elo_ratings(2, &games).unwrap_or_else(|_| panic!("must converge"));
    assert_eq!(first, second);
}

#[test]
fn empty_competition_converges_at_once() {
    let ratings = elo_ratings(0, &Vec::new()).unwrap_or_else(|_| panic!("must converge"));
    assert!(ratings.is_empty());
}

#[test]
fn oscillating_competition_never_converges() {
    // Many drawn games between the same pair give the pair a huge effective
    // K per round; one decisive game pushes the equilibrium off the start,
    // and the rounds overshoot it ever harder instead of settling.
    let mut games = Vec::new();
    for _ in 0..100 {
        games.push(game(0, 1, SCALE, SCALE));
    }
    games.push(game(0, 1, SCALE, 0));
    match elo_ratings(2, &games) {
        Err(EloError::NonConvergence(failure)) => {
            assert_eq!(failure.rounds, ROUND_LIMIT);
            assert_eq!(failure.last_ratings.len(), 2);
            assert_eq!(failure.last_adjustments.len(), 2);
            assert!(failure.last_adjustments.iter().any(|a| a.abs() > EPSILON));
        }
        _ => panic!("this competition must not converge"),
    }
}
