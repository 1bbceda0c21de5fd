use rankfide::rating::{
    cap_k_factor, k_factor, k_factor_reply, round_half_away_from_zero, AppState, CalcOutcome, Calculator,
    GameResult, OnePlayerGame, RoundedValue,
};
use rankfide::table::{InitialTable, ProbabilityRecord, ProbabilityTable};

fn row(min: i32, max: i32, big: i32, small: i32) -> ProbabilityRecord {
    ProbabilityRecord { min_diff: min * 100, max_diff: max * 100, prob_big: big, prob_small: small }
}

fn probability_table() -> ProbabilityTable {
    let rows = vec![
        row(0, 3, 50, 50),
        row(4, 10, 51, 49),
        row(11, 17, 52, 48),
        row(18, 25, 53, 47),
        row(26, 32, 54, 46),
        row(33, 39, 55, 45),
        row(40, 46, 56, 44),
        row(47, 53, 57, 43),
        row(54, 399, 70, 30),
        row(400, 5000, 92, 8),
    ];
    ProbabilityTable::from_records(rows).unwrap()
}

fn initial_table() -> InitialTable {
    let rows = (0..=100).map(|p| ProbabilityRecord { min_diff: p, max_diff: (p - 50) * 800, prob_big: 0, prob_small: 0 }).collect();
    InitialTable::from_records(rows).unwrap()
}

fn calculator() -> Calculator {
    Calculator::new(probability_table(), initial_table())
}

fn game(opponent_rating: u16, result: GameResult) -> OnePlayerGame {
    OnePlayerGame { opponent_rating, result }
}

fn rated(my_rating: u16, k_factor: u16, games: Vec<OnePlayerGame>) -> AppState {
    let mut s = AppState::new();
    s.my_rating = my_rating;
    s.k_factor = k_factor;
    s.games = games;
    s
}

fn unrated(games: Vec<OnePlayerGame>) -> AppState {
    let mut s = AppState::new();
    s.has_rating = false;
    s.games = games;
    s
}

#[test]
fn tables_are_checked_for_coverage() {
    assert!(ProbabilityTable::from_records(vec![row(0, 4999, 50, 50)]).is_none());
    assert!(ProbabilityTable::from_records(vec![row(0, 10, 50, 50), row(12, 5000, 50, 50)]).is_none());
    assert!(ProbabilityTable::from_records(vec![row(0, 10, 50, 50), row(11, 5000, 50, 50)]).is_some());
    let t = probability_table();
    assert!(t.covers_difference(0));
    assert!(t.covers_difference(5000));
    assert!(!t.covers_difference(5001));
    assert_eq!(t.expected_scores(20), (53, 47));
    let without_full_score: Vec<ProbabilityRecord> =
        (0..100).map(|p| ProbabilityRecord { min_diff: p, max_diff: 0, prob_big: 0, prob_small: 0 }).collect();
    assert!(InitialTable::from_records(without_full_score).is_some());
    let missing: Vec<ProbabilityRecord> =
        (0..=100).filter(|p| *p != 37).map(|p| ProbabilityRecord { min_diff: p, max_diff: 0, prob_big: 0, prob_small: 0 }).collect();
    assert!(InitialTable::from_records(missing).is_none());
}

#[test]
fn k_factor_follows_the_rules() {
    let mut s = AppState::new();
    assert_eq!(k_factor(&s), 40);
    s.played_in_tour_30_games = true;
    assert_eq!(k_factor(&s), 40);
    s.is_eighteen = true;
    assert_eq!(k_factor(&s), 20);
    s.had_2300 = true;
    assert_eq!(k_factor(&s), 20);
    s.had_2400 = true;
    assert_eq!(k_factor(&s), 10);
    s.is_eighteen = false;
    assert_eq!(k_factor(&s), 10);
    s.k_factor = 33;
    assert_eq!(k_factor_reply(&s, true), 33);
    assert_eq!(k_factor_reply(&s, false), 10);
}

#[test]
fn k_factor_is_capped_by_the_number_of_games() {
    assert_eq!(cap_k_factor(40, 10), 40);
    assert_eq!(cap_k_factor(40, 17), 40);
    assert_eq!(cap_k_factor(40, 18), 38);
    assert_eq!(cap_k_factor(40, 20), 35);
    assert_eq!(cap_k_factor(20, 800), 0);
    assert_eq!(cap_k_factor(40, 0), 40);
}

#[test]
fn rounds_half_away_from_zero() {
    assert_eq!(round_half_away_from_zero(150, 100), 2);
    assert_eq!(round_half_away_from_zero(149, 100), 1);
    assert_eq!(round_half_away_from_zero(-150, 100), -2);
    assert_eq!(round_half_away_from_zero(-149, 100), -1);
    assert_eq!(round_half_away_from_zero(-30, 100), 0);
    assert_eq!(round_half_away_from_zero(1160000, 700), 1657);
}

#[test]
fn rated_player_gets_k_times_the_surplus() {
    let c = calculator();
    // 0.50 - 0.50, 0.50 - 0.47 (20 points lower), 0 - 0.57 (50 points higher).
    let s = rated(1500, 20, vec![game(1500, GameResult::Win), game(1520, GameResult::Draw), game(1450, GameResult::Loss)]);
    assert!(c.covers_games(&s));
    let o = c.calculate(&s);
    assert_eq!(
        o,
        CalcOutcome::Rated {
            new_rating: RoundedValue { value: 1499, negative: false },
            change_hundredths: -80,
            change: -1,
        }
    );
    assert_eq!(o.message(), "The rating will be 1499 (-1 points).");
}

#[test]
fn rated_player_with_positive_and_no_change() {
    let c = calculator();
    let win = rated(2000, 10, vec![game(2500, GameResult::Win)]);
    let o = c.calculate(&win);
    assert_eq!(
        o,
        CalcOutcome::Rated { new_rating: RoundedValue { value: 2009, negative: false }, change_hundredths: 920, change: 9 }
    );
    assert_eq!(o.message(), "The rating will be 2009 (+9 points).");
    let draw = rated(2000, 10, vec![game(2000, GameResult::Draw)]);
    assert_eq!(c.calculate(&draw).message(), "The rating will be 2000.");
}

#[test]
fn small_loss_shows_minus_zero() {
    let c = calculator();
    // 0.50 - 0.53 = -0.03, times 10: -0.3 rounds to -0.
    let s = rated(2000, 10, vec![game(1980, GameResult::Draw)]);
    let o = c.calculate(&s);
    assert_eq!(
        o,
        CalcOutcome::Rated { new_rating: RoundedValue { value: 2000, negative: false }, change_hundredths: -30, change: 0 }
    );
    assert_eq!(o.message(), "The rating will be 2000 (-0 points).");
}

#[test]
fn many_games_lower_k() {
    let c = calculator();
    // 20 wins against equals with K 40: K becomes 35, change 35 * 20 * 0.5 = 350.
    let s = rated(1600, 40, vec![game(1600, GameResult::Win); 20]);
    assert_eq!(c.calculate(&s).message(), "The rating will be 1950 (+350 points).");
}

#[test]
fn unrated_player_rating() {
    let c = calculator();
    let s = unrated(vec![game(1600, GameResult::Draw); 5]);
    let o = c.calculate(&s);
    assert_eq!(o, CalcOutcome::Unrated { rating: RoundedValue { value: 1657, negative: false } });
    assert_eq!(o.message(), "The rating will be 1657.");
}

#[test]
fn unrated_player_outside_first_rating_range() {
    let c = calculator();
    // Five losses and a draw against 1400: p = 1.5 / 8 = 18.75 %, row 18 (dp -256).
    let mut games = vec![game(1400, GameResult::Loss); 5];
    games.push(game(1400, GameResult::Draw));
    let low = c.calculate(&unrated(games));
    assert_eq!(low, CalcOutcome::Unrated { rating: RoundedValue { value: 1244, negative: false } });
    assert_eq!(
        low.message(),
        "The rating will be 1244.However, since the minimum rating is 1400, the player will not have a rating below that."
    );
    let high = c.calculate(&unrated(vec![game(2400, GameResult::Win); 5]));
    // p = 6 / 7 = 85.7 %, rows 85 and 86 both lie within one percent: the first, 85 (dp 280).
    assert_eq!(high, CalcOutcome::Unrated { rating: RoundedValue { value: 2509, negative: false } });
    assert_eq!(
        high.message(),
        "The rating will be 2509.However, since the maximum rating is 2200, the player will have a rating of exactly 2200."
    );
}

#[test]
fn checks_come_before_the_formulas() {
    let c = calculator();
    assert_eq!(c.calculate(&rated(1500, 20, vec![])), CalcOutcome::NoGames);
    assert_eq!(c.calculate(&rated(1500, 20, vec![])).message(), "Enter games to calculate rating changes.");
    let unknown = rated(1500, 20, vec![game(1500, GameResult::Win), game(1500, GameResult::Unset)]);
    assert_eq!(c.calculate(&unknown), CalcOutcome::UnknownResult);
    assert_eq!(
        c.calculate(&unknown).message(),
        "Game result must be known and can only be Win, Draw, or Loss."
    );
    let few = unrated(vec![game(1500, GameResult::Win); 4]);
    assert_eq!(c.calculate(&few), CalcOutcome::TooFewGames);
    assert_eq!(
        c.calculate(&few).message(),
        "At least 5 games are required for a player without an existing rating."
    );
    let zero = unrated(vec![game(1500, GameResult::Loss); 5]);
    assert_eq!(c.calculate(&zero), CalcOutcome::NoPoints);
    assert_eq!(
        c.calculate(&zero).message(),
        "At least one draw is required for a player without an existing rating."
    );
}

#[test]
fn a_better_result_never_lowers_the_rating() {
    let c = calculator();
    let before = rated(1700, 20, vec![game(1650, GameResult::Loss), game(1800, GameResult::Draw)]);
    let after = rated(1700, 20, vec![game(1650, GameResult::Win), game(1800, GameResult::Draw)]);
    match (c.calculate(&before), c.calculate(&after)) {
        (
            CalcOutcome::Rated { change_hundredths: b, new_rating: nb, .. },
            CalcOutcome::Rated { change_hundredths: a, new_rating: na, .. },
        ) => {
            assert_eq!(a - b, 2000);
            assert!(na.value >= nb.value);
        }
        _ => panic!("expected rated outcomes"),
    }
}

#[test]
fn ratings_up_to_5000_are_always_covered() {
    let c = calculator();
    let within = rated(0, 20, vec![game(5000, GameResult::Win), game(1400, GameResult::Loss)]);
    assert!(c.covers_games(&within));
    let beyond = rated(0, 20, vec![game(5001, GameResult::Win)]);
    assert!(!c.covers_games(&beyond));
}
