//! The rating rules: the K-factor, the checks on the entered games, and the
//! new rating of a rated player and the first rating of an unrated one.
//!
//! Game points and expected scores are held in hundredths of a point: a win
//! is 100, a draw 50, a loss 0.
use vstd::prelude::*;
use vstd::arithmetic::div_mod::{lemma_div_is_ordered, lemma_fundamental_div_mod, lemma_fundamental_div_mod_converse_div};
use crate::table::{covers, covers_all_differences, MAX_RATING_DIFFERENCE, first_covering, first_score_match, InitialTable, ProbabilityRecord, ProbabilityTable};

verus! {

/// The rating an unrated player's two hypothetical opponents have.
pub const HYPOTHETICAL_OPPONENT_RATING: u32 = 1800;

/// The least number of games an unrated player needs.
pub const MIN_GAMES_UNRATED: usize = 5;

/// The most that the number of games times K may come to.
pub const MAX_GAMES_TIMES_K: u32 = 700;

/// The result of one game; `Unset` while the user has not chosen one.
#[derive(Debug, Clone, Copy, PartialEq, Eq, Structural)]
pub enum GameResult {
    Unset,
    Win,
    Draw,
    Loss,
}

/// One game of the player: the opponent's rating and the result.
#[derive(Debug, Clone, Copy, PartialEq, Eq, Structural)]
pub struct OnePlayerGame {
    pub opponent_rating: u16,
    pub result: GameResult,
}

/// Everything the user has entered.
#[derive(Debug, Clone)]
pub struct AppState {
    pub has_rating: bool,
    pub my_rating: u16,
    pub k_factor: u16,
    pub games: Vec<OnePlayerGame>,
    pub is_eighteen: bool,
    pub played_in_tour_30_games: bool,
    pub had_2300: bool,
    pub had_2400: bool,
}

/// A rounded value, and whether the exact value before rounding was
/// negative (a negative value that rounds to zero shows as `-0`).
#[derive(Debug, Clone, Copy, PartialEq, Eq, Structural)]
pub struct RoundedValue {
    pub value: i128,
    pub negative: bool,
}

/// What a calculation comes to.
#[derive(Debug, Clone, Copy, PartialEq, Eq, Structural)]
pub enum CalcOutcome {
    /// No game was entered.
    NoGames,
    /// Some game has no result yet.
    UnknownResult,
    /// An unrated player entered fewer than `MIN_GAMES_UNRATED` games.
    TooFewGames,
    /// An unrated player scored no point at all.
    NoPoints,
    /// The first rating of an unrated player.
    Unrated { rating: RoundedValue },
    /// The new rating of a rated player, the exact change in hundredths of a
    /// rating point, and the change rounded.
    Rated { new_rating: RoundedValue, change_hundredths: i128, change: i128 },
}

pub open spec fn result_points(r: GameResult) -> int {
    match r {
        GameResult::Win => 100,
        GameResult::Draw => 50,
        _ => 0,
    }
}

pub open spec fn spec_k_factor(
    played_in_tour_30_games: bool,
    is_eighteen: bool,
    had_2300: bool,
    had_2400: bool,
) -> u16 {
    if !played_in_tour_30_games {
        40
    } else if !is_eighteen && !had_2300 {
        40
    } else if !had_2400 {
        20
    } else {
        10
    }
}

/// K, lowered when needed so that the number of games times K is at most
/// `MAX_GAMES_TIMES_K`.
pub open spec fn capped_k(k: int, n: int) -> int {
    if n * k <= MAX_GAMES_TIMES_K {
        k
    } else {
        MAX_GAMES_TIMES_K as int / n
    }
}

/// Round half away from zero of `num / den`.
pub open spec fn round_half_away(num: int, den: int) -> int {
    if num >= 0 {
        (2 * num + den) / (2 * den)
    } else {
        -((-2 * num + den) / (2 * den))
    }
}

pub open spec fn rounded(num: int, den: int) -> RoundedValue {
    RoundedValue { value: round_half_away(num, den) as i128, negative: num < 0 }
}

pub open spec fn abs_diff(a: u16, b: u16) -> int {
    if a > b {
        a - b
    } else {
        b - a
    }
}

/// The expected score of the player against the opponent of `g`, from the
/// first row of the probability table that covers their rating difference.
pub open spec fn game_expected(table: Seq<ProbabilityRecord>, my: u16, g: OnePlayerGame) -> int {
    let row = table[first_covering(table, abs_diff(my, g.opponent_rating))];
    if my > g.opponent_rating {
        row.prob_big as int
    } else {
        row.prob_small as int
    }
}

/// The sum over the games of points scored minus points expected.
pub open spec fn score_surplus(table: Seq<ProbabilityRecord>, my: u16, games: Seq<OnePlayerGame>) -> int
    decreases games.len(),
{
    if games.len() == 0 {
        0
    } else {
        score_surplus(table, my, games.drop_last()) + result_points(games.last().result)
            - game_expected(table, my, games.last())
    }
}

pub open spec fn points_total(games: Seq<OnePlayerGame>) -> int
    decreases games.len(),
{
    if games.len() == 0 {
        0
    } else {
        points_total(games.drop_last()) + result_points(games.last().result)
    }
}

pub open spec fn opponents_total(games: Seq<OnePlayerGame>) -> int
    decreases games.len(),
{
    if games.len() == 0 {
        0
    } else {
        opponents_total(games.drop_last()) + games.last().opponent_rating
    }
}

pub open spec fn all_results_known(games: Seq<OnePlayerGame>) -> bool {
    forall|i: int| 0 <= i < games.len() ==> #[trigger] games[i].result != GameResult::Unset
}

pub open spec fn some_points(games: Seq<OnePlayerGame>) -> bool {
    exists|i: int| 0 <= i < games.len() && #[trigger] result_points(games[i].result) > 0
}

/// The rated formula is reached: a rated player with games that all have
/// a result.
pub open spec fn reaches_rated_formula(has_rating: bool, games: Seq<OnePlayerGame>) -> bool {
    has_rating && games.len() > 0 && all_results_known(games)
}

/// Every game's rating difference is covered by the probability table.
pub open spec fn differences_covered(table: Seq<ProbabilityRecord>, my: u16, games: Seq<OnePlayerGame>) -> bool {
    forall|i: int| 0 <= i < games.len() ==> #[trigger] covers(table, abs_diff(my, games[i].opponent_rating))
}

/// The first rating of an unrated player: the average of the opponents'
/// ratings, two hypothetical opponents rated 1800 included, plus the rating
/// difference that the table gives for the percentage score, the two
/// hypothetical games counted as draws; rounded.
pub open spec fn unrated_rating(initial: Seq<ProbabilityRecord>, games: Seq<OnePlayerGame>) -> RoundedValue {
    let count = games.len() + 2int;
    let points = 100 + points_total(games);
    let dp = initial[first_score_match(initial, points, count)].max_diff;
    rounded(
        100 * (opponents_total(games) + 2 * HYPOTHETICAL_OPPONENT_RATING) + count * dp,
        100 * count,
    )
}

pub open spec fn rated_outcome(
    table: Seq<ProbabilityRecord>,
    my: u16,
    k_factor: u16,
    games: Seq<OnePlayerGame>,
) -> CalcOutcome {
    let k = capped_k(k_factor as int, games.len() as int);
    let change = k * score_surplus(table, my, games);
    CalcOutcome::Rated {
        new_rating: rounded(100 * my + change, 100),
        change_hundredths: change as i128,
        change: round_half_away(change, 100) as i128,
    }
}

pub open spec fn spec_calculate(
    table: Seq<ProbabilityRecord>,
    initial: Seq<ProbabilityRecord>,
    has_rating: bool,
    my: u16,
    k_factor: u16,
    games: Seq<OnePlayerGame>,
) -> CalcOutcome {
    if games.len() == 0 {
        CalcOutcome::NoGames
    } else if !all_results_known(games) {
        CalcOutcome::UnknownResult
    } else if !has_rating {
        if games.len() < MIN_GAMES_UNRATED {
            CalcOutcome::TooFewGames
        } else if !some_points(games) {
            CalcOutcome::NoPoints
        } else {
            CalcOutcome::Unrated { rating: unrated_rating(initial, games) }
        }
    } else {
        rated_outcome(table, my, k_factor, games)
    }
}

/// The K-factor of the player: 40 until 30 games were played in the
/// tournament, 40 for a player under 18 who never reached 2300, 20 until
/// 2400 was reached, 10 after.
pub fn k_factor(state: &AppState) -> (k: u16)
    ensures
        k == spec_k_factor(state.played_in_tour_30_games, state.is_eighteen, state.had_2300, state.had_2400),
        k == 10 || k == 20 || k == 40,
        !state.played_in_tour_30_games ==> k == 40,
        state.played_in_tour_30_games && !state.is_eighteen && !state.had_2300 ==> k == 40,
        state.played_in_tour_30_games && state.had_2300 && !state.had_2400 ==> k == 20,
        state.played_in_tour_30_games && state.is_eighteen && !state.had_2400 ==> k == 20,
        state.played_in_tour_30_games && state.had_2400 && (state.is_eighteen || state.had_2300) ==> k == 10,
{
    if !state.played_in_tour_30_games {
        40
    } else if !state.is_eighteen && !state.had_2300 {
        40
    } else if !state.had_2400 {
        20
    } else {
        10
    }
}

/// The K-factor the calculator shows: the player's own when it is set by
/// hand, else the one the rules give.
pub fn k_factor_reply(state: &AppState, manual: bool) -> (k: u16)
    ensures
        k == if manual {
            state.k_factor
        } else {
            spec_k_factor(state.played_in_tour_30_games, state.is_eighteen, state.had_2300, state.had_2400)
        },
{
    if manual {
        state.k_factor
    } else {
        k_factor(state)
    }
}

/// K lowered to the largest value whose product with the number of games is
/// at most `MAX_GAMES_TIMES_K`.
pub fn cap_k_factor(k: u16, n: usize) -> (res: u16)
    ensures
        res == capped_k(k as int, n as int),
{
    assert((n as u128) * (k as u128) <= 0x1_0000_0000_0000_0000 * 0x1_0000) by (nonlinear_arith)
        requires
            n < 0x1_0000_0000_0000_0000,
            k < 0x1_0000,
    ;
    if (n as u128) * (k as u128) <= MAX_GAMES_TIMES_K as u128 {
        k
    } else {
        assert(n != 0) by (nonlinear_arith)
            requires
                (n as u128) * (k as u128) > 700,
        ;
        (MAX_GAMES_TIMES_K as usize / n) as u16
    }
}

/// Round half away from zero of `num / den`.
pub fn round_half_away_from_zero(num: i128, den: i128) -> (r: i128)
    requires
        0 < den <= 0x1_0000_0000_0000_0000_0000_0000,
        -0x1000_0000_0000_0000_0000_0000_0000_0000 <= num <= 0x1000_0000_0000_0000_0000_0000_0000_0000,
    ensures
        r == round_half_away(num as int, den as int),
{
    if num >= 0 {
        (2 * num + den) / (2 * den)
    } else {
        let q = (-2 * num + den) / (2 * den);
        assert(0 <= q <= -2 * num + den) by (nonlinear_arith)
            requires
                q == (-2 * num + den) / (2 * den),
                -2 * num + den >= 0,
                2 * den > 0,
        ;
        -q
    }
}


/// Whether every game has a result.
pub fn all_known(games: &Vec<OnePlayerGame>) -> (b: bool)
    ensures
        b == all_results_known(games@),
        !b <==> exists|i: int| 0 <= i < games@.len() && #[trigger] games@[i].result == GameResult::Unset,
{
    let mut i: usize = 0;
    while i < games.len()
        invariant
            0 <= i <= games.len(),
            forall|j: int| 0 <= j < i ==> #[trigger] games@[j].result != GameResult::Unset,
        decreases games.len() - i,
    {
        if games[i].result == GameResult::Unset {
            return false;
        }
        i = i + 1;
    }
    true
}

/// Whether some game scored a win or a draw.
pub fn has_points(games: &Vec<OnePlayerGame>) -> (b: bool)
    ensures
        b == some_points(games@),
        b <==> exists|i: int|
            0 <= i < games@.len() && (#[trigger] games@[i].result == GameResult::Win || games@[i].result
                == GameResult::Draw),
{
    let mut i: usize = 0;
    while i < games.len()
        invariant
            0 <= i <= games.len(),
            forall|j: int| 0 <= j < i ==> #[trigger] result_points(games@[j].result) <= 0,
            forall|j: int|
                0 <= j < i ==> !(#[trigger] games@[j].result == GameResult::Win || games@[j].result
                    == GameResult::Draw),
        decreases games.len() - i,
    {
        if games[i].result == GameResult::Win || games[i].result == GameResult::Draw {
            assert(result_points(games@[i as int].result) > 0);
            return true;
        }
        i = i + 1;
    }
    false
}

fn points_of(r: GameResult) -> (p: i128)
    ensures
        p == result_points(r),
{
    match r {
        GameResult::Win => 100,
        GameResult::Draw => 50,
        _ => 0,
    }
}

/// The sum of the opponents' ratings and the points scored.
pub fn totals(games: &Vec<OnePlayerGame>) -> (res: (i128, i128))
    ensures
        res.0 == opponents_total(games@),
        res.1 == points_total(games@),
        0 <= res.0 <= 65535 * games@.len(),
        0 <= res.1 <= 100 * games@.len(),
{
    let mut opponents: i128 = 0;
    let mut points: i128 = 0;
    let mut i: usize = 0;
    while i < games.len()
        invariant
            0 <= i <= games.len(),
            opponents == opponents_total(games@.take(i as int)),
            points == points_total(games@.take(i as int)),
            0 <= opponents <= 65535 * i,
            0 <= points <= 100 * i,
        decreases games.len() - i,
    {
        assert(games@.take(i + 1).drop_last() =~= games@.take(i as int));
        opponents = opponents + games[i].opponent_rating as i128;
        points = points + points_of(games[i].result);
        i = i + 1;
    }
    assert(games@.take(i as int) =~= games@);
    (opponents, points)
}

/// The sum over the games of points scored minus points expected.
pub fn surplus(table: &ProbabilityTable, my: u16, games: &Vec<OnePlayerGame>) -> (s: i128)
    requires
        differences_covered(table@, my, games@),
    ensures
        s == score_surplus(table@, my, games@),
        -2147483748 * games@.len() <= s <= 2147483748 * games@.len(),
{
    let mut acc: i128 = 0;
    let mut i: usize = 0;
    while i < games.len()
        invariant
            0 <= i <= games.len(),
            differences_covered(table@, my, games@),
            acc == score_surplus(table@, my, games@.take(i as int)),
            -2147483748 * i <= acc <= 2147483748 * i,
        decreases games.len() - i,
    {
        assert(games@.take(i + 1).drop_last() =~= games@.take(i as int));
        let g = games[i];
        let d: u16 = if my > g.opponent_rating {
            my - g.opponent_rating
        } else {
            g.opponent_rating - my
        };
        assert(covers(table@, abs_diff(my, games@[i as int].opponent_rating)));
        let (big, small) = table.expected_scores(d as u32);
        let expected = if my > g.opponent_rating {
            big
        } else {
            small
        };
        acc = acc + points_of(g.result) - expected as i128;
        i = i + 1;
    }
    assert(games@.take(i as int) =~= games@);
    acc
}

/// The two tables the calculator reads.
pub struct Calculator {
    pub probabilities: ProbabilityTable,
    pub initial: InitialTable,
}

impl Calculator {
    pub fn new(probabilities: ProbabilityTable, initial: InitialTable) -> (c: Self)
        ensures
            c.probabilities@ == probabilities@,
            c.initial@ == initial@,
    {
        Calculator { probabilities, initial }
    }

    /// Whether the probability table covers the rating difference of every
    /// game; it always does for ratings up to `MAX_RATING_DIFFERENCE`.
    pub fn covers_games(&self, state: &AppState) -> (b: bool)
        ensures
            b == differences_covered(self.probabilities@, state.my_rating, state.games@),
    {
        let mut i: usize = 0;
        while i < state.games.len()
            invariant
                0 <= i <= state.games.len(),
                forall|j: int| 0 <= j < i ==> #[trigger] covers(
                    self.probabilities@,
                    abs_diff(state.my_rating, state.games@[j].opponent_rating),
                ),
            decreases state.games.len() - i,
        {
            let my = state.my_rating;
            let opp = state.games[i].opponent_rating;
            let d: u16 = if my > opp {
                my - opp
            } else {
                opp - my
            };
            if !self.probabilities.covers_difference(d as u32) {
                assert(!covers(self.probabilities@, abs_diff(state.my_rating, state.games@[i as int].opponent_rating)));
                return false;
            }
            i = i + 1;
        }
        true
    }

    /// Checks the entered games and computes the rating they lead to.
    pub fn calculate(&self, state: &AppState) -> (res: CalcOutcome)
        requires
            reaches_rated_formula(state.has_rating, state.games@) ==> differences_covered(
                self.probabilities@,
                state.my_rating,
                state.games@,
            ),
        ensures
            res == spec_calculate(
                self.probabilities@,
                self.initial@,
                state.has_rating,
                state.my_rating,
                state.k_factor,
                state.games@,
            ),
    {
        let n = state.games.len();
        if n == 0 {
            return CalcOutcome::NoGames;
        }
        if !all_known(&state.games) {
            return CalcOutcome::UnknownResult;
        }
        if !state.has_rating {
            if n < MIN_GAMES_UNRATED {
                return CalcOutcome::TooFewGames;
            }
            if !has_points(&state.games) {
                return CalcOutcome::NoPoints;
            }
            let (opponents, points) = totals(&state.games);
            let count: i128 = n as i128 + 2;
            let scored = 100 + points;
            let dp = self.initial.rating_difference(scored, count);
            assert(-0x8000_0000 * 0x1_0000_0000_0000_0002 <= count * dp <= 0x8000_0000 * 0x1_0000_0000_0000_0002)
                by (nonlinear_arith)
                requires
                    -0x8000_0000 <= dp <= 0x8000_0000,
                    0 < count <= 0x1_0000_0000_0000_0002,
            ;
            let num = 100 * (opponents + 2 * HYPOTHETICAL_OPPONENT_RATING as i128) + count * dp as i128;
            let den = 100 * count;
            let value = round_half_away_from_zero(num, den);
            return CalcOutcome::Unrated { rating: RoundedValue { value, negative: num < 0 } };
        }
        let k = cap_k_factor(state.k_factor, n);
        let s = surplus(&self.probabilities, state.my_rating, &state.games);
        assert(-0x1_0000 * 0x1_0000_0000_0000_0000_0000_0000 <= k * s <= 0x1_0000 * 0x1_0000_0000_0000_0000_0000_0000)
            by (nonlinear_arith)
            requires
                0 <= k < 0x1_0000,
                -0x1_0000_0000_0000_0000_0000_0000 <= s <= 0x1_0000_0000_0000_0000_0000_0000,
        ;
        let change = k as i128 * s;
        let total = 100 * state.my_rating as i128 + change;
        CalcOutcome::Rated {
            new_rating: RoundedValue { value: round_half_away_from_zero(total, 100), negative: total < 0 },
            change_hundredths: change,
            change: round_half_away_from_zero(change, 100),
        }
    }
}


pub open spec fn fits_cap(n: int, k: int) -> bool {
    n * k <= MAX_GAMES_TIMES_K
}

/// K lowered for many games is the largest value, at most K, whose product
/// with the number of games is at most `MAX_GAMES_TIMES_K`: the value that
/// lowering K one by one until the product fits reaches.
pub proof fn lemma_capped_k_is_largest_fitting(k: int, n: int)
    requires
        0 <= k,
        1 <= n,
    ensures
        0 <= capped_k(k, n) <= k,
        n * capped_k(k, n) <= MAX_GAMES_TIMES_K,
        forall|j: int| capped_k(k, n) < j <= k ==> !#[trigger] fits_cap(n, j),
{
    let c = capped_k(k, n);
    if n * k > MAX_GAMES_TIMES_K {
        assert(0 <= c && c <= k && n * c <= 700) by (nonlinear_arith)
            requires
                c == 700int / n,
                n >= 1,
                k >= 0,
                n * k > 700,
        {
            assert(c * n <= 700);
            assert(c < k) by {
                if c >= k {
                    assert(n * c >= n * k);
                }
            }
        }
        assert forall|j: int| c < j <= k implies !#[trigger] fits_cap(n, j) by {
            assert(n * j > 700) by (nonlinear_arith)
                requires
                    c == 700int / n,
                    n >= 1,
                    j >= c + 1,
            {
                assert(700 < (c + 1) * n);
                assert(n * j >= n * (c + 1));
            }
        }
    }
}

/// With a table that covers every difference up to `MAX_RATING_DIFFERENCE`,
/// ratings up to that value never miss a row.
pub proof fn lemma_ratings_in_range_are_covered(table: Seq<ProbabilityRecord>, my: u16, games: Seq<OnePlayerGame>)
    requires
        covers_all_differences(table),
        my <= MAX_RATING_DIFFERENCE,
        forall|i: int| 0 <= i < games.len() ==> #[trigger] games[i].opponent_rating <= MAX_RATING_DIFFERENCE,
    ensures
        differences_covered(table, my, games),
{
    assert forall|i: int| 0 <= i < games.len() implies #[trigger] covers(
        table,
        abs_diff(my, games[i].opponent_rating),
    ) by {
        assert(games[i].opponent_rating <= MAX_RATING_DIFFERENCE);
    }
}

/// Rounding half away from zero lands within half of the exact value,
/// treats a value and its negation alike, and keeps the order of values.
pub proof fn lemma_round_half_away(a: int, b: int, den: int)
    requires
        den > 0,
    ensures
        2 * den * round_half_away(a, den) - den <= 2 * a,
        2 * a <= 2 * den * round_half_away(a, den) + den,
        round_half_away(-a, den) == -round_half_away(a, den),
        a <= b ==> round_half_away(a, den) <= round_half_away(b, den),
{
    let ra = round_half_away(a, den);
    if a >= 0 {
        assert(2 * den * ra - den <= 2 * a && 2 * a <= 2 * den * ra + den) by (nonlinear_arith)
            requires
                ra == (2 * a + den) / (2 * den),
                den > 0,
                a >= 0,
        ;
    } else {
        assert(2 * den * ra - den <= 2 * a && 2 * a <= 2 * den * ra + den) by (nonlinear_arith)
            requires
                ra == -((-2 * a + den) / (2 * den)),
                den > 0,
        ;
    }
    if a == 0 {
        assert(den / (2 * den) == 0) by (nonlinear_arith)
            requires
                den > 0,
        ;
    }
    if a <= b {
        if 0 <= a {
            lemma_div_is_ordered(2 * a + den, 2 * b + den, 2 * den);
        } else if b < 0 {
            lemma_div_is_ordered(-2 * b + den, -2 * a + den, 2 * den);
        } else {
            lemma_div_is_ordered(0, -2 * a + den, 2 * den);
            lemma_div_is_ordered(0, 2 * b + den, 2 * den);
            assert(0int / (2 * den) == 0) by (nonlinear_arith)
                requires
                    den > 0,
            ;
        }
    }
}

/// Each game adds between -2147483748 and 2147483748 hundredths to the sum
/// of points scored minus points expected.
pub proof fn lemma_surplus_bounds(table: Seq<ProbabilityRecord>, my: u16, games: Seq<OnePlayerGame>)
    ensures
        -2147483748 * games.len() <= score_surplus(table, my, games) <= 2147483748 * games.len(),
    decreases games.len(),
{
    if games.len() > 0 {
        lemma_surplus_bounds(table, my, games.drop_last());
    }
}

/// The games with the result of game `i` replaced by `r`.
pub open spec fn with_result(games: Seq<OnePlayerGame>, i: int, r: GameResult) -> Seq<OnePlayerGame> {
    games.update(i, OnePlayerGame { opponent_rating: games[i].opponent_rating, result: r })
}

/// Changing one game's result changes the sum of points scored minus points
/// expected by exactly the difference in points: what is expected of a game
/// depends on the ratings alone.
pub proof fn lemma_surplus_after_result_change(
    table: Seq<ProbabilityRecord>,
    my: u16,
    games: Seq<OnePlayerGame>,
    i: int,
    r: GameResult,
)
    requires
        0 <= i < games.len(),
    ensures
        score_surplus(table, my, with_result(games, i, r)) == score_surplus(table, my, games) + result_points(r)
            - result_points(games[i].result),
    decreases games.len(),
{
    let changed = with_result(games, i, r);
    if i == games.len() - 1 {
        assert(changed.drop_last() =~= games.drop_last());
    } else {
        assert(changed.drop_last() =~= with_result(games.drop_last(), i, r));
        lemma_surplus_after_result_change(table, my, games.drop_last(), i, r);
    }
}

/// A better result in one game never lowers a rated player's rating
/// change, nor the new rating.
pub proof fn lemma_better_result_never_lowers_rating(
    table: Seq<ProbabilityRecord>,
    my: u16,
    k_factor: u16,
    games: Seq<OnePlayerGame>,
    i: int,
    r: GameResult,
)
    requires
        0 <= i < games.len() <= usize::MAX,
        result_points(r) >= result_points(games[i].result),
    ensures
        rated_outcome(table, my, k_factor, with_result(games, i, r))->change_hundredths
            >= rated_outcome(table, my, k_factor, games)->change_hundredths,
        rated_outcome(table, my, k_factor, with_result(games, i, r))->change
            >= rated_outcome(table, my, k_factor, games)->change,
        rated_outcome(table, my, k_factor, with_result(games, i, r))->new_rating.value
            >= rated_outcome(table, my, k_factor, games)->new_rating.value,
{
    let n = games.len() as int;
    let k = capped_k(k_factor as int, n);
    lemma_capped_k_is_largest_fitting(k_factor as int, n);
    lemma_round_half_away(k * score_surplus(table, my, games), k * score_surplus(table, my, with_result(games, i, r)), 100);
    lemma_round_half_away(
        100 * my + k * score_surplus(table, my, games),
        100 * my + k * score_surplus(table, my, with_result(games, i, r)),
        100,
    );
    lemma_surplus_after_result_change(table, my, games, i, r);
    let s0 = score_surplus(table, my, games);
    let s1 = score_surplus(table, my, with_result(games, i, r));
    lemma_surplus_bounds(table, my, games);
    lemma_surplus_bounds(table, my, with_result(games, i, r));
    assert(k * s0 <= k * s1) by (nonlinear_arith)
        requires
            k >= 0,
            s0 <= s1,
    ;
    assert(-0x1_0000 * 0x1_0000_0000_0000_0000_0000_0000 <= k * s0 <= 0x1_0000 * 0x1_0000_0000_0000_0000_0000_0000
        && -0x1_0000 * 0x1_0000_0000_0000_0000_0000_0000 <= k * s1 <= 0x1_0000 * 0x1_0000_0000_0000_0000_0000_0000)
        by (nonlinear_arith)
        requires
            0 <= k <= 0xffff,
            -2147483748 * n <= s0 <= 2147483748 * n,
            -2147483748 * n <= s1 <= 2147483748 * n,
            0 <= n <= 0xffff_ffff_ffff_ffff,
    ;
    let t0 = 100 * my + k * s0;
    let t1 = 100 * my + k * s1;
    let r0 = round_half_away(k * s0, 100);
    let r1 = round_half_away(k * s1, 100);
    let q0 = round_half_away(t0, 100);
    let q1 = round_half_away(t1, 100);
    assert(200 * r0 - 100 <= 2 * (k * s0) <= 200 * r0 + 100);
    assert(200 * r1 - 100 <= 2 * (k * s1) <= 200 * r1 + 100);
    assert(200 * q0 - 100 <= 2 * t0 <= 200 * q0 + 100);
    assert(200 * q1 - 100 <= 2 * t1 <= 200 * q1 + 100);
}


/// The K-factor by the player's history: 40 until 30 games were played;
/// then 40 for a player under 18 who never reached 2300; 20 for one who
/// reached 2300 but not 2400, whatever the age, and for an adult who never
/// reached 2400; 10 for one who reached 2400 and is 18 or reached 2300.
pub proof fn lemma_k_factor_by_history(played: bool, is_eighteen: bool, had_2300: bool, had_2400: bool)
    ensures
        !played ==> spec_k_factor(played, is_eighteen, had_2300, had_2400) == 40,
        played && !is_eighteen && !had_2300 ==> spec_k_factor(played, is_eighteen, had_2300, had_2400) == 40,
        played && had_2300 && !had_2400 ==> spec_k_factor(played, is_eighteen, had_2300, had_2400) == 20,
        played && is_eighteen && !had_2400 ==> spec_k_factor(played, is_eighteen, had_2300, had_2400) == 20,
        played && had_2400 && (is_eighteen || had_2300) ==> spec_k_factor(played, is_eighteen, had_2300, had_2400)
            == 10,
{
}

/// A win is worth a whole point, a draw half of it, a loss and a game
/// without result nothing (in hundredths).
pub proof fn lemma_result_points_table(r: GameResult)
    ensures
        result_points(r) == match r {
            GameResult::Win => 100int,
            GameResult::Draw => 50int,
            GameResult::Loss => 0int,
            GameResult::Unset => 0int,
        },
        result_points(GameResult::Win) == 2 * result_points(GameResult::Draw),
{
}

/// Adding a game adds its opponent's rating to the opponents' total, its
/// points to the points total, and its points minus its expected score to
/// the surplus.
pub proof fn lemma_totals_after_adding_a_game(
    table: Seq<ProbabilityRecord>,
    my: u16,
    games: Seq<OnePlayerGame>,
    g: OnePlayerGame,
)
    ensures
        opponents_total(games.push(g)) == opponents_total(games) + g.opponent_rating,
        points_total(games.push(g)) == points_total(games) + result_points(g.result),
        score_surplus(table, my, games.push(g)) == score_surplus(table, my, games) + result_points(g.result)
            - game_expected(table, my, g),
{
    assert(games.push(g).drop_last() =~= games);
}

/// Replacing one game changes the opponents' total by the change of that
/// opponent's rating, and the points total by the change of its points.
pub proof fn lemma_totals_after_replacing_a_game(games: Seq<OnePlayerGame>, i: int, g: OnePlayerGame)
    requires
        0 <= i < games.len(),
    ensures
        opponents_total(games.update(i, g)) == opponents_total(games) - games[i].opponent_rating
            + g.opponent_rating,
        points_total(games.update(i, g)) == points_total(games) - result_points(games[i].result) + result_points(
            g.result,
        ),
    decreases games.len(),
{
    let changed = games.update(i, g);
    if i == games.len() - 1 {
        assert(changed.drop_last() =~= games.drop_last());
    } else {
        assert(changed.drop_last() =~= games.drop_last().update(i, g));
        lemma_totals_after_replacing_a_game(games.drop_last(), i, g);
    }
}

/// A stronger opponent in one game never lowers an unrated player's first
/// rating.
pub proof fn lemma_stronger_opponent_never_lowers_first_rating(
    initial: Seq<ProbabilityRecord>,
    games: Seq<OnePlayerGame>,
    i: int,
    rating: u16,
)
    requires
        0 <= i < games.len() <= usize::MAX,
        rating >= games[i].opponent_rating,
    ensures
        unrated_rating(
            initial,
            games.update(i, OnePlayerGame { opponent_rating: rating, result: games[i].result }),
        ).value as int >= unrated_rating(initial, games).value as int,
{
    let g = OnePlayerGame { opponent_rating: rating, result: games[i].result };
    let changed = games.update(i, g);
    lemma_totals_after_replacing_a_game(games, i, g);
    let count = games.len() + 2int;
    let points = 100 + points_total(games);
    assert(changed.len() == games.len());
    assert(points_total(changed) == points_total(games));
    let dp = initial[first_score_match(initial, points, count)].max_diff;
    let a = 100 * (opponents_total(games) + 2 * HYPOTHETICAL_OPPONENT_RATING) + count * dp;
    let b = 100 * (opponents_total(changed) + 2 * HYPOTHETICAL_OPPONENT_RATING) + count * dp;
    lemma_round_half_away(a, b, 100 * count);
    lemma_opponents_total_bounds(games);
    lemma_opponents_total_bounds(changed);
    assert(-0x8000_0000 * 0x1_0000_0000_0000_0002 <= count * dp <= 0x8000_0000 * 0x1_0000_0000_0000_0002)
        by (nonlinear_arith)
        requires
            -0x8000_0000 <= dp <= 0x8000_0000,
            0 < count <= 0x1_0000_0000_0000_0002,
    ;
    let ra = round_half_away(a, 100 * count);
    let rb = round_half_away(b, 100 * count);
    assert(-0x1_0000_0000_0000_0000_0000_0000_0000 <= ra <= rb <= 0x1_0000_0000_0000_0000_0000_0000_0000) by {
        lemma_bounded_round(a, 100 * count);
        lemma_bounded_round(b, 100 * count);
    }
}

proof fn lemma_opponents_total_bounds(games: Seq<OnePlayerGame>)
    ensures
        0 <= opponents_total(games) <= 65535 * games.len(),
    decreases games.len(),
{
    if games.len() > 0 {
        lemma_opponents_total_bounds(games.drop_last());
    }
}

/// Rounding a value keeps it within its magnitude plus one.
proof fn lemma_bounded_round(a: int, den: int)
    requires
        den >= 1,
    ensures
        -abs_int(a) - 1 <= round_half_away(a, den) <= abs_int(a) + 1,
{
    lemma_round_half_away(a, a, den);
    let r = round_half_away(a, den);
    assert(-abs_int(a) - 1 <= r <= abs_int(a) + 1) by (nonlinear_arith)
        requires
            2 * den * r - den <= 2 * a,
            2 * a <= 2 * den * r + den,
            den >= 1,
    ;
}

pub open spec fn abs_int(a: int) -> int {
    if a < 0 {
        -a
    } else {
        a
    }
}

/// A game without result anywhere among the games makes the calculation
/// refuse them.
pub proof fn lemma_unset_result_anywhere_is_refused(
    table: Seq<ProbabilityRecord>,
    initial: Seq<ProbabilityRecord>,
    has_rating: bool,
    my: u16,
    k_factor: u16,
    games: Seq<OnePlayerGame>,
    i: int,
)
    requires
        0 <= i < games.len(),
        games[i].result == GameResult::Unset,
    ensures
        !all_results_known(games),
        spec_calculate(table, initial, has_rating, my, k_factor, games) == CalcOutcome::UnknownResult,
{
    assert(games[i].result == GameResult::Unset);
}

/// A win or a draw anywhere among the games counts as a point scored, and
/// without any win or draw there is none.
pub proof fn lemma_points_scored_anywhere(games: Seq<OnePlayerGame>)
    ensures
        some_points(games) <==> exists|i: int|
            0 <= i < games.len() && (#[trigger] games[i].result == GameResult::Win || games[i].result
                == GameResult::Draw),
{
    if some_points(games) {
        let i = choose|i: int| 0 <= i < games.len() && #[trigger] result_points(games[i].result) > 0;
        assert(games[i].result == GameResult::Win || games[i].result == GameResult::Draw);
    }
    if exists|i: int|
        0 <= i < games.len() && (#[trigger] games[i].result == GameResult::Win || games[i].result
            == GameResult::Draw) {
        let i = choose|i: int|
            0 <= i < games.len() && (#[trigger] games[i].result == GameResult::Win || games[i].result
                == GameResult::Draw);
        assert(result_points(games[i].result) > 0);
    }
}

/// A player's expected score against a lower rated opponent is the table's
/// score for the higher rated, against an equal or higher one the score for
/// the lower rated; the two sides of one game take the two scores of the
/// same row.
pub proof fn lemma_expected_scores_of_both_sides(table: Seq<ProbabilityRecord>, a: u16, b: u16, ra: GameResult, rb: GameResult)
    requires
        a > b,
    ensures
        game_expected(table, a, OnePlayerGame { opponent_rating: b, result: rb }) == table[first_covering(table, a - b)].prob_big,
        game_expected(table, b, OnePlayerGame { opponent_rating: a, result: ra }) == table[first_covering(table, a - b)].prob_small,
        game_expected(table, a, OnePlayerGame { opponent_rating: a, result: ra }) == table[first_covering(table, 0)].prob_small,
{
}


/// Rounding does not depend on how the fraction is written: scaling the
/// numerator and the denominator alike gives the same result.
pub proof fn lemma_round_scale_free(a: int, den: int, c: int)
    requires
        den > 0,
        c > 0,
    ensures
        round_half_away(c * a, c * den) == round_half_away(a, den),
{
    let x = if a >= 0 { 2 * a + den } else { -2 * a + den };
    let q = x / (2 * den);
    let r = x % (2 * den);
    lemma_fundamental_div_mod(x, 2 * den);
    assert(c * x == q * (2 * (c * den)) + c * r && 0 <= c * r < 2 * (c * den)) by (nonlinear_arith)
        requires
            x == (2 * den) * q + r,
            0 <= r < 2 * den,
            c > 0,
    ;
    lemma_fundamental_div_mod_converse_div(c * x, 2 * (c * den), q, c * r);
    assert(c * a >= 0 <==> a >= 0) by (nonlinear_arith)
        requires
            c > 0,
    ;
    if a >= 0 {
        assert(2 * (c * a) + c * den == c * x) by (nonlinear_arith)
            requires
                x == 2 * a + den,
        ;
    } else {
        assert(-2 * (c * a) + c * den == c * x) by (nonlinear_arith)
            requires
                x == -2 * a + den,
        ;
    }
}

/// A rated player who scores in every game exactly what is expected keeps
/// the rating: no change, and the new rating is the old one.
pub proof fn lemma_scoring_as_expected_keeps_rating(
    table: Seq<ProbabilityRecord>,
    my: u16,
    k_factor: u16,
    games: Seq<OnePlayerGame>,
)
    requires
        forall|i: int| 0 <= i < games.len() ==> result_points(#[trigger] games[i].result) == game_expected(
            table,
            my,
            games[i],
        ),
    ensures
        rated_outcome(table, my, k_factor, games) == (CalcOutcome::Rated {
            new_rating: RoundedValue { value: my as i128, negative: false },
            change_hundredths: 0,
            change: 0,
        }),
{
    lemma_surplus_zero_when_as_expected(table, my, games);
    let k = capped_k(k_factor as int, games.len() as int);
    assert(k * 0 == 0);
    assert(round_half_away(100 * my, 100) == my) by (nonlinear_arith)
        requires
            my >= 0,
    ;
    assert(round_half_away(0, 100) == 0) by (nonlinear_arith);
}

proof fn lemma_surplus_zero_when_as_expected(table: Seq<ProbabilityRecord>, my: u16, games: Seq<OnePlayerGame>)
    requires
        forall|i: int| 0 <= i < games.len() ==> result_points(#[trigger] games[i].result) == game_expected(
            table,
            my,
            games[i],
        ),
    ensures
        score_surplus(table, my, games) == 0,
    decreases games.len(),
{
    if games.len() > 0 {
        let prev = games.drop_last();
        assert forall|i: int| 0 <= i < prev.len() implies result_points(#[trigger] prev[i].result) == game_expected(
            table,
            my,
            prev[i],
        ) by {
            assert(prev[i] == games[i]);
        }
        lemma_surplus_zero_when_as_expected(table, my, prev);
        assert(result_points(games[games.len() - 1].result) == game_expected(table, my, games[games.len() - 1]));
    }
}

proof fn lemma_opponents_all_rated(games: Seq<OnePlayerGame>, r: u16)
    requires
        forall|i: int| 0 <= i < games.len() ==> (#[trigger] games[i]).opponent_rating == r,
    ensures
        opponents_total(games) == games.len() * r,
    decreases games.len(),
{
    if games.len() > 0 {
        let prev = games.drop_last();
        assert forall|i: int| 0 <= i < prev.len() implies (#[trigger] prev[i]).opponent_rating == r by {
            assert(prev[i] == games[i]);
        }
        lemma_opponents_all_rated(prev, r);
        assert(games[games.len() - 1].opponent_rating == r);
        assert(prev.len() * r + r == games.len() * r) by (nonlinear_arith)
            requires
                prev.len() + 1 == games.len(),
        ;
    }
}

/// When every opponent of an unrated player is rated like the two
/// hypothetical opponents (1800), the average is 1800 and the first rating
/// is 1800 plus the rating difference for the score, rounded.
pub proof fn lemma_first_rating_against_1800(initial: Seq<ProbabilityRecord>, games: Seq<OnePlayerGame>)
    requires
        forall|i: int| 0 <= i < games.len() ==> (#[trigger] games[i]).opponent_rating == 1800,
    ensures
        unrated_rating(initial, games).value as int == round_half_away(
            100 * 1800 + initial[first_score_match(initial, 100 + points_total(games), games.len() + 2int)].max_diff,
            100,
        ),
{
    lemma_opponents_all_rated(games, 1800);
    let count = games.len() + 2int;
    let dp = initial[first_score_match(initial, 100 + points_total(games), count)].max_diff as int;
    let a = 100 * 1800 + dp;
    assert(100 * (opponents_total(games) + 2 * HYPOTHETICAL_OPPONENT_RATING) + count * dp == count * a) by (nonlinear_arith)
        requires
            opponents_total(games) == (count - 2) * 1800,
            a == 100 * 1800 + dp,
    ;
    assert(100 * count == count * 100) by (nonlinear_arith);
    lemma_round_scale_free(a, 100, count);
    lemma_bounded_round(a, 100);
    assert(-0x1_0000_0000_0000 <= a <= 0x1_0000_0000_0000);
}

} // verus!
