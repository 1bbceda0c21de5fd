//! The texts the calculator shows for the outcome of a calculation.
use vstd::prelude::*;
use crate::rating::{CalcOutcome, RoundedValue};

verus! {

/// The lowest first rating that FIDE gives.
pub const MIN_FIRST_RATING: i128 = 1400;

/// The highest first rating that FIDE gives.
pub const MAX_FIRST_RATING: i128 = 2200;

pub open spec fn digit_char(d: int) -> char {
    (48 + d) as char
}

/// The decimal digits of `n`, most significant first.
pub open spec fn decimal_digits(n: nat) -> Seq<char>
    decreases n,
{
    if n < 10 {
        seq![digit_char(n as int)]
    } else {
        decimal_digits(n / 10).push(digit_char((n % 10) as int))
    }
}

/// The number that a run of decimal digit characters spells.
pub open spec fn chars_value(s: Seq<char>) -> int
    decreases s.len(),
{
    if s.len() == 0 {
        0
    } else {
        chars_value(s.drop_last()) * 10 + (s.last() as int - 48)
    }
}

/// The digits shown for `n` are its decimal notation: digit characters,
/// no leading zero, and read back they give `n`.
pub proof fn lemma_decimal_digits_read_back(n: nat)
    ensures
        chars_value(decimal_digits(n)) == n,
        forall|i: int| 0 <= i < decimal_digits(n).len() ==> '0' <= #[trigger] decimal_digits(n)[i] <= '9',
        decimal_digits(n).len() >= 1,
        n >= 10 ==> decimal_digits(n)[0] != '0',
    decreases n,
{
    let d = (n % 10) as int;
    assert(digit_char(d) as int == 48 + d);
    if n < 10 {
        assert(decimal_digits(n) == seq![digit_char(n as int)]);
        assert(seq![digit_char(n as int)].drop_last() =~= Seq::<char>::empty());
        assert(n % 10 == n);
        assert(chars_value(decimal_digits(n)) == chars_value(Seq::<char>::empty()) * 10 + (digit_char(d) as int - 48));
    } else {
        lemma_decimal_digits_read_back(n / 10);
        let prev = decimal_digits(n / 10);
        assert(decimal_digits(n) == prev.push(digit_char((n % 10) as int)));
        assert(decimal_digits(n).drop_last() =~= prev);
        assert(n == (n / 10) * 10 + n % 10);
        assert(decimal_digits(n).last() == digit_char(d));
        assert(chars_value(decimal_digits(n)) == chars_value(prev) * 10 + (digit_char(d) as int - 48));
        if n / 10 >= 10 {
            assert(decimal_digits(n)[0] == prev[0]);
        } else {
            assert(decimal_digits(n)[0] == digit_char((n / 10) as int));
        }
    }
}

pub open spec fn abs(v: int) -> nat {
    if v < 0 {
        (-v) as nat
    } else {
        v as nat
    }
}

/// A rounded number as it is shown: a `-` when the exact value was
/// negative, then the digits.
pub open spec fn rounded_text(r: RoundedValue) -> Seq<char> {
    if r.negative {
        seq!['-'] + decimal_digits(abs(r.value as int))
    } else {
        decimal_digits(abs(r.value as int))
    }
}

/// The note after a first rating outside the range FIDE gives.
pub open spec fn first_rating_note(r: RoundedValue) -> Seq<char> {
    if r.value < MIN_FIRST_RATING {
        "However, since the minimum rating is 1400, the player will not have a rating below that."@
    } else if r.value > MAX_FIRST_RATING {
        "However, since the maximum rating is 2200, the player will have a rating of exactly 2200."@
    } else {
        Seq::empty()
    }
}

/// The text after the new rating of a rated player: the change in points,
/// with a `+` when it is positive, or only a full stop when there is none.
pub open spec fn change_text(change_hundredths: int, change: int) -> Seq<char> {
    if change_hundredths == 0 {
        "."@
    } else if change_hundredths > 0 {
        " (+"@ + decimal_digits(abs(change)) + " points)."@
    } else {
        " (-"@ + decimal_digits(abs(change)) + " points)."@
    }
}

/// The change is shown with the sign of the exact change: a full stop alone
/// when there is none, else ` (`, the sign, the digits of the rounded change
/// (read back, its magnitude), and ` points).`.
pub proof fn lemma_change_text_shows_the_sign(change_hundredths: int, change: int)
    ensures
        change_hundredths == 0 ==> change_text(change_hundredths, change) == seq!['.'],
        change_hundredths != 0 ==> {
            let t = change_text(change_hundredths, change);
            let digits = t.subrange(3, t.len() - 9);
            &&& t[0] == ' ' && t[1] == '('
            &&& t[2] == (if change_hundredths > 0 { '+' } else { '-' })
            &&& chars_value(digits) == abs(change)
            &&& t.subrange(t.len() - 9, t.len() as int) == seq![' ', 'p', 'o', 'i', 'n', 't', 's', ')', '.']
        },
{
    reveal_strlit(".");
    reveal_strlit(" (+");
    reveal_strlit(" (-");
    reveal_strlit(" points).");
    lemma_decimal_digits_read_back(abs(change));
    let d = decimal_digits(abs(change));
    if change_hundredths != 0 {
        let head = if change_hundredths > 0 { " (+"@ } else { " (-"@ };
        let t = head + d + " points)."@;
        assert(t == change_text(change_hundredths, change));
        assert(t.subrange(3, t.len() - 9) =~= d);
        assert(t.subrange(t.len() - 9, t.len() as int) =~= seq![' ', 'p', 'o', 'i', 'n', 't', 's', ')', '.']);
    } else {
        assert("."@ =~= seq!['.']);
    }
}

pub open spec fn outcome_text(o: CalcOutcome) -> Seq<char> {
    match o {
        CalcOutcome::NoGames => "Enter games to calculate rating changes."@,
        CalcOutcome::UnknownResult => "Game result must be known and can only be Win, Draw, or Loss."@,
        CalcOutcome::TooFewGames => "At least 5 games are required for a player without an existing rating."@,
        CalcOutcome::NoPoints => "At least one draw is required for a player without an existing rating."@,
        CalcOutcome::Unrated { rating } => "The rating will be "@ + rounded_text(rating) + "."@
            + first_rating_note(rating),
        CalcOutcome::Rated { new_rating, change_hundredths, change } => "The rating will be "@
            + rounded_text(new_rating) + change_text(change_hundredths as int, change as int),
    }
}

fn digit_str(d: u128) -> (s: &'static str)
    requires
        d < 10,
    ensures
        s@ == seq![digit_char(d as int)],
        s@.len() == 1 && s@[0] as int == 48 + d,
{
    proof {
        reveal_strlit("0");
        reveal_strlit("1");
        reveal_strlit("2");
        reveal_strlit("3");
        reveal_strlit("4");
        reveal_strlit("5");
        reveal_strlit("6");
        reveal_strlit("7");
        reveal_strlit("8");
        reveal_strlit("9");
    }
    if d == 0 {
        "0"
    } else if d == 1 {
        "1"
    } else if d == 2 {
        "2"
    } else if d == 3 {
        "3"
    } else if d == 4 {
        "4"
    } else if d == 5 {
        "5"
    } else if d == 6 {
        "6"
    } else if d == 7 {
        "7"
    } else if d == 8 {
        "8"
    } else {
        "9"
    }
}

/// Appends the decimal digits of `n`.
pub fn append_decimal(s: &mut String, n: u128)
    ensures
        final(s)@ == old(s)@ + decimal_digits(n as nat),
    decreases n,
{
    if n >= 10 {
        append_decimal(s, n / 10);
        s.append(digit_str(n % 10));
        assert(decimal_digits(n as nat) == decimal_digits((n / 10) as nat).push(digit_char((n % 10) as int)));
    } else {
        s.append(digit_str(n));
    }
}

fn magnitude(v: i128) -> (m: u128)
    ensures
        m == abs(v as int),
{
    if v < 0 {
        (-(v + 1)) as u128 + 1
    } else {
        v as u128
    }
}


/// Appends a rounded number as it is shown.
pub fn append_rounded(s: &mut String, r: RoundedValue)
    ensures
        final(s)@ == old(s)@ + rounded_text(r),
{
    if r.negative {
        s.append("-");
        proof {
            reveal_strlit("-");
        }
    }
    let ghost mid = s@;
    append_decimal(s, magnitude(r.value));
    assert(s@ =~= old(s)@ + rounded_text(r));
}

impl CalcOutcome {
    /// The text the calculator shows for this outcome.
    pub fn message(&self) -> (text: String)
        ensures
            text@ == outcome_text(*self),
    {
        match *self {
            CalcOutcome::NoGames => String::from_str("Enter games to calculate rating changes."),
            CalcOutcome::UnknownResult => String::from_str(
                "Game result must be known and can only be Win, Draw, or Loss.",
            ),
            CalcOutcome::TooFewGames => String::from_str(
                "At least 5 games are required for a player without an existing rating.",
            ),
            CalcOutcome::NoPoints => String::from_str(
                "At least one draw is required for a player without an existing rating.",
            ),
            CalcOutcome::Unrated { rating } => {
                let mut text = String::from_str("The rating will be ");
                append_rounded(&mut text, rating);
                text.append(".");
                if rating.value < MIN_FIRST_RATING {
                    text.append(
                        "However, since the minimum rating is 1400, the player will not have a rating below that.",
                    );
                } else if rating.value > MAX_FIRST_RATING {
                    text.append(
                        "However, since the maximum rating is 2200, the player will have a rating of exactly 2200.",
                    );
                }
                assert(text@ =~= outcome_text(*self));
                text
            },
            CalcOutcome::Rated { new_rating, change_hundredths, change } => {
                let mut text = String::from_str("The rating will be ");
                append_rounded(&mut text, new_rating);
                if change_hundredths == 0 {
                    text.append(".");
                } else {
                    if change_hundredths > 0 {
                        text.append(" (+");
                    } else {
                        text.append(" (-");
                    }
                    append_decimal(&mut text, magnitude(change));
                    text.append(" points).");
                }
                assert(text@ =~= outcome_text(*self));
                text
            },
        }
    }
}

} // verus!
