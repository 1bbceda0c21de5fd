//! The calculator's background work: reading the two tables at start, then
//! answering the requests of the window one by one.
use vstd::prelude::*;
use crate::rating::{
    differences_covered, k_factor_reply, reaches_rated_formula, spec_calculate, spec_k_factor, AppState,
    Calculator,
};
use crate::table::{
    LoadError, ProbabilityRecord, covers_all_differences, covers_all_scores, load_from_csv, spec_load_from_csv, InitialTable,
    ProbabilityTable,
};
use crate::text::outcome_text;

verus! {

/// Why the calculator could not start.
#[derive(Debug, Clone, Copy, PartialEq, Eq, Structural)]
pub enum StartupError {
    /// The probability table could not be read.
    ProbabilitiesMissing,
    /// The probability table reads, but holds a number that the library
    /// does not hold.
    ProbabilitiesUnrepresentable,
    /// The probability table leaves some rating difference uncovered.
    ProbabilitiesInvalid,
    /// The table for players without a rating could not be read.
    InitialMissing,
    /// The table for players without a rating reads, but holds a number that
    /// the library does not hold.
    InitialUnrepresentable,
    /// The table for players without a rating lacks some percentage score.
    InitialInvalid,
}

/// The outcome of reading the probability table (`None` when the file
/// could not be read) and then the table for players without a rating.
pub open spec fn spec_startup_error(probabilities: Option<Seq<u8>>, initial: Option<Seq<u8>>) -> Option<StartupError> {
    if probabilities is None || (spec_load_from_csv(probabilities->0) is Err && spec_load_from_csv(probabilities->0)
        != Err::<Seq<ProbabilityRecord>, LoadError>(LoadError::Unrepresentable)) {
        Some(StartupError::ProbabilitiesMissing)
    } else if spec_load_from_csv(probabilities->0) is Err {
        Some(StartupError::ProbabilitiesUnrepresentable)
    } else if !covers_all_differences(spec_load_from_csv(probabilities->0)->Ok_0) {
        Some(StartupError::ProbabilitiesInvalid)
    } else if initial is None || (spec_load_from_csv(initial->0) is Err && spec_load_from_csv(initial->0)
        != Err::<Seq<ProbabilityRecord>, LoadError>(LoadError::Unrepresentable)) {
        Some(StartupError::InitialMissing)
    } else if spec_load_from_csv(initial->0) is Err {
        Some(StartupError::InitialUnrepresentable)
    } else if !covers_all_scores(spec_load_from_csv(initial->0)->Ok_0) {
        Some(StartupError::InitialInvalid)
    } else {
        None
    }
}

pub open spec fn bytes_view(b: Option<&[u8]>) -> Option<Seq<u8>> {
    match b {
        Some(s) => Some(s@),
        None => None,
    }
}

/// Reads both tables, the probability table first, and checks each.
pub fn startup(probabilities: Option<&[u8]>, initial: Option<&[u8]>) -> (res: Result<Calculator, StartupError>)
    ensures
        match res {
            Ok(c) => spec_startup_error(bytes_view(probabilities), bytes_view(initial)) is None
                && c.probabilities@ == spec_load_from_csv(bytes_view(probabilities)->0)->Ok_0
                && c.initial@ == spec_load_from_csv(bytes_view(initial)->0)->Ok_0,
            Err(e) => spec_startup_error(bytes_view(probabilities), bytes_view(initial)) == Some(e),
        },
{
    let prob_records = match probabilities {
        Some(data) => match load_from_csv(data) {
            Ok(v) => v,
            Err(LoadError::Unrepresentable) => return Err(StartupError::ProbabilitiesUnrepresentable),
            Err(_) => return Err(StartupError::ProbabilitiesMissing),
        },
        None => return Err(StartupError::ProbabilitiesMissing),
    };
    let prob_table = match ProbabilityTable::from_records(prob_records) {
        Some(t) => t,
        None => return Err(StartupError::ProbabilitiesInvalid),
    };
    let initial_records = match initial {
        Some(data) => match load_from_csv(data) {
            Ok(v) => v,
            Err(LoadError::Unrepresentable) => return Err(StartupError::InitialUnrepresentable),
            Err(_) => return Err(StartupError::InitialMissing),
        },
        None => return Err(StartupError::InitialMissing),
    };
    let initial_table = match InitialTable::from_records(initial_records) {
        Some(t) => t,
        None => return Err(StartupError::InitialInvalid),
    };
    Ok(Calculator::new(prob_table, initial_table))
}

pub open spec fn startup_error_text(e: StartupError) -> Seq<char> {
    match e {
        StartupError::ProbabilitiesMissing => "Error!|The `probabilities.csv` file is missing or inaccessible.|OK"@,
        StartupError::ProbabilitiesUnrepresentable => "Error!|The `probabilities.csv` file holds a number that cannot be held in whole hundredths.|OK"@,
        StartupError::ProbabilitiesInvalid => "Error!|The `probabilities.csv` file is invalid.|OK"@,
        StartupError::InitialMissing => "Error!|The `initial.csv` file is missing or inaccessible.|OK"@,
        StartupError::InitialUnrepresentable => "Error!|The `initial.csv` file holds a number that cannot be held in whole hundredths.|OK"@,
        StartupError::InitialInvalid => "Error!|The `initial.csv` file is invalid.|OK"@,
    }
}

impl StartupError {
    /// The splash text shown for the error: a heading, the reason and the
    /// button, separated by `|`.
    pub fn message(&self) -> (text: String)
        ensures
            text@ == startup_error_text(*self),
    {
        match *self {
            StartupError::ProbabilitiesMissing => String::from_str(
                "Error!|The `probabilities.csv` file is missing or inaccessible.|OK",
            ),
            StartupError::ProbabilitiesUnrepresentable => String::from_str(
                "Error!|The `probabilities.csv` file holds a number that cannot be held in whole hundredths.|OK",
            ),
            StartupError::ProbabilitiesInvalid => String::from_str(
                "Error!|The `probabilities.csv` file is invalid.|OK",
            ),
            StartupError::InitialMissing => String::from_str(
                "Error!|The `initial.csv` file is missing or inaccessible.|OK",
            ),
            StartupError::InitialUnrepresentable => String::from_str(
                "Error!|The `initial.csv` file holds a number that cannot be held in whole hundredths.|OK",
            ),
            StartupError::InitialInvalid => String::from_str("Error!|The `initial.csv` file is invalid.|OK"),
        }
    }
}

/// The splash text shown while the tables are read.
pub fn loading_message() -> (text: String)
    ensures
        text@ == "Wait, files are loading...|by N"@,
{
    String::from_str("Wait, files are loading...|by N")
}

/// A request from the window.
pub enum Request {
    /// The window closes.
    Close,
    /// The K-factor to show; `manual` when the user sets it by hand.
    KFactor { data: AppState, manual: bool },
    /// The rating the entered games lead to.
    Calc { data: AppState },
    /// A request the calculator does not know.
    Unknown,
}

/// The answer to a request.
pub enum Reply {
    /// The work ends.
    Stop,
    KFactor(u16),
    Calc(String),
    /// Nothing is answered.
    Nothing,
}

impl Calculator {
    /// Answers one request.
    pub fn handle(&self, request: &Request) -> (reply: Reply)
        requires
            request matches Request::Calc { data } ==> (reaches_rated_formula(data.has_rating, data.games@)
                ==> differences_covered(self.probabilities@, data.my_rating, data.games@)),
        ensures
            match *request {
                Request::Close => reply is Stop,
                Request::KFactor { data, manual } => reply == Reply::KFactor(
                    if manual {
                        data.k_factor
                    } else {
                        spec_k_factor(data.played_in_tour_30_games, data.is_eighteen, data.had_2300, data.had_2400)
                    },
                ),
                Request::Calc { data } => reply matches Reply::Calc(text) && text@ == outcome_text(
                    spec_calculate(
                        self.probabilities@,
                        self.initial@,
                        data.has_rating,
                        data.my_rating,
                        data.k_factor,
                        data.games@,
                    ),
                ),
                Request::Unknown => reply is Nothing,
            },
    {
        match request {
            Request::Close => Reply::Stop,
            Request::KFactor { data, manual } => Reply::KFactor(k_factor_reply(data, *manual)),
            Request::Calc { data } => Reply::Calc(self.calculate(data).message()),
            Request::Unknown => Reply::Nothing,
        }
    }
}

} // verus!
