//! The calculator's two lookup tables and the rows they are read from.
//!
//! Every number of a row is held in hundredths: a rating difference of 3
//! is 300, a probability of 0.5 is 50.
use vstd::prelude::*;
use crate::csv_source::{csv_rows, read_csv_rows};
use crate::decimal::{parse_hundredths, spec_parse_field, FieldError};

verus! {

/// The largest rating difference that a probability table must cover.
pub const MAX_RATING_DIFFERENCE: u32 = 5000;

/// One row of a table, in hundredths. In the probability table a row says
/// that for a rating difference from `min_diff` to `max_diff` the higher rated
/// player is expected to score `prob_big` and the lower rated `prob_small`.
/// In the table for players without a rating, `min_diff` is a percentage
/// score and `max_diff` the rating difference that goes with it.
#[derive(Debug, Clone, Copy, PartialEq, Eq, Structural)]
pub struct ProbabilityRecord {
    pub min_diff: i32,
    pub max_diff: i32,
    pub prob_big: i32,
    pub prob_small: i32,
}

/// Why a row could not be read.
#[derive(Debug, Clone, Copy, PartialEq, Eq, Structural)]
pub enum RecordError {
    /// The row does not have exactly four fields.
    InvalidLength,
    /// A field is not a number by the grammar of `f32::from_str`.
    InvalidNumber,
    /// Every field is a number, but some field holds one that the library
    /// does not hold (see `decimal::FieldError::Unrepresentable`).
    Unrepresentable,
}

/// Why a table could not be read.
#[derive(Debug, Clone, Copy, PartialEq, Eq, Structural)]
pub enum LoadError {
    /// The CSV reader reported an error after the rows before it were read.
    Malformed,
    /// A row is not four numbers (`InvalidLength` or `InvalidNumber`).
    InvalidRecord(RecordError),
    /// The table reads without error, but holds a number that the library
    /// does not hold.
    Unrepresentable,
}

pub open spec fn not_a_number(f: Seq<u8>) -> bool {
    spec_parse_field(f) == Err::<i32, FieldError>(FieldError::NotANumber)
}

pub open spec fn spec_record_from_fields(f: Seq<Seq<u8>>) -> Result<ProbabilityRecord, RecordError> {
    if f.len() != 4 {
        Err(RecordError::InvalidLength)
    } else if not_a_number(f[0]) || not_a_number(f[1]) || not_a_number(f[2]) || not_a_number(f[3]) {
        Err(RecordError::InvalidNumber)
    } else if spec_parse_field(f[0]) is Err || spec_parse_field(f[1]) is Err || spec_parse_field(f[2]) is Err
        || spec_parse_field(f[3]) is Err {
        Err(RecordError::Unrepresentable)
    } else {
        Ok(
            ProbabilityRecord {
                min_diff: spec_parse_field(f[0])->Ok_0,
                max_diff: spec_parse_field(f[1])->Ok_0,
                prob_big: spec_parse_field(f[2])->Ok_0,
                prob_small: spec_parse_field(f[3])->Ok_0,
            },
        )
    }
}

/// A row that is not four numbers.
pub open spec fn is_invalid_row(f: Seq<Seq<u8>>) -> bool {
    spec_record_from_fields(f) is Err && spec_record_from_fields(f)->Err_0 != RecordError::Unrepresentable
}

/// The error of the first row that is not four numbers, if any.
pub open spec fn first_invalid(rows: Seq<Seq<Seq<u8>>>) -> Option<RecordError>
    decreases rows.len(),
{
    if rows.len() == 0 {
        None
    } else {
        match first_invalid(rows.drop_last()) {
            Some(e) => Some(e),
            None => if is_invalid_row(rows.last()) {
                Some(spec_record_from_fields(rows.last())->Err_0)
            } else {
                None
            },
        }
    }
}

/// Some row holds a number the library does not hold.
pub open spec fn any_unrepresentable(rows: Seq<Seq<Seq<u8>>>) -> bool
    decreases rows.len(),
{
    rows.len() > 0 && (any_unrepresentable(rows.drop_last()) || spec_record_from_fields(rows.last())
        == Err::<ProbabilityRecord, RecordError>(RecordError::Unrepresentable))
}

/// The records of the rows that read, in order.
pub open spec fn records_of(rows: Seq<Seq<Seq<u8>>>) -> Seq<ProbabilityRecord>
    decreases rows.len(),
{
    if rows.len() == 0 {
        Seq::empty()
    } else {
        match spec_record_from_fields(rows.last()) {
            Ok(r) => records_of(rows.drop_last()).push(r),
            Err(_) => records_of(rows.drop_last()),
        }
    }
}

/// The result of reading a CSV table whose reader gave `rows` and then
/// stopped, on an error when `reader_failed`: the first row that is not four
/// numbers gives the error; when there is none, an error of the reader after
/// the rows does; when there is none either, a number the library does not
/// hold does.
pub open spec fn spec_records_after_reader(rows: Seq<Seq<Seq<u8>>>, reader_failed: bool) -> Result<Seq<ProbabilityRecord>, LoadError> {
    match first_invalid(rows) {
        Some(e) => Err(LoadError::InvalidRecord(e)),
        None => if reader_failed {
            Err(LoadError::Malformed)
        } else if any_unrepresentable(rows) {
            Err(LoadError::Unrepresentable)
        } else {
            Ok(records_of(rows))
        },
    }
}

pub open spec fn spec_load_from_csv(data: Seq<u8>) -> Result<Seq<ProbabilityRecord>, LoadError> {
    spec_records_after_reader(csv_rows(data).0, csv_rows(data).1)
}

fn is_not_a_number(r: &Result<i32, FieldError>) -> (b: bool)
    ensures
        b == (*r == Err::<i32, FieldError>(FieldError::NotANumber)),
{
    matches!(r, Err(FieldError::NotANumber))
}

impl ProbabilityRecord {
    pub fn new_from(min_diff: i32, max_diff: i32, prob_big: i32, prob_small: i32) -> (r: Self)
        ensures
            r == (ProbabilityRecord { min_diff, max_diff, prob_big, prob_small }),
    {
        ProbabilityRecord { min_diff, max_diff, prob_big, prob_small }
    }

    /// Reads a row of exactly four decimal fields.
    pub fn from_csv_record(record: &Vec<Vec<u8>>) -> (res: Result<Self, RecordError>)
        ensures
            res == spec_record_from_fields(record.deep_view()),
    {
        let ghost f = record.deep_view();
        if record.len() != 4 {
            return Err(RecordError::InvalidLength);
        }
        assert(f[0] == record@[0]@ && f[1] == record@[1]@ && f[2] == record@[2]@ && f[3] == record@[3]@);
        let a = parse_hundredths(record[0].as_slice());
        let b = parse_hundredths(record[1].as_slice());
        let c = parse_hundredths(record[2].as_slice());
        let d = parse_hundredths(record[3].as_slice());
        match (a, b, c, d) {
            (Ok(a), Ok(b), Ok(c), Ok(d)) => Ok(Self::new_from(a, b, c, d)),
            _ => {
                if is_not_a_number(&a) || is_not_a_number(&b) || is_not_a_number(&c) || is_not_a_number(&d) {
                    Err(RecordError::InvalidNumber)
                } else {
                    Err(RecordError::Unrepresentable)
                }
            },
        }
    }
}

/// Reads the rows in order: the first row that cannot be read gives the
/// error; when all can, an error of the reader after them does.
pub fn records_from_rows(rows: &Vec<Vec<Vec<u8>>>, reader_failed: bool) -> (res: Result<Vec<ProbabilityRecord>, LoadError>)
    ensures
        match res {
            Ok(v) => spec_records_after_reader(rows.deep_view(), reader_failed)
                == Ok::<Seq<ProbabilityRecord>, LoadError>(v@),
            Err(e) => spec_records_after_reader(rows.deep_view(), reader_failed)
                == Err::<Seq<ProbabilityRecord>, LoadError>(e),
        },
{
    let ghost rv = rows.deep_view();
    let mut records: Vec<ProbabilityRecord> = Vec::new();
    let mut unrepresentable = false;
    let mut i: usize = 0;
    while i < rows.len()
        invariant
            rv == rows.deep_view(),
            0 <= i <= rows.len(),
            first_invalid(rv.take(i as int)) is None,
            unrepresentable == any_unrepresentable(rv.take(i as int)),
            records@ == records_of(rv.take(i as int)),
        decreases rows.len() - i,
    {
        assert(rv.take(i + 1).drop_last() =~= rv.take(i as int));
        assert(rv.take(i + 1).last() == rows@[i as int].deep_view());
        match ProbabilityRecord::from_csv_record(&rows[i]) {
            Ok(r) => records.push(r),
            Err(RecordError::Unrepresentable) => unrepresentable = true,
            Err(e) => {
                proof {
                    lemma_first_invalid_persists(rv, i + 1);
                }
                return Err(LoadError::InvalidRecord(e));
            },
        }
        i = i + 1;
    }
    assert(rv.take(i as int) =~= rv);
    if reader_failed {
        return Err(LoadError::Malformed);
    }
    if unrepresentable {
        return Err(LoadError::Unrepresentable);
    }
    Ok(records)
}

/// Reads every row of a CSV table (comma-separated, no header row).
pub fn load_from_csv(data: &[u8]) -> (res: Result<Vec<ProbabilityRecord>, LoadError>)
    ensures
        match res {
            Ok(v) => spec_load_from_csv(data@) == Ok::<Seq<ProbabilityRecord>, LoadError>(v@),
            Err(e) => spec_load_from_csv(data@) == Err::<Seq<ProbabilityRecord>, LoadError>(e),
        },
{
    let (rows, error) = read_csv_rows(data);
    records_from_rows(&rows, error.is_some())
}

/// Once a prefix of the rows holds a row that is not four numbers, the
/// first such row stays the first.
proof fn lemma_first_invalid_persists(rows: Seq<Seq<Seq<u8>>>, k: int)
    requires
        0 <= k <= rows.len(),
        first_invalid(rows.take(k)) is Some,
    ensures
        first_invalid(rows) == first_invalid(rows.take(k)),
    decreases rows.len() - k,
{
    if k < rows.len() {
        assert(rows.take(k + 1).drop_last() =~= rows.take(k));
        lemma_first_invalid_persists(rows, k + 1);
    } else {
        assert(rows.take(k) =~= rows);
    }
}

/// `r` covers the rating difference `d` (in whole points).
pub open spec fn record_covers(r: ProbabilityRecord, d: int) -> bool {
    r.min_diff <= 100 * d && 100 * d <= r.max_diff
}

pub open spec fn covers(recs: Seq<ProbabilityRecord>, d: int) -> bool {
    exists|j: int| 0 <= j < recs.len() && #[trigger] record_covers(recs[j], d)
}

/// `j` is the first row that covers `d`.
pub open spec fn is_first_covering(recs: Seq<ProbabilityRecord>, d: int, j: int) -> bool {
    &&& 0 <= j < recs.len()
    &&& record_covers(recs[j], d)
    &&& forall|k: int| 0 <= k < j ==> !#[trigger] record_covers(recs[k], d)
}

/// The first row that covers `d` (meaningful when some row covers it).
pub open spec fn first_covering(recs: Seq<ProbabilityRecord>, d: int) -> int {
    choose|j: int| is_first_covering(recs, d, j)
}

/// Every rating difference from 0 to `MAX_RATING_DIFFERENCE` is covered.
pub open spec fn covers_all_differences(recs: Seq<ProbabilityRecord>) -> bool {
    forall|d: int| 0 <= d <= MAX_RATING_DIFFERENCE ==> #[trigger] covers(recs, d)
}

/// Some row of the table for players without a rating is for the
/// percentage score `p`.
pub open spec fn has_score(recs: Seq<ProbabilityRecord>, p: int) -> bool {
    exists|j: int| 0 <= j < recs.len() && #[trigger] recs[j].min_diff == p
}

/// Every percentage score from 0 to 99 has a row. (A player's share of the
/// points, two hypothetical draws included, is always below 100 percent.)
pub open spec fn covers_all_scores(recs: Seq<ProbabilityRecord>) -> bool {
    forall|p: int| 0 <= p < 100 ==> #[trigger] has_score(recs, p)
}

/// The row's percentage score lies less than one percent from
/// `points / count` percent (`points` in hundredths of a game point,
/// `count` games).
pub open spec fn score_matches(r: ProbabilityRecord, points: int, count: int) -> bool {
    -count < r.min_diff * count - points && r.min_diff * count - points < count
}

pub open spec fn is_first_score_match(recs: Seq<ProbabilityRecord>, points: int, count: int, j: int) -> bool {
    &&& 0 <= j < recs.len()
    &&& score_matches(recs[j], points, count)
    &&& forall|k: int| 0 <= k < j ==> !#[trigger] score_matches(recs[k], points, count)
}

pub open spec fn first_score_match(recs: Seq<ProbabilityRecord>, points: int, count: int) -> int {
    choose|j: int| is_first_score_match(recs, points, count, j)
}

pub proof fn lemma_first_covering_unique(recs: Seq<ProbabilityRecord>, d: int, j: int)
    requires
        is_first_covering(recs, d, j),
    ensures
        first_covering(recs, d) == j,
{
    let c = first_covering(recs, d);
    assert(is_first_covering(recs, d, c));
    if c < j {
        assert(!record_covers(recs[c], d));
    } else if j < c {
        assert(!record_covers(recs[j], d));
    }
}

pub proof fn lemma_first_score_match_unique(recs: Seq<ProbabilityRecord>, points: int, count: int, j: int)
    requires
        is_first_score_match(recs, points, count, j),
    ensures
        first_score_match(recs, points, count) == j,
{
    let c = first_score_match(recs, points, count);
    assert(is_first_score_match(recs, points, count, c));
    if c < j {
        assert(!score_matches(recs[c], points, count));
    } else if j < c {
        assert(!score_matches(recs[j], points, count));
    }
}

/// Finds the first row that covers the rating difference `d`.
pub fn find_covering(recs: &Vec<ProbabilityRecord>, d: u32) -> (res: Option<usize>)
    ensures
        match res {
            Some(j) => is_first_covering(recs@, d as int, j as int) && first_covering(recs@, d as int) == j,
            None => !covers(recs@, d as int),
        },
{
    let target: i64 = 100 * d as i64;
    let mut j: usize = 0;
    while j < recs.len()
        invariant
            target == 100 * d,
            0 <= j <= recs.len(),
            forall|k: int| 0 <= k < j ==> !#[trigger] record_covers(recs@[k], d as int),
        decreases recs.len() - j,
    {
        let r = recs[j];
        if r.min_diff as i64 <= target && target <= r.max_diff as i64 {
            proof {
                lemma_first_covering_unique(recs@, d as int, j as int);
            }
            return Some(j);
        }
        j = j + 1;
    }
    None
}

/// Finds the first row whose percentage score lies less than one percent
/// from `points / count` percent.
pub fn find_score_match(recs: &Vec<ProbabilityRecord>, points: i128, count: i128) -> (res: Option<usize>)
    requires
        0 <= points <= 100 * count,
        0 < count <= 0x1_0000_0000_0000_0002,
    ensures
        match res {
            Some(j) => is_first_score_match(recs@, points as int, count as int, j as int)
                && first_score_match(recs@, points as int, count as int) == j,
            None => forall|k: int| 0 <= k < recs@.len() ==> !#[trigger] score_matches(recs@[k], points as int, count as int),
        },
{
    let mut j: usize = 0;
    while j < recs.len()
        invariant
            0 <= points <= 100 * count,
            0 < count <= 0x1_0000_0000_0000_0002,
            0 <= j <= recs.len(),
            forall|k: int| 0 <= k < j ==> !#[trigger] score_matches(recs@[k], points as int, count as int),
        decreases recs.len() - j,
    {
        let m = recs[j].min_diff as i128;
        assert(-0x8000_0000 * 0x1_0000_0000_0000_0002 <= m * count <= 0x8000_0000 * 0x1_0000_0000_0000_0002)
            by (nonlinear_arith)
            requires
                -0x8000_0000 <= m <= 0x8000_0000,
                0 < count <= 0x1_0000_0000_0000_0002,
        ;
        let diff = m * count - points;
        if -count < diff && diff < count {
            proof {
                lemma_first_score_match_unique(recs@, points as int, count as int, j as int);
            }
            return Some(j);
        }
        j = j + 1;
    }
    None
}

/// With a row for every percentage score, some row lies less than one
/// percent from any score from 0 up to, but not including, 100 percent.
pub proof fn lemma_score_match_exists(recs: Seq<ProbabilityRecord>, points: int, count: int)
    requires
        covers_all_scores(recs),
        0 < count,
        0 <= points < 100 * count,
    ensures
        exists|j: int| 0 <= j < recs.len() && #[trigger] score_matches(recs[j], points, count),
{
    let m = points / count;
    assert(m * count <= points < m * count + count && 0 <= m < 100) by (nonlinear_arith)
        requires
            m == points / count,
            0 < count,
            0 <= points < 100 * count,
    ;
    assert(has_score(recs, m));
    let j = choose|j: int| 0 <= j < recs.len() && #[trigger] recs[j].min_diff == m;
    assert(score_matches(recs[j], points, count));
}

/// A probability table: every rating difference from 0 to
/// `MAX_RATING_DIFFERENCE` is covered by some row.
pub struct ProbabilityTable {
    records: Vec<ProbabilityRecord>,
}

impl View for ProbabilityTable {
    type V = Seq<ProbabilityRecord>;

    closed spec fn view(&self) -> Seq<ProbabilityRecord> {
        self.records@
    }
}

impl ProbabilityTable {
    #[verifier::type_invariant]
    spec fn well_formed(self) -> bool {
        covers_all_differences(self.records@)
    }

    /// Accepts the rows as a probability table exactly when they cover every
    /// rating difference from 0 to `MAX_RATING_DIFFERENCE`.
    pub fn from_records(records: Vec<ProbabilityRecord>) -> (res: Option<Self>)
        ensures
            res is Some <==> covers_all_differences(records@),
            res matches Some(t) ==> t@ == records@,
    {
        let mut d: u32 = 0;
        while d <= MAX_RATING_DIFFERENCE
            invariant
                0 <= d <= MAX_RATING_DIFFERENCE + 1,
                forall|e: int| 0 <= e < d ==> #[trigger] covers(records@, e),
            decreases MAX_RATING_DIFFERENCE + 1 - d,
        {
            if find_covering(&records, d).is_none() {
                return None;
            }
            d = d + 1;
        }
        Some(ProbabilityTable { records })
    }

    /// The table covers every rating difference up to
    /// `MAX_RATING_DIFFERENCE`.
    pub fn covers_all(&self)
        ensures
            covers_all_differences(self@),
    {
        proof {
            use_type_invariant(self);
        }
    }

    /// Whether some row covers the rating difference `d`; always so up to
    /// `MAX_RATING_DIFFERENCE`.
    pub fn covers_difference(&self, d: u32) -> (b: bool)
        ensures
            b == covers(self@, d as int),
            d <= MAX_RATING_DIFFERENCE ==> b,
    {
        proof {
            use_type_invariant(self);
        }
        find_covering(&self.records, d).is_some()
    }

    /// The expected scores (higher rated, lower rated) for the rating
    /// difference `d`, from the first row that covers it.
    pub fn expected_scores(&self, d: u32) -> (res: (i32, i32))
        requires
            covers(self@, d as int),
        ensures
            res.0 == self@[first_covering(self@, d as int)].prob_big,
            res.1 == self@[first_covering(self@, d as int)].prob_small,
            is_first_covering(self@, d as int, first_covering(self@, d as int)),
    {
        match find_covering(&self.records, d) {
            Some(j) => (self.records[j].prob_big, self.records[j].prob_small),
            None => {
                assert(false);
                (0, 0)
            },
        }
    }
}

/// The table for players without a rating: every percentage score from 0
/// to 99 has a row.
pub struct InitialTable {
    records: Vec<ProbabilityRecord>,
}

impl View for InitialTable {
    type V = Seq<ProbabilityRecord>;

    closed spec fn view(&self) -> Seq<ProbabilityRecord> {
        self.records@
    }
}

impl InitialTable {
    #[verifier::type_invariant]
    spec fn well_formed(self) -> bool {
        covers_all_scores(self.records@)
    }

    /// Accepts the rows exactly when every percentage score from 0 to 99
    /// has a row.
    pub fn from_records(records: Vec<ProbabilityRecord>) -> (res: Option<Self>)
        ensures
            res is Some <==> covers_all_scores(records@),
            res matches Some(t) ==> t@ == records@,
    {
        let mut p: i32 = 0;
        while p < 100
            invariant
                0 <= p <= 100,
                forall|q: int| 0 <= q < p ==> #[trigger] has_score(records@, q),
            decreases 100 - p,
        {
            let mut j: usize = 0;
            while j < records.len() && records[j].min_diff != p
                invariant
                    0 <= p < 100,
                    0 <= j <= records.len(),
                    forall|k: int| 0 <= k < j ==> #[trigger] records@[k].min_diff != p,
                decreases records.len() - j,
            {
                j = j + 1;
            }
            if j == records.len() {
                assert(!has_score(records@, p as int));
                return None;
            }
            assert(records@[j as int].min_diff == p);
            p = p + 1;
        }
        Some(InitialTable { records })
    }

    /// The table has a row for every percentage score from 0 to 99.
    pub fn covers_all(&self)
        ensures
            covers_all_scores(self@),
    {
        proof {
            use_type_invariant(self);
        }
    }

    /// The rating difference of the first row whose percentage score lies
    /// less than one percent from `points / count` percent; such a row always
    /// exists.
    pub fn rating_difference(&self, points: i128, count: i128) -> (res: i32)
        requires
            0 <= points < 100 * count,
            0 < count <= 0x1_0000_0000_0000_0002,
        ensures
            is_first_score_match(self@, points as int, count as int, first_score_match(self@, points as int, count as int)),
            res == self@[first_score_match(self@, points as int, count as int)].max_diff,
    {
        proof {
            use_type_invariant(self);
            lemma_score_match_exists(self@, points as int, count as int);
        }
        match find_score_match(&self.records, points, count) {
            Some(j) => self.records[j].max_diff,
            None => {
                assert(false);
                0
            },
        }
    }
}

} // verus!
