use rankfide::decimal::{parse_hundredths, FieldError};
use rankfide::table::{load_from_csv, records_from_rows, LoadError, ProbabilityRecord, RecordError};

#[test]
fn parses_plain_and_fractional_numbers() {
    assert_eq!(parse_hundredths(b"0.50"), Ok(50));
    assert_eq!(parse_hundredths(b"3"), Ok(300));
    assert_eq!(parse_hundredths(b"-800"), Ok(-80000));
    assert_eq!(parse_hundredths(b"+.5"), Ok(50));
    assert_eq!(parse_hundredths(b"7."), Ok(700));
    assert_eq!(parse_hundredths(b"1.500"), Ok(150));
    assert_eq!(parse_hundredths(b"0.07"), Ok(7));
    assert_eq!(parse_hundredths(b"21474836.47"), Ok(2147483647));
    assert_eq!(parse_hundredths(b"-21474836.47"), Ok(-2147483647));
}

#[test]
fn parses_exponents() {
    assert_eq!(parse_hundredths(b"5e2"), Ok(50000));
    assert_eq!(parse_hundredths(b"1.5E1"), Ok(1500));
    assert_eq!(parse_hundredths(b"25e-2"), Ok(25));
    assert_eq!(parse_hundredths(b"2500e-4"), Ok(25));
    assert_eq!(parse_hundredths(b"-0.0750e+1"), Ok(-75));
    assert_eq!(parse_hundredths(b"0e999999999999999999999999999999999999999"), Ok(0));
    assert_eq!(parse_hundredths(b"-0"), Ok(0));
    assert_eq!(parse_hundredths(b"000.000"), Ok(0));
}

#[test]
fn numbers_the_library_does_not_hold() {
    assert_eq!(parse_hundredths(b"0.505"), Err(FieldError::Unrepresentable));
    assert_eq!(parse_hundredths(b".001"), Err(FieldError::Unrepresentable));
    assert_eq!(parse_hundredths(b"1e-3"), Err(FieldError::Unrepresentable));
    assert_eq!(parse_hundredths(b"inf"), Err(FieldError::Unrepresentable));
    assert_eq!(parse_hundredths(b"-Infinity"), Err(FieldError::Unrepresentable));
    assert_eq!(parse_hundredths(b"NaN"), Err(FieldError::Unrepresentable));
    assert_eq!(parse_hundredths(b"21474836.48"), Err(FieldError::Unrepresentable));
    assert_eq!(parse_hundredths(b"99999999999999999999"), Err(FieldError::Unrepresentable));
    assert_eq!(parse_hundredths(b"1e50"), Err(FieldError::Unrepresentable));
    assert_eq!(parse_hundredths(b"1e999999999999999999999999999999999999999"), Err(FieldError::Unrepresentable));
    assert_eq!(parse_hundredths(b"1e-999999999999999999999999999999999999999"), Err(FieldError::Unrepresentable));
}

#[test]
fn refuses_what_is_not_a_number() {
    for field in [&b""[..], b".", b"-", b"+", b"1e", b"1e+", b"e5", b".e1", b" 1", b"1 ", b"1.2.3", b"abc", b"infin", b"0x10", b"1_000", b"--1"] {
        assert_eq!(parse_hundredths(field), Err(FieldError::NotANumber), "{:?}", field);
    }
}

#[test]
fn reads_a_record_of_four_fields() {
    let record = vec![b"4".to_vec(), b"10".to_vec(), b"0.51".to_vec(), b"0.49".to_vec()];
    assert_eq!(
        ProbabilityRecord::from_csv_record(&record),
        Ok(ProbabilityRecord { min_diff: 400, max_diff: 1000, prob_big: 51, prob_small: 49 })
    );
    let short = vec![b"4".to_vec(), b"10".to_vec(), b"0.51".to_vec()];
    assert_eq!(ProbabilityRecord::from_csv_record(&short), Err(RecordError::InvalidLength));
    let bad = vec![b"4".to_vec(), b"x".to_vec(), b"0.51".to_vec(), b"0.49".to_vec()];
    assert_eq!(ProbabilityRecord::from_csv_record(&bad), Err(RecordError::InvalidNumber));
    let infinite = vec![b"5".to_vec(), b"1".to_vec(), b"-2".to_vec(), b"inf".to_vec()];
    assert_eq!(ProbabilityRecord::from_csv_record(&infinite), Err(RecordError::Unrepresentable));
    // A field that is no number decides over one the library does not hold.
    let both = vec![b".001".to_vec(), b"x".to_vec(), b"0.51".to_vec(), b"0.49".to_vec()];
    assert_eq!(ProbabilityRecord::from_csv_record(&both), Err(RecordError::InvalidNumber));
}

#[test]
fn new_from_keeps_the_fields() {
    let r = ProbabilityRecord::new_from(1, 2, 3, 4);
    assert_eq!(r, ProbabilityRecord { min_diff: 1, max_diff: 2, prob_big: 3, prob_small: 4 });
}

#[test]
fn loads_rows_from_csv_bytes() {
    let data = b"0,3,0.50,0.50\n4,10,0.51,0.49\n";
    let records = load_from_csv(data).unwrap();
    assert_eq!(
        records,
        vec![
            ProbabilityRecord { min_diff: 0, max_diff: 300, prob_big: 50, prob_small: 50 },
            ProbabilityRecord { min_diff: 400, max_diff: 1000, prob_big: 51, prob_small: 49 },
        ]
    );
    assert_eq!(load_from_csv(b""), Ok(vec![]));
}

#[test]
fn reports_csv_and_record_errors() {
    // Rows of different lengths are an error of the CSV reader itself.
    assert_eq!(load_from_csv(b"1,2,3,4\n1,2\n"), Err(LoadError::Malformed));
    // The row that fails first decides, be it the reader's or a number's.
    assert_eq!(
        load_from_csv(b"1,2,3,x\n1,2\n"),
        Err(LoadError::InvalidRecord(RecordError::InvalidNumber))
    );
    // A number the library does not hold comes last: after a row that is no
    // number, and after the reader's own error.
    assert_eq!(load_from_csv(b"1,2,3,.001\n1,2,3,4\n"), Err(LoadError::Unrepresentable));
    assert_eq!(
        load_from_csv(b"1,2,3,.001\n1,2,3,x\n"),
        Err(LoadError::InvalidRecord(RecordError::InvalidNumber))
    );
    assert_eq!(load_from_csv(b"1,2,3,.001\n1,2\n"), Err(LoadError::Malformed));
    assert_eq!(load_from_csv(b"1,2,3\n1,2,3\n"), Err(LoadError::InvalidRecord(RecordError::InvalidLength)));
    assert_eq!(
        load_from_csv(b"1,2,3,4\n1,2,3,x\n"),
        Err(LoadError::InvalidRecord(RecordError::InvalidNumber))
    );
}

#[test]
fn rows_are_read_before_the_reader_error() {
    let good = vec![vec![b"0".to_vec(), b"3".to_vec(), b"0.50".to_vec(), b"0.50".to_vec()]];
    assert_eq!(
        records_from_rows(&good, false),
        Ok(vec![ProbabilityRecord { min_diff: 0, max_diff: 300, prob_big: 50, prob_small: 50 }])
    );
    assert_eq!(records_from_rows(&good, true), Err(LoadError::Malformed));
    let bad = vec![vec![b"0".to_vec(), b"3".to_vec()]];
    assert_eq!(records_from_rows(&bad, true), Err(LoadError::InvalidRecord(RecordError::InvalidLength)));
}
