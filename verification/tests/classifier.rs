use geochunk::errors::ChunkError;
use geochunk::zip2010::Classifier;

/// A small population in the layout of the census table: a header line,
/// then a code and its population on each line.
const SAMPLE_CSV: &str = "\
zip,population
01001,120000
01002,30000
01013,90000
01020,40000
07701,200000
07712,100000
07720,50000
90210,250000
";

fn sample_rows() -> Vec<(String, u64)> {
    vec![
        ("01001".to_string(), 120000),
        ("01002".to_string(), 30000),
        ("01013".to_string(), 90000),
        ("01020".to_string(), 40000),
        ("07701".to_string(), 200000),
        ("07712".to_string(), 100000),
        ("07720".to_string(), 50000),
        ("90210".to_string(), 250000),
    ]
}

#[test]
fn classifies_sample_zip_codes_as_expected() {
    let classifier = Classifier::from_csv(250000, SAMPLE_CSV).unwrap();
    assert_eq!(classifier.chunk_for("01000").unwrap(), "010_0");
    assert_eq!(classifier.chunk_for("07720").unwrap(), "077_1");
}

#[test]
fn rows_and_csv_text_give_the_same_chunks() {
    let from_text = Classifier::from_csv(250000, SAMPLE_CSV).unwrap();
    let from_rows = Classifier::new(250000, &sample_rows()).unwrap();
    for code in ["01001", "01013", "01020", "01999", "07701", "07712", "07799", "90210", "55555"] {
        assert_eq!(from_text.chunk_for(code).unwrap(), from_rows.chunk_for(code).unwrap());
    }
}

#[test]
fn groups_leftovers_in_digit_order() {
    let classifier = Classifier::new(250000, &sample_rows()).unwrap();
    // Under 010: 0100 holds 150000 and 0101 holds 90000, together 240000;
    // 0102 with 40000 would make 280000 and opens the next group.
    assert_eq!(classifier.chunk_for("01001").unwrap(), "010_0");
    assert_eq!(classifier.chunk_for("01013").unwrap(), "010_0");
    assert_eq!(classifier.chunk_for("01020").unwrap(), "010_1");
    assert_eq!(classifier.chunk_for("01099").unwrap(), "010_1");
    // Under 077: 0770 holds 200000; 0771 with 100000 opens the next group,
    // which 0772 with 50000 joins.
    assert_eq!(classifier.chunk_for("07701").unwrap(), "077_0");
    assert_eq!(classifier.chunk_for("07712").unwrap(), "077_1");
    assert_eq!(classifier.chunk_for("07799").unwrap(), "077_1");
}

#[test]
fn empty_siblings_are_grouped_under_their_parent() {
    let classifier = Classifier::new(250000, &sample_rows()).unwrap();
    assert_eq!(classifier.chunk_for("01100").unwrap(), "01_0");
    assert_eq!(classifier.chunk_for("07000").unwrap(), "07_0");
    assert_eq!(classifier.chunk_for("00000").unwrap(), "0_0");
    assert_eq!(classifier.chunk_for("05123").unwrap(), "0_0");
    assert_eq!(classifier.chunk_for("12345").unwrap(), "_0");
    assert_eq!(classifier.chunk_for("80000").unwrap(), "_0");
}

#[test]
fn a_prefix_that_holds_the_target_exactly_is_its_own_chunk() {
    let classifier = Classifier::new(250000, &sample_rows()).unwrap();
    assert_eq!(classifier.chunk_for("90210").unwrap(), "9");
    assert_eq!(classifier.chunk_for("99999").unwrap(), "9");
}

#[test]
fn remembers_its_target() {
    let classifier = Classifier::new(250000, &sample_rows()).unwrap();
    assert_eq!(classifier.target_population(), 250000);
}

#[test]
fn refuses_a_code_that_is_too_short() {
    let classifier = Classifier::new(250000, &sample_rows()).unwrap();
    assert!(matches!(classifier.chunk_for("0100"), Err(ChunkError::InvalidCode)));
    assert!(matches!(classifier.chunk_for("0"), Err(ChunkError::InvalidCode)));
    assert!(matches!(classifier.chunk_for(""), Err(ChunkError::InvalidCode)));
}

#[test]
fn a_refused_code_leaves_the_classifier_usable() {
    let classifier = Classifier::new(250000, &sample_rows()).unwrap();
    assert!(classifier.chunk_for("077").is_err());
    assert_eq!(classifier.chunk_for("07720").unwrap(), "077_1");
}

#[test]
fn of_a_longer_code_the_first_five_characters_count() {
    let classifier = Classifier::new(250000, &sample_rows()).unwrap();
    assert_eq!(classifier.chunk_for("07720-1234").unwrap(), "077_1");
    assert_eq!(classifier.chunk_for("010019").unwrap(), "010_0");
}

#[test]
fn characters_are_counted_and_not_bytes() {
    let classifier = Classifier::new(250000, &sample_rows()).unwrap();
    // Four characters, though more than five bytes.
    assert!(matches!(classifier.chunk_for("07\u{e9}\u{e9}"), Err(ChunkError::InvalidCode)));
    // Five characters of which only the first two are digits: no leading
    // part of it has a chunk.
    assert_eq!(classifier.chunk_for("07\u{e9}\u{e9}\u{e9}").unwrap(), "");
}

#[test]
fn a_code_that_is_no_digit_string_falls_back_to_the_empty_name() {
    let classifier = Classifier::new(250000, &sample_rows()).unwrap();
    assert_eq!(classifier.chunk_for("ABCDE").unwrap(), "");
    // Its digits count as far as they go.
    assert_eq!(classifier.chunk_for("9ABCD").unwrap(), "9");
}

#[test]
fn a_population_within_the_target_is_one_chunk_with_the_empty_name() {
    let classifier = Classifier::new(1000000, &sample_rows()).unwrap();
    assert_eq!(classifier.chunk_for("01001").unwrap(), "");
    assert_eq!(classifier.chunk_for("99999").unwrap(), "");
    let exact = Classifier::new(880000, &sample_rows()).unwrap();
    assert_eq!(exact.chunk_for("01001").unwrap(), "");
    let split = Classifier::new(879999, &sample_rows()).unwrap();
    assert_eq!(split.chunk_for("01001").unwrap(), "_0");
}

#[test]
fn no_rows_make_one_empty_chunk() {
    let classifier = Classifier::new(0, &Vec::new()).unwrap();
    assert_eq!(classifier.chunk_for("12345").unwrap(), "");
}

#[test]
fn rejects_a_target_that_a_single_code_exceeds() {
    // 90210 alone holds 250000.
    assert!(matches!(Classifier::new(249999, &sample_rows()), Err(ChunkError::CodeExceedsTarget)));
    assert!(matches!(Classifier::new(0, &sample_rows()), Err(ChunkError::CodeExceedsTarget)));
    assert!(Classifier::new(250000, &sample_rows()).is_ok());
}

#[test]
fn a_target_of_zero_takes_rows_that_count_nobody() {
    let rows = vec![("01001".to_string(), 0), ("90210".to_string(), 0)];
    let classifier = Classifier::new(0, &rows).unwrap();
    assert_eq!(classifier.chunk_for("01001").unwrap(), "");
}

#[test]
fn reports_malformed_rows() {
    let rows = vec![("01001".to_string(), 1), ("1234".to_string(), 1)];
    assert!(matches!(Classifier::new(10, &rows), Err(ChunkError::InvalidRow)));
    let rows = vec![("01001".to_string(), u64::MAX), ("01002".to_string(), u64::MAX)];
    assert!(matches!(Classifier::new(10, &rows), Err(ChunkError::PopulationOverflow)));
}

#[test]
fn malformed_rows_are_reported_before_the_target() {
    let rows = vec![("01001".to_string(), 100), ("abc".to_string(), 1)];
    assert!(matches!(Classifier::new(10, &rows), Err(ChunkError::InvalidRow)));
}

#[test]
fn the_first_line_of_the_text_is_a_header() {
    let classifier = Classifier::from_csv(10, "01001,1000000\n02139,7\n").unwrap();
    // Only 02139 counts: the whole population is within the target.
    assert_eq!(classifier.chunk_for("01001").unwrap(), "");
    let only_header = Classifier::from_csv(10, "zip,population\n").unwrap();
    assert_eq!(only_header.chunk_for("01001").unwrap(), "");
    let nothing = Classifier::from_csv(10, "").unwrap();
    assert_eq!(nothing.chunk_for("01001").unwrap(), "");
}

#[test]
fn decodes_the_populations_of_the_text() {
    let classifier = Classifier::from_csv(10, "zip,population\n01001,6\n01002,5\n02139,10\n").unwrap();
    assert_eq!(classifier.chunk_for("01001").unwrap(), "0100_0");
    assert_eq!(classifier.chunk_for("01002").unwrap(), "0100_1");
    assert_eq!(classifier.chunk_for("02139").unwrap(), "02");
}

#[test]
fn reports_text_that_does_not_decode() {
    let not_a_number = "zip,population\n01001,many\n";
    assert!(matches!(Classifier::from_csv(10, not_a_number), Err(ChunkError::Csv)));
    let negative = "zip,population\n01001,-1\n";
    assert!(matches!(Classifier::from_csv(10, negative), Err(ChunkError::Csv)));
    let missing_field = "zip\n01001\n";
    assert!(matches!(Classifier::from_csv(10, missing_field), Err(ChunkError::Csv)));
    let uneven = "zip,population\n01001,1\n01002,1,1\n";
    assert!(matches!(Classifier::from_csv(10, uneven), Err(ChunkError::Csv)));
}

#[test]
fn reports_decoded_rows_that_are_malformed() {
    let short_code = "zip,population\n0100,1\n";
    assert!(matches!(Classifier::from_csv(10, short_code), Err(ChunkError::InvalidRow)));
    let too_large = "zip,population\n01001,11\n";
    assert!(matches!(Classifier::from_csv(10, too_large), Err(ChunkError::CodeExceedsTarget)));
}
