use dti_field::header::{parse_number, split_words, HeaderError};
use dti_field::options::{Options, DEFAULT_SEEDING_POINTS, DEFAULT_SEEDING_STEP};

#[test]
fn numbers() {
    assert_eq!(parse_number(b"0"), Some(0));
    assert_eq!(parse_number(b"42"), Some(42));
    assert_eq!(parse_number(b"+7"), Some(7));
    assert_eq!(parse_number(b"007"), Some(7));
    assert_eq!(parse_number(b""), None);
    assert_eq!(parse_number(b"+"), None);
    assert_eq!(parse_number(b"-1"), None);
    assert_eq!(parse_number(b"1a"), None);
    assert_eq!(parse_number(b"18446744073709551615"), Some(usize::MAX));
    assert_eq!(parse_number(b"18446744073709551616"), None);
    assert_eq!(parse_number(b"99999999999999999999999"), None);
}

#[test]
fn words() {
    assert_eq!(split_words(b"  7 10\t20  30 "), vec![(2, 3), (4, 6), (7, 9), (11, 13)]);
    assert_eq!(split_words(b""), vec![]);
    assert_eq!(split_words(b"   "), vec![]);
    assert_eq!(split_words(b"abc"), vec![(0, 3)]);
}

#[test]
fn default_options() {
    let o = Options::default();
    assert!(!o.little_endian);
    assert_eq!((o.width, o.height, o.depth), (0, 0, 0));
    assert_eq!(o.file, None);
    assert_eq!(o.n_seeding_points, 10);
    assert_eq!(o.seeding_point_calculation_step_size, 2);
    assert_eq!(DEFAULT_SEEDING_POINTS, 10);
    assert_eq!(DEFAULT_SEEDING_STEP, 2);
}

#[test]
fn header_string_full() {
    let text = "NRRD0004\ntype: float\nsizes: 7 148 190 160\nendian: little\ndata file: dti.raw\n";
    let o = Options::load_opt_from_header_string(text).unwrap();
    assert_eq!((o.width, o.height, o.depth), (148, 190, 160));
    assert!(o.little_endian);
    assert_eq!(o.file, Some(b"dti.raw".to_vec()));
    assert_eq!(o.n_seeding_points, 10);
    assert_eq!(o.seeding_point_calculation_step_size, 2);
}

#[test]
fn header_string_crlf_and_big_endian() {
    let text = "sizes: 7 2 3 4\r\nendian: big\r\ndata file: a b.raw\r\n";
    let o = Options::load_opt_from_header_string(text).unwrap();
    assert_eq!((o.width, o.height, o.depth), (2, 3, 4));
    assert!(!o.little_endian);
    assert_eq!(o.file, Some(b"a b.raw".to_vec()));
}

#[test]
fn header_string_without_directives() {
    let o = Options::load_opt_from_header_string("").unwrap();
    assert_eq!(o, Options::default());
    let o = Options::load_opt_from_header_string("sizes:7 1 1 1\ndata file: \nendian:little").unwrap();
    assert_eq!(o, Options::default());
}

#[test]
fn header_string_last_line_without_newline() {
    let o = Options::load_opt_from_header_string("endian: little").unwrap();
    assert!(o.little_endian);
    let o = Options::load_opt_from_header_string("endian: little\nendian: big").unwrap();
    assert!(!o.little_endian);
}

#[test]
fn header_string_malformed_sizes() {
    for text in ["sizes: 7 1 2", "sizes: 6 1 2 3", "sizes: 7 1 2 x", "sizes: 7 1 2 3 4", "a\nsizes: \n"] {
        assert_eq!(Options::load_opt_from_header_string(text), Err(HeaderError::MalformedSizes));
    }
}

#[test]
fn header_lines() {
    let lines: Vec<String> = vec![
        "sizes: 7 4 5 6".to_string(),
        "endian: little".to_string(),
        "data file: x/y.raw".to_string(),
        "space: right-anterior-superior".to_string(),
    ];
    let o = Options::from_header_file(&lines).unwrap();
    assert_eq!((o.width, o.height, o.depth), (4, 5, 6));
    assert!(o.little_endian);
    assert_eq!(o.file, Some(b"x/y.raw".to_vec()));
    let bad: Vec<String> = vec!["sizes: 1 2 3 4".to_string()];
    assert_eq!(Options::from_header_file(&bad), Err(HeaderError::MalformedSizes));
}
