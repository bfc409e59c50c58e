use fzf::setup::{parse_u8, Setup};

fn args_of(args: &[&str]) -> Vec<String> {
    args.iter().map(|s| s.to_string()).collect()
}

#[test]
fn finds_flag() {
    let args = vec![
        "prog".into(),
        ".".into(),
        "-d".into(),
        "7".into(),
    ];

    assert_eq!(Setup::contains_flag_with_val(&args, "-d"), Some(7));
}

#[test]
fn properly_parse_flag_with_missing_val() {
    let args = vec![
        "prog".into(),
        ".".into(),
        "-d".into(),
    ];

    assert_eq!(Setup::contains_flag_with_val(&args, "-d"), None);
}

#[test]
fn flag_value_is_taken_behind_the_first_flag() {
    assert_eq!(Setup::contains_flag_with_val(&args_of(&["p", "-d", "3", "-d", "4"]), "-d"), Some(3));
    assert_eq!(Setup::contains_flag_with_val(&args_of(&["p", "-d", "-d", "4"]), "-d"), None);
    assert_eq!(Setup::contains_flag_with_val(&args_of(&["p", "-x", "4"]), "-d"), None);
    assert_eq!(Setup::contains_flag_with_val(&args_of(&["p", "-d", "x", "-d", "4"]), "-d"), None);
    assert_eq!(Setup::contains_flag_with_val(&args_of(&[]), "-d"), None);
    assert_eq!(Setup::contains_flag_with_val(&args_of(&["-d"]), "-d"), None);
    assert_eq!(Setup::contains_flag_with_val(&args_of(&["-d", "255"]), "-d"), Some(255));
    assert_eq!(Setup::contains_flag_with_val(&args_of(&["-d", "256"]), "-d"), None);
}

#[test]
fn flag_without_value_is_found_anywhere() {
    assert_eq!(Setup::contains_flag_without_val(&args_of(&["p", ".", "-v"]), "-v"), Some(()));
    assert_eq!(Setup::contains_flag_without_val(&args_of(&["-v"]), "-v"), Some(()));
    assert_eq!(Setup::contains_flag_without_val(&args_of(&["p", ".", "-vv"]), "-v"), None);
    assert_eq!(Setup::contains_flag_without_val(&args_of(&[]), "-v"), None);
}

#[test]
fn from_args_takes_root_and_depth() {
    let setup = Setup::from_args(&args_of(&["prog", "some/dir", "-d", "7"]));
    assert_eq!(setup.root_dir, "some/dir");
    assert_eq!(setup.deep, 7);
}

#[test]
fn from_args_defaults_to_greatest_depth() {
    let setup = Setup::from_args(&args_of(&["prog", "."]));
    assert_eq!(setup.root_dir, ".");
    assert_eq!(setup.deep, u8::MAX);
    let setup = Setup::from_args(&args_of(&["prog", ".", "-d"]));
    assert_eq!(setup.deep, u8::MAX);
    let setup = Setup::from_args(&args_of(&["prog", ".", "-d", "deep"]));
    assert_eq!(setup.deep, u8::MAX);
    let setup = Setup::from_args(&args_of(&["prog", ".", "-d", "300"]));
    assert_eq!(setup.deep, u8::MAX);
}

#[test]
fn from_args_reads_the_flag_even_in_place_of_the_root() {
    let setup = Setup::from_args(&args_of(&["prog", "-d", "2"]));
    assert_eq!(setup.root_dir, "-d");
    assert_eq!(setup.deep, 2);
}

#[test]
fn parses_numbers_up_to_255() {
    assert_eq!(parse_u8("0"), Some(0));
    assert_eq!(parse_u8("7"), Some(7));
    assert_eq!(parse_u8("+7"), Some(7));
    assert_eq!(parse_u8("007"), Some(7));
    assert_eq!(parse_u8("255"), Some(255));
    assert_eq!(parse_u8("+255"), Some(255));
    assert_eq!(parse_u8("0000000000000000000000255"), Some(255));
}

#[test]
fn rejects_what_is_no_number_up_to_255() {
    for text in ["", "+", "-", "-1", "-0", "256", "1000", "99999999999999999999", "7a", "a7",
        " 7", "7 ", "++7", "+-7", "7+", "1_0", "0x10", "٧", "1.0"] {
        assert_eq!(parse_u8(text), None);
    }
}

#[test]
fn parse_agrees_with_std() {
    let pieces = ["", "+", "-", "0", "1", "9", "25", "5", "6", "a", " ", "00"];
    for a in pieces {
        for b in pieces {
            for c in pieces {
                let text = format!("{}{}{}", a, b, c);
                assert_eq!(parse_u8(&text), text.parse::<u8>().ok());
            }
        }
    }
    for n in 0..1000u32 {
        let text = format!("{}", n);
        assert_eq!(parse_u8(&text), text.parse::<u8>().ok());
    }
}

#[test]
fn walk_descends_while_below_the_limit() {
    let setup = Setup { root_dir: ".".to_string(), deep: 3 };
    assert!(setup.descends(0));
    assert!(setup.descends(1));
    assert!(!setup.descends(2));
    assert!(!setup.descends(3));
    assert!(!setup.descends(255));
    let shallow = Setup { root_dir: ".".to_string(), deep: 0 };
    assert!(!shallow.descends(0));
    let deepest = Setup { root_dir: ".".to_string(), deep: 255 };
    assert!(deepest.descends(253));
    assert!(!deepest.descends(254));
    assert!(!deepest.descends(255));
}
