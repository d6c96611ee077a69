use tree::config::{parse_charset, parse_int, Args, Config};
use tree::display::Charset;

fn strings(words: &[&str]) -> Vec<String> {
    words.iter().map(|w| w.to_string()).collect()
}

#[test]
fn no_arguments_mean_the_current_directory() {
    let args = Args::from_args(&strings(&[])).unwrap();
    assert_eq!(args.paths, vec![".".to_string()]);
    assert_eq!(args.config.levels, None);
    assert!(!args.config.only_show_directories);
    assert!(!args.config.print_hidden);
    assert_eq!(args.config.charset, Charset::Fancy);
}

#[test]
fn new_args_hold_no_path_yet() {
    let args = Args::new();
    assert!(args.paths.is_empty());
    assert_eq!(args.config.levels, None);
    assert_eq!(args.config.charset, Charset::Fancy);
}

#[test]
fn new_config_is_the_default() {
    let config = Config::new();
    assert_eq!(config.levels, None);
    assert!(!config.only_show_directories);
    assert!(!config.print_hidden);
    assert_eq!(config.charset, Charset::Fancy);
}

#[test]
fn paths_keep_their_order() {
    let args = Args::from_args(&strings(&["b", "a", "c/d"])).unwrap();
    assert_eq!(args.paths, strings(&["b", "a", "c/d"]));
}

#[test]
fn depth_is_read_after_its_flag() {
    let args = Args::from_args(&strings(&["-L", "3", "src"])).unwrap();
    assert_eq!(args.config.levels, Some(3));
    assert_eq!(args.paths, strings(&["src"]));
}

#[test]
fn malformed_depth_is_refused() {
    let result = Args::from_args(&strings(&["-L", "abc"]));
    assert_eq!(result.err(), Some("Couldn't parse string"));
}

#[test]
fn malformed_depth_is_refused_whatever_follows() {
    let result = Args::from_args(&strings(&["x", "-L", "1x", "-L", "2", "y"]));
    assert_eq!(result.err(), Some("Couldn't parse string"));
}

#[test]
fn negative_depth_is_refused() {
    assert!(Args::from_args(&strings(&["-L", "-1"])).is_err());
}

#[test]
fn a_flag_in_place_of_a_depth_is_refused() {
    assert!(Args::from_args(&strings(&["-L", "-d"])).is_err());
}

#[test]
fn repeated_depth_flag_still_waits_for_a_depth() {
    let args = Args::from_args(&strings(&["-L", "-L", "2"])).unwrap();
    assert_eq!(args.config.levels, Some(2));
    assert_eq!(args.paths, strings(&["."]));
}

#[test]
fn depth_flag_without_a_value_changes_nothing() {
    let args = Args::from_args(&strings(&["a", "-L"])).unwrap();
    assert_eq!(args.config.levels, None);
    assert_eq!(args.paths, strings(&["a"]));
}

#[test]
fn later_depth_replaces_earlier() {
    let args = Args::from_args(&strings(&["-L", "1", "-L", "4"])).unwrap();
    assert_eq!(args.config.levels, Some(4));
}

#[test]
fn flags_are_set() {
    let args = Args::from_args(&strings(&["-d", "-a"])).unwrap();
    assert!(args.config.only_show_directories);
    assert!(args.config.print_hidden);
    assert_eq!(args.paths, strings(&["."]));
}

#[test]
fn charset_ascii_is_selected() {
    let args = Args::from_args(&strings(&["--charset", "ascii"])).unwrap();
    assert_eq!(args.config.charset, Charset::Ascii);
    assert_eq!(args.paths, strings(&["."]));
}

#[test]
fn charset_fancy_is_selected() {
    let args = Args::from_args(&strings(&["--charset", "ascii", "--charset", "fancy"])).unwrap();
    assert_eq!(args.config.charset, Charset::Fancy);
}

#[test]
fn unknown_charset_falls_back_to_fancy() {
    let args = Args::from_args(&strings(&["--charset", "ascii", "--charset", "latin"])).unwrap();
    assert_eq!(args.config.charset, Charset::Fancy);
    assert_eq!(args.paths, strings(&["."]));
}

#[test]
fn charset_value_is_the_next_argument_that_is_no_flag() {
    let args = Args::from_args(&strings(&["--charset", "-d", "ascii", "x"])).unwrap();
    assert!(args.config.only_show_directories);
    assert_eq!(args.config.charset, Charset::Ascii);
    assert_eq!(args.paths, strings(&["x"]));
}

#[test]
fn depth_comes_before_a_pending_charset() {
    let args = Args::from_args(&strings(&["--charset", "-L", "7", "ascii"])).unwrap();
    assert_eq!(args.config.levels, Some(7));
    assert_eq!(args.config.charset, Charset::Ascii);
}

#[test]
fn parse_int_reads_decimal_numbers() {
    assert_eq!(parse_int("0"), Ok(0));
    assert_eq!(parse_int("7"), Ok(7));
    assert_eq!(parse_int("42"), Ok(42));
    assert_eq!(parse_int("1234567890"), Ok(1234567890));
}

#[test]
fn parse_int_takes_leading_zeros() {
    assert_eq!(parse_int("007"), Ok(7));
    assert_eq!(parse_int("00000000000000000000000000000000000000005"), Ok(5));
}

#[test]
fn parse_int_refuses_the_empty_string() {
    assert_eq!(parse_int(""), Err("Couldn't parse string"));
}

#[test]
fn an_empty_depth_is_refused() {
    let result = Args::from_args(&strings(&["-L", ""]));
    assert_eq!(result.err(), Some("Couldn't parse string"));
    let result = Args::from_args(&strings(&["a", "-L", "", "b"]));
    assert_eq!(result.err(), Some("Couldn't parse string"));
}

#[test]
fn depth_zero_is_a_depth() {
    let args = Args::from_args(&strings(&["-L", "0"])).unwrap();
    assert_eq!(args.config.levels, Some(0));
}

#[test]
fn parse_int_refuses_what_is_no_digit() {
    assert_eq!(parse_int("abc"), Err("Couldn't parse string"));
    assert_eq!(parse_int("12a"), Err("Couldn't parse string"));
    assert_eq!(parse_int("a12"), Err("Couldn't parse string"));
    assert_eq!(parse_int("-1"), Err("Couldn't parse string"));
    assert_eq!(parse_int("+1"), Err("Couldn't parse string"));
    assert_eq!(parse_int("1 "), Err("Couldn't parse string"));
    assert_eq!(parse_int("1.5"), Err("Couldn't parse string"));
    assert_eq!(parse_int("１２"), Err("Couldn't parse string"));
}

#[test]
fn parse_int_takes_the_greatest_number_that_fits() {
    assert_eq!(parse_int(&usize::MAX.to_string()), Ok(usize::MAX));
}

#[test]
fn parse_int_refuses_what_does_not_fit() {
    let mut digits = usize::MAX.to_string();
    let last = digits.pop().unwrap();
    digits.push(char::from_digit(last.to_digit(10).unwrap() + 1, 10).unwrap());
    assert_eq!(parse_int(&digits), Err("Couldn't parse string"));
    assert_eq!(parse_int("99999999999999999999999999999999"), Err("Couldn't parse string"));
    let mut shifted = usize::MAX.to_string();
    shifted.push('0');
    assert_eq!(parse_int(&shifted), Err("Couldn't parse string"));
}

#[test]
fn parse_charset_knows_two_names() {
    assert_eq!(parse_charset("ascii"), Charset::Ascii);
    assert_eq!(parse_charset("fancy"), Charset::Fancy);
    assert_eq!(parse_charset("ASCII"), Charset::Fancy);
    assert_eq!(parse_charset(""), Charset::Fancy);
    assert_eq!(parse_charset("ascii "), Charset::Fancy);
}
