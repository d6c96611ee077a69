use tree::output::Output;
use tree::path::{path_le, slice_le, PathInfo};
use tree::utils::{is_hidden, same_text, to_decimal};

fn path(text: &str, name: Option<&str>) -> PathInfo {
    PathInfo::new(text.to_string(), name.map(|n| n.to_string()), false)
}

#[test]
fn new_output_has_counted_nothing() {
    let output = Output::new(3);
    assert_eq!(output.files(), 0);
    assert_eq!(output.directories(), 0);
    assert_eq!(output.starting_directories(), 3);
}

#[test]
fn counters_go_up_by_one() {
    let mut output = Output::new(1);
    output.increment_files();
    output.increment_files();
    output.increment_directories();
    assert_eq!(output.files(), 2);
    assert_eq!(output.directories(), 1);
    assert_eq!(output.starting_directories(), 1);
}

#[test]
fn summary_leaves_the_roots_out() {
    let mut output = Output::new(2);
    for _ in 0..5 {
        output.increment_directories();
    }
    for _ in 0..12 {
        output.increment_files();
    }
    assert_eq!(output.summary(), "3 directories, 12 files");
}

#[test]
fn summary_of_nothing() {
    assert_eq!(Output::new(0).summary(), "0 directories, 0 files");
}

#[test]
fn summary_of_a_lone_root() {
    let mut output = Output::new(1);
    output.increment_directories();
    assert_eq!(output.summary(), "0 directories, 0 files");
}

#[test]
fn decimal_of_small_and_large_numbers() {
    assert_eq!(to_decimal(0), "0");
    assert_eq!(to_decimal(7), "7");
    assert_eq!(to_decimal(9), "9");
    assert_eq!(to_decimal(10), "10");
    assert_eq!(to_decimal(101), "101");
    assert_eq!(to_decimal(1234567890), "1234567890");
    assert_eq!(to_decimal(usize::MAX), usize::MAX.to_string());
}

#[test]
fn names_with_a_leading_dot_are_hidden() {
    assert!(is_hidden(&path("a/.git", Some(".git"))));
    assert!(is_hidden(&path(".bashrc", Some(".bashrc"))));
    assert!(is_hidden(&path("a/.", Some("."))));
}

#[test]
fn other_names_are_not_hidden() {
    assert!(!is_hidden(&path("a/b", Some("b"))));
    assert!(!is_hidden(&path(".config/b", Some("b"))));
    assert!(!is_hidden(&path("a/b.txt", Some("b.txt"))));
    assert!(!is_hidden(&path("a/", Some(""))));
    assert!(!is_hidden(&path("a/…", Some("…"))));
}

#[test]
fn a_path_without_a_final_component_is_not_hidden() {
    assert!(!is_hidden(&path(".", None)));
    assert!(!is_hidden(&path("..", None)));
    assert!(!is_hidden(&path("/", None)));
}

#[test]
fn same_text_compares_whole_strings() {
    assert!(same_text("", ""));
    assert!(same_text("-L", "-L"));
    assert!(!same_text("-L", "-l"));
    assert!(!same_text("-L", "-L "));
    assert!(!same_text("", "a"));
    assert!(same_text("└─é", "└─é"));
    assert!(!same_text("└─é", "└─e"));
}

#[test]
fn shown_name_is_the_final_component_or_the_path() {
    assert_eq!(path("a/b", Some("b")).name(), "b");
    assert_eq!(path("..", None).name(), "..");
}

#[test]
fn path_clone_is_the_same_path() {
    let p = PathInfo::new("a/b".to_string(), Some("b".to_string()), true);
    let c = p.clone();
    assert_eq!(c.text, "a/b");
    assert_eq!(c.file_name, Some("b".to_string()));
    assert!(c.is_dir);
}

#[test]
fn bytes_are_ordered_by_the_first_that_differs() {
    assert!(slice_le(b"abc", b"abd"));
    assert!(!slice_le(b"abd", b"abc"));
    assert!(slice_le(b"abc", b"b"));
    assert!(!slice_le(b"b", b"abc"));
}

#[test]
fn a_prefix_comes_first() {
    assert!(slice_le(b"", b""));
    assert!(slice_le(b"", b"a"));
    assert!(!slice_le(b"a", b""));
    assert!(slice_le(b"ab", b"abc"));
    assert!(!slice_le(b"abc", b"ab"));
    assert!(slice_le(b"abc", b"abc"));
}

#[test]
fn upper_case_sorts_before_lower_case() {
    assert!(path_le(&path("A/C", Some("C")), &path("A/b.txt", Some("b.txt"))));
    assert!(!path_le(&path("A/b.txt", Some("b.txt")), &path("A/C", Some("C"))));
}

#[test]
fn paths_are_ordered_by_their_bytes_alone() {
    assert!(path_le(&path("a", Some("z")), &path("b", Some("a"))));
    assert!(path_le(&path("a", None), &path("a", Some("a"))));
    assert!(path_le(&path("a", Some("a")), &path("a", None)));
}

#[test]
fn byte_order_is_code_point_order() {
    assert!(path_le(&path("z", None), &path("é", None)));
    assert!(!path_le(&path("é", None), &path("z", None)));
    assert!(path_le(&path("é", None), &path("€", None)));
    assert!(path_le(&path("€", None), &path("😀", None)));
    assert!(!path_le(&path("😀", None), &path("\u{ffff}", None)));
}

#[test]
fn valid_bytes_are_read_as_their_text() {
    let p = PathInfo::from_bytes("dir/é€.txt".as_bytes(), Some("é€.txt".as_bytes()), false);
    assert_eq!(p.text, "dir/é€.txt");
    assert_eq!(p.file_name, Some("é€.txt".to_string()));
    assert!(!p.is_dir);
    assert_eq!(p.name(), "é€.txt");
}

#[test]
fn a_path_from_bytes_may_lack_a_final_component() {
    let p = PathInfo::from_bytes(b"..", None, true);
    assert_eq!(p.text, "..");
    assert_eq!(p.file_name, None);
    assert!(p.is_dir);
}

#[test]
fn invalid_bytes_get_a_placeholder() {
    let p = PathInfo::from_bytes(b"dir/a\xffb", Some(b"a\xffb"), false);
    assert_eq!(p.text, "dir/a\u{fffd}b");
    assert_eq!(p.name(), "a\u{fffd}b");
    assert!(!is_hidden(&p));
}

#[test]
fn a_name_of_invalid_bytes_alone_is_still_shown() {
    let p = PathInfo::from_bytes(b"\xc3", Some(b"\xc3"), false);
    assert_eq!(p.name(), "\u{fffd}");
    let hidden = PathInfo::from_bytes(b".\xc3", Some(b".\xc3"), false);
    assert!(is_hidden(&hidden));
}

#[test]
fn summary_of_a_root_that_is_a_file() {
    let mut output = Output::new(1);
    output.increment_files();
    assert_eq!(output.summary(), "0 directories, 1 files");
}

#[test]
fn summary_never_goes_below_no_directories() {
    let mut output = Output::new(3);
    output.increment_directories();
    output.increment_files();
    output.increment_files();
    assert_eq!(output.summary(), "0 directories, 2 files");
}

#[test]
fn a_path_from_text_keeps_the_bytes_of_the_text() {
    let p = PathInfo::new("dir/é".to_string(), Some("é".to_string()), false);
    assert_eq!(p.bytes, "dir/é".as_bytes().to_vec());
    assert_eq!(p.clone().bytes, "dir/é".as_bytes().to_vec());
}

#[test]
fn a_path_from_bytes_keeps_its_bytes() {
    let p = PathInfo::from_bytes(b"dir/a\xffb", Some(b"a\xffb"), false);
    assert_eq!(p.bytes, b"dir/a\xffb".to_vec());
    assert_eq!(p.text, "dir/a\u{fffd}b");
    assert_eq!(p.clone().bytes, b"dir/a\xffb".to_vec());
}

#[test]
fn paths_with_one_text_are_told_apart_by_their_bytes() {
    let low = PathInfo::from_bytes(b"d/a\xfe", Some(b"a\xfe"), false);
    let high = PathInfo::from_bytes(b"d/a\xff", Some(b"a\xff"), false);
    assert_eq!(low.text, high.text);
    assert!(path_le(&low, &high));
    assert!(!path_le(&high, &low));
    assert!(path_le(&low, &low));
}

#[test]
fn invalid_bytes_sort_by_their_value_and_not_by_the_placeholder() {
    let odd = PathInfo::from_bytes(b"d/\x80", Some(b"\x80"), false);
    let late = PathInfo::from_bytes("d/\u{fffd}".as_bytes(), Some("\u{fffd}".as_bytes()), false);
    assert_eq!(odd.text, late.text);
    assert!(path_le(&odd, &late));
    assert!(!path_le(&late, &odd));
}
