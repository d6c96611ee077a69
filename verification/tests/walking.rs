use tree::config::Config;
use tree::display::Charset;
use tree::path::PathInfo;
use tree::snapshot::{node_count, Node};
use tree::{run, Report};

fn name_of(text: &str) -> Option<String> {
    text.rsplit('/').next().filter(|n| !n.is_empty() && *n != "." && *n != "..").map(|n| n.to_string())
}

fn file(text: &str) -> Node {
    Node { path: PathInfo::new(text.to_string(), name_of(text), false), listing: None }
}

fn dir(text: &str, children: Vec<Node>) -> Node {
    Node { path: PathInfo::new(text.to_string(), name_of(text), true), listing: Some(children) }
}

fn locked(text: &str) -> Node {
    Node { path: PathInfo::new(text.to_string(), name_of(text), true), listing: None }
}

fn small() -> Vec<Node> {
    vec![dir(
        "A",
        vec![file("A/b.txt"), dir("A/C", vec![file("A/C/d.txt")]), file("A/.hidden")],
    )]
}

fn large() -> Vec<Node> {
    vec![dir(
        "r",
        vec![
            dir(
                "r/a",
                vec![
                    dir("r/a/x", vec![file("r/a/x/1"), file("r/a/x/2")]),
                    file("r/a/y"),
                    dir("r/a/.cache", vec![file("r/a/.cache/blob")]),
                ],
            ),
            dir("r/b", vec![dir("r/b/deep", vec![dir("r/b/deep/er", vec![file("r/b/deep/er/f")])])]),
            file("r/c"),
            dir("r/empty", vec![]),
        ],
    )]
}

fn lines(report: &Report) -> Vec<&str> {
    report.lines.iter().map(|l| l.as_str()).collect()
}

#[test]
fn small_tree_with_default_config() {
    let report = run(&small(), &Config::new());
    assert_eq!(lines(&report), vec!["A", "├───b.txt", "└───C", "    └───d.txt"]);
    let output = report.result.unwrap();
    assert_eq!(output.directories(), 2);
    assert_eq!(output.files(), 2);
    assert_eq!(output.starting_directories(), 1);
    assert_eq!(output.summary(), "1 directories, 2 files");
}

#[test]
fn small_tree_never_shows_the_hidden_file() {
    let report = run(&small(), &Config::new());
    assert!(report.lines.iter().all(|l| !l.contains(".hidden")));
}

#[test]
fn small_tree_sorts_upper_case_first() {
    let report = run(&small(), &Config::new());
    let c = report.lines.iter().position(|l| l.ends_with("C")).unwrap();
    let b = report.lines.iter().position(|l| l.ends_with("b.txt")).unwrap();
    assert!(b < c);
    assert!(report.lines[c].starts_with("└─"));
    assert_eq!(report.lines[c + 1], "    └───d.txt");
}

#[test]
fn small_tree_in_ascii() {
    let mut config = Config::new();
    config.charset = Charset::Ascii;
    let report = run(&small(), &config);
    assert_eq!(lines(&report), vec!["A", "+---b.txt", "\\---C", "    \\---d.txt"]);
}

#[test]
fn small_tree_with_hidden_entries() {
    let mut config = Config::new();
    config.print_hidden = true;
    let report = run(&small(), &config);
    assert_eq!(lines(&report), vec!["A", "├───b.txt", "├───C", "│   └───d.txt", "└───.hidden"]);
    assert_eq!(report.result.unwrap().summary(), "1 directories, 3 files");
}

#[test]
fn small_tree_with_directories_only() {
    let mut config = Config::new();
    config.only_show_directories = true;
    let report = run(&small(), &config);
    assert_eq!(lines(&report), vec!["A", "└───C"]);
    assert_eq!(report.result.unwrap().summary(), "1 directories, 0 files");
}

#[test]
fn large_tree_with_default_config() {
    let report = run(&large(), &Config::new());
    assert_eq!(
        lines(&report),
        vec![
            "r",
            "├───empty",
            "├───c",
            "├───b",
            "│   └───deep",
            "│   │   └───er",
            "│   │   │   └───f",
            "└───a",
            "    ├───y",
            "    └───x",
            "        ├───2",
            "        └───1",
        ]
    );
    let output = report.result.unwrap();
    assert_eq!(output.directories(), 7);
    assert_eq!(output.files(), 5);
    assert_eq!(output.summary(), "6 directories, 5 files");
}

#[test]
fn two_runs_put_out_the_same() {
    let mut config = Config::new();
    config.print_hidden = true;
    let first = run(&large(), &config);
    let second = run(&large(), &config);
    assert_eq!(first.lines, second.lines);
    let (a, b) = (first.result.unwrap(), second.result.unwrap());
    assert_eq!(a.files(), b.files());
    assert_eq!(a.directories(), b.directories());
    assert_eq!(a.summary(), b.summary());
}

#[test]
fn the_order_of_enumeration_does_not_matter() {
    let shuffled = vec![dir(
        "A",
        vec![file("A/.hidden"), dir("A/C", vec![file("A/C/d.txt")]), file("A/b.txt")],
    )];
    assert_eq!(run(&shuffled, &Config::new()).lines, run(&small(), &Config::new()).lines);
}

#[test]
fn no_entry_below_a_root_is_hidden_by_default() {
    let report = run(&large(), &Config::new());
    assert!(report.lines.iter().all(|l| !l.contains(".cache") && !l.contains("blob")));
}

#[test]
fn with_directories_only_every_line_is_a_directory() {
    let mut config = Config::new();
    config.only_show_directories = true;
    let report = run(&large(), &config);
    assert_eq!(
        lines(&report),
        vec!["r", "├───empty", "├───b", "│   └───deep", "│   │   └───er", "└───a", "    └───x"]
    );
    assert_eq!(report.result.unwrap().summary(), "6 directories, 0 files");
}

#[test]
fn a_directory_at_the_limit_is_shown_and_not_expanded() {
    let mut config = Config::new();
    config.levels = Some(2);
    let report = run(&large(), &config);
    assert_eq!(
        lines(&report),
        vec!["r", "├───empty", "├───c", "├───b", "│   └───deep", "└───a", "    ├───y", "    └───x"]
    );
    assert_eq!(report.result.unwrap().summary(), "5 directories, 2 files");
}

#[test]
fn limit_one_shows_the_children_of_the_roots() {
    let mut config = Config::new();
    config.levels = Some(1);
    let report = run(&large(), &config);
    assert_eq!(lines(&report), vec!["r", "├───empty", "├───c", "├───b", "└───a"]);
}

#[test]
fn limit_zero_shows_the_roots_alone() {
    let mut config = Config::new();
    config.levels = Some(0);
    let report = run(&large(), &config);
    assert_eq!(lines(&report), vec!["r"]);
    assert_eq!(report.result.unwrap().summary(), "0 directories, 0 files");
}

#[test]
fn roots_are_walked_in_the_order_given() {
    let roots = vec![dir("z", vec![file("z/1")]), file("m"), dir("a", vec![file("a/2"), file("a/1")])];
    let report = run(&roots, &Config::new());
    assert_eq!(lines(&report), vec!["z", "└───1", "m", "a", "├───2", "└───1"]);
    let output = report.result.unwrap();
    assert_eq!(output.directories(), 2);
    assert_eq!(output.files(), 4);
    assert_eq!(output.starting_directories(), 3);
}

#[test]
fn nothing_to_walk() {
    let report = run(&Vec::new(), &Config::new());
    assert!(report.lines.is_empty());
    assert_eq!(report.result.unwrap().summary(), "0 directories, 0 files");
}

#[test]
fn a_hidden_root_is_shown() {
    let roots = vec![dir(".config", vec![file(".config/a"), file(".config/.b")])];
    let report = run(&roots, &Config::new());
    assert_eq!(lines(&report), vec![".config", "└───a"]);
}

#[test]
fn a_root_without_a_final_component_is_shown_by_its_path() {
    let roots = vec![dir(".", vec![file("./a")]), dir("..", vec![])];
    let report = run(&roots, &Config::new());
    assert_eq!(lines(&report), vec![".", "└───a", ".."]);
}

#[test]
fn a_file_root_is_counted_as_a_file() {
    let report = run(&vec![file("notes.txt")], &Config::new());
    assert_eq!(lines(&report), vec!["notes.txt"]);
    let output = report.result.unwrap();
    assert_eq!(output.files(), 1);
    assert_eq!(output.directories(), 0);
}

#[test]
fn a_file_root_is_left_out_where_only_directories_are_shown() {
    let mut config = Config::new();
    config.only_show_directories = true;
    let report = run(&vec![file("notes.txt"), dir("d", vec![])], &config);
    assert_eq!(lines(&report), vec!["d"]);
    let output = report.result.unwrap();
    assert_eq!(output.files(), 1);
    assert_eq!(output.directories(), 1);
}

#[test]
fn the_listing_of_a_file_is_never_read() {
    let odd = Node {
        path: PathInfo::new("f".to_string(), Some("f".to_string()), false),
        listing: Some(vec![file("f/x")]),
    };
    let report = run(&vec![odd], &Config::new());
    assert_eq!(lines(&report), vec!["f"]);
}

#[test]
fn an_unreadable_directory_breaks_the_walk_off() {
    let roots = vec![dir("r", vec![file("r/z"), locked("r/m"), dir("r/a", vec![file("r/a/1")])]), file("after")];
    let report = run(&roots, &Config::new());
    assert_eq!(lines(&report), vec!["r", "├───z", "├───m"]);
    assert_eq!(report.result.unwrap_err().path, "r/m");
}

#[test]
fn an_unreadable_root_breaks_the_walk_off() {
    let report = run(&vec![locked("r"), file("after")], &Config::new());
    assert_eq!(lines(&report), vec!["r"]);
    assert_eq!(report.result.unwrap_err().path, "r");
}

#[test]
fn an_unreadable_directory_at_the_limit_is_not_enumerated() {
    let mut config = Config::new();
    config.levels = Some(1);
    let roots = vec![dir("r", vec![locked("r/m"), file("r/z")])];
    let report = run(&roots, &config);
    assert_eq!(lines(&report), vec!["r", "├───z", "└───m"]);
    assert_eq!(report.result.unwrap().summary(), "1 directories, 1 files");
}

#[test]
fn an_unreadable_hidden_directory_is_not_enumerated() {
    let roots = vec![dir("r", vec![locked("r/.secret"), file("r/z")])];
    let report = run(&roots, &Config::new());
    assert_eq!(lines(&report), vec!["r", "└───z"]);
    assert!(report.result.is_ok());
}

#[test]
fn verticals_are_drawn_below_a_child_that_is_not_last() {
    let roots = vec![dir(
        "r",
        vec![dir("r/a", vec![file("r/a/1")]), dir("r/b", vec![dir("r/b/c", vec![file("r/b/c/2")])])],
    )];
    let report = run(&roots, &Config::new());
    assert_eq!(
        lines(&report),
        vec!["r", "├───b", "│   └───c", "│   │   └───2", "└───a", "    └───1"]
    );
}

#[test]
fn a_deep_chain_stays_on_one_stack() {
    let mut node = file("leaf");
    for _ in 0..2000 {
        node = dir("d", vec![node]);
    }
    let report = run(&vec![node], &Config::new());
    assert_eq!(report.lines.len(), 2001);
    assert_eq!(report.lines[2000].chars().count(), 2000 * 4 + 4);
    let output = report.result.unwrap();
    assert_eq!(output.directories(), 2000);
    assert_eq!(output.files(), 1);
}

#[test]
fn a_name_that_is_no_text_does_not_break_the_walk() {
    let odd = Node { path: PathInfo::from_bytes(b"r/\xfe\xff", Some(b"\xfe\xff"), false), listing: None };
    let roots = vec![dir("r", vec![file("r/a"), odd])];
    let report = run(&roots, &Config::new());
    assert_eq!(lines(&report), vec!["r", "├───\u{fffd}\u{fffd}", "└───a"]);
    assert_eq!(report.result.unwrap().summary(), "0 directories, 2 files");
}

#[test]
fn nodes_are_counted_whether_shown_or_not() {
    assert_eq!(node_count(&small()), Some(5));
    assert_eq!(node_count(&large()), Some(14));
    assert_eq!(node_count(&Vec::new()), Some(0));
    assert_eq!(node_count(&vec![file("f"), locked("d")]), Some(2));
}

#[test]
fn a_file_root_gets_a_closing_line() {
    let report = run(&vec![file("notes.txt")], &Config::new());
    assert_eq!(report.result.unwrap().summary(), "0 directories, 1 files");
}

#[test]
fn names_that_read_alike_are_walked_in_the_order_of_their_bytes() {
    let low = Node { path: PathInfo::from_bytes(b"r/x\xfe", Some(b"x\xfe"), false), listing: None };
    let high = Node {
        path: PathInfo::from_bytes(b"r/x\xff", Some(b"x\xff"), true),
        listing: Some(vec![file("r/x/in")]),
    };
    let low_again = Node { path: low.path.clone(), listing: None };
    let high_again = Node { path: high.path.clone(), listing: Some(vec![file("r/x/in")]) };
    let one_way = run(&vec![dir("r", vec![low, high])], &Config::new());
    let other_way = run(&vec![dir("r", vec![high_again, low_again])], &Config::new());
    assert_eq!(lines(&one_way), vec!["r", "├───x\u{fffd}", "│   └───in", "└───x\u{fffd}"]);
    assert_eq!(one_way.lines, other_way.lines);
}
