use bscc::git::{find_accumulated, Accumulated};
use bscc::git::{accumulate, parse_i64, split_lines, split_on_char, GitOptions};

#[test]
fn git_options_default_window() {
    assert_eq!(GitOptions::default().window_days, 90);
}

#[test]
fn lines_split_like_str_lines() {
    let v = split_lines("a\r\nb\n\nc");
    assert_eq!(v, vec!["a", "b", "", "c"]);
    assert_eq!(split_lines("x\n"), vec!["x"]);
    assert!(split_lines("").is_empty());
    assert_eq!(split_lines("tail\r"), vec!["tail\r"]);
}

#[test]
fn split_on_nul() {
    assert_eq!(split_on_char("h\0e\0t", '\0'), vec!["h", "e", "t"]);
    assert_eq!(split_on_char("", '\0'), vec![""]);
    assert_eq!(split_on_char("a\0", '\0'), vec!["a", ""]);
}

#[test]
fn parse_i64_follows_std() {
    for s in ["0", "42", "-7", "+9", "9223372036854775807", "-9223372036854775808"] {
        assert_eq!(parse_i64(s), s.parse::<i64>().ok(), "{s}");
    }
    for s in ["", "-", "+", "12a", " 1", "9223372036854775808", "-9223372036854775809", "99999999999999999999"] {
        assert_eq!(parse_i64(s), None, "{s}");
    }
}

#[test]
fn enriches_files_with_change_count() {
    let log = "h4\0b@x.org\0400\nhot.txt\n\nh3\0a@x.org\0300\nhot.txt\n\nh2\0a@x.org\0200\nhot.txt\n\nh1\0a@x.org\0100\nhot.txt\ncold.txt\n";
    let info = accumulate(log);
    let hot = info.iter().find(|(p, _)| p == "hot.txt").expect("hot.txt tracked");
    let cold = info.iter().find(|(p, _)| p == "cold.txt").expect("cold.txt tracked");
    assert_eq!(hot.1.changes_in_window, 4, "4 commits touched hot.txt");
    assert_eq!(cold.1.changes_in_window, 1, "1 commit touched cold.txt");
    assert_eq!(hot.1.authors_count, 2);
    assert_eq!(cold.1.authors_count, 1);
    assert_eq!(hot.1.last_modified, Some(400));
    assert_eq!(cold.1.last_modified, Some(100));
    assert_eq!(info.len(), 2);
}

#[test]
fn unparsable_time_counts_as_zero() {
    let info = accumulate("h\0a@x\0soon\nf.rs\nbad header\0only\ng.rs\n");
    let f = info.iter().find(|(p, _)| p == "f.rs").unwrap();
    assert_eq!(f.1.last_modified, None);
    assert_eq!(f.1.authors_count, 1);
    assert!(info.iter().all(|(p, _)| !p.contains('\0')));
    let g = info.iter().find(|(p, _)| p == "g.rs").unwrap();
    assert_eq!(g.1.changes_in_window, 1);
}

#[test]
fn change_counts_add_up_to_the_path_lines() {
    let log = "h2\0a@x\0200\nsrc/a.rs\nsrc/b.rs\n\nh1\0b@x\0100\nsrc/a.rs\n";
    let info = accumulate(log);
    let total: u32 = info.iter().map(|(_, a)| a.changes_in_window).sum();
    assert_eq!(total, 3);
    let a = info.iter().find(|(p, _)| p == "src/a.rs").unwrap();
    assert_eq!(a.1.changes_in_window, 2);
    assert_eq!(a.1.authors_count, 2);
    assert_eq!(a.1.last_modified, Some(200));
}

#[test]
fn find_accumulated_takes_the_first_entry_of_a_path() {
    let acc = |n: u32| Accumulated { changes_in_window: n, authors_count: 1, last_modified: None };
    let info = vec![
        ("src/a.rs".to_string(), acc(1)),
        ("src/b.rs".to_string(), acc(2)),
        ("src/b.rs".to_string(), acc(3)),
    ];
    assert_eq!(find_accumulated(&info, "src/b.rs"), Some(1));
    assert_eq!(find_accumulated(&info, "src/a.rs"), Some(0));
    assert_eq!(find_accumulated(&info, "src/c.rs"), None);
}
