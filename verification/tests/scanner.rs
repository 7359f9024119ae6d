use rubx::descriptor::MatchRecord;
use rubx::rux_debug::MessageErr;
use rubx::rux_texts::{
    raw_lines, text_file_find, text_file_find_any, text_file_founds, text_file_matches,
    text_find_any, text_lines_find_any,
};

fn texts(items: &[&str]) -> Vec<String> {
    items.iter().map(|item| String::from(*item)).collect()
}

fn record(path: &str, row: usize, col: usize, pos: usize, len: usize, line: &str) -> MatchRecord {
    MatchRecord {
        path: String::from(path),
        row,
        col,
        pos,
        len,
        line: String::from(line),
    }
}

#[test]
fn scan_finds_alpha_on_both_lines() {
    let lines = texts(&["alpha\n", "beta alpha\n"]);
    let records = text_file_matches("path", &lines, &texts(&["alpha"]));
    assert_eq!(
        records,
        vec![
            record("path", 1, 0, 0, 5, "alpha"),
            record("path", 2, 5, 11, 5, "beta alpha"),
        ]
    );
    let content = String::from("alpha\nbeta alpha\n");
    assert_eq!(raw_lines(&content), lines);
    let found = text_file_find_any("path", Ok(content), texts(&["alpha"]));
    assert_eq!(
        found,
        Ok(Some(texts(&["(path)[1,0,0,5]alpha", "(path)[2,5,11,5]beta alpha"])))
    );
    let first = text_file_founds("(path)[1,0,0,5]alpha");
    assert_eq!(first, vec!["path", "1", "0", "0", "5", "alpha"]);
}

#[test]
fn scan_counts_every_line_and_every_byte() {
    let lines = texts(&["no match here\r\n", "\n", "caf\u{e9} x\n", "  x marks x  \r\n", "x"]);
    let records = text_file_matches("f", &lines, &texts(&["x"]));
    assert_eq!(
        records,
        vec![
            record("f", 3, 6, 15 + 1 + 6, 1, "caf\u{e9} x"),
            record("f", 4, 2, 15 + 1 + 8 + 2, 1, "x marks x"),
            record("f", 5, 0, 15 + 1 + 8 + 15, 1, "x"),
        ]
    );
}

#[test]
fn scan_reports_the_leftmost_occurrence_only() {
    let lines = texts(&["abcabcabc\n", "xxabcxxabc\n"]);
    let records = text_file_matches("f", &lines, &texts(&["abc"]));
    assert_eq!(
        records,
        vec![record("f", 1, 0, 0, 3, "abcabcabc"), record("f", 2, 2, 12, 3, "xxabcxxabc")]
    );
}

#[test]
fn scan_tests_the_patterns_in_the_order_given() {
    let lines = texts(&["one two three\n", "three two\n"]);
    let records = text_file_matches("f", &lines, &texts(&["two", "zero", "three", "one", "two"]));
    assert_eq!(
        records,
        vec![
            record("f", 1, 4, 4, 3, "one two three"),
            record("f", 1, 8, 8, 5, "one two three"),
            record("f", 1, 0, 0, 3, "one two three"),
            record("f", 1, 4, 4, 3, "one two three"),
            record("f", 2, 6, 20, 3, "three two"),
            record("f", 2, 0, 14, 5, "three two"),
            record("f", 2, 6, 20, 3, "three two"),
        ]
    );
}

#[test]
fn scan_searches_the_raw_line_and_keeps_the_trimmed_one() {
    let lines = texts(&["\t  indented  \r\n"]);
    let records = text_file_matches("f", &lines, &texts(&["indented", "  \r", "\n"]));
    assert_eq!(
        records,
        vec![
            record("f", 1, 3, 3, 8, "indented"),
            record("f", 1, 11, 11, 3, "indented"),
            record("f", 1, 14, 14, 1, "indented"),
        ]
    );
}

#[test]
fn scan_matches_the_empty_pattern_at_the_start_of_every_line() {
    let lines = texts(&["ab\n", "\n", "c"]);
    let records = text_file_matches("f", &lines, &texts(&[""]));
    assert_eq!(
        records,
        vec![
            record("f", 1, 0, 0, 0, "ab"),
            record("f", 2, 0, 3, 0, ""),
            record("f", 3, 0, 4, 0, "c"),
        ]
    );
}

#[test]
fn scan_counts_multi_byte_characters_in_bytes() {
    let lines = texts(&["\u{e9}\u{e9} \u{20ac}uro\n", "\u{20ac}\n"]);
    let records = text_file_matches("f", &lines, &texts(&["\u{20ac}"]));
    assert_eq!(
        records,
        vec![
            record("f", 1, 5, 5, 3, "\u{e9}\u{e9} \u{20ac}uro"),
            record("f", 2, 0, 12, 3, "\u{20ac}"),
        ]
    );
}

#[test]
fn scan_without_a_match_gives_no_list() {
    let lines = texts(&["alpha\n", "beta\n"]);
    assert_eq!(text_file_matches("f", &lines, &texts(&["gamma"])), vec![]);
    assert_eq!(text_lines_find_any("f", &lines, &texts(&["gamma"])), None);
    assert_eq!(text_find_any("f", "alpha\nbeta\n", &texts(&["gamma"])), None);
    let content = String::from("alpha\nbeta\n");
    assert_eq!(text_file_find_any("f", Ok(content), texts(&["gamma", "delta"])), Ok(None));
    assert_eq!(text_file_find_any("f", Ok(String::new()), texts(&["gamma"])), Ok(None));
    assert_eq!(text_file_find_any("f", Ok(String::new()), texts(&[""])), Ok(None));
    assert_eq!(text_file_find_any("f", Ok(String::from("a")), vec![]), Ok(None));
}

#[test]
fn scan_of_an_unreadable_file_fails_with_its_error() {
    let failure = Box::new(MessageErr::new("No such file or directory"));
    let found = text_file_find_any("missing", Err(failure.clone()), texts(&["a"]));
    assert_eq!(found, Err(failure.clone()));
    let found = text_file_find("missing", Err(failure.clone()), String::from("a"));
    assert_eq!(found, Err(failure));
}

#[test]
fn scan_for_one_pattern_is_scan_for_a_list_of_one() {
    let content = String::from("alpha\nbeta alpha\n");
    let one = text_file_find("path", Ok(content.clone()), String::from("alpha"));
    let any = text_file_find_any("path", Ok(content), texts(&["alpha"]));
    assert_eq!(one, any);
    assert_eq!(
        one,
        Ok(Some(texts(&["(path)[1,0,0,5]alpha", "(path)[2,5,11,5]beta alpha"])))
    );
}

#[test]
fn raw_lines_keep_their_terminators() {
    assert_eq!(raw_lines(""), texts(&[]));
    assert_eq!(raw_lines("\n"), texts(&["\n"]));
    assert_eq!(raw_lines("a"), texts(&["a"]));
    assert_eq!(raw_lines("a\n"), texts(&["a\n"]));
    assert_eq!(raw_lines("a\nb"), texts(&["a\n", "b"]));
    assert_eq!(raw_lines("a\r\n\r\nb\r"), texts(&["a\r\n", "\r\n", "b\r"]));
    assert_eq!(raw_lines("\n\n\n"), texts(&["\n", "\n", "\n"]));
    assert_eq!(raw_lines("caf\u{e9}\n\u{20ac}"), texts(&["caf\u{e9}\n", "\u{20ac}"]));
    for content in ["", "x", "x\ny\n", "\r\n\r\n", "one\ntwo\r\nthree"] {
        assert_eq!(raw_lines(content).concat(), content);
    }
}

#[test]
fn scan_of_a_text_counts_offsets_from_the_start_of_the_file() {
    let content = "first line\r\nsecond line\nthird";
    let found = text_find_any("notes.txt", content, &texts(&["line", "ir"]));
    assert_eq!(
        found,
        Some(texts(&[
            "(notes.txt)[1,6,6,4]first line",
            "(notes.txt)[1,1,1,2]first line",
            "(notes.txt)[2,7,19,4]second line",
            "(notes.txt)[3,2,26,2]third",
        ]))
    );
    for descriptor in found.unwrap() {
        let fields = text_file_founds(&descriptor);
        let pos: usize = fields[3].parse().unwrap();
        let len: usize = fields[4].parse().unwrap();
        let pattern = if len == 4 { "line" } else { "ir" };
        assert_eq!(&content[pos..pos + len], pattern);
    }
}

fn plain_reading(path: &str, content: &str, patterns: &[String]) -> Option<Vec<String>> {
    let mut results: Option<Vec<String>> = None;
    let mut row = 1;
    let mut done = 0;
    for line in content.split_inclusive('\n') {
        for pattern in patterns {
            if let Some(col) = line.find(pattern.as_str()) {
                results.get_or_insert_with(Vec::new).push(format!(
                    "({})[{},{},{},{}]{}",
                    path,
                    row,
                    col,
                    done + col,
                    pattern.len(),
                    line.trim()
                ));
            }
        }
        done += line.len();
        row += 1;
    }
    results
}

#[test]
fn scan_agrees_with_a_plain_reading() {
    let contents = [
        "",
        "\n",
        "alpha\nbeta alpha\n",
        "no newline at the end",
        "\r\n\r\n  padded \t\r\nlast",
        "caf\u{e9} au lait\n\u{20ac}\u{20ac} and \u{e9}\n\u{a0}nbsp\u{a0}\n",
        "aaa\naaaa\naaaaa\n",
        "tabs\tand\tspaces \n\n\nx",
    ];
    let pattern_sets = [
        texts(&["alpha"]),
        texts(&["a", "aa", "aaa"]),
        texts(&["", "\n", "\r"]),
        texts(&["\u{e9}", "\u{20ac}", " "]),
        texts(&["zzz"]),
        texts(&[]),
        texts(&["last", "padded", "x", "\t"]),
    ];
    for content in contents {
        for patterns in &pattern_sets {
            assert_eq!(
                text_find_any("some/path.txt", content, patterns),
                plain_reading("some/path.txt", content, patterns)
            );
        }
    }
}
