use rubx::rux_debug::MessageErr;
use rubx::rux_texts::{
    contains, del, del_regex, del_removed, del_rex, ends_with, find, find_bigger_line,
    find_smaller_line, is_ascii, is_brackets, is_empty, is_equally, is_equals, is_likely,
    is_linebreak, is_linespace, is_quotation, is_truthy, is_truthy_word, is_whitespace, len,
    read_setup, rfind, same_bytes, split, split_spaces, starts_with, tocapital, tolower, toupper,
    trim,
};

fn texts(items: &[&str]) -> Vec<String> {
    items.iter().map(|item| String::from(*item)).collect()
}

#[test]
fn len_counts_bytes() {
    assert_eq!(len(""), 0);
    assert_eq!(len("hello"), 5);
    assert_eq!(len("h\u{e9}llo"), 6);
    assert_eq!(len("\u{20ac}"), 3);
}

#[test]
fn del_takes_characters_out() {
    assert_eq!(del("hello", 1, 3), "hlo");
    assert_eq!(del("hello", 0, 5), "");
    assert_eq!(del("hello", 0, 0), "hello");
    assert_eq!(del("hello", 2, 100), "he");
    assert_eq!(del("h\u{e9}llo", 0, 2), "llo");
    assert_eq!(del("", 0, 3), "");
}

#[test]
fn del_sets_its_bounds_right() {
    assert_eq!(del("hello", 10, 2), "hello");
    assert_eq!(del("hello", 3, 1), "hello");
    assert_eq!(del("hello", 9, 12), "hello");
    assert_eq!(del("\u{e9}\u{e9}", 3, 4), "\u{e9}\u{e9}");
    assert_eq!(del("\u{e9}\u{e9}x", 9, 1), "\u{e9}\u{e9}x");
    assert_eq!(del("\u{e9}\u{e9}x", 1, 9), "\u{e9}");
}

#[test]
fn trim_removes_white_space_at_both_ends() {
    assert_eq!(trim("  a b \r\n"), "a b");
    assert_eq!(trim("\u{a0}\u{2003}x\u{3000}"), "x");
    assert_eq!(trim(" \t "), "");
    assert_eq!(trim("x"), "x");
}

#[test]
fn emptiness_and_ascii() {
    assert!(is_empty(""));
    assert!(!is_empty(" "));
    assert!(is_ascii("plain text\n"));
    assert!(is_ascii(""));
    assert!(!is_ascii("caf\u{e9}"));
}

#[test]
fn equality_exact_and_without_case() {
    assert!(is_equals("abc", "abc"));
    assert!(is_equals("", ""));
    assert!(!is_equals("abc", "abd"));
    assert!(!is_equals("abc", "ab"));
    assert!(!is_equals("abc", "ABC"));
    assert!(same_bytes(&[1, 2, 3], &[1, 2, 3]));
    assert!(!same_bytes(&[1, 2, 3], &[1, 2, 4]));
    assert!(is_equally("ABC", "abc"));
    assert!(is_equally("\u{c9}t\u{e9}", "\u{e9}T\u{c9}"));
    assert!(!is_equally("abc", "abd"));
}

#[test]
fn likeness_sets_case_and_white_space_aside() {
    assert!(is_likely("Hello World", "hello   world and more"));
    assert!(is_likely("a b", "AB"));
    assert!(is_likely("", "anything"));
    assert!(is_likely("  \t", ""));
    assert!(is_likely("ab", " a\nb "));
    assert!(!is_likely("abc", "ab"));
    assert!(!is_likely("ab", "ac"));
    assert!(!is_likely("a", ""));
    assert!(!is_likely("ba", "ab"));
}

#[test]
fn white_space_only() {
    assert!(is_whitespace(""));
    assert!(is_whitespace(" \t\r\n\u{b}\u{c}\u{a0}\u{2028}"));
    assert!(!is_whitespace(" a "));
    assert!(!is_whitespace("\u{200b}"));
}

#[test]
fn the_character_set_predicates_hold_of_the_empty_text_alone() {
    assert!(is_linespace(""));
    assert!(!is_linespace(" "));
    assert!(!is_linespace("\t"));
    assert!(!is_linespace(" \t"));
    assert!(!is_linespace("a"));
    assert!(is_linebreak(""));
    assert!(!is_linebreak("\n"));
    assert!(!is_linebreak("\r\n"));
    assert!(is_brackets(""));
    assert!(!is_brackets("("));
    assert!(!is_brackets("()[]{}<>"));
    assert!(is_quotation(""));
    assert!(!is_quotation("'"));
    assert!(!is_quotation("\""));
}

#[test]
fn letter_case() {
    assert_eq!(tolower("Hello WORLD 123"), "hello world 123");
    assert_eq!(tolower("\u{c0}BC"), "\u{e0}bc");
    assert_eq!(toupper("Hello world 123"), "HELLO WORLD 123");
    assert_eq!(toupper("stra\u{df}e"), "STRASSE");
    assert_eq!(tocapital(""), "");
    assert_eq!(tocapital("a"), "A");
    assert_eq!(tocapital("hELLO wORLD"), "Hello world");
    assert_eq!(tocapital("a\u{c9}"), "A\u{e9}");
    assert_eq!(tocapital("1abC"), "1abc");
}

#[test]
fn finding_parts() {
    assert!(contains("hello", "ell"));
    assert!(contains("hello", ""));
    assert!(!contains("hello", "elo"));
    assert_eq!(find("hello", "l"), Some(2));
    assert_eq!(rfind("hello", "l"), Some(3));
    assert_eq!(find("h\u{e9}llo", "l"), Some(3));
    assert_eq!(rfind("h\u{e9}llo", "\u{e9}"), Some(1));
    assert_eq!(find("abc", ""), Some(0));
    assert_eq!(rfind("abc", ""), Some(3));
    assert_eq!(find("", ""), Some(0));
    assert_eq!(find("abc", "abcd"), None);
    assert_eq!(rfind("abc", "x"), None);
    assert_eq!(find("aaa", "aa"), Some(0));
    assert_eq!(rfind("aaa", "aa"), Some(1));
}

#[test]
fn finding_agrees_with_the_standard_library() {
    let hays = ["", "a", "abcabc", "aaaa", "h\u{e9}llo w\u{f6}rld", "\u{20ac}\u{20ac}x\u{20ac}", "a\nb\r\n"];
    let needles = ["", "a", "bc", "aa", "\u{e9}", "\u{20ac}", "x\u{20ac}", "\n", "zz", "abcabcabc"];
    for hay in hays {
        for needle in needles {
            assert_eq!(find(hay, needle), hay.find(needle));
            assert_eq!(rfind(hay, needle), hay.rfind(needle));
            assert_eq!(contains(hay, needle), hay.contains(needle));
            assert_eq!(starts_with(hay, needle), hay.starts_with(needle));
            assert_eq!(ends_with(hay, needle), hay.ends_with(needle));
            let pieces: Vec<String> = hay.split(needle).map(String::from).collect();
            assert_eq!(split(hay, needle), pieces);
        }
    }
}

#[test]
fn starts_and_ends() {
    assert!(starts_with("hello", "he"));
    assert!(starts_with("hello", ""));
    assert!(starts_with("hello", "hello"));
    assert!(!starts_with("hello", "hello!"));
    assert!(!starts_with("hello", "el"));
    assert!(ends_with("hello", "lo"));
    assert!(ends_with("hello", ""));
    assert!(!ends_with("hello", "hell"));
    assert!(!ends_with("lo", "hello"));
}

#[test]
fn splitting_at_a_pattern() {
    assert_eq!(split("a,b,,c", ","), texts(&["a", "b", "", "c"]));
    assert_eq!(split(",a,", ","), texts(&["", "a", ""]));
    assert_eq!(split("abc", ","), texts(&["abc"]));
    assert_eq!(split("", ","), texts(&[""]));
    assert_eq!(split("a--b----c", "--"), texts(&["a", "b", "", "c"]));
    assert_eq!(split("aaa", "aa"), texts(&["", "a"]));
}

#[test]
fn splitting_at_the_empty_pattern() {
    assert_eq!(split("abc", ""), texts(&["", "a", "b", "c", ""]));
    assert_eq!(split("", ""), texts(&["", ""]));
    assert_eq!(split("\u{e9}x", ""), texts(&["", "\u{e9}", "x", ""]));
}

#[test]
fn splitting_at_white_space() {
    assert_eq!(split_spaces("  a  b\tc\n"), texts(&["a", "b", "c"]));
    assert_eq!(split_spaces("one"), texts(&["one"]));
    assert_eq!(split_spaces(""), texts(&[]));
    assert_eq!(split_spaces(" \t\n"), texts(&[]));
    assert_eq!(split_spaces("a\u{a0}b\u{3000}c"), texts(&["a", "b", "c"]));
    for text in ["", " x", "x ", " a b  c ", "\ta\r\nb", "caf\u{e9} \u{20ac}"] {
        let words: Vec<String> = text.split_whitespace().map(String::from).collect();
        assert_eq!(split_spaces(text), words);
    }
}

#[test]
fn longest_and_shortest_line() {
    let on = texts(&["a", "bbb", "cc", "ddd", ""]);
    assert_eq!(find_bigger_line(&on), Some("bbb"));
    assert_eq!(find_smaller_line(&on), Some(""));
    let on = texts(&["bb", "a", "c", "dd"]);
    assert_eq!(find_bigger_line(&on), Some("bb"));
    assert_eq!(find_smaller_line(&on), Some("a"));
    let on = texts(&["\u{e9}", "ab", "c"]);
    assert_eq!(find_bigger_line(&on), Some("\u{e9}"));
    assert_eq!(find_smaller_line(&on), Some("c"));
    assert_eq!(find_bigger_line(&[]), None);
    assert_eq!(find_smaller_line(&[]), None);
}

#[test]
fn truthy_values() {
    for yes in ["true", "TRUE", "True", "t", "T", "yes", "Yes", "y", "Y", "on", "ON", "1"] {
        assert!(is_truthy(yes));
    }
    for no in ["", "false", "no", "off", "0", "truee", " true", "yes ", "2", "n"] {
        assert!(!is_truthy(no));
    }
    assert!(is_truthy_word("true"));
    assert!(is_truthy_word("on"));
    assert!(!is_truthy_word("TRUE"));
    assert!(!is_truthy_word(""));
}

#[test]
fn deleting_what_an_expression_matches() {
    assert_eq!(del_rex("a1b22c333", "[0-9]+"), Ok(String::from("abc")));
    assert_eq!(del_rex("hello world", "o"), Ok(String::from("hell wrld")));
    assert_eq!(del_rex("hello", "x"), Ok(String::from("hello")));
    assert_eq!(del_rex("hello", ""), Ok(String::from("hello")));
    assert_eq!(del_rex("price: $5", r"\$\d"), Ok(String::from("price: ")));
    let regex = regex::Regex::new(r"\s+").unwrap();
    assert_eq!(del_regex(" a b\tc\n", regex), "abc");
}

#[test]
fn an_expression_that_does_not_compile_is_an_error() {
    let failed = del_rex("hello", "(");
    assert!(failed.is_err());
    let expected = regex::Regex::new("(").unwrap_err().to_string();
    assert_eq!(failed, Err(Box::new(MessageErr::of(expected.clone()))));
    let failed = del_removed(Err(regex::Regex::new("(").unwrap_err()));
    assert_eq!(failed, Err(Box::new(MessageErr::of(expected))));
    let fine = del_removed(Ok(String::from("heo")));
    assert_eq!(fine, Ok(String::from("heo")));
    assert!(del_rex("hello", "a{2,1}").is_err());
    assert!(del_rex("hello", "[").is_err());
}

#[test]
fn reading_a_setup() {
    let lines = texts(&[
        "# a comment",
        "",
        "verbose = yes",
        "name=val=ue",
        "flag",
        "#hidden=1",
        " #shown = 2 ",
        "verbose=no",
        " spaced key =  v  ",
        "=nokey",
        "novalue=",
    ]);
    let setup = read_setup(Ok(lines));
    let expected: Vec<(String, String)> = vec![
        (String::from("verbose"), String::from("no")),
        (String::from("name"), String::from("val=ue")),
        (String::from("flag"), String::from("")),
        (String::from("#shown"), String::from("2")),
        (String::from("spaced key"), String::from("v")),
        (String::from(""), String::from("nokey")),
        (String::from("novalue"), String::from("")),
    ];
    assert_eq!(setup, Ok(expected));
    assert_eq!(read_setup(Ok(vec![])), Ok(vec![]));
}

#[test]
fn a_setup_that_cannot_be_read_is_an_error() {
    let failure = Box::new(MessageErr::new("permission denied"));
    assert_eq!(read_setup(Err(failure.clone())), Err(failure));
}

#[test]
fn answers() {
    assert_eq!(rubx::rux_texts::ask("  some answer \r\n"), "some answer");
    assert_eq!(rubx::rux_texts::ask("\n"), "");
    for yes in ["y\n", "Y\n", " yes \r\n", "YES", "t", "True\n", "1\n"] {
        assert!(rubx::rux_texts::ask_bool(yes));
    }
    for no in ["\n", "n\n", "no\n", "on\n", "0\n", "yes please\n", ""] {
        assert!(!rubx::rux_texts::ask_bool(no));
    }
    assert!(rubx::rux_texts::is_yes_word("yes"));
    assert!(!rubx::rux_texts::is_yes_word("on"));
    assert!(!rubx::rux_texts::is_yes_word("Yes"));
}

#[test]
fn trimming_agrees_with_the_standard_library() {
    let samples = [
        "",
        " ",
        "x",
        "  x  ",
        "\t\r\n x y \u{b}\u{c}",
        "\u{85}\u{a0}\u{1680}\u{2000}\u{200a}x\u{2028}\u{2029}\u{202f}\u{205f}\u{3000}",
        "\u{200b}x\u{200b}",
        "\u{1c}x\u{1f}",
        " caf\u{e9} ",
        "\n\n\n",
    ];
    for sample in samples {
        assert_eq!(trim(sample), sample.trim());
        assert_eq!(is_whitespace(sample), sample.chars().all(char::is_whitespace));
    }
}

#[test]
fn white_space_is_what_unicode_lists() {
    let listed = |c: char| {
        let code = c as u32;
        code == 0x20
            || (0x09..=0x0D).contains(&code)
            || code == 0x85
            || code == 0xA0
            || code == 0x1680
            || (0x2000..=0x200A).contains(&code)
            || code == 0x2028
            || code == 0x2029
            || code == 0x202F
            || code == 0x205F
            || code == 0x3000
    };
    for code in 0..=0x10FFFFu32 {
        if let Some(c) = char::from_u32(code) {
            assert_eq!(rubx::unicode::char_is_whitespace(c), listed(c));
            assert_eq!(c.is_whitespace(), listed(c));
        }
    }
}
