use lib::dimacs::{is_whitespace, parse_dimacs, parse_i32, parse_u32, split_tokens, try_parse_dimacs};

fn chars(s: &str) -> Vec<char> {
    s.chars().collect()
}

#[test]
fn parses_header_and_clauses() {
    let (nv, clauses) = parse_dimacs("p cnf 3 2\n1 -2 0\n2 3 -1 0\n");
    assert_eq!(nv, 3);
    assert_eq!(clauses, vec![vec![0, 3], vec![2, 4, 1]]);
}

#[test]
fn skips_comments_percent_lines_and_blank_lines() {
    let text = "c a comment\n  c indented comment\n\n%\n0\np cnf 2 1\n   \n-1 2 0\n";
    let (nv, clauses) = parse_dimacs(text);
    assert_eq!(nv, 2);
    assert_eq!(clauses, vec![vec![1, 2]]);
}

#[test]
fn clauses_may_span_lines_and_share_them() {
    let (nv, clauses) = parse_dimacs("p cnf 4 3\n1 2\n3 0 -4 0 4\n-1 0");
    assert_eq!(nv, 4);
    assert_eq!(clauses, vec![vec![0, 2, 4], vec![7], vec![6, 1]]);
}

#[test]
fn a_final_clause_without_terminator_is_kept() {
    let (_, clauses) = parse_dimacs("1 2");
    assert_eq!(clauses, vec![vec![0, 2]]);
}

#[test]
fn zero_on_an_empty_clause_is_ignored() {
    let (_, clauses) = parse_dimacs("0 0 1 0 0");
    assert_eq!(clauses, vec![vec![0]]);
}

#[test]
fn unreadable_words_are_passed_over() {
    let (_, clauses) = parse_dimacs("1 x -2 3.5 99999999999 +4 -0 5 0\n");
    assert_eq!(clauses, vec![vec![0, 3, 6], vec![8]]);
}

#[test]
fn header_needs_cnf_and_four_words() {
    assert_eq!(parse_dimacs("p cnf 7 1\n").0, 7);
    assert_eq!(parse_dimacs("p cnf 7\n").0, 0);
    assert_eq!(parse_dimacs("p dnf 7 1\n").0, 0);
    assert_eq!(parse_dimacs("p cnf x 1\n").0, 0);
    assert_eq!(parse_dimacs("p cnf 5 1\np cnf -3 1\n").0, 0);
    assert_eq!(parse_dimacs("p cnf 5 1\np cnf 6\n").0, 5);
    assert_eq!(parse_dimacs("p cnf +9 1 extra\n").0, 9);
    assert_eq!(parse_dimacs("p cnf 4294967296 1\n").0, 0);
    assert_eq!(parse_dimacs("p cnf 4294967295 1\n").0, 4294967295);
    assert_eq!(parse_dimacs("pcnf 3 1 1\n1 0").1, vec![vec![0]]);
}

#[test]
fn header_line_literals_are_not_read() {
    let (nv, clauses) = parse_dimacs("p cnf 2 1 1 2 0\n");
    assert_eq!(nv, 2);
    assert!(clauses.is_empty());
}

#[test]
fn windows_line_ends_and_tabs() {
    let (nv, clauses) = parse_dimacs("p cnf 2 2\r\n1\t-2 0\r\nc x\r\n2 0\r\n");
    assert_eq!(nv, 2);
    assert_eq!(clauses, vec![vec![0, 3], vec![2]]);
}

#[test]
fn unicode_whitespace_separates_words() {
    let (_, clauses) = parse_dimacs("1\u{3000}2\u{a0}0\n\u{2003}c comment\n3 0");
    assert_eq!(clauses, vec![vec![0, 2], vec![4]]);
}

#[test]
fn empty_text_has_no_clauses() {
    let (nv, clauses) = parse_dimacs("");
    assert_eq!(nv, 0);
    assert!(clauses.is_empty());
}

#[test]
fn the_most_negative_word_is_refused() {
    assert!(try_parse_dimacs("1 -2147483648 0\n").is_none());
    assert!(try_parse_dimacs("c -2147483648\n1 0\n").is_some());
    assert!(try_parse_dimacs("p cnf -2147483648 1\n").is_some());
    assert_eq!(try_parse_dimacs("1 -2147483647 0\n").unwrap().1, vec![vec![0, 4294967293]]);
}

#[test]
fn words_follow_str_parse() {
    assert_eq!(parse_i32(&chars("42")), Some(42));
    assert_eq!(parse_i32(&chars("-42")), Some(-42));
    assert_eq!(parse_i32(&chars("+42")), Some(42));
    assert_eq!(parse_i32(&chars("007")), Some(7));
    assert_eq!(parse_i32(&chars("-0")), Some(0));
    assert_eq!(parse_i32(&chars("2147483647")), Some(2147483647));
    assert_eq!(parse_i32(&chars("-2147483648")), Some(-2147483648));
    assert_eq!(parse_i32(&chars("2147483648")), None);
    assert_eq!(parse_i32(&chars("-2147483649")), None);
    assert_eq!(parse_i32(&chars("")), None);
    assert_eq!(parse_i32(&chars("-")), None);
    assert_eq!(parse_i32(&chars("+")), None);
    assert_eq!(parse_i32(&chars("--1")), None);
    assert_eq!(parse_i32(&chars("1a")), None);
    assert_eq!(parse_i32(&chars("\u{661}")), None);
    for w in ["0", "17", "-17", "+3", "99999999999999999999", "12x", "-", "1-"] {
        assert_eq!(parse_i32(&chars(w)), w.parse::<i32>().ok(), "word {}", w);
        assert_eq!(parse_u32(&chars(w)), w.parse::<u32>().ok(), "word {}", w);
    }
    assert_eq!(parse_u32(&chars("4294967295")), Some(4294967295));
    assert_eq!(parse_u32(&chars("4294967296")), None);
    assert_eq!(parse_u32(&chars("-1")), None);
    assert_eq!(parse_u32(&chars("-0")), None);
}

#[test]
fn splitting_matches_split_whitespace() {
    for line in ["", "   ", "a", " a  bb\tccc ", "x\u{2028}y\u{85}z", "1 -2 0\r"] {
        let got: Vec<String> = split_tokens(&chars(line)).iter().map(|t| t.iter().collect()).collect();
        let want: Vec<String> = line.split_whitespace().map(|t| t.to_string()).collect();
        assert_eq!(got, want, "line {:?}", line);
    }
}

#[test]
fn whitespace_matches_char_is_whitespace() {
    for u in 0u32..0x3100 {
        if let Some(c) = char::from_u32(u) {
            assert_eq!(is_whitespace(c), c.is_whitespace(), "char {:x}", u);
        }
    }
}

#[test]
fn a_comment_line_inside_a_clause_changes_nothing() {
    let with = parse_dimacs("p cnf 3 1\n1 -2\nc a remark\n3 0\n");
    let without = parse_dimacs("p cnf 3 1\n1 -2\n3 0\n");
    assert_eq!(with, without);
    assert_eq!(without.0, 3);
    assert_eq!(without.1.len(), 1);
    assert_eq!(without.1[0].len(), 3);
}
