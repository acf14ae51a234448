use mincut::edge::{vertices_in_range, Edge};
use mincut::parse::{edge_from_chars, parse_graph, string_to_edge, GraphError, ParseError};
use mincut::scan::{chars_of, index_from_chars, is_whitespace, skip_spaces, token_end};
use mincut::vertices::number_of_vertices;

fn index_of(token: &str) -> Option<usize> {
    let chars: Vec<char> = token.chars().collect();
    index_from_chars(&chars)
}

#[test]
fn two_lines_give_two_edges_and_three_vertices() {
    let edges = parse_graph("0 1\n1 2").unwrap();
    assert_eq!(edges.len(), 2);
    assert_eq!(edges, vec![Edge { v1: 0, v2: 1 }, Edge { v1: 1, v2: 2 }]);
    assert_eq!(number_of_vertices(&edges), 3);
}

#[test]
fn three_tokens_are_too_many() {
    assert_eq!(string_to_edge("0 1 2"), Err(ParseError::TooManyParts));
    assert_eq!(
        parse_graph("0 1 2"),
        Err(GraphError { line: 1, kind: ParseError::TooManyParts })
    );
}

#[test]
fn edge_is_read_from_two_numbers() {
    assert_eq!(string_to_edge("3 4"), Ok(Edge { v1: 3, v2: 4 }));
    assert_eq!(string_to_edge("  12\t 7  "), Ok(Edge { v1: 12, v2: 7 }));
    assert_eq!(string_to_edge("5 5"), Ok(Edge { v1: 5, v2: 5 }));
    assert_eq!(string_to_edge("+3 004"), Ok(Edge { v1: 3, v2: 4 }));
    assert_eq!(string_to_edge("1\u{a0}2"), Ok(Edge { v1: 1, v2: 2 }));
    assert_eq!(string_to_edge("1\u{3000}2\r"), Ok(Edge { v1: 1, v2: 2 }));
}

#[test]
fn each_fault_of_a_line_is_told_apart() {
    assert_eq!(string_to_edge(""), Err(ParseError::MissingFirstVertex));
    assert_eq!(string_to_edge("   \t"), Err(ParseError::MissingFirstVertex));
    assert_eq!(string_to_edge("x 1"), Err(ParseError::InvalidFirstVertex));
    assert_eq!(string_to_edge("-1 1"), Err(ParseError::InvalidFirstVertex));
    assert_eq!(string_to_edge("7"), Err(ParseError::MissingSecondVertex));
    assert_eq!(string_to_edge(" 7 "), Err(ParseError::MissingSecondVertex));
    assert_eq!(string_to_edge("7 1.5"), Err(ParseError::InvalidSecondVertex));
    assert_eq!(string_to_edge("7 8 9"), Err(ParseError::TooManyParts));
    assert_eq!(string_to_edge("7 8 x y"), Err(ParseError::TooManyParts));
}

#[test]
fn earlier_faults_are_reported_first() {
    assert_eq!(string_to_edge("x"), Err(ParseError::InvalidFirstVertex));
    assert_eq!(string_to_edge("x y z"), Err(ParseError::InvalidFirstVertex));
    assert_eq!(string_to_edge("1 y z"), Err(ParseError::InvalidSecondVertex));
}

#[test]
fn vertex_numbers_are_decimal_and_fit_a_usize() {
    assert_eq!(index_of("0"), Some(0));
    assert_eq!(index_of("42"), Some(42));
    assert_eq!(index_of("+42"), Some(42));
    assert_eq!(index_of("00042"), Some(42));
    assert_eq!(index_of(""), None);
    assert_eq!(index_of("+"), None);
    assert_eq!(index_of("++1"), None);
    assert_eq!(index_of("-0"), None);
    assert_eq!(index_of("1_000"), None);
    assert_eq!(index_of("12a"), None);
    assert_eq!(index_of("\u{661}"), None);
    let max = usize::MAX.to_string();
    assert_eq!(index_of(&max), Some(usize::MAX));
    let mut over: Vec<char> = max.chars().collect();
    let last = over.len() - 1;
    over[last] = char::from_digit(over[last].to_digit(10).unwrap() + 1, 10).unwrap();
    assert_eq!(index_from_chars(&over), None);
    assert_eq!(index_of("99999999999999999999999999"), None);
}

#[test]
fn vertex_numbers_parse_as_std_does() {
    for token in ["0", "17", "+9", "+", "", "-3", "0x10", "18446744073709551615", "18446744073709551616", "١٢"] {
        assert_eq!(index_of(token), token.parse::<usize>().ok());
    }
}

#[test]
fn white_space_is_what_std_takes_for_it() {
    for code in 0..0x3100u32 {
        if let Some(c) = char::from_u32(code) {
            assert_eq!(is_whitespace(c), c.is_whitespace());
        }
    }
    assert!(!is_whitespace('\u{feff}'));
    assert!(!is_whitespace('\u{10ffff}'));
}

#[test]
fn tokens_are_found_between_white_space() {
    let line: Vec<char> = "  ab\t c\u{2003}".chars().collect();
    assert_eq!(skip_spaces(&line, 0), 2);
    assert_eq!(token_end(&line, 2), 4);
    assert_eq!(skip_spaces(&line, 4), 6);
    assert_eq!(token_end(&line, 6), 7);
    assert_eq!(skip_spaces(&line, 7), 8);
    assert_eq!(token_end(&line, 8), 8);
    assert_eq!(skip_spaces(&line, 3), 3);
    assert_eq!(token_end(&line, 0), 0);
}

#[test]
fn chars_of_keeps_every_character() {
    assert_eq!(chars_of("a\u{e9}\u{1f600} z"), vec!['a', '\u{e9}', '\u{1f600}', ' ', 'z']);
    assert_eq!(chars_of(""), Vec::<char>::new());
}

#[test]
fn edge_from_chars_reads_a_line() {
    let line: Vec<char> = "10 20".chars().collect();
    assert_eq!(edge_from_chars(&line), Ok(Edge { v1: 10, v2: 20 }));
}

#[test]
fn empty_text_is_the_empty_graph() {
    assert_eq!(parse_graph(""), Ok(vec![]));
}

#[test]
fn line_feed_at_the_end_adds_no_line() {
    let expected = vec![Edge { v1: 0, v2: 1 }, Edge { v1: 1, v2: 2 }];
    assert_eq!(parse_graph("0 1\n1 2\n"), Ok(expected.clone()));
    assert_eq!(parse_graph("0 1\r\n1 2\r\n"), Ok(expected.clone()));
    assert_eq!(parse_graph("0 1\n1 2\r"), Ok(expected));
}

#[test]
fn blank_line_is_a_missing_vertex() {
    assert_eq!(
        parse_graph("0 1\n\n1 2\n"),
        Err(GraphError { line: 2, kind: ParseError::MissingFirstVertex })
    );
    assert_eq!(
        parse_graph("\n"),
        Err(GraphError { line: 1, kind: ParseError::MissingFirstVertex })
    );
    assert_eq!(
        parse_graph("0 1\n1 2\n\n"),
        Err(GraphError { line: 3, kind: ParseError::MissingFirstVertex })
    );
}

#[test]
fn first_bad_line_is_reported() {
    assert_eq!(
        parse_graph("0 1\n2\n3 x\n"),
        Err(GraphError { line: 2, kind: ParseError::MissingSecondVertex })
    );
    assert_eq!(
        parse_graph("0 1\n2 3\n4 y"),
        Err(GraphError { line: 3, kind: ParseError::InvalidSecondVertex })
    );
}

#[test]
fn text_parses_as_the_lines_of_std_do() {
    for text in ["", "0 1", "0 1\n", "0 1\n\n", "0 1\r\n2 3", "5 6\n7 8\n9 10", "1 2\n3\n"] {
        let by_line: Result<Vec<Edge>, ParseError> = text.lines().map(string_to_edge).collect();
        assert_eq!(parse_graph(text).map_err(|e| e.kind), by_line);
    }
}

#[test]
fn vertices_are_the_distinct_endpoints() {
    assert_eq!(number_of_vertices(&[]), 0);
    assert_eq!(number_of_vertices(&[Edge { v1: 4, v2: 4 }]), 1);
    assert_eq!(number_of_vertices(&[Edge { v1: 0, v2: 1 }, Edge { v1: 1, v2: 0 }]), 2);
    assert_eq!(
        number_of_vertices(&[Edge { v1: 0, v2: 1 }, Edge { v1: 2, v2: 3 }, Edge { v1: 3, v2: 0 }]),
        4
    );
    assert_eq!(number_of_vertices(&[Edge { v1: 10, v2: 20 }, Edge { v1: 20, v2: 30 }]), 3);
}

#[test]
fn endpoints_are_checked_against_the_vertex_count() {
    let edges = [Edge { v1: 0, v2: 1 }, Edge { v1: 1, v2: 2 }];
    assert!(vertices_in_range(&edges, 3));
    assert!(vertices_in_range(&edges, 10));
    assert!(!vertices_in_range(&edges, 2));
    assert!(!vertices_in_range(&[Edge { v1: 2, v2: 0 }], 2));
    assert!(vertices_in_range(&[], 0));
    let sparse = [Edge { v1: 1, v2: 2 }, Edge { v1: 2, v2: 3 }];
    assert!(!vertices_in_range(&sparse, number_of_vertices(&sparse)));
}
