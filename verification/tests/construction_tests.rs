use roadnet::analysis::{
    analyze_connected_components, analyze_degree_distribution, shortest_path_from_node,
};
use roadnet::construction::{
    characters, is_whitespace, parse_label, parse_line, read_dataset, DatasetError, Line,
};

fn chars(text: &str) -> Vec<char> {
    text.chars().collect()
}

#[test]
fn test_read_dataset_cycle_with_a_chord() {
    let graph = read_dataset("1 2\n2 3\n3 4\n4 5\n5 1\n3 5\n").unwrap();
    assert_eq!(graph.node_count(), 5);
    assert_eq!(graph.edge_count(), 6);
    assert_eq!(analyze_connected_components(&graph), 1);
    assert_eq!(analyze_degree_distribution(&graph), vec![(2, 3), (3, 2)]);
    let paths = shortest_path_from_node(&graph, 1, 3).unwrap();
    assert!(paths.contains(&(2, 1)));
    assert!(paths.contains(&(3, 2)));
}

#[test]
fn test_read_dataset_indices_follow_first_occurrence() {
    let graph = read_dataset("30 10\n10 20\n20 30\n").unwrap();
    assert_eq!(graph.node_count(), 3);
    assert_eq!(graph.label(0), Some(30));
    assert_eq!(graph.label(1), Some(10));
    assert_eq!(graph.label(2), Some(20));
    assert_eq!(graph.index_of(20), Some(2));
    assert_eq!(graph.neighbors(0), vec![1, 2]);
    assert_eq!(graph.neighbors(1), vec![2, 0]);
}

#[test]
fn test_read_dataset_node_count_is_distinct_label_count() {
    let graph = read_dataset("7 8\n8 7\n7 8\n7 7\n9 8\n9 8\n").unwrap();
    assert_eq!(graph.node_count(), 3);
    assert_eq!(graph.edge_count(), 6);
    assert_eq!(graph.degree(0), 4);
}

#[test]
fn test_read_dataset_skips_comments_and_empty_lines() {
    let text = "# Directed graph (each unordered pair of nodes is saved once)\n\n# FromNodeId\tToNodeId\n0\t1\n\n1\t2\n#3 4\n";
    let graph = read_dataset(text).unwrap();
    assert_eq!(graph.node_count(), 3);
    assert_eq!(graph.edge_count(), 2);
}

#[test]
fn test_read_dataset_line_endings() {
    let graph = read_dataset("1 2\r\n\r\n2 3\r\n3 4").unwrap();
    assert_eq!(graph.node_count(), 4);
    assert_eq!(graph.edge_count(), 3);
    let graph = read_dataset("1 2\n2 3\r").unwrap();
    assert_eq!(graph.edge_count(), 2);
}

#[test]
fn test_read_dataset_of_nothing() {
    let graph = read_dataset("").unwrap();
    assert_eq!(graph.node_count(), 0);
    assert_eq!(graph.edge_count(), 0);
    let graph = read_dataset("\n\n# nothing\n").unwrap();
    assert_eq!(graph.node_count(), 0);
}

#[test]
fn test_read_dataset_three_tokens_fail() {
    assert_eq!(read_dataset("1 2\n2 3 4\n4 5\n").err(), Some(DatasetError::Malformed { line: 2 }));
}

#[test]
fn test_read_dataset_one_token_fails() {
    assert_eq!(read_dataset("# c\n\n17\n").err(), Some(DatasetError::Malformed { line: 3 }));
}

#[test]
fn test_read_dataset_token_that_is_no_number_fails() {
    assert_eq!(read_dataset("1 two\n").err(), Some(DatasetError::Malformed { line: 1 }));
    assert_eq!(read_dataset("1 2\n3 -4\n").err(), Some(DatasetError::Malformed { line: 2 }));
    assert_eq!(read_dataset("1 2.0").err(), Some(DatasetError::Malformed { line: 1 }));
}

#[test]
fn test_read_dataset_label_out_of_range_fails() {
    assert!(read_dataset("0 4294967295\n").is_ok());
    assert_eq!(read_dataset("0 4294967296\n").err(), Some(DatasetError::Malformed { line: 1 }));
}

#[test]
fn test_read_dataset_blank_line_of_spaces_fails() {
    assert_eq!(read_dataset("1 2\n   \n").err(), Some(DatasetError::Malformed { line: 2 }));
}

#[test]
fn test_read_dataset_reports_the_first_failure() {
    assert_eq!(read_dataset("1 2\nx\n3 4 5\n").err(), Some(DatasetError::Malformed { line: 2 }));
}

#[test]
fn test_read_dataset_comment_mark_after_a_space_is_no_comment() {
    assert_eq!(read_dataset(" # 1 2\n").err(), Some(DatasetError::Malformed { line: 1 }));
}

#[test]
fn test_parse_line_kinds() {
    assert_eq!(parse_line(&chars("")), Line::Skipped);
    assert_eq!(parse_line(&chars("# 1 2")), Line::Skipped);
    assert_eq!(parse_line(&chars("#")), Line::Skipped);
    assert_eq!(parse_line(&chars("12 345")), Line::Edge(12, 345));
    assert_eq!(parse_line(&chars("  12\t \t345  ")), Line::Edge(12, 345));
    assert_eq!(parse_line(&chars("12\u{a0}345\u{3000}")), Line::Edge(12, 345));
    assert_eq!(parse_line(&chars("+7 007")), Line::Edge(7, 7));
    assert_eq!(parse_line(&chars("12")), Line::Malformed);
    assert_eq!(parse_line(&chars("12 ")), Line::Malformed);
    assert_eq!(parse_line(&chars("1 2 3")), Line::Malformed);
    assert_eq!(parse_line(&chars("1,2")), Line::Malformed);
    assert_eq!(parse_line(&chars("a b")), Line::Malformed);
    assert_eq!(parse_line(&chars(" ")), Line::Malformed);
}

#[test]
fn test_parse_label_values() {
    assert_eq!(parse_label(&chars("0")), Some(0));
    assert_eq!(parse_label(&chars("456")), Some(456));
    assert_eq!(parse_label(&chars("+456")), Some(456));
    assert_eq!(parse_label(&chars("0000000000000456")), Some(456));
    assert_eq!(parse_label(&chars("4294967295")), Some(4294967295));
    assert_eq!(parse_label(&chars("4294967296")), None);
    assert_eq!(parse_label(&chars("99999999999999999999999999")), None);
    assert_eq!(parse_label(&chars("")), None);
    assert_eq!(parse_label(&chars("+")), None);
    assert_eq!(parse_label(&chars("-1")), None);
    assert_eq!(parse_label(&chars("++1")), None);
    assert_eq!(parse_label(&chars("1+")), None);
    assert_eq!(parse_label(&chars("12a")), None);
    assert_eq!(parse_label(&chars("\u{661}")), None);
}

#[test]
fn test_parse_label_agrees_with_the_standard_parser() {
    for token in ["0", "7", "+7", "-7", "", "+", "042", "4294967295", "4294967296", "1e3", " 1"] {
        assert_eq!(parse_label(&chars(token)), token.parse::<u32>().ok());
    }
}

#[test]
fn test_whitespace_is_the_unicode_white_space() {
    let mut code: u32 = 0;
    while code <= 0x10FFFF {
        if let Some(c) = char::from_u32(code) {
            assert_eq!(is_whitespace(c), c.is_whitespace());
        }
        code += 1;
    }
}

#[test]
fn test_characters_of_a_text() {
    assert_eq!(characters("a\u{e9}\n1"), vec!['a', '\u{e9}', '\n', '1']);
    assert_eq!(characters(""), Vec::<char>::new());
}
