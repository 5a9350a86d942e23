use std::ops::Range;

use light_nix::ast::Source;
use light_nix::comments::{
    attach_comments, in_header_position, is_block, misplaced_block_comments, normalized,
    statement_spans, CommentMap,
};
use light_nix::lexer::Lexer;
use light_nix::syntax::parse_source;
use light_nix::text::decode_string;

fn parse(source: &str) -> (Source<'_>, Vec<Range<usize>>) {
    let mut lexer = Lexer::new(source);
    let mut errors = Vec::new();
    let ast = parse_source(&mut lexer, &mut errors);
    assert!(errors.is_empty(), "parse errors: {errors:#?}");
    (ast, lexer.comments.clone())
}

fn text_of<'a>(source: &'a str, ranges: &[Range<usize>]) -> Vec<&'a str> {
    ranges.iter().map(|range| &source[range.clone()]).collect()
}

#[test]
fn normalized_sorts_and_removes_repetitions() {
    let comments = vec![5..9, 1..3, 5..9, 1..2, 1..3];
    assert_eq!(normalized(&comments), vec![1..2, 1..3, 5..9]);
    assert!(normalized(&[]).is_empty());
}

#[test]
fn block_comments_and_header_position() {
    let text = "/* head */ let a = 1 // tail";
    assert!(is_block(text, &(0..10)));
    assert!(!is_block(text, &(21..28)));
    assert!(!is_block(text, &(0..1)));
    assert!(in_header_position(&[], &(5..9)));
    assert!(in_header_position(&[11..20], &(0..10)));
    assert!(!in_header_position(&[11..20], &(21..28)));
}

#[test]
fn comments_attach_to_header_leading_trailing_and_footer() {
    let source = "/* module header */\n// leads first\n\nlet first = 1 // trails first\nif first {\n    // interior\n    x = 1\n}\n// leads second\nlet second = 2\n// footer\n";
    let (ast, comments) = parse(source);
    let spans = statement_spans(&ast);
    assert_eq!(spans.len(), 3);

    let map = attach_comments(source, &ast, &comments);
    assert_eq!(text_of(source, &map.header), vec!["/* module header */"]);
    assert_eq!(text_of(source, &map.leading[0]), vec!["// leads first"]);
    assert_eq!(
        map.trailing[0].clone().map(|range| &source[range]),
        Some("// trails first")
    );
    assert!(map.leading[1].is_empty());
    assert_eq!(map.trailing[1], None);
    assert_eq!(text_of(source, &map.leading[2]), vec!["// leads second"]);
    assert_eq!(text_of(source, &map.footer), vec!["// footer"]);
    assert!(misplaced_block_comments(source, &ast, &comments).is_empty());
}

#[test]
fn block_comments_after_the_first_statement_are_misplaced() {
    let source = "let a = 1\n/* misplaced */\nlet b = 2\n";
    let (ast, comments) = parse(source);
    let misplaced = misplaced_block_comments(source, &ast, &comments);
    assert_eq!(text_of(source, &misplaced), vec!["/* misplaced */"]);
    let map = attach_comments(source, &ast, &comments);
    assert!(map.header.is_empty());
    assert!(map.leading.iter().all(|comments| comments.is_empty()));
    assert!(map.footer.is_empty());
}

#[test]
fn a_module_without_statements_has_only_header_and_footer() {
    let source = "/* header */\n// footer\n";
    let (ast, comments) = parse(source);
    let map = attach_comments(source, &ast, &comments);
    assert_eq!(text_of(source, &map.header), vec!["/* header */"]);
    assert_eq!(text_of(source, &map.footer), vec!["// footer"]);
    assert!(map.leading.is_empty());
    assert!(map.trailing.is_empty());
    let empty = CommentMap::default();
    assert!(empty.header.is_empty() && empty.footer.is_empty());
}

#[test]
fn string_literals_decode_their_escapes() {
    assert_eq!(decode_string("\"plain\"").unwrap(), "plain");
    assert_eq!(decode_string("'single'").unwrap(), "single");
    assert_eq!(decode_string(r#""a\nb\tc\\d\"e""#).unwrap(), "a\nb\tc\\d\"e");
    assert_eq!(decode_string(r#""\q""#).unwrap(), "q");
    assert_eq!(decode_string("\"\"").unwrap(), "");
    assert_eq!(decode_string("'it\"s'").unwrap(), "it\"s");
}

#[test]
fn malformed_string_literals_are_rejected() {
    assert!(decode_string("").is_err());
    assert!(decode_string("plain").is_err());
    assert!(decode_string("\"unterminated").is_err());
    assert!(decode_string("\"closed\" after").is_err());
    assert!(decode_string("\"dangling\\").is_err());
    assert!(decode_string("\"mixed'").is_err());
}
