use light_nix::lexer::{Lexer, Token, TokenKind};

fn tokens(source: &str) -> Vec<Token<'_>> {
    let mut lexer = Lexer::new(source);
    let mut tokens = Vec::new();
    while let Some(token) = lexer.next() {
        tokens.push(token);
    }
    tokens
}

fn kinds(source: &str) -> Vec<TokenKind> {
    tokens(source).into_iter().map(|token| token.kind).collect()
}

#[test]
fn lexer() {
    let source = "
import \"./common.lnix\"

enum Profile { Desktop, Laptop }

let tunable profile = Profile::Desktop;

use [shojiwm];

programs.shojiwm.enable = true;
programs.shojiwm.init_config.users = [ \"bea\" ];

if profile == Profile::Desktop {
    programs.firefox.enable = true;
}
            ";

    for token in tokens(source) {
        println!("{:?} : {:?}", token.kind, token.text);
    }
}

#[test]
fn inputs_and_host_are_regular_literals() {
    assert_eq!(kinds("inputs host"), [TokenKind::Literal, TokenKind::Literal]);
}

#[test]
fn tokenizes_optional_and_match_syntax() {
    assert_eq!(
        kinds("match value?.field ?: some(value) { null => value } T?"),
        [
            TokenKind::Match,
            TokenKind::Literal,
            TokenKind::SafeDot,
            TokenKind::Literal,
            TokenKind::Elvis,
            TokenKind::SomeKeyword,
            TokenKind::ParenthesisLeft,
            TokenKind::Literal,
            TokenKind::ParenthesisRight,
            TokenKind::BraceLeft,
            TokenKind::Null,
            TokenKind::FatArrow,
            TokenKind::Literal,
            TokenKind::BraceRight,
            TokenKind::Literal,
            TokenKind::Question,
        ]
    );
}

#[test]
fn tokenizes_explicit_import_and_export_syntax() {
    assert_eq!(
        kinds(r#"import { Programs as Config } from "./module.lnix" export declare let value"#),
        [
            TokenKind::Import,
            TokenKind::BraceLeft,
            TokenKind::Literal,
            TokenKind::As,
            TokenKind::Literal,
            TokenKind::BraceRight,
            TokenKind::From,
            TokenKind::StringLiteral,
            TokenKind::Export,
            TokenKind::Declare,
            TokenKind::Let,
            TokenKind::Literal,
        ]
    );
}

#[test]
fn tokenizes_throw_and_assert_syntax() {
    assert_eq!(
        kinds(r#"assert enabled, "must be enabled" throw "invalid""#),
        [
            TokenKind::Assert,
            TokenKind::Literal,
            TokenKind::Comma,
            TokenKind::StringLiteral,
            TokenKind::Throw,
            TokenKind::StringLiteral,
        ]
    );
}

#[test]
fn finite_numbers_are_numeric_but_inf_and_nan_are_literals() {
    assert_eq!(
        kinds("inf nan 1 1.5 5E+2"),
        [
            TokenKind::Literal,
            TokenKind::Literal,
            TokenKind::NumericLiteral,
            TokenKind::NumericLiteral,
            TokenKind::NumericLiteral,
        ]
    );
}

#[test]
fn tokens_carry_their_text_and_byte_span() {
    let source = "let é = 10";
    let tokens = tokens(source);
    assert_eq!(tokens.len(), 4);
    for token in &tokens {
        assert_eq!(&source[token.span.clone()], token.text);
    }
    assert_eq!(tokens[1].kind, TokenKind::Literal);
    assert_eq!(tokens[1].span, 4..6);
    assert_eq!(tokens[3].text, "10");
}

#[test]
fn comments_are_skipped_by_default() {
    assert_eq!(kinds("let a // trailing\nb"), [TokenKind::Let, TokenKind::Literal, TokenKind::LineFeed, TokenKind::Literal]);
}
