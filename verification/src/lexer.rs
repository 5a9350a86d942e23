//! The tokenizer: maximal munch over an ordered rule table.
//!
//! At each position every rule is tried; the longest match wins, and among
//! equally long matches the earlier rule.  Keywords match literally; the
//! remaining rules are regular expressions.  When nothing matches, the next
//! character becomes an `UnexpectedCharacter` token.  Whitespace and
//! ordinary comments are skipped unless requested (skipped comments are
//! recorded).

use std::ops::Range;

use vstd::prelude::*;
use vstd::string::*;
use vstd::utf8::*;

use crate::pattern::{anchored, anchored_source, compile_pattern, find_match, leftmost_match_end, CompiledPattern};
use crate::text::{
    bytes_of, chars_between, lead_width, lemma_boundary_lift, lemma_first_scalar_boundary,
    lemma_suffix_valid, substring, char_at, byte_len, is_white_space, white_space,
};

verus! {

broadcast use {encode_utf8_valid_utf8, encode_utf8_decode_utf8, decode_utf8_encode_utf8};

#[derive(Debug, Clone, Copy, PartialEq, Eq, Structural, Hash)]
pub enum TokenKind {
    /// import
    Import,
    /// export
    Export,
    /// from
    From,
    /// as
    As,
    /// is
    Is,
    /// enum
    Enum,
    /// type
    Type,
    /// interface
    Interface,
    /// implements
    Implements,
    /// where
    Where,
    /// for
    For,
    /// this
    This,
    /// use
    Use,
    /// tunable
    Tunable,
    /// readonly
    Readonly,
    /// declare
    Declare,
    /// cost
    Cost,
    /// let
    Let,
    /// assert
    Assert,
    /// function
    Function,
    /// inline
    Inline,
    /// opaque
    Opaque,
    /// if
    If,
    /// else
    Else,
    /// return
    Return,
    /// throw
    Throw,
    /// match
    Match,
    /// some
    SomeKeyword,
    /// or
    Or,
    /// and
    And,
    /// true
    True,
    /// false
    False,
    /// null
    Null,
    /// ==
    DoubleEquals,
    /// !=
    NotEquals,
    /// <
    LessThan,
    /// >
    GreaterThan,
    /// <=
    LessThanOrEqual,
    /// >=
    GreaterThanOrEqual,
    /// +
    Plus,
    /// -
    Minus,
    /// *
    Asterisk,
    /// /
    Slash,
    /// .
    Dot,
    /// ->
    ThinArrow,
    /// =>
    FatArrow,
    /// ?.
    SafeDot,
    /// ?:
    Elvis,
    /// ::
    DoubleColon,
    /// :
    Colon,
    /// =
    Equal,
    /// ,
    Comma,
    /// ;
    Semicolon,
    /// (
    ParenthesisLeft,
    /// )
    ParenthesisRight,
    /// {
    BraceLeft,
    /// }
    BraceRight,
    /// [
    BracketLeft,
    /// ]
    BracketRight,
    /// |
    VerticalLine,
    /// ?
    Question,
    /// e.g. 42, 6.3, 5E+2
    NumericLiteral,
    /// e.g. literal
    Literal,
    /// e.g. "literal"
    StringLiteral,
    /// e.g. '\n'
    LineFeed,
    /// ' '
    Whitespace,
    /// // comment or /* comment */
    Comment,
    /// /// document
    Document,
    UnexpectedCharacter,
    NoToken,
}

/// One tokenizer rule: a literal keyword or a regular expression.
pub struct Rule {
    pub kind: TokenKind,
    pub regex: bool,
    pub text: &'static str,
}

/// The number of rules.
pub const RULE_COUNT: usize = 70;

/// The rule table, in priority order.
pub open spec fn rule_at(index: usize) -> Rule {
    match index {
        0 => Rule { kind: TokenKind::Import, regex: false, text: "import" },
        1 => Rule { kind: TokenKind::Export, regex: false, text: "export" },
        2 => Rule { kind: TokenKind::From, regex: false, text: "from" },
        3 => Rule { kind: TokenKind::As, regex: false, text: "as" },
        4 => Rule { kind: TokenKind::Is, regex: false, text: "is" },
        5 => Rule { kind: TokenKind::Enum, regex: false, text: "enum" },
        6 => Rule { kind: TokenKind::Type, regex: false, text: "type" },
        7 => Rule { kind: TokenKind::Interface, regex: false, text: "interface" },
        8 => Rule { kind: TokenKind::Implements, regex: false, text: "implements" },
        9 => Rule { kind: TokenKind::Where, regex: false, text: "where" },
        10 => Rule { kind: TokenKind::For, regex: false, text: "for" },
        11 => Rule { kind: TokenKind::This, regex: false, text: "this" },
        12 => Rule { kind: TokenKind::Use, regex: false, text: "use" },
        13 => Rule { kind: TokenKind::Tunable, regex: false, text: "tunable" },
        14 => Rule { kind: TokenKind::Readonly, regex: false, text: "readonly" },
        15 => Rule { kind: TokenKind::Declare, regex: false, text: "declare" },
        16 => Rule { kind: TokenKind::Cost, regex: false, text: "cost" },
        17 => Rule { kind: TokenKind::Let, regex: false, text: "let" },
        18 => Rule { kind: TokenKind::Assert, regex: false, text: "assert" },
        19 => Rule { kind: TokenKind::Function, regex: false, text: "function" },
        20 => Rule { kind: TokenKind::Inline, regex: false, text: "inline" },
        21 => Rule { kind: TokenKind::Opaque, regex: false, text: "opaque" },
        22 => Rule { kind: TokenKind::If, regex: false, text: "if" },
        23 => Rule { kind: TokenKind::Else, regex: false, text: "else" },
        24 => Rule { kind: TokenKind::Return, regex: false, text: "return" },
        25 => Rule { kind: TokenKind::Throw, regex: false, text: "throw" },
        26 => Rule { kind: TokenKind::Match, regex: false, text: "match" },
        27 => Rule { kind: TokenKind::SomeKeyword, regex: false, text: "some" },
        28 => Rule { kind: TokenKind::Or, regex: false, text: "or" },
        29 => Rule { kind: TokenKind::And, regex: false, text: "and" },
        30 => Rule { kind: TokenKind::True, regex: false, text: "true" },
        31 => Rule { kind: TokenKind::False, regex: false, text: "false" },
        32 => Rule { kind: TokenKind::Null, regex: false, text: "null" },
        33 => Rule { kind: TokenKind::DoubleEquals, regex: false, text: "==" },
        34 => Rule { kind: TokenKind::NotEquals, regex: false, text: "!=" },
        35 => Rule { kind: TokenKind::LessThanOrEqual, regex: false, text: "<=" },
        36 => Rule { kind: TokenKind::GreaterThanOrEqual, regex: false, text: ">=" },
        37 => Rule { kind: TokenKind::ThinArrow, regex: false, text: "->" },
        38 => Rule { kind: TokenKind::FatArrow, regex: false, text: "=>" },
        39 => Rule { kind: TokenKind::SafeDot, regex: false, text: "?." },
        40 => Rule { kind: TokenKind::Elvis, regex: false, text: "?:" },
        41 => Rule { kind: TokenKind::DoubleColon, regex: false, text: "::" },
        42 => Rule { kind: TokenKind::LessThan, regex: false, text: "<" },
        43 => Rule { kind: TokenKind::GreaterThan, regex: false, text: ">" },
        44 => Rule { kind: TokenKind::Plus, regex: false, text: "+" },
        45 => Rule { kind: TokenKind::Minus, regex: false, text: "-" },
        46 => Rule { kind: TokenKind::Asterisk, regex: false, text: "*" },
        47 => Rule { kind: TokenKind::Slash, regex: false, text: "/" },
        48 => Rule { kind: TokenKind::Dot, regex: false, text: "." },
        49 => Rule { kind: TokenKind::Colon, regex: false, text: ":" },
        50 => Rule { kind: TokenKind::Equal, regex: false, text: "=" },
        51 => Rule { kind: TokenKind::Comma, regex: false, text: "," },
        52 => Rule { kind: TokenKind::Semicolon, regex: false, text: ";" },
        53 => Rule { kind: TokenKind::VerticalLine, regex: false, text: "|" },
        54 => Rule { kind: TokenKind::Question, regex: false, text: "?" },
        55 => Rule { kind: TokenKind::ParenthesisLeft, regex: false, text: "(" },
        56 => Rule { kind: TokenKind::ParenthesisRight, regex: false, text: ")" },
        57 => Rule { kind: TokenKind::BraceLeft, regex: false, text: "{" },
        58 => Rule { kind: TokenKind::BraceRight, regex: false, text: "}" },
        59 => Rule { kind: TokenKind::BracketLeft, regex: false, text: "[" },
        60 => Rule { kind: TokenKind::BracketRight, regex: false, text: "]" },
        61 => Rule { kind: TokenKind::NumericLiteral, regex: true, text: r#"[\d_]+(?:\.[\d_]+)?(?:[eE][+-]?[\d_]+)?"# },
        62 => Rule { kind: TokenKind::Literal, regex: true, text: r#"\w+"# },
        63 => Rule { kind: TokenKind::StringLiteral, regex: true, text: r#""(?:[^"\\]|\\.)*""# },
        64 => Rule { kind: TokenKind::StringLiteral, regex: true, text: r#"'(?:[^'\\]|\\.)*'"# },
        65 => Rule { kind: TokenKind::Document, regex: true, text: r#"///[^\n\r]*(?:\r\n|\n|\r|$)"# },
        66 => Rule { kind: TokenKind::Comment, regex: true, text: r#"//[^\n\r]*"# },
        67 => Rule { kind: TokenKind::Comment, regex: true, text: r#"(?s:/\*.*?\*/)"# },
        68 => Rule { kind: TokenKind::LineFeed, regex: true, text: r#"\r\n|\n|\r"# },
        69 => Rule { kind: TokenKind::Whitespace, regex: true, text: r#"[ \u{3000}\t]+"# },
        _ => Rule { kind: TokenKind::NoToken, regex: false, text: "" },
    }
}

/// How a token of `kind` is spelled, for the kinds that have one fixed
/// spelling: keywords, operators and punctuation.
pub open spec fn spelling(kind: TokenKind) -> Option<Seq<char>> {
    match kind {
        TokenKind::Import => Some("import"@),
        TokenKind::Export => Some("export"@),
        TokenKind::From => Some("from"@),
        TokenKind::As => Some("as"@),
        TokenKind::Is => Some("is"@),
        TokenKind::Enum => Some("enum"@),
        TokenKind::Type => Some("type"@),
        TokenKind::Interface => Some("interface"@),
        TokenKind::Implements => Some("implements"@),
        TokenKind::Where => Some("where"@),
        TokenKind::For => Some("for"@),
        TokenKind::This => Some("this"@),
        TokenKind::Use => Some("use"@),
        TokenKind::Tunable => Some("tunable"@),
        TokenKind::Readonly => Some("readonly"@),
        TokenKind::Declare => Some("declare"@),
        TokenKind::Cost => Some("cost"@),
        TokenKind::Let => Some("let"@),
        TokenKind::Assert => Some("assert"@),
        TokenKind::Function => Some("function"@),
        TokenKind::Inline => Some("inline"@),
        TokenKind::Opaque => Some("opaque"@),
        TokenKind::If => Some("if"@),
        TokenKind::Else => Some("else"@),
        TokenKind::Return => Some("return"@),
        TokenKind::Throw => Some("throw"@),
        TokenKind::Match => Some("match"@),
        TokenKind::SomeKeyword => Some("some"@),
        TokenKind::Or => Some("or"@),
        TokenKind::And => Some("and"@),
        TokenKind::True => Some("true"@),
        TokenKind::False => Some("false"@),
        TokenKind::Null => Some("null"@),
        TokenKind::DoubleEquals => Some("=="@),
        TokenKind::NotEquals => Some("!="@),
        TokenKind::LessThanOrEqual => Some("<="@),
        TokenKind::GreaterThanOrEqual => Some(">="@),
        TokenKind::ThinArrow => Some("->"@),
        TokenKind::FatArrow => Some("=>"@),
        TokenKind::SafeDot => Some("?."@),
        TokenKind::Elvis => Some("?:"@),
        TokenKind::DoubleColon => Some("::"@),
        TokenKind::LessThan => Some("<"@),
        TokenKind::GreaterThan => Some(">"@),
        TokenKind::Plus => Some("+"@),
        TokenKind::Minus => Some("-"@),
        TokenKind::Asterisk => Some("*"@),
        TokenKind::Slash => Some("/"@),
        TokenKind::Dot => Some("."@),
        TokenKind::Colon => Some(":"@),
        TokenKind::Equal => Some("="@),
        TokenKind::Comma => Some(","@),
        TokenKind::Semicolon => Some(";"@),
        TokenKind::VerticalLine => Some("|"@),
        TokenKind::Question => Some("?"@),
        TokenKind::ParenthesisLeft => Some("("@),
        TokenKind::ParenthesisRight => Some(")"@),
        TokenKind::BraceLeft => Some("{"@),
        TokenKind::BraceRight => Some("}"@),
        TokenKind::BracketLeft => Some("["@),
        TokenKind::BracketRight => Some("]"@),
        _ => None,
    }
}

/// Every keyword rule recognises the spelling of the token kind it yields:
/// the rule for `!=` yields `NotEquals`, the one for `and` yields `And`,
/// and so on; a rule that yields a kind without a fixed spelling is a
/// regular expression.
pub proof fn lemma_keyword_rules_spell_their_kinds(index: usize)
    requires
        index < RULE_COUNT,
    ensures
        !rule_at(index).regex ==> spelling(rule_at(index).kind) == Some(rule_at(index).text@),
        spelling(rule_at(index).kind) is None ==> rule_at(index).regex,
{
}

/// No two keyword rules yield the same token kind, so distinct spellings
/// (`==` and `!=`, `<` and `<=`, ...) never lex to the same kind.
pub proof fn lemma_keyword_kinds_distinct(first: usize, second: usize)
    requires
        first < second < RULE_COUNT,
        !rule_at(first).regex,
        !rule_at(second).regex,
    ensures
        rule_at(first).kind != rule_at(second).kind,
{
}

fn rule(index: usize) -> (rule: Rule)
    requires
        index < RULE_COUNT,
    ensures
        rule == rule_at(index),
{
    match index {
        0 => Rule { kind: TokenKind::Import, regex: false, text: "import" },
        1 => Rule { kind: TokenKind::Export, regex: false, text: "export" },
        2 => Rule { kind: TokenKind::From, regex: false, text: "from" },
        3 => Rule { kind: TokenKind::As, regex: false, text: "as" },
        4 => Rule { kind: TokenKind::Is, regex: false, text: "is" },
        5 => Rule { kind: TokenKind::Enum, regex: false, text: "enum" },
        6 => Rule { kind: TokenKind::Type, regex: false, text: "type" },
        7 => Rule { kind: TokenKind::Interface, regex: false, text: "interface" },
        8 => Rule { kind: TokenKind::Implements, regex: false, text: "implements" },
        9 => Rule { kind: TokenKind::Where, regex: false, text: "where" },
        10 => Rule { kind: TokenKind::For, regex: false, text: "for" },
        11 => Rule { kind: TokenKind::This, regex: false, text: "this" },
        12 => Rule { kind: TokenKind::Use, regex: false, text: "use" },
        13 => Rule { kind: TokenKind::Tunable, regex: false, text: "tunable" },
        14 => Rule { kind: TokenKind::Readonly, regex: false, text: "readonly" },
        15 => Rule { kind: TokenKind::Declare, regex: false, text: "declare" },
        16 => Rule { kind: TokenKind::Cost, regex: false, text: "cost" },
        17 => Rule { kind: TokenKind::Let, regex: false, text: "let" },
        18 => Rule { kind: TokenKind::Assert, regex: false, text: "assert" },
        19 => Rule { kind: TokenKind::Function, regex: false, text: "function" },
        20 => Rule { kind: TokenKind::Inline, regex: false, text: "inline" },
        21 => Rule { kind: TokenKind::Opaque, regex: false, text: "opaque" },
        22 => Rule { kind: TokenKind::If, regex: false, text: "if" },
        23 => Rule { kind: TokenKind::Else, regex: false, text: "else" },
        24 => Rule { kind: TokenKind::Return, regex: false, text: "return" },
        25 => Rule { kind: TokenKind::Throw, regex: false, text: "throw" },
        26 => Rule { kind: TokenKind::Match, regex: false, text: "match" },
        27 => Rule { kind: TokenKind::SomeKeyword, regex: false, text: "some" },
        28 => Rule { kind: TokenKind::Or, regex: false, text: "or" },
        29 => Rule { kind: TokenKind::And, regex: false, text: "and" },
        30 => Rule { kind: TokenKind::True, regex: false, text: "true" },
        31 => Rule { kind: TokenKind::False, regex: false, text: "false" },
        32 => Rule { kind: TokenKind::Null, regex: false, text: "null" },
        33 => Rule { kind: TokenKind::DoubleEquals, regex: false, text: "==" },
        34 => Rule { kind: TokenKind::NotEquals, regex: false, text: "!=" },
        35 => Rule { kind: TokenKind::LessThanOrEqual, regex: false, text: "<=" },
        36 => Rule { kind: TokenKind::GreaterThanOrEqual, regex: false, text: ">=" },
        37 => Rule { kind: TokenKind::ThinArrow, regex: false, text: "->" },
        38 => Rule { kind: TokenKind::FatArrow, regex: false, text: "=>" },
        39 => Rule { kind: TokenKind::SafeDot, regex: false, text: "?." },
        40 => Rule { kind: TokenKind::Elvis, regex: false, text: "?:" },
        41 => Rule { kind: TokenKind::DoubleColon, regex: false, text: "::" },
        42 => Rule { kind: TokenKind::LessThan, regex: false, text: "<" },
        43 => Rule { kind: TokenKind::GreaterThan, regex: false, text: ">" },
        44 => Rule { kind: TokenKind::Plus, regex: false, text: "+" },
        45 => Rule { kind: TokenKind::Minus, regex: false, text: "-" },
        46 => Rule { kind: TokenKind::Asterisk, regex: false, text: "*" },
        47 => Rule { kind: TokenKind::Slash, regex: false, text: "/" },
        48 => Rule { kind: TokenKind::Dot, regex: false, text: "." },
        49 => Rule { kind: TokenKind::Colon, regex: false, text: ":" },
        50 => Rule { kind: TokenKind::Equal, regex: false, text: "=" },
        51 => Rule { kind: TokenKind::Comma, regex: false, text: "," },
        52 => Rule { kind: TokenKind::Semicolon, regex: false, text: ";" },
        53 => Rule { kind: TokenKind::VerticalLine, regex: false, text: "|" },
        54 => Rule { kind: TokenKind::Question, regex: false, text: "?" },
        55 => Rule { kind: TokenKind::ParenthesisLeft, regex: false, text: "(" },
        56 => Rule { kind: TokenKind::ParenthesisRight, regex: false, text: ")" },
        57 => Rule { kind: TokenKind::BraceLeft, regex: false, text: "{" },
        58 => Rule { kind: TokenKind::BraceRight, regex: false, text: "}" },
        59 => Rule { kind: TokenKind::BracketLeft, regex: false, text: "[" },
        60 => Rule { kind: TokenKind::BracketRight, regex: false, text: "]" },
        61 => Rule { kind: TokenKind::NumericLiteral, regex: true, text: r#"[\d_]+(?:\.[\d_]+)?(?:[eE][+-]?[\d_]+)?"# },
        62 => Rule { kind: TokenKind::Literal, regex: true, text: r#"\w+"# },
        63 => Rule { kind: TokenKind::StringLiteral, regex: true, text: r#""(?:[^"\\]|\\.)*""# },
        64 => Rule { kind: TokenKind::StringLiteral, regex: true, text: r#"'(?:[^'\\]|\\.)*'"# },
        65 => Rule { kind: TokenKind::Document, regex: true, text: r#"///[^\n\r]*(?:\r\n|\n|\r|$)"# },
        66 => Rule { kind: TokenKind::Comment, regex: true, text: r#"//[^\n\r]*"# },
        67 => Rule { kind: TokenKind::Comment, regex: true, text: r#"(?s:/\*.*?\*/)"# },
        68 => Rule { kind: TokenKind::LineFeed, regex: true, text: r#"\r\n|\n|\r"# },
        69 => Rule { kind: TokenKind::Whitespace, regex: true, text: r#"[ \u{3000}\t]+"# },
        _ => Rule { kind: TokenKind::NoToken, regex: false, text: "" },
    }
}

/* ---------------------------------------------------------------------------------------------
 * The regex rules are matched by the `regex` crate, compiled once per lexer.
 * ------------------------------------------------------------------------------------------ */

/// The index of the first regex rule; the regex rules come last.
pub const FIRST_REGEX_RULE: usize = 61;

/// The rules matched by a regular expression are exactly the last ones.
proof fn lemma_regex_rules(index: usize)
    requires
        index < RULE_COUNT,
    ensures
        rule_at(index).regex <==> FIRST_REGEX_RULE <= index,
{
}

/* ---------------------------------------------------------------------------------------------
 * The scanning model.
 * ------------------------------------------------------------------------------------------ */

/// The number of bytes rule `r` matches at offset `p`.
pub open spec fn rule_match_len(bytes: Seq<u8>, p: int, r: Rule) -> nat {
    let rest = bytes.subrange(p, bytes.len() as int);
    if r.regex {
        leftmost_match_end(anchored(r.text@), decode_utf8(rest))
    } else if bytes_of(r.text).is_prefix_of(rest) {
        bytes_of(r.text).len()
    } else {
        0
    }
}

/// The longest match among the first `n` rules (the earlier rule wins a tie),
/// with its kind; `(0, Whitespace)` when none matches.
pub open spec fn longest_rule(bytes: Seq<u8>, p: int, n: int) -> (nat, TokenKind)
    decreases n,
{
    if n <= 0 {
        (0, TokenKind::Whitespace)
    } else {
        let (best, kind) = longest_rule(bytes, p, n - 1);
        let length = rule_match_len(bytes, p, rule_at((n - 1) as usize));
        if length > best {
            (length, rule_at((n - 1) as usize).kind)
        } else {
            (best, kind)
        }
    }
}

/// The raw token at offset `p`: the longest rule match, or else the next
/// character as an unexpected character.
pub open spec fn scan_token(bytes: Seq<u8>, p: int) -> (TokenKind, nat) {
    let (best, kind) = longest_rule(bytes, p, RULE_COUNT as int);
    if best == 0 {
        (
            TokenKind::UnexpectedCharacter,
            length_of_first_scalar(bytes.subrange(p, bytes.len() as int)) as nat,
        )
    } else {
        (kind, best)
    }
}

/// The outcome of reading one token from an offset.
pub struct LexStep {
    /// The token read: its kind, start and end offsets.
    pub token: Option<(TokenKind, int, int)>,
    /// The offset after it.
    pub next: int,
    /// The spans of the comments skipped on the way.
    pub comments: Seq<(int, int)>,
}

/// Reads the next token from offset `p`, skipping whitespace and comments
/// as the flags say.
pub open spec fn lex_from(bytes: Seq<u8>, p: int, ignore_whitespace: bool, ignore_comment: bool) -> LexStep
    decreases bytes.len() - p,
{
    if p < 0 || p >= bytes.len() {
        LexStep { token: None, next: p, comments: Seq::empty() }
    } else {
        let (kind, length) = scan_token(bytes, p);
        if length == 0 || length > bytes.len() - p {
            LexStep { token: None, next: p, comments: Seq::empty() }
        } else if kind == TokenKind::Whitespace && ignore_whitespace {
            lex_from(bytes, p + length, ignore_whitespace, ignore_comment)
        } else if kind == TokenKind::Comment && ignore_comment {
            let rest = lex_from(bytes, p + length, ignore_whitespace, ignore_comment);
            LexStep {
                token: rest.token,
                next: rest.next,
                comments: seq![(p, p + length)] + rest.comments,
            }
        } else {
            LexStep { token: Some((kind, p, p + length)), next: p + length, comments: Seq::empty() }
        }
    }
}

/// Offset `q` advanced over white-space characters.
pub open spec fn skip_white_space(bytes: Seq<u8>, q: int) -> int
    decreases bytes.len() - q,
{
    if 0 <= q < bytes.len() {
        let rest = bytes.subrange(q, bytes.len() as int);
        let width = length_of_first_scalar(rest);
        if 1 <= width <= bytes.len() - q && is_white_space(decode_first_scalar(rest) as char) {
            skip_white_space(bytes, q + width)
        } else {
            q
        }
    } else {
        q
    }
}

/// A valid text that starts with a complete valid text ends it on a boundary.
proof fn lemma_prefix_boundary(a: Seq<u8>, b: Seq<u8>)
    requires
        valid_utf8(a),
        valid_utf8(b),
        a.is_prefix_of(b),
    ensures
        is_char_boundary(b, a.len() as int),
    decreases a.len(),
{
    if a.len() > 0 {
        assert(a[0] == b[0]);
        let l = length_of_first_scalar(a);
        assert(valid_first_scalar(b));
        assert(length_of_first_scalar(b) == l);
        let pa = pop_first_scalar(a);
        let pb = pop_first_scalar(b);
        assert(pa.is_prefix_of(pb)) by {
            assert forall|i: int| 0 <= i < pa.len() implies pa[i] == pb[i] by {
                assert(pa[i] == a[i + l]);
                assert(pb[i] == b[i + l]);
            }
        }
        lemma_prefix_boundary(pa, pb);
    }
}

proof fn lemma_scan_step(bytes: Seq<u8>, p: int)
    requires
        valid_utf8(bytes),
        0 <= p < bytes.len(),
        is_char_boundary(bytes, p),
    ensures
        ({
            let rest = bytes.subrange(p, bytes.len() as int);
            &&& valid_utf8(rest)
            &&& rest.len() > 0
            &&& 1 <= length_of_first_scalar(rest) <= rest.len()
            &&& is_char_boundary(bytes, p + length_of_first_scalar(rest))
        }),
{
    lemma_suffix_valid(bytes, p);
    let rest = bytes.subrange(p, bytes.len() as int);
    lemma_first_scalar_boundary(rest);
    lemma_boundary_lift(bytes, p, length_of_first_scalar(rest));
}

/* ---------------------------------------------------------------------------------------------
 * Tokens and the lexer.
 * ------------------------------------------------------------------------------------------ */

#[derive(Debug, PartialEq, Eq, Hash)]
pub struct Token<'input> {
    pub kind: TokenKind,
    pub text: &'input str,
    pub span: Range<usize>,
}

impl<'input> Token<'input> {
    pub fn duplicate(&self) -> (copy: Self)
        ensures
            copy == *self,
    {
        Token { kind: self.kind, text: self.text, span: Range { start: self.span.start, end: self.span.end } }
    }
}

impl<'input> Clone for Token<'input> {
    fn clone(&self) -> (copy: Self)
        ensures
            copy == *self,
    {
        self.duplicate()
    }
}

/// The kind of an optional token; `None` when there is none.
pub open spec fn kind_of(token: Option<Token<'_>>) -> TokenKind {
    match token {
        Some(t) => t.kind,
        None => TokenKind::NoToken,
    }
}

pub fn get_kind(token: &Option<Token<'_>>) -> (kind: TokenKind)
    ensures
        kind == kind_of(*token),
{
    match token {
        Some(t) => t.kind,
        None => TokenKind::NoToken,
    }
}

/// A token as read from `bytes`: its text is its span.
pub open spec fn token_is(token: Token<'_>, bytes: Seq<u8>, step: Option<(TokenKind, int, int)>) -> bool {
    match step {
        Some((kind, start, end)) => {
            &&& token.kind == kind
            &&& token.span.start == start
            &&& token.span.end == end
            &&& bytes_of(token.text) == bytes.subrange(start, end)
            &&& token.text@ == chars_between(bytes, start, end)
        },
        None => false,
    }
}

/// A token whose span lies in the text on character boundaries.
pub open spec fn token_in_text(token: Token<'_>, bytes: Seq<u8>) -> bool {
    &&& token.span.start <= token.span.end <= bytes.len()
    &&& is_char_boundary(bytes, token.span.start as int)
    &&& is_char_boundary(bytes, token.span.end as int)
}

pub struct Lexer<'input> {
    source: &'input str,
    current_byte_position: usize,
    current_token_cache: Option<Token<'input>>,
    pub comments: Vec<Range<usize>>,
    pub ignore_whitespace: bool,
    pub ignore_comment: bool,
    /// The compiled patterns of the regex rules, in rule order.
    patterns: Vec<CompiledPattern>,
}

/// A saved lexer position.
#[derive(Debug, Clone, Copy)]
pub struct Anchor {
    byte_position: usize,
}

impl Anchor {
    pub closed spec fn position(self) -> int {
        self.byte_position as int
    }
}

impl<'input> Lexer<'input> {
    pub closed spec fn source_bytes(&self) -> Seq<u8> {
        bytes_of(self.source)
    }

    pub closed spec fn source_text(&self) -> &'input str {
        self.source
    }

    pub closed spec fn position(&self) -> int {
        self.current_byte_position as int
    }

    /// Whether a token read ahead is held.
    pub closed spec fn lookahead(&self) -> bool {
        self.current_token_cache.is_some()
    }

    pub closed spec fn skips_whitespace(&self) -> bool {
        self.ignore_whitespace
    }

    pub closed spec fn skips_comments(&self) -> bool {
        self.ignore_comment
    }

    /// The comment spans recorded so far.
    pub closed spec fn recorded_comments(&self) -> Seq<Range<usize>> {
        self.comments@
    }

    /// The reading that starts at the current position.
    pub open spec fn step(&self) -> LexStep {
        lex_from(self.source_bytes(), self.position(), self.skips_whitespace(), self.skips_comments())
    }

    /// The kind of the token at the current position.
    pub open spec fn current_kind(&self) -> TokenKind {
        match self.step().token {
            Some((kind, _, _)) => kind,
            None => TokenKind::NoToken,
        }
    }

    /// An anchor valid for this lexer's text.
    pub open spec fn anchor_ok(&self, anchor: Anchor) -> bool {
        &&& 0 <= anchor.position() <= self.source_bytes().len()
        &&& is_char_boundary(self.source_bytes(), anchor.position())
    }

    pub closed spec fn wf(&self) -> bool {
        &&& self.patterns@.len() == RULE_COUNT - FIRST_REGEX_RULE
        &&& forall|k: int|
            0 <= k < self.patterns@.len() ==> (#[trigger] self.patterns@[k]).source() == anchored(
                rule_at((FIRST_REGEX_RULE + k) as usize).text@,
            )
        &&& self.current_byte_position <= bytes_of(self.source).len()
        &&& is_char_boundary(bytes_of(self.source), self.current_byte_position as int)
        &&& match self.current_token_cache {
            Some(t) => {
                &&& token_is(t, bytes_of(self.source), self.step().token)
                &&& t.span.end == self.step().next
                &&& t.span.end <= bytes_of(self.source).len()
                &&& is_char_boundary(bytes_of(self.source), t.span.end as int)
                &&& is_char_boundary(bytes_of(self.source), t.span.start as int)
            },
            None => true,
        }
    }

    pub fn new(source: &'input str) -> (lexer: Self)
        ensures
            lexer.wf(),
            lexer.source_text() == source,
            lexer.source_bytes() == bytes_of(source),
            lexer.position() == 0,
            !lexer.lookahead(),
            lexer.recorded_comments() == Seq::<Range<usize>>::empty(),
            lexer.skips_whitespace(),
            lexer.skips_comments(),
    {
        proof {
            is_char_boundary_start_end_of_seq(bytes_of(source));
        }
        let mut patterns: Vec<CompiledPattern> = Vec::new();
        let mut index = FIRST_REGEX_RULE;
        while index < RULE_COUNT
            invariant
                FIRST_REGEX_RULE <= index <= RULE_COUNT,
                patterns@.len() == index - FIRST_REGEX_RULE,
                forall|k: int|
                    0 <= k < patterns@.len() ==> (#[trigger] patterns@[k]).source() == anchored(
                        rule_at((FIRST_REGEX_RULE + k) as usize).text@,
                    ),
            decreases RULE_COUNT - index,
        {
            patterns.push(compile_pattern(anchored_source(rule(index).text)));
            index += 1;
        }
        Lexer {
            source,
            current_byte_position: 0,
            current_token_cache: None,
            comments: Vec::new(),
            ignore_whitespace: true,
            ignore_comment: true,
            patterns,
        }
    }

    /// The current byte offset.
    pub fn offset(&self) -> (offset: usize)
        ensures
            offset == self.position(),
    {
        self.current_byte_position
    }

    pub fn cast_anchor(&self) -> (anchor: Anchor)
        requires
            self.wf(),
        ensures
            anchor.position() == self.position(),
            self.anchor_ok(anchor),
    {
        Anchor { byte_position: self.current_byte_position }
    }

    pub fn back_to_anchor(&mut self, anchor: Anchor)
        requires
            old(self).wf(),
            old(self).anchor_ok(anchor),
        ensures
            final(self).wf(),
            final(self).position() == anchor.position(),
            final(self).source_text() == old(self).source_text(),
            final(self).source_bytes() == old(self).source_bytes(),
            !final(self).lookahead(),
            final(self).recorded_comments() == old(self).recorded_comments(),
            final(self).skips_whitespace() == old(self).skips_whitespace(),
            final(self).skips_comments() == old(self).skips_comments(),
    {
        self.current_byte_position = anchor.byte_position;
        self.current_token_cache = None;
    }

    pub fn enable_comment_token(self) -> (lexer: Self)
        requires
            self.wf(),
            !self.lookahead(),
        ensures
            lexer.wf(),
            lexer.source_text() == self.source_text(),
            lexer.source_bytes() == self.source_bytes(),
            lexer.position() == self.position(),
            !lexer.lookahead(),
            lexer.recorded_comments() == self.recorded_comments(),
            lexer.skips_whitespace() == self.skips_whitespace(),
            !lexer.skips_comments(),
    {
        let mut lexer = self;
        lexer.ignore_comment = false;
        lexer
    }

    /// The number of bytes `r` matches at `p`, and that this end is a boundary.
    fn match_rule(&self, p: usize, index: usize) -> (length: usize)
        requires
            self.wf(),
            index < RULE_COUNT,
            p < bytes_of(self.source).len(),
            is_char_boundary(bytes_of(self.source), p as int),
        ensures
            length as nat == rule_match_len(bytes_of(self.source), p as int, rule_at(index)),
            length <= bytes_of(self.source).len() - p,
            is_char_boundary(bytes_of(self.source), p + length),
    {
        let r = rule(index);
        let ghost bytes = bytes_of(self.source);
        let n = byte_len(self.source);
        proof {
            lemma_suffix_valid(bytes, p as int);
            is_char_boundary_start_end_of_seq(bytes);
        }
        if r.regex {
            let rest = substring(self.source, p, n);
            proof {
                lemma_regex_rules(index);
            }
            let length = find_match(&self.patterns[index - FIRST_REGEX_RULE], rest);
            proof {
                lemma_boundary_lift(bytes, p as int, length as int);
            }
            length
        } else {
            let keyword = r.text.as_bytes();
            let source = self.source.as_bytes();
            if keyword.len() > n - p {
                proof {
                    assert(!bytes_of(r.text).is_prefix_of(bytes.subrange(p as int, bytes.len() as int)));
                }
                return 0;
            }
            let mut i: usize = 0;
            while i < keyword.len()
                invariant
                    r == rule_at(index),
                    keyword@ == bytes_of(r.text),
                    source@ == bytes,
                    n == bytes.len(),
                    p < n,
                    !r.regex,
                    bytes == bytes_of(self.source),
                    is_char_boundary(bytes, p as int),
                    keyword@.len() <= n - p,
                    i <= keyword@.len(),
                    forall|k: int| 0 <= k < i ==> keyword@[k] == bytes[p + k],
                decreases keyword@.len() - i,
            {
                if keyword[i] != source[p + i] {
                    proof {
                        let rest = bytes.subrange(p as int, bytes.len() as int);
                        assert(rest[i as int] == bytes[p + i]);
                        if bytes_of(r.text).is_prefix_of(rest) {
                            assert(keyword@ == rest.subrange(0, keyword@.len() as int));
                            assert(rest.subrange(0, keyword@.len() as int)[i as int] == rest[i as int]);
                        }
                        assert(!bytes_of(r.text).is_prefix_of(rest));
                    }
                    return 0;
                }
                i = i + 1;
            }
            proof {
                let rest = bytes.subrange(p as int, bytes.len() as int);
                assert(bytes_of(r.text).is_prefix_of(rest)) by {
                    assert forall|k: int| 0 <= k < keyword@.len() implies keyword@[k] == rest[k] by {
                        assert(rest[k] == bytes[p + k]);
                    }
                    assert(keyword@ =~= rest.subrange(0, keyword@.len() as int));
                }
                lemma_prefix_boundary(bytes_of(r.text), rest);
                lemma_boundary_lift(bytes, p as int, keyword@.len() as int);
            }
            keyword.len()
        }
    }

    /// The raw token at `p`.
    fn scan(&self, p: usize) -> (result: (TokenKind, usize))
        requires
            self.wf(),
            p < bytes_of(self.source).len(),
            is_char_boundary(bytes_of(self.source), p as int),
        ensures
            result.0 == scan_token(bytes_of(self.source), p as int).0,
            result.1 as nat == scan_token(bytes_of(self.source), p as int).1,
            1 <= result.1 <= bytes_of(self.source).len() - p,
            is_char_boundary(bytes_of(self.source), p + result.1),
    {
        let ghost bytes = bytes_of(self.source);
        let mut best: usize = 0;
        let mut kind = TokenKind::Whitespace;
        let mut index: usize = 0;
        while index < RULE_COUNT
            invariant
                self.wf(),
                bytes == bytes_of(self.source),
                p < bytes.len(),
                is_char_boundary(bytes, p as int),
                index <= RULE_COUNT,
                longest_rule(bytes, p as int, index as int) == (best as nat, kind),
                best <= bytes.len() - p,
                is_char_boundary(bytes, p + best),
            decreases RULE_COUNT - index,
        {
            let r = rule(index);
            let length = self.match_rule(p, index);
            if length > best {
                best = length;
                kind = r.kind;
            }
            index = index + 1;
        }
        if best == 0 {
            let source = self.source.as_bytes();
            let width = lead_width(source[p]);
            proof {
                lemma_scan_step(bytes, p as int);
                let rest = bytes.subrange(p as int, bytes.len() as int);
                assert(rest[0] == bytes[p as int]);
            }
            (TokenKind::UnexpectedCharacter, width)
        } else {
            (kind, best)
        }
    }

    /// Reads the next token (the one read ahead, if any).
    pub fn next(&mut self) -> (token: Option<Token<'input>>)
        requires
            old(self).wf(),
        ensures
            final(self).wf(),
            final(self).source_text() == old(self).source_text(),
            final(self).source_bytes() == old(self).source_bytes(),
            final(self).skips_whitespace() == old(self).skips_whitespace(),
            final(self).skips_comments() == old(self).skips_comments(),
            !final(self).lookahead(),
            final(self).position() == old(self).step().next,
            match token {
                Some(t) => token_is(t, old(self).source_bytes(), old(self).step().token)
                    && t.span.end == final(self).position()
                    && token_in_text(t, old(self).source_bytes()),
                None => old(self).step().token.is_none(),
            },
            final(self).recorded_comments().len() >= old(self).recorded_comments().len(),
    {
        let ghost bytes = bytes_of(self.source);
        let ghost start = self.current_byte_position as int;
        if self.current_token_cache.is_some() {
            let token = self.current_token_cache.take();
            match token {
                Some(token) => {
                    self.current_byte_position = token.span.end;
                    proof {
                        lemma_lex_from_bounds(bytes, start, self.ignore_whitespace, self.ignore_comment);
                    }
                    return Some(token);
                },
                None => {
                    return None;
                },
            }
        }
        loop
            invariant
                bytes == bytes_of(self.source),
                bytes == old(self).source_bytes(),
                start == old(self).position(),
                self.current_token_cache.is_none(),
                self.current_byte_position <= bytes.len(),
                is_char_boundary(bytes, self.current_byte_position as int),
                start <= self.current_byte_position,
                lex_from(bytes, start, self.ignore_whitespace, self.ignore_comment).token == lex_from(
                    bytes,
                    self.current_byte_position as int,
                    self.ignore_whitespace,
                    self.ignore_comment,
                ).token,
                lex_from(bytes, start, self.ignore_whitespace, self.ignore_comment).next == lex_from(
                    bytes,
                    self.current_byte_position as int,
                    self.ignore_whitespace,
                    self.ignore_comment,
                ).next,
                self.comments@.len() >= old(self).recorded_comments().len(),
                self.source == old(self).source,
                self.ignore_whitespace == old(self).ignore_whitespace,
                self.ignore_comment == old(self).ignore_comment,
                self.patterns == old(self).patterns,
                old(self).wf(),
            decreases bytes.len() - self.current_byte_position,
        {
            let n = byte_len(self.source);
            if self.current_byte_position == n {
                assert(lex_from(bytes, n as int, self.ignore_whitespace, self.ignore_comment).next == n);
                return None;
            }
            let start_position = self.current_byte_position;
            let (kind, length) = self.scan(start_position);
            self.current_byte_position = start_position + length;
            if kind == TokenKind::Whitespace && self.ignore_whitespace {
                continue;
            }
            if kind == TokenKind::Comment && self.ignore_comment {
                self.comments.push(Range { start: start_position, end: self.current_byte_position });
                continue;
            }
            let end_position = self.current_byte_position;
            assert(lex_from(bytes, start_position as int, self.ignore_whitespace, self.ignore_comment).token
                == Some((kind, start_position as int, end_position as int)));
            assert(lex_from(bytes, start_position as int, self.ignore_whitespace, self.ignore_comment).next
                == end_position);
            let text = substring(self.source, start_position, end_position);
            return Some(Token { kind, text, span: Range { start: start_position, end: end_position } });
        }
    }

    /// The token at the current position, read ahead without moving.
    pub fn current(&mut self) -> (token: Option<Token<'input>>)
        requires
            old(self).wf(),
        ensures
            final(self).wf(),
            final(self).source_text() == old(self).source_text(),
            final(self).source_bytes() == old(self).source_bytes(),
            final(self).skips_whitespace() == old(self).skips_whitespace(),
            final(self).skips_comments() == old(self).skips_comments(),
            final(self).position() == old(self).position(),
            match token {
                Some(t) => token_is(t, old(self).source_bytes(), old(self).step().token)
                    && final(self).lookahead() && token_in_text(t, old(self).source_bytes()),
                None => old(self).step().token.is_none(),
            },
            kind_of(token) == old(self).current_kind(),
            final(self).recorded_comments().len() >= old(self).recorded_comments().len(),
    {
        let anchor = self.cast_anchor();
        let token = self.next();
        self.current_byte_position = anchor.byte_position;
        match token {
            Some(t) => {
                let copy = t.duplicate();
                self.current_token_cache = Some(t);
                Some(copy)
            },
            None => {
                self.current_token_cache = None;
                None
            },
        }
    }

    /// The kind of the token at the current position.
    pub fn peek_kind(&mut self) -> (kind: TokenKind)
        requires
            old(self).wf(),
        ensures
            final(self).wf(),
            final(self).source_text() == old(self).source_text(),
            final(self).source_bytes() == old(self).source_bytes(),
            final(self).skips_whitespace() == old(self).skips_whitespace(),
            final(self).skips_comments() == old(self).skips_comments(),
            final(self).position() == old(self).position(),
            kind == old(self).current_kind(),
            kind != TokenKind::NoToken ==> final(self).lookahead(),
            final(self).recorded_comments().len() >= old(self).recorded_comments().len(),
    {
        let token = self.current();
        get_kind(&token)
    }

    /// Skips line feeds.
    pub fn skip_line_feed(&mut self)
        requires
            old(self).wf(),
        ensures
            final(self).wf(),
            final(self).source_text() == old(self).source_text(),
            final(self).source_bytes() == old(self).source_bytes(),
            final(self).skips_whitespace() == old(self).skips_whitespace(),
            final(self).skips_comments() == old(self).skips_comments(),
            final(self).position() >= old(self).position(),
            final(self).current_kind() != TokenKind::LineFeed,
            final(self).recorded_comments().len() >= old(self).recorded_comments().len(),
    {
        loop
            invariant
                self.wf(),
                self.source == old(self).source,
                self.ignore_whitespace == old(self).ignore_whitespace,
                self.ignore_comment == old(self).ignore_comment,
                self.position() >= old(self).position(),
                self.comments@.len() >= old(self).recorded_comments().len(),
            decreases bytes_of(self.source).len() - self.position(),
        {
            if self.peek_kind() == TokenKind::LineFeed {
                proof {
                    lemma_lex_from_bounds(bytes_of(self.source), self.position(), self.ignore_whitespace, self.ignore_comment);
                }
                self.next();
            } else {
                return;
            }
        }
    }
}

/// A reading that yields a token moves strictly forward and stays in the text.
pub proof fn lemma_lex_from_bounds(bytes: Seq<u8>, p: int, ignore_whitespace: bool, ignore_comment: bool)
    ensures
        ({
            let step = lex_from(bytes, p, ignore_whitespace, ignore_comment);
            &&& step.next >= p
            &&& (0 <= p <= bytes.len() ==> step.next <= bytes.len())
            &&& match step.token {
                Some((kind, start, end)) => p <= start < end && end == step.next && end <= bytes.len(),
                None => true,
            }
        }),
    decreases bytes.len() - p,
{
    if 0 <= p < bytes.len() {
        let (kind, length) = scan_token(bytes, p);
        if length != 0 && length <= bytes.len() - p {
            lemma_lex_from_bounds(bytes, p + length, ignore_whitespace, ignore_comment);
        }
    }
}

impl Anchor {
    /// The span from this anchor (white space skipped) to the lexer's position.
    pub fn elapsed(&self, lexer: &Lexer) -> (span: Range<usize>)
        requires
            lexer.wf(),
            lexer.anchor_ok(*self),
        ensures
            span.start == skip_white_space(lexer.source_bytes(), self.position()),
            span.end == (if lexer.position() >= span.start {
                lexer.position()
            } else {
                span.start as int
            }),
            span.start <= span.end <= lexer.source_bytes().len(),
            span.start >= self.position(),
            span.end >= lexer.position(),
            is_char_boundary(lexer.source_bytes(), span.start as int),
            is_char_boundary(lexer.source_bytes(), span.end as int),
    {
        let ghost bytes = bytes_of(lexer.source);
        let n = byte_len(lexer.source);
        let source = lexer.source.as_bytes();
        let mut q = self.byte_position;
        while q < n
            invariant
                bytes == bytes_of(lexer.source),
                n == bytes.len(),
                source@ == bytes,
                self.byte_position <= q <= n,
                is_char_boundary(bytes, q as int),
                skip_white_space(bytes, self.byte_position as int) == skip_white_space(bytes, q as int),
            ensures
                self.byte_position <= q <= n,
                is_char_boundary(bytes, q as int),
                skip_white_space(bytes, self.byte_position as int) == q,
            decreases n - q,
        {
            proof {
                lemma_scan_step(bytes, q as int);
                let rest = bytes.subrange(q as int, bytes.len() as int);
                assert(rest[0] == bytes[q as int]);
            }
            let width = lead_width(source[q]);
            let c = char_at(lexer.source, q);
            if !white_space(c) {
                break;
            }
            q = q + width;
        }
        proof {
            is_char_boundary_start_end_of_seq(bytes);
        }
        let end = if lexer.current_byte_position >= q {
            lexer.current_byte_position
        } else {
            q
        };
        Range { start: q, end }
    }
}

} // verus!
