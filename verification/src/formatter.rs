//! The canonical LightNix formatter: text in, text or edits out.
//!
//! - A source that does not parse is never touched: formatting reports the
//!   parse errors and produces no text and no edits.
//! - Statement interiors are reproduced verbatim (trimmed of surrounding
//!   white space); the formatter only owns statement order and the blank
//!   lines between groups.
//! - Statements are ordered by group; imports and uses are sorted by their
//!   text, claims by their target path; everything else keeps its order.

use std::ops::Range;

use vstd::prelude::*;
use vstd::string::StringExecFns;
use vstd::relations::{sorted_by, total_ordering};
use vstd::utf8::*;

use crate::ast::{AssignValue, Source, Statement, AST};
use crate::lexer::Lexer;
use crate::parse_error::{span_ok, ParseError};
use crate::parser::{separators_only, ParseErrors};
use crate::syntax::{parse_source, statement_clean, statements_ok};
use crate::text::{bytes_of, chars_between, chars_of, is_white_space, substring, white_space};

verus! {

broadcast use {encode_utf8_valid_utf8, encode_utf8_decode_utf8, decode_utf8_encode_utf8};

/// A replacement of one byte range of the input with new text.  Ranges of
/// distinct edits never overlap; apply them back to front (see
/// [`apply_edits`]).
#[derive(Debug, Clone, PartialEq, Eq)]
pub struct TextEdit {
    pub range: Range<usize>,
    pub text: String,
}

#[derive(Debug, Clone, PartialEq, Eq)]
#[non_exhaustive]
pub enum FormatError {
    /// The input does not parse; it is left untouched.
    Parse { messages: Vec<String> },
}

/// The statement groups of the canonical layout, in file order.  Groups are
/// separated by exactly one blank line.
#[derive(Debug, Clone, Copy, PartialEq, Eq, Structural)]
pub enum Group {
    /// `import` statements, sorted by their text.
    Imports,
    /// `use` declarations, sorted by their text.
    Uses,
    /// `enum` / `type` / `interface` / `implements`, in their order.
    Definitions,
    /// `let` / `function` / `assert`, in their order: a binding is
    /// declared before it is used.
    Bindings,
    /// Claims (`a.b = c`), sorted by target path, so claims about one
    /// subtree become adjacent.
    Claims,
    /// Top-level `if` / `match` / `return` / `throw`, in their order.
    ControlFlow,
}

/* ---------------------------------------------------------------------------------------------
 * Text of statements and keys.
 * ------------------------------------------------------------------------------------------ */

/// `s` without its leading white space.
pub open spec fn trim_start(s: Seq<char>) -> Seq<char>
    decreases s.len(),
{
    if s.len() > 0 && is_white_space(s[0]) {
        trim_start(s.drop_first())
    } else {
        s
    }
}

/// `s` without its trailing white space.
pub open spec fn trim_end(s: Seq<char>) -> Seq<char>
    decreases s.len(),
{
    if s.len() > 0 && is_white_space(s.last()) {
        trim_end(s.drop_last())
    } else {
        s
    }
}

pub open spec fn trimmed(s: Seq<char>) -> Seq<char> {
    trim_end(trim_start(s))
}

/// The characters of `s` that are not white space, in order.
pub open spec fn without_white_space(s: Seq<char>) -> Seq<char>
    decreases s.len(),
{
    if s.len() == 0 {
        s
    } else if is_white_space(s.last()) {
        without_white_space(s.drop_last())
    } else {
        without_white_space(s.drop_last()).push(s.last())
    }
}

/// The text of a statement as the formatter reproduces it.
pub open spec fn statement_text(bytes: Seq<u8>, statement: Statement<'_>) -> Seq<char> {
    trimmed(chars_between(bytes, statement.span_value().start as int, statement.span_value().end as int))
}

/// The sort key of a claim: its target path without white space, and `{`
/// after it when the value is a nested assignment, so that the block sorts
/// right after a plain claim on the same path.
pub open spec fn claim_key(bytes: Seq<u8>, target: Range<usize>, nested: bool) -> Seq<char> {
    without_white_space(chars_between(bytes, target.start as int, target.end as int)) + if nested {
        seq!['{']
    } else {
        Seq::<char>::empty()
    }
}

pub open spec fn statement_group(statement: Statement<'_>) -> Group {
    match statement {
        Statement::ImportStatement(_) => Group::Imports,
        Statement::UseDeclare(_) => Group::Uses,
        Statement::EnumDefine(_) => Group::Definitions,
        Statement::TypeDefine(_) => Group::Definitions,
        Statement::InterfaceDefine(_) => Group::Definitions,
        Statement::ImplementsDefine(_) => Group::Definitions,
        Statement::LetStatement(_) => Group::Bindings,
        Statement::FunctionDefine(_) => Group::Bindings,
        Statement::AssertStatement(_) => Group::Bindings,
        Statement::AssignStatement(_) => Group::Claims,
        Statement::Expression(_) => Group::ControlFlow,
    }
}

pub open spec fn group_rank(group: Group) -> int {
    match group {
        Group::Imports => 0,
        Group::Uses => 1,
        Group::Definitions => 2,
        Group::Bindings => 3,
        Group::Claims => 4,
        Group::ControlFlow => 5,
    }
}

/// The sort key of a statement: imports and uses by their text, claims by
/// their target, the others by none.
pub open spec fn statement_key(bytes: Seq<u8>, statement: Statement<'_>) -> Option<Seq<char>> {
    match statement {
        Statement::ImportStatement(_) => Some(statement_text(bytes, statement)),
        Statement::UseDeclare(_) => Some(statement_text(bytes, statement)),
        Statement::AssignStatement(node) => Some(
            claim_key(bytes, node.target.span_value(), node.value is Nested),
        ),
        _ => None,
    }
}

/* ---------------------------------------------------------------------------------------------
 * The order of the layout.
 * ------------------------------------------------------------------------------------------ */

/// Lexicographic order of character sequences by code point (the order of
/// `String`).
pub open spec fn chars_le(a: Seq<char>, b: Seq<char>) -> bool
    decreases a.len(),
{
    if a.len() == 0 {
        true
    } else if b.len() == 0 {
        false
    } else if a[0] != b[0] {
        a[0] < b[0]
    } else {
        chars_le(a.drop_first(), b.drop_first())
    }
}

/// The order of optional keys: no key first.
pub open spec fn key_le(a: Option<Seq<char>>, b: Option<Seq<char>>) -> bool {
    match (a, b) {
        (None, _) => true,
        (Some(_), None) => false,
        (Some(x), Some(y)) => chars_le(x, y),
    }
}

/// A statement's place in the sort: its group's rank, its key, and its
/// position in the source.
pub type SortEntry = (int, Option<Seq<char>>, int);

/// Group first, then key, then source position: the order of a stable sort
/// by (group, key).
pub open spec fn entry_le(a: SortEntry, b: SortEntry) -> bool {
    ||| a.0 < b.0
    ||| a.0 == b.0 && a.1 != b.1 && key_le(a.1, b.1)
    ||| a.0 == b.0 && a.1 == b.1 && a.2 <= b.2
}

pub open spec fn sort_entry(bytes: Seq<u8>, statements: Seq<Statement<'_>>, i: int) -> SortEntry {
    (group_rank(statement_group(statements[i])), statement_key(bytes, statements[i]), i)
}

pub open spec fn sort_entries(bytes: Seq<u8>, statements: Seq<Statement<'_>>) -> Seq<SortEntry> {
    Seq::new(statements.len(), |i: int| sort_entry(bytes, statements, i))
}

/// The statements in canonical order.
pub open spec fn canonical_order(bytes: Seq<u8>, statements: Seq<Statement<'_>>) -> Seq<SortEntry> {
    sort_entries(bytes, statements).sort_by(|a: SortEntry, b: SortEntry| entry_le(a, b))
}

/// The separator before a statement: a line feed within a group, a blank
/// line between groups.
pub open spec fn separator(previous: SortEntry, next: SortEntry) -> Seq<char> {
    if previous.0 == next.0 {
        seq!['\n']
    } else {
        seq!['\n', '\n']
    }
}

/// The statements of `order` joined by their separators.
pub open spec fn layout_body(bytes: Seq<u8>, statements: Seq<Statement<'_>>, order: Seq<SortEntry>) -> Seq<char>
    decreases order.len(),
{
    if order.len() == 0 {
        Seq::empty()
    } else if order.len() == 1 {
        statement_text(bytes, statements[order[0].2])
    } else {
        layout_body(bytes, statements, order.drop_last()) + separator(
            order[order.len() - 2],
            order.last(),
        ) + statement_text(bytes, statements[order.last().2])
    }
}

/// The canonical text of a parsed source: the statements in canonical order,
/// each ended by a line feed, groups separated by a blank line.
pub open spec fn canonical_text(bytes: Seq<u8>, statements: Seq<Statement<'_>>) -> Seq<char> {
    if statements.len() == 0 {
        Seq::empty()
    } else {
        layout_body(bytes, statements, canonical_order(bytes, statements)) + seq!['\n']
    }
}

proof fn lemma_chars_le_reflexive(a: Seq<char>)
    ensures
        chars_le(a, a),
    decreases a.len(),
{
    if a.len() > 0 {
        lemma_chars_le_reflexive(a.drop_first());
    }
}

proof fn lemma_chars_le_antisymmetric(a: Seq<char>, b: Seq<char>)
    requires
        chars_le(a, b),
        chars_le(b, a),
    ensures
        a == b,
    decreases a.len(),
{
    if a.len() > 0 && b.len() > 0 {
        if a[0] == b[0] {
            lemma_chars_le_antisymmetric(a.drop_first(), b.drop_first());
            assert(a =~= seq![a[0]] + a.drop_first());
            assert(b =~= seq![b[0]] + b.drop_first());
        }
    } else {
        assert(a =~= b);
    }
}

proof fn lemma_chars_le_transitive(a: Seq<char>, b: Seq<char>, c: Seq<char>)
    requires
        chars_le(a, b),
        chars_le(b, c),
    ensures
        chars_le(a, c),
    decreases a.len(),
{
    if a.len() > 0 && b.len() > 0 && c.len() > 0 {
        if a[0] == b[0] && b[0] == c[0] {
            lemma_chars_le_transitive(a.drop_first(), b.drop_first(), c.drop_first());
        }
    }
}

proof fn lemma_chars_le_total(a: Seq<char>, b: Seq<char>)
    ensures
        chars_le(a, b) || chars_le(b, a),
    decreases a.len(),
{
    if a.len() > 0 && b.len() > 0 {
        if a[0] == b[0] {
            lemma_chars_le_total(a.drop_first(), b.drop_first());
        }
    }
}

proof fn lemma_entry_le_reflexive(a: SortEntry)
    ensures
        entry_le(a, a),
{
    match a.1 {
        Some(x) => lemma_chars_le_reflexive(x),
        None => {},
    }
}

proof fn lemma_entry_le_antisymmetric(a: SortEntry, b: SortEntry)
    requires
        entry_le(a, b),
        entry_le(b, a),
    ensures
        a == b,
{
    if a.0 == b.0 && a.1 != b.1 {
        match (a.1, b.1) {
            (Some(x), Some(y)) => {
                lemma_chars_le_antisymmetric(x, y);
            },
            _ => {},
        }
    }
}

proof fn lemma_entry_le_transitive(a: SortEntry, b: SortEntry, c: SortEntry)
    requires
        entry_le(a, b),
        entry_le(b, c),
    ensures
        entry_le(a, c),
{
    if a.0 == b.0 && b.0 == c.0 && a.1 != b.1 && b.1 != c.1 {
        match (a.1, b.1, c.1) {
            (Some(x), Some(y), Some(z)) => {
                lemma_chars_le_transitive(x, y, z);
                if a.1 == c.1 {
                    lemma_chars_le_antisymmetric(x, y);
                }
            },
            _ => {},
        }
    }
}

proof fn lemma_entry_le_total(a: SortEntry, b: SortEntry)
    ensures
        entry_le(a, b) || entry_le(b, a),
{
    match (a.1, b.1) {
        (Some(x), Some(y)) => lemma_chars_le_total(x, y),
        _ => {},
    }
}

/// The canonical order is a total order.
pub proof fn lemma_entry_order_total()
    ensures
        total_ordering(|a: SortEntry, b: SortEntry| entry_le(a, b)),
{
    let leq = |a: SortEntry, b: SortEntry| entry_le(a, b);
    assert forall|a: SortEntry| #[trigger] leq(a, a) by {
        lemma_entry_le_reflexive(a);
    }
    assert forall|a: SortEntry, b: SortEntry| #[trigger] leq(a, b) && #[trigger] leq(b, a) implies a
        == b by {
        lemma_entry_le_antisymmetric(a, b);
    }
    assert forall|a: SortEntry, b: SortEntry, c: SortEntry| #[trigger] leq(a, b) && #[trigger] leq(
        b,
        c,
    ) implies leq(a, c) by {
        lemma_entry_le_transitive(a, b, c);
    }
    assert forall|a: SortEntry, b: SortEntry| #[trigger] leq(a, b) || #[trigger] leq(b, a) by {
        lemma_entry_le_total(a, b);
    }
    assert(vstd::relations::reflexive(leq));
    assert(vstd::relations::antisymmetric(leq));
    assert(vstd::relations::transitive(leq));
    assert(vstd::relations::strongly_connected(leq));
}

/// Two layouts that give, step by step, statements of the same text and
/// group rank are the same text.
proof fn lemma_layout_body_same(
    bytes: Seq<u8>,
    statements: Seq<Statement<'_>>,
    order: Seq<SortEntry>,
    other_bytes: Seq<u8>,
    other: Seq<Statement<'_>>,
    other_order: Seq<SortEntry>,
)
    requires
        order.len() == other_order.len(),
        forall|k: int|
            0 <= k < order.len() ==> (#[trigger] order[k]).0 == other_order[k].0 && statement_text(
                bytes,
                statements[order[k].2],
            ) == statement_text(other_bytes, other[other_order[k].2]),
    ensures
        layout_body(bytes, statements, order) == layout_body(other_bytes, other, other_order),
    decreases order.len(),
{
    if order.len() > 1 {
        let shorter = order.drop_last();
        let other_shorter = other_order.drop_last();
        assert forall|k: int| 0 <= k < shorter.len() implies (#[trigger] shorter[k]).0 == other_shorter[k].0
            && statement_text(bytes, statements[shorter[k].2]) == statement_text(
            other_bytes,
            other[other_shorter[k].2],
        ) by {
            assert(shorter[k] == order[k]);
            assert(other_shorter[k] == other_order[k]);
        }
        lemma_layout_body_same(bytes, statements, shorter, other_bytes, other, other_shorter);
        assert(order[order.len() - 2] == shorter[shorter.len() - 1]);
        assert(other_order[other_order.len() - 2] == other_shorter[other_shorter.len() - 1]);
        assert(order[order.len() - 1] == order.last());
    } else if order.len() == 1 {
        assert(order[0] == order[0]);
    }
}

/// `statement` is, as the formatter sees it, the statement `entry` of the
/// canonical order of `statements`: the same group, key and text.
pub open spec fn laid_out_as(
    again_bytes: Seq<u8>,
    statement: Statement<'_>,
    bytes: Seq<u8>,
    statements: Seq<Statement<'_>>,
    entry: SortEntry,
) -> bool {
    &&& group_rank(statement_group(statement)) == entry.0
    &&& statement_key(again_bytes, statement) == entry.1
    &&& statement_text(again_bytes, statement) == statement_text(bytes, statements[entry.2])
}

/// Formatting is idempotent as far as the layout goes: where the
/// statements of a text are, in order, those of the canonical order of a
/// source (the same group, key and text each), as a parse of the canonical
/// text gives them, the canonical text of the first is that of the source.
pub proof fn lemma_canonical_text_idempotent(
    bytes: Seq<u8>,
    statements: Seq<Statement<'_>>,
    again_bytes: Seq<u8>,
    again: Seq<Statement<'_>>,
)
    requires
        again.len() == statements.len(),
        forall|k: int|
            0 <= k < again.len() ==> laid_out_as(
                again_bytes,
                #[trigger] again[k],
                bytes,
                statements,
                canonical_order(bytes, statements)[k],
            ),
    ensures
        canonical_text(again_bytes, again) == canonical_text(bytes, statements),
{
    broadcast use vstd::seq_lib::group_to_multiset_ensures;

    let order = canonical_order(bytes, statements);
    let entries = sort_entries(again_bytes, again);
    lemma_entry_order_total();
    let leq = |a: SortEntry, b: SortEntry| entry_le(a, b);
    sort_entries(bytes, statements).lemma_sort_by_ensures(leq);
    assert(order.len() == statements.len()) by {
        assert(order.to_multiset().len() == sort_entries(bytes, statements).to_multiset().len());
    }
    assert forall|k: int| 0 <= k < entries.len() implies #[trigger] entries[k] == (order[k].0, order[k].1, k) by {
        assert(laid_out_as(again_bytes, again[k], bytes, statements, order[k]));
    }
    assert(sorted_by(entries, leq)) by {
        assert forall|a: int, b: int| 0 <= a < b < entries.len() implies #[trigger] leq(entries[a], entries[b]) by {
            assert(leq(order[a], order[b]));
            assert(entries[a] == (order[a].0, order[a].1, a));
            assert(entries[b] == (order[b].0, order[b].1, b));
        }
    }
    entries.lemma_sort_by_ensures(leq);
    vstd::seq_lib::lemma_sorted_unique(entries, entries.sort_by(leq), leq);
    assert(canonical_order(again_bytes, again) == entries);
    assert forall|k: int| 0 <= k < entries.len() implies (#[trigger] entries[k]).0 == order[k].0 && statement_text(
        again_bytes,
        again[entries[k].2],
    ) == statement_text(bytes, statements[order[k].2]) by {
        assert(laid_out_as(again_bytes, again[k], bytes, statements, order[k]));
    }
    lemma_layout_body_same(again_bytes, again, entries, bytes, statements, order);
}

/* ---------------------------------------------------------------------------------------------
 * Computing the layout.
 * ------------------------------------------------------------------------------------------ */

/// The characters of `input[start..end]` without surrounding white space.
fn trimmed_chars(input: &str, start: usize, end: usize) -> (chars: Vec<char>)
    requires
        span_ok(Range { start, end }, bytes_of(input)),
    ensures
        chars@ == trimmed(chars_between(bytes_of(input), start as int, end as int)),
{
    let part = substring(input, start, end);
    let all = chars_of(part);
    let ghost s = all@;
    let n = all.len();
    let mut i: usize = 0;
    assert(s.subrange(0, n as int) =~= s);
    while i < n && white_space(all[i])
        invariant
            all@ == s,
            n == s.len(),
            i <= n,
            trim_start(s) == trim_start(s.subrange(i as int, n as int)),
        decreases n - i,
    {
        assert(s.subrange(i as int, n as int).drop_first() =~= s.subrange(i + 1, n as int));
        i = i + 1;
    }
    assert(trim_start(s) == s.subrange(i as int, n as int));
    let mut j: usize = n;
    while j > i && white_space(all[j - 1])
        invariant
            all@ == s,
            n == s.len(),
            i <= j <= n,
            trim_start(s) == s.subrange(i as int, n as int),
            trimmed(s) == trim_end(s.subrange(i as int, j as int)),
        decreases j - i,
    {
        assert(s.subrange(i as int, j as int).drop_last() =~= s.subrange(i as int, j - 1));
        j = j - 1;
    }
    let mut chars: Vec<char> = Vec::new();
    let mut k: usize = i;
    while k < j
        invariant
            all@ == s,
            n == s.len(),
            i <= k <= j <= n,
            chars@ == s.subrange(i as int, k as int),
        decreases j - k,
    {
        chars.push(all[k]);
        assert(chars@ =~= s.subrange(i as int, k + 1));
        k = k + 1;
    }
    chars
}

/// The characters of `chars` that are not white space.
fn strip_white_space(chars: &Vec<char>) -> (stripped: Vec<char>)
    ensures
        stripped@ == without_white_space(chars@),
{
    let mut stripped: Vec<char> = Vec::new();
    let mut k: usize = 0;
    while k < chars.len()
        invariant
            k <= chars@.len(),
            stripped@ == without_white_space(chars@.take(k as int)),
        decreases chars@.len() - k,
    {
        assert(chars@.take(k + 1).drop_last() =~= chars@.take(k as int));
        let c = chars[k];
        if !white_space(c) {
            stripped.push(c);
        }
        k = k + 1;
    }
    assert(chars@.take(chars@.len() as int) =~= chars@);
    stripped
}

/// The sort key of a claim on `target` with `value`: the target's text
/// without white space, and `{` after it for a nested assignment.
pub fn claim_sort_key(input: &str, target: &Range<usize>, value: &AssignValue<'_>) -> (key: String)
    requires
        span_ok(*target, bytes_of(input)),
    ensures
        key@ == claim_key(bytes_of(input), *target, value is Nested),
{
    let part = substring(input, target.start, target.end);
    let chars = chars_of(part);
    let mut key = strip_white_space(&chars);
    if let AssignValue::Nested(_) = value {
        key.push('{');
    }
    crate::text::string_from_chars(key.as_slice())
}

/// The parts of a statement the layout needs.
struct Entry {
    rank: u8,
    key: Option<Vec<char>>,
    index: usize,
    text: Vec<char>,
}

spec fn entry_view(entry: Entry) -> SortEntry {
    (
        entry.rank as int,
        match entry.key {
            Some(k) => Some(k@),
            None => None,
        },
        entry.index as int,
    )
}

spec fn entry_views(entries: Seq<Entry>) -> Seq<SortEntry> {
    entries.map_values(|e: Entry| entry_view(e))
}

spec fn entries_sorted(views: Seq<SortEntry>) -> bool {
    forall|i: int, j: int| 0 <= i < j < views.len() ==> entry_le(#[trigger] views[i], #[trigger] views[j])
}

fn chars_equal(a: &Vec<char>, b: &Vec<char>) -> (equal: bool)
    ensures
        equal == (a@ == b@),
{
    if a.len() != b.len() {
        return false;
    }
    let mut i: usize = 0;
    while i < a.len()
        invariant
            a@.len() == b@.len(),
            i <= a@.len(),
            a@.take(i as int) == b@.take(i as int),
        decreases a@.len() - i,
    {
        if a[i] != b[i] {
            assert(a@[i as int] != b@[i as int]);
            return false;
        }
        assert(a@.take(i + 1) =~= a@.take(i as int).push(a@[i as int]));
        assert(b@.take(i + 1) =~= b@.take(i as int).push(b@[i as int]));
        i = i + 1;
    }
    assert(a@ =~= a@.take(i as int));
    assert(b@ =~= b@.take(i as int));
    true
}

fn chars_less_eq(a: &Vec<char>, b: &Vec<char>) -> (le: bool)
    ensures
        le == chars_le(a@, b@),
{
    let mut i: usize = 0;
    assert(a@.skip(0) =~= a@);
    assert(b@.skip(0) =~= b@);
    while i < a.len() && i < b.len() && a[i] == b[i]
        invariant
            i <= a@.len(),
            i <= b@.len(),
            chars_le(a@, b@) == chars_le(a@.skip(i as int), b@.skip(i as int)),
        decreases a@.len() - i,
    {
        assert(a@.skip(i as int).drop_first() =~= a@.skip(i + 1));
        assert(b@.skip(i as int).drop_first() =~= b@.skip(i + 1));
        i = i + 1;
    }
    if i == a.len() {
        true
    } else if i == b.len() {
        false
    } else {
        a[i] < b[i]
    }
}

fn entry_less_eq(a: &Entry, b: &Entry) -> (le: bool)
    ensures
        le == entry_le(entry_view(*a), entry_view(*b)),
{
    if a.rank != b.rank {
        return a.rank < b.rank;
    }
    let (same_key, key_order) = match (&a.key, &b.key) {
        (None, None) => (true, true),
        (None, Some(_)) => (false, true),
        (Some(_), None) => (false, false),
        (Some(x), Some(y)) => (chars_equal(x, y), chars_less_eq(x, y)),
    };
    if !same_key {
        key_order
    } else {
        a.index <= b.index
    }
}

/// Where `entry` goes in `sorted`: after every entry that is not above it.
fn insertion_point(sorted: &Vec<Entry>, entry: &Entry) -> (p: usize)
    ensures
        p <= sorted@.len(),
        forall|k: int| 0 <= k < p ==> entry_le(entry_view(#[trigger] sorted@[k]), entry_view(*entry)),
        p < sorted@.len() ==> !entry_le(entry_view(sorted@[p as int]), entry_view(*entry)),
{
    let mut p: usize = 0;
    while p < sorted.len() && entry_less_eq(&sorted[p], entry)
        invariant
            p <= sorted@.len(),
            forall|k: int| 0 <= k < p ==> entry_le(entry_view(#[trigger] sorted@[k]), entry_view(*entry)),
        decreases sorted@.len() - p,
    {
        p = p + 1;
    }
    p
}

/// The rank of a statement's group.
fn statement_rank(statement: &Statement<'_>) -> (rank: u8)
    ensures
        rank as int == group_rank(statement_group(*statement)),
{
    match statement {
        Statement::ImportStatement(_) => 0,
        Statement::UseDeclare(_) => 1,
        Statement::EnumDefine(_) | Statement::TypeDefine(_) | Statement::InterfaceDefine(_)
        | Statement::ImplementsDefine(_) => 2,
        Statement::LetStatement(_) | Statement::FunctionDefine(_) | Statement::AssertStatement(_) => 3,
        Statement::AssignStatement(_) => 4,
        Statement::Expression(_) => 5,
    }
}

/// The entry of statement `index`.
fn make_entry(input: &str, statements: &Vec<Statement<'_>>, index: usize) -> (entry: Entry)
    requires
        index < statements@.len(),
        statements_ok(statements@, bytes_of(input)),
    ensures
        entry_view(entry) == sort_entry(bytes_of(input), statements@, index as int),
        entry.text@ == statement_text(bytes_of(input), statements@[index as int]),
{
    let statement = &statements[index];
    assert(crate::syntax::statement_ok(statements@[index as int], bytes_of(input)));
    let span = statement.span();
    let text = trimmed_chars(input, span.start, span.end);
    let rank = statement_rank(statement);
    let key = match statement {
        Statement::ImportStatement(_) | Statement::UseDeclare(_) => {
            let mut copy: Vec<char> = Vec::new();
            let mut k: usize = 0;
            while k < text.len()
                invariant
                    k <= text@.len(),
                    copy@ == text@.take(k as int),
                decreases text@.len() - k,
            {
                copy.push(text[k]);
                assert(copy@ =~= text@.take(k + 1));
                k = k + 1;
            }
            assert(text@.take(text@.len() as int) =~= text@);
            Some(copy)
        },
        Statement::AssignStatement(node) => {
            let target = node.target.span();
            let key = claim_sort_key(input, &target, &node.value);
            Some(chars_of(key.as_str()))
        },
        _ => None,
    };
    Entry { rank, key, index, text }
}

/// Lays out parsed statements in canonical order.
pub fn layout_statements(input: &str, statements: &Vec<Statement<'_>>) -> (text: String)
    requires
        statements_ok(statements@, bytes_of(input)),
    ensures
        text@ == canonical_text(bytes_of(input), statements@),
{
    let ghost bytes = bytes_of(input);
    let ghost all = sort_entries(bytes, statements@);
    let n = statements.len();
    let mut sorted: Vec<Entry> = Vec::new();
    let mut i: usize = 0;
    assert(entry_views(sorted@) =~= all.take(0));
    while i < n
        invariant
            n == statements@.len(),
            bytes == bytes_of(input),
            all == sort_entries(bytes, statements@),
            statements_ok(statements@, bytes),
            i <= n,
            sorted@.len() == i,
            entries_sorted(entry_views(sorted@)),
            entry_views(sorted@).to_multiset() == all.take(i as int).to_multiset(),
            forall|k: int|
                0 <= k < sorted@.len() ==> 0 <= (#[trigger] sorted@[k]).index < n
                    && sorted@[k].text@ == statement_text(bytes, statements@[sorted@[k].index as int])
                    && entry_view(sorted@[k]).2 == sorted@[k].index,
        decreases n - i,
    {
        let entry = make_entry(input, statements, i);
        let p = insertion_point(&sorted, &entry);
        let ghost old_sorted = sorted@;
        let ghost v = entry_view(entry);
        sorted.insert(p, entry);
        proof {
            let old_views = entry_views(old_sorted);
            let views = entry_views(sorted@);
            assert(views =~= old_views.insert(p as int, v));
            assert(all.take(i + 1) =~= all.take(i as int).push(all[i as int]));
            vstd::seq_lib::to_multiset_insert(old_views, p as int, v);
            vstd::seq_lib::to_multiset_build(all.take(i as int), all[i as int]);
            assert forall|a: int, b: int| 0 <= a < b < views.len() implies entry_le(
                #[trigger] views[a],
                #[trigger] views[b],
            ) by {
                if b < p {
                } else if a < p && b == p {
                    assert(views[a] == old_views[a]);
                } else if a < p && b > p {
                    assert(views[a] == old_views[a]);
                    assert(views[b] == old_views[b - 1]);
                } else if a == p {
                    assert(views[b] == old_views[b - 1]);
                    lemma_entry_le_total(old_views[p as int], v);
                    if b - 1 > p {
                        lemma_entry_le_transitive(v, old_views[p as int], old_views[b - 1]);
                    }
                } else {
                    assert(views[a] == old_views[a - 1]);
                    assert(views[b] == old_views[b - 1]);
                }
            }
        }
        i = i + 1;
    }
    let ghost views = entry_views(sorted@);
    proof {
        assert(all.take(n as int) =~= all);
        lemma_entry_order_total();
        let leq = |a: SortEntry, b: SortEntry| entry_le(a, b);
        all.lemma_sort_by_ensures(leq);
        assert(sorted_by(views, leq)) by {
            assert forall|a: int, b: int| 0 <= a < b < views.len() implies #[trigger] leq(
                views[a],
                views[b],
            ) by {
                assert(entry_le(views[a], views[b]));
            }
        }
        vstd::seq_lib::lemma_sorted_unique(views, all.sort_by(leq), leq);
        assert(views == canonical_order(bytes, statements@));
    }
    let mut out: Vec<char> = Vec::new();
    let mut k: usize = 0;
    while k < n
        invariant
            n == statements@.len(),
            n == sorted@.len(),
            views == entry_views(sorted@),
            bytes == bytes_of(input),
            k <= n,
            k == 0 ==> out@ == Seq::<char>::empty(),
            k > 0 ==> out@ == layout_body(bytes, statements@, views.take(k as int)),
            forall|m: int|
                0 <= m < sorted@.len() ==> 0 <= (#[trigger] sorted@[m]).index < n && sorted@[m].text@ == statement_text(
                    bytes,
                    statements@[sorted@[m].index as int],
                ) && entry_view(sorted@[m]).2 == sorted@[m].index,
        decreases n - k,
    {
        let ghost before = out@;
        let entry = &sorted[k];
        if k > 0 {
            if sorted[k - 1].rank == entry.rank {
                out.push('\n');
            } else {
                out.push('\n');
                out.push('\n');
            }
        }
        let ghost separated = out@;
        let mut m: usize = 0;
        while m < entry.text.len()
            invariant
                m <= entry.text@.len(),
                out@ == separated + entry.text@.take(m as int),
            decreases entry.text@.len() - m,
        {
            out.push(entry.text[m]);
            assert(entry.text@.take(m + 1) =~= entry.text@.take(m as int).push(entry.text@[m as int]));
            m = m + 1;
        }
        proof {
            assert(entry.text@.take(entry.text@.len() as int) =~= entry.text@);
            let taken = views.take(k + 1);
            assert(taken.last() == views[k as int]);
            assert(views[k as int] == entry_view(sorted@[k as int]));
            if k == 0 {
                assert(taken.len() == 1);
                assert(out@ =~= layout_body(bytes, statements@, taken));
            } else {
                assert(taken.drop_last() =~= views.take(k as int));
                assert(taken[taken.len() - 2] == views[k - 1]);
                assert(views[k - 1] == entry_view(sorted@[k - 1]));
                assert(out@ =~= layout_body(bytes, statements@, taken));
            }
        }
        k = k + 1;
    }
    if n > 0 {
        out.push('\n');
        proof {
            assert(views.take(n as int) =~= views);
        }
    }
    crate::text::string_from_chars(out.as_slice())
}


/// The message of a parse error: its `Debug` rendering.
#[verifier::external_body]
fn describe_error(error: &ParseError<'_>) -> String {
    format!("{error:?}")
}

/// A parse of the source `bytes` as the parser promises it: statements
/// whose spans lie on character boundaries of the text, some statement or
/// some error unless the text holds statement separators only, and neither
/// where it does; where it reports no error, every statement reads its
/// text cleanly (a binding without a type has no `:` after its name).
pub open spec fn parse_possible(bytes: Seq<u8>, statements: Seq<Statement<'_>>, error_count: nat) -> bool {
    &&& statements_ok(statements, bytes)
    &&& error_count == 0 ==> forall|k: int|
        0 <= k < statements.len() ==> statement_clean(#[trigger] statements[k], bytes, true, true)
    &&& !separators_only(bytes, 0, true, true) ==> statements.len() > 0 || error_count > 0
    &&& separators_only(bytes, 0, true, true) ==> statements.len() == 0 && error_count == 0
}

/// What formatting gives for a source that parses to `statements` with
/// `error_count` errors: one message per error where there are any, and
/// else the canonical layout of the statements.
pub open spec fn format_outcome(
    bytes: Seq<u8>,
    statements: Seq<Statement<'_>>,
    error_count: nat,
    result: Result<String, FormatError>,
) -> bool {
    match result {
        Ok(text) => error_count == 0 && text@ == canonical_text(bytes, statements),
        Err(FormatError::Parse { messages }) => error_count > 0 && messages@.len() == error_count,
    }
}

/// Formats a parsed source: the parse errors, one message each, where
/// there are any, else the canonical layout of the statements.
pub fn format_parsed(input: &str, statements: &Vec<Statement<'_>>, errors: &[ParseError<'_>]) -> (result: Result<
    String,
    FormatError,
>)
    requires
        statements_ok(statements@, bytes_of(input)),
    ensures
        format_outcome(bytes_of(input), statements@, errors@.len(), result),
{
    if errors.len() > 0 {
        let mut messages: Vec<String> = Vec::new();
        let mut i: usize = 0;
        while i < errors.len()
            invariant
                i <= errors@.len(),
                messages@.len() == i,
            decreases errors@.len() - i,
        {
            messages.push(describe_error(&errors[i]));
            i = i + 1;
        }
        return Err(FormatError::Parse { messages });
    }
    Ok(layout_statements(input, statements))
}

/// Formats a whole source file into its canonical form: the canonical
/// layout of the statements the source parses to, or, where the parser
/// reports errors, one message per error and no text.
pub fn format_source(input: &str) -> (result: Result<String, FormatError>)
    ensures
        exists|statements: Seq<Statement<'_>>, error_count: nat|
            parse_possible(bytes_of(input), statements, error_count) && #[trigger] format_outcome(
                bytes_of(input),
                statements,
                error_count,
                result,
            ),
        result matches Ok(text) ==> (!separators_only(bytes_of(input), 0, true, true) ==> text@.len() > 0),
        separators_only(bytes_of(input), 0, true, true) ==> (result matches Ok(text) && text@.len() == 0),
{
    let mut lexer = Lexer::new(input);
    let mut errors: ParseErrors<'_> = Vec::new();
    let source = parse_source(&mut lexer, &mut errors);
    let result = format_parsed(input, &source.statements, errors.as_slice());
    proof {
        assert(parse_possible(bytes_of(input), source.statements@, errors@.len()));
    }
    result
}

/* ---------------------------------------------------------------------------------------------
 * Edits.
 * ------------------------------------------------------------------------------------------ */

/// An edit as start, end and the bytes of its text.
pub type EditView = (int, int, Seq<u8>);

pub open spec fn edit_view(edit: TextEdit) -> EditView {
    (edit.range.start as int, edit.range.end as int, encode_utf8(edit.text@))
}

pub open spec fn edit_views(edits: Seq<TextEdit>) -> Seq<EditView> {
    edits.map_values(|edit: TextEdit| edit_view(edit))
}

/// `text` with the range of `edit` replaced by its text.
pub open spec fn apply_edit(text: Seq<u8>, edit: EditView) -> Seq<u8> {
    text.subrange(0, edit.0) + edit.2 + text.subrange(edit.1, text.len() as int)
}

/// Edit `i` is applied before edit `j`: the later start first, edits with
/// the same start in their given order.
pub open spec fn applied_before(edits: Seq<EditView>, i: int, j: int) -> bool {
    edits[i].0 > edits[j].0 || (edits[i].0 == edits[j].0 && i < j)
}

/// The order of application on (start, position) pairs.
pub open spec fn apply_order_le(x: (int, int), y: (int, int)) -> bool {
    x.0 > y.0 || (x.0 == y.0 && x.1 <= y.1)
}

/// The (start, position) pairs of the edits in the order they are applied.
pub open spec fn apply_order(edits: Seq<EditView>) -> Seq<(int, int)> {
    Seq::new(edits.len(), |i: int| (edits[i].0, i)).sort_by(
        |x: (int, int), y: (int, int)| apply_order_le(x, y),
    )
}

pub open spec fn apply_in_order(text: Seq<u8>, edits: Seq<EditView>, order: Seq<(int, int)>) -> Seq<u8>
    decreases order.len(),
{
    if order.len() == 0 {
        text
    } else {
        apply_edit(apply_in_order(text, edits, order.drop_last()), edits[order.last().1])
    }
}

/// `text` after all `edits`, applied back to front.
pub open spec fn applied_text(text: Seq<u8>, edits: Seq<EditView>) -> Seq<u8> {
    apply_in_order(text, edits, apply_order(edits))
}

/// Every edit replaces whole characters of `text`, and an edit applied
/// later ends before the start of every edit applied earlier.
pub open spec fn edits_fit(text: Seq<u8>, edits: Seq<EditView>) -> bool {
    &&& forall|i: int|
        0 <= i < edits.len() ==> {
            &&& 0 <= (#[trigger] edits[i]).0 <= edits[i].1 <= text.len()
            &&& is_char_boundary(text, edits[i].0)
            &&& is_char_boundary(text, edits[i].1)
            &&& valid_utf8(edits[i].2)
        }
    &&& forall|i: int, j: int|
        0 <= i < edits.len() && 0 <= j < edits.len() && i != j && #[trigger] applied_before(
            edits,
            i,
            j,
        ) ==> edits[j].1 <= edits[i].0
}

/// The length of the longest common prefix of two byte strings.
pub open spec fn common_prefix_len(a: Seq<u8>, b: Seq<u8>) -> int
    decreases a.len(),
{
    if a.len() == 0 || b.len() == 0 || a[0] != b[0] {
        0
    } else {
        1 + common_prefix_len(a.drop_first(), b.drop_first())
    }
}

/// The length of the longest common suffix of two byte strings.
pub open spec fn common_suffix_len(a: Seq<u8>, b: Seq<u8>) -> int
    decreases a.len(),
{
    if a.len() == 0 || b.len() == 0 || a.last() != b.last() {
        0
    } else {
        1 + common_suffix_len(a.drop_last(), b.drop_last())
    }
}

/// The largest offset at most `limit` that is a character boundary of
/// both texts.
pub open spec fn boundary_at_or_before(a: Seq<u8>, b: Seq<u8>, limit: int) -> int
    decreases limit,
{
    if limit <= 0 || (is_char_boundary(a, limit) && is_char_boundary(b, limit)) {
        limit
    } else {
        boundary_at_or_before(a, b, limit - 1)
    }
}

/// The largest length at most `limit` whose distance from the end of each
/// text is a character boundary of it.
pub open spec fn boundary_from_end(a: Seq<u8>, b: Seq<u8>, limit: int) -> int
    decreases limit,
{
    if limit <= 0 || (is_char_boundary(a, a.len() - limit) && is_char_boundary(b, b.len() - limit)) {
        limit
    } else {
        boundary_from_end(a, b, limit - 1)
    }
}

pub open spec fn edit_prefix(a: Seq<u8>, b: Seq<u8>) -> int {
    boundary_at_or_before(a, b, common_prefix_len(a, b))
}

pub open spec fn edit_suffix(a: Seq<u8>, b: Seq<u8>) -> int {
    let p = edit_prefix(a, b);
    let limit = if common_suffix_len(a, b) <= a.len() - p && common_suffix_len(a, b) <= b.len() - p {
        common_suffix_len(a, b)
    } else if a.len() - p <= b.len() - p {
        a.len() - p
    } else {
        b.len() - p
    };
    boundary_from_end(a, b, limit)
}

/// The single edit that turns `a` into `b`, keeping their common prefix and
/// suffix (cut back to character boundaries).
pub open spec fn minimal_edit(a: Seq<u8>, b: Seq<u8>) -> EditView {
    let p = edit_prefix(a, b);
    let s = edit_suffix(a, b);
    (p, a.len() - s, b.subrange(p, b.len() - s))
}

/// No edit for equal texts, else the minimal one.
pub open spec fn edits_for(a: Seq<u8>, b: Seq<u8>) -> Seq<EditView> {
    if a == b {
        Seq::empty()
    } else {
        seq![minimal_edit(a, b)]
    }
}

proof fn lemma_common_prefix(a: Seq<u8>, b: Seq<u8>)
    ensures
        0 <= common_prefix_len(a, b) <= a.len(),
        common_prefix_len(a, b) <= b.len(),
        a.subrange(0, common_prefix_len(a, b)) == b.subrange(0, common_prefix_len(a, b)),
    decreases a.len(),
{
    if a.len() == 0 || b.len() == 0 || a[0] != b[0] {
        assert(a.subrange(0, 0) =~= b.subrange(0, 0));
    } else {
        lemma_common_prefix(a.drop_first(), b.drop_first());
        let k = common_prefix_len(a.drop_first(), b.drop_first());
        assert(a.subrange(0, k + 1) =~= seq![a[0]] + a.drop_first().subrange(0, k));
        assert(b.subrange(0, k + 1) =~= seq![b[0]] + b.drop_first().subrange(0, k));
    }
}

proof fn lemma_common_suffix(a: Seq<u8>, b: Seq<u8>)
    ensures
        0 <= common_suffix_len(a, b) <= a.len(),
        common_suffix_len(a, b) <= b.len(),
        a.subrange(a.len() - common_suffix_len(a, b), a.len() as int) == b.subrange(
            b.len() - common_suffix_len(a, b),
            b.len() as int,
        ),
    decreases a.len(),
{
    if a.len() == 0 || b.len() == 0 || a.last() != b.last() {
        assert(a.subrange(a.len() as int, a.len() as int) =~= b.subrange(b.len() as int, b.len() as int));
    } else {
        lemma_common_suffix(a.drop_last(), b.drop_last());
        let k = common_suffix_len(a.drop_last(), b.drop_last());
        let x = a.drop_last();
        let y = b.drop_last();
        assert(a.subrange(a.len() - (k + 1), a.len() as int) =~= x.subrange(x.len() - k, x.len() as int).push(a.last()));
        assert(b.subrange(b.len() - (k + 1), b.len() as int) =~= y.subrange(y.len() - k, y.len() as int).push(b.last()));
    }
}

proof fn lemma_boundary_at_or_before(a: Seq<u8>, b: Seq<u8>, limit: int)
    requires
        valid_utf8(a),
        valid_utf8(b),
        0 <= limit <= a.len(),
        limit <= b.len(),
    ensures
        0 <= boundary_at_or_before(a, b, limit) <= limit,
        is_char_boundary(a, boundary_at_or_before(a, b, limit)),
        is_char_boundary(b, boundary_at_or_before(a, b, limit)),
    decreases limit,
{
    if limit <= 0 {
        is_char_boundary_start_end_of_seq(a);
        is_char_boundary_start_end_of_seq(b);
    } else if !(is_char_boundary(a, limit) && is_char_boundary(b, limit)) {
        lemma_boundary_at_or_before(a, b, limit - 1);
    }
}

proof fn lemma_boundary_from_end(a: Seq<u8>, b: Seq<u8>, limit: int)
    requires
        valid_utf8(a),
        valid_utf8(b),
        0 <= limit <= a.len(),
        limit <= b.len(),
    ensures
        0 <= boundary_from_end(a, b, limit) <= limit,
        is_char_boundary(a, a.len() - boundary_from_end(a, b, limit)),
        is_char_boundary(b, b.len() - boundary_from_end(a, b, limit)),
    decreases limit,
{
    if limit <= 0 {
        is_char_boundary_start_end_of_seq(a);
        is_char_boundary_start_end_of_seq(b);
    } else if !(is_char_boundary(a, a.len() - limit) && is_char_boundary(b, b.len() - limit)) {
        lemma_boundary_from_end(a, b, limit - 1);
    }
}

/// The minimal edit lies on character boundaries of `a`, and its prefix
/// and suffix are shared by `a` and `b`.
proof fn lemma_minimal_edit(a: Seq<u8>, b: Seq<u8>)
    requires
        valid_utf8(a),
        valid_utf8(b),
    ensures
        ({
            let (start, end, text) = minimal_edit(a, b);
            let p = edit_prefix(a, b);
            let s = edit_suffix(a, b);
            &&& 0 <= p && 0 <= s && p + s <= a.len() && p + s <= b.len()
            &&& start == p && end == a.len() - s
            &&& is_char_boundary(a, p) && is_char_boundary(b, p)
            &&& is_char_boundary(a, a.len() - s) && is_char_boundary(b, b.len() - s)
            &&& a.subrange(0, p) == b.subrange(0, p)
            &&& a.subrange(a.len() - s, a.len() as int) == b.subrange(b.len() - s, b.len() as int)
        }),
{
    lemma_common_prefix(a, b);
    let c = common_prefix_len(a, b);
    lemma_boundary_at_or_before(a, b, c);
    let p = edit_prefix(a, b);
    assert(a.subrange(0, p) =~= a.subrange(0, c).subrange(0, p));
    assert(b.subrange(0, p) =~= b.subrange(0, c).subrange(0, p));
    lemma_common_suffix(a, b);
    let t = common_suffix_len(a, b);
    let limit = if t <= a.len() - p && t <= b.len() - p {
        t
    } else if a.len() - p <= b.len() - p {
        a.len() - p
    } else {
        b.len() - p
    };
    lemma_boundary_from_end(a, b, limit);
    let s = edit_suffix(a, b);
    assert(a.subrange(a.len() - s, a.len() as int) =~= a.subrange(a.len() - t, a.len() as int).subrange(
        t - s,
        t,
    ));
    assert(b.subrange(b.len() - s, b.len() as int) =~= b.subrange(b.len() - t, b.len() as int).subrange(
        t - s,
        t,
    ));
}

proof fn lemma_apply_order_total()
    ensures
        total_ordering(|x: (int, int), y: (int, int)| apply_order_le(x, y)),
{
    let leq = |x: (int, int), y: (int, int)| apply_order_le(x, y);
    assert(vstd::relations::reflexive(leq));
    assert(vstd::relations::antisymmetric(leq));
    assert(vstd::relations::transitive(leq));
    assert(vstd::relations::strongly_connected(leq));
}

/// The edits of a single-edit list are applied in that one step.
proof fn lemma_single_edit_order(edit: EditView)
    ensures
        apply_order(seq![edit]) == seq![(edit.0, 0int)],
{
    let keys = Seq::new(1, |i: int| (seq![edit][i].0, i));
    assert(keys =~= seq![(edit.0, 0int)]);
    let leq = |x: (int, int), y: (int, int)| apply_order_le(x, y);
    lemma_apply_order_total();
    keys.lemma_sort_by_ensures(leq);
    assert(sorted_by(keys, leq));
    vstd::seq_lib::lemma_sorted_unique(keys, keys.sort_by(leq), leq);
}

/// Applying the edits that [`format_edits`] reports for `a` and its
/// formatted text `b` gives back `b`; equal texts need no edit.
pub proof fn lemma_edits_reproduce_formatting(a: Seq<u8>, b: Seq<u8>)
    requires
        valid_utf8(a),
        valid_utf8(b),
    ensures
        edits_fit(a, edits_for(a, b)),
        applied_text(a, edits_for(a, b)) == b,
        a == b ==> edits_for(a, b).len() == 0,
{
    if a == b {
        let empty = Seq::<EditView>::empty();
        let keys = Seq::new(0, |i: int| (empty[i].0, i));
        let leq = |x: (int, int), y: (int, int)| apply_order_le(x, y);
        lemma_apply_order_total();
        keys.lemma_sort_by_ensures(leq);
        assert(keys =~= Seq::<(int, int)>::empty());
        vstd::seq_lib::lemma_sorted_unique(keys, keys.sort_by(leq), leq);
        assert(apply_order(empty).len() == 0);
        assert(applied_text(a, edits_for(a, b)) == a);
    } else {
        lemma_minimal_edit(a, b);
        let edit = minimal_edit(a, b);
        lemma_single_edit_order(edit);
        let order = apply_order(seq![edit]);
        assert(order.drop_last() =~= Seq::<(int, int)>::empty());
        let p = edit_prefix(a, b);
        let s = edit_suffix(a, b);
        assert(apply_edit(a, edit) =~= b.subrange(0, p) + b.subrange(p, b.len() - s) + b.subrange(
            b.len() - s,
            b.len() as int,
        ));
        assert(apply_edit(a, edit) =~= b);
        let kept = b.subrange(0, b.len() - s);
        valid_utf8_split(b, b.len() - s);
        if p < b.len() - s {
            assert(kept.subrange(0, b.len() - s) =~= b.subrange(0, b.len() - s));
            crate::text::lemma_boundary_agrees(kept, b, p, b.len() - s);
            valid_utf8_split(kept, p);
            assert(kept.subrange(p, kept.len() as int) =~= b.subrange(p, b.len() - s));
        } else {
            assert(b.subrange(p, b.len() - s) =~= Seq::<u8>::empty());
        }
        let edits = seq![edit];
        assert(edits_for(a, b) == edits);
        assert(order == seq![(edit.0, 0int)]);
        assert(order.last().1 == 0);
        assert(apply_in_order(a, edits, order.drop_last()) == a);
        assert(apply_in_order(a, edits, order) == apply_edit(a, edits[0]));
        assert(applied_text(a, edits_for(a, b)) == apply_edit(a, edit));
    }
}

/// The minimal edit that turns `input` into `formatted`.
fn minimal_edit_between(input: &str, formatted: &str) -> (edit: TextEdit)
    ensures
        edit_view(edit) == minimal_edit(bytes_of(input), bytes_of(formatted)),
{
    let ghost a = bytes_of(input);
    let ghost b = bytes_of(formatted);
    let x = input.as_bytes();
    let y = formatted.as_bytes();
    let n = x.len();
    let m = y.len();
    let mut prefix: usize = 0;
    assert(a.skip(0) =~= a);
    assert(b.skip(0) =~= b);
    while prefix < n && prefix < m && x[prefix] == y[prefix]
        invariant
            x@ == a,
            y@ == b,
            n == a.len(),
            m == b.len(),
            prefix <= n,
            prefix <= m,
            common_prefix_len(a, b) == prefix + common_prefix_len(a.skip(prefix as int), b.skip(prefix as int)),
        decreases n - prefix,
    {
        assert(a.skip(prefix as int).drop_first() =~= a.skip(prefix + 1));
        assert(b.skip(prefix as int).drop_first() =~= b.skip(prefix + 1));
        prefix = prefix + 1;
    }
    let ghost common = common_prefix_len(a, b);
    assert(common == prefix);
    proof {
        lemma_common_prefix(a, b);
        is_char_boundary_start_end_of_seq(a);
        is_char_boundary_start_end_of_seq(b);
    }
    while !(input.is_char_boundary(prefix) && formatted.is_char_boundary(prefix))
        invariant
            a == bytes_of(input),
            b == bytes_of(formatted),
            prefix <= n,
            prefix <= m,
            n == a.len(),
            m == b.len(),
            is_char_boundary(a, 0),
            is_char_boundary(b, 0),
            boundary_at_or_before(a, b, common) == boundary_at_or_before(a, b, prefix as int),
        decreases prefix,
    {
        prefix = prefix - 1;
    }
    assert(edit_prefix(a, b) == prefix);
    let mut suffix: usize = 0;
    assert(a.take(n as int) =~= a);
    assert(b.take(m as int) =~= b);
    while suffix < n && suffix < m && x[n - 1 - suffix] == y[m - 1 - suffix]
        invariant
            x@ == a,
            y@ == b,
            n == a.len(),
            m == b.len(),
            suffix <= n,
            suffix <= m,
            common_suffix_len(a, b) == suffix + common_suffix_len(
                a.take(n - suffix),
                b.take(m - suffix),
            ),
        decreases n - suffix,
    {
        assert(a.take(n - suffix).drop_last() =~= a.take(n - suffix - 1));
        assert(b.take(m - suffix).drop_last() =~= b.take(m - suffix - 1));
        suffix = suffix + 1;
    }
    assert(common_suffix_len(a, b) == suffix);
    if suffix > n - prefix {
        suffix = n - prefix;
    }
    if suffix > m - prefix {
        suffix = m - prefix;
    }
    let ghost limit = suffix as int;
    while !(input.is_char_boundary(n - suffix) && formatted.is_char_boundary(m - suffix))
        invariant
            a == bytes_of(input),
            b == bytes_of(formatted),
            suffix <= n - prefix,
            suffix <= m - prefix,
            n == a.len(),
            m == b.len(),
            is_char_boundary(a, a.len() as int),
            is_char_boundary(b, b.len() as int),
            boundary_from_end(a, b, limit) == boundary_from_end(a, b, suffix as int),
        decreases suffix,
    {
        suffix = suffix - 1;
    }
    assert(edit_suffix(a, b) == suffix);
    let part = substring(formatted, prefix, m - suffix);
    let text = part.to_owned();
    TextEdit { range: Range { start: prefix, end: n - suffix }, text }
}

/// The edits that turn `bytes` into what formatting gave: none where the
/// text is already formatted, else one minimal edit; the formatter's error
/// where it failed.
pub open spec fn edits_outcome(
    bytes: Seq<u8>,
    formatted: Result<String, FormatError>,
    result: Result<Vec<TextEdit>, FormatError>,
) -> bool {
    match formatted {
        Ok(text) => result matches Ok(edits) && edit_views(edits@) == edits_for(bytes, encode_utf8(text@)),
        Err(error) => result == Err::<Vec<TextEdit>, FormatError>(error),
    }
}

/// The edits from `input` to the formatter's result for it.
pub fn edits_to_formatted(input: &str, formatted: Result<String, FormatError>) -> (result: Result<
    Vec<TextEdit>,
    FormatError,
>)
    ensures
        edits_outcome(bytes_of(input), formatted, result),
{
    let formatted = match formatted {
        Ok(formatted) => formatted,
        Err(error) => {
            return Err(error);
        },
    };
    let ghost a = bytes_of(input);
    let ghost b = encode_utf8(formatted@);
    if crate::text::str_equal(formatted.as_str(), input) {
        proof {
            assert(a == b);
            let edits = Seq::<TextEdit>::empty();
            assert(edit_views(edits) =~= edits_for(a, b));
        }
        return Ok(Vec::new());
    }
    let edit = minimal_edit_between(input, formatted.as_str());
    let edits = vec![edit];
    proof {
        assert(a != b) by {
            if a == b {
                assert(decode_utf8(a) == decode_utf8(b));
            }
        }
        assert(edit_views(edits@) =~= edits_for(a, b));
    }
    Ok(edits)
}

/// Formats the input and reports the result as edits: none when the input
/// is already canonical, else one minimal edit; the formatter's error when
/// it fails.
pub fn format_edits(input: &str) -> (result: Result<Vec<TextEdit>, FormatError>)
    ensures
        exists|statements: Seq<Statement<'_>>, error_count: nat, formatted: Result<String, FormatError>|
            parse_possible(bytes_of(input), statements, error_count) && #[trigger] format_outcome(
                bytes_of(input),
                statements,
                error_count,
                formatted,
            ) && edits_outcome(bytes_of(input), formatted, result),
{
    let formatted = format_source(input);
    let ghost kept = formatted;
    let result = edits_to_formatted(input, formatted);
    proof {
        let (statements, error_count) = choose|statements: Seq<Statement<'_>>, error_count: nat|
            parse_possible(bytes_of(input), statements, error_count) && #[trigger] format_outcome(
                bytes_of(input),
                statements,
                error_count,
                kept,
            );
        assert(format_outcome(bytes_of(input), statements, error_count, kept));
    }
    result
}

/// `text` with bytes `start..end` replaced by `insert`.
fn replaced(text: &str, start: usize, end: usize, insert: &str) -> (result: String)
    requires
        start <= end <= bytes_of(text).len(),
        is_char_boundary(bytes_of(text), start as int),
        is_char_boundary(bytes_of(text), end as int),
    ensures
        encode_utf8(result@) == apply_edit(bytes_of(text), (start as int, end as int, bytes_of(insert))),
{
    let n = crate::text::byte_len(text);
    let head = substring(text, 0, start);
    proof {
        is_char_boundary_start_end_of_seq(bytes_of(text));
    }
    let tail = substring(text, end, n);
    let mut result = String::new();
    result.append(head);
    result.append(insert);
    result.append(tail);
    proof {
        assert(result@ =~= head@ + insert@ + tail@);
        crate::text::lemma_encode_concat(head@ + insert@, tail@);
        crate::text::lemma_encode_concat(head@, insert@);
    }
    result
}

/// The order in which `edits` are applied, as (start, position) pairs.
fn application_order(edits: &[TextEdit]) -> (order: Vec<(usize, usize)>)
    ensures
        order@.len() == edits@.len(),
        forall|k: int| 0 <= k < order@.len() ==> {
            &&& (#[trigger] order@[k]).1 < edits@.len()
            &&& order@[k].0 == edits@[order@[k].1 as int].range.start
        },
        forall|k: int, l: int| 0 <= k < l < order@.len() ==> applied_before(
            edit_views(edits@),
            (#[trigger] order@[k]).1 as int,
            (#[trigger] order@[l]).1 as int,
        ),
        order@.map_values(|x: (usize, usize)| (x.0 as int, x.1 as int)) == apply_order(edit_views(edits@)),
{
    let ghost views = edit_views(edits@);
    let ghost keys = Seq::new(views.len(), |i: int| (views[i].0, i));
    let mut order: Vec<(usize, usize)> = Vec::new();
    let mut i: usize = 0;
    assert(order@.map_values(|x: (usize, usize)| (x.0 as int, x.1 as int)) =~= keys.take(0));
    while i < edits.len()
        invariant
            views == edit_views(edits@),
            keys == Seq::new(views.len(), |i: int| (views[i].0, i)),
            i <= edits@.len(),
            order@.len() == i,
            forall|k: int| 0 <= k < order@.len() ==> {
                &&& (#[trigger] order@[k]).1 < i
                &&& order@[k].0 == edits@[order@[k].1 as int].range.start
            },
            forall|k: int, l: int| 0 <= k < l < order@.len() ==> applied_before(
                views,
                (#[trigger] order@[k]).1 as int,
                (#[trigger] order@[l]).1 as int,
            ),
            order@.map_values(|x: (usize, usize)| (x.0 as int, x.1 as int)).to_multiset() == keys.take(
                i as int,
            ).to_multiset(),
        decreases edits@.len() - i,
    {
        let start = edits[i].range.start;
        let mut p: usize = 0;
        while p < order.len() && order[p].0 >= start
            invariant
                p <= order@.len(),
                forall|k: int| 0 <= k < p ==> (#[trigger] order@[k]).0 >= start,
            decreases order@.len() - p,
        {
            p = p + 1;
        }
        let ghost old_order = order@;
        order.insert(p, (start, i));
        proof {
            let f = |x: (usize, usize)| (x.0 as int, x.1 as int);
            assert(order@.map_values(f) =~= old_order.map_values(f).insert(p as int, (start as int, i as int)));
            vstd::seq_lib::to_multiset_insert(old_order.map_values(f), p as int, (start as int, i as int));
            assert(keys.take(i + 1) =~= keys.take(i as int).push(keys[i as int]));
            vstd::seq_lib::to_multiset_build(keys.take(i as int), keys[i as int]);
            assert(views[i as int].0 == start);
            assert forall|k: int, l: int| 0 <= k < l < order@.len() implies applied_before(
                views,
                (#[trigger] order@[k]).1 as int,
                (#[trigger] order@[l]).1 as int,
            ) by {
                if l < p {
                    assert(order@[k] == old_order[k] && order@[l] == old_order[l]);
                } else if k < p && l == p {
                    assert(order@[k] == old_order[k]);
                } else if k < p {
                    assert(order@[k] == old_order[k] && order@[l] == old_order[l - 1]);
                } else if k == p {
                    assert(order@[l] == old_order[l - 1]);
                    assert(old_order[p as int].0 < start);
                    if l - 1 > p {
                        assert(applied_before(views, old_order[p as int].1 as int, old_order[l - 1].1 as int));
                    }
                } else {
                    assert(order@[k] == old_order[k - 1] && order@[l] == old_order[l - 1]);
                }
            }
        }
        i = i + 1;
    }
    proof {
        let f = |x: (usize, usize)| (x.0 as int, x.1 as int);
        let ordered = order@.map_values(f);
        let leq = |x: (int, int), y: (int, int)| apply_order_le(x, y);
        assert(keys.take(edits@.len() as int) =~= keys);
        lemma_apply_order_total();
        keys.lemma_sort_by_ensures(leq);
        assert(sorted_by(ordered, leq)) by {
            assert forall|k: int, l: int| 0 <= k < l < ordered.len() implies #[trigger] leq(
                ordered[k],
                ordered[l],
            ) by {
                assert(applied_before(views, order@[k].1 as int, order@[l].1 as int));
            }
        }
        vstd::seq_lib::lemma_sorted_unique(ordered, keys.sort_by(leq), leq);
    }
    order
}

/// Applies non-overlapping edits to a source text, back to front.
pub fn apply_edits(input: &str, edits: &[TextEdit]) -> (output: String)
    requires
        edits_fit(bytes_of(input), edit_views(edits@)),
    ensures
        encode_utf8(output@) == applied_text(bytes_of(input), edit_views(edits@)),
{
    let ghost a = bytes_of(input);
    let ghost views = edit_views(edits@);
    let order = application_order(edits);
    let ghost ordered = order@.map_values(|x: (usize, usize)| (x.0 as int, x.1 as int));
    let mut output = input.to_owned();
    let mut bound = crate::text::byte_len(input);
    proof {
        is_char_boundary_start_end_of_seq(a);
        assert(ordered.take(0) =~= Seq::<(int, int)>::empty());
    }
    let mut k: usize = 0;
    while k < order.len()
        invariant
            a == bytes_of(input),
            views == edit_views(edits@),
            edits_fit(a, views),
            ordered == order@.map_values(|x: (usize, usize)| (x.0 as int, x.1 as int)),
            order@.len() == edits@.len(),
            forall|m: int| 0 <= m < order@.len() ==> {
                &&& (#[trigger] order@[m]).1 < edits@.len()
                &&& order@[m].0 == edits@[order@[m].1 as int].range.start
            },
            forall|m: int, l: int| 0 <= m < l < order@.len() ==> applied_before(
                views,
                (#[trigger] order@[m]).1 as int,
                (#[trigger] order@[l]).1 as int,
            ),
            k <= order@.len(),
            encode_utf8(output@) == apply_in_order(a, views, ordered.take(k as int)),
            bound <= encode_utf8(output@).len(),
            bound <= a.len(),
            encode_utf8(output@).subrange(0, bound as int) == a.subrange(0, bound as int),
            is_char_boundary(encode_utf8(output@), bound as int),
            k == 0 ==> bound == a.len(),
            k > 0 ==> bound == order@[k - 1].0,
        decreases order@.len() - k,
    {
        let index = order[k].1;
        let edit = &edits[index];
        let ghost current = encode_utf8(output@);
        let ghost v = views[index as int];
        proof {
            assert(v == edit_view(edits@[index as int]));
            if k > 0 {
                assert(applied_before(views, order@[k - 1].1 as int, index as int));
                assert(order@[k - 1].1 != index);
            }
            assert(v.1 <= bound);
            if v.0 < bound {
                crate::text::lemma_boundary_agrees(current, a, v.0, bound as int);
            }
            if v.1 < bound {
                crate::text::lemma_boundary_agrees(current, a, v.1, bound as int);
            }
        }
        let next = replaced(output.as_str(), edit.range.start, edit.range.end, edit.text.as_str());
        proof {
            let start = v.0;
            let updated = encode_utf8(next@);
            let head = current.subrange(0, start);
            let rest = v.2 + current.subrange(v.1, current.len() as int);
            assert(updated =~= head + rest);
            valid_utf8_split(current, start);
            valid_utf8_split(current, v.1);
            valid_utf8_concat(v.2, current.subrange(v.1, current.len() as int));
            crate::text::lemma_concat_boundary(head, rest);
            assert(updated.subrange(0, start) =~= head);
            assert(head =~= current.subrange(0, bound as int).subrange(0, start));
            assert(a.subrange(0, start) =~= a.subrange(0, bound as int).subrange(0, start));
            let taken = ordered.take(k + 1);
            assert(taken.drop_last() =~= ordered.take(k as int));
            assert(taken.last() == ordered[k as int]);
        }
        output = next;
        bound = edit.range.start;
        k = k + 1;
    }
    proof {
        assert(ordered.take(order@.len() as int) =~= ordered);
    }
    output
}

} // verus!
