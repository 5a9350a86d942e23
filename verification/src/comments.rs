//! Comment ownership.
//!
//! The canonical formatter reorders statements, so every comment needs an
//! owner that carries it along.  Ownership is decided by syntax alone:
//!
//! - a block comment before the first statement is the module header,
//!   owned by the file; anywhere else it is misplaced;
//! - a line comment on the line a statement ends on, after it, trails that
//!   statement;
//! - a line comment inside a statement's range is interior: it travels in
//!   the statement's own text;
//! - any other line comment leads the next statement below it, even across
//!   blank lines, and with no statement below it is the module footer.

use std::ops::Range;

use vstd::prelude::*;

use crate::ast::{Source, AST};
use crate::resolver::copy_range;
use crate::text::bytes_of;

verus! {

/// Where every comment of a module lives.  `leading` and `trailing` run
/// parallel to the module's top-level statements.
#[derive(Debug, Clone, PartialEq, Eq)]
pub struct CommentMap {
    pub header: Vec<Range<usize>>,
    pub footer: Vec<Range<usize>>,
    pub leading: Vec<Vec<Range<usize>>>,
    pub trailing: Vec<Option<Range<usize>>>,
}

impl Default for CommentMap {
    fn default() -> (map: Self)
        ensures
            map.header@.len() == 0,
            map.footer@.len() == 0,
            map.leading@.len() == 0,
            map.trailing@.len() == 0,
    {
        CommentMap { header: Vec::new(), footer: Vec::new(), leading: Vec::new(), trailing: Vec::new() }
    }
}

/// Who owns a comment.
#[derive(Debug, Clone, Copy, PartialEq, Eq, Structural)]
pub enum CommentOwner {
    /// The module header: a block comment before the first statement.
    Header,
    /// A block comment anywhere else, which is an error.
    Misplaced,
    /// Inside a statement's own text.
    Interior,
    /// After the statement of this index, on the line it ends on.
    Trailing(usize),
    /// Before the statement of this index.
    Leading(usize),
    /// After the last statement.
    Footer,
}

/// `a` starts before `b`, or at the same byte and ends before it.
pub open spec fn range_less(a: Range<usize>, b: Range<usize>) -> bool {
    a.start < b.start || (a.start == b.start && a.end < b.end)
}

/// Ranges in strictly increasing order, so without repetition.
pub open spec fn strictly_sorted(ranges: Seq<Range<usize>>) -> bool {
    forall|i: int, j: int| 0 <= i < j < ranges.len() ==> range_less(#[trigger] ranges[i], #[trigger] ranges[j])
}

/// The range lies in the text, from and to character boundaries.
pub open spec fn range_in(bytes: Seq<u8>, range: Range<usize>) -> bool {
    &&& range.start <= range.end <= bytes.len()
    &&& vstd::utf8::is_char_boundary(bytes, range.start as int)
    &&& vstd::utf8::is_char_boundary(bytes, range.end as int)
}

/// The comment is a block comment: it starts with `/*`.
pub open spec fn block_comment(bytes: Seq<u8>, comment: Range<usize>) -> bool {
    comment.end - comment.start >= 2 && bytes[comment.start as int] == 0x2f && bytes[comment.start + 1] == 0x2a
}

/// The comment ends before the first statement, or there is none.
pub open spec fn header_position(spans: Seq<Range<usize>>, comment: Range<usize>) -> bool {
    spans.len() == 0 || comment.end <= spans[0].start
}

/// Some byte of `from..to` breaks a line.
pub open spec fn line_break_between(bytes: Seq<u8>, from: int, to: int) -> bool {
    exists|k: int| from <= k < to && (#[trigger] bytes[k] == 0x0a || bytes[k] == 0x0d)
}

/// The comment lies strictly inside some statement.
pub open spec fn interior(spans: Seq<Range<usize>>, comment: Range<usize>) -> bool {
    exists|i: int| 0 <= i < spans.len() && (#[trigger] spans[i]).start < comment.start && comment.end <= spans[i].end
}

/// The comment follows the statement spanning `span` on the line it ends on.
pub open spec fn trails(bytes: Seq<u8>, span: Range<usize>, comment: Range<usize>) -> bool {
    span.end <= comment.start && !line_break_between(bytes, span.end as int, comment.start as int)
}

/// The first statement from `from` on that the comment trails.
pub open spec fn first_trailed(bytes: Seq<u8>, spans: Seq<Range<usize>>, comment: Range<usize>, from: int) -> Option<int>
    decreases spans.len() - from,
{
    if from < 0 || from >= spans.len() {
        None
    } else if trails(bytes, spans[from], comment) {
        Some(from)
    } else {
        first_trailed(bytes, spans, comment, from + 1)
    }
}

/// The first statement from `from` on that starts after the comment.
pub open spec fn first_led(spans: Seq<Range<usize>>, comment: Range<usize>, from: int) -> Option<int>
    decreases spans.len() - from,
{
    if from < 0 || from >= spans.len() {
        None
    } else if comment.end <= spans[from].start {
        Some(from)
    } else {
        first_led(spans, comment, from + 1)
    }
}

/// Who owns the comment, among statements spanning `spans`.
pub open spec fn owner_of(bytes: Seq<u8>, spans: Seq<Range<usize>>, comment: Range<usize>) -> CommentOwner {
    if block_comment(bytes, comment) {
        if header_position(spans, comment) {
            CommentOwner::Header
        } else {
            CommentOwner::Misplaced
        }
    } else if interior(spans, comment) {
        CommentOwner::Interior
    } else {
        match first_trailed(bytes, spans, comment, 0) {
            Some(i) => CommentOwner::Trailing(i as usize),
            None => match first_led(spans, comment, 0) {
                Some(i) => CommentOwner::Leading(i as usize),
                None => CommentOwner::Footer,
            },
        }
    }
}

/// The comments of `comments` that `owner` owns, in order.
pub open spec fn owned_by(
    bytes: Seq<u8>,
    spans: Seq<Range<usize>>,
    comments: Seq<Range<usize>>,
    owner: CommentOwner,
) -> Seq<Range<usize>>
    decreases comments.len(),
{
    if comments.len() == 0 {
        Seq::empty()
    } else {
        let rest = owned_by(bytes, spans, comments.drop_last(), owner);
        if owner_of(bytes, spans, comments.last()) == owner {
            rest.push(comments.last())
        } else {
            rest
        }
    }
}

/// The ranges of the statements of a module.
pub open spec fn spans_of(source: Source<'_>) -> Seq<Range<usize>> {
    source.statements@.map_values(|statement: crate::ast::Statement<'_>| statement.span_value())
}

/// The comment list in order, each comment once.  The lexer records
/// comments while reading ahead too, so the list it keeps can hold
/// repetitions and be out of order.
pub fn normalized(comments: &[Range<usize>]) -> (sorted: Vec<Range<usize>>)
    ensures
        strictly_sorted(sorted@),
        forall|range: Range<usize>| sorted@.contains(range) <==> comments@.contains(range),
{
    let mut sorted: Vec<Range<usize>> = Vec::new();
    let mut k: usize = 0;
    while k < comments.len()
        invariant
            k <= comments@.len(),
            strictly_sorted(sorted@),
            forall|range: Range<usize>| sorted@.contains(range) <==> comments@.subrange(0, k as int).contains(range),
        decreases comments@.len() - k,
    {
        let comment = copy_range(&comments[k]);
        let mut p: usize = 0;
        while p < sorted.len() && (sorted[p].start < comment.start || (sorted[p].start == comment.start
            && sorted[p].end < comment.end))
            invariant
                p <= sorted@.len(),
                forall|i: int| 0 <= i < p ==> range_less(#[trigger] sorted@[i], comment),
            decreases sorted@.len() - p,
        {
            p += 1;
        }
        let ghost before = sorted@;
        proof {
            assert(comments@.subrange(0, k + 1) =~= comments@.subrange(0, k as int).push(comments@[k as int]));
        }
        if p < sorted.len() && sorted[p].start == comment.start && sorted[p].end == comment.end {
            proof {
                assert(sorted@[p as int] == comment);
                assert forall|range: Range<usize>| sorted@.contains(range) <==> comments@.subrange(0, k + 1).contains(range) by {
                    assert(comments@.subrange(0, k + 1)[k as int] == comment);
                    if range == comment {
                        assert(sorted@[p as int] == range);
                    }
                    if sorted@.contains(range) {
                        assert(comments@.subrange(0, k as int).contains(range));
                        let w = choose|w: int| 0 <= w < k && #[trigger] comments@.subrange(0, k as int)[w] == range;
                        assert(comments@.subrange(0, k + 1)[w] == range);
                    }
                    if comments@.subrange(0, k + 1).contains(range) && range != comment {
                        let w = choose|w: int| 0 <= w < k + 1 && #[trigger] comments@.subrange(0, k + 1)[w] == range;
                        assert(comments@.subrange(0, k as int)[w] == range);
                    }
                }
            }
        } else {
            sorted.insert(p, comment);
            proof {
                assert forall|i: int, j: int| 0 <= i < j < sorted@.len() implies range_less(
                    #[trigger] sorted@[i],
                    #[trigger] sorted@[j],
                ) by {
                    if j < p {
                        assert(sorted@[i] == before[i] && sorted@[j] == before[j]);
                    } else if j == p {
                        assert(sorted@[i] == before[i]);
                    } else if i == p {
                        assert(sorted@[j] == before[j - 1]);
                        assert(range_less(comment, before[p as int]));
                        if j - 1 > p {
                            assert(range_less(before[p as int], before[j - 1]));
                        }
                    } else if i < p {
                        assert(sorted@[i] == before[i] && sorted@[j] == before[j - 1]);
                    } else {
                        assert(sorted@[i] == before[i - 1] && sorted@[j] == before[j - 1]);
                    }
                }
                assert forall|range: Range<usize>| sorted@.contains(range) <==> comments@.subrange(0, k + 1).contains(range) by {
                    if sorted@.contains(range) {
                        let w = choose|w: int| 0 <= w < sorted@.len() && #[trigger] sorted@[w] == range;
                        if w < p {
                            assert(before[w] == range);
                        } else if w > p {
                            assert(before[w - 1] == range);
                        }
                    }
                    if before.contains(range) {
                        let w = choose|w: int| 0 <= w < before.len() && #[trigger] before[w] == range;
                        if w < p {
                            assert(sorted@[w] == range);
                        } else {
                            assert(sorted@[w + 1] == range);
                        }
                    }
                    if range == comment {
                        assert(sorted@[p as int] == range);
                        assert(comments@.subrange(0, k + 1)[k as int] == comment);
                    }
                    if before.contains(range) {
                        assert(comments@.subrange(0, k as int).contains(range));
                        let w = choose|w: int| 0 <= w < k && #[trigger] comments@.subrange(0, k as int)[w] == range;
                        assert(comments@.subrange(0, k + 1)[w] == range);
                    }
                    if comments@.subrange(0, k + 1).contains(range) && range != comment {
                        let w = choose|w: int| 0 <= w < k + 1 && #[trigger] comments@.subrange(0, k + 1)[w] == range;
                        assert(comments@.subrange(0, k as int)[w] == range);
                    }
                }
            }
        }
        k += 1;
    }
    proof {
        assert(comments@.subrange(0, comments@.len() as int) =~= comments@);
    }
    sorted
}

/// The range of every top-level statement, in order.
pub fn statement_spans(source: &Source<'_>) -> (spans: Vec<Range<usize>>)
    ensures
        spans@ == spans_of(*source),
{
    let mut spans: Vec<Range<usize>> = Vec::new();
    let mut i: usize = 0;
    while i < source.statements.len()
        invariant
            i <= source.statements@.len(),
            spans@ =~= spans_of(*source).subrange(0, i as int),
        decreases source.statements@.len() - i,
    {
        spans.push(source.statements[i].span());
        i += 1;
    }
    spans
}

/// Whether the comment starts with `/*`.
pub fn is_block(text: &str, comment: &Range<usize>) -> (block: bool)
    requires
        range_in(bytes_of(text), *comment),
    ensures
        block == block_comment(bytes_of(text), *comment),
{
    let bytes = text.as_bytes();
    comment.end - comment.start >= 2 && bytes[comment.start] == 0x2f && bytes[comment.start + 1] == 0x2a
}

/// Whether the comment ends before the first statement, or there is none.
pub fn in_header_position(spans: &[Range<usize>], comment: &Range<usize>) -> (header: bool)
    ensures
        header == header_position(spans@, *comment),
{
    spans.len() == 0 || comment.end <= spans[0].start
}

/// Whether some byte of `from..to` breaks a line.
fn breaks_line(text: &str, from: usize, to: usize) -> (broken: bool)
    requires
        from <= to <= bytes_of(text).len(),
    ensures
        broken == line_break_between(bytes_of(text), from as int, to as int),
{
    let bytes = text.as_bytes();
    let mut k = from;
    while k < to
        invariant
            from <= k <= to,
            to <= bytes@.len(),
            bytes@ == bytes_of(text),
            forall|m: int| from <= m < k ==> !(#[trigger] bytes@[m] == 0x0a || bytes@[m] == 0x0d),
        decreases to - k,
    {
        if bytes[k] == 0x0a || bytes[k] == 0x0d {
            return true;
        }
        k += 1;
    }
    false
}

/// Who owns the comment.
fn owner(text: &str, spans: &Vec<Range<usize>>, comment: &Range<usize>) -> (owner: CommentOwner)
    requires
        range_in(bytes_of(text), *comment),
        forall|i: int| 0 <= i < spans@.len() ==> range_in(bytes_of(text), #[trigger] spans@[i]),
    ensures
        owner == owner_of(bytes_of(text), spans@, *comment),
{
    let ghost bytes = bytes_of(text);
    if is_block(text, comment) {
        return if in_header_position(spans.as_slice(), comment) {
            CommentOwner::Header
        } else {
            CommentOwner::Misplaced
        };
    }
    let mut i: usize = 0;
    while i < spans.len()
        invariant
            i <= spans@.len(),
            !block_comment(bytes, *comment),
            bytes == bytes_of(text),
            forall|j: int| 0 <= j < i ==> !((#[trigger] spans@[j]).start < comment.start && comment.end <= spans@[j].end),
        decreases spans@.len() - i,
    {
        if spans[i].start < comment.start && comment.end <= spans[i].end {
            return CommentOwner::Interior;
        }
        i += 1;
    }
    let mut i: usize = 0;
    while i < spans.len()
        invariant
            i <= spans@.len(),
            bytes == bytes_of(text),
            range_in(bytes, *comment),
            forall|j: int| 0 <= j < spans@.len() ==> range_in(bytes, #[trigger] spans@[j]),
            !block_comment(bytes, *comment),
            !interior(spans@, *comment),
            first_trailed(bytes, spans@, *comment, 0) == first_trailed(bytes, spans@, *comment, i as int),
        decreases spans@.len() - i,
    {
        if spans[i].end <= comment.start && !breaks_line(text, spans[i].end, comment.start) {
            return CommentOwner::Trailing(i);
        }
        i += 1;
    }
    let mut i: usize = 0;
    while i < spans.len()
        invariant
            i <= spans@.len(),
            bytes == bytes_of(text),
            !block_comment(bytes, *comment),
            !interior(spans@, *comment),
            first_trailed(bytes, spans@, *comment, 0) is None,
            first_led(spans@, *comment, 0) == first_led(spans@, *comment, i as int),
        decreases spans@.len() - i,
    {
        if comment.end <= spans[i].start {
            return CommentOwner::Leading(i);
        }
        i += 1;
    }
    CommentOwner::Footer
}

/// Attaches every recorded comment to its owner.  Misplaced block comments
/// attach nowhere; [`misplaced_block_comments`] reports them.  A statement
/// keeps the first comment that trails it.
pub fn attach_comments(text: &str, source: &Source<'_>, comments: &[Range<usize>]) -> (map: CommentMap)
    requires
        forall|i: int| 0 <= i < comments@.len() ==> range_in(bytes_of(text), #[trigger] comments@[i]),
        forall|i: int| 0 <= i < source.statements@.len() ==> range_in(bytes_of(text), (#[trigger] source.statements@[i]).span_value()),
    ensures
        exists|sorted: Seq<Range<usize>>|
            {
                &&& strictly_sorted(sorted)
                &&& forall|range: Range<usize>| sorted.contains(range) <==> comments@.contains(range)
                &&& map.header@ == owned_by(bytes_of(text), spans_of(*source), sorted, CommentOwner::Header)
                &&& map.footer@ == owned_by(bytes_of(text), spans_of(*source), sorted, CommentOwner::Footer)
                &&& map.leading@.len() == source.statements@.len()
                &&& map.trailing@.len() == source.statements@.len()
                &&& forall|i: int|
                    0 <= i < source.statements@.len() ==> (#[trigger] map.leading@[i])@ == owned_by(
                        bytes_of(text),
                        spans_of(*source),
                        sorted,
                        CommentOwner::Leading(i as usize),
                    )
                &&& forall|i: int|
                    0 <= i < source.statements@.len() ==> #[trigger] map.trailing@[i] == first_of(
                        owned_by(bytes_of(text), spans_of(*source), sorted, CommentOwner::Trailing(i as usize)),
                    )
            },
{
    let ghost bytes = bytes_of(text);
    let spans = statement_spans(source);
    let sorted = normalized(comments);
    let n = spans.len();
    let mut leading: Vec<Vec<Range<usize>>> = Vec::new();
    let mut trailing: Vec<Option<Range<usize>>> = Vec::new();
    let mut s: usize = 0;
    while s < n
        invariant
            s <= n,
            n == spans@.len(),
            leading@.len() == s,
            trailing@.len() == s,
            forall|i: int| 0 <= i < s ==> (#[trigger] leading@[i])@.len() == 0,
            forall|i: int| 0 <= i < s ==> #[trigger] trailing@[i] is None,
        decreases n - s,
    {
        leading.push(Vec::new());
        trailing.push(None);
        s += 1;
    }
    let mut map = CommentMap { header: Vec::new(), footer: Vec::new(), leading, trailing };
    proof {
        assert forall|c: int| 0 <= c < sorted@.len() implies range_in(bytes, #[trigger] sorted@[c]) by {
            assert(sorted@.contains(sorted@[c]));
            let w = choose|w: int| 0 <= w < comments@.len() && #[trigger] comments@[w] == sorted@[c];
        }
        assert forall|i: int| 0 <= i < spans@.len() implies range_in(bytes, #[trigger] spans@[i]) by {
            assert(spans@[i] == source.statements@[i].span_value());
        }
        assert(sorted@.subrange(0, 0) =~= Seq::<Range<usize>>::empty());
    }
    let mut c: usize = 0;
    while c < sorted.len()
        invariant
            c <= sorted@.len(),
            bytes == bytes_of(text),
            n == spans@.len(),
            spans@ == spans_of(*source),
            forall|k: int| 0 <= k < sorted@.len() ==> range_in(bytes, #[trigger] sorted@[k]),
            forall|i: int| 0 <= i < spans@.len() ==> range_in(bytes, #[trigger] spans@[i]),
            map.leading@.len() == n,
            map.trailing@.len() == n,
            map.header@ == owned_by(bytes, spans@, sorted@.subrange(0, c as int), CommentOwner::Header),
            map.footer@ == owned_by(bytes, spans@, sorted@.subrange(0, c as int), CommentOwner::Footer),
            forall|i: int|
                0 <= i < n ==> (#[trigger] map.leading@[i])@ == owned_by(
                    bytes,
                    spans@,
                    sorted@.subrange(0, c as int),
                    CommentOwner::Leading(i as usize),
                ),
            forall|i: int|
                0 <= i < n ==> #[trigger] map.trailing@[i] == first_of(
                    owned_by(bytes, spans@, sorted@.subrange(0, c as int), CommentOwner::Trailing(i as usize)),
                ),
        decreases sorted@.len() - c,
    {
        let comment = copy_range(&sorted[c]);
        let found = owner(text, &spans, &comment);
        let ghost prefix = sorted@.subrange(0, c as int);
        let ghost next = sorted@.subrange(0, c + 1);
        proof {
            assert(next.drop_last() =~= prefix);
            assert(next.last() == comment);
        }
        let ghost old_map_leading = map.leading@;
        let ghost old_map_trailing = map.trailing@;
        match found {
            CommentOwner::Header => {
                map.header.push(comment);
            },
            CommentOwner::Footer => {
                map.footer.push(comment);
            },
            CommentOwner::Leading(index) => {
                proof {
                    lemma_first_led_range(spans@, comment, 0);
                }
                map.leading[index].push(comment);
            },
            CommentOwner::Trailing(index) => {
                proof {
                    lemma_first_trailed_range(bytes, spans@, comment, 0);
                }
                if map.trailing[index].is_none() {
                    map.trailing.set(index, Some(comment));
                }
            },
            CommentOwner::Misplaced | CommentOwner::Interior => {},
        }
        proof {
            assert forall|i: int|
                0 <= i < n implies (#[trigger] map.leading@[i])@ == owned_by(
                bytes,
                spans@,
                next,
                CommentOwner::Leading(i as usize),
            ) by {
                if found != CommentOwner::Leading(i as usize) {
                    assert(map.leading@[i] == old_map_leading[i]);
                }
            }
            assert forall|i: int|
                0 <= i < n implies #[trigger] map.trailing@[i] == first_of(
                owned_by(bytes, spans@, next, CommentOwner::Trailing(i as usize)),
            ) by {
                if found == CommentOwner::Trailing(i as usize) {
                    lemma_first_of_push(owned_by(bytes, spans@, prefix, CommentOwner::Trailing(i as usize)), comment);
                } else {
                    assert(map.trailing@[i] == old_map_trailing[i]);
                }
            }
        }
        c += 1;
    }
    proof {
        assert(sorted@.subrange(0, sorted@.len() as int) =~= sorted@);
    }
    map
}

/// The first of a sequence of ranges, if any.
pub open spec fn first_of(ranges: Seq<Range<usize>>) -> Option<Range<usize>> {
    if ranges.len() == 0 {
        None
    } else {
        Some(ranges[0])
    }
}

proof fn lemma_first_of_push(ranges: Seq<Range<usize>>, range: Range<usize>)
    ensures
        first_of(ranges.push(range)) == if ranges.len() == 0 {
            Some(range)
        } else {
            first_of(ranges)
        },
{
    if ranges.len() > 0 {
        assert(ranges.push(range)[0] == ranges[0]);
    }
}

proof fn lemma_first_trailed_range(bytes: Seq<u8>, spans: Seq<Range<usize>>, comment: Range<usize>, from: int)
    ensures
        first_trailed(bytes, spans, comment, from) matches Some(i) ==> from <= i < spans.len(),
    decreases spans.len() - from,
{
    if 0 <= from < spans.len() {
        lemma_first_trailed_range(bytes, spans, comment, from + 1);
    }
}

proof fn lemma_first_led_range(spans: Seq<Range<usize>>, comment: Range<usize>, from: int)
    ensures
        first_led(spans, comment, from) matches Some(i) ==> from <= i < spans.len(),
    decreases spans.len() - from,
{
    if 0 <= from < spans.len() {
        lemma_first_led_range(spans, comment, from + 1);
    }
}

/// The block comments that are not in header position, in order, each
/// once: everywhere but before the first statement they are an error.
pub fn misplaced_block_comments(text: &str, source: &Source<'_>, comments: &[Range<usize>]) -> (misplaced: Vec<Range<usize>>)
    requires
        forall|i: int| 0 <= i < comments@.len() ==> range_in(bytes_of(text), #[trigger] comments@[i]),
        forall|i: int| 0 <= i < source.statements@.len() ==> range_in(bytes_of(text), (#[trigger] source.statements@[i]).span_value()),
    ensures
        exists|sorted: Seq<Range<usize>>|
            {
                &&& strictly_sorted(sorted)
                &&& forall|range: Range<usize>| sorted.contains(range) <==> comments@.contains(range)
                &&& misplaced@ == owned_by(bytes_of(text), spans_of(*source), sorted, CommentOwner::Misplaced)
            },
{
    let ghost bytes = bytes_of(text);
    let spans = statement_spans(source);
    let sorted = normalized(comments);
    let mut misplaced: Vec<Range<usize>> = Vec::new();
    proof {
        assert forall|c: int| 0 <= c < sorted@.len() implies range_in(bytes, #[trigger] sorted@[c]) by {
            assert(sorted@.contains(sorted@[c]));
            let w = choose|w: int| 0 <= w < comments@.len() && #[trigger] comments@[w] == sorted@[c];
        }
        assert(sorted@.subrange(0, 0) =~= Seq::<Range<usize>>::empty());
    }
    let mut c: usize = 0;
    while c < sorted.len()
        invariant
            c <= sorted@.len(),
            bytes == bytes_of(text),
            spans@ == spans_of(*source),
            forall|k: int| 0 <= k < sorted@.len() ==> range_in(bytes, #[trigger] sorted@[k]),
            misplaced@ == owned_by(bytes, spans@, sorted@.subrange(0, c as int), CommentOwner::Misplaced),
        decreases sorted@.len() - c,
    {
        let comment = copy_range(&sorted[c]);
        proof {
            assert(sorted@.subrange(0, c + 1).drop_last() =~= sorted@.subrange(0, c as int));
        }
        if is_block(text, &comment) && !in_header_position(spans.as_slice(), &comment) {
            misplaced.push(comment);
        }
        c += 1;
    }
    proof {
        assert(sorted@.subrange(0, sorted@.len() as int) =~= sorted@);
    }
    misplaced
}

} // verus!
