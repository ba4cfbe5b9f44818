//! What holds of every scan: the tokens follow the lexemes of the input, a
//! balanced code block is captured as it stands and round-trips, and
//! whitespace inside a token literal and a code block that is never closed
//! are always refused.
//!
//! The statements speak of [`scan_from`]; on ASCII text [`scan`], which is
//! what `tokenize` returns, is `scan_from` at position 0.

use crate::scanner::{
    block_end, lemma_scan_step_advances, literal_end, scan, scan_from, scan_step, tokens_then,
    trimmed, trimmed_back, trimmed_front, whitespace, ScanStep, TokenView, TokenizerErrorView,
};
use vstd::prelude::*;
use vstd::utf8::is_ascii_chars;

verus! {

/// Where the lexemes of `input` from `pos` on begin and end, in the order in
/// which they stand in the input.
pub open spec fn lexeme_spans(input: Seq<char>, pos: int) -> Seq<(int, int)>
    decreases input.len() - pos,
{
    if 0 <= pos < input.len() {
        match scan_step(input, pos) {
            ScanStep::Skip { next } => {
                if pos < next <= input.len() {
                    lexeme_spans(input, next)
                } else {
                    Seq::empty()
                }
            },
            ScanStep::Emit { token, next } => {
                if pos < next <= input.len() {
                    seq![(pos, next)] + lexeme_spans(input, next)
                } else {
                    Seq::empty()
                }
            },
            ScanStep::Fail { error } => Seq::empty(),
        }
    } else {
        Seq::empty()
    }
}

/// Whether scanning that stands at `from` comes to stand at `to` after whole
/// steps, none of which fails.
pub open spec fn reaches(input: Seq<char>, from: int, to: int) -> bool
    decreases to - from,
{
    if from >= to {
        from == to
    } else {
        &&& 0 <= from < input.len()
        &&& match scan_step(input, from) {
            ScanStep::Skip { next } => from < next <= to && reaches(input, next, to),
            ScanStep::Emit { token, next } => from < next <= to && reaches(input, next, to),
            ScanStep::Fail { error } => false,
        }
    }
}

/// Whether `input` holds nothing but whitespace and whole comments from
/// `from` up to `to`.
pub open spec fn blank(input: Seq<char>, from: int, to: int) -> bool
    decreases to - from,
{
    if from >= to {
        from == to
    } else {
        &&& 0 <= from < input.len()
        &&& scan_step(input, from) matches ScanStep::Skip { next }
        &&& from < next <= to
        &&& blank(input, next, to)
    }
}

/// Where the gap in front of the lexeme `k` of `spans` begins, in a scan that
/// began at `pos`: behind the lexeme before it, or at `pos`.
pub open spec fn gap_start(spans: Seq<(int, int)>, pos: int, k: int) -> int {
    if k == 0 {
        pos
    } else {
        spans[k - 1].1
    }
}

/// A scan that succeeds drops no lexeme and keeps their order: token `k` is
/// the token of lexeme `k`, the lexemes stand in the input one behind the
/// other, and what stands in front of, between and behind them is whitespace
/// and comments only.
pub proof fn lemma_tokens_follow_lexemes(input: Seq<char>, pos: int)
    requires
        0 <= pos <= input.len(),
        scan_from(input, pos) is Ok,
    ensures
        ({
            let tokens = scan_from(input, pos)->Ok_0;
            let spans = lexeme_spans(input, pos);
            &&& spans.len() == tokens.len()
            &&& forall|k: int|
                0 <= k < spans.len() ==> {
                    &&& gap_start(spans, pos, k) <= (#[trigger] spans[k]).0 < spans[k].1
                        <= input.len()
                    &&& blank(input, gap_start(spans, pos, k), spans[k].0)
                    &&& scan_step(input, spans[k].0) == (ScanStep::Emit {
                        token: tokens[k],
                        next: spans[k].1,
                    })
                }
            &&& gap_start(spans, pos, spans.len() as int) <= input.len()
            &&& blank(input, gap_start(spans, pos, spans.len() as int), input.len() as int)
        }),
    decreases input.len() - pos,
{
    if pos < input.len() {
        lemma_scan_step_advances(input, pos);
        let tokens = scan_from(input, pos)->Ok_0;
        let spans = lexeme_spans(input, pos);
        match scan_step(input, pos) {
            ScanStep::Skip { next } => {
                lemma_tokens_follow_lexemes(input, next);
                assert forall|k: int| 0 <= k < spans.len() implies {
                    &&& gap_start(spans, pos, k) <= (#[trigger] spans[k]).0 < spans[k].1
                        <= input.len()
                    &&& blank(input, gap_start(spans, pos, k), spans[k].0)
                    &&& scan_step(input, spans[k].0) == (ScanStep::Emit {
                        token: tokens[k],
                        next: spans[k].1,
                    })
                } by {
                    assert(gap_start(spans, next, k) <= spans[k].0);
                    if k > 0 {
                        assert(gap_start(spans, pos, k) == gap_start(spans, next, k));
                    }
                }
            },
            ScanStep::Emit { token, next } => {
                lemma_tokens_follow_lexemes(input, next);
                let rest = lexeme_spans(input, next);
                let rest_tokens = scan_from(input, next)->Ok_0;
                assert(tokens == seq![token] + rest_tokens);
                assert(spans == seq![(pos, next)] + rest);
                assert forall|k: int| 0 <= k < spans.len() implies {
                    &&& gap_start(spans, pos, k) <= (#[trigger] spans[k]).0 < spans[k].1
                        <= input.len()
                    &&& blank(input, gap_start(spans, pos, k), spans[k].0)
                    &&& scan_step(input, spans[k].0) == (ScanStep::Emit {
                        token: tokens[k],
                        next: spans[k].1,
                    })
                } by {
                    if k > 0 {
                        assert(spans[k] == rest[k - 1]);
                        assert(tokens[k] == rest_tokens[k - 1]);
                        assert(gap_start(spans, pos, k) == gap_start(rest, next, k - 1));
                    }
                }
                assert(gap_start(spans, pos, spans.len() as int) == gap_start(
                    rest,
                    next,
                    rest.len() as int,
                ));
            },
            ScanStep::Fail { error } => {},
        }
    }
}

/// An error met at a position that scanning comes to is the error of the
/// whole scan.
pub proof fn lemma_error_surfaces(input: Seq<char>, from: int, to: int)
    requires
        0 <= from,
        to <= input.len(),
        reaches(input, from, to),
        scan_from(input, to) is Err,
    ensures
        scan_from(input, from) == scan_from(input, to),
    decreases to - from,
{
    if from < to {
        lemma_scan_step_advances(input, from);
        match scan_step(input, from) {
            ScanStep::Skip { next } => {
                lemma_reaches_ordered(input, next, to);
                lemma_error_surfaces(input, next, to);
            },
            ScanStep::Emit { token, next } => {
                lemma_reaches_ordered(input, next, to);
                lemma_error_surfaces(input, next, to);
            },
            ScanStep::Fail { error } => {},
        }
    }
}

/// Scanning never comes to stand in front of where it began.
pub proof fn lemma_reaches_ordered(input: Seq<char>, from: int, to: int)
    requires
        reaches(input, from, to),
    ensures
        from <= to,
{
}

/// The braces that `text` opens less those that it closes.
pub open spec fn brace_depth(text: Seq<char>) -> int
    decreases text.len(),
{
    if text.len() == 0 {
        0
    } else if text.last() == '{' {
        brace_depth(text.drop_last()) + 1
    } else if text.last() == '}' {
        brace_depth(text.drop_last()) - 1
    } else {
        brace_depth(text.drop_last())
    }
}

/// Whether each brace that `text` closes was opened in it before, and each
/// that it opens is closed in it.
pub open spec fn balanced(text: Seq<char>) -> bool {
    &&& forall|length: int| 0 <= length <= text.len() ==> brace_depth(#[trigger] text.take(length)) >= 0
    &&& brace_depth(text) == 0
}

/// The reading of a block whose content is balanced and followed by a
/// closing brace stops at that brace, from wherever in the content it stands.
proof fn lemma_block_end_of_balanced(input: Seq<char>, start: int, length: int, read: int)
    requires
        0 <= start,
        0 <= read <= length,
        start + length < input.len(),
        balanced(input.subrange(start, start + length)),
        input[start + length] == '}',
    ensures
        block_end(
            input,
            start + read,
            (1 + brace_depth(input.subrange(start, start + length).take(read))) as nat,
        ) == start + length,
    decreases length - read,
{
    let content = input.subrange(start, start + length);
    if read < length {
        assert(content.take(read + 1).drop_last() == content.take(read));
        assert(content.take(read + 1).last() == input[start + read]);
        assert(brace_depth(content.take(read + 1)) >= 0);
        assert(brace_depth(content.take(read)) >= 0);
        lemma_block_end_of_balanced(input, start, length, read + 1);
    } else {
        assert(content.take(read) == content);
    }
}

/// A code block whose content is balanced is captured as it stands, its
/// inner braces included, less the whitespace at its two ends.
pub proof fn lemma_balanced_block_is_captured(input: Seq<char>, pos: int, length: int)
    requires
        0 <= pos,
        0 <= length,
        pos + length + 1 < input.len(),
        input[pos] == '{',
        balanced(input.subrange(pos + 1, pos + 1 + length)),
        input[pos + 1 + length] == '}',
    ensures
        scan_step(input, pos) == (ScanStep::Emit {
            token: TokenView::StringLiteral(trimmed(input.subrange(pos + 1, pos + 1 + length))),
            next: pos + length + 2,
        }),
{
    let content = input.subrange(pos + 1, pos + 1 + length);
    lemma_block_end_of_balanced(input, pos + 1, length, 0);
    assert(content.take(0) == Seq::<char>::empty());
}

/// Whitespace inside a token literal is refused wherever in the literal it
/// stands: when scanning comes to a double quote at `pos`, and whitespace
/// stands at `at` with no double quote between the two, the scan fails with
/// what the literal holds in front of its first whitespace.
pub proof fn lemma_whitespace_in_token_literal(input: Seq<char>, pos: int, at: int)
    requires
        0 <= pos < at < input.len(),
        reaches(input, 0, pos),
        input[pos] == '"',
        whitespace(input[at]),
        forall|between: int| pos < between < at ==> input[between] != '"',
    ensures
        pos < literal_end(input, pos + 1) <= at,
        whitespace(input[literal_end(input, pos + 1)]),
        scan_from(input, 0) == Err::<Seq<TokenView>, _>(
            TokenizerErrorView::WhitespaceInTokenLiteral(
                input.subrange(pos + 1, literal_end(input, pos + 1)),
            ),
        ),
        is_ascii_chars(input) ==> scan(input) == Err::<Seq<TokenView>, _>(
            TokenizerErrorView::WhitespaceInTokenLiteral(
                input.subrange(pos + 1, literal_end(input, pos + 1)),
            ),
        ),
{
    lemma_literal_stops_at_whitespace(input, pos + 1, at);
    lemma_error_surfaces(input, 0, pos);
}

/// The reading of a token literal that meets no double quote up to a
/// whitespace character stops at whitespace.
proof fn lemma_literal_stops_at_whitespace(input: Seq<char>, from: int, at: int)
    requires
        0 <= from <= at < input.len(),
        whitespace(input[at]),
        forall|between: int| from <= between < at ==> input[between] != '"',
    ensures
        from <= literal_end(input, from) <= at,
        whitespace(input[literal_end(input, from)]),
    decreases at - from,
{
    if from < at && !whitespace(input[from]) {
        lemma_literal_stops_at_whitespace(input, from + 1, at);
    }
}

/// The braces of two texts, one behind the other, add up.
proof fn lemma_brace_depth_adds(left: Seq<char>, right: Seq<char>)
    ensures
        brace_depth(left + right) == brace_depth(left) + brace_depth(right),
    decreases right.len(),
{
    if right.len() == 0 {
        assert(left + right == left);
    } else {
        assert((left + right).drop_last() == left + right.drop_last());
        lemma_brace_depth_adds(left, right.drop_last());
    }
}

/// Whether `text` holds nothing but whitespace.
pub open spec fn all_whitespace(text: Seq<char>) -> bool {
    forall|i: int| 0 <= i < text.len() ==> whitespace(#[trigger] text[i])
}

/// Whitespace opens and closes no brace.
proof fn lemma_whitespace_has_no_braces(text: Seq<char>)
    requires
        all_whitespace(text),
    ensures
        brace_depth(text) == 0,
    decreases text.len(),
{
    if text.len() > 0 {
        assert(whitespace(text[text.len() - 1]));
        lemma_whitespace_has_no_braces(text.drop_last());
    }
}

/// What trimming the front leaves is the text from some position on; in
/// front of it stands whitespace only, and it does not begin with whitespace.
proof fn lemma_trimmed_front_is_a_tail(text: Seq<char>) -> (start: int)
    ensures
        0 <= start <= text.len(),
        trimmed_front(text) == text.subrange(start, text.len() as int),
        all_whitespace(text.take(start)),
        start < text.len() ==> !whitespace(text[start]),
    decreases text.len(),
{
    if text.len() > 0 && whitespace(text[0]) {
        let rest = text.drop_first();
        let inner = lemma_trimmed_front_is_a_tail(rest);
        assert(rest.subrange(inner, rest.len() as int) == text.subrange(
            inner + 1,
            text.len() as int,
        ));
        assert forall|i: int| 0 <= i < inner + 1 implies whitespace(
            #[trigger] text.take(inner + 1)[i],
        ) by {
            if i > 0 {
                assert(text.take(inner + 1)[i] == rest.take(inner)[i - 1]);
            }
        }
        inner + 1
    } else {
        assert(text.subrange(0, text.len() as int) == text);
        0
    }
}

/// What trimming the back leaves is the text up to some position; behind it
/// stands whitespace only, and it does not end with whitespace.
proof fn lemma_trimmed_back_is_a_head(text: Seq<char>) -> (end: int)
    ensures
        0 <= end <= text.len(),
        trimmed_back(text) == text.take(end),
        all_whitespace(text.subrange(end, text.len() as int)),
        end > 0 ==> !whitespace(text[end - 1]),
    decreases text.len(),
{
    if text.len() > 0 && whitespace(text.last()) {
        let rest = text.drop_last();
        let inner = lemma_trimmed_back_is_a_head(rest);
        assert(rest.take(inner) == text.take(inner));
        assert forall|i: int| 0 <= i < text.len() - inner implies whitespace(
            #[trigger] text.subrange(inner, text.len() as int)[i],
        ) by {
            if i < rest.len() - inner {
                assert(text.subrange(inner, text.len() as int)[i] == rest.subrange(
                    inner,
                    rest.len() as int,
                )[i]);
            }
        }
        inner
    } else {
        assert(text.take(text.len() as int) == text);
        text.len() as int
    }
}

/// Trimming text that is trimmed changes nothing.
pub proof fn lemma_trimmed_twice(text: Seq<char>)
    ensures
        trimmed(trimmed(text)) == trimmed(text),
{
    let start = lemma_trimmed_front_is_a_tail(text);
    let tail = trimmed_front(text);
    let end = lemma_trimmed_back_is_a_head(tail);
    let kept = trimmed(text);
    assert(kept == tail.take(end));
    if kept.len() > 0 {
        assert(kept[0] == text[start]);
        assert(kept.last() == tail[end - 1]);
    }
}

/// Trimming balanced text leaves balanced text.
pub proof fn lemma_trimmed_stays_balanced(text: Seq<char>)
    requires
        balanced(text),
    ensures
        balanced(trimmed(text)),
{
    let start = lemma_trimmed_front_is_a_tail(text);
    let tail = trimmed_front(text);
    let end = lemma_trimmed_back_is_a_head(tail);
    let kept = trimmed(text);
    assert(kept == text.subrange(start, start + end));
    lemma_whitespace_has_no_braces(text.take(start));
    lemma_whitespace_has_no_braces(tail.subrange(end, tail.len() as int));
    assert forall|length: int| 0 <= length <= kept.len() implies brace_depth(
        #[trigger] kept.take(length),
    ) >= 0 by {
        assert(text.take(start + length) == text.take(start) + kept.take(length));
        lemma_brace_depth_adds(text.take(start), kept.take(length));
    }
    assert(text == text.take(start + end) + tail.subrange(end, tail.len() as int));
    lemma_brace_depth_adds(text.take(start + end), tail.subrange(end, tail.len() as int));
    assert(text.take(start + end) == text.take(start) + kept);
    lemma_brace_depth_adds(text.take(start), kept);
}

/// `content` between braces.
pub open spec fn braced(content: Seq<char>) -> Seq<char> {
    seq!['{'] + content + seq!['}']
}

/// A code block round-trips: balanced content between braces gives one
/// token, the content less the whitespace at its two ends; and the text of
/// that token between braces gives the same token again.
pub proof fn lemma_block_round_trips(content: Seq<char>)
    requires
        balanced(content),
    ensures
        scan_from(braced(content), 0) == Ok::<_, TokenizerErrorView>(
            seq![TokenView::StringLiteral(trimmed(content))],
        ),
        scan_from(braced(trimmed(content)), 0) == scan_from(braced(content), 0),
        is_ascii_chars(content) ==> {
            &&& scan(braced(content)) == scan_from(braced(content), 0)
            &&& scan(braced(trimmed(content))) == scan_from(braced(content), 0)
        },
{
    if is_ascii_chars(content) {
        lemma_trimmed_front_is_a_tail(content);
        lemma_trimmed_back_is_a_head(trimmed_front(content));
        assert(is_ascii_chars(trimmed(content)));
        assert(is_ascii_chars(braced(content)));
        assert(is_ascii_chars(braced(trimmed(content))));
    }
    lemma_wrapped_block(content);
    lemma_trimmed_stays_balanced(content);
    lemma_wrapped_block(trimmed(content));
    lemma_trimmed_twice(content);
}

/// Balanced content between braces gives one token: the content less the
/// whitespace at its two ends.
proof fn lemma_wrapped_block(content: Seq<char>)
    requires
        balanced(content),
    ensures
        scan_from(braced(content), 0) == Ok::<_, TokenizerErrorView>(
            seq![TokenView::StringLiteral(trimmed(content))],
        ),
{
    let input = braced(content);
    let length = content.len() as int;
    assert(input.subrange(1, 1 + length) == content);
    lemma_balanced_block_is_captured(input, 0, length);
    let token = TokenView::StringLiteral(trimmed(content));
    assert(scan_from(input, length + 2) == Ok::<_, TokenizerErrorView>(Seq::<TokenView>::empty()));
    assert(seq![token] + Seq::<TokenView>::empty() == seq![token]);
    assert(scan_from(input, 0) == tokens_then(seq![token], scan_from(input, length + 2)));
}

/// The reading of a code block that meets no closing brace goes on to the
/// end of the input.
proof fn lemma_block_without_closing_brace(input: Seq<char>, from: int, depth: nat)
    requires
        0 <= from <= input.len(),
        forall|behind: int| from <= behind < input.len() ==> input[behind] != '}',
    ensures
        block_end(input, from, depth) == input.len(),
    decreases input.len() - from,
{
    if from < input.len() {
        if input[from] == '{' {
            lemma_block_without_closing_brace(input, from + 1, depth + 1);
        } else {
            lemma_block_without_closing_brace(input, from + 1, depth);
        }
    }
}

/// A code block that is never closed is refused: when scanning comes to an
/// opening brace at `pos` and no closing brace stands behind it, the scan
/// fails with all that stands behind the brace.
pub proof fn lemma_unclosed_block(input: Seq<char>, pos: int)
    requires
        0 <= pos < input.len(),
        reaches(input, 0, pos),
        input[pos] == '{',
        forall|behind: int| pos < behind < input.len() ==> input[behind] != '}',
    ensures
        scan_from(input, 0) == Err::<Seq<TokenView>, _>(
            TokenizerErrorView::UnclosedStringLiteral(
                input.subrange(pos + 1, input.len() as int),
            ),
        ),
        is_ascii_chars(input) ==> scan(input) == Err::<Seq<TokenView>, _>(
            TokenizerErrorView::UnclosedStringLiteral(
                input.subrange(pos + 1, input.len() as int),
            ),
        ),
{
    lemma_block_without_closing_brace(input, pos + 1, 1);
    lemma_error_surfaces(input, 0, pos);
}

} // verus!
