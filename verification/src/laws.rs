//! Laws of the scan model, proved once and for all sources: the shape of the
//! token sequence (one trailing `Eof` and nothing else), lexemes being the
//! exact substrings of the source at disjoint spans in increasing source
//! order, literals consistent with their lexemes, line numbers non-decreasing
//! in source order, at most one unterminated-string error, and determinism.

use vstd::prelude::*;

use crate::diagnostics::{LexErrorKind, LexErrorModel};
use crate::scan_model::{
    comment_end, comparison_kinds, eof_model, ident_end, identifier_kind, is_alpha_char,
    is_digit_char, lemma_comment_end_bounds, lemma_ident_end_bounds, lemma_number_end_bounds,
    lemma_quote_end_bounds, line_after, next_line, number_end, quote_end, scan_from, scan_model,
    single_char_kind, token_model, with_error, with_token, ScanOutput,
};
use crate::token::{TokenModel, TokenType};

verus! {

/// `lex` occurs somewhere in `src` as a contiguous run of characters.
pub open spec fn is_source_substring(src: Seq<char>, lex: Seq<char>) -> bool {
    exists|j: int|
        0 <= j && j + lex.len() <= src.len() && lex == #[trigger] src.subrange(
            j,
            j + lex.len() as int,
        )
}

/// How a token's `literal` relates to its `lexeme`: a String token carries
/// the content strictly between its delimiting quotes, a Number token the
/// exact numeric substring, and no other token carries a literal.
pub open spec fn literal_consistent(t: TokenModel) -> bool {
    match t.kind {
        TokenType::String => t.literal is Some && t.lexeme == seq!['"'] + t.literal->0
            + seq!['"'],
        TokenType::Number => t.literal == Some(t.lexeme),
        _ => t.literal is None,
    }
}

/// The inductive invariant of `scan_from(src, i, line)`: the token sequence
/// is non-empty and its last element is the one and only `Eof` token, with an
/// empty lexeme and no literal; every lexeme is an exact substring of the
/// source; every literal is consistent with its lexeme; token lines start at
/// `line` and never decrease; and an unterminated-string error can only stand
/// last among the errors.
pub open spec fn scan_shape(src: Seq<char>, out: ScanOutput, line: nat) -> bool {
    &&& out.tokens.len() >= 1
    &&& out.tokens.last().kind == TokenType::Eof
    &&& out.tokens.last().lexeme == Seq::<char>::empty()
    &&& out.tokens.last().literal is None
    &&& forall|k: int|
        0 <= k < out.tokens.len() - 1 ==> (#[trigger] out.tokens[k]).kind != TokenType::Eof
    &&& forall|k: int|
        0 <= k < out.tokens.len() ==> is_source_substring(
            src,
            (#[trigger] out.tokens[k]).lexeme,
        )
    &&& forall|k: int| 0 <= k < out.tokens.len() ==> literal_consistent(#[trigger] out.tokens[k])
    &&& forall|k: int| 0 <= k < out.tokens.len() ==> line <= (#[trigger] out.tokens[k]).line
    &&& forall|k1: int, k2: int|
        0 <= k1 <= k2 < out.tokens.len() ==> (#[trigger] out.tokens[k1]).line <= (
        #[trigger] out.tokens[k2]).line
    &&& forall|k: int|
        0 <= k < out.errors.len() && (#[trigger] out.errors[k]).kind
            == LexErrorKind::UnterminatedString ==> k == out.errors.len() - 1
}

proof fn lemma_empty_is_substring(src: Seq<char>)
    ensures
        is_source_substring(src, Seq::<char>::empty()),
{
    let lex = Seq::<char>::empty();
    assert(lex == src.subrange(0, 0 + lex.len() as int));
}

proof fn lemma_subrange_is_substring(src: Seq<char>, a: int, b: int)
    requires
        0 <= a <= b <= src.len(),
    ensures
        is_source_substring(src, src.subrange(a, b)),
{
    let lex = src.subrange(a, b);
    assert(lex == src.subrange(a, a + lex.len() as int));
}

/// The line counter never runs backwards while characters are consumed.
proof fn lemma_line_after_monotone(src: Seq<char>, from: int, to: int, line: nat)
    ensures
        line <= line_after(src, from, to, line),
    decreases to - from,
{
    if from < to {
        let first: nat = if 0 <= from < src.len() && src[from] == '\n' {
            next_line(line)
        } else {
            line
        };
        lemma_line_after_monotone(src, from + 1, to, first);
    }
}

/// Prepending one non-`Eof` token at line `line`, in front of a remainder
/// whose lines start no earlier, preserves the shape.
proof fn lemma_shape_with_token(
    src: Seq<char>,
    t: TokenModel,
    rest: ScanOutput,
    line: nat,
    line2: nat,
)
    requires
        scan_shape(src, rest, line2),
        t.kind != TokenType::Eof,
        is_source_substring(src, t.lexeme),
        literal_consistent(t),
        t.line == line,
        line <= line2,
    ensures
        scan_shape(src, with_token(t, rest), line),
{
    let out = with_token(t, rest);
    assert(out.tokens.last() == rest.tokens.last());
    assert forall|k: int| 0 <= k < out.tokens.len() - 1 implies (#[trigger] out.tokens[k]).kind
        != TokenType::Eof by {
        if k > 0 {
            assert(out.tokens[k] == rest.tokens[k - 1]);
        }
    }
    assert forall|k: int| 0 <= k < out.tokens.len() implies is_source_substring(
        src,
        (#[trigger] out.tokens[k]).lexeme,
    ) by {
        if k > 0 {
            assert(out.tokens[k] == rest.tokens[k - 1]);
        }
    }
    assert forall|k: int| 0 <= k < out.tokens.len() implies literal_consistent(
        #[trigger] out.tokens[k],
    ) by {
        if k > 0 {
            assert(out.tokens[k] == rest.tokens[k - 1]);
        }
    }
    assert forall|k: int| 0 <= k < out.tokens.len() implies line <= (
    #[trigger] out.tokens[k]).line by {
        if k > 0 {
            assert(out.tokens[k] == rest.tokens[k - 1]);
        }
    }
    assert forall|k1: int, k2: int| 0 <= k1 <= k2 < out.tokens.len() implies (
    #[trigger] out.tokens[k1]).line <= (#[trigger] out.tokens[k2]).line by {
        if k1 > 0 {
            assert(out.tokens[k1] == rest.tokens[k1 - 1]);
            assert(out.tokens[k2] == rest.tokens[k2 - 1]);
        } else if k2 > 0 {
            assert(out.tokens[k2] == rest.tokens[k2 - 1]);
        }
    }
}

/// Prepending one error preserves the shape, provided an unterminated-string
/// error comes with an empty remainder of errors (it is terminal: nothing is
/// scanned after it).
proof fn lemma_shape_with_error(
    src: Seq<char>,
    em: LexErrorModel,
    rest: ScanOutput,
    line: nat,
    line2: nat,
)
    requires
        scan_shape(src, rest, line2),
        line <= line2,
        em.kind == LexErrorKind::UnterminatedString ==> rest.errors.len() == 0,
    ensures
        scan_shape(src, with_error(em, rest), line),
{
    let out = with_error(em, rest);
    assert forall|k: int| 0 <= k < out.tokens.len() implies line <= (
    #[trigger] out.tokens[k]).line by {
        assert(out.tokens[k] == rest.tokens[k]);
    }
    assert forall|k: int|
        0 <= k < out.errors.len() && (#[trigger] out.errors[k]).kind
            == LexErrorKind::UnterminatedString implies k == out.errors.len() - 1 by {
        if k > 0 {
            assert(out.errors[k] == rest.errors[k - 1]);
        }
    }
}

/// The shape's line bound may be weakened.
proof fn lemma_shape_weaken(src: Seq<char>, out: ScanOutput, line: nat, line2: nat)
    requires
        scan_shape(src, out, line2),
        line <= line2,
    ensures
        scan_shape(src, out, line),
{
}

proof fn lemma_scan_from_shape(src: Seq<char>, i: int, line: nat)
    requires
        0 <= i <= src.len(),
    ensures
        scan_shape(src, scan_from(src, i, line), line),
    decreases src.len() - i,
{
    if src.len() <= i {
        lemma_empty_is_substring(src);
        assert(scan_from(src, i, line).tokens == seq![eof_model(line)]);
    } else {
        let c = src[i];
        if single_char_kind(c) is Some {
            lemma_scan_from_shape(src, i + 1, line);
            lemma_subrange_is_substring(src, i, i + 1);
            lemma_shape_with_token(
                src,
                token_model(single_char_kind(c)->0, src.subrange(i, i + 1), None, line),
                scan_from(src, i + 1, line),
                line,
                line,
            );
        } else if comparison_kinds(c) is Some {
            let kinds = comparison_kinds(c)->0;
            if i + 1 < src.len() && src[i + 1] == '=' {
                lemma_scan_from_shape(src, i + 2, line);
                lemma_subrange_is_substring(src, i, i + 2);
                lemma_shape_with_token(
                    src,
                    token_model(kinds.1, src.subrange(i, i + 2), None, line),
                    scan_from(src, i + 2, line),
                    line,
                    line,
                );
            } else {
                lemma_scan_from_shape(src, i + 1, line);
                lemma_subrange_is_substring(src, i, i + 1);
                lemma_shape_with_token(
                    src,
                    token_model(kinds.0, src.subrange(i, i + 1), None, line),
                    scan_from(src, i + 1, line),
                    line,
                    line,
                );
            }
        } else if c == '/' {
            if i + 1 < src.len() && src[i + 1] == '/' {
                lemma_comment_end_bounds(src, i + 2);
                lemma_scan_from_shape(src, comment_end(src, i + 2), line);
            } else {
                lemma_scan_from_shape(src, i + 1, line);
                lemma_subrange_is_substring(src, i, i + 1);
                lemma_shape_with_token(
                    src,
                    token_model(TokenType::Slash, src.subrange(i, i + 1), None, line),
                    scan_from(src, i + 1, line),
                    line,
                    line,
                );
            }
        } else if c == ' ' || c == '\r' || c == '\t' {
            lemma_scan_from_shape(src, i + 1, line);
        } else if c == '\n' {
            lemma_scan_from_shape(src, i + 1, next_line(line));
            lemma_shape_weaken(src, scan_from(src, i + 1, next_line(line)), line, next_line(line));
        } else if c == '"' {
            lemma_quote_end_bounds(src, i + 1);
            let close: int = quote_end(src, i + 1);
            let line2: nat = line_after(src, i + 1, close, line);
            lemma_line_after_monotone(src, i + 1, close, line);
            if close < src.len() {
                lemma_scan_from_shape(src, close + 1, line2);
                lemma_subrange_is_substring(src, i, close + 1);
                assert(src.subrange(i, close + 1) =~= seq!['"'] + src.subrange(i + 1, close)
                    + seq!['"']);
                lemma_shape_with_token(
                    src,
                    token_model(
                        TokenType::String,
                        src.subrange(i, close + 1),
                        Some(src.subrange(i + 1, close)),
                        line,
                    ),
                    scan_from(src, close + 1, line2),
                    line,
                    line2,
                );
            } else {
                lemma_scan_from_shape(src, src.len() as int, line2);
                assert(scan_from(src, src.len() as int, line2).errors
                    == Seq::<LexErrorModel>::empty());
                lemma_shape_with_error(
                    src,
                    LexErrorModel { kind: LexErrorKind::UnterminatedString, line },
                    scan_from(src, src.len() as int, line2),
                    line,
                    line2,
                );
            }
        } else if is_digit_char(c) {
            lemma_number_end_bounds(src, i);
            let e: int = number_end(src, i);
            lemma_scan_from_shape(src, e, line);
            lemma_subrange_is_substring(src, i, e);
            lemma_shape_with_token(
                src,
                token_model(TokenType::Number, src.subrange(i, e), Some(src.subrange(i, e)), line),
                scan_from(src, e, line),
                line,
                line,
            );
        } else if is_alpha_char(c) {
            lemma_ident_end_bounds(src, i + 1);
            let e: int = ident_end(src, i + 1);
            lemma_scan_from_shape(src, e, line);
            lemma_subrange_is_substring(src, i, e);
            lemma_shape_with_token(
                src,
                token_model(identifier_kind(src.subrange(i, e)), src.subrange(i, e), None, line),
                scan_from(src, e, line),
                line,
                line,
            );
        } else {
            lemma_scan_from_shape(src, i + 1, line);
            lemma_shape_with_error(
                src,
                LexErrorModel { kind: LexErrorKind::UnexpectedCharacter, line },
                scan_from(src, i + 1, line),
                line,
                line,
            );
        }
    }
}


/// The half-open source span of each token of `scan_from(src, i, _)`, in
/// emission order; the `Eof` sentinel gets the empty span at the end of the
/// source. Spans do not depend on the line counter: dispatch is on
/// characters alone.
pub open spec fn scan_spans(src: Seq<char>, i: int) -> Seq<(int, int)>
    recommends
        0 <= i <= src.len(),
    decreases src.len() - i,
    via scan_spans_decreases
{
    if i < 0 || src.len() <= i {
        seq![(src.len() as int, src.len() as int)]
    } else {
        let c = src[i];
        if single_char_kind(c) is Some {
            seq![(i, i + 1)] + scan_spans(src, i + 1)
        } else if comparison_kinds(c) is Some {
            if i + 1 < src.len() && src[i + 1] == '=' {
                seq![(i, i + 2)] + scan_spans(src, i + 2)
            } else {
                seq![(i, i + 1)] + scan_spans(src, i + 1)
            }
        } else if c == '/' {
            if i + 1 < src.len() && src[i + 1] == '/' {
                scan_spans(src, comment_end(src, i + 2))
            } else {
                seq![(i, i + 1)] + scan_spans(src, i + 1)
            }
        } else if c == ' ' || c == '\r' || c == '\t' {
            scan_spans(src, i + 1)
        } else if c == '\n' {
            scan_spans(src, i + 1)
        } else if c == '"' {
            let close: int = quote_end(src, i + 1);
            if close < src.len() {
                seq![(i, close + 1)] + scan_spans(src, close + 1)
            } else {
                scan_spans(src, src.len() as int)
            }
        } else if is_digit_char(c) {
            seq![(i, number_end(src, i))] + scan_spans(src, number_end(src, i))
        } else if is_alpha_char(c) {
            seq![(i, ident_end(src, i + 1))] + scan_spans(src, ident_end(src, i + 1))
        } else {
            scan_spans(src, i + 1)
        }
    }
}

#[via_fn]
proof fn scan_spans_decreases(src: Seq<char>, i: int) {
    if 0 <= i && i < src.len() {
        lemma_ident_end_bounds(src, i + 1);
        lemma_quote_end_bounds(src, i + 1);
        if is_digit_char(src[i]) {
            lemma_number_end_bounds(src, i);
        }
        if i + 2 <= src.len() {
            lemma_comment_end_bounds(src, i + 2);
        }
    }
}

/// The properties `lemma_lexeme_spans_ordered` states, with `lo` the
/// position scanning started from.
pub open spec fn spans_describe(
    src: Seq<char>,
    toks: Seq<TokenModel>,
    spans: Seq<(int, int)>,
    lo: int,
) -> bool {
    &&& spans.len() == toks.len()
    &&& forall|k: int|
        0 <= k < spans.len() ==> lo <= (#[trigger] spans[k]).0 <= spans[k].1 <= src.len()
    &&& forall|k: int|
        0 <= k < spans.len() ==> (#[trigger] toks[k]).lexeme == src.subrange(
            spans[k].0,
            spans[k].1,
        )
    &&& forall|k: int| 0 <= k < spans.len() - 1 ==> (#[trigger] spans[k]).1 <= spans[k + 1].0
}

/// Prepending a token whose span `[a, b)` ends before every remaining span
/// begins keeps the spans description.
proof fn lemma_spans_cons(
    src: Seq<char>,
    a: int,
    b: int,
    head: TokenModel,
    rest_toks: Seq<TokenModel>,
    rest_spans: Seq<(int, int)>,
)
    requires
        0 <= a <= b <= src.len(),
        head.lexeme == src.subrange(a, b),
        spans_describe(src, rest_toks, rest_spans, b),
    ensures
        spans_describe(src, seq![head] + rest_toks, seq![(a, b)] + rest_spans, a),
{
    let out_toks = seq![head] + rest_toks;
    let out_spans = seq![(a, b)] + rest_spans;
    assert forall|k: int| 0 <= k < out_spans.len() implies a <= (#[trigger] out_spans[k]).0
        <= out_spans[k].1 <= src.len() by {
        if k > 0 {
            assert(out_spans[k] == rest_spans[k - 1]);
        }
    }
    assert forall|k: int| 0 <= k < out_spans.len() implies (#[trigger] out_toks[k]).lexeme
        == src.subrange(out_spans[k].0, out_spans[k].1) by {
        if k > 0 {
            assert(out_toks[k] == rest_toks[k - 1]);
            assert(out_spans[k] == rest_spans[k - 1]);
        }
    }
    assert forall|k: int| 0 <= k < out_spans.len() - 1 implies (#[trigger] out_spans[k]).1
        <= out_spans[k + 1].0 by {
        if k > 0 {
            assert(out_spans[k] == rest_spans[k - 1]);
            assert(out_spans[k + 1] == rest_spans[k]);
        } else {
            assert(out_spans[1] == rest_spans[0]);
        }
    }
}

/// A lower position bound on the spans may be weakened.
proof fn lemma_spans_weaken(
    src: Seq<char>,
    toks: Seq<TokenModel>,
    spans: Seq<(int, int)>,
    lo: int,
    lo2: int,
)
    requires
        spans_describe(src, toks, spans, lo2),
        lo <= lo2,
    ensures
        spans_describe(src, toks, spans, lo),
{
}

proof fn lemma_scan_spans_from(src: Seq<char>, i: int, line: nat)
    requires
        0 <= i <= src.len(),
    ensures
        spans_describe(src, scan_from(src, i, line).tokens, scan_spans(src, i), i),
    decreases src.len() - i,
{
    if src.len() <= i {
        assert(Seq::<char>::empty() =~= src.subrange(src.len() as int, src.len() as int));
        assert(scan_from(src, i, line).tokens == seq![eof_model(line)]);
        assert(scan_spans(src, i) == seq![(src.len() as int, src.len() as int)]);
    } else {
        let c = src[i];
        let rest_at = |e: int, l2: nat| scan_from(src, e, l2).tokens;
        if single_char_kind(c) is Some {
            lemma_scan_spans_from(src, i + 1, line);
            lemma_spans_cons(
                src,
                i,
                i + 1,
                token_model(single_char_kind(c)->0, src.subrange(i, i + 1), None, line),
                rest_at(i + 1, line),
                scan_spans(src, i + 1),
            );
        } else if comparison_kinds(c) is Some {
            let kinds = comparison_kinds(c)->0;
            if i + 1 < src.len() && src[i + 1] == '=' {
                lemma_scan_spans_from(src, i + 2, line);
                lemma_spans_cons(
                    src,
                    i,
                    i + 2,
                    token_model(kinds.1, src.subrange(i, i + 2), None, line),
                    rest_at(i + 2, line),
                    scan_spans(src, i + 2),
                );
            } else {
                lemma_scan_spans_from(src, i + 1, line);
                lemma_spans_cons(
                    src,
                    i,
                    i + 1,
                    token_model(kinds.0, src.subrange(i, i + 1), None, line),
                    rest_at(i + 1, line),
                    scan_spans(src, i + 1),
                );
            }
        } else if c == '/' {
            if i + 1 < src.len() && src[i + 1] == '/' {
                lemma_comment_end_bounds(src, i + 2);
                lemma_scan_spans_from(src, comment_end(src, i + 2), line);
                lemma_spans_weaken(
                    src,
                    rest_at(comment_end(src, i + 2), line),
                    scan_spans(src, comment_end(src, i + 2)),
                    i,
                    comment_end(src, i + 2),
                );
            } else {
                lemma_scan_spans_from(src, i + 1, line);
                lemma_spans_cons(
                    src,
                    i,
                    i + 1,
                    token_model(TokenType::Slash, src.subrange(i, i + 1), None, line),
                    rest_at(i + 1, line),
                    scan_spans(src, i + 1),
                );
            }
        } else if c == ' ' || c == '\r' || c == '\t' {
            lemma_scan_spans_from(src, i + 1, line);
            lemma_spans_weaken(src, rest_at(i + 1, line), scan_spans(src, i + 1), i, i + 1);
        } else if c == '\n' {
            lemma_scan_spans_from(src, i + 1, next_line(line));
            lemma_spans_weaken(
                src,
                rest_at(i + 1, next_line(line)),
                scan_spans(src, i + 1),
                i,
                i + 1,
            );
        } else if c == '"' {
            lemma_quote_end_bounds(src, i + 1);
            let close: int = quote_end(src, i + 1);
            let line2: nat = line_after(src, i + 1, close, line);
            if close < src.len() {
                lemma_scan_spans_from(src, close + 1, line2);
                lemma_spans_cons(
                    src,
                    i,
                    close + 1,
                    token_model(
                        TokenType::String,
                        src.subrange(i, close + 1),
                        Some(src.subrange(i + 1, close)),
                        line,
                    ),
                    rest_at(close + 1, line2),
                    scan_spans(src, close + 1),
                );
            } else {
                lemma_scan_spans_from(src, src.len() as int, line2);
                lemma_spans_weaken(
                    src,
                    rest_at(src.len() as int, line2),
                    scan_spans(src, src.len() as int),
                    i,
                    src.len() as int,
                );
            }
        } else if is_digit_char(c) {
            lemma_number_end_bounds(src, i);
            let e: int = number_end(src, i);
            lemma_scan_spans_from(src, e, line);
            lemma_spans_cons(
                src,
                i,
                e,
                token_model(TokenType::Number, src.subrange(i, e), Some(src.subrange(i, e)), line),
                rest_at(e, line),
                scan_spans(src, e),
            );
        } else if is_alpha_char(c) {
            lemma_ident_end_bounds(src, i + 1);
            let e: int = ident_end(src, i + 1);
            lemma_scan_spans_from(src, e, line);
            lemma_spans_cons(
                src,
                i,
                e,
                token_model(identifier_kind(src.subrange(i, e)), src.subrange(i, e), None, line),
                rest_at(e, line),
                scan_spans(src, e),
            );
        } else {
            lemma_scan_spans_from(src, i + 1, line);
            lemma_spans_weaken(src, rest_at(i + 1, line), scan_spans(src, i + 1), i, i + 1);
        }
    }
}

/// Each token's lexeme is the exact substring of the source at that token's
/// span (`scan_spans` names the spans, one per token, the `Eof` sentinel
/// included with an empty span); the spans lie within the source, are
/// pairwise disjoint, and appear in increasing source order.
pub proof fn lemma_lexeme_spans_ordered(src: Seq<char>)
    ensures
        spans_describe(src, scan_model(src).tokens, scan_spans(src, 0), 0),
{
    lemma_scan_spans_from(src, 0, 1);
}

/// For every source, the scanned token sequence is non-empty and ends with
/// exactly one `Eof` token, whose lexeme is empty and which carries no
/// literal; no other token is an `Eof`.
pub proof fn lemma_scan_ends_with_eof(src: Seq<char>)
    ensures
        scan_model(src).tokens.len() >= 1,
        scan_model(src).tokens.last().kind == TokenType::Eof,
        scan_model(src).tokens.last().lexeme == Seq::<char>::empty(),
        scan_model(src).tokens.last().literal is None,
        forall|k: int|
            0 <= k < scan_model(src).tokens.len() - 1 ==> (#[trigger] scan_model(
                src,
            ).tokens[k]).kind != TokenType::Eof,
{
    lemma_scan_from_shape(src, 0, 1);
}

/// Every token's lexeme is an exact contiguous substring of the source; no
/// normalization or case-folding occurs. (For `Eof` the substring is empty.)
pub proof fn lemma_lexemes_are_source_substrings(src: Seq<char>)
    ensures
        forall|k: int|
            0 <= k < scan_model(src).tokens.len() ==> is_source_substring(
                src,
                (#[trigger] scan_model(src).tokens[k]).lexeme,
            ),
{
    lemma_scan_from_shape(src, 0, 1);
}

/// Tokens carry 1-based line numbers that never decrease across the sequence.
pub proof fn lemma_token_lines_nondecreasing(src: Seq<char>)
    ensures
        forall|k: int| 0 <= k < scan_model(src).tokens.len() ==> 1 <= (#[trigger] scan_model(
            src,
        ).tokens[k]).line,
        forall|k1: int, k2: int|
            0 <= k1 <= k2 < scan_model(src).tokens.len() ==> (#[trigger] scan_model(
                src,
            ).tokens[k1]).line <= (#[trigger] scan_model(src).tokens[k2]).line,
{
    lemma_scan_from_shape(src, 0, 1);
}

/// Literals are present exactly for String and Number tokens: a String
/// token's literal is the text strictly between its quotes, a Number token's
/// literal is its exact numeric substring, and every other token has none.
pub proof fn lemma_literals_match_lexemes(src: Seq<char>)
    ensures
        forall|k: int|
            0 <= k < scan_model(src).tokens.len() ==> literal_consistent(
                #[trigger] scan_model(src).tokens[k],
            ),
{
    lemma_scan_from_shape(src, 0, 1);
}

/// A scan reports at most one unterminated string: such an error consumes the
/// rest of the source, so it can only stand last among the diagnostics.
pub proof fn lemma_at_most_one_unterminated_string(src: Seq<char>)
    ensures
        forall|k: int|
            0 <= k < scan_model(src).errors.len() && (#[trigger] scan_model(src).errors[k]).kind
                == LexErrorKind::UnterminatedString ==> k == scan_model(src).errors.len() - 1,
{
    lemma_scan_from_shape(src, 0, 1);
}

/// Scanning is deterministic: the output is a function of the source text
/// alone, so scanning equal sources yields equal tokens and equal errors.
pub proof fn lemma_scan_deterministic(src1: Seq<char>, src2: Seq<char>)
    requires
        src1 == src2,
    ensures
        scan_model(src1) == scan_model(src2),
{
}

} // verus!
