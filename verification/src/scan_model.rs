//! The mathematical model of scanning: a total, deterministic function from a
//! source text (as a `Seq<char>`) to the ordered token sequence and the list
//! of recovered lexical errors that the scanner produces for it.

use vstd::prelude::*;

use crate::diagnostics::{LexError, LexErrorKind, LexErrorModel};
use crate::token::{Token, TokenModel, TokenType};

verus! {

// ---------------------------------------------------------------------------
// Character classes
// ---------------------------------------------------------------------------

/// An ASCII decimal digit.
pub open spec fn is_digit_char(c: char) -> bool {
    '0' <= c && c <= '9'
}

/// A character that can begin an identifier: an ASCII letter or underscore.
/// "Letter" is read as ASCII on purpose: any other character, a non-ASCII
/// letter included, begins no token and is reported as unexpected.
pub open spec fn is_alpha_char(c: char) -> bool {
    ('a' <= c && c <= 'z') || ('A' <= c && c <= 'Z') || c == '_'
}

/// A character that can continue an identifier.
pub open spec fn is_ident_char(c: char) -> bool {
    is_alpha_char(c) || is_digit_char(c)
}

// ---------------------------------------------------------------------------
// Token dispatch tables
// ---------------------------------------------------------------------------

/// The kind emitted for a one-character punctuation mark, if `c` is one.
/// `/` is absent: it is dispatched separately because of line comments.
pub open spec fn single_char_kind(c: char) -> Option<TokenType> {
    if c == '(' {
        Some(TokenType::LeftParen)
    } else if c == ')' {
        Some(TokenType::RightParen)
    } else if c == '{' {
        Some(TokenType::LeftBrace)
    } else if c == '}' {
        Some(TokenType::RightBrace)
    } else if c == ',' {
        Some(TokenType::Comma)
    } else if c == '.' {
        Some(TokenType::Dot)
    } else if c == '-' {
        Some(TokenType::Minus)
    } else if c == '+' {
        Some(TokenType::Plus)
    } else if c == ';' {
        Some(TokenType::Semicolon)
    } else if c == '*' {
        Some(TokenType::Star)
    } else {
        None
    }
}

/// For `!`, `=`, `<`, `>`: the kind emitted alone and the kind emitted when a
/// `=` follows.
pub open spec fn comparison_kinds(c: char) -> Option<(TokenType, TokenType)> {
    if c == '!' {
        Some((TokenType::Bang, TokenType::BangEqual))
    } else if c == '=' {
        Some((TokenType::Equal, TokenType::EqualEqual))
    } else if c == '<' {
        Some((TokenType::Less, TokenType::LessEqual))
    } else if c == '>' {
        Some((TokenType::Greater, TokenType::GreaterEqual))
    } else {
        None
    }
}

/// The fixed, case-sensitive reserved-word table.
pub open spec fn reserved_word(text: Seq<char>) -> Option<TokenType> {
    if text == "and"@ {
        Some(TokenType::And)
    } else if text == "class"@ {
        Some(TokenType::Class)
    } else if text == "else"@ {
        Some(TokenType::Else)
    } else if text == "false"@ {
        Some(TokenType::False)
    } else if text == "for"@ {
        Some(TokenType::For)
    } else if text == "fun"@ {
        Some(TokenType::Fun)
    } else if text == "if"@ {
        Some(TokenType::If)
    } else if text == "nil"@ {
        Some(TokenType::Nil)
    } else if text == "or"@ {
        Some(TokenType::Or)
    } else if text == "print"@ {
        Some(TokenType::Print)
    } else if text == "return"@ {
        Some(TokenType::Return)
    } else if text == "super"@ {
        Some(TokenType::Super)
    } else if text == "this"@ {
        Some(TokenType::This)
    } else if text == "true"@ {
        Some(TokenType::True)
    } else if text == "var"@ {
        Some(TokenType::Var)
    } else if text == "while"@ {
        Some(TokenType::While)
    } else {
        None
    }
}

/// The kind of a maximal identifier-shaped run: its reserved-word kind on an
/// exact match, `Identifier` otherwise.
pub open spec fn identifier_kind(text: Seq<char>) -> TokenType {
    match reserved_word(text) {
        Some(kind) => kind,
        None => TokenType::Identifier,
    }
}

// ---------------------------------------------------------------------------
// Maximal runs of characters
// ---------------------------------------------------------------------------

/// The first index at or after `i` holding a non-digit, or the end of `src`.
pub open spec fn digits_end(src: Seq<char>, i: int) -> int
    recommends
        0 <= i <= src.len(),
    decreases src.len() - i,
{
    if i < src.len() && is_digit_char(src[i]) {
        digits_end(src, i + 1)
    } else {
        i
    }
}

/// The first index at or after `i` holding a non-identifier character, or the
/// end of `src`.
pub open spec fn ident_end(src: Seq<char>, i: int) -> int
    recommends
        0 <= i <= src.len(),
    decreases src.len() - i,
{
    if i < src.len() && is_ident_char(src[i]) {
        ident_end(src, i + 1)
    } else {
        i
    }
}

/// The first index at or after `i` holding a newline, or the end of `src`:
/// where a line comment beginning before `i` stops consuming.
pub open spec fn comment_end(src: Seq<char>, i: int) -> int
    recommends
        0 <= i <= src.len(),
    decreases src.len() - i,
{
    if i < src.len() && src[i] != '\n' {
        comment_end(src, i + 1)
    } else {
        i
    }
}

/// The first index at or after `i` holding a `"`, or the end of `src`: where
/// a string literal opened before `i` closes.
pub open spec fn quote_end(src: Seq<char>, i: int) -> int
    recommends
        0 <= i <= src.len(),
    decreases src.len() - i,
{
    if i < src.len() && src[i] != '"' {
        quote_end(src, i + 1)
    } else {
        i
    }
}

/// Where a number beginning with the digit at `i` stops: a maximal run of
/// digits, then one `.` and a further maximal run only when a digit follows
/// the `.` (so a trailing `.` is left for a later `Dot` token).
pub open spec fn number_end(src: Seq<char>, i: int) -> int
    recommends
        0 <= i < src.len() && is_digit_char(src[i]),
{
    let whole: int = digits_end(src, i + 1);
    if whole < src.len() && src[whole] == '.' && whole + 1 < src.len() && is_digit_char(
        src[whole + 1],
    ) {
        digits_end(src, whole + 1)
    } else {
        whole
    }
}

pub proof fn lemma_digits_end_bounds(src: Seq<char>, i: int)
    requires
        0 <= i <= src.len(),
    ensures
        i <= digits_end(src, i) <= src.len(),
    decreases src.len() - i,
{
    if i < src.len() && is_digit_char(src[i]) {
        lemma_digits_end_bounds(src, i + 1);
    }
}

pub proof fn lemma_ident_end_bounds(src: Seq<char>, i: int)
    requires
        0 <= i <= src.len(),
    ensures
        i <= ident_end(src, i) <= src.len(),
    decreases src.len() - i,
{
    if i < src.len() && is_ident_char(src[i]) {
        lemma_ident_end_bounds(src, i + 1);
    }
}

pub proof fn lemma_comment_end_bounds(src: Seq<char>, i: int)
    requires
        0 <= i <= src.len(),
    ensures
        i <= comment_end(src, i) <= src.len(),
    decreases src.len() - i,
{
    if i < src.len() && src[i] != '\n' {
        lemma_comment_end_bounds(src, i + 1);
    }
}

pub proof fn lemma_quote_end_bounds(src: Seq<char>, i: int)
    requires
        0 <= i <= src.len(),
    ensures
        i <= quote_end(src, i) <= src.len(),
        quote_end(src, i) < src.len() ==> src[quote_end(src, i)] == '"',
    decreases src.len() - i,
{
    if i < src.len() && src[i] != '"' {
        lemma_quote_end_bounds(src, i + 1);
    }
}

pub proof fn lemma_number_end_bounds(src: Seq<char>, i: int)
    requires
        0 <= i < src.len(),
        is_digit_char(src[i]),
    ensures
        i < number_end(src, i) <= src.len(),
{
    lemma_digits_end_bounds(src, i + 1);
    let whole: int = digits_end(src, i + 1);
    if whole < src.len() && src[whole] == '.' && whole + 1 < src.len() && is_digit_char(
        src[whole + 1],
    ) {
        lemma_digits_end_bounds(src, whole + 1);
    }
}

// ---------------------------------------------------------------------------
// Line counting
// ---------------------------------------------------------------------------

/// The line counter after one more newline. It saturates at the machine
/// limit instead of wrapping; no realizable source reaches it.
pub open spec fn next_line(line: nat) -> nat {
    if line < usize::MAX as nat {
        line + 1
    } else {
        line
    }
}

/// The line counter after consuming `src[from..to)`, starting from `line`.
pub open spec fn line_after(src: Seq<char>, from: int, to: int, line: nat) -> nat
    recommends
        0 <= from <= to <= src.len(),
    decreases to - from,
{
    if from < to {
        line_after(
            src,
            from + 1,
            to,
            if 0 <= from < src.len() && src[from] == '\n' {
                next_line(line)
            } else {
                line
            },
        )
    } else {
        line
    }
}

/// Extending the consumed region by one character on the right bumps the line
/// counter exactly when that character is a newline.
pub proof fn lemma_line_after_snoc(src: Seq<char>, from: int, to: int, line: nat)
    requires
        0 <= from <= to < src.len(),
    ensures
        line_after(src, from, to + 1, line) == if src[to] == '\n' {
            next_line(line_after(src, from, to, line))
        } else {
            line_after(src, from, to, line)
        },
    decreases to - from,
{
    if from < to {
        let first: nat = if src[from] == '\n' {
            next_line(line)
        } else {
            line
        };
        lemma_line_after_snoc(src, from + 1, to, first);
    } else {
        reveal_with_fuel(line_after, 2);
    }
}

// ---------------------------------------------------------------------------
// The scan itself
// ---------------------------------------------------------------------------

/// What one whole scan yields: the token sequence (ending in `Eof`) and the
/// recovered lexical errors, in source order.
pub ghost struct ScanOutput {
    pub tokens: Seq<TokenModel>,
    pub errors: Seq<LexErrorModel>,
}

/// `rest`, with one more token in front.
pub open spec fn with_token(t: TokenModel, rest: ScanOutput) -> ScanOutput {
    ScanOutput { tokens: seq![t] + rest.tokens, errors: rest.errors }
}

/// `rest`, with one more error in front.
pub open spec fn with_error(e: LexErrorModel, rest: ScanOutput) -> ScanOutput {
    ScanOutput { tokens: rest.tokens, errors: seq![e] + rest.errors }
}

pub open spec fn token_model(
    kind: TokenType,
    lexeme: Seq<char>,
    literal: Option<Seq<char>>,
    line: nat,
) -> TokenModel {
    TokenModel { kind, lexeme, literal, line }
}

/// The end-of-input sentinel: empty lexeme, no literal.
pub open spec fn eof_model(line: nat) -> TokenModel {
    TokenModel { kind: TokenType::Eof, lexeme: Seq::empty(), literal: None, line }
}

/// The tokens and errors produced from position `i` onward, with the line
/// counter at `line`: one top-level dispatch on `src[i]`, then the rest.
pub open spec fn scan_from(src: Seq<char>, i: int, line: nat) -> ScanOutput
    recommends
        0 <= i <= src.len(),
    decreases src.len() - i,
    via scan_from_decreases
{
    if i < 0 || src.len() <= i {
        ScanOutput { tokens: seq![eof_model(line)], errors: Seq::empty() }
    } else {
        let c = src[i];
        if single_char_kind(c) is Some {
            with_token(
                token_model(single_char_kind(c)->0, src.subrange(i, i + 1), None, line),
                scan_from(src, i + 1, line),
            )
        } else if comparison_kinds(c) is Some {
            let kinds = comparison_kinds(c)->0;
            if i + 1 < src.len() && src[i + 1] == '=' {
                with_token(
                    token_model(kinds.1, src.subrange(i, i + 2), None, line),
                    scan_from(src, i + 2, line),
                )
            } else {
                with_token(
                    token_model(kinds.0, src.subrange(i, i + 1), None, line),
                    scan_from(src, i + 1, line),
                )
            }
        } else if c == '/' {
            if i + 1 < src.len() && src[i + 1] == '/' {
                // A line comment: consumed through, but not including, the
                // next newline; no token is emitted for it.
                scan_from(src, comment_end(src, i + 2), line)
            } else {
                with_token(
                    token_model(TokenType::Slash, src.subrange(i, i + 1), None, line),
                    scan_from(src, i + 1, line),
                )
            }
        } else if c == ' ' || c == '\r' || c == '\t' {
            scan_from(src, i + 1, line)
        } else if c == '\n' {
            scan_from(src, i + 1, next_line(line))
        } else if c == '"' {
            let close: int = quote_end(src, i + 1);
            let line2: nat = line_after(src, i + 1, close, line);
            if close < src.len() {
                // The literal is the text strictly between the two quotes;
                // the token is tagged with the line of the opening quote.
                with_token(
                    token_model(
                        TokenType::String,
                        src.subrange(i, close + 1),
                        Some(src.subrange(i + 1, close)),
                        line,
                    ),
                    scan_from(src, close + 1, line2),
                )
            } else {
                with_error(
                    LexErrorModel { kind: LexErrorKind::UnterminatedString, line },
                    scan_from(src, src.len() as int, line2),
                )
            }
        } else if is_digit_char(c) {
            let e: int = number_end(src, i);
            with_token(
                token_model(
                    TokenType::Number,
                    src.subrange(i, e),
                    Some(src.subrange(i, e)),
                    line,
                ),
                scan_from(src, e, line),
            )
        } else if is_alpha_char(c) {
            let e: int = ident_end(src, i + 1);
            with_token(
                token_model(identifier_kind(src.subrange(i, e)), src.subrange(i, e), None, line),
                scan_from(src, e, line),
            )
        } else {
            with_error(
                LexErrorModel { kind: LexErrorKind::UnexpectedCharacter, line },
                scan_from(src, i + 1, line),
            )
        }
    }
}

#[via_fn]
proof fn scan_from_decreases(src: Seq<char>, i: int, line: nat) {
    if 0 <= i && i < src.len() {
        lemma_ident_end_bounds(src, i + 1);
        lemma_quote_end_bounds(src, i + 1);
        if is_digit_char(src[i]) {
            lemma_number_end_bounds(src, i);
        }
        if i + 2 <= src.len() {
            lemma_comment_end_bounds(src, i + 2);
        }
    }
}

/// The whole scan of `src`: from the first character, on line 1.
pub open spec fn scan_model(src: Seq<char>) -> ScanOutput {
    scan_from(src, 0, 1)
}

// ---------------------------------------------------------------------------
// Views of the executable vectors
// ---------------------------------------------------------------------------

/// The models of a vector of tokens, element for element.
pub open spec fn tokens_model(ts: Seq<Token>) -> Seq<TokenModel> {
    ts.map_values(|t: Token| t@)
}

/// The models of a vector of errors, element for element.
pub open spec fn errors_model(es: Seq<LexError>) -> Seq<LexErrorModel> {
    es.map_values(|e: LexError| e@)
}

} // verus!
