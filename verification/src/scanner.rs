//! The single-pass scanner: a stateful walker over the source string, proved
//! to produce exactly the tokens and diagnostics of `scan_model`.

use vstd::prelude::*;
use vstd::string::StrSliceExecFns;

use crate::diagnostics::{LexError, LexErrorKind, LexErrorModel};
use crate::scan_model::{
    comment_end, digits_end, eof_model, errors_model, ident_end, identifier_kind, is_alpha_char,
    is_digit_char, is_ident_char, lemma_line_after_snoc, line_after, next_line, number_end,
    quote_end, scan_from, scan_model, token_model, tokens_model, with_error, with_token,
};
use crate::token::{Token, TokenModel, TokenType};

verus! {

/// An ASCII decimal digit.
fn is_digit(c: char) -> (r: bool)
    ensures
        r == is_digit_char(c),
{
    '0' <= c && c <= '9'
}

/// An ASCII letter or underscore: a character that can begin an identifier.
/// "Letter" is deliberately read as ASCII; anything else falls through to
/// the unexpected-character report.
fn is_alpha(c: char) -> (r: bool)
    ensures
        r == is_alpha_char(c),
{
    ('a' <= c && c <= 'z') || ('A' <= c && c <= 'Z') || c == '_'
}

/// A character that can continue an identifier.
fn is_ident(c: char) -> (r: bool)
    ensures
        r == is_ident_char(c),
{
    is_alpha(c) || is_digit(c)
}

/// The fixed reserved-word table: the kind for an exact, case-sensitive
/// match, `Identifier` for any other identifier-shaped text.
fn keyword_lookup(text: &String) -> (t: TokenType)
    ensures
        t == identifier_kind(text@),
{
    if *text == "and".to_owned() {
        TokenType::And
    } else if *text == "class".to_owned() {
        TokenType::Class
    } else if *text == "else".to_owned() {
        TokenType::Else
    } else if *text == "false".to_owned() {
        TokenType::False
    } else if *text == "for".to_owned() {
        TokenType::For
    } else if *text == "fun".to_owned() {
        TokenType::Fun
    } else if *text == "if".to_owned() {
        TokenType::If
    } else if *text == "nil".to_owned() {
        TokenType::Nil
    } else if *text == "or".to_owned() {
        TokenType::Or
    } else if *text == "print".to_owned() {
        TokenType::Print
    } else if *text == "return".to_owned() {
        TokenType::Return
    } else if *text == "super".to_owned() {
        TokenType::Super
    } else if *text == "this".to_owned() {
        TokenType::This
    } else if *text == "true".to_owned() {
        TokenType::True
    } else if *text == "var".to_owned() {
        TokenType::Var
    } else if *text == "while".to_owned() {
        TokenType::While
    } else {
        TokenType::Identifier
    }
}

/// A single-pass walker over a complete source text. One instance owns one
/// scan; nothing is shared between scans.
pub struct Scanner {
    source: String,
    tokens: Vec<Token>,
    errors: Vec<LexError>,
    start: usize,
    current: usize,
    line: usize,
}

/// Pushing one element in front of the remainder commutes with appending it
/// at the end of what was already emitted.
proof fn lemma_push_front_assoc<T>(a: Seq<T>, x: T, b: Seq<T>)
    ensures
        a.push(x) + b == a + (seq![x] + b),
{
    assert(a.push(x) + b =~= a + (seq![x] + b));
}

/// One completed top-level dispatch: everything emitted between `pre` and
/// `post`, together with what the model says about the rest of the source,
/// accounts exactly for the model of the source from the unit's first
/// character (`pre.start`) onward.
spec fn scan_step(pre: Scanner, post: Scanner) -> bool {
    &&& post.source@ == pre.source@
    &&& post.start == pre.start
    &&& pre.start < post.current
    &&& post.current as int <= pre.source@.len()
    &&& 1 <= post.line
    &&& tokens_model(post.tokens@) + scan_from(
        pre.source@,
        post.current as int,
        post.line as nat,
    ).tokens == tokens_model(pre.tokens@) + scan_from(
        pre.source@,
        pre.start as int,
        pre.line as nat,
    ).tokens
    &&& errors_model(post.errors@) + scan_from(
        pre.source@,
        post.current as int,
        post.line as nat,
    ).errors == errors_model(pre.errors@) + scan_from(
        pre.source@,
        pre.start as int,
        pre.line as nat,
    ).errors
}

/// A step that emitted one token and nothing else.
proof fn lemma_step_token(pre: Scanner, post: Scanner, tm: TokenModel)
    requires
        post.source@ == pre.source@,
        post.start == pre.start,
        pre.start < post.current,
        post.current as int <= pre.source@.len(),
        1 <= post.line,
        scan_from(pre.source@, pre.start as int, pre.line as nat) == with_token(
            tm,
            scan_from(pre.source@, post.current as int, post.line as nat),
        ),
        tokens_model(post.tokens@) == tokens_model(pre.tokens@).push(tm),
        post.errors@ == pre.errors@,
    ensures
        scan_step(pre, post),
{
    lemma_push_front_assoc(
        tokens_model(pre.tokens@),
        tm,
        scan_from(pre.source@, post.current as int, post.line as nat).tokens,
    );
}

/// A step that recorded one error and nothing else.
proof fn lemma_step_error(pre: Scanner, post: Scanner, em: LexErrorModel)
    requires
        post.source@ == pre.source@,
        post.start == pre.start,
        pre.start < post.current,
        post.current as int <= pre.source@.len(),
        1 <= post.line,
        scan_from(pre.source@, pre.start as int, pre.line as nat) == with_error(
            em,
            scan_from(pre.source@, post.current as int, post.line as nat),
        ),
        errors_model(post.errors@) == errors_model(pre.errors@).push(em),
        post.tokens@ == pre.tokens@,
    ensures
        scan_step(pre, post),
{
    lemma_push_front_assoc(
        errors_model(pre.errors@),
        em,
        scan_from(pre.source@, post.current as int, post.line as nat).errors,
    );
}

/// A step that consumed characters silently (whitespace, a comment).
proof fn lemma_step_skip(pre: Scanner, post: Scanner)
    requires
        post.source@ == pre.source@,
        post.start == pre.start,
        pre.start < post.current,
        post.current as int <= pre.source@.len(),
        1 <= post.line,
        scan_from(pre.source@, pre.start as int, pre.line as nat) == scan_from(
            pre.source@,
            post.current as int,
            post.line as nat,
        ),
        post.tokens@ == pre.tokens@,
        post.errors@ == pre.errors@,
    ensures
        scan_step(pre, post),
{
}

impl Scanner {
    /// The source under scan, as a sequence of characters.
    pub closed spec fn spec_source(&self) -> Seq<char> {
        self.source@
    }

    /// The models of the tokens recognized so far.
    pub closed spec fn spec_tokens(&self) -> Seq<TokenModel> {
        tokens_model(self.tokens@)
    }

    /// The models of the errors recovered so far.
    pub closed spec fn spec_errors(&self) -> Seq<LexErrorModel> {
        errors_model(self.errors@)
    }

    spec fn wf(&self) -> bool {
        &&& self.start <= self.current
        &&& self.current as int <= self.source@.len()
        &&& self.source@.len() <= usize::MAX
        &&& 1 <= self.line
    }

    pub fn new(source: String) -> (s: Scanner)
        ensures
            s.spec_source() == source@,
            s.spec_tokens() == Seq::<TokenModel>::empty(),
            s.spec_errors() == Seq::<LexErrorModel>::empty(),
    {
        let s = Scanner {
            source,
            tokens: Vec::new(),
            errors: Vec::new(),
            start: 0,
            current: 0,
            line: 1,
        };
        proof {
            assert(s.spec_tokens() =~= Seq::<TokenModel>::empty());
            assert(s.spec_errors() =~= Seq::<LexErrorModel>::empty());
        }
        s
    }

    /// Consume the whole source and return the token sequence: exactly the
    /// tokens of `scan_model`, ending in the `Eof` sentinel, with the
    /// recovered errors left in `self` for `errors` to hand out. The scan is
    /// a pure function of the source: rescanning yields the same sequence.
    pub fn scan_tokens(&mut self) -> (r: &Vec<Token>)
        ensures
            final(self).spec_source() == old(self).spec_source(),
            final(self).spec_tokens() == scan_model(old(self).spec_source()).tokens,
            final(self).spec_errors() == scan_model(old(self).spec_source()).errors,
            tokens_model(r@) == scan_model(old(self).spec_source()).tokens,
    {
        self.tokens = Vec::new();
        self.errors = Vec::new();
        self.start = 0;
        self.current = 0;
        self.line = 1;
        let ghost src: Seq<char> = self.source@;
        let n: usize = self.source.as_str().unicode_len();
        proof {
            assert(tokens_model(self.tokens@) + scan_from(src, 0, 1).tokens =~= scan_model(
                src,
            ).tokens);
            assert(errors_model(self.errors@) + scan_from(src, 0, 1).errors =~= scan_model(
                src,
            ).errors);
        }
        while self.current < n
            invariant
                self.source@ == src,
                n == src.len(),
                self.wf(),
                tokens_model(self.tokens@) + scan_from(
                    src,
                    self.current as int,
                    self.line as nat,
                ).tokens == scan_model(src).tokens,
                errors_model(self.errors@) + scan_from(
                    src,
                    self.current as int,
                    self.line as nat,
                ).errors == scan_model(src).errors,
            decreases src.len() - self.current,
        {
            self.start = self.current;
            self.scan_token();
        }
        let ghost eof_line: nat = self.line as nat;
        proof {
            assert(scan_from(src, self.current as int, eof_line).tokens =~= seq![
                eof_model(eof_line),
            ]);
        }
        self.tokens.push(Token::new(TokenType::Eof, String::new(), None, self.line));
        proof {
            assert(tokens_model(self.tokens@) =~= tokens_model(self.tokens@.drop_last()).push(
                self.tokens@.last()@,
            ));
            assert(tokens_model(self.tokens@.drop_last()).push(eof_model(eof_line)) =~= tokens_model(
                self.tokens@.drop_last(),
            ) + seq![eof_model(eof_line)]);
            assert(tokens_model(self.tokens@) == scan_model(src).tokens);
            assert(errors_model(self.errors@) + Seq::<LexErrorModel>::empty() =~= errors_model(
                self.errors@,
            ));
        }
        &self.tokens
    }

    /// The lexical errors recovered during the scan, in source order.
    pub fn errors(&self) -> (r: &Vec<LexError>)
        ensures
            errors_model(r@) == self.spec_errors(),
    {
        &self.errors
    }

    fn is_at_end(&self) -> (r: bool)
        ensures
            r == (self.source@.len() <= self.current as int),
    {
        self.current >= self.source.as_str().unicode_len()
    }

    /// Classify and consume one token beginning at `start == current`, or
    /// silently skip whitespace or a comment, or record one error.
    fn scan_token(&mut self)
        requires
            old(self).wf(),
            old(self).start == old(self).current,
            (old(self).current as int) < old(self).source@.len(),
        ensures
            scan_step(*old(self), *final(self)),
    {
        let ghost pre: Scanner = *old(self);
        let ghost src: Seq<char> = pre.source@;
        let ghost i: int = pre.start as int;
        let ghost l: nat = pre.line as nat;
        let c = self.advance();
        match c {
            '(' => {
                self.add_token(TokenType::LeftParen);
                proof {
                    lemma_step_token(
                        pre,
                        *self,
                        token_model(TokenType::LeftParen, src.subrange(i, i + 1), None, l),
                    );
                }
            },
            ')' => {
                self.add_token(TokenType::RightParen);
                proof {
                    lemma_step_token(
                        pre,
                        *self,
                        token_model(TokenType::RightParen, src.subrange(i, i + 1), None, l),
                    );
                }
            },
            '{' => {
                self.add_token(TokenType::LeftBrace);
                proof {
                    lemma_step_token(
                        pre,
                        *self,
                        token_model(TokenType::LeftBrace, src.subrange(i, i + 1), None, l),
                    );
                }
            },
            '}' => {
                self.add_token(TokenType::RightBrace);
                proof {
                    lemma_step_token(
                        pre,
                        *self,
                        token_model(TokenType::RightBrace, src.subrange(i, i + 1), None, l),
                    );
                }
            },
            ',' => {
                self.add_token(TokenType::Comma);
                proof {
                    lemma_step_token(
                        pre,
                        *self,
                        token_model(TokenType::Comma, src.subrange(i, i + 1), None, l),
                    );
                }
            },
            '.' => {
                self.add_token(TokenType::Dot);
                proof {
                    lemma_step_token(
                        pre,
                        *self,
                        token_model(TokenType::Dot, src.subrange(i, i + 1), None, l),
                    );
                }
            },
            '-' => {
                self.add_token(TokenType::Minus);
                proof {
                    lemma_step_token(
                        pre,
                        *self,
                        token_model(TokenType::Minus, src.subrange(i, i + 1), None, l),
                    );
                }
            },
            '+' => {
                self.add_token(TokenType::Plus);
                proof {
                    lemma_step_token(
                        pre,
                        *self,
                        token_model(TokenType::Plus, src.subrange(i, i + 1), None, l),
                    );
                }
            },
            ';' => {
                self.add_token(TokenType::Semicolon);
                proof {
                    lemma_step_token(
                        pre,
                        *self,
                        token_model(TokenType::Semicolon, src.subrange(i, i + 1), None, l),
                    );
                }
            },
            '*' => {
                self.add_token(TokenType::Star);
                proof {
                    lemma_step_token(
                        pre,
                        *self,
                        token_model(TokenType::Star, src.subrange(i, i + 1), None, l),
                    );
                }
            },
            '!' => {
                let matched = self.match_char('=');
                let token_type = if matched {
                    TokenType::BangEqual
                } else {
                    TokenType::Bang
                };
                self.add_token(token_type);
                proof {
                    lemma_step_token(
                        pre,
                        *self,
                        token_model(token_type, src.subrange(i, self.current as int), None, l),
                    );
                }
            },
            '=' => {
                let matched = self.match_char('=');
                let token_type = if matched {
                    TokenType::EqualEqual
                } else {
                    TokenType::Equal
                };
                self.add_token(token_type);
                proof {
                    lemma_step_token(
                        pre,
                        *self,
                        token_model(token_type, src.subrange(i, self.current as int), None, l),
                    );
                }
            },
            '<' => {
                let matched = self.match_char('=');
                let token_type = if matched {
                    TokenType::LessEqual
                } else {
                    TokenType::Less
                };
                self.add_token(token_type);
                proof {
                    lemma_step_token(
                        pre,
                        *self,
                        token_model(token_type, src.subrange(i, self.current as int), None, l),
                    );
                }
            },
            '>' => {
                let matched = self.match_char('=');
                let token_type = if matched {
                    TokenType::GreaterEqual
                } else {
                    TokenType::Greater
                };
                self.add_token(token_type);
                proof {
                    lemma_step_token(
                        pre,
                        *self,
                        token_model(token_type, src.subrange(i, self.current as int), None, l),
                    );
                }
            },
            '/' => {
                if self.match_char('/') {
                    // A comment goes to the end of the line and emits nothing.
                    while self.peek() != '\n' && !self.is_at_end()
                        invariant
                            self.source@ == src,
                            self.start == pre.start,
                            self.line == pre.line,
                            self.tokens@ == pre.tokens@,
                            self.errors@ == pre.errors@,
                            i + 2 <= self.current as int <= src.len(),
                            src.len() <= usize::MAX,
                            comment_end(src, i + 2) == comment_end(src, self.current as int),
                        decreases src.len() - self.current,
                    {
                        self.advance();
                    }
                    proof {
                        lemma_step_skip(pre, *self);
                    }
                } else {
                    self.add_token(TokenType::Slash);
                    proof {
                        lemma_step_token(
                            pre,
                            *self,
                            token_model(TokenType::Slash, src.subrange(i, i + 1), None, l),
                        );
                    }
                }
            },
            ' ' | '\r' | '\t' => {
                // Whitespace is skipped with no token emitted.
                proof {
                    lemma_step_skip(pre, *self);
                }
            },
            '\n' => {
                self.bump_line();
                proof {
                    lemma_step_skip(pre, *self);
                }
            },
            '"' => {
                self.string();
            },
            _ => {
                if is_digit(c) {
                    self.number();
                } else if is_alpha(c) {
                    self.identifier();
                } else {
                    self.add_error(LexErrorKind::UnexpectedCharacter, self.line);
                    proof {
                        lemma_step_error(
                            pre,
                            *self,
                            LexErrorModel { kind: LexErrorKind::UnexpectedCharacter, line: l },
                        );
                    }
                }
            },
        }
    }

    fn advance(&mut self) -> (c: char)
        requires
            (old(self).current as int) < old(self).source@.len(),
            old(self).source@.len() <= usize::MAX,
        ensures
            *final(self) == (Scanner { current: final(self).current, ..*old(self) }),
            final(self).current == old(self).current + 1,
            c == old(self).source@[old(self).current as int],
    {
        let c = self.source.as_str().get_char(self.current);
        self.current = self.current + 1;
        c
    }

    fn add_token(&mut self, token_type: TokenType)
        requires
            old(self).wf(),
        ensures
            *final(self) == (Scanner { tokens: final(self).tokens, ..*old(self) }),
            tokens_model(final(self).tokens@) == tokens_model(old(self).tokens@).push(
                token_model(
                    token_type,
                    old(self).source@.subrange(old(self).start as int, old(self).current as int),
                    None,
                    old(self).line as nat,
                ),
            ),
    {
        self.add_token_with_literal(token_type, None);
    }

    fn add_token_with_literal(&mut self, token_type: TokenType, literal: Option<String>)
        requires
            old(self).wf(),
        ensures
            *final(self) == (Scanner { tokens: final(self).tokens, ..*old(self) }),
            tokens_model(final(self).tokens@) == tokens_model(old(self).tokens@).push(
                token_model(
                    token_type,
                    old(self).source@.subrange(old(self).start as int, old(self).current as int),
                    literal.deep_view(),
                    old(self).line as nat,
                ),
            ),
    {
        let text = self.source.as_str().substring_char(self.start, self.current).to_owned();
        let t = Token::new(token_type, text, literal, self.line);
        self.tokens.push(t);
        proof {
            assert(tokens_model(self.tokens@) =~= tokens_model(old(self).tokens@).push(
                self.tokens@.last()@,
            ));
        }
    }

    fn add_error(&mut self, kind: LexErrorKind, line: usize)
        ensures
            *final(self) == (Scanner { errors: final(self).errors, ..*old(self) }),
            errors_model(final(self).errors@) == errors_model(old(self).errors@).push(
                LexErrorModel { kind, line: line as nat },
            ),
    {
        self.errors.push(LexError { kind, line });
        proof {
            assert(errors_model(self.errors@) =~= errors_model(old(self).errors@).push(
                self.errors@.last()@,
            ));
        }
    }

    fn match_char(&mut self, expected: char) -> (matched: bool)
        requires
            old(self).current as int <= old(self).source@.len(),
            old(self).source@.len() <= usize::MAX,
        ensures
            *final(self) == (Scanner { current: final(self).current, ..*old(self) }),
            matched == ((old(self).current as int) < old(self).source@.len()
                && old(self).source@[old(self).current as int] == expected),
            final(self).current == if matched {
                old(self).current + 1
            } else {
                old(self).current as int
            },
    {
        if self.is_at_end() {
            return false;
        }
        if self.source.as_str().get_char(self.current) != expected {
            return false;
        }
        self.current = self.current + 1;
        true
    }

    fn peek(&self) -> (c: char)
        ensures
            c == if (self.current as int) < self.source@.len() {
                self.source@[self.current as int]
            } else {
                '\0'
            },
    {
        if self.is_at_end() {
            '\0'
        } else {
            self.source.as_str().get_char(self.current)
        }
    }

    fn peek_next(&self) -> (c: char)
        requires
            self.current as int <= self.source@.len(),
        ensures
            c == if (self.current + 1) < self.source@.len() {
                self.source@[self.current as int + 1]
            } else {
                '\0'
            },
    {
        let n: usize = self.source.as_str().unicode_len();
        if self.current >= n {
            '\0'
        } else if self.current + 1 >= n {
            '\0'
        } else {
            self.source.as_str().get_char(self.current + 1)
        }
    }

    /// Count one more line, saturating at the machine limit instead of
    /// wrapping; no realizable source reaches it.
    fn bump_line(&mut self)
        ensures
            *final(self) == (Scanner { line: final(self).line, ..*old(self) }),
            final(self).line as nat == next_line(old(self).line as nat),
    {
        if self.line < usize::MAX {
            self.line = self.line + 1;
        }
    }

    /// A string literal: everything up to the closing quote, which may span
    /// several lines. The token carries the line of the opening quote; an
    /// unterminated string is recorded as an error at that same line.
    fn string(&mut self)
        requires
            old(self).wf(),
            old(self).start + 1 == old(self).current,
            (old(self).start as int) < old(self).source@.len(),
            old(self).source@[old(self).start as int] == '"',
        ensures
            scan_step(*old(self), *final(self)),
    {
        let ghost pre: Scanner = *old(self);
        let ghost src: Seq<char> = pre.source@;
        let ghost i: int = pre.start as int;
        let ghost l: nat = pre.line as nat;
        let opening_line: usize = self.line;
        while self.peek() != '"' && !self.is_at_end()
            invariant
                self.source@ == src,
                self.start == pre.start,
                self.tokens@ == pre.tokens@,
                self.errors@ == pre.errors@,
                0 <= i,
                i + 1 <= self.current as int <= src.len(),
                src.len() <= usize::MAX,
                1 <= self.line,
                quote_end(src, i + 1) == quote_end(src, self.current as int),
                self.line as nat == line_after(src, i + 1, self.current as int, l),
            decreases src.len() - self.current,
        {
            proof {
                lemma_line_after_snoc(src, i + 1, self.current as int, l);
            }
            if self.peek() == '\n' {
                self.bump_line();
            }
            self.advance();
        }
        if self.is_at_end() {
            // The source ended before a closing quote was found.
            self.add_error(LexErrorKind::UnterminatedString, opening_line);
            proof {
                lemma_step_error(
                    pre,
                    *self,
                    LexErrorModel { kind: LexErrorKind::UnterminatedString, line: l },
                );
            }
            return;
        }
        // The closing "
        self.advance();
        let lexeme = self.source.as_str().substring_char(self.start, self.current).to_owned();
        let value = self.source.as_str().substring_char(self.start + 1, self.current - 1).to_owned();
        let t = Token::new(TokenType::String, lexeme, Some(value), opening_line);
        self.tokens.push(t);
        proof {
            let close: int = quote_end(src, i + 1);
            let tm = token_model(
                TokenType::String,
                src.subrange(i, close + 1),
                Some(src.subrange(i + 1, close)),
                l,
            );
            assert(tokens_model(self.tokens@) =~= tokens_model(pre.tokens@).push(
                self.tokens@.last()@,
            ));
            lemma_step_token(pre, *self, tm);
        }
    }

    /// A number literal: a maximal run of digits with one optional fractional
    /// part, entered with the first digit already consumed. The literal is
    /// the exact matched substring; nothing is parsed to a numeric type.
    fn number(&mut self)
        requires
            old(self).wf(),
            old(self).start + 1 == old(self).current,
            (old(self).start as int) < old(self).source@.len(),
            is_digit_char(old(self).source@[old(self).start as int]),
        ensures
            scan_step(*old(self), *final(self)),
    {
        let ghost pre: Scanner = *old(self);
        let ghost src: Seq<char> = pre.source@;
        let ghost i: int = pre.start as int;
        let ghost l: nat = pre.line as nat;
        while is_digit(self.peek())
            invariant
                self.source@ == src,
                self.start == pre.start,
                self.line == pre.line,
                self.tokens@ == pre.tokens@,
                self.errors@ == pre.errors@,
                i + 1 <= self.current as int <= src.len(),
                src.len() <= usize::MAX,
                digits_end(src, i + 1) == digits_end(src, self.current as int),
            decreases src.len() - self.current,
        {
            self.advance();
        }
        let ghost whole: int = self.current as int;
        // Look for a fractional part: a dot counts only when a digit follows,
        // so a trailing dot is left to become a Dot token of its own.
        if self.peek() == '.' && is_digit(self.peek_next()) {
            // Consume the "."
            self.advance();
            while is_digit(self.peek())
                invariant
                    self.source@ == src,
                    self.start == pre.start,
                    self.line == pre.line,
                    self.tokens@ == pre.tokens@,
                    self.errors@ == pre.errors@,
                    whole + 1 <= self.current as int <= src.len(),
                    src.len() <= usize::MAX,
                    digits_end(src, whole + 1) == digits_end(src, self.current as int),
                decreases src.len() - self.current,
            {
                self.advance();
            }
        }
        let value = self.source.as_str().substring_char(self.start, self.current).to_owned();
        self.add_token_with_literal(TokenType::Number, Some(value));
        proof {
            let e: int = number_end(src, i);
            lemma_step_token(
                pre,
                *self,
                token_model(TokenType::Number, src.subrange(i, e), Some(src.subrange(i, e)), l),
            );
        }
    }

    /// An identifier or reserved word: a maximal run of ASCII letters,
    /// digits and underscores, entered with its first character already
    /// consumed.
    fn identifier(&mut self)
        requires
            old(self).wf(),
            old(self).start + 1 == old(self).current,
            (old(self).start as int) < old(self).source@.len(),
            is_alpha_char(old(self).source@[old(self).start as int]),
        ensures
            scan_step(*old(self), *final(self)),
    {
        let ghost pre: Scanner = *old(self);
        let ghost src: Seq<char> = pre.source@;
        let ghost i: int = pre.start as int;
        let ghost l: nat = pre.line as nat;
        while is_ident(self.peek())
            invariant
                self.source@ == src,
                self.start == pre.start,
                self.line == pre.line,
                self.tokens@ == pre.tokens@,
                self.errors@ == pre.errors@,
                i + 1 <= self.current as int <= src.len(),
                src.len() <= usize::MAX,
                ident_end(src, i + 1) == ident_end(src, self.current as int),
            decreases src.len() - self.current,
        {
            self.advance();
        }
        let text = self.source.as_str().substring_char(self.start, self.current).to_owned();
        let token_type = keyword_lookup(&text);
        self.add_token(token_type);
        proof {
            let e: int = ident_end(src, i + 1);
            lemma_step_token(
                pre,
                *self,
                token_model(identifier_kind(src.subrange(i, e)), src.subrange(i, e), None, l),
            );
        }
    }
}

} // verus!
