//! A pull-based lexical scanner.
//!
//! A [`Tokenizer`] owns a forward-only cursor over the characters of a
//! borrowed input text. Each call of [`Tokenizer::next`] classifies the
//! character under the cursor and either emits a structural delimiter
//! token, captures a string literal, captures a contiguous identifier
//! run, or skips trivia (whitespace and line comments) before doing one
//! of those. Token text is borrowed from the input, never copied.
//!
//! The whole stream is described by the specification function
//! [`lex_from`], and every public operation is proved against it.

use vstd::prelude::*;
use vstd::string::StrSliceExecFns;

verus! {

/// Characters that end an identifier run and never occur inside one.
///
/// Only the six bracketing characters are emitted as tokens of their
/// own; `;` opens a comment, `"` opens a string literal, and the
/// remaining three merely terminate a run.
pub open spec fn is_delimiter_spec(c: char) -> bool {
    c == '(' || c == ')' || c == ';' || c == '"' || c == '\'' || c == '`' || c == '|' || c == '['
        || c == ']' || c == '{' || c == '}'
}

/// The characters with the Unicode `White_Space` property.
pub open spec fn is_whitespace_spec(c: char) -> bool {
    let n = c as u32;
    (0x09 <= n && n <= 0x0D) || n == 0x20 || n == 0x85 || n == 0xA0 || n == 0x1680 || (0x2000 <= n
        && n <= 0x200A) || n == 0x2028 || n == 0x2029 || n == 0x202F || n == 0x205F || n == 0x3000
}

/// Decides [`is_delimiter_spec`].
pub fn is_delimiter(c: char) -> (b: bool)
    ensures
        b == is_delimiter_spec(c),
{
    match c {
        '(' | ')' | ';' | '"' | '\'' | '`' | '|' | '[' | ']' | '{' | '}' => true,
        _ => false,
    }
}

/// Decides [`is_whitespace_spec`].
pub fn is_whitespace(c: char) -> (b: bool)
    ensures
        b == is_whitespace_spec(c),
{
    let n: u32 = c as u32;
    (0x09 <= n && n <= 0x0D) || n == 0x20 || n == 0x85 || n == 0xA0 || n == 0x1680 || (0x2000 <= n
        && n <= 0x200A) || n == 0x2028 || n == 0x2029 || n == 0x202F || n == 0x205F || n == 0x3000
}

/// The first index at or after `pos` whose character ends an identifier
/// run (a delimiter or whitespace), or the input's length if none does.
pub open spec fn run_end(s: Seq<char>, pos: int) -> int
    decreases s.len() - pos,
{
    if !(0 <= pos < s.len()) {
        s.len() as int
    } else if is_delimiter_spec(s[pos]) || is_whitespace_spec(s[pos]) {
        pos
    } else {
        run_end(s, pos + 1)
    }
}

/// The first index at or after `pos` holding a newline, or the input's
/// length if none does. A line comment reaches up to this index.
pub open spec fn comment_end(s: Seq<char>, pos: int) -> int
    decreases s.len() - pos,
{
    if !(0 <= pos < s.len()) {
        s.len() as int
    } else if s[pos] == '\n' {
        pos
    } else {
        comment_end(s, pos + 1)
    }
}

/// The first index at or after `pos` holding a double quote or a
/// newline, or the input's length if none does. A string literal's
/// body reaches up to this index.
pub open spec fn string_body_end(s: Seq<char>, pos: int) -> int
    decreases s.len() - pos,
{
    if !(0 <= pos < s.len()) {
        s.len() as int
    } else if s[pos] == '"' || s[pos] == '\n' {
        pos
    } else {
        string_body_end(s, pos + 1)
    }
}

/// Position and content of [`run_end`].
pub proof fn lemma_run_end(s: Seq<char>, pos: int)
    requires
        0 <= pos <= s.len(),
    ensures
        pos <= run_end(s, pos) <= s.len(),
        forall|i: int|
            pos <= i < run_end(s, pos) ==> !is_delimiter_spec(s[i]) && !is_whitespace_spec(s[i]),
        run_end(s, pos) < s.len() ==> is_delimiter_spec(s[run_end(s, pos)])
            || is_whitespace_spec(s[run_end(s, pos)]),
    decreases s.len() - pos,
{
    if pos < s.len() && !is_delimiter_spec(s[pos]) && !is_whitespace_spec(s[pos]) {
        lemma_run_end(s, pos + 1);
    }
}

/// Position and content of [`comment_end`].
pub proof fn lemma_comment_end(s: Seq<char>, pos: int)
    requires
        0 <= pos <= s.len(),
    ensures
        pos <= comment_end(s, pos) <= s.len(),
        forall|i: int| pos <= i < comment_end(s, pos) ==> s[i] != '\n',
        comment_end(s, pos) < s.len() ==> s[comment_end(s, pos)] == '\n',
    decreases s.len() - pos,
{
    if pos < s.len() && s[pos] != '\n' {
        lemma_comment_end(s, pos + 1);
    }
}

/// Position and content of [`string_body_end`].
pub proof fn lemma_string_body_end(s: Seq<char>, pos: int)
    requires
        0 <= pos <= s.len(),
    ensures
        pos <= string_body_end(s, pos) <= s.len(),
        forall|i: int| pos <= i < string_body_end(s, pos) ==> s[i] != '"' && s[i] != '\n',
        string_body_end(s, pos) < s.len() ==> s[string_body_end(s, pos)] == '"'
            || s[string_body_end(s, pos)] == '\n',
    decreases s.len() - pos,
{
    if pos < s.len() && s[pos] != '"' && s[pos] != '\n' {
        lemma_string_body_end(s, pos + 1);
    }
}

/// A scanning failure.
///
/// The one way a scan can fail is a malformed string literal; the
/// variant carries the text collected before the failure, owned so
/// that the error value does not borrow from the input buffer.
#[derive(Debug, PartialEq)]
pub enum LexerError {
    InvalidString(String),
}

/// A classified unit of lexical input.
///
/// The two data-carrying variants borrow their text from the input
/// buffer that the [`Tokenizer`] was built over.
#[derive(Debug, PartialEq)]
pub enum Token<'input> {
    // Data
    Identifier(&'input str),
    StringLiteral(&'input str),
    // Symbols
    LBracket,
    RBracket,
    LCurlyBrace,
    RCurlyBrace,
    LParen,
    RParen,
}

/// The mathematical form of a token: its text as a character sequence.
#[verifier::ext_equal]
pub enum SpecToken {
    Identifier(Seq<char>),
    StringLiteral(Seq<char>),
    LBracket,
    RBracket,
    LCurlyBrace,
    RCurlyBrace,
    LParen,
    RParen,
}

impl<'input> View for Token<'input> {
    type V = SpecToken;

    open spec fn view(&self) -> SpecToken {
        match *self {
            Token::Identifier(s) => SpecToken::Identifier(s@),
            Token::StringLiteral(s) => SpecToken::StringLiteral(s@),
            Token::LBracket => SpecToken::LBracket,
            Token::RBracket => SpecToken::RBracket,
            Token::LCurlyBrace => SpecToken::LCurlyBrace,
            Token::RCurlyBrace => SpecToken::RCurlyBrace,
            Token::LParen => SpecToken::LParen,
            Token::RParen => SpecToken::RParen,
        }
    }
}

impl View for LexerError {
    type V = Seq<char>;

    open spec fn view(&self) -> Seq<char> {
        match *self {
            LexerError::InvalidString(ref s) => s@,
        }
    }
}

/// The mathematical form of one stream element: a token, or the text
/// carried by an [`LexerError::InvalidString`] failure.
pub open spec fn item_view<'input>(r: Result<Token<'input>, LexerError>) -> Result<
    SpecToken,
    Seq<char>,
> {
    match r {
        Ok(t) => Ok(t@),
        Err(e) => Err(e@),
    }
}

/// [`item_view`] applied across a drained stream.
pub open spec fn items_view<'input>(items: Seq<Result<Token<'input>, LexerError>>) -> Seq<
    Result<SpecToken, Seq<char>>,
> {
    items.map_values(|r: Result<Token<'input>, LexerError>| item_view(r))
}

/// The structural token that a character is emitted as, if any.
pub open spec fn delimiter_token(c: char) -> Option<SpecToken> {
    if c == '[' {
        Some(SpecToken::LBracket)
    } else if c == ']' {
        Some(SpecToken::RBracket)
    } else if c == '{' {
        Some(SpecToken::LCurlyBrace)
    } else if c == '}' {
        Some(SpecToken::RCurlyBrace)
    } else if c == '(' {
        Some(SpecToken::LParen)
    } else if c == ')' {
        Some(SpecToken::RParen)
    } else {
        None
    }
}

/// What capturing a string literal opened at `pos` yields, and the
/// cursor position afterwards.
///
/// The candidate body runs from just after the opening quote up to the
/// next quote or newline. A body of any length other than exactly one
/// character succeeds when a closing quote follows (which is consumed);
/// every other outcome - a newline, the end of the input, or a body of
/// exactly one character - fails with the body as the error text, and
/// the character that stopped the scan is left unconsumed.
pub open spec fn string_step(s: Seq<char>, pos: int) -> (Result<SpecToken, Seq<char>>, int) {
    let e = string_body_end(s, pos + 1);
    let body = s.subrange(pos + 1, e);
    if body.len() != 1 && e < s.len() && s[e] == '"' {
        (Ok(SpecToken::StringLiteral(body)), e + 1)
    } else {
        (Err(body), e)
    }
}

/// The stream of results that scanning `s` from position `pos` yields.
///
/// This is the specification that [`Tokenizer::next`] and [`tokenize`]
/// are proved against: one branch per character class, in the
/// precedence order the scanner checks them.
pub open spec fn lex_from(s: Seq<char>, pos: int) -> Seq<Result<SpecToken, Seq<char>>>
    decreases s.len() - pos,
{
    if !(0 <= pos < s.len()) {
        Seq::empty()
    } else {
        let c = s[pos];
        if delimiter_token(c) is Some {
            seq![Ok(delimiter_token(c)->0)] + lex_from(s, pos + 1)
        } else if c == '"' {
            proof {
                lemma_string_body_end(s, pos + 1);
            }
            seq![string_step(s, pos).0] + lex_from(s, string_step(s, pos).1)
        } else if c == ';' {
            proof {
                lemma_comment_end(s, pos + 1);
            }
            lex_from(s, comment_end(s, pos + 1))
        } else if is_whitespace_spec(c) {
            lex_from(s, pos + 1)
        } else {
            proof {
                lemma_run_end(s, pos + 1);
            }
            seq![Ok(SpecToken::Identifier(s.subrange(pos, run_end(s, pos + 1))))] + lex_from(
                s,
                run_end(s, pos + 1),
            )
        }
    }
}

/// One unfolding of [`lex_from`] at an in-range position, split by
/// character class.
proof fn lemma_lex_from_step(s: Seq<char>, pos: int)
    requires
        0 <= pos < s.len(),
    ensures
        delimiter_token(s[pos]) is Some ==> lex_from(s, pos) == seq![
            Ok::<SpecToken, Seq<char>>(delimiter_token(s[pos])->0),
        ] + lex_from(s, pos + 1),
        s[pos] == '"' ==> lex_from(s, pos) == seq![string_step(s, pos).0] + lex_from(
            s,
            string_step(s, pos).1,
        ),
        s[pos] == ';' ==> lex_from(s, pos) == lex_from(s, comment_end(s, pos + 1)),
        delimiter_token(s[pos]) is None && s[pos] != '"' && s[pos] != ';' && is_whitespace_spec(
            s[pos],
        ) ==> lex_from(s, pos) == lex_from(s, pos + 1),
        delimiter_token(s[pos]) is None && s[pos] != '"' && s[pos] != ';' && !is_whitespace_spec(
            s[pos],
        ) ==> lex_from(s, pos) == seq![
            Ok::<SpecToken, Seq<char>>(
                SpecToken::Identifier(s.subrange(pos, run_end(s, pos + 1))),
            ),
        ] + lex_from(s, run_end(s, pos + 1)),
{
}

/// A forward-only scanner over a borrowed input text.
///
/// The cursor counts characters, never bytes, and only ever moves
/// forward: once a character has been consumed it is never re-read,
/// so a failed string literal does not stop later calls from making
/// progress.
pub struct Tokenizer<'input> {
    input: &'input str,
    length: usize,
    pos: usize,
}

impl<'input> Tokenizer<'input> {
    /// The input text being scanned.
    pub closed spec fn text(&self) -> Seq<char> {
        self.input@
    }

    /// The cursor: the index of the next character to be read.
    pub closed spec fn cursor(&self) -> int {
        self.pos as int
    }

    /// The cursor lies within the input.
    pub closed spec fn wf(&self) -> bool {
        self.pos <= self.length && self.length == self.input@.len()
    }

    /// A scanner over `input`, with its cursor at the beginning.
    pub fn new(input: &'input str) -> (t: Tokenizer<'input>)
        ensures
            t.wf(),
            t.text() == input@,
            t.cursor() == 0,
    {
        let length = input.unicode_len();
        Tokenizer { input, length, pos: 0 }
    }

    /// Captures the contiguous run that begins at `start`, whose first
    /// character the caller has just consumed, and emits it as an
    /// identifier. The run absorbs every character up to the next
    /// delimiter or whitespace.
    fn consume_identifier(&mut self, start: usize) -> (r: Result<Token<'input>, LexerError>)
        requires
            old(self).wf(),
            old(self).cursor() == start + 1,
        ensures
            final(self).wf(),
            final(self).text() == old(self).text(),
            final(self).cursor() == run_end(final(self).text(), start + 1),
            item_view(r) == Ok::<SpecToken, Seq<char>>(
                SpecToken::Identifier(
                    final(self).text().subrange(
                        start as int,
                        run_end(final(self).text(), start + 1),
                    ),
                ),
            ),
    {
        loop
            invariant
                self.wf(),
                self.input == old(self).input,
                start + 1 <= self.cursor() <= self.text().len(),
                run_end(self.text(), start + 1) == run_end(self.text(), self.cursor()),
            ensures
                self.wf(),
                self.input == old(self).input,
                start + 1 <= self.cursor() <= self.text().len(),
                self.cursor() == run_end(self.text(), start + 1),
            decreases self.text().len() - self.cursor(),
        {
            if self.pos >= self.length {
                break ;
            }
            let c = self.input.get_char(self.pos);
            if is_delimiter(c) || is_whitespace(c) {
                break ;
            }
            self.pos = self.pos + 1;
        }
        let word = self.input.substring_char(start, self.pos);
        Ok(Token::Identifier(word))
    }

    /// Captures the string literal whose opening quote, at `start`, the
    /// caller has just consumed.
    ///
    /// The candidate body reaches up to the next quote or newline. A
    /// body of any length other than exactly one character becomes a
    /// token when a closing quote follows; everything else fails with
    /// the body as the error text. In particular a one-character body
    /// is rejected even when its closing quote is present - the quote
    /// is left unconsumed, so the next call re-enters string capture
    /// there.
    fn consume_string(&mut self, start: usize) -> (r: Result<Token<'input>, LexerError>)
        requires
            old(self).wf(),
            old(self).cursor() == start + 1,
        ensures
            final(self).wf(),
            final(self).text() == old(self).text(),
            final(self).cursor() == string_step(final(self).text(), start as int).1,
            item_view(r) == string_step(final(self).text(), start as int).0,
    {
        loop
            invariant
                self.wf(),
                self.input == old(self).input,
                start + 1 <= self.cursor() <= self.text().len(),
                string_body_end(self.text(), start + 1) == string_body_end(
                    self.text(),
                    self.cursor(),
                ),
            ensures
                self.wf(),
                self.input == old(self).input,
                start + 1 <= self.cursor() <= self.text().len(),
                self.cursor() == string_body_end(self.text(), start + 1),
            decreases self.text().len() - self.cursor(),
        {
            if self.pos >= self.length {
                break ;
            }
            let c = self.input.get_char(self.pos);
            if c == '"' || c == '\n' {
                break ;
            }
            self.pos = self.pos + 1;
        }
        let slice = self.input.substring_char(start + 1, self.pos);
        if slice.unicode_len() != 1 {
            if self.pos < self.length {
                let peek = self.input.get_char(self.pos);
                if peek == '"' {
                    self.pos = self.pos + 1;
                    return Ok(Token::StringLiteral(slice));
                } else {
                    return Err(LexerError::InvalidString(slice.to_owned()));
                }
            }
        }
        Err(LexerError::InvalidString(slice.to_owned()))
    }

    /// Skips the line comment whose opening `;`, at `start`, the caller
    /// has just consumed: the cursor moves to the next newline, which
    /// is left unconsumed, or to the end of the input.
    fn consume_line_comment(&mut self, start: usize)
        requires
            old(self).wf(),
            old(self).cursor() == start + 1,
        ensures
            final(self).wf(),
            final(self).text() == old(self).text(),
            final(self).cursor() == comment_end(final(self).text(), start + 1),
    {
        loop
            invariant
                self.wf(),
                self.input == old(self).input,
                start + 1 <= self.cursor() <= self.text().len(),
                comment_end(self.text(), start + 1) == comment_end(self.text(), self.cursor()),
            ensures
                self.wf(),
                self.input == old(self).input,
                self.cursor() == comment_end(self.text(), start + 1),
            decreases self.text().len() - self.cursor(),
        {
            if self.pos >= self.length {
                break ;
            }
            let c = self.input.get_char(self.pos);
            if c == '\n' {
                break ;
            }
            self.pos = self.pos + 1;
        }
    }

    /// Produces the next stream element, advancing the cursor past
    /// exactly the characters it processed: `Some(Ok(token))` for a
    /// token, `Some(Err(error))` for a malformed string literal, and
    /// `None` once the input is exhausted. Trivia before the element
    /// is skipped within the same call. A failure does not stop the
    /// stream: the cursor still moves forward, and later calls go on
    /// scanning from where it stopped.
    pub fn next(&mut self) -> (r: Option<Result<Token<'input>, LexerError>>)
        requires
            old(self).wf(),
        ensures
            final(self).wf(),
            final(self).text() == old(self).text(),
            old(self).cursor() <= final(self).cursor() <= final(self).text().len(),
            r is None ==> final(self).cursor() == final(self).text().len() && lex_from(
                final(self).text(),
                old(self).cursor(),
            ) == Seq::<Result<SpecToken, Seq<char>>>::empty(),
            r matches Some(item) ==> lex_from(final(self).text(), old(self).cursor()).len() > 0
                && item_view(item) == lex_from(final(self).text(), old(self).cursor())[0]
                && lex_from(final(self).text(), final(self).cursor()) == lex_from(
                final(self).text(),
                old(self).cursor(),
            ).drop_first() && old(self).cursor() < final(self).cursor(),
    {
        loop
            invariant
                self.wf(),
                self.text() == old(self).text(),
                old(self).cursor() <= self.cursor() <= self.text().len(),
                lex_from(self.text(), self.cursor()) == lex_from(self.text(), old(self).cursor()),
            decreases self.text().len() - self.cursor(),
        {
            if self.pos >= self.length {
                proof {
                    assert(lex_from(self.text(), self.cursor()) =~= Seq::<
                        Result<SpecToken, Seq<char>>,
                    >::empty());
                }
                return None;
            }
            let i = self.pos;
            let ghost s = self.text();
            let c = self.input.get_char(i);
            self.pos = i + 1;
            proof {
                lemma_lex_from_step(s, i as int);
            }
            match c {
                '[' => {
                    proof {
                        lemma_drop_head(Ok(SpecToken::LBracket), lex_from(s, i + 1));
                    }
                    return Some(Ok(Token::LBracket));
                },
                ']' => {
                    proof {
                        lemma_drop_head(Ok(SpecToken::RBracket), lex_from(s, i + 1));
                    }
                    return Some(Ok(Token::RBracket));
                },
                '{' => {
                    proof {
                        lemma_drop_head(Ok(SpecToken::LCurlyBrace), lex_from(s, i + 1));
                    }
                    return Some(Ok(Token::LCurlyBrace));
                },
                '}' => {
                    proof {
                        lemma_drop_head(Ok(SpecToken::RCurlyBrace), lex_from(s, i + 1));
                    }
                    return Some(Ok(Token::RCurlyBrace));
                },
                '(' => {
                    proof {
                        lemma_drop_head(Ok(SpecToken::LParen), lex_from(s, i + 1));
                    }
                    return Some(Ok(Token::LParen));
                },
                ')' => {
                    proof {
                        lemma_drop_head(Ok(SpecToken::RParen), lex_from(s, i + 1));
                    }
                    return Some(Ok(Token::RParen));
                },
                '"' => {
                    let r = self.consume_string(i);
                    proof {
                        lemma_string_body_end(s, i + 1);
                        lemma_drop_head(
                            string_step(s, i as int).0,
                            lex_from(s, string_step(s, i as int).1),
                        );
                    }
                    return Some(r);
                },
                ';' => {
                    self.consume_line_comment(i);
                    proof {
                        lemma_comment_end(s, i + 1);
                    }
                },
                _ => {
                    if is_whitespace(c) {
                        // trivia: keep scanning within this call
                    } else {
                        let r = self.consume_identifier(i);
                        proof {
                            lemma_run_end(s, i + 1);
                            lemma_drop_head(
                                Ok(SpecToken::Identifier(s.subrange(i as int, run_end(s, i + 1)))),
                                lex_from(s, run_end(s, i + 1)),
                            );
                        }
                        return Some(r);
                    }
                },
            }
        }
    }
}

/// Dropping the first element of a stream that begins with `head`
/// leaves `rest`.
proof fn lemma_drop_head(head: Result<SpecToken, Seq<char>>, rest: Seq<Result<SpecToken, Seq<char>>>)
    ensures
        (seq![head] + rest).len() == 1 + rest.len(),
        (seq![head] + rest)[0] == head,
        (seq![head] + rest).drop_first() =~= rest,
{
}

/// Scans the whole of `input` at once: the stream that a fresh
/// [`Tokenizer`] yields, drained into a vector, in input order.
pub fn tokenize<'input>(input: &'input str) -> (r: Vec<Result<Token<'input>, LexerError>>)
    ensures
        items_view(r@) == lex_from(input@, 0),
{
    let mut tokenizer = Tokenizer::new(input);
    let mut results: Vec<Result<Token<'input>, LexerError>> = Vec::new();
    loop
        invariant
            tokenizer.wf(),
            tokenizer.text() == input@,
            items_view(results@) + lex_from(input@, tokenizer.cursor()) == lex_from(input@, 0),
        ensures
            items_view(results@) == lex_from(input@, 0),
        decreases input@.len() - tokenizer.cursor(),
    {
        let ghost c0 = tokenizer.cursor();
        let ghost r0 = results@;
        let item = tokenizer.next();
        match item {
            Some(x) => {
                results.push(x);
                proof {
                    assert(items_view(results@) =~= items_view(r0).push(item_view(x)));
                    assert(seq![item_view(x)] + lex_from(input@, tokenizer.cursor()) =~= lex_from(
                        input@,
                        c0,
                    ));
                    assert(items_view(results@) + lex_from(input@, tokenizer.cursor())
                        =~= items_view(r0) + lex_from(input@, c0));
                }
            },
            None => {
                proof {
                    assert(items_view(results@) + lex_from(input@, tokenizer.cursor())
                        =~= items_view(results@));
                }
                break ;
            },
        }
    }
    results
}

/// The text a token stands for: its span's characters. For the six
/// structural tokens that is the delimiter character itself; for a
/// string literal it is the body between the quotes.
pub open spec fn token_text(t: SpecToken) -> Seq<char> {
    match t {
        SpecToken::Identifier(body) => body,
        SpecToken::StringLiteral(body) => body,
        SpecToken::LBracket => seq!['['],
        SpecToken::RBracket => seq![']'],
        SpecToken::LCurlyBrace => seq!['{'],
        SpecToken::RCurlyBrace => seq!['}'],
        SpecToken::LParen => seq!['('],
        SpecToken::RParen => seq![')'],
    }
}

/// The texts of a stream's tokens, concatenated in order; failures
/// contribute nothing.
pub open spec fn emitted_text(items: Seq<Result<SpecToken, Seq<char>>>) -> Seq<char>
    decreases items.len(),
{
    if items.len() == 0 {
        Seq::empty()
    } else {
        (match items[0] {
            Ok(t) => token_text(t),
            Err(_) => Seq::<char>::empty(),
        }) + emitted_text(items.drop_first())
    }
}

/// The characters of `s` from `pos` on that belong to no comment and
/// are no whitespace, in order.
pub open spec fn non_trivia_from(s: Seq<char>, pos: int) -> Seq<char>
    decreases s.len() - pos,
{
    if !(0 <= pos < s.len()) {
        Seq::empty()
    } else if s[pos] == ';' {
        proof {
            lemma_comment_end(s, pos + 1);
        }
        non_trivia_from(s, comment_end(s, pos + 1))
    } else if is_whitespace_spec(s[pos]) {
        non_trivia_from(s, pos + 1)
    } else {
        seq![s[pos]] + non_trivia_from(s, pos + 1)
    }
}

/// Across a stretch of characters that open no comment and are no
/// whitespace, [`non_trivia_from`] keeps every character.
proof fn lemma_non_trivia_run(s: Seq<char>, pos: int, e: int)
    requires
        0 <= pos <= e <= s.len(),
        forall|i: int| pos <= i < e ==> s[i] != ';' && !is_whitespace_spec(s[i]),
    ensures
        non_trivia_from(s, pos) =~= s.subrange(pos, e) + non_trivia_from(s, e),
    decreases e - pos,
{
    if pos < e {
        lemma_non_trivia_run(s, pos + 1, e);
        assert(s.subrange(pos, e) =~= seq![s[pos]] + s.subrange(pos + 1, e));
    } else {
        assert(s.subrange(pos, e) =~= Seq::<char>::empty());
    }
}

/// The induction behind [`lemma_tokens_reconstruct`], over every
/// starting position.
proof fn lemma_tokens_reconstruct_from(s: Seq<char>, pos: int)
    requires
        0 <= pos <= s.len(),
        forall|i: int| 0 <= i < s.len() ==> s[i] != '"',
    ensures
        emitted_text(lex_from(s, pos)) =~= non_trivia_from(s, pos),
        forall|j: int| 0 <= j < lex_from(s, pos).len() ==> lex_from(s, pos)[j] is Ok,
    decreases s.len() - pos,
{
    if 0 <= pos < s.len() {
        let c = s[pos];
        if delimiter_token(c) is Some {
            let t = delimiter_token(c)->0;
            lemma_drop_head(Ok(t), lex_from(s, pos + 1));
            lemma_tokens_reconstruct_from(s, pos + 1);
            assert(emitted_text(lex_from(s, pos)) =~= token_text(t) + emitted_text(
                lex_from(s, pos + 1),
            ));
            assert(token_text(t) =~= seq![c]);
        } else if c == ';' {
            lemma_comment_end(s, pos + 1);
            lemma_tokens_reconstruct_from(s, comment_end(s, pos + 1));
        } else if is_whitespace_spec(c) {
            lemma_tokens_reconstruct_from(s, pos + 1);
        } else {
            lemma_run_end(s, pos + 1);
            let e = run_end(s, pos + 1);
            let t = SpecToken::Identifier(s.subrange(pos, e));
            lemma_drop_head(Ok(t), lex_from(s, e));
            lemma_tokens_reconstruct_from(s, e);
            assert(emitted_text(lex_from(s, pos)) =~= s.subrange(pos, e) + emitted_text(
                lex_from(s, e),
            ));
            lemma_non_trivia_run(s, pos, e);
        }
    }
}

/// For input that holds no double quote, scanning fails nowhere, and
/// the concatenated texts of the emitted tokens, in order, are exactly
/// the input's non-trivia characters: nothing outside comments and
/// whitespace is lost or reordered.
pub proof fn lemma_tokens_reconstruct(s: Seq<char>)
    requires
        forall|i: int| 0 <= i < s.len() ==> s[i] != '"',
    ensures
        emitted_text(lex_from(s, 0)) == non_trivia_from(s, 0),
        forall|j: int| 0 <= j < lex_from(s, 0).len() ==> lex_from(s, 0)[j] is Ok,
{
    lemma_tokens_reconstruct_from(s, 0);
}

/// A line comment yields no stream element at all, whatever characters
/// it holds: scanning continues at the newline that ends it, or stops
/// at the end of the input.
pub proof fn lemma_comment_yields_nothing(s: Seq<char>, pos: int)
    requires
        0 <= pos < s.len(),
        s[pos] == ';',
    ensures
        lex_from(s, pos) == lex_from(s, comment_end(s, pos + 1)),
        pos < comment_end(s, pos + 1) <= s.len(),
        comment_end(s, pos + 1) == s.len() || s[comment_end(s, pos + 1)] == '\n',
        forall|i: int| pos + 1 <= i < comment_end(s, pos + 1) ==> s[i] != '\n',
{
    lemma_comment_end(s, pos + 1);
}

/// An input that is one unterminated line comment yields an empty
/// stream, whatever delimiter or quote characters the comment holds.
pub proof fn lemma_comment_line_yields_nothing(s: Seq<char>)
    requires
        s.len() > 0,
        s[0] == ';',
        forall|i: int| 0 < i < s.len() ==> s[i] != '\n',
    ensures
        lex_from(s, 0) == Seq::<Result<SpecToken, Seq<char>>>::empty(),
{
    lemma_comment_end(s, 1);
    assert(lex_from(s, comment_end(s, 1)) =~= Seq::<Result<SpecToken, Seq<char>>>::empty());
}

/// Scanning has no hidden state: the stream is a function of the input
/// text alone, so equal texts - in particular, the same buffer scanned
/// by two freshly built tokenizers - yield equal streams.
pub proof fn lemma_lex_deterministic(s1: Seq<char>, s2: Seq<char>)
    requires
        s1 =~= s2,
    ensures
        lex_from(s1, 0) == lex_from(s2, 0),
{
}

/// An empty input yields an empty stream: no tokens and no errors.
pub proof fn lemma_empty_input_yields_nothing(s: Seq<char>)
    requires
        s.len() == 0,
    ensures
        lex_from(s, 0) == Seq::<Result<SpecToken, Seq<char>>>::empty(),
{
    assert(lex_from(s, 0) =~= Seq::<Result<SpecToken, Seq<char>>>::empty());
}

} // verus!
