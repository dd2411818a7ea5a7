//! Lexical analysis: a single forward pass over a fully loaded source
//! buffer, producing one token per call until an end-of-input sentinel.
//!
//! The tokenizer keeps a lexeme-begin cursor and a one-character lookahead
//! cursor. Before each token it skips whitespace, `(* ... *)` block comments
//! (non-nesting: the first `*)` closes the comment regardless of any inner
//! `(*`) and `--` line comments. The line counter increments whenever the
//! lexeme-begin cursor lands on a newline character.

use vstd::prelude::*;

verus! {

/// Relational operator sub-tag of [`Token::Relop`].
#[derive(Clone, Debug, PartialEq, Eq, Hash, Structural)]
pub enum Relop {
    EE,
    LT,
    LE,
}

/// Arithmetic operator sub-tag of [`Token::MathOp`].
#[derive(Clone, Debug, PartialEq, Eq, Hash, Structural)]
pub enum MathOp {
    Plus,
    Minus,
    Multiply,
    Divide,
}

/// One lexical token. Identifiers, type names and string literals carry
/// their text; an integer literal carries its run of decimal digits, and
/// its view carries the unbounded value those digits denote.
#[derive(Clone, Debug, PartialEq, Eq, Hash)]
pub enum Token {
    Class,
    Else,
    False,
    Fi,
    If,
    In,
    Inherits,
    Isvoid,
    Let,
    Loop,
    Pool,
    Then,
    While,
    Case,
    Esac,
    New,
    Of,
    Not,
    True,
    Colon,
    Comma,
    SemiColon,
    LeftBrace,
    RightBrace,
    LeftParen,
    RightParen,
    LeftBracket,
    RightBracket,
    FatArrow,
    Dot,
    At,
    Assignment,
    Relop(Relop),
    MathOp(MathOp),
    Id(String),
    Type(String),
    Integer(String),
    StringLiteral(String),
    EndOfInput,
}

/// Mathematical value of a [`Token`]: text becomes a sequence of
/// characters, an integer literal its unbounded value.
pub enum TokenV {
    Class,
    Else,
    False,
    Fi,
    If,
    In,
    Inherits,
    Isvoid,
    Let,
    Loop,
    Pool,
    Then,
    While,
    Case,
    Esac,
    New,
    Of,
    Not,
    True,
    Colon,
    Comma,
    SemiColon,
    LeftBrace,
    RightBrace,
    LeftParen,
    RightParen,
    LeftBracket,
    RightBracket,
    FatArrow,
    Dot,
    At,
    Assignment,
    Relop(Relop),
    MathOp(MathOp),
    Id(Seq<char>),
    Type(Seq<char>),
    Integer(int),
    StringLiteral(Seq<char>),
    EndOfInput,
}

impl View for Token {
    type V = TokenV;

    open spec fn view(&self) -> TokenV {
        match self {
            Token::Class => TokenV::Class,
            Token::Else => TokenV::Else,
            Token::False => TokenV::False,
            Token::Fi => TokenV::Fi,
            Token::If => TokenV::If,
            Token::In => TokenV::In,
            Token::Inherits => TokenV::Inherits,
            Token::Isvoid => TokenV::Isvoid,
            Token::Let => TokenV::Let,
            Token::Loop => TokenV::Loop,
            Token::Pool => TokenV::Pool,
            Token::Then => TokenV::Then,
            Token::While => TokenV::While,
            Token::Case => TokenV::Case,
            Token::Esac => TokenV::Esac,
            Token::New => TokenV::New,
            Token::Of => TokenV::Of,
            Token::Not => TokenV::Not,
            Token::True => TokenV::True,
            Token::Colon => TokenV::Colon,
            Token::Comma => TokenV::Comma,
            Token::SemiColon => TokenV::SemiColon,
            Token::LeftBrace => TokenV::LeftBrace,
            Token::RightBrace => TokenV::RightBrace,
            Token::LeftParen => TokenV::LeftParen,
            Token::RightParen => TokenV::RightParen,
            Token::LeftBracket => TokenV::LeftBracket,
            Token::RightBracket => TokenV::RightBracket,
            Token::FatArrow => TokenV::FatArrow,
            Token::Dot => TokenV::Dot,
            Token::At => TokenV::At,
            Token::Assignment => TokenV::Assignment,
            Token::Relop(op) => TokenV::Relop(*op),
            Token::MathOp(op) => TokenV::MathOp(*op),
            Token::Id(s) => TokenV::Id(s@),
            Token::Type(s) => TokenV::Type(s@),
            Token::Integer(s) => TokenV::Integer(decimal_value(s@)),
            Token::StringLiteral(s) => TokenV::StringLiteral(s@),
            Token::EndOfInput => TokenV::EndOfInput,
        }
    }
}

impl DeepView for Token {
    type V = TokenV;

    open spec fn deep_view(&self) -> TokenV {
        self.view()
    }
}

/// What went wrong during tokenization.
#[derive(Clone, Debug, PartialEq)]
pub enum LexErrorKind {
    /// A `(*` block comment reached end of input before any `*)`.
    UnterminatedComment,
    /// A `"` string literal reached end of input before the closing `"`.
    UnterminatedString,
    /// An alphanumeric lexeme began with a digit; carries the lexeme.
    DigitLedIdentifier(String),
    /// A character that can begin no lexeme; carries the character.
    UnrecognizedCharacter(char),
}

/// Mathematical value of a [`LexErrorKind`].
pub enum LexErrorKindV {
    UnterminatedComment,
    UnterminatedString,
    DigitLedIdentifier(Seq<char>),
    UnrecognizedCharacter(char),
}

impl View for LexErrorKind {
    type V = LexErrorKindV;

    open spec fn view(&self) -> LexErrorKindV {
        match self {
            LexErrorKind::UnterminatedComment => LexErrorKindV::UnterminatedComment,
            LexErrorKind::UnterminatedString => LexErrorKindV::UnterminatedString,
            LexErrorKind::DigitLedIdentifier(s) => LexErrorKindV::DigitLedIdentifier(s@),
            LexErrorKind::UnrecognizedCharacter(c) => LexErrorKindV::UnrecognizedCharacter(*c),
        }
    }
}

/// A lexical error with its position context: source file name and
/// 1-based line number.
#[derive(Clone, Debug, PartialEq)]
pub struct LexError {
    pub file: String,
    pub line: usize,
    pub kind: LexErrorKind,
}

// ---------------------------------------------------------------------------
// Character classes. The token grammar is ASCII; classification is by
// explicit character ranges.
// ---------------------------------------------------------------------------

/// Whitespace skipped between tokens.
pub open spec fn is_space_char(c: char) -> bool {
    c == ' ' || c == '\t' || c == '\n' || c == '\r' || c == '\u{b}' || c == '\u{c}'
}

/// A decimal digit.
pub open spec fn is_digit_char(c: char) -> bool {
    '0' <= c && c <= '9'
}

/// An ASCII letter.
pub open spec fn is_letter_char(c: char) -> bool {
    ('a' <= c && c <= 'z') || ('A' <= c && c <= 'Z')
}

/// An uppercase ASCII letter: the mark of a type identifier.
pub open spec fn is_upper_char(c: char) -> bool {
    'A' <= c && c <= 'Z'
}

/// A character that may begin an identifier or keyword lexeme.
pub open spec fn is_ident_start_char(c: char) -> bool {
    is_letter_char(c) || c == '_'
}

/// A character that extends an identifier or keyword lexeme.
pub open spec fn is_ident_char(c: char) -> bool {
    is_letter_char(c) || is_digit_char(c) || c == '_'
}

/// A character that extends a digit-led lexeme (its boundary is the first
/// non-alphanumeric character).
pub open spec fn is_alnum_char(c: char) -> bool {
    is_letter_char(c) || is_digit_char(c)
}

/// The character at position `i`, or NUL beyond either end of the buffer:
/// the cursors read NUL once they pass the last character.
pub open spec fn char_at(s: Seq<char>, i: int) -> char {
    if 0 <= i && i < s.len() {
        s[i]
    } else {
        '\0'
    }
}

/// 1 when the character at position `i` is a newline, else 0: the amount
/// the line counter grows when the lexeme-begin cursor lands on `i`.
pub open spec fn newline_step(s: Seq<char>, i: int) -> int {
    if char_at(s, i) == '\n' {
        1
    } else {
        0
    }
}

/// How many newline characters stand at positions `i + 1 ..= j`: the total
/// line-counter growth when the lexeme-begin cursor walks from `i` to `j`
/// one position at a time.
pub open spec fn newlines_between(s: Seq<char>, i: int, j: int) -> int
    decreases j - i,
{
    if j <= i {
        0
    } else {
        newlines_between(s, i, j - 1) + newline_step(s, j)
    }
}

// ---------------------------------------------------------------------------
// Forward scans. Each returns where a scan that starts at position `i` and
// steps one character at a time comes to rest.
// ---------------------------------------------------------------------------

/// The end of an identifier lexeme: the first position at or after `i`
/// whose character does not extend an identifier.
pub open spec fn word_end(s: Seq<char>, i: int) -> int
    decreases s.len() - i,
{
    if i < s.len() && is_ident_char(char_at(s, i)) {
        word_end(s, i + 1)
    } else {
        i
    }
}

pub proof fn lemma_word_end_bounds(s: Seq<char>, i: int)
    requires
        0 <= i <= s.len(),
    ensures
        i <= word_end(s, i) <= s.len(),
    decreases s.len() - i,
{
    if i < s.len() && is_ident_char(char_at(s, i)) {
        lemma_word_end_bounds(s, i + 1);
    }
}

/// The end of a digit-led lexeme: the first position at or after `i`
/// whose character is not alphanumeric.
pub open spec fn number_end(s: Seq<char>, i: int) -> int
    decreases s.len() - i,
{
    if i < s.len() && is_alnum_char(char_at(s, i)) {
        number_end(s, i + 1)
    } else {
        i
    }
}

/// The position of the first `"` at or after `i`, if any.
pub open spec fn find_string_close(s: Seq<char>, i: int) -> Option<int>
    decreases s.len() - i,
{
    if i >= s.len() {
        Option::None
    } else if char_at(s, i) == '"' {
        Option::Some(i)
    } else {
        find_string_close(s, i + 1)
    }
}

/// The position of the first `*` that a `)` follows, at or after `i`,
/// if any: where a block comment closes.
pub open spec fn find_comment_close(s: Seq<char>, i: int) -> Option<int>
    decreases s.len() - i,
{
    if i >= s.len() {
        Option::None
    } else if char_at(s, i) == '*' && char_at(s, i + 1) == ')' {
        Option::Some(i)
    } else {
        find_comment_close(s, i + 1)
    }
}

pub proof fn lemma_comment_close_bounds(s: Seq<char>, i: int)
    requires
        find_comment_close(s, i) is Some,
    ensures
        i <= find_comment_close(s, i)->Some_0,
        find_comment_close(s, i)->Some_0 + 2 <= s.len(),
    decreases s.len() - i,
{
    if i < s.len() && !(char_at(s, i) == '*' && char_at(s, i + 1) == ')') {
        lemma_comment_close_bounds(s, i + 1);
    }
}

/// The position of the first newline at or after `i`, or the buffer length
/// when none remains: where a `--` line comment ends.
pub open spec fn find_line_end(s: Seq<char>, i: int) -> int
    decreases s.len() - i,
{
    if i >= s.len() {
        s.len() as int
    } else if char_at(s, i) == '\n' {
        i
    } else {
        find_line_end(s, i + 1)
    }
}

pub proof fn lemma_line_end_bounds(s: Seq<char>, i: int)
    requires
        0 <= i <= s.len(),
    ensures
        i <= find_line_end(s, i) <= s.len(),
    decreases s.len() - i,
{
    if i < s.len() && char_at(s, i) != '\n' {
        lemma_line_end_bounds(s, i + 1);
    }
}

// ---------------------------------------------------------------------------
// The pre-pass that runs before every token: skip whitespace, block
// comments and line comments until a lexeme can begin.
// ---------------------------------------------------------------------------

/// Where the pre-pass comes to rest: at a lexeme start with the line
/// counter carried along, or in a block comment that never closes.
pub enum SkipV {
    /// Lexeme-begin cursor position and line number after skipping.
    Go(int, int),
    /// A block comment reached end of input; carries the line number after
    /// the scan walked to the end of the buffer.
    Unclosed(int),
}

/// The pre-pass itself, from lexeme-begin position `b` on line `l`.
/// Whitespace advances one position; `(*` jumps past the first `*)`
/// (nested `(*` is not accounted for); `--` jumps past the next newline
/// (or to the end of input); anything else ends the pre-pass.
pub open spec fn skip_trivia_spec(s: Seq<char>, b: int, l: int) -> SkipV
    decreases s.len() - b,
{
    if is_space_char(char_at(s, b)) {
        skip_trivia_spec(s, b + 1, l + newline_step(s, b + 1))
    } else if char_at(s, b) == '(' && char_at(s, b + 1) == '*' {
        match find_comment_close(s, b + 2) {
            Option::None => SkipV::Unclosed(l + newlines_between(s, b, s.len() as int)),
            Option::Some(c) => {
                proof {
                    lemma_comment_close_bounds(s, b + 2);
                }
                skip_trivia_spec(s, c + 2, l + newlines_between(s, b, c + 2))
            },
        }
    } else if char_at(s, b) == '-' && char_at(s, b + 1) == '-' {
        let e = find_line_end(s, b);
        if e < s.len() {
            proof {
                if 0 <= b {
                    lemma_line_end_bounds(s, b);
                }
            }
            skip_trivia_spec(s, e + 1, l + newlines_between(s, b, e + 1))
        } else {
            skip_trivia_spec(s, s.len() as int, l + newlines_between(s, b, s.len() as int))
        }
    } else {
        SkipV::Go(b, l)
    }
}

// ---------------------------------------------------------------------------
// Token recognition at a lexeme start.
// ---------------------------------------------------------------------------

/// The fixed keyword table: the token a word lexeme denotes when it is a
/// keyword, else `None`.
pub open spec fn keyword_token(w: Seq<char>) -> Option<TokenV> {
    if w == "class"@ {
        Option::Some(TokenV::Class)
    } else if w == "else"@ {
        Option::Some(TokenV::Else)
    } else if w == "false"@ {
        Option::Some(TokenV::False)
    } else if w == "fi"@ {
        Option::Some(TokenV::Fi)
    } else if w == "if"@ {
        Option::Some(TokenV::If)
    } else if w == "in"@ {
        Option::Some(TokenV::In)
    } else if w == "inherits"@ {
        Option::Some(TokenV::Inherits)
    } else if w == "isvoid"@ {
        Option::Some(TokenV::Isvoid)
    } else if w == "let"@ {
        Option::Some(TokenV::Let)
    } else if w == "loop"@ {
        Option::Some(TokenV::Loop)
    } else if w == "pool"@ {
        Option::Some(TokenV::Pool)
    } else if w == "then"@ {
        Option::Some(TokenV::Then)
    } else if w == "while"@ {
        Option::Some(TokenV::While)
    } else if w == "case"@ {
        Option::Some(TokenV::Case)
    } else if w == "esac"@ {
        Option::Some(TokenV::Esac)
    } else if w == "new"@ {
        Option::Some(TokenV::New)
    } else if w == "of"@ {
        Option::Some(TokenV::Of)
    } else if w == "not"@ {
        Option::Some(TokenV::Not)
    } else if w == "true"@ {
        Option::Some(TokenV::True)
    } else {
        Option::None
    }
}

/// Whether a word lexeme is one of the fixed keywords.
pub open spec fn is_keyword(w: Seq<char>) -> bool {
    keyword_token(w) is Some
}

/// What a word lexeme denotes: the keyword table takes precedence; a word
/// that is no keyword is a type identifier when its first character is
/// uppercase, else an object identifier.
pub open spec fn classify_word(w: Seq<char>) -> TokenV {
    match keyword_token(w) {
        Option::Some(t) => t,
        Option::None => if is_upper_char(char_at(w, 0)) {
            TokenV::Type(w)
        } else {
            TokenV::Id(w)
        },
    }
}

/// The numeric value of a digit character.
pub open spec fn digit_value(c: char) -> int {
    c as int - '0' as int
}

/// Whether every character of `w` is a decimal digit.
pub open spec fn all_digits(w: Seq<char>) -> bool {
    forall|k: int| 0 <= k < w.len() ==> is_digit_char(#[trigger] w[k])
}

/// The value of a run of decimal digits.
pub open spec fn decimal_value(w: Seq<char>) -> int
    decreases w.len(),
{
    if w.len() == 0 {
        0
    } else {
        decimal_value(w.drop_last()) * 10 + digit_value(w.last())
    }
}

/// What one call that produces a token (or fails) does: the token or
/// error, and where the cursor and line counter come to rest.
pub enum StepV {
    /// The lexer had already emitted end-of-input: no more tokens.
    Done,
    /// A token, the lexeme-begin position after it, the line number after
    /// it, and whether the lexer is finished (true only for end-of-input).
    Tok(TokenV, int, int, bool),
    /// A lexical error and the line number it is reported on; the lexer is
    /// finished afterwards.
    Fail(LexErrorKindV, int),
}

/// Recognition at lexeme-begin position `b` (on line `l`), the pre-pass
/// already run. Rules in priority order: single-character punctuation and
/// operators; `<-` / `<=` / `<`; `=>` / `=`; words (keyword table first,
/// then case of the first character); digit-led lexemes (purely decimal
/// digits make an integer literal, any other alphanumeric run is a
/// malformed identifier); `"`-delimited string literals carrying their
/// quotes; anything else is unrecognized.
pub open spec fn token_step(s: Seq<char>, b: int, l: int) -> StepV {
    let c = char_at(s, b);
    if c == ':' {
        StepV::Tok(TokenV::Colon, b + 1, l + newline_step(s, b + 1), false)
    } else if c == ',' {
        StepV::Tok(TokenV::Comma, b + 1, l + newline_step(s, b + 1), false)
    } else if c == '(' {
        StepV::Tok(TokenV::LeftParen, b + 1, l + newline_step(s, b + 1), false)
    } else if c == ')' {
        StepV::Tok(TokenV::RightParen, b + 1, l + newline_step(s, b + 1), false)
    } else if c == '{' {
        StepV::Tok(TokenV::LeftBrace, b + 1, l + newline_step(s, b + 1), false)
    } else if c == '}' {
        StepV::Tok(TokenV::RightBrace, b + 1, l + newline_step(s, b + 1), false)
    } else if c == '[' {
        StepV::Tok(TokenV::LeftBracket, b + 1, l + newline_step(s, b + 1), false)
    } else if c == ']' {
        StepV::Tok(TokenV::RightBracket, b + 1, l + newline_step(s, b + 1), false)
    } else if c == ';' {
        StepV::Tok(TokenV::SemiColon, b + 1, l + newline_step(s, b + 1), false)
    } else if c == '~' {
        StepV::Tok(TokenV::Not, b + 1, l + newline_step(s, b + 1), false)
    } else if c == '+' {
        StepV::Tok(TokenV::MathOp(MathOp::Plus), b + 1, l + newline_step(s, b + 1), false)
    } else if c == '-' {
        StepV::Tok(TokenV::MathOp(MathOp::Minus), b + 1, l + newline_step(s, b + 1), false)
    } else if c == '*' {
        StepV::Tok(TokenV::MathOp(MathOp::Multiply), b + 1, l + newline_step(s, b + 1), false)
    } else if c == '/' {
        StepV::Tok(TokenV::MathOp(MathOp::Divide), b + 1, l + newline_step(s, b + 1), false)
    } else if c == '.' {
        StepV::Tok(TokenV::Dot, b + 1, l + newline_step(s, b + 1), false)
    } else if c == '@' {
        StepV::Tok(TokenV::At, b + 1, l + newline_step(s, b + 1), false)
    } else if c == '<' {
        if char_at(s, b + 1) == '-' {
            StepV::Tok(
                TokenV::Assignment,
                b + 2,
                l + newline_step(s, b + 1) + newline_step(s, b + 2),
                false,
            )
        } else if char_at(s, b + 1) == '=' {
            StepV::Tok(
                TokenV::Relop(Relop::LE),
                b + 2,
                l + newline_step(s, b + 1) + newline_step(s, b + 2),
                false,
            )
        } else {
            StepV::Tok(TokenV::Relop(Relop::LT), b + 1, l + newline_step(s, b + 1), false)
        }
    } else if c == '=' {
        if char_at(s, b + 1) == '>' {
            StepV::Tok(
                TokenV::FatArrow,
                b + 2,
                l + newline_step(s, b + 1) + newline_step(s, b + 2),
                false,
            )
        } else {
            StepV::Tok(TokenV::Relop(Relop::EE), b + 1, l + newline_step(s, b + 1), false)
        }
    } else if is_ident_start_char(c) {
        let e = word_end(s, b + 1);
        StepV::Tok(classify_word(s.subrange(b, e)), e, l, false)
    } else if is_digit_char(c) {
        let e = number_end(s, b + 1);
        let w = s.subrange(b, e);
        if all_digits(w) {
            StepV::Tok(TokenV::Integer(decimal_value(w)), e, l, false)
        } else {
            StepV::Fail(LexErrorKindV::DigitLedIdentifier(w), l)
        }
    } else if c == '"' {
        match find_string_close(s, b + 1) {
            Option::None => StepV::Fail(LexErrorKindV::UnterminatedString, l),
            Option::Some(q) => StepV::Tok(
                TokenV::StringLiteral(s.subrange(b, q + 1)),
                q + 1,
                l + newline_step(s, q + 1),
                false,
            ),
        }
    } else {
        StepV::Fail(LexErrorKindV::UnrecognizedCharacter(c), l)
    }
}

/// What one `next` call does, in full: nothing after the end-of-input
/// sentinel was emitted; otherwise the pre-pass runs, end of input yields
/// the sentinel exactly once, and any other resting place yields the
/// token or error that `token_step` gives.
pub open spec fn next_token_spec(s: Seq<char>, b: int, l: int, finished: bool) -> StepV {
    if finished {
        StepV::Done
    } else {
        match skip_trivia_spec(s, b, l) {
            SkipV::Unclosed(l2) => StepV::Fail(LexErrorKindV::UnterminatedComment, l2),
            SkipV::Go(b2, l2) => {
                if b2 >= s.len() {
                    StepV::Tok(TokenV::EndOfInput, b2, l2, true)
                } else {
                    token_step(s, b2, l2)
                }
            },
        }
    }
}

// ---------------------------------------------------------------------------
// Executable character classification, each matching its spec class.
// ---------------------------------------------------------------------------

fn space_char(c: char) -> (r: bool)
    ensures
        r == is_space_char(c),
{
    c == ' ' || c == '\t' || c == '\n' || c == '\r' || c == '\u{b}' || c == '\u{c}'
}

fn digit_char(c: char) -> (r: bool)
    ensures
        r == is_digit_char(c),
{
    '0' <= c && c <= '9'
}

fn upper_char(c: char) -> (r: bool)
    ensures
        r == is_upper_char(c),
{
    'A' <= c && c <= 'Z'
}

fn ident_start_char(c: char) -> (r: bool)
    ensures
        r == is_ident_start_char(c),
{
    ('a' <= c && c <= 'z') || ('A' <= c && c <= 'Z') || c == '_'
}

fn ident_char(c: char) -> (r: bool)
    ensures
        r == is_ident_char(c),
{
    ('a' <= c && c <= 'z') || ('A' <= c && c <= 'Z') || ('0' <= c && c <= '9') || c == '_'
}

fn alnum_char(c: char) -> (r: bool)
    ensures
        r == is_alnum_char(c),
{
    ('a' <= c && c <= 'z') || ('A' <= c && c <= 'Z') || ('0' <= c && c <= '9')
}

/// Character-wise string equality, decided without revealing literals.
pub(crate) fn str_eq(a: &str, b: &str) -> (r: bool)
    ensures
        r == (a@ == b@),
{
    let alen = a.unicode_len();
    let blen = b.unicode_len();
    if alen != blen {
        return false;
    }
    let mut i: usize = 0;
    while i < alen
        invariant
            alen == a@.len(),
            alen == b@.len(),
            i <= alen,
            forall|k: int| 0 <= k < i ==> a@[k] == b@[k],
        decreases alen - i,
    {
        if a.get_char(i) != b.get_char(i) {
            return false;
        }
        i = i + 1;
    }
    proof {
        assert(a@ =~= b@);
    }
    true
}

/// Classifies a finished word lexeme: the keyword table takes precedence,
/// then the case of the first character decides between a type identifier
/// and an object identifier.
fn word_token(w: &str) -> (t: Token)
    requires
        w@.len() >= 1,
    ensures
        t@ == classify_word(w@),
{
    if str_eq(w, "class") {
        Token::Class
    } else if str_eq(w, "else") {
        Token::Else
    } else if str_eq(w, "false") {
        Token::False
    } else if str_eq(w, "fi") {
        Token::Fi
    } else if str_eq(w, "if") {
        Token::If
    } else if str_eq(w, "in") {
        Token::In
    } else if str_eq(w, "inherits") {
        Token::Inherits
    } else if str_eq(w, "isvoid") {
        Token::Isvoid
    } else if str_eq(w, "let") {
        Token::Let
    } else if str_eq(w, "loop") {
        Token::Loop
    } else if str_eq(w, "pool") {
        Token::Pool
    } else if str_eq(w, "then") {
        Token::Then
    } else if str_eq(w, "while") {
        Token::While
    } else if str_eq(w, "case") {
        Token::Case
    } else if str_eq(w, "esac") {
        Token::Esac
    } else if str_eq(w, "new") {
        Token::New
    } else if str_eq(w, "of") {
        Token::Of
    } else if str_eq(w, "not") {
        Token::Not
    } else if str_eq(w, "true") {
        Token::True
    } else {
        let c0 = w.get_char(0);
        if upper_char(c0) {
            Token::Type(String::from_str(w))
        } else {
            Token::Id(String::from_str(w))
        }
    }
}

// ---------------------------------------------------------------------------
// The lexer.
// ---------------------------------------------------------------------------

/// The tokenizer: an immutable, fully loaded source buffer, the
/// lexeme-begin and lookahead cursors, the current line number, and
/// whether the end-of-input sentinel has been emitted.
pub struct Lexer {
    filename: String,
    buffer: String,
    buffer_len: usize,
    lexem_begin: usize,
    lookahead: usize,
    line_number: usize,
    finished: bool,
}

impl Lexer {
    /// The source text.
    pub closed spec fn src(&self) -> Seq<char> {
        self.buffer@
    }

    /// The name of the source file, carried for diagnostics.
    pub closed spec fn file(&self) -> Seq<char> {
        self.filename@
    }

    /// The lexeme-begin cursor.
    pub closed spec fn pos(&self) -> int {
        self.lexem_begin as int
    }

    /// The current 1-based line number.
    pub closed spec fn line(&self) -> int {
        self.line_number as int
    }

    /// Whether the end-of-input sentinel has been emitted (or a lexical
    /// error ended the run).
    pub closed spec fn is_finished(&self) -> bool {
        self.finished
    }

    /// The buffer length is cached and in range, and between tokens the
    /// lookahead cursor sits one character past lexeme-begin.
    pub closed spec fn wf(&self) -> bool {
        &&& self.buf_wf()
        &&& self.lexem_begin <= self.buffer_len
        &&& self.lookahead == self.lexem_begin + 1
        &&& self.lines_wf()
    }

    spec fn buf_wf(&self) -> bool {
        &&& self.buffer_len == self.buffer@.len()
        &&& self.buffer@.len() + 2 <= usize::MAX
    }

    spec fn lines_wf(&self) -> bool {
        1 <= self.line_number <= self.lexem_begin + 1
    }

    /// Builds a tokenizer over fully loaded source text. The file name is
    /// carried only for diagnostics.
    pub fn for_source(filename: &str, source: &str) -> (lx: Lexer)
        requires
            source@.len() + 2 <= usize::MAX,
        ensures
            lx.wf(),
            lx.src() == source@,
            lx.file() == filename@,
            lx.pos() == 0,
            lx.line() == 1,
            !lx.is_finished(),
    {
        let len = source.unicode_len();
        Lexer {
            filename: String::from_str(filename),
            buffer: String::from_str(source),
            buffer_len: len,
            lexem_begin: 0,
            lookahead: 1,
            line_number: 1,
            finished: false,
        }
    }

    /// The character a cursor reads at position `i`: NUL beyond the end.
    fn ch(&self, i: usize) -> (c: char)
        requires
            self.buffer_len == self.buffer@.len(),
        ensures
            c == char_at(self.buffer@, i as int),
    {
        if i < self.buffer_len {
            self.buffer.as_str().get_char(i)
        } else {
            '\0'
        }
    }

    /// Moves the lexeme-begin cursor (and the lookahead cursor with it)
    /// one position forward; the line counter grows when the cursor lands
    /// on a newline.
    fn advance(&mut self)
        requires
            old(self).buf_wf(),
            old(self).lookahead == old(self).lexem_begin + 1,
            old(self).lexem_begin < old(self).buffer_len,
            old(self).lines_wf(),
        ensures
            final(self).buf_wf(),
            final(self).lines_wf(),
            final(self).buffer == old(self).buffer,
            final(self).buffer_len == old(self).buffer_len,
            final(self).filename == old(self).filename,
            final(self).finished == old(self).finished,
            final(self).lexem_begin == old(self).lexem_begin + 1,
            final(self).lookahead == final(self).lexem_begin + 1,
            final(self).line_number == old(self).line_number + newline_step(
                old(self).buffer@,
                old(self).lexem_begin + 1,
            ),
    {
        self.lexem_begin = self.lexem_begin + 1;
        if self.lexem_begin < self.buffer_len {
            let c = self.buffer.as_str().get_char(self.lexem_begin);
            if c == '\n' {
                self.line_number = self.line_number + 1;
            }
        }
        self.advance_lookahead();
    }

    /// Moves the lookahead cursor alone one position forward.
    fn advance_lookahead(&mut self)
        requires
            old(self).lookahead < usize::MAX,
        ensures
            *final(self) == (Lexer {
                lookahead: (old(self).lookahead + 1) as usize,
                ..*old(self)
            }),
    {
        self.lookahead = self.lookahead + 1;
    }

    /// Runs the pre-pass: skips whitespace, block comments and line
    /// comments until a lexeme can begin, or reports a block comment that
    /// never closes.
    fn skip_trivia(&mut self) -> (r: Result<(), LexError>)
        requires
            old(self).wf(),
        ensures
            final(self).wf(),
            final(self).buffer == old(self).buffer,
            final(self).buffer_len == old(self).buffer_len,
            final(self).filename == old(self).filename,
            final(self).finished == old(self).finished,
            match skip_trivia_spec(
                old(self).buffer@,
                old(self).lexem_begin as int,
                old(self).line_number as int,
            ) {
                SkipV::Go(b2, l2) => (r is Ok && final(self).lexem_begin == b2
                    && final(self).line_number == l2),
                SkipV::Unclosed(l2) => (r matches Err(e) && e.line == l2 && e.kind
                    == LexErrorKind::UnterminatedComment && e.file == old(self).filename),
            },
    {
        let ghost s = self.buffer@;
        let ghost snap = *self;
        loop
            invariant
                snap == *old(self),
                self.wf(),
                self.buffer == snap.buffer,
                self.buffer_len == snap.buffer_len,
                self.filename == snap.filename,
                self.finished == snap.finished,
                s == self.buffer@,
                skip_trivia_spec(s, self.lexem_begin as int, self.line_number as int)
                    == skip_trivia_spec(s, snap.lexem_begin as int, snap.line_number as int),
            decreases self.buffer_len - self.lexem_begin,
        {
            let c = self.ch(self.lexem_begin);
            if space_char(c) {
                self.advance();
            } else if c == '(' && self.ch(self.lookahead) == '*' {
                let ghost be = self.lexem_begin as int;
                let ghost le = self.line_number as int;
                self.advance();
                self.advance();
                proof {
                    assert(newlines_between(s, be, be) == 0);
                    assert(newlines_between(s, be, be + 1) == newline_step(s, be + 1));
                    assert(self.line_number as int == le + newlines_between(s, be, be + 2));
                }
                loop
                    invariant_except_break
                        find_comment_close(s, self.lexem_begin as int) == find_comment_close(
                            s,
                            be + 2,
                        ),
                    invariant
                        snap == *old(self),
                        self.wf(),
                        self.buffer == snap.buffer,
                        self.buffer_len == snap.buffer_len,
                        self.filename == snap.filename,
                        self.finished == snap.finished,
                        s == self.buffer@,
                        skip_trivia_spec(s, be, le) == skip_trivia_spec(s, snap.lexem_begin as int, snap.line_number as int),
                        char_at(s, be) == '(' && char_at(s, be + 1) == '*',
                        0 <= be,
                        be + 2 <= self.lexem_begin as int,
                        self.line_number as int == le + newlines_between(
                            s,
                            be,
                            self.lexem_begin as int,
                        ),
                    ensures
                        self.wf(),
                        self.buffer == snap.buffer,
                        self.buffer_len == snap.buffer_len,
                        self.filename == snap.filename,
                        self.finished == snap.finished,
                        find_comment_close(s, be + 2) is Some,
                        self.lexem_begin as int == find_comment_close(s, be + 2)->Some_0 + 2,
                        self.line_number as int == le + newlines_between(
                            s,
                            be,
                            self.lexem_begin as int,
                        ),
                    decreases self.buffer_len - self.lexem_begin,
                {
                    if self.lexem_begin >= self.buffer_len {
                        proof {
                            assert(find_comment_close(s, self.lexem_begin as int) is None);
                            assert(skip_trivia_spec(s, be, le) == SkipV::Unclosed(
                                le + newlines_between(s, be, s.len() as int),
                            ));
                        }
                        return Err(
                            LexError {
                                file: self.filename.clone(),
                                line: self.line_number,
                                kind: LexErrorKind::UnterminatedComment,
                            },
                        );
                    }
                    let cc = self.ch(self.lexem_begin);
                    let cl = self.ch(self.lookahead);
                    if cc == '*' && cl == ')' {
                        let ghost p = self.lexem_begin as int;
                        self.advance();
                        self.advance();
                        proof {
                            assert(find_comment_close(s, p) == Option::Some(p));
                            assert(newlines_between(s, be, p + 1) == newlines_between(s, be, p)
                                + newline_step(s, p + 1));
                            assert(self.line_number as int == le + newlines_between(s, be, p + 2));
                        }
                        break;
                    }
                    self.advance();
                    proof {
                        let bi = self.lexem_begin as int;
                        assert(newlines_between(s, be, bi) == newlines_between(s, be, bi - 1)
                            + newline_step(s, bi));
                    }
                }
                proof {
                    let p = find_comment_close(s, be + 2)->Some_0;
                    lemma_comment_close_bounds(s, be + 2);
                    assert(skip_trivia_spec(s, be, le) == skip_trivia_spec(
                        s,
                        p + 2,
                        le + newlines_between(s, be, p + 2),
                    ));
                }
            } else if c == '-' && self.ch(self.lookahead) == '-' {
                let ghost be = self.lexem_begin as int;
                let ghost le = self.line_number as int;
                proof {
                    lemma_line_end_bounds(s, be);
                }
                loop
                    invariant
                        snap == *old(self),
                        self.wf(),
                        self.buffer == snap.buffer,
                        self.buffer_len == snap.buffer_len,
                        self.filename == snap.filename,
                        self.finished == snap.finished,
                        s == self.buffer@,
                        skip_trivia_spec(s, be, le) == skip_trivia_spec(s, snap.lexem_begin as int, snap.line_number as int),
                        char_at(s, be) == '-' && char_at(s, be + 1) == '-',
                        0 <= be <= self.lexem_begin as int,
                        find_line_end(s, self.lexem_begin as int) == find_line_end(s, be),
                        self.lexem_begin as int <= find_line_end(s, be),
                        self.line_number as int == le + newlines_between(
                            s,
                            be,
                            self.lexem_begin as int,
                        ),
                    ensures
                        self.wf(),
                        self.buffer == snap.buffer,
                        self.buffer_len == snap.buffer_len,
                        self.filename == snap.filename,
                        self.finished == snap.finished,
                        skip_trivia_spec(s, be, le) == skip_trivia_spec(s, snap.lexem_begin as int, snap.line_number as int),
                        char_at(s, be) == '-' && char_at(s, be + 1) == '-',
                        0 <= be,
                        self.lexem_begin as int == find_line_end(s, be),
                        self.line_number as int == le + newlines_between(
                            s,
                            be,
                            self.lexem_begin as int,
                        ),
                    decreases self.buffer_len - self.lexem_begin,
                {
                    if self.lexem_begin >= self.buffer_len {
                        break;
                    }
                    let cc = self.ch(self.lexem_begin);
                    if cc == '\n' {
                        break;
                    }
                    self.advance();
                    proof {
                        let bi = self.lexem_begin as int;
                        assert(newlines_between(s, be, bi) == newlines_between(s, be, bi - 1)
                            + newline_step(s, bi));
                        lemma_line_end_bounds(s, bi);
                    }
                }
                if self.lexem_begin < self.buffer_len {
                    let ghost e = self.lexem_begin as int;
                    self.advance();
                    proof {
                        assert(newlines_between(s, be, e + 1) == newlines_between(s, be, e)
                            + newline_step(s, e + 1));
                        assert(skip_trivia_spec(s, be, le) == skip_trivia_spec(
                            s,
                            e + 1,
                            le + newlines_between(s, be, e + 1),
                        ));
                    }
                } else {
                    proof {
                        assert(skip_trivia_spec(s, be, le) == skip_trivia_spec(
                            s,
                            s.len() as int,
                            le + newlines_between(s, be, s.len() as int),
                        ));
                    }
                }
            } else {
                proof {
                    assert(skip_trivia_spec(s, self.lexem_begin as int, self.line_number as int)
                        == SkipV::Go(self.lexem_begin as int, self.line_number as int));
                }
                return Ok(());
            }
        }
    }

    /// Produces the next token: `Ok(Some(..))` for each token through the
    /// end-of-input sentinel, then `Ok(None)` on every later call; a
    /// lexical error finishes the lexer and carries the file name and
    /// 1-based line number it is reported on.
    pub fn next(&mut self) -> (r: Result<Option<Token>, LexError>)
        requires
            old(self).wf(),
        ensures
            final(self).wf(),
            final(self).src() == old(self).src(),
            final(self).file() == old(self).file(),
            match next_token_spec(
                old(self).src(),
                old(self).pos(),
                old(self).line(),
                old(self).is_finished(),
            ) {
                StepV::Done => (r == Ok::<Option<Token>, LexError>(Option::None) && *final(self)
                    == *old(self)),
                StepV::Tok(tv, b2, l2, fin) => (r matches Ok(o) && o matches Some(t) && t@ == tv
                    && final(self).pos() == b2 && final(self).line() == l2
                    && final(self).is_finished() == fin),
                StepV::Fail(kv, l2) => (r matches Err(e) && e.kind@ == kv && e.line as int == l2
                    && e.file@ == old(self).file() && final(self).is_finished()),
            },
    {
        if self.finished {
            return Ok(None);
        }
        match self.skip_trivia() {
            Err(e) => {
                self.finished = true;
                return Err(e);
            },
            Ok(()) => {},
        }
        if self.lexem_begin >= self.buffer_len {
            self.finished = true;
            return Ok(Some(Token::EndOfInput));
        }
        let c = self.ch(self.lexem_begin);
        if c == ':' {
            self.advance();
            Ok(Some(Token::Colon))
        } else if c == ',' {
            self.advance();
            Ok(Some(Token::Comma))
        } else if c == '(' {
            self.advance();
            Ok(Some(Token::LeftParen))
        } else if c == ')' {
            self.advance();
            Ok(Some(Token::RightParen))
        } else if c == '{' {
            self.advance();
            Ok(Some(Token::LeftBrace))
        } else if c == '}' {
            self.advance();
            Ok(Some(Token::RightBrace))
        } else if c == '[' {
            self.advance();
            Ok(Some(Token::LeftBracket))
        } else if c == ']' {
            self.advance();
            Ok(Some(Token::RightBracket))
        } else if c == ';' {
            self.advance();
            Ok(Some(Token::SemiColon))
        } else if c == '~' {
            self.advance();
            Ok(Some(Token::Not))
        } else if c == '+' {
            self.advance();
            Ok(Some(Token::MathOp(MathOp::Plus)))
        } else if c == '-' {
            self.advance();
            Ok(Some(Token::MathOp(MathOp::Minus)))
        } else if c == '*' {
            self.advance();
            Ok(Some(Token::MathOp(MathOp::Multiply)))
        } else if c == '/' {
            self.advance();
            Ok(Some(Token::MathOp(MathOp::Divide)))
        } else if c == '.' {
            self.advance();
            Ok(Some(Token::Dot))
        } else if c == '@' {
            self.advance();
            Ok(Some(Token::At))
        } else if c == '<' {
            let cl = self.ch(self.lookahead);
            if cl == '-' {
                self.advance();
                self.advance();
                Ok(Some(Token::Assignment))
            } else if cl == '=' {
                self.advance();
                self.advance();
                Ok(Some(Token::Relop(Relop::LE)))
            } else {
                self.advance();
                Ok(Some(Token::Relop(Relop::LT)))
            }
        } else if c == '=' {
            let cl = self.ch(self.lookahead);
            if cl == '>' {
                self.advance();
                self.advance();
                Ok(Some(Token::FatArrow))
            } else {
                self.advance();
                Ok(Some(Token::Relop(Relop::EE)))
            }
        } else if ident_start_char(c) {
            Ok(Some(self.lex_word()))
        } else if digit_char(c) {
            match self.lex_number() {
                Ok(t) => Ok(Some(t)),
                Err(e) => {
                    self.finished = true;
                    Err(e)
                },
            }
        } else if c == '"' {
            match self.lex_string() {
                Ok(t) => Ok(Some(t)),
                Err(e) => {
                    self.finished = true;
                    Err(e)
                },
            }
        } else {
            let e = LexError {
                file: self.filename.clone(),
                line: self.line_number,
                kind: LexErrorKind::UnrecognizedCharacter(c),
            };
            self.finished = true;
            Err(e)
        }
    }

    /// Produces the whole remaining token stream, the end-of-input
    /// sentinel included, or stops at the first lexical error; either
    /// way the lexer is finished afterwards.
    pub fn tokenize(&mut self) -> (r: Result<Vec<Token>, LexError>)
        requires
            old(self).wf(),
        ensures
            final(self).wf(),
            final(self).src() == old(self).src(),
            final(self).file() == old(self).file(),
            match token_stream(
                old(self).src(),
                old(self).pos(),
                old(self).line(),
                old(self).is_finished(),
            ) {
                Result::Ok(ts) => r matches Ok(v) && v.deep_view() == ts,
                Result::Err(e) => (r matches Err(le) && le.kind@ == e.0 && le.line as int == e.1
                    && le.file@ == old(self).file()),
            },
    {
        let ghost s0 = self.buffer@;
        let ghost b0 = self.lexem_begin as int;
        let ghost l0 = self.line_number as int;
        let ghost f0 = self.finished;
        let mut out: Vec<Token> = Vec::new();
        loop
            invariant
                self.wf(),
                self.buffer@ == s0,
                self.filename@ == old(self).filename@,
                b0 == old(self).lexem_begin as int,
                l0 == old(self).line_number as int,
                f0 == old(self).finished,
                s0 == old(self).buffer@,
                0 <= b0 <= s0.len(),
                match token_stream(
                    s0,
                    self.lexem_begin as int,
                    self.line_number as int,
                    self.finished,
                ) {
                    Result::Ok(rest) => token_stream(s0, b0, l0, f0) == Result::<
                        Seq<TokenV>,
                        (LexErrorKindV, int),
                    >::Ok(out.deep_view() + rest),
                    Result::Err(e) => token_stream(s0, b0, l0, f0) == Result::<
                        Seq<TokenV>,
                        (LexErrorKindV, int),
                    >::Err(e),
                },
            ensures
                self.wf(),
                self.buffer@ == s0,
                self.filename@ == old(self).filename@,
                token_stream(s0, b0, l0, f0) == Result::<
                    Seq<TokenV>,
                    (LexErrorKindV, int),
                >::Ok(out.deep_view()),
            decreases
                    self.buffer_len - self.lexem_begin,
                    (if self.finished {
                        0int
                    } else {
                        1int
                    }),
        {
            let ghost b_here = self.lexem_begin as int;
            let ghost l_here = self.line_number as int;
            let ghost f_here = self.finished;
            proof {
                lemma_step_bounds(s0, b_here, l_here, f_here);
            }
            let ghost out_old = out.deep_view();
            match self.next() {
                Ok(Some(t)) => {
                    let ghost tv = t@;
                    out.push(t);
                    proof {
                        assert(out.deep_view() =~= out_old.push(tv));
                        match token_stream(
                            s0,
                            self.lexem_begin as int,
                            self.line_number as int,
                            self.finished,
                        ) {
                            Result::Ok(rest_new) => {
                                assert(token_stream(s0, b_here, l_here, f_here) == Result::<
                                    Seq<TokenV>,
                                    (LexErrorKindV, int),
                                >::Ok(seq![tv] + rest_new));
                                assert(out_old + (seq![tv] + rest_new) =~= out.deep_view()
                                    + rest_new);
                            },
                            Result::Err(_) => {},
                        }
                    }
                    if self.finished {
                        proof {
                            assert(token_stream(
                                s0,
                                self.lexem_begin as int,
                                self.line_number as int,
                                true,
                            ) == Result::<Seq<TokenV>, (LexErrorKindV, int)>::Ok(
                                Seq::<TokenV>::empty(),
                            ));
                            assert(out.deep_view() + Seq::<TokenV>::empty() =~= out.deep_view());
                        }
                        break;
                    }
                },
                Ok(None) => {
                    proof {
                        assert(out.deep_view() + Seq::<TokenV>::empty() =~= out.deep_view());
                    }
                    break;
                },
                Err(e) => {
                    return Err(e);
                },
            }
        }
        Ok(out)
    }

    /// Consumes an identifier or keyword lexeme: the lookahead cursor
    /// extends it while alphanumeric or underscore characters follow, and
    /// both cursors then restart past it (the line counter does not run).
    fn lex_word(&mut self) -> (t: Token)
        requires
            old(self).wf(),
            old(self).lexem_begin < old(self).buffer_len,
            is_ident_start_char(char_at(old(self).buffer@, old(self).lexem_begin as int)),
        ensures
            final(self).wf(),
            final(self).buffer == old(self).buffer,
            final(self).buffer_len == old(self).buffer_len,
            final(self).filename == old(self).filename,
            final(self).finished == old(self).finished,
            final(self).line_number == old(self).line_number,
            final(self).lexem_begin as int == word_end(
                old(self).buffer@,
                old(self).lexem_begin + 1,
            ),
            t@ == classify_word(
                old(self).buffer@.subrange(
                    old(self).lexem_begin as int,
                    final(self).lexem_begin as int,
                ),
            ),
    {
        let ghost s = self.buffer@;
        let ghost snap = *self;
        loop
            invariant
                snap == *old(self),
                s == self.buffer@,
                self.buffer == snap.buffer,
                self.buffer_len == snap.buffer_len,
                self.filename == snap.filename,
                self.finished == snap.finished,
                self.lexem_begin == snap.lexem_begin,
                self.line_number == snap.line_number,
                self.buf_wf(),
                snap.lexem_begin + 1 <= self.lookahead,
                self.lookahead <= self.buffer_len,
                word_end(s, self.lookahead as int) == word_end(s, snap.lexem_begin + 1),
            ensures
                snap == *old(self),
                s == self.buffer@,
                self.buffer == snap.buffer,
                self.buffer_len == snap.buffer_len,
                self.filename == snap.filename,
                self.finished == snap.finished,
                self.lexem_begin == snap.lexem_begin,
                self.line_number == snap.line_number,
                self.buf_wf(),
                snap.lexem_begin + 1 <= self.lookahead <= self.buffer_len,
                self.lookahead as int == word_end(s, snap.lexem_begin + 1),
            decreases self.buffer_len - self.lookahead,
        {
            let lc = self.ch(self.lookahead);
            if ident_char(lc) {
                self.advance_lookahead();
            } else {
                proof {
                    assert(word_end(s, self.lookahead as int) == self.lookahead as int);
                }
                break;
            }
        }
        let w = self.buffer.as_str().substring_char(self.lexem_begin, self.lookahead);
        let tok = word_token(w);
        self.start_new_lexem();
        tok
    }

    /// Consumes a digit-led lexeme: purely decimal digits make an integer
    /// literal carrying the whole digit run; any other alphanumeric run
    /// is a malformed identifier.
    fn lex_number(&mut self) -> (r: Result<Token, LexError>)
        requires
            old(self).wf(),
            old(self).lexem_begin < old(self).buffer_len,
            is_digit_char(char_at(old(self).buffer@, old(self).lexem_begin as int)),
        ensures
            final(self).wf(),
            final(self).buffer == old(self).buffer,
            final(self).buffer_len == old(self).buffer_len,
            final(self).filename == old(self).filename,
            final(self).finished == old(self).finished,
            final(self).line_number == old(self).line_number,
            match token_step(
                old(self).buffer@,
                old(self).lexem_begin as int,
                old(self).line_number as int,
            ) {
                StepV::Tok(tv, b2, l2, fin) => (r matches Ok(t) && t@ == tv
                    && final(self).lexem_begin as int == b2 && !fin),
                StepV::Fail(kv, l2) => (r matches Err(e) && e.kind@ == kv && e.line == l2 && e.file
                    == old(self).filename),
                StepV::Done => false,
            },
    {
        let ghost s = self.buffer@;
        let ghost snap = *self;
        let ghost b = self.lexem_begin as int;
        let mut malformed: bool = false;
        proof {
            assert(s.subrange(b, b + 1) =~= seq![s[b]]);
            assert(all_digits(s.subrange(b, b + 1)));
        }
        loop
            invariant
                snap == *old(self),
                s == self.buffer@,
                self.buffer == snap.buffer,
                self.buffer_len == snap.buffer_len,
                self.filename == snap.filename,
                self.finished == snap.finished,
                self.lexem_begin == snap.lexem_begin,
                self.line_number == snap.line_number,
                self.buf_wf(),
                snap.wf(),
                b == snap.lexem_begin as int,
                0 <= b < s.len(),
                is_digit_char(char_at(s, b)),
                b + 1 <= self.lookahead,
                self.lookahead <= self.buffer_len,
                number_end(s, self.lookahead as int) == number_end(s, b + 1),
                malformed == !all_digits(s.subrange(b, self.lookahead as int)),
            ensures
                snap == *old(self),
                s == self.buffer@,
                self.buffer == snap.buffer,
                self.buffer_len == snap.buffer_len,
                self.filename == snap.filename,
                self.finished == snap.finished,
                self.lexem_begin == snap.lexem_begin,
                self.line_number == snap.line_number,
                self.buf_wf(),
                b + 1 <= self.lookahead <= self.buffer_len,
                self.lookahead as int == number_end(s, b + 1),
                malformed == !all_digits(s.subrange(b, self.lookahead as int)),
            decreases self.buffer_len - self.lookahead,
        {
            let lc = self.ch(self.lookahead);
            if alnum_char(lc) {
                let ghost k = self.lookahead as int;
                let ghost w_old = s.subrange(b, k);
                let ghost w_new = s.subrange(b, k + 1);
                proof {
                    assert(w_new =~= w_old.push(s[k]));
                }
                if digit_char(lc) {
                    proof {
                        assert(all_digits(w_new) == all_digits(w_old)) by {
                            if all_digits(w_old) {
                                assert(forall|j: int| 0 <= j < w_new.len() ==> is_digit_char(
                                    #[trigger] w_new[j],
                                ));
                            }
                        };
                    }
                } else {
                    proof {
                        assert(!is_digit_char(w_new.last()));
                    }
                    malformed = true;
                }
                self.advance_lookahead();
            } else {
                proof {
                    assert(number_end(s, self.lookahead as int) == self.lookahead as int);
                }
                break;
            }
        }
        let w = self.buffer.as_str().substring_char(self.lexem_begin, self.lookahead);
        if malformed {
            let err = LexError {
                file: self.filename.clone(),
                line: self.line_number,
                kind: LexErrorKind::DigitLedIdentifier(String::from_str(w)),
            };
            self.start_new_lexem();
            return Err(err);
        }
        let tok = Token::Integer(String::from_str(w));
        self.start_new_lexem();
        Ok(tok)
    }


    /// Consumes a `"`-delimited string literal, carrying the full
    /// delimited text, quotes included.
    fn lex_string(&mut self) -> (r: Result<Token, LexError>)
        requires
            old(self).wf(),
            old(self).lexem_begin < old(self).buffer_len,
            char_at(old(self).buffer@, old(self).lexem_begin as int) == '"',
        ensures
            final(self).wf(),
            final(self).buffer == old(self).buffer,
            final(self).buffer_len == old(self).buffer_len,
            final(self).filename == old(self).filename,
            final(self).finished == old(self).finished,
            match token_step(
                old(self).buffer@,
                old(self).lexem_begin as int,
                old(self).line_number as int,
            ) {
                StepV::Tok(tv, b2, l2, fin) => (r matches Ok(t) && t@ == tv
                    && final(self).lexem_begin as int == b2 && final(self).line_number as int == l2
                    && !fin),
                StepV::Fail(kv, l2) => (r matches Err(e) && e.kind@ == kv && e.line == l2 && e.file
                    == old(self).filename && final(self).line_number == old(self).line_number),
                StepV::Done => false,
            },
    {
        let ghost s = self.buffer@;
        let ghost snap = *self;
        let ghost b = self.lexem_begin as int;
        loop
            invariant
                snap == *old(self),
                s == self.buffer@,
                self.buffer == snap.buffer,
                self.buffer_len == snap.buffer_len,
                self.filename == snap.filename,
                self.finished == snap.finished,
                self.lexem_begin == snap.lexem_begin,
                self.line_number == snap.line_number,
                self.buf_wf(),
                snap.wf(),
                b == snap.lexem_begin as int,
                0 <= b < s.len(),
                char_at(s, b) == '"',
                b + 1 <= self.lookahead,
                self.lookahead <= self.buffer_len,
                find_string_close(s, self.lookahead as int) == find_string_close(s, b + 1),
            ensures
                snap == *old(self),
                s == self.buffer@,
                self.buffer == snap.buffer,
                self.buffer_len == snap.buffer_len,
                self.filename == snap.filename,
                self.finished == snap.finished,
                self.lexem_begin == snap.lexem_begin,
                self.line_number == snap.line_number,
                self.buf_wf(),
                b + 1 <= self.lookahead,
                self.lookahead < self.buffer_len,
                find_string_close(s, b + 1) == Option::Some(self.lookahead as int),
            decreases self.buffer_len - self.lookahead,
        {
            if self.lookahead >= self.buffer_len {
                proof {
                    assert(find_string_close(s, self.lookahead as int) is None);
                }
                let err = LexError {
                    file: self.filename.clone(),
                    line: self.line_number,
                    kind: LexErrorKind::UnterminatedString,
                };
                self.start_new_lexem();
                return Err(err);
            }
            let lc = self.ch(self.lookahead);
            if lc == '"' {
                break;
            }
            self.advance_lookahead();
        }
        let w = self.buffer.as_str().substring_char(self.lexem_begin, self.lookahead + 1);
        let tok = Token::StringLiteral(String::from_str(w));
        self.start_new_lexem();
        self.advance();
        Ok(tok)
    }

    /// Begins the next lexeme where the lookahead cursor rests: the rules
    /// that consume a whole lexeme reposition both cursors directly, and
    /// the line counter does not run here.
    fn start_new_lexem(&mut self)
        requires
            old(self).buf_wf(),
            old(self).lookahead <= old(self).buffer_len,
        ensures
            *final(self) == (Lexer {
                lexem_begin: old(self).lookahead,
                lookahead: (old(self).lookahead + 1) as usize,
                ..*old(self)
            }),
    {
        self.lexem_begin = self.lookahead;
        self.lookahead = self.lexem_begin + 1;
    }
}

// ---------------------------------------------------------------------------
// The whole token stream of a source text.
// ---------------------------------------------------------------------------

pub proof fn lemma_number_end_bounds(s: Seq<char>, i: int)
    requires
        0 <= i <= s.len(),
    ensures
        i <= number_end(s, i) <= s.len(),
    decreases s.len() - i,
{
    if i < s.len() && is_alnum_char(char_at(s, i)) {
        lemma_number_end_bounds(s, i + 1);
    }
}

pub proof fn lemma_string_close_bounds(s: Seq<char>, i: int)
    requires
        find_string_close(s, i) is Some,
    ensures
        i <= find_string_close(s, i)->Some_0 < s.len(),
    decreases s.len() - i,
{
    if i < s.len() && char_at(s, i) != '"' {
        lemma_string_close_bounds(s, i + 1);
    }
}

/// The pre-pass never moves backwards nor past the end of the buffer.
pub proof fn lemma_skip_go_bounds(s: Seq<char>, b: int, l: int)
    requires
        0 <= b <= s.len(),
    ensures
        skip_trivia_spec(s, b, l) matches SkipV::Go(b2, l2) ==> b <= b2 <= s.len(),
    decreases s.len() - b,
{
    if is_space_char(char_at(s, b)) {
        lemma_skip_go_bounds(s, b + 1, l + newline_step(s, b + 1));
    } else if char_at(s, b) == '(' && char_at(s, b + 1) == '*' {
        match find_comment_close(s, b + 2) {
            Option::None => {},
            Option::Some(c) => {
                lemma_comment_close_bounds(s, b + 2);
                lemma_skip_go_bounds(s, c + 2, l + newlines_between(s, b, c + 2));
            },
        }
    } else if char_at(s, b) == '-' && char_at(s, b + 1) == '-' {
        let e = find_line_end(s, b);
        lemma_line_end_bounds(s, b);
        if e < s.len() {
            lemma_skip_go_bounds(s, e + 1, l + newlines_between(s, b, e + 1));
        } else {
            lemma_skip_go_bounds(s, s.len() as int, l + newlines_between(s, b, s.len() as int));
        }
    }
}

/// One call that produces a token leaves the cursor in the buffer, moves
/// it strictly forward for every token but the end-of-input sentinel, and
/// finishes the lexer only on that sentinel.
pub proof fn lemma_step_bounds(s: Seq<char>, b: int, l: int, finished: bool)
    requires
        0 <= b <= s.len(),
    ensures
        next_token_spec(s, b, l, finished) matches StepV::Tok(tv, b2, l2, fin) ==> b <= b2
            <= s.len() && (!fin ==> b < b2) && (fin ==> tv == TokenV::EndOfInput),
{
    lemma_skip_go_bounds(s, b, l);
    match skip_trivia_spec(s, b, l) {
        SkipV::Unclosed(_) => {},
        SkipV::Go(b2, l2) => {
            if b2 < s.len() {
                let c = char_at(s, b2);
                if is_ident_start_char(c) {
                    lemma_word_end_bounds(s, b2 + 1);
                } else if is_digit_char(c) {
                    lemma_number_end_bounds(s, b2 + 1);
                } else if c == '"' {
                    if find_string_close(s, b2 + 1) is Some {
                        lemma_string_close_bounds(s, b2 + 1);
                    }
                }
            }
        },
    }
}

/// The sequence of tokens from a lexer state to the end-of-input
/// sentinel inclusive, or the lexical error that cuts the stream short
/// (with the line it is reported on).
pub open spec fn token_stream(s: Seq<char>, b: int, l: int, finished: bool) -> Result<
    Seq<TokenV>,
    (LexErrorKindV, int),
>
    decreases
            s.len() - b,
            (if finished {
                0int
            } else {
                1int
            }),
    when 0 <= b <= s.len()
{
    match next_token_spec(s, b, l, finished) {
        StepV::Done => Result::Ok(Seq::<TokenV>::empty()),
        StepV::Tok(tv, b2, l2, fin) => {
            proof {
                lemma_step_bounds(s, b, l, finished);
            }
            match token_stream(s, b2, l2, fin) {
                Result::Ok(rest) => Result::Ok(seq![tv] + rest),
                Result::Err(e) => Result::Err(e),
            }
        },
        StepV::Fail(kv, l2) => Result::Err((kv, l2)),
    }
}

/// Law: tokenizing any valid identifier that is no keyword classifies it
/// by the case of its first character alone — uppercase yields a type
/// identifier, a lowercase letter or underscore an object identifier —
/// unaffected by the digits and underscores that follow it.
pub proof fn lemma_identifier_classification(s: Seq<char>, b: int, l: int)
    requires
        0 <= b < s.len(),
        is_ident_start_char(char_at(s, b)),
        !is_keyword(s.subrange(b, word_end(s, b + 1))),
    ensures
        next_token_spec(s, b, l, false) == StepV::Tok(
            if is_upper_char(char_at(s, b)) {
                TokenV::Type(s.subrange(b, word_end(s, b + 1)))
            } else {
                TokenV::Id(s.subrange(b, word_end(s, b + 1)))
            },
            word_end(s, b + 1),
            l,
            false,
        ),
{
    lemma_word_end_bounds(s, b + 1);
    let e = word_end(s, b + 1);
    let w = s.subrange(b, e);
    assert(char_at(w, 0) == char_at(s, b));
    assert(skip_trivia_spec(s, b, l) == SkipV::Go(b, l));
    assert(token_step(s, b, l) == StepV::Tok(classify_word(w), e, l, false));
}

/// Law: the fixed keyword table takes precedence over identifier
/// classification — tokenizing a word lexeme equal to a keyword always
/// yields that keyword's token, never an object or type identifier.
pub proof fn lemma_keyword_precedence(s: Seq<char>, b: int, l: int)
    requires
        0 <= b < s.len(),
        is_ident_start_char(char_at(s, b)),
        is_keyword(s.subrange(b, word_end(s, b + 1))),
    ensures
        keyword_token(s.subrange(b, word_end(s, b + 1))) matches Some(kt) && next_token_spec(
            s,
            b,
            l,
            false,
        ) == StepV::Tok(kt, word_end(s, b + 1), l, false) && !(kt is Id) && !(kt is Type),
{
    lemma_word_end_bounds(s, b + 1);
    let e = word_end(s, b + 1);
    let w = s.subrange(b, e);
    assert(skip_trivia_spec(s, b, l) == SkipV::Go(b, l));
    assert(token_step(s, b, l) == StepV::Tok(classify_word(w), e, l, false));
}

} // verus!
