//! Lexical analysis: bytes to tokens, with one token of lookahead.

use vstd::prelude::*;
use crate::parse::ParseError;
use crate::utils::TokenIterator;
use crate::value::{bytes_eq, copy_bytes, FloatLit};

verus! {

/// A reserved word.
#[derive(Clone, Copy, Debug, PartialEq, Eq, Structural)]
pub enum Keyword {
    And,
    Break,
    Do,
    Else,
    Elseif,
    End,
    False,
    For,
    Function,
    Goto,
    If,
    In,
    Local,
    Nil,
    Not,
    Or,
    Repeat,
    Return,
    Then,
    True,
    Until,
    While,
    /// Reserved for later use; no statement accepts it yet.
    Async,
    /// Reserved for later use; no statement accepts it yet.
    Await,
}

/// A punctuation or operator token.
#[derive(Clone, Copy, Debug, PartialEq, Eq, Structural)]
pub enum Symbol {
    Add,        // +
    Sub,        // -
    Mul,        // *
    Div,        // /
    Mod,        // %
    Pow,        // ^
    Len,        // #
    BitAnd,     // &
    BitXor,     // ~
    BitOr,      // |
    ShiftL,     // <<
    ShiftR,     // >>
    Idiv,       // //
    Equal,      // ==
    NotEq,      // ~=
    LesEq,      // <=
    GreEq,      // >=
    Less,       // <
    Greater,    // >
    Assign,     // =
    ParL,       // (
    ParR,       // )
    CurlyL,     // {
    CurlyR,     // }
    SqurL,      // [
    SqurR,      // ]
    DoubColon,  // ::
    SemiColon,  // ;
    Colon,      // :
    Comma,      // ,
    Dot,        // .
    Concat,     // ..
    Dots,       // ...
}

/// A token of the source.
#[derive(Debug)]
pub enum Token {
    Keyword(Keyword),
    Symbol(Symbol),
    Integer(i64),
    Float(FloatLit),
    /// The raw bytes of a string literal, escapes resolved.
    String(Vec<u8>),
    /// An identifier: ASCII letters, digits and `_`, not starting with a digit.
    Name(Vec<u8>),
    /// End of the source.
    Eos,
}

/// The mathematical meaning of a [`Token`].
pub enum Tok {
    Keyword(Keyword),
    Symbol(Symbol),
    Integer(i64),
    Float(FloatLit),
    Str(Seq<u8>),
    Name(Seq<u8>),
    Eos,
}

impl View for Token {
    type V = Tok;

    open spec fn view(&self) -> Tok {
        match self {
            Token::Keyword(k) => Tok::Keyword(*k),
            Token::Symbol(s) => Tok::Symbol(*s),
            Token::Integer(i) => Tok::Integer(*i),
            Token::Float(f) => Tok::Float(*f),
            Token::String(s) => Tok::Str(s@),
            Token::Name(n) => Tok::Name(n@),
            Token::Eos => Tok::Eos,
        }
    }
}

impl Clone for Token {
    fn clone(&self) -> (r: Self)
        ensures
            r@ == self@,
    {
        match self {
            Token::Keyword(k) => Token::Keyword(*k),
            Token::Symbol(s) => Token::Symbol(*s),
            Token::Integer(i) => Token::Integer(*i),
            Token::Float(f) => Token::Float(*f),
            Token::String(s) => Token::String(copy_bytes(s.as_slice())),
            Token::Name(n) => Token::Name(copy_bytes(n.as_slice())),
            Token::Eos => Token::Eos,
        }
    }
}

impl PartialEq for Token {
    fn eq(&self, other: &Token) -> (r: bool) {
        match (self, other) {
            (Token::Keyword(a), Token::Keyword(b)) => *a == *b,
            (Token::Symbol(a), Token::Symbol(b)) => *a == *b,
            (Token::Integer(a), Token::Integer(b)) => *a == *b,
            (Token::Float(a), Token::Float(b)) => *a == *b,
            (Token::String(a), Token::String(b)) => bytes_eq(a.as_slice(), b.as_slice()),
            (Token::Name(a), Token::Name(b)) => bytes_eq(a.as_slice(), b.as_slice()),
            (Token::Eos, Token::Eos) => true,
            _ => false,
        }
    }
}

impl vstd::std_specs::cmp::PartialEqSpecImpl for Token {
    open spec fn obeys_eq_spec() -> bool {
        true
    }

    open spec fn eq_spec(&self, other: &Token) -> bool {
        self@ == other@
    }
}

/// Why the source could not be split into tokens.
#[derive(Clone, Copy, Debug, PartialEq, Eq, Structural)]
pub enum LexError {
    /// A byte that starts no token.
    UnexpectedChar(u8),
    /// A string literal cut by a newline or by the end of the source.
    UnfinishedString,
    /// A backslash followed by something that is no escape.
    InvalidEscape,
    /// A decimal escape above 255.
    EscapeTooLarge,
    /// A number followed by a letter or a point, or an exponent without digits.
    MalformedNumber,
    /// A number whose digits do not fit in 64 signed bits.
    NumberOutOfRange,
    /// A long comment (`--[`), which is not supported.
    LongComment,
}

// ---------------------------------------------------------------------
// The meaning of tokenization.

/// The byte at `i`, or 0 past the end (the end of the source reads as 0).
pub open spec fn byte_at(s: Seq<u8>, i: int) -> u8 {
    if 0 <= i < s.len() {
        s[i]
    } else {
        0
    }
}

pub open spec fn is_space(c: u8) -> bool {
    c == ' ' as u8 || c == '\r' as u8 || c == '\n' as u8 || c == '\t' as u8
}

pub open spec fn is_alpha(c: u8) -> bool {
    ('a' as u8 <= c && c <= 'z' as u8) || ('A' as u8 <= c && c <= 'Z' as u8)
}

pub open spec fn is_dec_digit(c: u8) -> bool {
    '0' as u8 <= c && c <= '9' as u8
}

pub open spec fn is_name_start(c: u8) -> bool {
    is_alpha(c) || c == '_' as u8
}

pub open spec fn is_name_char(c: u8) -> bool {
    is_name_start(c) || is_dec_digit(c)
}

/// The value of `c` as a digit in `radix`, or -1 when it is none.
pub open spec fn digit_value(c: u8, radix: u32) -> int {
    let d: int = if is_dec_digit(c) {
        c - '0' as u8
    } else if 'a' as u8 <= c && c <= 'z' as u8 {
        c - 'a' as u8 + 10
    } else if 'A' as u8 <= c && c <= 'Z' as u8 {
        c - 'A' as u8 + 10
    } else {
        99
    };
    if d < radix {
        d
    } else {
        -1
    }
}

pub open spec fn is_digit(c: u8, radix: u32) -> bool {
    digit_value(c, radix) >= 0
}

pub open spec fn valid_radix(radix: u32) -> bool {
    radix == 2 || radix == 8 || radix == 10 || radix == 16
}

/// Where the run of `radix` digits starting at `p` ends.
pub open spec fn digits_end(s: Seq<u8>, p: int, radix: u32) -> int
    decreases s.len() - p,
{
    if 0 <= p < s.len() && is_digit(s[p], radix) {
        digits_end(s, p + 1, radix)
    } else {
        p
    }
}

/// The number that the digits `s[p..e]` write in `radix`.
pub open spec fn digits_value(s: Seq<u8>, p: int, e: int, radix: u32) -> int
    decreases e - p,
{
    if e <= p {
        0
    } else {
        digits_value(s, p, e - 1, radix) * radix + digit_value(s[e - 1], radix)
    }
}

/// Where the run of name bytes starting at `p` ends.
pub open spec fn name_end(s: Seq<u8>, p: int) -> int
    decreases s.len() - p,
{
    if 0 <= p < s.len() && is_name_char(s[p]) {
        name_end(s, p + 1)
    } else {
        p
    }
}

/// The keyword that `w` spells, if any.
pub open spec fn keyword(w: Seq<u8>) -> Option<Keyword> {
    if w == seq!['a' as u8, 'n' as u8, 'd' as u8] {
        Some(Keyword::And)
    } else if w == seq!['b' as u8, 'r' as u8, 'e' as u8, 'a' as u8, 'k' as u8] {
        Some(Keyword::Break)
    } else if w == seq!['d' as u8, 'o' as u8] {
        Some(Keyword::Do)
    } else if w == seq!['e' as u8, 'l' as u8, 's' as u8, 'e' as u8] {
        Some(Keyword::Else)
    } else if w == seq!['e' as u8, 'l' as u8, 's' as u8, 'e' as u8, 'i' as u8, 'f' as u8] {
        Some(Keyword::Elseif)
    } else if w == seq!['e' as u8, 'n' as u8, 'd' as u8] {
        Some(Keyword::End)
    } else if w == seq!['f' as u8, 'a' as u8, 'l' as u8, 's' as u8, 'e' as u8] {
        Some(Keyword::False)
    } else if w == seq!['f' as u8, 'o' as u8, 'r' as u8] {
        Some(Keyword::For)
    } else if w == seq!['f' as u8, 'u' as u8, 'n' as u8, 'c' as u8, 't' as u8, 'i' as u8, 'o' as u8, 'n' as u8] {
        Some(Keyword::Function)
    } else if w == seq!['g' as u8, 'o' as u8, 't' as u8, 'o' as u8] {
        Some(Keyword::Goto)
    } else if w == seq!['i' as u8, 'f' as u8] {
        Some(Keyword::If)
    } else if w == seq!['i' as u8, 'n' as u8] {
        Some(Keyword::In)
    } else if w == seq!['l' as u8, 'o' as u8, 'c' as u8, 'a' as u8, 'l' as u8] {
        Some(Keyword::Local)
    } else if w == seq!['n' as u8, 'i' as u8, 'l' as u8] {
        Some(Keyword::Nil)
    } else if w == seq!['n' as u8, 'o' as u8, 't' as u8] {
        Some(Keyword::Not)
    } else if w == seq!['o' as u8, 'r' as u8] {
        Some(Keyword::Or)
    } else if w == seq!['r' as u8, 'e' as u8, 'p' as u8, 'e' as u8, 'a' as u8, 't' as u8] {
        Some(Keyword::Repeat)
    } else if w == seq!['r' as u8, 'e' as u8, 't' as u8, 'u' as u8, 'r' as u8, 'n' as u8] {
        Some(Keyword::Return)
    } else if w == seq!['t' as u8, 'h' as u8, 'e' as u8, 'n' as u8] {
        Some(Keyword::Then)
    } else if w == seq!['t' as u8, 'r' as u8, 'u' as u8, 'e' as u8] {
        Some(Keyword::True)
    } else if w == seq!['u' as u8, 'n' as u8, 't' as u8, 'i' as u8, 'l' as u8] {
        Some(Keyword::Until)
    } else if w == seq!['w' as u8, 'h' as u8, 'i' as u8, 'l' as u8, 'e' as u8] {
        Some(Keyword::While)
    } else if w == seq!['a' as u8, 's' as u8, 'y' as u8, 'n' as u8, 'c' as u8] {
        Some(Keyword::Async)
    } else if w == seq!['a' as u8, 'w' as u8, 'a' as u8, 'i' as u8, 't' as u8] {
        Some(Keyword::Await)
    } else {
        None
    }
}

/// What tokenizing from a position yields: the token and the position after it.
pub type Scan = Result<(Tok, int), LexError>;

/// The position of the next token after `p`: whitespace and line comments
/// are skipped.
pub open spec fn skip(s: Seq<u8>, p: int) -> Result<int, LexError>
    decreases s.len() - p, 1int,
{
    if p < 0 || p >= s.len() {
        Ok(p)
    } else if is_space(s[p]) {
        skip(s, p + 1)
    } else if s[p] == '-' as u8 && byte_at(s, p + 1) == '-' as u8 {
        if byte_at(s, p + 2) == '[' as u8 {
            Err(LexError::LongComment)
        } else {
            skip_line(s, p + 2)
        }
    } else {
        Ok(p)
    }
}

/// Inside a line comment at `p`: skip to the end of the line, then go on
/// skipping.
pub open spec fn skip_line(s: Seq<u8>, p: int) -> Result<int, LexError>
    decreases s.len() - p, 0int,
{
    if p < 0 || p >= s.len() {
        Ok(p)
    } else if s[p] == '\n' as u8 {
        skip(s, p + 1)
    } else {
        skip_line(s, p + 1)
    }
}

/// The escape whose letter stands at `p` (just after a backslash): the
/// byte it denotes and the position after it.
pub open spec fn escape(s: Seq<u8>, p: int) -> Result<(u8, int), LexError> {
    let c = byte_at(s, p);
    if p >= s.len() {
        Err(LexError::UnfinishedString)
    } else if c == 'a' as u8 {
        Ok((7u8, p + 1))
    } else if c == 'b' as u8 {
        Ok((8u8, p + 1))
    } else if c == 'f' as u8 {
        Ok((12u8, p + 1))
    } else if c == 'v' as u8 {
        Ok((11u8, p + 1))
    } else if c == 'n' as u8 {
        Ok((10u8, p + 1))
    } else if c == 'r' as u8 {
        Ok((13u8, p + 1))
    } else if c == 't' as u8 {
        Ok((9u8, p + 1))
    } else if c == '\\' as u8 || c == '"' as u8 || c == '\'' as u8 {
        Ok((c, p + 1))
    } else if c == 'x' as u8 {
        if is_digit(byte_at(s, p + 1), 16) && is_digit(byte_at(s, p + 2), 16) {
            Ok(((digit_value(byte_at(s, p + 1), 16) * 16 + digit_value(byte_at(s, p + 2), 16)) as u8, p + 3))
        } else {
            Err(LexError::InvalidEscape)
        }
    } else if is_dec_digit(c) {
        let e = if !is_dec_digit(byte_at(s, p + 1)) {
            p + 1
        } else if !is_dec_digit(byte_at(s, p + 2)) {
            p + 2
        } else {
            p + 3
        };
        let v = digits_value(s, p, e, 10);
        if v > 255 {
            Err(LexError::EscapeTooLarge)
        } else {
            Ok((v as u8, e))
        }
    } else {
        Err(LexError::InvalidEscape)
    }
}

/// The rest of a string literal closed by `quote`, from `p`, after the
/// bytes `acc` were read.
pub open spec fn string_rest(s: Seq<u8>, p: int, quote: u8, acc: Seq<u8>) -> Scan
    decreases s.len() - p,
{
    if p < 0 || p >= s.len() {
        Err(LexError::UnfinishedString)
    } else if s[p] == quote {
        Ok((Tok::Str(acc), p + 1))
    } else if s[p] == '\n' as u8 {
        Err(LexError::UnfinishedString)
    } else if s[p] == '\\' as u8 {
        match escape(s, p + 1) {
            Ok((b, q)) => string_rest(s, q, quote, acc.push(b)),
            Err(e) => Err(e),
        }
    } else {
        string_rest(s, p + 1, quote, acc.push(s[p]))
    }
}

/// A number `t` whose last digit stands before `e`: a letter or a point
/// right after it makes it malformed.
pub open spec fn ends_number(s: Seq<u8>, e: int, t: Tok) -> Scan {
    if is_alpha(byte_at(s, e)) || byte_at(s, e) == '.' as u8 {
        Err(LexError::MalformedNumber)
    } else {
        Ok((t, e))
    }
}

/// A decimal exponent at `p` (just after `e`) applied to `lit`.
pub open spec fn exponent(s: Seq<u8>, p: int, lit: FloatLit) -> Scan {
    let c = byte_at(s, p);
    if c != '+' as u8 && c != '-' as u8 && !is_dec_digit(c) {
        Err(LexError::MalformedNumber)
    } else {
        let start = if is_dec_digit(c) { p } else { p + 1 };
        let e = digits_end(s, start, 10);
        let v = digits_value(s, start, e, 10);
        if v > i64::MAX {
            Err(LexError::NumberOutOfRange)
        } else {
            let x: int = if c == '-' as u8 { -v } else { v };
            ends_number(s, e, Tok::Float(FloatLit { exp: x as i64, ..lit }))
        }
    }
}

/// Where the longest prefix of the digits `s[p..e]` whose value fits in
/// 64 signed bits ends.
pub open spec fn fit_end(s: Seq<u8>, p: int, e: int, radix: u32) -> int
    decreases e - p,
{
    if e <= p || digits_value(s, p, e, radix) <= i64::MAX {
        e
    } else {
        fit_end(s, p, e - 1, radix)
    }
}

/// The digits after the point, from `p`, of a number whose integer part is
/// `int_part`; in base 10 an exponent may follow. Digits past those whose
/// value fits in 64 signed bits are read but dropped: they lie below what a
/// double can tell apart.
pub open spec fn fraction(s: Seq<u8>, p: int, int_part: i64, radix: u32) -> Scan {
    let e = digits_end(s, p, radix);
    let f = fit_end(s, p, e, radix);
    let lit = FloatLit {
        int_part,
        frac_part: digits_value(s, p, f, radix) as i64,
        frac_digits: (f - p) as u64,
        radix,
        exp: 0,
    };
    let c = byte_at(s, e);
    if radix == 10 && (c == 'e' as u8 || c == 'E' as u8) {
        exponent(s, e + 1, lit)
    } else {
        ends_number(s, e, Tok::Float(lit))
    }
}

/// A number whose digits in `radix` start at `p`.
pub open spec fn number_in_radix(s: Seq<u8>, p: int, radix: u32) -> Scan {
    let e = digits_end(s, p, radix);
    let v = digits_value(s, p, e, radix);
    let c = byte_at(s, e);
    if v > i64::MAX {
        Err(LexError::NumberOutOfRange)
    } else if c == '.' as u8 {
        fraction(s, e + 1, v as i64, radix)
    } else if radix == 10 && (c == 'e' as u8 || c == 'E' as u8) {
        exponent(s, e + 1, FloatLit { int_part: v as i64, frac_part: 0, frac_digits: 0, radix, exp: 0 })
    } else if is_alpha(c) {
        Err(LexError::MalformedNumber)
    } else {
        Ok((Tok::Integer(v as i64), e))
    }
}

/// A number starting with the decimal digit at `p`.
pub open spec fn number(s: Seq<u8>, p: int) -> Scan {
    let c = byte_at(s, p + 1);
    if s[p] == '0' as u8 && (c == 'x' as u8 || c == 'X' as u8) {
        number_in_radix(s, p + 2, 16)
    } else if s[p] == '0' as u8 && (c == 'b' as u8 || c == 'B' as u8) {
        number_in_radix(s, p + 2, 2)
    } else if s[p] == '0' as u8 && (c == 'o' as u8 || c == 'O' as u8) {
        number_in_radix(s, p + 2, 8)
    } else {
        number_in_radix(s, p, 10)
    }
}

/// A name or keyword starting at `p`.
pub open spec fn name(s: Seq<u8>, p: int) -> Scan {
    let e = name_end(s, p + 1);
    let w = s.subrange(p, e);
    match keyword(w) {
        Some(k) => Ok((Tok::Keyword(k), e)),
        None => Ok((Tok::Name(w), e)),
    }
}

/// A symbol at `p` whose meaning depends on the byte after it: the first
/// case whose byte follows gives a two-byte symbol, else it is `failed`.
pub open spec fn follow(s: Seq<u8>, p: int, cases: Seq<(u8, Symbol)>, failed: Symbol) -> Scan
    decreases cases.len(),
{
    if cases.len() == 0 {
        Ok((Tok::Symbol(failed), p + 1))
    } else if byte_at(s, p + 1) == cases[0].0 {
        Ok((Tok::Symbol(cases[0].1), p + 2))
    } else {
        follow(s, p, cases.drop_first(), failed)
    }
}

/// The symbol a single byte stands for.
pub open spec fn single_symbol(c: u8) -> Option<Symbol> {
    if c == '+' as u8 {
        Some(Symbol::Add)
    } else if c == '*' as u8 {
        Some(Symbol::Mul)
    } else if c == '%' as u8 {
        Some(Symbol::Mod)
    } else if c == '^' as u8 {
        Some(Symbol::Pow)
    } else if c == '#' as u8 {
        Some(Symbol::Len)
    } else if c == '&' as u8 {
        Some(Symbol::BitAnd)
    } else if c == '|' as u8 {
        Some(Symbol::BitOr)
    } else if c == '(' as u8 {
        Some(Symbol::ParL)
    } else if c == ')' as u8 {
        Some(Symbol::ParR)
    } else if c == '{' as u8 {
        Some(Symbol::CurlyL)
    } else if c == '}' as u8 {
        Some(Symbol::CurlyR)
    } else if c == '[' as u8 {
        Some(Symbol::SqurL)
    } else if c == ']' as u8 {
        Some(Symbol::SqurR)
    } else if c == ';' as u8 {
        Some(Symbol::SemiColon)
    } else if c == ',' as u8 {
        Some(Symbol::Comma)
    } else if c == '-' as u8 {
        Some(Symbol::Sub)
    } else {
        None
    }
}

/// The token that starts at `p`, which holds no space and no comment.
pub open spec fn token_at(s: Seq<u8>, p: int) -> Scan {
    let c = s[p];
    if single_symbol(c) is Some {
        Ok((Tok::Symbol(single_symbol(c)->0), p + 1))
    } else if c == '/' as u8 {
        follow(s, p, seq![('/' as u8, Symbol::Idiv)], Symbol::Div)
    } else if c == '=' as u8 {
        follow(s, p, seq![('=' as u8, Symbol::Equal)], Symbol::Assign)
    } else if c == '~' as u8 {
        follow(s, p, seq![('=' as u8, Symbol::NotEq)], Symbol::BitXor)
    } else if c == ':' as u8 {
        follow(s, p, seq![(':' as u8, Symbol::DoubColon)], Symbol::Colon)
    } else if c == '<' as u8 {
        follow(s, p, seq![('=' as u8, Symbol::LesEq), ('<' as u8, Symbol::ShiftL)], Symbol::Less)
    } else if c == '>' as u8 {
        follow(s, p, seq![('=' as u8, Symbol::GreEq), ('>' as u8, Symbol::ShiftR)], Symbol::Greater)
    } else if c == '\'' as u8 || c == '"' as u8 {
        string_rest(s, p + 1, c, Seq::empty())
    } else if c == '.' as u8 {
        if byte_at(s, p + 1) == '.' as u8 {
            follow(s, p + 1, seq![('.' as u8, Symbol::Dots)], Symbol::Concat)
        } else if is_dec_digit(byte_at(s, p + 1)) {
            fraction(s, p + 1, 0, 10)
        } else {
            Ok((Tok::Symbol(Symbol::Dot), p + 1))
        }
    } else if is_dec_digit(c) {
        number(s, p)
    } else if is_name_start(c) {
        name(s, p)
    } else {
        Err(LexError::UnexpectedChar(c))
    }
}

/// The next token of `s` from `p`, and the position after it.
#[verifier::opaque]
pub open spec fn scan(s: Seq<u8>, p: int) -> Scan {
    match skip(s, p) {
        Err(e) => Err(e),
        Ok(q) => if q >= s.len() {
            Ok((Tok::Eos, q))
        } else {
            token_at(s, q)
        },
    }
}


// ---------------------------------------------------------------------
// Facts about the runs of digits and name bytes.

proof fn lemma_digits_end(s: Seq<u8>, p: int, radix: u32)
    requires
        0 <= p <= s.len(),
    ensures
        p <= digits_end(s, p, radix) <= s.len(),
        forall|j: int| p <= j < digits_end(s, p, radix) ==> is_digit(#[trigger] s[j], radix),
        digits_end(s, p, radix) < s.len() ==> !is_digit(s[digits_end(s, p, radix)], radix),
    decreases s.len() - p,
{
    if p < s.len() && is_digit(s[p], radix) {
        lemma_digits_end(s, p + 1, radix);
    }
}

proof fn lemma_digits_value_grows(s: Seq<u8>, p: int, i: int, e: int, radix: u32)
    requires
        p <= i <= e,
        e <= s.len(),
        radix >= 2,
        forall|j: int| p <= j < e ==> is_digit(#[trigger] s[j], radix),
    ensures
        0 <= digits_value(s, p, i, radix) <= digits_value(s, p, e, radix),
    decreases e - p,
{
    if e > p {
        let j = if i < e { i } else { e - 1 };
        lemma_digits_value_grows(s, p, j, e - 1, radix);
        let v = digits_value(s, p, e - 1, radix);
        assert(is_digit(s[e - 1], radix));
        assert(v * radix >= v) by (nonlinear_arith)
            requires
                v >= 0,
                radix >= 2,
        ;
    }
}

proof fn lemma_fit_end(s: Seq<u8>, p: int, c: int, q: int, radix: u32)
    requires
        p <= c < q <= s.len(),
        radix >= 2,
        forall|j: int| p <= j < q ==> is_digit(#[trigger] s[j], radix),
        digits_value(s, p, c, radix) <= i64::MAX,
        digits_value(s, p, c + 1, radix) > i64::MAX,
    ensures
        fit_end(s, p, q, radix) == c,
    decreases q - c,
{
    lemma_digits_value_grows(s, p, c + 1, q, radix);
    assert(fit_end(s, p, c, radix) == c);
    assert(fit_end(s, p, q, radix) == fit_end(s, p, q - 1, radix));
    if q > c + 1 {
        lemma_fit_end(s, p, c, q - 1, radix);
    }
}

proof fn lemma_name_end(s: Seq<u8>, p: int)
    requires
        0 <= p <= s.len(),
    ensures
        p <= name_end(s, p) <= s.len(),
    decreases s.len() - p,
{
    if p < s.len() && is_name_char(s[p]) {
        lemma_name_end(s, p + 1);
    }
}

proof fn lemma_skip(s: Seq<u8>, p: int)
    requires
        0 <= p <= s.len(),
    ensures
        skip(s, p) matches Ok(q) ==> p <= q <= s.len(),
    decreases s.len() - p, 1int,
{
    if p < s.len() {
        if is_space(s[p]) {
            lemma_skip(s, p + 1);
        } else if s[p] == '-' as u8 && byte_at(s, p + 1) == '-' as u8 && byte_at(s, p + 2) != '[' as u8 {
            lemma_skip_line(s, p + 2);
        }
    }
}

proof fn lemma_skip_line(s: Seq<u8>, p: int)
    requires
        0 <= p <= s.len() + 1,
    ensures
        skip_line(s, p) matches Ok(q) ==> p <= q && q <= s.len() + 1 && (p <= s.len() ==> q <= s.len()),
    decreases s.len() - p, 0int,
{
    if 0 <= p < s.len() {
        if s[p] == '\n' as u8 {
            lemma_skip(s, p + 1);
        } else {
            lemma_skip_line(s, p + 1);
        }
    }
}

proof fn lemma_follow(s: Seq<u8>, p: int, cases: Seq<(u8, Symbol)>, failed: Symbol)
    requires
        0 <= p < s.len(),
        forall|k: int| 0 <= k < cases.len() ==> (#[trigger] cases[k]).0 != 0,
    ensures
        follow(s, p, cases, failed) matches Ok((t, e)) && p < e <= s.len() && t is Symbol,
    decreases cases.len(),
{
    if cases.len() > 0 && byte_at(s, p + 1) != cases[0].0 {
        assert forall|k: int| 0 <= k < cases.drop_first().len() implies (#[trigger] cases.drop_first()[k]).0 != 0 by {
            assert(cases.drop_first()[k] == cases[k + 1]);
        }
        lemma_follow(s, p, cases.drop_first(), failed);
    }
}

proof fn lemma_string_rest(s: Seq<u8>, p: int, quote: u8, acc: Seq<u8>)
    requires
        0 <= p,
    ensures
        string_rest(s, p, quote, acc) matches Ok((t, e)) ==> p < e <= s.len() && t is Str,
    decreases s.len() - p,
{
    if 0 <= p < s.len() && s[p] != quote && s[p] != '\n' as u8 {
        if s[p] == '\\' as u8 {
            if let Ok((b, q)) = escape(s, p + 1) {
                lemma_string_rest(s, q, quote, acc.push(b));
            }
        } else {
            lemma_string_rest(s, p + 1, quote, acc.push(s[p]));
        }
    }
}

proof fn lemma_exponent(s: Seq<u8>, p: int, lit: FloatLit)
    requires
        0 <= p <= s.len(),
    ensures
        exponent(s, p, lit) matches Ok((t, e)) ==> p <= e <= s.len() && t is Float,
{
    let c = byte_at(s, p);
    let start = if is_dec_digit(c) { p } else { p + 1 };
    if c == '+' as u8 || c == '-' as u8 || is_dec_digit(c) {
        lemma_digits_end(s, start, 10);
    }
}

proof fn lemma_fraction(s: Seq<u8>, p: int, int_part: i64, radix: u32)
    requires
        0 <= p <= s.len(),
    ensures
        fraction(s, p, int_part, radix) matches Ok((t, e)) ==> p <= e <= s.len() && t is Float,
{
    lemma_digits_end(s, p, radix);
    let e = digits_end(s, p, radix);
    let f = fit_end(s, p, e, radix);
    let c = byte_at(s, e);
    if c == 'e' as u8 || c == 'E' as u8 {
        lemma_exponent(s, e + 1, FloatLit { int_part, frac_part: digits_value(s, p, f, radix) as i64, frac_digits: (f - p) as u64, radix, exp: 0 });
    }
}

proof fn lemma_number_in_radix(s: Seq<u8>, p: int, radix: u32)
    requires
        0 <= p <= s.len(),
    ensures
        p <= digits_end(s, p, radix),
        number_in_radix(s, p, radix) matches Ok((t, e)) ==> digits_end(s, p, radix) <= e <= s.len()
            && (t is Integer || t is Float),
{
    lemma_digits_end(s, p, radix);
    let e = digits_end(s, p, radix);
    let v = digits_value(s, p, e, radix);
    let c = byte_at(s, e);
    if c == '.' as u8 {
        lemma_fraction(s, e + 1, v as i64, radix);
    } else if c == 'e' as u8 || c == 'E' as u8 {
        lemma_exponent(s, e + 1, FloatLit { int_part: v as i64, frac_part: 0, frac_digits: 0, radix, exp: 0 });
    }
}

proof fn lemma_token_at(s: Seq<u8>, p: int)
    requires
        0 <= p < s.len(),
    ensures
        token_at(s, p) matches Ok((t, e)) ==> p < e <= s.len() && !(t is Eos),
{
    let c = s[p];
    let n = byte_at(s, p + 1);
    if single_symbol(c) is Some {
    } else if c == '/' as u8 {
        lemma_follow(s, p, seq![('/' as u8, Symbol::Idiv)], Symbol::Div);
    } else if c == '=' as u8 {
        lemma_follow(s, p, seq![('=' as u8, Symbol::Equal)], Symbol::Assign);
    } else if c == '~' as u8 {
        lemma_follow(s, p, seq![('=' as u8, Symbol::NotEq)], Symbol::BitXor);
    } else if c == ':' as u8 {
        lemma_follow(s, p, seq![(':' as u8, Symbol::DoubColon)], Symbol::Colon);
    } else if c == '<' as u8 {
        let cs = seq![('=' as u8, Symbol::LesEq), ('<' as u8, Symbol::ShiftL)];
        assert(cs[0].0 != 0 && cs[1].0 != 0);
        lemma_follow(s, p, cs, Symbol::Less);
    } else if c == '>' as u8 {
        let cs = seq![('=' as u8, Symbol::GreEq), ('>' as u8, Symbol::ShiftR)];
        assert(cs[0].0 != 0 && cs[1].0 != 0);
        lemma_follow(s, p, cs, Symbol::Greater);
    } else if c == '\'' as u8 || c == '"' as u8 {
        lemma_string_rest(s, p + 1, c, Seq::empty());
    } else if c == '.' as u8 {
        if n == '.' as u8 {
            lemma_follow(s, p + 1, seq![('.' as u8, Symbol::Dots)], Symbol::Concat);
        } else if is_dec_digit(n) {
            lemma_fraction(s, p + 1, 0, 10);
        }
    } else if is_dec_digit(c) {
        if c == '0' as u8 && (n == 'x' as u8 || n == 'X' as u8 || n == 'b' as u8 || n == 'B' as u8 || n == 'o' as u8 || n == 'O' as u8) {
            lemma_number_in_radix(s, p + 2, 16);
            lemma_number_in_radix(s, p + 2, 2);
            lemma_number_in_radix(s, p + 2, 8);
        } else {
            lemma_number_in_radix(s, p, 10);
            assert(is_digit(s[p], 10));
            lemma_digits_end(s, p + 1, 10);
            assert(digits_end(s, p, 10) > p);
        }
    } else if is_name_start(c) {
        lemma_name_end(s, p + 1);
    }
}

/// How much input a lexer has left: each token other than `Eos` that
/// `next` hands out makes it smaller.
pub open spec fn lex_measure(l: LexView) -> int {
    2 * (l.input.len() - l.pos) + if l.ahead is Eos { 0int } else { 1int }
}

proof fn lemma_scan(s: Seq<u8>, p: int)
    requires
        0 <= p <= s.len(),
    ensures
        scan(s, p) matches Ok((t, e)) ==> p <= e <= s.len() && (!(t is Eos) ==> p < e),
{
    reveal(scan);
    lemma_skip(s, p);
    if let Ok(q) = skip(s, p) {
        if q < s.len() {
            lemma_token_at(s, q);
        }
    }
}

/// `next` keeps the lexer well formed and consumes input with each token
/// other than `Eos`.
pub proof fn lemma_next_progress(l: LexView)
    requires
        l.wf(),
    ensures
        lex_next(l) matches Ok((t, l2)) ==> l2.wf() && l2.input == l.input && 0 <= lex_measure(l2) <= lex_measure(l)
            && (!(t is Eos) ==> lex_measure(l2) < lex_measure(l)),
{
    lemma_scan(l.input, l.pos);
}

/// `peek` keeps the lexer well formed and consumes no more than it holds.
pub proof fn lemma_peek_progress(l: LexView)
    requires
        l.wf(),
    ensures
        lex_peek(l) matches Ok((t, l2)) ==> l2.wf() && l2.input == l.input && 0 <= lex_measure(l2) <= lex_measure(l),
{
    lemma_scan(l.input, l.pos);
}

// ---------------------------------------------------------------------
// The lexer.

/// A lexer over a source held in memory, with one token of lookahead.
pub struct Lex {
    input: Vec<u8>,
    pos: usize,
    /// A token read by `peek` and not yet taken; `Eos` when there is none.
    ahead: Token,
}

/// The abstract state of a lexer: the source, the position of the next
/// unread byte, and the token held back by `peek` (`Eos` for none).
pub struct LexView {
    pub input: Seq<u8>,
    pub pos: int,
    pub ahead: Tok,
}

impl LexView {
    pub open spec fn wf(self) -> bool {
        0 <= self.pos <= self.input.len()
    }
}

impl View for Lex {
    type V = LexView;

    closed spec fn view(&self) -> LexView {
        LexView { input: self.input@, pos: self.pos as int, ahead: self.ahead@ }
    }
}

/// What `next` does: take the held token, or scan a fresh one.
pub open spec fn lex_next(l: LexView) -> Result<(Tok, LexView), LexError> {
    if l.ahead is Eos {
        match scan(l.input, l.pos) {
            Ok((t, p)) => Ok((t, LexView { pos: p, ..l })),
            Err(e) => Err(e),
        }
    } else {
        Ok((l.ahead, LexView { ahead: Tok::Eos, ..l }))
    }
}

/// What `peek` does: scan a token into the lookahead slot if it is empty.
pub open spec fn lex_peek(l: LexView) -> Result<(Tok, LexView), LexError> {
    if l.ahead is Eos {
        match scan(l.input, l.pos) {
            Ok((t, p)) => Ok((t, LexView { pos: p, ahead: t, ..l })),
            Err(e) => Err(e),
        }
    } else {
        Ok((l.ahead, l))
    }
}

/// `r` is what the scan `sc` describes, and `l` stands just after it.
pub open spec fn scanned(r: Result<Token, LexError>, sc: Scan, l: LexView) -> bool {
    match sc {
        Ok((t, e)) => match r {
            Ok(tok) => tok@ == t && l.pos == e,
            Err(_) => false,
        },
        Err(err) => r == Err::<Token, LexError>(err),
    }
}

/// `b` is `a` moved forward in the same source, with the same lookahead.
pub open spec fn same_source(a: LexView, b: LexView) -> bool {
    b.input == a.input && b.ahead == a.ahead && b.wf()
}

fn is_dec_byte(c: u8) -> (r: bool)
    ensures
        r == is_dec_digit(c),
{
    '0' as u8 <= c && c <= '9' as u8
}

fn is_alpha_byte(c: u8) -> (r: bool)
    ensures
        r == is_alpha(c),
{
    ('a' as u8 <= c && c <= 'z' as u8) || ('A' as u8 <= c && c <= 'Z' as u8)
}

fn is_name_byte(c: u8) -> (r: bool)
    ensures
        r == is_name_char(c),
{
    is_alpha_byte(c) || c == '_' as u8 || is_dec_byte(c)
}

fn is_space_byte(c: u8) -> (r: bool)
    ensures
        r == is_space(c),
{
    c == ' ' as u8 || c == '\r' as u8 || c == '\n' as u8 || c == '\t' as u8
}

/// The value of `c` as a digit in `radix`.
fn to_digit(c: u8, radix: u32) -> (r: Option<u32>)
    requires
        valid_radix(radix),
    ensures
        match r {
            Some(d) => is_digit(c, radix) && d == digit_value(c, radix),
            None => !is_digit(c, radix),
        },
{
    let d: u32 = if is_dec_byte(c) {
        (c - '0' as u8) as u32
    } else if 'a' as u8 <= c && c <= 'z' as u8 {
        (c - 'a' as u8) as u32 + 10
    } else if 'A' as u8 <= c && c <= 'Z' as u8 {
        (c - 'A' as u8) as u32 + 10
    } else {
        99
    };
    if d < radix {
        Some(d)
    } else {
        None
    }
}

/// The keyword spelled by `w`, if any.
fn keyword_of(w: &[u8]) -> (r: Option<Keyword>)
    ensures
        r == keyword(w@),
{
    if bytes_eq(w, &['a' as u8, 'n' as u8, 'd' as u8]) {
        Some(Keyword::And)
    } else if bytes_eq(w, &['b' as u8, 'r' as u8, 'e' as u8, 'a' as u8, 'k' as u8]) {
        Some(Keyword::Break)
    } else if bytes_eq(w, &['d' as u8, 'o' as u8]) {
        Some(Keyword::Do)
    } else if bytes_eq(w, &['e' as u8, 'l' as u8, 's' as u8, 'e' as u8]) {
        Some(Keyword::Else)
    } else if bytes_eq(w, &['e' as u8, 'l' as u8, 's' as u8, 'e' as u8, 'i' as u8, 'f' as u8]) {
        Some(Keyword::Elseif)
    } else if bytes_eq(w, &['e' as u8, 'n' as u8, 'd' as u8]) {
        Some(Keyword::End)
    } else if bytes_eq(w, &['f' as u8, 'a' as u8, 'l' as u8, 's' as u8, 'e' as u8]) {
        Some(Keyword::False)
    } else if bytes_eq(w, &['f' as u8, 'o' as u8, 'r' as u8]) {
        Some(Keyword::For)
    } else if bytes_eq(w, &['f' as u8, 'u' as u8, 'n' as u8, 'c' as u8, 't' as u8, 'i' as u8, 'o' as u8, 'n' as u8]) {
        Some(Keyword::Function)
    } else if bytes_eq(w, &['g' as u8, 'o' as u8, 't' as u8, 'o' as u8]) {
        Some(Keyword::Goto)
    } else if bytes_eq(w, &['i' as u8, 'f' as u8]) {
        Some(Keyword::If)
    } else if bytes_eq(w, &['i' as u8, 'n' as u8]) {
        Some(Keyword::In)
    } else if bytes_eq(w, &['l' as u8, 'o' as u8, 'c' as u8, 'a' as u8, 'l' as u8]) {
        Some(Keyword::Local)
    } else if bytes_eq(w, &['n' as u8, 'i' as u8, 'l' as u8]) {
        Some(Keyword::Nil)
    } else if bytes_eq(w, &['n' as u8, 'o' as u8, 't' as u8]) {
        Some(Keyword::Not)
    } else if bytes_eq(w, &['o' as u8, 'r' as u8]) {
        Some(Keyword::Or)
    } else if bytes_eq(w, &['r' as u8, 'e' as u8, 'p' as u8, 'e' as u8, 'a' as u8, 't' as u8]) {
        Some(Keyword::Repeat)
    } else if bytes_eq(w, &['r' as u8, 'e' as u8, 't' as u8, 'u' as u8, 'r' as u8, 'n' as u8]) {
        Some(Keyword::Return)
    } else if bytes_eq(w, &['t' as u8, 'h' as u8, 'e' as u8, 'n' as u8]) {
        Some(Keyword::Then)
    } else if bytes_eq(w, &['t' as u8, 'r' as u8, 'u' as u8, 'e' as u8]) {
        Some(Keyword::True)
    } else if bytes_eq(w, &['u' as u8, 'n' as u8, 't' as u8, 'i' as u8, 'l' as u8]) {
        Some(Keyword::Until)
    } else if bytes_eq(w, &['w' as u8, 'h' as u8, 'i' as u8, 'l' as u8, 'e' as u8]) {
        Some(Keyword::While)
    } else if bytes_eq(w, &['a' as u8, 's' as u8, 'y' as u8, 'n' as u8, 'c' as u8]) {
        Some(Keyword::Async)
    } else if bytes_eq(w, &['a' as u8, 'w' as u8, 'a' as u8, 'i' as u8, 't' as u8]) {
        Some(Keyword::Await)
    } else {
        None
    }
}

/// The symbol that the byte `c` alone stands for.
fn single_symbol_of(c: u8) -> (r: Option<Symbol>)
    ensures
        r == single_symbol(c),
{
    if c == '+' as u8 {
        Some(Symbol::Add)
    } else if c == '*' as u8 {
        Some(Symbol::Mul)
    } else if c == '%' as u8 {
        Some(Symbol::Mod)
    } else if c == '^' as u8 {
        Some(Symbol::Pow)
    } else if c == '#' as u8 {
        Some(Symbol::Len)
    } else if c == '&' as u8 {
        Some(Symbol::BitAnd)
    } else if c == '|' as u8 {
        Some(Symbol::BitOr)
    } else if c == '(' as u8 {
        Some(Symbol::ParL)
    } else if c == ')' as u8 {
        Some(Symbol::ParR)
    } else if c == '{' as u8 {
        Some(Symbol::CurlyL)
    } else if c == '}' as u8 {
        Some(Symbol::CurlyR)
    } else if c == '[' as u8 {
        Some(Symbol::SqurL)
    } else if c == ']' as u8 {
        Some(Symbol::SqurR)
    } else if c == ';' as u8 {
        Some(Symbol::SemiColon)
    } else if c == ',' as u8 {
        Some(Symbol::Comma)
    } else if c == '-' as u8 {
        Some(Symbol::Sub)
    } else {
        None
    }
}

impl Lex {
    /// A lexer at the start of `input`, with nothing held back.
    pub fn new(input: Vec<u8>) -> (r: Lex)
        ensures
            r@ == (LexView { input: input@, pos: 0, ahead: Tok::Eos }),
    {
        Lex { input, pos: 0, ahead: Token::Eos }
    }

    /// The byte `k` places ahead of the position, 0 past the end.
    fn byte_ahead(&self, k: usize) -> (c: u8)
        requires
            self@.wf(),
        ensures
            c == byte_at(self@.input, self@.pos + k),
    {
        if k < self.input.len() - self.pos {
            self.input[self.pos + k]
        } else {
            0
        }
    }

    /// The next byte, not consumed; 0 at the end.
    fn peek_byte(&self) -> (c: u8)
        requires
            self@.wf(),
        ensures
            c == byte_at(self@.input, self@.pos),
    {
        self.byte_ahead(0)
    }

    /// Consumes the next byte, which exists.
    fn advance(&mut self)
        requires
            old(self)@.wf(),
            old(self)@.pos < old(self)@.input.len(),
        ensures
            final(self)@ == (LexView { pos: old(self)@.pos + 1, ..old(self)@ }),
    {
        let n = self.input.len();
        assert(self.pos < n);
        self.pos = self.pos + 1;
    }

    /// Consumes and returns the next byte, if there is one.
    fn next_byte(&mut self) -> (r: Option<u8>)
        requires
            old(self)@.wf(),
        ensures
            same_source(old(self)@, final(self)@),
            old(self)@.pos < old(self)@.input.len() ==> r == Some(old(self)@.input[old(self)@.pos])
                && final(self)@.pos == old(self)@.pos + 1,
            old(self)@.pos >= old(self)@.input.len() ==> r is None && final(self)@.pos == old(self)@.pos,
    {
        if self.pos < self.input.len() {
            let c = self.input[self.pos];
            self.pos = self.pos + 1;
            Some(c)
        } else {
            None
        }
    }

    /// Consumes the run of `radix` digits at the position and returns the
    /// number they write.
    fn scan_digits(&mut self, radix: u32) -> (r: Result<i64, LexError>)
        requires
            old(self)@.wf(),
            valid_radix(radix),
        ensures
            same_source(old(self)@, final(self)@),
            ({
                let s = old(self)@.input;
                let p = old(self)@.pos;
                let e = digits_end(s, p, radix);
                let v = digits_value(s, p, e, radix);
                if v > i64::MAX {
                    r == Err::<i64, LexError>(LexError::NumberOutOfRange)
                } else {
                    r == Ok::<i64, LexError>(v as i64) && final(self)@.pos == e && 0 <= v
                }
            }),
            r matches Ok(v) ==> v >= 0 && final(self)@.pos >= old(self)@.pos,
    {
        let ghost s = self@.input;
        let ghost p = self@.pos;
        proof {
            lemma_digits_end(s, p, radix);
            lemma_digits_value_grows(s, p, digits_end(s, p, radix), digits_end(s, p, radix), radix);
        }
        let ghost e = digits_end(s, p, radix);
        let mut v: i64 = 0;
        loop
            invariant
                same_source(old(self)@, self@),
                s == self@.input,
                s == old(self)@.input,
                p == old(self)@.pos,
                p <= self@.pos <= e,
                e == digits_end(s, p, radix),
                e <= s.len(),
                forall|j: int| p <= j < e ==> is_digit(#[trigger] s[j], radix),
                e < s.len() ==> !is_digit(s[e], radix),
                v == digits_value(s, p, self@.pos, radix),
                valid_radix(radix),
            decreases e - self@.pos,
        {
            let c = self.peek_byte();
            match to_digit(c, radix) {
                None => {
                    assert(self@.pos == e);
                    proof {
                        lemma_digits_value_grows(s, p, e, e, radix);
                    }
                    return Ok(v);
                },
                Some(d) => {
                    assert(self@.pos < e);
                    proof {
                        lemma_digits_value_grows(s, p, self@.pos, e, radix);
                    }
                    let ghost next = v * radix + d;
                    assert(digits_value(s, p, self@.pos + 1, radix) == next);
                    match v.checked_mul(radix as i64) {
                        None => {
                            proof {
                                lemma_digits_value_grows(s, p, self@.pos + 1, e, radix);
                            }
                            return Err(LexError::NumberOutOfRange);
                        },
                        Some(m) => match m.checked_add(d as i64) {
                            None => {
                                proof {
                                    lemma_digits_value_grows(s, p, self@.pos + 1, e, radix);
                                }
                                return Err(LexError::NumberOutOfRange);
                            },
                            Some(n) => {
                                self.advance();
                                v = n;
                            },
                        },
                    }
                },
            }
        }
    }

    /// Consumes the run of `radix` digits after a point. Gives the value of
    /// the longest leading part that fits in 64 signed bits, and how many
    /// digits that part has.
    fn scan_fraction_digits(&mut self, radix: u32) -> (r: (i64, u64))
        requires
            old(self)@.wf(),
            valid_radix(radix),
        ensures
            same_source(old(self)@, final(self)@),
            ({
                let s = old(self)@.input;
                let p = old(self)@.pos;
                let e = digits_end(s, p, radix);
                let f = fit_end(s, p, e, radix);
                &&& final(self)@.pos == e
                &&& r.0 == digits_value(s, p, f, radix)
                &&& r.1 == f - p
            }),
    {
        let ghost s = self@.input;
        let ghost p = self@.pos;
        let n = self.input.len();
        proof {
            lemma_digits_end(s, p, radix);
        }
        let ghost e = digits_end(s, p, radix);
        let mut v: i64 = 0;
        let mut kept: u64 = 0;
        let mut full = false;
        loop
            invariant
                same_source(old(self)@, self@),
                s == self@.input,
                s == old(self)@.input,
                p == old(self)@.pos,
                n == s.len(),
                n <= usize::MAX,
                p <= self@.pos <= e,
                e == digits_end(s, p, radix),
                e <= s.len(),
                forall|j: int| p <= j < e ==> is_digit(#[trigger] s[j], radix),
                e < s.len() ==> !is_digit(s[e], radix),
                valid_radix(radix),
                p + kept <= self@.pos,
                v == digits_value(s, p, p + kept, radix),
                !full ==> p + kept == self@.pos,
                full ==> p + kept < self@.pos && digits_value(s, p, p + kept + 1, radix) > i64::MAX,
            decreases e - self@.pos,
        {
            let c = self.peek_byte();
            match to_digit(c, radix) {
                None => {
                    assert(self@.pos == e);
                    proof {
                        if full {
                            lemma_fit_end(s, p, p + kept, e, radix);
                        }
                    }
                    return (v, kept);
                },
                Some(d) => {
                    assert(self@.pos < e);
                    if !full {
                        proof {
                            lemma_digits_value_grows(s, p, self@.pos, e, radix);
                        }
                        assert(digits_value(s, p, self@.pos + 1, radix) == v * radix + d);
                        match v.checked_mul(radix as i64) {
                            None => {
                                full = true;
                            },
                            Some(m) => match m.checked_add(d as i64) {
                                None => {
                                    full = true;
                                },
                                Some(x) => {
                                    v = x;
                                    kept = kept + 1;
                                },
                            },
                        }
                    }
                    self.advance();
                },
            }
        }
    }

    /// The number `t` just read, unless a letter or a point follows it.
    fn end_number(&self, t: Token) -> (r: Result<Token, LexError>)
        requires
            self@.wf(),
        ensures
            scanned(r, ends_number(self@.input, self@.pos, t@), self@),
    {
        let c = self.peek_byte();
        if is_alpha_byte(c) || c == '.' as u8 {
            Err(LexError::MalformedNumber)
        } else {
            Ok(t)
        }
    }

    /// A decimal exponent (the `e` is consumed) applied to `lit`.
    fn lex_number_exponent(&mut self, lit: FloatLit) -> (r: Result<Token, LexError>)
        requires
            old(self)@.wf(),
        ensures
            same_source(old(self)@, final(self)@),
            scanned(r, exponent(old(self)@.input, old(self)@.pos, lit), final(self)@),
    {
        let c = self.peek_byte();
        if c != '+' as u8 && c != '-' as u8 && !is_dec_byte(c) {
            return Err(LexError::MalformedNumber);
        }
        if !is_dec_byte(c) {
            self.advance();
        }
        let v = match self.scan_digits(10) {
            Ok(v) => v,
            Err(e) => return Err(e),
        };

        let x: i64 = if c == '-' as u8 { -v } else { v };
        let r = FloatLit { int_part: lit.int_part, frac_part: lit.frac_part, frac_digits: lit.frac_digits, radix: lit.radix, exp: x };
        self.end_number(Token::Float(r))
    }

    /// The digits after a point (the point is consumed) of a number whose
    /// integer part is `int_part`.
    fn lex_number_fraction(&mut self, int_part: i64, radix: u32) -> (r: Result<Token, LexError>)
        requires
            old(self)@.wf(),
            valid_radix(radix),
        ensures
            same_source(old(self)@, final(self)@),
            scanned(r, fraction(old(self)@.input, old(self)@.pos, int_part, radix), final(self)@),
    {
        let (v, kept) = self.scan_fraction_digits(radix);
        let lit = FloatLit { int_part, frac_part: v, frac_digits: kept, radix, exp: 0 };
        let c = self.peek_byte();
        if radix == 10 && (c == 'e' as u8 || c == 'E' as u8) {
            self.advance();
            self.lex_number_exponent(lit)
        } else {
            self.end_number(Token::Float(lit))
        }
    }

    /// A number written with `radix` digits from the position.
    fn lex_number_in_radix(&mut self, radix: u32) -> (r: Result<Token, LexError>)
        requires
            old(self)@.wf(),
            valid_radix(radix),
        ensures
            same_source(old(self)@, final(self)@),
            scanned(r, number_in_radix(old(self)@.input, old(self)@.pos, radix), final(self)@),
    {
        let v = match self.scan_digits(radix) {
            Ok(v) => v,
            Err(e) => return Err(e),
        };
        let c = self.peek_byte();
        if c == '.' as u8 {
            self.advance();
            self.lex_number_fraction(v, radix)
        } else if radix == 10 && (c == 'e' as u8 || c == 'E' as u8) {
            self.advance();
            self.lex_number_exponent(FloatLit { int_part: v, frac_part: 0, frac_digits: 0, radix, exp: 0 })
        } else if is_alpha_byte(c) {
            Err(LexError::MalformedNumber)
        } else {
            Ok(Token::Integer(v))
        }
    }

    /// A number starting with the decimal digit at the position.
    fn lex_number(&mut self) -> (r: Result<Token, LexError>)
        requires
            old(self)@.wf(),
            old(self)@.pos < old(self)@.input.len(),
            is_dec_digit(old(self)@.input[old(self)@.pos]),
        ensures
            same_source(old(self)@, final(self)@),
            scanned(r, number(old(self)@.input, old(self)@.pos), final(self)@),
    {
        let first = self.peek_byte();
        let second = self.byte_ahead(1);
        if first == '0' as u8 {
            let radix: u32 = if second == 'x' as u8 || second == 'X' as u8 {
                16
            } else if second == 'b' as u8 || second == 'B' as u8 {
                2
            } else if second == 'o' as u8 || second == 'O' as u8 {
                8
            } else {
                10
            };
            if radix != 10 {
                self.advance();
                self.advance();
                return self.lex_number_in_radix(radix);
            }
        }
        self.lex_number_in_radix(10)
    }

    /// A name or keyword starting at the position.
    fn lex_name(&mut self) -> (r: Result<Token, LexError>)
        requires
            old(self)@.wf(),
            old(self)@.pos < old(self)@.input.len(),
        ensures
            same_source(old(self)@, final(self)@),
            scanned(r, name(old(self)@.input, old(self)@.pos), final(self)@),
    {
        let ghost s = self@.input;
        let ghost p = self@.pos;
        let mut w: Vec<u8> = Vec::new();
        w.push(self.input[self.pos]);
        self.advance();
        proof {
            lemma_name_end(s, p + 1);
        }
        while is_name_byte(self.peek_byte())
            invariant
                same_source(old(self)@, self@),
                s == old(self)@.input,
                p == old(self)@.pos,
                p < self@.pos <= name_end(s, p + 1),
                name_end(s, self@.pos) == name_end(s, p + 1),
                name_end(s, p + 1) <= s.len(),
                w@ == s.subrange(p, self@.pos),
            decreases s.len() - self@.pos,
        {
            let c = self.peek_byte();
            proof {
                lemma_name_end(s, self@.pos + 1);
            }
            w.push(c);
            self.advance();
            assert(w@ =~= s.subrange(p, self@.pos));
        }
        match keyword_of(w.as_slice()) {
            Some(k) => Ok(Token::Keyword(k)),
            None => Ok(Token::Name(w)),
        }
    }

    /// The escape after a backslash (the backslash is consumed).
    fn lex_string_escape(&mut self) -> (r: Result<u8, LexError>)
        requires
            old(self)@.wf(),
        ensures
            same_source(old(self)@, final(self)@),
            match escape(old(self)@.input, old(self)@.pos) {
                Ok((b, q)) => r == Ok::<u8, LexError>(b) && final(self)@.pos == q,
                Err(e) => r == Err::<u8, LexError>(e),
            },
    {
        let ghost s = self@.input;
        let ghost p = self@.pos;
        let c = match self.next_byte() {
            Some(c) => c,
            None => return Err(LexError::UnfinishedString),
        };
        if c == 'a' as u8 {
            Ok(7)
        } else if c == 'b' as u8 {
            Ok(8)
        } else if c == 'f' as u8 {
            Ok(12)
        } else if c == 'v' as u8 {
            Ok(11)
        } else if c == 'n' as u8 {
            Ok(10)
        } else if c == 'r' as u8 {
            Ok(13)
        } else if c == 't' as u8 {
            Ok(9)
        } else if c == '\\' as u8 || c == '"' as u8 || c == '\'' as u8 {
            Ok(c)
        } else if c == 'x' as u8 {
            let hi = to_digit(self.byte_ahead(0), 16);
            let lo = to_digit(self.byte_ahead(1), 16);
            match (hi, lo) {
                (Some(h), Some(l)) => {
                    self.advance();
                    self.advance();
                    Ok((h * 16 + l) as u8)
                },
                _ => Err(LexError::InvalidEscape),
            }
        } else if is_dec_byte(c) {
            let mut v: u32 = (c - '0' as u8) as u32;
            assert(digits_value(s, p, p + 1, 10) == v) by {
                assert(digits_value(s, p, p, 10) == 0);
            }
            if is_dec_byte(self.peek_byte()) {
                v = v * 10 + (self.peek_byte() - '0' as u8) as u32;
                self.advance();
                assert(digits_value(s, p, p + 2, 10) == v);
                if is_dec_byte(self.peek_byte()) {
                    v = v * 10 + (self.peek_byte() - '0' as u8) as u32;
                    self.advance();
                    assert(digits_value(s, p, p + 3, 10) == v);
                }
            }
            if v > 255 {
                Err(LexError::EscapeTooLarge)
            } else {
                Ok(v as u8)
            }
        } else {
            Err(LexError::InvalidEscape)
        }
    }

    /// A string literal closed by `quote` (the opening quote is consumed).
    fn lex_string(&mut self, quote: u8) -> (r: Result<Token, LexError>)
        requires
            old(self)@.wf(),
        ensures
            same_source(old(self)@, final(self)@),
            scanned(r, string_rest(old(self)@.input, old(self)@.pos, quote, Seq::empty()), final(self)@),
    {
        let ghost s = self@.input;
        let ghost p = self@.pos;
        let mut acc: Vec<u8> = Vec::new();
        loop
            invariant
                same_source(old(self)@, self@),
                s == old(self)@.input,
                string_rest(s, self@.pos, quote, acc@) == string_rest(s, p, quote, Seq::empty()),
                p == old(self)@.pos,
            decreases s.len() - self@.pos,
        {
            let c = match self.next_byte() {
                Some(c) => c,
                None => return Err(LexError::UnfinishedString),
            };
            if c == quote {
                return Ok(Token::String(acc));
            } else if c == '\n' as u8 {
                return Err(LexError::UnfinishedString);
            } else if c == '\\' as u8 {
                match self.lex_string_escape() {
                    Ok(b) => acc.push(b),
                    Err(e) => return Err(e),
                }
            } else {
                acc.push(c);
            }
        }
    }

    /// The symbol at the position whose meaning depends on the byte after
    /// it: the first case whose byte follows, else `failed`.
    fn check_ahead(&mut self, cases: &[(u8, Symbol)], failed: Symbol) -> (r: Token)
        requires
            old(self)@.wf(),
            old(self)@.pos < old(self)@.input.len(),
            forall|i: int| 0 <= i < cases@.len() ==> (#[trigger] cases@[i]).0 != 0,
        ensures
            same_source(old(self)@, final(self)@),
            scanned(Ok(r), follow(old(self)@.input, old(self)@.pos, cases@, failed), final(self)@),
    {
        let ghost s = self@.input;
        let ghost p = self@.pos;
        let next = self.byte_ahead(1);
        let mut i: usize = 0;
        assert(cases@.subrange(0, cases@.len() as int) =~= cases@);
        while i < cases.len()
            invariant
                forall|i: int| 0 <= i < cases@.len() ==> (#[trigger] cases@[i]).0 != 0,
                self@ == old(self)@,
                s == old(self)@.input,
                p == old(self)@.pos,
                p < s.len(),
                next == byte_at(s, p + 1),
                i <= cases@.len(),
                follow(s, p, cases@.subrange(i as int, cases@.len() as int), failed) == follow(s, p, cases@, failed),
            decreases cases@.len() - i,
        {
            let ghost rest = cases@.subrange(i as int, cases@.len() as int);
            assert(rest.drop_first() =~= cases@.subrange(i + 1, cases@.len() as int));
            let (b, sym) = cases[i];
            assert(rest[0] == cases@[i as int]);
            if next == b {
                self.advance();
                self.advance();
                return Token::Symbol(sym);
            }
            i = i + 1;
        }
        self.advance();
        Token::Symbol(failed)
    }

    /// The token that starts at the position, which holds neither space nor
    /// comment.
    fn lex_token(&mut self) -> (r: Result<Token, LexError>)
        requires
            old(self)@.wf(),
            old(self)@.pos < old(self)@.input.len(),
        ensures
            same_source(old(self)@, final(self)@),
            scanned(r, token_at(old(self)@.input, old(self)@.pos), final(self)@),
    {
        let c = self.peek_byte();
        if let Some(sym) = single_symbol_of(c) {
            self.advance();
            return Ok(Token::Symbol(sym));
        }
        if c == '/' as u8 {
            let cases = [('/' as u8, Symbol::Idiv)];
            assert(cases@ =~= seq![('/' as u8, Symbol::Idiv)]);
            Ok(self.check_ahead(&cases, Symbol::Div))
        } else if c == '=' as u8 {
            let cases = [('=' as u8, Symbol::Equal)];
            assert(cases@ =~= seq![('=' as u8, Symbol::Equal)]);
            Ok(self.check_ahead(&cases, Symbol::Assign))
        } else if c == '~' as u8 {
            let cases = [('=' as u8, Symbol::NotEq)];
            assert(cases@ =~= seq![('=' as u8, Symbol::NotEq)]);
            Ok(self.check_ahead(&cases, Symbol::BitXor))
        } else if c == ':' as u8 {
            let cases = [(':' as u8, Symbol::DoubColon)];
            assert(cases@ =~= seq![(':' as u8, Symbol::DoubColon)]);
            Ok(self.check_ahead(&cases, Symbol::Colon))
        } else if c == '<' as u8 {
            let cases = [('=' as u8, Symbol::LesEq), ('<' as u8, Symbol::ShiftL)];
            assert(cases@ =~= seq![('=' as u8, Symbol::LesEq), ('<' as u8, Symbol::ShiftL)]);
            Ok(self.check_ahead(&cases, Symbol::Less))
        } else if c == '>' as u8 {
            let cases = [('=' as u8, Symbol::GreEq), ('>' as u8, Symbol::ShiftR)];
            assert(cases@ =~= seq![('=' as u8, Symbol::GreEq), ('>' as u8, Symbol::ShiftR)]);
            Ok(self.check_ahead(&cases, Symbol::Greater))
        } else if c == '\'' as u8 || c == '"' as u8 {
            self.advance();
            self.lex_string(c)
        } else if c == '.' as u8 {
            let next = self.byte_ahead(1);
            if next == '.' as u8 {
                self.advance();
                let cases = [('.' as u8, Symbol::Dots)];
                assert(cases@ =~= seq![('.' as u8, Symbol::Dots)]);
                Ok(self.check_ahead(&cases, Symbol::Concat))
            } else if is_dec_byte(next) {
                self.advance();
                self.lex_number_fraction(0, 10)
            } else {
                self.advance();
                Ok(Token::Symbol(Symbol::Dot))
            }
        } else if is_dec_byte(c) {
            self.lex_number()
        } else if is_alpha_byte(c) || c == '_' as u8 {
            self.lex_name()
        } else {
            Err(LexError::UnexpectedChar(c))
        }
    }

    /// Consumes the rest of a line comment, through its newline.
    fn lex_comment(&mut self)
        requires
            old(self)@.wf(),
        ensures
            same_source(old(self)@, final(self)@),
            skip(final(self)@.input, final(self)@.pos) == skip_line(old(self)@.input, old(self)@.pos),
            final(self)@.pos >= old(self)@.pos,
    {
        loop
            invariant
                same_source(old(self)@, self@),
                self@.pos >= old(self)@.pos,
                skip_line(self@.input, self@.pos) == skip_line(old(self)@.input, old(self)@.pos),
            decreases self@.input.len() - self@.pos,
        {
            match self.next_byte() {
                None => return,
                Some(c) => {
                    if c == '\n' as u8 {
                        return;
                    }
                },
            }
        }
    }

    /// Scans a fresh token, ignoring the lookahead slot.
    fn do_next(&mut self) -> (r: Result<Token, LexError>)
        requires
            old(self)@.wf(),
        ensures
            same_source(old(self)@, final(self)@),
            scanned(r, scan(old(self)@.input, old(self)@.pos), final(self)@),
    {
        reveal(scan);
        loop
            invariant
                same_source(old(self)@, self@),
                skip(self@.input, self@.pos) == skip(old(self)@.input, old(self)@.pos),
            decreases self@.input.len() - self@.pos,
        {
            proof {
                reveal(scan);
            }
            if self.pos >= self.input.len() {
                return Ok(Token::Eos);
            }
            let c = self.peek_byte();
            if is_space_byte(c) {
                self.advance();
            } else if c == '-' as u8 && self.byte_ahead(1) == '-' as u8 {
                if self.byte_ahead(2) == '[' as u8 {
                    return Err(LexError::LongComment);
                }
                self.advance();
                self.advance();
                self.lex_comment();
            } else {
                return self.lex_token();
            }
        }
    }

    /// Takes the next token: the one held back by `peek`, if any, else a
    /// fresh one.
    pub fn next(&mut self) -> (r: Result<Token, LexError>)
        requires
            old(self)@.wf(),
        ensures
            final(self)@.wf(),
            final(self)@.input == old(self)@.input,
            match lex_next(old(self)@) {
                Ok((t, l)) => match r {
                    Ok(tok) => tok@ == t && final(self)@ == l,
                    Err(_) => false,
                },
                Err(e) => r == Err::<Token, LexError>(e),
            },
    {
        if let Token::Eos = self.ahead {
            self.do_next()
        } else {
            let mut t = Token::Eos;
            core::mem::swap(&mut t, &mut self.ahead);
            Ok(t)
        }
    }

    /// Takes the next token, which must be `t`: any other is an error,
    /// `Expected` when `t` is a symbol.
    pub fn expect(&mut self, t: &Token) -> (r: Result<(), ParseError>)
        requires
            old(self)@.wf(),
        ensures
            final(self)@.wf(),
            final(self)@.input == old(self)@.input,
            match lex_next(old(self)@) {
                Ok((got, l)) => if got == t@ {
                    r is Ok && final(self)@ == l
                } else {
                    r == Err::<(), ParseError>(
                        if let Token::Symbol(s) = t { ParseError::Expected(*s) } else { ParseError::UnexpectedToken },
                    )
                },
                Err(e) => r == Err::<(), ParseError>(ParseError::Lex(e)),
            },
    {
        match self.next() {
            Ok(got) => if got == *t {
                Ok(())
            } else if let Token::Symbol(s) = t {
                Err(ParseError::Expected(*s))
            } else {
                Err(ParseError::UnexpectedToken)
            },
            Err(e) => Err(ParseError::Lex(e)),
        }
    }

    /// The next token, left in place for the following `next`.
    pub fn peek(&mut self) -> (r: Result<Token, LexError>)
        requires
            old(self)@.wf(),
        ensures
            final(self)@.wf(),
            final(self)@.input == old(self)@.input,
            match lex_peek(old(self)@) {
                Ok((t, l)) => match r {
                    Ok(tok) => tok@ == t && final(self)@ == l,
                    Err(_) => false,
                },
                Err(e) => r == Err::<Token, LexError>(e),
            },
    {
        if let Token::Eos = self.ahead {
            match self.do_next() {
                Ok(t) => {
                    self.ahead = t;
                },
                Err(e) => return Err(e),
            }
        }
        Ok(self.ahead.clone())
    }
}

/// Scanning again where `Eos` was found finds `Eos` there again.
proof fn lemma_scan_end(s: Seq<u8>, p: int)
    requires
        0 <= p <= s.len(),
    ensures
        scan(s, p) matches Ok((t, e)) ==> (t is Eos ==> scan(s, e) == scan(s, p)),
{
    reveal(scan);
    lemma_skip(s, p);
    if let Ok(q) = skip(s, p) {
        if q < s.len() {
            lemma_token_at(s, q);
        }
    }
}

/// `peek` and then `next` give the same token, and leave the lexer where
/// a lone `next` would.
pub proof fn law_peek_then_next(l: LexView)
    requires
        l.wf(),
    ensures
        lex_peek(l) matches Ok((t, l1)) ==> (lex_next(l1) == lex_next(l) && lex_next(l) is Ok && lex_next(l)->Ok_0.0 == t),
        lex_peek(l) is Err <==> lex_next(l) is Err,
{
    lemma_scan_end(l.input, l.pos);
}

impl TokenIterator for Lex {
    type Output = Result<Token, LexError>;

    /// The next token, as `Lex::next` gives it.
    fn next(&mut self) -> (r: Result<Token, LexError>)
        ensures
            old(self)@.wf() ==> match lex_next(old(self)@) {
                Ok((t, l)) => match r {
                    Ok(tok) => tok@ == t && final(self)@ == l,
                    Err(_) => false,
                },
                Err(e) => r == Err::<Token, LexError>(e),
            },
    {
        // A lexer never stands past the end of its source.
        if self.pos <= self.input.len() {
            Lex::next(self)
        } else {
            Ok(Token::Eos)
        }
    }
}

} // verus!
