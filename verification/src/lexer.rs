//! Tokens and the lexer that cuts source bytes into them.
use vstd::prelude::*;
use crate::ast::Span;
use crate::text::{push_char, str_equals};
use vstd::string::StringSliceAdditionalSpecFns;

verus! {

/// Kinds of tokens.
#[derive(Debug, PartialEq)]
pub enum TokKind {
    /// End of input, or a byte that starts no token.
    Eof,
    /// An error token.
    Error(String),
    LParen,
    RParen,
    LBrace,
    RBrace,
    Comma,
    Colon,
    ColonColon,
    Semicolon,
    /// `->`
    Arrow,
    /// `=>`
    FatArrow,
    Eq,
    Plus,
    Minus,
    Star,
    Slash,
    EqEq,
    BangEq,
    Lt,
    Le,
    Gt,
    Ge,
    AndAnd,
    OrOr,
    Bang,
    Ampersand,
    Ident(String),
    KwLet,
    KwFn,
    KwTrue,
    KwFalse,
    KwNil,
    KwIf,
    KwElse,
    KwWhile,
    KwReturn,
    KwMut,
    KwMatch,
    KwEnum,
    KwStruct,
    KwExtern,
    /// Integer literal.
    Int(i64),
    /// Floating-point literal, kept as its text.
    Float(String),
    /// String literal, with its escapes resolved.
    Str(String),
}

/// A token and where it stands in the source.
#[derive(Debug)]
pub struct Tok {
    pub kind: TokKind,
    pub span: Span,
}

/// What a token kind stands for: the same, with texts as character sequences
/// and integers as natural numbers.
pub enum TokKindM {
    Eof,
    Error(Seq<char>),
    LParen,
    RParen,
    LBrace,
    RBrace,
    Comma,
    Colon,
    ColonColon,
    Semicolon,
    Arrow,
    FatArrow,
    Eq,
    Plus,
    Minus,
    Star,
    Slash,
    EqEq,
    BangEq,
    Lt,
    Le,
    Gt,
    Ge,
    AndAnd,
    OrOr,
    Bang,
    Ampersand,
    Ident(Seq<char>),
    KwLet,
    KwFn,
    KwTrue,
    KwFalse,
    KwNil,
    KwIf,
    KwElse,
    KwWhile,
    KwReturn,
    KwMut,
    KwMatch,
    KwEnum,
    KwStruct,
    KwExtern,
    Int(int),
    Float(Seq<char>),
    Str(Seq<char>),
}

impl View for TokKind {
    type V = TokKindM;

    open spec fn view(&self) -> TokKindM {
        match self {
            TokKind::Eof => TokKindM::Eof,
            TokKind::Error(s) => TokKindM::Error(s@),
            TokKind::LParen => TokKindM::LParen,
            TokKind::RParen => TokKindM::RParen,
            TokKind::LBrace => TokKindM::LBrace,
            TokKind::RBrace => TokKindM::RBrace,
            TokKind::Comma => TokKindM::Comma,
            TokKind::Colon => TokKindM::Colon,
            TokKind::ColonColon => TokKindM::ColonColon,
            TokKind::Semicolon => TokKindM::Semicolon,
            TokKind::Arrow => TokKindM::Arrow,
            TokKind::FatArrow => TokKindM::FatArrow,
            TokKind::Eq => TokKindM::Eq,
            TokKind::Plus => TokKindM::Plus,
            TokKind::Minus => TokKindM::Minus,
            TokKind::Star => TokKindM::Star,
            TokKind::Slash => TokKindM::Slash,
            TokKind::EqEq => TokKindM::EqEq,
            TokKind::BangEq => TokKindM::BangEq,
            TokKind::Lt => TokKindM::Lt,
            TokKind::Le => TokKindM::Le,
            TokKind::Gt => TokKindM::Gt,
            TokKind::Ge => TokKindM::Ge,
            TokKind::AndAnd => TokKindM::AndAnd,
            TokKind::OrOr => TokKindM::OrOr,
            TokKind::Bang => TokKindM::Bang,
            TokKind::Ampersand => TokKindM::Ampersand,
            TokKind::Ident(s) => TokKindM::Ident(s@),
            TokKind::KwLet => TokKindM::KwLet,
            TokKind::KwFn => TokKindM::KwFn,
            TokKind::KwTrue => TokKindM::KwTrue,
            TokKind::KwFalse => TokKindM::KwFalse,
            TokKind::KwNil => TokKindM::KwNil,
            TokKind::KwIf => TokKindM::KwIf,
            TokKind::KwElse => TokKindM::KwElse,
            TokKind::KwWhile => TokKindM::KwWhile,
            TokKind::KwReturn => TokKindM::KwReturn,
            TokKind::KwMut => TokKindM::KwMut,
            TokKind::KwMatch => TokKindM::KwMatch,
            TokKind::KwEnum => TokKindM::KwEnum,
            TokKind::KwStruct => TokKindM::KwStruct,
            TokKind::KwExtern => TokKindM::KwExtern,
            TokKind::Int(n) => TokKindM::Int(*n as int),
            TokKind::Float(s) => TokKindM::Float(s@),
            TokKind::Str(s) => TokKindM::Str(s@),
        }
    }
}

// ---------------------------------------------------------------------------
// The lexical grammar
// ---------------------------------------------------------------------------

/// Whitespace bytes, read as Latin-1 characters.
pub open spec fn is_ws(b: u8) -> bool {
    (9 <= b && b <= 13) || b == 32 || b == 0x85 || b == 0xA0
}

/// ASCII digits.
pub open spec fn is_digit(b: u8) -> bool {
    48 <= b && b <= 57
}

/// ASCII letters.
pub open spec fn is_alpha(b: u8) -> bool {
    (65 <= b && b <= 90) || (97 <= b && b <= 122)
}

/// Bytes that may continue an identifier.
pub open spec fn is_ident_char(b: u8) -> bool {
    is_alpha(b) || is_digit(b) || b == 95
}

/// The position of the end of the line that position `p` is on.
pub open spec fn line_end(src: Seq<u8>, p: nat) -> nat
    decreases src.len() - p,
{
    if p >= src.len() || src[p as int] == 10 {
        p
    } else {
        line_end(src, p + 1)
    }
}

pub proof fn lemma_line_end(src: Seq<u8>, p: nat)
    ensures
        p <= line_end(src, p),
        p <= src.len() ==> line_end(src, p) <= src.len(),
    decreases src.len() - p,
{
    if !(p >= src.len() || src[p as int] == 10) {
        lemma_line_end(src, p + 1);
    }
}

/// The position after the whitespace and line comments that start at `p`.
pub open spec fn skip_trivia(src: Seq<u8>, p: nat) -> nat
    decreases src.len() - p,
{
    if p < src.len() && is_ws(src[p as int]) {
        skip_trivia(src, p + 1)
    } else if p + 1 < src.len() && src[p as int] == 47 && src[p as int + 1] == 47 {
        proof {
            lemma_line_end(src, p + 2);
        }
        skip_trivia(src, line_end(src, p + 2))
    } else {
        p
    }
}

/// The end of the run of bytes from `p` that continue an identifier.
pub open spec fn ident_end(src: Seq<u8>, p: nat) -> nat
    decreases src.len() - p,
{
    if p < src.len() && is_ident_char(src[p as int]) {
        ident_end(src, p + 1)
    } else {
        p
    }
}

/// The end of a number from `p`: digits and at most one dot; and whether a
/// dot was met.
pub open spec fn number_end(src: Seq<u8>, p: nat, dot: bool) -> (nat, bool)
    decreases src.len() - p,
{
    if p < src.len() && is_digit(src[p as int]) {
        number_end(src, p + 1, dot)
    } else if p < src.len() && src[p as int] == 46 && !dot {
        number_end(src, p + 1, true)
    } else {
        (p, dot)
    }
}

/// Bytes read as Latin-1 characters.
pub open spec fn latin1(bs: Seq<u8>) -> Seq<char> {
    bs.map_values(|b: u8| b as char)
}

/// The value of a sequence of decimal digits.
pub open spec fn digits_value(bs: Seq<u8>) -> int
    decreases bs.len(),
{
    if bs.len() == 0 {
        0
    } else {
        digits_value(bs.drop_last()) * 10 + (bs.last() - 48)
    }
}

/// The character an escape sequence `\c` stands for.
pub open spec fn escaped(c: u8) -> char {
    if c == 110 {
        '\n'
    } else if c == 116 {
        '\t'
    } else if c == 34 {
        '"'
    } else if c == 92 {
        '\\'
    } else {
        c as char
    }
}

/// The contents of a string literal from `p` (after its opening quote), with
/// the characters read so far in `acc`; and the position after it.
pub open spec fn lex_string(src: Seq<u8>, p: nat, acc: Seq<char>) -> (Seq<char>, nat)
    decreases src.len() - p,
{
    if p >= src.len() {
        (acc, p)
    } else if src[p as int] == 34 {
        (acc, p + 1)
    } else if src[p as int] == 92 {
        if p + 1 >= src.len() {
            (acc, p + 1)
        } else {
            lex_string(src, p + 2, acc.push(escaped(src[p as int + 1])))
        }
    } else {
        lex_string(src, p + 1, acc.push(src[p as int] as char))
    }
}

/// The token a word stands for: a keyword, or else an identifier.
pub open spec fn keyword(w: Seq<char>) -> TokKindM {
    if w == "let"@ {
        TokKindM::KwLet
    } else if w == "fn"@ {
        TokKindM::KwFn
    } else if w == "true"@ {
        TokKindM::KwTrue
    } else if w == "false"@ {
        TokKindM::KwFalse
    } else if w == "nil"@ {
        TokKindM::KwNil
    } else if w == "if"@ {
        TokKindM::KwIf
    } else if w == "else"@ {
        TokKindM::KwElse
    } else if w == "while"@ {
        TokKindM::KwWhile
    } else if w == "return"@ {
        TokKindM::KwReturn
    } else if w == "mut"@ {
        TokKindM::KwMut
    } else if w == "match"@ {
        TokKindM::KwMatch
    } else if w == "enum"@ {
        TokKindM::KwEnum
    } else if w == "struct"@ {
        TokKindM::KwStruct
    } else if w == "extern"@ {
        TokKindM::KwExtern
    } else {
        TokKindM::Ident(w)
    }
}

/// The token of a single punctuation byte, if it is one.
pub open spec fn single_punct(b: u8) -> Option<TokKindM> {
    if b == 40 {
        Some(TokKindM::LParen)
    } else if b == 41 {
        Some(TokKindM::RParen)
    } else if b == 123 {
        Some(TokKindM::LBrace)
    } else if b == 125 {
        Some(TokKindM::RBrace)
    } else if b == 44 {
        Some(TokKindM::Comma)
    } else if b == 58 {
        Some(TokKindM::Colon)
    } else if b == 59 {
        Some(TokKindM::Semicolon)
    } else if b == 43 {
        Some(TokKindM::Plus)
    } else if b == 45 {
        Some(TokKindM::Minus)
    } else if b == 42 {
        Some(TokKindM::Star)
    } else if b == 47 {
        Some(TokKindM::Slash)
    } else if b == 61 {
        Some(TokKindM::Eq)
    } else if b == 60 {
        Some(TokKindM::Lt)
    } else if b == 62 {
        Some(TokKindM::Gt)
    } else if b == 33 {
        Some(TokKindM::Bang)
    } else if b == 38 {
        Some(TokKindM::Ampersand)
    } else {
        None
    }
}

/// The token of a pair of bytes, if it is one.
pub open spec fn double_punct(b: u8, n: u8) -> Option<TokKindM> {
    if b == 38 && n == 38 {
        Some(TokKindM::AndAnd)
    } else if b == 124 && n == 124 {
        Some(TokKindM::OrOr)
    } else if b == 61 && n == 61 {
        Some(TokKindM::EqEq)
    } else if b == 33 && n == 61 {
        Some(TokKindM::BangEq)
    } else if b == 60 && n == 61 {
        Some(TokKindM::Le)
    } else if b == 62 && n == 61 {
        Some(TokKindM::Ge)
    } else if b == 45 && n == 62 {
        Some(TokKindM::Arrow)
    } else if b == 58 && n == 58 {
        Some(TokKindM::ColonColon)
    } else if b == 61 && n == 62 {
        Some(TokKindM::FatArrow)
    } else {
        None
    }
}

/// The span from `s` to `e`, as the lexer records it.
pub open spec fn span_of(s: nat, e: nat) -> Span {
    Span { start: s as u32, end: e as u32 }
}

/// The next token from position `p`: its kind, its span, and the position
/// after it.
///
/// Whitespace and `//` comments are skipped first. Two-byte operators are
/// tried before one-byte ones; a string runs to its closing quote with `\n`,
/// `\t`, `\"` and `\\` resolved; a number is digits with at most one dot, a
/// float if it has one, and an error token when it is an integer too large for
/// an `i64`; a word is a keyword or an identifier. Any other byte gives an
/// end-of-input token over that byte.
pub open spec fn lex_next(src: Seq<u8>, p: nat) -> (TokKindM, Span, nat) {
    let s = skip_trivia(src, p);
    if s >= src.len() {
        (TokKindM::Eof, span_of(s, s), s)
    } else {
        let b = src[s as int];
        if s + 1 < src.len() && double_punct(b, src[s as int + 1]) is Some {
            (double_punct(b, src[s as int + 1])->Some_0, span_of(s, s + 2), s + 2)
        } else if single_punct(b) is Some {
            (single_punct(b)->Some_0, span_of(s, s + 1), s + 1)
        } else if b == 34 {
            let (text, e) = lex_string(src, s + 1, Seq::empty());
            (TokKindM::Str(text), span_of(s, e), e)
        } else if is_digit(b) {
            let (e, dot) = number_end(src, s + 1, false);
            if dot {
                (TokKindM::Float(latin1(src.subrange(s as int, e as int))), span_of(s, e), e)
            } else if digits_value(src.subrange(s as int, e as int)) <= i64::MAX {
                (TokKindM::Int(digits_value(src.subrange(s as int, e as int))), span_of(s, e), e)
            } else {
                (TokKindM::Error(int_range_message()), span_of(s, e), e)
            }
        } else if is_alpha(b) || b == 95 {
            let e = ident_end(src, s + 1);
            (keyword(latin1(src.subrange(s as int, e as int))), span_of(s, e), e)
        } else {
            (TokKindM::Eof, span_of(s, s + 1), s + 1)
        }
    }
}

/// The message of the error token for an integer literal too large for an `i64`.
pub open spec fn int_range_message() -> Seq<char> {
    "integer literal out of range"@
}

// ---------------------------------------------------------------------------
// Lemmas
// ---------------------------------------------------------------------------

/// Skipping trivia never moves back.
pub proof fn lemma_skip_trivia(src: Seq<u8>, p: nat)
    ensures
        p <= skip_trivia(src, p),
    decreases src.len() - p,
{
    if p < src.len() && is_ws(src[p as int]) {
        lemma_skip_trivia(src, p + 1);
    } else if p + 1 < src.len() && src[p as int] == 47 && src[p as int + 1] == 47 {
        lemma_line_end(src, p + 2);
        lemma_skip_trivia(src, line_end(src, p + 2));
    }
}

/// A string literal ends after where its contents start.
proof fn lemma_lex_string_end(src: Seq<u8>, p: nat, acc: Seq<char>)
    ensures
        p <= lex_string(src, p, acc).1,
    decreases src.len() - p,
{
    if p < src.len() && src[p as int] != 34 {
        if src[p as int] == 92 {
            if p + 1 < src.len() {
                lemma_lex_string_end(src, p + 2, acc.push(escaped(src[p as int + 1])));
            }
        } else {
            lemma_lex_string_end(src, p + 1, acc.push(src[p as int] as char));
        }
    }
}

/// The text read from a string literal begins with what was read before.
proof fn lemma_lex_string_prefix(src: Seq<u8>, p: nat, acc: Seq<char>)
    ensures
        acc.len() <= lex_string(src, p, acc).0.len(),
        lex_string(src, p, acc).0.subrange(0, acc.len() as int) == acc,
    decreases src.len() - p,
{
    if p < src.len() && src[p as int] != 34 {
        if src[p as int] == 92 {
            if p + 1 < src.len() {
                let acc2 = acc.push(escaped(src[p as int + 1]));
                lemma_lex_string_prefix(src, p + 2, acc2);
                assert(acc2.subrange(0, acc.len() as int) =~= acc);
                assert(lex_string(src, p, acc).0.subrange(0, acc.len() as int) =~= lex_string(src, p, acc).0.subrange(
                    0,
                    acc2.len() as int,
                ).subrange(0, acc.len() as int));
            } else {
                assert(acc.subrange(0, acc.len() as int) =~= acc);
            }
        } else {
            let acc2 = acc.push(src[p as int] as char);
            lemma_lex_string_prefix(src, p + 1, acc2);
            assert(acc2.subrange(0, acc.len() as int) =~= acc);
            assert(lex_string(src, p, acc).0.subrange(0, acc.len() as int) =~= lex_string(src, p, acc).0.subrange(
                0,
                acc2.len() as int,
            ).subrange(0, acc.len() as int));
        }
    } else {
        assert(acc.subrange(0, acc.len() as int) =~= acc);
    }
}

/// Inside a string literal, a backslash and the byte after it stand for one
/// character: `\n` for a line feed, `\t` for a tab, `\"` for a quote,
/// `\\` for a backslash, and a backslash before any other byte for that
/// byte; any other byte but the closing quote stands for itself.
pub proof fn lemma_string_escapes(src: Seq<u8>, p: nat, acc: Seq<char>)
    requires
        p < src.len(),
    ensures
        p + 1 < src.len() && src[p as int] == 92 && src[p as int + 1] == 116 ==> lex_string(src, p, acc) == lex_string(
            src,
            p + 2,
            acc.push('\t'),
        ),
        p + 1 < src.len() && src[p as int] == 92 && src[p as int + 1] == 110 ==> lex_string(src, p, acc) == lex_string(
            src,
            p + 2,
            acc.push('\n'),
        ),
        p + 1 < src.len() && src[p as int] == 92 && src[p as int + 1] == 34 ==> lex_string(src, p, acc) == lex_string(
            src,
            p + 2,
            acc.push('"'),
        ),
        p + 1 < src.len() && src[p as int] == 92 && src[p as int + 1] == 92 ==> lex_string(src, p, acc) == lex_string(
            src,
            p + 2,
            acc.push('\\'),
        ),
        p + 1 < src.len() && src[p as int] == 92 && src[p as int + 1] != 116 && src[p as int + 1] != 110 && src[p as int
            + 1] != 34 && src[p as int + 1] != 92 ==> lex_string(src, p, acc) == lex_string(
            src,
            p + 2,
            acc.push(src[p as int + 1] as char),
        ),
        src[p as int] != 92 && src[p as int] != 34 ==> lex_string(src, p, acc) == lex_string(
            src,
            p + 1,
            acc.push(src[p as int] as char),
        ),
        src[p as int] == 34 ==> lex_string(src, p, acc) == (acc, p + 1),
{
}

/// A string token that starts with an escape begins with the character the
/// escape stands for: a tab for `\t`, a line feed for `\n`, a quote for
/// `\"`, a backslash for `\\`.
pub proof fn lemma_string_token_escape(src: Seq<u8>, p: nat)
    requires
        skip_trivia(src, p) + 2 < src.len(),
        src[skip_trivia(src, p) as int] == 34,
        src[skip_trivia(src, p) as int + 1] == 92,
    ensures
        lex_next(src, p).0 matches TokKindM::Str(text) && 1 <= text.len() && (src[skip_trivia(src, p) as int + 2] == 116
            ==> text[0] == '\t') && (src[skip_trivia(src, p) as int + 2] == 110 ==> text[0] == '\n') && (src[skip_trivia(src, p) as int
            + 2] == 34 ==> text[0] == '"') && (src[skip_trivia(src, p) as int + 2] == 92 ==> text[0] == '\\'),
{
    let s = skip_trivia(src, p);
    let c = src[s as int + 2];
    let acc = Seq::<char>::empty().push(escaped(c));
    lemma_lex_string_prefix(src, s + 3, acc);
    assert(lex_string(src, s + 1, Seq::empty()) == lex_string(src, s + 3, acc));
    let text = lex_string(src, s + 3, acc).0;
    assert(text.subrange(0, 1)[0] == text[0]);
    assert(lex_next(src, p).0 == TokKindM::Str(text));
}

/// Reading a token moves past at least one byte, unless only trivia is left.
pub proof fn lemma_lex_progress(src: Seq<u8>, p: nat)
    ensures
        skip_trivia(src, p) < src.len() ==> p < lex_next(src, p).2,
{
    let s = skip_trivia(src, p);
    lemma_skip_trivia(src, p);
    if s < src.len() {
        lemma_lex_string_end(src, s + 1, Seq::empty());
        lemma_number_end(src, s + 1, false);
        lemma_ident_end(src, s + 1);
    }
}

/// A token spans from the end of the trivia before it to the position after it.
pub proof fn lemma_lex_span(src: Seq<u8>, p: nat)
    ensures
        p <= skip_trivia(src, p) <= lex_next(src, p).2,
        lex_next(src, p).1 == span_of(skip_trivia(src, p), lex_next(src, p).2),
{
    let s = skip_trivia(src, p);
    lemma_skip_trivia(src, p);
    if s < src.len() {
        lemma_lex_string_end(src, s + 1, Seq::empty());
        lemma_number_end(src, s + 1, false);
        lemma_ident_end(src, s + 1);
    }
}

proof fn lemma_ident_end(src: Seq<u8>, p: nat)
    ensures
        p <= ident_end(src, p),
        p <= src.len() ==> ident_end(src, p) <= src.len(),
    decreases src.len() - p,
{
    if p < src.len() && is_ident_char(src[p as int]) {
        lemma_ident_end(src, p + 1);
    }
}

proof fn lemma_digits_step(bs: Seq<u8>, b: u8)
    ensures
        digits_value(bs.push(b)) == digits_value(bs) * 10 + (b - 48),
{
    assert(bs.push(b).drop_last() =~= bs);
}

proof fn lemma_digits_monotone(src: Seq<u8>, s: int, i: int, e: int)
    requires
        0 <= s <= i <= e <= src.len(),
        forall|k: int| s <= k < e ==> is_digit(#[trigger] src[k]),
    ensures
        0 <= digits_value(src.subrange(s, i)) <= digits_value(src.subrange(s, e)),
    decreases e - i,
{
    if i == e {
        lemma_digits_nonneg(src.subrange(s, e));
    } else {
        lemma_digits_monotone(src, s, i + 1, e);
        assert(src.subrange(s, i + 1) =~= src.subrange(s, i).push(src[i]));
        lemma_digits_step(src.subrange(s, i), src[i]);
        lemma_digits_nonneg(src.subrange(s, i));
        assert(is_digit(src[i]));
    }
}

proof fn lemma_digits_nonneg(bs: Seq<u8>)
    requires
        forall|k: int| 0 <= k < bs.len() ==> is_digit(#[trigger] bs[k]),
    ensures
        digits_value(bs) >= 0,
    decreases bs.len(),
{
    if bs.len() > 0 {
        assert(forall|k: int| 0 <= k < bs.drop_last().len() ==> bs.drop_last()[k] == bs[k]);
        lemma_digits_nonneg(bs.drop_last());
        assert(is_digit(bs[bs.len() - 1]));
    }
}

/// A number's bytes from `p` to its end are digits, or a dot when one was met.
proof fn lemma_number_end(src: Seq<u8>, p: nat, dot: bool)
    ensures
        p <= number_end(src, p, dot).0,
        p <= src.len() ==> number_end(src, p, dot).0 <= src.len(),
        dot ==> number_end(src, p, dot).1,
        !number_end(src, p, dot).1 ==> forall|k: int| p <= k < number_end(src, p, dot).0 ==> is_digit(#[trigger] src[k]),
    decreases src.len() - p,
{
    if p < src.len() && is_digit(src[p as int]) {
        lemma_number_end(src, p + 1, dot);
    } else if p < src.len() && src[p as int] == 46 && !dot {
        lemma_number_end(src, p + 1, true);
    }
}

// ---------------------------------------------------------------------------
// The lexer
// ---------------------------------------------------------------------------

/// A lexer over the bytes of a source text.
pub struct Lexer<'a> {
    src: &'a [u8],
    pos: usize,
}

impl<'a> Lexer<'a> {
    /// The bytes being cut into tokens.
    pub closed spec fn source(&self) -> Seq<u8> {
        self.src@
    }

    /// The position of the next byte to read.
    pub closed spec fn position(&self) -> nat {
        self.pos as nat
    }

    /// A lexer at the start of a source text.
    pub fn new(src: &'a str) -> (r: Self)
        ensures
            r.source() == src.spec_bytes(),
            r.position() == 0,
    {
        Lexer { src: src.as_bytes(), pos: 0 }
    }

    /// The position of the next byte to read.
    pub fn offset(&self) -> (r: usize)
        ensures
            r == self.position(),
    {
        self.pos
    }

    fn peek(&self) -> (r: Option<u8>)
        ensures
            self.pos < self.src@.len() ==> r == Some(self.src@[self.pos as int]),
            self.pos >= self.src@.len() ==> r is None,
    {
        if self.pos < self.src.len() {
            Some(self.src[self.pos])
        } else {
            None
        }
    }

    fn peek2(&self) -> (r: Option<u8>)
        ensures
            self.pos + 1 < self.src@.len() ==> r == Some(self.src@[self.pos + 1]),
            self.pos + 1 >= self.src@.len() ==> r is None,
    {
        if self.pos < self.src.len() && self.pos + 1 < self.src.len() {
            Some(self.src[self.pos + 1])
        } else {
            None
        }
    }

    fn bump(&mut self) -> (r: Option<u8>)
        requires
            old(self).pos <= old(self).src@.len(),
        ensures
            final(self).src == old(self).src,
            old(self).pos < old(self).src@.len() ==> r == Some(old(self).src@[old(self).pos as int])
                && final(self).pos == old(self).pos + 1,
            old(self).pos >= old(self).src@.len() ==> r is None && final(self).pos == old(self).pos,
    {
        if self.pos >= self.src.len() {
            None
        } else {
            let b = self.src[self.pos];
            self.pos = self.pos + 1;
            Some(b)
        }
    }

    fn span(&self, start: usize) -> (r: Span)
        ensures
            r == span_of(start as nat, self.pos as nat),
    {
        Span { start: start as u32, end: self.pos as u32 }
    }

    fn skip_ws_and_comments(&mut self)
        requires
            old(self).pos <= old(self).src@.len(),
        ensures
            final(self).src == old(self).src,
            final(self).pos == skip_trivia(old(self).src@, old(self).pos as nat),
            final(self).pos <= final(self).src@.len(),
    {
        let ghost src = self.src@;
        loop
            invariant
                self.src@ == src,
                self.src == old(self).src,
                self.pos <= src.len(),
                skip_trivia(src, self.pos as nat) == skip_trivia(src, old(self).pos as nat),
            ensures
                self.src == old(self).src,
                self.pos <= src.len(),
                self.pos == skip_trivia(src, old(self).pos as nat),
            decreases src.len() - self.pos,
        {
            match self.peek() {
                Some(b) => {
                    if (9 <= b && b <= 13) || b == 32 || b == 0x85 || b == 0xA0 {
                        self.bump();
                        continue;
                    }
                },
                None => {},
            }
            if self.peek() == Some(47u8) && self.peek2() == Some(47u8) {
                let ghost c = self.pos as nat;
                self.bump();
                self.bump();
                proof {
                    lemma_line_end(src, c + 2);
                }
                while self.pos < self.src.len() && self.src[self.pos] != 10
                    invariant
                        self.src@ == src,
                        self.src == old(self).src,
                        c + 2 <= self.pos <= src.len(),
                        line_end(src, self.pos as nat) == line_end(src, c + 2),
                    decreases src.len() - self.pos,
                {
                    self.bump();
                }
                proof {
                    assert(line_end(src, self.pos as nat) == self.pos);
                    assert(skip_trivia(src, c) == skip_trivia(src, line_end(src, c + 2)));
                }
                continue;
            }
            proof {
                assert(skip_trivia(src, self.pos as nat) == self.pos);
            }
            break;
        }
    }

    /// Reads the next token.
    pub fn next_tok(&mut self) -> (r: Tok)
        requires
            old(self).position() <= old(self).source().len(),
        ensures
            final(self).source() == old(self).source(),
            final(self).position() <= final(self).source().len(),
            (r.kind@, r.span, final(self).position()) == lex_next(old(self).source(), old(self).position()),
    {
        let ghost src = self.src@;
        let ghost p0 = self.pos as nat;
        self.skip_ws_and_comments();
        let start = self.pos;
        let b = match self.bump() {
            Some(b) => b,
            None => {
                return Tok { kind: TokKind::Eof, span: Span { start: self.pos as u32, end: self.pos as u32 } };
            },
        };
        // Two-byte operators first.
        let next = self.peek();
        if b == 38 && next == Some(38u8) {
            self.bump();
            return Tok { kind: TokKind::AndAnd, span: self.span(start) };
        }
        if b == 124 && next == Some(124u8) {
            self.bump();
            return Tok { kind: TokKind::OrOr, span: self.span(start) };
        }
        if b == 61 && next == Some(61u8) {
            self.bump();
            return Tok { kind: TokKind::EqEq, span: self.span(start) };
        }
        if b == 33 && next == Some(61u8) {
            self.bump();
            return Tok { kind: TokKind::BangEq, span: self.span(start) };
        }
        if b == 60 && next == Some(61u8) {
            self.bump();
            return Tok { kind: TokKind::Le, span: self.span(start) };
        }
        if b == 62 && next == Some(61u8) {
            self.bump();
            return Tok { kind: TokKind::Ge, span: self.span(start) };
        }
        if b == 45 && next == Some(62u8) {
            self.bump();
            return Tok { kind: TokKind::Arrow, span: self.span(start) };
        }
        if b == 58 && next == Some(58u8) {
            self.bump();
            return Tok { kind: TokKind::ColonColon, span: self.span(start) };
        }
        if b == 61 && next == Some(62u8) {
            self.bump();
            return Tok { kind: TokKind::FatArrow, span: self.span(start) };
        }
        // One-byte punctuation and operators.
        let single = if b == 40 {
            Some(TokKind::LParen)
        } else if b == 41 {
            Some(TokKind::RParen)
        } else if b == 123 {
            Some(TokKind::LBrace)
        } else if b == 125 {
            Some(TokKind::RBrace)
        } else if b == 44 {
            Some(TokKind::Comma)
        } else if b == 58 {
            Some(TokKind::Colon)
        } else if b == 59 {
            Some(TokKind::Semicolon)
        } else if b == 43 {
            Some(TokKind::Plus)
        } else if b == 45 {
            Some(TokKind::Minus)
        } else if b == 42 {
            Some(TokKind::Star)
        } else if b == 47 {
            Some(TokKind::Slash)
        } else if b == 61 {
            Some(TokKind::Eq)
        } else if b == 60 {
            Some(TokKind::Lt)
        } else if b == 62 {
            Some(TokKind::Gt)
        } else if b == 33 {
            Some(TokKind::Bang)
        } else if b == 38 {
            Some(TokKind::Ampersand)
        } else {
            None
        };
        match single {
            Some(k) => {
                return Tok { kind: k, span: self.span(start) };
            },
            None => {},
        }
        // String literal.
        if b == 34 {
            let mut s = String::new();
            let ghost mut acc: Seq<char> = Seq::empty();
            let ghost whole = lex_string(src, start as nat + 1, Seq::empty());
            loop
                invariant_except_break
                    lex_string(src, self.pos as nat, acc) == whole,
                invariant
                    self.src@ == src,
                    self.src == old(self).src,
                    start < self.pos <= src.len(),
                    s@ == acc,
                ensures
                    (acc, self.pos as nat) == whole,
                decreases src.len() - self.pos,
            {
                let ghost p = self.pos as nat;
                let c = match self.peek() {
                    Some(c) => c,
                    None => {
                        break;
                    },
                };
                self.bump();
                if c == 34 {
                    break;
                }
                if c == 92 {
                    let esc = match self.bump() {
                        Some(e) => e,
                        None => {
                            break;
                        },
                    };
                    let resolved = if esc == 110 {
                        '\n'
                    } else if esc == 116 {
                        '\t'
                    } else if esc == 34 {
                        '"'
                    } else if esc == 92 {
                        '\\'
                    } else {
                        esc as char
                    };
                    push_char(&mut s, resolved);
                    proof {
                        assert(resolved == escaped(esc));
                        acc = acc.push(resolved);
                    }
                } else {
                    push_char(&mut s, c as char);
                    proof {
                        acc = acc.push(c as char);
                    }
                }
            }
            return Tok { kind: TokKind::Str(s), span: self.span(start) };
        }
        // Number: integer or float.
        if 48 <= b && b <= 57 {
            let mut dot = false;
            while self.pos < self.src.len() && ((48 <= self.src[self.pos] && self.src[self.pos] <= 57) || (
            self.src[self.pos] == 46 && !dot))
                invariant
                    self.src@ == src,
                    self.src == old(self).src,
                    start < self.pos <= src.len(),
                    number_end(src, self.pos as nat, dot) == number_end(src, start as nat + 1, false),
                decreases src.len() - self.pos,
            {
                if self.src[self.pos] == 46 {
                    dot = true;
                }
                self.bump();
            }
            if dot {
                let text = self.latin1_text(start);
                return Tok { kind: TokKind::Float(text), span: self.span(start) };
            } else {
                proof {
                    lemma_number_end(src, start as nat + 1, false);
                    assert(forall|k: int| start <= k < self.pos ==> is_digit(#[trigger] src[k]));
                }
                match self.digits_value_of(start) {
                    Some(value) => {
                        return Tok { kind: TokKind::Int(value), span: self.span(start) };
                    },
                    None => {
                        let mut msg = String::new();
                        msg.append("integer literal out of range");
                        return Tok { kind: TokKind::Error(msg), span: self.span(start) };
                    },
                }
            }
        }
        // Identifier or keyword.
        if (65 <= b && b <= 90) || (97 <= b && b <= 122) || b == 95 {
            while self.pos < self.src.len() && ((65 <= self.src[self.pos] && self.src[self.pos] <= 90) || (97
                <= self.src[self.pos] && self.src[self.pos] <= 122) || (48 <= self.src[self.pos] && self.src[self.pos]
                <= 57) || self.src[self.pos] == 95)
                invariant
                    self.src@ == src,
                    self.src == old(self).src,
                    start < self.pos <= src.len(),
                    ident_end(src, self.pos as nat) == ident_end(src, start as nat + 1),
                decreases src.len() - self.pos,
            {
                self.bump();
            }
            let s = self.latin1_text(start);
            let kind = if str_equals(s.as_str(), "let") {
                TokKind::KwLet
            } else if str_equals(s.as_str(), "fn") {
                TokKind::KwFn
            } else if str_equals(s.as_str(), "true") {
                TokKind::KwTrue
            } else if str_equals(s.as_str(), "false") {
                TokKind::KwFalse
            } else if str_equals(s.as_str(), "nil") {
                TokKind::KwNil
            } else if str_equals(s.as_str(), "if") {
                TokKind::KwIf
            } else if str_equals(s.as_str(), "else") {
                TokKind::KwElse
            } else if str_equals(s.as_str(), "while") {
                TokKind::KwWhile
            } else if str_equals(s.as_str(), "return") {
                TokKind::KwReturn
            } else if str_equals(s.as_str(), "mut") {
                TokKind::KwMut
            } else if str_equals(s.as_str(), "match") {
                TokKind::KwMatch
            } else if str_equals(s.as_str(), "enum") {
                TokKind::KwEnum
            } else if str_equals(s.as_str(), "struct") {
                TokKind::KwStruct
            } else if str_equals(s.as_str(), "extern") {
                TokKind::KwExtern
            } else {
                TokKind::Ident(s)
            };
            return Tok { kind, span: self.span(start) };
        }
        Tok { kind: TokKind::Eof, span: self.span(start) }
    }

    /// The bytes from `start` to the current position, read as Latin-1 characters.
    fn latin1_text(&self, start: usize) -> (r: String)
        requires
            start <= self.pos <= self.src@.len(),
        ensures
            r@ == latin1(self.src@.subrange(start as int, self.pos as int)),
    {
        let mut s = String::new();
        let mut i = start;
        while i < self.pos
            invariant
                start <= i <= self.pos <= self.src@.len(),
                s@ == latin1(self.src@.subrange(start as int, i as int)),
            decreases self.pos - i,
        {
            push_char(&mut s, self.src[i] as char);
            proof {
                assert(latin1(self.src@.subrange(start as int, i + 1)) =~= latin1(self.src@.subrange(start as int, i as int)).push(self.src@[i as int] as char));
            }
            i = i + 1;
        }
        s
    }

    /// The value of the digits from `start` to the current position, or
    /// `None` when it is too large for an `i64`.
    fn digits_value_of(&self, start: usize) -> (r: Option<i64>)
        requires
            start <= self.pos <= self.src@.len(),
            forall|k: int| start <= k < self.pos ==> is_digit(#[trigger] self.src@[k]),
        ensures
            r matches Some(v) ==> v as int == digits_value(self.src@.subrange(start as int, self.pos as int)),
            r is None ==> digits_value(self.src@.subrange(start as int, self.pos as int)) > i64::MAX,
    {
        let ghost src = self.src@;
        let mut v: i64 = 0;
        let mut i = start;
        while i < self.pos
            invariant
                src == self.src@,
                start <= i <= self.pos <= src.len(),
                forall|k: int| start <= k < self.pos ==> is_digit(#[trigger] src[k]),
                v as int == digits_value(src.subrange(start as int, i as int)),
            decreases self.pos - i,
        {
            let d = self.src[i] - 48;
            proof {
                assert(src.subrange(start as int, i + 1) =~= src.subrange(start as int, i as int).push(src[i as int]));
                lemma_digits_step(src.subrange(start as int, i as int), src[i as int]);
                lemma_digits_monotone(src, start as int, i + 1, self.pos as int);
                assert(is_digit(src[i as int]));
            }
            let scaled = match v.checked_mul(10) {
                Some(x) => x,
                None => {
                    return None;
                },
            };
            v = match scaled.checked_add(d as i64) {
                Some(x) => x,
                None => {
                    return None;
                },
            };
            i = i + 1;
        }
        Some(v)
    }
}

} // verus!
