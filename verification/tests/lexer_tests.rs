use strata::ast::Span;
use strata::lexer::{Lexer, TokKind};

fn kinds(src: &str) -> Vec<TokKind> {
    let mut lx = Lexer::new(src);
    let mut out = Vec::new();
    loop {
        let t = lx.next_tok();
        if t.kind == TokKind::Eof {
            break;
        }
        out.push(t.kind);
    }
    out
}

#[test]
fn punctuation_and_two_char_operators() {
    assert_eq!(
        kinds("( ) { } , : ; -> == != <= >= && || < > = ! + - * /"),
        vec![
            TokKind::LParen,
            TokKind::RParen,
            TokKind::LBrace,
            TokKind::RBrace,
            TokKind::Comma,
            TokKind::Colon,
            TokKind::Semicolon,
            TokKind::Arrow,
            TokKind::EqEq,
            TokKind::BangEq,
            TokKind::Le,
            TokKind::Ge,
            TokKind::AndAnd,
            TokKind::OrOr,
            TokKind::Lt,
            TokKind::Gt,
            TokKind::Eq,
            TokKind::Bang,
            TokKind::Plus,
            TokKind::Minus,
            TokKind::Star,
            TokKind::Slash,
        ]
    );
}

#[test]
fn keywords_and_identifiers() {
    assert_eq!(
        kinds("let fn true false nil if else while return mut foo _bar x1"),
        vec![
            TokKind::KwLet,
            TokKind::KwFn,
            TokKind::KwTrue,
            TokKind::KwFalse,
            TokKind::KwNil,
            TokKind::KwIf,
            TokKind::KwElse,
            TokKind::KwWhile,
            TokKind::KwReturn,
            TokKind::KwMut,
            TokKind::Ident("foo".into()),
            TokKind::Ident("_bar".into()),
            TokKind::Ident("x1".into()),
        ]
    );
}

#[test]
fn numbers_and_strings() {
    assert_eq!(
        kinds("42 3.25 \"a\\nb\\\"c\""),
        vec![TokKind::Int(42), TokKind::Float("3.25".into()), TokKind::Str("a\nb\"c".into())]
    );
}

#[test]
fn comments_are_skipped() {
    assert_eq!(kinds("// a comment\nlet x // trailing\n"), vec![TokKind::KwLet, TokKind::Ident("x".into())]);
}

#[test]
fn spans_are_byte_ranges() {
    let mut lx = Lexer::new("  let abc");
    let t = lx.next_tok();
    assert_eq!(t.kind, TokKind::KwLet);
    assert_eq!(t.span, Span { start: 2, end: 5 });
    let t = lx.next_tok();
    assert_eq!(t.span, Span { start: 6, end: 9 });
    let t = lx.next_tok();
    assert_eq!(t.kind, TokKind::Eof);
    assert_eq!(t.span, Span { start: 9, end: 9 });
    let t = lx.next_tok();
    assert_eq!(t.kind, TokKind::Eof);
}

#[test]
fn unknown_byte_ends_the_stream() {
    assert_eq!(kinds("a @ b"), vec![TokKind::Ident("a".into())]);
}

#[test]
fn paths_arms_and_annotations() {
    assert_eq!(
        kinds("a::b => & && match enum struct extern"),
        vec![
            TokKind::Ident("a".into()),
            TokKind::ColonColon,
            TokKind::Ident("b".into()),
            TokKind::FatArrow,
            TokKind::Ampersand,
            TokKind::AndAnd,
            TokKind::KwMatch,
            TokKind::KwEnum,
            TokKind::KwStruct,
            TokKind::KwExtern,
        ]
    );
}

#[test]
fn largest_integer_and_one_more() {
    assert_eq!(kinds("9223372036854775807"), vec![TokKind::Int(i64::MAX)]);
    let mut lx = Lexer::new("9223372036854775808 x");
    let t = lx.next_tok();
    assert_eq!(t.kind, TokKind::Error("integer literal out of range".into()));
    assert_eq!(t.span, Span { start: 0, end: 19 });
    let t = lx.next_tok();
    assert_eq!(t.kind, TokKind::Ident("x".into()));
}
