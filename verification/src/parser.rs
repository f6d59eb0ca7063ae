//! The parser: source text to a module, by recursive descent over the
//! tokens, with binary operators grouped by binding power.
use vstd::prelude::*;
use crate::ast::{
    BinOp, Block, EnumDef, Expr, ExternFnDecl, Field, FieldInit, FnDecl, Ident, Item, LetDecl, Lit, MatchArm, expr_span, item_span, stmt_span,
    Module, Param, Pat, PatField, Path, Span, Stmt, StructDef, TypeExpr, UnOp, Variant, VariantFields,
};
use crate::exhaustive::{int_text, push_int};
use crate::lexer::{Lexer, Tok, TokKind, TokKindM, lex_next};
use crate::text::{decimal, push_decimal};
use vstd::string::{StrSliceExecFns, StringSliceAdditionalSpecFns};

verus! {

/// Deepest nesting of blocks, conditionals, loops, patterns and prefix
/// expressions that is parsed.
pub const MAX_NESTING_DEPTH: u32 = 512;

/// Why a source text does not parse.
#[derive(Debug)]
pub struct ParseError {
    pub message: String,
}

// ---------------------------------------------------------------------------
// Texts of tokens, for messages
// ---------------------------------------------------------------------------

/// How a token kind is written in messages: its name, and its payload in
/// brackets; texts stand between double quotes as they are.
pub open spec fn kind_text(k: TokKindM) -> Seq<char> {
    match k {
        TokKindM::Eof => "Eof"@,
        TokKindM::Error(s) => "Error(\""@ + s + "\")"@,
        TokKindM::LParen => "LParen"@,
        TokKindM::RParen => "RParen"@,
        TokKindM::LBrace => "LBrace"@,
        TokKindM::RBrace => "RBrace"@,
        TokKindM::Comma => "Comma"@,
        TokKindM::Colon => "Colon"@,
        TokKindM::ColonColon => "ColonColon"@,
        TokKindM::Semicolon => "Semicolon"@,
        TokKindM::Arrow => "Arrow"@,
        TokKindM::FatArrow => "FatArrow"@,
        TokKindM::Eq => "Eq"@,
        TokKindM::Plus => "Plus"@,
        TokKindM::Minus => "Minus"@,
        TokKindM::Star => "Star"@,
        TokKindM::Slash => "Slash"@,
        TokKindM::EqEq => "EqEq"@,
        TokKindM::BangEq => "BangEq"@,
        TokKindM::Lt => "Lt"@,
        TokKindM::Le => "Le"@,
        TokKindM::Gt => "Gt"@,
        TokKindM::Ge => "Ge"@,
        TokKindM::AndAnd => "AndAnd"@,
        TokKindM::OrOr => "OrOr"@,
        TokKindM::Bang => "Bang"@,
        TokKindM::Ampersand => "Ampersand"@,
        TokKindM::Ident(s) => "Ident(\""@ + s + "\")"@,
        TokKindM::KwLet => "KwLet"@,
        TokKindM::KwFn => "KwFn"@,
        TokKindM::KwTrue => "KwTrue"@,
        TokKindM::KwFalse => "KwFalse"@,
        TokKindM::KwNil => "KwNil"@,
        TokKindM::KwIf => "KwIf"@,
        TokKindM::KwElse => "KwElse"@,
        TokKindM::KwWhile => "KwWhile"@,
        TokKindM::KwReturn => "KwReturn"@,
        TokKindM::KwMut => "KwMut"@,
        TokKindM::KwMatch => "KwMatch"@,
        TokKindM::KwEnum => "KwEnum"@,
        TokKindM::KwStruct => "KwStruct"@,
        TokKindM::KwExtern => "KwExtern"@,
        TokKindM::Int(n) => "Int("@ + int_text(n) + ")"@,
        TokKindM::Float(s) => "Float("@ + s + ")"@,
        TokKindM::Str(s) => "Str(\""@ + s + "\")"@,
    }
}

/// How a span is written in messages.
pub open spec fn span_text(s: Span) -> Seq<char> {
    "Span { start: "@ + decimal(s.start as nat) + ", end: "@ + decimal(s.end as nat) + " }"@
}

/// Appends the text of a token kind.
fn push_kind(out: &mut String, k: &TokKind)
    ensures
        final(out)@ == old(out)@ + kind_text(k@),
{
    let ghost before = out@;
    match k {
        TokKind::Eof => out.append("Eof"),
        TokKind::Error(s) => {
            out.append("Error(\"");
            out.append(s.as_str());
            out.append("\")");
        },
        TokKind::LParen => out.append("LParen"),
        TokKind::RParen => out.append("RParen"),
        TokKind::LBrace => out.append("LBrace"),
        TokKind::RBrace => out.append("RBrace"),
        TokKind::Comma => out.append("Comma"),
        TokKind::Colon => out.append("Colon"),
        TokKind::ColonColon => out.append("ColonColon"),
        TokKind::Semicolon => out.append("Semicolon"),
        TokKind::Arrow => out.append("Arrow"),
        TokKind::FatArrow => out.append("FatArrow"),
        TokKind::Eq => out.append("Eq"),
        TokKind::Plus => out.append("Plus"),
        TokKind::Minus => out.append("Minus"),
        TokKind::Star => out.append("Star"),
        TokKind::Slash => out.append("Slash"),
        TokKind::EqEq => out.append("EqEq"),
        TokKind::BangEq => out.append("BangEq"),
        TokKind::Lt => out.append("Lt"),
        TokKind::Le => out.append("Le"),
        TokKind::Gt => out.append("Gt"),
        TokKind::Ge => out.append("Ge"),
        TokKind::AndAnd => out.append("AndAnd"),
        TokKind::OrOr => out.append("OrOr"),
        TokKind::Bang => out.append("Bang"),
        TokKind::Ampersand => out.append("Ampersand"),
        TokKind::Ident(s) => {
            out.append("Ident(\"");
            out.append(s.as_str());
            out.append("\")");
        },
        TokKind::KwLet => out.append("KwLet"),
        TokKind::KwFn => out.append("KwFn"),
        TokKind::KwTrue => out.append("KwTrue"),
        TokKind::KwFalse => out.append("KwFalse"),
        TokKind::KwNil => out.append("KwNil"),
        TokKind::KwIf => out.append("KwIf"),
        TokKind::KwElse => out.append("KwElse"),
        TokKind::KwWhile => out.append("KwWhile"),
        TokKind::KwReturn => out.append("KwReturn"),
        TokKind::KwMut => out.append("KwMut"),
        TokKind::KwMatch => out.append("KwMatch"),
        TokKind::KwEnum => out.append("KwEnum"),
        TokKind::KwStruct => out.append("KwStruct"),
        TokKind::KwExtern => out.append("KwExtern"),
        TokKind::Int(n) => {
            out.append("Int(");
            push_int(out, *n);
            out.append(")");
        },
        TokKind::Float(s) => {
            out.append("Float(");
            out.append(s.as_str());
            out.append(")");
        },
        TokKind::Str(s) => {
            out.append("Str(\"");
            out.append(s.as_str());
            out.append("\")");
        },
    }
    assert(out@ =~= before + kind_text(k@));
}

/// Appends the text of a span.
fn push_span(out: &mut String, s: Span)
    ensures
        final(out)@ == old(out)@ + span_text(s),
{
    let ghost before = out@;
    out.append("Span { start: ");
    push_decimal(out, s.start as u64);
    out.append(", end: ");
    push_decimal(out, s.end as u64);
    out.append(" }");
    assert(out@ =~= before + span_text(s));
}

/// An error with a message.
fn error_of(message: String) -> (r: ParseError)
    ensures
        r.message@ == message@,
{
    ParseError { message }
}


/// A number for each kind of token, the same for kinds that differ only in
/// their payload.
pub open spec fn kind_tag(k: TokKindM) -> nat {
    match k {
        TokKindM::Eof => 0,
        TokKindM::Error(_) => 1,
        TokKindM::LParen => 2,
        TokKindM::RParen => 3,
        TokKindM::LBrace => 4,
        TokKindM::RBrace => 5,
        TokKindM::Comma => 6,
        TokKindM::Colon => 7,
        TokKindM::ColonColon => 8,
        TokKindM::Semicolon => 9,
        TokKindM::Arrow => 10,
        TokKindM::FatArrow => 11,
        TokKindM::Eq => 12,
        TokKindM::Plus => 13,
        TokKindM::Minus => 14,
        TokKindM::Star => 15,
        TokKindM::Slash => 16,
        TokKindM::EqEq => 17,
        TokKindM::BangEq => 18,
        TokKindM::Lt => 19,
        TokKindM::Le => 20,
        TokKindM::Gt => 21,
        TokKindM::Ge => 22,
        TokKindM::AndAnd => 23,
        TokKindM::OrOr => 24,
        TokKindM::Bang => 25,
        TokKindM::Ampersand => 26,
        TokKindM::Ident(_) => 27,
        TokKindM::KwLet => 28,
        TokKindM::KwFn => 29,
        TokKindM::KwTrue => 30,
        TokKindM::KwFalse => 31,
        TokKindM::KwNil => 32,
        TokKindM::KwIf => 33,
        TokKindM::KwElse => 34,
        TokKindM::KwWhile => 35,
        TokKindM::KwReturn => 36,
        TokKindM::KwMut => 37,
        TokKindM::KwMatch => 38,
        TokKindM::KwEnum => 39,
        TokKindM::KwStruct => 40,
        TokKindM::KwExtern => 41,
        TokKindM::Int(_) => 42,
        TokKindM::Float(_) => 43,
        TokKindM::Str(_) => 44,
    }
}

/// The number of a token kind.
fn tag_of(k: &TokKind) -> (r: u8)
    ensures
        r == kind_tag(k@),
{
    match k {
        TokKind::Eof => 0,
        TokKind::Error(_) => 1,
        TokKind::LParen => 2,
        TokKind::RParen => 3,
        TokKind::LBrace => 4,
        TokKind::RBrace => 5,
        TokKind::Comma => 6,
        TokKind::Colon => 7,
        TokKind::ColonColon => 8,
        TokKind::Semicolon => 9,
        TokKind::Arrow => 10,
        TokKind::FatArrow => 11,
        TokKind::Eq => 12,
        TokKind::Plus => 13,
        TokKind::Minus => 14,
        TokKind::Star => 15,
        TokKind::Slash => 16,
        TokKind::EqEq => 17,
        TokKind::BangEq => 18,
        TokKind::Lt => 19,
        TokKind::Le => 20,
        TokKind::Gt => 21,
        TokKind::Ge => 22,
        TokKind::AndAnd => 23,
        TokKind::OrOr => 24,
        TokKind::Bang => 25,
        TokKind::Ampersand => 26,
        TokKind::Ident(_) => 27,
        TokKind::KwLet => 28,
        TokKind::KwFn => 29,
        TokKind::KwTrue => 30,
        TokKind::KwFalse => 31,
        TokKind::KwNil => 32,
        TokKind::KwIf => 33,
        TokKind::KwElse => 34,
        TokKind::KwWhile => 35,
        TokKind::KwReturn => 36,
        TokKind::KwMut => 37,
        TokKind::KwMatch => 38,
        TokKind::KwEnum => 39,
        TokKind::KwStruct => 40,
        TokKind::KwExtern => 41,
        TokKind::Int(_) => 42,
        TokKind::Float(_) => 43,
        TokKind::Str(_) => 44,
    }
}

/// The message for a lexer error token met by the parser.
pub open spec fn lexer_error_message(span: Span, msg: Seq<char>) -> Seq<char> {
    "Lexer error at "@ + span_text(span) + ": "@ + msg
}

/// The message when a token of kind `want` was expected and `found` stands
/// at `span`; a lexer error token is reported as such.
pub open spec fn expect_message(want: TokKindM, found: TokKindM, span: Span) -> Seq<char> {
    match found {
        TokKindM::Error(msg) => lexer_error_message(span, msg),
        _ => "expected "@ + kind_text(want) + ", found "@ + kind_text(found) + " at "@ + span_text(span),
    }
}

/// The message when the nesting limit is passed.
pub open spec fn nesting_message() -> Seq<char> {
    "maximum nesting depth exceeded (limit: 512)"@
}

// ---------------------------------------------------------------------------
// Grouping of operators
// ---------------------------------------------------------------------------

/// The binding power of a binary operator, from `||` (loosest) to `*` and
/// `/` (tightest).
pub open spec fn binop_level(op: BinOp) -> nat {
    match op {
        BinOp::Or => 1,
        BinOp::And => 3,
        BinOp::Eq | BinOp::Ne => 5,
        BinOp::Lt | BinOp::Le | BinOp::Gt | BinOp::Ge => 7,
        BinOp::Add | BinOp::Sub => 10,
        BinOp::Mul | BinOp::Div => 20,
    }
}

/// The binding power of the binary operator a token stands for, if any.
pub open spec fn infix_level(k: TokKindM) -> Option<nat> {
    match k {
        TokKindM::OrOr => Some(1),
        TokKindM::AndAnd => Some(3),
        TokKindM::EqEq | TokKindM::BangEq => Some(5),
        TokKindM::Lt | TokKindM::Le | TokKindM::Gt | TokKindM::Ge => Some(7),
        TokKindM::Plus | TokKindM::Minus => Some(10),
        TokKindM::Star | TokKindM::Slash => Some(20),
        _ => None,
    }
}

/// The binding power at the top of an expression: that of its operator for a
/// binary expression, above every operator for anything else.
pub open spec fn expr_level(e: Expr) -> nat {
    match e {
        Expr::Binary { op, .. } => binop_level(op),
        _ => 100,
    }
}

/// Whether every expression within `e` is grouped as the operators bind: the
/// operands of a binary operator bind at least as tightly on the left and
/// more tightly on the right (so operators of one level group to the left),
/// and neither a callee nor the operand of a prefix operator is a binary
/// expression (calls and prefix operators bind tighter than any binary
/// operator).
pub open spec fn grouped(e: Expr) -> bool
    decreases e,
{
    match e {
        Expr::Binary { lhs, op, rhs, .. } => expr_level(*lhs) >= binop_level(op) && expr_level(*rhs) > binop_level(
            op,
        ) && grouped(*lhs) && grouped(*rhs),
        Expr::Unary { expr, .. } => !(*expr is Binary) && grouped(*expr),
        Expr::Call { callee, args, .. } => !(*callee is Binary) && grouped(*callee) && forall|i: int|
            0 <= i < args@.len() ==> grouped(#[trigger] args@[i]),
        Expr::Paren { inner, .. } => grouped(*inner),
        Expr::Block(b) => block_grouped(b),
        Expr::If { cond, then_, else_, .. } => grouped(*cond) && block_grouped(then_) && match else_ {
            Some(x) => grouped(*x),
            None => true,
        },
        Expr::While { cond, body, .. } => grouped(*cond) && block_grouped(body),
        Expr::Match { scrutinee, arms, .. } => grouped(*scrutinee) && forall|i: int|
            0 <= i < arms@.len() ==> grouped(#[trigger] arms@[i].body),
        Expr::Tuple { elems, .. } => forall|i: int| 0 <= i < elems@.len() ==> grouped(#[trigger] elems@[i]),
        Expr::StructExpr { fields, .. } => forall|i: int|
            0 <= i < fields@.len() ==> grouped(#[trigger] fields@[i].value),
        _ => true,
    }
}

/// Whether the expressions of a block are grouped as the operators bind.
pub open spec fn block_grouped(b: Block) -> bool
    decreases b,
{
    &&& forall|i: int| 0 <= i < b.stmts@.len() ==> stmt_grouped(#[trigger] b.stmts@[i])
    &&& match b.tail {
        Some(t) => grouped(*t),
        None => true,
    }
}

/// Whether the expressions of a statement are grouped as the operators bind.
pub open spec fn stmt_grouped(s: Stmt) -> bool
    decreases s,
{
    match s {
        Stmt::Let { value, .. } => grouped(value),
        Stmt::Assign { value, .. } => grouped(value),
        Stmt::Expr { expr, .. } => grouped(expr),
        Stmt::Return { value, .. } => match value {
            Some(v) => grouped(v),
            None => true,
        },
    }
}

/// Whether the expressions of an item are grouped as the operators bind.
pub open spec fn item_grouped(item: Item) -> bool {
    match item {
        Item::Let(d) => grouped(d.value),
        Item::Fn(f) => block_grouped(f.body),
        _ => true,
    }
}

/// Whether the expressions of a module are grouped as the operators bind.
pub open spec fn module_grouped(m: Module) -> bool {
    forall|i: int| 0 <= i < m.items@.len() ==> item_grouped(#[trigger] m.items@[i])
}

// ---------------------------------------------------------------------------
// The parser's state
// ---------------------------------------------------------------------------

/// The tokens of the source up to its final end-of-input token, the position
/// of the current token, and the current nesting depth.
struct Parser {
    toks: Vec<Tok>,
    pos: usize,
    depth: u32,
}

/// Whether a state is usable: tokens that end with an end-of-input token, and
/// a current position among them.
spec fn wf(p: Parser) -> bool {
    &&& p.toks@.len() > 0
    &&& p.pos < p.toks@.len()
    &&& p.toks@.last().kind@ is Eof
}

/// The kind of the current token.
spec fn cur_kind(p: Parser) -> TokKindM {
    p.toks@[p.pos as int].kind@
}

/// The span of the current token.
spec fn cur_span(p: Parser) -> Span {
    p.toks@[p.pos as int].span
}

/// The kind of the token `k` places after the current one; past the last
/// token, the end of input.
/// Whether the token `k` places ahead begins a type of that one token: a
/// name not followed by `::` or `<`.
spec fn one_token_type(p: Parser, k: nat) -> bool {
    ahead(p, k) is Ident && !(ahead(p, k + 1) is ColonColon) && !(ahead(p, k + 1) is Lt)
}

spec fn ahead(p: Parser, k: nat) -> TokKindM {
    if p.pos + k < p.toks@.len() {
        p.toks@[p.pos + k].kind@
    } else {
        TokKindM::Eof
    }
}

/// Whether a literal is the value a literal token writes.
pub open spec fn lit_matches(l: Lit, k: TokKindM) -> bool {
    match l {
        Lit::Int(v) => k == TokKindM::Int(v as int),
        Lit::Float(t) => k == TokKindM::Float(t@),
        Lit::Str(t) => k == TokKindM::Str(t@),
        Lit::Bool(b) => if b {
            k is KwTrue
        } else {
            k is KwFalse
        },
        Lit::Nil => k is KwNil,
    }
}

/// Whether an expression is the literal a token writes, at that token's span.
pub open spec fn lit_of_token(e: Expr, k: TokKindM, sp: Span) -> bool {
    e matches Expr::Lit(l, s) && lit_matches(l, k) && s == sp
}

/// Whether an expression is the variable a name token writes, at its span.
pub open spec fn var_of_token(e: Expr, k: TokKindM, sp: Span) -> bool {
    e matches Expr::Var(id) && k == TokKindM::Ident(id.text@) && id.span == sp
}

/// The span of the token `k` places after the current one.
spec fn ahead_span(p: Parser, k: nat) -> Span {
    p.toks@[p.pos + k].span
}

/// Whether the tokens `k` places on read `let name = literal;`.
spec fn plain_let_at(p: Parser, k: nat) -> bool {
    &&& ahead(p, k) is KwLet
    &&& ahead(p, k + 1) is Ident
    &&& ahead(p, k + 2) is Eq
    &&& lit_tok(ahead(p, k + 3))
    &&& ahead(p, k + 4) is Semicolon
}

/// Whether a `let` is the one the tokens `k` places on write: its name and
/// literal value, each at its token's span, and no type.
spec fn let_of_tokens(d: LetDecl, p: Parser, k: nat) -> bool {
    &&& ahead(p, k + 1) == TokKindM::Ident(d.name.text@)
    &&& d.name.span == ahead_span(p, k + 1)
    &&& d.ty is None
    &&& lit_of_token(d.value, ahead(p, k + 3), ahead_span(p, k + 3))
}

/// Whether the tokens from the current one read `k` bindings
/// `let name = literal;` and then the end of input.
spec fn plain_lets_then_end(p: Parser, k: nat) -> bool {
    &&& forall|i: nat| i < k ==> #[trigger] plain_let_at(p, 5 * i)
    &&& ahead(p, 5 * k) is Eof
}

/// Whether items are the `let` bindings that the tokens from the current one
/// write, five tokens each.
spec fn lets_of_tokens(items: Seq<Item>, p: Parser) -> bool {
    forall|i: int| 0 <= i < items.len() ==> (#[trigger] items[i] matches Item::Let(d) && let_of_tokens(d, p, (5 * i) as nat))
}

/// Whether the tokens `k` places on read `fn name() {}`.
spec fn empty_fn_at(p: Parser, k: nat) -> bool {
    &&& ahead(p, k) is KwFn
    &&& ahead(p, k + 1) is Ident
    &&& ahead(p, k + 2) is LParen
    &&& ahead(p, k + 3) is RParen
    &&& ahead(p, k + 4) is LBrace
    &&& ahead(p, k + 5) is RBrace
}

/// Whether a function is the one the tokens `k` places on write: its name at
/// its token's span, no parameters, result type or effects, and an empty
/// body.
spec fn fn_of_tokens(f: FnDecl, p: Parser, k: nat) -> bool {
    &&& ahead(p, k + 1) == TokKindM::Ident(f.name.text@)
    &&& f.name.span == ahead_span(p, k + 1)
    &&& f.params@.len() == 0
    &&& f.ret_ty is None
    &&& f.effects is None
    &&& f.body.stmts@.len() == 0
    &&& f.body.tail is None
}

/// Whether the tokens from the current one read `k` functions `fn name() {}`
/// and then the end of input.
spec fn empty_fns_then_end(p: Parser, k: nat) -> bool {
    &&& forall|i: nat| i < k ==> #[trigger] empty_fn_at(p, 6 * i)
    &&& ahead(p, 6 * k) is Eof
}

/// Whether items are the functions that the tokens from the current one
/// write, six tokens each.
spec fn fns_of_tokens(items: Seq<Item>, p: Parser) -> bool {
    forall|i: int| 0 <= i < items.len() ==> (#[trigger] items[i] matches Item::Fn(f) && fn_of_tokens(f, p, (6 * i) as nat))
}

/// Whether the tokens from `k` places on read a tuple pattern `(p, q, ..)` of
/// `n >= 2` patterns, each a single literal or name token, separated by
/// commas.
spec fn simple_tuple_at(p: Parser, k: nat, n: nat) -> bool {
    &&& 2 <= n
    &&& ahead(p, k) is LParen
    &&& forall|i: nat| i < n ==> (lit_tok(#[trigger] ahead(p, k + 2 * i + 1)) || ahead(p, k + 2 * i + 1) is Ident)
    &&& forall|i: nat| i + 1 < n ==> #[trigger] ahead(p, k + 2 * i + 2) is Comma
    &&& ahead(p, k + 2 * n) is RParen
}

/// Whether the patterns are the ones such a tuple's tokens write, one for
/// each element token, at its span.
spec fn simple_tuple_pats(ps: Seq<Pat>, p: Parser, k: nat) -> bool {
    forall|i: int| 0 <= i < ps.len() ==> pat_of_token(#[trigger] ps[i], ahead(p, (k + 2 * i + 1) as nat), ahead_span(
        p,
        (k + 2 * i + 1) as nat,
    ))
}

/// Whether a pattern is the one a single token writes, at that token's span:
/// a literal, `_`, or a name.
pub open spec fn pat_of_token(p: Pat, k: TokKindM, sp: Span) -> bool {
    match p {
        Pat::Ident(id) => k == TokKindM::Ident(id.text@) && id.span == sp,
        Pat::Wildcard(s) => k == TokKindM::Ident("_"@) && s == sp,
        Pat::Literal(l, s) => lit_matches(l, k) && s == sp,
        _ => false,
    }
}

/// Whether a token kind is a literal.
pub open spec fn lit_tok(k: TokKindM) -> bool {
    k is Int || k is Float || k is Str || k is KwTrue || k is KwFalse || k is KwNil
}

/// Whether a token kind neither continues an expression nor is an error: no
/// call bracket and no binary operator.
spec fn ends_expr(k: TokKindM) -> bool {
    !(k is LParen) && infix_level(k) is None && !(k is Error)
}

/// A step of the parser: the same tokens, and no step back.
spec fn stepped(a: Parser, b: Parser) -> bool {
    &&& wf(b)
    &&& b.toks@ == a.toks@
    &&& a.pos <= b.pos
}

/// A successful step: at least one token consumed, and the nesting as before.
spec fn progressed(a: Parser, b: Parser) -> bool {
    &&& a.pos < b.pos
    &&& b.depth == a.depth
}

/// Whether `s` spans the tokens consumed from state `a` to state `b`: from
/// the start of the first to the end of the last.
spec fn spans_tokens(a: Parser, b: Parser, s: Span) -> bool {
    &&& a.pos < b.pos
    &&& s.start == a.toks@[a.pos as int].span.start
    &&& s.end == b.toks@[b.pos - 1].span.end
}

/// Whether tokens stand in source order: each starts no later than it ends,
/// and ends no later than any later token starts.
spec fn tokens_ordered(toks: Seq<Tok>) -> bool {
    &&& forall|j: int| 0 <= j < toks.len() ==> (#[trigger] toks[j]).span.start <= toks[j].span.end
    &&& forall|j: int, k: int| 0 <= j < k < toks.len() ==> (#[trigger] toks[j]).span.end <= (#[trigger] toks[k]).span.start
}

/// Whether items stand in source order within `lo` to `hi`, without overlap.
pub open spec fn items_in_order(items: Seq<Item>, lo: u32, hi: u32) -> bool {
    &&& forall|i: int| 0 <= i < items.len() ==> lo <= (#[trigger] item_span(items[i])).start <= item_span(items[i]).end <= hi
    &&& forall|i: int, j: int| 0 <= i < j < items.len() ==> (#[trigger] item_span(items[i])).end <= (#[trigger] item_span(
        items[j],
    )).start
}

/// Where the lexer stands after reading `k` tokens of a source text.
pub open spec fn lex_pos(src: Seq<u8>, k: nat) -> nat
    decreases k,
{
    if k == 0 {
        0
    } else {
        lex_next(src, lex_pos(src, (k - 1) as nat)).2
    }
}

/// The kind of the `k`-th token of a source text.
pub open spec fn tok_kind_at(src: Seq<u8>, k: nat) -> TokKindM {
    lex_next(src, lex_pos(src, k)).0
}

/// The span of the `k`-th token of a source text.
pub open spec fn tok_span_at(src: Seq<u8>, k: nat) -> Span {
    lex_next(src, lex_pos(src, k)).1
}

/// Whether the tokens of a source text read `k` bindings
/// `let name = literal;` and then the end of input.
pub open spec fn plain_let_source(src: Seq<u8>, k: nat) -> bool {
    &&& forall|i: nat| i < k ==> {
        &&& #[trigger] tok_kind_at(src, 5 * i) is KwLet
        &&& tok_kind_at(src, 5 * i + 1) is Ident
        &&& tok_kind_at(src, 5 * i + 2) is Eq
        &&& lit_tok(tok_kind_at(src, 5 * i + 3))
        &&& tok_kind_at(src, 5 * i + 4) is Semicolon
    }
    &&& tok_kind_at(src, 5 * k) is Eof
}

/// Whether a source text is `k` functions `fn name() {}` and nothing more.
pub open spec fn empty_fn_source(src: Seq<u8>, k: nat) -> bool {
    &&& forall|i: nat| i < k ==> {
        &&& #[trigger] tok_kind_at(src, 6 * i) is KwFn
        &&& tok_kind_at(src, 6 * i + 1) is Ident
        &&& tok_kind_at(src, 6 * i + 2) is LParen
        &&& tok_kind_at(src, 6 * i + 3) is RParen
        &&& tok_kind_at(src, 6 * i + 4) is LBrace
        &&& tok_kind_at(src, 6 * i + 5) is RBrace
    }
    &&& tok_kind_at(src, 6 * k) is Eof
}

/// Whether items are the functions that such a source text writes: each has
/// the name of its token, at its span, no parameters, result type or
/// effects, and an empty body.
pub open spec fn fns_of_source(items: Seq<Item>, src: Seq<u8>) -> bool {
    forall|i: int| 0 <= i < items.len() ==> (#[trigger] items[i] matches Item::Fn(f) && tok_kind_at(src, (6 * i + 1) as nat)
        == TokKindM::Ident(f.name.text@) && f.name.span == tok_span_at(src, (6 * i + 1) as nat) && f.params@.len() == 0
        && f.ret_ty is None && f.effects is None && f.body.stmts@.len() == 0 && f.body.tail is None)
}

/// Whether items are the bindings that such a source text writes: each
/// `let` has the name and the literal of its tokens, at their spans, and no
/// type.
pub open spec fn lets_of_source(items: Seq<Item>, src: Seq<u8>) -> bool {
    forall|i: int| 0 <= i < items.len() ==> (#[trigger] items[i] matches Item::Let(d) && tok_kind_at(src, (5 * i + 1) as nat)
        == TokKindM::Ident(d.name.text@) && d.name.span == tok_span_at(src, (5 * i + 1) as nat) && d.ty is None
        && lit_of_token(d.value, tok_kind_at(src, (5 * i + 3) as nat), tok_span_at(src, (5 * i + 3) as nat)))
}

/// All tokens of a source text, up to the end-of-input token at its end.
fn lex_all(src: &str) -> (r: Vec<Tok>)
    ensures
        forall|j: int| 0 <= j < r@.len() ==> (#[trigger] r@[j]).kind@ == tok_kind_at(src.spec_bytes(), j as nat),
        forall|j: int| 0 <= j < r@.len() ==> (#[trigger] r@[j]).span == tok_span_at(src.spec_bytes(), j as nat),
        r@.len() > 0,
        r@.last().kind@ is Eof,
        r@[0].kind@ == lex_next(src.spec_bytes(), 0).0,
        r@[0].span == lex_next(src.spec_bytes(), 0).1,
        src.spec_bytes().len() <= u32::MAX ==> tokens_ordered(r@),
{
    let mut lx = Lexer::new(src);
    let n = src.as_bytes().len();
    let mut toks: Vec<Tok> = Vec::new();
    loop
        invariant
            lx.source() == src.spec_bytes(),
            n == lx.source().len(),
            lx.position() <= n,
            toks@.len() == 0 ==> lx.position() == 0,
            toks@.len() > 0 ==> toks@[0].kind@ == lex_next(src.spec_bytes(), 0).0 && toks@[0].span == lex_next(
                src.spec_bytes(),
                0,
            ).1,
            n <= u32::MAX ==> tokens_ordered(toks@),
            n <= u32::MAX ==> forall|j: int| 0 <= j < toks@.len() ==> (#[trigger] toks@[j]).span.end <= lx.position(),
            lx.position() == lex_pos(src.spec_bytes(), toks@.len() as nat),
            forall|j: int| 0 <= j < toks@.len() ==> (#[trigger] toks@[j]).kind@ == tok_kind_at(src.spec_bytes(), j as nat),
            forall|j: int| 0 <= j < toks@.len() ==> (#[trigger] toks@[j]).span == tok_span_at(src.spec_bytes(), j as nat),
        ensures
            forall|j: int| 0 <= j < toks@.len() ==> (#[trigger] toks@[j]).kind@ == tok_kind_at(src.spec_bytes(), j as nat),
            forall|j: int| 0 <= j < toks@.len() ==> (#[trigger] toks@[j]).span == tok_span_at(src.spec_bytes(), j as nat),
            n <= u32::MAX ==> tokens_ordered(toks@),
            toks@.len() > 0,
            toks@.last().kind@ is Eof,
            toks@[0].kind@ == lex_next(src.spec_bytes(), 0).0,
            toks@[0].span == lex_next(src.spec_bytes(), 0).1,
        decreases n - lx.position(),
    {
        let ghost p = lx.position();
        proof {
            crate::lexer::lemma_lex_progress(lx.source(), p);
            crate::lexer::lemma_lex_span(lx.source(), p);
        }
        let ghost before = toks@;
        let t = lx.next_tok();
        let is_eof = match t.kind {
            TokKind::Eof => true,
            _ => false,
        };
        toks.push(t);
        proof {
            assert(toks@.len() - 1 == before.len());
            assert forall|j: int| 0 <= j < toks@.len() implies (#[trigger] toks@[j]).kind@ == tok_kind_at(
                src.spec_bytes(),
                j as nat,
            ) && toks@[j].span == tok_span_at(src.spec_bytes(), j as nat) by {
                if j < before.len() {
                    assert(toks@[j] == before[j]);
                }
            }
            if n <= u32::MAX {
                let last = toks@.len() - 1;
                assert(toks@[last].span.start as nat == crate::lexer::skip_trivia(lx.source(), p));
                assert forall|j: int, k: int| 0 <= j < k < toks@.len() implies (#[trigger] toks@[j]).span.end <= (
                #[trigger] toks@[k]).span.start by {
                    if k == last {
                        assert(toks@[j] == before[j]);
                    } else {
                        assert(toks@[j] == before[j] && toks@[k] == before[k]);
                    }
                }
                assert forall|j: int| 0 <= j < toks@.len() implies (#[trigger] toks@[j]).span.end <= lx.position() by {
                    if j < last {
                        assert(toks@[j] == before[j]);
                    }
                }
                assert forall|j: int| 0 <= j < toks@.len() implies (#[trigger] toks@[j]).span.start
                    <= toks@[j].span.end by {
                    if j < last {
                        assert(toks@[j] == before[j]);
                    }
                }
            }
        }
        if is_eof && lx.offset() >= n {
            break;
        }
        proof {
            if crate::lexer::skip_trivia(lx.source(), p) >= n {
                crate::lexer::lemma_skip_trivia(lx.source(), p);
            }
        }
    }
    toks
}

impl Parser {
    /// A parser at the first token of a source text.
    fn new(src: &str) -> (r: Parser)
        ensures
            wf(r),
            r.pos == 0,
            r.depth == 0,
            cur_kind(r) == lex_next(src.spec_bytes(), 0).0,
            cur_span(r) == lex_next(src.spec_bytes(), 0).1,
            src.spec_bytes().len() <= u32::MAX ==> tokens_ordered(r.toks@),
            forall|j: int| 0 <= j < r.toks@.len() ==> (#[trigger] r.toks@[j]).kind@ == tok_kind_at(src.spec_bytes(), j as nat)
                && r.toks@[j].span == tok_span_at(src.spec_bytes(), j as nat),
    {
        Parser { toks: lex_all(src), pos: 0, depth: 0 }
    }

    /// The current token.
    fn cur(&self) -> (r: &Tok)
        requires
            wf(*self),
        ensures
            *r == self.toks@[self.pos as int],
    {
        &self.toks[self.pos]
    }

    /// Moves to the next token; at the final end-of-input token, stays.
    fn bump(&mut self)
        requires
            wf(*old(self)),
        ensures
            stepped(*old(self), *final(self)),
            final(self).depth == old(self).depth,
            final(self).pos <= old(self).pos + 1,
            !(cur_kind(*old(self)) is Eof) ==> final(self).pos == old(self).pos + 1,
    {
        if self.pos < self.toks.len() - 1 {
            self.pos = self.pos + 1;
        }
    }

    /// Whether the current token is of the same kind as `k`.
    fn at(&self, k: &TokKind) -> (r: bool)
        requires
            wf(*self),
        ensures
            r == (kind_tag(cur_kind(*self)) == kind_tag(k@)),
    {
        tag_of(&self.toks[self.pos].kind) == tag_of(k)
    }

    /// Enters one level of nesting, failing past the limit.
    fn enter_nesting(&mut self) -> (r: Result<(), ParseError>)
        requires
            old(self).depth <= MAX_NESTING_DEPTH,
        ensures
            final(self).toks@ == old(self).toks@,
            final(self).pos == old(self).pos,
            final(self).depth == old(self).depth + 1,
            r is Ok <==> old(self).depth + 1 <= MAX_NESTING_DEPTH,
            r matches Err(e) ==> e.message@ == nesting_message(),
    {
        self.depth = self.depth + 1;
        if self.depth > MAX_NESTING_DEPTH {
            let mut m = String::new();
            m.append("maximum nesting depth exceeded (limit: 512)");
            return Err(error_of(m));
        }
        Ok(())
    }

    /// Leaves one level of nesting.
    fn exit_nesting(&mut self)
        ensures
            final(self).toks@ == old(self).toks@,
            final(self).pos == old(self).pos,
            old(self).depth > 0 ==> final(self).depth == old(self).depth - 1,
            old(self).depth == 0 ==> final(self).depth == 0,
    {
        if self.depth > 0 {
            self.depth = self.depth - 1;
        }
    }

    /// Fails when the current token is a lexer error.
    fn check_lex_error(&self) -> (r: Result<(), ParseError>)
        requires
            wf(*self),
        ensures
            r is Err <==> cur_kind(*self) is Error,
            r matches Err(e) ==> e.message@ == lexer_error_message(cur_span(*self), cur_kind(*self)->Error_0),
    {
        let t = self.cur();
        match &t.kind {
            TokKind::Error(msg) => Err(self.lex_error(msg, t.span)),
            _ => Ok(()),
        }
    }

    /// The error for a lexer error token.
    fn lex_error(&self, msg: &String, span: Span) -> (r: ParseError)
        ensures
            r.message@ == lexer_error_message(span, msg@),
    {
        let mut m = String::new();
        m.append("Lexer error at ");
        push_span(&mut m, span);
        m.append(": ");
        m.append(msg.as_str());
        error_of(m)
    }

    /// Consumes a token of kind `k`, giving its span, or fails.
    fn expect(&mut self, k: TokKind) -> (r: Result<Span, ParseError>)
        requires
            wf(*old(self)),
            !(k@ is Eof),
            !(k@ is Error),
        ensures
            stepped(*old(self), *final(self)),
            final(self).depth == old(self).depth,
            r is Ok <==> kind_tag(cur_kind(*old(self))) == kind_tag(k@),
            r matches Ok(s) ==> s == cur_span(*old(self)) && final(self).pos == old(self).pos + 1,
            r is Err ==> final(self).pos == old(self).pos,
            r matches Err(e) ==> e.message@ == expect_message(k@, cur_kind(*old(self)), cur_span(*old(self))),
    {
        let t = self.cur();
        let span = t.span;
        match &t.kind {
            TokKind::Error(msg) => {
                return Err(self.lex_error(msg, span));
            },
            _ => {},
        }
        if self.at(&k) {
            self.bump();
            Ok(span)
        } else {
            let mut m = String::new();
            m.append("expected ");
            push_kind(&mut m, &k);
            m.append(", found ");
            push_kind(&mut m, &self.toks[self.pos].kind);
            m.append(" at ");
            push_span(&mut m, span);
            Err(error_of(m))
        }
    }

    /// Consumes an identifier.
    fn parse_ident(&mut self) -> (r: Result<Ident, ParseError>)
        requires
            wf(*old(self)),
        ensures
            stepped(*old(self), *final(self)),
            final(self).depth == old(self).depth,
            r is Ok <==> cur_kind(*old(self)) is Ident,
            r matches Ok(id) ==> cur_kind(*old(self)) == TokKindM::Ident(id.text@) && id.span == cur_span(
                *old(self),
            ) && final(self).pos == old(self).pos + 1,
            r is Err ==> final(self).pos == old(self).pos,
            r matches Err(e) ==> e.message@ == "expected identifier, found "@ + kind_text(cur_kind(*old(self))),
    {
        let t = self.cur();
        match &t.kind {
            TokKind::Ident(s) => {
                let id = Ident { text: s.clone(), span: t.span };
                self.bump();
                Ok(id)
            },
            _ => {
                let mut m = String::new();
                m.append("expected identifier, found ");
                push_kind(&mut m, &t.kind);
                Err(error_of(m))
            },
        }
    }
}

impl Parser {
    /// Parses an optional effect annotation `& { A, B }`, which may end with a
    /// comma; `& {}` gives no names. Without a leading `&` there is none.
    fn parse_effect_annotation(&mut self) -> (r: Result<Option<Vec<Ident>>, ParseError>)
        requires
            wf(*old(self)),
        ensures
            stepped(*old(self), *final(self)),
            final(self).depth == old(self).depth,
            !(cur_kind(*old(self)) is Ampersand) ==> (r matches Ok(None) && final(self).pos == old(self).pos),
            r matches Ok(Some(_)) ==> old(self).pos < final(self).pos,
            ahead(*old(self), 0) is Ampersand && ahead(*old(self), 1) is LBrace && ahead(*old(self), 2) is RBrace ==> (
            r matches Ok(Some(v)) && v@.len() == 0 && final(self).pos == old(self).pos + 3),
            ahead(*old(self), 0) is Ampersand && !(ahead(*old(self), 1) is LBrace) ==> r is Err,
    {
        if !self.at(&TokKind::Ampersand) {
            return Ok(None);
        }
        self.bump();
        self.expect(TokKind::LBrace)?;
        let mut effects: Vec<Ident> = Vec::new();
        if !self.at(&TokKind::RBrace) {
            let first = self.parse_ident()?;
            effects.push(first);
            while self.at(&TokKind::Comma)
                invariant
                    wf(*self),
                    self.toks@ == old(self).toks@,
                    old(self).pos < self.pos,
                    self.depth == old(self).depth,
                    cur_kind(*old(self)) is Ampersand,
                    !(ahead(*old(self), 0) is Ampersand && ahead(*old(self), 1) is LBrace && ahead(*old(self), 2) is RBrace),
                decreases self.toks@.len() - self.pos,
            {
                self.bump();
                if self.at(&TokKind::RBrace) {
                    break;
                }
                let id = self.parse_ident()?;
                effects.push(id);
            }
        }
        self.expect(TokKind::RBrace)?;
        Ok(Some(effects))
    }

    /// Parses a type: a function type `fn(A, B) -> R` with an optional effect
    /// annotation, whose span then ends at the last effect named; a tuple type
    /// `(A, B)`, where `()` is the empty tuple and a single type in brackets is
    /// that type; or a path `A::B`, with type arguments `<T, U>` making it an
    /// application. A reference type `&T` has no form in the syntax tree here,
    /// so `&` does not start a type.
    fn parse_type(&mut self) -> (r: Result<TypeExpr, ParseError>)
        requires
            wf(*old(self)),
        ensures
            stepped(*old(self), *final(self)),
            final(self).depth == old(self).depth,
            r is Ok ==> old(self).pos < final(self).pos,
            ahead(*old(self), 0) is Ident && !(ahead(*old(self), 1) is ColonColon) && !(ahead(*old(self), 1) is Lt) ==> (
            r matches Ok(TypeExpr::Path(segs, sp)) && segs@.len() == 1 && ahead(*old(self), 0) == TokKindM::Ident(
                segs@[0].text@,
            ) && segs@[0].span == cur_span(*old(self)) && sp == cur_span(*old(self)) && final(self).pos == old(self).pos + 1),
            ahead(*old(self), 0) is LParen && ahead(*old(self), 1) is RParen ==> (r matches Ok(TypeExpr::Tuple(ts, _))
                && ts@.len() == 0 && final(self).pos == old(self).pos + 2),
            ahead(*old(self), 0) is LParen && one_token_type(*old(self), 1) && ahead(*old(self), 2) is RParen ==> (r matches Ok(
                TypeExpr::Path(segs, _),
            ) && segs@.len() == 1 && final(self).pos == old(self).pos + 3),
            ahead(*old(self), 0) is LParen && one_token_type(*old(self), 1) && ahead(*old(self), 2) is Comma && one_token_type(
                *old(self),
                3,
            ) && ahead(*old(self), 4) is RParen ==> (r matches Ok(TypeExpr::Tuple(ts, _)) && ts@.len() == 2 && final(self).pos
                == old(self).pos + 5),
            ahead(*old(self), 0) is Ident && ahead(*old(self), 1) is Lt && one_token_type(*old(self), 2) && ahead(*old(self), 3)
                is Gt ==> (r matches Ok(TypeExpr::App { base, args, .. }) && base@.len() == 1 && args@.len() == 1
                && final(self).pos == old(self).pos + 4),
            !(ahead(*old(self), 0) is KwFn) && !(ahead(*old(self), 0) is LParen) && !(ahead(*old(self), 0) is Ident)
                ==> r is Err,
        decreases old(self).toks@.len() - old(self).pos,
    {
        let start = self.cur().span.start;
        if self.at(&TokKind::KwFn) {
            self.bump();
            self.expect(TokKind::LParen)?;
            let mut params: Vec<TypeExpr> = Vec::new();
            if !self.at(&TokKind::RParen) {
                let first = self.parse_type()?;
                params.push(first);
                while self.at(&TokKind::Comma)
                    invariant
                        wf(*self),
                        self.toks@ == old(self).toks@,
                        old(self).pos < self.pos,
                        self.depth == old(self).depth,
                        !(ahead(*old(self), 0) is Ident && !(ahead(*old(self), 1) is ColonColon) && !(ahead(*old(self), 1) is Lt)),
                        ahead(*old(self), 0) is KwFn,
                    decreases self.toks@.len() - self.pos,
                {
                    self.bump();
                    let t = self.parse_type()?;
                    params.push(t);
                }
            }
            self.expect(TokKind::RParen)?;
            self.expect(TokKind::Arrow)?;
            let ret = self.parse_type()?;
            let mut end = ret.span().end;
            let effects = self.parse_effect_annotation()?;
            match &effects {
                Some(effs) => {
                    if effs.len() > 0 {
                        end = effs[effs.len() - 1].span.end;
                    }
                },
                None => {},
            }
            return Ok(TypeExpr::Arrow { params, ret: Box::new(ret), effects, span: Span { start, end } });
        }
        if self.at(&TokKind::LParen) {
            self.bump();
            if self.at(&TokKind::RParen) {
                let close = self.expect(TokKind::RParen)?;
                return Ok(TypeExpr::Tuple(Vec::new(), Span { start, end: close.end }));
            }
            let first = self.parse_type()?;
            if self.at(&TokKind::RParen) {
                self.bump();
                return Ok(first);
            }
            let mut elems: Vec<TypeExpr> = Vec::new();
            elems.push(first);
            while self.at(&TokKind::Comma)
                invariant
                    wf(*self),
                    self.toks@ == old(self).toks@,
                    old(self).pos < self.pos,
                    self.depth == old(self).depth,
                    !(ahead(*old(self), 0) is Ident && !(ahead(*old(self), 1) is ColonColon) && !(ahead(*old(self), 1) is Lt)),
                    !(ahead(*old(self), 0) is LParen && ahead(*old(self), 1) is RParen),
                    !(ahead(*old(self), 0) is LParen && one_token_type(*old(self), 1) && ahead(*old(self), 2) is RParen),
                    ahead(*old(self), 0) is LParen,
                    (ahead(*old(self), 0) is LParen && one_token_type(*old(self), 1) && ahead(*old(self), 2) is Comma
                        && one_token_type(*old(self), 3) && ahead(*old(self), 4) is RParen) ==> ((self.pos == old(self).pos + 2
                        && elems@.len() == 1) || (self.pos == old(self).pos + 4 && elems@.len() == 2)),
                ensures
                    wf(*self),
                    self.toks@ == old(self).toks@,
                    old(self).pos < self.pos,
                    self.depth == old(self).depth,
                    (ahead(*old(self), 0) is LParen && one_token_type(*old(self), 1) && ahead(*old(self), 2) is Comma
                        && one_token_type(*old(self), 3) && ahead(*old(self), 4) is RParen) ==> (self.pos == old(self).pos + 4
                        && elems@.len() == 2),
                decreases self.toks@.len() - self.pos,
            {
                self.bump();
                if self.at(&TokKind::RParen) {
                    break;
                }
                let t = self.parse_type()?;
                elems.push(t);
            }
            let close = self.expect(TokKind::RParen)?;
            return Ok(TypeExpr::Tuple(elems, Span { start, end: close.end }));
        }
        let mut segs: Vec<Ident> = Vec::new();
        let first = self.parse_ident()?;
        segs.push(first);
        let ghost first_v = segs@[0];
        while self.at(&TokKind::ColonColon)
            invariant
                segs@.len() > 0 && segs@[0] == first_v,
                segs@.len() == 1 ==> segs@.last() == first_v,
                wf(*self),
                self.toks@ == old(self).toks@,
                old(self).pos < self.pos,
                self.depth == old(self).depth,
                segs@.len() > 0,
                self.pos == old(self).pos + 1 ==> segs@.len() == 1,
                ahead(*old(self), 0) is Ident && !(ahead(*old(self), 1) is ColonColon) ==> self.pos == old(self).pos + 1,
                !(ahead(*old(self), 0) is LParen),
                !(ahead(*old(self), 0) is KwFn),
            decreases self.toks@.len() - self.pos,
        {
            self.bump();
            let id = self.parse_ident()?;
            segs.push(id);
        }
        if self.at(&TokKind::Lt) {
            self.bump();
            let mut args: Vec<TypeExpr> = Vec::new();
            if !self.at(&TokKind::Gt) {
                let first_arg = self.parse_type()?;
                args.push(first_arg);
                while self.at(&TokKind::Comma)
                    invariant
                        wf(*self),
                        self.toks@ == old(self).toks@,
                        old(self).pos < self.pos,
                        self.depth == old(self).depth,
                        !(ahead(*old(self), 0) is Ident && !(ahead(*old(self), 1) is ColonColon) && !(ahead(*old(self), 1) is Lt)),
                        (ahead(*old(self), 0) is Ident && ahead(*old(self), 1) is Lt && one_token_type(*old(self), 2) && ahead(
                            *old(self),
                            3,
                        ) is Gt) ==> self.pos == old(self).pos + 3 && args@.len() == 1,
                        !(ahead(*old(self), 0) is LParen),
                    decreases self.toks@.len() - self.pos,
                {
                    self.bump();
                    let t = self.parse_type()?;
                    args.push(t);
                }
            }
            let close = self.expect(TokKind::Gt)?;
            return Ok(TypeExpr::App { base: segs, args, span: Span { start, end: close.end } });
        }
        let end = segs[segs.len() - 1].span.end;
        Ok(TypeExpr::Path(segs, Span { start, end }))
    }

    /// Parses a parameter `name` or `name: Type`.
    fn parse_param(&mut self) -> (r: Result<Param, ParseError>)
        requires
            wf(*old(self)),
        ensures
            stepped(*old(self), *final(self)),
            r is Ok ==> progressed(*old(self), *final(self)),
            final(self).depth == old(self).depth,
            ahead(*old(self), 0) is Ident && !(ahead(*old(self), 1) is Colon) ==> (r matches Ok(p) && p.ty is None
                && final(self).pos == old(self).pos + 1),
            !(ahead(*old(self), 0) is Ident) ==> r is Err,
    {
        let start = self.cur().span.start;
        let name = self.parse_ident()?;
        if self.at(&TokKind::Colon) {
            self.bump();
            let ty = self.parse_type()?;
            let end = ty.span().end;
            Ok(Param { name, ty: Some(ty), span: Span { start, end } })
        } else {
            let end = name.span.end;
            Ok(Param { name, ty: None, span: Span { start, end } })
        }
    }

    /// Parses parameters separated by commas, up to a closing bracket, which
    /// is left in place.
    fn parse_params(&mut self) -> (r: Result<Vec<Param>, ParseError>)
        requires
            wf(*old(self)),
        ensures
            stepped(*old(self), *final(self)),
            final(self).depth == old(self).depth,
            ahead(*old(self), 0) is RParen ==> (r matches Ok(v) && v@.len() == 0 && final(self).pos == old(self).pos),
            ahead(*old(self), 0) is Ident && !(ahead(*old(self), 1) is Colon) && !(ahead(*old(self), 1) is Comma) ==> (
            r matches Ok(v) && v@.len() == 1 && v@[0].ty is None && final(self).pos == old(self).pos + 1),
            !(ahead(*old(self), 0) is RParen) && !(ahead(*old(self), 0) is Ident) ==> r is Err,
    {
        let mut params: Vec<Param> = Vec::new();
        if self.at(&TokKind::RParen) {
            return Ok(params);
        }
        let first = self.parse_param()?;
        params.push(first);
        let ghost p1 = self.pos;
        while self.at(&TokKind::Comma)
            invariant
                wf(*self),
                self.toks@ == old(self).toks@,
                old(self).pos <= self.pos,
                self.depth == old(self).depth,
                p1 <= self.pos,
                p1 < self.toks@.len(),
                !(ahead(*old(self), 0) is RParen),
                (ahead(*old(self), 0) is Ident && !(ahead(*old(self), 1) is Colon)) ==> p1 == old(self).pos + 1 && (self.pos
                    == p1 ==> params@.len() == 1 && params@[0].ty is None),
                self.pos > p1 ==> self.toks@[p1 as int].kind@ is Comma,
            decreases self.toks@.len() - self.pos,
        {
            self.bump();
            let p = self.parse_param()?;
            params.push(p);
        }
        Ok(params)
    }

    /// Parses optional type parameters `<T, U>`.
    fn parse_type_params(&mut self) -> (r: Result<Vec<Ident>, ParseError>)
        requires
            wf(*old(self)),
        ensures
            stepped(*old(self), *final(self)),
            final(self).depth == old(self).depth,
            !(ahead(*old(self), 0) is Lt) ==> (r matches Ok(v) && v@.len() == 0 && final(self).pos == old(self).pos),
            ahead(*old(self), 0) is Lt && ahead(*old(self), 1) is Gt ==> (r matches Ok(v) && v@.len() == 0
                && final(self).pos == old(self).pos + 2),
            ahead(*old(self), 0) is Lt && ahead(*old(self), 1) is Ident && ahead(*old(self), 2) is Gt ==> (r matches Ok(v)
                && v@.len() == 1 && final(self).pos == old(self).pos + 3),
            ahead(*old(self), 0) is Lt && !(ahead(*old(self), 1) is Gt) && !(ahead(*old(self), 1) is Ident) ==> r is Err,
    {
        let mut params: Vec<Ident> = Vec::new();
        if !self.at(&TokKind::Lt) {
            return Ok(params);
        }
        self.bump();
        if !self.at(&TokKind::Gt) {
            let first = self.parse_ident()?;
            params.push(first);
            let ghost p1 = self.pos;
            while self.at(&TokKind::Comma)
                invariant
                    wf(*self),
                    self.toks@ == old(self).toks@,
                    old(self).pos <= self.pos,
                    self.depth == old(self).depth,
                    p1 <= self.pos,
                    p1 == old(self).pos + 2,
                    p1 < self.toks@.len(),
                    ahead(*old(self), 0) is Lt,
                    !(ahead(*old(self), 1) is Gt),
                    self.pos == p1 ==> params@.len() == 1,
                    self.pos > p1 ==> self.toks@[p1 as int].kind@ is Comma,
                decreases self.toks@.len() - self.pos,
            {
                self.bump();
                let id = self.parse_ident()?;
                params.push(id);
            }
        }
        self.expect(TokKind::Gt)?;
        Ok(params)
    }
}

/// A copy of an identifier.
fn copy_ident(id: &Ident) -> (r: Ident)
    ensures
        r.text@ == id.text@,
        r.span == id.span,
{
    Ident { text: id.text.clone(), span: id.span }
}

impl Parser {
    /// Parses a pattern, one level deeper.
    fn parse_pattern(&mut self) -> (r: Result<Pat, ParseError>)
        requires
            wf(*old(self)),
            old(self).depth <= MAX_NESTING_DEPTH,
        ensures
            stepped(*old(self), *final(self)),
            r is Ok ==> progressed(*old(self), *final(self)),
            old(self).depth < MAX_NESTING_DEPTH && lit_tok(ahead(*old(self), 0)) ==> (r matches Ok(p) && p is Literal
                && pat_of_token(p, ahead(*old(self), 0), cur_span(*old(self))) && final(self).pos == old(self).pos + 1),
            old(self).depth < MAX_NESTING_DEPTH && ahead(*old(self), 0) is Ident && !(ahead(*old(self), 1) is ColonColon)
                && !(ahead(*old(self), 1) is LParen) && !(ahead(*old(self), 1) is LBrace) ==> (r matches Ok(p) && (p is Ident
                || p is Wildcard) && pat_of_token(p, ahead(*old(self), 0), cur_span(*old(self))) && final(self).pos
                == old(self).pos + 1),
            old(self).depth < MAX_NESTING_DEPTH && ahead(*old(self), 0) is LParen && ahead(*old(self), 1) is RParen ==> (
            r matches Ok(Pat::Tuple(ps, _)) && ps@.len() == 0 && final(self).pos == old(self).pos + 2),
            old(self).depth + 1 < MAX_NESTING_DEPTH && ahead(*old(self), 0) is LParen && lit_tok(ahead(*old(self), 1))
                && ahead(*old(self), 2) is RParen ==> (r matches Ok(Pat::Literal(..)) && final(self).pos == old(self).pos + 3),
            old(self).depth + 1 < MAX_NESTING_DEPTH && ahead(*old(self), 0) is LParen && ahead(*old(self), 1) is Ident
                && ahead(*old(self), 2) is RParen ==> (r matches Ok(p) && (p is Ident || p is Wildcard) && final(self).pos
                == old(self).pos + 3),
            forall|n: nat| old(self).depth + 1 < MAX_NESTING_DEPTH && #[trigger] simple_tuple_at(*old(self), 0, n) ==> (r matches Ok(
                Pat::Tuple(ps, _),
            ) && ps@.len() == n && simple_tuple_pats(ps@, *old(self), 0) && final(self).pos == old(self).pos + 2 * n + 1),
            !(ahead(*old(self), 0) is LParen) && !lit_tok(ahead(*old(self), 0)) && !(ahead(*old(self), 0) is Ident) ==> r is Err,
        decreases old(self).toks@.len() - old(self).pos, 2nat,
    {
        self.enter_nesting()?;
        let ghost entered = *self;
        let result = self.parse_pattern_inner();
        self.exit_nesting();
        proof {
            assert forall|n: nat| old(self).depth + 1 < MAX_NESTING_DEPTH && #[trigger] simple_tuple_at(*old(self), 0, n) implies (
            result matches Ok(Pat::Tuple(ps, _)) && ps@.len() == n && simple_tuple_pats(ps@, *old(self), 0)
                && self.pos == old(self).pos + 2 * n + 1) by {
                assert forall|k: nat| #[trigger] ahead(entered, k) == ahead(*old(self), k) && ahead_span(entered, k) == ahead_span(
                    *old(self),
                    k,
                ) by {}
                assert(simple_tuple_at(entered, 0, n));
                let ps = result->Ok_0->Tuple_0;
                assert forall|i: int| 0 <= i < ps@.len() implies pat_of_token(#[trigger] ps@[i], ahead(*old(self), (0 + 2 * i + 1) as nat),
                    ahead_span(*old(self), (0 + 2 * i + 1) as nat)) by {
                    assert(pat_of_token(ps@[i], ahead(entered, (0 + 2 * i + 1) as nat), ahead_span(entered, (0 + 2 * i + 1) as nat)));
                }
            }
        }
        result
    }

    /// Parses a pattern: a tuple `(a, b)`, where `()` is the empty tuple and a
    /// single pattern in brackets is that pattern; a literal; `_`; a variable;
    /// or a path, which with `(..)` is a variant with fields, with `{..}` a
    /// struct pattern, and otherwise, when qualified, a variant without fields.
    fn parse_pattern_inner(&mut self) -> (r: Result<Pat, ParseError>)
        requires
            wf(*old(self)),
            1 <= old(self).depth <= MAX_NESTING_DEPTH,
        ensures
            stepped(*old(self), *final(self)),
            r is Ok ==> progressed(*old(self), *final(self)),
            lit_tok(ahead(*old(self), 0)) ==> (r matches Ok(p) && p is Literal && pat_of_token(p, ahead(*old(self), 0), cur_span(
                *old(self),
            )) && final(self).pos == old(self).pos + 1),
            ahead(*old(self), 0) is Ident && !(ahead(*old(self), 1) is ColonColon) && !(ahead(*old(self), 1) is LParen)
                && !(ahead(*old(self), 1) is LBrace) ==> (r matches Ok(p) && (p is Ident || p is Wildcard) && pat_of_token(
                p,
                ahead(*old(self), 0),
                cur_span(*old(self)),
            ) && final(self).pos == old(self).pos + 1),
            ahead(*old(self), 0) is LParen && ahead(*old(self), 1) is RParen ==> (r matches Ok(Pat::Tuple(ps, _))
                && ps@.len() == 0 && final(self).pos == old(self).pos + 2),
            old(self).depth < MAX_NESTING_DEPTH && ahead(*old(self), 0) is LParen && lit_tok(ahead(*old(self), 1)) && ahead(
                *old(self),
                2,
            ) is RParen ==> (r matches Ok(Pat::Literal(..)) && final(self).pos == old(self).pos + 3),
            old(self).depth < MAX_NESTING_DEPTH && ahead(*old(self), 0) is LParen && ahead(*old(self), 1) is Ident && ahead(
                *old(self),
                2,
            ) is RParen ==> (r matches Ok(p) && (p is Ident || p is Wildcard) && final(self).pos == old(self).pos + 3),
            forall|n: nat| old(self).depth < MAX_NESTING_DEPTH && #[trigger] simple_tuple_at(*old(self), 0, n) ==> (r matches Ok(
                Pat::Tuple(ps, _),
            ) && ps@.len() == n && simple_tuple_pats(ps@, *old(self), 0) && final(self).pos == old(self).pos + 2 * n + 1),
            !(ahead(*old(self), 0) is LParen) && !lit_tok(ahead(*old(self), 0)) && !(ahead(*old(self), 0) is Ident) ==> (
            r matches Err(e) && e.message@ == "unexpected token in pattern: "@ + kind_text(ahead(*old(self), 0))),
        decreases old(self).toks@.len() - old(self).pos, 1nat,
    {
        let start = self.cur().span.start;
        proof {
            assert forall|n: nat| #[trigger] simple_tuple_at(*old(self), 0, n) implies cur_kind(*old(self)) is LParen
                && !(ahead(*old(self), 1) is RParen) by {
                assert(ahead(*old(self), 0) is LParen);
                assert(lit_tok(ahead(*old(self), 0 + 2 * 0 + 1)) || ahead(*old(self), 0 + 2 * 0 + 1) is Ident);
            }
        }
        if self.at(&TokKind::LParen) {
            self.bump();
            if self.at(&TokKind::RParen) {
                let close = self.expect(TokKind::RParen)?;
                return Ok(Pat::Tuple(Vec::new(), Span { start, end: close.end }));
            }
            let ghost p1 = *self;
            proof {
                assert forall|n: nat| old(self).depth < MAX_NESTING_DEPTH && #[trigger] simple_tuple_at(*old(self), 0, n) implies
                    p1.pos == old(self).pos + 1 && (lit_tok(ahead(p1, 0)) || ahead(p1, 0) is Ident) && ahead(p1, 1) is Comma
                    && ahead(p1, 0) == ahead(*old(self), 1) by {
                    assert(lit_tok(ahead(*old(self), 0 + 2 * 0 + 1)) || ahead(*old(self), 0 + 2 * 0 + 1) is Ident);
                    assert(ahead(*old(self), 0 + 2 * 0 + 2) is Comma);
                }
            }
            let first = self.parse_pattern()?;
            proof {
                assert forall|n: nat| old(self).depth < MAX_NESTING_DEPTH && #[trigger] simple_tuple_at(*old(self), 0, n) implies
                    self.pos == old(self).pos + 2 && pat_of_token(first, ahead(*old(self), 1), ahead_span(*old(self), 1))
                    && ahead(*self, 0) is Comma by {
                    assert(lit_tok(ahead(*old(self), 0 + 2 * 0 + 1)) || ahead(*old(self), 0 + 2 * 0 + 1) is Ident);
                    assert(ahead(*old(self), 0 + 2 * 0 + 2) is Comma);
                    assert(ahead(p1, 1) == ahead(*old(self), 2));
                    assert(ahead(*self, 0) == ahead(*old(self), 2));
                }
            }
            if self.at(&TokKind::RParen) {
                self.bump();
                return Ok(first);
            }
            let mut elems: Vec<Pat> = Vec::new();
            elems.push(first);
            let mut closed = false;
            while !closed && self.at(&TokKind::Comma)
                invariant
                    forall|n: nat| old(self).depth < MAX_NESTING_DEPTH && #[trigger] simple_tuple_at(*old(self), 0, n) ==> !closed,
                    forall|n: nat| old(self).depth < MAX_NESTING_DEPTH && #[trigger] simple_tuple_at(*old(self), 0, n) ==> (self.pos
                        == old(self).pos + 2 * elems@.len() && 1 <= elems@.len() <= n && simple_tuple_pats(elems@, *old(self), 0)),
                    wf(*self),
                    self.toks@ == old(self).toks@,
                    old(self).pos < self.pos,
                    self.depth == old(self).depth,
                    1 <= self.depth <= MAX_NESTING_DEPTH,
                    !lit_tok(ahead(*old(self), 0)),
                    !(ahead(*old(self), 0) is LParen && ahead(*old(self), 1) is RParen),
                    ahead(*old(self), 0) is LParen || ahead(*old(self), 0) is Ident,
                    !(old(self).depth < MAX_NESTING_DEPTH && ahead(*old(self), 0) is LParen && (lit_tok(ahead(*old(self), 1)) || ahead(*old(self), 1) is Ident) && ahead(*old(self), 2) is RParen),
                    !(ahead(*old(self), 0) is Ident && !(ahead(*old(self), 1) is ColonColon) && !(ahead(*old(self), 1) is LParen) && !(ahead(*old(self), 1) is LBrace)),
                decreases self.toks@.len() - self.pos,
            {
                let ghost k = elems@.len();
                proof {
                    assert forall|n: nat| old(self).depth < MAX_NESTING_DEPTH && #[trigger] simple_tuple_at(*old(self), 0, n) implies k
                        < n by {
                        if k == n {
                            assert(ahead(*self, 0) == ahead(*old(self), 0 + 2 * n));
                        }
                    }
                }
                self.bump();
                proof {
                    assert forall|n: nat| old(self).depth < MAX_NESTING_DEPTH && #[trigger] simple_tuple_at(*old(self), 0, n) implies
                        self.pos == old(self).pos + 2 * k + 1 && (lit_tok(ahead(*self, 0)) || ahead(*self, 0) is Ident) && ahead(
                        *self,
                        0,
                    ) == ahead(*old(self), 2 * k + 1) && cur_span(*self) == ahead_span(*old(self), 2 * k + 1) && (ahead(*self, 1)
                        is Comma || ahead(*self, 1) is RParen) && (ahead(*self, 1) is RParen <==> k + 1 == n) by {
                        assert(lit_tok(ahead(*old(self), 0 + 2 * k + 1)) || ahead(*old(self), 0 + 2 * k + 1) is Ident);
                        assert(ahead(*self, 0) == ahead(*old(self), 2 * k + 1));
                        assert(ahead(*self, 1) == ahead(*old(self), 2 * k + 2));
                        if k + 1 < n {
                            assert(ahead(*old(self), 0 + 2 * k + 2) is Comma);
                        } else {
                            assert(ahead(*old(self), 0 + 2 * n) is RParen);
                        }
                    }
                }
                if self.at(&TokKind::RParen) {
                    closed = true;
                } else {
                let ghost before = elems@;
                proof {
                    assert(cur_kind(*self) == ahead(*self, 0));
                }
                let p = self.parse_pattern()?;
                elems.push(p);
                proof {
                    assert forall|n: nat| old(self).depth < MAX_NESTING_DEPTH && #[trigger] simple_tuple_at(*old(self), 0, n) implies (
                    self.pos == old(self).pos + 2 * elems@.len() && 1 <= elems@.len() <= n && simple_tuple_pats(
                        elems@,
                        *old(self),
                        0,
                    )) by {
                        assert forall|i: int| 0 <= i < elems@.len() implies pat_of_token(#[trigger] elems@[i], ahead(
                            *old(self),
                            (0 + 2 * i + 1) as nat,
                        ), ahead_span(*old(self), (0 + 2 * i + 1) as nat)) by {
                            if i < k {
                                assert(elems@[i] == before[i]);
                            }
                        }
                    }
                }
                }
            }
            proof {
                assert forall|n: nat| old(self).depth < MAX_NESTING_DEPTH && #[trigger] simple_tuple_at(*old(self), 0, n) implies
                    elems@.len() == n && ahead(*self, 0) is RParen by {
                    let k = elems@.len();
                    assert(ahead(*self, 0) == ahead(*old(self), 2 * k));
                    assert(cur_kind(*self) == ahead(*self, 0));
                    if k < n {
                        let i: nat = (k - 1) as nat;
                        assert(ahead(*old(self), 0 + 2 * i + 2) is Comma);
                    }
                }
            }
            let close = self.expect(TokKind::RParen)?;
            return Ok(Pat::Tuple(elems, Span { start, end: close.end }));
        }
        let span = self.cur().span;
        let lit = match &self.cur().kind {
            TokKind::Int(v) => Some(Lit::Int(*v)),
            TokKind::Float(t) => Some(Lit::Float(t.clone())),
            TokKind::Str(t) => Some(Lit::Str(t.clone())),
            TokKind::KwTrue => Some(Lit::Bool(true)),
            TokKind::KwFalse => Some(Lit::Bool(false)),
            TokKind::KwNil => Some(Lit::Nil),
            _ => None,
        };
        match lit {
            Some(l) => {
                self.bump();
                return Ok(Pat::Literal(l, span));
            },
            None => {},
        }
        let is_wildcard = match &self.cur().kind {
            TokKind::Ident(t) => crate::text::str_equals(t.as_str(), "_"),
            _ => false,
        };
        if is_wildcard {
            self.bump();
            return Ok(Pat::Wildcard(span));
        }
        if !self.at(&TokKind::Ident(String::new())) {
            let mut m = String::new();
            m.append("unexpected token in pattern: ");
            push_kind(&mut m, &self.toks[self.pos].kind);
            return Err(error_of(m));
        }
        let mut segs: Vec<Ident> = Vec::new();
        let first_seg = self.parse_ident()?;
        segs.push(first_seg);
        let ghost first_v = segs@[0];
        while self.at(&TokKind::ColonColon)
            invariant
                segs@.len() > 0 && segs@[0] == first_v,
                wf(*self),
                self.toks@ == old(self).toks@,
                old(self).pos < self.pos,
                self.depth == old(self).depth,
                segs@.len() > 0,
                self.pos == old(self).pos + 1 ==> segs@.len() == 1,
                self.pos > old(self).pos + 1 ==> ahead(*old(self), 1) is ColonColon,
                ahead(*old(self), 0) is Ident,
            decreases self.toks@.len() - self.pos,
        {
            self.bump();
            let id = self.parse_ident()?;
            segs.push(id);
        }
        let path_end = segs[segs.len() - 1].span.end;
        if self.at(&TokKind::LParen) {
            let path = Path { segments: segs, span: Span { start, end: path_end } };
            self.bump();
            let mut fields: Vec<Pat> = Vec::new();
            if !self.at(&TokKind::RParen) {
                let first = self.parse_pattern()?;
                fields.push(first);
                while self.at(&TokKind::Comma)
                    invariant
                        wf(*self),
                        self.toks@ == old(self).toks@,
                        old(self).pos < self.pos,
                        self.depth == old(self).depth,
                        1 <= self.depth <= MAX_NESTING_DEPTH,
                        forall|n: nat| !(#[trigger] simple_tuple_at(*old(self), 0, n)),
                    !lit_tok(ahead(*old(self), 0)),
                    !(ahead(*old(self), 0) is LParen && ahead(*old(self), 1) is RParen),
                    ahead(*old(self), 0) is LParen || ahead(*old(self), 0) is Ident,
                    !(old(self).depth < MAX_NESTING_DEPTH && ahead(*old(self), 0) is LParen && (lit_tok(ahead(*old(self), 1)) || ahead(*old(self), 1) is Ident) && ahead(*old(self), 2) is RParen),
                    !(ahead(*old(self), 0) is Ident && !(ahead(*old(self), 1) is ColonColon) && !(ahead(*old(self), 1) is LParen) && !(ahead(*old(self), 1) is LBrace)),
                    decreases self.toks@.len() - self.pos,
                {
                    self.bump();
                    if self.at(&TokKind::RParen) {
                        break;
                    }
                    let p = self.parse_pattern()?;
                    fields.push(p);
                }
            }
            let close = self.expect(TokKind::RParen)?;
            return Ok(Pat::Variant { path, fields, span: Span { start, end: close.end } });
        }
        if self.at(&TokKind::LBrace) {
            let path = Path { segments: segs, span: Span { start, end: path_end } };
            self.bump();
            let mut fields: Vec<PatField> = Vec::new();
            while !self.at(&TokKind::RBrace)
                invariant
                    wf(*self),
                    self.toks@ == old(self).toks@,
                    old(self).pos < self.pos,
                    self.depth == old(self).depth,
                    1 <= self.depth <= MAX_NESTING_DEPTH,
                    !lit_tok(ahead(*old(self), 0)),
                    forall|n: nat| !(#[trigger] simple_tuple_at(*old(self), 0, n)),
                    !(ahead(*old(self), 0) is LParen && ahead(*old(self), 1) is RParen),
                    ahead(*old(self), 0) is LParen || ahead(*old(self), 0) is Ident,
                    !(old(self).depth < MAX_NESTING_DEPTH && ahead(*old(self), 0) is LParen && (lit_tok(ahead(*old(self), 1)) || ahead(*old(self), 1) is Ident) && ahead(*old(self), 2) is RParen),
                    !(ahead(*old(self), 0) is Ident && !(ahead(*old(self), 1) is ColonColon) && !(ahead(*old(self), 1) is LParen) && !(ahead(*old(self), 1) is LBrace)),
                decreases self.toks@.len() - self.pos,
            {
                let field = self.parse_pat_field()?;
                fields.push(field);
                if self.at(&TokKind::Comma) {
                    self.bump();
                } else {
                    break;
                }
            }
            let close = self.expect(TokKind::RBrace)?;
            return Ok(Pat::Struct { path, fields, span: Span { start, end: close.end } });
        }
        if segs.len() == 1 {
            let id = segs.remove(0);
            return Ok(Pat::Ident(id));
        }
        let path = Path { segments: segs, span: Span { start, end: path_end } };
        Ok(Pat::Variant { path, fields: Vec::new(), span: Span { start, end: path_end } })
    }

    /// Parses a field of a struct pattern: `x: pat`, or `x` for `x: x`.
    fn parse_pat_field(&mut self) -> (r: Result<PatField, ParseError>)
        requires
            wf(*old(self)),
            1 <= old(self).depth <= MAX_NESTING_DEPTH,
        ensures
            stepped(*old(self), *final(self)),
            r is Ok ==> progressed(*old(self), *final(self)),
            ahead(*old(self), 0) is Ident && !(ahead(*old(self), 1) is Colon) ==> (r matches Ok(f) && f.pat is Ident
                && final(self).pos == old(self).pos + 1),
            !(ahead(*old(self), 0) is Ident) ==> r is Err,
        decreases old(self).toks@.len() - old(self).pos, 0nat,
    {
        let start = self.cur().span.start;
        let name = self.parse_ident()?;
        if self.at(&TokKind::Colon) {
            self.bump();
            let pat = self.parse_pattern()?;
            let end = pat.span().end;
            Ok(PatField { name, pat, span: Span { start, end } })
        } else {
            let end = name.span.end;
            let shorthand = Pat::Ident(copy_ident(&name));
            Ok(PatField { name, pat: shorthand, span: Span { start, end } })
        }
    }
}

/// The binary operator a token stands for, with its binding power on the
/// left and on the right.
fn infix_op(k: &TokKind) -> (r: Option<(BinOp, u8, u8)>)
    ensures
        r matches Some((op, l, rb)) ==> infix_level(k@) == Some(l as nat) && binop_level(op) == l && rb == l + 1,
        r is None ==> infix_level(k@) is None,
{
    match k {
        TokKind::OrOr => Some((BinOp::Or, 1, 2)),
        TokKind::AndAnd => Some((BinOp::And, 3, 4)),
        TokKind::EqEq => Some((BinOp::Eq, 5, 6)),
        TokKind::BangEq => Some((BinOp::Ne, 5, 6)),
        TokKind::Lt => Some((BinOp::Lt, 7, 8)),
        TokKind::Le => Some((BinOp::Le, 7, 8)),
        TokKind::Gt => Some((BinOp::Gt, 7, 8)),
        TokKind::Ge => Some((BinOp::Ge, 7, 8)),
        TokKind::Plus => Some((BinOp::Add, 10, 11)),
        TokKind::Minus => Some((BinOp::Sub, 10, 11)),
        TokKind::Star => Some((BinOp::Mul, 20, 21)),
        TokKind::Slash => Some((BinOp::Div, 20, 21)),
        _ => None,
    }
}

/// Whether an identifier starts with an upper-case ASCII letter, as type
/// names do.
fn starts_upper(id: &Ident) -> (r: bool)
    ensures
        r == (id.text@.len() > 0 && 'A' <= id.text@[0] && id.text@[0] <= 'Z'),
{
    let t = id.text.as_str();
    if t.unicode_len() == 0 {
        return false;
    }
    let c = t.get_char(0);
    'A' <= c && c <= 'Z'
}

impl Parser {
    /// Parses an expression whose binary operators bind at least as tightly
    /// as `min_bp`: a prefix expression, then calls and binary operators.
    /// An operator takes as its right operand what binds more tightly than
    /// itself, so operators of one level group to the left.
    fn parse_expr_bp(&mut self, min_bp: u8) -> (r: Result<Expr, ParseError>)
        requires
            wf(*old(self)),
            old(self).depth <= MAX_NESTING_DEPTH,
            min_bp <= 100,
        ensures
            stepped(*old(self), *final(self)),
            r is Ok ==> progressed(*old(self), *final(self)),
            r matches Ok(e) ==> grouped(e) && expr_level(e) >= min_bp && !(cur_kind(*final(self)) is LParen) && (
            infix_level(cur_kind(*final(self))) matches Some(l) ==> l < min_bp),
            r matches Ok(e) ==> spans_tokens(*old(self), *final(self), expr_span(e)),
            lit_tok(ahead(*old(self), 0)) && ends_expr(ahead(*old(self), 1)) ==> (r matches Ok(e) && lit_of_token(
                e,
                ahead(*old(self), 0),
                cur_span(*old(self)),
            ) && final(self).pos == old(self).pos + 1),
            ahead(*old(self), 0) is Ident && !(ahead(*old(self), 1) is ColonColon) && !(ahead(*old(self), 1) is LBrace)
                && ends_expr(ahead(*old(self), 1)) ==> (r matches Ok(e) && var_of_token(e, ahead(*old(self), 0), cur_span(
                *old(self),
            )) && final(self).pos == old(self).pos + 1),
        decreases old(self).toks@.len() - old(self).pos, 9nat,
    {
        let mut lhs = self.parse_prefix()?;
        loop
            invariant
                wf(*self),
                self.toks@ == old(self).toks@,
                old(self).pos < self.pos,
                self.depth == old(self).depth,
                self.depth <= MAX_NESTING_DEPTH,
                min_bp <= 100,
                grouped(lhs),
                expr_level(lhs) >= min_bp,
                lhs is Binary ==> !(cur_kind(*self) is LParen) && (infix_level(cur_kind(*self)) matches Some(l) ==> l
                    <= expr_level(lhs)),
                spans_tokens(*old(self), *self, expr_span(lhs)),
                (lit_tok(ahead(*old(self), 0)) || (ahead(*old(self), 0) is Ident && !(ahead(*old(self), 1) is ColonColon)
                    && !(ahead(*old(self), 1) is LBrace))) && ends_expr(ahead(*old(self), 1)) ==> self.pos == old(self).pos
                    + 1 && (lit_tok(ahead(*old(self), 0)) ==> lit_of_token(lhs, ahead(*old(self), 0), cur_span(*old(self))))
                    && (ahead(*old(self), 0) is Ident ==> var_of_token(lhs, ahead(*old(self), 0), cur_span(*old(self)))),
            ensures
                spans_tokens(*old(self), *self, expr_span(lhs)),
                (lit_tok(ahead(*old(self), 0)) || (ahead(*old(self), 0) is Ident && !(ahead(*old(self), 1) is ColonColon)
                    && !(ahead(*old(self), 1) is LBrace))) && ends_expr(ahead(*old(self), 1)) ==> self.pos == old(self).pos
                    + 1 && (lit_tok(ahead(*old(self), 0)) ==> lit_of_token(lhs, ahead(*old(self), 0), cur_span(*old(self))))
                    && (ahead(*old(self), 0) is Ident ==> var_of_token(lhs, ahead(*old(self), 0), cur_span(*old(self)))),
                wf(*self),
                self.toks@ == old(self).toks@,
                old(self).pos < self.pos,
                self.depth == old(self).depth,
                grouped(lhs),
                expr_level(lhs) >= min_bp,
                !(cur_kind(*self) is LParen),
                infix_level(cur_kind(*self)) matches Some(l) ==> l < min_bp,
            decreases self.toks@.len() - self.pos,
        {
            if self.at(&TokKind::LParen) {
                let start = lhs.span().start;
                let (args, end) = self.parse_call_args()?;
                let callee = lhs;
                lhs = Expr::Call { callee: Box::new(callee), args, span: Span { start, end } };
                continue;
            }
            match infix_op(&self.toks[self.pos].kind) {
                None => {
                    break;
                },
                Some((op, lbp, rbp)) => {
                    if lbp < min_bp {
                        break;
                    }
                    self.bump();
                    let rhs = self.parse_expr_bp(rbp)?;
                    let start = lhs.span().start;
                    let end = rhs.span().end;
                    let left = lhs;
                    lhs = Expr::Binary { lhs: Box::new(left), op, rhs: Box::new(rhs), span: Span { start, end } };
                },
            }
        }
        Ok(lhs)
    }

    /// Parses a prefix expression: `!` or `-` applied to what binds more
    /// tightly than any binary operator, a literal, a variable, a path (a
    /// struct expression when braces follow it, as they do an unqualified
    /// name that starts with an upper-case letter), brackets, a block, an
    /// `if`, a `while` or a `match`. A lexer error token is reported as such;
    /// `&` starts no expression here, as the syntax tree has no borrow.
    fn parse_prefix(&mut self) -> (r: Result<Expr, ParseError>)
        requires
            wf(*old(self)),
            old(self).depth <= MAX_NESTING_DEPTH,
        ensures
            stepped(*old(self), *final(self)),
            r is Ok ==> progressed(*old(self), *final(self)),
            r matches Ok(e) ==> grouped(e) && !(e is Binary),
            r matches Ok(e) ==> spans_tokens(*old(self), *final(self), expr_span(e)),
            lit_tok(ahead(*old(self), 0)) ==> (r matches Ok(e) && lit_of_token(e, ahead(*old(self), 0), cur_span(*old(self)))
                && final(self).pos == old(self).pos + 1),
            ahead(*old(self), 0) is Ident && !(ahead(*old(self), 1) is ColonColon) && !(ahead(*old(self), 1) is LBrace) ==> (
            r matches Ok(e) && var_of_token(e, ahead(*old(self), 0), cur_span(*old(self))) && final(self).pos == old(self).pos
                + 1),
            ahead(*old(self), 0) is KwIf ==> (r matches Ok(e) ==> e is If),
            ahead(*old(self), 0) is KwWhile ==> (r matches Ok(e) ==> e is While),
            ahead(*old(self), 0) is KwMatch ==> (r matches Ok(e) ==> e is Match),
            ahead(*old(self), 0) is LBrace ==> (r matches Ok(e) ==> e is Block),
            old(self).depth < MAX_NESTING_DEPTH && ahead(*old(self), 0) is LBrace && ahead(*old(self), 1) is RBrace ==> (r matches Ok(
                Expr::Block(b),
            ) && b.stmts@.len() == 0 && b.tail is None && final(self).pos == old(self).pos + 2),
            old(self).depth + 1 < MAX_NESTING_DEPTH && ahead(*old(self), 0) is KwIf && lit_tok(ahead(*old(self), 1)) && ahead(
                *old(self),
                2,
            ) is LBrace && ahead(*old(self), 3) is RBrace && !(ahead(*old(self), 4) is KwElse) ==> (r matches Ok(Expr::If {
                else_,
                ..
            }) && else_ is None && final(self).pos == old(self).pos + 4),
            old(self).depth + 1 < MAX_NESTING_DEPTH && ahead(*old(self), 0) is KwWhile && lit_tok(ahead(*old(self), 1)) && ahead(
                *old(self),
                2,
            ) is LBrace && ahead(*old(self), 3) is RBrace ==> (r matches Ok(Expr::While { body, .. }) && body.stmts@.len() == 0
                && final(self).pos == old(self).pos + 4),
            old(self).depth + 1 <= MAX_NESTING_DEPTH && ahead(*old(self), 0) is KwMatch && lit_tok(ahead(*old(self), 1)) && ahead(
                *old(self),
                2,
            ) is LBrace && ahead(*old(self), 3) is RBrace ==> (r matches Ok(Expr::Match { arms, .. }) && arms@.len() == 0
                && final(self).pos == old(self).pos + 4),
            ahead(*old(self), 0) is Bang ==> (r matches Ok(e) ==> (e matches Expr::Unary { op, .. } && op == UnOp::Not)),
            ahead(*old(self), 0) is Minus ==> (r matches Ok(e) ==> (e matches Expr::Unary { op, .. } && op == UnOp::Neg)),
            !(ahead(*old(self), 0) is Bang) && !(ahead(*old(self), 0) is Minus) && !lit_tok(ahead(*old(self), 0)) && !(ahead(*old(self), 0) is Ident) && !(ahead(*old(self), 0) is LParen) && !(ahead(*old(self), 0) is LBrace) && !(ahead(*old(self), 0) is KwIf)
                && !(ahead(*old(self), 0) is KwWhile) && !(ahead(*old(self), 0) is KwMatch) ==> r is Err,
        decreases old(self).toks@.len() - old(self).pos, 8nat,
    {
        let tok_span = self.cur().span;
        if self.at(&TokKind::Bang) || self.at(&TokKind::Minus) {
            let op = if self.at(&TokKind::Bang) {
                UnOp::Not
            } else {
                UnOp::Neg
            };
            self.enter_nesting()?;
            self.bump();
            let result = self.parse_expr_bp(100);
            self.exit_nesting();
            let inner = result?;
            let end = inner.span().end;
            return Ok(Expr::Unary { op, expr: Box::new(inner), span: Span { start: tok_span.start, end } });
        }
        let lit = match &self.cur().kind {
            TokKind::Int(v) => Some(Lit::Int(*v)),
            TokKind::Float(t) => Some(Lit::Float(t.clone())),
            TokKind::Str(t) => Some(Lit::Str(t.clone())),
            TokKind::KwTrue => Some(Lit::Bool(true)),
            TokKind::KwFalse => Some(Lit::Bool(false)),
            TokKind::KwNil => Some(Lit::Nil),
            _ => None,
        };
        match lit {
            Some(l) => {
                self.bump();
                return Ok(Expr::Lit(l, tok_span));
            },
            None => {},
        }
        if self.at(&TokKind::Ident(String::new())) {
            let start = tok_span.start;
            let first_id = self.parse_ident()?;
            if self.at(&TokKind::ColonColon) {
                let mut segs: Vec<Ident> = Vec::new();
                segs.push(first_id);
                while self.at(&TokKind::ColonColon)
                    invariant
                        wf(*self),
                        self.toks@ == old(self).toks@,
                        old(self).pos < self.pos,
                        self.depth == old(self).depth,
                        segs@.len() > 0,
                        segs@.last().span == self.toks@[self.pos - 1].span,
                        ahead(*old(self), 0) is Ident,
                        ahead(*old(self), 1) is ColonColon,
                    decreases self.toks@.len() - self.pos,
                {
                    self.bump();
                    let id = self.parse_ident()?;
                    segs.push(id);
                }
                let path_end = segs[segs.len() - 1].span.end;
                let path = Path { segments: segs, span: Span { start, end: path_end } };
                if self.at(&TokKind::LBrace) {
                    return self.parse_struct_expr(path);
                }
                return Ok(Expr::PathExpr(path));
            }
            if self.at(&TokKind::LBrace) && starts_upper(&first_id) {
                let mut segs: Vec<Ident> = Vec::new();
                segs.push(first_id);
                let path = Path { segments: segs, span: Span { start, end: start.wrapping_add(1) } };
                return self.parse_struct_expr(path);
            }
            return Ok(Expr::Var(first_id));
        }
        if self.at(&TokKind::LParen) {
            self.enter_nesting()?;
            let result = self.parse_paren_or_tuple();
            self.exit_nesting();
            return result;
        }
        if self.at(&TokKind::LBrace) {
            let block = self.parse_block()?;
            return Ok(Expr::Block(block));
        }
        if self.at(&TokKind::KwIf) {
            self.enter_nesting()?;
            let e = self.parse_if();
            self.exit_nesting();
            return e;
        }
        if self.at(&TokKind::KwWhile) {
            self.enter_nesting()?;
            let e = self.parse_while();
            self.exit_nesting();
            return e;
        }
        if self.at(&TokKind::KwMatch) {
            self.enter_nesting()?;
            let e = self.parse_match();
            self.exit_nesting();
            return e;
        }
        match &self.toks[self.pos].kind {
            TokKind::Error(msg) => Err(self.lex_error(msg, tok_span)),
            k => {
                let mut m = String::new();
                m.append("unexpected token in expression: ");
                push_kind(&mut m, k);
                Err(error_of(m))
            },
        }
    }

    /// Parses brackets at `(`: `()` and `(a, b)` are tuples, which may end
    /// with a comma; `(a)` is a parenthesized expression.
    fn parse_paren_or_tuple(&mut self) -> (r: Result<Expr, ParseError>)
        requires
            wf(*old(self)),
            old(self).depth <= MAX_NESTING_DEPTH,
            cur_kind(*old(self)) is LParen,
        ensures
            stepped(*old(self), *final(self)),
            r is Ok ==> progressed(*old(self), *final(self)),
            r matches Ok(e) ==> grouped(e) && !(e is Binary),
            r matches Ok(e) ==> spans_tokens(*old(self), *final(self), expr_span(e)),
            ahead(*old(self), 1) is RParen ==> (r matches Ok(Expr::Tuple { elems, .. }) && elems@.len() == 0 && final(self).pos == old(self).pos + 2),
            lit_tok(ahead(*old(self), 1)) && ahead(*old(self), 2) is RParen ==> (r matches Ok(Expr::Paren { .. }) && final(self).pos == old(self).pos + 3),
        decreases old(self).toks@.len() - old(self).pos, 5nat,
    {
        let start = self.cur().span.start;
        self.bump();
        if self.at(&TokKind::RParen) {
            let close = self.expect(TokKind::RParen)?;
            return Ok(Expr::Tuple { elems: Vec::new(), span: Span { start, end: close.end } });
        }
        let first = self.parse_expr_bp(0)?;
        if self.at(&TokKind::Comma) {
            let mut elems: Vec<Expr> = Vec::new();
            elems.push(first);
            while self.at(&TokKind::Comma)
                invariant
                    wf(*self),
                    self.toks@ == old(self).toks@,
                    old(self).pos < self.pos,
                    self.depth == old(self).depth,
                    self.depth <= MAX_NESTING_DEPTH,
                    forall|i: int| 0 <= i < elems@.len() ==> grouped(#[trigger] elems@[i]),
                    !(ahead(*old(self), 1) is RParen),
                    !(lit_tok(ahead(*old(self), 1)) && ahead(*old(self), 2) is RParen),
                decreases self.toks@.len() - self.pos,
            {
                self.bump();
                if self.at(&TokKind::RParen) {
                    break;
                }
                let e = self.parse_expr_bp(0)?;
                elems.push(e);
            }
            let close = self.expect(TokKind::RParen)?;
            Ok(Expr::Tuple { elems, span: Span { start, end: close.end } })
        } else {
            let close = self.expect(TokKind::RParen)?;
            Ok(Expr::Paren { inner: Box::new(first), span: Span { start, end: close.end } })
        }
    }

    /// Parses call arguments `(a, b)` and gives the end of the closing bracket.
    fn parse_call_args(&mut self) -> (r: Result<(Vec<Expr>, u32), ParseError>)
        requires
            wf(*old(self)),
            old(self).depth <= MAX_NESTING_DEPTH,
        ensures
            stepped(*old(self), *final(self)),
            r is Ok ==> progressed(*old(self), *final(self)),
            r matches Ok((args, _)) ==> forall|i: int| 0 <= i < args@.len() ==> grouped(#[trigger] args@[i]),
            r matches Ok((_, end)) ==> end == final(self).toks@[final(self).pos - 1].span.end,
            ahead(*old(self), 0) is LParen && ahead(*old(self), 1) is RParen ==> (r matches Ok((args, _)) && args@.len() == 0
                && final(self).pos == old(self).pos + 2),
            !(ahead(*old(self), 0) is LParen) ==> r is Err,
        decreases old(self).toks@.len() - old(self).pos, 5nat,
    {
        self.expect(TokKind::LParen)?;
        let mut args: Vec<Expr> = Vec::new();
        if !self.at(&TokKind::RParen) {
            loop
                invariant
                    wf(*self),
                    self.toks@ == old(self).toks@,
                    old(self).pos < self.pos,
                    self.depth == old(self).depth,
                    self.depth <= MAX_NESTING_DEPTH,
                    forall|i: int| 0 <= i < args@.len() ==> grouped(#[trigger] args@[i]),
                    !(ahead(*old(self), 0) is LParen && ahead(*old(self), 1) is RParen),
                decreases self.toks@.len() - self.pos,
            {
                let e = self.parse_expr_bp(0)?;
                args.push(e);
                if self.at(&TokKind::Comma) {
                    self.bump();
                    continue;
                }
                break;
            }
        }
        let close = self.expect(TokKind::RParen)?;
        Ok((args, close.end))
    }

    /// Parses the fields of a struct expression after its path:
    /// `{ x: 1, y }`, where `y` stands for `y: y`.
    fn parse_struct_expr(&mut self, path: Path) -> (r: Result<Expr, ParseError>)
        requires
            wf(*old(self)),
            old(self).depth <= MAX_NESTING_DEPTH,
        ensures
            stepped(*old(self), *final(self)),
            r is Ok ==> progressed(*old(self), *final(self)),
            r matches Ok(e) ==> grouped(e) && !(e is Binary),
            r matches Ok(e) ==> expr_span(e).start == path.span.start && expr_span(e).end == final(self).toks@[
                final(self).pos - 1
            ].span.end,
            ahead(*old(self), 0) is LBrace && ahead(*old(self), 1) is RBrace ==> (r matches Ok(Expr::StructExpr { fields, .. })
                && fields@.len() == 0 && final(self).pos == old(self).pos + 2),
            !(ahead(*old(self), 0) is LBrace) ==> r is Err,
        decreases old(self).toks@.len() - old(self).pos, 5nat,
    {
        let start = path.span.start;
        self.expect(TokKind::LBrace)?;
        let mut fields: Vec<FieldInit> = Vec::new();
        while !self.at(&TokKind::RBrace)
            invariant
                wf(*self),
                self.toks@ == old(self).toks@,
                old(self).pos < self.pos,
                self.depth == old(self).depth,
                self.depth <= MAX_NESTING_DEPTH,
                forall|i: int| 0 <= i < fields@.len() ==> grouped(#[trigger] fields@[i].value),
                self.pos == old(self).pos + 1 ==> fields@.len() == 0,
                self.pos > old(self).pos + 1 ==> !(ahead(*old(self), 1) is RBrace),
            ensures
                wf(*self),
                self.toks@ == old(self).toks@,
                old(self).pos < self.pos,
                self.depth == old(self).depth,
                self.depth <= MAX_NESTING_DEPTH,
                forall|i: int| 0 <= i < fields@.len() ==> grouped(#[trigger] fields@[i].value),
                self.pos == old(self).pos + 1 ==> fields@.len() == 0 && ahead(*old(self), 1) is RBrace,
                self.pos > old(self).pos + 1 ==> !(ahead(*old(self), 1) is RBrace),
            decreases self.toks@.len() - self.pos,
        {
            let field_start = self.cur().span.start;
            let name = self.parse_ident()?;
            if self.at(&TokKind::Colon) {
                self.bump();
                let value = self.parse_expr_bp(0)?;
                let end = value.span().end;
                fields.push(FieldInit { name, value, span: Span { start: field_start, end } });
            } else {
                let end = name.span.end;
                let value = Expr::Var(copy_ident(&name));
                fields.push(FieldInit { name, value, span: Span { start: field_start, end } });
            }
            if self.at(&TokKind::Comma) {
                self.bump();
            } else {
                break;
            }
        }
        let close = self.expect(TokKind::RBrace)?;
        Ok(Expr::StructExpr { path, fields, span: Span { start, end: close.end } })
    }

    /// Parses a block, one level deeper.
    fn parse_block(&mut self) -> (r: Result<Block, ParseError>)
        requires
            wf(*old(self)),
            old(self).depth <= MAX_NESTING_DEPTH,
        ensures
            stepped(*old(self), *final(self)),
            r is Ok ==> progressed(*old(self), *final(self)),
            r matches Ok(b) ==> block_grouped(b),
            r matches Ok(b) ==> spans_tokens(*old(self), *final(self), b.span),
            old(self).depth < MAX_NESTING_DEPTH && ahead(*old(self), 0) is LBrace && ahead(*old(self), 1) is RBrace ==> (
            r matches Ok(b) && b.stmts@.len() == 0 && b.tail is None && final(self).pos == old(self).pos + 2),
            !(ahead(*old(self), 0) is LBrace) ==> r is Err,
        decreases old(self).toks@.len() - old(self).pos, 7nat,
    {
        self.enter_nesting()?;
        let result = self.parse_block_inner();
        self.exit_nesting();
        result
    }

    /// Parses a block `{ stmt* tail? }`: `let` and `return` statements,
    /// assignments `x = e;` to a variable, expression statements `e;`, and a
    /// final expression without a semicolon before the closing brace.
    fn parse_block_inner(&mut self) -> (r: Result<Block, ParseError>)
        requires
            wf(*old(self)),
            old(self).depth <= MAX_NESTING_DEPTH,
        ensures
            stepped(*old(self), *final(self)),
            r is Ok ==> progressed(*old(self), *final(self)),
            r matches Ok(b) ==> block_grouped(b),
            r matches Ok(b) ==> spans_tokens(*old(self), *final(self), b.span),
            ahead(*old(self), 0) is LBrace && ahead(*old(self), 1) is RBrace ==> (r matches Ok(b) && b.stmts@.len() == 0
                && b.tail is None && final(self).pos == old(self).pos + 2),
            !(ahead(*old(self), 0) is LBrace) ==> r is Err,
        decreases old(self).toks@.len() - old(self).pos, 6nat,
    {
        let start = self.cur().span.start;
        self.expect(TokKind::LBrace)?;
        let mut stmts: Vec<Stmt> = Vec::new();
        let mut tail: Option<Box<Expr>> = None;
        loop
            invariant
                wf(*self),
                self.toks@ == old(self).toks@,
                old(self).pos < self.pos,
                self.depth == old(self).depth,
                self.depth <= MAX_NESTING_DEPTH,
                forall|i: int| 0 <= i < stmts@.len() ==> stmt_grouped(#[trigger] stmts@[i]),
                tail matches Some(t) ==> grouped(*t),
                self.pos == old(self).pos + 1 ==> stmts@.len() == 0 && tail is None,
                self.pos > old(self).pos + 1 ==> !(ahead(*old(self), 1) is RBrace),
            ensures
                wf(*self),
                self.toks@ == old(self).toks@,
                old(self).pos < self.pos,
                self.depth == old(self).depth,
                forall|i: int| 0 <= i < stmts@.len() ==> stmt_grouped(#[trigger] stmts@[i]),
                tail matches Some(t) ==> grouped(*t),
                self.pos == old(self).pos + 1 ==> stmts@.len() == 0 && tail is None,
                self.pos > old(self).pos + 1 ==> !(ahead(*old(self), 1) is RBrace),
            decreases self.toks@.len() - self.pos,
        {
            if self.at(&TokKind::RBrace) {
                break;
            }
            if self.at(&TokKind::KwLet) {
                let st = self.parse_let_stmt()?;
                stmts.push(st);
            } else if self.at(&TokKind::KwReturn) {
                let st = self.parse_return_stmt()?;
                stmts.push(st);
            } else {
                let expr = self.parse_expr_bp(0)?;
                let expr_start = expr.span().start;
                if self.at(&TokKind::Eq) {
                    let target = match expr {
                        Expr::Var(id) => id,
                        _ => {
                            let mut m = String::new();
                            m.append("assignment target must be a variable");
                            return Err(error_of(m));
                        },
                    };
                    self.bump();
                    let value = self.parse_expr_bp(0)?;
                    let semi = self.expect(TokKind::Semicolon)?;
                    stmts.push(Stmt::Assign { target, value, span: Span { start: expr_start, end: semi.end } });
                } else if self.at(&TokKind::Semicolon) {
                    let semi_end = self.cur().span.end;
                    self.bump();
                    stmts.push(Stmt::Expr { expr, span: Span { start: expr_start, end: semi_end } });
                } else if self.at(&TokKind::RBrace) {
                    tail = Some(Box::new(expr));
                    break;
                } else {
                    let mut m = String::new();
                    m.append("expected ';', '=', or '}' after expression, found ");
                    push_kind(&mut m, &self.toks[self.pos].kind);
                    return Err(error_of(m));
                }
            }
        }
        let close = self.expect(TokKind::RBrace)?;
        Ok(Block { stmts, tail, span: Span { start, end: close.end } })
    }

    /// Parses `let [mut] pattern [: Type] = expr;`; a type annotation, or
    /// `mut`, is refused on a pattern that is not a variable.
    fn parse_let_stmt(&mut self) -> (r: Result<Stmt, ParseError>)
        requires
            wf(*old(self)),
            old(self).depth <= MAX_NESTING_DEPTH,
        ensures
            stepped(*old(self), *final(self)),
            r is Ok ==> progressed(*old(self), *final(self)),
            r matches Ok(st) ==> stmt_grouped(st) && st is Let,
            r matches Ok(st) ==> spans_tokens(*old(self), *final(self), stmt_span(st)),
            r matches Ok(Stmt::Let { mutable, pat, ty, .. }) ==> ((mutable || ty is Some) ==> pat is Ident),
            old(self).depth < MAX_NESTING_DEPTH && ahead(*old(self), 0) is KwLet && ahead(*old(self), 1) is Ident && ahead(*old(self), 2) is Eq && lit_tok(ahead(*old(self), 3)) && ahead(*old(self), 4) is Semicolon ==> (r matches Ok(Stmt::Let {
                mutable,
                ty,
                value,
                ..
            }) && !mutable && ty is None && value is Lit && final(self).pos == old(self).pos + 5),
            !(ahead(*old(self), 0) is KwLet) ==> r is Err,
        decreases old(self).toks@.len() - old(self).pos, 5nat,
    {
        let start = self.cur().span.start;
        self.expect(TokKind::KwLet)?;
        let mutable = if self.at(&TokKind::KwMut) {
            self.bump();
            true
        } else {
            false
        };
        let pat = self.parse_pattern()?;
        let is_ident = match &pat {
            Pat::Ident(_) => true,
            _ => false,
        };
        let ty = if self.at(&TokKind::Colon) {
            if !is_ident {
                let mut m = String::new();
                m.append("type annotations not supported for destructuring patterns");
                return Err(error_of(m));
            }
            self.bump();
            let t = self.parse_type()?;
            Some(t)
        } else {
            None
        };
        if mutable && !is_ident {
            let mut m = String::new();
            m.append("`mut` not supported for destructuring patterns");
            return Err(error_of(m));
        }
        self.expect(TokKind::Eq)?;
        let value = self.parse_expr_bp(0)?;
        let semi = self.expect(TokKind::Semicolon)?;
        Ok(Stmt::Let { mutable, pat, ty, value, span: Span { start, end: semi.end } })
    }

    /// Parses `return;` or `return expr;`.
    fn parse_return_stmt(&mut self) -> (r: Result<Stmt, ParseError>)
        requires
            wf(*old(self)),
            old(self).depth <= MAX_NESTING_DEPTH,
        ensures
            stepped(*old(self), *final(self)),
            r is Ok ==> progressed(*old(self), *final(self)),
            r matches Ok(st) ==> stmt_grouped(st) && st is Return,
            r matches Ok(st) ==> spans_tokens(*old(self), *final(self), stmt_span(st)),
            ahead(*old(self), 0) is KwReturn && ahead(*old(self), 1) is Semicolon ==> (r matches Ok(Stmt::Return { value, .. })
                && value is None && final(self).pos == old(self).pos + 2),
            ahead(*old(self), 0) is KwReturn && lit_tok(ahead(*old(self), 1)) && ahead(*old(self), 2) is Semicolon ==> (r matches Ok(
                Stmt::Return { value, .. },
            ) && value matches Some(Expr::Lit(..)) && final(self).pos == old(self).pos + 3),
            !(ahead(*old(self), 0) is KwReturn) ==> r is Err,
        decreases old(self).toks@.len() - old(self).pos, 5nat,
    {
        let start = self.cur().span.start;
        self.expect(TokKind::KwReturn)?;
        let value = if self.at(&TokKind::Semicolon) {
            None
        } else {
            let v = self.parse_expr_bp(0)?;
            Some(v)
        };
        let semi = self.expect(TokKind::Semicolon)?;
        Ok(Stmt::Return { value, span: Span { start, end: semi.end } })
    }

    /// Parses `if cond { } [else { } | else if ...]`; each `else if` goes one
    /// level deeper.
    fn parse_if(&mut self) -> (r: Result<Expr, ParseError>)
        requires
            wf(*old(self)),
            old(self).depth <= MAX_NESTING_DEPTH,
        ensures
            stepped(*old(self), *final(self)),
            r is Ok ==> progressed(*old(self), *final(self)),
            r matches Ok(e) ==> grouped(e) && e is If,
            r matches Ok(e) ==> spans_tokens(*old(self), *final(self), expr_span(e)),
            old(self).depth < MAX_NESTING_DEPTH && ahead(*old(self), 0) is KwIf && lit_tok(ahead(*old(self), 1)) && ahead(*old(self), 2)
                is LBrace && ahead(*old(self), 3) is RBrace && !(ahead(*old(self), 4) is KwElse) ==> (r matches Ok(Expr::If {
                else_,
                ..
            }) && else_ is None && final(self).pos == old(self).pos + 4),
            !(ahead(*old(self), 0) is KwIf) ==> r is Err,
        decreases old(self).toks@.len() - old(self).pos, 5nat,
    {
        let start = self.cur().span.start;
        self.expect(TokKind::KwIf)?;
        let cond = self.parse_expr_bp(0)?;
        let then_ = self.parse_block()?;
        let then_end = then_.span.end;
        if self.at(&TokKind::KwElse) {
            self.bump();
            if self.at(&TokKind::KwIf) {
                self.enter_nesting()?;
                let else_if = self.parse_if();
                self.exit_nesting();
                let else_if = else_if?;
                let end = else_if.span().end;
                Ok(Expr::If { cond: Box::new(cond), then_, else_: Some(Box::new(else_if)), span: Span { start, end } })
            } else {
                let else_block = self.parse_block()?;
                let end = else_block.span.end;
                let else_expr = Expr::Block(else_block);
                assert(grouped(else_expr));
                Ok(Expr::If { cond: Box::new(cond), then_, else_: Some(Box::new(else_expr)), span: Span { start, end } })
            }
        } else {
            Ok(Expr::If { cond: Box::new(cond), then_, else_: None, span: Span { start, end: then_end } })
        }
    }

    /// Parses `while cond { body }`.
    fn parse_while(&mut self) -> (r: Result<Expr, ParseError>)
        requires
            wf(*old(self)),
            old(self).depth <= MAX_NESTING_DEPTH,
        ensures
            stepped(*old(self), *final(self)),
            r is Ok ==> progressed(*old(self), *final(self)),
            r matches Ok(e) ==> grouped(e) && e is While,
            r matches Ok(e) ==> spans_tokens(*old(self), *final(self), expr_span(e)),
            old(self).depth < MAX_NESTING_DEPTH && ahead(*old(self), 0) is KwWhile && lit_tok(ahead(*old(self), 1)) && ahead(*old(self), 2)
                is LBrace && ahead(*old(self), 3) is RBrace ==> (r matches Ok(Expr::While { body, .. }) && body.stmts@.len() == 0
                && final(self).pos == old(self).pos + 4),
            !(ahead(*old(self), 0) is KwWhile) ==> r is Err,
        decreases old(self).toks@.len() - old(self).pos, 5nat,
    {
        let start = self.cur().span.start;
        self.expect(TokKind::KwWhile)?;
        let cond = self.parse_expr_bp(0)?;
        let body = self.parse_block()?;
        let end = body.span.end;
        Ok(Expr::While { cond: Box::new(cond), body, span: Span { start, end } })
    }

    /// Parses `match scrutinee { pat => body, ... }`; the commas between arms
    /// may be left out.
    fn parse_match(&mut self) -> (r: Result<Expr, ParseError>)
        requires
            wf(*old(self)),
            old(self).depth <= MAX_NESTING_DEPTH,
        ensures
            stepped(*old(self), *final(self)),
            r is Ok ==> progressed(*old(self), *final(self)),
            r matches Ok(e) ==> grouped(e) && e is Match,
            r matches Ok(e) ==> spans_tokens(*old(self), *final(self), expr_span(e)),
            ahead(*old(self), 0) is KwMatch && lit_tok(ahead(*old(self), 1)) && ahead(*old(self), 2) is LBrace && ahead(*old(self), 3)
                is RBrace ==> (r matches Ok(Expr::Match { arms, .. }) && arms@.len() == 0 && final(self).pos == old(self).pos + 4),
            !(ahead(*old(self), 0) is KwMatch) ==> r is Err,
        decreases old(self).toks@.len() - old(self).pos, 5nat,
    {
        let start = self.cur().span.start;
        self.expect(TokKind::KwMatch)?;
        let scrutinee = self.parse_expr_bp(0)?;
        self.expect(TokKind::LBrace)?;
        let ghost p_open = self.pos;
        let mut arms: Vec<MatchArm> = Vec::new();
        while !self.at(&TokKind::RBrace)
            invariant
                wf(*self),
                self.toks@ == old(self).toks@,
                old(self).pos < self.pos,
                self.depth == old(self).depth,
                self.depth <= MAX_NESTING_DEPTH,
                forall|i: int| 0 <= i < arms@.len() ==> grouped(#[trigger] arms@[i].body),
                p_open <= self.pos,
                p_open < self.toks@.len(),
                ahead(*old(self), 0) is KwMatch && lit_tok(ahead(*old(self), 1)) && ahead(*old(self), 2) is LBrace ==> p_open
                    == old(self).pos + 3,
                self.pos == p_open ==> arms@.len() == 0,
                self.pos > p_open ==> !(self.toks@[p_open as int].kind@ is RBrace),
            decreases self.toks@.len() - self.pos,
        {
            let arm = self.parse_match_arm()?;
            arms.push(arm);
            if self.at(&TokKind::Comma) {
                self.bump();
            }
        }
        let close = self.expect(TokKind::RBrace)?;
        Ok(Expr::Match { scrutinee: Box::new(scrutinee), arms, span: Span { start, end: close.end } })
    }

    /// Parses a match arm `pat => body`.
    fn parse_match_arm(&mut self) -> (r: Result<MatchArm, ParseError>)
        requires
            wf(*old(self)),
            old(self).depth <= MAX_NESTING_DEPTH,
        ensures
            stepped(*old(self), *final(self)),
            r is Ok ==> progressed(*old(self), *final(self)),
            r matches Ok(a) ==> grouped(a.body),
            old(self).depth < MAX_NESTING_DEPTH && lit_tok(ahead(*old(self), 0)) && ahead(*old(self), 1) is FatArrow && lit_tok(
                ahead(*old(self), 2),
            ) && ends_expr(ahead(*old(self), 3)) ==> (r matches Ok(a) && a.pat is Literal && a.body is Lit && final(self).pos
                == old(self).pos + 3),
            !(ahead(*old(self), 0) is LParen) && !lit_tok(ahead(*old(self), 0)) && !(ahead(*old(self), 0) is Ident) ==> r is Err,
        decreases old(self).toks@.len() - old(self).pos, 4nat,
    {
        let pat = self.parse_pattern()?;
        let pat_start = pat.span().start;
        self.expect(TokKind::FatArrow)?;
        let body = self.parse_expr_bp(0)?;
        let body_end = body.span().end;
        Ok(MatchArm { pat, body, span: Span { start: pat_start, end: body_end } })
    }
}

impl Parser {
    /// Parses a top-level binding `let name [: Type] = expr;`.
    fn parse_let(&mut self) -> (r: Result<LetDecl, ParseError>)
        requires
            wf(*old(self)),
            old(self).depth <= MAX_NESTING_DEPTH,
        ensures
            stepped(*old(self), *final(self)),
            r is Ok ==> progressed(*old(self), *final(self)),
            r matches Ok(d) ==> grouped(d.value),
            r matches Ok(d) ==> spans_tokens(*old(self), *final(self), d.span),
            plain_let_at(*old(self), 0) ==> (r matches Ok(d) && let_of_tokens(d, *old(self), 0) && final(self).pos
                == old(self).pos + 5),
            !(ahead(*old(self), 0) is KwLet) ==> r is Err,
    {
        let start = self.cur().span.start;
        self.expect(TokKind::KwLet)?;
        let name = self.parse_ident()?;
        let ty = if self.at(&TokKind::Colon) {
            self.bump();
            let t = self.parse_type()?;
            Some(t)
        } else {
            None
        };
        self.expect(TokKind::Eq)?;
        let value = self.parse_expr_bp(0)?;
        let semi = self.expect(TokKind::Semicolon)?;
        Ok(LetDecl { name, ty, value, span: Span { start, end: semi.end } })
    }

    /// Parses `fn name(params) [-> Type] [& {effects}] { body }`.
    fn parse_fn_decl(&mut self) -> (r: Result<FnDecl, ParseError>)
        requires
            wf(*old(self)),
            old(self).depth <= MAX_NESTING_DEPTH,
        ensures
            stepped(*old(self), *final(self)),
            r is Ok ==> progressed(*old(self), *final(self)),
            r matches Ok(f) ==> block_grouped(f.body),
            r matches Ok(f) ==> spans_tokens(*old(self), *final(self), f.span),
            old(self).depth < MAX_NESTING_DEPTH && ahead(*old(self), 0) is KwFn && ahead(*old(self), 1) is Ident && ahead(*old(self), 2)
                is LParen && ahead(*old(self), 3) is RParen && ahead(*old(self), 4) is LBrace && ahead(*old(self), 5) is RBrace ==> (
            r matches Ok(f) && fn_of_tokens(f, *old(self), 0) && final(self).pos == old(self).pos + 6),
            !(ahead(*old(self), 0) is KwFn) ==> r is Err,
    {
        let start = self.cur().span.start;
        self.expect(TokKind::KwFn)?;
        let name = self.parse_ident()?;
        self.expect(TokKind::LParen)?;
        let params = self.parse_params()?;
        self.expect(TokKind::RParen)?;
        let ret_ty = if self.at(&TokKind::Arrow) {
            self.bump();
            let t = self.parse_type()?;
            Some(t)
        } else {
            None
        };
        let effects = self.parse_effect_annotation()?;
        let body = self.parse_block()?;
        let end = body.span.end;
        Ok(FnDecl { name, params, ret_ty, effects, body, span: Span { start, end } })
    }

    /// Parses `extern fn name(params) [-> Type] [& {effects}];`.
    fn parse_extern_fn(&mut self) -> (r: Result<ExternFnDecl, ParseError>)
        requires
            wf(*old(self)),
        ensures
            stepped(*old(self), *final(self)),
            r is Ok ==> progressed(*old(self), *final(self)),
            r matches Ok(d) ==> spans_tokens(*old(self), *final(self), d.span),
            ahead(*old(self), 0) is KwExtern && ahead(*old(self), 1) is KwFn && ahead(*old(self), 2) is Ident && ahead(*old(self), 3)
                is LParen && ahead(*old(self), 4) is RParen && ahead(*old(self), 5) is Semicolon ==> (r matches Ok(d) && d.params@.len()
                == 0 && d.ret_ty is None && d.effects is None && final(self).pos == old(self).pos + 6),
            !(ahead(*old(self), 0) is KwExtern) ==> r is Err,
    {
        let start = self.cur().span.start;
        self.expect(TokKind::KwExtern)?;
        self.expect(TokKind::KwFn)?;
        let name = self.parse_ident()?;
        self.expect(TokKind::LParen)?;
        let params = self.parse_params()?;
        self.expect(TokKind::RParen)?;
        let ret_ty = if self.at(&TokKind::Arrow) {
            self.bump();
            let t = self.parse_type()?;
            Some(t)
        } else {
            None
        };
        let effects = self.parse_effect_annotation()?;
        let semi = self.expect(TokKind::Semicolon)?;
        Ok(ExternFnDecl { name, params, ret_ty, effects, span: Span { start, end: semi.end } })
    }

    /// Parses struct fields `name: Type`, separated by commas, up to a closing
    /// brace, which is left in place.
    fn parse_struct_fields(&mut self) -> (r: Result<Vec<Field>, ParseError>)
        requires
            wf(*old(self)),
        ensures
            stepped(*old(self), *final(self)),
            final(self).depth == old(self).depth,
            ahead(*old(self), 0) is RBrace ==> (r matches Ok(v) && v@.len() == 0 && final(self).pos == old(self).pos),
            !(ahead(*old(self), 0) is RBrace) && !(ahead(*old(self), 0) is Ident) ==> r is Err,
    {
        let mut fields: Vec<Field> = Vec::new();
        while !self.at(&TokKind::RBrace)
            invariant
                wf(*self),
                self.toks@ == old(self).toks@,
                old(self).pos <= self.pos,
                self.depth == old(self).depth,
                self.pos == old(self).pos ==> fields@.len() == 0,
                self.pos > old(self).pos ==> !(ahead(*old(self), 0) is RBrace) && ahead(*old(self), 0) is Ident,
            ensures
                wf(*self),
                self.toks@ == old(self).toks@,
                old(self).pos <= self.pos,
                self.depth == old(self).depth,
                self.pos == old(self).pos ==> fields@.len() == 0 && ahead(*old(self), 0) is RBrace,
                self.pos > old(self).pos ==> !(ahead(*old(self), 0) is RBrace) && ahead(*old(self), 0) is Ident,
            decreases self.toks@.len() - self.pos,
        {
            let field_start = self.cur().span.start;
            let name = self.parse_ident()?;
            self.expect(TokKind::Colon)?;
            let ty = self.parse_type()?;
            let end = ty.span().end;
            fields.push(Field { name, ty, span: Span { start: field_start, end } });
            if self.at(&TokKind::Comma) {
                self.bump();
            } else {
                break;
            }
        }
        Ok(fields)
    }

    /// Parses `struct Name<T> { field: Type, ... }`.
    fn parse_struct_def(&mut self) -> (r: Result<StructDef, ParseError>)
        requires
            wf(*old(self)),
        ensures
            stepped(*old(self), *final(self)),
            r is Ok ==> progressed(*old(self), *final(self)),
            r matches Ok(d) ==> spans_tokens(*old(self), *final(self), d.span),
            ahead(*old(self), 0) is KwStruct && ahead(*old(self), 1) is Ident && ahead(*old(self), 2) is LBrace && ahead(*old(self), 3) is RBrace ==> (r matches Ok(d) && d.fields@.len() == 0 && d.type_params@.len() == 0 && final(self).pos
                == old(self).pos + 4),
            !(ahead(*old(self), 0) is KwStruct) ==> r is Err,
    {
        let start = self.cur().span.start;
        self.expect(TokKind::KwStruct)?;
        let name = self.parse_ident()?;
        let type_params = self.parse_type_params()?;
        self.expect(TokKind::LBrace)?;
        let fields = self.parse_struct_fields()?;
        let close = self.expect(TokKind::RBrace)?;
        Ok(StructDef { name, type_params, fields, span: Span { start, end: close.end } })
    }

    /// Parses enum variants `A` or `B(T, U)`, separated by commas, up to a
    /// closing brace, which is left in place.
    fn parse_enum_variants(&mut self) -> (r: Result<Vec<Variant>, ParseError>)
        requires
            wf(*old(self)),
        ensures
            stepped(*old(self), *final(self)),
            final(self).depth == old(self).depth,
            ahead(*old(self), 0) is RBrace ==> (r matches Ok(v) && v@.len() == 0 && final(self).pos == old(self).pos),
            !(ahead(*old(self), 0) is RBrace) && !(ahead(*old(self), 0) is Ident) ==> r is Err,
    {
        let mut variants: Vec<Variant> = Vec::new();
        while !self.at(&TokKind::RBrace)
            invariant
                wf(*self),
                self.toks@ == old(self).toks@,
                old(self).pos <= self.pos,
                self.depth == old(self).depth,
                self.pos == old(self).pos ==> variants@.len() == 0,
                self.pos > old(self).pos ==> !(ahead(*old(self), 0) is RBrace) && ahead(*old(self), 0) is Ident,
            ensures
                wf(*self),
                self.toks@ == old(self).toks@,
                old(self).pos <= self.pos,
                self.depth == old(self).depth,
                self.pos == old(self).pos ==> variants@.len() == 0 && ahead(*old(self), 0) is RBrace,
                self.pos > old(self).pos ==> !(ahead(*old(self), 0) is RBrace) && ahead(*old(self), 0) is Ident,
            decreases self.toks@.len() - self.pos,
        {
            let var_start = self.cur().span.start;
            let ghost iter_start = self.pos;
            let name = self.parse_ident()?;
            let (fields, var_end) = if self.at(&TokKind::LParen) {
                self.bump();
                let mut tys: Vec<TypeExpr> = Vec::new();
                if !self.at(&TokKind::RParen) {
                    let first = self.parse_type()?;
                    tys.push(first);
                    while self.at(&TokKind::Comma)
                        invariant
                            wf(*self),
                            self.toks@ == old(self).toks@,
                            old(self).pos <= self.pos,
                            iter_start < self.pos,
                            self.depth == old(self).depth,
                            iter_start >= old(self).pos,
                            !(ahead(*old(self), 0) is RBrace),
                        decreases self.toks@.len() - self.pos,
                    {
                        self.bump();
                        let t = self.parse_type()?;
                        tys.push(t);
                    }
                }
                let close = self.expect(TokKind::RParen)?;
                (VariantFields::Tuple(tys), close.end)
            } else {
                let end = name.span.end;
                (VariantFields::Unit, end)
            };
            variants.push(Variant { name, fields, span: Span { start: var_start, end: var_end } });
            if self.at(&TokKind::Comma) {
                self.bump();
            } else {
                break;
            }
        }
        Ok(variants)
    }

    /// Parses `enum Name<T> { A, B(T), ... }`.
    fn parse_enum_def(&mut self) -> (r: Result<EnumDef, ParseError>)
        requires
            wf(*old(self)),
        ensures
            stepped(*old(self), *final(self)),
            r is Ok ==> progressed(*old(self), *final(self)),
            r matches Ok(d) ==> spans_tokens(*old(self), *final(self), d.span),
            ahead(*old(self), 0) is KwEnum && ahead(*old(self), 1) is Ident && ahead(*old(self), 2) is LBrace && ahead(*old(self), 3) is RBrace ==> (r matches Ok(d) && d.variants@.len() == 0 && d.type_params@.len() == 0 && final(self).pos
                == old(self).pos + 4),
            !(ahead(*old(self), 0) is KwEnum) ==> r is Err,
    {
        let start = self.cur().span.start;
        self.expect(TokKind::KwEnum)?;
        let name = self.parse_ident()?;
        let type_params = self.parse_type_params()?;
        self.expect(TokKind::LBrace)?;
        let variants = self.parse_enum_variants()?;
        let close = self.expect(TokKind::RBrace)?;
        Ok(EnumDef { name, type_params, variants, span: Span { start, end: close.end } })
    }

    /// Parses an item: a `let`, a function, an extern function, a struct or
    /// an enum.
    fn parse_item(&mut self) -> (r: Result<Item, ParseError>)
        requires
            wf(*old(self)),
            old(self).depth <= MAX_NESTING_DEPTH,
        ensures
            stepped(*old(self), *final(self)),
            r is Ok ==> progressed(*old(self), *final(self)),
            r matches Ok(item) ==> item_grouped(item),
            r matches Ok(item) ==> spans_tokens(*old(self), *final(self), item_span(item)),
            plain_let_at(*old(self), 0) ==> (r matches Ok(Item::Let(d)) && let_of_tokens(d, *old(self), 0) && final(self).pos
                == old(self).pos + 5),
            old(self).depth < MAX_NESTING_DEPTH && empty_fn_at(*old(self), 0) ==> (r matches Ok(Item::Fn(f)) && fn_of_tokens(
                f,
                *old(self),
                0,
            ) && final(self).pos == old(self).pos + 6),
            !(cur_kind(*old(self)) is KwLet || cur_kind(*old(self)) is KwFn || cur_kind(*old(self)) is KwExtern
                || cur_kind(*old(self)) is KwStruct || cur_kind(*old(self)) is KwEnum) ==> (r matches Err(e)
                && e.message@ == "unexpected token at top level: "@ + kind_text(cur_kind(*old(self)))),
    {
        if self.at(&TokKind::KwLet) {
            let d = self.parse_let()?;
            Ok(Item::Let(d))
        } else if self.at(&TokKind::KwExtern) {
            let d = self.parse_extern_fn()?;
            Ok(Item::ExternFn(d))
        } else if self.at(&TokKind::KwFn) {
            let d = self.parse_fn_decl()?;
            Ok(Item::Fn(d))
        } else if self.at(&TokKind::KwStruct) {
            let d = self.parse_struct_def()?;
            Ok(Item::Struct(d))
        } else if self.at(&TokKind::KwEnum) {
            let d = self.parse_enum_def()?;
            Ok(Item::Enum(d))
        } else {
            let mut m = String::new();
            m.append("unexpected token at top level: ");
            push_kind(&mut m, &self.toks[self.pos].kind);
            Err(error_of(m))
        }
    }

    /// Parses items up to the first end-of-input token; the module spans from
    /// the first token to that one.
    fn parse_module(&mut self) -> (r: Result<Module, ParseError>)
        requires
            wf(*old(self)),
            old(self).depth <= MAX_NESTING_DEPTH,
        ensures
            stepped(*old(self), *final(self)),
            r matches Ok(m) ==> module_grouped(m) && m.span.start == cur_span(*old(self)).start
                && cur_kind(*final(self)) is Eof && m.span.end == cur_span(*final(self)).end,
            tokens_ordered(old(self).toks@) ==> (r matches Ok(m) ==> items_in_order(m.items@, m.span.start, m.span.end)),
            cur_kind(*old(self)) is Eof ==> (r matches Ok(m) && m.items@.len() == 0 && m.span == cur_span(
                *old(self),
            )),
            cur_kind(*old(self)) is Error ==> (r matches Err(e) && e.message@ == lexer_error_message(
                cur_span(*old(self)),
                cur_kind(*old(self))->Error_0,
            )),
            !(cur_kind(*old(self)) is Eof || cur_kind(*old(self)) is Error || cur_kind(*old(self)) is KwLet
                || cur_kind(*old(self)) is KwFn || cur_kind(*old(self)) is KwExtern || cur_kind(*old(self)) is KwStruct
                || cur_kind(*old(self)) is KwEnum) ==> (r matches Err(e) && e.message@ == "unexpected token at top level: "@
                + kind_text(cur_kind(*old(self)))),
            forall|k: nat| #[trigger] plain_lets_then_end(*old(self), k) ==> (r matches Ok(m) && m.items@.len() == k
                && lets_of_tokens(m.items@, *old(self))),
            old(self).depth < MAX_NESTING_DEPTH ==> forall|k: nat| #[trigger] empty_fns_then_end(*old(self), k) ==> (r matches Ok(m) && m.items@.len()
                == k && fns_of_tokens(m.items@, *old(self))),
    {
        let start = self.cur().span.start;
        let mut items: Vec<Item> = Vec::new();
        while !self.at(&TokKind::Eof)
            invariant
                wf(*self),
                self.toks@ == old(self).toks@,
                old(self).pos <= self.pos,
                self.depth == old(self).depth,
                self.depth <= MAX_NESTING_DEPTH,
                forall|i: int| 0 <= i < items@.len() ==> item_grouped(#[trigger] items@[i]),
                items@.len() == 0 ==> self.pos == old(self).pos,
                tokens_ordered(old(self).toks@) ==> items_in_order(items@, start, cur_span(*self).start),
                start == cur_span(*old(self)).start,
                items@.len() > 0 ==> (cur_kind(*old(self)) is KwLet || cur_kind(*old(self)) is KwFn || cur_kind(
                    *old(self),
                ) is KwExtern || cur_kind(*old(self)) is KwStruct || cur_kind(*old(self)) is KwEnum),
                forall|k: nat| #[trigger] plain_lets_then_end(*old(self), k) ==> (self.pos == old(self).pos + 5 * items@.len()
                    && items@.len() <= k && lets_of_tokens(items@, *old(self))),
                old(self).depth < MAX_NESTING_DEPTH ==> forall|k: nat| #[trigger] empty_fns_then_end(*old(self), k) ==> (self.pos == old(self).pos + 6
                    * items@.len() && items@.len() <= k && fns_of_tokens(items@, *old(self))),
            decreases self.toks@.len() - self.pos,
        {
            let ghost pre = *self;
            proof {
                assert forall|k: nat| #[trigger] plain_lets_then_end(*old(self), k) implies items@.len() < k
                    && plain_let_at(*self, 0) by {
                    let n = items@.len();
                    assert(ahead(*self, 0) == ahead(*old(self), 5 * n));
                    if n == k {
                        assert(ahead(*old(self), 5 * k) is Eof);
                    }
                    assert(plain_let_at(*old(self), 5 * (n as nat)));
                    assert(ahead(*self, 1) == ahead(*old(self), 5 * n + 1));
                    assert(ahead(*self, 2) == ahead(*old(self), 5 * n + 2));
                    assert(ahead(*self, 3) == ahead(*old(self), 5 * n + 3));
                    assert(ahead(*self, 4) == ahead(*old(self), 5 * n + 4));
                }
            }
            proof {
                if old(self).depth < MAX_NESTING_DEPTH {
                    assert forall|k: nat| #[trigger] empty_fns_then_end(*old(self), k) implies items@.len() < k
                        && empty_fn_at(*self, 0) by {
                        let n = items@.len();
                        assert(ahead(*self, 0) == ahead(*old(self), 6 * n));
                        if n == k {
                            assert(ahead(*old(self), 6 * k) is Eof);
                        }
                        assert(empty_fn_at(*old(self), 6 * (n as nat)));
                        assert(ahead(*self, 1) == ahead(*old(self), 6 * n + 1));
                        assert(ahead(*self, 2) == ahead(*old(self), 6 * n + 2));
                        assert(ahead(*self, 3) == ahead(*old(self), 6 * n + 3));
                        assert(ahead(*self, 4) == ahead(*old(self), 6 * n + 4));
                        assert(ahead(*self, 5) == ahead(*old(self), 6 * n + 5));
                    }
                }
            }
            self.check_lex_error()?;
            let ghost p = self.pos;
            let ghost before = items@;
            let item = self.parse_item()?;
            items.push(item);
            proof {
                assert forall|k: nat| #[trigger] plain_lets_then_end(*old(self), k) implies (self.pos == old(self).pos + 5
                    * items@.len() && items@.len() <= k && lets_of_tokens(items@, *old(self))) by {
                    let n = before.len();
                    assert(items@[n as int] matches Item::Let(d) && let_of_tokens(d, pre, 0));
                    assert(ahead(pre, 1) == ahead(*old(self), 5 * n + 1));
                    assert(ahead(pre, 3) == ahead(*old(self), 5 * n + 3));
                    assert(ahead_span(pre, 1) == ahead_span(*old(self), (5 * n + 1) as nat));
                    assert(ahead_span(pre, 3) == ahead_span(*old(self), (5 * n + 3) as nat));
                    assert forall|i: int| 0 <= i < items@.len() implies (#[trigger] items@[i] matches Item::Let(d)
                        && let_of_tokens(d, *old(self), (5 * i) as nat)) by {
                        if i < n {
                            assert(items@[i] == before[i]);
                        }
                    }
                }
            }
            proof {
                if old(self).depth < MAX_NESTING_DEPTH {
                    assert forall|k: nat| #[trigger] empty_fns_then_end(*old(self), k) implies (self.pos == old(self).pos + 6
                        * items@.len() && items@.len() <= k && fns_of_tokens(items@, *old(self))) by {
                        let n = before.len();
                        assert(items@[n as int] matches Item::Fn(f) && fn_of_tokens(f, pre, 0));
                        assert(ahead(pre, 1) == ahead(*old(self), 6 * n + 1));
                        assert(ahead_span(pre, 1) == ahead_span(*old(self), (6 * n + 1) as nat));
                        assert forall|i: int| 0 <= i < items@.len() implies (#[trigger] items@[i] matches Item::Fn(f)
                            && fn_of_tokens(f, *old(self), (6 * i) as nat)) by {
                            if i < n {
                                assert(items@[i] == before[i]);
                            }
                        }
                    }
                }
            }
            proof {
                if tokens_ordered(old(self).toks@) {
                    let toks = self.toks@;
                    let last = items@.len() - 1;
                    let q = self.pos as int;
                    assert(toks[p as int].span.start <= toks[q - 1].span.end) by {
                        if (p as int) < q - 1 {
                            assert(toks[p as int].span.end <= toks[q - 1].span.start);
                        }
                    }
                    assert(toks[q - 1].span.end <= toks[q].span.start);
                    assert(start <= toks[p as int].span.start) by {
                        if old(self).pos < p {
                            assert(toks[old(self).pos as int].span.end <= toks[p as int].span.start);
                        }
                    }
                    assert forall|i: int| 0 <= i < items@.len() implies start <= (#[trigger] item_span(items@[i])).start
                        <= item_span(items@[i]).end <= cur_span(*self).start by {
                        if i < last {
                            assert(items@[i] == before[i]);
                            assert(toks[p as int].span.start <= toks[p as int].span.end);
                            assert(toks[p as int].span.end <= toks[q].span.start);
                        }
                    }
                    assert forall|i: int, j: int| 0 <= i < j < items@.len() implies (#[trigger] item_span(
                        items@[i],
                    )).end <= (#[trigger] item_span(items@[j])).start by {
                        assert(items@[i] == before[i]);
                        if j < last {
                            assert(items@[j] == before[j]);
                        }
                    }
                }
            }
        }
        proof {
            if old(self).depth < MAX_NESTING_DEPTH {
                assert forall|k: nat| #[trigger] empty_fns_then_end(*old(self), k) implies items@.len() == k by {
                    let n = items@.len();
                    assert(ahead(*self, 0) == ahead(*old(self), 6 * n));
                    if n < k {
                        assert(empty_fn_at(*old(self), 6 * (n as nat)));
                    }
                }
            }
        }
        proof {
            assert forall|k: nat| #[trigger] plain_lets_then_end(*old(self), k) implies items@.len() == k by {
                let n = items@.len();
                assert(ahead(*self, 0) == ahead(*old(self), 5 * n));
                if n < k {
                    assert(plain_let_at(*old(self), 5 * (n as nat)));
                }
            }
        }
        let end = self.cur().span.end;
        Ok(Module { items, span: Span { start, end } })
    }
}

/// A source text of functions `fn name() {}` lexes to those tokens.
proof fn lemma_fn_source_tokens(b: Seq<u8>, p0: Parser, k: nat)
    requires
        wf(p0),
        p0.pos == 0,
        forall|j: int| 0 <= j < p0.toks@.len() ==> (#[trigger] p0.toks@[j]).kind@ == tok_kind_at(b, j as nat)
            && p0.toks@[j].span == tok_span_at(b, j as nat),
        empty_fn_source(b, k),
    ensures
        empty_fns_then_end(p0, k),
{
    let last = p0.toks@.len() - 1;
    if last < 6 * k {
        let i: nat = (last / 6) as nat;
        assert(i < k);
        assert(tok_kind_at(b, 6 * i) is KwFn);
        assert(p0.toks@[last].kind@ == tok_kind_at(b, last as nat));
    }
    assert forall|j: int| 0 <= j <= 6 * k implies #[trigger] ahead(p0, j as nat) == tok_kind_at(b, j as nat) by {
        assert(p0.toks@[j].kind@ == tok_kind_at(b, j as nat));
    }
    assert forall|i: nat| i < k implies #[trigger] empty_fn_at(p0, 6 * i) by {
        assert(tok_kind_at(b, 6 * i) is KwFn);
        assert(ahead(p0, 6 * i) == tok_kind_at(b, 6 * i));
        assert(ahead(p0, 6 * i + 1) == tok_kind_at(b, 6 * i + 1));
        assert(ahead(p0, 6 * i + 2) == tok_kind_at(b, 6 * i + 2));
        assert(ahead(p0, 6 * i + 3) == tok_kind_at(b, 6 * i + 3));
        assert(ahead(p0, 6 * i + 4) == tok_kind_at(b, 6 * i + 4));
        assert(ahead(p0, 6 * i + 5) == tok_kind_at(b, 6 * i + 5));
    }
    assert(ahead(p0, 6 * k) == tok_kind_at(b, 6 * k));
}

/// Functions read from the tokens of a source text are those its text writes.
proof fn lemma_fn_items_source(b: Seq<u8>, p0: Parser, items: Seq<Item>)
    requires
        p0.pos == 0,
        forall|j: int| 0 <= j < p0.toks@.len() ==> (#[trigger] p0.toks@[j]).kind@ == tok_kind_at(b, j as nat)
            && p0.toks@[j].span == tok_span_at(b, j as nat),
        fns_of_tokens(items, p0),
    ensures
        fns_of_source(items, b),
{
    assert forall|i: int| 0 <= i < items.len() implies (#[trigger] items[i] matches Item::Fn(f) && tok_kind_at(
        b,
        (6 * i + 1) as nat,
    ) == TokKindM::Ident(f.name.text@) && f.name.span == tok_span_at(b, (6 * i + 1) as nat) && f.params@.len() == 0
        && f.ret_ty is None && f.effects is None && f.body.stmts@.len() == 0 && f.body.tail is None) by {
        assert(items[i] matches Item::Fn(f) && fn_of_tokens(f, p0, (6 * i) as nat));
        if 6 * i + 1 < p0.toks@.len() {
            assert(p0.toks@[6 * i + 1].kind@ == tok_kind_at(b, (6 * i + 1) as nat));
        }
    }
}

/// The kind of the first token of a source text.
pub open spec fn first_kind(src: &str) -> TokKindM {
    lex_next(src.spec_bytes(), 0).0
}

/// Parses a source text into a module. The name of the file is not used.
///
/// Binary operators group by binding power, from `||` (loosest) through `&&`,
/// `==` and `!=`, the comparisons, `+` and `-`, to `*` and `/` (tightest);
/// operators of one level group to the left; calls and prefix `!` and `-`
/// bind tighter than any of them. Blocks, conditionals, loops, brackets,
/// patterns and prefix operators may nest at most 512 deep.
///
/// A source with no token is an empty module over its end; a source whose
/// first token is a lexer error, or starts no item, is refused.
pub fn parse_str(file: &str, src: &str) -> (r: Result<Module, ParseError>)
    ensures
        r matches Ok(m) ==> module_grouped(m) && m.span.start == lex_next(src.spec_bytes(), 0).1.start,
        src.spec_bytes().len() <= u32::MAX ==> (r matches Ok(m) ==> items_in_order(m.items@, m.span.start, m.span.end)),
        first_kind(src) is Eof ==> (r matches Ok(m) && m.items@.len() == 0 && m.span == lex_next(
            src.spec_bytes(),
            0,
        ).1),
        first_kind(src) is Error ==> (r matches Err(e) && e.message@ == lexer_error_message(
            lex_next(src.spec_bytes(), 0).1,
            first_kind(src)->Error_0,
        )),
        !(first_kind(src) is Eof || first_kind(src) is Error || first_kind(src) is KwLet || first_kind(src) is KwFn
            || first_kind(src) is KwExtern || first_kind(src) is KwStruct || first_kind(src) is KwEnum) ==> (r matches Err(
            e,
        ) && e.message@ == "unexpected token at top level: "@ + kind_text(first_kind(src))),
        forall|k: nat| #[trigger] plain_let_source(src.spec_bytes(), k) ==> (r matches Ok(m) && m.items@.len() == k
            && lets_of_source(m.items@, src.spec_bytes())),
        forall|k: nat| #[trigger] empty_fn_source(src.spec_bytes(), k) ==> (r matches Ok(m) && m.items@.len() == k
            && fns_of_source(m.items@, src.spec_bytes())),
{
    let mut p = Parser::new(src);
    let ghost p0 = p;
    let ghost b = src.spec_bytes();
    proof {
        assert forall|k: nat| #[trigger] plain_let_source(b, k) implies plain_lets_then_end(p0, k) by {
            let last = p0.toks@.len() - 1;
            if last < 5 * k {
                let i: nat = (last / 5) as nat;
                assert(i < k);
                assert(tok_kind_at(b, 5 * i) is KwLet);
                assert(p0.toks@[last].kind@ == tok_kind_at(b, last as nat));
            }
            assert forall|j: int| 0 <= j <= 5 * k implies #[trigger] ahead(p0, j as nat) == tok_kind_at(b, j as nat) by {
                assert(p0.toks@[j].kind@ == tok_kind_at(b, j as nat));
            }
            assert forall|i: nat| i < k implies #[trigger] plain_let_at(p0, 5 * i) by {
                assert(tok_kind_at(b, 5 * i) is KwLet);
                assert(ahead(p0, 5 * i) == tok_kind_at(b, 5 * i));
                assert(ahead(p0, 5 * i + 1) == tok_kind_at(b, 5 * i + 1));
                assert(ahead(p0, 5 * i + 2) == tok_kind_at(b, 5 * i + 2));
                assert(ahead(p0, 5 * i + 3) == tok_kind_at(b, 5 * i + 3));
                assert(ahead(p0, 5 * i + 4) == tok_kind_at(b, 5 * i + 4));
            }
            assert(ahead(p0, 5 * k) == tok_kind_at(b, 5 * k));
        }
    }
    proof {
        assert forall|k: nat| #[trigger] empty_fn_source(b, k) implies empty_fns_then_end(p0, k) by {
            lemma_fn_source_tokens(b, p0, k);
        }
    }
    let r = p.parse_module();
    proof {
        assert forall|k: nat| #[trigger] empty_fn_source(b, k) implies (r matches Ok(m) && m.items@.len() == k
            && fns_of_source(m.items@, b)) by {
            lemma_fn_source_tokens(b, p0, k);
            lemma_fn_items_source(b, p0, r->Ok_0.items@);
        }
    }
    proof {
        assert forall|k: nat| #[trigger] plain_let_source(b, k) implies (r matches Ok(m) && m.items@.len() == k
            && lets_of_source(m.items@, b)) by {
            assert(plain_lets_then_end(p0, k));
            let m = r->Ok_0;
            assert forall|i: int| 0 <= i < m.items@.len() implies (#[trigger] m.items@[i] matches Item::Let(d)
                && tok_kind_at(b, (5 * i + 1) as nat) == TokKindM::Ident(d.name.text@) && d.name.span == tok_span_at(
                b,
                (5 * i + 1) as nat,
            ) && d.ty is None && lit_of_token(d.value, tok_kind_at(b, (5 * i + 3) as nat), tok_span_at(b, (5 * i + 3) as nat))) by {
                assert(m.items@[i] matches Item::Let(d) && let_of_tokens(d, p0, (5 * i) as nat));
                assert(p0.toks@[5 * i + 1].kind@ == tok_kind_at(b, (5 * i + 1) as nat));
                assert(p0.toks@[5 * i + 3].kind@ == tok_kind_at(b, (5 * i + 3) as nat));
            }
        }
    }
    r
}

} // verus!
