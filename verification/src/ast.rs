//! Source spans and the abstract syntax tree.
use vstd::prelude::*;

verus! {

/// A byte range in the source text.
#[derive(Clone, Copy, Debug, PartialEq, Eq, Structural)]
pub struct Span {
    pub start: u32,
    pub end: u32,
}

#[derive(Debug)]
pub struct Module {
    pub items: Vec<Item>,
    pub span: Span,
}

#[derive(Debug)]
pub enum Item {
    Let(LetDecl),
    Fn(FnDecl),
    ExternFn(ExternFnDecl),
    Struct(StructDef),
    Enum(EnumDef),
}

/// Struct definition: `struct Point<T> { x: T, y: T }`.
#[derive(Debug)]
pub struct StructDef {
    pub name: Ident,
    pub type_params: Vec<Ident>,
    pub fields: Vec<Field>,
    pub span: Span,
}

/// Field of a struct: `name: Type`.
#[derive(Debug)]
pub struct Field {
    pub name: Ident,
    pub ty: TypeExpr,
    pub span: Span,
}

/// Enum definition: `enum Option<T> { Some(T), None }`.
#[derive(Debug)]
pub struct EnumDef {
    pub name: Ident,
    pub type_params: Vec<Ident>,
    pub variants: Vec<Variant>,
    pub span: Span,
}

/// Enum variant: `Some(T)` or `None`.
#[derive(Debug)]
pub struct Variant {
    pub name: Ident,
    pub fields: VariantFields,
    pub span: Span,
}

/// Payload of a variant.
#[derive(Debug)]
pub enum VariantFields {
    Unit,
    Tuple(Vec<TypeExpr>),
}

/// Function declaration; `effects` holds the names of an effect annotation
/// `& { Fs, Net }` when there is one.
#[derive(Debug)]
pub struct FnDecl {
    pub name: Ident,
    pub params: Vec<Param>,
    pub ret_ty: Option<TypeExpr>,
    pub effects: Option<Vec<Ident>>,
    pub body: Block,
    pub span: Span,
}

/// Extern function declaration, without a body:
/// `extern fn read(path: String) -> String & {Fs};`.
#[derive(Debug)]
pub struct ExternFnDecl {
    pub name: Ident,
    pub params: Vec<Param>,
    pub ret_ty: Option<TypeExpr>,
    pub effects: Option<Vec<Ident>>,
    pub span: Span,
}

#[derive(Debug)]
pub struct Param {
    pub name: Ident,
    pub ty: Option<TypeExpr>,
    pub span: Span,
}

#[derive(Debug)]
pub struct LetDecl {
    pub name: Ident,
    pub ty: Option<TypeExpr>,
    pub value: Expr,
    pub span: Span,
}

#[derive(Debug)]
pub struct Ident {
    pub text: String,
    pub span: Span,
}

/// Type expressions as written in the source.
#[derive(Debug)]
pub enum TypeExpr {
    /// Simple or qualified path: `Int`, `Option::Some`.
    Path(Vec<Ident>, Span),
    /// Function type: `fn(A, B) -> R`, with the names of its effect annotation
    /// `& { Fs }` when there is one.
    Arrow { params: Vec<TypeExpr>, ret: Box<TypeExpr>, effects: Option<Vec<Ident>>, span: Span },
    /// Generic application: `Option<T>`.
    App { base: Vec<Ident>, args: Vec<TypeExpr>, span: Span },
    /// Tuple type: `(A, B, C)`.
    Tuple(Vec<TypeExpr>, Span),
}

/// The span of a type expression.
pub open spec fn type_expr_span(t: TypeExpr) -> Span {
    match t {
        TypeExpr::Path(_, s) => s,
        TypeExpr::Arrow { span, .. } => span,
        TypeExpr::App { span, .. } => span,
        TypeExpr::Tuple(_, s) => s,
    }
}

impl TypeExpr {
    /// The span of this type expression.
    pub fn span(&self) -> (r: Span)
        ensures
            r == type_expr_span(*self),
    {
        match self {
            TypeExpr::Path(_, span) => *span,
            TypeExpr::Arrow { span, .. } => *span,
            TypeExpr::App { span, .. } => *span,
            TypeExpr::Tuple(_, span) => *span,
        }
    }
}

/// Statement within a block.
#[derive(Debug)]
pub enum Stmt {
    /// Local binding: `let x = e;` or `let (a, b) = e;`.
    Let { mutable: bool, pat: Pat, ty: Option<TypeExpr>, value: Expr, span: Span },
    /// Assignment: `x = e;`.
    Assign { target: Ident, value: Expr, span: Span },
    /// Expression statement: `e;`.
    Expr { expr: Expr, span: Span },
    /// Return statement: `return e;` or `return;`.
    Return { value: Option<Expr>, span: Span },
}

/// The span of a statement.
pub open spec fn stmt_span(s: Stmt) -> Span {
    match s {
        Stmt::Let { span, .. } => span,
        Stmt::Assign { span, .. } => span,
        Stmt::Expr { span, .. } => span,
        Stmt::Return { span, .. } => span,
    }
}

/// The span of an item.
pub open spec fn item_span(i: Item) -> Span {
    match i {
        Item::Let(d) => d.span,
        Item::Fn(d) => d.span,
        Item::ExternFn(d) => d.span,
        Item::Struct(d) => d.span,
        Item::Enum(d) => d.span,
    }
}

/// Block expression: `{ stmt; stmt; expr }`.
#[derive(Debug)]
pub struct Block {
    pub stmts: Vec<Stmt>,
    pub tail: Option<Box<Expr>>,
    pub span: Span,
}

/// Qualified path: `Option::Some`.
#[derive(Debug)]
pub struct Path {
    pub segments: Vec<Ident>,
    pub span: Span,
}

/// The texts of identifiers joined with `::`.
pub open spec fn joined_path(segs: Seq<Ident>) -> Seq<char>
    decreases segs.len(),
{
    if segs.len() == 0 {
        Seq::empty()
    } else if segs.len() == 1 {
        segs[0].text@
    } else {
        joined_path(segs.drop_last()) + "::"@ + segs.last().text@
    }
}

/// Joins the texts of identifiers with `::`.
pub fn join_idents(segs: &Vec<Ident>) -> (r: String)
    ensures
        r@ == joined_path(segs@),
{
    let mut s = String::new();
    let mut i: usize = 0;
    while i < segs.len()
        invariant
            i <= segs@.len(),
            s@ == joined_path(segs@.take(i as int)),
        decreases segs@.len() - i,
    {
        assert(segs@.take(i + 1).drop_last() =~= segs@.take(i as int));
        if i > 0 {
            s.append("::");
        }
        s.append(segs[i].text.as_str());
        proof {
            if i == 0 {
                assert(s@ =~= joined_path(segs@.take(1)));
            } else {
                assert(s@ =~= joined_path(segs@.take(i + 1)));
            }
        }
        i = i + 1;
    }
    assert(segs@.take(segs@.len() as int) =~= segs@);
    s
}

impl Path {
    /// A path of one segment.
    pub fn single(ident: Ident) -> (r: Self)
        ensures
            r.segments@ == seq![ident],
            r.span == ident.span,
    {
        let span = ident.span;
        let mut segments: Vec<Ident> = Vec::new();
        segments.push(ident);
        Path { segments, span }
    }

    /// The full path as a string, such as `Option::Some`.
    pub fn as_str(&self) -> (r: String)
        ensures
            r@ == joined_path(self.segments@),
    {
        join_idents(&self.segments)
    }
}

/// Patterns of match arms and destructuring.
#[derive(Debug)]
pub enum Pat {
    Wildcard(Span),
    Ident(Ident),
    Literal(Lit, Span),
    Tuple(Vec<Pat>, Span),
    Struct { path: Path, fields: Vec<PatField>, span: Span },
    Variant { path: Path, fields: Vec<Pat>, span: Span },
}

impl Pat {
    /// The span of this pattern.
    pub fn span(&self) -> (r: Span)
        ensures
            r == match *self {
                Pat::Wildcard(s) => s,
                Pat::Ident(i) => i.span,
                Pat::Literal(_, s) => s,
                Pat::Tuple(_, s) => s,
                Pat::Struct { span, .. } => span,
                Pat::Variant { span, .. } => span,
            },
    {
        match self {
            Pat::Wildcard(span) => *span,
            Pat::Ident(ident) => ident.span,
            Pat::Literal(_, span) => *span,
            Pat::Tuple(_, span) => *span,
            Pat::Struct { span, .. } => *span,
            Pat::Variant { span, .. } => *span,
        }
    }
}

/// Field of a struct pattern: `x` or `x: pat`.
#[derive(Debug)]
pub struct PatField {
    pub name: Ident,
    pub pat: Pat,
    pub span: Span,
}

/// Match arm: `pattern => body`.
#[derive(Debug)]
pub struct MatchArm {
    pub pat: Pat,
    pub body: Expr,
    pub span: Span,
}

/// Expressions.
#[derive(Debug)]
pub enum Expr {
    Lit(Lit, Span),
    Var(Ident),
    Unary { op: UnOp, expr: Box<Expr>, span: Span },
    Call { callee: Box<Expr>, args: Vec<Expr>, span: Span },
    Binary { lhs: Box<Expr>, op: BinOp, rhs: Box<Expr>, span: Span },
    Paren { inner: Box<Expr>, span: Span },
    Block(Block),
    If { cond: Box<Expr>, then_: Block, else_: Option<Box<Expr>>, span: Span },
    While { cond: Box<Expr>, body: Block, span: Span },
    Match { scrutinee: Box<Expr>, arms: Vec<MatchArm>, span: Span },
    Tuple { elems: Vec<Expr>, span: Span },
    StructExpr { path: Path, fields: Vec<FieldInit>, span: Span },
    PathExpr(Path),
}

/// Field initialization in a struct expression.
#[derive(Debug)]
pub struct FieldInit {
    pub name: Ident,
    pub value: Expr,
    pub span: Span,
}

/// The span of an expression.
pub open spec fn expr_span(e: Expr) -> Span {
    match e {
        Expr::Lit(_, s) => s,
        Expr::Var(i) => i.span,
        Expr::Unary { span, .. } => span,
        Expr::Call { span, .. } => span,
        Expr::Binary { span, .. } => span,
        Expr::Paren { span, .. } => span,
        Expr::Block(b) => b.span,
        Expr::If { span, .. } => span,
        Expr::While { span, .. } => span,
        Expr::Match { span, .. } => span,
        Expr::Tuple { span, .. } => span,
        Expr::StructExpr { span, .. } => span,
        Expr::PathExpr(p) => p.span,
    }
}

impl Expr {
    /// The span of this expression.
    pub fn span(&self) -> (r: Span)
        ensures
            r == expr_span(*self),
    {
        match self {
            Expr::Lit(_, span) => *span,
            Expr::Var(ident) => ident.span,
            Expr::Unary { span, .. } => *span,
            Expr::Call { span, .. } => *span,
            Expr::Binary { span, .. } => *span,
            Expr::Paren { span, .. } => *span,
            Expr::Block(block) => block.span,
            Expr::If { span, .. } => *span,
            Expr::While { span, .. } => *span,
            Expr::Match { span, .. } => *span,
            Expr::Tuple { span, .. } => *span,
            Expr::StructExpr { span, .. } => *span,
            Expr::PathExpr(path) => path.span,
        }
    }
}

#[derive(Clone, Copy, Debug, PartialEq, Eq, Structural)]
pub enum UnOp {
    Not,
    Neg,
}

/// Literal values. A float literal keeps the digits it was written with.
#[derive(Debug)]
pub enum Lit {
    Int(i64),
    Float(String),
    Str(String),
    Bool(bool),
    /// The `nil` literal, of type Unit.
    Nil,
}

#[derive(Clone, Copy, Debug, PartialEq, Eq, Structural)]
pub enum BinOp {
    Or,
    And,
    Eq,
    Ne,
    Lt,
    Le,
    Gt,
    Ge,
    Add,
    Sub,
    Mul,
    Div,
}

} // verus!
