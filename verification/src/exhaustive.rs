//! Exhaustiveness and redundancy of pattern matching, by pattern matrices
//! that are specialized on constructors or reduced to their default rows.
use vstd::prelude::*;
use crate::adt::{AdtDefM, AdtKindM, AdtRegistry, VariantFieldsM, VariantFields, variants_view, fields_view};
use crate::ast::{Lit, MatchArm, Pat, PatField, Span, joined_path, join_idents};
use crate::text::{decimal, push_char, push_decimal, str_equals};
use crate::ty::{Ty, TyConst, TyM, TypeVarId, lemma_tys_view, ty_view, tys_view};

verus! {

/// Largest pattern matrix (rows times columns) that is examined.
pub const MAX_PATTERN_MATRIX_SIZE: usize = 10000;

/// Deepest recursion of the checks.
pub const MAX_EXHAUSTIVENESS_DEPTH: usize = 100;

/// Errors of exhaustiveness checking.
#[derive(Debug)]
pub enum ExhaustivenessError {
    /// The match is not exhaustive; the witness is a case it misses.
    NonExhaustive { witness: Witness, span: Span },
    /// The pattern matrix is too large.
    MatrixTooLarge { size: usize, span: Span },
    /// The recursion went too deep.
    DepthExceeded { span: Span },
}

/// An example of a case that no arm covers.
#[derive(Debug)]
pub struct Witness {
    pub patterns: Vec<WitnessPat>,
}

/// A pattern of a witness.
#[derive(Debug)]
pub enum WitnessPat {
    Wildcard,
    Constructor { name: String, args: Vec<WitnessPat> },
    Literal(String),
}

/// Patterns reduced to wildcards, constructors and literals.
#[derive(Debug)]
pub enum SimplifiedPat {
    /// Matches anything.
    Wildcard,
    /// A constructor with its argument patterns, by its full name.
    Constructor { name: String, args: Vec<SimplifiedPat> },
    /// A literal.
    Literal(LiteralPat),
}

/// Literal patterns.
#[derive(Debug)]
pub enum LiteralPat {
    Int(i64),
    Bool(bool),
    String(String),
}

/// A row of a pattern matrix: one pattern per column, and the arm it came from.
#[derive(Debug)]
pub struct PatternRow {
    pub patterns: Vec<SimplifiedPat>,
    pub arm_index: usize,
}

/// A pattern matrix: rows of patterns over columns of known types.
#[derive(Debug)]
pub struct PatternMatrix {
    pub rows: Vec<PatternRow>,
    pub column_types: Vec<Ty>,
}

/// A constructor of a type: its full name, its number of arguments, and the
/// types of its arguments when known.
#[derive(Debug)]
pub struct Constructor {
    pub name: String,
    pub arity: usize,
    pub arg_types: Vec<Ty>,
}

// ---------------------------------------------------------------------------
// Models
// ---------------------------------------------------------------------------

/// What a literal pattern stands for.
pub enum LiteralPatM {
    Int(int),
    Bool(bool),
    Str(Seq<char>),
}

/// What a simplified pattern stands for.
pub enum PatM {
    Wildcard,
    Ctor(Seq<char>, Seq<PatM>),
    Lit(LiteralPatM),
}

/// What a witness pattern stands for.
pub enum WitnessPatM {
    Wildcard,
    Ctor(Seq<char>, Seq<WitnessPatM>),
    Lit(Seq<char>),
}

impl View for LiteralPat {
    type V = LiteralPatM;

    open spec fn view(&self) -> LiteralPatM {
        match self {
            LiteralPat::Int(n) => LiteralPatM::Int(*n as int),
            LiteralPat::Bool(b) => LiteralPatM::Bool(*b),
            LiteralPat::String(s) => LiteralPatM::Str(s@),
        }
    }
}

/// The model of a pattern.
pub open spec fn pat_view(p: SimplifiedPat) -> PatM
    decreases p,
{
    match p {
        SimplifiedPat::Wildcard => PatM::Wildcard,
        SimplifiedPat::Constructor { name, args } => PatM::Ctor(name@, pats_view(args@)),
        SimplifiedPat::Literal(l) => PatM::Lit(l@),
    }
}

/// The models of a sequence of patterns.
pub open spec fn pats_view(s: Seq<SimplifiedPat>) -> Seq<PatM>
    decreases s,
{
    if s.len() == 0 {
        Seq::empty()
    } else {
        pats_view(s.drop_last()).push(pat_view(s.last()))
    }
}

/// The model of a witness pattern.
pub open spec fn wpat_view(p: WitnessPat) -> WitnessPatM
    decreases p,
{
    match p {
        WitnessPat::Wildcard => WitnessPatM::Wildcard,
        WitnessPat::Constructor { name, args } => WitnessPatM::Ctor(name@, wpats_view(args@)),
        WitnessPat::Literal(s) => WitnessPatM::Lit(s@),
    }
}

/// The models of a sequence of witness patterns.
pub open spec fn wpats_view(s: Seq<WitnessPat>) -> Seq<WitnessPatM>
    decreases s,
{
    if s.len() == 0 {
        Seq::empty()
    } else {
        wpats_view(s.drop_last()).push(wpat_view(s.last()))
    }
}

proof fn lemma_pats_view(s: Seq<SimplifiedPat>)
    ensures
        pats_view(s).len() == s.len(),
        forall|i: int| 0 <= i < s.len() ==> #[trigger] pats_view(s)[i] == pat_view(s[i]),
    decreases s.len(),
{
    if s.len() > 0 {
        lemma_pats_view(s.drop_last());
    }
}

proof fn lemma_wpats_view(s: Seq<WitnessPat>)
    ensures
        wpats_view(s).len() == s.len(),
        forall|i: int| 0 <= i < s.len() ==> #[trigger] wpats_view(s)[i] == wpat_view(s[i]),
    decreases s.len(),
{
    if s.len() > 0 {
        lemma_wpats_view(s.drop_last());
    }
}

/// The models of a suffix are the suffix of the models.
proof fn lemma_pats_view_skip(s: Seq<SimplifiedPat>, k: int)
    requires
        0 <= k <= s.len(),
    ensures
        pats_view(s.skip(k)) == pats_view(s).skip(k),
{
    lemma_pats_view(s);
    lemma_pats_view(s.skip(k));
    assert(pats_view(s.skip(k)) =~= pats_view(s).skip(k));
}

/// Two sequences with the same models element by element have the same models.
proof fn lemma_pats_view_eq(a: Seq<SimplifiedPat>, b: Seq<SimplifiedPat>)
    requires
        a.len() == b.len(),
        forall|i: int| 0 <= i < a.len() ==> pat_view(#[trigger] a[i]) == pat_view(b[i]),
    ensures
        pats_view(a) == pats_view(b),
{
    lemma_pats_view(a);
    lemma_pats_view(b);
    assert(pats_view(a) =~= pats_view(b));
}

// ---------------------------------------------------------------------------
// Printing
// ---------------------------------------------------------------------------

/// How an integer is printed.
pub open spec fn int_text(n: int) -> Seq<char> {
    if n < 0 {
        "-"@ + decimal((-n) as nat)
    } else {
        decimal(n as nat)
    }
}

/// How a literal pattern is printed; constructors of literals are named so.
pub open spec fn lit_text(l: LiteralPatM) -> Seq<char> {
    match l {
        LiteralPatM::Int(n) => int_text(n),
        LiteralPatM::Bool(b) => if b {
            "true"@
        } else {
            "false"@
        },
        LiteralPatM::Str(s) => "\""@ + s + "\""@,
    }
}

/// How a witness pattern is printed.
pub open spec fn wpat_text(p: WitnessPatM) -> Seq<char>
    decreases p,
{
    match p {
        WitnessPatM::Wildcard => "_"@,
        WitnessPatM::Ctor(name, args) => if args.len() == 0 {
            name
        } else {
            name + "("@ + wpats_text(args) + ")"@
        },
        WitnessPatM::Lit(s) => s,
    }
}

/// How a sequence of witness patterns is printed: separated by commas.
pub open spec fn wpats_text(s: Seq<WitnessPatM>) -> Seq<char>
    decreases s,
{
    if s.len() == 0 {
        Seq::empty()
    } else if s.len() == 1 {
        wpat_text(s[0])
    } else {
        wpats_text(s.drop_last()) + ", "@ + wpat_text(s.last())
    }
}

/// How a witness is printed: `_` when empty, its one pattern, or its
/// patterns as a tuple.
pub open spec fn witness_text(s: Seq<WitnessPatM>) -> Seq<char> {
    if s.len() == 0 {
        "_"@
    } else if s.len() == 1 {
        wpat_text(s[0])
    } else {
        "("@ + wpats_text(s) + ")"@
    }
}

/// Appends the signed decimal spelling of `n`.
pub(crate) fn push_int(out: &mut String, n: i64)
    ensures
        final(out)@ == old(out)@ + int_text(n as int),
{
    if n < 0 {
        out.append("-");
        let m: u64 = if n == i64::MIN {
            9223372036854775808u64
        } else {
            (-n) as u64
        };
        push_decimal(out, m);
    } else {
        push_decimal(out, n as u64);
    }
}

impl LiteralPat {
    /// The printed form of the literal, which also names it as a constructor.
    pub fn text(&self) -> (r: String)
        ensures
            r@ == lit_text(self@),
    {
        let mut s = String::new();
        match self {
            LiteralPat::Int(n) => push_int(&mut s, *n),
            LiteralPat::Bool(b) => {
                if *b {
                    s.append("true");
                } else {
                    s.append("false");
                }
            },
            LiteralPat::String(x) => {
                s.append("\"");
                s.append(x.as_str());
                s.append("\"");
            },
        }
        assert(s@ =~= lit_text(self@));
        s
    }
}

fn write_wpat(p: &WitnessPat, out: &mut String)
    ensures
        final(out)@ == old(out)@ + wpat_text(wpat_view(*p)),
    decreases p,
{
    match p {
        WitnessPat::Wildcard => out.append("_"),
        WitnessPat::Constructor { name, args } => {
            out.append(name.as_str());
            proof {
                lemma_wpats_view(args@);
            }
            if args.len() > 0 {
                out.append("(");
                write_wpats(args, out);
                out.append(")");
            }
            assert(out@ =~= old(out)@ + wpat_text(wpat_view(*p)));
        },
        WitnessPat::Literal(s) => out.append(s.as_str()),
    }
}

fn write_wpats(s: &Vec<WitnessPat>, out: &mut String)
    ensures
        final(out)@ == old(out)@ + wpats_text(wpats_view(s@)),
    decreases s,
{
    let ghost start = out@;
    let mut i: usize = 0;
    while i < s.len()
        invariant
            i <= s@.len(),
            out@ == start + wpats_text(wpats_view(s@.take(i as int))),
        decreases s@.len() - i,
    {
        assert(decreases_to!(s => s@[i as int]));
        proof {
            assert(s@.take(i + 1).drop_last() =~= s@.take(i as int));
            lemma_wpats_view(s@.take(i + 1));
        }
        if i > 0 {
            out.append(", ");
        }
        write_wpat(&s[i], out);
        proof {
            let b = wpats_view(s@.take(i + 1));
            assert(b.drop_last() =~= wpats_view(s@.take(i as int)));
            assert(out@ =~= start + wpats_text(b));
        }
        i = i + 1;
    }
    assert(s@.take(s@.len() as int) =~= s@);
}

impl Witness {
    /// A witness of one wildcard.
    pub fn wildcard() -> (r: Self)
        ensures
            wpats_view(r.patterns@) == seq![WitnessPatM::Wildcard],
    {
        let mut patterns: Vec<WitnessPat> = Vec::new();
        patterns.push(WitnessPat::Wildcard);
        proof {
            lemma_wpats_view(patterns@);
            assert(wpats_view(patterns@) =~= seq![WitnessPatM::Wildcard]);
        }
        Witness { patterns }
    }

    /// A witness of one pattern.
    pub fn single(pat: WitnessPat) -> (r: Self)
        ensures
            wpats_view(r.patterns@) == seq![wpat_view(pat)],
    {
        let ghost pv = wpat_view(pat);
        let mut patterns: Vec<WitnessPat> = Vec::new();
        patterns.push(pat);
        proof {
            lemma_wpats_view(patterns@);
            assert(wpats_view(patterns@) =~= seq![pv]);
        }
        Witness { patterns }
    }

    /// A witness of several patterns, one per column.
    pub fn from_patterns(patterns: Vec<WitnessPat>) -> (r: Self)
        ensures
            r.patterns@ == patterns@,
    {
        Witness { patterns }
    }

    /// The printed form of the witness, such as `(Option::None, _)`.
    pub fn display(&self) -> (r: String)
        ensures
            r@ == witness_text(wpats_view(self.patterns@)),
    {
        let mut s = String::new();
        proof {
            lemma_wpats_view(self.patterns@);
        }
        if self.patterns.len() == 0 {
            s.append("_");
        } else if self.patterns.len() == 1 {
            write_wpat(&self.patterns[0], &mut s);
        } else {
            s.append("(");
            write_wpats(&self.patterns, &mut s);
            s.append(")");
        }
        assert(s@ =~= witness_text(wpats_view(self.patterns@)));
        s
    }
}

impl WitnessPat {
    /// The printed form of the pattern, such as `Some(_)`.
    pub fn display(&self) -> (r: String)
        ensures
            r@ == wpat_text(wpat_view(*self)),
    {
        let mut s = String::new();
        write_wpat(self, &mut s);
        assert(s@ =~= wpat_text(wpat_view(*self)));
        s
    }
}

// ---------------------------------------------------------------------------
// Copies
// ---------------------------------------------------------------------------

impl LiteralPat {
    /// A copy of the literal.
    pub fn copy(&self) -> (r: LiteralPat)
        ensures
            r@ == self@,
    {
        match self {
            LiteralPat::Int(n) => LiteralPat::Int(*n),
            LiteralPat::Bool(b) => LiteralPat::Bool(*b),
            LiteralPat::String(s) => LiteralPat::String(s.clone()),
        }
    }
}

impl SimplifiedPat {
    /// A copy of the pattern.
    pub fn copy(&self) -> (r: SimplifiedPat)
        ensures
            pat_view(r) == pat_view(*self),
        decreases self,
    {
        match self {
            SimplifiedPat::Wildcard => SimplifiedPat::Wildcard,
            SimplifiedPat::Constructor { name, args } => {
                let copied = copy_pats(args, 0);
                assert(args@.skip(0) =~= args@);
                SimplifiedPat::Constructor { name: name.clone(), args: copied }
            },
            SimplifiedPat::Literal(l) => SimplifiedPat::Literal(l.copy()),
        }
    }
}

/// A copy of the patterns from position `from` on.
fn copy_pats(s: &Vec<SimplifiedPat>, from: usize) -> (r: Vec<SimplifiedPat>)
    ensures
        from <= s@.len() ==> pats_view(r@) == pats_view(s@.skip(from as int)),
        from > s@.len() ==> r@.len() == 0,
    decreases s, 0nat,
{
    let mut out: Vec<SimplifiedPat> = Vec::new();
    if from > s.len() {
        return out;
    }
    let mut i: usize = from;
    while i < s.len()
        invariant
            from <= i <= s@.len(),
            out@.len() == i - from,
            forall|j: int| 0 <= j < out@.len() ==> pat_view(#[trigger] out@[j]) == pat_view(s@[j + from]),
        decreases s@.len() - i,
    {
        assert(decreases_to!(s => s@[i as int]));
        out.push(s[i].copy());
        i = i + 1;
    }
    proof {
        lemma_pats_view_eq(out@, s@.skip(from as int));
    }
    out
}

impl PatternRow {
    /// A row of patterns for an arm.
    pub fn new(patterns: Vec<SimplifiedPat>, arm_index: usize) -> (r: Self)
        ensures
            r.patterns@ == patterns@,
            r.arm_index == arm_index,
    {
        PatternRow { patterns, arm_index }
    }

    /// The first pattern, if any.
    pub fn first(&self) -> (r: Option<&SimplifiedPat>)
        ensures
            self.patterns@.len() > 0 ==> r == Some(&self.patterns@[0]),
            self.patterns@.len() == 0 ==> r is None,
    {
        if self.patterns.len() > 0 {
            Some(&self.patterns[0])
        } else {
            None
        }
    }

    /// The patterns after the first, as copies.
    pub fn rest(&self) -> (r: Vec<SimplifiedPat>)
        ensures
            self.patterns@.len() == 0 ==> r@.len() == 0,
            self.patterns@.len() > 0 ==> pats_view(r@) == pats_view(self.patterns@.skip(1)),
    {
        if self.patterns.len() == 0 {
            Vec::new()
        } else {
            copy_pats(&self.patterns, 1)
        }
    }

    /// A copy of the row.
    pub fn copy(&self) -> (r: PatternRow)
        ensures
            pats_view(r.patterns@) == pats_view(self.patterns@),
            r.arm_index == self.arm_index,
    {
        let patterns = copy_pats(&self.patterns, 0);
        assert(self.patterns@.skip(0) =~= self.patterns@);
        PatternRow { patterns, arm_index: self.arm_index }
    }
}

/// Whether a row is a catch-all for `cols` columns: at least that many
/// patterns, all wildcards.
pub open spec fn catch_all(row: PatternRow, cols: nat) -> bool {
    &&& row.patterns@.len() >= cols
    &&& forall|i: int| 0 <= i < row.patterns@.len() ==> (#[trigger] pats_view(row.patterns@)[i]) is Wildcard
}

/// Whether some row of a matrix is a catch-all.
pub open spec fn has_catch_all(m: PatternMatrix) -> bool {
    exists|i: int| 0 <= i < m.rows@.len() && #[trigger] catch_all(m.rows@[i], m.column_types@.len())
}

impl PatternMatrix {
    /// A matrix without rows over columns of the given types.
    pub fn new(column_types: Vec<Ty>) -> (r: Self)
        ensures
            r.rows@.len() == 0,
            r.column_types@ == column_types@,
    {
        PatternMatrix { rows: Vec::new(), column_types }
    }

    /// A matrix of the given rows.
    pub fn with_rows(rows: Vec<PatternRow>, column_types: Vec<Ty>) -> (r: Self)
        ensures
            r.rows@ == rows@,
            r.column_types@ == column_types@,
    {
        PatternMatrix { rows, column_types }
    }

    /// Adds a row at the bottom.
    pub fn add_row(&mut self, row: PatternRow)
        ensures
            final(self).rows@ == old(self).rows@.push(row),
            final(self).column_types@ == old(self).column_types@,
    {
        self.rows.push(row);
    }

    /// The number of rows.
    pub fn num_rows(&self) -> (r: usize)
        ensures
            r == self.rows@.len(),
    {
        self.rows.len()
    }

    /// The number of columns.
    pub fn num_columns(&self) -> (r: usize)
        ensures
            r == self.column_types@.len(),
    {
        self.column_types.len()
    }

    /// Whether there are no rows.
    pub fn is_empty(&self) -> (r: bool)
        ensures
            r == (self.rows@.len() == 0),
    {
        self.rows.len() == 0
    }

    /// The number of rows times the number of columns, counting no columns as one.
    pub fn size(&self) -> (r: usize)
        requires
            self.rows@.len() * (if self.column_types@.len() == 0 { 1 } else { self.column_types@.len() })
                <= usize::MAX,
        ensures
            r == self.rows@.len() * (if self.column_types@.len() == 0 { 1 } else { self.column_types@.len() }),
    {
        let cols = if self.column_types.len() == 0 {
            1
        } else {
            self.column_types.len()
        };
        self.rows.len() * cols
    }

    /// The type of the first column, if any.
    pub fn first_column_type(&self) -> (r: Option<&Ty>)
        ensures
            self.column_types@.len() > 0 ==> r == Some(&self.column_types@[0]),
            self.column_types@.len() == 0 ==> r is None,
    {
        if self.column_types.len() > 0 {
            Some(&self.column_types[0])
        } else {
            None
        }
    }
}

/// The number of rows times the number of columns, counting no columns as one.
pub open spec fn matrix_size(m: PatternMatrix) -> nat {
    m.rows@.len() * (if m.column_types@.len() == 0 { 1 } else { m.column_types@.len() })
}

/// The size of a matrix, saturating at the largest `usize`.
fn saturating_size(m: &PatternMatrix) -> (r: usize)
    ensures
        r == (if m.rows@.len() * (if m.column_types@.len() == 0 { 1 } else { m.column_types@.len() })
            <= usize::MAX {
            m.rows@.len() * (if m.column_types@.len() == 0 { 1 } else { m.column_types@.len() })
        } else {
            usize::MAX as nat
        }),
{
    let cols = if m.column_types.len() == 0 {
        1
    } else {
        m.column_types.len()
    };
    match m.rows.len().checked_mul(cols) {
        Some(v) => v,
        None => usize::MAX,
    }
}

impl Constructor {
    /// A constructor of the given arity whose argument types are unknown.
    pub fn new(name: &str, arity: usize) -> (r: Self)
        ensures
            r.name@ == name@,
            r.arity == arity,
            r.arg_types@.len() == 0,
    {
        Constructor { name: name.to_owned(), arity, arg_types: Vec::new() }
    }

    /// A constructor with the given argument types.
    pub fn with_arg_types(name: &str, arg_types: Vec<Ty>) -> (r: Self)
        ensures
            r.name@ == name@,
            r.arity == arg_types@.len(),
            r.arg_types@ == arg_types@,
    {
        let arity = arg_types.len();
        Constructor { name: name.to_owned(), arity, arg_types }
    }
}

// ---------------------------------------------------------------------------
// Constructors of types
// ---------------------------------------------------------------------------

/// A type with the type parameters `t0`, `t1`, ... replaced by the arguments.
pub open spec fn subst_args(t: TyM, args: Seq<TyM>) -> TyM
    decreases t,
{
    match t {
        TyM::Var(v) => if (v.0 as int) < args.len() {
            args[v.0 as int]
        } else {
            t
        },
        TyM::Arrow(ps, r, e) => TyM::Arrow(subst_args_seq(ps, args), Box::new(subst_args(*r, args)), e),
        TyM::Tuple(xs) => TyM::Tuple(subst_args_seq(xs, args)),
        TyM::List(x) => TyM::List(Box::new(subst_args(*x, args))),
        TyM::Adt(name, inner) => TyM::Adt(name, subst_args_seq(inner, args)),
        _ => t,
    }
}

/// A sequence of types with the type parameters replaced.
pub open spec fn subst_args_seq(s: Seq<TyM>, args: Seq<TyM>) -> Seq<TyM>
    decreases s,
{
    if s.len() == 0 {
        Seq::empty()
    } else {
        subst_args_seq(s.drop_last(), args).push(subst_args(s.last(), args))
    }
}

fn substitute_type_args(ty: &Ty, args: &Vec<Ty>) -> (r: Ty)
    ensures
        r@ == subst_args(ty@, tys_view(args@)),
    decreases ty,
{
    proof {
        lemma_tys_view(args@);
    }
    match ty {
        Ty::Var(v) => {
            let idx = v.0 as usize;
            if idx < args.len() {
                args[idx].copy()
            } else {
                ty.copy()
            }
        },
        Ty::Arrow(params, ret, eff) => Ty::arrow_eff(substitute_all(params, args), substitute_type_args(ret, args), *eff),
        Ty::Tuple(tys) => Ty::Tuple(substitute_all(tys, args)),
        Ty::List(t) => Ty::List(Box::new(substitute_type_args(t, args))),
        Ty::Adt { name, args: inner } => Ty::Adt { name: name.clone(), args: substitute_all(inner, args) },
        _ => ty.copy(),
    }
}

fn substitute_all(s: &Vec<Ty>, args: &Vec<Ty>) -> (r: Vec<Ty>)
    ensures
        tys_view(r@) == subst_args_seq(tys_view(s@), tys_view(args@)),
    decreases s,
{
    let mut out: Vec<Ty> = Vec::new();
    let mut i: usize = 0;
    while i < s.len()
        invariant
            i <= s@.len(),
            tys_view(out@) == subst_args_seq(tys_view(s@.take(i as int)), tys_view(args@)),
        decreases s@.len() - i,
    {
        assert(decreases_to!(s => s@[i as int]));
        let t = substitute_type_args(&s[i], args);
        let ghost before = out@;
        out.push(t);
        proof {
            crate::ty::lemma_tys_view_take(s@, i as int);
            assert(out@.drop_last() =~= before);
            assert(tys_view(s@.take(i + 1)).drop_last() =~= tys_view(s@.take(i as int)));
        }
        i = i + 1;
    }
    assert(s@.take(s@.len() as int) =~= s@);
    out
}

/// The constructors of a type, by name and argument types: `true` and
/// `false` for `Bool`; the variants of a registered enum, named
/// `Enum::Variant`; the one constructor of a registered struct or of a tuple;
/// none for any other type.
pub open spec fn ctor_models(reg: Map<Seq<char>, AdtDefM>, t: TyM) -> Seq<(Seq<char>, Seq<TyM>)> {
    match t {
        TyM::Const(TyConst::Bool) => seq![("true"@, Seq::empty()), ("false"@, Seq::empty())],
        TyM::Adt(name, args) => if reg.contains_key(name) {
            match reg[name].kind {
                AdtKindM::Enum(vs) => Seq::new(vs.len(), |i: int| (name + "::"@ + vs[i].name, match vs[i].fields {
                    VariantFieldsM::Unit => Seq::empty(),
                    VariantFieldsM::Tuple(tys) => subst_args_seq(tys, args),
                })),
                AdtKindM::Struct(fs) => seq![(name, subst_args_seq(fs.map_values(|f: (Seq<char>, TyM)| f.1), args))],
            }
        } else {
            Seq::empty()
        },
        TyM::Tuple(tys) => seq![("Tuple"@ + decimal(tys.len()), tys)],
        _ => Seq::empty(),
    }
}

/// Whether each constructor has as many arguments as argument types.
pub open spec fn arities_match(cs: Seq<Constructor>) -> bool {
    forall|i: int| 0 <= i < cs.len() ==> (#[trigger] cs[i]).arity == cs[i].arg_types@.len()
}

/// The name and argument types of each constructor.
pub open spec fn ctor_list_view(cs: Seq<Constructor>) -> Seq<(Seq<char>, Seq<TyM>)> {
    cs.map_values(|c: Constructor| (c.name@, tys_view(c.arg_types@)))
}

/// The exhaustiveness checker: the registry of types, the current depth, and
/// the span to report.
pub struct ExhaustivenessChecker<'a> {
    registry: &'a AdtRegistry,
    depth: usize,
    span: Span,
}

/// The arm indices of the rows that are not useful, in order.
pub open spec fn flagged(rows: Seq<PatternRow>, useful: Seq<bool>) -> Seq<usize>
    decreases rows.len(),
{
    if rows.len() == 0 || useful.len() == 0 {
        Seq::empty()
    } else {
        let rest = flagged(rows.drop_last(), useful.drop_last());
        if useful.last() {
            rest
        } else {
            rest.push(rows.last().arm_index)
        }
    }
}

/// Whether `flagged_arms` are the arms of the rows judged not useful by
/// `useful`, one verdict per row, where the first row is useful and every row
/// after a catch-all row is not.
pub open spec fn redundancy_verdict(matrix: PatternMatrix, useful: Seq<bool>, flagged_arms: Seq<usize>) -> bool {
    &&& useful.len() == matrix.rows@.len()
    &&& flagged_arms == flagged(matrix.rows@, useful)
    &&& matrix.rows@.len() > 0 ==> useful[0]
    &&& forall|i: int, j: int| 0 <= j < i < matrix.rows@.len() && #[trigger] catch_all(matrix.rows@[j],
        matrix.column_types@.len()) ==> !#[trigger] useful[i]
}

/// The depth measure of the checks.
pub open spec fn depth_left(d: usize) -> nat {
    if d <= 101 {
        (102 - d) as nat
    } else {
        0
    }
}

/// Whether a pattern matches everything a witness pattern stands for: a
/// wildcard matches anything; a constructor pattern covers the same
/// constructor when each of its arguments covers the witness's argument in
/// the same place; a literal covers the witness literal, or the constructor
/// without arguments, that it names.
pub open spec fn pat_covers(p: PatM, w: WitnessPatM) -> bool
    decreases p,
{
    match p {
        PatM::Wildcard => true,
        PatM::Ctor(n, ps) => match w {
            WitnessPatM::Ctor(m, ws) => n == m && ps.len() == ws.len() && forall|i: int|
                0 <= i < ps.len() ==> pat_covers(#[trigger] ps[i], ws[i]),
            _ => false,
        },
        PatM::Lit(l) => match w {
            WitnessPatM::Ctor(m, ws) => ws.len() == 0 && m == lit_text(l),
            WitnessPatM::Lit(s) => s == lit_text(l),
            WitnessPatM::Wildcard => false,
        },
    }
}

/// Whether a row of patterns covers a row of witness patterns, column by
/// column.
pub open spec fn row_covers(ps: Seq<PatM>, ws: Seq<WitnessPatM>) -> bool {
    ps.len() == ws.len() && forall|i: int| 0 <= i < ps.len() ==> pat_covers(#[trigger] ps[i], ws[i])
}

/// Whether some row of a matrix covers a row of witness patterns.
pub open spec fn matrix_covers(m: PatternMatrix, ws: Seq<WitnessPatM>) -> bool {
    exists|j: int| 0 <= j < m.rows@.len() && row_covers(pats_view((#[trigger] m.rows@[j]).patterns@), ws)
}

/// A witness row with a constructor put back in front: the first `arity`
/// patterns (all of them, when there are fewer) become its arguments.
pub open spec fn with_ctor(name: Seq<char>, arity: nat, ws: Seq<WitnessPatM>) -> Seq<WitnessPatM> {
    let k = if arity <= ws.len() {
        arity as int
    } else {
        ws.len() as int
    };
    seq![WitnessPatM::Ctor(name, ws.take(k))] + ws.skip(k)
}

/// A row of pattern models specialized on a constructor: a leading wildcard
/// becomes `arity` wildcards, a leading constructor of that name its
/// arguments, a leading literal of that name nothing; any other row drops out.
pub open spec fn specialized_row(ps: Seq<PatM>, name: Seq<char>, arity: nat) -> Option<Seq<PatM>> {
    if ps.len() == 0 {
        None
    } else {
        match ps[0] {
            PatM::Wildcard => Some(Seq::new(arity, |i: int| PatM::Wildcard) + ps.skip(1)),
            PatM::Ctor(n, args) => if n == name {
                Some(args + ps.skip(1))
            } else {
                None
            },
            PatM::Lit(l) => if lit_text(l) == name {
                Some(ps.skip(1))
            } else {
                None
            },
        }
    }
}

/// The first constructor of a signature with the name, or `-1`.
pub open spec fn first_ctor(cs: Seq<(Seq<char>, Seq<TyM>)>, n: Seq<char>) -> int
    decreases cs.len(),
{
    if cs.len() == 0 {
        -1
    } else if cs[0].0 == n {
        0
    } else {
        let r = first_ctor(cs.drop_first(), n);
        if r < 0 {
            -1
        } else {
            r + 1
        }
    }
}

/// The first constructor of a signature with a name is one with that name,
/// before which none has it.
pub proof fn lemma_first_ctor(cs: Seq<(Seq<char>, Seq<TyM>)>, n: Seq<char>)
    ensures
        first_ctor(cs, n) < cs.len(),
        -1 <= first_ctor(cs, n),
        0 <= first_ctor(cs, n) ==> cs[first_ctor(cs, n)].0 == n,
        forall|j: int| 0 <= j < cs.len() && (first_ctor(cs, n) < 0 || j < first_ctor(cs, n)) ==> (#[trigger] cs[j]).0 != n,
    decreases cs.len(),
{
    if cs.len() > 0 && cs[0].0 != n {
        lemma_first_ctor(cs.drop_first(), n);
        assert forall|j: int| 0 <= j < cs.len() && (first_ctor(cs, n) < 0 || j < first_ctor(cs, n)) implies (#[trigger] cs[j]).0
            != n by {
            if j > 0 {
                assert(cs[j] == cs.drop_first()[j - 1]);
            }
        }
    }
}

/// Whether a pattern fits a type: a wildcard fits any type; a constructor
/// pattern names a constructor of the type, with one argument pattern, each
/// fitting, per argument of the first constructor of that name; a literal
/// fits a type without constructors or names one without arguments.
pub open spec fn pat_fits(types: Map<Seq<char>, AdtDefM>, ty: TyM, p: PatM) -> bool
    decreases p,
{
    match p {
        PatM::Wildcard => true,
        PatM::Ctor(n, args) => {
            let cs = ctor_models(types, ty);
            let i = first_ctor(cs, n);
            &&& 0 <= i < cs.len()
            &&& args.len() == cs[i].1.len()
            &&& forall|k: int| 0 <= k < args.len() ==> pat_fits(types, cs[i].1[k], #[trigger] args[k])
        },
        PatM::Lit(l) => {
            let cs = ctor_models(types, ty);
            let i = first_ctor(cs, lit_text(l));
            cs.len() == 0 || (0 <= i < cs.len() && cs[i].1.len() == 0)
        },
    }
}

/// Whether a row of patterns fits a row of column types, one pattern each.
pub open spec fn row_fits(types: Map<Seq<char>, AdtDefM>, tys: Seq<TyM>, ps: Seq<PatM>) -> bool {
    ps.len() == tys.len() && forall|i: int| 0 <= i < ps.len() ==> pat_fits(types, tys[i], #[trigger] ps[i])
}

/// Whether every row of a matrix fits its column types.
pub open spec fn matrix_fits(types: Map<Seq<char>, AdtDefM>, m: PatternMatrix) -> bool {
    forall|j: int| 0 <= j < m.rows@.len() ==> row_fits(types, tys_view(m.column_types@), pats_view(#[trigger] m.rows@[j].patterns@))
}

/// Whether a witness pattern stands for values of a type: for a type with
/// constructors, one of its constructors applied to values of its argument
/// types; for a type without, anything.
pub open spec fn value_fits(types: Map<Seq<char>, AdtDefM>, ty: TyM, w: WitnessPatM) -> bool
    decreases w,
{
    let cs = ctor_models(types, ty);
    if cs.len() == 0 {
        true
    } else {
        match w {
            WitnessPatM::Ctor(n, args) => {
                let i = first_ctor(cs, n);
                &&& 0 <= i < cs.len()
                &&& args.len() == cs[i].1.len()
                &&& forall|k: int| 0 <= k < args.len() ==> value_fits(types, cs[i].1[k], #[trigger] args[k])
            },
            _ => false,
        }
    }
}

/// Whether a row of witness patterns stands for values of the column types.
pub open spec fn values_fit(types: Map<Seq<char>, AdtDefM>, tys: Seq<TyM>, ws: Seq<WitnessPatM>) -> bool {
    ws.len() == tys.len() && forall|i: int| 0 <= i < ws.len() ==> value_fits(types, tys[i], #[trigger] ws[i])
}

/// A row that specializes, on a constructor whose argument count its leading
/// pattern respects, to a row covering a witness covers that witness with
/// the constructor put back in front.
proof fn lemma_specialized_back(ps: Seq<PatM>, name: Seq<char>, arity: nat, ws: Seq<WitnessPatM>)
    requires
        ws.len() >= arity,
        specialized_row(ps, name, arity) matches Some(qs) && row_covers(qs, ws),
        ps.len() > 0 ==> (ps[0] matches PatM::Ctor(_, args) ==> args.len() == arity),
        ps.len() > 0 ==> (ps[0] is Lit ==> arity == 0),
    ensures
        row_covers(ps, with_ctor(name, arity, ws)),
{
    let qs = specialized_row(ps, name, arity)->Some_0;
    let full = with_ctor(name, arity, ws);
    assert(full[0] == WitnessPatM::Ctor(name, ws.take(arity as int)));
    assert forall|i: int| 1 <= i < full.len() implies #[trigger] full[i] == ws[i - 1 + arity] by {
        assert(full[i] == ws.skip(arity as int)[i - 1]);
    }
    match ps[0] {
        PatM::Wildcard => {
            assert forall|i: int| 0 <= i < ps.len() implies pat_covers(#[trigger] ps[i], full[i]) by {
                if i > 0 {
                    assert(qs[i - 1 + arity] == ps[i]);
                }
            }
        },
        PatM::Ctor(n, args) => {
            assert forall|k: int| 0 <= k < args.len() implies pat_covers(#[trigger] args[k], ws.take(arity as int)[k]) by {
                assert(qs[k] == args[k]);
            }
            assert(pat_covers(ps[0], full[0]));
            assert forall|i: int| 0 <= i < ps.len() implies pat_covers(#[trigger] ps[i], full[i]) by {
                if i > 0 {
                    assert(qs[i - 1 + arity] == ps[i]);
                }
            }
        },
        PatM::Lit(l) => {
            assert(ws.take(0) =~= Seq::<WitnessPatM>::empty());
            assert forall|i: int| 0 <= i < ps.len() implies pat_covers(#[trigger] ps[i], full[i]) by {
                if i > 0 {
                    assert(qs[i - 1] == ps[i]);
                }
            }
        },
    }
}

/// A fitting row specialized on the first constructor of its name fits that
/// constructor's argument types followed by the other columns' types, and
/// its leading pattern respects the constructor's argument count.
proof fn lemma_specialized_fits(
    types: Map<Seq<char>, AdtDefM>,
    tys: Seq<TyM>,
    ps: Seq<PatM>,
    i: int,
)
    requires
        row_fits(types, tys, ps),
        tys.len() > 0,
        0 <= i < ctor_models(types, tys[0]).len(),
        first_ctor(ctor_models(types, tys[0]), ctor_models(types, tys[0])[i].0) == i,
    ensures
        ps.len() > 0 ==> (ps[0] matches PatM::Ctor(n, args) ==> (n == ctor_models(types, tys[0])[i].0 ==> args.len()
            == ctor_models(types, tys[0])[i].1.len())),
        ps.len() > 0 ==> (ps[0] matches PatM::Lit(l) ==> (lit_text(l) == ctor_models(types, tys[0])[i].0 ==> ctor_models(
            types,
            tys[0],
        )[i].1.len() == 0)),
        specialized_row(ps, ctor_models(types, tys[0])[i].0, ctor_models(types, tys[0])[i].1.len()) matches Some(qs)
            ==> row_fits(types, ctor_models(types, tys[0])[i].1 + tys.skip(1), qs),
{
    let cs = ctor_models(types, tys[0]);
    let c = cs[i];
    let a = c.1.len();
    let nt = c.1 + tys.skip(1);
    assert(pat_fits(types, tys[0], ps[0]));
    if specialized_row(ps, c.0, a) is Some {
        let qs = specialized_row(ps, c.0, a)->Some_0;
        match ps[0] {
            PatM::Wildcard => {
                assert forall|k: int| 0 <= k < qs.len() implies pat_fits(types, nt[k], #[trigger] qs[k]) by {
                    if k >= a {
                        assert(qs[k] == ps[k - a + 1]);
                        assert(nt[k] == tys[k - a + 1]);
                        assert(pat_fits(types, tys[k - a + 1], ps[k - a + 1]));
                    }
                }
            },
            PatM::Ctor(n, args) => {
                assert forall|k: int| 0 <= k < qs.len() implies pat_fits(types, nt[k], #[trigger] qs[k]) by {
                    if k >= a {
                        assert(qs[k] == ps[k - a + 1]);
                        assert(nt[k] == tys[k - a + 1]);
                        assert(pat_fits(types, tys[k - a + 1], ps[k - a + 1]));
                    } else {
                        assert(qs[k] == args[k]);
                        assert(nt[k] == c.1[k]);
                    }
                }
            },
            PatM::Lit(l) => {
                assert forall|k: int| 0 <= k < qs.len() implies pat_fits(types, nt[k], #[trigger] qs[k]) by {
                    assert(qs[k] == ps[k + 1]);
                    assert(nt[k] == tys[k + 1]);
                    assert(pat_fits(types, tys[k + 1], ps[k + 1]));
                }
            },
        }
    }
}

/// Whether every row of values of the constructor's argument types followed
/// by the other columns' types, with the constructor put back in front, is
/// covered by the matrix.
pub open spec fn ctor_covered(
    types: Map<Seq<char>, AdtDefM>,
    m: PatternMatrix,
    cs: Seq<(Seq<char>, Seq<TyM>)>,
    k: int,
) -> bool {
    forall|ws: Seq<WitnessPatM>| #[trigger] values_fit(types, cs[k].1 + tys_view(m.column_types@).skip(1), ws)
        ==> matrix_covers(m, with_ctor(cs[k].0, cs[k].1.len(), ws))
}

/// Specializing a fitting matrix on the first constructor of its name, of
/// the first column's type, gives a fitting matrix.
proof fn lemma_specialized_matrix_fits(types: Map<Seq<char>, AdtDefM>, m: &PatternMatrix, sp: PatternMatrix, k: int)
    requires
        matrix_fits(types, *m),
        m.column_types@.len() > 0,
        0 <= k < ctor_models(types, tys_view(m.column_types@)[0]).len(),
        first_ctor(ctor_models(types, tys_view(m.column_types@)[0]), ctor_models(types, tys_view(m.column_types@)[0])[k].0)
            == k,
        specialized_origin(*m, sp, ctor_models(types, tys_view(m.column_types@)[0])[k].0, ctor_models(types, tys_view(m.column_types@)[0])[k].1.len()),
        tys_view(sp.column_types@) == ctor_models(types, tys_view(m.column_types@)[0])[k].1 + tys_view(m.column_types@).skip(1),
    ensures
        matrix_fits(types, sp),
{
    let tys = tys_view(m.column_types@);
    let c = ctor_models(types, tys[0])[k];
    lemma_tys_view(m.column_types@);
    assert forall|q: int| 0 <= q < sp.rows@.len() implies row_fits(types, tys_view(sp.column_types@), pats_view(
        #[trigger] sp.rows@[q].patterns@,
    )) by {
        let j = choose|j: int| 0 <= j < m.rows@.len() && Some(pats_view(sp.rows@[q].patterns@)) == specialized_row(
            pats_view(m.rows@[j].patterns@),
            c.0,
            c.1.len(),
        );
        assert(row_fits(types, tys, pats_view(m.rows@[j].patterns@)));
        lemma_specialized_fits(types, tys, pats_view(m.rows@[j].patterns@), k);
    }
}

/// When the specialization of a fitting matrix on a constructor covers every
/// row of values of its column types, the matrix covers every such row with
/// the constructor put back in front.
proof fn lemma_specialized_matrix_back(types: Map<Seq<char>, AdtDefM>, m: &PatternMatrix, sp: PatternMatrix, k: int)
    requires
        matrix_fits(types, *m),
        m.column_types@.len() > 0,
        0 <= k < ctor_models(types, tys_view(m.column_types@)[0]).len(),
        first_ctor(ctor_models(types, tys_view(m.column_types@)[0]), ctor_models(types, tys_view(m.column_types@)[0])[k].0)
            == k,
        specialized_origin(*m, sp, ctor_models(types, tys_view(m.column_types@)[0])[k].0, ctor_models(types, tys_view(m.column_types@)[0])[k].1.len()),
        tys_view(sp.column_types@) == ctor_models(types, tys_view(m.column_types@)[0])[k].1 + tys_view(m.column_types@).skip(1),
        forall|ws: Seq<WitnessPatM>| #[trigger] values_fit(types, tys_view(sp.column_types@), ws) ==> matrix_covers(sp, ws),
    ensures
        ctor_covered(types, *m, ctor_models(types, tys_view(m.column_types@)[0]), k),
{
    let tys = tys_view(m.column_types@);
    let cs = ctor_models(types, tys[0]);
    let c = cs[k];
    lemma_tys_view(m.column_types@);
    assert forall|ws: Seq<WitnessPatM>| #[trigger] values_fit(types, cs[k].1 + tys.skip(1), ws) implies matrix_covers(
        *m,
        with_ctor(cs[k].0, cs[k].1.len(), ws),
    ) by {
        assert(values_fit(types, tys_view(sp.column_types@), ws));
        let q = choose|q: int| 0 <= q < sp.rows@.len() && row_covers(pats_view((#[trigger] sp.rows@[q]).patterns@), ws);
        let j = choose|j: int| 0 <= j < m.rows@.len() && Some(pats_view(sp.rows@[q].patterns@)) == specialized_row(
            pats_view(m.rows@[j].patterns@),
            c.0,
            c.1.len(),
        );
        assert(row_fits(types, tys, pats_view(m.rows@[j].patterns@)));
        lemma_specialized_fits(types, tys, pats_view(m.rows@[j].patterns@), k);
        lemma_specialized_back(pats_view(m.rows@[j].patterns@), c.0, c.1.len(), ws);
        assert(row_covers(pats_view(m.rows@[j].patterns@), with_ctor(c.0, c.1.len(), ws)));
    }
}

/// When every constructor of the first column's type, taken at the first
/// place it is named, is covered, the matrix covers every row of values of
/// its column types.
proof fn lemma_complete_covers(types: Map<Seq<char>, AdtDefM>, m: PatternMatrix)
    requires
        m.column_types@.len() > 0,
        ctor_models(types, tys_view(m.column_types@)[0]).len() > 0,
        forall|k2: int| 0 <= k2 < ctor_models(types, tys_view(m.column_types@)[0]).len() && first_ctor(
            ctor_models(types, tys_view(m.column_types@)[0]),
            ctor_models(types, tys_view(m.column_types@)[0])[k2].0,
        ) == k2 ==> #[trigger] ctor_covered(types, m, ctor_models(types, tys_view(m.column_types@)[0]), k2),
    ensures
        forall|ws: Seq<WitnessPatM>| #[trigger] values_fit(types, tys_view(m.column_types@), ws) ==> matrix_covers(m, ws),
{
    let tys = tys_view(m.column_types@);
    let cs = ctor_models(types, tys[0]);
    lemma_tys_view(m.column_types@);
    assert forall|ws: Seq<WitnessPatM>| #[trigger] values_fit(types, tys, ws) implies matrix_covers(m, ws) by {
        assert(value_fits(types, tys[0], ws[0]));
        let n = ws[0]->Ctor_0;
        let args = ws[0]->Ctor_1;
        let i = first_ctor(cs, n);
        lemma_first_ctor(cs, n);
        let c = cs[i];
        assert(first_ctor(cs, cs[i].0) == i);
        assert(ctor_covered(types, m, cs, i));
        let rest = args + ws.skip(1);
        let nt = c.1 + tys.skip(1);
        assert forall|q: int| 0 <= q < rest.len() implies value_fits(types, nt[q], #[trigger] rest[q]) by {
            if q < args.len() {
                assert(rest[q] == args[q]);
                assert(nt[q] == c.1[q]);
            } else {
                assert(rest[q] == ws[q - args.len() + 1]);
                assert(nt[q] == tys[q - args.len() + 1]);
            }
        }
        assert(values_fit(types, nt, rest));
        assert(rest.take(c.1.len() as int) =~= args);
        assert(rest.skip(c.1.len() as int) =~= ws.skip(1));
        assert(ws[0] == WitnessPatM::Ctor(n, args));
        assert(with_ctor(c.0, c.1.len(), rest) =~= seq![ws[0]] + ws.skip(1));
        assert(seq![ws[0]] + ws.skip(1) =~= ws);
    }
}

/// The default matrix of a fitting matrix fits.
proof fn lemma_default_fits(types: Map<Seq<char>, AdtDefM>, m: &PatternMatrix, d: PatternMatrix)
    requires
        matrix_fits(types, *m),
        m.column_types@.len() > 0,
        default_origin(*m, d),
        tys_view(d.column_types@) == tys_view(m.column_types@).skip(1),
    ensures
        matrix_fits(types, d),
{
    let tys = tys_view(m.column_types@);
    assert forall|k: int| 0 <= k < d.rows@.len() implies row_fits(types, tys_view(d.column_types@), pats_view(
        #[trigger] d.rows@[k].patterns@,
    )) by {
        let j = choose|j: int| 0 <= j < m.rows@.len() && pats_view(m.rows@[j].patterns@).len() > 0 && pats_view(
            m.rows@[j].patterns@,
        )[0] is Wildcard && pats_view(d.rows@[k].patterns@) == pats_view(m.rows@[j].patterns@).skip(1);
        let ps = pats_view(m.rows@[j].patterns@);
        assert(row_fits(types, tys, ps));
        assert forall|q: int| 0 <= q < ps.skip(1).len() implies pat_fits(types, tys.skip(1)[q], #[trigger] ps.skip(1)[q]) by {
            assert(ps.skip(1)[q] == ps[q + 1]);
            assert(tys.skip(1)[q] == tys[q + 1]);
        }
    }
}

/// When the default matrix covers every row of values of its column types,
/// the matrix covers every row of values of its own.
proof fn lemma_default_back(types: Map<Seq<char>, AdtDefM>, m: &PatternMatrix, d: PatternMatrix)
    requires
        m.column_types@.len() > 0,
        default_origin(*m, d),
        tys_view(d.column_types@) == tys_view(m.column_types@).skip(1),
        forall|ws: Seq<WitnessPatM>| #[trigger] values_fit(types, tys_view(d.column_types@), ws) ==> matrix_covers(d, ws),
    ensures
        forall|ws: Seq<WitnessPatM>| #[trigger] values_fit(types, tys_view(m.column_types@), ws) ==> matrix_covers(*m, ws),
{
    let tys = tys_view(m.column_types@);
    lemma_tys_view(m.column_types@);
    assert forall|ws: Seq<WitnessPatM>| #[trigger] values_fit(types, tys, ws) implies matrix_covers(*m, ws) by {
        let rest = ws.skip(1);
        assert forall|q: int| 0 <= q < rest.len() implies value_fits(types, tys.skip(1)[q], #[trigger] rest[q]) by {
            assert(rest[q] == ws[q + 1]);
            assert(tys.skip(1)[q] == tys[q + 1]);
        }
        assert(values_fit(types, tys_view(d.column_types@), rest));
        assert(matrix_covers(d, rest));
        let q = choose|q: int| 0 <= q < d.rows@.len() && row_covers(pats_view((#[trigger] d.rows@[q]).patterns@), rest);
        let j = choose|j: int| 0 <= j < m.rows@.len() && pats_view(m.rows@[j].patterns@).len() > 0 && pats_view(
            m.rows@[j].patterns@,
        )[0] is Wildcard && pats_view(d.rows@[q].patterns@) == pats_view(m.rows@[j].patterns@).skip(1);
        let ps = pats_view(m.rows@[j].patterns@);
        assert forall|t: int| 0 <= t < ps.len() implies pat_covers(#[trigger] ps[t], ws[t]) by {
            if t > 0 {
                assert(ps.skip(1)[t - 1] == ps[t]);
                assert(rest[t - 1] == ws[t]);
            }
        }
        assert(row_covers(ps, ws));
    }
}

/// Whether every row of `d` is a row of `m` that starts with a wildcard,
/// without its first pattern.
pub open spec fn default_origin(m: PatternMatrix, d: PatternMatrix) -> bool {
    forall|k: int| 0 <= k < d.rows@.len() ==> exists|j: int| 0 <= j < m.rows@.len() && pats_view(
        m.rows@[j].patterns@,
    ).len() > 0 && pats_view(m.rows@[j].patterns@)[0] is Wildcard && pats_view((#[trigger] d.rows@[k]).patterns@)
        == pats_view(m.rows@[j].patterns@).skip(1)
}

/// Whether every row of `sp` is a row of `m` specialized on a constructor.
pub open spec fn specialized_origin(m: PatternMatrix, sp: PatternMatrix, name: Seq<char>, arity: nat) -> bool {
    forall|q: int| 0 <= q < sp.rows@.len() ==> exists|j: int| 0 <= j < m.rows@.len() && Some(pats_view(
        (#[trigger] sp.rows@[q]).patterns@,
    )) == specialized_row(pats_view(m.rows@[j].patterns@), name, arity)
}

/// A row that covers a witness with a constructor in front specializes, on
/// that constructor, to a row that covers the rest of the witness.
proof fn lemma_specialized_covers(ps: Seq<PatM>, name: Seq<char>, arity: nat, ws: Seq<WitnessPatM>)
    requires
        ws.len() >= arity,
        row_covers(ps, with_ctor(name, arity, ws)),
    ensures
        specialized_row(ps, name, arity) matches Some(qs) && row_covers(qs, ws),
{
    let full = with_ctor(name, arity, ws);
    assert(full[0] == WitnessPatM::Ctor(name, ws.take(arity as int)));
    assert(pat_covers(ps[0], full[0]));
    assert forall|i: int| 1 <= i < ps.len() implies #[trigger] full[i] == ws[i - 1 + arity] by {
        assert(full[i] == ws.skip(arity as int)[i - 1]);
    }
    match ps[0] {
        PatM::Wildcard => {
            let qs = Seq::new(arity, |i: int| PatM::Wildcard) + ps.skip(1);
            assert forall|i: int| 0 <= i < qs.len() implies pat_covers(#[trigger] qs[i], ws[i]) by {
                if i >= arity {
                    assert(qs[i] == ps[i - arity + 1]);
                    assert(pat_covers(ps[i - arity + 1], full[i - arity + 1]));
                }
            }
        },
        PatM::Ctor(n, args) => {
            let qs = args + ps.skip(1);
            assert forall|i: int| 0 <= i < qs.len() implies pat_covers(#[trigger] qs[i], ws[i]) by {
                if i >= arity {
                    assert(qs[i] == ps[i - arity + 1]);
                    assert(pat_covers(ps[i - arity + 1], full[i - arity + 1]));
                } else {
                    assert(qs[i] == args[i]);
                    assert(ws.take(arity as int)[i] == ws[i]);
                    assert(pat_covers(args[i], ws.take(arity as int)[i]));
                }
            }
        },
        PatM::Lit(l) => {
            let qs = ps.skip(1);
            assert(arity == 0);
            assert forall|i: int| 0 <= i < qs.len() implies pat_covers(#[trigger] qs[i], ws[i]) by {
                assert(qs[i] == ps[i + 1]);
                assert(pat_covers(ps[i + 1], full[i + 1]));
            }
        },
    }
}

/// A witness that the default matrix misses, with a constructor that no row
/// names (or a wildcard) in front, is missed by the whole matrix.
proof fn lemma_default_witness(
    matrix: PatternMatrix,
    default: PatternMatrix,
    used: Seq<String>,
    m: WitnessPatM,
    ws: Seq<WitnessPatM>,
)
    requires
        forall|j: int| 0 <= j < matrix.rows@.len() && pats_view((#[trigger] matrix.rows@[j]).patterns@).len() > 0
            && pats_view(matrix.rows@[j].patterns@)[0] is Wildcard ==> exists|k: int| 0 <= k < default.rows@.len()
                && pats_view((#[trigger] default.rows@[k]).patterns@) == pats_view(matrix.rows@[j].patterns@).skip(1),
        forall|j: int| 0 <= j < matrix.rows@.len() ==> #[trigger] first_named(pats_view(matrix.rows@[j].patterns@), used),
        !matrix_covers(default, ws),
        m is Wildcard || (m matches WitnessPatM::Ctor(n, _) && !name_used(used, n)),
    ensures
        !matrix_covers(matrix, seq![m] + ws),
{
    let full = seq![m] + ws;
    if matrix_covers(matrix, full) {
        let j = choose|j: int| 0 <= j < matrix.rows@.len() && row_covers(pats_view((#[trigger] matrix.rows@[j]).patterns@), full);
        let ps = pats_view(matrix.rows@[j].patterns@);
        assert(full[0] == m);
        assert(pat_covers(ps[0], full[0]));
        assert(first_named(ps, used));
        match ps[0] {
            PatM::Wildcard => {
                let k = choose|k: int| 0 <= k < default.rows@.len() && pats_view((#[trigger] default.rows@[k]).patterns@)
                    == pats_view(matrix.rows@[j].patterns@).skip(1);
                assert forall|i: int| 0 <= i < ps.skip(1).len() implies pat_covers(#[trigger] ps.skip(1)[i], ws[i]) by {
                    assert(ps.skip(1)[i] == ps[i + 1]);
                    assert(full[i + 1] == ws[i]);
                    assert(pat_covers(ps[i + 1], full[i + 1]));
                }
                assert(row_covers(pats_view(default.rows@[k].patterns@), ws));
                assert(matrix_covers(default, ws));
            },
            PatM::Ctor(n, _) => {
                assert(name_used(used, n));
            },
            PatM::Lit(l) => {
                assert(name_used(used, lit_text(l)));
            },
        }
    }
}

impl<'a> ExhaustivenessChecker<'a> {
    /// The registry the checker consults.
    pub closed spec fn types(&self) -> Map<Seq<char>, AdtDefM> {
        self.registry@
    }

    /// The current recursion depth.
    pub closed spec fn current_depth(&self) -> usize {
        self.depth
    }

    /// A checker over a registry, reporting errors at `span`.
    pub fn new(registry: &'a AdtRegistry, span: Span) -> (r: Self)
        ensures
            r.types() == registry@,
            r.current_depth() == 0,
    {
        ExhaustivenessChecker { registry, depth: 0, span }
    }

    /// Whether a matrix misses some case: `None` when every case is covered,
    /// or a witness of a missed case.
    ///
    /// A matrix without rows misses everything; a matrix with a catch-all row
    /// misses nothing.
    pub fn check_exhaustive(&mut self, matrix: &PatternMatrix) -> (r: Result<Option<Witness>, ExhaustivenessError>)
        ensures
            final(self).current_depth() == old(self).current_depth(),
            final(self).types() == old(self).types(),
            r is Ok && has_catch_all(*matrix) ==> r == Ok::<Option<Witness>, ExhaustivenessError>(None),
            matrix.rows@.len() == 0 ==> (r matches Ok(Some(w)) ==> (w.patterns@.len() == matrix.column_types@.len()
                && forall|i: int| 0 <= i < w.patterns@.len() ==> #[trigger] w.patterns@[i] is Wildcard)),
            matrix.rows@.len() == 0 && old(self).current_depth() <= MAX_EXHAUSTIVENESS_DEPTH ==> r is Ok
                && r->Ok_0 is Some,
            r matches Ok(Some(w)) ==> w.patterns@.len() == matrix.column_types@.len() && !matrix_covers(
                *matrix,
                wpats_view(w.patterns@),
            ),
            r == Ok::<Option<Witness>, ExhaustivenessError>(None) && matrix_fits(old(self).types(), *matrix) ==> forall|
                ws: Seq<WitnessPatM>,
            | #[trigger] values_fit(old(self).types(), tys_view(matrix.column_types@), ws) ==> matrix_covers(*matrix, ws),
            matrix_size(*matrix) > MAX_PATTERN_MATRIX_SIZE ==> r matches Err(
                ExhaustivenessError::MatrixTooLarge { .. }),
            matrix_size(*matrix) <= MAX_PATTERN_MATRIX_SIZE && old(self).current_depth() > MAX_EXHAUSTIVENESS_DEPTH
                ==> r matches Err(ExhaustivenessError::DepthExceeded { .. }),
        decreases depth_left(old(self).current_depth()), 0nat,
    {
        let size = saturating_size(matrix);
        if size > MAX_PATTERN_MATRIX_SIZE {
            return Err(ExhaustivenessError::MatrixTooLarge { size, span: self.span });
        }
        if self.depth > MAX_EXHAUSTIVENESS_DEPTH {
            return Err(ExhaustivenessError::DepthExceeded { span: self.span });
        }
        self.depth = self.depth + 1;
        let result = self.check_exhaustive_inner(matrix);
        self.depth = self.depth - 1;
        result
    }

    fn check_exhaustive_inner(&mut self, matrix: &PatternMatrix) -> (r: Result<Option<Witness>, ExhaustivenessError>)
        requires
            1 <= old(self).current_depth() <= 101,
        ensures
            final(self).current_depth() == old(self).current_depth(),
            final(self).types() == old(self).types(),
            r is Ok && has_catch_all(*matrix) ==> r == Ok::<Option<Witness>, ExhaustivenessError>(None),
            matrix.rows@.len() == 0 ==> (r matches Ok(Some(w)) ==> (w.patterns@.len() == matrix.column_types@.len()
                && forall|i: int| 0 <= i < w.patterns@.len() ==> #[trigger] w.patterns@[i] is Wildcard)),
            matrix.rows@.len() == 0 ==> r is Ok && r->Ok_0 is Some,
            r matches Ok(Some(w)) ==> w.patterns@.len() == matrix.column_types@.len() && !matrix_covers(
                *matrix,
                wpats_view(w.patterns@),
            ),
            r == Ok::<Option<Witness>, ExhaustivenessError>(None) && matrix_fits(old(self).types(), *matrix) ==> forall|
                ws: Seq<WitnessPatM>,
            | #[trigger] values_fit(old(self).types(), tys_view(matrix.column_types@), ws) ==> matrix_covers(*matrix, ws),
        decreases depth_left(old(self).current_depth()), 1nat,
    {
        if matrix.num_columns() == 0 {
            if matrix.is_empty() {
                let w = Witness::from_patterns(Vec::new());
                return Ok(Some(w));
            } else {
                proof {
                    if matrix_fits(self.types(), *matrix) {
                        lemma_tys_view(matrix.column_types@);
                        assert forall|ws: Seq<WitnessPatM>| #[trigger] values_fit(
                            self.types(),
                            tys_view(matrix.column_types@),
                            ws,
                        ) implies matrix_covers(*matrix, ws) by {
                            assert(row_fits(self.types(), tys_view(matrix.column_types@), pats_view(matrix.rows@[0].patterns@)));
                            assert(row_covers(pats_view(matrix.rows@[0].patterns@), ws));
                        }
                    }
                }
                return Ok(None);
            }
        }
        if matrix.is_empty() {
            let mut pats: Vec<WitnessPat> = Vec::new();
            let mut i: usize = 0;
            while i < matrix.column_types.len()
                invariant
                    i <= matrix.column_types@.len(),
                    pats@.len() == i,
                    forall|j: int| 0 <= j < i ==> #[trigger] pats@[j] is Wildcard,
                decreases matrix.column_types@.len() - i,
            {
                pats.push(WitnessPat::Wildcard);
                i = i + 1;
            }
            return Ok(Some(Witness::from_patterns(pats)));
        }
        let first_type = &matrix.column_types[0];
        let all_constructors = self.constructors_for_type(first_type);
        let used_constructors = used_constructors(matrix);
        let is_complete = is_complete_signature(&all_constructors, &used_constructors);
        let ghost types = self.types();
        let ghost tys = tys_view(matrix.column_types@);
        let ghost cs = ctor_models(types, tys[0]);
        let ghost fits = matrix_fits(types, *matrix);
        proof {
            lemma_tys_view(matrix.column_types@);
            assert(first_type@ == tys[0]);
        }
        if is_complete {
            let mut k: usize = 0;
            while k < all_constructors.len()
                invariant
                    k <= all_constructors@.len(),
                    1 <= self.depth <= 101,
                    self.depth == old(self).depth,
                    self.types() == old(self).types(),
                    arities_match(all_constructors@),
                    matrix.column_types@.len() > 0,
                    matrix.rows@.len() > 0,
                    types == self.types(),
                    tys == tys_view(matrix.column_types@),
                    tys.len() == matrix.column_types@.len(),
                    cs == ctor_models(types, tys[0]),
                    ctor_list_view(all_constructors@) == cs,
                    fits == matrix_fits(types, *matrix),
                    fits ==> forall|k2: int| 0 <= k2 < k && first_ctor(cs, cs[k2].0) == k2 ==> #[trigger] ctor_covered(
                        types,
                        *matrix,
                        cs,
                        k2,
                    ),
                decreases all_constructors@.len() - k,
            {
                let ctor = &all_constructors[k];
                let specialized = specialize_matrix(matrix, ctor);
                let ghost sp = specialized;
                proof {
                    let c = cs[k as int];
                    assert(ctor_list_view(all_constructors@)[k as int] == (ctor.name@, tys_view(ctor.arg_types@)));
                    lemma_tys_view(ctor.arg_types@);
                    assert(ctor.name@ == c.0);
                    assert(ctor.arity as nat == c.1.len());
                    if fits && first_ctor(cs, c.0) == k {
                        lemma_specialized_matrix_fits(types, matrix, sp, k as int);
                    }
                }
                match self.check_exhaustive(&specialized) {
                    Ok(Some(witness)) => {
                        let ghost wv = wpats_view(witness.patterns@);
                        proof {
                            lemma_wpats_view(witness.patterns@);
                            assert(ctor.arity == ctor.arg_types@.len());
                        }
                        let rebuilt = reconstruct_witness(ctor, witness);
                        proof {
                            lemma_wpats_view(rebuilt.patterns@);
                            assert(!matrix_covers(*matrix, with_ctor(ctor.name@, ctor.arity as nat, wv)));
                        }
                        return Ok(Some(rebuilt));
                    },
                    Ok(None) => {
                        proof {
                            let c = cs[k as int];
                            if fits && first_ctor(cs, c.0) == k {
                                lemma_specialized_matrix_back(types, matrix, sp, k as int);
                            }
                        }
                    },
                    Err(e) => {
                        return Err(e);
                    },
                }
                k = k + 1;
            }
            proof {
                if fits {
                    lemma_complete_covers(types, *matrix);
                }
            }
            Ok(None)
        } else {
            let default = default_matrix(matrix);
            proof {
                if fits {
                    lemma_default_fits(types, matrix, default);
                }
            }
            match self.check_exhaustive(&default) {
                Ok(Some(witness)) => {
                    let missing = find_missing_constructor(&all_constructors, &used_constructors);
                    let ghost mg = missing;
                    let ghost wv = wpats_view(witness.patterns@);
                    proof {
                        lemma_wpats_view(witness.patterns@);
                    }
                    let full = add_missing_constructor(missing, witness);
                    proof {
                        let fv = wpats_view(full.patterns@);
                        lemma_wpats_view(full.patterns@);
                        assert(fv =~= seq![fv[0]] + wv);
                        lemma_default_witness(*matrix, default, used_constructors@, fv[0], wv);
                    }
                    Ok(Some(full))
                },
                Ok(None) => {
                    proof {
                        if fits {
                            lemma_default_back(types, matrix, default);
                        }
                    }
                    Ok(None)
                },
                Err(e) => Err(e),
            }
        }
    }

    /// The arm indices of the rows that no earlier row leaves anything to
    /// match, in order.
    ///
    /// The first row is never among them; a row after a catch-all row always is.
    pub fn check_redundant(&mut self, matrix: &PatternMatrix) -> (r: Result<Vec<usize>, ExhaustivenessError>)
        ensures
            final(self).current_depth() == old(self).current_depth(),
            final(self).types() == old(self).types(),
            r is Ok ==> exists|verdict: Seq<bool>| #[trigger] redundancy_verdict(*matrix, verdict, r->Ok_0@),
            matrix.rows@.len() == 0 ==> r is Ok,
    {
        let mut redundant: Vec<usize> = Vec::new();
        let ghost mut useful: Seq<bool> = Seq::empty();
        let mut i: usize = 0;
        while i < matrix.rows.len()
            invariant
                i <= matrix.rows@.len(),
                self.depth == old(self).depth,
                self.types() == old(self).types(),
                useful.len() == i,
                redundant@ == flagged(matrix.rows@.take(i as int), useful),
                i > 0 ==> useful[0],
                forall|a: int, b: int| 0 <= b < a < i && #[trigger] catch_all(matrix.rows@[b], matrix.column_types@.len())
                    ==> !#[trigger] useful[a],
            decreases matrix.rows@.len() - i,
        {
            let mut preceding: Vec<PatternRow> = Vec::new();
            let mut q: usize = 0;
            while q < i
                invariant
                    q <= i < matrix.rows@.len(),
                    preceding@.len() == q,
                    forall|j: int| 0 <= j < q ==> pats_view(#[trigger] preceding@[j].patterns@) == pats_view(matrix.rows@[j].patterns@),
                decreases i - q,
            {
                preceding.push(matrix.rows[q].copy());
                q = q + 1;
            }
            let cols = crate::ty::copy_tys(&matrix.column_types);
            let preceding_matrix = PatternMatrix::with_rows(preceding, cols);
            let current_row = matrix.rows[i].copy();
            proof {
                assert forall|b: int| 0 <= b < i && #[trigger] catch_all(matrix.rows@[b], matrix.column_types@.len())
                    implies has_catch_all(preceding_matrix) by {
                    lemma_pats_view(preceding_matrix.rows@[b].patterns@);
                    lemma_pats_view(matrix.rows@[b].patterns@);
                    assert(catch_all(preceding_matrix.rows@[b], preceding_matrix.column_types@.len()));
                }
            }
            let u = match self.is_useful(&preceding_matrix, &current_row) {
                Ok(u) => u,
                Err(e) => {
                    return Err(e);
                },
            };
            if !u {
                redundant.push(matrix.rows[i].arm_index);
            }
            proof {
                let old_useful = useful;
                useful = useful.push(u);
                assert(matrix.rows@.take(i + 1).drop_last() =~= matrix.rows@.take(i as int));
                assert(useful.drop_last() =~= old_useful);
            }
            i = i + 1;
        }
        assert(matrix.rows@.take(matrix.rows@.len() as int) =~= matrix.rows@);
        let r: Result<Vec<usize>, ExhaustivenessError> = Ok(redundant);
        assert(redundancy_verdict(*matrix, useful, r->Ok_0@));
        r
    }

    /// Whether a row matches something that no row of the matrix matches.
    fn is_useful(&mut self, matrix: &PatternMatrix, row: &PatternRow) -> (r: Result<bool, ExhaustivenessError>)
        ensures
            final(self).current_depth() == old(self).current_depth(),
            final(self).types() == old(self).types(),
            r is Ok && matrix.rows@.len() == 0 ==> r == Ok::<bool, ExhaustivenessError>(true),
            r is Ok && has_catch_all(*matrix) ==> r == Ok::<bool, ExhaustivenessError>(false),
            r matches Err(e) ==> (e is MatrixTooLarge || e is DepthExceeded),
            (matrix.column_types@.len() == 0 || row.patterns@.len() == 0) && matrix.rows@.len() * (if matrix.column_types@.len()
                == 0 { 1 } else { matrix.column_types@.len() }) <= MAX_PATTERN_MATRIX_SIZE && old(self).current_depth() <= MAX_EXHAUSTIVENESS_DEPTH ==> r == Ok::<bool, ExhaustivenessError>(
                matrix.rows@.len() == 0,
            ),
        decreases depth_left(old(self).current_depth()), 0nat,
    {
        let size = saturating_size(matrix);
        if size > MAX_PATTERN_MATRIX_SIZE {
            return Err(ExhaustivenessError::MatrixTooLarge { size, span: self.span });
        }
        if self.depth > MAX_EXHAUSTIVENESS_DEPTH {
            return Err(ExhaustivenessError::DepthExceeded { span: self.span });
        }
        self.depth = self.depth + 1;
        let result = self.is_useful_inner(matrix, row);
        self.depth = self.depth - 1;
        result
    }

    fn is_useful_inner(&mut self, matrix: &PatternMatrix, row: &PatternRow) -> (r: Result<bool, ExhaustivenessError>)
        requires
            1 <= old(self).current_depth() <= 101,
        ensures
            final(self).current_depth() == old(self).current_depth(),
            final(self).types() == old(self).types(),
            r is Ok && matrix.rows@.len() == 0 ==> r == Ok::<bool, ExhaustivenessError>(true),
            r is Ok && has_catch_all(*matrix) ==> r == Ok::<bool, ExhaustivenessError>(false),
            r matches Err(e) ==> (e is MatrixTooLarge || e is DepthExceeded),
            matrix.column_types@.len() == 0 || row.patterns@.len() == 0 ==> r == Ok::<bool, ExhaustivenessError>(
                matrix.rows@.len() == 0,
            ),
        decreases depth_left(old(self).current_depth()), 1nat,
    {
        if matrix.num_columns() == 0 || row.patterns.len() == 0 {
            proof {
                if has_catch_all(*matrix) {
                    let k = choose|k: int| 0 <= k < matrix.rows@.len() && #[trigger] catch_all(matrix.rows@[k], matrix.column_types@.len());
                }
            }
            return Ok(matrix.is_empty());
        }
        let first_type = &matrix.column_types[0];
        match &row.patterns[0] {
            SimplifiedPat::Wildcard => {
                let all_constructors = self.constructors_for_type(first_type);
                let used_constructors = used_constructors(matrix);
                if is_complete_signature(&all_constructors, &used_constructors) {
                    proof {
                        if matrix.rows@.len() == 0 {
                            assert(used_constructors@.len() == 0);
                            assert(all_constructors@.len() > 0);
                            let c0 = all_constructors@[0];
                            assert(name_used(used_constructors@, c0.name@));
                        }
                    }
                    let mut k: usize = 0;
                    while k < all_constructors.len()
                        invariant
                            k <= all_constructors@.len(),
                            1 <= self.depth <= 101,
                            self.depth == old(self).depth,
                            self.types() == old(self).types(),
                            arities_match(all_constructors@),
                            matrix.column_types@.len() > 0,
                            matrix.rows@.len() > 0,
                            row.patterns@.len() > 0,
                        decreases all_constructors@.len() - k,
                    {
                        let ctor = &all_constructors[k];
                        let specialized_matrix = specialize_matrix(matrix, ctor);
                        let specialized_row = specialize_row(row, ctor);
                        match self.is_useful(&specialized_matrix, &specialized_row) {
                            Ok(true) => {
                                return Ok(true);
                            },
                            Ok(false) => {},
                            Err(e) => {
                                return Err(e);
                            },
                        }
                        k = k + 1;
                    }
                    Ok(false)
                } else {
                    let default = default_matrix(matrix);
                    let default_row = PatternRow::new(row.rest(), row.arm_index);
                    self.is_useful(&default, &default_row)
                }
            },
            SimplifiedPat::Constructor { name, args } => {
                let ctor = match self.lookup_constructor(first_type, name.as_str(), args.len()) {
                    Some(c) => c,
                    None => Constructor::new(name.as_str(), args.len()),
                };
                let specialized_matrix = specialize_matrix(matrix, &ctor);
                let specialized_row = specialize_row(row, &ctor);
                self.is_useful(&specialized_matrix, &specialized_row)
            },
            SimplifiedPat::Literal(lit) => {
                let text = lit.text();
                let ctor = Constructor::new(text.as_str(), 0);
                let specialized_matrix = specialize_matrix(matrix, &ctor);
                let specialized_row = specialize_row(row, &ctor);
                self.is_useful(&specialized_matrix, &specialized_row)
            },
        }
    }

    /// The constructors of a type.
    fn constructors_for_type(&self, ty: &Ty) -> (r: Vec<Constructor>)
        ensures
            ctor_list_view(r@) == ctor_models(self.types(), ty@),
            arities_match(r@),
    {
        let mut out: Vec<Constructor> = Vec::new();
        match ty {
            Ty::Const(TyConst::Bool) => {
                out.push(Constructor::new("true", 0));
                out.push(Constructor::new("false", 0));
                proof {
                    assert(tys_view(Seq::<Ty>::empty()) =~= Seq::<TyM>::empty());
                    assert(ctor_list_view(out@) =~= ctor_models(self.types(), ty@));
                }
            },
            Ty::Adt { name, args } => {
                match self.registry.get(name.as_str()) {
                    Some(adt) => {
                        match &adt.kind {
                            crate::adt::AdtKind::Enum(variants) => {
                                let mut k: usize = 0;
                                while k < variants.len()
                                    invariant
                                        k <= variants@.len(),
                                        out@.len() == k,
                                        arities_match(out@),
                                        self.types().contains_key(name@),
                                        adt@ == self.types()[name@],
                                        adt@.kind == AdtKindM::Enum(variants_view(variants@)),
                                        ty@ == TyM::Adt(name@, tys_view(args@)),
                                        ctor_models(self.types(), ty@).len() == variants@.len(),
                                        forall|j: int| 0 <= j < k ==> #[trigger] ctor_list_view(out@)[j] == ctor_models(self.types(), ty@)[j],
                                    decreases variants@.len() - k,
                                {
                                    let v = &variants[k];
                                    let mut full = name.clone();
                                    full.append("::");
                                    full.append(v.name.as_str());
                                    let arg_types = match &v.fields {
                                        VariantFields::Unit => Vec::new(),
                                        VariantFields::Tuple(tys) => substitute_all(tys, args),
                                    };
                                    let c = Constructor::with_arg_types(full.as_str(), arg_types);
                                    let ghost before = out@;
                                    out.push(c);
                                    proof {
                                        assert(variants_view(variants@)[k as int] == v@);
                                        assert(tys_view(Seq::<Ty>::empty()) =~= Seq::<TyM>::empty());
                                        assert(ctor_list_view(out@)[k as int] == ctor_models(self.types(), ty@)[k as int]);
                                        assert forall|j: int| 0 <= j < k + 1 implies #[trigger] ctor_list_view(out@)[j]
                                            == ctor_models(self.types(), ty@)[j] by {
                                            if j < k {
                                                assert(out@[j] == before[j]);
                                                assert(ctor_list_view(before)[j] == ctor_models(self.types(), ty@)[j]);
                                            }
                                        }
                                    }
                                    k = k + 1;
                                }
                                proof {
                                    assert(ctor_list_view(out@) =~= ctor_models(self.types(), ty@));
                                }
                            },
                            crate::adt::AdtKind::Struct(fields) => {
                                let mut tys: Vec<Ty> = Vec::new();
                                let mut k: usize = 0;
                                while k < fields.len()
                                    invariant
                                        k <= fields@.len(),
                                        tys_view(tys@) == fields_view(fields@).take(k as int).map_values(|f: (Seq<char>, TyM)| f.1),
                                    decreases fields@.len() - k,
                                {
                                    let ghost before = tys@;
                                    tys.push(fields[k].ty.copy());
                                    proof {
                                        assert(tys@.drop_last() =~= before);
                                        assert(fields_view(fields@).take(k + 1).map_values(|f: (Seq<char>, TyM)| f.1)
                                            =~= fields_view(fields@).take(k as int).map_values(|f: (Seq<char>, TyM)| f.1).push(fields@[k as int].ty@));
                                    }
                                    k = k + 1;
                                }
                                proof {
                                    assert(fields_view(fields@).take(fields@.len() as int) =~= fields_view(fields@));
                                }
                                let arg_types = substitute_all(&tys, args);
                                out.push(Constructor::with_arg_types(name.as_str(), arg_types));
                                proof {
                                    assert(ctor_list_view(out@) =~= ctor_models(self.types(), ty@));
                                }
                            },
                        }
                    },
                    None => {
                        proof {
                            assert(ctor_list_view(out@) =~= ctor_models(self.types(), ty@));
                        }
                    },
                }
            },
            Ty::Tuple(tys) => {
                let mut name = String::new();
                name.append("Tuple");
                push_decimal(&mut name, tys.len() as u64);
                proof {
                    lemma_tys_view(tys@);
                }
                out.push(Constructor::with_arg_types(name.as_str(), crate::ty::copy_tys(tys)));
                proof {
                    assert(ctor_list_view(out@) =~= ctor_models(self.types(), ty@));
                }
            },
            _ => {
                proof {
                    assert(ctor_list_view(out@) =~= ctor_models(self.types(), ty@));
                }
            },
        }
        out
    }

    /// The constructor of a type with the given name and arity, if any.
    fn lookup_constructor(&self, ty: &Ty, name: &str, arity: usize) -> (r: Option<Constructor>)
        ensures
            r matches Some(c) ==> c.name@ == name@ && c.arity == arity && c.arity == c.arg_types@.len(),
            r is Some <==> exists|k: int| 0 <= k < ctor_models(self.types(), ty@).len() && (#[trigger] ctor_models(self.types(), ty@)[k]).0
                == name@ && ctor_models(self.types(), ty@)[k].1.len() == arity,
            r matches Some(c) ==> exists|k: int| 0 <= k < ctor_models(self.types(), ty@).len() && #[trigger] ctor_models(self.types(), ty@)[k]
                == (c.name@, tys_view(c.arg_types@)),
    {
        let all = self.constructors_for_type(ty);
        let ghost cm = ctor_models(self.types(), ty@);
        let mut k: usize = 0;
        while k < all.len()
            invariant
                k <= all@.len(),
                arities_match(all@),
                ctor_list_view(all@) == cm,
                cm == ctor_models(self.types(), ty@),
                forall|j: int| 0 <= j < k ==> !((#[trigger] cm[j]).0 == name@ && cm[j].1.len() == arity),
            decreases all@.len() - k,
        {
            proof {
                assert(cm[k as int] == (all@[k as int].name@, tys_view(all@[k as int].arg_types@)));
                lemma_tys_view(all@[k as int].arg_types@);
            }
            if str_equals(all[k].name.as_str(), name) && all[k].arity == arity {
                let c = Constructor {
                    name: all[k].name.clone(),
                    arity: all[k].arity,
                    arg_types: crate::ty::copy_tys(&all[k].arg_types),
                };
                return Some(c);
            }
            k = k + 1;
        }
        None
    }
}

// ---------------------------------------------------------------------------
// Signatures
// ---------------------------------------------------------------------------

/// The names of the constructors and literals in the first column.
fn used_constructors(matrix: &PatternMatrix) -> (r: Vec<String>)
    ensures
        matrix.rows@.len() == 0 ==> r@.len() == 0,
        forall|j: int| 0 <= j < matrix.rows@.len() ==> #[trigger] first_named(pats_view(matrix.rows@[j].patterns@), r@),
{
    let mut used: Vec<String> = Vec::new();
    let mut i: usize = 0;
    while i < matrix.rows.len()
        invariant
            i <= matrix.rows@.len(),
            i == 0 ==> used@.len() == 0,
            forall|j: int| 0 <= j < i ==> #[trigger] first_named(pats_view(matrix.rows@[j].patterns@), used@),
        decreases matrix.rows@.len() - i,
    {
        let row = &matrix.rows[i];
        let ghost before = used@;
        proof {
            lemma_pats_view(row.patterns@);
        }
        if row.patterns.len() > 0 {
            match &row.patterns[0] {
                SimplifiedPat::Constructor { name, .. } => {
                    if !holds_name(&used, name.as_str()) {
                        used.push(name.clone());
                        assert(used@[used@.len() - 1]@ == name@);
                    }
                    assert(pats_view(row.patterns@)[0] matches PatM::Ctor(n, _) && n == name@);
                    assert(name_used(used@, name@));
                },
                SimplifiedPat::Literal(lit) => {
                    let t = lit.text();
                    if !holds_name(&used, t.as_str()) {
                        used.push(t);
                        assert(used@[used@.len() - 1]@ == t@);
                    }
                    assert(pats_view(row.patterns@)[0] == PatM::Lit(lit@));
                    assert(name_used(used@, t@));
                },
                SimplifiedPat::Wildcard => {},
            }
        }
        proof {
            assert forall|j: int| 0 <= j < i + 1 implies #[trigger] first_named(pats_view(matrix.rows@[j].patterns@), used@) by {
                lemma_name_used_grows(before, used@, pats_view(matrix.rows@[j].patterns@));
            }
        }
        i = i + 1;
    }
    used
}

/// Whether the first pattern of a row, when it is a constructor or a literal,
/// has its name among `used`.
pub open spec fn first_named(ps: Seq<PatM>, used: Seq<String>) -> bool {
    ps.len() > 0 ==> match ps[0] {
        PatM::Ctor(n, _) => name_used(used, n),
        PatM::Lit(l) => name_used(used, lit_text(l)),
        PatM::Wildcard => true,
    }
}

/// A list that keeps its names keeps every name used.
proof fn lemma_name_used_grows(before: Seq<String>, after: Seq<String>, ps: Seq<PatM>)
    requires
        before.len() <= after.len(),
        forall|k: int| 0 <= k < before.len() ==> #[trigger] after[k] == before[k],
    ensures
        first_named(ps, before) ==> first_named(ps, after),
{
    if ps.len() > 0 && first_named(ps, before) {
        match ps[0] {
            PatM::Ctor(n, _) => {
                let k = choose|k: int| 0 <= k < before.len() && #[trigger] before[k]@ == n;
                assert(after[k]@ == n);
            },
            PatM::Lit(l) => {
                let k = choose|k: int| 0 <= k < before.len() && #[trigger] before[k]@ == lit_text(l);
                assert(after[k]@ == lit_text(l));
            },
            PatM::Wildcard => {},
        }
    }
}

/// Whether a list of names holds `name`.
fn holds_name(names: &Vec<String>, name: &str) -> (r: bool)
    ensures
        r == name_used(names@, name@),
{
    let mut i: usize = 0;
    while i < names.len()
        invariant
            i <= names@.len(),
            forall|j: int| 0 <= j < i ==> #[trigger] names@[j]@ != name@,
        decreases names@.len() - i,
    {
        if str_equals(names[i].as_str(), name) {
            return true;
        }
        i = i + 1;
    }
    false
}

/// Whether some string of `used` has the text `n`.
pub open spec fn name_used(used: Seq<String>, n: Seq<char>) -> bool {
    exists|j: int| 0 <= j < used.len() && #[trigger] used[j]@ == n
}

/// Whether the used names cover every constructor of a type that has some.
fn is_complete_signature(all: &Vec<Constructor>, used: &Vec<String>) -> (r: bool)
    ensures
        r == (all@.len() > 0 && forall|i: int| 0 <= i < all@.len() ==> name_used(used@, (#[trigger] all@[i]).name@)),
{
    if all.len() == 0 {
        return false;
    }
    let mut i: usize = 0;
    while i < all.len()
        invariant
            i <= all@.len(),
            forall|k: int| 0 <= k < i ==> name_used(used@, (#[trigger] all@[k]).name@),
        decreases all@.len() - i,
    {
        if !holds_name(used, all[i].name.as_str()) {
            return false;
        }
        i = i + 1;
    }
    true
}

/// The first constructor whose name is not used, if any.
fn find_missing_constructor(all: &Vec<Constructor>, used: &Vec<String>) -> (r: Option<Constructor>)
    ensures
        r matches Some(c) ==> exists|i: int| 0 <= i < all@.len() && all@[i].name@ == c.name@ && all@[i].arity
            == c.arity,
        r matches Some(c) ==> !name_used(used@, c.name@),
        r is None <==> forall|i: int| 0 <= i < all@.len() ==> name_used(used@, (#[trigger] all@[i]).name@),
        r matches Some(c) ==> exists|i: int| 0 <= i < all@.len() && (#[trigger] all@[i]).name@ == c.name@ && tys_view(
            all@[i].arg_types@,
        ) == tys_view(c.arg_types@) && forall|j: int| 0 <= j < i ==> name_used(used@, (#[trigger] all@[j]).name@),
{
    let mut i: usize = 0;
    while i < all.len()
        invariant
            i <= all@.len(),
            forall|j: int| 0 <= j < i ==> name_used(used@, (#[trigger] all@[j]).name@),
        decreases all@.len() - i,
    {
        if !holds_name(used, all[i].name.as_str()) {
            return Some(
                Constructor {
                    name: all[i].name.clone(),
                    arity: all[i].arity,
                    arg_types: crate::ty::copy_tys(&all[i].arg_types),
                },
            );
        }
        i = i + 1;
    }
    None
}

// ---------------------------------------------------------------------------
// Specialization
// ---------------------------------------------------------------------------

/// `n` wildcards.
fn wildcards(n: usize) -> (r: Vec<SimplifiedPat>)
    ensures
        r@.len() == n,
        forall|i: int| 0 <= i < n ==> #[trigger] pats_view(r@)[i] is Wildcard,
{
    let mut out: Vec<SimplifiedPat> = Vec::new();
    let mut i: usize = 0;
    while i < n
        invariant
            i <= n,
            out@.len() == i,
            forall|j: int| 0 <= j < i ==> #[trigger] out@[j] is Wildcard,
        decreases n - i,
    {
        out.push(SimplifiedPat::Wildcard);
        i = i + 1;
    }
    proof {
        lemma_pats_view(out@);
        assert forall|i: int| 0 <= i < n implies #[trigger] pats_view(out@)[i] is Wildcard by {
            assert(out@[i] is Wildcard);
        }
    }
    out
}

/// Appends copies of patterns.
fn append_pats(out: &mut Vec<SimplifiedPat>, more: Vec<SimplifiedPat>)
    ensures
        pats_view(final(out)@) == pats_view(old(out)@) + pats_view(more@),
        final(out)@.len() == old(out)@.len() + more@.len(),
{
    let mut m = more;
    let ghost mv = m@;
    let ghost ov = out@;
    out.append(&mut m);
    proof {
        lemma_pats_view(out@);
        lemma_pats_view(ov);
        lemma_pats_view(mv);
        assert(pats_view(out@) =~= pats_view(ov) + pats_view(mv));
    }
}

/// A row specialized on a constructor, if its first pattern can match it: a
/// wildcard expands to wildcards for the arguments, a constructor of that
/// name to its argument patterns, a literal of that name to nothing.
fn specialize_row_on_ctor(row: &PatternRow, ctor: &Constructor) -> (r: Option<PatternRow>)
    ensures
        row.patterns@.len() > 0 && pats_view(row.patterns@)[0] is Wildcard ==> (r matches Some(x)
            && x.patterns@.len() == ctor.arity + row.patterns@.len() - 1
            && ((forall|i: int| 0 <= i < row.patterns@.len() ==> (#[trigger] pats_view(row.patterns@)[i]) is Wildcard)
                ==> (forall|i: int| 0 <= i < x.patterns@.len() ==> (#[trigger] pats_view(x.patterns@)[i]) is Wildcard))),
        r matches Some(x) ==> x.arm_index == row.arm_index,
        match r {
            Some(x) => specialized_row(pats_view(row.patterns@), ctor.name@, ctor.arity as nat) == Some(
                pats_view(x.patterns@),
            ),
            None => specialized_row(pats_view(row.patterns@), ctor.name@, ctor.arity as nat) is None,
        },
{
    proof {
        lemma_pats_view(row.patterns@);
        if row.patterns@.len() > 0 {
            lemma_pats_view_skip(row.patterns@, 1);
        }
    }
    if row.patterns.len() == 0 {
        return None;
    }
    match &row.patterns[0] {
        SimplifiedPat::Wildcard => {
            let mut new_patterns = wildcards(ctor.arity);
            let rest = row.rest();
            let ghost w = new_patterns@;
            append_pats(&mut new_patterns, rest);
            proof {
                lemma_pats_view(new_patterns@);
                lemma_pats_view(row.patterns@.skip(1));
                lemma_pats_view(w);
                assert forall|i: int| 0 <= i < new_patterns@.len() && (forall|k: int| 0 <= k < row.patterns@.len() ==> (#[trigger] pats_view(row.patterns@)[k]) is Wildcard)
                    implies (#[trigger] pats_view(new_patterns@)[i]) is Wildcard by {
                    if i >= ctor.arity {
                        assert(pats_view(new_patterns@)[i] == pats_view(row.patterns@.skip(1))[i - ctor.arity]);
                        assert(pats_view(row.patterns@.skip(1))[i - ctor.arity] == pat_view(row.patterns@[i - ctor.arity + 1]));
                        assert(pats_view(row.patterns@)[i - ctor.arity + 1] == pat_view(row.patterns@[i - ctor.arity + 1]));
                    } else {
                        assert(pats_view(new_patterns@)[i] == pats_view(w)[i]);
                    }
                }
                assert(pats_view(w) =~= Seq::new(ctor.arity as nat, |i: int| PatM::Wildcard));
            }
            Some(PatternRow::new(new_patterns, row.arm_index))
        },
        SimplifiedPat::Constructor { name, args } => {
            if str_equals(name.as_str(), ctor.name.as_str()) {
                let mut new_patterns = copy_pats(args, 0);
                assert(args@.skip(0) =~= args@);
                let rest = row.rest();
                append_pats(&mut new_patterns, rest);
                assert(pats_view(row.patterns@)[0] == PatM::Ctor(name@, pats_view(args@)));
                Some(PatternRow::new(new_patterns, row.arm_index))
            } else {
                None
            }
        },
        SimplifiedPat::Literal(lit) => {
            let t = lit.text();
            assert(pats_view(row.patterns@)[0] == PatM::Lit(lit@));
            if str_equals(t.as_str(), ctor.name.as_str()) {
                Some(PatternRow::new(row.rest(), row.arm_index))
            } else {
                None
            }
        },
    }
}

/// A matrix specialized on a constructor: the rows that can match it,
/// expanded, over the constructor's argument types and the other columns.
#[verifier::rlimit(60)]
fn specialize_matrix(matrix: &PatternMatrix, ctor: &Constructor) -> (r: PatternMatrix)
    requires
        ctor.arity >= ctor.arg_types@.len(),
        matrix.column_types@.len() > 0,
    ensures
        has_catch_all(*matrix) ==> has_catch_all(r),
        r.rows@.len() <= matrix.rows@.len(),
        r.column_types@.len() == ctor.arg_types@.len() + matrix.column_types@.len() - 1,
        forall|ws: Seq<WitnessPatM>| ws.len() >= ctor.arity && #[trigger] matrix_covers(
            *matrix,
            with_ctor(ctor.name@, ctor.arity as nat, ws),
        ) ==> matrix_covers(r, ws),
        specialized_origin(*matrix, r, ctor.name@, ctor.arity as nat),
        tys_view(r.column_types@) == tys_view(ctor.arg_types@) + tys_view(matrix.column_types@).skip(1),
{
    let mut new_rows: Vec<PatternRow> = Vec::new();
    let mut i: usize = 0;
    let ghost cols = matrix.column_types@.len();
    let ghost new_cols = ctor.arg_types@.len() + cols - 1;
    let ghost name = ctor.name@;
    let ghost a = ctor.arity as nat;
    let ghost mut origin: Seq<int> = Seq::empty();
    while i < matrix.rows.len()
        invariant
            i <= matrix.rows@.len(),
            new_rows@.len() <= i,
            cols == matrix.column_types@.len(),
            cols > 0,
            new_cols == ctor.arg_types@.len() + cols - 1,
            ctor.arity >= ctor.arg_types@.len(),
            name == ctor.name@,
            a == ctor.arity,
            (exists|j: int| 0 <= j < i && #[trigger] catch_all(matrix.rows@[j], cols)) ==> exists|k: int| 0 <= k
                < new_rows@.len() && #[trigger] catch_all(new_rows@[k], new_cols as nat),
            forall|j: int| 0 <= j < i && (#[trigger] specialized_row(pats_view(matrix.rows@[j].patterns@), name, a)) is Some
                ==> exists|k: int| 0 <= k < new_rows@.len() && Some(pats_view((#[trigger] new_rows@[k]).patterns@))
                    == specialized_row(pats_view(matrix.rows@[j].patterns@), name, a),
            origin.len() == new_rows@.len(),
            forall|k: int| 0 <= k < new_rows@.len() ==> 0 <= #[trigger] origin[k] < i && Some(pats_view(
                new_rows@[k].patterns@,
            )) == specialized_row(pats_view(matrix.rows@[origin[k]].patterns@), name, a),
        decreases matrix.rows@.len() - i,
    {
        let row = &matrix.rows[i];
        let ghost before_all = new_rows@;
        match specialize_row_on_ctor(row, ctor) {
            Some(s) => {
                let ghost k = new_rows@.len();
                proof {
                    if catch_all(matrix.rows@[i as int], cols) {
                        lemma_pats_view(row.patterns@);
                        assert(pats_view(row.patterns@)[0] is Wildcard);
                        assert(catch_all(s, new_cols as nat));
                    }
                }
                let ghost before = new_rows@;
                new_rows.push(s);
                proof {
                    if exists|j: int| 0 <= j < i + 1 && #[trigger] catch_all(matrix.rows@[j], cols) {
                        if catch_all(matrix.rows@[i as int], cols) {
                            assert(catch_all(new_rows@[k as int], new_cols as nat));
                        } else {
                            let j = choose|j: int| 0 <= j < i + 1 && #[trigger] catch_all(matrix.rows@[j], cols);
                            assert(0 <= j < i && catch_all(matrix.rows@[j], cols));
                            let k2 = choose|k2: int| 0 <= k2 < before.len() && #[trigger] catch_all(before[k2], new_cols as nat);
                            assert(new_rows@[k2] == before[k2]);
                            assert(catch_all(new_rows@[k2], new_cols as nat));
                        }
                    }
                }
            },
            None => {
                proof {
                    if catch_all(matrix.rows@[i as int], cols) {
                        lemma_pats_view(row.patterns@);
                        assert(pats_view(row.patterns@)[0] is Wildcard);
                    }
                    if exists|j: int| 0 <= j < i + 1 && #[trigger] catch_all(matrix.rows@[j], cols) {
                        let j = choose|j: int| 0 <= j < i + 1 && #[trigger] catch_all(matrix.rows@[j], cols);
                        assert(0 <= j < i && catch_all(matrix.rows@[j], cols));
                    }
                }
            },
        }
        proof {
            if new_rows@.len() > before_all.len() {
                origin = origin.push(i as int);
            }
            assert forall|k: int| 0 <= k < new_rows@.len() implies 0 <= #[trigger] origin[k] < i + 1 && Some(pats_view(
                new_rows@[k].patterns@,
            )) == specialized_row(pats_view(matrix.rows@[origin[k]].patterns@), name, a) by {
                if k < before_all.len() {
                    assert(new_rows@[k] == before_all[k]);
                }
            }
            assert forall|j: int| 0 <= j < i + 1 && (#[trigger] specialized_row(pats_view(matrix.rows@[j].patterns@), name, a)) is Some
                implies exists|k: int| 0 <= k < new_rows@.len() && Some(pats_view((#[trigger] new_rows@[k]).patterns@))
                    == specialized_row(pats_view(matrix.rows@[j].patterns@), name, a) by {
                if j < i {
                    let k = choose|k: int| 0 <= k < before_all.len() && Some(pats_view((#[trigger] before_all[k]).patterns@))
                        == specialized_row(pats_view(matrix.rows@[j].patterns@), name, a);
                    assert(new_rows@[k] == before_all[k]);
                } else {
                    assert(new_rows@[before_all.len() as int] == new_rows@.last());
                }
            }
        }
        i = i + 1;
    }
    proof {
        assert forall|ws: Seq<WitnessPatM>| ws.len() >= ctor.arity && #[trigger] matrix_covers(
            *matrix,
            with_ctor(ctor.name@, ctor.arity as nat, ws),
        ) implies exists|k: int| 0 <= k < new_rows@.len() && row_covers(pats_view((#[trigger] new_rows@[k]).patterns@), ws) by {
            let j = choose|j: int| 0 <= j < matrix.rows@.len() && row_covers(pats_view((#[trigger] matrix.rows@[j]).patterns@), with_ctor(name, a, ws));
            lemma_specialized_covers(pats_view(matrix.rows@[j].patterns@), name, a, ws);
            assert(specialized_row(pats_view(matrix.rows@[j].patterns@), name, a) is Some);
            let k = choose|k: int| 0 <= k < new_rows@.len() && Some(pats_view((#[trigger] new_rows@[k]).patterns@))
                == specialized_row(pats_view(matrix.rows@[j].patterns@), name, a);
            assert(row_covers(pats_view(new_rows@[k].patterns@), ws));
        }
    }
    proof {
        assert forall|k: int| 0 <= k < new_rows@.len() implies exists|j: int| 0 <= j < matrix.rows@.len() && Some(pats_view(
            (#[trigger] new_rows@[k]).patterns@,
        )) == specialized_row(pats_view(matrix.rows@[j].patterns@), ctor.name@, ctor.arity as nat) by {
            assert(0 <= origin[k] < matrix.rows@.len());
        }
    }
    let mut new_column_types = crate::ty::copy_tys(&ctor.arg_types);
    let mut k: usize = 1;
    proof {
        lemma_tys_view(matrix.column_types@);
        lemma_tys_view(new_column_types@);
        lemma_tys_view(ctor.arg_types@);
    }
    while k < matrix.column_types.len()
        invariant
            1 <= k <= matrix.column_types@.len(),
            new_column_types@.len() == ctor.arg_types@.len() + k - 1,
            tys_view(new_column_types@) =~= tys_view(ctor.arg_types@) + tys_view(matrix.column_types@).subrange(1, k as int),
        decreases matrix.column_types@.len() - k,
    {
        let ghost before = new_column_types@;
        new_column_types.push(matrix.column_types[k].copy());
        proof {
            lemma_tys_view(before);
            lemma_tys_view(new_column_types@);
            lemma_tys_view(matrix.column_types@);
            lemma_tys_view(ctor.arg_types@);
            assert(new_column_types@.drop_last() == before);
            assert(tys_view(new_column_types@) =~= tys_view(ctor.arg_types@) + tys_view(matrix.column_types@).subrange(
                1,
                k + 1,
            ));
        }
        k = k + 1;
    }
    proof {
        lemma_tys_view(matrix.column_types@);
        assert(tys_view(matrix.column_types@).subrange(1, matrix.column_types@.len() as int) =~= tys_view(
            matrix.column_types@,
        ).skip(1));
    }
    PatternMatrix::with_rows(new_rows, new_column_types)
}

/// A row specialized for the usefulness check: a wildcard expands to
/// wildcards for the arguments, a constructor to its argument patterns, a
/// literal to nothing.
fn specialize_row(row: &PatternRow, ctor: &Constructor) -> (r: PatternRow)
    ensures
        r.arm_index == row.arm_index,
{
    proof {
        lemma_pats_view(row.patterns@);
    }
    if row.patterns.len() == 0 {
        return PatternRow::new(Vec::new(), row.arm_index);
    }
    match &row.patterns[0] {
        SimplifiedPat::Wildcard => {
            let mut new_patterns = wildcards(ctor.arity);
            append_pats(&mut new_patterns, row.rest());
            PatternRow::new(new_patterns, row.arm_index)
        },
        SimplifiedPat::Constructor { args, .. } => {
            let mut new_patterns = copy_pats(args, 0);
            append_pats(&mut new_patterns, row.rest());
            PatternRow::new(new_patterns, row.arm_index)
        },
        SimplifiedPat::Literal(_) => PatternRow::new(row.rest(), row.arm_index),
    }
}

/// The default matrix: the rows that start with a wildcard, without their
/// first column.
#[verifier::rlimit(60)]
fn default_matrix(matrix: &PatternMatrix) -> (r: PatternMatrix)
    requires
        matrix.column_types@.len() > 0,
    ensures
        has_catch_all(*matrix) ==> has_catch_all(r),
        r.rows@.len() <= matrix.rows@.len(),
        r.column_types@.len() == matrix.column_types@.len() - 1,
        forall|j: int| 0 <= j < matrix.rows@.len() && pats_view((#[trigger] matrix.rows@[j]).patterns@).len() > 0
            && pats_view(matrix.rows@[j].patterns@)[0] is Wildcard ==> exists|k: int| 0 <= k < r.rows@.len()
                && pats_view((#[trigger] r.rows@[k]).patterns@) == pats_view(matrix.rows@[j].patterns@).skip(1),
        default_origin(*matrix, r),
        tys_view(r.column_types@) == tys_view(matrix.column_types@).skip(1),
{
    let mut new_rows: Vec<PatternRow> = Vec::new();
    let ghost cols = matrix.column_types@.len();
    let mut i: usize = 0;
    let ghost mut origin: Seq<int> = Seq::empty();
    while i < matrix.rows.len()
        invariant
            i <= matrix.rows@.len(),
            new_rows@.len() <= i,
            cols == matrix.column_types@.len(),
            cols > 0,
            (exists|j: int| 0 <= j < i && #[trigger] catch_all(matrix.rows@[j], cols)) ==> exists|k: int| 0 <= k
                < new_rows@.len() && #[trigger] catch_all(new_rows@[k], (cols - 1) as nat),
            forall|j: int| 0 <= j < i && pats_view((#[trigger] matrix.rows@[j]).patterns@).len() > 0
                && pats_view(matrix.rows@[j].patterns@)[0] is Wildcard ==> exists|k: int| 0 <= k < new_rows@.len()
                    && pats_view((#[trigger] new_rows@[k]).patterns@) == pats_view(matrix.rows@[j].patterns@).skip(1),
            origin.len() == new_rows@.len(),
            forall|k: int| 0 <= k < new_rows@.len() ==> 0 <= #[trigger] origin[k] < i && pats_view(
                matrix.rows@[origin[k]].patterns@,
            ).len() > 0 && pats_view(matrix.rows@[origin[k]].patterns@)[0] is Wildcard && pats_view(new_rows@[k].patterns@)
                == pats_view(matrix.rows@[origin[k]].patterns@).skip(1),
        decreases matrix.rows@.len() - i,
    {
        let row = &matrix.rows[i];
        let ghost before_all = new_rows@;
        proof {
            lemma_pats_view(row.patterns@);
            if row.patterns@.len() > 0 {
                lemma_pats_view_skip(row.patterns@, 1);
            }
        }
        if row.patterns.len() > 0 {
            match &row.patterns[0] {
                SimplifiedPat::Wildcard => {
                    let rest = row.rest();
                    let nr = PatternRow::new(rest, row.arm_index);
                    let ghost k = new_rows@.len();
                    proof {
                        if catch_all(matrix.rows@[i as int], cols) {
                            lemma_pats_view(nr.patterns@);
                            lemma_pats_view(row.patterns@.skip(1));
                            assert forall|q: int| 0 <= q < nr.patterns@.len() implies (#[trigger] pats_view(nr.patterns@)[q]) is Wildcard by {
                                assert(pats_view(nr.patterns@)[q] == pats_view(row.patterns@.skip(1))[q]);
                                assert(pats_view(row.patterns@.skip(1))[q] == pat_view(row.patterns@[q + 1]));
                                assert(pats_view(row.patterns@)[q + 1] == pat_view(row.patterns@[q + 1]));
                            }
                            assert(catch_all(nr, (cols - 1) as nat));
                        }
                    }
                    let ghost before = new_rows@;
                    new_rows.push(nr);
                    proof {
                        if exists|j: int| 0 <= j < i + 1 && #[trigger] catch_all(matrix.rows@[j], cols) {
                            if catch_all(matrix.rows@[i as int], cols) {
                                assert(catch_all(new_rows@[k as int], (cols - 1) as nat));
                            } else {
                                let j = choose|j: int| 0 <= j < i + 1 && #[trigger] catch_all(matrix.rows@[j], cols);
                                assert(0 <= j < i && catch_all(matrix.rows@[j], cols));
                                let k2 = choose|k2: int| 0 <= k2 < before.len() && #[trigger] catch_all(before[k2], (cols - 1) as nat);
                                assert(new_rows@[k2] == before[k2]);
                                assert(catch_all(new_rows@[k2], (cols - 1) as nat));
                            }
                        }
                    }
                },
                _ => {
                    proof {
                        if catch_all(matrix.rows@[i as int], cols) {
                            assert(pats_view(row.patterns@)[0] is Wildcard);
                        }
                        if exists|j: int| 0 <= j < i + 1 && #[trigger] catch_all(matrix.rows@[j], cols) {
                            let j = choose|j: int| 0 <= j < i + 1 && #[trigger] catch_all(matrix.rows@[j], cols);
                            assert(0 <= j < i && catch_all(matrix.rows@[j], cols));
                        }
                    }
                },
            }
        } else {
            proof {
                if catch_all(matrix.rows@[i as int], cols) {
                    assert(false);
                }
                if exists|j: int| 0 <= j < i + 1 && #[trigger] catch_all(matrix.rows@[j], cols) {
                    let j = choose|j: int| 0 <= j < i + 1 && #[trigger] catch_all(matrix.rows@[j], cols);
                    assert(0 <= j < i && catch_all(matrix.rows@[j], cols));
                }
            }
        }
        proof {
            if new_rows@.len() > before_all.len() {
                origin = origin.push(i as int);
                assert(pats_view(row.patterns@)[0] == pat_view(row.patterns@[0]));
            }
            assert forall|k: int| 0 <= k < new_rows@.len() implies 0 <= #[trigger] origin[k] < i + 1 && pats_view(
                matrix.rows@[origin[k]].patterns@,
            ).len() > 0 && pats_view(matrix.rows@[origin[k]].patterns@)[0] is Wildcard && pats_view(new_rows@[k].patterns@)
                == pats_view(matrix.rows@[origin[k]].patterns@).skip(1) by {
                if k < before_all.len() {
                    assert(new_rows@[k] == before_all[k]);
                }
            }
            assert forall|j: int| 0 <= j < i + 1 && pats_view((#[trigger] matrix.rows@[j]).patterns@).len() > 0
                && pats_view(matrix.rows@[j].patterns@)[0] is Wildcard implies exists|k: int| 0 <= k < new_rows@.len()
                    && pats_view((#[trigger] new_rows@[k]).patterns@) == pats_view(matrix.rows@[j].patterns@).skip(1) by {
                if j < i {
                    let k = choose|k: int| 0 <= k < before_all.len()
                        && pats_view((#[trigger] before_all[k]).patterns@) == pats_view(matrix.rows@[j].patterns@).skip(1);
                    assert(new_rows@[k] == before_all[k]);
                } else {
                    assert(pats_view(row.patterns@)[0] == pat_view(row.patterns@[0]));
                    assert(new_rows@.len() == before_all.len() + 1);
                    assert(new_rows@[before_all.len() as int] == new_rows@.last());
                }
            }
        }
        i = i + 1;
    }
    proof {
        assert forall|k: int| 0 <= k < new_rows@.len() implies exists|j: int| 0 <= j < matrix.rows@.len() && pats_view(
            matrix.rows@[j].patterns@,
        ).len() > 0 && pats_view(matrix.rows@[j].patterns@)[0] is Wildcard && pats_view((#[trigger] new_rows@[k]).patterns@)
            == pats_view(matrix.rows@[j].patterns@).skip(1) by {
            assert(0 <= origin[k] < matrix.rows@.len());
        }
    }
    let mut new_column_types: Vec<Ty> = Vec::new();
    let mut k: usize = 1;
    proof {
        lemma_tys_view(matrix.column_types@);
        lemma_tys_view(new_column_types@);
    }
    while k < matrix.column_types.len()
        invariant
            1 <= k <= matrix.column_types@.len(),
            new_column_types@.len() == k - 1,
            tys_view(new_column_types@) =~= tys_view(matrix.column_types@).subrange(1, k as int),
        decreases matrix.column_types@.len() - k,
    {
        let ghost before = new_column_types@;
        new_column_types.push(matrix.column_types[k].copy());
        proof {
            lemma_tys_view(before);
            lemma_tys_view(new_column_types@);
            lemma_tys_view(matrix.column_types@);
            assert(new_column_types@.drop_last() == before);
            assert(tys_view(new_column_types@) =~= tys_view(matrix.column_types@).subrange(1, k + 1));
        }
        k = k + 1;
    }
    proof {
        lemma_tys_view(matrix.column_types@);
        assert(tys_view(matrix.column_types@).subrange(1, matrix.column_types@.len() as int) =~= tys_view(
            matrix.column_types@,
        ).skip(1));
    }
    PatternMatrix::with_rows(new_rows, new_column_types)
}

// ---------------------------------------------------------------------------
// Witnesses
// ---------------------------------------------------------------------------

/// A witness with a constructor put back in front: its first `arity`
/// patterns (all of them, when there are fewer) become the constructor's
/// arguments.
fn reconstruct_witness(ctor: &Constructor, inner: Witness) -> (r: Witness)
    ensures
        wpats_view(r.patterns@) == with_ctor(ctor.name@, ctor.arity as nat, wpats_view(inner.patterns@)),
{
    let ghost iv = inner.patterns@;
    let mut args = inner.patterns;
    let k = if ctor.arity <= args.len() {
        ctor.arity
    } else {
        args.len()
    };
    let mut rest = args.split_off(k);
    let ghost av = args@;
    let ghost rv = rest@;
    let mut patterns: Vec<WitnessPat> = Vec::new();
    let first = WitnessPat::Constructor { name: ctor.name.clone(), args };
    let ghost fv = wpat_view(first);
    patterns.push(first);
    patterns.append(&mut rest);
    proof {
        lemma_wpats_view(iv);
        lemma_wpats_view(av);
        lemma_wpats_view(rv);
        lemma_wpats_view(patterns@);
        assert(wpats_view(av) =~= wpats_view(iv).take(k as int));
        assert(fv == WitnessPatM::Ctor(ctor.name@, wpats_view(iv).take(k as int)));
        assert(patterns@[0] == first);
        assert(wpats_view(patterns@) =~= with_ctor(ctor.name@, ctor.arity as nat, wpats_view(iv)));
    }
    Witness::from_patterns(patterns)
}

/// A witness with a missing constructor, with wildcard arguments, or a
/// wildcard, put in front.
fn add_missing_constructor(missing: Option<Constructor>, inner: Witness) -> (r: Witness)
    ensures
        wpats_view(r.patterns@).len() == 1 + inner.patterns@.len(),
        wpats_view(r.patterns@).skip(1) == wpats_view(inner.patterns@),
        match missing {
            Some(c) => wpats_view(r.patterns@)[0] == WitnessPatM::Ctor(
                c.name@,
                Seq::new(c.arity as nat, |i: int| WitnessPatM::Wildcard),
            ),
            None => wpats_view(r.patterns@)[0] == WitnessPatM::Wildcard,
        },
{
    let ghost iv = inner.patterns@;
    let ghost mv = missing;
    let mut patterns: Vec<WitnessPat> = Vec::new();
    match missing {
        Some(ctor) => {
            let mut args: Vec<WitnessPat> = Vec::new();
            let mut i: usize = 0;
            while i < ctor.arity
                invariant
                    i <= ctor.arity,
                    args@.len() == i,
                    forall|j: int| 0 <= j < i ==> #[trigger] args@[j] is Wildcard,
                decreases ctor.arity - i,
            {
                args.push(WitnessPat::Wildcard);
                i = i + 1;
            }
            proof {
                lemma_wpats_view(args@);
                assert(wpats_view(args@) =~= Seq::new(ctor.arity as nat, |i: int| WitnessPatM::Wildcard));
            }
            patterns.push(WitnessPat::Constructor { name: ctor.name, args });
        },
        None => {
            patterns.push(WitnessPat::Wildcard);
        },
    }
    let ghost first = patterns@[0];
    let mut rest = inner.patterns;
    patterns.append(&mut rest);
    proof {
        lemma_wpats_view(iv);
        lemma_wpats_view(patterns@);
        assert(patterns@[0] == first);
        assert(wpats_view(patterns@).skip(1) =~= wpats_view(iv));
    }
    Witness::from_patterns(patterns)
}

// ---------------------------------------------------------------------------
// Match expressions
// ---------------------------------------------------------------------------

/// The simplified model of a source pattern: bindings and float literals
/// match anything, `nil` is the unit constructor `()`, a tuple of `n`
/// patterns is the constructor `Tuple<n>`, and variant and struct patterns
/// are constructors named by their full path.
pub open spec fn simplified(p: Pat) -> PatM
    decreases p,
{
    match p {
        Pat::Wildcard(_) => PatM::Wildcard,
        Pat::Ident(_) => PatM::Wildcard,
        Pat::Literal(lit, _) => match lit {
            Lit::Int(n) => PatM::Lit(LiteralPatM::Int(n as int)),
            Lit::Bool(b) => PatM::Lit(LiteralPatM::Bool(b)),
            Lit::Str(s) => PatM::Lit(LiteralPatM::Str(s@)),
            Lit::Float(_) => PatM::Wildcard,
            Lit::Nil => PatM::Ctor("()"@, Seq::empty()),
        },
        Pat::Tuple(ps, _) => PatM::Ctor("Tuple"@ + decimal(ps@.len()), simplified_seq(ps@)),
        Pat::Variant { path, fields, .. } => PatM::Ctor(joined_path(path.segments@), simplified_seq(fields@)),
        Pat::Struct { path, fields, .. } => PatM::Ctor(joined_path(path.segments@), simplified_fields(fields@)),
    }
}

/// The simplified models of a sequence of patterns.
pub open spec fn simplified_seq(s: Seq<Pat>) -> Seq<PatM>
    decreases s,
{
    if s.len() == 0 {
        Seq::empty()
    } else {
        simplified_seq(s.drop_last()).push(simplified(s.last()))
    }
}

/// The simplified models of the patterns of struct fields, in order.
pub open spec fn simplified_fields(s: Seq<PatField>) -> Seq<PatM>
    decreases s,
{
    if s.len() == 0 {
        Seq::empty()
    } else {
        simplified_fields(s.drop_last()).push(simplified(s.last().pat))
    }
}

/// Simplifies a source pattern for the exhaustiveness checks.
pub fn simplify_pattern(pat: &Pat, registry: &AdtRegistry) -> (r: SimplifiedPat)
    ensures
        pat_view(r) == simplified(*pat),
    decreases pat,
{
    match pat {
        Pat::Wildcard(_) => SimplifiedPat::Wildcard,
        Pat::Ident(_) => SimplifiedPat::Wildcard,
        Pat::Literal(lit, _) => match lit {
            Lit::Int(n) => SimplifiedPat::Literal(LiteralPat::Int(*n)),
            Lit::Bool(b) => SimplifiedPat::Literal(LiteralPat::Bool(*b)),
            Lit::Str(s) => SimplifiedPat::Literal(LiteralPat::String(s.clone())),
            Lit::Float(_) => SimplifiedPat::Wildcard,
            Lit::Nil => {
                let r = SimplifiedPat::Constructor { name: "()".to_string(), args: Vec::new() };
                assert(pats_view(Seq::<SimplifiedPat>::empty()) =~= Seq::<PatM>::empty());
                r
            },
        },
        Pat::Tuple(pats, _) => {
            let args = simplify_pats(pats, registry);
            let mut name = String::new();
            name.append("Tuple");
            push_decimal(&mut name, pats.len() as u64);
            SimplifiedPat::Constructor { name, args }
        },
        Pat::Variant { path, fields, .. } => {
            let name = join_idents(&path.segments);
            let args = simplify_pats(fields, registry);
            SimplifiedPat::Constructor { name, args }
        },
        Pat::Struct { path, fields, .. } => {
            let name = join_idents(&path.segments);
            let args = simplify_field_pats(fields, registry);
            SimplifiedPat::Constructor { name, args }
        },
    }
}

/// Simplifies each pattern of a sequence.
fn simplify_pats(pats: &Vec<Pat>, registry: &AdtRegistry) -> (r: Vec<SimplifiedPat>)
    ensures
        pats_view(r@) == simplified_seq(pats@),
    decreases pats,
{
    let mut out: Vec<SimplifiedPat> = Vec::new();
    let mut i: usize = 0;
    while i < pats.len()
        invariant
            i <= pats@.len(),
            pats_view(out@) == simplified_seq(pats@.take(i as int)),
        decreases pats@.len() - i,
    {
        assert(decreases_to!(pats => pats@[i as int]));
        let p = simplify_pattern(&pats[i], registry);
        let ghost before = out@;
        out.push(p);
        proof {
            assert(out@.drop_last() =~= before);
            assert(pats@.take(i + 1).drop_last() =~= pats@.take(i as int));
        }
        i = i + 1;
    }
    assert(pats@.take(pats@.len() as int) =~= pats@);
    out
}

/// Simplifies the pattern of each struct field, in order.
fn simplify_field_pats(fields: &Vec<PatField>, registry: &AdtRegistry) -> (r: Vec<SimplifiedPat>)
    ensures
        pats_view(r@) == simplified_fields(fields@),
    decreases fields,
{
    let mut out: Vec<SimplifiedPat> = Vec::new();
    let mut i: usize = 0;
    while i < fields.len()
        invariant
            i <= fields@.len(),
            pats_view(out@) == simplified_fields(fields@.take(i as int)),
        decreases fields@.len() - i,
    {
        assert(decreases_to!(fields => fields@[i as int]));
        let p = simplify_pattern(&fields[i].pat, registry);
        let ghost before = out@;
        out.push(p);
        proof {
            assert(out@.drop_last() =~= before);
            assert(fields@.take(i + 1).drop_last() =~= fields@.take(i as int));
        }
        i = i + 1;
    }
    assert(fields@.take(fields@.len() as int) =~= fields@);
    out
}

/// Whether a matrix is the one of a match: one column of the scrutinee's
/// type and, for each arm in order, a row of its simplified pattern.
pub open spec fn matrix_of_arms(m: PatternMatrix, arms: Seq<MatchArm>, scrutinee: TyM) -> bool {
    &&& tys_view(m.column_types@) == seq![scrutinee]
    &&& m.rows@.len() == arms.len()
    &&& forall|i: int| 0 <= i < arms.len() ==> (#[trigger] m.rows@[i]).arm_index == i
        && pats_view(m.rows@[i].patterns@) == seq![simplified(arms[i].pat)]
}

/// Builds the pattern matrix of a match: one column of the scrutinee's type,
/// one row per arm.
pub fn build_pattern_matrix(arms: &[MatchArm], scrutinee_ty: &Ty, registry: &AdtRegistry) -> (r: PatternMatrix)
    ensures
        matrix_of_arms(r, arms@, scrutinee_ty@),
{
    let mut column_types: Vec<Ty> = Vec::new();
    column_types.push(scrutinee_ty.copy());
    let mut matrix = PatternMatrix::new(column_types);
    proof {
        assert(tys_view(matrix.column_types@.drop_last()) =~= Seq::<TyM>::empty());
        assert(tys_view(matrix.column_types@) =~= seq![scrutinee_ty@]);
    }
    let mut i: usize = 0;
    while i < arms.len()
        invariant
            i <= arms@.len(),
            tys_view(matrix.column_types@) == seq![scrutinee_ty@],
            matrix.rows@.len() == i,
            forall|j: int| 0 <= j < i ==> (#[trigger] matrix.rows@[j]).arm_index == j
                && pats_view(matrix.rows@[j].patterns@) == seq![simplified(arms@[j].pat)],
        decreases arms@.len() - i,
    {
        let pat = simplify_pattern(&arms[i].pat, registry);
        let mut patterns: Vec<SimplifiedPat> = Vec::new();
        patterns.push(pat);
        proof {
            assert(pats_view(patterns@.drop_last()) =~= Seq::<PatM>::empty());
            assert(pats_view(patterns@) =~= seq![simplified(arms@[i as int].pat)]);
        }
        matrix.add_row(PatternRow::new(patterns, i));
        i = i + 1;
    }
    matrix
}

/// The indices of the rows judged not useful, in order.
pub open spec fn unuseful(verdict: Seq<bool>) -> Seq<usize>
    decreases verdict.len(),
{
    if verdict.len() == 0 {
        Seq::empty()
    } else if verdict.last() {
        unuseful(verdict.drop_last())
    } else {
        unuseful(verdict.drop_last()).push((verdict.len() - 1) as usize)
    }
}

/// Whether `redundant` are the arms judged not useful by `verdict`, one
/// verdict per arm, where the first arm is useful and every arm after a
/// catch-all arm is not.
pub open spec fn arms_verdict(arms: Seq<MatchArm>, verdict: Seq<bool>, redundant: Seq<usize>) -> bool {
    &&& verdict.len() == arms.len()
    &&& redundant == unuseful(verdict)
    &&& arms.len() > 0 ==> verdict[0]
    &&& forall|i: int, j: int| 0 <= j < i < arms.len() && #[trigger] simplified(arms[j].pat) == PatM::Wildcard
        ==> !#[trigger] verdict[i]
}

/// The flagged arms of rows numbered in order are the unuseful indices.
proof fn lemma_flagged_in_order(rows: Seq<PatternRow>, verdict: Seq<bool>)
    requires
        rows.len() == verdict.len(),
        forall|i: int| 0 <= i < rows.len() ==> (#[trigger] rows[i]).arm_index == i,
    ensures
        flagged(rows, verdict) == unuseful(verdict),
    decreases rows.len(),
{
    if rows.len() > 0 {
        let r2 = rows.drop_last();
        assert forall|i: int| 0 <= i < r2.len() implies (#[trigger] r2[i]).arm_index == i by {
            assert(r2[i] == rows[i]);
        }
        lemma_flagged_in_order(r2, verdict.drop_last());
        assert(rows.last().arm_index == rows.len() - 1) by {
            assert(rows[rows.len() - 1].arm_index == rows.len() - 1);
        }
    }
}

/// Checks a match: a witness of a case that no arm covers, if any, and the
/// indices of the arms that no earlier arm leaves anything to match.
///
/// A match with a catch-all arm is exhaustive; a match without arms misses
/// everything; no arm covers a reported witness; the first arm is never
/// redundant, and every arm after a catch-all arm is.
pub fn check_match(arms: &[MatchArm], scrutinee_ty: &Ty, registry: &AdtRegistry, span: Span) -> (r: Result<
    (Option<Witness>, Vec<usize>),
    ExhaustivenessError,
>)
    ensures
        arms@.len() > MAX_PATTERN_MATRIX_SIZE ==> r matches Err(ExhaustivenessError::MatrixTooLarge { .. }),
        arms@.len() == 0 ==> r is Ok,
        r is Ok && (exists|i: int| 0 <= i < arms@.len() && #[trigger] simplified(arms@[i].pat) == PatM::Wildcard)
            ==> r->Ok_0.0 is None,
        r is Ok && arms@.len() == 0 ==> (r->Ok_0.0 matches Some(w) && w.patterns@.len() == 1
            && w.patterns@[0] is Wildcard),
        r is Ok ==> exists|verdict: Seq<bool>| #[trigger] arms_verdict(arms@, verdict, r->Ok_0.1@),
        r matches Ok((Some(w), _)) ==> w.patterns@.len() == 1 && forall|i: int| 0 <= i < arms@.len()
            ==> !pat_covers(#[trigger] simplified(arms@[i].pat), wpats_view(w.patterns@)[0]),
{
    let matrix = build_pattern_matrix(arms, scrutinee_ty, registry);
    let mut checker = ExhaustivenessChecker::new(registry, span);
    proof {
        lemma_tys_view(matrix.column_types@);
        assert(matrix.column_types@.len() == 1);
        assert(matrix_size(matrix) == arms@.len()) by (nonlinear_arith)
            requires
                matrix.column_types@.len() == 1,
                matrix.rows@.len() == arms@.len(),
                matrix_size(matrix) == matrix.rows@.len() * (if matrix.column_types@.len() == 0 { 1 } else { matrix.column_types@.len() }),
        ;
        if exists|i: int| 0 <= i < arms@.len() && #[trigger] simplified(arms@[i].pat) == PatM::Wildcard {
            let i = choose|i: int| 0 <= i < arms@.len() && #[trigger] simplified(arms@[i].pat) == PatM::Wildcard;
            assert(matrix.rows@[i].arm_index == i);
            lemma_pats_view(matrix.rows@[i].patterns@);
            assert(catch_all(matrix.rows@[i], matrix.column_types@.len()));
        }
    }
    let witness = match checker.check_exhaustive(&matrix) {
        Ok(w) => w,
        Err(e) => {
            return Err(e);
        },
    };
    proof {
        if witness is Some {
            let w = witness->0;
            let wv = wpats_view(w.patterns@);
            lemma_wpats_view(w.patterns@);
            assert forall|i: int| 0 <= i < arms@.len() implies !pat_covers(
                #[trigger] simplified(arms@[i].pat),
                wv[0],
            ) by {
                if pat_covers(simplified(arms@[i].pat), wv[0]) {
                    assert(matrix.rows@[i].arm_index == i);
                    assert(row_covers(pats_view(matrix.rows@[i].patterns@), wv));
                    assert(matrix_covers(matrix, wv));
                }
            }
        }
    }
    let redundant = match checker.check_redundant(&matrix) {
        Ok(v) => v,
        Err(e) => {
            return Err(e);
        },
    };
    let ghost verdict = choose|verdict: Seq<bool>| #[trigger] redundancy_verdict(matrix, verdict, redundant@);
    proof {
        lemma_flagged_in_order(matrix.rows@, verdict);
        assert forall|i: int, j: int| 0 <= j < i < arms@.len() && #[trigger] simplified(arms@[j].pat)
            == PatM::Wildcard implies !#[trigger] verdict[i] by {
            lemma_pats_view(matrix.rows@[j].patterns@);
            assert(catch_all(matrix.rows@[j], matrix.column_types@.len()));
        }
        assert(arms_verdict(arms@, verdict, redundant@));
    }
    let r: Result<(Option<Witness>, Vec<usize>), ExhaustivenessError> = Ok((witness, redundant));
    assert(arms_verdict(arms@, verdict, r->Ok_0.1@));
    r
}

} // verus!
