//! Single use of affine values, capabilities above all.
//!
//! After inference, a function body is walked in evaluation order. Each
//! binding of an affine type is watched: using it consumes it, using it again
//! is an error, and using it inside a loop is an error. Branches are joined
//! pessimistically: a binding consumed on any branch is consumed after them.
use vstd::prelude::*;
use crate::assoc::{AssocMap, MapKey, has_key};
use crate::ast::{Ident, Block, Expr, FieldInit, MatchArm, Pat, PatField, Span, Stmt, join_idents};
use crate::checker::push_span;
use crate::effects::{CapKind, cap_named};
use crate::ty::{Scheme, Ty, TyConst, TyM, TypeVarId, lemma_tys_view, ty_view, tys_view};

verus! {

// ---------------------------------------------------------------------------
// Kinds of types
// ---------------------------------------------------------------------------

/// How often a value of a type may be used.
#[derive(Debug, Clone, Copy, PartialEq, Eq, Structural)]
pub enum Kind {
    /// Any number of times.
    Unrestricted,
    /// At most once.
    Affine,
}

/// Whether a type is affine: a capability, or a tuple, list or data type
/// that holds one (a data type named after a capability is one).
pub open spec fn affine(t: TyM) -> bool
    decreases t,
{
    match t {
        TyM::Cap(_) => true,
        TyM::Adt(name, args) => cap_named(name) is Some || affine_seq(args),
        TyM::Tuple(xs) => affine_seq(xs),
        TyM::List(x) => affine(*x),
        _ => false,
    }
}

/// Whether some type of a sequence is affine.
pub open spec fn affine_seq(s: Seq<TyM>) -> bool
    decreases s,
{
    if s.len() == 0 {
        false
    } else {
        affine_seq(s.drop_last()) || affine(s.last())
    }
}

proof fn lemma_affine_prefix(s: Seq<TyM>, k: int)
    requires
        0 <= k <= s.len(),
        affine_seq(s.take(k)),
    ensures
        affine_seq(s),
    decreases s.len() - k,
{
    if k == s.len() {
        assert(s.take(k) =~= s);
    } else {
        assert(s.take(k + 1).drop_last() =~= s.take(k));
        lemma_affine_prefix(s, k + 1);
    }
}

/// Whether some type of a sequence is affine.
fn any_affine(s: &Vec<Ty>) -> (r: bool)
    ensures
        r == affine_seq(tys_view(s@)),
    decreases s,
{
    let mut i: usize = 0;
    while i < s.len()
        invariant
            i <= s@.len(),
            !affine_seq(tys_view(s@.take(i as int))),
        decreases s@.len() - i,
    {
        assert(decreases_to!(s => s@[i as int]));
        proof {
            crate::ty::lemma_tys_view_take(s@, i as int);
            assert(tys_view(s@.take(i as int)).push(ty_view(s@[i as int])).drop_last() =~= tys_view(
                s@.take(i as int),
            ));
        }
        if s[i].kind() == Kind::Affine {
            proof {
                lemma_tys_view(s@);
                assert(tys_view(s@.take(i + 1)) =~= tys_view(s@).take(i + 1)) by {
                    lemma_tys_view(s@.take(i + 1));
                }
                lemma_affine_prefix(tys_view(s@), i + 1);
            }
            return true;
        }
        i = i + 1;
    }
    assert(s@.take(s@.len() as int) =~= s@);
    false
}

impl Ty {
    /// The kind of this type: affine for capabilities and for what holds
    /// them, unrestricted otherwise.
    pub fn kind(&self) -> (r: Kind)
        ensures
            (r == Kind::Affine) == affine(self@),
        decreases self,
    {
        match self {
            Ty::Cap(_) => Kind::Affine,
            Ty::Adt { name, args } => {
                if CapKind::from_name(name.as_str()).is_some() || any_affine(args) {
                    Kind::Affine
                } else {
                    Kind::Unrestricted
                }
            },
            Ty::Tuple(xs) => if any_affine(xs) {
                Kind::Affine
            } else {
                Kind::Unrestricted
            },
            Ty::List(x) => x.kind(),
            _ => Kind::Unrestricted,
        }
    }
}

// ---------------------------------------------------------------------------
// Errors
// ---------------------------------------------------------------------------

/// Misuses of single-use values.
#[derive(Debug, Clone)]
pub enum MoveError {
    /// The value was used again after its permission was transferred.
    AlreadyUsed { name: String, used_at: Span, previous_use: Span },
    /// The value was used inside a loop, once per iteration.
    UsedInLoop { name: String, used_at: Span },
}

/// The `Debug` form of a span.
pub open spec fn span_debug(s: Span) -> Seq<char> {
    crate::checker::span_text(s)
}

/// The message of a move error.
pub open spec fn move_error_text(e: MoveError) -> Seq<char> {
    match e {
        MoveError::AlreadyUsed { name, used_at, previous_use } => "capability '"@ + name@
            + "' has already been used at "@ + span_debug(used_at) + "; permission was transferred at "@
            + span_debug(previous_use) + "; '"@ + name@ + "' is no longer available"@,
        MoveError::UsedInLoop { name, used_at } => "cannot use single-use capability '"@ + name@
            + "' inside loop at "@ + span_debug(used_at) + "; '"@ + name@ + "' would be used on every iteration"@,
    }
}

impl MoveError {
    /// The message of this error, as it is shown to users.
    pub fn message(&self) -> (r: String)
        ensures
            r@ == move_error_text(*self),
    {
        let mut s = String::new();
        match self {
            MoveError::AlreadyUsed { name, used_at, previous_use } => {
                s.append("capability '");
                s.append(name.as_str());
                s.append("' has already been used at ");
                push_span(&mut s, *used_at);
                s.append("; permission was transferred at ");
                push_span(&mut s, *previous_use);
                s.append("; '");
                s.append(name.as_str());
                s.append("' is no longer available");
            },
            MoveError::UsedInLoop { name, used_at } => {
                s.append("cannot use single-use capability '");
                s.append(name.as_str());
                s.append("' inside loop at ");
                push_span(&mut s, *used_at);
                s.append("; '");
                s.append(name.as_str());
                s.append("' would be used on every iteration");
            },
        }
        assert(s@ =~= move_error_text(*self));
        s
    }
}

// ---------------------------------------------------------------------------
// Bindings and their states
// ---------------------------------------------------------------------------

/// A binding: its name and the generation it was introduced in, so that a
/// shadowing binding is a different one.
#[derive(Debug)]
pub struct BindingId {
    pub name: String,
    pub generation: u32,
}

impl View for BindingId {
    type V = (Seq<char>, u32);

    open spec fn view(&self) -> (Seq<char>, u32) {
        (self.name@, self.generation)
    }
}

impl MapKey for BindingId {
    fn key_eq(&self, other: &Self) -> (r: bool) {
        self.generation == other.generation && self.name == other.name
    }

    fn key_clone(&self) -> (r: Self) {
        BindingId { name: self.name.clone(), generation: self.generation }
    }
}

/// Whether a watched binding may still be used.
#[derive(Debug, Clone, Copy, PartialEq, Eq, Structural)]
pub enum MoveState {
    Alive,
    /// Used, at this span.
    Consumed(Span),
}

/// A watched (affine) binding: its state and where it was introduced.
#[derive(Debug, Clone, Copy, PartialEq, Eq, Structural)]
pub struct TrackedBinding {
    pub state: MoveState,
    pub def_span: Span,
}

/// A copy of the move states.
fn copy_tracked(m: &AssocMap<BindingId, TrackedBinding>) -> (r: AssocMap<BindingId, TrackedBinding>)
    ensures
        r@ == m@,
{
    let mut out: AssocMap<BindingId, TrackedBinding> = AssocMap::new();
    let n = m.len();
    let mut i: usize = 0;
    while i < n
        invariant
            n == m.entries().len(),
            i <= n,
            forall|k: (Seq<char>, u32)| #[trigger] m@.contains_key(k) ==> has_key(m.entries(), k),
            forall|k: (Seq<char>, u32)| #[trigger] out@.contains_key(k) <==> exists|j: int|
                0 <= j < i && #[trigger] m.entries()[j].0@ == k,
            forall|k: (Seq<char>, u32)| #[trigger] out@.contains_key(k) ==> m@.contains_key(k) && out@[k] == m@[k],
        decreases n - i,
    {
        let (k, b) = m.entry(i);
        out.insert(k.key_clone(), *b);
        i = i + 1;
    }
    assert(out@ =~= m@);
    out
}

/// The move checker: the current binding of each name, the watched bindings,
/// the types of all bindings, the generation counter, whether the walk is
/// inside a loop, the errors found so far, and the schemes of named
/// functions.
pub struct MoveChecker<'a> {
    name_to_id: AssocMap<String, BindingId>,
    watched: AssocMap<BindingId, TrackedBinding>,
    generation: u32,
    in_loop: bool,
    errors: Vec<MoveError>,
    binding_types: AssocMap<BindingId, Ty>,
    env: &'a AssocMap<String, Scheme>,
}

/// The state of a watched binding after a use at `at`.
pub open spec fn after_use(t: TrackedBinding, at: Span) -> TrackedBinding {
    TrackedBinding { state: MoveState::Consumed(at), def_span: t.def_span }
}

impl<'a> MoveChecker<'a> {
    /// The current binding of each name.
    pub closed spec fn ids(&self) -> Map<Seq<char>, (Seq<char>, u32)> {
        Map::new(|k: Seq<char>| self.name_to_id@.contains_key(k), |k: Seq<char>| self.name_to_id@[k]@)
    }

    /// The move states of the watched bindings.
    pub closed spec fn states(&self) -> Map<(Seq<char>, u32), TrackedBinding> {
        self.watched@
    }

    /// The errors found so far, in order.
    pub closed spec fn found(&self) -> Seq<MoveError> {
        self.errors@
    }

    /// Whether the walk is inside a loop.
    pub closed spec fn looping(&self) -> bool {
        self.in_loop
    }

    /// The number of bindings introduced so far.
    pub closed spec fn generations(&self) -> u32 {
        self.generation
    }

    /// The names of the current bindings agree with their keys.
    pub closed spec fn wf(&self) -> bool {
        forall|k: Seq<char>| #[trigger] self.name_to_id@.contains_key(k) ==> self.name_to_id@[k]@.0 == k
    }

    /// A checker with nothing bound, outside any loop.
    fn new(env: &'a AssocMap<String, Scheme>) -> (r: Self)
        ensures
            r.ids() == Map::<Seq<char>, (Seq<char>, u32)>::empty(),
            r.states() == Map::<(Seq<char>, u32), TrackedBinding>::empty(),
            r.found().len() == 0,
            !r.looping(),
            r.generations() == 0,
            r.wf(),
    {
        let r = MoveChecker {
            name_to_id: AssocMap::new(),
            watched: AssocMap::new(),
            generation: 0,
            in_loop: false,
            errors: Vec::new(),
            binding_types: AssocMap::new(),
            env,
        };
        assert(r.ids() =~= Map::<Seq<char>, (Seq<char>, u32)>::empty());
        r
    }

    /// Introduces a binding of a name to a type in a new generation; an
    /// affine one is watched, alive.
    fn introduce_binding(&mut self, name: &str, ty: &Ty, span: Span)
        requires
            old(self).generations() < u32::MAX,
            old(self).wf(),
        ensures
            final(self).wf(),
            final(self).generations() == old(self).generations() + 1,
            final(self).ids() == old(self).ids().insert(name@, (name@, final(self).generations())),
            affine(ty@) ==> final(self).states() == old(self).states().insert(
                (name@, final(self).generations()),
                TrackedBinding { state: MoveState::Alive, def_span: span },
            ),
            !affine(ty@) ==> final(self).states() == old(self).states(),
            final(self).found() == old(self).found(),
            final(self).looping() == old(self).looping(),
            final(self).env == old(self).env,
    {
        self.generation = self.generation + 1;
        let id = BindingId { name: name.to_owned(), generation: self.generation };
        self.name_to_id.insert(name.to_owned(), id.key_clone());
        self.binding_types.insert(id.key_clone(), ty.copy());
        if ty.kind() == Kind::Affine {
            self.watched.insert(id, TrackedBinding { state: MoveState::Alive, def_span: span });
        }
        assert(self.ids() =~= old(self).ids().insert(name@, (name@, self.generation)));
    }

    /// The types of all bindings.
    pub closed spec fn types(&self) -> Map<(Seq<char>, u32), Ty> {
        self.binding_types@
    }

    /// The type of the current binding of a name, if it has one.
    fn get_binding_type(&self, name: &str) -> (r: Option<&Ty>)
        ensures
            r is Some <==> (self.ids().contains_key(name@) && self.types().contains_key(self.ids()[name@])),
            r matches Some(t) ==> *t == self.types()[self.ids()[name@]],
    {
        let key = name.to_owned();
        match self.name_to_id.get(&key) {
            Some(id) => self.binding_types.get(id),
            None => None,
        }
    }

    /// Whether the current binding of a name is watched.
    fn is_affine(&self, name: &str) -> (r: bool)
        ensures
            r == (self.ids().contains_key(name@) && self.states().contains_key(self.ids()[name@])),
    {
        let key = name.to_owned();
        match self.name_to_id.get(&key) {
            Some(id) => self.watched.contains_key(id),
            None => false,
        }
    }

    /// Uses the current binding of a name at `use_span`. An unwatched binding
    /// is unaffected. Inside a loop the use is an error; otherwise an alive
    /// binding is consumed, and a consumed one is an error naming its earlier
    /// use.
    fn use_binding(&mut self, name: &str, use_span: Span)
        ensures
            final(self).ids() == old(self).ids(),
            final(self).generations() == old(self).generations(),
            final(self).looping() == old(self).looping(),
            final(self).env == old(self).env,
            final(self).wf() == old(self).wf(),
            use_outcome(
                old(self).ids(),
                old(self).states(),
                old(self).looping(),
                old(self).found(),
                name@,
                use_span,
                final(self).states(),
                final(self).found(),
            ),
    {
        let key = name.to_owned();
        let id = match self.name_to_id.get(&key) {
            Some(id) => id.key_clone(),
            None => {
                return;
            },
        };
        let entry = match self.watched.get(&id) {
            Some(t) => *t,
            None => {
                return;
            },
        };
        let ghost key_view = id@;
        assert(key_view == old(self).ids()[name@]);
        if self.in_loop {
            self.errors.push(MoveError::UsedInLoop { name: name.to_owned(), used_at: use_span });
            assert(self.errors@.take(old(self).errors@.len() as int) =~= old(self).errors@);
            return;
        }
        match entry.state {
            MoveState::Alive => {
                self.watched.insert(id, TrackedBinding { state: MoveState::Consumed(use_span), def_span: entry.def_span });
                assert(self.watched@ == old(self).states().insert(key_view, after_use(entry, use_span)));
            },
            MoveState::Consumed(previous_span) => {
                self.errors.push(
                    MoveError::AlreadyUsed { name: name.to_owned(), used_at: use_span, previous_use: previous_span },
                );
                assert(self.errors@.take(old(self).errors@.len() as int) =~= old(self).errors@);
            },
        }
    }
}

/// What one use of a name does to the states and the errors: nothing for a
/// name without a watched binding; inside a loop, an error; otherwise an alive
/// binding becomes consumed at the use, and a consumed one is an error that
/// names the earlier use.
pub open spec fn use_outcome(
    ids: Map<Seq<char>, (Seq<char>, u32)>,
    states: Map<(Seq<char>, u32), TrackedBinding>,
    looping: bool,
    errors: Seq<MoveError>,
    name: Seq<char>,
    at: Span,
    states2: Map<(Seq<char>, u32), TrackedBinding>,
    errors2: Seq<MoveError>,
) -> bool {
    if !ids.contains_key(name) || !states.contains_key(ids[name]) {
        states2 == states && errors2 == errors
    } else if looping {
        &&& states2 == states
        &&& errors2.len() == errors.len() + 1
        &&& errors2.take(errors.len() as int) == errors
        &&& errors2.last() matches MoveError::UsedInLoop { name: n, used_at } && n@ == name && used_at == at
    } else {
        match states[ids[name]].state {
            MoveState::Alive => {
                &&& states2 == states.insert(ids[name], after_use(states[ids[name]], at))
                &&& errors2 == errors
            },
            MoveState::Consumed(prev) => {
                &&& states2 == states
                &&& errors2.len() == errors.len() + 1
                &&& errors2.take(errors.len() as int) == errors
                &&& errors2.last() matches MoveError::AlreadyUsed { name: n, used_at, previous_use } && n@ == name
                    && used_at == at && previous_use == prev
            },
        }
    }
}

/// The name that a statement consisting of a variable alone uses.
pub open spec fn use_name(s: Stmt) -> Option<Ident> {
    match s {
        Stmt::Expr { expr: Expr::Var(id), .. } => Some(id),
        _ => None,
    }
}

/// Whether a block's first two statements each use the same name alone.
pub open spec fn starts_with_two_uses(b: Block) -> bool {
    &&& b.stmts@.len() >= 2
    &&& use_name(b.stmts@[0]) is Some
    &&& use_name(b.stmts@[1]) is Some
    &&& use_name(b.stmts@[0])->Some_0.text@ == use_name(b.stmts@[1])->Some_0.text@
}

/// A watched binding used once outside a loop and then again is an error
/// that names both uses; the first use records nothing.
pub proof fn lemma_second_use_is_an_error(
    ids: Map<Seq<char>, (Seq<char>, u32)>,
    states: Map<(Seq<char>, u32), TrackedBinding>,
    errors: Seq<MoveError>,
    name: Seq<char>,
    first: Span,
    second: Span,
    states1: Map<(Seq<char>, u32), TrackedBinding>,
    errors1: Seq<MoveError>,
    states2: Map<(Seq<char>, u32), TrackedBinding>,
    errors2: Seq<MoveError>,
)
    requires
        ids.contains_key(name),
        states.contains_key(ids[name]),
        states[ids[name]].state == MoveState::Alive,
        use_outcome(ids, states, false, errors, name, first, states1, errors1),
        use_outcome(ids, states1, false, errors1, name, second, states2, errors2),
    ensures
        errors1 == errors,
        errors2.len() == errors.len() + 1,
        errors2.last() matches MoveError::AlreadyUsed { name: n, used_at, previous_use } && n@ == name && used_at
            == second && previous_use == first,
{
}

// ---------------------------------------------------------------------------
// How many bindings a walk can introduce
// ---------------------------------------------------------------------------

/// The number of names a pattern binds.
pub open spec fn pat_binders(p: Pat) -> nat
    decreases p,
{
    match p {
        Pat::Ident(_) => 1,
        Pat::Tuple(ps, _) => pats_binders(ps@),
        Pat::Variant { fields, .. } => pats_binders(fields@),
        Pat::Struct { fields, .. } => field_pats_binders(fields@),
        _ => 0,
    }
}

/// The number of names a sequence of patterns binds.
pub open spec fn pats_binders(s: Seq<Pat>) -> nat
    decreases s,
{
    if s.len() == 0 {
        0
    } else {
        pats_binders(s.drop_last()) + pat_binders(s.last())
    }
}

/// The number of names the patterns of struct fields bind.
pub open spec fn field_pats_binders(s: Seq<PatField>) -> nat
    decreases s,
{
    if s.len() == 0 {
        0
    } else {
        field_pats_binders(s.drop_last()) + pat_binders(s.last().pat)
    }
}

/// An upper bound on the bindings that walking an expression introduces:
/// one per name bound by a pattern or assigned to.
pub open spec fn expr_binders(e: Expr) -> nat
    decreases e,
{
    match e {
        Expr::Unary { expr, .. } => expr_binders(*expr),
        Expr::Call { callee, args, .. } => expr_binders(*callee) + exprs_binders(args@),
        Expr::Binary { lhs, rhs, .. } => expr_binders(*lhs) + expr_binders(*rhs),
        Expr::Paren { inner, .. } => expr_binders(*inner),
        Expr::Block(b) => block_binders(b),
        Expr::If { cond, then_, else_, .. } => expr_binders(*cond) + block_binders(then_) + match else_ {
            Some(x) => expr_binders(*x),
            None => 0,
        },
        Expr::While { cond, body, .. } => expr_binders(*cond) + block_binders(body),
        Expr::Match { scrutinee, arms, .. } => expr_binders(*scrutinee) + arms_binders(arms@),
        Expr::Tuple { elems, .. } => exprs_binders(elems@),
        Expr::StructExpr { fields, .. } => inits_binders(fields@),
        _ => 0,
    }
}

/// The bound for a sequence of expressions.
pub open spec fn exprs_binders(s: Seq<Expr>) -> nat
    decreases s,
{
    if s.len() == 0 {
        0
    } else {
        exprs_binders(s.drop_last()) + expr_binders(s.last())
    }
}

/// The bound for the arms of a match: their patterns and bodies.
pub open spec fn arms_binders(s: Seq<MatchArm>) -> nat
    decreases s,
{
    if s.len() == 0 {
        0
    } else {
        arms_binders(s.drop_last()) + pat_binders(s.last().pat) + expr_binders(s.last().body)
    }
}

/// The bound for the field values of a struct expression.
pub open spec fn inits_binders(s: Seq<FieldInit>) -> nat
    decreases s,
{
    if s.len() == 0 {
        0
    } else {
        inits_binders(s.drop_last()) + expr_binders(s.last().value)
    }
}

/// The bound for a block.
pub open spec fn block_binders(b: Block) -> nat
    decreases b,
{
    stmts_binders(b.stmts@) + match b.tail {
        Some(t) => expr_binders(*t),
        None => 0,
    }
}

/// The bound for a sequence of statements.
pub open spec fn stmts_binders(s: Seq<Stmt>) -> nat
    decreases s,
{
    if s.len() == 0 {
        0
    } else {
        stmts_binders(s.drop_last()) + stmt_binders(s.last())
    }
}

/// The bound for a statement.
pub open spec fn stmt_binders(s: Stmt) -> nat
    decreases s,
{
    match s {
        Stmt::Let { pat, value, .. } => expr_binders(value) + pat_binders(pat),
        Stmt::Assign { value, .. } => expr_binders(value) + 1,
        Stmt::Expr { expr, .. } => expr_binders(expr),
        Stmt::Return { value, .. } => match value {
            Some(v) => expr_binders(v),
            None => 0,
        },
    }
}

// ---------------------------------------------------------------------------
// Joining branches
// ---------------------------------------------------------------------------

/// The span of the last branch, in order, that consumed a binding, if any.
pub open spec fn last_consumed(id: (Seq<char>, u32), branches: Seq<Map<(Seq<char>, u32), TrackedBinding>>) -> Option<Span>
    decreases branches.len(),
{
    if branches.len() == 0 {
        None
    } else {
        let b = branches.last();
        if b.contains_key(id) && b[id].state is Consumed {
            Some(b[id].state->Consumed_0)
        } else {
            last_consumed(id, branches.drop_last())
        }
    }
}

/// The state of a binding after branches: consumed if any branch consumed
/// it (at the last such use), as it was before them otherwise.
pub open spec fn joined(
    base: Map<(Seq<char>, u32), TrackedBinding>,
    branches: Seq<Map<(Seq<char>, u32), TrackedBinding>>,
) -> Map<(Seq<char>, u32), TrackedBinding> {
    Map::new(
        |id: (Seq<char>, u32)| base.contains_key(id),
        |id: (Seq<char>, u32)| match last_consumed(id, branches) {
            Some(s) => TrackedBinding { state: MoveState::Consumed(s), def_span: base[id].def_span },
            None => base[id],
        },
    )
}

/// Whether an expression is a literal or a variable.
pub open spec fn atom(e: Expr) -> bool {
    e is Lit || e is Var
}

/// Whether an expression is an atom, or a call of an atom on atoms.
pub open spec fn use_expr(e: Expr) -> bool {
    atom(e) || (e is Call && atom(*e->Call_callee) && forall|k: int| 0 <= k < e->Call_args@.len() ==> atom(
        #[trigger] e->Call_args@[k],
    ))
}

/// Whether an expression is the variable `n`.
pub open spec fn is_var_named(e: Expr, n: Seq<char>) -> bool {
    e is Var && e->Var_0.text@ == n
}

/// Whether an expression uses the variable `n` itself, or as the callee or
/// an argument of a call.
pub open spec fn uses_name(e: Expr, n: Seq<char>) -> bool {
    is_var_named(e, n) || (e is Call && (is_var_named(*e->Call_callee, n) || exists|k: int| 0 <= k < e->Call_args@.len()
        && is_var_named(#[trigger] e->Call_args@[k], n)))
}

/// Whether a binding is watched and consumed in a map of states.
pub open spec fn consumed_in(st: Map<(Seq<char>, u32), TrackedBinding>, id: (Seq<char>, u32)) -> bool {
    st.contains_key(id) && st[id].state is Consumed
}

/// Whether every watched binding of `a` is watched in `b`, and each consumed
/// one is still consumed.
pub open spec fn keeps_consumed(a: Map<(Seq<char>, u32), TrackedBinding>, b: Map<(Seq<char>, u32), TrackedBinding>) -> bool {
    &&& forall|id: (Seq<char>, u32)| #[trigger] a.contains_key(id) ==> b.contains_key(id)
    &&& forall|id: (Seq<char>, u32)| #[trigger] consumed_in(a, id) ==> consumed_in(b, id)
}

/// Whether a match arm binds nothing and its body is a use expression.
pub open spec fn plain_arm(a: MatchArm) -> bool {
    (a.pat is Wildcard || a.pat is Literal) && use_expr(a.body)
}

/// Whether a statement is a `match` on a literal whose arms bind nothing and
/// are each a use expression, and some arm uses `n`.
pub open spec fn match_uses(s: Stmt, n: Seq<char>) -> bool {
    &&& s is Expr
    &&& s->Expr_expr is Match
    &&& *s->Expr_expr->Match_scrutinee is Lit
    &&& s->Expr_expr->Match_arms@.len() > 0
    &&& forall|j: int| 0 <= j < s->Expr_expr->Match_arms@.len() ==> plain_arm(#[trigger] s->Expr_expr->Match_arms@[j])
    &&& exists|j: int| 0 <= j < s->Expr_expr->Match_arms@.len() && uses_name(#[trigger] s->Expr_expr->Match_arms@[j].body, n)
}

/// Keeping consumed bindings is transitive.
proof fn lemma_keeps_trans(
    a: Map<(Seq<char>, u32), TrackedBinding>,
    b: Map<(Seq<char>, u32), TrackedBinding>,
    c: Map<(Seq<char>, u32), TrackedBinding>,
)
    requires
        keeps_consumed(a, b),
        keeps_consumed(b, c),
    ensures
        keeps_consumed(a, c),
{
    assert forall|id: (Seq<char>, u32)| #[trigger] consumed_in(a, id) implies consumed_in(c, id) by {
        assert(consumed_in(b, id));
    }
    assert forall|id: (Seq<char>, u32)| #[trigger] a.contains_key(id) implies c.contains_key(id) by {
        assert(b.contains_key(id));
    }
}

/// A use keeps every watched binding and every consumed one, and, outside a
/// loop, leaves the binding used consumed.
proof fn lemma_use_keeps(
    ids: Map<Seq<char>, (Seq<char>, u32)>,
    states: Map<(Seq<char>, u32), TrackedBinding>,
    looping: bool,
    errors: Seq<MoveError>,
    name: Seq<char>,
    at: Span,
    states2: Map<(Seq<char>, u32), TrackedBinding>,
    errors2: Seq<MoveError>,
)
    requires
        use_outcome(ids, states, looping, errors, name, at, states2, errors2) || (states2 == states && !(ids.contains_key(name)
            && states.contains_key(ids[name]))),
    ensures
        keeps_consumed(states, states2),
        !looping && ids.contains_key(name) && states.contains_key(ids[name]) ==> consumed_in(states2, ids[name]),
{
    assert forall|id: (Seq<char>, u32)| #[trigger] consumed_in(states, id) implies consumed_in(states2, id) by {}
    assert forall|id: (Seq<char>, u32)| #[trigger] states.contains_key(id) implies states2.contains_key(id) by {}
}

/// A binding that some branch consumed was consumed by a last one.
proof fn lemma_last_consumed_found(id: (Seq<char>, u32), bs: Seq<Map<(Seq<char>, u32), TrackedBinding>>, j: int)
    requires
        0 <= j < bs.len(),
        bs[j].contains_key(id),
        bs[j][id].state is Consumed,
    ensures
        last_consumed(id, bs) is Some,
    decreases bs.len(),
{
    if j < bs.len() - 1 {
        let b = bs.last();
        if !(b.contains_key(id) && b[id].state is Consumed) {
            lemma_last_consumed_found(id, bs.drop_last(), j);
        }
    }
}

/// The views of a sequence of state maps.
pub open spec fn maps_view(s: Seq<AssocMap<BindingId, TrackedBinding>>) -> Seq<Map<(Seq<char>, u32), TrackedBinding>> {
    s.map_values(|m: AssocMap<BindingId, TrackedBinding>| m@)
}

/// The span of the last branch that consumed binding `id`.
fn last_consumed_span(id: &BindingId, branches: &Vec<AssocMap<BindingId, TrackedBinding>>) -> (r: Option<Span>)
    ensures
        r == last_consumed(id@, maps_view(branches@)),
{
    let mut consumed: Option<Span> = None;
    let mut j: usize = 0;
    while j < branches.len()
        invariant
            j <= branches@.len(),
            consumed == last_consumed(id@, maps_view(branches@.take(j as int))),
        decreases branches@.len() - j,
    {
        proof {
            assert(maps_view(branches@.take(j + 1)).drop_last() =~= maps_view(branches@.take(j as int)));
            assert(maps_view(branches@.take(j + 1)).last() == branches@[j as int]@);
        }
        match branches[j].get(id) {
            Some(t) => match t.state {
                MoveState::Consumed(span) => {
                    consumed = Some(span);
                },
                MoveState::Alive => {},
            },
            None => {},
        }
        j = j + 1;
    }
    assert(branches@.take(branches@.len() as int) =~= branches@);
    consumed
}

impl<'a> MoveChecker<'a> {
    /// A copy of the current move states.
    fn snapshot(&self) -> (r: AssocMap<BindingId, TrackedBinding>)
        ensures
            r@ == self.states(),
    {
        copy_tracked(&self.watched)
    }

    /// Puts back saved move states.
    fn restore(&mut self, snapshot: AssocMap<BindingId, TrackedBinding>)
        ensures
            final(self).states() == snapshot@,
            final(self).ids() == old(self).ids(),
            final(self).generations() == old(self).generations(),
            final(self).found() == old(self).found(),
            final(self).looping() == old(self).looping(),
            final(self).env == old(self).env,
            final(self).wf() == old(self).wf(),
    {
        self.watched = snapshot;
    }

    /// Joins the states of branches that all started from `base`, as the
    /// current states: consumed on any branch means consumed after them.
    fn pessimistic_join(&mut self, base: &AssocMap<BindingId, TrackedBinding>, branches: &Vec<AssocMap<BindingId, TrackedBinding>>)
        requires
            old(self).states() == base@,
        ensures
            final(self).states() == joined(base@, maps_view(branches@)),
            final(self).ids() == old(self).ids(),
            final(self).generations() == old(self).generations(),
            final(self).found() == old(self).found(),
            final(self).looping() == old(self).looping(),
            final(self).env == old(self).env,
            final(self).wf() == old(self).wf(),
    {
        let n = base.len();
        let mut i: usize = 0;
        while i < n
            invariant
                n == base.entries().len(),
                i <= n,
                forall|k: (Seq<char>, u32)| #[trigger] base@.contains_key(k) ==> has_key(base.entries(), k),
                self.watched@.dom() == base@.dom(),
                forall|k: (Seq<char>, u32)| #[trigger] self.watched@.contains_key(k) ==> (if exists|j: int|
                    0 <= j < i && #[trigger] base.entries()[j].0@ == k {
                    self.watched@[k] == joined(base@, maps_view(branches@))[k]
                } else {
                    self.watched@[k] == base@[k]
                }),
                self.name_to_id == old(self).name_to_id,
                self.generation == old(self).generation,
                self.errors == old(self).errors,
                self.in_loop == old(self).in_loop,
                self.env == old(self).env,
            decreases n - i,
        {
            let (id, base_t) = base.entry(i);
            let consumed = last_consumed_span(id, branches);
            let ghost before = self.watched@;
            match consumed {
                Some(span) => {
                    self.watched.insert(id.key_clone(), TrackedBinding { state: MoveState::Consumed(span), def_span: base_t.def_span });
                },
                None => {
                    self.watched.insert(id.key_clone(), *base_t);
                },
            }
            proof {
                assert(self.watched@.dom() =~= base@.dom());
                assert forall|k: (Seq<char>, u32)| #[trigger] self.watched@.contains_key(k) implies (if exists|j: int|
                    0 <= j < i + 1 && #[trigger] base.entries()[j].0@ == k {
                    self.watched@[k] == joined(base@, maps_view(branches@))[k]
                } else {
                    self.watched@[k] == base@[k]
                }) by {
                    if k == id@ {
                        assert(base.entries()[i as int].0@ == k);
                    } else {
                        if exists|j: int| 0 <= j < i + 1 && #[trigger] base.entries()[j].0@ == k {
                            let j = choose|j: int| 0 <= j < i + 1 && #[trigger] base.entries()[j].0@ == k;
                            assert(j != i);
                        }
                    }
                }
            }
            i = i + 1;
        }
        proof {
            assert forall|k: (Seq<char>, u32)| #[trigger] self.watched@.contains_key(k) implies self.watched@[k]
                == joined(base@, maps_view(branches@))[k] by {
                assert(has_key(base.entries(), k));
                let j = choose|j: int| 0 <= j < base.entries().len() && #[trigger] base.entries()[j].0@ == k;
            }
            assert(self.watched@ =~= joined(base@, maps_view(branches@)));
        }
    }
}

// ---------------------------------------------------------------------------
// Instantiating the result types of polymorphic callees
// ---------------------------------------------------------------------------

/// The models of the types a mapping sends variables to.
pub open spec fn mapping_view(m: Map<u32, Ty>) -> Map<u32, TyM> {
    m.map_values(|t: Ty| t@)
}

/// The mapping after matching a parameter type against an argument type:
/// each bound variable met in the parameter is sent to the part of the
/// argument in the same place, unless it is sent somewhere already; parts
/// of different shapes add nothing.
pub open spec fn collect_map(param: TyM, arg: TyM, bound: Seq<TypeVarId>, m: Map<u32, TyM>) -> Map<u32, TyM>
    decreases param,
{
    match param {
        TyM::Var(v) => if bound.contains(v) && !m.contains_key(v.0) {
            m.insert(v.0, arg)
        } else {
            m
        },
        TyM::Arrow(ps, r, _) => match arg {
            TyM::Arrow(aps, ar, _) => collect_map(*r, *ar, bound, collect_seq(ps, aps, bound, m)),
            _ => m,
        },
        TyM::Tuple(ts) => match arg {
            TyM::Tuple(ats) => collect_seq(ts, ats, bound, m),
            _ => m,
        },
        TyM::List(t) => match arg {
            TyM::List(at) => collect_map(*t, *at, bound, m),
            _ => m,
        },
        TyM::Adt(_, xs) => match arg {
            TyM::Adt(_, axs) => collect_seq(xs, axs, bound, m),
            _ => m,
        },
        _ => m,
    }
}

/// Matching pairs of types in order, as far as both sequences go.
pub open spec fn collect_seq(ps: Seq<TyM>, args: Seq<TyM>, bound: Seq<TypeVarId>, m: Map<u32, TyM>) -> Map<u32, TyM>
    decreases ps,
{
    if ps.len() == 0 || args.len() == 0 {
        m
    } else {
        collect_seq(ps.drop_first(), args.drop_first(), bound, collect_map(ps[0], args[0], bound, m))
    }
}

/// A type with the mapped variables replaced.
pub open spec fn mapped(t: TyM, m: Map<u32, TyM>) -> TyM
    decreases t,
{
    match t {
        TyM::Var(v) => if m.contains_key(v.0) {
            m[v.0]
        } else {
            t
        },
        TyM::Arrow(ps, r, e) => TyM::Arrow(mapped_seq(ps, m), Box::new(mapped(*r, m)), e),
        TyM::Tuple(xs) => TyM::Tuple(mapped_seq(xs, m)),
        TyM::List(x) => TyM::List(Box::new(mapped(*x, m))),
        TyM::Adt(name, xs) => TyM::Adt(name, mapped_seq(xs, m)),
        _ => t,
    }
}

/// A sequence of types with the mapped variables replaced.
pub open spec fn mapped_seq(s: Seq<TyM>, m: Map<u32, TyM>) -> Seq<TyM>
    decreases s,
{
    if s.len() == 0 {
        Seq::empty()
    } else {
        mapped_seq(s.drop_last(), m).push(mapped(s.last(), m))
    }
}

/// Whether a variable is among the bound ones.
fn holds_type_var(vars: &Vec<TypeVarId>, v: TypeVarId) -> (r: bool)
    ensures
        r == vars@.contains(v),
{
    let mut i: usize = 0;
    while i < vars.len()
        invariant
            i <= vars@.len(),
            forall|j: int| 0 <= j < i ==> vars@[j] != v,
        decreases vars@.len() - i,
    {
        if vars[i].0 == v.0 {
            assert(vars@[i as int] == v);
            return true;
        }
        i = i + 1;
    }
    false
}

/// Matches a parameter type against an argument type, extending the mapping
/// of the bound variables.
fn collect_var_mapping(param: &Ty, arg: &Ty, bound_vars: &Vec<TypeVarId>, mapping: &mut AssocMap<TypeVarId, Ty>)
    ensures
        mapping_view(final(mapping)@) == collect_map(param@, arg@, bound_vars@, mapping_view(old(mapping)@)),
    decreases param,
{
    match param {
        Ty::Var(v) => {
            if holds_type_var(bound_vars, *v) && !mapping.contains_key(v) {
                let ghost before = mapping@;
                mapping.insert(*v, arg.copy());
                assert(mapping_view(mapping@) =~= mapping_view(before).insert(v.0, arg@));
            }
        },
        Ty::Arrow(params, ret, _) => {
            if let Ty::Arrow(arg_params, arg_ret, _) = arg {
                collect_var_mappings(params, arg_params, bound_vars, mapping);
                collect_var_mapping(ret, arg_ret, bound_vars, mapping);
            }
        },
        Ty::Tuple(tys) => {
            if let Ty::Tuple(arg_tys) = arg {
                collect_var_mappings(tys, arg_tys, bound_vars, mapping);
            }
        },
        Ty::List(inner) => {
            if let Ty::List(arg_inner) = arg {
                collect_var_mapping(inner, arg_inner, bound_vars, mapping);
            }
        },
        Ty::Adt { args, .. } => {
            if let Ty::Adt { args: arg_args, .. } = arg {
                collect_var_mappings(args, arg_args, bound_vars, mapping);
            }
        },
        _ => {},
    }
}

/// Matches parameter types against argument types in pairs, in order.
fn collect_var_mappings(params: &Vec<Ty>, args: &Vec<Ty>, bound_vars: &Vec<TypeVarId>, mapping: &mut AssocMap<TypeVarId, Ty>)
    ensures
        mapping_view(final(mapping)@) == collect_seq(tys_view(params@), tys_view(args@), bound_vars@, mapping_view(old(mapping)@)),
    decreases params,
{
    proof {
        lemma_tys_view(params@);
        lemma_tys_view(args@);
        assert(tys_view(params@).skip(0) =~= tys_view(params@));
        assert(tys_view(args@).skip(0) =~= tys_view(args@));
    }
    let mut i: usize = 0;
    while i < params.len() && i < args.len()
        invariant
            i <= params@.len(),
            i <= args@.len(),
            tys_view(params@).len() == params@.len(),
            tys_view(args@).len() == args@.len(),
            forall|k: int| 0 <= k < params@.len() ==> #[trigger] tys_view(params@)[k] == ty_view(params@[k]),
            forall|k: int| 0 <= k < args@.len() ==> #[trigger] tys_view(args@)[k] == ty_view(args@[k]),
            collect_seq(tys_view(params@).skip(i as int), tys_view(args@).skip(i as int), bound_vars@, mapping_view(mapping@))
                == collect_seq(tys_view(params@), tys_view(args@), bound_vars@, mapping_view(old(mapping)@)),
        decreases params@.len() - i,
    {
        assert(decreases_to!(params => params@[i as int]));
        let ghost before = mapping_view(mapping@);
        collect_var_mapping(&params[i], &args[i], bound_vars, mapping);
        proof {
            let ps = tys_view(params@).skip(i as int);
            let xs = tys_view(args@).skip(i as int);
            assert(ps.drop_first() =~= tys_view(params@).skip(i + 1));
            assert(xs.drop_first() =~= tys_view(args@).skip(i + 1));
            assert(ps[0] == params@[i as int]@);
            assert(xs[0] == args@[i as int]@);
        }
        i = i + 1;
    }
    proof {
        let ps = tys_view(params@).skip(i as int);
        let xs = tys_view(args@).skip(i as int);
        assert(ps.len() == 0 || xs.len() == 0);
    }
}

/// A type with the mapped variables replaced.
fn apply_type_mapping(ty: &Ty, mapping: &AssocMap<TypeVarId, Ty>) -> (r: Ty)
    ensures
        r@ == mapped(ty@, mapping_view(mapping@)),
    decreases ty,
{
    match ty {
        Ty::Var(v) => match mapping.get(v) {
            Some(t) => t.copy(),
            None => ty.copy(),
        },
        Ty::Const(_) | Ty::Never | Ty::Cap(_) => ty.copy(),
        Ty::Arrow(params, ret, eff) => Ty::arrow_eff(apply_type_mappings(params, mapping), apply_type_mapping(ret, mapping), *eff),
        Ty::Tuple(tys) => Ty::Tuple(apply_type_mappings(tys, mapping)),
        Ty::List(t) => Ty::List(Box::new(apply_type_mapping(t, mapping))),
        Ty::Adt { name, args } => Ty::Adt { name: name.clone(), args: apply_type_mappings(args, mapping) },
    }
}

/// Types with the mapped variables replaced.
fn apply_type_mappings(tys: &Vec<Ty>, mapping: &AssocMap<TypeVarId, Ty>) -> (r: Vec<Ty>)
    ensures
        tys_view(r@) == mapped_seq(tys_view(tys@), mapping_view(mapping@)),
    decreases tys,
{
    let mut out: Vec<Ty> = Vec::new();
    let mut i: usize = 0;
    while i < tys.len()
        invariant
            i <= tys@.len(),
            tys_view(out@) == mapped_seq(tys_view(tys@.take(i as int)), mapping_view(mapping@)),
        decreases tys@.len() - i,
    {
        assert(decreases_to!(tys => tys@[i as int]));
        let t = apply_type_mapping(&tys[i], mapping);
        let ghost before = out@;
        out.push(t);
        proof {
            crate::ty::lemma_tys_view_take(tys@, i as int);
            assert(out@.drop_last() =~= before);
            assert(tys_view(tys@.take(i + 1)).drop_last() =~= tys_view(tys@.take(i as int)));
        }
        i = i + 1;
    }
    assert(tys@.take(tys@.len() as int) =~= tys@);
    out
}

// ---------------------------------------------------------------------------
// Prefixes of the binding bounds
// ---------------------------------------------------------------------------

proof fn lemma_exprs_binders_prefix(s: Seq<Expr>, i: int)
    requires
        0 <= i <= s.len(),
    ensures
        exprs_binders(s.take(i)) <= exprs_binders(s),
    decreases s.len() - i,
{
    if i < s.len() {
        assert(s.take(i + 1).drop_last() =~= s.take(i));
        lemma_exprs_binders_prefix(s, i + 1);
    } else {
        assert(s.take(i) =~= s);
    }
}

proof fn lemma_stmts_binders_prefix(s: Seq<Stmt>, i: int)
    requires
        0 <= i <= s.len(),
    ensures
        stmts_binders(s.take(i)) <= stmts_binders(s),
    decreases s.len() - i,
{
    if i < s.len() {
        assert(s.take(i + 1).drop_last() =~= s.take(i));
        lemma_stmts_binders_prefix(s, i + 1);
    } else {
        assert(s.take(i) =~= s);
    }
}

proof fn lemma_arms_binders_prefix(s: Seq<MatchArm>, i: int)
    requires
        0 <= i <= s.len(),
    ensures
        arms_binders(s.take(i)) <= arms_binders(s),
    decreases s.len() - i,
{
    if i < s.len() {
        assert(s.take(i + 1).drop_last() =~= s.take(i));
        lemma_arms_binders_prefix(s, i + 1);
    } else {
        assert(s.take(i) =~= s);
    }
}

proof fn lemma_inits_binders_prefix(s: Seq<FieldInit>, i: int)
    requires
        0 <= i <= s.len(),
    ensures
        inits_binders(s.take(i)) <= inits_binders(s),
    decreases s.len() - i,
{
    if i < s.len() {
        assert(s.take(i + 1).drop_last() =~= s.take(i));
        lemma_inits_binders_prefix(s, i + 1);
    } else {
        assert(s.take(i) =~= s);
    }
}

proof fn lemma_pats_binders_prefix(s: Seq<Pat>, i: int)
    requires
        0 <= i <= s.len(),
    ensures
        pats_binders(s.take(i)) <= pats_binders(s),
    decreases s.len() - i,
{
    if i < s.len() {
        assert(s.take(i + 1).drop_last() =~= s.take(i));
        lemma_pats_binders_prefix(s, i + 1);
    } else {
        assert(s.take(i) =~= s);
    }
}

proof fn lemma_field_pats_binders_prefix(s: Seq<PatField>, i: int)
    requires
        0 <= i <= s.len(),
    ensures
        field_pats_binders(s.take(i)) <= field_pats_binders(s),
    decreases s.len() - i,
{
    if i < s.len() {
        assert(s.take(i + 1).drop_last() =~= s.take(i));
        lemma_field_pats_binders_prefix(s, i + 1);
    } else {
        assert(s.take(i) =~= s);
    }
}

// ---------------------------------------------------------------------------
// Walking a function body
// ---------------------------------------------------------------------------

/// What a walk with room for `budget` bindings keeps: well-formedness, at
/// most `budget` new generations, the errors found before it, the loop
/// flag and the environment.
spec fn walked<'a>(a: MoveChecker<'a>, b: MoveChecker<'a>, budget: nat) -> bool {
    &&& b.wf()
    &&& a.generations() <= b.generations() <= a.generations() + budget
    &&& a.found().len() <= b.found().len()
    &&& b.found().take(a.found().len() as int) == a.found()
    &&& b.looping() == a.looping()
    &&& b.env == a.env
}

/// A walk without room for bindings, from a state that watches nothing,
/// watches nothing and finds nothing.
spec fn quiet<'a>(a: MoveChecker<'a>, b: MoveChecker<'a>, budget: nat) -> bool {
    a.states() == Map::<(Seq<char>, u32), TrackedBinding>::empty() && budget == 0 ==> (b.states()
        == Map::<(Seq<char>, u32), TrackedBinding>::empty() && b.found() == a.found())
}

/// Prefixes of prefixes are prefixes.
proof fn lemma_prefix_trans(a: Seq<MoveError>, b: Seq<MoveError>, c: Seq<MoveError>)
    requires
        a.len() <= b.len() <= c.len(),
        b.take(a.len() as int) == a,
        c.take(b.len() as int) == b,
    ensures
        c.take(a.len() as int) == a,
{
    assert(c.take(a.len() as int) =~= c.take(b.len() as int).take(a.len() as int));
}

/// An empty walk.
proof fn lemma_walked_refl<'a>(a: MoveChecker<'a>)
    requires
        a.wf(),
    ensures
        walked(a, a, 0),
        quiet(a, a, 0),
{
    assert(a.found().take(a.found().len() as int) =~= a.found());
}

/// Walks are transitive.
proof fn lemma_walked_trans<'a>(a: MoveChecker<'a>, b: MoveChecker<'a>, c: MoveChecker<'a>, x: nat, y: nat)
    requires
        walked(a, b, x),
        walked(b, c, y),
        quiet(a, b, x),
        quiet(b, c, y),
    ensures
        walked(a, c, x + y),
        quiet(a, c, x + y),
{
    lemma_prefix_trans(a.found(), b.found(), c.found());
}

/// The result type of a scheme's function type, its bound variables matched
/// against the argument types; a scheme whose type is no function gives its
/// type.
pub open spec fn instantiated_result(scheme: Scheme, arg_tys: Seq<TyM>) -> TyM {
    match scheme.ty@ {
        TyM::Arrow(ps, r, _) => if scheme.type_vars@.len() == 0 {
            *r
        } else {
            mapped(*r, collect_seq(ps, arg_tys, scheme.type_vars@, Map::empty()))
        },
        other => other,
    }
}

/// The name a callee is called by: a variable's name or a joined path.
pub open spec fn callee_name(callee: Expr) -> Option<Seq<char>> {
    match callee {
        Expr::Var(ident) => Some(ident.text@),
        Expr::PathExpr(path) => Some(crate::ast::joined_path(path.segments@)),
        _ => None,
    }
}

impl<'a> MoveChecker<'a> {
    /// The type of the current binding of a name, if any.
    pub closed spec fn binding_ty(&self, name: Seq<char>) -> Option<TyM> {
        if self.ids().contains_key(name) && self.types().contains_key(self.ids()[name]) {
            Some(self.types()[self.ids()[name]]@)
        } else {
            None
        }
    }

    /// The schemes of the named functions.
    pub closed spec fn schemes(&self) -> Map<Seq<char>, Scheme> {
        self.env@
    }

    /// The type an expression is taken to have.
    pub closed spec fn resolved(&self, e: Expr) -> TyM
        decreases e,
    {
        let unit = TyM::Const(TyConst::Unit);
        match e {
            Expr::Var(ident) => match self.binding_ty(ident.text@) {
                Some(t) => t,
                None => unit,
            },
            Expr::Paren { inner, .. } => self.resolved(*inner),
            Expr::PathExpr(path) => if path.segments@.len() == 1 {
                match self.binding_ty(path.segments@[0].text@) {
                    Some(t) => t,
                    None => unit,
                }
            } else {
                unit
            },
            Expr::Call { callee, args, .. } => match callee_name(*callee) {
                None => unit,
                Some(n) => match self.binding_ty(n) {
                    Some(TyM::Arrow(_, r, _)) => *r,
                    Some(_) => unit,
                    None => if self.schemes().contains_key(n) {
                        instantiated_result(self.schemes()[n], self.resolved_seq(args@))
                    } else {
                        unit
                    },
                },
            },
            Expr::If { then_, else_, .. } => match then_.tail {
                Some(tail) => self.resolved(*tail),
                None => match else_ {
                    Some(x) => self.resolved(*x),
                    None => unit,
                },
            },
            Expr::Block(block) => match block.tail {
                Some(tail) => self.resolved(*tail),
                None => unit,
            },
            Expr::Match { arms, .. } => if arms@.len() > 0 {
                self.resolved(arms@[0].body)
            } else {
                unit
            },
            Expr::Tuple { elems, .. } => TyM::Tuple(self.resolved_seq(elems@)),
            _ => unit,
        }
    }

    /// The types expressions are taken to have, in order.
    pub closed spec fn resolved_seq(&self, s: Seq<Expr>) -> Seq<TyM>
        decreases s,
    {
        if s.len() == 0 {
            Seq::empty()
        } else {
            self.resolved_seq(s.drop_last()).push(self.resolved(s.last()))
        }
    }
}

impl<'a> MoveChecker<'a> {
    /// The type an expression is taken to have, for tracking affinity: the
    /// type of a binding, the result type of a call, the type of the first
    /// branch or arm; unit for anything else.
    fn resolve_expr_type(&self, expr: &Expr) -> (r: Ty)
        ensures
            r@ == self.resolved(*expr),
        decreases expr, 2nat,
    {
        match expr {
            Expr::Var(ident) => match self.get_binding_type(ident.text.as_str()) {
                Some(t) => t.copy(),
                None => Ty::unit(),
            },
            Expr::Paren { inner, .. } => self.resolve_expr_type(inner),
            Expr::PathExpr(path) => {
                if path.segments.len() == 1 {
                    match self.get_binding_type(path.segments[0].text.as_str()) {
                        Some(t) => {
                            return t.copy();
                        },
                        None => {},
                    }
                }
                Ty::unit()
            },
            Expr::Call { callee, args, .. } => self.resolve_call_return_type(callee, args),
            Expr::If { then_, else_, .. } => {
                match &then_.tail {
                    Some(tail) => {
                        return self.resolve_expr_type(tail);
                    },
                    None => {},
                }
                match else_ {
                    Some(e) => self.resolve_expr_type(e),
                    None => Ty::unit(),
                }
            },
            Expr::Block(block) => match &block.tail {
                Some(tail) => self.resolve_expr_type(tail),
                None => Ty::unit(),
            },
            Expr::Match { arms, .. } => {
                if arms.len() > 0 {
                    assert(decreases_to!(arms => arms@[0]));
                    self.resolve_expr_type(&arms[0].body)
                } else {
                    Ty::unit()
                }
            },
            Expr::Tuple { elems, .. } => Ty::Tuple(self.resolve_expr_types(elems)),
            _ => Ty::unit(),
        }
    }

    /// The types of expressions, in order.
    fn resolve_expr_types(&self, es: &Vec<Expr>) -> (r: Vec<Ty>)
        ensures
            tys_view(r@) == self.resolved_seq(es@),
        decreases es, 0nat,
    {
        let mut out: Vec<Ty> = Vec::new();
        let mut i: usize = 0;
        while i < es.len()
            invariant
                i <= es@.len(),
                tys_view(out@) == self.resolved_seq(es@.take(i as int)),
            decreases es@.len() - i,
        {
            assert(decreases_to!(es => es@[i as int]));
            let t = self.resolve_expr_type(&es[i]);
            let ghost before = out@;
            out.push(t);
            proof {
                assert(out@.drop_last() =~= before);
                assert(es@.take(i + 1).drop_last() =~= es@.take(i as int));
            }
            i = i + 1;
        }
        assert(es@.take(es@.len() as int) =~= es@);
        out
    }

    /// The result type of a call: from the arrow type of a local binding, or
    /// from the scheme of a named function instantiated at the argument
    /// types; unit otherwise.
    fn resolve_call_return_type(&self, callee: &Expr, args: &Vec<Expr>) -> (r: Ty)
        ensures
            r@ == (match callee_name(*callee) {
                None => TyM::Const(TyConst::Unit),
                Some(n) => match self.binding_ty(n) {
                    Some(TyM::Arrow(_, ret, _)) => *ret,
                    Some(_) => TyM::Const(TyConst::Unit),
                    None => if self.schemes().contains_key(n) {
                        instantiated_result(self.schemes()[n], self.resolved_seq(args@))
                    } else {
                        TyM::Const(TyConst::Unit)
                    },
                },
            }),
        decreases args, 1nat,
    {
        let callee_name = match callee {
            Expr::Var(ident) => ident.text.clone(),
            Expr::PathExpr(path) => join_idents(&path.segments),
            _ => {
                return Ty::unit();
            },
        };
        match self.get_binding_type(callee_name.as_str()) {
            Some(t) => {
                return match t {
                    Ty::Arrow(_, ret, _) => (**ret).copy(),
                    _ => Ty::unit(),
                };
            },
            None => {},
        }
        match self.env.get(&callee_name) {
            Some(scheme) => {
                let arg_types = self.resolve_expr_types(args);
                instantiate_return_type(scheme, &arg_types)
            },
            None => Ty::unit(),
        }
    }

}

/// The result type of a scheme's function type, with its bound variables
/// instantiated by matching the parameter types against the argument types.
fn instantiate_return_type(scheme: &Scheme, arg_types: &Vec<Ty>) -> (r: Ty)
    ensures
        r@ == instantiated_result(*scheme, tys_view(arg_types@)),
        !(scheme.ty@ is Arrow) ==> r@ == scheme.ty@,
        scheme.ty@ is Arrow && scheme.type_vars@.len() == 0 ==> r@ == *scheme.ty@->Arrow_1,
        scheme.ty@ is Arrow && scheme.type_vars@.len() > 0 ==> r@ == mapped(
            *scheme.ty@->Arrow_1,
            collect_seq(scheme.ty@->Arrow_0, tys_view(arg_types@), scheme.type_vars@, Map::empty()),
        ),
{
    let (params, ret) = match &scheme.ty {
        Ty::Arrow(params, ret, _) => (params, ret),
        other => {
            return other.copy();
        },
    };
    if scheme.type_vars.len() == 0 {
        return (**ret).copy();
    }
    let mut mapping: AssocMap<TypeVarId, Ty> = AssocMap::new();
    assert(mapping_view(mapping@) =~= Map::<u32, TyM>::empty());
    collect_var_mappings(params, arg_types, &scheme.type_vars, &mut mapping);
    apply_type_mapping(ret, &mapping)
}

impl<'a> MoveChecker<'a> {
    /// Checks an expression in evaluation order.
    #[verifier::rlimit(60)]
    #[verifier::spinoff_prover]
    fn check_expr(&mut self, expr: &Expr)
        requires
            old(self).wf(),
            old(self).generations() + expr_binders(*expr) <= u32::MAX,
        ensures
            walked(*old(self), *final(self), expr_binders(*expr)),
            quiet(*old(self), *final(self), expr_binders(*expr)),
            *expr is Var ==> final(self).ids() == old(self).ids() && use_outcome(
                old(self).ids(),
                old(self).states(),
                old(self).looping(),
                old(self).found(),
                expr->Var_0.text@,
                expr->Var_0.span,
                final(self).states(),
                final(self).found(),
            ),
            *expr is Lit ==> final(self).ids() == old(self).ids() && final(self).states() == old(self).states(),
            use_expr(*expr) ==> final(self).ids() == old(self).ids() && keeps_consumed(old(self).states(), final(self).states())
                && (!old(self).looping() ==> forall|n: Seq<char>| #[trigger] uses_name(*expr, n) && old(self).ids().contains_key(n)
                && old(self).states().contains_key(old(self).ids()[n]) ==> consumed_in(final(self).states(), old(self).ids()[n])),
            *expr is Match && *expr->Match_scrutinee is Lit && expr->Match_arms@.len() > 0 && (forall|j: int| 0 <= j < expr->Match_arms@.len()
                ==> plain_arm(#[trigger] expr->Match_arms@[j])) && !old(self).looping() ==> final(self).ids() == old(self).ids() && forall|j: int, n: Seq<char>| 0 <= j < expr->Match_arms@.len()
                && #[trigger] uses_name(expr->Match_arms@[j].body, n) && old(self).ids().contains_key(n) && old(self).states().contains_key(
                old(self).ids()[n],
            ) ==> consumed_in(final(self).states(), old(self).ids()[n]),
        decreases expr,
    {
        let ghost start = *self;
        proof {
            lemma_walked_refl(start);
        }
        match expr {
            Expr::Lit(_, _) => {},
            Expr::Var(ident) => {
                if self.is_affine(ident.text.as_str()) {
                    self.use_binding(ident.text.as_str(), ident.span);
                    proof {
                        assert(self.found().take(start.found().len() as int) =~= start.found());
                    }
                }
                proof {
                    assert(walked(start, *self, expr_binders(*expr)));
                    assert(keeps_consumed(start.states(), self.states()) && (!start.looping() && start.ids().contains_key(ident.text@)
                        && start.states().contains_key(start.ids()[ident.text@]) ==> consumed_in(self.states(), start.ids()[ident.text@]))) by {
                        lemma_use_keeps(start.ids(), start.states(), start.looping(), start.found(), ident.text@, ident.span, self.states(), self.found());
                    }
                }
            },
            Expr::Paren { inner, .. } => {
                self.check_expr(inner);
            },
            Expr::Unary { expr: inner, .. } => {
                self.check_expr(inner);
            },
            Expr::Binary { lhs, rhs, .. } => {
                self.check_expr(lhs);
                let ghost mid = *self;
                self.check_expr(rhs);
                proof {
                    lemma_walked_trans(start, mid, *self, expr_binders(**lhs), expr_binders(**rhs));
                }
            },
            Expr::Call { callee, args, .. } => {
                self.check_expr(callee);
                let ghost mid = *self;
                self.check_exprs(args);
                proof {
                    lemma_walked_trans(start, mid, *self, expr_binders(**callee), exprs_binders(args@));
                    if use_expr(*expr) {
                        assert(atom(**callee));
                        assert forall|k: int| 0 <= k < args@.len() implies atom(#[trigger] args@[k]) by {}
                        lemma_keeps_trans(start.states(), mid.states(), self.states());
                        if !start.looping() {
                            assert forall|n: Seq<char>| #[trigger] uses_name(*expr, n) && start.ids().contains_key(n)
                                && start.states().contains_key(start.ids()[n]) implies consumed_in(self.states(), start.ids()[n]) by {
                                if is_var_named(**callee, n) {
                                    assert(uses_name(**callee, n));
                                    assert(consumed_in(mid.states(), start.ids()[n]));
                                } else {
                                    let k = choose|k: int| 0 <= k < args@.len() && is_var_named(#[trigger] args@[k], n);
                                    assert(mid.states().contains_key(start.ids()[n]));
                                }
                            }
                        }
                    }
                }
            },
            Expr::Block(block) => {
                self.check_block(block);
            },
            Expr::If { cond, then_, else_, .. } => {
                self.check_expr(cond);
                let ghost mid = *self;
                let base = self.snapshot();
                self.check_block(then_);
                let then_state = self.snapshot();
                let ghost after_then = *self;
                self.restore(copy_tracked(&base));
                let ghost mid2 = *self;
                proof {
                    lemma_walked_refl(mid2);
                }
                match else_ {
                    Some(else_expr) => {
                        self.check_expr(else_expr);
                    },
                    None => {},
                }
                let ghost after_else = *self;
                let else_state = self.snapshot();
                self.restore(copy_tracked(&base));
                let mut branches: Vec<AssocMap<BindingId, TrackedBinding>> = Vec::new();
                branches.push(then_state);
                branches.push(else_state);
                self.pessimistic_join(&base, &branches);
                proof {
                    let eb: nat = match else_ {
                        Some(x) => expr_binders(**x),
                        None => 0,
                    };
                    assert(walked(mid2, after_else, eb));
                    lemma_walked_trans(start, mid, after_then, expr_binders(**cond), block_binders(*then_));
                    lemma_prefix_trans(start.found(), after_then.found(), after_else.found());
                    if start.states() == Map::<(Seq<char>, u32), TrackedBinding>::empty() && expr_binders(*expr) == 0 {
                        assert(mid.states() == Map::<(Seq<char>, u32), TrackedBinding>::empty());
                        assert(mid2.states() == Map::<(Seq<char>, u32), TrackedBinding>::empty());
                        assert(after_else.found() == mid2.found());
                        assert(self.states() =~= Map::<(Seq<char>, u32), TrackedBinding>::empty());
                    }
                }
            },
            Expr::While { cond, body, .. } => {
                self.check_expr(cond);
                let ghost mid = *self;
                let was_in_loop = self.in_loop;
                self.in_loop = true;
                let ghost mid2 = *self;
                self.check_block(body);
                let ghost after = *self;
                self.in_loop = was_in_loop;
                proof {
                    lemma_prefix_trans(start.found(), mid.found(), after.found());
                }
            },
            Expr::Match { scrutinee, arms, .. } => {
                let scrut_ty = self.resolve_expr_type(scrutinee);
                self.check_expr(scrutinee);
                let ghost mid = *self;
                let base = self.snapshot();
                let arm_states = self.check_arms(arms, &scrut_ty, &base);
                let ghost after = *self;
                self.restore(copy_tracked(&base));
                if arm_states.len() > 0 {
                    self.pessimistic_join(&base, &arm_states);
                }
                proof {
                    if **scrutinee is Lit && arms@.len() > 0 && (forall|j: int| 0 <= j < arms@.len() ==> plain_arm(#[trigger] arms@[j]))
                        && !start.looping() {
                        assert forall|j: int, n: Seq<char>| 0 <= j < arms@.len() && #[trigger] uses_name(arms@[j].body, n)
                            && start.ids().contains_key(n) && start.states().contains_key(start.ids()[n]) implies consumed_in(
                            self.states(),
                            start.ids()[n],
                        ) by {
                            let id = start.ids()[n];
                            assert(mid.ids() == start.ids());
                            assert(maps_view(arm_states@)[j] == arm_states@[j]@);
                            lemma_last_consumed_found(id, maps_view(arm_states@), j);
                        }
                    }
                    lemma_prefix_trans(start.found(), mid.found(), after.found());
                    if start.states() == Map::<(Seq<char>, u32), TrackedBinding>::empty() && expr_binders(*expr) == 0 {
                        assert(base@ == Map::<(Seq<char>, u32), TrackedBinding>::empty());
                        assert(self.states() =~= Map::<(Seq<char>, u32), TrackedBinding>::empty());
                    }
                }
            },
            Expr::Tuple { elems, .. } => {
                self.check_exprs(elems);
            },
            Expr::StructExpr { fields, .. } => {
                self.check_inits(fields);
            },
            Expr::PathExpr(path) => {
                if path.segments.len() == 1 {
                    let name = path.segments[0].text.as_str();
                    if self.is_affine(name) {
                        self.use_binding(name, path.span);
                        proof {
                            assert(self.found().take(start.found().len() as int) =~= start.found());
                        }
                    }
                }
            },
        }
    }

    /// Checks expressions in order.
    fn check_exprs(&mut self, es: &Vec<Expr>)
        requires
            old(self).wf(),
            old(self).generations() + exprs_binders(es@) <= u32::MAX,
        ensures
            walked(*old(self), *final(self), exprs_binders(es@)),
            quiet(*old(self), *final(self), exprs_binders(es@)),
            (forall|k: int| 0 <= k < es@.len() ==> atom(#[trigger] es@[k])) ==> final(self).ids() == old(self).ids()
                && keeps_consumed(old(self).states(), final(self).states()) && (!old(self).looping() ==> forall|
                k: int,
                n: Seq<char>,
            | 0 <= k < es@.len() && #[trigger] is_var_named(es@[k], n) && old(self).ids().contains_key(n)
                && old(self).states().contains_key(old(self).ids()[n]) ==> consumed_in(final(self).states(), old(self).ids()[n])),
        decreases es,
    {
        let ghost start = *self;
        proof {
            lemma_walked_refl(start);
            assert(es@.take(0) =~= Seq::<Expr>::empty());
        }
        let mut i: usize = 0;
        while i < es.len()
            invariant
                i <= es@.len(),
                start.wf(),
                start.generations() + exprs_binders(es@) <= u32::MAX,
                walked(start, *self, exprs_binders(es@.take(i as int))),
                quiet(start, *self, exprs_binders(es@.take(i as int))),
                (forall|k: int| 0 <= k < es@.len() ==> atom(#[trigger] es@[k])) ==> self.ids() == start.ids()
                    && keeps_consumed(start.states(), self.states()) && (!start.looping() ==> forall|k: int, n: Seq<char>|
                    0 <= k < i && #[trigger] is_var_named(es@[k], n) && start.ids().contains_key(n)
                    && start.states().contains_key(start.ids()[n]) ==> consumed_in(self.states(), start.ids()[n])),
            decreases es@.len() - i,
        {
            assert(decreases_to!(es => es@[i as int]));
            proof {
                assert(es@.take(i + 1).drop_last() =~= es@.take(i as int));
                lemma_exprs_binders_prefix(es@, i + 1);
            }
            let ghost mid = *self;
            self.check_expr(&es[i]);
            proof {
                lemma_walked_trans(start, mid, *self, exprs_binders(es@.take(i as int)), expr_binders(es@[i as int]));
                if forall|k: int| 0 <= k < es@.len() ==> atom(#[trigger] es@[k]) {
                    assert(atom(es@[i as int]));
                    lemma_keeps_trans(start.states(), mid.states(), self.states());
                    if !start.looping() {
                        assert forall|k: int, n: Seq<char>| 0 <= k < i + 1 && #[trigger] is_var_named(es@[k], n)
                            && start.ids().contains_key(n) && start.states().contains_key(start.ids()[n]) implies consumed_in(
                            self.states(),
                            start.ids()[n],
                        ) by {
                            if k < i {
                                assert(consumed_in(mid.states(), start.ids()[n]));
                            } else {
                                assert(uses_name(es@[i as int], n));
                                assert(mid.states().contains_key(start.ids()[n]));
                            }
                        }
                    }
                }
            }
            i = i + 1;
        }
        assert(es@.take(es@.len() as int) =~= es@);
    }

    /// Checks the values of struct fields in order.
    fn check_inits(&mut self, fields: &Vec<FieldInit>)
        requires
            old(self).wf(),
            old(self).generations() + inits_binders(fields@) <= u32::MAX,
        ensures
            walked(*old(self), *final(self), inits_binders(fields@)),
            quiet(*old(self), *final(self), inits_binders(fields@)),
        decreases fields,
    {
        let ghost start = *self;
        proof {
            lemma_walked_refl(start);
            assert(fields@.take(0) =~= Seq::<FieldInit>::empty());
        }
        let mut i: usize = 0;
        while i < fields.len()
            invariant
                i <= fields@.len(),
                start.wf(),
                start.generations() + inits_binders(fields@) <= u32::MAX,
                walked(start, *self, inits_binders(fields@.take(i as int))),
                quiet(start, *self, inits_binders(fields@.take(i as int))),
            decreases fields@.len() - i,
        {
            assert(decreases_to!(fields => fields@[i as int].value));
            proof {
                assert(fields@.take(i + 1).drop_last() =~= fields@.take(i as int));
                lemma_inits_binders_prefix(fields@, i + 1);
            }
            let ghost mid = *self;
            self.check_expr(&fields[i].value);
            proof {
                lemma_walked_trans(start, mid, *self, inits_binders(fields@.take(i as int)), expr_binders(fields@[i as int].value));
            }
            i = i + 1;
        }
        assert(fields@.take(fields@.len() as int) =~= fields@);
    }

    /// Checks each arm from the same starting states, with the arm's pattern
    /// bound at the scrutinee's type; gives the states after each arm.
    fn check_arms(&mut self, arms: &Vec<MatchArm>, scrut_ty: &Ty, base: &AssocMap<BindingId, TrackedBinding>) -> (r: Vec<
        AssocMap<BindingId, TrackedBinding>,
    >)
        requires
            old(self).wf(),
            old(self).generations() + arms_binders(arms@) <= u32::MAX,
            base@ == old(self).states(),
        ensures
            walked(*old(self), *final(self), arms_binders(arms@)),
            old(self).states() == Map::<(Seq<char>, u32), TrackedBinding>::empty() && arms_binders(arms@) == 0 ==> final(self).found() == old(self).found()
                && forall|j: int| 0 <= j < r@.len() ==> (#[trigger] r@[j])@ == Map::<(Seq<char>, u32), TrackedBinding>::empty(),
            r@.len() == arms@.len(),
            (forall|j: int| 0 <= j < arms@.len() ==> plain_arm(#[trigger] arms@[j])) && !old(self).looping() ==> final(self).ids() == old(self).ids() && forall|
                j: int,
                n: Seq<char>,
            | 0 <= j < arms@.len() && #[trigger] uses_name(arms@[j].body, n) && old(self).ids().contains_key(n) && base@.contains_key(
                old(self).ids()[n],
            ) ==> consumed_in(r@[j]@, old(self).ids()[n]),
        decreases arms,
    {
        let ghost start = *self;
        proof {
            lemma_walked_refl(start);
            assert(arms@.take(0) =~= Seq::<MatchArm>::empty());
        }
        let mut states: Vec<AssocMap<BindingId, TrackedBinding>> = Vec::new();
        let mut i: usize = 0;
        while i < arms.len()
            invariant
                i <= arms@.len(),
                start.wf(),
                start.generations() + arms_binders(arms@) <= u32::MAX,
                base@ == start.states(),
                walked(start, *self, arms_binders(arms@.take(i as int))),
                states@.len() == i,
                start.states() == Map::<(Seq<char>, u32), TrackedBinding>::empty() && arms_binders(arms@) == 0 ==> self.found() == start.found()
                    && forall|j: int| 0 <= j < states@.len() ==> (#[trigger] states@[j])@ == Map::<(Seq<char>, u32), TrackedBinding>::empty(),
                (forall|j: int| 0 <= j < arms@.len() ==> plain_arm(#[trigger] arms@[j])) && !start.looping() ==> self.ids()
                    == start.ids() && forall|j: int, n: Seq<char>| 0 <= j < i && #[trigger] uses_name(arms@[j].body, n)
                    && start.ids().contains_key(n) && base@.contains_key(start.ids()[n]) ==> consumed_in(states@[j]@, start.ids()[n]),
            decreases arms@.len() - i,
        {
            assert(decreases_to!(arms => arms@[i as int].body));
            proof {
                assert(arms@.take(i + 1).drop_last() =~= arms@.take(i as int));
                lemma_arms_binders_prefix(arms@, i + 1);
            }
            let ghost mid = *self;
            self.restore(copy_tracked(base));
            let ghost mid2 = *self;
            self.introduce_pattern_bindings(&arms[i].pat, scrut_ty);
            let ghost mid3 = *self;
            self.check_expr(&arms[i].body);
            let ghost before = states@;
            states.push(self.snapshot());
            proof {
                lemma_prefix_trans(start.found(), mid2.found(), mid3.found());
                lemma_prefix_trans(start.found(), mid3.found(), self.found());
                if (forall|j: int| 0 <= j < arms@.len() ==> plain_arm(#[trigger] arms@[j])) && !start.looping() {
                    assert(plain_arm(arms@[i as int]));
                    assert forall|j: int, n: Seq<char>| 0 <= j < i + 1 && #[trigger] uses_name(arms@[j].body, n)
                        && start.ids().contains_key(n) && base@.contains_key(start.ids()[n]) implies consumed_in(
                        states@[j]@,
                        start.ids()[n],
                    ) by {
                        if j < i {
                            assert(states@[j] == before[j]);
                        } else {
                            assert(mid2.states() == base@);
                            assert(mid3.states() == base@);
                            assert(mid3.ids() == start.ids());
                        }
                    }
                }
                if start.states() == Map::<(Seq<char>, u32), TrackedBinding>::empty() && arms_binders(arms@) == 0 {
                    assert(arms_binders(arms@.take(i + 1)) == 0);
                    assert(mid2.states() == Map::<(Seq<char>, u32), TrackedBinding>::empty());
                    assert forall|j: int| 0 <= j < states@.len() implies (#[trigger] states@[j])@ == Map::<(Seq<char>, u32), TrackedBinding>::empty() by {
                        if j < i {
                            assert(states@[j] == before[j]);
                        }
                    }
                }
            }
            i = i + 1;
        }
        assert(arms@.take(arms@.len() as int) =~= arms@);
        states
    }

    /// Checks a block: its statements in order, then its tail.
    fn check_block(&mut self, block: &Block)
        requires
            old(self).wf(),
            old(self).generations() + block_binders(*block) <= u32::MAX,
        ensures
            walked(*old(self), *final(self), block_binders(*block)),
            quiet(*old(self), *final(self), block_binders(*block)),
            starts_with_two_uses(*block) && !old(self).looping() && old(self).ids().contains_key(
                use_name(block.stmts@[0])->Some_0.text@,
            ) && old(self).states().contains_key(old(self).ids()[use_name(block.stmts@[0])->Some_0.text@])
                && old(self).states()[old(self).ids()[use_name(block.stmts@[0])->Some_0.text@]].state == MoveState::Alive
                ==> final(self).found().len() > old(self).found().len() && (final(self).found()[old(self).found().len() as int] matches MoveError::AlreadyUsed {
                name: n,
                used_at,
                previous_use,
            } && n@ == use_name(block.stmts@[0])->Some_0.text@ && used_at == use_name(block.stmts@[1])->Some_0.span
                && previous_use == use_name(block.stmts@[0])->Some_0.span),
            block.stmts@.len() >= 2 && use_name(block.stmts@[1]) is Some && match_uses(
                block.stmts@[0],
                use_name(block.stmts@[1])->Some_0.text@,
            ) && !old(self).looping() && old(self).ids().contains_key(use_name(block.stmts@[1])->Some_0.text@)
                && old(self).states().contains_key(old(self).ids()[use_name(block.stmts@[1])->Some_0.text@])
                ==> final(self).found().len() > old(self).found().len(),
        decreases block,
    {
        let ghost start = *self;
        let ghost mut after1 = *self;
        let ghost mut after2 = *self;
        proof {
            lemma_walked_refl(start);
            assert(block.stmts@.take(0) =~= Seq::<Stmt>::empty());
        }
        let mut i: usize = 0;
        while i < block.stmts.len()
            invariant
                i <= block.stmts@.len(),
                start.wf(),
                start.generations() + block_binders(*block) <= u32::MAX,
                walked(start, *self, stmts_binders(block.stmts@.take(i as int))),
                quiet(start, *self, stmts_binders(block.stmts@.take(i as int))),
                start == *old(self),
                i == 0 ==> *self == start,
                i == 1 ==> *self == after1,
                i >= 1 && use_name(block.stmts@[0]) is Some ==> after1.ids() == start.ids() && after1.looping()
                    == start.looping() && use_outcome(
                    start.ids(),
                    start.states(),
                    start.looping(),
                    start.found(),
                    use_name(block.stmts@[0])->Some_0.text@,
                    use_name(block.stmts@[0])->Some_0.span,
                    after1.states(),
                    after1.found(),
                ),
                i >= 2 && use_name(block.stmts@[1]) is Some ==> use_outcome(
                    after1.ids(),
                    after1.states(),
                    after1.looping(),
                    after1.found(),
                    use_name(block.stmts@[1])->Some_0.text@,
                    use_name(block.stmts@[1])->Some_0.span,
                    after2.states(),
                    after2.found(),
                ),
                i >= 2 ==> after2.found().len() <= self.found().len() && self.found().take(after2.found().len() as int)
                    == after2.found(),
                i >= 1 ==> after1.found().len() >= start.found().len() && after1.looping() == start.looping(),
                i >= 1 && !start.looping() ==> forall|n: Seq<char>| #[trigger] match_uses(block.stmts@[0], n)
                    && start.ids().contains_key(n) && start.states().contains_key(start.ids()[n]) ==> after1.ids() == start.ids()
                    && consumed_in(after1.states(), start.ids()[n]),
            decreases block.stmts@.len() - i,
        {
            assert(decreases_to!(block => block.stmts@[i as int]));
            proof {
                assert(block.stmts@.take(i + 1).drop_last() =~= block.stmts@.take(i as int));
                lemma_stmts_binders_prefix(block.stmts@, i + 1);
            }
            let ghost mid = *self;
            self.check_stmt(&block.stmts[i]);
            proof {
                lemma_walked_trans(start, mid, *self, stmts_binders(block.stmts@.take(i as int)), stmt_binders(block.stmts@[i as int]));
                if i == 0 {
                    after1 = *self;
                }
                if i == 1 {
                    after2 = *self;
                    assert(self.found().take(after2.found().len() as int) =~= after2.found());
                }
                if i >= 2 {
                    lemma_prefix_trans(after2.found(), mid.found(), self.found());
                }
            }
            i = i + 1;
        }
        assert(block.stmts@.take(block.stmts@.len() as int) =~= block.stmts@);
        let ghost mid = *self;
        match &block.tail {
            Some(tail) => {
                self.check_expr(tail);
                proof {
                    lemma_walked_trans(start, mid, *self, stmts_binders(block.stmts@), expr_binders(**tail));
                    if block.stmts@.len() >= 2 {
                        lemma_prefix_trans(after2.found(), mid.found(), self.found());
                    }
                }
            },
            None => {},
        }
        proof {
            if starts_with_two_uses(*block) && !start.looping() && start.ids().contains_key(
                use_name(block.stmts@[0])->Some_0.text@,
            ) && start.states().contains_key(start.ids()[use_name(block.stmts@[0])->Some_0.text@])
                && start.states()[start.ids()[use_name(block.stmts@[0])->Some_0.text@]].state == MoveState::Alive {
                let x = use_name(block.stmts@[0])->Some_0;
                let y = use_name(block.stmts@[1])->Some_0;
                lemma_second_use_is_an_error(
                    start.ids(),
                    start.states(),
                    start.found(),
                    x.text@,
                    x.span,
                    y.span,
                    after1.states(),
                    after1.found(),
                    after2.states(),
                    after2.found(),
                );
                assert(self.found()[start.found().len() as int] == self.found().take(after2.found().len() as int)[start.found().len() as int]);
            }
            if block.stmts@.len() >= 2 && use_name(block.stmts@[1]) is Some && match_uses(
                block.stmts@[0],
                use_name(block.stmts@[1])->Some_0.text@,
            ) && !start.looping() && start.ids().contains_key(use_name(block.stmts@[1])->Some_0.text@)
                && start.states().contains_key(start.ids()[use_name(block.stmts@[1])->Some_0.text@]) {
                let n = use_name(block.stmts@[1])->Some_0.text@;
                assert(consumed_in(after1.states(), start.ids()[n]));
                assert(after2.found().len() == after1.found().len() + 1);
            }
        }
    }

    /// Checks a statement.
    fn check_stmt(&mut self, stmt: &Stmt)
        requires
            old(self).wf(),
            old(self).generations() + stmt_binders(*stmt) <= u32::MAX,
        ensures
            walked(*old(self), *final(self), stmt_binders(*stmt)),
            quiet(*old(self), *final(self), stmt_binders(*stmt)),
            use_name(*stmt) is Some ==> final(self).ids() == old(self).ids() && use_outcome(
                old(self).ids(),
                old(self).states(),
                old(self).looping(),
                old(self).found(),
                use_name(*stmt)->Some_0.text@,
                use_name(*stmt)->Some_0.span,
                final(self).states(),
                final(self).found(),
            ),
            !old(self).looping() ==> forall|n: Seq<char>| #[trigger] match_uses(*stmt, n) && old(self).ids().contains_key(n)
                && old(self).states().contains_key(old(self).ids()[n]) ==> final(self).ids() == old(self).ids() && consumed_in(
                final(self).states(),
                old(self).ids()[n],
            ),
        decreases stmt,
    {
        let ghost start = *self;
        match stmt {
            Stmt::Let { pat, value, .. } => {
                let rhs_ty = self.resolve_expr_type(value);
                self.check_expr(value);
                let ghost mid = *self;
                self.introduce_pattern_bindings(pat, &rhs_ty);
                proof {
                    lemma_walked_trans(start, mid, *self, expr_binders(*value), pat_binders(*pat));
                }
            },
            Stmt::Assign { target, value, .. } => {
                let rhs_ty = self.resolve_expr_type(value);
                self.check_expr(value);
                let ghost mid = *self;
                if rhs_ty.kind() == Kind::Affine {
                    self.introduce_binding(target.text.as_str(), &rhs_ty, target.span);
                }
                proof {
                    lemma_walked_refl(mid);
                    assert(self.found().take(mid.found().len() as int) =~= self.found());
                    lemma_prefix_trans(start.found(), mid.found(), self.found());
                }
            },
            Stmt::Expr { expr, .. } => {
                self.check_expr(expr);
                proof {
                    if !start.looping() {
                        assert forall|n: Seq<char>| #[trigger] match_uses(*stmt, n) && start.ids().contains_key(n)
                            && start.states().contains_key(start.ids()[n]) implies self.ids() == start.ids() && consumed_in(
                            self.states(),
                            start.ids()[n],
                        ) by {
                            let j = choose|j: int| 0 <= j < expr->Match_arms@.len() && uses_name(#[trigger] expr->Match_arms@[j].body, n);
                            assert(uses_name(expr->Match_arms@[j].body, n));
                        }
                    }
                }
            },
            Stmt::Return { value, .. } => {
                match value {
                    Some(v) => {
                        self.check_expr(v);
                    },
                    None => {
                        proof {
                            lemma_walked_refl(start);
                        }
                    },
                }
            },
        }
    }

    /// Binds the names of a pattern at the given type: the parts of a tuple
    /// pattern at the parts of a tuple type; everything else at unit.
    fn introduce_pattern_bindings(&mut self, pat: &Pat, ty: &Ty)
        requires
            old(self).wf(),
            old(self).generations() + pat_binders(*pat) <= u32::MAX,
        ensures
            walked(*old(self), *final(self), pat_binders(*pat)),
            quiet(*old(self), *final(self), pat_binders(*pat)),
            final(self).found() == old(self).found(),
            (*pat is Wildcard || *pat is Literal) ==> final(self).ids() == old(self).ids() && final(self).states()
                == old(self).states(),
        decreases pat,
    {
        let ghost start = *self;
        proof {
            lemma_walked_refl(start);
        }
        match pat {
            Pat::Ident(ident) => {
                self.introduce_binding(ident.text.as_str(), ty, ident.span);
            },
            Pat::Wildcard(_) | Pat::Literal(_, _) => {},
            Pat::Tuple(pats, _) => {
                match ty {
                    Ty::Tuple(tys) => {
                        self.introduce_pats(pats, Some(tys));
                    },
                    _ => {
                        self.introduce_pats(pats, None);
                    },
                }
            },
            Pat::Variant { fields, .. } => {
                self.introduce_pats(fields, None);
            },
            Pat::Struct { fields, .. } => {
                self.introduce_field_pats(fields);
            },
        }
    }

    /// Binds the names of patterns in order, each at the type in the same
    /// place when types are given, as far as both go, and at unit otherwise.
    fn introduce_pats(&mut self, pats: &Vec<Pat>, tys: Option<&Vec<Ty>>)
        requires
            old(self).wf(),
            old(self).generations() + pats_binders(pats@) <= u32::MAX,
        ensures
            walked(*old(self), *final(self), pats_binders(pats@)),
            quiet(*old(self), *final(self), pats_binders(pats@)),
            final(self).found() == old(self).found(),
        decreases pats,
    {
        let ghost start = *self;
        proof {
            lemma_walked_refl(start);
            assert(pats@.take(0) =~= Seq::<Pat>::empty());
        }
        let n = match tys {
            Some(ts) => if ts.len() < pats.len() {
                ts.len()
            } else {
                pats.len()
            },
            None => pats.len(),
        };
        let unit = Ty::unit();
        let mut i: usize = 0;
        while i < n
            invariant
                n <= pats@.len(),
                tys matches Some(ts) ==> n <= ts@.len(),
                i <= n,
                start.wf(),
                start.generations() + pats_binders(pats@) <= u32::MAX,
                walked(start, *self, pats_binders(pats@.take(i as int))),
                quiet(start, *self, pats_binders(pats@.take(i as int))),
                self.found() == start.found(),
            decreases n - i,
        {
            assert(decreases_to!(pats => pats@[i as int]));
            proof {
                assert(pats@.take(i + 1).drop_last() =~= pats@.take(i as int));
                lemma_pats_binders_prefix(pats@, i + 1);
            }
            let ghost mid = *self;
            match tys {
                Some(ts) => {
                    self.introduce_pattern_bindings(&pats[i], &ts[i]);
                },
                None => {
                    self.introduce_pattern_bindings(&pats[i], &unit);
                },
            }
            proof {
                lemma_walked_trans(start, mid, *self, pats_binders(pats@.take(i as int)), pat_binders(pats@[i as int]));
            }
            i = i + 1;
        }
        proof {
            lemma_pats_binders_prefix(pats@, n as int);
            if start.states() == Map::<(Seq<char>, u32), TrackedBinding>::empty() && pats_binders(pats@) == 0 {
                assert(pats_binders(pats@.take(n as int)) == 0);
            }
        }
    }

    /// Binds the names of the patterns of struct fields, each at unit.
    fn introduce_field_pats(&mut self, fields: &Vec<PatField>)
        requires
            old(self).wf(),
            old(self).generations() + field_pats_binders(fields@) <= u32::MAX,
        ensures
            walked(*old(self), *final(self), field_pats_binders(fields@)),
            quiet(*old(self), *final(self), field_pats_binders(fields@)),
            final(self).found() == old(self).found(),
        decreases fields,
    {
        let ghost start = *self;
        proof {
            lemma_walked_refl(start);
            assert(fields@.take(0) =~= Seq::<PatField>::empty());
        }
        let unit = Ty::unit();
        let mut i: usize = 0;
        while i < fields.len()
            invariant
                i <= fields@.len(),
                start.wf(),
                start.generations() + field_pats_binders(fields@) <= u32::MAX,
                walked(start, *self, field_pats_binders(fields@.take(i as int))),
                quiet(start, *self, field_pats_binders(fields@.take(i as int))),
                self.found() == start.found(),
            decreases fields@.len() - i,
        {
            proof {
                assert(fields@.take(i + 1).drop_last() =~= fields@.take(i as int));
                lemma_field_pats_binders_prefix(fields@, i + 1);
            }
            let ghost mid = *self;
            self.introduce_pattern_bindings(&fields[i].pat, &unit);
            proof {
                lemma_walked_trans(start, mid, *self, field_pats_binders(fields@.take(i as int)), pat_binders(fields@[i as int].pat));
            }
            i = i + 1;
        }
        assert(fields@.take(fields@.len() as int) =~= fields@);
    }
}

// ---------------------------------------------------------------------------
// Checking a function body
// ---------------------------------------------------------------------------

/// Checks a function body for misused single-use values, given the names,
/// resolved types and spans of its parameters and the schemes of the named
/// functions; gives the first error found.
///
/// A body that binds no names, of a function without affine parameters,
/// passes.
pub fn check_function_body(params: &[(String, Ty, Span)], body: &Block, env: &AssocMap<String, Scheme>) -> (r: Result<
    (),
    MoveError,
>)
    requires
        params@.len() + block_binders(*body) <= u32::MAX,
    ensures
        (forall|i: int| 0 <= i < params@.len() ==> !affine(#[trigger] params@[i].1@)) && block_binders(*body) == 0
            ==> r is Ok,
        starts_with_two_uses(*body) && (exists|k: int|
            0 <= k < params@.len() && #[trigger] params@[k].0@ == use_name(body.stmts@[0])->Some_0.text@ && affine(
                params@[k].1@,
            ) && forall|j: int| k < j < params@.len() ==> params@[j].0@ != params@[k].0@) ==> (r matches Err(
            MoveError::AlreadyUsed { name, used_at, previous_use },
        ) && name@ == use_name(body.stmts@[0])->Some_0.text@ && used_at == use_name(body.stmts@[1])->Some_0.span
            && previous_use == use_name(body.stmts@[0])->Some_0.span),
        body.stmts@.len() >= 2 && use_name(body.stmts@[1]) is Some && match_uses(
            body.stmts@[0],
            use_name(body.stmts@[1])->Some_0.text@,
        ) && (exists|k: int|
            0 <= k < params@.len() && #[trigger] params@[k].0@ == use_name(body.stmts@[1])->Some_0.text@ && affine(
                params@[k].1@,
            ) && forall|j: int| k < j < params@.len() ==> params@[j].0@ != params@[k].0@) ==> r is Err,
{
    let mut checker = MoveChecker::new(env);
    let mut i: usize = 0;
    while i < params.len()
        invariant
            i <= params@.len(),
            params@.len() + block_binders(*body) <= u32::MAX,
            checker.wf(),
            checker.generations() == i,
            checker.found().len() == 0,
            (forall|j: int| 0 <= j < params@.len() ==> !affine(#[trigger] params@[j].1@)) ==> checker.states() == Map::<(Seq<char>, u32), TrackedBinding>::empty(),
            !checker.looping(),
            forall|n: Seq<char>| #[trigger] checker.ids().contains_key(n) ==> checker.ids()[n].0 == n,
            forall|j: int|
                #![trigger params@[j]]
                0 <= j < i && affine(params@[j].1@) && (forall|j2: int| j < j2 < i ==> params@[j2].0@ != params@[j].0@)
                    ==> checker.ids().contains_key(params@[j].0@) && checker.states().contains_key(checker.ids()[params@[j].0@])
                    && checker.states()[checker.ids()[params@[j].0@]].state == MoveState::Alive,
        decreases params@.len() - i,
    {
        let (name, ty, span) = &params[i];
        let ghost before = checker;
        checker.introduce_binding(name.as_str(), ty, *span);
        proof {
            assert forall|j: int|
                #![trigger params@[j]]
                0 <= j < i + 1 && affine(params@[j].1@) && (forall|j2: int| j < j2 < i + 1 ==> params@[j2].0@ != params@[j].0@)
                    implies checker.ids().contains_key(params@[j].0@) && checker.states().contains_key(checker.ids()[params@[j].0@])
                && checker.states()[checker.ids()[params@[j].0@]].state == MoveState::Alive by {
                if j < i {
                    assert(params@[i as int].0@ != params@[j].0@);
                    assert(before.ids()[params@[j].0@].0 == params@[j].0@);
                }
            }
        }
        i = i + 1;
    }
    proof {
        if starts_with_two_uses(*body) && (exists|k: int|
            0 <= k < params@.len() && #[trigger] params@[k].0@ == use_name(body.stmts@[0])->Some_0.text@ && affine(
                params@[k].1@,
            ) && forall|j: int| k < j < params@.len() ==> params@[j].0@ != params@[k].0@) {
            let k = choose|k: int|
                0 <= k < params@.len() && #[trigger] params@[k].0@ == use_name(body.stmts@[0])->Some_0.text@ && affine(
                    params@[k].1@,
                ) && forall|j: int| k < j < params@.len() ==> params@[j].0@ != params@[k].0@;
            assert(checker.ids().contains_key(params@[k].0@));
        }
        if body.stmts@.len() >= 2 && use_name(body.stmts@[1]) is Some && (exists|k: int|
            0 <= k < params@.len() && #[trigger] params@[k].0@ == use_name(body.stmts@[1])->Some_0.text@ && affine(
                params@[k].1@,
            ) && forall|j: int| k < j < params@.len() ==> params@[j].0@ != params@[k].0@) {
            let k = choose|k: int|
                0 <= k < params@.len() && #[trigger] params@[k].0@ == use_name(body.stmts@[1])->Some_0.text@ && affine(
                    params@[k].1@,
                ) && forall|j: int| k < j < params@.len() ==> params@[j].0@ != params@[k].0@;
            assert(checker.ids().contains_key(params@[k].0@));
        }
    }
    checker.check_block(body);
    if checker.errors.len() > 0 {
        Err(checker.errors.remove(0))
    } else {
        Ok(())
    }
}

} // verus!
