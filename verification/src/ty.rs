//! Inference types, type schemes and constraints.
use vstd::prelude::*;
use crate::ast::Span;
use crate::effects::{CapKind, EffectRow, EffectVarId, cap_type_text, row_text};
use crate::text::{decimal, push_decimal};

verus! {

/// Identifier of a type variable.
#[derive(Clone, Copy, PartialEq, Eq, Structural, Debug, Hash, PartialOrd, Ord)]
pub struct TypeVarId(pub u32);

/// Primitive type constants.
#[derive(Clone, Copy, Debug, PartialEq, Eq, Structural, Hash)]
pub enum TyConst {
    Unit,
    Bool,
    Int,
    Float,
    String,
}

/// Inference types.
#[derive(Debug, PartialEq, Eq)]
pub enum Ty {
    Var(TypeVarId),
    Const(TyConst),
    /// Function type: parameters, result, and the effects of a call.
    Arrow(Vec<Ty>, Box<Ty>, EffectRow),
    /// Fixed-length tuple.
    Tuple(Vec<Ty>),
    /// Homogeneous list.
    List(Box<Ty>),
    /// Algebraic data type with its type arguments.
    Adt { name: String, args: Vec<Ty> },
    /// Capability type.
    Cap(CapKind),
    /// Bottom type of diverging expressions.
    Never,
}

// ---------------------------------------------------------------------------
// The mathematical model of types
// ---------------------------------------------------------------------------

/// What a type stands for: the same tree with sequences and character
/// sequences in place of vectors and strings.
pub enum TyM {
    Var(TypeVarId),
    Const(TyConst),
    Arrow(Seq<TyM>, Box<TyM>, EffectRow),
    Tuple(Seq<TyM>),
    List(Box<TyM>),
    Adt(Seq<char>, Seq<TyM>),
    Cap(CapKind),
    Never,
}

/// The model of a type.
pub open spec fn ty_view(t: Ty) -> TyM
    decreases t,
{
    match t {
        Ty::Var(v) => TyM::Var(v),
        Ty::Const(c) => TyM::Const(c),
        Ty::Arrow(ps, r, e) => TyM::Arrow(tys_view(ps@), Box::new(ty_view(*r)), e),
        Ty::Tuple(xs) => TyM::Tuple(tys_view(xs@)),
        Ty::List(x) => TyM::List(Box::new(ty_view(*x))),
        Ty::Adt { name, args } => TyM::Adt(name@, tys_view(args@)),
        Ty::Cap(k) => TyM::Cap(k),
        Ty::Never => TyM::Never,
    }
}

/// The models of a sequence of types.
pub open spec fn tys_view(s: Seq<Ty>) -> Seq<TyM>
    decreases s,
{
    if s.len() == 0 {
        Seq::empty()
    } else {
        tys_view(s.drop_last()).push(ty_view(s.last()))
    }
}

/// The models of a sequence of types, element by element.
pub proof fn lemma_tys_view(s: Seq<Ty>)
    ensures
        tys_view(s).len() == s.len(),
        forall|i: int| 0 <= i < s.len() ==> #[trigger] tys_view(s)[i] == ty_view(s[i]),
    decreases s.len(),
{
    if s.len() > 0 {
        lemma_tys_view(s.drop_last());
    }
}

/// Models of a prefix and of one more element.
pub proof fn lemma_tys_view_take(s: Seq<Ty>, i: int)
    requires
        0 <= i < s.len(),
    ensures
        tys_view(s.take(i + 1)) == tys_view(s.take(i)).push(ty_view(s[i])),
{
    assert(s.take(i + 1).drop_last() =~= s.take(i));
}

impl View for Ty {
    type V = TyM;

    open spec fn view(&self) -> TyM {
        ty_view(*self)
    }
}

// ---------------------------------------------------------------------------
// Free variables
// ---------------------------------------------------------------------------

/// The type variables that occur in a type.
pub open spec fn ty_vars(t: TyM) -> Set<TypeVarId>
    decreases t,
{
    match t {
        TyM::Var(v) => set![v],
        TyM::Const(_) => Set::empty(),
        TyM::Cap(_) => Set::empty(),
        TyM::Never => Set::empty(),
        TyM::Arrow(ps, r, _) => tys_vars(ps).union(ty_vars(*r)),
        TyM::Tuple(xs) => tys_vars(xs),
        TyM::List(x) => ty_vars(*x),
        TyM::Adt(_, args) => tys_vars(args),
    }
}

/// The type variables that occur in a sequence of types.
pub open spec fn tys_vars(s: Seq<TyM>) -> Set<TypeVarId>
    decreases s,
{
    if s.len() == 0 {
        Set::empty()
    } else {
        tys_vars(s.drop_last()).union(ty_vars(s.last()))
    }
}

/// The effect variables that occur as tails of function types in a type.
pub open spec fn ty_effect_vars(t: TyM) -> Set<EffectVarId>
    decreases t,
{
    match t {
        TyM::Var(_) => Set::empty(),
        TyM::Const(_) => Set::empty(),
        TyM::Cap(_) => Set::empty(),
        TyM::Never => Set::empty(),
        TyM::Arrow(ps, r, e) => {
            let inner = tys_effect_vars(ps).union(ty_effect_vars(*r));
            match e.tail {
                Some(v) => inner.insert(v),
                None => inner,
            }
        },
        TyM::Tuple(xs) => tys_effect_vars(xs),
        TyM::List(x) => ty_effect_vars(*x),
        TyM::Adt(_, args) => tys_effect_vars(args),
    }
}

/// The effect variables that occur in a sequence of types.
pub open spec fn tys_effect_vars(s: Seq<TyM>) -> Set<EffectVarId>
    decreases s,
{
    if s.len() == 0 {
        Set::empty()
    } else {
        tys_effect_vars(s.drop_last()).union(ty_effect_vars(s.last()))
    }
}

/// Appends `v` to `acc` unless it is already there.
pub fn push_unique(acc: &mut Vec<TypeVarId>, v: TypeVarId)
    requires
        old(acc)@.no_duplicates(),
    ensures
        final(acc)@.no_duplicates(),
        final(acc)@.to_set() == old(acc)@.to_set().insert(v),
        old(acc)@.to_set().contains(v) ==> final(acc)@ == old(acc)@,
        !old(acc)@.to_set().contains(v) ==> final(acc)@ == old(acc)@.push(v),
{
    let mut i: usize = 0;
    while i < acc.len()
        invariant
            i <= acc@.len(),
            acc@ == old(acc)@,
            old(acc)@.no_duplicates(),
            forall|j: int| 0 <= j < i ==> acc@[j] != v,
        decreases acc@.len() - i,
    {
        if acc[i] == v {
            proof {
                assert(acc@.to_set().contains(v));
                assert(acc@.to_set().insert(v) =~= acc@.to_set());
            }
            return;
        }
        i = i + 1;
    }
    let ghost before = acc@;
    acc.push(v);
    proof {
        assert(!before.contains(v));
        assert(acc@.to_set() =~= before.to_set().insert(v)) by {
            assert forall|x: TypeVarId| #[trigger] acc@.to_set().contains(x) <==> before.to_set().insert(v).contains(x) by {
                if acc@.contains(x) {
                    let k = choose|k: int| 0 <= k < acc@.len() && acc@[k] == x;
                    if k < before.len() {
                        assert(before[k] == x);
                    }
                }
                if before.contains(x) {
                    let k = choose|k: int| 0 <= k < before.len() && before[k] == x;
                    assert(acc@[k] == x);
                }
                if x == v {
                    assert(acc@[before.len() as int] == x);
                }
            }
        }
        assert(acc@.no_duplicates()) by {
            assert forall|a: int, b: int| 0 <= a < acc@.len() && 0 <= b < acc@.len() && a != b implies acc@[a] != acc@[b] by {
                if a < before.len() && b < before.len() {
                } else if a == before.len() {
                    assert(acc@[b] == before[b]);
                } else {
                    assert(acc@[a] == before[a]);
                }
            }
        }
    }
}

/// Appends effect variable `v` to `acc` unless it is already there.
pub fn push_unique_effect(acc: &mut Vec<EffectVarId>, v: EffectVarId)
    requires
        old(acc)@.no_duplicates(),
    ensures
        final(acc)@.no_duplicates(),
        final(acc)@.to_set() == old(acc)@.to_set().insert(v),
        old(acc)@.to_set().contains(v) ==> final(acc)@ == old(acc)@,
        !old(acc)@.to_set().contains(v) ==> final(acc)@ == old(acc)@.push(v),
{
    let mut i: usize = 0;
    while i < acc.len()
        invariant
            i <= acc@.len(),
            acc@ == old(acc)@,
            old(acc)@.no_duplicates(),
            forall|j: int| 0 <= j < i ==> acc@[j] != v,
        decreases acc@.len() - i,
    {
        if acc[i] == v {
            proof {
                assert(acc@.to_set().contains(v));
                assert(acc@.to_set().insert(v) =~= acc@.to_set());
            }
            return;
        }
        i = i + 1;
    }
    let ghost before = acc@;
    acc.push(v);
    proof {
        assert(!before.contains(v));
        assert(acc@.to_set() =~= before.to_set().insert(v)) by {
            assert forall|x: EffectVarId| #[trigger] acc@.to_set().contains(x) <==> before.to_set().insert(v).contains(x) by {
                if acc@.contains(x) {
                    let k = choose|k: int| 0 <= k < acc@.len() && acc@[k] == x;
                    if k < before.len() {
                        assert(before[k] == x);
                    }
                }
                if before.contains(x) {
                    let k = choose|k: int| 0 <= k < before.len() && before[k] == x;
                    assert(acc@[k] == x);
                }
                if x == v {
                    assert(acc@[before.len() as int] == x);
                }
            }
        }
        assert(acc@.no_duplicates()) by {
            assert forall|a: int, b: int| 0 <= a < acc@.len() && 0 <= b < acc@.len() && a != b implies acc@[a] != acc@[b] by {
                if a < before.len() && b < before.len() {
                } else if a == before.len() {
                    assert(acc@[b] == before[b]);
                } else {
                    assert(acc@[a] == before[a]);
                }
            }
        }
    }
}

fn collect_vars(t: &Ty, acc: &mut Vec<TypeVarId>)
    requires
        old(acc)@.no_duplicates(),
    ensures
        final(acc)@.no_duplicates(),
        final(acc)@.to_set() == old(acc)@.to_set().union(ty_vars(t@)),
    decreases t,
{
    match t {
        Ty::Var(v) => {
            push_unique(acc, *v);
            assert(acc@.to_set() =~= old(acc)@.to_set().union(ty_vars(t@)));
        },
        Ty::Const(_) | Ty::Cap(_) | Ty::Never => {
            assert(acc@.to_set() =~= old(acc)@.to_set().union(ty_vars(t@)));
        },
        Ty::Arrow(ps, r, _) => {
            collect_vars_seq(ps, acc);
            collect_vars(r, acc);
            assert(acc@.to_set() =~= old(acc)@.to_set().union(ty_vars(t@)));
        },
        Ty::Tuple(xs) => {
            collect_vars_seq(xs, acc);
        },
        Ty::List(x) => {
            collect_vars(x, acc);
        },
        Ty::Adt { name: _, args } => {
            collect_vars_seq(args, acc);
        },
    }
}

fn collect_vars_seq(s: &Vec<Ty>, acc: &mut Vec<TypeVarId>)
    requires
        old(acc)@.no_duplicates(),
    ensures
        final(acc)@.no_duplicates(),
        final(acc)@.to_set() == old(acc)@.to_set().union(tys_vars(tys_view(s@))),
    decreases s,
{
    let mut i: usize = 0;
    while i < s.len()
        invariant
            i <= s@.len(),
            acc@.no_duplicates(),
            acc@.to_set() == old(acc)@.to_set().union(tys_vars(tys_view(s@.take(i as int)))),
        decreases s@.len() - i,
    {
        proof {
            lemma_tys_view_take(s@, i as int);
            let a = tys_view(s@.take(i as int));
            assert(a.push(ty_view(s@[i as int])).drop_last() =~= a);
        }
        assert(decreases_to!(s => s@[i as int]));
        collect_vars(&s[i], acc);
        assert(acc@.to_set() =~= old(acc)@.to_set().union(tys_vars(tys_view(s@.take(i + 1)))));
        i = i + 1;
    }
    assert(s@.take(s@.len() as int) =~= s@);
}

/// The type variables of a type, each listed once.
pub fn free_vars(ty: &Ty) -> (r: Vec<TypeVarId>)
    ensures
        r@.no_duplicates(),
        r@.to_set() == ty_vars(ty@),
{
    let mut acc: Vec<TypeVarId> = Vec::new();
    assert(acc@.to_set() =~= Set::empty());
    collect_vars(ty, &mut acc);
    assert(acc@.to_set() =~= ty_vars(ty@));
    acc
}

fn collect_effect_vars(t: &Ty, acc: &mut Vec<EffectVarId>)
    requires
        old(acc)@.no_duplicates(),
    ensures
        final(acc)@.no_duplicates(),
        final(acc)@.to_set() == old(acc)@.to_set().union(ty_effect_vars(t@)),
    decreases t,
{
    match t {
        Ty::Arrow(ps, r, e) => {
            collect_effect_vars_seq(ps, acc);
            collect_effect_vars(r, acc);
            match e.tail {
                Some(v) => {
                    push_unique_effect(acc, v);
                },
                None => {},
            }
            assert(acc@.to_set() =~= old(acc)@.to_set().union(ty_effect_vars(t@)));
        },
        Ty::Tuple(xs) => {
            collect_effect_vars_seq(xs, acc);
        },
        Ty::List(x) => {
            collect_effect_vars(x, acc);
        },
        Ty::Adt { name: _, args } => {
            collect_effect_vars_seq(args, acc);
        },
        _ => {
            assert(acc@.to_set() =~= old(acc)@.to_set().union(ty_effect_vars(t@)));
        },
    }
}

fn collect_effect_vars_seq(s: &Vec<Ty>, acc: &mut Vec<EffectVarId>)
    requires
        old(acc)@.no_duplicates(),
    ensures
        final(acc)@.no_duplicates(),
        final(acc)@.to_set() == old(acc)@.to_set().union(tys_effect_vars(tys_view(s@))),
    decreases s,
{
    let mut i: usize = 0;
    while i < s.len()
        invariant
            i <= s@.len(),
            acc@.no_duplicates(),
            acc@.to_set() == old(acc)@.to_set().union(tys_effect_vars(tys_view(s@.take(i as int)))),
        decreases s@.len() - i,
    {
        proof {
            lemma_tys_view_take(s@, i as int);
            let a = tys_view(s@.take(i as int));
            assert(a.push(ty_view(s@[i as int])).drop_last() =~= a);
        }
        assert(decreases_to!(s => s@[i as int]));
        collect_effect_vars(&s[i], acc);
        assert(acc@.to_set() =~= old(acc)@.to_set().union(tys_effect_vars(tys_view(s@.take(i + 1)))));
        i = i + 1;
    }
    assert(s@.take(s@.len() as int) =~= s@);
}

/// The effect variables of a type, each listed once.
pub fn free_effect_vars(ty: &Ty) -> (r: Vec<EffectVarId>)
    ensures
        r@.no_duplicates(),
        r@.to_set() == ty_effect_vars(ty@),
{
    let mut acc: Vec<EffectVarId> = Vec::new();
    assert(acc@.to_set() =~= Set::empty());
    collect_effect_vars(ty, &mut acc);
    assert(acc@.to_set() =~= ty_effect_vars(ty@));
    acc
}

// ---------------------------------------------------------------------------
// Copies and constructors
// ---------------------------------------------------------------------------

/// A copy of a sequence of types.
pub fn copy_tys(s: &Vec<Ty>) -> (r: Vec<Ty>)
    ensures
        tys_view(r@) == tys_view(s@),
        r@.len() == s@.len(),
    decreases s,
{
    let mut out: Vec<Ty> = Vec::new();
    let mut i: usize = 0;
    while i < s.len()
        invariant
            i <= s@.len(),
            tys_view(out@) == tys_view(s@.take(i as int)),
            out@.len() == i,
        decreases s@.len() - i,
    {
        assert(decreases_to!(s => s@[i as int]));
        let c = s[i].copy();
        let ghost before = out@;
        out.push(c);
        proof {
            lemma_tys_view_take(s@, i as int);
            assert(out@.drop_last() =~= before);
        }
        i = i + 1;
    }
    assert(s@.take(s@.len() as int) =~= s@);
    out
}

impl Ty {
    /// A copy of this type, equal to it.
    pub fn copy(&self) -> (r: Ty)
        ensures
            r@ == self@,
        decreases self,
    {
        match self {
            Ty::Var(v) => Ty::Var(*v),
            Ty::Const(c) => Ty::Const(*c),
            Ty::Arrow(ps, r, e) => Ty::Arrow(copy_tys(ps), Box::new((**r).copy()), *e),
            Ty::Tuple(xs) => Ty::Tuple(copy_tys(xs)),
            Ty::List(x) => Ty::List(Box::new((**x).copy())),
            Ty::Adt { name, args } => Ty::Adt { name: name.clone(), args: copy_tys(args) },
            Ty::Cap(k) => Ty::Cap(*k),
            Ty::Never => Ty::Never,
        }
    }

    /// Type variable.
    pub fn var(id: TypeVarId) -> (r: Self)
        ensures
            r@ == TyM::Var(id),
    {
        Ty::Var(id)
    }

    /// The unit type.
    pub fn unit() -> (r: Self)
        ensures
            r@ == TyM::Const(TyConst::Unit),
    {
        Ty::Const(TyConst::Unit)
    }

    /// The boolean type.
    pub fn bool_() -> (r: Self)
        ensures
            r@ == TyM::Const(TyConst::Bool),
    {
        Ty::Const(TyConst::Bool)
    }

    /// The integer type.
    pub fn int_() -> (r: Self)
        ensures
            r@ == TyM::Const(TyConst::Int),
    {
        Ty::Const(TyConst::Int)
    }

    /// The float type.
    pub fn float() -> (r: Self)
        ensures
            r@ == TyM::Const(TyConst::Float),
    {
        Ty::Const(TyConst::Float)
    }

    /// The string type.
    pub fn string() -> (r: Self)
        ensures
            r@ == TyM::Const(TyConst::String),
    {
        Ty::Const(TyConst::String)
    }

    /// A pure function type.
    pub fn arrow(params: Vec<Ty>, ret: Ty) -> (r: Self)
        ensures
            r@ == TyM::Arrow(tys_view(params@), Box::new(ret@), EffectRow { concrete: 0, tail: None }),
    {
        Ty::Arrow(params, Box::new(ret), EffectRow::pure())
    }

    /// A function type with an explicit effect row.
    pub fn arrow_eff(params: Vec<Ty>, ret: Ty, eff: EffectRow) -> (r: Self)
        ensures
            r@ == TyM::Arrow(tys_view(params@), Box::new(ret@), eff),
    {
        Ty::Arrow(params, Box::new(ret), eff)
    }

    /// A pure function type of one parameter.
    pub fn arrow1(param: Ty, ret: Ty) -> (r: Self)
        ensures
            r@ == TyM::Arrow(seq![param@], Box::new(ret@), EffectRow { concrete: 0, tail: None }),
    {
        let mut ps: Vec<Ty> = Vec::new();
        ps.push(param);
        proof {
            lemma_tys_view(ps@);
            assert(tys_view(ps@) =~= seq![param@]);
        }
        Ty::Arrow(ps, Box::new(ret), EffectRow::pure())
    }

    /// A pure function type of no parameters.
    pub fn thunk(ret: Ty) -> (r: Self)
        ensures
            r@ == TyM::Arrow(Seq::empty(), Box::new(ret@), EffectRow { concrete: 0, tail: None }),
    {
        let ps: Vec<Ty> = Vec::new();
        assert(tys_view(ps@) =~= Seq::<TyM>::empty());
        Ty::Arrow(ps, Box::new(ret), EffectRow::pure())
    }

    /// A tuple type.
    pub fn tuple(elems: Vec<Ty>) -> (r: Self)
        ensures
            r@ == TyM::Tuple(tys_view(elems@)),
    {
        Ty::Tuple(elems)
    }

    /// A list type.
    pub fn list(elem: Ty) -> (r: Self)
        ensures
            r@ == TyM::List(Box::new(elem@)),
    {
        Ty::List(Box::new(elem))
    }

    /// A capability type.
    pub fn cap(kind: CapKind) -> (r: Self)
        ensures
            r@ == TyM::Cap(kind),
    {
        Ty::Cap(kind)
    }

    /// The file-system capability type.
    pub fn fs_cap() -> (r: Self)
        ensures
            r@ == TyM::Cap(CapKind::Fs),
    {
        Ty::Cap(CapKind::Fs)
    }

    /// The network capability type.
    pub fn net_cap() -> (r: Self)
        ensures
            r@ == TyM::Cap(CapKind::Net),
    {
        Ty::Cap(CapKind::Net)
    }

    /// An algebraic data type with arguments.
    pub fn adt(name: &str, args: Vec<Ty>) -> (r: Self)
        ensures
            r@ == TyM::Adt(name@, tys_view(args@)),
    {
        Ty::Adt { name: name.to_owned(), args }
    }

    /// An algebraic data type without arguments.
    pub fn adt0(name: &str) -> (r: Self)
        ensures
            r@ == TyM::Adt(name@, Seq::empty()),
    {
        let args: Vec<Ty> = Vec::new();
        assert(tys_view(args@) =~= Seq::<TyM>::empty());
        Ty::Adt { name: name.to_owned(), args }
    }
}

impl Clone for Ty {
    fn clone(&self) -> (r: Ty)
        ensures
            r@ == self@,
    {
        self.copy()
    }
}

/// Type scheme: a type with universally bound type and effect variables.
#[derive(Debug, PartialEq)]
pub struct Scheme {
    pub type_vars: Vec<TypeVarId>,
    pub effect_vars: Vec<EffectVarId>,
    pub ty: Ty,
}

impl Scheme {
    /// A scheme with no bound variables.
    pub fn mono(ty: Ty) -> (r: Scheme)
        ensures
            r.type_vars@.len() == 0,
            r.effect_vars@.len() == 0,
            r.ty@ == ty@,
    {
        Scheme { type_vars: Vec::new(), effect_vars: Vec::new(), ty }
    }

    /// A copy of this scheme.
    pub fn copy(&self) -> (r: Scheme)
        ensures
            r.type_vars@ == self.type_vars@,
            r.effect_vars@ == self.effect_vars@,
            r.ty@ == self.ty@,
    {
        Scheme { type_vars: self.type_vars.clone(), effect_vars: self.effect_vars.clone(), ty: self.ty.copy() }
    }
}

/// The free type variables of a scheme: those of its type that it does not bind.
pub open spec fn scheme_vars(s: Scheme) -> Set<TypeVarId> {
    ty_vars(s.ty@).difference(s.type_vars@.to_set())
}

/// The free effect variables of a scheme.
pub open spec fn scheme_effect_vars(s: Scheme) -> Set<EffectVarId> {
    ty_effect_vars(s.ty@).difference(s.effect_vars@.to_set())
}

/// Whether a sequence of variables holds `v`.
pub fn holds_var(s: &Vec<TypeVarId>, v: TypeVarId) -> (r: bool)
    ensures
        r == s@.contains(v),
{
    let mut i: usize = 0;
    while i < s.len()
        invariant
            i <= s@.len(),
            forall|j: int| 0 <= j < i ==> s@[j] != v,
        decreases s@.len() - i,
    {
        if s[i] == v {
            return true;
        }
        i = i + 1;
    }
    false
}

/// Whether a sequence of effect variables holds `v`.
pub fn holds_effect_var(s: &Vec<EffectVarId>, v: EffectVarId) -> (r: bool)
    ensures
        r == s@.contains(v),
{
    let mut i: usize = 0;
    while i < s.len()
        invariant
            i <= s@.len(),
            forall|j: int| 0 <= j < i ==> s@[j] != v,
        decreases s@.len() - i,
    {
        if s[i] == v {
            return true;
        }
        i = i + 1;
    }
    false
}

/// The free type variables of a scheme, each listed once.
pub fn free_vars_scheme(scheme: &Scheme) -> (r: Vec<TypeVarId>)
    ensures
        r@.no_duplicates(),
        r@.to_set() == scheme_vars(*scheme),
{
    let all = free_vars(&scheme.ty);
    let mut out: Vec<TypeVarId> = Vec::new();
    let mut i: usize = 0;
    while i < all.len()
        invariant
            i <= all@.len(),
            all@.no_duplicates(),
            all@.to_set() == ty_vars(scheme.ty@),
            out@.no_duplicates(),
            out@.to_set() == all@.take(i as int).to_set().difference(scheme.type_vars@.to_set()),
        decreases all@.len() - i,
    {
        let v = all[i];
        let ghost before = out@;
        if !holds_var(&scheme.type_vars, v) {
            push_unique(&mut out, v);
        }
        proof {
            assert(all@.take(i + 1) =~= all@.take(i as int).push(v));
            all@.take(i as int).lemma_push_to_set_commute(v);
            assert(out@.to_set() =~= all@.take(i + 1).to_set().difference(scheme.type_vars@.to_set()));
        }
        i = i + 1;
    }
    assert(all@.take(all@.len() as int) =~= all@);
    out
}

/// The free effect variables of a scheme, each listed once.
pub fn free_effect_vars_scheme(scheme: &Scheme) -> (r: Vec<EffectVarId>)
    ensures
        r@.no_duplicates(),
        r@.to_set() == scheme_effect_vars(*scheme),
{
    let all = free_effect_vars(&scheme.ty);
    let mut out: Vec<EffectVarId> = Vec::new();
    let mut i: usize = 0;
    while i < all.len()
        invariant
            i <= all@.len(),
            all@.no_duplicates(),
            all@.to_set() == ty_effect_vars(scheme.ty@),
            out@.no_duplicates(),
            out@.to_set() == all@.take(i as int).to_set().difference(scheme.effect_vars@.to_set()),
        decreases all@.len() - i,
    {
        let v = all[i];
        if !holds_effect_var(&scheme.effect_vars, v) {
            push_unique_effect(&mut out, v);
        }
        proof {
            assert(all@.take(i + 1) =~= all@.take(i as int).push(v));
            all@.take(i as int).lemma_push_to_set_commute(v);
            assert(out@.to_set() =~= all@.take(i + 1).to_set().difference(scheme.effect_vars@.to_set()));
        }
        i = i + 1;
    }
    assert(all@.take(all@.len() as int) =~= all@);
    out
}

/// Constraint for constraint-based type inference.
#[derive(Debug)]
pub enum Constraint {
    /// Type equality, with the span that produced it.
    Equal(Ty, Ty, Span),
    /// Effect inclusion: the first row must fit in the second.
    EffectSubset(EffectRow, EffectRow, Span),
}


// ---------------------------------------------------------------------------
// Printing
// ---------------------------------------------------------------------------

impl TypeVarId {
    /// How the variable is written: `t` followed by its number.
    pub open spec fn spec_text(self) -> Seq<char> {
        "t"@ + decimal(self.0 as nat)
    }

    /// The written form of the variable, such as `t3`.
    pub fn display(&self) -> (r: String)
        ensures
            r@ == self.spec_text(),
    {
        let mut s = String::new();
        s.append("t");
        push_decimal(&mut s, self.0 as u64);
        s
    }
}

/// The name of a primitive type.
pub open spec fn const_text(c: TyConst) -> Seq<char> {
    match c {
        TyConst::Unit => "Unit"@,
        TyConst::Bool => "Bool"@,
        TyConst::Int => "Int"@,
        TyConst::Float => "Float"@,
        TyConst::String => "String"@,
    }
}

/// How a type is printed.
pub open spec fn ty_text(t: TyM) -> Seq<char>
    decreases t,
{
    match t {
        TyM::Var(v) => v.spec_text(),
        TyM::Const(c) => const_text(c),
        TyM::Arrow(ps, r, e) => {
            let head = if ps.len() == 0 {
                "() -> "@ + ty_text(*r)
            } else if ps.len() == 1 {
                ty_text(ps[0]) + " -> "@ + ty_text(*r)
            } else {
                "("@ + tys_text(ps) + ") -> "@ + ty_text(*r)
            };
            if e.concrete == 0 && e.tail is None {
                head
            } else {
                head + " & "@ + row_text(e)
            }
        },
        TyM::Tuple(xs) => "("@ + tys_text(xs) + ")"@,
        TyM::List(x) => "["@ + ty_text(*x) + "]"@,
        TyM::Adt(name, args) => if args.len() == 0 {
            name
        } else {
            name + "<"@ + tys_text(args) + ">"@
        },
        TyM::Cap(k) => cap_type_text(k),
        TyM::Never => "!"@,
    }
}

/// How a sequence of types is printed: separated by commas.
pub open spec fn tys_text(s: Seq<TyM>) -> Seq<char>
    decreases s,
{
    if s.len() == 0 {
        Seq::empty()
    } else if s.len() == 1 {
        ty_text(s[0])
    } else {
        tys_text(s.drop_last()) + ", "@ + ty_text(s.last())
    }
}

fn write_const(c: TyConst, out: &mut String)
    ensures
        final(out)@ == old(out)@ + const_text(c),
{
    match c {
        TyConst::Unit => out.append("Unit"),
        TyConst::Bool => out.append("Bool"),
        TyConst::Int => out.append("Int"),
        TyConst::Float => out.append("Float"),
        TyConst::String => out.append("String"),
    }
}

/// Appends the printed form of a type.
fn write_ty(t: &Ty, out: &mut String)
    ensures
        final(out)@ == old(out)@ + ty_text(t@),
    decreases t,
{
    match t {
        Ty::Var(v) => {
            out.append("t");
            push_decimal(out, v.0 as u64);
            assert(out@ =~= old(out)@ + ty_text(t@));
        },
        Ty::Const(c) => write_const(*c, out),
        Ty::Arrow(params, ret, eff) => {
            proof {
                lemma_tys_view(params@);
            }
            if params.len() == 0 {
                out.append("() -> ");
                write_ty(ret, out);
            } else if params.len() == 1 {
                write_ty(&params[0], out);
                out.append(" -> ");
                write_ty(ret, out);
            } else {
                out.append("(");
                write_tys(params, out);
                out.append(") -> ");
                write_ty(ret, out);
            }
            if !eff.is_empty() {
                out.append(" & ");
                let e = eff.display();
                out.append(e.as_str());
            }
            assert(out@ =~= old(out)@ + ty_text(t@));
        },
        Ty::Tuple(xs) => {
            out.append("(");
            write_tys(xs, out);
            out.append(")");
            assert(out@ =~= old(out)@ + ty_text(t@));
        },
        Ty::List(x) => {
            out.append("[");
            write_ty(x, out);
            out.append("]");
            assert(out@ =~= old(out)@ + ty_text(t@));
        },
        Ty::Adt { name, args } => {
            proof {
                lemma_tys_view(args@);
            }
            out.append(name.as_str());
            if args.len() > 0 {
                out.append("<");
                write_tys(args, out);
                out.append(">");
            }
            assert(out@ =~= old(out)@ + ty_text(t@));
        },
        Ty::Cap(k) => {
            out.append(k.type_name_str());
        },
        Ty::Never => {
            out.append("!");
        },
    }
}

/// Appends the printed forms of a sequence of types, separated by commas.
fn write_tys(s: &Vec<Ty>, out: &mut String)
    ensures
        final(out)@ == old(out)@ + tys_text(tys_view(s@)),
    decreases s,
{
    let ghost start = out@;
    let mut i: usize = 0;
    while i < s.len()
        invariant
            i <= s@.len(),
            out@ == start + tys_text(tys_view(s@.take(i as int))),
        decreases s@.len() - i,
    {
        assert(decreases_to!(s => s@[i as int]));
        proof {
            lemma_tys_view_take(s@, i as int);
            lemma_tys_view(s@.take(i + 1));
        }
        if i > 0 {
            out.append(", ");
        }
        write_ty(&s[i], out);
        proof {
            let a = tys_view(s@.take(i as int));
            let b = tys_view(s@.take(i + 1));
            assert(b == a.push(ty_view(s@[i as int])));
            assert(b.drop_last() =~= a);
            if i == 0 {
                assert(b.len() == 1);
                assert(b[0] == ty_view(s@[0]));
                assert(a.len() == 0);
                assert(out@ =~= start + tys_text(b));
            } else {
                assert(out@ =~= start + tys_text(b));
            }
        }
        i = i + 1;
    }
    assert(s@.take(s@.len() as int) =~= s@);
}

impl Ty {
    /// The printed form of the type, such as `Int -> Bool` or `Option<t0>`.
    pub fn display(&self) -> (r: String)
        ensures
            r@ == ty_text(self@),
    {
        let mut s = String::new();
        write_ty(self, &mut s);
        assert(s@ =~= ty_text(self@));
        s
    }
}

} // verus!
