//! Contexts for constraint-based inference: scoped environments, fresh type
//! variables, collected constraints, and generalization into schemes.
use vstd::prelude::*;
use crate::assoc::{AssocMap, MapKey, has_key};
use crate::effects::EffectVarId;
use crate::ty::{
    Constraint, Scheme, Ty, TyM, TypeVarId, free_effect_vars_scheme, free_vars, free_vars_scheme,
    holds_var, push_unique, push_unique_effect, scheme_effect_vars, scheme_vars, ty_vars,
};

verus! {

/// What a scheme stands for: its bound type variables, its bound effect
/// variables, and its type.
pub open spec fn scheme_view(s: Scheme) -> (Seq<TypeVarId>, Seq<EffectVarId>, TyM) {
    (s.type_vars@, s.effect_vars@, s.ty@)
}

/// The free type variables of all the schemes of an environment.
pub open spec fn env_vars(m: Map<Seq<char>, Scheme>) -> Set<TypeVarId> {
    Set::new(|v: TypeVarId| exists|k: Seq<char>| #[trigger] m.contains_key(k) && scheme_vars(m[k]).contains(v))
}

/// The free effect variables of all the schemes of an environment.
pub open spec fn env_effect_vars(m: Map<Seq<char>, Scheme>) -> Set<EffectVarId> {
    Set::new(|v: EffectVarId| exists|k: Seq<char>| #[trigger] m.contains_key(k) && scheme_effect_vars(m[k]).contains(v))
}

/// A larger environment keeps every free variable of a smaller one.
pub proof fn lemma_env_vars_grow(small: Map<Seq<char>, Scheme>, large: Map<Seq<char>, Scheme>)
    requires
        forall|k: Seq<char>| #[trigger] small.contains_key(k) ==> large.contains_key(k) && large[k] == small[k],
    ensures
        env_vars(small).subset_of(env_vars(large)),
{
    assert forall|v: TypeVarId| #[trigger] env_vars(small).contains(v) implies env_vars(large).contains(v) by {
        let k = choose|k: Seq<char>| #[trigger] small.contains_key(k) && scheme_vars(small[k]).contains(v);
        assert(large.contains_key(k) && scheme_vars(large[k]).contains(v));
    }
}

/// The free type variables of an environment, each listed once.
pub fn free_vars_env(env: &AssocMap<String, Scheme>) -> (r: Vec<TypeVarId>)
    ensures
        r@.no_duplicates(),
        r@.to_set() == env_vars(env@),
{
    let n = env.len();
    let mut acc: Vec<TypeVarId> = Vec::new();
    let mut i: usize = 0;
    assert(acc@.to_set() =~= Set::empty());
    while i < n
        invariant
            n == env.entries().len(),
            i <= n,
            acc@.no_duplicates(),
            forall|j: int| 0 <= j < n ==> #[trigger] env@.contains_key(env.entries()[j].0@)
                && env@[env.entries()[j].0@] == env.entries()[j].1,
            forall|k: Seq<char>| #[trigger] env@.contains_key(k) ==> has_key(env.entries(), k),
            forall|v: TypeVarId| #[trigger] acc@.to_set().contains(v) <==> exists|j: int| 0 <= j < i
                && #[trigger] scheme_vars(env.entries()[j].1).contains(v),
        decreases n - i,
    {
        let (_, scheme) = env.entry(i);
        let vs = free_vars_scheme(scheme);
        let ghost before = acc@.to_set();
        let mut q: usize = 0;
        while q < vs.len()
            invariant
                q <= vs@.len(),
                acc@.no_duplicates(),
                acc@.to_set() == before.union(vs@.take(q as int).to_set()),
            decreases vs@.len() - q,
        {
            push_unique(&mut acc, vs[q]);
            proof {
                assert(vs@.take(q + 1) =~= vs@.take(q as int).push(vs@[q as int]));
                vs@.take(q as int).lemma_push_to_set_commute(vs@[q as int]);
                assert(acc@.to_set() =~= before.union(vs@.take(q + 1).to_set()));
            }
            q = q + 1;
        }
        proof {
            assert(vs@.take(vs@.len() as int) =~= vs@);
            assert forall|v: TypeVarId| #[trigger] acc@.to_set().contains(v) <==> exists|j: int| 0 <= j < i + 1
                && #[trigger] scheme_vars(env.entries()[j].1).contains(v) by {
                if scheme_vars(env.entries()[i as int].1).contains(v) {
                    assert(vs@.to_set().contains(v));
                }
            }
        }
        i = i + 1;
    }
    assert forall|v: TypeVarId| #[trigger] acc@.to_set().contains(v) <==> env_vars(env@).contains(v) by {
        if acc@.to_set().contains(v) {
            let j = choose|j: int| 0 <= j < n && #[trigger] scheme_vars(env.entries()[j].1).contains(v);
            assert(env@.contains_key(env.entries()[j].0@));
        }
        if env_vars(env@).contains(v) {
            let k = choose|k: Seq<char>| #[trigger] env@.contains_key(k) && scheme_vars(env@[k]).contains(v);
            assert(has_key(env.entries(), k));
            let j = choose|j: int| 0 <= j < env.entries().len() && #[trigger] env.entries()[j].0@ == k;
            assert(scheme_vars(env.entries()[j].1).contains(v));
        }
    }
    assert(acc@.to_set() =~= env_vars(env@));
    acc
}

/// The free effect variables of an environment, each listed once.
pub fn free_effect_vars_env(env: &AssocMap<String, Scheme>) -> (r: Vec<EffectVarId>)
    ensures
        r@.no_duplicates(),
        r@.to_set() == env_effect_vars(env@),
{
    let n = env.len();
    let mut acc: Vec<EffectVarId> = Vec::new();
    let mut i: usize = 0;
    assert(acc@.to_set() =~= Set::empty());
    while i < n
        invariant
            n == env.entries().len(),
            i <= n,
            acc@.no_duplicates(),
            forall|j: int| 0 <= j < n ==> #[trigger] env@.contains_key(env.entries()[j].0@)
                && env@[env.entries()[j].0@] == env.entries()[j].1,
            forall|k: Seq<char>| #[trigger] env@.contains_key(k) ==> has_key(env.entries(), k),
            forall|v: EffectVarId| #[trigger] acc@.to_set().contains(v) <==> exists|j: int| 0 <= j < i
                && #[trigger] scheme_effect_vars(env.entries()[j].1).contains(v),
        decreases n - i,
    {
        let (_, scheme) = env.entry(i);
        let vs = free_effect_vars_scheme(scheme);
        let ghost before = acc@.to_set();
        let mut q: usize = 0;
        while q < vs.len()
            invariant
                q <= vs@.len(),
                acc@.no_duplicates(),
                acc@.to_set() == before.union(vs@.take(q as int).to_set()),
            decreases vs@.len() - q,
        {
            push_unique_effect(&mut acc, vs[q]);
            proof {
                assert(vs@.take(q + 1) =~= vs@.take(q as int).push(vs@[q as int]));
                vs@.take(q as int).lemma_push_to_set_commute(vs@[q as int]);
                assert(acc@.to_set() =~= before.union(vs@.take(q + 1).to_set()));
            }
            q = q + 1;
        }
        proof {
            assert(vs@.take(vs@.len() as int) =~= vs@);
            assert forall|v: EffectVarId| #[trigger] acc@.to_set().contains(v) <==> exists|j: int| 0 <= j < i + 1
                && #[trigger] scheme_effect_vars(env.entries()[j].1).contains(v) by {
                if scheme_effect_vars(env.entries()[i as int].1).contains(v) {
                    assert(vs@.to_set().contains(v));
                }
            }
        }
        i = i + 1;
    }
    assert forall|v: EffectVarId| #[trigger] acc@.to_set().contains(v) <==> env_effect_vars(env@).contains(v) by {
        if acc@.to_set().contains(v) {
            let j = choose|j: int| 0 <= j < n && #[trigger] scheme_effect_vars(env.entries()[j].1).contains(v);
            assert(env@.contains_key(env.entries()[j].0@));
        }
        if env_effect_vars(env@).contains(v) {
            let k = choose|k: Seq<char>| #[trigger] env@.contains_key(k) && scheme_effect_vars(env@[k]).contains(v);
            assert(has_key(env.entries(), k));
            let j = choose|j: int| 0 <= j < env.entries().len() && #[trigger] env.entries()[j].0@ == k;
            assert(scheme_effect_vars(env.entries()[j].1).contains(v));
        }
    }
    assert(acc@.to_set() =~= env_effect_vars(env@));
    acc
}

/// A copy of an environment of schemes, binding the same names to schemes
/// with the same variables and types.
pub(crate) fn copy_env(env: &AssocMap<String, Scheme>) -> (r: AssocMap<String, Scheme>)
    ensures
        r@.dom() == env@.dom(),
        forall|k: Seq<char>| #[trigger] r@.contains_key(k) ==> scheme_view(r@[k]) == scheme_view(env@[k]),
{
    let mut out: AssocMap<String, Scheme> = AssocMap::new();
    let n = env.len();
    let mut i: usize = 0;
    while i < n
        invariant
            n == env.entries().len(),
            i <= n,
            forall|k: Seq<char>| #[trigger] env@.contains_key(k) ==> has_key(env.entries(), k),
            forall|k: Seq<char>| #[trigger] out@.contains_key(k) <==> exists|j: int| 0 <= j < i && #[trigger] env.entries()[j].0@ == k,
            forall|k: Seq<char>| #[trigger] out@.contains_key(k) ==> env@.contains_key(k) && scheme_view(out@[k]) == scheme_view(env@[k]),
        decreases n - i,
    {
        let (k, s) = env.entry(i);
        out.insert(k.key_clone(), s.copy());
        i = i + 1;
    }
    assert(out@.dom() =~= env@.dom());
    out
}

/// A copy of a map of flags.
fn copy_flags(m: &AssocMap<String, bool>) -> (r: AssocMap<String, bool>)
    ensures
        r@ == m@,
{
    let mut out: AssocMap<String, bool> = AssocMap::new();
    let n = m.len();
    let mut i: usize = 0;
    while i < n
        invariant
            n == m.entries().len(),
            i <= n,
            forall|k: Seq<char>| #[trigger] m@.contains_key(k) ==> has_key(m.entries(), k),
            forall|k: Seq<char>| #[trigger] out@.contains_key(k) <==> exists|j: int| 0 <= j < i && #[trigger] m.entries()[j].0@ == k,
            forall|k: Seq<char>| #[trigger] out@.contains_key(k) ==> m@.contains_key(k) && out@[k] == m@[k],
        decreases n - i,
    {
        let (k, b) = m.entry(i);
        out.insert(k.key_clone(), *b);
        i = i + 1;
    }
    assert(out@ =~= m@);
    out
}

/// The scope of a check: the schemes of the visible names, which of them are
/// mutable, and the return type expected by `return`.
pub struct CheckContext {
    /// The type scheme of each visible name.
    pub env: AssocMap<String, Scheme>,
    /// Which names are mutable.
    pub mutability: AssocMap<String, bool>,
    /// The return type expected by `return`, inside a function.
    pub expected_return: Option<Ty>,
}

/// The model of an optional type.
pub open spec fn opt_ty_view(t: Option<Ty>) -> Option<TyM> {
    match t {
        Some(x) => Some(x@),
        None => None,
    }
}

impl CheckContext {
    /// The schemes of the visible names, by their models.
    pub open spec fn schemes(&self) -> Map<Seq<char>, (Seq<TypeVarId>, Seq<EffectVarId>, TyM)> {
        Map::new(|k: Seq<char>| self.env@.contains_key(k), |k: Seq<char>| scheme_view(self.env@[k]))
    }

    /// An empty context.
    pub fn new() -> (r: Self)
        ensures
            r.env@ == Map::<Seq<char>, Scheme>::empty(),
            r.mutability@ == Map::<Seq<char>, bool>::empty(),
            r.expected_return is None,
    {
        CheckContext { env: AssocMap::new(), mutability: AssocMap::new(), expected_return: None }
    }

    /// A context over an environment, with nothing mutable and no return type.
    pub fn from_env(env: AssocMap<String, Scheme>) -> (r: Self)
        ensures
            r.env@ == env@,
            r.mutability@ == Map::<Seq<char>, bool>::empty(),
            r.expected_return is None,
    {
        CheckContext { env, mutability: AssocMap::new(), expected_return: None }
    }

    /// A nested scope that starts with everything this one has.
    pub fn child(&self) -> (r: Self)
        ensures
            r.schemes() == self.schemes(),
            r.mutability@ == self.mutability@,
            opt_ty_view(r.expected_return) == opt_ty_view(self.expected_return),
    {
        let env = copy_env(&self.env);
        let mutability = copy_flags(&self.mutability);
        let expected_return = match &self.expected_return {
            Some(t) => Some(t.copy()),
            None => None,
        };
        let r = CheckContext { env, mutability, expected_return };
        assert(r.schemes() =~= self.schemes());
        r
    }

    /// Binds a name to a scheme, mutable or not, shadowing any earlier binding.
    pub fn bind(&mut self, name: String, scheme: Scheme, mutable: bool)
        ensures
            final(self).env@ == old(self).env@.insert(name@, scheme),
            final(self).mutability@ == old(self).mutability@.insert(name@, mutable),
            final(self).expected_return == old(self).expected_return,
    {
        let key = name.key_clone();
        self.env.insert(key, scheme);
        self.mutability.insert(name, mutable);
    }

    /// Whether a name is mutable; `None` for a name never bound.
    pub fn is_mutable(&self, name: &str) -> (r: Option<bool>)
        ensures
            r == (if self.mutability@.contains_key(name@) {
                Some(self.mutability@[name@])
            } else {
                None
            }),
    {
        let key = name.to_owned();
        match self.mutability.get(&key) {
            Some(b) => Some(*b),
            None => None,
        }
    }
}

impl Default for CheckContext {
    fn default() -> (r: Self)
        ensures
            r.env@ == Map::<Seq<char>, Scheme>::empty(),
            r.mutability@ == Map::<Seq<char>, bool>::empty(),
            r.expected_return is None,
    {
        Self::new()
    }
}

/// Whether a sequence of variables is in strictly increasing order of number.
pub open spec fn strictly_sorted(s: Seq<TypeVarId>) -> bool {
    forall|i: int, j: int| 0 <= i < j < s.len() ==> (#[trigger] s[i]).0 < (#[trigger] s[j]).0
}

/// The inference context: the counter for fresh variables and the
/// constraints collected so far.
pub struct InferCtx {
    fresh_counter: u32,
    effect_counter: u32,
    constraints: Vec<Constraint>,
    depth: u32,
}

/// Most levels of nested expressions that inference descends into.
pub const MAX_INFER_DEPTH: u32 = 512;

impl InferCtx {
    /// The number of the next fresh variable.
    pub closed spec fn counter(&self) -> u32 {
        self.fresh_counter
    }

    /// The constraints collected so far, in order.
    pub closed spec fn collected(&self) -> Seq<Constraint> {
        self.constraints@
    }

    /// The number of the next fresh effect variable.
    pub closed spec fn effect_counter(&self) -> u32 {
        self.effect_counter
    }

    /// How many levels of nested expressions inference is inside.
    pub closed spec fn depth(&self) -> u32 {
        self.depth
    }

    /// A context with nothing collected.
    pub fn new() -> (r: Self)
        ensures
            r.counter() == 0,
            r.collected().len() == 0,
            r.depth() == 0,
            r.effect_counter() == 0,
    {
        InferCtx { fresh_counter: 0, effect_counter: 0, constraints: Vec::new(), depth: 0 }
    }

    /// A type variable not handed out before.
    pub fn fresh_var(&mut self) -> (r: Ty)
        requires
            old(self).counter() < u32::MAX,
        ensures
            r@ == TyM::Var(TypeVarId(old(self).counter())),
            final(self).counter() == old(self).counter() + 1,
            final(self).collected() == old(self).collected(),
            final(self).depth() == old(self).depth(),
            final(self).effect_counter() == old(self).effect_counter(),
    {
        let id = TypeVarId(self.fresh_counter);
        self.fresh_counter = self.fresh_counter + 1;
        Ty::Var(id)
    }

    /// Adds a constraint after those collected so far.
    pub fn add_constraint(&mut self, c: Constraint)
        ensures
            final(self).collected() == old(self).collected().push(c),
            final(self).counter() == old(self).counter(),
            final(self).depth() == old(self).depth(),
            final(self).effect_counter() == old(self).effect_counter(),
    {
        self.constraints.push(c);
    }

    /// Hands over the constraints collected so far, leaving none.
    pub fn take_constraints(&mut self) -> (r: Vec<Constraint>)
        ensures
            r@ == old(self).collected(),
            final(self).collected().len() == 0,
            final(self).counter() == old(self).counter(),
            final(self).depth() == old(self).depth(),
            final(self).effect_counter() == old(self).effect_counter(),
    {
        let mut out: Vec<Constraint> = Vec::new();
        std::mem::swap(&mut out, &mut self.constraints);
        out
    }

    /// The next fresh type variable, or `None` when every number is used up.
    pub(crate) fn try_fresh(&mut self) -> (r: Option<TypeVarId>)
        ensures
            old(self).counter() < u32::MAX ==> r == Some(TypeVarId(old(self).counter())) && final(self).counter()
                == old(self).counter() + 1,
            old(self).counter() == u32::MAX ==> r is None && final(self).counter() == old(self).counter(),
            final(self).collected() == old(self).collected(),
            final(self).depth() == old(self).depth(),
            final(self).effect_counter() == old(self).effect_counter(),
    {
        if self.fresh_counter == u32::MAX {
            return None;
        }
        let id = TypeVarId(self.fresh_counter);
        self.fresh_counter = self.fresh_counter + 1;
        Some(id)
    }

    /// The next fresh effect variable, or `None` when every number is used up.
    pub(crate) fn try_fresh_effect(&mut self) -> (r: Option<EffectVarId>)
        ensures
            old(self).effect_counter() < u32::MAX ==> r == Some(EffectVarId(old(self).effect_counter()))
                && final(self).effect_counter() == old(self).effect_counter() + 1,
            old(self).effect_counter() == u32::MAX ==> r is None && final(self).effect_counter() == old(
                self,
            ).effect_counter(),
            final(self).collected() == old(self).collected(),
            final(self).depth() == old(self).depth(),
            final(self).counter() == old(self).counter(),
    {
        if self.effect_counter == u32::MAX {
            return None;
        }
        let id = EffectVarId(self.effect_counter);
        self.effect_counter = self.effect_counter + 1;
        Some(id)
    }

    /// Enters one more level of nesting; `false`, with the level still
    /// counted, when that goes past `MAX_INFER_DEPTH`.
    pub(crate) fn enter_depth(&mut self) -> (r: bool)
        ensures
            final(self).depth() == (if old(self).depth() < u32::MAX { old(self).depth() + 1 } else { old(self).depth() as int }),
            r == (old(self).depth() < MAX_INFER_DEPTH),
            final(self).collected() == old(self).collected(),
            final(self).counter() == old(self).counter(),
            final(self).effect_counter() == old(self).effect_counter(),
    {
        self.depth = self.depth.saturating_add(1);
        self.depth <= MAX_INFER_DEPTH
    }

    /// Leaves one level of nesting.
    pub(crate) fn exit_depth(&mut self)
        ensures
            final(self).depth() == (if old(self).depth() > 0 { old(self).depth() - 1 } else { 0 }),
            final(self).collected() == old(self).collected(),
            final(self).counter() == old(self).counter(),
            final(self).effect_counter() == old(self).effect_counter(),
    {
        self.depth = self.depth.saturating_sub(1);
    }

    /// Generalizes a type into a scheme: the type variables of `ty` that are
    /// not among `env_vars` become bound, in increasing order of number.
    pub fn generalize(&self, ty: Ty, env_vars: &Vec<TypeVarId>) -> (r: Scheme)
        ensures
            r.type_vars@.to_set() == ty_vars(ty@).difference(env_vars@.to_set()),
            strictly_sorted(r.type_vars@),
            r.effect_vars@.len() == 0,
            r.ty == ty,
    {
        let fv = free_vars(&ty);
        let mut gen_vars: Vec<TypeVarId> = Vec::new();
        let mut i: usize = 0;
        assert(gen_vars@.to_set() =~= Set::empty());
        while i < fv.len()
            invariant
                i <= fv@.len(),
                fv@.no_duplicates(),
                fv@.to_set() == ty_vars(ty@),
                strictly_sorted(gen_vars@),
                gen_vars@.to_set() == fv@.take(i as int).to_set().difference(env_vars@.to_set()),
            decreases fv@.len() - i,
        {
            let v = fv[i];
            if !holds_var(env_vars, v) {
                proof {
                    assert(!fv@.take(i as int).contains(v)) by {
                        if fv@.take(i as int).contains(v) {
                            let k = choose|k: int| 0 <= k < i && fv@.take(i as int)[k] == v;
                            assert(fv@[k] == fv@[i as int]);
                        }
                    }
                    assert(!gen_vars@.to_set().contains(v));
                }
                insert_sorted(&mut gen_vars, v);
            }
            proof {
                assert(fv@.take(i + 1) =~= fv@.take(i as int).push(v));
                fv@.take(i as int).lemma_push_to_set_commute(v);
                assert(gen_vars@.to_set() =~= fv@.take(i + 1).to_set().difference(env_vars@.to_set()));
            }
            i = i + 1;
        }
        assert(fv@.take(fv@.len() as int) =~= fv@);
        Scheme { type_vars: gen_vars, effect_vars: Vec::new(), ty }
    }
}

/// Inserts a variable not yet present into a strictly sorted sequence, keeping it sorted.
fn insert_sorted(s: &mut Vec<TypeVarId>, v: TypeVarId)
    requires
        strictly_sorted(old(s)@),
        !old(s)@.to_set().contains(v),
    ensures
        strictly_sorted(final(s)@),
        final(s)@.to_set() == old(s)@.to_set().insert(v),
{
    let mut p: usize = 0;
    while p < s.len() && s[p].0 < v.0
        invariant
            p <= s@.len(),
            s@ == old(s)@,
            forall|j: int| 0 <= j < p ==> (#[trigger] s@[j]).0 < v.0,
        decreases s@.len() - p,
    {
        p = p + 1;
    }
    let ghost before = s@;
    proof {
        if p < before.len() {
            assert(before[p as int] != v) by {
                if before[p as int] == v {
                    assert(before.contains(v));
                }
            }
        }
    }
    s.insert(p, v);
    proof {
        assert(s@ == before.insert(p as int, v));
        assert forall|i: int, j: int| 0 <= i < j < s@.len() implies (#[trigger] s@[i]).0 < (#[trigger] s@[j]).0 by {
            if j < p {
                assert(s@[i] == before[i] && s@[j] == before[j]);
            } else if j == p {
                assert(s@[i] == before[i]);
            } else if i < p {
                assert(s@[i] == before[i] && s@[j] == before[j - 1]);
                assert(before[p as int].0 >= v.0);
                if j - 1 > p {
                    assert(before[p as int].0 < before[j - 1].0);
                }
            } else if i == p {
                assert(s@[j] == before[j - 1]);
                assert(before[p as int].0 >= v.0);
                assert(before[p as int].0 != v.0 || before[p as int] == v);
                if j - 1 > p {
                    assert(before[p as int].0 < before[j - 1].0);
                }
            } else {
                assert(s@[i] == before[i - 1] && s@[j] == before[j - 1]);
            }
        }
        assert forall|x: TypeVarId| #[trigger] s@.to_set().contains(x) <==> before.to_set().insert(v).contains(x) by {
            if s@.contains(x) {
                let k = choose|k: int| 0 <= k < s@.len() && s@[k] == x;
                if k < p {
                    assert(before[k] == x);
                } else if k > p {
                    assert(before[k - 1] == x);
                }
            }
            if before.contains(x) {
                let k = choose|k: int| 0 <= k < before.len() && before[k] == x;
                if k < p {
                    assert(s@[k] == x);
                } else {
                    assert(s@[k + 1] == x);
                }
            }
            if x == v {
                assert(s@[p as int] == v);
            }
        }
        assert(s@.to_set() =~= before.to_set().insert(v));
    }
}

impl Default for InferCtx {
    fn default() -> (r: Self)
        ensures
            r.counter() == 0,
            r.collected().len() == 0,
            r.depth() == 0,
            r.effect_counter() == 0,
    {
        Self::new()
    }
}

} // verus!
