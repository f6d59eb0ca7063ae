//! A simple typing context: fresh type variables and named types.
use vstd::prelude::*;
use crate::assoc::AssocMap;
use crate::ty::{Ty, TyM, TypeVarId};

verus! {

/// Typing context: a counter for fresh variables and an environment.
pub struct TypeCtx {
    next_id: u32,
    env: AssocMap<String, Ty>,
}

impl TypeCtx {
    /// The number of the next fresh variable.
    pub closed spec fn next(&self) -> u32 {
        self.next_id
    }

    /// The types registered by name.
    pub closed spec fn env(&self) -> Map<Seq<char>, TyM> {
        Map::new(|k: Seq<char>| self.env@.contains_key(k), |k: Seq<char>| self.env@[k]@)
    }

    /// An empty context.
    pub fn new() -> (r: Self)
        ensures
            r.next() == 0,
            r.env() == Map::<Seq<char>, TyM>::empty(),
    {
        let r = TypeCtx { next_id: 0, env: AssocMap::new() };
        assert(r.env() =~= Map::<Seq<char>, TyM>::empty());
        r
    }

    /// A type variable not handed out before.
    pub fn fresh_var(&mut self) -> (r: Ty)
        requires
            old(self).next() < u32::MAX,
        ensures
            r@ == TyM::Var(TypeVarId(old(self).next())),
            final(self).next() == old(self).next() + 1,
            final(self).env() == old(self).env(),
    {
        let id = TypeVarId(self.next_id);
        self.next_id = self.next_id + 1;
        Ty::var(id)
    }

    /// Registers a type under a name, replacing any earlier one.
    pub fn register(&mut self, name: &str, ty: Ty)
        ensures
            final(self).next() == old(self).next(),
            final(self).env() == old(self).env().insert(name@, ty@),
    {
        let ghost tv = ty@;
        self.env.insert(name.to_owned(), ty);
        assert(self.env() =~= old(self).env().insert(name@, tv));
    }

    /// The type registered under a name, if any.
    pub fn lookup(&self, name: &str) -> (r: Option<&Ty>)
        ensures
            r is Some <==> self.env().contains_key(name@),
            r matches Some(t) ==> t@ == self.env()[name@],
    {
        let key = name.to_owned();
        self.env.get(&key)
    }
}

impl Default for TypeCtx {
    fn default() -> (r: Self)
        ensures
            r.next() == 0,
            r.env() == Map::<Seq<char>, TyM>::empty(),
    {
        Self::new()
    }
}

} // verus!
