//! Algebraic data type definitions and the registry of them.
use vstd::prelude::*;
use crate::assoc::{AssocMap, has_key};
use crate::effects::{cap_named, cap_type_text, CapKind};
use crate::text::{decimal, push_decimal};
use crate::ty::{Ty, TyM, TypeVarId, lemma_tys_view, lemma_tys_view_take, ty_view, tys_view};

verus! {

/// Definition of an algebraic data type: a struct or an enum.
#[derive(Debug)]
pub struct AdtDef {
    /// Name of the type, such as `Option`.
    pub name: String,
    /// Names of its type parameters, such as `T`.
    pub type_params: Vec<String>,
    /// Its fields or variants.
    pub kind: AdtKind,
}

/// A struct with named fields, or an enum with variants.
#[derive(Debug)]
pub enum AdtKind {
    Struct(Vec<FieldDef>),
    Enum(Vec<VariantDef>),
}

/// A named field of a struct.
#[derive(Debug)]
pub struct FieldDef {
    pub name: String,
    /// The field's type, which may mention the type parameters as `t0`, `t1`, ...
    pub ty: Ty,
}

/// A variant of an enum.
#[derive(Debug)]
pub struct VariantDef {
    pub name: String,
    pub fields: VariantFields,
}

/// The payload of an enum variant.
#[derive(Debug)]
pub enum VariantFields {
    /// No payload: `None`.
    Unit,
    /// Positional fields: `Some(T)`.
    Tuple(Vec<Ty>),
}

// ---------------------------------------------------------------------------
// Models
// ---------------------------------------------------------------------------

/// What a variant payload stands for.
pub enum VariantFieldsM {
    Unit,
    Tuple(Seq<TyM>),
}

/// What a variant stands for.
pub struct VariantM {
    pub name: Seq<char>,
    pub fields: VariantFieldsM,
}

/// What a type's body stands for.
pub enum AdtKindM {
    Struct(Seq<(Seq<char>, TyM)>),
    Enum(Seq<VariantM>),
}

/// What a type definition stands for.
pub struct AdtDefM {
    pub name: Seq<char>,
    pub type_params: Seq<Seq<char>>,
    pub kind: AdtKindM,
}

impl View for FieldDef {
    type V = (Seq<char>, TyM);

    open spec fn view(&self) -> (Seq<char>, TyM) {
        (self.name@, self.ty@)
    }
}

impl View for VariantFields {
    type V = VariantFieldsM;

    open spec fn view(&self) -> VariantFieldsM {
        match self {
            VariantFields::Unit => VariantFieldsM::Unit,
            VariantFields::Tuple(tys) => VariantFieldsM::Tuple(tys_view(tys@)),
        }
    }
}

impl View for VariantDef {
    type V = VariantM;

    open spec fn view(&self) -> VariantM {
        VariantM { name: self.name@, fields: self.fields@ }
    }
}

/// The models of a sequence of fields.
pub open spec fn fields_view(s: Seq<FieldDef>) -> Seq<(Seq<char>, TyM)> {
    s.map_values(|f: FieldDef| f@)
}

/// The models of a sequence of variants.
pub open spec fn variants_view(s: Seq<VariantDef>) -> Seq<VariantM> {
    s.map_values(|v: VariantDef| v@)
}

/// The texts of a sequence of strings.
pub open spec fn strings_view(s: Seq<String>) -> Seq<Seq<char>> {
    s.map_values(|x: String| x@)
}

impl View for AdtKind {
    type V = AdtKindM;

    open spec fn view(&self) -> AdtKindM {
        match self {
            AdtKind::Struct(fs) => AdtKindM::Struct(fields_view(fs@)),
            AdtKind::Enum(vs) => AdtKindM::Enum(variants_view(vs@)),
        }
    }
}

impl View for AdtDef {
    type V = AdtDefM;

    open spec fn view(&self) -> AdtDefM {
        AdtDefM { name: self.name@, type_params: strings_view(self.type_params@), kind: self.kind@ }
    }
}

/// A copy of a sequence of strings.
pub fn copy_strings(s: &Vec<String>) -> (r: Vec<String>)
    ensures
        strings_view(r@) == strings_view(s@),
{
    let mut out: Vec<String> = Vec::new();
    let mut i: usize = 0;
    while i < s.len()
        invariant
            i <= s@.len(),
            out@.len() == i,
            forall|j: int| 0 <= j < i ==> #[trigger] out@[j]@ == s@[j]@,
        decreases s@.len() - i,
    {
        out.push(s[i].clone());
        i = i + 1;
    }
    assert(strings_view(out@) =~= strings_view(s@));
    out
}

impl FieldDef {
    /// A copy of this field.
    pub fn copy(&self) -> (r: FieldDef)
        ensures
            r@ == self@,
    {
        FieldDef { name: self.name.clone(), ty: self.ty.copy() }
    }
}

impl VariantDef {
    /// A copy of this variant.
    pub fn copy(&self) -> (r: VariantDef)
        ensures
            r@ == self@,
    {
        let fields = match &self.fields {
            VariantFields::Unit => VariantFields::Unit,
            VariantFields::Tuple(tys) => VariantFields::Tuple(crate::ty::copy_tys(tys)),
        };
        VariantDef { name: self.name.clone(), fields }
    }

    /// A variant without payload.
    pub fn unit(name: &str) -> (r: Self)
        ensures
            r@ == (VariantM { name: name@, fields: VariantFieldsM::Unit }),
    {
        VariantDef { name: name.to_owned(), fields: VariantFields::Unit }
    }

    /// A variant with positional fields.
    pub fn tuple(name: &str, fields: Vec<Ty>) -> (r: Self)
        ensures
            r@ == (VariantM { name: name@, fields: VariantFieldsM::Tuple(tys_view(fields@)) }),
    {
        VariantDef { name: name.to_owned(), fields: VariantFields::Tuple(fields) }
    }

    /// The number of fields of the variant.
    pub fn arity(&self) -> (r: usize)
        ensures
            r == match self@.fields {
                VariantFieldsM::Unit => 0,
                VariantFieldsM::Tuple(tys) => tys.len(),
            },
    {
        match &self.fields {
            VariantFields::Unit => 0,
            VariantFields::Tuple(tys) => {
                proof {
                    lemma_tys_view(tys@);
                }
                tys.len()
            },
        }
    }
}

impl AdtDef {
    /// A copy of this definition.
    pub fn copy(&self) -> (r: AdtDef)
        ensures
            r@ == self@,
    {
        let kind = match &self.kind {
            AdtKind::Struct(fs) => {
                let mut out: Vec<FieldDef> = Vec::new();
                let mut i: usize = 0;
                while i < fs.len()
                    invariant
                        i <= fs@.len(),
                        out@.len() == i,
                        forall|j: int| 0 <= j < i ==> #[trigger] out@[j]@ == fs@[j]@,
                    decreases fs@.len() - i,
                {
                    out.push(fs[i].copy());
                    i = i + 1;
                }
                assert(fields_view(out@) =~= fields_view(fs@));
                AdtKind::Struct(out)
            },
            AdtKind::Enum(vs) => {
                let mut out: Vec<VariantDef> = Vec::new();
                let mut i: usize = 0;
                while i < vs.len()
                    invariant
                        i <= vs@.len(),
                        out@.len() == i,
                        forall|j: int| 0 <= j < i ==> #[trigger] out@[j]@ == vs@[j]@,
                    decreases vs@.len() - i,
                {
                    out.push(vs[i].copy());
                    i = i + 1;
                }
                assert(variants_view(out@) =~= variants_view(vs@));
                AdtKind::Enum(out)
            },
        };
        AdtDef { name: self.name.clone(), type_params: copy_strings(&self.type_params), kind }
    }

    /// A struct definition.
    pub fn new_struct(name: &str, type_params: Vec<String>, fields: Vec<FieldDef>) -> (r: Self)
        ensures
            r@ == (AdtDefM {
                name: name@,
                type_params: strings_view(type_params@),
                kind: AdtKindM::Struct(fields_view(fields@)),
            }),
    {
        AdtDef { name: name.to_owned(), type_params, kind: AdtKind::Struct(fields) }
    }

    /// An enum definition.
    pub fn new_enum(name: &str, type_params: Vec<String>, variants: Vec<VariantDef>) -> (r: Self)
        ensures
            r@ == (AdtDefM {
                name: name@,
                type_params: strings_view(type_params@),
                kind: AdtKindM::Enum(variants_view(variants@)),
            }),
    {
        AdtDef { name: name.to_owned(), type_params, kind: AdtKind::Enum(variants) }
    }

    /// The number of type parameters.
    pub fn arity(&self) -> (r: usize)
        ensures
            r == self@.type_params.len(),
    {
        self.type_params.len()
    }

    /// Whether this is a struct.
    pub fn is_struct(&self) -> (r: bool)
        ensures
            r == self@.kind is Struct,
    {
        match self.kind {
            AdtKind::Struct(_) => true,
            AdtKind::Enum(_) => false,
        }
    }

    /// Whether this is an enum.
    pub fn is_enum(&self) -> (r: bool)
        ensures
            r == self@.kind is Enum,
    {
        match self.kind {
            AdtKind::Struct(_) => false,
            AdtKind::Enum(_) => true,
        }
    }

    /// The fields, if this is a struct.
    pub fn fields(&self) -> (r: Option<&[FieldDef]>)
        ensures
            match self@.kind {
                AdtKindM::Struct(fs) => r matches Some(s) && fields_view(s@) == fs,
                AdtKindM::Enum(_) => r is None,
            },
    {
        match &self.kind {
            AdtKind::Struct(fields) => Some(fields.as_slice()),
            AdtKind::Enum(_) => None,
        }
    }

    /// The variants, if this is an enum.
    pub fn variants(&self) -> (r: Option<&[VariantDef]>)
        ensures
            match self@.kind {
                AdtKindM::Struct(_) => r is None,
                AdtKindM::Enum(vs) => r matches Some(s) && variants_view(s@) == vs,
            },
    {
        match &self.kind {
            AdtKind::Struct(_) => None,
            AdtKind::Enum(variants) => Some(variants.as_slice()),
        }
    }

    /// The first variant called `name`, if this is an enum that has one.
    pub fn find_variant(&self, name: &str) -> (r: Option<&VariantDef>)
        ensures
            match self@.kind {
                AdtKindM::Struct(_) => r is None,
                AdtKindM::Enum(vs) => match r {
                    Some(v) => exists|i: int| 0 <= i < vs.len() && vs[i] == v@ && v.name@ == name@
                        && forall|j: int| 0 <= j < i ==> #[trigger] vs[j].name != name@,
                    None => forall|i: int| 0 <= i < vs.len() ==> #[trigger] vs[i].name != name@,
                },
            },
    {
        let vs = match self.variants() {
            Some(vs) => vs,
            None => {
                return None;
            },
        };
        let mut i: usize = 0;
        while i < vs.len()
            invariant
                i <= vs@.len(),
                self@.kind == AdtKindM::Enum(variants_view(vs@)),
                forall|j: int| 0 <= j < i ==> #[trigger] vs@[j].name@ != name@,
            decreases vs@.len() - i,
        {
            if crate::text::str_equals(vs[i].name.as_str(), name) {
                proof {
                    assert forall|j: int| 0 <= j < i implies #[trigger] variants_view(vs@)[j].name != name@ by {
                        assert(variants_view(vs@)[j] == vs@[j]@);
                    }
                    assert(variants_view(vs@)[i as int] == vs@[i as int]@);
                }
                return Some(&vs[i]);
            }
            i = i + 1;
        }
        proof {
            assert forall|j: int| 0 <= j < vs@.len() implies #[trigger] variants_view(vs@)[j].name != name@ by {
                assert(variants_view(vs@)[j] == vs@[j]@);
            }
        }
        None
    }
}

// ---------------------------------------------------------------------------
// The registry
// ---------------------------------------------------------------------------

/// The name of the built-in tuple type of `n` elements, such as `Tuple2`.
pub open spec fn tuple_name(n: nat) -> Seq<char> {
    "Tuple"@ + decimal(n)
}

/// The built-in tuple type of `n` elements: a struct with parameters
/// `T0`, `T1`, ... and fields `_0`, `_1`, ... of those types.
pub open spec fn builtin_tuple(n: nat) -> AdtDefM {
    AdtDefM {
        name: tuple_name(n),
        type_params: Seq::new(n, |i: int| seq!['T'] + decimal(i as nat)),
        kind: AdtKindM::Struct(
            Seq::new(n, |i: int| (seq!['_'] + decimal(i as nat), TyM::Var(TypeVarId(i as u32)))),
        ),
    }
}

/// Whether `k` names a built-in tuple type.
pub open spec fn is_builtin_name(k: Seq<char>) -> bool {
    exists|n: nat| 2 <= n <= 8 && k == tuple_name(n)
}

/// Registry of type definitions, by name.
pub struct AdtRegistry {
    adts: AssocMap<String, AdtDef>,
}

impl View for AdtRegistry {
    type V = Map<Seq<char>, AdtDefM>;

    closed spec fn view(&self) -> Map<Seq<char>, AdtDefM> {
        Map::new(|k: Seq<char>| self.adts@.contains_key(k), |k: Seq<char>| self.adts@[k]@)
    }
}

/// The message of a refused duplicate registration.
pub open spec fn duplicate_message(name: Seq<char>) -> Seq<char> {
    "Duplicate type definition: "@ + name
}

impl AdtRegistry {
    /// An empty registry.
    pub fn new() -> (r: Self)
        ensures
            r@ == Map::<Seq<char>, AdtDefM>::empty(),
    {
        let r = AdtRegistry { adts: AssocMap::new() };
        assert(r@ =~= Map::<Seq<char>, AdtDefM>::empty());
        r
    }

    /// A registry holding the built-in tuple types `Tuple2` to `Tuple8`.
    pub fn with_builtins() -> (r: Self)
        ensures
            forall|k: Seq<char>| #[trigger] r@.contains_key(k) <==> is_builtin_name(k),
            forall|n: nat| 2 <= n <= 8 ==> #[trigger] r@[tuple_name(n)] == builtin_tuple(n),
    {
        let mut reg = Self::new();
        reg.register_builtins();
        reg
    }

    /// Registers the built-in tuple types into an empty registry.
    fn register_builtins(&mut self)
        requires
            old(self)@ == Map::<Seq<char>, AdtDefM>::empty(),
        ensures
            forall|k: Seq<char>| #[trigger] final(self)@.contains_key(k) <==> is_builtin_name(k),
            forall|n: nat| 2 <= n <= 8 ==> #[trigger] final(self)@[tuple_name(n)] == builtin_tuple(n),
    {
        let mut n: u32 = 2;
        while n <= 8
            invariant
                2 <= n <= 9,
                forall|k: Seq<char>| #[trigger] self@.contains_key(k) <==> exists|m: nat| 2 <= m < n && k == tuple_name(m),
                forall|m: nat| 2 <= m < n ==> #[trigger] self@[tuple_name(m)] == builtin_tuple(m),
            decreases 9 - n,
        {
            let mut name = String::new();
            name.append("Tuple");
            push_decimal(&mut name, n as u64);
            let mut type_params: Vec<String> = Vec::new();
            let mut fields: Vec<FieldDef> = Vec::new();
            let mut i: u32 = 0;
            while i < n
                invariant
                    i <= n <= 8,
                    type_params@.len() == i,
                    fields@.len() == i,
                    forall|j: int| 0 <= j < i ==> #[trigger] type_params@[j]@ == seq!['T'] + decimal(j as nat),
                    forall|j: int| 0 <= j < i ==> #[trigger] fields@[j]@ == (seq!['_'] + decimal(j as nat), TyM::Var(TypeVarId(j as u32))),
                decreases n - i,
            {
                let mut p = String::new();
                p.append("T");
                push_decimal(&mut p, i as u64);
                let mut f = String::new();
                f.append("_");
                push_decimal(&mut f, i as u64);
                proof {
                    reveal_strlit("T");
                    reveal_strlit("_");
                }
                type_params.push(p);
                fields.push(FieldDef { name: f, ty: Ty::Var(TypeVarId(i)) });
                i = i + 1;
            }
            proof {
                reveal_strlit("Tuple");
            }
            let def = AdtDef::new_struct(name.as_str(), type_params, fields);
            proof {
                assert(def@.type_params =~= builtin_tuple(n as nat).type_params);
                assert(fields_view(fields@) =~= Seq::new(n as nat, |i: int| (seq!['_'] + decimal(i as nat), TyM::Var(TypeVarId(i as u32)))));
                assert(def@ == builtin_tuple(n as nat));
                assert forall|m: nat| 2 <= m < n implies tuple_name(m) != tuple_name(n as nat) by {
                    lemma_tuple_names_differ(m, n as nat);
                }
            }
            let _ = self.register(def);
            proof {
                assert forall|k: Seq<char>| #[trigger] self@.contains_key(k) <==> exists|m: nat| 2 <= m < n + 1 && k == tuple_name(m) by {
                    if k == tuple_name(n as nat) {
                        assert(self@.contains_key(k));
                    }
                }
                assert forall|m: nat| 2 <= m < n + 1 implies #[trigger] self@[tuple_name(m)] == builtin_tuple(m) by {
                    if m < n {
                        lemma_tuple_names_differ(m, n as nat);
                    }
                }
            }
            n = n + 1;
        }
    }

    /// Registers a definition under its name, unless one is already there.
    pub fn register(&mut self, def: AdtDef) -> (r: Result<(), String>)
        ensures
            old(self)@.contains_key(def.name@) ==> final(self)@ == old(self)@ && (r matches Err(msg)
                && msg@ == duplicate_message(def.name@)),
            !old(self)@.contains_key(def.name@) ==> final(self)@ == old(self)@.insert(def.name@, def@)
                && r is Ok,
    {
        if self.adts.contains_key(&def.name) {
            let mut msg = String::new();
            msg.append("Duplicate type definition: ");
            msg.append(def.name.as_str());
            proof {
                reveal_strlit("Duplicate type definition: ");
            }
            return Err(msg);
        }
        let ghost dv = def@;
        let ghost key = def.name@;
        let k = def.name.clone();
        self.adts.insert(k, def);
        assert(self@ =~= old(self)@.insert(key, dv));
        Ok(())
    }

    /// The definition called `name`, if any.
    pub fn get(&self, name: &str) -> (r: Option<&AdtDef>)
        ensures
            r is Some <==> self@.contains_key(name@),
            r matches Some(d) ==> d@ == self@[name@],
    {
        let key = name.to_owned();
        self.adts.get(&key)
    }

    /// Whether a definition called `name` is registered.
    pub fn contains(&self, name: &str) -> (r: bool)
        ensures
            r == self@.contains_key(name@),
    {
        let key = name.to_owned();
        self.adts.contains_key(&key)
    }

    /// The number of registered definitions.
    pub fn len(&self) -> (r: usize)
        ensures
            r == self@.dom().len(),
    {
        let r = self.adts.len();
        assert(self@.dom() =~= self.adts@.dom());
        r
    }

    /// Whether nothing is registered.
    pub fn is_empty(&self) -> (r: bool)
        ensures
            r == (self@.dom().len() == 0),
    {
        self.len() == 0
    }

    /// The names of the registered definitions, in the order they were registered.
    pub fn names(&self) -> (r: Vec<String>)
        ensures
            r@.len() == self@.dom().len(),
            forall|i: int| 0 <= i < r@.len() ==> #[trigger] self@.contains_key(r@[i]@),
            forall|k: Seq<char>| #[trigger] self@.contains_key(k) ==> exists|i: int| 0 <= i < r@.len() && r@[i]@ == k,
    {
        let n = self.adts.len();
        let mut out: Vec<String> = Vec::new();
        let mut i: usize = 0;
        while i < n
            invariant
                n == self.adts.entries().len(),
                n == self.adts@.dom().len(),
                i <= n,
                out@.len() == i,
                forall|j: int| 0 <= j < n ==> #[trigger] self.adts@.contains_key(self.adts.entries()[j].0@),
                forall|j: int| 0 <= j < i ==> #[trigger] out@[j]@ == self.adts.entries()[j].0@,
                forall|k: Seq<char>| #[trigger] self.adts@.contains_key(k) ==> has_key(self.adts.entries(), k),
            decreases n - i,
        {
            let (k, _) = self.adts.entry(i);
            out.push(k.clone());
            i = i + 1;
        }
        assert(self@.dom() =~= self.adts@.dom());
        assert forall|k: Seq<char>| #[trigger] self@.contains_key(k) implies exists|i: int| 0 <= i < out@.len() && out@[i]@ == k by {
            assert(has_key(self.adts.entries(), k));
            let j = choose|j: int| 0 <= j < self.adts.entries().len() && #[trigger] self.adts.entries()[j].0@ == k;
            assert(out@[j]@ == k);
        }
        out
    }
}

/// Built-in tuple names of different sizes differ.
proof fn lemma_tuple_names_differ(m: nat, n: nat)
    requires
        m < n < 10,
    ensures
        tuple_name(m) != tuple_name(n),
{
    reveal_strlit("Tuple");
    assert(tuple_name(m)[5] == crate::text::digit_char(m));
    assert(tuple_name(n)[5] == crate::text::digit_char(n));
}

// ---------------------------------------------------------------------------
// Capabilities inside types
// ---------------------------------------------------------------------------

/// Whether a type name is that of a capability type.
pub fn is_capability_type(name: &str) -> (r: bool)
    ensures
        r == cap_named(name@) is Some,
{
    CapKind::from_name(name).is_some()
}

/// Whether a capability type occurs anywhere in a type.
pub open spec fn has_cap(t: TyM) -> bool
    decreases t,
{
    match t {
        TyM::Cap(_) => true,
        TyM::Adt(name, args) => cap_named(name) is Some || tys_have_cap(args),
        TyM::Arrow(ps, r, _) => tys_have_cap(ps) || has_cap(*r),
        TyM::Tuple(xs) => tys_have_cap(xs),
        TyM::List(x) => has_cap(*x),
        _ => false,
    }
}

/// Whether a capability type occurs in some type of a sequence.
pub open spec fn tys_have_cap(s: Seq<TyM>) -> bool
    decreases s,
{
    if s.len() == 0 {
        false
    } else {
        tys_have_cap(s.drop_last()) || has_cap(s.last())
    }
}

/// The name of the first capability type met, left to right and outside in.
pub open spec fn first_cap_name(t: TyM) -> Option<Seq<char>>
    decreases t,
{
    match t {
        TyM::Cap(k) => Some(cap_type_text(k)),
        TyM::Adt(name, args) => if cap_named(name) is Some {
            Some(name)
        } else {
            tys_first_cap_name(args)
        },
        TyM::Arrow(ps, r, _) => match tys_first_cap_name(ps) {
            Some(n) => Some(n),
            None => first_cap_name(*r),
        },
        TyM::Tuple(xs) => tys_first_cap_name(xs),
        TyM::List(x) => first_cap_name(*x),
        _ => None,
    }
}

/// The name of the first capability type met in a sequence of types.
pub open spec fn tys_first_cap_name(s: Seq<TyM>) -> Option<Seq<char>>
    decreases s,
{
    if s.len() == 0 {
        None
    } else {
        match tys_first_cap_name(s.drop_last()) {
            Some(n) => Some(n),
            None => first_cap_name(s.last()),
        }
    }
}

/// A type names a first capability exactly when it holds one.
pub proof fn lemma_first_cap_iff_has_cap(t: TyM)
    ensures
        first_cap_name(t) is Some <==> has_cap(t),
    decreases t,
{
    match t {
        TyM::Adt(_, args) => {
            lemma_tys_first_cap_iff_have_cap(args);
        },
        TyM::Arrow(ps, r, _) => {
            lemma_tys_first_cap_iff_have_cap(ps);
            lemma_first_cap_iff_has_cap(*r);
        },
        TyM::Tuple(xs) => {
            lemma_tys_first_cap_iff_have_cap(xs);
        },
        TyM::List(x) => {
            lemma_first_cap_iff_has_cap(*x);
        },
        _ => {},
    }
}

/// A sequence of types names a first capability exactly when one of them
/// holds one.
pub proof fn lemma_tys_first_cap_iff_have_cap(s: Seq<TyM>)
    ensures
        tys_first_cap_name(s) is Some <==> tys_have_cap(s),
    decreases s,
{
    if s.len() > 0 {
        lemma_tys_first_cap_iff_have_cap(s.drop_last());
        lemma_first_cap_iff_has_cap(s.last());
    }
}

/// The name of a capability type is the name of one.
proof fn lemma_cap_text_named(k: CapKind)
    ensures
        cap_named(cap_type_text(k)) == Some(k),
{
    reveal_strlit("FsCap");
    reveal_strlit("NetCap");
    reveal_strlit("TimeCap");
    reveal_strlit("RandCap");
    reveal_strlit("AiCap");
    assert("NetCap"@ != "FsCap"@ && "TimeCap"@ != "FsCap"@ && "RandCap"@ != "FsCap"@ && "AiCap"@ != "FsCap"@) by {
        assert("NetCap"@.len() != "FsCap"@.len());
        assert("TimeCap"@.len() != "FsCap"@.len());
        assert("RandCap"@.len() != "FsCap"@.len());
        assert("AiCap"@[0] != "FsCap"@[0]);
    }
    assert("TimeCap"@ != "NetCap"@ && "RandCap"@ != "NetCap"@ && "AiCap"@ != "NetCap"@) by {
        assert("TimeCap"@.len() != "NetCap"@.len());
        assert("RandCap"@.len() != "NetCap"@.len());
        assert("AiCap"@.len() != "NetCap"@.len());
    }
    assert("RandCap"@ != "TimeCap"@ && "AiCap"@ != "TimeCap"@) by {
        assert("RandCap"@[0] != "TimeCap"@[0]);
        assert("AiCap"@.len() != "TimeCap"@.len());
    }
    assert("AiCap"@ != "RandCap"@) by {
        assert("AiCap"@.len() != "RandCap"@.len());
    }
}

/// The first capability a type names is always a capability type's name.
pub proof fn lemma_first_cap_is_cap_name(t: TyM)
    ensures
        first_cap_name(t) matches Some(n) ==> cap_named(n) is Some,
    decreases t,
{
    match t {
        TyM::Cap(k) => {
            lemma_cap_text_named(k);
        },
        TyM::Adt(_, args) => {
            lemma_tys_first_cap_is_cap_name(args);
        },
        TyM::Arrow(ps, r, _) => {
            lemma_tys_first_cap_is_cap_name(ps);
            lemma_first_cap_is_cap_name(*r);
        },
        TyM::Tuple(xs) => {
            lemma_tys_first_cap_is_cap_name(xs);
        },
        TyM::List(x) => {
            lemma_first_cap_is_cap_name(*x);
        },
        _ => {},
    }
}

/// The first capability a sequence of types names is a capability type's
/// name.
pub proof fn lemma_tys_first_cap_is_cap_name(s: Seq<TyM>)
    ensures
        tys_first_cap_name(s) matches Some(n) ==> cap_named(n) is Some,
    decreases s,
{
    if s.len() > 0 {
        lemma_tys_first_cap_is_cap_name(s.drop_last());
        lemma_first_cap_is_cap_name(s.last());
    }
}

/// Once a prefix holds a capability, the whole sequence does.
proof fn lemma_cap_prefix(s: Seq<TyM>, k: int)
    requires
        0 <= k <= s.len(),
        tys_have_cap(s.take(k)),
    ensures
        tys_have_cap(s),
    decreases s.len() - k,
{
    if k == s.len() {
        assert(s.take(k) =~= s);
    } else {
        assert(s.take(k + 1).drop_last() =~= s.take(k));
        lemma_cap_prefix(s, k + 1);
    }
}

/// Once a prefix names a capability, the whole sequence names the same one.
proof fn lemma_cap_name_prefix(s: Seq<TyM>, k: int, n: Seq<char>)
    requires
        0 <= k <= s.len(),
        tys_first_cap_name(s.take(k)) == Some(n),
    ensures
        tys_first_cap_name(s) == Some(n),
    decreases s.len() - k,
{
    if k == s.len() {
        assert(s.take(k) =~= s);
    } else {
        assert(s.take(k + 1).drop_last() =~= s.take(k));
        lemma_cap_name_prefix(s, k + 1, n);
    }
}

/// Whether a capability type occurs in any type of a sequence.
fn any_contains_capability(s: &Vec<Ty>) -> (r: bool)
    ensures
        r == tys_have_cap(tys_view(s@)),
    decreases s,
{
    let mut i: usize = 0;
    while i < s.len()
        invariant
            i <= s@.len(),
            !tys_have_cap(tys_view(s@.take(i as int))),
        decreases s@.len() - i,
    {
        assert(decreases_to!(s => s@[i as int]));
        proof {
            lemma_tys_view_take(s@, i as int);
            assert(tys_view(s@.take(i as int)).push(ty_view(s@[i as int])).drop_last() =~= tys_view(s@.take(i as int)));
        }
        if contains_capability(&s[i]) {
            proof {
                lemma_tys_view(s@);
                assert(tys_view(s@.take(i + 1)) =~= tys_view(s@).take(i + 1)) by {
                    lemma_tys_view(s@.take(i + 1));
                }
                lemma_cap_prefix(tys_view(s@), i + 1);
            }
            return true;
        }
        i = i + 1;
    }
    assert(s@.take(s@.len() as int) =~= s@);
    false
}

/// Whether a capability type occurs anywhere in a type.
pub fn contains_capability(ty: &Ty) -> (r: bool)
    ensures
        r == has_cap(ty@),
    decreases ty,
{
    match ty {
        Ty::Const(_) | Ty::Var(_) | Ty::Never => false,
        Ty::Cap(_) => true,
        Ty::Adt { name, args } => is_capability_type(name.as_str()) || any_contains_capability(args),
        Ty::Arrow(params, ret, _) => any_contains_capability(params) || contains_capability(ret),
        Ty::Tuple(tys) => any_contains_capability(tys),
        Ty::List(t) => contains_capability(t),
    }
}

/// The name of the first capability type in a sequence of types.
fn first_capability_name(s: &Vec<Ty>) -> (r: Option<String>)
    ensures
        r matches Some(n) ==> tys_first_cap_name(tys_view(s@)) == Some(n@),
        r is None ==> tys_first_cap_name(tys_view(s@)) is None,
    decreases s,
{
    let mut i: usize = 0;
    while i < s.len()
        invariant
            i <= s@.len(),
            tys_first_cap_name(tys_view(s@.take(i as int))) is None,
        decreases s@.len() - i,
    {
        assert(decreases_to!(s => s@[i as int]));
        proof {
            lemma_tys_view_take(s@, i as int);
            assert(tys_view(s@.take(i as int)).push(ty_view(s@[i as int])).drop_last() =~= tys_view(s@.take(i as int)));
        }
        match find_capability_name(&s[i]) {
            Some(n) => {
                proof {
                    lemma_tys_view(s@);
                    assert(tys_view(s@.take(i + 1)) =~= tys_view(s@).take(i + 1)) by {
                        lemma_tys_view(s@.take(i + 1));
                    }
                    lemma_cap_name_prefix(tys_view(s@), i + 1, n@);
                }
                return Some(n);
            },
            None => {},
        }
        i = i + 1;
    }
    assert(s@.take(s@.len() as int) =~= s@);
    None
}

/// The name of the first capability type in a type, if any.
pub fn find_capability_name(ty: &Ty) -> (r: Option<String>)
    ensures
        r matches Some(n) ==> first_cap_name(ty@) == Some(n@),
        r is None ==> first_cap_name(ty@) is None,
    decreases ty,
{
    match ty {
        Ty::Cap(kind) => Some(kind.type_name_str().to_owned()),
        Ty::Adt { name, args } => {
            if is_capability_type(name.as_str()) {
                Some(name.clone())
            } else {
                first_capability_name(args)
            }
        },
        Ty::Arrow(params, ret, _) => match first_capability_name(params) {
            Some(n) => Some(n),
            None => find_capability_name(ret),
        },
        Ty::Tuple(tys) => first_capability_name(tys),
        Ty::List(t) => find_capability_name(t),
        Ty::Const(_) | Ty::Var(_) | Ty::Never => None,
    }
}

} // verus!
