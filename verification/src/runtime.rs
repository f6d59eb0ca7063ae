//! What running a module takes from its declarations: the parameter metadata
//! of extern functions, the capabilities that `main` is handed, and the check
//! that a pattern binds each name once.
use vstd::prelude::*;
use crate::ast::{ExternFnDecl, FnDecl, Param, TypeExpr};
use crate::effects::{CapKind, cap_named};
use crate::host::{ExternFnMeta, ParamKind};
use crate::text::str_equals;

verus! {

/// The capability kind that a parameter's annotation names: a path of one
/// segment that is the type name of a capability, such as `FsCap`.
pub open spec fn cap_annotation(ty: Option<TypeExpr>) -> Option<CapKind> {
    match ty {
        Some(TypeExpr::Path(segs, _)) => if segs@.len() == 1 {
            cap_named(segs@[0].text@)
        } else {
            None
        },
        _ => None,
    }
}

/// The capability kind that an annotation names, if it names one.
pub fn annotated_cap(ty: &Option<TypeExpr>) -> (r: Option<CapKind>)
    ensures
        r == cap_annotation(*ty),
{
    match ty {
        Some(TypeExpr::Path(segs, _)) => {
            if segs.len() == 1 {
                CapKind::from_name(segs[0].text.as_str())
            } else {
                None
            }
        },
        _ => None,
    }
}

/// The metadata of one extern parameter: a consumed capability when its
/// annotation names one, else a datum under the parameter's name.
pub open spec fn param_meta(p: Param) -> ParamKind {
    match cap_annotation(p.ty) {
        Some(kind) => ParamKind::Cap { kind, borrowed: false },
        None => ParamKind::Data { name: p.name.text },
    }
}

/// The parameter metadata of an extern function, one entry per parameter in
/// order.
pub fn extern_fn_meta(decl: &ExternFnDecl) -> (r: ExternFnMeta)
    ensures
        r.params@.len() == decl.params@.len(),
        forall|i: int| 0 <= i < decl.params@.len() ==> #[trigger] r.params@[i] == param_meta(decl.params@[i]),
{
    let mut params: Vec<ParamKind> = Vec::new();
    let mut i: usize = 0;
    while i < decl.params.len()
        invariant
            i <= decl.params@.len(),
            params@.len() == i,
            forall|j: int| 0 <= j < i ==> #[trigger] params@[j] == param_meta(decl.params@[j]),
        decreases decl.params@.len() - i,
    {
        let p = &decl.params[i];
        match annotated_cap(&p.ty) {
            Some(kind) => params.push(ParamKind::Cap { kind, borrowed: false }),
            None => params.push(ParamKind::Data { name: p.name.text.clone() }),
        }
        i = i + 1;
    }
    ExternFnMeta { params }
}

/// The capability kinds that parameters' annotations name, in order; the
/// other parameters contribute nothing.
pub open spec fn caps_of(params: Seq<Param>) -> Seq<CapKind>
    decreases params.len(),
{
    if params.len() == 0 {
        Seq::empty()
    } else {
        let rest = caps_of(params.drop_last());
        match cap_annotation(params.last().ty) {
            Some(kind) => rest.push(kind),
            None => rest,
        }
    }
}

/// The capabilities that `main` is called with: one for each of its
/// parameters whose annotation names a capability, in order.
pub fn main_cap_args(decl: &FnDecl) -> (r: Vec<CapKind>)
    ensures
        r@ == caps_of(decl.params@),
{
    let mut out: Vec<CapKind> = Vec::new();
    let mut i: usize = 0;
    while i < decl.params.len()
        invariant
            i <= decl.params@.len(),
            out@ == caps_of(decl.params@.take(i as int)),
        decreases decl.params@.len() - i,
    {
        proof {
            assert(decl.params@.take(i + 1).drop_last() =~= decl.params@.take(i as int));
        }
        match annotated_cap(&decl.params[i].ty) {
            Some(kind) => out.push(kind),
            None => {},
        }
        i = i + 1;
    }
    assert(decl.params@.take(decl.params@.len() as int) =~= decl.params@);
    out
}

/// The names at positions before `j` are pairwise distinct.
pub open spec fn distinct_before(names: Seq<Seq<char>>, j: int) -> bool {
    forall|a: int, b: int| 0 <= a < b < j ==> names[a] != names[b]
}

/// The views of a list of names.
pub open spec fn name_views(names: Seq<String>) -> Seq<Seq<char>> {
    names.map_values(|s: String| s@)
}

/// The first name that a list repeats: the name at the first position whose
/// name occurred earlier; `None` when all names are distinct.
pub fn first_duplicate(names: &Vec<String>) -> (r: Option<String>)
    ensures
        r is None <==> distinct_before(name_views(names@), names@.len() as int),
        r matches Some(n) ==> exists|j: int|
            0 <= j < names@.len() && names@[j]@ == n@ && distinct_before(name_views(names@), j)
                && exists|a: int| 0 <= a < j && #[trigger] names@[a]@ == n@,
{
    let ghost views = name_views(names@);
    let mut j: usize = 0;
    while j < names.len()
        invariant
            j <= names@.len(),
            views == name_views(names@),
            distinct_before(views, j as int),
        decreases names@.len() - j,
    {
        let mut a: usize = 0;
        while a < j
            invariant
                a <= j < names@.len(),
                views == name_views(names@),
                distinct_before(views, j as int),
                forall|k: int| 0 <= k < a ==> views[k] != views[j as int],
            decreases j - a,
        {
            if str_equals(names[a].as_str(), names[j].as_str()) {
                proof {
                    assert(views[a as int] == names@[a as int]@);
                    assert(views[j as int] == names@[j as int]@);
                    assert(!distinct_before(views, names@.len() as int));
                }
                return Some(names[j].clone());
            }
            a = a + 1;
        }
        proof {
            assert forall|x: int, y: int| 0 <= x < y < j + 1 implies views[x] != views[y] by {
                if y < j {
                } else {
                }
            }
        }
        j = j + 1;
    }
    None
}

} // verus!
