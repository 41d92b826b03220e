//! Which datatype an enum variant belongs to. The borrow analysis records
//! each variant under its full path with the path of its enum, and looks a
//! constructor up from the scope it is written in.
use vstd::prelude::*;

use crate::module_scope::{
    import_of_m, imports_m, parts_from_m, path_parts, resolve_name_m, resolve_segments_m, ModuleScope,
};
use crate::text::{is_text, string_of, views};
use crate::type_shape::{join_path, join_path_m};

verus! {

/// The table of variant owners: each variant's path with the path of the
/// enum it belongs to, or with nothing where two enums declare it.
pub struct VariantOwners {
    pub entries: Vec<(Vec<String>, Option<Vec<String>>)>,
}

/// The model of a table entry.
pub open spec fn entry_m(e: (Vec<String>, Option<Vec<String>>)) -> (Seq<Seq<char>>, Option<
    Seq<Seq<char>>,
>) {
    (
        views(e.0@),
        match e.1 {
            Some(o) => Some(views(o@)),
            None => None,
        },
    )
}

/// The model of a table.
pub open spec fn entries_m(v: Seq<(Vec<String>, Option<Vec<String>>)>) -> Seq<
    (Seq<Seq<char>>, Option<Seq<Seq<char>>>),
> {
    v.map_values(|e: (Vec<String>, Option<Vec<String>>)| entry_m(e))
}

/// The entry a table holds for the variant `id`, where it holds one.
pub open spec fn entry_of_m(es: Seq<(Seq<Seq<char>>, Option<Seq<Seq<char>>>)>, id: Seq<Seq<char>>) -> Option<
    Option<Seq<Seq<char>>>,
>
    decreases es.len(),
{
    if es.len() == 0 {
        None
    } else if es[0].0 == id {
        Some(es[0].1)
    } else {
        entry_of_m(es.drop_first(), id)
    }
}

/// The owner a table records for the variant `id`.
pub open spec fn owner_of_m(es: Seq<(Seq<Seq<char>>, Option<Seq<Seq<char>>>)>, id: Seq<Seq<char>>) -> Option<
    Seq<Seq<char>>,
> {
    match entry_of_m(es, id) {
        Some(Some(o)) => Some(o),
        _ => None,
    }
}

impl VariantOwners {
    /// The entries as paths.
    pub open spec fn view_m(&self) -> Seq<(Seq<Seq<char>>, Option<Seq<Seq<char>>>)> {
        entries_m(self.entries@)
    }

    /// An empty table.
    pub fn new() -> (t: VariantOwners)
        ensures
            t.view_m() == Seq::<(Seq<Seq<char>>, Option<Seq<Seq<char>>>)>::empty(),
    {
        let t = VariantOwners { entries: Vec::new() };
        assert(t.view_m() =~= Seq::<(Seq<Seq<char>>, Option<Seq<Seq<char>>>)>::empty());
        t
    }

    /// The position of the entry for `id`, where there is one.
    fn position_of(&self, id: &Vec<String>) -> (r: Option<usize>)
        ensures
            match r {
                Some(k) => k < self.entries@.len() && self.view_m()[k as int].0 == views(id@)
                    && entry_of_m(self.view_m(), views(id@)) == Some(self.view_m()[k as int].1)
                    && forall|j: int| 0 <= j < k ==> #[trigger] self.view_m()[j].0 != views(id@),
                None => entry_of_m(self.view_m(), views(id@)) is None,
            },
    {
        let ghost all = self.view_m();
        let mut i: usize = 0;
        assert(all.subrange(0, all.len() as int) =~= all);
        while i < self.entries.len()
            invariant
                i <= self.entries@.len(),
                all == self.view_m(),
                entry_of_m(all, views(id@)) == entry_of_m(
                    all.subrange(i as int, all.len() as int),
                    views(id@),
                ),
                forall|j: int| 0 <= j < i ==> #[trigger] all[j].0 != views(id@),
            decreases self.entries@.len() - i,
        {
            let ghost rest = all.subrange(i as int, all.len() as int);
            assert(rest[0] == entry_m(self.entries@[i as int]));
            if same_path(&self.entries[i].0, id) {
                return Some(i);
            }
            assert(rest.drop_first() =~= all.subrange(i + 1, all.len() as int));
            i = i + 1;
        }
        None
    }

    /// Records that the variant `variant_id` belongs to the enum `owner_id`;
    /// a variant recorded for another enum before is left with no owner.
    pub fn insert_variant_owner(&mut self, variant_id: Vec<String>, owner_id: &Vec<String>)
        ensures
            forall|id: Seq<Seq<char>>| #[trigger]
                entry_of_m(final(self).view_m(), id) == if id == views(variant_id@) {
                    match entry_of_m(old(self).view_m(), id) {
                        None => Some(Some(views(owner_id@))),
                        Some(e) => if e == Some(views(owner_id@)) {
                            Some(e)
                        } else {
                            Some(None)
                        },
                    }
                } else {
                    entry_of_m(old(self).view_m(), id)
                },
    {
        let ghost before = self.view_m();
        match self.position_of(&variant_id) {
            None => {
                let ghost vid = views(variant_id@);
                let owner = copy_path(owner_id);
                self.entries.push((variant_id, Some(owner)));
                let ghost after = self.view_m();
                assert(after =~= before.push((vid, Some(views(owner_id@)))));
                assert forall|id: Seq<Seq<char>>| #[trigger] entry_of_m(after, id) == if id == vid {
                    Some(Some(views(owner_id@)))
                } else {
                    entry_of_m(before, id)
                } by {
                    lemma_entry_of_push(before, (vid, Some(views(owner_id@))), id);
                }
            },
            Some(k) => {
                let agrees = match &self.entries[k].1 {
                    Some(existing) => same_path(existing, owner_id),
                    None => false,
                };
                if !agrees {
                    let key = copy_path(&self.entries[k].0);
                    let ghost e = before[k as int];
                    self.entries.set(k, (key, None));
                    let ghost after = self.view_m();
                    assert(after =~= before.update(k as int, (e.0, None)));
                    assert forall|id: Seq<Seq<char>>| #[trigger] entry_of_m(after, id) == if id
                        == views(variant_id@) {
                        Some(None)
                    } else {
                        entry_of_m(before, id)
                    } by {
                        lemma_entry_of_update(before, k as int, (e.0, None), id);
                    }
                }
            },
        }
    }

    /// The owner recorded for the variant `id`.
    pub fn owner_of(&self, id: &Vec<String>) -> (r: Option<Vec<String>>)
        ensures
            match owner_of_m(self.view_m(), views(id@)) {
                Some(o) => r matches Some(p) && views(p@) == o,
                None => r is None,
            },
    {
        match self.position_of(id) {
            Some(k) => match &self.entries[k].1 {
                Some(o) => Some(copy_path(o)),
                None => None,
            },
            None => None,
        }
    }
}

/// Looking up in a table with one more entry at its end.
proof fn lemma_entry_of_push(
    es: Seq<(Seq<Seq<char>>, Option<Seq<Seq<char>>>)>,
    e: (Seq<Seq<char>>, Option<Seq<Seq<char>>>),
    id: Seq<Seq<char>>,
)
    requires
        entry_of_m(es, e.0) is None,
    ensures
        entry_of_m(es.push(e), id) == if id == e.0 {
            Some(e.1)
        } else {
            entry_of_m(es, id)
        },
    decreases es.len(),
{
    let pushed = es.push(e);
    if es.len() > 0 {
        assert(pushed[0] == es[0]);
        assert(pushed.drop_first() =~= es.drop_first().push(e));
        lemma_entry_of_push(es.drop_first(), e, id);
    } else {
        assert(pushed[0] == e);
        assert(pushed.drop_first() =~= Seq::<(Seq<Seq<char>>, Option<Seq<Seq<char>>>)>::empty());
        assert(entry_of_m(pushed.drop_first(), id) is None);
    }
}

/// Looking up in a table with the entry at position `k`, the first for its
/// key, given a new value.
proof fn lemma_entry_of_update(
    es: Seq<(Seq<Seq<char>>, Option<Seq<Seq<char>>>)>,
    k: int,
    e: (Seq<Seq<char>>, Option<Seq<Seq<char>>>),
    id: Seq<Seq<char>>,
)
    requires
        0 <= k < es.len(),
        es[k].0 == e.0,
        entry_of_m(es, e.0) == Some(es[k].1),
        forall|j: int| 0 <= j < k ==> es[j].0 != e.0,
    ensures
        entry_of_m(es.update(k, e), id) == if id == e.0 {
            Some(e.1)
        } else {
            entry_of_m(es, id)
        },
    decreases es.len(),
{
    if k > 0 {
        assert(es.update(k, e).drop_first() =~= es.drop_first().update(k - 1, e));
        assert forall|j: int| 0 <= j < k - 1 implies es.drop_first()[j].0 != e.0 by {
            assert(es.drop_first()[j] == es[j + 1]);
        }
        lemma_entry_of_update(es.drop_first(), k - 1, e, id);
    } else {
        assert(es.update(k, e).drop_first() =~= es.drop_first());
    }
}

/// Whether two paths are equal.
pub(crate) fn same_path(a: &Vec<String>, b: &Vec<String>) -> (r: bool)
    ensures
        r == (views(a@) == views(b@)),
{
    if a.len() != b.len() {
        assert(views(a@).len() != views(b@).len());
        return false;
    }
    let mut i: usize = 0;
    while i < a.len()
        invariant
            i <= a@.len(),
            a@.len() == b@.len(),
            forall|j: int| 0 <= j < i ==> a@[j]@ == b@[j]@,
        decreases a@.len() - i,
    {
        if a[i] != b[i] {
            assert(views(a@)[i as int] != views(b@)[i as int]);
            return false;
        }
        i = i + 1;
    }
    assert(views(a@) =~= views(b@));
    true
}

/// A copy of the path `p`.
fn copy_path(p: &Vec<String>) -> (r: Vec<String>)
    ensures
        views(r@) == views(p@),
{
    let mut r: Vec<String> = Vec::new();
    let mut i: usize = 0;
    while i < p.len()
        invariant
            i <= p@.len(),
            views(r@) == views(p@).subrange(0, i as int),
        decreases p@.len() - i,
    {
        let ghost before = r@;
        r.push(string_of(p[i].as_str()));
        assert(views(r@) =~= views(before).push(p@[i as int]@));
        assert(views(p@).subrange(0, i + 1) =~= views(p@).subrange(0, i as int).push(p@[i as int]@));
        i = i + 1;
    }
    assert(views(p@).subrange(0, p@.len() as int) =~= views(p@));
    r
}


// ----- owners by name -----

/// Whether the entry `e` records an owner for a variant named `name` in the
/// module at `module` or below it.
pub open spec fn candidate_m(
    e: (Seq<Seq<char>>, Option<Seq<Seq<char>>>),
    name: Seq<char>,
    module: Seq<Seq<char>>,
) -> bool {
    &&& e.1 is Some
    &&& e.0.len() > 0
    &&& e.0.last() == name
    &&& module.is_prefix_of(e.0)
}

/// Whether every candidate entry for `name` records the owner `o`, and some
/// entry does.
pub open spec fn agreed_owner_m(
    es: Seq<(Seq<Seq<char>>, Option<Seq<Seq<char>>>)>,
    name: Seq<char>,
    module: Seq<Seq<char>>,
    o: Seq<Seq<char>>,
) -> bool {
    &&& exists|i: int| 0 <= i < es.len() && #[trigger] candidate_m(es[i], name, module) && es[i].1 == Some(o)
    &&& forall|i: int| 0 <= i < es.len() && #[trigger] candidate_m(es[i], name, module) ==> es[i].1 == Some(o)
}

/// The owner of the variant named `name` from the module at `module`: the
/// one recorded for the path the name resolves to, or else the one all
/// variants of that name in the module and below it agree on.
pub open spec fn variant_name_owner_m(
    es: Seq<(Seq<Seq<char>>, Option<Seq<Seq<char>>>)>,
    module: Seq<Seq<char>>,
    imports: Seq<(Seq<char>, Seq<Seq<char>>)>,
    name: Seq<char>,
) -> Option<Seq<Seq<char>>> {
    match owner_of_m(es, resolve_name_m(module, imports, name)) {
        Some(o) => Some(o),
        None => if exists|o: Seq<Seq<char>>| agreed_owner_m(es, name, module, o) {
            Some(choose|o: Seq<Seq<char>>| agreed_owner_m(es, name, module, o))
        } else {
            None
        },
    }
}

/// The owner of the constructor written `c` in the module at `module`: the
/// one recorded for the path it resolves to; else, for a path relative to
/// the module, the one recorded for it there; else the one its last segment
/// names.
pub open spec fn constructor_owner_m(
    es: Seq<(Seq<Seq<char>>, Option<Seq<Seq<char>>>)>,
    module: Seq<Seq<char>>,
    imports: Seq<(Seq<char>, Seq<Seq<char>>)>,
    c: Seq<char>,
) -> Option<Seq<Seq<char>>> {
    let parts = parts_from_m(c, 0, 0);
    match owner_of_m(es, resolve_segments_m(module, imports, parts)) {
        Some(o) => Some(o),
        None => {
            let relative = parts.len() > 0 && parts[0] != "crate"@ && parts[0] != "self"@
                && parts[0] != "super"@ && import_of_m(imports, parts[0]) is None;
            if relative && owner_of_m(es, module + parts) is Some {
                owner_of_m(es, module + parts)
            } else if parts.len() > 0 {
                variant_name_owner_m(es, module, imports, parts.last())
            } else {
                None
            }
        },
    }
}

impl VariantOwners {
    /// The owner of the variant named `name`, written in `scope`.
    pub fn owner_for_variant_name(&self, name: &String, scope: &ModuleScope) -> (r: Option<Vec<String>>)
        ensures
            match variant_name_owner_m(
                self.view_m(),
                views(scope.module_segments@),
                imports_m(scope.imports@),
                name@,
            ) {
                Some(o) => r matches Some(p) && views(p@) == o,
                None => r is None,
            },
    {
        let direct = scope.resolve_name_path(name);
        if let Some(o) = self.owner_of(&direct) {
            return Some(o);
        }
        let ghost es = self.view_m();
        let ghost module = views(scope.module_segments@);
        let mut first: Option<usize> = None;
        let mut agree = true;
        let mut i: usize = 0;
        while i < self.entries.len()
            invariant
                i <= self.entries@.len(),
                es == self.view_m(),
                module == views(scope.module_segments@),
                match first {
                    None => forall|j: int| 0 <= j < i ==> !#[trigger] candidate_m(es[j], name@, module),
                    Some(f) => f < i && candidate_m(es[f as int], name@, module) && (agree <==> forall|j: int|
                        0 <= j < i && #[trigger] candidate_m(es[j], name@, module) ==> es[j].1
                            == es[f as int].1),
                },
            decreases self.entries@.len() - i,
        {
            assert(es[i as int] == entry_m(self.entries@[i as int]));
            let candidate = match &self.entries[i].1 {
                Some(_) => ends_with_name(&self.entries[i].0, name) && starts_with_path(
                    &self.entries[i].0,
                    &scope.module_segments,
                ),
                None => false,
            };
            assert(candidate == candidate_m(es[i as int], name@, module));
            if candidate {
                match first {
                    None => {
                        first = Some(i);
                        agree = true;
                    },
                    Some(f) => {
                        let same = match (&self.entries[f].1, &self.entries[i].1) {
                            (Some(a), Some(b)) => same_path(a, b),
                            _ => false,
                        };
                        assert(es[f as int] == entry_m(self.entries@[f as int]));
                        if !same {
                            agree = false;
                        }
                    },
                }
            }
            i = i + 1;
        }
        match first {
            None => {
                assert forall|o: Seq<Seq<char>>| !agreed_owner_m(es, name@, module, o) by {
                    if agreed_owner_m(es, name@, module, o) {
                        let j = choose|j: int| 0 <= j < es.len() && #[trigger] candidate_m(es[j], name@, module)
                            && es[j].1 == Some(o);
                    }
                }
                None
            },
            Some(f) => {
                let ghost o = es[f as int].1->0;
                if !agree {
                    assert forall|p: Seq<Seq<char>>| !agreed_owner_m(es, name@, module, p) by {
                        if agreed_owner_m(es, name@, module, p) {
                            assert(es[f as int].1 == Some(p));
                        }
                    }
                    return None;
                }
                assert(agreed_owner_m(es, name@, module, o));
                assert forall|p: Seq<Seq<char>>| agreed_owner_m(es, name@, module, p) implies p == o by {
                    assert(es[f as int].1 == Some(p));
                }
                assert(es[f as int] == entry_m(self.entries@[f as int]));
                match &self.entries[f].1 {
                    Some(p) => Some(copy_path(p)),
                    None => None,
                }
            },
        }
    }

    /// The owner of the variant at the path `path`, written in `scope`.
    pub fn owner_for_variant_path(&self, path: &Vec<String>, scope: &ModuleScope) -> (r: Option<Vec<String>>)
        ensures
            match constructor_owner_m(
                self.view_m(),
                views(scope.module_segments@),
                imports_m(scope.imports@),
                join_path_m(views(path@)),
            ) {
                Some(o) => r matches Some(p) && views(p@) == o,
                None => r is None,
            },
    {
        let joined = join_path(path);
        self.owner_for_constructor(joined.as_str(), scope)
    }

    /// The owner of the constructor written `constructor` in `scope`.
    pub fn owner_for_constructor(&self, constructor: &str, scope: &ModuleScope) -> (r: Option<Vec<String>>)
        ensures
            match constructor_owner_m(
                self.view_m(),
                views(scope.module_segments@),
                imports_m(scope.imports@),
                constructor@,
            ) {
                Some(o) => r matches Some(p) && views(p@) == o,
                None => r is None,
            },
    {
        let parts = path_parts(constructor);
        let resolved = scope.resolve_segments(&parts);
        if let Some(o) = self.owner_of(&resolved) {
            return Some(o);
        }
        proof {
            reveal_strlit("crate");
            reveal_strlit("self");
            reveal_strlit("super");
        }
        if parts.len() > 0 {
            assert(views(parts@)[0] == parts@[0]@);
            let first = &parts[0];
            let relative = !is_text(first, "crate") && !is_text(first, "self") && !is_text(
                first,
                "super",
            ) && scope_import_missing(scope, first);
            if relative {
                let mut local = copy_path(&scope.module_segments);
                let ghost before = views(local@);
                let mut j: usize = 0;
                while j < parts.len()
                    invariant
                        j <= parts@.len(),
                        views(local@) == before + views(parts@).subrange(0, j as int),
                    decreases parts@.len() - j,
                {
                    let ghost prev = local@;
                    local.push(string_of(parts[j].as_str()));
                    assert(views(local@) =~= views(prev).push(parts@[j as int]@));
                    assert(views(parts@).subrange(0, j + 1) =~= views(parts@).subrange(0, j as int).push(
                        parts@[j as int]@,
                    ));
                    j = j + 1;
                }
                assert(views(parts@).subrange(0, parts@.len() as int) =~= views(parts@));
                if let Some(o) = self.owner_of(&local) {
                    return Some(o);
                }
            }
            let last = &parts[parts.len() - 1];
            assert(views(parts@).last() == last@);
            self.owner_for_variant_name(last, scope)
        } else {
            None
        }
    }
}

/// Whether `scope` imports no name `name`.
fn scope_import_missing(scope: &ModuleScope, name: &String) -> (b: bool)
    ensures
        b == (import_of_m(imports_m(scope.imports@), name@) is None),
{
    let ghost all = imports_m(scope.imports@);
    let mut i: usize = 0;
    assert(all.subrange(0, all.len() as int) =~= all);
    while i < scope.imports.len()
        invariant
            i <= scope.imports@.len(),
            all == imports_m(scope.imports@),
            import_of_m(all, name@) == import_of_m(all.subrange(i as int, all.len() as int), name@),
        decreases scope.imports@.len() - i,
    {
        let ghost rest = all.subrange(i as int, all.len() as int);
        assert(rest[0] == (scope.imports@[i as int].0@, views(scope.imports@[i as int].1@)));
        if scope.imports[i].0 == *name {
            return false;
        }
        assert(rest.drop_first() =~= all.subrange(i + 1, all.len() as int));
        i = i + 1;
    }
    true
}

/// Whether the path `p` ends with the segment `name`.
fn ends_with_name(p: &Vec<String>, name: &String) -> (b: bool)
    ensures
        b == (views(p@).len() > 0 && views(p@).last() == name@),
{
    if p.len() == 0 {
        return false;
    }
    assert(views(p@).last() == p@[p@.len() - 1]@);
    p[p.len() - 1] == *name
}

/// Whether the path `p` starts with the segments `prefix`.
fn starts_with_path(p: &Vec<String>, prefix: &Vec<String>) -> (b: bool)
    ensures
        b == views(prefix@).is_prefix_of(views(p@)),
{
    if prefix.len() > p.len() {
        return false;
    }
    let mut i: usize = 0;
    while i < prefix.len()
        invariant
            i <= prefix@.len() <= p@.len(),
            forall|j: int| 0 <= j < i ==> prefix@[j]@ == p@[j]@,
        decreases prefix@.len() - i,
    {
        if prefix[i] != p[i] {
            assert(views(prefix@)[i as int] != views(p@)[i as int]);
            return false;
        }
        i = i + 1;
    }
    assert(views(prefix@) =~= views(p@).subrange(0, prefix@.len() as int));
    true
}

} // verus!
