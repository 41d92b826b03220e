//! What the borrow analysis knows of the types of a crate, and the questions
//! it answers from that: whether a type is `Copy`, whether an owned value of
//! it can be rebuilt from a shared one in the emitted program, and whether it
//! is `Clone`.
use vstd::prelude::*;

use crate::ast::{Kind, Node, Nodes};
use crate::demand::Materialization;
use crate::function_facts::{generic_has_bound, has_bound_leaf_m};
use crate::model::{lemma_cons, node_m, nodes_m, NodeM};
use crate::module_scope::{
    import_of_m, imports_m, parts_from_m, path_parts, strip_path_segment_generics,
    strip_path_segment_generics_m, ModuleScope,
};
use crate::text::{contains_text, is_text, string_of, views};
use crate::binding_pattern::{has_path_separator, has_path_separator_m};
use crate::type_shape::{
    join_path, join_path_m, nominal_type_id, nominal_type_id_m, primitive_size_words,
    primitive_size_words_m, segment_texts, segment_texts_m, type_name_leaf, type_name_leaf_m,
};
use crate::variant_owners::same_path;

verus! {

/// The facts the analysis collects about the types of a crate.
pub struct TypeFacts {
    /// Names of types whose `Copy` implementation an earlier pass inferred.
    pub inferred_copy_types: Vec<String>,
    /// Names of types that derive `Copy` in the source.
    pub source_copy_types: Vec<String>,
    /// Types with a `Copy` implementation in the emitted program.
    pub materialized_copy_type_ids: Vec<Vec<String>>,
    /// Names of generic types with an unconditional `impl Copy`.
    pub unconditional_copy_types: Vec<String>,
    /// Generic types with an unconditional `impl Copy`.
    pub materialized_unconditional_copy_type_ids: Vec<Vec<String>>,
    /// Types that derive `Clone`.
    pub derived_clone_types: Vec<Vec<String>>,
    /// Generic types with an unconditional `impl Clone`.
    pub unconditional_clone_types: Vec<Vec<String>>,
    /// Types the crate itself declares.
    pub local_type_ids: Vec<Vec<String>>,
    /// The generic parameters of each function, by the function's path.
    pub fn_generics: Vec<(Vec<String>, Vec<Node>)>,
}

/// Whether the paths `ids` hold `id`.
pub open spec fn has_id_m(ids: Seq<Vec<String>>, id: Seq<Seq<char>>) -> bool {
    exists|i: int| 0 <= i < ids.len() && #[trigger] views(ids[i]@) == id
}

/// Whether the paths `ids` hold `id`.
fn has_id(ids: &Vec<Vec<String>>, id: &Vec<String>) -> (b: bool)
    ensures
        b == has_id_m(ids@, views(id@)),
{
    let mut i: usize = 0;
    while i < ids.len()
        invariant
            i <= ids@.len(),
            forall|j: int| 0 <= j < i ==> #[trigger] views(ids@[j]@) != views(id@),
        decreases ids@.len() - i,
    {
        if same_path(&ids[i], id) {
            return true;
        }
        i = i + 1;
    }
    false
}

/// Whether the nominal identity of `t` in the scope is among `ids`.
pub open spec fn id_among_m(
    t: NodeM,
    ids: Seq<Vec<String>>,
    module: Seq<Seq<char>>,
    imports: Seq<(Seq<char>, Seq<Seq<char>>)>,
) -> bool {
    match nominal_type_id_m(t, module, imports) {
        Some(id) => has_id_m(ids, id),
        None => false,
    }
}

fn id_among(t: &Node, ids: &Vec<Vec<String>>, scope: &ModuleScope) -> (b: bool)
    ensures
        b == id_among_m(t@, ids@, views(scope.module_segments@), imports_m(scope.imports@)),
{
    match nominal_type_id(t, scope) {
        Some(id) => has_id(ids, &id),
        None => false,
    }
}

// ----- path roots -----

/// Whether the type name `name` is written with a path, or imported, from
/// the crate `root`.
pub open spec fn has_root_m(
    name: Seq<char>,
    imports: Seq<(Seq<char>, Seq<Seq<char>>)>,
    root: Seq<char>,
) -> bool {
    if has_path_separator_m(name) {
        let parts = parts_from_m(name, 0, 0);
        parts.len() > 0 && strip_path_segment_generics_m(parts[0]) == root
    } else {
        match import_of_m(imports, type_name_leaf_m(name)) {
            Some(p) => p.len() > 0 && strip_path_segment_generics_m(p[0]) == root,
            None => false,
        }
    }
}

/// Whether the type name `name` is written with a path, or imported, from
/// the crate `root`.
pub fn written_or_imported_path_has_root(name: &str, scope: &ModuleScope, root: &str) -> (b: bool)
    ensures
        b == has_root_m(name@, imports_m(scope.imports@), root@),
{
    if has_path_separator(name) {
        let parts = path_parts(name);
        if parts.len() == 0 {
            return false;
        }
        assert(views(parts@)[0] == parts@[0]@);
        let first = strip_path_segment_generics(parts[0].as_str());
        return is_text(&first, root);
    }
    let leaf = type_name_leaf(name);
    match import_path(scope, &leaf) {
        Some(p) => {
            if p.len() == 0 {
                return false;
            }
            assert(views(p@)[0] == p@[0]@);
            let first = strip_path_segment_generics(p[0].as_str());
            is_text(&first, root)
        },
        None => false,
    }
}

/// The path the first import of `name` in `scope` names.
fn import_path<'a>(scope: &'a ModuleScope, name: &String) -> (r: Option<&'a Vec<String>>)
    ensures
        match import_of_m(imports_m(scope.imports@), name@) {
            Some(p) => r matches Some(q) && views(q@) == p,
            None => r is None,
        },
{
    let ghost all = imports_m(scope.imports@);
    let mut i: usize = 0;
    assert(all.subrange(0, all.len() as int) =~= all);
    while i < scope.imports.len()
        invariant
            i <= scope.imports@.len(),
            all == imports_m(scope.imports@),
            import_of_m(all, name@) == import_of_m(all.subrange(i as int, all.len() as int), name@),
        decreases scope.imports@.len() - i,
    {
        let ghost rest = all.subrange(i as int, all.len() as int);
        assert(rest[0] == (scope.imports@[i as int].0@, views(scope.imports@[i as int].1@)));
        if scope.imports[i].0 == *name {
            return Some(&scope.imports[i].1);
        }
        assert(rest.drop_first() =~= all.subrange(i + 1, all.len() as int));
        i = i + 1;
    }
    None
}

/// Whether a built-in type name such as `Box` or `String` means the
/// standard library's type in the scope: a path or import that names it
/// must come from `std`, `core` or `alloc`.
pub open spec fn builtin_unshadowed_m(name: Seq<char>, imports: Seq<(Seq<char>, Seq<Seq<char>>)>) -> bool {
    if import_of_m(imports, type_name_leaf_m(name)) is Some || has_path_separator_m(
        name,
    ) {
        has_root_m(name, imports, "std"@) || has_root_m(name, imports, "core"@) || has_root_m(
            name,
            imports,
            "alloc"@,
        )
    } else {
        true
    }
}

/// Whether the built-in type name `name` means the standard library's type
/// in `scope`.
pub fn builtin_type_name_is_unshadowed(name: &str, scope: &ModuleScope) -> (b: bool)
    ensures
        b == builtin_unshadowed_m(name@, imports_m(scope.imports@)),
{
    let leaf = type_name_leaf(name);
    if import_path(scope, &leaf).is_some() || has_path_separator(name) {
        written_or_imported_path_has_root(name, scope, "std") || written_or_imported_path_has_root(
            name,
            scope,
            "core",
        ) || written_or_imported_path_has_root(name, scope, "alloc")
    } else {
        true
    }
}

/// Whether the type `name` is `Clone` whatever it holds: `String`, and the
/// big-number types of `num_bigint` and `num_rational`.
pub open spec fn known_clone_m(name: Seq<char>, imports: Seq<(Seq<char>, Seq<Seq<char>>)>) -> bool {
    let leaf = type_name_leaf_m(name);
    if leaf == "String"@ {
        builtin_unshadowed_m(name, imports)
    } else if leaf == "BigInt"@ || leaf == "BigUint"@ {
        has_root_m(name, imports, "num_bigint"@)
    } else if leaf == "BigRational"@ {
        has_root_m(name, imports, "num_rational"@)
    } else {
        false
    }
}

/// Whether the type `name` is `Clone` whatever it holds.
pub fn known_unconditional_clone_type(name: &str, scope: &ModuleScope) -> (b: bool)
    ensures
        b == known_clone_m(name@, imports_m(scope.imports@)),
{
    let leaf = type_name_leaf(name);
    if is_text(&leaf, "String") {
        builtin_type_name_is_unshadowed(name, scope)
    } else if is_text(&leaf, "BigInt") || is_text(&leaf, "BigUint") {
        written_or_imported_path_has_root(name, scope, "num_bigint")
    } else if is_text(&leaf, "BigRational") {
        written_or_imported_path_has_root(name, scope, "num_rational")
    } else {
        false
    }
}


// ----- the generic parameters in scope -----

/// The generic parameters of the function with path `id`, where the facts
/// record it.
pub open spec fn fn_generics_m(fs: Seq<(Vec<String>, Vec<Node>)>, id: Seq<Seq<char>>) -> Option<Seq<NodeM>>
    decreases fs.len(),
{
    if fs.len() == 0 {
        None
    } else if views(fs[0].0@) == id {
        Some(fs[0].1@.map_values(|n: Node| n@))
    } else {
        fn_generics_m(fs.drop_first(), id)
    }
}

/// The first of the generic parameters `gs` named `name`.
pub open spec fn generic_named_m(gs: Seq<NodeM>, name: Seq<char>) -> Option<NodeM>
    decreases gs.len(),
{
    if gs.len() == 0 {
        None
    } else if gs[0].text == name {
        Some(gs[0])
    } else {
        generic_named_m(gs.drop_first(), name)
    }
}

impl TypeFacts {
    /// The generic parameter `name` of the function the scope is in.
    pub open spec fn current_generic_m(&self, current: Option<Vec<String>>, name: Seq<char>) -> Option<NodeM> {
        match current {
            Some(id) => match fn_generics_m(self.fn_generics@, views(id@)) {
                Some(gs) => generic_named_m(gs, name),
                None => None,
            },
            None => None,
        }
    }

    /// The generic parameter `name` of the function `scope` is in.
    pub fn current_generic(&self, scope: &ModuleScope, name: &String) -> (r: Option<&Node>)
        ensures
            match self.current_generic_m(scope.current_function, name@) {
                Some(g) => r matches Some(x) && x@ == g,
                None => r is None,
            },
    {
        let id = match &scope.current_function {
            Some(id) => id,
            None => {
                return None;
            },
        };
        let ghost fs = self.fn_generics@;
        let mut i: usize = 0;
        assert(fs.subrange(0, fs.len() as int) =~= fs);
        while i < self.fn_generics.len()
            invariant
                i <= fs.len(),
                fs == self.fn_generics@,
                scope.current_function == Some(*id),
                fn_generics_m(fs, views(id@)) == fn_generics_m(fs.subrange(i as int, fs.len() as int), views(id@)),
            decreases fs.len() - i,
        {
            let ghost rest = fs.subrange(i as int, fs.len() as int);
            assert(rest[0] == fs[i as int]);
            if same_path(&self.fn_generics[i].0, id) {
                let gs = &self.fn_generics[i].1;
                let ghost gm = gs@.map_values(|n: Node| n@);
                assert(fn_generics_m(rest, views(id@)) == Some(gm));
                assert(self.current_generic_m(scope.current_function, name@) == generic_named_m(gm, name@));
                let mut k: usize = 0;
                assert(gm.subrange(0, gm.len() as int) =~= gm);
                while k < gs.len()
                    invariant
                        k <= gs@.len(),
                        gm == gs@.map_values(|n: Node| n@),
                        self.current_generic_m(scope.current_function, name@) == generic_named_m(gm, name@),
                        generic_named_m(gm, name@) == generic_named_m(gm.subrange(k as int, gm.len() as int), name@),
                    decreases gs@.len() - k,
                {
                    let ghost grest = gm.subrange(k as int, gm.len() as int);
                    assert(grest[0] == gs@[k as int]@);
                    if gs[k].text == *name {
                        return Some(&gs[k]);
                    }
                    assert(grest.drop_first() =~= gm.subrange(k + 1, gm.len() as int));
                    k = k + 1;
                }
                return None;
            }
            assert(rest.drop_first() =~= fs.subrange(i + 1, fs.len() as int));
            i = i + 1;
        }
        None
    }
}

// ----- Copy -----

/// Whether `name` is a scalar type.
pub open spec fn is_scalar_m(name: Seq<char>) -> bool {
    primitive_size_words_m(name) is Some
}

impl TypeFacts {
    /// Whether `t` is `Copy` as far as the facts tell, `copy_generics`
    /// naming the generic parameters known to be `Copy`.
    pub open spec fn is_copy_m(
        &self,
        t: NodeM,
        copy_generics: Seq<Seq<char>>,
        module: Seq<Seq<char>>,
        imports: Seq<(Seq<char>, Seq<Seq<char>>)>,
    ) -> bool
        decreases t, 1nat,
    {
        match t.kind {
            Kind::TypeNamed => is_scalar_m(t.text) || views(self.inferred_copy_types@).contains(t.text)
                || views(self.source_copy_types@).contains(t.text) || copy_generics.contains(t.text),
            Kind::TypeGeneric => {
                let leaf = type_name_leaf_m(t.text);
                let is_local = id_among_m(t, self.local_type_ids@, module, imports);
                (leaf == "PhantomData"@ && !is_local) || views(self.unconditional_copy_types@).contains(leaf)
                    || ((views(self.inferred_copy_types@).contains(leaf) || views(
                    self.source_copy_types@,
                ).contains(leaf)) && self.all_copy_m(t.children, copy_generics, module, imports))
            },
            Kind::TypeTuple => self.all_copy_m(t.children, copy_generics, module, imports),
            Kind::TypeRef { shared, mutable } => shared && !mutable,
            Kind::TypeUnit | Kind::TypeNever => true,
            _ => false,
        }
    }

    pub open spec fn all_copy_m(
        &self,
        ts: Seq<NodeM>,
        copy_generics: Seq<Seq<char>>,
        module: Seq<Seq<char>>,
        imports: Seq<(Seq<char>, Seq<Seq<char>>)>,
    ) -> bool
        decreases ts, 0nat,
    {
        ts.len() == 0 || (self.is_copy_m(ts[0], copy_generics, module, imports) && self.all_copy_m(
            ts.drop_first(),
            copy_generics,
            module,
            imports,
        ))
    }

    /// Whether `t` is `Copy` as far as the facts tell.
    pub fn is_copy(&self, t: &Node, copy_generics: &Vec<String>, scope: &ModuleScope) -> (b: bool)
        ensures
            b == self.is_copy_m(t@, views(copy_generics@), views(scope.module_segments@), imports_m(scope.imports@)),
        decreases t, 1nat,
    {
        match t.kind {
            Kind::TypeNamed => primitive_size_words(&t.text).is_some() || contains_text(
                &self.inferred_copy_types,
                &t.text,
            ) || contains_text(&self.source_copy_types, &t.text) || contains_text(
                copy_generics,
                &t.text,
            ),
            Kind::TypeGeneric => {
                let leaf = type_name_leaf(t.text.as_str());
                let is_local = id_among(t, &self.local_type_ids, scope);
                (is_text(&leaf, "PhantomData") && !is_local) || contains_text(
                    &self.unconditional_copy_types,
                    &leaf,
                ) || ((contains_text(&self.inferred_copy_types, &leaf) || contains_text(
                    &self.source_copy_types,
                    &leaf,
                )) && self.all_copy(&t.children, copy_generics, scope))
            },
            Kind::TypeTuple => self.all_copy(&t.children, copy_generics, scope),
            Kind::TypeRef { shared, mutable } => shared && !mutable,
            Kind::TypeUnit | Kind::TypeNever => true,
            _ => false,
        }
    }

    fn all_copy(&self, l: &Nodes, copy_generics: &Vec<String>, scope: &ModuleScope) -> (b: bool)
        ensures
            b == self.all_copy_m(nodes_m(*l), views(copy_generics@), views(scope.module_segments@), imports_m(scope.imports@)),
        decreases l, 0nat,
    {
        match l {
            Nodes::Nil => true,
            Nodes::Cons(h, rest) => {
                proof {
                    lemma_cons(node_m(**h), nodes_m(**rest));
                }
                self.is_copy(h, copy_generics, scope) && self.all_copy(rest, copy_generics, scope)
            },
        }
    }

    /// Whether the emitted program can copy a value of `t` implicitly: `Copy`
    /// evidence present in the program as a builtin, a bound, a derive or an
    /// implementation.
    pub open spec fn is_materialized_copy_m(
        &self,
        t: NodeM,
        copy_generics: Seq<Seq<char>>,
        current: Option<Vec<String>>,
        module: Seq<Seq<char>>,
        imports: Seq<(Seq<char>, Seq<Seq<char>>)>,
    ) -> bool
        decreases t, 1nat,
    {
        match t.kind {
            Kind::TypeNamed => is_scalar_m(t.text) || copy_generics.contains(t.text) || (match self.current_generic_m(
                current,
                t.text,
            ) {
                Some(g) => has_bound_leaf_m(g, "Copy"@),
                None => false,
            }) || id_among_m(t, self.materialized_copy_type_ids@, module, imports),
            Kind::TypePath => (t.children.len() > 0 && is_scalar_m(t.children.last().text)) || id_among_m(
                t,
                self.materialized_copy_type_ids@,
                module,
                imports,
            ),
            Kind::TypeGeneric => match nominal_type_id_m(t, module, imports) {
                None => false,
                Some(id) => {
                    let leaf = type_name_leaf_m(t.text);
                    let builtin = !has_id_m(self.local_type_ids@, id) && builtin_unshadowed_m(t.text, imports);
                    (leaf == "PhantomData"@ && builtin) || has_id_m(
                        self.materialized_unconditional_copy_type_ids@,
                        id,
                    ) || (has_id_m(self.materialized_copy_type_ids@, id) && self.all_materialized_copy_m(
                        t.children,
                        copy_generics,
                        current,
                        module,
                        imports,
                    ))
                },
            },
            Kind::TypeTuple => self.all_materialized_copy_m(t.children, copy_generics, current, module, imports),
            Kind::TypeArray => t.children.len() > 0 && self.is_materialized_copy_m(
                t.children[0],
                copy_generics,
                current,
                module,
                imports,
            ),
            Kind::TypeRef { shared, mutable } => shared && !mutable,
            Kind::TypeUnit | Kind::TypeNever => true,
            _ => false,
        }
    }

    pub open spec fn all_materialized_copy_m(
        &self,
        ts: Seq<NodeM>,
        copy_generics: Seq<Seq<char>>,
        current: Option<Vec<String>>,
        module: Seq<Seq<char>>,
        imports: Seq<(Seq<char>, Seq<Seq<char>>)>,
    ) -> bool
        decreases ts, 0nat,
    {
        ts.len() == 0 || (self.is_materialized_copy_m(ts[0], copy_generics, current, module, imports)
            && self.all_materialized_copy_m(ts.drop_first(), copy_generics, current, module, imports))
    }

    /// Whether the emitted program can copy a value of `t` implicitly.
    pub fn is_materialized_copy(&self, t: &Node, copy_generics: &Vec<String>, scope: &ModuleScope) -> (b: bool)
        ensures
            b == self.is_materialized_copy_m(
                t@,
                views(copy_generics@),
                scope.current_function,
                views(scope.module_segments@),
                imports_m(scope.imports@),
            ),
        decreases t, 1nat,
    {
        match t.kind {
            Kind::TypeNamed => {
                if primitive_size_words(&t.text).is_some() || contains_text(copy_generics, &t.text) {
                    return true;
                }
                let bounded = match self.current_generic(scope, &t.text) {
                    Some(g) => generic_has_bound(g, &string_of("Copy")),
                    None => false,
                };
                bounded || id_among(t, &self.materialized_copy_type_ids, scope)
            },
            Kind::TypePath => {
                let scalar = match crate::model::last_node(&t.children) {
                    Some(last) => primitive_size_words(&last.text).is_some(),
                    None => false,
                };
                scalar || id_among(t, &self.materialized_copy_type_ids, scope)
            },
            Kind::TypeGeneric => match nominal_type_id(t, scope) {
                None => false,
                Some(id) => {
                    let leaf = type_name_leaf(t.text.as_str());
                    let builtin = !has_id(&self.local_type_ids, &id) && builtin_type_name_is_unshadowed(
                        t.text.as_str(),
                        scope,
                    );
                    (is_text(&leaf, "PhantomData") && builtin) || has_id(
                        &self.materialized_unconditional_copy_type_ids,
                        &id,
                    ) || (has_id(&self.materialized_copy_type_ids, &id) && self.all_materialized_copy(
                        &t.children,
                        copy_generics,
                        scope,
                    ))
                },
            },
            Kind::TypeTuple => self.all_materialized_copy(&t.children, copy_generics, scope),
            Kind::TypeArray => match &t.children {
                Nodes::Cons(inner, rest) => {
                    proof {
                        lemma_cons(node_m(**inner), nodes_m(**rest));
                    }
                    self.is_materialized_copy(inner, copy_generics, scope)
                },
                Nodes::Nil => false,
            },
            Kind::TypeRef { shared, mutable } => shared && !mutable,
            Kind::TypeUnit | Kind::TypeNever => true,
            _ => false,
        }
    }

    fn all_materialized_copy(&self, l: &Nodes, copy_generics: &Vec<String>, scope: &ModuleScope) -> (b: bool)
        ensures
            b == self.all_materialized_copy_m(
                nodes_m(*l),
                views(copy_generics@),
                scope.current_function,
                views(scope.module_segments@),
                imports_m(scope.imports@),
            ),
        decreases l, 0nat,
    {
        match l {
            Nodes::Nil => true,
            Nodes::Cons(h, rest) => {
                proof {
                    lemma_cons(node_m(**h), nodes_m(**rest));
                }
                self.is_materialized_copy(h, copy_generics, scope) && self.all_materialized_copy(
                    rest,
                    copy_generics,
                    scope,
                )
            },
        }
    }
}


// ----- Clone -----

/// Whether `leaf` names a standard container that is `Clone` where what it
/// holds is.
pub open spec fn is_clone_container_m(leaf: Seq<char>) -> bool {
    leaf == "Box"@ || leaf == "Vec"@ || leaf == "Option"@ || leaf == "Result"@ || leaf == "HashMap"@
        || leaf == "BTreeMap"@ || leaf == "HashSet"@ || leaf == "BTreeSet"@ || leaf == "VecDeque"@
        || leaf == "LinkedList"@ || leaf == "BinaryHeap"@ || leaf == "Range"@ || leaf
        == "RangeInclusive"@
}

fn is_clone_container(leaf: &String) -> (b: bool)
    ensures
        b == is_clone_container_m(leaf@),
{
    is_text(leaf, "Box") || is_text(leaf, "Vec") || is_text(leaf, "Option") || is_text(leaf, "Result")
        || is_text(leaf, "HashMap") || is_text(leaf, "BTreeMap") || is_text(leaf, "HashSet")
        || is_text(leaf, "BTreeSet") || is_text(leaf, "VecDeque") || is_text(leaf, "LinkedList")
        || is_text(leaf, "BinaryHeap") || is_text(leaf, "Range") || is_text(leaf, "RangeInclusive")
}

/// Whether `leaf` names a standard type that is `Clone` whatever it holds.
pub open spec fn is_shared_pointer_m(leaf: Seq<char>) -> bool {
    leaf == "Rc"@ || leaf == "Arc"@ || leaf == "Weak"@ || leaf == "PhantomData"@
}

impl TypeFacts {
    /// Whether the nominal identity `id`, written `name`, is `Clone` by a
    /// derive, an unconditional implementation or as a known type.
    pub open spec fn nominal_clone_m(&self, id: Seq<Seq<char>>, name: Seq<char>, imports: Seq<(Seq<char>, Seq<Seq<char>>)>) -> bool {
        has_id_m(self.derived_clone_types@, id) || has_id_m(self.unconditional_clone_types@, id) || (
        !has_id_m(self.local_type_ids@, id) && known_clone_m(name, imports))
    }

    /// Whether `t` is `Clone` as far as the facts and the scope tell.
    pub open spec fn is_clone_m(
        &self,
        t: NodeM,
        copy_generics: Seq<Seq<char>>,
        current: Option<Vec<String>>,
        module: Seq<Seq<char>>,
        imports: Seq<(Seq<char>, Seq<Seq<char>>)>,
    ) -> bool
        decreases t, 1nat,
    {
        if self.is_materialized_copy_m(t, copy_generics, current, module, imports) {
            true
        } else {
            match t.kind {
                Kind::TypeNamed => match self.current_generic_m(current, t.text) {
                    Some(g) => has_bound_leaf_m(g, "Clone"@) || has_bound_leaf_m(g, "Copy"@),
                    None => match nominal_type_id_m(t, module, imports) {
                        Some(id) => self.nominal_clone_m(id, t.text, imports),
                        None => false,
                    },
                },
                Kind::TypePath => match nominal_type_id_m(t, module, imports) {
                    Some(id) => self.nominal_clone_m(id, join_path_m(segment_texts_m(t.children)), imports),
                    None => false,
                },
                Kind::TypeGeneric => match nominal_type_id_m(t, module, imports) {
                    None => false,
                    Some(id) => {
                        let leaf = type_name_leaf_m(t.text);
                        let is_local = has_id_m(self.local_type_ids@, id);
                        let builtin = !is_local && builtin_unshadowed_m(t.text, imports);
                        if has_id_m(self.unconditional_clone_types@, id) {
                            true
                        } else if builtin && is_shared_pointer_m(leaf) {
                            true
                        } else if !is_local && known_clone_m(t.text, imports) {
                            true
                        } else {
                            ((builtin && is_clone_container_m(leaf)) || has_id_m(self.derived_clone_types@, id))
                                && self.all_clone_m(t.children, copy_generics, current, module, imports)
                        }
                    },
                },
                Kind::TypeTuple => self.all_clone_m(t.children, copy_generics, current, module, imports),
                Kind::TypeArray => t.children.len() > 0 && self.is_clone_m(
                    t.children[0],
                    copy_generics,
                    current,
                    module,
                    imports,
                ),
                Kind::TypeRef { shared, mutable } => shared && !mutable,
                Kind::TypeUnit | Kind::TypeNever => true,
                _ => false,
            }
        }
    }

    pub open spec fn all_clone_m(
        &self,
        ts: Seq<NodeM>,
        copy_generics: Seq<Seq<char>>,
        current: Option<Vec<String>>,
        module: Seq<Seq<char>>,
        imports: Seq<(Seq<char>, Seq<Seq<char>>)>,
    ) -> bool
        decreases ts, 0nat,
    {
        ts.len() == 0 || (self.is_clone_m(ts[0], copy_generics, current, module, imports)
            && self.all_clone_m(ts.drop_first(), copy_generics, current, module, imports))
    }

    fn nominal_clone(&self, id: &Vec<String>, name: &str, scope: &ModuleScope) -> (b: bool)
        ensures
            b == self.nominal_clone_m(views(id@), name@, imports_m(scope.imports@)),
    {
        has_id(&self.derived_clone_types, id) || has_id(&self.unconditional_clone_types, id) || (!has_id(
            &self.local_type_ids,
            id,
        ) && known_unconditional_clone_type(name, scope))
    }

    /// Whether `t` is `Clone` as far as the facts and the scope tell.
    pub fn is_clone(&self, t: &Node, copy_generics: &Vec<String>, scope: &ModuleScope) -> (b: bool)
        ensures
            b == self.is_clone_m(
                t@,
                views(copy_generics@),
                scope.current_function,
                views(scope.module_segments@),
                imports_m(scope.imports@),
            ),
        decreases t, 1nat,
    {
        if self.is_materialized_copy(t, copy_generics, scope) {
            return true;
        }
        match t.kind {
            Kind::TypeNamed => match self.current_generic(scope, &t.text) {
                Some(g) => generic_has_bound(g, &string_of("Clone")) || generic_has_bound(
                    g,
                    &string_of("Copy"),
                ),
                None => match nominal_type_id(t, scope) {
                    Some(id) => self.nominal_clone(&id, t.text.as_str(), scope),
                    None => false,
                },
            },
            Kind::TypePath => match nominal_type_id(t, scope) {
                Some(id) => {
                    let name = join_path(&segment_texts(&t.children));
                    self.nominal_clone(&id, name.as_str(), scope)
                },
                None => false,
            },
            Kind::TypeGeneric => match nominal_type_id(t, scope) {
                None => false,
                Some(id) => {
                    let leaf = type_name_leaf(t.text.as_str());
                    let is_local = has_id(&self.local_type_ids, &id);
                    let builtin = !is_local && builtin_type_name_is_unshadowed(t.text.as_str(), scope);
                    if has_id(&self.unconditional_clone_types, &id) {
                        return true;
                    }
                    if builtin && (is_text(&leaf, "Rc") || is_text(&leaf, "Arc") || is_text(&leaf, "Weak")
                        || is_text(&leaf, "PhantomData")) {
                        return true;
                    }
                    if !is_local && known_unconditional_clone_type(t.text.as_str(), scope) {
                        return true;
                    }
                    ((builtin && is_clone_container(&leaf)) || has_id(&self.derived_clone_types, &id))
                        && self.all_clone(&t.children, copy_generics, scope)
                },
            },
            Kind::TypeTuple => self.all_clone(&t.children, copy_generics, scope),
            Kind::TypeArray => match &t.children {
                Nodes::Cons(inner, rest) => {
                    proof {
                        lemma_cons(node_m(**inner), nodes_m(**rest));
                    }
                    self.is_clone(inner, copy_generics, scope)
                },
                Nodes::Nil => false,
            },
            Kind::TypeRef { shared, mutable } => shared && !mutable,
            Kind::TypeUnit | Kind::TypeNever => true,
            _ => false,
        }
    }

    fn all_clone(&self, l: &Nodes, copy_generics: &Vec<String>, scope: &ModuleScope) -> (b: bool)
        ensures
            b == self.all_clone_m(
                nodes_m(*l),
                views(copy_generics@),
                scope.current_function,
                views(scope.module_segments@),
                imports_m(scope.imports@),
            ),
        decreases l, 0nat,
    {
        match l {
            Nodes::Nil => true,
            Nodes::Cons(h, rest) => {
                proof {
                    lemma_cons(node_m(**h), nodes_m(**rest));
                }
                self.is_clone(h, copy_generics, scope) && self.all_clone(rest, copy_generics, scope)
            },
        }
    }

    /// Whether an owned value of `t` can be produced from a shared one in
    /// the emitted program: it can be copied, or it is `Clone`.
    pub fn can_materialize_owned(&self, t: &Node, copy_generics: &Vec<String>, scope: &ModuleScope) -> (b: bool)
        ensures
            b == (self.is_materialized_copy_m(
                t@,
                views(copy_generics@),
                scope.current_function,
                views(scope.module_segments@),
                imports_m(scope.imports@),
            ) || self.is_clone_m(
                t@,
                views(copy_generics@),
                scope.current_function,
                views(scope.module_segments@),
                imports_m(scope.imports@),
            )),
    {
        self.is_materialized_copy(t, copy_generics, scope) || self.is_clone(t, copy_generics, scope)
    }

    /// Whether a move of a value of type `t`, where the type is known, can
    /// be met by producing the owned value locally.
    pub fn move_materialization(&self, t: Option<&Node>, copy_generics: &Vec<String>, scope: &ModuleScope) -> (m: Materialization)
        ensures
            m == (if t matches Some(ty) && (self.is_materialized_copy_m(
                ty@,
                views(copy_generics@),
                scope.current_function,
                views(scope.module_segments@),
                imports_m(scope.imports@),
            ) || self.is_clone_m(
                ty@,
                views(copy_generics@),
                scope.current_function,
                views(scope.module_segments@),
                imports_m(scope.imports@),
            )) {
                Materialization::Available
            } else {
                Materialization::Unavailable
            }),
    {
        match t {
            Some(ty) => if self.can_materialize_owned(ty, copy_generics, scope) {
                Materialization::Available
            } else {
                Materialization::Unavailable
            },
            None => Materialization::Unavailable,
        }
    }
}


/// A type the emitted program can copy is `Clone`, so an owned value of it
/// can be produced from a shared one exactly where it is `Clone`.
pub proof fn lemma_materialized_copy_is_clone(
    facts: TypeFacts,
    t: NodeM,
    copy_generics: Seq<Seq<char>>,
    current: Option<Vec<String>>,
    module: Seq<Seq<char>>,
    imports: Seq<(Seq<char>, Seq<Seq<char>>)>,
)
    ensures
        facts.is_materialized_copy_m(t, copy_generics, current, module, imports) ==> facts.is_clone_m(
            t,
            copy_generics,
            current,
            module,
            imports,
        ),
{
}

} // verus!
