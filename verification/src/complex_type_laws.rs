//! What holds of the complex-type cleanup over all modules: its result is
//! a fixed point, so that a second run changes nothing and counts nothing.
use vstd::prelude::*;

use crate::ast::Kind;
use crate::boolean_cleanup::is_type_kind;
use crate::complex_type_cleanup::{
    add_saturating, aliases_m, cleanup_module_m, collect_list_m, collect_m, collect_type_list_m,
    collect_type_m, exported_m, first_non_use_m, generics_m, has_trait_m, insert_cand_m,
    item_names_m, lemma_first_non_use_bound, lookup_m, module_items_m, named_m, rw_list_m, rw_m,
    rw_type_list_m, rw_type_m, CandM, ComplexTypeCleanupAnalysis,
};
use crate::model::{mk, NodeM};
use crate::type_key::{
    alias_prefix_m, any_impl_m, callable_complexity_m, complexity_list_m, complexity_m,
    contains_impl_m, fresh_alias_m, generated_m, is_composite_m, lemma_complexity_monotone,
    index_from_m, lemma_fresh_alias, norm_list_m, norm_m, should_alias_m, COMPLEXITY_THRESHOLD,
};

verus! {

// ----- settled trees -----

/// A type position that the cleanup leaves as it is: a generated alias, or
/// a type not worth an alias (or a reference) whose parts are settled.
pub open spec fn settled_type_m(t: NodeM) -> bool
    decreases t, 1nat,
{
    generated_m(t) || (!(!(t.kind is TypeRef) && should_alias_m(t)) && (is_composite_m(t.kind)
        ==> settled_types_m(t.children)))
}

pub open spec fn settled_types_m(cs: Seq<NodeM>) -> bool
    decreases cs, 0nat,
{
    cs.len() == 0 || (settled_type_m(cs[0]) && settled_types_m(cs.drop_first()))
}

/// A node whose type positions, found as the cleanup finds them, are all
/// settled.
pub open spec fn settled_m(n: NodeM) -> bool
    decreases n, 1nat,
{
    if is_type_kind(n.kind) {
        settled_type_m(n)
    } else {
        match n.kind {
            Kind::Module | Kind::TypeAlias | Kind::Use | Kind::Raw | Kind::Opaque(_) => true,
            Kind::Impl => settled_list_m(n.children, 3),
            _ => settled_list_m(n.children, 0),
        }
    }
}

pub open spec fn settled_list_m(cs: Seq<NodeM>, skip: nat) -> bool
    decreases cs, 0nat,
{
    if cs.len() == 0 {
        true
    } else if skip > 0 {
        settled_list_m(cs.drop_first(), (skip - 1) as nat)
    } else {
        settled_m(cs[0]) && settled_list_m(cs.drop_first(), 0)
    }
}

/// A module whose items are settled and whose nested modules are settled
/// modules.
pub open spec fn settled_module_m(m: NodeM) -> bool
    decreases m, 1nat,
{
    settled_items_m(m.children)
}

pub open spec fn settled_items_m(cs: Seq<NodeM>) -> bool
    decreases cs, 0nat,
{
    cs.len() == 0 || ((if cs[0].kind is Module {
        settled_module_m(cs[0])
    } else {
        settled_m(cs[0])
    }) && settled_items_m(cs.drop_first()))
}

// ----- a settled tree is left alone -----

proof fn lemma_collect_type_settled(t: NodeM, scope: Seq<Seq<char>>, p: bool, c: Seq<CandM>)
    requires
        settled_type_m(t),
    ensures
        collect_type_m(t, scope, p, c) == c,
    decreases t, 1nat,
{
    if !generated_m(t) && is_composite_m(t.kind) {
        lemma_collect_type_list_settled(t.children, scope, p, c);
    }
}

proof fn lemma_collect_type_list_settled(cs: Seq<NodeM>, scope: Seq<Seq<char>>, p: bool, c: Seq<CandM>)
    requires
        settled_types_m(cs),
    ensures
        collect_type_list_m(cs, scope, p, c) == c,
    decreases cs, 0nat,
{
    if cs.len() > 0 {
        lemma_collect_type_settled(cs[0], scope, p, c);
        lemma_collect_type_list_settled(cs.drop_first(), scope, p, c);
    }
}

proof fn lemma_collect_settled(n: NodeM, scope: Seq<Seq<char>>, p: bool, c: Seq<CandM>)
    requires
        settled_m(n),
    ensures
        collect_m(n, scope, p, c) == c,
    decreases n, 1nat,
{
    if is_type_kind(n.kind) {
        lemma_collect_type_settled(n, scope, p, c);
    } else {
        match n.kind {
            Kind::Module | Kind::TypeAlias | Kind::Use | Kind::Raw | Kind::Opaque(_) => {},
            Kind::Impl => {
                lemma_collect_list_settled(
                    n.children,
                    3,
                    scope + generics_m(n.children),
                    has_trait_m(n.children),
                    c,
                );
            },
            Kind::Struct | Kind::Union | Kind::Enum | Kind::Function { .. } => {
                lemma_collect_list_settled(
                    n.children,
                    0,
                    scope + generics_m(n.children),
                    p || exported_m(n.children),
                    c,
                );
            },
            Kind::Const | Kind::LazyStatic => {
                lemma_collect_list_settled(n.children, 0, scope, p || exported_m(n.children), c);
            },
            _ => {
                lemma_collect_list_settled(n.children, 0, scope, p, c);
            },
        }
    }
}

proof fn lemma_collect_list_settled(cs: Seq<NodeM>, skip: nat, scope: Seq<Seq<char>>, p: bool, c: Seq<CandM>)
    requires
        settled_list_m(cs, skip),
    ensures
        collect_list_m(cs, skip, scope, p, c) == c,
    decreases cs, 0nat,
{
    if cs.len() > 0 {
        if skip > 0 {
            lemma_collect_list_settled(cs.drop_first(), (skip - 1) as nat, scope, p, c);
        } else {
            lemma_collect_settled(cs[0], scope, p, c);
            lemma_collect_list_settled(cs.drop_first(), 0, scope, p, c);
        }
    }
}

proof fn lemma_rw_type_settled(t: NodeM, scope: Seq<Seq<char>>, pairs: Seq<(Seq<char>, Seq<char>)>, k: usize)
    requires
        settled_type_m(t),
    ensures
        rw_type_m(t, scope, pairs, k) == (t, k),
    decreases t, 1nat,
{
    if !generated_m(t) && is_composite_m(t.kind) {
        lemma_rw_type_list_settled(t.children, scope, pairs, k);
        assert(mk(t.kind, t.text, t.children) == t);
    }
}

proof fn lemma_rw_type_list_settled(
    cs: Seq<NodeM>,
    scope: Seq<Seq<char>>,
    pairs: Seq<(Seq<char>, Seq<char>)>,
    k: usize,
)
    requires
        settled_types_m(cs),
    ensures
        rw_type_list_m(cs, scope, pairs, k) == (cs, k),
    decreases cs, 0nat,
{
    if cs.len() > 0 {
        lemma_rw_type_settled(cs[0], scope, pairs, k);
        lemma_rw_type_list_settled(cs.drop_first(), scope, pairs, k);
        assert(seq![cs[0]] + cs.drop_first() =~= cs);
    }
}

proof fn lemma_rw_settled(n: NodeM, scope: Seq<Seq<char>>, pairs: Seq<(Seq<char>, Seq<char>)>, k: usize)
    requires
        settled_m(n),
    ensures
        rw_m(n, scope, pairs, k) == (n, k),
    decreases n, 1nat,
{
    if is_type_kind(n.kind) {
        lemma_rw_type_settled(n, scope, pairs, k);
    } else {
        match n.kind {
            Kind::Module | Kind::TypeAlias | Kind::Use | Kind::Raw | Kind::Opaque(_) => {},
            Kind::Impl => {
                lemma_rw_list_settled(n.children, 3, scope + generics_m(n.children), pairs, k);
                assert(mk(n.kind, n.text, n.children) == n);
            },
            Kind::Struct | Kind::Union | Kind::Enum | Kind::Function { .. } => {
                lemma_rw_list_settled(n.children, 0, scope + generics_m(n.children), pairs, k);
                assert(mk(n.kind, n.text, n.children) == n);
            },
            _ => {
                lemma_rw_list_settled(n.children, 0, scope, pairs, k);
                assert(mk(n.kind, n.text, n.children) == n);
            },
        }
    }
}

proof fn lemma_rw_list_settled(
    cs: Seq<NodeM>,
    skip: nat,
    scope: Seq<Seq<char>>,
    pairs: Seq<(Seq<char>, Seq<char>)>,
    k: usize,
)
    requires
        settled_list_m(cs, skip),
    ensures
        rw_list_m(cs, skip, scope, pairs, k) == (cs, k),
    decreases cs, 0nat,
{
    if cs.len() > 0 {
        if skip > 0 {
            lemma_rw_list_settled(cs.drop_first(), (skip - 1) as nat, scope, pairs, k);
        } else {
            lemma_rw_settled(cs[0], scope, pairs, k);
            lemma_rw_list_settled(cs.drop_first(), 0, scope, pairs, k);
        }
        assert(seq![cs[0]] + cs.drop_first() =~= cs);
    }
}


// ----- light types -----

/// A type whose complexity is within the threshold is never given an
/// alias, nor is any of its parts.
pub proof fn lemma_light_settled(t: NodeM)
    requires
        complexity_m(t, 1) <= COMPLEXITY_THRESHOLD,
    ensures
        settled_type_m(t),
    decreases t, 1nat,
{
    match t.kind {
        Kind::TypeGeneric | Kind::TypeTuple | Kind::TypeSlice | Kind::TypeArray => {
            lemma_light_list(t.children, 2);
        },
        Kind::TypeCallable { .. } => {
            lemma_light_callable(t.children, 1);
        },
        Kind::TypeRef { .. } => {
            lemma_light_list(t.children, 1);
        },
        _ => {},
    }
}

proof fn lemma_light_list(cs: Seq<NodeM>, n: nat)
    requires
        n >= 1,
        complexity_list_m(cs, n) <= COMPLEXITY_THRESHOLD,
    ensures
        settled_types_m(cs),
    decreases cs, 0nat,
{
    if cs.len() > 0 {
        lemma_complexity_monotone(cs[0], 1, n);
        lemma_light_settled(cs[0]);
        lemma_light_list(cs.drop_first(), n);
    }
}

proof fn lemma_light_callable(cs: Seq<NodeM>, n: nat)
    requires
        n >= 1,
        callable_complexity_m(cs, n) <= COMPLEXITY_THRESHOLD,
    ensures
        settled_types_m(cs),
    decreases cs, 0nat,
{
    if cs.len() == 1 {
        lemma_complexity_monotone(cs[0], 1, n);
        lemma_light_settled(cs[0]);
        assert(cs.drop_first().len() == 0);
        assert(settled_types_m(cs.drop_first()));
    } else if cs.len() > 1 {
        lemma_complexity_monotone(cs[0], 1, n + 1);
        lemma_light_settled(cs[0]);
        lemma_light_callable(cs.drop_first(), n);
        assert(settled_types_m(cs.drop_first()));
    }
}

// ----- `impl` callables survive a rewrite -----

proof fn lemma_named_no_impl(args: Seq<Seq<char>>)
    ensures
        !any_impl_m(named_m(args)),
    decreases args.len(),
{
    if args.len() > 0 {
        assert(named_m(args).drop_first() =~= named_m(args.drop_first()));
        assert(named_m(args)[0] == mk(Kind::TypeNamed, args[0], Seq::empty()));
        assert(!contains_impl_m(named_m(args)[0]));
        lemma_named_no_impl(args.drop_first());
        assert(named_m(args).len() > 0);
    } else {
        assert(named_m(args).len() == 0);
    }
}

proof fn lemma_rw_type_keeps_impl(t: NodeM, scope: Seq<Seq<char>>, pairs: Seq<(Seq<char>, Seq<char>)>, k: usize)
    ensures
        contains_impl_m(rw_type_m(t, scope, pairs, k).0) == contains_impl_m(t),
    decreases t, 1nat,
{
    if generated_m(t) {
    } else if !(t.kind is TypeRef) && should_alias_m(t) && lookup_m(
        pairs,
        norm_m(t, scope, Seq::empty()).0,
        0,
    ) is Some {
        let (key, _target, args) = norm_m(t, scope, Seq::empty());
        lemma_named_no_impl(args);
    } else if is_composite_m(t.kind) {
        lemma_rw_type_list_keeps_impl(t.children, scope, pairs, k);
    }
}

proof fn lemma_rw_type_list_keeps_impl(
    cs: Seq<NodeM>,
    scope: Seq<Seq<char>>,
    pairs: Seq<(Seq<char>, Seq<char>)>,
    k: usize,
)
    ensures
        any_impl_m(rw_type_list_m(cs, scope, pairs, k).0) == any_impl_m(cs),
    decreases cs, 0nat,
{
    if cs.len() > 0 {
        let (h, k1) = rw_type_m(cs[0], scope, pairs, k);
        let (t, k2) = rw_type_list_m(cs.drop_first(), scope, pairs, k1);
        lemma_rw_type_keeps_impl(cs[0], scope, pairs, k);
        lemma_rw_type_list_keeps_impl(cs.drop_first(), scope, pairs, k1);
        assert((seq![h] + t).drop_first() =~= t);
    }
}

// ----- every aliasable position gets its key collected -----

/// The keys of candidates `c`.
pub open spec fn keys_m(c: Seq<CandM>) -> Seq<Seq<char>> {
    c.map_values(|x: CandM| x.key)
}

/// Whether every type position of `t` worth an alias has its key among
/// `keys`.
pub open spec fn covered_type_m(t: NodeM, scope: Seq<Seq<char>>, keys: Seq<Seq<char>>) -> bool
    decreases t, 1nat,
{
    generated_m(t) || (if !(t.kind is TypeRef) && should_alias_m(t) {
        keys.contains(norm_m(t, scope, Seq::empty()).0)
    } else {
        is_composite_m(t.kind) ==> covered_types_m(t.children, scope, keys)
    })
}

pub open spec fn covered_types_m(cs: Seq<NodeM>, scope: Seq<Seq<char>>, keys: Seq<Seq<char>>) -> bool
    decreases cs, 0nat,
{
    cs.len() == 0 || (covered_type_m(cs[0], scope, keys) && covered_types_m(cs.drop_first(), scope, keys))
}

pub open spec fn covered_m(n: NodeM, scope: Seq<Seq<char>>, keys: Seq<Seq<char>>) -> bool
    decreases n, 1nat,
{
    if is_type_kind(n.kind) {
        covered_type_m(n, scope, keys)
    } else {
        match n.kind {
            Kind::Module | Kind::TypeAlias | Kind::Use | Kind::Raw | Kind::Opaque(_) => true,
            Kind::Struct | Kind::Union | Kind::Enum | Kind::Function { .. } => covered_list_m(
                n.children,
                0,
                scope + generics_m(n.children),
                keys,
            ),
            Kind::Impl => covered_list_m(n.children, 3, scope + generics_m(n.children), keys),
            _ => covered_list_m(n.children, 0, scope, keys),
        }
    }
}

pub open spec fn covered_list_m(cs: Seq<NodeM>, skip: nat, scope: Seq<Seq<char>>, keys: Seq<Seq<char>>) -> bool
    decreases cs, 0nat,
{
    if cs.len() == 0 {
        true
    } else if skip > 0 {
        covered_list_m(cs.drop_first(), (skip - 1) as nat, scope, keys)
    } else {
        covered_m(cs[0], scope, keys) && covered_list_m(cs.drop_first(), 0, scope, keys)
    }
}

/// Recording a candidate adds its key and keeps the others.
proof fn lemma_insert_cand_keys(cs: Seq<CandM>, i: nat, x: CandM)
    ensures
        forall|y: Seq<char>|
            #[trigger] keys_m(insert_cand_m(cs, i, x)).contains(y) <==> (keys_m(cs).contains(y) || y
                == x.key),
    decreases cs.len() - i,
{
    let r = insert_cand_m(cs, i, x);
    if i >= cs.len() {
        assert(keys_m(r) =~= keys_m(cs).push(x.key));
    } else if cs[i as int].key == x.key {
        assert(keys_m(r) =~= keys_m(cs));
    } else if crate::text::lex_less(x.key, cs[i as int].key) {
        assert(keys_m(r) =~= keys_m(cs).insert(i as int, x.key));
    } else {
        lemma_insert_cand_keys(cs, i + 1, x);
    }
    assert forall|y: Seq<char>| #[trigger] keys_m(r).contains(y) <==> (keys_m(cs).contains(y) || y == x.key) by {
        if i >= cs.len() {
            if y == x.key {
                assert(keys_m(r)[cs.len() as int] == y);
            }
            if keys_m(cs).contains(y) {
                let j = choose|j: int| 0 <= j < keys_m(cs).len() && keys_m(cs)[j] == y;
                assert(keys_m(r)[j] == y);
            }
            if keys_m(r).contains(y) {
                let j = choose|j: int| 0 <= j < keys_m(r).len() && keys_m(r)[j] == y;
                if j < cs.len() {
                    assert(keys_m(cs)[j] == y);
                }
            }
        } else if cs[i as int].key == x.key {
            if y == x.key {
                assert(keys_m(cs)[i as int] == y);
            }
        } else if crate::text::lex_less(x.key, cs[i as int].key) {
            if y == x.key {
                assert(keys_m(r)[i as int] == y);
            }
            if keys_m(cs).contains(y) {
                let j = choose|j: int| 0 <= j < keys_m(cs).len() && keys_m(cs)[j] == y;
                if j < i {
                    assert(keys_m(r)[j] == y);
                } else {
                    assert(keys_m(r)[j + 1] == y);
                }
            }
            if keys_m(r).contains(y) {
                let j = choose|j: int| 0 <= j < keys_m(r).len() && keys_m(r)[j] == y;
                if j < i {
                    assert(keys_m(cs)[j] == y);
                } else if j > i {
                    assert(keys_m(cs)[j - 1] == y);
                }
            }
        } else {
            assert(r == insert_cand_m(cs, i + 1, x));
        }
    }
}

proof fn lemma_collect_type_covers(
    t: NodeM,
    scope: Seq<Seq<char>>,
    p: bool,
    c: Seq<CandM>,
    keys: Seq<Seq<char>>,
)
    requires
        forall|y: Seq<char>| keys_m(collect_type_m(t, scope, p, c)).contains(y) ==> keys.contains(y),
    ensures
        covered_type_m(t, scope, keys),
        forall|y: Seq<char>|
            keys_m(c).contains(y) ==> #[trigger] keys_m(collect_type_m(t, scope, p, c)).contains(y),
    decreases t, 1nat,
{
    if generated_m(t) {
    } else if !(t.kind is TypeRef) && should_alias_m(t) {
        let (key, target, args) = norm_m(t, scope, Seq::empty());
        let x = CandM { key, target, count: args.len(), public: p };
        lemma_insert_cand_keys(c, 0, x);
        assert(collect_type_m(t, scope, p, c) == insert_cand_m(c, 0, x));
        assert(keys_m(insert_cand_m(c, 0, x)).contains(key));
    } else if is_composite_m(t.kind) {
        lemma_collect_type_list_covers(t.children, scope, p, c, keys);
        assert(collect_type_m(t, scope, p, c) == collect_type_list_m(t.children, scope, p, c));
    }
}

proof fn lemma_collect_type_list_covers(
    cs: Seq<NodeM>,
    scope: Seq<Seq<char>>,
    p: bool,
    c: Seq<CandM>,
    keys: Seq<Seq<char>>,
)
    requires
        forall|y: Seq<char>| keys_m(collect_type_list_m(cs, scope, p, c)).contains(y) ==> keys.contains(y),
    ensures
        covered_types_m(cs, scope, keys),
        forall|y: Seq<char>|
            keys_m(c).contains(y) ==> #[trigger] keys_m(collect_type_list_m(cs, scope, p, c)).contains(y),
    decreases cs, 0nat,
{
    if cs.len() > 0 {
        let c1 = collect_type_m(cs[0], scope, p, c);
        lemma_collect_type_list_covers(cs.drop_first(), scope, p, c1, keys);
        assert forall|y: Seq<char>| keys_m(c1).contains(y) implies keys.contains(y) by {
            assert(keys_m(collect_type_list_m(cs.drop_first(), scope, p, c1)).contains(y));
        }
        lemma_collect_type_covers(cs[0], scope, p, c, keys);
        assert(collect_type_list_m(cs, scope, p, c) == collect_type_list_m(cs.drop_first(), scope, p, c1));
        assert forall|y: Seq<char>| keys_m(c).contains(y) implies #[trigger] keys_m(
            collect_type_list_m(cs, scope, p, c),
        ).contains(y) by {
            assert(keys_m(c1).contains(y));
        }
    }
}

proof fn lemma_collect_covers(n: NodeM, scope: Seq<Seq<char>>, p: bool, c: Seq<CandM>, keys: Seq<Seq<char>>)
    requires
        forall|y: Seq<char>| keys_m(collect_m(n, scope, p, c)).contains(y) ==> keys.contains(y),
    ensures
        covered_m(n, scope, keys),
        forall|y: Seq<char>|
            keys_m(c).contains(y) ==> #[trigger] keys_m(collect_m(n, scope, p, c)).contains(y),
    decreases n, 1nat,
{
    if is_type_kind(n.kind) {
        lemma_collect_type_covers(n, scope, p, c, keys);
    } else {
        match n.kind {
            Kind::Module | Kind::TypeAlias | Kind::Use | Kind::Raw | Kind::Opaque(_) => {},
            Kind::Struct | Kind::Union | Kind::Enum | Kind::Function { .. } => {
                assert(collect_m(n, scope, p, c) == collect_list_m(
                    n.children,
                    0,
                    scope + generics_m(n.children),
                    p || exported_m(n.children),
                    c,
                ));
                lemma_collect_list_covers(
                    n.children,
                    0,
                    scope + generics_m(n.children),
                    p || exported_m(n.children),
                    c,
                    keys,
                );
            },
            Kind::Impl => {
                assert(collect_m(n, scope, p, c) == collect_list_m(
                    n.children,
                    3,
                    scope + generics_m(n.children),
                    has_trait_m(n.children),
                    c,
                ));
                lemma_collect_list_covers(
                    n.children,
                    3,
                    scope + generics_m(n.children),
                    has_trait_m(n.children),
                    c,
                    keys,
                );
            },
            Kind::Const | Kind::LazyStatic => {
                assert(collect_m(n, scope, p, c) == collect_list_m(
                    n.children,
                    0,
                    scope,
                    p || exported_m(n.children),
                    c,
                ));
                lemma_collect_list_covers(n.children, 0, scope, p || exported_m(n.children), c, keys);
            },
            _ => {
                assert(collect_m(n, scope, p, c) == collect_list_m(n.children, 0, scope, p, c));
                lemma_collect_list_covers(n.children, 0, scope, p, c, keys);
            },
        }
    }
}

proof fn lemma_collect_list_covers(
    cs: Seq<NodeM>,
    skip: nat,
    scope: Seq<Seq<char>>,
    p: bool,
    c: Seq<CandM>,
    keys: Seq<Seq<char>>,
)
    requires
        forall|y: Seq<char>| keys_m(collect_list_m(cs, skip, scope, p, c)).contains(y) ==> keys.contains(y),
    ensures
        covered_list_m(cs, skip, scope, keys),
        forall|y: Seq<char>|
            keys_m(c).contains(y) ==> #[trigger] keys_m(collect_list_m(cs, skip, scope, p, c)).contains(y),
    decreases cs, 0nat,
{
    if cs.len() > 0 {
        if skip > 0 {
            lemma_collect_list_covers(cs.drop_first(), (skip - 1) as nat, scope, p, c, keys);
            assert(collect_list_m(cs, skip, scope, p, c) == collect_list_m(
                cs.drop_first(),
                (skip - 1) as nat,
                scope,
                p,
                c,
            ));
        } else {
            let c1 = collect_m(cs[0], scope, p, c);
            lemma_collect_list_covers(cs.drop_first(), 0, scope, p, c1, keys);
            assert forall|y: Seq<char>| keys_m(c1).contains(y) implies keys.contains(y) by {
                assert(keys_m(collect_list_m(cs.drop_first(), 0, scope, p, c1)).contains(y));
            }
            lemma_collect_covers(cs[0], scope, p, c, keys);
            assert(collect_list_m(cs, skip, scope, p, c) == collect_list_m(cs.drop_first(), 0, scope, p, c1));
            assert forall|y: Seq<char>| keys_m(c).contains(y) implies #[trigger] keys_m(
                collect_list_m(cs, skip, scope, p, c),
            ).contains(y) by {
                assert(keys_m(c1).contains(y));
            }
        }
    }
}


// ----- a rewrite leaves a settled tree -----

/// What a rewrite needs of its aliases: each key of `keys` has one, and the
/// name of each begins with the prefix of generated aliases.
pub open spec fn aliases_cover_m(pairs: Seq<(Seq<char>, Seq<char>)>, keys: Seq<Seq<char>>) -> bool {
    &&& forall|y: Seq<char>| keys.contains(y) ==> #[trigger] lookup_m(pairs, y, 0) is Some
    &&& forall|y: Seq<char>|
        #[trigger] lookup_m(pairs, y, 0) is Some ==> alias_prefix_m().is_prefix_of(
            lookup_m(pairs, y, 0)->0,
        )
}

proof fn lemma_rw_type_settles(
    t: NodeM,
    scope: Seq<Seq<char>>,
    pairs: Seq<(Seq<char>, Seq<char>)>,
    k: usize,
    keys: Seq<Seq<char>>,
)
    requires
        covered_type_m(t, scope, keys),
        aliases_cover_m(pairs, keys),
    ensures
        settled_type_m(rw_type_m(t, scope, pairs, k).0),
    decreases t, 1nat,
{
    let r = rw_type_m(t, scope, pairs, k).0;
    if generated_m(t) {
    } else if !(t.kind is TypeRef) && should_alias_m(t) {
        let (key, _target, args) = norm_m(t, scope, Seq::empty());
        assert(keys.contains(key));
        assert(lookup_m(pairs, key, 0) is Some);
        assert(generated_m(r));
    } else if is_composite_m(t.kind) {
        if !(t.kind is TypeRef) && !contains_impl_m(t) {
            lemma_light_settled(t);
            lemma_rw_type_settled(t, scope, pairs, k);
        } else {
            lemma_rw_type_list_settles(t.children, scope, pairs, k, keys);
            lemma_rw_type_keeps_impl(t, scope, pairs, k);
        }
    }
}

proof fn lemma_rw_type_list_settles(
    cs: Seq<NodeM>,
    scope: Seq<Seq<char>>,
    pairs: Seq<(Seq<char>, Seq<char>)>,
    k: usize,
    keys: Seq<Seq<char>>,
)
    requires
        covered_types_m(cs, scope, keys),
        aliases_cover_m(pairs, keys),
    ensures
        settled_types_m(rw_type_list_m(cs, scope, pairs, k).0),
    decreases cs, 0nat,
{
    if cs.len() > 0 {
        let (h, k1) = rw_type_m(cs[0], scope, pairs, k);
        let (t, k2) = rw_type_list_m(cs.drop_first(), scope, pairs, k1);
        lemma_rw_type_settles(cs[0], scope, pairs, k, keys);
        lemma_rw_type_list_settles(cs.drop_first(), scope, pairs, k1, keys);
        assert((seq![h] + t).drop_first() =~= t);
    }
}

proof fn lemma_rw_settles(
    n: NodeM,
    scope: Seq<Seq<char>>,
    pairs: Seq<(Seq<char>, Seq<char>)>,
    k: usize,
    keys: Seq<Seq<char>>,
)
    requires
        covered_m(n, scope, keys),
        aliases_cover_m(pairs, keys),
    ensures
        settled_m(rw_m(n, scope, pairs, k).0),
    decreases n, 1nat,
{
    if is_type_kind(n.kind) {
        lemma_rw_type_settles(n, scope, pairs, k, keys);
    } else {
        match n.kind {
            Kind::Module | Kind::TypeAlias | Kind::Use | Kind::Raw | Kind::Opaque(_) => {},
            Kind::Struct | Kind::Union | Kind::Enum | Kind::Function { .. } => {
                lemma_rw_list_settles(n.children, 0, scope + generics_m(n.children), pairs, k, keys);
            },
            Kind::Impl => {
                lemma_rw_list_settles(n.children, 3, scope + generics_m(n.children), pairs, k, keys);
            },
            _ => {
                lemma_rw_list_settles(n.children, 0, scope, pairs, k, keys);
            },
        }
    }
}

proof fn lemma_rw_list_settles(
    cs: Seq<NodeM>,
    skip: nat,
    scope: Seq<Seq<char>>,
    pairs: Seq<(Seq<char>, Seq<char>)>,
    k: usize,
    keys: Seq<Seq<char>>,
)
    requires
        covered_list_m(cs, skip, scope, keys),
        aliases_cover_m(pairs, keys),
    ensures
        settled_list_m(rw_list_m(cs, skip, scope, pairs, k).0, skip),
    decreases cs, 0nat,
{
    if cs.len() > 0 {
        if skip > 0 {
            let (t, k1) = rw_list_m(cs.drop_first(), (skip - 1) as nat, scope, pairs, k);
            lemma_rw_list_settles(cs.drop_first(), (skip - 1) as nat, scope, pairs, k, keys);
            assert((seq![cs[0]] + t).drop_first() =~= t);
        } else {
            let (h, k1) = rw_m(cs[0], scope, pairs, k);
            let (t, k2) = rw_list_m(cs.drop_first(), 0, scope, pairs, k1);
            lemma_rw_settles(cs[0], scope, pairs, k, keys);
            lemma_rw_list_settles(cs.drop_first(), 0, scope, pairs, k1, keys);
            assert((seq![h] + t).drop_first() =~= t);
        }
    }
}

// ----- the aliases of a module -----

/// Where a name is paired with `y`, so is the first pair with key `y`.
proof fn lemma_lookup_found(pairs: Seq<(Seq<char>, Seq<char>)>, y: Seq<char>, i: nat)
    ensures
        lookup_m(pairs, y, i) is Some <==> exists|j: int| i <= j < pairs.len() && pairs[j].0 == y,
        lookup_m(pairs, y, i) is Some ==> exists|j: int|
            i <= j < pairs.len() && pairs[j] == (y, lookup_m(pairs, y, i)->0),
    decreases pairs.len() - i,
{
    if i < pairs.len() {
        lemma_lookup_found(pairs, y, i + 1);
        if pairs[i as int].0 == y {
            assert(pairs[i as int] == (y, pairs[i as int].1));
        } else {
            if exists|j: int| i <= j < pairs.len() && pairs[j].0 == y {
                let j = choose|j: int| i <= j < pairs.len() && pairs[j].0 == y;
                assert(j != i);
                assert(i + 1 <= j);
            }
        }
    }
}

/// The aliases of candidates `cs` are type aliases, one per candidate, each
/// paired with the candidate's key under a generated name.
proof fn lemma_aliases(cs: Seq<CandM>, used: Seq<Seq<char>>)
    ensures
        aliases_m(cs, used).0.len() == cs.len(),
        aliases_m(cs, used).1.len() == cs.len(),
        forall|j: int| 0 <= j < cs.len() ==> (#[trigger] aliases_m(cs, used).0[j]).kind is TypeAlias,
        forall|j: int|
            0 <= j < cs.len() ==> (#[trigger] aliases_m(cs, used).1[j]).0 == cs[j].key
                && alias_prefix_m().is_prefix_of(aliases_m(cs, used).1[j].1),
    decreases cs.len(),
{
    if cs.len() > 0 {
        let name = fresh_alias_m(cs[0].key, used);
        lemma_fresh_alias(cs[0].key, used);
        lemma_aliases(cs.drop_first(), used.push(name));
        let (ns, ps) = aliases_m(cs.drop_first(), used.push(name));
        assert forall|j: int| 0 <= j < cs.len() implies (#[trigger] aliases_m(cs, used).0[j]).kind is TypeAlias by {
            if j > 0 {
                assert(aliases_m(cs, used).0[j] == ns[j - 1]);
            }
        }
        assert forall|j: int| 0 <= j < cs.len() implies (#[trigger] aliases_m(cs, used).1[j]).0 == cs[j].key
            && alias_prefix_m().is_prefix_of(aliases_m(cs, used).1[j].1) by {
            if j > 0 {
                assert(aliases_m(cs, used).1[j] == ps[j - 1]);
                assert(cs.drop_first()[j - 1] == cs[j]);
            }
        }
    }
}

/// The aliases of candidates `cs` cover their keys.
proof fn lemma_aliases_cover(cs: Seq<CandM>, used: Seq<Seq<char>>)
    ensures
        aliases_cover_m(aliases_m(cs, used).1, keys_m(cs)),
{
    let pairs = aliases_m(cs, used).1;
    lemma_aliases(cs, used);
    assert forall|y: Seq<char>| keys_m(cs).contains(y) implies #[trigger] lookup_m(pairs, y, 0) is Some by {
        let j = choose|j: int| 0 <= j < keys_m(cs).len() && keys_m(cs)[j] == y;
        assert(pairs[j].0 == cs[j].key);
        lemma_lookup_found(pairs, y, 0);
    }
    assert forall|y: Seq<char>| #[trigger] lookup_m(pairs, y, 0) is Some implies alias_prefix_m().is_prefix_of(
        lookup_m(pairs, y, 0)->0,
    ) by {
        lemma_lookup_found(pairs, y, 0);
        let j = choose|j: int| 0 <= j < pairs.len() && pairs[j] == (y, lookup_m(pairs, y, 0)->0);
        assert(alias_prefix_m().is_prefix_of(pairs[j].1));
    }
}


// ----- modules -----

/// Whether item `c` of a module is settled: a settled module if it is a
/// module, a settled node otherwise.
pub open spec fn settled_item_m(c: NodeM) -> bool {
    if c.kind is Module {
        settled_module_m(c)
    } else {
        settled_m(c)
    }
}

proof fn lemma_settled_items_all(cs: Seq<NodeM>)
    ensures
        settled_items_m(cs) <==> forall|i: int| 0 <= i < cs.len() ==> #[trigger] settled_item_m(cs[i]),
    decreases cs.len(),
{
    if cs.len() > 0 {
        lemma_settled_items_all(cs.drop_first());
        assert(settled_items_m(cs) == (settled_item_m(cs[0]) && settled_items_m(cs.drop_first())));
        if forall|i: int| 0 <= i < cs.len() ==> #[trigger] settled_item_m(cs[i]) {
            assert forall|i: int| 0 <= i < cs.drop_first().len() implies #[trigger] settled_item_m(
                cs.drop_first()[i],
            ) by {
                assert(settled_item_m(cs[i + 1]));
            }
            assert(settled_item_m(cs[0]));
        }
        if settled_items_m(cs) {
            assert forall|i: int| 0 <= i < cs.len() implies #[trigger] settled_item_m(cs[i]) by {
                if i > 0 {
                    assert(cs[i] == cs.drop_first()[i - 1]);
                }
            }
        }
    }
}

proof fn lemma_rw_not_module(n: NodeM, scope: Seq<Seq<char>>, pairs: Seq<(Seq<char>, Seq<char>)>, k: usize)
    requires
        !(n.kind is Module),
    ensures
        !(rw_m(n, scope, pairs, k).0.kind is Module),
{
    if is_type_kind(n.kind) {
        let t = n;
        if generated_m(t) {
        } else if !(t.kind is TypeRef) && should_alias_m(t) && lookup_m(
            pairs,
            norm_m(t, scope, Seq::empty()).0,
            0,
        ) is Some {
        } else if is_composite_m(t.kind) {
        }
    }
}

proof fn lemma_module_items_settle(
    cs: Seq<NodeM>,
    pairs: Seq<(Seq<char>, Seq<char>)>,
    a: ComplexTypeCleanupAnalysis,
    keys: Seq<Seq<char>>,
)
    requires
        covered_list_m(cs, 0, Seq::empty(), keys),
        aliases_cover_m(pairs, keys),
    ensures
        settled_items_m(module_items_m(cs, pairs, a).0),
    decreases cs, 0nat,
{
    if cs.len() > 0 {
        if cs[0].kind is Module {
            let (h, a1) = cleanup_module_m(cs[0], a);
            let (t, a2) = module_items_m(cs.drop_first(), pairs, a1);
            lemma_module_settles(cs[0], a);
            lemma_module_items_settle(cs.drop_first(), pairs, a1, keys);
            assert((seq![h] + t).drop_first() =~= t);
        } else {
            let (h, k1) = rw_m(cs[0], Seq::empty(), pairs, a.rewritten_types);
            let a1 = ComplexTypeCleanupAnalysis { rewritten_types: k1, ..a };
            let (t, a2) = module_items_m(cs.drop_first(), pairs, a1);
            lemma_rw_settles(cs[0], Seq::empty(), pairs, a.rewritten_types, keys);
            lemma_rw_not_module(cs[0], Seq::empty(), pairs, a.rewritten_types);
            lemma_module_items_settle(cs.drop_first(), pairs, a1, keys);
            assert((seq![h] + t).drop_first() =~= t);
        }
    }
}

/// A cleaned module is settled.
proof fn lemma_module_settles(m: NodeM, a: ComplexTypeCleanupAnalysis)
    ensures
        settled_module_m(cleanup_module_m(m, a).0),
    decreases m, 1nat,
{
    let cands = collect_list_m(m.children, 0, Seq::empty(), false, Seq::empty());
    let keys = keys_m(cands);
    lemma_collect_list_covers(m.children, 0, Seq::empty(), false, Seq::empty(), keys);
    let used = item_names_m(m.children);
    let (aliases, pairs) = aliases_m(cands, used);
    lemma_aliases_cover(cands, used);
    lemma_aliases(cands, used);
    lemma_module_items_settle(m.children, pairs, a, keys);
    let (cs, a1) = module_items_m(m.children, pairs, a);
    let pos = first_non_use_m(cs, 0);
    lemma_first_non_use_bound(cs, 0);
    let all = cs.take(pos as int) + aliases + cs.skip(pos as int);
    lemma_settled_items_all(cs);
    assert forall|i: int| 0 <= i < all.len() implies #[trigger] settled_item_m(all[i]) by {
        if i < pos {
            assert(all[i] == cs[i]);
        } else if i < pos + aliases.len() {
            assert(all[i] == aliases[i - pos]);
            assert(aliases[i - pos].kind is TypeAlias);
        } else {
            assert(all[i] == cs[i - aliases.len()]);
        }
    }
    lemma_settled_items_all(all);
}

proof fn lemma_collect_items_settled(cs: Seq<NodeM>, c: Seq<CandM>)
    requires
        settled_items_m(cs),
    ensures
        collect_list_m(cs, 0, Seq::empty(), false, c) == c,
    decreases cs.len(),
{
    if cs.len() > 0 {
        assert(settled_items_m(cs.drop_first()));
        if !(cs[0].kind is Module) {
            lemma_collect_settled(cs[0], Seq::empty(), false, c);
        }
        assert(collect_m(cs[0], Seq::empty(), false, c) == c);
        lemma_collect_items_settled(cs.drop_first(), c);
    }
}

proof fn lemma_module_items_fixed(
    cs: Seq<NodeM>,
    pairs: Seq<(Seq<char>, Seq<char>)>,
    a: ComplexTypeCleanupAnalysis,
)
    requires
        settled_items_m(cs),
    ensures
        module_items_m(cs, pairs, a) == (cs, a),
    decreases cs, 0nat,
{
    if cs.len() > 0 {
        if cs[0].kind is Module {
            lemma_settled_module_fixed(cs[0], a);
        } else {
            lemma_rw_settled(cs[0], Seq::empty(), pairs, a.rewritten_types);
            assert(ComplexTypeCleanupAnalysis { rewritten_types: a.rewritten_types, ..a } == a);
        }
        lemma_module_items_fixed(cs.drop_first(), pairs, a);
        assert(seq![cs[0]] + cs.drop_first() =~= cs);
    }
}

/// Cleaning a module in which no type is worth an alias (as the cleanup
/// finds them) changes nothing and counts nothing.
pub proof fn lemma_settled_module_fixed(m: NodeM, a: ComplexTypeCleanupAnalysis)
    requires
        settled_module_m(m),
    ensures
        cleanup_module_m(m, a) == (m, a),
    decreases m, 1nat,
{
    lemma_collect_items_settled(m.children, Seq::empty());
    let used = item_names_m(m.children);
    assert(aliases_m(Seq::<CandM>::empty(), used) == (
        Seq::<NodeM>::empty(),
        Seq::<(Seq<char>, Seq<char>)>::empty(),
    ));
    lemma_module_items_fixed(m.children, Seq::empty(), a);
    let pos = first_non_use_m(m.children, 0);
    lemma_first_non_use_bound(m.children, 0);
    assert(m.children.take(pos as int) + Seq::<NodeM>::empty() + m.children.skip(pos as int)
        =~= m.children);
    assert(mk(m.kind, m.text, m.children) == m);
    assert(ComplexTypeCleanupAnalysis {
        aliases_created: add_saturating(a.aliases_created, 0),
        ..a
    } == a);
}

/// The cleanup reaches a fixed point at once: cleaning a cleaned module
/// again leaves it as it is and reports no alias created and no type
/// rewritten.
pub proof fn lemma_cleanup_idempotent(
    m: NodeM,
    a: ComplexTypeCleanupAnalysis,
    b: ComplexTypeCleanupAnalysis,
)
    ensures
        cleanup_module_m(cleanup_module_m(m, a).0, b) == (cleanup_module_m(m, a).0, b),
{
    lemma_module_settles(m, a);
    lemma_settled_module_fixed(cleanup_module_m(m, a).0, b);
}

/// The aliases given to the candidates `cs` of a module whose items are
/// named `used` have pairwise distinct names, none of them the name of an
/// item of the module.
pub proof fn lemma_alias_names_fresh(cs: Seq<CandM>, used: Seq<Seq<char>>)
    ensures
        forall|j: int| 0 <= j < cs.len() ==> !used.contains(#[trigger] aliases_m(cs, used).0[j].text),
        forall|i: int, j: int|
            0 <= i < j < cs.len() ==> #[trigger] aliases_m(cs, used).0[i].text != #[trigger] aliases_m(
                cs,
                used,
            ).0[j].text,
    decreases cs.len(),
{
    if cs.len() > 0 {
        let name = fresh_alias_m(cs[0].key, used);
        lemma_fresh_alias(cs[0].key, used);
        let used1 = used.push(name);
        lemma_alias_names_fresh(cs.drop_first(), used1);
        lemma_aliases(cs, used);
        let items = aliases_m(cs, used).0;
        let rest = aliases_m(cs.drop_first(), used1).0;
        assert(items[0].text == name);
        assert forall|j: int| 0 < j < cs.len() implies items[j] == rest[j - 1] by {}
        assert forall|j: int| 0 <= j < cs.len() implies !used.contains(#[trigger] items[j].text) by {
            if j > 0 {
                assert(!used1.contains(rest[j - 1].text));
                if used.contains(rest[j - 1].text) {
                    let k = choose|k: int| 0 <= k < used.len() && used[k] == rest[j - 1].text;
                    assert(used1[k] == rest[j - 1].text);
                }
            }
        }
        assert forall|i: int, j: int| 0 <= i < j < cs.len() implies #[trigger] items[i].text
            != #[trigger] items[j].text by {
            if i == 0 {
                assert(!used1.contains(rest[j - 1].text));
                assert(used1[used.len() as int] == name);
            } else {
                assert(rest[i - 1].text != rest[j - 1].text);
            }
        }
    }
}

// ----- renaming generic parameters -----

/// Type `t` with every generic parameter of `scope` that it names renamed by
/// `sigma`.
pub open spec fn rename_m(t: NodeM, scope: Seq<Seq<char>>, sigma: spec_fn(Seq<char>) -> Seq<char>) -> NodeM
    decreases t, 1nat,
{
    if t.kind is TypeNamed {
        if scope.contains(t.text) {
            mk(Kind::TypeNamed, sigma(t.text), t.children)
        } else {
            t
        }
    } else if is_composite_m(t.kind) {
        mk(t.kind, t.text, rename_list_m(t.children, scope, sigma))
    } else {
        t
    }
}

pub open spec fn rename_list_m(cs: Seq<NodeM>, scope: Seq<Seq<char>>, sigma: spec_fn(Seq<char>) -> Seq<char>) -> Seq<NodeM>
    decreases cs, 0nat,
{
    if cs.len() == 0 {
        cs
    } else {
        seq![rename_m(cs[0], scope, sigma)] + rename_list_m(cs.drop_first(), scope, sigma)
    }
}

/// Whether every name in `t` that is not a generic parameter of `scope`
/// stays outside `scope2`, so that a renaming captures none of them.
pub open spec fn keeps_free_m(t: NodeM, scope: Seq<Seq<char>>, scope2: Seq<Seq<char>>) -> bool
    decreases t, 1nat,
{
    if t.kind is TypeNamed {
        scope.contains(t.text) || !scope2.contains(t.text)
    } else if is_composite_m(t.kind) {
        keeps_free_list_m(t.children, scope, scope2)
    } else {
        true
    }
}

pub open spec fn keeps_free_list_m(cs: Seq<NodeM>, scope: Seq<Seq<char>>, scope2: Seq<Seq<char>>) -> bool
    decreases cs, 0nat,
{
    cs.len() == 0 || (keeps_free_m(cs[0], scope, scope2) && keeps_free_list_m(cs.drop_first(), scope, scope2))
}

/// Whether `sigma` renames the names of `scope` without merging two.
pub open spec fn renames_apart(scope: Seq<Seq<char>>, sigma: spec_fn(Seq<char>) -> Seq<char>) -> bool {
    forall|a: Seq<char>, b: Seq<char>|
        scope.contains(a) && scope.contains(b) && #[trigger] sigma(a) == #[trigger] sigma(b) ==> a == b
}

proof fn lemma_index_renamed(
    seen: Seq<Seq<char>>,
    g: Seq<char>,
    i: nat,
    scope: Seq<Seq<char>>,
    sigma: spec_fn(Seq<char>) -> Seq<char>,
)
    requires
        renames_apart(scope, sigma),
        scope.contains(g),
        forall|x: Seq<char>| seen.contains(x) ==> scope.contains(x),
    ensures
        index_from_m(seen.map_values(sigma), sigma(g), i) == index_from_m(seen, g, i),
    decreases seen.len() - i,
{
    if i < seen.len() {
        assert(seen.contains(seen[i as int]));
        assert(seen.map_values(sigma)[i as int] == sigma(seen[i as int]));
        lemma_index_renamed(seen, g, i + 1, scope, sigma);
    }
}

proof fn lemma_in_renamed_scope(scope: Seq<Seq<char>>, sigma: spec_fn(Seq<char>) -> Seq<char>, g: Seq<char>)
    requires
        scope.contains(g),
    ensures
        scope.map_values(sigma).contains(sigma(g)),
{
    let j = choose|j: int| 0 <= j < scope.len() && scope[j] == g;
    assert(scope.map_values(sigma)[j] == sigma(g));
}

proof fn lemma_index_bound(seen: Seq<Seq<char>>, g: Seq<char>, i: nat)
    ensures
        index_from_m(seen, g, i) <= seen.len(),
        index_from_m(seen, g, i) < seen.len() ==> seen[index_from_m(seen, g, i) as int] == g,
    decreases seen.len() - i,
{
    if i < seen.len() && seen[i as int] != g {
        lemma_index_bound(seen, g, i + 1);
    }
}

/// Normalising a type does not depend on how its generic parameters are
/// named: renaming them apart, without capturing another name of the type,
/// gives the same key and target, and the same generic arguments up to the
/// renaming.
pub proof fn lemma_norm_rename(
    t: NodeM,
    scope: Seq<Seq<char>>,
    seen: Seq<Seq<char>>,
    sigma: spec_fn(Seq<char>) -> Seq<char>,
)
    requires
        renames_apart(scope, sigma),
        forall|x: Seq<char>| seen.contains(x) ==> scope.contains(x),
        keeps_free_m(t, scope, scope.map_values(sigma)),
    ensures
        norm_m(rename_m(t, scope, sigma), scope.map_values(sigma), seen.map_values(sigma)) == (
            norm_m(t, scope, seen).0,
            norm_m(t, scope, seen).1,
            norm_m(t, scope, seen).2.map_values(sigma),
        ),
        forall|x: Seq<char>| norm_m(t, scope, seen).2.contains(x) ==> scope.contains(x),
    decreases t, 1nat,
{
    let scope2 = scope.map_values(sigma);
    if t.kind is TypeNamed {
        if scope.contains(t.text) {
            lemma_in_renamed_scope(scope, sigma, t.text);
            lemma_index_renamed(seen, t.text, 0, scope, sigma);
            lemma_index_bound(seen, t.text, 0);
            assert(seen.push(t.text).map_values(sigma) =~= seen.map_values(sigma).push(sigma(t.text)));
            let s1 = norm_m(t, scope, seen).2;
            assert forall|x: Seq<char>| s1.contains(x) implies scope.contains(x) by {
                if !seen.contains(x) {
                    let j = choose|j: int| 0 <= j < s1.len() && s1[j] == x;
                    assert(j == seen.len());
                }
            }
        }
    } else if is_composite_m(t.kind) {
        lemma_norm_list_rename(t.children, scope, seen, sigma);
    }
}

proof fn lemma_norm_list_rename(
    cs: Seq<NodeM>,
    scope: Seq<Seq<char>>,
    seen: Seq<Seq<char>>,
    sigma: spec_fn(Seq<char>) -> Seq<char>,
)
    requires
        renames_apart(scope, sigma),
        forall|x: Seq<char>| seen.contains(x) ==> scope.contains(x),
        keeps_free_list_m(cs, scope, scope.map_values(sigma)),
    ensures
        norm_list_m(rename_list_m(cs, scope, sigma), scope.map_values(sigma), seen.map_values(sigma)) == (
            norm_list_m(cs, scope, seen).0,
            norm_list_m(cs, scope, seen).1,
            norm_list_m(cs, scope, seen).2.map_values(sigma),
        ),
        forall|x: Seq<char>| norm_list_m(cs, scope, seen).2.contains(x) ==> scope.contains(x),
    decreases cs, 0nat,
{
    if cs.len() > 0 {
        let rs = rename_list_m(cs, scope, sigma);
        assert(rs[0] == rename_m(cs[0], scope, sigma));
        assert(rs.drop_first() =~= rename_list_m(cs.drop_first(), scope, sigma));
        lemma_norm_rename(cs[0], scope, seen, sigma);
        let s1 = norm_m(cs[0], scope, seen).2;
        lemma_norm_list_rename(cs.drop_first(), scope, s1, sigma);
    }
}

/// The generic arguments that normalising a type collects extend those
/// met before, in order of first occurrence, each once.
pub proof fn lemma_norm_arguments(t: NodeM, scope: Seq<Seq<char>>, seen: Seq<Seq<char>>)
    requires
        seen.no_duplicates(),
    ensures
        norm_m(t, scope, seen).2.no_duplicates(),
        seen.is_prefix_of(norm_m(t, scope, seen).2),
    decreases t, 1nat,
{
    if t.kind is TypeNamed {
        if scope.contains(t.text) {
            lemma_index_bound(seen, t.text, 0);
            lemma_index_absent(seen, t.text, 0);
            assert(seen =~= seen.push(t.text).subrange(0, seen.len() as int));
        } else {
            assert(seen =~= seen.subrange(0, seen.len() as int));
        }
    } else if is_composite_m(t.kind) {
        lemma_norm_list_arguments(t.children, scope, seen);
    } else {
        assert(seen =~= seen.subrange(0, seen.len() as int));
    }
}

proof fn lemma_norm_list_arguments(cs: Seq<NodeM>, scope: Seq<Seq<char>>, seen: Seq<Seq<char>>)
    requires
        seen.no_duplicates(),
    ensures
        norm_list_m(cs, scope, seen).2.no_duplicates(),
        seen.is_prefix_of(norm_list_m(cs, scope, seen).2),
    decreases cs, 0nat,
{
    if cs.len() > 0 {
        lemma_norm_arguments(cs[0], scope, seen);
        let s1 = norm_m(cs[0], scope, seen).2;
        lemma_norm_list_arguments(cs.drop_first(), scope, s1);
        let s2 = norm_list_m(cs.drop_first(), scope, s1).2;
        assert(seen =~= s2.subrange(0, seen.len() as int));
    } else {
        assert(seen =~= seen.subrange(0, seen.len() as int));
    }
}

/// Where the search for `g` runs off the end, `g` is not in `seen` from `i`.
proof fn lemma_index_absent(seen: Seq<Seq<char>>, g: Seq<char>, i: nat)
    ensures
        index_from_m(seen, g, i) == seen.len() ==> forall|j: int| i <= j < seen.len() ==> seen[j] != g,
    decreases seen.len() - i,
{
    if i < seen.len() && seen[i as int] != g {
        lemma_index_absent(seen, g, i + 1);
    }
}

} // verus!
