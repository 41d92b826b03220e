//! Extraction of complex type expressions into module-local type aliases.
//!
//! Every type written in a module whose complexity (after Clippy's
//! `type_complexity` lint) is above the threshold gets an alias. Types that
//! agree up to the naming of their generic parameters share one alias, which
//! takes those parameters as its own. The aliases are named after a hash of
//! the type's normal form, so that the same type gets the same name from
//! run to run, and they are inserted after the module's leading `use` and
//! source-kept items. Existing aliases, references at the top of a type, and
//! types holding an `impl` callable are left as they are. Nested modules are
//! cleaned each on its own.
use vstd::prelude::*;
use vstd::string::*;

use crate::ast::{Kind, Node, Nodes};
use crate::boolean_cleanup::{bump_count, collect_texts, is_type, is_type_kind, texts_m};
use crate::model::{
    child, copy_node, leaf, lemma_cons, mk, node, node3, node_m, nodes_into_vec,
    nodes_m, views_m, NodeM,
};
use crate::text::{lemma_views_push, lex_less, lex_less_text, string_of, views};
use crate::type_key::{
    fresh_alias_m, fresh_alias_name, generated_m, is_composite, is_composite_m, is_generated,
    norm_m, normalize, param_name, param_name_m, should_alias, should_alias_m,
};

verus! {

/// Counts of what a complex-type cleanup did.
#[derive(Debug, Clone, Copy, PartialEq, Eq, Structural)]
pub struct ComplexTypeCleanupAnalysis {
    /// Aliases inserted, over all modules.
    pub aliases_created: usize,
    /// Type positions replaced by an alias.
    pub rewritten_types: usize,
}

/// The analysis with both counts at zero.
pub open spec fn no_alias_counts() -> ComplexTypeCleanupAnalysis {
    ComplexTypeCleanupAnalysis { aliases_created: 0, rewritten_types: 0 }
}

impl ComplexTypeCleanupAnalysis {
    /// An analysis with both counts at zero.
    pub fn new() -> (a: ComplexTypeCleanupAnalysis)
        ensures
            a == no_alias_counts(),
    {
        ComplexTypeCleanupAnalysis { aliases_created: 0, rewritten_types: 0 }
    }
}

impl Default for ComplexTypeCleanupAnalysis {
    fn default() -> (a: ComplexTypeCleanupAnalysis)
        ensures
            a == no_alias_counts(),
    {
        ComplexTypeCleanupAnalysis::new()
    }
}

/// `x + k`, or the largest `usize` where that is larger.
pub open spec fn add_saturating(x: usize, k: nat) -> usize {
    if x + k > usize::MAX {
        usize::MAX
    } else {
        (x + k) as usize
    }
}

// ----- candidates -----

/// A type found worth an alias: the key of its normal form, its normal
/// form, the number of its generic parameters, and whether it occurs in an
/// item that is visible outside its module.
pub struct CandM {
    pub key: Seq<char>,
    pub target: NodeM,
    pub count: nat,
    pub public: bool,
}

/// `cs`, kept in ascending order of keys, with candidate `c` recorded:
/// where a candidate of the same key is there, it becomes public if `c` is;
/// otherwise `c` goes before the first candidate with a greater key. `i` is
/// where the search stands.
pub open spec fn insert_cand_m(cs: Seq<CandM>, i: nat, c: CandM) -> Seq<CandM>
    decreases cs.len() - i,
{
    if i >= cs.len() {
        cs.push(c)
    } else if cs[i as int].key == c.key {
        cs.update(i as int, CandM { public: cs[i as int].public || c.public, ..cs[i as int] })
    } else if lex_less(c.key, cs[i as int].key) {
        cs.insert(i as int, c)
    } else {
        insert_cand_m(cs, i + 1, c)
    }
}

// ----- items -----

/// The names of the generic parameters declared among `cs`, the children
/// of an item.
pub open spec fn generics_m(cs: Seq<NodeM>) -> Seq<Seq<char>>
    decreases cs.len(),
{
    if cs.len() == 0 {
        Seq::empty()
    } else if cs[0].kind is Generics {
        texts_m(cs[0].children)
    } else {
        generics_m(cs.drop_first())
    }
}

/// Whether the item with children `cs` is visible outside its module
/// (`pub` or `pub(..)`).
pub open spec fn exported_m(cs: Seq<NodeM>) -> bool
    decreases cs.len(),
{
    if cs.len() == 0 {
        false
    } else if cs[0].kind is Visibility {
        cs[0].text.len() > 0
    } else {
        exported_m(cs.drop_first())
    }
}

/// Whether the impl block with children `cs` implements a trait.
pub open spec fn has_trait_m(cs: Seq<NodeM>) -> bool {
    cs.len() > 2 && !(cs[2].kind is Absent)
}

/// The candidates `c` with those of the type positions of `n` recorded,
/// where `scope` lists the generic parameters in scope and `public` says
/// whether `n` sits in an item visible outside its module. Modules, type
/// aliases and items kept as source are not looked into, nor the target
/// type and trait of an impl block; the items of an impl block count as
/// visible where it implements a trait.
pub open spec fn collect_m(n: NodeM, scope: Seq<Seq<char>>, public: bool, c: Seq<CandM>) -> Seq<CandM>
    decreases n, 1nat,
{
    if is_type_kind(n.kind) {
        collect_type_m(n, scope, public, c)
    } else {
        match n.kind {
            Kind::Module | Kind::TypeAlias | Kind::Use | Kind::Raw | Kind::Opaque(_) => c,
            Kind::Struct | Kind::Union | Kind::Enum | Kind::Function { .. } => collect_list_m(
                n.children,
                0,
                scope + generics_m(n.children),
                public || exported_m(n.children),
                c,
            ),
            Kind::Impl => collect_list_m(
                n.children,
                3,
                scope + generics_m(n.children),
                has_trait_m(n.children),
                c,
            ),
            Kind::Const | Kind::LazyStatic => collect_list_m(
                n.children,
                0,
                scope,
                public || exported_m(n.children),
                c,
            ),
            _ => collect_list_m(n.children, 0, scope, public, c),
        }
    }
}

/// The candidates `c` with those of `cs` recorded, past the first `skip`.
pub open spec fn collect_list_m(
    cs: Seq<NodeM>,
    skip: nat,
    scope: Seq<Seq<char>>,
    public: bool,
    c: Seq<CandM>,
) -> Seq<CandM>
    decreases cs, 0nat,
{
    if cs.len() == 0 {
        c
    } else if skip > 0 {
        collect_list_m(cs.drop_first(), (skip - 1) as nat, scope, public, c)
    } else {
        collect_list_m(cs.drop_first(), 0, scope, public, collect_m(cs[0], scope, public, c))
    }
}

/// The candidates `c` with those of the type position `t` recorded: `t`
/// itself where it is worth an alias and not a reference, otherwise what
/// its parts hold. Generated aliases are not looked into.
pub open spec fn collect_type_m(t: NodeM, scope: Seq<Seq<char>>, public: bool, c: Seq<CandM>) -> Seq<CandM>
    decreases t, 1nat,
{
    if generated_m(t) {
        c
    } else if !(t.kind is TypeRef) && should_alias_m(t) {
        let (key, target, args) = norm_m(t, scope, Seq::empty());
        insert_cand_m(c, 0, CandM { key, target, count: args.len(), public })
    } else if is_composite_m(t.kind) {
        collect_type_list_m(t.children, scope, public, c)
    } else {
        c
    }
}

pub open spec fn collect_type_list_m(cs: Seq<NodeM>, scope: Seq<Seq<char>>, public: bool, c: Seq<CandM>) -> Seq<CandM>
    decreases cs, 0nat,
{
    if cs.len() == 0 {
        c
    } else {
        collect_type_list_m(cs.drop_first(), scope, public, collect_type_m(cs[0], scope, public, c))
    }
}

// ----- rewriting -----

/// The name paired with `key` in `pairs`, searching from `i`.
pub open spec fn lookup_m(pairs: Seq<(Seq<char>, Seq<char>)>, key: Seq<char>, i: nat) -> Option<Seq<char>>
    decreases pairs.len() - i,
{
    if i >= pairs.len() {
        None
    } else if pairs[i as int].0 == key {
        Some(pairs[i as int].1)
    } else {
        lookup_m(pairs, key, i + 1)
    }
}

/// The types named `args`.
pub open spec fn named_m(args: Seq<Seq<char>>) -> Seq<NodeM> {
    args.map_values(|a: Seq<char>| mk(Kind::TypeNamed, a, Seq::empty()))
}

/// A use of alias `name` with the generic arguments `args`.
pub open spec fn alias_ref_m(name: Seq<char>, args: Seq<Seq<char>>) -> NodeM {
    if args.len() == 0 {
        mk(Kind::TypeNamed, name, Seq::empty())
    } else {
        mk(Kind::TypeGeneric, name, named_m(args))
    }
}

/// The type position `t` with each part that `pairs` has an alias for
/// replaced by a use of that alias, the generic parameters it mentions as
/// arguments; `k` counts the replacements.
pub open spec fn rw_type_m(
    t: NodeM,
    scope: Seq<Seq<char>>,
    pairs: Seq<(Seq<char>, Seq<char>)>,
    k: usize,
) -> (NodeM, usize)
    decreases t, 1nat,
{
    if generated_m(t) {
        (t, k)
    } else if !(t.kind is TypeRef) && should_alias_m(t) && lookup_m(
        pairs,
        norm_m(t, scope, Seq::empty()).0,
        0,
    ) is Some {
        let (key, _target, args) = norm_m(t, scope, Seq::empty());
        (alias_ref_m(lookup_m(pairs, key, 0)->0, args), bump_count(k))
    } else if is_composite_m(t.kind) {
        let (cs, k1) = rw_type_list_m(t.children, scope, pairs, k);
        (mk(t.kind, t.text, cs), k1)
    } else {
        (t, k)
    }
}

pub open spec fn rw_type_list_m(
    cs: Seq<NodeM>,
    scope: Seq<Seq<char>>,
    pairs: Seq<(Seq<char>, Seq<char>)>,
    k: usize,
) -> (Seq<NodeM>, usize)
    decreases cs, 0nat,
{
    if cs.len() == 0 {
        (cs, k)
    } else {
        let (h, k1) = rw_type_m(cs[0], scope, pairs, k);
        let (t, k2) = rw_type_list_m(cs.drop_first(), scope, pairs, k1);
        (seq![h] + t, k2)
    }
}

/// Node `n` with its type positions rewritten, found as `collect_m` finds
/// them.
pub open spec fn rw_m(n: NodeM, scope: Seq<Seq<char>>, pairs: Seq<(Seq<char>, Seq<char>)>, k: usize) -> (
    NodeM,
    usize,
)
    decreases n, 1nat,
{
    if is_type_kind(n.kind) {
        rw_type_m(n, scope, pairs, k)
    } else {
        match n.kind {
            Kind::Module | Kind::TypeAlias | Kind::Use | Kind::Raw | Kind::Opaque(_) => (n, k),
            Kind::Struct | Kind::Union | Kind::Enum | Kind::Function { .. } => {
                let (cs, k1) = rw_list_m(n.children, 0, scope + generics_m(n.children), pairs, k);
                (mk(n.kind, n.text, cs), k1)
            },
            Kind::Impl => {
                let (cs, k1) = rw_list_m(n.children, 3, scope + generics_m(n.children), pairs, k);
                (mk(n.kind, n.text, cs), k1)
            },
            _ => {
                let (cs, k1) = rw_list_m(n.children, 0, scope, pairs, k);
                (mk(n.kind, n.text, cs), k1)
            },
        }
    }
}

/// The nodes `cs` rewritten, past the first `skip`, which stay.
pub open spec fn rw_list_m(
    cs: Seq<NodeM>,
    skip: nat,
    scope: Seq<Seq<char>>,
    pairs: Seq<(Seq<char>, Seq<char>)>,
    k: usize,
) -> (Seq<NodeM>, usize)
    decreases cs, 0nat,
{
    if cs.len() == 0 {
        (cs, k)
    } else if skip > 0 {
        let (t, k1) = rw_list_m(cs.drop_first(), (skip - 1) as nat, scope, pairs, k);
        (seq![cs[0]] + t, k1)
    } else {
        let (h, k1) = rw_m(cs[0], scope, pairs, k);
        let (t, k2) = rw_list_m(cs.drop_first(), 0, scope, pairs, k1);
        (seq![h] + t, k2)
    }
}

// ----- modules -----

/// Whether an item of kind `k` has a name that an alias must not take.
pub open spec fn named_item_m(k: Kind) -> bool {
    match k {
        Kind::Struct | Kind::Union | Kind::Enum | Kind::Function { .. } | Kind::Const
        | Kind::TypeAlias | Kind::Module | Kind::LazyStatic => true,
        _ => false,
    }
}

/// The names of the named items among `cs`.
pub open spec fn item_names_m(cs: Seq<NodeM>) -> Seq<Seq<char>>
    decreases cs.len(),
{
    if cs.len() == 0 {
        Seq::empty()
    } else if named_item_m(cs[0].kind) {
        seq![cs[0].text] + item_names_m(cs.drop_first())
    } else {
        item_names_m(cs.drop_first())
    }
}

/// The generic parameters `I2rT0`, .., of an alias with `k` of them.
pub open spec fn params_m(k: nat) -> Seq<NodeM> {
    Seq::new(k, |i: int| mk(Kind::Generic, param_name_m(i as nat), Seq::empty()))
}

/// The alias named `name` of candidate `c`: public where `c` is.
pub open spec fn alias_item_m(name: Seq<char>, c: CandM) -> NodeM {
    mk(
        Kind::TypeAlias,
        name,
        seq![
            mk(
                Kind::Visibility,
                if c.public {
                    "pub"@
                } else {
                    Seq::empty()
                },
                Seq::empty(),
            ),
            mk(Kind::Generics, Seq::empty(), params_m(c.count)),
            c.target,
        ],
    )
}

/// The aliases of the candidates `cs`, in order, with the pairs of their
/// keys and names; `used` holds the names they must avoid, which each
/// alias's name then joins.
pub open spec fn aliases_m(cs: Seq<CandM>, used: Seq<Seq<char>>) -> (Seq<NodeM>, Seq<(Seq<char>, Seq<char>)>)
    decreases cs.len(),
{
    if cs.len() == 0 {
        (Seq::empty(), Seq::empty())
    } else {
        let name = fresh_alias_m(cs[0].key, used);
        let (ns, ps) = aliases_m(cs.drop_first(), used.push(name));
        (seq![alias_item_m(name, cs[0])] + ns, seq![(cs[0].key, name)] + ps)
    }
}

/// The position of the first of `cs`, from `i` on, that is neither a `use`
/// nor kept as source, or the length of `cs`.
pub open spec fn first_non_use_m(cs: Seq<NodeM>, i: nat) -> nat
    decreases cs.len() - i,
{
    if i >= cs.len() {
        cs.len()
    } else if cs[i as int].kind is Use || cs[i as int].kind is Raw {
        first_non_use_m(cs, i + 1)
    } else {
        i
    }
}

pub proof fn lemma_first_non_use_bound(cs: Seq<NodeM>, i: nat)
    ensures
        first_non_use_m(cs, i) <= cs.len(),
    decreases cs.len() - i,
{
    if i < cs.len() {
        lemma_first_non_use_bound(cs, i + 1);
    }
}

/// The items `cs` of a module whose aliases are `pairs`: nested modules
/// cleaned, the others rewritten.
pub open spec fn module_items_m(
    cs: Seq<NodeM>,
    pairs: Seq<(Seq<char>, Seq<char>)>,
    a: ComplexTypeCleanupAnalysis,
) -> (Seq<NodeM>, ComplexTypeCleanupAnalysis)
    decreases cs, 0nat,
{
    if cs.len() == 0 {
        (cs, a)
    } else if cs[0].kind is Module {
        let (h, a1) = cleanup_module_m(cs[0], a);
        let (t, a2) = module_items_m(cs.drop_first(), pairs, a1);
        (seq![h] + t, a2)
    } else {
        let (h, k1) = rw_m(cs[0], Seq::empty(), pairs, a.rewritten_types);
        let (t, a2) = module_items_m(
            cs.drop_first(),
            pairs,
            ComplexTypeCleanupAnalysis { rewritten_types: k1, ..a },
        );
        (seq![h] + t, a2)
    }
}

/// Module `m` cleaned, counting into `a`: the candidates of its items are
/// collected, given aliases in ascending order of keys, their occurrences
/// rewritten, and the aliases inserted before the first item that is
/// neither a `use` nor kept as source.
pub open spec fn cleanup_module_m(m: NodeM, a: ComplexTypeCleanupAnalysis) -> (NodeM, ComplexTypeCleanupAnalysis)
    decreases m, 1nat,
{
    let cands = collect_list_m(m.children, 0, Seq::empty(), false, Seq::empty());
    let (aliases, pairs) = aliases_m(cands, item_names_m(m.children));
    let (cs, a1) = module_items_m(m.children, pairs, a);
    let pos = first_non_use_m(cs, 0);
    (
        mk(m.kind, m.text, cs.take(pos as int) + aliases + cs.skip(pos as int)),
        ComplexTypeCleanupAnalysis {
            aliases_created: add_saturating(a1.aliases_created, aliases.len()),
            ..a1
        },
    )
}


// ----- executable candidates -----

/// A type found worth an alias.
struct Candidate {
    key: String,
    target: Node,
    count: usize,
    public: bool,
}

spec fn cand_m(c: Candidate) -> CandM {
    CandM { key: c.key@, target: c.target@, count: c.count as nat, public: c.public }
}

spec fn cands_m(v: Seq<Candidate>) -> Seq<CandM> {
    v.map_values(|c: Candidate| cand_m(c))
}

/// Records candidate `c` in `v`, kept in ascending order of keys.
fn insert_candidate(v: &mut Vec<Candidate>, c: Candidate)
    ensures
        cands_m(final(v)@) == insert_cand_m(cands_m(old(v)@), 0, cand_m(c)),
{
    let ghost v0 = cands_m(v@);
    let ghost cm = cand_m(c);
    let mut i: usize = 0;
    while i < v.len()
        invariant
            i <= v@.len(),
            cands_m(v@) == v0,
            v0 == cands_m(old(v)@),
            v0.len() == v@.len(),
            cm == cand_m(c),
            insert_cand_m(v0, 0, cm) == insert_cand_m(v0, i as nat, cm),
        decreases v@.len() - i,
    {
        assert(v0[i as int] == cand_m(v@[i as int]));
        if v[i].key == c.key {
            assert(v0[i as int].key == cm.key);
            assert(insert_cand_m(v0, i as nat, cm) == v0.update(
                i as int,
                CandM { public: v0[i as int].public || cm.public, ..v0[i as int] },
            ));
            let mut found = v.remove(i);
            found.public = found.public || c.public;
            v.insert(i, found);
            assert(cands_m(v@) =~= v0.update(
                i as int,
                CandM { public: v0[i as int].public || cm.public, ..v0[i as int] },
            ));
            return ;
        }
        assert(v0[i as int].key != cm.key);
        if lex_less_text(c.key.as_str(), v[i].key.as_str()) {
            assert(insert_cand_m(v0, i as nat, cm) == v0.insert(i as int, cm));
            v.insert(i, c);
            assert(cands_m(v@) =~= v0.insert(i as int, cm));
            return ;
        }
        i = i + 1;
    }
    v.push(c);
    assert(cands_m(v@) =~= v0.push(cm));
}

// ----- executable items -----

/// Appends the names of the generic parameters declared among `l` to `out`.
fn push_generics(l: &Nodes, out: &mut Vec<String>)
    ensures
        views(final(out)@) == views(old(out)@) + generics_m(nodes_m(*l)),
    decreases l,
{
    match l {
        Nodes::Nil => {
            assert(views(out@) + generics_m(nodes_m(*l)) =~= views(out@));
        },
        Nodes::Cons(h, rest) => {
            proof {
                lemma_cons(node_m(**h), nodes_m(**rest));
            }
            if matches!(h.kind, Kind::Generics) {
                collect_texts(&h.children, out);
            } else {
                push_generics(rest, out);
            }
        },
    }
}

/// The names of `scope` followed by those of the generic parameters
/// declared among `l`.
fn scope_with(scope: &Vec<String>, l: &Nodes) -> (r: Vec<String>)
    ensures
        views(r@) == views(scope@) + generics_m(nodes_m(*l)),
{
    let mut r: Vec<String> = Vec::new();
    let mut i: usize = 0;
    while i < scope.len()
        invariant
            i <= scope@.len(),
            views(r@) == views(scope@).take(i as int),
        decreases scope@.len() - i,
    {
        proof {
            lemma_views_push(r@, scope@[i as int]);
        }
        r.push(scope[i].clone());
        assert(views(scope@).take(i + 1) =~= views(scope@).take(i as int).push(scope@[i as int]@));
        i = i + 1;
    }
    assert(views(scope@).take(i as int) =~= views(scope@));
    push_generics(l, &mut r);
    r
}

/// Whether the item with children `l` is visible outside its module.
fn exported(l: &Nodes) -> (b: bool)
    ensures
        b == exported_m(nodes_m(*l)),
    decreases l,
{
    match l {
        Nodes::Nil => false,
        Nodes::Cons(h, rest) => {
            proof {
                lemma_cons(node_m(**h), nodes_m(**rest));
            }
            if matches!(h.kind, Kind::Visibility) {
                h.text.as_str().unicode_len() > 0
            } else {
                exported(rest)
            }
        },
    }
}

/// Whether the impl block with children `l` implements a trait.
fn has_trait(l: &Nodes) -> (b: bool)
    ensures
        b == has_trait_m(nodes_m(*l)),
{
    match child(l, 2) {
        Some(t) => !matches!(t.kind, Kind::Absent),
        None => false,
    }
}

// ----- executable collection -----

/// Records the candidates of node `n` in `cands`.
fn collect(n: &Node, scope: &Vec<String>, public: bool, cands: &mut Vec<Candidate>)
    ensures
        cands_m(final(cands)@) == collect_m(n@, views(scope@), public, cands_m(old(cands)@)),
    decreases n,
{
    if is_type(n.kind) {
        collect_type(n, scope, public, cands);
        return ;
    }
    match n.kind {
        Kind::Module | Kind::TypeAlias | Kind::Use | Kind::Raw | Kind::Opaque(_) => {},
        Kind::Struct | Kind::Union | Kind::Enum | Kind::Function { .. } => {
            let inner = scope_with(scope, &n.children);
            let p = public || exported(&n.children);
            collect_list(&n.children, 0, &inner, p, cands);
        },
        Kind::Impl => {
            let inner = scope_with(scope, &n.children);
            let p = has_trait(&n.children);
            collect_list(&n.children, 3, &inner, p, cands);
        },
        Kind::Const | Kind::LazyStatic => {
            let p = public || exported(&n.children);
            collect_list(&n.children, 0, scope, p, cands);
        },
        _ => collect_list(&n.children, 0, scope, public, cands),
    }
}

/// Records the candidates of the nodes of `l` past the first `skip`.
fn collect_list(l: &Nodes, skip: usize, scope: &Vec<String>, public: bool, cands: &mut Vec<Candidate>)
    ensures
        cands_m(final(cands)@) == collect_list_m(
            nodes_m(*l),
            skip as nat,
            views(scope@),
            public,
            cands_m(old(cands)@),
        ),
    decreases l,
{
    match l {
        Nodes::Nil => {},
        Nodes::Cons(h, rest) => {
            proof {
                lemma_cons(node_m(**h), nodes_m(**rest));
            }
            if skip > 0 {
                collect_list(rest, skip - 1, scope, public, cands);
            } else {
                collect(h, scope, public, cands);
                collect_list(rest, 0, scope, public, cands);
            }
        },
    }
}

/// Records the candidates of the type position `t`.
fn collect_type(t: &Node, scope: &Vec<String>, public: bool, cands: &mut Vec<Candidate>)
    ensures
        cands_m(final(cands)@) == collect_type_m(t@, views(scope@), public, cands_m(old(cands)@)),
    decreases t,
{
    if is_generated(t) {
        return ;
    }
    if !matches!(t.kind, Kind::TypeRef { .. }) && should_alias(t) {
        let mut seen: Vec<String> = Vec::new();
        assert(views(seen@) =~= Seq::<Seq<char>>::empty());
        let (key, target) = normalize(t, scope, &mut seen);
        let count = seen.len();
        insert_candidate(cands, Candidate { key, target, count, public });
    } else if is_composite(t.kind) {
        collect_type_list(&t.children, scope, public, cands);
    }
}

fn collect_type_list(l: &Nodes, scope: &Vec<String>, public: bool, cands: &mut Vec<Candidate>)
    ensures
        cands_m(final(cands)@) == collect_type_list_m(
            nodes_m(*l),
            views(scope@),
            public,
            cands_m(old(cands)@),
        ),
    decreases l,
{
    match l {
        Nodes::Nil => {},
        Nodes::Cons(h, rest) => {
            proof {
                lemma_cons(node_m(**h), nodes_m(**rest));
            }
            collect_type(h, scope, public, cands);
            collect_type_list(rest, scope, public, cands);
        },
    }
}

// ----- executable rewriting -----

spec fn pairs_m(v: Seq<(String, String)>) -> Seq<(Seq<char>, Seq<char>)> {
    v.map_values(|p: (String, String)| (p.0@, p.1@))
}

/// The name paired with `key` in `pairs`.
fn lookup(pairs: &Vec<(String, String)>, key: &String) -> (r: Option<String>)
    ensures
        (r is Some) == (lookup_m(pairs_m(pairs@), key@, 0) is Some),
        r matches Some(name) ==> name@ == lookup_m(pairs_m(pairs@), key@, 0)->0,
{
    let mut i: usize = 0;
    while i < pairs.len()
        invariant
            i <= pairs@.len(),
            lookup_m(pairs_m(pairs@), key@, 0) == lookup_m(pairs_m(pairs@), key@, i as nat),
        decreases pairs@.len() - i,
    {
        if pairs[i].0 == *key {
            return Some(pairs[i].1.clone());
        }
        i = i + 1;
    }
    None
}

fn bump(x: usize) -> (r: usize)
    ensures
        r == bump_count(x),
{
    if x < usize::MAX {
        x + 1
    } else {
        x
    }
}

/// A use of alias `name` with the generic arguments `args`.
fn alias_ref(name: String, args: &Vec<String>) -> (r: Node)
    ensures
        r@ == alias_ref_m(name@, views(args@)),
{
    if args.len() == 0 {
        return leaf(Kind::TypeNamed, name);
    }
    let mut v: Vec<Node> = Vec::new();
    let mut i: usize = 0;
    while i < args.len()
        invariant
            i <= args@.len(),
            views_m(v@) == named_m(views(args@).take(i as int)),
        decreases args@.len() - i,
    {
        let a = leaf(Kind::TypeNamed, args[i].clone());
        let ghost before = v@;
        v.push(a);
        assert(views(args@).take(i + 1) =~= views(args@).take(i as int).push(args@[i as int]@));
        assert(views_m(v@) =~= views_m(before).push(a@));
        assert(named_m(views(args@).take(i + 1)) =~= named_m(views(args@).take(i as int)).push(a@));
        i = i + 1;
    }
    assert(views(args@).take(i as int) =~= views(args@));
    node(Kind::TypeGeneric, name, v)
}

/// The type position `t` rewritten, counting replacements in `k`.
fn rw_type(t: &Node, scope: &Vec<String>, pairs: &Vec<(String, String)>, k: &mut usize) -> (r: Node)
    ensures
        (r@, *final(k)) == rw_type_m(t@, views(scope@), pairs_m(pairs@), *old(k)),
    decreases t,
{
    if is_generated(t) {
        return copy_node(t);
    }
    if !matches!(t.kind, Kind::TypeRef { .. }) && should_alias(t) {
        let mut seen: Vec<String> = Vec::new();
        assert(views(seen@) =~= Seq::<Seq<char>>::empty());
        let (key, _target) = normalize(t, scope, &mut seen);
        match lookup(pairs, &key) {
            Some(name) => {
                *k = bump(*k);
                return alias_ref(name, &seen);
            },
            None => {},
        }
    }
    if is_composite(t.kind) {
        let cs = rw_type_list(&t.children, scope, pairs, k);
        Node { kind: t.kind, text: t.text.clone(), children: cs }
    } else {
        copy_node(t)
    }
}

fn rw_type_list(l: &Nodes, scope: &Vec<String>, pairs: &Vec<(String, String)>, k: &mut usize) -> (r: Nodes)
    ensures
        (nodes_m(r), *final(k)) == rw_type_list_m(nodes_m(*l), views(scope@), pairs_m(pairs@), *old(k)),
    decreases l,
{
    match l {
        Nodes::Nil => Nodes::Nil,
        Nodes::Cons(h, rest) => {
            proof {
                lemma_cons(node_m(**h), nodes_m(**rest));
            }
            let h2 = rw_type(h, scope, pairs, k);
            let t = rw_type_list(rest, scope, pairs, k);
            let r = Nodes::Cons(Box::new(h2), Box::new(t));
            assert(nodes_m(r) == seq![h2@] + nodes_m(t));
            r
        },
    }
}

/// Node `n` rewritten, counting replacements in `k`.
fn rw(n: &Node, scope: &Vec<String>, pairs: &Vec<(String, String)>, k: &mut usize) -> (r: Node)
    ensures
        (r@, *final(k)) == rw_m(n@, views(scope@), pairs_m(pairs@), *old(k)),
    decreases n,
{
    if is_type(n.kind) {
        return rw_type(n, scope, pairs, k);
    }
    match n.kind {
        Kind::Module | Kind::TypeAlias | Kind::Use | Kind::Raw | Kind::Opaque(_) => copy_node(n),
        Kind::Struct | Kind::Union | Kind::Enum | Kind::Function { .. } => {
            let inner = scope_with(scope, &n.children);
            let cs = rw_list(&n.children, 0, &inner, pairs, k);
            Node { kind: n.kind, text: n.text.clone(), children: cs }
        },
        Kind::Impl => {
            let inner = scope_with(scope, &n.children);
            let cs = rw_list(&n.children, 3, &inner, pairs, k);
            Node { kind: n.kind, text: n.text.clone(), children: cs }
        },
        _ => {
            let cs = rw_list(&n.children, 0, scope, pairs, k);
            Node { kind: n.kind, text: n.text.clone(), children: cs }
        },
    }
}

fn rw_list(l: &Nodes, skip: usize, scope: &Vec<String>, pairs: &Vec<(String, String)>, k: &mut usize) -> (r: Nodes)
    ensures
        (nodes_m(r), *final(k)) == rw_list_m(nodes_m(*l), skip as nat, views(scope@), pairs_m(pairs@), *old(k)),
    decreases l,
{
    match l {
        Nodes::Nil => Nodes::Nil,
        Nodes::Cons(h, rest) => {
            proof {
                lemma_cons(node_m(**h), nodes_m(**rest));
            }
            let h2 = if skip > 0 {
                copy_node(h)
            } else {
                rw(h, scope, pairs, k)
            };
            let t = rw_list(
                rest,
                if skip > 0 {
                    skip - 1
                } else {
                    0
                },
                scope,
                pairs,
                k,
            );
            let r = Nodes::Cons(Box::new(h2), Box::new(t));
            assert(nodes_m(r) == seq![h2@] + nodes_m(t));
            r
        },
    }
}


// ----- executable modules -----

fn is_named_item(k: Kind) -> (b: bool)
    ensures
        b == named_item_m(k),
{
    match k {
        Kind::Struct | Kind::Union | Kind::Enum | Kind::Function { .. } | Kind::Const
        | Kind::TypeAlias | Kind::Module | Kind::LazyStatic => true,
        _ => false,
    }
}

/// Appends the names of the named items of `l` to `out`.
fn push_item_names(l: &Nodes, out: &mut Vec<String>)
    ensures
        views(final(out)@) == views(old(out)@) + item_names_m(nodes_m(*l)),
    decreases l,
{
    match l {
        Nodes::Nil => {
            assert(views(out@) + item_names_m(nodes_m(*l)) =~= views(out@));
        },
        Nodes::Cons(h, rest) => {
            proof {
                lemma_cons(node_m(**h), nodes_m(**rest));
            }
            let ghost before = views(out@);
            if is_named_item(h.kind) {
                proof {
                    lemma_views_push(out@, h.text);
                }
                out.push(h.text.clone());
                push_item_names(rest, out);
                assert(before + item_names_m(nodes_m(*l)) =~= before.push(h.text@) + item_names_m(
                    nodes_m(**rest),
                ));
            } else {
                push_item_names(rest, out);
            }
        },
    }
}

/// The generic parameters `I2rT0`, .., of an alias with `k` of them.
fn params(k: usize) -> (v: Vec<Node>)
    ensures
        views_m(v@) == params_m(k as nat),
{
    let mut v: Vec<Node> = Vec::new();
    let mut i: usize = 0;
    while i < k
        invariant
            i <= k,
            views_m(v@) == params_m(i as nat),
        decreases k - i,
    {
        let g = leaf(Kind::Generic, param_name(i));
        let ghost before = v@;
        v.push(g);
        assert(views_m(v@) =~= views_m(before).push(g@));
        assert(params_m((i + 1) as nat) =~= params_m(i as nat).push(g@));
        i = i + 1;
    }
    v
}

/// The alias named `name` of candidate `c`.
fn alias_item(name: String, c: &Candidate) -> (r: Node)
    ensures
        r@ == alias_item_m(name@, cand_m(*c)),
{
    let vis = if c.public {
        string_of("pub")
    } else {
        String::new()
    };
    let generics = node(Kind::Generics, String::new(), params(c.count));
    node3(Kind::TypeAlias, name, leaf(Kind::Visibility, vis), generics, copy_node(&c.target))
}

/// Appends the aliases of the candidates of `cands` from `i` on to `items`
/// and their key-name pairs to `pairs`, recording their names in `used`.
fn make_aliases(
    cands: &Vec<Candidate>,
    i: usize,
    used: &mut Vec<String>,
    items: &mut Vec<Node>,
    pairs: &mut Vec<(String, String)>,
)
    requires
        i <= cands@.len(),
    ensures
        views_m(final(items)@) == views_m(old(items)@) + aliases_m(
            cands_m(cands@).skip(i as int),
            views(old(used)@),
        ).0,
        pairs_m(final(pairs)@) == pairs_m(old(pairs)@) + aliases_m(
            cands_m(cands@).skip(i as int),
            views(old(used)@),
        ).1,
    decreases cands@.len() - i,
{
    let ghost rest = cands_m(cands@).skip(i as int);
    if i == cands.len() {
        assert(rest.len() == 0);
        assert(views_m(items@) + Seq::<NodeM>::empty() =~= views_m(items@));
        assert(pairs_m(pairs@) + Seq::<(Seq<char>, Seq<char>)>::empty() =~= pairs_m(pairs@));
        return ;
    }
    let ghost u0 = views(used@);
    let ghost items0 = views_m(items@);
    let ghost pairs0 = pairs_m(pairs@);
    assert(rest[0] == cand_m(cands@[i as int]));
    assert(rest.drop_first() =~= cands_m(cands@).skip(i + 1));
    let c = &cands[i];
    let name = fresh_alias_name(&c.key, used);
    let item = alias_item(name.clone(), c);
    items.push(item);
    pairs.push((c.key.clone(), name));
    assert(views_m(items@) =~= items0.push(item@));
    assert(pairs_m(pairs@) =~= pairs0.push((c.key@, name@)));
    make_aliases(cands, i + 1, used, items, pairs);
    assert(views_m(items@) =~= items0 + aliases_m(rest, u0).0);
    assert(pairs_m(pairs@) =~= pairs0 + aliases_m(rest, u0).1);
}

/// The position of the first node of `v` that is neither a `use` nor kept
/// as source, or the length of `v`.
fn first_non_use(v: &Vec<Node>) -> (i: usize)
    ensures
        i == first_non_use_m(views_m(v@), 0),
{
    let mut i: usize = 0;
    while i < v.len()
        invariant
            i <= v@.len(),
            first_non_use_m(views_m(v@), 0) == first_non_use_m(views_m(v@), i as nat),
        decreases v@.len() - i,
    {
        assert(views_m(v@)[i as int] == v@[i as int]@);
        if !matches!(v[i].kind, Kind::Use | Kind::Raw) {
            return i;
        }
        i = i + 1;
    }
    i
}

/// The items of `l` with nested modules cleaned and the others rewritten
/// with the aliases `pairs`.
fn module_items(l: &Nodes, pairs: &Vec<(String, String)>, a: &mut ComplexTypeCleanupAnalysis) -> (r: Nodes)
    ensures
        (nodes_m(r), *final(a)) == module_items_m(nodes_m(*l), pairs_m(pairs@), *old(a)),
    decreases l,
{
    match l {
        Nodes::Nil => Nodes::Nil,
        Nodes::Cons(h, rest) => {
            proof {
                lemma_cons(node_m(**h), nodes_m(**rest));
            }
            let h2 = if matches!(h.kind, Kind::Module) {
                cleanup_module(h, a)
            } else {
                let empty: Vec<String> = Vec::new();
                assert(views(empty@) =~= Seq::<Seq<char>>::empty());
                let mut k = a.rewritten_types;
                let h2 = rw(h, &empty, pairs, &mut k);
                a.rewritten_types = k;
                h2
            };
            let t = module_items(rest, pairs, a);
            let r = Nodes::Cons(Box::new(h2), Box::new(t));
            assert(nodes_m(r) == seq![h2@] + nodes_m(t));
            r
        },
    }
}

/// Module `m` cleaned, counting into `a`.
fn cleanup_module(m: &Node, a: &mut ComplexTypeCleanupAnalysis) -> (r: Node)
    ensures
        (r@, *final(a)) == cleanup_module_m(m@, *old(a)),
    decreases m,
{
    let mut cands: Vec<Candidate> = Vec::new();
    let empty: Vec<String> = Vec::new();
    assert(views(empty@) =~= Seq::<Seq<char>>::empty());
    assert(cands_m(cands@) =~= Seq::<CandM>::empty());
    collect_list(&m.children, 0, &empty, false, &mut cands);
    let mut used: Vec<String> = Vec::new();
    push_item_names(&m.children, &mut used);
    assert(views(used@) =~= item_names_m(nodes_m(m.children)));
    let mut aliases: Vec<Node> = Vec::new();
    let mut pairs: Vec<(String, String)> = Vec::new();
    make_aliases(&cands, 0, &mut used, &mut aliases, &mut pairs);
    assert(cands_m(cands@).skip(0) =~= cands_m(cands@));
    assert(views_m(aliases@) =~= Seq::<NodeM>::empty() + views_m(aliases@));
    assert(pairs_m(pairs@) =~= Seq::<(Seq<char>, Seq<char>)>::empty() + pairs_m(pairs@));
    let items = module_items(&m.children, &pairs, a);
    let mut v = nodes_into_vec(items);
    let pos = first_non_use(&v);
    let ghost cs = views_m(v@);
    proof {
        lemma_first_non_use_bound(cs, 0);
    }
    let ghost al = views_m(aliases@);
    let n_aliases = aliases.len();
    let mut tail = v.split_off(pos);
    v.append(&mut aliases);
    v.append(&mut tail);
    assert(views_m(v@) =~= cs.take(pos as int) + al + cs.skip(pos as int));
    a.aliases_created = if a.aliases_created > usize::MAX - n_aliases {
        usize::MAX
    } else {
        a.aliases_created + n_aliases
    };
    node(m.kind, m.text.clone(), v)
}

/// Extracts the complex types of `module` and of the modules nested in it
/// into aliases, and returns how many aliases it created and how many type
/// positions it rewrote.
pub fn cleanup_complex_types(module: &mut Node) -> (analysis: ComplexTypeCleanupAnalysis)
    ensures
        (final(module)@, analysis) == cleanup_module_m(old(module)@, no_alias_counts()),
{
    let mut analysis = ComplexTypeCleanupAnalysis::new();
    let cleaned = cleanup_module(module, &mut analysis);
    *module = cleaned;
    analysis
}

} // verus!
