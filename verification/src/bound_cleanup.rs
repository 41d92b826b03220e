//! Removal of generated `Clone` and `'static` bounds from free functions
//! that structurally do not depend on them.
//!
//! Generated code puts both bounds on every type parameter. A bound is
//! removed only where the function is plainly independent of it: the
//! signature uses the parameter directly or through tuples, references,
//! slices and arrays; no other bound mentions the parameter; and the body is
//! made of moves, destructuring, branches and returns only. Calls, macros,
//! closures, casts, operators, generic wrapper types and impl blocks keep
//! their bounds. A direct `.clone()` keeps `Clone` but not `'static`.
use vstd::prelude::*;
use vstd::string::*;

use crate::ast::{Kind, Node, Nodes};
use crate::binding_cleanup::is_ascii_letter_or_digit;
use crate::model::{
    child, has_len, lemma_child_smaller, lemma_cons, lemma_sizes_cons, mk, node_m, nodes_m, size,
    sizes, NodeM,
};
use crate::text::is_text;

verus! {

/// Counts of the bounds removed by the bound cleanup.
#[derive(Debug, Clone, Copy, PartialEq, Eq)]
pub struct BoundCleanupAnalysis {
    /// Number of redundant generated `Clone` bounds removed.
    pub removed_clone_bounds: usize,
    /// Number of redundant generated `'static` bounds removed.
    pub removed_static_bounds: usize,
    /// Number of free functions whose bounds were simplified.
    pub changed_functions: usize,
}

impl BoundCleanupAnalysis {
    /// An analysis with every count at zero.
    pub fn new() -> (a: BoundCleanupAnalysis)
        ensures
            a == no_bound_counts(),
    {
        BoundCleanupAnalysis { removed_clone_bounds: 0, removed_static_bounds: 0, changed_functions: 0 }
    }
}

impl Default for BoundCleanupAnalysis {
    fn default() -> (a: BoundCleanupAnalysis)
        ensures
            a == no_bound_counts(),
    {
        BoundCleanupAnalysis::new()
    }
}

/// The analysis with every count at zero.
pub open spec fn no_bound_counts() -> BoundCleanupAnalysis {
    BoundCleanupAnalysis { removed_clone_bounds: 0, removed_static_bounds: 0, changed_functions: 0 }
}

/// Which generated bound is considered.
#[derive(Debug, Clone, Copy, PartialEq, Eq)]
pub enum BoundKind {
    Clone,
    Static,
}

/// Adds one to a count; a count that has reached `usize::MAX` stays there.
pub open spec fn bump_bound_count(x: usize) -> usize {
    if x < usize::MAX {
        (x + 1) as usize
    } else {
        x
    }
}

// ----- types -----

/// Whether the type `t` mentions the type parameter `g`.
pub open spec fn type_contains_m(t: NodeM, g: Seq<char>) -> bool
    decreases t, 1nat,
{
    if t.kind is TypeNamed {
        t.text == g
    } else if t.kind is TypePath {
        false
    } else {
        any_contains_m(t.children, g)
    }
}

pub open spec fn any_contains_m(ts: Seq<NodeM>, g: Seq<char>) -> bool
    decreases ts, 0nat,
{
    if ts.len() == 0 {
        false
    } else {
        type_contains_m(ts[0], g) || any_contains_m(ts.drop_first(), g)
    }
}

/// Whether the type `t` uses the parameter `g` only directly or through
/// tuples, references, slices and arrays.
pub open spec fn type_neutral_m(t: NodeM, g: Seq<char>) -> bool
    decreases t, 1nat,
{
    match t.kind {
        Kind::TypeGeneric | Kind::TypeCallable { .. } => !any_contains_m(t.children, g),
        Kind::TypeRef { .. } | Kind::TypeSlice | Kind::TypeArray | Kind::TypeTuple => all_neutral_m(
            t.children,
            g,
        ),
        _ => true,
    }
}

pub open spec fn all_neutral_m(ts: Seq<NodeM>, g: Seq<char>) -> bool
    decreases ts, 0nat,
{
    if ts.len() == 0 {
        true
    } else {
        type_neutral_m(ts[0], g) && all_neutral_m(ts.drop_first(), g)
    }
}

// ----- bounds -----

/// Whether `c` separates the tokens of a bound.
pub open spec fn is_separator(c: char) -> bool {
    !(is_ascii_letter_or_digit(c) || c == '_')
}

/// Whether `b[i..j]` is a token of `b`: a maximal run of characters that
/// are not separators (possibly empty).
pub open spec fn is_token(b: Seq<char>, i: int, j: int) -> bool {
    &&& 0 <= i <= j <= b.len()
    &&& (i == 0 || is_separator(b[i - 1]))
    &&& (j == b.len() || is_separator(b[j]))
    &&& forall|k: int| i <= k < j ==> !is_separator(#[trigger] b[k])
}

/// Whether some token of the bound `b` is the parameter name `g`.
pub open spec fn bound_mentions_m(b: Seq<char>, g: Seq<char>) -> bool {
    exists|i: int, j: int| is_token(b, i, j) && b.subrange(i, j) == g
}

/// Whether the bound `b` is one that generated code puts on every
/// parameter.
pub open spec fn is_generated_bound_m(b: Seq<char>) -> bool {
    b == "Clone"@ || b == "'static"@
}

/// Whether no bound among `bs` other than the generated ones mentions `g`.
pub open spec fn bounds_ignore_m(bs: Seq<NodeM>, g: Seq<char>) -> bool
    decreases bs,
{
    if bs.len() == 0 {
        true
    } else {
        (is_generated_bound_m(bs[0].text) || !bound_mentions_m(bs[0].text, g)) && bounds_ignore_m(
            bs.drop_first(),
            g,
        )
    }
}

/// Whether no bound of the generics `gs`, other than the generated ones,
/// mentions `g`.
pub open spec fn generics_ignore_m(gs: Seq<NodeM>, g: Seq<char>) -> bool
    decreases gs,
{
    if gs.len() == 0 {
        true
    } else {
        bounds_ignore_m(gs[0].children, g) && generics_ignore_m(gs.drop_first(), g)
    }
}

// ----- bodies -----

/// Whether the node `n` of a body is independent of the bound `k` of `g`.
pub open spec fn indep_m(n: NodeM, g: Seq<char>, k: BoundKind) -> bool
    decreases n, 1nat,
{
    match n.kind {
        Kind::Ident | Kind::Literal | Kind::Bool(_) | Kind::Absent | Kind::Continue | Kind::Break
        | Kind::Comment => true,
        Kind::Array | Kind::Tuple | Kind::BlockExpr | Kind::If | Kind::IfLet | Kind::Match
        | Kind::Arm | Kind::Reference { .. } | Kind::Parenthesized | Kind::Block | Kind::ExprStmt
        | Kind::Tail => all_indep_m(n.children, g, k),
        Kind::Let { .. } => n.children.len() == 2 && (n.children[0].kind is Absent
            || type_neutral_m(n.children[0], g)) && indep_m(n.children[1], g, k),
        Kind::MethodCall => k is Static && n.text == "clone"@ && all_indep_m(n.children, g, k),
        _ => false,
    }
}

pub open spec fn all_indep_m(cs: Seq<NodeM>, g: Seq<char>, k: BoundKind) -> bool
    decreases cs, 0nat,
{
    if cs.len() == 0 {
        true
    } else {
        indep_m(cs[0], g, k) && all_indep_m(cs.drop_first(), g, k)
    }
}

// ----- functions -----

/// Whether the parameters `ps` all have types neutral in `g`.
pub open spec fn params_neutral_m(ps: Seq<NodeM>, g: Seq<char>) -> bool
    decreases ps,
{
    if ps.len() == 0 {
        true
    } else {
        all_neutral_m(ps[0].children, g) && params_neutral_m(ps.drop_first(), g)
    }
}

/// Whether none of `cs` is an attribute.
pub open spec fn no_attrs_m(cs: Seq<NodeM>) -> bool {
    forall|i: int| 0 <= i < cs.len() ==> !(#[trigger] cs[i].kind is Attr)
}

/// Whether a function node has the layout of a function: visibility,
/// return type, generics, parameters and body.
pub open spec fn function_layout_m(f: NodeM) -> bool {
    &&& f.kind is Function
    &&& f.children.len() >= 5
    &&& f.children[2].kind is Generics
    &&& f.children[3].kind is Params
    &&& f.children[4].kind is Block
}

/// Whether the function `f` is independent of the bound `k` of its
/// parameter `g`.
pub open spec fn function_indep_m(f: NodeM, g: Seq<char>, k: BoundKind) -> bool {
    &&& function_layout_m(f)
    &&& !f.kind->asyncness
    &&& no_attrs_m(f.children)
    &&& params_neutral_m(f.children[3].children, g)
    &&& type_neutral_m(f.children[1], g)
    &&& generics_ignore_m(f.children[2].children, g)
    &&& indep_m(f.children[4], g, k)
}

/// Whether one of the bounds `bs` is `t`.
pub open spec fn has_bound_m(bs: Seq<NodeM>, t: Seq<char>) -> bool {
    exists|i: int| 0 <= i < bs.len() && #[trigger] bs[i].text == t
}

/// The bounds `bs` without those that are `t`.
pub open spec fn remove_bound_m(bs: Seq<NodeM>, t: Seq<char>) -> Seq<NodeM>
    decreases bs,
{
    if bs.len() == 0 {
        bs
    } else if bs[0].text == t {
        remove_bound_m(bs.drop_first(), t)
    } else {
        seq![bs[0]] + remove_bound_m(bs.drop_first(), t)
    }
}

/// The generics `gs` of `f` with the bounds that can go removed, the counts,
/// and whether a bound was removed.
pub open spec fn generics_m(f: NodeM, gs: Seq<NodeM>, a: BoundCleanupAnalysis) -> (
    Seq<NodeM>,
    BoundCleanupAnalysis,
    bool,
)
    decreases gs,
{
    if gs.len() == 0 {
        (gs, a, false)
    } else {
        let g = gs[0];
        let rc = has_bound_m(g.children, "Clone"@) && function_indep_m(f, g.text, BoundKind::Clone);
        let rs = has_bound_m(g.children, "'static"@) && function_indep_m(
            f,
            g.text,
            BoundKind::Static,
        );
        let b1 = if rc {
            remove_bound_m(g.children, "Clone"@)
        } else {
            g.children
        };
        let b2 = if rs {
            remove_bound_m(b1, "'static"@)
        } else {
            b1
        };
        let a1 = if rc {
            BoundCleanupAnalysis { removed_clone_bounds: bump_bound_count(a.removed_clone_bounds), ..a }
        } else {
            a
        };
        let a2 = if rs {
            BoundCleanupAnalysis {
                removed_static_bounds: bump_bound_count(a1.removed_static_bounds),
                ..a1
            }
        } else {
            a1
        };
        let (rest, a3, changed) = generics_m(f, gs.drop_first(), a2);
        (seq![mk(g.kind, g.text, b2)] + rest, a3, rc || rs || changed)
    }
}

/// The function `f` with its removable bounds removed, and the counts.
pub open spec fn cleanup_function_m(f: NodeM, a: BoundCleanupAnalysis) -> (
    NodeM,
    BoundCleanupAnalysis,
) {
    if function_layout_m(f) {
        let gs = f.children[2];
        let (gs2, a1, changed) = generics_m(f, gs.children, a);
        let a2 = if changed {
            BoundCleanupAnalysis { changed_functions: bump_bound_count(a1.changed_functions), ..a1 }
        } else {
            a1
        };
        (mk(f.kind, f.text, f.children.update(2, mk(gs.kind, gs.text, gs2))), a2)
    } else {
        (f, a)
    }
}

// ----- modules -----

/// The module `m` with the free functions of it and of its inner modules
/// cleaned, and the counts.
pub open spec fn bounds_module_m(m: NodeM, a: BoundCleanupAnalysis) -> (NodeM, BoundCleanupAnalysis)
    decreases m, 1nat,
{
    let (cs, a1) = bounds_items_m(m.children, a);
    (mk(m.kind, m.text, cs), a1)
}

pub open spec fn bounds_items_m(cs: Seq<NodeM>, a: BoundCleanupAnalysis) -> (
    Seq<NodeM>,
    BoundCleanupAnalysis,
)
    decreases cs, 0nat,
{
    if cs.len() == 0 {
        (cs, a)
    } else {
        let (h, a1) = if cs[0].kind is Function {
            cleanup_function_m(cs[0], a)
        } else if cs[0].kind is Module {
            bounds_module_m(cs[0], a)
        } else {
            (cs[0], a)
        };
        let (rest, a2) = bounds_items_m(cs.drop_first(), a1);
        (seq![h] + rest, a2)
    }
}

/// The bound cleanup of a module tree, and its counts started from zero.
pub open spec fn cleanup_bounds_m(m: NodeM) -> (NodeM, BoundCleanupAnalysis) {
    bounds_module_m(m, no_bound_counts())
}

// ----- executable types -----

/// Whether the type `t` mentions the type parameter `g`.
fn type_contains_generic(t: &Node, g: &String) -> (b: bool)
    ensures
        b == type_contains_m(t@, g@),
    decreases t,
{
    match t.kind {
        Kind::TypeNamed => t.text == *g,
        Kind::TypePath => false,
        _ => any_contains_generic(&t.children, g),
    }
}

fn any_contains_generic(l: &Nodes, g: &String) -> (b: bool)
    ensures
        b == any_contains_m(nodes_m(*l), g@),
    decreases l,
{
    match l {
        Nodes::Nil => false,
        Nodes::Cons(h, rest) => {
            proof {
                lemma_cons(node_m(**h), nodes_m(**rest));
            }
            type_contains_generic(h, g) || any_contains_generic(rest, g)
        },
    }
}

/// Whether the type `t` uses `g` only directly or through tuples,
/// references, slices and arrays.
fn type_occurrence_is_neutral(t: &Node, g: &String) -> (b: bool)
    ensures
        b == type_neutral_m(t@, g@),
    decreases t,
{
    match t.kind {
        Kind::TypeGeneric | Kind::TypeCallable { .. } => !any_contains_generic(&t.children, g),
        Kind::TypeRef { .. } | Kind::TypeSlice | Kind::TypeArray | Kind::TypeTuple => all_neutral(
            &t.children,
            g,
        ),
        _ => true,
    }
}

fn all_neutral(l: &Nodes, g: &String) -> (b: bool)
    ensures
        b == all_neutral_m(nodes_m(*l), g@),
    decreases l,
{
    match l {
        Nodes::Nil => true,
        Nodes::Cons(h, rest) => {
            proof {
                lemma_cons(node_m(**h), nodes_m(**rest));
            }
            type_occurrence_is_neutral(h, g) && all_neutral(rest, g)
        },
    }
}

// ----- executable bounds -----

/// Whether `c` separates the tokens of a bound.
fn separator(c: char) -> (b: bool)
    ensures
        b == is_separator(c),
{
    !(('a' <= c && c <= 'z') || ('A' <= c && c <= 'Z') || ('0' <= c && c <= '9') || c == '_')
}

/// Whether `s[start..end]` is `g`.
pub(crate) fn segment_is(s: &str, start: usize, end: usize, g: &str) -> (b: bool)
    requires
        start <= end <= s@.len(),
    ensures
        b == (s@.subrange(start as int, end as int) == g@),
{
    let gl = g.unicode_len();
    if end - start != gl {
        return false;
    }
    let mut k: usize = 0;
    while k < gl
        invariant
            k <= gl,
            gl == g@.len(),
            end - start == gl,
            start <= end <= s@.len(),
            forall|m: int| 0 <= m < k ==> s@[start + m] == g@[m],
        decreases gl - k,
    {
        if s.get_char(start + k) != g.get_char(k) {
            assert(s@.subrange(start as int, end as int)[k as int] != g@[k as int]);
            return false;
        }
        k = k + 1;
    }
    assert(s@.subrange(start as int, end as int) =~= g@);
    true
}

/// A token ending at `j` starts at any `s` that begins a run of
/// non-separators reaching `j`.
proof fn lemma_token_start(b: Seq<char>, s: int, i: int, j: int)
    requires
        is_token(b, i, j),
        0 <= s <= j,
        s == 0 || is_separator(b[s - 1]),
        forall|k: int| s <= k < j ==> !is_separator(#[trigger] b[k]),
    ensures
        i == s,
{
    if i < s {
        assert(!is_separator(b[s - 1]));
    }
    if s < i {
        assert(!is_separator(b[i - 1]));
    }
}

/// Whether some token of the bound `bound` is the parameter name `g`.
pub(crate) fn bound_mentions_generic(bound: &String, g: &String) -> (r: bool)
    ensures
        r == bound_mentions_m(bound@, g@),
{
    let b = bound.as_str();
    let gs = g.as_str();
    let n = b.unicode_len();
    let mut start: usize = 0;
    let mut i: usize = 0;
    while i < n
        invariant
            n == b@.len(),
            b@ == bound@,
            gs@ == g@,
            start <= i <= n,
            start == 0 || is_separator(b@[start - 1]),
            forall|k: int| start <= k < i ==> !is_separator(#[trigger] b@[k]),
            forall|i1: int, j1: int|
                is_token(b@, i1, j1) && j1 < i ==> b@.subrange(i1, j1) != g@,
        decreases n - i,
    {
        let c = b.get_char(i);
        if separator(c) {
            if segment_is(b, start, i, gs) {
                assert(is_token(b@, start as int, i as int));
                return true;
            }
            assert forall|i1: int, j1: int|
                is_token(b@, i1, j1) && j1 < i + 1 implies b@.subrange(i1, j1) != g@ by {
                if j1 == i {
                    lemma_token_start(b@, start as int, i1, j1);
                }
            }
            start = i + 1;
        } else {
            assert forall|i1: int, j1: int|
                is_token(b@, i1, j1) && j1 < i + 1 implies b@.subrange(i1, j1) != g@ by {
                if j1 == i {
                    assert(is_separator(b@[j1]));
                }
            }
        }
        i = i + 1;
    }
    if segment_is(b, start, n, gs) {
        assert(is_token(b@, start as int, n as int));
        return true;
    }
    assert forall|i1: int, j1: int| is_token(b@, i1, j1) implies b@.subrange(i1, j1) != g@ by {
        if j1 == n {
            lemma_token_start(b@, start as int, i1, j1);
        }
    }
    false
}

/// Whether no bound among `l` other than the generated ones mentions `g`.
fn bounds_ignore(l: &Nodes, g: &String) -> (b: bool)
    ensures
        b == bounds_ignore_m(nodes_m(*l), g@),
    decreases l,
{
    match l {
        Nodes::Nil => true,
        Nodes::Cons(h, rest) => {
            proof {
                lemma_cons(node_m(**h), nodes_m(**rest));
            }
            let generated = is_text(&h.text, "Clone") || is_text(&h.text, "'static");
            (generated || !bound_mentions_generic(&h.text, g)) && bounds_ignore(rest, g)
        },
    }
}

/// Whether no bound of the generics `l`, other than the generated ones,
/// mentions `g`.
fn generics_ignore(l: &Nodes, g: &String) -> (b: bool)
    ensures
        b == generics_ignore_m(nodes_m(*l), g@),
    decreases l,
{
    match l {
        Nodes::Nil => true,
        Nodes::Cons(h, rest) => {
            proof {
                lemma_cons(node_m(**h), nodes_m(**rest));
            }
            bounds_ignore(&h.children, g) && generics_ignore(rest, g)
        },
    }
}

// ----- executable bodies -----

/// Whether the body node `n` is independent of the bound `k` of `g`.
fn expr_is_bound_independent(n: &Node, g: &String, k: BoundKind) -> (b: bool)
    ensures
        b == indep_m(n@, g@, k),
    decreases size(n@), 0nat,
{
    match n.kind {
        Kind::Ident | Kind::Literal | Kind::Bool(_) | Kind::Absent | Kind::Continue | Kind::Break
        | Kind::Comment => true,
        Kind::Array | Kind::Tuple | Kind::BlockExpr | Kind::If | Kind::IfLet | Kind::Match
        | Kind::Arm | Kind::Reference { .. } | Kind::Parenthesized | Kind::Block | Kind::ExprStmt
        | Kind::Tail => all_independent(&n.children, g, k),
        Kind::Let { .. } => {
            if !has_len(&n.children, 2) {
                return false;
            }
            let ty = child(&n.children, 0).unwrap();
            let init = child(&n.children, 1).unwrap();
            proof {
                lemma_child_smaller(n@, 1);
            }
            (matches!(ty.kind, Kind::Absent) || type_occurrence_is_neutral(ty, g))
                && expr_is_bound_independent(init, g, k)
        },
        Kind::MethodCall => matches!(k, BoundKind::Static) && is_text(&n.text, "clone")
            && all_independent(&n.children, g, k),
        _ => false,
    }
}

fn all_independent(l: &Nodes, g: &String, k: BoundKind) -> (b: bool)
    ensures
        b == all_indep_m(nodes_m(*l), g@, k),
    decreases sizes(nodes_m(*l)), 1nat,
{
    match l {
        Nodes::Nil => true,
        Nodes::Cons(h, rest) => {
            proof {
                lemma_cons(node_m(**h), nodes_m(**rest));
                lemma_sizes_cons(node_m(**h), nodes_m(**rest));
            }
            expr_is_bound_independent(h, g, k) && all_independent(rest, g, k)
        },
    }
}

// ----- executable functions -----

/// Whether the parameters `l` all have types neutral in `g`.
fn params_neutral(l: &Nodes, g: &String) -> (b: bool)
    ensures
        b == params_neutral_m(nodes_m(*l), g@),
    decreases l,
{
    match l {
        Nodes::Nil => true,
        Nodes::Cons(h, rest) => {
            proof {
                lemma_cons(node_m(**h), nodes_m(**rest));
            }
            all_neutral(&h.children, g) && params_neutral(rest, g)
        },
    }
}

/// Whether none of `l` is an attribute.
fn no_attrs(l: &Nodes) -> (b: bool)
    ensures
        b == no_attrs_m(nodes_m(*l)),
    decreases l,
{
    match l {
        Nodes::Nil => true,
        Nodes::Cons(h, rest) => {
            let ghost s = nodes_m(*l);
            proof {
                lemma_cons(node_m(**h), nodes_m(**rest));
            }
            if matches!(h.kind, Kind::Attr) {
                assert(s[0].kind is Attr);
                false
            } else {
                let r = no_attrs(rest);
                assert(r == no_attrs_m(s)) by {
                    if r {
                        assert forall|i: int| 0 <= i < s.len() implies !(#[trigger] s[i].kind is Attr) by {
                            if i > 0 {
                                assert(s[i] == nodes_m(**rest)[i - 1]);
                            }
                        }
                    } else {
                        let j = choose|j: int| 0 <= j < nodes_m(**rest).len() && (#[trigger] nodes_m(**rest)[j]).kind is Attr;
                        assert(s[j + 1] == nodes_m(**rest)[j]);
                    }
                }
                r
            }
        },
    }
}

/// Whether the function `f` has the layout of a function.
pub(crate) fn has_function_layout(f: &Node) -> (b: bool)
    ensures
        b == function_layout_m(f@),
{
    if !matches!(f.kind, Kind::Function { .. }) || child(&f.children, 4).is_none() {
        return false;
    }
    matches!(child(&f.children, 2).unwrap().kind, Kind::Generics) && matches!(
        child(&f.children, 3).unwrap().kind,
        Kind::Params
    ) && matches!(child(&f.children, 4).unwrap().kind, Kind::Block)
}

/// Whether the function `f` is independent of the bound `k` of its
/// parameter `g`.
fn function_is_bound_independent(f: &Node, g: &String, k: BoundKind) -> (b: bool)
    ensures
        b == function_indep_m(f@, g@, k),
{
    if !has_function_layout(f) {
        return false;
    }
    let asyncness = match f.kind {
        Kind::Function { asyncness } => asyncness,
        _ => true,
    };
    if asyncness || !no_attrs(&f.children) {
        return false;
    }
    let return_type = child(&f.children, 1).unwrap();
    let generics = child(&f.children, 2).unwrap();
    let params = child(&f.children, 3).unwrap();
    let body = child(&f.children, 4).unwrap();
    params_neutral(&params.children, g) && type_occurrence_is_neutral(return_type, g)
        && generics_ignore(&generics.children, g) && expr_is_bound_independent(body, g, k)
}

/// Whether one of the bounds `l` is `t`.
fn has_bound(l: &Nodes, t: &str) -> (b: bool)
    ensures
        b == has_bound_m(nodes_m(*l), t@),
    decreases l,
{
    match l {
        Nodes::Nil => false,
        Nodes::Cons(h, rest) => {
            let ghost s = nodes_m(*l);
            proof {
                lemma_cons(node_m(**h), nodes_m(**rest));
            }
            if is_text(&h.text, t) {
                assert(s[0].text == t@);
                true
            } else {
                let r = has_bound(rest, t);
                assert(r == has_bound_m(s, t@)) by {
                    if r {
                        let j = choose|j: int| 0 <= j < nodes_m(**rest).len() && (#[trigger] nodes_m(**rest)[j]).text == t@;
                        assert(s[j + 1] == nodes_m(**rest)[j]);
                    } else {
                        if has_bound_m(s, t@) {
                            let j = choose|j: int| 0 <= j < s.len() && (#[trigger] s[j]).text == t@;
                            assert(s[j] == nodes_m(**rest)[j - 1]);
                        }
                    }
                }
                r
            }
        },
    }
}

/// The bounds `l` without those that are `t`.
fn remove_bound(l: &Nodes, t: &str) -> (r: Nodes)
    ensures
        nodes_m(r) == remove_bound_m(nodes_m(*l), t@),
    decreases l,
{
    match l {
        Nodes::Nil => Nodes::Nil,
        Nodes::Cons(h, rest) => {
            proof {
                lemma_cons(node_m(**h), nodes_m(**rest));
            }
            let tail = remove_bound(rest, t);
            if is_text(&h.text, t) {
                tail
            } else {
                let r = Nodes::Cons(Box::new(crate::model::copy_node(h)), Box::new(tail));
                assert(nodes_m(r) == seq![node_m(**h)] + nodes_m(tail));
                r
            }
        },
    }
}

/// Adds one to a count, staying at `usize::MAX` once there.
fn bump(x: usize) -> (r: usize)
    ensures
        r == bump_bound_count(x),
{
    if x < usize::MAX {
        x + 1
    } else {
        x
    }
}

/// The generics `l` of `f` with the bounds that can go removed; whether a
/// bound was removed.
fn cleanup_generics(f: &Node, l: &Nodes, a: &mut BoundCleanupAnalysis) -> (r: (Nodes, bool))
    ensures
        (nodes_m(r.0), *final(a), r.1) == generics_m(f@, nodes_m(*l), *old(a)),
    decreases l,
{
    match l {
        Nodes::Nil => (Nodes::Nil, false),
        Nodes::Cons(g, rest) => {
            proof {
                lemma_cons(node_m(**g), nodes_m(**rest));
            }
            let remove_clone = has_bound(&g.children, "Clone") && function_is_bound_independent(
                f,
                &g.text,
                BoundKind::Clone,
            );
            let remove_static = has_bound(&g.children, "'static")
                && function_is_bound_independent(f, &g.text, BoundKind::Static);
            let b1 = if remove_clone {
                a.removed_clone_bounds = bump(a.removed_clone_bounds);
                remove_bound(&g.children, "Clone")
            } else {
                crate::model::copy_nodes(&g.children)
            };
            let b2 = if remove_static {
                a.removed_static_bounds = bump(a.removed_static_bounds);
                remove_bound(&b1, "'static")
            } else {
                b1
            };
            let g2 = Node { kind: g.kind, text: g.text.clone(), children: b2 };
            let (tail, changed) = cleanup_generics(f, rest, a);
            let r = Nodes::Cons(Box::new(g2), Box::new(tail));
            assert(nodes_m(r) == seq![g2@] + nodes_m(tail));
            (r, remove_clone || remove_static || changed)
        },
    }
}

/// The list `l` with its node at `i` replaced by `c`.
pub(crate) fn replace_child(l: &Nodes, i: usize, c: Node) -> (r: Nodes)
    requires
        i < nodes_m(*l).len(),
    ensures
        nodes_m(r) == nodes_m(*l).update(i as int, c@),
    decreases l,
{
    match l {
        Nodes::Nil => Nodes::Nil,
        Nodes::Cons(h, rest) => {
            proof {
                lemma_cons(node_m(**h), nodes_m(**rest));
            }
            if i == 0 {
                let r = Nodes::Cons(Box::new(c), Box::new(crate::model::copy_nodes(rest)));
                assert(nodes_m(r) =~= nodes_m(*l).update(i as int, c@));
                r
            } else {
                let ghost cv = c@;
                let tail = replace_child(rest, i - 1, c);
                let r = Nodes::Cons(Box::new(crate::model::copy_node(h)), Box::new(tail));
                assert(nodes_m(r) =~= nodes_m(*l).update(i as int, cv));
                r
            }
        },
    }
}

/// The function `f` with its removable bounds removed.
fn cleanup_function(f: &Node, a: &mut BoundCleanupAnalysis) -> (r: Node)
    ensures
        (r@, *final(a)) == cleanup_function_m(f@, *old(a)),
{
    if !has_function_layout(f) {
        return crate::model::copy_node(f);
    }
    let generics = child(&f.children, 2).unwrap();
    let (gs2, changed) = cleanup_generics(f, &generics.children, a);
    if changed {
        a.changed_functions = bump(a.changed_functions);
    }
    let g2 = Node { kind: generics.kind, text: generics.text.clone(), children: gs2 };
    Node { kind: f.kind, text: f.text.clone(), children: replace_child(&f.children, 2, g2) }
}

// ----- executable modules -----

/// The module `m` with its free functions cleaned.
fn cleanup_module(m: &Node, a: &mut BoundCleanupAnalysis) -> (r: Node)
    ensures
        (r@, *final(a)) == bounds_module_m(m@, *old(a)),
    decreases m,
{
    let cs = cleanup_items(&m.children, a);
    Node { kind: m.kind, text: m.text.clone(), children: cs }
}

fn cleanup_items(l: &Nodes, a: &mut BoundCleanupAnalysis) -> (r: Nodes)
    ensures
        (nodes_m(r), *final(a)) == bounds_items_m(nodes_m(*l), *old(a)),
    decreases l,
{
    match l {
        Nodes::Nil => Nodes::Nil,
        Nodes::Cons(h, rest) => {
            proof {
                lemma_cons(node_m(**h), nodes_m(**rest));
            }
            let h2 = match h.kind {
                Kind::Function { .. } => cleanup_function(h, a),
                Kind::Module => cleanup_module(h, a),
                _ => crate::model::copy_node(h),
            };
            let tail = cleanup_items(rest, a);
            let r = Nodes::Cons(Box::new(h2), Box::new(tail));
            assert(nodes_m(r) == seq![h2@] + nodes_m(tail));
            r
        },
    }
}

/// Removes the generated `Clone` and `'static` bounds that the free
/// functions of a module tree do not depend on, and returns the counts.
pub fn cleanup_bounds(module: &mut Node) -> (analysis: BoundCleanupAnalysis)
    ensures
        (final(module)@, analysis) == cleanup_bounds_m(old(module)@),
{
    let mut analysis = BoundCleanupAnalysis::new();
    let cleaned = cleanup_module(module, &mut analysis);
    *module = cleaned;
    analysis
}

// ----- laws -----

/// Removing the bound `t` removes every bound that is `t` and keeps
/// exactly the others.
pub proof fn lemma_remove_bound(bs: Seq<NodeM>, t: Seq<char>)
    ensures
        forall|i: int|
            0 <= i < remove_bound_m(bs, t).len() ==> #[trigger] remove_bound_m(bs, t)[i].text != t,
        forall|b: NodeM| #[trigger]
            remove_bound_m(bs, t).contains(b) <==> (bs.contains(b) && b.text != t),
    decreases bs,
{
    if bs.len() > 0 {
        let rest = bs.drop_first();
        lemma_remove_bound(rest, t);
        assert forall|b: NodeM| #[trigger]
            remove_bound_m(bs, t).contains(b) <==> (bs.contains(b) && b.text != t) by {
            let out = remove_bound_m(bs, t);
            let tail = remove_bound_m(rest, t);
            if bs[0].text != t {
                assert(out == seq![bs[0]] + tail);
            } else {
                assert(out == tail);
            }
            if bs.contains(b) && b.text != t {
                let k = choose|k: int| 0 <= k < bs.len() && bs[k] == b;
                if k > 0 {
                    assert(rest[k - 1] == b);
                    assert(rest.contains(b));
                    assert(tail.contains(b));
                    let m = choose|m: int| 0 <= m < tail.len() && tail[m] == b;
                    if bs[0].text != t {
                        assert(out[m + 1] == b);
                    } else {
                        assert(out[m] == b);
                    }
                } else {
                    assert(out[0] == b);
                }
                assert(out.contains(b));
            }
            if out.contains(b) {
                let m = choose|m: int| 0 <= m < out.len() && out[m] == b;
                if bs[0].text != t && m == 0 {
                    assert(bs[0] == b);
                } else {
                    let m2 = if bs[0].text != t {
                        m - 1
                    } else {
                        m
                    };
                    assert(tail[m2] == b);
                    assert(tail.contains(b));
                    assert(rest.contains(b));
                    let k = choose|k: int| 0 <= k < rest.len() && rest[k] == b;
                    assert(bs[k + 1] == b);
                }
                assert(bs.contains(b));
            }
        }
        assert forall|i: int|
            0 <= i < remove_bound_m(bs, t).len() implies #[trigger] remove_bound_m(bs, t)[i].text
            != t by {
            if bs[0].text != t && i > 0 {
                assert(remove_bound_m(bs, t)[i] == remove_bound_m(rest, t)[i - 1]);
            }
        }
    }
}

/// The cleanup of generics keeps every generic, in order, under its name,
/// keeps every bound other than the generated ones, and adds none.
pub proof fn lemma_generics_keep_bounds(f: NodeM, gs: Seq<NodeM>, a: BoundCleanupAnalysis)
    ensures
        generics_m(f, gs, a).0.len() == gs.len(),
        forall|i: int|
            0 <= i < gs.len() ==> (#[trigger] generics_m(f, gs, a).0[i]).text == gs[i].text
                && generics_m(f, gs, a).0[i].kind == gs[i].kind,
        forall|i: int, b: NodeM|
            0 <= i < gs.len() && #[trigger] generics_m(f, gs, a).0[i].children.contains(b)
                ==> gs[i].children.contains(b),
        forall|i: int, b: NodeM|
            0 <= i < gs.len() && #[trigger] gs[i].children.contains(b) && !is_generated_bound_m(
                b.text,
            ) ==> generics_m(f, gs, a).0[i].children.contains(b),
    decreases gs,
{
    if gs.len() > 0 {
        let g = gs[0];
        lemma_remove_bound(g.children, "Clone"@);
        lemma_remove_bound(g.children, "'static"@);
        lemma_remove_bound(remove_bound_m(g.children, "Clone"@), "'static"@);
        let rc = has_bound_m(g.children, "Clone"@) && function_indep_m(f, g.text, BoundKind::Clone);
        let rs = has_bound_m(g.children, "'static"@) && function_indep_m(
            f,
            g.text,
            BoundKind::Static,
        );
        let a1 = if rc {
            BoundCleanupAnalysis { removed_clone_bounds: bump_bound_count(a.removed_clone_bounds), ..a }
        } else {
            a
        };
        let a2 = if rs {
            BoundCleanupAnalysis {
                removed_static_bounds: bump_bound_count(a1.removed_static_bounds),
                ..a1
            }
        } else {
            a1
        };
        lemma_generics_keep_bounds(f, gs.drop_first(), a2);
        let out = generics_m(f, gs, a).0;
        let rest = generics_m(f, gs.drop_first(), a2).0;
        assert(out == seq![out[0]] + rest);
        assert forall|i: int| 0 < i < gs.len() implies #[trigger] out[i] == rest[i - 1] by {}
        assert forall|i: int, b: NodeM|
            0 <= i < gs.len() && #[trigger] out[i].children.contains(b) implies gs[i].children.contains(b) by {
            if i > 0 {
                assert(out[i] == rest[i - 1]);
                assert(gs[i] == gs.drop_first()[i - 1]);
            }
        }
        assert forall|i: int, b: NodeM|
            0 <= i < gs.len() && #[trigger] gs[i].children.contains(b) && !is_generated_bound_m(
                b.text,
            ) implies out[i].children.contains(b) by {
            if i > 0 {
                assert(out[i] == rest[i - 1]);
                assert(gs[i] == gs.drop_first()[i - 1]);
            }
        }
    }
}

/// The cleanup of a function changes its generics only.
pub proof fn lemma_cleanup_function_changes_generics_only(f: NodeM, a: BoundCleanupAnalysis)
    ensures
        cleanup_function_m(f, a).0.kind == f.kind,
        cleanup_function_m(f, a).0.text == f.text,
        cleanup_function_m(f, a).0.children.len() == f.children.len(),
        forall|j: int|
            0 <= j < f.children.len() && j != 2 ==> #[trigger] cleanup_function_m(f, a).0.children[j]
                == f.children[j],
{
}

} // verus!
