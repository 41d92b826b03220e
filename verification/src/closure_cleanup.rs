//! Removal of generated capture aliases in front of closures.
//!
//! Generated code prepares each capture of a returned closure with a binding
//! `let x_cap = x.clone();`. Once the last-use cleanup has turned it into
//! the move `let x_cap = x;`, and the binding is one of the statements just
//! before a block's tail `Rc::new(move |..| body)`, the alias is removed and
//! the closure captures `x` directly: `body` reads `x` where it read `x_cap`.
//! The rewrite is refused wherever renaming could change what a name refers
//! to.
use vstd::prelude::*;

use crate::ast::{Kind, Node, Nodes};
use crate::binding_cleanup::{is_binding_ident, is_binding_ident_m};
use crate::boolean_cleanup::strip_parens_m;
use crate::bound_cleanup::{bound_mentions_generic, bound_mentions_m, segment_is};
use crate::boolean_cleanup::strip_parentheses;
use crate::model::{
    all_but_last, child, copy_node, copy_nodes, has_len, last_node, leaf, lemma_child_smaller,
    node1, nodes_from_vec, nodes_into_vec, views_m, lemma_cons, lemma_sizes_cons, mk, node_m,
    nodes_m, size, sizes, NodeM,
};
use crate::text::{
    drop_trailing_whitespace, skip_whitespace, substring, trim_end_m, trim_m, trim_start_m, views,
};

verus! {

/// Counts of the capture aliases removed.
#[derive(Debug, Clone, Copy, PartialEq, Eq)]
pub struct ClosureOptAnalysis {
    /// Number of generated `let x_cap = x;` bindings folded into direct
    /// by-value captures of `x`.
    pub capture_alias_eliminations: usize,
}

impl ClosureOptAnalysis {
    /// An analysis with the count at zero.
    pub fn new() -> (a: ClosureOptAnalysis)
        ensures
            a.capture_alias_eliminations == 0,
    {
        ClosureOptAnalysis { capture_alias_eliminations: 0 }
    }
}

impl Default for ClosureOptAnalysis {
    fn default() -> (a: ClosureOptAnalysis)
        ensures
            a.capture_alias_eliminations == 0,
    {
        ClosureOptAnalysis::new()
    }
}

/// `x + n`, or `usize::MAX` where that does not fit.
pub open spec fn saturating_add_m(x: usize, n: nat) -> usize {
    if x + n <= usize::MAX {
        (x + n) as usize
    } else {
        usize::MAX
    }
}

// ----- names -----

/// Whether `c` is an ASCII capital letter.
pub open spec fn is_ascii_capital(c: char) -> bool {
    'A' <= c && c <= 'Z'
}

/// Whether the pattern `p` binds the name `n`: some token of `p` is `n`, and
/// `n` is a plain identifier that does not start with a capital letter.
pub open spec fn pattern_binds_name_m(p: Seq<char>, n: Seq<char>) -> bool {
    &&& is_binding_ident_m(n)
    &&& !is_ascii_capital(n[0])
    &&& bound_mentions_m(p, n)
}

/// `s` without its leading `mut ` prefixes.
pub open spec fn strip_mut_m(s: Seq<char>) -> Seq<char>
    decreases s.len(),
{
    if s.len() >= 4 && s.subrange(0, 4) == "mut "@ {
        strip_mut_m(s.subrange(4, s.len() as int))
    } else {
        s
    }
}

/// The name a closure parameter with pattern `p` binds.
pub open spec fn closure_param_name_m(p: Seq<char>) -> Seq<char> {
    trim_m(strip_mut_m(p))
}

/// The names the closure parameters `ps` bind.
pub open spec fn param_names_m(ps: Seq<NodeM>) -> Seq<Seq<char>> {
    ps.map_values(|p: NodeM| closure_param_name_m(p.text))
}

/// The parameters of a closure node.
pub open spec fn closure_params_m(e: NodeM) -> Seq<NodeM> {
    if e.kind is TypedClosure {
        e.children.subrange(2, e.children.len() as int)
    } else {
        e.children.drop_first()
    }
}

/// Whether `e` is a closure node with its body and parameters in place.
pub open spec fn is_closure_node(e: NodeM) -> bool {
    (e.kind is Closure && e.children.len() >= 1) || (e.kind is TypedClosure && e.children.len()
        >= 2)
}

// ----- substitutions -----

/// The expression a substitution maps `n` to: the first entry for `n`.
pub open spec fn lookup_m(s: Seq<(Seq<char>, NodeM)>, n: Seq<char>) -> Option<NodeM>
    decreases s.len(),
{
    if s.len() == 0 {
        None
    } else if s[0].0 == n {
        Some(s[0].1)
    } else {
        lookup_m(s.drop_first(), n)
    }
}

/// The substitution `s` without the entries for names that `p` binds.
pub open spec fn without_pattern_m(s: Seq<(Seq<char>, NodeM)>, p: Seq<char>) -> Seq<(Seq<char>, NodeM)>
    decreases s.len(),
{
    if s.len() == 0 {
        s
    } else {
        let r = without_pattern_m(s.drop_last(), p);
        if pattern_binds_name_m(p, s.last().0) {
            r
        } else {
            r.push(s.last())
        }
    }
}

/// The substitution `s` without the entries for the names `ns`.
pub open spec fn without_names_m(s: Seq<(Seq<char>, NodeM)>, ns: Seq<Seq<char>>) -> Seq<(Seq<char>, NodeM)>
    decreases s.len(),
{
    if s.len() == 0 {
        s
    } else {
        let r = without_names_m(s.drop_last(), ns);
        if ns.contains(s.last().0) {
            r
        } else {
            r.push(s.last())
        }
    }
}

/// The expression `e` with the free reads of the names of `s` replaced by
/// their expressions. Names bound inside `e` are not replaced where they
/// are bound.
pub open spec fn subst_m(e: NodeM, s: Seq<(Seq<char>, NodeM)>) -> NodeM
    decreases e, 2nat,
{
    match e.kind {
        Kind::Ident => match lookup_m(s, e.text) {
            Some(r) => r,
            None => e,
        },
        Kind::Path { member } => {
            if member && e.children.len() == 1 {
                match lookup_m(s, e.children[0].text) {
                    Some(r) => r,
                    None => e,
                }
            } else {
                e
            }
        },
        Kind::Macro | Kind::Literal | Kind::Bool(_) | Kind::BuilderChain => e,
        Kind::IfLet => mk(
            e.kind,
            e.text,
            subst_list_m(e.children, s, without_pattern_m(s, e.text), Some(1)),
        ),
        Kind::Arm => {
            let inner = without_pattern_m(s, e.text);
            mk(e.kind, e.text, subst_list_m(e.children, inner, inner, None))
        },
        Kind::Closure { .. } | Kind::TypedClosure { .. } => {
            if is_closure_node(e) {
                let inner = without_names_m(s, param_names_m(closure_params_m(e)));
                mk(e.kind, e.text, e.children.update(0, subst_m(e.children[0], inner)))
            } else {
                e
            }
        },
        Kind::Cast => {
            if e.children.len() >= 1 {
                mk(e.kind, e.text, e.children.update(0, subst_m(e.children[0], s)))
            } else {
                e
            }
        },
        Kind::Block => mk(e.kind, e.text, subst_block_m(e.children, s)),
        _ => mk(e.kind, e.text, subst_list_m(e.children, s, s, None)),
    }
}

/// A position in a list counted down as the list is walked: `Some(0)` marks
/// the current element, `None` no element.
pub open spec fn next_position(p: Option<nat>) -> Option<nat> {
    match p {
        Some(k) => if k > 0 {
            Some((k - 1) as nat)
        } else {
            None
        },
        None => None,
    }
}

/// The substitution into each of `cs`: the one at position `special` with
/// `t`, the others with `s`.
pub open spec fn subst_list_m(
    cs: Seq<NodeM>,
    s: Seq<(Seq<char>, NodeM)>,
    t: Seq<(Seq<char>, NodeM)>,
    special: Option<nat>,
) -> Seq<NodeM>
    decreases cs, 1nat,
{
    if cs.len() == 0 {
        cs
    } else {
        seq![subst_m(cs[0], if special == Some(0nat) { t } else { s })] + subst_list_m(
            cs.drop_first(),
            s,
            t,
            next_position(special),
        )
    }
}

/// The substitution into the statements `cs` of a block; each `let` hides
/// the names it binds from the statements after it.
pub open spec fn subst_block_m(cs: Seq<NodeM>, s: Seq<(Seq<char>, NodeM)>) -> Seq<NodeM>
    decreases cs, 0nat,
{
    if cs.len() == 0 {
        cs
    } else {
        let st = cs[0];
        if st.kind is Let {
            let st2 = if st.children.len() == 2 {
                mk(st.kind, st.text, st.children.update(1, subst_m(st.children[1], s)))
            } else {
                st
            };
            seq![st2] + subst_block_m(cs.drop_first(), without_pattern_m(s, st.text))
        } else if st.kind is ExprStmt || st.kind is Tail {
            seq![mk(st.kind, st.text, subst_list_m(st.children, s, s, None))] + subst_block_m(
                cs.drop_first(),
                s,
            )
        } else {
            seq![st] + subst_block_m(cs.drop_first(), s)
        }
    }
}

// ----- reads and bindings -----

/// The number of free reads of the name `n` in `e`.
pub open spec fn count_reads_m(e: NodeM, n: Seq<char>) -> nat
    decreases e, 2nat,
{
    match e.kind {
        Kind::Ident => if e.text == n {
            1
        } else {
            0
        },
        Kind::Path { member } => if member && e.children.len() > 0 && e.children[0].text == n {
            1
        } else {
            0
        },
        Kind::Macro | Kind::Literal | Kind::Bool(_) => 0,
        Kind::IfLet => count_list_m(
            e.children,
            n,
            if pattern_binds_name_m(e.text, n) {
                Some(1)
            } else {
                None
            },
        ),
        Kind::Arm => if pattern_binds_name_m(e.text, n) {
            0
        } else {
            count_list_m(e.children, n, None)
        },
        Kind::Closure { .. } | Kind::TypedClosure { .. } => {
            if is_closure_node(e) && !param_names_m(closure_params_m(e)).contains(n) {
                count_reads_m(e.children[0], n)
            } else {
                0
            }
        },
        Kind::Block => count_block_m(e.children, n),
        _ => count_list_m(e.children, n, None),
    }
}

/// The reads of `n` in each of `cs` but the one at position `skip`.
pub open spec fn count_list_m(cs: Seq<NodeM>, n: Seq<char>, skip: Option<nat>) -> nat
    decreases cs, 1nat,
{
    if cs.len() == 0 {
        0
    } else {
        (if skip == Some(0nat) {
            0
        } else {
            count_reads_m(cs[0], n)
        }) + count_list_m(cs.drop_first(), n, next_position(skip))
    }
}

/// The reads of `n` in the statements `cs`, up to the `let` that rebinds
/// it (its initializer included).
pub open spec fn count_block_m(cs: Seq<NodeM>, n: Seq<char>) -> nat
    decreases cs, 0nat,
{
    if cs.len() == 0 {
        0
    } else {
        let st = cs[0];
        if st.kind is Let {
            count_list_m(st.children, n, None) + if pattern_binds_name_m(st.text, n) {
                0
            } else {
                count_block_m(cs.drop_first(), n)
            }
        } else if st.kind is ExprStmt || st.kind is Tail {
            count_list_m(st.children, n, None) + count_block_m(cs.drop_first(), n)
        } else {
            count_block_m(cs.drop_first(), n)
        }
    }
}

/// Whether `e` binds the name `n` anywhere: as a closure parameter or in a
/// pattern.
pub open spec fn binds_m(e: NodeM, n: Seq<char>) -> bool
    decreases e, 1nat,
{
    match e.kind {
        Kind::Closure { .. } | Kind::TypedClosure { .. } => is_closure_node(e) && (param_names_m(
            closure_params_m(e),
        ).contains(n) || binds_m(e.children[0], n)),
        Kind::IfLet | Kind::Arm | Kind::Let { .. } => pattern_binds_name_m(e.text, n)
            || binds_list_m(e.children, n),
        Kind::ItemStmt | Kind::Ident | Kind::Macro | Kind::Path { .. } | Kind::Literal
        | Kind::Bool(_) => false,
        _ => binds_list_m(e.children, n),
    }
}

pub open spec fn binds_list_m(cs: Seq<NodeM>, n: Seq<char>) -> bool
    decreases cs, 0nat,
{
    cs.len() > 0 && (binds_m(cs[0], n) || binds_list_m(cs.drop_first(), n))
}

// ----- the capture-alias rule -----

/// `e` without enclosing parentheses and casts.
pub open spec fn strip_capture_wrappers_m(e: NodeM) -> NodeM
    decreases e,
{
    if (e.kind is Parenthesized && e.children.len() == 1) || (e.kind is Cast && e.children.len()
        == 2) {
        strip_capture_wrappers_m(e.children[0])
    } else {
        e
    }
}

/// Whether `e` is the path `Rc::new`, possibly in parentheses.
pub open spec fn is_rc_new_m(e: NodeM) -> bool {
    let p = strip_parens_m(e);
    &&& p.kind == (Kind::Path { member: false })
    &&& p.children.len() == 2
    &&& p.children[0].text == "Rc"@
    &&& p.children[1].text == "new"@
}

/// Whether `a` is a `move` closure node.
pub open spec fn is_move_closure_m(a: NodeM) -> bool {
    is_closure_node(a) && (a.kind == (Kind::Closure { moves: true }) || a.kind == (
    Kind::TypedClosure { moves: true }))
}

/// The closure created by `e` when `e` is `Rc::new(move |..| body)`, looking
/// through parentheses and casts.
pub open spec fn rc_closure_m(e: NodeM) -> Option<NodeM> {
    let c = strip_capture_wrappers_m(e);
    if c.kind is Call && c.children.len() == 2 && is_rc_new_m(c.children[0])
        && is_move_closure_m(strip_parens_m(c.children[1])) {
        Some(strip_parens_m(c.children[1]))
    } else {
        None
    }
}

/// The closure node `a`, under its parentheses, with the body `b`.
pub open spec fn with_body_in_parens_m(a: NodeM, b: NodeM) -> NodeM
    decreases a,
{
    if a.kind is Parenthesized && a.children.len() == 1 {
        mk(a.kind, a.text, seq![with_body_in_parens_m(a.children[0], b)])
    } else if a.children.len() >= 1 {
        mk(a.kind, a.text, a.children.update(0, b))
    } else {
        a
    }
}

/// The expression `e` with the body of the closure it creates replaced by
/// `b`.
pub open spec fn with_closure_body_m(e: NodeM, b: NodeM) -> NodeM
    decreases e,
{
    if (e.kind is Parenthesized && e.children.len() == 1) || (e.kind is Cast && e.children.len()
        == 2) {
        mk(e.kind, e.text, e.children.update(0, with_closure_body_m(e.children[0], b)))
    } else if e.kind is Call && e.children.len() == 2 {
        mk(e.kind, e.text, e.children.update(1, with_body_in_parens_m(e.children[1], b)))
    } else {
        e
    }
}

/// Whether `s` ends with `_cap`.
pub open spec fn ends_with_cap(s: Seq<char>) -> bool {
    s.len() >= 4 && s.subrange(s.len() - 4, s.len() as int) == "_cap"@
}

/// The alias and the name it moves from, when the statement `st` is a
/// generated capture move `let x_cap = x;`.
pub open spec fn capture_alias_m(st: NodeM) -> Option<(Seq<char>, Seq<char>)> {
    if st.kind == (Kind::Let { mutable: false }) && st.children.len() == 2
        && st.children[0].kind is Absent && !(st.children[1].kind is Absent) && is_binding_ident_m(
        st.text,
    ) && ends_with_cap(st.text) {
        let init = strip_parens_m(st.children[1]);
        if init.kind is Ident && is_binding_ident_m(init.text) && init.text != st.text {
            Some((st.text, init.text))
        } else {
            None
        }
    } else {
        None
    }
}

/// The capture moves that end the statements `stmts`, in order.
pub open spec fn alias_suffix_m(stmts: Seq<NodeM>) -> Seq<(Seq<char>, Seq<char>)>
    decreases stmts.len(),
{
    if stmts.len() == 0 {
        Seq::empty()
    } else {
        match capture_alias_m(stmts.last()) {
            None => Seq::empty(),
            Some(p) => alias_suffix_m(stmts.drop_last()).push(p),
        }
    }
}

/// Whether the capture moves `al` can be folded into the closure with
/// parameters `params` and body `body`: there is one at least, the aliases
/// are distinct, the original names are distinct and are no aliases, no
/// name is a parameter, the body reads every alias, reads no original name
/// and binds none.
pub open spec fn aliases_foldable_m(
    al: Seq<(Seq<char>, Seq<char>)>,
    params: Seq<NodeM>,
    body: NodeM,
) -> bool {
    let names = param_names_m(params);
    &&& al.len() > 0
    &&& forall|i: int, j: int| 0 <= i < j < al.len() ==> al[i].0 != al[j].0 && al[i].1 != al[j].1
    &&& forall|i: int, j: int| 0 <= i < al.len() && 0 <= j < al.len() ==> al[i].0 != al[j].1
    &&& forall|i: int|
        0 <= i < al.len() ==> {
            &&& !names.contains(al[i].0)
            &&& !names.contains(al[i].1)
            &&& !binds_m(body, al[i].1)
            &&& count_reads_m(body, al[i].0) != 0
            &&& count_reads_m(body, al[i].1) == 0
        }
}

/// The substitution that renames each alias of `al` to its original name.
pub open spec fn alias_subst_m(al: Seq<(Seq<char>, Seq<char>)>) -> Seq<(Seq<char>, NodeM)> {
    al.map_values(|p: (Seq<char>, Seq<char>)| (p.0, mk(Kind::Ident, p.1, Seq::empty())))
}

/// The statements `stmts` and tail `tail` of a block with the capture moves
/// that end the statements folded into the closure of the tail, and the
/// count.
pub open spec fn eliminate_m(stmts: Seq<NodeM>, tail: NodeM, a: ClosureOptAnalysis) -> (
    Seq<NodeM>,
    NodeM,
    ClosureOptAnalysis,
) {
    match rc_closure_m(tail) {
        None => (stmts, tail, a),
        Some(c) => {
            let al = alias_suffix_m(stmts);
            let body = c.children[0];
            if aliases_foldable_m(al, closure_params_m(c), body) {
                (
                    stmts.subrange(0, stmts.len() - al.len()),
                    with_closure_body_m(tail, subst_m(body, alias_subst_m(al))),
                    ClosureOptAnalysis {
                        capture_alias_eliminations: saturating_add_m(
                            a.capture_alias_eliminations,
                            al.len(),
                        ),
                    },
                )
            } else {
                (stmts, tail, a)
            }
        },
    }
}

// ----- weights -----

/// A substitution whose expressions are all identifiers.
pub open spec fn renames_only(s: Seq<(Seq<char>, NodeM)>) -> bool {
    forall|i: int|
        0 <= i < s.len() ==> (#[trigger] s[i]).1.kind is Ident && s[i].1.children.len() == 0
}

/// The weight of the last of a list.
pub proof fn lemma_sizes_drop_last(cs: Seq<NodeM>)
    requires
        cs.len() > 0,
    ensures
        sizes(cs) == sizes(cs.drop_last()) + size(cs.last()),
    decreases cs.len(),
{
    if cs.len() > 1 {
        lemma_sizes_drop_last(cs.drop_first());
        assert(cs.drop_first().drop_last() =~= cs.drop_last().drop_first());
    } else {
        assert(cs.drop_first() =~= Seq::<NodeM>::empty());
        assert(cs.drop_last() =~= Seq::<NodeM>::empty());
    }
}

/// Removing entries keeps a renaming a renaming.
pub proof fn lemma_without_renames(s: Seq<(Seq<char>, NodeM)>, p: Seq<char>, ns: Seq<Seq<char>>)
    requires
        renames_only(s),
    ensures
        renames_only(without_pattern_m(s, p)),
        renames_only(without_names_m(s, ns)),
    decreases s.len(),
{
    if s.len() > 0 {
        assert(renames_only(s.drop_last()));
        lemma_without_renames(s.drop_last(), p, ns);
    }
}

/// What a renaming maps a name to is an identifier.
pub proof fn lemma_lookup_renames(s: Seq<(Seq<char>, NodeM)>, n: Seq<char>)
    requires
        renames_only(s),
    ensures
        lookup_m(s, n) matches Some(r) ==> size(r) == 1,
    decreases s.len(),
{
    if s.len() > 0 {
        assert(renames_only(s.drop_first()));
        lemma_lookup_renames(s.drop_first(), n);
        assert(sizes(s[0].1.children) == 0);
    }
}

/// A renaming never makes an expression heavier.
pub proof fn lemma_subst_size(e: NodeM, s: Seq<(Seq<char>, NodeM)>)
    requires
        renames_only(s),
    ensures
        size(subst_m(e, s)) <= size(e),
    decreases e, 2nat,
{
    lemma_lookup_renames(s, e.text);
    match e.kind {
        Kind::Ident => {},
        Kind::Path { member } => {
            if member && e.children.len() == 1 {
                lemma_lookup_renames(s, e.children[0].text);
                lemma_child_smaller(e, 0);
            }
        },
        Kind::Macro | Kind::Literal | Kind::Bool(_) | Kind::BuilderChain => {},
        Kind::IfLet => {
            lemma_without_renames(s, e.text, Seq::empty());
            lemma_subst_list_size(e.children, s, without_pattern_m(s, e.text), Some(1));
        },
        Kind::Arm => {
            lemma_without_renames(s, e.text, Seq::empty());
            let inner = without_pattern_m(s, e.text);
            lemma_subst_list_size(e.children, inner, inner, None);
        },
        Kind::Closure { .. } | Kind::TypedClosure { .. } => {
            if is_closure_node(e) {
                let ns = param_names_m(closure_params_m(e));
                lemma_without_renames(s, e.text, ns);
                lemma_subst_size(e.children[0], without_names_m(s, ns));
                lemma_update_size(e.children, subst_m(e.children[0], without_names_m(s, ns)));
            }
        },
        Kind::Cast => {
            if e.children.len() >= 1 {
                lemma_subst_size(e.children[0], s);
                lemma_update_size(e.children, subst_m(e.children[0], s));
            }
        },
        Kind::Block => {
            lemma_subst_block_size(e.children, s);
        },
        _ => {
            lemma_subst_list_size(e.children, s, s, None);
        },
    }
}

/// Replacing the first of a list by something no heavier keeps the list
/// no heavier.
pub proof fn lemma_update_size(cs: Seq<NodeM>, x: NodeM)
    requires
        cs.len() >= 1,
        size(x) <= size(cs[0]),
    ensures
        sizes(cs.update(0, x)) <= sizes(cs),
{
    assert(cs.update(0, x).drop_first() =~= cs.drop_first());
}

pub proof fn lemma_subst_list_size(
    cs: Seq<NodeM>,
    s: Seq<(Seq<char>, NodeM)>,
    t: Seq<(Seq<char>, NodeM)>,
    special: Option<nat>,
)
    requires
        renames_only(s),
        renames_only(t),
    ensures
        sizes(subst_list_m(cs, s, t, special)) <= sizes(cs),
    decreases cs, 1nat,
{
    if cs.len() > 0 {
        let u = if special == Some(0nat) {
            t
        } else {
            s
        };
        lemma_subst_size(cs[0], u);
        lemma_subst_list_size(cs.drop_first(), s, t, next_position(special));
        lemma_sizes_cons(subst_m(cs[0], u), subst_list_m(cs.drop_first(), s, t, next_position(special)));
        assert(cs =~= seq![cs[0]] + cs.drop_first());
        lemma_sizes_cons(cs[0], cs.drop_first());
    }
}

pub proof fn lemma_subst_block_size(cs: Seq<NodeM>, s: Seq<(Seq<char>, NodeM)>)
    requires
        renames_only(s),
    ensures
        sizes(subst_block_m(cs, s)) <= sizes(cs),
    decreases cs, 0nat,
{
    if cs.len() > 0 {
        let st = cs[0];
        assert(cs =~= seq![cs[0]] + cs.drop_first());
        lemma_sizes_cons(cs[0], cs.drop_first());
        if st.kind is Let {
            lemma_without_renames(s, st.text, Seq::empty());
            lemma_subst_block_size(cs.drop_first(), without_pattern_m(s, st.text));
            let st2 = if st.children.len() == 2 {
                lemma_subst_size(st.children[1], s);
                let x = subst_m(st.children[1], s);
                assert(st.children.update(1, x) =~= seq![st.children[0]] + seq![x]);
                assert(st.children =~= seq![st.children[0]] + seq![st.children[1]]);
                lemma_sizes_cons(st.children[0], seq![x]);
                lemma_sizes_cons(st.children[0], seq![st.children[1]]);
                lemma_sizes_cons(x, Seq::empty());
                lemma_sizes_cons(st.children[1], Seq::empty());
                mk(st.kind, st.text, st.children.update(1, x))
            } else {
                st
            };
            lemma_sizes_cons(st2, subst_block_m(cs.drop_first(), without_pattern_m(s, st.text)));
        } else if st.kind is ExprStmt || st.kind is Tail {
            lemma_subst_list_size(st.children, s, s, None);
            lemma_subst_block_size(cs.drop_first(), s);
            lemma_sizes_cons(
                mk(st.kind, st.text, subst_list_m(st.children, s, s, None)),
                subst_block_m(cs.drop_first(), s),
            );
        } else {
            lemma_subst_block_size(cs.drop_first(), s);
            lemma_sizes_cons(st, subst_block_m(cs.drop_first(), s));
        }
    }
}

/// Giving the closure of a tail a body no heavier than its own keeps the
/// tail no heavier.
pub proof fn lemma_with_body_size(e: NodeM, b: NodeM)
    requires
        rc_closure_m(e) is Some,
        size(b) <= size(rc_closure_m(e).unwrap().children[0]),
    ensures
        size(with_closure_body_m(e, b)) <= size(e),
    decreases e,
{
    if (e.kind is Parenthesized && e.children.len() == 1) || (e.kind is Cast && e.children.len()
        == 2) {
        assert(rc_closure_m(e) == rc_closure_m(e.children[0]));
        lemma_with_body_size(e.children[0], b);
        lemma_update_size(e.children, with_closure_body_m(e.children[0], b));
    } else {
        let a = e.children[1];
        lemma_with_body_in_parens_size(a, b);
        let x = with_body_in_parens_m(a, b);
        assert(e.children.update(1, x) =~= seq![e.children[0]] + seq![x]);
        assert(e.children =~= seq![e.children[0]] + seq![a]);
        lemma_sizes_cons(e.children[0], seq![x]);
        lemma_sizes_cons(e.children[0], seq![a]);
        lemma_sizes_cons(x, Seq::empty());
        lemma_sizes_cons(a, Seq::empty());
    }
}

pub proof fn lemma_with_body_in_parens_size(a: NodeM, b: NodeM)
    requires
        is_move_closure_m(strip_parens_m(a)),
        size(b) <= size(strip_parens_m(a).children[0]),
    ensures
        size(with_body_in_parens_m(a, b)) <= size(a),
    decreases a,
{
    if a.kind is Parenthesized && a.children.len() == 1 {
        lemma_with_body_in_parens_size(a.children[0], b);
        lemma_sizes_cons(with_body_in_parens_m(a.children[0], b), Seq::empty());
        lemma_sizes_cons(a.children[0], Seq::empty());
        assert(a.children =~= seq![a.children[0]]);
    } else {
        lemma_update_size(a.children, b);
    }
}

/// Folding capture moves never makes the tail heavier.
pub proof fn lemma_eliminate_tail_size(stmts: Seq<NodeM>, tail: NodeM, a: ClosureOptAnalysis)
    ensures
        size(eliminate_m(stmts, tail, a).1) <= size(tail),
{
    if let Some(c) = rc_closure_m(tail) {
        let al = alias_suffix_m(stmts);
        let s = alias_subst_m(al);
        assert(renames_only(s)) by {
            assert forall|i: int| 0 <= i < s.len() implies (#[trigger] s[i]).1.kind is Ident
                && s[i].1.children.len() == 0 by {}
        }
        lemma_subst_size(c.children[0], s);
        lemma_with_body_size(tail, subst_m(c.children[0], s));
    }
}

// ----- the traversal -----

/// Whether `n` is a block ending with a tail expression.
pub open spec fn has_tail_m(n: NodeM) -> bool {
    &&& n.kind is Block
    &&& n.children.len() > 0
    &&& n.children.last().kind is Tail
    &&& n.children.last().children.len() == 1
}

/// The cleanup of a node and everything below it, counting into `a`. A
/// block has its statements cleaned, then its capture moves folded, then its
/// tail cleaned, then its capture moves folded again.
pub open spec fn opt_m(n: NodeM, a: ClosureOptAnalysis) -> (NodeM, ClosureOptAnalysis)
    decreases size(n), 0nat,
{
    let cs = n.children;
    if has_tail_m(n) {
        proof {
            lemma_sizes_drop_last(cs);
            lemma_child_smaller(n, cs.len() - 1);
            lemma_child_smaller(cs.last(), 0);
        }
        let (stmts1, a1) = opt_list_m(cs.drop_last(), a);
        let t = cs.last().children[0];
        let (stmts2, t2, a2) = eliminate_m(stmts1, t, a1);
        proof {
            lemma_eliminate_tail_size(stmts1, t, a1);
        }
        let (t3, a3) = opt_m(t2, a2);
        let (stmts4, t4, a4) = eliminate_m(stmts2, t3, a3);
        (mk(n.kind, n.text, stmts4.push(mk(Kind::Tail, cs.last().text, seq![t4]))), a4)
    } else {
        let (cs1, a1) = opt_list_m(cs, a);
        (mk(n.kind, n.text, cs1), a1)
    }
}

pub open spec fn opt_list_m(cs: Seq<NodeM>, a: ClosureOptAnalysis) -> (Seq<NodeM>, ClosureOptAnalysis)
    decreases sizes(cs), 1nat,
{
    if cs.len() == 0 {
        (cs, a)
    } else {
        proof {
            assert(cs =~= seq![cs[0]] + cs.drop_first());
            lemma_sizes_cons(cs[0], cs.drop_first());
        }
        let (h, a1) = opt_m(cs[0], a);
        let (rest, a2) = opt_list_m(cs.drop_first(), a1);
        (seq![h] + rest, a2)
    }
}

/// The closure cleanup of a module tree, and its count started from zero.
pub open spec fn optimize_closure_m(m: NodeM) -> (NodeM, ClosureOptAnalysis) {
    opt_m(m, ClosureOptAnalysis { capture_alias_eliminations: 0 })
}

// ----- executable names -----

/// Whether the pattern `p` binds the name `n`.
pub(crate) fn pattern_binds_name(p: &String, n: &String) -> (b: bool)
    ensures
        b == pattern_binds_name_m(p@, n@),
{
    if !is_binding_ident(n) {
        return false;
    }
    let first = n.as_str().get_char(0);
    if 'A' <= first && first <= 'Z' {
        return false;
    }
    bound_mentions_generic(p, n)
}

/// Where `s` starts once its leading `mut ` prefixes are skipped, from `i`.
pub(crate) fn skip_mut_prefixes(s: &str, i: usize) -> (k: usize)
    requires
        i <= s@.len(),
    ensures
        i <= k <= s@.len(),
        strip_mut_m(s@.subrange(i as int, s@.len() as int)) == strip_mut_m(
            s@.subrange(k as int, s@.len() as int),
        ),
        s@.subrange(k as int, s@.len() as int) == strip_mut_m(s@.subrange(k as int, s@.len() as int)),
    decreases s@.len() - i,
{
    let n = s.unicode_len();
    let ghost t = s@.subrange(i as int, n as int);
    if n - i >= 4 && segment_is(s, i, i + 4, "mut ") {
        assert(t.subrange(0, 4) =~= s@.subrange(i as int, i + 4));
        assert(t.subrange(4, t.len() as int) =~= s@.subrange(i + 4, n as int));
        skip_mut_prefixes(s, i + 4)
    } else {
        assert(!(t.len() >= 4 && t.subrange(0, 4) == "mut "@)) by {
            if t.len() >= 4 {
                assert(t.subrange(0, 4) =~= s@.subrange(i as int, i + 4));
            }
        }
        i
    }
}

/// The name a closure parameter with pattern `p` binds.
fn closure_param_name(p: &String) -> (r: String)
    ensures
        r@ == closure_param_name_m(p@),
{
    let s = p.as_str();
    let n = s.unicode_len();
    let i = skip_mut_prefixes(s, 0);
    assert(s@.subrange(0, n as int) =~= p@);
    let k1 = skip_whitespace(s, i, n);
    let k2 = drop_trailing_whitespace(s, k1, n);
    substring(s, k1, k2)
}

/// The names the closure parameters `l` bind.
pub(crate) fn param_names(l: &Nodes) -> (r: Vec<String>)
    ensures
        views(r@) == param_names_m(nodes_m(*l)),
    decreases l,
{
    match l {
        Nodes::Nil => {
            let r: Vec<String> = Vec::new();
            assert(views(r@) =~= param_names_m(nodes_m(*l)));
            r
        },
        Nodes::Cons(h, rest) => {
            proof {
                lemma_cons(node_m(**h), nodes_m(**rest));
            }
            let name = closure_param_name(&h.text);
            let mut r: Vec<String> = Vec::new();
            r.push(name);
            let mut tail = param_names(rest);
            let ghost tv = tail@;
            r.append(&mut tail);
            assert(r@ =~= seq![name] + tv);
            assert(views(r@) =~= seq![name@] + views(tv));
            assert(param_names_m(nodes_m(*l)) =~= seq![closure_param_name_m(h.text@)]
                + param_names_m(nodes_m(**rest)));
            r
        },
    }
}

/// The list `l` without its first `k` nodes.
pub(crate) fn skip_nodes(l: &Nodes, k: usize) -> (r: &Nodes)
    requires
        k <= nodes_m(*l).len(),
    ensures
        nodes_m(*r) == nodes_m(*l).subrange(k as int, nodes_m(*l).len() as int),
    decreases l,
{
    if k == 0 {
        assert(nodes_m(*l).subrange(0, nodes_m(*l).len() as int) =~= nodes_m(*l));
        return l;
    }
    match l {
        Nodes::Nil => l,
        Nodes::Cons(h, rest) => {
            proof {
                lemma_cons(node_m(**h), nodes_m(**rest));
            }
            let r = skip_nodes(rest, k - 1);
            assert(nodes_m(**rest).subrange((k - 1) as int, nodes_m(**rest).len() as int)
                =~= nodes_m(*l).subrange(k as int, nodes_m(*l).len() as int));
            r
        },
    }
}

// ----- executable substitutions -----

/// The model of a substitution.
pub open spec fn subst_view(v: Seq<(String, Node)>) -> Seq<(Seq<char>, NodeM)> {
    v.map_values(|p: (String, Node)| (p.0@, p.1@))
}

/// The expression a substitution maps `n` to.
pub(crate) fn lookup(s: &Vec<(String, Node)>, n: &String) -> (r: Option<Node>)
    ensures
        match lookup_m(subst_view(s@), n@) {
            None => r is None,
            Some(m) => r matches Some(x) && x@ == m,
        },
{
    let ghost v = subst_view(s@);
    let mut i: usize = 0;
    assert(v.subrange(0, v.len() as int) =~= v);
    while i < s.len()
        invariant
            i <= s@.len(),
            v == subst_view(s@),
            lookup_m(v, n@) == lookup_m(v.subrange(i as int, v.len() as int), n@),
        decreases s@.len() - i,
    {
        let ghost rest = v.subrange(i as int, v.len() as int);
        assert(rest.drop_first() =~= v.subrange(i + 1, v.len() as int));
        if s[i].0 == *n {
            return Some(copy_node(&s[i].1));
        }
        i = i + 1;
    }
    None
}

/// The substitution `s` without the entries for names that `p` binds.
fn without_pattern(s: &Vec<(String, Node)>, p: &String) -> (r: Vec<(String, Node)>)
    ensures
        subst_view(r@) == without_pattern_m(subst_view(s@), p@),
{
    let ghost v = subst_view(s@);
    let mut r: Vec<(String, Node)> = Vec::new();
    let mut i: usize = 0;
    assert(subst_view(r@) =~= without_pattern_m(v.subrange(0, 0), p@));
    while i < s.len()
        invariant
            i <= s@.len(),
            v == subst_view(s@),
            subst_view(r@) == without_pattern_m(v.subrange(0, i as int), p@),
        decreases s@.len() - i,
    {
        let ghost pre = v.subrange(0, i + 1);
        assert(pre.drop_last() =~= v.subrange(0, i as int));
        if !pattern_binds_name(p, &s[i].0) {
            let entry = (s[i].0.clone(), copy_node(&s[i].1));
            r.push(entry);
            assert(subst_view(r@) =~= without_pattern_m(pre, p@));
        }
        i = i + 1;
    }
    assert(v.subrange(0, v.len() as int) =~= v);
    r
}

/// The substitution `s` without the entries for the names `ns`.
fn without_names(s: &Vec<(String, Node)>, ns: &Vec<String>) -> (r: Vec<(String, Node)>)
    ensures
        subst_view(r@) == without_names_m(subst_view(s@), views(ns@)),
{
    let ghost v = subst_view(s@);
    let mut r: Vec<(String, Node)> = Vec::new();
    let mut i: usize = 0;
    assert(subst_view(r@) =~= without_names_m(v.subrange(0, 0), views(ns@)));
    while i < s.len()
        invariant
            i <= s@.len(),
            v == subst_view(s@),
            subst_view(r@) == without_names_m(v.subrange(0, i as int), views(ns@)),
        decreases s@.len() - i,
    {
        let ghost pre = v.subrange(0, i + 1);
        assert(pre.drop_last() =~= v.subrange(0, i as int));
        if !crate::text::contains_text(ns, &s[i].0) {
            let entry = (s[i].0.clone(), copy_node(&s[i].1));
            r.push(entry);
            assert(subst_view(r@) =~= without_names_m(pre, views(ns@)));
        }
        i = i + 1;
    }
    assert(v.subrange(0, v.len() as int) =~= v);
    r
}

/// A position held in a `usize`, as a natural number.
pub open spec fn position_m(p: Option<usize>) -> Option<nat> {
    match p {
        Some(k) => Some(k as nat),
        None => None,
    }
}

/// The position after `p` as a list is walked.
pub(crate) fn next_pos(p: Option<usize>) -> (r: Option<usize>)
    ensures
        position_m(r) == next_position(position_m(p)),
{
    match p {
        Some(k) => if k > 0 {
            Some(k - 1)
        } else {
            None
        },
        None => None,
    }
}

/// The substitution of `s` into `e`.
pub(crate) fn subst(e: &Node, s: &Vec<(String, Node)>) -> (r: Node)
    ensures
        r@ == subst_m(e@, subst_view(s@)),
    decreases e, 2nat,
{
    match e.kind {
        Kind::Ident => match lookup(s, &e.text) {
            Some(x) => x,
            None => copy_node(e),
        },
        Kind::Path { member } => {
            if member && has_len(&e.children, 1) {
                match lookup(s, &child(&e.children, 0).unwrap().text) {
                    Some(x) => x,
                    None => copy_node(e),
                }
            } else {
                copy_node(e)
            }
        },
        Kind::Macro | Kind::Literal | Kind::Bool(_) | Kind::BuilderChain => copy_node(e),
        Kind::IfLet => {
            let inner = without_pattern(s, &e.text);
            Node { kind: e.kind, text: e.text.clone(), children: subst_list(&e.children, s, &inner, Some(1)) }
        },
        Kind::Arm => {
            let inner = without_pattern(s, &e.text);
            Node {
                kind: e.kind,
                text: e.text.clone(),
                children: subst_list(&e.children, &inner, &inner, None),
            }
        },
        Kind::Closure { .. } | Kind::TypedClosure { .. } => {
            let skip: usize = if matches!(e.kind, Kind::TypedClosure { .. }) {
                2
            } else {
                1
            };
            if child(&e.children, skip - 1).is_none() {
                return copy_node(e);
            }
            match &e.children {
                Nodes::Cons(body, rest) => {
                    proof {
                        lemma_cons(node_m(**body), nodes_m(**rest));
                    }
                    let names = param_names(skip_nodes(&e.children, skip));
                    let inner = without_names(s, &names);
                    let b = subst(body, &inner);
                    let ghost bv = b@;
                    let r = Node {
                        kind: e.kind,
                        text: e.text.clone(),
                        children: Nodes::Cons(Box::new(b), Box::new(copy_nodes(rest))),
                    };
                    assert(nodes_m(r.children) =~= nodes_m(e.children).update(0, bv));
                    assert(nodes_m(e.children).drop_first() =~= nodes_m(e.children).subrange(
                        1,
                        nodes_m(e.children).len() as int,
                    ));
                    r
                },
                Nodes::Nil => copy_node(e),
            }
        },
        Kind::Cast => match &e.children {
            Nodes::Cons(inner, rest) => {
                proof {
                    lemma_cons(node_m(**inner), nodes_m(**rest));
                }
                let b = subst(inner, s);
                let ghost bv = b@;
                let r = Node {
                    kind: e.kind,
                    text: e.text.clone(),
                    children: Nodes::Cons(Box::new(b), Box::new(copy_nodes(rest))),
                };
                assert(nodes_m(r.children) =~= nodes_m(e.children).update(0, bv));
                r
            },
            Nodes::Nil => copy_node(e),
        },
        Kind::Block => Node { kind: e.kind, text: e.text.clone(), children: subst_block(&e.children, s) },
        _ => Node { kind: e.kind, text: e.text.clone(), children: subst_list(&e.children, s, s, None) },
    }
}

/// The substitution into each of `l`: the one at position `special` with
/// `t`, the others with `s`.
fn subst_list(
    l: &Nodes,
    s: &Vec<(String, Node)>,
    t: &Vec<(String, Node)>,
    special: Option<usize>,
) -> (r: Nodes)
    ensures
        nodes_m(r) == subst_list_m(nodes_m(*l), subst_view(s@), subst_view(t@), position_m(special)),
    decreases l, 1nat,
{
    match l {
        Nodes::Nil => Nodes::Nil,
        Nodes::Cons(h, rest) => {
            proof {
                lemma_cons(node_m(**h), nodes_m(**rest));
            }
            let h2 = if special == Some(0usize) {
                subst(h, t)
            } else {
                subst(h, s)
            };
            let tail = subst_list(rest, s, t, next_pos(special));
            let r = Nodes::Cons(Box::new(h2), Box::new(tail));
            assert(nodes_m(r) == seq![h2@] + nodes_m(tail));
            r
        },
    }
}

/// The substitution into the statements `l` of a block.
fn subst_block(l: &Nodes, s: &Vec<(String, Node)>) -> (r: Nodes)
    ensures
        nodes_m(r) == subst_block_m(nodes_m(*l), subst_view(s@)),
    decreases l, 0nat,
{
    match l {
        Nodes::Nil => Nodes::Nil,
        Nodes::Cons(st, rest) => {
            proof {
                lemma_cons(node_m(**st), nodes_m(**rest));
            }
            if matches!(st.kind, Kind::Let { .. }) {
                let st2 = match &st.children {
                    Nodes::Cons(c0, r1) => {
                        proof {
                            lemma_cons(node_m(**c0), nodes_m(**r1));
                        }
                        match &**r1 {
                            Nodes::Cons(c1, r2) => {
                                proof {
                                    lemma_cons(node_m(**c1), nodes_m(**r2));
                                }
                                match &**r2 {
                                    Nodes::Nil => {
                                        let init = subst(c1, s);
                                        let ghost iv = init@;
                                        let last = Nodes::Cons(Box::new(init), Box::new(Nodes::Nil));
                                        assert(nodes_m(last) == seq![iv] + nodes_m(Nodes::Nil));
                                        let r = Node {
                                            kind: st.kind,
                                            text: st.text.clone(),
                                            children: Nodes::Cons(Box::new(copy_node(c0)), Box::new(last)),
                                        };
                                        assert(nodes_m(r.children) =~= nodes_m(st.children).update(1, iv));
                                        r
                                    },
                                    Nodes::Cons(c2, r3) => {
                                        proof {
                                            lemma_cons(node_m(**c2), nodes_m(**r3));
                                        }
                                        copy_node(st)
                                    },
                                }
                            },
                            Nodes::Nil => copy_node(st),
                        }
                    },
                    Nodes::Nil => copy_node(st),
                };
                let inner = without_pattern(s, &st.text);
                let tail = subst_block(rest, &inner);
                let r = Nodes::Cons(Box::new(st2), Box::new(tail));
                assert(nodes_m(r) == seq![st2@] + nodes_m(tail));
                r
            } else if matches!(st.kind, Kind::ExprStmt) || matches!(st.kind, Kind::Tail) {
                let st2 = Node {
                    kind: st.kind,
                    text: st.text.clone(),
                    children: subst_list(&st.children, s, s, None),
                };
                let tail = subst_block(rest, s);
                let r = Nodes::Cons(Box::new(st2), Box::new(tail));
                assert(nodes_m(r) == seq![st2@] + nodes_m(tail));
                r
            } else {
                let st2 = copy_node(st);
                let tail = subst_block(rest, s);
                let r = Nodes::Cons(Box::new(st2), Box::new(tail));
                assert(nodes_m(r) == seq![st2@] + nodes_m(tail));
                r
            }
        },
    }
}

// ----- executable reads and bindings -----

/// A count held in a `usize`: the count itself, or `usize::MAX` where it
/// does not fit.
pub open spec fn saturated(x: nat) -> usize {
    if x <= usize::MAX {
        x as usize
    } else {
        usize::MAX
    }
}

/// The number of free reads of `n` in `e`, saturated.
fn count_reads(e: &Node, n: &String) -> (r: usize)
    ensures
        r == saturated(count_reads_m(e@, n@)),
    decreases e, 2nat,
{
    match e.kind {
        Kind::Ident => if e.text == *n {
            1
        } else {
            0
        },
        Kind::Path { member } => {
            if member {
                match child(&e.children, 0) {
                    Some(first) => if first.text == *n {
                        1
                    } else {
                        0
                    },
                    None => 0,
                }
            } else {
                0
            }
        },
        Kind::Macro | Kind::Literal | Kind::Bool(_) => 0,
        Kind::IfLet => {
            let skip = if pattern_binds_name(&e.text, n) {
                Some(1usize)
            } else {
                None
            };
            count_list(&e.children, n, skip)
        },
        Kind::Arm => if pattern_binds_name(&e.text, n) {
            0
        } else {
            count_list(&e.children, n, None)
        },
        Kind::Closure { .. } | Kind::TypedClosure { .. } => {
            let skip: usize = if matches!(e.kind, Kind::TypedClosure { .. }) {
                2
            } else {
                1
            };
            if child(&e.children, skip - 1).is_none() {
                return 0;
            }
            let names = param_names(skip_nodes(&e.children, skip));
            assert(nodes_m(e.children).drop_first() =~= nodes_m(e.children).subrange(
                1,
                nodes_m(e.children).len() as int,
            ));
            if crate::text::contains_text(&names, n) {
                return 0;
            }
            match &e.children {
                Nodes::Cons(body, rest) => {
                    proof {
                        lemma_cons(node_m(**body), nodes_m(**rest));
                    }
                    count_reads(body, n)
                },
                Nodes::Nil => 0,
            }
        },
        Kind::Block => count_block(&e.children, n),
        _ => count_list(&e.children, n, None),
    }
}

fn count_list(l: &Nodes, n: &String, skip: Option<usize>) -> (r: usize)
    ensures
        r == saturated(count_list_m(nodes_m(*l), n@, position_m(skip))),
    decreases l, 1nat,
{
    match l {
        Nodes::Nil => 0,
        Nodes::Cons(h, rest) => {
            proof {
                lemma_cons(node_m(**h), nodes_m(**rest));
            }
            let here = if skip == Some(0usize) {
                0
            } else {
                count_reads(h, n)
            };
            let later = count_list(rest, n, next_pos(skip));
            here.saturating_add(later)
        },
    }
}

fn count_block(l: &Nodes, n: &String) -> (r: usize)
    ensures
        r == saturated(count_block_m(nodes_m(*l), n@)),
    decreases l, 0nat,
{
    match l {
        Nodes::Nil => 0,
        Nodes::Cons(st, rest) => {
            proof {
                lemma_cons(node_m(**st), nodes_m(**rest));
            }
            if matches!(st.kind, Kind::Let { .. }) {
                let here = count_list(&st.children, n, None);
                let later = if pattern_binds_name(&st.text, n) {
                    0
                } else {
                    count_block(rest, n)
                };
                here.saturating_add(later)
            } else if matches!(st.kind, Kind::ExprStmt) || matches!(st.kind, Kind::Tail) {
                let here = count_list(&st.children, n, None);
                here.saturating_add(count_block(rest, n))
            } else {
                count_block(rest, n)
            }
        },
    }
}

/// Whether `e` binds the name `n` anywhere.
fn binds_name(e: &Node, n: &String) -> (b: bool)
    ensures
        b == binds_m(e@, n@),
    decreases e, 1nat,
{
    match e.kind {
        Kind::Closure { .. } | Kind::TypedClosure { .. } => {
            let skip: usize = if matches!(e.kind, Kind::TypedClosure { .. }) {
                2
            } else {
                1
            };
            if child(&e.children, skip - 1).is_none() {
                return false;
            }
            let names = param_names(skip_nodes(&e.children, skip));
            assert(nodes_m(e.children).drop_first() =~= nodes_m(e.children).subrange(
                1,
                nodes_m(e.children).len() as int,
            ));
            if crate::text::contains_text(&names, n) {
                return true;
            }
            match &e.children {
                Nodes::Cons(body, rest) => {
                    proof {
                        lemma_cons(node_m(**body), nodes_m(**rest));
                    }
                    binds_name(body, n)
                },
                Nodes::Nil => false,
            }
        },
        Kind::IfLet | Kind::Arm | Kind::Let { .. } => pattern_binds_name(&e.text, n) || binds_list(
            &e.children,
            n,
        ),
        Kind::ItemStmt | Kind::Ident | Kind::Macro | Kind::Path { .. } | Kind::Literal
        | Kind::Bool(_) => false,
        _ => binds_list(&e.children, n),
    }
}

fn binds_list(l: &Nodes, n: &String) -> (b: bool)
    ensures
        b == binds_list_m(nodes_m(*l), n@),
    decreases l, 0nat,
{
    match l {
        Nodes::Nil => false,
        Nodes::Cons(h, rest) => {
            proof {
                lemma_cons(node_m(**h), nodes_m(**rest));
            }
            binds_name(h, n) || binds_list(rest, n)
        },
    }
}

// ----- executable capture-alias rule -----

/// `e` without enclosing parentheses and casts.
fn strip_capture_wrappers(e: &Node) -> (r: &Node)
    ensures
        r@ == strip_capture_wrappers_m(e@),
    decreases size(e@),
{
    let wrapper = (matches!(e.kind, Kind::Parenthesized) && has_len(&e.children, 1)) || (matches!(
        e.kind,
        Kind::Cast
    ) && has_len(&e.children, 2));
    if wrapper {
        proof {
            lemma_child_smaller(e@, 0);
        }
        strip_capture_wrappers(child(&e.children, 0).unwrap())
    } else {
        e
    }
}

/// Whether `e` is the path `Rc::new`, possibly in parentheses.
fn is_rc_new(e: &Node) -> (b: bool)
    ensures
        b == is_rc_new_m(e@),
{
    let p = strip_parentheses(e);
    if !matches!(p.kind, Kind::Path { member: false }) || !has_len(&p.children, 2) {
        return false;
    }
    crate::text::is_text(&child(&p.children, 0).unwrap().text, "Rc") && crate::text::is_text(
        &child(&p.children, 1).unwrap().text,
        "new",
    )
}

/// Whether `a` is a `move` closure node.
fn is_move_closure(a: &Node) -> (b: bool)
    ensures
        b == is_move_closure_m(a@),
{
    match a.kind {
        Kind::Closure { moves } => moves && child(&a.children, 0).is_some(),
        Kind::TypedClosure { moves } => moves && child(&a.children, 1).is_some(),
        _ => false,
    }
}

/// The closure created by `e` when `e` is `Rc::new(move |..| body)`.
fn rc_closure(e: &Node) -> (r: Option<&Node>)
    ensures
        match rc_closure_m(e@) {
            None => r is None,
            Some(c) => r matches Some(x) && x@ == c,
        },
{
    let c = strip_capture_wrappers(e);
    if !matches!(c.kind, Kind::Call) || !has_len(&c.children, 2) {
        return None;
    }
    if !is_rc_new(child(&c.children, 0).unwrap()) {
        return None;
    }
    let a = strip_parentheses(child(&c.children, 1).unwrap());
    if is_move_closure(a) {
        Some(a)
    } else {
        None
    }
}

/// The closure node `a`, under its parentheses, with the body `b`.
fn with_body_in_parens(a: Node, b: Node) -> (r: Node)
    ensures
        r@ == with_body_in_parens_m(a@, b@),
    decreases size(a@),
{
    let parens = matches!(a.kind, Kind::Parenthesized) && has_len(&a.children, 1);
    let ghost av = a@;
    let ghost bv = b@;
    let Node { kind, text, children } = a;
    match children {
        Nodes::Cons(h, rest) => {
            proof {
                lemma_cons(node_m(*h), nodes_m(*rest));
            }
            if parens {
                proof {
                    lemma_child_smaller(av, 0);
                }
                let inner = with_body_in_parens(*h, b);
                node1(kind, text, inner)
            } else {
                let r = Node { kind, text, children: Nodes::Cons(Box::new(b), rest) };
                assert(nodes_m(r.children) =~= av.children.update(0, bv));
                r
            }
        },
        Nodes::Nil => Node { kind, text, children: Nodes::Nil },
    }
}

/// The expression `e` with the body of the closure it creates replaced by
/// `b`.
fn with_closure_body(e: Node, b: Node) -> (r: Node)
    ensures
        r@ == with_closure_body_m(e@, b@),
    decreases size(e@),
{
    let wrapper = (matches!(e.kind, Kind::Parenthesized) && has_len(&e.children, 1)) || (matches!(
        e.kind,
        Kind::Cast
    ) && has_len(&e.children, 2));
    let call = matches!(e.kind, Kind::Call) && has_len(&e.children, 2);
    let ghost ev = e@;
    let ghost bv = b@;
    if !wrapper && !call {
        return e;
    }
    let Node { kind, text, children } = e;
    match children {
        Nodes::Cons(h, rest) => {
            proof {
                lemma_cons(node_m(*h), nodes_m(*rest));
            }
            if wrapper {
                proof {
                    lemma_child_smaller(ev, 0);
                }
                let inner = with_closure_body(*h, b);
                let ghost iv = inner@;
                let r = Node { kind, text, children: Nodes::Cons(Box::new(inner), rest) };
                assert(nodes_m(r.children) =~= ev.children.update(0, iv));
                r
            } else {
                match *rest {
                    Nodes::Cons(h2, rest2) => {
                        proof {
                            lemma_cons(node_m(*h2), nodes_m(*rest2));
                        }
                        let inner = with_body_in_parens(*h2, b);
                        let ghost iv = inner@;
                        let tail = Nodes::Cons(Box::new(inner), rest2);
                        assert(nodes_m(tail) == seq![iv] + nodes_m(*rest2));
                        let r = Node { kind, text, children: Nodes::Cons(h, Box::new(tail)) };
                        assert(nodes_m(r.children) =~= ev.children.update(1, iv));
                        r
                    },
                    Nodes::Nil => Node { kind, text, children: Nodes::Cons(h, Box::new(Nodes::Nil)) },
                }
            }
        },
        Nodes::Nil => Node { kind, text, children: Nodes::Nil },
    }
}

/// Whether `s` ends with `_cap`.
fn ends_with_cap_text(s: &String) -> (b: bool)
    ensures
        b == ends_with_cap(s@),
{
    let t = s.as_str();
    let n = t.unicode_len();
    n >= 4 && segment_is(t, n - 4, n, "_cap")
}

/// The alias and original name of a generated capture move.
fn capture_alias(st: &Node) -> (r: Option<(String, String)>)
    ensures
        match capture_alias_m(st@) {
            None => r is None,
            Some(p) => r matches Some(q) && q.0@ == p.0 && q.1@ == p.1,
        },
{
    if !matches!(st.kind, Kind::Let { mutable: false }) || !has_len(&st.children, 2) {
        return None;
    }
    let ty = child(&st.children, 0).unwrap();
    let init = child(&st.children, 1).unwrap();
    if !matches!(ty.kind, Kind::Absent) || matches!(init.kind, Kind::Absent) {
        return None;
    }
    if !is_binding_ident(&st.text) || !ends_with_cap_text(&st.text) {
        return None;
    }
    let original = strip_parentheses(init);
    if matches!(original.kind, Kind::Ident) && is_binding_ident(&original.text) && original.text
        != st.text {
        Some((st.text.clone(), original.text.clone()))
    } else {
        None
    }
}

/// The model of a list of name pairs.
pub open spec fn pairs_view(v: Seq<(String, String)>) -> Seq<(Seq<char>, Seq<char>)> {
    v.map_values(|p: (String, String)| (p.0@, p.1@))
}

/// The capture moves that end the first `k` statements of `stmts`.
fn alias_suffix(stmts: &Vec<Node>, k: usize) -> (r: Vec<(String, String)>)
    requires
        k <= stmts@.len(),
    ensures
        pairs_view(r@) == alias_suffix_m(views_m(stmts@).subrange(0, k as int)),
        r@.len() <= k,
    decreases k,
{
    let ghost pre = views_m(stmts@).subrange(0, k as int);
    if k == 0 {
        let r: Vec<(String, String)> = Vec::new();
        assert(pairs_view(r@) =~= alias_suffix_m(pre));
        return r;
    }
    assert(pre.last() == stmts@[k - 1]@);
    assert(pre.drop_last() =~= views_m(stmts@).subrange(0, k - 1));
    match capture_alias(&stmts[k - 1]) {
        None => {
            let r: Vec<(String, String)> = Vec::new();
            assert(pairs_view(r@) =~= alias_suffix_m(pre));
            r
        },
        Some(p) => {
            let mut r = alias_suffix(stmts, k - 1);
            let ghost before = r@;
            r.push(p);
            assert(pairs_view(r@) =~= pairs_view(before).push((p.0@, p.1@)));
            r
        },
    }
}

/// Whether the aliases of `al` are distinct, their original names are
/// distinct, and no alias is an original name.
fn aliases_distinct(al: &Vec<(String, String)>) -> (b: bool)
    ensures
        b == ((forall|i: int, j: int|
            0 <= i < j < al@.len() ==> al@[i].0@ != al@[j].0@ && al@[i].1@ != al@[j].1@) && (
        forall|i: int, j: int|
            0 <= i < al@.len() && 0 <= j < al@.len() ==> al@[i].0@ != al@[j].1@)),
{
    let n = al.len();
    let mut i: usize = 0;
    while i < n
        invariant
            n == al@.len(),
            i <= n,
            forall|x: int, y: int|
                0 <= x < i && x < y < n ==> al@[x].0@ != al@[y].0@ && al@[x].1@ != al@[y].1@,
            forall|x: int, y: int| 0 <= x < i && 0 <= y < n ==> al@[x].0@ != al@[y].1@,
        decreases n - i,
    {
        let mut j: usize = 0;
        while j < n
            invariant
                n == al@.len(),
                i < n,
                j <= n,
                forall|x: int, y: int|
                    0 <= x < i && x < y < n ==> al@[x].0@ != al@[y].0@ && al@[x].1@ != al@[y].1@,
                forall|x: int, y: int| 0 <= x < i && 0 <= y < n ==> al@[x].0@ != al@[y].1@,
                forall|y: int|
                    i < y < j ==> al@[i as int].0@ != al@[y].0@ && al@[i as int].1@ != al@[y].1@,
                forall|y: int| 0 <= y < j ==> al@[i as int].0@ != al@[y].1@,
            decreases n - j,
        {
            if al[i].0 == al[j].1 {
                return false;
            }
            if i < j && (al[i].0 == al[j].0 || al[i].1 == al[j].1) {
                return false;
            }
            j = j + 1;
        }
        i = i + 1;
    }
    true
}

/// Whether the capture moves `al` can be folded into the closure with
/// parameters `params` and body `body`.
fn aliases_foldable(al: &Vec<(String, String)>, params: &Nodes, body: &Node) -> (b: bool)
    ensures
        b == aliases_foldable_m(pairs_view(al@), nodes_m(*params), body@),
{
    let ghost v = pairs_view(al@);
    if al.len() == 0 {
        return false;
    }
    if !aliases_distinct(al) {
        assert(!aliases_foldable_m(v, nodes_m(*params), body@)) by {
            if aliases_foldable_m(v, nodes_m(*params), body@) {
                assert forall|i: int, j: int|
                    0 <= i < j < al@.len() implies al@[i].0@ != al@[j].0@ && al@[i].1@
                    != al@[j].1@ by {
                    assert(v[i] == (al@[i].0@, al@[i].1@));
                    assert(v[j] == (al@[j].0@, al@[j].1@));
                }
                assert forall|i: int, j: int|
                    0 <= i < al@.len() && 0 <= j < al@.len() implies al@[i].0@ != al@[j].1@ by {
                    assert(v[i] == (al@[i].0@, al@[i].1@));
                    assert(v[j] == (al@[j].0@, al@[j].1@));
                }
            }
        }
        return false;
    }
    let names = param_names(params);
    let n = al.len();
    let mut i: usize = 0;
    while i < n
        invariant
            n == al@.len(),
            i <= n,
            v == pairs_view(al@),
            views(names@) == param_names_m(nodes_m(*params)),
            forall|k: int|
                0 <= k < i ==> {
                    &&& !param_names_m(nodes_m(*params)).contains(v[k].0)
                    &&& !param_names_m(nodes_m(*params)).contains(v[k].1)
                    &&& !binds_m(body@, v[k].1)
                    &&& count_reads_m(body@, v[k].0) != 0
                    &&& count_reads_m(body@, v[k].1) == 0
                },
        decreases n - i,
    {
        assert(v[i as int] == (al@[i as int].0@, al@[i as int].1@));
        let alias = &al[i].0;
        let original = &al[i].1;
        if crate::text::contains_text(&names, alias) || crate::text::contains_text(&names, original)
            || binds_name(body, original) || count_reads(body, alias) == 0 || count_reads(
            body,
            original,
        ) != 0 {
            return false;
        }
        i = i + 1;
    }
    assert forall|x: int, y: int| 0 <= x < y < v.len() implies v[x].0 != v[y].0 && v[x].1 != v[y].1 by {
        assert(v[x] == (al@[x].0@, al@[x].1@));
        assert(v[y] == (al@[y].0@, al@[y].1@));
    }
    assert forall|x: int, y: int| 0 <= x < v.len() && 0 <= y < v.len() implies v[x].0 != v[y].1 by {
        assert(v[x] == (al@[x].0@, al@[x].1@));
        assert(v[y] == (al@[y].0@, al@[y].1@));
    }
    true
}

/// The substitution that renames each alias of `al` to its original name.
fn alias_subst(al: &Vec<(String, String)>) -> (r: Vec<(String, Node)>)
    ensures
        subst_view(r@) == alias_subst_m(pairs_view(al@)),
{
    let mut r: Vec<(String, Node)> = Vec::new();
    let mut i: usize = 0;
    while i < al.len()
        invariant
            i <= al@.len(),
            subst_view(r@) == alias_subst_m(pairs_view(al@)).subrange(0, i as int),
        decreases al@.len() - i,
    {
        let entry = (al[i].0.clone(), leaf(Kind::Ident, al[i].1.clone()));
        let ghost ev = (entry.0@, entry.1@);
        assert(pairs_view(al@)[i as int] == (al@[i as int].0@, al@[i as int].1@));
        assert(ev == alias_subst_m(pairs_view(al@))[i as int]);
        let ghost before = r@;
        r.push(entry);
        assert(subst_view(r@) =~= subst_view(before).push(ev));
        assert(subst_view(r@) =~= alias_subst_m(pairs_view(al@)).subrange(0, i + 1));
        i = i + 1;
    }
    assert(alias_subst_m(pairs_view(al@)).subrange(0, al@.len() as int) =~= alias_subst_m(
        pairs_view(al@),
    ));
    r
}

/// The statements and tail of a block with the capture moves that end the
/// statements folded into the closure of the tail.
fn eliminate(stmts: Vec<Node>, tail: Node, a: &mut ClosureOptAnalysis) -> (r: (Vec<Node>, Node))
    ensures
        (views_m(r.0@), r.1@, *final(a)) == eliminate_m(views_m(stmts@), tail@, *old(a)),
{
    let ghost sv = views_m(stmts@);
    let new_body: Option<(Node, usize)> = match rc_closure(&tail) {
        None => None,
        Some(c) => {
            let al = alias_suffix(&stmts, stmts.len());
            assert(sv.subrange(0, sv.len() as int) =~= sv);
            let skip: usize = if matches!(c.kind, Kind::TypedClosure { .. }) {
                2
            } else {
                1
            };
            let params = skip_nodes(&c.children, skip);
            assert(nodes_m(c.children).drop_first() =~= nodes_m(c.children).subrange(
                1,
                nodes_m(c.children).len() as int,
            ));
            let body = child(&c.children, 0).unwrap();
            if aliases_foldable(&al, params, body) {
                let s = alias_subst(&al);
                Some((subst(body, &s), al.len()))
            } else {
                None
            }
        },
    };
    match new_body {
        None => (stmts, tail),
        Some((b, count)) => {
            let mut stmts = stmts;
            let keep = stmts.len() - count;
            stmts.truncate(keep);
            assert(views_m(stmts@) =~= sv.subrange(0, keep as int));
            a.capture_alias_eliminations = a.capture_alias_eliminations.saturating_add(count);
            (stmts, with_closure_body(tail, b))
        },
    }
}

// ----- executable traversal -----

/// Whether `n` is a block ending with a tail expression.
fn has_tail(n: &Node) -> (b: bool)
    ensures
        b == has_tail_m(n@),
{
    if !matches!(n.kind, Kind::Block) {
        return false;
    }
    match last_node(&n.children) {
        Some(last) => matches!(last.kind, Kind::Tail) && has_len(&last.children, 1),
        None => false,
    }
}

/// The cleanup of a node and everything below it.
fn opt(n: &Node, a: &mut ClosureOptAnalysis) -> (r: Node)
    ensures
        (r@, *final(a)) == opt_m(n@, *old(a)),
    decreases size(n@), 0nat,
{
    if has_tail(n) {
        let ghost cs = n@.children;
        proof {
            lemma_sizes_drop_last(cs);
            lemma_child_smaller(n@, cs.len() - 1);
            lemma_child_smaller(cs.last(), 0);
        }
        let last = last_node(&n.children).unwrap();
        let stmts = all_but_last(&n.children);
        let stmts1 = opt_list(&stmts, a);
        let t = copy_node(child(&last.children, 0).unwrap());
        let ghost a1 = *a;
        let ghost s1 = nodes_m(stmts1);
        let (stmts2, t2) = eliminate(nodes_into_vec(stmts1), t, a);
        proof {
            lemma_eliminate_tail_size(s1, t@, a1);
        }
        let t3 = opt(&t2, a);
        let (mut stmts4, t4) = eliminate(stmts2, t3, a);
        let ghost before = stmts4@;
        stmts4.push(node1(Kind::Tail, last.text.clone(), t4));
        assert(views_m(stmts4@) =~= views_m(before).push(stmts4@.last()@));
        Node { kind: n.kind, text: n.text.clone(), children: nodes_from_vec(stmts4) }
    } else {
        Node { kind: n.kind, text: n.text.clone(), children: opt_list(&n.children, a) }
    }
}

fn opt_list(l: &Nodes, a: &mut ClosureOptAnalysis) -> (r: Nodes)
    ensures
        (nodes_m(r), *final(a)) == opt_list_m(nodes_m(*l), *old(a)),
    decreases sizes(nodes_m(*l)), 1nat,
{
    match l {
        Nodes::Nil => Nodes::Nil,
        Nodes::Cons(h, rest) => {
            proof {
                lemma_cons(node_m(**h), nodes_m(**rest));
                lemma_sizes_cons(node_m(**h), nodes_m(**rest));
            }
            let h2 = opt(h, a);
            let t = opt_list(rest, a);
            let r = Nodes::Cons(Box::new(h2), Box::new(t));
            assert(nodes_m(r) == seq![h2@] + nodes_m(t));
            r
        },
    }
}

/// Removes the generated capture aliases of a module tree, making the
/// closures capture the original bindings, and returns how many were
/// removed.
pub fn optimize_closure(module: &mut Node) -> (analysis: ClosureOptAnalysis)
    ensures
        (final(module)@, analysis) == optimize_closure_m(old(module)@),
{
    let mut analysis = ClosureOptAnalysis::new();
    let cleaned = opt(module, &mut analysis);
    *module = cleaned;
    analysis
}

// ----- laws -----

/// The capture moves found end the statements, and none stands just before
/// them.
pub proof fn lemma_alias_suffix_maximal(stmts: Seq<NodeM>)
    ensures
        alias_suffix_m(stmts).len() <= stmts.len(),
        alias_suffix_m(
            stmts.subrange(0, stmts.len() - alias_suffix_m(stmts).len()),
        ).len() == 0,
    decreases stmts.len(),
{
    if stmts.len() > 0 {
        match capture_alias_m(stmts.last()) {
            None => {
                assert(stmts.subrange(0, stmts.len() as int) =~= stmts);
            },
            Some(p) => {
                lemma_alias_suffix_maximal(stmts.drop_last());
                let k = stmts.drop_last().len() - alias_suffix_m(stmts.drop_last()).len();
                assert(stmts.subrange(0, stmts.len() - alias_suffix_m(stmts).len())
                    =~= stmts.drop_last().subrange(0, k));
            },
        }
    } else {
        assert(stmts.subrange(0, 0) =~= stmts);
    }
}

/// Folding removes statements from the end only, counts exactly the
/// statements it removed, and folding again right after changes nothing.
pub proof fn lemma_eliminate_removes_suffix(
    stmts: Seq<NodeM>,
    tail: NodeM,
    a: ClosureOptAnalysis,
    b: ClosureOptAnalysis,
)
    ensures
        ({
            let (s1, t1, a1) = eliminate_m(stmts, tail, a);
            &&& s1.len() <= stmts.len()
            &&& s1 == stmts.subrange(0, s1.len() as int)
            &&& a1.capture_alias_eliminations == saturating_add_m(
                a.capture_alias_eliminations,
                (stmts.len() - s1.len()) as nat,
            )
            &&& eliminate_m(s1, t1, b).0 == s1
            &&& eliminate_m(s1, t1, b).1 == t1
        }),
{
    lemma_alias_suffix_maximal(stmts);
    let (s1, t1, a1) = eliminate_m(stmts, tail, a);
    if s1 == stmts && t1 == tail {
        assert(stmts.subrange(0, stmts.len() as int) =~= stmts);
    }
}

} // verus!
