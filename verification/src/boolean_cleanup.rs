//! Local Boolean-expression cleanup.
//!
//! Folds `if c { true } else { false }` to `c` and the negated form to
//! `!(c)`, `false || e` and `e || false` to `e`, `!(a == b)` to `a != b`
//! (in parentheses where the parent is an operator that needs them), and
//! hoists a block-valued `if` condition into a fresh `let` binding placed
//! just before the statement that holds the `if`. Operands are never
//! dropped, so `e || true` stays as it is.
use vstd::prelude::*;
use vstd::relations::injective_on;
use vstd::set_lib::{lemma_int_range, lemma_len_subset, lemma_map_size, set_int_range};

use crate::ast::{Kind, Node, Nodes};
use crate::model::{
    child, copy_node, copy_nodes, has_len, leaf, lemma_child_smaller, lemma_cons, lemma_sizes_cons, mk, node1, node2, node_m,
    nodes_m, size, sizes, NodeM,
};
use crate::text::{
    contains_text, decimal, decimal_string, is_text, lemma_decimal_injective, lemma_decimal_len,
    lemma_views_push, string_of, views,
};

verus! {

/// Counts of the rewrites made by the Boolean cleanup.
#[derive(Debug, Clone, Copy, PartialEq, Eq)]
pub struct BooleanCleanupAnalysis {
    /// Folded `if c { true } else { false }` or its negated counterpart.
    pub conditional_folds: usize,
    /// Folded `false || e` or `e || false` to `e`.
    pub or_false_folds: usize,
    /// Folded `!(a == b)` to `a != b`.
    pub negated_equality_folds: usize,
    /// Hoisted block-valued `if` conditions into preceding local bindings.
    pub hoisted_block_conditions: usize,
}

impl BooleanCleanupAnalysis {
    /// An analysis with every count at zero.
    pub fn new() -> (a: BooleanCleanupAnalysis)
        ensures
            a == no_counts(),
    {
        BooleanCleanupAnalysis {
            conditional_folds: 0,
            or_false_folds: 0,
            negated_equality_folds: 0,
            hoisted_block_conditions: 0,
        }
    }
}

impl Default for BooleanCleanupAnalysis {
    fn default() -> (a: BooleanCleanupAnalysis)
        ensures
            a == no_counts(),
    {
        BooleanCleanupAnalysis::new()
    }
}

/// The analysis with every count at zero.
pub open spec fn no_counts() -> BooleanCleanupAnalysis {
    BooleanCleanupAnalysis {
        conditional_folds: 0,
        or_false_folds: 0,
        negated_equality_folds: 0,
        hoisted_block_conditions: 0,
    }
}

/// Which rule a fold applied.
pub enum BooleanFold {
    Conditional,
    OrFalse,
    NegatedEquality,
}

/// Adds one to a count; a count that has reached `usize::MAX` stays there.
pub open spec fn bump_count(x: usize) -> usize {
    if x < usize::MAX {
        (x + 1) as usize
    } else {
        x
    }
}

/// `a` with the count of rule `k` raised by one.
pub open spec fn count_fold_m(a: BooleanCleanupAnalysis, k: BooleanFold) -> BooleanCleanupAnalysis {
    match k {
        BooleanFold::Conditional => BooleanCleanupAnalysis {
            conditional_folds: bump_count(a.conditional_folds),
            ..a
        },
        BooleanFold::OrFalse => BooleanCleanupAnalysis {
            or_false_folds: bump_count(a.or_false_folds),
            ..a
        },
        BooleanFold::NegatedEquality => BooleanCleanupAnalysis {
            negated_equality_folds: bump_count(a.negated_equality_folds),
            ..a
        },
    }
}

/// `a` with the count of hoisted conditions raised by one.
pub open spec fn count_hoist_m(a: BooleanCleanupAnalysis) -> BooleanCleanupAnalysis {
    BooleanCleanupAnalysis { hoisted_block_conditions: bump_count(a.hoisted_block_conditions), ..a }
}

// ----- the rules -----

/// `e` with its enclosing parentheses removed.
pub open spec fn strip_parens_m(e: NodeM) -> NodeM
    decreases e,
{
    if e.kind is Parenthesized && e.children.len() == 1 {
        strip_parens_m(e.children[0])
    } else {
        e
    }
}

/// The Boolean value of a block made of a Boolean literal only.
pub open spec fn bool_tail_m(b: NodeM) -> Option<bool> {
    if b.kind is Block && b.children.len() == 1 && b.children[0].kind is Tail
        && b.children[0].children.len() == 1 {
        match b.children[0].children[0].kind {
            Kind::Bool(v) => Some(v),
            _ => None,
        }
    } else {
        None
    }
}

/// Whether `e`, once stripped of parentheses, is the literal `expected`.
pub open spec fn is_bool_literal_m(e: NodeM, expected: bool) -> bool {
    strip_parens_m(e).kind == Kind::Bool(expected)
}

/// The expression that replaces `e` by one fold, and the rule applied.
pub open spec fn replacement_m(e: NodeM) -> Option<(NodeM, BooleanFold)> {
    if e.kind is If && e.children.len() == 3 {
        let c = e.children[0];
        if bool_tail_m(e.children[1]) == Some(true) && bool_tail_m(e.children[2]) == Some(false) {
            Some((c, BooleanFold::Conditional))
        } else if bool_tail_m(e.children[1]) == Some(false) && bool_tail_m(e.children[2]) == Some(
            true,
        ) {
            Some(
                (
                    mk(Kind::UnaryOp, "!"@, seq![mk(Kind::Parenthesized, Seq::empty(), seq![c])]),
                    BooleanFold::Conditional,
                ),
            )
        } else {
            None
        }
    } else if e.kind is BinaryOp && e.text == "||"@ && e.children.len() == 2 {
        if is_bool_literal_m(e.children[0], false) {
            Some((e.children[1], BooleanFold::OrFalse))
        } else if is_bool_literal_m(e.children[1], false) {
            Some((e.children[0], BooleanFold::OrFalse))
        } else {
            None
        }
    } else if e.kind is UnaryOp && e.text == "!"@ && e.children.len() == 1 {
        let s = strip_parens_m(e.children[0]);
        if s.kind is BinaryOp && s.text == "=="@ {
            Some((mk(Kind::BinaryOp, "!="@, s.children), BooleanFold::NegatedEquality))
        } else {
            None
        }
    } else {
        None
    }
}

/// Stripping parentheses never makes an expression heavier.
pub proof fn lemma_strip_parens_size(e: NodeM)
    ensures
        size(strip_parens_m(e)) <= size(e),
    decreases e,
{
    if e.kind is Parenthesized && e.children.len() == 1 {
        lemma_strip_parens_size(e.children[0]);
        assert(sizes(e.children) == size(e.children[0]) + sizes(e.children.drop_first()));
    }
}

/// Every fold makes the expression lighter.
pub proof fn lemma_replacement_lighter(e: NodeM)
    requires
        replacement_m(e) is Some,
    ensures
        size(replacement_m(e).unwrap().0) < size(e),
{
    let cs = e.children;
    if e.kind is If && cs.len() == 3 {
        let c = cs[0];
        assert(sizes(cs) == size(cs[0]) + sizes(cs.drop_first()));
        assert(sizes(cs.drop_first()) == size(cs[1]) + sizes(cs.drop_first().drop_first()));
        assert(sizes(cs.drop_first().drop_first()) == size(cs[2]) + sizes(
            cs.drop_first().drop_first().drop_first(),
        ));
        let t = cs[1];
        assert(sizes(t.children) == size(t.children[0]) + sizes(t.children.drop_first()));
        let tt = t.children[0];
        assert(sizes(tt.children) == size(tt.children[0]) + sizes(tt.children.drop_first()));
        let f = cs[2];
        assert(sizes(f.children) == size(f.children[0]) + sizes(f.children.drop_first()));
        let ff = f.children[0];
        assert(sizes(ff.children) == size(ff.children[0]) + sizes(ff.children.drop_first()));
        let p = mk(Kind::Parenthesized, Seq::empty(), seq![c]);
        assert(sizes(p.children) == size(c) + sizes(p.children.drop_first()));
        assert(p.children.drop_first() =~= Seq::<NodeM>::empty());
        let u = mk(Kind::UnaryOp, "!"@, seq![p]);
        assert(sizes(u.children) == size(p) + sizes(u.children.drop_first()));
        assert(u.children.drop_first() =~= Seq::<NodeM>::empty());
    } else if e.kind is BinaryOp && e.text == "||"@ && cs.len() == 2 {
        assert(sizes(cs) == size(cs[0]) + sizes(cs.drop_first()));
        assert(sizes(cs.drop_first()) == size(cs[1]) + sizes(cs.drop_first().drop_first()));
    } else {
        assert(sizes(cs) == size(cs[0]) + sizes(cs.drop_first()));
        lemma_strip_parens_size(cs[0]);
    }
}

/// Folds `e` until no rule applies, counting into `a`. `parens` says whether
/// the parent needs a negated equality wrapped in parentheses.
pub open spec fn fold_m(e: NodeM, parens: bool, a: BooleanCleanupAnalysis) -> (NodeM, BooleanCleanupAnalysis)
    decreases size(e),
{
    match replacement_m(e) {
        None => (e, a),
        Some((r, k)) => {
            if k is NegatedEquality && parens {
                (mk(Kind::Parenthesized, Seq::empty(), seq![r]), count_fold_m(a, k))
            } else {
                proof {
                    lemma_replacement_lighter(e);
                }
                fold_m(r, parens, count_fold_m(a, k))
            }
        },
    }
}

/// Whether a binary operator needs its negated-equality operands in
/// parentheses (every operator but `&&` and `||`).
pub open spec fn needs_parens_m(op: Seq<char>) -> bool {
    op != "&&"@ && op != "||"@
}

/// Whether the child of a node of kind `k` and text `text` needs a negated
/// equality in parentheses; `first` says whether it is the first child.
pub open spec fn child_parens_m(k: Kind, text: Seq<char>, first: bool) -> bool {
    match k {
        Kind::Call | Kind::MethodCall | Kind::UnaryOp | Kind::Await | Kind::Cast | Kind::Index
        | Kind::Assign => first,
        Kind::BinaryOp => needs_parens_m(text),
        _ => false,
    }
}

// ----- the traversal -----

/// The cleanup of a node, counting into `a`.
pub open spec fn clean_m(n: NodeM, parens: bool, a: BooleanCleanupAnalysis) -> (NodeM, BooleanCleanupAnalysis)
    decreases n, 1nat,
{
    if n.kind is Block {
        let used = idents_list_m(n.children, Seq::empty());
        let (cs, _u, a1) = clean_stmts_m(n.children, used, a);
        (mk(n.kind, n.text, cs), a1)
    } else {
        let (cs, a1) = clean_list_m(n.kind, n.text, n.children, true, a);
        fold_m(mk(n.kind, n.text, cs), parens, a1)
    }
}

/// The cleanup of the children `cs` of a node of kind `k` and text `text`.
pub open spec fn clean_list_m(k: Kind, text: Seq<char>, cs: Seq<NodeM>, first: bool, a: BooleanCleanupAnalysis) -> (Seq<NodeM>, BooleanCleanupAnalysis)
    decreases cs, 0nat,
{
    if cs.len() == 0 {
        (cs, a)
    } else {
        let (h, a1) = clean_m(cs[0], child_parens_m(k, text, first), a);
        let (rest, a2) = clean_list_m(k, text, cs.drop_first(), false, a1);
        (seq![h] + rest, a2)
    }
}

// ----- identifiers -----

/// Whether a kind is a type.
pub open spec fn is_type_kind(k: Kind) -> bool {
    match k {
        Kind::TypeNamed | Kind::TypePath | Kind::TypeUnit | Kind::TypeNever | Kind::TypeGeneric
        | Kind::TypeCallable { .. } | Kind::TypeRef { .. } | Kind::TypeSlice | Kind::TypeArray
        | Kind::TypeTuple => true,
        _ => false,
    }
}

/// The texts of a sequence of nodes.
pub open spec fn texts_m(cs: Seq<NodeM>) -> Seq<Seq<char>>
    decreases cs,
{
    if cs.len() == 0 {
        Seq::empty()
    } else {
        seq![cs[0].text] + texts_m(cs.drop_first())
    }
}

/// `acc` followed by the identifiers and path segments that `n` mentions, in
/// reading order. Item statements and types are not looked into.
pub open spec fn idents_m(n: NodeM, acc: Seq<Seq<char>>) -> Seq<Seq<char>>
    decreases n,
{
    if n.kind is Ident {
        acc.push(n.text)
    } else if n.kind is Path {
        acc + texts_m(n.children)
    } else if n.kind is ItemStmt || is_type_kind(n.kind) {
        acc
    } else {
        idents_list_m(n.children, acc)
    }
}

pub open spec fn idents_list_m(cs: Seq<NodeM>, acc: Seq<Seq<char>>) -> Seq<Seq<char>>
    decreases cs,
{
    if cs.len() == 0 {
        acc
    } else {
        idents_list_m(cs.drop_first(), idents_m(cs[0], acc))
    }
}

// ----- fresh names and hoisting -----

/// The `i`-th candidate name for a hoisted condition.
pub open spec fn candidate_m(i: nat) -> Seq<char> {
    if i == 0 {
        "condition"@
    } else {
        "condition"@ + decimal(i)
    }
}

/// The first candidate index at or after `i` that `used` does not hold,
/// searching up to `bound`.
pub open spec fn first_free_from(used: Seq<Seq<char>>, i: nat, bound: nat) -> nat
    decreases bound - i,
{
    if i >= bound || !used.contains(candidate_m(i)) {
        i
    } else {
        first_free_from(used, i + 1, bound)
    }
}

/// The name given to a hoisted condition: `condition` if it is unused,
/// otherwise `condition` followed by the least positive number that makes it
/// unused.
pub open spec fn fresh_name_m(used: Seq<Seq<char>>) -> Seq<char> {
    candidate_m(first_free_from(used, 0, used.len() + 1))
}

/// Distinct indices give distinct candidate names.
pub proof fn lemma_candidate_injective(i: nat, j: nat)
    requires
        candidate_m(i) == candidate_m(j),
    ensures
        i == j,
{
    reveal_strlit("condition");
    let base = "condition"@;
    assert(base.len() == 9);
    lemma_decimal_len(i);
    lemma_decimal_len(j);
    if i == 0 && j != 0 {
        assert(candidate_m(j).len() == 9 + decimal(j).len());
    } else if i != 0 && j == 0 {
        assert(candidate_m(i).len() == 9 + decimal(i).len());
    } else if i != 0 && j != 0 {
        assert(candidate_m(i).subrange(9, candidate_m(i).len() as int) =~= decimal(i));
        assert(candidate_m(j).subrange(9, candidate_m(j).len() as int) =~= decimal(j));
        lemma_decimal_injective(i, j);
    }
}

/// The search for a free candidate stops within its bounds, at a free
/// candidate unless it reached `bound`, and passes over used ones only.
pub proof fn lemma_first_free_from(used: Seq<Seq<char>>, i: nat, bound: nat)
    requires
        i <= bound,
    ensures
        i <= first_free_from(used, i, bound) <= bound,
        first_free_from(used, i, bound) < bound ==> !used.contains(
            candidate_m(first_free_from(used, i, bound)),
        ),
        forall|k: nat|
            i <= k < first_free_from(used, i, bound) ==> used.contains(#[trigger] candidate_m(k)),
    decreases bound - i,
{
    if i < bound && used.contains(candidate_m(i)) {
        lemma_first_free_from(used, i + 1, bound);
    }
}

/// The name given to a hoisted condition is not among the names in use.
pub proof fn lemma_fresh_name_unused(used: Seq<Seq<char>>)
    ensures
        !used.contains(fresh_name_m(used)),
        first_free_from(used, 0, used.len() + 1) <= used.len(),
{
    let bound = used.len() + 1;
    let ff = first_free_from(used, 0, bound);
    lemma_first_free_from(used, 0, bound);
    if ff == bound {
        let range = set_int_range(0, bound as int);
        lemma_int_range(0, bound as int);
        let f = |k: int| candidate_m(k as nat);
        assert(injective_on(f, range)) by {
            assert forall|x1: int, x2: int|
                range.contains(x1) && range.contains(x2) && #[trigger] f(x1) == #[trigger] f(x2) implies x1
                == x2 by {
                lemma_candidate_injective(x1 as nat, x2 as nat);
            }
        }
        let names = range.map(f);
        lemma_map_size(range, names, f);
        assert(names.subset_of(used.to_set())) by {
            assert forall|n: Seq<char>| names.contains(n) implies used.to_set().contains(n) by {
                let k = choose|k: int| range.contains(k) && f(k) == n;
                assert(used.contains(candidate_m(k as nat)));
            }
        }
        used.lemma_cardinality_of_set();
        lemma_len_subset(names, used.to_set());
        assert(false);
    }
}

/// The condition of the `if` that `e` is, looking through parentheses.
pub open spec fn if_condition_m(e: NodeM) -> Option<NodeM>
    decreases e,
{
    if e.kind is If && e.children.len() >= 2 {
        Some(e.children[0])
    } else if e.kind is Parenthesized && e.children.len() == 1 {
        if_condition_m(e.children[0])
    } else {
        None
    }
}

/// `e` with the condition of its `if` replaced by `c`.
pub open spec fn with_if_condition_m(e: NodeM, c: NodeM) -> NodeM
    decreases e,
{
    if e.kind is If && e.children.len() >= 2 {
        mk(e.kind, e.text, e.children.update(0, c))
    } else if e.kind is Parenthesized && e.children.len() == 1 {
        mk(e.kind, e.text, seq![with_if_condition_m(e.children[0], c)])
    } else {
        e
    }
}

/// Whether hoisting applies to `e`: it is an `if` whose condition is a
/// block, looking through parentheses.
pub open spec fn hoists_m(e: NodeM) -> bool {
    match if_condition_m(e) {
        Some(c) => strip_parens_m(c).kind is BlockExpr,
        None => false,
    }
}

/// The binding that hoisting the condition of `e` introduces, named `name`.
pub open spec fn hoisted_binding_m(e: NodeM, name: Seq<char>) -> NodeM {
    mk(
        Kind::Let { mutable: false },
        name,
        seq![mk(Kind::Absent, Seq::empty(), Seq::empty()), strip_parens_m(if_condition_m(e).unwrap())],
    )
}

/// Cleans the expression of one statement position and hoists its
/// condition: the statements to put before it, the cleaned expression, the
/// names in use afterwards and the counts.
pub open spec fn clean_position_m(e: NodeM, used: Seq<Seq<char>>, a: BooleanCleanupAnalysis) -> (Seq<NodeM>, NodeM, Seq<Seq<char>>, BooleanCleanupAnalysis)
    decreases e, 2nat,
{
    let (c, a1) = clean_m(e, false, a);
    if hoists_m(c) {
        let name = fresh_name_m(used);
        (
            seq![hoisted_binding_m(c, name)],
            with_if_condition_m(c, mk(Kind::Ident, name, Seq::empty())),
            used.push(name),
            count_hoist_m(a1),
        )
    } else {
        (Seq::empty(), c, used, a1)
    }
}

/// The statements that one statement of a block becomes, the names in use
/// afterwards and the counts.
pub open spec fn clean_stmt_m(s: NodeM, used: Seq<Seq<char>>, a: BooleanCleanupAnalysis) -> (Seq<NodeM>, Seq<Seq<char>>, BooleanCleanupAnalysis)
    decreases s, 3nat,
{
    if s.kind is Let && s.children.len() == 2 && !(s.children[1].kind is Absent) {
        let (pre, c, u, a1) = clean_position_m(s.children[1], used, a);
        (pre.push(mk(s.kind, s.text, seq![s.children[0], c])), u, a1)
    } else if (s.kind is ExprStmt || s.kind is Tail) && s.children.len() == 1 {
        let (pre, c, u, a1) = clean_position_m(s.children[0], used, a);
        (pre.push(mk(s.kind, s.text, seq![c])), u, a1)
    } else if s.kind is ItemStmt {
        let (c, a1) = clean_m(s, false, a);
        (seq![c], used, a1)
    } else {
        (seq![s], used, a)
    }
}

pub open spec fn clean_stmts_m(ss: Seq<NodeM>, used: Seq<Seq<char>>, a: BooleanCleanupAnalysis) -> (Seq<NodeM>, Seq<Seq<char>>, BooleanCleanupAnalysis)
    decreases ss, 0nat,
{
    if ss.len() == 0 {
        (ss, used, a)
    } else {
        let (out, u1, a1) = clean_stmt_m(ss[0], used, a);
        let (rest, u2, a2) = clean_stmts_m(ss.drop_first(), u1, a1);
        (out + rest, u2, a2)
    }
}

/// The Boolean cleanup of a module tree, and its counts started from zero.
pub open spec fn cleanup_booleans_m(m: NodeM) -> (NodeM, BooleanCleanupAnalysis) {
    clean_m(m, false, no_counts())
}

// ----- executable rules -----

/// `e` with its enclosing parentheses removed.
pub(crate) fn strip_parentheses(e: &Node) -> (r: &Node)
    ensures
        r@ == strip_parens_m(e@),
    decreases size(e@),
{
    if matches!(e.kind, Kind::Parenthesized) {
        match child(&e.children, 0) {
            Some(inner) => {
                if has_len(&e.children, 1) {
                    proof {
                        lemma_child_smaller(e@, 0);
                    }
                    return strip_parentheses(inner);
                }
            },
            None => {},
        }
    }
    e
}

/// The Boolean value of a block made of a Boolean literal only.
fn bool_tail(b: &Node) -> (r: Option<bool>)
    ensures
        r == bool_tail_m(b@),
{
    if !matches!(b.kind, Kind::Block) || !has_len(&b.children, 1) {
        return None;
    }
    let t = child(&b.children, 0).unwrap();
    if !matches!(t.kind, Kind::Tail) || !has_len(&t.children, 1) {
        return None;
    }
    let v = child(&t.children, 0).unwrap();
    match v.kind {
        Kind::Bool(value) => Some(value),
        _ => None,
    }
}

/// Whether `e`, once stripped of parentheses, is the literal `expected`.
fn is_bool_literal(e: &Node, expected: bool) -> (b: bool)
    ensures
        b == is_bool_literal_m(e@, expected),
{
    match strip_parentheses(e).kind {
        Kind::Bool(value) => value == expected,
        _ => false,
    }
}

/// The expression that replaces `e` by one fold, and the rule applied.
fn boolean_replacement(e: &Node) -> (r: Option<(Node, BooleanFold)>)
    ensures
        match replacement_m(e@) {
            None => r is None,
            Some((m, k)) => r matches Some((n, j)) && n@ == m && j == k,
        },
{
    match e.kind {
        Kind::If => {
            if !has_len(&e.children, 3) {
                return None;
            }
            let condition = child(&e.children, 0).unwrap();
            let then_value = bool_tail(child(&e.children, 1).unwrap());
            let else_value = bool_tail(child(&e.children, 2).unwrap());
            match (then_value, else_value) {
                (Some(true), Some(false)) => Some((copy_node(condition), BooleanFold::Conditional)),
                (Some(false), Some(true)) => {
                    let inner = node1(Kind::Parenthesized, String::new(), copy_node(condition));
                    let negated = node1(Kind::UnaryOp, string_of("!"), inner);
                    Some((negated, BooleanFold::Conditional))
                },
                _ => None,
            }
        },
        Kind::BinaryOp => {
            if !is_text(&e.text, "||") || !has_len(&e.children, 2) {
                return None;
            }
            let left = child(&e.children, 0).unwrap();
            let right = child(&e.children, 1).unwrap();
            if is_bool_literal(left, false) {
                Some((copy_node(right), BooleanFold::OrFalse))
            } else if is_bool_literal(right, false) {
                Some((copy_node(left), BooleanFold::OrFalse))
            } else {
                None
            }
        },
        Kind::UnaryOp => {
            if !is_text(&e.text, "!") || !has_len(&e.children, 1) {
                return None;
            }
            let inner = strip_parentheses(child(&e.children, 0).unwrap());
            if matches!(inner.kind, Kind::BinaryOp) && is_text(&inner.text, "==") {
                let r = Node {
                    kind: Kind::BinaryOp,
                    text: string_of("!="),
                    children: copy_nodes(&inner.children),
                };
                Some((r, BooleanFold::NegatedEquality))
            } else {
                None
            }
        },
        _ => None,
    }
}

/// Adds one to a count, staying at `usize::MAX` once there.
fn bump(x: usize) -> (r: usize)
    ensures
        r == bump_count(x),
{
    if x < usize::MAX {
        x + 1
    } else {
        x
    }
}

/// Counts one fold of rule `k`.
fn count_fold(a: &mut BooleanCleanupAnalysis, k: &BooleanFold)
    ensures
        *final(a) == count_fold_m(*old(a), *k),
{
    match k {
        BooleanFold::Conditional => a.conditional_folds = bump(a.conditional_folds),
        BooleanFold::OrFalse => a.or_false_folds = bump(a.or_false_folds),
        BooleanFold::NegatedEquality => a.negated_equality_folds = bump(a.negated_equality_folds),
    }
}

/// Folds `e` until no rule applies.
fn fold(e: Node, parens: bool, a: &mut BooleanCleanupAnalysis) -> (r: Node)
    ensures
        (r@, *final(a)) == fold_m(e@, parens, *old(a)),
    decreases size(e@),
{
    match boolean_replacement(&e) {
        None => e,
        Some((r, k)) => {
            count_fold(a, &k);
            if matches!(k, BooleanFold::NegatedEquality) && parens {
                node1(Kind::Parenthesized, String::new(), r)
            } else {
                proof {
                    lemma_replacement_lighter(e@);
                }
                fold(r, parens, a)
            }
        },
    }
}

// ----- executable identifier collection -----

/// Whether a kind is a type.
pub(crate) fn is_type(k: Kind) -> (b: bool)
    ensures
        b == is_type_kind(k),
{
    match k {
        Kind::TypeNamed | Kind::TypePath | Kind::TypeUnit | Kind::TypeNever | Kind::TypeGeneric
        | Kind::TypeCallable { .. } | Kind::TypeRef { .. } | Kind::TypeSlice | Kind::TypeArray
        | Kind::TypeTuple => true,
        _ => false,
    }
}

/// Appends the texts of the nodes of `l` to `names`.
pub(crate) fn collect_texts(l: &Nodes, names: &mut Vec<String>)
    ensures
        views(final(names)@) == views(old(names)@) + texts_m(nodes_m(*l)),
    decreases l,
{
    match l {
        Nodes::Nil => {
            assert(views(names@) + texts_m(nodes_m(*l)) =~= views(names@));
        },
        Nodes::Cons(h, rest) => {
            let ghost before = views(names@);
            proof {
                lemma_cons(node_m(**h), nodes_m(**rest));
                lemma_views_push(names@, h.text);
            }
            names.push(h.text.clone());
            collect_texts(rest, names);
            assert(before + texts_m(nodes_m(*l)) =~= before.push(h.text@) + texts_m(nodes_m(**rest)));
        },
    }
}

/// Appends the identifiers and path segments that `n` mentions to `names`.
fn collect_identifiers(n: &Node, names: &mut Vec<String>)
    ensures
        views(final(names)@) == idents_m(n@, views(old(names)@)),
    decreases n,
{
    match n.kind {
        Kind::Ident => {
            proof {
                lemma_views_push(names@, n.text);
            }
            names.push(n.text.clone());
        },
        Kind::Path { .. } => collect_texts(&n.children, names),
        Kind::ItemStmt => {},
        _ => {
            if !is_type(n.kind) {
                collect_identifiers_list(&n.children, names);
            }
        },
    }
}

/// Appends the identifiers that the nodes of `l` mention to `names`.
fn collect_identifiers_list(l: &Nodes, names: &mut Vec<String>)
    ensures
        views(final(names)@) == idents_list_m(nodes_m(*l), views(old(names)@)),
    decreases l,
{
    match l {
        Nodes::Nil => {},
        Nodes::Cons(h, rest) => {
            proof {
                lemma_cons(node_m(**h), nodes_m(**rest));
            }
            collect_identifiers(h, names);
            collect_identifiers_list(rest, names);
        },
    }
}

// ----- executable hoisting -----

/// The name for a hoisted condition, recorded as used.
fn fresh_condition_name(used: &mut Vec<String>) -> (name: String)
    ensures
        name@ == fresh_name_m(views(old(used)@)),
        views(final(used)@) == views(old(used)@).push(name@),
{
    let ghost u = views(used@);
    let ghost bound = u.len() + 1;
    proof {
        lemma_first_free_from(u, 0, bound);
        lemma_fresh_name_unused(u);
        reveal_strlit("condition");
    }
    let base = string_of("condition");
    if !contains_text(used, &base) {
        proof {
            lemma_views_push(used@, base);
        }
        used.push(base.clone());
        return base;
    }
    let n = used.len();
    let mut index: usize = 1;
    let mut found: Option<String> = None;
    while index <= n && found.is_none()
        invariant
            1 <= index <= n + 1,
            n == used@.len(),
            views(used@) == u,
            u.len() == n,
            bound == n + 1,
            first_free_from(u, 0, bound) <= n,
            found is None ==> first_free_from(u, 0, bound) == first_free_from(u, index as nat, bound),
            found matches Some(c) ==> c@ == fresh_name_m(u),
        decreases n + 1 - index, if found is None { 1nat } else { 0nat },
    {
        let mut candidate = string_of("condition");
        let digits = decimal_string(index as u128);
        candidate.append(digits.as_str());
        assert(candidate@ == candidate_m(index as nat));
        if !contains_text(used, &candidate) {
            assert(first_free_from(u, index as nat, bound) == index as nat);
            found = Some(candidate);
        } else {
            proof {
                lemma_first_free_from(u, (index + 1) as nat, bound);
            }
            index = index + 1;
        }
    }
    match found {
        Some(c) => {
            proof {
                lemma_views_push(used@, c);
            }
            used.push(c.clone());
            c
        },
        None => {
            assert(false);
            base
        },
    }
}

/// The condition of the `if` that `e` is, looking through parentheses.
fn if_condition(e: &Node) -> (r: Option<&Node>)
    ensures
        r is None <==> if_condition_m(e@) is None,
        r matches Some(c) ==> if_condition_m(e@) == Some(c@),
    decreases size(e@),
{
    match e.kind {
        Kind::If => {
            if child(&e.children, 1).is_some() {
                child(&e.children, 0)
            } else {
                None
            }
        },
        Kind::Parenthesized => {
            if has_len(&e.children, 1) {
                proof {
                    lemma_child_smaller(e@, 0);
                }
                if_condition(child(&e.children, 0).unwrap())
            } else {
                None
            }
        },
        _ => None,
    }
}

/// `e` with the condition of its `if` replaced by `c`.
fn with_if_condition(e: Node, c: Node) -> (r: Node)
    ensures
        r@ == with_if_condition_m(e@, c@),
    decreases size(e@),
{
    let is_if = matches!(e.kind, Kind::If) && child(&e.children, 1).is_some();
    let is_parens = matches!(e.kind, Kind::Parenthesized) && has_len(&e.children, 1);
    if !is_if && !is_parens {
        return e;
    }
    let ghost ev = e@;
    let Node { kind, text, children } = e;
    match children {
        Nodes::Cons(h, rest) => {
            proof {
                lemma_cons(node_m(*h), nodes_m(*rest));
            }
            if is_if {
                let r = Node { kind, text, children: Nodes::Cons(Box::new(c), rest) };
                proof {
                    lemma_cons(c@, nodes_m(*rest));
                }
                assert(nodes_m(r.children) =~= ev.children.update(0, c@));
                r
            } else {
                proof {
                    lemma_child_smaller(ev, 0);
                }
                let inner = with_if_condition(*h, c);
                node1(kind, text, inner)
            }
        },
        Nodes::Nil => Node { kind, text, children: Nodes::Nil },
    }
}

/// The count of hoisted conditions raised by one.
fn count_hoist(a: &mut BooleanCleanupAnalysis)
    ensures
        *final(a) == count_hoist_m(*old(a)),
{
    a.hoisted_block_conditions = bump(a.hoisted_block_conditions);
}

// ----- executable traversal -----

/// The statements a cleaned position puts before itself.
pub open spec fn pre_m(o: Option<Node>) -> Seq<NodeM> {
    match o {
        Some(n) => seq![n@],
        None => Seq::empty(),
    }
}

/// Whether a binary operator `op` needs negated-equality operands in
/// parentheses.
fn needs_parens(op: &String) -> (b: bool)
    ensures
        b == needs_parens_m(op@),
{
    !is_text(op, "&&") && !is_text(op, "||")
}

/// Whether a child of a node of kind `k` and text `text` needs a negated
/// equality in parentheses.
fn child_parens(k: Kind, text: &String, first: bool) -> (b: bool)
    ensures
        b == child_parens_m(k, text@, first),
{
    match k {
        Kind::Call | Kind::MethodCall | Kind::UnaryOp | Kind::Await | Kind::Cast | Kind::Index
        | Kind::Assign => first,
        Kind::BinaryOp => needs_parens(text),
        _ => false,
    }
}

/// Cleans one statement position and hoists a block-valued `if` condition.
fn clean_position(e: &Node, used: &mut Vec<String>, a: &mut BooleanCleanupAnalysis) -> (r: (
    Option<Node>,
    Node,
))
    ensures
        pre_m(r.0) == clean_position_m(e@, views(old(used)@), *old(a)).0,
        r.1@ == clean_position_m(e@, views(old(used)@), *old(a)).1,
        views(final(used)@) == clean_position_m(e@, views(old(used)@), *old(a)).2,
        *final(a) == clean_position_m(e@, views(old(used)@), *old(a)).3,
    decreases size(e@), 1nat,
{
    let c = clean(e, false, a);
    let init: Option<Node> = match if_condition(&c) {
        Some(condition) => {
            let stripped = strip_parentheses(condition);
            if matches!(stripped.kind, Kind::BlockExpr) {
                Some(copy_node(stripped))
            } else {
                None
            }
        },
        None => None,
    };
    match init {
        Some(init) => {
            let name = fresh_condition_name(used);
            count_hoist(a);
            let binding = node2(
                Kind::Let { mutable: false },
                name.clone(),
                leaf(Kind::Absent, String::new()),
                init,
            );
            let c2 = with_if_condition(c, leaf(Kind::Ident, name));
            (Some(binding), c2)
        },
        None => (None, c),
    }
}

/// Cleans one statement of a block: the statement to put before it, if
/// any, and the statement itself.
fn clean_stmt(s: &Node, used: &mut Vec<String>, a: &mut BooleanCleanupAnalysis) -> (r: (
    Option<Node>,
    Node,
))
    ensures
        pre_m(r.0).push(r.1@) == clean_stmt_m(s@, views(old(used)@), *old(a)).0,
        views(final(used)@) == clean_stmt_m(s@, views(old(used)@), *old(a)).1,
        *final(a) == clean_stmt_m(s@, views(old(used)@), *old(a)).2,
    decreases size(s@), 1nat,
{
    match s.kind {
        Kind::Let { .. } => {
            if has_len(&s.children, 2) {
                let init = child(&s.children, 1).unwrap();
                if !matches!(init.kind, Kind::Absent) {
                    proof {
                        lemma_child_smaller(s@, 1);
                    }
                    let (pre, c) = clean_position(init, used, a);
                    let ty = copy_node(child(&s.children, 0).unwrap());
                    return (pre, node2(s.kind, s.text.clone(), ty, c));
                }
            }
            (None, copy_node(s))
        },
        Kind::ExprStmt | Kind::Tail => {
            if has_len(&s.children, 1) {
                proof {
                    lemma_child_smaller(s@, 0);
                }
                let (pre, c) = clean_position(child(&s.children, 0).unwrap(), used, a);
                return (pre, node1(s.kind, s.text.clone(), c));
            }
            (None, copy_node(s))
        },
        Kind::ItemStmt => (None, clean(s, false, a)),
        _ => (None, copy_node(s)),
    }
}

/// Cleans the statements of a block.
fn clean_stmts(l: &Nodes, used: &mut Vec<String>, a: &mut BooleanCleanupAnalysis) -> (r: Nodes)
    ensures
        nodes_m(r) == clean_stmts_m(nodes_m(*l), views(old(used)@), *old(a)).0,
        views(final(used)@) == clean_stmts_m(nodes_m(*l), views(old(used)@), *old(a)).1,
        *final(a) == clean_stmts_m(nodes_m(*l), views(old(used)@), *old(a)).2,
    decreases sizes(nodes_m(*l)), 2nat,
{
    match l {
        Nodes::Nil => Nodes::Nil,
        Nodes::Cons(s, rest) => {
            proof {
                lemma_cons(node_m(**s), nodes_m(**rest));
                lemma_sizes_cons(node_m(**s), nodes_m(**rest));
            }
            let ghost u0 = views(used@);
            let ghost a0 = *a;
            let (pre, s2) = clean_stmt(s, used, a);
            let t = clean_stmts(rest, used, a);
            let tail = Nodes::Cons(Box::new(s2), Box::new(t));
            assert(nodes_m(tail) == seq![s2@] + nodes_m(t));
            match pre {
                Some(p) => {
                    let r = Nodes::Cons(Box::new(p), Box::new(tail));
                    assert(nodes_m(r) == seq![p@] + nodes_m(tail));
                    assert(nodes_m(r) =~= clean_stmts_m(nodes_m(*l), u0, a0).0);
                    r
                },
                None => {
                    assert(nodes_m(tail) =~= clean_stmts_m(nodes_m(*l), u0, a0).0);
                    tail
                },
            }
        },
    }
}

/// Cleans the children `l` of a node of kind `k` and text `text`.
fn clean_list(k: Kind, text: &String, l: &Nodes, first: bool, a: &mut BooleanCleanupAnalysis) -> (r: Nodes)
    ensures
        (nodes_m(r), *final(a)) == clean_list_m(k, text@, nodes_m(*l), first, *old(a)),
    decreases sizes(nodes_m(*l)), 1nat,
{
    match l {
        Nodes::Nil => Nodes::Nil,
        Nodes::Cons(h, rest) => {
            proof {
                lemma_cons(node_m(**h), nodes_m(**rest));
                lemma_sizes_cons(node_m(**h), nodes_m(**rest));
            }
            let h2 = clean(h, child_parens(k, text, first), a);
            let t = clean_list(k, text, rest, false, a);
            let r = Nodes::Cons(Box::new(h2), Box::new(t));
            assert(nodes_m(r) == seq![h2@] + nodes_m(t));
            r
        },
    }
}

/// Cleans a node and everything below it.
fn clean(n: &Node, parens: bool, a: &mut BooleanCleanupAnalysis) -> (r: Node)
    ensures
        (r@, *final(a)) == clean_m(n@, parens, *old(a)),
    decreases size(n@), 0nat,
{
    if matches!(n.kind, Kind::Block) {
        let mut used: Vec<String> = Vec::new();
        assert(views(used@) =~= Seq::<Seq<char>>::empty());
        collect_identifiers_list(&n.children, &mut used);
        let cs = clean_stmts(&n.children, &mut used, a);
        Node { kind: n.kind, text: n.text.clone(), children: cs }
    } else {
        let cs = clean_list(n.kind, &n.text, &n.children, true, a);
        fold(Node { kind: n.kind, text: n.text.clone(), children: cs }, parens, a)
    }
}

/// Simplifies the local Boolean shapes of a module while keeping every
/// operand's evaluation, and returns how many rewrites of each kind it made.
pub fn cleanup_booleans(module: &mut Node) -> (analysis: BooleanCleanupAnalysis)
    ensures
        (final(module)@, analysis) == cleanup_booleans_m(old(module)@),
{
    let mut analysis = BooleanCleanupAnalysis::new();
    let cleaned = clean(module, false, &mut analysis);
    *module = cleaned;
    analysis
}

/// Cleans one expression in place, counting its rewrites into `analysis`.
pub fn cleanup_expr(expr: &mut Node, analysis: &mut BooleanCleanupAnalysis)
    ensures
        (final(expr)@, *final(analysis)) == clean_m(old(expr)@, false, *old(analysis)),
{
    let cleaned = clean(expr, false, analysis);
    *expr = cleaned;
}

// ----- laws -----

/// Folding runs to a fixpoint: no rule applies to a folded expression.
pub proof fn lemma_fold_fixpoint(e: NodeM, parens: bool, a: BooleanCleanupAnalysis)
    ensures
        replacement_m(fold_m(e, parens, a).0) is None,
    decreases size(e),
{
    match replacement_m(e) {
        None => {},
        Some((r, k)) => {
            if !(k is NegatedEquality && parens) {
                lemma_replacement_lighter(e);
                lemma_fold_fixpoint(r, parens, count_fold_m(a, k));
            }
        },
    }
}

/// Every count of `a` is at most the matching count of `b`.
pub open spec fn counts_le(a: BooleanCleanupAnalysis, b: BooleanCleanupAnalysis) -> bool {
    &&& a.conditional_folds <= b.conditional_folds
    &&& a.or_false_folds <= b.or_false_folds
    &&& a.negated_equality_folds <= b.negated_equality_folds
    &&& a.hoisted_block_conditions <= b.hoisted_block_conditions
}

/// Folding never lowers a count.
pub proof fn lemma_fold_counts_grow(e: NodeM, parens: bool, a: BooleanCleanupAnalysis)
    ensures
        counts_le(a, fold_m(e, parens, a).1),
    decreases size(e),
{
    match replacement_m(e) {
        None => {},
        Some((r, k)) => {
            if !(k is NegatedEquality && parens) {
                lemma_replacement_lighter(e);
                lemma_fold_counts_grow(r, parens, count_fold_m(a, k));
            }
        },
    }
}

/// The cleanup of a node never lowers a count.
pub proof fn lemma_clean_counts_grow(n: NodeM, parens: bool, a: BooleanCleanupAnalysis)
    ensures
        counts_le(a, clean_m(n, parens, a).1),
    decreases n, 1nat,
{
    if n.kind is Block {
        let used = idents_list_m(n.children, Seq::empty());
        lemma_clean_stmts_counts_grow(n.children, used, a);
    } else {
        let (cs, a1) = clean_list_m(n.kind, n.text, n.children, true, a);
        lemma_clean_list_counts_grow(n.kind, n.text, n.children, true, a);
        lemma_fold_counts_grow(mk(n.kind, n.text, cs), parens, a1);
    }
}

/// The cleanup of a list of children never lowers a count.
pub proof fn lemma_clean_list_counts_grow(
    k: Kind,
    text: Seq<char>,
    cs: Seq<NodeM>,
    first: bool,
    a: BooleanCleanupAnalysis,
)
    ensures
        counts_le(a, clean_list_m(k, text, cs, first, a).1),
    decreases cs, 0nat,
{
    if cs.len() > 0 {
        let (h, a1) = clean_m(cs[0], child_parens_m(k, text, first), a);
        lemma_clean_counts_grow(cs[0], child_parens_m(k, text, first), a);
        lemma_clean_list_counts_grow(k, text, cs.drop_first(), false, a1);
    }
}

/// The cleanup of a statement position never lowers a count.
pub proof fn lemma_clean_position_counts_grow(
    e: NodeM,
    used: Seq<Seq<char>>,
    a: BooleanCleanupAnalysis,
)
    ensures
        counts_le(a, clean_position_m(e, used, a).3),
    decreases e, 2nat,
{
    lemma_clean_counts_grow(e, false, a);
}

/// The cleanup of a statement never lowers a count.
pub proof fn lemma_clean_stmt_counts_grow(s: NodeM, used: Seq<Seq<char>>, a: BooleanCleanupAnalysis)
    ensures
        counts_le(a, clean_stmt_m(s, used, a).2),
    decreases s, 3nat,
{
    if s.kind is Let && s.children.len() == 2 && !(s.children[1].kind is Absent) {
        lemma_clean_position_counts_grow(s.children[1], used, a);
    } else if (s.kind is ExprStmt || s.kind is Tail) && s.children.len() == 1 {
        lemma_clean_position_counts_grow(s.children[0], used, a);
    } else if s.kind is ItemStmt {
        lemma_clean_counts_grow(s, false, a);
    }
}

/// The cleanup of a list of statements never lowers a count.
pub proof fn lemma_clean_stmts_counts_grow(
    ss: Seq<NodeM>,
    used: Seq<Seq<char>>,
    a: BooleanCleanupAnalysis,
)
    ensures
        counts_le(a, clean_stmts_m(ss, used, a).2),
    decreases ss, 0nat,
{
    if ss.len() > 0 {
        let (out, u1, a1) = clean_stmt_m(ss[0], used, a);
        lemma_clean_stmt_counts_grow(ss[0], used, a);
        lemma_clean_stmts_counts_grow(ss.drop_first(), u1, a1);
    }
}

} // verus!
