//! The Boolean cleanup keeps every operand that can do something: the calls,
//! method calls and macro invocations of a tree are all in the tree it
//! gives, as many as before.
use vstd::prelude::*;

use crate::ast::Kind;
use crate::boolean_cleanup::{
    bool_tail_m, clean_list_m, clean_m, clean_position_m, clean_stmt_m, clean_stmts_m,
    cleanup_booleans_m, fold_m, hoisted_binding_m, hoists_m, if_condition_m,
    is_bool_literal_m, lemma_replacement_lighter, replacement_m, strip_parens_m,
    with_if_condition_m, BooleanCleanupAnalysis,
};
use crate::model::{mk, size, NodeM};

verus! {

/// Whether a node of kind `k` is an operand whose evaluation can have an
/// effect: a call, a method call or a macro invocation.
pub open spec fn effectful_m(k: Kind) -> bool {
    k is Call || k is MethodCall || k is Macro
}

/// The number of calls, method calls and macro invocations in `n`.
pub open spec fn effects_m(n: NodeM) -> nat
    decreases n, 1nat,
{
    (if effectful_m(n.kind) {
        1nat
    } else {
        0nat
    }) + effects_list_m(n.children)
}

pub open spec fn effects_list_m(cs: Seq<NodeM>) -> nat
    decreases cs, 0nat,
{
    if cs.len() == 0 {
        0
    } else {
        effects_m(cs[0]) + effects_list_m(cs.drop_first())
    }
}

proof fn lemma_effects_concat(a: Seq<NodeM>, b: Seq<NodeM>)
    ensures
        effects_list_m(a + b) == effects_list_m(a) + effects_list_m(b),
    decreases a.len(),
{
    if a.len() > 0 {
        assert((a + b).drop_first() =~= a.drop_first() + b);
        lemma_effects_concat(a.drop_first(), b);
    } else {
        assert(a + b =~= b);
    }
}

proof fn lemma_effects_one(x: NodeM)
    ensures
        effects_list_m(seq![x]) == effects_m(x),
{
    assert(seq![x].drop_first() =~= Seq::<NodeM>::empty());
    assert(effects_list_m(seq![x].drop_first()) == 0);
}

proof fn lemma_effects_two(x: NodeM, y: NodeM)
    ensures
        effects_list_m(seq![x, y]) == effects_m(x) + effects_m(y),
{
    assert(seq![x, y].drop_first() =~= seq![y]);
    lemma_effects_one(y);
}

proof fn lemma_effects_three(x: NodeM, y: NodeM, z: NodeM)
    ensures
        effects_list_m(seq![x, y, z]) == effects_m(x) + effects_m(y) + effects_m(z),
{
    assert(seq![x, y, z].drop_first() =~= seq![y, z]);
    lemma_effects_two(y, z);
}

proof fn lemma_effects_update(cs: Seq<NodeM>, x: NodeM)
    requires
        cs.len() > 0,
    ensures
        effects_list_m(cs.update(0, x)) + effects_m(cs[0]) == effects_list_m(cs) + effects_m(x),
{
    assert(cs.update(0, x).drop_first() =~= cs.drop_first());
}

/// Whether no Boolean literal of `n` has children (the literals the cleanup
/// drops are leaves).
pub open spec fn literal_leaves_m(n: NodeM) -> bool
    decreases n, 1nat,
{
    (n.kind is Bool ==> n.children.len() == 0) && literal_leaves_list_m(n.children)
}

pub open spec fn literal_leaves_list_m(cs: Seq<NodeM>) -> bool
    decreases cs, 0nat,
{
    cs.len() == 0 || (literal_leaves_m(cs[0]) && literal_leaves_list_m(cs.drop_first()))
}

proof fn lemma_leaves_concat(a: Seq<NodeM>, b: Seq<NodeM>)
    ensures
        literal_leaves_list_m(a + b) == (literal_leaves_list_m(a) && literal_leaves_list_m(b)),
    decreases a.len(),
{
    if a.len() > 0 {
        assert((a + b).drop_first() =~= a.drop_first() + b);
        lemma_leaves_concat(a.drop_first(), b);
    } else {
        assert(a + b =~= b);
    }
}

proof fn lemma_leaves_one(x: NodeM)
    ensures
        literal_leaves_list_m(seq![x]) == literal_leaves_m(x),
{
    assert(seq![x].drop_first() =~= Seq::<NodeM>::empty());
    assert(literal_leaves_list_m(seq![x].drop_first()));
}

proof fn lemma_leaves_two(x: NodeM, y: NodeM)
    ensures
        literal_leaves_list_m(seq![x, y]) == (literal_leaves_m(x) && literal_leaves_m(y)),
{
    assert(seq![x, y].drop_first() =~= seq![y]);
    lemma_leaves_one(y);
}

proof fn lemma_leaves_three(x: NodeM, y: NodeM, z: NodeM)
    ensures
        literal_leaves_list_m(seq![x, y, z]) == (literal_leaves_m(x) && literal_leaves_m(y)
            && literal_leaves_m(z)),
{
    assert(seq![x, y, z].drop_first() =~= seq![y, z]);
    lemma_leaves_two(y, z);
}

proof fn lemma_leaves_update(cs: Seq<NodeM>, x: NodeM)
    requires
        cs.len() > 0,
        literal_leaves_list_m(cs),
        literal_leaves_m(x),
    ensures
        literal_leaves_list_m(cs.update(0, x)),
        literal_leaves_m(cs[0]),
{
    assert(cs.update(0, x).drop_first() =~= cs.drop_first());
}

proof fn lemma_strip_parens_effects(e: NodeM)
    ensures
        effects_m(strip_parens_m(e)) == effects_m(e),
        literal_leaves_m(e) ==> literal_leaves_m(strip_parens_m(e)),
    decreases e,
{
    if e.kind is Parenthesized && e.children.len() == 1 {
        lemma_strip_parens_effects(e.children[0]);
        lemma_effects_one(e.children[0]);
        lemma_leaves_one(e.children[0]);
        assert(e.children =~= seq![e.children[0]]);
    }
}

proof fn lemma_literal_no_effects(e: NodeM, v: bool)
    requires
        literal_leaves_m(e),
        is_bool_literal_m(e, v),
    ensures
        effects_m(e) == 0,
{
    lemma_strip_parens_effects(e);
    let s = strip_parens_m(e);
    assert(s.children.len() == 0);
}

proof fn lemma_bool_tail_effects(b: NodeM)
    requires
        literal_leaves_m(b),
        bool_tail_m(b) is Some,
    ensures
        effects_m(b) == 0,
{
    let t = b.children[0];
    let l = t.children[0];
    assert(b.children =~= seq![t]);
    assert(t.children =~= seq![l]);
    lemma_effects_one(t);
    lemma_effects_one(l);
    lemma_leaves_one(t);
    lemma_leaves_one(l);
    assert(l.children.len() == 0);
}

proof fn lemma_replacement_effects(e: NodeM)
    requires
        literal_leaves_m(e),
        replacement_m(e) is Some,
    ensures
        effects_m(replacement_m(e).unwrap().0) == effects_m(e),
        literal_leaves_m(replacement_m(e).unwrap().0),
{
    let cs = e.children;
    let r = replacement_m(e).unwrap().0;
    if e.kind is If && cs.len() == 3 {
        assert(cs =~= seq![cs[0], cs[1], cs[2]]);
        lemma_effects_three(cs[0], cs[1], cs[2]);
        lemma_leaves_three(cs[0], cs[1], cs[2]);
        lemma_bool_tail_effects(cs[1]);
        lemma_bool_tail_effects(cs[2]);
        let p = mk(Kind::Parenthesized, Seq::empty(), seq![cs[0]]);
        lemma_effects_one(cs[0]);
        lemma_leaves_one(cs[0]);
        lemma_effects_one(p);
        lemma_leaves_one(p);
    } else if e.kind is BinaryOp && e.text == "||"@ && cs.len() == 2 {
        assert(cs =~= seq![cs[0], cs[1]]);
        lemma_effects_two(cs[0], cs[1]);
        lemma_leaves_two(cs[0], cs[1]);
        if is_bool_literal_m(cs[0], false) {
            lemma_literal_no_effects(cs[0], false);
        } else {
            lemma_literal_no_effects(cs[1], false);
        }
    } else {
        assert(cs =~= seq![cs[0]]);
        lemma_effects_one(cs[0]);
        lemma_leaves_one(cs[0]);
        lemma_strip_parens_effects(cs[0]);
    }
}

proof fn lemma_fold_effects(e: NodeM, parens: bool, a: BooleanCleanupAnalysis)
    requires
        literal_leaves_m(e),
    ensures
        effects_m(fold_m(e, parens, a).0) == effects_m(e),
        literal_leaves_m(fold_m(e, parens, a).0),
    decreases size(e),
{
    match replacement_m(e) {
        None => {},
        Some((r, k)) => {
            lemma_replacement_effects(e);
            if k is NegatedEquality && parens {
                lemma_effects_one(r);
                lemma_leaves_one(r);
            } else {
                lemma_replacement_lighter(e);
                lemma_fold_effects(r, parens, crate::boolean_cleanup::count_fold_m(a, k));
            }
        },
    }
}

proof fn lemma_if_condition_effects(e: NodeM, x: NodeM)
    requires
        if_condition_m(e) is Some,
    ensures
        effects_m(with_if_condition_m(e, x)) + effects_m(if_condition_m(e).unwrap()) == effects_m(e)
            + effects_m(x),
        literal_leaves_m(e) && literal_leaves_m(x) ==> literal_leaves_m(with_if_condition_m(e, x))
            && literal_leaves_m(if_condition_m(e).unwrap()),
    decreases e,
{
    if e.kind is If && e.children.len() >= 2 {
        lemma_effects_update(e.children, x);
        if literal_leaves_m(e) && literal_leaves_m(x) {
            lemma_leaves_update(e.children, x);
        }
    } else {
        let c = e.children[0];
        lemma_if_condition_effects(c, x);
        assert(e.children =~= seq![c]);
        lemma_effects_one(c);
        lemma_leaves_one(c);
        lemma_effects_one(with_if_condition_m(c, x));
        lemma_leaves_one(with_if_condition_m(c, x));
    }
}

proof fn lemma_clean_effects(n: NodeM, parens: bool, a: BooleanCleanupAnalysis)
    requires
        literal_leaves_m(n),
    ensures
        effects_m(clean_m(n, parens, a).0) == effects_m(n),
        literal_leaves_m(clean_m(n, parens, a).0),
    decreases n, 1nat,
{
    if n.kind is Block {
        let used = crate::boolean_cleanup::idents_list_m(n.children, Seq::empty());
        lemma_clean_stmts_effects(n.children, used, a);
    } else {
        let (cs, a1) = clean_list_m(n.kind, n.text, n.children, true, a);
        lemma_clean_list_effects(n.kind, n.text, n.children, true, a);
        lemma_fold_effects(mk(n.kind, n.text, cs), parens, a1);
    }
}

proof fn lemma_clean_list_effects(
    k: Kind,
    text: Seq<char>,
    cs: Seq<NodeM>,
    first: bool,
    a: BooleanCleanupAnalysis,
)
    requires
        literal_leaves_list_m(cs),
    ensures
        effects_list_m(clean_list_m(k, text, cs, first, a).0) == effects_list_m(cs),
        literal_leaves_list_m(clean_list_m(k, text, cs, first, a).0),
    decreases cs, 0nat,
{
    if cs.len() > 0 {
        let (h, a1) = clean_m(cs[0], crate::boolean_cleanup::child_parens_m(k, text, first), a);
        let (t, a2) = clean_list_m(k, text, cs.drop_first(), false, a1);
        lemma_clean_effects(cs[0], crate::boolean_cleanup::child_parens_m(k, text, first), a);
        lemma_clean_list_effects(k, text, cs.drop_first(), false, a1);
        assert((seq![h] + t).drop_first() =~= t);
    }
}

proof fn lemma_clean_position_effects(e: NodeM, used: Seq<Seq<char>>, a: BooleanCleanupAnalysis)
    requires
        literal_leaves_m(e),
    ensures
        effects_list_m(clean_position_m(e, used, a).0) + effects_m(clean_position_m(e, used, a).1)
            == effects_m(e),
        literal_leaves_list_m(clean_position_m(e, used, a).0),
        literal_leaves_m(clean_position_m(e, used, a).1),
    decreases e, 2nat,
{
    let (c, a1) = clean_m(e, false, a);
    lemma_clean_effects(e, false, a);
    if hoists_m(c) {
        let name = crate::boolean_cleanup::fresh_name_m(used);
        let id = mk(Kind::Ident, name, Seq::empty());
        lemma_if_condition_effects(c, id);
        let cond = if_condition_m(c).unwrap();
        lemma_strip_parens_effects(cond);
        let absent = mk(Kind::Absent, Seq::empty(), Seq::empty());
        let b = hoisted_binding_m(c, name);
        lemma_effects_two(absent, strip_parens_m(cond));
        lemma_leaves_two(absent, strip_parens_m(cond));
        lemma_effects_one(b);
        lemma_leaves_one(b);
    }
}

proof fn lemma_clean_stmt_effects(s: NodeM, used: Seq<Seq<char>>, a: BooleanCleanupAnalysis)
    requires
        literal_leaves_m(s),
    ensures
        effects_list_m(clean_stmt_m(s, used, a).0) == effects_m(s),
        literal_leaves_list_m(clean_stmt_m(s, used, a).0),
    decreases s, 3nat,
{
    if s.kind is Let && s.children.len() == 2 && !(s.children[1].kind is Absent) {
        let (pre, c, u, a1) = clean_position_m(s.children[1], used, a);
        assert(s.children =~= seq![s.children[0], s.children[1]]);
        lemma_effects_two(s.children[0], s.children[1]);
        lemma_leaves_two(s.children[0], s.children[1]);
        lemma_clean_position_effects(s.children[1], used, a);
        let st = mk(s.kind, s.text, seq![s.children[0], c]);
        lemma_effects_two(s.children[0], c);
        lemma_leaves_two(s.children[0], c);
        lemma_effects_concat(pre, seq![st]);
        lemma_leaves_concat(pre, seq![st]);
        lemma_effects_one(st);
        lemma_leaves_one(st);
        assert(pre.push(st) =~= pre + seq![st]);
    } else if (s.kind is ExprStmt || s.kind is Tail) && s.children.len() == 1 {
        let (pre, c, u, a1) = clean_position_m(s.children[0], used, a);
        assert(s.children =~= seq![s.children[0]]);
        lemma_effects_one(s.children[0]);
        lemma_leaves_one(s.children[0]);
        lemma_clean_position_effects(s.children[0], used, a);
        let st = mk(s.kind, s.text, seq![c]);
        lemma_effects_one(c);
        lemma_leaves_one(c);
        lemma_effects_concat(pre, seq![st]);
        lemma_leaves_concat(pre, seq![st]);
        lemma_effects_one(st);
        lemma_leaves_one(st);
        assert(pre.push(st) =~= pre + seq![st]);
    } else if s.kind is ItemStmt {
        lemma_clean_effects(s, false, a);
        lemma_effects_one(clean_m(s, false, a).0);
        lemma_leaves_one(clean_m(s, false, a).0);
    } else {
        lemma_effects_one(s);
        lemma_leaves_one(s);
    }
}

proof fn lemma_clean_stmts_effects(ss: Seq<NodeM>, used: Seq<Seq<char>>, a: BooleanCleanupAnalysis)
    requires
        literal_leaves_list_m(ss),
    ensures
        effects_list_m(clean_stmts_m(ss, used, a).0) == effects_list_m(ss),
        literal_leaves_list_m(clean_stmts_m(ss, used, a).0),
    decreases ss, 0nat,
{
    if ss.len() > 0 {
        let (out, u1, a1) = clean_stmt_m(ss[0], used, a);
        let (rest, u2, a2) = clean_stmts_m(ss.drop_first(), u1, a1);
        lemma_clean_stmt_effects(ss[0], used, a);
        lemma_clean_stmts_effects(ss.drop_first(), u1, a1);
        lemma_effects_concat(out, rest);
        lemma_leaves_concat(out, rest);
    }
}

/// The Boolean cleanup drops no operand that can do something: the cleaned
/// tree holds as many calls, method calls and macro invocations as the tree
/// it was given, where that tree's Boolean literals are leaves.
pub proof fn lemma_cleanup_keeps_effects(m: NodeM)
    requires
        literal_leaves_m(m),
    ensures
        effects_m(cleanup_booleans_m(m).0) == effects_m(m),
{
    lemma_clean_effects(m, false, crate::boolean_cleanup::no_counts());
}

} // verus!
