//! The Boolean cleanup leaves nothing to fold: no rule applies anywhere in
//! the tree it gives, let initializers, conditions, tails and nested items
//! included.
use vstd::prelude::*;

use crate::ast::Kind;
use crate::boolean_cleanup::{
    clean_list_m, clean_m, clean_position_m, clean_stmt_m, clean_stmts_m, cleanup_booleans_m,
    count_fold_m, fold_m, hoisted_binding_m, idents_list_m, if_condition_m,
    lemma_replacement_lighter, replacement_m, strip_parens_m, with_if_condition_m,
    BooleanCleanupAnalysis,
};
use crate::model::{mk, size, NodeM};

verus! {

/// Whether no rule of the Boolean cleanup applies to `n` or to any node
/// inside it.
pub open spec fn fold_free_m(n: NodeM) -> bool
    decreases n, 1nat,
{
    replacement_m(n) is None && fold_free_list_m(n.children)
}

pub open spec fn fold_free_list_m(cs: Seq<NodeM>) -> bool
    decreases cs, 0nat,
{
    cs.len() == 0 || (fold_free_m(cs[0]) && fold_free_list_m(cs.drop_first()))
}

/// Whether the statement `st` is one the cleanup reads: a `let` with an
/// initializer (whose type holds nothing to fold), an expression statement,
/// a tail or an item; any other statement holds nothing to fold.
pub open spec fn handled_stmt_m(st: NodeM) -> bool {
    ||| (st.kind is Let && st.children.len() == 2 && !(st.children[1].kind is Absent)
        && fold_free_m(st.children[0]))
    ||| ((st.kind is ExprStmt || st.kind is Tail) && st.children.len() == 1)
    ||| st.kind is ItemStmt
    ||| fold_free_m(st)
}

pub open spec fn stmts_handled_m(cs: Seq<NodeM>) -> bool
    decreases cs,
{
    cs.len() == 0 || (handled_stmt_m(cs[0]) && stmts_handled_m(cs.drop_first()))
}

/// Whether every block of `n` is made of statements the cleanup reads.
pub open spec fn statements_wf_m(n: NodeM) -> bool
    decreases n, 1nat,
{
    (n.kind is Block ==> stmts_handled_m(n.children)) && statements_wf_list_m(n.children)
}

pub open spec fn statements_wf_list_m(cs: Seq<NodeM>) -> bool
    decreases cs, 0nat,
{
    cs.len() == 0 || (statements_wf_m(cs[0]) && statements_wf_list_m(cs.drop_first()))
}

// ----- lists -----

proof fn lemma_fold_free_list_all(cs: Seq<NodeM>)
    ensures
        fold_free_list_m(cs) <==> forall|i: int| 0 <= i < cs.len() ==> #[trigger] fold_free_m(cs[i]),
    decreases cs.len(),
{
    if cs.len() > 0 {
        lemma_fold_free_list_all(cs.drop_first());
        if forall|i: int| 0 <= i < cs.len() ==> #[trigger] fold_free_m(cs[i]) {
            assert(fold_free_m(cs[0]));
            assert forall|i: int| 0 <= i < cs.drop_first().len() implies #[trigger] fold_free_m(
                cs.drop_first()[i],
            ) by {
                assert(cs.drop_first()[i] == cs[i + 1]);
            }
        }
        if fold_free_list_m(cs) {
            assert forall|i: int| 0 <= i < cs.len() implies #[trigger] fold_free_m(cs[i]) by {
                if i > 0 {
                    assert(cs[i] == cs.drop_first()[i - 1]);
                }
            }
        }
    }
}

proof fn lemma_fold_free_concat(a: Seq<NodeM>, b: Seq<NodeM>)
    requires
        fold_free_list_m(a),
        fold_free_list_m(b),
    ensures
        fold_free_list_m(a + b),
{
    lemma_fold_free_list_all(a);
    lemma_fold_free_list_all(b);
    lemma_fold_free_list_all(a + b);
    assert forall|i: int| 0 <= i < (a + b).len() implies #[trigger] fold_free_m((a + b)[i]) by {
        if i < a.len() {
            assert((a + b)[i] == a[i]);
        } else {
            assert((a + b)[i] == b[i - a.len()]);
        }
    }
}

proof fn lemma_fold_free_one(x: NodeM)
    requires
        fold_free_m(x),
    ensures
        fold_free_list_m(seq![x]),
{
    lemma_fold_free_list_all(seq![x]);
}

proof fn lemma_wf_list_all(cs: Seq<NodeM>)
    ensures
        statements_wf_list_m(cs) ==> forall|i: int| 0 <= i < cs.len() ==> #[trigger] statements_wf_m(cs[i]),
    decreases cs.len(),
{
    if cs.len() > 0 {
        lemma_wf_list_all(cs.drop_first());
        if statements_wf_list_m(cs) {
            assert forall|i: int| 0 <= i < cs.len() implies #[trigger] statements_wf_m(cs[i]) by {
                if i > 0 {
                    assert(cs[i] == cs.drop_first()[i - 1]);
                }
            }
        }
    }
}

// ----- folding -----

/// Inside a tree with nothing to fold, parentheses strip to such a tree.
proof fn lemma_strip_parens_fold_free(e: NodeM)
    requires
        fold_free_m(e),
    ensures
        fold_free_m(strip_parens_m(e)),
    decreases e,
{
    if e.kind is Parenthesized && e.children.len() == 1 {
        lemma_fold_free_list_all(e.children);
        lemma_strip_parens_fold_free(e.children[0]);
    }
}

/// Folding a node whose children hold nothing to fold leaves nothing to
/// fold.
proof fn lemma_fold_fold_free(e: NodeM, parens: bool, a: BooleanCleanupAnalysis)
    requires
        fold_free_list_m(e.children),
    ensures
        fold_free_m(fold_m(e, parens, a).0),
    decreases size(e),
{
    lemma_fold_free_list_all(e.children);
    match replacement_m(e) {
        None => {},
        Some((r, k)) => {
            lemma_replacement_lighter(e);
            let cs = e.children;
            if e.kind is If && cs.len() == 3 {
                let c = cs[0];
                assert(fold_free_m(c));
                if r == c {
                    lemma_fold_free_list_all(c.children);
                } else {
                    let p = mk(Kind::Parenthesized, Seq::empty(), seq![c]);
                    lemma_fold_free_one(c);
                    assert(fold_free_m(p));
                    lemma_fold_free_one(p);
                }
            } else if e.kind is BinaryOp && e.text == "||"@ && cs.len() == 2 {
                assert(fold_free_m(cs[0]));
                assert(fold_free_m(cs[1]));
                lemma_fold_free_list_all(r.children);
            } else {
                let s = strip_parens_m(cs[0]);
                assert(fold_free_m(cs[0]));
                lemma_strip_parens_fold_free(cs[0]);
                lemma_fold_free_list_all(s.children);
                if k is NegatedEquality && parens {
                    reveal_strlit("!=");
                    reveal_strlit("||");
                    assert("!="@[0] != "||"@[0]);
                    assert(r.text != "||"@);
                    assert(fold_free_m(r));
                    lemma_fold_free_one(r);
                }
            }
            if !(k is NegatedEquality && parens) {
                lemma_fold_fold_free(r, parens, count_fold_m(a, k));
            }
        },
    }
}

// ----- the traversal -----

proof fn lemma_clean_fold_free(n: NodeM, parens: bool, a: BooleanCleanupAnalysis)
    requires
        statements_wf_m(n),
    ensures
        fold_free_m(clean_m(n, parens, a).0),
    decreases n, 1nat,
{
    if n.kind is Block {
        let used = idents_list_m(n.children, Seq::empty());
        lemma_clean_stmts_fold_free(n.children, used, a);
    } else {
        let (cs, a1) = clean_list_m(n.kind, n.text, n.children, true, a);
        lemma_clean_list_fold_free(n.kind, n.text, n.children, true, a);
        lemma_fold_fold_free(mk(n.kind, n.text, cs), parens, a1);
    }
}

proof fn lemma_clean_list_fold_free(
    k: Kind,
    text: Seq<char>,
    cs: Seq<NodeM>,
    first: bool,
    a: BooleanCleanupAnalysis,
)
    requires
        statements_wf_list_m(cs),
    ensures
        fold_free_list_m(clean_list_m(k, text, cs, first, a).0),
    decreases cs, 0nat,
{
    if cs.len() > 0 {
        let (h, a1) = clean_m(cs[0], crate::boolean_cleanup::child_parens_m(k, text, first), a);
        lemma_clean_fold_free(cs[0], crate::boolean_cleanup::child_parens_m(k, text, first), a);
        lemma_clean_list_fold_free(k, text, cs.drop_first(), false, a1);
        let (rest, _a2) = clean_list_m(k, text, cs.drop_first(), false, a1);
        lemma_fold_free_one(h);
        lemma_fold_free_concat(seq![h], rest);
    }
}

/// Replacing the condition of a fold-free `if` by an identifier leaves it
/// fold-free.
proof fn lemma_with_condition_fold_free(e: NodeM, x: NodeM)
    requires
        fold_free_m(e),
        fold_free_m(x),
        if_condition_m(e) is Some,
    ensures
        fold_free_m(with_if_condition_m(e, x)),
    decreases e,
{
    lemma_fold_free_list_all(e.children);
    if e.kind is If && e.children.len() >= 2 {
        let cs2 = e.children.update(0, x);
        lemma_fold_free_list_all(cs2);
        assert forall|i: int| 0 <= i < cs2.len() implies #[trigger] fold_free_m(cs2[i]) by {
            if i > 0 {
                assert(cs2[i] == e.children[i]);
            }
        }
        assert(cs2[1] == e.children[1]);
        if e.children.len() == 3 {
            assert(cs2[2] == e.children[2]);
        }
    } else {
        lemma_with_condition_fold_free(e.children[0], x);
        lemma_fold_free_one(with_if_condition_m(e.children[0], x));
    }
}

/// The condition of a fold-free `if` is fold-free.
proof fn lemma_condition_fold_free(e: NodeM)
    requires
        fold_free_m(e),
        if_condition_m(e) is Some,
    ensures
        fold_free_m(if_condition_m(e).unwrap()),
    decreases e,
{
    lemma_fold_free_list_all(e.children);
    if !(e.kind is If && e.children.len() >= 2) {
        lemma_condition_fold_free(e.children[0]);
    }
}

proof fn lemma_clean_position_fold_free(e: NodeM, used: Seq<Seq<char>>, a: BooleanCleanupAnalysis)
    requires
        statements_wf_m(e),
    ensures
        fold_free_list_m(clean_position_m(e, used, a).0),
        fold_free_m(clean_position_m(e, used, a).1),
    decreases e, 2nat,
{
    lemma_clean_fold_free(e, false, a);
    let (c, _a1) = clean_m(e, false, a);
    if crate::boolean_cleanup::hoists_m(c) {
        let name = crate::boolean_cleanup::fresh_name_m(used);
        let id = mk(Kind::Ident, name, Seq::empty());
        lemma_fold_free_list_all(id.children);
        lemma_with_condition_fold_free(c, id);
        lemma_condition_fold_free(c);
        lemma_strip_parens_fold_free(if_condition_m(c).unwrap());
        let b = hoisted_binding_m(c, name);
        let absent = mk(Kind::Absent, Seq::empty(), Seq::empty());
        lemma_fold_free_list_all(absent.children);
        lemma_fold_free_list_all(b.children);
        assert(b.children[0] == absent);
        lemma_fold_free_one(b);
    } else {
        lemma_fold_free_list_all(Seq::<NodeM>::empty());
    }
}

proof fn lemma_clean_stmt_fold_free(s: NodeM, used: Seq<Seq<char>>, a: BooleanCleanupAnalysis)
    requires
        handled_stmt_m(s),
        statements_wf_m(s),
    ensures
        fold_free_list_m(clean_stmt_m(s, used, a).0),
    decreases s, 3nat,
{
    lemma_wf_list_all(s.children);
    lemma_fold_free_list_all(s.children);
    if s.kind is Let && s.children.len() == 2 && !(s.children[1].kind is Absent) {
        let (pre, c, u, a1) = clean_position_m(s.children[1], used, a);
        lemma_clean_position_fold_free(s.children[1], used, a);
        let st = mk(s.kind, s.text, seq![s.children[0], c]);
        assert(fold_free_m(s.children[0]));
        lemma_fold_free_list_all(st.children);
        lemma_fold_free_one(st);
        lemma_fold_free_concat(pre, seq![st]);
        assert(pre.push(st) =~= pre + seq![st]);
    } else if (s.kind is ExprStmt || s.kind is Tail) && s.children.len() == 1 {
        let (pre, c, u, a1) = clean_position_m(s.children[0], used, a);
        lemma_clean_position_fold_free(s.children[0], used, a);
        let st = mk(s.kind, s.text, seq![c]);
        lemma_fold_free_one(c);
        lemma_fold_free_one(st);
        lemma_fold_free_concat(pre, seq![st]);
        assert(pre.push(st) =~= pre + seq![st]);
    } else if s.kind is ItemStmt {
        lemma_clean_fold_free(s, false, a);
        lemma_fold_free_one(clean_m(s, false, a).0);
    } else {
        lemma_fold_free_one(s);
    }
}

proof fn lemma_clean_stmts_fold_free(ss: Seq<NodeM>, used: Seq<Seq<char>>, a: BooleanCleanupAnalysis)
    requires
        stmts_handled_m(ss),
        statements_wf_list_m(ss),
    ensures
        fold_free_list_m(clean_stmts_m(ss, used, a).0),
    decreases ss, 0nat,
{
    if ss.len() > 0 {
        let (out, u1, a1) = clean_stmt_m(ss[0], used, a);
        lemma_clean_stmt_fold_free(ss[0], used, a);
        lemma_clean_stmts_fold_free(ss.drop_first(), u1, a1);
        let (rest, _u2, _a2) = clean_stmts_m(ss.drop_first(), u1, a1);
        lemma_fold_free_concat(out, rest);
    }
}

/// The Boolean cleanup leaves nothing to fold: in the tree it gives, no
/// rule applies to any node, in `let` initializers, expression statements,
/// tails, conditions and nested items alike. It holds of every tree whose
/// blocks are made of statements the cleanup reads.
pub proof fn lemma_cleanup_leaves_nothing_to_fold(m: NodeM)
    requires
        statements_wf_m(m),
    ensures
        fold_free_m(cleanup_booleans_m(m).0),
{
    lemma_clean_fold_free(m, false, crate::boolean_cleanup::no_counts());
}

} // verus!
