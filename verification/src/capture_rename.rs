//! Renaming the captured copies in a closure body back to the names they
//! copy, so that a `move` closure over `let x_cap = x.clone()` copies can
//! become a plain closure that borrows `x` itself.
//!
//! The renaming follows the binding structure it knows: closure parameters
//! and `let` bindings hide a name from the statements after them. It enters
//! calls, method calls, operators, tuples and arrays, blocks, `if`, `match`
//! arms and closures, and leaves every other expression as it is.
use vstd::prelude::*;

use crate::ast::{Kind, Node, Nodes};
use crate::closure_cleanup::{
    closure_params_m, is_closure_node, next_pos, next_position, pairs_view, param_names, param_names_m,
    position_m, skip_nodes,
};
use crate::model::{child, copy_node, copy_nodes, lemma_cons, node_m, nodes_m, NodeM};
use crate::text::{string_of, views};

verus! {

// ----- renamings -----

/// The name a renaming maps `n` to: the first entry for `n`.
pub open spec fn rename_of_m(s: Seq<(Seq<char>, Seq<char>)>, n: Seq<char>) -> Option<Seq<char>>
    decreases s.len(),
{
    if s.len() == 0 {
        None
    } else if s[0].0 == n {
        Some(s[0].1)
    } else {
        rename_of_m(s.drop_first(), n)
    }
}

/// The renaming `s` without its entries for `n`.
pub open spec fn drop_key_m(s: Seq<(Seq<char>, Seq<char>)>, n: Seq<char>) -> Seq<(Seq<char>, Seq<char>)>
    decreases s.len(),
{
    if s.len() == 0 {
        s
    } else {
        let kept = drop_key_m(s.drop_last(), n);
        if s.last().0 == n {
            kept
        } else {
            kept.push(s.last())
        }
    }
}

/// The renaming `s` without its entries for each of `ns`.
pub open spec fn drop_keys_m(s: Seq<(Seq<char>, Seq<char>)>, ns: Seq<Seq<char>>) -> Seq<
    (Seq<char>, Seq<char>),
>
    decreases ns.len(),
{
    if ns.len() == 0 {
        s
    } else {
        drop_keys_m(drop_key_m(s, ns[0]), ns.drop_first())
    }
}

// ----- the renaming of a tree -----

/// `e` with each identifier that `s` maps renamed, where the renaming
/// reaches.
pub open spec fn rename_m(e: NodeM, s: Seq<(Seq<char>, Seq<char>)>) -> NodeM
    decreases e, 2nat,
{
    match e.kind {
        Kind::Ident => match rename_of_m(s, e.text) {
            Some(r) => NodeM { kind: e.kind, text: r, children: e.children },
            None => e,
        },
        Kind::MethodCall | Kind::Call | Kind::Array | Kind::Tuple | Kind::BinaryOp
        | Kind::Parenthesized | Kind::UnaryOp | Kind::Reference { .. } | Kind::Match | Kind::Arm
        | Kind::If | Kind::BlockExpr => NodeM {
            kind: e.kind,
            text: e.text,
            children: rename_list_m(e.children, s, None),
        },
        Kind::Cast => NodeM { kind: e.kind, text: e.text, children: rename_list_m(e.children, s, Some(1)) },
        Kind::Block => NodeM { kind: e.kind, text: e.text, children: rename_block_m(e.children, s) },
        Kind::Closure { .. } | Kind::TypedClosure { .. } => if is_closure_node(e) {
            let inner = drop_keys_m(s, param_names_m(closure_params_m(e)));
            NodeM {
                kind: e.kind,
                text: e.text,
                children: e.children.update(0, rename_m(e.children[0], inner)),
            }
        } else {
            e
        },
        _ => e,
    }
}

/// Each of `cs` renamed, the one at position `skip` left as it is.
pub open spec fn rename_list_m(
    cs: Seq<NodeM>,
    s: Seq<(Seq<char>, Seq<char>)>,
    skip: Option<nat>,
) -> Seq<NodeM>
    decreases cs, 1nat,
{
    if cs.len() == 0 {
        cs
    } else {
        seq![
            if skip == Some(0nat) {
                cs[0]
            } else {
                rename_m(cs[0], s)
            },
        ] + rename_list_m(cs.drop_first(), s, next_position(skip))
    }
}

/// The statements `cs` of a block renamed: a `let` renames its initializer,
/// then hides its name from the statements after it.
pub open spec fn rename_block_m(cs: Seq<NodeM>, s: Seq<(Seq<char>, Seq<char>)>) -> Seq<NodeM>
    decreases cs, 1nat,
{
    if cs.len() == 0 {
        cs
    } else {
        let st = cs[0];
        if st.kind is Let {
            seq![NodeM { kind: st.kind, text: st.text, children: rename_list_m(st.children, s, Some(0)) }]
                + rename_block_m(cs.drop_first(), drop_key_m(s, st.text))
        } else if st.kind is ExprStmt || st.kind is Tail {
            seq![NodeM { kind: st.kind, text: st.text, children: rename_list_m(st.children, s, None) }]
                + rename_block_m(cs.drop_first(), s)
        } else {
            seq![st] + rename_block_m(cs.drop_first(), s)
        }
    }
}

// ----- move closures -----

/// `e` without its enclosing parentheses.
pub open spec fn strip_parens_m(e: NodeM) -> NodeM
    decreases e,
{
    if e.kind is Parenthesized && e.children.len() > 0 {
        strip_parens_m(e.children[0])
    } else {
        e
    }
}

/// The parameters and body of `e`, where `e`, without its parentheses, is a
/// `move` closure.
pub open spec fn move_closure_parts_m(e: NodeM) -> Option<(Seq<NodeM>, NodeM)> {
    let c = strip_parens_m(e);
    if (c.kind == Kind::Closure { moves: true } && c.children.len() >= 1) || (c.kind
        == Kind::TypedClosure { moves: true } && c.children.len() >= 2) {
        Some((closure_params_m(c), c.children[0]))
    } else {
        None
    }
}

// ----- executable renamings -----

/// The name `s` maps `n` to.
fn rename_of(s: &Vec<(String, String)>, n: &String) -> (r: Option<String>)
    ensures
        match rename_of_m(pairs_view(s@), n@) {
            Some(x) => r matches Some(y) && y@ == x,
            None => r is None,
        },
{
    let mut i: usize = 0;
    assert(pairs_view(s@).subrange(0, s@.len() as int) =~= pairs_view(s@));
    while i < s.len()
        invariant
            i <= s@.len(),
            rename_of_m(pairs_view(s@), n@) == rename_of_m(
                pairs_view(s@).subrange(i as int, s@.len() as int),
                n@,
            ),
        decreases s@.len() - i,
    {
        let ghost rest = pairs_view(s@).subrange(i as int, s@.len() as int);
        assert(rest[0] == (s@[i as int].0@, s@[i as int].1@));
        if s[i].0 == *n {
            return Some(string_of(s[i].1.as_str()));
        }
        assert(rest.drop_first() =~= pairs_view(s@).subrange(i + 1, s@.len() as int));
        i = i + 1;
    }
    None
}

/// The renaming `s` without its entries for `n`.
fn drop_key(s: &Vec<(String, String)>, n: &String) -> (r: Vec<(String, String)>)
    ensures
        pairs_view(r@) == drop_key_m(pairs_view(s@), n@),
{
    let mut r: Vec<(String, String)> = Vec::new();
    let mut i: usize = 0;
    while i < s.len()
        invariant
            i <= s@.len(),
            pairs_view(r@) == drop_key_m(pairs_view(s@).subrange(0, i as int), n@),
        decreases s@.len() - i,
    {
        let ghost pre = pairs_view(s@).subrange(0, i + 1);
        assert(pre.drop_last() =~= pairs_view(s@).subrange(0, i as int));
        assert(pre.last() == (s@[i as int].0@, s@[i as int].1@));
        if s[i].0 != *n {
            let ghost before = r@;
            r.push((string_of(s[i].0.as_str()), string_of(s[i].1.as_str())));
            assert(pairs_view(r@) =~= pairs_view(before).push(pre.last()));
        }
        i = i + 1;
    }
    assert(pairs_view(s@).subrange(0, s@.len() as int) =~= pairs_view(s@));
    r
}

/// The renaming `s` without its entries for each of `ns`.
fn drop_keys(s: &Vec<(String, String)>, ns: &Vec<String>) -> (r: Vec<(String, String)>)
    ensures
        pairs_view(r@) == drop_keys_m(pairs_view(s@), views(ns@)),
{
    let mut cur = copy_pairs(s);
    let mut i: usize = 0;
    assert(views(ns@).subrange(0, ns@.len() as int) =~= views(ns@));
    while i < ns.len()
        invariant
            i <= ns@.len(),
            drop_keys_m(pairs_view(s@), views(ns@)) == drop_keys_m(
                pairs_view(cur@),
                views(ns@).subrange(i as int, ns@.len() as int),
            ),
        decreases ns@.len() - i,
    {
        let ghost rest = views(ns@).subrange(i as int, ns@.len() as int);
        assert(rest[0] == ns@[i as int]@);
        assert(rest.drop_first() =~= views(ns@).subrange(i + 1, ns@.len() as int));
        cur = drop_key(&cur, &ns[i]);
        i = i + 1;
    }
    cur
}

/// A copy of the renaming `s`.
fn copy_pairs(s: &Vec<(String, String)>) -> (r: Vec<(String, String)>)
    ensures
        pairs_view(r@) == pairs_view(s@),
{
    let mut r: Vec<(String, String)> = Vec::new();
    let mut i: usize = 0;
    while i < s.len()
        invariant
            i <= s@.len(),
            pairs_view(r@) == pairs_view(s@).subrange(0, i as int),
        decreases s@.len() - i,
    {
        let ghost before = r@;
        r.push((string_of(s[i].0.as_str()), string_of(s[i].1.as_str())));
        assert(pairs_view(r@) =~= pairs_view(before).push((s@[i as int].0@, s@[i as int].1@)));
        assert(pairs_view(s@).subrange(0, i + 1) =~= pairs_view(s@).subrange(0, i as int).push(
            (s@[i as int].0@, s@[i as int].1@),
        ));
        i = i + 1;
    }
    assert(pairs_view(s@).subrange(0, s@.len() as int) =~= pairs_view(s@));
    r
}

// ----- executable renaming of a tree -----

/// `e` with each identifier that `s` maps renamed, where the renaming
/// reaches.
pub fn subst_idents_in_expr(e: &Node, s: &Vec<(String, String)>) -> (r: Node)
    ensures
        r@ == rename_m(e@, pairs_view(s@)),
    decreases e, 2nat,
{
    match e.kind {
        Kind::Ident => match rename_of(s, &e.text) {
            Some(x) => Node { kind: e.kind, text: x, children: copy_nodes(&e.children) },
            None => copy_node(e),
        },
        Kind::MethodCall | Kind::Call | Kind::Array | Kind::Tuple | Kind::BinaryOp
        | Kind::Parenthesized | Kind::UnaryOp | Kind::Reference { .. } | Kind::Match | Kind::Arm
        | Kind::If | Kind::BlockExpr => Node {
            kind: e.kind,
            text: e.text.clone(),
            children: rename_list(&e.children, s, None),
        },
        Kind::Cast => Node { kind: e.kind, text: e.text.clone(), children: rename_list(&e.children, s, Some(1)) },
        Kind::Block => Node {
            kind: e.kind,
            text: e.text.clone(),
            children: subst_idents_in_block(&e.children, s),
        },
        Kind::Closure { .. } | Kind::TypedClosure { .. } => match &e.children {
            Nodes::Cons(body, rest) => {
                proof {
                    lemma_cons(node_m(**body), nodes_m(**rest));
                }
                let skip: usize = if matches!(e.kind, Kind::TypedClosure { .. }) {
                    2
                } else {
                    1
                };
                if skip == 2 && child(&e.children, 1).is_none() {
                    return copy_node(e);
                }
                let names = param_names(skip_nodes(&e.children, skip));
                assert(nodes_m(e.children).drop_first() =~= nodes_m(e.children).subrange(
                    1,
                    nodes_m(e.children).len() as int,
                ));
                let inner = drop_keys(s, &names);
                let b = subst_idents_in_expr(body, &inner);
                let ghost bv = b@;
                let r = Node {
                    kind: e.kind,
                    text: e.text.clone(),
                    children: Nodes::Cons(Box::new(b), Box::new(copy_nodes(rest))),
                };
                assert(nodes_m(r.children) =~= nodes_m(e.children).update(0, bv));
                r
            },
            Nodes::Nil => copy_node(e),
        },
        _ => copy_node(e),
    }
}

/// Each node of `l` renamed, the one at position `skip` left as it is.
fn rename_list(l: &Nodes, s: &Vec<(String, String)>, skip: Option<usize>) -> (r: Nodes)
    ensures
        nodes_m(r) == rename_list_m(nodes_m(*l), pairs_view(s@), position_m(skip)),
    decreases l, 1nat,
{
    match l {
        Nodes::Nil => Nodes::Nil,
        Nodes::Cons(h, rest) => {
            proof {
                lemma_cons(node_m(**h), nodes_m(**rest));
            }
            let h2 = if skip == Some(0usize) {
                copy_node(h)
            } else {
                subst_idents_in_expr(h, s)
            };
            let tail = rename_list(rest, s, next_pos(skip));
            let r = Nodes::Cons(Box::new(h2), Box::new(tail));
            assert(nodes_m(r) == seq![h2@] + nodes_m(tail));
            r
        },
    }
}

/// The statements `l` of a block renamed, each `let` hiding its name from
/// the statements after it.
pub fn subst_idents_in_block(l: &Nodes, s: &Vec<(String, String)>) -> (r: Nodes)
    ensures
        nodes_m(r) == rename_block_m(nodes_m(*l), pairs_view(s@)),
    decreases l, 1nat,
{
    match l {
        Nodes::Nil => Nodes::Nil,
        Nodes::Cons(st, rest) => {
            proof {
                lemma_cons(node_m(**st), nodes_m(**rest));
            }
            let (st2, tail) = if matches!(st.kind, Kind::Let { .. }) {
                let st2 = Node {
                    kind: st.kind,
                    text: st.text.clone(),
                    children: rename_list(&st.children, s, Some(0)),
                };
                let inner = drop_key(s, &st.text);
                (st2, subst_idents_in_block(rest, &inner))
            } else if matches!(st.kind, Kind::ExprStmt) || matches!(st.kind, Kind::Tail) {
                let st2 = Node {
                    kind: st.kind,
                    text: st.text.clone(),
                    children: rename_list(&st.children, s, None),
                };
                (st2, subst_idents_in_block(rest, s))
            } else {
                (copy_node(st), subst_idents_in_block(rest, s))
            };
            let r = Nodes::Cons(Box::new(st2), Box::new(tail));
            assert(nodes_m(r) == seq![st2@] + nodes_m(tail));
            r
        },
    }
}

// ----- executable move closures -----

/// `e` without its enclosing parentheses.
pub fn strip_parens(e: &Node) -> (r: &Node)
    ensures
        r@ == strip_parens_m(e@),
    decreases e,
{
    if matches!(e.kind, Kind::Parenthesized) {
        match &e.children {
            Nodes::Cons(inner, rest) => {
                proof {
                    lemma_cons(node_m(**inner), nodes_m(**rest));
                }
                strip_parens(inner)
            },
            Nodes::Nil => e,
        }
    } else {
        e
    }
}

/// The parameters and body of `e`, where `e`, without its parentheses, is a
/// `move` closure.
pub fn extract_move_closure_parts(e: &Node) -> (r: Option<(&Nodes, &Node)>)
    ensures
        match move_closure_parts_m(e@) {
            Some((ps, b)) => r matches Some((rp, rb)) && nodes_m(*rp) == ps && rb@ == b,
            None => r is None,
        },
{
    let c = strip_parens(e);
    let skip: usize = match c.kind {
        Kind::Closure { moves: true } => 1,
        Kind::TypedClosure { moves: true } => 2,
        _ => {
            return None;
        },
    };
    if skip == 2 && child(&c.children, 1).is_none() {
        return None;
    }
    match &c.children {
        Nodes::Cons(body, rest) => {
            proof {
                lemma_cons(node_m(**body), nodes_m(**rest));
            }
            assert(nodes_m(c.children).drop_first() =~= nodes_m(c.children).subrange(
                1,
                nodes_m(c.children).len() as int,
            ));
            Some((skip_nodes(&c.children, skip), &**body))
        },
        Nodes::Nil => None,
    }
}


// ----- laws -----

/// Dropping keys from the empty renaming leaves it empty.
proof fn lemma_drop_keys_empty(ns: Seq<Seq<char>>)
    ensures
        drop_keys_m(Seq::empty(), ns) == Seq::<(Seq<char>, Seq<char>)>::empty(),
    decreases ns.len(),
{
    if ns.len() > 0 {
        lemma_drop_keys_empty(ns.drop_first());
    }
}

/// Renaming with the empty renaming changes nothing.
pub proof fn lemma_rename_nothing(e: NodeM)
    ensures
        rename_m(e, Seq::empty()) == e,
    decreases e, 2nat,
{
    match e.kind {
        Kind::MethodCall | Kind::Call | Kind::Array | Kind::Tuple | Kind::BinaryOp
        | Kind::Parenthesized | Kind::UnaryOp | Kind::Reference { .. } | Kind::Match | Kind::Arm
        | Kind::If | Kind::BlockExpr => {
            lemma_rename_list_nothing(e.children, None);
        },
        Kind::Cast => {
            lemma_rename_list_nothing(e.children, Some(1));
        },
        Kind::Block => {
            lemma_rename_block_nothing(e.children);
        },
        Kind::Closure { .. } | Kind::TypedClosure { .. } => {
            if is_closure_node(e) {
                lemma_drop_keys_empty(param_names_m(closure_params_m(e)));
                lemma_rename_nothing(e.children[0]);
                assert(e.children.update(0, e.children[0]) =~= e.children);
            }
        },
        _ => {},
    }
}

proof fn lemma_rename_list_nothing(cs: Seq<NodeM>, skip: Option<nat>)
    ensures
        rename_list_m(cs, Seq::empty(), skip) == cs,
    decreases cs, 1nat,
{
    if cs.len() > 0 {
        lemma_rename_nothing(cs[0]);
        lemma_rename_list_nothing(cs.drop_first(), next_position(skip));
        assert(seq![cs[0]] + cs.drop_first() =~= cs);
    }
}

proof fn lemma_rename_block_nothing(cs: Seq<NodeM>)
    ensures
        rename_block_m(cs, Seq::empty()) == cs,
    decreases cs, 1nat,
{
    if cs.len() > 0 {
        let st = cs[0];
        lemma_rename_list_nothing(st.children, Some(0));
        lemma_rename_list_nothing(st.children, None);
        assert(drop_key_m(Seq::<(Seq<char>, Seq<char>)>::empty(), st.text)
            == Seq::<(Seq<char>, Seq<char>)>::empty());
        lemma_rename_block_nothing(cs.drop_first());
        assert(seq![cs[0]] + cs.drop_first() =~= cs);
    }
}

} // verus!
