//! How a closure bound by `let` is used in the statements after its binding.
//!
//! The borrow analysis may pass a local closure by reference only where the
//! statements after its `let` call it and never let it escape: never name it
//! other than as a callee, and never capture it in another closure or a
//! spawned thread. This module holds that analysis and the free-variable test
//! it rests on.
use vstd::prelude::*;

use crate::ast::{Kind, Node, Nodes};
use crate::binding_cleanup::{is_binding_ident, is_binding_ident_m};
use crate::bound_cleanup::{bound_mentions_generic, bound_mentions_m};
use crate::closure_cleanup::{
    closure_params_m, is_closure_node, next_pos, next_position, param_names, param_names_m,
    position_m, skip_nodes,
};
use crate::model::{has_len, lemma_cons, node_m, nodes_m, NodeM};
use crate::text::{contains_text, string_of, views};

verus! {

/// How a closure binding is used: how many times it is called, and whether
/// it escapes. The count stops at `usize::MAX`.
#[derive(Clone, Copy, Debug, PartialEq, Eq, Structural)]
pub struct ClosureBindingUsage {
    pub call_uses: usize,
    pub escapes: bool,
}

// ----- names -----

/// Whether the pattern `p` binds the name `n`: `n` is a plain identifier and
/// some token of `p` is `n`.
pub open spec fn binds_name_m(p: Seq<char>, n: Seq<char>) -> bool {
    is_binding_ident_m(n) && bound_mentions_m(p, n)
}

/// The names `vs` without those among `ps`, in order.
pub open spec fn remove_names_m(vs: Seq<Seq<char>>, ps: Seq<Seq<char>>) -> Seq<Seq<char>>
    decreases vs.len(),
{
    if vs.len() == 0 {
        vs
    } else {
        let kept = remove_names_m(vs.drop_last(), ps);
        if ps.contains(vs.last()) {
            kept
        } else {
            kept.push(vs.last())
        }
    }
}

// ----- free variables -----

/// Whether one of the names `vs` occurs free in `e`. Closure parameters hide
/// the names they bind; `let` and pattern bindings do not, so the answer
/// errs towards `true`.
pub open spec fn has_free_m(e: NodeM, vs: Seq<Seq<char>>) -> bool
    decreases e, 2nat,
{
    match e.kind {
        Kind::Ident => vs.contains(e.text),
        Kind::Macro | Kind::Path { .. } | Kind::Literal | Kind::Bool(_) => false,
        Kind::Block => has_free_block_m(e.children, vs),
        Kind::Cast => has_free_list_m(e.children, vs, Some(1)),
        Kind::Closure { .. } | Kind::TypedClosure { .. } => {
            let outer = remove_names_m(vs, param_names_m(closure_params_m(e)));
            is_closure_node(e) && outer.len() > 0 && has_free_m(e.children[0], outer)
        },
        _ => has_free_list_m(e.children, vs, None),
    }
}

/// Whether one of `vs` occurs free in one of `cs`, the one at position
/// `skip` left out.
pub open spec fn has_free_list_m(cs: Seq<NodeM>, vs: Seq<Seq<char>>, skip: Option<nat>) -> bool
    decreases cs, 1nat,
{
    cs.len() > 0 && ((skip != Some(0nat) && has_free_m(cs[0], vs)) || has_free_list_m(
        cs.drop_first(),
        vs,
        next_position(skip),
    ))
}

/// Whether one of `vs` occurs free in the statements `cs` of a block: in the
/// initializer of a `let`, an expression statement or the tail.
pub open spec fn has_free_block_m(cs: Seq<NodeM>, vs: Seq<Seq<char>>) -> bool
    decreases cs, 0nat,
{
    if cs.len() == 0 {
        false
    } else {
        let st = cs[0];
        let here = if st.kind is Let {
            has_free_list_m(st.children, vs, Some(0))
        } else if st.kind is ExprStmt || st.kind is Tail {
            has_free_list_m(st.children, vs, None)
        } else {
            false
        };
        here || has_free_block_m(cs.drop_first(), vs)
    }
}

// ----- closure binding usage -----

/// `u` with one more call.
pub open spec fn called_m(u: ClosureBindingUsage) -> ClosureBindingUsage {
    ClosureBindingUsage {
        call_uses: if u.call_uses < usize::MAX {
            (u.call_uses + 1) as usize
        } else {
            usize::MAX
        },
        escapes: u.escapes,
    }
}

/// `u` marked as escaping.
pub open spec fn escaped_m(u: ClosureBindingUsage) -> ClosureBindingUsage {
    ClosureBindingUsage { call_uses: u.call_uses, escapes: true }
}

/// Whether `e`, without its enclosing parentheses, is the identifier `n`.
pub open spec fn is_ident_named_m(e: NodeM, n: Seq<char>) -> bool
    decreases e,
{
    if e.kind is Parenthesized && e.children.len() == 1 {
        is_ident_named_m(e.children[0], n)
    } else {
        e.kind is Ident && e.text == n
    }
}

/// The usage `u` of the closure binding `n` once `e` is read. A call of `n`
/// counts; any other mention of `n`, or a closure or spawned thread that
/// captures it, makes it escape. Once it escapes, nothing more is read.
pub open spec fn usage_m(e: NodeM, n: Seq<char>, u: ClosureBindingUsage) -> ClosureBindingUsage
    decreases e, 2nat,
{
    if u.escapes {
        u
    } else {
        match e.kind {
            Kind::Ident => if e.text == n {
                escaped_m(u)
            } else {
                u
            },
            Kind::Call => if e.children.len() == 0 {
                u
            } else {
                let after_callee = if is_ident_named_m(e.children[0], n) {
                    called_m(u)
                } else {
                    usage_m(e.children[0], n, u)
                };
                usage_list_m(e.children.drop_first(), n, after_callee, None)
            },
            Kind::MethodCall | Kind::Array | Kind::Tuple | Kind::BinaryOp | Kind::Index
            | Kind::Assign | Kind::Match | Kind::If | Kind::BlockExpr | Kind::Loop | Kind::Unsafe
            | Kind::Await | Kind::Parenthesized | Kind::UnaryOp | Kind::Reference { .. } => {
                usage_list_m(e.children, n, u, None)
            },
            Kind::Cast => usage_list_m(e.children, n, u, Some(1)),
            Kind::Arm => if binds_name_m(e.text, n) {
                u
            } else {
                usage_list_m(e.children, n, u, None)
            },
            Kind::IfLet => usage_list_m(
                e.children,
                n,
                u,
                if binds_name_m(e.text, n) {
                    Some(1)
                } else {
                    None
                },
            ),
            Kind::Block => usage_block_m(e.children, n, u),
            Kind::Closure { .. } | Kind::TypedClosure { .. } => {
                if is_closure_node(e) && !param_names_m(closure_params_m(e)).contains(n)
                    && has_free_m(e.children[0], seq![n]) {
                    escaped_m(u)
                } else {
                    u
                }
            },
            Kind::BuilderChain => if has_free_list_m(e.children, seq![n], None) {
                escaped_m(u)
            } else {
                u
            },
            _ => u,
        }
    }
}

/// The usage `u` once each of `cs` is read in order, the one at position
/// `skip` left out.
pub open spec fn usage_list_m(
    cs: Seq<NodeM>,
    n: Seq<char>,
    u: ClosureBindingUsage,
    skip: Option<nat>,
) -> ClosureBindingUsage
    decreases cs, 1nat,
{
    if cs.len() == 0 {
        u
    } else {
        let here = if skip == Some(0nat) {
            u
        } else {
            usage_m(cs[0], n, u)
        };
        usage_list_m(cs.drop_first(), n, here, next_position(skip))
    }
}

/// The usage `u` once the statements `cs` of a block are read, up to the
/// `let` that rebinds `n` (its initializer included).
pub open spec fn usage_block_m(cs: Seq<NodeM>, n: Seq<char>, u: ClosureBindingUsage) -> ClosureBindingUsage
    decreases cs, 0nat,
{
    if cs.len() == 0 {
        u
    } else {
        let st = cs[0];
        if st.kind is Let {
            let after_init = usage_list_m(st.children, n, u, Some(0));
            if binds_name_m(st.text, n) {
                after_init
            } else {
                usage_block_m(cs.drop_first(), n, after_init)
            }
        } else if st.kind is ExprStmt || st.kind is Tail {
            usage_block_m(cs.drop_first(), n, usage_list_m(st.children, n, u, None))
        } else {
            usage_block_m(cs.drop_first(), n, u)
        }
    }
}

/// The statements of the block `b` after the one at position `i`.
pub open spec fn after_statement_m(b: NodeM, i: nat) -> Seq<NodeM> {
    if i + 1 >= b.children.len() {
        Seq::empty()
    } else {
        b.children.subrange((i + 1) as int, b.children.len() as int)
    }
}

/// Whether the closure bound to `n` by the statement at position `i` of the
/// block `b` is called afterwards and never escapes.
pub open spec fn nonescaping_use_m(b: NodeM, i: nat, n: Seq<char>) -> bool {
    let u = usage_block_m(
        after_statement_m(b, i),
        n,
        ClosureBindingUsage { call_uses: 0, escapes: false },
    );
    u.call_uses > 0 && !u.escapes
}

// ----- executable names -----

/// Whether the pattern `p` binds the name `n`.
pub fn pattern_binds_name(p: &String, n: &String) -> (b: bool)
    ensures
        b == binds_name_m(p@, n@),
{
    is_binding_ident(n) && bound_mentions_generic(p, n)
}

/// The names `vs` without those among `ps`, in order.
fn remove_names(vs: &Vec<String>, ps: &Vec<String>) -> (r: Vec<String>)
    ensures
        views(r@) == remove_names_m(views(vs@), views(ps@)),
{
    let mut r: Vec<String> = Vec::new();
    let mut i: usize = 0;
    while i < vs.len()
        invariant
            i <= vs@.len(),
            views(r@) == remove_names_m(views(vs@).subrange(0, i as int), views(ps@)),
        decreases vs@.len() - i,
    {
        let ghost before = views(vs@).subrange(0, i as int);
        let ghost after = views(vs@).subrange(0, i + 1);
        assert(after.drop_last() =~= before);
        assert(after.last() == vs@[i as int]@);
        if !contains_text(ps, &vs[i]) {
            let name = string_of(vs[i].as_str());
            let ghost old_r = r@;
            r.push(name);
            assert(views(r@) =~= views(old_r).push(name@));
        }
        i = i + 1;
    }
    assert(views(vs@).subrange(0, vs@.len() as int) =~= views(vs@));
    r
}

// ----- executable free variables -----

/// Whether one of the names `vs` occurs free in `e`.
pub fn expr_has_free_var_from(e: &Node, vs: &Vec<String>) -> (b: bool)
    ensures
        b == has_free_m(e@, views(vs@)),
    decreases e, 2nat,
{
    match e.kind {
        Kind::Ident => contains_text(vs, &e.text),
        Kind::Macro | Kind::Path { .. } | Kind::Literal | Kind::Bool(_) => false,
        Kind::Block => block_has_free_var_from(&e.children, vs),
        Kind::Cast => list_has_free_var_from(&e.children, vs, Some(1)),
        Kind::Closure { .. } | Kind::TypedClosure { .. } => {
            let skip: usize = if matches!(e.kind, Kind::TypedClosure { .. }) {
                2
            } else {
                1
            };
            if has_len(&e.children, 0) || (skip == 2 && has_len(&e.children, 1)) {
                return false;
            }
            let names = param_names(skip_nodes(&e.children, skip));
            assert(nodes_m(e.children).drop_first() =~= nodes_m(e.children).subrange(
                1,
                nodes_m(e.children).len() as int,
            ));
            let outer = remove_names(vs, &names);
            if outer.len() == 0 {
                return false;
            }
            match &e.children {
                Nodes::Cons(body, rest) => {
                    proof {
                        lemma_cons(node_m(**body), nodes_m(**rest));
                    }
                    expr_has_free_var_from(body, &outer)
                },
                Nodes::Nil => false,
            }
        },
        _ => list_has_free_var_from(&e.children, vs, None),
    }
}

/// Whether one of `vs` occurs free in one of the nodes of `l`, the one at
/// position `skip` left out.
fn list_has_free_var_from(l: &Nodes, vs: &Vec<String>, skip: Option<usize>) -> (b: bool)
    ensures
        b == has_free_list_m(nodes_m(*l), views(vs@), position_m(skip)),
    decreases l, 1nat,
{
    match l {
        Nodes::Nil => false,
        Nodes::Cons(h, rest) => {
            proof {
                lemma_cons(node_m(**h), nodes_m(**rest));
            }
            (skip != Some(0usize) && expr_has_free_var_from(h, vs)) || list_has_free_var_from(
                rest,
                vs,
                next_pos(skip),
            )
        },
    }
}

/// Whether one of `vs` occurs free in the statements `l` of a block.
pub fn block_has_free_var_from(l: &Nodes, vs: &Vec<String>) -> (b: bool)
    ensures
        b == has_free_block_m(nodes_m(*l), views(vs@)),
    decreases l, 0nat,
{
    match l {
        Nodes::Nil => false,
        Nodes::Cons(st, rest) => {
            proof {
                lemma_cons(node_m(**st), nodes_m(**rest));
            }
            let here = if matches!(st.kind, Kind::Let { .. }) {
                list_has_free_var_from(&st.children, vs, Some(0))
            } else if matches!(st.kind, Kind::ExprStmt) || matches!(st.kind, Kind::Tail) {
                list_has_free_var_from(&st.children, vs, None)
            } else {
                false
            };
            here || block_has_free_var_from(rest, vs)
        },
    }
}


// ----- executable closure binding usage -----

/// Whether `e`, without its enclosing parentheses, is the identifier `n`.
pub fn expr_is_ident_named(e: &Node, n: &String) -> (b: bool)
    ensures
        b == is_ident_named_m(e@, n@),
    decreases e,
{
    if matches!(e.kind, Kind::Parenthesized) && has_len(&e.children, 1) {
        match &e.children {
            Nodes::Cons(inner, rest) => {
                proof {
                    lemma_cons(node_m(**inner), nodes_m(**rest));
                }
                expr_is_ident_named(inner, n)
            },
            Nodes::Nil => false,
        }
    } else {
        matches!(e.kind, Kind::Ident) && e.text == *n
    }
}

/// Counts one more call in `u`.
fn count_call(u: &mut ClosureBindingUsage)
    ensures
        *final(u) == called_m(*old(u)),
{
    if u.call_uses < usize::MAX {
        u.call_uses = u.call_uses + 1;
    }
}

/// Reads `e` into the usage `u` of the closure binding `n`.
pub fn collect_closure_binding_usage_expr(e: &Node, n: &String, u: &mut ClosureBindingUsage)
    ensures
        *final(u) == usage_m(e@, n@, *old(u)),
    decreases e, 2nat,
{
    if u.escapes {
        return;
    }
    match e.kind {
        Kind::Ident => {
            if e.text == *n {
                u.escapes = true;
            }
        },
        Kind::Call => {
            match &e.children {
                Nodes::Cons(callee, args) => {
                    proof {
                        lemma_cons(node_m(**callee), nodes_m(**args));
                    }
                    if expr_is_ident_named(callee, n) {
                        count_call(u);
                    } else {
                        collect_closure_binding_usage_expr(callee, n, u);
                    }
                    collect_closure_binding_usage_list(args, n, u, None);
                },
                Nodes::Nil => {},
            }
        },
        Kind::MethodCall | Kind::Array | Kind::Tuple | Kind::BinaryOp | Kind::Index
        | Kind::Assign | Kind::Match | Kind::If | Kind::BlockExpr | Kind::Loop | Kind::Unsafe
        | Kind::Await | Kind::Parenthesized | Kind::UnaryOp | Kind::Reference { .. } => {
            collect_closure_binding_usage_list(&e.children, n, u, None);
        },
        Kind::Cast => {
            collect_closure_binding_usage_list(&e.children, n, u, Some(1));
        },
        Kind::Arm => {
            if !pattern_binds_name(&e.text, n) {
                collect_closure_binding_usage_list(&e.children, n, u, None);
            }
        },
        Kind::IfLet => {
            let skip = if pattern_binds_name(&e.text, n) {
                Some(1usize)
            } else {
                None
            };
            collect_closure_binding_usage_list(&e.children, n, u, skip);
        },
        Kind::Block => {
            collect_closure_binding_usage_block(&e.children, n, u);
        },
        Kind::Closure { .. } | Kind::TypedClosure { .. } => {
            let skip: usize = if matches!(e.kind, Kind::TypedClosure { .. }) {
                2
            } else {
                1
            };
            if has_len(&e.children, 0) || (skip == 2 && has_len(&e.children, 1)) {
                return;
            }
            let names = param_names(skip_nodes(&e.children, skip));
            assert(nodes_m(e.children).drop_first() =~= nodes_m(e.children).subrange(
                1,
                nodes_m(e.children).len() as int,
            ));
            if contains_text(&names, n) {
                return;
            }
            let mut vars: Vec<String> = Vec::new();
            vars.push(string_of(n.as_str()));
            assert(views(vars@) =~= seq![n@]);
            match &e.children {
                Nodes::Cons(body, rest) => {
                    proof {
                        lemma_cons(node_m(**body), nodes_m(**rest));
                    }
                    if expr_has_free_var_from(body, &vars) {
                        u.escapes = true;
                    }
                },
                Nodes::Nil => {},
            }
        },
        Kind::BuilderChain => {
            let mut vars: Vec<String> = Vec::new();
            vars.push(string_of(n.as_str()));
            assert(views(vars@) =~= seq![n@]);
            if list_has_free_var_from(&e.children, &vars, None) {
                u.escapes = true;
            }
        },
        _ => {},
    }
}

/// Reads the nodes of `l` in order into `u`, the one at position `skip`
/// left out.
fn collect_closure_binding_usage_list(
    l: &Nodes,
    n: &String,
    u: &mut ClosureBindingUsage,
    skip: Option<usize>,
)
    ensures
        *final(u) == usage_list_m(nodes_m(*l), n@, *old(u), position_m(skip)),
    decreases l, 1nat,
{
    match l {
        Nodes::Nil => {},
        Nodes::Cons(h, rest) => {
            proof {
                lemma_cons(node_m(**h), nodes_m(**rest));
            }
            if skip != Some(0usize) {
                collect_closure_binding_usage_expr(h, n, u);
            }
            collect_closure_binding_usage_list(rest, n, u, next_pos(skip));
        },
    }
}

/// Reads the statements `l` of a block into `u`, up to the `let` that
/// rebinds `n`.
pub fn collect_closure_binding_usage_block(l: &Nodes, n: &String, u: &mut ClosureBindingUsage)
    ensures
        *final(u) == usage_block_m(nodes_m(*l), n@, *old(u)),
    decreases l, 0nat,
{
    match l {
        Nodes::Nil => {},
        Nodes::Cons(st, rest) => {
            proof {
                lemma_cons(node_m(**st), nodes_m(**rest));
            }
            if matches!(st.kind, Kind::Let { .. }) {
                collect_closure_binding_usage_list(&st.children, n, u, Some(0));
                if !pattern_binds_name(&st.text, n) {
                    collect_closure_binding_usage_block(rest, n, u);
                }
            } else if matches!(st.kind, Kind::ExprStmt) || matches!(st.kind, Kind::Tail) {
                collect_closure_binding_usage_list(&st.children, n, u, None);
                collect_closure_binding_usage_block(rest, n, u);
            } else {
                collect_closure_binding_usage_block(rest, n, u);
            }
        },
    }
}

/// The statements of a block after the first `k` of `l`.
fn statements_after(l: &Nodes, k: usize) -> (r: &Nodes)
    ensures
        nodes_m(*r) == if k >= nodes_m(*l).len() {
            Seq::empty()
        } else {
            nodes_m(*l).subrange(k as int, nodes_m(*l).len() as int)
        },
    decreases l,
{
    if k == 0 {
        assert(nodes_m(*l).subrange(0, nodes_m(*l).len() as int) =~= nodes_m(*l));
        return l;
    }
    match l {
        Nodes::Nil => l,
        Nodes::Cons(h, rest) => {
            proof {
                lemma_cons(node_m(**h), nodes_m(**rest));
            }
            let r = statements_after(rest, k - 1);
            assert(k < nodes_m(*l).len() ==> nodes_m(**rest).subrange(
                (k - 1) as int,
                nodes_m(**rest).len() as int,
            ) =~= nodes_m(*l).subrange(k as int, nodes_m(*l).len() as int));
            r
        },
    }
}

/// Whether the closure bound to `name` by the statement at position
/// `stmt_idx` of `block` is called in the statements after it and never
/// escapes there, so that it can be passed by reference.
pub fn closure_binding_is_nonescaping_use(block: &Node, stmt_idx: usize, name: &String) -> (b: bool)
    ensures
        b == nonescaping_use_m(block@, stmt_idx as nat, name@),
{
    let rest = match &block.children {
        Nodes::Nil => &block.children,
        Nodes::Cons(first, later) => {
            proof {
                lemma_cons(node_m(**first), nodes_m(**later));
            }
            statements_after(later, stmt_idx)
        },
    };
    proof {
        let cs = nodes_m(block.children);
        if cs.len() > 0 && stmt_idx + 1 < cs.len() {
            assert(cs.drop_first().subrange(stmt_idx as int, cs.drop_first().len() as int)
                =~= cs.subrange(stmt_idx + 1, cs.len() as int));
        }
    }
    let mut usage = ClosureBindingUsage { call_uses: 0, escapes: false };
    collect_closure_binding_usage_block(rest, name, &mut usage);
    usage.call_uses > 0 && !usage.escapes
}


// ----- laws -----

/// Leaving a position out of a list never makes a name occur free in it.
pub proof fn lemma_free_list_skip(cs: Seq<NodeM>, vs: Seq<Seq<char>>, skip: Option<nat>)
    ensures
        has_free_list_m(cs, vs, skip) ==> has_free_list_m(cs, vs, None),
    decreases cs.len(),
{
    if cs.len() > 0 {
        lemma_free_list_skip(cs.drop_first(), vs, next_position(skip));
    }
}

/// Removing names that are not there leaves a single name in place.
proof fn lemma_remove_absent_name(n: Seq<char>, ps: Seq<Seq<char>>)
    requires
        !ps.contains(n),
    ensures
        remove_names_m(seq![n], ps) == seq![n],
{
    let one = seq![n];
    assert(one.drop_last() =~= Seq::<Seq<char>>::empty());
    assert(one.last() == n);
    assert(remove_names_m(Seq::<Seq<char>>::empty(), ps) == Seq::<Seq<char>>::empty());
    assert(Seq::<Seq<char>>::empty().push(n) =~= one);
}

/// A closure binding that does not occur free in an expression is neither
/// called nor escapes there: reading the expression leaves its usage as it
/// was.
pub proof fn lemma_unmentioned_binding_unused(e: NodeM, n: Seq<char>, u: ClosureBindingUsage)
    requires
        !has_free_m(e, seq![n]),
    ensures
        usage_m(e, n, u) == u,
    decreases e, 2nat,
{
    if u.escapes {
        return;
    }
    match e.kind {
        Kind::Ident => {
            assert(seq![n][0] == n);
        },
        Kind::Call => {
            if e.children.len() > 0 {
                assert(!has_free_list_m(e.children, seq![n], None));
                lemma_ident_named_is_free(e.children[0], n);
                lemma_unmentioned_binding_unused(e.children[0], n, u);
                lemma_unmentioned_list_unused(e.children.drop_first(), n, u, None);
            }
        },
        Kind::MethodCall | Kind::Array | Kind::Tuple | Kind::BinaryOp | Kind::Index
        | Kind::Assign | Kind::Match | Kind::If | Kind::BlockExpr | Kind::Loop | Kind::Unsafe
        | Kind::Await | Kind::Parenthesized | Kind::UnaryOp | Kind::Reference { .. }
        | Kind::Arm => {
            lemma_unmentioned_list_unused(e.children, n, u, None);
        },
        Kind::Cast => {
            lemma_unmentioned_list_unused(e.children, n, u, Some(1));
        },
        Kind::IfLet => {
            lemma_free_list_skip(e.children, seq![n], Some(1));
            lemma_unmentioned_list_unused(e.children, n, u, Some(1));
            lemma_unmentioned_list_unused(e.children, n, u, None);
        },
        Kind::Block => {
            lemma_unmentioned_block_unused(e.children, n, u);
        },
        Kind::Closure { .. } | Kind::TypedClosure { .. } => {
            let ps = param_names_m(closure_params_m(e));
            if is_closure_node(e) && !ps.contains(n) {
                lemma_remove_absent_name(n, ps);
            }
        },
        _ => {},
    }
}

/// A callee that is the binding's name mentions it.
proof fn lemma_ident_named_is_free(e: NodeM, n: Seq<char>)
    ensures
        is_ident_named_m(e, n) ==> has_free_m(e, seq![n]),
    decreases e,
{
    if e.kind is Parenthesized && e.children.len() == 1 {
        lemma_ident_named_is_free(e.children[0], n);
        if is_ident_named_m(e, n) {
            assert(has_free_m(e.children[0], seq![n]));
            assert(has_free_list_m(e.children, seq![n], None));
        }
    } else {
        assert(seq![n][0] == n);
        assert(is_ident_named_m(e, n) ==> seq![n].contains(e.text));
    }
}

proof fn lemma_unmentioned_list_unused(
    cs: Seq<NodeM>,
    n: Seq<char>,
    u: ClosureBindingUsage,
    skip: Option<nat>,
)
    requires
        !has_free_list_m(cs, seq![n], skip),
    ensures
        usage_list_m(cs, n, u, skip) == u,
    decreases cs, 1nat,
{
    if cs.len() > 0 {
        if skip != Some(0nat) {
            lemma_unmentioned_binding_unused(cs[0], n, u);
        }
        lemma_unmentioned_list_unused(cs.drop_first(), n, u, next_position(skip));
    }
}

proof fn lemma_unmentioned_block_unused(cs: Seq<NodeM>, n: Seq<char>, u: ClosureBindingUsage)
    requires
        !has_free_block_m(cs, seq![n]),
    ensures
        usage_block_m(cs, n, u) == u,
    decreases cs, 0nat,
{
    if cs.len() > 0 {
        let st = cs[0];
        if st.kind is Let {
            lemma_unmentioned_list_unused(st.children, n, u, Some(0));
        } else if st.kind is ExprStmt || st.kind is Tail {
            lemma_unmentioned_list_unused(st.children, n, u, None);
        }
        lemma_unmentioned_block_unused(cs.drop_first(), n, u);
    }
}

/// A closure binding that no statement after its `let` mentions cannot be
/// passed by reference: it is never called there.
pub proof fn lemma_unmentioned_binding_not_borrowed(b: NodeM, i: nat, n: Seq<char>)
    requires
        !has_free_block_m(after_statement_m(b, i), seq![n]),
    ensures
        !nonescaping_use_m(b, i, n),
{
    lemma_unmentioned_block_unused(
        after_statement_m(b, i),
        n,
        ClosureBindingUsage { call_uses: 0, escapes: false },
    );
}


// ----- dereferenced names -----

/// Whether `e` dereferences the name `x` as `*x`, anywhere but in the
/// parameters of a closure and the types it holds.
pub open spec fn derefs_m(e: NodeM, x: Seq<char>) -> bool
    decreases e, 2nat,
{
    match e.kind {
        Kind::UnaryOp => if e.text == "*"@ && e.children.len() > 0 && e.children[0].kind is Ident {
            e.children[0].text == x
        } else {
            derefs_list_m(e.children, x, None)
        },
        Kind::MethodCall | Kind::Call | Kind::Array | Kind::Tuple | Kind::BinaryOp | Kind::Index
        | Kind::Assign | Kind::Match | Kind::Arm | Kind::If | Kind::IfLet | Kind::BlockExpr
        | Kind::Loop | Kind::Unsafe | Kind::Await | Kind::Parenthesized | Kind::Reference { .. }
        | Kind::BuilderChain | Kind::Spawn => derefs_list_m(e.children, x, None),
        Kind::Cast => derefs_list_m(e.children, x, Some(1)),
        Kind::Closure { .. } | Kind::TypedClosure { .. } => e.children.len() > 0 && derefs_m(
            e.children[0],
            x,
        ),
        Kind::Block => derefs_block_m(e.children, x),
        _ => false,
    }
}

/// Whether one of `cs`, the one at position `skip` left out, dereferences `x`.
pub open spec fn derefs_list_m(cs: Seq<NodeM>, x: Seq<char>, skip: Option<nat>) -> bool
    decreases cs, 1nat,
{
    cs.len() > 0 && ((skip != Some(0nat) && derefs_m(cs[0], x)) || derefs_list_m(
        cs.drop_first(),
        x,
        next_position(skip),
    ))
}

/// Whether the statements `cs` of a block dereference `x`: in the
/// initializer of a `let`, an expression statement or the tail.
pub open spec fn derefs_block_m(cs: Seq<NodeM>, x: Seq<char>) -> bool
    decreases cs, 0nat,
{
    cs.len() > 0 && ((cs[0].kind is Let && derefs_list_m(cs[0].children, x, Some(0))) || ((
    cs[0].kind is ExprStmt || cs[0].kind is Tail) && derefs_list_m(cs[0].children, x, None))
        || derefs_block_m(cs.drop_first(), x))
}

/// A set of names held in a vector: each name once.
pub open spec fn name_set_ok(v: Seq<String>) -> bool {
    views(v).no_duplicates()
}

/// Adds `name` to the names `out`, where it is not there yet.
pub fn insert_name(out: &mut Vec<String>, name: &String)
    requires
        name_set_ok(old(out)@),
    ensures
        name_set_ok(final(out)@),
        forall|x: Seq<char>| #[trigger]
            views(final(out)@).contains(x) <==> views(old(out)@).contains(x) || x == name@,
{
    if !contains_text(out, name) {
        let ghost before = views(out@);
        out.push(string_of(name.as_str()));
        assert(views(out@) =~= before.push(name@));
        assert forall|x: Seq<char>| #[trigger] views(out@).contains(x) implies before.contains(x)
            || x == name@ by {
            let k = choose|k: int| 0 <= k < views(out@).len() && views(out@)[k] == x;
            if k < before.len() {
                assert(before[k] == x);
            }
        }
        assert forall|x: Seq<char>| before.contains(x) || x == name@ implies #[trigger] views(
            out@,
        ).contains(x) by {
            if x == name@ {
                assert(views(out@)[before.len() as int] == x);
            } else {
                let k = choose|k: int| 0 <= k < before.len() && before[k] == x;
                assert(views(out@)[k] == x);
            }
        }
    }
}

/// Adds to `out` each name that `e` dereferences as `*name`.
pub fn collect_deref_ident_uses_expr(e: &Node, out: &mut Vec<String>)
    requires
        name_set_ok(old(out)@),
    ensures
        name_set_ok(final(out)@),
        forall|x: Seq<char>| #[trigger]
            views(final(out)@).contains(x) <==> views(old(out)@).contains(x) || derefs_m(e@, x),
    decreases e, 2nat,
{
    match e.kind {
        Kind::UnaryOp => {
            if is_deref_operator(&e.text) {
                match &e.children {
                    Nodes::Cons(inner, rest) => {
                        proof {
                            lemma_cons(node_m(**inner), nodes_m(**rest));
                        }
                        if matches!(inner.kind, Kind::Ident) {
                            insert_name(out, &inner.text);
                            return;
                        }
                    },
                    Nodes::Nil => {},
                }
            }
            collect_deref_ident_uses_list(&e.children, out, None);
        },
        Kind::MethodCall | Kind::Call | Kind::Array | Kind::Tuple | Kind::BinaryOp | Kind::Index
        | Kind::Assign | Kind::Match | Kind::Arm | Kind::If | Kind::IfLet | Kind::BlockExpr
        | Kind::Loop | Kind::Unsafe | Kind::Await | Kind::Parenthesized | Kind::Reference { .. }
        | Kind::BuilderChain | Kind::Spawn => {
            collect_deref_ident_uses_list(&e.children, out, None);
        },
        Kind::Cast => {
            collect_deref_ident_uses_list(&e.children, out, Some(1));
        },
        Kind::Closure { .. } | Kind::TypedClosure { .. } => {
            match &e.children {
                Nodes::Cons(body, rest) => {
                    proof {
                        lemma_cons(node_m(**body), nodes_m(**rest));
                    }
                    collect_deref_ident_uses_expr(body, out);
                },
                Nodes::Nil => {},
            }
        },
        Kind::Block => {
            collect_deref_ident_uses_block(&e.children, out);
        },
        _ => {},
    }
}

/// Whether `op` is the dereference operator.
fn is_deref_operator(op: &String) -> (b: bool)
    ensures
        b == (op@ == "*"@),
{
    crate::text::is_text(op, "*")
}

fn collect_deref_ident_uses_list(l: &Nodes, out: &mut Vec<String>, skip: Option<usize>)
    requires
        name_set_ok(old(out)@),
    ensures
        name_set_ok(final(out)@),
        forall|x: Seq<char>| #[trigger]
            views(final(out)@).contains(x) <==> views(old(out)@).contains(x) || derefs_list_m(
                nodes_m(*l),
                x,
                position_m(skip),
            ),
    decreases l, 1nat,
{
    match l {
        Nodes::Nil => {},
        Nodes::Cons(h, rest) => {
            proof {
                lemma_cons(node_m(**h), nodes_m(**rest));
            }
            if skip != Some(0usize) {
                collect_deref_ident_uses_expr(h, out);
            }
            collect_deref_ident_uses_list(rest, out, next_pos(skip));
        },
    }
}

/// Adds to `out` each name that the statements `l` of a block dereference.
pub fn collect_deref_ident_uses_block(l: &Nodes, out: &mut Vec<String>)
    requires
        name_set_ok(old(out)@),
    ensures
        name_set_ok(final(out)@),
        forall|x: Seq<char>| #[trigger]
            views(final(out)@).contains(x) <==> views(old(out)@).contains(x) || derefs_block_m(
                nodes_m(*l),
                x,
            ),
    decreases l, 0nat,
{
    match l {
        Nodes::Nil => {},
        Nodes::Cons(st, rest) => {
            proof {
                lemma_cons(node_m(**st), nodes_m(**rest));
            }
            if matches!(st.kind, Kind::Let { .. }) {
                collect_deref_ident_uses_list(&st.children, out, Some(0));
            } else if matches!(st.kind, Kind::ExprStmt) || matches!(st.kind, Kind::Tail) {
                collect_deref_ident_uses_list(&st.children, out, None);
            }
            collect_deref_ident_uses_block(rest, out);
        },
    }
}

} // verus!
