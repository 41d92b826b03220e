//! Beta-reduction of immediately applied closures.
//!
//! The pass rewrites the generated shape `(*Rc::new(move |p..| body))(a..)`
//! into `body` with each parameter replaced by its argument, where every
//! parameter is a plain name read exactly once in the body and every
//! argument is simple (a name, a path, a literal, a clone of a name or a
//! dereference of one), so that no evaluation is duplicated, dropped or
//! reordered. Each call is tried after its callee and arguments have been
//! reduced.
use vstd::prelude::*;

use crate::ast::{Kind, Node, Nodes};
use crate::binding_cleanup::{is_binding_ident, is_binding_ident_m};
use crate::boolean_cleanup::{bump_count, strip_parens_m, strip_parentheses};
use crate::closure_cleanup::{
    next_pos, next_position, pattern_binds_name, pattern_binds_name_m, position_m, saturated,
    skip_mut_prefixes, strip_mut_m, subst, subst_m, subst_view,
};
use crate::model::{
    child, copy_node, has_len, lemma_child_smaller, lemma_cons, lemma_size_positive,
    lemma_sizes_cons, mk, node_m, nodes_m, size, sizes, NodeM,
};
use crate::text::{
    contains_text, drop_trailing_whitespace, is_text, skip_whitespace, substring, trim_m, views,
};

verus! {

/// Counts of what a beta-reduction run did.
#[derive(Debug, Clone, Copy, PartialEq, Eq, Structural)]
pub struct ClosureOptAnalysis {
    /// Immediately applied closures replaced by their bodies.
    pub beta_reductions: usize,
}

impl ClosureOptAnalysis {
    /// An analysis with the count at zero.
    pub fn new() -> (a: ClosureOptAnalysis)
        ensures
            a.beta_reductions == 0,
    {
        ClosureOptAnalysis { beta_reductions: 0 }
    }
}

impl Default for ClosureOptAnalysis {
    fn default() -> (a: ClosureOptAnalysis)
        ensures
            a.beta_reductions == 0,
    {
        ClosureOptAnalysis::new()
    }
}

// ----- parameter names -----

/// The position of the first `:` of `s` from `i` on, or the length of `s`.
pub open spec fn colon_from_m(s: Seq<char>, i: nat) -> nat
    decreases s.len() - i,
{
    if i >= s.len() {
        s.len()
    } else if s[i as int] == ':' {
        i
    } else {
        colon_from_m(s, i + 1)
    }
}

/// The name a closure parameter written `p` binds: `p` without its leading
/// `mut ` prefixes and anything from its first `:` on, trimmed.
pub open spec fn param_name_m(p: Seq<char>) -> Seq<char> {
    let q = strip_mut_m(p);
    trim_m(q.take(colon_from_m(q, 0) as int))
}

/// The names the closure parameters `ps` bind.
pub open spec fn param_names_m(ps: Seq<NodeM>) -> Seq<Seq<char>> {
    ps.map_values(|p: NodeM| param_name_m(p.text))
}

/// The parameters of a closure node.
pub open spec fn params_of_m(e: NodeM) -> Seq<NodeM> {
    if e.kind is TypedClosure {
        e.children.subrange(2, e.children.len() as int)
    } else {
        e.children.drop_first()
    }
}

/// Whether `e` is a closure node with its body and parameters in place.
pub open spec fn closure_shape_m(e: NodeM) -> bool {
    (e.kind is Closure && e.children.len() >= 1) || (e.kind is TypedClosure && e.children.len()
        >= 2)
}

// ----- reads -----

/// The number of free reads of the name `n` in `e`: the occurrences of `n`
/// as a name or as the head of a member path that no closure parameter,
/// pattern or `let` around them rebinds.
pub open spec fn reads_m(e: NodeM, n: Seq<char>) -> nat
    decreases e, 2nat,
{
    match e.kind {
        Kind::Ident => if e.text == n {
            1
        } else {
            0
        },
        Kind::Path { member } => if member && e.children.len() > 0 && e.children[0].text == n {
            1
        } else {
            0
        },
        Kind::Macro | Kind::Literal | Kind::Bool(_) => 0,
        Kind::IfLet => reads_list_m(
            e.children,
            n,
            if pattern_binds_name_m(e.text, n) {
                Some(1)
            } else {
                None
            },
        ),
        Kind::Arm => if pattern_binds_name_m(e.text, n) {
            0
        } else {
            reads_list_m(e.children, n, None)
        },
        Kind::Closure { .. } | Kind::TypedClosure { .. } => {
            if closure_shape_m(e) && !param_names_m(params_of_m(e)).contains(n) {
                reads_m(e.children[0], n)
            } else {
                0
            }
        },
        Kind::Block => reads_block_m(e.children, n),
        _ => reads_list_m(e.children, n, None),
    }
}

/// The reads of `n` in each of `cs` but the one at position `skip`.
pub open spec fn reads_list_m(cs: Seq<NodeM>, n: Seq<char>, skip: Option<nat>) -> nat
    decreases cs, 1nat,
{
    if cs.len() == 0 {
        0
    } else {
        (if skip == Some(0nat) {
            0
        } else {
            reads_m(cs[0], n)
        }) + reads_list_m(cs.drop_first(), n, next_position(skip))
    }
}

/// The reads of `n` in the statements `cs` of a block, up to the `let` that
/// rebinds `n`: its initializer still reads the outer `n`, and nothing after
/// it, the value of the block included, does.
pub open spec fn reads_block_m(cs: Seq<NodeM>, n: Seq<char>) -> nat
    decreases cs, 0nat,
{
    if cs.len() == 0 {
        0
    } else {
        let st = cs[0];
        if st.kind is Let {
            reads_list_m(st.children, n, None) + if pattern_binds_name_m(st.text, n) {
                0
            } else {
                reads_block_m(cs.drop_first(), n)
            }
        } else if st.kind is ExprStmt || st.kind is Tail {
            reads_list_m(st.children, n, None) + reads_block_m(cs.drop_first(), n)
        } else {
            reads_block_m(cs.drop_first(), n)
        }
    }
}

// ----- the rule -----

/// Whether `e` is a name or a path.
pub open spec fn name_like_m(e: NodeM) -> bool {
    e.kind is Ident || e.kind is Path
}

/// Whether `e`, under its parentheses, is an argument simple enough to be
/// moved into the closure body: a name, a path, a literal, `x.clone()` or
/// `*x` of a name or path `x`.
pub open spec fn simple_arg_m(e: NodeM) -> bool {
    let a = strip_parens_m(e);
    ||| a.kind is Ident
    ||| a.kind is Path
    ||| a.kind is Literal
    ||| a.kind is Bool
    ||| (a.kind is MethodCall && a.text == "clone"@ && a.children.len() == 1 && name_like_m(
        strip_parens_m(a.children[0]),
    ))
    ||| (a.kind is UnaryOp && a.text == "*"@ && a.children.len() == 1 && name_like_m(
        strip_parens_m(a.children[0]),
    ))
}

/// Whether `e` is the path `Rc::new`.
pub open spec fn is_rc_new_path_m(e: NodeM) -> bool {
    &&& e.kind == (Kind::Path { member: false })
    &&& e.children.len() == 2
    &&& e.children[0].text == "Rc"@
    &&& e.children[1].text == "new"@
}

/// The closure that the callee `callee` applies when it is
/// `*Rc::new(move |..| body)`, looking through parentheses.
pub open spec fn applied_closure_m(callee: NodeM) -> Option<NodeM> {
    let c = strip_parens_m(callee);
    if c.kind is UnaryOp && c.text == "*"@ && c.children.len() == 1 {
        let inner = strip_parens_m(c.children[0]);
        if inner.kind is Call && inner.children.len() == 2 && is_rc_new_path_m(inner.children[0]) {
            let cl = strip_parens_m(inner.children[1]);
            if cl.kind == (Kind::Closure { moves: true }) && cl.children.len() >= 1 {
                Some(cl)
            } else {
                None
            }
        } else {
            None
        }
    } else {
        None
    }
}

/// Whether each parameter of `params` is a plain name read exactly once in
/// `body` and each argument of `args` (in step) is simple.
pub open spec fn args_ok_m(params: Seq<NodeM>, args: Seq<NodeM>, body: NodeM) -> bool
    decreases params.len(),
{
    if params.len() == 0 || args.len() == 0 {
        true
    } else {
        let name = param_name_m(params[0].text);
        &&& is_binding_ident_m(name)
        &&& reads_m(body, name) == 1
        &&& simple_arg_m(args[0])
        &&& args_ok_m(params.drop_first(), args.drop_first(), body)
    }
}

/// The substitution of the arguments `args` for the parameters `params`;
/// where two parameters share a name, the later one's argument is used.
pub open spec fn bindings_m(params: Seq<NodeM>, args: Seq<NodeM>) -> Seq<(Seq<char>, NodeM)>
    decreases params.len(),
{
    if params.len() == 0 || args.len() == 0 {
        Seq::empty()
    } else {
        bindings_m(params.drop_first(), args.drop_first()) + seq![
            (param_name_m(params[0].text), args[0]),
        ]
    }
}

/// `e` without the block around it when that block is made of a value
/// only.
pub open spec fn unblock_m(e: NodeM) -> NodeM {
    if e.kind is BlockExpr && e.children.len() == 1 && e.children[0].kind is Block
        && e.children[0].children.len() == 1 && e.children[0].children[0].kind is Tail
        && e.children[0].children[0].children.len() == 1 {
        e.children[0].children[0].children[0]
    } else {
        e
    }
}

/// What the call `call` reduces to, where it applies an immediately created
/// `move` closure to as many arguments as it has parameters, each parameter
/// read once and each argument simple.
pub open spec fn reduce_m(call: NodeM) -> Option<NodeM> {
    if call.children.len() >= 1 && applied_closure_m(call.children[0]) is Some {
        let cl = applied_closure_m(call.children[0])->0;
        let params = cl.children.drop_first();
        let body = cl.children[0];
        let args = call.children.drop_first();
        if params.len() == args.len() && args_ok_m(params, args, body) {
            Some(unblock_m(subst_m(body, bindings_m(params, args))))
        } else {
            None
        }
    } else {
        None
    }
}

/// Node `n` with its calls reduced, inside out, counting into `a`.
pub open spec fn beta_m(n: NodeM, a: ClosureOptAnalysis) -> (NodeM, ClosureOptAnalysis)
    decreases n, 1nat,
{
    let (cs, a1) = beta_list_m(n.children, a);
    let n1 = mk(n.kind, n.text, cs);
    if n.kind is Call && reduce_m(n1) is Some {
        (reduce_m(n1)->0, ClosureOptAnalysis { beta_reductions: bump_count(a1.beta_reductions) })
    } else {
        (n1, a1)
    }
}

pub open spec fn beta_list_m(cs: Seq<NodeM>, a: ClosureOptAnalysis) -> (Seq<NodeM>, ClosureOptAnalysis)
    decreases cs, 0nat,
{
    if cs.len() == 0 {
        (cs, a)
    } else {
        let (h, a1) = beta_m(cs[0], a);
        let (t, a2) = beta_list_m(cs.drop_first(), a1);
        (seq![h] + t, a2)
    }
}

// ----- executable names and reads -----

/// The position of the first `:` of `q` from `i` on, or the length of `q`.
fn colon_index(q: &str, i: usize) -> (r: usize)
    requires
        i <= q@.len(),
    ensures
        r == colon_from_m(q@, i as nat),
        r <= q@.len(),
    decreases q@.len() - i,
{
    if i >= q.unicode_len() {
        i
    } else if q.get_char(i) == ':' {
        i
    } else {
        colon_index(q, i + 1)
    }
}

/// The name a closure parameter written `p` binds.
fn param_name(p: &String) -> (r: String)
    ensures
        r@ == param_name_m(p@),
{
    let s = p.as_str();
    let n = s.unicode_len();
    let k = skip_mut_prefixes(s, 0);
    assert(s@.subrange(0, n as int) =~= p@);
    let q = substring(s, k, n);
    let qs = q.as_str();
    let c = colon_index(qs, 0);
    assert(q@.take(c as int) =~= q@.subrange(0, c as int));
    let k1 = skip_whitespace(qs, 0, c);
    let k2 = drop_trailing_whitespace(qs, k1, c);
    substring(qs, k1, k2)
}

/// The names the closure parameters `l` bind.
fn param_names(l: &Nodes) -> (r: Vec<String>)
    ensures
        views(r@) == param_names_m(nodes_m(*l)),
    decreases l,
{
    match l {
        Nodes::Nil => {
            let r: Vec<String> = Vec::new();
            assert(views(r@) =~= param_names_m(nodes_m(*l)));
            r
        },
        Nodes::Cons(h, rest) => {
            proof {
                lemma_cons(node_m(**h), nodes_m(**rest));
            }
            let name = param_name(&h.text);
            let mut r: Vec<String> = Vec::new();
            r.push(name);
            let mut tail = param_names(rest);
            let ghost tv = tail@;
            r.append(&mut tail);
            assert(r@ =~= seq![name] + tv);
            assert(views(r@) =~= seq![name@] + views(tv));
            assert(param_names_m(nodes_m(*l)) =~= seq![param_name_m(h.text@)] + param_names_m(
                nodes_m(**rest),
            ));
            r
        },
    }
}

/// The number of free reads of `n` in `e`, saturated.
fn reads(e: &Node, n: &String) -> (r: usize)
    ensures
        r == saturated(reads_m(e@, n@)),
    decreases size(e@), 0nat,
{
    proof {
        lemma_size_positive(e@);
    }
    match e.kind {
        Kind::Ident => if e.text == *n {
            1
        } else {
            0
        },
        Kind::Path { member } => {
            if member {
                match child(&e.children, 0) {
                    Some(first) => if first.text == *n {
                        1
                    } else {
                        0
                    },
                    None => 0,
                }
            } else {
                0
            }
        },
        Kind::Macro | Kind::Literal | Kind::Bool(_) => 0,
        Kind::IfLet => {
            let skip = if pattern_binds_name(&e.text, n) {
                Some(1usize)
            } else {
                None
            };
            reads_list(&e.children, n, skip)
        },
        Kind::Arm => if pattern_binds_name(&e.text, n) {
            0
        } else {
            reads_list(&e.children, n, None)
        },
        Kind::Closure { .. } | Kind::TypedClosure { .. } => {
            let skip: usize = if matches!(e.kind, Kind::TypedClosure { .. }) {
                2
            } else {
                1
            };
            if child(&e.children, skip - 1).is_none() {
                return 0;
            }
            let names = param_names(skip_list(&e.children, skip));
            assert(nodes_m(e.children).drop_first() =~= nodes_m(e.children).subrange(
                1,
                nodes_m(e.children).len() as int,
            ));
            if contains_text(&names, n) {
                return 0;
            }
            match child(&e.children, 0) {
                Some(body) => {
                    proof {
                        lemma_child_smaller(e@, 0);
                    }
                    reads(body, n)
                },
                None => 0,
            }
        },
        Kind::Block => reads_block(&e.children, n),
        _ => reads_list(&e.children, n, None),
    }
}

fn reads_list(l: &Nodes, n: &String, skip: Option<usize>) -> (r: usize)
    ensures
        r == saturated(reads_list_m(nodes_m(*l), n@, position_m(skip))),
    decreases sizes(nodes_m(*l)), 1nat,
{
    match l {
        Nodes::Nil => 0,
        Nodes::Cons(h, rest) => {
            proof {
                lemma_cons(node_m(**h), nodes_m(**rest));
                lemma_sizes_cons(node_m(**h), nodes_m(**rest));
            }
            let here = if skip == Some(0usize) {
                0
            } else {
                reads(h, n)
            };
            let later = reads_list(rest, n, next_pos(skip));
            here.saturating_add(later)
        },
    }
}

fn reads_block(l: &Nodes, n: &String) -> (r: usize)
    ensures
        r == saturated(reads_block_m(nodes_m(*l), n@)),
    decreases sizes(nodes_m(*l)), 2nat,
{
    match l {
        Nodes::Nil => 0,
        Nodes::Cons(st, rest) => {
            proof {
                lemma_cons(node_m(**st), nodes_m(**rest));
                lemma_sizes_cons(node_m(**st), nodes_m(**rest));
                lemma_size_positive(node_m(**st));
            }
            if matches!(st.kind, Kind::Let { .. }) {
                let here = reads_list(&st.children, n, None);
                let later = if pattern_binds_name(&st.text, n) {
                    0
                } else {
                    reads_block(rest, n)
                };
                here.saturating_add(later)
            } else if matches!(st.kind, Kind::ExprStmt) || matches!(st.kind, Kind::Tail) {
                let here = reads_list(&st.children, n, None);
                here.saturating_add(reads_block(rest, n))
            } else {
                reads_block(rest, n)
            }
        },
    }
}

/// The list `l` without its first `k` nodes.
fn skip_list(l: &Nodes, k: usize) -> (r: &Nodes)
    requires
        k <= nodes_m(*l).len(),
    ensures
        nodes_m(*r) == nodes_m(*l).subrange(k as int, nodes_m(*l).len() as int),
    decreases l,
{
    if k == 0 {
        assert(nodes_m(*l).subrange(0, nodes_m(*l).len() as int) =~= nodes_m(*l));
        return l;
    }
    match l {
        Nodes::Nil => l,
        Nodes::Cons(h, rest) => {
            proof {
                lemma_cons(node_m(**h), nodes_m(**rest));
            }
            let r = skip_list(rest, k - 1);
            assert(nodes_m(**rest).subrange((k - 1) as int, nodes_m(**rest).len() as int)
                =~= nodes_m(*l).subrange(k as int, nodes_m(*l).len() as int));
            r
        },
    }
}

// ----- executable rule -----

/// Whether `e` is a name or a path.
fn name_like(e: &Node) -> (b: bool)
    ensures
        b == name_like_m(e@),
{
    matches!(e.kind, Kind::Ident | Kind::Path { .. })
}

/// Whether `e` is an argument simple enough to be moved into a closure
/// body.
fn is_simple_arg(e: &Node) -> (b: bool)
    ensures
        b == simple_arg_m(e@),
{
    let a = strip_parentheses(e);
    match a.kind {
        Kind::Ident | Kind::Path { .. } | Kind::Literal | Kind::Bool(_) => true,
        Kind::MethodCall => {
            is_text(&a.text, "clone") && has_len(&a.children, 1) && name_like(
                strip_parentheses(child(&a.children, 0).unwrap()),
            )
        },
        Kind::UnaryOp => {
            is_text(&a.text, "*") && has_len(&a.children, 1) && name_like(
                strip_parentheses(child(&a.children, 0).unwrap()),
            )
        },
        _ => false,
    }
}

/// Whether `e` is the path `Rc::new`.
fn is_rc_new_path(e: &Node) -> (b: bool)
    ensures
        b == is_rc_new_path_m(e@),
{
    if !matches!(e.kind, Kind::Path { member: false }) || !has_len(&e.children, 2) {
        return false;
    }
    is_text(&child(&e.children, 0).unwrap().text, "Rc") && is_text(
        &child(&e.children, 1).unwrap().text,
        "new",
    )
}

/// The closure that `callee` applies when it is `*Rc::new(move |..| body)`.
fn applied_closure(callee: &Node) -> (r: Option<&Node>)
    ensures
        match applied_closure_m(callee@) {
            None => r is None,
            Some(c) => r matches Some(x) && x@ == c,
        },
{
    let c = strip_parentheses(callee);
    if !matches!(c.kind, Kind::UnaryOp) || !is_text(&c.text, "*") || !has_len(&c.children, 1) {
        return None;
    }
    let inner = strip_parentheses(child(&c.children, 0).unwrap());
    if !matches!(inner.kind, Kind::Call) || !has_len(&inner.children, 2) || !is_rc_new_path(
        child(&inner.children, 0).unwrap(),
    ) {
        return None;
    }
    let cl = strip_parentheses(child(&inner.children, 1).unwrap());
    if matches!(cl.kind, Kind::Closure { moves: true }) && child(&cl.children, 0).is_some() {
        Some(cl)
    } else {
        None
    }
}

/// Whether each parameter of `params` is a plain name read once in `body`
/// and each argument of `args` is simple.
fn args_ok(params: &Nodes, args: &Nodes, body: &Node) -> (b: bool)
    ensures
        b == args_ok_m(nodes_m(*params), nodes_m(*args), body@),
    decreases params,
{
    match (params, args) {
        (Nodes::Cons(p, ps), Nodes::Cons(a, r)) => {
            proof {
                lemma_cons(node_m(**p), nodes_m(**ps));
                lemma_cons(node_m(**a), nodes_m(**r));
            }
            let name = param_name(&p.text);
            is_binding_ident(&name) && reads(body, &name) == 1 && is_simple_arg(a) && args_ok(
                ps,
                r,
                body,
            )
        },
        _ => true,
    }
}

/// Appends the substitution of `args` for `params` to `out`.
fn push_bindings(params: &Nodes, args: &Nodes, out: &mut Vec<(String, Node)>)
    ensures
        subst_view(final(out)@) == subst_view(old(out)@) + bindings_m(
            nodes_m(*params),
            nodes_m(*args),
        ),
    decreases params,
{
    match (params, args) {
        (Nodes::Cons(p, ps), Nodes::Cons(a, r)) => {
            proof {
                lemma_cons(node_m(**p), nodes_m(**ps));
                lemma_cons(node_m(**a), nodes_m(**r));
            }
            let ghost before = subst_view(out@);
            push_bindings(ps, r, out);
            let ghost mid = subst_view(out@);
            let name = param_name(&p.text);
            out.push((name, copy_node(a)));
            assert(subst_view(out@) =~= mid.push((name@, a@)));
            assert(subst_view(out@) =~= before + bindings_m(nodes_m(*params), nodes_m(*args)));
        },
        _ => {
            assert(subst_view(out@) + bindings_m(nodes_m(*params), nodes_m(*args)) =~= subst_view(
                out@,
            ));
        },
    }
}

/// `e` without the block around it when that block is made of a value.
fn unblock(e: Node) -> (r: Node)
    ensures
        r@ == unblock_m(e@),
{
    if matches!(e.kind, Kind::BlockExpr) && has_len(&e.children, 1) {
        let b = child(&e.children, 0).unwrap();
        if matches!(b.kind, Kind::Block) && has_len(&b.children, 1) {
            let t = child(&b.children, 0).unwrap();
            if matches!(t.kind, Kind::Tail) && has_len(&t.children, 1) {
                return copy_node(child(&t.children, 0).unwrap());
            }
        }
    }
    e
}

/// What the call `call` reduces to, if it reduces.
fn reduce(call: &Node) -> (r: Option<Node>)
    ensures
        match reduce_m(call@) {
            None => r is None,
            Some(x) => r matches Some(y) && y@ == x,
        },
{
    let (callee, args) = match &call.children {
        Nodes::Cons(h, rest) => {
            proof {
                lemma_cons(node_m(**h), nodes_m(**rest));
            }
            (&**h, &**rest)
        },
        Nodes::Nil => {
            return None;
        },
    };
    let cl = match applied_closure(callee) {
        Some(c) => c,
        None => {
            return None;
        },
    };
    let (body, params) = match &cl.children {
        Nodes::Cons(h, rest) => {
            proof {
                lemma_cons(node_m(**h), nodes_m(**rest));
            }
            (&**h, &**rest)
        },
        Nodes::Nil => {
            return None;
        },
    };
    if !same_len(params, args) {
        return None;
    }
    if !args_ok(params, args, body) {
        return None;
    }
    let mut s: Vec<(String, Node)> = Vec::new();
    assert(subst_view(s@) =~= Seq::<(Seq<char>, NodeM)>::empty());
    push_bindings(params, args, &mut s);
    assert(subst_view(s@) =~= bindings_m(nodes_m(*params), nodes_m(*args)));
    Some(unblock(subst(body, &s)))
}

/// Whether `a` and `b` hold as many nodes.
fn same_len(a: &Nodes, b: &Nodes) -> (r: bool)
    ensures
        r == (nodes_m(*a).len() == nodes_m(*b).len()),
    decreases a,
{
    match (a, b) {
        (Nodes::Nil, Nodes::Nil) => true,
        (Nodes::Cons(h, t), Nodes::Cons(h2, t2)) => {
            proof {
                lemma_cons(node_m(**h), nodes_m(**t));
                lemma_cons(node_m(**h2), nodes_m(**t2));
            }
            same_len(t, t2)
        },
        (Nodes::Nil, Nodes::Cons(h2, t2)) => {
            proof {
                lemma_cons(node_m(**h2), nodes_m(**t2));
            }
            false
        },
        (Nodes::Cons(h, t), Nodes::Nil) => {
            proof {
                lemma_cons(node_m(**h), nodes_m(**t));
            }
            false
        },
    }
}

// ----- executable traversal -----

fn bump(x: usize) -> (r: usize)
    ensures
        r == bump_count(x),
{
    if x < usize::MAX {
        x + 1
    } else {
        x
    }
}

/// Node `n` with its calls reduced, counting into `a`.
fn beta(n: &Node, a: &mut ClosureOptAnalysis) -> (r: Node)
    ensures
        (r@, *final(a)) == beta_m(n@, *old(a)),
    decreases n,
{
    let cs = beta_list(&n.children, a);
    let n1 = Node { kind: n.kind, text: n.text.clone(), children: cs };
    if matches!(n.kind, Kind::Call) {
        match reduce(&n1) {
            Some(r) => {
                a.beta_reductions = bump(a.beta_reductions);
                return r;
            },
            None => {},
        }
    }
    n1
}

fn beta_list(l: &Nodes, a: &mut ClosureOptAnalysis) -> (r: Nodes)
    ensures
        (nodes_m(r), *final(a)) == beta_list_m(nodes_m(*l), *old(a)),
    decreases l,
{
    match l {
        Nodes::Nil => Nodes::Nil,
        Nodes::Cons(h, rest) => {
            proof {
                lemma_cons(node_m(**h), nodes_m(**rest));
            }
            let h2 = beta(h, a);
            let t = beta_list(rest, a);
            let r = Nodes::Cons(Box::new(h2), Box::new(t));
            assert(nodes_m(r) == seq![h2@] + nodes_m(t));
            r
        },
    }
}

/// Beta-reduces the immediately applied closures of `module`, inside out,
/// and returns how many it reduced.
pub fn optimize_closure(module: &mut Node) -> (analysis: ClosureOptAnalysis)
    ensures
        (final(module)@, analysis) == beta_m(old(module)@, ClosureOptAnalysis { beta_reductions: 0 }),
{
    let mut analysis = ClosureOptAnalysis::new();
    let reduced = beta(module, &mut analysis);
    *module = reduced;
    analysis
}

} // verus!
