//! Collapsing of immutable, untyped bindings that a block returns at once.
//!
//! A block ending in `let x = e; x` becomes a block ending in `e`, and one
//! ending in `let x = e; x.clone()` becomes one ending in `e.clone()`. The
//! rewrite repeats until the block no longer ends that way, and it reaches
//! every block of the tree, inner blocks first.
use vstd::prelude::*;
use vstd::string::*;

use crate::ast::{Kind, Node, Nodes};
use crate::model::{
    copy_node, lemma_cons, mk, node1, node_m, nodes_from_vec, nodes_into_vec, nodes_m, views_m,
    NodeM,
};
use crate::text::{is_text, string_of};

verus! {

// ----- the rule -----

/// Whether `c` is an ASCII letter.
pub open spec fn is_ascii_letter(c: char) -> bool {
    ('a' <= c && c <= 'z') || ('A' <= c && c <= 'Z')
}

/// Whether `c` is an ASCII letter or digit.
pub open spec fn is_ascii_letter_or_digit(c: char) -> bool {
    is_ascii_letter(c) || ('0' <= c && c <= '9')
}

/// Whether `s` is a word that a pattern reserves.
pub open spec fn is_reserved_pattern_word_m(s: Seq<char>) -> bool {
    s == "box"@ || s == "false"@ || s == "mut"@ || s == "ref"@ || s == "self"@ || s == "true"@
}

/// Whether `s` is a plain identifier that a `let` can bind: a letter or `_`
/// followed by letters, digits and `_`, other than `_` alone and the reserved
/// pattern words.
pub open spec fn is_binding_ident_m(s: Seq<char>) -> bool {
    &&& s.len() >= 1
    &&& (s[0] == '_' || is_ascii_letter(s[0]))
    &&& s != "_"@
    &&& !is_reserved_pattern_word_m(s)
    &&& forall|i: int| 1 <= i < s.len() ==> (s[i] == '_' || is_ascii_letter_or_digit(#[trigger] s[i]))
}

/// Whether `l` is `let name = init;` with `name` a plain identifier, no
/// `mut` and no type.
pub open spec fn is_plain_binding_m(l: NodeM) -> bool {
    &&& l.kind == (Kind::Let { mutable: false })
    &&& l.children.len() == 2
    &&& l.children[0].kind is Absent
    &&& !(l.children[1].kind is Absent)
    &&& is_binding_ident_m(l.text)
}

/// The expression that replaces a block's final binding and tail, when the
/// statements `cs` of the block end with `let x = e;` and the tail `x` or
/// `x.clone()`.
pub open spec fn trailing_replacement_m(cs: Seq<NodeM>) -> Option<NodeM> {
    if cs.len() >= 2 && cs.last().kind is Tail && cs.last().children.len() == 1
        && is_plain_binding_m(cs[cs.len() - 2]) {
        let binding = cs[cs.len() - 2];
        let init = binding.children[1];
        let t = cs.last().children[0];
        if t.kind is Ident && t.text == binding.text {
            Some(init)
        } else if t.kind is MethodCall && t.text == "clone"@ && t.children.len() == 1
            && t.children[0].kind is Ident && t.children[0].text == binding.text {
            Some(mk(Kind::MethodCall, "clone"@, seq![init]))
        } else {
            None
        }
    } else {
        None
    }
}

/// The statements `cs` with their final binding folded into the tail until
/// no more can be.
pub open spec fn collapse_m(cs: Seq<NodeM>) -> Seq<NodeM>
    decreases cs.len(),
{
    match trailing_replacement_m(cs) {
        None => cs,
        Some(r) => collapse_m(
            cs.subrange(0, cs.len() - 2).push(mk(Kind::Tail, cs.last().text, seq![r])),
        ),
    }
}

/// A block with its trailing bindings collapsed.
pub open spec fn collapse_block_m(b: NodeM) -> NodeM {
    mk(b.kind, b.text, collapse_m(b.children))
}

// ----- the traversal -----

/// The tree `n` with every block collapsed, inner blocks first.
pub open spec fn bind_m(n: NodeM) -> NodeM
    decreases n, 1nat,
{
    let cs = bind_list_m(n.children);
    if n.kind is Block {
        mk(n.kind, n.text, collapse_m(cs))
    } else {
        mk(n.kind, n.text, cs)
    }
}

pub open spec fn bind_list_m(cs: Seq<NodeM>) -> Seq<NodeM>
    decreases cs, 0nat,
{
    if cs.len() == 0 {
        cs
    } else {
        seq![bind_m(cs[0])] + bind_list_m(cs.drop_first())
    }
}

/// The binding cleanup of a module tree.
pub open spec fn cleanup_bindings_m(m: NodeM) -> NodeM {
    bind_m(m)
}

// ----- executable rule -----

/// Whether `c` is an ASCII letter.
fn ascii_letter(c: char) -> (b: bool)
    ensures
        b == is_ascii_letter(c),
{
    ('a' <= c && c <= 'z') || ('A' <= c && c <= 'Z')
}

/// Whether `s` is a plain identifier that a `let` can bind.
pub(crate) fn is_binding_ident(s: &String) -> (b: bool)
    ensures
        b == is_binding_ident_m(s@),
{
    let text = s.as_str();
    let n = text.unicode_len();
    if n == 0 {
        return false;
    }
    let first = text.get_char(0);
    if !(first == '_' || ascii_letter(first)) {
        return false;
    }
    if is_text(s, "_") || is_text(s, "box") || is_text(s, "false") || is_text(s, "mut")
        || is_text(s, "ref") || is_text(s, "self") || is_text(s, "true") {
        return false;
    }
    let mut i: usize = 1;
    while i < n
        invariant
            1 <= i <= n,
            n == s@.len(),
            text@ == s@,
            forall|j: int| 1 <= j < i ==> (s@[j] == '_' || is_ascii_letter_or_digit(#[trigger] s@[j])),
        decreases n - i,
    {
        let c = text.get_char(i);
        if !(c == '_' || ascii_letter(c) || ('0' <= c && c <= '9')) {
            return false;
        }
        i = i + 1;
    }
    true
}

/// The expression that replaces the final binding and tail of the
/// statements `cs`, if they end that way.
fn trailing_replacement(cs: &Vec<Node>) -> (r: Option<Node>)
    ensures
        match trailing_replacement_m(views_m(cs@)) {
            None => r is None,
            Some(m) => r matches Some(n) && n@ == m,
        },
{
    let ghost v = views_m(cs@);
    let n = cs.len();
    if n < 2 {
        return None;
    }
    let last = &cs[n - 1];
    let binding = &cs[n - 2];
    assert(v.last() == last@);
    assert(v[n - 2] == binding@);
    if !matches!(last.kind, Kind::Tail) || !crate::model::has_len(&last.children, 1) {
        return None;
    }
    if !matches!(binding.kind, Kind::Let { mutable: false }) || !crate::model::has_len(
        &binding.children,
        2,
    ) {
        return None;
    }
    let ty = crate::model::child(&binding.children, 0).unwrap();
    let init = crate::model::child(&binding.children, 1).unwrap();
    if !matches!(ty.kind, Kind::Absent) || matches!(init.kind, Kind::Absent) || !is_binding_ident(
        &binding.text,
    ) {
        return None;
    }
    let t = crate::model::child(&last.children, 0).unwrap();
    if matches!(t.kind, Kind::Ident) && t.text == binding.text {
        return Some(copy_node(init));
    }
    if matches!(t.kind, Kind::MethodCall) && is_text(&t.text, "clone") && crate::model::has_len(
        &t.children,
        1,
    ) {
        let receiver = crate::model::child(&t.children, 0).unwrap();
        if matches!(receiver.kind, Kind::Ident) && receiver.text == binding.text {
            return Some(node1(Kind::MethodCall, string_of("clone"), copy_node(init)));
        }
    }
    None
}

/// Folds the final bindings of the statements `cs` into the tail.
fn collapse(cs: Vec<Node>) -> (r: Vec<Node>)
    ensures
        views_m(r@) == collapse_m(views_m(cs@)),
    decreases cs@.len(),
{
    let mut cs = cs;
    let ghost v = views_m(cs@);
    match trailing_replacement(&cs) {
        None => cs,
        Some(replacement) => {
            let tail = cs.pop().unwrap();
            let _binding = cs.pop().unwrap();
            let new_tail = node1(Kind::Tail, tail.text, replacement);
            cs.push(new_tail);
            assert(views_m(cs@) =~= v.subrange(0, v.len() - 2).push(
                mk(Kind::Tail, v.last().text, seq![trailing_replacement_m(v).unwrap()]),
            ));
            collapse(cs)
        },
    }
}

/// Collapses the trailing bindings of a block, until it no longer ends with
/// a binding that its tail returns at once.
pub fn collapse_trailing_let_return(block: &mut Node)
    ensures
        final(block)@ == collapse_block_m(old(block)@),
{
    let mut children = Nodes::Nil;
    std::mem::swap(&mut children, &mut block.children);
    let collapsed = collapse(nodes_into_vec(children));
    block.children = nodes_from_vec(collapsed);
}

// ----- executable traversal -----

/// The tree `n` with every block collapsed.
fn bind(n: &Node) -> (r: Node)
    ensures
        r@ == bind_m(n@),
    decreases n,
{
    let cs = bind_list(&n.children);
    if matches!(n.kind, Kind::Block) {
        let collapsed = collapse(nodes_into_vec(cs));
        Node { kind: n.kind, text: n.text.clone(), children: nodes_from_vec(collapsed) }
    } else {
        Node { kind: n.kind, text: n.text.clone(), children: cs }
    }
}

fn bind_list(l: &Nodes) -> (r: Nodes)
    ensures
        nodes_m(r) == bind_list_m(nodes_m(*l)),
    decreases l,
{
    match l {
        Nodes::Nil => Nodes::Nil,
        Nodes::Cons(h, rest) => {
            proof {
                lemma_cons(node_m(**h), nodes_m(**rest));
            }
            let h2 = bind(h);
            let t = bind_list(rest);
            let r = Nodes::Cons(Box::new(h2), Box::new(t));
            assert(nodes_m(r) == seq![h2@] + nodes_m(t));
            r
        },
    }
}

/// Inlines the immutable, untyped bindings that blocks return at once, in
/// every block of a module tree.
pub fn cleanup_bindings(module: &mut Node)
    ensures
        final(module)@ == cleanup_bindings_m(old(module)@),
{
    let cleaned = bind(module);
    *module = cleaned;
}

// ----- laws -----

/// Collapsing runs to a fixpoint: a collapsed block no longer ends with a
/// binding that its tail returns at once.
pub proof fn lemma_collapse_fixpoint(cs: Seq<NodeM>)
    ensures
        trailing_replacement_m(collapse_m(cs)) is None,
    decreases cs.len(),
{
    if let Some(r) = trailing_replacement_m(cs) {
        lemma_collapse_fixpoint(
            cs.subrange(0, cs.len() - 2).push(mk(Kind::Tail, cs.last().text, seq![r])),
        );
    }
}

/// Collapsing twice is collapsing once.
pub proof fn lemma_collapse_idempotent(cs: Seq<NodeM>)
    ensures
        collapse_m(collapse_m(cs)) == collapse_m(cs),
{
    lemma_collapse_fixpoint(cs);
}

/// Collapsing removes statements from the end only: the result is no
/// longer than the input, and every statement of it but the last stands at
/// the same place in the input.
pub proof fn lemma_collapse_keeps_prefix(cs: Seq<NodeM>)
    ensures
        collapse_m(cs).len() <= cs.len(),
        forall|i: int| 0 <= i < collapse_m(cs).len() - 1 ==> #[trigger] collapse_m(cs)[i] == cs[i],
    decreases cs.len(),
{
    if let Some(r) = trailing_replacement_m(cs) {
        let next = cs.subrange(0, cs.len() - 2).push(mk(Kind::Tail, cs.last().text, seq![r]));
        lemma_collapse_keeps_prefix(next);
        assert forall|i: int| 0 <= i < collapse_m(cs).len() - 1 implies #[trigger] collapse_m(cs)[i]
            == cs[i] by {
            assert(collapse_m(cs)[i] == next[i]);
        }
    }
}


/// Whether no block anywhere in the tree `n` still ends with a binding that
/// its tail returns at once.
pub open spec fn collapsed_m(n: NodeM) -> bool
    decreases n, 1nat,
{
    (n.kind is Block ==> trailing_replacement_m(n.children) is None) && collapsed_list_m(n.children)
}

pub open spec fn collapsed_list_m(cs: Seq<NodeM>) -> bool
    decreases cs, 0nat,
{
    cs.len() == 0 || (collapsed_m(cs[0]) && collapsed_list_m(cs.drop_first()))
}

proof fn lemma_collapsed_list_all(cs: Seq<NodeM>)
    ensures
        collapsed_list_m(cs) <==> forall|i: int| 0 <= i < cs.len() ==> #[trigger] collapsed_m(cs[i]),
    decreases cs.len(),
{
    if cs.len() > 0 {
        lemma_collapsed_list_all(cs.drop_first());
        if forall|i: int| 0 <= i < cs.len() ==> #[trigger] collapsed_m(cs[i]) {
            assert(collapsed_m(cs[0]));
            assert forall|i: int| 0 <= i < cs.drop_first().len() implies #[trigger] collapsed_m(
                cs.drop_first()[i],
            ) by {
                assert(cs.drop_first()[i] == cs[i + 1]);
            }
        }
        if collapsed_list_m(cs) {
            assert forall|i: int| 0 <= i < cs.len() implies #[trigger] collapsed_m(cs[i]) by {
                if i > 0 {
                    assert(cs[i] == cs.drop_first()[i - 1]);
                }
            }
        }
    }
}

/// Collapsing the statements of a block keeps every statement collapsed.
proof fn lemma_collapse_keeps_collapsed(cs: Seq<NodeM>)
    requires
        forall|i: int| 0 <= i < cs.len() ==> #[trigger] collapsed_m(cs[i]),
    ensures
        forall|i: int| 0 <= i < collapse_m(cs).len() ==> #[trigger] collapsed_m(collapse_m(cs)[i]),
    decreases cs.len(),
{
    if let Some(r) = trailing_replacement_m(cs) {
        let binding = cs[cs.len() - 2];
        let init = binding.children[1];
        assert(collapsed_m(binding));
        lemma_collapsed_list_all(binding.children);
        assert(collapsed_m(init));
        lemma_collapsed_list_all(seq![init]);
        assert(collapsed_m(r));
        lemma_collapsed_list_all(seq![r]);
        let t = mk(Kind::Tail, cs.last().text, seq![r]);
        assert(collapsed_m(t));
        let next = cs.subrange(0, cs.len() - 2).push(t);
        assert forall|i: int| 0 <= i < next.len() implies #[trigger] collapsed_m(next[i]) by {
            if i < next.len() - 1 {
                assert(next[i] == cs[i]);
            }
        }
        lemma_collapse_keeps_collapsed(next);
        assert(collapse_m(cs) == collapse_m(next));
    } else {
        assert(collapse_m(cs) == cs);
    }
}

proof fn lemma_bind_collapsed(n: NodeM)
    ensures
        collapsed_m(bind_m(n)),
    decreases n, 1nat,
{
    let cs = bind_list_m(n.children);
    lemma_bind_list_collapsed(n.children);
    lemma_collapsed_list_all(cs);
    if n.kind is Block {
        lemma_collapse_keeps_collapsed(cs);
        lemma_collapse_fixpoint(cs);
        lemma_collapsed_list_all(collapse_m(cs));
    }
}

proof fn lemma_bind_list_collapsed(cs: Seq<NodeM>)
    ensures
        collapsed_list_m(bind_list_m(cs)),
    decreases cs, 0nat,
{
    if cs.len() > 0 {
        lemma_bind_collapsed(cs[0]);
        lemma_bind_list_collapsed(cs.drop_first());
        let r = bind_list_m(cs);
        assert(r[0] == bind_m(cs[0]));
        assert(r.drop_first() =~= bind_list_m(cs.drop_first()));
    }
}

/// The binding cleanup collapses every block of the tree: in the result, no
/// block anywhere, however deeply nested in branches, loops or closures,
/// still ends with `let x = e;` and a tail `x` or `x.clone()`.
pub proof fn lemma_cleanup_bindings_collapses_every_block(m: NodeM)
    ensures
        collapsed_m(cleanup_bindings_m(m)),
{
    lemma_bind_collapsed(m);
}

} // verus!
