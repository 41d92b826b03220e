//! The mathematical model of syntax trees: texts are character sequences and
//! child lists are `Seq`s. The passes state their contracts over it.
use vstd::prelude::*;

use crate::ast::{Kind, Node, Nodes};

verus! {

/// The model of a node.
pub struct NodeM {
    pub kind: Kind,
    pub text: Seq<char>,
    pub children: Seq<NodeM>,
}

pub open spec fn node_m(n: Node) -> NodeM
    decreases n,
{
    NodeM { kind: n.kind, text: n.text@, children: nodes_m(n.children) }
}

pub open spec fn nodes_m(l: Nodes) -> Seq<NodeM>
    decreases l,
{
    match l {
        Nodes::Nil => Seq::empty(),
        Nodes::Cons(n, rest) => seq![node_m(*n)] + nodes_m(*rest),
    }
}

impl View for Node {
    type V = NodeM;

    open spec fn view(&self) -> NodeM {
        node_m(*self)
    }
}

/// A node of kind `kind` with text `text` and children `children`.
pub open spec fn mk(kind: Kind, text: Seq<char>, children: Seq<NodeM>) -> NodeM {
    NodeM { kind, text, children }
}

/// Number of nodes of a tree.
pub open spec fn size(n: NodeM) -> nat
    decreases n,
{
    1 + sizes(n.children)
}

pub open spec fn sizes(s: Seq<NodeM>) -> nat
    decreases s,
{
    if s.len() == 0 {
        0
    } else {
        size(s[0]) + sizes(s.drop_first())
    }
}

/// Stripping the head element off a sequence built by prepending.
pub proof fn lemma_cons<A>(x: A, t: Seq<A>)
    ensures
        (seq![x] + t).len() == t.len() + 1,
        (seq![x] + t)[0] == x,
        (seq![x] + t).drop_first() == t,
{
    assert((seq![x] + t).drop_first() =~= t);
}

/// A node weighs at least one.
pub proof fn lemma_size_positive(n: NodeM)
    ensures
        size(n) >= 1,
{
}

/// Each element of a sequence weighs at most the whole sequence.
pub proof fn lemma_sizes_elem(s: Seq<NodeM>, i: int)
    requires
        0 <= i < s.len(),
    ensures
        size(s[i]) <= sizes(s),
    decreases s.len(),
{
    if i > 0 {
        lemma_sizes_elem(s.drop_first(), i - 1);
    }
}

/// A child weighs less than its parent.
pub proof fn lemma_child_smaller(n: NodeM, i: int)
    requires
        0 <= i < n.children.len(),
    ensures
        size(n.children[i]) < size(n),
{
    lemma_sizes_elem(n.children, i);
}

/// The weight of a list is that of its head plus that of its rest.
pub proof fn lemma_sizes_cons(h: NodeM, t: Seq<NodeM>)
    ensures
        sizes(seq![h] + t) == size(h) + sizes(t),
        sizes(t) < sizes(seq![h] + t),
{
    lemma_cons(h, t);
    lemma_size_positive(h);
}

/// The node at position `i` of a list, if there is one.
pub fn child(l: &Nodes, i: usize) -> (r: Option<&Node>)
    ensures
        r is Some <==> i < nodes_m(*l).len(),
        r matches Some(c) ==> c@ == nodes_m(*l)[i as int],
    decreases l,
{
    match l {
        Nodes::Nil => None,
        Nodes::Cons(h, rest) => {
            proof {
                lemma_cons(node_m(**h), nodes_m(**rest));
            }
            if i == 0 {
                Some(&**h)
            } else {
                child(rest, i - 1)
            }
        },
    }
}

/// Whether a list holds exactly `n` nodes.
pub fn has_len(l: &Nodes, n: usize) -> (b: bool)
    ensures
        b == (nodes_m(*l).len() == n),
    decreases l,
{
    match l {
        Nodes::Nil => n == 0,
        Nodes::Cons(h, rest) => {
            proof {
                lemma_cons(node_m(**h), nodes_m(**rest));
            }
            if n == 0 {
                false
            } else {
                has_len(rest, n - 1)
            }
        },
    }
}

/// The list holding the nodes of `v`, in order.
pub fn nodes_from_vec(v: Vec<Node>) -> (r: Nodes)
    ensures
        nodes_m(r) == views_m(v@),
{
    let mut v = v;
    let ghost all = v@.map_values(|n: Node| n@);
    let mut r = Nodes::Nil;
    assert(nodes_m(r) =~= all.subrange(v@.len() as int, all.len() as int));
    while v.len() > 0
        invariant
            v@.len() <= all.len(),
            forall|i: int| 0 <= i < v@.len() ==> v@[i]@ == all[i],
            nodes_m(r) == all.subrange(v@.len() as int, all.len() as int),
        decreases v@.len(),
    {
        let n = v.pop().unwrap();
        let ghost k = v@.len() as int;
        proof {
            lemma_cons(n@, nodes_m(r));
        }
        r = Nodes::Cons(Box::new(n), Box::new(r));
        assert(nodes_m(r) =~= all.subrange(k, all.len() as int));
    }
    r
}

/// A node built from its parts.
pub fn node(kind: Kind, text: String, children: Vec<Node>) -> (r: Node)
    ensures
        r@ == mk(kind, text@, views_m(children@)),
{
    Node { kind, text, children: nodes_from_vec(children) }
}

/// The views of a sequence of nodes.
pub open spec fn views_m(v: Seq<Node>) -> Seq<NodeM> {
    v.map_values(|n: Node| n@)
}

/// The nodes of a list, in order, in a vector.
pub fn nodes_into_vec(l: Nodes) -> (v: Vec<Node>)
    ensures
        views_m(v@) == nodes_m(l),
    decreases l,
{
    match l {
        Nodes::Nil => {
            let v: Vec<Node> = Vec::new();
            assert(views_m(v@) =~= nodes_m(l));
            v
        },
        Nodes::Cons(h, rest) => {
            let ghost hv = node_m(*h);
            let ghost rv = nodes_m(*rest);
            let tail = nodes_into_vec(*rest);
            let mut v: Vec<Node> = Vec::new();
            v.push(*h);
            let mut tail = tail;
            v.append(&mut tail);
            assert(views_m(v@) =~= seq![hv] + rv);
            v
        },
    }
}

/// The last node of a list, if it has one.
pub fn last_node(l: &Nodes) -> (r: Option<&Node>)
    ensures
        r is Some <==> nodes_m(*l).len() > 0,
        r matches Some(c) ==> c@ == nodes_m(*l).last(),
    decreases l,
{
    match l {
        Nodes::Nil => None,
        Nodes::Cons(h, rest) => {
            proof {
                lemma_cons(node_m(**h), nodes_m(**rest));
            }
            match last_node(rest) {
                Some(c) => Some(c),
                None => Some(&**h),
            }
        },
    }
}

/// A copy of all but the last node of a list.
pub fn all_but_last(l: &Nodes) -> (r: Nodes)
    requires
        nodes_m(*l).len() > 0,
    ensures
        nodes_m(r) == nodes_m(*l).drop_last(),
    decreases l,
{
    match l {
        Nodes::Nil => Nodes::Nil,
        Nodes::Cons(h, rest) => {
            proof {
                lemma_cons(node_m(**h), nodes_m(**rest));
            }
            match &**rest {
                Nodes::Nil => {
                    assert(nodes_m(*l).drop_last() =~= Seq::<NodeM>::empty());
                    Nodes::Nil
                },
                Nodes::Cons(h2, rest2) => {
                    proof {
                        lemma_cons(node_m(**h2), nodes_m(**rest2));
                    }
                    let t = all_but_last(rest);
                    let r = Nodes::Cons(Box::new(copy_node(h)), Box::new(t));
                    assert(nodes_m(r) =~= nodes_m(*l).drop_last());
                    r
                },
            }
        },
    }
}

/// A deep copy of a node.
pub fn copy_node(n: &Node) -> (r: Node)
    ensures
        r@ == n@,
    decreases n,
{
    Node { kind: n.kind, text: n.text.clone(), children: copy_nodes(&n.children) }
}

/// A deep copy of a list of nodes.
pub fn copy_nodes(l: &Nodes) -> (r: Nodes)
    ensures
        nodes_m(r) == nodes_m(*l),
    decreases l,
{
    match l {
        Nodes::Nil => Nodes::Nil,
        Nodes::Cons(n, rest) => Nodes::Cons(Box::new(copy_node(n)), Box::new(copy_nodes(rest))),
    }
}

/// A node with no children.
pub fn leaf(kind: Kind, text: String) -> (r: Node)
    ensures
        r@ == mk(kind, text@, Seq::empty()),
{
    Node { kind, text, children: Nodes::Nil }
}

/// A node with one child.
pub fn node1(kind: Kind, text: String, a: Node) -> (r: Node)
    ensures
        r@ == mk(kind, text@, seq![a@]),
{
    let r = Node { kind, text, children: Nodes::Cons(Box::new(a), Box::new(Nodes::Nil)) };
    proof {
        reveal_with_fuel(nodes_m, 4);
    }
    assert(nodes_m(r.children) =~= seq![a@]);
    r
}

/// A node with two children.
pub fn node2(kind: Kind, text: String, a: Node, b: Node) -> (r: Node)
    ensures
        r@ == mk(kind, text@, seq![a@, b@]),
{
    let r = Node {
        kind,
        text,
        children: Nodes::Cons(Box::new(a), Box::new(Nodes::Cons(Box::new(b), Box::new(Nodes::Nil)))),
    };
    proof {
        reveal_with_fuel(nodes_m, 4);
    }
    assert(nodes_m(r.children) =~= seq![a@, b@]);
    r
}

/// A node with three children.
pub fn node3(kind: Kind, text: String, a: Node, b: Node, c: Node) -> (r: Node)
    ensures
        r@ == mk(kind, text@, seq![a@, b@, c@]),
{
    let r = Node {
        kind,
        text,
        children: Nodes::Cons(
            Box::new(a),
            Box::new(Nodes::Cons(Box::new(b), Box::new(Nodes::Cons(Box::new(c), Box::new(Nodes::Nil))))),
        ),
    };
    proof {
        reveal_with_fuel(nodes_m, 4);
    }
    assert(nodes_m(r.children) =~= seq![a@, b@, c@]);
    r
}

} // verus!
