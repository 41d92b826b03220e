//! Facts the borrow analysis reads off a function's signature and notes in
//! its documentation: which generic parameters carry a bound, and whether a
//! doc line is already there.
use vstd::prelude::*;

use crate::ast::{Kind, Node, Nodes};
use crate::closure_binding::{insert_name, name_set_ok};
use crate::model::{
    leaf, lemma_cons, node_m, nodes_from_vec, nodes_into_vec, nodes_m, views_m, NodeM,
};
use crate::text::{string_of, trim_m, views};
use crate::type_shape::{type_name_leaf, type_name_leaf_m};

verus! {

// ----- bounds -----

/// Whether the generic parameter `g` has a bound written `bound`.
pub open spec fn has_bound_m(g: NodeM, bound: Seq<char>) -> bool {
    exists|j: int| 0 <= j < g.children.len() && #[trigger] g.children[j].text == bound
}

/// Whether the generic parameter `g` has a bound whose last path segment is
/// `wanted`.
pub open spec fn has_bound_leaf_m(g: NodeM, wanted: Seq<char>) -> bool {
    exists|j: int|
        0 <= j < g.children.len() && #[trigger] type_name_leaf_m(trim_m(g.children[j].text))
            == wanted
}

/// The generic parameters of the function `f`.
pub open spec fn generics_of_m(f: NodeM) -> Seq<NodeM> {
    if f.children.len() > 2 {
        f.children[2].children
    } else {
        Seq::empty()
    }
}

/// Whether the generic parameter `g` has a bound whose last path segment is
/// `wanted`.
pub fn generic_has_bound(g: &Node, wanted: &String) -> (b: bool)
    ensures
        b == has_bound_leaf_m(g@, wanted@),
{
    let mut cur: &Nodes = &g.children;
    let ghost all = nodes_m(g.children);
    let ghost mut i: nat = 0;
    assert(all.subrange(0, all.len() as int) =~= all);
    loop
        invariant
            all == nodes_m(g.children),
            i <= all.len(),
            nodes_m(*cur) == all.subrange(i as int, all.len() as int),
            forall|j: int|
                0 <= j < i ==> #[trigger] type_name_leaf_m(trim_m(all[j].text)) != wanted@,
        decreases all.len() - i,
    {
        match cur {
            Nodes::Nil => {
                assert(i == all.len());
                return false;
            },
            Nodes::Cons(h, rest) => {
                proof {
                    lemma_cons(node_m(**h), nodes_m(**rest));
                }
                assert(all[i as int] == h@);
                let text = h.text.as_str();
                let n = text.unicode_len();
                let k1 = crate::text::skip_whitespace(text, 0, n);
                let k2 = crate::text::drop_trailing_whitespace(text, k1, n);
                assert(text@.subrange(0, n as int) =~= h.text@);
                let trimmed = crate::text::substring(text, k1, k2);
                let l = type_name_leaf(trimmed.as_str());
                if l == *wanted {
                    assert(g@.children[i as int] == h@);
                    assert(type_name_leaf_m(trim_m(g@.children[i as int].text)) == wanted@);
                    return true;
                }
                assert(nodes_m(**rest) =~= all.subrange((i + 1) as int, all.len() as int));
                cur = rest;
                proof {
                    i = i + 1;
                }
            },
        }
    }
}

/// Whether `t` names the trait `name`, plainly or at the end of a path.
pub open spec fn names_trait_m(t: NodeM, name: Seq<char>) -> bool {
    (t.kind is TypeNamed && t.text == name) || (t.kind is TypePath && t.children.len() > 0
        && t.children.last().text == name)
}

/// Whether `t` names a trait `name`, plainly or at the end of a path.
fn names_trait(t: &Node, name: &str) -> (b: bool)
    ensures
        b == names_trait_m(t@, name@),
{
    match t.kind {
        Kind::TypeNamed => crate::text::is_text(&t.text, name),
        Kind::TypePath => match crate::model::last_node(&t.children) {
            Some(last) => crate::text::is_text(&last.text, name),
            None => false,
        },
        _ => false,
    }
}

/// Whether `t` names the `Copy` trait.
pub fn type_is_copy_trait(t: &Node) -> (b: bool)
    ensures
        b == names_trait_m(t@, "Copy"@),
{
    names_trait(t, "Copy")
}

/// Whether `t` names the `Clone` trait.
pub fn type_is_clone_trait(t: &Node) -> (b: bool)
    ensures
        b == names_trait_m(t@, "Clone"@),
{
    names_trait(t, "Clone")
}

/// The names of the generic parameters of `f` that have a bound written
/// `bound`, each once.
pub fn generic_names_with_bound(f: &Node, bound: &String) -> (r: Vec<String>)
    ensures
        name_set_ok(r@),
        forall|x: Seq<char>| #[trigger]
            views(r@).contains(x) <==> exists|i: int|
                0 <= i < generics_of_m(f@).len() && generics_of_m(f@)[i].text == x && has_bound_m(
                    #[trigger] generics_of_m(f@)[i],
                    bound@,
                ),
{
    let mut r: Vec<String> = Vec::new();
    assert(views(r@) =~= Seq::<Seq<char>>::empty());
    let generics = match crate::model::child(&f.children, 2) {
        Some(g) => &g.children,
        None => {
            return r;
        },
    };
    let ghost gs = generics_of_m(f@);
    assert(nodes_m(*generics) == gs);
    let mut cur: &Nodes = generics;
    let ghost mut i: nat = 0;
    assert(gs.subrange(0, gs.len() as int) =~= gs);
    loop
        invariant
            gs == generics_of_m(f@),
            i <= gs.len(),
            nodes_m(*cur) == gs.subrange(i as int, gs.len() as int),
            name_set_ok(r@),
            forall|x: Seq<char>| #[trigger]
                views(r@).contains(x) <==> exists|j: int|
                    0 <= j < i && gs[j].text == x && has_bound_m(#[trigger] gs[j], bound@),
        decreases gs.len() - i,
    {
        match cur {
            Nodes::Nil => {
                assert(i == gs.len());
                return r;
            },
            Nodes::Cons(g, rest) => {
                proof {
                    lemma_cons(node_m(**g), nodes_m(**rest));
                }
                assert(gs[i as int] == g@);
                let ghost before = views(r@);
                if has_exact_bound(g, bound) {
                    insert_name(&mut r, &g.text);
                }
                assert forall|x: Seq<char>| #[trigger] views(r@).contains(x) <==> exists|j: int|
                    0 <= j < i + 1 && gs[j].text == x && has_bound_m(#[trigger] gs[j], bound@) by {
                    if exists|j: int|
                        0 <= j < i + 1 && gs[j].text == x && has_bound_m(#[trigger] gs[j], bound@) {
                        let j = choose|j: int|
                            0 <= j < i + 1 && gs[j].text == x && has_bound_m(
                                #[trigger] gs[j],
                                bound@,
                            );
                        if j < i {
                            assert(before.contains(x));
                        }
                    }
                }
                assert(nodes_m(**rest) =~= gs.subrange((i + 1) as int, gs.len() as int));
                cur = rest;
                proof {
                    i = i + 1;
                }
            },
        }
    }
}

/// Whether the generic parameter `g` has a bound written `bound`.
fn has_exact_bound(g: &Node, bound: &String) -> (b: bool)
    ensures
        b == has_bound_m(g@, bound@),
{
    let mut cur: &Nodes = &g.children;
    let ghost all = nodes_m(g.children);
    let ghost mut i: nat = 0;
    assert(all.subrange(0, all.len() as int) =~= all);
    loop
        invariant
            all == nodes_m(g.children),
            i <= all.len(),
            nodes_m(*cur) == all.subrange(i as int, all.len() as int),
            forall|j: int| 0 <= j < i ==> #[trigger] all[j].text != bound@,
        decreases all.len() - i,
    {
        match cur {
            Nodes::Nil => {
                assert(i == all.len());
                return false;
            },
            Nodes::Cons(h, rest) => {
                proof {
                    lemma_cons(node_m(**h), nodes_m(**rest));
                }
                assert(all[i as int] == h@);
                if h.text == *bound {
                    assert(g@.children[i as int].text == bound@);
                    return true;
                }
                assert(nodes_m(**rest) =~= all.subrange((i + 1) as int, all.len() as int));
                cur = rest;
                proof {
                    i = i + 1;
                }
            },
        }
    }
}


// ----- documentation -----

/// Whether `f` holds a doc line that trims to `comment`.
pub open spec fn has_doc_m(f: NodeM, comment: Seq<char>) -> bool {
    exists|j: int|
        0 <= j < f.children.len() && f.children[j].kind is Doc && #[trigger] trim_m(
            f.children[j].text,
        ) == comment
}

/// Whether some node of `l` is a doc line that trims to `comment`.
fn has_doc(l: &Nodes, comment: &str) -> (b: bool)
    ensures
        b == exists|j: int|
            0 <= j < nodes_m(*l).len() && nodes_m(*l)[j].kind is Doc && #[trigger] trim_m(
                nodes_m(*l)[j].text,
            ) == comment@,
    decreases l,
{
    match l {
        Nodes::Nil => false,
        Nodes::Cons(h, rest) => {
            proof {
                lemma_cons(node_m(**h), nodes_m(**rest));
            }
            let here = if matches!(h.kind, Kind::Doc) {
                let text = h.text.as_str();
                let n = text.unicode_len();
                let k1 = crate::text::skip_whitespace(text, 0, n);
                let k2 = crate::text::drop_trailing_whitespace(text, k1, n);
                assert(text@.subrange(0, n as int) =~= h.text@);
                let t = crate::text::substring(text, k1, k2);
                assert(t@ == trim_m(h.text@));
                crate::text::is_text(&t, comment)
            } else {
                false
            };
            if here {
                assert(nodes_m(*l)[0] == h@);
                assert(trim_m(nodes_m(*l)[0].text) == comment@);
                return true;
            }
            let later = has_doc(rest, comment);
            proof {
                let all = nodes_m(*l);
                if later {
                    let j = choose|j: int|
                        0 <= j < nodes_m(**rest).len() && nodes_m(**rest)[j].kind is Doc
                            && #[trigger] trim_m(nodes_m(**rest)[j].text) == comment@;
                    assert(all[j + 1] == nodes_m(**rest)[j]);
                } else {
                    assert forall|j: int|
                        0 <= j < all.len() && all[j].kind is Doc implies #[trigger] trim_m(
                            all[j].text,
                        ) != comment@ by {
                        if j > 0 {
                            assert(all[j] == nodes_m(**rest)[j - 1]);
                        }
                    }
                }
            }
            later
        },
    }
}

/// Adds the doc line `comment` to the function `f`, unless a doc line of
/// `f` already trims to it.
pub fn ensure_function_comment(f: &mut Node, comment: &str)
    ensures
        if has_doc_m(old(f)@, comment@) {
            final(f)@ == old(f)@
        } else {
            final(f)@ == (NodeM {
                kind: old(f)@.kind,
                text: old(f)@.text,
                children: old(f)@.children.push(
                    NodeM { kind: Kind::Doc, text: comment@, children: Seq::empty() },
                ),
            })
        },
{
    if has_doc(&f.children, comment) {
        return;
    }
    let mut children = Nodes::Nil;
    std::mem::swap(&mut children, &mut f.children);
    let mut v = nodes_into_vec(children);
    let ghost before = v@;
    v.push(leaf(Kind::Doc, string_of(comment)));
    assert(views_m(v@) =~= views_m(before).push(
        NodeM { kind: Kind::Doc, text: comment@, children: Seq::empty() },
    ));
    f.children = nodes_from_vec(v);
}

} // verus!
