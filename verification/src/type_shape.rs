//! Questions the borrow analysis asks of a type's shape: whether it is a
//! reference or a box, what it wraps, whether it holds a callable trait, and
//! whether two types are written alike.
use vstd::prelude::*;

use crate::ast::{Kind, Node, Nodes};
use crate::model::{copy_node, has_len, lemma_cons, node1, node_m, nodes_m, NodeM};
use crate::module_scope::{
    imports_m, parts_from_m, path_parts, resolve_name_m, resolve_segments_m,
    strip_path_segment_generics, strip_path_segment_generics_m, ModuleScope,
};
use crate::closure_cleanup::{lookup, lookup_m, subst_view};
use crate::model::copy_nodes;
use crate::text::contains_text;
use crate::text::{is_text, string_of, substring, views};

verus! {

// ----- names -----

/// The last segment of the path `name`: what follows its last `::`.
pub open spec fn type_name_leaf_m(name: Seq<char>) -> Seq<char>
    decreases name.len(),
{
    if name.len() < 2 {
        name
    } else if name[name.len() - 2] == ':' && name[name.len() - 1] == ':' {
        Seq::empty()
    } else {
        type_name_leaf_m(name.drop_last()).push(name.last())
    }
}

/// The last segment of the path `name`.
pub fn type_name_leaf(name: &str) -> (r: String)
    ensures
        r@ == type_name_leaf_m(name@),
{
    let n = name.unicode_len();
    let mut i: usize = n;
    assert(name@.subrange(0, n as int) =~= name@);
    assert(name@ + name@.subrange(n as int, n as int) =~= name@);
    while i >= 2 && !(name.get_char(i - 2) == ':' && name.get_char(i - 1) == ':')
        invariant
            i <= n,
            n == name@.len(),
            type_name_leaf_m(name@) == type_name_leaf_m(name@.subrange(0, i as int)) + name@.subrange(
                i as int,
                n as int,
            ),
        decreases i,
    {
        let ghost pre = name@.subrange(0, i as int);
        assert(pre.drop_last() =~= name@.subrange(0, i - 1));
        assert(name@.subrange(i - 1, n as int) =~= seq![pre.last()] + name@.subrange(
            i as int,
            n as int,
        ));
        assert(type_name_leaf_m(pre) == type_name_leaf_m(pre.drop_last()).push(pre.last()));
        assert(type_name_leaf_m(pre.drop_last()).push(pre.last()) + name@.subrange(i as int, n as int)
            =~= type_name_leaf_m(pre.drop_last()) + name@.subrange(i - 1, n as int));
        i = i - 1;
    }
    if i < 2 {
        assert(type_name_leaf_m(name@.subrange(0, i as int)) == name@.subrange(0, i as int));
        assert(name@.subrange(0, i as int) + name@.subrange(i as int, n as int) =~= name@);
        string_of(name)
    } else {
        assert(type_name_leaf_m(name@.subrange(0, i as int)) == Seq::<char>::empty());
        assert(Seq::<char>::empty() + name@.subrange(i as int, n as int) =~= name@.subrange(
            i as int,
            n as int,
        ));
        substring(name, i, n)
    }
}

// ----- references and boxes -----

/// Whether `t` is a reference (not a raw pointer).
pub open spec fn is_reference_type_m(t: NodeM) -> bool {
    t.kind matches Kind::TypeRef { shared, .. } && shared
}

/// The type a reference refers to.
pub open spec fn ref_inner_m(t: NodeM) -> Option<NodeM> {
    if is_reference_type_m(t) && t.children.len() > 0 {
        Some(t.children[0])
    } else {
        None
    }
}

/// The type a `Box` holds, where `t` is `Box<inner>` under any path.
pub open spec fn box_inner_type_m(t: NodeM) -> Option<NodeM> {
    if t.kind is TypeGeneric && type_name_leaf_m(t.text) == "Box"@ && t.children.len() == 1 {
        Some(t.children[0])
    } else {
        None
    }
}

/// The type a borrowed `Box` holds, where `t` is `&Box<inner>`.
pub open spec fn borrowed_box_inner_type_m(t: NodeM) -> Option<NodeM> {
    match ref_inner_m(t) {
        Some(r) => box_inner_type_m(r),
        None => None,
    }
}

/// Whether `t` is a reference.
pub fn is_reference_type(t: &Node) -> (b: bool)
    ensures
        b == is_reference_type_m(t@),
{
    matches!(t.kind, Kind::TypeRef { shared: true, .. })
}

/// The type the reference `t` refers to.
pub fn ref_inner(t: &Node) -> (r: Option<&Node>)
    ensures
        match ref_inner_m(t@) {
            Some(m) => r matches Some(x) && x@ == m,
            None => r is None,
        },
{
    if !is_reference_type(t) {
        return None;
    }
    match &t.children {
        Nodes::Cons(inner, rest) => {
            proof {
                lemma_cons(node_m(**inner), nodes_m(**rest));
            }
            Some(&**inner)
        },
        Nodes::Nil => None,
    }
}

/// The type that the `Box` type `t` holds.
pub fn box_inner_type(t: &Node) -> (r: Option<&Node>)
    ensures
        match box_inner_type_m(t@) {
            Some(m) => r matches Some(x) && x@ == m,
            None => r is None,
        },
{
    if !matches!(t.kind, Kind::TypeGeneric) || !has_len(&t.children, 1) {
        return None;
    }
    let leaf = type_name_leaf(t.text.as_str());
    if !is_text(&leaf, "Box") {
        return None;
    }
    match &t.children {
        Nodes::Cons(inner, rest) => {
            proof {
                lemma_cons(node_m(**inner), nodes_m(**rest));
            }
            Some(&**inner)
        },
        Nodes::Nil => None,
    }
}

/// The type that the borrowed `Box` type `t` holds.
pub fn borrowed_box_inner_type(t: &Node) -> (r: Option<&Node>)
    ensures
        match borrowed_box_inner_type_m(t@) {
            Some(m) => r matches Some(x) && x@ == m,
            None => r is None,
        },
{
    match ref_inner(t) {
        Some(inner) => box_inner_type(inner),
        None => None,
    }
}

/// Whether `t` is a `Box` type.
pub fn is_box_type(t: &Node) -> (b: bool)
    ensures
        b == (box_inner_type_m(t@) is Some),
{
    box_inner_type(t).is_some()
}

/// The shared reference type `&t`.
pub fn make_ref_type(t: &Node) -> (r: Node)
    ensures
        r@ == (NodeM {
            kind: Kind::TypeRef { shared: true, mutable: false },
            text: Seq::empty(),
            children: seq![t@],
        }),
{
    let r = node1(Kind::TypeRef { shared: true, mutable: false }, String::new(), copy_node(t));
    r
}

// ----- callable traits -----

/// Whether `t` holds a callable trait type anywhere but behind a path.
pub open spec fn contains_callable_m(t: NodeM) -> bool
    decreases t, 1nat,
{
    match t.kind {
        Kind::TypeCallable { .. } => true,
        Kind::TypeGeneric | Kind::TypeTuple | Kind::TypeSlice | Kind::TypeArray
        | Kind::TypeRef { .. } => contains_callable_list_m(t.children),
        _ => false,
    }
}

pub open spec fn contains_callable_list_m(ts: Seq<NodeM>) -> bool
    decreases ts, 0nat,
{
    ts.len() > 0 && (contains_callable_m(ts[0]) || contains_callable_list_m(ts.drop_first()))
}

/// Whether `t` holds a callable trait type.
pub fn contains_callable_trait(t: &Node) -> (b: bool)
    ensures
        b == contains_callable_m(t@),
    decreases t, 1nat,
{
    match t.kind {
        Kind::TypeCallable { .. } => true,
        Kind::TypeGeneric | Kind::TypeTuple | Kind::TypeSlice | Kind::TypeArray
        | Kind::TypeRef { .. } => contains_callable_in(&t.children),
        _ => false,
    }
}

fn contains_callable_in(l: &Nodes) -> (b: bool)
    ensures
        b == contains_callable_list_m(nodes_m(*l)),
    decreases l, 0nat,
{
    match l {
        Nodes::Nil => false,
        Nodes::Cons(h, rest) => {
            proof {
                lemma_cons(node_m(**h), nodes_m(**rest));
            }
            contains_callable_trait(h) || contains_callable_in(rest)
        },
    }
}

// ----- sameness -----

/// Whether the types `a` and `b` are written alike: the same kind of type
/// with the same names, qualifiers and lengths, over types written alike.
pub open spec fn same_type_m(a: NodeM, b: NodeM) -> bool
    decreases a, 1nat,
{
    match (a.kind, b.kind) {
        (Kind::TypePath, Kind::TypePath) => a.children == b.children,
        (Kind::TypeNamed, Kind::TypeNamed) => a.text == b.text,
        (Kind::TypeGeneric, Kind::TypeGeneric) => a.text == b.text && same_types_m(
            a.children,
            b.children,
        ),
        (Kind::TypeCallable { dynamic: d1 }, Kind::TypeCallable { dynamic: d2 }) => d1 == d2
            && a.text == b.text && same_types_m(a.children, b.children),
        (Kind::TypeRef { shared: s1, mutable: m1 }, Kind::TypeRef { shared: s2, mutable: m2 }) => s1
            == s2 && m1 == m2 && same_types_m(a.children, b.children),
        (Kind::TypeTuple, Kind::TypeTuple) | (Kind::TypeSlice, Kind::TypeSlice) => same_types_m(
            a.children,
            b.children,
        ),
        (Kind::TypeArray, Kind::TypeArray) => a.text == b.text && same_types_m(
            a.children,
            b.children,
        ),
        (Kind::TypeUnit, Kind::TypeUnit) | (Kind::TypeNever, Kind::TypeNever) => true,
        _ => false,
    }
}

/// Whether the lists of types `a` and `b` are as long and written alike, one
/// by one.
pub open spec fn same_types_m(a: Seq<NodeM>, b: Seq<NodeM>) -> bool
    decreases a, 0nat,
{
    a.len() == b.len() && (a.len() == 0 || (same_type_m(a[0], b[0]) && same_types_m(
        a.drop_first(),
        b.drop_first(),
    )))
}

/// Whether two lists of nodes are equal.
fn same_nodes(a: &Nodes, b: &Nodes) -> (r: bool)
    ensures
        r == (nodes_m(*a) == nodes_m(*b)),
    decreases a,
{
    match (a, b) {
        (Nodes::Nil, Nodes::Nil) => true,
        (Nodes::Cons(x, xs), Nodes::Cons(y, ys)) => {
            proof {
                lemma_cons(node_m(**x), nodes_m(**xs));
                lemma_cons(node_m(**y), nodes_m(**ys));
            }
            let head = same_node(x, y);
            if !head {
                assert(nodes_m(*a)[0] != nodes_m(*b)[0]);
                return false;
            }
            let tail = same_nodes(xs, ys);
            if !tail {
                assert(nodes_m(*a).drop_first() != nodes_m(*b).drop_first());
            }
            tail
        },
        (Nodes::Nil, Nodes::Cons(y, ys)) => {
            proof {
                lemma_cons(node_m(**y), nodes_m(**ys));
            }
            false
        },
        (Nodes::Cons(x, xs), Nodes::Nil) => {
            proof {
                lemma_cons(node_m(**x), nodes_m(**xs));
            }
            false
        },
    }
}

/// Whether two nodes are equal.
fn same_node(a: &Node, b: &Node) -> (r: bool)
    ensures
        r == (a@ == b@),
    decreases a,
{
    if a.kind != b.kind || a.text != b.text {
        return false;
    }
    let r = same_nodes(&a.children, &b.children);
    r
}

/// Whether the types `a` and `b` are written alike.
pub fn same_type(a: &Node, b: &Node) -> (r: bool)
    ensures
        r == same_type_m(a@, b@),
    decreases a, 1nat,
{
    match (a.kind, b.kind) {
        (Kind::TypePath, Kind::TypePath) => same_nodes(&a.children, &b.children),
        (Kind::TypeNamed, Kind::TypeNamed) => a.text == b.text,
        (Kind::TypeGeneric, Kind::TypeGeneric) | (Kind::TypeArray, Kind::TypeArray) => a.text
            == b.text && same_types(&a.children, &b.children),
        (Kind::TypeCallable { dynamic: d1 }, Kind::TypeCallable { dynamic: d2 }) => d1 == d2
            && a.text == b.text && same_types(&a.children, &b.children),
        (Kind::TypeRef { shared: s1, mutable: m1 }, Kind::TypeRef { shared: s2, mutable: m2 }) => s1
            == s2 && m1 == m2 && same_types(&a.children, &b.children),
        (Kind::TypeTuple, Kind::TypeTuple) | (Kind::TypeSlice, Kind::TypeSlice) => same_types(
            &a.children,
            &b.children,
        ),
        (Kind::TypeUnit, Kind::TypeUnit) | (Kind::TypeNever, Kind::TypeNever) => true,
        _ => false,
    }
}

fn same_types(a: &Nodes, b: &Nodes) -> (r: bool)
    ensures
        r == same_types_m(nodes_m(*a), nodes_m(*b)),
    decreases a, 0nat,
{
    match (a, b) {
        (Nodes::Nil, Nodes::Nil) => true,
        (Nodes::Cons(x, xs), Nodes::Cons(y, ys)) => {
            proof {
                lemma_cons(node_m(**x), nodes_m(**xs));
                lemma_cons(node_m(**y), nodes_m(**ys));
            }
            same_type(x, y) && same_types(xs, ys)
        },
        (Nodes::Nil, Nodes::Cons(y, ys)) => {
            proof {
                lemma_cons(node_m(**y), nodes_m(**ys));
            }
            false
        },
        (Nodes::Cons(x, xs), Nodes::Nil) => {
            proof {
                lemma_cons(node_m(**x), nodes_m(**xs));
            }
            false
        },
    }
}

/// Being written alike is symmetric.
pub proof fn lemma_same_type_symmetric(a: NodeM, b: NodeM)
    ensures
        same_type_m(a, b) == same_type_m(b, a),
    decreases a, 1nat,
{
    if a.children.len() == b.children.len() {
        lemma_same_types_symmetric(a.children, b.children);
    }
}

proof fn lemma_same_types_symmetric(a: Seq<NodeM>, b: Seq<NodeM>)
    requires
        a.len() == b.len(),
    ensures
        same_types_m(a, b) == same_types_m(b, a),
    decreases a, 0nat,
{
    if a.len() > 0 {
        lemma_same_type_symmetric(a[0], b[0]);
        lemma_same_types_symmetric(a.drop_first(), b.drop_first());
    }
}

// ----- sizes -----

/// The number of machine words a value of the primitive type `name` takes,
/// where `name` is one.
pub open spec fn primitive_size_words_m(name: Seq<char>) -> Option<usize> {
    if name == "bool"@ || name == "char"@ || name == "i8"@ || name == "i16"@ || name == "i32"@
        || name == "i64"@ || name == "isize"@ || name == "u8"@ || name == "u16"@ || name
        == "u32"@ || name == "u64"@ || name == "usize"@ || name == "f32"@ || name == "f64"@ {
        Some(1)
    } else if name == "i128"@ || name == "u128"@ {
        Some(2)
    } else {
        None
    }
}

/// The number of machine words a value of the primitive type `name` takes.
pub fn primitive_size_words(name: &String) -> (r: Option<usize>)
    ensures
        r == primitive_size_words_m(name@),
{
    if is_text(name, "bool") || is_text(name, "char") || is_text(name, "i8") || is_text(name, "i16")
        || is_text(name, "i32") || is_text(name, "i64") || is_text(name, "isize") || is_text(
        name,
        "u8",
    ) || is_text(name, "u16") || is_text(name, "u32") || is_text(name, "u64") || is_text(
        name,
        "usize",
    ) || is_text(name, "f32") || is_text(name, "f64") {
        Some(1)
    } else if is_text(name, "i128") || is_text(name, "u128") {
        Some(2)
    } else {
        None
    }
}


// ----- nominal families -----

/// The segments `segs` joined with `::`.
pub open spec fn join_path_m(segs: Seq<Seq<char>>) -> Seq<char>
    decreases segs.len(),
{
    if segs.len() == 0 {
        Seq::empty()
    } else if segs.len() == 1 {
        segs[0]
    } else {
        join_path_m(segs.drop_last()) + "::"@ + segs.last()
    }
}

/// The texts of the segments of a path type, each without its generic
/// arguments.
pub open spec fn segment_names_m(segs: Seq<NodeM>) -> Seq<Seq<char>> {
    segs.map_values(|n: NodeM| strip_path_segment_generics_m(n.text))
}

/// The nominal type constructor `t` is written with, without generic
/// arguments, where it is a named, generic or path type.
pub open spec fn outer_nominal_family_m(t: NodeM) -> Option<Seq<char>> {
    match t.kind {
        Kind::TypeNamed | Kind::TypeGeneric => Some(strip_path_segment_generics_m(t.text)),
        Kind::TypePath => Some(join_path_m(segment_names_m(t.children))),
        _ => None,
    }
}

/// Whether `t` carries the nominal family `family` by ownership: it is of
/// that family, or a generic type, tuple or array that owns such a type.
/// References and callable signatures only mention a type.
pub open spec fn carries_family_m(t: NodeM, family: Seq<char>) -> bool
    decreases t, 1nat,
{
    outer_nominal_family_m(t) == Some(family) || match t.kind {
        Kind::TypeGeneric | Kind::TypeTuple => carries_family_list_m(t.children, family),
        Kind::TypeArray => t.children.len() > 0 && carries_family_m(t.children[0], family),
        _ => false,
    }
}

pub open spec fn carries_family_list_m(ts: Seq<NodeM>, family: Seq<char>) -> bool
    decreases ts, 0nat,
{
    ts.len() > 0 && (carries_family_m(ts[0], family) || carries_family_list_m(ts.drop_first(), family))
}

/// The texts of the segments `l`, each without its generic arguments.
fn segment_names(l: &Nodes) -> (r: Vec<String>)
    ensures
        views(r@) == segment_names_m(nodes_m(*l)),
    decreases l,
{
    match l {
        Nodes::Nil => {
            let r: Vec<String> = Vec::new();
            assert(views(r@) =~= segment_names_m(nodes_m(*l)));
            r
        },
        Nodes::Cons(h, rest) => {
            proof {
                lemma_cons(node_m(**h), nodes_m(**rest));
            }
            let name = strip_path_segment_generics(h.text.as_str());
            let mut r: Vec<String> = Vec::new();
            r.push(name);
            let mut tail = segment_names(rest);
            let ghost tv = tail@;
            r.append(&mut tail);
            assert(r@ =~= seq![name] + tv);
            assert(views(r@) =~= seq![name@] + views(tv));
            assert(segment_names_m(nodes_m(*l)) =~= seq![strip_path_segment_generics_m(h.text@)]
                + segment_names_m(nodes_m(**rest)));
            r
        },
    }
}

/// The segments `segs` joined with `::`.
pub fn join_path(segs: &Vec<String>) -> (r: String)
    ensures
        r@ == join_path_m(views(segs@)),
{
    let ghost all = views(segs@);
    let mut r = String::new();
    let mut i: usize = 0;
    assert(all.subrange(0, 0) =~= Seq::<Seq<char>>::empty());
    proof {
        reveal_strlit("::");
    }
    while i < segs.len()
        invariant
            all == views(segs@),
            i <= all.len(),
            r@ == join_path_m(all.subrange(0, i as int)),
        decreases segs@.len() - i,
    {
        let ghost pre = all.subrange(0, i + 1);
        assert(pre.drop_last() =~= all.subrange(0, i as int));
        assert(pre.last() == segs@[i as int]@);
        if i > 0 {
            r.append("::");
        }
        r.append(segs[i].as_str());
        proof {
            if i == 0 {
                assert(pre =~= seq![segs@[i as int]@]);
                assert(r@ =~= segs@[i as int]@);
            } else {
                assert(r@ =~= join_path_m(all.subrange(0, i as int)) + "::"@ + segs@[i as int]@);
            }
        }
        i = i + 1;
    }
    assert(all.subrange(0, i as int) =~= all);
    r
}

/// The segments of the path `l` joined with `::`, each without its generic
/// arguments.
fn join_segments(l: &Nodes) -> (r: String)
    ensures
        r@ == join_path_m(segment_names_m(nodes_m(*l))),
{
    join_path(&segment_names(l))
}

/// The nominal type constructor `t` is written with, where it has one.
pub fn outer_nominal_family(t: &Node) -> (r: Option<String>)
    ensures
        match outer_nominal_family_m(t@) {
            Some(f) => r matches Some(x) && x@ == f,
            None => r is None,
        },
{
    match t.kind {
        Kind::TypeNamed | Kind::TypeGeneric => Some(strip_path_segment_generics(t.text.as_str())),
        Kind::TypePath => Some(join_segments(&t.children)),
        _ => None,
    }
}

/// Whether `t` carries the nominal family `family` by ownership.
pub fn type_carries_nominal_family(t: &Node, family: &String) -> (b: bool)
    ensures
        b == carries_family_m(t@, family@),
    decreases t, 1nat,
{
    if let Some(f) = outer_nominal_family(t) {
        if f == *family {
            return true;
        }
    }
    match t.kind {
        Kind::TypeGeneric | Kind::TypeTuple => carries_family_in(&t.children, family),
        Kind::TypeArray => match &t.children {
            Nodes::Cons(inner, rest) => {
                proof {
                    lemma_cons(node_m(**inner), nodes_m(**rest));
                }
                type_carries_nominal_family(inner, family)
            },
            Nodes::Nil => false,
        },
        _ => false,
    }
}

fn carries_family_in(l: &Nodes, family: &String) -> (b: bool)
    ensures
        b == carries_family_list_m(nodes_m(*l), family@),
    decreases l, 0nat,
{
    match l {
        Nodes::Nil => false,
        Nodes::Cons(h, rest) => {
            proof {
                lemma_cons(node_m(**h), nodes_m(**rest));
            }
            type_carries_nominal_family(h, family) || carries_family_in(rest, family)
        },
    }
}



// ----- nominal identities -----

/// The texts of the segments `segs`.
pub open spec fn segment_texts_m(segs: Seq<NodeM>) -> Seq<Seq<char>> {
    segs.map_values(|n: NodeM| n.text)
}

/// The path that identifies the nominal type `t` written in the module at
/// `module` with imports `imports`, where `t` is a named, generic or path
/// type whose name has a segment.
pub open spec fn nominal_type_id_m(
    t: NodeM,
    module: Seq<Seq<char>>,
    imports: Seq<(Seq<char>, Seq<Seq<char>>)>,
) -> Option<Seq<Seq<char>>> {
    match t.kind {
        Kind::TypeNamed | Kind::TypeGeneric => {
            let segs = parts_from_m(t.text, 0, 0);
            if segs.len() == 1 {
                Some(resolve_name_m(module, imports, strip_path_segment_generics_m(segs[0])))
            } else if segs.len() == 0 {
                None
            } else {
                Some(resolve_segments_m(module, imports, segs))
            }
        },
        Kind::TypePath => Some(resolve_segments_m(module, imports, segment_texts_m(t.children))),
        _ => None,
    }
}

/// The texts of the segments `l`.
pub(crate) fn segment_texts(l: &Nodes) -> (r: Vec<String>)
    ensures
        views(r@) == segment_texts_m(nodes_m(*l)),
    decreases l,
{
    match l {
        Nodes::Nil => {
            let r: Vec<String> = Vec::new();
            assert(views(r@) =~= segment_texts_m(nodes_m(*l)));
            r
        },
        Nodes::Cons(h, rest) => {
            proof {
                lemma_cons(node_m(**h), nodes_m(**rest));
            }
            let mut r: Vec<String> = Vec::new();
            let name = string_of(h.text.as_str());
            r.push(name);
            let mut tail = segment_texts(rest);
            let ghost tv = tail@;
            r.append(&mut tail);
            assert(r@ =~= seq![name] + tv);
            assert(views(r@) =~= seq![name@] + views(tv));
            assert(segment_texts_m(nodes_m(*l)) =~= seq![h.text@] + segment_texts_m(nodes_m(**rest)));
            r
        },
    }
}

/// The path that identifies the nominal type `t` written in `scope`.
pub fn nominal_type_id(t: &Node, scope: &ModuleScope) -> (r: Option<Vec<String>>)
    ensures
        match nominal_type_id_m(t@, views(scope.module_segments@), imports_m(scope.imports@)) {
            Some(p) => r matches Some(q) && views(q@) == p,
            None => r is None,
        },
{
    match t.kind {
        Kind::TypeNamed | Kind::TypeGeneric => {
            let segs = path_parts(t.text.as_str());
            if segs.len() == 1 {
                assert(views(segs@)[0] == segs@[0]@);
                let name = strip_path_segment_generics(segs[0].as_str());
                Some(scope.resolve_name_path(&name))
            } else if segs.len() == 0 {
                None
            } else {
                Some(scope.resolve_segments(&segs))
            }
        },
        Kind::TypePath => {
            let segs = segment_texts(&t.children);
            Some(scope.resolve_segments(&segs))
        },
        _ => None,
    }
}

/// The names of the generic parameters `gs`.
pub open spec fn generic_names_m(gs: Seq<NodeM>) -> Seq<Seq<char>> {
    gs.map_values(|g: NodeM| g.text)
}

/// The identity of the type an impl block implements for every
/// instantiation: the impl has no bounded generic parameter, and its target
/// is a plain nominal type where the impl has no generics, or a generic type
/// whose arguments are exactly the impl's generic parameters.
pub open spec fn unconditional_impl_target_id_m(
    impl_block: NodeM,
    module: Seq<Seq<char>>,
    imports: Seq<(Seq<char>, Seq<Seq<char>>)>,
) -> Option<Seq<Seq<char>>> {
    if impl_block.children.len() < 2 {
        None
    } else {
        let gs = impl_block.children[0].children;
        let target = impl_block.children[1];
        if exists|i: int| 0 <= i < gs.len() && #[trigger] gs[i].children.len() > 0 {
            None
        } else if target.kind is TypeNamed || target.kind is TypePath {
            if gs.len() == 0 {
                nominal_type_id_m(target, module, imports)
            } else {
                None
            }
        } else if target.kind is TypeGeneric && target.children.len() == gs.len() {
            let args = target.children;
            if (forall|i: int| 0 <= i < args.len() ==> #[trigger] args[i].kind is TypeNamed) && (
            forall|x: Seq<char>| #[trigger]
                generic_names_m(gs).contains(x) <==> segment_texts_m(args).contains(x)) {
                nominal_type_id_m(target, module, imports)
            } else {
                None
            }
        } else {
            None
        }
    }
}

/// Whether some node of `l` has children.
fn any_with_children(l: &Nodes) -> (b: bool)
    ensures
        b == exists|i: int| 0 <= i < nodes_m(*l).len() && #[trigger] nodes_m(*l)[i].children.len() > 0,
    decreases l,
{
    match l {
        Nodes::Nil => false,
        Nodes::Cons(h, rest) => {
            proof {
                lemma_cons(node_m(**h), nodes_m(**rest));
            }
            let here = !has_len(&h.children, 0);
            if here {
                assert(nodes_m(*l)[0].children.len() > 0);
                return true;
            }
            let later = any_with_children(rest);
            proof {
                let all = nodes_m(*l);
                if later {
                    let j = choose|j: int| 0 <= j < nodes_m(**rest).len() && #[trigger] nodes_m(
                        **rest,
                    )[j].children.len() > 0;
                    assert(all[j + 1] == nodes_m(**rest)[j]);
                } else {
                    assert(all[0] == h@);
                    assert forall|j: int| 0 <= j < all.len() implies !(#[trigger] all[j].children.len()
                        > 0) by {
                        if j > 0 {
                            assert(all[j] == nodes_m(**rest)[j - 1]);
                            assert(!(nodes_m(**rest)[j - 1].children.len() > 0));
                        } else {
                            assert(all[j].children == nodes_m(h.children));
                        }
                    }
                }
            }
            later
        },
    }
}

/// Whether every node of `l` is a named type.
fn all_named(l: &Nodes) -> (b: bool)
    ensures
        b == forall|i: int| 0 <= i < nodes_m(*l).len() ==> #[trigger] nodes_m(*l)[i].kind is TypeNamed,
    decreases l,
{
    match l {
        Nodes::Nil => true,
        Nodes::Cons(h, rest) => {
            proof {
                lemma_cons(node_m(**h), nodes_m(**rest));
            }
            if !matches!(h.kind, Kind::TypeNamed) {
                assert(!(nodes_m(*l)[0].kind is TypeNamed));
                return false;
            }
            let later = all_named(rest);
            proof {
                let all = nodes_m(*l);
                if later {
                    assert forall|j: int| 0 <= j < all.len() implies #[trigger] all[j].kind is TypeNamed by {
                        if j > 0 {
                            assert(all[j] == nodes_m(**rest)[j - 1]);
                        }
                    }
                } else {
                    let j = choose|j: int| 0 <= j < nodes_m(**rest).len() && !(#[trigger] nodes_m(
                        **rest,
                    )[j].kind is TypeNamed);
                    assert(all[j + 1] == nodes_m(**rest)[j]);
                }
            }
            later
        },
    }
}

/// Whether every name of `a` is among `b`.
fn names_within(a: &Vec<String>, b: &Vec<String>) -> (r: bool)
    ensures
        r == forall|x: Seq<char>| views(a@).contains(x) ==> #[trigger] views(b@).contains(x),
{
    let mut i: usize = 0;
    while i < a.len()
        invariant
            i <= a@.len(),
            forall|j: int| 0 <= j < i ==> #[trigger] views(b@).contains(a@[j]@),
        decreases a@.len() - i,
    {
        if !contains_text(b, &a[i]) {
            assert(views(a@)[i as int] == a@[i as int]@);
            return false;
        }
        i = i + 1;
    }
    assert forall|x: Seq<char>| views(a@).contains(x) implies #[trigger] views(b@).contains(x) by {
        let j = choose|j: int| 0 <= j < views(a@).len() && views(a@)[j] == x;
        assert(views(a@)[j] == a@[j]@);
    }
    true
}

/// The identity of the type an impl block implements for every
/// instantiation, where it implements one.
pub fn unconditional_impl_target_id(impl_block: &Node, scope: &ModuleScope) -> (r: Option<Vec<String>>)
    ensures
        match unconditional_impl_target_id_m(
            impl_block@,
            views(scope.module_segments@),
            imports_m(scope.imports@),
        ) {
            Some(p) => r matches Some(q) && views(q@) == p,
            None => r is None,
        },
{
    let generics = match crate::model::child(&impl_block.children, 0) {
        Some(g) => g,
        None => {
            return None;
        },
    };
    let target = match crate::model::child(&impl_block.children, 1) {
        Some(t) => t,
        None => {
            return None;
        },
    };
    assert(generics@ == impl_block@.children[0]);
    assert(target@ == impl_block@.children[1]);
    if any_with_children(&generics.children) {
        proof {
            let gs = impl_block@.children[0].children;
            assert(gs == nodes_m(generics.children));
            let i = choose|i: int| 0 <= i < gs.len() && #[trigger] gs[i].children.len() > 0;
        }
        return None;
    }
    match target.kind {
        Kind::TypeNamed | Kind::TypePath => {
            if has_len(&generics.children, 0) {
                nominal_type_id(target, scope)
            } else {
                None
            }
        },
        Kind::TypeGeneric => {
            if !same_length(&target.children, &generics.children) || !all_named(&target.children) {
                return None;
            }
            let gnames = segment_texts(&generics.children);
            let anames = segment_texts(&target.children);
            let ghost gs = nodes_m(generics.children);
            assert(segment_texts_m(gs) =~= generic_names_m(gs));
            if names_within(&gnames, &anames) && names_within(&anames, &gnames) {
                nominal_type_id(target, scope)
            } else {
                None
            }
        },
        _ => None,
    }
}

/// Whether two lists hold as many nodes.
fn same_length(a: &Nodes, b: &Nodes) -> (r: bool)
    ensures
        r == (nodes_m(*a).len() == nodes_m(*b).len()),
    decreases a,
{
    match (a, b) {
        (Nodes::Nil, Nodes::Nil) => true,
        (Nodes::Cons(x, xs), Nodes::Cons(y, ys)) => {
            proof {
                lemma_cons(node_m(**x), nodes_m(**xs));
                lemma_cons(node_m(**y), nodes_m(**ys));
            }
            same_length(xs, ys)
        },
        (Nodes::Nil, Nodes::Cons(y, ys)) => {
            proof {
                lemma_cons(node_m(**y), nodes_m(**ys));
            }
            false
        },
        (Nodes::Cons(x, xs), Nodes::Nil) => {
            proof {
                lemma_cons(node_m(**x), nodes_m(**xs));
            }
            false
        },
    }
}


// ----- type parameter substitution -----

/// `t` with each named type that `s` maps replaced by what it maps to.
pub open spec fn subst_type_m(t: NodeM, s: Seq<(Seq<char>, NodeM)>) -> NodeM
    decreases t, 1nat,
{
    match t.kind {
        Kind::TypeNamed => match lookup_m(s, t.text) {
            Some(r) => r,
            None => t,
        },
        Kind::TypeGeneric | Kind::TypeTuple | Kind::TypeArray | Kind::TypeRef { .. }
        | Kind::TypeSlice | Kind::TypeCallable { .. } => NodeM {
            kind: t.kind,
            text: t.text,
            children: subst_types_m(t.children, s),
        },
        _ => t,
    }
}

pub open spec fn subst_types_m(ts: Seq<NodeM>, s: Seq<(Seq<char>, NodeM)>) -> Seq<NodeM>
    decreases ts, 0nat,
{
    if ts.len() == 0 {
        ts
    } else {
        seq![subst_type_m(ts[0], s)] + subst_types_m(ts.drop_first(), s)
    }
}

/// `t` with each named type that `s` maps replaced by what it maps to.
pub fn apply_type_subst(t: &Node, s: &Vec<(String, Node)>) -> (r: Node)
    ensures
        r@ == subst_type_m(t@, subst_view(s@)),
    decreases t, 1nat,
{
    match t.kind {
        Kind::TypeNamed => match lookup(s, &t.text) {
            Some(r) => r,
            None => copy_node(t),
        },
        Kind::TypeGeneric | Kind::TypeTuple | Kind::TypeArray | Kind::TypeRef { .. }
        | Kind::TypeSlice | Kind::TypeCallable { .. } => Node {
            kind: t.kind,
            text: t.text.clone(),
            children: apply_type_subst_list(&t.children, s),
        },
        _ => copy_node(t),
    }
}

fn apply_type_subst_list(l: &Nodes, s: &Vec<(String, Node)>) -> (r: Nodes)
    ensures
        nodes_m(r) == subst_types_m(nodes_m(*l), subst_view(s@)),
    decreases l, 0nat,
{
    match l {
        Nodes::Nil => Nodes::Nil,
        Nodes::Cons(h, rest) => {
            proof {
                lemma_cons(node_m(**h), nodes_m(**rest));
            }
            let h2 = apply_type_subst(h, s);
            let tail = apply_type_subst_list(rest, s);
            let r = Nodes::Cons(Box::new(h2), Box::new(tail));
            assert(nodes_m(r) == seq![h2@] + nodes_m(tail));
            r
        },
    }
}

/// The substitution that instantiates a datatype with generic parameters
/// `generics` at the type `t`: each parameter to the matching argument,
/// where `t` is a generic type with one argument per parameter.
pub open spec fn type_substitution_m(generics: Seq<Seq<char>>, t: NodeM) -> Seq<(Seq<char>, NodeM)> {
    if t.kind is TypeGeneric && t.children.len() == generics.len() {
        Seq::new(generics.len(), |i: int| (generics[i], t.children[i]))
    } else {
        Seq::empty()
    }
}

/// The substitution that instantiates a datatype with generic parameters
/// `generics` at the type `t`.
pub fn type_substitution(generics: &Vec<String>, t: &Node) -> (r: Vec<(String, Node)>)
    ensures
        subst_view(r@) == type_substitution_m(views(generics@), t@),
{
    let mut r: Vec<(String, Node)> = Vec::new();
    if !matches!(t.kind, Kind::TypeGeneric) {
        assert(subst_view(r@) =~= type_substitution_m(views(generics@), t@));
        return r;
    }
    let ghost args = nodes_m(t.children);
    let mut cur: &Nodes = &t.children;
    let mut i: usize = 0;
    assert(args.subrange(0, args.len() as int) =~= args);
    while i < generics.len()
        invariant
            i <= generics@.len(),
            args == nodes_m(t.children),
            i <= args.len(),
            nodes_m(*cur) == args.subrange(i as int, args.len() as int),
            subst_view(r@).len() == i,
            forall|j: int| 0 <= j < i ==> #[trigger] subst_view(r@)[j] == (generics@[j]@, args[j]),
        decreases generics@.len() - i,
    {
        match cur {
            Nodes::Nil => {
                let empty: Vec<(String, Node)> = Vec::new();
                assert(args.len() != generics@.len());
                assert(subst_view(empty@) =~= type_substitution_m(views(generics@), t@));
                return empty;
            },
            Nodes::Cons(h, rest) => {
                proof {
                    lemma_cons(node_m(**h), nodes_m(**rest));
                }
                assert(args[i as int] == h@);
                let ghost before = r@;
                let name = string_of(generics[i].as_str());
                let ty = copy_node(h);
                r.push((name, ty));
                assert(subst_view(r@) =~= subst_view(before).push((generics@[i as int]@, args[i as int])));
                assert(nodes_m(**rest) =~= args.subrange(i + 1, args.len() as int));
                cur = rest;
                i = i + 1;
            },
        }
    }
    match cur {
        Nodes::Nil => {
            assert(args.len() == generics@.len());
            assert(subst_view(r@) =~= type_substitution_m(views(generics@), t@));
            r
        },
        Nodes::Cons(h, rest) => {
            proof {
                lemma_cons(node_m(**h), nodes_m(**rest));
            }
            let empty: Vec<(String, Node)> = Vec::new();
            assert(args.len() != generics@.len());
            assert(subst_view(empty@) =~= type_substitution_m(views(generics@), t@));
            empty
        },
    }
}

/// Substituting with the empty substitution changes nothing.
pub proof fn lemma_subst_type_nothing(t: NodeM)
    ensures
        subst_type_m(t, Seq::empty()) == t,
    decreases t, 1nat,
{
    lemma_subst_types_nothing(t.children);
}

proof fn lemma_subst_types_nothing(ts: Seq<NodeM>)
    ensures
        subst_types_m(ts, Seq::empty()) == ts,
    decreases ts, 0nat,
{
    if ts.len() > 0 {
        lemma_subst_type_nothing(ts[0]);
        lemma_subst_types_nothing(ts.drop_first());
        assert(seq![ts[0]] + ts.drop_first() =~= ts);
    }
}


// ----- families in scope -----

/// The nominal family of `t` in the module at `module`: the path that
/// identifies it joined with `::`, or else the constructor it is written
/// with.
pub open spec fn family_in_scope_m(
    t: NodeM,
    module: Seq<Seq<char>>,
    imports: Seq<(Seq<char>, Seq<Seq<char>>)>,
) -> Option<Seq<char>> {
    match nominal_type_id_m(t, module, imports) {
        Some(id) => Some(join_path_m(id)),
        None => outer_nominal_family_m(t),
    }
}

/// The nominal family of `t` written in `scope`.
pub fn outer_nominal_family_in_scope(t: &Node, scope: &ModuleScope) -> (r: Option<String>)
    ensures
        match family_in_scope_m(t@, views(scope.module_segments@), imports_m(scope.imports@)) {
            Some(f) => r matches Some(x) && x@ == f,
            None => r is None,
        },
{
    match nominal_type_id(t, scope) {
        Some(id) => Some(join_path(&id)),
        None => outer_nominal_family(t),
    }
}

/// Whether `a` and `b`, written in `scope`, are of the same nominal family.
pub fn same_outer_nominal_family_in_scope(a: &Node, b: &Node, scope: &ModuleScope) -> (r: bool)
    ensures
        r == (family_in_scope_m(a@, views(scope.module_segments@), imports_m(scope.imports@)) is Some
            && family_in_scope_m(a@, views(scope.module_segments@), imports_m(scope.imports@))
            == family_in_scope_m(b@, views(scope.module_segments@), imports_m(scope.imports@))),
{
    match (outer_nominal_family_in_scope(a, scope), outer_nominal_family_in_scope(b, scope)) {
        (Some(x), Some(y)) => x == y,
        _ => false,
    }
}

// ----- callable return types -----

/// The type a call of a value of type `t` returns: that of a callable
/// trait, seen through references and `Rc`, `Arc` and `Box`.
pub open spec fn callable_return_type_m(t: NodeM) -> Option<NodeM>
    decreases t,
{
    match t.kind {
        Kind::TypeCallable { .. } => if t.children.len() > 0 {
            Some(t.children.last())
        } else {
            None
        },
        Kind::TypeGeneric => if (type_name_leaf_m(t.text) == "Rc"@ || type_name_leaf_m(t.text)
            == "Arc"@ || type_name_leaf_m(t.text) == "Box"@) && t.children.len() == 1 {
            callable_return_type_m(t.children[0])
        } else {
            None
        },
        Kind::TypeRef { .. } => if t.children.len() > 0 {
            callable_return_type_m(t.children[0])
        } else {
            None
        },
        _ => None,
    }
}

/// The type a call of a value of type `t` returns.
pub fn callable_return_type(t: &Node) -> (r: Option<Node>)
    ensures
        match callable_return_type_m(t@) {
            Some(m) => r matches Some(x) && x@ == m,
            None => r is None,
        },
    decreases t,
{
    match t.kind {
        Kind::TypeCallable { .. } => match crate::model::last_node(&t.children) {
            Some(ret) => Some(copy_node(ret)),
            None => None,
        },
        Kind::TypeGeneric => {
            let leaf = type_name_leaf(t.text.as_str());
            if (is_text(&leaf, "Rc") || is_text(&leaf, "Arc") || is_text(&leaf, "Box")) && has_len(
                &t.children,
                1,
            ) {
                match &t.children {
                    Nodes::Cons(inner, rest) => {
                        proof {
                            lemma_cons(node_m(**inner), nodes_m(**rest));
                        }
                        callable_return_type(inner)
                    },
                    Nodes::Nil => None,
                }
            } else {
                None
            }
        },
        Kind::TypeRef { .. } => match &t.children {
            Nodes::Cons(inner, rest) => {
                proof {
                    lemma_cons(node_m(**inner), nodes_m(**rest));
                }
                callable_return_type(inner)
            },
            Nodes::Nil => None,
        },
        _ => None,
    }
}

} // verus!
