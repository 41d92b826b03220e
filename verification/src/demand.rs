//! Ownership demands and the conditions the borrow analysis draws from them.
//!
//! Each use of a parameter, or of a value derived from it, places a demand
//! on its ownership. Whether the parameter may be passed by shared reference
//! (safety) and whether it should nonetheless stay owned (preference) are
//! decided separately, from the set of demands collected over the body.
use vstd::prelude::*;

use crate::ast::{Kind, Node, Nodes};
use crate::closure_binding::name_set_ok;
use crate::driver::opt_view;
use crate::model::{has_len, lemma_cons, node_m, nodes_m, NodeM};
use crate::module_scope::{imports_m, ModuleScope};
use crate::text::{contains_text, is_text, string_of, views};
use crate::type_shape::{family_in_scope_m, outer_nominal_family_in_scope};

verus! {

/// How a value the source already owns was duplicated.
#[derive(Clone, Copy, Debug, PartialEq, Eq, Structural)]
pub enum DupUse {
    /// By an explicit `.clone()` in the source.
    ExplicitClone,
    /// By copying a value whose type is `Copy`.
    CopyUse,
}

/// Whether a move out of a shared origin can be met by copying or cloning
/// the value locally.
#[derive(Clone, Copy, Debug, PartialEq, Eq, Structural)]
pub enum Materialization {
    Available,
    Unavailable,
}

/// Where a value derived from the analysed parameter comes from: the root
/// or a field of the same recursive family (`Structure`), or a selected
/// non-recursive field (`Payload`).
#[derive(Clone, Copy, Debug, PartialEq, Eq, Structural)]
pub enum Origin {
    Structure,
    Payload,
}

/// How a value moves, with its origin and the name it moves under.
#[derive(Debug)]
pub enum MoveUse {
    /// The function returns a derived binding directly.
    Return(Origin, String),
    /// The value flows into an aggregate, a binding, a constructor or an
    /// owning callee.
    OwnedSink(Origin, String),
    /// The value is captured by a closure that takes ownership.
    ClosureCapture(Origin, String),
}

/// An ownership demand on a parameter or a value derived from it.
#[derive(Debug)]
pub enum Demand {
    /// Purely observational: a match scrutinee, a Boolean test.
    Obs,
    /// Consumed through a borrowed interface (`&x`, `.as_ref()`).
    Bor,
    /// A duplication the source already makes.
    Dup(DupUse),
    /// A genuine transfer of ownership, with whether the owned value can be
    /// rebuilt locally once the origin is shared.
    Move(MoveUse, Materialization),
    /// Several payloads are moved into one returned aggregate.
    AggregatePayloadReturn,
    /// The borrow would escape.
    Esc,
    /// An ownership form the analysis does not know.
    Unk,
}

// ----- safety and preference -----

/// Whether a demand leaves a local substitution rewrite safe: it only
/// observes, borrows or duplicates.
pub open spec fn local_safe_m(d: Demand) -> bool {
    d is Obs || d is Bor || d is Dup
}

/// Whether a demand leaves sharing the parameter safe: it only observes,
/// borrows, duplicates, moves a value that can be rebuilt locally, or
/// returns payloads in an aggregate.
pub open spec fn interface_safe_m(d: Demand) -> bool {
    match d {
        Demand::Obs | Demand::Bor | Demand::Dup(_) | Demand::AggregatePayloadReturn => true,
        Demand::Move(_, m) => m == Materialization::Available,
        _ => false,
    }
}

/// The origin and kind of a move.
pub open spec fn move_origin_m(u: MoveUse) -> Origin {
    match u {
        MoveUse::Return(o, _) => o,
        MoveUse::OwnedSink(o, _) => o,
        MoveUse::ClosureCapture(o, _) => o,
    }
}

/// Whether a demand makes owning the parameter preferable: a move of
/// recursive structure, payloads returned in an aggregate, a payload
/// consumed by an owning operation, or a returned payload where the result
/// rebuilds the input's family.
pub open spec fn prefers_owned_m(d: Demand, rebuilds_input_family: bool) -> bool {
    match d {
        Demand::Move(u, _) => move_origin_m(u) == Origin::Structure || !(u is Return)
            || rebuilds_input_family,
        Demand::AggregatePayloadReturn => true,
        _ => false,
    }
}

/// Whether every demand of `ds` leaves a local substitution rewrite safe.
pub fn local_rewrite_safe(ds: &Vec<Demand>) -> (b: bool)
    ensures
        b == forall|i: int| 0 <= i < ds@.len() ==> local_safe_m(#[trigger] ds@[i]),
{
    let mut i: usize = 0;
    while i < ds.len()
        invariant
            i <= ds@.len(),
            forall|j: int| 0 <= j < i ==> local_safe_m(#[trigger] ds@[j]),
        decreases ds@.len() - i,
    {
        match &ds[i] {
            Demand::Obs | Demand::Bor | Demand::Dup(_) => {},
            _ => {
                return false;
            },
        }
        i = i + 1;
    }
    true
}

/// Whether every demand of `ds` leaves sharing the parameter safe.
pub fn interface_borrow_safe(ds: &Vec<Demand>) -> (b: bool)
    ensures
        b == forall|i: int| 0 <= i < ds@.len() ==> interface_safe_m(#[trigger] ds@[i]),
{
    let mut i: usize = 0;
    while i < ds.len()
        invariant
            i <= ds@.len(),
            forall|j: int| 0 <= j < i ==> interface_safe_m(#[trigger] ds@[j]),
        decreases ds@.len() - i,
    {
        let ok = match &ds[i] {
            Demand::Obs | Demand::Bor | Demand::Dup(_) | Demand::AggregatePayloadReturn => true,
            Demand::Move(_, Materialization::Available) => true,
            _ => false,
        };
        if !ok {
            return false;
        }
        i = i + 1;
    }
    true
}

/// Whether some demand of `ds` makes owning the parameter preferable.
pub fn prefer_owned(ds: &Vec<Demand>, rebuilds_input_family: bool) -> (b: bool)
    ensures
        b == exists|i: int| 0 <= i < ds@.len() && prefers_owned_m(#[trigger] ds@[i], rebuilds_input_family),
{
    let mut i: usize = 0;
    while i < ds.len()
        invariant
            i <= ds@.len(),
            forall|j: int| 0 <= j < i ==> !prefers_owned_m(#[trigger] ds@[j], rebuilds_input_family),
        decreases ds@.len() - i,
    {
        let prefers = match &ds[i] {
            Demand::Move(MoveUse::Return(Origin::Structure, _), _)
            | Demand::Move(MoveUse::OwnedSink(Origin::Structure, _), _)
            | Demand::Move(MoveUse::ClosureCapture(Origin::Structure, _), _) => true,
            Demand::AggregatePayloadReturn => true,
            Demand::Move(MoveUse::OwnedSink(Origin::Payload, _), _)
            | Demand::Move(MoveUse::ClosureCapture(Origin::Payload, _), _) => true,
            Demand::Move(MoveUse::Return(Origin::Payload, _), _) => rebuilds_input_family,
            _ => false,
        };
        if prefers {
            return true;
        }
        i = i + 1;
    }
    false
}

/// A demand set safe for a local rewrite is safe for sharing the parameter
/// too: the local condition is the stricter one.
pub proof fn lemma_local_safe_implies_interface_safe(ds: Seq<Demand>)
    requires
        forall|i: int| 0 <= i < ds.len() ==> local_safe_m(#[trigger] ds[i]),
    ensures
        forall|i: int| 0 <= i < ds.len() ==> interface_safe_m(#[trigger] ds[i]),
{
    assert forall|i: int| 0 <= i < ds.len() implies interface_safe_m(#[trigger] ds[i]) by {
        assert(local_safe_m(ds[i]));
    }
}

/// A demand set safe for a local rewrite never prefers ownership, whatever
/// the result rebuilds: it holds no move.
pub proof fn lemma_local_safe_never_prefers_owned(ds: Seq<Demand>, rebuilds_input_family: bool)
    requires
        forall|i: int| 0 <= i < ds.len() ==> local_safe_m(#[trigger] ds[i]),
    ensures
        !exists|i: int| 0 <= i < ds.len() && prefers_owned_m(#[trigger] ds[i], rebuilds_input_family),
{
    assert forall|i: int| 0 <= i < ds.len() implies !prefers_owned_m(
        #[trigger] ds[i],
        rebuilds_input_family,
    ) by {
        assert(local_safe_m(ds[i]));
    }
}

// ----- derived origins -----

/// The names whose values come from the parameter under analysis, with the
/// subset that carries its structure, and the nominal family of its type.
pub struct DerivedOrigins {
    pub all: Vec<String>,
    pub structural: Vec<String>,
    pub root_family: Option<String>,
}

impl DerivedOrigins {
    /// Each name held once, and every structural name among all names.
    pub open spec fn wf(&self) -> bool {
        &&& name_set_ok(self.all@)
        &&& name_set_ok(self.structural@)
        &&& forall|x: Seq<char>| #[trigger]
            views(self.structural@).contains(x) ==> views(self.all@).contains(x)
    }

    /// Whether `x` is derived from the parameter.
    pub open spec fn has(&self, x: Seq<char>) -> bool {
        views(self.all@).contains(x)
    }

    /// Whether `x` carries the parameter's structure.
    pub open spec fn carries(&self, x: Seq<char>) -> bool {
        views(self.structural@).contains(x)
    }

    /// The origin of `x`, where it is derived from the parameter.
    pub open spec fn origin_m(&self, x: Seq<char>) -> Option<Origin> {
        if !self.has(x) {
            None
        } else if self.carries(x) {
            Some(Origin::Structure)
        } else {
            Some(Origin::Payload)
        }
    }

    /// The origins of the parameter `name` of type `ty`, written in `scope`:
    /// the parameter itself, carrying its structure, with the nominal family
    /// of its type.
    pub fn for_parameter(name: &str, ty: &Node, scope: &ModuleScope) -> (d: DerivedOrigins)
        ensures
            d.wf(),
            forall|x: Seq<char>| #[trigger] d.has(x) <==> x == name@,
            forall|x: Seq<char>| #[trigger] d.carries(x) <==> x == name@,
            opt_view(d.root_family) == family_in_scope_m(
                ty@,
                views(scope.module_segments@),
                imports_m(scope.imports@),
            ),
    {
        DerivedOrigins::with_root_family(name, outer_nominal_family_in_scope(ty, scope))
    }

    /// The origins of the parameter `name` itself, whose type belongs to the
    /// nominal family `root_family` (where it has one).
    pub fn with_root_family(name: &str, root_family: Option<String>) -> (d: DerivedOrigins)
        ensures
            d.wf(),
            forall|x: Seq<char>| #[trigger] d.has(x) <==> x == name@,
            forall|x: Seq<char>| #[trigger] d.carries(x) <==> x == name@,
            opt_view(d.root_family) == opt_view(root_family),
    {
        let mut all: Vec<String> = Vec::new();
        all.push(string_of(name));
        let mut structural: Vec<String> = Vec::new();
        structural.push(string_of(name));
        assert(views(all@) =~= seq![name@]);
        assert(views(structural@) =~= seq![name@]);
        let d = DerivedOrigins { all, structural, root_family };
        assert forall|x: Seq<char>| #[trigger] d.has(x) <==> x == name@ by {
            if x == name@ {
                assert(views(d.all@)[0] == x);
            }
        }
        assert forall|x: Seq<char>| #[trigger] d.carries(x) <==> x == name@ by {
            if x == name@ {
                assert(views(d.structural@)[0] == x);
            }
        }
        d
    }

    /// Whether `name` is derived from the parameter.
    pub fn contains(&self, name: &String) -> (b: bool)
        ensures
            b == self.has(name@),
    {
        contains_text(&self.all, name)
    }

    /// Whether no name is derived from the parameter.
    pub fn is_empty(&self) -> (b: bool)
        ensures
            b == forall|x: Seq<char>| !#[trigger] self.has(x),
    {
        if self.all.len() == 0 {
            true
        } else {
            assert(self.has(views(self.all@)[0]));
            false
        }
    }

    /// The origin of `name`, where it is derived from the parameter.
    pub fn origin(&self, name: &String) -> (o: Option<Origin>)
        ensures
            o == self.origin_m(name@),
    {
        if !contains_text(&self.all, name) {
            None
        } else if contains_text(&self.structural, name) {
            Some(Origin::Structure)
        } else {
            Some(Origin::Payload)
        }
    }

    /// Records `name` as derived, with origin `origin`.
    pub fn insert(&mut self, name: String, origin: Origin)
        requires
            old(self).wf(),
        ensures
            final(self).wf(),
            forall|x: Seq<char>| #[trigger] final(self).has(x) <==> old(self).has(x) || x == name@,
            forall|x: Seq<char>| #[trigger]
                final(self).carries(x) <==> if x == name@ {
                    origin == Origin::Structure
                } else {
                    old(self).carries(x)
                },
            opt_view(final(self).root_family) == opt_view(old(self).root_family),
    {
        crate::closure_binding::insert_name(&mut self.all, &name);
        if origin == Origin::Structure {
            crate::closure_binding::insert_name(&mut self.structural, &name);
        } else {
            remove_name(&mut self.structural, &name);
        }
    }

    /// Forgets `name`.
    pub fn remove(&mut self, name: &String)
        requires
            old(self).wf(),
        ensures
            final(self).wf(),
            forall|x: Seq<char>| #[trigger] final(self).has(x) <==> old(self).has(x) && x != name@,
            forall|x: Seq<char>| #[trigger]
                final(self).carries(x) <==> old(self).carries(x) && x != name@,
            opt_view(final(self).root_family) == opt_view(old(self).root_family),
    {
        remove_name(&mut self.all, name);
        remove_name(&mut self.structural, name);
    }

    /// These origins without the names `names`.
    pub fn without(&self, names: &Vec<String>) -> (d: DerivedOrigins)
        requires
            self.wf(),
        ensures
            d.wf(),
            forall|x: Seq<char>| #[trigger] d.has(x) <==> self.has(x) && !views(names@).contains(x),
            forall|x: Seq<char>| #[trigger]
                d.carries(x) <==> self.carries(x) && !views(names@).contains(x),
            opt_view(d.root_family) == opt_view(self.root_family),
    {
        let mut d = self.copy();
        let mut i: usize = 0;
        while i < names.len()
            invariant
                i <= names@.len(),
                d.wf(),
                self.wf(),
                forall|x: Seq<char>| #[trigger]
                    d.has(x) <==> self.has(x) && !views(names@).subrange(0, i as int).contains(x),
                forall|x: Seq<char>| #[trigger]
                    d.carries(x) <==> self.carries(x) && !views(names@).subrange(0, i as int).contains(x),
                opt_view(d.root_family) == opt_view(self.root_family),
            decreases names@.len() - i,
        {
            let ghost seen = views(names@).subrange(0, i as int);
            let ghost seen_next = views(names@).subrange(0, i + 1);
            assert(seen_next =~= seen.push(names@[i as int]@));
            d.remove(&names[i]);
            assert forall|x: Seq<char>| #[trigger] seen_next.contains(x) <==> seen.contains(x) || x
                == names@[i as int]@ by {
                if seen_next.contains(x) && x != names@[i as int]@ {
                    let k = choose|k: int| 0 <= k < seen_next.len() && seen_next[k] == x;
                    assert(seen[k] == x);
                }
                if seen.contains(x) {
                    let k = choose|k: int| 0 <= k < seen.len() && seen[k] == x;
                    assert(seen_next[k] == x);
                }
                if x == names@[i as int]@ {
                    assert(seen_next[i as int] == x);
                }
            }
            i = i + 1;
        }
        assert(views(names@).subrange(0, names@.len() as int) =~= views(names@));
        d
    }

    /// A copy of these origins.
    pub fn copy(&self) -> (d: DerivedOrigins)
        ensures
            views(d.all@) == views(self.all@),
            views(d.structural@) == views(self.structural@),
            opt_view(d.root_family) == opt_view(self.root_family),
    {
        DerivedOrigins {
            all: copy_names(&self.all),
            structural: copy_names(&self.structural),
            root_family: match &self.root_family {
                Some(f) => Some(string_of(f.as_str())),
                None => None,
            },
        }
    }
}

/// A copy of the names `v`.
fn copy_names(v: &Vec<String>) -> (r: Vec<String>)
    ensures
        views(r@) == views(v@),
{
    let mut r: Vec<String> = Vec::new();
    let mut i: usize = 0;
    while i < v.len()
        invariant
            i <= v@.len(),
            views(r@) == views(v@).subrange(0, i as int),
        decreases v@.len() - i,
    {
        let ghost before = r@;
        r.push(string_of(v[i].as_str()));
        assert(views(r@) =~= views(before).push(v@[i as int]@));
        assert(views(v@).subrange(0, i + 1) =~= views(v@).subrange(0, i as int).push(v@[i as int]@));
        i = i + 1;
    }
    assert(views(v@).subrange(0, v@.len() as int) =~= views(v@));
    r
}

/// Takes `name` out of the names `v`.
fn remove_name(v: &mut Vec<String>, name: &String)
    requires
        name_set_ok(old(v)@),
    ensures
        name_set_ok(final(v)@),
        forall|x: Seq<char>| #[trigger]
            views(final(v)@).contains(x) <==> views(old(v)@).contains(x) && x != name@,
{
    let ghost src = views(v@);
    let mut r: Vec<String> = Vec::new();
    let mut i: usize = 0;
    while i < v.len()
        invariant
            i <= v@.len(),
            src == views(v@),
            src.no_duplicates(),
            views(r@).no_duplicates(),
            forall|x: Seq<char>| #[trigger]
                views(r@).contains(x) <==> src.subrange(0, i as int).contains(x) && x != name@,
        decreases v@.len() - i,
    {
        let ghost seen = src.subrange(0, i as int);
        let ghost seen_next = src.subrange(0, i + 1);
        let ghost cur = src[i as int];
        assert(seen_next =~= seen.push(cur));
        assert(cur == v@[i as int]@);
        assert forall|x: Seq<char>| #[trigger] seen_next.contains(x) <==> seen.contains(x) || x
            == cur by {
            if seen_next.contains(x) && x != cur {
                let k = choose|k: int| 0 <= k < seen_next.len() && seen_next[k] == x;
                assert(seen[k] == x);
            }
            if seen.contains(x) {
                let k = choose|k: int| 0 <= k < seen.len() && seen[k] == x;
                assert(seen_next[k] == x);
            }
            if x == cur {
                assert(seen_next[i as int] == x);
            }
        }
        if v[i] != *name {
            assert(!seen.contains(cur)) by {
                if seen.contains(cur) {
                    let k = choose|k: int| 0 <= k < seen.len() && seen[k] == cur;
                    assert(src[k] == src[i as int]);
                }
            }
            let ghost before = views(r@);
            r.push(string_of(v[i].as_str()));
            assert(views(r@) =~= before.push(cur));
            assert forall|x: Seq<char>| #[trigger] views(r@).contains(x) <==> before.contains(x)
                || x == cur by {
                if views(r@).contains(x) && x != cur {
                    let k = choose|k: int| 0 <= k < views(r@).len() && views(r@)[k] == x;
                    assert(before[k] == x);
                }
                if before.contains(x) {
                    let k = choose|k: int| 0 <= k < before.len() && before[k] == x;
                    assert(views(r@)[k] == x);
                }
                if x == cur {
                    assert(views(r@)[before.len() as int] == x);
                }
            }
            assert(views(r@).no_duplicates()) by {
                assert forall|a: int, b: int| 0 <= a < b < views(r@).len() implies views(r@)[a]
                    != views(r@)[b] by {
                    if b == before.len() {
                        assert(before.contains(views(r@)[a]));
                    } else {
                        assert(before[a] == views(r@)[a] && before[b] == views(r@)[b]);
                    }
                }
            }
        }
        i = i + 1;
    }
    assert(src.subrange(0, src.len() as int) =~= src);
    *v = r;
}

// ----- derived aliases -----

/// `e` without its enclosing parentheses.
pub open spec fn unparen_m(e: NodeM) -> NodeM
    decreases e,
{
    if e.kind is Parenthesized && e.children.len() == 1 {
        unparen_m(e.children[0])
    } else {
        e
    }
}

/// The name `e` is, without its parentheses, where it is an identifier.
pub open spec fn ident_name_m(e: NodeM) -> Option<Seq<char>> {
    if unparen_m(e).kind is Ident {
        Some(unparen_m(e).text)
    } else {
        None
    }
}

/// The name that `e` keeps a borrow of, where `e` is one of the aliases
/// that stay references once a match on a shared value is rewritten: `x`,
/// `*x`, `x.as_ref()` and `&x`, each possibly in parentheses.
pub open spec fn alias_name_m(e: NodeM) -> Option<Seq<char>> {
    let s = unparen_m(e);
    match s.kind {
        Kind::Ident => Some(s.text),
        Kind::UnaryOp => if s.text == "*"@ && s.children.len() > 0 {
            ident_name_m(s.children[0])
        } else {
            None
        },
        Kind::MethodCall => if s.text == "as_ref"@ && s.children.len() == 1 {
            ident_name_m(s.children[0])
        } else {
            None
        },
        Kind::Reference { mutable, raw } => if !mutable && !raw && s.children.len() > 0 {
            ident_name_m(s.children[0])
        } else {
            None
        },
        _ => None,
    }
}

/// The origin that the local alias `e` carries from the parameter, where it
/// is an alias of a derived name.
pub open spec fn alias_origin_m(e: NodeM, d: DerivedOrigins) -> Option<Origin> {
    match alias_name_m(e) {
        Some(x) => d.origin_m(x),
        None => None,
    }
}

/// `e` without its enclosing parentheses.
fn unparen(e: &Node) -> (r: &Node)
    ensures
        r@ == unparen_m(e@),
    decreases e,
{
    if matches!(e.kind, Kind::Parenthesized) && has_len(&e.children, 1) {
        match &e.children {
            Nodes::Cons(inner, rest) => {
                proof {
                    lemma_cons(node_m(**inner), nodes_m(**rest));
                }
                unparen(inner)
            },
            Nodes::Nil => e,
        }
    } else {
        e
    }
}

/// The origin of the identifier that `e` is, without its parentheses.
fn ident_origin(e: &Node, derived: &DerivedOrigins) -> (o: Option<Origin>)
    ensures
        o == match ident_name_m(e@) {
            Some(x) => derived.origin_m(x),
            None => None,
        },
{
    let s = unparen(e);
    if matches!(s.kind, Kind::Ident) {
        derived.origin(&s.text)
    } else {
        None
    }
}

/// The origin that the local alias `e` carries from the parameter: where `e`
/// is `x`, `*x`, `x.as_ref()` or `&x` for a derived `x`, the origin of `x`.
pub fn derived_borrow_alias_origin(e: &Node, derived: &DerivedOrigins) -> (o: Option<Origin>)
    ensures
        o == alias_origin_m(e@, *derived),
{
    let s = unparen(e);
    match s.kind {
        Kind::Ident => derived.origin(&s.text),
        Kind::UnaryOp => {
            if is_text(&s.text, "*") {
                match &s.children {
                    Nodes::Cons(inner, rest) => {
                        proof {
                            lemma_cons(node_m(**inner), nodes_m(**rest));
                        }
                        ident_origin(inner, derived)
                    },
                    Nodes::Nil => None,
                }
            } else {
                None
            }
        },
        Kind::MethodCall => {
            if is_text(&s.text, "as_ref") && has_len(&s.children, 1) {
                match &s.children {
                    Nodes::Cons(inner, rest) => {
                        proof {
                            lemma_cons(node_m(**inner), nodes_m(**rest));
                        }
                        ident_origin(inner, derived)
                    },
                    Nodes::Nil => None,
                }
            } else {
                None
            }
        },
        Kind::Reference { mutable, raw } => {
            if !mutable && !raw {
                match &s.children {
                    Nodes::Cons(inner, rest) => {
                        proof {
                            lemma_cons(node_m(**inner), nodes_m(**rest));
                        }
                        ident_origin(inner, derived)
                    },
                    Nodes::Nil => None,
                }
            } else {
                None
            }
        },
        _ => None,
    }
}

// ----- laws of derived origins -----

/// A name just recorded has the origin it was recorded with.
pub proof fn lemma_insert_then_origin(
    before: DerivedOrigins,
    after: DerivedOrigins,
    name: Seq<char>,
    origin: Origin,
)
    requires
        before.wf(),
        forall|x: Seq<char>| #[trigger] after.has(x) <==> before.has(x) || x == name,
        forall|x: Seq<char>| #[trigger]
            after.carries(x) <==> if x == name {
                origin == Origin::Structure
            } else {
                before.carries(x)
            },
    ensures
        after.origin_m(name) == Some(origin),
        forall|x: Seq<char>| x != name ==> #[trigger] after.origin_m(x) == before.origin_m(x),
{
    assert(after.has(name));
    assert(after.carries(name) <==> origin == Origin::Structure);
    assert forall|x: Seq<char>| x != name implies #[trigger] after.origin_m(x) == before.origin_m(
        x,
    ) by {
        assert(after.has(x) == before.has(x));
        assert(after.carries(x) == before.carries(x));
    }
}


/// A name just forgotten has no origin, and the others keep theirs.
pub proof fn lemma_remove_then_origin(before: DerivedOrigins, after: DerivedOrigins, name: Seq<char>)
    requires
        forall|x: Seq<char>| #[trigger] after.has(x) <==> before.has(x) && x != name,
        forall|x: Seq<char>| #[trigger] after.carries(x) <==> before.carries(x) && x != name,
    ensures
        after.origin_m(name) is None,
        forall|x: Seq<char>| x != name ==> #[trigger] after.origin_m(x) == before.origin_m(x),
{
    assert(!after.has(name));
    assert forall|x: Seq<char>| x != name implies #[trigger] after.origin_m(x) == before.origin_m(
        x,
    ) by {
        assert(after.has(x) == before.has(x));
        assert(after.carries(x) == before.carries(x));
    }
}

} // verus!
