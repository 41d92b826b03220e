//! How the complex-type cleanup scores, normalises and names type
//! expressions.
use vstd::prelude::*;
use vstd::relations::injective_on;
use vstd::set_lib::{lemma_int_range, lemma_len_subset, lemma_map_size, set_int_range};
use vstd::string::*;
use vstd::utf8::encode_utf8;

use crate::ast::{Kind, Node, Nodes};
use crate::model::{copy_node, leaf, lemma_cons, mk, node_m, nodes_m, NodeM};
use crate::text::{
    contains_text, decimal, decimal_string, lemma_decimal_injective, lemma_decimal_len,
    lemma_views_push, push_char, starts_with, string_of, utf8_len, views,
};

verus! {

/// The complexity above which a type is given an alias: the default
/// `type-complexity-threshold` of Clippy.
pub const COMPLEXITY_THRESHOLD: u64 = 250;

/// Whether a kind is a type with type children.
pub open spec fn is_composite_m(k: Kind) -> bool {
    match k {
        Kind::TypeGeneric | Kind::TypeTuple | Kind::TypeCallable { .. } | Kind::TypeRef { .. }
        | Kind::TypeSlice | Kind::TypeArray => true,
        _ => false,
    }
}

// ----- complexity -----

/// The complexity score of type `t` at nesting depth `nest`, after Clippy's
/// `type_complexity` lint: a named type, a path, `()`, a generic, a tuple, a
/// slice and an array weigh ten per level of nesting, a callable ten more
/// and twenty more again when it is `dyn`, a reference one, `!` nothing.
/// The arguments of generics, tuples and callables and the element of a
/// slice or an array sit one level deeper; the return type of a callable and
/// the target of a reference sit at their own level.
pub open spec fn complexity_m(t: NodeM, nest: nat) -> nat
    decreases t, 1nat,
{
    match t.kind {
        Kind::TypeNamed | Kind::TypePath | Kind::TypeUnit => 10 * nest,
        Kind::TypeGeneric | Kind::TypeTuple | Kind::TypeSlice | Kind::TypeArray => 10 * nest
            + complexity_list_m(t.children, nest + 1),
        Kind::TypeCallable { dynamic } => (if dynamic {
            20 * nest
        } else {
            0
        }) + 10 * nest + callable_complexity_m(t.children, nest),
        Kind::TypeRef { .. } => 1 + complexity_list_m(t.children, nest),
        _ => 0,
    }
}

/// The summed complexity of the types `cs`, each at depth `nest`.
pub open spec fn complexity_list_m(cs: Seq<NodeM>, nest: nat) -> nat
    decreases cs, 0nat,
{
    if cs.len() == 0 {
        0
    } else {
        complexity_m(cs[0], nest) + complexity_list_m(cs.drop_first(), nest)
    }
}

/// The summed complexity of the children of a callable at depth `nest`: its
/// arguments one level deeper, its return type (the last child) at `nest`.
pub open spec fn callable_complexity_m(cs: Seq<NodeM>, nest: nat) -> nat
    decreases cs, 0nat,
{
    if cs.len() == 0 {
        0
    } else if cs.len() == 1 {
        complexity_m(cs[0], nest)
    } else {
        complexity_m(cs[0], nest + 1) + callable_complexity_m(cs.drop_first(), nest)
    }
}

/// `x`, or one more than the threshold where `x` is above it.
pub open spec fn capped(x: nat) -> nat {
    if x > COMPLEXITY_THRESHOLD + 1 {
        (COMPLEXITY_THRESHOLD + 1) as nat
    } else {
        x
    }
}

/// Below a depth of 26 every type but a chain of references to `!` is past
/// the threshold, so deeper levels all score alike once capped.
proof fn lemma_complexity_deep(t: NodeM, n: nat, m: nat)
    requires
        n >= 26,
        m >= 26,
    ensures
        capped(complexity_m(t, n)) == capped(complexity_m(t, m)),
    decreases t, 1nat,
{
    if t.kind is TypeRef {
        lemma_complexity_list_deep(t.children, n, m);
    }
}

proof fn lemma_complexity_list_deep(cs: Seq<NodeM>, n: nat, m: nat)
    requires
        n >= 26,
        m >= 26,
    ensures
        capped(complexity_list_m(cs, n)) == capped(complexity_list_m(cs, m)),
    decreases cs, 0nat,
{
    if cs.len() > 0 {
        lemma_complexity_deep(cs[0], n, m);
        lemma_complexity_list_deep(cs.drop_first(), n, m);
    }
}

proof fn lemma_callable_complexity_deep(cs: Seq<NodeM>, n: nat, m: nat)
    requires
        n >= 26,
        m >= 26,
    ensures
        capped(callable_complexity_m(cs, n)) == capped(callable_complexity_m(cs, m)),
    decreases cs, 0nat,
{
    if cs.len() == 1 {
        lemma_complexity_deep(cs[0], n, m);
    } else if cs.len() > 1 {
        lemma_complexity_deep(cs[0], n + 1, m + 1);
        lemma_callable_complexity_deep(cs.drop_first(), n, m);
    }
}

/// The complexity of a type does not fall as it sits deeper.
pub proof fn lemma_complexity_monotone(t: NodeM, n: nat, m: nat)
    requires
        n <= m,
    ensures
        complexity_m(t, n) <= complexity_m(t, m),
    decreases t, 1nat,
{
    match t.kind {
        Kind::TypeGeneric | Kind::TypeTuple | Kind::TypeSlice | Kind::TypeArray => {
            lemma_complexity_list_monotone(t.children, n + 1, m + 1);
        },
        Kind::TypeCallable { .. } => {
            lemma_callable_complexity_monotone(t.children, n, m);
        },
        Kind::TypeRef { .. } => {
            lemma_complexity_list_monotone(t.children, n, m);
        },
        _ => {},
    }
}

proof fn lemma_complexity_list_monotone(cs: Seq<NodeM>, n: nat, m: nat)
    requires
        n <= m,
    ensures
        complexity_list_m(cs, n) <= complexity_list_m(cs, m),
    decreases cs, 0nat,
{
    if cs.len() > 0 {
        lemma_complexity_monotone(cs[0], n, m);
        lemma_complexity_list_monotone(cs.drop_first(), n, m);
    }
}

proof fn lemma_callable_complexity_monotone(cs: Seq<NodeM>, n: nat, m: nat)
    requires
        n <= m,
    ensures
        callable_complexity_m(cs, n) <= callable_complexity_m(cs, m),
    decreases cs, 0nat,
{
    if cs.len() == 1 {
        lemma_complexity_monotone(cs[0], n, m);
    } else if cs.len() > 1 {
        lemma_complexity_monotone(cs[0], n + 1, m + 1);
        lemma_callable_complexity_monotone(cs.drop_first(), n, m);
    }
}

/// `a + b`, capped; both are at most the cap plus its own weight.
fn add_capped(a: u64, b: u64) -> (r: u64)
    requires
        a <= 1000,
        b <= 1000,
    ensures
        r == capped((a + b) as nat),
{
    if a + b > COMPLEXITY_THRESHOLD + 1 {
        COMPLEXITY_THRESHOLD + 1
    } else {
        a + b
    }
}

/// The capped complexity of type `t` at depth `nest`.
fn complexity(t: &Node, nest: u64) -> (r: u64)
    requires
        1 <= nest <= 26,
    ensures
        r == capped(complexity_m(t@, nest as nat)),
    decreases t,
{
    let deeper: u64 = if nest < 26 {
        nest + 1
    } else {
        26
    };
    match t.kind {
        Kind::TypeNamed | Kind::TypePath | Kind::TypeUnit => add_capped(10 * nest, 0),
        Kind::TypeGeneric | Kind::TypeTuple | Kind::TypeSlice | Kind::TypeArray => {
            let inner = complexity_list(&t.children, deeper);
            proof {
                if nest == 26 {
                    lemma_complexity_list_deep(nodes_m(t.children), 26, 27);
                }
            }
            add_capped(add_capped(10 * nest, 0), inner)
        },
        Kind::TypeCallable { dynamic } => {
            let own: u64 = if dynamic {
                30 * nest
            } else {
                10 * nest
            };
            let inner = callable_complexity(&t.children, nest, deeper);
            add_capped(add_capped(own, 0), inner)
        },
        Kind::TypeRef { .. } => {
            let inner = complexity_list(&t.children, nest);
            add_capped(1, inner)
        },
        _ => 0,
    }
}

/// The capped summed complexity of the types of `l` at depth `nest`.
fn complexity_list(l: &Nodes, nest: u64) -> (r: u64)
    requires
        1 <= nest <= 26,
    ensures
        r == capped(complexity_list_m(nodes_m(*l), nest as nat)),
    decreases l,
{
    match l {
        Nodes::Nil => 0,
        Nodes::Cons(h, rest) => {
            proof {
                lemma_cons(node_m(**h), nodes_m(**rest));
            }
            let a = complexity(h, nest);
            let b = complexity_list(rest, nest);
            add_capped(a, b)
        },
    }
}

/// The capped summed complexity of the children `l` of a callable at depth
/// `nest`, where `deeper` stands for the next level.
fn callable_complexity(l: &Nodes, nest: u64, deeper: u64) -> (r: u64)
    requires
        1 <= nest <= 26,
        deeper == if nest < 26 {
            nest + 1
        } else {
            26
        },
    ensures
        r == capped(callable_complexity_m(nodes_m(*l), nest as nat)),
    decreases l,
{
    match l {
        Nodes::Nil => 0,
        Nodes::Cons(h, rest) => {
            proof {
                lemma_cons(node_m(**h), nodes_m(**rest));
            }
            match &**rest {
                Nodes::Nil => {
                    assert(nodes_m(**rest).len() == 0);
                    complexity(h, nest)
                },
                Nodes::Cons(h2, rest2) => {
                    proof {
                        lemma_cons(node_m(**h2), nodes_m(**rest2));
                        if nest == 26 {
                            lemma_complexity_deep(node_m(**h), 26, 27);
                        }
                    }
                    let a = complexity(h, deeper);
                    let b = callable_complexity(rest, nest, deeper);
                    add_capped(a, b)
                },
            }
        },
    }
}

// ----- callables written with `impl` -----

/// Whether type `t` holds a callable written with `impl`, which cannot be
/// named by an alias.
pub open spec fn contains_impl_m(t: NodeM) -> bool
    decreases t, 1nat,
{
    match t.kind {
        Kind::TypeCallable { dynamic } => !dynamic || any_impl_m(t.children),
        Kind::TypeGeneric | Kind::TypeTuple | Kind::TypeRef { .. } | Kind::TypeSlice
        | Kind::TypeArray => any_impl_m(t.children),
        _ => false,
    }
}

pub open spec fn any_impl_m(cs: Seq<NodeM>) -> bool
    decreases cs, 0nat,
{
    if cs.len() == 0 {
        false
    } else {
        contains_impl_m(cs[0]) || any_impl_m(cs.drop_first())
    }
}

fn contains_impl(t: &Node) -> (b: bool)
    ensures
        b == contains_impl_m(t@),
    decreases t,
{
    match t.kind {
        Kind::TypeCallable { dynamic } => !dynamic || any_impl(&t.children),
        Kind::TypeGeneric | Kind::TypeTuple | Kind::TypeRef { .. } | Kind::TypeSlice
        | Kind::TypeArray => any_impl(&t.children),
        _ => false,
    }
}

fn any_impl(l: &Nodes) -> (b: bool)
    ensures
        b == any_impl_m(nodes_m(*l)),
    decreases l,
{
    match l {
        Nodes::Nil => false,
        Nodes::Cons(h, rest) => {
            proof {
                lemma_cons(node_m(**h), nodes_m(**rest));
            }
            contains_impl(h) || any_impl(rest)
        },
    }
}

/// Whether type `t` is worth an alias: it holds no `impl` callable and its
/// complexity at the top level is above the threshold.
pub open spec fn should_alias_m(t: NodeM) -> bool {
    !contains_impl_m(t) && complexity_m(t, 1) > COMPLEXITY_THRESHOLD
}

/// Whether type `t` is worth an alias.
pub fn should_alias(t: &Node) -> (b: bool)
    ensures
        b == should_alias_m(t@),
{
    !contains_impl(t) && complexity(t, 1) > COMPLEXITY_THRESHOLD
}


// ----- generated aliases -----

/// The text that begins the name of every generated alias.
pub open spec fn alias_prefix_m() -> Seq<char> {
    "I2rComplexTypeH"@
}

/// Whether type `t` names a generated alias. Such a type is left alone.
pub open spec fn generated_m(t: NodeM) -> bool {
    (t.kind is TypeNamed || t.kind is TypeGeneric) && alias_prefix_m().is_prefix_of(t.text)
}

/// Whether type `t` names a generated alias.
pub fn is_generated(t: &Node) -> (b: bool)
    ensures
        b == generated_m(t@),
{
    match t.kind {
        Kind::TypeNamed | Kind::TypeGeneric => starts_with(t.text.as_str(), "I2rComplexTypeH"),
        _ => false,
    }
}

/// The name of the `i`-th generic parameter of a generated alias.
pub open spec fn param_name_m(i: nat) -> Seq<char> {
    "I2rT"@ + decimal(i)
}

/// The name of the `i`-th generic parameter of a generated alias.
pub fn param_name(i: usize) -> (s: String)
    ensures
        s@ == param_name_m(i as nat),
{
    let mut s = string_of("I2rT");
    let digits = decimal_string(i as u128);
    s.append(digits.as_str());
    s
}

// ----- keys -----

/// `value` tagged with `prefix` and its length in UTF-8 bytes, so that
/// neighbouring atoms of a key cannot run into each other.
pub open spec fn atom_m(prefix: Seq<char>, value: Seq<char>) -> Seq<char> {
    prefix + decimal(encode_utf8(value).len()) + seq![':'] + value
}

/// The texts `parts` with `sep` between each two.
pub open spec fn join_m(parts: Seq<Seq<char>>, sep: char) -> Seq<char>
    decreases parts.len(),
{
    if parts.len() == 0 {
        Seq::empty()
    } else if parts.len() == 1 {
        parts[0]
    } else {
        join_m(parts.drop_last(), sep).push(sep) + parts.last()
    }
}

/// The texts `parts` joined by `sep`, in square brackets.
pub open spec fn bracket_m(parts: Seq<Seq<char>>, sep: char) -> Seq<char> {
    seq!['['] + join_m(parts, sep) + seq![']']
}

/// The atoms of the texts of `cs`.
pub open spec fn atoms_m(cs: Seq<NodeM>) -> Seq<Seq<char>>
    decreases cs.len(),
{
    if cs.len() == 0 {
        Seq::empty()
    } else {
        seq![atom_m(Seq::empty(), cs[0].text)] + atoms_m(cs.drop_first())
    }
}

/// All but the last of `parts`.
pub open spec fn init_m(parts: Seq<Seq<char>>) -> Seq<Seq<char>> {
    if parts.len() == 0 {
        parts
    } else {
        parts.drop_last()
    }
}

/// The last of `parts`, or nothing.
pub open spec fn last_m(parts: Seq<Seq<char>>) -> Seq<char> {
    if parts.len() == 0 {
        Seq::empty()
    } else {
        parts.last()
    }
}

pub open spec fn bit_m(b: bool) -> char {
    if b {
        '1'
    } else {
        '0'
    }
}

/// The key of a type of kind `k` and text `text` whose children have the
/// keys `keys`.
pub open spec fn composite_key_m(k: Kind, text: Seq<char>, keys: Seq<Seq<char>>) -> Seq<char> {
    match k {
        Kind::TypeGeneric => seq!['G'] + atom_m(Seq::empty(), text) + bracket_m(keys, ','),
        Kind::TypeCallable { dynamic } => seq![
            'C',
            if dynamic {
                'D'
            } else {
                'I'
            },
        ] + atom_m(Seq::empty(), text) + bracket_m(init_m(keys), ',') + seq!['-', '>'] + last_m(
            keys,
        ),
        Kind::TypeRef { shared, mutable } => seq!['R', bit_m(shared), bit_m(mutable)] + bracket_m(
            keys,
            ',',
        ),
        Kind::TypeTuple => seq!['T'] + bracket_m(keys, ','),
        Kind::TypeSlice => seq!['S'] + bracket_m(keys, ','),
        Kind::TypeArray => seq!['A'] + text + bracket_m(keys, ','),
        _ => Seq::empty(),
    }
}

/// The position of `name` in `seen` from `i` on, or the length of `seen`.
pub open spec fn index_from_m(seen: Seq<Seq<char>>, name: Seq<char>, i: nat) -> nat
    decreases seen.len() - i,
{
    if i >= seen.len() {
        seen.len()
    } else if seen[i as int] == name {
        i
    } else {
        index_from_m(seen, name, i + 1)
    }
}

proof fn lemma_index_from_bound(seen: Seq<Seq<char>>, name: Seq<char>, i: nat)
    ensures
        index_from_m(seen, name, i) <= seen.len(),
        index_from_m(seen, name, i) < seen.len() ==> seen[index_from_m(seen, name, i) as int] == name,
    decreases seen.len() - i,
{
    if i < seen.len() && seen[i as int] != name {
        lemma_index_from_bound(seen, name, i + 1);
    }
}

/// The normal form of type `t` where the names in `scope` are generic
/// parameters: its key, which two types share exactly when they agree up to
/// the naming of their generic parameters, and its target, in which the
/// generic parameters are renamed `I2rT0`, `I2rT1`, .. in order of first
/// occurrence. `seen` lists the generic parameters met so far, in that
/// order, and comes back extended.
pub open spec fn norm_m(t: NodeM, scope: Seq<Seq<char>>, seen: Seq<Seq<char>>) -> (
    Seq<char>,
    NodeM,
    Seq<Seq<char>>,
)
    decreases t, 1nat,
{
    match t.kind {
        Kind::TypeNamed => {
            if scope.contains(t.text) {
                let i = index_from_m(seen, t.text, 0);
                let seen1 = if i < seen.len() {
                    seen
                } else {
                    seen.push(t.text)
                };
                (seq!['V'] + decimal(i), mk(Kind::TypeNamed, param_name_m(i), Seq::empty()), seen1)
            } else {
                (atom_m(seq!['N'], t.text), t, seen)
            }
        },
        Kind::TypePath => (seq!['P'] + bracket_m(atoms_m(t.children), ':'), t, seen),
        Kind::TypeUnit => (seq!['U'], t, seen),
        Kind::TypeNever => (seq!['!'], t, seen),
        _ => {
            if is_composite_m(t.kind) {
                let (keys, targets, seen1) = norm_list_m(t.children, scope, seen);
                (composite_key_m(t.kind, t.text, keys), mk(t.kind, t.text, targets), seen1)
            } else {
                (Seq::empty(), t, seen)
            }
        },
    }
}

pub open spec fn norm_list_m(cs: Seq<NodeM>, scope: Seq<Seq<char>>, seen: Seq<Seq<char>>) -> (
    Seq<Seq<char>>,
    Seq<NodeM>,
    Seq<Seq<char>>,
)
    decreases cs, 0nat,
{
    if cs.len() == 0 {
        (Seq::empty(), Seq::empty(), seen)
    } else {
        let (k, t, seen1) = norm_m(cs[0], scope, seen);
        let (ks, ts, seen2) = norm_list_m(cs.drop_first(), scope, seen1);
        (seq![k] + ks, seq![t] + ts, seen2)
    }
}

/// Whether a kind is a type with type children.
pub fn is_composite(k: Kind) -> (b: bool)
    ensures
        b == is_composite_m(k),
{
    match k {
        Kind::TypeGeneric | Kind::TypeTuple | Kind::TypeCallable { .. } | Kind::TypeRef { .. }
        | Kind::TypeSlice | Kind::TypeArray => true,
        _ => false,
    }
}

/// The atom of `value` tagged with the character `tag`, or with nothing.
fn atom(tag: Option<char>, value: &String) -> (s: String)
    ensures
        s@ == atom_m(
            match tag {
                Some(c) => seq![c],
                None => Seq::empty(),
            },
            value@,
        ),
{
    let mut s = String::new();
    match tag {
        Some(c) => push_char(&mut s, c),
        None => {},
    }
    let len = utf8_len(value.as_str());
    let digits = decimal_string(len);
    s.append(digits.as_str());
    push_char(&mut s, ':');
    s.append(value.as_str());
    assert(s@ =~= atom_m(
        match tag {
            Some(c) => seq![c],
            None => Seq::empty(),
        },
        value@,
    ));
    s
}

/// The first `n` texts of `parts` joined by `sep`.
fn join(parts: &Vec<String>, n: usize, sep: char) -> (s: String)
    requires
        n <= parts@.len(),
    ensures
        s@ == join_m(views(parts@).take(n as int), sep),
{
    let mut s = String::new();
    let mut i: usize = 0;
    assert(views(parts@).take(0) =~= Seq::<Seq<char>>::empty());
    while i < n
        invariant
            i <= n <= parts@.len(),
            s@ == join_m(views(parts@).take(i as int), sep),
        decreases n - i,
    {
        let ghost before = views(parts@).take(i as int);
        let ghost after = views(parts@).take(i + 1);
        assert(after.drop_last() =~= before);
        assert(after.last() == parts@[i as int]@);
        if i > 0 {
            push_char(&mut s, sep);
        } else {
            assert(before.len() == 0);
        }
        s.append(parts[i].as_str());
        assert(s@ =~= join_m(after, sep));
        i = i + 1;
    }
    s
}

/// The texts of `parts` joined by `sep`, in square brackets.
fn bracket(parts: &Vec<String>, n: usize, sep: char) -> (s: String)
    requires
        n <= parts@.len(),
    ensures
        s@ == bracket_m(views(parts@).take(n as int), sep),
{
    let mut s = String::new();
    push_char(&mut s, '[');
    let inner = join(parts, n, sep);
    s.append(inner.as_str());
    push_char(&mut s, ']');
    s
}

/// Appends the atoms of the texts of the nodes of `l` to `out`.
fn push_atoms(l: &Nodes, out: &mut Vec<String>)
    ensures
        views(final(out)@) == views(old(out)@) + atoms_m(nodes_m(*l)),
    decreases l,
{
    match l {
        Nodes::Nil => {
            assert(views(out@) + atoms_m(nodes_m(*l)) =~= views(out@));
        },
        Nodes::Cons(h, rest) => {
            let ghost before = views(out@);
            proof {
                lemma_cons(node_m(**h), nodes_m(**rest));
            }
            let a = atom(None, &h.text);
            out.push(a);
            assert(views(out@) =~= before.push(a@));
            push_atoms(rest, out);
            assert(before + atoms_m(nodes_m(*l)) =~= before.push(a@) + atoms_m(nodes_m(**rest)));
        },
    }
}

/// The key of a type of kind `k` and text `text` whose children have the
/// keys `keys`.
fn composite_key(k: Kind, text: &String, keys: &Vec<String>) -> (s: String)
    ensures
        s@ == composite_key_m(k, text@, views(keys@)),
{
    let n = keys.len();
    assert(views(keys@).take(n as int) =~= views(keys@));
    let mut s = String::new();
    match k {
        Kind::TypeGeneric => {
            push_char(&mut s, 'G');
            s.append(atom(None, text).as_str());
            s.append(bracket(keys, n, ',').as_str());
        },
        Kind::TypeCallable { dynamic } => {
            push_char(&mut s, 'C');
            push_char(
                &mut s,
                if dynamic {
                    'D'
                } else {
                    'I'
                },
            );
            s.append(atom(None, text).as_str());
            if n == 0 {
                assert(views(keys@).take(0) =~= Seq::<Seq<char>>::empty());
                s.append(bracket(keys, 0, ',').as_str());
                push_char(&mut s, '-');
                push_char(&mut s, '>');
            } else {
                assert(views(keys@).take(n - 1) =~= views(keys@).drop_last());
                s.append(bracket(keys, n - 1, ',').as_str());
                push_char(&mut s, '-');
                push_char(&mut s, '>');
                s.append(keys[n - 1].as_str());
            }
        },
        Kind::TypeRef { shared, mutable } => {
            push_char(&mut s, 'R');
            push_char(
                &mut s,
                if shared {
                    '1'
                } else {
                    '0'
                },
            );
            push_char(
                &mut s,
                if mutable {
                    '1'
                } else {
                    '0'
                },
            );
            s.append(bracket(keys, n, ',').as_str());
        },
        Kind::TypeTuple => {
            push_char(&mut s, 'T');
            s.append(bracket(keys, n, ',').as_str());
        },
        Kind::TypeSlice => {
            push_char(&mut s, 'S');
            s.append(bracket(keys, n, ',').as_str());
        },
        Kind::TypeArray => {
            push_char(&mut s, 'A');
            s.append(text.as_str());
            s.append(bracket(keys, n, ',').as_str());
        },
        _ => {},
    }
    assert(s@ =~= composite_key_m(k, text@, views(keys@)));
    s
}

/// The position of `name` in `seen`, or the length of `seen`.
fn index_of(seen: &Vec<String>, name: &String) -> (i: usize)
    ensures
        i == index_from_m(views(seen@), name@, 0),
{
    let mut i: usize = 0;
    while i < seen.len()
        invariant
            i <= seen@.len(),
            index_from_m(views(seen@), name@, 0) == index_from_m(views(seen@), name@, i as nat),
        decreases seen@.len() - i,
    {
        if seen[i] == *name {
            return i;
        }
        i = i + 1;
    }
    i
}

/// The normal form of type `t`: its key and its target, with `seen`
/// extended by the generic parameters met.
pub fn normalize(t: &Node, scope: &Vec<String>, seen: &mut Vec<String>) -> (r: (String, Node))
    ensures
        (r.0@, r.1@, views(final(seen)@)) == norm_m(t@, views(scope@), views(old(seen)@)),
    decreases t,
{
    match t.kind {
        Kind::TypeNamed => {
            if contains_text(scope, &t.text) {
                let i = index_of(seen, &t.text);
                proof {
                    lemma_index_from_bound(views(seen@), t.text@, 0);
                }
                if i == seen.len() {
                    proof {
                        lemma_views_push(seen@, t.text);
                    }
                    seen.push(t.text.clone());
                }
                let mut key = String::new();
                push_char(&mut key, 'V');
                let digits = decimal_string(i as u128);
                key.append(digits.as_str());
                assert(key@ =~= seq!['V'] + decimal(i as nat));
                (key, leaf(Kind::TypeNamed, param_name(i)))
            } else {
                (atom(Some('N'), &t.text), copy_node(t))
            }
        },
        Kind::TypePath => {
            let mut parts: Vec<String> = Vec::new();
            push_atoms(&t.children, &mut parts);
            assert(views(parts@) =~= atoms_m(nodes_m(t.children)));
            let n = parts.len();
            assert(views(parts@).take(n as int) =~= views(parts@));
            let mut key = String::new();
            push_char(&mut key, 'P');
            key.append(bracket(&parts, n, ':').as_str());
            assert(key@ =~= seq!['P'] + bracket_m(atoms_m(nodes_m(t.children)), ':'));
            (key, copy_node(t))
        },
        Kind::TypeUnit => {
            let mut key = String::new();
            push_char(&mut key, 'U');
            assert(key@ =~= seq!['U']);
            (key, copy_node(t))
        },
        Kind::TypeNever => {
            let mut key = String::new();
            push_char(&mut key, '!');
            assert(key@ =~= seq!['!']);
            (key, copy_node(t))
        },
        _ => {
            if is_composite(t.kind) {
                let mut keys: Vec<String> = Vec::new();
                let targets = normalize_list(&t.children, scope, seen, &mut keys);
                assert(views(keys@) =~= Seq::<Seq<char>>::empty() + views(keys@));
                (
                    composite_key(t.kind, &t.text, &keys),
                    Node { kind: t.kind, text: t.text.clone(), children: targets },
                )
            } else {
                (String::new(), copy_node(t))
            }
        },
    }
}

/// The normal forms of the types of `l`: their keys are appended to `keys`.
fn normalize_list(l: &Nodes, scope: &Vec<String>, seen: &mut Vec<String>, keys: &mut Vec<String>) -> (r: Nodes)
    ensures
        views(final(keys)@) == views(old(keys)@) + norm_list_m(nodes_m(*l), views(scope@), views(old(seen)@)).0,
        nodes_m(r) == norm_list_m(nodes_m(*l), views(scope@), views(old(seen)@)).1,
        views(final(seen)@) == norm_list_m(nodes_m(*l), views(scope@), views(old(seen)@)).2,
    decreases l,
{
    match l {
        Nodes::Nil => {
            assert(views(keys@) + Seq::<Seq<char>>::empty() =~= views(keys@));
            Nodes::Nil
        },
        Nodes::Cons(h, rest) => {
            proof {
                lemma_cons(node_m(**h), nodes_m(**rest));
            }
            let ghost k0 = views(keys@);
            let (k, t) = normalize(h, scope, seen);
            proof {
                lemma_views_push(keys@, k);
            }
            keys.push(k);
            let ts = normalize_list(rest, scope, seen, keys);
            let r = Nodes::Cons(Box::new(t), Box::new(ts));
            assert(nodes_m(r) == seq![t@] + nodes_m(ts));
            assert(views(keys@) =~= k0 + norm_list_m(nodes_m(*l), views(scope@), views(old(seen)@)).0);
            r
        },
    }
}


// ----- alias names -----

/// One step of the 64-bit FNV-1a hash: mix in `b`, multiply by the prime.
pub open spec fn fnv_step_m(h: u64, b: u8) -> u64 {
    ((((h ^ (b as u64)) as nat) * 0x100000001b3nat) % 0x1_0000_0000_0000_0000nat) as u64
}

/// The FNV-1a state after hashing `bytes` from state `h`.
pub open spec fn fnv_from_m(h: u64, bytes: Seq<u8>) -> u64
    decreases bytes.len(),
{
    if bytes.len() == 0 {
        h
    } else {
        fnv_from_m(fnv_step_m(h, bytes[0]), bytes.drop_first())
    }
}

/// The 64-bit FNV-1a hash of `bytes`.
pub open spec fn fnv1a64_m(bytes: Seq<u8>) -> u64 {
    fnv_from_m(0xcbf29ce484222325u64, bytes)
}

/// The 64-bit FNV-1a hash of the UTF-8 bytes of `s`.
fn fnv1a64(s: &str) -> (h: u64)
    ensures
        h == fnv1a64_m(encode_utf8(s@)),
{
    let bytes = s.as_bytes();
    let mut h: u64 = 0xcbf29ce484222325u64;
    let mut i: usize = 0;
    assert(bytes@.skip(0) =~= bytes@);
    while i < bytes.len()
        invariant
            i <= bytes@.len(),
            bytes@ == encode_utf8(s@),
            fnv_from_m(h, bytes@.skip(i as int)) == fnv1a64_m(bytes@),
        decreases bytes@.len() - i,
    {
        assert(bytes@.skip(i as int).drop_first() =~= bytes@.skip(i + 1));
        h = (h ^ (bytes[i] as u64)).wrapping_mul(0x100000001b3u64);
        i = i + 1;
    }
    assert(bytes@.skip(i as int) =~= Seq::<u8>::empty());
    h
}

/// The upper-case hexadecimal digit of `d`.
pub open spec fn hex_digit_m(d: nat) -> char {
    "0123456789ABCDEF"@[d as int]
}

/// The last `n` upper-case hexadecimal digits of `h`, zero-padded.
pub open spec fn hex_m(h: nat, n: nat) -> Seq<char>
    decreases n,
{
    if n == 0 {
        Seq::empty()
    } else {
        hex_m(h / 16, (n - 1) as nat).push(hex_digit_m(h % 16))
    }
}

fn hex_digits(h: u64, n: u64) -> (s: String)
    ensures
        s@ == hex_m(h as nat, n as nat),
    decreases n,
{
    if n == 0 {
        String::new()
    } else {
        let mut s = hex_digits(h / 16, n - 1);
        let digits = "0123456789ABCDEF";
        proof {
            reveal_strlit("0123456789ABCDEF");
        }
        let d = (h % 16) as usize;
        push_char(&mut s, digits.get_char(d));
        s
    }
}

/// The name that a generated alias of key `key` takes where it is free: the
/// prefix followed by the sixteen upper-case hexadecimal digits of the
/// FNV-1a hash of the key's UTF-8 bytes.
pub open spec fn base_name_m(key: Seq<char>) -> Seq<char> {
    alias_prefix_m() + hex_m(fnv1a64_m(encode_utf8(key)) as nat, 16)
}

/// The `i`-th name tried for an alias with base name `base`: the base
/// itself first, then the base followed by `N2`, `N3`, ..
pub open spec fn alias_candidate_m(base: Seq<char>, i: nat) -> Seq<char> {
    if i <= 1 {
        base
    } else {
        base + seq!['N'] + decimal(i)
    }
}

/// The first index at or after `i`, below `bound`, whose candidate `used`
/// does not hold, or `bound`.
pub open spec fn first_free_alias_m(base: Seq<char>, used: Seq<Seq<char>>, i: nat, bound: nat) -> nat
    decreases bound - i,
{
    if i >= bound || !used.contains(alias_candidate_m(base, i)) {
        i
    } else {
        first_free_alias_m(base, used, i + 1, bound)
    }
}

/// The name of the alias of key `key`, given the names `used` in its module.
pub open spec fn fresh_alias_m(key: Seq<char>, used: Seq<Seq<char>>) -> Seq<char> {
    let base = base_name_m(key);
    alias_candidate_m(base, first_free_alias_m(base, used, 1, used.len() + 2))
}

proof fn lemma_alias_candidate_injective(base: Seq<char>, i: nat, j: nat)
    requires
        i >= 1,
        j >= 1,
        alias_candidate_m(base, i) == alias_candidate_m(base, j),
    ensures
        i == j,
{
    lemma_decimal_len(i);
    lemma_decimal_len(j);
    let b = base.len() as int;
    if i >= 2 && j >= 2 {
        assert(alias_candidate_m(base, i).subrange(b + 1, alias_candidate_m(base, i).len() as int)
            =~= decimal(i));
        assert(alias_candidate_m(base, j).subrange(b + 1, alias_candidate_m(base, j).len() as int)
            =~= decimal(j));
        lemma_decimal_injective(i, j);
    } else if i >= 2 {
        assert(alias_candidate_m(base, i).len() > base.len());
    } else if j >= 2 {
        assert(alias_candidate_m(base, j).len() > base.len());
    }
}

proof fn lemma_first_free_alias(base: Seq<char>, used: Seq<Seq<char>>, i: nat, bound: nat)
    requires
        i <= bound,
    ensures
        i <= first_free_alias_m(base, used, i, bound) <= bound,
        first_free_alias_m(base, used, i, bound) < bound ==> !used.contains(
            alias_candidate_m(base, first_free_alias_m(base, used, i, bound)),
        ),
        forall|k: nat|
            i <= k < first_free_alias_m(base, used, i, bound) ==> used.contains(
                #[trigger] alias_candidate_m(base, k),
            ),
    decreases bound - i,
{
    if i < bound && used.contains(alias_candidate_m(base, i)) {
        lemma_first_free_alias(base, used, i + 1, bound);
    }
}

/// The name of a new alias is not among the names in use, and it begins
/// with the prefix of generated aliases.
pub proof fn lemma_fresh_alias(key: Seq<char>, used: Seq<Seq<char>>)
    ensures
        !used.contains(fresh_alias_m(key, used)),
        alias_prefix_m().is_prefix_of(fresh_alias_m(key, used)),
        first_free_alias_m(base_name_m(key), used, 1, used.len() + 2) <= used.len() + 1,
{
    let base = base_name_m(key);
    let bound = used.len() + 2;
    let ff = first_free_alias_m(base, used, 1, bound);
    lemma_first_free_alias(base, used, 1, bound);
    if ff == bound {
        let range = set_int_range(1, bound as int);
        lemma_int_range(1, bound as int);
        let f = |k: int| alias_candidate_m(base, k as nat);
        assert(injective_on(f, range)) by {
            assert forall|x1: int, x2: int|
                range.contains(x1) && range.contains(x2) && #[trigger] f(x1) == #[trigger] f(x2) implies x1
                == x2 by {
                lemma_alias_candidate_injective(base, x1 as nat, x2 as nat);
            }
        }
        let names = range.map(f);
        lemma_map_size(range, names, f);
        assert(names.subset_of(used.to_set())) by {
            assert forall|n: Seq<char>| names.contains(n) implies used.to_set().contains(n) by {
                let k = choose|k: int| range.contains(k) && f(k) == n;
                assert(used.contains(alias_candidate_m(base, k as nat)));
            }
        }
        used.lemma_cardinality_of_set();
        lemma_len_subset(names, used.to_set());
        assert(false);
    }
    let name = alias_candidate_m(base, ff);
    assert(alias_prefix_m().is_prefix_of(name)) by {
        reveal_strlit("I2rComplexTypeH");
        assert(name.subrange(0, alias_prefix_m().len() as int) =~= alias_prefix_m());
    }
}

/// The name of the alias of key `key`, recorded in `used`.
pub fn fresh_alias_name(key: &String, used: &mut Vec<String>) -> (name: String)
    ensures
        name@ == fresh_alias_m(key@, views(old(used)@)),
        views(final(used)@) == views(old(used)@).push(name@),
{
    let ghost u = views(used@);
    let ghost bound = u.len() + 2;
    proof {
        lemma_first_free_alias(base_name_m(key@), u, 1, bound);
        lemma_fresh_alias(key@, u);
    }
    let mut base = string_of("I2rComplexTypeH");
    let h = fnv1a64(key.as_str());
    base.append(hex_digits(h, 16).as_str());
    assert(base@ == base_name_m(key@));
    if !contains_text(used, &base) {
        proof {
            lemma_views_push(used@, base);
        }
        used.push(base.clone());
        return base;
    }
    let n = used.len() as u128;
    let mut index: u128 = 2;
    let mut found: Option<String> = None;
    while index <= n + 1 && found.is_none()
        invariant
            2 <= index <= n + 2,
            n == used@.len(),
            n <= usize::MAX,
            views(used@) == u,
            u.len() == n,
            bound == n + 2,
            base@ == base_name_m(key@),
            first_free_alias_m(base@, u, 1, bound) <= n + 1,
            found is None ==> first_free_alias_m(base@, u, 1, bound) == first_free_alias_m(
                base@,
                u,
                index as nat,
                bound,
            ),
            found matches Some(c) ==> c@ == fresh_alias_m(key@, u),
        decreases n + 2 - index, if found is None {
            1nat
        } else {
            0nat
        },
    {
        let mut candidate = base.clone();
        push_char(&mut candidate, 'N');
        let digits = decimal_string(index);
        candidate.append(digits.as_str());
        assert(candidate@ =~= alias_candidate_m(base@, index as nat));
        if !contains_text(used, &candidate) {
            assert(first_free_alias_m(base@, u, index as nat, bound) == index as nat);
            found = Some(candidate);
        } else {
            proof {
                lemma_first_free_alias(base@, u, (index + 1) as nat, bound);
            }
            index = index + 1;
        }
    }
    match found {
        Some(c) => {
            proof {
                lemma_views_push(used@, c);
            }
            used.push(c.clone());
            c
        },
        None => {
            assert(false);
            base
        },
    }
}

} // verus!
