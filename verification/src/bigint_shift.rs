//! Lowering of the generic bit operations of `num_bigint::BigInt` to the
//! native shift operators.
//!
//! Only the concrete `impl SemiringBitOperations for BigInt` is touched: its
//! `push_bit`, `drop_bit` and `mask` methods, where their parameters and
//! result are `BigInt`, get bodies that shift natively. Arbitrary
//! multiplications and divisions are never rewritten.
use vstd::prelude::*;
use vstd::string::*;

use crate::ast::{Kind, Node, Nodes};
use crate::bound_cleanup::{function_layout_m, has_function_layout, replace_child, segment_is};
use crate::model::{
    child, has_len, last_node, leaf, lemma_cons, mk, node1, node2, node3, node_m, nodes_m, NodeM,
};
use crate::text::{is_text, string_of};

verus! {

/// Counts of the methods lowered.
#[derive(Debug, Clone, Copy, PartialEq, Eq)]
pub struct BigIntShiftAnalysis {
    pub push_bit_methods: usize,
    pub drop_bit_methods: usize,
    pub mask_methods: usize,
}

impl BigIntShiftAnalysis {
    /// An analysis with every count at zero.
    pub fn new() -> (a: BigIntShiftAnalysis)
        ensures
            a == no_shift_counts(),
    {
        BigIntShiftAnalysis { push_bit_methods: 0, drop_bit_methods: 0, mask_methods: 0 }
    }
}

impl Default for BigIntShiftAnalysis {
    fn default() -> (a: BigIntShiftAnalysis)
        ensures
            a == no_shift_counts(),
    {
        BigIntShiftAnalysis::new()
    }
}

/// The analysis with every count at zero.
pub open spec fn no_shift_counts() -> BigIntShiftAnalysis {
    BigIntShiftAnalysis { push_bit_methods: 0, drop_bit_methods: 0, mask_methods: 0 }
}

/// Adds one to a count; a count that has reached `usize::MAX` stays there.
pub open spec fn bump_shift_count(x: usize) -> usize {
    if x < usize::MAX {
        (x + 1) as usize
    } else {
        x
    }
}

// ----- type names -----

/// The part of `s` after its last `::` (all of `s` where it has none).
pub open spec fn last_segment_m(s: Seq<char>) -> Seq<char>
    decreases s.len(),
{
    if s.len() >= 2 && s[s.len() - 2] == ':' && s[s.len() - 1] == ':' {
        Seq::empty()
    } else if s.len() == 0 {
        s
    } else {
        last_segment_m(s.drop_last()).push(s.last())
    }
}

/// The name of a named or path type: its last segment.
pub open spec fn type_name_m(t: NodeM) -> Option<Seq<char>> {
    if t.kind is TypeNamed {
        Some(last_segment_m(t.text))
    } else if t.kind is TypePath && t.children.len() > 0 {
        Some(t.children.last().text)
    } else {
        None
    }
}

/// Whether `i` is `impl SemiringBitOperations for BigInt`.
pub open spec fn is_bigint_impl_m(i: NodeM) -> bool {
    &&& i.kind is Impl
    &&& i.children.len() >= 3
    &&& type_name_m(i.children[1]) == Some("BigInt"@)
    &&& type_name_m(i.children[2]) == Some("SemiringBitOperations"@)
}

/// Whether every parameter of `ps` is named and of type `BigInt`.
pub open spec fn bigint_params_m(ps: Seq<NodeM>) -> bool
    decreases ps,
{
    if ps.len() == 0 {
        true
    } else {
        &&& ps[0].text.len() > 0
        &&& ps[0].children.len() == 1
        &&& type_name_m(ps[0].children[0]) == Some("BigInt"@)
        &&& bigint_params_m(ps.drop_first())
    }
}

/// Whether the method `f` takes `arity` `BigInt`s and returns a `BigInt`.
pub open spec fn has_bigint_signature_m(f: NodeM, arity: nat) -> bool {
    &&& function_layout_m(f)
    &&& f.children[3].children.len() == arity
    &&& bigint_params_m(f.children[3].children)
    &&& type_name_m(f.children[1]) == Some("BigInt"@)
}

// ----- the lowered bodies -----

/// A block made of the tail `e`.
pub open spec fn block_m(e: NodeM) -> NodeM {
    mk(Kind::Block, Seq::empty(), seq![mk(Kind::Tail, Seq::empty(), seq![e])])
}

/// The identifier `n`.
pub open spec fn ident_m(n: Seq<char>) -> NodeM {
    mk(Kind::Ident, n, Seq::empty())
}

/// The path `a::b::c`.
pub open spec fn path3_m(a: Seq<char>, b: Seq<char>, c: Seq<char>) -> NodeM {
    mk(
        Kind::Path { member: false },
        Seq::empty(),
        seq![
            mk(Kind::Segment, a, Seq::empty()),
            mk(Kind::Segment, b, Seq::empty()),
            mk(Kind::Segment, c, Seq::empty()),
        ],
    )
}

/// The arm `pattern => e` with no guard.
pub open spec fn arm_m(pattern: Seq<char>, e: NodeM) -> NodeM {
    mk(Kind::Arm, pattern, seq![mk(Kind::Absent, Seq::empty(), Seq::empty()), block_m(e)])
}

/// `num_bigint::BigInt::from(1u8)`
pub open spec fn bigint_one_m() -> NodeM {
    mk(
        Kind::Call,
        Seq::empty(),
        seq![path3_m("num_bigint"@, "BigInt"@, "from"@), mk(Kind::Literal, "1u8"@, Seq::empty())],
    )
}

/// `num_traits::ToPrimitive::to_usize(count.magnitude())`
pub open spec fn shift_count_m(count: Seq<char>) -> NodeM {
    mk(
        Kind::Call,
        Seq::empty(),
        seq![
            path3_m("num_traits"@, "ToPrimitive"@, "to_usize"@),
            mk(Kind::MethodCall, "magnitude"@, seq![ident_m(count)]),
        ],
    )
}

/// What shifting `value` right by more than a `usize` gives: minus one for
/// a negative value, zero otherwise.
pub open spec fn huge_right_shift_m(value: Seq<char>) -> NodeM {
    mk(
        Kind::If,
        Seq::empty(),
        seq![
            mk(
                Kind::BinaryOp,
                "=="@,
                seq![
                    mk(Kind::MethodCall, "sign"@, seq![ident_m(value)]),
                    path3_m("num_bigint"@, "Sign"@, "Minus"@),
                ],
            ),
            block_m(mk(Kind::UnaryOp, "-"@, seq![bigint_one_m()])),
            block_m(path3_m("num_bigint"@, "BigInt"@, "ZERO"@)),
        ],
    )
}

/// The body that shifts `value` by `count`, left or right.
pub open spec fn shift_body_m(count: Seq<char>, value: Seq<char>, left: bool) -> NodeM {
    let shifted = mk(
        Kind::BinaryOp,
        if left {
            "<<"@
        } else {
            ">>"@
        },
        seq![ident_m(value), ident_m("shift"@)],
    );
    let overflow = if left {
        mk(Kind::Macro, "panic!(\"BigInt left-shift count exceeds usize\")"@, Seq::empty())
    } else {
        huge_right_shift_m(value)
    };
    block_m(
        mk(
            Kind::Match,
            Seq::empty(),
            seq![shift_count_m(count), arm_m("Some(shift)"@, shifted), arm_m("None"@, overflow)],
        ),
    )
}

/// The body that computes the mask of `count` low bits.
pub open spec fn mask_body_m(count: Seq<char>) -> NodeM {
    let shifted_one = mk(Kind::BinaryOp, "<<"@, seq![bigint_one_m(), ident_m("shift"@)]);
    let mask = mk(
        Kind::BinaryOp,
        "-"@,
        seq![mk(Kind::Parenthesized, Seq::empty(), seq![shifted_one]), bigint_one_m()],
    );
    block_m(
        mk(
            Kind::Match,
            Seq::empty(),
            seq![
                shift_count_m(count),
                arm_m("Some(shift)"@, mask),
                arm_m(
                    "None"@,
                    mk(Kind::Macro, "panic!(\"BigInt mask width exceeds usize\")"@, Seq::empty()),
                ),
            ],
        ),
    )
}

// ----- the traversal -----

/// The method `f` with the body `body`.
pub open spec fn with_body_m(f: NodeM, body: NodeM) -> NodeM {
    mk(f.kind, f.text, f.children.update(4, body))
}

/// The name of the `i`-th parameter of `f`.
pub open spec fn param_name_m(f: NodeM, i: int) -> Seq<char> {
    f.children[3].children[i].text
}

/// The method `f` lowered where it is one of the bit operations, and the
/// counts.
pub open spec fn lower_method_m(f: NodeM, a: BigIntShiftAnalysis) -> (NodeM, BigIntShiftAnalysis) {
    if f.kind is Function && f.text == "push_bit"@ && has_bigint_signature_m(f, 2) {
        (
            with_body_m(f, shift_body_m(param_name_m(f, 0), param_name_m(f, 1), true)),
            BigIntShiftAnalysis { push_bit_methods: bump_shift_count(a.push_bit_methods), ..a },
        )
    } else if f.kind is Function && f.text == "drop_bit"@ && has_bigint_signature_m(f, 2) {
        (
            with_body_m(f, shift_body_m(param_name_m(f, 0), param_name_m(f, 1), false)),
            BigIntShiftAnalysis { drop_bit_methods: bump_shift_count(a.drop_bit_methods), ..a },
        )
    } else if f.kind is Function && f.text == "mask"@ && has_bigint_signature_m(f, 1) {
        (
            with_body_m(f, mask_body_m(param_name_m(f, 0))),
            BigIntShiftAnalysis { mask_methods: bump_shift_count(a.mask_methods), ..a },
        )
    } else {
        (f, a)
    }
}

/// The items `cs` of an impl with their methods lowered.
pub open spec fn lower_impl_items_m(cs: Seq<NodeM>, a: BigIntShiftAnalysis) -> (
    Seq<NodeM>,
    BigIntShiftAnalysis,
)
    decreases cs,
{
    if cs.len() == 0 {
        (cs, a)
    } else {
        let (h, a1) = lower_method_m(cs[0], a);
        let (rest, a2) = lower_impl_items_m(cs.drop_first(), a1);
        (seq![h] + rest, a2)
    }
}

/// The module `m` with its bit-operations impls lowered, inner modules
/// included.
pub open spec fn lower_module_m(m: NodeM, a: BigIntShiftAnalysis) -> (NodeM, BigIntShiftAnalysis)
    decreases m, 1nat,
{
    let (cs, a1) = lower_items_m(m.children, a);
    (mk(m.kind, m.text, cs), a1)
}

pub open spec fn lower_items_m(cs: Seq<NodeM>, a: BigIntShiftAnalysis) -> (
    Seq<NodeM>,
    BigIntShiftAnalysis,
)
    decreases cs, 0nat,
{
    if cs.len() == 0 {
        (cs, a)
    } else {
        let (h, a1) = if is_bigint_impl_m(cs[0]) {
            let (items, a1) = lower_impl_items_m(cs[0].children, a);
            (mk(cs[0].kind, cs[0].text, items), a1)
        } else if cs[0].kind is Module {
            lower_module_m(cs[0], a)
        } else {
            (cs[0], a)
        };
        let (rest, a2) = lower_items_m(cs.drop_first(), a1);
        (seq![h] + rest, a2)
    }
}

/// The lowering of a module tree, and its counts started from zero.
pub open spec fn lower_bigint_shifts_m(m: NodeM) -> (NodeM, BigIntShiftAnalysis) {
    lower_module_m(m, no_shift_counts())
}

// ----- executable type names -----

/// Where the part of `s[..n]` after its last `::` starts.
fn last_segment_start(s: &str, n: usize) -> (k: usize)
    requires
        n <= s@.len(),
    ensures
        k <= n,
        last_segment_m(s@.subrange(0, n as int)) == s@.subrange(k as int, n as int),
    decreases n,
{
    let ghost p = s@.subrange(0, n as int);
    if n >= 2 && s.get_char(n - 2) == ':' && s.get_char(n - 1) == ':' {
        assert(p[n - 2] == ':' && p[n - 1] == ':');
        assert(s@.subrange(n as int, n as int) =~= Seq::<char>::empty());
        n
    } else if n == 0 {
        assert(p =~= s@.subrange(0, 0));
        0
    } else {
        let k = last_segment_start(s, n - 1);
        assert(p.drop_last() =~= s@.subrange(0, n - 1));
        assert(s@.subrange(k as int, n - 1).push(p.last()) =~= s@.subrange(k as int, n as int));
        k
    }
}

/// Whether the name of the type `t` is `name`.
fn type_name_is(t: &Node, name: &str) -> (b: bool)
    ensures
        b == (type_name_m(t@) == Some(name@)),
{
    match t.kind {
        Kind::TypeNamed => {
            let s = t.text.as_str();
            let n = s.unicode_len();
            let k = last_segment_start(s, n);
            assert(s@.subrange(0, n as int) =~= t.text@);
            segment_is(s, k, n, name)
        },
        Kind::TypePath => match last_node(&t.children) {
            Some(c) => is_text(&c.text, name),
            None => false,
        },
        _ => false,
    }
}

/// Whether the impl `i` is `impl SemiringBitOperations for BigInt`.
fn is_bigint_bit_operations_impl(i: &Node) -> (b: bool)
    ensures
        b == is_bigint_impl_m(i@),
{
    if !matches!(i.kind, Kind::Impl) || child(&i.children, 2).is_none() {
        return false;
    }
    type_name_is(child(&i.children, 1).unwrap(), "BigInt") && type_name_is(
        child(&i.children, 2).unwrap(),
        "SemiringBitOperations",
    )
}

/// Whether every parameter of `l` is named and of type `BigInt`.
fn bigint_params(l: &Nodes) -> (b: bool)
    ensures
        b == bigint_params_m(nodes_m(*l)),
    decreases l,
{
    match l {
        Nodes::Nil => true,
        Nodes::Cons(h, rest) => {
            proof {
                lemma_cons(node_m(**h), nodes_m(**rest));
            }
            if h.text.as_str().unicode_len() == 0 || !has_len(&h.children, 1) {
                return false;
            }
            type_name_is(child(&h.children, 0).unwrap(), "BigInt") && bigint_params(rest)
        },
    }
}

/// Whether the method `f` takes `arity` `BigInt`s and returns a `BigInt`.
fn has_bigint_signature(f: &Node, arity: usize) -> (b: bool)
    ensures
        b == has_bigint_signature_m(f@, arity as nat),
{
    if !has_function_layout(f) {
        return false;
    }
    let params = child(&f.children, 3).unwrap();
    has_len(&params.children, arity) && bigint_params(&params.children) && type_name_is(
        child(&f.children, 1).unwrap(),
        "BigInt",
    )
}

// ----- executable bodies -----

fn block(e: Node) -> (r: Node)
    ensures
        r@ == block_m(e@),
{
    node1(Kind::Block, String::new(), node1(Kind::Tail, String::new(), e))
}

fn ident(n: String) -> (r: Node)
    ensures
        r@ == ident_m(n@),
{
    leaf(Kind::Ident, n)
}

fn path3(a: &str, b: &str, c: &str) -> (r: Node)
    ensures
        r@ == path3_m(a@, b@, c@),
{
    node3(
        Kind::Path { member: false },
        String::new(),
        leaf(Kind::Segment, string_of(a)),
        leaf(Kind::Segment, string_of(b)),
        leaf(Kind::Segment, string_of(c)),
    )
}

fn arm(pattern: &str, e: Node) -> (r: Node)
    ensures
        r@ == arm_m(pattern@, e@),
{
    node2(Kind::Arm, string_of(pattern), leaf(Kind::Absent, String::new()), block(e))
}

fn bigint_one() -> (r: Node)
    ensures
        r@ == bigint_one_m(),
{
    node2(
        Kind::Call,
        String::new(),
        path3("num_bigint", "BigInt", "from"),
        leaf(Kind::Literal, string_of("1u8")),
    )
}

fn shift_count(count: String) -> (r: Node)
    ensures
        r@ == shift_count_m(count@),
{
    node2(
        Kind::Call,
        String::new(),
        path3("num_traits", "ToPrimitive", "to_usize"),
        node1(Kind::MethodCall, string_of("magnitude"), ident(count)),
    )
}

fn huge_right_shift_result(value: String) -> (r: Node)
    ensures
        r@ == huge_right_shift_m(value@),
{
    let sign = node1(Kind::MethodCall, string_of("sign"), ident(value));
    let condition = node2(Kind::BinaryOp, string_of("=="), sign, path3("num_bigint", "Sign", "Minus"));
    let minus_one = block(node1(Kind::UnaryOp, string_of("-"), bigint_one()));
    let zero = block(path3("num_bigint", "BigInt", "ZERO"));
    node3(Kind::If, String::new(), condition, minus_one, zero)
}

fn shift_body(count: String, value: String, left: bool) -> (r: Node)
    ensures
        r@ == shift_body_m(count@, value@, left),
{
    let op = if left {
        string_of("<<")
    } else {
        string_of(">>")
    };
    let shifted = node2(Kind::BinaryOp, op, ident(value.clone()), ident(string_of("shift")));
    let overflow = if left {
        leaf(Kind::Macro, string_of("panic!(\"BigInt left-shift count exceeds usize\")"))
    } else {
        huge_right_shift_result(value)
    };
    block(
        node3(
            Kind::Match,
            String::new(),
            shift_count(count),
            arm("Some(shift)", shifted),
            arm("None", overflow),
        ),
    )
}

fn mask_body(count: String) -> (r: Node)
    ensures
        r@ == mask_body_m(count@),
{
    let shifted_one = node2(Kind::BinaryOp, string_of("<<"), bigint_one(), ident(string_of("shift")));
    let mask = node2(
        Kind::BinaryOp,
        string_of("-"),
        node1(Kind::Parenthesized, String::new(), shifted_one),
        bigint_one(),
    );
    let overflow = leaf(Kind::Macro, string_of("panic!(\"BigInt mask width exceeds usize\")"));
    block(
        node3(
            Kind::Match,
            String::new(),
            shift_count(count),
            arm("Some(shift)", mask),
            arm("None", overflow),
        ),
    )
}

// ----- executable traversal -----

/// Adds one to a count, staying at `usize::MAX` once there.
fn bump(x: usize) -> (r: usize)
    ensures
        r == bump_shift_count(x),
{
    if x < usize::MAX {
        x + 1
    } else {
        x
    }
}

/// The name of the `i`-th parameter of `f`.
fn param_name(f: &Node, i: usize) -> (r: String)
    requires
        function_layout_m(f@),
        i < f@.children[3].children.len(),
    ensures
        r@ == param_name_m(f@, i as int),
{
    let params = child(&f.children, 3).unwrap();
    child(&params.children, i).unwrap().text.clone()
}

/// The method `f` lowered where it is one of the bit operations.
fn lower_method(f: &Node, a: &mut BigIntShiftAnalysis) -> (r: Node)
    ensures
        (r@, *final(a)) == lower_method_m(f@, *old(a)),
{
    let is_function = matches!(f.kind, Kind::Function { .. });
    if is_function && is_text(&f.text, "push_bit") && has_bigint_signature(f, 2) {
        a.push_bit_methods = bump(a.push_bit_methods);
        let body = shift_body(param_name(f, 0), param_name(f, 1), true);
        Node { kind: f.kind, text: f.text.clone(), children: replace_child(&f.children, 4, body) }
    } else if is_function && is_text(&f.text, "drop_bit") && has_bigint_signature(f, 2) {
        a.drop_bit_methods = bump(a.drop_bit_methods);
        let body = shift_body(param_name(f, 0), param_name(f, 1), false);
        Node { kind: f.kind, text: f.text.clone(), children: replace_child(&f.children, 4, body) }
    } else if is_function && is_text(&f.text, "mask") && has_bigint_signature(f, 1) {
        a.mask_methods = bump(a.mask_methods);
        let body = mask_body(param_name(f, 0));
        Node { kind: f.kind, text: f.text.clone(), children: replace_child(&f.children, 4, body) }
    } else {
        crate::model::copy_node(f)
    }
}

fn lower_impl_items(l: &Nodes, a: &mut BigIntShiftAnalysis) -> (r: Nodes)
    ensures
        (nodes_m(r), *final(a)) == lower_impl_items_m(nodes_m(*l), *old(a)),
    decreases l,
{
    match l {
        Nodes::Nil => Nodes::Nil,
        Nodes::Cons(h, rest) => {
            proof {
                lemma_cons(node_m(**h), nodes_m(**rest));
            }
            let h2 = lower_method(h, a);
            let tail = lower_impl_items(rest, a);
            let r = Nodes::Cons(Box::new(h2), Box::new(tail));
            assert(nodes_m(r) == seq![h2@] + nodes_m(tail));
            r
        },
    }
}

fn lower_module(m: &Node, a: &mut BigIntShiftAnalysis) -> (r: Node)
    ensures
        (r@, *final(a)) == lower_module_m(m@, *old(a)),
    decreases m,
{
    let cs = lower_items(&m.children, a);
    Node { kind: m.kind, text: m.text.clone(), children: cs }
}

fn lower_items(l: &Nodes, a: &mut BigIntShiftAnalysis) -> (r: Nodes)
    ensures
        (nodes_m(r), *final(a)) == lower_items_m(nodes_m(*l), *old(a)),
    decreases l,
{
    match l {
        Nodes::Nil => Nodes::Nil,
        Nodes::Cons(h, rest) => {
            proof {
                lemma_cons(node_m(**h), nodes_m(**rest));
            }
            let h2 = if is_bigint_bit_operations_impl(h) {
                let items = lower_impl_items(&h.children, a);
                Node { kind: h.kind, text: h.text.clone(), children: items }
            } else if matches!(h.kind, Kind::Module) {
                lower_module(h, a)
            } else {
                crate::model::copy_node(h)
            };
            let tail = lower_items(rest, a);
            let r = Nodes::Cons(Box::new(h2), Box::new(tail));
            assert(nodes_m(r) == seq![h2@] + nodes_m(tail));
            r
        },
    }
}

/// Lowers the bit operations of the concrete `SemiringBitOperations` impl
/// for `BigInt` to native shifts, in a module tree and its inner modules,
/// and returns how many methods of each kind were lowered.
pub fn lower_bigint_shifts(module: &mut Node) -> (analysis: BigIntShiftAnalysis)
    ensures
        (final(module)@, analysis) == lower_bigint_shifts_m(old(module)@),
{
    let mut analysis = BigIntShiftAnalysis::new();
    let lowered = lower_module(module, &mut analysis);
    *module = lowered;
    analysis
}

// ----- laws -----

/// A method that is not one of the bit operations with `BigInt`s
/// throughout is left as it is.
pub proof fn lemma_other_methods_unchanged(f: NodeM, a: BigIntShiftAnalysis)
    requires
        !has_bigint_signature_m(f, 1),
        !has_bigint_signature_m(f, 2),
    ensures
        lower_method_m(f, a) == (f, a),
{
}

/// Lowering a method twice gives the method of lowering it once.
pub proof fn lemma_lower_method_idempotent(
    f: NodeM,
    a: BigIntShiftAnalysis,
    b: BigIntShiftAnalysis,
)
    ensures
        lower_method_m(lower_method_m(f, a).0, b).0 == lower_method_m(f, a).0,
        lower_method_m(f, a).0.kind == f.kind,
        !(f.kind is Function) ==> lower_method_m(f, a).0 == f,
{
    let g = lower_method_m(f, a).0;
    if g != f {
        assert(g.children.len() == f.children.len());
        assert(g.children[1] == f.children[1]);
        assert(g.children[2] == f.children[2]);
        assert(g.children[3] == f.children[3]);
        assert(has_bigint_signature_m(g, 1) == has_bigint_signature_m(f, 1));
        assert(has_bigint_signature_m(g, 2) == has_bigint_signature_m(f, 2));
        assert(g.children.update(4, g.children[4]) =~= g.children);
    }
}

/// Lowering the items of an impl keeps their number and kinds, leaves the
/// items that are not methods as they are, and is idempotent.
pub proof fn lemma_lower_impl_items_idempotent(
    cs: Seq<NodeM>,
    a: BigIntShiftAnalysis,
    b: BigIntShiftAnalysis,
)
    ensures
        lower_impl_items_m(cs, a).0.len() == cs.len(),
        forall|i: int|
            0 <= i < cs.len() ==> (#[trigger] lower_impl_items_m(cs, a).0[i]).kind == cs[i].kind,
        forall|i: int|
            0 <= i < cs.len() && !(cs[i].kind is Function) ==> #[trigger] lower_impl_items_m(
                cs,
                a,
            ).0[i] == cs[i],
        lower_impl_items_m(lower_impl_items_m(cs, a).0, b).0 == lower_impl_items_m(cs, a).0,
    decreases cs,
{
    if cs.len() > 0 {
        let (h, a1) = lower_method_m(cs[0], a);
        let (h2, b1) = lower_method_m(h, b);
        lemma_lower_method_idempotent(cs[0], a, b);
        lemma_lower_impl_items_idempotent(cs.drop_first(), a1, b1);
        let out = lower_impl_items_m(cs, a).0;
        let rest = lower_impl_items_m(cs.drop_first(), a1).0;
        assert(out == seq![h] + rest);
        assert(out.drop_first() =~= rest);
        assert forall|i: int| 0 < i < cs.len() implies #[trigger] out[i] == rest[i - 1] by {}
        assert forall|i: int| 0 < i < cs.len() implies cs[i] == #[trigger] cs.drop_first()[i - 1] by {}
    }
}

/// Lowering a module twice gives the module of lowering it once.
pub proof fn lemma_lower_module_idempotent(
    m: NodeM,
    a: BigIntShiftAnalysis,
    b: BigIntShiftAnalysis,
)
    ensures
        lower_module_m(lower_module_m(m, a).0, b).0 == lower_module_m(m, a).0,
    decreases m, 1nat,
{
    lemma_lower_items_idempotent(m.children, a, b);
}

pub proof fn lemma_lower_items_idempotent(
    cs: Seq<NodeM>,
    a: BigIntShiftAnalysis,
    b: BigIntShiftAnalysis,
)
    ensures
        lower_items_m(lower_items_m(cs, a).0, b).0 == lower_items_m(cs, a).0,
    decreases cs, 0nat,
{
    if cs.len() > 0 {
        let h = cs[0];
        let (h1, a1) = if is_bigint_impl_m(h) {
            let (items, a1) = lower_impl_items_m(h.children, a);
            (mk(h.kind, h.text, items), a1)
        } else if h.kind is Module {
            lower_module_m(h, a)
        } else {
            (h, a)
        };
        let (h2, b1) = if is_bigint_impl_m(h1) {
            let (items, b1) = lower_impl_items_m(h1.children, b);
            (mk(h1.kind, h1.text, items), b1)
        } else if h1.kind is Module {
            lower_module_m(h1, b)
        } else {
            (h1, b)
        };
        if is_bigint_impl_m(h) {
            lemma_lower_impl_items_idempotent(h.children, a, b);
            assert(!(h.children[1].kind is Function));
            assert(!(h.children[2].kind is Function));
            assert(h1.children[1] == h.children[1]);
            assert(h1.children[2] == h.children[2]);
            assert(is_bigint_impl_m(h1));
        } else if h.kind is Module {
            lemma_lower_module_idempotent(h, a, b);
        }
        assert(h2 == h1);
        lemma_lower_items_idempotent(cs.drop_first(), a1, b1);
        let out = lower_items_m(cs, a).0;
        let rest = lower_items_m(cs.drop_first(), a1).0;
        assert(out == seq![h1] + rest);
        assert(out[0] == h1);
        assert(out.drop_first() =~= rest);
    }
}


/// The tail expression of the body of the function `f`.
pub open spec fn body_tail_m(f: NodeM) -> NodeM {
    f.children[4].children[0].children[0]
}

/// The tail expression of the arm `arm`.
pub open spec fn arm_tail_m(arm: NodeM) -> NodeM {
    arm.children[1].children[0].children[0]
}

/// Whether `e` is the identifier `n`.
pub open spec fn is_ident_m(e: NodeM, n: Seq<char>) -> bool {
    e.kind is Ident && e.text == n
}

/// Whether `e` reads the shift count from the parameter `n`: it is
/// `num_traits::ToPrimitive::to_usize(n.magnitude())`.
pub open spec fn reads_count_of_m(e: NodeM, n: Seq<char>) -> bool {
    &&& e.kind is Call
    &&& e.children.len() == 2
    &&& e.children[0].kind is Path
    &&& e.children[0].children.len() == 3
    &&& e.children[0].children[0].text == "num_traits"@
    &&& e.children[0].children[1].text == "ToPrimitive"@
    &&& e.children[0].children[2].text == "to_usize"@
    &&& e.children[1].kind is MethodCall
    &&& e.children[1].text == "magnitude"@
    &&& e.children[1].children.len() == 1
    &&& is_ident_m(e.children[1].children[0], n)
}

/// A lowered `push_bit` or `drop_bit` shifts its second parameter by the
/// magnitude of its first: the lowered body matches on
/// `to_usize(first.magnitude())`, and where that fits a `usize` it is
/// `second << shift` for `push_bit` and `second >> shift` for `drop_bit`.
/// A lowered `mask` reads its width from its parameter. The rest of the
/// method is kept.
pub proof fn lemma_lowered_shift_operands(f: NodeM, a: BigIntShiftAnalysis)
    requires
        f.kind is Function,
        ((f.text == "push_bit"@ || f.text == "drop_bit"@) && has_bigint_signature_m(f, 2)) || (
        f.text == "mask"@ && has_bigint_signature_m(f, 1)),
    ensures
        ({
            let g = lower_method_m(f, a).0;
            let m = body_tail_m(g);
            let count = f.children[3].children[0].text;
            &&& g.kind == f.kind
            &&& g.text == f.text
            &&& g.children.len() == f.children.len()
            &&& forall|i: int| 0 <= i < f.children.len() && i != 4 ==> #[trigger] g.children[i] == f.children[i]
            &&& g.children[4].kind is Block
            &&& m.kind is Match
            &&& m.children.len() == 3
            &&& reads_count_of_m(m.children[0], count)
            &&& m.children[1].text == "Some(shift)"@
            &&& m.children[2].text == "None"@
            &&& (f.text != "mask"@ ==> {
                let value = f.children[3].children[1].text;
                let shifted = arm_tail_m(m.children[1]);
                &&& shifted.kind is BinaryOp
                &&& shifted.text == (if f.text == "push_bit"@ {
                    "<<"@
                } else {
                    ">>"@
                })
                &&& shifted.children.len() == 2
                &&& is_ident_m(shifted.children[0], value)
                &&& is_ident_m(shifted.children[1], "shift"@)
            })
        }),
{
    reveal_strlit("push_bit");
    reveal_strlit("drop_bit");
    reveal_strlit("mask");
    let g = lower_method_m(f, a).0;
    assert forall|i: int| 0 <= i < f.children.len() && i != 4 implies #[trigger] g.children[i]
        == f.children[i] by {
    }
}

} // verus!
