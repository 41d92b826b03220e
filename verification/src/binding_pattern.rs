//! The names a pattern binds, read from the pattern's source text.
//!
//! The borrow analysis keeps patterns as text. To learn which names a
//! pattern binds it strips `ref` and `mut`, opens tuples and constructor
//! applications at their top-level commas, and keeps what is left where it is
//! a plain identifier.
use vstd::prelude::*;
use vstd::string::*;

use crate::binding_cleanup::{is_binding_ident, is_binding_ident_m};
use crate::ast::{Kind, Node, Nodes};
use crate::demand::{alias_origin_m, derived_borrow_alias_origin, DerivedOrigins, Origin};
use crate::driver::opt_view;
use crate::model::{lemma_cons, node_m, NodeM};
use crate::type_shape::{carries_family_m, type_carries_nominal_family};
use crate::closure_binding::{collect_deref_ident_uses_block, derefs_block_m, insert_name, name_set_ok};
use crate::model::nodes_m;
use crate::text::{contains_text, string_of};
use crate::text::{
    drop_trailing_whitespace, is_text, is_whitespace, is_whitespace_m, skip_whitespace, substring,
    trim_end_m, trim_m, trim_start_m, views,
};

verus! {

// ----- white space -----

/// Trimming never lengthens a text.
pub proof fn lemma_trim_len(s: Seq<char>)
    ensures
        trim_start_m(s).len() <= s.len(),
        trim_end_m(s).len() <= s.len(),
        trim_m(s).len() <= s.len(),
    decreases s.len(),
{
    if s.len() > 0 && is_whitespace_m(s[0]) {
        lemma_trim_len(s.drop_first());
    }
    if s.len() > 0 && is_whitespace_m(s.last()) {
        lemma_trim_len(s.drop_last());
    }
    lemma_trim_end_len(trim_start_m(s));
}

proof fn lemma_trim_end_len(s: Seq<char>)
    ensures
        trim_end_m(s).len() <= s.len(),
    decreases s.len(),
{
    if s.len() > 0 && is_whitespace_m(s.last()) {
        lemma_trim_end_len(s.drop_last());
    }
}

// ----- binding modifiers -----

/// Whether `t` starts with the word `w` followed by white space.
pub open spec fn starts_with_word_m(t: Seq<char>, w: Seq<char>) -> bool {
    w.is_prefix_of(t) && t.len() > w.len() && is_whitespace_m(t[w.len() as int])
}

/// `s` without leading white space and leading `ref` and `mut` words.
pub open spec fn strip_binding_modifiers_m(s: Seq<char>) -> Seq<char>
    decreases s.len(),
{
    let t = trim_start_m(s);
    if starts_with_word_m(t, "ref"@) || starts_with_word_m(t, "mut"@) {
        proof {
            lemma_trim_len(s);
            reveal_strlit("ref");
            reveal_strlit("mut");
        }
        strip_binding_modifiers_m(t.subrange(3, t.len() as int))
    } else {
        t
    }
}

/// Whether the characters of `s` from `k` on start with `w` and white space.
fn word_at(s: &str, k: usize, w: &str) -> (b: bool)
    requires
        k <= s@.len(),
        w@.len() == 3,
    ensures
        b == starts_with_word_m(s@.subrange(k as int, s@.len() as int), w@),
{
    let n = s.unicode_len();
    let ghost t = s@.subrange(k as int, n as int);
    if n - k <= 3 {
        return false;
    }
    let mut i: usize = 0;
    while i < 3
        invariant
            i <= 3,
            k + 3 < n,
            n == s@.len(),
            w@.len() == 3,
            t == s@.subrange(k as int, n as int),
            forall|j: int| 0 <= j < i ==> w@[j] == s@[k + j],
        decreases 3 - i,
    {
        if w.get_char(i) != s.get_char(k + i) {
            assert(t[i as int] == s@[k + i]);
            return false;
        }
        i = i + 1;
    }
    assert(w@ =~= t.subrange(0, 3));
    assert(t[3] == s@[k + 3]);
    is_whitespace(s.get_char(k + 3))
}

/// Where the text `s` from `from` on starts once its leading white space and
/// `ref` and `mut` words are skipped.
fn strip_binding_modifiers(s: &str, from: usize) -> (k: usize)
    requires
        from <= s@.len(),
    ensures
        from <= k <= s@.len(),
        strip_binding_modifiers_m(s@.subrange(from as int, s@.len() as int)) == s@.subrange(
            k as int,
            s@.len() as int,
        ),
{
    let n = s.unicode_len();
    let mut k = from;
    loop
        invariant
            from <= k <= n,
            n == s@.len(),
            strip_binding_modifiers_m(s@.subrange(from as int, n as int))
                == strip_binding_modifiers_m(s@.subrange(k as int, n as int)),
        decreases n - k,
    {
        let t = skip_whitespace(s, k, n);
        proof {
            reveal_strlit("ref");
            reveal_strlit("mut");
        }
        if word_at(s, t, "ref") || word_at(s, t, "mut") {
            assert(s@.subrange(t as int, n as int).subrange(3, (n - t) as int) =~= s@.subrange(
                t + 3,
                n as int,
            ));
            k = t + 3;
        } else {
            return t;
        }
    }
}

// ----- tuples -----

/// Whether the parentheses of `s` from position `i` on, `d` of them open
/// before it, close exactly at the last character and never sooner.
pub open spec fn outer_scan_m(s: Seq<char>, i: nat, d: nat) -> bool
    decreases s.len() - i,
{
    if i >= s.len() {
        d == 0
    } else if s[i as int] == '(' {
        outer_scan_m(s, i + 1, d + 1)
    } else if s[i as int] == ')' {
        d > 0 && !(d == 1 && i + 1 != s.len()) && outer_scan_m(s, i + 1, (d - 1) as nat)
    } else {
        outer_scan_m(s, i + 1, d)
    }
}

/// What lies between the outer parentheses of `s`, where one pair encloses
/// all of it.
pub open spec fn outer_parens_inner_m(s: Seq<char>) -> Option<Seq<char>> {
    if s.len() >= 2 && s[0] == '(' && s.last() == ')' && outer_scan_m(s, 0, 0) {
        Some(s.subrange(1, s.len() - 1))
    } else {
        None
    }
}

/// What lies between the outer parentheses of `s`, where one pair encloses
/// all of it.
pub fn outer_parens_inner(s: &str) -> (r: Option<String>)
    ensures
        r matches Some(x) ==> outer_parens_inner_m(s@) == Some(x@),
        r is None ==> outer_parens_inner_m(s@) is None,
{
    let n = s.unicode_len();
    if n < 2 || s.get_char(0) != '(' || s.get_char(n - 1) != ')' {
        return None;
    }
    let mut depth: usize = 0;
    let mut i: usize = 0;
    while i < n
        invariant
            i <= n,
            n == s@.len(),
            depth <= i,
            outer_scan_m(s@, 0, 0) == outer_scan_m(s@, i as nat, depth as nat),
        decreases n - i,
    {
        let c = s.get_char(i);
        if c == '(' {
            depth = depth + 1;
        } else if c == ')' {
            if depth == 0 || (depth == 1 && i + 1 != n) {
                return None;
            }
            depth = depth - 1;
        }
        i = i + 1;
    }
    if depth == 0 {
        Some(substring(s, 1, n - 1))
    } else {
        None
    }
}

// ----- top-level commas -----

/// A nesting depth one less, but never below nothing.
pub open spec fn close_m(d: nat) -> nat {
    if d > 0 {
        (d - 1) as nat
    } else {
        0
    }
}

/// The parts of `s` from position `i` on, split at commas outside any
/// parentheses, brackets and braces, each trimmed, with the part under way
/// starting at `start` and `p`, `b` and `c` parentheses, brackets and braces
/// open. A last part that trims to nothing is dropped.
pub open spec fn split_from_m(s: Seq<char>, i: nat, start: nat, p: nat, b: nat, c: nat) -> Seq<
    Seq<char>,
>
    decreases s.len() - i,
{
    if i >= s.len() {
        let last = trim_m(s.subrange(start as int, s.len() as int));
        if last.len() > 0 {
            seq![last]
        } else {
            Seq::empty()
        }
    } else {
        let ch = s[i as int];
        if ch == '(' {
            split_from_m(s, i + 1, start, p + 1, b, c)
        } else if ch == ')' {
            split_from_m(s, i + 1, start, close_m(p), b, c)
        } else if ch == '[' {
            split_from_m(s, i + 1, start, p, b + 1, c)
        } else if ch == ']' {
            split_from_m(s, i + 1, start, p, close_m(b), c)
        } else if ch == '{' {
            split_from_m(s, i + 1, start, p, b, c + 1)
        } else if ch == '}' {
            split_from_m(s, i + 1, start, p, b, close_m(c))
        } else if ch == ',' && p == 0 && b == 0 && c == 0 {
            seq![trim_m(s.subrange(start as int, i as int))] + split_from_m(s, i + 1, i + 1, 0, 0, 0)
        } else {
            split_from_m(s, i + 1, start, p, b, c)
        }
    }
}

/// The parts of `s` split at its top-level commas, each trimmed.
pub open spec fn split_top_level_commas_m(s: Seq<char>) -> Seq<Seq<char>> {
    split_from_m(s, 0, 0, 0, 0, 0)
}

/// The trimmed text `s[from..to]`.
fn trimmed(s: &str, from: usize, to: usize) -> (r: String)
    requires
        from <= to <= s@.len(),
    ensures
        r@ == trim_m(s@.subrange(from as int, to as int)),
{
    let k1 = skip_whitespace(s, from, to);
    let k2 = drop_trailing_whitespace(s, k1, to);
    substring(s, k1, k2)
}

/// The parts of `s` split at its top-level commas, each trimmed.
pub fn split_top_level_commas(s: &str) -> (parts: Vec<String>)
    ensures
        views(parts@) == split_top_level_commas_m(s@),
{
    let n = s.unicode_len();
    let mut parts: Vec<String> = Vec::new();
    let mut start: usize = 0;
    let mut paren: usize = 0;
    let mut bracket: usize = 0;
    let mut brace: usize = 0;
    let mut i: usize = 0;
    while i < n
        invariant
            start <= i <= n,
            n == s@.len(),
            paren <= i,
            bracket <= i,
            brace <= i,
            split_top_level_commas_m(s@) == views(parts@) + split_from_m(
                s@,
                i as nat,
                start as nat,
                paren as nat,
                bracket as nat,
                brace as nat,
            ),
        decreases n - i,
    {
        let ch = s.get_char(i);
        if ch == '(' {
            paren = paren + 1;
        } else if ch == ')' {
            paren = if paren > 0 {
                paren - 1
            } else {
                0
            };
        } else if ch == '[' {
            bracket = bracket + 1;
        } else if ch == ']' {
            bracket = if bracket > 0 {
                bracket - 1
            } else {
                0
            };
        } else if ch == '{' {
            brace = brace + 1;
        } else if ch == '}' {
            brace = if brace > 0 {
                brace - 1
            } else {
                0
            };
        } else if ch == ',' && paren == 0 && bracket == 0 && brace == 0 {
            let part = trimmed(s, start, i);
            let ghost before = parts@;
            parts.push(part);
            assert(views(parts@) =~= views(before) + seq![part@]);
            start = i + 1;
        }
        i = i + 1;
    }
    let last = trimmed(s, start, n);
    if last.unicode_len() > 0 {
        let ghost before = parts@;
        parts.push(last);
        assert(views(parts@) =~= views(before) + seq![last@]);
    } else {
        assert(views(parts@) =~= views(parts@) + Seq::<Seq<char>>::empty());
    }
    parts
}


// ----- constructor applications -----

/// The position of the top-level `(` of `s`, scanning from position `i`
/// with `d` parentheses open and the one found so far at `start`: `None`
/// where a parenthesis closes that was not open, or where a top-level group
/// closes before the last character or not at all.
pub open spec fn ctor_scan_m(s: Seq<char>, i: nat, d: nat, start: Option<nat>) -> Option<
    Option<nat>,
>
    decreases s.len() - i,
{
    if i >= s.len() {
        if d == 0 {
            Some(start)
        } else {
            None
        }
    } else if s[i as int] == '(' {
        ctor_scan_m(
            s,
            i + 1,
            d + 1,
            if d == 0 {
                Some(i)
            } else {
                start
            },
        )
    } else if s[i as int] == ')' {
        if d == 0 || (d == 1 && i + 1 != s.len()) {
            None
        } else {
            ctor_scan_m(s, i + 1, (d - 1) as nat, start)
        }
    } else {
        ctor_scan_m(s, i + 1, d, start)
    }
}

/// The constructor of a constructor application `C(args..)` and its
/// arguments split at their top-level commas, each trimmed.
pub open spec fn split_constructor_pattern_m(s: Seq<char>) -> Option<(Seq<char>, Seq<Seq<char>>)> {
    match ctor_scan_m(s, 0, 0, None) {
        Some(Some(st)) => {
            let ctor = trim_m(s.subrange(0, st as int));
            if ctor.len() == 0 {
                None
            } else {
                Some(
                    (
                        ctor,
                        split_top_level_commas_m(trim_m(s.subrange((st + 1) as int, s.len() - 1))),
                    ),
                )
            }
        },
        _ => None,
    }
}

/// The constructor of a constructor application `C(args..)` and its
/// arguments, each trimmed.
pub fn split_constructor_pattern(s: &str) -> (r: Option<(String, Vec<String>)>)
    ensures
        match split_constructor_pattern_m(s@) {
            Some((c, args)) => r matches Some((rc, rargs)) && rc@ == c && views(rargs@) == args,
            None => r is None,
        },
{
    let n = s.unicode_len();
    let mut depth: usize = 0;
    let mut start: Option<usize> = None;
    let mut i: usize = 0;
    while i < n
        invariant
            i <= n,
            n == s@.len(),
            depth <= i,
            start matches Some(st) ==> st < i && s@[st as int] == '(',
            (depth == 0 && start is Some) ==> i == n && s@[n - 1] == ')',
            ctor_scan_m(s@, 0, 0, None) == ctor_scan_m(
                s@,
                i as nat,
                depth as nat,
                match start {
                    Some(st) => Some(st as nat),
                    None => None,
                },
            ),
        decreases n - i,
    {
        let c = s.get_char(i);
        if c == '(' {
            if depth == 0 {
                start = Some(i);
            }
            depth = depth + 1;
        } else if c == ')' {
            if depth == 0 || (depth == 1 && i + 1 != n) {
                return None;
            }
            depth = depth - 1;
        }
        i = i + 1;
    }
    if depth != 0 {
        return None;
    }
    match start {
        None => None,
        Some(st) => {
            let ctor = trimmed(s, 0, st);
            if ctor.unicode_len() == 0 {
                return None;
            }
            let inner = trimmed(s, st + 1, n - 1);
            let args = split_top_level_commas(inner.as_str());
            Some((ctor, args))
        },
    }
}

/// Whether `s` holds the path separator `::` at position `i`.
pub open spec fn separator_at(s: Seq<char>, i: int) -> bool {
    0 <= i && i + 1 < s.len() && s[i] == ':' && s[i + 1] == ':'
}

/// Whether `s` holds the path separator `::`.
pub open spec fn has_path_separator_m(s: Seq<char>) -> bool {
    exists|i: int| #[trigger] separator_at(s, i)
}

pub(crate) fn has_path_separator(s: &str) -> (b: bool)
    ensures
        b == has_path_separator_m(s@),
{
    let n = s.unicode_len();
    if n < 2 {
        return false;
    }
    let mut i: usize = 0;
    while i < n - 1
        invariant
            n == s@.len(),
            n >= 2,
            forall|j: int| 0 <= j < i ==> !#[trigger] separator_at(s@, j),
        decreases n - i,
    {
        if s.get_char(i) == ':' && s.get_char(i + 1) == ':' {
            assert(separator_at(s@, i as int));
            return true;
        }
        i = i + 1;
    }
    false
}

/// Where the scan for a constructor application succeeds with a
/// parenthesis, that parenthesis comes before the last character.
pub proof fn lemma_ctor_scan_start(s: Seq<char>, i: nat, d: nat, start: Option<nat>)
    requires
        i <= s.len(),
        start matches Some(st) ==> st < i && s[st as int] == '(',
        (d == 0 && start is Some) ==> i == s.len() && s[s.len() - 1] == ')',
    ensures
        ctor_scan_m(s, i, d, start) matches Some(Some(st)) ==> st + 1 < s.len(),
    decreases s.len() - i,
{
    if i < s.len() {
        if s[i as int] == '(' {
            lemma_ctor_scan_start(
                s,
                i + 1,
                d + 1,
                if d == 0 {
                    Some(i)
                } else {
                    start
                },
            );
        } else if s[i as int] == ')' {
            if !(d == 0 || (d == 1 && i + 1 != s.len())) {
                lemma_ctor_scan_start(s, i + 1, (d - 1) as nat, start);
            }
        } else {
            lemma_ctor_scan_start(s, i + 1, d, start);
        }
    }
}

// ----- bound names -----

/// Whether one of the patterns `parts`, each at most `limit` long, binds
/// `x`.
pub open spec fn binds_in_parts_m(parts: Seq<Seq<char>>, x: Seq<char>, limit: nat) -> bool
    decreases limit, parts.len(),
{
    parts.len() > 0 && ((parts[0].len() <= limit && pattern_names_m(parts[0], x))
        || binds_in_parts_m(parts.drop_first(), x, limit))
}

/// Whether the pattern `p` binds the name `x`: `p` is `x` itself, or a
/// tuple or constructor application one of whose parts binds `x`. `ref` and
/// `mut` are skipped; `_`, `..`, paths and Boolean literals bind nothing.
pub open spec fn pattern_names_m(p: Seq<char>, x: Seq<char>) -> bool
    decreases p.len(), 0nat,
{
    let t = trim_m(p);
    if p.len() == 0 || t.len() == 0 || t == "_"@ || t == ".."@ {
        false
    } else {
        let q = strip_binding_modifiers_m(t);
        let tuple = match outer_parens_inner_m(q) {
            Some(inner) => split_top_level_commas_m(inner),
            None => Seq::empty(),
        };
        if tuple.len() > 1 {
            binds_in_parts_m(tuple, x, (p.len() - 1) as nat)
        } else {
            match split_constructor_pattern_m(q) {
                Some((_, args)) => binds_in_parts_m(args, x, (p.len() - 1) as nat),
                None => !has_path_separator_m(q) && q != "true"@ && q != "false"@
                    && is_binding_ident_m(q) && q == x,
            }
        }
    }
}

// ----- lengths -----

/// Stripping binding modifiers never lengthens a text.
pub proof fn lemma_strip_binding_modifiers_len(s: Seq<char>)
    ensures
        strip_binding_modifiers_m(s).len() <= s.len(),
    decreases s.len(),
{
    lemma_trim_len(s);
    let t = trim_start_m(s);
    reveal_strlit("ref");
    reveal_strlit("mut");
    if starts_with_word_m(t, "ref"@) || starts_with_word_m(t, "mut"@) {
        lemma_strip_binding_modifiers_len(t.subrange(3, t.len() as int));
    }
}

/// Each part that a split gives is no longer than the text split.
pub proof fn lemma_split_parts_len(s: Seq<char>, i: nat, start: nat, p: nat, b: nat, c: nat)
    requires
        start <= i <= s.len(),
    ensures
        forall|k: int|
            0 <= k < split_from_m(s, i, start, p, b, c).len() ==> #[trigger] split_from_m(
                s,
                i,
                start,
                p,
                b,
                c,
            )[k].len() <= s.len(),
    decreases s.len() - i,
{
    let all = split_from_m(s, i, start, p, b, c);
    if i >= s.len() {
        let last = trim_m(s.subrange(start as int, s.len() as int));
        lemma_trim_len(s.subrange(start as int, s.len() as int));
        if last.len() > 0 {
            assert(all == seq![last]);
            assert forall|k: int| 0 <= k < all.len() implies #[trigger] all[k].len() <= s.len() by {
                assert(all[k] == last);
            }
        } else {
            assert(all.len() == 0);
        }
    } else {
        let ch = s[i as int];
        if ch == ',' && p == 0 && b == 0 && c == 0 {
            lemma_split_parts_len(s, i + 1, i + 1, 0, 0, 0);
            lemma_trim_len(s.subrange(start as int, i as int));
            let rest = split_from_m(s, i + 1, i + 1, 0, 0, 0);
            assert(all == seq![trim_m(s.subrange(start as int, i as int))] + rest);
            assert forall|k: int| 0 <= k < all.len() implies #[trigger] all[k].len() <= s.len() by {
                if k > 0 {
                    assert(all[k] == rest[k - 1]);
                }
            }
        } else {
            let (p2, b2, c2) = if ch == '(' {
                (p + 1, b, c)
            } else if ch == ')' {
                (close_m(p), b, c)
            } else if ch == '[' {
                (p, b + 1, c)
            } else if ch == ']' {
                (p, close_m(b), c)
            } else if ch == '{' {
                (p, b, c + 1)
            } else if ch == '}' {
                (p, b, close_m(c))
            } else {
                (p, b, c)
            };
            lemma_split_parts_len(s, i + 1, start, p2, b2, c2);
            assert(all == split_from_m(s, i + 1, start, p2, b2, c2));
        }
    }
}

/// Where every part is within the limit, some part binds `x` exactly where
/// one of them does.
pub proof fn lemma_binds_in_parts(parts: Seq<Seq<char>>, x: Seq<char>, limit: nat)
    requires
        forall|k: int| 0 <= k < parts.len() ==> #[trigger] parts[k].len() <= limit,
    ensures
        binds_in_parts_m(parts, x, limit) <==> exists|k: int|
            0 <= k < parts.len() && #[trigger] pattern_names_m(parts[k], x),
    decreases parts.len(),
{
    if parts.len() > 0 {
        let rest = parts.drop_first();
        assert forall|k: int| 0 <= k < rest.len() implies #[trigger] rest[k].len() <= limit by {
            assert(rest[k] == parts[k + 1]);
        }
        lemma_binds_in_parts(rest, x, limit);
        if binds_in_parts_m(parts, x, limit) {
            if !pattern_names_m(parts[0], x) {
                let k = choose|k: int| 0 <= k < rest.len() && #[trigger] pattern_names_m(rest[k], x);
                assert(pattern_names_m(parts[k + 1], x));
            }
        }
        if exists|k: int| 0 <= k < parts.len() && #[trigger] pattern_names_m(parts[k], x) {
            let k = choose|k: int| 0 <= k < parts.len() && #[trigger] pattern_names_m(parts[k], x);
            if k > 0 {
                assert(rest[k - 1] == parts[k]);
                assert(pattern_names_m(rest[k - 1], x));
            }
        }
    }
}

// ----- executable bound names -----

/// Adds to `out` the names that the patterns `parts` bind.
fn collect_in_parts(parts: &Vec<String>, out: &mut Vec<String>, Ghost(limit): Ghost<nat>)
    requires
        name_set_ok(old(out)@),
        forall|k: int| 0 <= k < parts@.len() ==> #[trigger] parts@[k]@.len() <= limit,
    ensures
        name_set_ok(final(out)@),
        forall|x: Seq<char>| #[trigger]
            views(final(out)@).contains(x) <==> views(old(out)@).contains(x) || binds_in_parts_m(
                views(parts@),
                x,
                limit,
            ),
    decreases limit, 1nat,
{
    let ghost initial = views(out@);
    let mut i: usize = 0;
    while i < parts.len()
        invariant
            i <= parts@.len(),
            name_set_ok(out@),
            forall|k: int| 0 <= k < parts@.len() ==> #[trigger] parts@[k]@.len() <= limit,
            forall|x: Seq<char>| #[trigger]
                views(out@).contains(x) <==> initial.contains(x) || exists|k: int|
                    0 <= k < i && #[trigger] pattern_names_m(parts@[k]@, x),
        decreases parts@.len() - i,
    {
        let ghost before = views(out@);
        collect_pattern_binding_names_within(parts[i].as_str(), out, Ghost(limit));
        assert forall|x: Seq<char>| #[trigger] views(out@).contains(x) <==> initial.contains(x)
            || exists|k: int| 0 <= k < i + 1 && #[trigger] pattern_names_m(parts@[k]@, x) by {
            if pattern_names_m(parts@[i as int]@, x) {
                assert(0 <= i < i + 1);
            }
            if exists|k: int| 0 <= k < i + 1 && #[trigger] pattern_names_m(parts@[k]@, x) {
                let k = choose|k: int| 0 <= k < i + 1 && #[trigger] pattern_names_m(parts@[k]@, x);
                if k < i {
                    assert(before.contains(x));
                }
            }
        }
        i = i + 1;
    }
    proof {
        let v = views(parts@);
        assert forall|k: int| 0 <= k < v.len() implies #[trigger] v[k].len() <= limit by {
            assert(v[k] == parts@[k]@);
        }
        assert forall|x: Seq<char>| #[trigger] views(out@).contains(x) <==> initial.contains(x)
            || binds_in_parts_m(v, x, limit) by {
            lemma_binds_in_parts(v, x, limit);
            if exists|k: int| 0 <= k < v.len() && #[trigger] pattern_names_m(v[k], x) {
                let k = choose|k: int| 0 <= k < v.len() && #[trigger] pattern_names_m(v[k], x);
                assert(v[k] == parts@[k]@);
            }
            if exists|k: int| 0 <= k < parts@.len() && #[trigger] pattern_names_m(parts@[k]@, x) {
                let k = choose|k: int| 0 <= k < parts@.len() && #[trigger] pattern_names_m(parts@[k]@, x);
                assert(v[k] == parts@[k]@);
            }
        }
    }
}

/// Adds to `out` the names that the pattern `pattern`, at most `limit` long,
/// binds.
fn collect_pattern_binding_names_within(pattern: &str, out: &mut Vec<String>, Ghost(limit): Ghost<nat>)
    requires
        name_set_ok(old(out)@),
        pattern@.len() <= limit,
    ensures
        name_set_ok(final(out)@),
        forall|x: Seq<char>| #[trigger]
            views(final(out)@).contains(x) <==> views(old(out)@).contains(x) || pattern_names_m(
                pattern@,
                x,
            ),
    decreases limit, 0nat,
{
    let n = pattern.unicode_len();
    let t = trimmed(pattern, 0, n);
    assert(pattern@.subrange(0, n as int) =~= pattern@);
    proof {
        lemma_trim_len(pattern@);
    }
    if n == 0 || t.unicode_len() == 0 || is_text(&t, "_") || is_text(&t, "..") {
        return;
    }
    let ts = t.as_str();
    let tn = ts.unicode_len();
    let k = strip_binding_modifiers(ts, 0);
    assert(t@.subrange(0, tn as int) =~= t@);
    let q = substring(ts, k, tn);
    proof {
        lemma_strip_binding_modifiers_len(t@);
    }
    let ghost plimit = (pattern@.len() - 1) as nat;
    if let Some(inner) = outer_parens_inner(q.as_str()) {
        let parts = split_top_level_commas(inner.as_str());
        if parts.len() > 1 {
            proof {
                lemma_split_parts_len(inner@, 0, 0, 0, 0, 0);
                assert forall|k: int| 0 <= k < parts@.len() implies #[trigger] parts@[k]@.len()
                    <= plimit by {
                    assert(views(parts@)[k] == parts@[k]@);
                }
            }
            collect_in_parts(&parts, out, Ghost(plimit));
            return;
        }
    }
    match split_constructor_pattern(q.as_str()) {
        Some((_, args)) => {
            proof {
                lemma_ctor_scan_start(q@, 0, 0, None);
                let st = ctor_scan_m(q@, 0, 0, None)->0->0;
                let inner = trim_m(q@.subrange((st + 1) as int, q@.len() - 1));
                lemma_trim_len(q@.subrange((st + 1) as int, q@.len() - 1));
                lemma_split_parts_len(inner, 0, 0, 0, 0, 0);
                assert forall|k: int| 0 <= k < args@.len() implies #[trigger] args@[k]@.len()
                    <= plimit by {
                    assert(views(args@)[k] == args@[k]@);
                }
            }
            collect_in_parts(&args, out, Ghost(plimit));
            return;
        },
        None => {},
    }
    if has_path_separator(q.as_str()) || is_text(&q, "true") || is_text(&q, "false") {
        return;
    }
    if is_binding_ident(&q) {
        insert_name(out, &q);
    }
}

/// Adds to `out` the names that the pattern `pattern` binds.
pub fn collect_pattern_binding_names(pattern: &str, out: &mut Vec<String>)
    requires
        name_set_ok(old(out)@),
    ensures
        name_set_ok(final(out)@),
        forall|x: Seq<char>| #[trigger]
            views(final(out)@).contains(x) <==> views(old(out)@).contains(x) || pattern_names_m(
                pattern@,
                x,
            ),
{
    collect_pattern_binding_names_within(pattern, out, Ghost(pattern@.len()));
}


// ----- dereferenced pattern bindings -----

/// Adds to `out` the names that the pattern `pattern` binds and the block
/// `body` dereferences as `*name`: the bindings that the body uses as boxes.
pub fn collect_deref_box_binding_names_from_body(pattern: &str, body: &Node, out: &mut Vec<String>)
    requires
        name_set_ok(old(out)@),
    ensures
        name_set_ok(final(out)@),
        forall|x: Seq<char>| #[trigger]
            views(final(out)@).contains(x) <==> views(old(out)@).contains(x) || (pattern_names_m(
                pattern@,
                x,
            ) && derefs_block_m(nodes_m(body.children), x)),
{
    let mut bindings: Vec<String> = Vec::new();
    assert(views(bindings@) =~= Seq::<Seq<char>>::empty());
    collect_pattern_binding_names(pattern, &mut bindings);
    if bindings.len() == 0 {
        assert forall|x: Seq<char>| !#[trigger] pattern_names_m(pattern@, x) by {
            if pattern_names_m(pattern@, x) {
                assert(views(bindings@).contains(x));
            }
        }
        return;
    }
    let mut derefs: Vec<String> = Vec::new();
    assert(views(derefs@) =~= Seq::<Seq<char>>::empty());
    collect_deref_ident_uses_block(&body.children, &mut derefs);
    let ghost initial = views(out@);
    let mut i: usize = 0;
    while i < bindings.len()
        invariant
            i <= bindings@.len(),
            name_set_ok(out@),
            forall|x: Seq<char>| #[trigger]
                views(bindings@).contains(x) <==> pattern_names_m(pattern@, x),
            forall|x: Seq<char>| #[trigger]
                views(derefs@).contains(x) <==> derefs_block_m(nodes_m(body.children), x),
            forall|x: Seq<char>| #[trigger]
                views(out@).contains(x) <==> initial.contains(x) || (views(derefs@).contains(x)
                    && views(bindings@).subrange(0, i as int).contains(x)),
        decreases bindings@.len() - i,
    {
        let ghost before = views(out@);
        let ghost seen = views(bindings@).subrange(0, i as int);
        let ghost seen_next = views(bindings@).subrange(0, i + 1);
        assert(seen_next =~= seen.push(bindings@[i as int]@));
        let ghost b = bindings@[i as int]@;
        assert(views(bindings@)[i as int] == b);
        let hit = contains_text(&derefs, &bindings[i]);
        if hit {
            insert_name(out, &bindings[i]);
        }
        assert forall|x: Seq<char>| #[trigger] views(out@).contains(x) <==> initial.contains(x)
            || (views(derefs@).contains(x) && seen_next.contains(x)) by {
            if seen_next.contains(x) && !seen.contains(x) {
                let k = choose|k: int| 0 <= k < seen_next.len() && seen_next[k] == x;
                assert(k == i);
                assert(x == b);
            }
            if seen.contains(x) {
                let k = choose|k: int| 0 <= k < seen.len() && seen[k] == x;
                assert(seen_next[k] == x);
            }
            if x == b {
                assert(seen_next[i as int] == x);
            }
            assert(before.contains(x) <==> initial.contains(x) || (views(derefs@).contains(x)
                && seen.contains(x)));
        }
        i = i + 1;
    }
    assert(views(bindings@).subrange(0, bindings@.len() as int) =~= views(bindings@));
}


// ----- origins of pattern bindings -----

/// The origin of a value projected out of one with origin `source` into a
/// field of type `field_ty`: structure where the source is structure and the
/// field carries the root's family, payload otherwise.
pub open spec fn projected_origin_m(source: Origin, field_ty: NodeM, d: DerivedOrigins) -> Origin {
    if source == Origin::Payload {
        Origin::Payload
    } else {
        match d.root_family {
            Some(f) => if carries_family_m(field_ty, f@) {
                Origin::Structure
            } else {
                Origin::Payload
            },
            None => Origin::Payload,
        }
    }
}

/// The origin of a value projected out of one with origin `source` into a
/// field of type `field_ty`.
pub fn projected_origin(source: Origin, field_ty: &Node, derived: &DerivedOrigins) -> (o: Origin)
    ensures
        o == projected_origin_m(source, field_ty@, *derived),
{
    if source == Origin::Payload {
        return Origin::Payload;
    }
    match &derived.root_family {
        Some(f) => if type_carries_nominal_family(field_ty, f) {
            Origin::Structure
        } else {
            Origin::Payload
        },
        None => Origin::Payload,
    }
}

/// Records each name that `pattern` binds as derived, with origin `origin`.
pub fn collect_pattern_bindings_with_origin(pattern: &str, origin: Origin, derived: &mut DerivedOrigins)
    requires
        old(derived).wf(),
    ensures
        final(derived).wf(),
        forall|x: Seq<char>| #[trigger]
            final(derived).has(x) <==> old(derived).has(x) || pattern_names_m(pattern@, x),
        forall|x: Seq<char>| #[trigger]
            final(derived).carries(x) <==> if pattern_names_m(pattern@, x) {
                origin == Origin::Structure
            } else {
                old(derived).carries(x)
            },
        opt_view(final(derived).root_family) == opt_view(old(derived).root_family),
{
    let mut bindings: Vec<String> = Vec::new();
    assert(views(bindings@) =~= Seq::<Seq<char>>::empty());
    collect_pattern_binding_names(pattern, &mut bindings);
    let ghost start = *derived;
    let ghost bv = views(bindings@);
    let mut i: usize = 0;
    while i < bindings.len()
        invariant
            i <= bindings@.len(),
            bv == views(bindings@),
            derived.wf(),
            forall|x: Seq<char>| #[trigger] bv.contains(x) <==> pattern_names_m(pattern@, x),
            forall|x: Seq<char>| #[trigger]
                derived.has(x) <==> start.has(x) || bv.subrange(0, i as int).contains(x),
            forall|x: Seq<char>| #[trigger]
                derived.carries(x) <==> if bv.subrange(0, i as int).contains(x) {
                    origin == Origin::Structure
                } else {
                    start.carries(x)
                },
            opt_view(derived.root_family) == opt_view(start.root_family),
        decreases bindings@.len() - i,
    {
        let ghost seen = bv.subrange(0, i as int);
        let ghost seen_next = bv.subrange(0, i + 1);
        let ghost b = bindings@[i as int]@;
        assert(bv[i as int] == b);
        assert forall|x: Seq<char>| #[trigger] seen_next.contains(x) <==> seen.contains(x) || x == b by {
            if seen_next.contains(x) && x != b {
                let k = choose|k: int| 0 <= k < seen_next.len() && seen_next[k] == x;
                assert(seen[k] == x);
            }
            if seen.contains(x) {
                let k = choose|k: int| 0 <= k < seen.len() && seen[k] == x;
                assert(seen_next[k] == x);
            }
            if x == b {
                assert(seen_next[i as int] == x);
            }
        }
        derived.insert(string_of(bindings[i].as_str()), origin);
        i = i + 1;
    }
    assert(bv.subrange(0, bv.len() as int) =~= bv);
}

/// The origin that the `k` first element and subpattern pairs give the name
/// `x`: that of the last pair whose element is an alias of a derived name
/// and whose subpattern binds `x`.
pub open spec fn tuple_origin_m(
    elems: Seq<NodeM>,
    parts: Seq<Seq<char>>,
    d: DerivedOrigins,
    x: Seq<char>,
    k: nat,
) -> Option<Origin>
    decreases k,
{
    if k == 0 {
        None
    } else {
        let j = (k - 1) as nat;
        match alias_origin_m(elems[j as int], d) {
            Some(o) => if pattern_names_m(parts[j as int], x) {
                Some(o)
            } else {
                tuple_origin_m(elems, parts, d, x, j)
            },
            None => tuple_origin_m(elems, parts, d, x, j),
        }
    }
}

/// The number of element and subpattern pairs a tuple match on `scrutinee`
/// with pattern `pattern` has, where the scrutinee is a tuple and the
/// pattern is parenthesized.
pub open spec fn tuple_pairs_m(scrutinee: NodeM, pattern: Seq<char>) -> nat {
    match outer_parens_inner_m(trim_m(pattern)) {
        Some(inner) => if scrutinee.kind is Tuple {
            let parts = split_top_level_commas_m(inner);
            if scrutinee.children.len() < parts.len() {
                scrutinee.children.len()
            } else {
                parts.len()
            }
        } else {
            0
        },
        None => 0,
    }
}

/// The subpatterns of a parenthesized pattern.
pub open spec fn tuple_parts_m(pattern: Seq<char>) -> Seq<Seq<char>> {
    match outer_parens_inner_m(trim_m(pattern)) {
        Some(inner) => split_top_level_commas_m(inner),
        None => Seq::empty(),
    }
}

/// For a match on a tuple of aliases with an untyped tuple pattern, records
/// in `out` each name a subpattern binds, with the origin of the derived
/// name its element aliases. Without the element's type a structural
/// projection cannot be told from a payload one, so the alias's origin is
/// kept as it is.
pub fn collect_untyped_tuple_derived_from_pattern(
    scrutinee: &Node,
    pattern: &str,
    derived: &DerivedOrigins,
    out: &mut DerivedOrigins,
)
    requires
        old(out).wf(),
    ensures
        final(out).wf(),
        ({
            let k = tuple_pairs_m(scrutinee@, pattern@);
            let parts = tuple_parts_m(pattern@);
            &&& forall|x: Seq<char>| #[trigger]
                final(out).has(x) <==> old(out).has(x) || tuple_origin_m(
                    scrutinee@.children,
                    parts,
                    *derived,
                    x,
                    k,
                ) is Some
            &&& forall|x: Seq<char>| #[trigger]
                final(out).carries(x) <==> match tuple_origin_m(
                    scrutinee@.children,
                    parts,
                    *derived,
                    x,
                    k,
                ) {
                    Some(o) => o == Origin::Structure,
                    None => old(out).carries(x),
                }
        }),
        opt_view(final(out).root_family) == opt_view(old(out).root_family),
{
    let ghost start = *out;
    if !matches!(scrutinee.kind, Kind::Tuple) {
        return;
    }
    let n = pattern.unicode_len();
    let trimmed_pattern = trimmed(pattern, 0, n);
    assert(pattern@.subrange(0, n as int) =~= pattern@);
    let inner = match outer_parens_inner(trimmed_pattern.as_str()) {
        Some(inner) => inner,
        None => {
            return;
        },
    };
    let parts = split_top_level_commas(inner.as_str());
    let ghost pv = views(parts@);
    let ghost elems = scrutinee@.children;
    let ghost k = tuple_pairs_m(scrutinee@, pattern@);
    assert(k == if elems.len() < pv.len() {
        elems.len()
    } else {
        pv.len()
    });
    let mut cur: &Nodes = &scrutinee.children;
    let mut i: usize = 0;
    while i < parts.len()
        invariant
            i <= parts@.len(),
            pv == views(parts@),
            pv == tuple_parts_m(pattern@),
            elems == scrutinee@.children,
            i <= elems.len(),
            crate::model::nodes_m(*cur) == elems.subrange(i as int, elems.len() as int),
            out.wf(),
            forall|x: Seq<char>| #[trigger]
                out.has(x) <==> start.has(x) || tuple_origin_m(elems, pv, *derived, x, i as nat) is Some,
            forall|x: Seq<char>| #[trigger]
                out.carries(x) <==> match tuple_origin_m(elems, pv, *derived, x, i as nat) {
                    Some(o) => o == Origin::Structure,
                    None => start.carries(x),
                },
            opt_view(out.root_family) == opt_view(start.root_family),
            k == if elems.len() < pv.len() {
                elems.len()
            } else {
                pv.len()
            },
        ensures
            i == k,
        decreases parts@.len() - i,
    {
        match cur {
            Nodes::Nil => {
                assert(i == elems.len());
                break;
            },
            Nodes::Cons(elem, rest) => {
                proof {
                    lemma_cons(node_m(**elem), crate::model::nodes_m(**rest));
                }
                assert(elems[i as int] == elem@);
                assert(pv[i as int] == parts@[i as int]@);
                match derived_borrow_alias_origin(elem, derived) {
                    Some(origin) => {
                        collect_pattern_bindings_with_origin(parts[i].as_str(), origin, out);
                    },
                    None => {},
                }
                assert(crate::model::nodes_m(**rest) =~= elems.subrange(i + 1, elems.len() as int));
                cur = rest;
                i = i + 1;
            },
        }
    }
}


// ----- laws -----

/// Every name a pattern binds is a plain identifier.
pub proof fn lemma_bound_names_are_identifiers(p: Seq<char>, x: Seq<char>)
    ensures
        pattern_names_m(p, x) ==> is_binding_ident_m(x),
    decreases p.len(), 0nat,
{
    let t = trim_m(p);
    if p.len() == 0 || t.len() == 0 || t == "_"@ || t == ".."@ {
    } else {
        let q = strip_binding_modifiers_m(t);
        let tuple = match outer_parens_inner_m(q) {
            Some(inner) => split_top_level_commas_m(inner),
            None => Seq::empty(),
        };
        if tuple.len() > 1 {
            lemma_parts_bind_identifiers(tuple, x, (p.len() - 1) as nat);
        } else {
            match split_constructor_pattern_m(q) {
                Some((_, args)) => lemma_parts_bind_identifiers(args, x, (p.len() - 1) as nat),
                None => {},
            }
        }
    }
}

proof fn lemma_parts_bind_identifiers(parts: Seq<Seq<char>>, x: Seq<char>, limit: nat)
    ensures
        binds_in_parts_m(parts, x, limit) ==> is_binding_ident_m(x),
    decreases limit, parts.len(),
{
    if parts.len() > 0 {
        if parts[0].len() <= limit {
            lemma_bound_names_are_identifiers(parts[0], x);
        }
        lemma_parts_bind_identifiers(parts.drop_first(), x, limit);
    }
}

} // verus!
