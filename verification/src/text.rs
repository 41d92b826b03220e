//! Small verified operations on names and other text.
use vstd::prelude::*;
use vstd::string::*;
use vstd::utf8::{encode_scalar, encode_utf8};

verus! {

/// Appends one character to a string.
///
/// Calls `String::push`; trusted to append exactly `c` at the end, as the
/// standard library documents.
#[verifier::external_body]
pub fn push_char(s: &mut String, c: char)
    ensures
        final(s)@ == old(s)@.push(c),
{
    s.push(c)
}

/// A string holding the characters of `lit`.
pub fn string_of(lit: &str) -> (s: String)
    ensures
        s@ == lit@,
{
    String::from_str(lit)
}

/// Whether `s` holds exactly the characters of `lit`.
pub fn is_text(s: &String, lit: &str) -> (b: bool)
    ensures
        b == (s@ == lit@),
{
    let t = String::from_str(lit);
    *s == t
}

/// The character of a decimal digit.
pub open spec fn digit_char(d: nat) -> char {
    if d == 0 {
        '0'
    } else if d == 1 {
        '1'
    } else if d == 2 {
        '2'
    } else if d == 3 {
        '3'
    } else if d == 4 {
        '4'
    } else if d == 5 {
        '5'
    } else if d == 6 {
        '6'
    } else if d == 7 {
        '7'
    } else if d == 8 {
        '8'
    } else {
        '9'
    }
}

/// The decimal representation of `n`, without leading zeros.
pub open spec fn decimal(n: nat) -> Seq<char>
    decreases n,
{
    if n < 10 {
        seq![digit_char(n)]
    } else {
        decimal(n / 10).push(digit_char(n % 10))
    }
}

proof fn lemma_digit_char_injective(a: nat, b: nat)
    requires
        a < 10,
        b < 10,
        digit_char(a) == digit_char(b),
    ensures
        a == b,
{
}

/// Numbers of the same length have the same decimal length only if they are
/// on the same side of ten.
pub proof fn lemma_decimal_len(n: nat)
    ensures
        decimal(n).len() >= 1,
        n < 10 <==> decimal(n).len() == 1,
    decreases n,
{
    if n >= 10 {
        lemma_decimal_len(n / 10);
    }
}

/// Distinct numbers have distinct decimal representations.
pub proof fn lemma_decimal_injective(a: nat, b: nat)
    requires
        decimal(a) == decimal(b),
    ensures
        a == b,
    decreases a,
{
    lemma_decimal_len(a);
    lemma_decimal_len(b);
    if a < 10 {
        assert(b < 10);
        assert(decimal(a)[0] == digit_char(a));
        assert(decimal(b)[0] == digit_char(b));
        lemma_digit_char_injective(a, b);
    } else {
        let da = decimal(a);
        let db = decimal(b);
        assert(da.last() == digit_char(a % 10));
        assert(db.last() == digit_char(b % 10));
        lemma_digit_char_injective(a % 10, b % 10);
        assert(da.drop_last() =~= decimal(a / 10));
        assert(db.drop_last() =~= decimal(b / 10));
        lemma_decimal_injective(a / 10, b / 10);
    }
}

/// The decimal representation of `n` as a string.
pub fn decimal_string(n: u128) -> (s: String)
    ensures
        s@ == decimal(n as nat),
{
    let mut digits: Vec<char> = Vec::new();
    let mut m: u128 = n;
    // digits holds the decimal digits of n % 10^k in reverse, m == n / 10^k.
    let ghost mut low: Seq<char> = Seq::empty();
    assert(decimal(n as nat) + low =~= decimal(n as nat));
    loop
        invariant_except_break
            digits@ == low.reverse(),
            decimal(n as nat) == decimal(m as nat) + low,
        ensures
            digits@ == low.reverse(),
            decimal(n as nat) == low,
        decreases m,
    {
        let d: u128 = m % 10;
        let c = if d == 0 {
            '0'
        } else if d == 1 {
            '1'
        } else if d == 2 {
            '2'
        } else if d == 3 {
            '3'
        } else if d == 4 {
            '4'
        } else if d == 5 {
            '5'
        } else if d == 6 {
            '6'
        } else if d == 7 {
            '7'
        } else if d == 8 {
            '8'
        } else {
            '9'
        };
        assert(c == digit_char(d as nat));
        if m < 10 {
            proof {
                assert(decimal(m as nat) =~= seq![c]);
                low = seq![c] + low;
            }
            digits.push(c);
            assert(digits@ =~= low.reverse());
            break;
        }
        proof {
            assert(decimal(m as nat) =~= decimal((m / 10) as nat).push(c));
            assert(decimal(m as nat) + low =~= decimal((m / 10) as nat) + (seq![c] + low));
            low = seq![c] + low;
        }
        digits.push(c);
        assert(digits@ =~= low.reverse());
        m = m / 10;
    }
    let mut s = String::new();
    let mut i: usize = digits.len();
    while i > 0
        invariant
            i <= digits@.len(),
            digits@ == low.reverse(),
            s@ == low.subrange(0, (digits@.len() - i) as int),
        decreases i,
    {
        i = i - 1;
        push_char(&mut s, digits[i]);
        assert(s@ =~= low.subrange(0, (digits@.len() - i) as int));
    }
    assert(low.subrange(0, low.len() as int) =~= low);
    s
}

/// The views of a list of strings.
pub open spec fn views(v: Seq<String>) -> Seq<Seq<char>> {
    v.map_values(|s: String| s@)
}

/// Whether some string of `v` holds the characters of `name`.
pub fn contains_text(v: &Vec<String>, name: &String) -> (b: bool)
    ensures
        b == views(v@).contains(name@),
{
    let mut i: usize = 0;
    while i < v.len()
        invariant
            i <= v@.len(),
            forall|j: int| 0 <= j < i ==> v@[j]@ != name@,
        decreases v@.len() - i,
    {
        if v[i] == *name {
            assert(views(v@)[i as int] == name@);
            return true;
        }
        i = i + 1;
    }
    assert(!views(v@).contains(name@)) by {
        if views(v@).contains(name@) {
            let k = choose|k: int| 0 <= k < views(v@).len() && views(v@)[k] == name@;
            assert(v@[k]@ == name@);
        }
    }
    false
}

} // verus!

verus! {

/// Pushing a string extends the views by its view.
pub proof fn lemma_views_push(v: Seq<String>, s: String)
    ensures
        views(v.push(s)) == views(v).push(s@),
{
    assert(views(v.push(s)) =~= views(v).push(s@));
}

} // verus!

verus! {

/// Whether `c` is white space in the sense of Unicode's `White_Space`
/// property, as `char::is_whitespace` decides it.
pub open spec fn is_whitespace_m(c: char) -> bool {
    ('\u{9}' <= c && c <= '\u{d}') || c == ' ' || c == '\u{85}' || c == '\u{a0}' || c
        == '\u{1680}' || ('\u{2000}' <= c && c <= '\u{200a}') || c == '\u{2028}' || c
        == '\u{2029}' || c == '\u{202f}' || c == '\u{205f}' || c == '\u{3000}'
}

/// Whether `c` is white space.
pub fn is_whitespace(c: char) -> (b: bool)
    ensures
        b == is_whitespace_m(c),
{
    ('\u{9}' <= c && c <= '\u{d}') || c == ' ' || c == '\u{85}' || c == '\u{a0}' || c
        == '\u{1680}' || ('\u{2000}' <= c && c <= '\u{200a}') || c == '\u{2028}' || c
        == '\u{2029}' || c == '\u{202f}' || c == '\u{205f}' || c == '\u{3000}'
}

/// `s` without its leading white space.
pub open spec fn trim_start_m(s: Seq<char>) -> Seq<char>
    decreases s.len(),
{
    if s.len() > 0 && is_whitespace_m(s[0]) {
        trim_start_m(s.drop_first())
    } else {
        s
    }
}

/// `s` without its trailing white space.
pub open spec fn trim_end_m(s: Seq<char>) -> Seq<char>
    decreases s.len(),
{
    if s.len() > 0 && is_whitespace_m(s.last()) {
        trim_end_m(s.drop_last())
    } else {
        s
    }
}

/// `s` without its leading and trailing white space.
pub open spec fn trim_m(s: Seq<char>) -> Seq<char> {
    trim_end_m(trim_start_m(s))
}

/// Where `s[from..to]` starts once its leading white space is skipped.
pub fn skip_whitespace(s: &str, from: usize, to: usize) -> (k: usize)
    requires
        from <= to <= s@.len(),
    ensures
        from <= k <= to,
        trim_start_m(s@.subrange(from as int, to as int)) == s@.subrange(k as int, to as int),
    decreases to - from,
{
    if from < to && is_whitespace(s.get_char(from)) {
        assert(s@.subrange(from as int, to as int).drop_first() =~= s@.subrange(
            from + 1,
            to as int,
        ));
        skip_whitespace(s, from + 1, to)
    } else {
        from
    }
}

/// Where `s[from..to]` ends once its trailing white space is dropped.
pub fn drop_trailing_whitespace(s: &str, from: usize, to: usize) -> (k: usize)
    requires
        from <= to <= s@.len(),
    ensures
        from <= k <= to,
        trim_end_m(s@.subrange(from as int, to as int)) == s@.subrange(from as int, k as int),
    decreases to - from,
{
    if from < to && is_whitespace(s.get_char(to - 1)) {
        assert(s@.subrange(from as int, to as int).drop_last() =~= s@.subrange(
            from as int,
            to - 1,
        ));
        drop_trailing_whitespace(s, from, to - 1)
    } else {
        to
    }
}

/// The characters `s[from..to]` as a string.
pub fn substring(s: &str, from: usize, to: usize) -> (r: String)
    requires
        from <= to <= s@.len(),
    ensures
        r@ == s@.subrange(from as int, to as int),
{
    let mut r = String::new();
    let mut i: usize = from;
    while i < to
        invariant
            from <= i <= to <= s@.len(),
            r@ == s@.subrange(from as int, i as int),
        decreases to - i,
    {
        push_char(&mut r, s.get_char(i));
        assert(r@ =~= s@.subrange(from as int, i + 1));
        i = i + 1;
    }
    r
}


/// Whether `prefix` is a prefix of `s`.
pub fn starts_with(s: &str, prefix: &str) -> (b: bool)
    ensures
        b == prefix@.is_prefix_of(s@),
{
    let n = prefix.unicode_len();
    if n > s.unicode_len() {
        return false;
    }
    let mut i: usize = 0;
    while i < n
        invariant
            i <= n <= s@.len(),
            n == prefix@.len(),
            forall|j: int| 0 <= j < i ==> prefix@[j] == s@[j],
        decreases n - i,
    {
        if prefix.get_char(i) != s.get_char(i) {
            return false;
        }
        i = i + 1;
    }
    assert(prefix@ =~= s@.subrange(0, n as int));
    true
}

/// Whether `a` comes before `b` in the lexicographic order of their
/// characters, comparing from position `i` on.
pub open spec fn lex_less_from(a: Seq<char>, b: Seq<char>, i: nat) -> bool
    decreases a.len() - i,
{
    if i >= a.len() {
        i < b.len()
    } else if i >= b.len() {
        false
    } else if a[i as int] != b[i as int] {
        (a[i as int] as u32) < (b[i as int] as u32)
    } else {
        lex_less_from(a, b, i + 1)
    }
}

/// Whether `a` comes before `b` in the lexicographic order of their
/// characters (which is the order of their UTF-8 bytes).
pub open spec fn lex_less(a: Seq<char>, b: Seq<char>) -> bool {
    lex_less_from(a, b, 0)
}

/// Whether `a` comes before `b` in the lexicographic order of their
/// characters.
pub fn lex_less_text(a: &str, b: &str) -> (r: bool)
    ensures
        r == lex_less(a@, b@),
{
    let la = a.unicode_len();
    let lb = b.unicode_len();
    let mut i: usize = 0;
    while i < la && i < lb
        invariant
            i <= la,
            i <= lb,
            la == a@.len(),
            lb == b@.len(),
            lex_less(a@, b@) == lex_less_from(a@, b@, i as nat),
        decreases la - i,
    {
        let ca = a.get_char(i);
        let cb = b.get_char(i);
        if ca != cb {
            return (ca as u32) < (cb as u32);
        }
        i = i + 1;
    }
    i < lb
}


/// The length of `s` in UTF-8 bytes.
pub fn utf8_len(s: &str) -> (n: u128)
    ensures
        n == encode_utf8(s@).len(),
{
    let len = s.unicode_len();
    let mut i: usize = len;
    let mut n: u128 = 0;
    assert(s@.skip(i as int) =~= Seq::<char>::empty());
    while i > 0
        invariant
            len == s@.len(),
            i <= s@.len(),
            n == encode_utf8(s@.skip(i as int)).len(),
            n <= 4 * (s@.len() - i),
        decreases i,
    {
        i = i - 1;
        let c = s.get_char(i);
        let v = c as u32;
        let w: u128 = if v <= 0x7f {
            1
        } else if v <= 0x7ff {
            2
        } else if v <= 0xffff {
            3
        } else {
            4
        };
        assert(s@.skip(i as int).drop_first() =~= s@.skip(i + 1));
        assert(s@.skip(i as int)[0] == c);
        assert(encode_scalar(c as u32).len() == w);
        n = n + w;
    }
    assert(s@.skip(0) =~= s@);
    n
}

} // verus!
