//! The decisions of the `cargo opt` driver: reading its arguments, refusing
//! sources that enable unstable features, and naming modules after files.
use vstd::prelude::*;
use vstd::string::*;

use crate::pipeline::PipelineOptions;
use crate::text::{decimal, decimal_string, is_text, push_char, string_of};

verus! {

// ----- arguments -----

/// What the driver was asked to do.
pub struct Config {
    /// The package to optimize; the working directory when not given.
    pub target: Option<String>,
    /// Where the optimized package goes; `opt` under the package when not
    /// given.
    pub output_root: Option<String>,
    /// Whether generated `_copy` functions that nothing calls are kept.
    pub keep_unused_copy: bool,
    /// Which passes run.
    pub pipeline: PipelineOptions,
}

/// The model of a configuration.
pub struct ConfigM {
    pub target: Option<Seq<char>>,
    pub output_root: Option<Seq<char>>,
    pub keep_unused_copy: bool,
    pub pipeline: PipelineOptions,
}

/// The model of an optional string.
pub open spec fn opt_view(o: Option<String>) -> Option<Seq<char>> {
    match o {
        Some(s) => Some(s@),
        None => None,
    }
}

/// The model of a configuration.
pub open spec fn config_view(c: Config) -> ConfigM {
    ConfigM {
        target: opt_view(c.target),
        output_root: opt_view(c.output_root),
        keep_unused_copy: c.keep_unused_copy,
        pipeline: c.pipeline,
    }
}

/// The configuration before any argument is read.
pub open spec fn initial_config_m() -> ConfigM {
    ConfigM {
        target: None,
        output_root: None,
        keep_unused_copy: false,
        pipeline: crate::pipeline::full_pipeline(),
    }
}

/// The usage text of the driver.
pub const HELP_TEXT: &'static str = "usage: cargo opt [package-path] [--out-dir path] [--keep-unused-copy] [--disable-copy] [--disable-borrow] [--disable-mut] [--disable-last-use] [--disable-closure] [diagnostic options]\nwrites optimized Rust files to <package-path>/opt/src by default\nand generates <package-path>/opt/Cargo.toml for cargo run-opt\n--keep-unused-copy keeps generated _copy functions even when no call site uses them\n--disable-copy skips Copyability recovery\n--disable-borrow skips Borrow analysis and rewriting\n--disable-mut skips M-Shadow/M-Mut recovery\n--disable-last-use skips last-use clone elimination\n--disable-closure skips closure cleanup\n--disable-binding-cleanup skips trailing-binding cleanup only (diagnostic option)\n--disable-closure-cleanup is an alias for --disable-closure\n--disable-match-cleanup skips both match-cleanup phases (diagnostic option)";

/// The text that follows an unexpected argument in the error about it.
pub const USAGE_HINT: &'static str = "; use: cargo opt [package-path] [--out-dir path] [--keep-unused-copy] [--disable-copy] [--disable-borrow] [--disable-mut] [--disable-last-use] [--disable-closure] [diagnostic options]";

/// The usage text of the driver.
pub fn help_text() -> (s: String)
    ensures
        s@ == HELP_TEXT@,
{
    string_of(HELP_TEXT)
}

/// The arguments without the subcommand name `opt` that cargo passes in
/// front of them when it runs the driver as `cargo opt`; an `opt` anywhere
/// else (the path of `--out-dir`, say) is an argument like any other.
pub open spec fn without_opt_m(args: Seq<Seq<char>>) -> Seq<Seq<char>> {
    if args.len() > 0 && args[0] == "opt"@ {
        args.drop_first()
    } else {
        args
    }
}

/// Whether `s` starts with `p`.
pub open spec fn starts_with_m(s: Seq<char>, p: Seq<char>) -> bool {
    s.len() >= p.len() && s.subrange(0, p.len() as int) == p
}

/// The error about an unexpected argument.
pub open spec fn unexpected_argument_m(a: Seq<char>) -> Seq<char> {
    "unexpected argument "@ + a + USAGE_HINT@
}

/// The configuration `c` after the arguments `args`, or the error they
/// cause.
pub open spec fn parse_from_m(args: Seq<Seq<char>>, c: ConfigM) -> Result<ConfigM, Seq<char>>
    decreases args.len(),
{
    if args.len() == 0 {
        Ok(c)
    } else {
        let a = args[0];
        let rest = args.drop_first();
        let p = c.pipeline;
        if a == "--out-dir"@ {
            if rest.len() == 0 {
                Err("--out-dir requires a path"@)
            } else {
                parse_from_m(rest.drop_first(), ConfigM { output_root: Some(rest[0]), ..c })
            }
        } else if starts_with_m(a, "--out-dir="@) {
            parse_from_m(rest, ConfigM { output_root: Some(a.subrange(10, a.len() as int)), ..c })
        } else if a == "--keep-unused-copy"@ {
            parse_from_m(rest, ConfigM { keep_unused_copy: true, ..c })
        } else if a == "--disable-copy"@ {
            parse_from_m(rest, ConfigM { pipeline: PipelineOptions { disable_copy: true, ..p }, ..c })
        } else if a == "--disable-borrow"@ {
            parse_from_m(rest, ConfigM { pipeline: PipelineOptions { disable_borrow: true, ..p }, ..c })
        } else if a == "--disable-mut"@ {
            parse_from_m(rest, ConfigM { pipeline: PipelineOptions { disable_mut: true, ..p }, ..c })
        } else if a == "--disable-last-use"@ {
            parse_from_m(
                rest,
                ConfigM { pipeline: PipelineOptions { disable_last_use: true, ..p }, ..c },
            )
        } else if a == "--disable-closure"@ || a == "--disable-closure-cleanup"@ {
            parse_from_m(
                rest,
                ConfigM { pipeline: PipelineOptions { disable_closure: true, ..p }, ..c },
            )
        } else if a == "--disable-binding-cleanup"@ {
            parse_from_m(
                rest,
                ConfigM { pipeline: PipelineOptions { disable_binding_cleanup: true, ..p }, ..c },
            )
        } else if a == "--disable-match-cleanup"@ {
            parse_from_m(
                rest,
                ConfigM { pipeline: PipelineOptions { disable_match_cleanup: true, ..p }, ..c },
            )
        } else if a == "-h"@ || a == "--help"@ {
            Err(HELP_TEXT@)
        } else if c.target is None {
            parse_from_m(rest, ConfigM { target: Some(a), ..c })
        } else {
            Err(unexpected_argument_m(a))
        }
    }
}

/// The configuration the arguments `args` (without the program name) ask
/// for, or the error they cause; help is an error that holds the usage.
pub open spec fn parse_args_m(args: Seq<Seq<char>>) -> Result<ConfigM, Seq<char>> {
    parse_from_m(without_opt_m(args), initial_config_m())
}

/// The model of a configuration or an error.
pub open spec fn parsed_view(r: Result<Config, String>) -> Result<ConfigM, Seq<char>> {
    match r {
        Ok(c) => Ok(config_view(c)),
        Err(e) => Err(e@),
    }
}

/// The arguments without the subcommand name `opt` in front of them.
fn without_opt(args: &Vec<String>) -> (r: Vec<String>)
    ensures
        crate::text::views(r@) == without_opt_m(crate::text::views(args@)),
{
    let ghost v = crate::text::views(args@);
    let start: usize = if args.len() > 0 && is_text(&args[0], "opt") {
        1
    } else {
        0
    };
    let mut r: Vec<String> = Vec::new();
    let mut i: usize = start;
    assert(crate::text::views(r@) =~= v.subrange(start as int, i as int));
    while i < args.len()
        invariant
            start <= i <= args@.len(),
            v == crate::text::views(args@),
            crate::text::views(r@) == v.subrange(start as int, i as int),
        decreases args@.len() - i,
    {
        proof {
            crate::text::lemma_views_push(r@, args@[i as int]);
        }
        r.push(args[i].clone());
        assert(v.subrange(start as int, i + 1) =~= v.subrange(start as int, i as int).push(
            args@[i as int]@,
        ));
        i = i + 1;
    }
    if start == 1 {
        assert(v.subrange(1, v.len() as int) =~= v.drop_first());
    } else {
        assert(v.subrange(0, v.len() as int) =~= v);
    }
    r
}

/// Whether `s` starts with `p`.
fn starts_with(s: &String, p: &str) -> (b: bool)
    ensures
        b == starts_with_m(s@, p@),
{
    let t = s.as_str();
    let n = t.unicode_len();
    let k = p.unicode_len();
    if n < k {
        return false;
    }
    crate::bound_cleanup::segment_is(t, 0, k, p)
}

/// Reads the driver's arguments, the program name left out: the package
/// path, `--out-dir` with its path, and the switches of the pipeline. Help
/// and malformed arguments give the text to report.
pub fn parse_args(args: &Vec<String>) -> (r: Result<Config, String>)
    ensures
        parsed_view(r) == parse_args_m(crate::text::views(args@)),
{
    let filtered = without_opt(args);
    let ghost fs = crate::text::views(filtered@);
    let mut config = Config {
        target: None,
        output_root: None,
        keep_unused_copy: false,
        pipeline: PipelineOptions::default(),
    };
    let mut i: usize = 0;
    assert(fs.subrange(0, fs.len() as int) =~= fs);
    proof {
        reveal_strlit("--out-dir=");
    }
    while i < filtered.len()
        invariant
            i <= filtered@.len(),
            fs == crate::text::views(filtered@),
            parse_args_m(crate::text::views(args@)) == parse_from_m(
                fs.subrange(i as int, fs.len() as int),
                config_view(config),
            ),
            "--out-dir="@.len() == 10,
        decreases filtered@.len() - i,
    {
        let ghost rest = fs.subrange(i as int, fs.len() as int);
        assert(rest[0] == filtered@[i as int]@);
        assert(rest.drop_first() =~= fs.subrange(i + 1, fs.len() as int));
        let a = &filtered[i];
        if is_text(a, "--out-dir") {
            if i + 1 >= filtered.len() {
                return Err(string_of("--out-dir requires a path"));
            }
            assert(rest.drop_first()[0] == filtered@[i + 1]@);
            assert(rest.drop_first().drop_first() =~= fs.subrange(i + 2, fs.len() as int));
            config.output_root = Some(filtered[i + 1].clone());
            i = i + 2;
        } else {
            if starts_with(a, "--out-dir=") {
                let t = a.as_str();
                let n = t.unicode_len();
                config.output_root = Some(crate::text::substring(t, 10, n));
            } else if is_text(a, "--keep-unused-copy") {
                config.keep_unused_copy = true;
            } else if is_text(a, "--disable-copy") {
                config.pipeline.disable_copy = true;
            } else if is_text(a, "--disable-borrow") {
                config.pipeline.disable_borrow = true;
            } else if is_text(a, "--disable-mut") {
                config.pipeline.disable_mut = true;
            } else if is_text(a, "--disable-last-use") {
                config.pipeline.disable_last_use = true;
            } else if is_text(a, "--disable-closure") || is_text(a, "--disable-closure-cleanup") {
                config.pipeline.disable_closure = true;
            } else if is_text(a, "--disable-binding-cleanup") {
                config.pipeline.disable_binding_cleanup = true;
            } else if is_text(a, "--disable-match-cleanup") {
                config.pipeline.disable_match_cleanup = true;
            } else if is_text(a, "-h") || is_text(a, "--help") {
                return Err(help_text());
            } else if config.target.is_none() {
                config.target = Some(a.clone());
            } else {
                let mut message = string_of("unexpected argument ");
                message.append(a.as_str());
                message.append(USAGE_HINT);
                return Err(message);
            }
            i = i + 1;
        }
    }
    Ok(config)
}

// ----- unstable sources -----

/// The lines of `s`: the pieces between its newline characters.
pub open spec fn lines_m(s: Seq<char>) -> Seq<Seq<char>>
    decreases s.len(),
{
    if s.len() == 0 {
        seq![Seq::empty()]
    } else {
        let ls = lines_m(s.drop_last());
        if s.last() == '\n' {
            ls.push(Seq::empty())
        } else {
            ls.update(ls.len() - 1, ls.last().push(s.last()))
        }
    }
}

/// `l` without its white space.
pub open spec fn compact_m(l: Seq<char>) -> Seq<char>
    decreases l.len(),
{
    if l.len() == 0 {
        l
    } else if crate::text::is_whitespace_m(l.last()) {
        compact_m(l.drop_last())
    } else {
        compact_m(l.drop_last()).push(l.last())
    }
}

/// Whether a line enables an unstable feature: without its white space, it
/// starts with `#![feature(`.
pub open spec fn is_feature_gate_m(l: Seq<char>) -> bool {
    starts_with_m(compact_m(l), "#![feature("@)
}

/// The first line from the `j`-th on that enables an unstable feature.
pub open spec fn first_gate_m(ls: Seq<Seq<char>>, j: nat) -> Option<nat>
    decreases ls.len() - j,
{
    if j >= ls.len() {
        None
    } else if is_feature_gate_m(ls[j as int]) {
        Some(j)
    } else {
        first_gate_m(ls, j + 1)
    }
}

/// The error about a source whose `line`-th line, counted from one, enables
/// an unstable feature.
pub open spec fn unstable_source_error_m(path: Seq<char>, line: nat) -> Seq<char> {
    path + ":"@ + decimal(line) + " enables an unstable Rust feature; Stage 2 accepts stable Rust sources only"@
}

/// The check of a source: the error about its first line that enables an
/// unstable feature, if one does.
pub open spec fn ensure_stable_source_m(path: Seq<char>, source: Seq<char>) -> Result<(), Seq<char>> {
    match first_gate_m(lines_m(source), 0) {
        Some(j) => Err(unstable_source_error_m(path, j + 1)),
        None => Ok(()),
    }
}

/// Lines already ended stay as they are when the text grows.
proof fn lemma_lines_grow(s: Seq<char>, i: int, k: int)
    requires
        0 <= i <= k <= s.len(),
    ensures
        lines_m(s.subrange(0, i)).len() <= lines_m(s.subrange(0, k)).len(),
        forall|j: int|
            0 <= j < lines_m(s.subrange(0, i)).len() - 1 ==> #[trigger] lines_m(s.subrange(0, k))[j]
                == lines_m(s.subrange(0, i))[j],
    decreases k - i,
{
    if i < k {
        lemma_lines_grow(s, i, k - 1);
        assert(s.subrange(0, k).drop_last() =~= s.subrange(0, k - 1));
    }
}

/// The first line that enables an unstable feature is the first such line
/// of a prefix of the lines.
proof fn lemma_first_gate(ls: Seq<Seq<char>>, j: nat, k: nat)
    requires
        j <= k < ls.len(),
        forall|m: int| j <= m < k ==> !is_feature_gate_m(#[trigger] ls[m]),
        is_feature_gate_m(ls[k as int]),
    ensures
        first_gate_m(ls, j) == Some(k),
    decreases k - j,
{
    if j < k {
        lemma_first_gate(ls, j + 1, k);
    }
}

proof fn lemma_no_gate(ls: Seq<Seq<char>>, j: nat)
    requires
        j <= ls.len(),
        forall|m: int| j <= m < ls.len() ==> !is_feature_gate_m(#[trigger] ls[m]),
    ensures
        first_gate_m(ls, j) is None,
    decreases ls.len() - j,
{
    if j < ls.len() {
        lemma_no_gate(ls, j + 1);
    }
}

/// Whether the characters of `l` start with `#![feature(`.
fn starts_with_gate(l: &Vec<char>) -> (b: bool)
    ensures
        b == starts_with_m(l@, "#![feature("@),
{
    let gate = "#![feature(";
    proof {
        reveal_strlit("#![feature(");
    }
    let n = gate.unicode_len();
    if l.len() < n {
        return false;
    }
    let mut k: usize = 0;
    while k < n
        invariant
            gate@ == "#![feature("@,
            n == gate@.len(),
            n <= l@.len(),
            k <= n,
            forall|m: int| 0 <= m < k ==> l@[m] == gate@[m],
        decreases n - k,
    {
        if l[k] != gate.get_char(k) {
            assert(l@.subrange(0, n as int)[k as int] != gate@[k as int]);
            return false;
        }
        k = k + 1;
    }
    assert(l@.subrange(0, n as int) =~= gate@);
    true
}

/// Refuses a source that enables an unstable feature: the error names the
/// source and its first such line.
pub fn ensure_stable_source(path: &str, source: &str) -> (r: Result<(), String>)
    ensures
        match r {
            Ok(()) => ensure_stable_source_m(path@, source@) == Ok::<(), Seq<char>>(()),
            Err(e) => ensure_stable_source_m(path@, source@) == Err::<(), Seq<char>>(e@),
        },
{
    let n = source.unicode_len();
    let mut compact: Vec<char> = Vec::new();
    let mut line: u128 = 0;
    let mut i: usize = 0;
    assert(source@.subrange(0, 0) =~= Seq::<char>::empty());
    while i < n
        invariant
            n == source@.len(),
            i <= n,
            line <= i,
            line + 1 == lines_m(source@.subrange(0, i as int)).len(),
            compact@ == compact_m(lines_m(source@.subrange(0, i as int)).last()),
            forall|m: int|
                0 <= m < line ==> !is_feature_gate_m(
                    #[trigger] lines_m(source@.subrange(0, i as int))[m],
                ),
        decreases n - i,
    {
        let ghost pre = source@.subrange(0, i as int);
        let c = source.get_char(i);
        proof {
            assert(source@.subrange(0, i + 1).drop_last() =~= pre);
        }
        if c == '\n' {
            if starts_with_gate(&compact) {
                proof {
                    lemma_lines_grow(source@, i as int, n as int);
                    lemma_lines_grow(source@, i + 1, n as int);
                    assert(source@.subrange(0, n as int) =~= source@);
                    assert(lines_m(source@.subrange(0, i + 1))[line as int] == lines_m(pre).last());
                    lemma_first_gate(lines_m(source@), 0, line as nat);
                }
                let mut message = string_of(path);
                message.append(":");
                let number = decimal_string(line + 1);
                message.append(number.as_str());
                message.append(
                    " enables an unstable Rust feature; Stage 2 accepts stable Rust sources only",
                );
                return Err(message);
            }
            compact = Vec::new();
            assert(compact@ =~= compact_m(Seq::<char>::empty()));
            line = line + 1;
        } else {
            proof {
                assert(lines_m(pre).last().push(c).drop_last() =~= lines_m(pre).last());
            }
            if !crate::text::is_whitespace(c) {
                compact.push(c);
            }
        }
        i = i + 1;
    }
    assert(source@.subrange(0, n as int) =~= source@);
    if starts_with_gate(&compact) {
        proof {
            lemma_first_gate(lines_m(source@), 0, line as nat);
        }
        let mut message = string_of(path);
        message.append(":");
        let number = decimal_string(line + 1);
        message.append(number.as_str());
        message.append(" enables an unstable Rust feature; Stage 2 accepts stable Rust sources only");
        return Err(message);
    }
    proof {
        lemma_no_gate(lines_m(source@), 0);
    }
    Ok(())
}

// ----- module names -----

/// Whether `c` may stand in a module name.
pub open spec fn is_name_char_m(c: char) -> bool {
    c == '_' || crate::binding_cleanup::is_ascii_letter_or_digit(c)
}

/// A module name made from a file stem: each character that may not stand
/// in a name replaced by `_`, a `_` put in front of a leading digit, and
/// `module` for an empty stem.
pub open spec fn sanitize_module_name_m(stem: Seq<char>) -> Seq<char> {
    if stem.len() == 0 {
        "module"@
    } else {
        let body = stem.map_values(|c: char| if is_name_char_m(c) { c } else { '_' });
        if '0' <= stem[0] && stem[0] <= '9' {
            seq!['_'] + body
        } else {
            body
        }
    }
}

/// A module name made from a file stem.
pub fn sanitize_module_name(stem: &str) -> (r: String)
    ensures
        r@ == sanitize_module_name_m(stem@),
{
    let n = stem.unicode_len();
    if n == 0 {
        return string_of("module");
    }
    let mut out = String::new();
    let first = stem.get_char(0);
    let lead = if '0' <= first && first <= '9' {
        push_char(&mut out, '_');
        1usize
    } else {
        0usize
    };
    let ghost body = stem@.map_values(|c: char| if is_name_char_m(c) { c } else { '_' });
    let mut i: usize = 0;
    assert(out@.subrange(lead as int, out@.len() as int) =~= body.subrange(0, 0));
    while i < n
        invariant
            n == stem@.len(),
            i <= n,
            lead <= 1,
            out@.len() == lead + i,
            lead == 1 ==> out@[0] == '_',
            body == stem@.map_values(|c: char| if is_name_char_m(c) { c } else { '_' }),
            out@.subrange(lead as int, out@.len() as int) == body.subrange(0, i as int),
        decreases n - i,
    {
        let c = stem.get_char(i);
        let valid = c == '_' || ('a' <= c && c <= 'z') || ('A' <= c && c <= 'Z') || ('0' <= c
            && c <= '9');
        let ghost before = out@;
        push_char(&mut out, if valid { c } else { '_' });
        assert(out@.subrange(lead as int, out@.len() as int) =~= before.subrange(
            lead as int,
            before.len() as int,
        ).push(body[i as int]));
        i = i + 1;
    }
    if lead == 1 {
        assert(out@ =~= seq!['_'] + out@.subrange(1, out@.len() as int));
    } else {
        assert(out@ =~= out@.subrange(0, out@.len() as int));
    }
    out
}

/// The position of the last `.` in `s`, if it has one.
pub open spec fn last_dot_m(s: Seq<char>) -> Option<nat>
    decreases s.len(),
{
    if s.len() == 0 {
        None
    } else if s.last() == '.' {
        Some((s.len() - 1) as nat)
    } else {
        last_dot_m(s.drop_last())
    }
}

/// The stem of a file name: the name without its extension, where it has
/// one. A name whose only dot leads it, and `..`, have no extension.
pub open spec fn file_stem_m(name: Seq<char>) -> Seq<char> {
    if name == ".."@ {
        name
    } else {
        match last_dot_m(name) {
            Some(k) => if k > 0 {
                name.subrange(0, k as int)
            } else {
                name
            },
            None => name,
        }
    }
}

/// The extension of a file name, where it has one.
pub open spec fn extension_m(name: Seq<char>) -> Option<Seq<char>> {
    if name == ".."@ {
        None
    } else {
        match last_dot_m(name) {
            Some(k) => if k > 0 {
                Some(name.subrange((k + 1) as int, name.len() as int))
            } else {
                None
            },
            None => None,
        }
    }
}

/// Where the last `.` of `s[..n]` stands, if it has one.
fn last_dot(s: &str, n: usize) -> (r: Option<usize>)
    requires
        n <= s@.len(),
    ensures
        match last_dot_m(s@.subrange(0, n as int)) {
            Some(k) => r matches Some(j) && j == k,
            None => r is None,
        },
        r matches Some(k) ==> k < n,
    decreases n,
{
    if n == 0 {
        return None;
    }
    assert(s@.subrange(0, n as int).drop_last() =~= s@.subrange(0, n - 1));
    if s.get_char(n - 1) == '.' {
        Some(n - 1)
    } else {
        last_dot(s, n - 1)
    }
}

/// The stem of a file name.
pub fn file_stem(name: &str) -> (r: String)
    ensures
        r@ == file_stem_m(name@),
{
    let n = name.unicode_len();
    assert(name@.subrange(0, n as int) =~= name@);
    let owned = string_of(name);
    if crate::text::is_text(&owned, "..") {
        return owned;
    }
    let dot = last_dot(name, n);
    match dot {
        Some(k) => if k > 0 {
            crate::text::substring(name, 0, k)
        } else {
            owned
        },
        None => owned,
    }
}

/// The name of the module a source file holds: the file's stem made a Rust
/// identifier, or `module` where the name `..` has no stem.
pub fn module_name_from_path(file_name: &str) -> (r: String)
    ensures
        r@ == if file_name@ == ".."@ {
            "module"@
        } else {
            sanitize_module_name_m(file_stem_m(file_name@))
        },
{
    let owned = string_of(file_name);
    if is_text(&owned, "..") {
        return string_of("module");
    }
    let stem = file_stem(file_name);
    sanitize_module_name(stem.as_str())
}

/// Whether the file name `name` has the extension `ext`.
pub fn has_extension(name: &str, ext: &str) -> (b: bool)
    ensures
        b == (extension_m(name@) == Some(ext@)),
{
    let n = name.unicode_len();
    assert(name@.subrange(0, n as int) =~= name@);
    let owned = string_of(name);
    if crate::text::is_text(&owned, "..") {
        return false;
    }
    let dot = last_dot(name, n);
    match dot {
        Some(k) => if k > 0 {
            let e = crate::text::substring(name, k + 1, n);
            crate::text::is_text(&e, ext)
        } else {
            false
        },
        None => false,
    }
}

/// Whether `s` ends with `p`.
pub open spec fn ends_with_m(s: Seq<char>, p: Seq<char>) -> bool {
    s.len() >= p.len() && s.subrange(s.len() - p.len(), s.len() as int) == p
}

/// Whether a file is one the driver wrote earlier: a Rust file whose stem
/// ends with `-opt`.
pub open spec fn is_generated_rust_file_m(name: Seq<char>) -> bool {
    extension_m(name) == Some("rs"@) && ends_with_m(file_stem_m(name), "-opt"@)
}

/// Whether a file is one the driver wrote earlier, judged by its name.
pub fn is_generated_rust_file(name: &str) -> (b: bool)
    ensures
        b == is_generated_rust_file_m(name@),
{
    if !has_extension(name, "rs") {
        return false;
    }
    let stem = file_stem(name);
    let t = stem.as_str();
    let n = t.unicode_len();
    proof {
        reveal_strlit("-opt");
    }
    n >= 4 && crate::bound_cleanup::segment_is(t, n - 4, n, "-opt")
}

/// Whether a file is a Rust source to optimize, judged by its name: a Rust
/// file the driver did not write.
pub fn is_input_rust_file(name: &str) -> (b: bool)
    ensures
        b == (extension_m(name@) == Some("rs"@) && !is_generated_rust_file_m(name@)),
{
    has_extension(name, "rs") && !is_generated_rust_file(name)
}

/// The module path of a source file from the components of its path under
/// `src`: `crate`, then each directory, then the file's stem unless the file
/// is `lib`, `main` or `mod`, all made into module names.
pub open spec fn module_path_m(components: Seq<Seq<char>>) -> Seq<Seq<char>> {
    if components.len() == 0 {
        seq!["crate"@]
    } else {
        let dirs = components.drop_last().map_values(|c: Seq<char>| sanitize_module_name_m(c));
        let stem = file_stem_m(components.last());
        let front = seq!["crate"@] + dirs;
        if stem == "lib"@ || stem == "main"@ || stem == "mod"@ {
            front
        } else {
            front.push(sanitize_module_name_m(stem))
        }
    }
}

/// The module path of a source file from the components of its path under
/// `src`.
pub fn module_path_from_components(components: &Vec<String>) -> (r: Vec<String>)
    ensures
        crate::text::views(r@) == module_path_m(crate::text::views(components@)),
{
    let ghost cs = crate::text::views(components@);
    let mut r: Vec<String> = Vec::new();
    r.push(string_of("crate"));
    let n = components.len();
    if n == 0 {
        assert(crate::text::views(r@) =~= seq!["crate"@]);
        return r;
    }
    let ghost dirs = cs.drop_last().map_values(|c: Seq<char>| sanitize_module_name_m(c));
    let mut i: usize = 0;
    assert(crate::text::views(r@) =~= seq!["crate"@] + dirs.subrange(0, 0));
    while i + 1 < n
        invariant
            n == components@.len(),
            n > 0,
            i + 1 <= n,
            cs == crate::text::views(components@),
            dirs == cs.drop_last().map_values(|c: Seq<char>| sanitize_module_name_m(c)),
            crate::text::views(r@) == seq!["crate"@] + dirs.subrange(0, i as int),
        decreases n - i,
    {
        let name = sanitize_module_name(components[i].as_str());
        proof {
            crate::text::lemma_views_push(r@, name);
        }
        r.push(name);
        assert(seq!["crate"@] + dirs.subrange(0, i + 1) =~= (seq!["crate"@] + dirs.subrange(0, i as int)).push(dirs[i as int]));
        i = i + 1;
    }
    assert(dirs.subrange(0, dirs.len() as int) =~= dirs);
    let stem = file_stem(components[n - 1].as_str());
    if crate::text::is_text(&stem, "lib") || crate::text::is_text(&stem, "main")
        || crate::text::is_text(&stem, "mod") {
        return r;
    }
    let name = sanitize_module_name(stem.as_str());
    proof {
        crate::text::lemma_views_push(r@, name);
    }
    r.push(name);
    r
}

// ----- paths -----

/// Whether a path is absolute: on Unix, whether it starts with the root.
pub open spec fn is_absolute_m(p: Seq<char>) -> bool {
    p.len() > 0 && p[0] == '/'
}

/// The path `base` joined with `p`: `p` where it is absolute, else `p`
/// under `base`, with a separator between them where `base` has none at its
/// end.
pub open spec fn join_m(base: Seq<char>, p: Seq<char>) -> Seq<char> {
    if is_absolute_m(p) {
        p
    } else if base.len() == 0 || base.last() == '/' {
        base + p
    } else {
        base + "/"@ + p
    }
}

/// The path `path` made absolute against the working directory `cwd`.
pub fn absolute_path_from(path: &str, cwd: &str) -> (r: String)
    ensures
        r@ == join_m(cwd@, path@),
{
    let pn = path.unicode_len();
    if pn > 0 && path.get_char(0) == '/' {
        return string_of(path);
    }
    let cn = cwd.unicode_len();
    let mut r = string_of(cwd);
    if cn > 0 && cwd.get_char(cn - 1) != '/' {
        r.append("/");
    }
    r.append(path);
    r
}

/// What `Path::strip_prefix` gives for `path` and `base`, read with the path
/// rules of the Unix targets this library is built for.
pub uninterp spec fn strip_prefix_result(path: Seq<char>, base: Seq<char>) -> Option<Seq<char>>;

/// Strips the prefix `base` off `path` with `std::path::Path::strip_prefix`,
/// which compares whole path components. Trusted to give a result that
/// depends on the two paths alone; which components match is not stated.
#[verifier::external_body]
fn path_strip_prefix(path: &str, base: &str) -> (r: Option<String>)
    ensures
        opt_view(r) == strip_prefix_result(path@, base@),
{
    match std::path::Path::new(path).strip_prefix(base) {
        Ok(rest) => Some(rest.to_string_lossy().into_owned()),
        Err(_) => None,
    }
}

/// The path `path` relative to a base, given what stripping the base off
/// `path` left (`None` where the base is not a prefix of `path`): that
/// rest, or `path` itself.
pub fn relative_from_stripped(path: &str, stripped: Option<String>) -> (r: String)
    ensures
        r@ == match opt_view(stripped) {
            Some(rest) => rest,
            None => path@,
        },
{
    match stripped {
        Some(rest) => rest,
        None => string_of(path),
    }
}

/// The path `path` relative to `base`, or `path` itself where `base` is not
/// a prefix of it.
pub fn relative_to(path: &str, base: &str) -> (r: String)
    ensures
        r@ == match strip_prefix_result(path@, base@) {
            Some(rest) => rest,
            None => path@,
        },
{
    relative_from_stripped(path, path_strip_prefix(path, base))
}


/// Whether `a` and `b` name the same path under `std::path::Path`'s `==`,
/// which compares the paths component by component.
pub uninterp spec fn same_path_result(a: Seq<char>, b: Seq<char>) -> bool;

/// Compares two paths with `==` on `std::path::Path`. Trusted to give a
/// result that depends on the two paths alone, and to find a path equal to
/// itself; which other spellings count as equal is not stated.
#[verifier::external_body]
fn same_path(a: &str, b: &str) -> (r: bool)
    ensures
        r == same_path_result(a@, b@),
        a@ == b@ ==> r,
{
    std::path::Path::new(a) == std::path::Path::new(b)
}

/// The directory an optimized copy is written to: the one asked for, made
/// absolute against `cwd`, or `opt` under the package root.
pub open spec fn output_root_m(out_dir: Option<Seq<char>>, cwd: Seq<char>, package_root: Seq<char>) -> Seq<char> {
    match out_dir {
        Some(p) => join_m(cwd, p),
        None => join_m(package_root, "opt"@),
    }
}

/// The error given where the output directory is the package itself.
pub open spec fn same_output_error_m() -> Seq<char> {
    "output directory must be different from the source package"@
}

/// Chooses the output directory for the package at `package_root`, from the
/// `--out-dir` argument if there was one and the working directory `cwd`.
/// Refuses a directory that is the package root itself.
pub fn output_root_for(out_dir: Option<String>, cwd: &str, package_root: &str) -> (r: Result<String, String>)
    ensures
        ({
            let root = output_root_m(opt_view(out_dir), cwd@, package_root@);
            match r {
                Ok(s) => s@ == root && !same_path_result(root, package_root@),
                Err(e) => e@ == same_output_error_m() && same_path_result(root, package_root@),
            }
        }),
{
    let root = match out_dir {
        Some(p) => absolute_path_from(p.as_str(), cwd),
        None => absolute_path_from("opt", package_root),
    };
    proof {
        reveal_strlit("opt");
        assert(!is_absolute_m("opt"@));
    }
    if same_path(root.as_str(), package_root) {
        Err(string_of("output directory must be different from the source package"))
    } else {
        Ok(root)
    }
}


// ----- laws of the arguments -----

/// Appending an argument `flag` that, read last, sets what `set` sets:
/// arguments the driver accepts are accepted with it too, and give what
/// `set` makes of their configuration.
proof fn lemma_append_switch(
    args: Seq<Seq<char>>,
    c: ConfigM,
    flag: Seq<char>,
    set: spec_fn(ConfigM) -> ConfigM,
)
    requires
        forall|d: ConfigM| #[trigger] parse_from_m(seq![flag], d) == Ok::<ConfigM, Seq<char>>(set(d)),
    ensures
        parse_from_m(args, c) matches Ok(r) ==> parse_from_m(args.push(flag), c) == Ok::<
            ConfigM,
            Seq<char>,
        >(set(r)),
    decreases args.len(),
{
    let pushed = args.push(flag);
    if args.len() == 0 {
        assert(pushed =~= seq![flag]);
        assert(parse_from_m(seq![flag], c) == Ok::<ConfigM, Seq<char>>(set(c)));
    } else {
        let rest = args.drop_first();
        assert(pushed[0] == args[0]);
        assert(pushed.drop_first() =~= rest.push(flag));
        let a = args[0];
        let p = c.pipeline;
        if a == "--out-dir"@ {
            if rest.len() > 0 {
                assert(rest.push(flag)[0] == rest[0]);
                assert(rest.push(flag).drop_first() =~= rest.drop_first().push(flag));
                lemma_append_switch(
                    rest.drop_first(),
                    ConfigM { output_root: Some(rest[0]), ..c },
                    flag,
                    set,
                );
            }
        } else if starts_with_m(a, "--out-dir="@) {
            lemma_append_switch(
                rest,
                ConfigM { output_root: Some(a.subrange(10, a.len() as int)), ..c },
                flag,
                set,
            );
        } else if a == "--keep-unused-copy"@ {
            lemma_append_switch(rest, ConfigM { keep_unused_copy: true, ..c }, flag, set);
        } else if a == "--disable-copy"@ {
            lemma_append_switch(rest, ConfigM { pipeline: PipelineOptions { disable_copy: true, ..p }, ..c }, flag, set);
        } else if a == "--disable-borrow"@ {
            lemma_append_switch(rest, ConfigM { pipeline: PipelineOptions { disable_borrow: true, ..p }, ..c }, flag, set);
        } else if a == "--disable-mut"@ {
            lemma_append_switch(rest, ConfigM { pipeline: PipelineOptions { disable_mut: true, ..p }, ..c }, flag, set);
        } else if a == "--disable-last-use"@ {
            lemma_append_switch(rest, ConfigM { pipeline: PipelineOptions { disable_last_use: true, ..p }, ..c }, flag, set);
        } else if a == "--disable-closure"@ || a == "--disable-closure-cleanup"@ {
            lemma_append_switch(rest, ConfigM { pipeline: PipelineOptions { disable_closure: true, ..p }, ..c }, flag, set);
        } else if a == "--disable-binding-cleanup"@ {
            lemma_append_switch(rest, ConfigM { pipeline: PipelineOptions { disable_binding_cleanup: true, ..p }, ..c }, flag, set);
        } else if a == "--disable-match-cleanup"@ {
            lemma_append_switch(rest, ConfigM { pipeline: PipelineOptions { disable_match_cleanup: true, ..p }, ..c }, flag, set);
        } else if a == "-h"@ || a == "--help"@ {
        } else if c.target is None {
            lemma_append_switch(rest, ConfigM { target: Some(a), ..c }, flag, set);
        }
    }
}

/// Dropping the subcommand name commutes with appending an argument other
/// than `opt`.
proof fn lemma_without_opt_push(args: Seq<Seq<char>>, flag: Seq<char>)
    requires
        flag != "opt"@,
    ensures
        without_opt_m(args.push(flag)) == without_opt_m(args).push(flag),
{
    if args.len() > 0 {
        assert(args.push(flag)[0] == args[0]);
        if args[0] == "opt"@ {
            assert(args.push(flag).drop_first() =~= args.drop_first().push(flag));
        }
    } else {
        assert(args.push(flag)[0] == flag);
    }
}

/// Each switch of the pipeline switches off its own pass and nothing else:
/// appending it to arguments the driver accepts gives the same
/// configuration with only that switch set.
pub proof fn lemma_each_switch_sets_only_its_field(args: Seq<Seq<char>>)
    ensures
        parse_args_m(args) matches Ok(c) ==> parse_args_m(args.push("--disable-copy"@)) == Ok::<
            ConfigM,
            Seq<char>,
        >(ConfigM { pipeline: PipelineOptions { disable_copy: true, ..c.pipeline }, ..c }),
        parse_args_m(args) matches Ok(c) ==> parse_args_m(args.push("--disable-borrow"@)) == Ok::<
            ConfigM,
            Seq<char>,
        >(ConfigM { pipeline: PipelineOptions { disable_borrow: true, ..c.pipeline }, ..c }),
        parse_args_m(args) matches Ok(c) ==> parse_args_m(args.push("--disable-mut"@)) == Ok::<
            ConfigM,
            Seq<char>,
        >(ConfigM { pipeline: PipelineOptions { disable_mut: true, ..c.pipeline }, ..c }),
        parse_args_m(args) matches Ok(c) ==> parse_args_m(args.push("--disable-last-use"@)) == Ok::<
            ConfigM,
            Seq<char>,
        >(ConfigM { pipeline: PipelineOptions { disable_last_use: true, ..c.pipeline }, ..c }),
        parse_args_m(args) matches Ok(c) ==> parse_args_m(args.push("--disable-closure"@)) == Ok::<
            ConfigM,
            Seq<char>,
        >(ConfigM { pipeline: PipelineOptions { disable_closure: true, ..c.pipeline }, ..c }),
        parse_args_m(args) matches Ok(c) ==> parse_args_m(args.push("--disable-binding-cleanup"@))
            == Ok::<ConfigM, Seq<char>>(
            ConfigM { pipeline: PipelineOptions { disable_binding_cleanup: true, ..c.pipeline }, ..c },
        ),
        parse_args_m(args) matches Ok(c) ==> parse_args_m(args.push("--disable-match-cleanup"@))
            == Ok::<ConfigM, Seq<char>>(
            ConfigM { pipeline: PipelineOptions { disable_match_cleanup: true, ..c.pipeline }, ..c },
        ),
        parse_args_m(args) matches Ok(c) ==> parse_args_m(args.push("--keep-unused-copy"@)) == Ok::<
            ConfigM,
            Seq<char>,
        >(ConfigM { keep_unused_copy: true, ..c }),
{
    reveal_strlit("opt");
    reveal_strlit("--out-dir");
    reveal_strlit("--out-dir=");
    reveal_strlit("--keep-unused-copy");
    reveal_strlit("--disable-copy");
    reveal_strlit("--disable-borrow");
    reveal_strlit("--disable-mut");
    reveal_strlit("--disable-last-use");
    reveal_strlit("--disable-closure");
    reveal_strlit("--disable-closure-cleanup");
    reveal_strlit("--disable-binding-cleanup");
    reveal_strlit("--disable-match-cleanup");
    reveal_strlit("-h");
    reveal_strlit("--help");
    let w = without_opt_m(args);
    let i = initial_config_m();
    assert forall|d: ConfigM| #[trigger] parse_from_m(seq!["--disable-copy"@], d) == parse_from_m(
        Seq::<Seq<char>>::empty(),
        ConfigM { pipeline: PipelineOptions { disable_copy: true, ..d.pipeline }, ..d },
    ) by {
        assert(seq!["--disable-copy"@].drop_first() =~= Seq::<Seq<char>>::empty());
        assert("--disable-copy"@.subrange(0, 10)[2] == "--disable-copy"@[2]);
        assert("--out-dir="@[2] != "--disable-copy"@[2]);
    }
    lemma_switch(w, i, "--disable-copy"@, |d: ConfigM| ConfigM { pipeline: PipelineOptions { disable_copy: true, ..d.pipeline }, ..d });
    assert forall|d: ConfigM| #[trigger] parse_from_m(seq!["--disable-borrow"@], d) == parse_from_m(
        Seq::<Seq<char>>::empty(),
        ConfigM { pipeline: PipelineOptions { disable_borrow: true, ..d.pipeline }, ..d },
    ) by {
        assert(seq!["--disable-borrow"@].drop_first() =~= Seq::<Seq<char>>::empty());
        assert("--disable-borrow"@.subrange(0, 10)[2] == "--disable-borrow"@[2]);
        assert("--out-dir="@[2] != "--disable-borrow"@[2]);
    }
    lemma_switch(w, i, "--disable-borrow"@, |d: ConfigM| ConfigM { pipeline: PipelineOptions { disable_borrow: true, ..d.pipeline }, ..d });
    assert forall|d: ConfigM| #[trigger] parse_from_m(seq!["--disable-mut"@], d) == parse_from_m(
        Seq::<Seq<char>>::empty(),
        ConfigM { pipeline: PipelineOptions { disable_mut: true, ..d.pipeline }, ..d },
    ) by {
        assert(seq!["--disable-mut"@].drop_first() =~= Seq::<Seq<char>>::empty());
        assert("--disable-mut"@.subrange(0, 10)[2] == "--disable-mut"@[2]);
        assert("--out-dir="@[2] != "--disable-mut"@[2]);
    }
    lemma_switch(w, i, "--disable-mut"@, |d: ConfigM| ConfigM { pipeline: PipelineOptions { disable_mut: true, ..d.pipeline }, ..d });
    assert forall|d: ConfigM| #[trigger] parse_from_m(seq!["--disable-last-use"@], d) == parse_from_m(
        Seq::<Seq<char>>::empty(),
        ConfigM { pipeline: PipelineOptions { disable_last_use: true, ..d.pipeline }, ..d },
    ) by {
        assert(seq!["--disable-last-use"@].drop_first() =~= Seq::<Seq<char>>::empty());
        assert("--disable-last-use"@[2] != "--keep-unused-copy"@[2]);
        assert("--disable-last-use"@.subrange(0, 10)[2] == "--disable-last-use"@[2]);
        assert("--out-dir="@[2] != "--disable-last-use"@[2]);
    }
    lemma_switch(w, i, "--disable-last-use"@, |d: ConfigM| ConfigM { pipeline: PipelineOptions { disable_last_use: true, ..d.pipeline }, ..d });
    assert forall|d: ConfigM| #[trigger] parse_from_m(seq!["--disable-closure"@], d) == parse_from_m(
        Seq::<Seq<char>>::empty(),
        ConfigM { pipeline: PipelineOptions { disable_closure: true, ..d.pipeline }, ..d },
    ) by {
        assert(seq!["--disable-closure"@].drop_first() =~= Seq::<Seq<char>>::empty());
        assert("--disable-closure"@.subrange(0, 10)[2] == "--disable-closure"@[2]);
        assert("--out-dir="@[2] != "--disable-closure"@[2]);
    }
    lemma_switch(w, i, "--disable-closure"@, |d: ConfigM| ConfigM { pipeline: PipelineOptions { disable_closure: true, ..d.pipeline }, ..d });
    assert forall|d: ConfigM| #[trigger] parse_from_m(seq!["--disable-binding-cleanup"@], d) == parse_from_m(
        Seq::<Seq<char>>::empty(),
        ConfigM { pipeline: PipelineOptions { disable_binding_cleanup: true, ..d.pipeline }, ..d },
    ) by {
        assert(seq!["--disable-binding-cleanup"@].drop_first() =~= Seq::<Seq<char>>::empty());
        assert("--disable-binding-cleanup"@[10] != "--disable-closure-cleanup"@[10]);
        assert("--disable-binding-cleanup"@.subrange(0, 10)[2] == "--disable-binding-cleanup"@[2]);
        assert("--out-dir="@[2] != "--disable-binding-cleanup"@[2]);
    }
    lemma_switch(w, i, "--disable-binding-cleanup"@, |d: ConfigM| ConfigM { pipeline: PipelineOptions { disable_binding_cleanup: true, ..d.pipeline }, ..d });
    assert forall|d: ConfigM| #[trigger] parse_from_m(seq!["--disable-match-cleanup"@], d) == parse_from_m(
        Seq::<Seq<char>>::empty(),
        ConfigM { pipeline: PipelineOptions { disable_match_cleanup: true, ..d.pipeline }, ..d },
    ) by {
        assert(seq!["--disable-match-cleanup"@].drop_first() =~= Seq::<Seq<char>>::empty());
        assert("--disable-match-cleanup"@.subrange(0, 10)[2] == "--disable-match-cleanup"@[2]);
        assert("--out-dir="@[2] != "--disable-match-cleanup"@[2]);
    }
    lemma_switch(w, i, "--disable-match-cleanup"@, |d: ConfigM| ConfigM { pipeline: PipelineOptions { disable_match_cleanup: true, ..d.pipeline }, ..d });
    assert forall|d: ConfigM| #[trigger] parse_from_m(seq!["--keep-unused-copy"@], d) == parse_from_m(
        Seq::<Seq<char>>::empty(),
        ConfigM { keep_unused_copy: true, ..d },
    ) by {
        assert(seq!["--keep-unused-copy"@].drop_first() =~= Seq::<Seq<char>>::empty());
        assert("--keep-unused-copy"@[2] != "--disable-last-use"@[2]);
        assert("--keep-unused-copy"@.subrange(0, 10)[2] == "--keep-unused-copy"@[2]);
        assert("--out-dir="@[2] != "--keep-unused-copy"@[2]);
    }
    lemma_switch(w, i, "--keep-unused-copy"@, |d: ConfigM| ConfigM { keep_unused_copy: true, ..d });
    lemma_without_opt_push(args, "--disable-copy"@);
    lemma_without_opt_push(args, "--disable-borrow"@);
    lemma_without_opt_push(args, "--disable-mut"@);
    lemma_without_opt_push(args, "--disable-last-use"@);
    lemma_without_opt_push(args, "--disable-closure"@);
    lemma_without_opt_push(args, "--disable-binding-cleanup"@);
    lemma_without_opt_push(args, "--disable-match-cleanup"@);
    lemma_without_opt_push(args, "--keep-unused-copy"@);
}

/// Read alone and last, `flag` sets what `set` sets; so appended to
/// accepted arguments, it sets that in their configuration.
proof fn lemma_switch(args: Seq<Seq<char>>, c: ConfigM, flag: Seq<char>, set: spec_fn(ConfigM) -> ConfigM)
    requires
        forall|d: ConfigM| #[trigger] parse_from_m(seq![flag], d) == parse_from_m(
            Seq::<Seq<char>>::empty(),
            set(d),
        ),
    ensures
        parse_from_m(args, c) matches Ok(r) ==> parse_from_m(args.push(flag), c) == Ok::<
            ConfigM,
            Seq<char>,
        >(set(r)),
{
    assert forall|d: ConfigM| #[trigger] parse_from_m(seq![flag], d) == Ok::<ConfigM, Seq<char>>(
        set(d),
    ) by {
        assert(parse_from_m(seq![flag], d) == parse_from_m(Seq::<Seq<char>>::empty(), set(d)));
    }
    lemma_append_switch(args, c, flag, set);
}

} // verus!
