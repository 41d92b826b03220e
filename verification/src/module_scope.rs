//! Where a name or a path written in a module points: the module scope the
//! borrow analysis resolves callees and types in.
use vstd::prelude::*;
use vstd::string::*;

use crate::text::{
    drop_trailing_whitespace, is_text, skip_whitespace, string_of, substring, trim_m, views,
};

verus! {

// ----- path segments -----

/// `s` up to its first `<`.
pub open spec fn before_generics_m(s: Seq<char>) -> Seq<char>
    decreases s.len(),
{
    if s.len() == 0 {
        s
    } else if s[0] == '<' {
        Seq::empty()
    } else {
        seq![s[0]] + before_generics_m(s.drop_first())
    }
}

/// The path segment `s` without its generic arguments, a trailing `::` and
/// surrounding white space.
pub open spec fn strip_path_segment_generics_m(s: Seq<char>) -> Seq<char> {
    let t = trim_m(before_generics_m(s));
    if t.len() >= 2 && t.subrange(t.len() - 2, t.len() as int) == "::"@ {
        trim_m(t.subrange(0, t.len() - 2))
    } else {
        t
    }
}

/// The trimmed text `s[from..to]`.
fn trimmed(s: &str, from: usize, to: usize) -> (r: String)
    requires
        from <= to <= s@.len(),
    ensures
        r@ == trim_m(s@.subrange(from as int, to as int)),
{
    let k1 = skip_whitespace(s, from, to);
    let k2 = drop_trailing_whitespace(s, k1, to);
    substring(s, k1, k2)
}

/// The path segment `s` without its generic arguments.
pub fn strip_path_segment_generics(s: &str) -> (r: String)
    ensures
        r@ == strip_path_segment_generics_m(s@),
{
    let n = s.unicode_len();
    let mut k: usize = 0;
    assert(s@.subrange(0, n as int) =~= s@);
    assert(s@.subrange(0, 0) + before_generics_m(s@) =~= before_generics_m(s@));
    while k < n && s.get_char(k) != '<'
        invariant
            k <= n,
            n == s@.len(),
            before_generics_m(s@) == s@.subrange(0, k as int) + before_generics_m(
                s@.subrange(k as int, n as int),
            ),
        decreases n - k,
    {
        let ghost rest = s@.subrange(k as int, n as int);
        assert(rest.drop_first() =~= s@.subrange(k + 1, n as int));
        assert(s@.subrange(0, k + 1) =~= s@.subrange(0, k as int) + seq![rest[0]]);
        k = k + 1;
    }
    proof {
        let rest = s@.subrange(k as int, n as int);
        assert(before_generics_m(rest) == Seq::<char>::empty());
        assert(s@.subrange(0, k as int) + Seq::<char>::empty() =~= s@.subrange(0, k as int));
    }
    let t = trimmed(s, 0, k);
    let tn = t.unicode_len();
    proof {
        reveal_strlit("::");
    }
    if tn >= 2 && t.as_str().get_char(tn - 2) == ':' && t.as_str().get_char(tn - 1) == ':' {
        assert(t@.subrange(tn - 2, tn as int) =~= "::"@);
        trimmed(t.as_str(), 0, tn - 2)
    } else {
        proof {
            if tn >= 2 && t@.subrange(tn - 2, tn as int) == "::"@ {
                assert(t@.subrange(tn - 2, tn as int)[0] == t@[tn - 2]);
                assert(t@.subrange(tn - 2, tn as int)[1] == t@[tn - 1]);
            }
        }
        t
    }
}

/// The non-empty trimmed parts of `s[start..]`, split at `::`, scanning
/// from position `i`.
pub open spec fn parts_from_m(s: Seq<char>, start: nat, i: nat) -> Seq<Seq<char>>
    decreases s.len() - i,
{
    if i + 1 >= s.len() {
        keep_m(trim_m(s.subrange(start as int, s.len() as int)))
    } else if s[i as int] == ':' && s[(i + 1) as int] == ':' {
        keep_m(trim_m(s.subrange(start as int, i as int))) + parts_from_m(s, i + 2, i + 2)
    } else {
        parts_from_m(s, start, i + 1)
    }
}

/// `x` as a part, unless it is empty.
pub open spec fn keep_m(x: Seq<char>) -> Seq<Seq<char>> {
    if x.len() > 0 {
        seq![x]
    } else {
        Seq::empty()
    }
}

/// The non-empty trimmed parts of `s`, split at `::`.
pub fn path_parts(s: &str) -> (r: Vec<String>)
    ensures
        views(r@) == parts_from_m(s@, 0, 0),
{
    let n = s.unicode_len();
    let mut parts: Vec<String> = Vec::new();
    let mut start: usize = 0;
    let mut i: usize = 0;
    while n > 0 && i < n - 1
        invariant
            start <= i <= n,
            n == s@.len(),
            parts_from_m(s@, 0, 0) == views(parts@) + parts_from_m(s@, start as nat, i as nat),
        decreases n - i,
    {
        if s.get_char(i) == ':' && s.get_char(i + 1) == ':' {
            let part = trimmed(s, start, i);
            let ghost before = parts@;
            if part.unicode_len() > 0 {
                parts.push(part);
                assert(views(parts@) =~= views(before) + seq![part@]);
            } else {
                assert(views(parts@) =~= views(before) + Seq::<Seq<char>>::empty());
            }
            assert(views(parts@) + parts_from_m(s@, (i + 2) as nat, (i + 2) as nat) =~= views(
                before,
            ) + (keep_m(trim_m(s@.subrange(start as int, i as int))) + parts_from_m(
                s@,
                (i + 2) as nat,
                (i + 2) as nat,
            )));
            i = i + 2;
            start = i;
        } else {
            i = i + 1;
        }
    }
    let last = trimmed(s, start, n);
    let ghost before = parts@;
    if last.unicode_len() > 0 {
        parts.push(last);
        assert(views(parts@) =~= views(before) + seq![last@]);
    } else {
        assert(views(parts@) =~= views(before) + Seq::<Seq<char>>::empty());
    }
    parts
}

// ----- scopes -----

/// A module's scope: its path, the names its `use` items import with the
/// paths they import, and the function being analysed in it.
pub struct ModuleScope {
    pub module_segments: Vec<String>,
    pub imports: Vec<(String, Vec<String>)>,
    pub current_function: Option<Vec<String>>,
}

/// The model of a path.
pub open spec fn path_m(p: Seq<String>) -> Seq<Seq<char>> {
    views(p)
}

/// The model of an import table.
pub open spec fn imports_m(v: Seq<(String, Vec<String>)>) -> Seq<(Seq<char>, Seq<Seq<char>>)> {
    v.map_values(|e: (String, Vec<String>)| (e.0@, views(e.1@)))
}

/// The path the first import of `name` in `imports` names.
pub open spec fn import_of_m(imports: Seq<(Seq<char>, Seq<Seq<char>>)>, name: Seq<char>) -> Option<
    Seq<Seq<char>>,
>
    decreases imports.len(),
{
    if imports.len() == 0 {
        None
    } else if imports[0].0 == name {
        Some(imports[0].1)
    } else {
        import_of_m(imports.drop_first(), name)
    }
}

/// Where the plain name `name` points from the module at `module_segments`: the
/// path it was imported from, or the name in the module itself.
pub open spec fn resolve_name_m(
    module_segments: Seq<Seq<char>>,
    imports: Seq<(Seq<char>, Seq<Seq<char>>)>,
    name: Seq<char>,
) -> Seq<Seq<char>> {
    match import_of_m(imports, name) {
        Some(p) => p,
        None => module_segments.push(name),
    }
}

/// The number of `super` segments that `segs` starts with.
pub open spec fn leading_supers_m(segs: Seq<Seq<char>>) -> nat
    decreases segs.len(),
{
    if segs.len() > 0 && segs[0] == "super"@ {
        1 + leading_supers_m(segs.drop_first())
    } else {
        0
    }
}

/// `path` with its last `k` segments dropped, or empty where it has fewer.
pub open spec fn pop_m(path: Seq<Seq<char>>, k: nat) -> Seq<Seq<char>> {
    if k >= path.len() {
        Seq::empty()
    } else {
        path.subrange(0, path.len() - k)
    }
}

/// Where the path `segs` points from the module at `module_segments`: `crate`
/// paths as written, `self` and `super` paths from the module, paths that
/// start with an imported name from the import, a plain name as
/// [`resolve_name_m`] says, and other paths from the crate root. Generic
/// arguments are dropped from each segment first.
pub open spec fn resolve_segments_m(
    module_segments: Seq<Seq<char>>,
    imports: Seq<(Seq<char>, Seq<Seq<char>>)>,
    segs: Seq<Seq<char>>,
) -> Seq<Seq<char>> {
    let norm = segs.map_values(|s: Seq<char>| strip_path_segment_generics_m(s));
    if norm.len() == 0 {
        Seq::empty()
    } else if norm[0] == "crate"@ {
        norm
    } else if norm[0] == "self"@ {
        module_segments + norm.drop_first()
    } else if norm[0] == "super"@ {
        let k = leading_supers_m(norm);
        pop_m(module_segments, k) + norm.subrange(k as int, norm.len() as int)
    } else {
        match import_of_m(imports, norm[0]) {
            Some(p) => p + norm.drop_first(),
            None => if norm.len() == 1 {
                resolve_name_m(module_segments, imports, norm[0])
            } else {
                seq!["crate"@] + norm
            },
        }
    }
}

/// A copy of the path `p`.
fn copy_path(p: &Vec<String>) -> (r: Vec<String>)
    ensures
        views(r@) == views(p@),
{
    let mut r: Vec<String> = Vec::new();
    let mut i: usize = 0;
    while i < p.len()
        invariant
            i <= p@.len(),
            views(r@) == views(p@).subrange(0, i as int),
        decreases p@.len() - i,
    {
        let ghost before = r@;
        r.push(string_of(p[i].as_str()));
        assert(views(r@) =~= views(before).push(p@[i as int]@));
        assert(views(p@).subrange(0, i + 1) =~= views(p@).subrange(0, i as int).push(p@[i as int]@));
        i = i + 1;
    }
    assert(views(p@).subrange(0, p@.len() as int) =~= views(p@));
    r
}

/// Appends the segments `segs[from..]` to `path`.
fn extend_from(path: &mut Vec<String>, segs: &Vec<String>, from: usize)
    requires
        from <= segs@.len(),
    ensures
        views(final(path)@) == views(old(path)@) + views(segs@).subrange(
            from as int,
            segs@.len() as int,
        ),
{
    let ghost start = views(path@);
    let mut i: usize = from;
    while i < segs.len()
        invariant
            from <= i <= segs@.len(),
            views(path@) == start + views(segs@).subrange(from as int, i as int),
        decreases segs@.len() - i,
    {
        let ghost before = path@;
        path.push(string_of(segs[i].as_str()));
        assert(views(path@) =~= views(before).push(segs@[i as int]@));
        assert(views(segs@).subrange(from as int, i + 1) =~= views(segs@).subrange(
            from as int,
            i as int,
        ).push(segs@[i as int]@));
        i = i + 1;
    }
}

impl ModuleScope {
    /// The path the first import of `name` names.
    fn import_of(&self, name: &String) -> (r: Option<&Vec<String>>)
        ensures
            match import_of_m(imports_m(self.imports@), name@) {
                Some(p) => r matches Some(q) && views(q@) == p,
                None => r is None,
            },
    {
        let ghost all = imports_m(self.imports@);
        let mut i: usize = 0;
        assert(all.subrange(0, all.len() as int) =~= all);
        while i < self.imports.len()
            invariant
                i <= self.imports@.len(),
                all == imports_m(self.imports@),
                import_of_m(all, name@) == import_of_m(all.subrange(i as int, all.len() as int), name@),
            decreases self.imports@.len() - i,
        {
            let ghost rest = all.subrange(i as int, all.len() as int);
            assert(rest[0] == (self.imports@[i as int].0@, views(self.imports@[i as int].1@)));
            if self.imports[i].0 == *name {
                return Some(&self.imports[i].1);
            }
            assert(rest.drop_first() =~= all.subrange(i + 1, all.len() as int));
            i = i + 1;
        }
        None
    }

    /// Where the plain name `name` points from this scope.
    pub fn resolve_name_path(&self, name: &String) -> (r: Vec<String>)
        ensures
            views(r@) == resolve_name_m(views(self.module_segments@), imports_m(self.imports@), name@),
    {
        match self.import_of(name) {
            Some(p) => copy_path(p),
            None => {
                let mut path = copy_path(&self.module_segments);
                let ghost before = path@;
                path.push(string_of(name.as_str()));
                assert(views(path@) =~= views(before).push(name@));
                path
            },
        }
    }

    /// Where the path `segments` points from this scope.
    pub fn resolve_segments(&self, segments: &Vec<String>) -> (r: Vec<String>)
        ensures
            views(r@) == resolve_segments_m(
                views(self.module_segments@),
                imports_m(self.imports@),
                views(segments@),
            ),
    {
        let ghost norm_m = views(segments@).map_values(
            |s: Seq<char>| strip_path_segment_generics_m(s),
        );
        let mut norm: Vec<String> = Vec::new();
        let mut i: usize = 0;
        while i < segments.len()
            invariant
                i <= segments@.len(),
                norm_m == views(segments@).map_values(
                    |s: Seq<char>| strip_path_segment_generics_m(s),
                ),
                views(norm@) == norm_m.subrange(0, i as int),
            decreases segments@.len() - i,
        {
            let seg = strip_path_segment_generics(segments[i].as_str());
            let ghost before = norm@;
            norm.push(seg);
            assert(views(norm@) =~= views(before).push(seg@));
            assert(norm_m.subrange(0, i + 1) =~= norm_m.subrange(0, i as int).push(norm_m[i as int]));
            i = i + 1;
        }
        assert(norm_m.subrange(0, norm_m.len() as int) =~= norm_m);
        let ghost nv = views(norm@);
        if norm.len() == 0 {
            return Vec::new();
        }
        assert(nv[0] == norm@[0]@);
        proof {
            reveal_strlit("crate");
            reveal_strlit("self");
            reveal_strlit("super");
        }
        if is_text(&norm[0], "crate") {
            return norm;
        }
        if is_text(&norm[0], "self") {
            let mut path = copy_path(&self.module_segments);
            extend_from(&mut path, &norm, 1);
            assert(nv.subrange(1, nv.len() as int) =~= nv.drop_first());
            return path;
        }
        if is_text(&norm[0], "super") {
            let mut path = copy_path(&self.module_segments);
            let mut k: usize = 0;
            while k < norm.len() && is_text(&norm[k], "super")
                invariant
                    k <= norm@.len(),
                    nv == views(norm@),
                    views(path@) == pop_m(views(self.module_segments@), k as nat),
                    leading_supers_m(nv) == k + leading_supers_m(nv.subrange(k as int, nv.len() as int)),
                decreases norm@.len() - k,
            {
                let ghost rest = nv.subrange(k as int, nv.len() as int);
                assert(rest[0] == norm@[k as int]@);
                assert(rest.drop_first() =~= nv.subrange(k + 1, nv.len() as int));
                let ghost before = views(path@);
                if path.len() > 0 {
                    path.pop();
                    assert(views(path@) =~= before.drop_last());
                }
                assert(pop_m(views(self.module_segments@), (k + 1) as nat) =~= if before.len() > 0 {
                    before.drop_last()
                } else {
                    before
                });
                k = k + 1;
            }
            proof {
                let rest = nv.subrange(k as int, nv.len() as int);
                if k < norm@.len() {
                    assert(rest[0] == norm@[k as int]@);
                }
                assert(leading_supers_m(rest) == 0);
                assert(nv.subrange(0, nv.len() as int) =~= nv);
            }
            extend_from(&mut path, &norm, k);
            return path;
        }
        match self.import_of(&norm[0]) {
            Some(p) => {
                let mut path = copy_path(p);
                extend_from(&mut path, &norm, 1);
                assert(nv.subrange(1, nv.len() as int) =~= nv.drop_first());
                path
            },
            None => {
                if norm.len() == 1 {
                    self.resolve_name_path(&norm[0])
                } else {
                    let mut path: Vec<String> = Vec::new();
                    path.push(string_of("crate"));
                    assert(views(path@) =~= seq!["crate"@]);
                    extend_from(&mut path, &norm, 0);
                    assert(nv.subrange(0, nv.len() as int) =~= nv);
                    path
                }
            },
        }
    }
}

} // verus!
