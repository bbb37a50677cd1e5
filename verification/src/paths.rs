//! File paths, held as strings, compared by their components.
use vstd::prelude::*;
use crate::text::{chars_of, string_from_chars, chars_eq};

verus! {

/// A segment between separators that names something: not empty and not `.`.
pub open spec fn keeps(seg: Seq<char>) -> bool {
    seg.len() > 0 && seg != seq!['.']
}

/// Scanning `s` left to right: the named segments completed so far, and the segment under way.
pub open spec fn scan(s: Seq<char>) -> (Seq<Seq<char>>, Seq<char>)
    decreases s.len(),
{
    if s.len() == 0 {
        (Seq::empty(), Seq::empty())
    } else {
        let (done, cur) = scan(s.drop_last());
        if s.last() == '/' {
            (if keeps(cur) { done.push(cur) } else { done }, Seq::empty())
        } else {
            (done, cur.push(s.last()))
        }
    }
}

/// The components of a path: the root (an empty component) when the path is
/// absolute, then its named segments; empty and `.` segments are ignored.
pub open spec fn comps(s: Seq<char>) -> Seq<Seq<char>> {
    let (done, cur) = scan(s);
    let body = if keeps(cur) { done.push(cur) } else { done };
    if s.len() > 0 && s[0] == '/' {
        seq![Seq::<char>::empty()] + body
    } else {
        body
    }
}

/// The components joined by `sep`.
pub open spec fn join(cs: Seq<Seq<char>>, sep: char) -> Seq<char>
    decreases cs.len(),
{
    if cs.len() == 0 {
        Seq::empty()
    } else if cs.len() == 1 {
        cs[0]
    } else {
        join(cs.drop_last(), sep) + seq![sep] + cs.last()
    }
}

/// `pre` is a prefix of `s`.
pub open spec fn is_prefix_of(pre: Seq<Seq<char>>, s: Seq<Seq<char>>) -> bool {
    pre.len() <= s.len() && s.take(pre.len() as int) == pre
}

/// The path `path` is under `base` (or is `base`), as `Path::starts_with` tells.
pub open spec fn path_starts_with(path: Seq<char>, base: Seq<char>) -> bool {
    is_prefix_of(comps(base), comps(path))
}

/// The components of `path` after those of `base`, when `path` is under `base`.
pub open spec fn strip_path(path: Seq<char>, base: Seq<char>) -> Option<Seq<Seq<char>>> {
    if path_starts_with(path, base) {
        Some(comps(path).skip(comps(base).len() as int))
    } else {
        None
    }
}

pub open spec fn py_suffix() -> Seq<char> {
    seq!['.', 'p', 'y']
}

/// `s` ends with `t`.
pub open spec fn ends_with(s: Seq<char>, t: Seq<char>) -> bool {
    t.len() <= s.len() && s.skip(s.len() - t.len()) == t
}

/// Every `/` turned into `.`.
pub open spec fn slashes_to_dots(s: Seq<char>) -> Seq<char> {
    s.map_values(|c: char| if c == '/' { '.' } else { c })
}

/// The dotted Python module name of `path` relative to `root`: the relative
/// path without its `.py` suffix, with `/` turned into `.`.
pub open spec fn class_of(root: Seq<char>, path: Seq<char>) -> Option<Seq<char>> {
    match strip_path(path, root) {
        None => None,
        Some(rest) => {
            let s = join(rest, '/');
            if ends_with(s, py_suffix()) && s.len() > 3 {
                Some(slashes_to_dots(s.take(s.len() - 3)))
            } else {
                None
            }
        },
    }
}

/// The number of bytes of the UTF-8 encoding of `c`.
pub open spec fn char_utf8_len(c: char) -> nat {
    if (c as u32) < 0x80 {
        1
    } else if (c as u32) < 0x800 {
        2
    } else if (c as u32) < 0x10000 {
        3
    } else {
        4
    }
}

/// The number of bytes of the UTF-8 encoding of `s`.
pub open spec fn utf8_len(s: Seq<char>) -> nat
    decreases s.len(),
{
    if s.len() == 0 {
        0
    } else {
        utf8_len(s.drop_last()) + char_utf8_len(s.last())
    }
}

proof fn lemma_utf8_len_bound(s: Seq<char>)
    ensures
        utf8_len(s) <= 4 * s.len(),
    decreases s.len(),
{
    if s.len() > 0 {
        lemma_utf8_len_bound(s.drop_last());
    }
}

/// The number of bytes of the UTF-8 encoding of `s`, or `u64::MAX` beyond it.
pub fn byte_len(s: &str) -> (n: u64)
    ensures
        utf8_len(s@) <= u64::MAX ==> n == utf8_len(s@),
        utf8_len(s@) > u64::MAX ==> n == u64::MAX,
{
    let cs = chars_of(s);
    let mut n: u64 = 0;
    let mut i: usize = 0;
    let mut sat = false;
    while i < cs.len()
        invariant
            i <= cs.len(),
            !sat ==> n == utf8_len(cs@.take(i as int)),
            sat ==> n == u64::MAX && utf8_len(cs@.take(i as int)) > u64::MAX,
        decreases cs.len() - i,
    {
        assert(cs@.take(i + 1).drop_last() =~= cs@.take(i as int));
        let c = cs[i];
        let w: u64 = if (c as u32) < 0x80 {
            1
        } else if (c as u32) < 0x800 {
            2
        } else if (c as u32) < 0x10000 {
            3
        } else {
            4
        };
        if !sat {
            if n > u64::MAX - w {
                sat = true;
                n = u64::MAX;
            } else {
                n = n + w;
            }
        }
        i = i + 1;
    }
    assert(cs@.take(cs@.len() as int) =~= cs@);
    n
}

proof fn lemma_scan_step(s: Seq<char>, c: char)
    ensures
        scan(s.push(c)) == (if c == '/' {
            (if keeps(scan(s).1) { scan(s).0.push(scan(s).1) } else { scan(s).0 }, Seq::<char>::empty())
        } else {
            (scan(s).0, scan(s).1.push(c))
        }),
{
    assert(s.push(c).drop_last() =~= s);
}

fn keeps_exec(seg: &Vec<char>) -> (r: bool)
    ensures
        r == keeps(seg@),
{
    let r = seg.len() > 0 && !(seg.len() == 1 && seg[0] == '.');
    assert(seg.len() == 1 && seg[0] == '.' ==> seg@ =~= seq!['.']);
    r
}

/// The components of a path.
pub fn components(s: &str) -> (r: Vec<Vec<char>>)
    ensures
        r@.map_values(|c: Vec<char>| c@) == comps(s@),
{
    let cs = chars_of(s);
    let mut done: Vec<Vec<char>> = Vec::new();
    if cs.len() > 0 && cs[0] == '/' {
        done.push(Vec::new());
    }
    let ghost lead: Seq<Seq<char>> = if cs@.len() > 0 && cs@[0] == '/' { seq![Seq::<char>::empty()] } else { Seq::empty() };
    assert(done@.map_values(|c: Vec<char>| c@) =~= lead);
    let mut cur: Vec<char> = Vec::new();
    let mut i: usize = 0;
    while i < cs.len()
        invariant
            i <= cs.len(),
            lead == (if cs@.len() > 0 && cs@[0] == '/' { seq![Seq::<char>::empty()] } else { Seq::<Seq<char>>::empty() }),
            done@.map_values(|c: Vec<char>| c@) == lead + scan(cs@.take(i as int)).0,
            cur@ == scan(cs@.take(i as int)).1,
        decreases cs.len() - i,
    {
        proof {
            lemma_scan_step(cs@.take(i as int), cs@[i as int]);
            assert(cs@.take(i + 1) =~= cs@.take(i as int).push(cs@[i as int]));
        }
        if cs[i] == '/' {
            if keeps_exec(&cur) {
                let ghost before = done@.map_values(|c: Vec<char>| c@);
                done.push(cur);
                assert(done@.map_values(|c: Vec<char>| c@) =~= before.push(scan(cs@.take(i as int)).1));
            }
            cur = Vec::new();
        } else {
            cur.push(cs[i]);
        }
        i = i + 1;
    }
    assert(cs@.take(cs@.len() as int) =~= cs@);
    if keeps_exec(&cur) {
        let ghost before = done@.map_values(|c: Vec<char>| c@);
        done.push(cur);
        assert(done@.map_values(|c: Vec<char>| c@) =~= before.push(scan(cs@).1));
    }
    assert(done@.map_values(|c: Vec<char>| c@) =~= comps(s@));
    done
}

/// Whether `pre` is a prefix of `s`, component by component.
fn comps_prefix(pre: &Vec<Vec<char>>, s: &Vec<Vec<char>>) -> (r: bool)
    ensures
        r == is_prefix_of(pre@.map_values(|c: Vec<char>| c@), s@.map_values(|c: Vec<char>| c@)),
{
    let ghost p = pre@.map_values(|c: Vec<char>| c@);
    let ghost q = s@.map_values(|c: Vec<char>| c@);
    if pre.len() > s.len() {
        return false;
    }
    let mut i: usize = 0;
    while i < pre.len()
        invariant
            i <= pre.len() <= s.len(),
            p == pre@.map_values(|c: Vec<char>| c@),
            q == s@.map_values(|c: Vec<char>| c@),
            forall|k: int| 0 <= k < i ==> p[k] == q[k],
        decreases pre.len() - i,
    {
        if !chars_eq(&pre[i], &s[i]) {
            assert(q.take(p.len() as int)[i as int] != p[i as int]);
            return false;
        }
        i = i + 1;
    }
    assert(q.take(p.len() as int) =~= p);
    true
}

/// Whether `path` is under `base` (or is `base`).
pub fn starts_with(path: &str, base: &str) -> (r: bool)
    ensures
        r == path_starts_with(path@, base@),
{
    let b = components(base);
    let p = components(path);
    comps_prefix(&b, &p)
}

/// The characters of the components joined by `sep`.
pub(crate) fn join_exec(cs: &Vec<Vec<char>>, from: usize, sep: char) -> (r: Vec<char>)
    requires
        from <= cs.len(),
    ensures
        r@ == join(cs@.map_values(|c: Vec<char>| c@).skip(from as int), sep),
{
    let ghost all = cs@.map_values(|c: Vec<char>| c@);
    let mut r: Vec<char> = Vec::new();
    let mut i = from;
    assert(all.skip(from as int).take(0) =~= Seq::<Seq<char>>::empty());
    while i < cs.len()
        invariant
            from <= i <= cs.len(),
            all == cs@.map_values(|c: Vec<char>| c@),
            r@ == join(all.skip(from as int).take(i - from), sep),
        decreases cs.len() - i,
    {
        let ghost parts = all.skip(from as int).take(i + 1 - from);
        assert(parts.drop_last() =~= all.skip(from as int).take(i - from));
        assert(parts.last() == cs@[i as int]@);
        if i > from {
            r.push(sep);
        } else {
            assert(parts.len() == 1);
        }
        let c = &cs[i];
        let mut j: usize = 0;
        let ghost r0 = r@;
        while j < c.len()
            invariant
                j <= c.len(),
                r@ == r0 + c@.take(j as int),
            decreases c.len() - j,
        {
            r.push(c[j]);
            j = j + 1;
            assert(r@ =~= r0 + c@.take(j as int));
        }
        assert(c@.take(c@.len() as int) =~= c@);
        assert(r@ =~= join(parts, sep));
        i = i + 1;
    }
    assert(all.skip(from as int).take(cs.len() - from) =~= all.skip(from as int));
    r
}

/// Convert file path to Python dotted class name relative to root.
///
/// `/project/myapp/utils.py` with root `/project` -> `"myapp.utils"`
/// `/project/myapp/__init__.py` with root `/project` -> `"myapp.__init__"`
pub fn path_to_class(root: &str, path: &str) -> (r: Option<String>)
    ensures
        match r {
            Some(c) => class_of(root@, path@) == Some(c@),
            None => class_of(root@, path@) is None,
        },
{
    let b = components(root);
    let p = components(path);
    if !comps_prefix(&b, &p) {
        return None;
    }
    let s = join_exec(&p, b.len(), '/');
    let n = s.len();
    if n <= 3 || s[n - 3] != '.' || s[n - 2] != 'p' || s[n - 1] != 'y' {
        proof {
            if n > 3 && ends_with(s@, py_suffix()) {
                assert(s@.skip(n - 3)[0] == s@[n - 3]);
                assert(s@.skip(n - 3)[1] == s@[n - 2]);
                assert(s@.skip(n - 3)[2] == s@[n - 1]);
            }
        }
        return None;
    }
    assert(s@.skip(n - 3) =~= py_suffix());
    let mut d: Vec<char> = Vec::new();
    let mut i: usize = 0;
    while i < n - 3
        invariant
            n == s@.len(),
            n > 3,
            i <= n - 3,
            d@ == slashes_to_dots(s@.take(i as int)),
        decreases n - 3 - i,
    {
        if s[i] == '/' {
            d.push('.');
        } else {
            d.push(s[i]);
        }
        i = i + 1;
        assert(d@ =~= slashes_to_dots(s@.take(i as int)));
    }
    Some(string_from_chars(&d))
}

/// `b` appended to `a` as `Path::join` does: an absolute `b` replaces `a`,
/// and a separator goes between them unless `a` is empty or ends with one.
pub open spec fn path_join(a: Seq<char>, b: Seq<char>) -> Seq<char> {
    if b.len() > 0 && b[0] == '/' {
        b
    } else if a.len() > 0 && a.last() != '/' {
        a + seq!['/'] + b
    } else {
        a + b
    }
}

/// Every `.` turned into `/`.
pub open spec fn dots_to_slashes(s: Seq<char>) -> Seq<char> {
    s.map_values(|c: char| if c == '.' { '/' } else { c })
}

pub open spec fn init_py() -> Seq<char> {
    seq!['_', '_', 'i', 'n', 'i', 't', '_', '_', '.', 'p', 'y']
}

/// Where module `class` lives under `root` when it is a package.
pub open spec fn package_candidate(root: Seq<char>, class: Seq<char>) -> Seq<char> {
    path_join(path_join(root, dots_to_slashes(class)), init_py())
}

/// Where module `class` lives under `root` when it is a plain module.
pub open spec fn module_candidate(root: Seq<char>, class: Seq<char>) -> Seq<char> {
    path_join(root, dots_to_slashes(class) + py_suffix())
}

/// Some call of `f` on a path with the text `c` answered `b`.
pub open spec fn says<F: Fn(&String) -> bool>(f: F, c: Seq<char>, b: bool) -> bool {
    exists|s: String| s@ == c && #[trigger] f.ensures((&s,), b)
}

/// `p` is the first of `cands` for which `f` answered yes, after no for all before.
pub open spec fn first_found<F: Fn(&String) -> bool>(f: F, cands: Seq<Seq<char>>, p: Seq<char>) -> bool {
    exists|i: int| 0 <= i < cands.len() && cands[i] == p && says(f, cands[i], true)
        && forall|k: int| 0 <= k < i ==> says(f, #[trigger] cands[k], false)
}

/// `f` answered no for each of `cands`.
pub open spec fn none_found<F: Fn(&String) -> bool>(f: F, cands: Seq<Seq<char>>) -> bool {
    forall|k: int| 0 <= k < cands.len() ==> says(f, #[trigger] cands[k], false)
}

/// The first of `cands` for which `path_exists` answers yes.
pub fn first_existing<F: Fn(&String) -> bool>(cands: &Vec<String>, path_exists: &F) -> (r: Option<String>)
    requires
        forall|s: &String| #[trigger] path_exists.requires((s,)),
    ensures
        match r {
            Some(p) => first_found(*path_exists, cands@.map_values(|c: String| c@), p@),
            None => none_found(*path_exists, cands@.map_values(|c: String| c@)),
        },
{
    let ghost cv = cands@.map_values(|c: String| c@);
    let mut i: usize = 0;
    while i < cands.len()
        invariant
            i <= cands.len(),
            cv == cands@.map_values(|c: String| c@),
            forall|s: &String| #[trigger] path_exists.requires((s,)),
            forall|k: int| 0 <= k < i ==> says(*path_exists, #[trigger] cv[k], false),
        decreases cands.len() - i,
    {
        let e = path_exists(&cands[i]);
        assert(says(*path_exists, cv[i as int], e)) by {
            assert(cands@[i as int]@ == cv[i as int]);
        }
        if e {
            return Some(cands[i].clone());
        }
        i = i + 1;
    }
    None
}

/// `b` appended to `a` as `Path::join` does.
pub fn join_path(a: &Vec<char>, b: &Vec<char>) -> (r: Vec<char>)
    ensures
        r@ == path_join(a@, b@),
{
    if b.len() > 0 && b[0] == '/' {
        return b.clone();
    }
    let mut r = a.clone();
    if a.len() > 0 && a[a.len() - 1] != '/' {
        r.push('/');
    }
    let ghost r0 = r@;
    let mut i: usize = 0;
    while i < b.len()
        invariant
            i <= b.len(),
            r@ == r0 + b@.take(i as int),
        decreases b.len() - i,
    {
        r.push(b[i]);
        i = i + 1;
        assert(r@ =~= r0 + b@.take(i as int));
    }
    assert(b@.take(b@.len() as int) =~= b@);
    assert(r@ =~= path_join(a@, b@));
    r
}

/// The places where module `class` may live under `root`: as a package, then as a module.
pub fn class_candidates(root: &str, class: &str) -> (r: (String, String))
    ensures
        r.0@ == package_candidate(root@, class@),
        r.1@ == module_candidate(root@, class@),
{
    let rc = chars_of(root);
    let cc = chars_of(class);
    let mut rel: Vec<char> = Vec::new();
    let mut i: usize = 0;
    while i < cc.len()
        invariant
            i <= cc.len(),
            rel@ == dots_to_slashes(cc@.take(i as int)),
        decreases cc.len() - i,
    {
        rel.push(if cc[i] == '.' { '/' } else { cc[i] });
        i = i + 1;
        assert(rel@ =~= dots_to_slashes(cc@.take(i as int)));
    }
    assert(cc@.take(cc@.len() as int) =~= cc@);
    let init = vec!['_', '_', 'i', 'n', 'i', 't', '_', '_', '.', 'p', 'y'];
    assert(init@ =~= init_py());
    let pkg = join_path(&join_path(&rc, &rel), &init);
    let mut relpy = rel.clone();
    relpy.push('.');
    relpy.push('p');
    relpy.push('y');
    assert(relpy@ =~= rel@ + py_suffix());
    let module = join_path(&rc, &relpy);
    (string_from_chars(&pkg), string_from_chars(&module))
}

/// Reverse of `path_to_class`: the file under `root` that holds module `class`.
///
/// Checks if class is a package (directory with `__init__.py`) first, then module (`.py` file);
/// `path_exists` tells whether a path exists.
pub fn class_to_path<F: Fn(&String) -> bool>(root: &str, class: &str, path_exists: &F) -> (r: Option<String>)
    requires
        forall|s: &String| #[trigger] path_exists.requires((s,)),
    ensures
        match r {
            Some(p) => first_found(*path_exists, seq![package_candidate(root@, class@), module_candidate(root@, class@)], p@),
            None => none_found(*path_exists, seq![package_candidate(root@, class@), module_candidate(root@, class@)]),
        },
{
    let (pkg, module) = class_candidates(root, class);
    let cands = vec![pkg, module];
    let r = first_existing(&cands, path_exists);
    assert(cands@.map_values(|c: String| c@) =~= seq![package_candidate(root@, class@), module_candidate(root@, class@)]);
    r
}

/// The text of `path` relative to `base`, as `Path::strip_prefix` and
/// `to_string_lossy` give it for paths made of plain components.
pub open spec fn rel_text(path: Seq<char>, base: Seq<char>) -> Option<Seq<char>> {
    match strip_path(path, base) {
        Some(cs) => Some(join(cs, '/')),
        None => None,
    }
}

/// The text of `path` relative to `base`, when `path` is under `base`.
pub fn strip_prefix_text(path: &str, base: &str) -> (r: Option<String>)
    ensures
        match r {
            Some(t) => rel_text(path@, base@) == Some(t@),
            None => rel_text(path@, base@) is None,
        },
{
    let b = components(base);
    let p = components(path);
    if !comps_prefix(&b, &p) {
        return None;
    }
    let s = join_exec(&p, b.len(), '/');
    Some(string_from_chars(&s))
}

} // verus!
