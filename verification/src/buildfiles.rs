//! BUILD files that point at changed non-Python files, the Python files they
//! list, and the glob filters on reported paths.
use vstd::prelude::*;
use crate::text::{
    chars_of, string_from_range, has_text, contains_text, trim, trim_char, trim_range, trim_char_range,
    split_on, split_bounds, has_at, matches_at,
};
use crate::paths::{rel_text, strip_prefix_text, ends_with, py_suffix, comps, strip_path, path_starts_with, components,
    starts_with, join};
use crate::text::string_from_chars;
use crate::paths::{path_join, join_path, first_existing, first_found, none_found};
use crate::roots::{render, parent_of, render_exec};
use crate::reasons::{sorted, texts, insert_sorted, lex_lt, lex_less, lemma_lex_irrefl, lemma_lex_trans};
use crate::text::chars_eq;
use crate::strs::{sset, nodup, contains, lemma_empty};

verus! {

/// `glob::Pattern::new` accepts `pattern`.
pub uninterp spec fn glob_compiles(pattern: Seq<char>) -> bool;

/// `glob::Pattern::matches` (default options) says that `text` matches `pattern`.
pub uninterp spec fn glob_matches(pattern: Seq<char>, text: Seq<char>) -> bool;

/// Trusted: `glob::Pattern::new(pattern)`, then `Pattern::matches(text)`. Both are
/// functions of their arguments alone; their answers are named `glob_compiles` and
/// `glob_matches`. `None` when the pattern does not compile.
#[verifier::external_body]
pub(crate) fn glob_match(pattern: &str, text: &str) -> (r: Option<bool>)
    ensures
        match r {
            Some(b) => glob_compiles(pattern@) && b == glob_matches(pattern@, text@),
            None => !glob_compiles(pattern@),
        },
{
    match glob::Pattern::new(pattern) {
        Ok(p) => Some(p.matches(text)),
        Err(_) => None,
    }
}

// ---------------------------------------------------------------------------
// BUILD files that reference changed files
// ---------------------------------------------------------------------------

/// A file named `base` or `base.<anything>` is a BUILD file.
pub open spec fn is_build_name(name: Seq<char>, base: Seq<char>) -> bool {
    name == base || matches_at(name, 0, base + seq!['.'])
}

/// Whether the file name `name` is that of a BUILD file with base name `base`.
pub fn is_build_file_name(name: &str, base: &str) -> (r: bool)
    ensures
        r == is_build_name(name@, base@),
{
    let n = chars_of(name);
    let mut b = chars_of(base);
    let eq = n.len() == b.len() && has_at(&n, 0, &b);
    assert(eq == (n@ == base@)) by {
        if n@ == base@ {
            assert(n@.subrange(0, b@.len() as int) =~= n@);
        }
        if eq {
            assert(n@ =~= n@.subrange(0, b@.len() as int));
        }
    }
    if eq {
        return true;
    }
    b.push('.');
    assert(b@ =~= base@ + seq!['.']);
    has_at(&n, 0, &b)
}

/// A BUILD line read as a glob: trimmed, then stripped of quotes, then of commas.
pub open spec fn glob_of_line(line: Seq<char>) -> Seq<char> {
    trim_char(trim_char(trim(line), '"'), ',')
}

/// A line of `content` is a glob (it holds `*` or `?`) that compiles and matches `rel`.
pub open spec fn some_glob_line_matches(content: Seq<char>, rel: Seq<char>) -> bool {
    exists|i: int| 0 <= i < split_on(content, '\n').len() && {
        let g = glob_of_line(#[trigger] split_on(content, '\n')[i]);
        (g.contains('*') || g.contains('?')) && glob_compiles(g) && glob_matches(g, rel)
    }
}

/// The BUILD file in `build_dir`, with text `content`, found under `root`, refers to
/// the changed file `changed`: the file is under `root`, and its path relative to
/// `root` or to `build_dir` stands in the text, or a glob line of the text matches
/// its path relative to `root`.
pub open spec fn refers_to_changed(content: Seq<char>, root: Seq<char>, build_dir: Seq<char>, changed: Seq<char>) -> bool {
    match rel_text(changed, root) {
        None => false,
        Some(rel) => has_text(content, rel) || (match rel_text(changed, build_dir) {
            Some(r2) => has_text(content, r2),
            None => false,
        }) || some_glob_line_matches(content, rel),
    }
}

/// Whether some glob line of `content` matches `rel`.
fn glob_lines_match(content: &Vec<char>, rel: &String) -> (r: bool)
    ensures
        r == some_glob_line_matches(content@, rel@),
{
    let lines = split_bounds(content, '\n');
    let ghost parts = split_on(content@, '\n');
    let mut i: usize = 0;
    while i < lines.len()
        invariant
            i <= lines@.len() == parts.len(),
            parts == split_on(content@, '\n'),
            forall|k: int| 0 <= k < lines@.len() ==> (#[trigger] lines@[k]).0 <= lines@[k].1 <= content@.len()
                && content@.subrange(lines@[k].0 as int, lines@[k].1 as int) == parts[k],
            forall|k: int| 0 <= k < i ==> !({
                let g = glob_of_line(#[trigger] parts[k]);
                (g.contains('*') || g.contains('?')) && glob_compiles(g) && glob_matches(g, rel@)
            }),
        decreases lines@.len() - i,
    {
        let (lo, hi) = lines[i];
        assert(lines@[i as int] == (lo, hi));
        let (a, z) = trim_range(content, lo, hi);
        let (a2, z2) = trim_char_range(content, a, z, '"');
        let (a3, z3) = trim_char_range(content, a2, z2, ',');
        let ghost g = content@.subrange(a3 as int, z3 as int);
        assert(g == glob_of_line(parts[i as int]));
        let mut wild = false;
        let mut j = a3;
        while j < z3
            invariant
                a3 <= j <= z3 <= content@.len(),
                g == content@.subrange(a3 as int, z3 as int),
                wild == exists|k: int| a3 <= k < j && (content@[k] == '*' || content@[k] == '?'),
            decreases z3 - j,
        {
            if content[j] == '*' || content[j] == '?' {
                wild = true;
            }
            j = j + 1;
        }
        assert(wild == (g.contains('*') || g.contains('?'))) by {
            if wild {
                let k = choose|k: int| a3 <= k < z3 && (content@[k] == '*' || content@[k] == '?');
                assert(g[k - a3] == content@[k]);
            }
            if g.contains('*') {
                let k = choose|k: int| 0 <= k < g.len() && g[k] == '*';
                assert(content@[a3 + k] == g[k]);
            }
            if g.contains('?') {
                let k = choose|k: int| 0 <= k < g.len() && g[k] == '?';
                assert(content@[a3 + k] == g[k]);
            }
        }
        if wild {
            let pat = string_from_range(content, a3, z3);
            match glob_match(pat.as_str(), rel.as_str()) {
                Some(true) => {
                    return true;
                },
                _ => {},
            }
        }
        i = i + 1;
    }
    false
}

/// Whether the BUILD file in `build_dir` with text `content`, found under `root`,
/// refers to the changed file `changed`.
pub fn refers_to_changed_file(content: &Vec<char>, root: &str, build_dir: &str, changed: &String) -> (r: bool)
    ensures
        r == refers_to_changed(content@, root@, build_dir@, changed@),
{
    let rel = match strip_prefix_text(changed.as_str(), root) {
        None => return false,
        Some(t) => t,
    };
    if contains_text(content, &chars_of(rel.as_str())) {
        return true;
    }
    match strip_prefix_text(changed.as_str(), build_dir) {
        Some(r2) => {
            if contains_text(content, &chars_of(r2.as_str())) {
                return true;
            }
        },
        None => {},
    }
    glob_lines_match(content, &rel)
}

/// Whether the BUILD file in `build_dir` with text `content`, found under `root`,
/// refers to any of the changed non-Python files `changed` (by their paths relative
/// to `root` or `build_dir`, or through a glob among its lines).
pub fn build_refers_to_changed(content: &str, root: &str, build_dir: &str, changed: &Vec<String>) -> (r: bool)
    ensures
        r == exists|k: int| 0 <= k < changed@.len() && refers_to_changed(content@, root@, build_dir@, #[trigger] changed@[k]@),
{
    let cs = chars_of(content);
    let mut k: usize = 0;
    while k < changed.len()
        invariant
            k <= changed@.len(),
            cs@ == content@,
            forall|j: int| 0 <= j < k ==> !refers_to_changed(content@, root@, build_dir@, #[trigger] changed@[j]@),
        decreases changed@.len() - k,
    {
        if refers_to_changed_file(&cs, root, build_dir, &changed[k]) {
            return true;
        }
        k = k + 1;
    }
    false
}

/// A BUILD line read as a listed file: trimmed, stripped of commas, trimmed again,
/// then stripped of double and single quotes.
pub open spec fn dep_of_line(line: Seq<char>) -> Seq<char> {
    trim_char(trim_char(trim(trim_char(trim(line), ',')), '"'), '\'')
}

/// A listed Python file: ends with `.py` and is no target reference (no `:`).
pub open spec fn is_listed_py(d: Seq<char>) -> bool {
    ends_with(d, py_suffix()) && !d.contains(':')
}

/// The Python files listed in the lines `lines`, in order.
pub open spec fn listed_in(lines: Seq<Seq<char>>) -> Seq<Seq<char>>
    decreases lines.len(),
{
    if lines.len() == 0 {
        Seq::empty()
    } else if is_listed_py(dep_of_line(lines.last())) {
        listed_in(lines.drop_last()).push(dep_of_line(lines.last()))
    } else {
        listed_in(lines.drop_last())
    }
}

/// The Python files that the BUILD text `content` lists, one per line, in order;
/// they are then looked up under each root.
pub fn listed_python_files(content: &str) -> (r: Vec<String>)
    ensures
        r@.map_values(|x: String| x@) == listed_in(split_on(content@, '\n')),
{
    let cs = chars_of(content);
    let lines = split_bounds(&cs, '\n');
    let ghost parts = split_on(cs@, '\n');
    let mut r: Vec<String> = Vec::new();
    let mut i: usize = 0;
    assert(parts.take(0) =~= Seq::<Seq<char>>::empty());
    while i < lines.len()
        invariant
            i <= lines@.len() == parts.len(),
            parts == split_on(cs@, '\n'),
            cs@ == content@,
            forall|k: int| 0 <= k < lines@.len() ==> (#[trigger] lines@[k]).0 <= lines@[k].1 <= cs@.len()
                && cs@.subrange(lines@[k].0 as int, lines@[k].1 as int) == parts[k],
            r@.map_values(|x: String| x@) == listed_in(parts.take(i as int)),
        decreases lines@.len() - i,
    {
        assert(parts.take(i + 1).drop_last() =~= parts.take(i as int));
        assert(parts.take(i + 1).last() == parts[i as int]);
        let (lo, hi) = lines[i];
        assert(lines@[i as int] == (lo, hi));
        let (a, z) = trim_range(&cs, lo, hi);
        let (a2, z2) = trim_char_range(&cs, a, z, ',');
        let (a3, z3) = trim_range(&cs, a2, z2);
        let (a4, z4) = trim_char_range(&cs, a3, z3, '"');
        let (a5, z5) = trim_char_range(&cs, a4, z4, '\'');
        let ghost d = cs@.subrange(a5 as int, z5 as int);
        assert(d == dep_of_line(parts[i as int]));
        let n = z5 - a5;
        let ends_py = n >= 3 && cs[z5 - 3] == '.' && cs[z5 - 2] == 'p' && cs[z5 - 1] == 'y';
        assert(ends_py == ends_with(d, py_suffix())) by {
            if n >= 3 {
                assert(d.skip(n - 3)[0] == cs@[z5 - 3]);
                assert(d.skip(n - 3)[1] == cs@[z5 - 2]);
                assert(d.skip(n - 3)[2] == cs@[z5 - 1]);
                if ends_py {
                    assert(d.skip(n - 3) =~= py_suffix());
                }
            }
        }
        let mut colon = false;
        let mut j = a5;
        while j < z5
            invariant
                a5 <= j <= z5 <= cs@.len(),
                d == cs@.subrange(a5 as int, z5 as int),
                colon == exists|k: int| a5 <= k < j && cs@[k] == ':',
            decreases z5 - j,
        {
            if cs[j] == ':' {
                colon = true;
            }
            j = j + 1;
        }
        assert(colon == d.contains(':')) by {
            if colon {
                let k = choose|k: int| a5 <= k < z5 && cs@[k] == ':';
                assert(d[k - a5] == cs@[k]);
            }
            if d.contains(':') {
                let k = choose|k: int| 0 <= k < d.len() && d[k] == ':';
                assert(cs@[a5 + k] == d[k]);
            }
        }
        if ends_py && !colon {
            let ghost before = r@.map_values(|x: String| x@);
            r.push(string_from_range(&cs, a5, z5));
            assert(r@.map_values(|x: String| x@) =~= before.push(d));
        }
        i = i + 1;
    }
    assert(parts.take(parts.len() as int) =~= parts);
    r
}

/// The place of `dep` under each of `roots`, in order.
pub open spec fn cands_of(roots: Seq<Seq<char>>, dep: Seq<char>) -> Seq<Seq<char>> {
    roots.map_values(|q: Seq<char>| path_join(q, dep))
}

/// `out` holds, in order, each of the listed files `deps` under the first of
/// `roots` where `f` found it; a file found under no root is left out.
pub open spec fn owned_listed<E: Fn(&String) -> bool>(f: E, roots: Seq<Seq<char>>, deps: Seq<Seq<char>>, out: Seq<Seq<char>>) -> bool
    decreases deps.len(),
{
    if deps.len() == 0 {
        out.len() == 0
    } else {
        (none_found(f, cands_of(roots, deps.last())) && owned_listed(f, roots, deps.drop_last(), out))
        || (out.len() > 0 && first_found(f, cands_of(roots, deps.last()), out.last())
            && owned_listed(f, roots, deps.drop_last(), out.drop_last()))
    }
}

/// A file name with the extension `py`: it ends in `.py`, with something before the dot.
pub open spec fn is_py_name(n: Seq<char>) -> bool {
    n.len() > 3 && ends_with(n, py_suffix())
}

/// The Python files among the file names `names` of the directory `d`, as paths, in order.
pub open spec fn py_files_of(d: Seq<char>, names: Seq<Seq<char>>) -> Seq<Seq<char>>
    decreases names.len(),
{
    if names.len() == 0 {
        Seq::empty()
    } else if is_py_name(names.last()) {
        py_files_of(d, names.drop_last()).push(path_join(d, names.last()))
    } else {
        py_files_of(d, names.drop_last())
    }
}

/// The file name `n` has the extension `py`.
pub fn is_py_file_name(n: &String) -> (r: bool)
    ensures
        r == is_py_name(n@),
{
    let cs = chars_of(n.as_str());
    let k = cs.len();
    let r = k > 3 && cs[k - 3] == '.' && cs[k - 2] == 'p' && cs[k - 1] == 'y';
    assert(r == is_py_name(n@)) by {
        if k > 3 {
            let t = cs@.skip(k - 3);
            assert(t[0] == cs@[k - 3] && t[1] == cs@[k - 2] && t[2] == cs@[k - 1]);
            if r {
                assert(t =~= py_suffix());
            }
        }
    }
    r
}

/// `dep` under the first of `roots` where `is_file` finds it.
fn first_root_with<E: Fn(&String) -> bool>(roots: &Vec<String>, dep: &String, is_file: &E) -> (r: Option<String>)
    requires
        forall|s: &String| #[trigger] is_file.requires((s,)),
    ensures
        match r {
            Some(p) => first_found(*is_file, cands_of(texts(roots@), dep@), p@),
            None => none_found(*is_file, cands_of(texts(roots@), dep@)),
        },
{
    let dc = chars_of(dep.as_str());
    let ghost rv = texts(roots@);
    let mut cands: Vec<String> = Vec::new();
    let mut i: usize = 0;
    while i < roots.len()
        invariant
            i <= roots@.len(),
            rv == texts(roots@),
            dc@ == dep@,
            texts(cands@) == cands_of(rv.take(i as int), dep@),
        decreases roots@.len() - i,
    {
        let ghost before = texts(cands@);
        cands.push(string_from_chars(&join_path(&chars_of(roots[i].as_str()), &dc)));
        assert(texts(cands@) =~= cands_of(rv.take(i + 1), dep@)) by {
            assert(texts(cands@) =~= before.push(path_join(roots@[i as int]@, dep@)));
        }
        i = i + 1;
    }
    assert(rv.take(rv.len() as int) =~= rv);
    assert(cands@.map_values(|c: String| c@) =~= texts(cands@));
    first_existing(&cands, is_file)
}

/// The Python files that a BUILD file in `build_dir`, of the text `content`,
/// owns: each file it lists, under the first of `roots` where `is_file` finds
/// it, then each Python file of `build_dir` that `dir_files` lists.
pub fn owned_python_files<E: Fn(&String) -> bool, D: Fn(&String) -> Vec<String>>(
    build_dir: &str,
    content: &str,
    roots: &Vec<String>,
    is_file: &E,
    dir_files: &D,
) -> (r: Vec<String>)
    requires
        forall|s: &String| #[trigger] is_file.requires((s,)),
        forall|s: &String| #[trigger] dir_files.requires((s,)),
    ensures
        exists|k: int, names: Seq<Seq<char>>| 0 <= k <= r@.len()
            && #[trigger] owned_listed(*is_file, texts(roots@), listed_in(split_on(content@, '\n')), texts(r@).take(k))
            && #[trigger] listed(*dir_files, build_dir@, names)
            && texts(r@).skip(k) == py_files_of(build_dir@, names),
{
    let deps = listed_python_files(content);
    let ghost dv = listed_in(split_on(content@, '\n'));
    let ghost rv = texts(roots@);
    assert(texts(deps@) =~= dv);
    let mut r: Vec<String> = Vec::new();
    let mut i: usize = 0;
    assert(dv.take(0) =~= Seq::<Seq<char>>::empty());
    while i < deps.len()
        invariant
            i <= deps@.len(),
            texts(deps@) == dv,
            rv == texts(roots@),
            forall|s: &String| #[trigger] is_file.requires((s,)),
            owned_listed(*is_file, rv, dv.take(i as int), texts(r@)),
        decreases deps@.len() - i,
    {
        let ghost before = texts(r@);
        assert(dv.take(i + 1).drop_last() =~= dv.take(i as int));
        assert(dv.take(i + 1).last() == deps@[i as int]@);
        match first_root_with(roots, &deps[i], is_file) {
            Some(p) => {
                r.push(p);
                assert(texts(r@).drop_last() =~= before);
            },
            None => {},
        }
        i = i + 1;
    }
    assert(dv.take(dv.len() as int) =~= dv);
    let k = r.len();
    let ghost head = texts(r@);
    let bd = build_dir.to_string();
    let names = dir_files(&bd);
    let ghost nv = texts(names@);
    assert(listed(*dir_files, build_dir@, nv)) by {
        assert(names@.map_values(|x: String| x@) =~= nv);
    }
    let d = chars_of(build_dir);
    let mut j: usize = 0;
    assert(nv.take(0) =~= Seq::<Seq<char>>::empty());
    assert(texts(r@).skip(k as int) =~= Seq::<Seq<char>>::empty());
    while j < names.len()
        invariant
            j <= names@.len(),
            nv == texts(names@),
            d@ == build_dir@,
            k <= r@.len(),
            texts(r@).take(k as int) == head,
            texts(r@).skip(k as int) == py_files_of(build_dir@, nv.take(j as int)),
        decreases names@.len() - j,
    {
        let ghost before = texts(r@);
        assert(nv.take(j + 1).drop_last() =~= nv.take(j as int));
        assert(nv.take(j + 1).last() == names@[j as int]@);
        if is_py_file_name(&names[j]) {
            r.push(string_from_chars(&join_path(&d, &chars_of(names[j].as_str()))));
            assert(texts(r@).take(k as int) =~= before.take(k as int));
            assert(texts(r@).skip(k as int) =~= before.skip(k as int).push(path_join(build_dir@, nv[j as int])));
        }
        j = j + 1;
    }
    assert(nv.take(nv.len() as int) =~= nv);
    assert(owned_listed(*is_file, rv, dv, texts(r@).take(k as int)));
    r
}

// ---------------------------------------------------------------------------
// Filters on reported paths
// ---------------------------------------------------------------------------

/// A component as `Path::components` writes it: the root as `/`.
pub open spec fn comp_text(c: Seq<char>) -> Seq<char> {
    if c.len() == 0 {
        seq!['/']
    } else {
        c
    }
}

/// The path shown for `path` relative to `cwd`: its components under `cwd`,
/// or `path` itself when it is not under `cwd`.
pub open spec fn shown_path(path: Seq<char>, cwd: Seq<char>) -> Seq<char> {
    match rel_text(path, cwd) {
        Some(r) => r,
        None => path,
    }
}

/// The components of `path` relative to `cwd` (all of them when it is not under `cwd`).
pub open spec fn shown_comps(path: Seq<char>, cwd: Seq<char>) -> Seq<Seq<char>> {
    match strip_path(path, cwd) {
        Some(cs) => cs,
        None => comps(path),
    }
}

/// The last component of `path`, as `Path::file_name` gives it, or empty when
/// there is none (the root, `..`, or nothing).
pub open spec fn base_name(path: Seq<char>) -> Seq<char> {
    let cs = comps(path);
    if cs.len() > 0 && cs.last().len() > 0 && cs.last() != seq!['.', '.'] {
        cs.last()
    } else {
        Seq::empty()
    }
}

/// The glob `p` compiles and matches the shown path, the file name, or a component
/// of the shown path.
pub open spec fn pattern_hits(p: Seq<char>, path: Seq<char>, cwd: Seq<char>) -> bool {
    glob_compiles(p) && (glob_matches(p, shown_path(path, cwd)) || glob_matches(p, base_name(path))
        || exists|i: int| 0 <= i < shown_comps(path, cwd).len()
            && glob_matches(p, comp_text(#[trigger] shown_comps(path, cwd)[i])))
}

/// Some glob of `pats` hits `path`.
pub open spec fn any_hits(pats: Seq<String>, path: Seq<char>, cwd: Seq<char>) -> bool {
    exists|k: int| 0 <= k < pats.len() && pattern_hits(#[trigger] pats[k]@, path, cwd)
}

/// Whether the glob `p` hits `path`.
fn hits(p: &String, path: &str, cwd: &str) -> (r: bool)
    ensures
        r == pattern_hits(p@, path@, cwd@),
{
    let shown = match strip_prefix_text(path, cwd) {
        Some(t) => t,
        None => path.to_owned(),
    };
    match glob_match(p.as_str(), shown.as_str()) {
        None => return false,
        Some(true) => return true,
        Some(false) => {},
    }
    let pc = components(path);
    let ghost pcv = pc@.map_values(|c: Vec<char>| c@);
    let base: Vec<char> = if pc.len() > 0 && pc[pc.len() - 1].len() > 0
        && !(pc[pc.len() - 1].len() == 2 && pc[pc.len() - 1][0] == '.' && pc[pc.len() - 1][1] == '.') {
        pc[pc.len() - 1].clone()
    } else {
        Vec::new()
    };
    assert(base@ == base_name(path@)) by {
        if pcv.len() > 0 {
            assert(pcv.last() == pc@[pc@.len() - 1]@);
            if pcv.last().len() == 2 && pcv.last()[0] == '.' && pcv.last()[1] == '.' {
                assert(pcv.last() =~= seq!['.', '.']);
            }
        }
    }
    let bs = string_from_chars(&base);
    match glob_match(p.as_str(), bs.as_str()) {
        Some(true) => {
            assert(bs@ == base_name(path@));
            assert(glob_matches(p@, base_name(path@)));
            return true;
        },
        _ => {},
    }
    let from: usize = if starts_with(path, cwd) { components(cwd).len() } else { 0 };
    let ghost sc = shown_comps(path@, cwd@);
    assert(pcv.skip(from as int) =~= sc);
    let mut i = from;
    while i < pc.len()
        invariant
            from <= i <= pc@.len(),
            pcv == pc@.map_values(|c: Vec<char>| c@),
            pcv.skip(from as int) == sc,
            sc == shown_comps(path@, cwd@),
            glob_compiles(p@),
            forall|j: int| 0 <= j < i - from ==> !glob_matches(p@, comp_text(#[trigger] sc[j])),
        decreases pc@.len() - i,
    {
        let t: Vec<char> = if pc[i].len() == 0 { vec!['/'] } else { pc[i].clone() };
        assert(sc[i - from] == pc@[i as int]@);
        assert(t@ =~= comp_text(sc[i - from]));
        let ts = string_from_chars(&t);
        match glob_match(p.as_str(), ts.as_str()) {
            Some(true) => {
                assert(glob_matches(p@, comp_text(shown_comps(path@, cwd@)[i - from])));
                assert(pattern_hits(p@, path@, cwd@));
                return true;
            },
            _ => {},
        }
        i = i + 1;
    }
    false
}

/// Whether some glob of `pats` hits `path`.
fn any_pattern_hits(path: &str, cwd: &str, pats: &Vec<String>) -> (r: bool)
    ensures
        r == any_hits(pats@, path@, cwd@),
{
    let mut k: usize = 0;
    while k < pats.len()
        invariant
            k <= pats@.len(),
            forall|j: int| 0 <= j < k ==> !pattern_hits(#[trigger] pats@[j]@, path@, cwd@),
        decreases pats@.len() - k,
    {
        if hits(&pats[k], path, cwd) {
            return true;
        }
        k = k + 1;
    }
    false
}

/// Whether an exclude glob hits `path` (its path relative to `cwd`, its file name,
/// or one of its components); nothing is excluded without globs.
pub fn should_exclude(path: &str, cwd: &str, excludes: &Vec<String>) -> (r: bool)
    ensures
        r == (excludes@.len() > 0 && any_hits(excludes@, path@, cwd@)),
{
    if excludes.len() == 0 {
        return false;
    }
    any_pattern_hits(path, cwd, excludes)
}

/// Whether a filter glob hits `path`; everything is included without filters.
pub fn should_include(path: &str, cwd: &str, filters: &Vec<String>) -> (r: bool)
    ensures
        r == (filters@.len() == 0 || any_hits(filters@, path@, cwd@)),
{
    if filters.len() == 0 {
        return true;
    }
    any_pattern_hits(path, cwd, filters)
}

/// The path as reported: relative to `cwd` when asked and possible, else as given.
pub fn format_path(path: &str, cwd: &str, relative: bool) -> (r: String)
    ensures
        r@ == (if relative { shown_path(path@, cwd@) } else { path@ }),
{
    if relative {
        match strip_prefix_text(path, cwd) {
            Some(t) => t,
            None => path.to_owned(),
        }
    } else {
        path.to_owned()
    }
}


// ---------------------------------------------------------------------------
// The BUILD files that own a file
// ---------------------------------------------------------------------------

/// Some call of `f` on the directory `d` listed the file names `names`.
pub open spec fn listed<F: Fn(&String) -> Vec<String>>(f: F, d: Seq<char>, names: Seq<Seq<char>>) -> bool {
    exists|s: String, out: Vec<String>| s@ == d && #[trigger] f.ensures((&s,), out)
        && out@.map_values(|x: String| x@) == names
}

/// The BUILD files among the file names `names` of the directory `d`, as paths.
pub open spec fn build_paths(d: Seq<char>, names: Seq<Seq<char>>, base: Seq<char>) -> Set<Seq<char>> {
    Set::new(|p: Seq<char>| exists|i: int| 0 <= i < names.len() && is_build_name(#[trigger] names[i], base)
        && p == path_join(d, names[i]))
}

/// A listing of the directory `d` held the BUILD files `found` (none, when empty).
pub open spec fn found_in<F: Fn(&String) -> Vec<String>>(f: F, d: Seq<char>, base: Seq<char>, found: Set<Seq<char>>) -> bool {
    exists|names: Seq<Seq<char>>| #[trigger] listed(f, d, names) && build_paths(d, names, base) == found
}

/// Walking up from `start` to `end`, every directory below `end` was listed without a BUILD file.
pub open spec fn walked_to<F: Fn(&String) -> Vec<String>>(
    f: F,
    start: Seq<Seq<char>>,
    end: Seq<Seq<char>>,
    base: Seq<char>,
) -> bool {
    &&& end.len() <= start.len() && start.take(end.len() as int) == end
    &&& forall|k: int| end.len() < k <= start.len() ==> found_in(f, render(#[trigger] start.take(k)), base, Set::empty())
}

/// Walking up from the directory `start`, `r` holds the BUILD files of the
/// first directory that has any, or nothing when no directory up to the top has one.
pub open spec fn build_search<F: Fn(&String) -> Vec<String>>(
    f: F,
    start: Seq<Seq<char>>,
    base: Seq<char>,
    r: Seq<String>,
) -> bool {
    exists|end: Seq<Seq<char>>| #[trigger] walked_to(f, start, end, base) && found_in(f, render(end), base, sset(r))
        && (r.len() == 0 ==> parent_of(end) is None)
}

/// The BUILD files among the file names `names` of the directory `dir`, as
/// paths, in order, each once.
fn build_files_in(dir: &String, names: &Vec<String>, base: &str) -> (r: Vec<String>)
    ensures
        sset(r@) == build_paths(dir@, texts(names@), base@),
        sorted(texts(r@)),
        nodup(r@),
{
    let mut r: Vec<String> = Vec::new();
    proof { lemma_empty(); }
    let d = chars_of(dir.as_str());
    let ghost ns = texts(names@);
    let mut i: usize = 0;
    while i < names.len()
        invariant
            i <= names@.len(),
            d@ == dir@,
            ns == texts(names@),
            sset(r@) == build_paths(dir@, ns.take(i as int), base@),
            sorted(texts(r@)),
            nodup(r@),
        decreases names@.len() - i,
    {
        let ghost before = sset(r@);
        assert(ns.take(i + 1).drop_last() =~= ns.take(i as int));
        assert(ns[i as int] == names@[i as int]@);
        if is_build_file_name(names[i].as_str(), base) {
            let p = string_from_chars(&join_path(&d, &chars_of(names[i].as_str())));
            if !contains(&r, &p) {
                let ghost old_r = r@;
                insert_sorted(&mut r, p);
                proof {
                    lemma_sorted_insert_set(old_r, r@, p);
                }
            }
        }
        assert(sset(r@) =~= build_paths(dir@, ns.take(i + 1), base@)) by {
            assert forall|q: Seq<char>| build_paths(dir@, ns.take(i + 1), base@).contains(q) implies sset(r@).contains(q) by {
                let k = choose|k: int| 0 <= k < i + 1 && is_build_name(#[trigger] ns.take(i + 1)[k], base@)
                    && q == path_join(dir@, ns.take(i + 1)[k]);
                if k < i {
                    assert(ns.take(i as int)[k] == ns.take(i + 1)[k]);
                    assert(build_paths(dir@, ns.take(i as int), base@).contains(q));
                }
            }
            assert forall|q: Seq<char>| sset(r@).contains(q) implies build_paths(dir@, ns.take(i + 1), base@).contains(q) by {
                if before.contains(q) {
                    let k = choose|k: int| 0 <= k < i && is_build_name(#[trigger] ns.take(i as int)[k], base@)
                        && q == path_join(dir@, ns.take(i as int)[k]);
                    assert(ns.take(i as int)[k] == ns.take(i + 1)[k]);
                } else {
                    assert(ns.take(i + 1)[i as int] == ns[i as int]);
                }
            }
        }
        i = i + 1;
    }
    assert(ns.take(ns.len() as int) =~= ns);
    r
}

/// After a sorted insertion of a new text, the vector holds it besides what it held.
proof fn lemma_sorted_insert_set(old_v: Seq<String>, v: Seq<String>, x: String)
    requires
        texts(v).to_multiset() == texts(old_v).to_multiset().insert(x@),
        nodup(old_v),
        !sset(old_v).contains(x@),
    ensures
        sset(v) == sset(old_v).insert(x@),
        nodup(v),
{
    broadcast use vstd::seq_lib::group_to_multiset_ensures;
    broadcast use vstd::seq_lib::to_multiset_contains;
    let tv = texts(v);
    let to = texts(old_v);
    assert forall|q: Seq<char>| sset(v).contains(q) <==> sset(old_v).insert(x@).contains(q) by {
        if sset(v).contains(q) {
            let k = choose|k: int| 0 <= k < v.len() && v[k]@ == q;
            assert(tv[k] == q);
            assert(tv.to_multiset().count(q) > 0);
            if q != x@ {
                assert(to.to_multiset().count(q) > 0);
                assert(to.contains(q));
                let j = choose|j: int| 0 <= j < to.len() && to[j] == q;
                assert(old_v[j]@ == q);
            }
        }
        if sset(old_v).insert(x@).contains(q) {
            if q == x@ {
                assert(tv.to_multiset().count(q) > 0);
            } else {
                let j = choose|j: int| 0 <= j < old_v.len() && old_v[j]@ == q;
                assert(to[j] == q);
                assert(to.to_multiset().count(q) > 0);
            }
            assert(tv.to_multiset().count(q) > 0);
            assert(tv.contains(q));
            let k = choose|k: int| 0 <= k < tv.len() && tv[k] == q;
            assert(v[k]@ == q);
        }
    }
    assert(sset(v) =~= sset(old_v).insert(x@));
    assert(to.no_duplicates()) by {
        assert forall|i: int, j: int| 0 <= i < to.len() && 0 <= j < to.len() && i != j implies to[i] != to[j] by {
            assert(to[i] == old_v[i]@ && to[j] == old_v[j]@);
        }
    }
    to.lemma_multiset_has_no_duplicates();
    assert(!to.contains(x@)) by {
        if to.contains(x@) {
            let j = choose|j: int| 0 <= j < to.len() && to[j] == x@;
            assert(old_v[j]@ == x@);
        }
    }
    assert forall|q: Seq<char>| tv.to_multiset().contains(q) implies tv.to_multiset().count(q) == 1 by {
        if q != x@ {
            assert(to.to_multiset().count(q) > 0);
        } else {
            assert(to.to_multiset().count(q) == 0);
        }
    }
    tv.lemma_multiset_has_no_duplicates_conv();
    assert forall|a: int, b: int| 0 <= a < v.len() && 0 <= b < v.len() && a != b implies v[a]@ != v[b]@ by {
        assert(tv[a] == v[a]@ && tv[b] == v[b]@);
    }
}

/// Find all build files for a file by walking up from its directory: the
/// files named `base_name` or `base_name.<anything>` of the nearest directory
/// that has any, in order. `dir_files` lists the names of the files of a directory.
pub fn find_build_files<F: Fn(&String) -> Vec<String>>(path: &str, base_name: &str, dir_files: &F) -> (r: Vec<String>)
    requires
        forall|s: &String| #[trigger] dir_files.requires((s,)),
    ensures
        match parent_of(comps(path@)) {
            None => r@.len() == 0,
            Some(start) => build_search(*dir_files, start, base_name@, r@),
        },
        sorted(texts(r@)),
        nodup(r@),
{
    let cs = components(path);
    let ghost all = cs@.map_values(|c: Vec<char>| c@);
    let n = cs.len();
    if n == 0 || cs[n - 1].len() == 0 {
        proof {
            if n > 0 {
                assert(all.last() == cs@[n - 1]@);
            }
        }
        let r: Vec<String> = Vec::new();
        return r;
    }
    assert(all.last() == cs@[n - 1]@);
    let mut current = cs;
    current.pop();
    let ghost start = current@.map_values(|c: Vec<char>| c@);
    assert(start =~= all.drop_last());
    assert(start.take(start.len() as int) =~= start);
    loop
        invariant
            forall|s: &String| #[trigger] dir_files.requires((s,)),
            start == all.drop_last(),
            all == comps(path@),
            all.len() > 0 && all.last().len() > 0,
            current@.len() <= start.len(),
            start.take(current@.len() as int) == current@.map_values(|c: Vec<char>| c@),
            forall|k: int| current@.len() < k <= start.len() ==>
                found_in(*dir_files, render(#[trigger] start.take(k)), base_name@, Set::empty()),
        decreases current@.len(),
    {
        let ghost cv = current@.map_values(|c: Vec<char>| c@);
        let rendered = render_exec(&current);
        let names = dir_files(&rendered);
        let found = build_files_in(&rendered, &names, base_name);
        proof {
            assert(listed(*dir_files, render(cv), texts(names@)));
            assert(found_in(*dir_files, render(cv), base_name@, sset(found@)));
            assert(walked_to(*dir_files, start, cv, base_name@));
        }
        if found.len() > 0 {
            return found;
        }
        proof {
            assert(sset(found@) =~= Set::<Seq<char>>::empty());
        }
        let m = current.len();
        if m == 0 || current[m - 1].len() == 0 {
            assert(parent_of(cv) is None) by {
                if m > 0 {
                    assert(cv.last() == current@[m - 1]@);
                }
            }
            return found;
        }
        assert(cv.last() == current@[m - 1]@);
        current.pop();
        assert(current@.map_values(|c: Vec<char>| c@) =~= cv.drop_last());
        assert(start.take(m - 1) =~= start.take(m as int).drop_last());
    }
}


// ---------------------------------------------------------------------------
// Paths in order
// ---------------------------------------------------------------------------

/// How a path component ranks before its text counts: the root first, then
/// `..`, then names.
pub open spec fn comp_rank(c: Seq<char>) -> int {
    if c.len() == 0 {
        0
    } else if c == seq!['.', '.'] {
        1
    } else {
        2
    }
}

/// Component `x` comes before component `y`.
pub open spec fn comp_lt(x: Seq<char>, y: Seq<char>) -> bool {
    comp_rank(x) < comp_rank(y) || (comp_rank(x) == 2 && comp_rank(y) == 2 && lex_lt(x, y))
}

/// The components `a` come before the components `b`, component by component,
/// a proper prefix first.
pub open spec fn comps_lt(a: Seq<Seq<char>>, b: Seq<Seq<char>>) -> bool
    decreases a.len(),
{
    if a.len() == 0 {
        b.len() > 0
    } else if b.len() == 0 {
        false
    } else if a[0] != b[0] {
        comp_lt(a[0], b[0])
    } else {
        comps_lt(a.skip(1), b.skip(1))
    }
}

/// The path `a` comes before the path `b`, as paths are ordered: by their components.
pub open spec fn path_lt(a: Seq<char>, b: Seq<char>) -> bool {
    comps_lt(comps(a), comps(b))
}

/// `s` is in increasing path order.
pub open spec fn paths_sorted(s: Seq<Seq<char>>) -> bool {
    forall|i: int, j: int| 0 <= i < j < s.len() ==> !path_lt(#[trigger] s[j], #[trigger] s[i])
}

proof fn lemma_comp_irrefl(x: Seq<char>)
    ensures
        !comp_lt(x, x),
{
    lemma_lex_irrefl(x);
}

proof fn lemma_comp_trans(x: Seq<char>, y: Seq<char>, z: Seq<char>)
    requires
        comp_lt(x, y),
        comp_lt(y, z),
    ensures
        comp_lt(x, z),
{
    if comp_rank(x) == 2 && comp_rank(y) == 2 && comp_rank(z) == 2 {
        lemma_lex_trans(x, y, z);
    }
}

proof fn lemma_comps_irrefl(a: Seq<Seq<char>>)
    ensures
        !comps_lt(a, a),
    decreases a.len(),
{
    if a.len() > 0 {
        lemma_comps_irrefl(a.skip(1));
    }
}

proof fn lemma_comps_trans(a: Seq<Seq<char>>, b: Seq<Seq<char>>, c: Seq<Seq<char>>)
    requires
        comps_lt(a, b),
        comps_lt(b, c),
    ensures
        comps_lt(a, c),
    decreases a.len(),
{
    if a.len() > 0 && b.len() > 0 && c.len() > 0 {
        if a[0] == b[0] && b[0] == c[0] {
            lemma_comps_trans(a.skip(1), b.skip(1), c.skip(1));
        } else if a[0] != b[0] && b[0] != c[0] {
            lemma_comp_trans(a[0], b[0], c[0]);
            if a[0] == c[0] {
                lemma_comp_trans(c[0], b[0], c[0]);
                lemma_comp_irrefl(c[0]);
            }
        }
    }
}

/// Whether component `x` comes before component `y`.
fn comp_less(x: &Vec<char>, y: &Vec<char>) -> (r: bool)
    ensures
        r == comp_lt(x@, y@),
{
    let rx: u8 = if x.len() == 0 { 0 } else if x.len() == 2 && x[0] == '.' && x[1] == '.' { 1 } else { 2 };
    let ry: u8 = if y.len() == 0 { 0 } else if y.len() == 2 && y[0] == '.' && y[1] == '.' { 1 } else { 2 };
    assert(rx as int == comp_rank(x@)) by {
        if x@ == seq!['.', '.'] {
            assert(x@.len() == 2 && x@[0] == '.' && x@[1] == '.');
        }
        if x.len() == 2 && x[0] == '.' && x[1] == '.' {
            assert(x@ =~= seq!['.', '.']);
        }
    }
    assert(ry as int == comp_rank(y@)) by {
        if y@ == seq!['.', '.'] {
            assert(y@.len() == 2 && y@[0] == '.' && y@[1] == '.');
        }
        if y.len() == 2 && y[0] == '.' && y[1] == '.' {
            assert(y@ =~= seq!['.', '.']);
        }
    }
    rx < ry || (rx == 2 && ry == 2 && lex_less(x, y))
}

/// Whether the path `a` comes before the path `b`.
fn path_less(a: &String, b: &String) -> (r: bool)
    ensures
        r == path_lt(a@, b@),
{
    let ca = components(a.as_str());
    let cb = components(b.as_str());
    let ghost va = ca@.map_values(|c: Vec<char>| c@);
    let ghost vb = cb@.map_values(|c: Vec<char>| c@);
    let mut i: usize = 0;
    assert(va.skip(0) =~= va);
    assert(vb.skip(0) =~= vb);
    while i < ca.len() && i < cb.len() && chars_eq(&ca[i], &cb[i])
        invariant
            i <= ca@.len(),
            i <= cb@.len(),
            va == ca@.map_values(|c: Vec<char>| c@),
            vb == cb@.map_values(|c: Vec<char>| c@),
            comps_lt(va, vb) == comps_lt(va.skip(i as int), vb.skip(i as int)),
        decreases ca@.len() - i,
    {
        assert(va.skip(i as int)[0] == va[i as int]);
        assert(vb.skip(i as int)[0] == vb[i as int]);
        assert(va.skip(i as int).skip(1) =~= va.skip(i + 1));
        assert(vb.skip(i as int).skip(1) =~= vb.skip(i + 1));
        i = i + 1;
    }
    if i == ca.len() {
        i < cb.len()
    } else if i == cb.len() {
        false
    } else {
        assert(va.skip(i as int)[0] == va[i as int]);
        assert(vb.skip(i as int)[0] == vb[i as int]);
        comp_less(&ca[i], &cb[i])
    }
}

/// Inserts the path `x` into the path-sorted `v`, after the entries that do not come after it.
fn insert_path_sorted(v: &mut Vec<String>, x: String)
    requires
        paths_sorted(texts(old(v)@)),
    ensures
        paths_sorted(texts(final(v)@)),
        texts(final(v)@).to_multiset() == texts(old(v)@).to_multiset().insert(x@),
{
    let mut p: usize = 0;
    while p < v.len() && !path_less(&x, &v[p])
        invariant
            p <= v@.len(),
            forall|i: int| 0 <= i < p ==> !path_lt(x@, #[trigger] v@[i]@),
        decreases v@.len() - p,
    {
        p = p + 1;
    }
    let ghost before = texts(v@);
    let ghost xv = x@;
    v.insert(p, x);
    assert(texts(v@) =~= before.insert(p as int, xv));
    proof {
        broadcast use vstd::seq_lib::to_multiset_insert;
        let s = texts(v@);
        assert forall|i: int, j: int| 0 <= i < j < s.len() implies !path_lt(#[trigger] s[j], #[trigger] s[i]) by {
            if i < p && j < p {
                assert(s[i] == before[i] && s[j] == before[j]);
            } else if i < p && j == p {
                assert(s[i] == before[i]);
            } else if i < p && j > p {
                assert(s[i] == before[i] && s[j] == before[j - 1]);
                assert(!path_lt(xv, before[i]));
                if path_lt(s[j], s[i]) {
                    assert(false);
                }
            } else if i == p {
                assert(s[j] == before[j - 1]);
                assert(path_lt(xv, before[p as int]));
                if path_lt(before[j - 1], xv) {
                    lemma_comps_trans(comps(before[j - 1]), comps(xv), comps(before[p as int]));
                    if p == j - 1 {
                        lemma_comps_irrefl(comps(before[p as int]));
                    }
                }
            } else {
                assert(s[i] == before[i - 1] && s[j] == before[j - 1]);
            }
        }
    }
}


/// `found` holds, for each of `paths`, the BUILD files found for it.
pub open spec fn searched<F: Fn(&String) -> Vec<String>>(
    f: F,
    paths: Seq<String>,
    base: Seq<char>,
    found: Seq<Seq<String>>,
) -> bool {
    &&& found.len() == paths.len()
    &&& forall|i: int| 0 <= i < paths.len() ==> match parent_of(comps(paths[i]@)) {
        None => (#[trigger] found[i]).len() == 0,
        Some(start) => build_search(f, start, base, found[i]),
    }
}

/// Every path held by one of `found`.
pub open spec fn union_found(found: Seq<Seq<String>>) -> Set<Seq<char>> {
    Set::new(|p: Seq<char>| exists|i: int| 0 <= i < found.len() && #[trigger] sset(found[i]).contains(p))
}

/// Collect the BUILD files of a set of paths: each once, in path order.
pub fn collect_build_files<F: Fn(&String) -> Vec<String>>(paths: &Vec<String>, base_name: &str, dir_files: &F) -> (r: Vec<String>)
    requires
        forall|s: &String| #[trigger] dir_files.requires((s,)),
    ensures
        exists|found: Seq<Seq<String>>| #[trigger] searched(*dir_files, paths@, base_name@, found)
            && sset(r@) == union_found(found),
        paths_sorted(texts(r@)),
        nodup(r@),
{
    let mut r: Vec<String> = Vec::new();
    proof { lemma_empty(); }
    let ghost mut found: Seq<Seq<String>> = Seq::empty();
    let mut i: usize = 0;
    assert(union_found(found) =~= Set::<Seq<char>>::empty());
    while i < paths.len()
        invariant
            i <= paths@.len(),
            forall|s: &String| #[trigger] dir_files.requires((s,)),
            searched(*dir_files, paths@.take(i as int), base_name@, found),
            sset(r@) == union_found(found),
            paths_sorted(texts(r@)),
            nodup(r@),
        decreases paths@.len() - i,
    {
        let fi = find_build_files(paths[i].as_str(), base_name, dir_files);
        let ghost base_set = sset(r@);
        let mut k: usize = 0;
        while k < fi.len()
            invariant
                k <= fi@.len(),
                sset(r@) == base_set.union(sset(fi@.take(k as int))),
                paths_sorted(texts(r@)),
                nodup(r@),
            decreases fi@.len() - k,
        {
            proof {
                assert(fi@.take(k + 1) =~= fi@.take(k as int).push(fi@[k as int]));
                crate::strs::lemma_sset_push(fi@.take(k as int), fi@[k as int]);
            }
            if !contains(&r, &fi[k]) {
                let ghost old_r = r@;
                insert_path_sorted(&mut r, fi[k].clone());
                proof { lemma_sorted_insert_set(old_r, r@, fi@[k as int]); }
            }
            assert(sset(r@) =~= base_set.union(sset(fi@.take(k + 1))));
            k = k + 1;
        }
        assert(fi@.take(fi@.len() as int) =~= fi@);
        let ghost old_found = found;
        proof {
            found = found.push(fi@);
            assert(paths@.take(i + 1) =~= paths@.take(i as int).push(paths@[i as int]));
            assert forall|j: int| 0 <= j < paths@.take(i + 1).len() implies match parent_of(comps(paths@.take(i + 1)[j]@)) {
                None => (#[trigger] found[j]).len() == 0,
                Some(start) => build_search(*dir_files, start, base_name@, found[j]),
            } by {
                if j < i {
                    assert(found[j] == old_found[j]);
                    assert(paths@.take(i + 1)[j] == paths@.take(i as int)[j]);
                }
            }
            assert(union_found(found) =~= union_found(old_found).union(sset(fi@))) by {
                assert forall|q: Seq<char>| union_found(found).contains(q) implies union_found(old_found).union(sset(fi@)).contains(q) by {
                    let j = choose|j: int| 0 <= j < found.len() && #[trigger] sset(found[j]).contains(q);
                    if j < old_found.len() {
                        assert(found[j] == old_found[j]);
                    }
                }
                assert forall|q: Seq<char>| union_found(old_found).union(sset(fi@)).contains(q) implies union_found(found).contains(q) by {
                    if union_found(old_found).contains(q) {
                        let j = choose|j: int| 0 <= j < old_found.len() && #[trigger] sset(old_found[j]).contains(q);
                        assert(found[j] == old_found[j]);
                    } else {
                        assert(found[old_found.len() as int] == fi@);
                    }
                }
            }
        }
        i = i + 1;
    }
    assert(paths@.take(paths@.len() as int) =~= paths@);
    r
}


/// Some call of `g` on the path `p` gave `c`.
pub open spec fn gave<G: Fn(&String) -> String>(g: G, p: Seq<char>, c: Seq<char>) -> bool {
    exists|s: String, out: String| s@ == p && #[trigger] g.ensures((&s,), out) && out@ == c
}

/// Some call of `g` on the path `p` gave something other than `c`.
pub open spec fn gave_other<G: Fn(&String) -> String>(g: G, p: Seq<char>, c: Seq<char>) -> bool {
    exists|d: Seq<char>| d != c && #[trigger] gave(g, p, d)
}

/// Check if a build file path matches any in the referencing set, comparing
/// the forms that `canonical` gives (the canonical path, or the path itself
/// where it has none).
pub fn is_referencing_build<G: Fn(&String) -> String>(path: &String, referencing: &Vec<String>, canonical: &G) -> (r: bool)
    requires
        forall|s: &String| #[trigger] canonical.requires((s,)),
    ensures
        referencing@.len() == 0 ==> !r,
        referencing@.len() > 0 ==> exists|cp: Seq<char>| #[trigger] gave(*canonical, path@, cp) && (
            if r {
                exists|i: int| 0 <= i < referencing@.len() && gave(*canonical, (#[trigger] referencing@[i])@, cp)
            } else {
                forall|i: int| 0 <= i < referencing@.len() ==> #[trigger] gave_other(*canonical, referencing@[i]@, cp)
            }),
{
    if referencing.len() == 0 {
        return false;
    }
    let cp = canonical(path);
    assert(gave(*canonical, path@, cp@));
    let mut i: usize = 0;
    while i < referencing.len()
        invariant
            i <= referencing@.len(),
            forall|s: &String| #[trigger] canonical.requires((s,)),
            gave(*canonical, path@, cp@),
            forall|j: int| 0 <= j < i ==> #[trigger] gave_other(*canonical, referencing@[j]@, cp@),
        decreases referencing@.len() - i,
    {
        let ci = canonical(&referencing[i]);
        assert(gave(*canonical, referencing@[i as int]@, ci@));
        if ci == cp {
            assert(gave(*canonical, referencing@[i as int]@, cp@));
            assert(0 <= i < referencing@.len());
            return true;
        }
        assert(gave_other(*canonical, referencing@[i as int]@, cp@));
        i = i + 1;
    }
    false
}

} // verus!
