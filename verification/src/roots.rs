//! Python source roots: the directories that hold top-level packages.
use vstd::prelude::*;
use crate::text::{chars_of, string_from_chars};
use crate::paths::{comps, join, path_join, components, join_path, init_py};
use crate::cache::{split_ext, extension_start};
use crate::strs::{sset, nodup, insert, lemma_empty};

verus! {

/// A path written from its components (the root is an empty component).
pub open spec fn render(cs: Seq<Seq<char>>) -> Seq<char> {
    if cs == seq![Seq::<char>::empty()] {
        seq!['/']
    } else {
        join(cs, '/')
    }
}

/// The last component of a path, as `Path::file_name` gives it.
pub open spec fn file_name_of(cs: Seq<Seq<char>>) -> Option<Seq<char>> {
    if cs.len() > 0 && cs.last().len() > 0 && cs.last() != seq!['.', '.'] {
        Some(cs.last())
    } else {
        None
    }
}

/// A Python file: its file name has the extension `py`.
pub open spec fn is_py_file(path: Seq<char>) -> bool {
    match file_name_of(comps(path)) {
        Some(n) => split_ext(n).1 == Some(seq!['p', 'y']),
        None => false,
    }
}

/// The parent of the path with components `cs`, as `Path::parent` gives it:
/// none for the root or the empty path.
pub open spec fn parent_of(cs: Seq<Seq<char>>) -> Option<Seq<Seq<char>>> {
    if cs.len() > 0 && cs.last().len() > 0 {
        Some(cs.drop_last())
    } else {
        None
    }
}

/// Some call of `f` on the path with the text `c` answered `b`.
pub open spec fn answered<F: Fn(&String) -> bool>(f: F, c: Seq<char>, b: bool) -> bool {
    exists|s: String| s@ == c && #[trigger] f.ensures((&s,), b)
}

/// Where `dir/__init__.py` lies.
pub open spec fn init_of(dir: Seq<Seq<char>>) -> Seq<char> {
    path_join(render(dir), init_py())
}

/// Walking up from `start`, `end` is the first directory without `__init__.py`, or
/// the topmost one when every directory up to it has one.
pub open spec fn package_top<F: Fn(&String) -> bool>(f: F, start: Seq<Seq<char>>, end: Seq<Seq<char>>) -> bool {
    &&& end.len() <= start.len() && start.take(end.len() as int) == end
    &&& forall|k: int| end.len() < k <= start.len() ==> answered(f, init_of(#[trigger] start.take(k)), true)
    &&& (answered(f, init_of(end), false) || (answered(f, init_of(end), true) && parent_of(end) is None))
}

pub(crate) fn render_exec(cs: &Vec<Vec<char>>) -> (r: String)
    ensures
        r@ == render(cs@.map_values(|c: Vec<char>| c@)),
{
    let ghost v = cs@.map_values(|c: Vec<char>| c@);
    if cs.len() == 1 && cs[0].len() == 0 {
        assert(cs@[0]@ =~= Seq::<char>::empty());
        assert(v =~= seq![Seq::<char>::empty()]);
        return string_from_chars(&vec!['/']);
    }
    assert(v != seq![Seq::<char>::empty()]) by {
        if v == seq![Seq::<char>::empty()] {
            assert(v.len() == 1 && v[0].len() == 0);
        }
    }
    let mut r: Vec<char> = Vec::new();
    let mut i: usize = 0;
    assert(v.take(0) =~= Seq::<Seq<char>>::empty());
    while i < cs.len()
        invariant
            i <= cs@.len(),
            v == cs@.map_values(|c: Vec<char>| c@),
            r@ == join(v.take(i as int), '/'),
        decreases cs@.len() - i,
    {
        let ghost ps = v.take(i + 1);
        assert(ps.drop_last() =~= v.take(i as int));
        assert(ps.last() == cs@[i as int]@);
        if i > 0 {
            r.push('/');
        }
        let ghost r0 = r@;
        let mut j: usize = 0;
        while j < cs[i].len()
            invariant
                i < cs@.len(),
                j <= cs@[i as int]@.len(),
                r@ == r0 + cs@[i as int]@.take(j as int),
            decreases cs@[i as int]@.len() - j,
        {
            r.push(cs[i][j]);
            j = j + 1;
            assert(r@ =~= r0 + cs@[i as int]@.take(j as int));
        }
        assert(cs@[i as int]@.take(cs@[i as int]@.len() as int) =~= cs@[i as int]@);
        proof {
            if i == 0 {
                assert(ps.len() == 1);
                assert(r@ =~= ps[0]);
            } else {
                assert(r@ =~= join(ps.drop_last(), '/') + seq!['/'] + ps.last());
            }
        }
        i = i + 1;
    }
    assert(v.take(v.len() as int) =~= v);
    string_from_chars(&r)
}

/// Whether the file `path` is a Python file.
pub(crate) fn is_python_file(path: &String) -> (r: bool)
    ensures
        r == is_py_file(path@),
{
    let cs = components(path.as_str());
    let ghost v = cs@.map_values(|c: Vec<char>| c@);
    if cs.len() == 0 {
        return false;
    }
    let last = &cs[cs.len() - 1];
    assert(v.last() == last@);
    if last.len() == 0 || (last.len() == 2 && last[0] == '.' && last[1] == '.') {
        proof {
            if last.len() == 2 && last[0] == '.' && last[1] == '.' {
                assert(last@ =~= seq!['.', '.']);
            }
        }
        return false;
    }
    assert(last@ != seq!['.', '.']) by {
        if last@ == seq!['.', '.'] {
            assert(last@.len() == 2 && last@[0] == '.' && last@[1] == '.');
        }
    }
    match extension_start(last) {
        Some(k) => {
            let r = last.len() - k == 2 && last[k] == 'p' && last[k + 1] == 'y';
            assert(r == (last@.skip(k as int) == seq!['p', 'y'])) by {
                if last@.skip(k as int) == seq!['p', 'y'] {
                    assert(last@.skip(k as int).len() == 2);
                    assert(last@.skip(k as int)[0] == last@[k as int]);
                    assert(last@.skip(k as int)[1] == last@[k + 1]);
                }
                if r {
                    assert(last@.skip(k as int) =~= seq!['p', 'y']);
                }
            }
            r
        },
        None => false,
    }
}

/// Walk up from `dir` until we find a directory that does NOT contain `__init__.py`
/// (`path_exists` tells whether a path exists).
pub fn walk_up_to_root<F: Fn(&String) -> bool>(dir: Vec<Vec<char>>, path_exists: &F) -> (r: Vec<Vec<char>>)
    requires
        forall|s: &String| #[trigger] path_exists.requires((s,)),
    ensures
        package_top(*path_exists, dir@.map_values(|c: Vec<char>| c@), r@.map_values(|c: Vec<char>| c@)),
{
    let ghost start = dir@.map_values(|c: Vec<char>| c@);
    let mut current = dir;
    let init = vec!['_', '_', 'i', 'n', 'i', 't', '_', '_', '.', 'p', 'y'];
    assert(init@ =~= init_py());
    assert(start.take(start.len() as int) =~= start);
    loop
        invariant
            forall|s: &String| #[trigger] path_exists.requires((s,)),
            start == dir@.map_values(|c: Vec<char>| c@),
            init@ == init_py(),
            current@.len() <= start.len(),
            start.take(current@.len() as int) == current@.map_values(|c: Vec<char>| c@),
            forall|k: int| current@.len() < k <= start.len() ==> answered(*path_exists, init_of(#[trigger] start.take(k)), true),
        decreases current@.len(),
    {
        let ghost cv = current@.map_values(|c: Vec<char>| c@);
        let rendered = render_exec(&current);
        let candidate = string_from_chars(&join_path(&chars_of(rendered.as_str()), &init));
        let found = path_exists(&candidate);
        assert(answered(*path_exists, init_of(cv), found));
        if !found {
            return current;
        }
        let n = current.len();
        if n == 0 || current[n - 1].len() == 0 {
            assert(parent_of(cv) is None) by {
                if n > 0 {
                    assert(cv.last() == current@[n - 1]@);
                }
            }
            return current;
        }
        assert(cv.last() == current@[n - 1]@);
        let ghost before = current@;
        current.pop();
        assert(current@.map_values(|c: Vec<char>| c@) =~= cv.drop_last());
        assert(start.take(n - 1) =~= start.take(n as int).drop_last());
    }
}

/// For each `.py` file, walk up from its directory until finding a directory
/// WITHOUT `__init__.py`. That directory is a Python root. `path_exists` tells
/// whether a path exists.
pub fn calculate_python_roots<F: Fn(&String) -> bool>(files: &Vec<String>, path_exists: &F) -> (r: Vec<String>)
    requires
        forall|s: &String| #[trigger] path_exists.requires((s,)),
    ensures
        nodup(r@),
        forall|x: Seq<char>| sset(r@).contains(x) ==> exists|i: int, e: Seq<Seq<char>>| 0 <= i < files@.len()
            && is_py_file(files@[i]@) && #[trigger] package_top(*path_exists, comps(files@[i]@).drop_last(), e)
            && x == render(e),
        forall|i: int| 0 <= i < files@.len() && is_py_file(#[trigger] files@[i]@) ==> exists|e: Seq<Seq<char>>|
            #[trigger] package_top(*path_exists, comps(files@[i]@).drop_last(), e) && sset(r@).contains(render(e)),
{
    let mut r: Vec<String> = Vec::new();
    proof {
        lemma_empty();
    }
    let mut i: usize = 0;
    while i < files.len()
        invariant
            i <= files@.len(),
            forall|s: &String| #[trigger] path_exists.requires((s,)),
            nodup(r@),
            forall|x: Seq<char>| sset(r@).contains(x) ==> exists|j: int, e: Seq<Seq<char>>| 0 <= j < i
                && is_py_file(files@[j]@) && #[trigger] package_top(*path_exists, comps(files@[j]@).drop_last(), e)
                && x == render(e),
            forall|j: int| 0 <= j < i && is_py_file(#[trigger] files@[j]@) ==> exists|e: Seq<Seq<char>>|
                #[trigger] package_top(*path_exists, comps(files@[j]@).drop_last(), e) && sset(r@).contains(render(e)),
        decreases files@.len() - i,
    {
        if is_python_file(&files[i]) {
            let mut cs = components(files[i].as_str());
            let ghost fv = cs@.map_values(|c: Vec<char>| c@);
            cs.pop();
            assert(cs@.map_values(|c: Vec<char>| c@) =~= fv.drop_last());
            let top = walk_up_to_root(cs, path_exists);
            let ghost e = top@.map_values(|c: Vec<char>| c@);
            let s = render_exec(&top);
            let ghost before = sset(r@);
            insert(&mut r, s);
            assert forall|x: Seq<char>| sset(r@).contains(x) implies exists|j: int, e2: Seq<Seq<char>>| 0 <= j < i + 1
                && is_py_file(files@[j]@) && #[trigger] package_top(*path_exists, comps(files@[j]@).drop_last(), e2)
                && x == render(e2) by {
                if x == render(e) {
                    assert(0 <= i < i + 1 && is_py_file(files@[i as int]@));
                } else {
                    assert(before.contains(x));
                }
            }
        }
        i = i + 1;
    }
    r
}

/// Walking up from `start` for namespace packages, `end` is where the walk stops:
/// every step leaves a directory that is not the git root for its parent, which
/// holds Python files; at `end` there is no parent, or `end` is the git root, or
/// its parent holds no Python file.
pub open spec fn namespace_top<G: Fn(&String) -> bool>(
    g: G,
    start: Seq<Seq<char>>,
    git_root: Option<Seq<Seq<char>>>,
    end: Seq<Seq<char>>,
) -> bool {
    &&& end.len() <= start.len() && start.take(end.len() as int) == end
    &&& forall|k: int| end.len() < k <= start.len() ==> git_root != Some(#[trigger] start.take(k))
        && start[k - 1].len() > 0 && answered(g, render(start.take(k - 1)), true)
    &&& (parent_of(end) is None || git_root == Some(end) || answered(g, render(end.drop_last()), false))
}

fn same_comps(a: &Vec<Vec<char>>, b: &Vec<Vec<char>>) -> (r: bool)
    ensures
        r == (a@.map_values(|c: Vec<char>| c@) == b@.map_values(|c: Vec<char>| c@)),
{
    let ghost av = a@.map_values(|c: Vec<char>| c@);
    let ghost bv = b@.map_values(|c: Vec<char>| c@);
    if a.len() != b.len() {
        assert(av.len() != bv.len());
        return false;
    }
    let mut i: usize = 0;
    while i < a.len()
        invariant
            i <= a@.len() == b@.len(),
            av == a@.map_values(|c: Vec<char>| c@),
            bv == b@.map_values(|c: Vec<char>| c@),
            forall|k: int| 0 <= k < i ==> av[k] == bv[k],
        decreases a@.len() - i,
    {
        if !crate::text::chars_eq(&a[i], &b[i]) {
            assert(av[i as int] != bv[i as int]);
            return false;
        }
        i = i + 1;
    }
    assert(av =~= bv);
    true
}

/// Walk up for namespace package detection. Stop when the directory is the git
/// root, has no parent, or its parent has no `.py` files (`dir_has_py` tells
/// whether a directory has `.py` files among its immediate children).
pub fn walk_up_namespace<G: Fn(&String) -> bool>(start: Vec<Vec<char>>, git_root: &Option<Vec<Vec<char>>>, dir_has_py: &G) -> (r: Vec<Vec<char>>)
    requires
        forall|s: &String| #[trigger] dir_has_py.requires((s,)),
    ensures
        namespace_top(*dir_has_py, start@.map_values(|c: Vec<char>| c@), opt_comps(*git_root), r@.map_values(|c: Vec<char>| c@)),
{
    let ghost sv = start@.map_values(|c: Vec<char>| c@);
    let ghost gr = opt_comps(*git_root);
    let mut dir = start;
    assert(sv.take(sv.len() as int) =~= sv);
    loop
        invariant
            forall|s: &String| #[trigger] dir_has_py.requires((s,)),
            sv == start@.map_values(|c: Vec<char>| c@),
            gr == opt_comps(*git_root),
            dir@.len() <= sv.len(),
            sv.take(dir@.len() as int) == dir@.map_values(|c: Vec<char>| c@),
            forall|k: int| dir@.len() < k <= sv.len() ==> gr != Some(#[trigger] sv.take(k))
                && sv[k - 1].len() > 0 && answered(*dir_has_py, render(sv.take(k - 1)), true),
        decreases dir@.len(),
    {
        let ghost dv = dir@.map_values(|c: Vec<char>| c@);
        let n = dir.len();
        if n == 0 || dir[n - 1].len() == 0 {
            assert(parent_of(dv) is None) by {
                if n > 0 {
                    assert(dv.last() == dir@[n - 1]@);
                }
            }
            return dir;
        }
        assert(dv.last() == dir@[n - 1]@);
        match git_root {
            Some(g) => {
                if same_comps(&dir, g) {
                    return dir;
                }
            },
            None => {},
        }
        let ghost full = dir@;
        let last = dir.pop().unwrap();
        assert(dir@.map_values(|c: Vec<char>| c@) =~= dv.drop_last());
        let shown = render_exec(&dir);
        let found = dir_has_py(&shown);
        assert(answered(*dir_has_py, render(dv.drop_last()), found));
        if !found {
            dir.push(last);
            assert(dir@ =~= full);
            assert(dir@.map_values(|c: Vec<char>| c@) == dv);
            assert(parent_of(dv) is None || gr == Some(dv) || answered(*dir_has_py, render(dv.drop_last()), false));
            return dir;
        }
        assert(sv.take(n - 1) =~= sv.take(n as int).drop_last());
        assert(sv[n - 1] == dv.last());
    }
}

pub open spec fn opt_comps(o: Option<Vec<Vec<char>>>) -> Option<Seq<Seq<char>>> {
    match o {
        Some(v) => Some(v@.map_values(|c: Vec<char>| c@)),
        None => None,
    }
}

pub open spec fn opt_path_comps(o: Option<String>) -> Option<Seq<Seq<char>>> {
    match o {
        Some(s) => Some(comps(s@)),
        None => None,
    }
}

/// Like `calculate_python_roots` but for PEP 420 namespace packages (no `__init__.py` required).
/// Walk up from each `.py` file until hitting:
/// - The git root (if provided), OR
/// - A directory whose parent contains no `.py` files in its immediate children
/// (`dir_has_py` tells whether a directory has `.py` files among its immediate children).
pub fn calculate_namespace_roots<G: Fn(&String) -> bool>(
    files: &Vec<String>,
    git_root: Option<String>,
    dir_has_py: &G,
) -> (r: Vec<String>)
    requires
        forall|s: &String| #[trigger] dir_has_py.requires((s,)),
    ensures
        nodup(r@),
        forall|x: Seq<char>| sset(r@).contains(x) ==> exists|i: int, e: Seq<Seq<char>>| 0 <= i < files@.len()
            && is_py_file(files@[i]@)
            && #[trigger] namespace_top(*dir_has_py, comps(files@[i]@).drop_last(), opt_path_comps(git_root), e)
            && x == render(e),
        forall|i: int| 0 <= i < files@.len() && is_py_file(#[trigger] files@[i]@) ==> exists|e: Seq<Seq<char>>|
            #[trigger] namespace_top(*dir_has_py, comps(files@[i]@).drop_last(), opt_path_comps(git_root), e)
            && sset(r@).contains(render(e)),
{
    let gr: Option<Vec<Vec<char>>> = match &git_root {
        Some(g) => Some(components(g.as_str())),
        None => None,
    };
    assert(opt_comps(gr) == opt_path_comps(git_root));
    let mut r: Vec<String> = Vec::new();
    proof {
        lemma_empty();
    }
    let mut i: usize = 0;
    while i < files.len()
        invariant
            i <= files@.len(),
            forall|s: &String| #[trigger] dir_has_py.requires((s,)),
            opt_comps(gr) == opt_path_comps(git_root),
            nodup(r@),
            forall|x: Seq<char>| sset(r@).contains(x) ==> exists|j: int, e: Seq<Seq<char>>| 0 <= j < i
                && is_py_file(files@[j]@)
                && #[trigger] namespace_top(*dir_has_py, comps(files@[j]@).drop_last(), opt_path_comps(git_root), e)
                && x == render(e),
            forall|j: int| 0 <= j < i && is_py_file(#[trigger] files@[j]@) ==> exists|e: Seq<Seq<char>>|
                #[trigger] namespace_top(*dir_has_py, comps(files@[j]@).drop_last(), opt_path_comps(git_root), e)
                && sset(r@).contains(render(e)),
        decreases files@.len() - i,
    {
        if is_python_file(&files[i]) {
            let mut cs = components(files[i].as_str());
            let ghost fv = cs@.map_values(|c: Vec<char>| c@);
            cs.pop();
            assert(cs@.map_values(|c: Vec<char>| c@) =~= fv.drop_last());
            let top = walk_up_namespace(cs, &gr, dir_has_py);
            let ghost e = top@.map_values(|c: Vec<char>| c@);
            let s = render_exec(&top);
            let ghost before = sset(r@);
            insert(&mut r, s);
            assert forall|x: Seq<char>| sset(r@).contains(x) implies exists|j: int, e2: Seq<Seq<char>>| 0 <= j < i + 1
                && is_py_file(files@[j]@)
                && #[trigger] namespace_top(*dir_has_py, comps(files@[j]@).drop_last(), opt_path_comps(git_root), e2)
                && x == render(e2) by {
                if x == render(e) {
                    assert(0 <= i < i + 1 && is_py_file(files@[i as int]@));
                } else {
                    assert(before.contains(x));
                }
            }
        }
        i = i + 1;
    }
    r
}

} // verus!
