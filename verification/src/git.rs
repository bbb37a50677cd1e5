//! The git repository the files live in: its root, the upstream to compare
//! against, and what git's answers say.
use vstd::prelude::*;
use crate::text::{chars_of, string_from_range, trim, trim_range, split_on, split_bounds};
use crate::paths::path_join;
use crate::roots::answered;
use crate::strs::{sset, nodup, insert, extend, lemma_empty};

verus! {

/// A git working tree: where it is rooted, and the ref it compares against by default.
pub struct GitRepo {
    root: String,
    default_upstream: String,
}

pub open spec fn origin_main() -> Seq<char> {
    seq!['o', 'r', 'i', 'g', 'i', 'n', '/', 'm', 'a', 'i', 'n']
}

pub open spec fn origin_master() -> Seq<char> {
    seq!['o', 'r', 'i', 'g', 'i', 'n', '/', 'm', 'a', 's', 't', 'e', 'r']
}

/// The upstream chosen from `GIT_DEFAULT_UPSTREAM` (`env`, when set) and from
/// which refs `ref_exists` says exist: a non-empty variable wins, then
/// `origin/main`, then `origin/master`, else none (the empty text).
pub open spec fn upstream_choice<F: Fn(&String) -> bool>(env: Option<Seq<char>>, ref_exists: F, r: Seq<char>) -> bool {
    match env {
        Some(v) if v.len() > 0 => r == v,
        _ => {
            ||| answered(ref_exists, origin_main(), true) && r == origin_main()
            ||| answered(ref_exists, origin_main(), false) && answered(ref_exists, origin_master(), true)
                && r == origin_master()
            ||| answered(ref_exists, origin_main(), false) && answered(ref_exists, origin_master(), false)
                && r == Seq::<char>::empty()
        },
    }
}

impl GitRepo {
    pub closed spec fn root_view(&self) -> Seq<char> {
        self.root@
    }

    pub closed spec fn upstream_view(&self) -> Seq<char> {
        self.default_upstream@
    }

    /// The repository rooted at `root` whose default upstream is `default_upstream`.
    pub fn new(root: String, default_upstream: String) -> (r: GitRepo)
        ensures
            r.root_view() == root@,
            r.upstream_view() == default_upstream@,
    {
        GitRepo { root, default_upstream }
    }

    /// The root of the working tree.
    pub fn root(&self) -> (r: &String)
        ensures
            r@ == self.root_view(),
    {
        &self.root
    }

    /// The ref that changes are compared against by default (empty when none was found).
    pub fn default_upstream(&self) -> (r: &str)
        ensures
            r@ == self.upstream_view(),
    {
        self.default_upstream.as_str()
    }

    /// The default upstream: `GIT_DEFAULT_UPSTREAM` when set and not empty (its value
    /// is `env`), else `origin/main` or `origin/master` when `ref_exists` says the ref
    /// exists, else the empty text.
    pub fn detect_upstream<F: Fn(&String) -> bool>(env: Option<String>, ref_exists: &F) -> (r: String)
        requires
            forall|s: &String| #[trigger] ref_exists.requires((s,)),
        ensures
            upstream_choice(match env {
                Some(v) => Some(v@),
                None => None,
            }, *ref_exists, r@),
    {
        match env {
            Some(v) => {
                if !v.as_str().is_empty() {
                    return v;
                }
            },
            None => {},
        }
        let main = "origin/main".to_owned();
        let master = "origin/master".to_owned();
        proof {
            reveal_strlit("origin/main");
            reveal_strlit("origin/master");
            assert(main@ =~= origin_main());
            assert(master@ =~= origin_master());
        }
        let has_main = ref_exists(&main);
        assert(answered(*ref_exists, origin_main(), has_main));
        if has_main {
            return main;
        }
        let has_master = ref_exists(&master);
        assert(answered(*ref_exists, origin_master(), has_master));
        if has_master {
            return master;
        }
        String::new()
    }
}

/// The root that `git rev-parse --show-toplevel` prints: its output, trimmed.
pub fn root_from_output(stdout: &str) -> (r: String)
    ensures
        r@ == trim(stdout@),
{
    let cs = chars_of(stdout);
    let (a, z) = trim_range(&cs, 0, cs.len());
    assert(cs@.subrange(0, cs@.len() as int) =~= cs@);
    string_from_range(&cs, a, z)
}

/// The paths under `root` named by the lines of git's output, each trimmed, blank
/// lines skipped.
pub open spec fn listed_paths(root: Seq<char>, out: Seq<char>) -> Set<Seq<char>> {
    Set::new(|p: Seq<char>| exists|i: int| 0 <= i < split_on(out, '\n').len()
        && trim(#[trigger] split_on(out, '\n')[i]).len() > 0 && p == path_join(root, trim(split_on(out, '\n')[i])))
}

/// The paths under `root` that a `git diff --name-only` or `git ls-files` output names.
pub fn paths_from_output(root: &str, stdout: &str) -> (r: Vec<String>)
    ensures
        sset(r@) == listed_paths(root@, stdout@),
        nodup(r@),
{
    let cs = chars_of(stdout);
    let rc = chars_of(root);
    let lines = split_bounds(&cs, '\n');
    let ghost parts = split_on(cs@, '\n');
    let mut r: Vec<String> = Vec::new();
    proof {
        lemma_empty();
    }
    let mut i: usize = 0;
    while i < lines.len()
        invariant
            i <= lines@.len() == parts.len(),
            parts == split_on(cs@, '\n'),
            cs@ == stdout@,
            rc@ == root@,
            forall|k: int| 0 <= k < lines@.len() ==> (#[trigger] lines@[k]).0 <= lines@[k].1 <= cs@.len()
                && cs@.subrange(lines@[k].0 as int, lines@[k].1 as int) == parts[k],
            nodup(r@),
            sset(r@) == Set::new(|p: Seq<char>| exists|k: int| 0 <= k < i
                && trim(#[trigger] parts[k]).len() > 0 && p == path_join(root@, trim(parts[k]))),
        decreases lines@.len() - i,
    {
        let (lo, hi) = lines[i];
        assert(lines@[i as int] == (lo, hi));
        let (a, z) = trim_range(&cs, lo, hi);
        let ghost before = sset(r@);
        if a < z {
            let line = crate::text::slice_chars(&cs, a, z);
            let p = crate::paths::join_path(&rc, &line);
            insert(&mut r, crate::text::string_from_chars(&p));
        }
        assert(sset(r@) =~= Set::new(|p: Seq<char>| exists|k: int| 0 <= k < i + 1
            && trim(#[trigger] parts[k]).len() > 0 && p == path_join(root@, trim(parts[k])))) by {
            assert forall|p: Seq<char>| (exists|k: int| 0 <= k < i + 1
                && trim(#[trigger] parts[k]).len() > 0 && p == path_join(root@, trim(parts[k]))) implies sset(r@).contains(p) by {
                let k = choose|k: int| 0 <= k < i + 1 && trim(#[trigger] parts[k]).len() > 0 && p == path_join(root@, trim(parts[k]));
                if k < i {
                    assert(before.contains(p));
                }
            }
        }
        i = i + 1;
    }
    r
}


/// The paths that an output names, when there is one.
pub open spec fn opt_listed(root: Seq<char>, out: Option<&str>) -> Set<Seq<char>> {
    match out {
        Some(o) => listed_paths(root, o@),
        None => Set::empty(),
    }
}

/// The files changed in the repository at `root`, from the output of
/// `git diff <ref>... --name-only` (`None` when the ref is empty or the command
/// failed) and that of `git ls-files --modified` (`None` when it failed).
pub fn changed_paths_from(root: &str, diff_output: Option<&str>, modified_output: Option<&str>) -> (r: Vec<String>)
    ensures
        sset(r@) == opt_listed(root@, diff_output).union(opt_listed(root@, modified_output)),
        nodup(r@),
{
    let mut r: Vec<String> = Vec::new();
    proof { lemma_empty(); }
    match diff_output {
        Some(o) => {
            let ps = paths_from_output(root, o);
            extend(&mut r, &ps);
        },
        None => {},
    }
    match modified_output {
        Some(o) => {
            let ps = paths_from_output(root, o);
            extend(&mut r, &ps);
        },
        None => {},
    }
    assert(sset(r@) =~= opt_listed(root@, diff_output).union(opt_listed(root@, modified_output)));
    r
}

} // verus!
