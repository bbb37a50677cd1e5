//! The import graph of one or more source roots, and the modules that
//! depend on a change.
use vstd::prelude::*;
use crate::strs::{sset, nodup, insert, extend, contains, lemma_empty, lemma_sset_push, union_upto, lemma_union_upto_step};
use crate::reach::{Rel, is_edge, edges_are, closure, closure_avoiding, reach, reach_avoiding,
    reaches_avoiding, lemma_starts_in_closure, lemma_closure_step, lemma_avoiding_in_closure,
    lemma_closure_trans, lemma_closure_least};
use crate::paths::{class_of, path_starts_with, utf8_len, starts_with, byte_len, path_to_class,
    package_candidate, module_candidate, class_candidates, first_existing, first_found, none_found, says};
use crate::symbols::{Symbol, SymbolKind, symset, SymbolUsage, ModuleSymbolUsage};

verus! {

/// A single-root dependency tree, as lists of edges between dotted module names.
pub struct Tree {
    pub root: String,
    /// Module-level reverse edges: (imported module, importer)
    pub importers: Vec<(String, String)>,
    /// Module-level forward edges: (module, module it imports)
    pub dependencies: Vec<(String, String)>,
    /// Symbol-level reverse edges: (imported module, symbol name, importer)
    pub symbol_importers: Vec<(String, String, String)>,
    /// Modules that depend on ALL symbols of a given module
    /// (star imports, getattr, module escaping): (imported module, importer)
    pub all_importers: Vec<(String, String)>,
}

/// Collection of trees for multi-root support.
pub struct Trees {
    pub trees: Vec<Tree>,
}

/// `b` imports `a` in some tree.
pub open spec fn import_edge(ts: Seq<Tree>, a: Seq<char>, b: Seq<char>) -> bool {
    exists|t: int, k: int| 0 <= t < ts.len() && 0 <= k < ts[t].importers@.len()
        && (#[trigger] ts[t].importers@[k]).0@ == a && ts[t].importers@[k].1@ == b
}

/// `a` imports `b` in some tree.
pub open spec fn dep_edge(ts: Seq<Tree>, a: Seq<char>, b: Seq<char>) -> bool {
    exists|t: int, k: int| 0 <= t < ts.len() && 0 <= k < ts[t].dependencies@.len()
        && (#[trigger] ts[t].dependencies@[k]).0@ == a && ts[t].dependencies@[k].1@ == b
}

/// `imp` uses the symbol `s` of module `m` in some tree.
pub open spec fn sym_edge(ts: Seq<Tree>, m: Seq<char>, s: Seq<char>, imp: Seq<char>) -> bool {
    exists|t: int, k: int| 0 <= t < ts.len() && 0 <= k < ts[t].symbol_importers@.len()
        && (#[trigger] ts[t].symbol_importers@[k]).0@ == m && ts[t].symbol_importers@[k].1@ == s
        && ts[t].symbol_importers@[k].2@ == imp
}

/// `imp` uses all symbols of module `m` in some tree.
pub open spec fn all_edge(ts: Seq<Tree>, m: Seq<char>, imp: Seq<char>) -> bool {
    exists|t: int, k: int| 0 <= t < ts.len() && 0 <= k < ts[t].all_importers@.len()
        && (#[trigger] ts[t].all_importers@[k]).0@ == m && ts[t].all_importers@[k].1@ == imp
}

/// A change of `a` reaches `b` when `b` imports `a`.
pub open spec fn importers_rel(ts: Seq<Tree>) -> Rel {
    |a: Seq<char>, b: Seq<char>| import_edge(ts, a, b)
}

/// `a` depends on `b` when `a` imports `b`.
pub open spec fn deps_rel(ts: Seq<Tree>) -> Rel {
    |a: Seq<char>, b: Seq<char>| dep_edge(ts, a, b)
}

/// The importers of `m` in some tree.
pub open spec fn importers_of(ts: Seq<Tree>, m: Seq<char>) -> Set<Seq<char>> {
    Set::new(|b: Seq<char>| import_edge(ts, m, b))
}

/// Symbol-level and all-symbol edges are module-level edges too: a module
/// that uses a symbol of another imports it.
pub open spec fn trees_wf(ts: Seq<Tree>) -> bool {
    &&& forall|m: Seq<char>, s: Seq<char>, imp: Seq<char>| #[trigger] sym_edge(ts, m, s, imp) ==> import_edge(ts, m, imp)
    &&& forall|m: Seq<char>, imp: Seq<char>| #[trigger] all_edge(ts, m, imp) ==> import_edge(ts, m, imp)
}

impl Trees {
    /// Every module-level reverse edge of every tree.
    pub fn import_edges(&self) -> (es: Vec<(String, String)>)
        ensures
            edges_are(es@, importers_rel(self.trees@)),
    {
        let ghost ts = self.trees@;
        let mut es: Vec<(String, String)> = Vec::new();
        let mut t: usize = 0;
        while t < self.trees.len()
            invariant
                t <= ts.len(),
                ts == self.trees@,
                forall|a: Seq<char>, b: Seq<char>| #[trigger] is_edge(es@, a, b) <==>
                    exists|t2: int, k: int| 0 <= t2 < t && 0 <= k < ts[t2].importers@.len()
                        && (#[trigger] ts[t2].importers@[k]).0@ == a && ts[t2].importers@[k].1@ == b,
            decreases ts.len() - t,
        {
            let v = &self.trees[t].importers;
            let mut k: usize = 0;
            while k < v.len()
                invariant
                    t < ts.len(),
                    ts == self.trees@,
                    *v == ts[t as int].importers,
                    k <= v.len(),
                    forall|a: Seq<char>, b: Seq<char>| #[trigger] is_edge(es@, a, b) <==>
                        (exists|t2: int, k2: int| 0 <= t2 < t && 0 <= k2 < ts[t2].importers@.len()
                            && (#[trigger] ts[t2].importers@[k2]).0@ == a && ts[t2].importers@[k2].1@ == b)
                        || (exists|k2: int| 0 <= k2 < k && (#[trigger] v@[k2]).0@ == a && v@[k2].1@ == b),
                decreases v.len() - k,
            {
                let ghost old_es = es@;
                es.push((v[k].0.clone(), v[k].1.clone()));
                proof { lemma_edge_push(old_es, es@); }
                k = k + 1;
            }
            t = t + 1;
        }
        assert forall|a: Seq<char>, b: Seq<char>| #[trigger] importers_rel(ts)(a, b) <==> is_edge(es@, a, b) by {
            if import_edge(ts, a, b) {
                let (t2, k) = choose|t2: int, k: int| 0 <= t2 < ts.len() && 0 <= k < ts[t2].importers@.len()
                    && (#[trigger] ts[t2].importers@[k]).0@ == a && ts[t2].importers@[k].1@ == b;
            }
        }
        es
    }

    /// Every module-level forward edge of every tree.
    pub fn dependency_edges(&self) -> (es: Vec<(String, String)>)
        ensures
            edges_are(es@, deps_rel(self.trees@)),
    {
        let ghost ts = self.trees@;
        let mut es: Vec<(String, String)> = Vec::new();
        let mut t: usize = 0;
        while t < self.trees.len()
            invariant
                t <= ts.len(),
                ts == self.trees@,
                forall|a: Seq<char>, b: Seq<char>| #[trigger] is_edge(es@, a, b) <==>
                    exists|t2: int, k: int| 0 <= t2 < t && 0 <= k < ts[t2].dependencies@.len()
                        && (#[trigger] ts[t2].dependencies@[k]).0@ == a && ts[t2].dependencies@[k].1@ == b,
            decreases ts.len() - t,
        {
            let v = &self.trees[t].dependencies;
            let mut k: usize = 0;
            while k < v.len()
                invariant
                    t < ts.len(),
                    ts == self.trees@,
                    *v == ts[t as int].dependencies,
                    k <= v.len(),
                    forall|a: Seq<char>, b: Seq<char>| #[trigger] is_edge(es@, a, b) <==>
                        (exists|t2: int, k2: int| 0 <= t2 < t && 0 <= k2 < ts[t2].dependencies@.len()
                            && (#[trigger] ts[t2].dependencies@[k2]).0@ == a && ts[t2].dependencies@[k2].1@ == b)
                        || (exists|k2: int| 0 <= k2 < k && (#[trigger] v@[k2]).0@ == a && v@[k2].1@ == b),
                decreases v.len() - k,
            {
                let ghost old_es = es@;
                es.push((v[k].0.clone(), v[k].1.clone()));
                proof { lemma_edge_push(old_es, es@); }
                k = k + 1;
            }
            t = t + 1;
        }
        assert forall|a: Seq<char>, b: Seq<char>| #[trigger] deps_rel(ts)(a, b) <==> is_edge(es@, a, b) by {
            if dep_edge(ts, a, b) {
                let (t2, k) = choose|t2: int, k: int| 0 <= t2 < ts.len() && 0 <= k < ts[t2].dependencies@.len()
                    && (#[trigger] ts[t2].dependencies@[k]).0@ == a && ts[t2].dependencies@[k].1@ == b;
            }
        }
        es
    }
}

proof fn lemma_edge_push(old_es: Seq<(String, String)>, es: Seq<(String, String)>)
    requires
        es.len() == old_es.len() + 1,
        forall|i: int| 0 <= i < old_es.len() ==> es[i] == old_es[i],
    ensures
        forall|a: Seq<char>, b: Seq<char>| #[trigger] is_edge(es, a, b) <==>
            is_edge(old_es, a, b) || (es.last().0@ == a && es.last().1@ == b),
{
    assert forall|a: Seq<char>, b: Seq<char>| #[trigger] is_edge(es, a, b) <==>
        is_edge(old_es, a, b) || (es.last().0@ == a && es.last().1@ == b) by {
        if is_edge(es, a, b) {
            let k = choose|k: int| 0 <= k < es.len() && (#[trigger] es[k]).0@ == a && es[k].1@ == b;
            if k < old_es.len() {
                assert(old_es[k] == es[k]);
            }
        }
        if is_edge(old_es, a, b) {
            let k = choose|k: int| 0 <= k < old_es.len() && (#[trigger] old_es[k]).0@ == a && old_es[k].1@ == b;
            assert(es[k] == old_es[k]);
        }
        if es.last().0@ == a && es.last().1@ == b {
            assert(es[es.len() - 1] == es.last());
        }
    }
}

/// Every `b` with an edge `(a, b)` in `es`, each once.
pub(crate) fn targets_of(es: &Vec<(String, String)>, a: &String) -> (r: Vec<String>)
    ensures
        sset(r@) == Set::new(|b: Seq<char>| is_edge(es@, a@, b)),
        nodup(r@),
{
    let mut r: Vec<String> = Vec::new();
    proof { lemma_empty(); }
    let mut k: usize = 0;
    while k < es.len()
        invariant
            k <= es.len(),
            nodup(r@),
            sset(r@) == Set::new(|b: Seq<char>| exists|k2: int| 0 <= k2 < k && (#[trigger] es@[k2]).0@ == a@ && es@[k2].1@ == b),
        decreases es.len() - k,
    {
        let ghost before = sset(r@);
        if es[k].0 == *a {
            insert(&mut r, es[k].1.clone());
        }
        assert(sset(r@) =~= Set::new(|b: Seq<char>| exists|k2: int| 0 <= k2 < k + 1 && (#[trigger] es@[k2]).0@ == a@ && es@[k2].1@ == b)) by {
            assert forall|b: Seq<char>| sset(r@).contains(b) implies
                exists|k2: int| 0 <= k2 < k + 1 && (#[trigger] es@[k2]).0@ == a@ && es@[k2].1@ == b by {
                if before.contains(b) {
                    let k2 = choose|k2: int| 0 <= k2 < k && (#[trigger] es@[k2]).0@ == a@ && es@[k2].1@ == b;
                }
            }
        }
        k = k + 1;
    }
    assert(sset(r@) =~= Set::new(|b: Seq<char>| is_edge(es@, a@, b)));
    r
}

/// The selection made among roots that hold `path`: the longest root in bytes, the last one among equals.
pub open spec fn root_key(ts: Seq<Tree>, t: int) -> nat {
    let n = utf8_len(ts[t].root@);
    if n > u64::MAX { u64::MAX as nat } else { n }
}

/// Tree `t` has the root chosen for `path`.
pub open spec fn best_root(ts: Seq<Tree>, path: Seq<char>, t: int) -> bool {
    &&& 0 <= t < ts.len()
    &&& path_starts_with(path, ts[t].root@)
    &&& forall|t2: int| 0 <= t2 < ts.len() && path_starts_with(path, #[trigger] ts[t2].root@) ==>
        root_key(ts, t2) <= root_key(ts, t) && (t2 > t ==> root_key(ts, t2) < root_key(ts, t))
}

/// The dotted module name of `path`, relative to the chosen root that holds it.
pub open spec fn class_across(ts: Seq<Tree>, path: Seq<char>) -> Option<Seq<char>> {
    if exists|t: int| best_root(ts, path, t) {
        class_of(ts[choose|t: int| best_root(ts, path, t)].root@, path)
    } else {
        None
    }
}

proof fn lemma_best_root_unique(ts: Seq<Tree>, path: Seq<char>, t1: int, t2: int)
    requires
        best_root(ts, path, t1),
        best_root(ts, path, t2),
    ensures
        t1 == t2,
{
    if t1 < t2 {
        assert(root_key(ts, t2) < root_key(ts, t1));
        assert(root_key(ts, t1) <= root_key(ts, t2));
    } else if t2 < t1 {
        assert(root_key(ts, t1) < root_key(ts, t2));
        assert(root_key(ts, t2) <= root_key(ts, t1));
    }
}

pub open spec fn opt_view(o: Option<String>) -> Option<Seq<char>> {
    match o {
        Some(s) => Some(s@),
        None => None,
    }
}

/// The dotted module names of the paths in `files` that some root holds.
pub open spec fn input_classes(ts: Seq<Tree>, files: Seq<String>) -> Set<Seq<char>> {
    Set::new(|c: Seq<char>| exists|i: int| 0 <= i < files.len() && class_across(ts, (#[trigger] files[i])@) == Some(c))
}

impl Trees {
    /// The tree whose root is chosen for `path`, if any root holds it.
    pub fn best_tree(&self, path: &str) -> (r: Option<usize>)
        ensures
            match r {
                Some(t) => best_root(self.trees@, path@, t as int),
                None => forall|t: int| 0 <= t < self.trees@.len() ==> !path_starts_with(path@, #[trigger] self.trees@[t].root@),
            },
    {
        let ghost ts = self.trees@;
        let mut best: Option<usize> = None;
        let mut best_key: u64 = 0;
        let mut t: usize = 0;
        while t < self.trees.len()
            invariant
                t <= ts.len(),
                ts == self.trees@,
                match best {
                    Some(b) => b < t && path_starts_with(path@, ts[b as int].root@) && best_key == root_key(ts, b as int)
                        && forall|t2: int| 0 <= t2 < t && path_starts_with(path@, #[trigger] ts[t2].root@) ==>
                            root_key(ts, t2) <= root_key(ts, b as int) && (t2 > b ==> root_key(ts, t2) < root_key(ts, b as int)),
                    None => forall|t2: int| 0 <= t2 < t ==> !path_starts_with(path@, #[trigger] ts[t2].root@),
                },
            decreases ts.len() - t,
        {
            if starts_with(path, self.trees[t].root.as_str()) {
                let key = byte_len(self.trees[t].root.as_str());
                let take = match best {
                    Some(_) => key >= best_key,
                    None => true,
                };
                if take {
                    best = Some(t);
                    best_key = key;
                }
            }
            t = t + 1;
        }
        best
    }

    /// Find the tree with the longest root that is a prefix of path,
    /// then use that root to convert path to a class name.
    pub fn path_to_class_across_trees(&self, path: &str) -> (r: Option<String>)
        ensures
            opt_view(r) == class_across(self.trees@, path@),
    {
        match self.best_tree(path) {
            Some(t) => {
                proof {
                    let c = choose|t2: int| best_root(self.trees@, path@, t2);
                    lemma_best_root_unique(self.trees@, path@, t as int, c);
                }
                path_to_class(self.trees[t].root.as_str(), path)
            },
            None => None,
        }
    }

    /// Union of importers from ALL trees for a given class.
    pub fn get_importers_across_trees(&self, class: &str) -> (r: Vec<String>)
        ensures
            sset(r@) == importers_of(self.trees@, class@),
            nodup(r@),
    {
        let es = self.import_edges();
        let r = targets_of(&es, &class.to_owned());
        assert forall|b: Seq<char>| #[trigger] importers_of(self.trees@, class@).contains(b) <==> is_edge(es@, class@, b) by {
            assert(importers_rel(self.trees@)(class@, b) <==> is_edge(es@, class@, b));
        }
        assert(sset(r@) =~= importers_of(self.trees@, class@));
        r
    }

    /// Union of forward dependencies from ALL trees for a given class.
    pub fn get_dependencies_across_trees(&self, class: &str) -> (r: Vec<String>)
        ensures
            sset(r@) == Set::new(|b: Seq<char>| dep_edge(self.trees@, class@, b)),
            nodup(r@),
    {
        let es = self.dependency_edges();
        let r = targets_of(&es, &class.to_owned());
        assert forall|b: Seq<char>| #[trigger] dep_edge(self.trees@, class@, b) <==> is_edge(es@, class@, b) by {
            assert(deps_rel(self.trees@)(class@, b) <==> is_edge(es@, class@, b));
        }
        assert(sset(r@) =~= Set::new(|b: Seq<char>| dep_edge(self.trees@, class@, b)));
        r
    }

    /// Get symbol-level importers across all trees for a (module, symbol) pair.
    pub fn get_symbol_importers_across_trees(&self, module: &String, symbol: &String) -> (r: Vec<String>)
        ensures
            sset(r@) == Set::new(|b: Seq<char>| sym_edge(self.trees@, module@, symbol@, b)),
            nodup(r@),
    {
        let ghost ts = self.trees@;
        let mut r: Vec<String> = Vec::new();
        proof { lemma_empty(); }
        let mut t: usize = 0;
        while t < self.trees.len()
            invariant
                t <= ts.len(),
                ts == self.trees@,
                nodup(r@),
                sset(r@) == Set::new(|b: Seq<char>| exists|t2: int, k: int| 0 <= t2 < t && 0 <= k < ts[t2].symbol_importers@.len()
                    && (#[trigger] ts[t2].symbol_importers@[k]).0@ == module@ && ts[t2].symbol_importers@[k].1@ == symbol@
                    && ts[t2].symbol_importers@[k].2@ == b),
            decreases ts.len() - t,
        {
            let v = &self.trees[t].symbol_importers;
            let ghost base = sset(r@);
            let mut k: usize = 0;
            while k < v.len()
                invariant
                    t < ts.len(),
                    ts == self.trees@,
                    *v == ts[t as int].symbol_importers,
                    k <= v.len(),
                    nodup(r@),
                    sset(r@) == base.union(Set::new(|b: Seq<char>| exists|k2: int| 0 <= k2 < k
                        && (#[trigger] v@[k2]).0@ == module@ && v@[k2].1@ == symbol@ && v@[k2].2@ == b)),
                decreases v.len() - k,
            {
                let ghost before = sset(r@);
                if v[k].0 == *module && v[k].1 == *symbol {
                    insert(&mut r, v[k].2.clone());
                }
                assert(sset(r@) =~= base.union(Set::new(|b: Seq<char>| exists|k2: int| 0 <= k2 < k + 1
                    && (#[trigger] v@[k2]).0@ == module@ && v@[k2].1@ == symbol@ && v@[k2].2@ == b))) by {
                    assert forall|b: Seq<char>| sset(r@).contains(b) implies base.union(Set::new(|b: Seq<char>| exists|k2: int| 0 <= k2 < k + 1
                        && (#[trigger] v@[k2]).0@ == module@ && v@[k2].1@ == symbol@ && v@[k2].2@ == b)).contains(b) by {
                        if before.contains(b) && !base.contains(b) {
                            let k2 = choose|k2: int| 0 <= k2 < k && (#[trigger] v@[k2]).0@ == module@ && v@[k2].1@ == symbol@ && v@[k2].2@ == b;
                        }
                    }
                }
                k = k + 1;
            }
            assert(sset(r@) =~= Set::new(|b: Seq<char>| exists|t2: int, k: int| 0 <= t2 < t + 1 && 0 <= k < ts[t2].symbol_importers@.len()
                && (#[trigger] ts[t2].symbol_importers@[k]).0@ == module@ && ts[t2].symbol_importers@[k].1@ == symbol@
                && ts[t2].symbol_importers@[k].2@ == b)) by {
                assert forall|b: Seq<char>| sset(r@).contains(b) implies exists|t2: int, k: int| 0 <= t2 < t + 1 && 0 <= k < ts[t2].symbol_importers@.len()
                    && (#[trigger] ts[t2].symbol_importers@[k]).0@ == module@ && ts[t2].symbol_importers@[k].1@ == symbol@
                    && ts[t2].symbol_importers@[k].2@ == b by {
                    if !base.contains(b) {
                        let k2 = choose|k2: int| 0 <= k2 < v@.len() && (#[trigger] v@[k2]).0@ == module@ && v@[k2].1@ == symbol@ && v@[k2].2@ == b;
                        assert(ts[t as int].symbol_importers@[k2] == v@[k2]);
                    }
                }
                assert forall|b: Seq<char>| (exists|t2: int, k: int| 0 <= t2 < t + 1 && 0 <= k < ts[t2].symbol_importers@.len()
                    && (#[trigger] ts[t2].symbol_importers@[k]).0@ == module@ && ts[t2].symbol_importers@[k].1@ == symbol@
                    && ts[t2].symbol_importers@[k].2@ == b) implies sset(r@).contains(b) by {
                    let (t2, k2) = choose|t2: int, k: int| 0 <= t2 < t + 1 && 0 <= k < ts[t2].symbol_importers@.len()
                        && (#[trigger] ts[t2].symbol_importers@[k]).0@ == module@ && ts[t2].symbol_importers@[k].1@ == symbol@
                        && ts[t2].symbol_importers@[k].2@ == b;
                    if t2 == t {
                        assert(v@[k2] == ts[t as int].symbol_importers@[k2]);
                    }
                }
            }
            t = t + 1;
        }
        assert(sset(r@) =~= Set::new(|b: Seq<char>| sym_edge(self.trees@, module@, symbol@, b)));
        r
    }

    /// Get all-importers (star imports, getattr, module escaping) across all trees.
    pub fn get_all_importers_across_trees(&self, module: &String) -> (r: Vec<String>)
        ensures
            sset(r@) == Set::new(|b: Seq<char>| all_edge(self.trees@, module@, b)),
            nodup(r@),
    {
        let ghost ts = self.trees@;
        let mut es: Vec<(String, String)> = Vec::new();
        let mut t: usize = 0;
        while t < self.trees.len()
            invariant
                t <= ts.len(),
                ts == self.trees@,
                forall|a: Seq<char>, b: Seq<char>| #[trigger] is_edge(es@, a, b) <==>
                    exists|t2: int, k: int| 0 <= t2 < t && 0 <= k < ts[t2].all_importers@.len()
                        && (#[trigger] ts[t2].all_importers@[k]).0@ == a && ts[t2].all_importers@[k].1@ == b,
            decreases ts.len() - t,
        {
            let v = &self.trees[t].all_importers;
            let mut k: usize = 0;
            while k < v.len()
                invariant
                    t < ts.len(),
                    ts == self.trees@,
                    *v == ts[t as int].all_importers,
                    k <= v.len(),
                    forall|a: Seq<char>, b: Seq<char>| #[trigger] is_edge(es@, a, b) <==>
                        (exists|t2: int, k2: int| 0 <= t2 < t && 0 <= k2 < ts[t2].all_importers@.len()
                            && (#[trigger] ts[t2].all_importers@[k2]).0@ == a && ts[t2].all_importers@[k2].1@ == b)
                        || (exists|k2: int| 0 <= k2 < k && (#[trigger] v@[k2]).0@ == a && v@[k2].1@ == b),
                decreases v.len() - k,
            {
                let ghost old_es = es@;
                es.push((v[k].0.clone(), v[k].1.clone()));
                proof { lemma_edge_push(old_es, es@); }
                k = k + 1;
            }
            t = t + 1;
        }
        let r = targets_of(&es, module);
        assert(sset(r@) =~= Set::new(|b: Seq<char>| all_edge(self.trees@, module@, b))) by {
            assert forall|b: Seq<char>| #[trigger] all_edge(ts, module@, b) implies is_edge(es@, module@, b) by {
                let (t2, k) = choose|t2: int, k: int| 0 <= t2 < ts.len() && 0 <= k < ts[t2].all_importers@.len()
                    && (#[trigger] ts[t2].all_importers@[k]).0@ == module@ && ts[t2].all_importers@[k].1@ == b;
            }
        }
        r
    }
}

/// The modules that use all symbols of `m`.
pub open spec fn all_of(ts: Seq<Tree>, m: Seq<char>) -> Set<Seq<char>> {
    Set::new(|b: Seq<char>| all_edge(ts, m, b))
}

/// A symbol, as its kind and name.
pub type SymbolModel = (SymbolKind, Seq<char>);

/// Changed symbols per module, as values.
pub type ChangesModel = Seq<(Seq<char>, Seq<SymbolModel>)>;

/// The value of a list of changed symbols per module.
pub open spec fn changes_view(sc: Seq<(String, Vec<Symbol>)>) -> ChangesModel {
    sc.map_values(|e: (String, Vec<Symbol>)| (e.0@, e.1@.map_values(|s: Symbol| s@)))
}

/// The module body is among the changed symbols.
pub open spec fn has_body(syms: Seq<SymbolModel>) -> bool {
    exists|j: int| 0 <= j < syms.len() && (#[trigger] syms[j]).0 == SymbolKind::ModuleBody
}

/// The modules that use one of the named changed symbols of `m`.
pub open spec fn users_of_symbols(ts: Seq<Tree>, m: Seq<char>, syms: Seq<SymbolModel>) -> Set<Seq<char>> {
    Set::new(|b: Seq<char>| exists|j: int| 0 <= j < syms.len() && (#[trigger] syms[j]).0 != SymbolKind::ModuleBody
        && sym_edge(ts, m, syms[j].1, b))
}

/// The first hop of a change of `syms` in `m`: the users of those symbols, the
/// users of all of `m`, and every importer of `m` when its module body changed.
pub open spec fn first_hop_of(ts: Seq<Tree>, m: Seq<char>, syms: Seq<SymbolModel>) -> Set<Seq<char>> {
    users_of_symbols(ts, m, syms).union(all_of(ts, m)).union(
        if has_body(syms) { importers_of(ts, m) } else { Set::empty() })
}

/// The first hop of all changes: symbol-level for `sc`, module-level for `fb`.
pub open spec fn first_hop(ts: Seq<Tree>, sc: ChangesModel, fb: Set<Seq<char>>) -> Set<Seq<char>> {
    union_upto(|i: int| first_hop_of(ts, sc[i].0, sc[i].1), sc.len() as int).union(
        Set::new(|b: Seq<char>| exists|m: Seq<char>| #[trigger] fb.contains(m) && import_edge(ts, m, b)))
}

/// The changed modules themselves.
pub open spec fn seeds(sc: ChangesModel, fb: Set<Seq<char>>) -> Set<Seq<char>> {
    Set::new(|m: Seq<char>| exists|i: int| 0 <= i < sc.len() && (#[trigger] sc[i]).0 == m).union(fb)
}

/// The changed modules, and every module reached from the first hop through
/// importers, without passing through a changed module.
pub open spec fn symbol_aware(ts: Seq<Tree>, sc: ChangesModel, fb: Set<Seq<char>>) -> Set<Seq<char>> {
    closure_avoiding(importers_rel(ts), first_hop(ts, sc, fb), seeds(sc, fb))
}

impl Trees {
    /// BFS to find all transitive dependees of the given modules, themselves included.
    pub fn get_dependee_classes(&self, input_classes: &Vec<String>) -> (r: Vec<String>)
        ensures
            sset(r@) == closure(importers_rel(self.trees@), sset(input_classes@)),
            nodup(r@),
    {
        let es = self.import_edges();
        reach(input_classes, &es, Ghost(importers_rel(self.trees@)))
    }

    /// BFS to find all transitive forward dependencies of the given modules, themselves included.
    pub fn get_dependency_classes(&self, input_classes: &Vec<String>) -> (r: Vec<String>)
        ensures
            sset(r@) == closure(deps_rel(self.trees@), sset(input_classes@)),
            nodup(r@),
    {
        let es = self.dependency_edges();
        reach(input_classes, &es, Ghost(deps_rel(self.trees@)))
    }

    /// The first hop of a change of `syms` in `m`.
    fn first_hop_exec(&self, m: &String, syms: &Vec<Symbol>, out: &mut Vec<String>)
        ensures
            sset(final(out)@) == sset(old(out)@).union(first_hop_of(self.trees@, m@, syms@.map_values(|s: Symbol| s@))),
            nodup(old(out)@) ==> nodup(final(out)@),
    {
        let ghost ts = self.trees@;
        let ghost base = sset(out@);
        let ghost f = |j: int| if syms@[j]@.0 != SymbolKind::ModuleBody {
            Set::new(|b: Seq<char>| sym_edge(ts, m@, syms@[j]@.1, b))
        } else {
            Set::<Seq<char>>::empty()
        };
        let mut needs_full_module = false;
        let mut j: usize = 0;
        while j < syms.len()
            invariant
                j <= syms.len(),
                ts == self.trees@,
                f == (|j: int| if syms@[j]@.0 != SymbolKind::ModuleBody {
                    Set::new(|b: Seq<char>| sym_edge(ts, m@, syms@[j]@.1, b))
                } else {
                    Set::<Seq<char>>::empty()
                }),
                sset(out@) == base.union(union_upto(f, j as int)),
                needs_full_module == exists|k: int| 0 <= k < j && (#[trigger] syms@[k])@.0 == SymbolKind::ModuleBody,
                nodup(old(out)@) ==> nodup(out@),
            decreases syms.len() - j,
        {
            proof { lemma_union_upto_step(f, j as int); }
            match syms[j].name() {
                None => {
                    needs_full_module = true;
                },
                Some(n) => {
                    let users = self.get_symbol_importers_across_trees(m, n);
                    extend(out, &users);
                },
            }
            assert(sset(out@) =~= base.union(union_upto(f, j + 1)));
            j = j + 1;
        }
        let ghost sv = syms@.map_values(|s: Symbol| s@);
        assert(union_upto(f, syms@.len() as int) =~= users_of_symbols(ts, m@, sv)) by {
            assert forall|b: Seq<char>| #[trigger] union_upto(f, syms@.len() as int).contains(b)
                implies users_of_symbols(ts, m@, sv).contains(b) by {
                let i = choose|i: int| 0 <= i < syms@.len() && #[trigger] f(i).contains(b);
                assert(syms@[i]@.0 != SymbolKind::ModuleBody);
                assert(sv[i] == syms@[i]@);
            }
            assert forall|b: Seq<char>| #[trigger] users_of_symbols(ts, m@, sv).contains(b)
                implies union_upto(f, syms@.len() as int).contains(b) by {
                let i = choose|i: int| 0 <= i < sv.len() && (#[trigger] sv[i]).0 != SymbolKind::ModuleBody
                    && sym_edge(ts, m@, sv[i].1, b);
                assert(f(i).contains(b));
            }
        }
        assert(needs_full_module == has_body(sv)) by {
            if needs_full_module {
                let k = choose|k: int| 0 <= k < syms@.len() && (#[trigger] syms@[k])@.0 == SymbolKind::ModuleBody;
                assert(sv[k] == syms@[k]@);
            }
            if has_body(sv) {
                let k = choose|k: int| 0 <= k < sv.len() && (#[trigger] sv[k]).0 == SymbolKind::ModuleBody;
                assert(sv[k] == syms@[k]@);
            }
        }
        let alls = self.get_all_importers_across_trees(m);
        extend(out, &alls);
        if needs_full_module {
            let imps = self.get_importers_across_trees(m.as_str());
            extend(out, &imps);
        }
        assert(sset(out@) =~= base.union(first_hop_of(ts, m@, sv)));
    }

    /// Class-based symbol-aware BFS. Returns the set of affected class names.
    ///
    /// For modules with known changed symbols: only flag importers that use those
    /// specific symbols (plus star/getattr importers). ModuleBody changes flag
    /// all importers. For fallback modules (no symbol info): every importer.
    /// After the first hop, transitive propagation is conservative (full-module).
    pub fn get_dependee_classes_symbol_aware(
        &self,
        symbol_changes: &Vec<(String, Vec<Symbol>)>,
        fallback_classes: &Vec<String>,
    ) -> (r: Vec<String>)
        ensures
            sset(r@) == symbol_aware(self.trees@, changes_view(symbol_changes@), sset(fallback_classes@)),
            nodup(r@),
    {
        let ghost ts = self.trees@;
        let ghost sc = symbol_changes@;
        let ghost scv = changes_view(sc);
        let ghost fb = fallback_classes@;
        let ghost fs = |i: int| first_hop_of(ts, scv[i].0, scv[i].1);
        let ghost ff = |i: int| importers_of(ts, fb[i]@);
        let mut first: Vec<String> = Vec::new();
        let mut seed: Vec<String> = Vec::new();
        proof { lemma_empty(); }
        let mut i: usize = 0;
        while i < symbol_changes.len()
            invariant
                i <= sc.len(),
                ts == self.trees@,
                sc == symbol_changes@,
                scv == changes_view(sc),
                fs == (|i: int| first_hop_of(ts, scv[i].0, scv[i].1)),
                sset(first@) == union_upto(fs, i as int),
                sset(seed@) == Set::new(|m: Seq<char>| exists|k: int| 0 <= k < i && (#[trigger] sc[k]).0@ == m),
                nodup(first@),
            decreases sc.len() - i,
        {
            proof { lemma_union_upto_step(fs, i as int); }
            let ghost before = sset(seed@);
            insert(&mut seed, symbol_changes[i].0.clone());
            self.first_hop_exec(&symbol_changes[i].0, &symbol_changes[i].1, &mut first);
            assert(scv[i as int] == (sc[i as int].0@, sc[i as int].1@.map_values(|s: Symbol| s@)));
            assert(sset(seed@) =~= Set::new(|m: Seq<char>| exists|k: int| 0 <= k < i + 1 && (#[trigger] sc[k]).0@ == m)) by {
                assert forall|m: Seq<char>| sset(seed@).contains(m) implies exists|k: int| 0 <= k < i + 1 && (#[trigger] sc[k]).0@ == m by {
                    if before.contains(m) {
                        let k = choose|k: int| 0 <= k < i && (#[trigger] sc[k]).0@ == m;
                    } else {
                        assert(sc[i as int].0@ == m);
                    }
                }
            }
            i = i + 1;
        }
        let ghost fsym = sset(first@);
        let mut j: usize = 0;
        while j < fallback_classes.len()
            invariant
                j <= fb.len(),
                ts == self.trees@,
                fb == fallback_classes@,
                ff == (|i: int| importers_of(ts, fb[i]@)),
                sset(first@) == fsym.union(union_upto(ff, j as int)),
                nodup(first@),
            decreases fb.len() - j,
        {
            proof { lemma_union_upto_step(ff, j as int); }
            let imps = self.get_importers_across_trees(fallback_classes[j].as_str());
            extend(&mut first, &imps);
            assert(sset(first@) =~= fsym.union(union_upto(ff, j + 1)));
            j = j + 1;
        }
        proof { lemma_union_upto_step(ff, 0); }
        extend(&mut seed, fallback_classes);
        assert(sset(seed@) =~= seeds(scv, sset(fb))) by {
            assert forall|m: Seq<char>| #[trigger] seeds(scv, sset(fb)).contains(m) implies sset(seed@).contains(m) by {
                if exists|i: int| 0 <= i < scv.len() && (#[trigger] scv[i]).0 == m {
                    let i = choose|i: int| 0 <= i < scv.len() && (#[trigger] scv[i]).0 == m;
                    assert(sc[i].0@ == m);
                }
            }
            assert forall|m: Seq<char>| #[trigger] sset(seed@).contains(m) implies seeds(scv, sset(fb)).contains(m) by {
                if !sset(fb).contains(m) {
                    let i = choose|i: int| 0 <= i < sc.len() && (#[trigger] sc[i]).0@ == m;
                    assert(scv[i].0 == m);
                }
            }
        }
        assert(sset(first@) =~= first_hop(ts, scv, sset(fb))) by {
            let g = Set::new(|b: Seq<char>| exists|m: Seq<char>| #[trigger] sset(fb).contains(m) && import_edge(ts, m, b));
            assert forall|b: Seq<char>| #[trigger] g.contains(b) implies union_upto(ff, fb.len() as int).contains(b) by {
                let m = choose|m: Seq<char>| #[trigger] sset(fb).contains(m) && import_edge(ts, m, b);
                let k = choose|k: int| 0 <= k < fb.len() && fb[k]@ == m;
                assert(ff(k).contains(b));
            }
            assert forall|b: Seq<char>| #[trigger] union_upto(ff, fb.len() as int).contains(b) implies g.contains(b) by {
                let k = choose|k: int| 0 <= k < fb.len() && #[trigger] ff(k).contains(b);
                assert(sset(fb).contains(fb[k]@));
            }
            assert(g =~= union_upto(ff, fb.len() as int));
        }
        let es = self.import_edges();
        reach_avoiding(&first, &seed, &es, Ghost(importers_rel(ts)))
    }
}

/// The first hop lies in the module-level closure of the changed modules, when
/// every symbol-level edge is a module-level edge.
proof fn lemma_first_hop_in_closure(ts: Seq<Tree>, sc: ChangesModel, fb: Set<Seq<char>>, f: Seq<char>)
    requires
        trees_wf(ts),
        first_hop(ts, sc, fb).contains(f),
    ensures
        closure(importers_rel(ts), seeds(sc, fb)).contains(f),
{
    let rel = importers_rel(ts);
    let sd = seeds(sc, fb);
    let fs = |i: int| first_hop_of(ts, sc[i].0, sc[i].1);
    if union_upto(fs, sc.len() as int).contains(f) {
        let i = choose|i: int| 0 <= i < sc.len() && #[trigger] fs(i).contains(f);
        let m = sc[i].0;
        assert(sd.contains(m));
        lemma_starts_in_closure(rel, sd, m);
        if users_of_symbols(ts, m, sc[i].1).contains(f) {
            let j = choose|j: int| 0 <= j < sc[i].1.len() && (#[trigger] sc[i].1[j]).0 != SymbolKind::ModuleBody
                && sym_edge(ts, m, sc[i].1[j].1, f);
            assert(import_edge(ts, m, f));
        } else if all_of(ts, m).contains(f) {
            assert(import_edge(ts, m, f));
        }
        assert(rel(m, f));
        lemma_closure_step(rel, sd, m, f);
    } else {
        let m = choose|m: Seq<char>| #[trigger] fb.contains(m) && import_edge(ts, m, f);
        assert(sd.contains(m));
        lemma_starts_in_closure(rel, sd, m);
        assert(rel(m, f));
        lemma_closure_step(rel, sd, m, f);
    }
}

/// Symbol-level tracking only ever narrows the module-level answer: when every
/// symbol-level edge is a module-level edge, the modules flagged for symbol
/// changes are among those that module-level tracking flags for the same
/// modules; and the changed modules are always flagged.
pub proof fn lemma_symbol_aware_within_module_level(ts: Seq<Tree>, sc: ChangesModel, fb: Set<Seq<char>>)
    requires
        trees_wf(ts),
    ensures
        symbol_aware(ts, sc, fb).subset_of(closure(importers_rel(ts), seeds(sc, fb))),
        seeds(sc, fb).subset_of(symbol_aware(ts, sc, fb)),
{
    let rel = importers_rel(ts);
    let sd = seeds(sc, fb);
    let fh = first_hop(ts, sc, fb);
    assert forall|x: Seq<char>| #[trigger] symbol_aware(ts, sc, fb).contains(x) implies closure(rel, sd).contains(x) by {
        if sd.contains(x) {
            lemma_starts_in_closure(rel, sd, x);
        } else {
            lemma_avoiding_in_closure(rel, fh, sd, x);
            assert forall|f: Seq<char>| #[trigger] fh.contains(f) implies closure(rel, sd).contains(f) by {
                lemma_first_hop_in_closure(ts, sc, fb, f);
            }
            lemma_closure_trans(rel, fh, sd, x);
        }
    }
}

/// When the module body of every module with symbol changes changed (or there
/// are only module-level changes), symbol-level tracking flags exactly what
/// module-level tracking flags.
pub proof fn lemma_body_change_is_module_level(ts: Seq<Tree>, sc: ChangesModel, fb: Set<Seq<char>>)
    requires
        trees_wf(ts),
        forall|i: int| 0 <= i < sc.len() ==> has_body(#[trigger] sc[i].1),
    ensures
        symbol_aware(ts, sc, fb) == closure(importers_rel(ts), seeds(sc, fb)),
{
    let rel = importers_rel(ts);
    let sd = seeds(sc, fb);
    let fh = first_hop(ts, sc, fb);
    let res = symbol_aware(ts, sc, fb);
    let fs = |i: int| first_hop_of(ts, sc[i].0, sc[i].1);
    lemma_symbol_aware_within_module_level(ts, sc, fb);
    // importers of a changed module are in the first hop
    assert forall|m: Seq<char>, b: Seq<char>| sd.contains(m) && #[trigger] rel(m, b) implies fh.contains(b) by {
        if exists|i: int| 0 <= i < sc.len() && (#[trigger] sc[i]).0 == m {
            let i = choose|i: int| 0 <= i < sc.len() && (#[trigger] sc[i]).0 == m;
            assert(has_body(sc[i].1));
            assert(importers_of(ts, m).contains(b));
            assert(first_hop_of(ts, sc[i].0, sc[i].1).contains(b));
            assert(fs(i).contains(b));
        } else {
            assert(fb.contains(m));
            assert(import_edge(ts, m, b));
        }
    }
    // the flagged set holds the changed modules and is closed under importers
    assert forall|a: Seq<char>, b: Seq<char>| res.contains(a) && #[trigger] rel(a, b) implies res.contains(b) by {
        if !sd.contains(b) {
            if sd.contains(a) {
                let p = seq![b];
                assert(crate::reach::is_walk(rel, p));
                assert(crate::reach::avoids(p, sd));
                assert(fh.contains(p[0]));
                assert(reaches_avoiding(rel, fh, sd, b));
            } else {
                lemma_extend_avoiding(rel, fh, sd, a, b);
            }
        }
    }
    assert forall|x: Seq<char>| #[trigger] closure(rel, sd).contains(x) implies res.contains(x) by {
        lemma_closure_least(rel, sd, res, x);
    }
    assert(res =~= closure(rel, sd));
}

/// After the first hop propagation is conservative: every importer of a
/// flagged module that did not itself change is flagged too, whatever it uses.
pub proof fn lemma_symbol_aware_propagates(ts: Seq<Tree>, sc: ChangesModel, fb: Set<Seq<char>>, a: Seq<char>, b: Seq<char>)
    requires
        symbol_aware(ts, sc, fb).contains(a),
        !seeds(sc, fb).contains(a),
        import_edge(ts, a, b),
    ensures
        symbol_aware(ts, sc, fb).contains(b),
{
    let rel = importers_rel(ts);
    assert(rel(a, b));
    if !seeds(sc, fb).contains(b) {
        lemma_extend_avoiding(rel, first_hop(ts, sc, fb), seeds(sc, fb), a, b);
    }
}

/// Every changed module is flagged, and so is every module of the first hop.
pub proof fn lemma_symbol_aware_holds_changes_and_first_hop(ts: Seq<Tree>, sc: ChangesModel, fb: Set<Seq<char>>, x: Seq<char>)
    requires
        seeds(sc, fb).contains(x) || first_hop(ts, sc, fb).contains(x),
    ensures
        symbol_aware(ts, sc, fb).contains(x),
{
    if !seeds(sc, fb).contains(x) {
        crate::reach::lemma_trivial_walk(importers_rel(ts), first_hop(ts, sc, fb), seeds(sc, fb), x);
    }
}

proof fn lemma_extend_avoiding(rel: Rel, st: Set<Seq<char>>, bl: Set<Seq<char>>, x: Seq<char>, y: Seq<char>)
    requires
        reaches_avoiding(rel, st, bl, x),
        rel(x, y),
        !bl.contains(y),
    ensures
        reaches_avoiding(rel, st, bl, y),
{
    let p = choose|p: Seq<Seq<char>>| crate::reach::is_walk(rel, p) && st.contains(#[trigger] p[0]) && p.last() == x
        && crate::reach::avoids(p, bl);
    crate::reach::lemma_walk_push(rel, p, y);
    assert(crate::reach::avoids(p.push(y), bl)) by {
        assert forall|i: int| 0 <= i < p.push(y).len() implies !bl.contains(#[trigger] p.push(y)[i]) by {
            if i < p.len() {
                assert(p.push(y)[i] == p[i]);
            }
        }
    }
}

/// Module-level dependees hold the changed modules and every importer of a dependee.
pub proof fn lemma_dependees_closed(ts: Seq<Tree>, inputs: Set<Seq<char>>, a: Seq<char>, b: Seq<char>)
    ensures
        inputs.contains(a) ==> closure(importers_rel(ts), inputs).contains(a),
        closure(importers_rel(ts), inputs).contains(a) && import_edge(ts, a, b) ==>
            closure(importers_rel(ts), inputs).contains(b),
{
    if inputs.contains(a) {
        lemma_starts_in_closure(importers_rel(ts), inputs, a);
    }
    if closure(importers_rel(ts), inputs).contains(a) && import_edge(ts, a, b) {
        assert(importers_rel(ts)(a, b));
        lemma_closure_step(importers_rel(ts), inputs, a, b);
    }
}

/// The places where module `class` may live, root after root: package, then module.
pub open spec fn tree_candidates(ts: Seq<Tree>, class: Seq<char>) -> Seq<Seq<char>>
    decreases ts.len(),
{
    if ts.len() == 0 {
        Seq::empty()
    } else {
        tree_candidates(ts.drop_last(), class)
            + seq![package_candidate(ts.last().root@, class), module_candidate(ts.last().root@, class)]
    }
}

/// `found` holds, for each module of `classes`, the first place where it was
/// found to exist, and nothing else; a module found nowhere adds nothing.
pub open spec fn resolved_paths<F: Fn(&String) -> bool>(
    ts: Seq<Tree>,
    f: F,
    classes: Set<Seq<char>>,
    found: Set<Seq<char>>,
) -> bool {
    &&& forall|p: Seq<char>| #[trigger] found.contains(p) ==>
        exists|c: Seq<char>| classes.contains(c) && first_found(f, tree_candidates(ts, c), p)
    &&& forall|c: Seq<char>| #[trigger] classes.contains(c) ==>
        none_found(f, tree_candidates(ts, c)) || exists|p: Seq<char>| found.contains(p) && first_found(f, tree_candidates(ts, c), p)
}

/// A module keyed list: each module once.
pub open spec fn keys_unique(m: ChangesModel) -> bool {
    forall|i: int, j: int| 0 <= i < m.len() && 0 <= j < m.len() && i != j ==> m[i].0 != m[j].0
}

/// `m` with the entry for `k` set to `v`: replaced in place, or added at the end.
pub open spec fn upsert(m: ChangesModel, k: Seq<char>, v: Seq<SymbolModel>) -> ChangesModel {
    if exists|i: int| 0 <= i < m.len() && (#[trigger] m[i]).0 == k {
        m.update(choose|i: int| 0 <= i < m.len() && (#[trigger] m[i]).0 == k, (k, v))
    } else {
        m.push((k, v))
    }
}

/// Changes per file turned into changes per module: files that no root holds
/// are dropped, and a later file of the same module replaces an earlier one.
pub open spec fn class_changes(ts: Seq<Tree>, sc: Seq<(String, Vec<Symbol>)>) -> ChangesModel
    decreases sc.len(),
{
    if sc.len() == 0 {
        Seq::empty()
    } else {
        let prev = class_changes(ts, sc.drop_last());
        match class_across(ts, sc.last().0@) {
            None => prev,
            Some(c) => upsert(prev, c, sc.last().1@.map_values(|s: Symbol| s@)),
        }
    }
}

pub(crate) fn copy_symbols(v: &Vec<Symbol>) -> (r: Vec<Symbol>)
    ensures
        r@.map_values(|s: Symbol| s@) == v@.map_values(|s: Symbol| s@),
{
    let mut r: Vec<Symbol> = Vec::new();
    let mut i: usize = 0;
    while i < v.len()
        invariant
            i <= v.len(),
            r@.len() == i,
            forall|k: int| 0 <= k < i ==> (#[trigger] r@[k])@ == v@[k]@,
        decreases v.len() - i,
    {
        r.push(crate::symbols::copy_symbol(&v[i]));
        i = i + 1;
    }
    assert(r@.map_values(|s: Symbol| s@) =~= v@.map_values(|s: Symbol| s@));
    r
}

impl Trees {
    /// The modules of the paths in `files` that some root holds, each once.
    pub fn classes_of_paths(&self, files: &Vec<String>) -> (r: Vec<String>)
        ensures
            sset(r@) == input_classes(self.trees@, files@),
            nodup(r@),
    {
        let ghost ts = self.trees@;
        let mut r: Vec<String> = Vec::new();
        proof { lemma_empty(); }
        let mut i: usize = 0;
        while i < files.len()
            invariant
                i <= files.len(),
                ts == self.trees@,
                nodup(r@),
                sset(r@) == input_classes(ts, files@.take(i as int)),
            decreases files.len() - i,
        {
            let ghost before = sset(r@);
            match self.path_to_class_across_trees(files[i].as_str()) {
                Some(c) => {
                    insert(&mut r, c);
                },
                None => {},
            }
            assert(sset(r@) =~= input_classes(ts, files@.take(i + 1))) by {
                assert forall|c: Seq<char>| #[trigger] input_classes(ts, files@.take(i + 1)).contains(c) implies sset(r@).contains(c) by {
                    let k = choose|k: int| 0 <= k < i + 1 && class_across(ts, (#[trigger] files@.take(i + 1)[k])@) == Some(c);
                    if k < i {
                        assert(files@.take(i as int)[k] == files@[k]);
                        assert(input_classes(ts, files@.take(i as int)).contains(c));
                    } else {
                        assert(files@.take(i + 1)[k] == files@[i as int]);
                    }
                }
                assert forall|c: Seq<char>| #[trigger] sset(r@).contains(c) implies input_classes(ts, files@.take(i + 1)).contains(c) by {
                    if before.contains(c) {
                        let k = choose|k: int| 0 <= k < i && class_across(ts, (#[trigger] files@.take(i as int)[k])@) == Some(c);
                        assert(files@.take(i + 1)[k] == files@[k]);
                    } else {
                        assert(files@.take(i + 1)[i as int] == files@[i as int]);
                    }
                }
            }
            i = i + 1;
        }
        assert(files@.take(files@.len() as int) =~= files@);
        r
    }

    /// Try class_to_path against each tree's root, return first match.
    pub fn class_to_path_across_trees<F: Fn(&String) -> bool>(&self, class: &str, path_exists: &F) -> (r: Option<String>)
        requires
            forall|s: &String| #[trigger] path_exists.requires((s,)),
        ensures
            match r {
                Some(p) => first_found(*path_exists, tree_candidates(self.trees@, class@), p@),
                None => none_found(*path_exists, tree_candidates(self.trees@, class@)),
            },
    {
        let ghost ts = self.trees@;
        let mut cands: Vec<String> = Vec::new();
        let mut t: usize = 0;
        while t < self.trees.len()
            invariant
                t <= ts.len(),
                ts == self.trees@,
                cands@.map_values(|c: String| c@) == tree_candidates(ts.take(t as int), class@),
            decreases ts.len() - t,
        {
            let (pkg, module) = class_candidates(self.trees[t].root.as_str(), class);
            let ghost before = cands@.map_values(|c: String| c@);
            cands.push(pkg);
            cands.push(module);
            assert(ts.take(t + 1).drop_last() =~= ts.take(t as int));
            assert(cands@.map_values(|c: String| c@) =~= before + seq![
                package_candidate(ts[t as int].root@, class@), module_candidate(ts[t as int].root@, class@)]);
            t = t + 1;
        }
        assert(ts.take(ts.len() as int) =~= ts);
        first_existing(&cands, path_exists)
    }

    /// The first place where each module of `classes` exists, each once.
    pub fn paths_of_classes<F: Fn(&String) -> bool>(&self, classes: &Vec<String>, path_exists: &F) -> (r: Vec<String>)
        requires
            forall|s: &String| #[trigger] path_exists.requires((s,)),
        ensures
            resolved_paths(self.trees@, *path_exists, sset(classes@), sset(r@)),
            nodup(r@),
    {
        let ghost ts = self.trees@;
        let mut r: Vec<String> = Vec::new();
        proof { lemma_empty(); }
        let mut i: usize = 0;
        while i < classes.len()
            invariant
                i <= classes.len(),
                ts == self.trees@,
                forall|s: &String| #[trigger] path_exists.requires((s,)),
                nodup(r@),
                resolved_paths(ts, *path_exists, sset(classes@.take(i as int)), sset(r@)),
            decreases classes.len() - i,
        {
            let ghost before = sset(r@);
            let ghost c = classes@[i as int]@;
            let found = self.class_to_path_across_trees(classes[i].as_str(), path_exists);
            let ghost fv = opt_view(found);
            match found {
                Some(p) => {
                    insert(&mut r, p);
                },
                None => {},
            }
            proof {
                let cl = sset(classes@.take(i + 1));
                assert(classes@.take(i + 1)[i as int] == classes@[i as int]);
                assert forall|x: Seq<char>| #[trigger] sset(classes@.take(i as int)).contains(x) implies cl.contains(x) by {
                    let k = choose|k: int| 0 <= k < i && (#[trigger] classes@.take(i as int)[k])@ == x;
                    assert(classes@.take(i + 1)[k] == classes@.take(i as int)[k]);
                }
                assert forall|p: Seq<char>| #[trigger] sset(r@).contains(p) implies
                    exists|c2: Seq<char>| cl.contains(c2) && first_found(*path_exists, tree_candidates(ts, c2), p) by {
                    if before.contains(p) {
                        let c2 = choose|c2: Seq<char>| sset(classes@.take(i as int)).contains(c2)
                            && first_found(*path_exists, tree_candidates(ts, c2), p);
                        assert(cl.contains(c2));
                    } else {
                        assert(cl.contains(c));
                    }
                }
                assert forall|c2: Seq<char>| #[trigger] cl.contains(c2) implies
                    none_found(*path_exists, tree_candidates(ts, c2))
                        || exists|p: Seq<char>| sset(r@).contains(p) && first_found(*path_exists, tree_candidates(ts, c2), p) by {
                    let k = choose|k: int| 0 <= k < i + 1 && (#[trigger] classes@.take(i + 1)[k])@ == c2;
                    if k < i {
                        assert(classes@.take(i as int)[k] == classes@.take(i + 1)[k]);
                        assert(sset(classes@.take(i as int)).contains(c2));
                        if !none_found(*path_exists, tree_candidates(ts, c2)) {
                            let p = choose|p: Seq<char>| before.contains(p) && first_found(*path_exists, tree_candidates(ts, c2), p);
                            assert(sset(r@).contains(p));
                        }
                    } else {
                        assert(c2 == c);
                        if let Some(pv) = fv {
                            assert(sset(r@).contains(pv));
                            assert(first_found(*path_exists, tree_candidates(ts, c2), pv));
                        }
                    }
                }
            }
            i = i + 1;
        }
        assert(classes@.take(classes@.len() as int) =~= classes@);
        r
    }

    /// BFS to find all transitive dependees of the given input files.
    ///
    /// Returns the set of file paths (including input files) that transitively
    /// depend on the input files; `path_exists` tells whether a path exists.
    pub fn get_dependees<F: Fn(&String) -> bool>(&self, input_files: &Vec<String>, path_exists: &F) -> (r: Vec<String>)
        requires
            forall|s: &String| #[trigger] path_exists.requires((s,)),
        ensures
            resolved_paths(self.trees@, *path_exists,
                closure(importers_rel(self.trees@), input_classes(self.trees@, input_files@)), sset(r@)),
            nodup(r@),
    {
        let classes = self.classes_of_paths(input_files);
        let seen = self.get_dependee_classes(&classes);
        self.paths_of_classes(&seen, path_exists)
    }

    /// BFS to find all transitive forward dependencies of the given input files.
    ///
    /// Returns the set of file paths that the input files transitively import
    /// (themselves included).
    pub fn get_dependencies<F: Fn(&String) -> bool>(&self, input_files: &Vec<String>, path_exists: &F) -> (r: Vec<String>)
        requires
            forall|s: &String| #[trigger] path_exists.requires((s,)),
        ensures
            resolved_paths(self.trees@, *path_exists,
                closure(deps_rel(self.trees@), input_classes(self.trees@, input_files@)), sset(r@)),
            nodup(r@),
    {
        let classes = self.classes_of_paths(input_files);
        let seen = self.get_dependency_classes(&classes);
        self.paths_of_classes(&seen, path_exists)
    }
}

impl Trees {
    /// Changes per file turned into changes per module.
    pub fn class_symbol_changes(&self, symbol_changes: &Vec<(String, Vec<Symbol>)>) -> (r: Vec<(String, Vec<Symbol>)>)
        ensures
            changes_view(r@) == class_changes(self.trees@, symbol_changes@),
            keys_unique(changes_view(r@)),
    {
        let ghost ts = self.trees@;
        let ghost sc = symbol_changes@;
        let mut r: Vec<(String, Vec<Symbol>)> = Vec::new();
        assert(changes_view(r@) =~= class_changes(ts, sc.take(0)));
        let mut i: usize = 0;
        while i < symbol_changes.len()
            invariant
                i <= sc.len(),
                ts == self.trees@,
                sc == symbol_changes@,
                changes_view(r@) == class_changes(ts, sc.take(i as int)),
                keys_unique(changes_view(r@)),
            decreases sc.len() - i,
        {
            assert(sc.take(i + 1).drop_last() =~= sc.take(i as int));
            assert(sc.take(i + 1).last() == sc[i as int]);
            let ghost prev = changes_view(r@);
            match self.path_to_class_across_trees(symbol_changes[i].0.as_str()) {
                Some(c) => {
                    let syms = copy_symbols(&symbol_changes[i].1);
                    let ghost v = sc[i as int].1@.map_values(|s: Symbol| s@);
                    let mut j: usize = 0;
                    let mut hit = false;
                    while j < r.len() && !hit
                        invariant
                            j <= r@.len(),
                            prev == changes_view(r@),
                            hit ==> j < r@.len() && prev[j as int].0 == c@,
                            forall|k: int| 0 <= k < j && !(hit && k == j) ==> (#[trigger] prev[k]).0 != c@,
                        decreases r.len() - j + if hit { 0int } else { 1int },
                    {
                        if r[j].0 == c {
                            hit = true;
                        } else {
                            j = j + 1;
                        }
                    }
                    if hit {
                        assert(prev[j as int].0 == c@);
                        let ghost w = choose|w: int| 0 <= w < prev.len() && (#[trigger] prev[w]).0 == c@;
                        assert(w == j);
                        r.set(j, (c, syms));
                        assert(changes_view(r@) =~= prev.update(j as int, (c@, v)));
                        assert(changes_view(r@) =~= upsert(prev, c@, v));
                    } else {
                        r.push((c, syms));
                        assert(changes_view(r@) =~= prev.push((c@, v)));
                        assert(changes_view(r@) =~= upsert(prev, c@, v));
                    }
                },
                None => {},
            }
            i = i + 1;
        }
        assert(sc.take(sc.len() as int) =~= sc);
        r
    }

    /// Symbol-aware BFS to find transitive dependees of changed files.
    ///
    /// For files with known changed symbols: only flag importers that use those
    /// specific symbols (plus star/getattr importers). ModuleBody changes flag
    /// all importers. For fallback files (no symbol info): use full module-level BFS.
    /// After the first hop, transitive propagation is conservative (full-module).
    pub fn get_dependees_symbol_aware<F: Fn(&String) -> bool>(
        &self,
        symbol_changes: &Vec<(String, Vec<Symbol>)>,
        fallback_files: &Vec<String>,
        path_exists: &F,
    ) -> (r: Vec<String>)
        requires
            forall|s: &String| #[trigger] path_exists.requires((s,)),
        ensures
            resolved_paths(self.trees@, *path_exists,
                symbol_aware(self.trees@, class_changes(self.trees@, symbol_changes@), input_classes(self.trees@, fallback_files@)),
                sset(r@)),
            nodup(r@),
    {
        let csc = self.class_symbol_changes(symbol_changes);
        let fbc = self.classes_of_paths(fallback_files);
        let seen = self.get_dependee_classes_symbol_aware(&csc, &fbc);
        self.paths_of_classes(&seen, path_exists)
    }
}

/// What one Python file contributes to the graph.
pub struct FileResult {
    /// The file's dotted module name
    pub module_class: String,
    /// The modules it may import
    pub deps: Vec<String>,
    /// What it uses of each module it imports
    pub usage: ModuleSymbolUsage,
}

/// Module `b` of some file imports `a`.
pub open spec fn result_imports(rs: Seq<FileResult>, a: Seq<char>, b: Seq<char>) -> bool {
    exists|r: int, d: int| 0 <= r < rs.len() && 0 <= d < rs[r].deps@.len() && (#[trigger] rs[r].deps@[d])@ == a
        && rs[r].module_class@ == b
}

/// The usage `o` covers the symbol `s` by name.
pub open spec fn uses_sym(o: Option<Set<Seq<char>>>, s: Seq<char>) -> bool {
    match o {
        Some(names) => names.contains(s),
        None => false,
    }
}

/// Module `b` of some file uses the symbol `s` of `m`.
pub open spec fn result_uses(rs: Seq<FileResult>, m: Seq<char>, s: Seq<char>, b: Seq<char>) -> bool {
    exists|r: int| 0 <= r < rs.len() && (#[trigger] rs[r]).module_class@ == b && rs[r].usage@.contains_key(m)
        && uses_sym(rs[r].usage@[m], s)
}

/// Module `b` of some file uses all of `m`.
pub open spec fn result_uses_all(rs: Seq<FileResult>, m: Seq<char>, b: Seq<char>) -> bool {
    exists|r: int| 0 <= r < rs.len() && (#[trigger] rs[r]).module_class@ == b && rs[r].usage@.contains_key(m)
        && rs[r].usage@[m] is None
}

/// Each file uses only modules it imports.
pub open spec fn results_consistent(rs: Seq<FileResult>) -> bool {
    forall|r: int, m: Seq<char>| 0 <= r < rs.len() && #[trigger] rs[r].usage@.contains_key(m) ==> sset(rs[r].deps@).contains(m)
}

/// Every symbol-level and all-symbol edge of the tree is a module-level edge of it.
pub open spec fn tree_wf(t: Tree) -> bool {
    trees_wf(seq![t])
}

/// Trees that each keep their symbol-level edges among their module-level ones keep them together too.
pub proof fn lemma_trees_wf(ts: Seq<Tree>)
    requires
        forall|t: int| 0 <= t < ts.len() ==> tree_wf(#[trigger] ts[t]),
    ensures
        trees_wf(ts),
{
    assert forall|m: Seq<char>, s: Seq<char>, imp: Seq<char>| #[trigger] sym_edge(ts, m, s, imp) implies import_edge(ts, m, imp) by {
        let (t, k) = choose|t: int, k: int| 0 <= t < ts.len() && 0 <= k < ts[t].symbol_importers@.len()
            && (#[trigger] ts[t].symbol_importers@[k]).0@ == m && ts[t].symbol_importers@[k].1@ == s
            && ts[t].symbol_importers@[k].2@ == imp;
        let one = seq![ts[t]];
        assert(one[0] == ts[t]);
        assert(sym_edge(one, m, s, imp));
        assert(import_edge(one, m, imp));
        let (t2, k2) = choose|t2: int, k2: int| 0 <= t2 < one.len() && 0 <= k2 < one[t2].importers@.len()
            && (#[trigger] one[t2].importers@[k2]).0@ == m && one[t2].importers@[k2].1@ == imp;
        assert(ts[t].importers@[k2].0@ == m);
    }
    assert forall|m: Seq<char>, imp: Seq<char>| #[trigger] all_edge(ts, m, imp) implies import_edge(ts, m, imp) by {
        let (t, k) = choose|t: int, k: int| 0 <= t < ts.len() && 0 <= k < ts[t].all_importers@.len()
            && (#[trigger] ts[t].all_importers@[k]).0@ == m && ts[t].all_importers@[k].1@ == imp;
        let one = seq![ts[t]];
        assert(one[0] == ts[t]);
        assert(all_edge(one, m, imp));
        assert(import_edge(one, m, imp));
        let (t2, k2) = choose|t2: int, k2: int| 0 <= t2 < one.len() && 0 <= k2 < one[t2].importers@.len()
            && (#[trigger] one[t2].importers@[k2]).0@ == m && one[t2].importers@[k2].1@ == imp;
        assert(ts[t].importers@[k2].0@ == m);
    }
}

/// Whether the walk over a source root enters an entry: every file, and a
/// directory when namespace packages are on, when it is the root itself, or
/// when it holds an `__init__.py`.
pub fn walk_enters(is_dir: bool, namespace_packages: bool, is_root: bool, has_init: bool) -> (r: bool)
    ensures
        r == (!is_dir || namespace_packages || is_root || has_init),
{
    !is_dir || namespace_packages || is_root || has_init
}

impl Tree {
    /// The tree of `root` made from the per-file results of parsing its Python files.
    pub fn from_file_results(root: String, results: &Vec<FileResult>) -> (tree: Tree)
        requires
            forall|r: int| 0 <= r < results@.len() ==> (#[trigger] results@[r]).usage.wf(),
        ensures
            tree.root == root,
            forall|a: Seq<char>, b: Seq<char>| #[trigger] import_edge(seq![tree], a, b) <==> result_imports(results@, a, b),
            forall|a: Seq<char>, b: Seq<char>| #[trigger] dep_edge(seq![tree], a, b) <==> result_imports(results@, b, a),
            forall|m: Seq<char>, s: Seq<char>, b: Seq<char>| #[trigger] sym_edge(seq![tree], m, s, b) <==> result_uses(results@, m, s, b),
            forall|m: Seq<char>, b: Seq<char>| #[trigger] all_edge(seq![tree], m, b) <==> result_uses_all(results@, m, b),
            results_consistent(results@) ==> tree_wf(tree),
    {
        let ghost rs = results@;
        let mut importers: Vec<(String, String)> = Vec::new();
        let mut dependencies: Vec<(String, String)> = Vec::new();
        let mut symbol_importers: Vec<(String, String, String)> = Vec::new();
        let mut all_importers: Vec<(String, String)> = Vec::new();
        let mut i: usize = 0;
        while i < results.len()
            invariant
                i <= rs.len(),
                rs == results@,
                forall|r: int| 0 <= r < rs.len() ==> (#[trigger] rs[r]).usage.wf(),
                forall|a: Seq<char>, b: Seq<char>| #[trigger] is_edge(importers@, a, b) <==> result_imports(rs.take(i as int), a, b),
                forall|a: Seq<char>, b: Seq<char>| #[trigger] is_edge(dependencies@, a, b) <==> result_imports(rs.take(i as int), b, a),
                forall|m: Seq<char>, s: Seq<char>, b: Seq<char>| #[trigger] sym_in(symbol_importers@, m, s, b) <==> result_uses(rs.take(i as int), m, s, b),
                forall|m: Seq<char>, b: Seq<char>| #[trigger] is_edge(all_importers@, m, b) <==> result_uses_all(rs.take(i as int), m, b),
            decreases rs.len() - i,
        {
            let fr = &results[i];
            let ghost pre = rs.take(i as int);
            let ghost post = rs.take(i + 1);
            assert(post.drop_last() =~= pre);
            assert(post[i as int] == rs[i as int]);
            proof { lemma_take_results(rs, i as int); }
            // module-level edges
            let mut d: usize = 0;
            while d < fr.deps.len()
                invariant
                    d <= fr.deps@.len(),
                    *fr == rs[i as int],
                    i < rs.len(),
                    forall|a: Seq<char>, b: Seq<char>| #[trigger] is_edge(importers@, a, b) <==>
                        result_imports(pre, a, b) || (b == fr.module_class@ && exists|d2: int| 0 <= d2 < d && (#[trigger] fr.deps@[d2])@ == a),
                    forall|a: Seq<char>, b: Seq<char>| #[trigger] is_edge(dependencies@, a, b) <==>
                        result_imports(pre, b, a) || (a == fr.module_class@ && exists|d2: int| 0 <= d2 < d && (#[trigger] fr.deps@[d2])@ == b),
                decreases fr.deps.len() - d,
            {
                let ghost oi = importers@;
                let ghost od = dependencies@;
                importers.push((fr.deps[d].clone(), fr.module_class.clone()));
                dependencies.push((fr.module_class.clone(), fr.deps[d].clone()));
                proof {
                    lemma_edge_push(oi, importers@);
                    lemma_edge_push(od, dependencies@);
                }
                d = d + 1;
            }
            // symbol-level edges
            let ug = &fr.usage.usage;
            let mut u: usize = 0;
            while u < ug.len()
                invariant
                    u <= ug@.len(),
                    *fr == rs[i as int],
                    i < rs.len(),
                    *ug == fr.usage.usage,
                    fr.usage.wf(),
                    forall|m: Seq<char>, s: Seq<char>, b: Seq<char>| #[trigger] sym_in(symbol_importers@, m, s, b) <==>
                        result_uses(pre, m, s, b) || (b == fr.module_class@ && entries_use(ug@, u as int, m, s)),
                    forall|m: Seq<char>, b: Seq<char>| #[trigger] is_edge(all_importers@, m, b) <==>
                        result_uses_all(pre, m, b) || (b == fr.module_class@ && entries_use_all(ug@, u as int, m)),
                decreases ug.len() - u,
            {
                proof { lemma_entries_step(ug@, u as int); }
                match &ug[u].1 {
                    SymbolUsage::All => {
                        let ghost oa = all_importers@;
                        all_importers.push((ug[u].0.clone(), fr.module_class.clone()));
                        proof { lemma_edge_push(oa, all_importers@); }
                    },
                    SymbolUsage::Specific(names) => {
                        let ghost base = symbol_importers@;
                        let mut n: usize = 0;
                        while n < names.len()
                            invariant
                                n <= names@.len(),
                                u < ug@.len(),
                                ug@[u as int].1 == SymbolUsage::Specific(*names),
                                forall|m: Seq<char>, s: Seq<char>, b: Seq<char>| #[trigger] sym_in(symbol_importers@, m, s, b) <==>
                                    sym_in(base, m, s, b) || (b == fr.module_class@ && m == ug@[u as int].0@
                                        && exists|n2: int| 0 <= n2 < n && (#[trigger] names@[n2])@ == s),
                            decreases names.len() - n,
                        {
                            let ghost os = symbol_importers@;
                            symbol_importers.push((ug[u].0.clone(), names[n].clone(), fr.module_class.clone()));
                            proof { lemma_sym_push(os, symbol_importers@); }
                            n = n + 1;
                        }
                    },
                }
                u = u + 1;
            }
            proof {
                lemma_usage_entries(rs[i as int].usage);
            }
            i = i + 1;
        }
        assert(rs.take(rs.len() as int) =~= rs);
        let tree = Tree { root, importers, dependencies, symbol_importers, all_importers };
        proof {
            let one = seq![tree];
            assert(one[0] == tree);
            assert forall|a: Seq<char>, b: Seq<char>| #[trigger] import_edge(one, a, b) <==> is_edge(tree.importers@, a, b) by {
                if is_edge(tree.importers@, a, b) {
                    let k = choose|k: int| 0 <= k < tree.importers@.len() && (#[trigger] tree.importers@[k]).0@ == a && tree.importers@[k].1@ == b;
                    assert(one[0].importers@[k] == tree.importers@[k]);
                }
            }
            assert forall|a: Seq<char>, b: Seq<char>| #[trigger] dep_edge(one, a, b) <==> is_edge(tree.dependencies@, a, b) by {
                if is_edge(tree.dependencies@, a, b) {
                    let k = choose|k: int| 0 <= k < tree.dependencies@.len() && (#[trigger] tree.dependencies@[k]).0@ == a && tree.dependencies@[k].1@ == b;
                    assert(one[0].dependencies@[k] == tree.dependencies@[k]);
                }
            }
            assert forall|m: Seq<char>, s: Seq<char>, b: Seq<char>| #[trigger] sym_edge(one, m, s, b) <==> sym_in(tree.symbol_importers@, m, s, b) by {
                if sym_in(tree.symbol_importers@, m, s, b) {
                    let k = choose|k: int| 0 <= k < tree.symbol_importers@.len() && (#[trigger] tree.symbol_importers@[k]).0@ == m
                        && tree.symbol_importers@[k].1@ == s && tree.symbol_importers@[k].2@ == b;
                    assert(one[0].symbol_importers@[k] == tree.symbol_importers@[k]);
                }
            }
            assert forall|m: Seq<char>, b: Seq<char>| #[trigger] all_edge(one, m, b) <==> is_edge(tree.all_importers@, m, b) by {
                if is_edge(tree.all_importers@, m, b) {
                    let k = choose|k: int| 0 <= k < tree.all_importers@.len() && (#[trigger] tree.all_importers@[k]).0@ == m && tree.all_importers@[k].1@ == b;
                    assert(one[0].all_importers@[k] == tree.all_importers@[k]);
                }
            }
            if results_consistent(rs) {
                assert forall|m: Seq<char>, s: Seq<char>, imp: Seq<char>| #[trigger] sym_edge(one, m, s, imp) implies import_edge(one, m, imp) by {
                    let r = choose|r: int| 0 <= r < rs.len() && (#[trigger] rs[r]).module_class@ == imp && rs[r].usage@.contains_key(m)
                        && uses_sym(rs[r].usage@[m], s);
                    assert(sset(rs[r].deps@).contains(m));
                    let d = choose|d: int| 0 <= d < rs[r].deps@.len() && rs[r].deps@[d]@ == m;
                    assert(result_imports(rs, m, imp));
                }
                assert forall|m: Seq<char>, imp: Seq<char>| #[trigger] all_edge(one, m, imp) implies import_edge(one, m, imp) by {
                    let r = choose|r: int| 0 <= r < rs.len() && (#[trigger] rs[r]).module_class@ == imp && rs[r].usage@.contains_key(m)
                        && rs[r].usage@[m] is None;
                    assert(sset(rs[r].deps@).contains(m));
                    let d = choose|d: int| 0 <= d < rs[r].deps@.len() && rs[r].deps@[d]@ == m;
                    assert(result_imports(rs, m, imp));
                }
            }
        }
        tree
    }
}

/// `(m, s, b)` is among the triples `es`.
pub open spec fn sym_in(es: Seq<(String, String, String)>, m: Seq<char>, s: Seq<char>, b: Seq<char>) -> bool {
    exists|k: int| 0 <= k < es.len() && (#[trigger] es[k]).0@ == m && es[k].1@ == s && es[k].2@ == b
}

proof fn lemma_sym_push(old_es: Seq<(String, String, String)>, es: Seq<(String, String, String)>)
    requires
        es.len() == old_es.len() + 1,
        forall|i: int| 0 <= i < old_es.len() ==> es[i] == old_es[i],
    ensures
        forall|m: Seq<char>, s: Seq<char>, b: Seq<char>| #[trigger] sym_in(es, m, s, b) <==>
            sym_in(old_es, m, s, b) || (es.last().0@ == m && es.last().1@ == s && es.last().2@ == b),
{
    assert forall|m: Seq<char>, s: Seq<char>, b: Seq<char>| #[trigger] sym_in(es, m, s, b) <==>
        sym_in(old_es, m, s, b) || (es.last().0@ == m && es.last().1@ == s && es.last().2@ == b) by {
        if sym_in(es, m, s, b) {
            let k = choose|k: int| 0 <= k < es.len() && (#[trigger] es[k]).0@ == m && es[k].1@ == s && es[k].2@ == b;
            if k < old_es.len() {
                assert(old_es[k] == es[k]);
            }
        }
        if sym_in(old_es, m, s, b) {
            let k = choose|k: int| 0 <= k < old_es.len() && (#[trigger] old_es[k]).0@ == m && old_es[k].1@ == s && old_es[k].2@ == b;
            assert(es[k] == old_es[k]);
        }
        if es.last().0@ == m && es.last().1@ == s && es.last().2@ == b {
            assert(es[es.len() - 1] == es.last());
        }
    }
}

proof fn lemma_take_results(rs: Seq<FileResult>, i: int)
    requires
        0 <= i < rs.len(),
    ensures
        forall|a: Seq<char>, b: Seq<char>| #[trigger] result_imports(rs.take(i + 1), a, b) <==>
            result_imports(rs.take(i), a, b) || (b == rs[i].module_class@ && exists|d: int| 0 <= d < rs[i].deps@.len() && (#[trigger] rs[i].deps@[d])@ == a),
        forall|m: Seq<char>, s: Seq<char>, b: Seq<char>| #[trigger] result_uses(rs.take(i + 1), m, s, b) <==>
            result_uses(rs.take(i), m, s, b) || (b == rs[i].module_class@ && rs[i].usage@.contains_key(m)
                && uses_sym(rs[i].usage@[m], s)),
        forall|m: Seq<char>, b: Seq<char>| #[trigger] result_uses_all(rs.take(i + 1), m, b) <==>
            result_uses_all(rs.take(i), m, b) || (b == rs[i].module_class@ && rs[i].usage@.contains_key(m)
                && rs[i].usage@[m] is None),
{
    let pre = rs.take(i);
    let post = rs.take(i + 1);
    assert forall|k: int| 0 <= k < i implies #[trigger] post[k] == pre[k] by {}
    assert(post[i] == rs[i]);
    assert forall|a: Seq<char>, b: Seq<char>| #[trigger] result_imports(post, a, b) <==>
        result_imports(pre, a, b) || (b == rs[i].module_class@ && exists|d: int| 0 <= d < rs[i].deps@.len() && (#[trigger] rs[i].deps@[d])@ == a) by {
        if result_imports(post, a, b) {
            let (r, d) = choose|r: int, d: int| 0 <= r < post.len() && 0 <= d < post[r].deps@.len() && (#[trigger] post[r].deps@[d])@ == a
                && post[r].module_class@ == b;
            if r < i {
                assert(pre[r] == post[r]);
            }
        }
        if result_imports(pre, a, b) {
            let (r, d) = choose|r: int, d: int| 0 <= r < pre.len() && 0 <= d < pre[r].deps@.len() && (#[trigger] pre[r].deps@[d])@ == a
                && pre[r].module_class@ == b;
            assert(pre[r] == post[r]);
        }
        if b == rs[i].module_class@ && exists|d: int| 0 <= d < rs[i].deps@.len() && (#[trigger] rs[i].deps@[d])@ == a {
            let d = choose|d: int| 0 <= d < rs[i].deps@.len() && (#[trigger] rs[i].deps@[d])@ == a;
            assert(post[i].deps@[d]@ == a);
        }
    }
    assert forall|m: Seq<char>, s: Seq<char>, b: Seq<char>| #[trigger] result_uses(post, m, s, b) <==>
        result_uses(pre, m, s, b) || (b == rs[i].module_class@ && rs[i].usage@.contains_key(m)
            && uses_sym(rs[i].usage@[m], s)) by {
        if result_uses(post, m, s, b) {
            let r = choose|r: int| 0 <= r < post.len() && (#[trigger] post[r]).module_class@ == b && post[r].usage@.contains_key(m)
                && uses_sym(post[r].usage@[m], s);
            if r < i {
                assert(pre[r] == post[r]);
            }
        }
        if result_uses(pre, m, s, b) {
            let r = choose|r: int| 0 <= r < pre.len() && (#[trigger] pre[r]).module_class@ == b && pre[r].usage@.contains_key(m)
                && uses_sym(pre[r].usage@[m], s);
            assert(pre[r] == post[r]);
        }
    }
    assert forall|m: Seq<char>, b: Seq<char>| #[trigger] result_uses_all(post, m, b) <==>
        result_uses_all(pre, m, b) || (b == rs[i].module_class@ && rs[i].usage@.contains_key(m)
            && rs[i].usage@[m] is None) by {
        if result_uses_all(post, m, b) {
            let r = choose|r: int| 0 <= r < post.len() && (#[trigger] post[r]).module_class@ == b && post[r].usage@.contains_key(m)
                && post[r].usage@[m] is None;
            if r < i {
                assert(pre[r] == post[r]);
            }
        }
        if result_uses_all(pre, m, b) {
            let r = choose|r: int| 0 <= r < pre.len() && (#[trigger] pre[r]).module_class@ == b && pre[r].usage@.contains_key(m)
                && pre[r].usage@[m] is None;
            assert(pre[r] == post[r]);
        }
    }
}

/// Some of the first `n` entries of `ug` name the symbol `s` of module `m`.
pub open spec fn entries_use(ug: Seq<(String, SymbolUsage)>, n: int, m: Seq<char>, s: Seq<char>) -> bool {
    exists|k: int| 0 <= k < n && (#[trigger] ug[k]).0@ == m && uses_sym(ug[k].1@, s)
}

/// Some of the first `n` entries of `ug` use all of module `m`.
pub open spec fn entries_use_all(ug: Seq<(String, SymbolUsage)>, n: int, m: Seq<char>) -> bool {
    exists|k: int| 0 <= k < n && (#[trigger] ug[k]).0@ == m && ug[k].1@ is None
}

proof fn lemma_entries_step(ug: Seq<(String, SymbolUsage)>, u: int)
    requires
        0 <= u < ug.len(),
    ensures
        forall|m: Seq<char>, s: Seq<char>| #[trigger] entries_use(ug, u + 1, m, s) <==>
            entries_use(ug, u, m, s) || (ug[u].0@ == m && uses_sym(ug[u].1@, s)),
        forall|m: Seq<char>| #[trigger] entries_use_all(ug, u + 1, m) <==>
            entries_use_all(ug, u, m) || (ug[u].0@ == m && ug[u].1@ is None),
{
    assert forall|m: Seq<char>, s: Seq<char>| #[trigger] entries_use(ug, u + 1, m, s) <==>
        entries_use(ug, u, m, s) || (ug[u].0@ == m && uses_sym(ug[u].1@, s)) by {
        if entries_use(ug, u + 1, m, s) {
            let k = choose|k: int| 0 <= k < u + 1 && (#[trigger] ug[k]).0@ == m && uses_sym(ug[k].1@, s);
        }
    }
    assert forall|m: Seq<char>| #[trigger] entries_use_all(ug, u + 1, m) <==>
        entries_use_all(ug, u, m) || (ug[u].0@ == m && ug[u].1@ is None) by {
        if entries_use_all(ug, u + 1, m) {
            let k = choose|k: int| 0 <= k < u + 1 && (#[trigger] ug[k]).0@ == m && ug[k].1@ is None;
        }
    }
}

/// The entries of a usage list are those of its map.
proof fn lemma_usage_entries(u: ModuleSymbolUsage)
    requires
        u.wf(),
    ensures
        forall|m: Seq<char>, s: Seq<char>| #[trigger] entries_use(u.usage@, u.usage@.len() as int, m, s) <==>
            (u@.contains_key(m) && uses_sym(u@[m], s)),
        forall|m: Seq<char>| #[trigger] entries_use_all(u.usage@, u.usage@.len() as int, m) <==>
            (u@.contains_key(m) && u@[m] is None),
{
    let n = u.usage@.len() as int;
    assert forall|m: Seq<char>, s: Seq<char>| #[trigger] entries_use(u.usage@, n, m, s) <==>
        (u@.contains_key(m) && uses_sym(u@[m], s)) by {
        if u@.contains_key(m) {
            let k = choose|k: int| 0 <= k < u.usage@.len() && (#[trigger] u.usage@[k]).0@ == m;
            crate::symbols::lemma_usage_map_at(u.usage@, k);
        }
        if entries_use(u.usage@, n, m, s) {
            let k = choose|k: int| 0 <= k < n && (#[trigger] u.usage@[k]).0@ == m && uses_sym(u.usage@[k].1@, s);
            crate::symbols::lemma_usage_map_at(u.usage@, k);
        }
    }
    assert forall|m: Seq<char>| #[trigger] entries_use_all(u.usage@, n, m) <==> (u@.contains_key(m) && u@[m] is None) by {
        if u@.contains_key(m) {
            let k = choose|k: int| 0 <= k < u.usage@.len() && (#[trigger] u.usage@[k]).0@ == m;
            crate::symbols::lemma_usage_map_at(u.usage@, k);
        }
        if entries_use_all(u.usage@, n, m) {
            let k = choose|k: int| 0 <= k < n && (#[trigger] u.usage@[k]).0@ == m && u.usage@[k].1@ is None;
            crate::symbols::lemma_usage_map_at(u.usage@, k);
        }
    }
}

// ---------------------------------------------------------------------------
// Laws over paths
// ---------------------------------------------------------------------------

/// The existence check `f` gives one answer for each path, however often it is asked.
pub open spec fn answers_alike<F: Fn(&String) -> bool>(f: F) -> bool {
    forall|s1: String, s2: String, b1: bool, b2: bool|
        s1@ == s2@ && #[trigger] f.ensures((&s1,), b1) && #[trigger] f.ensures((&s2,), b2) ==> b1 == b2
}

proof fn lemma_says_once<F: Fn(&String) -> bool>(f: F, c: Seq<char>)
    requires
        answers_alike(f),
        says(f, c, true),
    ensures
        !says(f, c, false),
{
    if says(f, c, false) {
        let s1 = choose|s: String| s@ == c && #[trigger] f.ensures((&s,), true);
        let s2 = choose|s: String| s@ == c && #[trigger] f.ensures((&s,), false);
        assert(f.ensures((&s1,), true) && f.ensures((&s2,), false));
    }
}

proof fn lemma_first_found_unique<F: Fn(&String) -> bool>(f: F, cands: Seq<Seq<char>>, x: Seq<char>, y: Seq<char>)
    requires
        answers_alike(f),
        first_found(f, cands, x),
    ensures
        first_found(f, cands, y) ==> x == y,
        !none_found(f, cands),
{
    let i = choose|i: int| 0 <= i < cands.len() && cands[i] == x && says(f, cands[i], true)
        && forall|k: int| 0 <= k < i ==> says(f, #[trigger] cands[k], false);
    lemma_says_once(f, cands[i]);
    if first_found(f, cands, y) {
        let j = choose|j: int| 0 <= j < cands.len() && cands[j] == y && says(f, cands[j], true)
            && forall|k: int| 0 <= k < j ==> says(f, #[trigger] cands[k], false);
        lemma_says_once(f, cands[j]);
        if i < j {
            assert(says(f, cands[i], false));
        } else if j < i {
            assert(says(f, cands[j], false));
        }
    }
}

/// With an existence check that answers alike, the places found for some
/// modules lie among those found for more modules.
pub proof fn lemma_resolved_paths_mono<F: Fn(&String) -> bool>(
    ts: Seq<Tree>,
    f: F,
    a: Set<Seq<char>>,
    b: Set<Seq<char>>,
    p: Set<Seq<char>>,
    q: Set<Seq<char>>,
)
    requires
        answers_alike(f),
        a.subset_of(b),
        resolved_paths(ts, f, a, p),
        resolved_paths(ts, f, b, q),
    ensures
        p.subset_of(q),
{
    assert forall|x: Seq<char>| p.contains(x) implies q.contains(x) by {
        let c = choose|c: Seq<char>| a.contains(c) && first_found(f, tree_candidates(ts, c), x);
        assert(b.contains(c));
        lemma_first_found_unique(f, tree_candidates(ts, c), x, x);
        let y = choose|y: Seq<char>| q.contains(y) && first_found(f, tree_candidates(ts, c), y);
        lemma_first_found_unique(f, tree_candidates(ts, c), x, y);
    }
}

/// With an existence check that answers alike, the same modules are found at
/// the same places: two queries that flag the same modules give the same files.
pub proof fn lemma_resolved_paths_unique<F: Fn(&String) -> bool>(
    ts: Seq<Tree>,
    f: F,
    a: Set<Seq<char>>,
    p: Set<Seq<char>>,
    q: Set<Seq<char>>,
)
    requires
        answers_alike(f),
        resolved_paths(ts, f, a, p),
        resolved_paths(ts, f, a, q),
    ensures
        p == q,
{
    lemma_resolved_paths_mono(ts, f, a, a, p, q);
    lemma_resolved_paths_mono(ts, f, a, a, q, p);
    assert(p =~= q);
}

/// The modules that the changes hold are modules of the changed files.
proof fn lemma_class_changes_keys(ts: Seq<Tree>, sc: Seq<(String, Vec<Symbol>)>, m: Seq<char>)
    requires
        exists|i: int| 0 <= i < class_changes(ts, sc).len() && (#[trigger] class_changes(ts, sc)[i]).0 == m,
    ensures
        exists|j: int| 0 <= j < sc.len() && class_across(ts, (#[trigger] sc[j]).0@) == Some(m),
    decreases sc.len(),
{
    let prev = class_changes(ts, sc.drop_last());
    let cc = class_changes(ts, sc);
    let i = choose|i: int| 0 <= i < cc.len() && (#[trigger] cc[i]).0 == m;
    if sc.len() == 0 {
        assert(cc.len() == 0);
    }
    assert(sc.last() == sc[sc.len() - 1]);
    match class_across(ts, sc.last().0@) {
        None => {
            lemma_class_changes_keys(ts, sc.drop_last(), m);
            let j = choose|j: int| 0 <= j < sc.drop_last().len() && class_across(ts, (#[trigger] sc.drop_last()[j]).0@) == Some(m);
            assert(sc.drop_last()[j] == sc[j]);
        },
        Some(c) => {
            if m != c {
                let v = sc.last().1@.map_values(|s: Symbol| s@);
                assert(cc == upsert(prev, c, v));
                if exists|k: int| 0 <= k < prev.len() && (#[trigger] prev[k]).0 == c {
                    assert(cc[i] == prev[i]);
                } else {
                    assert(cc == prev.push((c, v)));
                    assert(cc[i] == prev[i]);
                }
                lemma_class_changes_keys(ts, sc.drop_last(), m);
                let j = choose|j: int| 0 <= j < sc.drop_last().len() && class_across(ts, (#[trigger] sc.drop_last()[j]).0@) == Some(m);
                assert(sc.drop_last()[j] == sc[j]);
            }
        },
    }
}

/// Symbol-level tracking only ever narrows the module-level answer, over files
/// too: with an existence check that answers alike, the files flagged for
/// symbol changes are among those that module-level tracking flags for files
/// that hold the changed files.
pub proof fn lemma_symbol_aware_paths_within_module_level<F: Fn(&String) -> bool>(
    ts: Seq<Tree>,
    f: F,
    sc: Seq<(String, Vec<Symbol>)>,
    fb: Seq<String>,
    files: Seq<String>,
    p: Set<Seq<char>>,
    q: Set<Seq<char>>,
)
    requires
        trees_wf(ts),
        answers_alike(f),
        forall|i: int| 0 <= i < sc.len() ==> exists|j: int| 0 <= j < files.len() && (#[trigger] files[j])@ == (#[trigger] sc[i]).0@,
        forall|i: int| 0 <= i < fb.len() ==> exists|j: int| 0 <= j < files.len() && (#[trigger] files[j])@ == (#[trigger] fb[i])@,
        resolved_paths(ts, f, symbol_aware(ts, class_changes(ts, sc), input_classes(ts, fb)), p),
        resolved_paths(ts, f, closure(importers_rel(ts), input_classes(ts, files)), q),
    ensures
        p.subset_of(q),
{
    let scv = class_changes(ts, sc);
    let fbs = input_classes(ts, fb);
    let ins = input_classes(ts, files);
    let rel = importers_rel(ts);
    lemma_symbol_aware_within_module_level(ts, scv, fbs);
    assert forall|m: Seq<char>| #[trigger] seeds(scv, fbs).contains(m) implies ins.contains(m) by {
        if fbs.contains(m) {
            let i = choose|i: int| 0 <= i < fb.len() && class_across(ts, (#[trigger] fb[i])@) == Some(m);
            let j = choose|j: int| 0 <= j < files.len() && (#[trigger] files[j])@ == (#[trigger] fb[i])@;
            assert(class_across(ts, files[j]@) == Some(m));
        } else {
            lemma_class_changes_keys(ts, sc, m);
            let i = choose|i: int| 0 <= i < sc.len() && class_across(ts, (#[trigger] sc[i]).0@) == Some(m);
            let j = choose|j: int| 0 <= j < files.len() && (#[trigger] files[j])@ == (#[trigger] sc[i]).0@;
            assert(class_across(ts, files[j]@) == Some(m));
        }
    }
    assert forall|x: Seq<char>| #[trigger] closure(rel, seeds(scv, fbs)).contains(x) implies closure(rel, ins).contains(x) by {
        assert forall|s: Seq<char>| #[trigger] seeds(scv, fbs).contains(s) implies closure(rel, ins).contains(s) by {
            lemma_starts_in_closure(rel, ins, s);
        }
        lemma_closure_trans(rel, seeds(scv, fbs), ins, x);
    }
    lemma_resolved_paths_mono(ts, f, symbol_aware(ts, scv, fbs), closure(rel, ins), p, q);
}

/// With no symbol changes, symbol-level tracking is module-level tracking:
/// every importer of a changed module is flagged, and every importer of a
/// flagged module after it.
pub proof fn lemma_no_symbol_changes_is_module_level(ts: Seq<Tree>, fb: Set<Seq<char>>)
    ensures
        symbol_aware(ts, Seq::empty(), fb) == closure(importers_rel(ts), fb),
{
    let rel = importers_rel(ts);
    let sc: ChangesModel = Seq::empty();
    let sd = seeds(sc, fb);
    let fh = first_hop(ts, sc, fb);
    let res = symbol_aware(ts, sc, fb);
    assert(sd =~= fb);
    assert forall|b: Seq<char>| #[trigger] fh.contains(b) implies closure(rel, sd).contains(b) by {
        let fs = |i: int| first_hop_of(ts, sc[i].0, sc[i].1);
        if union_upto(fs, 0).contains(b) {
            let i = choose|i: int| 0 <= i < 0 && #[trigger] fs(i).contains(b);
        }
        let m = choose|m: Seq<char>| #[trigger] fb.contains(m) && import_edge(ts, m, b);
        lemma_starts_in_closure(rel, sd, m);
        assert(rel(m, b));
        lemma_closure_step(rel, sd, m, b);
    }
    assert forall|x: Seq<char>| #[trigger] res.contains(x) implies closure(rel, sd).contains(x) by {
        if sd.contains(x) {
            lemma_starts_in_closure(rel, sd, x);
        } else {
            lemma_avoiding_in_closure(rel, fh, sd, x);
            lemma_closure_trans(rel, fh, sd, x);
        }
    }
    assert forall|m: Seq<char>, b: Seq<char>| sd.contains(m) && #[trigger] rel(m, b) implies fh.contains(b) by {
        assert(import_edge(ts, m, b));
    }
    assert forall|a: Seq<char>, b: Seq<char>| res.contains(a) && #[trigger] rel(a, b) implies res.contains(b) by {
        if !sd.contains(b) {
            if sd.contains(a) {
                let p = seq![b];
                assert(crate::reach::is_walk(rel, p));
                assert(crate::reach::avoids(p, sd));
                assert(fh.contains(p[0]));
                assert(reaches_avoiding(rel, fh, sd, b));
            } else {
                lemma_extend_avoiding(rel, fh, sd, a, b);
            }
        }
    }
    assert forall|x: Seq<char>| #[trigger] closure(rel, sd).contains(x) implies res.contains(x) by {
        lemma_closure_least(rel, sd, res, x);
    }
    assert(res =~= closure(rel, fb));
}

/// Files without symbol information get the full module-level search: with an
/// existence check that answers alike and no symbol changes, the symbol-aware
/// query flags exactly the files that the module-level query flags.
pub proof fn lemma_no_symbol_changes_paths<F: Fn(&String) -> bool>(
    ts: Seq<Tree>,
    f: F,
    fb: Seq<String>,
    p: Set<Seq<char>>,
    q: Set<Seq<char>>,
)
    requires
        answers_alike(f),
        resolved_paths(ts, f, symbol_aware(ts, class_changes(ts, Seq::empty()), input_classes(ts, fb)), p),
        resolved_paths(ts, f, closure(importers_rel(ts), input_classes(ts, fb)), q),
    ensures
        p == q,
{
    assert(class_changes(ts, Seq::<(String, Vec<Symbol>)>::empty()) =~= Seq::<(Seq<char>, Seq<SymbolModel>)>::empty());
    lemma_no_symbol_changes_is_module_level(ts, input_classes(ts, fb));
    lemma_resolved_paths_unique(ts, f, closure(importers_rel(ts), input_classes(ts, fb)), p, q);
}

} // verus!
