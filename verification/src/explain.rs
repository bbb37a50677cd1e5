//! Dependees traced back to the inputs that trigger them.
use vstd::prelude::*;
use crate::strs::{sset, nodup};
use crate::reach::closure;
use crate::graph::{Trees, importers_rel, input_classes, resolved_paths, symbol_aware, class_changes};
use crate::symbols::Symbol;

verus! {

pub open spec fn strs_view(v: Seq<String>) -> Seq<Seq<char>> {
    v.map_values(|x: String| x@)
}

/// The per-input results `per` as values.
pub open spec fn per_view(per: Seq<(String, Vec<String>)>) -> Seq<(Seq<char>, Set<Seq<char>>)> {
    per.map_values(|e: (String, Vec<String>)| (e.0@, sset(e.1@)))
}

/// The inputs whose results hold `d`, in the order of `per`.
pub open spec fn triggers_of(per: Seq<(Seq<char>, Set<Seq<char>>)>, d: Seq<char>) -> Seq<Seq<char>>
    decreases per.len(),
{
    if per.len() == 0 {
        Seq::empty()
    } else if per.last().1.contains(d) {
        triggers_of(per.drop_last(), d).push(per.last().0)
    } else {
        triggers_of(per.drop_last(), d)
    }
}

/// Everything some input's result holds.
pub open spec fn all_results(per: Seq<(Seq<char>, Set<Seq<char>>)>) -> Set<Seq<char>> {
    Set::new(|d: Seq<char>| exists|i: int| 0 <= i < per.len() && (#[trigger] per[i]).1.contains(d))
}

/// `r` maps each result of `per` once to the inputs that trigger it.
pub open spec fn is_inversion(r: Seq<(String, Vec<String>)>, per: Seq<(Seq<char>, Set<Seq<char>>)>) -> bool {
    &&& forall|i: int, j: int| 0 <= i < r.len() && 0 <= j < r.len() && i != j ==> r[i].0@ != r[j].0@
    &&& forall|i: int| 0 <= i < r.len() ==> all_results(per).contains(#[trigger] r[i].0@)
        && strs_view(r[i].1@) == triggers_of(per, r[i].0@)
    &&& forall|d: Seq<char>| #[trigger] all_results(per).contains(d) ==> exists|i: int| 0 <= i < r.len() && r[i].0@ == d
}

fn find_key(r: &Vec<(String, Vec<String>)>, d: &String) -> (k: Option<usize>)
    ensures
        match k {
            Some(i) => i < r@.len() && r@[i as int].0@ == d@,
            None => forall|i: int| 0 <= i < r@.len() ==> r@[i].0@ != d@,
        },
{
    let mut i: usize = 0;
    while i < r.len()
        invariant
            i <= r@.len(),
            forall|j: int| 0 <= j < i ==> r@[j].0@ != d@,
        decreases r@.len() - i,
    {
        if r[i].0 == *d {
            return Some(i);
        }
        i = i + 1;
    }
    None
}

proof fn lemma_triggers_none(per: Seq<(Seq<char>, Set<Seq<char>>)>, d: Seq<char>)
    requires
        !all_results(per).contains(d),
    ensures
        triggers_of(per, d) == Seq::<Seq<char>>::empty(),
    decreases per.len(),
{
    if per.len() > 0 {
        assert(!per[per.len() - 1].1.contains(d));
        assert forall|i: int| 0 <= i < per.drop_last().len() implies !(#[trigger] per.drop_last()[i]).1.contains(d) by {
            assert(per.drop_last()[i] == per[i]);
        }
        lemma_triggers_none(per.drop_last(), d);
    }
}

/// The results of `per` mapped to the inputs that trigger them: for each result,
/// in the order in which it first appears, the inputs whose results hold it.
pub fn invert_results(per: &Vec<(String, Vec<String>)>) -> (r: Vec<(String, Vec<String>)>)
    ensures
        is_inversion(r@, per_view(per@)),
{
    let ghost pv = per_view(per@);
    let mut r: Vec<(String, Vec<String>)> = Vec::new();
    let mut i: usize = 0;
    assert(pv.take(0) =~= Seq::<(Seq<char>, Set<Seq<char>>)>::empty());
    while i < per.len()
        invariant
            i <= per@.len(),
            pv == per_view(per@),
            is_inversion(r@, pv.take(i as int)),
        decreases per@.len() - i,
    {
        let ghost pre = pv.take(i as int);
        let ghost post = pv.take(i + 1);
        assert(post.drop_last() =~= pre);
        assert(post.last() == pv[i as int]);
        assert(pv[i as int] == (per@[i as int].0@, sset(per@[i as int].1@)));
        let input = &per[i].0;
        let res = &per[i].1;
        assert forall|d: Seq<char>| #[trigger] all_results(post).contains(d) <==>
            (all_results(pre).contains(d) || sset(res@).contains(d)) by {
            if all_results(post).contains(d) {
                let j = choose|j: int| 0 <= j < post.len() && (#[trigger] post[j]).1.contains(d);
                if j < pre.len() {
                    assert(pre[j] == post[j]);
                }
            }
            if all_results(pre).contains(d) {
                let j = choose|j: int| 0 <= j < pre.len() && (#[trigger] pre[j]).1.contains(d);
                assert(post[j] == pre[j]);
            }
            if sset(res@).contains(d) {
                assert(post[i as int].1.contains(d));
            }
        }
        // the entries already listed gain this input where its result holds them
        let ghost r0 = r@;
        let mut a: usize = 0;
        while a < r.len()
            invariant
                a <= r@.len() == r0.len(),
                i < per@.len(),
                is_inversion(r0, pre),
                *res == per@[i as int].1,
                *input == per@[i as int].0,
                post.len() > 0,
                post.last() == (input@, sset(res@)),
                post.drop_last() == pre,
                forall|x: int| 0 <= x < r@.len() ==> (#[trigger] r@[x]).0 == r0[x].0,
                forall|x: int| 0 <= x < a ==> strs_view((#[trigger] r@[x]).1@) == triggers_of(post, r0[x].0@),
                forall|x: int| a <= x < r@.len() ==> (#[trigger] r@[x]).1 == r0[x].1,
            decreases r0.len() - a,
        {
            let ghost ka = r0[a as int].0@;
            assert(strs_view(r0[a as int].1@) == triggers_of(pre, ka));
            if crate::strs::contains(res, &r[a].0) {
                let mut ts = r[a].1.clone();
                let ghost tb = r@[a as int].1@;
                ts.push(input.clone());
                let key = r[a].0.clone();
                let ghost rb = r@;
                r.set(a, (key, ts));
                assert(triggers_of(post, ka) == triggers_of(pre, ka).push(input@));
                assert(strs_view(r@[a as int].1@) =~= strs_view(tb).push(input@));
                assert forall|x: int| 0 <= x < r@.len() && x != a implies #[trigger] r@[x] == rb[x] by {}
            } else {
                assert(triggers_of(post, ka) == triggers_of(pre, ka));
            }
            a = a + 1;
        }
        // results met for the first time get an entry of their own
        let ghost r1 = r@;
        assert forall|x: int| 0 <= x < r@.len() implies all_results(post).contains(#[trigger] r@[x].0@)
            && strs_view(r@[x].1@) == triggers_of(post, r@[x].0@) by {
            assert(all_results(pre).contains(r0[x].0@));
        }
        assert forall|d: Seq<char>| #[trigger] all_results(pre).contains(d) implies exists|x: int| 0 <= x < r@.len() && r@[x].0@ == d by {
            let x = choose|x: int| 0 <= x < r0.len() && r0[x].0@ == d;
            assert(r@[x].0 == r0[x].0);
        }
        let mut k: usize = 0;
        while k < res.len()
            invariant
                k <= res@.len(),
                i < per@.len(),
                r1.len() <= r@.len(),
                *res == per@[i as int].1,
                *input == per@[i as int].0,
                post.len() > 0,
                post.last() == (input@, sset(res@)),
                post.drop_last() == pre,
                forall|d: Seq<char>| #[trigger] all_results(post).contains(d) <==>
                    (all_results(pre).contains(d) || sset(res@).contains(d)),
                forall|x: int| 0 <= x < r1.len() ==> (#[trigger] r@[x]) == r1[x],
                forall|x: int, y: int| 0 <= x < r@.len() && 0 <= y < r@.len() && x != y ==> r@[x].0@ != r@[y].0@,
                forall|x: int| 0 <= x < r@.len() ==> all_results(post).contains(#[trigger] r@[x].0@)
                    && strs_view(r@[x].1@) == triggers_of(post, r@[x].0@),
                forall|d: Seq<char>| #[trigger] all_results(pre).contains(d) ==> exists|x: int| 0 <= x < r@.len() && r@[x].0@ == d,
                forall|j: int| 0 <= j < k ==> exists|x: int| 0 <= x < r@.len() && r@[x].0@ == (#[trigger] res@[j])@,
            decreases res@.len() - k,
        {
            let d = &res[k];
            assert(sset(res@).contains(d@));
            match find_key(&r, d) {
                Some(_) => {},
                None => {
                    proof {
                        lemma_triggers_none(pre, d@);
                    }
                    assert(triggers_of(post, d@) == triggers_of(pre, d@).push(input@));
                    let ghost rb = r@;
                    r.push((d.clone(), vec![input.clone()]));
                    assert(strs_view(r@[rb.len() as int].1@) =~= seq![input@]);
                    assert forall|x: int, y: int| 0 <= x < r@.len() && 0 <= y < r@.len() && x != y implies r@[x].0@ != r@[y].0@ by {
                        if x < rb.len() && y < rb.len() {
                            assert(r@[x] == rb[x] && r@[y] == rb[y]);
                        } else if x < rb.len() {
                            assert(r@[x] == rb[x]);
                        } else if y < rb.len() {
                            assert(r@[y] == rb[y]);
                        }
                    }
                    assert forall|x: int| 0 <= x < r@.len() implies all_results(post).contains(#[trigger] r@[x].0@)
                        && strs_view(r@[x].1@) == triggers_of(post, r@[x].0@) by {
                        if x < rb.len() {
                            assert(r@[x] == rb[x]);
                        }
                    }
                    assert forall|d2: Seq<char>| #[trigger] all_results(pre).contains(d2) implies exists|x: int| 0 <= x < r@.len() && r@[x].0@ == d2 by {
                        let x = choose|x: int| 0 <= x < rb.len() && rb[x].0@ == d2;
                        assert(r@[x] == rb[x]);
                    }
                    assert forall|j: int| 0 <= j < k implies exists|x: int| 0 <= x < r@.len() && r@[x].0@ == (#[trigger] res@[j])@ by {
                        let x = choose|x: int| 0 <= x < rb.len() && rb[x].0@ == res@[j]@;
                        assert(r@[x] == rb[x]);
                    }
                },
            }
            k = k + 1;
        }
        assert forall|d: Seq<char>| #[trigger] all_results(post).contains(d) implies exists|x: int| 0 <= x < r@.len() && r@[x].0@ == d by {
            if !all_results(pre).contains(d) {
                let j = choose|j: int| 0 <= j < res@.len() && res@[j]@ == d;
            }
        }
        i = i + 1;
    }
    assert(pv.take(per@.len() as int) =~= pv);
    r
}

/// The changed symbols listed last for the file `f`, if any.
pub open spec fn changes_for(sc: Seq<(String, Vec<Symbol>)>, f: Seq<char>) -> Option<Vec<Symbol>>
    decreases sc.len(),
{
    if sc.len() == 0 {
        None
    } else if sc.last().0@ == f {
        Some(sc.last().1)
    } else {
        changes_for(sc.drop_last(), f)
    }
}

fn changes_lookup<'a>(sc: &'a Vec<(String, Vec<Symbol>)>, f: &String) -> (r: Option<&'a Vec<Symbol>>)
    ensures
        match r {
            Some(v) => changes_for(sc@, f@) == Some(*v),
            None => changes_for(sc@, f@) is None,
        },
{
    let mut i = sc.len();
    assert(sc@.take(i as int) =~= sc@);
    while i > 0
        invariant
            i <= sc@.len(),
            changes_for(sc@, f@) == changes_for(sc@.take(i as int), f@),
        decreases i,
    {
        assert(sc@.take(i as int).drop_last() =~= sc@.take(i - 1));
        assert(sc@.take(i as int).last() == sc@[i - 1]);
        if sc[i - 1].0 == *f {
            return Some(&sc[i - 1].1);
        }
        i = i - 1;
    }
    None
}

/// The symbol-aware dependees of the single input `f`: by its changed symbols
/// when it has some, else module-level.
pub open spec fn single_dependees<F: Fn(&String) -> bool>(
    ts: Seq<crate::graph::Tree>,
    pe: F,
    sc: Seq<(String, Vec<Symbol>)>,
    f: String,
    found: Set<Seq<char>>,
) -> bool {
    match changes_for(sc, f@) {
        Some(syms) => resolved_paths(ts, pe, symbol_aware(ts, class_changes(ts, seq![(f, syms)]),
            crate::graph::input_classes(ts, Seq::<String>::empty())), found),
        None => resolved_paths(ts, pe, symbol_aware(ts, class_changes(ts, Seq::<(String, Vec<Symbol>)>::empty()),
            crate::graph::input_classes(ts, seq![f])), found),
    }
}

impl Trees {
    /// The symbol-aware dependees of the single input `f`.
    fn single_input_dependees<F: Fn(&String) -> bool>(
        &self,
        symbol_changes: &Vec<(String, Vec<Symbol>)>,
        f: &String,
        path_exists: &F,
    ) -> (r: Vec<String>)
        requires
            forall|s: &String| #[trigger] path_exists.requires((s,)),
        ensures
            single_dependees(self.trees@, *path_exists, symbol_changes@, *f, sset(r@)),
    {
        match changes_lookup(symbol_changes, f) {
            Some(syms) => {
                let sc = vec![(f.clone(), crate::graph::copy_symbols(syms))];
                let fb: Vec<String> = Vec::new();
                let d = self.get_dependees_symbol_aware(&sc, &fb, path_exists);
                assert(fb@ =~= Seq::<String>::empty());
                assert(class_changes(self.trees@, sc@) =~= class_changes(self.trees@, seq![(*f, *syms)])) by {
                    let one = seq![(*f, *syms)];
                    assert(sc@.drop_last() =~= Seq::<(String, Vec<Symbol>)>::empty());
                    assert(one.drop_last() =~= Seq::<(String, Vec<Symbol>)>::empty());
                    assert(sc@.last().0@ == one.last().0@);
                    assert(sc@.last().1@.map_values(|s: Symbol| s@) == one.last().1@.map_values(|s: Symbol| s@));
                }
                d
            },
            None => {
                let sc: Vec<(String, Vec<Symbol>)> = Vec::new();
                let fb = vec![f.clone()];
                let d = self.get_dependees_symbol_aware(&sc, &fb, path_exists);
                assert(sc@ =~= Seq::<(String, Vec<Symbol>)>::empty());
                assert(input_classes(self.trees@, fb@) =~= input_classes(self.trees@, seq![*f])) by {
                    let one = seq![*f];
                    assert(fb@[0]@ == f@);
                    assert(one[0] == *f);
                    assert forall|c: Seq<char>| input_classes(self.trees@, fb@).contains(c) implies
                        input_classes(self.trees@, one).contains(c) by {
                        let i = choose|i: int| 0 <= i < fb@.len() && crate::graph::class_across(self.trees@, (#[trigger] fb@[i])@) == Some(c);
                        assert(i == 0);
                        assert(crate::graph::class_across(self.trees@, one[0]@) == Some(c));
                    }
                    assert forall|c: Seq<char>| input_classes(self.trees@, one).contains(c) implies
                        input_classes(self.trees@, fb@).contains(c) by {
                        let i = choose|i: int| 0 <= i < one.len() && crate::graph::class_across(self.trees@, (#[trigger] one[i])@) == Some(c);
                        assert(i == 0);
                        assert(crate::graph::class_across(self.trees@, fb@[0]@) == Some(c));
                    }
                }
                d
            },
        }
    }

    /// Dependees computed once per input file, to track which input triggered each:
    /// for each dependee, the inputs whose dependees hold it.
    pub fn get_dependees_explained<F: Fn(&String) -> bool>(
        &self,
        input_files: &Vec<String>,
        path_exists: &F,
    ) -> (r: Vec<(String, Vec<String>)>)
        requires
            forall|s: &String| #[trigger] path_exists.requires((s,)),
        ensures
            exists|per: Seq<(String, Vec<String>)>| {
                &&& per.len() == input_files@.len()
                &&& forall|i: int| 0 <= i < per.len() ==> (#[trigger] per[i]).0@ == input_files@[i]@
                    && resolved_paths(self.trees@, *path_exists,
                        closure(importers_rel(self.trees@), input_classes(self.trees@, seq![input_files@[i]])), sset(per[i].1@))
                &&& is_inversion(r@, per_view(per))
            },
    {
        let mut per: Vec<(String, Vec<String>)> = Vec::new();
        let mut i: usize = 0;
        while i < input_files.len()
            invariant
                i <= input_files@.len(),
                forall|s: &String| #[trigger] path_exists.requires((s,)),
                per@.len() == i,
                forall|k: int| 0 <= k < i ==> (#[trigger] per@[k]).0@ == input_files@[k]@
                    && resolved_paths(self.trees@, *path_exists,
                        closure(importers_rel(self.trees@), input_classes(self.trees@, seq![input_files@[k]])), sset(per@[k].1@)),
            decreases input_files@.len() - i,
        {
            let single = vec![input_files[i].clone()];
            assert(single@ =~= seq![input_files@[i as int]]) by {
                assert(single@[0]@ == input_files@[i as int]@);
            }
            let deps = self.get_dependees(&single, path_exists);
            assert(input_classes(self.trees@, single@) == input_classes(self.trees@, seq![input_files@[i as int]])) by {
                assert(input_classes(self.trees@, single@) =~= input_classes(self.trees@, seq![input_files@[i as int]]));
            }
            per.push((input_files[i].clone(), deps));
            i = i + 1;
        }
        invert_results(&per)
    }

    /// Symbol-aware dependees computed once per input (the files with changed
    /// symbols, then the fallback files): for each dependee, the inputs whose
    /// dependees hold it.
    pub fn get_dependees_symbol_aware_explained<F: Fn(&String) -> bool>(
        &self,
        symbol_changes: &Vec<(String, Vec<Symbol>)>,
        fallback_files: &Vec<String>,
        path_exists: &F,
    ) -> (r: Vec<(String, Vec<String>)>)
        requires
            forall|s: &String| #[trigger] path_exists.requires((s,)),
        ensures
            exists|per: Seq<(String, Vec<String>)>| {
                &&& per.len() == symbol_changes@.len() + fallback_files@.len()
                &&& forall|i: int| 0 <= i < symbol_changes@.len() ==> (#[trigger] per[i]).0 == symbol_changes@[i].0
                &&& forall|i: int| 0 <= i < fallback_files@.len() ==> (#[trigger] per[symbol_changes@.len() + i]).0
                    == fallback_files@[i]
                &&& forall|i: int| 0 <= i < per.len() ==> single_dependees(self.trees@, *path_exists, symbol_changes@,
                    #[trigger] per[i].0, sset(per[i].1@))
                &&& is_inversion(r@, per_view(per))
            },
    {
        let n = symbol_changes.len();
        let mut per: Vec<(String, Vec<String>)> = Vec::new();
        let mut i: usize = 0;
        while i < n
            invariant
                n == symbol_changes@.len(),
                i <= n,
                forall|s: &String| #[trigger] path_exists.requires((s,)),
                per@.len() == i,
                forall|k: int| 0 <= k < i ==> (#[trigger] per@[k]).0 == symbol_changes@[k].0,
                forall|k: int| 0 <= k < i ==> single_dependees(self.trees@, *path_exists, symbol_changes@,
                    #[trigger] per@[k].0, sset(per@[k].1@)),
            decreases n - i,
        {
            let f = &symbol_changes[i].0;
            let deps = self.single_input_dependees(symbol_changes, f, path_exists);
            per.push((f.clone(), deps));
            i = i + 1;
        }
        let mut j: usize = 0;
        while j < fallback_files.len()
            invariant
                n == symbol_changes@.len(),
                j <= fallback_files@.len(),
                forall|s: &String| #[trigger] path_exists.requires((s,)),
                per@.len() == n + j,
                forall|k: int| 0 <= k < n ==> (#[trigger] per@[k]).0 == symbol_changes@[k].0,
                forall|k: int| 0 <= k < j ==> (#[trigger] per@[n + k]).0 == fallback_files@[k],
                forall|k: int| 0 <= k < n + j ==> single_dependees(self.trees@, *path_exists, symbol_changes@,
                    #[trigger] per@[k].0, sset(per@[k].1@)),
            decreases fallback_files@.len() - j,
        {
            let f = &fallback_files[j];
            let deps = self.single_input_dependees(symbol_changes, f, path_exists);
            let ghost before = per@;
            per.push((f.clone(), deps));
            assert forall|k: int| 0 <= k < n implies (#[trigger] per@[k]).0 == symbol_changes@[k].0 by {
                assert(per@[k] == before[k]);
            }
            assert forall|k: int| 0 <= k < j + 1 implies (#[trigger] per@[n + k]).0 == fallback_files@[k] by {
                if k < j {
                    assert(per@[n + k] == before[n + k]);
                }
            }
            j = j + 1;
        }
        invert_results(&per)
    }
}

} // verus!
