//! Reachability over a relation between names, given as a list of edges.
use vstd::prelude::*;
use crate::strs::{sset, nodup, contains, insert, extend, lemma_sset_push, lemma_empty};

verus! {

/// `(a, b)` is among the edges `es`.
pub open spec fn is_edge(es: Seq<(String, String)>, a: Seq<char>, b: Seq<char>) -> bool {
    exists|k: int| 0 <= k < es.len() && (#[trigger] es[k]).0@ == a && es[k].1@ == b
}

/// A relation between names.
pub type Rel = spec_fn(Seq<char>, Seq<char>) -> bool;

/// The edge list `es` holds exactly the pairs of `rel`.
pub open spec fn edges_are(es: Seq<(String, String)>, rel: Rel) -> bool {
    forall|a: Seq<char>, b: Seq<char>| #[trigger] rel(a, b) <==> is_edge(es, a, b)
}

/// `p` is a non-empty walk along `rel`.
pub open spec fn is_walk(rel: Rel, p: Seq<Seq<char>>) -> bool {
    &&& p.len() >= 1
    &&& forall|i: int| 0 <= i < p.len() - 1 ==> rel(#[trigger] p[i], p[i + 1])
}

/// No name on the walk `p` is in `blocked`.
pub open spec fn avoids(p: Seq<Seq<char>>, blocked: Set<Seq<char>>) -> bool {
    forall|i: int| 0 <= i < p.len() ==> !blocked.contains(#[trigger] p[i])
}

/// `x` is reached from a name of `starts` by a walk along `rel` that meets no name of `blocked`.
pub open spec fn reaches_avoiding(
    es: Rel,
    starts: Set<Seq<char>>,
    blocked: Set<Seq<char>>,
    x: Seq<char>,
) -> bool {
    exists|p: Seq<Seq<char>>|
        is_walk(es, p) && starts.contains(#[trigger] p[0]) && p.last() == x && avoids(p, blocked)
}

/// `x` is reached from a name of `starts` by a walk along `es`.
pub open spec fn reaches(es: Rel, starts: Set<Seq<char>>, x: Seq<char>) -> bool {
    reaches_avoiding(es, starts, Set::empty(), x)
}

/// The names of `blocked`, and those reached from `starts` while avoiding `blocked`.
pub open spec fn closure_avoiding(
    es: Rel,
    starts: Set<Seq<char>>,
    blocked: Set<Seq<char>>,
) -> Set<Seq<char>> {
    blocked.union(Set::new(|x: Seq<char>| reaches_avoiding(es, starts, blocked, x)))
}

/// The names reached from `starts`, `starts` included.
pub open spec fn closure(es: Rel, starts: Set<Seq<char>>) -> Set<Seq<char>> {
    Set::new(|x: Seq<char>| reaches(es, starts, x))
}

/// The sequence of names that may enter the work list: the starts, then the edge targets.
pub open spec fn slots(starts: Seq<String>, es: Seq<(String, String)>) -> Seq<Seq<char>> {
    starts.map_values(|s: String| s@) + es.map_values(|e: (String, String)| e.1@)
}

/// How many slots hold a name not yet in `seen`.
pub open spec fn count_unseen(sl: Seq<Seq<char>>, seen: Set<Seq<char>>) -> nat
    decreases sl.len(),
{
    if sl.len() == 0 {
        0
    } else {
        count_unseen(sl.drop_last(), seen) + if seen.contains(sl.last()) { 0nat } else { 1nat }
    }
}

pub proof fn lemma_count_insert(sl: Seq<Seq<char>>, seen: Set<Seq<char>>, x: Seq<char>)
    ensures
        count_unseen(sl, seen.insert(x)) <= count_unseen(sl, seen),
        sl.contains(x) && !seen.contains(x) ==> count_unseen(sl, seen.insert(x)) < count_unseen(sl, seen),
    decreases sl.len(),
{
    if sl.len() > 0 {
        lemma_count_insert(sl.drop_last(), seen, x);
        if sl.contains(x) && !seen.contains(x) && sl.last() != x {
            let k = choose|k: int| 0 <= k < sl.len() && sl[k] == x;
            assert(sl.drop_last()[k] == x);
        }
    }
}

/// A walk that starts in `seen`, avoids `blocked`, and leaves no name of
/// `seen` outside `blocked` without its successors stays inside `seen`.
pub proof fn lemma_walk_inside(
    es: Rel,
    seen: Set<Seq<char>>,
    blocked: Set<Seq<char>>,
    p: Seq<Seq<char>>,
    n: int,
)
    requires
        is_walk(es, p),
        avoids(p, blocked),
        seen.contains(p[0]),
        forall|a: Seq<char>, b: Seq<char>|
            seen.contains(a) && !blocked.contains(a) && #[trigger] es(a, b) ==> seen.contains(b),
        0 <= n < p.len(),
    ensures
        seen.contains(p[n]),
    decreases n,
{
    if n > 0 {
        lemma_walk_inside(es, seen, blocked, p, n - 1);
        assert(es(p[n - 1], p[n]));
        assert(!blocked.contains(p[n - 1]));
    }
}

/// Extending a walk by one edge keeps it a walk.
pub proof fn lemma_walk_push(es: Rel, p: Seq<Seq<char>>, y: Seq<char>)
    requires
        is_walk(es, p),
        es(p.last(), y),
    ensures
        is_walk(es, p.push(y)),
        p.push(y)[0] == p[0],
        p.push(y).last() == y,
{
    assert forall|i: int| 0 <= i < p.push(y).len() - 1 implies es(#[trigger] p.push(y)[i], p.push(y)[i + 1]) by {
        if i < p.len() - 1 {
            assert(p.push(y)[i] == p[i] && p.push(y)[i + 1] == p[i + 1]);
        } else {
            assert(p.push(y)[i] == p.last());
        }
    }
}

/// Every name held by the successors of `x` in `es`, in edge order.
fn successors_into(es: &Vec<(String, String)>, x: &String, seen: &Vec<String>, pending: &mut Vec<String>)
    ensures
        forall|b: Seq<char>| is_edge(es@, x@, b) ==> sset(seen@).contains(b) || sset(final(pending)@).contains(b),
        forall|i: int| 0 <= i < old(pending)@.len() ==> final(pending)@[i] == old(pending)@[i],
        final(pending)@.len() >= old(pending)@.len(),
        forall|i: int| old(pending)@.len() <= i < final(pending)@.len() ==>
            is_edge(es@, x@, #[trigger] final(pending)@[i]@) && !sset(seen@).contains(final(pending)@[i]@)
                && exists|k: int| 0 <= k < es@.len() && es@[k].1@ == final(pending)@[i]@,
{
    let mut k: usize = 0;
    while k < es.len()
        invariant
            k <= es.len(),
            forall|j: int| 0 <= j < k && (#[trigger] es@[j]).0@ == x@ ==>
                sset(seen@).contains(es@[j].1@) || sset(pending@).contains(es@[j].1@),
            forall|i: int| 0 <= i < old(pending)@.len() ==> pending@[i] == old(pending)@[i],
            pending@.len() >= old(pending)@.len(),
            forall|i: int| old(pending)@.len() <= i < pending@.len() ==>
                is_edge(es@, x@, #[trigger] pending@[i]@) && !sset(seen@).contains(pending@[i]@)
                    && exists|k: int| 0 <= k < es@.len() && es@[k].1@ == pending@[i]@,
        decreases es.len() - k,
    {
        if es[k].0 == *x && !contains(seen, &es[k].1) {
            let ghost before = pending@;
            pending.push(es[k].1.clone());
            proof {
                lemma_sset_push(before, pending@.last());
                assert(is_edge(es@, x@, es@[k as int].1@));
            }
        }
        k = k + 1;
    }
}

/// Everything seen beyond `blocked` is reached avoiding `blocked`.
spec fn inv_seen(es: Rel, st: Set<Seq<char>>, bl: Set<Seq<char>>, seen: Set<Seq<char>>) -> bool {
    forall|x: Seq<char>| #[trigger] seen.contains(x) && !bl.contains(x) ==> reaches_avoiding(es, st, bl, x)
}

/// Everything on the work list is blocked or reached, and may enter the work list.
spec fn inv_pending(
    es: Rel,
    st: Set<Seq<char>>,
    bl: Set<Seq<char>>,
    sl: Seq<Seq<char>>,
    pending: Seq<String>,
) -> bool {
    forall|j: int| 0 <= j < pending.len() ==> {
        &&& (bl.contains(#[trigger] pending[j]@) || reaches_avoiding(es, st, bl, pending[j]@))
        &&& sl.contains(pending[j]@)
    }
}

/// The successors of every name seen beyond `blocked` are seen or pending.
spec fn inv_closed(es: Rel, bl: Set<Seq<char>>, seen: Set<Seq<char>>, pend: Set<Seq<char>>) -> bool {
    forall|a: Seq<char>, b: Seq<char>|
        seen.contains(a) && !bl.contains(a) && #[trigger] es(a, b) ==> seen.contains(b) || pend.contains(b)
}

pub proof fn lemma_trivial_walk(es: Rel, st: Set<Seq<char>>, bl: Set<Seq<char>>, x: Seq<char>)
    requires
        st.contains(x),
        !bl.contains(x),
    ensures
        reaches_avoiding(es, st, bl, x),
{
    let p = seq![x];
    assert(is_walk(es, p));
    assert(avoids(p, bl));
    assert(st.contains(p[0]));
}

pub proof fn lemma_walk_extend(es: Rel, st: Set<Seq<char>>, bl: Set<Seq<char>>, x: Seq<char>, y: Seq<char>)
    requires
        reaches_avoiding(es, st, bl, x),
        es(x, y),
        !bl.contains(y),
    ensures
        reaches_avoiding(es, st, bl, y),
{
    let p = choose|p: Seq<Seq<char>>| is_walk(es, p) && st.contains(#[trigger] p[0]) && p.last() == x && avoids(p, bl);
    lemma_walk_push(es, p, y);
    assert(avoids(p.push(y), bl)) by {
        assert forall|i: int| 0 <= i < p.push(y).len() implies !bl.contains(#[trigger] p.push(y)[i]) by {
            if i < p.len() {
                assert(p.push(y)[i] == p[i]);
            }
        }
    }
}

/// Popping a name already seen keeps the invariants.
proof fn lemma_pop_seen(
    es: Rel,
    st: Set<Seq<char>>,
    bl: Set<Seq<char>>,
    sl: Seq<Seq<char>>,
    seen: Seq<String>,
    pend: Seq<String>,
    x: String,
)
    requires
        inv_pending(es, st, bl, sl, pend.push(x)),
        inv_closed(es, bl, sset(seen), sset(pend.push(x))),
        st.subset_of(sset(seen).union(sset(pend.push(x)))),
        sset(seen).contains(x@),
    ensures
        inv_pending(es, st, bl, sl, pend),
        inv_closed(es, bl, sset(seen), sset(pend)),
        st.subset_of(sset(seen).union(sset(pend))),
{
    lemma_sset_push(pend, x);
    assert forall|j: int| 0 <= j < pend.len() implies {
        &&& (bl.contains(#[trigger] pend[j]@) || reaches_avoiding(es, st, bl, pend[j]@))
        &&& sl.contains(pend[j]@)
    } by {
        assert(pend.push(x)[j] == pend[j]);
    }
}

/// Popping a new name, marking it seen and queueing its unseen successors keeps the invariants.
proof fn lemma_pop_new(
    el: Seq<(String, String)>,
    es: Rel,
    st: Set<Seq<char>>,
    bl: Set<Seq<char>>,
    starts: Seq<String>,
    seen: Seq<String>,
    pend: Seq<String>,
    pend2: Seq<String>,
    x: String,
)
    requires
        edges_are(el, es),
        inv_seen(es, st, bl, sset(seen)),
        inv_pending(es, st, bl, slots(starts, el), pend.push(x)),
        inv_closed(es, bl, sset(seen), sset(pend.push(x))),
        st.subset_of(sset(seen).union(sset(pend.push(x)))),
        bl.subset_of(sset(seen)),
        !sset(seen).contains(x@),
        forall|b: Seq<char>| is_edge(el, x@, b) ==> sset(seen).contains(b) || sset(pend2).contains(b),
        forall|i: int| 0 <= i < pend.len() ==> pend2[i] == pend[i],
        pend2.len() >= pend.len(),
        forall|i: int| pend.len() <= i < pend2.len() ==>
            is_edge(el, x@, #[trigger] pend2[i]@) && !sset(seen).contains(pend2[i]@)
                && exists|k: int| 0 <= k < el.len() && el[k].1@ == pend2[i]@,
    ensures
        inv_seen(es, st, bl, sset(seen).insert(x@)),
        inv_pending(es, st, bl, slots(starts, el), pend2),
        inv_closed(es, bl, sset(seen).insert(x@), sset(pend2)),
        st.subset_of(sset(seen).insert(x@).union(sset(pend2))),
{
    let sl = slots(starts, el);
    lemma_sset_push(pend, x);
    assert(pend.push(x)[pend.len() as int] == x);
    assert(!bl.contains(x@));
    assert(reaches_avoiding(es, st, bl, x@));
    assert forall|j: int| 0 <= j < pend2.len() implies {
        &&& (bl.contains(#[trigger] pend2[j]@) || reaches_avoiding(es, st, bl, pend2[j]@))
        &&& sl.contains(pend2[j]@)
    } by {
        if j >= pend.len() {
            let y = pend2[j]@;
            assert(!bl.contains(y));
            assert(es(x@, y));
            lemma_walk_extend(es, st, bl, x@, y);
            let k = choose|k: int| 0 <= k < el.len() && el[k].1@ == y;
            assert(sl[starts.len() + k] == el[k].1@);
        } else {
            assert(pend.push(x)[j] == pend[j]);
        }
    }
    assert forall|b: Seq<char>| sset(pend).contains(b) implies sset(pend2).contains(b) by {
        let j = choose|j: int| 0 <= j < pend.len() && #[trigger] pend[j]@ == b;
        assert(pend2[j] == pend[j]);
    }
    assert forall|a: Seq<char>, b: Seq<char>|
        sset(seen).insert(x@).contains(a) && !bl.contains(a) && #[trigger] es(a, b) implies
            sset(seen).insert(x@).contains(b) || sset(pend2).contains(b) by {
        if a == x@ {
            assert(is_edge(el, x@, b));
        }
    }
}

/// The names of `blocked`, together with every name reached from `starts`
/// along `es` by a walk that meets no name of `blocked`; each name once.
pub(crate) fn reach_avoiding(
    starts: &Vec<String>,
    blocked: &Vec<String>,
    es: &Vec<(String, String)>,
    Ghost(rel): Ghost<Rel>,
) -> (r: Vec<String>)
    requires
        edges_are(es@, rel),
    ensures
        sset(r@) == closure_avoiding(rel, sset(starts@), sset(blocked@)),
        nodup(r@),
{
    let ghost bl = sset(blocked@);
    let ghost st = sset(starts@);
    let ghost sl = slots(starts@, es@);
    let mut seen: Vec<String> = Vec::new();
    proof { lemma_empty(); }
    extend(&mut seen, blocked);
    assert(sset(seen@) =~= bl);
    let mut pending: Vec<String> = Vec::new();
    let mut i: usize = 0;
    while i < starts.len()
        invariant
            i <= starts.len(),
            pending@.len() == i,
            forall|j: int| 0 <= j < i ==> #[trigger] pending@[j] == starts@[j],
        decreases starts.len() - i,
    {
        pending.push(starts[i].clone());
        i = i + 1;
    }
    proof {
        assert forall|x: Seq<char>| st.contains(x) implies sset(pending@).contains(x) by {
            let j = choose|j: int| 0 <= j < starts@.len() && #[trigger] starts@[j]@ == x;
            assert(pending@[j]@ == x);
        }
        assert forall|j: int| 0 <= j < pending@.len() implies {
            &&& (bl.contains(#[trigger] pending@[j]@) || reaches_avoiding(rel, st, bl, pending@[j]@))
            &&& sl.contains(pending@[j]@)
        } by {
            assert(pending@[j] == starts@[j]);
            assert(st.contains(starts@[j]@));
            if !bl.contains(pending@[j]@) {
                lemma_trivial_walk(rel, st, bl, pending@[j]@);
            }
            assert(sl[j] == starts@[j]@);
        }
        assert(inv_seen(rel, st, bl, sset(seen@)));
        assert(inv_closed(rel, bl, sset(seen@), sset(pending@)));
    }
    loop
        invariant
            bl.subset_of(sset(seen@)),
            nodup(seen@),
            inv_seen(rel, st, bl, sset(seen@)),
            inv_pending(rel, st, bl, sl, pending@),
            inv_closed(rel, bl, sset(seen@), sset(pending@)),
            st.subset_of(sset(seen@).union(sset(pending@))),
            sl == slots(starts@, es@),
            edges_are(es@, rel),
            bl == sset(blocked@),
            st == sset(starts@),
        ensures
            bl.subset_of(sset(seen@)),
            nodup(seen@),
            inv_seen(rel, st, bl, sset(seen@)),
            inv_closed(rel, bl, sset(seen@), sset(pending@)),
            st.subset_of(sset(seen@).union(sset(pending@))),
            pending@.len() == 0,
        decreases count_unseen(sl, sset(seen@)), pending@.len(),
    {
        let ghost pend_before = pending@;
        match pending.pop() {
            None => {
                break;
            },
            Some(x) => {
                let ghost xv = x@;
                let ghost seen_before = seen@;
                let ghost pend_after_pop = pending@;
                assert(pend_before == pend_after_pop.push(x));
                if contains(&seen, &x) {
                    proof {
                        lemma_pop_seen(rel, st, bl, sl, seen@, pend_after_pop, x);
                    }
                } else {
                    proof {
                        assert(pend_before[pend_after_pop.len() as int] == x);
                        lemma_count_insert(sl, sset(seen_before), xv);
                    }
                    successors_into(es, &x, &seen, &mut pending);
                    proof {
                        lemma_pop_new(es@, rel, st, bl, starts@, seen_before, pend_after_pop, pending@, x);
                    }
                    insert(&mut seen, x);
                }
            },
        }
    }
    proof {
        assert forall|x: Seq<char>| #[trigger] reaches_avoiding(rel, st, bl, x) implies sset(seen@).contains(x) by {
            let p = choose|p: Seq<Seq<char>>| is_walk(rel, p) && st.contains(#[trigger] p[0])
                && p.last() == x && avoids(p, bl);
            assert(sset(pending@) =~= Set::empty());
            lemma_walk_inside(rel, sset(seen@), bl, p, p.len() - 1);
        }
        assert(sset(seen@) =~= closure_avoiding(rel, st, bl));
    }
    seen
}

/// Every name reached from `starts` along the edges `es`, `starts` included; each name once.
pub(crate) fn reach(starts: &Vec<String>, es: &Vec<(String, String)>, Ghost(rel): Ghost<Rel>) -> (r: Vec<String>)
    requires
        edges_are(es@, rel),
    ensures
        sset(r@) == closure(rel, sset(starts@)),
        nodup(r@),
{
    let none: Vec<String> = Vec::new();
    proof { lemma_empty(); }
    let r = reach_avoiding(starts, &none, es, Ghost(rel));
    assert(sset(r@) =~= closure(rel, sset(starts@)));
    r
}

/// The starts are in the closure.
pub proof fn lemma_starts_in_closure(rel: Rel, starts: Set<Seq<char>>, x: Seq<char>)
    requires
        starts.contains(x),
    ensures
        closure(rel, starts).contains(x),
{
    lemma_trivial_walk(rel, starts, Set::empty(), x);
}

/// One edge out of the closure stays in it.
pub proof fn lemma_closure_step(rel: Rel, starts: Set<Seq<char>>, x: Seq<char>, y: Seq<char>)
    requires
        closure(rel, starts).contains(x),
        rel(x, y),
    ensures
        closure(rel, starts).contains(y),
{
    lemma_walk_extend(rel, starts, Set::empty(), x, y);
}

/// A walk that avoids some names is a walk.
pub proof fn lemma_avoiding_in_closure(rel: Rel, starts: Set<Seq<char>>, blocked: Set<Seq<char>>, x: Seq<char>)
    requires
        reaches_avoiding(rel, starts, blocked, x),
    ensures
        closure(rel, starts).contains(x),
{
    let p = choose|p: Seq<Seq<char>>| is_walk(rel, p) && starts.contains(#[trigger] p[0]) && p.last() == x && avoids(p, blocked);
    assert(avoids(p, Set::empty()));
}

/// The closure of names that are all in the closure of `base` lies in the closure of `base`.
pub proof fn lemma_closure_trans(rel: Rel, starts: Set<Seq<char>>, base: Set<Seq<char>>, x: Seq<char>)
    requires
        forall|s: Seq<char>| #[trigger] starts.contains(s) ==> closure(rel, base).contains(s),
        closure(rel, starts).contains(x),
    ensures
        closure(rel, base).contains(x),
{
    let p = choose|p: Seq<Seq<char>>| is_walk(rel, p) && starts.contains(#[trigger] p[0]) && p.last() == x && avoids(p, Set::empty());
    lemma_walk_follow(rel, base, p, p.len() - 1);
}

proof fn lemma_walk_follow(rel: Rel, base: Set<Seq<char>>, p: Seq<Seq<char>>, n: int)
    requires
        is_walk(rel, p),
        closure(rel, base).contains(p[0]),
        0 <= n < p.len(),
    ensures
        closure(rel, base).contains(p[n]),
    decreases n,
{
    if n > 0 {
        lemma_walk_follow(rel, base, p, n - 1);
        lemma_closure_step(rel, base, p[n - 1], p[n]);
    }
}

/// The closure is the least set holding the starts and closed under the relation.
pub proof fn lemma_closure_least(rel: Rel, starts: Set<Seq<char>>, s: Set<Seq<char>>, x: Seq<char>)
    requires
        starts.subset_of(s),
        forall|a: Seq<char>, b: Seq<char>| s.contains(a) && #[trigger] rel(a, b) ==> s.contains(b),
        closure(rel, starts).contains(x),
    ensures
        s.contains(x),
{
    let p = choose|p: Seq<Seq<char>>| is_walk(rel, p) && starts.contains(#[trigger] p[0]) && p.last() == x && avoids(p, Set::empty());
    lemma_walk_inside(rel, s, Set::empty(), p, p.len() - 1);
}

} // verus!
