//! Sets of names, held as vectors of strings without repetition.
use vstd::prelude::*;

verus! {

/// The set of character sequences held by `v`.
pub open spec fn sset(v: Seq<String>) -> Set<Seq<char>> {
    Set::new(|x: Seq<char>| exists|i: int| 0 <= i < v.len() && v[i]@ == x)
}

/// No two entries of `v` hold the same text.
pub open spec fn nodup(v: Seq<String>) -> bool {
    forall|i: int, j: int| 0 <= i < v.len() && 0 <= j < v.len() && i != j ==> v[i]@ != v[j]@
}

/// Whether `v` holds an entry with the text of `s`.
pub fn contains(v: &Vec<String>, s: &String) -> (r: bool)
    ensures
        r == sset(v@).contains(s@),
{
    let mut i: usize = 0;
    while i < v.len()
        invariant
            i <= v.len(),
            forall|k: int| 0 <= k < i ==> v@[k]@ != s@,
        decreases v.len() - i,
    {
        if v[i] == *s {
            assert(sset(v@).contains(s@));
            return true;
        }
        i = i + 1;
    }
    false
}

/// Adds `s` to `v` unless its text is already there; tells whether it was added.
pub fn insert(v: &mut Vec<String>, s: String) -> (added: bool)
    ensures
        sset(final(v)@) == sset(old(v)@).insert(s@),
        added == !sset(old(v)@).contains(s@),
        nodup(old(v)@) ==> nodup(final(v)@),
        added ==> final(v)@ == old(v)@.push(s),
        !added ==> final(v)@ == old(v)@,
{
    if contains(v, &s) {
        assert(sset(v@) =~= sset(v@).insert(s@));
        false
    } else {
        let ghost sv = s@;
        v.push(s);
        proof {
            lemma_sset_push(old(v)@, v@.last());
        }
        true
    }
}

/// Adds every entry of `from` to `into`.
pub fn extend(into: &mut Vec<String>, from: &Vec<String>)
    ensures
        sset(final(into)@) == sset(old(into)@).union(sset(from@)),
        nodup(old(into)@) ==> nodup(final(into)@),
{
    let mut i: usize = 0;
    while i < from.len()
        invariant
            i <= from.len(),
            sset(into@) == sset(old(into)@).union(sset(from@.take(i as int))),
            nodup(old(into)@) ==> nodup(into@),
        decreases from.len() - i,
    {
        insert(into, from[i].clone());
        proof {
            assert(from@.take(i + 1) =~= from@.take(i as int).push(from@[i as int]));
            lemma_sset_push(from@.take(i as int), from@[i as int]);
        }
        i = i + 1;
    }
    assert(from@.take(from@.len() as int) =~= from@);
}

/// Pushing an entry adds its text to the set.
pub proof fn lemma_sset_push(v: Seq<String>, s: String)
    ensures
        sset(v.push(s)) == sset(v).insert(s@),
{
    assert forall|x: Seq<char>| sset(v.push(s)).contains(x) implies sset(v).insert(s@).contains(x) by {
        let i = choose|i: int| 0 <= i < v.push(s).len() && #[trigger] v.push(s)[i]@ == x;
        if i < v.len() {
            assert(v[i]@ == x);
        }
    }
    assert forall|x: Seq<char>| sset(v).insert(s@).contains(x) implies sset(v.push(s)).contains(x) by {
        if x == s@ {
            assert(v.push(s)[v.len() as int]@ == x);
        } else {
            let i = choose|i: int| 0 <= i < v.len() && #[trigger] v[i]@ == x;
            assert(v.push(s)[i]@ == x);
        }
    }
    assert(sset(v.push(s)) =~= sset(v).insert(s@));
}

/// The empty vector holds no text and no repetition.
pub proof fn lemma_empty()
    ensures
        sset(Seq::<String>::empty()) == Set::<Seq<char>>::empty(),
        nodup(Seq::<String>::empty()),
{
    assert(sset(Seq::<String>::empty()) =~= Set::<Seq<char>>::empty());
}

/// The union of the sets `f(0)`, ..., `f(n - 1)`.
pub open spec fn union_upto(f: spec_fn(int) -> Set<Seq<char>>, n: int) -> Set<Seq<char>> {
    Set::new(|x: Seq<char>| exists|i: int| 0 <= i < n && #[trigger] f(i).contains(x))
}

/// One more set in the union.
pub proof fn lemma_union_upto_step(f: spec_fn(int) -> Set<Seq<char>>, n: int)
    requires
        0 <= n,
    ensures
        union_upto(f, n + 1) == union_upto(f, n).union(f(n)),
        union_upto(f, 0) == Set::<Seq<char>>::empty(),
{
    assert(union_upto(f, n + 1) =~= union_upto(f, n).union(f(n)));
    assert(union_upto(f, 0) =~= Set::<Seq<char>>::empty());
}

} // verus!
