//! Why each dependee is affected: a short reason per module.
use vstd::prelude::*;
use crate::text::chars_of;
use crate::symbols::{Symbol, SymbolKind};
use crate::graph::{SymbolModel, ChangesModel, Trees, Tree, sym_edge, all_edge, import_edge, has_body,
    first_hop_of, users_of_symbols, all_of, importers_of, first_hop, seeds, symbol_aware, importers_rel,
    changes_view, targets_of, class_changes, input_classes, tree_candidates, resolved_paths};
use crate::paths::{first_found, none_found};
use crate::reach::{is_edge, edges_are};
use crate::strs::{sset, nodup, union_upto, lemma_union_upto_step};

verus! {

// ---------------------------------------------------------------------------
// Sorting texts
// ---------------------------------------------------------------------------

/// `a` comes before `b` in the order of `String`: character by character by code
/// point (which is the order of their UTF-8 bytes), a proper prefix first.
pub open spec fn lex_lt(a: Seq<char>, b: Seq<char>) -> bool
    decreases a.len(),
{
    if a.len() == 0 {
        b.len() > 0
    } else if b.len() == 0 {
        false
    } else if a[0] != b[0] {
        a[0] < b[0]
    } else {
        lex_lt(a.skip(1), b.skip(1))
    }
}

pub(crate) proof fn lemma_lex_irrefl(a: Seq<char>)
    ensures
        !lex_lt(a, a),
    decreases a.len(),
{
    if a.len() > 0 {
        lemma_lex_irrefl(a.skip(1));
    }
}

pub(crate) proof fn lemma_lex_trans(a: Seq<char>, b: Seq<char>, c: Seq<char>)
    requires
        lex_lt(a, b),
        lex_lt(b, c),
    ensures
        lex_lt(a, c),
    decreases a.len(),
{
    if a.len() > 0 && b.len() > 0 && c.len() > 0 && a[0] == b[0] && b[0] == c[0] {
        lemma_lex_trans(a.skip(1), b.skip(1), c.skip(1));
    }
}

pub(crate) proof fn lemma_lex_total(a: Seq<char>, b: Seq<char>)
    ensures
        a == b || lex_lt(a, b) || lex_lt(b, a),
    decreases a.len(),
{
    if a.len() > 0 && b.len() > 0 && a[0] == b[0] {
        lemma_lex_total(a.skip(1), b.skip(1));
        if a.skip(1) == b.skip(1) {
            assert(a =~= seq![a[0]] + a.skip(1));
            assert(b =~= seq![b[0]] + b.skip(1));
        }
    } else if a.len() == 0 && b.len() == 0 {
        assert(a =~= b);
    }
}

/// Whether `a` comes before `b`.
pub(crate) fn lex_less(a: &Vec<char>, b: &Vec<char>) -> (r: bool)
    ensures
        r == lex_lt(a@, b@),
{
    let mut i: usize = 0;
    assert(a@.skip(0) =~= a@);
    assert(b@.skip(0) =~= b@);
    while i < a.len() && i < b.len() && a[i] == b[i]
        invariant
            i <= a@.len(),
            i <= b@.len(),
            lex_lt(a@, b@) == lex_lt(a@.skip(i as int), b@.skip(i as int)),
        decreases a@.len() - i,
    {
        assert(a@.skip(i as int).skip(1) =~= a@.skip(i + 1));
        assert(b@.skip(i as int).skip(1) =~= b@.skip(i + 1));
        i = i + 1;
    }
    if i == a.len() {
        i < b.len()
    } else if i == b.len() {
        false
    } else {
        a[i] < b[i]
    }
}

/// `s` is in increasing order.
pub open spec fn sorted(s: Seq<Seq<char>>) -> bool {
    forall|i: int, j: int| 0 <= i < j < s.len() ==> !lex_lt(#[trigger] s[j], #[trigger] s[i])
}

pub open spec fn texts(v: Seq<String>) -> Seq<Seq<char>> {
    v.map_values(|x: String| x@)
}

/// Inserts `x` into the sorted `v`, after the entries that do not come after it.
pub(crate) fn insert_sorted(v: &mut Vec<String>, x: String)
    requires
        sorted(texts(old(v)@)),
    ensures
        sorted(texts(final(v)@)),
        texts(final(v)@).to_multiset() == texts(old(v)@).to_multiset().insert(x@),
{
    let xc = chars_of(x.as_str());
    let mut p: usize = 0;
    while p < v.len() && !lex_less(&xc, &chars_of(v[p].as_str()))
        invariant
            p <= v@.len(),
            xc@ == x@,
            forall|i: int| 0 <= i < p ==> !lex_lt(x@, #[trigger] v@[i]@),
        decreases v@.len() - p,
    {
        p = p + 1;
    }
    let ghost before = texts(v@);
    v.insert(p, x);
    assert(texts(v@) =~= before.insert(p as int, xc@));
    proof {
        broadcast use vstd::seq_lib::to_multiset_insert;
        let s = texts(v@);
        assert forall|i: int, j: int| 0 <= i < j < s.len() implies !lex_lt(#[trigger] s[j], #[trigger] s[i]) by {
            if i < p && j < p {
                assert(s[i] == before[i] && s[j] == before[j]);
            } else if i < p && j == p {
                assert(s[i] == before[i]);
            } else if i < p && j > p {
                assert(s[i] == before[i] && s[j] == before[j - 1]);
                assert(!lex_lt(x@, before[i]));
                if lex_lt(before[j - 1], before[i]) {
                } else {
                    if lex_lt(s[j], s[i]) {
                        assert(false);
                    }
                }
            } else if i == p {
                assert(s[j] == before[j - 1]);
                assert(lex_lt(x@, before[p as int]));
                if lex_lt(before[j - 1], x@) {
                    if p < j - 1 {
                        lemma_lex_trans(before[j - 1], x@, before[p as int]);
                    } else {
                        lemma_lex_trans(before[j - 1], x@, before[p as int]);
                        lemma_lex_irrefl(before[p as int]);
                    }
                }
            } else {
                assert(s[i] == before[i - 1] && s[j] == before[j - 1]);
            }
        }
    }
}

// ---------------------------------------------------------------------------
// Describing changed symbols
// ---------------------------------------------------------------------------

/// How a symbol is named in a reason: `f()` for a function, the name of a class or
/// variable, `module body` for the module body.
pub open spec fn sym_text(x: SymbolModel) -> Seq<char> {
    match x.0 {
        SymbolKind::Function => x.1 + seq!['(', ')'],
        SymbolKind::Class => x.1,
        SymbolKind::Variable => x.1,
        SymbolKind::ModuleBody => "module body"@,
    }
}

/// The parts of `s` joined by `sep`.
pub open spec fn join_with(s: Seq<Seq<char>>, sep: Seq<char>) -> Seq<char>
    decreases s.len(),
{
    if s.len() == 0 {
        Seq::empty()
    } else if s.len() == 1 {
        s[0]
    } else {
        join_with(s.drop_last(), sep) + sep + s.last()
    }
}

/// `r` lists the distinct symbols among `syms`, each named as in `sym_text`,
/// in sorted order, separated by `, `.
pub open spec fn symbol_list_text(syms: Seq<SymbolModel>, r: Seq<char>) -> bool {
    exists|u: Seq<SymbolModel>, s: Seq<Seq<char>>| {
        &&& u.no_duplicates()
        &&& u.to_set() == syms.to_set()
        &&& s.to_multiset() == u.map_values(|x: SymbolModel| sym_text(x)).to_multiset()
        &&& sorted(s)
        &&& r == join_with(s, ", "@)
    }
}

/// How a symbol is named in a reason.
fn symbol_text(s: &Symbol) -> (r: String)
    ensures
        r@ == sym_text(s@),
{
    match s {
        Symbol::Function(n) => {
            let mut r = n.clone();
            r.append("()");
            proof {
                reveal_strlit("()");
            }
            assert(r@ =~= n@ + seq!['(', ')']);
            r
        },
        Symbol::Class(n) => n.clone(),
        Symbol::Variable(n) => n.clone(),
        Symbol::ModuleBody => "module body".to_owned(),
    }
}

proof fn lemma_to_set_push<A>(s: Seq<A>, x: A)
    ensures
        s.push(x).to_set() == s.to_set().insert(x),
{
    assert forall|a: A| s.push(x).to_set().contains(a) implies s.to_set().insert(x).contains(a) by {
        if a != x {
            let k = choose|k: int| 0 <= k < s.push(x).len() && s.push(x)[k] == a;
            assert(s[k] == a);
        }
    }
    assert forall|a: A| s.to_set().insert(x).contains(a) implies s.push(x).to_set().contains(a) by {
        if a == x {
            assert(s.push(x)[s.len() as int] == x);
        } else {
            let k = choose|k: int| 0 <= k < s.len() && s[k] == a;
            assert(s.push(x)[k] == a);
        }
    }
    assert(s.push(x).to_set() =~= s.to_set().insert(x));
}

/// Format a set of symbols into a human-readable string like "foo(), Bar, CONST".
pub fn format_symbol_list(symbols: &Vec<Symbol>) -> (r: String)
    ensures
        symbol_list_text(symbols@.map_values(|s: Symbol| s@), r@),
{
    let ghost sv = symbols@.map_values(|s: Symbol| s@);
    // the distinct symbols
    let mut seen: Vec<Symbol> = Vec::new();
    let mut parts: Vec<String> = Vec::new();
    let mut i: usize = 0;
    assert(texts(parts@) =~= Seq::<Seq<char>>::empty());
    assert(seen@.map_values(|s: Symbol| s@).map_values(|x: SymbolModel| sym_text(x)) =~= Seq::<Seq<char>>::empty());
    assert(seen@.map_values(|s: Symbol| s@) =~= Seq::<SymbolModel>::empty());
    assert(sv.take(0) =~= Seq::<SymbolModel>::empty());
    while i < symbols.len()
        invariant
            i <= symbols@.len(),
            sv == symbols@.map_values(|s: Symbol| s@),
            seen@.map_values(|s: Symbol| s@).no_duplicates(),
            seen@.map_values(|s: Symbol| s@).to_set() == sv.take(i as int).to_set(),
            sorted(texts(parts@)),
            texts(parts@).to_multiset() == seen@.map_values(|s: Symbol| s@).map_values(|x: SymbolModel| sym_text(x)).to_multiset(),
        decreases symbols@.len() - i,
    {
        let ghost u0 = seen@.map_values(|s: Symbol| s@);
        let mut dup = false;
        let mut k: usize = 0;
        while k < seen.len()
            invariant
                k <= seen@.len(),
                i < symbols@.len(),
                dup == exists|m: int| 0 <= m < k && seen@[m]@ == symbols@[i as int]@,
            decreases seen@.len() - k,
        {
            if crate::cache::same_symbol_exec(&seen[k], &symbols[i]) {
                dup = true;
            }
            k = k + 1;
        }
        assert(sv.take(i + 1) =~= sv.take(i as int).push(sv[i as int]));
        if !dup {
            let t = symbol_text(&symbols[i]);
            insert_sorted(&mut parts, t);
            seen.push(crate::symbols::copy_symbol(&symbols[i]));
            proof {
                broadcast use vstd::seq_lib::to_multiset_build;
                let u1 = seen@.map_values(|s: Symbol| s@);
                assert(u1 =~= u0.push(sv[i as int]));
                assert(u1.map_values(|x: SymbolModel| sym_text(x)) =~= u0.map_values(|x: SymbolModel| sym_text(x)).push(sym_text(sv[i as int])));
                assert(!u0.contains(sv[i as int])) by {
                    if u0.contains(sv[i as int]) {
                        let m = choose|m: int| 0 <= m < u0.len() && u0[m] == sv[i as int];
                        assert(seen@[m]@ == symbols@[i as int]@);
                    }
                }
                assert(u1.no_duplicates()) by {
                    assert forall|a: int, b: int| 0 <= a < u1.len() && 0 <= b < u1.len() && a != b implies u1[a] != u1[b] by {
                        if a < u0.len() && b < u0.len() {
                            assert(u1[a] == u0[a] && u1[b] == u0[b]);
                        } else if a < u0.len() {
                            assert(u1[a] == u0[a]);
                        } else if b < u0.len() {
                            assert(u1[b] == u0[b]);
                        }
                    }
                }
                lemma_to_set_push(u0, sv[i as int]);
                lemma_to_set_push(sv.take(i as int), sv[i as int]);
            }
        } else {
            proof {
                let m = choose|m: int| 0 <= m < k && seen@[m]@ == symbols@[i as int]@;
                assert(u0[m] == sv[i as int]);
                lemma_to_set_push(sv.take(i as int), sv[i as int]);
                assert(u0.contains(sv[i as int]));
                assert(u0.to_set().contains(sv[i as int]));
                assert(sv.take(i + 1).to_set() =~= sv.take(i as int).to_set());
            }
        }
        i = i + 1;
    }
    assert(sv.take(symbols@.len() as int) =~= sv);
    // joined by ", "
    let mut r = String::new();
    let mut j: usize = 0;
    let ghost ps = texts(parts@);
    assert(ps.take(0) =~= Seq::<Seq<char>>::empty());
    proof {
        reveal_strlit(", ");
    }
    while j < parts.len()
        invariant
            j <= parts@.len(),
            ps == texts(parts@),
            r@ == join_with(ps.take(j as int), ", "@),
            ", "@ == seq![',', ' '],
        decreases parts@.len() - j,
    {
        let ghost before = r@;
        assert(ps.take(j + 1).drop_last() =~= ps.take(j as int));
        assert(ps.take(j + 1).last() == parts@[j as int]@);
        if j > 0 {
            r.append(", ");
        }
        r.append(parts[j].as_str());
        proof {
            if j == 0 {
                assert(ps.take(1).len() == 1);
                assert(r@ =~= ps.take(1)[0]);
            } else {
                assert(r@ =~= join_with(ps.take(j as int), ", "@) + ", "@ + ps.take(j + 1).last());
            }
        }
        j = j + 1;
    }
    assert(ps.take(ps.len() as int) =~= ps);
    r
}


// ---------------------------------------------------------------------------
// Maps from module names to reasons, as lists of pairs
// ---------------------------------------------------------------------------

/// The keys of a list of pairs.
pub open spec fn keys_of(m: Seq<(String, String)>) -> Set<Seq<char>> {
    Set::new(|k: Seq<char>| exists|i: int| 0 <= i < m.len() && (#[trigger] m[i]).0@ == k)
}

/// No key occurs twice.
pub open spec fn keys_distinct(m: Seq<(String, String)>) -> bool {
    forall|i: int, j: int| 0 <= i < m.len() && 0 <= j < m.len() && i != j
        ==> (#[trigger] m[i]).0@ != (#[trigger] m[j]).0@
}

/// Where the key `k` stands in `m`, if it does.
fn key_index(m: &Vec<(String, String)>, k: &String) -> (r: Option<usize>)
    ensures
        match r {
            Some(i) => i < m@.len() && m@[i as int].0@ == k@,
            None => !keys_of(m@).contains(k@),
        },
{
    let mut i: usize = 0;
    while i < m.len()
        invariant
            i <= m@.len(),
            forall|j: int| 0 <= j < i ==> (#[trigger] m@[j]).0@ != k@,
        decreases m@.len() - i,
    {
        if m[i].0 == *k {
            return Some(i);
        }
        i = i + 1;
    }
    None
}

/// Sets the value of `k` to `v`, in place where `k` is already a key.
fn put(m: &mut Vec<(String, String)>, k: String, v: String)
    requires
        keys_distinct(old(m)@),
    ensures
        keys_distinct(final(m)@),
        keys_of(final(m)@) == keys_of(old(m)@).insert(k@),
        !keys_of(old(m)@).contains(k@) ==> final(m)@ == old(m)@.push((k, v)),
        forall|i: int| 0 <= i < final(m)@.len() ==> if (#[trigger] final(m)@[i]).0@ == k@ {
            final(m)@[i].1@ == v@
        } else {
            i < old(m)@.len() && final(m)@[i] == old(m)@[i]
        },
{
    match key_index(m, &k) {
        Some(i) => {
            let ghost kv = k@;
            m.set(i, (k, v));
            assert(keys_of(m@) =~= keys_of(old(m)@).insert(kv)) by {
                assert forall|x: Seq<char>| keys_of(old(m)@).contains(x) implies keys_of(m@).contains(x) by {
                    let j = choose|j: int| 0 <= j < old(m)@.len() && (#[trigger] old(m)@[j]).0@ == x;
                    if j == i {
                        assert(m@[j].0@ == x);
                    } else {
                        assert(m@[j] == old(m)@[j]);
                    }
                }
                assert forall|x: Seq<char>| keys_of(m@).contains(x) implies keys_of(old(m)@).insert(kv).contains(x) by {
                    let j = choose|j: int| 0 <= j < m@.len() && (#[trigger] m@[j]).0@ == x;
                    if j != i {
                        assert(m@[j] == old(m)@[j]);
                    }
                }
            }
        },
        None => {
            let ghost kv = k@;
            m.push((k, v));
            assert(keys_of(m@) =~= keys_of(old(m)@).insert(kv)) by {
                assert forall|x: Seq<char>| keys_of(old(m)@).contains(x) implies keys_of(m@).contains(x) by {
                    let j = choose|j: int| 0 <= j < old(m)@.len() && (#[trigger] old(m)@[j]).0@ == x;
                    assert(m@[j] == old(m)@[j]);
                }
                assert(m@[old(m)@.len() as int].0@ == kv);
                assert forall|x: Seq<char>| keys_of(m@).contains(x) implies keys_of(old(m)@).insert(kv).contains(x) by {
                    let j = choose|j: int| 0 <= j < m@.len() && (#[trigger] m@[j]).0@ == x;
                    if j < old(m)@.len() {
                        assert(m@[j] == old(m)@[j]);
                    }
                }
            }
            assert forall|a: int, b: int| 0 <= a < m@.len() && 0 <= b < m@.len() && a != b
                implies (#[trigger] m@[a]).0@ != (#[trigger] m@[b]).0@ by {
                if a < old(m)@.len() && b < old(m)@.len() {
                    assert(m@[a] == old(m)@[a] && m@[b] == old(m)@[b]);
                } else if a < old(m)@.len() {
                    assert(m@[a] == old(m)@[a]);
                    assert(keys_of(old(m)@).contains(m@[a].0@));
                } else if b < old(m)@.len() {
                    assert(m@[b] == old(m)@[b]);
                    assert(keys_of(old(m)@).contains(m@[b].0@));
                }
            }
        },
    }
}

/// Adds `k` with the value `v` unless `k` is already a key.
fn put_absent(m: &mut Vec<(String, String)>, k: String, v: String)
    requires
        keys_distinct(old(m)@),
    ensures
        keys_distinct(final(m)@),
        keys_of(final(m)@) == keys_of(old(m)@).insert(k@),
        keys_of(old(m)@).contains(k@) ==> final(m)@ == old(m)@,
        !keys_of(old(m)@).contains(k@) ==> final(m)@ == old(m)@.push((k, v)),
{
    match key_index(m, &k) {
        Some(_) => {
            assert(keys_of(m@) =~= keys_of(m@).insert(k@));
        },
        None => {
            put(m, k, v);
        },
    }
}

/// Adds each of `ks` not yet a key, with the value `v`; the entries already
/// there keep their values.
pub fn put_all_absent(m: &mut Vec<(String, String)>, ks: &Vec<String>, v: &String)
    requires
        keys_distinct(old(m)@),
    ensures
        keys_distinct(final(m)@),
        keys_of(final(m)@) == keys_of(old(m)@).union(sset(ks@)),
        final(m)@.len() >= old(m)@.len(),
        forall|i: int| 0 <= i < old(m)@.len() ==> #[trigger] final(m)@[i] == old(m)@[i],
        forall|i: int| old(m)@.len() <= i < final(m)@.len() ==>
            sset(ks@).contains((#[trigger] final(m)@[i]).0@) && final(m)@[i].1@ == v@,
{
    let mut j: usize = 0;
    while j < ks.len()
        invariant
            j <= ks@.len(),
            keys_distinct(m@),
            keys_of(m@) == keys_of(old(m)@).union(sset(ks@.take(j as int))),
            m@.len() >= old(m)@.len(),
            forall|i: int| 0 <= i < old(m)@.len() ==> #[trigger] m@[i] == old(m)@[i],
            forall|i: int| old(m)@.len() <= i < m@.len() ==>
                sset(ks@).contains((#[trigger] m@[i]).0@) && m@[i].1@ == v@,
        decreases ks@.len() - j,
    {
        let ghost before = m@;
        put_absent(m, ks[j].clone(), v.clone());
        proof {
            assert(ks@.take(j + 1) =~= ks@.take(j as int).push(ks@[j as int]));
            crate::strs::lemma_sset_push(ks@.take(j as int), ks@[j as int]);
            assert(sset(ks@).contains(ks@[j as int]@));
            if m@ != before {
                assert(m@[before.len() as int].0@ == ks@[j as int]@);
            }
        }
        j = j + 1;
    }
    assert(ks@.take(ks@.len() as int) =~= ks@);
}


// ---------------------------------------------------------------------------
// The first hop, with a reason for each module
// ---------------------------------------------------------------------------

/// `why` tells how `c` is in the first hop of a change of `syms` in `m`: when `c`
/// uses one of the named symbols, that use (`uses m.s`); else, when it uses all
/// of `m`, `star-imports m`; else it imports `m`, whose body changed.
pub open spec fn hop_reason_of(
    ts: Seq<Tree>,
    m: Seq<char>,
    syms: Seq<SymbolModel>,
    c: Seq<char>,
    why: Seq<char>,
) -> bool {
    if users_of_symbols(ts, m, syms).contains(c) {
        exists|j: int| 0 <= j < syms.len() && (#[trigger] syms[j]).0 != SymbolKind::ModuleBody
            && sym_edge(ts, m, syms[j].1, c) && why == "uses "@ + m + "."@ + syms[j].1
    } else if all_edge(ts, m, c) {
        why == "star-imports "@ + m
    } else {
        has_body(syms) && import_edge(ts, m, c) && why == "imports "@ + m + " (module body changed)"@
    }
}

/// Entries appended to a list whose keys stay distinct hold keys it did not hold.
proof fn lemma_appended_are_new(old_m: Seq<(String, String)>, new_m: Seq<(String, String)>)
    requires
        keys_distinct(new_m),
        new_m.len() >= old_m.len(),
        forall|i: int| 0 <= i < old_m.len() ==> #[trigger] new_m[i] == old_m[i],
    ensures
        forall|i: int| old_m.len() <= i < new_m.len() ==> !keys_of(old_m).contains((#[trigger] new_m[i]).0@),
{
    assert forall|i: int| old_m.len() <= i < new_m.len() implies !keys_of(old_m).contains((#[trigger] new_m[i]).0@) by {
        if keys_of(old_m).contains(new_m[i].0@) {
            let a = choose|a: int| 0 <= a < old_m.len() && (#[trigger] old_m[a]).0@ == new_m[i].0@;
            assert(new_m[a] == old_m[a]);
        }
    }
}

impl Trees {
    /// Adds the first hop of a change of `syms` in `m` to `out`, each new module
    /// with its reason; modules already in `out` keep theirs.
    fn first_hop_reasons(&self, m: &String, syms: &Vec<Symbol>, out: &mut Vec<(String, String)>)
        requires
            keys_distinct(old(out)@),
        ensures
            keys_distinct(final(out)@),
            keys_of(final(out)@) == keys_of(old(out)@).union(
                first_hop_of(self.trees@, m@, syms@.map_values(|s: Symbol| s@))),
            final(out)@.len() >= old(out)@.len(),
            forall|i: int| 0 <= i < old(out)@.len() ==> #[trigger] final(out)@[i] == old(out)@[i],
            forall|i: int| old(out)@.len() <= i < final(out)@.len() ==> hop_reason_of(self.trees@, m@,
                syms@.map_values(|s: Symbol| s@), (#[trigger] final(out)@[i]).0@, final(out)@[i].1@),
    {
        let ghost ts = self.trees@;
        let ghost sv = syms@.map_values(|s: Symbol| s@);
        let ghost base = out@;
        let ghost f = |j: int| if sv[j].0 != SymbolKind::ModuleBody {
            Set::new(|b: Seq<char>| sym_edge(ts, m@, sv[j].1, b))
        } else {
            Set::<Seq<char>>::empty()
        };
        let mut needs_full_module = false;
        let mut j: usize = 0;
        while j < syms.len()
            invariant
                j <= syms@.len(),
                ts == self.trees@,
                sv == syms@.map_values(|s: Symbol| s@),
                f == (|j: int| if sv[j].0 != SymbolKind::ModuleBody {
                    Set::new(|b: Seq<char>| sym_edge(ts, m@, sv[j].1, b))
                } else {
                    Set::<Seq<char>>::empty()
                }),
                keys_distinct(out@),
                keys_of(out@) == keys_of(base).union(union_upto(f, j as int)),
                out@.len() >= base.len(),
                forall|i: int| 0 <= i < base.len() ==> #[trigger] out@[i] == base[i],
                forall|i: int| base.len() <= i < out@.len() ==>
                    hop_reason_of(ts, m@, sv, (#[trigger] out@[i]).0@, out@[i].1@),
                needs_full_module == exists|k: int| 0 <= k < j && (#[trigger] sv[k]).0 == SymbolKind::ModuleBody,
            decreases syms@.len() - j,
        {
            proof { lemma_union_upto_step(f, j as int); }
            assert(sv[j as int] == syms@[j as int]@);
            match syms[j].name() {
                None => {
                    needs_full_module = true;
                    assert(keys_of(out@) =~= keys_of(base).union(union_upto(f, j + 1)));
                },
                Some(n) => {
                    let users = self.get_symbol_importers_across_trees(m, n);
                    let mut why = "uses ".to_owned();
                    why.append(m.as_str());
                    why.append(".");
                    why.append(n.as_str());
                    let ghost before = out@;
                    put_all_absent(out, &users, &why);
                    proof {
                        assert(f(j as int) == sset(users@));
                        assert(keys_of(out@) =~= keys_of(base).union(union_upto(f, j + 1)));
                        assert forall|i: int| base.len() <= i < out@.len() implies
                            hop_reason_of(ts, m@, sv, (#[trigger] out@[i]).0@, out@[i].1@) by {
                            if i < before.len() {
                                assert(out@[i] == before[i]);
                            } else {
                                assert(sv[j as int].0 != SymbolKind::ModuleBody
                                    && sym_edge(ts, m@, sv[j as int].1, out@[i].0@)
                                    && out@[i].1@ == "uses "@ + m@ + "."@ + sv[j as int].1);
                            }
                        }
                    }
                },
            }
            j = j + 1;
        }
        assert(union_upto(f, sv.len() as int) =~= users_of_symbols(ts, m@, sv)) by {
            assert forall|b: Seq<char>| #[trigger] union_upto(f, sv.len() as int).contains(b)
                implies users_of_symbols(ts, m@, sv).contains(b) by {
                let i = choose|i: int| 0 <= i < sv.len() && #[trigger] f(i).contains(b);
                assert(sv[i].0 != SymbolKind::ModuleBody);
            }
            assert forall|b: Seq<char>| #[trigger] users_of_symbols(ts, m@, sv).contains(b)
                implies union_upto(f, sv.len() as int).contains(b) by {
                let i = choose|i: int| 0 <= i < sv.len() && (#[trigger] sv[i]).0 != SymbolKind::ModuleBody
                    && sym_edge(ts, m@, sv[i].1, b);
                assert(f(i).contains(b));
            }
        }
        let ghost mid = out@;
        let alls = self.get_all_importers_across_trees(m);
        let mut why = "star-imports ".to_owned();
        why.append(m.as_str());
        put_all_absent(out, &alls, &why);
        proof { lemma_appended_are_new(mid, out@); }
        assert forall|i: int| base.len() <= i < out@.len() implies
            hop_reason_of(ts, m@, sv, (#[trigger] out@[i]).0@, out@[i].1@) by {
            if i < mid.len() {
                assert(out@[i] == mid[i]);
            } else {
                assert(!keys_of(mid).contains(out@[i].0@));
                assert(!users_of_symbols(ts, m@, sv).contains(out@[i].0@));
                assert(all_edge(ts, m@, out@[i].0@));
            }
        }
        if needs_full_module {
            let ghost mid2 = out@;
            let imps = self.get_importers_across_trees(m.as_str());
            let mut why = "imports ".to_owned();
            why.append(m.as_str());
            why.append(" (module body changed)");
            put_all_absent(out, &imps, &why);
            assert(has_body(sv));
            proof { lemma_appended_are_new(mid2, out@); }
            assert forall|i: int| base.len() <= i < out@.len() implies
                hop_reason_of(ts, m@, sv, (#[trigger] out@[i]).0@, out@[i].1@) by {
                if i < mid2.len() {
                    assert(out@[i] == mid2[i]);
                } else {
                    let c = out@[i].0@;
                    assert(!keys_of(mid2).contains(c));
                    assert(!users_of_symbols(ts, m@, sv).contains(c));
                    assert(!sset(alls@).contains(c));
                    assert(!all_edge(ts, m@, c));
                    assert(import_edge(ts, m@, c));
                }
            }
        } else {
            assert(!has_body(sv));
        }
        assert(keys_of(out@) =~= keys_of(base).union(first_hop_of(ts, m@, sv)));
    }
}


// ---------------------------------------------------------------------------
// Dependees with reasons
// ---------------------------------------------------------------------------

/// `why` is `t` followed by ` changed`, where `t` lists the symbols `syms`.
pub open spec fn changed_text(syms: Seq<SymbolModel>, why: Seq<char>) -> bool {
    exists|t: Seq<char>| #[trigger] symbol_list_text(syms, t) && why == t + " changed"@
}

/// The reason given for a changed module `c`: `changed` for a module without
/// symbol information, else the list of its changed symbols followed by ` changed`.
pub open spec fn seed_reason(sc: ChangesModel, fb: Set<Seq<char>>, c: Seq<char>, why: Seq<char>) -> bool {
    if fb.contains(c) {
        why == "changed"@
    } else {
        exists|i: int| 0 <= i < sc.len() && (#[trigger] sc[i]).0 == c && changed_text(sc[i].1, why)
    }
}

/// The first hop of the changes with symbol information.
pub open spec fn sc_hop(ts: Seq<Tree>, sc: ChangesModel) -> Set<Seq<char>> {
    union_upto(|i: int| first_hop_of(ts, sc[i].0, sc[i].1), sc.len() as int)
}

/// The reason given for a module `c` of the first hop: one for a change with
/// symbol information where there is one, else `imports m` for a changed module
/// `m` without symbol information that `c` imports.
pub open spec fn hop_reason(ts: Seq<Tree>, sc: ChangesModel, fb: Set<Seq<char>>, c: Seq<char>, why: Seq<char>) -> bool {
    if sc_hop(ts, sc).contains(c) {
        exists|i: int| 0 <= i < sc.len() && #[trigger] hop_reason_of(ts, sc[i].0, sc[i].1, c, why)
    } else {
        exists|m: Seq<char>| #[trigger] fb.contains(m) && import_edge(ts, m, c) && why == "imports "@ + m
    }
}

/// `why` is a first-hop reason for `c` of one of the first `n` changes.
pub open spec fn hop_reason_upto(ts: Seq<Tree>, sc: ChangesModel, n: int, c: Seq<char>, why: Seq<char>) -> bool {
    exists|k: int| 0 <= k < n && #[trigger] hop_reason_of(ts, sc[k].0, sc[k].1, c, why)
}

/// `why` is `imports p` for a module `p` of `ks` that is not itself changed and
/// that `c` imports.
pub open spec fn imports_reason(
    ts: Seq<Tree>,
    sc: ChangesModel,
    fb: Set<Seq<char>>,
    ks: Set<Seq<char>>,
    c: Seq<char>,
    why: Seq<char>,
) -> bool {
    exists|p: Seq<char>| #[trigger] ks.contains(p) && !seeds(sc, fb).contains(p) && import_edge(ts, p, c)
        && why == "imports "@ + p
}

/// `why` is the reason for `c` among the dependees `ks`: a changed module's own
/// reason, a first-hop reason, or the import of another dependee.
pub open spec fn reason_ok(
    ts: Seq<Tree>,
    sc: ChangesModel,
    fb: Set<Seq<char>>,
    ks: Set<Seq<char>>,
    c: Seq<char>,
    why: Seq<char>,
) -> bool {
    if seeds(sc, fb).contains(c) {
        seed_reason(sc, fb, c, why)
    } else if first_hop(ts, sc, fb).contains(c) {
        hop_reason(ts, sc, fb, c, why)
    } else {
        imports_reason(ts, sc, fb, ks, c, why)
    }
}

/// `why` is `imports p` for a module `p` that `rk` ranks below `n`.
pub open spec fn ranked_below(rk: Map<Seq<char>, nat>, why: Seq<char>, n: nat) -> bool {
    exists|p: Seq<char>| #[trigger] rk.contains_key(p) && rk[p] < n && why == "imports "@ + p
}

/// `rk` ranks every module of the list `r`, and the reason of each one that is
/// neither changed nor of the first hop names a module ranked below it: a chain
/// of `imports` reasons always ends at the first hop.
pub open spec fn reasons_ranked(
    ts: Seq<Tree>,
    sc: ChangesModel,
    fb: Set<Seq<char>>,
    r: Seq<(String, String)>,
    rk: Map<Seq<char>, nat>,
) -> bool {
    forall|i: int| 0 <= i < r.len() ==> rk.contains_key((#[trigger] r[i]).0@)
        && (!seeds(sc, fb).contains(r[i].0@) && !first_hop(ts, sc, fb).contains(r[i].0@)
            ==> ranked_below(rk, r[i].1@, rk[r[i].0@]))
}

/// In the list `r`, the reason given for `b` is `imports a`.
pub open spec fn explained_by(r: Seq<(String, String)>, a: Seq<char>, b: Seq<char>) -> bool {
    exists|i: int| 0 <= i < r.len() && (#[trigger] r[i]).0@ == b && r[i].1@ == "imports "@ + a
}

proof fn lemma_imports_text_inj(a: Seq<char>, b: Seq<char>)
    requires
        "imports "@ + a == "imports "@ + b,
    ensures
        a == b,
{
    let k = "imports "@.len() as int;
    assert(a =~= ("imports "@ + a).skip(k));
    assert(b =~= ("imports "@ + b).skip(k));
}

/// Reasons never go round in a circle: along a chain of modules beyond the
/// first hop, each explained by `imports` of the one before it, the last module
/// is never the first.
pub proof fn lemma_reasons_acyclic(
    ts: Seq<Tree>,
    sc: ChangesModel,
    fb: Set<Seq<char>>,
    r: Seq<(String, String)>,
    rk: Map<Seq<char>, nat>,
    q: Seq<Seq<char>>,
)
    requires
        reasons_ranked(ts, sc, fb, r, rk),
        q.len() >= 2,
        forall|j: int| 0 < j < q.len() ==> !seeds(sc, fb).contains(#[trigger] q[j]) && !first_hop(ts, sc, fb).contains(q[j])
            && explained_by(r, q[j - 1], q[j]),
    ensures
        q[0] != q.last(),
{
    lemma_chain_rank(ts, sc, fb, r, rk, q, q.len() - 1);
}

proof fn lemma_chain_rank(
    ts: Seq<Tree>,
    sc: ChangesModel,
    fb: Set<Seq<char>>,
    r: Seq<(String, String)>,
    rk: Map<Seq<char>, nat>,
    q: Seq<Seq<char>>,
    j: int,
)
    requires
        reasons_ranked(ts, sc, fb, r, rk),
        1 <= j < q.len(),
        forall|k: int| 0 < k < q.len() ==> !seeds(sc, fb).contains(#[trigger] q[k]) && !first_hop(ts, sc, fb).contains(q[k])
            && explained_by(r, q[k - 1], q[k]),
    ensures
        rk.contains_key(q[0]),
        rk.contains_key(q[j]),
        rk[q[0]] < rk[q[j]],
    decreases j,
{
    assert(!seeds(sc, fb).contains(q[j]) && !first_hop(ts, sc, fb).contains(q[j]) && explained_by(r, q[j - 1], q[j]));
    let i = choose|i: int| 0 <= i < r.len() && (#[trigger] r[i]).0@ == q[j] && r[i].1@ == "imports "@ + q[j - 1];
    assert(rk.contains_key(r[i].0@));
    assert(ranked_below(rk, r[i].1@, rk[r[i].0@]));
    let p = choose|p: Seq<char>| #[trigger] rk.contains_key(p) && rk[p] < rk[r[i].0@] && r[i].1@ == "imports "@ + p;
    lemma_imports_text_inj(p, q[j - 1]);
    if j > 1 {
        lemma_chain_rank(ts, sc, fb, r, rk, q, j - 1);
    }
}

/// A queued module and its reason: a first-hop reason in the first round,
/// the import of a dependee after it.
spec fn pending_ok(
    ts: Seq<Tree>,
    sc: ChangesModel,
    fb: Set<Seq<char>>,
    ks: Set<Seq<char>>,
    first_round: bool,
    c: Seq<char>,
    why: Seq<char>,
) -> bool {
    if first_round {
        first_hop(ts, sc, fb).contains(c) && hop_reason(ts, sc, fb, c, why)
    } else {
        imports_reason(ts, sc, fb, ks, c, why)
    }
}

proof fn lemma_imports_mono(
    ts: Seq<Tree>,
    sc: ChangesModel,
    fb: Set<Seq<char>>,
    k1: Set<Seq<char>>,
    k2: Set<Seq<char>>,
    c: Seq<char>,
    why: Seq<char>,
)
    requires
        k1.subset_of(k2),
        imports_reason(ts, sc, fb, k1, c, why),
    ensures
        imports_reason(ts, sc, fb, k2, c, why),
{
    let p = choose|p: Seq<char>| #[trigger] k1.contains(p) && !seeds(sc, fb).contains(p) && import_edge(ts, p, c)
        && why == "imports "@ + p;
    assert(k2.contains(p));
}

proof fn lemma_keys_push(m: Seq<(String, String)>, e: (String, String))
    requires
        keys_distinct(m),
        !keys_of(m).contains(e.0@),
    ensures
        keys_of(m.push(e)) == keys_of(m).insert(e.0@),
        keys_distinct(m.push(e)),
{
    assert forall|x: Seq<char>| keys_of(m.push(e)).contains(x) implies keys_of(m).insert(e.0@).contains(x) by {
        let j = choose|j: int| 0 <= j < m.push(e).len() && (#[trigger] m.push(e)[j]).0@ == x;
        if j < m.len() {
            assert(m[j] == m.push(e)[j]);
        }
    }
    assert forall|x: Seq<char>| keys_of(m).insert(e.0@).contains(x) implies keys_of(m.push(e)).contains(x) by {
        if x == e.0@ {
            assert(m.push(e)[m.len() as int] == e);
        } else {
            let j = choose|j: int| 0 <= j < m.len() && (#[trigger] m[j]).0@ == x;
            assert(m.push(e)[j] == m[j]);
        }
    }
    assert(keys_of(m.push(e)) =~= keys_of(m).insert(e.0@));
    assert forall|a: int, b: int| 0 <= a < m.push(e).len() && 0 <= b < m.push(e).len() && a != b
        implies (#[trigger] m.push(e)[a]).0@ != (#[trigger] m.push(e)[b]).0@ by {
        if a < m.len() && b < m.len() {
            assert(m.push(e)[a] == m[a] && m.push(e)[b] == m[b]);
        } else if a < m.len() {
            assert(m.push(e)[a] == m[a]);
            assert(keys_of(m).contains(m[a].0@));
        } else if b < m.len() {
            assert(m.push(e)[b] == m[b]);
            assert(keys_of(m).contains(m[b].0@));
        }
    }
}

/// Queues each of `imps` that is neither a dependee yet nor queued, with the reason `why`.
fn queue_new(reasons: &Vec<(String, String)>, next: &mut Vec<(String, String)>, imps: &Vec<String>, why: &String)
    requires
        keys_distinct(old(next)@),
    ensures
        keys_distinct(final(next)@),
        keys_of(final(next)@) == keys_of(old(next)@).union(sset(imps@).difference(keys_of(reasons@))),
        final(next)@.len() >= old(next)@.len(),
        forall|i: int| 0 <= i < old(next)@.len() ==> #[trigger] final(next)@[i] == old(next)@[i],
        forall|i: int| old(next)@.len() <= i < final(next)@.len() ==>
            sset(imps@).contains((#[trigger] final(next)@[i]).0@) && final(next)@[i].1@ == why@,
{
    let mut k: usize = 0;
    while k < imps.len()
        invariant
            k <= imps@.len(),
            keys_distinct(next@),
            keys_of(next@) == keys_of(old(next)@).union(sset(imps@.take(k as int)).difference(keys_of(reasons@))),
            next@.len() >= old(next)@.len(),
            forall|i: int| 0 <= i < old(next)@.len() ==> #[trigger] next@[i] == old(next)@[i],
            forall|i: int| old(next)@.len() <= i < next@.len() ==>
                sset(imps@).contains((#[trigger] next@[i]).0@) && next@[i].1@ == why@,
        decreases imps@.len() - k,
    {
        let ghost before = next@;
        proof {
            assert(imps@.take(k + 1) =~= imps@.take(k as int).push(imps@[k as int]));
            crate::strs::lemma_sset_push(imps@.take(k as int), imps@[k as int]);
            assert(sset(imps@).contains(imps@[k as int]@));
        }
        match key_index(reasons, &imps[k]) {
            Some(_) => {
                assert(keys_of(next@) =~= keys_of(old(next)@).union(sset(imps@.take(k + 1)).difference(keys_of(reasons@))));
            },
            None => {
                put_absent(next, imps[k].clone(), why.clone());
                proof {
                    if next@ != before {
                        assert(next@[before.len() as int].0@ == imps@[k as int]@);
                    }
                }
                assert(keys_of(next@) =~= keys_of(old(next)@).union(sset(imps@.take(k + 1)).difference(keys_of(reasons@))));
            },
        }
        k = k + 1;
    }
    assert(imps@.take(imps@.len() as int) =~= imps@);
}


/// Ranking a module newly added to the dependees one above the round that
/// queued it keeps the ranking of the dependees.
proof fn lemma_rank_insert(
    ts: Seq<Tree>,
    sc: ChangesModel,
    fb: Set<Seq<char>>,
    old_reasons: Seq<(String, String)>,
    new_reasons: Seq<(String, String)>,
    old_rk: Map<Seq<char>, nat>,
    rk: Map<Seq<char>, nat>,
    c: Seq<char>,
    why: Seq<char>,
    round: nat,
    first_round: bool,
)
    requires
        old_rk.dom() == keys_of(old_reasons),
        reasons_ranked(ts, sc, fb, old_reasons, old_rk),
        new_reasons.len() == old_reasons.len() + 1,
        forall|j: int| 0 <= j < old_reasons.len() ==> new_reasons[j] == old_reasons[j],
        new_reasons[old_reasons.len() as int].0@ == c,
        new_reasons[old_reasons.len() as int].1@ == why,
        !old_rk.contains_key(c),
        rk == old_rk.insert(c, (round + 1) as nat),
        first_round ==> first_hop(ts, sc, fb).contains(c),
        !first_round ==> ranked_below(old_rk, why, round + 1),
    ensures
        rk.dom() == keys_of(new_reasons),
        reasons_ranked(ts, sc, fb, new_reasons, rk),
        forall|w: Seq<char>, n: nat| ranked_below(old_rk, w, n) ==> #[trigger] ranked_below(rk, w, n),
{
    assert forall|w: Seq<char>, n: nat| ranked_below(old_rk, w, n) implies #[trigger] ranked_below(rk, w, n) by {
        let p = choose|p: Seq<char>| #[trigger] old_rk.contains_key(p) && old_rk[p] < n && w == "imports "@ + p;
        assert(rk.contains_key(p) && rk[p] == old_rk[p]);
    }
    let n = old_reasons.len() as int;
    assert(rk.dom() =~= keys_of(new_reasons)) by {
        assert forall|x: Seq<char>| keys_of(new_reasons).contains(x) implies rk.dom().contains(x) by {
            let j = choose|j: int| 0 <= j < new_reasons.len() && (#[trigger] new_reasons[j]).0@ == x;
            if j < n {
                assert(new_reasons[j] == old_reasons[j]);
                assert(keys_of(old_reasons).contains(x));
            }
        }
        assert forall|x: Seq<char>| rk.dom().contains(x) implies keys_of(new_reasons).contains(x) by {
            if x == c {
                assert(new_reasons[n].0@ == x);
            } else {
                let j = choose|j: int| 0 <= j < old_reasons.len() && (#[trigger] old_reasons[j]).0@ == x;
                assert(new_reasons[j] == old_reasons[j]);
            }
        }
    }
    assert forall|i: int| 0 <= i < new_reasons.len() implies rk.contains_key((#[trigger] new_reasons[i]).0@)
        && (!seeds(sc, fb).contains(new_reasons[i].0@) && !first_hop(ts, sc, fb).contains(new_reasons[i].0@)
            ==> ranked_below(rk, new_reasons[i].1@, rk[new_reasons[i].0@])) by {
        if i < n {
            assert(new_reasons[i] == old_reasons[i]);
            assert(old_rk.contains_key(old_reasons[i].0@));
            assert(old_reasons[i].0@ != c);
            if !seeds(sc, fb).contains(new_reasons[i].0@) && !first_hop(ts, sc, fb).contains(new_reasons[i].0@) {
                assert(ranked_below(old_rk, old_reasons[i].1@, old_rk[old_reasons[i].0@]));
                assert(ranked_below(rk, new_reasons[i].1@, rk[new_reasons[i].0@]));
            }
        } else {
            if !first_hop(ts, sc, fb).contains(c) {
                assert(ranked_below(rk, why, round + 1));
            }
        }
    }
}

impl Trees {
    /// From the changed modules with their reasons, and the first hop with its
    /// reasons, a round at a time: each queued module not yet a dependee becomes
    /// one with its queued reason, and its importers are queued with `imports` it.
    #[verifier::rlimit(50)]
    fn spread_reasons(
        &self,
        reasons: &mut Vec<(String, String)>,
        first: Vec<(String, String)>,
        Ghost(sc): Ghost<ChangesModel>,
        Ghost(fb): Ghost<Set<Seq<char>>>,
    )
        requires
            keys_distinct(old(reasons)@),
            keys_distinct(first@),
            keys_of(old(reasons)@) == seeds(sc, fb),
            keys_of(first@) == first_hop(self.trees@, sc, fb),
            forall|i: int| 0 <= i < old(reasons)@.len() ==>
                seed_reason(sc, fb, (#[trigger] old(reasons)@[i]).0@, old(reasons)@[i].1@),
            forall|i: int| 0 <= i < first@.len() ==>
                hop_reason(self.trees@, sc, fb, (#[trigger] first@[i]).0@, first@[i].1@),
        ensures
            keys_distinct(final(reasons)@),
            keys_of(final(reasons)@) == symbol_aware(self.trees@, sc, fb),
            forall|i: int| 0 <= i < final(reasons)@.len() ==> reason_ok(self.trees@, sc, fb,
                keys_of(final(reasons)@), (#[trigger] final(reasons)@[i]).0@, final(reasons)@[i].1@),
            exists|rk: Map<Seq<char>, nat>| reasons_ranked(self.trees@, sc, fb, final(reasons)@, rk),
    {
        let ghost ts = self.trees@;
        let ghost ss = seeds(sc, fb);
        let ghost ff = first_hop(ts, sc, fb);
        let ghost tt = symbol_aware(ts, sc, fb);
        let es = self.import_edges();
        let ghost sl: Seq<Seq<char>> = reasons@.map_values(|e: (String, String)| e.0@)
            + first@.map_values(|e: (String, String)| e.0@)
            + es@.map_values(|e: (String, String)| e.1@);
        let ghost n_r = reasons@.len();
        let ghost n_f = first@.len();
        proof {
            assert forall|x: Seq<char>| keys_of(reasons@).contains(x) implies sl.contains(x) by {
                let j = choose|j: int| 0 <= j < reasons@.len() && (#[trigger] reasons@[j]).0@ == x;
                assert(sl[j] == x);
            }
            assert forall|x: Seq<char>| keys_of(first@).contains(x) implies sl.contains(x) by {
                let j = choose|j: int| 0 <= j < first@.len() && (#[trigger] first@[j]).0@ == x;
                assert(sl[n_r + j] == x);
            }
            assert forall|x: Seq<char>| ff.contains(x) && !ss.contains(x) implies tt.contains(x) by {
                crate::reach::lemma_trivial_walk(importers_rel(ts), ff, ss, x);
            }
            assert forall|i: int| 0 <= i < reasons@.len() implies reason_ok(ts, sc, fb,
                keys_of(reasons@), (#[trigger] reasons@[i]).0@, reasons@[i].1@) by {
                assert(keys_of(reasons@).contains(reasons@[i].0@));
            }
            assert forall|i: int| 0 <= i < first@.len() implies pending_ok(ts, sc, fb,
                keys_of(reasons@), true, (#[trigger] first@[i]).0@, first@[i].1@) by {
                assert(keys_of(first@).contains(first@[i].0@));
            }
        }
        let ghost mut rk: Map<Seq<char>, nat> = Map::new(|x: Seq<char>| ss.contains(x), |x: Seq<char>| 0nat);
        let ghost mut round: nat = 0;
        proof {
            assert(rk.dom() =~= keys_of(reasons@));
        }
        let mut pending = first;
        let ghost mut first_round = true;
        while pending.len() > 0
            invariant
                rk.dom() == keys_of(reasons@),
                reasons_ranked(ts, sc, fb, reasons@, rk),
                !first_round ==> forall|j: int| 0 <= j < pending@.len() ==> ranked_below(rk, (#[trigger] pending@[j]).1@, round + 1),
                ts == self.trees@,
                ss == seeds(sc, fb),
                ff == first_hop(ts, sc, fb),
                tt == symbol_aware(ts, sc, fb),
                edges_are(es@, importers_rel(ts)),
                sl.len() == n_r + n_f + es@.len(),
                forall|k: int| 0 <= k < es@.len() ==> sl[n_r + n_f + k] == (#[trigger] es@[k]).1@,
                keys_distinct(reasons@),
                keys_distinct(pending@),
                keys_of(reasons@).subset_of(tt),
                keys_of(pending@).subset_of(tt),
                ss.subset_of(keys_of(reasons@)),
                ff.subset_of(keys_of(reasons@).union(keys_of(pending@))),
                !first_round ==> ff.subset_of(keys_of(reasons@)),
                forall|a: Seq<char>, b: Seq<char>| keys_of(reasons@).contains(a) && !ss.contains(a)
                    && #[trigger] import_edge(ts, a, b) ==> keys_of(reasons@).contains(b) || keys_of(pending@).contains(b),
                forall|x: Seq<char>| #[trigger] keys_of(reasons@).contains(x) ==> sl.contains(x),
                forall|x: Seq<char>| #[trigger] keys_of(pending@).contains(x) ==> sl.contains(x),
                forall|i: int| 0 <= i < reasons@.len() ==> reason_ok(ts, sc, fb,
                    keys_of(reasons@), (#[trigger] reasons@[i]).0@, reasons@[i].1@),
                forall|i: int| 0 <= i < pending@.len() ==> pending_ok(ts, sc, fb,
                    keys_of(reasons@), first_round, (#[trigger] pending@[i]).0@, pending@[i].1@),
            decreases crate::reach::count_unseen(sl, keys_of(reasons@)), pending@.len(),
        {
            let ghost k0 = keys_of(reasons@);
            let ghost n0 = crate::reach::count_unseen(sl, k0);
            let ghost pk = keys_of(pending@);
            let mut next: Vec<(String, String)> = Vec::new();
            let mut i: usize = 0;
            proof {
                assert(keys_of(next@) =~= Set::<Seq<char>>::empty());
            }
            while i < pending.len()
                invariant
                    rk.dom() == keys_of(reasons@),
                    reasons_ranked(ts, sc, fb, reasons@, rk),
                    !first_round ==> forall|j: int| 0 <= j < pending@.len() ==> ranked_below(rk, (#[trigger] pending@[j]).1@, round + 1),
                    forall|j: int| 0 <= j < next@.len() ==> ranked_below(rk, (#[trigger] next@[j]).1@, round + 2),
                    ts == self.trees@,
                    ss == seeds(sc, fb),
                    ff == first_hop(ts, sc, fb),
                    tt == symbol_aware(ts, sc, fb),
                    edges_are(es@, importers_rel(ts)),
                    sl.len() == n_r + n_f + es@.len(),
                    forall|k: int| 0 <= k < es@.len() ==> sl[n_r + n_f + k] == (#[trigger] es@[k]).1@,
                    i <= pending@.len(),
                    pk == keys_of(pending@),
                    k0.subset_of(keys_of(reasons@)),
                    n0 == crate::reach::count_unseen(sl, k0),
                    keys_distinct(reasons@),
                    keys_distinct(pending@),
                    keys_distinct(next@),
                    keys_of(reasons@).subset_of(tt),
                    pk.subset_of(tt),
                    keys_of(next@).subset_of(tt),
                    ss.subset_of(keys_of(reasons@)),
                    ff.subset_of(keys_of(reasons@).union(pk)),
                    !first_round ==> ff.subset_of(keys_of(reasons@)),
                    forall|j: int| 0 <= j < i ==> keys_of(reasons@).contains((#[trigger] pending@[j]).0@),
                    forall|a: Seq<char>, b: Seq<char>| keys_of(reasons@).contains(a) && !ss.contains(a)
                        && #[trigger] import_edge(ts, a, b) ==> keys_of(reasons@).contains(b) || pk.contains(b)
                            || keys_of(next@).contains(b),
                    forall|x: Seq<char>| #[trigger] keys_of(reasons@).contains(x) ==> sl.contains(x),
                    forall|x: Seq<char>| #[trigger] pk.contains(x) ==> sl.contains(x),
                    forall|x: Seq<char>| #[trigger] keys_of(next@).contains(x) ==> sl.contains(x),
                    forall|i: int| 0 <= i < reasons@.len() ==> reason_ok(ts, sc, fb,
                        keys_of(reasons@), (#[trigger] reasons@[i]).0@, reasons@[i].1@),
                    forall|i: int| 0 <= i < pending@.len() ==> pending_ok(ts, sc, fb,
                        keys_of(reasons@), first_round, (#[trigger] pending@[i]).0@, pending@[i].1@),
                    forall|i: int| 0 <= i < next@.len() ==> imports_reason(ts, sc, fb,
                        keys_of(reasons@), (#[trigger] next@[i]).0@, next@[i].1@),
                    crate::reach::count_unseen(sl, keys_of(reasons@)) <= n0,
                    next@.len() > 0 ==> crate::reach::count_unseen(sl, keys_of(reasons@)) < n0,
                decreases pending@.len() - i,
            {
                match key_index(&reasons, &pending[i].0) {
                    Some(_) => {},
                    None => {
                        let ghost kr = keys_of(reasons@);
                        let ghost c = pending@[i as int].0@;
                        let ghost why = pending@[i as int].1@;
                        let ghost old_next = next@;
                        let ghost old_reasons = reasons@;
                        proof {
                            assert(pk.contains(c));
                            crate::reach::lemma_count_insert(sl, kr, c);
                            lemma_keys_push(reasons@, (pending@[i as int].0, pending@[i as int].1));
                        }
                        let ghost old_rk = rk;
                        proof {
                            assert(pending_ok(ts, sc, fb, kr, first_round, c, why));
                            assert(!first_round ==> ranked_below(old_rk, why, round + 1));
                            assert(!old_rk.contains_key(c));
                        }
                        reasons.push((pending[i].0.clone(), pending[i].1.clone()));
                        proof {
                            rk = rk.insert(c, (round + 1) as nat);
                            lemma_rank_insert(ts, sc, fb, old_reasons, reasons@, old_rk, rk, c, why, round, first_round);
                        }
                        let imps = targets_of(&es, &pending[i].0);
                        let mut why_next = "imports ".to_owned();
                        why_next.append(pending[i].0.as_str());
                        queue_new(&reasons, &mut next, &imps, &why_next);
                        proof {
                            let kn = keys_of(reasons@);
                            assert(kn == kr.insert(c));
                            assert(!ss.contains(c));
                            assert(tt.contains(c));
                            // the new dependee's reason
                            assert(reason_ok(ts, sc, fb, kn, c, why)) by {
                                if first_round {
                                } else {
                                    assert(!ff.contains(c));
                                    lemma_imports_mono(ts, sc, fb, kr, kn, c, why);
                                }
                            }
                            assert forall|j: int| 0 <= j < reasons@.len() implies reason_ok(ts, sc, fb,
                                kn, (#[trigger] reasons@[j]).0@, reasons@[j].1@) by {
                                if j < old_reasons.len() {
                                    assert(reasons@[j] == old_reasons[j]);
                                    if !ss.contains(reasons@[j].0@) && !ff.contains(reasons@[j].0@) {
                                        lemma_imports_mono(ts, sc, fb, kr, kn, reasons@[j].0@, reasons@[j].1@);
                                    }
                                }
                            }
                            assert forall|j: int| 0 <= j < pending@.len() implies pending_ok(ts, sc, fb,
                                kn, first_round, (#[trigger] pending@[j]).0@, pending@[j].1@) by {
                                if !first_round {
                                    lemma_imports_mono(ts, sc, fb, kr, kn, pending@[j].0@, pending@[j].1@);
                                }
                            }
                            assert forall|j: int| 0 <= j < next@.len() implies
                                ranked_below(rk, (#[trigger] next@[j]).1@, round + 2) by {
                                if j < old_next.len() {
                                    assert(next@[j] == old_next[j]);
                                    assert(ranked_below(old_rk, old_next[j].1@, round + 2));
                                } else {
                                    assert(next@[j].1@ == "imports "@ + c);
                                    assert(rk.contains_key(c) && rk[c] < round + 2);
                                }
                            }
                            assert(!first_round ==> forall|j: int| 0 <= j < pending@.len() ==>
                                ranked_below(rk, (#[trigger] pending@[j]).1@, round + 1)) by {
                                if !first_round {
                                    assert forall|j: int| 0 <= j < pending@.len() implies
                                        ranked_below(rk, (#[trigger] pending@[j]).1@, round + 1) by {
                                        assert(ranked_below(old_rk, pending@[j].1@, round + 1));
                                    }
                                }
                            }
                            // the queued importers
                            assert forall|j: int| 0 <= j < next@.len() implies imports_reason(ts, sc, fb,
                                kn, (#[trigger] next@[j]).0@, next@[j].1@) by {
                                if j < old_next.len() {
                                    assert(next@[j] == old_next[j]);
                                    lemma_imports_mono(ts, sc, fb, kr, kn, next@[j].0@, next@[j].1@);
                                } else {
                                    let b = next@[j].0@;
                                    assert(is_edge(es@, c, b));
                                    assert(importers_rel(ts)(c, b));
                                    assert(kn.contains(c));
                                }
                            }
                            assert forall|b: Seq<char>| #[trigger] keys_of(next@).contains(b)
                                implies tt.contains(b) && sl.contains(b) by {
                                if !keys_of(old_next).contains(b) {
                                    assert(is_edge(es@, c, b));
                                    let k = choose|k: int| 0 <= k < es@.len() && (#[trigger] es@[k]).0@ == c && es@[k].1@ == b;
                                    assert(sl[n_r + n_f + k] == b);
                                    assert(importers_rel(ts)(c, b));
                                    if !ss.contains(b) {
                                        crate::reach::lemma_walk_extend(importers_rel(ts), ff, ss, c, b);
                                    }
                                }
                            }
                            assert forall|a: Seq<char>, b: Seq<char>| kn.contains(a) && !ss.contains(a)
                                && #[trigger] import_edge(ts, a, b) implies kn.contains(b) || pk.contains(b)
                                    || keys_of(next@).contains(b) by {
                                if a == c {
                                    assert(importers_rel(ts)(c, b));
                                    assert(is_edge(es@, c, b));
                                    assert(sset(imps@).contains(b));
                                }
                            }
                        }
                    },
                }
                i = i + 1;
            }
            proof {
                assert(pk.subset_of(keys_of(reasons@))) by {
                    assert forall|x: Seq<char>| pk.contains(x) implies keys_of(reasons@).contains(x) by {
                        let j = choose|j: int| 0 <= j < pending@.len() && (#[trigger] pending@[j]).0@ == x;
                    }
                }
                first_round = false;
                round = round + 1;
                assert forall|j: int| 0 <= j < next@.len() implies pending_ok(ts, sc, fb,
                    keys_of(reasons@), first_round, (#[trigger] next@[j]).0@, next@[j].1@) by {
                }
            }
            pending = next;
        }
        proof {
            let kf = keys_of(reasons@);
            assert(keys_of(pending@) =~= Set::<Seq<char>>::empty());
            assert forall|x: Seq<char>| tt.contains(x) implies kf.contains(x) by {
                if !ss.contains(x) {
                    let rel = importers_rel(ts);
                    let p = choose|p: Seq<Seq<char>>| crate::reach::is_walk(rel, p) && ff.contains(#[trigger] p[0])
                        && p.last() == x && crate::reach::avoids(p, ss);
                    assert forall|a: Seq<char>, b: Seq<char>| kf.contains(a) && !ss.contains(a) && #[trigger] rel(a, b)
                        implies kf.contains(b) by {
                        assert(import_edge(ts, a, b));
                    }
                    crate::reach::lemma_walk_inside(rel, kf, ss, p, p.len() - 1);
                }
            }
            assert(kf =~= tt);
            assert(reasons_ranked(ts, sc, fb, reasons@, rk));
        }
    }
}


impl Trees {
    /// Class-based symbol-aware BFS returning, for each affected module, one
    /// reason why it is affected.
    ///
    /// A changed module with symbol information is affected because its listed
    /// symbols changed; one without is simply `changed`. The first hop goes to
    /// the users of the changed symbols (`uses m.name`), the users of all of a
    /// module (`star-imports m`), every importer of a module whose body changed
    /// (`imports m (module body changed)`), and every importer of a module
    /// without symbol information (`imports m`). From there on every importer of
    /// an affected module is affected (`imports p`), `p` being a module found in an
    /// earlier round, so that following the `imports` reasons always leads back
    /// to the first hop.
    #[verifier::rlimit(50)]
    pub fn get_dependee_classes_with_reasons(
        &self,
        symbol_changes: &Vec<(String, Vec<Symbol>)>,
        fallback_classes: &Vec<String>,
    ) -> (r: Vec<(String, String)>)
        ensures
            keys_distinct(r@),
            keys_of(r@) == symbol_aware(self.trees@, changes_view(symbol_changes@), sset(fallback_classes@)),
            forall|i: int| 0 <= i < r@.len() ==> reason_ok(self.trees@, changes_view(symbol_changes@),
                sset(fallback_classes@), keys_of(r@), (#[trigger] r@[i]).0@, r@[i].1@),
            exists|rk: Map<Seq<char>, nat>| reasons_ranked(self.trees@, changes_view(symbol_changes@),
                sset(fallback_classes@), r@, rk),
    {
        let ghost ts = self.trees@;
        let ghost sc = symbol_changes@;
        let ghost scv = changes_view(sc);
        let ghost fb = fallback_classes@;
        let ghost fbs = sset(fb);
        let ghost fs = |i: int| first_hop_of(ts, scv[i].0, scv[i].1);
        let mut reasons: Vec<(String, String)> = Vec::new();
        let mut first: Vec<(String, String)> = Vec::new();
        proof {
            assert(keys_of(reasons@) =~= Set::<Seq<char>>::empty());
            lemma_union_upto_step(fs, 0);
        }
        let mut i: usize = 0;
        while i < symbol_changes.len()
            invariant
                i <= sc.len(),
                ts == self.trees@,
                sc == symbol_changes@,
                scv == changes_view(sc),
                fs == (|i: int| first_hop_of(ts, scv[i].0, scv[i].1)),
                keys_distinct(reasons@),
                keys_distinct(first@),
                keys_of(reasons@) == Set::new(|m: Seq<char>| exists|k: int| 0 <= k < i && (#[trigger] scv[k]).0 == m),
                forall|j: int| 0 <= j < reasons@.len() ==> exists|k: int| 0 <= k < i
                    && (#[trigger] scv[k]).0 == (#[trigger] reasons@[j]).0@ && changed_text(scv[k].1, reasons@[j].1@),
                keys_of(first@) == union_upto(fs, i as int),
                forall|j: int| 0 <= j < first@.len() ==>
                    hop_reason_upto(ts, scv, i as int, (#[trigger] first@[j]).0@, first@[j].1@),
            decreases sc.len() - i,
        {
            proof { lemma_union_upto_step(fs, i as int); }
            assert(scv[i as int] == (sc[i as int].0@, sc[i as int].1@.map_values(|s: Symbol| s@)));
            let mut why = format_symbol_list(&symbol_changes[i].1);
            let ghost t = why@;
            why.append(" changed");
            let ghost old_reasons = reasons@;
            let ghost old_first = first@;
            put(&mut reasons, symbol_changes[i].0.clone(), why);
            self.first_hop_reasons(&symbol_changes[i].0, &symbol_changes[i].1, &mut first);
            proof {
                assert forall|j: int| 0 <= j < reasons@.len() implies exists|k: int| 0 <= k < i + 1
                    && (#[trigger] scv[k]).0 == (#[trigger] reasons@[j]).0@ && changed_text(scv[k].1, reasons@[j].1@) by {
                    if reasons@[j].0@ == scv[i as int].0 {
                        assert(symbol_list_text(scv[i as int].1, t));
                        assert(changed_text(scv[i as int].1, reasons@[j].1@));
                    } else {
                        assert(reasons@[j] == old_reasons[j]);
                        let k = choose|k: int| 0 <= k < i && (#[trigger] scv[k]).0 == old_reasons[j].0@
                            && changed_text(scv[k].1, old_reasons[j].1@);
                    }
                }
                assert(keys_of(reasons@) =~= Set::new(|m: Seq<char>| exists|k: int| 0 <= k < i + 1 && (#[trigger] scv[k]).0 == m)) by {
                    assert forall|m: Seq<char>| keys_of(reasons@).contains(m) implies
                        exists|k: int| 0 <= k < i + 1 && (#[trigger] scv[k]).0 == m by {
                        if m != scv[i as int].0 {
                            assert(keys_of(old_reasons).contains(m));
                            let k = choose|k: int| 0 <= k < i && (#[trigger] scv[k]).0 == m;
                        }
                    }
                }
                assert(keys_of(first@) =~= union_upto(fs, i + 1));
                assert forall|j: int| 0 <= j < first@.len() implies
                    hop_reason_upto(ts, scv, i + 1, (#[trigger] first@[j]).0@, first@[j].1@) by {
                    if j < old_first.len() {
                        assert(first@[j] == old_first[j]);
                        assert(hop_reason_upto(ts, scv, i as int, old_first[j].0@, old_first[j].1@));
                        let k = choose|k: int| 0 <= k < i
                            && #[trigger] hop_reason_of(ts, scv[k].0, scv[k].1, old_first[j].0@, old_first[j].1@);
                    } else {
                        assert(hop_reason_of(ts, scv[i as int].0, scv[i as int].1, first@[j].0@, first@[j].1@));
                    }
                }
            }
            i = i + 1;
        }
        let ghost sc_keys = keys_of(reasons@);
        let ghost sc_first = keys_of(first@);
        let ghost ffb = |i: int| importers_of(ts, fb[i]@);
        proof {
            lemma_union_upto_step(ffb, 0);
            assert(sc_first == sc_hop(ts, scv));
        }
        let mut j: usize = 0;
        while j < fallback_classes.len()
            invariant
                j <= fb.len(),
                ts == self.trees@,
                fb == fallback_classes@,
                fbs == sset(fb),
                ffb == (|i: int| importers_of(ts, fb[i]@)),
                keys_distinct(reasons@),
                keys_distinct(first@),
                keys_of(reasons@) == sc_keys.union(sset(fb.take(j as int))),
                forall|k: int| 0 <= k < reasons@.len() ==> if sset(fb.take(j as int)).contains((#[trigger] reasons@[k]).0@) {
                    reasons@[k].1@ == "changed"@
                } else {
                    exists|m: int| 0 <= m < scv.len() && (#[trigger] scv[m]).0 == reasons@[k].0@
                        && changed_text(scv[m].1, reasons@[k].1@)
                },
                sc_first == sc_hop(ts, scv),
                keys_of(first@) == sc_first.union(union_upto(ffb, j as int)),
                forall|k: int| 0 <= k < first@.len() ==> if sc_first.contains((#[trigger] first@[k]).0@) {
                    exists|m: int| 0 <= m < scv.len() && #[trigger] hop_reason_of(ts, scv[m].0, scv[m].1, first@[k].0@, first@[k].1@)
                } else {
                    exists|m: Seq<char>| #[trigger] fbs.contains(m) && import_edge(ts, m, first@[k].0@)
                        && first@[k].1@ == "imports "@ + m
                },
            decreases fb.len() - j,
        {
            proof {
                lemma_union_upto_step(ffb, j as int);
                assert(fb.take(j + 1) =~= fb.take(j as int).push(fb[j as int]));
                crate::strs::lemma_sset_push(fb.take(j as int), fb[j as int]);
                assert(fbs.contains(fb[j as int]@));
            }
            let ghost old_reasons = reasons@;
            let ghost old_first = first@;
            put(&mut reasons, fallback_classes[j].clone(), "changed".to_owned());
            let imps = self.get_importers_across_trees(fallback_classes[j].as_str());
            let mut why = "imports ".to_owned();
            why.append(fallback_classes[j].as_str());
            put_all_absent(&mut first, &imps, &why);
            proof {
                assert forall|k: int| 0 <= k < reasons@.len() implies if sset(fb.take(j + 1)).contains((#[trigger] reasons@[k]).0@) {
                    reasons@[k].1@ == "changed"@
                } else {
                    exists|m: int| 0 <= m < scv.len() && (#[trigger] scv[m]).0 == reasons@[k].0@
                        && changed_text(scv[m].1, reasons@[k].1@)
                } by {
                    if reasons@[k].0@ != fb[j as int]@ {
                        assert(reasons@[k] == old_reasons[k]);
                    }
                }
                assert(keys_of(first@) =~= sc_first.union(union_upto(ffb, j + 1)));
                assert forall|k: int| 0 <= k < first@.len() implies if sc_first.contains((#[trigger] first@[k]).0@) {
                    exists|m: int| 0 <= m < scv.len() && #[trigger] hop_reason_of(ts, scv[m].0, scv[m].1, first@[k].0@, first@[k].1@)
                } else {
                    exists|m: Seq<char>| #[trigger] fbs.contains(m) && import_edge(ts, m, first@[k].0@)
                        && first@[k].1@ == "imports "@ + m
                } by {
                    if k < old_first.len() {
                        assert(first@[k] == old_first[k]);
                    } else {
                        assert(!keys_of(old_first).contains(first@[k].0@)) by {
                            if keys_of(old_first).contains(first@[k].0@) {
                                let a = choose|a: int| 0 <= a < old_first.len() && (#[trigger] old_first[a]).0@ == first@[k].0@;
                                assert(first@[a] == old_first[a]);
                            }
                        }
                        assert(import_edge(ts, fb[j as int]@, first@[k].0@));
                    }
                }
            }
            j = j + 1;
        }
        proof {
            assert(fb.take(fb.len() as int) =~= fb);
            assert(keys_of(reasons@) =~= seeds(scv, fbs)) by {
                assert forall|m: Seq<char>| #[trigger] seeds(scv, fbs).contains(m) implies keys_of(reasons@).contains(m) by {
                    if !fbs.contains(m) {
                        let k = choose|k: int| 0 <= k < scv.len() && (#[trigger] scv[k]).0 == m;
                        assert(sc_keys.contains(m));
                    }
                }
                assert forall|m: Seq<char>| keys_of(reasons@).contains(m) implies #[trigger] seeds(scv, fbs).contains(m) by {
                    if !fbs.contains(m) {
                        assert(sc_keys.contains(m));
                        let k = choose|k: int| 0 <= k < sc.len() && (#[trigger] scv[k]).0 == m;
                    }
                }
            }
            let g = Set::new(|b: Seq<char>| exists|m: Seq<char>| #[trigger] fbs.contains(m) && import_edge(ts, m, b));
            assert(g =~= union_upto(ffb, fb.len() as int)) by {
                assert forall|b: Seq<char>| #[trigger] g.contains(b) implies union_upto(ffb, fb.len() as int).contains(b) by {
                    let m = choose|m: Seq<char>| #[trigger] fbs.contains(m) && import_edge(ts, m, b);
                    let k = choose|k: int| 0 <= k < fb.len() && fb[k]@ == m;
                    assert(ffb(k).contains(b));
                }
                assert forall|b: Seq<char>| #[trigger] union_upto(ffb, fb.len() as int).contains(b) implies g.contains(b) by {
                    let k = choose|k: int| 0 <= k < fb.len() && #[trigger] ffb(k).contains(b);
                    assert(fbs.contains(fb[k]@));
                }
            }
            assert(keys_of(first@) =~= first_hop(ts, scv, fbs));
            assert forall|k: int| 0 <= k < reasons@.len() implies
                seed_reason(scv, fbs, (#[trigger] reasons@[k]).0@, reasons@[k].1@) by {
            }
            assert forall|k: int| 0 <= k < first@.len() implies
                hop_reason(ts, scv, fbs, (#[trigger] first@[k]).0@, first@[k].1@) by {
            }
        }
        self.spread_reasons(&mut reasons, first, Ghost(scv), Ghost(fbs));
        reasons
    }
}


/// `why` is the reason for a dependee module that is first found at `p`.
pub open spec fn path_reason<F: Fn(&String) -> bool>(
    ts: Seq<Tree>,
    f: F,
    sc: ChangesModel,
    fb: Set<Seq<char>>,
    p: Seq<char>,
    why: Seq<char>,
) -> bool {
    exists|c: Seq<char>| #[trigger] first_found(f, tree_candidates(ts, c), p)
        && reason_ok(ts, sc, fb, symbol_aware(ts, sc, fb), c, why)
}

impl Trees {
    /// Symbol-aware BFS over files that also returns one reason per dependee
    /// file explaining why it was included.
    ///
    /// The changed files are turned into their modules (files that no root
    /// holds are dropped), the modules affected are found with their reasons
    /// as in `get_dependee_classes_with_reasons`, and each is turned back into
    /// the first place where it exists; a module found nowhere is left out, and
    /// where two modules end up at one place, the later one's reason stays.
    pub fn get_dependees_symbol_aware_with_reasons<F: Fn(&String) -> bool>(
        &self,
        symbol_changes: &Vec<(String, Vec<Symbol>)>,
        fallback_files: &Vec<String>,
        path_exists: &F,
    ) -> (r: Vec<(String, String)>)
        requires
            forall|s: &String| #[trigger] path_exists.requires((s,)),
        ensures
            keys_distinct(r@),
            resolved_paths(self.trees@, *path_exists, symbol_aware(self.trees@,
                class_changes(self.trees@, symbol_changes@), input_classes(self.trees@, fallback_files@)), keys_of(r@)),
            forall|i: int| 0 <= i < r@.len() ==> path_reason(self.trees@, *path_exists,
                class_changes(self.trees@, symbol_changes@), input_classes(self.trees@, fallback_files@),
                (#[trigger] r@[i]).0@, r@[i].1@),
    {
        let ghost ts = self.trees@;
        let csc = self.class_symbol_changes(symbol_changes);
        let fbc = self.classes_of_paths(fallback_files);
        let reasons = self.get_dependee_classes_with_reasons(&csc, &fbc);
        let ghost scv = class_changes(ts, symbol_changes@);
        let ghost fbs = input_classes(ts, fallback_files@);
        let ghost tt = symbol_aware(ts, scv, fbs);
        let mut r: Vec<(String, String)> = Vec::new();
        proof {
            assert(keys_of(r@) =~= Set::<Seq<char>>::empty());
            assert(keys_of(reasons@.take(0)) =~= Set::<Seq<char>>::empty());
        }
        let mut i: usize = 0;
        while i < reasons.len()
            invariant
                i <= reasons@.len(),
                ts == self.trees@,
                scv == class_changes(ts, symbol_changes@),
                fbs == input_classes(ts, fallback_files@),
                tt == symbol_aware(ts, scv, fbs),
                forall|s: &String| #[trigger] path_exists.requires((s,)),
                keys_of(reasons@) == tt,
                forall|j: int| 0 <= j < reasons@.len() ==> reason_ok(ts, scv, fbs, tt,
                    (#[trigger] reasons@[j]).0@, reasons@[j].1@),
                keys_distinct(r@),
                resolved_paths(ts, *path_exists, keys_of(reasons@.take(i as int)), keys_of(r@)),
                forall|j: int| 0 <= j < r@.len() ==> path_reason(ts, *path_exists, scv, fbs,
                    (#[trigger] r@[j]).0@, r@[j].1@),
            decreases reasons@.len() - i,
        {
            let ghost before = keys_of(r@);
            let ghost old_r = r@;
            let ghost c = reasons@[i as int].0@;
            let found = self.class_to_path_across_trees(reasons[i].0.as_str(), path_exists);
            let ghost fv = crate::graph::opt_view(found);
            match found {
                Some(p) => {
                    put(&mut r, p, reasons[i].1.clone());
                },
                None => {},
            }
            proof {
                let cl = keys_of(reasons@.take(i + 1));
                let cl0 = keys_of(reasons@.take(i as int));
                assert(reasons@.take(i + 1)[i as int] == reasons@[i as int]);
                assert(cl.contains(c));
                assert forall|x: Seq<char>| #[trigger] cl0.contains(x) implies cl.contains(x) by {
                    let k = choose|k: int| 0 <= k < i && (#[trigger] reasons@.take(i as int)[k]).0@ == x;
                    assert(reasons@.take(i + 1)[k] == reasons@.take(i as int)[k]);
                }
                assert forall|p: Seq<char>| #[trigger] keys_of(r@).contains(p) implies
                    exists|c2: Seq<char>| cl.contains(c2) && first_found(*path_exists, tree_candidates(ts, c2), p) by {
                    if before.contains(p) {
                        let c2 = choose|c2: Seq<char>| cl0.contains(c2)
                            && first_found(*path_exists, tree_candidates(ts, c2), p);
                        assert(cl.contains(c2));
                    }
                }
                assert forall|c2: Seq<char>| #[trigger] cl.contains(c2) implies
                    none_found(*path_exists, tree_candidates(ts, c2))
                        || exists|p: Seq<char>| keys_of(r@).contains(p) && first_found(*path_exists, tree_candidates(ts, c2), p) by {
                    let k = choose|k: int| 0 <= k < i + 1 && (#[trigger] reasons@.take(i + 1)[k]).0@ == c2;
                    if k < i {
                        assert(reasons@.take(i as int)[k] == reasons@.take(i + 1)[k]);
                        assert(cl0.contains(c2));
                        if !none_found(*path_exists, tree_candidates(ts, c2)) {
                            let p = choose|p: Seq<char>| before.contains(p) && first_found(*path_exists, tree_candidates(ts, c2), p);
                            assert(keys_of(r@).contains(p));
                        }
                    } else {
                        assert(c2 == c);
                        if let Some(pv) = fv {
                            assert(keys_of(r@).contains(pv));
                            assert(first_found(*path_exists, tree_candidates(ts, c2), pv));
                        }
                    }
                }
                assert(keys_of(reasons@).contains(c));
                assert(reason_ok(ts, scv, fbs, tt, c, reasons@[i as int].1@));
                assert forall|j: int| 0 <= j < r@.len() implies path_reason(ts, *path_exists, scv, fbs,
                    (#[trigger] r@[j]).0@, r@[j].1@) by {
                    if fv is Some && r@[j].0@ == fv->0 {
                        assert(r@[j].1@ == reasons@[i as int].1@);
                        assert(first_found(*path_exists, tree_candidates(ts, c), r@[j].0@));
                        assert(reason_ok(ts, scv, fbs, tt, c, r@[j].1@));
                    } else {
                        assert(r@[j] == old_r[j]);
                        assert(path_reason(ts, *path_exists, scv, fbs, old_r[j].0@, old_r[j].1@));
                    }
                }
            }
            i = i + 1;
        }
        assert(reasons@.take(reasons@.len() as int) =~= reasons@);
        r
    }
}

} // verus!
