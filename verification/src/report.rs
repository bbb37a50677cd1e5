//! What is reported: which inputs are Python sources, and how the lists of
//! paths are ordered and written out.
use vstd::prelude::*;
use crate::paths::{comps, components};
use crate::roots::{file_name_of, is_py_file, is_python_file};
use crate::buildfiles::{is_build_name, is_build_file_name};
use crate::reasons::{sorted, texts, insert_sorted, join_with};
use crate::text::string_from_chars;
use crate::strs::sset;

verus! {

/// A path whose file name is that of a BUILD file with base name `base`.
pub open spec fn is_build_path(p: Seq<char>, base: Seq<char>) -> bool {
    match file_name_of(comps(p)) {
        Some(n) => is_build_name(n, base),
        None => false,
    }
}

/// Whether `p` names a BUILD file with base name `base`.
fn is_build_path_exec(p: &String, base: &str) -> (r: bool)
    ensures
        r == is_build_path(p@, base@),
{
    let cs = components(p.as_str());
    let ghost v = cs@.map_values(|c: Vec<char>| c@);
    let n = cs.len();
    if n == 0 {
        return false;
    }
    let last = &cs[n - 1];
    assert(v.last() == last@);
    if last.len() == 0 || (last.len() == 2 && last[0] == '.' && last[1] == '.') {
        proof {
            if last.len() == 2 && last[0] == '.' && last[1] == '.' {
                assert(last@ =~= seq!['.', '.']);
            }
        }
        return false;
    }
    assert(last@ != seq!['.', '.']) by {
        if last@ == seq!['.', '.'] {
            assert(last@.len() == 2 && last@[0] == '.' && last@[1] == '.');
        }
    }
    let name = string_from_chars(last);
    is_build_file_name(name.as_str(), base)
}

/// A Python source that is not a BUILD file.
pub open spec fn python_input(f: Seq<char>, base: Seq<char>) -> bool {
    is_py_file(f) && !is_build_path(f, base)
}

/// A changed file that is neither a Python source nor a BUILD file.
pub open spec fn other_input(f: Seq<char>, base: Seq<char>) -> bool {
    !is_py_file(f) && !is_build_path(f, base)
}

/// Separate the changed files into Python sources and the other files; BUILD
/// files themselves (metadata, not source) are in neither.
pub fn partition_inputs(files: &Vec<String>, build_base: &str) -> (r: (Vec<String>, Vec<String>))
    ensures
        r.0@ == files@.filter(|f: String| python_input(f@, build_base@)),
        r.1@ == files@.filter(|f: String| other_input(f@, build_base@)),
{
    let ghost pp = |f: String| python_input(f@, build_base@);
    let ghost po = |f: String| other_input(f@, build_base@);
    let mut py: Vec<String> = Vec::new();
    let mut other: Vec<String> = Vec::new();
    let mut i: usize = 0;
    proof {
        reveal(Seq::filter);
        assert(files@.take(0).filter(pp) =~= Seq::<String>::empty());
        assert(files@.take(0).filter(po) =~= Seq::<String>::empty());
    }
    while i < files.len()
        invariant
            i <= files@.len(),
            pp == (|f: String| python_input(f@, build_base@)),
            po == (|f: String| other_input(f@, build_base@)),
            py@ == files@.take(i as int).filter(pp),
            other@ == files@.take(i as int).filter(po),
        decreases files@.len() - i,
    {
        let is_py = is_python_file(&files[i]);
        let is_build = is_build_path_exec(&files[i], build_base);
        proof {
            reveal(Seq::filter);
            assert(files@.take(i + 1).drop_last() =~= files@.take(i as int));
            assert(files@.take(i + 1).last() == files@[i as int]);
        }
        if is_py && !is_build {
            py.push(files[i].clone());
        } else if !is_py && !is_build {
            other.push(files[i].clone());
        }
        i = i + 1;
    }
    assert(files@.take(files@.len() as int) =~= files@);
    (py, other)
}

/// The strings of `v` in order.
pub fn sort_strings(v: &Vec<String>) -> (r: Vec<String>)
    ensures
        sorted(texts(r@)),
        texts(r@).to_multiset() == texts(v@).to_multiset(),
{
    let mut r: Vec<String> = Vec::new();
    let mut i: usize = 0;
    assert(texts(v@).take(0) =~= Seq::<Seq<char>>::empty());
    assert(texts(r@) =~= Seq::<Seq<char>>::empty());
    while i < v.len()
        invariant
            i <= v@.len(),
            sorted(texts(r@)),
            texts(r@).to_multiset() == texts(v@).take(i as int).to_multiset(),
        decreases v@.len() - i,
    {
        insert_sorted(&mut r, v[i].clone());
        proof {
            broadcast use vstd::seq_lib::to_multiset_build;
            assert(texts(v@).take(i + 1) =~= texts(v@).take(i as int).push(v@[i as int]@));
        }
        i = i + 1;
    }
    assert(texts(v@).take(v@.len() as int) =~= texts(v@));
    r
}

/// The texts of `v`, each followed by `sep`.
pub open spec fn lines_text(v: Seq<Seq<char>>, sep: Seq<char>) -> Seq<char>
    decreases v.len(),
{
    if v.len() == 0 {
        Seq::empty()
    } else {
        lines_text(v.drop_last(), sep) + v.last() + sep
    }
}

/// Appends each of `v`, followed by `sep`, to `r`.
fn append_lines(r: &mut String, v: &Vec<String>, sep: &str)
    ensures
        final(r)@ == old(r)@ + lines_text(texts(v@), sep@),
{
    let ghost t = texts(v@);
    let mut i: usize = 0;
    assert(t.take(0) =~= Seq::<Seq<char>>::empty());
    assert(r@ =~= old(r)@ + lines_text(t.take(0), sep@));
    while i < v.len()
        invariant
            i <= v@.len(),
            t == texts(v@),
            r@ == old(r)@ + lines_text(t.take(i as int), sep@),
        decreases v@.len() - i,
    {
        r.append(v[i].as_str());
        r.append(sep);
        assert(t.take(i + 1).drop_last() =~= t.take(i as int));
        assert(t.take(i + 1).last() == v@[i as int]@);
        assert(r@ =~= old(r)@ + lines_text(t.take(i + 1), sep@));
        i = i + 1;
    }
    assert(t.take(t.len() as int) =~= t);
}

proof fn lemma_lines_concat(a: Seq<Seq<char>>, b: Seq<Seq<char>>, sep: Seq<char>)
    ensures
        lines_text(a + b, sep) == lines_text(a, sep) + lines_text(b, sep),
    decreases b.len(),
{
    if b.len() == 0 {
        assert(a + b =~= a);
        assert(lines_text(a, sep) + lines_text(b, sep) =~= lines_text(a, sep));
    } else {
        lemma_lines_concat(a, b.drop_last(), sep);
        assert((a + b).drop_last() =~= a + b.drop_last());
        assert((a + b).last() == b.last());
        assert(lines_text(a + b, sep) =~= lines_text(a, sep) + lines_text(b, sep));
    }
}

/// The plain report: each dependee, then each BUILD file, each followed by `sep`.
pub fn text_report(dependees: &Vec<String>, build_files: &Vec<String>, sep: &str) -> (r: String)
    ensures
        r@ == lines_text(texts(dependees@) + texts(build_files@), sep@),
{
    let mut r = String::new();
    append_lines(&mut r, dependees, sep);
    append_lines(&mut r, build_files, sep);
    proof {
        lemma_lines_concat(texts(dependees@), texts(build_files@), sep@);
    }
    assert(r@ =~= lines_text(texts(dependees@) + texts(build_files@), sep@));
    r
}

/// `dep  (triggered by: t1, t2, ...)`.
pub open spec fn explain_line(dep: Seq<char>, triggers: Seq<Seq<char>>) -> Seq<char> {
    dep + "  (triggered by: "@ + join_with(triggers, ", "@) + ")"@
}

/// `dep  (reason)`.
pub open spec fn debug_line(dep: Seq<char>, reason: Seq<char>) -> Seq<char> {
    dep + "  ("@ + reason + ")"@
}

/// The parts of `v` joined by `, `.
fn join_comma(v: &Vec<String>) -> (r: String)
    ensures
        r@ == join_with(texts(v@), ", "@),
{
    let ghost t = texts(v@);
    let mut r = String::new();
    let mut i: usize = 0;
    assert(t.take(0) =~= Seq::<Seq<char>>::empty());
    while i < v.len()
        invariant
            i <= v@.len(),
            t == texts(v@),
            r@ == join_with(t.take(i as int), ", "@),
        decreases v@.len() - i,
    {
        let ghost before = r@;
        if i > 0 {
            r.append(", ");
        }
        r.append(v[i].as_str());
        proof {
            assert(t.take(i + 1).drop_last() =~= t.take(i as int));
            assert(t.take(i + 1).last() == v@[i as int]@);
            if i == 0 {
                assert(t.take(1).len() == 1);
                assert(r@ =~= t.take(1)[0]);
            } else {
                assert(r@ =~= join_with(t.take(i as int), ", "@) + ", "@ + t.take(i + 1).last());
            }
        }
        i = i + 1;
    }
    assert(t.take(t.len() as int) =~= t);
    r
}

/// The report with explanations: for each dependee the modules that triggered
/// it, then each BUILD file, each line followed by `sep`.
pub fn explain_report(entries: &Vec<(String, Vec<String>)>, build_files: &Vec<String>, sep: &str) -> (r: String)
    ensures
        r@ == lines_text(entries@.map_values(|e: (String, Vec<String>)| explain_line(e.0@, texts(e.1@)))
            + texts(build_files@), sep@),
{
    let ghost ls = entries@.map_values(|e: (String, Vec<String>)| explain_line(e.0@, texts(e.1@)));
    let mut r = String::new();
    let mut i: usize = 0;
    assert(ls.take(0) =~= Seq::<Seq<char>>::empty());
    while i < entries.len()
        invariant
            i <= entries@.len(),
            ls == entries@.map_values(|e: (String, Vec<String>)| explain_line(e.0@, texts(e.1@))),
            r@ == lines_text(ls.take(i as int), sep@),
        decreases entries@.len() - i,
    {
        r.append(entries[i].0.as_str());
        r.append("  (triggered by: ");
        let joined = join_comma(&entries[i].1);
        r.append(joined.as_str());
        r.append(")");
        r.append(sep);
        assert(ls.take(i + 1).drop_last() =~= ls.take(i as int));
        assert(ls.take(i + 1).last() == ls[i as int]);
        assert(r@ =~= lines_text(ls.take(i + 1), sep@));
        i = i + 1;
    }
    assert(ls.take(ls.len() as int) =~= ls);
    let ghost mid = r@;
    append_lines(&mut r, build_files, sep);
    proof {
        lemma_lines_concat(ls, texts(build_files@), sep@);
    }
    assert(r@ =~= lines_text(ls + texts(build_files@), sep@));
    r
}

/// The report with reasons: each dependee with why it is affected, then each
/// BUILD file, each line followed by `sep`.
pub fn debug_report(entries: &Vec<(String, String)>, build_files: &Vec<String>, sep: &str) -> (r: String)
    ensures
        r@ == lines_text(entries@.map_values(|e: (String, String)| debug_line(e.0@, e.1@))
            + texts(build_files@), sep@),
{
    let ghost ls = entries@.map_values(|e: (String, String)| debug_line(e.0@, e.1@));
    let mut r = String::new();
    let mut i: usize = 0;
    assert(ls.take(0) =~= Seq::<Seq<char>>::empty());
    while i < entries.len()
        invariant
            i <= entries@.len(),
            ls == entries@.map_values(|e: (String, String)| debug_line(e.0@, e.1@)),
            r@ == lines_text(ls.take(i as int), sep@),
        decreases entries@.len() - i,
    {
        r.append(entries[i].0.as_str());
        r.append("  (");
        r.append(entries[i].1.as_str());
        r.append(")");
        r.append(sep);
        assert(ls.take(i + 1).drop_last() =~= ls.take(i as int));
        assert(ls.take(i + 1).last() == ls[i as int]);
        assert(r@ =~= lines_text(ls.take(i + 1), sep@));
        i = i + 1;
    }
    assert(ls.take(ls.len() as int) =~= ls);
    append_lines(&mut r, build_files, sep);
    proof {
        lemma_lines_concat(ls, texts(build_files@), sep@);
    }
    assert(r@ =~= lines_text(ls + texts(build_files@), sep@));
    r
}

/// The keys of a list of entries.
pub open spec fn list_keys(m: Seq<(String, Vec<String>)>) -> Set<Seq<char>> {
    Set::new(|k: Seq<char>| exists|i: int| 0 <= i < m.len() && (#[trigger] m[i]).0@ == k)
}

fn copy_strings(v: &Vec<String>) -> (r: Vec<String>)
    ensures
        texts(r@) == texts(v@),
{
    let mut r: Vec<String> = Vec::new();
    let mut i: usize = 0;
    while i < v.len()
        invariant
            i <= v@.len(),
            texts(r@) == texts(v@).take(i as int),
        decreases v@.len() - i,
    {
        let ghost before = r@;
        let x = v[i].clone();
        r.push(x);
        assert(texts(r@) =~= texts(before).push(x@));
        assert(texts(v@).take(i + 1) =~= texts(v@).take(i as int).push(v@[i as int]@));
        i = i + 1;
    }
    assert(texts(v@).take(v@.len() as int) =~= texts(v@));
    r
}

fn has_key(m: &Vec<(String, Vec<String>)>, k: &String) -> (r: bool)
    ensures
        r == list_keys(m@).contains(k@),
{
    let mut i: usize = 0;
    while i < m.len()
        invariant
            i <= m@.len(),
            forall|j: int| 0 <= j < i ==> (#[trigger] m@[j]).0@ != k@,
        decreases m@.len() - i,
    {
        if m[i].0 == *k {
            return true;
        }
        i = i + 1;
    }
    false
}

/// Adds each of `ks` that is not yet a key of `m`, in order, with a copy of
/// the list `v`; the entries already there keep their lists.
pub fn put_lists_absent(m: &mut Vec<(String, Vec<String>)>, ks: &Vec<String>, v: &Vec<String>)
    ensures
        list_keys(final(m)@) == list_keys(old(m)@).union(sset(ks@)),
        final(m)@.len() >= old(m)@.len(),
        forall|i: int| 0 <= i < old(m)@.len() ==> #[trigger] final(m)@[i] == old(m)@[i],
        forall|i: int| old(m)@.len() <= i < final(m)@.len() ==> !list_keys(old(m)@).contains((#[trigger] final(m)@[i]).0@)
            && texts(final(m)@[i].1@) == texts(v@),
        forall|i: int, j: int| old(m)@.len() <= i < final(m)@.len() && old(m)@.len() <= j < final(m)@.len() && i != j
            ==> (#[trigger] final(m)@[i]).0@ != (#[trigger] final(m)@[j]).0@,
{
    let ghost m0 = m@;
    let mut j: usize = 0;
    while j < ks.len()
        invariant
            j <= ks@.len(),
            list_keys(m@) == list_keys(m0).union(sset(ks@.take(j as int))),
            m@.len() >= m0.len(),
            forall|i: int| 0 <= i < m0.len() ==> #[trigger] m@[i] == m0[i],
            forall|i: int| m0.len() <= i < m@.len() ==> !list_keys(m0).contains((#[trigger] m@[i]).0@)
                && texts(m@[i].1@) == texts(v@),
            forall|i: int, k: int| m0.len() <= i < m@.len() && m0.len() <= k < m@.len() && i != k
                ==> (#[trigger] m@[i]).0@ != (#[trigger] m@[k]).0@,
        decreases ks@.len() - j,
    {
        let ghost before = m@;
        proof {
            assert(ks@.take(j + 1) =~= ks@.take(j as int).push(ks@[j as int]));
            crate::strs::lemma_sset_push(ks@.take(j as int), ks@[j as int]);
        }
        if !has_key(m, &ks[j]) {
            m.push((ks[j].clone(), copy_strings(v)));
            proof {
                let n = before.len() as int;
                assert(m@[n].0@ == ks@[j as int]@);
                assert forall|i: int| m0.len() <= i < n implies (#[trigger] m@[i]).0@ != m@[n].0@ by {
                    assert(m@[i] == before[i]);
                    assert(list_keys(before).contains(before[i].0@));
                }
                assert(list_keys(m@) =~= list_keys(before).insert(ks@[j as int]@)) by {
                    assert forall|x: Seq<char>| list_keys(m@).contains(x) implies list_keys(before).insert(ks@[j as int]@).contains(x) by {
                        let a = choose|a: int| 0 <= a < m@.len() && (#[trigger] m@[a]).0@ == x;
                        if a < n {
                            assert(m@[a] == before[a]);
                        }
                    }
                    assert forall|x: Seq<char>| list_keys(before).insert(ks@[j as int]@).contains(x) implies list_keys(m@).contains(x) by {
                        if x != ks@[j as int]@ {
                            let a = choose|a: int| 0 <= a < before.len() && (#[trigger] before[a]).0@ == x;
                            assert(m@[a] == before[a]);
                        }
                    }
                }
                assert(!list_keys(m0).contains(m@[n].0@)) by {
                    if list_keys(m0).contains(m@[n].0@) {
                        let a = choose|a: int| 0 <= a < m0.len() && (#[trigger] m0[a]).0@ == m@[n].0@;
                        assert(before[a] == m0[a]);
                    }
                }
            }
        } else {
            assert(list_keys(m@) =~= list_keys(m0).union(sset(ks@.take(j + 1))));
        }
        j = j + 1;
    }
    assert(ks@.take(ks@.len() as int) =~= ks@);
}

} // verus!
