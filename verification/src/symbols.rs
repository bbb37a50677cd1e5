//! Top-level symbols of a module, their cache keys, and what a module uses
//! of the modules it imports.
use vstd::prelude::*;
use crate::text::{chars_of, has_at, string_from_range, push_char, chars_eq};
use crate::strs::{sset, nodup, insert, contains, lemma_empty};
use crate::reach::{Rel, is_edge, edges_are, closure, reach, lemma_starts_in_closure, lemma_closure_step};

verus! {

/// The kind of a top-level symbol.
#[derive(Clone, Copy, Debug, PartialEq, Eq, Structural)]
pub enum SymbolKind {
    Function,
    Class,
    Variable,
    ModuleBody,
}

/// A named top-level symbol in a module.
/// Methods within a class are part of the class symbol.
/// Module-level code outside any def/class is represented as `ModuleBody`.
#[derive(Debug, Clone, Hash, PartialEq, Eq)]
pub enum Symbol {
    Function(String),
    Class(String),
    Variable(String),
    /// Everything at module level not inside a def/class
    /// (import statements, bare expressions, if __name__ blocks, etc.)
    ModuleBody,
}

impl View for Symbol {
    type V = (SymbolKind, Seq<char>);

    /// The kind and the name; `ModuleBody` has the empty name.
    open spec fn view(&self) -> (SymbolKind, Seq<char>) {
        match self {
            Symbol::Function(n) => (SymbolKind::Function, n@),
            Symbol::Class(n) => (SymbolKind::Class, n@),
            Symbol::Variable(n) => (SymbolKind::Variable, n@),
            Symbol::ModuleBody => (SymbolKind::ModuleBody, Seq::empty()),
        }
    }
}

/// A symbol model is that of some symbol: the module body has no name.
pub open spec fn symbol_model_ok(v: (SymbolKind, Seq<char>)) -> bool {
    v.0 == SymbolKind::ModuleBody ==> v.1 == Seq::<char>::empty()
}

pub open spec fn fn_tag() -> Seq<char> {
    seq!['f', 'n', ':']
}

pub open spec fn cls_tag() -> Seq<char> {
    seq!['c', 'l', 's', ':']
}

pub open spec fn var_tag() -> Seq<char> {
    seq!['v', 'a', 'r', ':']
}

pub open spec fn body_key() -> Seq<char> {
    seq!['_', '_', 'b', 'o', 'd', 'y', '_', '_']
}

/// The cache key of a symbol: `fn:NAME`, `cls:NAME`, `var:NAME` or `__body__`.
pub open spec fn key_text(v: (SymbolKind, Seq<char>)) -> Seq<char> {
    match v.0 {
        SymbolKind::Function => fn_tag() + v.1,
        SymbolKind::Class => cls_tag() + v.1,
        SymbolKind::Variable => var_tag() + v.1,
        SymbolKind::ModuleBody => body_key(),
    }
}

/// `t` is a prefix of `k`.
pub open spec fn has_prefix(k: Seq<char>, t: Seq<char>) -> bool {
    t.len() <= k.len() && k.take(t.len() as int) == t
}

/// The symbol that a cache key names, if any.
pub open spec fn parse_key(k: Seq<char>) -> Option<(SymbolKind, Seq<char>)> {
    if k == body_key() {
        Some((SymbolKind::ModuleBody, Seq::empty()))
    } else if has_prefix(k, fn_tag()) {
        Some((SymbolKind::Function, k.skip(3)))
    } else if has_prefix(k, cls_tag()) {
        Some((SymbolKind::Class, k.skip(4)))
    } else if has_prefix(k, var_tag()) {
        Some((SymbolKind::Variable, k.skip(4)))
    } else {
        None
    }
}

pub open spec fn opt_symbol_view(o: Option<Symbol>) -> Option<(SymbolKind, Seq<char>)> {
    match o {
        Some(s) => Some(s@),
        None => None,
    }
}

/// Reading back the cache key of a symbol gives the symbol.
pub proof fn lemma_cache_key_roundtrip(v: (SymbolKind, Seq<char>))
    requires
        symbol_model_ok(v),
    ensures
        parse_key(key_text(v)) == Some(v),
{
    let k = key_text(v);
    match v.0 {
        SymbolKind::Function => {
            assert(k.take(3) =~= fn_tag());
            assert(k.skip(3) =~= v.1);
            assert(k[0] == 'f');
        },
        SymbolKind::Class => {
            assert(k.take(4) =~= cls_tag());
            assert(k.skip(4) =~= v.1);
            assert(k[0] == 'c');
            assert(!has_prefix(k, fn_tag()));
        },
        SymbolKind::Variable => {
            assert(k.take(4) =~= var_tag());
            assert(k.skip(4) =~= v.1);
            assert(k[0] == 'v');
            assert(!has_prefix(k, fn_tag()));
            assert(!has_prefix(k, cls_tag()));
        },
        SymbolKind::ModuleBody => {},
    }
    if v.0 != SymbolKind::ModuleBody {
        assert(k != body_key()) by {
            assert(k[0] != '_');
        }
    }
}

/// A key that names a symbol is the cache key of that symbol.
pub proof fn lemma_parse_key_inverse(k: Seq<char>)
    ensures
        parse_key(k) matches Some(v) ==> symbol_model_ok(v) && key_text(v) == k,
{
    if has_prefix(k, fn_tag()) {
        assert(fn_tag() + k.skip(3) =~= k);
    }
    if has_prefix(k, cls_tag()) {
        assert(cls_tag() + k.skip(4) =~= k);
    }
    if has_prefix(k, var_tag()) {
        assert(var_tag() + k.skip(4) =~= k);
    }
}

fn push_all(r: &mut String, cs: &Vec<char>)
    ensures
        final(r)@ == old(r)@ + cs@,
{
    let mut i: usize = 0;
    while i < cs.len()
        invariant
            i <= cs.len(),
            r@ == old(r)@ + cs@.take(i as int),
        decreases cs.len() - i,
    {
        push_char(r, cs[i]);
        i = i + 1;
        assert(r@ =~= old(r)@ + cs@.take(i as int));
    }
    assert(cs@.take(cs@.len() as int) =~= cs@);
}

fn tag_chars(kind: SymbolKind) -> (r: Vec<char>)
    ensures
        kind == SymbolKind::Function ==> r@ == fn_tag(),
        kind == SymbolKind::Class ==> r@ == cls_tag(),
        kind == SymbolKind::Variable ==> r@ == var_tag(),
        kind == SymbolKind::ModuleBody ==> r@ == body_key(),
{
    let r = match kind {
        SymbolKind::Function => vec!['f', 'n', ':'],
        SymbolKind::Class => vec!['c', 'l', 's', ':'],
        SymbolKind::Variable => vec!['v', 'a', 'r', ':'],
        SymbolKind::ModuleBody => vec!['_', '_', 'b', 'o', 'd', 'y', '_', '_'],
    };
    assert(kind == SymbolKind::Function ==> r@ =~= fn_tag());
    assert(kind == SymbolKind::Class ==> r@ =~= cls_tag());
    assert(kind == SymbolKind::Variable ==> r@ =~= var_tag());
    assert(kind == SymbolKind::ModuleBody ==> r@ =~= body_key());
    r
}

impl Symbol {
    /// The kind of this symbol.
    pub fn kind(&self) -> (k: SymbolKind)
        ensures
            k == self@.0,
    {
        match self {
            Symbol::Function(_) => SymbolKind::Function,
            Symbol::Class(_) => SymbolKind::Class,
            Symbol::Variable(_) => SymbolKind::Variable,
            Symbol::ModuleBody => SymbolKind::ModuleBody,
        }
    }

    /// The name of a function, class or variable; `None` for the module body.
    pub fn name(&self) -> (n: Option<&String>)
        ensures
            match n {
                Some(s) => self@.0 != SymbolKind::ModuleBody && s@ == self@.1,
                None => self@.0 == SymbolKind::ModuleBody,
            },
    {
        match self {
            Symbol::Function(n) => Some(n),
            Symbol::Class(n) => Some(n),
            Symbol::Variable(n) => Some(n),
            Symbol::ModuleBody => None,
        }
    }

    /// String key for use in cache serialization.
    pub fn cache_key(&self) -> (r: String)
        ensures
            r@ == key_text(self@),
    {
        let mut r = String::new();
        let tag = tag_chars(self.kind());
        push_all(&mut r, &tag);
        match self.name() {
            Some(n) => {
                let cs = chars_of(n.as_str());
                push_all(&mut r, &cs);
            },
            None => {
                assert(r@ =~= key_text(self@));
            },
        }
        r
    }

    /// Parse from cache key string.
    pub fn from_cache_key(key: &str) -> (r: Option<Symbol>)
        ensures
            opt_symbol_view(r) == parse_key(key@),
    {
        let k = chars_of(key);
        if chars_eq(&k, &tag_chars(SymbolKind::ModuleBody)) {
            return Some(Symbol::ModuleBody);
        }
        let fnt = tag_chars(SymbolKind::Function);
        if has_at(&k, 0, &fnt) {
            assert(k@.take(3) =~= k@.subrange(0, 3));
            let n = string_from_range(&k, 3, k.len());
            assert(n@ =~= k@.skip(3));
            return Some(Symbol::Function(n));
        }
        assert(!has_prefix(k@, fn_tag())) by {
            if has_prefix(k@, fn_tag()) {
                assert(k@.take(3) =~= k@.subrange(0, 3));
            }
        }
        let clst = tag_chars(SymbolKind::Class);
        if has_at(&k, 0, &clst) {
            assert(k@.take(4) =~= k@.subrange(0, 4));
            let n = string_from_range(&k, 4, k.len());
            assert(n@ =~= k@.skip(4));
            return Some(Symbol::Class(n));
        }
        assert(!has_prefix(k@, cls_tag())) by {
            if has_prefix(k@, cls_tag()) {
                assert(k@.take(4) =~= k@.subrange(0, 4));
            }
        }
        let vart = tag_chars(SymbolKind::Variable);
        if has_at(&k, 0, &vart) {
            assert(k@.take(4) =~= k@.subrange(0, 4));
            let n = string_from_range(&k, 4, k.len());
            assert(n@ =~= k@.skip(4));
            return Some(Symbol::Variable(n));
        }
        assert(!has_prefix(k@, var_tag())) by {
            if has_prefix(k@, var_tag()) {
                assert(k@.take(4) =~= k@.subrange(0, 4));
            }
        }
        None
    }
}

/// A copy of a symbol.
pub fn copy_symbol(s: &Symbol) -> (r: Symbol)
    ensures
        r@ == s@,
{
    match s {
        Symbol::Function(n) => Symbol::Function(n.clone()),
        Symbol::Class(n) => Symbol::Class(n.clone()),
        Symbol::Variable(n) => Symbol::Variable(n.clone()),
        Symbol::ModuleBody => Symbol::ModuleBody,
    }
}

/// The set of symbols held by `v`.
pub open spec fn symset(v: Seq<Symbol>) -> Set<(SymbolKind, Seq<char>)> {
    Set::new(|x: (SymbolKind, Seq<char>)| exists|i: int| 0 <= i < v.len() && v[i]@ == x)
}

/// The names of the functions, classes and variables among `v`.
pub open spec fn named(v: Seq<Symbol>) -> Set<Seq<char>> {
    Set::new(|n: Seq<char>| exists|i: int| 0 <= i < v.len() && v[i]@.0 != SymbolKind::ModuleBody && v[i]@.1 == n)
}

/// `a` refers to `b` according to the intra-module dependency list `deps`.
pub open spec fn refers_to(deps: Seq<(String, Vec<String>)>, a: Seq<char>, b: Seq<char>) -> bool {
    exists|i: int, j: int| 0 <= i < deps.len() && 0 <= j < deps[i].1@.len() && #[trigger] deps[i].0@ == a
        && #[trigger] deps[i].1@[j]@ == b
}

/// A change of `b` affects `a` when `a` refers to `b`.
pub open spec fn affects(deps: Seq<(String, Vec<String>)>) -> Rel {
    |b: Seq<char>, a: Seq<char>| refers_to(deps, a, b)
}

/// The symbols affected by a change of `changed`: those changed, and a function
/// named after each other name that refers, directly or through other names, to a changed name.
pub open spec fn propagated(changed: Seq<Symbol>, deps: Seq<(String, Vec<String>)>) -> Set<(SymbolKind, Seq<char>)> {
    symset(changed).union(
        Set::new(|s: (SymbolKind, Seq<char>)|
            s.0 == SymbolKind::Function && closure(affects(deps), named(changed)).contains(s.1)
                && !named(changed).contains(s.1)),
    )
}

fn changed_names(changed: &Vec<Symbol>) -> (r: Vec<String>)
    ensures
        sset(r@) == named(changed@),
        nodup(r@),
{
    let mut r: Vec<String> = Vec::new();
    proof { lemma_empty(); }
    let mut i: usize = 0;
    while i < changed.len()
        invariant
            i <= changed.len(),
            nodup(r@),
            sset(r@) == named(changed@.take(i as int)),
        decreases changed.len() - i,
    {
        let ghost before = sset(r@);
        match changed[i].name() {
            Some(n) => {
                insert(&mut r, n.clone());
            },
            None => {},
        }
        proof {
            assert(changed@.take(i + 1).drop_last() =~= changed@.take(i as int));
            assert(sset(r@) =~= named(changed@.take(i + 1))) by {
                assert forall|n: Seq<char>| named(changed@.take(i + 1)).contains(n) implies sset(r@).contains(n) by {
                    let k = choose|k: int| 0 <= k < i + 1 && (#[trigger] changed@.take(i + 1)[k])@.0 != SymbolKind::ModuleBody
                        && changed@.take(i + 1)[k]@.1 == n;
                    if k < i {
                        assert(changed@.take(i as int)[k] == changed@[k]);
                        assert(named(changed@.take(i as int)).contains(n));
                    }
                }
                assert forall|n: Seq<char>| sset(r@).contains(n) implies named(changed@.take(i + 1)).contains(n) by {
                    if before.contains(n) {
                        let k = choose|k: int| 0 <= k < i && (#[trigger] changed@.take(i as int)[k])@.0 != SymbolKind::ModuleBody
                            && changed@.take(i as int)[k]@.1 == n;
                        assert(changed@.take(i + 1)[k] == changed@[k]);
                    } else {
                        assert(changed@.take(i + 1)[i as int] == changed@[i as int]);
                    }
                }
            }
        }
        i = i + 1;
    }
    assert(changed@.take(changed@.len() as int) =~= changed@);
    r
}

fn affect_edges(deps: &Vec<(String, Vec<String>)>) -> (es: Vec<(String, String)>)
    ensures
        edges_are(es@, affects(deps@)),
{
    let mut es: Vec<(String, String)> = Vec::new();
    let mut i: usize = 0;
    while i < deps.len()
        invariant
            i <= deps.len(),
            forall|a: Seq<char>, b: Seq<char>| #[trigger] is_edge(es@, b, a) <==>
                exists|i2: int, j: int| 0 <= i2 < i && 0 <= j < deps@[i2].1@.len() && #[trigger] deps@[i2].0@ == a
                    && #[trigger] deps@[i2].1@[j]@ == b,
        decreases deps.len() - i,
    {
        let ds = &deps[i].1;
        let mut j: usize = 0;
        while j < ds.len()
            invariant
                i < deps.len(),
                ds == deps@[i as int].1,
                j <= ds.len(),
                forall|a: Seq<char>, b: Seq<char>| #[trigger] is_edge(es@, b, a) <==>
                    (exists|i2: int, j2: int| 0 <= i2 < i && 0 <= j2 < deps@[i2].1@.len() && #[trigger] deps@[i2].0@ == a
                        && #[trigger] deps@[i2].1@[j2]@ == b)
                    || (exists|j2: int| 0 <= j2 < j && deps@[i as int].0@ == a && #[trigger] ds@[j2]@ == b),
            decreases ds.len() - j,
        {
            let ghost old_es = es@;
            es.push((ds[j].clone(), deps[i].0.clone()));
            proof {
                assert forall|a: Seq<char>, b: Seq<char>| #[trigger] is_edge(es@, b, a) <==>
                    (exists|i2: int, j2: int| 0 <= i2 < i && 0 <= j2 < deps@[i2].1@.len() && #[trigger] deps@[i2].0@ == a
                        && #[trigger] deps@[i2].1@[j2]@ == b)
                    || (exists|j2: int| 0 <= j2 < j + 1 && deps@[i as int].0@ == a && #[trigger] ds@[j2]@ == b) by {
                    if is_edge(es@, b, a) {
                        let k = choose|k: int| 0 <= k < es@.len() && (#[trigger] es@[k]).0@ == b && es@[k].1@ == a;
                        if k < old_es.len() {
                            assert(old_es[k] == es@[k]);
                            assert(is_edge(old_es, b, a));
                        }
                    }
                    if exists|j2: int| 0 <= j2 < j + 1 && deps@[i as int].0@ == a && #[trigger] ds@[j2]@ == b {
                        let j2 = choose|j2: int| 0 <= j2 < j + 1 && deps@[i as int].0@ == a && #[trigger] ds@[j2]@ == b;
                        if j2 < j {
                            assert(is_edge(old_es, b, a));
                            let k = choose|k: int| 0 <= k < old_es.len() && (#[trigger] old_es[k]).0@ == b && old_es[k].1@ == a;
                            assert(es@[k] == old_es[k]);
                        } else {
                            assert(es@[old_es.len() as int].0@ == b);
                        }
                    }
                    if exists|i2: int, j2: int| 0 <= i2 < i && 0 <= j2 < deps@[i2].1@.len() && #[trigger] deps@[i2].0@ == a
                        && #[trigger] deps@[i2].1@[j2]@ == b {
                        assert(is_edge(old_es, b, a));
                        let k = choose|k: int| 0 <= k < old_es.len() && (#[trigger] old_es[k]).0@ == b && old_es[k].1@ == a;
                        assert(es@[k] == old_es[k]);
                    }
                }
            }
            j = j + 1;
        }
        i = i + 1;
    }
    es
}

/// Given a set of directly changed symbols and an intra-module dependency map,
/// compute the transitive closure of affected symbols.
pub fn propagate_intra_module_changes(
    directly_changed: &Vec<Symbol>,
    intra_deps: &Vec<(String, Vec<String>)>,
) -> (result: Vec<Symbol>)
    ensures
        symset(result@) == propagated(directly_changed@, intra_deps@),
{
    let names = changed_names(directly_changed);
    let es = affect_edges(intra_deps);
    let reached = reach(&names, &es, Ghost(affects(intra_deps@)));
    let ghost cl = closure(affects(intra_deps@), named(directly_changed@));
    let mut result: Vec<Symbol> = Vec::new();
    let mut i: usize = 0;
    while i < directly_changed.len()
        invariant
            i <= directly_changed.len(),
            result@.len() == i,
            forall|k: int| 0 <= k < i ==> (#[trigger] result@[k])@ == directly_changed@[k]@,
        decreases directly_changed.len() - i,
    {
        result.push(copy_symbol(&directly_changed[i]));
        i = i + 1;
    }
    let ghost base = result@;
    let mut j: usize = 0;
    while j < reached.len()
        invariant
            j <= reached.len(),
            base.len() == directly_changed@.len(),
            forall|k: int| 0 <= k < base.len() ==> (#[trigger] base[k])@ == directly_changed@[k]@,
            result@.len() >= base.len(),
            forall|k: int| 0 <= k < base.len() ==> #[trigger] result@[k] == base[k],
            forall|k: int| base.len() <= k < result@.len() ==> {
                &&& (#[trigger] result@[k])@.0 == SymbolKind::Function
                &&& cl.contains(result@[k]@.1)
                &&& !named(directly_changed@).contains(result@[k]@.1)
            },
            forall|k: int| 0 <= k < j && !named(directly_changed@).contains(#[trigger] reached@[k]@) ==>
                symset(result@).contains((SymbolKind::Function, reached@[k]@)),
            sset(reached@) == cl,
            sset(names@) == named(directly_changed@),
        decreases reached.len() - j,
    {
        if !contains(&names, &reached[j]) {
            let ghost before = result@;
            result.push(Symbol::Function(reached[j].clone()));
            proof {
                assert(sset(reached@).contains(reached@[j as int]@));
                assert(result@[before.len() as int]@ == (SymbolKind::Function, reached@[j as int]@));
                assert forall|k: int| 0 <= k < j && !named(directly_changed@).contains(#[trigger] reached@[k]@) implies
                    symset(result@).contains((SymbolKind::Function, reached@[k]@)) by {
                    let m = choose|m: int| 0 <= m < before.len() && (#[trigger] before[m])@ == (SymbolKind::Function, reached@[k]@);
                    assert(result@[m] == before[m]);
                }
            }
        }
        j = j + 1;
    }
    proof {
        assert forall|x: (SymbolKind, Seq<char>)| #[trigger] symset(result@).contains(x)
            implies propagated(directly_changed@, intra_deps@).contains(x) by {
            let k = choose|k: int| 0 <= k < result@.len() && (#[trigger] result@[k])@ == x;
            if k < base.len() {
                assert(symset(directly_changed@).contains(x));
            }
        }
        assert forall|x: (SymbolKind, Seq<char>)| #[trigger] propagated(directly_changed@, intra_deps@).contains(x)
            implies symset(result@).contains(x) by {
            if symset(directly_changed@).contains(x) {
                let k = choose|k: int| 0 <= k < directly_changed@.len() && (#[trigger] directly_changed@[k])@ == x;
                assert(result@[k] == base[k]);
            } else {
                assert(sset(reached@).contains(x.1));
                let k = choose|k: int| 0 <= k < reached@.len() && (#[trigger] reached@[k])@ == x.1;
                assert(!named(directly_changed@).contains(reached@[k]@));
            }
        }
        assert(symset(result@) =~= propagated(directly_changed@, intra_deps@));
    }
    result
}

/// Propagation reaches a fixed point: when a symbol named `b` is affected and
/// `a` refers to `b`, a symbol named `a` is affected as well; and every directly
/// changed symbol is affected.
pub proof fn lemma_propagation_closed(
    changed: Seq<Symbol>,
    deps: Seq<(String, Vec<String>)>,
    b: (SymbolKind, Seq<char>),
    a: Seq<char>,
)
    requires
        propagated(changed, deps).contains(b),
        b.0 != SymbolKind::ModuleBody,
        refers_to(deps, a, b.1),
    ensures
        exists|k: SymbolKind| k != SymbolKind::ModuleBody && #[trigger] propagated(changed, deps).contains((k, a)),
        symset(changed).subset_of(propagated(changed, deps)),
{
    let cl = closure(affects(deps), named(changed));
    if symset(changed).contains(b) {
        let i = choose|i: int| 0 <= i < changed.len() && (#[trigger] changed[i])@ == b;
        assert(named(changed).contains(b.1));
        lemma_starts_in_closure(affects(deps), named(changed), b.1);
    }
    assert(cl.contains(b.1));
    assert(affects(deps)(b.1, a));
    lemma_closure_step(affects(deps), named(changed), b.1, a);
    if named(changed).contains(a) {
        let i = choose|i: int| 0 <= i < changed.len() && (#[trigger] changed[i])@.0 != SymbolKind::ModuleBody && changed[i]@.1 == a;
        assert(symset(changed).contains(changed[i]@));
        assert(propagated(changed, deps).contains((changed[i]@.0, a)));
    } else {
        assert(propagated(changed, deps).contains((SymbolKind::Function, a)));
    }
}

/// What symbols a module uses from each imported module.
#[derive(Debug, Clone)]
pub enum SymbolUsage {
    /// Specific named symbols used
    Specific(Vec<String>),
    /// All symbols (from `import *`, `getattr`, module object escaping, etc.)
    All,
}

impl View for SymbolUsage {
    /// `None` for `All`; the set of symbol names for `Specific`.
    type V = Option<Set<Seq<char>>>;

    open spec fn view(&self) -> Option<Set<Seq<char>>> {
        match self {
            SymbolUsage::Specific(v) => Some(sset(v@)),
            SymbolUsage::All => None,
        }
    }
}

/// No symbol name is held twice.
pub open spec fn usage_wf(u: SymbolUsage) -> bool {
    match u {
        SymbolUsage::Specific(v) => nodup(v@),
        SymbolUsage::All => true,
    }
}

/// What recording the use of `sym` does to a usage.
pub open spec fn with_specific(u: Option<Set<Seq<char>>>, sym: Seq<char>) -> Option<Set<Seq<char>>> {
    match u {
        Some(s) => Some(s.insert(sym)),
        None => None,
    }
}

impl SymbolUsage {
    /// Records the use of one symbol; a usage of all symbols stays so.
    pub fn record_specific(&mut self, symbol: &str)
        ensures
            final(self)@ == with_specific(old(self)@, symbol@),
            usage_wf(*old(self)) ==> usage_wf(*final(self)),
    {
        match self {
            SymbolUsage::All => {},
            SymbolUsage::Specific(set) => {
                insert(set, symbol.to_owned());
            },
        }
    }

    /// Marks the usage as covering all symbols.
    pub fn upgrade_to_all(&mut self)
        ensures
            final(self)@ == None::<Set<Seq<char>>>,
            usage_wf(*final(self)),
    {
        *self = SymbolUsage::All;
    }

    /// A copy of this usage.
    pub fn copy(&self) -> (r: SymbolUsage)
        ensures
            r@ == self@,
            usage_wf(*self) ==> usage_wf(r),
    {
        match self {
            SymbolUsage::All => SymbolUsage::All,
            SymbolUsage::Specific(v) => {
                let mut c: Vec<String> = Vec::new();
                let mut i: usize = 0;
                while i < v.len()
                    invariant
                        i <= v.len(),
                        c@.len() == i,
                        forall|k: int| 0 <= k < i ==> (#[trigger] c@[k])@ == v@[k]@,
                    decreases v.len() - i,
                {
                    c.push(v[i].clone());
                    i = i + 1;
                }
                assert(sset(c@) =~= sset(v@)) by {
                    assert forall|x: Seq<char>| sset(c@).contains(x) implies sset(v@).contains(x) by {
                        let k = choose|k: int| 0 <= k < c@.len() && (#[trigger] c@[k])@ == x;
                        assert(v@[k]@ == x);
                    }
                    assert forall|x: Seq<char>| sset(v@).contains(x) implies sset(c@).contains(x) by {
                        let k = choose|k: int| 0 <= k < v@.len() && (#[trigger] v@[k])@ == x;
                        assert(c@[k]@ == x);
                    }
                }
                SymbolUsage::Specific(c)
            },
        }
    }
}

/// What a module uses of each module it imports: `None` for all of its symbols.
pub type UsageMap = Map<Seq<char>, Option<Set<Seq<char>>>>;

/// Full symbol-level import info for one file.
#[derive(Debug, Clone, Default)]
pub struct ModuleSymbolUsage {
    /// Imported module name, and which symbols are used from it; each module once.
    pub usage: Vec<(String, SymbolUsage)>,
}

/// The map that a list of usages with distinct modules stands for.
pub open spec fn usage_map(v: Seq<(String, SymbolUsage)>) -> UsageMap {
    Map::new(
        |k: Seq<char>| exists|i: int| 0 <= i < v.len() && (#[trigger] v[i]).0@ == k,
        |k: Seq<char>| v[choose|i: int| 0 <= i < v.len() && (#[trigger] v[i]).0@ == k].1@,
    )
}

/// Each module is listed once, with a usage that holds each symbol once.
pub open spec fn usage_list_wf(v: Seq<(String, SymbolUsage)>) -> bool {
    &&& forall|i: int, j: int| 0 <= i < v.len() && 0 <= j < v.len() && i != j ==> (#[trigger] v[i]).0@ != (#[trigger] v[j]).0@
    &&& forall|i: int| 0 <= i < v.len() ==> usage_wf(#[trigger] v[i].1)
}

impl View for ModuleSymbolUsage {
    type V = UsageMap;

    open spec fn view(&self) -> UsageMap {
        usage_map(self.usage@)
    }
}

/// What recording the use of `sym` of `module` does.
pub open spec fn record_specific_model(m: UsageMap, module: Seq<char>, sym: Seq<char>) -> UsageMap {
    if m.contains_key(module) {
        m.insert(module, with_specific(m[module], sym))
    } else {
        m.insert(module, Some(Set::empty().insert(sym)))
    }
}

/// What recording the use of all of `module` does.
pub open spec fn record_all_model(m: UsageMap, module: Seq<char>) -> UsageMap {
    m.insert(module, None)
}

pub proof fn lemma_usage_map_at(v: Seq<(String, SymbolUsage)>, i: int)
    requires
        usage_list_wf(v),
        0 <= i < v.len(),
    ensures
        usage_map(v).contains_key(v[i].0@),
        usage_map(v)[v[i].0@] == v[i].1@,
{
    let k = v[i].0@;
    let c = choose|c: int| 0 <= c < v.len() && (#[trigger] v[c]).0@ == k;
    assert(c == i);
}

impl ModuleSymbolUsage {
    /// No imported module is recorded.
    pub fn new() -> (r: ModuleSymbolUsage)
        ensures
            r@ == Map::<Seq<char>, Option<Set<Seq<char>>>>::empty(),
            r.wf(),
    {
        let r = ModuleSymbolUsage { usage: Vec::new() };
        assert(r@ =~= Map::<Seq<char>, Option<Set<Seq<char>>>>::empty());
        r
    }

    /// Each module is listed once, with a usage that holds each symbol once.
    pub open spec fn wf(&self) -> bool {
        usage_list_wf(self.usage@)
    }

    fn find(&self, module: &String) -> (r: Option<usize>)
        requires
            self.wf(),
        ensures
            match r {
                Some(i) => i < self.usage@.len() && self.usage@[i as int].0@ == module@,
                None => !self@.contains_key(module@),
            },
    {
        let mut i: usize = 0;
        while i < self.usage.len()
            invariant
                i <= self.usage@.len(),
                forall|k: int| 0 <= k < i ==> (#[trigger] self.usage@[k]).0@ != module@,
            decreases self.usage@.len() - i,
        {
            if self.usage[i].0 == *module {
                return Some(i);
            }
            i = i + 1;
        }
        None
    }

    /// The usage recorded for `module`, if any.
    pub fn get(&self, module: &str) -> (r: Option<&SymbolUsage>)
        requires
            self.wf(),
        ensures
            match r {
                Some(u) => self@.contains_key(module@) && u@ == self@[module@],
                None => !self@.contains_key(module@),
            },
    {
        let m = module.to_owned();
        match self.find(&m) {
            Some(i) => {
                proof { lemma_usage_map_at(self.usage@, i as int); }
                Some(&self.usage[i].1)
            },
            None => None,
        }
    }

    /// Records that `symbol` of `module` is used.
    pub fn record_specific(&mut self, module: &str, symbol: &str)
        requires
            old(self).wf(),
        ensures
            final(self).wf(),
            final(self)@ == record_specific_model(old(self)@, module@, symbol@),
    {
        let m = module.to_owned();
        match self.find(&m) {
            Some(i) => {
                proof { lemma_usage_map_at(self.usage@, i as int); }
                let mut u = self.usage[i].1.copy();
                u.record_specific(symbol);
                let ghost old_list = self.usage@;
                self.usage.set(i, (m, u));
                proof { self.lemma_after_set(old_list, i as int); }
            },
            None => {
                let mut names: Vec<String> = Vec::new();
                proof { lemma_empty(); }
                insert(&mut names, symbol.to_owned());
                let ghost old_list = self.usage@;
                self.usage.push((m, SymbolUsage::Specific(names)));
                proof {
                    assert(Set::<Seq<char>>::empty().insert(symbol@) =~= sset(names@));
                    assert(self.usage@.drop_last() =~= old_list);
                    self.lemma_after_push(old_list);
                }
            },
        }
    }

    /// Records that all of `module` is used.
    pub fn record_all(&mut self, module: &str)
        requires
            old(self).wf(),
        ensures
            final(self).wf(),
            final(self)@ == record_all_model(old(self)@, module@),
    {
        let m = module.to_owned();
        match self.find(&m) {
            Some(i) => {
                let ghost old_list = self.usage@;
                self.usage.set(i, (m, SymbolUsage::All));
                proof { self.lemma_after_set(old_list, i as int); }
            },
            None => {
                let ghost old_list = self.usage@;
                self.usage.push((m, SymbolUsage::All));
                proof {
                    assert(self.usage@.drop_last() =~= old_list);
                    self.lemma_after_push(old_list);
                }
            },
        }
    }

    proof fn lemma_after_set(&self, old_list: Seq<(String, SymbolUsage)>, i: int)
        requires
            usage_list_wf(old_list),
            0 <= i < old_list.len(),
            self.usage@ == old_list.update(i, self.usage@[i]),
            self.usage@[i].0@ == old_list[i].0@,
            usage_wf(self.usage@[i].1),
        ensures
            self.wf(),
            self@ == usage_map(old_list).insert(old_list[i].0@, self.usage@[i].1@),
    {
        let v = self.usage@;
        assert forall|a: int, b: int| 0 <= a < v.len() && 0 <= b < v.len() && a != b implies
            (#[trigger] v[a]).0@ != (#[trigger] v[b]).0@ by {
            assert(v[a].0@ == old_list[a].0@ && v[b].0@ == old_list[b].0@);
        }
        assert forall|a: int| 0 <= a < v.len() implies usage_wf(#[trigger] v[a].1) by {
            if a != i {
                assert(v[a] == old_list[a]);
            }
        }
        let m2 = usage_map(old_list).insert(old_list[i].0@, v[i].1@);
        assert forall|k: Seq<char>| #[trigger] self@.contains_key(k) <==> m2.contains_key(k) by {
            if self@.contains_key(k) {
                let c = choose|c: int| 0 <= c < v.len() && (#[trigger] v[c]).0@ == k;
                if c != i {
                    assert(old_list[c] == v[c]);
                }
            }
            if usage_map(old_list).contains_key(k) {
                let c = choose|c: int| 0 <= c < old_list.len() && (#[trigger] old_list[c]).0@ == k;
                assert(v[c].0@ == k);
            }
        }
        assert forall|k: Seq<char>| #[trigger] self@.contains_key(k) implies self@[k] == m2[k] by {
            let c = choose|c: int| 0 <= c < v.len() && (#[trigger] v[c]).0@ == k;
            lemma_usage_map_at(v, c);
            if c != i {
                assert(old_list[c] == v[c]);
                lemma_usage_map_at(old_list, c);
            }
        }
        assert(self@ =~= m2);
    }

    proof fn lemma_after_push(&self, old_list: Seq<(String, SymbolUsage)>)
        requires
            usage_list_wf(old_list),
            self.usage@.len() == old_list.len() + 1,
            self.usage@.drop_last() == old_list,
            !usage_map(old_list).contains_key(self.usage@.last().0@),
            usage_wf(self.usage@.last().1),
        ensures
            self.wf(),
            self@ == usage_map(old_list).insert(self.usage@.last().0@, self.usage@.last().1@),
    {
        let v = self.usage@;
        let n = old_list.len() as int;
        assert forall|c: int| 0 <= c < n implies #[trigger] v[c] == old_list[c] by {
            assert(v.drop_last()[c] == v[c]);
        }
        assert forall|a: int, b: int| 0 <= a < v.len() && 0 <= b < v.len() && a != b implies
            (#[trigger] v[a]).0@ != (#[trigger] v[b]).0@ by {
            if a == n {
                assert(old_list[b].0@ == v[b].0@);
            } else if b == n {
                assert(old_list[a].0@ == v[a].0@);
            } else {
                assert(old_list[a] == v[a] && old_list[b] == v[b]);
            }
        }
        assert forall|a: int| 0 <= a < v.len() implies usage_wf(#[trigger] v[a].1) by {
            if a < n {
                assert(v[a] == old_list[a]);
            }
        }
        let m2 = usage_map(old_list).insert(v[n].0@, v[n].1@);
        assert forall|k: Seq<char>| #[trigger] self@.contains_key(k) <==> m2.contains_key(k) by {
            if self@.contains_key(k) {
                let c = choose|c: int| 0 <= c < v.len() && (#[trigger] v[c]).0@ == k;
                if c < n {
                    assert(old_list[c] == v[c]);
                }
            }
            if usage_map(old_list).contains_key(k) {
                let c = choose|c: int| 0 <= c < old_list.len() && (#[trigger] old_list[c]).0@ == k;
                assert(v[c].0@ == k);
            }
        }
        assert forall|k: Seq<char>| #[trigger] self@.contains_key(k) implies self@[k] == m2[k] by {
            let c = choose|c: int| 0 <= c < v.len() && (#[trigger] v[c]).0@ == k;
            lemma_usage_map_at(v, c);
            if c < n {
                assert(old_list[c] == v[c]);
                lemma_usage_map_at(old_list, c);
            }
        }
        assert(self@ =~= m2);
    }
}

} // verus!
