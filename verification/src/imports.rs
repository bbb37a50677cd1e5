//! Import statements: their structured form, and the modules they may name.
use vstd::prelude::*;
use crate::text::{chars_of, string_from_range, push_char};
use crate::strs::{sset, nodup, insert, extend, lemma_empty, union_upto, lemma_union_upto_step};
use crate::pyast::{Alias, Stmt};

verus! {

/// A single imported name from an import statement.
#[derive(Debug, Clone)]
pub struct ImportedName {
    /// The symbol name in the source module
    pub name: String,
    /// The local binding (may differ if `as` is used)
    pub local: String,
}

/// Parsed representation of a single import statement.
#[derive(Debug, Clone)]
pub struct ParsedImport {
    /// Resolved absolute module path
    pub module: String,
    /// Specific names imported; for `import X` none, for `import X as Y` the
    /// one name `X` bound locally to `Y`
    pub names: Vec<ImportedName>,
    /// True for `from X import *`
    pub is_star: bool,
    /// True for `import X` (module-level import, not `from X import ...`)
    pub is_module_import: bool,
}

/// The value of a parsed import: module, (name, local) pairs, star flag, module-import flag.
pub type ImportModel = (Seq<char>, Seq<(Seq<char>, Seq<char>)>, bool, bool);

impl View for ImportedName {
    type V = (Seq<char>, Seq<char>);

    open spec fn view(&self) -> (Seq<char>, Seq<char>) {
        (self.name@, self.local@)
    }
}

impl View for ParsedImport {
    type V = ImportModel;

    open spec fn view(&self) -> ImportModel {
        (self.module@, self.names@.map_values(|n: ImportedName| n@), self.is_star, self.is_module_import)
    }
}

/// How many dots `s` holds.
pub open spec fn count_dots(s: Seq<char>) -> nat
    decreases s.len(),
{
    if s.len() == 0 {
        0
    } else {
        count_dots(s.drop_last()) + if s.last() == '.' { 1nat } else { 0nat }
    }
}

/// The index of the last dot of `s`, or -1.
pub open spec fn last_dot(s: Seq<char>) -> int
    decreases s.len(),
{
    if s.len() == 0 {
        -1
    } else if s.last() == '.' {
        s.len() - 1
    } else {
        last_dot(s.drop_last())
    }
}

/// `s` without its last `n` dotted components (`n` less than their number).
pub open spec fn strip_components(s: Seq<char>, n: nat) -> Seq<char>
    decreases n,
{
    if n == 0 {
        s
    } else {
        strip_components(s.take(last_dot(s)), (n - 1) as nat)
    }
}

/// The last dotted component of `s`.
pub open spec fn last_component(s: Seq<char>) -> Seq<char> {
    s.skip(last_dot(s) + 1)
}

pub open spec fn init_text() -> Seq<char> {
    seq!['_', '_', 'i', 'n', 'i', 't', '_', '_']
}

/// The absolute module that a relative import with `level` dots and an
/// optional module name resolves to, from within `module_class`: each dot
/// drops one trailing component (the first one dropping `__init__` for a package).
pub open spec fn resolve_relative_spec(module_class: Seq<char>, level: nat, module: Option<Seq<char>>) -> Option<Seq<char>> {
    let ncomp = count_dots(module_class) + 1;
    if module_class.len() == 0 || level > ncomp {
        None
    } else if level == ncomp {
        module
    } else {
        let prefix = strip_components(module_class, level);
        match module {
            Some(m) => Some(prefix + seq!['.'] + m),
            None => Some(prefix),
        }
    }
}

proof fn lemma_last_dot(s: Seq<char>)
    ensures
        -1 <= last_dot(s) < s.len(),
        last_dot(s) >= 0 ==> s[last_dot(s)] == '.',
        forall|k: int| last_dot(s) < k < s.len() ==> s[k] != '.',
        last_dot(s) >= 0 ==> count_dots(s.take(last_dot(s))) + 1 == count_dots(s),
        last_dot(s) < 0 ==> count_dots(s) == 0,
    decreases s.len(),
{
    if s.len() > 0 {
        lemma_last_dot(s.drop_last());
        if s.last() == '.' {
            assert(s.take(s.len() - 1) =~= s.drop_last());
        } else {
            let d = last_dot(s.drop_last());
            assert forall|k: int| last_dot(s) < k < s.len() implies s[k] != '.' by {
                if k < s.len() - 1 {
                    assert(s.drop_last()[k] == s[k]);
                }
            }
            if d >= 0 {
                assert(s.take(d) =~= s.drop_last().take(d));
            }
        }
    }
}

pub proof fn lemma_count_dots_bound(s: Seq<char>)
    ensures
        count_dots(s) <= s.len(),
    decreases s.len(),
{
    if s.len() > 0 {
        lemma_count_dots_bound(s.drop_last());
    }
}

pub(crate) fn count_dots_exec(cs: &Vec<char>) -> (n: usize)
    ensures
        n == count_dots(cs@),
{
    let mut n: usize = 0;
    let mut i: usize = 0;
    while i < cs.len()
        invariant
            i <= cs.len(),
            n == count_dots(cs@.take(i as int)),
            n <= i,
        decreases cs.len() - i,
    {
        assert(cs@.take(i + 1).drop_last() =~= cs@.take(i as int));
        if cs[i] == '.' {
            n = n + 1;
        }
        i = i + 1;
    }
    assert(cs@.take(cs@.len() as int) =~= cs@);
    n
}

/// The index of the last dot of `cs[..end]`, or `None`.
fn last_dot_exec(cs: &Vec<char>, end: usize) -> (r: Option<usize>)
    requires
        end <= cs.len(),
    ensures
        match r {
            Some(d) => d as int == last_dot(cs@.take(end as int)),
            None => last_dot(cs@.take(end as int)) == -1,
        },
{
    let mut i = end;
    while i > 0
        invariant
            i <= end <= cs.len(),
            last_dot(cs@.take(end as int)) == last_dot(cs@.take(i as int)),
        decreases i,
    {
        assert(cs@.take(i as int).drop_last() =~= cs@.take(i - 1));
        if cs[i - 1] == '.' {
            return Some(i - 1);
        }
        i = i - 1;
    }
    None
}

/// A string made of `a`, a dot, and `b`.
pub fn dotted(a: &Vec<char>, b: &str) -> (r: String)
    ensures
        r@ == a@ + seq!['.'] + b@,
{
    let mut r = string_from_range(a, 0, a.len());
    push_char(&mut r, '.');
    r.append(b);
    assert(a@.subrange(0, a@.len() as int) =~= a@);
    r
}

/// Resolve a relative import base path.
///
/// Given `module_class` (the current file's dotted path), `level` (number of dots),
/// and an optional `module` name after the dots, compute the absolute base module path.
pub fn resolve_relative(module_class: &str, level: u32, module: Option<&str>) -> (r: Option<String>)
    requires
        // a relative import of level 0 from a package's `__init__` is rejected by an underflow
        level >= 1 || last_component(module_class@) != init_text(),
    ensures
        match r {
            Some(s) => resolve_relative_spec(module_class@, level as nat, match module { Some(m) => Some(m@), None => None }) == Some(s@),
            None => resolve_relative_spec(module_class@, level as nat, match module { Some(m) => Some(m@), None => None }) is None,
        },
{
    let cs = chars_of(module_class);
    if cs.len() == 0 {
        return None;
    }
    let ndots = count_dots_exec(&cs);
    proof { lemma_count_dots_bound(cs@); }
    let lv = level as usize;
    if lv > ndots {
        if lv - 1 > ndots {
            return None;
        }
        return match module {
            Some(m) => Some(m.to_owned()),
            None => None,
        };
    }
    let mut end = cs.len();
    let mut k: usize = 0;
    assert(cs@.take(end as int) =~= cs@);
    while k < lv
        invariant
            k <= lv <= ndots,
            ndots == count_dots(cs@),
            end <= cs.len(),
            count_dots(cs@.take(end as int)) + k == ndots,
            strip_components(cs@, k as nat) == cs@.take(end as int),
        decreases lv - k,
    {
        let ghost t = cs@.take(end as int);
        proof { lemma_last_dot(t); }
        match last_dot_exec(&cs, end) {
            Some(d) => {
                proof {
                    lemma_strip_step(cs@, k as nat);
                    assert(t.take(d as int) =~= cs@.take(d as int));
                }
                end = d;
            },
            None => {
                assert(false);
            },
        }
        k = k + 1;
    }
    let prefix = string_from_range(&cs, 0, end);
    assert(cs@.subrange(0, end as int) =~= cs@.take(end as int));
    match module {
        Some(m) => {
            let pcs = chars_of(prefix.as_str());
            Some(dotted(&pcs, m))
        },
        None => Some(prefix),
    }
}

proof fn lemma_strip_step(s: Seq<char>, k: nat)
    ensures
        strip_components(s, k + 1) == strip_components(strip_components(s, k).take(last_dot(strip_components(s, k))), 0),
    decreases k,
{
    if k > 0 {
        lemma_strip_step(s.take(last_dot(s)), (k - 1) as nat);
    }
}

pub open spec fn opt_view(o: Option<String>) -> Option<Seq<char>> {
    match o {
        Some(s) => Some(s@),
        None => None,
    }
}

pub open spec fn star_text() -> Seq<char> {
    seq!['*']
}

/// The local binding of an imported name.
pub open spec fn local_of(a: Alias) -> Seq<char> {
    match a.asname {
        Some(n) => n@,
        None => a.name@,
    }
}

/// The module that a `from` import names, resolved against `module_class`.
pub open spec fn from_base(module_class: Seq<char>, module: Option<String>, level: u32) -> Option<Seq<char>> {
    if level > 0 {
        resolve_relative_spec(module_class, level as nat, opt_view(module))
    } else {
        opt_view(module)
    }
}

/// The names of a plain import: none for `import m`, the one pair `(m, n)` for `import m as n`.
pub open spec fn plain_names(a: Alias) -> Seq<(Seq<char>, Seq<char>)> {
    match a.asname {
        Some(n) => seq![(a.name@, n@)],
        None => Seq::empty(),
    }
}

/// The structured import of one name of a plain `import` statement.
pub open spec fn plain_model(a: Alias) -> ImportModel {
    (a.name@, plain_names(a), false, true)
}

/// The structured imports of one statement.
pub open spec fn stmt_imports(module_class: Seq<char>, s: Stmt) -> Seq<ImportModel> {
    match s {
        Stmt::Import(aliases) => aliases@.map_values(|a: Alias| plain_model(a)),
        Stmt::ImportFrom { module, names, level } => match from_base(module_class, module, level) {
            None => Seq::empty(),
            Some(b) => if exists|i: int| 0 <= i < names@.len() && (#[trigger] names@[i]).name@ == star_text() {
                seq![(b, Seq::<(Seq<char>, Seq<char>)>::empty(), true, false)]
            } else {
                seq![(b, names@.map_values(|a: Alias| (a.name@, local_of(a))), false, false)]
            },
        },
        _ => Seq::empty(),
    }
}

/// The structured imports of a sequence of top-level statements, in order.
pub open spec fn imports_of(module_class: Seq<char>, stmts: Seq<Stmt>) -> Seq<ImportModel>
    decreases stmts.len(),
{
    if stmts.len() == 0 {
        Seq::empty()
    } else {
        imports_of(module_class, stmts.drop_last()) + stmt_imports(module_class, stmts.last())
    }
}

pub open spec fn imports_view(v: Seq<ParsedImport>) -> Seq<ImportModel> {
    v.map_values(|p: ParsedImport| p@)
}

fn is_star_name(s: &String) -> (r: bool)
    ensures
        r == (s@ == star_text()),
{
    let cs = chars_of(s.as_str());
    let r = cs.len() == 1 && cs[0] == '*';
    assert(r ==> cs@ =~= star_text());
    r
}

fn opt_str(o: &Option<String>) -> (r: Option<&str>)
    ensures
        match r {
            Some(x) => o is Some && x@ == o->0@,
            None => o is None,
        },
{
    match o {
        Some(s) => Some(s.as_str()),
        None => None,
    }
}

/// The module that a `from` import names.
fn from_base_exec(module_class: &str, module: &Option<String>, level: u32) -> (r: Option<String>)
    ensures
        opt_view(r) == from_base(module_class@, *module, level),
{
    if level > 0 {
        let r = resolve_relative(module_class, level, opt_str(module));
        r
    } else {
        match module {
            Some(m) => Some(m.clone()),
            None => None,
        }
    }
}

fn imported_names(names: &Vec<Alias>) -> (r: Vec<ImportedName>)
    ensures
        r@.map_values(|n: ImportedName| n@) == names@.map_values(|a: Alias| (a.name@, local_of(a))),
{
    let mut r: Vec<ImportedName> = Vec::new();
    let mut i: usize = 0;
    while i < names.len()
        invariant
            i <= names.len(),
            r@.len() == i,
            forall|k: int| 0 <= k < i ==> (#[trigger] r@[k])@ == (names@[k].name@, local_of(names@[k])),
        decreases names.len() - i,
    {
        let name = names[i].name.clone();
        let local = match &names[i].asname {
            Some(a) => a.clone(),
            None => name.clone(),
        };
        r.push(ImportedName { name, local });
        i = i + 1;
    }
    assert(r@.map_values(|n: ImportedName| n@) =~= names@.map_values(|a: Alias| (a.name@, local_of(a))));
    r
}

/// Parse import statements from Python source code into structured form.
///
/// `module_class` is the dotted module path of the file being parsed
/// (e.g. `"myapp.utils"` for `myapp/utils.py`); `stmts` are its top-level statements.
pub fn parse_import_statements(module_class: &str, stmts: &Vec<Stmt>) -> (result: Vec<ParsedImport>)
    ensures
        imports_view(result@) == imports_of(module_class@, stmts@),
{
    let mut result: Vec<ParsedImport> = Vec::new();
    let mut i: usize = 0;
    while i < stmts.len()
        invariant
            i <= stmts.len(),
            imports_view(result@) == imports_of(module_class@, stmts@.take(i as int)),
        decreases stmts.len() - i,
    {
        let ghost before = result@;
        assert(stmts@.take(i + 1).drop_last() =~= stmts@.take(i as int));
        match &stmts[i] {
            Stmt::Import(aliases) => {
                let mut j: usize = 0;
                while j < aliases.len()
                    invariant
                        j <= aliases.len(),
                        result@.len() == before.len() + j,
                        forall|k: int| 0 <= k < before.len() ==> #[trigger] result@[k] == before[k],
                        forall|k: int| 0 <= k < j ==> (#[trigger] result@[before.len() + k])@ == plain_model(aliases@[k]),
                    decreases aliases.len() - j,
                {
                    let mut names: Vec<ImportedName> = Vec::new();
                    match &aliases[j].asname {
                        Some(n) => {
                            names.push(ImportedName { name: aliases[j].name.clone(), local: n.clone() });
                        },
                        None => {},
                    }
                    assert(names@.map_values(|n: ImportedName| n@) =~= plain_names(aliases@[j as int]));
                    result.push(ParsedImport {
                        module: aliases[j].name.clone(),
                        names: names,
                        is_star: false,
                        is_module_import: true,
                    });
                    assert(result@[result@.len() - 1]@ == plain_model(aliases@[j as int]));
                    j = j + 1;
                }
                let ghost f = |a: Alias| plain_model(a);
                assert(stmt_imports(module_class@, stmts@[i as int]) == aliases@.map_values(f));
                assert forall|k: int| 0 <= k < result@.len() implies #[trigger] imports_view(result@)[k]
                    == (imports_view(before) + aliases@.map_values(f))[k] by {
                    if k >= before.len() {
                        let kk = k - before.len();
                        assert(result@[before.len() + kk]@ == f(aliases@[kk]));
                    }
                }
                assert(imports_view(result@) =~= imports_view(before) + aliases@.map_values(f));
            },
            Stmt::ImportFrom { module, names, level } => {
                match from_base_exec(module_class, module, *level) {
                    Some(base) => {
                        let mut star = false;
                        let mut j: usize = 0;
                        while j < names.len()
                            invariant
                                j <= names.len(),
                                star == exists|k: int| 0 <= k < j && (#[trigger] names@[k]).name@ == star_text(),
                            decreases names.len() - j,
                        {
                            if is_star_name(&names[j].name) {
                                star = true;
                            }
                            j = j + 1;
                        }
                        if star {
                            let empty: Vec<ImportedName> = Vec::new();
                            assert(empty@.map_values(|n: ImportedName| n@) =~= Seq::<(Seq<char>, Seq<char>)>::empty());
                            result.push(ParsedImport { module: base, names: empty, is_star: true, is_module_import: false });
                        } else {
                            let ns = imported_names(names);
                            result.push(ParsedImport { module: base, names: ns, is_star: false, is_module_import: false });
                        }
                        assert(imports_view(result@) =~= imports_view(before) + stmt_imports(module_class@, stmts@[i as int]));
                    },
                    None => {
                        assert(imports_view(result@) =~= imports_view(before) + stmt_imports(module_class@, stmts@[i as int]));
                    },
                }
            },
            _ => {
                assert(imports_view(result@) =~= imports_view(before) + stmt_imports(module_class@, stmts@[i as int]));
            },
        }
        assert(imports_view(result@) =~= imports_of(module_class@, stmts@.take(i + 1)));
        i = i + 1;
    }
    assert(stmts@.take(stmts@.len() as int) =~= stmts@);
    result
}

pub open spec fn init_suffix() -> Seq<char> {
    seq!['.', '_', '_', 'i', 'n', 'i', 't', '_', '_']
}

/// The modules that `import n` may name: `n`, its package `__init__`, and its parent package.
pub open spec fn alias_import_targets(n: Seq<char>) -> Set<Seq<char>> {
    let s = Set::empty().insert(n).insert(n + init_suffix());
    if last_dot(n) >= 0 {
        s.insert(n.take(last_dot(n)))
    } else {
        s
    }
}

/// The modules that `from b import n` may name besides `b`.
pub open spec fn alias_from_targets(b: Seq<char>, n: Seq<char>) -> Set<Seq<char>> {
    Set::empty().insert(b + seq!['.'] + n).insert(b + seq!['.'] + n + init_suffix())
}

/// The modules that one top-level statement may import.
pub open spec fn stmt_targets(module_class: Seq<char>, s: Stmt) -> Set<Seq<char>> {
    match s {
        Stmt::Import(aliases) => union_upto(|i: int| alias_import_targets(aliases@[i].name@), aliases@.len() as int),
        Stmt::ImportFrom { module, names, level } => match from_base(module_class, module, level) {
            None => Set::empty(),
            Some(b) => Set::empty().insert(b).union(
                union_upto(|i: int| alias_from_targets(b, names@[i].name@), names@.len() as int)),
        },
        _ => Set::empty(),
    }
}

/// The modules that the top-level statements `stmts` may import.
pub open spec fn import_targets(module_class: Seq<char>, stmts: Seq<Stmt>) -> Set<Seq<char>> {
    union_upto(|i: int| stmt_targets(module_class, stmts[i]), stmts.len() as int)
}

fn init_suffixed(n: &String) -> (r: String)
    ensures
        r@ == n@ + init_suffix(),
{
    let mut r = n.clone();
    let suffix = vec!['.', '_', '_', 'i', 'n', 'i', 't', '_', '_'];
    let mut i: usize = 0;
    while i < suffix.len()
        invariant
            i <= suffix.len(),
            suffix@ == init_suffix(),
            r@ == n@ + suffix@.take(i as int),
        decreases suffix.len() - i,
    {
        push_char(&mut r, suffix[i]);
        i = i + 1;
        assert(r@ =~= n@ + suffix@.take(i as int));
    }
    assert(suffix@.take(suffix@.len() as int) =~= suffix@);
    r
}

fn alias_import_items(n: &String) -> (r: Vec<String>)
    ensures
        sset(r@) == alias_import_targets(n@),
{
    let mut r: Vec<String> = Vec::new();
    proof { lemma_empty(); }
    insert(&mut r, n.clone());
    insert(&mut r, init_suffixed(n));
    let cs = chars_of(n.as_str());
    assert(cs@.take(cs@.len() as int) =~= cs@);
    proof { lemma_last_dot(cs@); }
    match last_dot_exec(&cs, cs.len()) {
        Some(d) => {
            let p = string_from_range(&cs, 0, d);
            assert(cs@.subrange(0, d as int) =~= cs@.take(d as int));
            insert(&mut r, p);
        },
        None => {
            assert(cs@.take(cs@.len() as int) =~= cs@);
        },
    }
    assert(sset(r@) =~= alias_import_targets(n@));
    r
}

fn alias_from_items(b: &String, n: &String) -> (r: Vec<String>)
    ensures
        sset(r@) == alias_from_targets(b@, n@),
{
    let mut r: Vec<String> = Vec::new();
    proof { lemma_empty(); }
    let bcs = chars_of(b.as_str());
    let q = dotted(&bcs, n.as_str());
    insert(&mut r, init_suffixed(&q));
    insert(&mut r, q);
    assert(sset(r@) =~= alias_from_targets(b@, n@));
    r
}

/// Extract all possible import targets from the top-level statements of a module.
///
/// `module_class` is the dotted module path of the file being parsed
/// (e.g. `"myapp.utils"` for `myapp/utils.py`, `"myapp.__init__"` for `myapp/__init__.py`).
/// It is used to resolve relative imports.
pub fn extract_imports(module_class: &str, stmts: &Vec<Stmt>) -> (result: Vec<String>)
    ensures
        sset(result@) == import_targets(module_class@, stmts@),
        nodup(result@),
{
    let mut result: Vec<String> = Vec::new();
    proof { lemma_empty(); }
    let ghost ft = |i: int| stmt_targets(module_class@, stmts@[i]);
    let mut i: usize = 0;
    while i < stmts.len()
        invariant
            i <= stmts.len(),
            nodup(result@),
            sset(result@) == union_upto(ft, i as int),
            ft == (|i: int| stmt_targets(module_class@, stmts@[i])),
        decreases stmts.len() - i,
    {
        proof { lemma_union_upto_step(ft, i as int); }
        match &stmts[i] {
            Stmt::Import(aliases) => {
                let ghost fa = |k: int| alias_import_targets(aliases@[k].name@);
                let ghost base = sset(result@);
                let mut j: usize = 0;
                while j < aliases.len()
                    invariant
                        j <= aliases.len(),
                        nodup(result@),
                        sset(result@) == base.union(union_upto(fa, j as int)),
                        fa == (|k: int| alias_import_targets(aliases@[k].name@)),
                    decreases aliases.len() - j,
                {
                    proof { lemma_union_upto_step(fa, j as int); }
                    let items = alias_import_items(&aliases[j].name);
                    extend(&mut result, &items);
                    assert(sset(result@) =~= base.union(union_upto(fa, j + 1)));
                    j = j + 1;
                }
                proof { lemma_union_upto_step(fa, 0); }
                assert(stmt_targets(module_class@, stmts@[i as int]) == union_upto(fa, aliases@.len() as int));
            },
            Stmt::ImportFrom { module, names, level } => {
                match from_base_exec(module_class, module, *level) {
                    Some(b) => {
                        let ghost fb = |k: int| alias_from_targets(b@, names@[k].name@);
                        insert(&mut result, b.clone());
                        let ghost base = sset(result@);
                        let mut j: usize = 0;
                        while j < names.len()
                            invariant
                                j <= names.len(),
                                nodup(result@),
                                sset(result@) == base.union(union_upto(fb, j as int)),
                                fb == (|k: int| alias_from_targets(b@, names@[k].name@)),
                            decreases names.len() - j,
                        {
                            proof { lemma_union_upto_step(fb, j as int); }
                            let items = alias_from_items(&b, &names[j].name);
                            extend(&mut result, &items);
                            assert(sset(result@) =~= base.union(union_upto(fb, j + 1)));
                            j = j + 1;
                        }
                        proof { lemma_union_upto_step(fb, 0); }
                        assert(stmt_targets(module_class@, stmts@[i as int])
                            == Set::empty().insert(b@).union(union_upto(fb, names@.len() as int)));
                    },
                    None => {},
                }
            },
            _ => {},
        }
        assert(sset(result@) =~= union_upto(ft, i + 1));
        i = i + 1;
    }
    result
}

} // verus!
