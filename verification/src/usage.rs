//! Which symbols a module uses of each module it imports, read off its syntax tree.
use vstd::prelude::*;
use crate::pyast::{Expr, DictItem, Comprehension, Stmt, Param, ElifElse, WithItem, Handler, Alias, expr_child, comp_part,
    stmt_expr_child, stmt_child};
use crate::symbols::{ModuleSymbolUsage, UsageMap, record_specific_model, record_all_model};
use crate::imports::{dotted, ParsedImport, ImportModel, imports_view, imports_of, parse_import_statements, count_dots,
    count_dots_exec, lemma_count_dots_bound, import_targets, stmt_targets, stmt_imports, alias_import_targets,
    alias_from_targets, from_base, local_of, star_text, plain_model};
use crate::strs::union_upto;
use crate::paths::join;
use crate::text::{chars_of, string_from_range, string_from_chars, has_at, chars_eq, find_char, find_in, lemma_find_in};

verus! {

/// Recorded uses: `(m, Some(s))` for symbol `s` of module `m`, `(m, None)` for all of `m`.
pub type Uses = Set<(Seq<char>, Option<Seq<char>>)>;

pub open spec fn one_use(m: Seq<char>, s: Seq<char>) -> Uses {
    Set::empty().insert((m, Some(s)))
}

pub open spec fn all_use(m: Seq<char>) -> Uses {
    Set::empty().insert((m, None::<Seq<char>>))
}

/// The usage map that the recorded uses `u` give: a module used whole maps to
/// `None`, one used by symbols to the set of those symbols.
pub open spec fn usage_of(u: Uses) -> UsageMap {
    Map::new(
        |m: Seq<char>| exists|o: Option<Seq<char>>| u.contains((m, o)),
        |m: Seq<char>| if u.contains((m, None)) {
            None
        } else {
            Some(Set::new(|s: Seq<char>| u.contains((m, Some(s)))))
        },
    )
}

/// Recording one symbol's use adds it to the recorded uses.
pub proof fn lemma_record_specific(u: Uses, m: Seq<char>, s: Seq<char>)
    ensures
        record_specific_model(usage_of(u), m, s) == usage_of(u.union(one_use(m, s))),
{
    let a = record_specific_model(usage_of(u), m, s);
    let b = usage_of(u.union(one_use(m, s)));
    assert(u.union(one_use(m, s)).contains((m, Some(s))));
    assert(a.dom() =~= b.dom()) by {
        assert forall|k: Seq<char>| a.dom().contains(k) implies b.dom().contains(k) by {
            if k != m {
                let o = choose|o: Option<Seq<char>>| u.contains((k, o));
                assert(u.union(one_use(m, s)).contains((k, o)));
            }
        }
        assert forall|k: Seq<char>| b.dom().contains(k) implies a.dom().contains(k) by {
            if k != m {
                let o = choose|o: Option<Seq<char>>| u.union(one_use(m, s)).contains((k, o));
                assert(u.contains((k, o)));
            }
        }
    }
    assert forall|k: Seq<char>| a.dom().contains(k) implies a[k] == b[k] by {
        if k == m {
            if usage_of(u).contains_key(m) {
                if !u.contains((m, None)) {
                    assert(Set::new(|t: Seq<char>| u.contains((m, Some(t)))).insert(s)
                        =~= Set::new(|t: Seq<char>| u.union(one_use(m, s)).contains((m, Some(t)))));
                }
            } else {
                assert(!u.contains((m, None)));
                assert(Set::<Seq<char>>::empty().insert(s)
                    =~= Set::new(|t: Seq<char>| u.union(one_use(m, s)).contains((m, Some(t))))) by {
                    assert forall|t: Seq<char>| u.union(one_use(m, s)).contains((m, Some(t))) implies t == s by {
                        if u.contains((m, Some(t))) {
                            assert(usage_of(u).contains_key(m));
                        }
                    }
                }
            }
        } else {
            assert(Set::new(|t: Seq<char>| u.contains((k, Some(t))))
                =~= Set::new(|t: Seq<char>| u.union(one_use(m, s)).contains((k, Some(t)))));
        }
    }
    assert(a =~= b);
}

/// Recording the use of all of a module adds it to the recorded uses.
pub proof fn lemma_record_all(u: Uses, m: Seq<char>)
    ensures
        record_all_model(usage_of(u), m) == usage_of(u.union(all_use(m))),
{
    let a = record_all_model(usage_of(u), m);
    let b = usage_of(u.union(all_use(m)));
    assert(u.union(all_use(m)).contains((m, None)));
    assert(a.dom() =~= b.dom()) by {
        assert forall|k: Seq<char>| a.dom().contains(k) implies b.dom().contains(k) by {
            if k != m {
                let o = choose|o: Option<Seq<char>>| u.contains((k, o));
                assert(u.union(all_use(m)).contains((k, o)));
            }
        }
        assert forall|k: Seq<char>| b.dom().contains(k) implies a.dom().contains(k) by {
            if k != m {
                let o = choose|o: Option<Seq<char>>| u.union(all_use(m)).contains((k, o));
                assert(u.contains((k, o)));
            }
        }
    }
    assert forall|k: Seq<char>| a.dom().contains(k) implies a[k] == b[k] by {
        if k != m {
            assert(Set::new(|t: Seq<char>| u.contains((k, Some(t))))
                =~= Set::new(|t: Seq<char>| u.union(all_use(m)).contains((k, Some(t)))));
        }
    }
    assert(a =~= b);
}

// ---------------------------------------------------------------------------
// The names that imports bind
// ---------------------------------------------------------------------------

/// The from-import binding of local name `l`: the module and the imported name;
/// the last binding wins.
pub open spec fn from_lookup(fi: Seq<(Seq<char>, Seq<char>, Seq<char>)>, l: Seq<char>) -> Option<(Seq<char>, Seq<char>)>
    decreases fi.len(),
{
    if fi.len() == 0 {
        None
    } else if fi.last().0 == l {
        Some((fi.last().1, fi.last().2))
    } else {
        from_lookup(fi.drop_last(), l)
    }
}

/// The module that a plain `import` binds to local name `l`; the last binding wins.
pub open spec fn mod_lookup(mi: Seq<(Seq<char>, Seq<char>, bool)>, l: Seq<char>) -> Option<Seq<char>>
    decreases mi.len(),
{
    if mi.len() == 0 {
        None
    } else if mi.last().0 == l {
        Some(mi.last().1)
    } else {
        mod_lookup(mi.drop_last(), l)
    }
}

/// Whether the plain-import binding of local name `l` is an alias (`import m as l`),
/// which stands for the whole module; the last binding wins.
pub open spec fn mod_aliased(mi: Seq<(Seq<char>, Seq<char>, bool)>, l: Seq<char>) -> bool
    decreases mi.len(),
{
    if mi.len() == 0 {
        false
    } else if mi.last().0 == l {
        mi.last().2
    } else {
        mod_aliased(mi.drop_last(), l)
    }
}

pub open spec fn from_view(v: Seq<(String, String, String)>) -> Seq<(Seq<char>, Seq<char>, Seq<char>)> {
    v.map_values(|t: (String, String, String)| (t.0@, t.1@, t.2@))
}

pub open spec fn mod_view(v: Seq<(String, String, bool)>) -> Seq<(Seq<char>, Seq<char>, bool)> {
    v.map_values(|t: (String, String, bool)| (t.0@, t.1@, t.2))
}

fn from_get(fi: &Vec<(String, String, String)>, l: &String) -> (r: Option<(String, String)>)
    ensures
        match r {
            Some(p) => from_lookup(from_view(fi@), l@) == Some((p.0@, p.1@)),
            None => from_lookup(from_view(fi@), l@) is None,
        },
{
    let mut i = fi.len();
    assert(from_view(fi@).take(i as int) =~= from_view(fi@));
    while i > 0
        invariant
            i <= fi@.len(),
            from_lookup(from_view(fi@), l@) == from_lookup(from_view(fi@).take(i as int), l@),
        decreases i,
    {
        assert(from_view(fi@).take(i as int).drop_last() =~= from_view(fi@).take(i - 1));
        assert(from_view(fi@).take(i as int).last() == from_view(fi@)[i - 1]);
        if fi[i - 1].0 == *l {
            return Some((fi[i - 1].1.clone(), fi[i - 1].2.clone()));
        }
        i = i - 1;
    }
    None
}

fn mod_get(mi: &Vec<(String, String, bool)>, l: &String) -> (r: Option<(String, bool)>)
    ensures
        match r {
            Some(m) => mod_lookup(mod_view(mi@), l@) == Some(m.0@) && mod_aliased(mod_view(mi@), l@) == m.1,
            None => mod_lookup(mod_view(mi@), l@) is None,
        },
{
    let mut i = mi.len();
    assert(mod_view(mi@).take(i as int) =~= mod_view(mi@));
    while i > 0
        invariant
            i <= mi@.len(),
            mod_lookup(mod_view(mi@), l@) == mod_lookup(mod_view(mi@).take(i as int), l@),
            mod_aliased(mod_view(mi@), l@) == mod_aliased(mod_view(mi@).take(i as int), l@),
        decreases i,
    {
        assert(mod_view(mi@).take(i as int).drop_last() =~= mod_view(mi@).take(i - 1));
        assert(mod_view(mi@).take(i as int).last() == mod_view(mi@)[i - 1]);
        if mi[i - 1].0 == *l {
            return Some((mi[i - 1].1.clone(), mi[i - 1].2));
        }
        i = i - 1;
    }
    None
}

// ---------------------------------------------------------------------------
// Attribute chains
// ---------------------------------------------------------------------------

/// The dotted chain `root.a.b` that an attribute expression spells, root first.
pub open spec fn chain_of(e: Expr) -> Option<Seq<Seq<char>>>
    decreases e,
{
    match e {
        Expr::Attribute(v, a) => match chain_of(*v) {
            Some(c) => Some(c.push(a@)),
            None => None,
        },
        Expr::Name(n) => Some(seq![n@]),
        _ => None,
    }
}

/// `p` is a prefix of `s`.
pub open spec fn text_prefix(p: Seq<char>, s: Seq<char>) -> bool {
    p.len() <= s.len() && s.take(p.len() as int) == p
}

/// The module and symbol that the attribute chain `e` reaches through a plain
/// `import`: for `import a.b`, `a.b.f` reaches `f` of `a.b`. When the chain and the
/// module agree only as text prefixes, the part after the module's components is the symbol.
/// For `import a.b as c`, the alias stands for the whole module: `c.f` reaches `f` of `a.b`.
pub open spec fn resolve_chain(e: Expr, mi: Seq<(Seq<char>, Seq<char>, bool)>) -> Option<(Seq<char>, Seq<char>)> {
    match chain_of(e) {
        None => None,
        Some(parts) => if parts.len() < 2 {
            None
        } else {
            match mod_lookup(mi, parts[0]) {
                None => None,
                Some(module) => if mod_aliased(mi, parts[0]) {
                    Some((module, parts[1]))
                } else {
                    let prefix = join(parts.drop_last(), '.');
                    if prefix == module {
                        Some((module, parts.last()))
                    } else if text_prefix(prefix, module) || text_prefix(module, prefix) {
                        let n = count_dots(module) + 1;
                        if parts.len() > n {
                            Some((module, parts[n as int]))
                        } else {
                            None
                        }
                    } else {
                        None
                    }
                },
            }
        },
    }
}

/// The text of `parts[..n]` joined by dots.
fn join_dots(parts: &Vec<String>, n: usize) -> (r: Vec<char>)
    requires
        n <= parts@.len(),
    ensures
        r@ == join(parts@.map_values(|x: String| x@).take(n as int), '.'),
{
    let ghost all = parts@.map_values(|x: String| x@);
    let mut r: Vec<char> = Vec::new();
    let mut i: usize = 0;
    assert(all.take(0) =~= Seq::<Seq<char>>::empty());
    while i < n
        invariant
            i <= n <= parts@.len(),
            all == parts@.map_values(|x: String| x@),
            r@ == join(all.take(i as int), '.'),
        decreases n - i,
    {
        let ghost ps = all.take(i + 1);
        assert(ps.drop_last() =~= all.take(i as int));
        assert(ps.last() == parts@[i as int]@);
        if i > 0 {
            r.push('.');
        }
        let ghost r0 = r@;
        let c = chars_of(parts[i].as_str());
        let mut j: usize = 0;
        while j < c.len()
            invariant
                j <= c@.len(),
                r@ == r0 + c@.take(j as int),
            decreases c@.len() - j,
        {
            r.push(c[j]);
            j = j + 1;
            assert(r@ =~= r0 + c@.take(j as int));
        }
        assert(c@.take(c@.len() as int) =~= c@);
        proof {
            if i == 0 {
                assert(ps.len() == 1);
                assert(r@ =~= ps[0]);
            } else {
                assert(r@ =~= join(ps.drop_last(), '.') + seq!['.'] + ps.last());
            }
        }
        i = i + 1;
    }
    r
}

fn chain_exec(e: &Expr) -> (r: Option<Vec<String>>)
    ensures
        match r {
            Some(v) => chain_of(*e) == Some(v@.map_values(|x: String| x@)),
            None => chain_of(*e) is None,
        },
    decreases e,
{
    match e {
        Expr::Attribute(v, a) => match chain_exec(v) {
            Some(c) => {
                let mut c = c;
                let ghost before = c@;
                c.push(a.clone());
                assert(c@.map_values(|x: String| x@) =~= before.map_values(|x: String| x@).push(a@));
                Some(c)
            },
            None => None,
        },
        Expr::Name(n) => {
            let c = vec![n.clone()];
            assert(c@.map_values(|x: String| x@) =~= seq![n@]);
            Some(c)
        },
        _ => None,
    }
}

pub open spec fn opt_pair_view(o: Option<(String, String)>) -> Option<(Seq<char>, Seq<char>)> {
    match o {
        Some(p) => Some((p.0@, p.1@)),
        None => None,
    }
}

/// Resolve a chained attribute expression to (module, symbol) for module imports.
///
/// For `import myapp.base` where local="myapp" maps to module="myapp.base",
/// `myapp.base.foo` resolves to ("myapp.base", "foo").
fn resolve_module_attr_chain(e: &Expr, mi: &Vec<(String, String, bool)>) -> (r: Option<(String, String)>)
    ensures
        opt_pair_view(r) == resolve_chain(*e, mod_view(mi@)),
{
    let parts = match chain_exec(e) {
        None => return None,
        Some(p) => p,
    };
    let ghost pv = parts@.map_values(|x: String| x@);
    if parts.len() < 2 {
        return None;
    }
    let (module, aliased) = match mod_get(mi, &parts[0]) {
        None => return None,
        Some(m) => m,
    };
    if aliased {
        return Some((module, parts[1].clone()));
    }
    let prefix = join_dots(&parts, parts.len() - 1);
    assert(pv.take(pv.len() - 1) =~= pv.drop_last());
    let mc = chars_of(module.as_str());
    if chars_eq(&prefix, &mc) {
        assert(pv.last() == parts@[parts@.len() - 1]@);
        return Some((module, parts[parts.len() - 1].clone()));
    }
    let pre_in_mod = has_at(&mc, 0, &prefix);
    let mod_in_pre = has_at(&prefix, 0, &mc);
    assert(pre_in_mod == text_prefix(prefix@, mc@)) by {
        if prefix@.len() <= mc@.len() {
            assert(mc@.take(prefix@.len() as int) =~= mc@.subrange(0, prefix@.len() as int));
        }
    }
    assert(mod_in_pre == text_prefix(mc@, prefix@)) by {
        if mc@.len() <= prefix@.len() {
            assert(prefix@.take(mc@.len() as int) =~= prefix@.subrange(0, mc@.len() as int));
        }
    }
    if pre_in_mod || mod_in_pre {
        proof {
            lemma_count_dots_bound(mc@);
        }
        let d = count_dots_exec(&mc);
        if parts.len() - 1 > d {
            Some((module, parts[d + 1].clone()))
        } else {
            None
        }
    } else {
        None
    }
}

// ---------------------------------------------------------------------------
// The uses an expression or statement records
// ---------------------------------------------------------------------------

pub open spec fn getattr_text() -> Seq<char> {
    seq!['g', 'e', 't', 'a', 't', 't', 'r']
}

/// The module that `getattr(m, ...)` reaches, when `m` is bound by a plain import.
pub open spec fn getattr_module(f: Expr, args: Seq<Expr>, mi: Seq<(Seq<char>, Seq<char>, bool)>) -> Option<Seq<char>> {
    match f {
        Expr::Name(n) => if n@ == getattr_text() && args.len() > 0 {
            match args[0] {
                Expr::Name(a) => mod_lookup(mi, a@),
                _ => None,
            }
        } else {
            None
        },
        _ => None,
    }
}

/// The submodule `Y` of `X` that `from X import Y` binds, when `v` is its name.
pub open spec fn from_submodule(v: Expr, fi: Seq<(Seq<char>, Seq<char>, Seq<char>)>) -> Option<Seq<char>> {
    match v {
        Expr::Name(n) => match from_lookup(fi, n@) {
            Some(p) => Some(p.0 + seq!['.'] + p.1),
            None => None,
        },
        _ => None,
    }
}

/// The uses that the expression `e` records, given the names that from-imports
/// (`fi`) and plain imports (`mi`) bind.
pub open spec fn expr_uses(e: Expr, fi: Seq<(Seq<char>, Seq<char>, Seq<char>)>, mi: Seq<(Seq<char>, Seq<char>, bool)>) -> Uses
    decreases e,
{
    match e {
        Expr::Attribute(v, attr) => match resolve_chain(e, mi) {
            Some(p) => one_use(p.0, p.1),
            None => match from_submodule(*v, fi) {
                Some(m) => one_use(m, attr@),
                None => expr_uses(*v, fi, mi),
            },
        },
        Expr::Name(n) => (match from_lookup(fi, n@) {
            Some(p) => one_use(p.0, p.1),
            None => Set::empty(),
        }).union(match mod_lookup(mi, n@) {
            Some(m) => all_use(m),
            None => Set::empty(),
        }),
        Expr::Call(f, args, kws) => match getattr_module(*f, args@, mi) {
            Some(m) => all_use(m),
            None => expr_uses(*f, fi, mi) + exprs_uses(args@, fi, mi) + exprs_uses(kws@, fi, mi),
        },
        Expr::BoolOp(vs) => exprs_uses(vs@, fi, mi),
        Expr::Compare(l, cs) => expr_uses(*l, fi, mi) + exprs_uses(cs@, fi, mi),
        Expr::BinOp(l, r) => expr_uses(*l, fi, mi) + expr_uses(*r, fi, mi),
        Expr::UnaryOp(o) => expr_uses(*o, fi, mi),
        Expr::If(t, b, o) => expr_uses(*t, fi, mi) + expr_uses(*b, fi, mi) + expr_uses(*o, fi, mi),
        Expr::Lambda(b) => expr_uses(*b, fi, mi),
        Expr::Dict(items) => dict_uses(items@, fi, mi),
        Expr::List(es) => exprs_uses(es@, fi, mi),
        Expr::Tuple(es) => exprs_uses(es@, fi, mi),
        Expr::SetDisplay(es) => exprs_uses(es@, fi, mi),
        Expr::Subscript(v, s) => expr_uses(*v, fi, mi) + expr_uses(*s, fi, mi),
        Expr::Starred(v) => expr_uses(*v, fi, mi),
        Expr::Await(v) => expr_uses(*v, fi, mi),
        Expr::Yield(o) => match o {
            Some(v) => expr_uses(*v, fi, mi),
            None => Set::empty(),
        },
        Expr::YieldFrom(v) => expr_uses(*v, fi, mi),
        Expr::Generator(elt, comps) => expr_uses(*elt, fi, mi) + comps_uses(comps@, fi, mi),
        Expr::ListComp(elt, comps) => expr_uses(*elt, fi, mi) + comps_uses(comps@, fi, mi),
        Expr::SetComp(elt, comps) => expr_uses(*elt, fi, mi) + comps_uses(comps@, fi, mi),
        Expr::DictComp(k, v, comps) => expr_uses(*k, fi, mi) + expr_uses(*v, fi, mi) + comps_uses(comps@, fi, mi),
        Expr::FString(_) => Set::empty(),
        Expr::Named(t, v) => expr_uses(*t, fi, mi) + expr_uses(*v, fi, mi),
        Expr::Other => Set::empty(),
    }
}

pub open spec fn exprs_uses(es: Seq<Expr>, fi: Seq<(Seq<char>, Seq<char>, Seq<char>)>, mi: Seq<(Seq<char>, Seq<char>, bool)>) -> Uses
    decreases es,
{
    if es.len() == 0 {
        Set::empty()
    } else {
        exprs_uses(es.drop_last(), fi, mi) + expr_uses(es.last(), fi, mi)
    }
}

pub open spec fn opt_uses(o: Option<Expr>, fi: Seq<(Seq<char>, Seq<char>, Seq<char>)>, mi: Seq<(Seq<char>, Seq<char>, bool)>) -> Uses
    decreases o,
{
    match o {
        Some(e) => expr_uses(e, fi, mi),
        None => Set::empty(),
    }
}

pub open spec fn dict_uses(items: Seq<DictItem>, fi: Seq<(Seq<char>, Seq<char>, Seq<char>)>, mi: Seq<(Seq<char>, Seq<char>, bool)>) -> Uses
    decreases items,
{
    if items.len() == 0 {
        Set::empty()
    } else {
        dict_uses(items.drop_last(), fi, mi) + opt_uses(items.last().key, fi, mi) + expr_uses(items.last().value, fi, mi)
    }
}

pub open spec fn comps_uses(comps: Seq<Comprehension>, fi: Seq<(Seq<char>, Seq<char>, Seq<char>)>, mi: Seq<(Seq<char>, Seq<char>, bool)>) -> Uses
    decreases comps,
{
    if comps.len() == 0 {
        Set::empty()
    } else {
        comps_uses(comps.drop_last(), fi, mi) + expr_uses(comps.last().target, fi, mi) + expr_uses(comps.last().iter, fi, mi)
            + exprs_uses(comps.last().ifs@, fi, mi)
    }
}

/// The uses that a statement records, its nested statements included; import
/// statements record none here.
pub open spec fn stmt_uses(s: Stmt, fi: Seq<(Seq<char>, Seq<char>, Seq<char>)>, mi: Seq<(Seq<char>, Seq<char>, bool)>) -> Uses
    decreases s,
{
    match s {
        Stmt::FunctionDef { decorators, params, return_type, body, .. } => exprs_uses(decorators@, fi, mi)
            + params_uses(params@, fi, mi) + opt_uses(return_type, fi, mi) + stmts_uses(body@, fi, mi),
        Stmt::ClassDef { decorators, bases, body, .. } => exprs_uses(decorators@, fi, mi) + exprs_uses(bases@, fi, mi)
            + stmts_uses(body@, fi, mi),
        Stmt::Return(v) => opt_uses(v, fi, mi),
        Stmt::Assign { targets, value } => exprs_uses(targets@, fi, mi) + expr_uses(value, fi, mi),
        Stmt::AnnAssign { target, annotation, value } => expr_uses(target, fi, mi) + expr_uses(annotation, fi, mi)
            + opt_uses(value, fi, mi),
        Stmt::AugAssign { target, value } => expr_uses(target, fi, mi) + expr_uses(value, fi, mi),
        Stmt::Expr(e) => expr_uses(e, fi, mi),
        Stmt::If { test, body, clauses } => expr_uses(test, fi, mi) + stmts_uses(body@, fi, mi) + clauses_uses(clauses@, fi, mi),
        Stmt::For { target, iter, body, orelse } => expr_uses(target, fi, mi) + expr_uses(iter, fi, mi)
            + stmts_uses(body@, fi, mi) + stmts_uses(orelse@, fi, mi),
        Stmt::While { test, body, orelse } => expr_uses(test, fi, mi) + stmts_uses(body@, fi, mi) + stmts_uses(orelse@, fi, mi),
        Stmt::With { items, body } => with_uses(items@, fi, mi) + stmts_uses(body@, fi, mi),
        Stmt::Try { body, handlers, orelse, finalbody } => stmts_uses(body@, fi, mi) + handlers_uses(handlers@, fi, mi)
            + stmts_uses(orelse@, fi, mi) + stmts_uses(finalbody@, fi, mi),
        Stmt::Raise { exc, cause } => opt_uses(exc, fi, mi) + opt_uses(cause, fi, mi),
        Stmt::Assert { test, msg } => expr_uses(test, fi, mi) + opt_uses(msg, fi, mi),
        Stmt::Delete(targets) => exprs_uses(targets@, fi, mi),
        Stmt::TypeAlias { name, value } => expr_uses(name, fi, mi) + expr_uses(value, fi, mi),
        Stmt::Import(_) => Set::empty(),
        Stmt::ImportFrom { .. } => Set::empty(),
        Stmt::Other => Set::empty(),
    }
}

pub open spec fn stmts_uses(ss: Seq<Stmt>, fi: Seq<(Seq<char>, Seq<char>, Seq<char>)>, mi: Seq<(Seq<char>, Seq<char>, bool)>) -> Uses
    decreases ss,
{
    if ss.len() == 0 {
        Set::empty()
    } else {
        stmts_uses(ss.drop_last(), fi, mi) + stmt_uses(ss.last(), fi, mi)
    }
}

pub open spec fn params_uses(ps: Seq<Param>, fi: Seq<(Seq<char>, Seq<char>, Seq<char>)>, mi: Seq<(Seq<char>, Seq<char>, bool)>) -> Uses
    decreases ps,
{
    if ps.len() == 0 {
        Set::empty()
    } else {
        params_uses(ps.drop_last(), fi, mi) + opt_uses(ps.last().annotation, fi, mi) + opt_uses(ps.last().default, fi, mi)
    }
}

pub open spec fn clauses_uses(cs: Seq<ElifElse>, fi: Seq<(Seq<char>, Seq<char>, Seq<char>)>, mi: Seq<(Seq<char>, Seq<char>, bool)>) -> Uses
    decreases cs,
{
    if cs.len() == 0 {
        Set::empty()
    } else {
        clauses_uses(cs.drop_last(), fi, mi) + opt_uses(cs.last().test, fi, mi) + stmts_uses(cs.last().body@, fi, mi)
    }
}

pub open spec fn with_uses(ws: Seq<WithItem>, fi: Seq<(Seq<char>, Seq<char>, Seq<char>)>, mi: Seq<(Seq<char>, Seq<char>, bool)>) -> Uses
    decreases ws,
{
    if ws.len() == 0 {
        Set::empty()
    } else {
        with_uses(ws.drop_last(), fi, mi) + expr_uses(ws.last().context_expr, fi, mi) + opt_uses(ws.last().optional_vars, fi, mi)
    }
}

pub open spec fn handlers_uses(hs: Seq<Handler>, fi: Seq<(Seq<char>, Seq<char>, Seq<char>)>, mi: Seq<(Seq<char>, Seq<char>, bool)>) -> Uses
    decreases hs,
{
    if hs.len() == 0 {
        Set::empty()
    } else {
        handlers_uses(hs.drop_last(), fi, mi) + opt_uses(hs.last().type_, fi, mi) + stmts_uses(hs.last().body@, fi, mi)
    }
}

/// Walks each of the expressions `xs`.
fn walk_exprs(xs: &Vec<Expr>, fi: &Vec<(String, String, String)>, mi: &Vec<(String, String, bool)>, res: &mut ModuleSymbolUsage, Ghost(u): Ghost<Uses>)
    requires
        old(res).wf(),
        old(res)@ == usage_of(u),
    ensures
        final(res).wf(),
        final(res)@ == usage_of(u.union(exprs_uses(xs@, from_view(fi@), mod_view(mi@)))),
    decreases xs,
{
    let ghost fv = from_view(fi@);
    let ghost mv = mod_view(mi@);
    let mut i: usize = 0;
    assert(u.union(exprs_uses(xs@.take(0), fv, mv)) =~= u);
    while i < xs.len()
        invariant
            i <= xs@.len(),
            fv == from_view(fi@),
            mv == mod_view(mi@),
            res.wf(),
            res@ == usage_of(u.union(exprs_uses(xs@.take(i as int), fv, mv))),
        decreases xs@.len() - i,
    {
        assert(xs@.take(i + 1).drop_last() =~= xs@.take(i as int));
        assert(xs@.take(i + 1).last() == xs@[i as int]);
        let ghost u0 = u.union(exprs_uses(xs@.take(i as int), fv, mv));
        walk_expr_for_usage(&xs[i], fi, mi, res, Ghost(u0));
        let ghost last_u = u0.union(expr_uses(xs@[i as int], fv, mv));
        i = i + 1;
        assert(u.union(exprs_uses(xs@.take(i as int), fv, mv)) =~= last_u);
    }
    assert(xs@.take(xs@.len() as int) =~= xs@);
}

/// Walks the keys and values of a dict display.
fn walk_dict(xs: &Vec<DictItem>, fi: &Vec<(String, String, String)>, mi: &Vec<(String, String, bool)>, res: &mut ModuleSymbolUsage, Ghost(u): Ghost<Uses>)
    requires
        old(res).wf(),
        old(res)@ == usage_of(u),
    ensures
        final(res).wf(),
        final(res)@ == usage_of(u.union(dict_uses(xs@, from_view(fi@), mod_view(mi@)))),
    decreases xs,
{
    let ghost fv = from_view(fi@);
    let ghost mv = mod_view(mi@);
    let mut i: usize = 0;
    assert(u.union(dict_uses(xs@.take(0), fv, mv)) =~= u);
    while i < xs.len()
        invariant
            i <= xs@.len(),
            fv == from_view(fi@),
            mv == mod_view(mi@),
            res.wf(),
            res@ == usage_of(u.union(dict_uses(xs@.take(i as int), fv, mv))),
        decreases xs@.len() - i,
    {
        assert(xs@.take(i + 1).drop_last() =~= xs@.take(i as int));
        assert(xs@.take(i + 1).last() == xs@[i as int]);
        let ghost u0 = u.union(dict_uses(xs@.take(i as int), fv, mv));
        walk_opt(&xs[i].key, fi, mi, res, Ghost(u0));
        walk_expr_for_usage(&xs[i].value, fi, mi, res, Ghost(u0.union(opt_uses(xs@[i as int].key, fv, mv))));
        let ghost last_u = u0.union(opt_uses(xs@[i as int].key, fv, mv)).union(expr_uses(xs@[i as int].value, fv, mv));
        i = i + 1;
        assert(u.union(dict_uses(xs@.take(i as int), fv, mv)) =~= last_u);
    }
    assert(xs@.take(xs@.len() as int) =~= xs@);
}

/// Walks the clauses of a comprehension.
fn walk_comps(xs: &Vec<Comprehension>, fi: &Vec<(String, String, String)>, mi: &Vec<(String, String, bool)>, res: &mut ModuleSymbolUsage, Ghost(u): Ghost<Uses>)
    requires
        old(res).wf(),
        old(res)@ == usage_of(u),
    ensures
        final(res).wf(),
        final(res)@ == usage_of(u.union(comps_uses(xs@, from_view(fi@), mod_view(mi@)))),
    decreases xs,
{
    let ghost fv = from_view(fi@);
    let ghost mv = mod_view(mi@);
    let mut i: usize = 0;
    assert(u.union(comps_uses(xs@.take(0), fv, mv)) =~= u);
    while i < xs.len()
        invariant
            i <= xs@.len(),
            fv == from_view(fi@),
            mv == mod_view(mi@),
            res.wf(),
            res@ == usage_of(u.union(comps_uses(xs@.take(i as int), fv, mv))),
        decreases xs@.len() - i,
    {
        assert(xs@.take(i + 1).drop_last() =~= xs@.take(i as int));
        assert(xs@.take(i + 1).last() == xs@[i as int]);
        let ghost u0 = u.union(comps_uses(xs@.take(i as int), fv, mv));
        walk_expr_for_usage(&xs[i].target, fi, mi, res, Ghost(u0));
        walk_expr_for_usage(&xs[i].iter, fi, mi, res, Ghost(u0.union(expr_uses(xs@[i as int].target, fv, mv))));
        walk_exprs(&xs[i].ifs, fi, mi, res, Ghost(u0.union(expr_uses(xs@[i as int].target, fv, mv)).union(expr_uses(xs@[i as int].iter, fv, mv))));
        let ghost last_u = u0.union(expr_uses(xs@[i as int].target, fv, mv)).union(expr_uses(xs@[i as int].iter, fv, mv)).union(exprs_uses(xs@[i as int].ifs@, fv, mv));
        i = i + 1;
        assert(u.union(comps_uses(xs@.take(i as int), fv, mv)) =~= last_u);
    }
    assert(xs@.take(xs@.len() as int) =~= xs@);
}

/// Walks each of the statements `xs`.
fn walk_stmts(xs: &Vec<Stmt>, fi: &Vec<(String, String, String)>, mi: &Vec<(String, String, bool)>, res: &mut ModuleSymbolUsage, Ghost(u): Ghost<Uses>)
    requires
        old(res).wf(),
        old(res)@ == usage_of(u),
    ensures
        final(res).wf(),
        final(res)@ == usage_of(u.union(stmts_uses(xs@, from_view(fi@), mod_view(mi@)))),
    decreases xs,
{
    let ghost fv = from_view(fi@);
    let ghost mv = mod_view(mi@);
    let mut i: usize = 0;
    assert(u.union(stmts_uses(xs@.take(0), fv, mv)) =~= u);
    while i < xs.len()
        invariant
            i <= xs@.len(),
            fv == from_view(fi@),
            mv == mod_view(mi@),
            res.wf(),
            res@ == usage_of(u.union(stmts_uses(xs@.take(i as int), fv, mv))),
        decreases xs@.len() - i,
    {
        assert(xs@.take(i + 1).drop_last() =~= xs@.take(i as int));
        assert(xs@.take(i + 1).last() == xs@[i as int]);
        let ghost u0 = u.union(stmts_uses(xs@.take(i as int), fv, mv));
        collect_exprs_from_stmt(&xs[i], fi, mi, res, Ghost(u0));
        let ghost last_u = u0.union(stmt_uses(xs@[i as int], fv, mv));
        i = i + 1;
        assert(u.union(stmts_uses(xs@.take(i as int), fv, mv)) =~= last_u);
    }
    assert(xs@.take(xs@.len() as int) =~= xs@);
}

/// Walks the annotations and defaults of parameters.
fn walk_params(xs: &Vec<Param>, fi: &Vec<(String, String, String)>, mi: &Vec<(String, String, bool)>, res: &mut ModuleSymbolUsage, Ghost(u): Ghost<Uses>)
    requires
        old(res).wf(),
        old(res)@ == usage_of(u),
    ensures
        final(res).wf(),
        final(res)@ == usage_of(u.union(params_uses(xs@, from_view(fi@), mod_view(mi@)))),
    decreases xs,
{
    let ghost fv = from_view(fi@);
    let ghost mv = mod_view(mi@);
    let mut i: usize = 0;
    assert(u.union(params_uses(xs@.take(0), fv, mv)) =~= u);
    while i < xs.len()
        invariant
            i <= xs@.len(),
            fv == from_view(fi@),
            mv == mod_view(mi@),
            res.wf(),
            res@ == usage_of(u.union(params_uses(xs@.take(i as int), fv, mv))),
        decreases xs@.len() - i,
    {
        assert(xs@.take(i + 1).drop_last() =~= xs@.take(i as int));
        assert(xs@.take(i + 1).last() == xs@[i as int]);
        let ghost u0 = u.union(params_uses(xs@.take(i as int), fv, mv));
        walk_opt(&xs[i].annotation, fi, mi, res, Ghost(u0));
        walk_opt(&xs[i].default, fi, mi, res, Ghost(u0.union(opt_uses(xs@[i as int].annotation, fv, mv))));
        let ghost last_u = u0.union(opt_uses(xs@[i as int].annotation, fv, mv)).union(opt_uses(xs@[i as int].default, fv, mv));
        i = i + 1;
        assert(u.union(params_uses(xs@.take(i as int), fv, mv)) =~= last_u);
    }
    assert(xs@.take(xs@.len() as int) =~= xs@);
}

/// Walks `elif` and `else` clauses.
fn walk_clauses(xs: &Vec<ElifElse>, fi: &Vec<(String, String, String)>, mi: &Vec<(String, String, bool)>, res: &mut ModuleSymbolUsage, Ghost(u): Ghost<Uses>)
    requires
        old(res).wf(),
        old(res)@ == usage_of(u),
    ensures
        final(res).wf(),
        final(res)@ == usage_of(u.union(clauses_uses(xs@, from_view(fi@), mod_view(mi@)))),
    decreases xs,
{
    let ghost fv = from_view(fi@);
    let ghost mv = mod_view(mi@);
    let mut i: usize = 0;
    assert(u.union(clauses_uses(xs@.take(0), fv, mv)) =~= u);
    while i < xs.len()
        invariant
            i <= xs@.len(),
            fv == from_view(fi@),
            mv == mod_view(mi@),
            res.wf(),
            res@ == usage_of(u.union(clauses_uses(xs@.take(i as int), fv, mv))),
        decreases xs@.len() - i,
    {
        assert(xs@.take(i + 1).drop_last() =~= xs@.take(i as int));
        assert(xs@.take(i + 1).last() == xs@[i as int]);
        let ghost u0 = u.union(clauses_uses(xs@.take(i as int), fv, mv));
        walk_opt(&xs[i].test, fi, mi, res, Ghost(u0));
        walk_stmts(&xs[i].body, fi, mi, res, Ghost(u0.union(opt_uses(xs@[i as int].test, fv, mv))));
        let ghost last_u = u0.union(opt_uses(xs@[i as int].test, fv, mv)).union(stmts_uses(xs@[i as int].body@, fv, mv));
        i = i + 1;
        assert(u.union(clauses_uses(xs@.take(i as int), fv, mv)) =~= last_u);
    }
    assert(xs@.take(xs@.len() as int) =~= xs@);
}

/// Walks the items of a `with` statement.
fn walk_with(xs: &Vec<WithItem>, fi: &Vec<(String, String, String)>, mi: &Vec<(String, String, bool)>, res: &mut ModuleSymbolUsage, Ghost(u): Ghost<Uses>)
    requires
        old(res).wf(),
        old(res)@ == usage_of(u),
    ensures
        final(res).wf(),
        final(res)@ == usage_of(u.union(with_uses(xs@, from_view(fi@), mod_view(mi@)))),
    decreases xs,
{
    let ghost fv = from_view(fi@);
    let ghost mv = mod_view(mi@);
    let mut i: usize = 0;
    assert(u.union(with_uses(xs@.take(0), fv, mv)) =~= u);
    while i < xs.len()
        invariant
            i <= xs@.len(),
            fv == from_view(fi@),
            mv == mod_view(mi@),
            res.wf(),
            res@ == usage_of(u.union(with_uses(xs@.take(i as int), fv, mv))),
        decreases xs@.len() - i,
    {
        assert(xs@.take(i + 1).drop_last() =~= xs@.take(i as int));
        assert(xs@.take(i + 1).last() == xs@[i as int]);
        let ghost u0 = u.union(with_uses(xs@.take(i as int), fv, mv));
        walk_expr_for_usage(&xs[i].context_expr, fi, mi, res, Ghost(u0));
        walk_opt(&xs[i].optional_vars, fi, mi, res, Ghost(u0.union(expr_uses(xs@[i as int].context_expr, fv, mv))));
        let ghost last_u = u0.union(expr_uses(xs@[i as int].context_expr, fv, mv)).union(opt_uses(xs@[i as int].optional_vars, fv, mv));
        i = i + 1;
        assert(u.union(with_uses(xs@.take(i as int), fv, mv)) =~= last_u);
    }
    assert(xs@.take(xs@.len() as int) =~= xs@);
}

/// Walks exception handlers.
fn walk_handlers(xs: &Vec<Handler>, fi: &Vec<(String, String, String)>, mi: &Vec<(String, String, bool)>, res: &mut ModuleSymbolUsage, Ghost(u): Ghost<Uses>)
    requires
        old(res).wf(),
        old(res)@ == usage_of(u),
    ensures
        final(res).wf(),
        final(res)@ == usage_of(u.union(handlers_uses(xs@, from_view(fi@), mod_view(mi@)))),
    decreases xs,
{
    let ghost fv = from_view(fi@);
    let ghost mv = mod_view(mi@);
    let mut i: usize = 0;
    assert(u.union(handlers_uses(xs@.take(0), fv, mv)) =~= u);
    while i < xs.len()
        invariant
            i <= xs@.len(),
            fv == from_view(fi@),
            mv == mod_view(mi@),
            res.wf(),
            res@ == usage_of(u.union(handlers_uses(xs@.take(i as int), fv, mv))),
        decreases xs@.len() - i,
    {
        assert(xs@.take(i + 1).drop_last() =~= xs@.take(i as int));
        assert(xs@.take(i + 1).last() == xs@[i as int]);
        let ghost u0 = u.union(handlers_uses(xs@.take(i as int), fv, mv));
        walk_opt(&xs[i].type_, fi, mi, res, Ghost(u0));
        walk_stmts(&xs[i].body, fi, mi, res, Ghost(u0.union(opt_uses(xs@[i as int].type_, fv, mv))));
        let ghost last_u = u0.union(opt_uses(xs@[i as int].type_, fv, mv)).union(stmts_uses(xs@[i as int].body@, fv, mv));
        i = i + 1;
        assert(u.union(handlers_uses(xs@.take(i as int), fv, mv)) =~= last_u);
    }
    assert(xs@.take(xs@.len() as int) =~= xs@);
}

/// Records that `s` of `m` is used.
fn record_one(res: &mut ModuleSymbolUsage, m: &str, s: &str, Ghost(u): Ghost<Uses>)
    requires
        old(res).wf(),
        old(res)@ == usage_of(u),
    ensures
        final(res).wf(),
        final(res)@ == usage_of(u.union(one_use(m@, s@))),
{
    res.record_specific(m, s);
    proof {
        lemma_record_specific(u, m@, s@);
    }
}

/// Records that all of `m` is used.
fn record_whole(res: &mut ModuleSymbolUsage, m: &str, Ghost(u): Ghost<Uses>)
    requires
        old(res).wf(),
        old(res)@ == usage_of(u),
    ensures
        final(res).wf(),
        final(res)@ == usage_of(u.union(all_use(m@))),
{
    res.record_all(m);
    proof {
        lemma_record_all(u, m@);
    }
}

/// Walks an optional expression.

fn walk_opt(o: &Option<Expr>, fi: &Vec<(String, String, String)>, mi: &Vec<(String, String, bool)>, res: &mut ModuleSymbolUsage, Ghost(u): Ghost<Uses>)
    requires
        old(res).wf(),
        old(res)@ == usage_of(u),
    ensures
        final(res).wf(),
        final(res)@ == usage_of(u.union(opt_uses(*o, from_view(fi@), mod_view(mi@)))),
    decreases o,
{
    match o {
        Some(e) => walk_expr_for_usage(e, fi, mi, res, Ghost(u)),
        None => {
            assert(u.union(opt_uses(*o, from_view(fi@), mod_view(mi@))) =~= u);
        },
    }
}

/// The module `getattr(m, ...)` reaches, when `m` is bound by a plain import.
fn getattr_exec(f: &Expr, args: &Vec<Expr>, mi: &Vec<(String, String, bool)>) -> (r: Option<String>)
    ensures
        match r {
            Some(m) => getattr_module(*f, args@, mod_view(mi@)) == Some(m@),
            None => getattr_module(*f, args@, mod_view(mi@)) is None,
        },
{
    match f {
        Expr::Name(n) => {
            let g = vec!['g', 'e', 't', 'a', 't', 't', 'r'];
            assert(g@ =~= getattr_text());
            if chars_eq(&chars_of(n.as_str()), &g) && args.len() > 0 {
                match &args[0] {
                    Expr::Name(a) => match mod_get(mi, a) {
                        Some(m) => Some(m.0),
                        None => None,
                    },
                    _ => None,
                }
            } else {
                None
            }
        },
        _ => None,
    }
}

/// Walk an expression tree looking for imported name references, recording each use.

fn walk_expr_for_usage(e: &Expr, fi: &Vec<(String, String, String)>, mi: &Vec<(String, String, bool)>, res: &mut ModuleSymbolUsage, Ghost(u): Ghost<Uses>)
    requires
        old(res).wf(),
        old(res)@ == usage_of(u),
    ensures
        final(res).wf(),
        final(res)@ == usage_of(u.union(expr_uses(*e, from_view(fi@), mod_view(mi@)))),
    decreases e,
{
    let ghost fv = from_view(fi@);
    let ghost mv = mod_view(mi@);
    let ghost goal = u.union(expr_uses(*e, fv, mv));
    match e {
        Expr::Attribute(v, attr) => {
            match resolve_module_attr_chain(e, mi) {
                Some(p) => {
                    record_one(res, p.0.as_str(), p.1.as_str(), Ghost(u));
                },
                None => {
                    let sub = match &**v {
                        Expr::Name(n) => match from_get(fi, n) {
                            Some(p) => Some(dotted(&chars_of(p.0.as_str()), p.1.as_str())),
                            None => None,
                        },
                        _ => None,
                    };
                    assert(match sub {
                        Some(m) => from_submodule(**v, fv) == Some(m@),
                        None => from_submodule(**v, fv) is None,
                    });
                    match sub {
                        Some(m) => {
                            record_one(res, m.as_str(), attr.as_str(), Ghost(u));
                        },
                        None => {
                            walk_expr_for_usage(v, fi, mi, res, Ghost(u));
                        },
                    }
                },
            }
        },
        Expr::Name(n) => {
            let ghost u1 = u;
            match from_get(fi, n) {
                Some(p) => {
                    record_one(res, p.0.as_str(), p.1.as_str(), Ghost(u));
                    proof { u1 = u.union(one_use(p.0@, p.1@)); }
                },
                None => {},
            }
            let ghost u2 = u1;
            match mod_get(mi, n) {
                Some(m) => {
                    record_whole(res, m.0.as_str(), Ghost(u1));
                    proof { u2 = u1.union(all_use(m.0@)); }
                },
                None => {},
            }
            assert(u2 =~= goal);
        },
        Expr::Call(f, args, kws) => {
            match getattr_exec(f, args, mi) {
                Some(m) => {
                    record_whole(res, m.as_str(), Ghost(u));
                },
                None => {
                    walk_expr_for_usage(f, fi, mi, res, Ghost(u));
                    let ghost u1 = u.union(expr_uses(**f, fv, mv));
                    walk_exprs(args, fi, mi, res, Ghost(u1));
                    let ghost u2 = u1.union(exprs_uses(args@, fv, mv));
                    walk_exprs(kws, fi, mi, res, Ghost(u2));
                    assert(u2.union(exprs_uses(kws@, fv, mv)) =~= goal);
                },
            }
        },
        Expr::BoolOp(vs) => walk_exprs(vs, fi, mi, res, Ghost(u)),
        Expr::Compare(l, cs) => {
            walk_expr_for_usage(l, fi, mi, res, Ghost(u));
            let ghost u1 = u.union(expr_uses(**l, fv, mv));
            walk_exprs(cs, fi, mi, res, Ghost(u1));
            assert(u1.union(exprs_uses(cs@, fv, mv)) =~= goal);
        },
        Expr::BinOp(l, r) => {
            walk_expr_for_usage(l, fi, mi, res, Ghost(u));
            let ghost u1 = u.union(expr_uses(**l, fv, mv));
            walk_expr_for_usage(r, fi, mi, res, Ghost(u1));
            assert(u1.union(expr_uses(**r, fv, mv)) =~= goal);
        },
        Expr::UnaryOp(o) => walk_expr_for_usage(o, fi, mi, res, Ghost(u)),
        Expr::If(t, b, o) => {
            walk_expr_for_usage(t, fi, mi, res, Ghost(u));
            let ghost u1 = u.union(expr_uses(**t, fv, mv));
            walk_expr_for_usage(b, fi, mi, res, Ghost(u1));
            let ghost u2 = u1.union(expr_uses(**b, fv, mv));
            walk_expr_for_usage(o, fi, mi, res, Ghost(u2));
            assert(u2.union(expr_uses(**o, fv, mv)) =~= goal);
        },
        Expr::Lambda(b) => walk_expr_for_usage(b, fi, mi, res, Ghost(u)),
        Expr::Dict(items) => walk_dict(items, fi, mi, res, Ghost(u)),
        Expr::List(es) => walk_exprs(es, fi, mi, res, Ghost(u)),
        Expr::Tuple(es) => walk_exprs(es, fi, mi, res, Ghost(u)),
        Expr::SetDisplay(es) => walk_exprs(es, fi, mi, res, Ghost(u)),
        Expr::Subscript(v, sl) => {
            walk_expr_for_usage(v, fi, mi, res, Ghost(u));
            let ghost u1 = u.union(expr_uses(**v, fv, mv));
            walk_expr_for_usage(sl, fi, mi, res, Ghost(u1));
            assert(u1.union(expr_uses(**sl, fv, mv)) =~= goal);
        },
        Expr::Starred(v) => walk_expr_for_usage(v, fi, mi, res, Ghost(u)),
        Expr::Await(v) => walk_expr_for_usage(v, fi, mi, res, Ghost(u)),
        Expr::Yield(o) => match o {
            Some(v) => walk_expr_for_usage(v, fi, mi, res, Ghost(u)),
            None => {
                assert(u =~= goal);
            },
        },
        Expr::YieldFrom(v) => walk_expr_for_usage(v, fi, mi, res, Ghost(u)),
        Expr::Generator(elt, comps) => {
            walk_expr_for_usage(elt, fi, mi, res, Ghost(u));
            let ghost u1 = u.union(expr_uses(**elt, fv, mv));
            walk_comps(comps, fi, mi, res, Ghost(u1));
            assert(u1.union(comps_uses(comps@, fv, mv)) =~= goal);
        },
        Expr::ListComp(elt, comps) => {
            walk_expr_for_usage(elt, fi, mi, res, Ghost(u));
            let ghost u1 = u.union(expr_uses(**elt, fv, mv));
            walk_comps(comps, fi, mi, res, Ghost(u1));
            assert(u1.union(comps_uses(comps@, fv, mv)) =~= goal);
        },
        Expr::SetComp(elt, comps) => {
            walk_expr_for_usage(elt, fi, mi, res, Ghost(u));
            let ghost u1 = u.union(expr_uses(**elt, fv, mv));
            walk_comps(comps, fi, mi, res, Ghost(u1));
            assert(u1.union(comps_uses(comps@, fv, mv)) =~= goal);
        },
        Expr::DictComp(k, v, comps) => {
            walk_expr_for_usage(k, fi, mi, res, Ghost(u));
            let ghost u1 = u.union(expr_uses(**k, fv, mv));
            walk_expr_for_usage(v, fi, mi, res, Ghost(u1));
            let ghost u2 = u1.union(expr_uses(**v, fv, mv));
            walk_comps(comps, fi, mi, res, Ghost(u2));
            assert(u2.union(comps_uses(comps@, fv, mv)) =~= goal);
        },
        Expr::FString(_) => {
            assert(u =~= goal);
        },
        Expr::Named(t, v) => {
            walk_expr_for_usage(t, fi, mi, res, Ghost(u));
            let ghost u1 = u.union(expr_uses(**t, fv, mv));
            walk_expr_for_usage(v, fi, mi, res, Ghost(u1));
            assert(u1.union(expr_uses(**v, fv, mv)) =~= goal);
        },
        Expr::Other => {
            assert(u =~= goal);
        },
    }
}

/// Recursively collect symbol usage from a statement and its sub-expressions;
/// import statements are skipped.

fn collect_exprs_from_stmt(s: &Stmt, fi: &Vec<(String, String, String)>, mi: &Vec<(String, String, bool)>, res: &mut ModuleSymbolUsage, Ghost(u): Ghost<Uses>)
    requires
        old(res).wf(),
        old(res)@ == usage_of(u),
    ensures
        final(res).wf(),
        final(res)@ == usage_of(u.union(stmt_uses(*s, from_view(fi@), mod_view(mi@)))),
    decreases s,
{
    let ghost fv = from_view(fi@);
    let ghost mv = mod_view(mi@);
    let ghost goal = u.union(stmt_uses(*s, fv, mv));
    match s {
        Stmt::FunctionDef { decorators, params, return_type, body, .. } => {
            walk_exprs(decorators, fi, mi, res, Ghost(u));
            let ghost u1 = u.union(exprs_uses(decorators@, fv, mv));
            walk_params(params, fi, mi, res, Ghost(u1));
            let ghost u2 = u1.union(params_uses(params@, fv, mv));
            walk_opt(return_type, fi, mi, res, Ghost(u2));
            let ghost u3 = u2.union(opt_uses(*return_type, fv, mv));
            walk_stmts(body, fi, mi, res, Ghost(u3));
            let ghost u4 = u3.union(stmts_uses(body@, fv, mv));
            assert(u4 =~= goal);
        },
        Stmt::ClassDef { decorators, bases, body, .. } => {
            walk_exprs(decorators, fi, mi, res, Ghost(u));
            let ghost u1 = u.union(exprs_uses(decorators@, fv, mv));
            walk_exprs(bases, fi, mi, res, Ghost(u1));
            let ghost u2 = u1.union(exprs_uses(bases@, fv, mv));
            walk_stmts(body, fi, mi, res, Ghost(u2));
            let ghost u3 = u2.union(stmts_uses(body@, fv, mv));
            assert(u3 =~= goal);
        },
        Stmt::Return(v) => {
            walk_opt(v, fi, mi, res, Ghost(u));
            let ghost u1 = u.union(opt_uses(*v, fv, mv));
            assert(u1 =~= goal);
        },
        Stmt::Assign { targets, value } => {
            walk_exprs(targets, fi, mi, res, Ghost(u));
            let ghost u1 = u.union(exprs_uses(targets@, fv, mv));
            walk_expr_for_usage(value, fi, mi, res, Ghost(u1));
            let ghost u2 = u1.union(expr_uses(*value, fv, mv));
            assert(u2 =~= goal);
        },
        Stmt::AnnAssign { target, annotation, value } => {
            walk_expr_for_usage(target, fi, mi, res, Ghost(u));
            let ghost u1 = u.union(expr_uses(*target, fv, mv));
            walk_expr_for_usage(annotation, fi, mi, res, Ghost(u1));
            let ghost u2 = u1.union(expr_uses(*annotation, fv, mv));
            walk_opt(value, fi, mi, res, Ghost(u2));
            let ghost u3 = u2.union(opt_uses(*value, fv, mv));
            assert(u3 =~= goal);
        },
        Stmt::AugAssign { target, value } => {
            walk_expr_for_usage(target, fi, mi, res, Ghost(u));
            let ghost u1 = u.union(expr_uses(*target, fv, mv));
            walk_expr_for_usage(value, fi, mi, res, Ghost(u1));
            let ghost u2 = u1.union(expr_uses(*value, fv, mv));
            assert(u2 =~= goal);
        },
        Stmt::Expr(x) => {
            walk_expr_for_usage(x, fi, mi, res, Ghost(u));
            let ghost u1 = u.union(expr_uses(*x, fv, mv));
            assert(u1 =~= goal);
        },
        Stmt::If { test, body, clauses } => {
            walk_expr_for_usage(test, fi, mi, res, Ghost(u));
            let ghost u1 = u.union(expr_uses(*test, fv, mv));
            walk_stmts(body, fi, mi, res, Ghost(u1));
            let ghost u2 = u1.union(stmts_uses(body@, fv, mv));
            walk_clauses(clauses, fi, mi, res, Ghost(u2));
            let ghost u3 = u2.union(clauses_uses(clauses@, fv, mv));
            assert(u3 =~= goal);
        },
        Stmt::For { target, iter, body, orelse } => {
            walk_expr_for_usage(target, fi, mi, res, Ghost(u));
            let ghost u1 = u.union(expr_uses(*target, fv, mv));
            walk_expr_for_usage(iter, fi, mi, res, Ghost(u1));
            let ghost u2 = u1.union(expr_uses(*iter, fv, mv));
            walk_stmts(body, fi, mi, res, Ghost(u2));
            let ghost u3 = u2.union(stmts_uses(body@, fv, mv));
            walk_stmts(orelse, fi, mi, res, Ghost(u3));
            let ghost u4 = u3.union(stmts_uses(orelse@, fv, mv));
            assert(u4 =~= goal);
        },
        Stmt::While { test, body, orelse } => {
            walk_expr_for_usage(test, fi, mi, res, Ghost(u));
            let ghost u1 = u.union(expr_uses(*test, fv, mv));
            walk_stmts(body, fi, mi, res, Ghost(u1));
            let ghost u2 = u1.union(stmts_uses(body@, fv, mv));
            walk_stmts(orelse, fi, mi, res, Ghost(u2));
            let ghost u3 = u2.union(stmts_uses(orelse@, fv, mv));
            assert(u3 =~= goal);
        },
        Stmt::With { items, body } => {
            walk_with(items, fi, mi, res, Ghost(u));
            let ghost u1 = u.union(with_uses(items@, fv, mv));
            walk_stmts(body, fi, mi, res, Ghost(u1));
            let ghost u2 = u1.union(stmts_uses(body@, fv, mv));
            assert(u2 =~= goal);
        },
        Stmt::Try { body, handlers, orelse, finalbody } => {
            walk_stmts(body, fi, mi, res, Ghost(u));
            let ghost u1 = u.union(stmts_uses(body@, fv, mv));
            walk_handlers(handlers, fi, mi, res, Ghost(u1));
            let ghost u2 = u1.union(handlers_uses(handlers@, fv, mv));
            walk_stmts(orelse, fi, mi, res, Ghost(u2));
            let ghost u3 = u2.union(stmts_uses(orelse@, fv, mv));
            walk_stmts(finalbody, fi, mi, res, Ghost(u3));
            let ghost u4 = u3.union(stmts_uses(finalbody@, fv, mv));
            assert(u4 =~= goal);
        },
        Stmt::Raise { exc, cause } => {
            walk_opt(exc, fi, mi, res, Ghost(u));
            let ghost u1 = u.union(opt_uses(*exc, fv, mv));
            walk_opt(cause, fi, mi, res, Ghost(u1));
            let ghost u2 = u1.union(opt_uses(*cause, fv, mv));
            assert(u2 =~= goal);
        },
        Stmt::Assert { test, msg } => {
            walk_expr_for_usage(test, fi, mi, res, Ghost(u));
            let ghost u1 = u.union(expr_uses(*test, fv, mv));
            walk_opt(msg, fi, mi, res, Ghost(u1));
            let ghost u2 = u1.union(opt_uses(*msg, fv, mv));
            assert(u2 =~= goal);
        },
        Stmt::Delete(targets) => {
            walk_exprs(targets, fi, mi, res, Ghost(u));
            let ghost u1 = u.union(exprs_uses(targets@, fv, mv));
            assert(u1 =~= goal);
        },
        Stmt::TypeAlias { name, value } => {
            walk_expr_for_usage(name, fi, mi, res, Ghost(u));
            let ghost u1 = u.union(expr_uses(*name, fv, mv));
            walk_expr_for_usage(value, fi, mi, res, Ghost(u1));
            let ghost u2 = u1.union(expr_uses(*value, fv, mv));
            assert(u2 =~= goal);
        },
        Stmt::Import(_) => {
            assert(u =~= goal);
        },
        Stmt::ImportFrom { .. } => {
            assert(u =~= goal);
        },
        Stmt::Other => {
            assert(u =~= goal);
        },
    }
}


// ---------------------------------------------------------------------------
// Recorded uses name only imported modules
// ---------------------------------------------------------------------------

/// The recorded uses `u` name only modules of `t`.
pub open spec fn uses_within(u: Uses, t: Set<Seq<char>>) -> bool {
    forall|x: (Seq<char>, Option<Seq<char>>)| #[trigger] u.contains(x) ==> t.contains(x.0)
}

/// Each plain-import binding of `mi` names a module of `t`.
pub open spec fn mod_within(mi: Seq<(Seq<char>, Seq<char>, bool)>, t: Set<Seq<char>>) -> bool {
    forall|k: int| 0 <= k < mi.len() ==> t.contains(#[trigger] mi[k].1)
}

/// Each from-import binding of `fi` names a module of `t`, and so does the
/// submodule that the imported name may be.
pub open spec fn from_within(fi: Seq<(Seq<char>, Seq<char>, Seq<char>)>, t: Set<Seq<char>>) -> bool {
    forall|k: int| 0 <= k < fi.len() ==> t.contains(#[trigger] fi[k].1) && t.contains(fi[k].1 + seq!['.'] + fi[k].2)
}

proof fn lemma_mod_lookup_within(mi: Seq<(Seq<char>, Seq<char>, bool)>, l: Seq<char>, t: Set<Seq<char>>)
    requires
        mod_within(mi, t),
    ensures
        mod_lookup(mi, l) matches Some(m) ==> t.contains(m),
    decreases mi.len(),
{
    if mi.len() > 0 {
        assert(mi.last() == mi[mi.len() - 1]);
        if mi.last().0 != l {
            assert forall|k: int| 0 <= k < mi.drop_last().len() implies t.contains(#[trigger] mi.drop_last()[k].1) by {
                assert(mi.drop_last()[k] == mi[k]);
            }
            lemma_mod_lookup_within(mi.drop_last(), l, t);
        }
    }
}

proof fn lemma_from_lookup_within(fi: Seq<(Seq<char>, Seq<char>, Seq<char>)>, l: Seq<char>, t: Set<Seq<char>>)
    requires
        from_within(fi, t),
    ensures
        from_lookup(fi, l) matches Some(p) ==> t.contains(p.0) && t.contains(p.0 + seq!['.'] + p.1),
    decreases fi.len(),
{
    if fi.len() > 0 {
        assert(fi.last() == fi[fi.len() - 1]);
        if fi.last().0 != l {
            assert forall|k: int| 0 <= k < fi.drop_last().len() implies t.contains(#[trigger] fi.drop_last()[k].1)
                && t.contains(fi.drop_last()[k].1 + seq!['.'] + fi.drop_last()[k].2) by {
                assert(fi.drop_last()[k] == fi[k]);
            }
            lemma_from_lookup_within(fi.drop_last(), l, t);
        }
    }
}

proof fn lemma_expr_within(e: Expr, fi: Seq<(Seq<char>, Seq<char>, Seq<char>)>, mi: Seq<(Seq<char>, Seq<char>, bool)>, t: Set<Seq<char>>)
    requires
        from_within(fi, t),
        mod_within(mi, t),
    ensures
        uses_within(expr_uses(e, fi, mi), t),
    decreases e,
{
    match e {
        Expr::Attribute(v, attr) => {
            match chain_of(e) {
                Some(parts) => if parts.len() >= 2 {
                    lemma_mod_lookup_within(mi, parts[0], t);
                },
                None => {},
            }
            match *v {
                Expr::Name(n) => lemma_from_lookup_within(fi, n@, t),
                _ => {},
            }
            lemma_expr_within(*v, fi, mi, t);
        },
        Expr::Name(n) => {
            lemma_from_lookup_within(fi, n@, t);
            lemma_mod_lookup_within(mi, n@, t);
        },
        Expr::Call(f, args, kws) => {
            if args@.len() > 0 {
                match args@[0] {
                    Expr::Name(a) => lemma_mod_lookup_within(mi, a@, t),
                    _ => {},
                }
            }
            lemma_expr_within(*f, fi, mi, t);
            lemma_exprs_within(args@, fi, mi, t);
            lemma_exprs_within(kws@, fi, mi, t);
        },
        Expr::BoolOp(vs) => lemma_exprs_within(vs@, fi, mi, t),
        Expr::Compare(l, cs) => {
            lemma_expr_within(*l, fi, mi, t);
            lemma_exprs_within(cs@, fi, mi, t);
        },
        Expr::BinOp(l, r) => {
            lemma_expr_within(*l, fi, mi, t);
            lemma_expr_within(*r, fi, mi, t);
        },
        Expr::UnaryOp(o) => lemma_expr_within(*o, fi, mi, t),
        Expr::If(a, b, c) => {
            lemma_expr_within(*a, fi, mi, t);
            lemma_expr_within(*b, fi, mi, t);
            lemma_expr_within(*c, fi, mi, t);
        },
        Expr::Lambda(b) => lemma_expr_within(*b, fi, mi, t),
        Expr::Dict(items) => lemma_dict_within(items@, fi, mi, t),
        Expr::List(es) => lemma_exprs_within(es@, fi, mi, t),
        Expr::Tuple(es) => lemma_exprs_within(es@, fi, mi, t),
        Expr::SetDisplay(es) => lemma_exprs_within(es@, fi, mi, t),
        Expr::Subscript(v, x) => {
            lemma_expr_within(*v, fi, mi, t);
            lemma_expr_within(*x, fi, mi, t);
        },
        Expr::Starred(v) => lemma_expr_within(*v, fi, mi, t),
        Expr::Await(v) => lemma_expr_within(*v, fi, mi, t),
        Expr::Yield(o) => match o {
            Some(v) => lemma_expr_within(*v, fi, mi, t),
            None => {},
        },
        Expr::YieldFrom(v) => lemma_expr_within(*v, fi, mi, t),
        Expr::Generator(elt, comps) => {
            lemma_expr_within(*elt, fi, mi, t);
            lemma_comps_within(comps@, fi, mi, t);
        },
        Expr::ListComp(elt, comps) => {
            lemma_expr_within(*elt, fi, mi, t);
            lemma_comps_within(comps@, fi, mi, t);
        },
        Expr::SetComp(elt, comps) => {
            lemma_expr_within(*elt, fi, mi, t);
            lemma_comps_within(comps@, fi, mi, t);
        },
        Expr::DictComp(k, v, comps) => {
            lemma_expr_within(*k, fi, mi, t);
            lemma_expr_within(*v, fi, mi, t);
            lemma_comps_within(comps@, fi, mi, t);
        },
        Expr::FString(_) => {},
        Expr::Named(a, b) => {
            lemma_expr_within(*a, fi, mi, t);
            lemma_expr_within(*b, fi, mi, t);
        },
        Expr::Other => {},
    }
}

proof fn lemma_exprs_within(es: Seq<Expr>, fi: Seq<(Seq<char>, Seq<char>, Seq<char>)>, mi: Seq<(Seq<char>, Seq<char>, bool)>, t: Set<Seq<char>>)
    requires
        from_within(fi, t),
        mod_within(mi, t),
    ensures
        uses_within(exprs_uses(es, fi, mi), t),
    decreases es,
{
    if es.len() > 0 {
        lemma_exprs_within(es.drop_last(), fi, mi, t);
        lemma_expr_within(es.last(), fi, mi, t);
    }
}

proof fn lemma_opt_within(o: Option<Expr>, fi: Seq<(Seq<char>, Seq<char>, Seq<char>)>, mi: Seq<(Seq<char>, Seq<char>, bool)>, t: Set<Seq<char>>)
    requires
        from_within(fi, t),
        mod_within(mi, t),
    ensures
        uses_within(opt_uses(o, fi, mi), t),
    decreases o,
{
    match o {
        Some(e) => lemma_expr_within(e, fi, mi, t),
        None => {},
    }
}

proof fn lemma_dict_within(items: Seq<DictItem>, fi: Seq<(Seq<char>, Seq<char>, Seq<char>)>, mi: Seq<(Seq<char>, Seq<char>, bool)>, t: Set<Seq<char>>)
    requires
        from_within(fi, t),
        mod_within(mi, t),
    ensures
        uses_within(dict_uses(items, fi, mi), t),
    decreases items,
{
    if items.len() > 0 {
        lemma_dict_within(items.drop_last(), fi, mi, t);
        lemma_opt_within(items.last().key, fi, mi, t);
        lemma_expr_within(items.last().value, fi, mi, t);
    }
}

proof fn lemma_comps_within(comps: Seq<Comprehension>, fi: Seq<(Seq<char>, Seq<char>, Seq<char>)>, mi: Seq<(Seq<char>, Seq<char>, bool)>, t: Set<Seq<char>>)
    requires
        from_within(fi, t),
        mod_within(mi, t),
    ensures
        uses_within(comps_uses(comps, fi, mi), t),
    decreases comps,
{
    if comps.len() > 0 {
        lemma_comps_within(comps.drop_last(), fi, mi, t);
        lemma_expr_within(comps.last().target, fi, mi, t);
        lemma_expr_within(comps.last().iter, fi, mi, t);
        lemma_exprs_within(comps.last().ifs@, fi, mi, t);
    }
}

proof fn lemma_stmt_within(st: Stmt, fi: Seq<(Seq<char>, Seq<char>, Seq<char>)>, mi: Seq<(Seq<char>, Seq<char>, bool)>, t: Set<Seq<char>>)
    requires
        from_within(fi, t),
        mod_within(mi, t),
    ensures
        uses_within(stmt_uses(st, fi, mi), t),
    decreases st,
{
    match st {
        Stmt::FunctionDef { decorators, params, return_type, body, .. } => {
            lemma_exprs_within(decorators@, fi, mi, t);
            lemma_params_within(params@, fi, mi, t);
            lemma_opt_within(return_type, fi, mi, t);
            lemma_stmts_within(body@, fi, mi, t);
        },
        Stmt::ClassDef { decorators, bases, body, .. } => {
            lemma_exprs_within(decorators@, fi, mi, t);
            lemma_exprs_within(bases@, fi, mi, t);
            lemma_stmts_within(body@, fi, mi, t);
        },
        Stmt::Return(v) => lemma_opt_within(v, fi, mi, t),
        Stmt::Assign { targets, value } => {
            lemma_exprs_within(targets@, fi, mi, t);
            lemma_expr_within(value, fi, mi, t);
        },
        Stmt::AnnAssign { target, annotation, value } => {
            lemma_expr_within(target, fi, mi, t);
            lemma_expr_within(annotation, fi, mi, t);
            lemma_opt_within(value, fi, mi, t);
        },
        Stmt::AugAssign { target, value } => {
            lemma_expr_within(target, fi, mi, t);
            lemma_expr_within(value, fi, mi, t);
        },
        Stmt::Expr(e) => lemma_expr_within(e, fi, mi, t),
        Stmt::If { test, body, clauses } => {
            lemma_expr_within(test, fi, mi, t);
            lemma_stmts_within(body@, fi, mi, t);
            lemma_clauses_within(clauses@, fi, mi, t);
        },
        Stmt::For { target, iter, body, orelse } => {
            lemma_expr_within(target, fi, mi, t);
            lemma_expr_within(iter, fi, mi, t);
            lemma_stmts_within(body@, fi, mi, t);
            lemma_stmts_within(orelse@, fi, mi, t);
        },
        Stmt::While { test, body, orelse } => {
            lemma_expr_within(test, fi, mi, t);
            lemma_stmts_within(body@, fi, mi, t);
            lemma_stmts_within(orelse@, fi, mi, t);
        },
        Stmt::With { items, body } => {
            lemma_with_within(items@, fi, mi, t);
            lemma_stmts_within(body@, fi, mi, t);
        },
        Stmt::Try { body, handlers, orelse, finalbody } => {
            lemma_stmts_within(body@, fi, mi, t);
            lemma_handlers_within(handlers@, fi, mi, t);
            lemma_stmts_within(orelse@, fi, mi, t);
            lemma_stmts_within(finalbody@, fi, mi, t);
        },
        Stmt::Raise { exc, cause } => {
            lemma_opt_within(exc, fi, mi, t);
            lemma_opt_within(cause, fi, mi, t);
        },
        Stmt::Assert { test, msg } => {
            lemma_expr_within(test, fi, mi, t);
            lemma_opt_within(msg, fi, mi, t);
        },
        Stmt::Delete(targets) => lemma_exprs_within(targets@, fi, mi, t),
        Stmt::TypeAlias { name, value } => {
            lemma_expr_within(name, fi, mi, t);
            lemma_expr_within(value, fi, mi, t);
        },
        Stmt::Import(_) => {},
        Stmt::ImportFrom { .. } => {},
        Stmt::Other => {},
    }
}

proof fn lemma_stmts_within(ss: Seq<Stmt>, fi: Seq<(Seq<char>, Seq<char>, Seq<char>)>, mi: Seq<(Seq<char>, Seq<char>, bool)>, t: Set<Seq<char>>)
    requires
        from_within(fi, t),
        mod_within(mi, t),
    ensures
        uses_within(stmts_uses(ss, fi, mi), t),
    decreases ss,
{
    if ss.len() > 0 {
        lemma_stmts_within(ss.drop_last(), fi, mi, t);
        lemma_stmt_within(ss.last(), fi, mi, t);
    }
}

proof fn lemma_params_within(ps: Seq<Param>, fi: Seq<(Seq<char>, Seq<char>, Seq<char>)>, mi: Seq<(Seq<char>, Seq<char>, bool)>, t: Set<Seq<char>>)
    requires
        from_within(fi, t),
        mod_within(mi, t),
    ensures
        uses_within(params_uses(ps, fi, mi), t),
    decreases ps,
{
    if ps.len() > 0 {
        lemma_params_within(ps.drop_last(), fi, mi, t);
        lemma_opt_within(ps.last().annotation, fi, mi, t);
        lemma_opt_within(ps.last().default, fi, mi, t);
    }
}

proof fn lemma_clauses_within(cs: Seq<ElifElse>, fi: Seq<(Seq<char>, Seq<char>, Seq<char>)>, mi: Seq<(Seq<char>, Seq<char>, bool)>, t: Set<Seq<char>>)
    requires
        from_within(fi, t),
        mod_within(mi, t),
    ensures
        uses_within(clauses_uses(cs, fi, mi), t),
    decreases cs,
{
    if cs.len() > 0 {
        lemma_clauses_within(cs.drop_last(), fi, mi, t);
        lemma_opt_within(cs.last().test, fi, mi, t);
        lemma_stmts_within(cs.last().body@, fi, mi, t);
    }
}

proof fn lemma_with_within(ws: Seq<WithItem>, fi: Seq<(Seq<char>, Seq<char>, Seq<char>)>, mi: Seq<(Seq<char>, Seq<char>, bool)>, t: Set<Seq<char>>)
    requires
        from_within(fi, t),
        mod_within(mi, t),
    ensures
        uses_within(with_uses(ws, fi, mi), t),
    decreases ws,
{
    if ws.len() > 0 {
        lemma_with_within(ws.drop_last(), fi, mi, t);
        lemma_expr_within(ws.last().context_expr, fi, mi, t);
        lemma_opt_within(ws.last().optional_vars, fi, mi, t);
    }
}

proof fn lemma_handlers_within(hs: Seq<Handler>, fi: Seq<(Seq<char>, Seq<char>, Seq<char>)>, mi: Seq<(Seq<char>, Seq<char>, bool)>, t: Set<Seq<char>>)
    requires
        from_within(fi, t),
        mod_within(mi, t),
    ensures
        uses_within(handlers_uses(hs, fi, mi), t),
    decreases hs,
{
    if hs.len() > 0 {
        lemma_handlers_within(hs.drop_last(), fi, mi, t);
        lemma_opt_within(hs.last().type_, fi, mi, t);
        lemma_stmts_within(hs.last().body@, fi, mi, t);
    }
}

// ---------------------------------------------------------------------------
// The usage of a whole module
// ---------------------------------------------------------------------------

/// The text of `s` before its first dot: the local name that `import a.b` binds.
pub open spec fn first_component(s: Seq<char>) -> Seq<char> {
    match find_in(s, '.', 0, s.len() as int) {
        Some(k) => s.take(k),
        None => s,
    }
}

/// What an import records by itself: a star import uses all of its module, a
/// from-import each name it imports, a plain import nothing yet.
pub open spec fn import_base(im: ImportModel) -> Uses {
    if im.2 {
        all_use(im.0)
    } else if im.3 {
        Set::empty()
    } else {
        names_upto(im, im.1.len() as int)
    }
}

/// The uses of the first `j` names that a from-import imports.
pub open spec fn names_upto(im: ImportModel, j: int) -> Uses {
    Set::new(|x: (Seq<char>, Option<Seq<char>>)| exists|k: int| 0 <= k < j && x == (im.0, Some(#[trigger] im.1[k].0)))
}

proof fn lemma_names_upto(im: ImportModel, j: int)
    requires
        0 <= j < im.1.len(),
    ensures
        names_upto(im, j + 1) == names_upto(im, j).insert((im.0, Some(im.1[j].0))),
        names_upto(im, 0) == Set::<(Seq<char>, Option<Seq<char>>)>::empty(),
{
    assert forall|x: (Seq<char>, Option<Seq<char>>)| names_upto(im, j + 1).contains(x) implies
        names_upto(im, j).insert((im.0, Some(im.1[j].0))).contains(x) by {
        let k = choose|k: int| 0 <= k < j + 1 && x == (im.0, Some(#[trigger] im.1[k].0));
        if k < j {
            assert(names_upto(im, j).contains(x));
        }
    }
    assert forall|x: (Seq<char>, Option<Seq<char>>)| names_upto(im, j).insert((im.0, Some(im.1[j].0))).contains(x) implies
        names_upto(im, j + 1).contains(x) by {
        if x != (im.0, Some(im.1[j].0)) {
            let k = choose|k: int| 0 <= k < j && x == (im.0, Some(#[trigger] im.1[k].0));
            assert(0 <= k < j + 1 && x == (im.0, Some(im.1[k].0)));
        } else {
            assert(0 <= j < j + 1 && x == (im.0, Some(im.1[j].0)));
        }
    }
    assert(names_upto(im, j + 1) =~= names_upto(im, j).insert((im.0, Some(im.1[j].0))));
    assert(names_upto(im, 0) =~= Set::<(Seq<char>, Option<Seq<char>>)>::empty());
}

pub open spec fn imports_base(ims: Seq<ImportModel>) -> Uses
    decreases ims.len(),
{
    if ims.len() == 0 {
        Set::empty()
    } else {
        imports_base(ims.drop_last()).union(import_base(ims.last()))
    }
}

/// The (local, module, name) bindings that a from-import makes.
pub open spec fn from_entries(im: ImportModel) -> Seq<(Seq<char>, Seq<char>, Seq<char>)> {
    if !im.2 && !im.3 {
        im.1.map_values(|nl: (Seq<char>, Seq<char>)| (nl.1, im.0, nl.0))
    } else {
        Seq::empty()
    }
}

pub open spec fn from_table(ims: Seq<ImportModel>) -> Seq<(Seq<char>, Seq<char>, Seq<char>)>
    decreases ims.len(),
{
    if ims.len() == 0 {
        Seq::empty()
    } else {
        from_table(ims.drop_last()) + from_entries(ims.last())
    }
}

/// The (local, module, aliased) binding that a plain import makes: `import a.b`
/// binds `a`, and `import a.b as c` binds the alias `c` to the whole module.
pub open spec fn mod_entries(im: ImportModel) -> Seq<(Seq<char>, Seq<char>, bool)> {
    if !im.2 && im.3 {
        if im.1.len() > 0 {
            seq![(im.1[0].1, im.0, true)]
        } else {
            seq![(first_component(im.0), im.0, false)]
        }
    } else {
        Seq::empty()
    }
}

pub open spec fn mod_table(ims: Seq<ImportModel>) -> Seq<(Seq<char>, Seq<char>, bool)>
    decreases ims.len(),
{
    if ims.len() == 0 {
        Seq::empty()
    } else {
        mod_table(ims.drop_last()) + mod_entries(ims.last())
    }
}

/// What module `module_class`, made of the top-level statements `stmts`, uses of
/// each module it imports.
pub open spec fn symbol_usage_of(module_class: Seq<char>, stmts: Seq<Stmt>) -> UsageMap {
    let ims = imports_of(module_class, stmts);
    usage_of(imports_base(ims).union(stmts_uses(stmts, from_table(ims), mod_table(ims))))
}

fn first_component_exec(s: &String) -> (r: String)
    ensures
        r@ == first_component(s@),
{
    let cs = chars_of(s.as_str());
    proof {
        lemma_find_in(cs@, '.', 0, cs@.len() as int);
    }
    match find_char(&cs, '.', 0, cs.len()) {
        Some(k) => {
            let r = string_from_range(&cs, 0, k);
            assert(r@ =~= cs@.take(k as int));
            r
        },
        None => s.clone(),
    }
}

/// Extract symbol-level usage information from the top-level statements of
/// module `module_class`.
///
/// Determines which specific symbols each import actually uses,
/// enabling fine-grained dependency tracking.
pub fn extract_symbol_usage(module_class: &str, stmts: &Vec<Stmt>) -> (r: ModuleSymbolUsage)
    ensures
        r.wf(),
        r@ == symbol_usage_of(module_class@, stmts@),
{
    let imports = parse_import_statements(module_class, stmts);
    let ghost ims = imports_of(module_class@, stmts@);
    let mut result = ModuleSymbolUsage::new();
    assert(usage_of(Set::empty()) =~= result@);
    let mut fi: Vec<(String, String, String)> = Vec::new();
    let mut mi: Vec<(String, String, bool)> = Vec::new();
    let mut i: usize = 0;
    assert(ims.take(0) =~= Seq::<ImportModel>::empty());
    assert(from_view(fi@) =~= Seq::<(Seq<char>, Seq<char>, Seq<char>)>::empty());
    assert(mod_view(mi@) =~= Seq::<(Seq<char>, Seq<char>, bool)>::empty());
    while i < imports.len()
        invariant
            i <= imports@.len(),
            imports_view(imports@) == ims,
            result.wf(),
            result@ == usage_of(imports_base(ims.take(i as int))),
            from_view(fi@) == from_table(ims.take(i as int)),
            mod_view(mi@) == mod_table(ims.take(i as int)),
        decreases imports@.len() - i,
    {
        let ghost pre = ims.take(i as int);
        assert(ims.take(i + 1).drop_last() =~= pre);
        assert(ims.take(i + 1).last() == imports@[i as int]@);
        let imp = &imports[i];
        let ghost im = imp@;
        if imp.is_star {
            record_whole(&mut result, imp.module.as_str(), Ghost(imports_base(pre)));
            assert(from_view(fi@) =~= from_table(ims.take(i + 1)));
            assert(mod_view(mi@) =~= mod_table(ims.take(i + 1)));
        } else if imp.is_module_import {
            let ghost before = mi@;
            if imp.names.len() > 0 {
                assert(im.1[0] == imp.names@[0]@);
                mi.push((imp.names[0].local.clone(), imp.module.clone(), true));
            } else {
                let local = first_component_exec(&imp.module);
                mi.push((local, imp.module.clone(), false));
            }
            assert(mod_view(mi@) =~= mod_view(before) + mod_entries(im));
            assert(from_view(fi@) =~= from_table(ims.take(i + 1)));
            assert(imports_base(pre).union(import_base(im)) =~= imports_base(pre));
        } else {
            let ghost fi0 = from_view(fi@);
            let ghost base0 = imports_base(pre);
            let mut j: usize = 0;
            assert(names_upto(im, 0) =~= Set::<(Seq<char>, Option<Seq<char>>)>::empty());
            assert(base0.union(names_upto(im, 0)) =~= base0);
            assert(from_entries(im).take(0) =~= Seq::<(Seq<char>, Seq<char>, Seq<char>)>::empty());
            assert(fi0 + from_entries(im).take(0) =~= fi0);
            while j < imp.names.len()
                invariant
                    j <= im.1.len(),
                    im == imp@,
                    !im.2 && !im.3,
                    result.wf(),
                    result@ == usage_of(base0.union(names_upto(im, j as int))),
                    from_view(fi@) == fi0 + from_entries(im).take(j as int),
                decreases im.1.len() - j,
            {
                let ghost uj = base0.union(names_upto(im, j as int));
                assert(imp.names@[j as int]@ == im.1[j as int]);
                record_one(&mut result, imp.module.as_str(), imp.names[j].name.as_str(), Ghost(uj));
                let ghost before = fi@;
                fi.push((imp.names[j].local.clone(), imp.module.clone(), imp.names[j].name.clone()));
                assert(from_view(fi@) =~= fi0 + from_entries(im).take(j + 1)) by {
                    assert(from_view(fi@) =~= from_view(before).push((imp.names@[j as int].local@, imp.module@, imp.names@[j as int].name@)));
                    assert(from_entries(im).take(j + 1) =~= from_entries(im).take(j as int).push(from_entries(im)[j as int]));
                }
                proof {
                    lemma_names_upto(im, j as int);
                }
                assert(uj.union(one_use(imp.module@, imp.names@[j as int].name@)) =~= base0.union(names_upto(im, j + 1)));
                j = j + 1;
            }
            assert(from_entries(im).take(im.1.len() as int) =~= from_entries(im));
            assert(from_view(fi@) =~= from_table(ims.take(i + 1)));
            assert(mod_view(mi@) =~= mod_table(ims.take(i + 1)));
        }
        i = i + 1;
    }
    assert(ims.take(imports@.len() as int) =~= ims);
    walk_stmts(stmts, &fi, &mi, &mut result, Ghost(imports_base(ims)));
    result
}

/// The import `im` names a module of `t`, and so does each submodule that the
/// names of a from-import may be.
pub open spec fn model_within(im: ImportModel, t: Set<Seq<char>>) -> bool {
    &&& t.contains(im.0)
    &&& !im.2 && !im.3 ==> forall|k: int| #![trigger im.1[k]] 0 <= k < im.1.len() ==> t.contains(im.0 + seq!['.'] + im.1[k].0)
}

proof fn lemma_models_within(ims: Seq<ImportModel>, t: Set<Seq<char>>)
    requires
        forall|j: int| 0 <= j < ims.len() ==> model_within(#[trigger] ims[j], t),
    ensures
        mod_within(mod_table(ims), t),
        from_within(from_table(ims), t),
        uses_within(imports_base(ims), t),
    decreases ims.len(),
{
    if ims.len() > 0 {
        let pre = ims.drop_last();
        let im = ims.last();
        assert forall|j: int| 0 <= j < pre.len() implies model_within(#[trigger] pre[j], t) by {
            assert(pre[j] == ims[j]);
        }
        lemma_models_within(pre, t);
        assert(model_within(ims[ims.len() - 1], t));
        assert(im == ims[ims.len() - 1]);
        let mt = mod_table(ims);
        assert(mt == mod_table(pre) + mod_entries(im));
        assert forall|k: int| 0 <= k < mt.len() implies t.contains(#[trigger] mt[k].1) by {
            if k >= mod_table(pre).len() {
                assert(mt[k] == mod_entries(im)[k - mod_table(pre).len()]);
            } else {
                assert(mt[k] == mod_table(pre)[k]);
            }
        }
        let ft = from_table(ims);
        assert(ft == from_table(pre) + from_entries(im));
        assert forall|k: int| 0 <= k < ft.len() implies t.contains(#[trigger] ft[k].1) && t.contains(ft[k].1 + seq!['.'] + ft[k].2) by {
            if k >= from_table(pre).len() {
                let j = k - from_table(pre).len();
                assert(ft[k] == from_entries(im)[j]);
                assert(from_entries(im)[j] == (im.1[j].1, im.0, im.1[j].0));
            } else {
                assert(ft[k] == from_table(pre)[k]);
            }
        }
        assert forall|x: (Seq<char>, Option<Seq<char>>)| #[trigger] import_base(im).contains(x) implies t.contains(x.0) by {
            if !im.2 && !im.3 {
                let k = choose|k: int| 0 <= k < im.1.len() && x == (im.0, Some(#[trigger] im.1[k].0));
            }
        }
    }
}

proof fn lemma_stmt_models_within(module_class: Seq<char>, st: Stmt, t: Set<Seq<char>>)
    requires
        stmt_targets(module_class, st).subset_of(t),
    ensures
        forall|j: int| 0 <= j < stmt_imports(module_class, st).len() ==> model_within(#[trigger] stmt_imports(module_class, st)[j], t),
{
    let ms = stmt_imports(module_class, st);
    match st {
        Stmt::Import(aliases) => {
            let f = |i: int| alias_import_targets(aliases@[i].name@);
            assert forall|j: int| 0 <= j < ms.len() implies model_within(#[trigger] ms[j], t) by {
                let n = aliases@[j].name@;
                assert(ms[j] == plain_model(aliases@[j]));
                assert(f(j).contains(n));
                assert(union_upto(f, aliases@.len() as int).contains(n));
            }
        },
        Stmt::ImportFrom { module, names, level } => match from_base(module_class, module, level) {
            None => {},
            Some(b) => {
                let f = |i: int| alias_from_targets(b, names@[i].name@);
                assert(stmt_targets(module_class, st).contains(b));
                if !(exists|i: int| 0 <= i < names@.len() && (#[trigger] names@[i]).name@ == star_text()) {
                    let im = ms[0];
                    assert(im == (b, names@.map_values(|a: Alias| (a.name@, local_of(a))), false, false));
                    assert forall|k: int| #![trigger im.1[k]] 0 <= k < im.1.len() implies t.contains(im.0 + seq!['.'] + im.1[k].0) by {
                        assert(im.1[k].0 == names@[k].name@);
                        assert(f(k).contains(b + seq!['.'] + names@[k].name@));
                        assert(union_upto(f, names@.len() as int).contains(b + seq!['.'] + names@[k].name@));
                    }
                }
            },
        },
        _ => {},
    }
}

proof fn lemma_imports_of_within(module_class: Seq<char>, ss: Seq<Stmt>, t: Set<Seq<char>>)
    requires
        forall|i: int| 0 <= i < ss.len() ==> stmt_targets(module_class, #[trigger] ss[i]).subset_of(t),
    ensures
        forall|j: int| 0 <= j < imports_of(module_class, ss).len() ==> model_within(#[trigger] imports_of(module_class, ss)[j], t),
    decreases ss.len(),
{
    if ss.len() > 0 {
        let pre = ss.drop_last();
        assert forall|i: int| 0 <= i < pre.len() implies stmt_targets(module_class, #[trigger] pre[i]).subset_of(t) by {
            assert(pre[i] == ss[i]);
        }
        lemma_imports_of_within(module_class, pre, t);
        assert(ss.last() == ss[ss.len() - 1]);
        lemma_stmt_models_within(module_class, ss.last(), t);
        let a = imports_of(module_class, pre);
        let b = stmt_imports(module_class, ss.last());
        assert(imports_of(module_class, ss) == a + b);
        assert forall|j: int| 0 <= j < imports_of(module_class, ss).len() implies model_within(#[trigger] imports_of(module_class, ss)[j], t) by {
            if j < a.len() {
                assert((a + b)[j] == a[j]);
            } else {
                assert((a + b)[j] == b[j - a.len()]);
            }
        }
    }
}

/// Every module that a module's symbol usage names is one of the modules it
/// may import: usage never reaches a module that no import statement names.
pub proof fn lemma_usage_within_imports(module_class: Seq<char>, stmts: Seq<Stmt>)
    ensures
        forall|m: Seq<char>| #[trigger] symbol_usage_of(module_class, stmts).contains_key(m)
            ==> import_targets(module_class, stmts).contains(m),
{
    let t = import_targets(module_class, stmts);
    let f = |i: int| stmt_targets(module_class, stmts[i]);
    assert forall|i: int| 0 <= i < stmts.len() implies stmt_targets(module_class, #[trigger] stmts[i]).subset_of(t) by {
        assert forall|x: Seq<char>| stmt_targets(module_class, stmts[i]).contains(x) implies t.contains(x) by {
            assert(f(i).contains(x));
        }
    }
    let ims = imports_of(module_class, stmts);
    lemma_imports_of_within(module_class, stmts, t);
    lemma_models_within(ims, t);
    lemma_stmts_within(stmts, from_table(ims), mod_table(ims), t);
    let u = imports_base(ims).union(stmts_uses(stmts, from_table(ims), mod_table(ims)));
    assert(uses_within(u, t));
    assert forall|m: Seq<char>| #[trigger] symbol_usage_of(module_class, stmts).contains_key(m) implies t.contains(m) by {
        let o = choose|o: Option<Seq<char>>| u.contains((m, o));
        assert(u.contains((m, o)));
    }
}

// ---------------------------------------------------------------------------
// Every part of a node is walked
// ---------------------------------------------------------------------------

proof fn lemma_exprs_uses_has(es: Seq<Expr>, c: Expr, fi: Seq<(Seq<char>, Seq<char>, Seq<char>)>, mi: Seq<(Seq<char>, Seq<char>, bool)>)
    requires
        es.contains(c),
    ensures
        expr_uses(c, fi, mi).subset_of(exprs_uses(es, fi, mi)),
    decreases es.len(),
{
    if es.last() != c {
        assert(es.drop_last().contains(c)) by {
            let i = choose|i: int| 0 <= i < es.len() && es[i] == c;
            assert(es.drop_last()[i] == c);
        }
        lemma_exprs_uses_has(es.drop_last(), c, fi, mi);
    }
}

proof fn lemma_dict_uses_at(items: Seq<DictItem>, i: int, fi: Seq<(Seq<char>, Seq<char>, Seq<char>)>, mi: Seq<(Seq<char>, Seq<char>, bool)>)
    requires
        0 <= i < items.len(),
    ensures
        opt_uses(items[i].key, fi, mi).subset_of(dict_uses(items, fi, mi)),
        expr_uses(items[i].value, fi, mi).subset_of(dict_uses(items, fi, mi)),
    decreases items.len(),
{
    if i < items.len() - 1 {
        lemma_dict_uses_at(items.drop_last(), i, fi, mi);
        assert(items.drop_last()[i] == items[i]);
    }
}

proof fn lemma_comps_uses_at(comps: Seq<Comprehension>, i: int, fi: Seq<(Seq<char>, Seq<char>, Seq<char>)>, mi: Seq<(Seq<char>, Seq<char>, bool)>)
    requires
        0 <= i < comps.len(),
    ensures
        expr_uses(comps[i].target, fi, mi).subset_of(comps_uses(comps, fi, mi)),
        expr_uses(comps[i].iter, fi, mi).subset_of(comps_uses(comps, fi, mi)),
        exprs_uses(comps[i].ifs@, fi, mi).subset_of(comps_uses(comps, fi, mi)),
    decreases comps.len(),
{
    if i < comps.len() - 1 {
        lemma_comps_uses_at(comps.drop_last(), i, fi, mi);
        assert(comps.drop_last()[i] == comps[i]);
    }
}

proof fn lemma_comp_part_uses(comps: Seq<Comprehension>, c: Expr, fi: Seq<(Seq<char>, Seq<char>, Seq<char>)>, mi: Seq<(Seq<char>, Seq<char>, bool)>)
    requires
        comp_part(comps, c),
    ensures
        expr_uses(c, fi, mi).subset_of(comps_uses(comps, fi, mi)),
{
    let i = choose|i: int| 0 <= i < comps.len()
        && ((#[trigger] comps[i]).target == c || comps[i].iter == c || comps[i].ifs@.contains(c));
    lemma_comps_uses_at(comps, i, fi, mi);
    if comps[i].ifs@.contains(c) {
        lemma_exprs_uses_has(comps[i].ifs@, c, fi, mi);
    }
}

/// What an expression records holds what each of its immediate parts records;
/// the parts of an f-string are not read. The other exceptions are where the expression records an import's use in their
/// place: an attribute chain that reaches a symbol of an imported module (or a
/// submodule bound by a from-import) records that symbol, and `getattr` on a
/// plainly imported module records all of it.
pub proof fn lemma_expr_uses_cover_parts(e: Expr, c: Expr, fi: Seq<(Seq<char>, Seq<char>, Seq<char>)>, mi: Seq<(Seq<char>, Seq<char>, bool)>)
    ensures
        expr_child(e, c) && !(e is Attribute) && !(e is FString)
            && !(e matches Expr::Call(f, args, _) && getattr_module(*f, args@, mi) is Some)
            ==> expr_uses(c, fi, mi).subset_of(expr_uses(e, fi, mi)),
        e matches Expr::Attribute(v, a) ==> match resolve_chain(e, mi) {
            Some(p) => expr_uses(e, fi, mi).contains((p.0, Some(p.1))),
            None => match from_submodule(*v, fi) {
                Some(m) => expr_uses(e, fi, mi).contains((m, Some(a@))),
                None => expr_uses(*v, fi, mi).subset_of(expr_uses(e, fi, mi)),
            },
        },
        e matches Expr::Call(f, args, _) ==> (getattr_module(*f, args@, mi) matches Some(m)
            ==> expr_uses(e, fi, mi).contains((m, None::<Seq<char>>))),
{
    if expr_child(e, c) && !(e is Attribute) && !(e is FString)
        && !(e matches Expr::Call(f, args, _) && getattr_module(*f, args@, mi) is Some) {
        match e {
            Expr::Call(f, args, kws) => {
                assert(getattr_module(*f, args@, mi) is None);
                if args@.contains(c) {
                    lemma_exprs_uses_has(args@, c, fi, mi);
                } else if kws@.contains(c) {
                    lemma_exprs_uses_has(kws@, c, fi, mi);
                }
            },
            Expr::BoolOp(vs) => lemma_exprs_uses_has(vs@, c, fi, mi),
            Expr::Compare(l, cs) => {
                if cs@.contains(c) {
                    lemma_exprs_uses_has(cs@, c, fi, mi);
                }
            },
            Expr::Dict(items) => {
                let i = choose|i: int| 0 <= i < items@.len()
                    && ((#[trigger] items@[i]).key == Some(c) || items@[i].value == c);
                lemma_dict_uses_at(items@, i, fi, mi);
            },
            Expr::List(es) => lemma_exprs_uses_has(es@, c, fi, mi),
            Expr::Tuple(es) => lemma_exprs_uses_has(es@, c, fi, mi),
            Expr::SetDisplay(es) => lemma_exprs_uses_has(es@, c, fi, mi),
            Expr::Generator(elt, comps) => {
                if comp_part(comps@, c) {
                    lemma_comp_part_uses(comps@, c, fi, mi);
                }
            },
            Expr::ListComp(elt, comps) => {
                if comp_part(comps@, c) {
                    lemma_comp_part_uses(comps@, c, fi, mi);
                }
            },
            Expr::SetComp(elt, comps) => {
                if comp_part(comps@, c) {
                    lemma_comp_part_uses(comps@, c, fi, mi);
                }
            },
            Expr::DictComp(k, v, comps) => {
                if comp_part(comps@, c) {
                    lemma_comp_part_uses(comps@, c, fi, mi);
                }
            },
            _ => {},
        }
        assert(expr_uses(c, fi, mi).subset_of(expr_uses(e, fi, mi)));
    }
    match e {
        Expr::Attribute(v, a) => {
            match resolve_chain(e, mi) {
                Some(p) => {
                    assert(expr_uses(e, fi, mi) == one_use(p.0, p.1));
                },
                None => {
                    match from_submodule(*v, fi) {
                        Some(m) => {
                            assert(expr_uses(e, fi, mi) == one_use(m, a@));
                        },
                        None => {
                            assert(expr_uses(e, fi, mi) == expr_uses(*v, fi, mi));
                        },
                    }
                },
            }
        },
        Expr::Call(f, args, kws) => {
            match getattr_module(*f, args@, mi) {
                Some(m) => {
                    assert(expr_uses(e, fi, mi) == all_use(m));
                },
                None => {},
            }
        },
        _ => {},
    }
}

proof fn lemma_stmts_uses_has(ss: Seq<Stmt>, c: Stmt, fi: Seq<(Seq<char>, Seq<char>, Seq<char>)>, mi: Seq<(Seq<char>, Seq<char>, bool)>)
    requires
        ss.contains(c),
    ensures
        stmt_uses(c, fi, mi).subset_of(stmts_uses(ss, fi, mi)),
    decreases ss.len(),
{
    if ss.last() != c {
        assert(ss.drop_last().contains(c)) by {
            let i = choose|i: int| 0 <= i < ss.len() && ss[i] == c;
            assert(ss.drop_last()[i] == c);
        }
        lemma_stmts_uses_has(ss.drop_last(), c, fi, mi);
    }
}

proof fn lemma_params_uses_at(ps: Seq<Param>, i: int, fi: Seq<(Seq<char>, Seq<char>, Seq<char>)>, mi: Seq<(Seq<char>, Seq<char>, bool)>)
    requires
        0 <= i < ps.len(),
    ensures
        opt_uses(ps[i].annotation, fi, mi).subset_of(params_uses(ps, fi, mi)),
        opt_uses(ps[i].default, fi, mi).subset_of(params_uses(ps, fi, mi)),
    decreases ps.len(),
{
    if i < ps.len() - 1 {
        lemma_params_uses_at(ps.drop_last(), i, fi, mi);
        assert(ps.drop_last()[i] == ps[i]);
    }
}

proof fn lemma_clauses_uses_at(cs: Seq<ElifElse>, i: int, fi: Seq<(Seq<char>, Seq<char>, Seq<char>)>, mi: Seq<(Seq<char>, Seq<char>, bool)>)
    requires
        0 <= i < cs.len(),
    ensures
        opt_uses(cs[i].test, fi, mi).subset_of(clauses_uses(cs, fi, mi)),
        stmts_uses(cs[i].body@, fi, mi).subset_of(clauses_uses(cs, fi, mi)),
    decreases cs.len(),
{
    if i < cs.len() - 1 {
        lemma_clauses_uses_at(cs.drop_last(), i, fi, mi);
        assert(cs.drop_last()[i] == cs[i]);
    }
}

proof fn lemma_with_uses_at(ws: Seq<WithItem>, i: int, fi: Seq<(Seq<char>, Seq<char>, Seq<char>)>, mi: Seq<(Seq<char>, Seq<char>, bool)>)
    requires
        0 <= i < ws.len(),
    ensures
        expr_uses(ws[i].context_expr, fi, mi).subset_of(with_uses(ws, fi, mi)),
        opt_uses(ws[i].optional_vars, fi, mi).subset_of(with_uses(ws, fi, mi)),
    decreases ws.len(),
{
    if i < ws.len() - 1 {
        lemma_with_uses_at(ws.drop_last(), i, fi, mi);
        assert(ws.drop_last()[i] == ws[i]);
    }
}

proof fn lemma_handlers_uses_at(hs: Seq<Handler>, i: int, fi: Seq<(Seq<char>, Seq<char>, Seq<char>)>, mi: Seq<(Seq<char>, Seq<char>, bool)>)
    requires
        0 <= i < hs.len(),
    ensures
        opt_uses(hs[i].type_, fi, mi).subset_of(handlers_uses(hs, fi, mi)),
        stmts_uses(hs[i].body@, fi, mi).subset_of(handlers_uses(hs, fi, mi)),
    decreases hs.len(),
{
    if i < hs.len() - 1 {
        lemma_handlers_uses_at(hs.drop_last(), i, fi, mi);
        assert(hs.drop_last()[i] == hs[i]);
    }
}

/// What a statement records holds what each expression standing in it records
/// (a class's keyword arguments aside, which are not read) and what each
/// statement of its bodies records: uses anywhere inside a function, a class,
/// an `if` and its clauses, a loop, a `with` or a `try` are recorded.
pub proof fn lemma_stmt_uses_cover_parts(s: Stmt, e: Expr, c: Stmt, fi: Seq<(Seq<char>, Seq<char>, Seq<char>)>, mi: Seq<(Seq<char>, Seq<char>, bool)>)
    ensures
        stmt_expr_child(s, e) && !(s matches Stmt::ClassDef { keywords, .. } && keywords@.contains(e))
            ==> expr_uses(e, fi, mi).subset_of(stmt_uses(s, fi, mi)),
        stmt_child(s, c) ==> stmt_uses(c, fi, mi).subset_of(stmt_uses(s, fi, mi)),
{
    if stmt_expr_child(s, e) && !(s matches Stmt::ClassDef { keywords, .. } && keywords@.contains(e)) {
        match s {
            Stmt::FunctionDef { decorators, params, return_type, .. } => {
                if decorators@.contains(e) {
                    lemma_exprs_uses_has(decorators@, e, fi, mi);
                } else if return_type != Some(e) {
                    let i = choose|i: int| 0 <= i < params@.len()
                        && ((#[trigger] params@[i]).annotation == Some(e) || params@[i].default == Some(e));
                    lemma_params_uses_at(params@, i, fi, mi);
                }
            },
            Stmt::ClassDef { decorators, bases, .. } => {
                if decorators@.contains(e) {
                    lemma_exprs_uses_has(decorators@, e, fi, mi);
                } else {
                    lemma_exprs_uses_has(bases@, e, fi, mi);
                }
            },
            Stmt::Assign { targets, value } => {
                if targets@.contains(e) {
                    lemma_exprs_uses_has(targets@, e, fi, mi);
                }
            },
            Stmt::If { test, clauses, .. } => {
                if test != e {
                    let i = choose|i: int| 0 <= i < clauses@.len() && (#[trigger] clauses@[i]).test == Some(e);
                    lemma_clauses_uses_at(clauses@, i, fi, mi);
                }
            },
            Stmt::With { items, .. } => {
                let i = choose|i: int| 0 <= i < items@.len()
                    && ((#[trigger] items@[i]).context_expr == e || items@[i].optional_vars == Some(e));
                lemma_with_uses_at(items@, i, fi, mi);
            },
            Stmt::Try { handlers, .. } => {
                let i = choose|i: int| 0 <= i < handlers@.len() && (#[trigger] handlers@[i]).type_ == Some(e);
                lemma_handlers_uses_at(handlers@, i, fi, mi);
            },
            Stmt::Delete(targets) => lemma_exprs_uses_has(targets@, e, fi, mi),
            _ => {},
        }
    }
    if stmt_child(s, c) {
        match s {
            Stmt::FunctionDef { body, .. } => lemma_stmts_uses_has(body@, c, fi, mi),
            Stmt::ClassDef { body, .. } => lemma_stmts_uses_has(body@, c, fi, mi),
            Stmt::If { body, clauses, .. } => {
                if body@.contains(c) {
                    lemma_stmts_uses_has(body@, c, fi, mi);
                } else {
                    let i = choose|i: int| 0 <= i < clauses@.len() && (#[trigger] clauses@[i]).body@.contains(c);
                    lemma_stmts_uses_has(clauses@[i].body@, c, fi, mi);
                    lemma_clauses_uses_at(clauses@, i, fi, mi);
                }
            },
            Stmt::For { body, orelse, .. } => {
                if body@.contains(c) {
                    lemma_stmts_uses_has(body@, c, fi, mi);
                } else {
                    lemma_stmts_uses_has(orelse@, c, fi, mi);
                }
            },
            Stmt::While { body, orelse, .. } => {
                if body@.contains(c) {
                    lemma_stmts_uses_has(body@, c, fi, mi);
                } else {
                    lemma_stmts_uses_has(orelse@, c, fi, mi);
                }
            },
            Stmt::With { body, .. } => lemma_stmts_uses_has(body@, c, fi, mi),
            Stmt::Try { body, handlers, orelse, finalbody } => {
                if body@.contains(c) {
                    lemma_stmts_uses_has(body@, c, fi, mi);
                } else if orelse@.contains(c) {
                    lemma_stmts_uses_has(orelse@, c, fi, mi);
                } else if finalbody@.contains(c) {
                    lemma_stmts_uses_has(finalbody@, c, fi, mi);
                } else {
                    let i = choose|i: int| 0 <= i < handlers@.len() && (#[trigger] handlers@[i]).body@.contains(c);
                    lemma_stmts_uses_has(handlers@[i].body@, c, fi, mi);
                    lemma_handlers_uses_at(handlers@, i, fi, mi);
                }
            },
            _ => {},
        }
    }
}

/// The usage map `u` covers the recorded use `x`: a use of all of a module maps
/// it to all, a use of one symbol to all or to a set that holds the symbol.
pub open spec fn covers(u: UsageMap, x: (Seq<char>, Option<Seq<char>>)) -> bool {
    &&& u.contains_key(x.0)
    &&& match x.1 {
        Some(s) => match u[x.0] {
            Some(names) => names.contains(s),
            None => true,
        },
        None => u[x.0] is None,
    }
}

/// Every use that a top-level statement of a module records, through the
/// module's own imports, is in the module's usage.
pub proof fn lemma_statement_uses_recorded(
    module_class: Seq<char>,
    stmts: Seq<Stmt>,
    i: int,
    x: (Seq<char>, Option<Seq<char>>),
)
    requires
        0 <= i < stmts.len(),
        stmt_uses(stmts[i], from_table(imports_of(module_class, stmts)), mod_table(imports_of(module_class, stmts))).contains(x),
    ensures
        covers(symbol_usage_of(module_class, stmts), x),
{
    let ims = imports_of(module_class, stmts);
    let fi = from_table(ims);
    let mi = mod_table(ims);
    assert(stmts.contains(stmts[i]));
    lemma_stmts_uses_has(stmts, stmts[i], fi, mi);
    let u = imports_base(ims).union(stmts_uses(stmts, fi, mi));
    assert(u.contains(x));
    let um = usage_of(u);
    assert(um.contains_key(x.0));
    match x.1 {
        Some(s) => {
            if !u.contains((x.0, None::<Seq<char>>)) {
                assert(um[x.0] == Some(Set::new(|t: Seq<char>| u.contains((x.0, Some(t))))));
            }
        },
        None => {},
    }
}

/// A bare name records the import that binds it: the imported symbol for a name
/// bound by a from-import, the whole module for a name bound by a plain import.
pub proof fn lemma_name_uses(n: String, fi: Seq<(Seq<char>, Seq<char>, Seq<char>)>, mi: Seq<(Seq<char>, Seq<char>, bool)>)
    ensures
        from_lookup(fi, n@) matches Some(p) ==> expr_uses(Expr::Name(n), fi, mi).contains((p.0, Some(p.1))),
        mod_lookup(mi, n@) matches Some(m) ==> expr_uses(Expr::Name(n), fi, mi).contains((m, None::<Seq<char>>)),
{
}

/// An attribute `y.s` of a name `y` bound to module `m` by a plain import
/// records the use of `s` of `m`: `y` being an alias (`import m as y`), or `m`
/// itself (`import m`).
pub proof fn lemma_module_attr_uses(y: String, s: String, fi: Seq<(Seq<char>, Seq<char>, Seq<char>)>, mi: Seq<(Seq<char>, Seq<char>, bool)>)
    ensures
        mod_lookup(mi, y@) matches Some(m) ==> (mod_aliased(mi, y@) || m == y@ ==>
            expr_uses(Expr::Attribute(Box::new(Expr::Name(y)), s), fi, mi).contains((m, Some(s@)))),
{
    let e = Expr::Attribute(Box::new(Expr::Name(y)), s);
    let parts = seq![y@, s@];
    assert(chain_of(Expr::Name(y)) == Some(seq![y@]));
    assert(seq![y@].push(s@) =~= parts);
    assert(chain_of(e) == Some(parts));
    assert(parts.drop_last() =~= seq![y@]);
    assert(join(seq![y@], '.') == y@) by {
        reveal_with_fuel(join, 2);
    }
}

} // verus!
