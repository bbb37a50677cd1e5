//! Top-level symbols of a module and the other top-level names each refers to.
use vstd::prelude::*;
use crate::pyast::{Expr, DictItem, Comprehension, Stmt, Param, ElifElse, WithItem, Handler, expr_child, comp_part,
    stmt_expr_child, stmt_child};
use crate::strs::{sset, nodup, insert, contains, lemma_empty, lemma_sset_push};
use crate::symbols::{Symbol, SymbolKind};

verus! {

// ---------------------------------------------------------------------------
// The names an expression or statement mentions
// ---------------------------------------------------------------------------

/// The names that the expression `e` mentions, in every position the reference scan reads.
pub open spec fn expr_names(e: Expr) -> Set<Seq<char>>
    decreases e,
{
    match e {
        Expr::Name(n) => Set::empty().insert(n@),
        Expr::Attribute(v, _) => expr_names(*v),
        Expr::Call(f, args, kws) => expr_names(*f) + exprs_names(args@) + exprs_names(kws@),
        Expr::BoolOp(vs) => exprs_names(vs@),
        Expr::Compare(l, cs) => expr_names(*l) + exprs_names(cs@),
        Expr::BinOp(l, r) => expr_names(*l) + expr_names(*r),
        Expr::UnaryOp(o) => expr_names(*o),
        Expr::If(t, b, o) => expr_names(*t) + expr_names(*b) + expr_names(*o),
        Expr::Lambda(b) => expr_names(*b),
        Expr::Dict(items) => dict_names(items@),
        Expr::List(es) => exprs_names(es@),
        Expr::Tuple(es) => exprs_names(es@),
        Expr::SetDisplay(es) => exprs_names(es@),
        Expr::Subscript(v, s) => expr_names(*v) + expr_names(*s),
        Expr::Starred(v) => expr_names(*v),
        Expr::Await(v) => expr_names(*v),
        Expr::Yield(o) => match o {
            Some(v) => expr_names(*v),
            None => Set::empty(),
        },
        Expr::YieldFrom(v) => expr_names(*v),
        Expr::Generator(elt, comps) => expr_names(*elt) + comps_names(comps@),
        Expr::ListComp(elt, comps) => expr_names(*elt) + comps_names(comps@),
        Expr::SetComp(elt, comps) => expr_names(*elt) + comps_names(comps@),
        Expr::DictComp(k, v, comps) => expr_names(*k) + expr_names(*v) + comps_names(comps@),
        Expr::FString(es) => exprs_names(es@),
        Expr::Named(t, v) => expr_names(*t) + expr_names(*v),
        Expr::Other => Set::empty(),
    }
}

/// The names that the expressions `es` mention.
pub open spec fn exprs_names(es: Seq<Expr>) -> Set<Seq<char>>
    decreases es,
{
    if es.len() == 0 {
        Set::empty()
    } else {
        exprs_names(es.drop_last()) + expr_names(es.last())
    }
}

/// The names that an optional expression mentions.
pub open spec fn opt_names(o: Option<Expr>) -> Set<Seq<char>>
    decreases o,
{
    match o {
        Some(e) => expr_names(e),
        None => Set::empty(),
    }
}

/// The names that the items of a dict display mention.
pub open spec fn dict_names(items: Seq<DictItem>) -> Set<Seq<char>>
    decreases items,
{
    if items.len() == 0 {
        Set::empty()
    } else {
        dict_names(items.drop_last()) + opt_names(items.last().key) + expr_names(items.last().value)
    }
}

/// The names that the clauses of a comprehension mention.
pub open spec fn comps_names(comps: Seq<Comprehension>) -> Set<Seq<char>>
    decreases comps,
{
    if comps.len() == 0 {
        Set::empty()
    } else {
        comps_names(comps.drop_last()) + expr_names(comps.last().target) + expr_names(comps.last().iter)
            + exprs_names(comps.last().ifs@)
    }
}

/// The names that a statement mentions, its nested statements included.
pub open spec fn stmt_names(s: Stmt) -> Set<Seq<char>>
    decreases s,
{
    match s {
        Stmt::FunctionDef { decorators, params, return_type, body, .. } => exprs_names(decorators@) + params_names(params@)
            + opt_names(return_type) + stmts_names(body@),
        Stmt::ClassDef { decorators, bases, keywords, body, .. } => exprs_names(decorators@) + exprs_names(bases@)
            + exprs_names(keywords@) + stmts_names(body@),
        Stmt::Return(v) => opt_names(v),
        Stmt::Assign { targets, value } => exprs_names(targets@) + expr_names(value),
        Stmt::AnnAssign { target, annotation, value } => expr_names(target) + expr_names(annotation) + opt_names(value),
        Stmt::AugAssign { target, value } => expr_names(target) + expr_names(value),
        Stmt::Expr(e) => expr_names(e),
        Stmt::If { test, body, clauses } => expr_names(test) + stmts_names(body@) + clauses_names(clauses@),
        Stmt::For { target, iter, body, orelse } => expr_names(target) + expr_names(iter) + stmts_names(body@)
            + stmts_names(orelse@),
        Stmt::While { test, body, orelse } => expr_names(test) + stmts_names(body@) + stmts_names(orelse@),
        Stmt::With { items, body } => with_names(items@) + stmts_names(body@),
        Stmt::Try { body, handlers, orelse, finalbody } => stmts_names(body@) + handlers_names(handlers@)
            + stmts_names(orelse@) + stmts_names(finalbody@),
        Stmt::Raise { exc, cause } => opt_names(exc) + opt_names(cause),
        Stmt::Assert { test, msg } => expr_names(test) + opt_names(msg),
        Stmt::Delete(targets) => exprs_names(targets@),
        Stmt::TypeAlias { name, value } => expr_names(name) + expr_names(value),
        Stmt::Import(_) => Set::empty(),
        Stmt::ImportFrom { .. } => Set::empty(),
        Stmt::Other => Set::empty(),
    }
}

/// The names that the statements `ss` mention.
pub open spec fn stmts_names(ss: Seq<Stmt>) -> Set<Seq<char>>
    decreases ss,
{
    if ss.len() == 0 {
        Set::empty()
    } else {
        stmts_names(ss.drop_last()) + stmt_names(ss.last())
    }
}

/// The names that parameter annotations and defaults mention.
pub open spec fn params_names(ps: Seq<Param>) -> Set<Seq<char>>
    decreases ps,
{
    if ps.len() == 0 {
        Set::empty()
    } else {
        params_names(ps.drop_last()) + opt_names(ps.last().annotation) + opt_names(ps.last().default)
    }
}

/// The names that `elif`/`else` clauses mention.
pub open spec fn clauses_names(cs: Seq<ElifElse>) -> Set<Seq<char>>
    decreases cs,
{
    if cs.len() == 0 {
        Set::empty()
    } else {
        clauses_names(cs.drop_last()) + opt_names(cs.last().test) + stmts_names(cs.last().body@)
    }
}

/// The names that the items of a `with` statement mention.
pub open spec fn with_names(ws: Seq<WithItem>) -> Set<Seq<char>>
    decreases ws,
{
    if ws.len() == 0 {
        Set::empty()
    } else {
        with_names(ws.drop_last()) + expr_names(ws.last().context_expr) + opt_names(ws.last().optional_vars)
    }
}

/// The names that exception handlers mention.
pub open spec fn handlers_names(hs: Seq<Handler>) -> Set<Seq<char>>
    decreases hs,
{
    if hs.len() == 0 {
        Set::empty()
    } else {
        handlers_names(hs.drop_last()) + opt_names(hs.last().type_) + stmts_names(hs.last().body@)
    }
}

// ---------------------------------------------------------------------------
// Collecting the references to a set of names
// ---------------------------------------------------------------------------

/// `refs` grew by the names of `found` that are among `targets`.
pub open spec fn grew(old_refs: Seq<String>, refs: Seq<String>, found: Set<Seq<char>>, targets: Seq<String>) -> bool {
    sset(refs) == sset(old_refs).union(found.intersect(sset(targets))) && nodup(refs)
}

/// Adds to `refs` the names among `targets` that `e` mentions.
fn refs_in_expr(e: &Expr, targets: &Vec<String>, refs: &mut Vec<String>)
    requires
        nodup(old(refs)@),
    ensures
        grew(old(refs)@, final(refs)@, expr_names(*e), targets@),
    decreases e,
{
    let ghost r0 = refs@;
    let ghost t = sset(targets@);
    match e {
        Expr::Name(n) => {
            if contains(targets, n) {
                insert(refs, n.clone());
            }
            assert(sset(refs@) =~= sset(r0).union(expr_names(*e).intersect(t)));
        },
        Expr::Attribute(v, _) => {
            refs_in_expr(v, targets, refs);
        },
        Expr::Call(f, args, kws) => {
            refs_in_expr(f, targets, refs);
            refs_in_exprs(args, targets, refs);
            refs_in_exprs(kws, targets, refs);
            assert(sset(refs@) =~= sset(r0).union(expr_names(*e).intersect(t)));
        },
        Expr::BoolOp(vs) => {
            refs_in_exprs(vs, targets, refs);
        },
        Expr::Compare(l, cs) => {
            refs_in_expr(l, targets, refs);
            refs_in_exprs(cs, targets, refs);
            assert(sset(refs@) =~= sset(r0).union(expr_names(*e).intersect(t)));
        },
        Expr::BinOp(l, r) => {
            refs_in_expr(l, targets, refs);
            refs_in_expr(r, targets, refs);
            assert(sset(refs@) =~= sset(r0).union(expr_names(*e).intersect(t)));
        },
        Expr::UnaryOp(o) => {
            refs_in_expr(o, targets, refs);
        },
        Expr::If(c, b, o) => {
            refs_in_expr(c, targets, refs);
            refs_in_expr(b, targets, refs);
            refs_in_expr(o, targets, refs);
            assert(sset(refs@) =~= sset(r0).union(expr_names(*e).intersect(t)));
        },
        Expr::Lambda(b) => {
            refs_in_expr(b, targets, refs);
        },
        Expr::Dict(items) => {
            refs_in_dict(items, targets, refs);
        },
        Expr::List(es) => {
            refs_in_exprs(es, targets, refs);
        },
        Expr::Tuple(es) => {
            refs_in_exprs(es, targets, refs);
        },
        Expr::SetDisplay(es) => {
            refs_in_exprs(es, targets, refs);
        },
        Expr::Subscript(v, s) => {
            refs_in_expr(v, targets, refs);
            refs_in_expr(s, targets, refs);
            assert(sset(refs@) =~= sset(r0).union(expr_names(*e).intersect(t)));
        },
        Expr::Starred(v) => {
            refs_in_expr(v, targets, refs);
        },
        Expr::Await(v) => {
            refs_in_expr(v, targets, refs);
        },
        Expr::Yield(o) => {
            match o {
                Some(v) => {
                    refs_in_expr(v, targets, refs);
                },
                None => {
                    assert(sset(refs@) =~= sset(r0).union(expr_names(*e).intersect(t)));
                },
            }
        },
        Expr::YieldFrom(v) => {
            refs_in_expr(v, targets, refs);
        },
        Expr::Generator(elt, comps) => {
            refs_in_expr(elt, targets, refs);
            refs_in_comps(comps, targets, refs);
            assert(sset(refs@) =~= sset(r0).union(expr_names(*e).intersect(t)));
        },
        Expr::ListComp(elt, comps) => {
            refs_in_expr(elt, targets, refs);
            refs_in_comps(comps, targets, refs);
            assert(sset(refs@) =~= sset(r0).union(expr_names(*e).intersect(t)));
        },
        Expr::SetComp(elt, comps) => {
            refs_in_expr(elt, targets, refs);
            refs_in_comps(comps, targets, refs);
            assert(sset(refs@) =~= sset(r0).union(expr_names(*e).intersect(t)));
        },
        Expr::DictComp(k, v, comps) => {
            refs_in_expr(k, targets, refs);
            refs_in_expr(v, targets, refs);
            refs_in_comps(comps, targets, refs);
            assert(sset(refs@) =~= sset(r0).union(expr_names(*e).intersect(t)));
        },
        Expr::FString(es) => {
            refs_in_exprs(es, targets, refs);
        },
        Expr::Named(tg, v) => {
            refs_in_expr(tg, targets, refs);
            refs_in_expr(v, targets, refs);
            assert(sset(refs@) =~= sset(r0).union(expr_names(*e).intersect(t)));
        },
        Expr::Other => {
            assert(sset(refs@) =~= sset(r0).union(expr_names(*e).intersect(t)));
        },
    }
}

/// Adds to `refs` the names among `targets` that `es` mention.
fn refs_in_exprs(es: &Vec<Expr>, targets: &Vec<String>, refs: &mut Vec<String>)
    requires
        nodup(old(refs)@),
    ensures
        grew(old(refs)@, final(refs)@, exprs_names(es@), targets@),
    decreases es,
{
    let ghost r0 = refs@;
    let ghost t = sset(targets@);
    let mut i: usize = 0;
    assert(sset(refs@) =~= sset(r0).union(exprs_names(es@.take(0)).intersect(t)));
    while i < es.len()
        invariant
            i <= es@.len(),
            t == sset(targets@),
            grew(r0, refs@, exprs_names(es@.take(i as int)), targets@),
        decreases es@.len() - i,
    {
        assert(es@.take(i + 1).drop_last() =~= es@.take(i as int));
        assert(es@.take(i + 1).last() == es@[i as int]);
        refs_in_expr(&es[i], targets, refs);
        i = i + 1;
        assert(sset(refs@) =~= sset(r0).union(exprs_names(es@.take(i as int)).intersect(t)));
    }
    assert(es@.take(es@.len() as int) =~= es@);
}

/// Adds to `refs` the names among `targets` that an optional expression mentions.
fn refs_in_opt(o: &Option<Expr>, targets: &Vec<String>, refs: &mut Vec<String>)
    requires
        nodup(old(refs)@),
    ensures
        grew(old(refs)@, final(refs)@, opt_names(*o), targets@),
    decreases o,
{
    match o {
        Some(e) => refs_in_expr(e, targets, refs),
        None => {
            assert(sset(refs@) =~= sset(old(refs)@).union(opt_names(*o).intersect(sset(targets@))));
        },
    }
}

fn refs_in_dict(items: &Vec<DictItem>, targets: &Vec<String>, refs: &mut Vec<String>)
    requires
        nodup(old(refs)@),
    ensures
        grew(old(refs)@, final(refs)@, dict_names(items@), targets@),
    decreases items,
{
    let ghost r0 = refs@;
    let ghost t = sset(targets@);
    let mut i: usize = 0;
    assert(sset(refs@) =~= sset(r0).union(dict_names(items@.take(0)).intersect(t)));
    while i < items.len()
        invariant
            i <= items@.len(),
            t == sset(targets@),
            grew(r0, refs@, dict_names(items@.take(i as int)), targets@),
        decreases items@.len() - i,
    {
        assert(items@.take(i + 1).drop_last() =~= items@.take(i as int));
        assert(items@.take(i + 1).last() == items@[i as int]);
        refs_in_opt(&items[i].key, targets, refs);
        refs_in_expr(&items[i].value, targets, refs);
        i = i + 1;
        assert(sset(refs@) =~= sset(r0).union(dict_names(items@.take(i as int)).intersect(t)));
    }
    assert(items@.take(items@.len() as int) =~= items@);
}

fn refs_in_comps(comps: &Vec<Comprehension>, targets: &Vec<String>, refs: &mut Vec<String>)
    requires
        nodup(old(refs)@),
    ensures
        grew(old(refs)@, final(refs)@, comps_names(comps@), targets@),
    decreases comps,
{
    let ghost r0 = refs@;
    let ghost t = sset(targets@);
    let mut i: usize = 0;
    assert(sset(refs@) =~= sset(r0).union(comps_names(comps@.take(0)).intersect(t)));
    while i < comps.len()
        invariant
            i <= comps@.len(),
            t == sset(targets@),
            grew(r0, refs@, comps_names(comps@.take(i as int)), targets@),
        decreases comps@.len() - i,
    {
        assert(comps@.take(i + 1).drop_last() =~= comps@.take(i as int));
        assert(comps@.take(i + 1).last() == comps@[i as int]);
        refs_in_expr(&comps[i].target, targets, refs);
        refs_in_expr(&comps[i].iter, targets, refs);
        refs_in_exprs(&comps[i].ifs, targets, refs);
        i = i + 1;
        assert(sset(refs@) =~= sset(r0).union(comps_names(comps@.take(i as int)).intersect(t)));
    }
    assert(comps@.take(comps@.len() as int) =~= comps@);
}

/// Adds to `refs` the names among `targets` that `s` mentions, nested statements included.
fn refs_in_stmt(s: &Stmt, targets: &Vec<String>, refs: &mut Vec<String>)
    requires
        nodup(old(refs)@),
    ensures
        grew(old(refs)@, final(refs)@, stmt_names(*s), targets@),
    decreases s,
{
    let ghost r0 = refs@;
    let ghost t = sset(targets@);
    match s {
        Stmt::FunctionDef { decorators, params, return_type, body, .. } => {
            refs_in_exprs(decorators, targets, refs);
            refs_in_params(params, targets, refs);
            refs_in_opt(return_type, targets, refs);
            refs_in_stmts(body, targets, refs);
        },
        Stmt::ClassDef { decorators, bases, keywords, body, .. } => {
            refs_in_exprs(decorators, targets, refs);
            refs_in_exprs(bases, targets, refs);
            refs_in_exprs(keywords, targets, refs);
            refs_in_stmts(body, targets, refs);
        },
        Stmt::Return(v) => {
            refs_in_opt(v, targets, refs);
        },
        Stmt::Assign { targets: tgs, value } => {
            refs_in_exprs(tgs, targets, refs);
            refs_in_expr(value, targets, refs);
        },
        Stmt::AnnAssign { target, annotation, value } => {
            refs_in_expr(target, targets, refs);
            refs_in_expr(annotation, targets, refs);
            refs_in_opt(value, targets, refs);
        },
        Stmt::AugAssign { target, value } => {
            refs_in_expr(target, targets, refs);
            refs_in_expr(value, targets, refs);
        },
        Stmt::Expr(e) => {
            refs_in_expr(e, targets, refs);
        },
        Stmt::If { test, body, clauses } => {
            refs_in_expr(test, targets, refs);
            refs_in_stmts(body, targets, refs);
            refs_in_clauses(clauses, targets, refs);
        },
        Stmt::For { target, iter, body, orelse } => {
            refs_in_expr(target, targets, refs);
            refs_in_expr(iter, targets, refs);
            refs_in_stmts(body, targets, refs);
            refs_in_stmts(orelse, targets, refs);
        },
        Stmt::While { test, body, orelse } => {
            refs_in_expr(test, targets, refs);
            refs_in_stmts(body, targets, refs);
            refs_in_stmts(orelse, targets, refs);
        },
        Stmt::With { items, body } => {
            refs_in_with(items, targets, refs);
            refs_in_stmts(body, targets, refs);
        },
        Stmt::Try { body, handlers, orelse, finalbody } => {
            refs_in_stmts(body, targets, refs);
            refs_in_handlers(handlers, targets, refs);
            refs_in_stmts(orelse, targets, refs);
            refs_in_stmts(finalbody, targets, refs);
        },
        Stmt::Raise { exc, cause } => {
            refs_in_opt(exc, targets, refs);
            refs_in_opt(cause, targets, refs);
        },
        Stmt::Assert { test, msg } => {
            refs_in_expr(test, targets, refs);
            refs_in_opt(msg, targets, refs);
        },
        Stmt::Delete(tgs) => {
            refs_in_exprs(tgs, targets, refs);
        },
        Stmt::TypeAlias { name, value } => {
            refs_in_expr(name, targets, refs);
            refs_in_expr(value, targets, refs);
        },
        Stmt::Import(_) => {},
        Stmt::ImportFrom { .. } => {},
        Stmt::Other => {},
    }
    assert(sset(refs@) =~= sset(r0).union(stmt_names(*s).intersect(t)));
}

fn refs_in_stmts(ss: &Vec<Stmt>, targets: &Vec<String>, refs: &mut Vec<String>)
    requires
        nodup(old(refs)@),
    ensures
        grew(old(refs)@, final(refs)@, stmts_names(ss@), targets@),
    decreases ss,
{
    let ghost r0 = refs@;
    let ghost t = sset(targets@);
    let mut i: usize = 0;
    assert(sset(refs@) =~= sset(r0).union(stmts_names(ss@.take(0)).intersect(t)));
    while i < ss.len()
        invariant
            i <= ss@.len(),
            t == sset(targets@),
            grew(r0, refs@, stmts_names(ss@.take(i as int)), targets@),
        decreases ss@.len() - i,
    {
        assert(ss@.take(i + 1).drop_last() =~= ss@.take(i as int));
        assert(ss@.take(i + 1).last() == ss@[i as int]);
        refs_in_stmt(&ss[i], targets, refs);
        i = i + 1;
        assert(sset(refs@) =~= sset(r0).union(stmts_names(ss@.take(i as int)).intersect(t)));
    }
    assert(ss@.take(ss@.len() as int) =~= ss@);
}

fn refs_in_params(ps: &Vec<Param>, targets: &Vec<String>, refs: &mut Vec<String>)
    requires
        nodup(old(refs)@),
    ensures
        grew(old(refs)@, final(refs)@, params_names(ps@), targets@),
    decreases ps,
{
    let ghost r0 = refs@;
    let ghost t = sset(targets@);
    let mut i: usize = 0;
    assert(sset(refs@) =~= sset(r0).union(params_names(ps@.take(0)).intersect(t)));
    while i < ps.len()
        invariant
            i <= ps@.len(),
            t == sset(targets@),
            grew(r0, refs@, params_names(ps@.take(i as int)), targets@),
        decreases ps@.len() - i,
    {
        assert(ps@.take(i + 1).drop_last() =~= ps@.take(i as int));
        assert(ps@.take(i + 1).last() == ps@[i as int]);
        refs_in_opt(&ps[i].annotation, targets, refs);
        refs_in_opt(&ps[i].default, targets, refs);
        i = i + 1;
        assert(sset(refs@) =~= sset(r0).union(params_names(ps@.take(i as int)).intersect(t)));
    }
    assert(ps@.take(ps@.len() as int) =~= ps@);
}

fn refs_in_clauses(cs: &Vec<ElifElse>, targets: &Vec<String>, refs: &mut Vec<String>)
    requires
        nodup(old(refs)@),
    ensures
        grew(old(refs)@, final(refs)@, clauses_names(cs@), targets@),
    decreases cs,
{
    let ghost r0 = refs@;
    let ghost t = sset(targets@);
    let mut i: usize = 0;
    assert(sset(refs@) =~= sset(r0).union(clauses_names(cs@.take(0)).intersect(t)));
    while i < cs.len()
        invariant
            i <= cs@.len(),
            t == sset(targets@),
            grew(r0, refs@, clauses_names(cs@.take(i as int)), targets@),
        decreases cs@.len() - i,
    {
        assert(cs@.take(i + 1).drop_last() =~= cs@.take(i as int));
        assert(cs@.take(i + 1).last() == cs@[i as int]);
        refs_in_opt(&cs[i].test, targets, refs);
        refs_in_stmts(&cs[i].body, targets, refs);
        i = i + 1;
        assert(sset(refs@) =~= sset(r0).union(clauses_names(cs@.take(i as int)).intersect(t)));
    }
    assert(cs@.take(cs@.len() as int) =~= cs@);
}

fn refs_in_with(ws: &Vec<WithItem>, targets: &Vec<String>, refs: &mut Vec<String>)
    requires
        nodup(old(refs)@),
    ensures
        grew(old(refs)@, final(refs)@, with_names(ws@), targets@),
    decreases ws,
{
    let ghost r0 = refs@;
    let ghost t = sset(targets@);
    let mut i: usize = 0;
    assert(sset(refs@) =~= sset(r0).union(with_names(ws@.take(0)).intersect(t)));
    while i < ws.len()
        invariant
            i <= ws@.len(),
            t == sset(targets@),
            grew(r0, refs@, with_names(ws@.take(i as int)), targets@),
        decreases ws@.len() - i,
    {
        assert(ws@.take(i + 1).drop_last() =~= ws@.take(i as int));
        assert(ws@.take(i + 1).last() == ws@[i as int]);
        refs_in_expr(&ws[i].context_expr, targets, refs);
        refs_in_opt(&ws[i].optional_vars, targets, refs);
        i = i + 1;
        assert(sset(refs@) =~= sset(r0).union(with_names(ws@.take(i as int)).intersect(t)));
    }
    assert(ws@.take(ws@.len() as int) =~= ws@);
}

fn refs_in_handlers(hs: &Vec<Handler>, targets: &Vec<String>, refs: &mut Vec<String>)
    requires
        nodup(old(refs)@),
    ensures
        grew(old(refs)@, final(refs)@, handlers_names(hs@), targets@),
    decreases hs,
{
    let ghost r0 = refs@;
    let ghost t = sset(targets@);
    let mut i: usize = 0;
    assert(sset(refs@) =~= sset(r0).union(handlers_names(hs@.take(0)).intersect(t)));
    while i < hs.len()
        invariant
            i <= hs@.len(),
            t == sset(targets@),
            grew(r0, refs@, handlers_names(hs@.take(i as int)), targets@),
        decreases hs@.len() - i,
    {
        assert(hs@.take(i + 1).drop_last() =~= hs@.take(i as int));
        assert(hs@.take(i + 1).last() == hs@[i as int]);
        refs_in_opt(&hs[i].type_, targets, refs);
        refs_in_stmts(&hs[i].body, targets, refs);
        i = i + 1;
        assert(sset(refs@) =~= sset(r0).union(handlers_names(hs@.take(i as int)).intersect(t)));
    }
    assert(hs@.take(hs@.len() as int) =~= hs@);
}

// ---------------------------------------------------------------------------
// Top-level symbols and the references between them
// ---------------------------------------------------------------------------

/// The module body: everything at module level not inside a def, class or
/// simple assignment.
pub open spec fn body_model() -> (SymbolKind, Seq<char>) {
    (SymbolKind::ModuleBody, Seq::empty())
}

/// The symbol a top-level statement defines: a function, a class, a variable
/// named by the (first) target of an assignment or type alias, or the module body.
pub open spec fn classify(s: Stmt) -> (SymbolKind, Seq<char>) {
    match s {
        Stmt::FunctionDef { name, .. } => (SymbolKind::Function, name@),
        Stmt::ClassDef { name, .. } => (SymbolKind::Class, name@),
        Stmt::Assign { targets, .. } => if targets@.len() > 0 {
            match targets@[0] {
                Expr::Name(n) => (SymbolKind::Variable, n@),
                _ => body_model(),
            }
        } else {
            body_model()
        },
        Stmt::AnnAssign { target, .. } => match target {
            Expr::Name(n) => (SymbolKind::Variable, n@),
            _ => body_model(),
        },
        Stmt::TypeAlias { name, .. } => match name {
            Expr::Name(n) => (SymbolKind::Variable, n@),
            _ => body_model(),
        },
        _ => body_model(),
    }
}

/// Classify a top-level statement into a Symbol.
pub fn classify_stmt(s: &Stmt) -> (r: Symbol)
    ensures
        r@ == classify(*s),
{
    match s {
        Stmt::FunctionDef { name, .. } => Symbol::Function(name.clone()),
        Stmt::ClassDef { name, .. } => Symbol::Class(name.clone()),
        Stmt::Assign { targets, .. } => {
            if targets.len() > 0 {
                match &targets[0] {
                    Expr::Name(n) => Symbol::Variable(n.clone()),
                    _ => Symbol::ModuleBody,
                }
            } else {
                Symbol::ModuleBody
            }
        },
        Stmt::AnnAssign { target, .. } => match target {
            Expr::Name(n) => Symbol::Variable(n.clone()),
            _ => Symbol::ModuleBody,
        },
        Stmt::TypeAlias { name, .. } => match name {
            Expr::Name(n) => Symbol::Variable(n.clone()),
            _ => Symbol::ModuleBody,
        },
        _ => Symbol::ModuleBody,
    }
}

/// The names of the top-level functions, classes and variables among `stmts`.
pub open spec fn top_names(stmts: Seq<Stmt>) -> Set<Seq<char>> {
    Set::new(|n: Seq<char>| exists|i: int| 0 <= i < stmts.len() && classify(#[trigger] stmts[i]).0 != SymbolKind::ModuleBody
        && classify(stmts[i]).1 == n)
}

/// The other names of `t` that the top-level statement `s` refers to.
pub open spec fn refs_of(s: Stmt, t: Set<Seq<char>>) -> Set<Seq<char>> {
    stmt_names(s).intersect(t).remove(classify(s).1)
}

/// The references among the first statements of a module: each named statement
/// with references records them under its name, a later one replacing an earlier.
pub open spec fn intra_fold(stmts: Seq<Stmt>, t: Set<Seq<char>>) -> Map<Seq<char>, Set<Seq<char>>>
    decreases stmts.len(),
{
    if stmts.len() == 0 {
        Map::empty()
    } else {
        let m = intra_fold(stmts.drop_last(), t);
        let c = classify(stmts.last());
        if c.0 == SymbolKind::ModuleBody || refs_of(stmts.last(), t) == Set::<Seq<char>>::empty() {
            m
        } else {
            m.insert(c.1, refs_of(stmts.last(), t))
        }
    }
}

/// For each top-level symbol of a module, the other top-level names its body uses.
pub open spec fn intra_deps(stmts: Seq<Stmt>) -> Map<Seq<char>, Set<Seq<char>>> {
    intra_fold(stmts, top_names(stmts))
}

/// The dependency list `v` holds each name once and stands for the map `m`.
pub open spec fn deps_list_is(v: Seq<(String, Vec<String>)>, m: Map<Seq<char>, Set<Seq<char>>>) -> bool {
    &&& forall|i: int, j: int| 0 <= i < v.len() && 0 <= j < v.len() && i != j ==> v[i].0@ != v[j].0@
    &&& forall|i: int| 0 <= i < v.len() ==> m.contains_key(#[trigger] v[i].0@) && sset(v[i].1@) == m[v[i].0@]
        && nodup(v[i].1@)
    &&& forall|k: Seq<char>| #[trigger] m.contains_key(k) ==> exists|i: int| 0 <= i < v.len() && v[i].0@ == k
}

/// `v` without the entry that holds the text of `s`.
fn without(v: Vec<String>, s: &String) -> (r: Vec<String>)
    requires
        nodup(v@),
    ensures
        sset(r@) == sset(v@).remove(s@),
        nodup(r@),
{
    let mut r: Vec<String> = Vec::new();
    let mut i: usize = 0;
    while i < v.len()
        invariant
            i <= v@.len(),
            nodup(v@),
            nodup(r@),
            sset(r@) == sset(v@.take(i as int)).remove(s@),
            forall|k: int| 0 <= k < r@.len() ==> exists|j: int| 0 <= j < i && (#[trigger] r@[k])@ == v@[j]@,
        decreases v@.len() - i,
    {
        let ghost before = r@;
        if v[i] != *s {
            r.push(v[i].clone());
            assert forall|a: int, b: int| 0 <= a < r@.len() && 0 <= b < r@.len() && a != b implies r@[a]@ != r@[b]@ by {
                if a == before.len() as int && b < before.len() {
                    let j = choose|j: int| 0 <= j < i && (#[trigger] before[b])@ == v@[j]@;
                }
                if b == before.len() as int && a < before.len() {
                    let j = choose|j: int| 0 <= j < i && (#[trigger] before[a])@ == v@[j]@;
                }
            }
        }
        proof {
            assert(v@.take(i + 1) =~= v@.take(i as int).push(v@[i as int]));
            lemma_sset_push(v@.take(i as int), v@[i as int]);
            if v@[i as int]@ != s@ {
                assert(r@ =~= before.push(v@[i as int]));
                lemma_sset_push(before, v@[i as int]);
            }
            assert(sset(r@) =~= sset(v@.take(i + 1)).remove(s@));
        }
        i = i + 1;
    }
    assert(v@.take(v@.len() as int) =~= v@);
    r
}

/// Extract intra-module dependencies: for each top-level symbol, find which
/// other top-level names it references in its body.
///
/// The result maps a symbol name to the set of other top-level names it uses.
/// This enables propagating changes through call chains within a module:
/// if `setup_vm` calls `_setup_tenant_certificates`, changing the latter
/// effectively changes the former.
pub fn extract_intra_module_deps(stmts: &Vec<Stmt>) -> (r: Vec<(String, Vec<String>)>)
    ensures
        deps_list_is(r@, intra_deps(stmts@)),
{
    let mut names: Vec<String> = Vec::new();
    proof {
        lemma_empty();
    }
    let mut i: usize = 0;
    while i < stmts.len()
        invariant
            i <= stmts@.len(),
            nodup(names@),
            sset(names@) == Set::new(|n: Seq<char>| exists|k: int| 0 <= k < i
                && classify(#[trigger] stmts@[k]).0 != SymbolKind::ModuleBody && classify(stmts@[k]).1 == n),
        decreases stmts@.len() - i,
    {
        let ghost before = sset(names@);
        match classify_stmt(&stmts[i]) {
            Symbol::Function(n) => {
                insert(&mut names, n);
            },
            Symbol::Class(n) => {
                insert(&mut names, n);
            },
            Symbol::Variable(n) => {
                insert(&mut names, n);
            },
            Symbol::ModuleBody => {},
        }
        assert(sset(names@) =~= Set::new(|n: Seq<char>| exists|k: int| 0 <= k < i + 1
            && classify(#[trigger] stmts@[k]).0 != SymbolKind::ModuleBody && classify(stmts@[k]).1 == n)) by {
            assert forall|n: Seq<char>| (exists|k: int| 0 <= k < i + 1
                && classify(#[trigger] stmts@[k]).0 != SymbolKind::ModuleBody && classify(stmts@[k]).1 == n)
                implies sset(names@).contains(n) by {
                let k = choose|k: int| 0 <= k < i + 1
                    && classify(#[trigger] stmts@[k]).0 != SymbolKind::ModuleBody && classify(stmts@[k]).1 == n;
                if k < i {
                    assert(before.contains(n));
                }
            }
        }
        i = i + 1;
    }
    let ghost t = top_names(stmts@);
    assert(sset(names@) =~= t);
    let mut deps: Vec<(String, Vec<String>)> = Vec::new();
    let mut j: usize = 0;
    assert(stmts@.take(0) =~= Seq::<Stmt>::empty());
    while j < stmts.len()
        invariant
            j <= stmts@.len(),
            sset(names@) == t,
            t == top_names(stmts@),
            deps_list_is(deps@, intra_fold(stmts@.take(j as int), t)),
        decreases stmts@.len() - j,
    {
        assert(stmts@.take(j + 1).drop_last() =~= stmts@.take(j as int));
        assert(stmts@.take(j + 1).last() == stmts@[j as int]);
        let ghost m0 = intra_fold(stmts@.take(j as int), t);
        let sym = classify_stmt(&stmts[j]);
        let name = match sym {
            Symbol::Function(n) => Some(n),
            Symbol::Class(n) => Some(n),
            Symbol::Variable(n) => Some(n),
            Symbol::ModuleBody => None,
        };
        match name {
            None => {},
            Some(n) => {
                let mut refs: Vec<String> = Vec::new();
                refs_in_stmt(&stmts[j], &names, &mut refs);
                let refs = without(refs, &n);
                assert(sset(refs@) =~= refs_of(stmts@[j as int], t));
                if refs.len() > 0 {
                    assert(sset(refs@).contains(refs@[0]@));
                    upsert_deps(&mut deps, n, refs, Ghost(m0));
                } else {
                    assert(sset(refs@) =~= Set::<Seq<char>>::empty());
                }
            },
        }
        j = j + 1;
    }
    assert(stmts@.take(stmts@.len() as int) =~= stmts@);
    deps
}

/// Sets the entry of `k` in the dependency list to `v`.
fn upsert_deps(
    deps: &mut Vec<(String, Vec<String>)>,
    k: String,
    v: Vec<String>,
    Ghost(m): Ghost<Map<Seq<char>, Set<Seq<char>>>>,
)
    requires
        deps_list_is(old(deps)@, m),
        nodup(v@),
    ensures
        deps_list_is(final(deps)@, m.insert(k@, sset(v@))),
{
    let mut i: usize = 0;
    while i < deps.len()
        invariant
            i <= deps@.len(),
            deps@ == old(deps)@,
            deps_list_is(old(deps)@, m),
            nodup(v@),
            forall|a: int| 0 <= a < i ==> (#[trigger] deps@[a]).0@ != k@,
        decreases deps@.len() - i,
    {
        if deps[i].0 == k {
            let ghost before = deps@;
            deps.set(i, (k, v));
            let ghost m2 = m.insert(before[i as int].0@, sset(deps@[i as int].1@));
            assert forall|kk: Seq<char>| #[trigger] m2.contains_key(kk) implies exists|a: int| 0 <= a < deps@.len() && deps@[a].0@ == kk by {
                if kk != before[i as int].0@ {
                    assert(m.contains_key(kk));
                    let a = choose|a: int| 0 <= a < before.len() && before[a].0@ == kk;
                    assert(deps@[a] == before[a]);
                } else {
                    assert(deps@[i as int].0@ == kk);
                }
            }
            return;
        }
        i = i + 1;
    }
    let ghost before = deps@;
    deps.push((k, v));
    let ghost m2 = m.insert(deps@[before.len() as int].0@, sset(deps@[before.len() as int].1@));
    assert forall|kk: Seq<char>| #[trigger] m2.contains_key(kk) implies exists|a: int| 0 <= a < deps@.len() && deps@[a].0@ == kk by {
        if kk != deps@[before.len() as int].0@ {
            assert(m.contains_key(kk));
            let a = choose|a: int| 0 <= a < before.len() && before[a].0@ == kk;
            assert(deps@[a] == before[a]);
        } else {
            assert(deps@[before.len() as int].0@ == kk);
        }
    }
    assert forall|a: int| 0 <= a < deps@.len() implies m2.contains_key(#[trigger] deps@[a].0@) && sset(deps@[a].1@) == m2[deps@[a].0@]
        && nodup(deps@[a].1@) by {
        if a < before.len() {
            assert(deps@[a] == before[a]);
        }
    }
}

// ---------------------------------------------------------------------------
// Every part of a node is read
// ---------------------------------------------------------------------------

proof fn lemma_exprs_names_at(es: Seq<Expr>, i: int)
    requires
        0 <= i < es.len(),
    ensures
        expr_names(es[i]).subset_of(exprs_names(es)),
    decreases es.len(),
{
    if i < es.len() - 1 {
        lemma_exprs_names_at(es.drop_last(), i);
        assert(es.drop_last()[i] == es[i]);
    }
}

proof fn lemma_exprs_names_has(es: Seq<Expr>, c: Expr)
    requires
        es.contains(c),
    ensures
        expr_names(c).subset_of(exprs_names(es)),
{
    let i = choose|i: int| 0 <= i < es.len() && es[i] == c;
    lemma_exprs_names_at(es, i);
}

proof fn lemma_dict_names_at(items: Seq<DictItem>, i: int)
    requires
        0 <= i < items.len(),
    ensures
        opt_names(items[i].key).subset_of(dict_names(items)),
        expr_names(items[i].value).subset_of(dict_names(items)),
    decreases items.len(),
{
    if i < items.len() - 1 {
        lemma_dict_names_at(items.drop_last(), i);
        assert(items.drop_last()[i] == items[i]);
    }
}

proof fn lemma_comps_names_at(comps: Seq<Comprehension>, i: int)
    requires
        0 <= i < comps.len(),
    ensures
        expr_names(comps[i].target).subset_of(comps_names(comps)),
        expr_names(comps[i].iter).subset_of(comps_names(comps)),
        exprs_names(comps[i].ifs@).subset_of(comps_names(comps)),
    decreases comps.len(),
{
    if i < comps.len() - 1 {
        lemma_comps_names_at(comps.drop_last(), i);
        assert(comps.drop_last()[i] == comps[i]);
    }
}

proof fn lemma_comp_part_names(comps: Seq<Comprehension>, c: Expr)
    requires
        comp_part(comps, c),
    ensures
        expr_names(c).subset_of(comps_names(comps)),
{
    let i = choose|i: int| 0 <= i < comps.len()
        && ((#[trigger] comps[i]).target == c || comps[i].iter == c || comps[i].ifs@.contains(c));
    lemma_comps_names_at(comps, i);
    if comps[i].ifs@.contains(c) {
        lemma_exprs_names_has(comps[i].ifs@, c);
    }
}

/// What an expression mentions holds what each of its immediate parts mentions,
/// and a bare name mentions itself: every name anywhere in an expression, in a
/// call's function, positional arguments and keyword values alike, is read.
pub proof fn lemma_expr_names_cover_parts(e: Expr, c: Expr)
    ensures
        expr_child(e, c) ==> expr_names(c).subset_of(expr_names(e)),
        e matches Expr::Name(n) ==> expr_names(e).contains(n@),
{
    if expr_child(e, c) {
        match e {
            Expr::Call(f, args, kws) => {
                if args@.contains(c) {
                    lemma_exprs_names_has(args@, c);
                } else if kws@.contains(c) {
                    lemma_exprs_names_has(kws@, c);
                }
            },
            Expr::BoolOp(vs) => lemma_exprs_names_has(vs@, c),
            Expr::Compare(l, cs) => {
                if cs@.contains(c) {
                    lemma_exprs_names_has(cs@, c);
                }
            },
            Expr::Dict(items) => {
                let i = choose|i: int| 0 <= i < items@.len()
                    && ((#[trigger] items@[i]).key == Some(c) || items@[i].value == c);
                lemma_dict_names_at(items@, i);
            },
            Expr::List(es) => lemma_exprs_names_has(es@, c),
            Expr::Tuple(es) => lemma_exprs_names_has(es@, c),
            Expr::SetDisplay(es) => lemma_exprs_names_has(es@, c),
            Expr::Generator(elt, comps) => {
                if comp_part(comps@, c) {
                    lemma_comp_part_names(comps@, c);
                }
            },
            Expr::ListComp(elt, comps) => {
                if comp_part(comps@, c) {
                    lemma_comp_part_names(comps@, c);
                }
            },
            Expr::SetComp(elt, comps) => {
                if comp_part(comps@, c) {
                    lemma_comp_part_names(comps@, c);
                }
            },
            Expr::DictComp(k, v, comps) => {
                if comp_part(comps@, c) {
                    lemma_comp_part_names(comps@, c);
                }
            },
            Expr::FString(es) => lemma_exprs_names_has(es@, c),
            _ => {},
        }
    }
}

proof fn lemma_stmts_names_has(ss: Seq<Stmt>, c: Stmt)
    requires
        ss.contains(c),
    ensures
        stmt_names(c).subset_of(stmts_names(ss)),
    decreases ss.len(),
{
    if ss.last() != c {
        assert(ss.drop_last().contains(c)) by {
            let i = choose|i: int| 0 <= i < ss.len() && ss[i] == c;
            assert(ss.drop_last()[i] == c);
        }
        lemma_stmts_names_has(ss.drop_last(), c);
    }
}

proof fn lemma_params_names_at(ps: Seq<Param>, i: int)
    requires
        0 <= i < ps.len(),
    ensures
        opt_names(ps[i].annotation).subset_of(params_names(ps)),
        opt_names(ps[i].default).subset_of(params_names(ps)),
    decreases ps.len(),
{
    if i < ps.len() - 1 {
        lemma_params_names_at(ps.drop_last(), i);
        assert(ps.drop_last()[i] == ps[i]);
    }
}

proof fn lemma_clauses_names_at(cs: Seq<ElifElse>, i: int)
    requires
        0 <= i < cs.len(),
    ensures
        opt_names(cs[i].test).subset_of(clauses_names(cs)),
        stmts_names(cs[i].body@).subset_of(clauses_names(cs)),
    decreases cs.len(),
{
    if i < cs.len() - 1 {
        lemma_clauses_names_at(cs.drop_last(), i);
        assert(cs.drop_last()[i] == cs[i]);
    }
}

proof fn lemma_with_names_at(ws: Seq<WithItem>, i: int)
    requires
        0 <= i < ws.len(),
    ensures
        expr_names(ws[i].context_expr).subset_of(with_names(ws)),
        opt_names(ws[i].optional_vars).subset_of(with_names(ws)),
    decreases ws.len(),
{
    if i < ws.len() - 1 {
        lemma_with_names_at(ws.drop_last(), i);
        assert(ws.drop_last()[i] == ws[i]);
    }
}

proof fn lemma_handlers_names_at(hs: Seq<Handler>, i: int)
    requires
        0 <= i < hs.len(),
    ensures
        opt_names(hs[i].type_).subset_of(handlers_names(hs)),
        stmts_names(hs[i].body@).subset_of(handlers_names(hs)),
    decreases hs.len(),
{
    if i < hs.len() - 1 {
        lemma_handlers_names_at(hs.drop_last(), i);
        assert(hs.drop_last()[i] == hs[i]);
    }
}

/// What a statement mentions holds what each expression standing in it
/// mentions, and what each statement of its bodies mentions.
pub proof fn lemma_stmt_names_cover_parts(s: Stmt, e: Expr, c: Stmt)
    ensures
        stmt_expr_child(s, e) ==> expr_names(e).subset_of(stmt_names(s)),
        stmt_child(s, c) ==> stmt_names(c).subset_of(stmt_names(s)),
{
    if stmt_expr_child(s, e) {
        match s {
            Stmt::FunctionDef { decorators, params, return_type, .. } => {
                if decorators@.contains(e) {
                    lemma_exprs_names_has(decorators@, e);
                } else if return_type != Some(e) {
                    let i = choose|i: int| 0 <= i < params@.len()
                        && ((#[trigger] params@[i]).annotation == Some(e) || params@[i].default == Some(e));
                    lemma_params_names_at(params@, i);
                }
            },
            Stmt::ClassDef { decorators, bases, keywords, .. } => {
                if decorators@.contains(e) {
                    lemma_exprs_names_has(decorators@, e);
                } else if bases@.contains(e) {
                    lemma_exprs_names_has(bases@, e);
                } else {
                    lemma_exprs_names_has(keywords@, e);
                }
            },
            Stmt::Assign { targets, value } => {
                if targets@.contains(e) {
                    lemma_exprs_names_has(targets@, e);
                }
            },
            Stmt::If { test, clauses, .. } => {
                if test != e {
                    let i = choose|i: int| 0 <= i < clauses@.len() && (#[trigger] clauses@[i]).test == Some(e);
                    lemma_clauses_names_at(clauses@, i);
                }
            },
            Stmt::With { items, .. } => {
                let i = choose|i: int| 0 <= i < items@.len()
                    && ((#[trigger] items@[i]).context_expr == e || items@[i].optional_vars == Some(e));
                lemma_with_names_at(items@, i);
            },
            Stmt::Try { handlers, .. } => {
                let i = choose|i: int| 0 <= i < handlers@.len() && (#[trigger] handlers@[i]).type_ == Some(e);
                lemma_handlers_names_at(handlers@, i);
            },
            Stmt::Delete(targets) => lemma_exprs_names_has(targets@, e),
            _ => {},
        }
    }
    if stmt_child(s, c) {
        match s {
            Stmt::FunctionDef { body, .. } => lemma_stmts_names_has(body@, c),
            Stmt::ClassDef { body, .. } => lemma_stmts_names_has(body@, c),
            Stmt::If { body, clauses, .. } => {
                if body@.contains(c) {
                    lemma_stmts_names_has(body@, c);
                } else {
                    let i = choose|i: int| 0 <= i < clauses@.len() && (#[trigger] clauses@[i]).body@.contains(c);
                    lemma_stmts_names_has(clauses@[i].body@, c);
                    lemma_clauses_names_at(clauses@, i);
                }
            },
            Stmt::For { body, orelse, .. } => {
                if body@.contains(c) {
                    lemma_stmts_names_has(body@, c);
                } else {
                    lemma_stmts_names_has(orelse@, c);
                }
            },
            Stmt::While { body, orelse, .. } => {
                if body@.contains(c) {
                    lemma_stmts_names_has(body@, c);
                } else {
                    lemma_stmts_names_has(orelse@, c);
                }
            },
            Stmt::With { body, .. } => lemma_stmts_names_has(body@, c),
            Stmt::Try { body, handlers, orelse, finalbody } => {
                if body@.contains(c) {
                    lemma_stmts_names_has(body@, c);
                } else if orelse@.contains(c) {
                    lemma_stmts_names_has(orelse@, c);
                } else if finalbody@.contains(c) {
                    lemma_stmts_names_has(finalbody@, c);
                } else {
                    let i = choose|i: int| 0 <= i < handlers@.len() && (#[trigger] handlers@[i]).body@.contains(c);
                    lemma_stmts_names_has(handlers@[i].body@, c);
                    lemma_handlers_names_at(handlers@, i);
                }
            },
            _ => {},
        }
    }
}

/// A top-level name that a named top-level statement mentions, other than its
/// own, is among that symbol's dependencies, unless a later statement of the
/// same name replaces it.
pub proof fn lemma_refs_recorded(stmts: Seq<Stmt>, i: int, n: Seq<char>)
    requires
        0 <= i < stmts.len(),
        classify(stmts[i]).0 != SymbolKind::ModuleBody,
        forall|j: int| i < j < stmts.len() ==> classify(#[trigger] stmts[j]).0 == SymbolKind::ModuleBody
            || classify(stmts[j]).1 != classify(stmts[i]).1,
        stmt_names(stmts[i]).contains(n),
        top_names(stmts).contains(n),
        n != classify(stmts[i]).1,
    ensures
        intra_deps(stmts).contains_key(classify(stmts[i]).1),
        intra_deps(stmts)[classify(stmts[i]).1].contains(n),
{
    lemma_fold_keeps(stmts, top_names(stmts), i, n, stmts.len() as int);
    assert(stmts.take(stmts.len() as int) =~= stmts);
}

proof fn lemma_fold_keeps(stmts: Seq<Stmt>, t: Set<Seq<char>>, i: int, n: Seq<char>, k: int)
    requires
        0 <= i < k <= stmts.len(),
        classify(stmts[i]).0 != SymbolKind::ModuleBody,
        forall|j: int| i < j < stmts.len() ==> classify(#[trigger] stmts[j]).0 == SymbolKind::ModuleBody
            || classify(stmts[j]).1 != classify(stmts[i]).1,
        refs_of(stmts[i], t).contains(n) || (stmt_names(stmts[i]).contains(n) && t.contains(n) && n != classify(stmts[i]).1),
    ensures
        intra_fold(stmts.take(k), t).contains_key(classify(stmts[i]).1),
        intra_fold(stmts.take(k), t)[classify(stmts[i]).1].contains(n),
    decreases k,
{
    let p = stmts.take(k);
    assert(p.drop_last() =~= stmts.take(k - 1));
    assert(p.last() == stmts[k - 1]);
    assert(refs_of(stmts[i], t).contains(n));
    if k - 1 > i {
        lemma_fold_keeps(stmts, t, i, n, k - 1);
    } else {
        assert(refs_of(stmts[i], t) != Set::<Seq<char>>::empty());
    }
}

} // verus!
