//! The parts of a Python syntax tree that the analyses of this crate read.
//!
//! Nodes that no analysis looks into are `Other`.
use vstd::prelude::*;

verus! {

/// An expression.
#[derive(Debug)]
pub enum Expr {
    /// A bare name: `x`
    Name(String),
    /// `value.attr`
    Attribute(Box<Expr>, String),
    /// `func(args..., key=value...)`: the function, the positional arguments, the keyword values
    Call(Box<Expr>, Vec<Expr>, Vec<Expr>),
    /// `a and b and ...`
    BoolOp(Vec<Expr>),
    /// `left < c1 < c2 ...`: the left operand and the comparators
    Compare(Box<Expr>, Vec<Expr>),
    /// `left op right`
    BinOp(Box<Expr>, Box<Expr>),
    /// `op operand`
    UnaryOp(Box<Expr>),
    /// `body if test else orelse`: test, body, orelse
    If(Box<Expr>, Box<Expr>, Box<Expr>),
    /// `lambda ...: body`
    Lambda(Box<Expr>),
    /// `{k: v, **m}`: the items, a key being absent for `**m`
    Dict(Vec<DictItem>),
    /// `[...]`
    List(Vec<Expr>),
    /// `(...)`
    Tuple(Vec<Expr>),
    /// `{...}`, a set display
    SetDisplay(Vec<Expr>),
    /// `value[slice]`
    Subscript(Box<Expr>, Box<Expr>),
    /// `*value`
    Starred(Box<Expr>),
    /// `await value`
    Await(Box<Expr>),
    /// `yield value`
    Yield(Option<Box<Expr>>),
    /// `yield from value`
    YieldFrom(Box<Expr>),
    /// `(elt for ...)`
    Generator(Box<Expr>, Vec<Comprehension>),
    /// `[elt for ...]`
    ListComp(Box<Expr>, Vec<Comprehension>),
    /// `{elt for ...}`
    SetComp(Box<Expr>, Vec<Comprehension>),
    /// `{key: value for ...}`
    DictComp(Box<Expr>, Box<Expr>, Vec<Comprehension>),
    /// An f-string: the interpolated expressions
    FString(Vec<Expr>),
    /// `target := value`
    Named(Box<Expr>, Box<Expr>),
    /// Literals and every other expression
    Other,
}

/// One item of a dict display.
#[derive(Debug)]
pub struct DictItem {
    pub key: Option<Expr>,
    pub value: Expr,
}

/// One `for target in iter if cond...` clause of a comprehension.
#[derive(Debug)]
pub struct Comprehension {
    pub target: Expr,
    pub iter: Expr,
    pub ifs: Vec<Expr>,
}

/// A name in an import statement: `name` or `name as asname`.
#[derive(Debug)]
pub struct Alias {
    pub name: String,
    pub asname: Option<String>,
}

/// A non-variadic parameter of a function definition.
#[derive(Debug)]
pub struct Param {
    pub annotation: Option<Expr>,
    pub default: Option<Expr>,
}

/// An `elif test:` or `else:` clause.
#[derive(Debug)]
pub struct ElifElse {
    pub test: Option<Expr>,
    pub body: Vec<Stmt>,
}

/// One `context as vars` item of a `with` statement.
#[derive(Debug)]
pub struct WithItem {
    pub context_expr: Expr,
    pub optional_vars: Option<Expr>,
}

/// An `except type:` handler.
#[derive(Debug)]
pub struct Handler {
    pub type_: Option<Expr>,
    pub body: Vec<Stmt>,
}

/// A statement.
#[derive(Debug)]
pub enum Stmt {
    /// `def name(params) -> return_type: body`, with its decorators
    FunctionDef { name: String, decorators: Vec<Expr>, params: Vec<Param>, return_type: Option<Expr>, body: Vec<Stmt> },
    /// `class name(bases, key=value): body`, with its decorators; `keywords` holds the keyword values
    ClassDef { name: String, decorators: Vec<Expr>, bases: Vec<Expr>, keywords: Vec<Expr>, body: Vec<Stmt> },
    /// `return value`
    Return(Option<Expr>),
    /// `t1 = t2 = value`
    Assign { targets: Vec<Expr>, value: Expr },
    /// `target: annotation = value`
    AnnAssign { target: Expr, annotation: Expr, value: Option<Expr> },
    /// `target op= value`
    AugAssign { target: Expr, value: Expr },
    /// An expression statement
    Expr(Expr),
    /// `if test: body` with its `elif` and `else` clauses
    If { test: Expr, body: Vec<Stmt>, clauses: Vec<ElifElse> },
    /// `for target in iter: body else: orelse`
    For { target: Expr, iter: Expr, body: Vec<Stmt>, orelse: Vec<Stmt> },
    /// `while test: body else: orelse`
    While { test: Expr, body: Vec<Stmt>, orelse: Vec<Stmt> },
    /// `with items: body`
    With { items: Vec<WithItem>, body: Vec<Stmt> },
    /// `try: body except...: else: orelse finally: finalbody`
    Try { body: Vec<Stmt>, handlers: Vec<Handler>, orelse: Vec<Stmt>, finalbody: Vec<Stmt> },
    /// `raise exc from cause`
    Raise { exc: Option<Expr>, cause: Option<Expr> },
    /// `assert test, msg`
    Assert { test: Expr, msg: Option<Expr> },
    /// `del targets`
    Delete(Vec<Expr>),
    /// `type name = value`
    TypeAlias { name: Expr, value: Expr },
    /// `import a.b as c, ...`
    Import(Vec<Alias>),
    /// `from .module import names`, with `level` leading dots
    ImportFrom { module: Option<String>, names: Vec<Alias>, level: u32 },
    /// Every other statement
    Other,
}

// ---------------------------------------------------------------------------
// The immediate parts of a node
// ---------------------------------------------------------------------------

/// `c` is an immediate sub-expression of `e`.
pub open spec fn expr_child(e: Expr, c: Expr) -> bool {
    match e {
        Expr::Name(_) => false,
        Expr::Attribute(v, _) => c == *v,
        Expr::Call(f, args, kws) => c == *f || args@.contains(c) || kws@.contains(c),
        Expr::BoolOp(vs) => vs@.contains(c),
        Expr::Compare(l, cs) => c == *l || cs@.contains(c),
        Expr::BinOp(l, r) => c == *l || c == *r,
        Expr::UnaryOp(o) => c == *o,
        Expr::If(t, b, o) => c == *t || c == *b || c == *o,
        Expr::Lambda(b) => c == *b,
        Expr::Dict(items) => exists|i: int| 0 <= i < items@.len()
            && ((#[trigger] items@[i]).key == Some(c) || items@[i].value == c),
        Expr::List(es) => es@.contains(c),
        Expr::Tuple(es) => es@.contains(c),
        Expr::SetDisplay(es) => es@.contains(c),
        Expr::Subscript(v, x) => c == *v || c == *x,
        Expr::Starred(v) => c == *v,
        Expr::Await(v) => c == *v,
        Expr::Yield(o) => match o {
            Some(v) => c == *v,
            None => false,
        },
        Expr::YieldFrom(v) => c == *v,
        Expr::Generator(elt, comps) => c == *elt || comp_part(comps@, c),
        Expr::ListComp(elt, comps) => c == *elt || comp_part(comps@, c),
        Expr::SetComp(elt, comps) => c == *elt || comp_part(comps@, c),
        Expr::DictComp(k, v, comps) => c == *k || c == *v || comp_part(comps@, c),
        Expr::FString(es) => es@.contains(c),
        Expr::Named(t, v) => c == *t || c == *v,
        Expr::Other => false,
    }
}

/// `c` is the target, the iterable or a condition of one of the clauses `comps`.
pub open spec fn comp_part(comps: Seq<Comprehension>, c: Expr) -> bool {
    exists|i: int| 0 <= i < comps.len()
        && ((#[trigger] comps[i]).target == c || comps[i].iter == c || comps[i].ifs@.contains(c))
}

/// `e` is an expression that stands directly in the statement `s` (not in a
/// statement nested in it).
pub open spec fn stmt_expr_child(s: Stmt, e: Expr) -> bool {
    match s {
        Stmt::FunctionDef { decorators, params, return_type, .. } => decorators@.contains(e)
            || (exists|i: int| 0 <= i < params@.len()
                && ((#[trigger] params@[i]).annotation == Some(e) || params@[i].default == Some(e)))
            || return_type == Some(e),
        Stmt::ClassDef { decorators, bases, keywords, .. } => decorators@.contains(e) || bases@.contains(e)
            || keywords@.contains(e),
        Stmt::Return(v) => v == Some(e),
        Stmt::Assign { targets, value } => targets@.contains(e) || value == e,
        Stmt::AnnAssign { target, annotation, value } => target == e || annotation == e || value == Some(e),
        Stmt::AugAssign { target, value } => target == e || value == e,
        Stmt::Expr(x) => x == e,
        Stmt::If { test, clauses, .. } => test == e
            || exists|i: int| 0 <= i < clauses@.len() && (#[trigger] clauses@[i]).test == Some(e),
        Stmt::For { target, iter, .. } => target == e || iter == e,
        Stmt::While { test, .. } => test == e,
        Stmt::With { items, .. } => exists|i: int| 0 <= i < items@.len()
            && ((#[trigger] items@[i]).context_expr == e || items@[i].optional_vars == Some(e)),
        Stmt::Try { handlers, .. } => exists|i: int| 0 <= i < handlers@.len() && (#[trigger] handlers@[i]).type_ == Some(e),
        Stmt::Raise { exc, cause } => exc == Some(e) || cause == Some(e),
        Stmt::Assert { test, msg } => test == e || msg == Some(e),
        Stmt::Delete(targets) => targets@.contains(e),
        Stmt::TypeAlias { name, value } => name == e || value == e,
        Stmt::Import(_) => false,
        Stmt::ImportFrom { .. } => false,
        Stmt::Other => false,
    }
}

/// `c` is a statement of one of the bodies of `s`: a function's or class's body,
/// the body of an `if` or of its `elif`/`else` clauses, a loop's body or `else`,
/// a `with` body, or a `try` statement's body, handlers, `else` or `finally`.
pub open spec fn stmt_child(s: Stmt, c: Stmt) -> bool {
    match s {
        Stmt::FunctionDef { body, .. } => body@.contains(c),
        Stmt::ClassDef { body, .. } => body@.contains(c),
        Stmt::If { body, clauses, .. } => body@.contains(c)
            || exists|i: int| 0 <= i < clauses@.len() && (#[trigger] clauses@[i]).body@.contains(c),
        Stmt::For { body, orelse, .. } => body@.contains(c) || orelse@.contains(c),
        Stmt::While { body, orelse, .. } => body@.contains(c) || orelse@.contains(c),
        Stmt::With { body, .. } => body@.contains(c),
        Stmt::Try { body, handlers, orelse, finalbody } => body@.contains(c) || orelse@.contains(c)
            || finalbody@.contains(c)
            || exists|i: int| 0 <= i < handlers@.len() && (#[trigger] handlers@[i]).body@.contains(c),
        _ => false,
    }
}

} // verus!
