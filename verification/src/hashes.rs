//! Hashes of the meaningful tokens of a module: of the whole module, and of
//! each top-level symbol.
//!
//! A token is hashed by its kind and its text, so that a comment or a blank
//! line (trivia) changes no hash, and a change inside one symbol changes only
//! that symbol's hash.
use vstd::prelude::*;
use std::hash::{DefaultHasher, Hasher};
use vstd::slice::slice_subrange;
use vstd::string::StringSliceAdditionalSpecFns;
use vstd::std_specs::hash::DefaultHasherAdditionalSpecFns;
use crate::symbols::{Symbol, copy_symbol, key_text, symbol_model_ok, lemma_cache_key_roundtrip};
use crate::graph::SymbolModel;
use crate::pyast::Stmt;
use crate::refs::{classify, classify_stmt, body_model};
use crate::cache::same_symbol_exec;

verus! {

/// A token of Python source: its kind, the byte offsets where it starts and
/// ends, and whether it is trivia (a comment or a non-logical newline).
#[derive(Debug, Clone, Copy)]
pub struct Token {
    pub kind: u8,
    pub start: usize,
    pub end: usize,
    pub trivia: bool,
}

/// Every token lies within a source of `n` bytes.
pub open spec fn tokens_within(n: nat, toks: Seq<Token>) -> bool {
    forall|i: int| 0 <= i < toks.len() ==> (#[trigger] toks[i]).start <= toks[i].end && toks[i].end <= n
}

/// A token as it is hashed: its kind and its text.
pub open spec fn token_text(src: Seq<u8>, t: Token) -> (u8, Seq<u8>) {
    (t.kind, src.subrange(t.start as int, t.end as int))
}

/// The bytes that hashing a token's kind writes: the kind as an eight-byte
/// little-endian word, the width and order at which a derived `Hash` writes the
/// discriminant of a fieldless enum on 64-bit little-endian targets.
pub open spec fn kind_bytes(k: u8) -> Seq<u8> {
    seq![k, 0u8, 0u8, 0u8, 0u8, 0u8, 0u8, 0u8]
}

/// What hashing a token writes: its kind, its text, and the mark that ends a text.
pub open spec fn text_writes(x: (u8, Seq<u8>)) -> Seq<Seq<u8>> {
    seq![kind_bytes(x.0), x.1, seq![0xffu8]]
}

/// What hashing a sequence of tokens writes, in order.
pub open spec fn all_writes(xs: Seq<(u8, Seq<u8>)>) -> Seq<Seq<u8>>
    decreases xs.len(),
{
    if xs.len() == 0 {
        Seq::empty()
    } else {
        all_writes(xs.drop_last()) + text_writes(xs.last())
    }
}

proof fn lemma_all_writes_push(xs: Seq<(u8, Seq<u8>)>, x: (u8, Seq<u8>))
    ensures
        all_writes(xs.push(x)) == all_writes(xs) + text_writes(x),
{
    assert(xs.push(x).drop_last() =~= xs);
}

/// The meaningful tokens among the first `n` of `toks`, as hashed.
pub open spec fn meaningful(src: Seq<u8>, toks: Seq<Token>, n: int) -> Seq<(u8, Seq<u8>)>
    decreases n,
{
    if n <= 0 {
        Seq::empty()
    } else if toks[n - 1].trivia {
        meaningful(src, toks, n - 1)
    } else {
        meaningful(src, toks, n - 1).push(token_text(src, toks[n - 1]))
    }
}

/// Hash one token into `h`.
fn write_token(h: &mut DefaultHasher, bytes: &[u8], t: &Token)
    requires
        t.start <= t.end <= bytes@.len(),
    ensures
        final(h)@ == old(h)@ + text_writes(token_text(bytes@, *t)),
{
    let kind: Vec<u8> = vec![t.kind, 0, 0, 0, 0, 0, 0, 0];
    assert(kind@ =~= kind_bytes(t.kind));
    h.write(kind.as_slice());
    let text = slice_subrange(bytes, t.start, t.end);
    assert(text@ =~= bytes@.subrange(t.start as int, t.end as int));
    h.write(text);
    let mut mark: Vec<u8> = Vec::new();
    mark.push(0xffu8);
    assert(mark@ =~= seq![0xffu8]);
    h.write(mark.as_slice());
    assert(h@ =~= old(h)@ + text_writes(token_text(bytes@, *t)));
}

/// Compute a hash of the semantic content of Python source code from its
/// tokens: every token but trivia (comments and non-logical newlines) is
/// hashed, by its kind and its text.
pub fn semantic_hash(source: &str, tokens: &Vec<Token>) -> (r: u64)
    requires
        tokens_within(source.spec_bytes().len(), tokens@),
    ensures
        r == semantic_hash_of(source, tokens@),
{
    let bytes = source.as_bytes();
    let mut h = DefaultHasher::new();
    let mut i: usize = 0;
    while i < tokens.len()
        invariant
            i <= tokens@.len(),
            bytes@ == source.spec_bytes(),
            tokens_within(bytes@.len(), tokens@),
            h@ == all_writes(meaningful(bytes@, tokens@, i as int)),
        decreases tokens@.len() - i,
    {
        if !tokens[i].trivia {
            write_token(&mut h, bytes, &tokens[i]);
            proof { lemma_all_writes_push(meaningful(bytes@, tokens@, i as int), token_text(bytes@, tokens@[i as int])); }
        }
        i = i + 1;
    }
    h.finish()
}


/// The semantic hash of a source with its tokens.
pub open spec fn semantic_hash_of(source: &str, tokens: Seq<Token>) -> u64 {
    DefaultHasher::spec_finish(all_writes(meaningful(source.spec_bytes(), tokens, tokens.len() as int)))
}

/// Whether a file changed semantically (beyond comments and whitespace)
/// against its upstream version: a file that could not be read, or that has
/// no upstream version, counts as changed; otherwise the semantic hashes of
/// the two versions are compared.
pub fn semantically_changed(
    current: Option<&str>,
    current_tokens: &Vec<Token>,
    upstream: Option<&str>,
    upstream_tokens: &Vec<Token>,
) -> (r: bool)
    requires
        current is Some ==> tokens_within(current->0.spec_bytes().len(), current_tokens@),
        upstream is Some ==> tokens_within(upstream->0.spec_bytes().len(), upstream_tokens@),
    ensures
        r == match (current, upstream) {
            (Some(c), Some(u)) => semantic_hash_of(c, current_tokens@) != semantic_hash_of(u, upstream_tokens@),
            _ => true,
        },
{
    match (current, upstream) {
        (Some(c), Some(u)) => semantic_hash(c, current_tokens) != semantic_hash(u, upstream_tokens),
        _ => true,
    }
}

// ---------------------------------------------------------------------------
// Per-symbol hashes
// ---------------------------------------------------------------------------

/// Where the statement cursor stops when looking for the owner of a token that
/// starts at `s`: past every statement, from `p` on, that ends at or before `s`.
pub open spec fn advance(rs: Seq<(usize, usize)>, p: int, s: usize) -> int
    decreases rs.len() - p,
{
    if 0 <= p < rs.len() && rs[p].1 <= s {
        advance(rs, p + 1, s)
    } else {
        p
    }
}

/// The statement cursor after the first `n` tokens: it moves only for
/// meaningful tokens, and never back.
pub open spec fn cursor(rs: Seq<(usize, usize)>, toks: Seq<Token>, n: int) -> int
    decreases n,
{
    if n <= 0 {
        0
    } else if toks[n - 1].trivia {
        cursor(rs, toks, n - 1)
    } else {
        advance(rs, cursor(rs, toks, n - 1), toks[n - 1].start)
    }
}

/// The symbol that owns the meaningful token `i`: that of the statement where
/// the cursor stops for it, when that statement's range holds the token; the
/// module body otherwise.
pub open spec fn owner(rs: Seq<(usize, usize)>, syms: Seq<SymbolModel>, toks: Seq<Token>, i: int) -> SymbolModel {
    let p = cursor(rs, toks, i + 1);
    if 0 <= p < rs.len() && rs[p].0 <= toks[i].start && toks[i].end <= rs[p].1 {
        syms[p]
    } else {
        body_model()
    }
}

/// The meaningful tokens among the first `n` that `s` owns, as hashed.
pub open spec fn owned(
    src: Seq<u8>,
    rs: Seq<(usize, usize)>,
    syms: Seq<SymbolModel>,
    toks: Seq<Token>,
    s: SymbolModel,
    n: int,
) -> Seq<(u8, Seq<u8>)>
    decreases n,
{
    if n <= 0 {
        Seq::empty()
    } else if !toks[n - 1].trivia && owner(rs, syms, toks, n - 1) == s {
        owned(src, rs, syms, toks, s, n - 1).push(token_text(src, toks[n - 1]))
    } else {
        owned(src, rs, syms, toks, s, n - 1)
    }
}

/// The symbols that own some meaningful token among the first `n`.
pub open spec fn owners(rs: Seq<(usize, usize)>, syms: Seq<SymbolModel>, toks: Seq<Token>, n: int) -> Set<SymbolModel> {
    Set::new(|s: SymbolModel| exists|i: int| 0 <= i < n && !(#[trigger] toks[i]).trivia && owner(rs, syms, toks, i) == s)
}

/// The symbols held by `v`.
pub open spec fn symbol_set(v: Seq<Symbol>) -> Set<SymbolModel> {
    Set::new(|x: SymbolModel| exists|k: int| 0 <= k < v.len() && (#[trigger] v[k])@ == x)
}

/// The symbols of the top-level statements.
pub open spec fn stmt_symbols(stmts: Seq<Stmt>) -> Seq<SymbolModel> {
    stmts.map_values(|s: Stmt| classify(s))
}

proof fn lemma_advance_stop(rs: Seq<(usize, usize)>, p: int, s: usize)
    requires
        !(0 <= p < rs.len() && rs[p].1 <= s),
    ensures
        advance(rs, p, s) == p,
{
}

/// Compute a hash per top-level symbol from the tokens of the source.
///
/// Each meaningful token belongs to the top-level statement that holds it
/// (statements with the same symbol share one hash); a token outside every
/// statement belongs to the module body. `ranges` holds the byte range of
/// each statement of `stmts`.
#[verifier::rlimit(40)]
pub fn extract_symbol_hashes(
    source: &str,
    stmts: &Vec<Stmt>,
    ranges: &Vec<(usize, usize)>,
    tokens: &Vec<Token>,
) -> (r: Vec<(Symbol, u64)>)
    requires
        ranges@.len() == stmts@.len(),
        tokens_within(source.spec_bytes().len(), tokens@),
    ensures
        forall|a: int, b: int| 0 <= a < r@.len() && 0 <= b < r@.len() && a != b ==> (#[trigger] r@[a]).0@ != (#[trigger] r@[b]).0@,
        forall|x: SymbolModel| (exists|k: int| 0 <= k < r@.len() && (#[trigger] r@[k]).0@ == x)
            <==> owners(ranges@, stmt_symbols(stmts@), tokens@, tokens@.len() as int).contains(x),
        forall|k: int| 0 <= k < r@.len() ==> (#[trigger] r@[k]).1 == DefaultHasher::spec_finish(all_writes(
            owned(source.spec_bytes(), ranges@, stmt_symbols(stmts@), tokens@, r@[k].0@, tokens@.len() as int))),
{
    let bytes = source.as_bytes();
    let ghost src = bytes@;
    let ghost rs = ranges@;
    let ghost toks = tokens@;
    let ghost sv = stmt_symbols(stmts@);
    let mut syms: Vec<Symbol> = Vec::new();
    let mut j: usize = 0;
    while j < stmts.len()
        invariant
            j <= stmts@.len(),
            syms@.len() == j,
            forall|k: int| 0 <= k < j ==> (#[trigger] syms@[k])@ == classify(stmts@[k]),
        decreases stmts@.len() - j,
    {
        syms.push(classify_stmt(&stmts[j]));
        j = j + 1;
    }
    let mut groups: Vec<Symbol> = Vec::new();
    let mut hs: Vec<DefaultHasher> = Vec::new();
    let mut p: usize = 0;
    let mut i: usize = 0;
    while i < tokens.len()
        invariant
            i <= toks.len(),
            src == source.spec_bytes(),
            bytes@ == src,
            rs == ranges@,
            toks == tokens@,
            sv == stmt_symbols(stmts@),
            rs.len() == sv.len(),
            syms@.len() == rs.len(),
            forall|k: int| 0 <= k < syms@.len() ==> (#[trigger] syms@[k])@ == sv[k],
            tokens_within(src.len(), toks),
            groups@.len() == hs@.len(),
            p <= rs.len(),
            p as int == cursor(rs, toks, i as int),
            forall|a: int, b: int| 0 <= a < groups@.len() && 0 <= b < groups@.len() && a != b
                ==> (#[trigger] groups@[a])@ != (#[trigger] groups@[b])@,
            symbol_set(groups@) == owners(rs, sv, toks, i as int),
            forall|k: int| 0 <= k < hs@.len() ==> (#[trigger] hs@[k])@ == all_writes(owned(src, rs, sv, toks, groups@[k]@, i as int)),
        decreases toks.len() - i,
    {
        let t = tokens[i];
        if !t.trivia {
            let ghost p0 = p as int;
            while p < ranges.len() && ranges[p].1 <= t.start
                invariant
                    p0 <= p <= rs.len(),
                    rs == ranges@,
                    advance(rs, p as int, t.start) == advance(rs, p0, t.start),
                decreases rs.len() - p,
            {
                p = p + 1;
            }
            proof { lemma_advance_stop(rs, p as int, t.start); }
            assert(p as int == cursor(rs, toks, i + 1));
            let owner_sym = if p < ranges.len() && ranges[p].0 <= t.start && t.end <= ranges[p].1 {
                copy_symbol(&syms[p])
            } else {
                Symbol::ModuleBody
            };
            assert(owner_sym@ == owner(rs, sv, toks, i as int));
            let mut k: usize = 0;
            let mut hit = false;
            while k < groups.len() && !hit
                invariant
                    k <= groups@.len(),
                    hit ==> k < groups@.len() && groups@[k as int]@ == owner_sym@,
                    forall|m: int| 0 <= m < k ==> (#[trigger] groups@[m])@ != owner_sym@,
                decreases groups@.len() - k + if hit { 0int } else { 1int },
            {
                if same_symbol_exec(&groups[k], &owner_sym) {
                    hit = true;
                } else {
                    k = k + 1;
                }
            }
            let ghost old_groups = groups@;
            let ghost old_hs = hs@;
            if !hit {
                groups.push(owner_sym);
                hs.push(DefaultHasher::new());
                proof {
                    assert(owned(src, rs, sv, toks, groups@[k as int]@, i as int) =~= Seq::<(u8, Seq<u8>)>::empty()) by {
                        lemma_owned_unowned(src, rs, sv, toks, groups@[k as int]@, i as int);
                    }
                }
            }
            let ghost mid_hs = hs@;
            assert(t.start <= t.end && t.end <= src.len()) by {
                assert(toks[i as int] == t);
            }
            let mut h = hs.remove(k);
            write_token(&mut h, bytes, &t);
            hs.insert(k, h);
            proof {
                let x = owner(rs, sv, toks, i as int);
                assert(hs@ =~= mid_hs.update(k as int, h));
                lemma_all_writes_push(owned(src, rs, sv, toks, x, i as int), token_text(src, toks[i as int]));
                assert forall|m: int| 0 <= m < hs@.len() implies (#[trigger] hs@[m])@
                    == all_writes(owned(src, rs, sv, toks, groups@[m]@, i + 1)) by {
                    let y = groups@[m]@;
                    assert(toks[i as int] == t);
                    if y == x {
                        assert(owned(src, rs, sv, toks, y, i + 1) == owned(src, rs, sv, toks, y, i as int).push(token_text(src, toks[i as int])));
                    } else {
                        assert(owned(src, rs, sv, toks, y, i + 1) == owned(src, rs, sv, toks, y, i as int));
                    }
                    if m != k {
                        assert(groups@[m]@ != groups@[k as int]@);
                        assert(hs@[m] == mid_hs[m]);
                        if m < old_hs.len() {
                            assert(mid_hs[m] == old_hs[m]);
                            assert(groups@[m] == old_groups[m]);
                        }
                    }
                }
                assert(symbol_set(groups@) =~= owners(rs, sv, toks, i + 1)) by {
                    assert forall|y: SymbolModel| #[trigger] owners(rs, sv, toks, i + 1).contains(y)
                        implies symbol_set(groups@).contains(y) by {
                        let w = choose|w: int| 0 <= w < i + 1 && !(#[trigger] toks[w]).trivia && owner(rs, sv, toks, w) == y;
                        if w < i {
                            assert(owners(rs, sv, toks, i as int).contains(y));
                            assert(symbol_set(old_groups).contains(y));
                            let m = choose|m: int| 0 <= m < old_groups.len() && (#[trigger] old_groups[m])@ == y;
                            assert(groups@[m] == old_groups[m]);
                        } else {
                            assert(groups@[k as int]@ == y);
                        }
                    }
                    assert forall|y: SymbolModel| #[trigger] symbol_set(groups@).contains(y)
                        implies owners(rs, sv, toks, i + 1).contains(y) by {
                        let m = choose|m: int| 0 <= m < groups@.len() && (#[trigger] groups@[m])@ == y;
                        if m < old_groups.len() {
                            assert(groups@[m] == old_groups[m]);
                            assert(symbol_set(old_groups).contains(y));
                            assert(owners(rs, sv, toks, i as int).contains(y));
                            let w = choose|w: int| 0 <= w < i && !(#[trigger] toks[w]).trivia && owner(rs, sv, toks, w) == y;
                            assert(owners(rs, sv, toks, i + 1).contains(y));
                        } else {
                            assert(owners(rs, sv, toks, i + 1).contains(y));
                        }
                    }
                }
            }
        } else {
            proof {
                assert forall|m: int| 0 <= m < hs@.len() implies (#[trigger] hs@[m])@
                    == all_writes(owned(src, rs, sv, toks, groups@[m]@, i + 1)) by {
                }
                assert forall|y: SymbolModel| owners(rs, sv, toks, i + 1).contains(y) implies owners(rs, sv, toks, i as int).contains(y) by {
                    let w = choose|w: int| 0 <= w < i + 1 && !(#[trigger] toks[w]).trivia && owner(rs, sv, toks, w) == y;
                }
                assert forall|y: SymbolModel| owners(rs, sv, toks, i as int).contains(y) implies owners(rs, sv, toks, i + 1).contains(y) by {
                    let w = choose|w: int| 0 <= w < i && !(#[trigger] toks[w]).trivia && owner(rs, sv, toks, w) == y;
                }
                assert(owners(rs, sv, toks, i + 1) =~= owners(rs, sv, toks, i as int));
            }
        }
        i = i + 1;
    }
    let mut r: Vec<(Symbol, u64)> = Vec::new();
    let mut k: usize = 0;
    while k < groups.len()
        invariant
            k <= groups@.len(),
            groups@.len() == hs@.len(),
            r@.len() == k,
            forall|m: int| 0 <= m < k ==> (#[trigger] r@[m]).0@ == groups@[m]@ && r@[m].1 == DefaultHasher::spec_finish(hs@[m]@),
        decreases groups@.len() - k,
    {
        let v = hs[k].finish();
        r.push((copy_symbol(&groups[k]), v));
        k = k + 1;
    }
    assert forall|x: SymbolModel| (exists|m: int| 0 <= m < r@.len() && (#[trigger] r@[m]).0@ == x)
        <==> #[trigger] owners(rs, sv, toks, toks.len() as int).contains(x) by {
        if exists|m: int| 0 <= m < r@.len() && (#[trigger] r@[m]).0@ == x {
            let m = choose|m: int| 0 <= m < r@.len() && (#[trigger] r@[m]).0@ == x;
            assert(groups@[m]@ == x);
        }
        if owners(rs, sv, toks, toks.len() as int).contains(x) {
            let m = choose|m: int| 0 <= m < groups@.len() && (#[trigger] groups@[m])@ == x;
            assert(r@[m].0@ == x);
        }
    }
    r
}

/// A symbol that owns none of the first `n` tokens has nothing hashed yet.
proof fn lemma_owned_unowned(
    src: Seq<u8>,
    rs: Seq<(usize, usize)>,
    syms: Seq<SymbolModel>,
    toks: Seq<Token>,
    s: SymbolModel,
    n: int,
)
    requires
        !owners(rs, syms, toks, n).contains(s),
    ensures
        owned(src, rs, syms, toks, s, n) == Seq::<(u8, Seq<u8>)>::empty(),
    decreases n,
{
    if n > 0 {
        assert(!owners(rs, syms, toks, n - 1).contains(s)) by {
            if owners(rs, syms, toks, n - 1).contains(s) {
                let w = choose|w: int| 0 <= w < n - 1 && !(#[trigger] toks[w]).trivia && owner(rs, syms, toks, w) == s;
                assert(owners(rs, syms, toks, n).contains(s));
            }
        }
        lemma_owned_unowned(src, rs, syms, toks, s, n - 1);
        if !toks[n - 1].trivia && owner(rs, syms, toks, n - 1) == s {
            assert(owners(rs, syms, toks, n).contains(s));
        }
    }
}


// ---------------------------------------------------------------------------
// Ownership of tokens for parsed sources
// ---------------------------------------------------------------------------

/// The statement ranges are in order and do not overlap, as a parser gives them.
pub open spec fn ranges_ordered(rs: Seq<(usize, usize)>) -> bool {
    &&& forall|i: int| 0 <= i < rs.len() ==> (#[trigger] rs[i]).0 <= rs[i].1
    &&& forall|i: int, j: int| 0 <= i < j < rs.len() ==> (#[trigger] rs[i]).1 <= (#[trigger] rs[j]).0
}

/// The tokens are in order of their starts, as a lexer gives them.
pub open spec fn tokens_ordered(toks: Seq<Token>) -> bool {
    forall|i: int, j: int| 0 <= i < j < toks.len() ==> (#[trigger] toks[i]).start <= (#[trigger] toks[j]).start
}

proof fn lemma_advance_le(rs: Seq<(usize, usize)>, c: int, s: usize, p: int)
    requires
        0 <= c <= p < rs.len(),
        s < rs[p].1,
    ensures
        c <= advance(rs, c, s) <= p,
    decreases p - c,
{
    if c < p && rs[c].1 <= s {
        lemma_advance_le(rs, c + 1, s, p);
    }
}

proof fn lemma_advance_from(rs: Seq<(usize, usize)>, c: int, s: usize)
    ensures
        advance(rs, c, s) >= c,
    decreases rs.len() - c,
{
    if 0 <= c < rs.len() && rs[c].1 <= s {
        lemma_advance_from(rs, c + 1, s);
    }
}

proof fn lemma_advance_ge(rs: Seq<(usize, usize)>, c: int, s: usize, p: int)
    requires
        0 <= c <= p <= rs.len(),
        forall|q: int| c <= q < p ==> (#[trigger] rs[q]).1 <= s,
    ensures
        advance(rs, c, s) >= p,
    decreases p - c,
{
    if c < p {
        assert(rs[c].1 <= s);
        lemma_advance_ge(rs, c + 1, s, p);
    } else {
        lemma_advance_from(rs, c, s);
    }
}

proof fn lemma_cursor_le(rs: Seq<(usize, usize)>, toks: Seq<Token>, n: int, s: usize, p: int)
    requires
        0 <= n <= toks.len(),
        0 <= p < rs.len(),
        s < rs[p].1,
        forall|j: int| 0 <= j < n ==> (#[trigger] toks[j]).start <= s,
    ensures
        0 <= cursor(rs, toks, n) <= p,
    decreases n,
{
    if n > 0 {
        lemma_cursor_le(rs, toks, n - 1, s, p);
        if !toks[n - 1].trivia {
            lemma_advance_le(rs, cursor(rs, toks, n - 1), toks[n - 1].start, p);
        }
    }
}

/// With the statements in order and not overlapping, and the tokens in order
/// (as a parser gives them), a meaningful token that starts inside the range
/// of a statement, and ends within it, is owned by that statement's symbol: a
/// symbol's hash covers the tokens of its own statements.
pub proof fn lemma_owner_is_enclosing_statement(
    rs: Seq<(usize, usize)>,
    syms: Seq<SymbolModel>,
    toks: Seq<Token>,
    i: int,
    p: int,
)
    requires
        ranges_ordered(rs),
        tokens_ordered(toks),
        0 <= i < toks.len(),
        !toks[i].trivia,
        0 <= p < rs.len(),
        rs[p].0 <= toks[i].start < rs[p].1,
        toks[i].end <= rs[p].1,
    ensures
        owner(rs, syms, toks, i) == syms[p],
{
    let s = toks[i].start;
    assert forall|j: int| 0 <= j < i implies (#[trigger] toks[j]).start <= s by {
        assert(toks[j].start <= toks[i].start);
    }
    lemma_cursor_le(rs, toks, i, s, p);
    let c = cursor(rs, toks, i);
    assert forall|q: int| c <= q < p implies (#[trigger] rs[q]).1 <= s by {
        assert(rs[q].1 <= rs[p].0);
    }
    lemma_advance_ge(rs, c, s, p);
    lemma_advance_le(rs, c, s, p);
    assert(cursor(rs, toks, i + 1) == advance(rs, c, s));
}

// ---------------------------------------------------------------------------
// Trivia changes no hash
// ---------------------------------------------------------------------------

proof fn lemma_meaningful_prefix(src: Seq<u8>, toks: Seq<Token>, j: int, t: Token, n: int)
    requires
        0 <= n <= j <= toks.len(),
    ensures
        meaningful(src, toks.insert(j, t), n) == meaningful(src, toks, n),
    decreases n,
{
    if n > 0 {
        lemma_meaningful_prefix(src, toks, j, t, n - 1);
        assert(toks.insert(j, t)[n - 1] == toks[n - 1]);
    }
}

proof fn lemma_meaningful_shift(src: Seq<u8>, toks: Seq<Token>, j: int, t: Token, n: int)
    requires
        0 <= j <= n <= toks.len(),
        t.trivia,
    ensures
        meaningful(src, toks.insert(j, t), n + 1) == meaningful(src, toks, n),
    decreases n,
{
    let ins = toks.insert(j, t);
    if n == j {
        lemma_meaningful_prefix(src, toks, j, t, j);
        assert(ins[j] == t);
    } else {
        lemma_meaningful_shift(src, toks, j, t, n - 1);
        assert(ins[n] == toks[n - 1]);
    }
}

/// Adding a trivia token (a comment, a blank line) anywhere among the tokens
/// leaves the meaningful tokens, and so the semantic hash, unchanged.
pub proof fn lemma_semantic_hash_ignores_trivia(src: Seq<u8>, toks: Seq<Token>, j: int, t: Token)
    requires
        0 <= j <= toks.len(),
        t.trivia,
    ensures
        meaningful(src, toks.insert(j, t), toks.len() + 1int) == meaningful(src, toks, toks.len() as int),
        DefaultHasher::spec_finish(all_writes(meaningful(src, toks.insert(j, t), toks.len() + 1int)))
            == DefaultHasher::spec_finish(all_writes(meaningful(src, toks, toks.len() as int))),
{
    lemma_meaningful_shift(src, toks, j, t, toks.len() as int);
}

proof fn lemma_cursor_prefix(rs: Seq<(usize, usize)>, toks: Seq<Token>, j: int, t: Token, n: int)
    requires
        0 <= n <= j <= toks.len(),
    ensures
        cursor(rs, toks.insert(j, t), n) == cursor(rs, toks, n),
    decreases n,
{
    if n > 0 {
        lemma_cursor_prefix(rs, toks, j, t, n - 1);
        assert(toks.insert(j, t)[n - 1] == toks[n - 1]);
    }
}

proof fn lemma_cursor_shift(rs: Seq<(usize, usize)>, toks: Seq<Token>, j: int, t: Token, n: int)
    requires
        0 <= j <= n <= toks.len(),
        t.trivia,
    ensures
        cursor(rs, toks.insert(j, t), n + 1) == cursor(rs, toks, n),
    decreases n,
{
    let ins = toks.insert(j, t);
    if n == j {
        lemma_cursor_prefix(rs, toks, j, t, j);
        assert(ins[j] == t);
    } else {
        lemma_cursor_shift(rs, toks, j, t, n - 1);
        assert(ins[n] == toks[n - 1]);
    }
}

proof fn lemma_owned_prefix(
    src: Seq<u8>,
    rs: Seq<(usize, usize)>,
    syms: Seq<SymbolModel>,
    toks: Seq<Token>,
    j: int,
    t: Token,
    s: SymbolModel,
    n: int,
)
    requires
        0 <= n <= j <= toks.len(),
    ensures
        owned(src, rs, syms, toks.insert(j, t), s, n) == owned(src, rs, syms, toks, s, n),
    decreases n,
{
    if n > 0 {
        lemma_owned_prefix(src, rs, syms, toks, j, t, s, n - 1);
        assert(toks.insert(j, t)[n - 1] == toks[n - 1]);
        lemma_cursor_prefix(rs, toks, j, t, n);
        assert(owner(rs, syms, toks.insert(j, t), n - 1) == owner(rs, syms, toks, n - 1));
    }
}

proof fn lemma_owned_shift(
    src: Seq<u8>,
    rs: Seq<(usize, usize)>,
    syms: Seq<SymbolModel>,
    toks: Seq<Token>,
    j: int,
    t: Token,
    s: SymbolModel,
    n: int,
)
    requires
        0 <= j <= n <= toks.len(),
        t.trivia,
    ensures
        owned(src, rs, syms, toks.insert(j, t), s, n + 1) == owned(src, rs, syms, toks, s, n),
    decreases n,
{
    let ins = toks.insert(j, t);
    if n == j {
        lemma_owned_prefix(src, rs, syms, toks, j, t, s, j);
        assert(ins[j] == t);
    } else {
        lemma_owned_shift(src, rs, syms, toks, j, t, s, n - 1);
        assert(ins[n] == toks[n - 1]);
        lemma_cursor_shift(rs, toks, j, t, n);
        assert(owner(rs, syms, ins, n) == owner(rs, syms, toks, n - 1));
    }
}

/// Adding a trivia token (a comment, a blank line) anywhere among the tokens
/// leaves the tokens that each symbol owns, and so each symbol's hash, unchanged.
pub proof fn lemma_symbol_hashes_ignore_trivia(
    src: Seq<u8>,
    rs: Seq<(usize, usize)>,
    syms: Seq<SymbolModel>,
    toks: Seq<Token>,
    j: int,
    t: Token,
    s: SymbolModel,
)
    requires
        0 <= j <= toks.len(),
        t.trivia,
    ensures
        owned(src, rs, syms, toks.insert(j, t), s, toks.len() + 1int) == owned(src, rs, syms, toks, s, toks.len() as int),
        DefaultHasher::spec_finish(all_writes(owned(src, rs, syms, toks.insert(j, t), s, toks.len() + 1int)))
            == DefaultHasher::spec_finish(all_writes(owned(src, rs, syms, toks, s, toks.len() as int))),
{
    lemma_owned_shift(src, rs, syms, toks, j, t, s, toks.len() as int);
}


// ---------------------------------------------------------------------------
// Per-symbol hashes keyed for the cache
// ---------------------------------------------------------------------------

/// `v` holds, keyed by symbol cache key, the hash of each symbol that owns
/// some meaningful token, each once.
pub open spec fn keyed_hashes(
    v: Seq<(String, u64)>,
    src: Seq<u8>,
    rs: Seq<(usize, usize)>,
    syms: Seq<SymbolModel>,
    toks: Seq<Token>,
) -> bool {
    &&& keyed_sound(v, src, rs, syms, toks)
    &&& keyed_complete(v, rs, syms, toks)
    &&& keyed_distinct(v)
}

/// `e` is the key and the hash of a symbol that owns some meaningful token.
pub open spec fn entry_sound(
    e: (String, u64),
    src: Seq<u8>,
    rs: Seq<(usize, usize)>,
    syms: Seq<SymbolModel>,
    toks: Seq<Token>,
) -> bool {
    exists|x: SymbolModel| #[trigger] owners(rs, syms, toks, toks.len() as int).contains(x)
        && e.0@ == key_text(x) && e.1 == DefaultHasher::spec_finish(all_writes(owned(src, rs, syms, toks, x, toks.len() as int)))
}

/// Each entry of `v` is the key and the hash of a symbol that owns some meaningful token.
pub open spec fn keyed_sound(
    v: Seq<(String, u64)>,
    src: Seq<u8>,
    rs: Seq<(usize, usize)>,
    syms: Seq<SymbolModel>,
    toks: Seq<Token>,
) -> bool {
    forall|k: int| 0 <= k < v.len() ==> #[trigger] entry_sound(v[k], src, rs, syms, toks)
}

/// Every symbol that owns some meaningful token has an entry in `v`.
pub open spec fn keyed_complete(
    v: Seq<(String, u64)>,
    rs: Seq<(usize, usize)>,
    syms: Seq<SymbolModel>,
    toks: Seq<Token>,
) -> bool {
    forall|x: SymbolModel| #[trigger] owners(rs, syms, toks, toks.len() as int).contains(x)
        ==> exists|k: int| 0 <= k < v.len() && (#[trigger] v[k]).0@ == key_text(x)
}

/// No key occurs twice in `v`.
pub open spec fn keyed_distinct(v: Seq<(String, u64)>) -> bool {
    forall|a: int, b: int| 0 <= a < v.len() && 0 <= b < v.len() && a != b ==> (#[trigger] v[a]).0@ != (#[trigger] v[b]).0@
}

/// The per-symbol hashes of a source, keyed by the cache keys of the symbols.
pub fn keyed_symbol_hashes(
    source: &str,
    stmts: &Vec<Stmt>,
    ranges: &Vec<(usize, usize)>,
    tokens: &Vec<Token>,
) -> (r: Vec<(String, u64)>)
    requires
        ranges@.len() == stmts@.len(),
        tokens_within(source.spec_bytes().len(), tokens@),
    ensures
        keyed_hashes(r@, source.spec_bytes(), ranges@, stmt_symbols(stmts@), tokens@),
{
    let hs = extract_symbol_hashes(source, stmts, ranges, tokens);
    let ghost src = source.spec_bytes();
    let ghost sv = stmt_symbols(stmts@);
    let mut r: Vec<(String, u64)> = Vec::new();
    let mut i: usize = 0;
    while i < hs.len()
        invariant
            i <= hs@.len(),
            r@.len() == i,
            forall|k: int| 0 <= k < i ==> (#[trigger] r@[k]).0@ == key_text(hs@[k].0@) && r@[k].1 == hs@[k].1,
        decreases hs@.len() - i,
    {
        r.push((hs[i].0.cache_key(), hs[i].1));
        i = i + 1;
    }
    assert forall|k: int| 0 <= k < r@.len() implies #[trigger] entry_sound(r@[k], src, ranges@, sv, tokens@) by {
        let x = hs@[k].0@;
        assert(exists|m: int| 0 <= m < hs@.len() && (#[trigger] hs@[m]).0@ == x);
        assert(owners(ranges@, sv, tokens@, tokens@.len() as int).contains(x));
    }
    assert forall|x: SymbolModel| #[trigger] owners(ranges@, sv, tokens@, tokens@.len() as int).contains(x)
        implies exists|k: int| 0 <= k < r@.len() && (#[trigger] r@[k]).0@ == key_text(x) by {
        let m = choose|m: int| 0 <= m < hs@.len() && (#[trigger] hs@[m]).0@ == x;
        assert(r@[m].0@ == key_text(x));
    }
    assert forall|a: int, b: int| 0 <= a < r@.len() && 0 <= b < r@.len() && a != b implies (#[trigger] r@[a]).0@ != (#[trigger] r@[b]).0@ by {
        if r@[a].0@ == r@[b].0@ {
            lemma_symbol_view_ok(hs@[a].0);
            lemma_symbol_view_ok(hs@[b].0);
            lemma_cache_key_roundtrip(hs@[a].0@);
            lemma_cache_key_roundtrip(hs@[b].0@);
        }
    }
    assert(keyed_sound(r@, src, ranges@, sv, tokens@));
    assert(keyed_complete(r@, ranges@, sv, tokens@));
    assert(keyed_distinct(r@));
    r
}

proof fn lemma_symbol_view_ok(s: Symbol)
    ensures
        symbol_model_ok(s@),
{
}

} // verus!
