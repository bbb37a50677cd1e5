//! The content-addressed cache of per-file import results: cache keys, where an
//! entry lives on disk, which entries are read back, and which stale ones go.
use vstd::prelude::*;
use crate::symbols::{ModuleSymbolUsage, Symbol, SymbolKind, symset, named, propagated, copy_symbol,
    propagate_intra_module_changes};
use crate::text::{chars_of, string_from_chars, sep_scan, split_on, trim, trim_range, range_eq, push_char,
    lead_ws, trail_ws, lemma_lead_ws, lemma_trail_ws, is_ws};
use crate::paths::{path_join, join_path};
use crate::imports::{opt_view, extract_imports, import_targets};
use crate::hashes::{Token, tokens_within, semantic_hash, semantic_hash_of, keyed_symbol_hashes, keyed_hashes, stmt_symbols};
use crate::usage::{extract_symbol_usage, symbol_usage_of, lemma_usage_within_imports};
use crate::pyast::Stmt;
use crate::strs::{sset, nodup};
use vstd::string::StringSliceAdditionalSpecFns;

verus! {

/// The XXH3 64-bit hash of `data`.
pub uninterp spec fn xxh3_64_of(data: Seq<u8>) -> u64;

/// Trusted: `xxhash_rust::xxh3::xxh3_64`, a hash of its argument alone, named `xxh3_64_of`.
#[verifier::external_body]
fn xxh3_64(data: &[u8]) -> (r: u64)
    ensures
        r == xxh3_64_of(data@),
{
    xxhash_rust::xxh3::xxh3_64(data)
}

/// `x` rotated left by 32 bits.
pub open spec fn rotl32(x: u64) -> u64 {
    (x << 32u64) | (x >> 32u64)
}

/// The cache key of a file's content and module name: the hash of the content,
/// combined with the rotated hash of the module name's UTF-8 bytes (the same text
/// in another package resolves its relative imports differently).
pub open spec fn cache_key_of(content: Seq<u8>, module_bytes: Seq<u8>) -> u64 {
    xxh3_64_of(content) ^ rotl32(xxh3_64_of(module_bytes))
}

/// Compute a cache key from file content and module class name.
///
/// Module class is needed because relative imports resolve differently depending
/// on file location, so the same source content in different packages should produce
/// different cache entries.
pub fn cache_key(content: &[u8], module_class: &str) -> (r: u64)
    ensures
        r == cache_key_of(content@, module_class.spec_bytes()),
{
    let content_hash = xxh3_64(content);
    let module_hash = xxh3_64(module_class.as_bytes());
    content_hash ^ ((module_hash << 32u64) | (module_hash >> 32u64))
}

/// The lower-case hexadecimal digit of `d`.
pub open spec fn hex_digit(d: nat) -> char {
    if d < 10 {
        ((d + 48) as u8) as char
    } else {
        ((d + 87) as u8) as char
    }
}

/// The last `n` hexadecimal digits of `x`, most significant first.
pub open spec fn hex_digits(x: nat, n: nat) -> Seq<char>
    decreases n,
{
    if n == 0 {
        Seq::empty()
    } else {
        hex_digits(x / 16, (n - 1) as nat).push(hex_digit(x % 16))
    }
}

/// `x` as sixteen lower-case hexadecimal digits, as `format!("{:016x}", x)` writes it.
pub open spec fn hex16(x: u64) -> Seq<char> {
    hex_digits(x as nat, 16)
}

fn hex_char(d: u64) -> (c: char)
    requires
        d < 16,
    ensures
        c == hex_digit(d as nat),
{
    if d < 10 {
        ((d + 48) as u8) as char
    } else {
        ((d + 87) as u8) as char
    }
}

fn hex_digits_exec(x: u64, n: usize) -> (r: Vec<char>)
    ensures
        r@ == hex_digits(x as nat, n as nat),
        r@.len() == n,
    decreases n,
{
    if n == 0 {
        Vec::new()
    } else {
        let mut r = hex_digits_exec(x / 16, n - 1);
        r.push(hex_char(x % 16));
        r
    }
}

pub open spec fn shorts_dir() -> Seq<char> {
    seq!['.', 's', 'h', 'o', 'r', 't', 's']
}

pub open spec fn cache_dir_name() -> Seq<char> {
    seq!['c', 'a', 'c', 'h', 'e']
}

pub open spec fn json_ext() -> Seq<char> {
    seq!['j', 's', 'o', 'n']
}

/// Where the cache under `base` keeps the entry of `hash`:
/// `base/.shorts/cache/XX/HEX.json`, `HEX` the sixteen hexadecimal digits of the
/// hash and `XX` its first two.
pub open spec fn entry_path_of(base: Seq<char>, hash: u64) -> Seq<char> {
    path_join(
        path_join(path_join(path_join(base, shorts_dir()), cache_dir_name()), hex16(hash).take(2)),
        hex16(hash) + seq!['.'] + json_ext(),
    )
}

/// Where the cache under `base` keeps its entries: `base/.shorts/cache`.
pub open spec fn cache_root_of(base: Seq<char>) -> Seq<char> {
    path_join(path_join(base, shorts_dir()), cache_dir_name())
}

fn cache_root_chars(base: &Vec<char>) -> (r: Vec<char>)
    ensures
        r@ == cache_root_of(base@),
{
    let sd = vec!['.', 's', 'h', 'o', 'r', 't', 's'];
    let cd = vec!['c', 'a', 'c', 'h', 'e'];
    assert(sd@ =~= shorts_dir());
    assert(cd@ =~= cache_dir_name());
    join_path(&join_path(base, &sd), &cd)
}

/// Where the cache under `base` keeps the entry of `hash`.
pub fn entry_path(base: &str, hash: u64) -> (r: String)
    ensures
        r@ == entry_path_of(base@, hash),
{
    let b = chars_of(base);
    let hex = hex_digits_exec(hash, 16);
    let mut two: Vec<char> = Vec::new();
    two.push(hex[0]);
    two.push(hex[1]);
    assert(two@ =~= hex16(hash).take(2));
    let mut file = hex.clone();
    file.push('.');
    file.push('j');
    file.push('s');
    file.push('o');
    file.push('n');
    assert(file@ =~= hex16(hash) + seq!['.'] + json_ext());
    let dir = join_path(&cache_root_chars(&b), &two);
    string_from_chars(&join_path(&dir, &file))
}

/// What the cache remembers of one parsed file.
pub struct CacheEntry {
    /// The modules the file may import.
    pub imports: Vec<String>,
    /// Hash of the file's non-trivia tokens, to tell semantic changes from others.
    pub semantic_hash: u64,
    /// Per-symbol hashes, keyed by symbol cache keys; `None` in entries of the old format.
    pub symbol_hashes: Option<Vec<(String, u64)>>,
    /// What the file uses of each module it imports.
    pub symbol_usage: ModuleSymbolUsage,
}

/// The cache entry of a file from its parse: the modules it may import and
/// what it uses of each (from the statements of a clean parse, none when the
/// file does not parse), its semantic hash and per-symbol hashes (from the
/// tokens and the statements of a lenient parse, whose byte ranges `ranges` holds).
pub fn entry_of_parse(
    module_class: &str,
    stmts: &Vec<Stmt>,
    source: &str,
    lenient: &Vec<Stmt>,
    ranges: &Vec<(usize, usize)>,
    tokens: &Vec<Token>,
) -> (r: CacheEntry)
    requires
        ranges@.len() == lenient@.len(),
        tokens_within(source.spec_bytes().len(), tokens@),
    ensures
        sset(r.imports@) == import_targets(module_class@, stmts@),
        nodup(r.imports@),
        r.semantic_hash == semantic_hash_of(source, tokens@),
        r.symbol_hashes matches Some(v) && keyed_hashes(v@, source.spec_bytes(), ranges@, stmt_symbols(lenient@), tokens@),
        r.symbol_usage.wf(),
        r.symbol_usage@ == symbol_usage_of(module_class@, stmts@),
        forall|m: Seq<char>| #[trigger] r.symbol_usage@.contains_key(m) ==> sset(r.imports@).contains(m),
{
    proof {
        lemma_usage_within_imports(module_class@, stmts@);
    }
    CacheEntry {
        imports: extract_imports(module_class, stmts),
        semantic_hash: semantic_hash(source, tokens),
        symbol_hashes: Some(keyed_symbol_hashes(source, lenient, ranges, tokens)),
        symbol_usage: extract_symbol_usage(module_class, stmts),
    }
}

/// A stored entry of the current format, with per-symbol hashes.
pub open spec fn entry_is_current(stored: Option<CacheEntry>) -> bool {
    match stored {
        Some(e) => e.symbol_hashes is Some,
        None => false,
    }
}

/// Content-addressable, directory-backed import cache: where it lives, if it is
/// enabled, and which entries this run has read or written.
pub struct ImportCache {
    cache_dir: Option<String>,
    accessed: Vec<u64>,
}

impl ImportCache {
    /// The directory under which the cache lives, or `None` when it is disabled.
    pub closed spec fn dir(&self) -> Option<Seq<char>> {
        opt_view(self.cache_dir)
    }

    /// The hashes of the entries read or written in this run.
    pub closed spec fn accessed_set(&self) -> Set<u64> {
        self.accessed@.to_set()
    }

    /// Create a new cache handle. No I/O is performed.
    pub fn new(cache_dir: Option<String>) -> (r: ImportCache)
        ensures
            r.dir() == opt_view(cache_dir),
            r.accessed_set() == Set::<u64>::empty(),
    {
        let r = ImportCache { cache_dir, accessed: Vec::new() };
        assert(r.accessed@.to_set() =~= Set::<u64>::empty());
        r
    }

    /// The directory under which the cache lives, or `None` when it is disabled.
    pub fn cache_dir(&self) -> (r: Option<&String>)
        ensures
            match r {
                Some(d) => self.dir() == Some(d@),
                None => self.dir() is None,
            },
    {
        match &self.cache_dir {
            Some(d) => Some(d),
            None => None,
        }
    }

    /// Whether this run has read or written the entry of `hash`.
    pub fn was_accessed(&self, hash: u64) -> (r: bool)
        ensures
            r == self.accessed_set().contains(hash),
    {
        let mut i: usize = 0;
        while i < self.accessed.len()
            invariant
                i <= self.accessed@.len(),
                forall|k: int| 0 <= k < i ==> self.accessed@[k] != hash,
            decreases self.accessed@.len() - i,
        {
            if self.accessed[i] == hash {
                assert(self.accessed@.contains(hash));
                return true;
            }
            i = i + 1;
        }
        false
    }

    fn mark(&mut self, hash: u64)
        ensures
            final(self).dir() == old(self).dir(),
            final(self).accessed_set() == old(self).accessed_set().insert(hash),
    {
        let ghost before = self.accessed@;
        self.accessed.push(hash);
        assert(self.accessed@.to_set() =~= before.to_set().insert(hash)) by {
            assert forall|h: u64| self.accessed@.to_set().contains(h) implies before.to_set().insert(hash).contains(h) by {
                if self.accessed@.contains(h) {
                    let k = choose|k: int| 0 <= k < self.accessed@.len() && self.accessed@[k] == h;
                    if k < before.len() {
                        assert(before[k] == h);
                    }
                }
            }
            assert forall|h: u64| before.to_set().insert(hash).contains(h) implies self.accessed@.to_set().contains(h) by {
                if before.contains(h) {
                    let k = choose|k: int| 0 <= k < before.len() && before[k] == h;
                    assert(self.accessed@[k] == h);
                } else {
                    assert(self.accessed@[before.len() as int] == hash);
                }
            }
        }
    }

    /// Where the entry of `hash` lives, or `None` when the cache is disabled.
    pub fn entry_path(&self, hash: u64) -> (r: Option<String>)
        ensures
            match self.dir() {
                Some(base) => r matches Some(p) && p@ == entry_path_of(base, hash),
                None => r is None,
            },
    {
        match &self.cache_dir {
            Some(base) => Some(entry_path(base.as_str(), hash)),
            None => None,
        }
    }

    /// Where the cache keeps its entries, or `None` when it is disabled.
    pub fn cache_root(&self) -> (r: Option<String>)
        ensures
            match self.dir() {
                Some(base) => r matches Some(p) && p@ == cache_root_of(base),
                None => r is None,
            },
    {
        match &self.cache_dir {
            Some(base) => {
                let b = chars_of(base.as_str());
                Some(string_from_chars(&cache_root_chars(&b)))
            },
            None => None,
        }
    }

    /// Look up a cached entry by its content hash key, given what was stored
    /// under `entry_path(hash)` (`None` when there was nothing readable).
    ///
    /// Returns `None` if the cache is disabled, nothing was stored, or the entry has
    /// no `symbol_hashes` (old format); a returned entry counts as accessed.
    pub fn get(&mut self, hash: u64, stored: Option<CacheEntry>) -> (r: Option<CacheEntry>)
        ensures
            final(self).dir() == old(self).dir(),
            (r is Some) == (old(self).dir() is Some && entry_is_current(stored)),
            r is Some ==> r == stored,
            final(self).accessed_set() == (if r is Some {
                old(self).accessed_set().insert(hash)
            } else {
                old(self).accessed_set()
            }),
    {
        if self.cache_dir.is_none() {
            return None;
        }
        match stored {
            Some(e) => {
                if e.symbol_hashes.is_none() {
                    return None;
                }
                self.mark(hash);
                Some(e)
            },
            None => None,
        }
    }

    /// The files that writing `entries` goes to, one per entry and in order
    /// (each written through a `.tmp` file then renamed); none when the cache is disabled.
    pub fn write_entries(&self, entries: &Vec<(u64, CacheEntry)>) -> (r: Vec<String>)
        ensures
            match self.dir() {
                Some(base) => r@.len() == entries@.len() && forall|i: int| 0 <= i < r@.len()
                    ==> (#[trigger] r@[i])@ == entry_path_of(base, entries@[i].0),
                None => r@.len() == 0,
            },
    {
        let mut r: Vec<String> = Vec::new();
        match &self.cache_dir {
            None => r,
            Some(base) => {
                let mut i: usize = 0;
                while i < entries.len()
                    invariant
                        i <= entries@.len(),
                        self.dir() == Some(base@),
                        r@.len() == i,
                        forall|k: int| 0 <= k < i ==> (#[trigger] r@[k])@ == entry_path_of(base@, entries@[k].0),
                    decreases entries@.len() - i,
                {
                    r.push(entry_path(base.as_str(), entries[i].0));
                    i = i + 1;
                }
                r
            },
        }
    }

    /// Mark the entries to be written as accessed, and give the files they go to;
    /// the stale entries are then pruned (see `prune`).
    pub fn write_entries_and_prune(&mut self, entries: &Vec<(u64, CacheEntry)>) -> (r: Vec<String>)
        ensures
            final(self).dir() == old(self).dir(),
            final(self).accessed_set() == old(self).accessed_set().union(
                Set::new(|h: u64| exists|i: int| 0 <= i < entries@.len() && (#[trigger] entries@[i]).0 == h),
            ),
            match old(self).dir() {
                Some(base) => r@.len() == entries@.len() && forall|i: int| 0 <= i < r@.len()
                    ==> (#[trigger] r@[i])@ == entry_path_of(base, entries@[i].0),
                None => r@.len() == 0,
            },
    {
        let ghost start = self.accessed_set();
        let mut i: usize = 0;
        while i < entries.len()
            invariant
                i <= entries@.len(),
                self.dir() == old(self).dir(),
                start == old(self).accessed_set(),
                self.accessed_set() == start.union(
                    Set::new(|h: u64| exists|k: int| 0 <= k < i && (#[trigger] entries@[k]).0 == h),
                ),
            decreases entries@.len() - i,
        {
            let ghost before = self.accessed_set();
            self.mark(entries[i].0);
            assert(self.accessed_set() =~= start.union(
                Set::new(|h: u64| exists|k: int| 0 <= k < i + 1 && (#[trigger] entries@[k]).0 == h),
            )) by {
                assert forall|h: u64| (exists|k: int| 0 <= k < i + 1 && (#[trigger] entries@[k]).0 == h) implies
                    before.insert(entries@[i as int].0).contains(h) by {
                    let k = choose|k: int| 0 <= k < i + 1 && (#[trigger] entries@[k]).0 == h;
                    if k < i {
                        assert(exists|k2: int| 0 <= k2 < i && (#[trigger] entries@[k2]).0 == h);
                    }
                }
            }
            i = i + 1;
        }
        assert(self.accessed_set() =~= old(self).accessed_set().union(
            Set::new(|h: u64| exists|k: int| 0 <= k < entries@.len() && (#[trigger] entries@[k]).0 == h),
        ));
        self.write_entries(entries)
    }
}

/// The last index of `c` in `s`.
pub open spec fn last_index(s: Seq<char>, c: char) -> Option<int>
    decreases s.len(),
{
    if s.len() == 0 {
        None
    } else if s.last() == c {
        Some(s.len() - 1)
    } else {
        last_index(s.drop_last(), c)
    }
}

proof fn lemma_last_index(s: Seq<char>, c: char)
    ensures
        match last_index(s, c) {
            Some(k) => 0 <= k < s.len() && s[k] == c && forall|j: int| k < j < s.len() ==> s[j] != c,
            None => forall|j: int| 0 <= j < s.len() ==> s[j] != c,
        },
    decreases s.len(),
{
    if s.len() > 0 && s.last() != c {
        let t = s.drop_last();
        lemma_last_index(t, c);
        assert forall|j: int| 0 <= j < t.len() implies s[j] == t[j] by {}
    }
}

/// A file name split into its stem and extension, as `Path::file_stem` and
/// `Path::extension` split it: at the last `.`, unless the name is `..`, has no
/// `.`, or has its only `.` in front.
pub open spec fn split_ext(name: Seq<char>) -> (Seq<char>, Option<Seq<char>>) {
    if name == seq!['.', '.'] {
        (name, None)
    } else {
        match last_index(name, '.') {
            None => (name, None),
            Some(k) => if k == 0 {
                (name, None)
            } else {
                (name.take(k), Some(name.skip(k + 1)))
            },
        }
    }
}

/// The value of a hexadecimal digit.
pub open spec fn hex_value(c: char) -> Option<nat> {
    if '0' <= c && c <= '9' {
        Some((c as nat - 48) as nat)
    } else if 'a' <= c && c <= 'f' {
        Some((c as nat - 87) as nat)
    } else if 'A' <= c && c <= 'F' {
        Some((c as nat - 55) as nat)
    } else {
        None
    }
}

/// The number that the hexadecimal digits `s` write, if they all are digits.
pub open spec fn hex_number(s: Seq<char>) -> Option<nat>
    decreases s.len(),
{
    if s.len() == 0 {
        Some(0)
    } else {
        match (hex_number(s.drop_last()), hex_value(s.last())) {
            (Some(v), Some(d)) => Some(v * 16 + d),
            _ => None,
        }
    }
}

/// `s` read as `u64::from_str_radix(s, 16)` reads it: an optional `+`, then at
/// least one hexadecimal digit, the value within `u64`.
pub open spec fn parse_hex_u64(s: Seq<char>) -> Option<u64> {
    let body = if s.len() > 0 && s[0] == '+' { s.skip(1) } else { s };
    if body.len() == 0 {
        None
    } else {
        match hex_number(body) {
            Some(v) => if v <= u64::MAX {
                Some(v as u64)
            } else {
                None
            },
            None => None,
        }
    }
}

proof fn lemma_hex_number_grows(s: Seq<char>, i: int)
    requires
        0 <= i <= s.len(),
        hex_number(s) is Some,
    ensures
        hex_number(s.take(i)) is Some,
        hex_number(s.take(i)).unwrap() <= hex_number(s).unwrap(),
    decreases s.len(),
{
    if i < s.len() {
        assert(s.drop_last().take(i) =~= s.take(i));
        lemma_hex_number_grows(s.drop_last(), i);
    } else {
        assert(s.take(i) =~= s);
    }
}

fn hex_value_exec(c: char) -> (r: Option<u64>)
    ensures
        match r {
            Some(d) => hex_value(c) == Some(d as nat) && d < 16,
            None => hex_value(c) is None,
        },
{
    if '0' <= c && c <= '9' {
        Some((c as u64) - 48)
    } else if 'a' <= c && c <= 'f' {
        Some((c as u64) - 87)
    } else if 'A' <= c && c <= 'F' {
        Some((c as u64) - 55)
    } else {
        None
    }
}

/// `s` read as a hexadecimal `u64`, as `u64::from_str_radix(s, 16)` reads it.
pub fn parse_hex(s: &Vec<char>) -> (r: Option<u64>)
    ensures
        r == parse_hex_u64(s@),
{
    let lo: usize = if s.len() > 0 && s[0] == '+' { 1 } else { 0 };
    let ghost body = if s@.len() > 0 && s@[0] == '+' { s@.skip(1) } else { s@ };
    assert(body =~= s@.subrange(lo as int, s@.len() as int));
    if lo == s.len() {
        return None;
    }
    let mut acc: u64 = 0;
    let mut i = lo;
    while i < s.len()
        invariant
            lo <= i <= s.len(),
            body == s@.subrange(lo as int, s@.len() as int),
            body == (if s@.len() > 0 && s@[0] == '+' { s@.skip(1) } else { s@ }),
            hex_number(s@.subrange(lo as int, i as int)) == Some(acc as nat),
        decreases s.len() - i,
    {
        assert(s@.subrange(lo as int, i + 1).drop_last() =~= s@.subrange(lo as int, i as int));
        match hex_value_exec(s[i]) {
            None => {
                assert(hex_number(s@.subrange(lo as int, i + 1)) is None);
                proof {
                    assert(body.take(i + 1 - lo) =~= s@.subrange(lo as int, i + 1));
                    if hex_number(body) is Some {
                        lemma_hex_number_grows(body, i + 1 - lo);
                        assert(false);
                    }
                }
                assert(hex_number(body) is None);
                return None;
            },
            Some(d) => {
                assert(hex_number(s@.subrange(lo as int, i + 1)) == Some(acc as nat * 16 + d as nat));
                match acc.checked_mul(16) {
                    None => {
                        proof {
                            assert(body.take(i + 1 - lo) =~= s@.subrange(lo as int, i + 1));
                            if hex_number(body) is Some {
                                lemma_hex_number_grows(body, i + 1 - lo);
                                assert(hex_number(body).unwrap() > u64::MAX);
                            }
                        }
                        return None;
                    },
                    Some(m) => match m.checked_add(d) {
                        None => {
                            proof {
                                if hex_number(body) is Some {
                                    lemma_hex_number_grows(body, i + 1 - lo);
                                    assert(body.take(i + 1 - lo) =~= s@.subrange(lo as int, i + 1));
                                }
                            }
                            return None;
                        },
                        Some(v) => {
                            acc = v;
                        },
                    },
                }
            },
        }
        i = i + 1;
    }
    Some(acc)
}

proof fn lemma_hex_digit_value(d: nat)
    requires
        d < 16,
    ensures
        hex_value(hex_digit(d)) == Some(d),
        hex_digit(d) != '.',
        hex_digit(d) != '+',
{
}

proof fn lemma_hex_digits_value(x: nat, n: nat)
    ensures
        hex_number(hex_digits(x, n)) == Some(x % pow16(n)),
        hex_digits(x, n).len() == n,
        forall|i: int| 0 <= i < n ==> (#[trigger] hex_digits(x, n)[i]) != '.' && hex_digits(x, n)[i] != '+',
    decreases n,
{
    if n > 0 {
        let m = (n - 1) as nat;
        lemma_hex_digits_value(x / 16, m);
        lemma_hex_digit_value(x % 16);
        let s = hex_digits(x, n);
        assert(s.drop_last() =~= hex_digits(x / 16, m));
        assert(s.last() == hex_digit(x % 16));
        assert(pow16(n) == 16 * pow16(m));
        lemma_pow16_pos(m);
        assert((x / 16) % pow16(m) * 16 + x % 16 == x % (16 * pow16(m))) by (nonlinear_arith)
            requires
                pow16(m) > 0,
        {
            vstd::arithmetic::div_mod::lemma_mod_breakdown(x as int, 16, pow16(m) as int);
        }
        assert forall|i: int| 0 <= i < n implies (#[trigger] s[i]) != '.' && s[i] != '+' by {
            if i < m {
                assert(s[i] == hex_digits(x / 16, m)[i]);
            }
        }
    }
}

/// `16` to the power `n`.
pub open spec fn pow16(n: nat) -> nat
    decreases n,
{
    if n == 0 {
        1
    } else {
        16 * pow16((n - 1) as nat)
    }
}

proof fn lemma_pow16_pos(n: nat)
    ensures
        pow16(n) > 0,
    decreases n,
{
    if n > 0 {
        lemma_pow16_pos((n - 1) as nat);
    }
}

proof fn lemma_pow16_16()
    ensures
        pow16(16) == 0x1_0000_0000_0000_0000,
{
    reveal_with_fuel(pow16, 17);
}

/// The sixteen hexadecimal digits of a hash read back as that hash.
pub proof fn lemma_hex16_roundtrip(h: u64)
    ensures
        parse_hex_u64(hex16(h)) == Some(h),
{
    lemma_hex_digits_value(h as nat, 16);
    lemma_pow16_16();
    assert(hex16(h)[0] != '+');
    assert((h as nat) % 0x1_0000_0000_0000_0000nat == h as nat);
}

/// An entry accessed in this run is never pruned: the name of the file its
/// entry is written under (`entry_path_of`) is a `.json` file whose stem reads
/// back as its hash.
pub proof fn lemma_accessed_entry_kept(accessed: Set<u64>, h: u64)
    requires
        accessed.contains(h),
    ensures
        split_ext(hex16(h) + seq!['.'] + json_ext()) == (hex16(h), Some(json_ext())),
        parse_hex_u64(hex16(h)) == Some(h),
        !stale(accessed, hex16(h) + seq!['.'] + json_ext()),
{
    let name = hex16(h) + seq!['.'] + json_ext();
    lemma_hex_digits_value(h as nat, 16);
    lemma_hex16_roundtrip(h);
    lemma_last_index(name, '.');
    assert(name[16] == '.');
    assert(forall|j: int| 16 < j < name.len() ==> name[j] != '.');
    assert(last_index(name, '.') == Some(16int));
    assert(name != seq!['.', '.']) by {
        assert(name.len() == 21);
    }
    assert(name.take(16) =~= hex16(h));
    assert(name.skip(17) =~= json_ext());
}

/// A file name that the pruning of a cache with accessed set `accessed` counts:
/// a `.json` file whose stem is a hash that was not accessed.
pub open spec fn stale(accessed: Set<u64>, name: Seq<char>) -> bool {
    split_ext(name).1 == Some(json_ext()) && match parse_hex_u64(split_ext(name).0) {
        Some(h) => !accessed.contains(h),
        None => false,
    }
}

/// How many of `names` are stale.
pub open spec fn stale_count(accessed: Set<u64>, names: Seq<Seq<char>>) -> nat
    decreases names.len(),
{
    if names.len() == 0 {
        0
    } else {
        stale_count(accessed, names.drop_last()) + if stale(accessed, names.last()) { 1nat } else { 0nat }
    }
}

/// The file at `k` of `names` goes: it is stale and every twentieth stale one.
pub open spec fn pruned(accessed: Set<u64>, names: Seq<Seq<char>>, k: int) -> bool {
    stale(accessed, names[k]) && stale_count(accessed, names.take(k + 1)) % 20 == 0
}

pub open spec fn names_view(v: Seq<String>) -> Seq<Seq<char>> {
    v.map_values(|x: String| x@)
}

/// Just past the last `.` of `cs`, or 0 when it has none.
fn after_last_dot(cs: &Vec<char>) -> (k: usize)
    ensures
        k <= cs@.len(),
        match last_index(cs@, '.') {
            Some(d) => k == d + 1,
            None => k == 0,
        },
{
    let mut k = cs.len();
    assert(cs@.take(k as int) =~= cs@);
    while k > 0 && cs[k - 1] != '.'
        invariant
            k <= cs@.len(),
            last_index(cs@, '.') == last_index(cs@.take(k as int), '.'),
        decreases k,
    {
        assert(cs@.take(k as int).drop_last() =~= cs@.take(k - 1));
        k = k - 1;
    }
    if k > 0 {
        assert(cs@.take(k as int).last() == '.');
    }
    k
}

/// Where the extension of the file name `cs` starts, just past its dot, if it has one.
pub(crate) fn extension_start(cs: &Vec<char>) -> (r: Option<usize>)
    ensures
        match r {
            Some(k) => 1 <= k <= cs@.len() && split_ext(cs@).1 == Some(cs@.skip(k as int))
                && split_ext(cs@).0 == cs@.take(k - 1),
            None => split_ext(cs@).1 is None && split_ext(cs@).0 == cs@,
        },
{
    if cs.len() == 2 && cs[0] == '.' && cs[1] == '.' {
        assert(cs@ =~= seq!['.', '.']);
        return None;
    }
    assert(cs@ != seq!['.', '.']) by {
        if cs@ == seq!['.', '.'] {
            assert(cs@.len() == 2 && cs@[0] == '.' && cs@[1] == '.');
        }
    }
    let k = after_last_dot(cs);
    if k <= 1 {
        assert(split_ext(cs@) == (cs@, None::<Seq<char>>)) by {
            lemma_last_index(cs@, '.');
            match last_index(cs@, '.') {
                Some(d) => {
                    assert(d == 0);
                },
                None => {},
            }
        }
        return None;
    }
    Some(k)
}

/// Whether the file name `name` is a `.json` file whose stem reads as a hash;
/// the hash if so.
fn entry_hash_of_name(name: &String) -> (r: Option<u64>)
    ensures
        r == (if split_ext(name@).1 == Some(json_ext()) { parse_hex_u64(split_ext(name@).0) } else { None }),
{
    let cs = chars_of(name.as_str());
    proof {
        lemma_last_index(cs@, '.');
    }
    if cs.len() == 2 && cs[0] == '.' && cs[1] == '.' {
        assert(cs@ =~= seq!['.', '.']);
        return None;
    }
    assert(cs@ != seq!['.', '.']) by {
        if cs@ == seq!['.', '.'] {
            assert(cs@.len() == 2 && cs@[0] == '.' && cs@[1] == '.');
        }
    }
    let k = after_last_dot(&cs);
    if k <= 1 {
        return None;
    }
    let dot = k - 1;
    let ext = vec!['j', 's', 'o', 'n'];
    assert(ext@ =~= json_ext());
    if !range_eq(&cs, k, cs.len(), &ext) {
        assert(cs@.subrange(k as int, cs@.len() as int) =~= cs@.skip(k as int));
        return None;
    }
    assert(cs@.subrange(k as int, cs@.len() as int) =~= cs@.skip(k as int));
    let mut stem: Vec<char> = Vec::new();
    let mut i: usize = 0;
    while i < dot
        invariant
            i <= dot < cs@.len(),
            stem@ == cs@.take(i as int),
        decreases dot - i,
    {
        stem.push(cs[i]);
        i = i + 1;
        assert(stem@ =~= cs@.take(i as int));
    }
    parse_hex(&stem)
}

impl ImportCache {
    /// Probabilistic pruning, given the names of the files found (in walk order) under
    /// the cache root: the indices of the names to remove, in increasing order. Of the
    /// `.json` files whose stem is a hash not accessed in this run, every twentieth
    /// goes (about 5%). Nothing goes when the cache is disabled.
    pub fn prune(&self, file_names: &Vec<String>) -> (r: Vec<usize>)
        ensures
            self.dir() is None ==> r@.len() == 0,
            self.dir() is Some ==> forall|k: int| 0 <= k < file_names@.len() ==>
                (r@.contains(k as usize) <==> pruned(self.accessed_set(), names_view(file_names@), k)),
            forall|k: int| 0 <= k < r@.len() ==> r@[k] < file_names@.len(),
            forall|a: int, b: int| 0 <= a < b < r@.len() ==> r@[a] < r@[b],
    {
        let mut r: Vec<usize> = Vec::new();
        if self.cache_dir.is_none() {
            return r;
        }
        let ghost acc = self.accessed_set();
        let ghost names = names_view(file_names@);
        let mut count: usize = 0;
        let mut i: usize = 0;
        while i < file_names.len()
            invariant
                i <= file_names@.len(),
                names == names_view(file_names@),
                acc == self.accessed_set(),
                count == stale_count(acc, names.take(i as int)),
                count <= i,
                forall|k: int| 0 <= k < r@.len() ==> r@[k] < i,
                forall|a: int, b: int| 0 <= a < b < r@.len() ==> r@[a] < r@[b],
                forall|k: int| 0 <= k < i ==> (r@.contains(k as usize) <==> pruned(acc, names, k)),
            decreases file_names@.len() - i,
        {
            assert(names.take(i + 1).drop_last() =~= names.take(i as int));
            assert(names.take(i + 1).last() == names[i as int]);
            assert(names[i as int] == file_names@[i as int]@);
            let ghost before = r@;
            match entry_hash_of_name(&file_names[i]) {
                Some(h) => {
                    if !self.was_accessed(h) {
                        count = count + 1;
                        if count % 20 == 0 {
                            r.push(i);
                        }
                    }
                },
                None => {},
            }
            assert forall|k: int| 0 <= k < i + 1 implies (r@.contains(k as usize) <==> pruned(acc, names, k)) by {
                if k < i {
                    if r@.contains(k as usize) {
                        let j = choose|j: int| 0 <= j < r@.len() && r@[j] == k as usize;
                        if j < before.len() {
                            assert(before.contains(k as usize));
                        }
                    }
                    if before.contains(k as usize) {
                        let j = choose|j: int| 0 <= j < before.len() && before[j] == k as usize;
                        assert(r@[j] == k as usize);
                    }
                } else {
                    if r@.contains(k as usize) {
                        let j = choose|j: int| 0 <= j < r@.len() && r@[j] == k as usize;
                        if j < before.len() {
                            assert(before[j] < i);
                        }
                    }
                    if pruned(acc, names, k) {
                        assert(r@[r@.len() - 1] == i);
                    }
                }
            }
            i = i + 1;
        }
        r
    }
}

pub open spec fn shorts_line() -> Seq<char> {
    seq!['.', 's', 'h', 'o', 'r', 't', 's', '/']
}

/// Some line of `content`, trimmed, is `.shorts/` or `.shorts`.
pub open spec fn lists_shorts(content: Seq<char>) -> bool {
    exists|i: int| 0 <= i < split_on(content, '\n').len()
        && (trim(#[trigger] split_on(content, '\n')[i]) == shorts_line()
            || trim(split_on(content, '\n')[i]) == shorts_dir())
}

/// The `.gitignore` text after making sure it lists `.shorts/`: unchanged (`None`)
/// when a line already does, else the line appended, after a line break if the
/// text does not end with one.
pub open spec fn gitignore_update_of(content: Seq<char>) -> Option<Seq<char>> {
    if lists_shorts(content) {
        None
    } else if content.len() > 0 && content.last() != '\n' {
        Some(content.push('\n') + shorts_line().push('\n'))
    } else {
        Some(content + shorts_line().push('\n'))
    }
}

proof fn lemma_sep_scan_concat(p: Seq<char>, t: Seq<char>, sep: char)
    requires
        sep_scan(p, sep).1 == Seq::<char>::empty(),
    ensures
        sep_scan(p + t, sep) == (sep_scan(p, sep).0 + sep_scan(t, sep).0, sep_scan(t, sep).1),
    decreases t.len(),
{
    if t.len() == 0 {
        assert(p + t =~= p);
        assert(sep_scan(p, sep).0 + sep_scan(t, sep).0 =~= sep_scan(p, sep).0);
    } else {
        lemma_sep_scan_concat(p, t.drop_last(), sep);
        assert((p + t).drop_last() =~= p + t.drop_last());
        assert((p + t).last() == t.last());
        if t.last() == sep {
            assert(sep_scan(p, sep).0 + sep_scan(t.drop_last(), sep).0.push(sep_scan(t.drop_last(), sep).1)
                =~= (sep_scan(p, sep).0 + sep_scan(t.drop_last(), sep).0).push(sep_scan(t.drop_last(), sep).1));
        }
    }
}

proof fn lemma_sep_scan_nosep(s: Seq<char>, sep: char)
    requires
        forall|i: int| 0 <= i < s.len() ==> s[i] != sep,
    ensures
        sep_scan(s, sep) == (Seq::<Seq<char>>::empty(), s),
    decreases s.len(),
{
    if s.len() > 0 {
        lemma_sep_scan_nosep(s.drop_last(), sep);
        assert(s.drop_last().push(s.last()) =~= s);
    }
}

/// Once `.gitignore` has been updated it lists the cache directory, so a second
/// update changes nothing.
pub proof fn lemma_gitignore_update_idempotent(content: Seq<char>)
    ensures
        match gitignore_update_of(content) {
            Some(c2) => lists_shorts(c2) && gitignore_update_of(c2) is None,
            None => lists_shorts(content),
        },
{
    if !lists_shorts(content) {
        let p = if content.len() > 0 && content.last() != '\n' { content.push('\n') } else { content };
        let t = shorts_line().push('\n');
        let c2 = p + t;
        assert(gitignore_update_of(content) == Some(c2));
        assert(sep_scan(p, '\n').1 == Seq::<char>::empty()) by {
            if p.len() > 0 {
                assert(p.last() == '\n');
            }
        }
        lemma_sep_scan_concat(p, t, '\n');
        assert(t.drop_last() =~= shorts_line());
        lemma_sep_scan_nosep(shorts_line(), '\n');
        assert(t.last() == '\n');
        assert(sep_scan(t, '\n').0 =~= seq![shorts_line()]);
        let n = sep_scan(p, '\n').0.len();
        assert(split_on(c2, '\n')[n as int] == shorts_line());
        lemma_lead_ws(shorts_line());
        lemma_trail_ws(shorts_line());
        assert(!is_ws(shorts_line()[0]));
        assert(!is_ws(shorts_line()[7]));
        assert(lead_ws(shorts_line()) == 0);
        assert(trail_ws(shorts_line()) == 0);
        assert(trim(shorts_line()) =~= shorts_line());
        assert(lists_shorts(c2));
    }
}

/// Whether the line `cs[lo..hi]`, trimmed, names the cache directory.
fn names_shorts(cs: &Vec<char>, lo: usize, hi: usize) -> (r: bool)
    requires
        lo <= hi <= cs.len(),
    ensures
        r == (trim(cs@.subrange(lo as int, hi as int)) == shorts_line()
            || trim(cs@.subrange(lo as int, hi as int)) == shorts_dir()),
{
    let (a, z) = trim_range(cs, lo, hi);
    let with_slash = vec!['.', 's', 'h', 'o', 'r', 't', 's', '/'];
    let bare = vec!['.', 's', 'h', 'o', 'r', 't', 's'];
    assert(with_slash@ =~= shorts_line());
    assert(bare@ =~= shorts_dir());
    range_eq(cs, a, z, &with_slash) || range_eq(cs, a, z, &bare)
}

/// The new `.gitignore` text that lists `.shorts/`, or `None` when `content` already does.
pub fn gitignore_update(content: &str) -> (r: Option<String>)
    ensures
        opt_view(r) == gitignore_update_of(content@),
{
    let cs = chars_of(content);
    let ghost s = cs@;
    let mut start: usize = 0;
    let mut k: usize = 0;
    let mut found = false;
    while k < cs.len()
        invariant
            start <= k <= cs@.len(),
            s == cs@,
            sep_scan(s.take(k as int), '\n').1 == s.subrange(start as int, k as int),
            found == exists|i: int| 0 <= i < sep_scan(s.take(k as int), '\n').0.len()
                && (trim(#[trigger] sep_scan(s.take(k as int), '\n').0[i]) == shorts_line()
                    || trim(sep_scan(s.take(k as int), '\n').0[i]) == shorts_dir()),
        decreases cs@.len() - k,
    {
        let ghost done = sep_scan(s.take(k as int), '\n').0;
        assert(s.take(k + 1).drop_last() =~= s.take(k as int));
        assert(s.take(k + 1).last() == s[k as int]);
        if cs[k] == '\n' {
            let hit = names_shorts(&cs, start, k);
            proof {
                let nd = done.push(s.subrange(start as int, k as int));
                assert(sep_scan(s.take(k + 1), '\n').0 == nd);
                if hit {
                    assert(nd[done.len() as int] == s.subrange(start as int, k as int));
                }
                if found {
                    let i = choose|i: int| 0 <= i < done.len()
                        && (trim(#[trigger] done[i]) == shorts_line() || trim(done[i]) == shorts_dir());
                    assert(nd[i] == done[i]);
                }
                if exists|i: int| 0 <= i < nd.len() && (trim(#[trigger] nd[i]) == shorts_line() || trim(nd[i]) == shorts_dir()) {
                    let i = choose|i: int| 0 <= i < nd.len() && (trim(#[trigger] nd[i]) == shorts_line() || trim(nd[i]) == shorts_dir());
                    if i < done.len() {
                        assert(nd[i] == done[i]);
                    }
                }
            }
            found = found || hit;
            start = k + 1;
            assert(s.subrange(start as int, k + 1) =~= Seq::<char>::empty());
        } else {
            assert(s.subrange(start as int, k + 1) =~= s.subrange(start as int, k as int).push(s[k as int]));
            assert(sep_scan(s.take(k + 1), '\n').0 == done);
        }
        k = k + 1;
    }
    assert(s.take(s.len() as int) =~= s);
    let last_hit = names_shorts(&cs, start, cs.len());
    proof {
        let done = sep_scan(s, '\n').0;
        let parts = split_on(s, '\n');
        assert(parts == done.push(s.subrange(start as int, s.len() as int)));
        if last_hit {
            assert(parts[done.len() as int] == s.subrange(start as int, s.len() as int));
        }
        if found {
            let i = choose|i: int| 0 <= i < done.len()
                && (trim(#[trigger] done[i]) == shorts_line() || trim(done[i]) == shorts_dir());
            assert(parts[i] == done[i]);
        }
        if lists_shorts(s) {
            let i = choose|i: int| 0 <= i < parts.len() && (trim(#[trigger] parts[i]) == shorts_line() || trim(parts[i]) == shorts_dir());
            if i < done.len() {
                assert(parts[i] == done[i]);
            }
        }
    }
    if found || last_hit {
        return None;
    }
    let mut out = content.to_owned();
    if cs.len() > 0 && cs[cs.len() - 1] != '\n' {
        push_char(&mut out, '\n');
    }
    let ghost mid = out@;
    let line = vec!['.', 's', 'h', 'o', 'r', 't', 's', '/', '\n'];
    let mut i: usize = 0;
    while i < line.len()
        invariant
            i <= line@.len(),
            out@ == mid + line@.take(i as int),
        decreases line@.len() - i,
    {
        push_char(&mut out, line[i]);
        i = i + 1;
        assert(out@ =~= mid + line@.take(i as int));
    }
    assert(line@.take(line@.len() as int) =~= shorts_line().push('\n'));
    Some(out)
}

// ---------------------------------------------------------------------------
// Which symbols of a file changed
// ---------------------------------------------------------------------------

/// The hash that the last entry of `v` for the symbol `x` records.
pub open spec fn hash_of(v: Seq<(Symbol, u64)>, x: (SymbolKind, Seq<char>)) -> Option<u64>
    decreases v.len(),
{
    if v.len() == 0 {
        None
    } else if v.last().0@ == x {
        Some(v.last().1)
    } else {
        hash_of(v.drop_last(), x)
    }
}

/// The symbols whose hash differs between `current` and `upstream`: changed,
/// removed, or added.
pub open spec fn changed_between(current: Seq<(Symbol, u64)>, upstream: Seq<(Symbol, u64)>) -> Set<(SymbolKind, Seq<char>)> {
    Set::new(|x: (SymbolKind, Seq<char>)| hash_of(current, x) != hash_of(upstream, x))
}

proof fn lemma_hash_of(v: Seq<(Symbol, u64)>, x: (SymbolKind, Seq<char>))
    ensures
        hash_of(v, x) is Some <==> exists|i: int| 0 <= i < v.len() && (#[trigger] v[i]).0@ == x,
    decreases v.len(),
{
    if v.len() > 0 {
        lemma_hash_of(v.drop_last(), x);
        if exists|i: int| 0 <= i < v.len() && (#[trigger] v[i]).0@ == x {
            let i = choose|i: int| 0 <= i < v.len() && (#[trigger] v[i]).0@ == x;
            if i < v.len() - 1 {
                assert(v.drop_last()[i] == v[i]);
            }
        }
        if exists|i: int| 0 <= i < v.drop_last().len() && (#[trigger] v.drop_last()[i]).0@ == x {
            let i = choose|i: int| 0 <= i < v.drop_last().len() && (#[trigger] v.drop_last()[i]).0@ == x;
            assert(v[i] == v.drop_last()[i]);
        }
    }
}

pub(crate) fn same_symbol_exec(a: &Symbol, b: &Symbol) -> (r: bool)
    ensures
        r == (a@ == b@),
{
    match (a, b) {
        (Symbol::Function(x), Symbol::Function(y)) => *x == *y,
        (Symbol::Class(x), Symbol::Class(y)) => *x == *y,
        (Symbol::Variable(x), Symbol::Variable(y)) => *x == *y,
        (Symbol::ModuleBody, Symbol::ModuleBody) => true,
        _ => false,
    }
}

fn hash_lookup(v: &Vec<(Symbol, u64)>, x: &Symbol) -> (r: Option<u64>)
    ensures
        r == hash_of(v@, x@),
{
    let mut i = v.len();
    assert(v@.take(i as int) =~= v@);
    while i > 0
        invariant
            i <= v@.len(),
            hash_of(v@, x@) == hash_of(v@.take(i as int), x@),
        decreases i,
    {
        assert(v@.take(i as int).drop_last() =~= v@.take(i - 1));
        assert(v@.take(i as int).last() == v@[i - 1]);
        if same_symbol_exec(&v[i - 1].0, x) {
            return Some(v[i - 1].1);
        }
        i = i - 1;
    }
    None
}

fn same_hash(a: Option<u64>, b: Option<u64>) -> (r: bool)
    ensures
        r == (a == b),
{
    match (a, b) {
        (Some(x), Some(y)) => x == y,
        (None, None) => true,
        _ => false,
    }
}

/// The symbols whose hash differs between the current and the upstream version of
/// a file (each list gives a symbol's hash; a later entry for a symbol wins).
pub fn changed_symbols(current: &Vec<(Symbol, u64)>, upstream: &Vec<(Symbol, u64)>) -> (r: Vec<Symbol>)
    ensures
        symset(r@) == changed_between(current@, upstream@),
{
    let ghost cur = current@;
    let ghost up = upstream@;
    let mut r: Vec<Symbol> = Vec::new();
    let mut k: usize = 0;
    assert(symset(r@) =~= Set::<(SymbolKind, Seq<char>)>::empty());
    while k < upstream.len()
        invariant
            k <= up.len(),
            cur == current@,
            up == upstream@,
            symset(r@) == Set::new(|x: (SymbolKind, Seq<char>)| exists|i: int| 0 <= i < k && (#[trigger] up[i]).0@ == x
                && hash_of(cur, x) != hash_of(up, x)),
        decreases up.len() - k,
    {
        let s = &upstream[k].0;
        let ghost before = r@;
        if !same_hash(hash_lookup(current, s), hash_lookup(upstream, s)) {
            r.push(copy_symbol(s));
        }
        assert(symset(r@) =~= Set::new(|x: (SymbolKind, Seq<char>)| exists|i: int| 0 <= i < k + 1 && (#[trigger] up[i]).0@ == x
            && hash_of(cur, x) != hash_of(up, x))) by {
            assert forall|x: (SymbolKind, Seq<char>)| symset(r@).contains(x) implies (exists|i: int| 0 <= i < k + 1
                && (#[trigger] up[i]).0@ == x && hash_of(cur, x) != hash_of(up, x)) by {
                let j = choose|j: int| 0 <= j < r@.len() && r@[j]@ == x;
                if j < before.len() {
                    assert(symset(before).contains(x));
                }
            }
            assert forall|x: (SymbolKind, Seq<char>)| (exists|i: int| 0 <= i < k + 1
                && (#[trigger] up[i]).0@ == x && hash_of(cur, x) != hash_of(up, x)) implies symset(r@).contains(x) by {
                let i = choose|i: int| 0 <= i < k + 1 && (#[trigger] up[i]).0@ == x && hash_of(cur, x) != hash_of(up, x);
                if i < k {
                    assert(symset(before).contains(x));
                    let j = choose|j: int| 0 <= j < before.len() && before[j]@ == x;
                    assert(r@[j] == before[j]);
                } else {
                    assert(r@[r@.len() - 1]@ == x);
                }
            }
        }
        k = k + 1;
    }
    let ghost after_up = symset(r@);
    let mut k: usize = 0;
    while k < current.len()
        invariant
            k <= cur.len(),
            cur == current@,
            up == upstream@,
            symset(r@) == after_up.union(Set::new(|x: (SymbolKind, Seq<char>)| exists|i: int| 0 <= i < k
                && (#[trigger] cur[i]).0@ == x && hash_of(up, x) is None)),
        decreases cur.len() - k,
    {
        let s = &current[k].0;
        let ghost before = r@;
        if hash_lookup(upstream, s).is_none() {
            r.push(copy_symbol(s));
        }
        assert(symset(r@) =~= after_up.union(Set::new(|x: (SymbolKind, Seq<char>)| exists|i: int| 0 <= i < k + 1
            && (#[trigger] cur[i]).0@ == x && hash_of(up, x) is None))) by {
            assert forall|x: (SymbolKind, Seq<char>)| symset(r@).contains(x) implies after_up.union(Set::new(
                |x: (SymbolKind, Seq<char>)| exists|i: int| 0 <= i < k + 1 && (#[trigger] cur[i]).0@ == x && hash_of(up, x) is None)).contains(x) by {
                let j = choose|j: int| 0 <= j < r@.len() && r@[j]@ == x;
                if j < before.len() {
                    assert(symset(before).contains(x));
                }
            }
            assert forall|x: (SymbolKind, Seq<char>)| after_up.union(Set::new(
                |x: (SymbolKind, Seq<char>)| exists|i: int| 0 <= i < k + 1 && (#[trigger] cur[i]).0@ == x && hash_of(up, x) is None)).contains(x)
                implies symset(r@).contains(x) by {
                if symset(before).contains(x) {
                    let j = choose|j: int| 0 <= j < before.len() && before[j]@ == x;
                    assert(r@[j] == before[j]);
                } else {
                    let i = choose|i: int| 0 <= i < k + 1 && (#[trigger] cur[i]).0@ == x && hash_of(up, x) is None;
                    if i == k {
                        assert(r@[r@.len() - 1]@ == x);
                    }
                }
            }
        }
        k = k + 1;
    }
    assert(symset(r@) =~= changed_between(cur, up)) by {
        assert forall|x: (SymbolKind, Seq<char>)| symset(r@).contains(x) implies changed_between(cur, up).contains(x) by {
            lemma_hash_of(cur, x);
            if !after_up.contains(x) {
                let i = choose|i: int| 0 <= i < cur.len() && (#[trigger] cur[i]).0@ == x && hash_of(up, x) is None;
            }
        }
        assert forall|x: (SymbolKind, Seq<char>)| changed_between(cur, up).contains(x) implies symset(r@).contains(x) by {
            lemma_hash_of(up, x);
            lemma_hash_of(cur, x);
            if hash_of(up, x) is Some {
                let i = choose|i: int| 0 <= i < up.len() && (#[trigger] up[i]).0@ == x;
                assert(after_up.contains(x));
            } else {
                let i = choose|i: int| 0 <= i < cur.len() && (#[trigger] cur[i]).0@ == x;
                assert(symset(r@).contains(x));
            }
        }
    }
    r
}

/// `propagated` depends on the changed symbols only as a set.
pub proof fn lemma_propagated_by_set(c1: Seq<Symbol>, c2: Seq<Symbol>, deps: Seq<(String, Vec<String>)>)
    requires
        symset(c1) == symset(c2),
    ensures
        propagated(c1, deps) == propagated(c2, deps),
{
    assert(named(c1) =~= named(c2)) by {
        assert forall|n: Seq<char>| named(c1).contains(n) implies named(c2).contains(n) by {
            let i = choose|i: int| 0 <= i < c1.len() && c1[i]@.0 != SymbolKind::ModuleBody && c1[i]@.1 == n;
            assert(symset(c1).contains(c1[i]@));
            let j = choose|j: int| 0 <= j < c2.len() && c2[j]@ == c1[i]@;
        }
        assert forall|n: Seq<char>| named(c2).contains(n) implies named(c1).contains(n) by {
            let i = choose|i: int| 0 <= i < c2.len() && c2[i]@.0 != SymbolKind::ModuleBody && c2[i]@.1 == n;
            assert(symset(c2).contains(c2[i]@));
            let j = choose|j: int| 0 <= j < c1.len() && c1[j]@ == c2[i]@;
        }
    }
    assert(propagated(c1, deps) =~= propagated(c2, deps));
}

impl ImportCache {
    /// Which symbols of one file changed against its upstream version, from the
    /// per-symbol hashes of both versions, propagated through the file's
    /// intra-module dependencies (if `B` changed and `A` calls `B`, `A` is
    /// effectively changed too). `None` when no symbol changed.
    pub fn detect_changed_symbols(
        current: &Vec<(Symbol, u64)>,
        upstream: &Vec<(Symbol, u64)>,
        intra_deps: &Vec<(String, Vec<String>)>,
    ) -> (r: Option<Vec<Symbol>>)
        ensures
            match r {
                None => changed_between(current@, upstream@) == Set::<(SymbolKind, Seq<char>)>::empty(),
                Some(v) => changed_between(current@, upstream@) != Set::<(SymbolKind, Seq<char>)>::empty()
                    && forall|c: Seq<Symbol>| symset(c) == changed_between(current@, upstream@)
                        ==> #[trigger] propagated(c, intra_deps@) == symset(v@),
            },
    {
        let changed = changed_symbols(current, upstream);
        if changed.len() == 0 {
            assert(symset(changed@) =~= Set::<(SymbolKind, Seq<char>)>::empty());
            return None;
        }
        assert(symset(changed@).contains(changed@[0]@));
        let v = propagate_intra_module_changes(&changed, intra_deps);
        assert forall|c: Seq<Symbol>| symset(c) == changed_between(current@, upstream@)
            implies #[trigger] propagated(c, intra_deps@) == symset(v@) by {
            lemma_propagated_by_set(c, changed@, intra_deps@);
        }
        Some(v)
    }
}

} // verus!
