//! The Python targets that a BUILD file declares, read with a small scanner
//! rather than a full parser.
use vstd::prelude::*;
use crate::text::{
    sep_scan, split_on,
    chars_of, string_from_range, matches_at, has_at, trim, trim_start, trail_ws, find_in,
    lemma_find_in, skip_ws, back_ws, trim_range, find_char, slice_chars, range_eq,
};
use crate::paths::char_utf8_len;

verus! {

/// What `char::is_alphanumeric` says of `c`: Unicode's `Alphabetic` property or a
/// numeric general category.
pub uninterp spec fn unicode_alnum(c: char) -> bool;

/// Trusted: `char::is_alphanumeric`, whose answer is named `unicode_alnum`.
#[verifier::external_body]
fn is_alphanumeric(c: char) -> (r: bool)
    ensures
        r == unicode_alnum(c),
{
    c.is_alphanumeric()
}

/// A character that may stand in a target type's name.
pub open spec fn ident_char(c: char) -> bool {
    unicode_alnum(c) || c == '_'
}

/// An ASCII letter, digit or underscore.
pub open spec fn ascii_ident(c: char) -> bool {
    ('a' <= c && c <= 'z') || ('A' <= c && c <= 'Z') || ('0' <= c && c <= '9') || c == '_'
}

pub open spec fn tests_type() -> Seq<char> {
    seq!['p', 'y', 't', 'h', 'o', 'n', '_', 't', 'e', 's', 't', 's']
}

pub open spec fn sources_type() -> Seq<char> {
    seq!['p', 'y', 't', 'h', 'o', 'n', '_', 's', 'o', 'u', 'r', 'c', 'e', 's']
}

pub open spec fn name_eq() -> Seq<char> {
    seq!['n', 'a', 'm', 'e', '=']
}

pub open spec fn sources_eq() -> Seq<char> {
    seq!['s', 'o', 'u', 'r', 'c', 'e', 's', '=']
}

/// The source globs that a target of type `ty` owns when it lists none.
pub open spec fn default_sources_spec(ty: Seq<char>) -> Seq<Seq<char>> {
    if ty == tests_type() {
        seq!["test_*.py"@, "*_test.py"@, "tests.py"@, "conftest.py"@]
    } else if ty == sources_type() {
        seq!["*.py"@, "!test_*.py"@, "!*_test.py"@, "!conftest.py"@]
    } else {
        Seq::empty()
    }
}

/// A target: its name, its source globs and its type.
pub type TargetModel = (Seq<char>, Seq<Seq<char>>, Seq<char>);

/// The first index from `from` where `pat` stands in `b` without an identifier
/// character just before it (so that `name=` is not found inside `rename=`).
pub open spec fn find_param(b: Seq<char>, pat: Seq<char>, from: int) -> Option<int>
    decreases b.len() + 1 - from,
{
    if from < 0 || from + pat.len() > b.len() {
        None
    } else if matches_at(b, from, pat) && (from == 0 || !ascii_ident(b[from - 1])) {
        Some(from)
    } else {
        find_param(b, pat, from + 1)
    }
}

pub proof fn lemma_find_param(b: Seq<char>, pat: Seq<char>, from: int)
    ensures
        match find_param(b, pat, from) {
            Some(i) => from <= i && matches_at(b, i, pat) && (i == 0 || !ascii_ident(b[i - 1])),
            None => true,
        },
    decreases b.len() + 1 - from,
{
    if !(from < 0 || from + pat.len() > b.len()) && !(matches_at(b, from, pat) && (from == 0 || !ascii_ident(b[from - 1]))) {
        lemma_find_param(b, pat, from + 1);
    }
}

/// The text after `pat`, with leading white space dropped.
pub open spec fn after_param(b: Seq<char>, pat: Seq<char>, i: int) -> Seq<char> {
    trim_start(b.skip(i + pat.len()))
}

/// The quoted string given for the parameter `pat` in `b`, if it is one.
pub open spec fn string_param(b: Seq<char>, pat: Seq<char>) -> Option<Seq<char>> {
    match find_param(b, pat, 0) {
        None => None,
        Some(i) => {
            let after = after_param(b, pat, i);
            if after.len() > 0 && (after[0] == '"' || after[0] == '\'') {
                match find_in(after, after[0], 1, after.len() as int) {
                    Some(e) => Some(after.subrange(1, e)),
                    None => None,
                }
            } else {
                None
            }
        },
    }
}

/// One part of a list: nothing when it is blank, the text of a quoted string,
/// or `None` when it is anything else.
pub open spec fn item_of(part: Seq<char>) -> Option<Option<Seq<char>>> {
    let t = trim(part);
    if t.len() == 0 {
        Some(None)
    } else if t[0] != '"' && t[0] != '\'' {
        None
    } else {
        match find_in(t, t[0], 1, t.len() as int) {
            Some(e) => Some(Some(t.subrange(1, e))),
            None => None,
        }
    }
}

/// The list so far extended by one part.
pub open spec fn item_step(acc: Option<Seq<Seq<char>>>, part: Seq<char>) -> Option<Seq<Seq<char>>> {
    match acc {
        None => None,
        Some(items) => match item_of(part) {
            None => None,
            Some(None) => Some(items),
            Some(Some(x)) => Some(items.push(x)),
        },
    }
}

/// The quoted strings of the list parts, or `None` if one part is no quoted string.
pub open spec fn list_items(parts: Seq<Seq<char>>) -> Option<Seq<Seq<char>>>
    decreases parts.len(),
{
    if parts.len() == 0 {
        Some(Seq::empty())
    } else {
        item_step(list_items(parts.drop_last()), parts.last())
    }
}

/// The non-empty list of quoted strings given for the parameter `pat` in `b`, if it is one.
pub open spec fn list_param(b: Seq<char>, pat: Seq<char>) -> Option<Seq<Seq<char>>> {
    match find_param(b, pat, 0) {
        None => None,
        Some(i) => {
            let after = after_param(b, pat, i);
            if after.len() > 0 && after[0] == '[' {
                match find_in(after, ']', 0, after.len() as int) {
                    Some(e) => match list_items(split_on(after.subrange(1, e), ',')) {
                        Some(items) => if items.len() > 0 {
                            Some(items)
                        } else {
                            None
                        },
                        None => None,
                    },
                    None => None,
                }
            } else {
                None
            }
        },
    }
}

/// The target of type `ty` whose arguments are `block`.
pub open spec fn target_of(block: Seq<char>, ty: Seq<char>, dflt: Seq<char>) -> TargetModel {
    let name = match string_param(block, name_eq()) {
        Some(n) => n,
        None => dflt,
    };
    let sources = match list_param(block, sources_eq()) {
        Some(v) => v,
        None => default_sources_spec(ty),
    };
    (name, sources, ty)
}

/// Scanning from `j` with `depth` parentheses open: where the scan stops (just past
/// the closing `)`, or at the end of the text) and how many are still open.
pub open spec fn close_scan(s: Seq<char>, j: int, depth: nat) -> (int, nat)
    decreases s.len() - j,
{
    if j < 0 || j >= s.len() || depth == 0 {
        (j, depth)
    } else if s[j] == '(' {
        close_scan(s, j + 1, depth + 1)
    } else if s[j] == ')' {
        close_scan(s, j + 1, (depth - 1) as nat)
    } else {
        close_scan(s, j + 1, depth)
    }
}

pub proof fn lemma_close_scan(s: Seq<char>, j: int, depth: nat)
    requires
        0 <= j <= s.len(),
    ensures
        j <= close_scan(s, j, depth).0 <= s.len(),
        close_scan(s, j, depth).1 > 0 ==> close_scan(s, j, depth).0 == s.len(),
        depth > 0 && close_scan(s, j, depth).1 == 0 ==> close_scan(s, j, depth).0 >= j + 1
            && s[close_scan(s, j, depth).0 - 1] == ')',
    decreases s.len() - j,
{
    if j < s.len() && depth > 0 {
        let d2: nat = if s[j] == '(' { depth + 1 } else if s[j] == ')' { (depth - 1) as nat } else { depth };
        lemma_close_scan(s, j + 1, d2);
    }
}

/// The last index in `lo..hi` of a character that cannot stand in an identifier.
pub open spec fn last_nonident(s: Seq<char>, lo: int, hi: int) -> Option<int>
    decreases hi - lo,
{
    if hi <= lo {
        None
    } else if !ident_char(s[hi - 1]) {
        Some(hi - 1)
    } else {
        last_nonident(s, lo, hi - 1)
    }
}

pub proof fn lemma_last_nonident(s: Seq<char>, lo: int, hi: int)
    ensures
        match last_nonident(s, lo, hi) {
            Some(k) => lo <= k < hi,
            None => true,
        },
    decreases hi - lo,
{
    if hi > lo && ident_char(s[hi - 1]) {
        lemma_last_nonident(s, lo, hi - 1);
    }
}

/// Where the identifier before the `(` at `p` starts, scanning from `pos`.
pub open spec fn ident_start(s: Seq<char>, pos: int, p: int) -> int {
    match last_nonident(s, pos, p - trail_ws(s.subrange(pos, p))) {
        Some(k) => k + 1,
        None => pos,
    }
}

/// The identifier before the `(` at `p` would be cut inside a multi-byte character.
pub open spec fn cut_inside_char(s: Seq<char>, pos: int, p: int) -> bool {
    match last_nonident(s, pos, p - trail_ws(s.subrange(pos, p))) {
        Some(k) => char_utf8_len(s[k]) > 1,
        None => false,
    }
}

/// The arguments of an unclosed call cannot be cut off before the last character
/// (the `(` is the last character, or the last character takes several bytes).
pub open spec fn unclosed_cut_fails(s: Seq<char>, p: int) -> bool {
    p + 1 >= s.len() || char_utf8_len(s.last()) > 1
}

/// The known targets declared from `pos` on, in the order they appear; `None` where
/// the scan would slice the text inside a character or past its end.
pub open spec fn scan_targets(s: Seq<char>, pos: int, dflt: Seq<char>) -> Option<Seq<TargetModel>>
    decreases s.len() - pos,
{
    if pos < 0 || pos >= s.len() {
        Some(Seq::empty())
    } else {
        match find_in(s, '(', pos, s.len() as int) {
            None => Some(Seq::empty()),
            Some(p) => {
                proof {
                    lemma_find_in(s, '(', pos, s.len() as int);
                    lemma_close_scan(s, p + 1, 1);
                }
                let (j, depth) = close_scan(s, p + 1, 1);
                if cut_inside_char(s, pos, p) || (depth > 0 && unclosed_cut_fails(s, p)) {
                    None
                } else {
                    let ty = trim(s.subrange(ident_start(s, pos, p), p));
                    let block = if depth == 0 {
                        s.subrange(p + 1, j - 1)
                    } else {
                        s.subrange(p + 1, s.len() - 1)
                    };
                    match scan_targets(s, j, dflt) {
                        None => None,
                        Some(rest) => if ty == tests_type() || ty == sources_type() {
                            Some(seq![target_of(block, ty, dflt)] + rest)
                        } else {
                            Some(rest)
                        },
                    }
                }
            },
        }
    }
}

/// The targets of `ts` whose type is `ty`, in order.
pub open spec fn of_type(ts: Seq<TargetModel>, ty: Seq<char>) -> Seq<TargetModel>
    decreases ts.len(),
{
    if ts.len() == 0 {
        Seq::empty()
    } else if ts.last().2 == ty {
        of_type(ts.drop_last(), ty).push(ts.last())
    } else {
        of_type(ts.drop_last(), ty)
    }
}

/// The targets of `ts`, test targets before source targets, each kind in order.
pub open spec fn by_priority(ts: Seq<TargetModel>) -> Seq<TargetModel> {
    of_type(ts, tests_type()) + of_type(ts, sources_type())
}

/// A Python target declared in a BUILD file.
pub struct BuildTarget {
    pub name: String,
    pub sources: Vec<String>,
    pub target_type: String,
}

impl View for BuildTarget {
    type V = TargetModel;

    open spec fn view(&self) -> TargetModel {
        (self.name@, self.sources@.map_values(|x: String| x@), self.target_type@)
    }
}

pub open spec fn targets_view(v: Seq<BuildTarget>) -> Seq<TargetModel> {
    v.map_values(|t: BuildTarget| t@)
}

/// The source globs that a target of type `target_type` owns when it lists none.
pub fn default_sources(target_type: &str) -> (r: Vec<String>)
    ensures
        r@.map_values(|x: String| x@) == default_sources_spec(target_type@),
{
    let t = chars_of(target_type);
    let tt = chars_of("python_tests");
    let st = chars_of("python_sources");
    proof {
        reveal_strlit("python_tests");
        reveal_strlit("python_sources");
        assert(tt@ =~= tests_type());
        assert(st@ =~= sources_type());
    }
    if range_eq(&t, 0, t.len(), &tt) {
        assert(t@.subrange(0, t@.len() as int) =~= t@);
        let r = vec![
            "test_*.py".to_owned(),
            "*_test.py".to_owned(),
            "tests.py".to_owned(),
            "conftest.py".to_owned(),
        ];
        assert(r@.map_values(|x: String| x@) =~= default_sources_spec(target_type@));
        r
    } else if range_eq(&t, 0, t.len(), &st) {
        assert(t@.subrange(0, t@.len() as int) =~= t@);
        let r = vec![
            "*.py".to_owned(),
            "!test_*.py".to_owned(),
            "!*_test.py".to_owned(),
            "!conftest.py".to_owned(),
        ];
        assert(r@.map_values(|x: String| x@) =~= default_sources_spec(target_type@));
        r
    } else {
        assert(t@.subrange(0, t@.len() as int) =~= t@);
        let r: Vec<String> = Vec::new();
        assert(r@.map_values(|x: String| x@) =~= default_sources_spec(target_type@));
        r
    }
}

/// `acc` followed by what the rest of the scan gives, unless the rest fails.
pub open spec fn prepend(acc: Seq<TargetModel>, rest: Option<Seq<TargetModel>>) -> Option<Seq<TargetModel>> {
    match rest {
        Some(r) => Some(acc + r),
        None => None,
    }
}

proof fn lemma_find_in_shift(s: Seq<char>, c: char, a: int, z: int, lo: int, hi: int)
    requires
        0 <= a <= z <= s.len(),
        0 <= lo,
        hi <= z - a,
    ensures
        find_in(s.subrange(a, z), c, lo, hi) == (match find_in(s, c, a + lo, a + hi) {
            Some(i) => Some(i - a),
            None => None,
        }),
    decreases hi - lo,
{
    if lo < hi {
        lemma_find_in_shift(s, c, a, z, lo + 1, hi);
    }
}

fn is_ascii_ident(c: char) -> (r: bool)
    ensures
        r == ascii_ident(c),
{
    ('a' <= c && c <= 'z') || ('A' <= c && c <= 'Z') || ('0' <= c && c <= '9') || c == '_'
}

/// Where `pat` first stands in `b` as a parameter name.
fn find_param_exec(b: &Vec<char>, pat: &Vec<char>) -> (r: Option<usize>)
    ensures
        match r {
            Some(i) => find_param(b@, pat@, 0) == Some(i as int),
            None => find_param(b@, pat@, 0) is None,
        },
{
    if pat.len() > b.len() {
        return None;
    }
    let last = b.len() - pat.len();
    let mut from: usize = 0;
    loop
        invariant
            from <= last,
            last + pat.len() == b.len(),
            find_param(b@, pat@, 0) == find_param(b@, pat@, from as int),
        decreases last - from,
    {
        if has_at(b, from, pat) && (from == 0 || !is_ascii_ident(b[from - 1])) {
            return Some(from);
        }
        if from == last {
            assert(find_param(b@, pat@, from + 1) is None);
            return None;
        }
        from = from + 1;
    }
}

/// The quoted string given for the parameter `pat` in `b`, if it is one.
fn string_param_exec(b: &Vec<char>, pat: &Vec<char>) -> (r: Option<String>)
    ensures
        match r {
            Some(x) => string_param(b@, pat@) == Some(x@),
            None => string_param(b@, pat@) is None,
        },
{
    match find_param_exec(b, pat) {
        None => None,
        Some(i) => {
            proof {
                lemma_find_param(b@, pat@, 0);
            }
            assert(i + pat@.len() <= b@.len());
            assert(i + pat.len() <= b.len());
            let a = skip_ws(b, i + pat.len(), b.len());
            let ghost after = after_param(b@, pat@, i as int);
            assert(b@.skip(i + pat.len()) =~= b@.subrange(i + pat.len(), b@.len() as int));
            assert(after == b@.subrange(a as int, b@.len() as int));
            if a < b.len() && (b[a] == '"' || b[a] == '\'') {
                let q = b[a];
                proof {
                    lemma_find_in_shift(b@, q, a as int, b@.len() as int, 1, after.len() as int);
                    lemma_find_in(b@, q, a + 1, b@.len() as int);
                }
                match find_char(b, q, a + 1, b.len()) {
                    Some(e) => {
                        let x = string_from_range(b, a + 1, e);
                        assert(x@ =~= after.subrange(1, e - a));
                        Some(x)
                    },
                    None => None,
                }
            } else {
                None
            }
        },
    }
}

/// One part `b[lo..hi]` of a list, as `item_of` reads it.
fn item_exec(b: &Vec<char>, lo: usize, hi: usize) -> (r: Option<Option<String>>)
    requires
        lo <= hi <= b.len(),
    ensures
        match r {
            None => item_of(b@.subrange(lo as int, hi as int)) is None,
            Some(None) => item_of(b@.subrange(lo as int, hi as int)) == Some(None::<Seq<char>>),
            Some(Some(x)) => item_of(b@.subrange(lo as int, hi as int)) == Some(Some(x@)),
        },
{
    let (a, z) = trim_range(b, lo, hi);
    let ghost t = b@.subrange(a as int, z as int);
    if a == z {
        return Some(None);
    }
    let q = b[a];
    if q != '"' && q != '\'' {
        return None;
    }
    proof {
        lemma_find_in_shift(b@, q, a as int, z as int, 1, t.len() as int);
        lemma_find_in(b@, q, a + 1, z as int);
    }
    match find_char(b, q, a + 1, z) {
        Some(e) => {
            let x = string_from_range(b, a + 1, e);
            assert(x@ =~= t.subrange(1, e - a));
            Some(Some(x))
        },
        None => None,
    }
}

pub open spec fn strings_view(v: Seq<String>) -> Seq<Seq<char>> {
    v.map_values(|x: String| x@)
}

/// The quoted strings of the comma-separated parts of `b[lo..hi]`.
fn list_items_exec(b: &Vec<char>, lo: usize, hi: usize) -> (r: Option<Vec<String>>)
    requires
        lo <= hi <= b.len(),
    ensures
        match r {
            Some(v) => list_items(split_on(b@.subrange(lo as int, hi as int), ',')) == Some(strings_view(v@)),
            None => list_items(split_on(b@.subrange(lo as int, hi as int), ',')) is None,
        },
{
    let mut items: Vec<String> = Vec::new();
    let mut ok = true;
    let mut start = lo;
    let mut k = lo;
    while k < hi
        invariant
            lo <= start <= k <= hi <= b.len(),
            sep_scan(b@.subrange(lo as int, k as int), ',').1 == b@.subrange(start as int, k as int),
            ok ==> list_items(sep_scan(b@.subrange(lo as int, k as int), ',').0) == Some(strings_view(items@)),
            !ok ==> list_items(sep_scan(b@.subrange(lo as int, k as int), ',').0) is None,
        decreases hi - k,
    {
        let ghost pre = b@.subrange(lo as int, k as int);
        let ghost done = sep_scan(pre, ',').0;
        let ghost cur = sep_scan(pre, ',').1;
        assert(b@.subrange(lo as int, k + 1).drop_last() =~= pre);
        assert(b@.subrange(lo as int, k + 1).last() == b@[k as int]);
        assert(done.push(cur).drop_last() =~= done);
        if b[k] == ',' {
            if ok {
                let ghost before = strings_view(items@);
                match item_exec(b, start, k) {
                    None => {
                        ok = false;
                    },
                    Some(None) => {},
                    Some(Some(x)) => {
                        items.push(x);
                        assert(strings_view(items@) =~= before.push(x@));
                    },
                }
            }
            start = k + 1;
            assert(b@.subrange(start as int, k + 1) =~= Seq::<char>::empty());
        } else {
            assert(b@.subrange(start as int, k + 1) =~= b@.subrange(start as int, k as int).push(b@[k as int]));
        }
        k = k + 1;
    }
    let ghost done = sep_scan(b@.subrange(lo as int, hi as int), ',').0;
    let ghost cur = sep_scan(b@.subrange(lo as int, hi as int), ',').1;
    assert(done.push(cur).drop_last() =~= done);
    if ok {
        let ghost before = strings_view(items@);
        match item_exec(b, start, hi) {
            None => {
                ok = false;
            },
            Some(None) => {},
            Some(Some(x)) => {
                items.push(x);
                assert(strings_view(items@) =~= before.push(x@));
            },
        }
    }
    if ok {
        Some(items)
    } else {
        None
    }
}

/// The quoted string given for `param=` in the block, if it is one: the text
/// up to the matching quote after the first `param=` not preceded by an
/// identifier character.
pub fn extract_string_param(block: &str, param: &str) -> (r: Option<String>)
    ensures
        match r {
            Some(x) => string_param(block@, param@.push('=')) == Some(x@),
            None => string_param(block@, param@.push('=')) is None,
        },
{
    let b = chars_of(block);
    let mut pat = chars_of(param);
    pat.push('=');
    string_param_exec(&b, &pat)
}

/// The list of quoted strings given for `param=` in the block, if it is a
/// simple literal list of them.
pub fn extract_list_param(block: &str, param: &str) -> (r: Option<Vec<String>>)
    ensures
        match r {
            Some(v) => list_param(block@, param@.push('=')) == Some(strings_view(v@)),
            None => list_param(block@, param@.push('=')) is None,
        },
{
    let b = chars_of(block);
    let mut pat = chars_of(param);
    pat.push('=');
    list_param_exec(&b, &pat)
}

/// The non-empty list of quoted strings given for the parameter `pat` in `b`, if it is one.
fn list_param_exec(b: &Vec<char>, pat: &Vec<char>) -> (r: Option<Vec<String>>)
    ensures
        match r {
            Some(v) => list_param(b@, pat@) == Some(strings_view(v@)),
            None => list_param(b@, pat@) is None,
        },
{
    match find_param_exec(b, pat) {
        None => None,
        Some(i) => {
            proof {
                lemma_find_param(b@, pat@, 0);
            }
            assert(i + pat@.len() <= b@.len());
            assert(i + pat.len() <= b.len());
            let a = skip_ws(b, i + pat.len(), b.len());
            let ghost after = after_param(b@, pat@, i as int);
            assert(b@.skip(i + pat.len()) =~= b@.subrange(i + pat.len(), b@.len() as int));
            assert(after == b@.subrange(a as int, b@.len() as int));
            if a < b.len() && b[a] == '[' {
                proof {
                    lemma_find_in_shift(b@, ']', a as int, b@.len() as int, 0, after.len() as int);
                    lemma_find_in(b@, ']', a as int, b@.len() as int);
                }
                match find_char(b, ']', a, b.len()) {
                    Some(e) => {
                        assert(after.subrange(1, e - a) =~= b@.subrange(a + 1, e as int));
                        match list_items_exec(b, a + 1, e) {
                            Some(v) => if v.len() > 0 {
                                Some(v)
                            } else {
                                None
                            },
                            None => None,
                        }
                    },
                    None => None,
                }
            } else {
                None
            }
        },
    }
}

/// The last index in `lo..hi` of a character that cannot stand in an identifier.
fn last_nonident_exec(cs: &Vec<char>, lo: usize, hi: usize) -> (r: Option<usize>)
    requires
        lo <= hi <= cs.len(),
    ensures
        match r {
            Some(k) => last_nonident(cs@, lo as int, hi as int) == Some(k as int),
            None => last_nonident(cs@, lo as int, hi as int) is None,
        },
{
    let mut i = hi;
    while i > lo
        invariant
            lo <= i <= hi <= cs.len(),
            last_nonident(cs@, lo as int, hi as int) == last_nonident(cs@, lo as int, i as int),
        decreases i - lo,
    {
        let c = cs[i - 1];
        if !(is_alphanumeric(c) || c == '_') {
            return Some(i - 1);
        }
        i = i - 1;
    }
    None
}

/// Where the parentheses opened before `j` close (just past the `)`), or the end of
/// the text, and how many are then still open.
fn close_exec(cs: &Vec<char>, j: usize) -> (r: (usize, usize))
    requires
        1 <= j <= cs.len(),
    ensures
        close_scan(cs@, j as int, 1) == (r.0 as int, r.1 as nat),
{
    let mut j = j;
    let mut depth: usize = 1;
    let ghost j0 = j;
    while j < cs.len() && depth > 0
        invariant
            1 <= j0 <= j <= cs.len(),
            depth <= j - j0 + 1,
            close_scan(cs@, j0 as int, 1) == close_scan(cs@, j as int, depth as nat),
        decreases cs.len() - j,
    {
        if cs[j] == '(' {
            depth = depth + 1;
        } else if cs[j] == ')' {
            depth = depth - 1;
        }
        j = j + 1;
    }
    (j, depth)
}

/// The known targets of `cs` in the order they appear, or `None` where the scan
/// would slice the text inside a character or past its end.
fn scan_exec(cs: &Vec<char>, default_name: &str) -> (r: Option<Vec<BuildTarget>>)
    ensures
        match r {
            Some(v) => scan_targets(cs@, 0, default_name@) == Some(targets_view(v@)),
            None => scan_targets(cs@, 0, default_name@) is None,
        },
{
    let len = cs.len();
    let ghost d = default_name@;
    let tt = chars_of("python_tests");
    let st = chars_of("python_sources");
    let name_pat = chars_of("name=");
    let src_pat = chars_of("sources=");
    proof {
        reveal_strlit("python_tests");
        reveal_strlit("python_sources");
        reveal_strlit("name=");
        reveal_strlit("sources=");
        assert(tt@ =~= tests_type());
        assert(st@ =~= sources_type());
        assert(name_pat@ =~= name_eq());
        assert(src_pat@ =~= sources_eq());
    }
    let mut targets: Vec<BuildTarget> = Vec::new();
    let mut pos: usize = 0;
    assert(targets_view(targets@) + Seq::<TargetModel>::empty() =~= Seq::<TargetModel>::empty());
    assert(prepend(targets_view(targets@), scan_targets(cs@, 0, d)) == scan_targets(cs@, 0, d)) by {
        match scan_targets(cs@, 0, d) {
            Some(r) => {
                assert(targets_view(targets@) + r =~= r);
            },
            None => {},
        }
    }
    while pos < len
        invariant
            pos <= len == cs.len(),
            d == default_name@,
            tt@ == tests_type(),
            st@ == sources_type(),
            name_pat@ == name_eq(),
            src_pat@ == sources_eq(),
            scan_targets(cs@, 0, d) == prepend(targets_view(targets@), scan_targets(cs@, pos as int, d)),
        decreases len - pos,
    {
        let ghost acc = targets_view(targets@);
        match find_char(cs, '(', pos, len) {
            None => {
                pos = len;
            },
            Some(p) => {
                proof {
                    lemma_find_in(cs@, '(', pos as int, len as int);
                    lemma_close_scan(cs@, p + 1, 1);
                }
                let bend = back_ws(cs, pos, p);
                let k = last_nonident_exec(cs, pos, bend);
                proof {
                    lemma_last_nonident(cs@, pos as int, bend as int);
                }
                let start = match k {
                    Some(k) => {
                        if (cs[k] as u32) >= 0x80 {
                            return None;
                        }
                        k + 1
                    },
                    None => pos,
                };
                let (j, depth) = close_exec(cs, p + 1);
                if depth > 0 && (p + 1 >= len || (cs[len - 1] as u32) >= 0x80) {
                    return None;
                }
                let (ta, tz) = trim_range(cs, start, p);
                let is_tests = range_eq(cs, ta, tz, &tt);
                let is_sources = range_eq(cs, ta, tz, &st);
                let ghost rest = scan_targets(cs@, j as int, d);
                if is_tests || is_sources {
                    let bhi = if depth == 0 { j - 1 } else { len - 1 };
                    let block = slice_chars(cs, p + 1, bhi);
                    let ty = string_from_range(cs, ta, tz);
                    let name = match string_param_exec(&block, &name_pat) {
                        Some(n) => n,
                        None => default_name.to_owned(),
                    };
                    let sources = match list_param_exec(&block, &src_pat) {
                        Some(v) => v,
                        None => {
                            let v = default_sources(ty.as_str());
                            v
                        },
                    };
                    let t = BuildTarget { name, sources, target_type: ty };
                    assert(t@ == target_of(block@, ty@, d));
                    targets.push(t);
                    assert(targets_view(targets@) =~= acc.push(t@));
                    proof {
                        match rest {
                            Some(r) => {
                                assert(acc.push(t@) + r =~= acc + (seq![t@] + r));
                            },
                            None => {},
                        }
                    }
                }
                pos = j;
            },
        }
    }
    Some(targets)
}

/// The targets of `v`, test targets first, each kind in the order of `v`.
fn prioritize(v: Vec<BuildTarget>) -> (r: Vec<BuildTarget>)
    ensures
        targets_view(r@) == by_priority(targets_view(v@)),
{
    let ghost orig = targets_view(v@);
    let tt = chars_of("python_tests");
    let st = chars_of("python_sources");
    proof {
        reveal_strlit("python_tests");
        reveal_strlit("python_sources");
        assert(tt@ =~= tests_type());
        assert(st@ =~= sources_type());
    }
    let mut rest = v;
    let mut tests: Vec<BuildTarget> = Vec::new();
    let mut sources: Vec<BuildTarget> = Vec::new();
    let mut i: usize = 0;
    let n = rest.len();
    assert(orig.take(0) =~= Seq::<TargetModel>::empty());
    while rest.len() > 0
        invariant
            i <= n == orig.len(),
            tt@ == tests_type(),
            st@ == sources_type(),
            targets_view(rest@) == orig.skip(i as int),
            targets_view(tests@) == of_type(orig.take(i as int), tests_type()),
            targets_view(sources@) == of_type(orig.take(i as int), sources_type()),
        decreases rest.len(),
    {
        assert(orig.skip(i as int).len() > 0);
        let ghost tv = targets_view(tests@);
        let ghost sv = targets_view(sources@);
        let ghost old_rest = rest@;
        assert(targets_view(old_rest)[0] == old_rest[0]@);
        let t = rest.remove(0);
        assert(t@ == orig[i as int]);
        assert(orig.take(i + 1).drop_last() =~= orig.take(i as int));
        assert(orig.take(i + 1).last() == orig[i as int]);
        let ty = chars_of(t.target_type.as_str());
        if range_eq(&ty, 0, ty.len(), &tt) {
            assert(ty@.subrange(0, ty@.len() as int) =~= ty@);
            tests.push(t);
            assert(targets_view(tests@) =~= tv.push(orig[i as int]));
        } else if range_eq(&ty, 0, ty.len(), &st) {
            assert(ty@.subrange(0, ty@.len() as int) =~= ty@);
            sources.push(t);
            assert(targets_view(sources@) =~= sv.push(orig[i as int]));
        } else {
            assert(ty@.subrange(0, ty@.len() as int) =~= ty@);
        }
        assert(rest@ =~= old_rest.skip(1));
        assert(targets_view(rest@) =~= targets_view(old_rest).skip(1));
        i = i + 1;
        assert(targets_view(rest@) =~= orig.skip(i as int));
    }
    assert(orig.take(i as int) =~= orig);
    let ghost tv = targets_view(tests@);
    let mut k: usize = 0;
    let ns = sources.len();
    while sources.len() > 0
        invariant
            k <= ns,
            targets_view(tests@) == tv + of_type(orig, sources_type()).take(k as int),
            targets_view(sources@) == of_type(orig, sources_type()).skip(k as int),
            of_type(orig, sources_type()).len() == ns,
            sources.len() == ns - k,
        decreases sources.len(),
    {
        let ghost before = targets_view(tests@);
        let ghost old_src = sources@;
        assert(targets_view(old_src)[0] == old_src[0]@);
        let t = sources.remove(0);
        assert(sources@ =~= old_src.skip(1));
        assert(targets_view(sources@) =~= targets_view(old_src).skip(1));
        assert(t@ == of_type(orig, sources_type())[k as int]);
        tests.push(t);
        assert(targets_view(tests@) =~= before.push(t@));
        assert(targets_view(tests@) =~= tv + of_type(orig, sources_type()).take(k + 1));
        k = k + 1;
        assert(targets_view(sources@) =~= of_type(orig, sources_type()).skip(k as int));
    }
    assert(of_type(orig, sources_type()).take(k as int) =~= of_type(orig, sources_type()));
    tests
}

/// The Python targets that the BUILD text `content` declares (`python_tests` and
/// `python_sources` calls), test targets first. A target without `name` takes
/// `default_name`; one without a literal `sources` list owns its type's default globs.
pub fn parse_build_targets(content: &str, default_name: &str) -> (r: Vec<BuildTarget>)
    requires
        scan_targets(content@, 0, default_name@) is Some,
    ensures
        targets_view(r@) == by_priority(scan_targets(content@, 0, default_name@).unwrap()),
{
    let cs = chars_of(content);
    let raw = scan_exec(&cs, default_name);
    let raw = raw.unwrap();
    prioritize(raw)
}

/// `parse_build_targets`, or `None` on a text where its scan would slice inside a
/// character or past the end.
pub fn try_parse_build_targets(content: &str, default_name: &str) -> (r: Option<Vec<BuildTarget>>)
    ensures
        match r {
            Some(v) => scan_targets(content@, 0, default_name@) is Some
                && targets_view(v@) == by_priority(scan_targets(content@, 0, default_name@).unwrap()),
            None => scan_targets(content@, 0, default_name@) is None,
        },
{
    let cs = chars_of(content);
    match scan_exec(&cs, default_name) {
        Some(_) => Some(parse_build_targets(content, default_name)),
        None => None,
    }
}

} // verus!
