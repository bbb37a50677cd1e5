//! Character-level helpers shared by the parsers of this crate.
use vstd::prelude::*;

verus! {

/// Appends one character to the end of a string.
///
/// Trusted: `String::push`, which std documents as appending the given `char`
/// to the end of the string.
#[verifier::external_body]
pub(crate) fn push_char(s: &mut String, c: char)
    ensures
        final(s)@ == old(s)@.push(c),
{
    s.push(c)
}

/// The characters of `s`, in order.
pub fn chars_of(s: &str) -> (r: Vec<char>)
    ensures
        r@ == s@,
{
    broadcast use vstd::string::group_string_axioms;

    let mut r: Vec<char> = Vec::new();
    for c in it: s.chars()
        invariant
            r@ == it.seq().take(it.index() as int),
    {
        r.push(c);
    }
    r
}

/// A string made of `cs[lo..hi]`.
pub fn string_from_range(cs: &Vec<char>, lo: usize, hi: usize) -> (r: String)
    requires
        lo <= hi <= cs.len(),
    ensures
        r@ == cs@.subrange(lo as int, hi as int),
{
    let mut r = String::new();
    let mut i = lo;
    while i < hi
        invariant
            lo <= i <= hi <= cs.len(),
            r@ == cs@.subrange(lo as int, i as int),
        decreases hi - i,
    {
        push_char(&mut r, cs[i]);
        i = i + 1;
        assert(r@ =~= cs@.subrange(lo as int, i as int));
    }
    r
}

/// A string made of all of `cs`.
pub fn string_from_chars(cs: &Vec<char>) -> (r: String)
    ensures
        r@ == cs@,
{
    let r = string_from_range(cs, 0, cs.len());
    assert(cs@.subrange(0, cs@.len() as int) =~= cs@);
    r
}

/// Whether `s[at..]` begins with `p`.
pub open spec fn matches_at(s: Seq<char>, at: int, p: Seq<char>) -> bool {
    0 <= at && at + p.len() <= s.len() && s.subrange(at, at + p.len()) == p
}

/// Whether `s[at..]` begins with `p`.
pub fn has_at(s: &Vec<char>, at: usize, p: &Vec<char>) -> (r: bool)
    ensures
        r == matches_at(s@, at as int, p@),
{
    if at > s.len() || p.len() > s.len() - at {
        return false;
    }
    let mut i: usize = 0;
    while i < p.len()
        invariant
            at + p.len() <= s.len(),
            i <= p.len(),
            forall|k: int| 0 <= k < i ==> s@[at + k] == p@[k],
        decreases p.len() - i,
    {
        if s[at + i] != p[i] {
            assert(s@.subrange(at as int, at + p.len())[i as int] != p@[i as int]);
            return false;
        }
        i = i + 1;
    }
    assert(s@.subrange(at as int, at + p.len()) =~= p@);
    true
}

/// Whether two character sequences are equal.
pub fn chars_eq(a: &Vec<char>, b: &Vec<char>) -> (r: bool)
    ensures
        r == (a@ == b@),
{
    if a.len() != b.len() {
        return false;
    }
    let r = has_at(a, 0, b);
    assert(a@.subrange(0, b@.len() as int) =~= a@);
    r
}

/// `c` has the Unicode `White_Space` property, which `char::is_whitespace` tests.
pub open spec fn is_ws(c: char) -> bool {
    let n = c as u32;
    (0x9 <= n && n <= 0xd) || n == 0x20 || n == 0x85 || n == 0xa0 || n == 0x1680
        || (0x2000 <= n && n <= 0x200a) || n == 0x2028 || n == 0x2029 || n == 0x202f
        || n == 0x205f || n == 0x3000
}

/// Whether `c` is white space.
pub fn is_whitespace(c: char) -> (r: bool)
    ensures
        r == is_ws(c),
{
    let n = c as u32;
    (0x9 <= n && n <= 0xd) || n == 0x20 || n == 0x85 || n == 0xa0 || n == 0x1680
        || (0x2000 <= n && n <= 0x200a) || n == 0x2028 || n == 0x2029 || n == 0x202f
        || n == 0x205f || n == 0x3000
}

/// The number of white-space characters at the start of `s`.
pub open spec fn lead_ws(s: Seq<char>) -> nat
    decreases s.len(),
{
    if s.len() > 0 && is_ws(s[0]) {
        1 + lead_ws(s.skip(1))
    } else {
        0
    }
}

/// The number of white-space characters at the end of `s`.
pub open spec fn trail_ws(s: Seq<char>) -> nat
    decreases s.len(),
{
    if s.len() > 0 && is_ws(s.last()) {
        1 + trail_ws(s.drop_last())
    } else {
        0
    }
}

/// `s` without its leading white space, as `str::trim_start` gives it.
pub open spec fn trim_start(s: Seq<char>) -> Seq<char> {
    s.skip(lead_ws(s) as int)
}

/// `s` without its trailing white space, as `str::trim_end` gives it.
pub open spec fn trim_end(s: Seq<char>) -> Seq<char> {
    s.take(s.len() - trail_ws(s))
}

/// `s` without leading and trailing white space, as `str::trim` gives it.
pub open spec fn trim(s: Seq<char>) -> Seq<char> {
    trim_end(trim_start(s))
}

pub proof fn lemma_lead_ws(s: Seq<char>)
    ensures
        lead_ws(s) <= s.len(),
        forall|i: int| 0 <= i < lead_ws(s) ==> is_ws(#[trigger] s[i]),
        lead_ws(s) < s.len() ==> !is_ws(s[lead_ws(s) as int]),
    decreases s.len(),
{
    if s.len() > 0 && is_ws(s[0]) {
        lemma_lead_ws(s.skip(1));
        assert forall|i: int| 0 <= i < lead_ws(s) implies is_ws(#[trigger] s[i]) by {
            if i > 0 {
                assert(s[i] == s.skip(1)[i - 1]);
            }
        }
    }
}

pub proof fn lemma_trail_ws(s: Seq<char>)
    ensures
        trail_ws(s) <= s.len(),
        forall|i: int| s.len() - trail_ws(s) <= i < s.len() ==> is_ws(#[trigger] s[i]),
        trail_ws(s) < s.len() ==> !is_ws(s[s.len() - trail_ws(s) - 1]),
    decreases s.len(),
{
    if s.len() > 0 && is_ws(s.last()) {
        lemma_trail_ws(s.drop_last());
        assert forall|i: int| s.len() - trail_ws(s) <= i < s.len() implies is_ws(#[trigger] s[i]) by {
            if i < s.len() - 1 {
                assert(s[i] == s.drop_last()[i]);
            }
        }
    }
}

/// The first index past `lo` (up to `hi`) that does not hold white space.
pub fn skip_ws(cs: &Vec<char>, lo: usize, hi: usize) -> (r: usize)
    requires
        lo <= hi <= cs.len(),
    ensures
        lo <= r <= hi,
        r - lo == lead_ws(cs@.subrange(lo as int, hi as int)),
        cs@.subrange(r as int, hi as int) == trim_start(cs@.subrange(lo as int, hi as int)),
{
    let mut i = lo;
    while i < hi && is_whitespace(cs[i])
        invariant
            lo <= i <= hi <= cs.len(),
            lead_ws(cs@.subrange(lo as int, hi as int)) == (i - lo) + lead_ws(cs@.subrange(i as int, hi as int)),
        decreases hi - i,
    {
        assert(cs@.subrange(i as int, hi as int).skip(1) =~= cs@.subrange(i + 1, hi as int));
        i = i + 1;
    }
    assert(cs@.subrange(lo as int, hi as int).skip(i - lo) =~= cs@.subrange(i as int, hi as int));
    i
}

/// The index, no lower than `lo`, where the white space that ends `cs[lo..hi]` begins.
pub fn back_ws(cs: &Vec<char>, lo: usize, hi: usize) -> (r: usize)
    requires
        lo <= hi <= cs.len(),
    ensures
        lo <= r <= hi,
        hi - r == trail_ws(cs@.subrange(lo as int, hi as int)),
        cs@.subrange(lo as int, r as int) == trim_end(cs@.subrange(lo as int, hi as int)),
{
    let mut i = hi;
    while i > lo && is_whitespace(cs[i - 1])
        invariant
            lo <= i <= hi <= cs.len(),
            trail_ws(cs@.subrange(lo as int, hi as int)) == (hi - i) + trail_ws(cs@.subrange(lo as int, i as int)),
        decreases i - lo,
    {
        assert(cs@.subrange(lo as int, i as int).drop_last() =~= cs@.subrange(lo as int, i - 1));
        i = i - 1;
    }
    assert(cs@.subrange(lo as int, hi as int).take(i - lo) =~= cs@.subrange(lo as int, i as int));
    i
}

/// The bounds of `cs[lo..hi]` with white space trimmed from both ends.
pub fn trim_range(cs: &Vec<char>, lo: usize, hi: usize) -> (r: (usize, usize))
    requires
        lo <= hi <= cs.len(),
    ensures
        lo <= r.0 <= r.1 <= hi,
        cs@.subrange(r.0 as int, r.1 as int) == trim(cs@.subrange(lo as int, hi as int)),
{
    let a = skip_ws(cs, lo, hi);
    let z = back_ws(cs, a, hi);
    (a, z)
}

/// The first index in `lo..hi` where `s` holds `c`.
pub open spec fn find_in(s: Seq<char>, c: char, lo: int, hi: int) -> Option<int>
    decreases hi - lo,
{
    if lo >= hi {
        None
    } else if s[lo] == c {
        Some(lo)
    } else {
        find_in(s, c, lo + 1, hi)
    }
}

pub proof fn lemma_find_in(s: Seq<char>, c: char, lo: int, hi: int)
    ensures
        match find_in(s, c, lo, hi) {
            Some(i) => lo <= i < hi && s[i] == c && forall|k: int| lo <= k < i ==> s[k] != c,
            None => forall|k: int| lo <= k < hi ==> s[k] != c,
        },
    decreases hi - lo,
{
    if lo < hi && s[lo] != c {
        lemma_find_in(s, c, lo + 1, hi);
    }
}

/// The first index in `lo..hi` where `cs` holds `c`.
pub fn find_char(cs: &Vec<char>, c: char, lo: usize, hi: usize) -> (r: Option<usize>)
    requires
        lo <= hi <= cs.len(),
    ensures
        match r {
            Some(i) => find_in(cs@, c, lo as int, hi as int) == Some(i as int),
            None => find_in(cs@, c, lo as int, hi as int) is None,
        },
{
    let mut i = lo;
    while i < hi
        invariant
            lo <= i <= hi <= cs.len(),
            find_in(cs@, c, lo as int, hi as int) == find_in(cs@, c, i as int, hi as int),
        decreases hi - i,
    {
        if cs[i] == c {
            return Some(i);
        }
        i = i + 1;
    }
    None
}

/// The characters `cs[lo..hi]`.
pub fn slice_chars(cs: &Vec<char>, lo: usize, hi: usize) -> (r: Vec<char>)
    requires
        lo <= hi <= cs.len(),
    ensures
        r@ == cs@.subrange(lo as int, hi as int),
{
    let mut r: Vec<char> = Vec::new();
    let mut i = lo;
    while i < hi
        invariant
            lo <= i <= hi <= cs.len(),
            r@ == cs@.subrange(lo as int, i as int),
        decreases hi - i,
    {
        r.push(cs[i]);
        i = i + 1;
        assert(r@ =~= cs@.subrange(lo as int, i as int));
    }
    r
}

/// Whether `cs[lo..hi]` is `p`.
pub fn range_eq(cs: &Vec<char>, lo: usize, hi: usize, p: &Vec<char>) -> (r: bool)
    requires
        lo <= hi <= cs.len(),
    ensures
        r == (cs@.subrange(lo as int, hi as int) == p@),
{
    if hi - lo != p.len() {
        return false;
    }
    has_at(cs, lo, p)
}

/// Splitting `s` at each `sep`, left to right: the parts completed and the part under way.
pub open spec fn sep_scan(s: Seq<char>, sep: char) -> (Seq<Seq<char>>, Seq<char>)
    decreases s.len(),
{
    if s.len() == 0 {
        (Seq::empty(), Seq::empty())
    } else {
        let (done, cur) = sep_scan(s.drop_last(), sep);
        if s.last() == sep {
            (done.push(cur), Seq::empty())
        } else {
            (done, cur.push(s.last()))
        }
    }
}

/// The parts of `s` between the occurrences of `sep`, as `str::split` gives them.
pub open spec fn split_on(s: Seq<char>, sep: char) -> Seq<Seq<char>> {
    sep_scan(s, sep).0.push(sep_scan(s, sep).1)
}

/// `needle` stands somewhere in `hay`.
pub open spec fn has_text(hay: Seq<char>, needle: Seq<char>) -> bool {
    exists|i: int| matches_at(hay, i, needle)
}

/// Whether `needle` stands somewhere in `hay`, as `str::contains` tells.
pub fn contains_text(hay: &Vec<char>, needle: &Vec<char>) -> (r: bool)
    ensures
        r == has_text(hay@, needle@),
{
    if needle.len() > hay.len() {
        return false;
    }
    let last = hay.len() - needle.len();
    let mut i: usize = 0;
    loop
        invariant
            i <= last,
            last + needle@.len() == hay@.len(),
            forall|k: int| 0 <= k < i ==> !matches_at(hay@, k, needle@),
        decreases last - i,
    {
        if has_at(hay, i, needle) {
            return true;
        }
        if i == last {
            assert forall|k: int| #![auto] !matches_at(hay@, k, needle@) by {
                if 0 <= k < i {
                } else if k == i {
                } else {
                }
            }
            return false;
        }
        i = i + 1;
    }
}

/// How many times `c` opens `s`.
pub open spec fn lead_of(s: Seq<char>, c: char) -> nat
    decreases s.len(),
{
    if s.len() > 0 && s[0] == c {
        1 + lead_of(s.skip(1), c)
    } else {
        0
    }
}

/// How many times `c` closes `s`.
pub open spec fn trail_of(s: Seq<char>, c: char) -> nat
    decreases s.len(),
{
    if s.len() > 0 && s.last() == c {
        1 + trail_of(s.drop_last(), c)
    } else {
        0
    }
}

/// `s` without the `c`s that open and close it, as `str::trim_matches(c)` gives it.
pub open spec fn trim_char(s: Seq<char>, c: char) -> Seq<char> {
    let a = s.skip(lead_of(s, c) as int);
    a.take(a.len() - trail_of(a, c))
}

pub proof fn lemma_lead_of(s: Seq<char>, c: char)
    ensures
        lead_of(s, c) <= s.len(),
    decreases s.len(),
{
    if s.len() > 0 && s[0] == c {
        lemma_lead_of(s.skip(1), c);
    }
}

pub proof fn lemma_trail_of(s: Seq<char>, c: char)
    ensures
        trail_of(s, c) <= s.len(),
    decreases s.len(),
{
    if s.len() > 0 && s.last() == c {
        lemma_trail_of(s.drop_last(), c);
    }
}

/// The bounds of `cs[lo..hi]` with the `c`s that open and close it trimmed.
pub fn trim_char_range(cs: &Vec<char>, lo: usize, hi: usize, c: char) -> (r: (usize, usize))
    requires
        lo <= hi <= cs.len(),
    ensures
        lo <= r.0 <= r.1 <= hi,
        cs@.subrange(r.0 as int, r.1 as int) == trim_char(cs@.subrange(lo as int, hi as int), c),
{
    let mut a = lo;
    while a < hi && cs[a] == c
        invariant
            lo <= a <= hi <= cs.len(),
            lead_of(cs@.subrange(lo as int, hi as int), c) == (a - lo) + lead_of(cs@.subrange(a as int, hi as int), c),
        decreases hi - a,
    {
        assert(cs@.subrange(a as int, hi as int).skip(1) =~= cs@.subrange(a + 1, hi as int));
        a = a + 1;
    }
    assert(cs@.subrange(lo as int, hi as int).skip(a - lo) =~= cs@.subrange(a as int, hi as int));
    let mut z = hi;
    while z > a && cs[z - 1] == c
        invariant
            a <= z <= hi <= cs.len(),
            trail_of(cs@.subrange(a as int, hi as int), c) == (hi - z) + trail_of(cs@.subrange(a as int, z as int), c),
        decreases z - a,
    {
        assert(cs@.subrange(a as int, z as int).drop_last() =~= cs@.subrange(a as int, z - 1));
        z = z - 1;
    }
    assert(cs@.subrange(a as int, hi as int).take(z - a) =~= cs@.subrange(a as int, z as int));
    (a, z)
}

/// The bounds of the parts of `cs` between the occurrences of `sep`.
pub fn split_bounds(cs: &Vec<char>, sep: char) -> (r: Vec<(usize, usize)>)
    ensures
        r@.len() == split_on(cs@, sep).len(),
        forall|i: int| 0 <= i < r@.len() ==> (#[trigger] r@[i]).0 <= r@[i].1 <= cs@.len()
            && cs@.subrange(r@[i].0 as int, r@[i].1 as int) == split_on(cs@, sep)[i],
{
    let ghost s = cs@;
    let mut r: Vec<(usize, usize)> = Vec::new();
    let mut start: usize = 0;
    let mut k: usize = 0;
    while k < cs.len()
        invariant
            start <= k <= cs@.len(),
            s == cs@,
            sep_scan(s.take(k as int), sep).1 == s.subrange(start as int, k as int),
            r@.len() == sep_scan(s.take(k as int), sep).0.len(),
            forall|i: int| 0 <= i < r@.len() ==> (#[trigger] r@[i]).0 <= r@[i].1 <= start
                && s.subrange(r@[i].0 as int, r@[i].1 as int) == sep_scan(s.take(k as int), sep).0[i],
        decreases cs@.len() - k,
    {
        let ghost done = sep_scan(s.take(k as int), sep).0;
        let ghost r0 = r@;
        assert(s.take(k + 1).drop_last() =~= s.take(k as int));
        assert(s.take(k + 1).last() == s[k as int]);
        if cs[k] == sep {
            r.push((start, k));
            assert(sep_scan(s.take(k + 1), sep).0 == done.push(s.subrange(start as int, k as int)));
            assert forall|i: int| 0 <= i < r@.len() implies (#[trigger] r@[i]).0 <= r@[i].1 <= k + 1
                && s.subrange(r@[i].0 as int, r@[i].1 as int) == sep_scan(s.take(k + 1), sep).0[i] by {
                if i < r0.len() {
                    assert(r@[i] == r0[i]);
                }
            }
            start = k + 1;
            assert(s.subrange(start as int, k + 1) =~= Seq::<char>::empty());
        } else {
            assert(s.subrange(start as int, k + 1) =~= s.subrange(start as int, k as int).push(s[k as int]));
            assert(sep_scan(s.take(k + 1), sep).0 == done);
        }
        k = k + 1;
    }
    assert(s.take(s.len() as int) =~= s);
    let ghost r0 = r@;
    r.push((start, cs.len()));
    assert forall|i: int| 0 <= i < r@.len() implies (#[trigger] r@[i]).0 <= r@[i].1 <= cs@.len()
        && cs@.subrange(r@[i].0 as int, r@[i].1 as int) == split_on(cs@, sep)[i] by {
        if i < r0.len() {
            assert(r@[i] == r0[i]);
        }
    }
    r
}

} // verus!
