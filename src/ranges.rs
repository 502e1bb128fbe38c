use vstd::prelude::*;
use vstd::string::StringSliceAdditionalSpecFns;
use crate::object::PdfError;

verus! {

/// One-byte whitespace: tab, line feed, vertical tab, form feed, carriage
/// return, space.
pub open spec fn is_space1(a: u8) -> bool {
    a == 32 || (9 <= a && a <= 13)
}

/// Two-byte UTF-8 whitespace: U+0085 and U+00A0.
pub open spec fn is_space2(a: u8, b: u8) -> bool {
    a == 0xC2 && (b == 0x85 || b == 0xA0)
}

/// Three-byte UTF-8 whitespace: U+1680, U+2000 to U+200A, U+2028, U+2029,
/// U+202F, U+205F and U+3000.
pub open spec fn is_space3(a: u8, b: u8, c: u8) -> bool {
    ||| a == 0xE1 && b == 0x9A && c == 0x80
    ||| a == 0xE2 && b == 0x80 && ((0x80 <= c && c <= 0x8A) || c == 0xA8 || c == 0xA9 || c == 0xAF)
    ||| a == 0xE2 && b == 0x81 && c == 0x9F
    ||| a == 0xE3 && b == 0x80 && c == 0x80
}

/// The length in bytes of the whitespace character that `s` starts with,
/// or 0. Whitespace is the Unicode White_Space property, in UTF-8.
pub open spec fn space_len(s: Seq<u8>) -> int {
    if s.len() >= 1 && is_space1(s[0]) {
        1
    } else if s.len() >= 2 && is_space2(s[0], s[1]) {
        2
    } else if s.len() >= 3 && is_space3(s[0], s[1], s[2]) {
        3
    } else {
        0
    }
}

/// The length in bytes of the whitespace character that `s` ends with, or 0.
pub open spec fn space_len_end(s: Seq<u8>) -> int {
    let n = s.len() as int;
    if n >= 1 && is_space1(s[n - 1]) {
        1
    } else if n >= 2 && is_space2(s[n - 2], s[n - 1]) {
        2
    } else if n >= 3 && is_space3(s[n - 3], s[n - 2], s[n - 1]) {
        3
    } else {
        0
    }
}

pub open spec fn is_digit(c: u8) -> bool {
    48 <= c && c <= 57
}

/// `s` without its leading whitespace.
pub open spec fn trim_start(s: Seq<u8>) -> Seq<u8>
    decreases s.len(),
{
    if 0 < space_len(s) <= s.len() {
        trim_start(s.subrange(space_len(s), s.len() as int))
    } else {
        s
    }
}

/// `s` without its trailing whitespace.
pub open spec fn trim_end(s: Seq<u8>) -> Seq<u8>
    decreases s.len(),
{
    if 0 < space_len_end(s) <= s.len() {
        trim_end(s.subrange(0, s.len() - space_len_end(s)))
    } else {
        s
    }
}

/// `s` without leading and trailing whitespace.
pub open spec fn trim(s: Seq<u8>) -> Seq<u8> {
    trim_end(trim_start(s))
}

/// The position of the first `c` in `s`, or -1.
pub open spec fn first_index(s: Seq<u8>, c: u8) -> int
    decreases s.len(),
{
    if s.len() == 0 {
        -1
    } else if s[0] == c {
        0
    } else {
        let r = first_index(s.drop_first(), c);
        if r < 0 {
            -1
        } else {
            r + 1
        }
    }
}

pub open spec fn all_digits(s: Seq<u8>) -> bool {
    forall|i: int| 0 <= i < s.len() ==> is_digit(#[trigger] s[i])
}

/// The decimal value of the digits `s`.
pub open spec fn digits_value(s: Seq<u8>) -> int
    decreases s.len(),
{
    if s.len() == 0 {
        0
    } else {
        digits_value(s.drop_last()) * 10 + (s.last() - 48)
    }
}

/// The digits of a number written with an optional leading `+`.
pub open spec fn unsigned_part(s: Seq<u8>) -> Seq<u8> {
    if s.len() > 0 && s[0] == 43 {
        s.drop_first()
    } else {
        s
    }
}

/// `s` as a decimal number: an optional `+`, then one or more digits, with a
/// value that fits `usize`.
pub open spec fn parse_num(s: Seq<u8>) -> Option<int> {
    let d = unsigned_part(s);
    if d.len() > 0 && all_digits(d) && digits_value(d) <= usize::MAX {
        Some(digits_value(d))
    } else {
        None
    }
}

/// The 1-based pages `(first, last)` that one token selects: a number `N`,
/// or `A-B` with whitespace allowed around the `-`. A token that is not of
/// that form is `InvalidSyntax`; a number outside `1..=max`, or a range
/// whose start exceeds its end, is `RangeOutOfBounds`.
pub open spec fn token_span(t: Seq<u8>, max: int) -> Result<(int, int), PdfError> {
    let t = trim(t);
    let j = first_index(t, 45);
    if 0 <= j < t.len() {
        let left = t.subrange(0, j);
        let right = t.subrange(j + 1, t.len() as int);
        if first_index(right, 45) >= 0 {
            Err(PdfError::InvalidSyntax)
        } else {
            match (parse_num(trim(left)), parse_num(trim(right))) {
                (Some(a), Some(b)) => if a < 1 || b > max || a > b {
                    Err(PdfError::RangeOutOfBounds)
                } else {
                    Ok((a, b))
                },
                _ => Err(PdfError::InvalidSyntax),
            }
        }
    } else {
        match parse_num(t) {
            Some(a) => if a < 1 || a > max {
                Err(PdfError::RangeOutOfBounds)
            } else {
                Ok((a, a))
            },
            None => Err(PdfError::InvalidSyntax),
        }
    }
}

/// The 0-based indices of the 1-based pages `first..=last`.
pub open spec fn span_indices(first: int, last: int) -> Set<int> {
    Set::new(|k: int| first - 1 <= k <= last - 1)
}

/// Adds `m` to a selection, keeping an error.
pub open spec fn join(m: Set<int>, r: Result<Set<int>, PdfError>) -> Result<Set<int>, PdfError> {
    match r {
        Ok(x) => Ok(m.union(x)),
        Err(e) => Err(e),
    }
}

/// What a range expression over `max` pages selects: the comma-separated
/// tokens read left to right, the first failing token's error, else the
/// union of their pages as 0-based indices.
pub open spec fn selection(s: Seq<u8>, max: int) -> Result<Set<int>, PdfError>
    decreases s.len(),
{
    let j = first_index(s, 44);
    let tok = if 0 <= j < s.len() {
        s.subrange(0, j)
    } else {
        s
    };
    match token_span(tok, max) {
        Err(e) => Err(e),
        Ok((a, b)) => if 0 <= j < s.len() {
            join(span_indices(a, b), selection(s.subrange(j + 1, s.len() as int), max))
        } else {
            Ok(span_indices(a, b))
        },
    }
}

/// `v` is strictly ascending and holds exactly the members of `set`.
pub open spec fn sorted_set(v: Seq<usize>, set: Set<int>) -> bool {
    &&& forall|i: int, j: int| 0 <= i < j < v.len() ==> v[i] < v[j]
    &&& forall|k: int| set.contains(k) <==> exists|t: int| 0 <= t < v.len() && v[t] == k
}

/// What `parse_page_ranges` returns for the expression bytes `s`.
pub open spec fn ranges_result(s: Seq<u8>, max: int, r: Result<Vec<usize>, PdfError>) -> bool {
    match selection(s, max) {
        Err(e) => r == Err::<Vec<usize>, PdfError>(e),
        Ok(set) => r is Ok && sorted_set(r->Ok_0@, set),
    }
}

/// The length of the whitespace character at the start of `b[lo..hi]`.
fn lead_space(b: &[u8], lo: usize, hi: usize) -> (r: usize)
    requires
        lo <= hi <= b@.len(),
    ensures
        r == space_len(b@.subrange(lo as int, hi as int)),
{
    let ghost s = b@.subrange(lo as int, hi as int);
    let n = hi - lo;
    if n >= 1 && (b[lo] == 32 || (9 <= b[lo] && b[lo] <= 13)) {
        return 1;
    }
    if n >= 2 && b[lo] == 0xC2 && (b[lo + 1] == 0x85 || b[lo + 1] == 0xA0) {
        return 2;
    }
    if n >= 3 {
        let (x, y, z) = (b[lo], b[lo + 1], b[lo + 2]);
        if (x == 0xE1 && y == 0x9A && z == 0x80) || (x == 0xE2 && y == 0x80 && ((0x80 <= z && z <= 0x8A) || z == 0xA8
            || z == 0xA9 || z == 0xAF)) || (x == 0xE2 && y == 0x81 && z == 0x9F) || (x == 0xE3 && y == 0x80 && z == 0x80) {
            return 3;
        }
    }
    0
}

/// The length of the whitespace character at the end of `b[lo..hi]`.
fn tail_space(b: &[u8], lo: usize, hi: usize) -> (r: usize)
    requires
        lo <= hi <= b@.len(),
    ensures
        r == space_len_end(b@.subrange(lo as int, hi as int)),
{
    let n = hi - lo;
    if n >= 1 && (b[hi - 1] == 32 || (9 <= b[hi - 1] && b[hi - 1] <= 13)) {
        return 1;
    }
    if n >= 2 && b[hi - 2] == 0xC2 && (b[hi - 1] == 0x85 || b[hi - 1] == 0xA0) {
        return 2;
    }
    if n >= 3 {
        let (x, y, z) = (b[hi - 3], b[hi - 2], b[hi - 1]);
        if (x == 0xE1 && y == 0x9A && z == 0x80) || (x == 0xE2 && y == 0x80 && ((0x80 <= z && z <= 0x8A) || z == 0xA8
            || z == 0xA9 || z == 0xAF)) || (x == 0xE2 && y == 0x81 && z == 0x9F) || (x == 0xE3 && y == 0x80 && z == 0x80) {
            return 3;
        }
    }
    0
}

/// The bounds of `b[lo..hi]` without its surrounding whitespace.
fn trim_bounds(b: &[u8], lo: usize, hi: usize) -> (r: (usize, usize))
    requires
        lo <= hi <= b@.len(),
    ensures
        lo <= r.0 <= r.1 <= hi,
        b@.subrange(r.0 as int, r.1 as int) == trim(b@.subrange(lo as int, hi as int)),
{
    let mut a = lo;
    let mut l = lead_space(b, a, hi);
    while l > 0
        invariant
            lo <= a <= hi <= b@.len(),
            l == space_len(b@.subrange(a as int, hi as int)),
            trim_start(b@.subrange(lo as int, hi as int)) == trim_start(b@.subrange(a as int, hi as int)),
        decreases hi - a,
    {
        proof {
            assert(b@.subrange(a as int, hi as int).subrange(l as int, hi - a) =~= b@.subrange(a + l, hi as int));
        }
        a += l;
        l = lead_space(b, a, hi);
    }
    let ghost t = b@.subrange(a as int, hi as int);
    assert(trim_start(t) == t);
    let mut z = hi;
    let mut l = tail_space(b, a, z);
    while l > 0
        invariant
            lo <= a <= z <= hi <= b@.len(),
            t == b@.subrange(a as int, hi as int),
            l == space_len_end(b@.subrange(a as int, z as int)),
            trim_end(t) == trim_end(b@.subrange(a as int, z as int)),
        decreases z - a,
    {
        proof {
            assert(b@.subrange(a as int, z as int).subrange(0, z - a - l) =~= b@.subrange(a as int, z - l));
        }
        z -= l;
        l = tail_space(b, a, z);
    }
    (a, z)
}

proof fn lemma_first_index_step(b: Seq<u8>, k: int, hi: int, c: u8)
    requires
        0 <= k < hi <= b.len(),
        b[k] != c,
    ensures
        first_index(b.subrange(k, hi), c) == if first_index(b.subrange(k + 1, hi), c) < 0 {
            -1
        } else {
            first_index(b.subrange(k + 1, hi), c) + 1
        },
{
    assert(b.subrange(k, hi).drop_first() =~= b.subrange(k + 1, hi));
}

/// The position of the first `c` in `b[lo..hi]`, if any.
fn find_byte(b: &[u8], lo: usize, hi: usize, c: u8) -> (r: Option<usize>)
    requires
        lo <= hi <= b@.len(),
    ensures
        match r {
            Some(j) => lo <= j < hi && first_index(b@.subrange(lo as int, hi as int), c) == j - lo,
            None => first_index(b@.subrange(lo as int, hi as int), c) == -1,
        },
{
    let mut k = lo;
    while k < hi
        invariant
            lo <= k <= hi <= b@.len(),
            first_index(b@.subrange(lo as int, hi as int), c) == if first_index(b@.subrange(k as int, hi as int), c) < 0 {
                -1
            } else {
                first_index(b@.subrange(k as int, hi as int), c) + (k - lo)
            },
        decreases hi - k,
    {
        if b[k] == c {
            return Some(k);
        }
        proof {
            lemma_first_index_step(b@, k as int, hi as int, c);
        }
        k += 1;
    }
    None
}

proof fn lemma_digits_prefix(s: Seq<u8>, k: int)
    requires
        all_digits(s),
        0 <= k <= s.len(),
    ensures
        0 <= digits_value(s.subrange(0, k)) <= digits_value(s),
    decreases s.len(),
{
    if s.len() > 0 {
        let p = s.drop_last();
        assert(all_digits(p)) by {
            assert forall|i: int| 0 <= i < p.len() implies is_digit(#[trigger] p[i]) by {
                assert(p[i] == s[i]);
            }
        }
        if k == s.len() {
            assert(s.subrange(0, k) =~= s);
            lemma_digits_prefix(p, p.len() as int);
            assert(p.subrange(0, p.len() as int) =~= p);
        } else {
            assert(p.subrange(0, k) =~= s.subrange(0, k));
            lemma_digits_prefix(p, k);
        }
        assert(is_digit(s[s.len() - 1]));
    } else {
        assert(s.subrange(0, k) =~= s);
    }
}

/// The decimal number `b[lo..hi]`, as `parse_num` says.
fn parse_number(b: &[u8], lo: usize, hi: usize) -> (r: Option<usize>)
    requires
        lo <= hi <= b@.len(),
    ensures
        match parse_num(b@.subrange(lo as int, hi as int)) {
            Some(v) => 0 <= v && r == Some(v as usize),
            None => r is None,
        },
{
    if lo < hi && b[lo] == 43 {
        assert(b@.subrange(lo as int, hi as int).drop_first() =~= b@.subrange(lo + 1, hi as int));
        parse_digits(b, lo + 1, hi)
    } else {
        parse_digits(b, lo, hi)
    }
}

/// The digits `b[lo..hi]` as a number that fits `usize`.
fn parse_digits(b: &[u8], lo: usize, hi: usize) -> (r: Option<usize>)
    requires
        lo <= hi <= b@.len(),
    ensures
        ({
            let d = b@.subrange(lo as int, hi as int);
            if d.len() > 0 && all_digits(d) && digits_value(d) <= usize::MAX {
                0 <= digits_value(d) && r == Some(digits_value(d) as usize)
            } else {
                r is None
            }
        }),
{
    let ghost s = b@.subrange(lo as int, hi as int);
    if lo == hi {
        return None;
    }
    let mut v: usize = 0;
    let mut k = lo;
    while k < hi
        invariant
            lo <= k <= hi <= b@.len(),
            s == b@.subrange(lo as int, hi as int),
            all_digits(b@.subrange(lo as int, k as int)),
            v == digits_value(b@.subrange(lo as int, k as int)),
        decreases hi - k,
    {
        let c = b[k];
        let ghost p = b@.subrange(lo as int, k as int);
        let ghost q = b@.subrange(lo as int, k + 1);
        assert(q.drop_last() =~= p);
        if c < 48 || c > 57 {
            assert(!is_digit(s[k - lo]));
            return None;
        }
        assert(all_digits(q)) by {
            assert forall|i: int| 0 <= i < q.len() implies is_digit(#[trigger] q[i]) by {
                if i < p.len() {
                    assert(q[i] == p[i]);
                }
            }
        }
        let d = (c - 48) as usize;
        let next = match v.checked_mul(10) {
            Some(t) => t.checked_add(d),
            None => None,
        };
        match next {
            Some(n) => {
                v = n;
            },
            None => {
                proof {
                    if all_digits(s) {
                        assert(s.subrange(0, k + 1 - lo) =~= q);
                        lemma_digits_prefix(s, k + 1 - lo);
                    }
                }
                return None;
            },
        }
        k += 1;
    }
    assert(b@.subrange(lo as int, k as int) =~= s);
    proof {
        lemma_digits_prefix(s, 0);
    }
    Some(v)
}

/// The pages that the token `b[lo..hi]` selects, as `token_span` says.
fn eval_token(b: &[u8], lo: usize, hi: usize, max: usize) -> (r: Result<(usize, usize), PdfError>)
    requires
        lo <= hi <= b@.len(),
    ensures
        match token_span(b@.subrange(lo as int, hi as int), max as int) {
            Ok((x, y)) => r == Ok::<(usize, usize), PdfError>((x as usize, y as usize)),
            Err(e) => r == Err::<(usize, usize), PdfError>(e),
        },
{
    let (a, z) = trim_bounds(b, lo, hi);
    let ghost t = b@.subrange(a as int, z as int);
    match find_byte(b, a, z, 45) {
        Some(j) => {
            proof {
                assert(t == trim(b@.subrange(lo as int, hi as int)));
                assert(first_index(t, 45) == j - a);
                assert(t.subrange(0, j - a) =~= b@.subrange(a as int, j as int));
                assert(t.subrange(j - a + 1, t.len() as int) =~= b@.subrange(j + 1, z as int));
            }
            if find_byte(b, j + 1, z, 45).is_some() {
                return Err(PdfError::InvalidSyntax);
            }
            let (l0, l1) = trim_bounds(b, a, j);
            let (r0, r1) = trim_bounds(b, j + 1, z);
            match (parse_number(b, l0, l1), parse_number(b, r0, r1)) {
                (Some(x), Some(y)) => {
                    if x < 1 || y > max || x > y {
                        Err(PdfError::RangeOutOfBounds)
                    } else {
                        Ok((x, y))
                    }
                },
                _ => Err(PdfError::InvalidSyntax),
            }
        },
        None => {
            match parse_number(b, a, z) {
                Some(x) => {
                    if x < 1 || x > max {
                        Err(PdfError::RangeOutOfBounds)
                    } else {
                        Ok((x, x))
                    }
                },
                None => Err(PdfError::InvalidSyntax),
            }
        },
    }
}

/// Parses a page range expression over a document of `max_pages` pages.
///
/// The expression is a comma-separated list of tokens, each a 1-based page
/// number `N` or an inclusive range `A-B`, with whitespace allowed around
/// tokens and around the `-`. The result is the selected pages as 0-based
/// indices, ascending and without repetition, whatever the order or
/// repetition of the tokens. A token that is not a positive number or a
/// range of two is `InvalidSyntax`; a page outside `1..=max_pages`, or a
/// range whose start exceeds its end, is `RangeOutOfBounds`; the first
/// failing token decides.
pub fn parse_page_ranges(ranges: &str, max_pages: usize) -> (r: Result<Vec<usize>, PdfError>)
    ensures
        ranges_result(ranges.spec_bytes(), max_pages as int, r),
{
    let b = ranges.as_bytes();
    let n = b.len();
    let ghost s = ranges.spec_bytes();
    let ghost max = max_pages as int;
    let mut marks: Vec<bool> = Vec::new();
    while marks.len() < max_pages
        invariant
            marks.len() <= max_pages,
            forall|k: int| 0 <= k < marks.len() ==> !(#[trigger] marks@[k]),
        decreases max_pages - marks.len(),
    {
        marks.push(false);
    }
    let ghost mut chosen: Set<int> = Set::empty();
    proof {
        assert(s.subrange(0, n as int) =~= s);
        match selection(s, max) {
            Ok(x) => {
                assert(chosen.union(x) =~= x);
            },
            Err(_) => {},
        }
    }
    let mut i: usize = 0;
    let mut done = false;
    while !done
        invariant
            b@ == s,
            s == ranges.spec_bytes(),
            n == b@.len(),
            i <= n,
            max == max_pages,
            marks.len() == max_pages,
            forall|k: int| 0 <= k < max_pages ==> (#[trigger] marks@[k] <==> chosen.contains(k)),
            forall|k: int| #[trigger] chosen.contains(k) ==> 0 <= k < max_pages,
            !done ==> selection(s, max) == join(chosen, selection(s.subrange(i as int, n as int), max)),
            done ==> selection(s, max) == Ok::<Set<int>, PdfError>(chosen),
        decreases n + 1 - i - if done {
            1int
        } else {
            0int
        },
    {
        let ghost rest = s.subrange(i as int, n as int);
        let found = find_byte(b, i, n, 44);
        let end = match found {
            Some(j) => j,
            None => n,
        };
        proof {
            if found is Some {
                assert(rest.subrange(0, end - i) =~= s.subrange(i as int, end as int));
                assert(rest.subrange(end - i + 1, rest.len() as int) =~= s.subrange(end + 1, n as int));
            } else {
                assert(rest =~= s.subrange(i as int, end as int));
            }
        }
        match eval_token(b, i, end, max_pages) {
            Err(e) => {
                proof {
                    assert(token_span(s.subrange(i as int, end as int), max) == Err::<(int, int), PdfError>(e));
                    assert(selection(rest, max) == Err::<Set<int>, PdfError>(e));

                }
                return Err(e);
            },
            Ok((x, y)) => {
                let ghost span = span_indices(x as int, y as int);
                let mut k = x - 1;
                while k < y
                    invariant
                        1 <= x <= y <= max_pages,
                        x - 1 <= k <= y,
                        marks.len() == max_pages,
                        forall|q: int| 0 <= q < max_pages ==> (#[trigger] marks@[q] <==> (chosen.contains(q) || (x - 1 <= q < k))),
                    decreases y - k,
                {
                    marks.set(k, true);
                    k += 1;
                }
                proof {
                    let old_chosen = chosen;
                    chosen = chosen.union(span);
                    match found {
                        Some(j) => {
                            let later = selection(s.subrange(j + 1, n as int), max);
                            match later {
                                Ok(z) => {
                                    assert(old_chosen.union(span.union(z)) =~= chosen.union(z));
                                },
                                Err(_) => {},
                            }
                        },
                        None => {},
                    }
                }
                match found {
                    Some(j) => {
                        i = j + 1;
                    },
                    None => {
                        done = true;
                    },
                }
            },
        }
    }
    let mut out: Vec<usize> = Vec::new();
    let mut k: usize = 0;
    while k < max_pages
        invariant
            k <= max_pages,
            marks.len() == max_pages,
            forall|q: int| 0 <= q < max_pages ==> (#[trigger] marks@[q] <==> chosen.contains(q)),
            forall|q: int| #[trigger] chosen.contains(q) ==> 0 <= q < max_pages,
            forall|a: int, c: int| 0 <= a < c < out.len() ==> out@[a] < out@[c],
            forall|t: int| 0 <= t < out.len() ==> #[trigger] out@[t] < k,
            forall|q: int| 0 <= q < k ==> (chosen.contains(q) <==> exists|t: int| 0 <= t < out.len() && out@[t] == q),
        decreases max_pages - k,
    {
        let ghost prev = out@;
        if marks[k] {
            out.push(k);
        }
        proof {
            assert forall|t: int| 0 <= t < prev.len() implies #[trigger] out@[t] == prev[t] by {}
            assert forall|q: int| 0 <= q < k + 1 implies (chosen.contains(q) <==> exists|t: int| 0 <= t < out.len() && out@[t] == q) by {
                if q < k {
                    if chosen.contains(q) {
                        let t = choose|t: int| 0 <= t < prev.len() && prev[t] == q;
                        assert(out@[t] == q);
                    }
                    if exists|t: int| 0 <= t < out.len() && out@[t] == q {
                        let t = choose|t: int| 0 <= t < out.len() && out@[t] == q;
                        if marks@[k as int] && t == out.len() - 1 {
                            assert(out@[t] == k);
                        }
                    }
                } else {
                    if chosen.contains(q) {
                        assert(out@[out.len() - 1] == q);
                    }
                    if exists|t: int| 0 <= t < out.len() && out@[t] == q {
                        let t = choose|t: int| 0 <= t < out.len() && out@[t] == q;
                        if !(marks@[k as int] && t == out.len() - 1) {
                            assert(out@[t] < k);
                        }
                    }
                }
            }
        }
        k += 1;
    }
    proof {
        assert forall|q: int| chosen.contains(q) <==> exists|t: int| 0 <= t < out.len() && out@[t] == q by {
            if exists|t: int| 0 <= t < out.len() && out@[t] == q {
                let t = choose|t: int| 0 <= t < out.len() && out@[t] == q;
                assert(0 <= q < max_pages);
            }
        }
    }
    Ok(out)
}

/// Every page that a range expression selects is a page of the document.
pub proof fn lemma_selection_in_range(s: Seq<u8>, max: int)
    ensures
        selection(s, max) is Ok ==> forall|k: int| #[trigger] selection(s, max)->Ok_0.contains(k) ==> 0 <= k < max,
    decreases s.len(),
{
    let j = first_index(s, 44);
    if 0 <= j < s.len() {
        lemma_selection_in_range(s.subrange(j + 1, s.len() as int), max);
    }
}

} // verus!
