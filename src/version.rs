//! Version tags: prefix stripping, the semantic-version grammar, and ordering.

use vstd::prelude::*;
use std::cmp::Ordering;

verus! {

/// An ASCII decimal digit.
pub open spec fn is_digit(c: char) -> bool {
    '0' <= c <= '9'
}

/// A character allowed in a prerelease or build identifier.
pub open spec fn is_ident_char(c: char) -> bool {
    is_digit(c) || ('a' <= c <= 'z') || ('A' <= c <= 'Z') || c == '-'
}

/// The value of a run of decimal digits.
pub open spec fn digits_value(s: Seq<char>) -> int
    decreases s.len(),
{
    if s.len() == 0 {
        0
    } else {
        digits_value(s.drop_last()) * 10 + (s.last() as u32 - '0' as u32)
    }
}

/// Every character is an ASCII digit.
pub open spec fn all_digits(d: Seq<char>) -> bool {
    forall|i: int| 0 <= i < d.len() ==> is_digit(#[trigger] d[i])
}

/// The digits of an unsigned number, after an optional `+` sign.
pub open spec fn unsigned_digits(s: Seq<char>) -> Seq<char> {
    if s.len() > 0 && s[0] == '+' {
        s.drop_first()
    } else {
        s
    }
}

/// The unsigned decimal number that `s` writes, if it writes one no larger than `max`.
pub open spec fn parse_unsigned(s: Seq<char>, max: int) -> Option<int> {
    let d = unsigned_digits(s);
    if d.len() > 0 && all_digits(d) && digits_value(d) <= max {
        Some(digits_value(d))
    } else {
        None
    }
}

/// The tag without one leading `v` or `V`.
pub open spec fn strip_v(t: Seq<char>) -> Seq<char> {
    if t.len() > 0 && (t[0] == 'v' || t[0] == 'V') {
        t.drop_first()
    } else {
        t
    }
}

/// The first position at or after `i` that holds no digit.
pub open spec fn digit_end(s: Seq<char>, i: nat) -> nat
    decreases s.len() - i,
{
    if i < s.len() && is_digit(s[i as int]) {
        digit_end(s, i + 1)
    } else {
        i
    }
}

/// The first position at or after `i` that holds a `+`, or the length.
pub open spec fn plus_pos(s: Seq<char>, i: nat) -> nat
    decreases s.len() - i,
{
    if i < s.len() && s[i as int] != '+' {
        plus_pos(s, i + 1)
    } else {
        i
    }
}

/// One or more non-empty identifiers of `[0-9A-Za-z-]`, separated by dots.
pub open spec fn dot_idents(x: Seq<char>) -> bool {
    &&& x.len() > 0
    &&& x[0] != '.'
    &&& x.last() != '.'
    &&& forall|i: int| 0 <= i < x.len() ==> is_ident_char(#[trigger] x[i]) || x[i] == '.'
    &&& forall|i: int| 0 <= i < x.len() - 1 ==> !(#[trigger] x[i] == '.' && x[i + 1] == '.')
}

/// What may follow `MAJOR.MINOR.PATCH`: nothing, `-prerelease`, `+build`, or both in that order.
pub open spec fn semver_suffix(r: Seq<char>) -> bool {
    ||| r.len() == 0
    ||| (r[0] == '+' && dot_idents(r.drop_first()))
    ||| (r[0] == '-' && dot_idents(r.subrange(1, plus_pos(r, 1) as int)) && (plus_pos(r, 1)
        == r.len() || dot_idents(r.subrange(plus_pos(r, 1) as int + 1, r.len() as int))))
}

/// `MAJOR.MINOR.PATCH` in ASCII digits, then a `semver_suffix`.
pub open spec fn semver_core(s: Seq<char>) -> bool {
    let a = digit_end(s, 0);
    let b = digit_end(s, a + 1);
    let c = digit_end(s, b + 1);
    &&& a > 0
    &&& a < s.len()
    &&& s[a as int] == '.'
    &&& b > a + 1
    &&& b < s.len()
    &&& s[b as int] == '.'
    &&& c > b + 1
    &&& semver_suffix(s.subrange(c as int, s.len() as int))
}

/// A tag that, without its `v`/`V` prefix, is a semantic version.
pub open spec fn semver_tag(t: Seq<char>) -> bool {
    semver_core(strip_v(t))
}

/// The order of two integers.
pub open spec fn cmp_int(x: int, y: int) -> Ordering {
    if x < y {
        Ordering::Less
    } else if x > y {
        Ordering::Greater
    } else {
        Ordering::Equal
    }
}

/// Lexicographic order of texts by code point (the order of `str`).
pub open spec fn lex_cmp(a: Seq<char>, b: Seq<char>) -> Ordering
    decreases a.len(),
{
    if a.len() == 0 {
        if b.len() == 0 {
            Ordering::Equal
        } else {
            Ordering::Less
        }
    } else if b.len() == 0 {
        Ordering::Greater
    } else if a[0] != b[0] {
        if a[0] < b[0] {
            Ordering::Less
        } else {
            Ordering::Greater
        }
    } else {
        lex_cmp(a.drop_first(), b.drop_first())
    }
}

/// A version component as a number: its `u32` value, or 0 where it is none.
pub open spec fn component_value(p: Seq<char>) -> int {
    match parse_unsigned(p, u32::MAX as int) {
        Some(v) => v,
        None => 0,
    }
}

/// The numeric runs of a semantic-version core: MAJOR, MINOR, and PATCH up
/// to any `-` or `+` suffix.
pub open spec fn core_parts(s: Seq<char>) -> (Seq<char>, Seq<char>, Seq<char>) {
    let a = digit_end(s, 0);
    let b = digit_end(s, a + 1);
    let c = digit_end(s, b + 1);
    (s.subrange(0, a as int), s.subrange(a as int + 1, b as int), s.subrange(b as int + 1, c as int))
}

/// Compares MAJOR, then MINOR, then PATCH as numbers; suffixes play no part.
pub open spec fn compare_cores(x: (Seq<char>, Seq<char>, Seq<char>), y: (Seq<char>, Seq<char>, Seq<char>)) -> Ordering {
    if component_value(x.0) != component_value(y.0) {
        cmp_int(component_value(x.0), component_value(y.0))
    } else if component_value(x.1) != component_value(y.1) {
        cmp_int(component_value(x.1), component_value(y.1))
    } else {
        cmp_int(component_value(x.2), component_value(y.2))
    }
}

/// The order of two tags: numeric on `MAJOR.MINOR.PATCH` where both are
/// semantic versions (prerelease and build suffixes ignored), else
/// lexicographic on the tags without prefix.
pub open spec fn semver_order(t1: Seq<char>, t2: Seq<char>) -> Ordering {
    let c1 = strip_v(t1);
    let c2 = strip_v(t2);
    if !(semver_tag(c1) && semver_tag(c2)) {
        lex_cmp(c1, c2)
    } else {
        compare_cores(core_parts(strip_v(c1)), core_parts(strip_v(c2)))
    }
}

/// Whether `c` is an ASCII digit.
pub fn is_digit_char(c: char) -> (r: bool)
    ensures
        r == is_digit(c),
{
    '0' <= c && c <= '9'
}

fn is_ident_char_exec(c: char) -> (r: bool)
    ensures
        r == is_ident_char(c),
{
    is_digit_char(c) || ('a' <= c && c <= 'z') || ('A' <= c && c <= 'Z') || c == '-'
}

/// Reads an unsigned decimal number no larger than `max`, as `str::parse` does
/// for an unsigned integer type whose largest value is `max`.
pub fn parse_unsigned_str(s: &str, max: u64) -> (r: Option<u64>)
    ensures
        r matches Some(v) ==> parse_unsigned(s@, max as int) == Some(v as int),
        r is None ==> parse_unsigned(s@, max as int) is None,
{
    let n = s.unicode_len();
    let mut first: usize = 0;
    if n > 0 && s.get_char(0) == '+' {
        first = 1;
    }
    let ghost d = unsigned_digits(s@);
    assert(d =~= s@.subrange(first as int, n as int));
    if first == n {
        return None;
    }
    let mut acc: u64 = 0;
    let mut over = false;
    let mut i: usize = first;
    assert(d.subrange(0, 0) =~= Seq::<char>::empty());
    while i < n
        invariant
            n == s@.len(),
            first <= i <= n,
            d == s@.subrange(first as int, n as int),
            d == unsigned_digits(s@),
            forall|k: int| 0 <= k < i - first ==> is_digit(#[trigger] d[k]),
            !over ==> acc == digits_value(d.subrange(0, i - first)) && acc <= max,
            over ==> digits_value(d.subrange(0, i - first)) > max,
        decreases n - i,
    {
        let c = s.get_char(i);
        if !is_digit_char(c) {
            assert(d[(i - first) as int] == s@[i as int]);
            assert(!is_digit(d[(i - first) as int]));
            assert(!all_digits(d));
            return None;
        }
        let dv = (c as u32 - '0' as u32) as u64;
        let ghost prev = d.subrange(0, i - first);
        assert(d.subrange(0, i + 1 - first).drop_last() =~= prev);
        assert(digits_value(d.subrange(0, i + 1 - first)) == digits_value(prev) * 10 + dv);
        if !over {
            if dv > max || acc > (max - dv) / 10 {
                proof {
                    let m = max as int;
                    let a = acc as int;
                    let e = dv as int;
                    assert(e > m || a > (m - e) / 10 ==> a * 10 + e > m) by (nonlinear_arith)
                        requires
                            a >= 0,
                            e >= 0,
                            m >= 0,
                    ;
                }
                over = true;
            } else {
                proof {
                    let m = max as int;
                    let a = acc as int;
                    let e = dv as int;
                    assert(a <= (m - e) / 10 ==> a * 10 + e <= m) by (nonlinear_arith)
                        requires
                            e <= m,
                            a >= 0,
                    ;
                }
                acc = acc * 10 + dv;
            }
        } else {
            proof {
                let v = digits_value(prev);
                assert(v > max ==> v * 10 + dv > max) by (nonlinear_arith);
            }
        }
        i += 1;
    }
    assert(d.subrange(0, n - first) =~= d);
    if over {
        None
    } else {
        Some(acc)
    }
}

/// The tag without one leading `v` or `V`.
pub fn extract_version(tag_name: &str) -> (r: String)
    ensures
        r@ == strip_v(tag_name@),
{
    let n = tag_name.unicode_len();
    if n > 0 {
        let c = tag_name.get_char(0);
        if c == 'v' || c == 'V' {
            let rest = tag_name.substring_char(1, n).to_owned();
            assert(rest@ =~= tag_name@.drop_first());
            return rest;
        }
    }
    tag_name.to_owned()
}

fn digit_end_exec(s: &str, i: usize) -> (r: usize)
    requires
        i <= s@.len(),
    ensures
        r == digit_end(s@, i as nat),
        i <= r <= s@.len(),
{
    let n = s.unicode_len();
    let mut j = i;
    while j < n && is_digit_char(s.get_char(j))
        invariant
            n == s@.len(),
            i <= j <= n,
            digit_end(s@, j as nat) == digit_end(s@, i as nat),
        decreases n - j,
    {
        j += 1;
    }
    j
}

fn plus_pos_exec(s: &str, i: usize) -> (r: usize)
    requires
        i <= s@.len(),
    ensures
        r == plus_pos(s@, i as nat),
        i <= r <= s@.len(),
{
    let n = s.unicode_len();
    let mut j = i;
    while j < n && s.get_char(j) != '+'
        invariant
            n == s@.len(),
            i <= j <= n,
            plus_pos(s@, j as nat) == plus_pos(s@, i as nat),
        decreases n - j,
    {
        j += 1;
    }
    j
}

fn dot_idents_exec(x: &str) -> (r: bool)
    ensures
        r == dot_idents(x@),
{
    let n = x.unicode_len();
    if n == 0 || x.get_char(0) == '.' || x.get_char(n - 1) == '.' {
        return false;
    }
    let mut i: usize = 0;
    while i < n
        invariant
            n == x@.len(),
            n > 0,
            i <= n,
            forall|k: int| 0 <= k < i ==> is_ident_char(#[trigger] x@[k]) || x@[k] == '.',
            forall|k: int| 0 <= k < i && k < n - 1 ==> !(#[trigger] x@[k] == '.' && x@[k + 1] == '.'),
        decreases n - i,
    {
        let c = x.get_char(i);
        if !(is_ident_char_exec(c) || c == '.') {
            return false;
        }
        if c == '.' && i + 1 < n && x.get_char(i + 1) == '.' {
            assert(x@[i as int] == '.' && x@[i + 1] == '.');
            return false;
        }
        i += 1;
    }
    true
}

fn semver_core_exec(s: &str) -> (r: bool)
    ensures
        r == semver_core(s@),
{
    let n = s.unicode_len();
    let a = digit_end_exec(s, 0);
    if a == 0 || a >= n || s.get_char(a) != '.' {
        return false;
    }
    let b = digit_end_exec(s, a + 1);
    if b <= a + 1 || b >= n || s.get_char(b) != '.' {
        return false;
    }
    let c = digit_end_exec(s, b + 1);
    if c <= b + 1 {
        return false;
    }
    let r = s.substring_char(c, n);
    let m = r.unicode_len();
    if m == 0 {
        return true;
    }
    let first = r.get_char(0);
    if first == '+' {
        let rest = r.substring_char(1, m);
        assert(rest@ =~= r@.drop_first());
        dot_idents_exec(rest)
    } else if first == '-' {
        let p = plus_pos_exec(r, 1);
        if !dot_idents_exec(r.substring_char(1, p)) {
            return false;
        }
        p == m || dot_idents_exec(r.substring_char(p + 1, m))
    } else {
        false
    }
}

/// Whether the tag, without one leading `v` or `V`, is a semantic version:
/// `MAJOR.MINOR.PATCH` with an optional `-prerelease` and `+build` part.
pub fn is_semver(tag: &str) -> (r: bool)
    ensures
        r == semver_tag(tag@),
{
    let clean = extract_version(tag);
    semver_core_exec(clean.as_str())
}

fn cmp_u64(x: u64, y: u64) -> (r: Ordering)
    ensures
        r == cmp_int(x as int, y as int),
{
    if x < y {
        Ordering::Less
    } else if x > y {
        Ordering::Greater
    } else {
        Ordering::Equal
    }
}

/// Compares two texts by code point, as `str`'s order does.
pub fn lex_compare(a: &str, b: &str) -> (r: Ordering)
    ensures
        r == lex_cmp(a@, b@),
{
    let n = a.unicode_len();
    let m = b.unicode_len();
    let mut i: usize = 0;
    assert(a@.subrange(0, n as int) =~= a@);
    assert(b@.subrange(0, m as int) =~= b@);
    while i < n && i < m && a.get_char(i) == b.get_char(i)
        invariant
            n == a@.len(),
            m == b@.len(),
            i <= n,
            i <= m,
            lex_cmp(a@.subrange(i as int, n as int), b@.subrange(i as int, m as int)) == lex_cmp(
                a@,
                b@,
            ),
        decreases n - i,
    {
        proof {
            assert(a@.subrange(i as int, n as int).drop_first() =~= a@.subrange(
                i + 1,
                n as int,
            ));
            assert(b@.subrange(i as int, m as int).drop_first() =~= b@.subrange(
                i + 1,
                m as int,
            ));
        }
        i += 1;
    }
    let ghost x = a@.subrange(i as int, n as int);
    let ghost y = b@.subrange(i as int, m as int);
    if i == n {
        if i == m {
            Ordering::Equal
        } else {
            Ordering::Less
        }
    } else if i == m {
        Ordering::Greater
    } else {
        assert(x[0] == a@[i as int] && y[0] == b@[i as int]);
        if a.get_char(i) < b.get_char(i) {
            Ordering::Less
        } else {
            Ordering::Greater
        }
    }
}

fn component_value_exec(p: &str) -> (r: u64)
    ensures
        r == component_value(p@),
{
    match parse_unsigned_str(p, 0xFFFF_FFFF) {
        Some(v) => v,
        None => 0,
    }
}

fn core_values(s: &str) -> (r: (u64, u64, u64))
    requires
        semver_core(s@),
    ensures
        r.0 == component_value(core_parts(s@).0),
        r.1 == component_value(core_parts(s@).1),
        r.2 == component_value(core_parts(s@).2),
{
    let _n = s.unicode_len();
    let a = digit_end_exec(s, 0);
    let b = digit_end_exec(s, a + 1);
    let c = digit_end_exec(s, b + 1);
    (
        component_value_exec(s.substring_char(0, a)),
        component_value_exec(s.substring_char(a + 1, b)),
        component_value_exec(s.substring_char(b + 1, c)),
    )
}

/// Compares two version tags: numerically on `MAJOR.MINOR.PATCH` where both
/// are semantic versions (a component that is no `u32` counts as 0, and
/// prerelease and build suffixes are ignored), else lexicographically on the
/// tags without their `v`/`V` prefix.
pub fn compare_semver(tag1: &str, tag2: &str) -> (r: Ordering)
    ensures
        r == semver_order(tag1@, tag2@),
{
    let clean1 = extract_version(tag1);
    let clean2 = extract_version(tag2);
    if !is_semver(clean1.as_str()) || !is_semver(clean2.as_str()) {
        return lex_compare(clean1.as_str(), clean2.as_str());
    }
    let core1 = extract_version(clean1.as_str());
    let core2 = extract_version(clean2.as_str());
    let (x0, x1, x2) = core_values(core1.as_str());
    let (y0, y1, y2) = core_values(core2.as_str());
    if x0 != y0 {
        cmp_u64(x0, y0)
    } else if x1 != y1 {
        cmp_u64(x1, y1)
    } else {
        cmp_u64(x2, y2)
    }
}

/// `lex_cmp` is an order: equal only on equal texts, and turned round by
/// swapping its arguments.
pub proof fn lemma_lex_cmp_antisym(a: Seq<char>, b: Seq<char>)
    ensures
        (lex_cmp(a, b) == Ordering::Equal) <==> (a == b),
        (lex_cmp(a, b) == Ordering::Less) <==> (lex_cmp(b, a) == Ordering::Greater),
    decreases a.len(),
{
    if a.len() > 0 && b.len() > 0 && a[0] == b[0] {
        lemma_lex_cmp_antisym(a.drop_first(), b.drop_first());
        if a.drop_first() == b.drop_first() {
            assert(a =~= seq![a[0]] + a.drop_first());
            assert(b =~= seq![b[0]] + b.drop_first());
        }
    } else if a.len() > 0 && b.len() > 0 {
        assert(a[0] != b[0]);
    } else if a.len() == 0 && b.len() == 0 {
        assert(a =~= b);
    }
}

/// `lex_cmp` is transitive on `Less`.
pub proof fn lemma_lex_cmp_trans(a: Seq<char>, b: Seq<char>, c: Seq<char>)
    requires
        lex_cmp(a, b) == Ordering::Less,
        lex_cmp(b, c) == Ordering::Less,
    ensures
        lex_cmp(a, c) == Ordering::Less,
    decreases a.len(),
{
    if a.len() > 0 && b.len() > 0 && c.len() > 0 && a[0] == b[0] && b[0] == c[0] {
        lemma_lex_cmp_trans(a.drop_first(), b.drop_first(), c.drop_first());
    }
}

} // verus!
