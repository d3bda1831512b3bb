//! Character-level text helpers: whitespace, trimming and line splitting.

use vstd::prelude::*;

verus! {

/// The code points of Unicode's `White_Space` property.
pub open spec fn is_ws(c: char) -> bool {
    let u = c as u32;
    (0x9 <= u <= 0xD) || u == 0x20 || u == 0x85 || u == 0xA0 || u == 0x1680 || (0x2000 <= u
        <= 0x200A) || u == 0x2028 || u == 0x2029 || u == 0x202F || u == 0x205F || u == 0x3000
}

/// The text with leading whitespace removed.
pub open spec fn trim_front(s: Seq<char>) -> Seq<char>
    decreases s.len(),
{
    if s.len() > 0 && is_ws(s[0]) {
        trim_front(s.drop_first())
    } else {
        s
    }
}

/// The text with trailing whitespace removed.
pub open spec fn trim_back(s: Seq<char>) -> Seq<char>
    decreases s.len(),
{
    if s.len() > 0 && is_ws(s.last()) {
        trim_back(s.drop_last())
    } else {
        s
    }
}

/// The text with whitespace removed at both ends.
pub open spec fn trim(s: Seq<char>) -> Seq<char> {
    trim_back(trim_front(s))
}

/// Every character is whitespace (an empty text included).
pub open spec fn is_blank(s: Seq<char>) -> bool {
    forall|i: int| 0 <= i < s.len() ==> is_ws(#[trigger] s[i])
}

/// Drops one carriage return at the end, if there is one.
pub open spec fn strip_cr(s: Seq<char>) -> Seq<char> {
    if s.len() > 0 && s.last() == '\r' {
        s.drop_last()
    } else {
        s
    }
}

/// The lines of `s` from position `i`, where the current line began at `start`.
pub open spec fn lines_acc(s: Seq<char>, i: nat, start: nat) -> Seq<Seq<char>>
    decreases s.len() - i,
{
    if i >= s.len() {
        if start < s.len() {
            seq![s.subrange(start as int, s.len() as int)]
        } else {
            seq![]
        }
    } else if s[i as int] == '\n' {
        seq![strip_cr(s.subrange(start as int, i as int))] + lines_acc(s, i + 1, i + 1)
    } else {
        lines_acc(s, i + 1, start)
    }
}

/// The lines of a text: split at each `\n`, a `\r` before it dropped, and no
/// empty line after a final `\n`.
pub open spec fn lines_of(s: Seq<char>) -> Seq<Seq<char>> {
    lines_acc(s, 0, 0)
}

/// Whether `c` is whitespace.
pub fn is_ws_char(c: char) -> (r: bool)
    ensures
        r == is_ws(c),
{
    let u = c as u32;
    (0x9 <= u && u <= 0xD) || u == 0x20 || u == 0x85 || u == 0xA0 || u == 0x1680 || (0x2000 <= u
        && u <= 0x200A) || u == 0x2028 || u == 0x2029 || u == 0x202F || u == 0x205F || u == 0x3000
}

/// Whether every character of `s` is whitespace.
pub fn is_blank_str(s: &str) -> (r: bool)
    ensures
        r == is_blank(s@),
{
    let n = s.unicode_len();
    let mut i: usize = 0;
    while i < n
        invariant
            n == s@.len(),
            i <= n,
            forall|k: int| 0 <= k < i ==> is_ws(#[trigger] s@[k]),
        decreases n - i,
    {
        if !is_ws_char(s.get_char(i)) {
            return false;
        }
        i += 1;
    }
    true
}

proof fn lemma_trim_front_step(s: Seq<char>, a: int)
    requires
        0 <= a < s.len(),
        is_ws(s[a]),
    ensures
        trim_front(s.subrange(a, s.len() as int)) == trim_front(s.subrange(a + 1, s.len() as int)),
{
    assert(s.subrange(a, s.len() as int).drop_first() =~= s.subrange(a + 1, s.len() as int));
}

proof fn lemma_trim_back_step(t: Seq<char>, b: int)
    requires
        0 < b <= t.len(),
        is_ws(t[b - 1]),
    ensures
        trim_back(t.subrange(0, b)) == trim_back(t.subrange(0, b - 1)),
{
    assert(t.subrange(0, b).drop_last() =~= t.subrange(0, b - 1));
}

/// The bounds of `s` with whitespace removed at both ends.
pub fn trim_bounds(s: &str) -> (r: (usize, usize))
    ensures
        r.0 <= r.1 <= s@.len(),
        s@.subrange(r.0 as int, r.1 as int) == trim(s@),
{
    let n = s.unicode_len();
    let mut a: usize = 0;
    proof {
        assert(s@.subrange(0, n as int) =~= s@);
    }
    while a < n && is_ws_char(s.get_char(a))
        invariant
            n == s@.len(),
            a <= n,
            trim_front(s@.subrange(a as int, n as int)) == trim_front(s@),
        decreases n - a,
    {
        proof {
            lemma_trim_front_step(s@, a as int);
        }
        a += 1;
    }
    let ghost t = s@.subrange(a as int, n as int);
    assert(trim_front(t) == t);
    let mut b: usize = n;
    assert(t.subrange(0, (b - a) as int) =~= t);
    while b > a && is_ws_char(s.get_char(b - 1))
        invariant
            n == s@.len(),
            a <= b <= n,
            t == s@.subrange(a as int, n as int),
            trim_back(t.subrange(0, (b - a) as int)) == trim_back(t),
        decreases b,
    {
        proof {
            lemma_trim_back_step(t, (b - a) as int);
        }
        b -= 1;
    }
    assert(t.subrange(0, (b - a) as int) =~= s@.subrange(a as int, b as int));
    (a, b)
}

/// `s` with whitespace removed at both ends.
pub fn trim_str(s: &str) -> (r: String)
    ensures
        r@ == trim(s@),
{
    let (a, b) = trim_bounds(s);
    s.substring_char(a, b).to_owned()
}

/// The lines of `s`, as `lines_of` gives them.
pub fn split_lines(s: &str) -> (r: Vec<String>)
    ensures
        r.deep_view() == lines_of(s@),
{
    let n = s.unicode_len();
    let mut out: Vec<String> = Vec::new();
    let mut i: usize = 0;
    let mut start: usize = 0;
    while i < n
        invariant
            n == s@.len(),
            start <= i <= n,
            out.deep_view() + lines_acc(s@, i as nat, start as nat) == lines_of(s@),
        decreases n - i,
    {
        if s.get_char(i) == '\n' {
            let mut end = i;
            if end > start && s.get_char(end - 1) == '\r' {
                end -= 1;
            }
            let line = s.substring_char(start, end).to_owned();
            proof {
                let piece = s@.subrange(start as int, i as int);
                assert(strip_cr(piece) =~= line@);
                assert(lines_acc(s@, i as nat, start as nat) == seq![line@] + lines_acc(
                    s@,
                    (i + 1) as nat,
                    (i + 1) as nat,
                ));
            }
            let ghost before = out.deep_view();
            out.push(line);
            proof {
                assert(out.deep_view() =~= before.push(line@));
                assert(before + (seq![line@] + lines_acc(s@, (i + 1) as nat, (i + 1) as nat))
                    =~= before.push(line@) + lines_acc(s@, (i + 1) as nat, (i + 1) as nat));
            }
            start = i + 1;
        }
        i += 1;
    }
    if start < n {
        let line = s.substring_char(start, n).to_owned();
        let ghost before = out.deep_view();
        out.push(line);
        proof {
            assert(out.deep_view() =~= before + lines_acc(s@, n as nat, start as nat));
        }
    } else {
        assert(out.deep_view() =~= out.deep_view() + lines_acc(s@, n as nat, start as nat));
    }
    out
}

pub proof fn lemma_lines_shift(a: Seq<char>, b: Seq<char>, j: nat, st: nat)
    requires
        st <= j <= b.len(),
    ensures
        lines_acc(a + b, a.len() + j, a.len() + st) == lines_acc(b, j, st),
    decreases b.len() - j,
{
    let c = a + b;
    if j < b.len() {
        assert(c[(a.len() + j) as int] == b[j as int]);
        if b[j as int] == '\n' {
            lemma_lines_shift(a, b, j + 1, j + 1);
            assert(c.subrange((a.len() + st) as int, (a.len() + j) as int) =~= b.subrange(st as int, j as int));
        } else {
            lemma_lines_shift(a, b, j + 1, st);
        }
    } else {
        assert(c.subrange((a.len() + st) as int, c.len() as int) =~= b.subrange(st as int, b.len() as int));
    }
}

pub proof fn lemma_lines_concat_acc(a: Seq<char>, b: Seq<char>, i: nat, st: nat)
    requires
        a.len() > 0,
        a.last() == '\n',
        st <= i <= a.len(),
        i < a.len() || st == a.len(),
    ensures
        lines_acc(a + b, i, st) == lines_acc(a, i, st) + lines_of(b),
    decreases a.len() - i,
{
    let c = a + b;
    if i < a.len() {
        assert(c[i as int] == a[i as int]);
        if a[i as int] == '\n' {
            lemma_lines_concat_acc(a, b, i + 1, i + 1);
            assert(c.subrange(st as int, i as int) =~= a.subrange(st as int, i as int));
            assert(lines_acc(c, i, st) == seq![strip_cr(a.subrange(st as int, i as int))] + lines_acc(c, i + 1, i + 1));
            assert(lines_acc(a, i, st) == seq![strip_cr(a.subrange(st as int, i as int))] + lines_acc(a, i + 1, i + 1));
            assert(seq![strip_cr(a.subrange(st as int, i as int))] + (lines_acc(a, i + 1, i + 1) + lines_of(b))
                =~= (seq![strip_cr(a.subrange(st as int, i as int))] + lines_acc(a, i + 1, i + 1)) + lines_of(b));
        } else {
            assert(i + 1 < a.len());
            lemma_lines_concat_acc(a, b, i + 1, st);
        }
    } else {
        lemma_lines_shift(a, b, 0, 0);
        assert(lines_acc(a, i, st) =~= Seq::<Seq<char>>::empty());
        assert(Seq::<Seq<char>>::empty() + lines_of(b) =~= lines_of(b));
    }
}

/// Splitting a text whose first part ends with a line break splits each part.
pub proof fn lemma_lines_concat(a: Seq<char>, b: Seq<char>)
    requires
        a.len() > 0,
        a.last() == '\n',
    ensures
        lines_of(a + b) == lines_of(a) + lines_of(b),
{
    lemma_lines_concat_acc(a, b, 0, 0);
}

/// A text without line breaks, not ending in a carriage return.
pub open spec fn plain_line(l: Seq<char>) -> bool {
    (forall|i: int| 0 <= i < l.len() ==> #[trigger] l[i] != '\n') && (l.len() == 0 || l.last() != '\r')
}

pub proof fn lemma_one_line_acc(l: Seq<char>, i: nat)
    requires
        plain_line(l),
        i <= l.len(),
    ensures
        lines_acc(l.push('\n'), i, 0) == seq![l],
    decreases l.len() - i,
{
    let c = l.push('\n');
    if i < l.len() {
        assert(c[i as int] == l[i as int]);
        lemma_one_line_acc(l, i + 1);
    } else {
        assert(c.subrange(0, i as int) =~= l);
        assert(lines_acc(c, i + 1, i + 1) =~= Seq::<Seq<char>>::empty());
        assert(seq![strip_cr(l)] + Seq::<Seq<char>>::empty() =~= seq![l]);
    }
}

/// A plain line followed by a line break splits into that line.
pub proof fn lemma_one_line(l: Seq<char>)
    requires
        plain_line(l),
    ensures
        lines_of(l.push('\n')) == seq![l],
{
    lemma_one_line_acc(l, 0);
}

} // verus!
