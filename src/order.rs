//! Orders of positions built by insertion.

use vstd::prelude::*;

verus! {

/// Each position of `s` comes `before` every later one.
pub open spec fn ordered_by(s: Seq<usize>, before: spec_fn(int, int) -> bool) -> bool {
    forall|a: int, b: int| 0 <= a < b < s.len() ==> before(#[trigger] s[a] as int, #[trigger] s[b] as int)
}

/// Inserting `x` where everything before it comes `before` it, and it comes
/// `before` everything after, keeps the order; and where all positions were
/// below `x`, all stay below `x + 1`.
pub proof fn lemma_insert_ordered(s: Seq<usize>, p: int, x: usize, before: spec_fn(int, int) -> bool)
    requires
        0 <= p <= s.len(),
        ordered_by(s, before),
        forall|a: int| 0 <= a < p ==> before(#[trigger] s[a] as int, x as int),
        forall|b: int| p <= b < s.len() ==> before(x as int, #[trigger] s[b] as int),
        forall|a: int| 0 <= a < s.len() ==> #[trigger] s[a] < x,
    ensures
        ordered_by(s.insert(p, x), before),
        forall|a: int| 0 <= a < s.len() + 1 ==> #[trigger] s.insert(p, x)[a] <= x,
{
    let v = s.insert(p, x);
    assert forall|a: int, b: int| 0 <= a < b < v.len() implies before(#[trigger] v[a] as int, #[trigger] v[b] as int) by {
        if a < p && b < p {
            assert(v[a] == s[a] && v[b] == s[b]);
        } else if a < p && b == p {
            assert(v[a] == s[a]);
        } else if a < p {
            assert(v[a] == s[a] && v[b] == s[b - 1]);
        } else if a == p {
            assert(v[b] == s[b - 1]);
        } else {
            assert(v[a] == s[a - 1] && v[b] == s[b - 1]);
        }
    }
    assert forall|a: int| 0 <= a < s.len() + 1 implies #[trigger] v[a] <= x by {
        if a < p {
            assert(v[a] == s[a]);
        } else if a > p {
            assert(v[a] == s[a - 1]);
        }
    }
}

} // verus!
