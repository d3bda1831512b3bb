//! Choosing the releases to aggregate: prerelease filtering, ordering by
//! publish instant, explicit tag lists and tag ranges.

use vstd::prelude::*;
use crate::order::{lemma_insert_ordered, ordered_by};
use crate::release::{AggregateError, Instant, Release, instant_of, later, publish_instant, rfc3339_utc};

verus! {

/// `a` and `b` are the same instant.
pub open spec fn same_instant(a: Instant, b: Instant) -> bool {
    a.seconds == b.seconds && a.nanos == b.nanos
}

/// Position `a` goes before position `b` when ordering newest first, ties
/// kept in their given order.
pub open spec fn precedes(keys: Seq<Instant>, a: int, b: int) -> bool {
    later(keys[a], keys[b]) || (same_instant(keys[a], keys[b]) && a < b)
}

/// The order of positions of `keys` that puts the newest first and keeps
/// equal instants in their given order.
pub open spec fn is_newest_first_order(keys: Seq<Instant>, order: Seq<usize>) -> bool {
    &&& order.len() == keys.len()
    &&& forall|i: int| 0 <= i < order.len() ==> #[trigger] order[i] < keys.len()
    &&& ordered_by(order, |a: int, b: int| precedes(keys, a, b))
}

fn is_later(a: &Instant, b: &Instant) -> (r: bool)
    ensures
        r == later(*a, *b),
{
    a.seconds > b.seconds || (a.seconds == b.seconds && a.nanos > b.nanos)
}

/// The positions of `keys`, newest first; equal instants keep their order.
pub fn order_by_instant(keys: &Vec<Instant>) -> (r: Vec<usize>)
    ensures
        is_newest_first_order(keys@, r@),
{
    let ghost before = |a: int, b: int| precedes(keys@, a, b);
    let n = keys.len();
    let mut out: Vec<usize> = Vec::new();
    let mut i: usize = 0;
    while i < n
        invariant
            n == keys@.len(),
            before == (|a: int, b: int| precedes(keys@, a, b)),
            i <= n,
            out@.len() == i,
            forall|a: int| 0 <= a < out@.len() ==> #[trigger] out@[a] < i,
            ordered_by(out@, before),
        decreases n - i,
    {
        let mut p: usize = 0;
        while p < out.len() && !is_later(&keys[i], &keys[out[p]])
            invariant
                n == keys@.len(),
                i < n,
                p <= out@.len(),
                forall|a: int| 0 <= a < out@.len() ==> #[trigger] out@[a] < i,
                forall|a: int| 0 <= a < p ==> !later(keys@[i as int], keys@[#[trigger] out@[a] as int]),
            decreases out@.len() - p,
        {
            p += 1;
        }
        proof {
            let s = out@;
            assert forall|b: int| p <= b < s.len() implies before(i as int, #[trigger] s[b] as int) by {
                if b > p {
                    assert(before(s[p as int] as int, s[b] as int));
                }
            }
            assert forall|a: int| 0 <= a < p implies before(#[trigger] s[a] as int, i as int) by {}
            lemma_insert_ordered(s, p as int, i, before);
        }
        out.insert(p, i);
        i += 1;
    }
    out
}

/// The records in the order `order` names them.
pub open spec fn arranged(src: Seq<Release>, order: Seq<usize>) -> Seq<Release> {
    order.map_values(|k: usize| src[k as int])
}

/// `v` holds the records of `src`, newest published first, records published
/// at the same instant in their order in `src`.
pub open spec fn newest_first(v: Seq<Release>, src: Seq<Release>) -> bool {
    exists|keys: Seq<Instant>, order: Seq<usize>|
        #![trigger is_newest_first_order(keys, order), arranged(src, order)]
        keys.len() == src.len() && (forall|i: int| 0 <= i < src.len() ==> instant_of(#[trigger] src[i].published_at@, keys[i]))
            && is_newest_first_order(keys, order) && v == arranged(src, order)
}

/// Every record's publish timestamp reads as an instant.
pub open spec fn all_dated(src: Seq<Release>) -> bool {
    forall|i: int| 0 <= i < src.len() ==> (rfc3339_utc(#[trigger] src[i].published_at@) is Some)
}

/// The first record, in order, whose timestamp does not read.
pub open spec fn first_undated(src: Seq<Release>, i: int) -> bool {
    0 <= i < src.len() && rfc3339_utc(src[i].published_at@) is None && forall|k: int|
        0 <= k < i ==> (rfc3339_utc(#[trigger] src[k].published_at@) is Some)
}

/// Orders records newest published first, keeping the order of records
/// published at the same instant. Fails with the first timestamp that does
/// not read.
pub fn sort_newest_first(src: &[Release]) -> (r: Result<Vec<Release>, AggregateError>)
    ensures
        r is Ok <==> all_dated(src@),
        r matches Ok(v) ==> newest_first(v@, src@),
        r matches Err(e) ==> exists|i: int|
            first_undated(src@, i) && (e matches AggregateError::DateParseFailure(m) && m@
                == src@[i].published_at@),
{
    let n = src.len();
    let mut keys: Vec<Instant> = Vec::new();
    let mut i: usize = 0;
    while i < n
        invariant
            n == src@.len(),
            i <= n,
            keys@.len() == i,
            forall|k: int| 0 <= k < i ==> instant_of(#[trigger] src@[k].published_at@, keys@[k]),
        decreases n - i,
    {
        match publish_instant(src[i].published_at.as_str()) {
            Ok(t) => keys.push(t),
            Err(e) => {
                assert(first_undated(src@, i as int));
                return Err(e);
            },
        }
        i += 1;
    }
    let order = order_by_instant(&keys);
    let mut v: Vec<Release> = Vec::new();
    let mut j: usize = 0;
    while j < n
        invariant
            n == src@.len(),
            order@.len() == n,
            is_newest_first_order(keys@, order@),
            keys@.len() == n,
            j <= n,
            v@ == arranged(src@, order@).take(j as int),
        decreases n - j,
    {
        assert(order@[j as int] < n);
        v.push(src[order[j]].duplicate());
        assert(v@ =~= arranged(src@, order@).take(j + 1));
        j += 1;
    }
    assert(v@ =~= arranged(src@, order@));
    Ok(v)
}

/// The first position at or after `i` of a record tagged `t`.
pub open spec fn tag_pos(rs: Seq<Release>, t: Seq<char>, i: int) -> Option<int>
    decreases rs.len() - i,
{
    if i < 0 || i >= rs.len() {
        None
    } else if rs[i].tag_name@ == t {
        Some(i)
    } else {
        tag_pos(rs, t, i + 1)
    }
}

/// The first position of a record tagged `t`.
pub open spec fn first_tag(rs: Seq<Release>, t: Seq<char>) -> Option<int> {
    tag_pos(rs, t, 0)
}

pub proof fn lemma_tag_pos(rs: Seq<Release>, t: Seq<char>, i: int)
    requires
        0 <= i,
    ensures
        tag_pos(rs, t, i) matches Some(k) ==> i <= k < rs.len() && rs[k].tag_name@ == t,
    decreases rs.len() - i,
{
    if i < rs.len() && rs[i].tag_name@ != t {
        lemma_tag_pos(rs, t, i + 1);
    }
}

/// The position of the first record tagged `t`.
pub fn find_tag(rs: &[Release], t: &str) -> (r: Option<usize>)
    ensures
        match r {
            Some(k) => first_tag(rs@, t@) == Some(k as int),
            None => first_tag(rs@, t@) is None,
        },
        r matches Some(k) ==> k < rs@.len() && rs@[k as int].tag_name@ == t@,
{
    let target = t.to_owned();
    let mut i: usize = 0;
    while i < rs.len()
        invariant
            i <= rs@.len(),
            target@ == t@,
            tag_pos(rs@, t@, i as int) == first_tag(rs@, t@),
        decreases rs@.len() - i,
    {
        if rs[i].tag_name == target {
            return Some(i);
        }
        i += 1;
    }
    None
}

/// The view of an optional tag.
pub open spec fn opt_view(o: Option<&str>) -> Option<Seq<char>> {
    match o {
        Some(s) => Some(s@),
        None => None,
    }
}

/// The records between two tags, both included, in their given order; with
/// one tag only, from it to the end (a start tag) or from the beginning to it
/// (an end tag); with none, all. `Err` holds a tag that is not present, the
/// start tag first.
pub open spec fn range_selection(rs: Seq<Release>, start: Option<Seq<char>>, end: Option<Seq<char>>)
    -> Result<Seq<Release>, Seq<char>> {
    match (start, end) {
        (Some(s), Some(e)) => match first_tag(rs, s) {
            None => Err(s),
            Some(a) => match first_tag(rs, e) {
                None => Err(e),
                Some(b) => if a <= b {
                    Ok(rs.subrange(a, b + 1))
                } else {
                    Ok(rs.subrange(b, a + 1))
                },
            },
        },
        (Some(s), None) => match first_tag(rs, s) {
            None => Err(s),
            Some(a) => Ok(rs.subrange(a, rs.len() as int)),
        },
        (None, Some(e)) => match first_tag(rs, e) {
            None => Err(e),
            Some(b) => Ok(rs.subrange(0, b + 1)),
        },
        (None, None) => Ok(rs),
    }
}

fn copy_range(rs: &[Release], lo: usize, hi: usize) -> (r: Vec<Release>)
    requires
        lo <= hi <= rs@.len(),
    ensures
        r@ == rs@.subrange(lo as int, hi as int),
{
    let mut v: Vec<Release> = Vec::new();
    let mut i: usize = lo;
    while i < hi
        invariant
            lo <= i <= hi,
            hi <= rs@.len(),
            v@ == rs@.subrange(lo as int, i as int),
        decreases hi - i,
    {
        v.push(rs[i].duplicate());
        assert(v@ =~= rs@.subrange(lo as int, i + 1));
        i += 1;
    }
    v
}

/// The results of a range selection, as `range_selection` states them.
pub open spec fn range_result(rs: Seq<Release>, start: Option<&str>, end: Option<&str>, r: Result<
    Vec<Release>,
    AggregateError,
>) -> bool {
    match range_selection(rs, opt_view(start), opt_view(end)) {
        Ok(s) => r matches Ok(v) && v@ == s,
        Err(t) => r matches Err(e) && (e matches AggregateError::TagNotFound(m) && m@ == t),
    }
}

/// The releases between two tags of the (newest first) list, both included;
/// see `range_selection`.
pub fn filter_releases_by_range(releases: &[Release], start_tag: Option<&str>, end_tag: Option<
    &str,
>) -> (r: Result<Vec<Release>, AggregateError>)
    ensures
        range_result(releases@, start_tag, end_tag, r),
{
    let n = releases.len();
    match (start_tag, end_tag) {
        (Some(s), Some(e)) => {
            let a = match find_tag(releases, s) {
                Some(a) => a,
                None => return Err(AggregateError::TagNotFound(s.to_owned())),
            };
            let b = match find_tag(releases, e) {
                Some(b) => b,
                None => return Err(AggregateError::TagNotFound(e.to_owned())),
            };
            if a <= b {
                Ok(copy_range(releases, a, b + 1))
            } else {
                Ok(copy_range(releases, b, a + 1))
            }
        },
        (Some(s), None) => match find_tag(releases, s) {
            Some(a) => Ok(copy_range(releases, a, n)),
            None => Err(AggregateError::TagNotFound(s.to_owned())),
        },
        (None, Some(e)) => match find_tag(releases, e) {
            Some(b) => Ok(copy_range(releases, 0, b + 1)),
            None => Err(AggregateError::TagNotFound(e.to_owned())),
        },
        (None, None) => {
            let v = copy_range(releases, 0, n);
            assert(v@ =~= releases@);
            Ok(v)
        },
    }
}

/// The records that `tags` name, each the first record with its tag, in
/// the order of `tags`; tags with no record are passed over.
pub open spec fn resolved(rs: Seq<Release>, tags: Seq<Seq<char>>) -> Seq<Release>
    decreases tags.len(),
{
    if tags.len() == 0 {
        seq![]
    } else {
        resolved(rs, tags.drop_last()) + match first_tag(rs, tags.last()) {
            Some(k) => seq![rs[k]],
            None => seq![],
        }
    }
}

/// The tags with no record, in order, repeats kept.
pub open spec fn missing(rs: Seq<Release>, tags: Seq<Seq<char>>) -> Seq<Seq<char>>
    decreases tags.len(),
{
    if tags.len() == 0 {
        seq![]
    } else {
        missing(rs, tags.drop_last()) + if first_tag(rs, tags.last()) is None {
            seq![tags.last()]
        } else {
            seq![]
        }
    }
}

/// The views of a list of tags.
pub open spec fn tag_views(tags: Seq<&str>) -> Seq<Seq<char>> {
    tags.map_values(|t: &str| t@)
}

/// The releases that `tags` name, newest published first. Fails with every
/// tag that names no release, or else with the first timestamp of a named
/// release that does not read.
pub fn filter_releases_by_tags(releases: &[Release], tags: &[&str]) -> (r: Result<
    Vec<Release>,
    AggregateError,
>)
    ensures
        missing(releases@, tag_views(tags@)).len() > 0 ==> (r matches Err(e) && (e matches AggregateError::MultipleTagsNotFound(
            ms,
        ) && ms.deep_view() == missing(releases@, tag_views(tags@)))),
        missing(releases@, tag_views(tags@)).len() == 0 ==> (r is Ok <==> all_dated(
            resolved(releases@, tag_views(tags@)),
        )),
        r matches Ok(v) ==> newest_first(v@, resolved(releases@, tag_views(tags@))),
        missing(releases@, tag_views(tags@)).len() == 0 ==> (r matches Err(e) ==> exists|i: int|
            first_undated(resolved(releases@, tag_views(tags@)), i) && (e matches AggregateError::DateParseFailure(m)
                && m@ == resolved(releases@, tag_views(tags@))[i].published_at@)),
{
    let ghost tv = tag_views(tags@);
    let mut found: Vec<Release> = Vec::new();
    let mut absent: Vec<String> = Vec::new();
    let mut i: usize = 0;
    while i < tags.len()
        invariant
            i <= tags@.len(),
            tv == tag_views(tags@),
            found@ == resolved(releases@, tv.take(i as int)),
            absent.deep_view() == missing(releases@, tv.take(i as int)),
        decreases tags@.len() - i,
    {
        let t = tags[i];
        assert(tv.take(i + 1).drop_last() =~= tv.take(i as int));
        assert(tv.take(i + 1).last() == t@);
        match find_tag(releases, t) {
            Some(k) => {
                found.push(releases[k].duplicate());
                assert(absent.deep_view() =~= missing(releases@, tv.take(i + 1)));
            },
            None => {
                let ghost before = absent.deep_view();
                absent.push(t.to_owned());
                assert(absent.deep_view() =~= before.push(t@));
                assert(absent.deep_view() =~= missing(releases@, tv.take(i + 1)));
            },
        }
        assert(found@ =~= resolved(releases@, tv.take(i + 1)));
        i += 1;
    }
    assert(tv.take(tags@.len() as int) =~= tv);
    if absent.len() > 0 {
        return Err(AggregateError::MultipleTagsNotFound(absent));
    }
    sort_newest_first(&found)
}

/// Drops prerelease records unless they are wanted; the order is kept.
pub fn filter_prereleases(releases: &[Release], include_prereleases: bool) -> (r: Vec<Release>)
    ensures
        include_prereleases ==> r@ == releases@,
        !include_prereleases ==> r@ == releases@.filter(|x: Release| !x.prerelease),
{
    let mut v: Vec<Release> = Vec::new();
    let mut i: usize = 0;
    while i < releases.len()
        invariant
            i <= releases@.len(),
            include_prereleases ==> v@ == releases@.take(i as int),
            !include_prereleases ==> v@ == releases@.take(i as int).filter(|x: Release| !x.prerelease),
        decreases releases@.len() - i,
    {
        proof {
            reveal(Seq::filter);
            assert(releases@.take(i + 1).drop_last() =~= releases@.take(i as int));
        }
        if include_prereleases || !releases[i].prerelease {
            v.push(releases[i].duplicate());
        }
        assert(include_prereleases ==> v@ =~= releases@.take(i + 1));
        i += 1;
    }
    assert(releases@.take(releases@.len() as int) =~= releases@);
    v
}

/// What the release list needs before selection: prereleases dropped unless
/// wanted, then newest published first, equal instants in their given order.
pub fn prepare_releases(releases: &[Release], include_prereleases: bool) -> (r: Result<
    Vec<Release>,
    AggregateError,
>)
    ensures
        r is Ok <==> all_dated(kept_releases(releases@, include_prereleases)),
        r matches Ok(v) ==> newest_first(v@, kept_releases(releases@, include_prereleases)),
        r matches Err(e) ==> exists|i: int|
            first_undated(kept_releases(releases@, include_prereleases), i) && (e matches AggregateError::DateParseFailure(
                m,
            ) && m@ == kept_releases(releases@, include_prereleases)[i].published_at@),
{
    let kept = filter_prereleases(releases, include_prereleases);
    let ghost kv = if include_prereleases {
        releases@
    } else {
        releases@.filter(|x: Release| !x.prerelease)
    };
    assert(kept@ == kv);
    let r = sort_newest_first(kept.as_slice());
    proof {
        if r is Err {
            let e = r->Err_0;
            let i = choose|i: int|
                first_undated(kv, i) && (e matches AggregateError::DateParseFailure(m) && m@
                    == kv[i].published_at@);
        }
    }
    r
}

/// Which releases to aggregate.
pub enum Selection {
    /// Every release.
    AllVersions,
    /// The releases that these tags name.
    ExplicitTags(Vec<String>),
    /// The releases between a start and an end tag, either of them optional.
    Range(Option<String>, Option<String>),
}

/// The view of an optional owned tag.
pub open spec fn opt_string_view(o: Option<String>) -> Option<Seq<char>> {
    match o {
        Some(s) => Some(s@),
        None => None,
    }
}

/// The releases left after prerelease filtering.
pub open spec fn kept_releases(rs: Seq<Release>, include_prereleases: bool) -> Seq<Release> {
    if include_prereleases {
        rs
    } else {
        rs.filter(|x: Release| !x.prerelease)
    }
}

/// Drops prereleases unless they are wanted, then applies the selection to
/// what is left (given newest first).
pub fn select_releases(all: &[Release], selection: &Selection, include_prereleases: bool) -> (r:
    Result<Vec<Release>, AggregateError>)
    ensures
        ({
            let kept = kept_releases(all@, include_prereleases);
            match selection {
                Selection::AllVersions => r matches Ok(v) && v@ == kept,
                Selection::Range(s, e) => match range_selection(kept, opt_string_view(*s), opt_string_view(*e)) {
                    Ok(x) => r matches Ok(v) && v@ == x,
                    Err(t) => r matches Err(err) && (err matches AggregateError::TagNotFound(m) && m@ == t),
                },
                Selection::ExplicitTags(tags) => {
                    let tv = tags.deep_view();
                    &&& missing(kept, tv).len() > 0 ==> (r matches Err(e) && (e matches AggregateError::MultipleTagsNotFound(
                        ms,
                    ) && ms.deep_view() == missing(kept, tv)))
                    &&& missing(kept, tv).len() == 0 ==> (r is Ok <==> all_dated(resolved(kept, tv)))
                    &&& r matches Ok(v) ==> newest_first(v@, resolved(kept, tv))
                },
            }
        }),
{
    let kept = filter_prereleases(all, include_prereleases);
    match selection {
        Selection::AllVersions => Ok(kept),
        Selection::Range(s, e) => {
            let start = match s {
                Some(x) => Some(x.as_str()),
                None => None,
            };
            let end = match e {
                Some(x) => Some(x.as_str()),
                None => None,
            };
            filter_releases_by_range(&kept, start, end)
        },
        Selection::ExplicitTags(tags) => {
            let mut strs: Vec<&str> = Vec::new();
            let mut i: usize = 0;
            while i < tags.len()
                invariant
                    i <= tags@.len(),
                    strs@.len() == i,
                    forall|k: int| 0 <= k < i ==> (#[trigger] strs@[k])@ == tags@[k]@,
                decreases tags@.len() - i,
            {
                strs.push(tags[i].as_str());
                i += 1;
            }
            assert(tag_views(strs@) =~= tags.deep_view());
            filter_releases_by_tags(&kept, strs.as_slice())
        },
    }
}

} // verus!
