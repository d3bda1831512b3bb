//! Merging the sections of several releases: by version, keeping every line,
//! or by heading, one entry per distinct line.

use vstd::prelude::*;
use crate::index::{SectionIndex, views};
use crate::release::{AggregateError, Date, Release, publish_instant, rfc3339_utc};
use crate::sections::{parse_release_notes, section_lines};
use crate::text::{trim, trim_str};
use crate::version::{lex_cmp, lex_compare, lemma_lex_cmp_antisym, lemma_lex_cmp_trans};
use std::cmp::Ordering;

verus! {

/// One line of a section, with the version it came from and that version's date.
#[derive(Clone, Debug)]
pub struct ReleaseNoteItem {
    pub content: String,
    pub version: String,
    pub date: Date,
}

impl View for ReleaseNoteItem {
    type V = (Seq<char>, Seq<char>, Date);

    open spec fn view(&self) -> (Seq<char>, Seq<char>, Date) {
        (self.content@, self.version@, self.date)
    }
}

/// The UTC publish date of a release.
pub open spec fn release_date(r: Release) -> Date {
    let t = rfc3339_utc(r.published_at@)->0;
    Date { year: t.2 as i32, month: t.3 as u32, day: t.4 as u32 }
}

/// The items that one release gives section `n`.
pub open spec fn record_items(r: Release, n: Seq<char>) -> Seq<(Seq<char>, Seq<char>, Date)> {
    match r.body {
        Some(b) => section_lines(b@, n).map_values(
            |l: Seq<char>| (l, r.tag_name@, release_date(r)),
        ),
        None => seq![],
    }
}

/// The items of section `n` over all releases, in release order and then
/// line order.
pub open spec fn version_items(rs: Seq<Release>, n: Seq<char>) -> Seq<(Seq<char>, Seq<char>, Date)>
    decreases rs.len(),
{
    if rs.len() == 0 {
        seq![]
    } else {
        version_items(rs.drop_last(), n) + record_items(rs.last(), n)
    }
}

/// Every release with a body has a timestamp that reads.
pub open spec fn bodies_dated(rs: Seq<Release>) -> bool {
    forall|i: int|
        0 <= i < rs.len() && (#[trigger] rs[i]).body is Some ==> rfc3339_utc(rs[i].published_at@) is Some
}

/// Release `i` is the first with a body whose timestamp does not read.
pub open spec fn first_undated_body(rs: Seq<Release>, i: int) -> bool {
    &&& 0 <= i < rs.len()
    &&& rs[i].body is Some
    &&& rfc3339_utc(rs[i].published_at@) is None
    &&& forall|k: int|
        0 <= k < i && (#[trigger] rs[k]).body is Some ==> rfc3339_utc(rs[k].published_at@) is Some
}

/// What a section gives so far: the first `j` sections of `parsed` have
/// added their items from release `r`.
pub open spec fn partly_added(
    rs: Seq<Release>,
    r: Release,
    parsed: SectionIndex<String>,
    j: int,
    n: Seq<char>,
) -> Seq<(Seq<char>, Seq<char>, Date)> {
    version_items(rs, n) + if exists|q: int| 0 <= q < j && #[trigger] parsed.names@[q]@ == n {
        record_items(r, n)
    } else {
        seq![]
    }
}

/// Merges the sections of the releases, keeping every line as an item with
/// its version and date; no line is merged with another. Fails with the first
/// timestamp, of a release with a body, that does not read.
pub fn merge_release_notes(releases: &[Release]) -> (r: Result<
    SectionIndex<ReleaseNoteItem>,
    AggregateError,
>)
    ensures
        r is Ok <==> bodies_dated(releases@),
        r matches Ok(idx) ==> idx.describes(|n: Seq<char>| version_items(releases@, n)),
        r matches Err(e) ==> exists|i: int|
            first_undated_body(releases@, i) && (e matches AggregateError::DateParseFailure(m) && m@
                == releases@[i].published_at@),
{
    let ghost rs = releases@;
    let mut acc: SectionIndex<ReleaseNoteItem> = SectionIndex::new();
    let mut k: usize = 0;
    assert(acc.describes(|n: Seq<char>| version_items(rs.take(0), n)));
    while k < releases.len()
        invariant
            rs == releases@,
            k <= rs.len(),
            acc.describes(|n: Seq<char>| version_items(rs.take(k as int), n)),
            bodies_dated(rs.take(k as int)),
        decreases rs.len() - k,
    {
        let rel = &releases[k];
        assert(rs.take(k + 1).drop_last() =~= rs.take(k as int));
        assert(rs.take(k + 1).last() == *rel);
        match &rel.body {
            Some(body) => {
                let t = match publish_instant(rel.published_at.as_str()) {
                    Ok(t) => t,
                    Err(e) => {
                        assert(!bodies_dated(rs));
                        assert forall|i: int|
                            0 <= i < k && (#[trigger] rs[i]).body is Some implies rfc3339_utc(
                            rs[i].published_at@,
                        ) is Some by {
                            assert(rs.take(k as int)[i] == rs[i]);
                        }
                        assert(first_undated_body(rs, k as int));
                        return Err(e);
                    },
                };
                assert(release_date(*rel) == t.date);
                let parsed = parse_release_notes(body.as_str());
                let mut j: usize = 0;
                proof {
                    assert forall|n: Seq<char>|
                        #[trigger] version_items(rs.take(k as int), n) == partly_added(rs.take(k as int), *rel, parsed, 0, n) by {
                        assert(version_items(rs.take(k as int), n) + Seq::<(Seq<char>, Seq<char>, Date)>::empty() =~= version_items(rs.take(k as int), n));
                    }
                    acc.lemma_same_describes(
                        |n: Seq<char>| version_items(rs.take(k as int), n),
                        |n: Seq<char>| partly_added(rs.take(k as int), *rel, parsed, 0, n),
                    );
                }
                while j < parsed.names.len()
                    invariant
                        rs == releases@,
                        k < rs.len(),
                        *rel == rs[k as int],
                        rel.body == Some(*body),
                        release_date(*rel) == t.date,
                        parsed.describes(|n: Seq<char>| section_lines(body@, n)),
                        j <= parsed.names@.len(),
                        acc.describes(
                            |n: Seq<char>| partly_added(rs.take(k as int), *rel, parsed, j as int, n),
                        ),
                    decreases parsed.names@.len() - j,
                {
                    let lines = &parsed.lists[j];
                    let ghost nm = parsed.names@[j as int]@;
                    assert(views(lines@) == section_lines(body@, nm));
                    let mut items: Vec<ReleaseNoteItem> = Vec::new();
                    let mut i: usize = 0;
                    while i < lines.len()
                        invariant
                            i <= lines@.len(),
                            *rel == rs[k as int],
                            rel.body == Some(*body),
                            release_date(*rel) == t.date,
                            views(lines@) == section_lines(body@, nm),
                            views(items@) == record_items(*rel, nm).take(i as int),
                        decreases lines@.len() - i,
                    {
                        let item = ReleaseNoteItem {
                            content: lines[i].clone(),
                            version: rel.tag_name.clone(),
                            date: t.date,
                        };
                        assert(item@ == (lines@[i as int]@, rel.tag_name@, t.date));
                        let ghost before = items@;
                        items.push(item);
                        assert(items@ == before.push(item));
                        assert(record_items(*rel, nm).len() == lines@.len());
                        assert(views(items@) =~= views(before).push(item@));
                        assert(record_items(*rel, nm).take(i + 1) =~= record_items(*rel, nm).take(i as int).push(item@));
                        assert(section_lines(body@, nm)[i as int] == lines@[i as int]@);
                        assert(record_items(*rel, nm)[i as int] == (lines@[i as int]@, rel.tag_name@, t.date));
                        assert(views(items@) =~= record_items(*rel, nm).take(i + 1));
                        i += 1;
                    }
                    assert(views(items@) =~= record_items(*rel, nm));
                    proof {
                        assert forall|n: Seq<char>|
                            #[trigger] partly_added(rs.take(k as int), *rel, parsed, j + 1, n) == if n
                                == nm {
                                partly_added(rs.take(k as int), *rel, parsed, j as int, n) + views(items@)
                            } else {
                                partly_added(rs.take(k as int), *rel, parsed, j as int, n)
                            } by {
                            if n == nm {
                                assert(!exists|q: int| 0 <= q < j && #[trigger] parsed.names@[q]@ == n);
                                assert(parsed.names@[j as int]@ == n);
                            } else {
                                if exists|q: int| 0 <= q < j + 1 && #[trigger] parsed.names@[q]@ == n {
                                    let q = choose|q: int| 0 <= q < j + 1 && #[trigger] parsed.names@[q]@ == n;
                                    assert(q < j);
                                }
                            }
                        }
                    }
                    acc.add_items(
                        parsed.names[j].clone(),
                        items,
                        Ghost(|n: Seq<char>| partly_added(rs.take(k as int), *rel, parsed, j as int, n)),
                        Ghost(|n: Seq<char>| partly_added(rs.take(k as int), *rel, parsed, j + 1, n)),
                    );
                    j += 1;
                }
                proof {
                    assert forall|n: Seq<char>|
                        #[trigger] partly_added(rs.take(k as int), *rel, parsed, j as int, n)
                            == version_items(rs.take(k + 1), n) by {
                        if !exists|q: int| 0 <= q < j && #[trigger] parsed.names@[q]@ == n {
                            if section_lines(body@, n).len() > 0 {
                                parsed.lemma_has(|n: Seq<char>| section_lines(body@, n), n);
                                let q = choose|q: int| 0 <= q < parsed.names@.len() && #[trigger] parsed.names@[q]@ == n;
                                assert(q < j);
                            }
                            assert(record_items(*rel, n) =~= Seq::<(Seq<char>, Seq<char>, Date)>::empty());
                        }
                    }
                    acc.lemma_same_describes(
                        |n: Seq<char>| partly_added(rs.take(k as int), *rel, parsed, j as int, n),
                        |n: Seq<char>| version_items(rs.take(k + 1), n),
                    );
                }
            },
            None => {
                proof {
                    assert forall|n: Seq<char>|
                        #[trigger] version_items(rs.take(k + 1), n) == version_items(rs.take(k as int), n) by {
                        assert(record_items(*rel, n) =~= Seq::<(Seq<char>, Seq<char>, Date)>::empty());
                    }
                    acc.lemma_same_describes(
                        |n: Seq<char>| version_items(rs.take(k as int), n),
                        |n: Seq<char>| version_items(rs.take(k + 1), n),
                    );
                }
            },
        }
        k += 1;
    }
    assert(rs.take(rs.len() as int) =~= rs);
    Ok(acc)
}

/// One trimmed line of a section and the version it came from.
#[derive(Clone, Debug)]
pub struct Contribution {
    pub content: String,
    pub version: String,
}

impl View for Contribution {
    type V = (Seq<char>, Seq<char>);

    open spec fn view(&self) -> (Seq<char>, Seq<char>) {
        (self.content@, self.version@)
    }
}

/// One distinct line of a section and the versions that gave it, once per
/// occurrence, in order.
#[derive(Clone, Debug)]
pub struct MergedHeadingItem {
    pub content: String,
    pub sources: Vec<String>,
}

impl View for MergedHeadingItem {
    type V = (Seq<char>, Seq<Seq<char>>);

    open spec fn view(&self) -> (Seq<char>, Seq<Seq<char>>) {
        (self.content@, views(self.sources@))
    }
}

/// The trimmed lines that one release gives section `n`, with its tag.
pub open spec fn record_contributions(r: Release, n: Seq<char>) -> Seq<(Seq<char>, Seq<char>)> {
    match r.body {
        Some(b) => section_lines(b@, n).map_values(|l: Seq<char>| (trim(l), r.tag_name@)),
        None => seq![],
    }
}

/// The trimmed lines of section `n` over all releases, in release order and
/// then line order, each with its tag.
pub open spec fn contributions(rs: Seq<Release>, n: Seq<char>) -> Seq<(Seq<char>, Seq<char>)>
    decreases rs.len(),
{
    if rs.len() == 0 {
        seq![]
    } else {
        contributions(rs.drop_last(), n) + record_contributions(rs.last(), n)
    }
}

/// What a section holds so far: the first `j` sections of `parsed` have
/// added their lines from release `r`.
pub open spec fn partly_contributed(
    rs: Seq<Release>,
    r: Release,
    parsed: SectionIndex<String>,
    j: int,
    n: Seq<char>,
) -> Seq<(Seq<char>, Seq<char>)> {
    contributions(rs, n) + if exists|q: int| 0 <= q < j && #[trigger] parsed.names@[q]@ == n {
        record_contributions(r, n)
    } else {
        seq![]
    }
}

/// Collects, for each section, the trimmed lines of all releases with their tags.
pub fn gather_contributions(releases: &[Release]) -> (r: SectionIndex<Contribution>)
    ensures
        r.describes(|n: Seq<char>| contributions(releases@, n)),
{
    let ghost rs = releases@;
    let mut acc: SectionIndex<Contribution> = SectionIndex::new();
    let mut k: usize = 0;
    assert(acc.describes(|n: Seq<char>| contributions(rs.take(0), n)));
    while k < releases.len()
        invariant
            rs == releases@,
            k <= rs.len(),
            acc.describes(|n: Seq<char>| contributions(rs.take(k as int), n)),
        decreases rs.len() - k,
    {
        let rel = &releases[k];
        assert(rs.take(k + 1).drop_last() =~= rs.take(k as int));
        assert(rs.take(k + 1).last() == *rel);
        match &rel.body {
            Some(body) => {
                let parsed = parse_release_notes(body.as_str());
                let mut j: usize = 0;
                proof {
                    assert forall|n: Seq<char>|
                        #[trigger] contributions(rs.take(k as int), n) == partly_contributed(rs.take(k as int), *rel, parsed, 0, n) by {
                        assert(contributions(rs.take(k as int), n) + Seq::<(Seq<char>, Seq<char>)>::empty() =~= contributions(rs.take(k as int), n));
                    }
                    acc.lemma_same_describes(
                        |n: Seq<char>| contributions(rs.take(k as int), n),
                        |n: Seq<char>| partly_contributed(rs.take(k as int), *rel, parsed, 0, n),
                    );
                }
                while j < parsed.names.len()
                    invariant
                        rs == releases@,
                        k < rs.len(),
                        *rel == rs[k as int],
                        rel.body == Some(*body),
                        parsed.describes(|n: Seq<char>| section_lines(body@, n)),
                        j <= parsed.names@.len(),
                        acc.describes(
                            |n: Seq<char>| partly_contributed(rs.take(k as int), *rel, parsed, j as int, n),
                        ),
                    decreases parsed.names@.len() - j,
                {
                    let lines = &parsed.lists[j];
                    let ghost nm = parsed.names@[j as int]@;
                    assert(views(lines@) == section_lines(body@, nm));
                    let mut items: Vec<Contribution> = Vec::new();
                    let mut i: usize = 0;
                    while i < lines.len()
                        invariant
                            i <= lines@.len(),
                            *rel == rs[k as int],
                            rel.body == Some(*body),
                            views(lines@) == section_lines(body@, nm),
                            views(items@) == record_contributions(*rel, nm).take(i as int),
                        decreases lines@.len() - i,
                    {
                        let item = Contribution {
                            content: trim_str(lines[i].as_str()),
                            version: rel.tag_name.clone(),
                        };
                        assert(section_lines(body@, nm)[i as int] == lines@[i as int]@);
                        assert(item@ == (trim(lines@[i as int]@), rel.tag_name@));
                        let ghost before = items@;
                        items.push(item);
                        assert(items@ == before.push(item));
                        assert(record_contributions(*rel, nm).len() == lines@.len());
                        assert(views(items@) =~= views(before).push(item@));
                        assert(record_contributions(*rel, nm).take(i + 1) =~= record_contributions(*rel, nm).take(i as int).push(item@));
                        i += 1;
                    }
                    assert(views(items@) =~= record_contributions(*rel, nm));
                    proof {
                        assert forall|n: Seq<char>|
                            #[trigger] partly_contributed(rs.take(k as int), *rel, parsed, j + 1, n) == if n
                                == nm {
                                partly_contributed(rs.take(k as int), *rel, parsed, j as int, n) + views(items@)
                            } else {
                                partly_contributed(rs.take(k as int), *rel, parsed, j as int, n)
                            } by {
                            if n == nm {
                                assert(!exists|q: int| 0 <= q < j && #[trigger] parsed.names@[q]@ == n);
                                assert(parsed.names@[j as int]@ == n);
                            } else {
                                if exists|q: int| 0 <= q < j + 1 && #[trigger] parsed.names@[q]@ == n {
                                    let q = choose|q: int| 0 <= q < j + 1 && #[trigger] parsed.names@[q]@ == n;
                                    assert(q < j);
                                }
                            }
                        }
                    }
                    acc.add_items(
                        parsed.names[j].clone(),
                        items,
                        Ghost(|n: Seq<char>| partly_contributed(rs.take(k as int), *rel, parsed, j as int, n)),
                        Ghost(|n: Seq<char>| partly_contributed(rs.take(k as int), *rel, parsed, j + 1, n)),
                    );
                    j += 1;
                }
                proof {
                    assert forall|n: Seq<char>|
                        #[trigger] partly_contributed(rs.take(k as int), *rel, parsed, j as int, n)
                            == contributions(rs.take(k + 1), n) by {
                        if !exists|q: int| 0 <= q < j && #[trigger] parsed.names@[q]@ == n {
                            if section_lines(body@, n).len() > 0 {
                                parsed.lemma_has(|n: Seq<char>| section_lines(body@, n), n);
                                let q = choose|q: int| 0 <= q < parsed.names@.len() && #[trigger] parsed.names@[q]@ == n;
                                assert(q < j);
                            }
                            assert(record_contributions(*rel, n) =~= Seq::<(Seq<char>, Seq<char>)>::empty());
                        }
                    }
                    acc.lemma_same_describes(
                        |n: Seq<char>| partly_contributed(rs.take(k as int), *rel, parsed, j as int, n),
                        |n: Seq<char>| contributions(rs.take(k + 1), n),
                    );
                }
            },
            None => {
                proof {
                    assert forall|n: Seq<char>|
                        #[trigger] contributions(rs.take(k + 1), n) == contributions(rs.take(k as int), n) by {
                        assert(record_contributions(*rel, n) =~= Seq::<(Seq<char>, Seq<char>)>::empty());
                    }
                    acc.lemma_same_describes(
                        |n: Seq<char>| contributions(rs.take(k as int), n),
                        |n: Seq<char>| contributions(rs.take(k + 1), n),
                    );
                }
            },
        }
        k += 1;
    }
    assert(rs.take(rs.len() as int) =~= rs);
    acc
}

/// The versions that gave line `c`, once per occurrence, in order.
pub open spec fn sources_of(cs: Seq<(Seq<char>, Seq<char>)>, c: Seq<char>) -> Seq<Seq<char>>
    decreases cs.len(),
{
    if cs.len() == 0 {
        seq![]
    } else {
        sources_of(cs.drop_last(), c) + if cs.last().0 == c {
            seq![cs.last().1]
        } else {
            seq![]
        }
    }
}

/// `items` holds each line of `cs` once, with the versions that gave it.
pub open spec fn grouped(items: Seq<(Seq<char>, Seq<Seq<char>>)>, cs: Seq<(Seq<char>, Seq<char>)>) -> bool {
    &&& forall|a: int, b: int| 0 <= a < b < items.len() ==> #[trigger] items[a].0 != #[trigger] items[b].0
    &&& forall|a: int|
        0 <= a < items.len() ==> (#[trigger] items[a]).1 == sources_of(cs, items[a].0) && items[a].1.len() > 0
    &&& forall|k: int| 0 <= k < cs.len() ==> has_line(items, (#[trigger] cs[k]).0)
}

/// Some item holds line `c`.
pub open spec fn has_line(items: Seq<(Seq<char>, Seq<Seq<char>>)>, c: Seq<char>) -> bool {
    exists|a: int| 0 <= a < items.len() && items[a].0 == c
}

/// Groups contributions by line, in the order of each line's first occurrence.
pub fn group_contributions(cs: &Vec<Contribution>) -> (r: Vec<MergedHeadingItem>)
    ensures
        grouped(views(r@), views(cs@)),
{
    let ghost cv = views(cs@);
    let mut out: Vec<MergedHeadingItem> = Vec::new();
    let mut k: usize = 0;
    while k < cs.len()
        invariant
            k <= cs@.len(),
            cv == views(cs@),
            grouped(views(out@), cv.take(k as int)),
        decreases cs@.len() - k,
    {
        let c = &cs[k];
        let ghost prev = views(out@);
        assert(cv.take(k + 1).drop_last() =~= cv.take(k as int));
        assert(cv.take(k + 1).last() == c@);
        let mut p: usize = 0;
        while p < out.len() && out[p].content != c.content
            invariant
                p <= out@.len(),
                forall|a: int| 0 <= a < p ==> (#[trigger] out@[a]).content@ != c.content@,
            decreases out@.len() - p,
        {
            p += 1;
        }
        if p < out.len() {
            let mut item = out.remove(p);
            let ghost before = item.sources@;
            item.sources.push(c.version.clone());
            assert(views(item.sources@) =~= views(before).push(c.version@));
            out.insert(p, item);
            proof {
                assert(views(out@) =~= prev.update(p as int, item@));
                assert forall|a: int| 0 <= a < views(out@).len() implies (#[trigger] views(out@)[a]).1
                    == sources_of(cv.take(k + 1), views(out@)[a].0) && views(out@)[a].1.len() > 0 by {
                    if a != p {
                        assert(prev[a].0 != prev[p as int].0);
                    }
                }
                assert forall|j: int| 0 <= j < k + 1 implies has_line(views(out@), (#[trigger] cv.take(k + 1)[j]).0) by {
                    if j < k {
                        assert(cv.take(k + 1)[j] == cv.take(k as int)[j]);
                        assert(has_line(prev, cv.take(k as int)[j].0));
                        let a = choose|a: int| 0 <= a < prev.len() && prev[a].0 == cv.take(k as int)[j].0;
                        assert(views(out@)[a].0 == prev[a].0);
                    } else {
                        assert(views(out@)[p as int].0 == c.content@);
                    }
                }
            }
        } else {
            let mut srcs: Vec<String> = Vec::new();
            srcs.push(c.version.clone());
            let item = MergedHeadingItem { content: c.content.clone(), sources: srcs };
            out.push(item);
            proof {
                assert(views(out@) =~= prev.push(item@));
                assert forall|a: int| 0 <= a < prev.len() implies #[trigger] prev[a].0 != c.content@ by {
                    assert(out@[a]@ == prev[a]);
                }
                lemma_sources_absent(cv.take(k as int), c.content@);
                assert(views(srcs@) =~= seq![c.version@]);
                assert(sources_of(cv.take(k + 1), c.content@) =~= seq![c.version@]);
                assert forall|j: int| 0 <= j < k + 1 implies has_line(views(out@), (#[trigger] cv.take(k + 1)[j]).0) by {
                    if j < k {
                        assert(cv.take(k + 1)[j] == cv.take(k as int)[j]);
                        assert(has_line(prev, cv.take(k as int)[j].0));
                        let a = choose|a: int| 0 <= a < prev.len() && prev[a].0 == cv.take(k as int)[j].0;
                        assert(views(out@)[a].0 == prev[a].0);
                    } else {
                        assert(views(out@)[prev.len() as int].0 == c.content@);
                    }
                }
            }
        }
        k += 1;
    }
    assert(cv.take(cs@.len() as int) =~= cv);
    out
}

proof fn lemma_sources_absent(cs: Seq<(Seq<char>, Seq<char>)>, c: Seq<char>)
    requires
        forall|k: int| 0 <= k < cs.len() ==> (#[trigger] cs[k]).0 != c,
    ensures
        sources_of(cs, c) == Seq::<Seq<char>>::empty(),
    decreases cs.len(),
{
    if cs.len() > 0 {
        lemma_sources_absent(cs.drop_last(), c);
    }
}

/// The number of different texts in `s`.
pub open spec fn distinct_count(s: Seq<Seq<char>>) -> nat
    decreases s.len(),
{
    if s.len() == 0 {
        0
    } else {
        distinct_count(s.drop_last()) + if s.drop_last().contains(s.last()) {
            0nat
        } else {
            1nat
        }
    }
}

/// Item `x` is listed before item `y`: more distinct versions first, then
/// by line.
pub open spec fn item_before(x: (Seq<char>, Seq<Seq<char>>), y: (Seq<char>, Seq<Seq<char>>)) -> bool {
    distinct_count(x.1) > distinct_count(y.1) || (distinct_count(x.1) == distinct_count(y.1) && lex_cmp(
        x.0,
        y.0,
    ) == Ordering::Less)
}

/// The number of different texts in `v`.
pub fn count_distinct(v: &Vec<String>) -> (r: usize)
    ensures
        r == distinct_count(views(v@)),
{
    let ghost vv = views(v@);
    let mut count: usize = 0;
    let mut i: usize = 0;
    while i < v.len()
        invariant
            vv == views(v@),
            i <= v@.len(),
            count <= i,
            count == distinct_count(vv.take(i as int)),
        decreases v@.len() - i,
    {
        let mut seen = false;
        let mut j: usize = 0;
        while j < i
            invariant
                vv == views(v@),
                i < v@.len(),
                j <= i,
                seen == exists|k: int| 0 <= k < j && vv[k] == vv[i as int],
            decreases i - j,
        {
            assert(vv[j as int] == v@[j as int]@ && vv[i as int] == v@[i as int]@);
            if v[j] == v[i] {
                seen = true;
            }
            proof {
                if !seen {
                    assert forall|k: int| 0 <= k < j + 1 implies vv[k] != vv[i as int] by {
                        if k < j {
                            assert(!(0 <= k < j && vv[k] == vv[i as int]));
                        }
                    }
                }
            }
            j += 1;
        }
        proof {
            let pre = vv.take(i as int);
            assert(vv.take(i + 1).drop_last() =~= pre);
            assert(vv.take(i + 1).last() == vv[i as int]);
            if seen {
                let k = choose|k: int| 0 <= k < i && vv[k] == vv[i as int];
                assert(pre[k] == vv[i as int]);
            } else {
                assert forall|k: int| 0 <= k < pre.len() implies pre[k] != vv[i as int] by {
                    assert(pre[k] == vv[k]);
                }
            }
        }
        if !seen {
            count += 1;
        }
        i += 1;
    }
    assert(vv.take(v@.len() as int) =~= vv);
    count
}

/// Each item strictly before the next.
pub open spec fn support_sorted(items: Seq<(Seq<char>, Seq<Seq<char>>)>) -> bool {
    forall|a: int, b: int| 0 <= a < b < items.len() ==> item_before(#[trigger] items[a], #[trigger] items[b])
}

proof fn lemma_item_total(x: (Seq<char>, Seq<Seq<char>>), y: (Seq<char>, Seq<Seq<char>>))
    requires
        x.0 != y.0,
    ensures
        item_before(x, y) || item_before(y, x),
{
    lemma_lex_cmp_antisym(x.0, y.0);
    lemma_lex_cmp_antisym(y.0, x.0);
}

proof fn lemma_item_trans(
    x: (Seq<char>, Seq<Seq<char>>),
    y: (Seq<char>, Seq<Seq<char>>),
    z: (Seq<char>, Seq<Seq<char>>),
)
    requires
        item_before(x, y),
        item_before(y, z),
    ensures
        item_before(x, z),
{
    if distinct_count(x.1) == distinct_count(y.1) && distinct_count(y.1) == distinct_count(z.1) {
        lemma_lex_cmp_trans(x.0, y.0, z.0);
    }
}

fn support_before(x: &MergedHeadingItem, y: &MergedHeadingItem) -> (r: bool)
    ensures
        r == item_before(x@, y@),
{
    let a = count_distinct(&x.sources);
    let b = count_distinct(&y.sources);
    if a != b {
        a > b
    } else {
        match lex_compare(x.content.as_str(), y.content.as_str()) {
            Ordering::Less => true,
            _ => false,
        }
    }
}

proof fn lemma_insert_sorted(s: Seq<(Seq<char>, Seq<Seq<char>>)>, p: int, x: (Seq<char>, Seq<Seq<char>>))
    requires
        0 <= p <= s.len(),
        support_sorted(s),
        forall|a: int| 0 <= a < p ==> item_before(#[trigger] s[a], x),
        forall|b: int| p <= b < s.len() ==> item_before(x, #[trigger] s[b]),
    ensures
        support_sorted(s.insert(p, x)),
{
    let v = s.insert(p, x);
    assert forall|a: int, b: int| 0 <= a < b < v.len() implies item_before(#[trigger] v[a], #[trigger] v[b]) by {
        if a < p && b < p {
            assert(v[a] == s[a] && v[b] == s[b]);
        } else if a < p && b == p {
            assert(v[a] == s[a]);
        } else if a < p {
            assert(v[a] == s[a] && v[b] == s[b - 1]);
        } else if a == p {
            assert(v[b] == s[b - 1]);
        } else {
            assert(v[a] == s[a - 1] && v[b] == s[b - 1]);
        }
    }
}

/// Each of `o` is one of the first `i` of `s`, and each of those is one of `o`.
pub open spec fn same_members(o: Seq<(Seq<char>, Seq<Seq<char>>)>, s: Seq<(Seq<char>, Seq<Seq<char>>)>, i: int) -> bool {
    &&& forall|a: int| 0 <= a < o.len() ==> in_prefix(s, i, #[trigger] o[a])
    &&& forall|b: int| 0 <= b < i ==> in_seq(o, #[trigger] s[b])
}

/// `x` is one of the first `i` of `s`.
pub open spec fn in_prefix(s: Seq<(Seq<char>, Seq<Seq<char>>)>, i: int, x: (Seq<char>, Seq<Seq<char>>)) -> bool {
    exists|b: int| 0 <= b < i && s[b] == x
}

/// `x` is one of `o`.
pub open spec fn in_seq(o: Seq<(Seq<char>, Seq<Seq<char>>)>, x: (Seq<char>, Seq<Seq<char>>)) -> bool {
    exists|a: int| 0 <= a < o.len() && o[a] == x
}

proof fn lemma_insert_members(o: Seq<(Seq<char>, Seq<Seq<char>>)>, p: int, s: Seq<(Seq<char>, Seq<Seq<char>>)>, i: int)
    requires
        0 <= p <= o.len(),
        0 <= i < s.len(),
        same_members(o, s, i),
    ensures
        same_members(o.insert(p, s[i]), s, i + 1),
{
    let v = o.insert(p, s[i]);
    assert forall|a: int| 0 <= a < v.len() implies in_prefix(s, i + 1, #[trigger] v[a]) by {
        if a < p {
            assert(v[a] == o[a]);
            let b = choose|b: int| 0 <= b < i && s[b] == o[a];
            assert(in_prefix(s, i + 1, v[a]));
        } else if a > p {
            assert(v[a] == o[a - 1]);
            let b = choose|b: int| 0 <= b < i && s[b] == o[a - 1];
            assert(in_prefix(s, i + 1, v[a]));
        } else {
            assert(v[a] == s[i]);
            assert(in_prefix(s, i + 1, v[a]));
        }
    }
    assert forall|b: int| 0 <= b < i + 1 implies in_seq(v, #[trigger] s[b]) by {
        if b < i {
            assert(in_seq(o, s[b]));
            let a = choose|a: int| 0 <= a < o.len() && o[a] == s[b];
            if a < p {
                assert(v[a] == o[a]);
            } else {
                assert(v[a + 1] == o[a]);
            }
        } else {
            assert(v[p] == s[i]);
        }
    }
}

/// Orders items by number of sources, most first, then by line.
#[verifier::rlimit(40)]
#[verifier::spinoff_prover]
pub fn sort_by_support(items: Vec<MergedHeadingItem>) -> (r: Vec<MergedHeadingItem>)
    requires
        forall|a: int, b: int|
            0 <= a < b < items@.len() ==> (#[trigger] items@[a]).content@ != (#[trigger] items@[b]).content@,
    ensures
        r@.len() == items@.len(),
        support_sorted(views(r@)),
        same_members(views(r@), views(items@), items@.len() as int),
{
    let ghost src = items@;
    let ghost sv = views(items@);
    let mut rest = items;
    let mut out: Vec<MergedHeadingItem> = Vec::new();
    let mut i: usize = 0;
    // The items are moved out from the back into `pending`, which then yields
    // them from the front.
    let n = rest.len();
    let mut pending: Vec<MergedHeadingItem> = Vec::new();
    while rest.len() > 0
        invariant
            n == src.len(),
            pending@.len() + rest@.len() == n,
            rest@ == src.subrange(0, rest@.len() as int),
            forall|k: int| 0 <= k < pending@.len() ==> #[trigger] pending@[k] == src[n - 1 - k],
        decreases rest@.len(),
    {
        let x = rest.pop().unwrap();
        pending.push(x);
    }
    while i < n
        invariant
            n == src.len(),
            sv == views(src),
            pending@.len() == n - i,
            forall|k: int| 0 <= k < pending@.len() ==> #[trigger] pending@[k] == src[n - 1 - k],
            i <= n,
            out@.len() == i,
            support_sorted(views(out@)),
            same_members(views(out@), sv, i as int),
            forall|a: int, b: int| 0 <= a < b < sv.len() ==> (#[trigger] sv[a]).0 != (#[trigger] sv[b]).0,
        decreases n - i,
    {
        let ghost pend = pending@;
        let x = pending.pop().unwrap();
        assert(x == pend[n - i - 1]);
        assert(x@ == sv[i as int]);
        let mut p: usize = 0;
        while p < out.len() && !support_before(&x, &out[p])
            invariant
                p <= out@.len(),
                forall|a: int| 0 <= a < p ==> !item_before(x@, (#[trigger] out@[a])@),
            decreases out@.len() - p,
        {
            p += 1;
        }
        let ghost old_out = views(out@);
        proof {
            assert forall|a: int| 0 <= a < old_out.len() implies (#[trigger] old_out[a]).0 != x@.0 by {
                assert(in_prefix(sv, i as int, old_out[a]));
                let b = choose|b: int| 0 <= b < i && sv[b] == old_out[a];
            }
            assert forall|a: int| 0 <= a < p implies item_before(#[trigger] old_out[a], x@) by {
                assert(old_out[a] == out@[a]@);
                lemma_item_total(x@, old_out[a]);
            }
            assert forall|b: int| p <= b < old_out.len() implies item_before(x@, #[trigger] old_out[b]) by {
                if b > p {
                    assert(item_before(old_out[p as int], old_out[b]));
                    lemma_item_trans(x@, old_out[p as int], old_out[b]);
                }
            }
            lemma_insert_sorted(old_out, p as int, x@);
            lemma_insert_members(old_out, p as int, sv, i as int);
        }
        out.insert(p, x);
        assert(views(out@) =~= old_out.insert(p as int, x@));
        i += 1;
    }
    out
}

/// The items of section `n` are each distinct line of `cs` once with the
/// versions that gave it, ordered by number of versions (most first) and
/// then by line.
pub open spec fn merged_by_heading(items: Seq<(Seq<char>, Seq<Seq<char>>)>, cs: Seq<(Seq<char>, Seq<char>)>) -> bool {
    grouped(items, cs) && support_sorted(items)
}

proof fn lemma_rearranged_distinct(o: Seq<(Seq<char>, Seq<Seq<char>>)>, s: Seq<(Seq<char>, Seq<Seq<char>>)>)
    requires
        forall|a: int, b: int| 0 <= a < b < s.len() ==> #[trigger] s[a].0 != #[trigger] s[b].0,
        same_members(o, s, s.len() as int),
        support_sorted(o),
    ensures
        forall|a: int, b: int| 0 <= a < b < o.len() ==> #[trigger] o[a].0 != #[trigger] o[b].0,
{
    assert forall|a: int, b: int| 0 <= a < b < o.len() implies #[trigger] o[a].0 != #[trigger] o[b].0 by {
        assert(in_prefix(s, s.len() as int, o[a]));
        assert(in_prefix(s, s.len() as int, o[b]));
        let x = choose|x: int| 0 <= x < s.len() && s[x] == o[a];
        let y = choose|y: int| 0 <= y < s.len() && s[y] == o[b];
        assert(item_before(o[a], o[b]));
        if x == y {
            lemma_lex_cmp_antisym(o[a].0, o[a].0);
        } else if x < y {
            assert(s[x].0 != s[y].0);
        } else {
            assert(s[y].0 != s[x].0);
        }
    }
}

proof fn lemma_rearranged_sources(
    o: Seq<(Seq<char>, Seq<Seq<char>>)>,
    s: Seq<(Seq<char>, Seq<Seq<char>>)>,
    cs: Seq<(Seq<char>, Seq<char>)>,
)
    requires
        grouped(s, cs),
        same_members(o, s, s.len() as int),
    ensures
        forall|a: int| 0 <= a < o.len() ==> (#[trigger] o[a]).1 == sources_of(cs, o[a].0) && o[a].1.len() > 0,
{
    assert forall|a: int| 0 <= a < o.len() implies (#[trigger] o[a]).1 == sources_of(cs, o[a].0) && o[a].1.len() > 0 by {
        assert(in_prefix(s, s.len() as int, o[a]));
        let x = choose|x: int| 0 <= x < s.len() && s[x] == o[a];
        assert(s[x].1 == sources_of(cs, s[x].0));
    }
}

proof fn lemma_rearranged_cover(
    o: Seq<(Seq<char>, Seq<Seq<char>>)>,
    s: Seq<(Seq<char>, Seq<Seq<char>>)>,
    cs: Seq<(Seq<char>, Seq<char>)>,
)
    requires
        grouped(s, cs),
        same_members(o, s, s.len() as int),
    ensures
        forall|k: int| 0 <= k < cs.len() ==> has_line(o, (#[trigger] cs[k]).0),
{
    assert forall|k: int| 0 <= k < cs.len() implies has_line(o, (#[trigger] cs[k]).0) by {
        assert(has_line(s, cs[k].0));
        let x = choose|x: int| 0 <= x < s.len() && s[x].0 == cs[k].0;
        assert(in_seq(o, s[x]));
        let a = choose|a: int| 0 <= a < o.len() && o[a] == s[x];
        assert(o[a].0 == cs[k].0);
        assert(0 <= a < o.len() && o[a].0 == cs[k].0);
    }
}

proof fn lemma_grouped_rearranged(
    o: Seq<(Seq<char>, Seq<Seq<char>>)>,
    s: Seq<(Seq<char>, Seq<Seq<char>>)>,
    cs: Seq<(Seq<char>, Seq<char>)>,
)
    requires
        grouped(s, cs),
        same_members(o, s, s.len() as int),
        support_sorted(o),
    ensures
        grouped(o, cs),
{
    lemma_rearranged_distinct(o, s);
    lemma_rearranged_sources(o, s, cs);
    lemma_rearranged_cover(o, s, cs);
}

/// Merges the sections of the releases by line: each section lists each
/// distinct trimmed line once, with the tags of the releases that gave it
/// (once per occurrence, in release order), most-given lines first and then
/// by line.
pub fn merge_release_notes_by_heading(releases: &[Release]) -> (r: SectionIndex<MergedHeadingItem>)
    ensures
        r.wf(),
        forall|i: int|
            0 <= i < r.names@.len() ==> merged_by_heading(
                views(#[trigger] r.lists@[i]@),
                contributions(releases@, r.names@[i]@),
            ) && contributions(releases@, r.names@[i]@).len() > 0,
        forall|n: Seq<char>| #[trigger] contributions(releases@, n).len() > 0 ==> r.has_name(n),
{
    let gathered = gather_contributions(releases);
    let mut names: Vec<String> = Vec::new();
    let mut lists: Vec<Vec<MergedHeadingItem>> = Vec::new();
    let mut i: usize = 0;
    while i < gathered.names.len()
        invariant
            gathered.describes(|n: Seq<char>| contributions(releases@, n)),
            i <= gathered.names@.len(),
            names@.len() == i,
            lists@.len() == i,
            forall|k: int| 0 <= k < i ==> (#[trigger] names@[k])@ == gathered.names@[k]@,
            forall|k: int|
                0 <= k < i ==> merged_by_heading(
                    views(#[trigger] lists@[k]@),
                    contributions(releases@, gathered.names@[k]@),
                ),
        decreases gathered.names@.len() - i,
    {
        let cs = &gathered.lists[i];
        assert(views(cs@) == contributions(releases@, gathered.names@[i as int]@));
        let items = group_contributions(cs);
        let ghost gv = views(items@);
        assert forall|a: int, b: int|
            0 <= a < b < items@.len() implies (#[trigger] items@[a]).content@ != (#[trigger] items@[b]).content@ by {
            assert(gv[a].0 != gv[b].0);
        }
        let sorted = sort_by_support(items);
        proof {
            lemma_grouped_rearranged(views(sorted@), gv, views(cs@));
        }
        names.push(gathered.names[i].clone());
        lists.push(sorted);
        i += 1;
    }
    let r = SectionIndex { names, lists };
    assert forall|i: int| 0 <= i < r.names@.len() implies contributions(releases@, r.names@[i]@).len() > 0 by {
        assert(views(gathered.lists@[i]@) == contributions(releases@, gathered.names@[i]@));
    }
    assert forall|n: Seq<char>| #[trigger] contributions(releases@, n).len() > 0 implies r.has_name(n) by {
        gathered.lemma_has(|n: Seq<char>| contributions(releases@, n), n);
        let k = choose|k: int| 0 <= k < gathered.names@.len() && #[trigger] gathered.names@[k]@ == n;
        assert(r.names@[k]@ == n);
    }
    assert forall|a: int, b: int|
        0 <= a < b < r.names@.len() implies #[trigger] r.names@[a]@ != #[trigger] r.names@[b]@ by {
        assert(gathered.names@[a]@ != gathered.names@[b]@);
    }
    r
}

} // verus!
