//! Rendering merged sections as one markdown document.

use vstd::prelude::*;
use std::cmp::Ordering;
use crate::index::{SectionIndex, views};
use crate::order::{lemma_insert_ordered, ordered_by};
use crate::merge::{MergedHeadingItem, ReleaseNoteItem};
use crate::release::{Date, iso_date};
use crate::sections::uncategorized;
use crate::version::{lex_cmp, lex_compare, lemma_lex_cmp_antisym, lemma_lex_cmp_trans};

verus! {

/// Section `a` is rendered before section `b`: by name, with `Uncategorized`
/// after every other name.
pub open spec fn name_before(a: Seq<char>, b: Seq<char>) -> bool {
    if a == uncategorized() {
        false
    } else if b == uncategorized() {
        true
    } else {
        lex_cmp(a, b) == Ordering::Less
    }
}

/// `order` lists every position of `names` once, in rendering order.
pub open spec fn is_section_order(names: Seq<Seq<char>>, order: Seq<usize>) -> bool {
    &&& order.len() == names.len()
    &&& forall|i: int| 0 <= i < order.len() ==> #[trigger] order[i] < names.len()
    &&& ordered_by(order, |a: int, b: int| name_before(names[a], names[b]))
}

proof fn lemma_name_total(a: Seq<char>, b: Seq<char>)
    requires
        a != b,
    ensures
        name_before(a, b) || name_before(b, a),
{
    lemma_lex_cmp_antisym(a, b);
    lemma_lex_cmp_antisym(b, a);
}

proof fn lemma_name_trans(a: Seq<char>, b: Seq<char>, c: Seq<char>)
    requires
        name_before(a, b),
        name_before(b, c),
    ensures
        name_before(a, c),
{
    if a != uncategorized() && b != uncategorized() && c != uncategorized() {
        lemma_lex_cmp_trans(a, b, c);
    }
}

fn is_uncategorized(s: &String) -> (r: bool)
    ensures
        r == (s@ == uncategorized()),
{
    let u = crate::sections::uncategorized_name();
    *s == u
}

fn name_before_exec(a: &String, b: &String) -> (r: bool)
    ensures
        r == name_before(a@, b@),
{
    if is_uncategorized(a) {
        false
    } else if is_uncategorized(b) {
        true
    } else {
        match lex_compare(a.as_str(), b.as_str()) {
            Ordering::Less => true,
            _ => false,
        }
    }
}

/// The order in which sections are rendered: by name, `Uncategorized` last.
pub fn order_sections(names: &Vec<String>) -> (r: Vec<usize>)
    requires
        forall|a: int, b: int| 0 <= a < b < names@.len() ==> #[trigger] names@[a]@ != #[trigger] names@[b]@,
    ensures
        is_section_order(views(names@), r@),
{
    let ghost nv = views(names@);
    let ghost before = |a: int, b: int| name_before(nv[a], nv[b]);
    let n = names.len();
    let mut out: Vec<usize> = Vec::new();
    let mut i: usize = 0;
    while i < n
        invariant
            n == names@.len(),
            nv == views(names@),
            before == (|a: int, b: int| name_before(nv[a], nv[b])),
            i <= n,
            out@.len() == i,
            forall|a: int| 0 <= a < out@.len() ==> #[trigger] out@[a] < i,
            ordered_by(out@, before),
            forall|a: int, b: int| 0 <= a < b < n ==> #[trigger] nv[a] != #[trigger] nv[b],
        decreases n - i,
    {
        let mut p: usize = 0;
        while p < out.len() && !name_before_exec(&names[i], &names[out[p]])
            invariant
                n == names@.len(),
                nv == views(names@),
                i < n,
                p <= out@.len(),
                forall|a: int| 0 <= a < out@.len() ==> #[trigger] out@[a] < i,
                forall|a: int| 0 <= a < p ==> !name_before(nv[i as int], nv[#[trigger] out@[a] as int]),
            decreases out@.len() - p,
        {
            p += 1;
        }
        proof {
            let s = out@;
            assert forall|a: int| 0 <= a < p implies before(#[trigger] s[a] as int, i as int) by {
                assert(nv[s[a] as int] != nv[i as int]);
                lemma_name_total(nv[i as int], nv[s[a] as int]);
            }
            assert forall|b: int| p <= b < s.len() implies before(i as int, #[trigger] s[b] as int) by {
                if b > p {
                    assert(before(s[p as int] as int, s[b] as int));
                    lemma_name_trans(nv[i as int], nv[s[p as int] as int], nv[s[b] as int]);
                }
            }
            lemma_insert_ordered(s, p as int, i, before);
        }
        out.insert(p, i);
        i += 1;
    }
    out
}

/// The (version, date) pairs of the items, each once, in order of first appearance.
pub open spec fn group_keys(items: Seq<(Seq<char>, Seq<char>, Date)>) -> Seq<(Seq<char>, Date)>
    decreases items.len(),
{
    if items.len() == 0 {
        seq![]
    } else {
        let k = group_keys(items.drop_last());
        let key = (items.last().1, items.last().2);
        if k.contains(key) {
            k
        } else {
            k.push(key)
        }
    }
}

/// The lines of the items of one (version, date) pair, in order.
pub open spec fn group_members(items: Seq<(Seq<char>, Seq<char>, Date)>, key: (Seq<char>, Date)) -> Seq<Seq<char>>
    decreases items.len(),
{
    if items.len() == 0 {
        seq![]
    } else {
        group_members(items.drop_last(), key) + if (items.last().1, items.last().2) == key {
            seq![items.last().0]
        } else {
            seq![]
        }
    }
}

/// Date `a` is later than date `b`.
pub open spec fn date_after(a: Date, b: Date) -> bool {
    a.year > b.year || (a.year == b.year && (a.month > b.month || (a.month == b.month && a.day > b.day)))
}

/// Group `a` is rendered before group `b`: newer date first, equal dates in
/// order of first appearance.
pub open spec fn group_before(dates: Seq<Date>, a: int, b: int) -> bool {
    date_after(dates[a], dates[b]) || (dates[a] == dates[b] && a < b)
}

/// `order` lists every group once, in rendering order.
pub open spec fn is_group_order(dates: Seq<Date>, order: Seq<usize>) -> bool {
    &&& order.len() == dates.len()
    &&& forall|i: int| 0 <= i < order.len() ==> #[trigger] order[i] < dates.len()
    &&& ordered_by(order, |a: int, b: int| group_before(dates, a, b))
}

/// The dates of the groups of a section.
pub open spec fn group_dates(items: Seq<(Seq<char>, Seq<char>, Date)>) -> Seq<Date> {
    group_keys(items).map_values(|k: (Seq<char>, Date)| k.1)
}

/// Each line followed by a line break.
pub open spec fn lines_text(ls: Seq<Seq<char>>) -> Seq<char>
    decreases ls.len(),
{
    if ls.len() == 0 {
        seq![]
    } else {
        lines_text(ls.drop_last()) + ls.last() + "\n"@
    }
}

/// One version's block: `### version (YYYY-MM-DD)`, its lines, a blank line.
pub open spec fn group_text(key: (Seq<char>, Date), ls: Seq<Seq<char>>) -> Seq<char> {
    "### "@ + key.0 + " ("@ + iso_date(key.1) + ")\n\n"@ + lines_text(ls) + "\n"@
}

/// The first `k` groups of a section, in rendering order.
pub open spec fn groups_text(items: Seq<(Seq<char>, Seq<char>, Date)>, order: Seq<usize>, k: int) -> Seq<char>
    decreases k,
{
    if k <= 0 {
        seq![]
    } else {
        groups_text(items, order, k - 1) + group_text(
            group_keys(items)[order[k - 1] as int],
            group_members(items, group_keys(items)[order[k - 1] as int]),
        )
    }
}

/// A section of the version-separated document.
pub open spec fn version_section_text(name: Seq<char>, items: Seq<(Seq<char>, Seq<char>, Date)>, order: Seq<usize>) -> Seq<char> {
    "## "@ + name + "\n\n"@ + groups_text(items, order, order.len() as int)
}

/// The first line of the version-separated document.
pub open spec fn version_title() -> Seq<char> {
    "# Aggregated Release Notes\n\n"@
}

/// The first `k` sections of the version-separated document, in rendering order.
pub open spec fn version_sections_text(
    idx: SectionIndex<ReleaseNoteItem>,
    order: Seq<usize>,
    group_orders: Seq<Seq<usize>>,
    k: int,
) -> Seq<char>
    decreases k,
{
    if k <= 0 {
        seq![]
    } else {
        version_sections_text(idx, order, group_orders, k - 1) + version_section_text(
            idx.names@[order[k - 1] as int]@,
            views(idx.lists@[order[k - 1] as int]@),
            group_orders[k - 1],
        )
    }
}

/// The version-separated document for the given rendering orders.
pub open spec fn version_document(idx: SectionIndex<ReleaseNoteItem>, order: Seq<usize>, group_orders: Seq<Seq<usize>>) -> Seq<char> {
    version_title() + version_sections_text(idx, order, group_orders, order.len() as int)
}

/// The (version, date) groups of a section's items: each pair once, in order
/// of first appearance, with the lines of its items.
pub fn group_by_version(items: &Vec<ReleaseNoteItem>) -> (r: (Vec<String>, Vec<Date>, Vec<Vec<String>>))
    ensures
        r.0@.len() == group_keys(views(items@)).len(),
        r.1@.len() == r.0@.len(),
        r.2@.len() == r.0@.len(),
        forall|j: int| 0 <= j < r.0@.len() ==> (#[trigger] r.0@[j])@ == group_keys(views(items@))[j].0
            && r.1@[j] == group_keys(views(items@))[j].1
            && views(r.2@[j]@) == group_members(views(items@), group_keys(views(items@))[j]),
{
    let ghost iv = views(items@);
    let mut vers: Vec<String> = Vec::new();
    let mut dates: Vec<Date> = Vec::new();
    let mut k: usize = 0;
    while k < items.len()
        invariant
            iv == views(items@),
            k <= items@.len(),
            vers@.len() == group_keys(iv.take(k as int)).len(),
            dates@.len() == vers@.len(),
            forall|j: int| 0 <= j < vers@.len() ==> (#[trigger] vers@[j])@ == group_keys(iv.take(k as int))[j].0
                && dates@[j] == group_keys(iv.take(k as int))[j].1,
        decreases items@.len() - k,
    {
        let it = &items[k];
        let ghost keys = group_keys(iv.take(k as int));
        assert(iv.take(k + 1).drop_last() =~= iv.take(k as int));
        assert(iv.take(k + 1).last() == it@);
        let mut p: usize = 0;
        while p < vers.len() && !(vers[p] == it.version && dates[p] == it.date)
            invariant
                p <= vers@.len(),
                dates@.len() == vers@.len(),
                vers@.len() == keys.len(),
                forall|j: int| 0 <= j < vers@.len() ==> (#[trigger] vers@[j])@ == keys[j].0 && dates@[j] == keys[j].1,
                forall|j: int| 0 <= j < p ==> #[trigger] keys[j] != (it.version@, it.date),
            decreases vers@.len() - p,
        {
            p += 1;
        }
        if p == vers.len() {
            assert(!keys.contains((it.version@, it.date)));
            assert(group_keys(iv.take(k + 1)) == keys.push((it.version@, it.date)));
            vers.push(it.version.clone());
            dates.push(it.date);
            assert forall|j: int| 0 <= j < vers@.len() implies (#[trigger] vers@[j])@ == group_keys(iv.take(k + 1))[j].0
                && dates@[j] == group_keys(iv.take(k + 1))[j].1 by {
                if j < keys.len() {
                    assert(group_keys(iv.take(k + 1))[j] == keys[j]);
                }
            }
        } else {
            assert(keys[p as int] == (it.version@, it.date));
            assert(keys.contains((it.version@, it.date)));
            assert(group_keys(iv.take(k + 1)) == keys);
        }
        k += 1;
    }
    assert(iv.take(items@.len() as int) =~= iv);
    let mut groups: Vec<Vec<String>> = Vec::new();
    let mut j: usize = 0;
    while j < vers.len()
        invariant
            iv == views(items@),
            j <= vers@.len(),
            groups@.len() == j,
            dates@.len() == vers@.len(),
            vers@.len() == group_keys(iv).len(),
            forall|a: int| 0 <= a < vers@.len() ==> (#[trigger] vers@[a])@ == group_keys(iv)[a].0
                && dates@[a] == group_keys(iv)[a].1,
            forall|a: int| 0 <= a < j ==> views((#[trigger] groups@[a])@) == group_members(iv, (vers@[a]@, dates@[a])),
        decreases vers@.len() - j,
    {
        let mut acc: Vec<String> = Vec::new();
        let ghost key = (vers@[j as int]@, dates@[j as int]);
        let mut i: usize = 0;
        while i < items.len()
            invariant
                iv == views(items@),
                i <= items@.len(),
                j < vers@.len(),
                dates@.len() == vers@.len(),
                key == (vers@[j as int]@, dates@[j as int]),
                views(acc@) == group_members(iv.take(i as int), key),
            decreases items@.len() - i,
        {
            assert(iv.take(i + 1).drop_last() =~= iv.take(i as int));
            if items[i].version == vers[j] && items[i].date == dates[j] {
                let ghost before = acc@;
                acc.push(items[i].content.clone());
                assert(views(acc@) =~= views(before).push(items@[i as int].content@));
            }
            i += 1;
        }
        assert(iv.take(items@.len() as int) =~= iv);
        groups.push(acc);
        j += 1;
    }
    assert forall|a: int| 0 <= a < vers@.len() implies group_keys(iv)[a] == (vers@[a]@, dates@[a]) by {
        let g = group_keys(iv)[a];
        assert(g == (g.0, g.1));
    }
    (vers, dates, groups)
}

fn date_after_exec(a: &Date, b: &Date) -> (r: bool)
    ensures
        r == date_after(*a, *b),
{
    a.year > b.year || (a.year == b.year && (a.month > b.month || (a.month == b.month && a.day > b.day)))
}

/// The order in which groups are rendered: newest date first, equal dates
/// in their given order.
pub fn order_groups(dates: &Vec<Date>) -> (r: Vec<usize>)
    ensures
        is_group_order(dates@, r@),
{
    let ghost before = |a: int, b: int| group_before(dates@, a, b);
    let n = dates.len();
    let mut out: Vec<usize> = Vec::new();
    let mut i: usize = 0;
    while i < n
        invariant
            n == dates@.len(),
            before == (|a: int, b: int| group_before(dates@, a, b)),
            i <= n,
            out@.len() == i,
            forall|a: int| 0 <= a < out@.len() ==> #[trigger] out@[a] < i,
            ordered_by(out@, before),
        decreases n - i,
    {
        let mut p: usize = 0;
        while p < out.len() && !date_after_exec(&dates[i], &dates[out[p]])
            invariant
                n == dates@.len(),
                i < n,
                p <= out@.len(),
                forall|a: int| 0 <= a < out@.len() ==> #[trigger] out@[a] < i,
                forall|a: int| 0 <= a < p ==> !date_after(dates@[i as int], dates@[#[trigger] out@[a] as int]),
            decreases out@.len() - p,
        {
            p += 1;
        }
        proof {
            let s = out@;
            assert forall|b: int| p <= b < s.len() implies before(i as int, #[trigger] s[b] as int) by {
                if b > p {
                    assert(before(s[p as int] as int, s[b] as int));
                }
            }
            assert forall|a: int| 0 <= a < p implies before(#[trigger] s[a] as int, i as int) by {}
            lemma_insert_ordered(s, p as int, i, before);
        }
        out.insert(p, i);
        i += 1;
    }
    out
}

/// The version-separated document: a title, then each section (by name,
/// `Uncategorized` last) with its versions (newest date first), each version
/// with its lines.
pub fn generate_markdown(merged_sections: &SectionIndex<ReleaseNoteItem>) -> (r: String)
    requires
        merged_sections.wf(),
    ensures
        exists|order: Seq<usize>, group_orders: Seq<Seq<usize>>|
            #![trigger version_document(*merged_sections, order, group_orders)]
            is_section_order(views(merged_sections.names@), order) && group_orders.len() == order.len()
                && (forall|k: int|
                0 <= k < order.len() ==> is_group_order(
                    group_dates(views(merged_sections.lists@[order[k] as int]@)),
                    #[trigger] group_orders[k],
                )) && r@ == version_document(*merged_sections, order, group_orders),
{
    let m = merged_sections;
    let order = order_sections(&m.names);
    let mut s = String::from_str("# Aggregated Release Notes\n\n");
    let ghost mut gos: Seq<Seq<usize>> = seq![];
    let mut k: usize = 0;
    while k < order.len()
        invariant
            m.wf(),
            is_section_order(views(m.names@), order@),
            k <= order@.len(),
            gos.len() == k,
            forall|a: int|
                0 <= a < k ==> is_group_order(
                    group_dates(views(m.lists@[order@[a] as int]@)),
                    #[trigger] gos[a],
                ),
            s@ == version_title() + version_sections_text(*m, order@, gos, k as int),
        decreases order@.len() - k,
    {
        let idx = order[k];
        assert(idx < m.names@.len());
        let items = &m.lists[idx];
        let ghost iv = views(items@);
        let ghost start = s@;
        s.append("## ");
        s.append(m.names[idx].as_str());
        s.append("\n\n");
        let (vers, dates, groups) = group_by_version(items);
        assert forall|j: int| 0 <= j < dates@.len() implies dates@[j] == group_dates(iv)[j] by {
            assert(vers@[j]@ == group_keys(iv)[j].0);
        }
        assert(dates@ =~= group_dates(iv));
        let gorder = order_groups(&dates);
        let ghost head = s@;
        assert(head == start + ("## "@ + m.names@[idx as int]@ + "\n\n"@));
        let mut g: usize = 0;
        while g < gorder.len()
            invariant
                is_group_order(dates@, gorder@),
                g <= gorder@.len(),
                vers@.len() == group_keys(iv).len(),
                dates@.len() == vers@.len(),
                groups@.len() == vers@.len(),
                forall|j: int| 0 <= j < vers@.len() ==> (#[trigger] vers@[j])@ == group_keys(iv)[j].0
                    && dates@[j] == group_keys(iv)[j].1
                    && views(groups@[j]@) == group_members(iv, group_keys(iv)[j]),
                s@ == head + groups_text(iv, gorder@, g as int),
            decreases gorder@.len() - g,
        {
            let q = gorder[g];
            assert(q < vers@.len());
            let ghost key = group_keys(iv)[q as int];
            assert(key == (vers@[q as int]@, dates@[q as int]));
            let ghost before = s@;
            s.append("### ");
            s.append(vers[q].as_str());
            s.append(" (");
            s.append(dates[q].iso_text().as_str());
            s.append(")\n\n");
            let lines = &groups[q];
            let ghost mid = s@;
            let mut i: usize = 0;
            while i < lines.len()
                invariant
                    i <= lines@.len(),
                    s@ == mid + lines_text(views(lines@).take(i as int)),
                decreases lines@.len() - i,
            {
                s.append(lines[i].as_str());
                s.append("\n");
                assert(views(lines@).take(i + 1).drop_last() =~= views(lines@).take(i as int));
                assert(s@ =~= mid + lines_text(views(lines@).take(i + 1)));
                i += 1;
            }
            assert(views(lines@).take(lines@.len() as int) =~= views(lines@));
            s.append("\n");
            assert(s@ =~= before + group_text(key, group_members(iv, key)));
            assert(s@ =~= head + groups_text(iv, gorder@, g + 1));
            g += 1;
        }
        proof {
            let old_gos = gos;
            gos = gos.push(gorder@);
            lemma_sections_text_prefix(*m, order@, gos, old_gos, k as int);
            assert(s@ == start + version_section_text(m.names@[idx as int]@, iv, gorder@));
            assert forall|a: int| 0 <= a < k + 1 implies is_group_order(
                group_dates(views(m.lists@[order@[a] as int]@)),
                #[trigger] gos[a],
            ) by {}
        }
        assert(s@ =~= version_title() + version_sections_text(*m, order@, gos, k + 1));
        k += 1;
    }
    assert(s@ == version_document(*m, order@, gos));
    s
}

proof fn lemma_sections_text_prefix(
    idx: SectionIndex<ReleaseNoteItem>,
    order: Seq<usize>,
    a: Seq<Seq<usize>>,
    b: Seq<Seq<usize>>,
    k: int,
)
    requires
        forall|i: int| 0 <= i < k ==> a[i] == b[i],
    ensures
        version_sections_text(idx, order, a, k) == version_sections_text(idx, order, b, k),
    decreases k,
{
    if k > 0 {
        lemma_sections_text_prefix(idx, order, a, b, k - 1);
    }
}

/// `x` put into `t` before the first text not smaller than it.
pub open spec fn insert_lex(t: Seq<Seq<char>>, x: Seq<char>) -> Seq<Seq<char>>
    decreases t.len(),
{
    if t.len() == 0 {
        seq![x]
    } else if lex_cmp(x, t[0]) == Ordering::Greater {
        seq![t[0]] + insert_lex(t.drop_first(), x)
    } else {
        seq![x] + t
    }
}

/// The texts in ascending order.
pub open spec fn sort_lex(s: Seq<Seq<char>>) -> Seq<Seq<char>>
    decreases s.len(),
{
    if s.len() == 0 {
        seq![]
    } else {
        insert_lex(sort_lex(s.drop_last()), s.last())
    }
}

proof fn lemma_insert_lex_at(t: Seq<Seq<char>>, x: Seq<char>, p: int)
    requires
        0 <= p <= t.len(),
        forall|q: int| 0 <= q < p ==> lex_cmp(x, #[trigger] t[q]) == Ordering::Greater,
        p < t.len() ==> lex_cmp(x, t[p]) != Ordering::Greater,
    ensures
        insert_lex(t, x) == t.insert(p, x),
    decreases p,
{
    if p == 0 {
        if t.len() == 0 {
            assert(t.insert(0, x) =~= seq![x]);
        } else {
            assert(t.insert(0, x) =~= seq![x] + t);
        }
    } else {
        let r = t.drop_first();
        assert forall|q: int| 0 <= q < p - 1 implies lex_cmp(x, #[trigger] r[q]) == Ordering::Greater by {
            assert(r[q] == t[q + 1]);
        }
        lemma_insert_lex_at(r, x, p - 1);
        assert(seq![t[0]] + r.insert(p - 1, x) =~= t.insert(p, x));
    }
}

fn lex_greater(a: &str, b: &str) -> (r: bool)
    ensures
        r == (lex_cmp(a@, b@) == Ordering::Greater),
{
    match lex_compare(a, b) {
        Ordering::Greater => true,
        _ => false,
    }
}

/// The texts in ascending order, as `sort_lex` gives them.
pub fn sort_strings(v: &Vec<String>) -> (r: Vec<String>)
    ensures
        views(r@) == sort_lex(views(v@)),
{
    let ghost vv = views(v@);
    let mut out: Vec<String> = Vec::new();
    let mut i: usize = 0;
    while i < v.len()
        invariant
            vv == views(v@),
            i <= v@.len(),
            views(out@) == sort_lex(vv.take(i as int)),
        decreases v@.len() - i,
    {
        let x = &v[i];
        let mut p: usize = 0;
        while p < out.len() && lex_greater(x.as_str(), out[p].as_str())
            invariant
                p <= out@.len(),
                forall|q: int| 0 <= q < p ==> lex_cmp(x@, #[trigger] views(out@)[q]) == Ordering::Greater,
            decreases out@.len() - p,
        {
            p += 1;
        }
        let ghost t = views(out@);
        proof {
            lemma_insert_lex_at(t, x@, p as int);
            assert(vv.take(i + 1).drop_last() =~= vv.take(i as int));
        }
        out.insert(p, x.clone());
        assert(views(out@) =~= t.insert(p as int, x@));
        i += 1;
    }
    assert(vv.take(v@.len() as int) =~= vv);
    out
}

/// The texts joined with `sep` between them.
pub open spec fn join(parts: Seq<Seq<char>>, sep: Seq<char>) -> Seq<char>
    decreases parts.len(),
{
    if parts.len() == 0 {
        seq![]
    } else if parts.len() == 1 {
        parts[0]
    } else {
        join(parts.drop_last(), sep) + sep + parts.last()
    }
}

/// The note under a line: all its versions (in ascending order) where there
/// are several, its one version where there is one.
pub open spec fn note_text(srcs: Seq<Seq<char>>) -> Seq<char> {
    if srcs.len() > 1 {
        "*(Present in versions: "@ + join(sort_lex(srcs), ", "@) + ")*\n\n"@
    } else if srcs.len() == 1 {
        "*(From version: "@ + srcs[0] + ")*\n\n"@
    } else {
        "\n"@
    }
}

/// The first `k` items of a section, each line with its note.
pub open spec fn items_text(items: Seq<(Seq<char>, Seq<Seq<char>>)>, k: int) -> Seq<char>
    decreases k,
{
    if k <= 0 {
        seq![]
    } else {
        items_text(items, k - 1) + items[k - 1].0 + "\n"@ + note_text(items[k - 1].1)
    }
}

/// A section of the merged-by-heading document.
pub open spec fn heading_section_text(name: Seq<char>, items: Seq<(Seq<char>, Seq<Seq<char>>)>) -> Seq<char> {
    "## "@ + name + "\n\n"@ + items_text(items, items.len() as int) + "\n"@
}

/// The first line of the merged-by-heading document.
pub open spec fn heading_title() -> Seq<char> {
    "# Aggregated Release Notes (Merged by Heading)\n\n"@
}

/// The first `k` sections of the merged-by-heading document, in rendering order.
pub open spec fn heading_sections_text(idx: SectionIndex<MergedHeadingItem>, order: Seq<usize>, k: int) -> Seq<char>
    decreases k,
{
    if k <= 0 {
        seq![]
    } else {
        heading_sections_text(idx, order, k - 1) + heading_section_text(
            idx.names@[order[k - 1] as int]@,
            views(idx.lists@[order[k - 1] as int]@),
        )
    }
}

/// The merged-by-heading document for the given section order.
pub open spec fn heading_document(idx: SectionIndex<MergedHeadingItem>, order: Seq<usize>) -> Seq<char> {
    heading_title() + heading_sections_text(idx, order, order.len() as int)
}

fn note_string(srcs: &Vec<String>) -> (r: String)
    ensures
        r@ == note_text(views(srcs@)),
{
    if srcs.len() > 1 {
        let sorted = sort_strings(srcs);
        let ghost sv = views(sorted@);
        let mut s = String::from_str("*(Present in versions: ");
        let ghost head = s@;
        let mut i: usize = 0;
        while i < sorted.len()
            invariant
                sv == views(sorted@),
                i <= sorted@.len(),
                s@ == head + join(sv.take(i as int), ", "@),
            decreases sorted@.len() - i,
        {
            if i > 0 {
                s.append(", ");
            }
            s.append(sorted[i].as_str());
            proof {
                assert(sv.take(i + 1).drop_last() =~= sv.take(i as int));
                if i == 0 {
                    assert(sv.take(1) =~= seq![sv[0]]);
                    assert(join(sv.take(0), ", "@) =~= Seq::<char>::empty());
                }
            }
            assert(s@ =~= head + join(sv.take(i + 1), ", "@));
            i += 1;
        }
        assert(sv.take(sorted@.len() as int) =~= sv);
        s.append(")*\n\n");
        s
    } else if srcs.len() == 1 {
        let mut s = String::from_str("*(From version: ");
        s.append(srcs[0].as_str());
        s.append(")*\n\n");
        s
    } else {
        String::from_str("\n")
    }
}

/// The merged-by-heading document: a title, then each section (by name,
/// `Uncategorized` last) with its items in their given order, each line
/// followed by a note of the versions that gave it.
pub fn generate_markdown_merged_headings(merged_sections: &SectionIndex<MergedHeadingItem>) -> (r: String)
    requires
        merged_sections.wf(),
    ensures
        exists|order: Seq<usize>|
            #![trigger heading_document(*merged_sections, order)]
            is_section_order(views(merged_sections.names@), order) && r@ == heading_document(
                *merged_sections,
                order,
            ),
{
    let m = merged_sections;
    let order = order_sections(&m.names);
    let mut s = String::from_str("# Aggregated Release Notes (Merged by Heading)\n\n");
    let mut k: usize = 0;
    while k < order.len()
        invariant
            m.wf(),
            is_section_order(views(m.names@), order@),
            k <= order@.len(),
            s@ == heading_title() + heading_sections_text(*m, order@, k as int),
        decreases order@.len() - k,
    {
        let idx = order[k];
        assert(idx < m.names@.len());
        let items = &m.lists[idx];
        let ghost iv = views(items@);
        let ghost start = s@;
        s.append("## ");
        s.append(m.names[idx].as_str());
        s.append("\n\n");
        let ghost head = s@;
        let mut i: usize = 0;
        while i < items.len()
            invariant
                iv == views(items@),
                i <= items@.len(),
                s@ == head + items_text(iv, i as int),
            decreases items@.len() - i,
        {
            s.append(items[i].content.as_str());
            s.append("\n");
            s.append(note_string(&items[i].sources).as_str());
            assert(s@ =~= head + items_text(iv, i + 1));
            i += 1;
        }
        s.append("\n");
        assert(s@ =~= heading_title() + heading_sections_text(*m, order@, k + 1));
        k += 1;
    }
    assert(s@ == heading_document(*m, order@));
    s
}

/// The lines of one version of a section.
#[derive(Clone, Debug)]
pub struct VersionGroup {
    pub version: String,
    pub date: Date,
    pub contents: Vec<String>,
}

impl View for VersionGroup {
    type V = (Seq<char>, Date, Seq<Seq<char>>);

    open spec fn view(&self) -> (Seq<char>, Date, Seq<Seq<char>>) {
        (self.version@, self.date, views(self.contents@))
    }
}

/// The items of section `n` among (section, line, version, date) records, in order.
pub open spec fn section_items(recs: Seq<(String, String, String, Date)>, n: Seq<char>) -> Seq<
    (Seq<char>, Seq<char>, Date),
>
    decreases recs.len(),
{
    if recs.len() == 0 {
        seq![]
    } else {
        section_items(recs.drop_last(), n) + if recs.last().0@ == n {
            seq![(recs.last().1@, recs.last().2@, recs.last().3)]
        } else {
            seq![]
        }
    }
}

/// The groups of a section's items: each (version, date) pair once, in order
/// of first appearance, with its lines.
pub open spec fn version_groups(items: Seq<(Seq<char>, Seq<char>, Date)>) -> Seq<(Seq<char>, Date, Seq<Seq<char>>)> {
    group_keys(items).map_values(|k: (Seq<char>, Date)| (k.0, k.1, group_members(items, k)))
}

/// Groups (section, line, version, date) records by section, then by
/// (version, date) pair, each in order of first appearance.
pub fn group_by_section_and_version(items: Vec<(String, String, String, Date)>) -> (r: SectionIndex<VersionGroup>)
    ensures
        r.describes(|n: Seq<char>| version_groups(section_items(items@, n))),
{
    let ghost recs = items@;
    let mut acc: SectionIndex<ReleaseNoteItem> = SectionIndex::new();
    let mut k: usize = 0;
    assert(acc.describes(|n: Seq<char>| section_items(recs.take(0), n)));
    while k < items.len()
        invariant
            recs == items@,
            k <= recs.len(),
            acc.describes(|n: Seq<char>| section_items(recs.take(k as int), n)),
        decreases recs.len() - k,
    {
        let rec = &items[k];
        assert(recs.take(k + 1).drop_last() =~= recs.take(k as int));
        let item = ReleaseNoteItem { content: rec.1.clone(), version: rec.2.clone(), date: rec.3 };
        let mut one: Vec<ReleaseNoteItem> = Vec::new();
        one.push(item);
        assert(views(one@) =~= seq![(rec.1@, rec.2@, rec.3)]);
        acc.add_items(
            rec.0.clone(),
            one,
            Ghost(|n: Seq<char>| section_items(recs.take(k as int), n)),
            Ghost(|n: Seq<char>| section_items(recs.take(k + 1), n)),
        );
        k += 1;
    }
    assert(recs.take(recs.len() as int) =~= recs);
    let mut names: Vec<String> = Vec::new();
    let mut lists: Vec<Vec<VersionGroup>> = Vec::new();
    let mut j: usize = 0;
    while j < acc.names.len()
        invariant
            acc.describes(|n: Seq<char>| section_items(recs, n)),
            j <= acc.names@.len(),
            names@.len() == j,
            lists@.len() == j,
            forall|a: int| 0 <= a < j ==> (#[trigger] names@[a])@ == acc.names@[a]@,
            forall|a: int|
                0 <= a < j ==> views(#[trigger] lists@[a]@) == version_groups(views(acc.lists@[a]@)),
        decreases acc.names@.len() - j,
    {
        let (vers, dates, groups) = group_by_version(&acc.lists[j]);
        let ghost iv = views(acc.lists@[j as int]@);
        let mut out: Vec<VersionGroup> = Vec::new();
        let mut g: usize = 0;
        while g < vers.len()
            invariant
                iv == views(acc.lists@[j as int]@),
                vers@.len() == group_keys(iv).len(),
                dates@.len() == vers@.len(),
                groups@.len() == vers@.len(),
                forall|q: int| 0 <= q < vers@.len() ==> (#[trigger] vers@[q])@ == group_keys(iv)[q].0
                    && dates@[q] == group_keys(iv)[q].1
                    && views(groups@[q]@) == group_members(iv, group_keys(iv)[q]),
                g <= vers@.len(),
                views(out@) == version_groups(iv).take(g as int),
            decreases vers@.len() - g,
        {
            let grp = VersionGroup { version: vers[g].clone(), date: dates[g], contents: copy_strings(&groups[g]) };
            proof {
                let key = group_keys(iv)[g as int];
                assert(key == (key.0, key.1));
                assert(grp@ == version_groups(iv)[g as int]);
            }
            let ghost before = out@;
            out.push(grp);
            assert(views(out@) =~= views(before).push(grp@));
            assert(views(out@) =~= version_groups(iv).take(g + 1));
            g += 1;
        }
        assert(views(out@) =~= version_groups(iv));
        names.push(acc.names[j].clone());
        lists.push(out);
        j += 1;
    }
    let r = SectionIndex { names, lists };
    proof {
        assert forall|a: int|
            0 <= a < r.names@.len() implies views(#[trigger] r.lists@[a]@) == version_groups(section_items(recs, r.names@[a]@))
                && version_groups(section_items(recs, r.names@[a]@)).len() > 0 by {
            assert(views(acc.lists@[a]@) == section_items(recs, acc.names@[a]@));
            lemma_group_keys_non_empty(section_items(recs, acc.names@[a]@));
        }
        assert forall|n: Seq<char>| #[trigger] version_groups(section_items(recs, n)).len() > 0 implies r.has_name(n) by {
            if section_items(recs, n).len() == 0 {
                assert(group_keys(section_items(recs, n)).len() == 0);
            }
            acc.lemma_has(|n: Seq<char>| section_items(recs, n), n);
            let a = choose|a: int| 0 <= a < acc.names@.len() && #[trigger] acc.names@[a]@ == n;
            assert(r.names@[a]@ == n);
        }
        assert forall|a: int, b: int|
            0 <= a < b < r.names@.len() implies #[trigger] r.names@[a]@ != #[trigger] r.names@[b]@ by {
            assert(acc.names@[a]@ != acc.names@[b]@);
        }
        r.lemma_describes(|n: Seq<char>| version_groups(section_items(recs, n)));
    }
    r
}

proof fn lemma_group_keys_non_empty(items: Seq<(Seq<char>, Seq<char>, Date)>)
    requires
        items.len() > 0,
    ensures
        group_keys(items).len() > 0,
{
    let k = group_keys(items.drop_last());
    let key = (items.last().1, items.last().2);
    if k.contains(key) {
        let i = choose|i: int| 0 <= i < k.len() && k[i] == key;
    }
}

/// A copy of a list of texts.
fn copy_strings(v: &Vec<String>) -> (r: Vec<String>)
    ensures
        views(r@) == views(v@),
{
    let mut out: Vec<String> = Vec::new();
    let mut i: usize = 0;
    while i < v.len()
        invariant
            i <= v@.len(),
            views(out@) == views(v@).take(i as int),
        decreases v@.len() - i,
    {
        let ghost before = out@;
        let c = v[i].clone();
        assert(c@ == v@[i as int]@);
        out.push(c);
        assert(views(out@) =~= views(before).push(c@));
        assert(views(out@) =~= views(v@).take(i + 1));
        i += 1;
    }
    assert(views(v@).take(v@.len() as int) =~= views(v@));
    out
}

} // verus!
