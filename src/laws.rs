//! Laws of the library that relate several of its functions or speak of all inputs.

use vstd::prelude::*;
use crate::index::{SectionIndex, views};
use crate::sections::{
    content_upto, hash_end, heading_level, heading_text, is_content, is_heading, section_at,
    section_lines, uncategorized, lemma_content_upto_empty, lemma_content_upto_prefix,
    lemma_leading_content,
};
use crate::text::{is_blank, lemma_lines_concat, lemma_one_line, lines_of, plain_line};
use crate::render::{
    group_text, heading_document, heading_section_text, heading_sections_text, heading_title,
    is_section_order, lines_text, name_before, version_document, version_section_text,
    version_sections_text, version_title,
};
use crate::version::lemma_lex_cmp_antisym;
use vstd::set_lib::{lemma_int_range, lemma_len_subset, set_int_range};
use crate::release::{Date, Release, decimal_text, digit_char, iso_date, padded, year_text, zeros};
use crate::select::{first_tag, lemma_tag_pos, range_selection};
use crate::merge::{MergedHeadingItem, ReleaseNoteItem, distinct_count, item_before, support_sorted};

verus! {

/// A body whose every line is a heading or blank has no section: every
/// section's list is empty, so the index that `parse_release_notes` returns
/// has no name.
pub proof fn headings_only_body_has_no_sections(body: Seq<char>)
    requires
        forall|i: int|
            0 <= i < lines_of(body).len() ==> is_heading(#[trigger] lines_of(body)[i]) || is_blank(
                lines_of(body)[i],
            ),
    ensures
        forall|n: Seq<char>| #[trigger] section_lines(body, n).len() == 0,
        forall|r: SectionIndex<String>|
            r.describes(|n: Seq<char>| section_lines(body, n)) ==> #[trigger] r.names@.len() == 0,
{
    let ls = lines_of(body);
    assert forall|n: Seq<char>| #[trigger] section_lines(body, n).len() == 0 by {
        assert forall|i: int| 0 <= i < ls.len() implies !(is_content(#[trigger] ls[i])
            && section_at(ls, i) == n) by {}
        lemma_content_upto_empty(ls, n, ls.len() as int);
    }
    assert forall|r: SectionIndex<String>|
        r.describes(|n: Seq<char>| section_lines(body, n)) implies #[trigger] r.names@.len()
        == 0 by {
        if r.names@.len() > 0 {
            r.lemma_listed(|n: Seq<char>| section_lines(body, n), 0);
            assert(section_lines(body, r.names@[0]@).len() == 0);
        }
    }
}

/// The non-blank lines before the first heading of a body (the first `k`
/// lines, none of them a heading) open its `Uncategorized` section, in order.
pub proof fn leading_content_is_uncategorized(body: Seq<char>, k: int)
    requires
        0 <= k <= lines_of(body).len(),
        forall|i: int| 0 <= i < k ==> !is_heading(#[trigger] lines_of(body)[i]),
    ensures
        lines_of(body).take(k).filter(|l: Seq<char>| !is_blank(l)).is_prefix_of(
            section_lines(body, uncategorized()),
        ),
{
    let ls = lines_of(body);
    lemma_leading_content(ls, k, k);
    lemma_content_upto_prefix(ls, uncategorized(), k, ls.len() as int);
}

/// In the order in which sections are rendered, no section but the last is
/// named `Uncategorized`, and a section so named is the last: it comes after
/// every other section, whatever its name (a section named `Zeta` too).
pub proof fn uncategorized_renders_last(names: Seq<Seq<char>>, order: Seq<usize>)
    requires
        is_section_order(names, order),
    ensures
        forall|q: int| 0 <= q < order.len() - 1 ==> names[#[trigger] order[q] as int] != uncategorized(),
        forall|u: int|
            0 <= u < names.len() && #[trigger] names[u] == uncategorized() ==> order[order.len() - 1] == u,
{
    assert forall|q: int| 0 <= q < order.len() - 1 implies names[#[trigger] order[q] as int] != uncategorized() by {
        assert(name_before(names[order[q] as int], names[order[order.len() - 1] as int]));
    }
    assert forall|u: int|
        0 <= u < names.len() && #[trigger] names[u] == uncategorized() implies order[order.len() - 1] == u by {
        lemma_order_covers(names, order, u);
        let q = choose|q: int| 0 <= q < order.len() && order[q] == u;
        if q < order.len() - 1 {
            assert(names[order[q] as int] != uncategorized());
        }
    }
}

/// A section order lists every position of the names.
pub proof fn lemma_order_covers(names: Seq<Seq<char>>, order: Seq<usize>, u: int)
    requires
        is_section_order(names, order),
        0 <= u < names.len(),
    ensures
        exists|q: int| 0 <= q < order.len() && order[q] == u,
{
    let o = order.map_values(|x: usize| x as int);
    assert forall|a: int, b: int| 0 <= a < o.len() && 0 <= b < o.len() && a != b implies o[a] != o[b] by {
        let (i, j) = if a < b { (a, b) } else { (b, a) };
        assert(name_before(names[order[i] as int], names[order[j] as int]));
        lemma_lex_cmp_antisym(names[order[i] as int], names[order[i] as int]);
    }
    assert(o.no_duplicates());
    o.unique_seq_to_set();
    if !(exists|q: int| 0 <= q < order.len() && order[q] == u) {
        let range = set_int_range(0, names.len() as int);
        lemma_int_range(0, names.len() as int);
        assert(o.to_set().subset_of(range.remove(u))) by {
            assert forall|x: int| o.to_set().contains(x) implies range.remove(u).contains(x) by {
                let q = choose|q: int| 0 <= q < o.len() && o[q] == x;
                assert(order[q] < names.len());
            }
        }
        lemma_len_subset(o.to_set(), range.remove(u));
        assert(range.contains(u));
    }
}

/// Where a section is named `Uncategorized`, the version-separated document
/// ends with that section's block, after every other section.
pub proof fn version_document_ends_with_uncategorized(
    idx: SectionIndex<ReleaseNoteItem>,
    order: Seq<usize>,
    group_orders: Seq<Seq<usize>>,
    u: int,
)
    requires
        is_section_order(views(idx.names@), order),
        0 <= u < idx.names@.len(),
        idx.names@[u]@ == uncategorized(),
    ensures
        version_document(idx, order, group_orders) == version_title() + version_sections_text(
            idx,
            order,
            group_orders,
            order.len() - 1,
        ) + version_section_text(uncategorized(), views(idx.lists@[u]@), group_orders[order.len() - 1]),
{
    assert(views(idx.names@)[u] == uncategorized());
    uncategorized_renders_last(views(idx.names@), order);
    assert(order.len() > 0) by {
        lemma_order_covers(views(idx.names@), order, u);
    }
    assert(order[order.len() - 1] == u);
}

/// Where a section is named `Uncategorized`, the merged-by-heading document
/// ends with that section's block, after every other section.
pub proof fn heading_document_ends_with_uncategorized(
    idx: SectionIndex<MergedHeadingItem>,
    order: Seq<usize>,
    u: int,
)
    requires
        is_section_order(views(idx.names@), order),
        0 <= u < idx.names@.len(),
        idx.names@[u]@ == uncategorized(),
    ensures
        heading_document(idx, order) == heading_title() + heading_sections_text(idx, order, order.len() - 1)
            + heading_section_text(uncategorized(), views(idx.lists@[u]@)),
{
    assert(views(idx.names@)[u] == uncategorized());
    uncategorized_renders_last(views(idx.names@), order);
    assert(order.len() > 0) by {
        lemma_order_covers(views(idx.names@), order, u);
    }
    assert(order[order.len() - 1] == u);
    assert(heading_title() + (heading_sections_text(idx, order, order.len() - 1) + heading_section_text(
        uncategorized(),
        views(idx.lists@[u]@),
    )) =~= heading_title() + heading_sections_text(idx, order, order.len() - 1) + heading_section_text(
        uncategorized(),
        views(idx.lists@[u]@),
    ));
}

proof fn lemma_lines_text(ls: Seq<Seq<char>>)
    requires
        forall|i: int| 0 <= i < ls.len() ==> plain_line(#[trigger] ls[i]),
    ensures
        lines_of(lines_text(ls)) == ls,
        ls.len() > 0 ==> lines_text(ls).len() > 0 && lines_text(ls).last() == '\n',
    decreases ls.len(),
{
    reveal_strlit("\n");
    if ls.len() > 0 {
        let init = ls.drop_last();
        lemma_lines_text(init);
        let tail = ls.last().push('\n');
        assert(ls.last() + "\n"@ =~= tail);
        assert(lines_text(ls) =~= lines_text(init) + tail);
        lemma_one_line(ls.last());
        if init.len() > 0 {
            lemma_lines_concat(lines_text(init), tail);
        } else {
            assert(lines_text(init) + tail =~= tail);
            assert(lines_of(lines_text(init)) =~= Seq::<Seq<char>>::empty());
        }
        assert(init.push(ls.last()) =~= ls);
    } else {
        assert(lines_of(Seq::<char>::empty()) =~= Seq::<Seq<char>>::empty());
    }
}

/// The heading line of a version block, without its closing parenthesis.
pub open spec fn block_heading_start(key: (Seq<char>, Date)) -> Seq<char> {
    "### "@ + key.0 + " ("@ + iso_date(key.1)
}

proof fn lemma_block_lines(key: (Seq<char>, Date), ls: Seq<Seq<char>>)
    requires
        forall|i: int| 0 <= i < block_heading_start(key).len() ==> #[trigger] block_heading_start(key)[i] != '\n',
        forall|i: int| 0 <= i < ls.len() ==> plain_line(#[trigger] ls[i]),
    ensures
        lines_of(group_text(key, ls)) == seq![block_heading_start(key).push(')'), Seq::<char>::empty()] + ls
            + seq![Seq::<char>::empty()],
{
    reveal_strlit("\n");
    reveal_strlit(")\n\n");
    let h = block_heading_start(key).push(')');
    let a1 = h.push('\n');
    let a2 = seq!['\n'];
    let a3 = lines_text(ls);
    assert(group_text(key, ls) =~= a1 + (a2 + (a3 + a2)));
    assert(plain_line(h)) by {
        assert forall|i: int| 0 <= i < h.len() implies #[trigger] h[i] != '\n' by {
            if i < h.len() - 1 {
                assert(h[i] == block_heading_start(key)[i]);
            }
        }
    }
    lemma_one_line(h);
    lemma_one_line(Seq::<char>::empty());
    assert(Seq::<char>::empty().push('\n') =~= a2);
    lemma_lines_text(ls);
    lemma_lines_concat(a1, a2 + (a3 + a2));
    lemma_lines_concat(a2, a3 + a2);
    if ls.len() > 0 {
        lemma_lines_concat(a3, a2);
    } else {
        assert(a3 + a2 =~= a2);
    }
    assert(seq![h] + (seq![Seq::<char>::empty()] + (ls + seq![Seq::<char>::empty()])) =~= seq![
        h,
        Seq::<char>::empty(),
    ] + ls + seq![Seq::<char>::empty()]);
}

proof fn lemma_block_heading(key: (Seq<char>, Date))
    ensures
        is_heading(block_heading_start(key).push(')')),
{
    reveal_strlit("### ");
    reveal_strlit(" (");
    let h = block_heading_start(key).push(')');
    assert(h[0] == '#' && h[1] == '#' && h[2] == '#' && h[3] == ' ');
    assert(hash_end(h, 3) == 3);
    assert(hash_end(h, 2) == 3);
    assert(hash_end(h, 1) == 3);
    assert(hash_end(h, 0) == 3);
    assert(heading_level(h) == 3);
}

proof fn lemma_block_sections(ls2: Seq<Seq<char>>, ls: Seq<Seq<char>>, name: Seq<char>, k: int)
    requires
        ls2.len() == ls.len() + 3,
        is_heading(ls2[0]),
        heading_text(ls2[0]) == name,
        ls2[1] == Seq::<char>::empty(),
        ls2[ls2.len() - 1] == Seq::<char>::empty(),
        forall|i: int| 0 <= i < ls.len() ==> ls2[i + 2] == #[trigger] ls[i] && is_content(ls[i]),
        1 <= k <= ls2.len(),
    ensures
        section_at(ls2, k) == name,
        content_upto(ls2, name, k) == ls.take(if k <= 2 { 0 } else if k - 2 <= ls.len() { k - 2 } else { ls.len() as int }),
    decreases k,
{
    assert(!is_heading(Seq::<char>::empty())) by {
        assert(hash_end(Seq::<char>::empty(), 0) == 0);
    }
    assert(!is_content(ls2[0]));
    assert(!is_content(Seq::<char>::empty()));
    if k == 1 {
        assert(content_upto(ls2, name, 0) == Seq::<Seq<char>>::empty());
        assert(ls.take(0) =~= Seq::<Seq<char>>::empty());
    } else {
        lemma_block_sections(ls2, ls, name, k - 1);
        if k - 1 >= 2 && k - 1 < ls2.len() - 1 {
            assert(ls2[k - 1] == ls[k - 3]);
            assert(ls.take(k - 2) =~= ls.take(k - 3).push(ls[k - 3]));
        } else if k == 2 {
            assert(ls2[1] == Seq::<char>::empty());
        }
    }
}

/// Re-parsing a rendered version block gives back its lines under the
/// block's heading, where each line is content (no heading, not blank) with
/// no line break and no final carriage return, and the version holds no line
/// break.
pub proof fn version_block_round_trip(key: (Seq<char>, Date), ls: Seq<Seq<char>>)
    requires
        no_break(key.0),
        forall|i: int| 0 <= i < ls.len() ==> plain_line(#[trigger] ls[i]) && is_content(ls[i]),
    ensures
        section_lines(group_text(key, ls), heading_text(block_heading_start(key).push(')'))) == ls,
{
    let h = block_heading_start(key).push(')');
    let ls2 = seq![h, Seq::<char>::empty()] + ls + seq![Seq::<char>::empty()];
    block_heading_has_no_break(key);
    lemma_block_lines(key, ls);
    lemma_block_heading(key);
    assert forall|i: int| 0 <= i < ls.len() implies ls2[i + 2] == #[trigger] ls[i] && is_content(ls[i]) by {}
    lemma_block_sections(ls2, ls, heading_text(h), ls2.len() as int);
    assert(ls.take(ls.len() as int) =~= ls);
}

/// A range whose start and end are the same present tag selects exactly one
/// record: the first with that tag.
pub proof fn same_tag_range_is_one_record(rs: Seq<Release>, t: Seq<char>)
    requires
        first_tag(rs, t) is Some,
    ensures
        range_selection(rs, Some(t), Some(t)) == Ok::<Seq<Release>, Seq<char>>(seq![rs[first_tag(rs, t)->0]]),
{
    lemma_tag_pos(rs, t, 0);
    let a = first_tag(rs, t)->0;
    assert(rs.subrange(a, a + 1) =~= seq![rs[a]]);
}

/// In a section merged by heading, an item given by more distinct versions
/// is listed before every item given by fewer.
pub proof fn more_sources_listed_first(items: Seq<(Seq<char>, Seq<Seq<char>>)>)
    requires
        support_sorted(items),
    ensures
        forall|a: int, b: int|
            0 <= a < items.len() && 0 <= b < items.len() && distinct_count(#[trigger] items[a].1)
                > distinct_count(#[trigger] items[b].1) ==> a < b,
{
    assert forall|a: int, b: int|
        0 <= a < items.len() && 0 <= b < items.len() && distinct_count(#[trigger] items[a].1)
            > distinct_count(#[trigger] items[b].1) implies a < b by {
        if b < a {
            assert(item_before(items[b], items[a]));
        }
    }
}

/// No character of `s` is a line break.
pub open spec fn no_break(s: Seq<char>) -> bool {
    forall|i: int| 0 <= i < s.len() ==> #[trigger] s[i] != '\n'
}

proof fn lemma_no_break_concat(a: Seq<char>, b: Seq<char>)
    requires
        no_break(a),
        no_break(b),
    ensures
        no_break(a + b),
{
    assert forall|i: int| 0 <= i < (a + b).len() implies #[trigger] (a + b)[i] != '\n' by {
        if i >= a.len() {
            assert((a + b)[i] == b[i - a.len()]);
        }
    }
}

proof fn lemma_decimal_no_break(v: nat)
    ensures
        no_break(decimal_text(v)),
    decreases v,
{
    if v >= 10 {
        lemma_decimal_no_break(v / 10);
        let d = digit_char((v % 10) as int);
        assert((((v % 10) as int + 48) as u32) != 10u32);
        lemma_no_break_concat(decimal_text(v / 10), seq![d]);
        assert(decimal_text(v / 10).push(d) =~= decimal_text(v / 10) + seq![d]);
    } else {
        assert(((v as int + 48) as u32) != 10u32);
    }
}

proof fn lemma_padded_no_break(v: nat, w: int)
    ensures
        no_break(padded(v, w)),
{
    lemma_decimal_no_break(v);
    lemma_no_break_concat(zeros(w - decimal_text(v).len()), decimal_text(v));
}

/// A date written as `YYYY-MM-DD` holds no line break.
pub proof fn iso_date_has_no_break(d: Date)
    ensures
        no_break(iso_date(d)),
{
    let y = d.year as int;
    if 0 <= y <= 9999 {
        lemma_padded_no_break(y as nat, 4);
    } else if y > 9999 {
        lemma_decimal_no_break(y as nat);
        lemma_no_break_concat(seq!['+'], decimal_text(y as nat));
    } else {
        lemma_padded_no_break((-y) as nat, 4);
        lemma_no_break_concat(seq!['-'], padded((-y) as nat, 4));
    }
    let dash = seq!['-'];
    lemma_padded_no_break(d.month as nat, 2);
    lemma_padded_no_break(d.day as nat, 2);
    lemma_no_break_concat(year_text(y), dash);
    lemma_no_break_concat(year_text(y) + dash, padded(d.month as nat, 2));
    lemma_no_break_concat(year_text(y) + dash + padded(d.month as nat, 2), dash);
    lemma_no_break_concat(year_text(y) + dash + padded(d.month as nat, 2) + dash, padded(d.day as nat, 2));
}

/// The heading line of a version block holds no line break where the
/// version holds none.
pub proof fn block_heading_has_no_break(key: (Seq<char>, Date))
    requires
        no_break(key.0),
    ensures
        no_break(block_heading_start(key)),
{
    reveal_strlit("### ");
    reveal_strlit(" (");
    iso_date_has_no_break(key.1);
    lemma_no_break_concat("### "@, key.0);
    lemma_no_break_concat("### "@ + key.0, " ("@);
    lemma_no_break_concat("### "@ + key.0 + " ("@, iso_date(key.1));
}

} // verus!
