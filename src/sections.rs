//! Splitting a release body into sections named by its markdown headings.

use vstd::prelude::*;
use crate::index::{SectionIndex, views};
use crate::text::{is_blank, is_blank_str, is_ws, is_ws_char, lines_of, split_lines, trim, trim_str};

verus! {

/// The name of the section that holds what comes before any heading.
pub open spec fn uncategorized() -> Seq<char> {
    "Uncategorized"@
}

/// The name of the section that holds what comes before any heading.
pub fn uncategorized_name() -> (r: String)
    ensures
        r@ == uncategorized(),
{
    String::from_str("Uncategorized")
}

/// The first position at or after `i` that holds no `#`.
pub open spec fn hash_end(s: Seq<char>, i: nat) -> nat
    decreases s.len() - i,
{
    if i < s.len() && s[i as int] == '#' {
        hash_end(s, i + 1)
    } else {
        i
    }
}

/// The depth of a heading line: its leading `#` characters, which a
/// whitespace character and at least one more character follow; 0 for a
/// line of another shape.
pub open spec fn heading_level(l: Seq<char>) -> nat {
    let h = hash_end(l, 0);
    if h >= 1 && h + 2 <= l.len() && is_ws(l[h as int]) {
        h
    } else {
        0
    }
}

/// The name that a heading line gives its section: what follows the `#`
/// characters, trimmed.
pub open spec fn heading_text(l: Seq<char>) -> Seq<char> {
    trim(l.subrange(hash_end(l, 0) as int, l.len() as int))
}

/// A heading of depth one to six.
pub open spec fn is_heading(l: Seq<char>) -> bool {
    1 <= heading_level(l) <= 6
}

/// A line that a section keeps: neither a heading nor blank.
pub open spec fn is_content(l: Seq<char>) -> bool {
    !is_heading(l) && !is_blank(l)
}

/// The section that line `i` falls under: the last heading before it, or
/// `Uncategorized`.
pub open spec fn section_at(ls: Seq<Seq<char>>, i: int) -> Seq<char>
    decreases i,
{
    if i <= 0 {
        uncategorized()
    } else if is_heading(ls[i - 1]) {
        heading_text(ls[i - 1])
    } else {
        section_at(ls, i - 1)
    }
}

/// The content lines among the first `k` that fall under section `n`, in order.
pub open spec fn content_upto(ls: Seq<Seq<char>>, n: Seq<char>, k: int) -> Seq<Seq<char>>
    decreases k,
{
    if k <= 0 {
        seq![]
    } else {
        content_upto(ls, n, k - 1) + if is_content(ls[k - 1]) && section_at(ls, k - 1) == n {
            seq![ls[k - 1]]
        } else {
            seq![]
        }
    }
}

/// The lines of `body` that section `n` holds.
pub open spec fn section_lines(body: Seq<char>, n: Seq<char>) -> Seq<Seq<char>> {
    content_upto(lines_of(body), n, lines_of(body).len() as int)
}

fn hash_end_exec(s: &str) -> (r: usize)
    ensures
        r == hash_end(s@, 0),
        r <= s@.len(),
{
    let n = s.unicode_len();
    let mut j: usize = 0;
    while j < n && s.get_char(j) == '#'
        invariant
            n == s@.len(),
            j <= n,
            hash_end(s@, j as nat) == hash_end(s@, 0),
        decreases n - j,
    {
        j += 1;
    }
    j
}

/// The depth and name of a heading line; `None` for a line of another shape.
pub fn heading_of(line: &str) -> (r: Option<(usize, String)>)
    ensures
        r is None <==> heading_level(line@) == 0,
        r matches Some(p) ==> p.0 == heading_level(line@) && p.1@ == heading_text(line@),
{
    let n = line.unicode_len();
    let h = hash_end_exec(line);
    if h >= 1 && h < n && n - h >= 2 && is_ws_char(line.get_char(h)) {
        Some((h, trim_str(line.substring_char(h, n))))
    } else {
        None
    }
}

/// The position of `name` among `names`.
pub fn find_name(names: &Vec<String>, name: &String) -> (r: Option<usize>)
    ensures
        r matches Some(i) ==> i < names@.len() && names@[i as int]@ == name@,
        r is None ==> forall|a: int| 0 <= a < names@.len() ==> (#[trigger] names@[a])@ != name@,
{
    let mut j: usize = 0;
    while j < names.len()
        invariant
            j <= names@.len(),
            forall|a: int| 0 <= a < j ==> (#[trigger] names@[a])@ != name@,
        decreases names@.len() - j,
    {
        if names[j] == *name {
            return Some(j);
        }
        j += 1;
    }
    None
}

pub proof fn lemma_content_upto_empty(ls: Seq<Seq<char>>, n: Seq<char>, k: int)
    requires
        forall|i: int| 0 <= i < k ==> !(is_content(#[trigger] ls[i]) && section_at(ls, i) == n),
    ensures
        content_upto(ls, n, k) == Seq::<Seq<char>>::empty(),
    decreases k,
{
    if k > 0 {
        lemma_content_upto_empty(ls, n, k - 1);
    }
}

/// Splits a release body into sections. Each heading of depth one to six
/// starts the section that its text names; lines before any heading fall
/// under `Uncategorized`. Blank lines and heading lines are dropped; a
/// section with no line left is not listed.
pub fn parse_release_notes(body: &str) -> (r: SectionIndex<String>)
    ensures
        r.describes(|n: Seq<char>| section_lines(body@, n)),
{
    let lines = split_lines(body);
    let ghost ls = lines_of(body@);
    assert(views(lines@) =~= ls);
    let count = lines.len();
    // The section of each line, and which lines are content.
    let mut owners: Vec<String> = Vec::new();
    let mut content: Vec<bool> = Vec::new();
    let mut cur = uncategorized_name();
    let mut i: usize = 0;
    while i < count
        invariant
            count == lines@.len(),
            ls == views(lines@),
            i <= count,
            owners@.len() == i,
            content@.len() == i,
            cur@ == section_at(ls, i as int),
            forall|k: int| 0 <= k < i ==> (#[trigger] owners@[k])@ == section_at(ls, k),
            forall|k: int| 0 <= k < i ==> #[trigger] content@[k] == is_content(ls[k]),
        decreases count - i,
    {
        let line = lines[i].as_str();
        assert(line@ == ls[i as int]);
        owners.push(cur.clone());
        match heading_of(line) {
            Some((level, name)) if level <= 6 => {
                content.push(false);
                cur = name;
            },
            _ => {
                content.push(!is_blank_str(line));
            },
        }
        i += 1;
    }
    // The names with content, in the order of their first line.
    let mut names: Vec<String> = Vec::new();
    let mut i: usize = 0;
    while i < count
        invariant
            count == lines@.len(),
            ls == views(lines@),
            i <= count,
            owners@.len() == count,
            content@.len() == count,
            forall|k: int| 0 <= k < count ==> (#[trigger] owners@[k])@ == section_at(ls, k),
            forall|k: int| 0 <= k < count ==> #[trigger] content@[k] == is_content(ls[k]),
            forall|a: int, b: int|
                0 <= a < b < names@.len() ==> #[trigger] names@[a]@ != #[trigger] names@[b]@,
            forall|a: int|
                0 <= a < names@.len() ==> content_upto(ls, (#[trigger] names@[a])@, i as int).len()
                    > 0,
            forall|n: Seq<char>|
                #[trigger] content_upto(ls, n, i as int).len() > 0 ==> exists|a: int|
                    0 <= a < names@.len() && #[trigger] names@[a]@ == n,
        decreases count - i,
    {
        assert(forall|n: Seq<char>|
            #[trigger] content_upto(ls, n, i + 1) == content_upto(ls, n, i as int) + if is_content(
                ls[i as int],
            ) && section_at(ls, i as int) == n {
                seq![ls[i as int]]
            } else {
                seq![]
            });
        let ghost old_names = names@;
        if content[i] {
            let found = find_name(&names, &owners[i]).is_some();
            if !found {
                names.push(owners[i].clone());
                assert(names@[names@.len() - 1]@ == section_at(ls, i as int));
            }
        }
        proof {
            assert forall|n: Seq<char>| #[trigger]
                content_upto(ls, n, i + 1).len() > 0 implies exists|a: int|
                0 <= a < names@.len() && #[trigger] names@[a]@ == n by {
                if content_upto(ls, n, i as int).len() > 0 {
                    let a = choose|a: int| 0 <= a < old_names.len() && #[trigger] old_names[a]@ == n;
                    assert(names@[a] == old_names[a]);
                } else {
                    assert(content@[i as int] && section_at(ls, i as int) == n);
                    assert(owners@[i as int]@ == n);
                }
            }
        }
        i += 1;
    }
    // The lines of each name.
    let mut lists: Vec<Vec<String>> = Vec::new();
    let mut j: usize = 0;
    while j < names.len()
        invariant
            count == lines@.len(),
            ls == views(lines@),
            ls == lines_of(body@),
            owners@.len() == count,
            content@.len() == count,
            forall|k: int| 0 <= k < count ==> (#[trigger] owners@[k])@ == section_at(ls, k),
            forall|k: int| 0 <= k < count ==> #[trigger] content@[k] == is_content(ls[k]),
            j <= names@.len(),
            lists@.len() == j,
            forall|a: int, b: int|
                0 <= a < b < names@.len() ==> #[trigger] names@[a]@ != #[trigger] names@[b]@,
            forall|a: int|
                0 <= a < names@.len() ==> content_upto(ls, (#[trigger] names@[a])@, count as int).len()
                    > 0,
            forall|n: Seq<char>|
                #[trigger] content_upto(ls, n, count as int).len() > 0 ==> exists|a: int|
                    0 <= a < names@.len() && #[trigger] names@[a]@ == n,
            forall|a: int|
                0 <= a < j ==> views((#[trigger] lists@[a])@) == content_upto(
                    ls,
                    names@[a]@,
                    count as int,
                ),
        decreases names@.len() - j,
    {
        let mut acc: Vec<String> = Vec::new();
        let mut i: usize = 0;
        while i < count
            invariant
                count == lines@.len(),
                ls == views(lines@),
                owners@.len() == count,
                content@.len() == count,
                forall|k: int| 0 <= k < count ==> (#[trigger] owners@[k])@ == section_at(ls, k),
                forall|k: int| 0 <= k < count ==> #[trigger] content@[k] == is_content(ls[k]),
                j < names@.len(),
                i <= count,
                views(acc@) == content_upto(ls, names@[j as int]@, i as int),
            decreases count - i,
        {
            if content[i] && owners[i] == names[j] {
                acc.push(lines[i].clone());
            }
            assert(views(acc@) =~= content_upto(ls, names@[j as int]@, i + 1));
            i += 1;
        }
        lists.push(acc);
        j += 1;
    }
    let r = SectionIndex { names, lists };
    proof {
        assert forall|a: int|
            0 <= a < r.names@.len() implies views(#[trigger] r.lists@[a]@) == section_lines(body@, r.names@[a]@)
                && section_lines(body@, r.names@[a]@).len() > 0 by {
            assert(content_upto(ls, r.names@[a]@, count as int).len() > 0);
            assert(views(r.lists@[a]@) == content_upto(ls, r.names@[a]@, count as int));
        }
        assert forall|n: Seq<char>| #[trigger] section_lines(body@, n).len() > 0 implies r.has_name(n) by {
            assert(content_upto(ls, n, count as int).len() > 0);
            let a = choose|a: int| 0 <= a < names@.len() && #[trigger] names@[a]@ == n;
            assert(r.names@[a]@ == n);
        }
        r.lemma_describes(|n: Seq<char>| section_lines(body@, n));
    }
    r
}

/// What the two-level extractor holds after the first `k` lines: the
/// sections closed so far (a later section of the same name replaces an
/// earlier one), the open section's name, and its lines.
pub open spec fn shallow_state(ls: Seq<Seq<char>>, k: int) -> (Map<Seq<char>, Seq<Seq<char>>>, Seq<char>, Seq<Seq<char>>)
    decreases k,
{
    if k <= 0 {
        (Map::empty(), uncategorized(), seq![])
    } else {
        let prev = shallow_state(ls, k - 1);
        let l = ls[k - 1];
        if 1 <= heading_level(l) <= 2 {
            (if prev.2.len() > 0 { prev.0.insert(prev.1, prev.2) } else { prev.0 }, heading_text(l), seq![])
        } else {
            (prev.0, prev.1, prev.2.push(l))
        }
    }
}

/// The sections closed so far, with the open one closed too if it has lines.
pub open spec fn shallow_closed(ls: Seq<Seq<char>>, k: int) -> Map<Seq<char>, Seq<Seq<char>>> {
    let st = shallow_state(ls, k);
    if st.2.len() > 0 {
        st.0.insert(st.1, st.2)
    } else {
        st.0
    }
}

/// The lines of a map entry, empty where there is none.
pub open spec fn entry_lines(m: Map<Seq<char>, Seq<Seq<char>>>, n: Seq<char>) -> Seq<Seq<char>> {
    if m.contains_key(n) {
        m[n]
    } else {
        seq![]
    }
}

/// The lines that the two-level extractor gives section `n` of `body`.
pub open spec fn shallow_lines(body: Seq<char>, n: Seq<char>) -> Seq<Seq<char>> {
    entry_lines(shallow_closed(lines_of(body), lines_of(body).len() as int), n)
}

/// Every entry of the map has at least one line.
pub open spec fn entries_non_empty(m: Map<Seq<char>, Seq<Seq<char>>>) -> bool {
    forall|n: Seq<char>| #[trigger] m.contains_key(n) ==> m[n].len() > 0
}

proof fn lemma_shallow_non_empty(ls: Seq<Seq<char>>, k: int)
    requires
        0 <= k <= ls.len(),
    ensures
        entries_non_empty(shallow_state(ls, k).0),
    decreases k,
{
    if k > 0 {
        lemma_shallow_non_empty(ls, k - 1);
    }
}

/// Splits a body into sections at headings of depth one or two only: a
/// deeper heading stays in its section as a line, blank lines are kept, and
/// a later section of the same name replaces an earlier one.
pub fn extract_sections(content: &str) -> (r: SectionIndex<String>)
    ensures
        r.describes(|n: Seq<char>| shallow_lines(content@, n)),
{
    let lines = split_lines(content);
    let ghost ls = lines_of(content@);
    assert(views(lines@) =~= ls);
    let mut acc: SectionIndex<String> = SectionIndex::new();
    let mut current = uncategorized_name();
    let mut block: Vec<String> = Vec::new();
    let mut k: usize = 0;
    assert(acc.describes(|n: Seq<char>| entry_lines(shallow_state(ls, 0).0, n))) by {
        assert forall|n: Seq<char>| #[trigger] entry_lines(shallow_state(ls, 0).0, n).len() > 0 implies acc.has_name(n) by {}
    }
    while k < lines.len()
        invariant
            ls == views(lines@),
            k <= lines@.len(),
            acc.describes(|n: Seq<char>| entry_lines(shallow_state(ls, k as int).0, n)),
            current@ == shallow_state(ls, k as int).1,
            views(block@) == shallow_state(ls, k as int).2,
        decreases lines@.len() - k,
    {
        let line = lines[k].as_str();
        assert(line@ == ls[k as int]);
        proof {
            lemma_shallow_non_empty(ls, k as int);
        }
        match heading_of(line) {
            Some((level, name)) if level <= 2 => {
                if block.len() > 0 {
                    let ghost st = shallow_state(ls, k as int);
                    acc.put(
                        current,
                        block,
                        Ghost(|n: Seq<char>| entry_lines(st.0, n)),
                        Ghost(|n: Seq<char>| entry_lines(shallow_state(ls, k as int + 1).0, n)),
                    );
                } else {
                    proof {
                        let st = shallow_state(ls, k as int);
                        acc.lemma_same_describes(
                            |n: Seq<char>| entry_lines(st.0, n),
                            |n: Seq<char>| entry_lines(shallow_state(ls, k as int + 1).0, n),
                        );
                    }
                }
                current = name;
                block = Vec::new();
                assert(views(block@) =~= shallow_state(ls, k as int + 1).2);
            },
            _ => {
                let ghost before = block@;
                block.push(lines[k].clone());
                assert(views(block@) =~= views(before).push(ls[k as int]));
                proof {
                    let st = shallow_state(ls, k as int);
                    acc.lemma_same_describes(
                        |n: Seq<char>| entry_lines(st.0, n),
                        |n: Seq<char>| entry_lines(shallow_state(ls, k as int + 1).0, n),
                    );
                }
            },
        }
        k += 1;
    }
    proof {
        lemma_shallow_non_empty(ls, ls.len() as int);
    }
    if block.len() > 0 {
        let ghost st = shallow_state(ls, ls.len() as int);
        acc.put(
            current,
            block,
            Ghost(|n: Seq<char>| entry_lines(st.0, n)),
            Ghost(|n: Seq<char>| shallow_lines(content@, n)),
        );
    } else {
        proof {
            let st = shallow_state(ls, ls.len() as int);
            acc.lemma_same_describes(
                |n: Seq<char>| entry_lines(st.0, n),
                |n: Seq<char>| shallow_lines(content@, n),
            );
        }
    }
    acc
}

/// What `str::to_lowercase` makes of a text.
pub uninterp spec fn lower_of(s: Seq<char>) -> Seq<char>;

/// Relies on `str::to_lowercase`: the result depends on the characters alone.
#[verifier::external_body]
fn lowercase(s: &str) -> (r: String)
    ensures
        r@ == lower_of(s@),
{
    s.to_lowercase()
}

/// A section name for matching: trimmed, then in lower case.
pub fn normalize_section_name(name: &str) -> (r: String)
    ensures
        r@ == lower_of(trim(name@)),
{
    let t = trim_str(name);
    lowercase(t.as_str())
}

pub proof fn lemma_before_headings_uncategorized(ls: Seq<Seq<char>>, i: int, k: int)
    requires
        0 <= i <= k <= ls.len(),
        forall|j: int| 0 <= j < k ==> !is_heading(#[trigger] ls[j]),
    ensures
        section_at(ls, i) == uncategorized(),
    decreases i,
{
    if i > 0 {
        lemma_before_headings_uncategorized(ls, i - 1, k);
    }
}

pub proof fn lemma_leading_content(ls: Seq<Seq<char>>, j: int, k: int)
    requires
        0 <= j <= k <= ls.len(),
        forall|i: int| 0 <= i < k ==> !is_heading(#[trigger] ls[i]),
    ensures
        content_upto(ls, uncategorized(), j) == ls.take(j).filter(|l: Seq<char>| !is_blank(l)),
    decreases j,
{
    reveal(Seq::filter);
    if j > 0 {
        lemma_leading_content(ls, j - 1, k);
        lemma_before_headings_uncategorized(ls, j - 1, k);
        assert(ls.take(j).drop_last() =~= ls.take(j - 1));
        assert(ls.take(j).last() == ls[j - 1]);
    } else {
        assert(ls.take(0) =~= Seq::<Seq<char>>::empty());
    }
}

pub proof fn lemma_content_upto_prefix(ls: Seq<Seq<char>>, n: Seq<char>, j: int, m: int)
    requires
        0 <= j <= m,
    ensures
        content_upto(ls, n, j).is_prefix_of(content_upto(ls, n, m)),
    decreases m,
{
    if m > j {
        lemma_content_upto_prefix(ls, n, j, m - 1);
    }
}

} // verus!
