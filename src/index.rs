//! An association from section names to lists of items, kept in a fixed order.

use vstd::prelude::*;

verus! {

/// The views of a sequence of values.
pub open spec fn views<T: View>(s: Seq<T>) -> Seq<T::V> {
    s.map_values(|x: T| x@)
}

/// Sections by name: `names[i]` owns `lists[i]`.
pub struct SectionIndex<T> {
    pub names: Vec<String>,
    pub lists: Vec<Vec<T>>,
}

impl<T: View> SectionIndex<T> {
    /// As many lists as names, and no name twice.
    pub open spec fn wf(&self) -> bool {
        &&& self.names@.len() == self.lists@.len()
        &&& forall|i: int, j: int|
            0 <= i < j < self.names@.len() ==> #[trigger] self.names@[i]@ != #[trigger] self.names@[j]@
    }

    /// The position of a name, if it is present.
    pub open spec fn has_name(&self, n: Seq<char>) -> bool {
        exists|i: int| 0 <= i < self.names@.len() && #[trigger] self.names@[i]@ == n
    }

    /// The index holds exactly the names on which `f` is non-empty, each
    /// with the list that `f` gives.
    pub open spec fn describes(&self, f: spec_fn(Seq<char>) -> Seq<T::V>) -> bool {
        &&& self.wf()
        &&& forall|i: int|
            0 <= i < self.names@.len() ==> views(#[trigger] self.lists@[i]@) == f(self.names@[i]@)
                && f(self.names@[i]@).len() > 0
        &&& forall|n: Seq<char>| #[trigger] f(n).len() > 0 ==> self.has_name(n)
    }

    /// The number of sections.
    pub fn len(&self) -> (r: usize)
        ensures
            r == self.names@.len(),
    {
        self.names.len()
    }

    /// Whether no section is present.
    pub fn is_empty(&self) -> (r: bool)
        ensures
            r == (self.names@.len() == 0),
    {
        self.names.len() == 0
    }

    /// The position of the section named `name`.
    pub fn position(&self, name: &str) -> (r: Option<usize>)
        ensures
            r matches Some(i) ==> i < self.names@.len() && self.names@[i as int]@ == name@,
            r is None ==> !self.has_name(name@),
    {
        let target = name.to_owned();
        let mut i: usize = 0;
        while i < self.names.len()
            invariant
                i <= self.names@.len(),
                target@ == name@,
                forall|k: int| 0 <= k < i ==> #[trigger] self.names@[k]@ != name@,
            decreases self.names@.len() - i,
        {
            if self.names[i] == target {
                return Some(i);
            }
            i += 1;
        }
        None
    }

    /// Whether a section named `name` is present.
    pub fn contains_key(&self, name: &str) -> (r: bool)
        ensures
            r == self.has_name(name@),
    {
        self.position(name).is_some()
    }

    /// The items of the section named `name`.
    pub fn get(&self, name: &str) -> (r: Option<&Vec<T>>)
        requires
            self.wf(),
        ensures
            r matches Some(v) ==> exists|i: int|
                0 <= i < self.names@.len() && self.names@[i]@ == name@ && *v == self.lists@[i],
            r is None ==> !self.has_name(name@),
    {
        match self.position(name) {
            Some(i) => Some(&self.lists[i]),
            None => None,
        }
    }
}

impl<T: View> SectionIndex<T> {
    /// An index with no section.
    pub fn new() -> (r: SectionIndex<T>)
        ensures
            r.names@.len() == 0,
            r.wf(),
            r.describes(|n: Seq<char>| Seq::<T::V>::empty()),
    {
        SectionIndex { names: Vec::new(), lists: Vec::new() }
    }

    /// Appends `items` to the section named `name`, which is created if absent.
    pub fn add_items(
        &mut self,
        name: String,
        items: Vec<T>,
        Ghost(f): Ghost<spec_fn(Seq<char>) -> Seq<T::V>>,
        Ghost(g): Ghost<spec_fn(Seq<char>) -> Seq<T::V>>,
    )
        requires
            old(self).describes(f),
            items@.len() > 0,
            forall|n: Seq<char>|
                #[trigger] g(n) == if n == name@ {
                    f(n) + views(items@)
                } else {
                    f(n)
                },
        ensures
            final(self).describes(g),
    {
        let ghost old_names = self.names@;
        let ghost old_lists = self.lists@;
        let ghost added = views(items@);
        let mut items = items;
        match self.position(name.as_str()) {
            Some(p) => {
                assert(views(old_lists[p as int]@) == f(old_names[p as int]@));
                let mut l = self.lists.remove(p);
                l.append(&mut items);
                self.lists.insert(p, l);
                assert(self.lists@ =~= old_lists.update(p as int, l));
                assert(self.names@ == old_names);
                assert(self.wf());
                assert(views(l@) =~= views(old_lists[p as int]@) + added);
                assert forall|i: int|
                    0 <= i < self.names@.len() implies views(#[trigger] self.lists@[i]@) == g(
                    self.names@[i]@,
                ) && g(self.names@[i]@).len() > 0 by {
                    let _ = g(self.names@[i]@);
                    if i != p {
                        assert(self.names@[i]@ != name@);
                    }
                }
                assert forall|n: Seq<char>| #[trigger] f(n).len() > 0 implies self.has_name(n) by {
                    let k = choose|k: int| 0 <= k < old_names.len() && #[trigger] old_names[k]@ == n;
                    assert(self.names@[k]@ == n);
                }
                assert(self.names@[p as int]@ == name@);
                assert forall|n: Seq<char>| #[trigger] g(n).len() > 0 implies self.has_name(n) by {
                    if n != name@ {
                        assert(f(n).len() > 0);
                    }
                }
            },
            None => {
                let ghost nm = name@;
                self.names.push(name);
                self.lists.push(items);
                assert forall|i: int|
                    0 <= i < self.names@.len() implies views(#[trigger] self.lists@[i]@) == g(
                    self.names@[i]@,
                ) && g(self.names@[i]@).len() > 0 by {
                    let _ = g(self.names@[i]@);
                    if i < old_names.len() {
                        assert(self.names@[i] == old_names[i]);
                        assert(self.lists@[i] == old_lists[i]);
                        assert(views(old_lists[i]@) == f(old_names[i]@));
                        assert(f(old_names[i]@).len() > 0);
                        assert(old_names[i]@ != nm);
                    } else {
                        assert(f(nm).len() == 0);
                        assert(f(nm) + added =~= added);
                    }
                }
                assert(self.names@[old_names.len() as int]@ == nm);
                assert forall|n: Seq<char>| #[trigger] g(n).len() > 0 implies self.has_name(n) by {
                    if n != nm {
                        assert(f(n).len() > 0);
                        let k = choose|k: int| 0 <= k < old_names.len() && #[trigger] old_names[k]@ == n;
                        assert(self.names@[k] == old_names[k]);
                    }
                }
                assert forall|n: Seq<char>| #[trigger] f(n).len() > 0 implies self.has_name(n) by {
                    {
                        let k = choose|k: int| 0 <= k < old_names.len() && #[trigger] old_names[k]@ == n;
                        assert(self.names@[k] == old_names[k]);
                    }
                }
                assert forall|i: int, j: int|
                    0 <= i < j < self.names@.len() implies #[trigger] self.names@[i]@
                    != #[trigger] self.names@[j]@ by {
                    if j == old_names.len() {
                        assert(self.names@[i] == old_names[i]);
                    }
                }
            },
        }
        assert(self.wf());
        assert(forall|i: int|
            0 <= i < self.names@.len() ==> views(#[trigger] self.lists@[i]@) == g(self.names@[i]@)
                && g(self.names@[i]@).len() > 0);
        assert(forall|n: Seq<char>| #[trigger] g(n).len() > 0 ==> self.has_name(n));
        proof {
            self.lemma_describes(g);
        }
    }

    /// Sets the items of the section named `name` to `items`, creating the
    /// section if absent.
    pub fn put(
        &mut self,
        name: String,
        items: Vec<T>,
        Ghost(f): Ghost<spec_fn(Seq<char>) -> Seq<T::V>>,
        Ghost(g): Ghost<spec_fn(Seq<char>) -> Seq<T::V>>,
    )
        requires
            old(self).describes(f),
            items@.len() > 0,
            forall|n: Seq<char>|
                #[trigger] g(n) == if n == name@ {
                    views(items@)
                } else {
                    f(n)
                },
        ensures
            final(self).describes(g),
    {
        let ghost old_names = self.names@;
        let ghost old_lists = self.lists@;
        let ghost nm = name@;
        let ghost added = views(items@);
        match self.position(name.as_str()) {
            Some(p) => {
                let _ = self.lists.remove(p);
                self.lists.insert(p, items);
                assert(self.lists@ =~= old_lists.update(p as int, self.lists@[p as int]));
                assert(self.names@ == old_names);
                assert forall|i: int|
                    0 <= i < self.names@.len() implies views(#[trigger] self.lists@[i]@) == g(
                    self.names@[i]@,
                ) && g(self.names@[i]@).len() > 0 by {
                    if i != p {
                        assert(self.names@[i]@ != nm);
                        assert(views(old_lists[i]@) == f(old_names[i]@));
                    }
                }
                assert forall|n: Seq<char>| #[trigger] g(n).len() > 0 implies self.has_name(n) by {
                    if n == nm {
                        assert(self.names@[p as int]@ == n);
                    } else {
                        assert(f(n).len() > 0);
                        let k = choose|k: int| 0 <= k < old_names.len() && #[trigger] old_names[k]@ == n;
                        assert(self.names@[k]@ == n);
                    }
                }
            },
            None => {
                self.names.push(name);
                self.lists.push(items);
                assert forall|i: int|
                    0 <= i < self.names@.len() implies views(#[trigger] self.lists@[i]@) == g(
                    self.names@[i]@,
                ) && g(self.names@[i]@).len() > 0 by {
                    if i < old_names.len() {
                        assert(self.names@[i] == old_names[i]);
                        assert(self.lists@[i] == old_lists[i]);
                        assert(views(old_lists[i]@) == f(old_names[i]@));
                        assert(old_names[i]@ != nm);
                    }
                }
                assert forall|n: Seq<char>| #[trigger] g(n).len() > 0 implies self.has_name(n) by {
                    if n == nm {
                        assert(self.names@[old_names.len() as int]@ == n);
                    } else {
                        assert(f(n).len() > 0);
                        let k = choose|k: int| 0 <= k < old_names.len() && #[trigger] old_names[k]@ == n;
                        assert(self.names@[k] == old_names[k]);
                    }
                }
                assert forall|i: int, j: int|
                    0 <= i < j < self.names@.len() implies #[trigger] self.names@[i]@
                    != #[trigger] self.names@[j]@ by {
                    if j == old_names.len() {
                        assert(self.names@[i] == old_names[i]);
                    }
                }
            },
        }
        proof {
            self.lemma_describes(g);
        }
    }

    /// A listed section holds what `f` gives for its name, which is non-empty.
    pub proof fn lemma_listed(&self, f: spec_fn(Seq<char>) -> Seq<T::V>, i: int)
        requires
            self.describes(f),
            0 <= i < self.names@.len(),
        ensures
            views(self.lists@[i]@) == f(self.names@[i]@),
            f(self.names@[i]@).len() > 0,
    {
        let l = self.lists@[i];
        assert(views(l@) == f(self.names@[i]@));
    }

    /// A name on which `f` is non-empty is present.
    pub proof fn lemma_has(&self, f: spec_fn(Seq<char>) -> Seq<T::V>, n: Seq<char>)
        requires
            self.describes(f),
            f(n).len() > 0,
        ensures
            self.has_name(n),
    {
    }

    /// Two functions that agree everywhere are described alike.
    pub proof fn lemma_same_describes(&self, f: spec_fn(Seq<char>) -> Seq<T::V>, g: spec_fn(Seq<char>) -> Seq<T::V>)
        requires
            self.describes(f),
            forall|n: Seq<char>| #[trigger] f(n) == g(n),
        ensures
            self.describes(g),
    {
        assert forall|n: Seq<char>| #[trigger] g(n).len() > 0 implies self.has_name(n) by {
            assert(f(n) == g(n));
        }
    }

    /// Assembles `describes` from its parts.
    pub proof fn lemma_describes(&self, g: spec_fn(Seq<char>) -> Seq<T::V>)
        requires
            self.wf(),
            forall|i: int|
                0 <= i < self.names@.len() ==> views(#[trigger] self.lists@[i]@) == g(self.names@[i]@)
                    && g(self.names@[i]@).len() > 0,
            forall|n: Seq<char>| #[trigger] g(n).len() > 0 ==> self.has_name(n),
        ensures
            self.describes(g),
    {
    }
}

} // verus!
