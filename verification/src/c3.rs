use vstd::prelude::*;

use crate::id::{id_lt, lemma_lex_asymmetric, lemma_lex_connex, lemma_lex_irreflexive,
    lemma_lex_transitive, lex_lt, Id};
use crate::C3Error;

verus! {

/// One registry column: identifiers mapped to lists of identifiers, stored as
/// an association list whose keys are strictly sorted.
type Column = Vec<(Id, Vec<Id>)>;

/// What the whole registry looks like in specifications: three mappings from
/// class names to name sequences.
pub struct C3View {
    /// Per class, its declared parents (before linearization) or its
    /// linearized path (afterwards).
    pub classes: Map<Seq<char>, Seq<Seq<char>>>,
    /// Per class, the function names it contributes directly, in declaration
    /// order, duplicates as declared.
    pub functions: Map<Seq<char>, Seq<Seq<char>>>,
    /// Per class, the variable names it contributes directly.
    pub variables: Map<Seq<char>, Seq<Seq<char>>>,
}

/// The mapping a column holds. With duplicate keys the later entry would win;
/// well-formed columns have no duplicates.
pub(crate) open spec fn entries_map(s: Seq<(Id, Vec<Id>)>) -> Map<Seq<char>, Seq<Seq<char>>>
    decreases s.len(),
{
    if s.len() == 0 {
        Map::empty()
    } else {
        entries_map(s.drop_last()).insert(s.last().0@, s.last().1.deep_view())
    }
}

/// The keys of a column are strictly sorted (hence unique).
pub(crate) open spec fn sorted_entries(s: Seq<(Id, Vec<Id>)>) -> bool {
    forall|i: int, j: int| 0 <= i < j < s.len() ==> lex_lt(s[i].0@, s[j].0@)
}

/// Strictly sorted keys are pairwise distinct.
pub(crate) proof fn lemma_sorted_distinct(s: Seq<(Id, Vec<Id>)>, i: int, j: int)
    requires
        sorted_entries(s),
        0 <= i < s.len(),
        0 <= j < s.len(),
        s[i].0@ == s[j].0@,
    ensures
        i == j,
{
    if i < j {
        lemma_lex_irreflexive(s[i].0@);
    }
    if j < i {
        lemma_lex_irreflexive(s[i].0@);
    }
}

/// A column's mapping contains exactly the stored keys, and its domain is
/// finite.
pub(crate) proof fn lemma_entries_map_contains(s: Seq<(Id, Vec<Id>)>)
    ensures
        forall|k: Seq<char>| #[trigger]
            entries_map(s).contains_key(k) <==> exists|i: int| 0 <= i < s.len() && s[i].0@ == k,
        entries_map(s).dom().finite(),
    decreases s.len(),
{
    if s.len() == 0 {
        assert forall|k: Seq<char>| #[trigger]
            entries_map(s).contains_key(k) <==> exists|i: int|
                0 <= i < s.len() && s[i].0@ == k by {
            assert(!entries_map(s).contains_key(k));
        }
    } else {
        let d = s.drop_last();
        lemma_entries_map_contains(d);
        assert forall|k: Seq<char>| #[trigger]
            entries_map(s).contains_key(k) <==> exists|i: int|
                0 <= i < s.len() && s[i].0@ == k by {
            if entries_map(s).contains_key(k) {
                if k == s.last().0@ {
                    assert(s[s.len() - 1].0@ == k);
                } else {
                    let i = choose|i: int| 0 <= i < d.len() && d[i].0@ == k;
                    assert(s[i].0@ == k);
                }
            }
            if exists|i: int| 0 <= i < s.len() && s[i].0@ == k {
                let i = choose|i: int| 0 <= i < s.len() && s[i].0@ == k;
                if i < s.len() - 1 {
                    assert(d[i].0@ == k);
                }
            }
        }
    }
}

/// With distinct keys, each stored entry is what the mapping returns.
pub(crate) proof fn lemma_entries_map_index(s: Seq<(Id, Vec<Id>)>, i: int)
    requires
        0 <= i < s.len(),
        forall|p: int, q: int| 0 <= p < q < s.len() ==> s[p].0@ != s[q].0@,
    ensures
        entries_map(s).contains_key(s[i].0@),
        entries_map(s)[s[i].0@] == s[i].1.deep_view(),
    decreases s.len(),
{
    let d = s.drop_last();
    if i == s.len() - 1 {
    } else {
        assert(s[i].0@ != s.last().0@);
        lemma_entries_map_index(d, i);
        assert(d[i] == s[i]);
    }
}

/// Strict sorting makes all keys of a column pairwise distinct.
pub(crate) proof fn lemma_sorted_entries_distinct(s: Seq<(Id, Vec<Id>)>)
    requires
        sorted_entries(s),
    ensures
        forall|p: int, q: int| 0 <= p < q < s.len() ==> s[p].0@ != s[q].0@,
{
    assert forall|p: int, q: int| 0 <= p < q < s.len() implies s[p].0@ != s[q].0@ by {
        lemma_lex_asymmetric(s[p].0@, s[q].0@);
    }
}

/// The class registry: per class its declared parents or (after
/// linearization) its path, and the functions and variables it contributes.
#[derive(Debug, PartialEq)]
pub struct C3 {
    classes: Column,
    functions: Column,
    variables: Column,
}

impl View for C3 {
    type V = C3View;

    closed spec fn view(&self) -> C3View {
        C3View {
            classes: entries_map(self.classes@),
            functions: entries_map(self.functions@),
            variables: entries_map(self.variables@),
        }
    }
}

impl C3 {
    /// The registry's storage keeps each column's keys strictly sorted, so
    /// that enumeration is deterministic and equal registries are stored
    /// identically.
    pub closed spec fn wf(&self) -> bool {
        &&& sorted_entries(self.classes@)
        &&& sorted_entries(self.functions@)
        &&& sorted_entries(self.variables@)
    }

    /// Build a new, empty registry.
    pub fn new() -> (r: C3)
        ensures
            r.wf(),
            r@.classes == Map::<Seq<char>, Seq<Seq<char>>>::empty(),
            r@.functions == Map::<Seq<char>, Seq<Seq<char>>>::empty(),
            r@.variables == Map::<Seq<char>, Seq<Seq<char>>>::empty(),
    {
        C3 { classes: Vec::new(), functions: Vec::new(), variables: Vec::new() }
    }

    /// Register or overwrite a class with its parent list (before
    /// linearization) or its path (in a linearized registry). No validation
    /// happens here; dangling names surface when the class is consumed.
    pub fn add(&mut self, base: Id, path: Vec<Id>)
        requires
            old(self).wf(),
        ensures
            final(self).wf(),
            final(self)@.classes == old(self)@.classes.insert(base@, path.deep_view()),
            final(self)@.functions == old(self)@.functions,
            final(self)@.variables == old(self)@.variables,
    {
        column_put(&mut self.classes, base, path);
    }

    /// Register or overwrite a class, its name and its parent list given as
    /// strings: the parent list is split at every comma-and-space separator
    /// and empty pieces are dropped.
    #[verifier::loop_isolation(false)]
    pub fn add_class_str(&mut self, base: &str, parents: &str)
        requires
            old(self).wf(),
        ensures
            final(self).wf(),
            final(self)@.classes == old(self)@.classes.insert(
                base@,
                crate::drop_empties(crate::spec_split(parents@)),
            ),
            final(self)@.functions == old(self)@.functions,
            final(self)@.variables == old(self)@.variables,
    {
        let parts = crate::split_coma(parents);
        let n = parts.len();
        let mut ids: Vec<Id> = Vec::new();
        let mut i: usize = 0;
        while i < n
            invariant
                i <= n,
                ids.deep_view().len() == i,
                forall|j: int| 0 <= j < i ==> ids.deep_view()[j] == parts.deep_view()[j],
            decreases n - i,
        {
            let ghost d = ids.deep_view();
            let e = Id::from_string(parts[i].clone());
            ids.push(e);
            proof {
                assert(ids.deep_view() =~= d.push(parts.deep_view()[i as int]));
            }
            i += 1;
        }
        proof {
            assert(ids.deep_view() =~= parts.deep_view());
        }
        self.add(Id::from(base), ids);
    }

    /// Remove a class. Fails if the class was never registered.
    pub fn remove(&mut self, base: &Id) -> (r: Result<(), C3Error>)
        requires
            old(self).wf(),
        ensures
            final(self).wf(),
            final(self)@.functions == old(self)@.functions,
            final(self)@.variables == old(self)@.variables,
            match r {
                Ok(_) => {
                    &&& old(self)@.classes.contains_key(base@)
                    &&& final(self)@.classes == old(self)@.classes.remove(base@)
                },
                Err(e) => {
                    &&& !old(self)@.classes.contains_key(base@)
                    &&& e matches C3Error::BaseClassDoesNotExists(name) && name@ == base@
                    &&& final(self)@.classes == old(self)@.classes
                },
            },
    {
        proof {
            lemma_entries_map_contains(self.classes@);
        }
        match column_find(&self.classes, base) {
            Some(i) => {
                proof {
                    lemma_sorted_remove(self.classes@, i as int);
                }
                self.classes.remove(i);
                Ok(())
            },
            None => Err(C3Error::BaseClassDoesNotExists(base.to_string())),
        }
    }

    /// The previously registered parent list or path of a class; fails with
    /// `BaseClassDoesNotExists` if the class is unknown.
    pub fn path(&self, base: &Id) -> (r: Result<Vec<Id>, C3Error>)
        requires
            self.wf(),
        ensures
            match r {
                Ok(p) => {
                    &&& self@.classes.contains_key(base@)
                    &&& p.deep_view() == self@.classes[base@]
                },
                Err(e) => {
                    &&& !self@.classes.contains_key(base@)
                    &&& e matches C3Error::BaseClassDoesNotExists(name) && name@ == base@
                },
            },
    {
        proof {
            lemma_entries_map_contains(self.classes@);
            lemma_sorted_entries_distinct(self.classes@);
        }
        match column_find(&self.classes, base) {
            Some(i) => {
                proof {
                    lemma_entries_map_index(self.classes@, i as int);
                }
                Ok(clone_ids(&self.classes[i].1))
            },
            None => Err(C3Error::BaseClassDoesNotExists(base.to_string())),
        }
    }

    /// All registered classes, sorted by name.
    pub fn all_classes(&self) -> (r: Vec<Id>)
        requires
            self.wf(),
        ensures
            forall|i: int, j: int|
                0 <= i < j < r.deep_view().len() ==> lex_lt(
                    #[trigger] r.deep_view()[i],
                    #[trigger] r.deep_view()[j],
                ),
            forall|k: Seq<char>| #[trigger]
                r.deep_view().contains(k) <==> self@.classes.contains_key(k),
    {
        proof {
            lemma_entries_map_contains(self.classes@);
        }
        let n = self.classes.len();
        let mut r: Vec<Id> = Vec::new();
        let mut i: usize = 0;
        while i < n
            invariant
                n == self.classes@.len(),
                i <= n,
                r.deep_view().len() == i,
                forall|j: int| 0 <= j < i ==> r.deep_view()[j] == self.classes@[j].0@,
            decreases n - i,
        {
            let ghost rprev = r.deep_view();
            let k = self.classes[i].0.clone();
            r.push(k);
            proof {
                assert(r.deep_view() =~= rprev.push(self.classes@[i as int].0@));
            }
            i += 1;
        }
        proof {
            assert forall|k: Seq<char>| #[trigger]
                r.deep_view().contains(k) <==> self@.classes.contains_key(k) by {
                if r.deep_view().contains(k) {
                    let j = choose|j: int| 0 <= j < r.deep_view().len() && r.deep_view()[j] == k;
                    assert(self.classes@[j].0@ == k);
                }
                if self@.classes.contains_key(k) {
                    let j = choose|j: int| 0 <= j < self.classes@.len() && self.classes@[j].0@ == k;
                    assert(r.deep_view()[j] == k);
                }
            }
        }
        r
    }

    /// All registered classes as strings, sorted by name.
    pub fn all_classes_str(&self) -> (r: Vec<String>)
        requires
            self.wf(),
        ensures
            forall|i: int, j: int|
                0 <= i < j < r.deep_view().len() ==> lex_lt(
                    #[trigger] r.deep_view()[i],
                    #[trigger] r.deep_view()[j],
                ),
            forall|k: Seq<char>| #[trigger]
                r.deep_view().contains(k) <==> self@.classes.contains_key(k),
    {
        let classes = self.all_classes();
        ids_to_strings(&classes)
    }

    /// True iff no class is registered.
    pub fn is_empty(&self) -> (r: bool)
        requires
            self.wf(),
        ensures
            r == (self@.classes.dom().len() == 0),
    {
        proof {
            lemma_entries_map_contains(self.classes@);
            if self.classes@.len() > 0 {
                let k0 = self.classes@[0].0@;
                assert(self@.classes.contains_key(k0));
                vstd::set::axiom_set_remove_len(self@.classes.dom(), k0);
            } else {
                assert(self@.classes.dom() =~= Set::<Seq<char>>::empty());
            }
        }
        self.classes.is_empty()
    }

    /// Every registry view has finitely many classes, functions and
    /// variables.
    pub proof fn lemma_view_finite(&self)
        ensures
            self@.classes.dom().finite(),
            self@.functions.dom().finite(),
            self@.variables.dom().finite(),
    {
        lemma_entries_map_contains(self.classes@);
        lemma_entries_map_contains(self.functions@);
        lemma_entries_map_contains(self.variables@);
    }
}

/// Turn a list of identifiers into the list of their names.
pub(crate) fn ids_to_strings(v: &Vec<Id>) -> (r: Vec<String>)
    ensures
        r.deep_view() == v.deep_view(),
{
    let n = v.len();
    let mut r: Vec<String> = Vec::new();
    let mut i: usize = 0;
    while i < n
        invariant
            n == v@.len(),
            i <= n,
            r.deep_view().len() == i,
            forall|j: int| 0 <= j < i ==> r.deep_view()[j] == v.deep_view()[j],
        decreases n - i,
    {
        let ghost rprev = r.deep_view();
        let s = v[i].to_string();
        r.push(s);
        proof {
            assert(r.deep_view() =~= rprev.push(v@[i as int]@));
        }
        i += 1;
    }
    proof {
        assert(r.deep_view() =~= v.deep_view());
    }
    r
}

/// Clone a list of identifiers.
pub(crate) fn clone_ids(v: &Vec<Id>) -> (r: Vec<Id>)
    ensures
        r@ == v@,
{
    let r = v.clone();
    proof {
        assert forall|i: int| 0 <= i < v@.len() implies r@[i] == v@[i] by {
            assert(vstd::pervasive::cloned::<Id>(v@[i], r@[i]));
        }
        assert(r@ =~= v@);
    }
    r
}

/// Find the entry with the given key, if any.
fn column_find(entries: &Column, key: &Id) -> (r: Option<usize>)
    ensures
        match r {
            Some(i) => i < entries@.len() && entries@[i as int].0@ == key@,
            None => forall|i: int| 0 <= i < entries@.len() ==> entries@[i].0@ != key@,
        },
{
    let n = entries.len();
    let mut i: usize = 0;
    while i < n
        invariant
            n == entries@.len(),
            i <= n,
            forall|j: int| 0 <= j < i ==> entries@[j].0@ != key@,
        decreases n - i,
    {
        if entries[i].0 == *key {
            return Some(i);
        }
        i += 1;
    }
    None
}

/// The position where `key` belongs in a sorted column: the first index whose
/// key does not come before `key`.
fn column_position(entries: &Column, key: &Id) -> (p: usize)
    requires
        sorted_entries(entries@),
    ensures
        p <= entries@.len(),
        forall|j: int| 0 <= j < p ==> lex_lt(entries@[j].0@, key@),
        p < entries@.len() ==> !lex_lt(entries@[p as int].0@, key@),
    decreases entries@.len(),
{
    let n = entries.len();
    let mut p: usize = 0;
    while p < n
        invariant
            n == entries@.len(),
            p <= n,
            forall|j: int| 0 <= j < p ==> lex_lt(entries@[j].0@, key@),
        decreases n - p,
    {
        if !id_lt(&entries[p].0, key) {
            return p;
        }
        p += 1;
    }
    p
}

/// Insert or overwrite one entry, keeping the column sorted.
fn column_put(entries: &mut Column, key: Id, value: Vec<Id>)
    requires
        sorted_entries(old(entries)@),
    ensures
        sorted_entries(final(entries)@),
        entries_map(final(entries)@) == entries_map(old(entries)@).insert(key@, value.deep_view()),
{
    let ghost s0 = entries@;
    let ghost kk = key@;
    let ghost vv = value.deep_view();
    let p = column_position(entries, &key);
    let found = p < entries.len() && entries[p].0 == key;
    if found {
        proof {
            lemma_sorted_remove(entries@, p as int);
        }
        entries.remove(p);
    }
    proof {
        let sm = entries@;
        lemma_entries_map_contains(s0);
        assert forall|j: int| 0 <= j < p implies lex_lt(sm[j].0@, kk) by {
            assert(sm[j] == s0[j]);
        }
        if found {
            assert forall|j: int| p <= j < sm.len() implies lex_lt(kk, sm[j].0@) by {
                assert(sm[j] == s0[j + 1]);
            }
        } else {
            assert(sm == s0);
            if (p as int) < s0.len() {
                lemma_lex_connex(s0[p as int].0@, kk);
            }
            assert forall|j: int| p <= j < sm.len() implies lex_lt(kk, sm[j].0@) by {
                if j > p {
                    lemma_lex_transitive(kk, s0[p as int].0@, s0[j].0@);
                }
            }
            // `key` is nowhere in the column, so removing it changes nothing
            assert forall|j: int| 0 <= j < s0.len() implies s0[j].0@ != kk by {
                if j < p {
                    lemma_lex_asymmetric(s0[j].0@, kk);
                } else {
                    lemma_lex_asymmetric(kk, s0[j].0@);
                }
            }
            assert(entries_map(sm) =~= entries_map(s0).remove(kk));
        }
    }
    let ghost sm = entries@;
    entries.insert(p, (key, value));
    proof {
        let e = entries@[p as int];
        assert(entries@ == sm.insert(p as int, e));
        lemma_sorted_insert(sm, p as int, e);
        assert(e.0@ == kk && e.1.deep_view() == vv);
        assert(entries_map(entries@) =~= entries_map(s0).insert(kk, vv));
    }
}

/// Removing the entry at `i` keeps a column sorted, and takes exactly that
/// entry's key out of its mapping.
proof fn lemma_sorted_remove(s: Seq<(Id, Vec<Id>)>, i: int)
    requires
        sorted_entries(s),
        0 <= i < s.len(),
    ensures
        sorted_entries(s.remove(i)),
        entries_map(s.remove(i)) == entries_map(s).remove(s[i].0@),
{
    lemma_sorted_entries_distinct(s);
    let t = s.remove(i);
    let k = s[i].0@;
    lemma_entries_map_contains(s);
    lemma_entries_map_contains(t);
    assert forall|a: int, b: int| 0 <= a < b < t.len() implies lex_lt(t[a].0@, t[b].0@) by {
        if a < i {
            assert(t[a] == s[a]);
        } else {
            assert(t[a] == s[a + 1]);
        }
        if b < i {
            assert(t[b] == s[b]);
        } else {
            assert(t[b] == s[b + 1]);
        }
    }
    lemma_sorted_entries_distinct(t);
    assert forall|x: Seq<char>| #[trigger]
        entries_map(t).contains_key(x) == entries_map(s).remove(k).contains_key(x) by {
        if entries_map(t).contains_key(x) {
            let q = choose|q: int| 0 <= q < t.len() && t[q].0@ == x;
            if q < i {
                assert(s[q].0@ == x);
            } else {
                assert(s[q + 1].0@ == x);
            }
        }
        if entries_map(s).remove(k).contains_key(x) {
            let q = choose|q: int| 0 <= q < s.len() && s[q].0@ == x;
            if q < i {
                assert(t[q].0@ == x);
            } else if q > i {
                assert(t[q - 1].0@ == x);
            }
        }
    }
    assert forall|x: Seq<char>| entries_map(t).contains_key(x) implies #[trigger] entries_map(t)[x]
        == entries_map(s).remove(k)[x] by {
        let q = choose|q: int| 0 <= q < t.len() && t[q].0@ == x;
        lemma_entries_map_index(t, q);
        if q < i {
            lemma_entries_map_index(s, q);
        } else {
            lemma_entries_map_index(s, q + 1);
        }
    }
    assert(entries_map(t) =~= entries_map(s).remove(k));
}

/// Inserting an entry between the smaller and the larger keys keeps a column
/// sorted, and adds exactly that entry to its mapping.
proof fn lemma_sorted_insert(s: Seq<(Id, Vec<Id>)>, p: int, e: (Id, Vec<Id>))
    requires
        sorted_entries(s),
        0 <= p <= s.len(),
        forall|j: int| 0 <= j < p ==> lex_lt(s[j].0@, e.0@),
        forall|j: int| p <= j < s.len() ==> lex_lt(e.0@, s[j].0@),
    ensures
        sorted_entries(s.insert(p, e)),
        entries_map(s.insert(p, e)) == entries_map(s).insert(e.0@, e.1.deep_view()),
{
    let t = s.insert(p, e);
    let k = e.0@;
    s.insert_ensures(p, e);
    assert forall|a: int, b: int| 0 <= a < b < t.len() implies lex_lt(t[a].0@, t[b].0@) by {
        if a < p {
            assert(t[a] == s[a]);
        } else if a == p {
            assert(t[a] == e);
        } else {
            assert(t[a] == s[a - 1]);
        }
        if b < p {
            assert(t[b] == s[b]);
        } else if b == p {
            assert(t[b] == e);
        } else {
            assert(t[b] == s[b - 1]);
        }
    }
    lemma_sorted_entries_distinct(s);
    lemma_sorted_entries_distinct(t);
    lemma_entries_map_contains(s);
    lemma_entries_map_contains(t);
    assert forall|x: Seq<char>| #[trigger]
        entries_map(t).contains_key(x) == entries_map(s).insert(k, e.1.deep_view()).contains_key(
        x,
    ) by {
        if entries_map(t).contains_key(x) && x != k {
            let q = choose|q: int| 0 <= q < t.len() && t[q].0@ == x;
            if q < p {
                assert(s[q].0@ == x);
            } else {
                assert(t[q] == s[q - 1]);
                assert(s[q - 1].0@ == x);
            }
        }
        if x == k {
            assert(t[p].0@ == x);
        }
        if entries_map(s).contains_key(x) && x != k {
            let q = choose|q: int| 0 <= q < s.len() && s[q].0@ == x;
            if q < p {
                assert(t[q].0@ == x);
            } else {
                assert(t[q + 1].0@ == x);
            }
        }
    }
    assert forall|x: Seq<char>| entries_map(t).contains_key(x) implies #[trigger] entries_map(t)[x]
        == entries_map(s).insert(k, e.1.deep_view())[x] by {
        let q = choose|q: int| 0 <= q < t.len() && t[q].0@ == x;
        lemma_entries_map_index(t, q);
        if x == k {
            lemma_entries_map_index(t, p);
        } else {
            if q < p {
                lemma_entries_map_index(s, q);
            } else {
                assert(t[q] == s[q - 1]);
                lemma_entries_map_index(s, q - 1);
            }
        }
    }
    assert(entries_map(t) =~= entries_map(s).insert(k, e.1.deep_view()));
}


/// A name sequence in strictly ascending identifier order: sorted, without
/// duplicates.
pub open spec fn strictly_sorted_names(s: Seq<Seq<char>>) -> bool {
    forall|i: int, j: int| 0 <= i < j < s.len() ==> lex_lt(s[i], s[j])
}

/// A name sequence in ascending identifier order, duplicates allowed.
pub open spec fn sorted_names(s: Seq<Seq<char>>) -> bool {
    forall|i: int, j: int| 0 <= i < j < s.len() ==> !lex_lt(s[j], s[i])
}

/// `x` is visible to a class with path `path`: some class on the path
/// contributes it directly.
pub open spec fn member_visible(
    path: Seq<Seq<char>>,
    table: Map<Seq<char>, Seq<Seq<char>>>,
    x: Seq<char>,
) -> bool {
    exists|i: int|
        0 <= i < path.len() && table.contains_key(#[trigger] path[i]) && table[path[i]].contains(
            x,
        )
}

/// The merge input that a class's parent list gives rise to: the registered
/// path of each parent that has a nonempty one, in parent order, followed by
/// the parent list itself.
pub open spec fn merge_input(
    m: Map<Seq<char>, Seq<Seq<char>>>,
    bases: Seq<Seq<char>>,
) -> crate::sets::SetsView {
    parent_path_sets(m, bases) + if bases.len() > 0 {
        seq![bases]
    } else {
        Seq::empty()
    }
}

/// The registered paths of `bases`, skipping empty ones.
pub open spec fn parent_path_sets(
    m: Map<Seq<char>, Seq<Seq<char>>>,
    bases: Seq<Seq<char>>,
) -> crate::sets::SetsView
    decreases bases.len(),
{
    if bases.len() == 0 {
        Seq::empty()
    } else {
        let rest = parent_path_sets(m, bases.drop_last());
        if m[bases.last()].len() > 0 {
            rest.push(m[bases.last()])
        } else {
            rest
        }
    }
}

/// The dispatch chain of one function along one path: the classes of the path
/// that contribute the function directly, in path order.
pub open spec fn spec_dispatch_chain(
    path: Seq<Seq<char>>,
    table: Map<Seq<char>, Seq<Seq<char>>>,
    f: Seq<char>,
) -> Seq<Seq<char>>
    decreases path.len(),
{
    if path.len() == 0 {
        Seq::empty()
    } else {
        let rest = spec_dispatch_chain(path.drop_last(), table, f);
        if table.contains_key(path.last()) && table[path.last()].contains(f) {
            rest.push(path.last())
        } else {
            rest
        }
    }
}

impl C3 {
    /// Record that `class` directly contributes the function named `fun`.
    /// Duplicates are kept as declared.
    pub fn register_fn(&mut self, class: Id, fun: Id)
        requires
            old(self).wf(),
        ensures
            final(self).wf(),
            final(self)@.classes == old(self)@.classes,
            final(self)@.variables == old(self)@.variables,
            final(self)@.functions == old(self)@.functions.insert(
                class@,
                (if old(self)@.functions.contains_key(class@) {
                    old(self)@.functions[class@]
                } else {
                    Seq::empty()
                }).push(fun@),
            ),
    {
        column_append(&mut self.functions, class, fun);
    }

    /// Record several direct function contributions of one class, in order.
    #[verifier::loop_isolation(false)]
    pub fn register_fns(&mut self, class: Id, funs: Vec<Id>)
        requires
            old(self).wf(),
        ensures
            final(self).wf(),
            final(self)@.classes == old(self)@.classes,
            final(self)@.variables == old(self)@.variables,
            funs@.len() == 0 ==> final(self)@.functions == old(self)@.functions,
            funs@.len() > 0 ==> final(self)@.functions == old(self)@.functions.insert(
                class@,
                (if old(self)@.functions.contains_key(class@) {
                    old(self)@.functions[class@]
                } else {
                    Seq::empty()
                }) + funs.deep_view(),
            ),
    {
        let ghost base = if old(self)@.functions.contains_key(class@) {
            old(self)@.functions[class@]
        } else {
            Seq::<Seq<char>>::empty()
        };
        let n = funs.len();
        let mut i: usize = 0;
        while i < n
            invariant
                n == funs@.len(),
                i <= n,
                self.wf(),
                self@.classes == old(self)@.classes,
                self@.variables == old(self)@.variables,
                i == 0 ==> self@.functions == old(self)@.functions,
                i > 0 ==> self@.functions == old(self)@.functions.insert(
                    class@,
                    base + funs.deep_view().subrange(0, i as int),
                ),
                i > 0 ==> self@.functions.contains_key(class@) && self@.functions[class@] == base
                    + funs.deep_view().subrange(0, i as int),
            decreases n - i,
        {
            let f = funs[i].clone();
            let c = class.clone();
            self.register_fn(c, f);
            proof {
                if i == 0 {
                    assert(base.push(funs.deep_view()[0]) =~= base + funs.deep_view().subrange(
                        0,
                        1,
                    ));
                } else {
                    assert((base + funs.deep_view().subrange(0, i as int)).push(
                        funs.deep_view()[i as int],
                    ) =~= base + funs.deep_view().subrange(0, i + 1));
                }
                assert(self@.functions =~= old(self)@.functions.insert(
                    class@,
                    base + funs.deep_view().subrange(0, i + 1),
                ));
            }
            i += 1;
        }
        proof {
            if n > 0 {
                assert(funs.deep_view().subrange(0, n as int) =~= funs.deep_view());
            }
        }
    }

    /// Record one direct function contribution, both names given as strings.
    pub fn register_fn_str(&mut self, class: &str, function: &str)
        requires
            old(self).wf(),
        ensures
            final(self).wf(),
            final(self)@.classes == old(self)@.classes,
            final(self)@.variables == old(self)@.variables,
            final(self)@.functions == old(self)@.functions.insert(
                class@,
                (if old(self)@.functions.contains_key(class@) {
                    old(self)@.functions[class@]
                } else {
                    Seq::empty()
                }).push(function@),
            ),
    {
        self.register_fn(Id::from(class), Id::from(function))
    }

    /// Record that `class` directly contributes the variable named `var`.
    pub fn register_var(&mut self, class: Id, var: Id)
        requires
            old(self).wf(),
        ensures
            final(self).wf(),
            final(self)@.classes == old(self)@.classes,
            final(self)@.functions == old(self)@.functions,
            final(self)@.variables == old(self)@.variables.insert(
                class@,
                (if old(self)@.variables.contains_key(class@) {
                    old(self)@.variables[class@]
                } else {
                    Seq::empty()
                }).push(var@),
            ),
    {
        column_append(&mut self.variables, class, var);
    }

    /// Record several direct variable contributions of one class, in order.
    #[verifier::loop_isolation(false)]
    pub fn register_vars(&mut self, class: Id, vars: Vec<Id>)
        requires
            old(self).wf(),
        ensures
            final(self).wf(),
            final(self)@.classes == old(self)@.classes,
            final(self)@.functions == old(self)@.functions,
            vars@.len() == 0 ==> final(self)@.variables == old(self)@.variables,
            vars@.len() > 0 ==> final(self)@.variables == old(self)@.variables.insert(
                class@,
                (if old(self)@.variables.contains_key(class@) {
                    old(self)@.variables[class@]
                } else {
                    Seq::empty()
                }) + vars.deep_view(),
            ),
    {
        let ghost base = if old(self)@.variables.contains_key(class@) {
            old(self)@.variables[class@]
        } else {
            Seq::<Seq<char>>::empty()
        };
        let n = vars.len();
        let mut i: usize = 0;
        while i < n
            invariant
                n == vars@.len(),
                i <= n,
                self.wf(),
                self@.classes == old(self)@.classes,
                self@.functions == old(self)@.functions,
                i == 0 ==> self@.variables == old(self)@.variables,
                i > 0 ==> self@.variables == old(self)@.variables.insert(
                    class@,
                    base + vars.deep_view().subrange(0, i as int),
                ),
                i > 0 ==> self@.variables.contains_key(class@) && self@.variables[class@] == base
                    + vars.deep_view().subrange(0, i as int),
            decreases n - i,
        {
            let v = vars[i].clone();
            let c = class.clone();
            self.register_var(c, v);
            proof {
                if i == 0 {
                    assert(base.push(vars.deep_view()[0]) =~= base + vars.deep_view().subrange(
                        0,
                        1,
                    ));
                } else {
                    assert((base + vars.deep_view().subrange(0, i as int)).push(
                        vars.deep_view()[i as int],
                    ) =~= base + vars.deep_view().subrange(0, i + 1));
                }
                assert(self@.variables =~= old(self)@.variables.insert(
                    class@,
                    base + vars.deep_view().subrange(0, i + 1),
                ));
            }
            i += 1;
        }
        proof {
            if n > 0 {
                assert(vars.deep_view().subrange(0, n as int) =~= vars.deep_view());
            }
        }
    }

    /// Record one direct variable contribution, both names given as strings.
    pub fn register_var_str(&mut self, class: &str, variable: &str)
        requires
            old(self).wf(),
        ensures
            final(self).wf(),
            final(self)@.classes == old(self)@.classes,
            final(self)@.functions == old(self)@.functions,
            final(self)@.variables == old(self)@.variables.insert(
                class@,
                (if old(self)@.variables.contains_key(class@) {
                    old(self)@.variables[class@]
                } else {
                    Seq::empty()
                }).push(variable@),
            ),
    {
        self.register_var(Id::from(class), Id::from(variable))
    }
}

/// Append one item to the list registered under `key`, creating the entry
/// when it is missing, and keeping the column sorted.
fn column_append(entries: &mut Column, key: Id, item: Id)
    requires
        sorted_entries(old(entries)@),
    ensures
        sorted_entries(final(entries)@),
        entries_map(final(entries)@) == entries_map(old(entries)@).insert(
            key@,
            (if entries_map(old(entries)@).contains_key(key@) {
                entries_map(old(entries)@)[key@]
            } else {
                Seq::empty()
            }).push(item@),
        ),
{
    let ghost s0 = entries@;
    proof {
        lemma_entries_map_contains(s0);
        lemma_sorted_entries_distinct(s0);
    }
    match column_find(entries, &key) {
        Some(i) => {
            proof {
                lemma_entries_map_index(s0, i as int);
                lemma_sorted_remove(s0, i as int);
            }
            let mut e = entries.remove(i);
            e.1.push(item);
            let ghost sm = entries@;
            proof {
                assert forall|j: int| i <= j < sm.len() implies lex_lt(s0[i as int].0@, sm[j].0@) by {
                    assert(sm[j] == s0[j + 1]);
                }
            }
            entries.insert(i, e);
            proof {
                let e2 = entries@[i as int];
                lemma_sorted_insert(sm, i as int, e2);
                assert(e2.1.deep_view() =~= s0[i as int].1.deep_view().push(item@));
                assert(entries_map(entries@) =~= entries_map(s0).insert(
                    key@,
                    entries_map(s0)[key@].push(item@),
                ));
            }
        },
        None => {
            let p = column_position(entries, &key);
            let mut v: Vec<Id> = Vec::new();
            v.push(item);
            let ghost sm = entries@;
            proof {
                if (p as int) < s0.len() {
                    lemma_lex_connex(s0[p as int].0@, key@);
                }
                assert forall|j: int| p <= j < sm.len() implies lex_lt(key@, sm[j].0@) by {
                    if j > p {
                        lemma_lex_transitive(key@, s0[p as int].0@, s0[j].0@);
                    }
                }
            }
            entries.insert(p, (key, v));
            proof {
                let e2 = entries@[p as int];
                lemma_sorted_insert(sm, p as int, e2);
                assert(e2.1.deep_view() =~= Seq::<Seq<char>>::empty().push(item@));
                assert(entries_map(entries@) =~= entries_map(s0).insert(
                    key@,
                    Seq::<Seq<char>>::empty().push(item@),
                ));
            }
        },
    }
}


/// Concatenation holds exactly the elements of both parts.
pub(crate) proof fn lemma_contains_concat(a: Seq<Seq<char>>, b: Seq<Seq<char>>, y: Seq<char>)
    ensures
        (a + b).contains(y) <==> (a.contains(y) || b.contains(y)),
{
    if a.contains(y) {
        let i = choose|i: int| 0 <= i < a.len() && a[i] == y;
        assert((a + b)[i] == y);
    }
    if b.contains(y) {
        let i = choose|i: int| 0 <= i < b.len() && b[i] == y;
        assert((a + b)[a.len() + i] == y);
    }
    if (a + b).contains(y) {
        let i = choose|i: int| 0 <= i < (a + b).len() && (a + b)[i] == y;
        if i < a.len() {
            assert(a[i] == y);
        } else {
            assert(b[i - a.len()] == y);
        }
    }
}

/// Insertion holds exactly the old elements and the new one.
pub(crate) proof fn lemma_contains_insert(s: Seq<Seq<char>>, p: int, x: Seq<char>, y: Seq<char>)
    requires
        0 <= p <= s.len(),
    ensures
        s.insert(p, x).contains(y) <==> (y == x || s.contains(y)),
{
    let t = s.insert(p, x);
    s.insert_ensures(p, x);
    assert(t[p] == x);
    if s.contains(y) {
        let i = choose|i: int| 0 <= i < s.len() && s[i] == y;
        if i < p {
            assert(t[i] == y);
        } else {
            assert(t[i + 1] == y);
        }
    }
    if t.contains(y) && y != x {
        let i = choose|i: int| 0 <= i < t.len() && t[i] == y;
        if i < p {
            assert(s[i] == y);
        } else {
            assert(s[i - 1] == y);
        }
    }
}

/// The position where `e` belongs among sorted identifiers: the first index
/// whose element comes after `e`.
#[verifier::loop_isolation(false)]
fn ids_position(v: &Vec<Id>, e: &Id) -> (p: usize)
    requires
        sorted_names(v.deep_view()),
    ensures
        p <= v@.len(),
        forall|j: int| 0 <= j < p ==> !lex_lt(e@, #[trigger] v.deep_view()[j]),
        p < v@.len() ==> lex_lt(e@, v.deep_view()[p as int]),
{
    let n = v.len();
    let mut p: usize = 0;
    while p < n
        invariant
            p <= n,
            forall|j: int| 0 <= j < p ==> !lex_lt(e@, #[trigger] v.deep_view()[j]),
        decreases n - p,
    {
        if id_lt(e, &v[p]) {
            return p;
        }
        p += 1;
    }
    p
}

/// Insert one identifier into a sorted list, keeping it sorted.
#[verifier::loop_isolation(false)]
fn insert_sorted(out: &mut Vec<Id>, e: Id)
    requires
        sorted_names(old(out).deep_view()),
    ensures
        sorted_names(final(out).deep_view()),
        forall|x: Seq<char>| #[trigger]
            final(out).deep_view().contains(x) <==> (old(out).deep_view().contains(x) || x == e@),
{
    let ghost d = out.deep_view();
    let ghost ev = e@;
    let p = ids_position(out, &e);
    out.insert(p, e);
    proof {
        assert(out.deep_view() =~= d.insert(p as int, ev)) by {
            d.insert_ensures(p as int, ev);
            assert forall|j: int| 0 <= j < out.deep_view().len() implies out.deep_view()[j]
                == d.insert(p as int, ev)[j] by {
                if j < p {
                    assert(out@[j] == old(out)@[j]);
                } else if j > p {
                    assert(out@[j] == old(out)@[j - 1]);
                }
            }
        }
        let t = out.deep_view();
        d.insert_ensures(p as int, ev);
        assert forall|a: int, b: int| 0 <= a < b < t.len() implies !lex_lt(t[b], t[a]) by {
            if a < p {
                assert(t[a] == d[a]);
            } else if a == p {
                assert(t[a] == ev);
            } else {
                assert(t[a] == d[a - 1]);
            }
            if b < p {
                assert(t[b] == d[b]);
            } else if b == p {
                assert(t[b] == ev);
            } else {
                assert(t[b] == d[b - 1]);
            }
            if a < p && b == p {
                // t[b] is e; nothing before p comes after e
                if lex_lt(t[b], t[a]) {
                    lemma_lex_asymmetric(t[b], t[a]);
                }
            } else if a == p && b > p {
                // e comes before d[p], which comes no later than d[b-1]
                if lex_lt(t[b], t[a]) {
                    if b - 1 > p {
                        lemma_lex_transitive(d[b - 1], ev, d[p as int]);
                        lemma_lex_asymmetric(d[b - 1], d[p as int]);
                    } else {
                        lemma_lex_asymmetric(ev, d[p as int]);
                    }
                }
            } else if a < p && b > p {
                assert(!lex_lt(d[b - 1], d[a]));
            }
        }
        assert forall|x: Seq<char>| #[trigger]
            t.contains(x) <==> (d.contains(x) || x == ev) by {
            lemma_contains_insert(d, p as int, ev, x);
        }
    }
}

/// Sort a list of identifiers by name.
#[verifier::loop_isolation(false)]
fn sort_ids(v: Vec<Id>) -> (r: Vec<Id>)
    ensures
        sorted_names(r.deep_view()),
        forall|x: Seq<char>| #[trigger] r.deep_view().contains(x) <==> v.deep_view().contains(x),
{
    let n = v.len();
    let mut r: Vec<Id> = Vec::new();
    let mut i: usize = 0;
    while i < n
        invariant
            i <= n,
            sorted_names(r.deep_view()),
            forall|x: Seq<char>| #[trigger]
                r.deep_view().contains(x) <==> v.deep_view().subrange(0, i as int).contains(x),
        decreases n - i,
    {
        let e = v[i].clone();
        insert_sorted(&mut r, e);
        proof {
            let pre = v.deep_view().subrange(0, i as int);
            let cur = v.deep_view().subrange(0, i + 1);
            assert(cur.drop_last() =~= pre);
            assert(cur.last() == v.deep_view()[i as int]);
            assert forall|x: Seq<char>| #[trigger]
                r.deep_view().contains(x) <==> cur.contains(x) by {
                crate::sets::lemma_contains_drop_last(cur, x);
            }
        }
        i += 1;
    }
    proof {
        assert(v.deep_view().subrange(0, n as int) =~= v.deep_view());
    }
    r
}

/// Drop adjacent duplicates from a sorted list, leaving it strictly sorted.
#[verifier::loop_isolation(false)]
fn dedup_sorted(v: Vec<Id>) -> (r: Vec<Id>)
    requires
        sorted_names(v.deep_view()),
    ensures
        strictly_sorted_names(r.deep_view()),
        forall|x: Seq<char>| #[trigger] r.deep_view().contains(x) <==> v.deep_view().contains(x),
{
    let n = v.len();
    let mut r: Vec<Id> = Vec::new();
    let mut i: usize = 0;
    while i < n
        invariant
            i <= n,
            strictly_sorted_names(r.deep_view()),
            forall|x: Seq<char>| #[trigger]
                r.deep_view().contains(x) <==> v.deep_view().subrange(0, i as int).contains(x),
            i > 0 ==> r.deep_view().len() > 0 && r.deep_view().last() == v.deep_view()[i - 1],
        decreases n - i,
    {
        proof {
            let pre = v.deep_view().subrange(0, i as int);
            let cur = v.deep_view().subrange(0, i + 1);
            assert(cur.drop_last() =~= pre);
            assert(cur.last() == v.deep_view()[i as int]);
        }
        let keep = r.len() == 0 || !(r[r.len() - 1] == v[i]);
        if keep {
            let ghost d = r.deep_view();
            let e = v[i].clone();
            r.push(e);
            proof {
                assert(r.deep_view() =~= d.push(v.deep_view()[i as int]));
                let t = r.deep_view();
                let ev = v.deep_view()[i as int];
                if d.len() > 0 {
                    // the old last element differs from the new one, and the
                    // input is sorted, so the new element comes strictly later
                    assert(i > 0) by {
                        if i == 0 {
                            assert(d.contains(d[0]));
                        }
                    }
                    assert(d.last() == v.deep_view()[i - 1]);
                    assert(d.last() != ev);
                    assert(!lex_lt(ev, v.deep_view()[i - 1]));
                    lemma_lex_connex(d.last(), ev);
                    assert(lex_lt(d.last(), ev));
                    assert forall|a: int, b: int| 0 <= a < b < t.len() implies lex_lt(
                        t[a],
                        t[b],
                    ) by {
                        if b == t.len() - 1 && a < d.len() - 1 {
                            lemma_lex_transitive(d[a], d.last(), ev);
                        }
                    }
                }
                assert forall|x: Seq<char>| #[trigger]
                    t.contains(x) <==> (d.contains(x) || x == ev) by {
                    crate::sets::lemma_contains_push(d, ev, x);
                }
                assert forall|x: Seq<char>| #[trigger]
                    t.contains(x) <==> v.deep_view().subrange(0, i + 1).contains(x) by {
                    crate::sets::lemma_contains_drop_last(v.deep_view().subrange(0, i + 1), x);
                }
            }
        } else {
            proof {
                let ev = v.deep_view()[i as int];
                assert(r.deep_view().last() == ev);
                assert(r.deep_view().contains(ev));
                assert forall|x: Seq<char>| #[trigger]
                    r.deep_view().contains(x) <==> v.deep_view().subrange(0, i + 1).contains(x) by {
                    crate::sets::lemma_contains_drop_last(v.deep_view().subrange(0, i + 1), x);
                }
            }
        }
        i += 1;
    }
    proof {
        assert(v.deep_view().subrange(0, n as int) =~= v.deep_view());
    }
    r
}

/// Gather the direct contributions of every class on `path`, in path order,
/// duplicates kept.
#[verifier::loop_isolation(false)]
fn collect_members(path: &Vec<Id>, column: &Column) -> (r: Vec<Id>)
    requires
        sorted_entries(column@),
    ensures
        forall|x: Seq<char>| #[trigger]
            r.deep_view().contains(x) <==> member_visible(
                path.deep_view(),
                entries_map(column@),
                x,
            ),
{
    proof {
        lemma_sorted_entries_distinct(column@);
        lemma_entries_map_contains(column@);
    }
    let n = path.len();
    let mut r: Vec<Id> = Vec::new();
    let mut i: usize = 0;
    while i < n
        invariant
            i <= n,
            forall|x: Seq<char>| #[trigger]
                r.deep_view().contains(x) <==> member_visible(
                    path.deep_view().subrange(0, i as int),
                    entries_map(column@),
                    x,
                ),
        decreases n - i,
    {
        let ghost m = entries_map(column@);
        let ghost pre = path.deep_view().subrange(0, i as int);
        let ghost cur = path.deep_view().subrange(0, i + 1);
        proof {
            assert(cur.drop_last() =~= pre);
            assert(cur.last() == path.deep_view()[i as int]);
            assert forall|x: Seq<char>|
                member_visible(cur, m, x) <==> (member_visible(pre, m, x) || (m.contains_key(
                    path.deep_view()[i as int],
                ) && m[path.deep_view()[i as int]].contains(x))) by {
                if member_visible(cur, m, x) {
                    let j = choose|j: int|
                        0 <= j < cur.len() && m.contains_key(#[trigger] cur[j]) && m[cur[j]].contains(
                            x,
                        );
                    if j < i {
                        assert(pre[j] == cur[j]);
                        assert(member_visible(pre, m, x));
                    }
                }
                if member_visible(pre, m, x) {
                    let j = choose|j: int|
                        0 <= j < pre.len() && m.contains_key(#[trigger] pre[j]) && m[pre[j]].contains(
                            x,
                        );
                    assert(cur[j] == pre[j]);
                    assert(member_visible(cur, m, x));
                }
                let pv = path.deep_view()[i as int];
                if m.contains_key(pv) && m[pv].contains(x) {
                    assert(cur[i as int] == path.deep_view()[i as int]);
                    assert(member_visible(cur, m, x));
                }
            }
        }
        match column_find(column, &path[i]) {
            Some(j) => {
                proof {
                    lemma_entries_map_index(column@, j as int);
                }
                let mut c = clone_ids(&column[j].1);
                let ghost d = r.deep_view();
                let ghost cv = c.deep_view();
                r.append(&mut c);
                proof {
                    assert(r.deep_view() =~= d + cv);
                    assert(cv == column@[j as int].1.deep_view());
                    assert forall|x: Seq<char>| #[trigger]
                        r.deep_view().contains(x) <==> member_visible(cur, m, x) by {
                        lemma_contains_concat(d, cv, x);
                    }
                }
            },
            None => {
                proof {
                    assert(!m.contains_key(path.deep_view()[i as int]));
                }
            },
        }
        i += 1;
    }
    proof {
        assert(path.deep_view().subrange(0, n as int) =~= path.deep_view());
    }
    r
}

impl C3 {
    /// All function names visible to a class: the direct contributions of
    /// every class on its path, deduplicated and sorted. This view answers
    /// membership only; precedence comes from the dispatch chain.
    pub fn functions(&self, class: &Id) -> (r: Vec<Id>)
        requires
            self.wf(),
            self@.classes.contains_key(class@),
        ensures
            strictly_sorted_names(r.deep_view()),
            forall|x: Seq<char>| #[trigger]
                r.deep_view().contains(x) <==> member_visible(
                    self@.classes[class@],
                    self@.functions,
                    x,
                ),
    {
        let path = match self.path(class) {
            Ok(p) => p,
            Err(_) => vstd::pervasive::unreached(),
        };
        let all = collect_members(&path, &self.functions);
        let sorted = sort_ids(all);
        dedup_sorted(sorted)
    }

    /// All function names visible to a class, as strings.
    pub fn functions_str(&self, class: &str) -> (r: Vec<String>)
        requires
            self.wf(),
            self@.classes.contains_key(class@),
        ensures
            strictly_sorted_names(r.deep_view()),
            forall|x: Seq<char>| #[trigger]
                r.deep_view().contains(x) <==> member_visible(
                    self@.classes[class@],
                    self@.functions,
                    x,
                ),
    {
        let c = Id::from(class);
        let funs = self.functions(&c);
        ids_to_strings(&funs)
    }

    /// All variable names visible to a class, deduplicated and sorted.
    pub fn variables(&self, class: &Id) -> (r: Vec<Id>)
        requires
            self.wf(),
            self@.classes.contains_key(class@),
        ensures
            strictly_sorted_names(r.deep_view()),
            forall|x: Seq<char>| #[trigger]
                r.deep_view().contains(x) <==> member_visible(
                    self@.classes[class@],
                    self@.variables,
                    x,
                ),
    {
        let path = match self.path(class) {
            Ok(p) => p,
            Err(_) => vstd::pervasive::unreached(),
        };
        let all = collect_members(&path, &self.variables);
        let sorted = sort_ids(all);
        dedup_sorted(sorted)
    }

    /// All variable names visible to a class, as strings.
    pub fn varialbes_str(&self, class: &str) -> (r: Vec<String>)
        requires
            self.wf(),
            self@.classes.contains_key(class@),
        ensures
            strictly_sorted_names(r.deep_view()),
            forall|x: Seq<char>| #[trigger]
                r.deep_view().contains(x) <==> member_visible(
                    self@.classes[class@],
                    self@.variables,
                    x,
                ),
    {
        let c = Id::from(class);
        let vars = self.variables(&c);
        ids_to_strings(&vars)
    }

    /// The candidate sets for merging a class with parent list `bases`: the
    /// registered path of each parent (skipping empty ones), then the parent
    /// list itself; fails on the first parent that was never registered.
    #[verifier::loop_isolation(false)]
    pub fn sets_for(&self, bases: Vec<Id>) -> (r: Result<crate::sets::Sets, C3Error>)
        requires
            self.wf(),
        ensures
            match r {
                Ok(s) => {
                    &&& forall|j: int|
                        0 <= j < bases@.len() ==> self@.classes.contains_key(
                            #[trigger] bases.deep_view()[j],
                        )
                    &&& s@ == merge_input(self@.classes, bases.deep_view())
                    &&& crate::sets::sets_wf(s@)
                },
                Err(e) => {
                    &&& e matches C3Error::BaseClassDoesNotExists(name) && exists|j: int|
                        {
                            &&& 0 <= j < bases@.len()
                            &&& !self@.classes.contains_key(#[trigger] bases.deep_view()[j])
                            &&& name@ == bases.deep_view()[j]
                            &&& forall|k: int|
                                0 <= k < j ==> self@.classes.contains_key(
                                    #[trigger] bases.deep_view()[k],
                                )
                        }
                },
            },
    {
        let mut sets = crate::sets::Sets::new();
        let n = bases.len();
        let mut i: usize = 0;
        while i < n
            invariant
                i <= n,
                sets@ == parent_path_sets(self@.classes, bases.deep_view().subrange(0, i as int)),
                crate::sets::sets_wf(sets@),
                forall|j: int|
                    0 <= j < i ==> self@.classes.contains_key(#[trigger] bases.deep_view()[j]),
            decreases n - i,
        {
            let ghost pre = bases.deep_view().subrange(0, i as int);
            let ghost cur = bases.deep_view().subrange(0, i + 1);
            proof {
                assert(cur.drop_last() =~= pre);
                assert(cur.last() == bases.deep_view()[i as int]);
            }
            let p = match self.path(&bases[i]) {
                Ok(p) => p,
                Err(e) => {
                    return Err(e);
                },
            };
            if !p.is_empty() {
                match sets.push(p) {
                    Ok(_) => {},
                    Err(_) => {
                        return vstd::pervasive::unreached();
                    },
                }
            }
            i += 1;
        }
        proof {
            assert(bases.deep_view().subrange(0, n as int) =~= bases.deep_view());
        }
        if !bases.is_empty() {
            let ghost before = sets@;
            let ghost bv = bases.deep_view();
            match sets.push(bases) {
                Ok(_) => {},
                Err(_) => {
                    return vstd::pervasive::unreached();
                },
            }
            proof {
                assert(sets@ =~= before + seq![bv]);
            }
        } else {
            proof {
                assert(sets@ =~= merge_input(self@.classes, bases.deep_view()));
            }
        }
        Ok(sets)
    }

    /// The dispatch chain for one function name on one class: the classes of
    /// the linearized path that declare the function, most derived first.
    /// Each listed class identifies the implementation it contributes.
    #[verifier::loop_isolation(false)]
    pub fn dispatch_chain(&self, class: &Id, fun: &Id) -> (r: Result<Vec<Id>, C3Error>)
        requires
            self.wf(),
        ensures
            match r {
                Ok(chain) => {
                    &&& self@.classes.contains_key(class@)
                    &&& chain.deep_view() == spec_dispatch_chain(
                        self@.classes[class@],
                        self@.functions,
                        fun@,
                    )
                },
                Err(e) => {
                    &&& !self@.classes.contains_key(class@)
                    &&& e matches C3Error::BaseClassDoesNotExists(name) && name@ == class@
                },
            },
    {
        proof {
            lemma_sorted_entries_distinct(self.functions@);
            lemma_entries_map_contains(self.functions@);
        }
        let path = match self.path(class) {
            Ok(p) => p,
            Err(e) => {
                return Err(e);
            },
        };
        let n = path.len();
        let mut chain: Vec<Id> = Vec::new();
        let mut i: usize = 0;
        while i < n
            invariant
                i <= n,
                chain.deep_view() == spec_dispatch_chain(
                    path.deep_view().subrange(0, i as int),
                    self@.functions,
                    fun@,
                ),
            decreases n - i,
        {
            let ghost pre = path.deep_view().subrange(0, i as int);
            let ghost cur = path.deep_view().subrange(0, i + 1);
            proof {
                assert(cur.drop_last() =~= pre);
                assert(cur.last() == path.deep_view()[i as int]);
            }
            match column_find(&self.functions, &path[i]) {
                Some(j) => {
                    proof {
                        lemma_entries_map_index(self.functions@, j as int);
                    }
                    if crate::contains_id(self.functions[j].1.as_slice(), fun) {
                        let ghost d = chain.deep_view();
                        let e = path[i].clone();
                        chain.push(e);
                        proof {
                            assert(chain.deep_view() =~= d.push(path.deep_view()[i as int]));
                        }
                    }
                },
                None => {
                    proof {
                        assert(!self@.functions.contains_key(path.deep_view()[i as int]));
                    }
                },
            }
            i += 1;
        }
        proof {
            assert(path.deep_view().subrange(0, n as int) =~= path.deep_view());
        }
        Ok(chain)
    }
}

} // verus!
