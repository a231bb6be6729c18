//! A name-keyed table: an association list kept strictly sorted by key, so
//! that its iteration order is deterministic (name-sorted) no matter in which
//! order entries were inserted. Inserting an existing key replaces its value,
//! so duplicate names resolve to the last insertion.

use vstd::prelude::*;
use crate::text::lex_lt;
use crate::text::lemma_lex_irrefl;
use crate::text::lemma_lex_total;
use crate::text::lemma_lex_trans;
use crate::text::str_eq;
use crate::text::str_lt;

verus! {

pub struct NameMap<V> {
    entries: Vec<(String, V)>,
}

/// The keys of an entry sequence, as character sequences, in entry order.
pub open spec fn key_seq<V>(s: Seq<(String, V)>) -> Seq<Seq<char>> {
    s.map_values(|p: (String, V)| p.0@)
}

/// Entries are strictly sorted by key.
pub open spec fn strictly_sorted<V>(s: Seq<(String, V)>) -> bool {
    forall|i: int, j: int|
        0 <= i < j < s.len() ==> lex_lt(#[trigger] s[i].0@, #[trigger] s[j].0@)
}

/// The mapping an entry sequence stands for; later entries override earlier.
pub open spec fn assoc_map<V>(s: Seq<(String, V)>) -> Map<Seq<char>, V>
    decreases s.len(),
{
    if s.len() == 0 {
        Map::empty()
    } else {
        assoc_map(s.drop_last()).insert(s.last().0@, s.last().1)
    }
}

/// The mapping's domain is exactly the set of keys of the entries.
proof fn lemma_assoc_dom<V>(s: Seq<(String, V)>)
    ensures
        assoc_map(s).dom() =~= key_seq(s).to_set(),
    decreases s.len(),
{
    if s.len() == 0 {
    } else {
        lemma_assoc_dom(s.drop_last());
        assert forall|k: Seq<char>|
            assoc_map(s).dom().contains(k) == key_seq(s).to_set().contains(k) by {
            if assoc_map(s).dom().contains(k) {
                if k == s.last().0@ {
                    assert(key_seq(s)[s.len() - 1] == k);
                    assert(key_seq(s).contains(k));
                } else {
                    assert(key_seq(s.drop_last()).contains(k));
                    let i = choose|i: int|
                        0 <= i < key_seq(s.drop_last()).len() && key_seq(s.drop_last())[i] == k;
                    assert(key_seq(s)[i] == k);
                    assert(key_seq(s).contains(k));
                }
            }
            if key_seq(s).to_set().contains(k) {
                let i = choose|i: int| 0 <= i < key_seq(s).len() && key_seq(s)[i] == k;
                if i < s.len() - 1 {
                    assert(key_seq(s.drop_last())[i] == k);
                    assert(key_seq(s.drop_last()).contains(k));
                }
            }
        }
    }
}

/// Replacing the one entry that holds a key is, at the mapping level, an insert.
proof fn lemma_assoc_update<V>(s: Seq<(String, V)>, i: int, p: (String, V))
    requires
        0 <= i < s.len(),
        p.0@ == s[i].0@,
        forall|j: int| 0 <= j < s.len() && j != i ==> (#[trigger] s[j].0@) != p.0@,
    ensures
        assoc_map(s.update(i, p)) == assoc_map(s).insert(p.0@, p.1),
    decreases s.len(),
{
    let t = s.update(i, p);
    if i == s.len() - 1 {
        assert(t.drop_last() =~= s.drop_last());
        assert(t.last() == p);
        assert(assoc_map(t) =~= assoc_map(s).insert(p.0@, p.1));
    } else {
        assert(t.drop_last() =~= s.drop_last().update(i, p));
        assert(t.last() == s.last());
        assert forall|j: int|
            0 <= j < s.drop_last().len() && j != i implies (#[trigger] s.drop_last()[j].0@)
            != p.0@ by {
            assert(s.drop_last()[j] == s[j]);
        }
        lemma_assoc_update(s.drop_last(), i, p);
        assert(s.last().0@ != p.0@);
        assert(assoc_map(t) =~= assoc_map(s).insert(p.0@, p.1));
    }
}

/// Inserting an entry under a fresh key is, at the mapping level, an insert.
proof fn lemma_assoc_insert_at<V>(s: Seq<(String, V)>, i: int, p: (String, V))
    requires
        0 <= i <= s.len(),
        forall|j: int| 0 <= j < s.len() ==> (#[trigger] s[j].0@) != p.0@,
    ensures
        assoc_map(s.insert(i, p)) == assoc_map(s).insert(p.0@, p.1),
    decreases s.len(),
{
    let t = s.insert(i, p);
    s.insert_ensures(i, p);
    if i == s.len() {
        assert(t.drop_last() =~= s);
        assert(t.last() == p);
        assert(assoc_map(t) =~= assoc_map(s).insert(p.0@, p.1));
    } else {
        assert(t.drop_last() =~= s.drop_last().insert(i, p));
        assert(t.last() == s.last());
        assert forall|j: int|
            0 <= j < s.drop_last().len() implies (#[trigger] s.drop_last()[j].0@) != p.0@ by {
            assert(s.drop_last()[j] == s[j]);
        }
        lemma_assoc_insert_at(s.drop_last(), i, p);
        assert(s.last().0@ != p.0@);
        assert(assoc_map(t) =~= assoc_map(s).insert(p.0@, p.1));
    }
}

impl<V> View for NameMap<V> {
    type V = Map<Seq<char>, V>;

    closed spec fn view(&self) -> Map<Seq<char>, V> {
        assoc_map(self.entries@)
    }
}

impl<V> NameMap<V> {
    /// Entries are strictly sorted by key. Constructors establish this and
    /// insertion preserves it; functions that hand a table on state it.
    pub closed spec fn wf(self) -> bool {
        strictly_sorted(self.entries@)
    }

    /// The keys of the table, in the order the table hands entries out.
    pub closed spec fn key_list(self) -> Seq<Seq<char>> {
        key_seq(self.entries@)
    }

    /// The key order is strictly sorted, keys are unique, and the ordered
    /// keys are exactly the mapping's domain.
    pub proof fn lemma_sorted(self)
        requires
            self.wf(),
        ensures
            forall|i: int, j: int|
                0 <= i < j < self.key_list().len() ==> lex_lt(
                    #[trigger] self.key_list()[i],
                    #[trigger] self.key_list()[j],
                ),
            self@.dom() =~= self.key_list().to_set(),
            self.key_list().no_duplicates(),
    {
        lemma_assoc_dom(self.entries@);
        assert forall|i: int, j: int|
            0 <= i < j < self.key_list().len() implies lex_lt(
            #[trigger] self.key_list()[i],
            #[trigger] self.key_list()[j],
        ) by {
            assert(self.key_list()[i] == self.entries@[i].0@);
            assert(self.key_list()[j] == self.entries@[j].0@);
        }
        assert forall|i: int, j: int|
            0 <= i < self.key_list().len() && 0 <= j < self.key_list().len() && i != j
            implies self.key_list()[i] != self.key_list()[j] by {
            if i < j {
                lemma_lex_irrefl(self.key_list()[i]);
            } else {
                lemma_lex_irrefl(self.key_list()[j]);
            }
        }
    }

    /// An empty table.
    pub fn new() -> (r: Self)
        ensures
            r.wf(),
            r@ == Map::<Seq<char>, V>::empty(),
            r.key_list() == Seq::<Seq<char>>::empty(),
    {
        let r = NameMap { entries: Vec::new() };
        proof {
            assert(r.key_list() =~= Seq::<Seq<char>>::empty());
        }
        r
    }

    /// The number of entries.
    pub fn len(&self) -> (n: usize)
        ensures
            n == self.key_list().len(),
    {
        self.entries.len()
    }

    /// The key at a position, in sorted order.
    pub fn key_at(&self, i: usize) -> (r: &String)
        requires
            i < self.key_list().len(),
        ensures
            r@ == self.key_list()[i as int],
    {
        &self.entries[i].0
    }

    /// Looks a key up.
    pub fn get<'a>(&'a self, key: &str) -> (r: Option<&'a V>)
        requires
            self.wf(),
        ensures
            match r {
                Some(v) => self@.contains_key(key@) && *v == self@[key@],
                None => !self@.contains_key(key@),
            },
    {
        proof {
            lemma_assoc_dom(self.entries@);
        }
        let n = self.entries.len();
        let mut i: usize = 0;
        while i < n
            invariant
                n == self.entries@.len(),
                i <= n,
                strictly_sorted(self.entries@),
                self@ == assoc_map(self.entries@),
                self@.dom() =~= key_seq(self.entries@).to_set(),
                forall|j: int| 0 <= j < i ==> (#[trigger] self.entries@[j].0@) != key@,
            decreases n - i,
        {
            if str_eq(self.entries[i].0.as_str(), key) {
                proof {
                    assert forall|x: int, y: int|
                        0 <= x < self.entries@.len() && 0 <= y < self.entries@.len() && x != y
                        implies (#[trigger] self.entries@[x].0@) != (
                    #[trigger] self.entries@[y].0@) by {
                        if x < y {
                            lemma_lex_irrefl(self.entries@[x].0@);
                        } else {
                            lemma_lex_irrefl(self.entries@[y].0@);
                        }
                    }
                    lemma_assoc_index(self.entries@, i as int);
                }
                return Some(&self.entries[i].1);
            }
            i += 1;
        }
        proof {
            assert forall|j: int|
                0 <= j < key_seq(self.entries@).len() implies key_seq(self.entries@)[j]
                != key@ by {
                assert(key_seq(self.entries@)[j] == self.entries@[j].0@);
            }
            if self@.contains_key(key@) {
                assert(key_seq(self.entries@).to_set().contains(key@));
                let j = choose|j: int|
                    0 <= j < key_seq(self.entries@).len() && key_seq(self.entries@)[j] == key@;
                assert(false);
            }
        }
        None
    }

    /// Inserts a value under a key, replacing any earlier value for that key.
    pub fn insert(&mut self, key: String, value: V)
        requires
            old(self).wf(),
        ensures
            final(self).wf(),
            final(self)@ == old(self)@.insert(key@, value),
            final(self).key_list().to_set() =~= old(self).key_list().to_set().insert(key@),
    {
        proof {
            lemma_assoc_dom(self.entries@);
        }
        let ghost s0: Seq<(String, V)> = self.entries@;
        let n = self.entries.len();
        let mut i: usize = 0;
        while i < n && str_lt(self.entries[i].0.as_str(), key.as_str())
            invariant
                n == self.entries@.len(),
                i <= n,
                self.entries@ == s0,
                strictly_sorted(s0),
                forall|j: int| 0 <= j < i ==> lex_lt(#[trigger] s0[j].0@, key@),
            decreases n - i,
        {
            i += 1;
        }
        // Here every entry before i has a key below `key`, and, if i is in
        // range, entry i's key is not below `key`.
        if i < n && str_eq(self.entries[i].0.as_str(), key.as_str()) {
            proof {
                assert forall|j: int|
                    0 <= j < s0.len() && j != i implies (#[trigger] s0[j].0@) != key@ by {
                    if j < i {
                        lemma_lex_irrefl(key@);
                    } else {
                        lemma_lex_irrefl(s0[i as int].0@);
                    }
                }
                lemma_assoc_update(s0, i as int, (key, value));
            }
            let _ = self.entries.remove(i);
            self.entries.insert(i, (key, value));
            proof {
                assert(self.entries@ =~= s0.update(i as int, (key, value)));
                assert(strictly_sorted(self.entries@));
                lemma_assoc_dom(self.entries@);
                assert(key_seq(self.entries@).to_set() =~= key_seq(s0).to_set().insert(key@));
            }
        } else {
            proof {
                if i < n {
                    lemma_lex_total(s0[i as int].0@, key@);
                    assert(lex_lt(key@, s0[i as int].0@));
                }
                assert forall|j: int| 0 <= j < s0.len() implies (#[trigger] s0[j].0@) != key@ by {
                    if j < i {
                        lemma_lex_irrefl(key@);
                    } else {
                        if j > i {
                            lemma_lex_trans(key@, s0[i as int].0@, s0[j].0@);
                        }
                        lemma_lex_irrefl(key@);
                    }
                }
                lemma_assoc_insert_at(s0, i as int, (key, value));
                s0.insert_ensures(i as int, (key, value));
            }
            self.entries.insert(i, (key, value));
            proof {
                let t = self.entries@;
                assert forall|x: int, y: int|
                    0 <= x < y < t.len() implies lex_lt(#[trigger] t[x].0@, #[trigger] t[y].0@) by {
                    if y < i {
                        assert(t[x] == s0[x] && t[y] == s0[y]);
                    } else if x < i && y == i {
                        assert(t[x] == s0[x]);
                    } else if x < i && y > i {
                        assert(t[x] == s0[x] && t[y] == s0[y - 1]);
                        if y - 1 == i {
                            if x < i {
                                assert(lex_lt(s0[x].0@, key@));
                                assert(lex_lt(key@, s0[i as int].0@));
                            }
                            assert(lex_lt(t[x].0@, t[y].0@));
                        }
                    } else if x == i {
                        assert(t[y] == s0[y - 1]);
                        if y - 1 == i {
                            assert(lex_lt(key@, s0[i as int].0@));
                        } else {
                            lemma_lex_trans(key@, s0[i as int].0@, s0[y - 1].0@);
                        }
                    } else {
                        assert(t[x] == s0[x - 1] && t[y] == s0[y - 1]);
                    }
                }
                lemma_assoc_dom(self.entries@);
                assert(key_seq(self.entries@).to_set() =~= key_seq(s0).to_set().insert(key@));
            }
        }
    }
}

/// In a table with unique keys, the entry at an index gives that key's value.
proof fn lemma_assoc_index<V>(s: Seq<(String, V)>, i: int)
    requires
        0 <= i < s.len(),
        forall|x: int, y: int|
            0 <= x < s.len() && 0 <= y < s.len() && x != y ==> (#[trigger] s[x].0@) != (
            #[trigger] s[y].0@),
    ensures
        assoc_map(s).contains_key(s[i].0@),
        assoc_map(s)[s[i].0@] == s[i].1,
    decreases s.len(),
{
    if i == s.len() - 1 {
    } else {
        assert forall|x: int, y: int|
            0 <= x < s.drop_last().len() && 0 <= y < s.drop_last().len() && x != y implies (
        #[trigger] s.drop_last()[x].0@) != (#[trigger] s.drop_last()[y].0@) by {
            assert(s.drop_last()[x] == s[x]);
            assert(s.drop_last()[y] == s[y]);
        }
        lemma_assoc_index(s.drop_last(), i);
        assert(s.drop_last()[i] == s[i]);
        assert(s.last().0@ != s[i].0@);
    }
}

/// A set of names, kept sorted; a thin wrapper over a table with no values.
pub struct NameSet {
    inner: NameMap<()>,
}

impl View for NameSet {
    type V = Set<Seq<char>>;

    closed spec fn view(&self) -> Set<Seq<char>> {
        self.inner@.dom()
    }
}

impl NameSet {
    /// Names are kept strictly sorted.
    pub closed spec fn wf(self) -> bool {
        self.inner.wf()
    }

    /// The names, in sorted order.
    pub closed spec fn key_list(self) -> Seq<Seq<char>> {
        self.inner.key_list()
    }

    /// An empty set.
    pub fn new() -> (r: Self)
        ensures
            r.wf(),
            r@ =~= Set::<Seq<char>>::empty(),
    {
        NameSet { inner: NameMap::new() }
    }

    /// Adds a name.
    pub fn insert(&mut self, name: String)
        requires
            old(self).wf(),
        ensures
            final(self).wf(),
            final(self)@ =~= old(self)@.insert(name@),
    {
        self.inner.insert(name, ());
    }

    /// Whether a name is in the set.
    pub fn contains(&self, name: &str) -> (r: bool)
        requires
            self.wf(),
        ensures
            r == self@.contains(name@),
    {
        self.inner.get(name).is_some()
    }

    /// The number of names.
    pub fn len(&self) -> (n: usize)
        ensures
            n == self.key_list().len(),
    {
        self.inner.len()
    }

    /// The name at a position, in sorted order.
    pub fn name_at(&self, i: usize) -> (r: &String)
        requires
            i < self.key_list().len(),
        ensures
            r@ == self.key_list()[i as int],
    {
        self.inner.key_at(i)
    }
}

} // verus!
