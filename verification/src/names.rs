//! A lookup from names to keys: at most one key per name, the latest
//! insertion of a name replacing the earlier one.
use crate::text::str_eq;
use vstd::prelude::*;

verus! {

/// The key the entry named `n` carries, if any entry is named `n`.
pub open spec fn find_name<K>(entries: Seq<(String, K)>, n: Seq<char>) -> Option<K>
    decreases entries.len(),
{
    if entries.len() == 0 {
        None
    } else if entries.last().0@ == n {
        Some(entries.last().1)
    } else {
        find_name(entries.drop_last(), n)
    }
}

/// No two entries carry the same name.
pub open spec fn names_unique<K>(entries: Seq<(String, K)>) -> bool {
    forall|i: int, j: int|
        0 <= i < entries.len() && 0 <= j < entries.len() && i != j ==> entries[i].0@
            != entries[j].0@
}

proof fn lemma_find_none<K>(entries: Seq<(String, K)>, n: Seq<char>)
    ensures
        find_name(entries, n) is None <==> forall|j: int|
            0 <= j < entries.len() ==> entries[j].0@ != n,
    decreases entries.len(),
{
    if entries.len() > 0 {
        lemma_find_none(entries.drop_last(), n);
        if find_name(entries, n) is None {
            assert forall|j: int| 0 <= j < entries.len() implies entries[j].0@ != n by {
                if j < entries.len() - 1 {
                    assert(entries.drop_last()[j] == entries[j]);
                }
            }
        } else if entries.last().0@ != n {
            let j = choose|j: int| 0 <= j < entries.drop_last().len() && entries.drop_last()[j].0@ == n;
            assert(entries[j] == entries.drop_last()[j]);
        }
    }
}

proof fn lemma_find_at<K>(entries: Seq<(String, K)>, i: int)
    requires
        names_unique(entries),
        0 <= i < entries.len(),
    ensures
        find_name(entries, entries[i].0@) == Some(entries[i].1),
    decreases entries.len(),
{
    if i < entries.len() - 1 {
        assert(entries.last().0@ != entries[i].0@);
        assert(entries.drop_last()[i] == entries[i]);
        lemma_find_at(entries.drop_last(), i);
    }
}

/// Names mapped to copyable keys.
pub struct NameMap<K> {
    entries: Vec<(String, K)>,
}

impl<K: Copy> NameMap<K> {
    /// The key `n` maps to, if any.
    pub closed spec fn lookup(&self, n: Seq<char>) -> Option<K> {
        find_name(self.entries@, n)
    }

    /// The names that map to `k`.
    pub closed spec fn names_of(&self, k: K) -> Set<Seq<char>> {
        Set::new(|n: Seq<char>| find_name(self.entries@, n) == Some(k))
    }

    /// No name occurs twice.
    pub closed spec fn wf(&self) -> bool {
        names_unique(self.entries@)
    }

    pub fn new() -> (m: Self)
        ensures
            m.wf(),
            forall|n: Seq<char>| #[trigger] m.lookup(n) is None,
    {
        NameMap { entries: Vec::new() }
    }

    fn position(&self, name: &str) -> (r: Option<usize>)
        ensures
            match r {
                Some(i) => i < self.entries@.len() && self.entries@[i as int].0@ == name@,
                None => forall|i: int| 0 <= i < self.entries@.len() ==> self.entries@[i].0@ != name@,
            },
    {
        let mut i: usize = 0;
        while i < self.entries.len()
            invariant
                i <= self.entries@.len(),
                forall|j: int| 0 <= j < i ==> self.entries@[j].0@ != name@,
            decreases self.entries@.len() - i,
        {
            if str_eq(self.entries[i].0.as_str(), name) {
                return Some(i);
            }
            i = i + 1;
        }
        None
    }

    /// The key a name maps to.
    pub fn get(&self, name: &str) -> (r: Option<K>)
        requires
            self.wf(),
        ensures
            r == self.lookup(name@),
    {
        match self.position(name) {
            Some(i) => {
                proof {
                    lemma_find_at(self.entries@, i as int);
                }
                Some(self.entries[i].1)
            },
            None => {
                proof {
                    lemma_find_none(self.entries@, name@);
                }
                None
            },
        }
    }

    /// Map `name` to `key`, replacing what the name mapped to before.
    pub fn insert(&mut self, name: String, key: K)
        requires
            old(self).wf(),
        ensures
            final(self).wf(),
            final(self).lookup(name@) == Some(key),
            forall|n: Seq<char>| n != name@ ==> #[trigger] final(self).lookup(n) == old(self).lookup(n),
    {
        let ghost old_entries = self.entries@;
        let ghost nm = name@;
        match self.position(name.as_str()) {
            Some(i) => {
                self.entries.set(i, (name, key));
                proof {
                    let s = self.entries@;
                    assert(names_unique(s)) by {
                        assert forall|a: int, b: int|
                            0 <= a < s.len() && 0 <= b < s.len() && a != b implies s[a].0@ != s[b].0@ by {
                            if a != i && b != i {
                                assert(s[a] == old_entries[a] && s[b] == old_entries[b]);
                            } else if a == i {
                                assert(s[b] == old_entries[b]);
                            } else {
                                assert(s[a] == old_entries[a]);
                            }
                        }
                    }
                    lemma_find_at(s, i as int);
                    assert forall|n: Seq<char>| n != nm implies #[trigger] find_name(s, n) == find_name(old_entries, n) by {
                        lemma_find_none(s, n);
                        lemma_find_none(old_entries, n);
                        if find_name(old_entries, n) is Some {
                            let j = choose|j: int| 0 <= j < old_entries.len() && old_entries[j].0@ == n;
                            assert(j != i);
                            assert(s[j] == old_entries[j]);
                            lemma_find_at(old_entries, j);
                            lemma_find_at(s, j);
                        } else {
                            assert forall|j: int| 0 <= j < s.len() implies s[j].0@ != n by {
                                if j != i {
                                    assert(s[j] == old_entries[j]);
                                }
                            }
                        }
                    }
                }
            },
            None => {
                self.entries.push((name, key));
                proof {
                    let s = self.entries@;
                    assert(s.drop_last() =~= old_entries);
                    assert(names_unique(s)) by {
                        assert forall|a: int, b: int|
                            0 <= a < s.len() && 0 <= b < s.len() && a != b implies s[a].0@ != s[b].0@ by {
                            if a < old_entries.len() && b < old_entries.len() {
                                assert(s[a] == old_entries[a] && s[b] == old_entries[b]);
                            } else if a < old_entries.len() {
                                assert(s[a] == old_entries[a]);
                            } else {
                                assert(s[b] == old_entries[b]);
                            }
                        }
                    }
                }
            },
        }
    }

    /// Forget the entry at position `i`.
    fn remove_at(&mut self, i: usize)
        requires
            old(self).wf(),
            i < old(self).entries@.len(),
        ensures
            final(self).wf(),
            final(self).lookup(old(self).entries@[i as int].0@) is None,
            forall|n: Seq<char>|
                n != old(self).entries@[i as int].0@ ==> #[trigger] final(self).lookup(n) == old(
                    self,
                ).lookup(n),
    {
        let ghost old_entries = self.entries@;
        let ghost gone = old_entries[i as int].0@;
        let _ = self.entries.remove(i);
        proof {
            let s = self.entries@;
            assert(s == old_entries.remove(i as int));
            assert forall|a: int, b: int|
                0 <= a < s.len() && 0 <= b < s.len() && a != b implies s[a].0@ != s[b].0@ by {
                let a2 = if a < i { a } else { a + 1 };
                let b2 = if b < i { b } else { b + 1 };
                assert(s[a] == old_entries[a2] && s[b] == old_entries[b2]);
            }
            lemma_find_none(s, gone);
            assert forall|j: int| 0 <= j < s.len() implies s[j].0@ != gone by {
                let j2 = if j < i { j } else { j + 1 };
                assert(s[j] == old_entries[j2]);
            }
            assert forall|n: Seq<char>| n != gone implies #[trigger] find_name(s, n) == find_name(
                old_entries,
                n,
            ) by {
                lemma_find_none(s, n);
                lemma_find_none(old_entries, n);
                if find_name(old_entries, n) is Some {
                    let j = choose|j: int| 0 <= j < old_entries.len() && old_entries[j].0@ == n;
                    assert(j != i);
                    let j1 = if j < i { j } else { j - 1 };
                    assert(s[j1] == old_entries[j]);
                    lemma_find_at(old_entries, j);
                    lemma_find_at(s, j1);
                } else {
                    assert forall|j: int| 0 <= j < s.len() implies s[j].0@ != n by {
                        let j2 = if j < i { j } else { j + 1 };
                        assert(s[j] == old_entries[j2]);
                    }
                }
            }
        }
    }

    /// Forget the name `name`.
    pub fn remove(&mut self, name: &str)
        requires
            old(self).wf(),
        ensures
            final(self).wf(),
            final(self).lookup(name@) is None,
            forall|n: Seq<char>| n != name@ ==> #[trigger] final(self).lookup(n) == old(self).lookup(n),
    {
        match self.position(name) {
            Some(i) => self.remove_at(i),
            None => {
                proof {
                    lemma_find_none(self.entries@, name@);
                }
            },
        }
    }
}

impl NameMap<crate::runtime::NodeKey> {
    /// Forget the first-registered name that maps to `key`, if any name does.
    /// Returns whether a name was forgotten.
    pub fn remove_name_of(&mut self, key: crate::runtime::NodeKey) -> (removed: bool)
        requires
            old(self).wf(),
        ensures
            final(self).wf(),
            removed <==> exists|n: Seq<char>| old(self).lookup(n) == Some(key),
            !removed ==> forall|n: Seq<char>| #[trigger] final(self).lookup(n) == old(self).lookup(n),
            removed ==> exists|gone: Seq<char>|
                #![trigger old(self).lookup(gone)]
                old(self).lookup(gone) == Some(key) && final(self).lookup(gone) is None && forall|
                    n: Seq<char>,
                | n != gone ==> #[trigger] final(self).lookup(n) == old(self).lookup(n),
    {
        let mut i: usize = 0;
        while i < self.entries.len()
            invariant
                self.wf(),
                self.entries@ == old(self).entries@,
                i <= self.entries@.len(),
                forall|j: int| 0 <= j < i ==> self.entries@[j].1 != key,
            decreases self.entries@.len() - i,
        {
            if self.entries[i].1 == key {
                let ghost gone = self.entries@[i as int].0@;
                proof {
                    lemma_find_at(self.entries@, i as int);
                    assert(old(self).lookup(gone) == Some(key));
                }
                self.remove_at(i);
                assert(final(self).lookup(gone) is None);
                return true;
            }
            i = i + 1;
        }
        proof {
            assert forall|n: Seq<char>| #[trigger] old(self).lookup(n) != Some(key) by {
                lemma_find_none(self.entries@, n);
                if find_name(self.entries@, n) is Some {
                    let j = choose|j: int| 0 <= j < self.entries@.len() && self.entries@[j].0@ == n;
                    lemma_find_at(self.entries@, j);
                }
            }
        }
        false
    }
}

} // verus!
