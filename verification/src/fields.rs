//! The output mapping of the parser: an ordered list of key/value pairs with
//! unique keys and last-write-wins insertion, modelled at the spec level as a
//! sequence of pairs of character sequences.

use vstd::prelude::*;

verus! {

/// Spec-level model of the mapping: the entries in insertion order.
pub type Fields = Seq<(Seq<char>, Seq<char>)>;

/// Index of the first entry with key `k`, or -1.
pub open spec fn al_index_of(s: Fields, k: Seq<char>) -> int
    decreases s.len(),
{
    if s.len() == 0 {
        -1
    } else if s[0].0 == k {
        0
    } else {
        let r = al_index_of(s.skip(1), k);
        if r == -1 {
            -1
        } else {
            r + 1
        }
    }
}

pub open spec fn al_contains(s: Fields, k: Seq<char>) -> bool {
    al_index_of(s, k) != -1
}

/// The value under `k`, if present.
pub open spec fn al_get(s: Fields, k: Seq<char>) -> Option<Seq<char>> {
    if al_index_of(s, k) == -1 {
        None
    } else {
        Some(s[al_index_of(s, k)].1)
    }
}

/// Last-write-wins insertion: replaces the value in place when the key is
/// present, appends a new entry otherwise.
pub open spec fn al_insert(s: Fields, k: Seq<char>, v: Seq<char>) -> Fields {
    if al_index_of(s, k) == -1 {
        s.push((k, v))
    } else {
        s.update(al_index_of(s, k), (k, v))
    }
}

/// Removal of the entry with key `k`, when present.
pub open spec fn al_remove(s: Fields, k: Seq<char>) -> Fields {
    if al_index_of(s, k) == -1 {
        s
    } else {
        s.remove(al_index_of(s, k))
    }
}

/// The keys are pairwise distinct.
pub open spec fn al_wf(s: Fields) -> bool {
    forall|i: int, j: int| 0 <= i < j < s.len() ==> s[i].0 != s[j].0
}

pub proof fn lemma_al_index_of(s: Fields, k: Seq<char>)
    ensures
        al_index_of(s, k) == -1 ==> (forall|i: int| 0 <= i < s.len() ==> s[i].0 != k),
        al_index_of(s, k) != -1 ==> 0 <= al_index_of(s, k) < s.len() && s[al_index_of(s, k)].0
            == k && (forall|i: int| 0 <= i < al_index_of(s, k) ==> s[i].0 != k),
    decreases s.len(),
{
    if s.len() > 0 && s[0].0 != k {
        lemma_al_index_of(s.skip(1), k);
        let r = al_index_of(s.skip(1), k);
        if r == -1 {
            assert forall|i: int| 0 <= i < s.len() implies s[i].0 != k by {
                if i > 0 {
                    assert(s.skip(1)[i - 1] == s[i]);
                }
            }
        } else {
            assert(s.skip(1)[r] == s[r + 1]);
            assert forall|i: int| 0 <= i < r + 1 implies s[i].0 != k by {
                if i > 0 {
                    assert(s.skip(1)[i - 1] == s[i]);
                }
            }
        }
    }
}

/// The flat field-name-to-value mapping a parsed line turns into.
#[derive(Debug, PartialEq, Clone)]
pub struct LeefMap {
    entries: Vec<(String, String)>,
}

impl View for LeefMap {
    type V = Fields;

    closed spec fn view(&self) -> Fields {
        Seq::new(self.entries@.len(), |i: int| (self.entries@[i].0@, self.entries@[i].1@))
    }
}

impl LeefMap {
    /// The keys are pairwise distinct.
    pub open spec fn wf(&self) -> bool {
        al_wf(self@)
    }

    pub fn new() -> (r: LeefMap)
        ensures
            r@ =~= Seq::<(Seq<char>, Seq<char>)>::empty(),
            r.wf(),
    {
        LeefMap { entries: Vec::new() }
    }

    pub fn len(&self) -> (n: usize)
        ensures
            n == self@.len(),
    {
        self.entries.len()
    }

    /// The key of the entry at position `i`.
    pub fn key_at(&self, i: usize) -> (k: &String)
        requires
            i < self@.len(),
        ensures
            k@ == self@[i as int].0,
    {
        &self.entries[i].0
    }

    /// The value of the entry at position `i`.
    pub fn value_at(&self, i: usize) -> (v: &String)
        requires
            i < self@.len(),
        ensures
            v@ == self@[i as int].1,
    {
        &self.entries[i].1
    }

    fn index_of(&self, k: &str) -> (r: Option<usize>)
        ensures
            match r {
                Some(i) => al_index_of(self@, k@) == i,
                None => al_index_of(self@, k@) == -1,
            },
    {
        proof {
            lemma_al_index_of(self@, k@);
        }
        let n = self.entries.len();
        let mut i: usize = 0;
        while i < n
            invariant
                0 <= i <= n,
                n == self@.len(),
                forall|j: int| 0 <= j < i ==> self@[j].0 != k@,
                al_index_of(self@, k@) == -1 ==> (forall|j: int|
                    0 <= j < self@.len() ==> self@[j].0 != k@),
                al_index_of(self@, k@) != -1 ==> 0 <= al_index_of(self@, k@) < self@.len()
                    && self@[al_index_of(self@, k@)].0 == k@ && (forall|j: int|
                    0 <= j < al_index_of(self@, k@) ==> self@[j].0 != k@),
            decreases n - i,
        {
            if crate::chars::str_eq(self.entries[i].0.as_str(), k) {
                proof {
                    assert(self@[i as int].0 == k@);
                    if al_index_of(self@, k@) == -1 {
                        assert(self@[i as int].0 != k@);
                    } else {
                        let r = al_index_of(self@, k@);
                        if r < i {
                            assert(self@[r].0 != k@);
                        } else if r > i {
                            assert(self@[i as int].0 != k@);
                        }
                    }
                }
                return Some(i);
            }
            i = i + 1;
        }
        None
    }

    pub fn contains_key(&self, k: &str) -> (r: bool)
        ensures
            r == al_contains(self@, k@),
    {
        self.index_of(k).is_some()
    }

    pub fn get<'a>(&'a self, k: &str) -> (r: Option<&'a String>)
        ensures
            match r {
                Some(v) => al_get(self@, k@) == Some(v@),
                None => al_get(self@, k@) is None,
            },
    {
        proof {
            lemma_al_index_of(self@, k@);
        }
        match self.index_of(k) {
            Some(i) => Some(&self.entries[i].1),
            None => None,
        }
    }

    pub fn insert(&mut self, k: String, v: String)
        ensures
            final(self)@ =~= al_insert(old(self)@, k@, v@),
            old(self).wf() ==> final(self).wf(),
    {
        proof {
            lemma_al_index_of(self@, k@);
        }
        match self.index_of(k.as_str()) {
            Some(i) => {
                self.entries.remove(i);
                self.entries.insert(i, (k, v));
                proof {
                    assert(self@ =~= al_insert(old(self)@, k@, v@));
                }
            },
            None => {
                self.entries.push((k, v));
                proof {
                    assert(self@ =~= al_insert(old(self)@, k@, v@));
                }
            },
        }
    }

    pub fn remove(&mut self, k: &str) -> (r: Option<String>)
        ensures
            final(self)@ =~= al_remove(old(self)@, k@),
            match r {
                Some(v) => al_get(old(self)@, k@) == Some(v@),
                None => al_get(old(self)@, k@) is None,
            },
            old(self).wf() ==> final(self).wf(),
    {
        proof {
            lemma_al_index_of(self@, k@);
        }
        match self.index_of(k) {
            Some(i) => {
                let p = self.entries.remove(i);
                proof {
                    assert(self@ =~= al_remove(old(self)@, k@));
                }
                Some(p.1)
            },
            None => {
                proof {
                    assert(self@ =~= al_remove(old(self)@, k@));
                }
                None
            },
        }
    }
}

} // verus!
