//! The run-to-run history: benchmark names mapped to their last valid
//! run record, with insertion replacing earlier records of a name.

use vstd::prelude::*;
use crate::stats::Stats;

verus! {

/// First entry for key `k`, scanning from the front.
pub open spec fn lookup(es: Seq<(Seq<char>, Stats)>, k: Seq<char>) -> Option<Stats>
    decreases es.len(),
{
    if es.len() == 0 {
        None
    } else if es[0].0 == k {
        Some(es[0].1)
    } else {
        lookup(es.drop_first(), k)
    }
}

/// Last entry for key `k`: what repeated insertion leaves behind.
pub open spec fn lookup_last(es: Seq<(Seq<char>, Stats)>, k: Seq<char>) -> Option<Stats>
    decreases es.len(),
{
    if es.len() == 0 {
        None
    } else if es.last().0 == k {
        Some(es.last().1)
    } else {
        lookup_last(es.drop_last(), k)
    }
}

proof fn lemma_lookup_at(es: Seq<(Seq<char>, Stats)>, i: int)
    requires
        0 <= i < es.len(),
        forall|j: int| 0 <= j < i ==> es[j].0 != es[i].0,
    ensures
        lookup(es, es[i].0) == Some(es[i].1),
    decreases es.len(),
{
    if i > 0 {
        lemma_lookup_at(es.drop_first(), i - 1);
    }
}

proof fn lemma_lookup_none(es: Seq<(Seq<char>, Stats)>, k: Seq<char>)
    requires
        forall|j: int| 0 <= j < es.len() ==> es[j].0 != k,
    ensures
        lookup(es, k) == None::<Stats>,
    decreases es.len(),
{
    if es.len() > 0 {
        lemma_lookup_none(es.drop_first(), k);
    }
}

/// Replacing the value at `i` leaves every other key's lookup alone.
proof fn lemma_lookup_update(es: Seq<(Seq<char>, Stats)>, i: int, v: Stats, k2: Seq<char>)
    requires
        0 <= i < es.len(),
        k2 != es[i].0,
    ensures
        lookup(es.update(i, (es[i].0, v)), k2) == lookup(es, k2),
    decreases es.len(),
{
    let t = es.update(i, (es[i].0, v));
    if i == 0 {
        assert(t.drop_first() =~= es.drop_first());
    } else {
        assert(t.drop_first() =~= es.drop_first().update(i - 1, (es[i].0, v)));
        lemma_lookup_update(es.drop_first(), i - 1, v, k2);
    }
}

/// Appending a fresh pair: its own key now resolves, others are
/// untouched.
proof fn lemma_lookup_push(es: Seq<(Seq<char>, Stats)>, k: Seq<char>, v: Stats, k2: Seq<char>)
    ensures
        k2 == k && (forall|j: int| 0 <= j < es.len() ==> es[j].0 != k) ==> lookup(
            es.push((k, v)),
            k2,
        ) == Some(v),
        k2 != k ==> lookup(es.push((k, v)), k2) == lookup(es, k2),
    decreases es.len(),
{
    if es.len() > 0 {
        let t = es.push((k, v));
        assert(t.drop_first() =~= es.drop_first().push((k, v)));
        lemma_lookup_push(es.drop_first(), k, v, k2);
        assert(t[0] == es[0]);
        if k2 != k {
            if es[0].0 == k2 {
                assert(lookup(t, k2) == Some(es[0].1));
                assert(lookup(es, k2) == Some(es[0].1));
            } else {
                assert(lookup(t, k2) == lookup(t.drop_first(), k2));
                assert(lookup(es, k2) == lookup(es.drop_first(), k2));
            }
        }
    } else {
        let t = es.push((k, v));
        assert(t[0] == (k, v));
        assert(t.drop_first() =~= Seq::<(Seq<char>, Stats)>::empty());
        if k2 != k {
            assert(lookup(t, k2) == lookup(t.drop_first(), k2));
            assert(lookup(t.drop_first(), k2) == None::<Stats>);
        }
    }
}

/// The persisted map of benchmark name to its last valid run record.
pub struct History {
    /// Entries with pairwise distinct names.
    pub entries: Vec<(String, Stats)>,
}

impl View for History {
    type V = Seq<(Seq<char>, Stats)>;

    open spec fn view(&self) -> Seq<(Seq<char>, Stats)> {
        self.entries@.map_values(|p: (String, Stats)| (p.0@, p.1))
    }
}

impl History {
    /// Names are unique.
    pub open spec fn wf(self) -> bool {
        forall|i: int, j: int| 0 <= i < j < self@.len() ==> self@[i].0 != self@[j].0
    }

    /// An empty history.
    pub fn new() -> (r: History)
        ensures
            r.wf(),
            r@.len() == 0,
    {
        History { entries: Vec::new() }
    }

    /// Number of records.
    pub fn len(&self) -> (r: usize)
        ensures
            r == self@.len(),
    {
        self.entries.len()
    }

    /// The record stored for `key`, if any.
    pub fn get(&self, key: &str) -> (r: Option<Stats>)
        requires
            self.wf(),
        ensures
            r == lookup(self@, key@),
    {
        let k = key.to_owned();
        let n = self.entries.len();
        let mut i: usize = 0;
        while i < n
            invariant
                self.wf(),
                n == self@.len(),
                i <= n,
                k@ == key@,
                forall|j: int| 0 <= j < i ==> self@[j].0 != key@,
            decreases n - i,
        {
            if self.entries[i].0 == k {
                proof {
                    assert(self@[i as int].0 == key@);
                    lemma_lookup_at(self@, i as int);
                }
                return Some(self.entries[i].1);
            }
            proof {
                assert(self@[i as int].0 == self.entries@[i as int].0@);
            }
            i = i + 1;
        }
        proof {
            lemma_lookup_none(self@, key@);
        }
        None
    }

    /// Stores `v` under `key`, replacing any earlier record of that name.
    pub fn insert(&mut self, key: &str, v: Stats)
        requires
            old(self).wf(),
        ensures
            final(self).wf(),
            lookup(final(self)@, key@) == Some(v),
            forall|k2: Seq<char>| k2 != key@ ==> lookup(final(self)@, k2) == lookup(
                old(self)@,
                k2,
            ),
            final(self)@.len() <= old(self)@.len() + 1,
    {
        let k = key.to_owned();
        let n = self.entries.len();
        let mut i: usize = 0;
        while i < n
            invariant
                self.wf(),
                self@ == old(self)@,
                n == self@.len(),
                i <= n,
                k@ == key@,
                forall|j: int| 0 <= j < i ==> self@[j].0 != key@,
            decreases n - i,
        {
            if self.entries[i].0 == k {
                proof {
                    assert(self@[i as int].0 == key@);
                }
                let ghost pre = self@;
                self.entries.remove(i);
                self.entries.insert(i, (k, v));
                proof {
                    assert(self@ =~= pre.update(i as int, (pre[i as int].0, v)));
                    lemma_lookup_at(self@, i as int);
                    assert forall|k2: Seq<char>| k2 != key@ implies lookup(self@, k2) == lookup(
                        pre,
                        k2,
                    ) by {
                        lemma_lookup_update(pre, i as int, v, k2);
                    }
                }
                return ;
            }
            proof {
                assert(self@[i as int].0 == self.entries@[i as int].0@);
            }
            i = i + 1;
        }
        let ghost pre = self@;
        self.entries.push((k, v));
        proof {
            assert(self@ =~= pre.push((key@, v)));
            assert forall|k2: Seq<char>| true implies lookup(self@, k2) == (if k2 == key@ {
                Some(v)
            } else {
                lookup(pre, k2)
            }) by {
                lemma_lookup_push(pre, key@, v, k2);
            }
        }
    }
}

} // verus!
