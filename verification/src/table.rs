use vstd::prelude::*;

use crate::defs::{EntryView, URD};
use crate::ur::UR;

verus! {

/// The mathematical content of an entry sequence, later entries shadowing
/// earlier ones (the table never holds two entries for one symbol).
pub open spec fn map_of(s: Seq<(usize, URD)>) -> Map<usize, EntryView>
    decreases s.len(),
{
    if s.len() == 0 {
        Map::empty()
    } else {
        map_of(s.drop_last()).insert(s.last().0, s.last().1@)
    }
}

/// The definitions table of one compile: each symbol identity maps to its
/// definition, unresolved or resolved.  Entries are never deleted; an entry
/// moves from unresolved to resolved at most once.
pub struct DefinitionTable {
    entries: Vec<(usize, URD)>,
}

impl DefinitionTable {
    pub closed spec fn view(&self) -> Map<usize, EntryView> {
        map_of(self.entries@)
    }

    /// Each symbol has at most one entry.
    pub closed spec fn wf(&self) -> bool {
        forall|i: int, j: int|
            0 <= i < j < self.entries@.len() ==> (#[trigger] self.entries@[i]).0 != (
            #[trigger] self.entries@[j]).0
    }

    pub fn new() -> (t: DefinitionTable)
        ensures
            t.wf(),
            t@ == Map::<usize, EntryView>::empty(),
    {
        DefinitionTable { entries: Vec::new() }
    }

    pub fn get(&self, k: usize) -> (r: Option<&URD>)
        requires
            self.wf(),
        ensures
            match r {
                Some(d) => self@.contains_key(k) && self@[k] == d@,
                None => !self@.contains_key(k),
            },
    {
        let n = self.entries.len();
        let mut i: usize = 0;
        while i < n
            invariant
                self.wf(),
                n == self.entries@.len(),
                i <= n,
                forall|j: int| 0 <= j < i ==> (#[trigger] self.entries@[j]).0 != k,
            decreases n - i,
        {
            if self.entries[i].0 == k {
                proof {
                    lemma_map_of_found(self.entries@, i as int);
                }
                return Some(&self.entries[i].1);
            }
            i += 1;
        }
        proof {
            lemma_map_of_absent(self.entries@, k);
        }
        None
    }

    /// Bind a symbol to an entry: a fresh binding when absent, replacing the
    /// old one when present.
    pub fn put(&mut self, k: usize, d: URD)
        requires
            old(self).wf(),
        ensures
            final(self).wf(),
            final(self)@ == old(self)@.insert(k, d@),
    {
        let n = self.entries.len();
        let mut i: usize = 0;
        while i < n
            invariant
                self.wf(),
                self.entries@ == old(self).entries@,
                n == self.entries@.len(),
                i <= n,
                forall|j: int| 0 <= j < i ==> (#[trigger] self.entries@[j]).0 != k,
            decreases n - i,
        {
            if self.entries[i].0 == k {
                proof {
                    lemma_map_of_update(self.entries@, i as int, d);
                }
                self.entries[i] = (k, d);
                return ;
            }
            i += 1;
        }
        proof {
            assert(self.entries@.push((k, d)).drop_last() =~= self.entries@);
            lemma_map_of_absent(self.entries@, k);
        }
        self.entries.push((k, d));
    }
}

proof fn lemma_map_of_found(s: Seq<(usize, URD)>, i: int)
    requires
        0 <= i < s.len(),
        forall|p: int, q: int|
            0 <= p < q < s.len() ==> (#[trigger] s[p]).0 != (#[trigger] s[q]).0,
    ensures
        map_of(s).contains_key(s[i].0),
        map_of(s)[s[i].0] == s[i].1@,
    decreases s.len(),
{
    if i < s.len() - 1 {
        assert(s.drop_last()[i] == s[i]);
        lemma_map_of_found(s.drop_last(), i);
        assert(s[i].0 != s.last().0);
    }
}

proof fn lemma_map_of_absent(s: Seq<(usize, URD)>, k: usize)
    requires
        forall|j: int| 0 <= j < s.len() ==> (#[trigger] s[j]).0 != k,
    ensures
        !map_of(s).contains_key(k),
    decreases s.len(),
{
    if s.len() > 0 {
        lemma_map_of_absent(s.drop_last(), k);
    }
}

proof fn lemma_map_of_update(s: Seq<(usize, URD)>, i: int, d: URD)
    requires
        0 <= i < s.len(),
        forall|p: int, q: int|
            0 <= p < q < s.len() ==> (#[trigger] s[p]).0 != (#[trigger] s[q]).0,
    ensures
        map_of(s.update(i, (s[i].0, d))) == map_of(s).insert(s[i].0, d@),
    decreases s.len(),
{
    let k = s[i].0;
    let s2 = s.update(i, (k, d));
    if i == s.len() - 1 {
        assert(s2.drop_last() =~= s.drop_last());
        assert(s2.last() == (k, d));
        assert(map_of(s2) =~= map_of(s).insert(k, d@));
    } else {
        assert(s2.drop_last() =~= s.drop_last().update(i, (k, d)));
        assert(s.drop_last()[i] == s[i]);
        lemma_map_of_update(s.drop_last(), i, d);
        assert(s2.last() == s.last());
        assert(k != s.last().0);
        assert(map_of(s2) == map_of(s.drop_last()).insert(k, d@).insert(s.last().0, s.last().1@));
        assert(map_of(s.drop_last()).insert(k, d@).insert(s.last().0, s.last().1@)
            =~= map_of(s.drop_last()).insert(s.last().0, s.last().1@).insert(k, d@));
    }
}

} // verus!
