use vstd::prelude::*;

use crate::text::str_eq;

verus! {

/// Owns the interned text fragments of one compile and issues stable,
/// comparable integer identities for them.  Created once per compile and
/// exclusively owned by the engine for its duration.
pub struct Arena {
    names: Vec<String>,
}

impl Arena {
    /// The interned fragments, in the order they were first seen.
    pub closed spec fn view(&self) -> Seq<Seq<char>> {
        self.names@.map(|_i: int, s: String| s@)
    }

    /// No fragment is stored twice: identities are in bijection with texts.
    pub closed spec fn wf(&self) -> bool {
        forall|i: int, j: int|
            0 <= i < j < self@.len() ==> self@[i] != self@[j]
    }

    pub fn new() -> (a: Arena)
        ensures
            a.wf(),
            a@.len() == 0,
    {
        Arena { names: Vec::new() }
    }

    pub fn len(&self) -> (n: usize)
        ensures
            n == self@.len(),
    {
        self.names.len()
    }

    /// Identical text yields the identical identity within one arena;
    /// unseen text is appended and all earlier identities are kept.
    pub fn intern(&mut self, text: &str) -> (id: usize)
        requires
            old(self).wf(),
        ensures
            final(self).wf(),
            id < final(self)@.len(),
            final(self)@[id as int] == text@,
            old(self)@.len() <= final(self)@.len() <= old(self)@.len() + 1,
            forall|i: int| 0 <= i < old(self)@.len() ==> final(self)@[i] == old(self)@[i],
            (exists|i: int| 0 <= i < old(self)@.len() && old(self)@[i] == text@)
                ==> final(self)@ == old(self)@,
    {
        let n = self.names.len();
        let mut i: usize = 0;
        while i < n
            invariant
                n == self.names@.len(),
                i <= n,
                old(self).wf(),
                self.names@ == old(self).names@,
                forall|j: int| 0 <= j < i ==> self@[j] != text@,
            decreases n - i,
        {
            if str_eq(self.names[i].as_str(), text) {
                proof {
                    assert(self@ =~= old(self)@);
                    assert forall|p: int, q: int| 0 <= p < q < self@.len() implies self@[p]
                        != self@[q] by {
                        assert(old(self)@[p] != old(self)@[q]);
                    }
                }
                return i;
            }
            i += 1;
        }
        let owned = text.to_owned();
        self.names.push(owned);
        proof {
            assert(self@ =~= old(self)@.push(text@));
        }
        n
    }

    /// The text behind an identity.
    pub fn name_of(&self, id: usize) -> (r: &str)
        requires
            id < self@.len(),
        ensures
            r@ == self@[id as int],
    {
        self.names[id].as_str()
    }
}

} // verus!
