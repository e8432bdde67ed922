use vstd::prelude::*;

use crate::defs::{sym_of, vec_has, EntryView, ResolvedDefinition, URD};
use crate::model::valid_response;
use crate::ur::UR;

verus! {

/// The set of symbols a sequence of returned definitions carries.
pub open spec fn returned_syms(s: Seq<URD>) -> Set<usize> {
    s.map_values(|d: URD| sym_of(d@)).to_set()
}

/// The external, pluggable provider of definitions.  A store is modelled by
/// two things it must keep stable across calls: its `catalog`, the
/// definitions it can provide keyed by symbol identity, and its `response`
/// choice, which symbols a given request brings back.  It is acceptable to
/// return more symbols than asked — amortizing the cost of loading a whole
/// source unit — but a requested symbol that exists must never be omitted;
/// a requested name absent from the result is "not found".
pub trait SymbolStore: Sized {
    spec fn catalog(&self) -> Map<usize, EntryView>;

    spec fn response(&self, requested: Set<usize>) -> Set<usize>;

    fn lookup(&mut self, requested: &Vec<usize>, auto_imports: usize) -> (r: Vec<URD>)
        ensures
            final(self).catalog() == old(self).catalog(),
            forall|q: Set<usize>| #[trigger] final(self).response(q) == old(self).response(q),
            valid_response(|q: Set<usize>| old(self).response(q), old(self).catalog()),
            forall|i: int|
                0 <= i < r@.len() ==> {
                    let e = (#[trigger] r@[i])@;
                    old(self).catalog().contains_key(sym_of(e)) && old(self).catalog()[sym_of(e)]
                        == e
                },
            returned_syms(r@) == old(self).response(requested@.to_set()),
    ;
}

/// The mathematical content of a definition list keyed by each definition's
/// own symbol, later entries shadowing earlier ones.
pub open spec fn defs_map(s: Seq<URD>) -> Map<usize, EntryView>
    decreases s.len(),
{
    if s.len() == 0 {
        Map::empty()
    } else {
        defs_map(s.drop_last()).insert(sym_of(s.last()@), s.last()@)
    }
}

fn clone_urd(d: &URD) -> (r: URD)
    ensures
        r@ == d@,
{
    match d {
        UR::UnResolved(u) => UR::UnResolved(u.clone()),
        UR::Resolved(rd) => UR::Resolved(ResolvedDefinition { symbol: rd.symbol, kind: rd.kind }),
    }
}

fn sym_of_exec(d: &URD) -> (s: usize)
    ensures
        s == sym_of(d@),
{
    match d {
        UR::UnResolved(u) => u.symbol,
        UR::Resolved(rd) => rd.symbol,
    }
}

/// A store backed by definitions held in memory.  Besides the requested
/// symbols it also hands out its configured extra symbols, exercising the
/// liberty §4.3 grants a store.
pub struct MemoryStore {
    defs: Vec<URD>,
    extras: Vec<usize>,
}

impl MemoryStore {
    pub fn new() -> (s: MemoryStore)
        ensures
            s.catalog() == Map::<usize, EntryView>::empty(),
            s.extra_syms() == Set::<usize>::empty(),
    {
        let s = MemoryStore { defs: Vec::new(), extras: Vec::new() };
        proof {
            assert(s.extras@.to_set() =~= Set::<usize>::empty());
        }
        s
    }

    /// Add one definition under its own symbol; an earlier definition of the
    /// same symbol is superseded.
    pub fn insert_definition(&mut self, d: URD)
        ensures
            final(self).catalog() == old(self).catalog().insert(sym_of(d@), d@),
            final(self).extra_syms() == old(self).extra_syms(),
    {
        let ghost before = self.defs@;
        self.defs.push(d);
        proof {
            assert(self.defs@.drop_last() =~= before);
        }
    }

    /// Configure a symbol the store will volunteer alongside any request.
    pub fn add_extra(&mut self, sym: usize)
        ensures
            final(self).catalog() == old(self).catalog(),
            final(self).extra_syms() == old(self).extra_syms().insert(sym),
    {
        self.extras.push(sym);
        proof {
            assert forall|x: usize| true implies #[trigger] self.extras@.to_set().contains(x)
                == old(self).extras@.to_set().insert(sym).contains(x) by {
                crate::defs::lemma_push_contains(old(self).extras@, sym, x);
            }
            assert(self.extras@.to_set() =~= old(self).extras@.to_set().insert(sym));
        }
    }

    pub closed spec fn extra_syms(&self) -> Set<usize> {
        self.extras@.to_set()
    }

    spec fn wanted(&self, requested: Seq<usize>, sym: usize) -> bool {
        requested.contains(sym) || self.extras@.contains(sym)
    }
}

impl SymbolStore for MemoryStore {
    closed spec fn catalog(&self) -> Map<usize, EntryView> {
        defs_map(self.defs@)
    }

    closed spec fn response(&self, requested: Set<usize>) -> Set<usize> {
        requested.union(self.extras@.to_set()).intersect(self.catalog().dom())
    }

    fn lookup(&mut self, requested: &Vec<usize>, auto_imports: usize) -> (r: Vec<URD>)
        ensures
            final(self).catalog() == old(self).catalog(),
            forall|q: Set<usize>| #[trigger] final(self).response(q) == old(self).response(q),
            valid_response(|q: Set<usize>| old(self).response(q), old(self).catalog()),
            forall|i: int|
                0 <= i < r@.len() ==> {
                    let e = (#[trigger] r@[i])@;
                    old(self).catalog().contains_key(sym_of(e)) && old(self).catalog()[sym_of(e)]
                        == e
                },
            returned_syms(r@) == old(self).response(requested@.to_set()),
    {
        let mut r: Vec<URD> = Vec::new();
        let mut seen: Vec<usize> = Vec::new();
        let ghost mut idxs: Seq<int> = Seq::empty();
        let n = self.defs.len();
        let mut i: usize = n;
        while i > 0
            invariant
                self.defs@ == old(self).defs@,
                self.extras@ == old(self).extras@,
                n == self.defs@.len(),
                i <= n,
                seen@.len() == r@.len(),
                idxs.len() == r@.len(),
                forall|p: int| 0 <= p < r@.len() ==> seen@[p] == sym_of((#[trigger] r@[p])@),
                forall|p: int|
                    0 <= p < r@.len() ==> i <= #[trigger] idxs[p] < n,
                forall|p: int|
                    0 <= p < r@.len() ==> (#[trigger] r@[p])@ == self.defs@[idxs[p]]@,
                forall|p: int|
                    0 <= p < r@.len() ==> self.wanted(
                        requested@,
                        sym_of((#[trigger] r@[p])@),
                    ),
                forall|p: int, k: int|
                    0 <= p < r@.len() && #[trigger] idxs[p] < k < n ==> sym_of(
                        (#[trigger] self.defs@[k])@,
                    ) != sym_of(r@[p]@),
                forall|j: int|
                    i <= j < n && self.wanted(requested@, sym_of((#[trigger] self.defs@[j])@))
                        ==> seen@.contains(sym_of(self.defs@[j]@)),
            decreases i,
        {
            i -= 1;
            let sym = sym_of_exec(&self.defs[i]);
            if vec_has(requested, sym) || vec_has(&self.extras, sym) {
                if !vec_has(&seen, sym) {
                    let ghost r_old = r@;
                    let ghost seen_old = seen@;
                    let d = clone_urd(&self.defs[i]);
                    r.push(d);
                    seen.push(sym);
                    proof {
                        idxs = idxs.push(i as int);
                        assert(forall|p: int| 0 <= p < r_old.len() ==> r@[p] == r_old[p]);
                        assert(forall|p: int|
                            0 <= p < seen_old.len() ==> seen@[p] == seen_old[p]);
                        assert(r@[r_old.len() as int]@ == self.defs@[i as int]@);
                        assert(seen@[r_old.len() as int] == sym);
                        assert forall|k: int|
                            (i as int) < k < n implies sym_of((#[trigger] self.defs@[k])@)
                            != sym by {
                            if sym_of(self.defs@[k]@) == sym {
                                assert(self.wanted(requested@, sym_of(self.defs@[k]@)));
                                assert(seen_old.contains(sym));
                            }
                        }
                        assert forall|j: int|
                            i <= j < n && self.wanted(
                                requested@,
                                sym_of((#[trigger] self.defs@[j])@),
                            ) implies seen@.contains(sym_of(self.defs@[j]@)) by {
                            if j == i {
                                assert(seen@[seen_old.len() as int] == sym);
                            } else {
                                assert(seen_old.contains(sym_of(self.defs@[j]@)));
                                let p = choose|p: int|
                                    0 <= p < seen_old.len() && seen_old[p] == sym_of(
                                        self.defs@[j]@,
                                    );
                                assert(seen@[p] == sym_of(self.defs@[j]@));
                            }
                        }
                    }
                }
            }
        }
        proof {
            lemma_lookup_result(self, requested@, r@, seen@, idxs);
        }
        r
    }
}

proof fn lemma_defs_map_last(s: Seq<URD>, j: int)
    requires
        0 <= j < s.len(),
        forall|k: int| j < k < s.len() ==> sym_of((#[trigger] s[k])@) != sym_of(s[j]@),
    ensures
        defs_map(s).contains_key(sym_of(s[j]@)),
        defs_map(s)[sym_of(s[j]@)] == s[j]@,
    decreases s.len(),
{
    if j < s.len() - 1 {
        assert(s.drop_last()[j] == s[j]);
        assert(forall|k: int|
            j < k < s.drop_last().len() ==> sym_of((#[trigger] s.drop_last()[k])@) != sym_of(
                s.drop_last()[j]@,
            ));
        lemma_defs_map_last(s.drop_last(), j);
        assert(s[s.len() - 1] == s.last());
        assert(sym_of(s.last()@) != sym_of(s[j]@));
    }
}

proof fn lemma_defs_map_member(s: Seq<URD>, k: usize)
    requires
        defs_map(s).contains_key(k),
    ensures
        exists|j: int| 0 <= j < s.len() && sym_of((#[trigger] s[j])@) == k,
    decreases s.len(),
{
    if s.len() > 0 {
        if sym_of(s.last()@) == k {
            assert(s[s.len() - 1] == s.last());
        } else {
            lemma_defs_map_member(s.drop_last(), k);
            let j = choose|j: int|
                0 <= j < s.drop_last().len() && sym_of((#[trigger] s.drop_last()[j])@) == k;
            assert(s[j] == s.drop_last()[j]);
        }
    }
}

proof fn lemma_lookup_result(
    s: &MemoryStore,
    requested: Seq<usize>,
    r: Seq<URD>,
    seen: Seq<usize>,
    idxs: Seq<int>,
)
    requires
        seen.len() == r.len(),
        idxs.len() == r.len(),
        forall|p: int| 0 <= p < r.len() ==> seen[p] == sym_of((#[trigger] r[p])@),
        forall|p: int| 0 <= p < r.len() ==> 0 <= #[trigger] idxs[p] < s.defs@.len(),
        forall|p: int| 0 <= p < r.len() ==> (#[trigger] r[p])@ == s.defs@[idxs[p]]@,
        forall|p: int|
            0 <= p < r.len() ==> s.wanted(requested, sym_of((#[trigger] r[p])@)),
        forall|p: int, k: int|
            0 <= p < r.len() && #[trigger] idxs[p] < k < s.defs@.len() ==> sym_of(
                (#[trigger] s.defs@[k])@,
            ) != sym_of(r[p]@),
        forall|j: int|
            0 <= j < s.defs@.len() && s.wanted(requested, sym_of((#[trigger] s.defs@[j])@))
                ==> seen.contains(sym_of(s.defs@[j]@)),
    ensures
        forall|p: int|
            0 <= p < r.len() ==> {
                let e = (#[trigger] r[p])@;
                defs_map(s.defs@).contains_key(sym_of(e)) && defs_map(s.defs@)[sym_of(e)] == e
            },
        returned_syms(r) == requested.to_set().union(s.extras@.to_set()).intersect(
            defs_map(s.defs@).dom(),
        ),
        valid_response(
            |q: Set<usize>| q.union(s.extras@.to_set()).intersect(defs_map(s.defs@).dom()),
            defs_map(s.defs@),
        ),
{
    assert forall|p: int| 0 <= p < r.len() implies {
        let e = (#[trigger] r[p])@;
        defs_map(s.defs@).contains_key(sym_of(e)) && defs_map(s.defs@)[sym_of(e)] == e
    } by {
        lemma_defs_map_last(s.defs@, idxs[p]);
    }
    let want = requested.to_set().union(s.extras@.to_set()).intersect(defs_map(s.defs@).dom());
    let syms = r.map_values(|d: URD| sym_of(d@));
    assert forall|k: usize| returned_syms(r).contains(k) implies want.contains(k) by {
        let p = choose|p: int| 0 <= p < syms.len() && syms[p] == k;
        lemma_defs_map_last(s.defs@, idxs[p]);
        assert(requested.contains(k) || s.extras@.contains(k));
        assert(requested.to_set().contains(k) || s.extras@.to_set().contains(k));
    }
    assert forall|k: usize| want.contains(k) implies returned_syms(r).contains(k) by {
        assert(defs_map(s.defs@).contains_key(k));
        lemma_defs_map_member(s.defs@, k);
        let j = choose|j: int| 0 <= j < s.defs@.len() && sym_of((#[trigger] s.defs@[j])@) == k;
        assert(requested.contains(k) || s.extras@.contains(k)) by {
            if requested.to_set().contains(k) {
            } else {
                assert(s.extras@.to_set().contains(k));
            }
        }
        assert(s.wanted(requested, sym_of(s.defs@[j]@)));
        assert(seen.contains(k));
        let p = choose|p: int| 0 <= p < seen.len() && seen[p] == k;
        assert(syms[p] == k);
        assert(syms.contains(k));
    }
    assert(returned_syms(r) =~= want);
}

} // verus!
