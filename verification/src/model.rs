use vstd::prelude::*;

use crate::defs::{
    extend_unique, push_unique, sym_of, DefView, EntryView, ItemEntryView, ResolvedDefView,
    ResolvedItemView,
};
use crate::ur::UR;

verus! {

/// The hard, shared bound on resolution rounds across both phases.
pub const ITERATION_THRESHOLD: usize = 100;

/// A reference is signature-available when it is the definition's own symbol,
/// or the table holds it resolved, or holds it unresolved with its signature
/// already resolved.  A local resolve step only reads the table snapshot: it
/// never recursively resolves another symbol, which is what bounds cycles.
pub open spec fn sig_available(t: Map<usize, EntryView>, own: usize, s: usize) -> bool {
    s == own || (t.contains_key(s) && match t[s] {
        UR::Resolved(_) => true,
        UR::UnResolved(d) => d.sig_resolved,
    })
}

pub open spec fn all_available(t: Map<usize, EntryView>, own: usize, needs: Seq<usize>) -> bool {
    forall|i: int| 0 <= i < needs.len() ==> sig_available(t, own, #[trigger] needs[i])
}

pub open spec fn missing_refs(t: Map<usize, EntryView>, own: usize, needs: Seq<usize>) -> Seq<
    usize,
> {
    needs.filter(|s: usize| !sig_available(t, own, s))
}

/// One local resolve step of a definition against the current table snapshot:
/// the signature resolves first; only then is the body considered.  Returns
/// the new table entry and the names the step is still stuck on.
pub open spec fn step_definition(d: DefView, t: Map<usize, EntryView>) -> (EntryView, Seq<usize>) {
    let sig_ok = d.sig_resolved || all_available(t, d.symbol, d.sig_needs);
    if !sig_ok {
        (UR::UnResolved(d), missing_refs(t, d.symbol, d.sig_needs))
    } else if all_available(t, d.symbol, d.body_needs) {
        (UR::Resolved(ResolvedDefView { symbol: d.symbol, kind: d.kind }), Seq::empty())
    } else {
        (
            UR::UnResolved(DefView { sig_resolved: true, ..d }),
            missing_refs(t, d.symbol, d.body_needs),
        )
    }
}

/// A content item resolves only against fully resolved definitions.
pub open spec fn item_ref_ready(t: Map<usize, EntryView>, s: usize) -> bool {
    t.contains_key(s) && t[s] is Resolved
}

pub open spec fn item_missing(t: Map<usize, EntryView>, needs: Seq<usize>) -> Seq<usize> {
    needs.filter(|s: usize| !item_ref_ready(t, s))
}

pub open spec fn all_item_refs_ready(t: Map<usize, EntryView>, needs: Seq<usize>) -> bool {
    forall|i: int| 0 <= i < needs.len() ==> item_ref_ready(t, #[trigger] needs[i])
}

/// One pass over the content: every item still unresolved attempts a local
/// resolution step; the union of all still-needed names is accumulated in
/// first-occurrence order.
pub open spec fn step_content(content: Seq<ItemEntryView>, t: Map<usize, EntryView>, acc: Seq<
    usize,
>) -> (Seq<ItemEntryView>, Seq<usize>)
    decreases content.len(),
{
    if content.len() == 0 {
        (Seq::empty(), acc)
    } else {
        let (item2, acc2) = match content[0] {
            UR::Resolved(r) => (UR::Resolved(r), acc),
            UR::UnResolved(ci) => {
                if all_item_refs_ready(t, ci.needs) {
                    (
                        UR::Resolved(ResolvedItemView { item: ci.item, refs: ci.needs }),
                        acc,
                    )
                } else {
                    (UR::UnResolved(ci), extend_unique(acc, item_missing(t, ci.needs)))
                }
            },
        };
        let (rest2, acc3) = step_content(content.drop_first(), t, acc2);
        (seq![item2] + rest2, acc3)
    }
}

/// One pass over a requested list of symbols: a symbol with no table entry at
/// all is unresolvable; a resolved entry is left alone; an unresolved entry
/// takes a local resolve step, the table is updated in place, and a symbol
/// still unresolved is re-requested together with what it is stuck on.
pub open spec fn step_symbols(req: Seq<usize>, t: Map<usize, EntryView>, need: Seq<usize>, unres: Seq<
    usize,
>) -> (Map<usize, EntryView>, Seq<usize>, Seq<usize>)
    decreases req.len(),
{
    if req.len() == 0 {
        (t, need, unres)
    } else {
        let s = req[0];
        if !t.contains_key(s) {
            step_symbols(req.drop_first(), t, need, push_unique(unres, s))
        } else {
            match t[s] {
                UR::Resolved(_) => step_symbols(req.drop_first(), t, need, unres),
                UR::UnResolved(d) => {
                    let (e, stuck) = step_definition(d, t);
                    let t2 = t.insert(s, e);
                    let n1 = extend_unique(need, stuck);
                    let need2 = if e is UnResolved {
                        push_unique(n1, s)
                    } else {
                        n1
                    };
                    step_symbols(req.drop_first(), t2, need2, unres)
                },
            }
        }
    }
}

/// Merging fetched definitions: an entry already present is never replaced
/// (a symbol's entry is never deleted and transitions unresolved to resolved
/// at most once); everything the store returned and the table lacks is added
/// under its own symbol.
pub open spec fn merge_table(
    t: Map<usize, EntryView>,
    syms: Set<usize>,
    cat: Map<usize, EntryView>,
) -> Map<usize, EntryView> {
    Map::new(
        |k: usize| t.contains_key(k) || (syms.contains(k) && cat.contains_key(k)),
        |k: usize|
            if t.contains_key(k) {
                t[k]
            } else {
                cat[k]
            },
    )
}

/// Which phase the engine's shared loop is in.
pub enum RunPhase {
    Document,
    Symbols(Seq<usize>),
    Finished,
}

pub open spec fn phase_rank(p: RunPhase) -> int {
    match p {
        RunPhase::Document => 1,
        RunPhase::Symbols(_) => 0,
        RunPhase::Finished => 0,
    }
}

/// The whole mutable state of one compile, as mathematics.
pub struct RunState {
    pub content: Seq<ItemEntryView>,
    pub table: Map<usize, EntryView>,
    pub used: Seq<usize>,
    pub unresolvable: Seq<usize>,
    pub iterations: nat,
    pub phase: RunPhase,
}

/// Requesting a set of symbols: every requested name is recorded permanently
/// in the used set, and the store's response is merged into the table.
pub open spec fn fetch_state(
    s: RunState,
    requested: Seq<usize>,
    cat: Map<usize, EntryView>,
    resp: spec_fn(Set<usize>) -> Set<usize>,
) -> RunState {
    RunState {
        used: extend_unique(s.used, requested),
        table: merge_table(s.table, resp(requested.to_set()), cat),
        ..s
    }
}

pub open spec fn run_measure(s: RunState) -> nat {
    if s.iterations < ITERATION_THRESHOLD as nat {
        (ITERATION_THRESHOLD as nat - s.iterations) as nat
    } else {
        0
    }
}

/// The engine's outer loop as a function: document passes and symbol passes
/// alternate, one shared counter bounding the symbol passes, until the
/// document reports an empty needed-set or the counter is exhausted.
pub open spec fn run(
    s: RunState,
    cat: Map<usize, EntryView>,
    resp: spec_fn(Set<usize>) -> Set<usize>,
) -> RunState
    decreases run_measure(s), phase_rank(s.phase),
{
    if s.phase is Finished || s.iterations >= ITERATION_THRESHOLD as nat {
        s
    } else {
        match s.phase {
            RunPhase::Document => {
                let (content2, needed) = step_content(s.content, s.table, Seq::empty());
                if needed.len() == 0 {
                    RunState { content: content2, phase: RunPhase::Finished, ..s }
                } else {
                    let s2 = fetch_state(
                        RunState { content: content2, ..s },
                        needed,
                        cat,
                        resp,
                    );
                    run(RunState { phase: RunPhase::Symbols(needed), ..s2 }, cat, resp)
                }
            },
            RunPhase::Symbols(need) => {
                let (t2, need2, unres2) = step_symbols(
                    need,
                    s.table,
                    Seq::empty(),
                    Seq::empty(),
                );
                let s2 = RunState {
                    table: t2,
                    unresolvable: extend_unique(s.unresolvable, unres2),
                    iterations: s.iterations + 1,
                    ..s
                };
                if need2.len() == 0 {
                    run(RunState { phase: RunPhase::Document, ..s2 }, cat, resp)
                } else {
                    let s3 = fetch_state(s2, need2, cat, resp);
                    run(RunState { phase: RunPhase::Symbols(need2), ..s3 }, cat, resp)
                }
            },
            RunPhase::Finished => s,
        }
    }
}

/// The state a compile starts from: the parsed content, an empty table, and
/// nothing yet requested.
pub open spec fn initial_state(content: Seq<ItemEntryView>) -> RunState {
    RunState {
        content: content,
        table: Map::empty(),
        used: Seq::empty(),
        unresolvable: Seq::empty(),
        iterations: 0,
        phase: RunPhase::Document,
    }
}

/// A catalog is keyed by each definition's own symbol.
pub open spec fn catalog_wf(cat: Map<usize, EntryView>) -> bool {
    forall|k: usize| cat.contains_key(k) ==> sym_of(#[trigger] cat[k]) == k
}

/// What §4.3 asks of a store's choice of returned symbols: nothing outside
/// its catalog, and no requested symbol that exists may be omitted.
pub open spec fn valid_response(
    resp: spec_fn(Set<usize>) -> Set<usize>,
    cat: Map<usize, EntryView>,
) -> bool {
    forall|q: Set<usize>, k: usize|
        {
            &&& (#[trigger] resp(q).contains(k) ==> cat.contains_key(k))
            &&& (q.contains(k) && cat.contains_key(k) ==> resp(q).contains(k))
        }
}

/// The resolved payloads of a fully resolved content sequence, in order.
pub open spec fn resolved_items(content: Seq<ItemEntryView>) -> Seq<ResolvedItemView> {
    content.map_values(
        |e: ItemEntryView|
            match e {
                UR::Resolved(r) => r,
                UR::UnResolved(ci) => ResolvedItemView { item: ci.item, refs: ci.needs },
            },
    )
}

/// The pruned definitions of the final bundle: the used symbols, in the order
/// first requested, each with its resolved definition; symbols that never
/// reached a resolved entry are left out.
pub open spec fn used_definitions(used: Seq<usize>, t: Map<usize, EntryView>) -> Seq<
    (usize, ResolvedDefView),
>
    decreases used.len(),
{
    if used.len() == 0 {
        Seq::empty()
    } else {
        let rest = used_definitions(used.drop_first(), t);
        let s = used[0];
        if t.contains_key(s) && t[s] is Resolved {
            seq![(s, t[s]->Resolved_0)] + rest
        } else {
            rest
        }
    }
}

/// A terminal state reports success exactly when the document pass converged
/// with nothing unresolvable; the iteration counter reaching the threshold is
/// non-convergence.
pub open spec fn run_succeeded(fin: RunState) -> bool {
    fin.phase is Finished && fin.unresolvable.len() == 0
}

/// The payload carried by a content item, in either state.
pub open spec fn item_payload(e: ItemEntryView) -> usize {
    match e {
        UR::UnResolved(ci) => ci.item,
        UR::Resolved(r) => r.item,
    }
}

pub proof fn lemma_push_unique_prefix(s: Seq<usize>, x: usize)
    ensures
        push_unique(s, x).len() >= s.len(),
        push_unique(s, x).subrange(0, s.len() as int) == s,
{
    if !s.contains(x) {
        assert(s.push(x).subrange(0, s.len() as int) =~= s);
    } else {
        assert(s.subrange(0, s.len() as int) =~= s);
    }
}

/// What was already accumulated stays, in place, at the front.
pub proof fn lemma_extend_unique_prefix(s: Seq<usize>, t: Seq<usize>)
    ensures
        extend_unique(s, t).len() >= s.len(),
        extend_unique(s, t).subrange(0, s.len() as int) == s,
    decreases t.len(),
{
    if t.len() == 0 {
        assert(s.subrange(0, s.len() as int) =~= s);
    } else {
        let s1 = push_unique(s, t[0]);
        lemma_push_unique_prefix(s, t[0]);
        lemma_extend_unique_prefix(s1, t.drop_first());
        let whole = extend_unique(s, t);
        assert(whole.subrange(0, s.len() as int) =~= whole.subrange(0, s1.len() as int).subrange(
            0,
            s.len() as int,
        ));
    }
}

/// A content pass preserves the length, the order and the payload of every
/// item, never un-resolves an item, and only appends to the accumulator.
pub proof fn lemma_step_content_shape(content: Seq<ItemEntryView>, t: Map<usize, EntryView>, acc: Seq<
    usize,
>)
    ensures
        step_content(content, t, acc).0.len() == content.len(),
        forall|i: int|
            0 <= i < content.len() ==> item_payload(#[trigger] step_content(content, t, acc).0[i])
                == item_payload(content[i]),
        forall|i: int|
            0 <= i < content.len() && content[i] is Resolved ==> step_content(content, t, acc).0[i]
                == content[i],
        step_content(content, t, acc).1.len() >= acc.len(),
        step_content(content, t, acc).1.subrange(0, acc.len() as int) == acc,
    decreases content.len(),
{
    if content.len() == 0 {
        assert(acc.subrange(0, acc.len() as int) =~= acc);
    } else {
        let (item2, acc2) = match content[0] {
            UR::Resolved(r) => (UR::Resolved(r), acc),
            UR::UnResolved(ci) => {
                if all_item_refs_ready(t, ci.needs) {
                    (UR::Resolved(ResolvedItemView { item: ci.item, refs: ci.needs }), acc)
                } else {
                    (UR::UnResolved(ci), extend_unique(acc, item_missing(t, ci.needs)))
                }
            },
        };
        match content[0] {
            UR::Resolved(r) => {},
            UR::UnResolved(ci) => {
                if !all_item_refs_ready(t, ci.needs) {
                    lemma_extend_unique_prefix(acc, item_missing(t, ci.needs));
                }
            },
        }
        lemma_step_content_shape(content.drop_first(), t, acc2);
        let (rest2, acc3) = step_content(content.drop_first(), t, acc2);
        assert(step_content(content, t, acc).0 == seq![item2] + rest2);
        assert forall|i: int| 0 <= i < content.len() implies item_payload(
            #[trigger] step_content(content, t, acc).0[i],
        ) == item_payload(content[i]) by {
            if i > 0 {
                assert(step_content(content, t, acc).0[i] == rest2[i - 1]);
                assert(content.drop_first()[i - 1] == content[i]);
            }
        }
        assert forall|i: int|
            0 <= i < content.len() && content[i] is Resolved implies step_content(
            content,
            t,
            acc,
        ).0[i] == content[i] by {
            if i > 0 {
                assert(step_content(content, t, acc).0[i] == rest2[i - 1]);
                assert(content.drop_first()[i - 1] == content[i]);
            }
        }
        assert(acc3.subrange(0, acc.len() as int) =~= acc3.subrange(0, acc2.len() as int).subrange(
            0,
            acc.len() as int,
        ));
    }
}

/// When a content pass starting from an empty accumulator reports an empty
/// needed-set, every item of the resulting content is resolved.
pub proof fn lemma_step_content_done(content: Seq<ItemEntryView>, t: Map<usize, EntryView>)
    requires
        step_content(content, t, Seq::empty()).1.len() == 0,
    ensures
        forall|i: int|
            0 <= i < content.len() ==> (#[trigger] step_content(
                content,
                t,
                Seq::empty(),
            ).0[i]) is Resolved,
    decreases content.len(),
{
    broadcast use vstd::seq_lib::group_seq_lib_default;

    lemma_step_content_shape(content, t, Seq::empty());
    if content.len() > 0 {
        let empty = Seq::<usize>::empty();
        lemma_step_content_shape(content.drop_first(), t, Seq::empty());
        match content[0] {
            UR::Resolved(r) => {
                lemma_step_content_done(content.drop_first(), t);
                let item2: ItemEntryView = UR::Resolved(r);
                let (rest2, acc3) = step_content(content.drop_first(), t, empty);
                assert(step_content(content, t, empty).0 == seq![item2] + rest2);
                assert forall|i: int| 0 <= i < content.len() implies (#[trigger] step_content(
                    content,
                    t,
                    empty,
                ).0[i]) is Resolved by {
                    if i > 0 {
                        assert(step_content(content, t, empty).0[i] == rest2[i - 1]);
                    } else {
                        assert(step_content(content, t, empty).0[0] == item2);
                    }
                }
            },
            UR::UnResolved(ci) => {
                if all_item_refs_ready(t, ci.needs) {
                    lemma_step_content_done(content.drop_first(), t);
                    let item2: ItemEntryView = UR::Resolved(
                        ResolvedItemView { item: ci.item, refs: ci.needs },
                    );
                    let (rest2, acc3) = step_content(content.drop_first(), t, empty);
                    assert(step_content(content, t, empty).0 == seq![item2] + rest2);
                    assert forall|i: int| 0 <= i < content.len() implies (#[trigger] step_content(
                        content,
                        t,
                        empty,
                    ).0[i]) is Resolved by {
                        if i > 0 {
                            assert(step_content(content, t, empty).0[i] == rest2[i - 1]);
                        } else {
                            assert(step_content(content, t, empty).0[0] == item2);
                        }
                    }
                } else {
                    // This branch contradicts the empty needed-set: something
                    // was missing, and accumulated names are never dropped.
                    let m = item_missing(t, ci.needs);
                    let j = choose|j: int|
                        0 <= j < ci.needs.len() && !item_ref_ready(t, ci.needs[j]);
                    ci.needs.lemma_filter_contains(|s: usize| !item_ref_ready(t, s), j);
                    assert(m.len() > 0);
                    let acc2 = extend_unique(empty, m);
                    crate::defs::lemma_extend_unique_contains(empty, m, m[0]);
                    assert(m.contains(m[0]));
                    assert(acc2.len() > 0) by {
                        if acc2.len() == 0 {
                            assert(!acc2.contains(m[0]));
                        }
                    }
                    lemma_step_content_shape(content.drop_first(), t, acc2);
                    assert(step_content(content, t, empty).1.len() >= acc2.len());
                }
            },
        }
    }
}

} // verus!
