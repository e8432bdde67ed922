use vstd::prelude::*;

use crate::defs::{
    extend_unique, lemma_extend_unique_contains, push_unique, DefView, EntryView,
    ItemEntryView, ResolvedDefView, ResolvedItemView,
};
use crate::engine::{compile_outcome, CompiledDocument, CompileError};
use crate::model::{
    all_item_refs_ready, initial_state, item_missing, item_payload, item_ref_ready,
    lemma_step_content_shape, merge_table, resolved_items, run, run_succeeded, sig_available,
    step_content, step_definition, step_symbols, used_definitions, valid_response, RunPhase,
    RunState, ITERATION_THRESHOLD,
};
use crate::ur::UR;

verus! {

/// Pruning: the final bundle's definitions carry only symbols recorded in the
/// used set; a definition fetched speculatively but never requested is never
/// in the output.
pub proof fn theorem_pruning(used: Seq<usize>, t: Map<usize, EntryView>, x: usize)
    requires
        !used.contains(x),
    ensures
        forall|j: int|
            0 <= j < used_definitions(used, t).len() ==> (#[trigger] used_definitions(
                used,
                t,
            )[j]).0 != x,
    decreases used.len(),
{
    if used.len() > 0 {
        assert(!used.drop_first().contains(x)) by {
            if used.drop_first().contains(x) {
                let i = choose|i: int|
                    0 <= i < used.drop_first().len() && used.drop_first()[i] == x;
                assert(used[i + 1] == x);
            }
        }
        theorem_pruning(used.drop_first(), t, x);
        let rest = used_definitions(used.drop_first(), t);
        let s = used[0];
        assert(s != x);
        if t.contains_key(s) && t[s] is Resolved {
            assert forall|j: int| 0 <= j < used_definitions(used, t).len() implies (
            #[trigger] used_definitions(used, t)[j]).0 != x by {
                if j > 0 {
                    assert(used_definitions(used, t)[j] == rest[j - 1]);
                }
            }
        }
    }
}

/// Determinism: an identical input document and identical store behaviour
/// (catalog and response choice) admit only one outcome, whatever order the
/// store delivered definitions in: two results of the engine agree item for
/// item.
pub proof fn theorem_determinism(
    init: RunState,
    errors0: Seq<crate::errors::SectionError>,
    cat: Map<usize, EntryView>,
    resp: spec_fn(Set<usize>) -> Set<usize>,
    r1: Result<CompiledDocument, CompileError>,
    r2: Result<CompiledDocument, CompileError>,
)
    requires
        compile_outcome(init, errors0, cat, resp, r1),
        compile_outcome(init, errors0, cat, resp, r2),
    ensures
        r1 is Ok <==> r2 is Ok,
        r1 is Ok ==> {
            let b1 = r1->Ok_0;
            let b2 = r2->Ok_0;
            &&& b1.content@.map_values(|c: crate::defs::ResolvedContentItem| c@)
                == b2.content@.map_values(|c: crate::defs::ResolvedContentItem| c@)
            &&& b1.definitions@.map_values(
                |p: (usize, crate::defs::ResolvedDefinition)| (p.0, p.1@),
            ) == b2.definitions@.map_values(
                |p: (usize, crate::defs::ResolvedDefinition)| (p.0, p.1@),
            )
        },
        r1 is Err ==> {
            let e1 = r1->Err_0;
            let e2 = r2->Err_0;
            &&& e1.unresolvable@ == e2.unresolvable@
            &&& e1.non_convergence == e2.non_convergence
            &&& e1.document_errors@ == e2.document_errors@
        },
{
}

/// Content order is fixed at parse time: a run never reorders, drops or adds
/// content items, and never un-resolves one; only their resolution state
/// advances.
pub proof fn theorem_content_order(
    st: RunState,
    cat: Map<usize, EntryView>,
    resp: spec_fn(Set<usize>) -> Set<usize>,
)
    ensures
        run(st, cat, resp).content.len() == st.content.len(),
        forall|i: int|
            0 <= i < st.content.len() ==> item_payload(#[trigger] run(st, cat, resp).content[i])
                == item_payload(st.content[i]),
    decreases crate::model::run_measure(st), crate::model::phase_rank(st.phase),
{
    if st.phase is Finished || st.iterations >= ITERATION_THRESHOLD as nat {
    } else {
        match st.phase {
            RunPhase::Document => {
                let (content2, needed) = step_content(st.content, st.table, Seq::empty());
                lemma_step_content_shape(st.content, st.table, Seq::empty());
                if needed.len() == 0 {
                } else {
                    let s2 = crate::model::fetch_state(
                        RunState { content: content2, ..st },
                        needed,
                        cat,
                        resp,
                    );
                    theorem_content_order(
                        RunState { phase: RunPhase::Symbols(needed), ..s2 },
                        cat,
                        resp,
                    );
                }
            },
            RunPhase::Symbols(need) => {
                let (t2, need2, unres2) = step_symbols(need, st.table, Seq::empty(), Seq::empty());
                let s2 = RunState {
                    table: t2,
                    unresolvable: extend_unique(st.unresolvable, unres2),
                    iterations: st.iterations + 1,
                    ..st
                };
                if need2.len() == 0 {
                    theorem_content_order(RunState { phase: RunPhase::Document, ..s2 }, cat, resp);
                } else {
                    let s3 = crate::model::fetch_state(s2, need2, cat, resp);
                    theorem_content_order(
                        RunState { phase: RunPhase::Symbols(need2), ..s3 },
                        cat,
                        resp,
                    );
                }
            },
            RunPhase::Finished => {},
        }
    }
}

/// A symbol pass over entries that are all already resolved changes nothing
/// and requests nothing.
proof fn lemma_step_symbols_all_resolved(
    req: Seq<usize>,
    t: Map<usize, EntryView>,
    need: Seq<usize>,
    unres: Seq<usize>,
)
    requires
        forall|i: int|
            0 <= i < req.len() ==> t.contains_key(#[trigger] req[i]) && t[req[i]] is Resolved,
    ensures
        step_symbols(req, t, need, unres) == (t, need, unres),
    decreases req.len(),
{
    if req.len() > 0 {
        assert(forall|i: int|
            0 <= i < req.drop_first().len() ==> t.contains_key(#[trigger] req.drop_first()[i])
                && t[req.drop_first()[i]] is Resolved);
        lemma_step_symbols_all_resolved(req.drop_first(), t, need, unres);
    }
}

/// A content pass accumulates every reference that is not ready, from every
/// item that is still unresolved.
proof fn lemma_step_content_collects(
    content: Seq<ItemEntryView>,
    t: Map<usize, EntryView>,
    acc: Seq<usize>,
    i: int,
    j: int,
)
    requires
        0 <= i < content.len(),
        content[i] is UnResolved,
        0 <= j < content[i]->UnResolved_0.needs.len(),
        !item_ref_ready(t, content[i]->UnResolved_0.needs[j]),
    ensures
        step_content(content, t, acc).1.contains(content[i]->UnResolved_0.needs[j]),
    decreases content.len(),
{
    let x = content[i]->UnResolved_0.needs[j];
    if i == 0 {
        let ci = content[0]->UnResolved_0;
        assert(!all_item_refs_ready(t, ci.needs));
        let acc2 = extend_unique(acc, item_missing(t, ci.needs));
        ci.needs.lemma_filter_contains(|s: usize| !item_ref_ready(t, s), j);
        assert(item_missing(t, ci.needs).contains(x));
        lemma_extend_unique_contains(acc, item_missing(t, ci.needs), x);
        assert(acc2.contains(x));
        lemma_step_content_keeps_acc(content.drop_first(), t, acc2, x);
    } else {
        let acc2 = match content[0] {
            UR::Resolved(r) => acc,
            UR::UnResolved(ci) => {
                if all_item_refs_ready(t, ci.needs) {
                    acc
                } else {
                    extend_unique(acc, item_missing(t, ci.needs))
                }
            },
        };
        assert(content.drop_first()[i - 1] == content[i]);
        lemma_step_content_collects(content.drop_first(), t, acc2, i - 1, j);
    }
}

/// Nothing already accumulated is ever dropped by a content pass.
proof fn lemma_step_content_keeps_acc(
    content: Seq<ItemEntryView>,
    t: Map<usize, EntryView>,
    acc: Seq<usize>,
    x: usize,
)
    requires
        acc.contains(x),
    ensures
        step_content(content, t, acc).1.contains(x),
    decreases content.len(),
{
    if content.len() > 0 {
        let acc2 = match content[0] {
            UR::Resolved(r) => acc,
            UR::UnResolved(ci) => {
                if all_item_refs_ready(t, ci.needs) {
                    acc
                } else {
                    extend_unique(acc, item_missing(t, ci.needs))
                }
            },
        };
        assert(acc2.contains(x)) by {
            match content[0] {
                UR::Resolved(r) => {},
                UR::UnResolved(ci) => {
                    if !all_item_refs_ready(t, ci.needs) {
                        lemma_extend_unique_contains(acc, item_missing(t, ci.needs), x);
                    }
                },
            }
        }
        lemma_step_content_keeps_acc(content.drop_first(), t, acc2, x);
    }
}

/// When every unresolved item's references are ready, a content pass resolves
/// everything and needs nothing further.
proof fn lemma_step_content_all_ready(content: Seq<ItemEntryView>, t: Map<usize, EntryView>, acc: Seq<
    usize,
>)
    requires
        forall|i: int, j: int|
            0 <= i < content.len() && (#[trigger] content[i]) is UnResolved && 0 <= j < content[i]
                ->UnResolved_0.needs.len() ==> item_ref_ready(
                t,
                #[trigger] content[i]->UnResolved_0.needs[j],
            ),
    ensures
        step_content(content, t, acc).1 == acc,
    decreases content.len(),
{
    if content.len() > 0 {
        match content[0] {
            UR::Resolved(r) => {},
            UR::UnResolved(ci) => {
                assert(all_item_refs_ready(t, ci.needs)) by {
                    assert forall|j: int| 0 <= j < ci.needs.len() implies item_ref_ready(
                        t,
                        #[trigger] ci.needs[j],
                    ) by {
                        assert(content[0]->UnResolved_0 == ci);
                    }
                }
            },
        }
        assert(forall|i: int, j: int|
            0 <= i < content.drop_first().len() && (#[trigger] content.drop_first()[i])
                is UnResolved && 0 <= j < content.drop_first()[i]->UnResolved_0.needs.len()
                ==> item_ref_ready(
                t,
                #[trigger] content.drop_first()[i]->UnResolved_0.needs[j],
            )) by {
            assert(forall|i: int|
                0 <= i < content.drop_first().len() ==> #[trigger] content.drop_first()[i]
                    == content[i + 1]);
        }
        lemma_step_content_all_ready(content.drop_first(), t, acc);
    }
}

/// Idempotence: a document whose every referenced symbol the store already
/// holds resolved completes in exactly one round.
pub proof fn theorem_idempotence(
    content: Seq<ItemEntryView>,
    cat: Map<usize, EntryView>,
    resp: spec_fn(Set<usize>) -> Set<usize>,
)
    requires
        valid_response(resp, cat),
        step_content(content, Map::empty(), Seq::empty()).1.len() > 0,
        forall|s: usize|
            step_content(content, Map::empty(), Seq::empty()).1.contains(s) ==> cat.contains_key(
                s,
            ) && cat[s] is Resolved,
    ensures
        run_succeeded(run(initial_state(content), cat, resp)),
        run(initial_state(content), cat, resp).iterations == 1,
{
    let init = initial_state(content);
    let t0 = Map::<usize, EntryView>::empty();
    let (c2, nd) = step_content(content, t0, Seq::empty());
    let t1 = merge_table(t0, resp(nd.to_set()), cat);
    let s1 = crate::model::fetch_state(RunState { content: c2, ..init }, nd, cat, resp);
    let sym1 = RunState { phase: RunPhase::Symbols(nd), ..s1 };
    assert(run(init, cat, resp) == run(sym1, cat, resp));
    assert(s1.table == t1);

    // every needed symbol is in the merged table, resolved
    assert forall|i: int| 0 <= i < nd.len() implies t1.contains_key(#[trigger] nd[i])
        && t1[nd[i]] is Resolved by {
        assert(nd.to_set().contains(nd[i]));
        assert(resp(nd.to_set()).contains(nd[i]));
    }
    lemma_step_symbols_all_resolved(nd, t1, Seq::empty(), Seq::empty());
    let s2 = RunState {
        table: t1,
        unresolvable: extend_unique(init.unresolvable, Seq::empty()),
        iterations: 1,
        phase: RunPhase::Document,
        ..sym1
    };
    assert(extend_unique(Seq::<usize>::empty(), Seq::<usize>::empty())
        == Seq::<usize>::empty());
    assert(run(sym1, cat, resp) == run(s2, cat, resp));

    // the second document pass finds every reference ready
    assert forall|i: int, j: int|
        0 <= i < c2.len() && (#[trigger] c2[i]) is UnResolved && 0 <= j < c2[i]
            ->UnResolved_0.needs.len() implies item_ref_ready(
        t1,
        #[trigger] c2[i]->UnResolved_0.needs[j],
    ) by {
        lemma_step_content_shape(content, t0, Seq::empty());
        assert(content[i] is UnResolved || c2[i] == content[i]);
        if content[i] is Resolved {
            assert(c2[i] == content[i]);
            assert(false);
        }
        assert(c2[i] == content[i] || c2[i] is Resolved) by {
            lemma_unresolved_unchanged(content, t0, Seq::empty(), i);
        }
        assert(c2[i] == content[i]);
        let x = content[i]->UnResolved_0.needs[j];
        assert(!item_ref_ready(t0, x));
        lemma_step_content_collects(content, t0, Seq::empty(), i, j);
        assert(nd.contains(x));
    }
    lemma_step_content_all_ready(c2, t1, Seq::empty());
    let (c3, nd3) = step_content(c2, t1, Seq::empty());
    assert(nd3.len() == 0);
    let fin = RunState { content: c3, phase: RunPhase::Finished, ..s2 };
    assert(run(s2, cat, resp) == fin);
    assert(fin.unresolvable.len() == 0);
}

/// A symbol pass over entries that are present and reference nothing
/// resolves every one of them, requests nothing further, and touches no
/// other entry.
proof fn lemma_step_symbols_independent(
    req: Seq<usize>,
    t: Map<usize, EntryView>,
    need: Seq<usize>,
    unres: Seq<usize>,
)
    requires
        forall|i: int|
            0 <= i < req.len() ==> t.contains_key(#[trigger] req[i]) && (t[req[i]] is Resolved || (
            t[req[i]]->UnResolved_0.sig_needs.len() == 0 && t[req[i]]
                ->UnResolved_0.body_needs.len() == 0)),
    ensures
        step_symbols(req, t, need, unres).1 == need,
        step_symbols(req, t, need, unres).2 == unres,
        forall|k: usize|
            step_symbols(req, t, need, unres).0.contains_key(k) == t.contains_key(k),
        forall|i: int|
            0 <= i < req.len() ==> step_symbols(req, t, need, unres).0[#[trigger] req[i]]
                is Resolved,
        forall|k: usize|
            t.contains_key(k) && t[k] is Resolved ==> step_symbols(req, t, need, unres).0[k]
                == t[k],
    decreases req.len(),
{
    if req.len() > 0 {
        let s = req[0];
        assert(forall|i: int|
            0 <= i < req.drop_first().len() ==> #[trigger] req.drop_first()[i] == req[i + 1]);
        if t[s] is Resolved {
            lemma_step_symbols_independent(req.drop_first(), t, need, unres);
            let res = step_symbols(req.drop_first(), t, need, unres);
            assert(step_symbols(req, t, need, unres) == res);
            assert forall|i: int| 0 <= i < req.len() implies step_symbols(
                req,
                t,
                need,
                unres,
            ).0[#[trigger] req[i]] is Resolved by {
                if i == 0 {
                    assert(res.0[s] == t[s]);
                } else {
                    assert(res.0[req.drop_first()[i - 1]] is Resolved);
                }
            }
        } else {
            let d = t[s]->UnResolved_0;
            let (e, stuck) = step_definition(d, t);
            assert(e == UR::<DefView, ResolvedDefView>::Resolved(
                ResolvedDefView { symbol: d.symbol, kind: d.kind },
            ));
            let t2 = t.insert(s, e);
            assert(extend_unique(need, stuck) == need);
            assert(forall|i: int|
                0 <= i < req.drop_first().len() ==> t2.contains_key(
                    #[trigger] req.drop_first()[i],
                ) && (t2[req.drop_first()[i]] is Resolved || (t2[req.drop_first()[i]]
                    ->UnResolved_0.sig_needs.len() == 0 && t2[req.drop_first()[i]]
                    ->UnResolved_0.body_needs.len() == 0)));
            lemma_step_symbols_independent(req.drop_first(), t2, need, unres);
            let res = step_symbols(req.drop_first(), t2, need, unres);
            assert(step_symbols(req, t, need, unres) == res);
            assert forall|k: usize|
                step_symbols(req, t, need, unres).0.contains_key(k) == t.contains_key(
                k,
            ) by {
                assert(res.0.contains_key(k) == t2.contains_key(k));
                assert(t2.contains_key(k) == t.contains_key(k));
            }
            assert forall|i: int| 0 <= i < req.len() implies step_symbols(
                req,
                t,
                need,
                unres,
            ).0[#[trigger] req[i]] is Resolved by {
                if i == 0 {
                    assert(t2.contains_key(s) && t2[s] is Resolved);
                    assert(res.0[s] == t2[s]);
                } else {
                    assert(res.0[req.drop_first()[i - 1]] is Resolved);
                }
            }
            assert forall|k: usize|
                t.contains_key(k) && t[k] is Resolved implies step_symbols(
                req,
                t,
                need,
                unres,
            ).0[k] == t[k] by {
                assert(k != s);
                assert(t2.contains_key(k) && t2[k] == t[k]);
                assert(res.0[k] == t2[k]);
            }
        }
    }
}

/// Convergence bound: a document needing distinct, mutually independent
/// external symbols, none referencing another, converges in one round —
/// within the k + 1 bound for k needed symbols.
pub proof fn theorem_convergence_bound(
    content: Seq<ItemEntryView>,
    cat: Map<usize, EntryView>,
    resp: spec_fn(Set<usize>) -> Set<usize>,
)
    requires
        valid_response(resp, cat),
        step_content(content, Map::empty(), Seq::empty()).1.len() > 0,
        forall|s: usize|
            step_content(content, Map::empty(), Seq::empty()).1.contains(s) ==> cat.contains_key(
                s,
            ) && (cat[s] is Resolved || ((#[trigger] cat[s])->UnResolved_0.sig_needs.len() == 0
                && cat[s]->UnResolved_0.body_needs.len() == 0)),
    ensures
        run_succeeded(run(initial_state(content), cat, resp)),
        run(initial_state(content), cat, resp).iterations <= step_content(
            content,
            Map::empty(),
            Seq::empty(),
        ).1.len() + 1,
{
    let init = initial_state(content);
    let t0 = Map::<usize, EntryView>::empty();
    let (c2, nd) = step_content(content, t0, Seq::empty());
    let t1 = merge_table(t0, resp(nd.to_set()), cat);
    let s1 = crate::model::fetch_state(RunState { content: c2, ..init }, nd, cat, resp);
    let sym1 = RunState { phase: RunPhase::Symbols(nd), ..s1 };
    assert(run(init, cat, resp) == run(sym1, cat, resp));
    assert(s1.table == t1);

    assert forall|i: int| 0 <= i < nd.len() implies t1.contains_key(#[trigger] nd[i]) && (
    t1[nd[i]] is Resolved || (t1[nd[i]]->UnResolved_0.sig_needs.len() == 0 && t1[nd[i]]
        ->UnResolved_0.body_needs.len() == 0)) by {
        assert(nd.contains(nd[i]));
        assert(cat.contains_key(nd[i]) && (cat[nd[i]] is Resolved || (cat[nd[i]]
            ->UnResolved_0.sig_needs.len() == 0 && cat[nd[i]]->UnResolved_0.body_needs.len()
            == 0)));
        assert(nd.to_set().contains(nd[i]));
        assert(resp(nd.to_set()).contains(nd[i]));
    }
    lemma_step_symbols_independent(nd, t1, Seq::empty(), Seq::empty());
    let t2 = step_symbols(nd, t1, Seq::empty(), Seq::empty()).0;
    let s2 = RunState {
        table: t2,
        unresolvable: extend_unique(init.unresolvable, Seq::empty()),
        iterations: 1,
        phase: RunPhase::Document,
        ..sym1
    };
    assert(extend_unique(Seq::<usize>::empty(), Seq::<usize>::empty())
        == Seq::<usize>::empty());
    assert(run(sym1, cat, resp) == run(s2, cat, resp));

    assert forall|i: int, j: int|
        0 <= i < c2.len() && (#[trigger] c2[i]) is UnResolved && 0 <= j < c2[i]
            ->UnResolved_0.needs.len() implies item_ref_ready(
        t2,
        #[trigger] c2[i]->UnResolved_0.needs[j],
    ) by {
        lemma_step_content_shape(content, t0, Seq::empty());
        if content[i] is Resolved {
            assert(c2[i] == content[i]);
            assert(false);
        }
        assert(c2[i] == content[i] || c2[i] is Resolved) by {
            lemma_unresolved_unchanged(content, t0, Seq::empty(), i);
        }
        assert(c2[i] == content[i]);
        let x = content[i]->UnResolved_0.needs[j];
        assert(!item_ref_ready(t0, x));
        lemma_step_content_collects(content, t0, Seq::empty(), i, j);
        assert(nd.contains(x));
        let ix = choose|ix: int| 0 <= ix < nd.len() && nd[ix] == x;
        assert(t2[nd[ix]] is Resolved);
    }
    lemma_step_content_all_ready(c2, t2, Seq::empty());
    let (c3, nd3) = step_content(c2, t2, Seq::empty());
    assert(nd3.len() == 0);
    let fin = RunState { content: c3, phase: RunPhase::Finished, ..s2 };
    assert(run(s2, cat, resp) == fin);
    assert(fin.unresolvable.len() == 0);
}

/// A symbol pass never adds a key to the table.
proof fn lemma_step_symbols_dom(
    req: Seq<usize>,
    t: Map<usize, EntryView>,
    need: Seq<usize>,
    unres: Seq<usize>,
)
    ensures
        forall|k: usize|
            step_symbols(req, t, need, unres).0.contains_key(k) == t.contains_key(k),
    decreases req.len(),
{
    if req.len() > 0 {
        let s = req[0];
        if !t.contains_key(s) {
            lemma_step_symbols_dom(req.drop_first(), t, need, push_unique(unres, s));
        } else {
            match t[s] {
                UR::Resolved(_) => {
                    lemma_step_symbols_dom(req.drop_first(), t, need, unres);
                },
                UR::UnResolved(d) => {
                    let (e, stuck) = step_definition(d, t);
                    let t2 = t.insert(s, e);
                    let n1 = extend_unique(need, stuck);
                    let need2 = if e is UnResolved {
                        push_unique(n1, s)
                    } else {
                        n1
                    };
                    lemma_step_symbols_dom(req.drop_first(), t2, need2, unres);
                    assert(step_symbols(req, t, need, unres) == step_symbols(
                        req.drop_first(),
                        t2,
                        need2,
                        unres,
                    ));
                    assert forall|k: usize|
                        step_symbols(req, t, need, unres).0.contains_key(k) == t.contains_key(
                        k,
                    ) by {
                        assert(t2.contains_key(k) == t.contains_key(k));
                    }
                },
            }
        }
    }
}

/// What a symbol pass has marked unresolvable stays marked.
proof fn lemma_step_symbols_unres_keeps(
    req: Seq<usize>,
    t: Map<usize, EntryView>,
    need: Seq<usize>,
    unres: Seq<usize>,
    x: usize,
)
    requires
        unres.contains(x),
    ensures
        step_symbols(req, t, need, unres).2.contains(x),
    decreases req.len(),
{
    if req.len() > 0 {
        let s = req[0];
        if !t.contains_key(s) {
            assert(push_unique(unres, s).contains(x)) by {
                if !unres.contains(s) {
                    crate::defs::lemma_push_contains(unres, s, x);
                }
            }
            lemma_step_symbols_unres_keeps(req.drop_first(), t, need, push_unique(unres, s), x);
        } else {
            match t[s] {
                UR::Resolved(_) => {
                    lemma_step_symbols_unres_keeps(req.drop_first(), t, need, unres, x);
                },
                UR::UnResolved(d) => {
                    let (e, stuck) = step_definition(d, t);
                    let t2 = t.insert(s, e);
                    let n1 = extend_unique(need, stuck);
                    let need2 = if e is UnResolved {
                        push_unique(n1, s)
                    } else {
                        n1
                    };
                    lemma_step_symbols_unres_keeps(req.drop_first(), t2, need2, unres, x);
                },
            }
        }
    }
}

/// A requested symbol with no table entry at all is reported unresolvable.
proof fn lemma_step_symbols_unresolvable(
    req: Seq<usize>,
    t: Map<usize, EntryView>,
    need: Seq<usize>,
    unres: Seq<usize>,
    i: int,
)
    requires
        0 <= i < req.len(),
        !t.contains_key(req[i]),
    ensures
        step_symbols(req, t, need, unres).2.contains(req[i]),
    decreases req.len(),
{
    let s = req[0];
    if i == 0 {
        let u2 = push_unique(unres, s);
        assert(u2.contains(s)) by {
            if !unres.contains(s) {
                crate::defs::lemma_push_contains(unres, s, s);
            }
        }
        lemma_step_symbols_unres_keeps(req.drop_first(), t, need, u2, s);
    } else {
        assert(req.drop_first()[i - 1] == req[i]);
        if !t.contains_key(s) {
            lemma_step_symbols_unresolvable(req.drop_first(), t, need, push_unique(unres, s), i - 1);
        } else {
            match t[s] {
                UR::Resolved(_) => {
                    lemma_step_symbols_unresolvable(req.drop_first(), t, need, unres, i - 1);
                },
                UR::UnResolved(d) => {
                    let (e, stuck) = step_definition(d, t);
                    let t2 = t.insert(s, e);
                    let n1 = extend_unique(need, stuck);
                    let need2 = if e is UnResolved {
                        push_unique(n1, s)
                    } else {
                        n1
                    };
                    lemma_step_symbols_unresolvable(req.drop_first(), t2, need2, unres, i - 1);
                },
            }
        }
    }
}

/// Once a symbol has accumulated as unresolvable, it is still there when the
/// run ends.
proof fn lemma_run_keeps_unresolvable(
    st: RunState,
    cat: Map<usize, EntryView>,
    resp: spec_fn(Set<usize>) -> Set<usize>,
    x: usize,
)
    requires
        st.unresolvable.contains(x),
    ensures
        run(st, cat, resp).unresolvable.contains(x),
    decreases crate::model::run_measure(st), crate::model::phase_rank(st.phase),
{
    if st.phase is Finished || st.iterations >= ITERATION_THRESHOLD as nat {
    } else {
        match st.phase {
            RunPhase::Document => {
                let (content2, needed) = step_content(st.content, st.table, Seq::empty());
                if needed.len() == 0 {
                } else {
                    let s2 = crate::model::fetch_state(
                        RunState { content: content2, ..st },
                        needed,
                        cat,
                        resp,
                    );
                    lemma_run_keeps_unresolvable(
                        RunState { phase: RunPhase::Symbols(needed), ..s2 },
                        cat,
                        resp,
                        x,
                    );
                }
            },
            RunPhase::Symbols(need) => {
                let (t2, need2, unres2) = step_symbols(need, st.table, Seq::empty(), Seq::empty());
                lemma_extend_unique_contains(st.unresolvable, unres2, x);
                let s2 = RunState {
                    table: t2,
                    unresolvable: extend_unique(st.unresolvable, unres2),
                    iterations: st.iterations + 1,
                    ..st
                };
                if need2.len() == 0 {
                    lemma_run_keeps_unresolvable(
                        RunState { phase: RunPhase::Document, ..s2 },
                        cat,
                        resp,
                        x,
                    );
                } else {
                    let s3 = crate::model::fetch_state(s2, need2, cat, resp);
                    lemma_run_keeps_unresolvable(
                        RunState { phase: RunPhase::Symbols(need2), ..s3 },
                        cat,
                        resp,
                        x,
                    );
                }
            },
            RunPhase::Finished => {},
        }
    }
}

/// Unresolvable propagation: a referenced name with no corresponding store
/// entry ends in the failure diagnostics; the compile never succeeds.
pub proof fn theorem_unresolvable_propagation(
    content: Seq<ItemEntryView>,
    cat: Map<usize, EntryView>,
    resp: spec_fn(Set<usize>) -> Set<usize>,
    n: usize,
)
    requires
        valid_response(resp, cat),
        step_content(content, Map::empty(), Seq::empty()).1.contains(n),
        !cat.contains_key(n),
    ensures
        !run_succeeded(run(initial_state(content), cat, resp)),
        run(initial_state(content), cat, resp).unresolvable.contains(n),
{
    let init = initial_state(content);
    let t0 = Map::<usize, EntryView>::empty();
    let (c2, nd) = step_content(content, t0, Seq::empty());
    assert(nd.len() > 0);
    let t1 = merge_table(t0, resp(nd.to_set()), cat);
    let s1 = crate::model::fetch_state(RunState { content: c2, ..init }, nd, cat, resp);
    let sym1 = RunState { phase: RunPhase::Symbols(nd), ..s1 };
    assert(run(init, cat, resp) == run(sym1, cat, resp));
    assert(!t1.contains_key(n));
    let (t2, need2, unres2) = step_symbols(nd, t1, Seq::empty(), Seq::empty());
    let i = choose|i: int| 0 <= i < nd.len() && nd[i] == n;
    lemma_step_symbols_unresolvable(nd, t1, Seq::empty(), Seq::empty(), i);
    assert(unres2.contains(n));
    let unres3 = extend_unique(sym1.unresolvable, unres2);
    lemma_extend_unique_contains(sym1.unresolvable, unres2, n);
    assert(unres3.contains(n));
    let s2 = RunState {
        table: t2,
        unresolvable: unres3,
        iterations: sym1.iterations + 1,
        ..sym1
    };
    if need2.len() == 0 {
        let nxt = RunState { phase: RunPhase::Document, ..s2 };
        assert(run(sym1, cat, resp) == run(nxt, cat, resp));
        lemma_run_keeps_unresolvable(nxt, cat, resp, n);
    } else {
        let s3 = crate::model::fetch_state(s2, need2, cat, resp);
        let nxt = RunState { phase: RunPhase::Symbols(need2), ..s3 };
        assert(run(sym1, cat, resp) == run(nxt, cat, resp));
        lemma_run_keeps_unresolvable(nxt, cat, resp, n);
    }
    assert(run(init, cat, resp).unresolvable.contains(n));
    assert(run(init, cat, resp).unresolvable.len() > 0);
}

/// A set of table entries none of which can make progress: each is present,
/// unresolved, left exactly as it was by its own resolve step, and stuck only
/// on names inside the set.
pub open spec fn stalled_at(t: Map<usize, EntryView>, ns: Set<usize>) -> bool {
    forall|s: usize|
        ns.contains(s) ==> t.contains_key(s) && (#[trigger] t[s]) is UnResolved
            && step_definition(t[s]->UnResolved_0, t).0 == t[s] && (forall|x: usize|
            step_definition(t[s]->UnResolved_0, t).1.to_set().contains(x) ==> ns.contains(x))
}

/// A symbol pass over a stalled set leaves the table untouched and only ever
/// re-requests names from the set, the processed symbols among them.
proof fn lemma_step_symbols_stalled(
    req: Seq<usize>,
    t: Map<usize, EntryView>,
    need: Seq<usize>,
    unres: Seq<usize>,
    ns: Set<usize>,
)
    requires
        stalled_at(t, ns),
        forall|i: int| 0 <= i < req.len() ==> ns.contains(#[trigger] req[i]),
        forall|x: usize| need.contains(x) ==> ns.contains(x),
    ensures
        step_symbols(req, t, need, unres).0 == t,
        step_symbols(req, t, need, unres).2 == unres,
        forall|x: usize|
            step_symbols(req, t, need, unres).1.contains(x) ==> ns.contains(x),
        forall|x: usize|
            need.contains(x) ==> step_symbols(req, t, need, unres).1.contains(x),
        forall|i: int|
            0 <= i < req.len() ==> step_symbols(req, t, need, unres).1.contains(
                #[trigger] req[i],
            ),
    decreases req.len(),
{
    if req.len() > 0 {
        let s = req[0];
        assert(ns.contains(s));
        let d = t[s]->UnResolved_0;
        let (e, stuck) = step_definition(d, t);
        assert(e == t[s]);
        let t2 = t.insert(s, e);
        assert(t2 =~= t);
        let n1 = extend_unique(need, stuck);
        let need2 = push_unique(n1, s);
        assert forall|x: usize| need2.contains(x) implies ns.contains(x) by {
            if !n1.contains(s) {
                crate::defs::lemma_push_contains(n1, s, x);
            }
            if n1.contains(x) {
                lemma_extend_unique_contains(need, stuck, x);
                if stuck.contains(x) {
                    assert(stuck.to_set().contains(x));
                }
            }
        }
        assert(need2.contains(s)) by {
            if !n1.contains(s) {
                crate::defs::lemma_push_contains(n1, s, s);
            }
        }
        assert forall|x: usize| need.contains(x) implies need2.contains(x) by {
            lemma_extend_unique_contains(need, stuck, x);
            if !n1.contains(s) {
                crate::defs::lemma_push_contains(n1, s, x);
            }
        }
        assert(forall|i: int|
            0 <= i < req.drop_first().len() ==> #[trigger] req.drop_first()[i] == req[i + 1]);
        lemma_step_symbols_stalled(req.drop_first(), t2, need2, unres, ns);
        assert(step_symbols(req, t, need, unres) == step_symbols(
            req.drop_first(),
            t2,
            need2,
            unres,
        ));
        assert forall|i: int| 0 <= i < req.len() implies step_symbols(
            req,
            t,
            need,
            unres,
        ).1.contains(#[trigger] req[i]) by {
            if i == 0 {
                assert(need2.contains(s));
            } else {
                assert(req.drop_first()[i - 1] == req[i]);
            }
        }
    }
}

/// From a stalled symbol phase the engine spins until the shared counter is
/// exhausted, exactly at the threshold: the table, the diagnostics and the
/// content never change again.
proof fn lemma_run_stalled(
    st: RunState,
    cat: Map<usize, EntryView>,
    resp: spec_fn(Set<usize>) -> Set<usize>,
    ns: Set<usize>,
)
    requires
        valid_response(resp, cat),
        st.phase matches RunPhase::Symbols(req) && req.len() > 0 && (forall|i: int|
            0 <= i < req.len() ==> ns.contains(#[trigger] req[i])),
        stalled_at(st.table, ns),
        forall|k: usize| cat.contains_key(k) ==> st.table.contains_key(k),
        st.iterations < ITERATION_THRESHOLD as nat,
    ensures
        run(st, cat, resp).iterations == ITERATION_THRESHOLD as nat,
        run(st, cat, resp).phase is Symbols,
        run(st, cat, resp).unresolvable == st.unresolvable,
        run(st, cat, resp).table == st.table,
        run(st, cat, resp).content == st.content,
    decreases ITERATION_THRESHOLD as nat - st.iterations,
{
    let req = st.phase->Symbols_0;
    lemma_step_symbols_stalled(req, st.table, Seq::empty(), Seq::empty(), ns);
    let (t2, need2, unres2) = step_symbols(req, st.table, Seq::empty(), Seq::empty());
    assert(t2 == st.table);
    assert(unres2 == Seq::<usize>::empty());
    assert(extend_unique(st.unresolvable, unres2) == st.unresolvable);
    assert(need2.contains(req[0]));
    assert(need2.len() > 0);
    let s2 = RunState {
        table: t2,
        unresolvable: st.unresolvable,
        iterations: st.iterations + 1,
        ..st
    };
    assert(merge_table(st.table, resp(need2.to_set()), cat) =~= st.table) by {
        assert forall|k: usize| resp(need2.to_set()).contains(k) implies cat.contains_key(
            k,
        ) by {}
    }
    let s3 = crate::model::fetch_state(s2, need2, cat, resp);
    let nxt = RunState { phase: RunPhase::Symbols(need2), ..s3 };
    assert(run(st, cat, resp) == run(nxt, cat, resp));
    assert(nxt.table == st.table);
    if nxt.iterations < ITERATION_THRESHOLD as nat {
        lemma_run_stalled(nxt, cat, resp, ns);
    } else {
        assert(run(nxt, cat, resp) == nxt);
        assert(nxt.iterations == ITERATION_THRESHOLD as nat);
    }
}

/// Non-convergence: a store that reports both halves of a signature cycle as
/// found, each perpetually re-requesting the other, fails with the shared
/// counter exhausted at exactly the threshold — nothing unresolvable, no
/// convergence.
pub proof fn theorem_non_convergence(
    s: usize,
    t: usize,
    ks: crate::defs::DefinitionKind,
    kt: crate::defs::DefinitionKind,
    x: usize,
    content: Seq<ItemEntryView>,
    cat: Map<usize, EntryView>,
    resp: spec_fn(Set<usize>) -> Set<usize>,
)
    requires
        s != t,
        valid_response(resp, cat),
        cat.dom() == Set::<usize>::empty().insert(s).insert(t),
        cat[s] == UR::<DefView, ResolvedDefView>::UnResolved(
            DefView {
                symbol: s,
                kind: ks,
                sig_needs: seq![t],
                body_needs: Seq::empty(),
                sig_resolved: false,
            },
        ),
        cat[t] == UR::<DefView, ResolvedDefView>::UnResolved(
            DefView {
                symbol: t,
                kind: kt,
                sig_needs: seq![s],
                body_needs: Seq::empty(),
                sig_resolved: false,
            },
        ),
        content == seq![
            UR::<crate::defs::ItemView, ResolvedItemView>::UnResolved(
                crate::defs::ItemView { item: x, needs: seq![s] },
            ),
        ],
    ensures
        !run_succeeded(run(initial_state(content), cat, resp)),
        run(initial_state(content), cat, resp).iterations == ITERATION_THRESHOLD as nat,
        run(initial_state(content), cat, resp).unresolvable.len() == 0,
{
    reveal_with_fuel(extend_unique, 3);
    reveal_with_fuel(step_symbols, 2);
    reveal_with_fuel(step_content, 2);
    broadcast use vstd::seq_lib::group_seq_lib_default;

    let ns = Set::<usize>::empty().insert(s).insert(t);
    let init = initial_state(content);
    let t0 = Map::<usize, EntryView>::empty();
    let ci = content[0]->UnResolved_0;
    assert(ci.needs == seq![s]);

    // first document pass: the single item is stuck on s
    assert(!all_item_refs_ready(t0, ci.needs)) by {
        assert(ci.needs[0] == s);
        assert(!item_ref_ready(t0, s));
    }
    assert(item_missing(t0, ci.needs) =~= seq![s]) by {
        reveal_with_fuel(Seq::filter, 2);
        assert(ci.needs.drop_last() =~= Seq::<usize>::empty());
        assert(ci.needs.last() == s);
    }
    let nd = extend_unique(Seq::<usize>::empty(), seq![s]);
    assert(nd =~= seq![s]) by {
        assert(!Seq::<usize>::empty().contains(s));
        assert(seq![s].drop_first() =~= Seq::<usize>::empty());
    }
    let (c2, nd0) = step_content(content, t0, Seq::empty());
    assert(content.drop_first() =~= Seq::<ItemEntryView>::empty());
    assert(nd0 == extend_unique(Seq::<usize>::empty(), item_missing(t0, ci.needs)));
    assert(nd0 =~= seq![s]);
    assert(nd0.len() == 1);

    let t1 = merge_table(t0, resp(nd0.to_set()), cat);
    let s1 = crate::model::fetch_state(RunState { content: c2, ..init }, nd0, cat, resp);
    let sym1 = RunState { phase: RunPhase::Symbols(nd0), ..s1 };
    assert(run(init, cat, resp) == run(sym1, cat, resp));
    assert(sym1.table == t1);

    // the merged table holds catalog values only
    assert forall|k: usize| t1.contains_key(k) implies cat.contains_key(k) && t1[k] == cat[k] by {}
    assert(t1.contains_key(s)) by {
        assert(nd0.to_set().contains(s)) by {
            assert(nd0.contains(s));
        }
    }

    // first symbol pass over [s]: stuck on t, entry unchanged
    let d_s = cat[s]->UnResolved_0;
    assert(t1[s]->UnResolved_0 == d_s);
    assert(!sig_available(t1, s, t)) by {
        if t1.contains_key(t) {
            assert(t1[t] == cat[t]);
        }
    }
    assert(step_definition(d_s, t1).0 == t1[s] && step_definition(d_s, t1).1 =~= seq![t]) by {
        assert(!(d_s.sig_resolved || crate::model::all_available(t1, s, d_s.sig_needs))) by {
            assert(d_s.sig_needs[0] == t);
        }
        reveal_with_fuel(Seq::filter, 2);
        assert(d_s.sig_needs.drop_last() =~= Seq::<usize>::empty());
        assert(d_s.sig_needs.last() == t);
    }
    let (p1_t, p1_need, p1_unres) = step_symbols(nd0, t1, Seq::empty(), Seq::empty());
    assert(nd0.drop_first() =~= Seq::<usize>::empty());
    assert(t1.insert(s, t1[s]) =~= t1);
    assert(p1_t == t1);
    assert(p1_unres == Seq::<usize>::empty());
    assert(p1_need =~= seq![t, s]) by {
        assert(extend_unique(Seq::<usize>::empty(), step_definition(d_s, t1).1) =~= seq![t]) by {
            assert(step_definition(d_s, t1).1 =~= seq![t]);
            assert(!Seq::<usize>::empty().contains(t));
            assert(seq![t].drop_first() =~= Seq::<usize>::empty());
        }
        assert(!seq![t].contains(s)) by {
            if seq![t].contains(s) {
                let i = choose|i: int| 0 <= i < 1 && seq![t][i] == s;
                assert(seq![t][0] == t);
            }
        }
        assert(push_unique(seq![t], s) =~= seq![t].push(s));
    }
    assert(p1_need.len() == 2);

    let s2 = RunState {
        table: t1,
        unresolvable: extend_unique(sym1.unresolvable, Seq::empty()),
        iterations: 1,
        ..sym1
    };
    assert(s2.unresolvable == Seq::<usize>::empty());
    let t3 = merge_table(t1, resp(p1_need.to_set()), cat);
    let s3 = crate::model::fetch_state(s2, p1_need, cat, resp);
    let st2 = RunState { phase: RunPhase::Symbols(p1_need), ..s3 };
    assert(run(sym1, cat, resp) == run(st2, cat, resp));
    assert(st2.table == t3);
    assert(st2.iterations == 1);

    // after the second fetch both halves of the cycle are in the table
    assert forall|k: usize| t3.contains_key(k) implies cat.contains_key(k) && t3[k] == cat[k] by {}
    assert(t3.contains_key(s));
    assert(t3.contains_key(t)) by {
        assert(p1_need.to_set().contains(t)) by {
            assert(p1_need[0] == t);
            assert(p1_need.contains(t));
        }
        assert(cat.contains_key(t));
        assert(resp(p1_need.to_set()).contains(t));
    }

    // and they form a stalled set
    assert(stalled_at(t3, ns)) by {
        assert forall|k: usize| ns.contains(k) implies t3.contains_key(k) && (
        #[trigger] t3[k]) is UnResolved && step_definition(t3[k]->UnResolved_0, t3).0 == t3[k] && (
        forall|y: usize|
            step_definition(t3[k]->UnResolved_0, t3).1.to_set().contains(y) ==> ns.contains(
                y,
            )) by {
            reveal_with_fuel(Seq::filter, 2);
            if k == s {
                let d = t3[s]->UnResolved_0;
                assert(d == d_s);
                assert(!sig_available(t3, s, t)) by {
                    assert(t3[t] == cat[t]);
                }
                assert(!(d.sig_resolved || crate::model::all_available(t3, s, d.sig_needs))) by {
                    assert(d.sig_needs[0] == t);
                }
                assert(d.sig_needs.drop_last() =~= Seq::<usize>::empty());
                assert(step_definition(d, t3).1 =~= seq![t]);
                assert forall|y: usize|
                    step_definition(d, t3).1.to_set().contains(y) implies ns.contains(y) by {
                    assert(step_definition(d, t3).1.contains(y));
                    let i = choose|i: int|
                        0 <= i < step_definition(d, t3).1.len() && step_definition(d, t3).1[i]
                            == y;
                    assert(y == t);
                }
            } else {
                assert(k == t);
                let d = t3[t]->UnResolved_0;
                assert(d == cat[t]->UnResolved_0);
                assert(!sig_available(t3, t, s)) by {
                    assert(t3[s] == cat[s]);
                }
                assert(!(d.sig_resolved || crate::model::all_available(t3, t, d.sig_needs))) by {
                    assert(d.sig_needs[0] == s);
                }
                assert(d.sig_needs.drop_last() =~= Seq::<usize>::empty());
                assert(step_definition(d, t3).1 =~= seq![s]);
                assert forall|y: usize|
                    step_definition(d, t3).1.to_set().contains(y) implies ns.contains(y) by {
                    assert(step_definition(d, t3).1.contains(y));
                    let i = choose|i: int|
                        0 <= i < step_definition(d, t3).1.len() && step_definition(d, t3).1[i]
                            == y;
                    assert(y == s);
                }
            }
        }
    }
    assert(forall|i: int| 0 <= i < p1_need.len() ==> ns.contains(#[trigger] p1_need[i])) by {
        assert(p1_need[0] == t && p1_need[1] == s);
    }
    assert(forall|k: usize| cat.contains_key(k) ==> t3.contains_key(k)) by {
        assert(cat.dom().contains(s) || true);
    }
    lemma_run_stalled(st2, cat, resp, ns);
    assert(run(init, cat, resp) == run(st2, cat, resp));
    assert(run(st2, cat, resp).iterations == ITERATION_THRESHOLD as nat);
    assert(run(st2, cat, resp).phase is Symbols);
    assert(run(st2, cat, resp).unresolvable == Seq::<usize>::empty());
}

/// Cycle safety: two definitions referencing each other only in their bodies
/// — their signatures reference nothing — resolve successfully in two rounds,
/// far from the iteration threshold, and both appear in the final bundle.
/// The signature-first discipline is what makes this work: each body
/// reference is satisfied by the peer's already-resolved signature.
pub proof fn theorem_cycle_safety(
    s: usize,
    t: usize,
    ks: crate::defs::DefinitionKind,
    kt: crate::defs::DefinitionKind,
    x: usize,
    content: Seq<ItemEntryView>,
    cat: Map<usize, EntryView>,
    resp: spec_fn(Set<usize>) -> Set<usize>,
)
    requires
        s != t,
        valid_response(resp, cat),
        cat.contains_key(s),
        cat.contains_key(t),
        cat[s] == UR::<DefView, ResolvedDefView>::UnResolved(
            DefView {
                symbol: s,
                kind: ks,
                sig_needs: Seq::empty(),
                body_needs: seq![t],
                sig_resolved: false,
            },
        ),
        cat[t] == UR::<DefView, ResolvedDefView>::UnResolved(
            DefView {
                symbol: t,
                kind: kt,
                sig_needs: Seq::empty(),
                body_needs: seq![s],
                sig_resolved: false,
            },
        ),
        content == seq![
            UR::<crate::defs::ItemView, ResolvedItemView>::UnResolved(
                crate::defs::ItemView { item: x, needs: seq![s] },
            ),
        ],
    ensures
        run_succeeded(run(initial_state(content), cat, resp)),
        run(initial_state(content), cat, resp).iterations == 2,
        used_definitions(
            run(initial_state(content), cat, resp).used,
            run(initial_state(content), cat, resp).table,
        ).len() == 2,
        used_definitions(
            run(initial_state(content), cat, resp).used,
            run(initial_state(content), cat, resp).table,
        )[0].0 == s,
        used_definitions(
            run(initial_state(content), cat, resp).used,
            run(initial_state(content), cat, resp).table,
        )[1].0 == t,
{
    reveal_with_fuel(extend_unique, 4);
    reveal_with_fuel(step_symbols, 3);
    reveal_with_fuel(step_content, 2);
    reveal_with_fuel(used_definitions, 3);
    broadcast use vstd::seq_lib::group_seq_lib_default;

    let init = initial_state(content);
    let t0 = Map::<usize, EntryView>::empty();
    let ci = content[0]->UnResolved_0;
    assert(ci.needs == seq![s]);

    // first document pass: the single item is stuck on s
    assert(!all_item_refs_ready(t0, ci.needs)) by {
        assert(ci.needs[0] == s);
        assert(!item_ref_ready(t0, s));
    }
    assert(item_missing(t0, ci.needs) =~= seq![s]) by {
        reveal_with_fuel(Seq::filter, 2);
        assert(ci.needs.drop_last() =~= Seq::<usize>::empty());
        assert(ci.needs.last() == s);
    }
    let (c2, nd0) = step_content(content, t0, Seq::empty());
    assert(content.drop_first() =~= Seq::<ItemEntryView>::empty());
    assert(nd0 == extend_unique(Seq::<usize>::empty(), item_missing(t0, ci.needs)));
    assert(nd0 =~= seq![s]) by {
        assert(!Seq::<usize>::empty().contains(s));
        assert(seq![s].drop_first() =~= Seq::<usize>::empty());
    }
    assert(c2 =~= content) by {
        assert(c2 == seq![content[0]] + Seq::<ItemEntryView>::empty());
    }

    let t1 = merge_table(t0, resp(nd0.to_set()), cat);
    let s1 = crate::model::fetch_state(RunState { content: c2, ..init }, nd0, cat, resp);
    let sym1 = RunState { phase: RunPhase::Symbols(nd0), ..s1 };
    assert(run(init, cat, resp) == run(sym1, cat, resp));
    assert(sym1.table == t1);
    assert(sym1.used == extend_unique(Seq::<usize>::empty(), nd0));
    assert(sym1.used =~= seq![s]) by {
        assert(!Seq::<usize>::empty().contains(nd0[0]));
        assert(nd0.drop_first() =~= Seq::<usize>::empty());
    }
    assert forall|k: usize| t1.contains_key(k) implies cat.contains_key(k) && t1[k] == cat[k] by {}
    assert(t1.contains_key(s)) by {
        assert(nd0.to_set().contains(s)) by {
            assert(nd0.contains(s));
        }
    }

    // first symbol pass over [s]: the signature resolves, the body is stuck
    // on t
    let d_s = cat[s]->UnResolved_0;
    let d_s2 = DefView { sig_resolved: true, ..d_s };
    let e_s = UR::<DefView, ResolvedDefView>::UnResolved(d_s2);
    assert(t1[s]->UnResolved_0 == d_s);
    assert(!sig_available(t1, s, t)) by {
        if t1.contains_key(t) {
            assert(t1[t] == cat[t]);
        }
    }
    assert(step_definition(d_s, t1).0 == e_s && step_definition(d_s, t1).1 =~= seq![t]) by {
        assert(d_s.sig_resolved || crate::model::all_available(t1, s, d_s.sig_needs));
        assert(!crate::model::all_available(t1, s, d_s.body_needs)) by {
            assert(d_s.body_needs[0] == t);
        }
        reveal_with_fuel(Seq::filter, 2);
        assert(d_s.body_needs.drop_last() =~= Seq::<usize>::empty());
        assert(d_s.body_needs.last() == t);
    }
    let t2 = t1.insert(s, e_s);
    let (p1_t, p1_need, p1_unres) = step_symbols(nd0, t1, Seq::empty(), Seq::empty());
    assert(nd0.drop_first() =~= Seq::<usize>::empty());
    assert(p1_t == t2);
    assert(p1_unres == Seq::<usize>::empty());
    assert(p1_need =~= seq![t, s]) by {
        assert(extend_unique(Seq::<usize>::empty(), step_definition(d_s, t1).1) =~= seq![t]) by {
            assert(step_definition(d_s, t1).1 =~= seq![t]);
            assert(!Seq::<usize>::empty().contains(t));
            assert(seq![t].drop_first() =~= Seq::<usize>::empty());
        }
        assert(!seq![t].contains(s)) by {
            if seq![t].contains(s) {
                let i = choose|i: int| 0 <= i < 1 && seq![t][i] == s;
                assert(seq![t][0] == t);
            }
        }
        assert(push_unique(seq![t], s) =~= seq![t].push(s));
    }
    assert(p1_need.len() == 2);

    let s2 = RunState {
        table: t2,
        unresolvable: extend_unique(sym1.unresolvable, Seq::empty()),
        iterations: 1,
        ..sym1
    };
    assert(s2.unresolvable == Seq::<usize>::empty());
    let t3 = merge_table(t2, resp(p1_need.to_set()), cat);
    let s3 = crate::model::fetch_state(s2, p1_need, cat, resp);
    let st2 = RunState { phase: RunPhase::Symbols(p1_need), ..s3 };
    assert(run(sym1, cat, resp) == run(st2, cat, resp));
    assert(st2.table == t3);
    assert(st2.used == extend_unique(seq![s], p1_need));
    assert(st2.used =~= seq![s, t]) by {
        assert(p1_need[0] == t && p1_need[1] == s);
        assert(!seq![s].contains(t)) by {
            if seq![s].contains(t) {
                let i = choose|i: int| 0 <= i < 1 && seq![s][i] == t;
                assert(seq![s][0] == s);
            }
        }
        assert(push_unique(seq![s], t) =~= seq![s].push(t));
        assert(seq![s].push(t) =~= seq![s, t]);
        assert(push_unique(seq![s], t) == seq![s, t]);
        assert(seq![s, t].contains(s)) by {
            assert(seq![s, t][0] == s);
        }
        assert(push_unique(seq![s, t], s) == seq![s, t]);
        assert(p1_need.drop_first() =~= seq![s]);
        assert(seq![s].drop_first() =~= Seq::<usize>::empty());
    }

    // after the second fetch the table holds s with its signature resolved,
    // and t as the catalog gave it
    assert(t3.contains_key(s) && t3[s] == e_s);
    assert(t3.contains_key(t)) by {
        assert(p1_need.to_set().contains(t)) by {
            assert(p1_need.contains(t));
        }
        assert(resp(p1_need.to_set()).contains(t));
    }
    assert(t3[t] == cat[t]) by {
        if t2.contains_key(t) {
            assert(t2[t] == t1[t]);
            assert(t1[t] == cat[t]);
        }
    }

    // second symbol pass over [t, s]: t finds s's signature, s then finds t
    let d_t = cat[t]->UnResolved_0;
    let e_t = UR::<DefView, ResolvedDefView>::Resolved(ResolvedDefView { symbol: t, kind: kt });
    assert(step_definition(d_t, t3).0 == e_t && step_definition(d_t, t3).1 == Seq::<
        usize,
    >::empty()) by {
        assert(d_t.sig_resolved || crate::model::all_available(t3, t, d_t.sig_needs));
        assert(crate::model::all_available(t3, t, d_t.body_needs)) by {
            assert forall|i: int| 0 <= i < d_t.body_needs.len() implies sig_available(
                t3,
                t,
                #[trigger] d_t.body_needs[i],
            ) by {
                assert(d_t.body_needs[i] == s);
                assert(t3[s] == e_s);
            }
        }
    }
    let t4 = t3.insert(t, e_t);
    let e_s2 = UR::<DefView, ResolvedDefView>::Resolved(ResolvedDefView { symbol: s, kind: ks });
    assert(t4.contains_key(s) && t4[s] == e_s);
    assert(step_definition(d_s2, t4).0 == e_s2 && step_definition(d_s2, t4).1 == Seq::<
        usize,
    >::empty()) by {
        assert(d_s2.sig_resolved);
        assert(crate::model::all_available(t4, s, d_s2.body_needs)) by {
            assert forall|i: int| 0 <= i < d_s2.body_needs.len() implies sig_available(
                t4,
                s,
                #[trigger] d_s2.body_needs[i],
            ) by {
                assert(d_s2.body_needs[i] == t);
                assert(t4[t] == e_t);
            }
        }
    }
    let t5 = t4.insert(s, e_s2);
    let (p2_t, p2_need, p2_unres) = step_symbols(p1_need, t3, Seq::empty(), Seq::empty());
    assert(p1_need.drop_first() =~= seq![s]);
    assert(seq![s].drop_first() =~= Seq::<usize>::empty());
    assert(p2_t == t5) by {
        assert(p1_need[0] == t);
        assert(extend_unique(Seq::<usize>::empty(), Seq::<usize>::empty()) == Seq::<
            usize,
        >::empty());
        assert(seq![s][0] == s);
        assert(t4[s]->UnResolved_0 == d_s2);
    }
    assert(p2_need == Seq::<usize>::empty());
    assert(p2_unres == Seq::<usize>::empty());

    let s4 = RunState {
        table: t5,
        unresolvable: extend_unique(st2.unresolvable, Seq::empty()),
        iterations: 2,
        phase: RunPhase::Document,
        ..st2
    };
    assert(run(st2, cat, resp) == run(s4, cat, resp));
    assert(s4.unresolvable == Seq::<usize>::empty());

    // final document pass: the item's reference is resolved
    assert(all_item_refs_ready(t5, ci.needs)) by {
        assert forall|i: int| 0 <= i < ci.needs.len() implies item_ref_ready(
            t5,
            #[trigger] ci.needs[i],
        ) by {
            assert(ci.needs[i] == s);
            assert(t5[s] == e_s2);
        }
    }
    let (c3, nd3) = step_content(c2, t5, Seq::empty());
    assert(c2.drop_first() =~= Seq::<ItemEntryView>::empty());
    assert(c2[0] == content[0]);
    assert(nd3 == Seq::<usize>::empty());
    let fin = RunState { content: c3, phase: RunPhase::Finished, ..s4 };
    assert(run(s4, cat, resp) == fin);
    assert(run(init, cat, resp) == fin);
    assert(fin.unresolvable.len() == 0);
    assert(fin.iterations == 2);

    // both definitions appear in the pruned bundle, in request order
    assert(fin.used =~= seq![s, t]);
    assert(fin.table == t5);
    assert(t5.contains_key(s) && t5[s] is Resolved);
    assert(t5.contains_key(t) && t5[t] is Resolved);
    assert(seq![s, t].drop_first() =~= seq![t]);
    assert(seq![t].drop_first() =~= Seq::<usize>::empty());
    assert(used_definitions(seq![s, t], t5) == seq![(s, t5[s]->Resolved_0)] + (seq![
        (t, t5[t]->Resolved_0),
    ] + Seq::<(usize, ResolvedDefView)>::empty()));
    assert(used_definitions(fin.used, fin.table).len() == 2);
    assert(used_definitions(fin.used, fin.table)[0].0 == s);
    assert(used_definitions(fin.used, fin.table)[1].0 == t);
}

/// An item a content pass leaves unresolved is exactly the item it started
/// from.
proof fn lemma_unresolved_unchanged(
    content: Seq<ItemEntryView>,
    t: Map<usize, EntryView>,
    acc: Seq<usize>,
    i: int,
)
    requires
        0 <= i < content.len(),
    ensures
        step_content(content, t, acc).0[i] is Resolved || step_content(content, t, acc).0[i]
            == content[i],
    decreases content.len(),
{
    lemma_step_content_shape(content, t, acc);
    let (item2, acc2) = match content[0] {
        UR::Resolved(r) => (UR::Resolved(r), acc),
        UR::UnResolved(ci) => {
            if all_item_refs_ready(t, ci.needs) {
                (
                    UR::Resolved(ResolvedItemView { item: ci.item, refs: ci.needs }),
                    acc,
                )
            } else {
                (UR::UnResolved(ci), extend_unique(acc, item_missing(t, ci.needs)))
            }
        },
    };
    if i == 0 {
        assert(step_content(content, t, acc).0[0] == item2);
    } else {
        lemma_unresolved_unchanged(content.drop_first(), t, acc2, i - 1);
        let rest2 = step_content(content.drop_first(), t, acc2).0;
        assert(step_content(content, t, acc).0[i] == rest2[i - 1]);
        assert(content.drop_first()[i - 1] == content[i]);
    }
}

} // verus!
