use vstd::prelude::*;

use crate::arena::Arena;
use crate::defs::{
    copy_syms, extend_unique, extend_unique_vec, push_unique_vec, sym_of, EntryView,
    ItemEntryView, ResolvedContentItem, ResolvedDefView, ResolvedDefinition,
    UnresolvedDefinition, URCI, URD,
};
use crate::errors::SectionError;
use crate::model::{
    all_available, all_item_refs_ready, fetch_state, item_missing, item_ref_ready, merge_table,
    missing_refs, resolved_items, run, sig_available, step_content, step_definition,
    step_symbols, used_definitions, RunPhase, RunState, ITERATION_THRESHOLD,
};
use crate::store::{returned_syms, SymbolStore};
use crate::table::DefinitionTable;
use crate::unresolved::Document;
use crate::ur::UR;

verus! {

/// The view of a content sequence.
pub open spec fn content_view(s: Seq<URCI>) -> Seq<ItemEntryView> {
    s.map_values(|c: URCI| c@)
}

/// The per-round outcome of attempting definitions: what must be requested
/// next, and what turned out not to exist at all.
pub struct ResolveSymbolsResult {
    pub need_more_symbols: Vec<usize>,
    pub unresolvable: Vec<usize>,
}

/// The resolved bundle a successful compile produces: the resolved content in
/// its original order, and the definitions pruned to the symbols actually
/// requested during the compile.
#[derive(Debug)]
pub struct CompiledDocument {
    pub content: Vec<ResolvedContentItem>,
    pub definitions: Vec<(usize, ResolvedDefinition)>,
}

/// Everything collected when a compile fails: symbols no lookup could find,
/// whether the shared iteration counter was exhausted, and the document's own
/// errors.  Diagnostics are returned together, never alongside partial output.
#[derive(Debug)]
pub struct CompileError {
    pub unresolvable: Vec<usize>,
    pub non_convergence: bool,
    pub document_errors: Vec<SectionError>,
}

fn ref_available<'a>(table: &DefinitionTable, own: usize, s: usize) -> (b: bool)
    requires
        table.wf(),
    ensures
        b == sig_available(table@, own, s),
{
    if s == own {
        return true;
    }
    match table.get(s) {
        None => false,
        Some(UR::Resolved(_)) => true,
        Some(UR::UnResolved(u)) => u.sig_resolved,
    }
}

fn all_refs_available(table: &DefinitionTable, own: usize, needs: &Vec<usize>) -> (b: bool)
    requires
        table.wf(),
    ensures
        b == all_available(table@, own, needs@),
{
    let mut i: usize = 0;
    while i < needs.len()
        invariant
            table.wf(),
            i <= needs@.len(),
            forall|j: int| 0 <= j < i ==> sig_available(table@, own, #[trigger] needs@[j]),
        decreases needs@.len() - i,
    {
        if !ref_available(table, own, needs[i]) {
            return false;
        }
        i += 1;
    }
    true
}

fn missing_refs_exec(table: &DefinitionTable, own: usize, needs: &Vec<usize>) -> (v: Vec<usize>)
    requires
        table.wf(),
    ensures
        v@ == missing_refs(table@, own, needs@),
{
    let mut v: Vec<usize> = Vec::new();
    let mut i: usize = 0;
    while i < needs.len()
        invariant
            table.wf(),
            i <= needs@.len(),
            v@ == missing_refs(table@, own, needs@.subrange(0, i as int)),
        decreases needs@.len() - i,
    {
        proof {
            reveal(Seq::filter);
            assert(needs@.subrange(0, i + 1 as int).drop_last() =~= needs@.subrange(
                0,
                i as int,
            ));
            assert(needs@.subrange(0, i + 1 as int).last() == needs@[i as int]);
        }
        if !ref_available(table, own, needs[i]) {
            v.push(needs[i]);
        }
        i += 1;
    }
    proof {
        assert(needs@.subrange(0, needs@.len() as int) =~= needs@);
    }
    v
}

/// One local resolve step of a definition against the current table
/// snapshot.  The step never recursively resolves another symbol.
fn resolve_definition(d: &UnresolvedDefinition, table: &DefinitionTable) -> (r: (URD, Vec<usize>))
    requires
        table.wf(),
    ensures
        r.0@ == step_definition(d@, table@).0,
        r.1@ == step_definition(d@, table@).1,
{
    let sig_ok = d.sig_resolved || all_refs_available(table, d.symbol, &d.sig_needs);
    if !sig_ok {
        (UR::UnResolved(d.clone()), missing_refs_exec(table, d.symbol, &d.sig_needs))
    } else if all_refs_available(table, d.symbol, &d.body_needs) {
        let r = (
            UR::Resolved(ResolvedDefinition { symbol: d.symbol, kind: d.kind }),
            Vec::<usize>::new(),
        );
        proof {
            assert(r.1@ =~= Seq::<usize>::empty());
        }
        r
    } else {
        let mut d2 = d.clone();
        d2.sig_resolved = true;
        (UR::UnResolved(d2), missing_refs_exec(table, d.symbol, &d.body_needs))
    }
}

fn item_refs_ready(table: &DefinitionTable, needs: &Vec<usize>) -> (b: bool)
    requires
        table.wf(),
    ensures
        b == all_item_refs_ready(table@, needs@),
{
    let mut i: usize = 0;
    while i < needs.len()
        invariant
            table.wf(),
            i <= needs@.len(),
            forall|j: int| 0 <= j < i ==> item_ref_ready(table@, #[trigger] needs@[j]),
        decreases needs@.len() - i,
    {
        let ready = match table.get(needs[i]) {
            Some(UR::Resolved(_)) => true,
            _ => false,
        };
        if !ready {
            return false;
        }
        i += 1;
    }
    true
}

fn item_missing_exec(table: &DefinitionTable, needs: &Vec<usize>) -> (v: Vec<usize>)
    requires
        table.wf(),
    ensures
        v@ == item_missing(table@, needs@),
{
    let mut v: Vec<usize> = Vec::new();
    let mut i: usize = 0;
    while i < needs.len()
        invariant
            table.wf(),
            i <= needs@.len(),
            v@ == item_missing(table@, needs@.subrange(0, i as int)),
        decreases needs@.len() - i,
    {
        proof {
            reveal(Seq::filter);
            assert(needs@.subrange(0, i + 1 as int).drop_last() =~= needs@.subrange(
                0,
                i as int,
            ));
            assert(needs@.subrange(0, i + 1 as int).last() == needs@[i as int]);
        }
        let ready = match table.get(needs[i]) {
            Some(UR::Resolved(_)) => true,
            _ => false,
        };
        if !ready {
            v.push(needs[i]);
        }
        i += 1;
    }
    proof {
        assert(needs@.subrange(0, needs@.len() as int) =~= needs@);
    }
    v
}

/// The resolution engine.  Single-use: constructed over a parsed document,
/// run to completion or failure, then discarded.  It alone owns its arena and
/// its definitions table for the compile's duration.
pub struct Compiler<S: SymbolStore> {
    symbols: S,
    definitions_used: Vec<usize>,
    arena: Arena,
    definitions: DefinitionTable,
    content: Vec<URCI>,
    document: Document,
    auto_imports: usize,
}

impl<S: SymbolStore> Compiler<S> {
    pub closed spec fn inv(&self) -> bool {
        self.definitions.wf()
    }

    pub closed spec fn table_view(&self) -> Map<usize, EntryView> {
        self.definitions@
    }

    pub closed spec fn used_view(&self) -> Seq<usize> {
        self.definitions_used@
    }

    pub closed spec fn content_v(&self) -> Seq<ItemEntryView> {
        content_view(self.content@)
    }

    pub closed spec fn doc_errors(&self) -> Seq<SectionError> {
        self.document.errors@
    }

    pub closed spec fn store(&self) -> S {
        self.symbols
    }

    pub closed spec fn doc(&self) -> Document {
        self.document
    }

    /// The engine takes the parsed document's content for itself; everything
    /// else starts empty.
    pub fn new(symbols: S, document: Document, auto_imports: usize, arena: Arena) -> (c: Compiler<
        S,
    >)
        ensures
            c.inv(),
            c.table_view() == Map::<usize, EntryView>::empty(),
            c.used_view() == Seq::<usize>::empty(),
            c.content_v() == content_view(document.content@),
            c.doc_errors() == document.errors@,
            c.store() == symbols,
    {
        let mut document = document;
        let mut content: Vec<URCI> = Vec::new();
        core::mem::swap(&mut content, &mut document.content);
        Compiler {
            symbols,
            definitions_used: Vec::new(),
            arena,
            definitions: DefinitionTable::new(),
            content,
            document,
            auto_imports,
        }
    }

    /// Request symbols from the store: every requested name is recorded in
    /// the permanent used set, and returned definitions are merged into the
    /// table under their own symbols, never replacing an existing entry.
    fn fetch_unresolved_symbols(&mut self, requested: &Vec<usize>)
        requires
            old(self).inv(),
        ensures
            final(self).inv(),
            final(self).used_view() == extend_unique(old(self).used_view(), requested@),
            final(self).table_view() == merge_table(
                old(self).table_view(),
                old(self).store().response(requested@.to_set()),
                old(self).store().catalog(),
            ),
            final(self).content_v() == old(self).content_v(),
            final(self).doc_errors() == old(self).doc_errors(),
            final(self).document == old(self).document,
            final(self).store().catalog() == old(self).store().catalog(),
            forall|q: Set<usize>| #[trigger] final(self).store().response(q) == old(
                self,
            ).store().response(q),
    {
        let ghost cat = self.symbols.catalog();
        let ghost t0 = self.definitions@;
        extend_unique_vec(&mut self.definitions_used, requested);
        let defs = self.symbols.lookup(requested, self.auto_imports);
        let n = defs.len();
        let mut i: usize = 0;
        proof {
            assert(defs@.subrange(0, 0) =~= Seq::<URD>::empty());
            assert(Seq::<URD>::empty().map_values(|d: URD| sym_of(d@)) =~= Seq::<usize>::empty());
            assert(returned_syms(Seq::<URD>::empty()) =~= Set::<usize>::empty());
            assert(merge_table(t0, returned_syms(defs@.subrange(0, 0)), cat) =~= t0);
        }
        while i < n
            invariant
                self.inv(),
                n == defs@.len(),
                i <= n,
                forall|p: int|
                    0 <= p < defs@.len() ==> {
                        let e = (#[trigger] defs@[p])@;
                        cat.contains_key(sym_of(e)) && cat[sym_of(e)] == e
                    },
                self.definitions@ == merge_table(t0, returned_syms(defs@.subrange(0, i as int)), cat),
                self.definitions_used@ == extend_unique(old(self).definitions_used@, requested@),
                self.content@ == old(self).content@,
                self.document == old(self).document,
                self.symbols.catalog() == old(self).symbols.catalog(),
                forall|q: Set<usize>| #[trigger] self.symbols.response(q) == old(
                    self,
                ).symbols.response(q),
                cat == old(self).symbols.catalog(),
                self.auto_imports == old(self).auto_imports,
            decreases n - i,
        {
            let ghost before = self.definitions@;
            let ghost prefix = defs@.subrange(0, i as int);
            let sym = match &defs[i] {
                UR::UnResolved(u) => u.symbol,
                UR::Resolved(rd) => rd.symbol,
            };
            let absent = match self.definitions.get(sym) {
                None => true,
                Some(_) => false,
            };
            if absent {
                let d = match &defs[i] {
                    UR::UnResolved(u) => UR::UnResolved(u.clone()),
                    UR::Resolved(rd) => UR::Resolved(
                        ResolvedDefinition { symbol: rd.symbol, kind: rd.kind },
                    ),
                };
                self.definitions.put(sym, d);
            }
            proof {
                let prefix2 = defs@.subrange(0, i + 1 as int);
                assert(prefix2 =~= prefix.push(defs@[i as int]));
                lemma_returned_syms_push(prefix, defs@[i as int]);
                assert(returned_syms(prefix2) =~= returned_syms(prefix).insert(
                    sym_of(defs@[i as int]@),
                ));
                assert(self.definitions@ =~= merge_table(t0, returned_syms(prefix2), cat));
            }
            i += 1;
        }
        proof {
            assert(defs@.subrange(0, defs@.len() as int) =~= defs@);
        }
    }

    /// One pass over the requested symbols against the current table
    /// snapshot.  Call in a loop until the returned needed-set is empty.
    pub fn resolve_symbols(&mut self, requested: &Vec<usize>) -> (r: ResolveSymbolsResult)
        requires
            old(self).inv(),
        ensures
            final(self).inv(),
            final(self).table_view() == step_symbols(
                requested@,
                old(self).table_view(),
                Seq::empty(),
                Seq::empty(),
            ).0,
            r.need_more_symbols@ == step_symbols(
                requested@,
                old(self).table_view(),
                Seq::empty(),
                Seq::empty(),
            ).1,
            r.unresolvable@ == step_symbols(
                requested@,
                old(self).table_view(),
                Seq::empty(),
                Seq::empty(),
            ).2,
            final(self).used_view() == old(self).used_view(),
            final(self).content_v() == old(self).content_v(),
            final(self).doc_errors() == old(self).doc_errors(),
            final(self).doc() == old(self).doc(),
            final(self).store() == old(self).store(),
    {
        let ghost t0 = self.definitions@;
        let mut need_more: Vec<usize> = Vec::new();
        let mut unresolvable: Vec<usize> = Vec::new();
        let n = requested.len();
        let mut i: usize = 0;
        proof {
            assert(need_more@ =~= Seq::<usize>::empty());
            assert(unresolvable@ =~= Seq::<usize>::empty());
            assert(requested@.subrange(0, n as int) =~= requested@);
        }
        while i < n
            invariant
                self.inv(),
                n == requested@.len(),
                i <= n,
                step_symbols(requested@, t0, Seq::empty(), Seq::empty()) == step_symbols(
                    requested@.subrange(i as int, n as int),
                    self.definitions@,
                    need_more@,
                    unresolvable@,
                ),
                self.definitions_used@ == old(self).definitions_used@,
                self.content@ == old(self).content@,
                self.document == old(self).document,
                self.symbols == old(self).symbols,
                self.auto_imports == old(self).auto_imports,
            decreases n - i,
        {
            let ghost rem = requested@.subrange(i as int, n as int);
            proof {
                assert(rem[0] == requested@[i as int]);
                assert(rem.drop_first() =~= requested@.subrange(i + 1 as int, n as int));
            }
            let s = requested[i];
            let mut entry_kind: usize = 0;
            let mut unres_def: Option<UnresolvedDefinition> = None;
            match self.definitions.get(s) {
                None => {
                    entry_kind = 0;
                },
                Some(UR::Resolved(_)) => {
                    entry_kind = 1;
                },
                Some(UR::UnResolved(u)) => {
                    entry_kind = 2;
                    unres_def = Some(u.clone());
                },
            }
            if entry_kind == 0 {
                push_unique_vec(&mut unresolvable, s);
            } else if entry_kind == 2 {
                let u = unres_def.unwrap();
                let (e, stuck) = resolve_definition(&u, &self.definitions);
                let e_is_unres = match &e {
                    UR::UnResolved(_) => true,
                    UR::Resolved(_) => false,
                };
                self.definitions.put(s, e);
                extend_unique_vec(&mut need_more, &stuck);
                if e_is_unres {
                    push_unique_vec(&mut need_more, s);
                }
            }
            i += 1;
        }
        proof {
            assert(requested@.subrange(n as int, n as int) =~= Seq::<usize>::empty());
        }
        ResolveSymbolsResult { need_more_symbols: need_more, unresolvable }
    }

    /// One pass over the content: every item still unresolved attempts a
    /// local resolution step; returns the union of all names still needed.
    fn resolve_document(&mut self) -> (needed: Vec<usize>)
        requires
            old(self).inv(),
        ensures
            final(self).inv(),
            final(self).content_v() == step_content(
                old(self).content_v(),
                old(self).table_view(),
                Seq::empty(),
            ).0,
            needed@ == step_content(
                old(self).content_v(),
                old(self).table_view(),
                Seq::empty(),
            ).1,
            final(self).table_view() == old(self).table_view(),
            final(self).used_view() == old(self).used_view(),
            final(self).doc_errors() == old(self).doc_errors(),
            final(self).document == old(self).document,
            final(self).store() == old(self).store(),
    {
        let ghost c0 = content_view(old(self).content@);
        let ghost t = self.definitions@;
        let mut needed: Vec<usize> = Vec::new();
        let n = self.content.len();
        let mut i: usize = 0;
        proof {
            assert(needed@ =~= Seq::<usize>::empty());
            assert(c0.subrange(0, n as int) =~= c0);
            assert(c0.subrange(0, 0) =~= Seq::<ItemEntryView>::empty());
        }
        while i < n
            invariant
                self.inv(),
                n == self.content@.len(),
                c0.len() == n,
                i <= n,
                self.definitions@ == t,
                forall|j: int|
                    i <= j < n ==> (#[trigger] self.content@[j])@ == c0[j],
                ({
                    let (whole_c, whole_n) = step_content(c0, t, Seq::empty());
                    let (rest_c, rest_n) = step_content(
                        c0.subrange(i as int, n as int),
                        t,
                        needed@,
                    );
                    whole_c == content_view(self.content@.subrange(0, i as int)) + rest_c
                        && whole_n == rest_n
                }),
                self.definitions_used@ == old(self).definitions_used@,
                self.document == old(self).document,
                self.symbols == old(self).symbols,
                self.auto_imports == old(self).auto_imports,
            decreases n - i,
        {
            let ghost rem = c0.subrange(i as int, n as int);
            proof {
                assert(rem[0] == c0[i as int]);
                assert(rem.drop_first() =~= c0.subrange(i + 1 as int, n as int));
            }
            let ghost needed0 = needed@;
            let is_unres = match &self.content[i] {
                UR::UnResolved(_) => true,
                UR::Resolved(_) => false,
            };
            if is_unres {
                let (item, ready, missing) = match &self.content[i] {
                    UR::UnResolved(ci) => {
                        let ready = item_refs_ready(&self.definitions, &ci.needs);
                        let missing = if ready {
                            Vec::new()
                        } else {
                            item_missing_exec(&self.definitions, &ci.needs)
                        };
                        (ci.item, ready, missing)
                    },
                    UR::Resolved(_) => (0, false, Vec::new()),
                };
                if ready {
                    let refs = match &self.content[i] {
                        UR::UnResolved(ci) => copy_syms(&ci.needs),
                        UR::Resolved(_) => Vec::new(),
                    };
                    self.content[i] = UR::Resolved(ResolvedContentItem { item, refs });
                } else {
                    extend_unique_vec(&mut needed, &missing);
                }
            }
            proof {
                assert(content_view(self.content@.subrange(0, i + 1 as int)) =~= content_view(
                    self.content@.subrange(0, i as int),
                ).push(self.content@[i as int]@));
                assert forall|j: int| i + 1 <= j < n implies (#[trigger] self.content@[j])@
                    == c0[j] by {}
                let (whole_c, whole_n) = step_content(c0, t, Seq::empty());
                let (rest_c, rest_n) = step_content(rem, t, needed0);
                let (rest_c2, rest_n2) = step_content(rem.drop_first(), t, needed@);
                assert(rest_c == seq![self.content@[i as int]@] + rest_c2);
                assert(whole_c =~= content_view(self.content@.subrange(0, i + 1 as int))
                    + rest_c2);
            }
            i += 1;
        }
        proof {
            assert(c0.subrange(n as int, n as int) =~= Seq::<ItemEntryView>::empty());
            assert(self.content@.subrange(0, n as int) =~= self.content@);
            let (whole_c, whole_n) = step_content(c0, t, Seq::empty());
            assert(whole_c =~= content_view(self.content@));
        }
        needed
    }
}

/// A store's response choice, as a function of the requested set.
pub open spec fn resp_of<S: SymbolStore>(s: S) -> spec_fn(Set<usize>) -> Set<usize> {
    |q: Set<usize>| s.response(q)
}

/// The model state a compile starts from.
pub open spec fn start_state<S: SymbolStore>(c: Compiler<S>) -> RunState {
    RunState {
        content: c.content_v(),
        table: c.table_view(),
        used: c.used_view(),
        unresolvable: Seq::empty(),
        iterations: 0,
        phase: RunPhase::Document,
    }
}

/// What a compile returns, pinned to the engine model: on success, the
/// resolved content in parse order and the definitions pruned to the used
/// set; on failure, every collected diagnostic together, never alongside a
/// partial output.
pub open spec fn compile_outcome(
    init: RunState,
    errors0: Seq<SectionError>,
    cat: Map<usize, EntryView>,
    resp: spec_fn(Set<usize>) -> Set<usize>,
    r: Result<CompiledDocument, CompileError>,
) -> bool {
    let fin = run(init, cat, resp);
    let ok = fin.phase is Finished && fin.unresolvable.len() == 0 && errors0.len() == 0;
    match r {
        Result::Ok(b) => ok && b.content@.map_values(|c: ResolvedContentItem| c@)
            == resolved_items(fin.content) && b.definitions@.map_values(
            |p: (usize, ResolvedDefinition)| (p.0, p.1@),
        ) == used_definitions(fin.used, fin.table),
        Result::Err(e) => !ok && e.unresolvable@ == fin.unresolvable && e.non_convergence == (
        fin.iterations >= ITERATION_THRESHOLD as nat) && e.document_errors@ == errors0,
    }
}

fn collect_content(content: Vec<URCI>) -> (out: Vec<ResolvedContentItem>)
    requires
        forall|i: int| 0 <= i < content@.len() ==> (#[trigger] content@[i]) is Resolved,
    ensures
        out@.map_values(|c: ResolvedContentItem| c@) == resolved_items(content_view(content@)),
{
    let mut out: Vec<ResolvedContentItem> = Vec::new();
    let n = content.len();
    let mut i: usize = 0;
    while i < n
        invariant
            n == content@.len(),
            i <= n,
            forall|j: int| 0 <= j < n ==> (#[trigger] content@[j]) is Resolved,
            out@.len() == i,
            forall|j: int|
                0 <= j < i ==> (#[trigger] out@[j])@ == content@[j]->Resolved_0@,
        decreases n - i,
    {
        match &content[i] {
            UR::Resolved(rc) => {
                out.push(ResolvedContentItem { item: rc.item, refs: copy_syms(&rc.refs) });
            },
            UR::UnResolved(_) => {
                proof {
                    assert(false);
                }
            },
        }
        i += 1;
    }
    proof {
        assert forall|j: int| 0 <= j < n implies out@.map_values(|c: ResolvedContentItem| c@)[j]
            == resolved_items(content_view(content@))[j] by {
            assert(content@[j] is Resolved);
            assert(content_view(content@)[j] == content@[j]@);
        }
        assert(out@.map_values(|c: ResolvedContentItem| c@) =~= resolved_items(
            content_view(content@),
        ));
    }
    out
}

fn collect_definitions(used: &Vec<usize>, table: &DefinitionTable) -> (out: Vec<
    (usize, ResolvedDefinition),
>)
    requires
        table.wf(),
    ensures
        out@.map_values(|p: (usize, ResolvedDefinition)| (p.0, p.1@)) == used_definitions(
            used@,
            table@,
        ),
{
    let mut out: Vec<(usize, ResolvedDefinition)> = Vec::new();
    let n = used.len();
    let mut i: usize = 0;
    proof {
        assert(used@.subrange(0, n as int) =~= used@);
        assert(out@.map_values(|p: (usize, ResolvedDefinition)| (p.0, p.1@)) =~= Seq::<
            (usize, ResolvedDefView),
        >::empty());
    }
    while i < n
        invariant
            table.wf(),
            n == used@.len(),
            i <= n,
            used_definitions(used@, table@) == out@.map_values(
                |p: (usize, ResolvedDefinition)| (p.0, p.1@),
            ) + used_definitions(used@.subrange(i as int, n as int), table@),
        decreases n - i,
    {
        let ghost rem = used@.subrange(i as int, n as int);
        proof {
            assert(rem[0] == used@[i as int]);
            assert(rem.drop_first() =~= used@.subrange(i + 1 as int, n as int));
        }
        let ghost out0 = out@;
        let s = used[i];
        match table.get(s) {
            Some(UR::Resolved(rd)) => {
                out.push((s, ResolvedDefinition { symbol: rd.symbol, kind: rd.kind }));
                proof {
                    assert(out@.map_values(|p: (usize, ResolvedDefinition)| (p.0, p.1@))
                        =~= out0.map_values(|p: (usize, ResolvedDefinition)| (p.0, p.1@)).push(
                        (s, table@[s]->Resolved_0),
                    ));
                    assert(out0.map_values(|p: (usize, ResolvedDefinition)| (p.0, p.1@)).push(
                        (s, table@[s]->Resolved_0),
                    ) + used_definitions(rem.drop_first(), table@) =~= out0.map_values(
                        |p: (usize, ResolvedDefinition)| (p.0, p.1@),
                    ) + (seq![(s, table@[s]->Resolved_0)] + used_definitions(
                        rem.drop_first(),
                        table@,
                    )));
                }
            },
            _ => {},
        }
        i += 1;
    }
    proof {
        assert(used@.subrange(n as int, n as int) =~= Seq::<usize>::empty());
        assert(out@.map_values(|p: (usize, ResolvedDefinition)| (p.0, p.1@))
            + used_definitions(Seq::<usize>::empty(), table@) =~= out@.map_values(
            |p: (usize, ResolvedDefinition)| (p.0, p.1@),
        ));
    }
    out
}

impl<S: SymbolStore> Compiler<S> {
    /// Run rounds of resolution, fetch and convergence checking to
    /// completion: either a resolved, pruned bundle, or every collected
    /// diagnostic.  Partial success is never returned.
    pub fn compile(self) -> (r: Result<CompiledDocument, CompileError>)
        requires
            self.inv(),
        ensures
            compile_outcome(
                start_state(self),
                self.doc_errors(),
                self.store().catalog(),
                resp_of(self.store()),
                r,
            ),
    {
        let mut this = self;
        let ghost cat = this.symbols.catalog();
        let ghost resp = resp_of(this.symbols);
        let ghost init = start_state(self);
        let ghost errors0 = this.document.errors@;
        let ghost mut cur = init;
        let mut unresolvable: Vec<usize> = Vec::new();
        let mut iterations: usize = 0;
        let mut converged = false;
        proof {
            assert(unresolvable@ =~= Seq::<usize>::empty());
        }
        while !converged && iterations < ITERATION_THRESHOLD
            invariant
                this.inv(),
                this.symbols.catalog() == cat,
                forall|q: Set<usize>| #[trigger] this.symbols.response(q) == resp(q),
                cur.content == this.content_v(),
                cur.table == this.table_view(),
                cur.used == this.used_view(),
                cur.unresolvable == unresolvable@,
                cur.iterations == iterations as nat,
                iterations <= ITERATION_THRESHOLD,
                converged ==> cur.phase is Finished && iterations < ITERATION_THRESHOLD,
                !converged ==> (cur.phase is Document || iterations >= ITERATION_THRESHOLD),
                !converged ==> !(cur.phase is Finished),
                converged ==> forall|i: int|
                    0 <= i < cur.content.len() ==> (#[trigger] cur.content[i]) is Resolved,
                run(init, cat, resp) == run(cur, cat, resp),
                this.document.errors@ == errors0,
            decreases
                    ITERATION_THRESHOLD - iterations + 1,
                    if converged {
                        0int
                    } else {
                        1int
                    },
        {
            let ghost pre = cur;
            let needed = this.resolve_document();
            proof {
                let (c2, nd) = step_content(pre.content, pre.table, Seq::<usize>::empty());
                assert(this.content_v() == c2);
                assert(needed@ == nd);
                if nd.len() == 0 {
                    cur = RunState { content: c2, phase: RunPhase::Finished, ..pre };
                    assert(run(pre, cat, resp) == cur);
                    crate::model::lemma_step_content_done(pre.content, pre.table);
                }
            }
            if needed.len() == 0 {
                converged = true;
                proof {
                    assert(cur.phase is Finished);
                    assert(run(cur, cat, resp) == cur);
                    crate::model::lemma_step_content_shape(
                        pre.content,
                        pre.table,
                        Seq::<usize>::empty(),
                    );
                    assert forall|i: int| 0 <= i < cur.content.len() implies (
                    #[trigger] cur.content[i]) is Resolved by {
                        assert(step_content(
                            pre.content,
                            pre.table,
                            Seq::<usize>::empty(),
                        ).0[i] is Resolved);
                    }
                }
            } else {
                this.fetch_unresolved_symbols(&needed);
                proof {
                    let fetched = fetch_state(
                        RunState {
                            content: step_content(
                                pre.content,
                                pre.table,
                                Seq::<usize>::empty(),
                            ).0,
                            ..pre
                        },
                        needed@,
                        cat,
                        resp,
                    );
                    cur = RunState { phase: RunPhase::Symbols(needed@), ..fetched };
                    assert(run(pre, cat, resp) == run(cur, cat, resp));
                    assert(cur.table == this.table_view());
                    assert(cur.used == this.used_view());
                }
                let mut need_more = needed;
                let mut inner_done = false;
                let ghost iter0 = iterations;
                while !inner_done && iterations < ITERATION_THRESHOLD
                    invariant
                        this.inv(),
                        iter0 <= iterations,
                        inner_done ==> iterations > iter0,
                        this.symbols.catalog() == cat,
                        forall|q: Set<usize>| #[trigger] this.symbols.response(q) == resp(q),
                        cur.content == this.content_v(),
                        cur.table == this.table_view(),
                        cur.used == this.used_view(),
                        cur.unresolvable == unresolvable@,
                        cur.iterations == iterations as nat,
                        iterations <= ITERATION_THRESHOLD,
                        inner_done ==> cur.phase is Document,
                        !inner_done ==> cur.phase == RunPhase::Symbols(need_more@),
                        !inner_done ==> need_more@.len() > 0,
                        run(init, cat, resp) == run(cur, cat, resp),
                        this.document.errors@ == errors0,
                    decreases ITERATION_THRESHOLD - iterations,
                {
                    let ghost spre = cur;
                    let ghost old_req = need_more@;
                    let rr = this.resolve_symbols(&need_more);
                    extend_unique_vec(&mut unresolvable, &rr.unresolvable);
                    iterations += 1;
                    proof {
                        let (t2, need2, unres2) = step_symbols(
                            need_more@,
                            spre.table,
                            Seq::<usize>::empty(),
                            Seq::<usize>::empty(),
                        );
                        assert(this.table_view() == t2);
                        assert(rr.need_more_symbols@ == need2);
                        assert(unresolvable@ == extend_unique(spre.unresolvable, unres2));
                    }
                    if rr.need_more_symbols.len() == 0 {
                        proof {
                            let (t2, need2, unres2) = step_symbols(
                                need_more@,
                                spre.table,
                                Seq::<usize>::empty(),
                                Seq::<usize>::empty(),
                            );
                            cur = RunState {
                                table: t2,
                                unresolvable: extend_unique(spre.unresolvable, unres2),
                                iterations: spre.iterations + 1,
                                phase: RunPhase::Document,
                                ..spre
                            };
                            assert(run(spre, cat, resp) == run(cur, cat, resp));
                        }
                        inner_done = true;
                    } else {
                        need_more = rr.need_more_symbols;
                        this.fetch_unresolved_symbols(&need_more);
                        proof {
                            let (t2, need2, unres2) = step_symbols(
                                old_req,
                                spre.table,
                                Seq::<usize>::empty(),
                                Seq::<usize>::empty(),
                            );
                            let s2 = RunState {
                                table: t2,
                                unresolvable: extend_unique(spre.unresolvable, unres2),
                                iterations: spre.iterations + 1,
                                ..spre
                            };
                            let s3 = fetch_state(s2, need2, cat, resp);
                            cur = RunState { phase: RunPhase::Symbols(need2), ..s3 };
                            assert(run(spre, cat, resp) == run(cur, cat, resp));
                            assert(cur.table == this.table_view());
                            assert(cur.used == this.used_view());
                        }
                    }
                }
            }
        }
        proof {
            assert(run(cur, cat, resp) == cur);
            assert(run(init, cat, resp) == cur);
        }
        if !unresolvable.is_empty() || !this.document.errors.is_empty() || iterations
            >= ITERATION_THRESHOLD {
            Err(
                CompileError {
                    unresolvable,
                    non_convergence: iterations >= ITERATION_THRESHOLD,
                    document_errors: this.document.errors,
                },
            )
        } else {
            proof {
                assert forall|i: int| 0 <= i < this.content@.len() implies (
                #[trigger] this.content@[i]) is Resolved by {
                    assert(this.content@[i]@ == cur.content[i]);
                }
            }
            let content = collect_content(this.content);
            let definitions = collect_definitions(&this.definitions_used, &this.definitions);
            Ok(CompiledDocument { content, definitions })
        }
    }
}

/// This is the main entry: it should be called with a parsed document, and on
/// success it returns the resolved bundle.  The caller decides how to treat
/// warnings; partial output is never returned with diagnostics.
pub fn compile<S: SymbolStore>(
    symbols: S,
    document: Document,
    auto_imports: usize,
    arena: Arena,
) -> (r: Result<CompiledDocument, CompileError>)
    ensures
        compile_outcome(
            RunState {
                content: content_view(document.content@),
                table: Map::empty(),
                used: Seq::empty(),
                unresolvable: Seq::empty(),
                iterations: 0,
                phase: RunPhase::Document,
            },
            document.errors@,
            symbols.catalog(),
            resp_of(symbols),
            r,
        ),
{
    let ghost doc0 = document;
    let ghost sym0 = symbols;
    let c = Compiler::new(symbols, document, auto_imports, arena);
    proof {
        assert(start_state(c) == RunState {
            content: content_view(doc0.content@),
            table: Map::<usize, EntryView>::empty(),
            used: Seq::<usize>::empty(),
            unresolvable: Seq::<usize>::empty(),
            iterations: 0nat,
            phase: RunPhase::Document,
        });
    }
    c.compile()
}

proof fn lemma_returned_syms_push(s: Seq<URD>, d: URD)
    ensures
        returned_syms(s.push(d)) == returned_syms(s).insert(sym_of(d@)),
{
    let f = |x: URD| sym_of(x@);
    assert(s.push(d).map_values(f) =~= s.map_values(f).push(sym_of(d@)));
    assert forall|k: usize| true implies #[trigger] s.map_values(f).push(
        sym_of(d@),
    ).to_set().contains(k) == s.map_values(f).to_set().insert(sym_of(d@)).contains(k) by {
        crate::defs::lemma_push_contains(s.map_values(f), sym_of(d@), k);
    }
    assert(s.push(d).map_values(f).to_set() =~= s.map_values(f).to_set().insert(sym_of(d@)));
}

} // verus!
