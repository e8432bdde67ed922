use fastn_resolver::defs::{ContentItem, DefinitionKind, UnresolvedDefinition};
use fastn_resolver::engine::compile;
use fastn_resolver::ur::UR;
use fastn_resolver::{Arena, Document, MemoryStore};

fn unresolved_def(symbol: usize, sig: Vec<usize>, body: Vec<usize>) -> fastn_resolver::URD {
    UR::UnResolved(UnresolvedDefinition {
        symbol,
        kind: DefinitionKind::Function,
        sig_needs: sig,
        body_needs: body,
        sig_resolved: false,
    })
}

fn resolved_def(symbol: usize) -> fastn_resolver::URD {
    UR::Resolved(fastn_resolver::ResolvedDefinition { symbol, kind: DefinitionKind::Function })
}

fn doc_needing(items: Vec<(usize, Vec<usize>)>) -> Document {
    let mut d = Document::new();
    for (item, needs) in items {
        d.content.push(UR::UnResolved(ContentItem { item, needs }));
    }
    d
}

/// A document whose every referenced symbol the store already holds resolved
/// completes successfully with everything bound.
#[test]
fn idempotence_one_round() {
    let mut store = MemoryStore::new();
    store.insert_definition(resolved_def(1));
    store.insert_definition(resolved_def(2));
    let doc = doc_needing(vec![(10, vec![1, 2])]);
    let bundle = compile(store, doc, 0, Arena::new()).expect("must converge");
    assert_eq!(bundle.content.len(), 1);
    assert_eq!(bundle.content[0].item, 10);
    assert_eq!(bundle.content[0].refs, vec![1, 2]);
    assert_eq!(bundle.definitions.len(), 2);
}

/// Mutually independent external symbols, none referencing another, converge.
#[test]
fn convergence_independent_symbols() {
    let mut store = MemoryStore::new();
    store.insert_definition(unresolved_def(1, vec![], vec![]));
    store.insert_definition(unresolved_def(2, vec![], vec![]));
    store.insert_definition(unresolved_def(3, vec![], vec![]));
    let doc = doc_needing(vec![(10, vec![1, 2, 3])]);
    let bundle = compile(store, doc, 0, Arena::new()).expect("must converge");
    assert_eq!(bundle.content.len(), 1);
    assert_eq!(bundle.definitions.len(), 3);
}

/// Two definitions referencing each other only in their bodies resolve, and
/// both appear in the final bundle.
#[test]
fn cycle_safety_body_references() {
    let mut store = MemoryStore::new();
    store.insert_definition(unresolved_def(1, vec![], vec![2]));
    store.insert_definition(unresolved_def(2, vec![], vec![1]));
    let doc = doc_needing(vec![(10, vec![1])]);
    let bundle = compile(store, doc, 0, Arena::new()).expect("body cycles must resolve");
    let syms: Vec<usize> = bundle.definitions.iter().map(|p| p.0).collect();
    assert_eq!(syms, vec![1, 2]);
}

/// A signature cycle never makes progress: the compile fails with the shared
/// counter exhausted, with nothing unresolvable.
#[test]
fn non_convergence_signature_cycle() {
    let mut store = MemoryStore::new();
    store.insert_definition(unresolved_def(1, vec![2], vec![]));
    store.insert_definition(unresolved_def(2, vec![1], vec![]));
    let doc = doc_needing(vec![(10, vec![1])]);
    let err = compile(store, doc, 0, Arena::new()).expect_err("signature cycles must not converge");
    assert!(err.non_convergence);
    assert!(err.unresolvable.is_empty());
    assert!(err.document_errors.is_empty());
}

/// A requested name with no store entry is reported unresolvable, and no
/// bundle is produced.
#[test]
fn unresolvable_propagation() {
    let store = MemoryStore::new();
    let doc = doc_needing(vec![(10, vec![7])]);
    let err = compile(store, doc, 0, Arena::new()).expect_err("missing symbols must fail");
    assert!(err.unresolvable.contains(&7));
}

/// Extra symbols a store volunteers never leak into the final bundle when
/// nothing requested them.
#[test]
fn pruning_of_unrequested_extras() {
    let mut store = MemoryStore::new();
    store.insert_definition(unresolved_def(1, vec![], vec![]));
    store.insert_definition(unresolved_def(9, vec![], vec![]));
    store.add_extra(9);
    let doc = doc_needing(vec![(10, vec![1])]);
    let bundle = compile(store, doc, 0, Arena::new()).expect("must converge");
    let syms: Vec<usize> = bundle.definitions.iter().map(|p| p.0).collect();
    assert_eq!(syms, vec![1]);
    assert!(!syms.contains(&9));
}

/// Content order is fixed at parse time: the resolved content comes out in
/// exactly the order the items went in, whatever order resolution touched
/// them in.
#[test]
fn determinism_content_order() {
    let mut store = MemoryStore::new();
    store.insert_definition(unresolved_def(1, vec![], vec![]));
    store.insert_definition(unresolved_def(2, vec![], vec![]));
    let doc = doc_needing(vec![(30, vec![2]), (10, vec![1]), (20, vec![1, 2])]);
    let bundle = compile(store, doc, 0, Arena::new()).expect("must converge");
    let items: Vec<usize> = bundle.content.iter().map(|c| c.item).collect();
    assert_eq!(items, vec![30, 10, 20]);

    // the identical input against an identical store gives the identical bundle
    let mut store2 = MemoryStore::new();
    store2.insert_definition(unresolved_def(1, vec![], vec![]));
    store2.insert_definition(unresolved_def(2, vec![], vec![]));
    let doc2 = doc_needing(vec![(30, vec![2]), (10, vec![1]), (20, vec![1, 2])]);
    let bundle2 = compile(store2, doc2, 0, Arena::new()).expect("must converge");
    let items2: Vec<usize> = bundle2.content.iter().map(|c| c.item).collect();
    assert_eq!(items, items2);
}

/// A document with no pending references at all completes without ever
/// asking the store for anything.
#[test]
fn empty_document_compiles() {
    let store = MemoryStore::new();
    let doc = Document::new();
    let bundle = compile(store, doc, 0, Arena::new()).expect("empty must converge");
    assert!(bundle.content.is_empty());
    assert!(bundle.definitions.is_empty());
}

/// One resolution pass over symbols with no table entry reports each of them
/// unresolvable and asks for nothing further.
#[test]
fn resolve_symbols_reports_missing_entries() {
    let store = MemoryStore::new();
    let doc = Document::new();
    let mut compiler = fastn_resolver::Compiler::new(store, doc, 0, Arena::new());
    let outcome = compiler.resolve_symbols(&vec![4, 5]);
    assert!(outcome.need_more_symbols.is_empty());
    assert_eq!(outcome.unresolvable, vec![4, 5]);
}

/// A chain of signature dependencies resolves layer by layer across rounds.
#[test]
fn chained_signatures_resolve() {
    let mut store = MemoryStore::new();
    store.insert_definition(unresolved_def(1, vec![2], vec![]));
    store.insert_definition(unresolved_def(2, vec![3], vec![]));
    store.insert_definition(unresolved_def(3, vec![], vec![]));
    let doc = doc_needing(vec![(10, vec![1])]);
    let bundle = compile(store, doc, 0, Arena::new()).expect("chains must converge");
    let syms: Vec<usize> = bundle.definitions.iter().map(|p| p.0).collect();
    assert!(syms.contains(&1) && syms.contains(&2) && syms.contains(&3));
}
