//! An incremental, multi-round symbol-resolution engine: it turns a parsed
//! but unresolved document — an ordered sequence of content items and named
//! definitions that may reference not-yet-available names, forward references
//! and cross-module imports included — into a fully resolved bundle ready for
//! code generation, fetching definitions through a pluggable store, tolerating
//! direct and mutual recursion, and guaranteeing termination within a bounded
//! number of rounds.  The laws the engine obeys are stated and proved in
//! `laws`.

pub mod arena;
pub mod continuation;
pub mod defs;
pub mod engine;
pub mod errors;
pub mod import;
pub mod laws;
pub mod mail;
pub mod manifest;
pub mod model;
pub mod p1;
pub mod reader;
pub mod scanner;
pub mod section;
pub mod sql;
pub mod store;
pub mod sub_section;
pub mod table;
pub mod tdoc;
pub mod text;
pub mod unresolved;
pub mod ur;

pub use arena::Arena;
pub use defs::{
    ContentItem, DefinitionKind, ResolvedContentItem, ResolvedDefinition, UnresolvedDefinition,
    URCI, URD,
};
pub use engine::{CompileError, CompiledDocument, Compiler, ResolveSymbolsResult};
pub use errors::{SectionError, SectionWarning};
pub use store::{MemoryStore, SymbolStore};
pub use table::DefinitionTable;
pub use unresolved::{
    AliasableIdentifier, Document, Export, Identifier, Import, ModuleName, PackageName,
};
pub use ur::UR;
