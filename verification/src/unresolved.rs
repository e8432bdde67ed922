use vstd::prelude::*;

use crate::defs::{URCI, URD};
use crate::errors::{SectionError, SectionWarning};

verus! {

/// A name as written, possibly aliased (`x as y`).
pub struct AliasableIdentifier {
    pub name: String,
    pub alias: Option<String>,
}

/// A plain name as written.
pub struct Identifier {
    pub name: String,
}

/// The package part of a module name; empty for the current package.
pub struct PackageName(pub String);

/// A module qualified by its package.
pub struct ModuleName {
    pub name: Identifier,
    pub package: PackageName,
}

/// What an import re-exports or exposes.
pub enum Export {
    All,
    Things(Vec<AliasableIdentifier>),
}

/// One import statement of a document.
pub struct Import {
    pub module: ModuleName,
    pub alias: Option<Identifier>,
    pub export: Option<Export>,
    pub exposing: Option<Export>,
}

/// A per-source-file value holding the ordered content sequence, the
/// definitions found in the file, the imports, and the diagnostics
/// accumulated so far.  Content order is fixed at parse time and is
/// semantically meaningful.
pub struct Document {
    pub content: Vec<URCI>,
    pub definitions: Vec<(usize, URD)>,
    pub imports: Vec<Import>,
    pub errors: Vec<SectionError>,
    pub warnings: Vec<SectionWarning>,
    pub comments: Vec<String>,
}

impl Document {
    pub fn new() -> (d: Document)
        ensures
            d.content@.len() == 0,
            d.definitions@.len() == 0,
            d.imports@.len() == 0,
            d.errors@.len() == 0,
            d.warnings@.len() == 0,
            d.comments@.len() == 0,
    {
        Document {
            content: Vec::new(),
            definitions: Vec::new(),
            imports: Vec::new(),
            errors: Vec::new(),
            warnings: Vec::new(),
            comments: Vec::new(),
        }
    }

    /// Diagnostics from a resolution step are merged into the document
    /// immediately, not deferred.
    pub fn merge(
        &mut self,
        errors: Vec<SectionError>,
        warnings: Vec<SectionWarning>,
        comments: Vec<String>,
    )
        ensures
            final(self).errors@ == old(self).errors@ + errors@,
            final(self).warnings@ == old(self).warnings@ + warnings@,
            final(self).comments@ == old(self).comments@ + comments@,
            final(self).content@ == old(self).content@,
            final(self).definitions@ == old(self).definitions@,
            final(self).imports@ == old(self).imports@,
    {
        let mut errors = errors;
        let mut warnings = warnings;
        let mut comments = comments;
        self.errors.append(&mut errors);
        self.warnings.append(&mut warnings);
        self.comments.append(&mut comments);
    }
}

} // verus!
