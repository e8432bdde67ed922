use vstd::prelude::*;

verus! {

/// A local semantic issue found while parsing or resolving.  Errors are
/// collected, not raised, so a document with local errors can still be
/// partially resolved; whole-compile failure triggers only at round
/// boundaries.
#[derive(Clone, Copy, PartialEq, Eq, Structural, Debug)]
pub enum SectionError {
    ImportCantHaveType,
    ImportMustBeImport,
    ImportMustHaveCaption,
    BodyNotAllowed,
    ChildrenNotAllowed,
    ExtraHeaderFound,
    ManifestNotFound,
}

/// A condition worth reporting that does not fail the compile.
#[derive(Clone, Copy, PartialEq, Eq, Structural, Debug)]
pub enum SectionWarning {
    PackageNameNotInCaption,
}

} // verus!
