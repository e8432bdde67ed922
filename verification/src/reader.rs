use vstd::prelude::*;

use crate::continuation::{Continuation, ContinuationResult, Provider};
use crate::errors::{SectionError, SectionWarning};
use crate::section::Document;
use crate::text::str_eq;
use crate::ur::UR;

verus! {

/// An import every document of a package starts with implicitly.
pub struct AutoImport {
    pub module: String,
}

/// A package manifest, as far as the reader fills it in.
pub struct Package {
    pub name: String,
}

/// The paused state of the manifest reader: it demand-loads files by name
/// through the continuation primitive, starting with the manifest itself.
pub struct State {
    pub name: UR<(), String>,
    pub auto_imports: Vec<AutoImport>,
    pub diagnostics: Vec<SectionWarning>,
}

/// The first section carrying the given plain name.
pub open spec fn first_named(ss: Seq<crate::section::Section>, nm: Seq<char>) -> Option<int>
    decreases ss.len(),
{
    if ss.len() == 0 {
        None
    } else if ss[0].init.name.name@ == nm {
        Some(0)
    } else {
        match first_named(ss.drop_first(), nm) {
            None => None,
            Some(i) => Some(i + 1),
        }
    }
}

/// Read the package's name from its manifest document: the caption of the
/// section named `name`.  A missing section or caption is only a warning —
/// the package is still returned, as empty as it is.
pub fn parse_package(doc: &Document) -> (r: (Package, Vec<SectionWarning>))
    ensures
        match first_named(doc.sections@, "name"@) {
            Some(i) => match doc.sections@[i].caption {
                Some(c) => r.0.name@ == c@ && r.1@.len() == 0,
                None => r.0.name@.len() == 0 && r.1@ == seq![
                    SectionWarning::PackageNameNotInCaption,
                ],
            },
            None => r.0.name@.len() == 0 && r.1@ == seq![
                SectionWarning::PackageNameNotInCaption,
            ],
        },
{
    let n = doc.sections.len();
    let mut i: usize = 0;
    proof {
        assert(doc.sections@.subrange(0, n as int) =~= doc.sections@);
    }
    while i < n
        invariant
            n == doc.sections@.len(),
            i <= n,
            ({
                let whole = first_named(doc.sections@, "name"@);
                let rest = first_named(doc.sections@.subrange(i as int, n as int), "name"@);
                match (whole, rest) {
                    (Some(w), Some(q)) => w == i + q,
                    (None, None) => true,
                    _ => false,
                }
            }),
        decreases n - i,
    {
        let ghost rem = doc.sections@.subrange(i as int, n as int);
        proof {
            assert(rem[0] == doc.sections@[i as int]);
            assert(rem.drop_first() =~= doc.sections@.subrange(i + 1 as int, n as int));
        }
        if str_eq(doc.sections[i].init.name.name.as_str(), "name") {
            match &doc.sections[i].caption {
                Some(c) => {
                    let mut warnings: Vec<SectionWarning> = Vec::new();
                    proof {
                        assert(warnings@ =~= Seq::<SectionWarning>::empty());
                    }
                    return (Package { name: c.clone() }, warnings);
                },
                None => {
                    let mut warnings: Vec<SectionWarning> = Vec::new();
                    warnings.push(SectionWarning::PackageNameNotInCaption);
                    proof {
                        assert(warnings@ =~= seq![SectionWarning::PackageNameNotInCaption]);
                    }
                    return (Package { name: String::new() }, warnings);
                },
            }
        }
        i += 1;
    }
    proof {
        assert(doc.sections@.subrange(n as int, n as int) =~= Seq::<
            crate::section::Section,
        >::empty());
    }
    let mut warnings: Vec<SectionWarning> = Vec::new();
    warnings.push(SectionWarning::PackageNameNotInCaption);
    proof {
        assert(warnings@ =~= seq![SectionWarning::PackageNameNotInCaption]);
    }
    (Package { name: String::new() }, warnings)
}

impl Package {
    /// Begin reading a package: the reader first demands the manifest file.
    pub fn reader() -> (r: ContinuationResult<State>)
        ensures
            r matches ContinuationResult::Stuck(st, needed) && (*st).name is UnResolved
                && needed@.len() == 1 && needed@[0]@ == "FASTN.ftd"@,
    {
        let mut needed: Vec<String> = Vec::new();
        needed.push(String::from_str("FASTN.ftd"));
        ContinuationResult::Stuck(
            Box::new(
                State { name: UR::UnResolved(()), auto_imports: Vec::new(), diagnostics: Vec::new() },
            ),
            needed,
        )
    }
}

impl Continuation for State {
    type Output = Result<(Package, Vec<SectionWarning>), Vec<SectionError>>;

    type Needed = Vec<String>;

    type Found = Vec<(String, Option<String>)>;

    /// The reader resolves in a single resumption: the manifest's text, when
    /// the provider found it, determines the package; anything else is the
    /// manifest-not-found failure.  A name already resolved resolves to
    /// itself.
    open spec fn step_ok(self, found: Self::Found, r: ContinuationResult<State>) -> bool {
        match self.name {
            UR::UnResolved(_) => {
                if found@.len() == 1 && found@[0].1 is Some {
                    r matches ContinuationResult::Done(o) && o matches Ok(p)
                } else {
                    r matches ContinuationResult::Done(o) && o matches Err(e) && e@ == seq![
                        SectionError::ManifestNotFound,
                    ]
                }
            },
            UR::Resolved(name) => r matches ContinuationResult::Done(o) && o matches Ok(p)
                && p.0.name@ == name@,
        }
    }

    open spec fn pending(&self) -> nat {
        match self.name {
            UR::UnResolved(_) => 1,
            UR::Resolved(_) => 0,
        }
    }

    fn continue_after(self, found: Self::Found) -> (r: ContinuationResult<State>)
        ensures
            self.step_ok(found, r),
            r matches ContinuationResult::Stuck(c, n) ==> c.pending() < self.pending(),
    {
        match &self.name {
            UR::UnResolved(_) => {
                if found.len() == 1 {
                    let has_text = match &found[0].1 {
                        Some(_) => true,
                        None => false,
                    };
                    if has_text {
                        let text = match &found[0].1 {
                            Some(t) => t.clone(),
                            None => String::new(),
                        };
                        let doc = Document::parse(text.as_str());
                        let (package, warnings) = parse_package(&doc);
                        let mut diagnostics = self.diagnostics;
                        let mut warnings = warnings;
                        diagnostics.append(&mut warnings);
                        return ContinuationResult::Done(Ok((package, diagnostics)));
                    }
                }
                let mut errors: Vec<SectionError> = Vec::new();
                errors.push(SectionError::ManifestNotFound);
                proof {
                    assert(errors@ =~= seq![SectionError::ManifestNotFound]);
                }
                ContinuationResult::Done(Err(errors))
            },
            UR::Resolved(name) => {
                let package = Package { name: name.clone() };
                ContinuationResult::Done(Ok((package, self.diagnostics)))
            },
        }
    }
}

/// A provider backed by a fixed list of named files: each requested name is
/// answered with the file's text when the list holds it, and with nothing
/// when it does not — absence is an answer, never a crash.
pub struct FileList {
    pub files: Vec<(String, String)>,
}

/// The text of the first file with the given name.
pub open spec fn file_text(files: Seq<(String, String)>, name: Seq<char>) -> Option<Seq<char>>
    decreases files.len(),
{
    if files.len() == 0 {
        None
    } else if files[0].0@ == name {
        Some(files[0].1@)
    } else {
        file_text(files.drop_first(), name)
    }
}

impl Provider for FileList {
    type Needed = Vec<String>;

    type Found = Vec<(String, Option<String>)>;

    open spec fn provide_ok(&self, needed: Self::Needed, found: Self::Found) -> bool {
        &&& found@.len() == needed@.len()
        &&& forall|i: int|
            0 <= i < needed@.len() ==> (#[trigger] found@[i]).0@ == needed@[i]@ && (match file_text(
                self.files@,
                needed@[i]@,
            ) {
                Some(t) => found@[i].1 matches Some(x) && x@ == t,
                None => found@[i].1 is None,
            })
    }

    fn provide(&self, needed: Self::Needed) -> (r: Self::Found)
        ensures
            self.provide_ok(needed, r),
    {
        let mut out: Vec<(String, Option<String>)> = Vec::new();
        let n = needed.len();
        let mut i: usize = 0;
        while i < n
            invariant
                n == needed@.len(),
                i <= n,
                out@.len() == i,
                forall|p: int|
                    0 <= p < i ==> (#[trigger] out@[p]).0@ == needed@[p]@ && (match file_text(
                        self.files@,
                        needed@[p]@,
                    ) {
                        Some(t) => out@[p].1 matches Some(x) && x@ == t,
                        None => out@[p].1 is None,
                    }),
            decreases n - i,
        {
            let text = self.find_file(&needed[i]);
            out.push((needed[i].clone(), text));
            i += 1;
        }
        out
    }
}

impl FileList {
    fn find_file(&self, name: &String) -> (r: Option<String>)
        ensures
            match file_text(self.files@, name@) {
                Some(t) => r matches Some(x) && x@ == t,
                None => r is None,
            },
    {
        let n = self.files.len();
        let mut i: usize = 0;
        proof {
            assert(self.files@.subrange(0, n as int) =~= self.files@);
        }
        while i < n
            invariant
                n == self.files@.len(),
                i <= n,
                file_text(self.files@, name@) == file_text(
                    self.files@.subrange(i as int, n as int),
                    name@,
                ),
            decreases n - i,
        {
            let ghost rem = self.files@.subrange(i as int, n as int);
            proof {
                assert(rem[0] == self.files@[i as int]);
                assert(rem.drop_first() =~= self.files@.subrange(i + 1 as int, n as int));
            }
            if str_eq(self.files[i].0.as_str(), name.as_str()) {
                return Some(self.files[i].1.clone());
            }
            i += 1;
        }
        proof {
            assert(self.files@.subrange(n as int, n as int) =~= Seq::<(String, String)>::empty());
        }
        None
    }
}

} // verus!
