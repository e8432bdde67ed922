use vstd::prelude::*;

use crate::errors::SectionError;
use crate::section::Section;
use crate::text::{str_eq, string_of};
use crate::unresolved::{
    AliasableIdentifier, Document, Export, Identifier, Import, ModuleName, PackageName,
};

verus! {

/// Whether the pattern occurs in `s` starting at `i`.
pub open spec fn match_at(s: Seq<char>, pat: Seq<char>, i: int) -> bool {
    0 <= i && i + pat.len() <= s.len() && s.subrange(i, i + pat.len() as int) == pat
}

/// The first position where the pattern occurs at or after `i`.
pub open spec fn find_from(s: Seq<char>, pat: Seq<char>, i: int) -> Option<int>
    decreases s.len() - i,
{
    if i < 0 || pat.len() == 0 || i + pat.len() > s.len() {
        None
    } else if match_at(s, pat, i) {
        Some(i)
    } else {
        find_from(s, pat, i + 1)
    }
}

/// Splitting at the first occurrence of a pattern, as `str::split_once` does.
pub open spec fn spec_split_once(s: Seq<char>, pat: Seq<char>) -> Option<(Seq<char>, Seq<char>)> {
    match find_from(s, pat, 0) {
        None => None,
        Some(i) => Some((s.subrange(0, i), s.subrange(i + pat.len() as int, s.len() as int))),
    }
}

fn chars_match_at(s: &Vec<char>, pat: &Vec<char>, i: usize) -> (b: bool)
    requires
        i + pat@.len() <= s@.len(),
    ensures
        b == match_at(s@, pat@, i as int),
{
    let n = s.len();
    let m = pat.len();
    let mut j: usize = 0;
    while j < m
        invariant
            n == s@.len(),
            m == pat@.len(),
            i + m <= n,
            j <= m,
            forall|q: int| 0 <= q < j ==> s@[i + q] == pat@[q],
        decreases pat@.len() - j,
    {
        if s[i + j] != pat[j] {
            assert(s@.subrange(i as int, i + pat@.len() as int)[j as int] != pat@[j as int]);
            return false;
        }
        j += 1;
    }
    proof {
        assert(s@.subrange(i as int, i + pat@.len() as int) =~= pat@);
    }
    true
}

/// Split a character sequence at the first occurrence of a pattern.
pub fn split_once_chars(s: &Vec<char>, pat: &Vec<char>) -> (r: Option<(Vec<char>, Vec<char>)>)
    ensures
        match spec_split_once(s@, pat@) {
            Some(p) => r matches Some(q) && q.0@ == p.0 && q.1@ == p.1,
            None => r is None,
        },
{
    let n = s.len();
    let m = pat.len();
    let mut i: usize = 0;
    if m > n || m == 0 {
        return None;
    }
    while i <= n - m
        invariant
            n == s@.len(),
            m == pat@.len(),
            1 <= m <= n,
            find_from(s@, pat@, 0) == find_from(s@, pat@, i as int),
            i <= n - m + 1,
        decreases n - i,
    {
        if chars_match_at(s, pat, i) {
            let mut left: Vec<char> = Vec::new();
            let mut j: usize = 0;
            while j < i
                invariant
                    i <= n,
                    n == s@.len(),
                    j <= i,
                    left@ == s@.subrange(0, j as int),
                decreases i - j,
            {
                left.push(s[j]);
                proof {
                    assert(left@ =~= s@.subrange(0, j + 1));
                }
                j += 1;
            }
            let mut right: Vec<char> = Vec::new();
            let mut k: usize = i + m;
            while k < n
                invariant
                    i + m <= k <= n,
                    n == s@.len(),
                    m == pat@.len(),
                    right@ == s@.subrange(i + m, k as int),
                decreases n - k,
            {
                right.push(s[k]);
                proof {
                    assert(right@ =~= s@.subrange(i + m, k + 1));
                }
                k += 1;
            }
            return Some((left, right));
        }
        i += 1;
    }
    None
}

/// The parts of one aliasable thing: `x as y` gives name and alias, plain `x`
/// gives just the name.
pub open spec fn spec_aliasable(s: Seq<char>) -> (Seq<char>, Option<Seq<char>>) {
    match spec_split_once(s, " as "@) {
        Some(p) => (p.0, Some(p.1)),
        None => (s, None),
    }
}

/// Whether a parsed aliasable thing carries exactly the given parts.
pub open spec fn aliasable_matches(a: AliasableIdentifier, w: (Seq<char>, Option<Seq<char>>)) -> bool {
    &&& a.name@ == w.0
    &&& match w.1 {
        Some(x) => a.alias matches Some(al) && al@ == x,
        None => a.alias is None,
    }
}

/// A name, possibly aliased with `as`.
pub fn aliasable(s: &Vec<char>) -> (r: AliasableIdentifier)
    ensures
        aliasable_matches(r, spec_aliasable(s@)),
{
    let pat = crate::text::chars_of(" as ");
    proof {
        reveal_strlit(" as ");
    }
    match split_once_chars(s, &pat) {
        Some((name, alias)) => AliasableIdentifier {
            name: string_of(&name),
            alias: Some(string_of(&alias)),
        },
        None => AliasableIdentifier { name: string_of(s), alias: None },
    }
}

/// The comma-separated aliasable things of a header value.
pub open spec fn spec_things(s: Seq<char>) -> Seq<(Seq<char>, Option<Seq<char>>)>
    decreases s.len() via spec_things_decreases
{
    match spec_split_once(s, ","@) {
        None => seq![spec_aliasable(s)],
        Some(p) => seq![spec_aliasable(p.0)] + spec_things(p.1),
    }
}

#[via_fn]
proof fn spec_things_decreases(s: Seq<char>) {
    if spec_split_once(s, ","@) is Some {
        assert(","@.len() == 1) by {
            reveal_strlit(",");
        }
        lemma_split_shrinks(s, ","@);
    }
}

fn things(s: &Vec<char>) -> (r: Vec<AliasableIdentifier>)
    ensures
        r@.len() == spec_things(s@).len(),
        forall|p: int|
            0 <= p < r@.len() ==> aliasable_matches(#[trigger] r@[p], spec_things(s@)[p]),
    decreases s@.len(),
{
    let comma = crate::text::chars_of(",");
    proof {
        reveal_strlit(",");
    }
    match split_once_chars(s, &comma) {
        None => {
            let mut r: Vec<AliasableIdentifier> = Vec::new();
            r.push(aliasable(s));
            r
        },
        Some((head, tail)) => {
            proof {
                assert(","@.len() == 1) by {
                    reveal_strlit(",");
                }
                lemma_split_shrinks(s@, ","@);
            }
            let first = aliasable(&head);
            let mut rest = things(&tail);
            let ghost rest0 = rest@;
            rest.insert(0, first);
            proof {
                let w = spec_things(s@);
                assert(w == seq![spec_aliasable(head@)] + spec_things(tail@));
                assert forall|p: int| 0 <= p < rest@.len() implies aliasable_matches(
                    #[trigger] rest@[p],
                    w[p],
                ) by {
                    if p == 0 {
                        assert(w[0] == spec_aliasable(head@));
                    } else {
                        assert(rest@[p] == rest0[p - 1]);
                        assert(w[p] == spec_things(tail@)[p - 1]);
                    }
                }
            }
            rest
        },
    }
}

/// The pattern of a split is never longer than what was split, so splitting
/// strictly shrinks the right part.
pub proof fn lemma_split_shrinks(s: Seq<char>, pat: Seq<char>)
    requires
        pat.len() > 0,
        spec_split_once(s, pat) is Some,
    ensures
        spec_split_once(s, pat)->Some_0.1.len() < s.len(),
{
    let i = find_from(s, pat, 0)->Some_0;
    lemma_find_from_bounds(s, pat, 0);
}

proof fn lemma_find_from_bounds(s: Seq<char>, pat: Seq<char>, i: int)
    requires
        find_from(s, pat, i) is Some,
    ensures
        find_from(s, pat, i)->Some_0 >= i,
        find_from(s, pat, i)->Some_0 + pat.len() <= s.len(),
    decreases s.len() - i,
{
    if i < 0 || i + pat.len() > s.len() {
    } else if match_at(s, pat, i) {
    } else {
        lemma_find_from_bounds(s, pat, i + 1);
    }
}

} // verus!

verus! {

/// The value of the first header with the given key.
pub open spec fn spec_header(hs: Seq<(String, String)>, key: Seq<char>) -> Option<Seq<char>>
    decreases hs.len(),
{
    if hs.len() == 0 {
        None
    } else if hs[0].0@ == key {
        Some(hs[0].1@)
    } else {
        spec_header(hs.drop_first(), key)
    }
}

fn header_value(section: &Section, key: &str) -> (r: Option<String>)
    ensures
        match spec_header(section.headers@, key@) {
            Some(v) => r matches Some(x) && x@ == v,
            None => r is None,
        },
{
    let n = section.headers.len();
    let mut i: usize = 0;
    proof {
        assert(section.headers@.subrange(0, n as int) =~= section.headers@);
    }
    while i < n
        invariant
            n == section.headers@.len(),
            i <= n,
            spec_header(section.headers@, key@) == spec_header(
                section.headers@.subrange(i as int, n as int),
                key@,
            ),
        decreases n - i,
    {
        let ghost rem = section.headers@.subrange(i as int, n as int);
        proof {
            assert(rem[0] == section.headers@[i as int]);
            assert(rem.drop_first() =~= section.headers@.subrange(i + 1 as int, n as int));
        }
        if str_eq(section.headers[i].0.as_str(), key) {
            return Some(section.headers[i].1.clone());
        }
        i += 1;
    }
    proof {
        assert(section.headers@.subrange(n as int, n as int) =~= Seq::<(String, String)>::empty());
    }
    None
}

/// Whether an export clause carries exactly the things of a header value.
pub open spec fn export_matches(e: Option<Export>, h: Option<Seq<char>>) -> bool {
    match (e, h) {
        (None, None) => true,
        (Some(ex), Some(v)) => ex matches Export::Things(ts) && ts@.len() == spec_things(v).len()
            && (forall|p: int|
            0 <= p < ts@.len() ==> aliasable_matches(#[trigger] ts@[p], spec_things(v)[p])),
        _ => false,
    }
}

/// Parse one export or exposing field of an import section.
pub fn parse_field(field: &str, section: &Section, document: &mut Document) -> (r: Option<Export>)
    ensures
        *final(document) == *old(document),
        export_matches(r, spec_header(section.headers@, field@)),
{
    let header = match header_value(section, field) {
        Some(v) => v,
        None => {
            return None;
        },
    };
    let chars = crate::text::chars_of(header.as_str());
    Some(Export::Things(things(&chars)))
}

/// What an import statement means, given its caption and headers: the module
/// split from its package, the alias if one was written, and the export and
/// exposing clauses.
pub open spec fn import_matches(i: Import, cap: Seq<char>, hs: Seq<(String, String)>) -> bool {
    let parts = spec_aliasable(cap);
    let module_part = parts.0;
    let pm = match spec_split_once(module_part, "/"@) {
        Some(p) => p,
        None => (Seq::<char>::empty(), module_part),
    };
    &&& i.module.package.0@ == pm.0
    &&& i.module.name.name@ == pm.1
    &&& match (i.alias, parts.1) {
        (None, None) => true,
        (Some(a), Some(x)) => a.name@ == x,
        _ => false,
    }
    &&& export_matches(i.export, spec_header(hs, "export"@))
    &&& export_matches(i.exposing, spec_header(hs, "exposing"@))
}

/// Parse the import statement proper.  A missing caption is an error — the
/// error handling here is the job of this parser, not its caller.
pub fn parse_import(section: &Section, document: &mut Document) -> (r: Option<Import>)
    ensures
        final(document).content@ == old(document).content@,
        final(document).definitions@ == old(document).definitions@,
        final(document).imports@ == old(document).imports@,
        final(document).warnings@ == old(document).warnings@,
        final(document).comments@ == old(document).comments@,
        match section.caption {
            None => r is None && final(document).errors@ == old(document).errors@.push(
                SectionError::ImportMustHaveCaption,
            ),
            Some(cap) => r matches Some(i) && import_matches(i, cap@, section.headers@)
                && final(document).errors@ == old(document).errors@,
        },
{
    let cap = match &section.caption {
        Some(v) => v,
        None => {
            document.errors.push(SectionError::ImportMustHaveCaption);
            return None;
        },
    };
    let cap_chars = crate::text::chars_of(cap.as_str());
    let as_pat = crate::text::chars_of(" as ");
    proof {
        reveal_strlit(" as ");
    }
    let (module_part, alias) = match split_once_chars(&cap_chars, &as_pat) {
        Some((m, a)) => (m, Some(a)),
        None => (cap_chars, None),
    };
    let slash = crate::text::chars_of("/");
    proof {
        reveal_strlit("/");
    }
    let empty_pkg: Vec<char> = Vec::new();
    proof {
        assert(empty_pkg@ =~= Seq::<char>::empty());
    }
    let (package, module) = match split_once_chars(&module_part, &slash) {
        Some((p, m)) => (p, m),
        None => (empty_pkg, module_part),
    };
    let export = parse_field("export", section, document);
    let exposing = parse_field("exposing", section, document);
    Some(
        Import {
            module: ModuleName {
                name: Identifier { name: string_of(&module) },
                package: PackageName(string_of(&package)),
            },
            alias: match alias {
                Some(a) => Some(Identifier { name: string_of(&a) }),
                None => None,
            },
            export,
            exposing,
        },
    )
}

/// The diagnostics recorded before the import is even parsed: a kind where
/// none is allowed, a section that is not named `import`.
pub open spec fn import_prefix_errors(section: Section) -> Seq<SectionError> {
    let k: Seq<SectionError> = if section.init.name.kind is Some {
        seq![SectionError::ImportCantHaveType]
    } else {
        Seq::empty()
    };
    let n: Seq<SectionError> = if section.init.name.name@ != "import"@ {
        seq![SectionError::ImportMustBeImport]
    } else {
        Seq::empty()
    };
    k + n
}

/// The diagnostics for parts an import must not carry.
pub open spec fn import_shape_errors(section: Section) -> Seq<SectionError> {
    let b: Seq<SectionError> = if section.body is Some {
        seq![SectionError::BodyNotAllowed]
    } else {
        Seq::empty()
    };
    let c: Seq<SectionError> = if section.children@.len() > 0 {
        seq![SectionError::ChildrenNotAllowed]
    } else {
        Seq::empty()
    };
    b + c + extra_header_errors(section.headers@)
}

/// One diagnostic for every header that is neither `exports` nor `exposing`.
pub open spec fn extra_header_errors(hs: Seq<(String, String)>) -> Seq<SectionError>
    decreases hs.len(),
{
    if hs.len() == 0 {
        Seq::empty()
    } else {
        let here: Seq<SectionError> = if hs[0].0@ != "exports"@ && hs[0].0@ != "exposing"@ {
            seq![SectionError::ExtraHeaderFound]
        } else {
            Seq::empty()
        };
        here + extra_header_errors(hs.drop_first())
    }
}

/// Digest one `-- import:` section into the document: diagnostics are
/// collected, not raised, and the import joins the document's import list
/// whenever its caption could be parsed.
pub fn import(section: Section, document: &mut Document)
    ensures
        final(document).content@ == old(document).content@,
        final(document).definitions@ == old(document).definitions@,
        final(document).warnings@ == old(document).warnings@,
        final(document).comments@ == old(document).comments@,
        match section.caption {
            None => final(document).imports@ == old(document).imports@ && final(document).errors@
                == old(document).errors@ + import_prefix_errors(section) + seq![
                SectionError::ImportMustHaveCaption,
            ],
            Some(cap) => final(document).imports@.len() == old(document).imports@.len() + 1
                && (forall|p: int|
                0 <= p < old(document).imports@.len() ==> final(document).imports@[p] == old(
                    document,
                ).imports@[p]) && import_matches(
                final(document).imports@.last(),
                cap@,
                section.headers@,
            ) && final(document).errors@ == old(document).errors@ + import_prefix_errors(section)
                + import_shape_errors(section),
        },
{
    let ghost e0 = document.errors@;
    if match &section.init.name.kind {
        Some(_) => true,
        None => false,
    } {
        document.errors.push(SectionError::ImportCantHaveType);
    }
    if !str_eq(section.init.name.name.as_str(), "import") {
        document.errors.push(SectionError::ImportMustBeImport);
    }
    proof {
        assert(document.errors@ =~= e0 + import_prefix_errors(section));
    }
    let ghost e1 = document.errors@;
    let i = match parse_import(&section, document) {
        Some(v) => v,
        None => {
            proof {
                assert(document.errors@ =~= e0 + import_prefix_errors(section) + seq![
                    SectionError::ImportMustHaveCaption,
                ]);
            }
            return ;
        },
    };
    if match &section.body {
        Some(_) => true,
        None => false,
    } {
        document.errors.push(SectionError::BodyNotAllowed);
    }
    if section.children.len() > 0 {
        document.errors.push(SectionError::ChildrenNotAllowed);
    }
    let ghost e2 = document.errors@;
    let n = section.headers.len();
    let mut h: usize = 0;
    while h < n
        invariant
            n == section.headers@.len(),
            h <= n,
            document.errors@ == e2 + extra_header_errors(section.headers@.subrange(0, h as int)),
            document.content@ == old(document).content@,
            document.definitions@ == old(document).definitions@,
            document.imports@ == old(document).imports@,
            document.warnings@ == old(document).warnings@,
            document.comments@ == old(document).comments@,
        decreases n - h,
    {
        proof {
            lemma_extra_header_snoc(section.headers@.subrange(0, h as int), section.headers@[h as int]);
            assert(section.headers@.subrange(0, h + 1 as int) =~= section.headers@.subrange(
                0,
                h as int,
            ).push(section.headers@[h as int]));
        }
        let key_ok = str_eq(section.headers[h].0.as_str(), "exports") || str_eq(
            section.headers[h].0.as_str(),
            "exposing",
        );
        if !key_ok {
            document.errors.push(SectionError::ExtraHeaderFound);
            proof {
                assert(document.errors@ =~= e2 + extra_header_errors(
                    section.headers@.subrange(0, h + 1 as int),
                ));
            }
        } else {
            proof {
                assert(document.errors@ =~= e2 + extra_header_errors(
                    section.headers@.subrange(0, h + 1 as int),
                ));
            }
        }
        h += 1;
    }
    proof {
        assert(section.headers@.subrange(0, n as int) =~= section.headers@);
        assert(document.errors@ =~= e0 + import_prefix_errors(section) + import_shape_errors(
            section,
        ));
    }
    document.imports.push(i);
}

/// Extending a header list by one header appends its diagnostic, if any.
proof fn lemma_extra_header_snoc(hs: Seq<(String, String)>, x: (String, String))
    ensures
        extra_header_errors(hs.push(x)) == extra_header_errors(hs) + (
        if x.0@ != "exports"@ && x.0@ != "exposing"@ {
            seq![SectionError::ExtraHeaderFound]
        } else {
            Seq::<SectionError>::empty()
        }),
    decreases hs.len(),
{
    reveal_with_fuel(extra_header_errors, 3);
    if hs.len() == 0 {
        assert(hs.push(x)[0] == x);
        assert(hs.push(x).drop_first() =~= Seq::<(String, String)>::empty());
        assert(extra_header_errors(hs.push(x)) =~= extra_header_errors(hs) + (
        if x.0@ != "exports"@ && x.0@ != "exposing"@ {
            seq![SectionError::ExtraHeaderFound]
        } else {
            Seq::<SectionError>::empty()
        }));
    } else {
        assert(hs.push(x)[0] == hs[0]);
        assert(hs.push(x).drop_first() =~= hs.drop_first().push(x));
        lemma_extra_header_snoc(hs.drop_first(), x);
        assert(extra_header_errors(hs.push(x)) =~= extra_header_errors(hs) + (
        if x.0@ != "exports"@ && x.0@ != "exposing"@ {
            seq![SectionError::ExtraHeaderFound]
        } else {
            Seq::<SectionError>::empty()
        }));
    }
}

} // verus!
