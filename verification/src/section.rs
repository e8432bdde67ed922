use vstd::prelude::*;

use crate::errors::SectionError;
use crate::p1::{
    bump, identifier, lemma_ident_end_bounds, lemma_skip_spaces_bounds, spec_identifier, Kind,
};
use crate::scanner::{spec_line_end, spec_skip_new_lines, spec_skip_spaces, Scanner};
use crate::text::string_of;

verus! {

/// A name optionally preceded by a kind, as written at a section's head.
pub struct KindedName {
    pub kind: Option<Kind>,
    pub name: String,
}

/// What a section starts with: its kinded name, up to and including the
/// colon.
pub struct SectionInit {
    pub name: KindedName,
}

/// One section of a source document: its head, its caption, and the parts a
/// richer grammar would fill in.
pub struct Section {
    pub init: SectionInit,
    pub caption: Option<String>,
    pub headers: Vec<(String, String)>,
    pub body: Option<String>,
    pub children: Vec<Section>,
}

/// A parsed source file: its sections in order, plus collected errors.
pub struct Document {
    pub sections: Vec<Section>,
    pub errors: Vec<SectionError>,
}

/// The mathematical value of a parsed section.
pub struct SectionView {
    pub kind: Option<Seq<char>>,
    pub name: Seq<char>,
    pub caption: Option<Seq<char>>,
}

/// Structural correspondence between a parsed section and its value; the
/// parts the grammar does not yet produce stay empty.
pub open spec fn section_matches(sec: Section, v: SectionView) -> bool {
    &&& match (sec.init.name.kind, v.kind) {
        (None, None) => true,
        (Some(k), Some(nm)) => k.name@ == nm && k.args is None,
        _ => false,
    }
    &&& sec.init.name.name@ == v.name
    &&& match (sec.caption, v.caption) {
        (None, None) => true,
        (Some(c), Some(cv)) => c@ == cv,
        _ => false,
    }
    &&& sec.headers@.len() == 0
    &&& sec.body is None
    &&& sec.children@.len() == 0
}

/// The caption: the rest of the line after the colon and any spaces; absent
/// when the line ends immediately.
pub open spec fn spec_caption(s: Seq<char>, i: int) -> (Option<Seq<char>>, int) {
    let j = spec_skip_spaces(s, i);
    let k = spec_line_end(s, j);
    if k > j {
        (Some(s.subrange(j, k)), k)
    } else {
        (None::<Seq<char>>, k)
    }
}

/// What the section parser recognises at a position: `--`, a kinded name, a
/// colon, and the rest of the line as caption; and where the scanner stands
/// afterwards, also on failure.
pub open spec fn spec_section(s: Seq<char>, i: int) -> (Option<SectionView>, int) {
    if !(0 <= i && i + 1 < s.len() && s[i] == '-' && s[i + 1] == '-') {
        (None::<SectionView>, i)
    } else {
        let j = spec_skip_spaces(s, i + 2);
        match spec_identifier(s, j) {
            None => (None::<SectionView>, j),
            Some(p1) => {
                let j2 = spec_skip_spaces(s, p1.1);
                if 0 <= j2 < s.len() && s[j2] == ':' {
                    let (cap, j3) = spec_caption(s, j2 + 1);
                    (Some(SectionView { kind: None, name: p1.0, caption: cap }), j3)
                } else {
                    match spec_identifier(s, j2) {
                        None => (None::<SectionView>, j2),
                        Some(p2) => {
                            let j4 = spec_skip_spaces(s, p2.1);
                            if 0 <= j4 < s.len() && s[j4] == ':' {
                                let (cap, j5) = spec_caption(s, j4 + 1);
                                (
                                    Some(
                                        SectionView { kind: Some(p1.0), name: p2.0, caption: cap },
                                    ),
                                    j5,
                                )
                            } else {
                                (None::<SectionView>, j4)
                            }
                        },
                    }
                }
            },
        }
    }
}

/// Parse one section.
pub fn section(scanner: &mut Scanner<Document>) -> (r: Option<Section>)
    requires
        old(scanner).wf(),
    ensures
        final(scanner).wf(),
        final(scanner).text() == old(scanner).text(),
        final(scanner).out() == old(scanner).out(),
        final(scanner).at() == spec_section(old(scanner).text(), old(scanner).at()).1,
        match spec_section(old(scanner).text(), old(scanner).at()).0 {
            Some(v) => r matches Some(sec) && section_matches(sec, v),
            None => r is None,
        },
{
    let ghost s = old(scanner).text();
    let ghost i0 = old(scanner).at();
    let start = scanner.index();
    if !scanner.take('-') {
        return None;
    }
    if !scanner.take('-') {
        scanner.reset(start);
        return None;
    }
    scanner.skip_spaces();
    let first = match identifier(scanner) {
        Some(id) => id,
        None => {
            return None;
        },
    };
    scanner.skip_spaces();
    if scanner.take(':') {
        let cap = caption(scanner);
        return Some(
            Section {
                init: SectionInit { name: KindedName { kind: None, name: first.name } },
                caption: cap,
                headers: Vec::new(),
                body: None,
                children: Vec::new(),
            },
        );
    }
    let second = match identifier(scanner) {
        Some(id) => id,
        None => {
            return None;
        },
    };
    scanner.skip_spaces();
    if !scanner.take(':') {
        return None;
    }
    let cap = caption(scanner);
    Some(
        Section {
            init: SectionInit {
                name: KindedName {
                    kind: Some(Kind { name: first.name, args: None }),
                    name: second.name,
                },
            },
            caption: cap,
            headers: Vec::new(),
            body: None,
            children: Vec::new(),
        },
    )
}

fn caption(scanner: &mut Scanner<Document>) -> (r: Option<String>)
    requires
        old(scanner).wf(),
    ensures
        final(scanner).wf(),
        final(scanner).text() == old(scanner).text(),
        final(scanner).out() == old(scanner).out(),
        final(scanner).at() == spec_caption(old(scanner).text(), old(scanner).at()).1,
        match spec_caption(old(scanner).text(), old(scanner).at()).0 {
            Some(cv) => r matches Some(c) && c@ == cv,
            None => r is None,
        },
{
    scanner.skip_spaces();
    proof {
        lemma_line_end_bounds(old(scanner).text(), scanner.at());
    }
    let line = scanner.take_line();
    if line.len() == 0 {
        None
    } else {
        Some(string_of(&line))
    }
}

/// Where scanning resumes after one parsed section: spaces, newlines, spaces.
pub open spec fn next_scan_point(s: Seq<char>, i: int) -> int {
    spec_skip_spaces(s, spec_skip_new_lines(s, spec_skip_spaces(s, spec_section(s, i).1)))
}

/// The end of a line lies between its start and the end of the text.
pub proof fn lemma_line_end_bounds(s: Seq<char>, i: int)
    ensures
        spec_line_end(s, i) >= i,
        i <= s.len() ==> spec_line_end(s, i) <= s.len(),
    decreases s.len() - i,
{
    if 0 <= i < s.len() && s[i] != '\n' {
        lemma_line_end_bounds(s, i + 1);
    }
}

pub proof fn lemma_skip_new_lines_bounds(s: Seq<char>, i: int)
    ensures
        spec_skip_new_lines(s, i) >= i,
        i <= s.len() ==> spec_skip_new_lines(s, i) <= s.len(),
    decreases s.len() - i,
{
    if 0 <= i < s.len() && s[i] == '\n' {
        lemma_skip_new_lines_bounds(s, i + 1);
    }
}

/// A successful section parse consumes at least one character and ends
/// inside the text.
pub proof fn lemma_spec_section_advances(s: Seq<char>, i: int)
    requires
        0 <= i <= s.len(),
    ensures
        spec_section(s, i).0 is Some ==> i < spec_section(s, i).1 <= s.len(),
        i <= next_scan_point(s, i),
        spec_section(s, i).0 is Some ==> next_scan_point(s, i) <= s.len(),
{
    if spec_section(s, i).0 is Some {
        let j = spec_skip_spaces(s, i + 2);
        lemma_skip_spaces_bounds(s, i + 2);
        let p1 = spec_identifier(s, j)->Some_0;
        lemma_ident_end_bounds(s, j);
        let j2 = spec_skip_spaces(s, p1.1);
        lemma_skip_spaces_bounds(s, p1.1);
        if 0 <= j2 < s.len() && s[j2] == ':' {
            lemma_skip_spaces_bounds(s, j2 + 1);
            lemma_line_end_bounds(s, spec_skip_spaces(s, j2 + 1));
        } else {
            let p2 = spec_identifier(s, j2)->Some_0;
            lemma_ident_end_bounds(s, j2);
            let j4 = spec_skip_spaces(s, p2.1);
            lemma_skip_spaces_bounds(s, p2.1);
            lemma_skip_spaces_bounds(s, j4 + 1);
            lemma_line_end_bounds(s, spec_skip_spaces(s, j4 + 1));
        }
        let e = spec_section(s, i).1;
        lemma_skip_spaces_bounds(s, e);
        lemma_skip_new_lines_bounds(s, spec_skip_spaces(s, e));
        lemma_skip_spaces_bounds(s, spec_skip_new_lines(s, spec_skip_spaces(s, e)));
    } else {
        let e = spec_section(s, i).1;
        lemma_section_fail_bounds(s, i);
        lemma_skip_spaces_bounds(s, e);
        lemma_skip_new_lines_bounds(s, spec_skip_spaces(s, e));
        lemma_skip_spaces_bounds(s, spec_skip_new_lines(s, spec_skip_spaces(s, e)));
    }
}

proof fn lemma_section_fail_bounds(s: Seq<char>, i: int)
    requires
        0 <= i <= s.len(),
        spec_section(s, i).0 is None,
    ensures
        i <= spec_section(s, i).1 <= s.len(),
{
    if 0 <= i && i + 1 < s.len() && s[i] == '-' && s[i + 1] == '-' {
        let j = spec_skip_spaces(s, i + 2);
        lemma_skip_spaces_bounds(s, i + 2);
        if spec_identifier(s, j) is Some {
            let p1 = spec_identifier(s, j)->Some_0;
            lemma_ident_end_bounds(s, j);
            let j2 = spec_skip_spaces(s, p1.1);
            lemma_skip_spaces_bounds(s, p1.1);
            if spec_identifier(s, j2) is Some {
                let p2 = spec_identifier(s, j2)->Some_0;
                lemma_ident_end_bounds(s, j2);
                lemma_skip_spaces_bounds(s, p2.1);
            }
        }
    }
}

/// The sections a document consists of, in source order.
pub open spec fn spec_document(s: Seq<char>, i: int) -> Seq<SectionView>
    decreases s.len() - i,
{
    let (sec, j) = spec_section(s, i);
    match sec {
        None => Seq::empty(),
        Some(v) => {
            let k = next_scan_point(s, i);
            seq![v] + spec_document(s, bump(k, i, s.len() as int))
        },
    }
}

/// Parse every section of the document into the scanner's output, in order.
/// The order is fixed here, at parse time, and preserved from then on.
pub fn document(scanner: &mut Scanner<Document>)
    requires
        old(scanner).wf(),
    ensures
        final(scanner).wf(),
        final(scanner).text() == old(scanner).text(),
        final(scanner).out().errors@ == old(scanner).out().errors@,
        ({
            let views = spec_document(
                old(scanner).text(),
                spec_skip_spaces(old(scanner).text(), old(scanner).at()),
            );
            let n0 = old(scanner).out().sections@.len();
            &&& final(scanner).out().sections@.len() == n0 + views.len()
            &&& forall|p: int|
                0 <= p < n0 ==> final(scanner).out().sections@[p] == old(
                    scanner,
                ).out().sections@[p]
            &&& forall|p: int|
                0 <= p < views.len() ==> section_matches(
                    #[trigger] final(scanner).out().sections@[n0 + p],
                    views[p],
                )
        }),
{
    let ghost s = old(scanner).text();
    let ghost n0 = old(scanner).out().sections@.len();
    let mut out = scanner.replace_output(Document::new());
    scanner.skip_spaces();
    let mut done = false;
    while !done
        invariant
            old(scanner).wf(),
            scanner.wf(),
            scanner.text() == s,
            out.errors@ == old(scanner).out().errors@,
            n0 == old(scanner).out().sections@.len(),
            out.sections@.len() >= n0,
            forall|p: int|
                0 <= p < n0 ==> out.sections@[p] == old(scanner).out().sections@[p],
            done ==> spec_document(s, spec_skip_spaces(s, old(scanner).at())).len()
                == out.sections@.len() - n0,
            !done ==> spec_document(s, spec_skip_spaces(s, old(scanner).at())).len()
                == out.sections@.len() - n0 + spec_document(s, scanner.at()).len(),
            forall|p: int|
                0 <= p < out.sections@.len() - n0 ==> section_matches(
                    #[trigger] out.sections@[n0 + p],
                    spec_document(s, spec_skip_spaces(s, old(scanner).at()))[p],
                ),
            !done ==> (forall|p: int|
                0 <= p < spec_document(s, scanner.at()).len() ==> #[trigger] spec_document(
                    s,
                    scanner.at(),
                )[p] == spec_document(s, spec_skip_spaces(s, old(scanner).at())).index(
                    out.sections@.len() - n0 + p,
                )),
        decreases s.len() - scanner.at() + 1, (if done {
            0int
        } else {
            1int
        }),
    {
        let ghost pre_at = scanner.at();
        let ghost pre_n = out.sections@.len();
        let sec = match section(scanner) {
            Some(sec) => sec,
            None => {
                proof {
                    lemma_section_fail_bounds(s, pre_at);
                }
                done = true;
                continue ;
            },
        };
        proof {
            lemma_spec_section_advances(s, pre_at);
        }
        scanner.skip_spaces();
        scanner.skip_new_lines();
        scanner.skip_spaces();
        out.sections.push(sec);
        proof {
            assert(scanner.at() == next_scan_point(s, pre_at));
            assert(bump(next_scan_point(s, pre_at), pre_at, s.len() as int) == scanner.at()) by {
                assert(next_scan_point(s, pre_at) > pre_at);
            }
            let v = spec_section(s, pre_at).0->Some_0;
            assert(spec_document(s, pre_at) == seq![v] + spec_document(s, scanner.at()));
            let views = spec_document(s, spec_skip_spaces(s, old(scanner).at()));
            let here_pre = spec_document(s, pre_at);
            let here_now = spec_document(s, scanner.at());
            let n = out.sections@.len();
            assert(n == pre_n + 1);
            assert(here_pre.len() == 1 + here_now.len());
            assert(here_pre[0] == v);
            assert(views[pre_n - n0] == here_pre[0]) by {
                assert(here_pre[0] == here_pre[0]);
            }
            assert forall|p: int| 0 <= p < n - n0 implies section_matches(
                #[trigger] out.sections@[n0 + p],
                views[p],
            ) by {
                if p == pre_n - n0 {
                    assert(out.sections@[n0 + p] == sec);
                    assert(views[p] == v);
                }
            }
            assert forall|p: int|
                0 <= p < here_now.len() implies #[trigger] here_now[p] == views[n - n0
                + p] by {
                assert(here_pre[1 + p] == here_now[p]);
                assert(here_pre[1 + p] == views[(pre_n - n0) + (1 + p)]);
            }
        }
    }
    let parsed_while_swapped = scanner.replace_output(out);
    let _ = parsed_while_swapped;
}

impl Document {
    pub fn new() -> (d: Document)
        ensures
            d.sections@.len() == 0,
            d.errors@.len() == 0,
    {
        Document { sections: Vec::new(), errors: Vec::new() }
    }

    /// Parse a source text into a document.
    pub fn parse(source: &str) -> (d: Document)
        ensures
            d.errors@.len() == 0,
            ({
                let views = spec_document(source@, spec_skip_spaces(source@, 0));
                &&& d.sections@.len() == views.len()
                &&& forall|p: int|
                    0 <= p < views.len() ==> section_matches(#[trigger] d.sections@[p], views[p])
            }),
    {
        let mut scanner = Scanner::new(source, Document::new());
        document(&mut scanner);
        proof {
            let views = spec_document(source@, spec_skip_spaces(source@, 0));
            assert forall|p: int| 0 <= p < views.len() implies section_matches(
                #[trigger] scanner.out().sections@[p],
                views[p],
            ) by {
                assert(section_matches(scanner.out().sections@[0 + p], views[p]));
            }
        }
        scanner.into_output()
    }
}

} // verus!
