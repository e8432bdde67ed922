use vstd::prelude::*;

use vstd::string::{StringExecFns, StrSliceExecFns};
use crate::text::{str_eq, string_of};

verus! {

/// What char::is_whitespace answers for a character; a function of the
/// character alone.
pub uninterp spec fn char_whitespace(c: char) -> bool;

/// Relies on char::is_whitespace: whether the character is Unicode
/// whitespace.
#[verifier::external_body]
fn is_whitespace_char(c: char) -> (r: bool)
    ensures
        r == char_whitespace(c),
{
    c.is_whitespace()
}

/// The index of the first non-whitespace character at or after `i`.
pub open spec fn trim_start_at(s: Seq<char>, i: int) -> int
    decreases s.len() - i,
{
    if 0 <= i < s.len() && char_whitespace(s[i]) {
        trim_start_at(s, i + 1)
    } else {
        i
    }
}

/// The index just after the last non-whitespace character at or before `j`.
pub open spec fn trim_end_at(s: Seq<char>, j: int) -> int
    decreases j,
{
    if 0 < j <= s.len() && char_whitespace(s[j - 1]) {
        trim_end_at(s, j - 1)
    } else {
        j
    }
}

/// A string with surrounding whitespace removed.
pub open spec fn spec_trim(s: Seq<char>) -> Seq<char> {
    let a = trim_start_at(s, 0);
    let b = trim_end_at(s, s.len() as int);
    if a <= b {
        s.subrange(a, b)
    } else {
        Seq::empty()
    }
}

/// A string with trailing whitespace removed.
pub open spec fn spec_trim_end(s: Seq<char>) -> Seq<char> {
    s.subrange(0, trim_end_at(s, s.len() as int))
}

proof fn lemma_trim_start_bounds(s: Seq<char>, i: int)
    requires
        0 <= i <= s.len(),
    ensures
        i <= trim_start_at(s, i) <= s.len(),
    decreases s.len() - i,
{
    if i < s.len() && char_whitespace(s[i]) {
        lemma_trim_start_bounds(s, i + 1);
    }
}

proof fn lemma_trim_end_bounds(s: Seq<char>, j: int)
    requires
        0 <= j <= s.len(),
    ensures
        0 <= trim_end_at(s, j) <= j,
    decreases j,
{
    if 0 < j && char_whitespace(s[j - 1]) {
        lemma_trim_end_bounds(s, j - 1);
    }
}

/// The characters of a string, trimmed at both ends.
fn trim_chars(v: &Vec<char>) -> (r: Vec<char>)
    ensures
        r@ == spec_trim(v@),
{
    let n = v.len();
    let mut a: usize = 0;
    proof {
        lemma_trim_start_bounds(v@, 0);
    }
    while a < n && is_whitespace_char(v[a])
        invariant
            n == v@.len(),
            0 <= a <= n,
            trim_start_at(v@, 0) == trim_start_at(v@, a as int),
        decreases n - a,
    {
        a += 1;
    }
    let mut b: usize = n;
    proof {
        lemma_trim_end_bounds(v@, n as int);
    }
    while b > 0 && is_whitespace_char(v[b - 1])
        invariant
            n == v@.len(),
            0 <= b <= n,
            trim_end_at(v@, n as int) == trim_end_at(v@, b as int),
        decreases b,
    {
        b -= 1;
    }
    let mut r: Vec<char> = Vec::new();
    if a > b {
        proof {
            assert(r@ =~= spec_trim(v@));
        }
        return r;
    }
    let mut i: usize = a;
    while i < b
        invariant
            a <= i <= b <= n,
            n == v@.len(),
            r@ == v@.subrange(a as int, i as int),
        decreases b - i,
    {
        r.push(v[i]);
        proof {
            assert(r@ =~= v@.subrange(a as int, i + 1));
        }
        i += 1;
    }
    proof {
        assert(r@ =~= spec_trim(v@));
    }
    r
}

/// The characters of a string, trimmed at the end.
fn trim_end_chars(v: &Vec<char>) -> (r: Vec<char>)
    ensures
        r@ == spec_trim_end(v@),
{
    let n = v.len();
    let mut b: usize = n;
    proof {
        lemma_trim_end_bounds(v@, n as int);
    }
    while b > 0 && is_whitespace_char(v[b - 1])
        invariant
            n == v@.len(),
            0 <= b <= n,
            trim_end_at(v@, n as int) == trim_end_at(v@, b as int),
        decreases b,
    {
        b -= 1;
    }
    let mut r: Vec<char> = Vec::new();
    let mut i: usize = 0;
    while i < b
        invariant
            0 <= i <= b <= n,
            n == v@.len(),
            r@ == v@.subrange(0, i as int),
        decreases b - i,
    {
        r.push(v[i]);
        proof {
            assert(r@ =~= v@.subrange(0, i + 1));
        }
        i += 1;
    }
    proof {
        assert(r@ =~= spec_trim_end(v@));
    }
    r
}

/// The headers of one sub-section: line number, key and value each.
pub struct Header(pub Vec<(usize, String, String)>);

impl Header {
    pub fn new() -> (h: Header)
        ensures
            h.0@.len() == 0,
    {
        Header(Vec::new())
    }

    /// The same headers with every line number cleared.
    pub fn without_line_number(&self) -> (r: Header)
        ensures
            r.0@.len() == self.0@.len(),
            forall|i: int|
                0 <= i < self.0@.len() ==> (#[trigger] r.0@[i]).0 == 0 && r.0@[i].1@
                    == self.0@[i].1@ && r.0@[i].2@ == self.0@[i].2@,
    {
        let mut out: Vec<(usize, String, String)> = Vec::new();
        let n = self.0.len();
        let mut i: usize = 0;
        while i < n
            invariant
                n == self.0@.len(),
                i <= n,
                out@.len() == i,
                forall|j: int|
                    0 <= j < i ==> (#[trigger] out@[j]).0 == 0 && out@[j].1@ == self.0@[j].1@
                        && out@[j].2@ == self.0@[j].2@,
            decreases n - i,
        {
            out.push((0, self.0[i].1.clone(), self.0[i].2.clone()));
            i += 1;
        }
        Header(out)
    }

    /// A header is commented when its key starts with a slash.
    pub open spec fn header_commented(key: Seq<char>) -> bool {
        key.len() > 0 && key[0] == '/'
    }

    /// The headers whose keys are not commented out, in order.
    pub fn uncommented_headers(&self) -> (r: Vec<(usize, String, String)>)
        ensures
            r@ == self.0@.filter(
                |h: (usize, String, String)| !Header::header_commented(h.1@),
            ),
    {
        let mut out: Vec<(usize, String, String)> = Vec::new();
        let n = self.0.len();
        let mut i: usize = 0;
        proof {
            reveal(Seq::filter);
            assert(self.0@.subrange(0, 0) =~= Seq::<(usize, String, String)>::empty());
            assert(out@ =~= self.0@.subrange(0, 0).filter(
                |h: (usize, String, String)| !Header::header_commented(h.1@),
            ));
        }
        while i < n
            invariant
                n == self.0@.len(),
                i <= n,
                out@ == self.0@.subrange(0, i as int).filter(
                    |h: (usize, String, String)| !Header::header_commented(h.1@),
                ),
            decreases n - i,
        {
            proof {
                reveal(Seq::filter);
                assert(self.0@.subrange(0, i + 1 as int).drop_last() =~= self.0@.subrange(
                    0,
                    i as int,
                ));
                assert(self.0@.subrange(0, i + 1 as int).last() == self.0@[i as int]);
            }
            let key = &self.0[i].1;
            let commented = if key.unicode_len() > 0 {
                key.get_char(0) == '/'
            } else {
                false
            };
            if !commented {
                out.push((self.0[i].0, self.0[i].1.clone(), self.0[i].2.clone()));
                proof {
                    assert((self.0@[i as int].0, self.0@[i as int].1, self.0@[i as int].2)
                        == self.0@[i as int]);
                    assert(out@ =~= self.0@.subrange(0, i + 1 as int).filter(
                        |h: (usize, String, String)| !Header::header_commented(h.1@),
                    ));
                }
            }
            i += 1;
        }
        proof {
            assert(self.0@.subrange(0, n as int) =~= self.0@);
        }
        out
    }
}

/// One sub-section of a p1 section: a named block with an optional caption,
/// headers, and an optional body.
pub struct SubSection {
    pub name: String,
    pub caption: Option<String>,
    pub header: Header,
    pub body: Option<(usize, String)>,
    pub is_commented: bool,
    pub line_number: usize,
}

/// The ordered sub-sections of a section.
pub struct SubSections(pub Vec<SubSection>);

/// What reading a sub-section can fail with.
#[derive(Debug)]
pub enum P1Error {
    ParseError { message: String, doc_id: String, line_number: usize },
    NotFound { doc_id: String, line_number: usize, key: String },
}

fn clone_opt_string(s: &Option<String>) -> (r: Option<String>)
    ensures
        match s {
            Some(x) => r matches Some(y) && y@ == x@,
            None => r is None,
        },
{
    match s {
        Some(x) => Some(x.clone()),
        None => None,
    }
}

impl SubSection {
    /// The same sub-section with every line number cleared.
    pub fn without_line_number(&self) -> (r: SubSection)
        ensures
            r.name@ == self.name@,
            r.caption is Some <==> self.caption is Some,
            r.caption matches Some(c) ==> self.caption matches Some(c0) && c@ == c0@,
            r.body is Some <==> self.body is Some,
            r.body matches Some(b) ==> self.body matches Some(b0) && b.0 == 0 && b.1@ == b0.1@,
            r.is_commented == self.is_commented,
            r.line_number == 0,
    {
        SubSection {
            name: self.name.clone(),
            caption: clone_opt_string(&self.caption),
            header: self.header.without_line_number(),
            body: match &self.body {
                Some(b) => Some((0, b.1.clone())),
                None => None,
            },
            is_commented: self.is_commented,
            line_number: 0,
        }
    }

    /// The body with comment conventions applied: an all-whitespace or
    /// commented body is no body; an escaped leading `\/` loses its escape;
    /// anything else only loses trailing whitespace.
    pub fn body_without_comment(&self) -> (r: Option<(usize, String)>)
        ensures
            match self.body {
                None => r is None,
                Some(b) => {
                    let t = spec_trim(b.1@);
                    if t.len() == 0 {
                        r is None
                    } else if t[0] == '/' {
                        r is None
                    } else if t.len() >= 2 && t[0] == '\\' && t[1] == '/' {
                        r matches Some(p) && p.0 == b.0 && p.1@ == t.subrange(
                            1,
                            t.len() as int,
                        )
                    } else {
                        r matches Some(p) && p.0 == b.0 && p.1@ == spec_trim_end(b.1@)
                    }
                },
            },
    {
        let b = match &self.body {
            Some(b) => b,
            None => {
                return None;
            },
        };
        let chars = crate::text::chars_of(b.1.as_str());
        let t = trim_chars(&chars);
        if t.len() == 0 {
            return None;
        }
        if t[0] == '/' {
            return None;
        }
        if t.len() >= 2 && t[0] == '\\' && t[1] == '/' {
            let mut stripped: Vec<char> = Vec::new();
            let n = t.len();
            let mut i: usize = 1;
            while i < n
                invariant
                    1 <= i <= n,
                    n == t@.len(),
                    stripped@ == t@.subrange(1, i as int),
                decreases n - i,
            {
                stripped.push(t[i]);
                proof {
                    assert(stripped@ =~= t@.subrange(1, i + 1));
                }
                i += 1;
            }
            return Some((b.0, string_of(&stripped)));
        }
        let te = trim_end_chars(&chars);
        Some((b.0, string_of(&te)))
    }

    /// The same sub-section with commented headers and body dropped.
    pub fn remove_comments(&self) -> (r: SubSection)
        ensures
            r.name@ == self.name@,
            r.is_commented == false,
            r.line_number == self.line_number,
    {
        SubSection {
            name: self.name.clone(),
            caption: clone_opt_string(&self.caption),
            header: Header(self.header.uncommented_headers()),
            body: self.body_without_comment(),
            is_commented: false,
            line_number: self.line_number,
        }
    }

    /// The caption, or a parse error naming the sub-section.
    pub fn caption(&self, doc_id: &str) -> (r: Result<String, P1Error>)
        ensures
            match self.caption {
                Some(v) => r matches Ok(c) && c@ == v@,
                None => r matches Err(e) && e matches P1Error::ParseError {
                    message,
                    doc_id: d,
                    line_number,
                } && message@ == "caption is missing in "@ + self.name@ && d@ == doc_id@
                    && line_number == self.line_number,
            },
    {
        match &self.caption {
            Some(v) => Ok(v.clone()),
            None => Err(
                P1Error::ParseError {
                    message: String::from_str("caption is missing in ").concat(
                        self.name.as_str(),
                    ),
                    doc_id: doc_id.to_owned(),
                    line_number: self.line_number,
                },
            ),
        }
    }

    /// The body text, or a parse error naming the sub-section.
    pub fn body(&self, doc_id: &str) -> (r: Result<String, P1Error>)
        ensures
            match self.body {
                Some(b) => r matches Ok(c) && c@ == b.1@,
                None => r matches Err(e) && e matches P1Error::ParseError {
                    message,
                    doc_id: d,
                    line_number,
                } && message@ == "body is missing in "@ + self.name@ && d@ == doc_id@
                    && line_number == self.line_number,
            },
    {
        match &self.body {
            Some(b) => Ok(b.1.clone()),
            None => Err(
                P1Error::ParseError {
                    message: String::from_str("body is missing in ").concat(self.name.as_str()),
                    doc_id: doc_id.to_owned(),
                    line_number: self.line_number,
                },
            ),
        }
    }

    /// A fresh sub-section with only a name.
    pub fn with_name(name: &str) -> (r: SubSection)
        ensures
            r.name@ == name@,
            r.caption is None,
            r.header.0@.len() == 0,
            r.body is None,
            r.is_commented == false,
            r.line_number == 0,
    {
        SubSection {
            name: name.to_owned(),
            caption: None,
            header: Header::new(),
            body: None,
            is_commented: false,
            line_number: 0,
        }
    }

    pub fn and_caption(self, caption: &str) -> (r: SubSection)
        ensures
            r.caption matches Some(c) && c@ == caption@,
            r.name@ == self.name@,
            r.header.0@ == self.header.0@,
            r.body == self.body,
            r.is_commented == self.is_commented,
            r.line_number == self.line_number,
    {
        let mut s = self;
        s.caption = Some(caption.to_owned());
        s
    }

    /// Append one header with a cleared line number.
    pub fn add_header(self, key: &str, value: &str) -> (r: SubSection)
        ensures
            r.header.0@.len() == self.header.0@.len() + 1,
            forall|i: int|
                0 <= i < self.header.0@.len() ==> #[trigger] r.header.0@[i]
                    == self.header.0@[i],
            r.header.0@.last().0 == 0,
            r.header.0@.last().1@ == key@,
            r.header.0@.last().2@ == value@,
            r.name@ == self.name@,
            r.caption == self.caption,
            r.body == self.body,
            r.is_commented == self.is_commented,
            r.line_number == self.line_number,
    {
        let mut s = self;
        s.header.0.push((0, key.to_owned(), value.to_owned()));
        s
    }

    /// Append the header only when a value is there, written `true`/`false`.
    pub fn add_optional_header_bool(self, key: &str, value: Option<bool>) -> (r: SubSection)
        ensures
            value is None ==> r == self,
            value matches Some(b) ==> r.header.0@.len() == self.header.0@.len() + 1
                && r.header.0@.last().1@ == key@ && r.header.0@.last().2@ == (
            if b {
                "true"@
            } else {
                "false"@
            }),
    {
        match value {
            Some(v) => {
                if v {
                    self.add_header(key, "true")
                } else {
                    self.add_header(key, "false")
                }
            },
            None => self,
        }
    }

    /// Append the header only when a value is there.
    pub fn add_optional_header(self, key: &str, value: &Option<String>) -> (r: SubSection)
        ensures
            value is None ==> r == self,
            value matches Some(v) ==> r.header.0@.len() == self.header.0@.len() + 1
                && r.header.0@.last().1@ == key@ && r.header.0@.last().2@ == v@,
    {
        match value {
            Some(v) => self.add_header(key, v.as_str()),
            None => self,
        }
    }

    /// Append the header only when the value differs from the reference.
    pub fn add_header_if_not_equal(self, key: &str, value: &str, reference: &str) -> (r:
        SubSection)
        ensures
            value@ == reference@ ==> r == self,
            value@ != reference@ ==> r.header.0@.len() == self.header.0@.len() + 1
                && r.header.0@.last().1@ == key@ && r.header.0@.last().2@ == value@,
    {
        if !str_eq(value, reference) {
            self.add_header(key, value)
        } else {
            self
        }
    }

    pub fn and_body(self, body: &str) -> (r: SubSection)
        ensures
            r.body matches Some(b) && b.0 == 0 && b.1@ == body@,
            r.name@ == self.name@,
            r.caption == self.caption,
            r.header.0@ == self.header.0@,
    {
        let mut s = self;
        s.body = Some((0, body.to_owned()));
        s
    }

    pub fn and_optional_body(self, body: &Option<String>) -> (r: SubSection)
        ensures
            body is None ==> r.body is None,
            body matches Some(v) ==> r.body matches Some(b) && b.0 == 0 && b.1@ == v@,
            r.name@ == self.name@,
            r.caption == self.caption,
            r.header.0@ == self.header.0@,
    {
        let mut s = self;
        s.body = match body {
            Some(v) => Some((0, v.clone())),
            None => None,
        };
        s
    }
}

/// The first sub-section, commented ones skipped, carrying the given name.
pub open spec fn spec_by_name(ss: Seq<SubSection>, name: Seq<char>) -> Option<int>
    decreases ss.len(),
{
    if ss.len() == 0 {
        None
    } else if !ss[0].is_commented && ss[0].name@ == name {
        Some(0)
    } else {
        match spec_by_name(ss.drop_first(), name) {
            None => None,
            Some(i) => Some(i + 1),
        }
    }
}

impl SubSections {
    pub fn without_line_number(&self) -> (r: SubSections)
        ensures
            r.0@.len() == self.0@.len(),
            forall|i: int|
                0 <= i < self.0@.len() ==> (#[trigger] r.0@[i]).line_number == 0
                    && r.0@[i].name@ == self.0@[i].name@,
    {
        let mut subsections: Vec<SubSection> = Vec::new();
        let n = self.0.len();
        let mut i: usize = 0;
        while i < n
            invariant
                n == self.0@.len(),
                i <= n,
                subsections@.len() == i,
                forall|j: int|
                    0 <= j < i ==> (#[trigger] subsections@[j]).line_number == 0
                        && subsections@[j].name@ == self.0@[j].name@,
            decreases n - i,
        {
            subsections.push(self.0[i].without_line_number());
            i += 1;
        }
        SubSections(subsections)
    }

    /// The first sub-section with the name; commented ones never count.
    pub fn by_name(&self, line_number: usize, name: &str, doc_id: &str) -> (r: Result<
        &SubSection,
        P1Error,
    >)
        ensures
            match spec_by_name(self.0@, name@) {
                Some(i) => r matches Ok(s) && s == &self.0@[i],
                None => r matches Err(e) && e matches P1Error::NotFound {
                    doc_id: d,
                    line_number: l,
                    key,
                } && d@ == doc_id@ && l == line_number && key@ == name@,
            },
{
        let n = self.0.len();
        let mut i: usize = 0;
        proof {
            assert(self.0@.subrange(0, n as int) =~= self.0@);
        }
        while i < n
            invariant
                n == self.0@.len(),
                i <= n,
                ({
                    let whole = spec_by_name(self.0@, name@);
                    let rest = spec_by_name(self.0@.subrange(i as int, n as int), name@);
                    match (whole, rest) {
                        (Some(w), Some(q)) => w == i + q,
                        (None, None) => true,
                        _ => false,
                    }
                }),
            decreases n - i,
        {
            let ghost rem = self.0@.subrange(i as int, n as int);
            proof {
                assert(rem[0] == self.0@[i as int]);
                assert(rem.drop_first() =~= self.0@.subrange(i + 1 as int, n as int));
            }
            if !self.0[i].is_commented && str_eq(self.0[i].name.as_str(), name) {
                return Ok(&self.0[i]);
            }
            i += 1;
        }
        Err(
            P1Error::NotFound {
                doc_id: doc_id.to_owned(),
                line_number,
                key: name.to_owned(),
            },
        )
    }

    /// The body of the named sub-section, or why there is none.
    pub fn body_for(&self, line_number: usize, name: &str, doc_id: &str) -> (r: Result<
        String,
        P1Error,
    >)
        ensures
            match spec_by_name(self.0@, name@) {
                Some(i) => match self.0@[i].body {
                    Some(b) => r matches Ok(c) && c@ == b.1@,
                    None => r matches Err(e) && e matches P1Error::NotFound {
                        doc_id: d,
                        line_number: l,
                        key,
                    } && d@ == doc_id@ && l == line_number && key@ == name@,
                },
                None => r matches Err(e) && e is NotFound,
            },
    {
        let found = match self.by_name(line_number, name, doc_id) {
            Ok(s) => s,
            Err(e) => {
                return Err(e);
            },
        };
        match &found.body {
            Some(b) => Ok(b.1.clone()),
            None => Err(
                P1Error::NotFound {
                    doc_id: doc_id.to_owned(),
                    line_number,
                    key: name.to_owned(),
                },
            ),
        }
    }

    /// Append a body-only sub-section.
    pub fn add_body(&mut self, name: &str, value: &str)
        ensures
            final(self).0@.len() == old(self).0@.len() + 1,
            forall|i: int|
                0 <= i < old(self).0@.len() ==> #[trigger] final(self).0@[i] == old(self).0@[i],
            final(self).0@.last().name@ == name@,
            final(self).0@.last().body matches Some(b) && b.0 == 0 && b.1@ == value@,
            final(self).0@.last().is_commented == false,
    {
        self.0.push(
            SubSection {
                name: name.to_owned(),
                caption: None,
                header: Header::new(),
                body: Some((0, value.to_owned())),
                is_commented: false,
                line_number: 0,
            },
        );
    }

    /// Append one sub-section.
    pub fn add(&mut self, sub: SubSection)
        ensures
            final(self).0@ == old(self).0@.push(sub),
    {
        self.0.push(sub)
    }
}

} // verus!
