use vstd::prelude::*;

use crate::scanner::{spec_skip_spaces, Scanner};
use crate::text::string_of;
use crate::unresolved::Identifier;

verus! {

/// What char::is_alphabetic answers for a character; a function of the
/// character alone.
pub uninterp spec fn char_alphabetic(c: char) -> bool;

/// Relies on char::is_alphabetic: whether the character is a Unicode letter.
#[verifier::external_body]
fn is_alphabetic_char(c: char) -> (r: bool)
    ensures
        r == char_alphabetic(c),
{
    c.is_alphabetic()
}

/// An identifier starts with a letter or an underscore.
pub open spec fn ident_start(c: char) -> bool {
    char_alphabetic(c) || c == '_'
}

/// Later identifier characters also allow dashes.
pub open spec fn ident_part(c: char) -> bool {
    char_alphabetic(c) || c == '_' || c == '-'
}

/// The first position at or after `i` that is not an identifier character.
pub open spec fn ident_end(s: Seq<char>, i: int) -> int
    decreases s.len() - i,
{
    if 0 <= i < s.len() && ident_part(s[i]) {
        ident_end(s, i + 1)
    } else {
        i
    }
}

/// What the identifier parser recognises at a position: the longest run of
/// identifier characters, provided the first is a valid start; and where the
/// scanner stands afterwards.
pub open spec fn spec_identifier(s: Seq<char>, i: int) -> Option<(Seq<char>, int)> {
    if 0 <= i < s.len() && ident_start(s[i]) {
        Some((s.subrange(i, ident_end(s, i)), ident_end(s, i)))
    } else {
        None
    }
}

/// Parse an identifier; on failure the scanner does not move.
pub fn identifier<O>(scanner: &mut Scanner<O>) -> (r: Option<Identifier>)
    requires
        old(scanner).wf(),
    ensures
        final(scanner).wf(),
        final(scanner).text() == old(scanner).text(),
        final(scanner).out() == old(scanner).out(),
        match spec_identifier(old(scanner).text(), old(scanner).at()) {
            Some(p) => r matches Some(id) && id.name@ == p.0 && final(scanner).at() == p.1,
            None => r is None && final(scanner).at() == old(scanner).at(),
        },
{
    let first = match scanner.peek() {
        Some(c) => c,
        None => {
            return None;
        },
    };
    if !is_alphabetic_char(first) && first != '_' {
        return None;
    }
    let mut name: Vec<char> = Vec::new();
    proof {
        assert(name@ =~= old(scanner).text().subrange(
            old(scanner).at(),
            old(scanner).at(),
        ));
    }
    loop
        invariant
            old(scanner).wf(),
            scanner.wf(),
            scanner.text() == old(scanner).text(),
            scanner.out() == old(scanner).out(),
            old(scanner).at() <= scanner.at(),
            ident_end(old(scanner).text(), old(scanner).at()) == ident_end(
                scanner.text(),
                scanner.at(),
            ),
            name@ == old(scanner).text().subrange(old(scanner).at(), scanner.at()),
        ensures
            scanner.wf(),
            scanner.text() == old(scanner).text(),
            scanner.out() == old(scanner).out(),
            scanner.at() == ident_end(old(scanner).text(), old(scanner).at()),
            name@ == old(scanner).text().subrange(old(scanner).at(), scanner.at()),
        decreases scanner.text().len() - scanner.at(),
    {
        let c = match scanner.peek() {
            Some(c) => c,
            None => {
                break ;
            },
        };
        if !(is_alphabetic_char(c) || c == '_' || c == '-') {
            break ;
        }
        name.push(c);
        scanner.advance();
        proof {
            assert(name@ =~= old(scanner).text().subrange(old(scanner).at(), scanner.at()));
        }
    }
    Some(Identifier { name: string_of(&name) })
}

/// A type expression: a name, optionally applied to comma-separated type
/// arguments in angle brackets, themselves kinds in turn.
pub struct Kind {
    pub name: String,
    pub args: Option<Vec<Kind>>,
}

/// The mathematical value of a parsed kind.
pub struct KindView {
    pub name: Seq<char>,
    pub args: Option<Seq<KindView>>,
}

/// Keeps an index strictly advancing and inside the text; the parser only
/// produces indexes that already satisfy this, so clamping never alters them.
pub open spec fn bump(j: int, i: int, len: int) -> int {
    if j <= i {
        i + 1
    } else if j > len {
        len
    } else {
        j
    }
}

/// What the kind parser recognises at a position, and where the scanner
/// stands afterwards — also on failure, since an invalid inner argument list
/// leaves consumed input consumed.
pub open spec fn spec_kind(s: Seq<char>, i: int) -> (Option<KindView>, int)
    decreases s.len() - i, 0int,
{
    match spec_identifier(s, i) {
        None => (None::<KindView>, i),
        Some(p) => {
            let qi = p.0;
            let j = bump(p.1, i, s.len() as int);
            let k = spec_skip_spaces(s, j);
            if !(0 <= k < s.len() && s[k] == '<') {
                (Some(KindView { name: qi, args: None }), j)
            } else {
                let k2 = spec_skip_spaces(s, k + 1);
                let (args, j2) = spec_kind_args(s, bump(k2, i, s.len() as int));
                match args {
                    None => (None::<KindView>, j2),
                    Some(a) => (Some(KindView { name: qi, args: Some(a) }), j2),
                }
            }
        },
    }
}

/// The arguments between angle brackets: kinds separated by commas, ended by
/// a closing bracket.  An immediately failing inner kind ends the list where
/// it stands, as the scanner does.
pub open spec fn spec_kind_args(s: Seq<char>, i: int) -> (Option<Seq<KindView>>, int)
    decreases s.len() - i, 1int,
{
    if !(0 <= i <= s.len()) {
        (Some(Seq::<KindView>::empty()), i)
    } else {
        let (k1, j) = spec_kind(s, i);
        match k1 {
            None => (Some(Seq::<KindView>::empty()), j),
            Some(kv) => {
                let j1 = bump(j, i, s.len() as int);
                let j2 = spec_skip_spaces(s, j1);
                if 0 <= j2 < s.len() && s[j2] == '>' {
                    (Some(seq![kv]), j2 + 1)
                } else if 0 <= j2 < s.len() && s[j2] == ',' {
                    let j3 = spec_skip_spaces(s, j2 + 1);
                    let (rest, j4) = spec_kind_args(s, bump(j3, i, s.len() as int));
                    match rest {
                        None => (None::<Seq<KindView>>, j4),
                        Some(r) => (Some(seq![kv] + r), j4),
                    }
                } else {
                    (None::<Seq<KindView>>, j2)
                }
            },
        }
    }
}

/// Structural correspondence between a parsed kind and its mathematical
/// value.
pub open spec fn kind_matches(k: Kind, v: KindView) -> bool
    decreases v,
{
    &&& k.name@ == v.name
    &&& match (k.args, v.args) {
        (None, None) => true,
        (Some(ka), Some(va)) => ka@.len() == va.len() && (forall|i: int|
            0 <= i < va.len() ==> kind_matches(#[trigger] ka@[i], va[i])),
        _ => false,
    }
}

/// Parse a kind.  The returned position and value follow `spec_kind`; a
/// failed parse can leave input consumed, exactly as the lookahead-free
/// grammar demands.
pub fn kind<O>(scanner: &mut Scanner<O>) -> (r: Option<Kind>)
    requires
        old(scanner).wf(),
    ensures
        final(scanner).wf(),
        final(scanner).text() == old(scanner).text(),
        final(scanner).out() == old(scanner).out(),
        final(scanner).at() == spec_kind(old(scanner).text(), old(scanner).at()).1,
        match spec_kind(old(scanner).text(), old(scanner).at()).0 {
            Some(v) => r matches Some(k) && kind_matches(k, v),
            None => r is None,
        },
    decreases old(scanner).text().len() - old(scanner).at(), 0int,
{
    let ghost s = old(scanner).text();
    let ghost i0 = old(scanner).at();
    let qi = match identifier(scanner) {
        Some(qi) => qi,
        None => {
            return None;
        },
    };
    proof {
        assert(spec_identifier(s, i0) is Some);
        assert(ident_part(s[i0]));
        lemma_ident_end_bounds(s, i0 + 1);
        assert(ident_end(s, i0) == ident_end(s, i0 + 1));
        assert(ident_end(s, i0) > i0);
        assert(bump(ident_end(s, i0), i0, s.len() as int) == ident_end(s, i0));
    }
    let index = scanner.index();
    scanner.skip_spaces();
    if !scanner.take('<') {
        scanner.reset(index);
        return Some(Kind { name: qi.name, args: None });
    }
    scanner.skip_spaces();
    proof {
        lemma_skip_spaces_bounds(s, ident_end(s, i0) + 1);
        assert(scanner.at() == bump(scanner.at(), i0, s.len() as int));
    }
    let args = match kind_args(scanner) {
        Some(a) => a,
        None => {
            return None;
        },
    };
    Some(Kind { name: qi.name, args: Some(args) })
}

/// Parse the comma-separated kinds of an argument list, through the closing
/// bracket.
fn kind_args<O>(scanner: &mut Scanner<O>) -> (r: Option<Vec<Kind>>)
    requires
        old(scanner).wf(),
    ensures
        final(scanner).wf(),
        final(scanner).text() == old(scanner).text(),
        final(scanner).out() == old(scanner).out(),
        final(scanner).at() == spec_kind_args(old(scanner).text(), old(scanner).at()).1,
        match spec_kind_args(old(scanner).text(), old(scanner).at()).0 {
            Some(w) => r matches Some(v) && v@.len() == w.len() && (forall|p: int|
                0 <= p < w.len() ==> kind_matches(#[trigger] v@[p], w[p])),
            None => r is None,
        },
    decreases old(scanner).text().len() - old(scanner).at(), 1int,
{
    let ghost s = old(scanner).text();
    let ghost i0 = old(scanner).at();
    let first = match kind(scanner) {
        Some(a) => a,
        None => {
            return Some(Vec::new());
        },
    };
    let ghost kv = spec_kind(s, i0).0->Some_0;
    let ghost j = spec_kind(s, i0).1;
    proof {
        assert(spec_identifier(s, i0) is Some);
        lemma_spec_kind_bounds(s, i0);
        assert(j > i0);
        assert(bump(j, i0, s.len() as int) == j);
    }
    scanner.skip_spaces();
    let ghost j2 = scanner.at();
    proof {
        lemma_skip_spaces_bounds(s, j);
    }
    if scanner.take('>') {
        let mut v: Vec<Kind> = Vec::new();
        v.push(first);
        proof {
            assert(spec_kind_args(s, i0).0 == Some(seq![kv]));
            assert(spec_kind_args(s, i0).1 == j2 + 1);
        }
        return Some(v);
    }
    if !scanner.take(',') {
        return None;
    }
    scanner.skip_spaces();
    let ghost rpos = scanner.at();
    proof {
        lemma_skip_spaces_bounds(s, j2 + 1);
        assert(rpos == bump(rpos, i0, s.len() as int));
    }
    let rest = match kind_args(scanner) {
        Some(a) => a,
        None => {
            return None;
        },
    };
    let ghost grest = spec_kind_args(s, rpos).0->Some_0;
    let mut v = rest;
    v.insert(0, first);
    proof {
        let w = spec_kind_args(s, i0).0->Some_0;
        assert(w == seq![kv] + grest);
        assert(v@.len() == w.len());
        assert forall|p: int| 0 <= p < w.len() implies kind_matches(
            #[trigger] v@[p],
            w[p],
        ) by {
            if p == 0 {
                assert(w[0] == kv);
                assert(v@[0] == first);
            } else {
                assert(w[p] == grest[p - 1]);
                assert(v@[p] == rest@[p - 1]);
            }
        }
    }
    Some(v)
}

/// The end of an identifier lies between its start and the end of the text.
pub proof fn lemma_ident_end_bounds(s: Seq<char>, i: int)
    requires
        0 <= i <= s.len(),
    ensures
        i <= ident_end(s, i) <= s.len(),
    decreases s.len() - i,
{
    if i < s.len() && ident_part(s[i]) {
        lemma_ident_end_bounds(s, i + 1);
    }
}

/// Skipping spaces never runs past the end of the text.
pub proof fn lemma_skip_spaces_bounds(s: Seq<char>, i: int)
    ensures
        spec_skip_spaces(s, i) >= i,
        i <= s.len() ==> spec_skip_spaces(s, i) <= s.len(),
    decreases s.len() - i,
{
    if 0 <= i < s.len() && (s[i] == ' ' || s[i] == '\t') {
        lemma_skip_spaces_bounds(s, i + 1);
    }
}

/// A successful kind parse consumes at least one character.
pub proof fn lemma_spec_kind_advances(s: Seq<char>, i: int)
    ensures
        spec_kind(s, i).0 is Some ==> spec_kind(s, i).1 > i,
{
    if spec_kind(s, i).0 is Some {
        assert(spec_identifier(s, i) is Some);
        assert(0 <= i < s.len());
        lemma_spec_kind_bounds(s, i);
    }
}

/// Positions the kind parser produces never leave the text.
pub proof fn lemma_spec_kind_bounds(s: Seq<char>, i: int)
    requires
        0 <= i <= s.len(),
    ensures
        i <= spec_kind(s, i).1 <= s.len(),
        spec_identifier(s, i) is Some ==> spec_kind(s, i).1 > i,
    decreases s.len() - i, 0int,
{
    match spec_identifier(s, i) {
        None => {},
        Some(p) => {
            lemma_ident_end_bounds(s, i);
            let j = bump(p.1, i, s.len() as int);
            let k = spec_skip_spaces(s, j);
            lemma_skip_spaces_bounds(s, j);
            if 0 <= k < s.len() && s[k] == '<' {
                let k2 = spec_skip_spaces(s, k + 1);
                lemma_skip_spaces_bounds(s, k + 1);
                lemma_spec_kind_args_bounds(s, bump(k2, i, s.len() as int));
            }
        },
    }
}

pub proof fn lemma_spec_kind_args_bounds(s: Seq<char>, i: int)
    requires
        0 <= i <= s.len(),
    ensures
        i <= spec_kind_args(s, i).1 <= s.len(),
    decreases s.len() - i, 1int,
{
    let (k1, j) = spec_kind(s, i);
    lemma_spec_kind_bounds(s, i);
    match k1 {
        None => {},
        Some(kv) => {
            let j1 = bump(j, i, s.len() as int);
            let j2 = spec_skip_spaces(s, j1);
            lemma_skip_spaces_bounds(s, j1);
            if 0 <= j2 < s.len() && s[j2] == '>' {
            } else if 0 <= j2 < s.len() && s[j2] == ',' {
                let j3 = spec_skip_spaces(s, j2 + 1);
                lemma_skip_spaces_bounds(s, j2 + 1);
                lemma_spec_kind_args_bounds(s, bump(j3, i, s.len() as int));
            }
        },
    }
}

} // verus!
