use vstd::prelude::*;

use crate::ur::UR;

verus! {

/// The tag of a top-level named construct referenceable by symbol.
#[derive(Clone, Copy, PartialEq, Eq, Structural, Debug)]
pub enum DefinitionKind {
    Component,
    Variable,
    Function,
    TypeAlias,
    Record,
    OrType,
    Module,
}

/// A definition whose name references are not all bound yet.  It carries the
/// identities its externally visible signature still references and the ones
/// its body still references, separately: the signature is resolved first, so
/// that a self- or mutually-recursive body reference can find at least the
/// signature of a peer already present in the table.
pub struct UnresolvedDefinition {
    pub symbol: usize,
    pub kind: DefinitionKind,
    pub sig_needs: Vec<usize>,
    pub body_needs: Vec<usize>,
    pub sig_resolved: bool,
}

/// A definition with no pending references.
#[derive(Debug)]
pub struct ResolvedDefinition {
    pub symbol: usize,
    pub kind: DefinitionKind,
}

/// A content item still carrying unbound references.
pub struct ContentItem {
    pub item: usize,
    pub needs: Vec<usize>,
}

/// A content item whose references are all bound to resolved definitions.
#[derive(Debug)]
pub struct ResolvedContentItem {
    pub item: usize,
    pub refs: Vec<usize>,
}

/// The mathematical value of an unresolved definition.
pub struct DefView {
    pub symbol: usize,
    pub kind: DefinitionKind,
    pub sig_needs: Seq<usize>,
    pub body_needs: Seq<usize>,
    pub sig_resolved: bool,
}

/// The mathematical value of a resolved definition.
pub struct ResolvedDefView {
    pub symbol: usize,
    pub kind: DefinitionKind,
}

/// The mathematical value of an unresolved content item.
pub struct ItemView {
    pub item: usize,
    pub needs: Seq<usize>,
}

/// The mathematical value of a resolved content item.
pub struct ResolvedItemView {
    pub item: usize,
    pub refs: Seq<usize>,
}

pub type EntryView = UR<DefView, ResolvedDefView>;

pub type ItemEntryView = UR<ItemView, ResolvedItemView>;

impl View for UnresolvedDefinition {
    type V = DefView;

    open spec fn view(&self) -> DefView {
        DefView {
            symbol: self.symbol,
            kind: self.kind,
            sig_needs: self.sig_needs@,
            body_needs: self.body_needs@,
            sig_resolved: self.sig_resolved,
        }
    }
}

impl View for ResolvedDefinition {
    type V = ResolvedDefView;

    open spec fn view(&self) -> ResolvedDefView {
        ResolvedDefView { symbol: self.symbol, kind: self.kind }
    }
}

impl View for ContentItem {
    type V = ItemView;

    open spec fn view(&self) -> ItemView {
        ItemView { item: self.item, needs: self.needs@ }
    }
}

impl View for ResolvedContentItem {
    type V = ResolvedItemView;

    open spec fn view(&self) -> ResolvedItemView {
        ResolvedItemView { item: self.item, refs: self.refs@ }
    }
}

impl<U: View, R: View> View for UR<U, R> {
    type V = UR<U::V, R::V>;

    open spec fn view(&self) -> UR<U::V, R::V> {
        match self {
            UR::UnResolved(u) => UR::UnResolved(u@),
            UR::Resolved(r) => UR::Resolved(r@),
        }
    }
}

/// A definition as held in the table: unresolved or resolved.
pub type URD = UR<UnresolvedDefinition, ResolvedDefinition>;

/// A content item as held in the document: unresolved or resolved.
pub type URCI = UR<ContentItem, ResolvedContentItem>;

/// The symbol a table entry is for, in either state.
pub open spec fn sym_of(e: EntryView) -> usize {
    match e {
        UR::UnResolved(d) => d.symbol,
        UR::Resolved(r) => r.symbol,
    }
}

pub fn copy_syms(v: &Vec<usize>) -> (r: Vec<usize>)
    ensures
        r@ == v@,
{
    let mut r: Vec<usize> = Vec::new();
    let mut i: usize = 0;
    while i < v.len()
        invariant
            i <= v@.len(),
            r@ == v@.subrange(0, i as int),
        decreases v@.len() - i,
    {
        r.push(v[i]);
        proof {
            assert(r@ =~= v@.subrange(0, i + 1 as int));
        }
        i += 1;
    }
    proof {
        assert(r@ =~= v@);
    }
    r
}

impl Clone for UnresolvedDefinition {
    fn clone(&self) -> (r: Self)
        ensures
            r@ == self@,
    {
        UnresolvedDefinition {
            symbol: self.symbol,
            kind: self.kind,
            sig_needs: copy_syms(&self.sig_needs),
            body_needs: copy_syms(&self.body_needs),
            sig_resolved: self.sig_resolved,
        }
    }
}

/// Appending one identity to an ordered duplicate-free collection: kept as is
/// when already present, appended otherwise.
pub open spec fn push_unique(s: Seq<usize>, x: usize) -> Seq<usize> {
    if s.contains(x) {
        s
    } else {
        s.push(x)
    }
}

/// Appending many identities in order, each by `push_unique`.
pub open spec fn extend_unique(s: Seq<usize>, t: Seq<usize>) -> Seq<usize>
    decreases t.len(),
{
    if t.len() == 0 {
        s
    } else {
        extend_unique(push_unique(s, t[0]), t.drop_first())
    }
}

pub proof fn lemma_extend_unique_snoc(s: Seq<usize>, t: Seq<usize>, x: usize)
    ensures
        extend_unique(s, t.push(x)) == push_unique(extend_unique(s, t), x),
    decreases t.len(),
{
    reveal_with_fuel(extend_unique, 3);
    if t.len() == 0 {
        assert(t.push(x)[0] == x);
        assert(t.push(x).drop_first() =~= Seq::<usize>::empty());
    } else {
        assert(t.push(x)[0] == t[0]);
        assert(t.push(x).drop_first() =~= t.drop_first().push(x));
        lemma_extend_unique_snoc(push_unique(s, t[0]), t.drop_first(), x);
    }
}

/// Every identity of `t` occurs in `extend_unique(s, t)`, and nothing else
/// beyond what `s` already held.
pub proof fn lemma_extend_unique_contains(s: Seq<usize>, t: Seq<usize>, x: usize)
    ensures
        extend_unique(s, t).contains(x) <==> (s.contains(x) || t.contains(x)),
    decreases t.len(),
{
    if t.len() > 0 {
        lemma_extend_unique_contains(push_unique(s, t[0]), t.drop_first(), x);
        assert(t.contains(x) <==> (t[0] == x || t.drop_first().contains(x))) by {
            if t.contains(x) {
                let i = choose|i: int| 0 <= i < t.len() && t[i] == x;
                if i > 0 {
                    assert(t.drop_first()[i - 1] == x);
                }
            }
            if t.drop_first().contains(x) {
                let i = choose|i: int| 0 <= i < t.drop_first().len() && t.drop_first()[i] == x;
                assert(t[i + 1] == x);
            }
        }
        if !s.contains(x) && t[0] == x {
            assert(push_unique(s, t[0]).contains(x)) by {
                if !s.contains(t[0]) {
                    assert(s.push(t[0])[s.len() as int] == t[0]);
                }
            }
        }
        assert(push_unique(s, t[0]).contains(x) <==> (s.contains(x) || t[0] == x)) by {
            if s.contains(x) {
                let i = choose|i: int| 0 <= i < s.len() && s[i] == x;
                assert(push_unique(s, t[0])[i] == x);
            }
            if push_unique(s, t[0]).contains(x) && !s.contains(x) {
                let i = choose|i: int|
                    0 <= i < push_unique(s, t[0]).len() && push_unique(s, t[0])[i] == x;
                if !s.contains(t[0]) && i < s.len() {
                    assert(s[i] == x);
                }
            }
        }
    }
}

/// Membership in a sequence extended by one element.
pub proof fn lemma_push_contains(s: Seq<usize>, x: usize, y: usize)
    ensures
        s.push(x).contains(y) <==> (s.contains(y) || y == x),
{
    if s.push(x).contains(y) {
        let i = choose|i: int| 0 <= i < s.push(x).len() && s.push(x)[i] == y;
        if i < s.len() {
            assert(s[i] == y);
        }
    }
    if s.contains(y) {
        let i = choose|i: int| 0 <= i < s.len() && s[i] == y;
        assert(s.push(x)[i] == y);
    }
    assert(s.push(x)[s.len() as int] == x);
}

/// True when `v` holds the identity.
pub fn vec_has(v: &Vec<usize>, x: usize) -> (b: bool)
    ensures
        b == v@.contains(x),
{
    let mut i: usize = 0;
    while i < v.len()
        invariant
            i <= v@.len(),
            forall|j: int| 0 <= j < i ==> v@[j] != x,
        decreases v@.len() - i,
    {
        if v[i] == x {
            return true;
        }
        i += 1;
    }
    false
}

pub fn push_unique_vec(v: &mut Vec<usize>, x: usize)
    ensures
        final(v)@ == push_unique(old(v)@, x),
{
    if !vec_has(v, x) {
        v.push(x);
    }
}

pub fn extend_unique_vec(v: &mut Vec<usize>, t: &Vec<usize>)
    ensures
        final(v)@ == extend_unique(old(v)@, t@),
{
    let mut i: usize = 0;
    while i < t.len()
        invariant
            i <= t@.len(),
            v@ == extend_unique(old(v)@, t@.subrange(0, i as int)),
        decreases t@.len() - i,
    {
        proof {
            assert(t@.subrange(0, i + 1 as int) =~= t@.subrange(0, i as int).push(t@[i as int]));
            lemma_extend_unique_snoc(old(v)@, t@.subrange(0, i as int), t@[i as int]);
        }
        push_unique_vec(v, t[i]);
        i += 1;
    }
    proof {
        assert(t@.subrange(0, t@.len() as int) =~= t@);
    }
}

} // verus!
