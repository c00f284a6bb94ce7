//! The data model of the call graph: located symbol occurrences and the
//! identity relation under which the analysis compares them.
//!
//! Text (file URIs, symbol names, details) is carried as UTF-8 bytes, so
//! every operation on it is plain byte-sequence logic.

use vstd::prelude::*;

verus! {

/// A zero-based line/character position inside a file.
#[derive(Clone, Copy, PartialEq, Eq, Structural, Debug)]
pub struct Pos {
    pub line: u32,
    pub character: u32,
}

/// A region of a file, from `start` up to `end`.
#[derive(Clone, Copy, PartialEq, Eq, Structural, Debug)]
pub struct Span {
    pub start: Pos,
    pub end: Pos,
}

/// The kind of a symbol. The call-graph builder keeps only functions and
/// methods; everything else a server may report is `Other`.
#[derive(Clone, Copy, PartialEq, Eq, Structural, Debug)]
pub enum SymKind {
    Function,
    Method,
    Other,
}

/// One located symbol occurrence, as call-hierarchy queries return it.
///
/// `range` covers the whole definition; `selection_range` pinpoints the
/// name token. `data` is an opaque server-issued correlation token and
/// `tags` a server-issued annotation list: neither takes part in identity,
/// since a server may issue different tokens for logically equal items
/// across independent queries.
pub struct CallItem {
    pub uri: Vec<u8>,
    pub name: Vec<u8>,
    pub kind: SymKind,
    pub tags: Option<Vec<u8>>,
    pub detail: Option<Vec<u8>>,
    pub range: Span,
    pub selection_range: Span,
    pub data: Option<Vec<u8>>,
}

/// The mathematical value of a `CallItem`.
pub ghost struct CallItemView {
    pub uri: Seq<u8>,
    pub name: Seq<u8>,
    pub kind: SymKind,
    pub tags: Option<Seq<u8>>,
    pub detail: Option<Seq<u8>>,
    pub range: Span,
    pub selection_range: Span,
    pub data: Option<Seq<u8>>,
}

/// The fields that decide identity: owning file, name, and the exact
/// location of the name token.
pub ghost struct ItemKey {
    pub uri: Seq<u8>,
    pub name: Seq<u8>,
    pub selection_range: Span,
}

impl CallItemView {
    /// The projection under which two items count as the same symbol.
    pub open spec fn key(self) -> ItemKey {
        ItemKey { uri: self.uri, name: self.name, selection_range: self.selection_range }
    }
}

impl View for CallItem {
    type V = CallItemView;

    open spec fn view(&self) -> CallItemView {
        CallItemView {
            uri: self.uri@,
            name: self.name@,
            kind: self.kind,
            tags: self.tags.deep_view(),
            detail: self.detail.deep_view(),
            range: self.range,
            selection_range: self.selection_range,
            data: self.data.deep_view(),
        }
    }
}

impl DeepView for CallItem {
    type V = CallItemView;

    open spec fn deep_view(&self) -> CallItemView {
        self.view()
    }
}

/// Two items denote the same symbol: equal file, name and name location.
pub open spec fn item_eq(a: CallItemView, b: CallItemView) -> bool {
    a.key() == b.key()
}

/// Byte-for-byte comparison of two byte strings.
pub fn bytes_eq(a: &Vec<u8>, b: &Vec<u8>) -> (r: bool)
    ensures
        r == (a@ == b@),
{
    if a.len() != b.len() {
        return false;
    }
    let mut i: usize = 0;
    while i < a.len()
        invariant
            a@.len() == b@.len(),
            i <= a@.len(),
            forall|j: int| 0 <= j < i ==> a@[j] == b@[j],
        decreases a@.len() - i,
    {
        if a[i] != b[i] {
            return false;
        }
        i += 1;
    }
    proof {
        assert(a@ =~= b@);
    }
    true
}

/// A fresh copy of a byte string.
pub fn clone_bytes(v: &Vec<u8>) -> (r: Vec<u8>)
    ensures
        r@ == v@,
{
    let mut out: Vec<u8> = Vec::new();
    let mut i: usize = 0;
    while i < v.len()
        invariant
            i <= v@.len(),
            out@ == v@.take(i as int),
        decreases v@.len() - i,
    {
        out.push(v[i]);
        i += 1;
        proof {
            assert(v@.take(i as int) =~= v@.take(i - 1).push(v@[i - 1]));
        }
    }
    proof {
        assert(v@.take(v@.len() as int) =~= v@);
    }
    out
}

/// A fresh copy of an optional byte string.
pub fn clone_opt_bytes(v: &Option<Vec<u8>>) -> (r: Option<Vec<u8>>)
    ensures
        r.deep_view() == v.deep_view(),
{
    match v {
        Some(bytes) => Some(clone_bytes(bytes)),
        None => None,
    }
}

impl Clone for CallItem {
    /// A copy with the same mathematical value.
    fn clone(&self) -> (r: Self)
        ensures
            r@ == self@,
    {
        CallItem {
            uri: clone_bytes(&self.uri),
            name: clone_bytes(&self.name),
            kind: self.kind,
            tags: clone_opt_bytes(&self.tags),
            detail: clone_opt_bytes(&self.detail),
            range: self.range,
            selection_range: self.selection_range,
            data: clone_opt_bytes(&self.data),
        }
    }
}

/// Decides the identity relation: equal owning file, name and selection
/// range, with the opaque token, tags, detail and kind ignored.
pub fn same_item(a: &CallItem, b: &CallItem) -> (r: bool)
    ensures
        r == item_eq(a@, b@),
{
    bytes_eq(&a.uri, &b.uri) && bytes_eq(&a.name, &b.name) && a.selection_range
        == b.selection_range
}

/// Identity ignores the opaque correlation token (and every other
/// non-key field): items equal in file, name and selection range are
/// identical, whatever their tokens.
pub proof fn lemma_identity_ignores_token(a: CallItemView, b: CallItemView)
    requires
        a.uri == b.uri,
        a.name == b.name,
        a.selection_range == b.selection_range,
    ensures
        item_eq(a, b),
{
}

/// Items that differ in file, name or selection range are never
/// identical.
pub proof fn lemma_identity_separates(a: CallItemView, b: CallItemView)
    requires
        a.uri != b.uri || a.name != b.name || a.selection_range != b.selection_range,
    ensures
        !item_eq(a, b),
{
}

/// The identity relation is an equivalence: reflexive, symmetric and
/// transitive; and it is consistent with the key projection, two items
/// being identical exactly when their keys coincide.
pub proof fn lemma_identity_equivalence(a: CallItemView, b: CallItemView, c: CallItemView)
    ensures
        item_eq(a, a),
        item_eq(a, b) ==> item_eq(b, a),
        item_eq(a, b) && item_eq(b, c) ==> item_eq(a, c),
        item_eq(a, b) <==> a.key() == b.key(),
{
}

} // verus!
