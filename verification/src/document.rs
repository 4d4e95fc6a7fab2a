//! The mathematical model of a configuration document.
//!
//! Everything the library promises about the documents it builds is stated
//! over [`Document`]: a tree whose inner nodes are finite maps from segment
//! names to sub-documents and whose leaves are booleans, integers and texts.

use vstd::prelude::*;

verus! {

/// The value of a document: exactly one of five shapes.
pub enum Document {
    Null,
    Boolean(bool),
    Integer(i64),
    Text(Seq<char>),
    Object(Map<Seq<char>, Document>),
}

impl Document {
    /// The members of the node when it is taken as an object: its own
    /// mapping for an `Object`, and no member at all for any other shape.
    pub open spec fn members(self) -> Map<Seq<char>, Document> {
        match self {
            Document::Object(m) => m,
            _ => Map::empty(),
        }
    }

    /// The node one descends into under `key`: the member of that name, or
    /// a fresh empty object where there is none.
    pub open spec fn child(self, key: Seq<char>) -> Document {
        if self.members().contains_key(key) {
            self.members()[key]
        } else {
            Document::Object(Map::empty())
        }
    }

    /// The document with `value` written at `path`.
    ///
    /// Every node on the way is taken as an object, whatever it held before;
    /// the last segment's entry is replaced by `value`; all other members of
    /// every node on the way are kept. The empty path changes nothing.
    pub open spec fn set(self, path: Seq<Seq<char>>, value: Document) -> Document
        decreases path.len(),
    {
        if path.len() == 0 {
            self
        } else if path.len() == 1 {
            Document::Object(self.members().insert(path[0], value))
        } else {
            Document::Object(
                self.members().insert(path[0], self.child(path[0]).set(path.skip(1), value)),
            )
        }
    }

    /// What is found at `path`, if every segment names a member.
    pub open spec fn get(self, path: Seq<Seq<char>>) -> Option<Document>
        decreases path.len(),
    {
        if path.len() == 0 {
            Some(self)
        } else if self.members().contains_key(path[0]) {
            self.members()[path[0]].get(path.skip(1))
        } else {
            None
        }
    }
}

/// Writing twice at the same path leaves what the second write alone
/// would have left: the last write wins.
pub proof fn lemma_set_overwrites(
    doc: Document,
    path: Seq<Seq<char>>,
    first: Document,
    second: Document,
)
    ensures
        doc.set(path, first).set(path, second) == doc.set(path, second),
    decreases path.len(),
{
    if path.len() == 0 {
    } else if path.len() == 1 {
        let m = doc.members();
        assert(m.insert(path[0], first).insert(path[0], second) =~= m.insert(path[0], second));
    } else {
        let m = doc.members();
        let k = path[0];
        let rest = path.skip(1);
        let c = doc.child(k);
        lemma_set_overwrites(c, rest, first, second);
        let once = doc.set(path, first);
        assert(once.members() == m.insert(k, c.set(rest, first)));
        assert(once.child(k) == c.set(rest, first));
        assert(m.insert(k, c.set(rest, first)).insert(k, c.set(rest, second)) =~= m.insert(
            k,
            c.set(rest, second),
        ));
    }
}

/// A value that was written at a non-empty path is found there.
pub proof fn lemma_get_after_set(doc: Document, path: Seq<Seq<char>>, value: Document)
    requires
        path.len() > 0,
    ensures
        doc.set(path, value).get(path) == Some(value),
    decreases path.len(),
{
    let written = doc.set(path, value);
    let rest = path.skip(1);
    if path.len() == 1 {
        assert(written.members()[path[0]] == value);
        assert(value.get(rest) == Some(value));
    } else {
        lemma_get_after_set(doc.child(path[0]), rest, value);
        assert(written.members()[path[0]] == doc.child(path[0]).set(rest, value));
    }
}

/// Writing at a path leaves every member of the root under another first
/// segment as it was.
pub proof fn lemma_set_keeps_other_members(
    doc: Document,
    path: Seq<Seq<char>>,
    value: Document,
    key: Seq<char>,
)
    requires
        path.len() > 0,
        key != path[0],
    ensures
        doc.set(path, value).members().contains_key(key) == doc.members().contains_key(key),
        doc.members().contains_key(key) ==> doc.set(path, value).members()[key]
            == doc.members()[key],
{
}

} // verus!
