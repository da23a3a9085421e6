//! Decoded objects, the abstract store model, and the error taxonomy.

use vstd::prelude::*;

use crate::identifier::Identifier;

verus! {

/// The kind of a stored object. Only commits carry parent links.
#[derive(Clone, Copy, Debug, PartialEq, Eq, Structural)]
pub enum ObjectKind {
    Commit,
    Tree,
    Blob,
    Tag,
}

/// The subset of a decoded object that a traversal needs: its kind and,
/// for a commit, the ordered sequence of parent identifiers.
#[derive(Debug)]
pub struct DecodedObject {
    pub kind: ObjectKind,
    pub parents: Vec<Identifier>,
}

/// Mathematical model of a [`DecodedObject`]: the kind, and the parents as
/// byte sequences in the order the object records them.
pub struct ObjectModel {
    pub kind: ObjectKind,
    pub parents: Seq<Seq<u8>>,
}

/// The views of a sequence of identifiers, in order.
pub open spec fn id_views(ids: Seq<Identifier>) -> Seq<Seq<u8>> {
    ids.map_values(|id: Identifier| id@)
}

impl View for DecodedObject {
    type V = ObjectModel;

    open spec fn view(&self) -> ObjectModel {
        ObjectModel { kind: self.kind, parents: id_views(self.parents@) }
    }
}

impl DecodedObject {
    /// Every recorded parent identifier is well-formed.
    pub open spec fn wf(&self) -> bool {
        forall|i: int| 0 <= i < self.parents@.len() ==> (#[trigger] self.parents@[i]).wf()
    }

    /// A commit with the given parents, in the given order.
    pub fn commit(parents: Vec<Identifier>) -> (r: DecodedObject)
        ensures
            r.kind == ObjectKind::Commit,
            r@.parents == id_views(parents@),
            (forall|i: int| 0 <= i < parents@.len() ==> (#[trigger] parents@[i]).wf()) ==> r.wf(),
    {
        DecodedObject { kind: ObjectKind::Commit, parents }
    }

    /// An object of the given kind with no parent links.
    pub fn of_kind(kind: ObjectKind) -> (r: DecodedObject)
        ensures
            r.kind == kind,
            r@.parents == Seq::<Seq<u8>>::empty(),
            r.wf(),
    {
        let r = DecodedObject { kind, parents: Vec::new() };
        proof {
            assert(r@.parents =~= Seq::<Seq<u8>>::empty());
        }
        r
    }
}

/// What the store holds under one identifier: a decodable object, or bytes
/// whose decoding fails in one of the two recorded ways.
#[derive(Debug)]
pub enum StoreEntry {
    Object(DecodedObject),
    Corrupt,
    Io,
}

/// Mathematical model of a [`StoreEntry`].
pub enum EntryModel {
    Object(ObjectModel),
    Corrupt,
    Io,
}

impl View for StoreEntry {
    type V = EntryModel;

    open spec fn view(&self) -> EntryModel {
        match self {
            StoreEntry::Object(obj) => EntryModel::Object(obj@),
            StoreEntry::Corrupt => EntryModel::Corrupt,
            StoreEntry::Io => EntryModel::Io,
        }
    }
}

impl StoreEntry {
    /// Any object held in the entry is well-formed.
    pub open spec fn wf(&self) -> bool {
        self matches StoreEntry::Object(obj) ==> obj.wf()
    }
}

/// Why a store failed to resolve one identifier.
#[derive(Clone, Copy, Debug, PartialEq, Eq, Structural)]
pub enum ResolveError {
    /// The store has no object under the identifier.
    NotFound,
    /// The object's bytes could not be parsed as expected.
    Corrupt,
    /// Reading the object failed.
    Io,
}

/// A terminal traversal failure, wrapped with the offending identifier.
#[derive(Debug, PartialEq)]
pub enum TraversalError {
    /// The store has no object for the identifier; the remainder of that
    /// history is unknowable, so the traversal ends.
    NotFound(Identifier),
    /// The object's bytes could not be decoded, for the recorded cause.
    Decode(Identifier, ResolveError),
    /// The resolved object is not a commit where one was required.
    UnexpectedKind(Identifier),
}

} // verus!
