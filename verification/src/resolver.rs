//! The object-resolver capability and an in-memory store implementing it.

use vstd::prelude::*;

use crate::identifier::Identifier;
use crate::model::StoreModel;
use crate::objects::{DecodedObject, EntryModel, ObjectKind, ObjectModel, ResolveError, StoreEntry};

verus! {

/// The capability the traversal depends on: resolve an identifier to a
/// decoded object. Any concrete backend — loose, packed, or layered — works,
/// provided resolution answers according to one fixed store model: absent
/// identifiers report [`ResolveError::NotFound`], present ones decode to the
/// modelled object or fail with the modelled cause.
pub trait ObjectResolver: Sized {
    /// The abstract contents of the store.
    spec fn store(&self) -> StoreModel;

    /// A store holds finitely many objects.
    proof fn store_finite(&self)
        ensures
            self.store().dom().finite(),
    ;

    /// Resolve one identifier, as the store model prescribes.
    fn resolve(&self, id: &Identifier) -> (r: Result<DecodedObject, ResolveError>)
        requires
            id.wf(),
        ensures
            !self.store().dom().contains(id@) ==> r == Result::<
                DecodedObject,
                ResolveError,
            >::Err(ResolveError::NotFound),
            self.store().dom().contains(id@) ==> match self.store()[id@] {
                EntryModel::Object(m) => r matches Ok(obj) && obj.wf() && obj@ == m,
                EntryModel::Corrupt => r == Result::<DecodedObject, ResolveError>::Err(
                    ResolveError::Corrupt,
                ),
                EntryModel::Io => r == Result::<DecodedObject, ResolveError>::Err(
                    ResolveError::Io,
                ),
            },
    ;
}

/// The store model an association list denotes: later entries shadow
/// earlier ones (the resolver keeps its keys unique, so none do).
pub open spec fn store_of(entries: Seq<(Identifier, StoreEntry)>) -> StoreModel
    decreases entries.len(),
{
    if entries.len() == 0 {
        Map::empty()
    } else {
        store_of(entries.drop_last()).insert(entries.last().0@, entries.last().1@)
    }
}

/// An in-memory object store: a read-only resolver over entries supplied
/// up front, useful for tests and small repositories.
pub struct MemoryResolver {
    entries: Vec<(Identifier, StoreEntry)>,
}

impl MemoryResolver {
    /// Entries hold well-formed identifiers and objects, under distinct keys.
    #[verifier::type_invariant]
    spec fn wf(&self) -> bool {
        &&& forall|i: int| 0 <= i < self.entries@.len() ==> {
            &&& (#[trigger] self.entries@[i]).0.wf()
            &&& self.entries@[i].1.wf()
        }
        &&& forall|i: int, j: int|
            0 <= i < j < self.entries@.len() ==> self.entries@[i].0@ != self.entries@[j].0@
    }

    /// An empty store.
    pub fn new() -> (r: MemoryResolver)
        ensures
            r.store() == Map::<Seq<u8>, EntryModel>::empty(),
    {
        MemoryResolver { entries: Vec::new() }
    }

    /// Record what `id` resolves to. The identifier must be new to the store.
    pub fn insert_entry(&mut self, id: Identifier, entry: StoreEntry)
        requires
            id.wf(),
            entry.wf(),
            !old(self).store().dom().contains(id@),
        ensures
            final(self).store() == old(self).store().insert(id@, entry@),
    {
        proof {
            use_type_invariant(&*self);
            lemma_store_of_covers_keys(self.entries@);
        }
        let ghost entries0 = self.entries@;
        let mut entries: Vec<(Identifier, StoreEntry)> = Vec::new();
        std::mem::swap(&mut entries, &mut self.entries);
        entries.push((id, entry));
        proof {
            assert(entries@.drop_last() =~= entries0);
        }
        self.entries = entries;
    }

    /// Record `id` as a commit with the given parents, in order.
    pub fn insert_commit(&mut self, id: Identifier, parents: Vec<Identifier>)
        requires
            id.wf(),
            forall|i: int| 0 <= i < parents@.len() ==> (#[trigger] parents@[i]).wf(),
            !old(self).store().dom().contains(id@),
        ensures
            final(self).store() == old(self).store().insert(
                id@,
                EntryModel::Object(
                    ObjectModel {
                        kind: ObjectKind::Commit,
                        parents: crate::objects::id_views(parents@),
                    },
                ),
            ),
    {
        let obj = DecodedObject::commit(parents);
        self.insert_entry(id, StoreEntry::Object(obj));
    }
}

/// Every key of the association list's store model is the view of one of
/// its identifiers, and conversely.
proof fn lemma_store_of_covers_keys(entries: Seq<(Identifier, StoreEntry)>)
    ensures
        forall|k: Seq<u8>|
            store_of(entries).dom().contains(k) <==> exists|i: int|
                0 <= i < entries.len() && (#[trigger] entries[i]).0@ == k,
    decreases entries.len(),
{
    if entries.len() > 0 {
        lemma_store_of_covers_keys(entries.drop_last());
        assert forall|k: Seq<u8>| store_of(entries).dom().contains(k) implies exists|i: int|
            0 <= i < entries.len() && (#[trigger] entries[i]).0@ == k by {
            if k == entries.last().0@ {
                assert(entries[entries.len() - 1].0@ == k);
            } else {
                assert(store_of(entries.drop_last()).dom().contains(k));
                let i = choose|i: int|
                    0 <= i < entries.drop_last().len() && (#[trigger] entries.drop_last()[i]).0@
                        == k;
                assert(entries[i].0@ == k);
            }
        }
        assert forall|k: Seq<u8>|
            (exists|i: int|
                0 <= i < entries.len() && (#[trigger] entries[i]).0@
                    == k) implies store_of(entries).dom().contains(k) by {
            let i = choose|i: int| 0 <= i < entries.len() && (#[trigger] entries[i]).0@ == k;
            if i < entries.len() - 1 {
                assert(entries.drop_last()[i].0@ == k);
                assert(store_of(entries.drop_last()).dom().contains(k));
            } else {
                assert(k == entries.last().0@);
            }
        }
    }
}

/// With distinct keys, the store model sends each entry's key to that
/// entry's value.
proof fn lemma_store_of_lookup(entries: Seq<(Identifier, StoreEntry)>, i: int)
    requires
        0 <= i < entries.len(),
        forall|a: int, b: int| 0 <= a < b < entries.len() ==> entries[a].0@ != entries[b].0@,
    ensures
        store_of(entries).dom().contains(entries[i].0@),
        store_of(entries)[entries[i].0@] == entries[i].1@,
    decreases entries.len(),
{
    if i == entries.len() - 1 {
    } else {
        lemma_store_of_lookup(entries.drop_last(), i);
        assert(entries.drop_last()[i] == entries[i]);
        assert(entries[i].0@ != entries.last().0@);
    }
}

/// The store model of finitely many entries has a finite domain.
proof fn lemma_store_of_finite(entries: Seq<(Identifier, StoreEntry)>)
    ensures
        store_of(entries).dom().finite(),
    decreases entries.len(),
{
    if entries.len() > 0 {
        lemma_store_of_finite(entries.drop_last());
    }
}

impl ObjectResolver for MemoryResolver {
    closed spec fn store(&self) -> StoreModel {
        store_of(self.entries@)
    }

    proof fn store_finite(&self) {
        lemma_store_of_finite(self.entries@);
    }

    fn resolve(&self, id: &Identifier) -> (r: Result<DecodedObject, ResolveError>) {
        proof {
            use_type_invariant(&*self);
            lemma_store_of_covers_keys(self.entries@);
        }
        let n = self.entries.len();
        let mut i: usize = 0;
        while i < n
            invariant
                self.wf(),
                n == self.entries@.len(),
                i <= n,
                forall|j: int| 0 <= j < i ==> (#[trigger] self.entries@[j]).0@ != id@,
            decreases n - i,
        {
            if self.entries[i].0.eq_id(id) {
                proof {
                    lemma_store_of_lookup(self.entries@, i as int);
                }
                return match &self.entries[i].1 {
                    StoreEntry::Object(obj) => Ok(clone_object(obj)),
                    StoreEntry::Corrupt => Err(ResolveError::Corrupt),
                    StoreEntry::Io => Err(ResolveError::Io),
                };
            }
            i += 1;
        }
        proof {
            assert(!self.store().dom().contains(id@));
        }
        Err(ResolveError::NotFound)
    }
}

/// A copy of a decoded object with the same model.
fn clone_object(obj: &DecodedObject) -> (r: DecodedObject)
    ensures
        r@ == obj@,
        obj.wf() ==> r.wf(),
{
    let mut parents: Vec<Identifier> = Vec::new();
    let n = obj.parents.len();
    let mut i: usize = 0;
    while i < n
        invariant
            n == obj.parents@.len(),
            i <= n,
            parents@.len() == i,
            forall|j: int| 0 <= j < i ==> (#[trigger] parents@[j])@ == obj.parents@[j]@,
        decreases n - i,
    {
        parents.push(obj.parents[i].clone());
        i += 1;
    }
    let r = DecodedObject { kind: obj.kind, parents };
    proof {
        assert(r@.parents =~= obj@.parents);
    }
    r
}

} // verus!
