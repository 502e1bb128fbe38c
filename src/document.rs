use vstd::prelude::*;
use crate::object::{Entry, Object, ObjectId};

verus! {

/// A document: its object store, its trailer, and the ids of its pages in
/// page order, as enumerated from its catalog.
pub struct Document {
    pub objects: Vec<(ObjectId, Object)>,
    pub trailer: Vec<Entry>,
    pub pages: Vec<ObjectId>,
}

/// The id that a freshly built store gives to its object at position `j`.
pub open spec fn seq_id(j: int) -> ObjectId {
    ObjectId { num: (j + 1) as u32, gen: 0 }
}

impl Document {
    /// The store holds an object under `id`.
    pub open spec fn has(&self, id: ObjectId) -> bool {
        exists|i: int| 0 <= i < self.objects.len() && (#[trigger] self.objects@[i]).0 == id
    }

    /// The object stored under `id` (meaningful where `has(id)`).
    pub open spec fn get(&self, id: ObjectId) -> Object {
        self.objects@[choose|i: int| 0 <= i < self.objects.len() && (#[trigger] self.objects@[i]).0 == id].1
    }

    /// No two entries of the store share an id.
    pub open spec fn unique_ids(&self) -> bool {
        forall|i: int, j: int|
            0 <= i < self.objects.len() && 0 <= j < self.objects.len() && i != j
                ==> (#[trigger] self.objects@[i]).0 != (#[trigger] self.objects@[j]).0
    }

    /// Well-formed: ids are unique, and every page is a distinct stored object.
    pub open spec fn wf(&self) -> bool {
        &&& self.unique_ids()
        &&& forall|p: int| 0 <= p < self.pages.len() ==> self.has(#[trigger] self.pages@[p])
        &&& forall|p: int, q: int|
            0 <= p < self.pages.len() && 0 <= q < self.pages.len() && p != q
                ==> (#[trigger] self.pages@[p]) != (#[trigger] self.pages@[q])
    }

    /// A store built by allocation: the object at position `j` has id `j + 1`,
    /// generation 0, and every id fits the 32-bit object number.
    pub open spec fn sequential(&self) -> bool {
        &&& self.objects.len() <= u32::MAX
        &&& forall|j: int| 0 <= j < self.objects.len() ==> (#[trigger] self.objects@[j]).0 == seq_id(j)
    }

    /// `id` names a slot of a sequential store.
    pub open spec fn slot(&self, id: ObjectId) -> bool {
        id.gen == 0 && 1 <= id.num <= self.objects.len()
    }

    /// The object held in the slot of a sequential store.
    pub open spec fn at(&self, id: ObjectId) -> Object {
        self.objects@[id.num - 1].1
    }

    pub proof fn lemma_get(&self, i: int)
        requires
            self.unique_ids(),
            0 <= i < self.objects.len(),
        ensures
            self.has(self.objects@[i].0),
            self.get(self.objects@[i].0) == self.objects@[i].1,
    {
        let id = self.objects@[i].0;
        assert(self.has(id));
        let j = choose|j: int| 0 <= j < self.objects.len() && (#[trigger] self.objects@[j]).0 == id;
        assert(i == j);
    }

    pub proof fn lemma_sequential(&self, id: ObjectId)
        requires
            self.sequential(),
        ensures
            self.unique_ids(),
            self.has(id) <==> self.slot(id),
            self.slot(id) ==> self.get(id) == self.at(id),
    {
        if self.has(id) {
            let i = choose|i: int| 0 <= i < self.objects.len() && (#[trigger] self.objects@[i]).0 == id;
            assert(self.objects@[i].0 == seq_id(i));
        }
        if self.slot(id) {
            let i = id.num - 1;
            assert(self.objects@[i].0 == seq_id(i));
            assert(self.has(id));
        }
        assert forall|i: int, j: int|
            0 <= i < self.objects.len() && 0 <= j < self.objects.len() && i != j
                implies (#[trigger] self.objects@[i]).0 != (#[trigger] self.objects@[j]).0 by {
            assert(self.objects@[i].0 == seq_id(i));
            assert(self.objects@[j].0 == seq_id(j));
        }
        if self.slot(id) {
            self.lemma_get(id.num - 1);
        }
    }

    /// An empty document, the start of a sequential store.
    pub fn new_empty() -> (r: Document)
        ensures
            r.objects@.len() == 0,
            r.trailer@.len() == 0,
            r.pages@.len() == 0,
            r.sequential(),
    {
        Document { objects: Vec::new(), trailer: Vec::new(), pages: Vec::new() }
    }

    /// Allocates the next id of a sequential store, holding `Null` until
    /// its object is written.
    pub fn reserve(&mut self) -> (id: ObjectId)
        requires
            old(self).sequential(),
            old(self).objects.len() < u32::MAX,
        ensures
            final(self).sequential(),
            id == seq_id(old(self).objects.len() as int),
            final(self).objects@ == old(self).objects@.push((id, Object::Null)),
            final(self).trailer == old(self).trailer,
            final(self).pages == old(self).pages,
    {
        let id = ObjectId { num: (self.objects.len() + 1) as u32, gen: 0 };
        self.objects.push((id, Object::Null));
        id
    }

    /// Writes `o` into the slot `id` of a sequential store.
    pub fn put(&mut self, id: ObjectId, o: Object)
        requires
            old(self).sequential(),
            old(self).slot(id),
        ensures
            final(self).sequential(),
            final(self).objects@ == old(self).objects@.update(id.num - 1, (id, o)),
            final(self).at(id) == o,
            final(self).trailer == old(self).trailer,
            final(self).pages == old(self).pages,
    {
        let j = (id.num - 1) as usize;
        proof {
            assert(self.objects@[j as int].0 == seq_id(j as int));
        }
        self.objects.set(j, (id, o));
        proof {
            assert forall|k: int| 0 <= k < self.objects.len()
                implies (#[trigger] self.objects@[k]).0 == seq_id(k) by {
                if k != j {
                    assert(self.objects@[k] == old(self).objects@[k]);
                }
            }
        }
    }
}

} // verus!
