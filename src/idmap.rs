use vstd::prelude::*;
use std::collections::HashMap;
use crate::document::Document;
use crate::object::{Object, ObjectId};

verus! {

broadcast use vstd::std_specs::hash::group_hash_axioms;

/// The hash key of an id: its object number above its generation.
pub open spec fn id_key(k: ObjectId) -> u64 {
    (k.num as u64 * 65536 + k.gen as u64) as u64
}

proof fn lemma_id_key_injective(a: ObjectId, b: ObjectId)
    ensures
        id_key(a) == id_key(b) ==> a == b,
{
}

fn key_of(k: ObjectId) -> (r: u64)
    ensures
        r == id_key(k),
{
    k.num as u64 * 65536 + k.gen as u64
}

/// The table of one copy pass, from source ids to destination ids, held in
/// a hash map keyed by `id_key`.
pub struct IdMap {
    table: HashMap<u64, ObjectId>,
    ids: Ghost<Map<ObjectId, ObjectId>>,
}

impl View for IdMap {
    type V = Map<ObjectId, ObjectId>;

    closed spec fn view(&self) -> Map<ObjectId, ObjectId> {
        self.ids@
    }
}

impl IdMap {
    /// The hash map holds exactly the table, under the keys of its ids.
    pub closed spec fn wf(&self) -> bool {
        forall|k: ObjectId|
            (#[trigger] self.ids@.contains_key(k) <==> self.table@.contains_key(id_key(k)))
                && (self.ids@.contains_key(k) ==> self.table@[id_key(k)] == self.ids@[k])
    }

    pub fn new() -> (r: IdMap)
        ensures
            r.wf(),
            r@ == Map::<ObjectId, ObjectId>::empty(),
    {
        IdMap { table: HashMap::new(), ids: Ghost(Map::empty()) }
    }

    pub fn get(&self, k: ObjectId) -> (r: Option<ObjectId>)
        requires
            self.wf(),
        ensures
            r is Some <==> self@.contains_key(k),
            r is Some ==> r->0 == self@[k],
    {
        let key = key_of(k);
        assert(self.ids@.contains_key(k) <==> self.table@.contains_key(id_key(k)));
        match self.table.get(&key) {
            Some(v) => Some(*v),
            None => None,
        }
    }

    pub fn insert(&mut self, k: ObjectId, v: ObjectId)
        requires
            old(self).wf(),
            !old(self)@.contains_key(k),
        ensures
            final(self).wf(),
            final(self)@ == old(self)@.insert(k, v),
    {
        let key = key_of(k);
        self.table.insert(key, v);
        self.ids = Ghost(self.ids@.insert(k, v));
        proof {
            assert forall|j: ObjectId|
                (#[trigger] self.ids@.contains_key(j) <==> self.table@.contains_key(id_key(j)))
                    && (self.ids@.contains_key(j) ==> self.table@[id_key(j)] == self.ids@[j]) by {
                lemma_id_key_injective(j, k);
                assert(old(self).ids@.contains_key(j) <==> old(self).table@.contains_key(id_key(j)));
            }
        }
    }
}

/// A hash index of a source store: where each stored id sits.
pub struct StoreIndex {
    slots: HashMap<u64, usize>,
}

impl StoreIndex {
    /// The index locates exactly the ids that `src` stores.
    pub closed spec fn indexes(&self, src: Document) -> bool {
        forall|k: ObjectId|
            (#[trigger] src.has(k) <==> self.slots@.contains_key(id_key(k)))
                && (self.slots@.contains_key(id_key(k)) ==> {
                let i = self.slots@[id_key(k)] as int;
                0 <= i < src.objects.len() && src.objects@[i].0 == k
            })
    }

    /// Indexes a store whose ids are unique.
    pub fn build(src: &Document) -> (r: StoreIndex)
        requires
            src.unique_ids(),
        ensures
            r.indexes(*src),
    {
        let mut slots: HashMap<u64, usize> = HashMap::new();
        let mut i: usize = 0;
        while i < src.objects.len()
            invariant
                i <= src.objects.len(),
                forall|k: ObjectId|
                    (#[trigger] slots@.contains_key(id_key(k)) <==> exists|t: int| 0 <= t < i && src.objects@[t].0 == k)
                        && (slots@.contains_key(id_key(k)) ==> {
                        let t = slots@[id_key(k)] as int;
                        0 <= t < i && src.objects@[t].0 == k
                    }),
            decreases src.objects.len() - i,
        {
            let id = src.objects[i].0;
            slots.insert(key_of(id), i);
            proof {
                assert forall|k: ObjectId|
                    (#[trigger] slots@.contains_key(id_key(k)) <==> exists|t: int| 0 <= t < i + 1 && src.objects@[t].0 == k)
                        && (slots@.contains_key(id_key(k)) ==> {
                        let t = slots@[id_key(k)] as int;
                        0 <= t < i + 1 && src.objects@[t].0 == k
                    }) by {
                    lemma_id_key_injective(k, id);
                    if k == id {
                        assert(src.objects@[i as int].0 == k);
                    }
                }
            }
            i += 1;
        }
        proof {
            assert forall|k: ObjectId| #[trigger] src.has(k) <==> slots@.contains_key(id_key(k)) by {
                if src.has(k) {
                    let t = choose|t: int| 0 <= t < src.objects.len() && (#[trigger] src.objects@[t]).0 == k;
                    assert(src.objects@[t].0 == k);
                }
            }
        }
        StoreIndex { slots }
    }

    /// The object that `src` stores under `id`, if any.
    pub fn lookup<'a>(&self, src: &'a Document, id: ObjectId) -> (r: Option<&'a Object>)
        requires
            src.unique_ids(),
            self.indexes(*src),
        ensures
            r is Some <==> src.has(id),
            r is Some ==> *r->0 == src.get(id),
    {
        let key = key_of(id);
        assert(src.has(id) <==> self.slots@.contains_key(id_key(id)));
        match self.slots.get(&key) {
            Some(i) => {
                proof {
                    src.lemma_get(*i as int);
                }
                Some(&src.objects[*i].1)
            },
            None => None,
        }
    }
}

} // verus!
