use vstd::prelude::*;
use crate::document::{seq_id, Document};
use crate::idmap::{IdMap, StoreIndex};
use crate::object::{copy_bytes, Entry, Object, ObjectId};

verus! {

broadcast use vstd::std_specs::vec::group_vec_axioms;

/// `x` is the copy of the source value `o` under the id table `m`: the same
/// shape and leaves, each reference to a mapped id redirected to its
/// destination id, and each reference that the source cannot resolve
/// replaced by `Null`.
pub open spec fn is_image(x: Object, o: Object, src: Document, m: Map<ObjectId, ObjectId>) -> bool
    decreases o,
{
    match o {
        Object::Reference(id) => if m.contains_key(id) {
            x == Object::Reference(m[id])
        } else {
            !src.has(id) && x is Null
        },
        Object::Array(a) => x is Array && x->Array_0.len() == a.len() && forall|i: int|
            0 <= i < a.len() ==> is_image(#[trigger] x->Array_0[i], a[i], src, m),
        Object::Dictionary(d) => x is Dictionary && x->Dictionary_0.len() == d.len() && forall|i: int|
            0 <= i < d.len() ==> (#[trigger] x->Dictionary_0[i]).0@ == d[i].0@ && is_image(
                x->Dictionary_0[i].1,
                d[i].1,
                src,
                m,
            ),
        Object::Stream(d, c) => x is Stream && x->Stream_1@ == c@ && x->Stream_0.len() == d.len()
            && forall|i: int|
            0 <= i < d.len() ==> (#[trigger] x->Stream_0[i]).0@ == d[i].0@ && is_image(
                x->Stream_0[i].1,
                d[i].1,
                src,
                m,
            ),
        Object::Name(n) => x is Name && x->Name_0@ == n@,
        Object::String(s, f) => x is String && x->String_0@ == s@ && x->String_1 == f,
        _ => x == o,
    }
}

/// `o` holds a reference to `k`, at any depth of arrays, dictionaries and
/// streams.
pub open spec fn mentions(o: Object, k: ObjectId) -> bool
    decreases o,
{
    match o {
        Object::Reference(id) => id == k,
        Object::Array(a) => exists|i: int| 0 <= i < a.len() && mentions(#[trigger] a[i], k),
        Object::Dictionary(d) => exists|i: int| 0 <= i < d.len() && mentions((#[trigger] d[i]).1, k),
        Object::Stream(d, c) => exists|i: int| 0 <= i < d.len() && mentions((#[trigger] d[i]).1, k),
        _ => false,
    }
}

/// `k` is referenced by the source object of an id that `m1` maps and `m0`
/// does not, to a lower slot than `k`'s.
pub open spec fn has_earlier(src: Document, m0: Map<ObjectId, ObjectId>, m1: Map<ObjectId, ObjectId>, k: ObjectId) -> bool {
    exists|k2: ObjectId|
        #[trigger] m1.contains_key(k2) && !m0.contains_key(k2) && m1[k2].num < m1[k].num && mentions(src.get(k2), k)
}

/// The step from `m0` to `m1` mapped only what `o` reaches: each newly
/// mapped id is referenced by `o` or by an object mapped before it.
pub open spec fn reached_from(src: Document, o: Object, m0: Map<ObjectId, ObjectId>, m1: Map<ObjectId, ObjectId>) -> bool {
    forall|k: ObjectId| #[trigger] m1.contains_key(k) && !m0.contains_key(k) ==> mentions(o, k) || has_earlier(src, m0, m1, k)
}

/// `has_earlier` survives a smaller start and a larger end of the step.
pub proof fn lemma_earlier_widen(
    src: Document,
    m0: Map<ObjectId, ObjectId>,
    m1: Map<ObjectId, ObjectId>,
    m2: Map<ObjectId, ObjectId>,
    m3: Map<ObjectId, ObjectId>,
    k: ObjectId,
)
    requires
        has_earlier(src, m1, m2, k),
        forall|j: ObjectId| #[trigger] m0.contains_key(j) ==> m1.contains_key(j),
        forall|j: ObjectId| #[trigger] m2.contains_key(j) ==> m3.contains_key(j) && m3[j] == m2[j],
        m2.contains_key(k),
    ensures
        has_earlier(src, m0, m3, k),
{
    let k2 = choose|k2: ObjectId|
        #[trigger] m2.contains_key(k2) && !m1.contains_key(k2) && m2[k2].num < m2[k].num && mentions(src.get(k2), k);
    assert(m3.contains_key(k2) && !m0.contains_key(k2) && m3[k2].num < m3[k].num && mentions(src.get(k2), k));
}

/// How many entries of a source store hold an id that `m` has not mapped yet.
pub open spec fn unmapped(s: Seq<(ObjectId, Object)>, m: Map<ObjectId, ObjectId>) -> nat
    decreases s.len(),
{
    if s.len() == 0 {
        0
    } else {
        unmapped(s.drop_last(), m) + if m.contains_key(s.last().0) {
            0nat
        } else {
            1nat
        }
    }
}

/// An id table of a copy pass from `src` into the sequential store `dst`:
/// it maps source ids only, into slots of `dst`, and never two ids to one slot.
pub open spec fn table_ok(src: Document, dst: Document, m: Map<ObjectId, ObjectId>) -> bool {
    &&& forall|k: ObjectId| #[trigger] m.contains_key(k) ==> src.has(k) && dst.slot(m[k])
    &&& forall|k1: ObjectId, k2: ObjectId|
        #[trigger] m.contains_key(k1) && #[trigger] m.contains_key(k2) && k1 != k2 ==> m[k1] != m[k2]
}

/// Slot `j` is the destination of a source id that `m1` maps and `m0` does not.
pub open spec fn new_slot_of(m0: Map<ObjectId, ObjectId>, m1: Map<ObjectId, ObjectId>, j: int) -> bool {
    exists|k: ObjectId| #[trigger] m1.contains_key(k) && !m0.contains_key(k) && m1[k] == seq_id(j)
}

/// What one copy step from table `m0` and store `d0` to `m1` and `d1` did:
/// the old mappings and the old slots stay; every newly mapped source id has
/// a new slot holding the copy of its object; every new slot belongs to a
/// newly mapped id; and the store grew by no more than the source ids newly
/// mapped.
pub open spec fn copy_step(
    src: Document,
    m0: Map<ObjectId, ObjectId>,
    m1: Map<ObjectId, ObjectId>,
    d0: Seq<(ObjectId, Object)>,
    d1: Seq<(ObjectId, Object)>,
) -> bool {
    &&& forall|k: ObjectId| #[trigger] m0.contains_key(k) ==> m1.contains_key(k) && m1[k] == m0[k]
    &&& d0.len() <= d1.len()
    &&& forall|j: int| 0 <= j < d0.len() ==> #[trigger] d1[j] == d0[j]
    &&& forall|k: ObjectId| #[trigger] m1.contains_key(k) && !m0.contains_key(k) ==> {
        &&& d0.len() < m1[k].num <= d1.len()
        &&& is_image(d1[m1[k].num - 1].1, src.get(k), src, m1)
    }
    &&& forall|j: int| d0.len() <= j < d1.len() ==> #[trigger] new_slot_of(m0, m1, j)
    &&& d1.len() + unmapped(src.objects@, m1) <= d0.len() + unmapped(src.objects@, m0)
}

pub proof fn lemma_unmapped_grow(
    s: Seq<(ObjectId, Object)>,
    m: Map<ObjectId, ObjectId>,
    m2: Map<ObjectId, ObjectId>,
)
    requires
        m.dom().subset_of(m2.dom()),
    ensures
        unmapped(s, m2) <= unmapped(s, m),
    decreases s.len(),
{
    if s.len() > 0 {
        lemma_unmapped_grow(s.drop_last(), m, m2);
    }
}

pub proof fn lemma_unmapped_empty(s: Seq<(ObjectId, Object)>)
    ensures
        unmapped(s, Map::empty()) == s.len(),
    decreases s.len(),
{
    if s.len() > 0 {
        lemma_unmapped_empty(s.drop_last());
    }
}

pub proof fn lemma_unmapped_strict(
    s: Seq<(ObjectId, Object)>,
    m: Map<ObjectId, ObjectId>,
    m2: Map<ObjectId, ObjectId>,
    i: int,
)
    requires
        m.dom().subset_of(m2.dom()),
        0 <= i < s.len(),
        !m.contains_key(s[i].0),
        m2.contains_key(s[i].0),
    ensures
        unmapped(s, m2) < unmapped(s, m),
    decreases s.len(),
{
    if i == s.len() - 1 {
        lemma_unmapped_grow(s.drop_last(), m, m2);
    } else {
        assert(s.drop_last()[i] == s[i]);
        lemma_unmapped_strict(s.drop_last(), m, m2, i);
    }
}

/// A copy stays a copy when the table grows by source ids only.
pub proof fn lemma_image_grow(
    x: Object,
    o: Object,
    src: Document,
    m: Map<ObjectId, ObjectId>,
    m2: Map<ObjectId, ObjectId>,
)
    requires
        is_image(x, o, src, m),
        forall|k: ObjectId| #[trigger] m.contains_key(k) ==> m2.contains_key(k) && m2[k] == m[k],
        forall|k: ObjectId| #[trigger] m2.contains_key(k) ==> src.has(k),
    ensures
        is_image(x, o, src, m2),
    decreases o,
{
    match o {
        Object::Array(a) => {
            assert forall|i: int| 0 <= i < a.len() implies is_image(
                #[trigger] x->Array_0[i],
                a[i],
                src,
                m2,
            ) by {
                lemma_image_grow(x->Array_0[i], a[i], src, m, m2);
            }
        },
        Object::Dictionary(d) => {
            assert forall|i: int| 0 <= i < d.len() implies is_image(
                (#[trigger] x->Dictionary_0[i]).1,
                d[i].1,
                src,
                m2,
            ) by {
                lemma_image_grow(x->Dictionary_0[i].1, d[i].1, src, m, m2);
            }
        },
        Object::Stream(d, c) => {
            assert forall|i: int| 0 <= i < d.len() implies is_image(
                (#[trigger] x->Stream_0[i]).1,
                d[i].1,
                src,
                m2,
            ) by {
                lemma_image_grow(x->Stream_0[i].1, d[i].1, src, m, m2);
            }
        },
        _ => {},
    }
}

pub proof fn lemma_step_refl(src: Document, m: Map<ObjectId, ObjectId>, d: Seq<(ObjectId, Object)>)
    ensures
        copy_step(src, m, m, d, d),
{
}

pub proof fn lemma_step_trans(
    src: Document,
    m0: Map<ObjectId, ObjectId>,
    m1: Map<ObjectId, ObjectId>,
    m2: Map<ObjectId, ObjectId>,
    d0: Seq<(ObjectId, Object)>,
    d1: Seq<(ObjectId, Object)>,
    d2: Seq<(ObjectId, Object)>,
)
    requires
        copy_step(src, m0, m1, d0, d1),
        copy_step(src, m1, m2, d1, d2),
        forall|k: ObjectId| #[trigger] m2.contains_key(k) ==> src.has(k),
    ensures
        copy_step(src, m0, m2, d0, d2),
{
    assert forall|k: ObjectId| #[trigger] m2.contains_key(k) && !m0.contains_key(k) implies {
        &&& d0.len() < m2[k].num <= d2.len()
        &&& is_image(d2[m2[k].num - 1].1, src.get(k), src, m2)
    } by {
        if m1.contains_key(k) {
            let j = m1[k].num - 1;
            assert(d2[j] == d1[j]);
            lemma_image_grow(d1[j].1, src.get(k), src, m1, m2);
        }
    }
    assert forall|j: int| 0 <= j < d0.len() implies #[trigger] d2[j] == d0[j] by {
        assert(d2[j] == d1[j]);
    }
    assert forall|j: int| d0.len() <= j < d2.len() implies #[trigger] new_slot_of(m0, m2, j) by {
        if j < d1.len() {
            assert(new_slot_of(m0, m1, j));
            let k = choose|k: ObjectId| #[trigger] m1.contains_key(k) && !m0.contains_key(k) && m1[k] == seq_id(j);
            assert(m2.contains_key(k) && !m0.contains_key(k) && m2[k] == seq_id(j));
        } else {
            assert(new_slot_of(m1, m2, j));
            let k = choose|k: ObjectId| #[trigger] m2.contains_key(k) && !m1.contains_key(k) && m2[k] == seq_id(j);
            assert(m2.contains_key(k) && !m0.contains_key(k) && m2[k] == seq_id(j));
        }
    }
    assert(forall|k: ObjectId| #[trigger] m0.contains_key(k) ==> m2.contains_key(k) && m2[k] == m0[k]);
    assert(d2.len() + unmapped(src.objects@, m2) <= d0.len() + unmapped(src.objects@, m0));
}

/// Copies a leaf value (one that holds no reference) by value.
fn copy_leaf(o: &Object) -> (r: Object)
    requires
        !(o is Reference || o is Array || o is Dictionary || o is Stream),
    ensures
        forall|src: Document, m: Map<ObjectId, ObjectId>| is_image(r, *o, src, m),
{
    match o {
        Object::Null => Object::Null,
        Object::Boolean(b) => Object::Boolean(*b),
        Object::Integer(i) => Object::Integer(*i),
        Object::Real(bits) => Object::Real(*bits),
        Object::Name(n) => Object::Name(copy_bytes(n)),
        Object::String(s, f) => Object::String(copy_bytes(s), *f),
        _ => Object::Null,
    }
}

/// Deep-copies the value `o` of `src` into the store `dst` under the id table
/// `ids` of the current copy pass.
///
/// A reference whose id is already in the table becomes a reference to the
/// mapped id, without copying again. Otherwise the referenced object is
/// looked up: if `src` has none, the reference becomes `Null`; if it has
/// one, a new id is allocated in `dst` and entered in the table before the
/// object is copied, so that a cycle leading back to it finds the mapping
/// and stops. Arrays, dictionaries and streams are copied element by
/// element, keys and order kept, stream bytes verbatim.
pub fn copy_object(src: &Document, index: &StoreIndex, o: &Object, ids: &mut IdMap, dst: &mut Document) -> (r: Object)
    requires
        src.unique_ids(),
        index.indexes(*src),
        old(ids).wf(),
        old(dst).sequential(),
        table_ok(*src, *old(dst), old(ids)@),
        old(dst).objects.len() + unmapped(src.objects@, old(ids)@) <= u32::MAX,
    ensures
        final(ids).wf(),
        final(dst).sequential(),
        table_ok(*src, *final(dst), final(ids)@),
        copy_step(*src, old(ids)@, final(ids)@, old(dst).objects@, final(dst).objects@),
        is_image(r, *o, *src, final(ids)@),
        reached_from(*src, *o, old(ids)@, final(ids)@),
        final(dst).trailer == old(dst).trailer,
        final(dst).pages == old(dst).pages,
    decreases unmapped(src.objects@, old(ids)@), *o,
{
    match o {
        Object::Reference(id) => {
            match ids.get(*id) {
                Some(n) => Object::Reference(n),
                None => {
                    match index.lookup(src, *id) {
                        None => Object::Null,
                        Some(target) => {
                            let ghost m0 = ids@;
                            let ghost d0 = dst.objects@;
                            let ghost i = choose|i: int|
                                0 <= i < src.objects.len() && (#[trigger] src.objects@[i]).0 == *id;
                            proof {
                                lemma_unmapped_strict(src.objects@, m0, m0.insert(*id, seq_id(d0.len() as int)), i);
                            }
                            let n = dst.reserve();
                            ids.insert(*id, n);
                            let ghost m1 = ids@;
                            let ghost d1 = dst.objects@;
                            proof {
                                assert forall|k: ObjectId| #[trigger] m1.contains_key(k)
                                    implies src.has(k) && dst.slot(m1[k]) by {
                                    if k != *id {
                                        assert(m0.contains_key(k));
                                    }
                                }
                                assert forall|k1: ObjectId, k2: ObjectId|
                                    #[trigger] m1.contains_key(k1) && #[trigger] m1.contains_key(k2) && k1 != k2
                                        implies m1[k1] != m1[k2] by {
                                    if k1 != *id && k2 != *id {
                                        assert(m0.contains_key(k1) && m0.contains_key(k2));
                                    } else if k1 == *id {
                                        assert(m0.contains_key(k2));
                                    } else {
                                        assert(m0.contains_key(k1));
                                    }
                                }
                            }
                            let c = copy_object(src, index, target, ids, dst);
                            let ghost m2 = ids@;
                            let ghost d2 = dst.objects@;
                            dst.put(n, c);
                            proof {
                                let d3 = dst.objects@;
                                let base = d0.len() as int;
                                assert(d2[base] == d1[base]);
                                assert forall|j: int| 0 <= j < d0.len() implies #[trigger] d3[j] == d0[j] by {
                                    assert(d2[j] == d1[j]);
                                }
                                assert forall|k: ObjectId| #[trigger] m2.contains_key(k) && !m0.contains_key(k) implies {
                                    &&& d0.len() < m2[k].num <= d3.len()
                                    &&& is_image(d3[m2[k].num - 1].1, src.get(k), *src, m2)
                                } by {
                                    if k != *id {
                                        assert(m2.contains_key(k) && !m1.contains_key(k));
                                        assert(d3[m2[k].num - 1] == d2[m2[k].num - 1]);
                                    }
                                }
                                assert forall|j: int| d0.len() <= j < d3.len() implies #[trigger] new_slot_of(m0, m2, j) by {
                                    if j == base {
                                        assert(m1.contains_key(*id) && m1[*id] == n);
                                        assert(m2.contains_key(*id) && !m0.contains_key(*id) && m2[*id] == seq_id(j));
                                    } else {
                                        assert(new_slot_of(m1, m2, j));
                                        let k = choose|k: ObjectId| #[trigger] m2.contains_key(k) && !m1.contains_key(k) && m2[k] == seq_id(j);
                                        assert(m2.contains_key(k) && !m0.contains_key(k) && m2[k] == seq_id(j));
                                    }
                                }
                                assert forall|k: ObjectId| #[trigger] m0.contains_key(k)
                                    implies m2.contains_key(k) && m2[k] == m0[k] by {
                                    assert(m1.contains_key(k));
                                }
                                assert forall|k: ObjectId| #[trigger] m2.contains_key(k) && !m0.contains_key(k)
                                    implies mentions(*o, k) || has_earlier(*src, m0, m2, k) by {
                                    if k != *id {
                                        assert(m2.contains_key(k) && !m1.contains_key(k));
                                        assert(m1.contains_key(*id) && m1[*id] == n);
                                        if mentions(*target, k) {
                                            assert(m2.contains_key(*id) && !m0.contains_key(*id) && m2[*id].num < m2[k].num
                                                && mentions(src.get(*id), k));
                                        } else {
                                            lemma_earlier_widen(*src, m0, m1, m2, m2, k);
                                        }
                                    }
                                }
                            }
                            Object::Reference(n)
                        },
                    }
                },
            }
        },
        Object::Array(a) => Object::Array(copy_array(src, index, a, ids, dst)),
        Object::Dictionary(d) => {
            let e = copy_entries(src, index, d, ids, dst);
            Object::Dictionary(e)
        },
        Object::Stream(d, content) => {
            let e = copy_entries(src, index, d, ids, dst);
            Object::Stream(e, copy_bytes(content))
        },
        _ => {
            proof {
                lemma_step_refl(*src, ids@, dst.objects@);
            }
            copy_leaf(o)
        },
    }
}

/// Deep-copies the elements of an array, order kept; see `copy_object`.
pub fn copy_array(src: &Document, index: &StoreIndex, a: &Vec<Object>, ids: &mut IdMap, dst: &mut Document) -> (r: Vec<Object>)
    requires
        src.unique_ids(),
        index.indexes(*src),
        old(ids).wf(),
        old(dst).sequential(),
        table_ok(*src, *old(dst), old(ids)@),
        old(dst).objects.len() + unmapped(src.objects@, old(ids)@) <= u32::MAX,
    ensures
        final(ids).wf(),
        final(dst).sequential(),
        table_ok(*src, *final(dst), final(ids)@),
        copy_step(*src, old(ids)@, final(ids)@, old(dst).objects@, final(dst).objects@),
        is_image(Object::Array(r), Object::Array(*a), *src, final(ids)@),
        reached_from(*src, Object::Array(*a), old(ids)@, final(ids)@),
        final(dst).trailer == old(dst).trailer,
        final(dst).pages == old(dst).pages,
    decreases unmapped(src.objects@, old(ids)@), *a,
{
    let mut out: Vec<Object> = Vec::new();
    let mut i: usize = 0;
    proof {
        lemma_step_refl(*src, ids@, dst.objects@);
    }
    while i < a.len()
        invariant
            src.unique_ids(),
            index.indexes(*src),
            ids.wf(),
            dst.sequential(),
            table_ok(*src, *dst, ids@),
            copy_step(*src, old(ids)@, ids@, old(dst).objects@, dst.objects@),
            old(dst).objects.len() + unmapped(src.objects@, old(ids)@) <= u32::MAX,
            dst.trailer == old(dst).trailer,
            dst.pages == old(dst).pages,
            i <= a.len(),
            out.len() == i,
            forall|j: int| 0 <= j < i ==> is_image(#[trigger] out[j], a[j], *src, ids@),
            forall|k: ObjectId| #[trigger] ids@.contains_key(k) && !old(ids)@.contains_key(k)
                ==> (exists|j: int| 0 <= j < i && mentions(#[trigger] a[j], k)) || has_earlier(*src, old(ids)@, ids@, k),
        decreases a.len() - i,
    {
        let ghost m1 = ids@;
        let ghost d1 = dst.objects@;
        let c = copy_object(src, index, &a[i], ids, dst);
        proof {
            lemma_step_trans(*src, old(ids)@, m1, ids@, old(dst).objects@, d1, dst.objects@);
            assert forall|k: ObjectId| #[trigger] ids@.contains_key(k) && !old(ids)@.contains_key(k)
                implies (exists|j: int| 0 <= j < i + 1 && mentions(#[trigger] a[j], k)) || has_earlier(*src, old(ids)@, ids@, k) by {
                if m1.contains_key(k) {
                    if has_earlier(*src, old(ids)@, m1, k) {
                        lemma_earlier_widen(*src, old(ids)@, old(ids)@, m1, ids@, k);
                    }
                } else if !mentions(a[i as int], k) {
                    lemma_earlier_widen(*src, old(ids)@, m1, ids@, ids@, k);
                }
            }
            assert forall|j: int| 0 <= j < i implies is_image(#[trigger] out[j], a[j], *src, ids@) by {
                lemma_image_grow(out[j], a[j], *src, m1, ids@);
            }
        }
        out.push(c);
        i += 1;
    }
    assert forall|k: ObjectId| #[trigger] ids@.contains_key(k) && !old(ids)@.contains_key(k)
        implies mentions(Object::Array(*a), k) || has_earlier(*src, old(ids)@, ids@, k) by {
        if exists|j: int| 0 <= j < a.len() && mentions(#[trigger] a[j], k) {
            let j = choose|j: int| 0 <= j < a.len() && mentions(#[trigger] a[j], k);
            assert(mentions(Object::Array(*a)->Array_0[j], k));
        }
    }
    out
}

/// Deep-copies the entries of a dictionary, keys and order kept; see
/// `copy_object`.
pub fn copy_entries(src: &Document, index: &StoreIndex, d: &Vec<Entry>, ids: &mut IdMap, dst: &mut Document) -> (r: Vec<Entry>)
    requires
        src.unique_ids(),
        index.indexes(*src),
        old(ids).wf(),
        old(dst).sequential(),
        table_ok(*src, *old(dst), old(ids)@),
        old(dst).objects.len() + unmapped(src.objects@, old(ids)@) <= u32::MAX,
    ensures
        final(ids).wf(),
        final(dst).sequential(),
        table_ok(*src, *final(dst), final(ids)@),
        copy_step(*src, old(ids)@, final(ids)@, old(dst).objects@, final(dst).objects@),
        is_image(Object::Dictionary(r), Object::Dictionary(*d), *src, final(ids)@),
        reached_from(*src, Object::Dictionary(*d), old(ids)@, final(ids)@),
        final(dst).trailer == old(dst).trailer,
        final(dst).pages == old(dst).pages,
    decreases unmapped(src.objects@, old(ids)@), *d,
{
    let mut out: Vec<Entry> = Vec::new();
    let mut i: usize = 0;
    proof {
        lemma_step_refl(*src, ids@, dst.objects@);
    }
    while i < d.len()
        invariant
            src.unique_ids(),
            index.indexes(*src),
            ids.wf(),
            dst.sequential(),
            table_ok(*src, *dst, ids@),
            copy_step(*src, old(ids)@, ids@, old(dst).objects@, dst.objects@),
            old(dst).objects.len() + unmapped(src.objects@, old(ids)@) <= u32::MAX,
            dst.trailer == old(dst).trailer,
            dst.pages == old(dst).pages,
            i <= d.len(),
            out.len() == i,
            forall|j: int| 0 <= j < i ==> (#[trigger] out[j]).0@ == d[j].0@ && is_image(out[j].1, d[j].1, *src, ids@),
            forall|k: ObjectId| #[trigger] ids@.contains_key(k) && !old(ids)@.contains_key(k)
                ==> (exists|j: int| 0 <= j < i && mentions((#[trigger] d[j]).1, k)) || has_earlier(*src, old(ids)@, ids@, k),
        decreases d.len() - i,
    {
        let ghost m1 = ids@;
        let ghost d1 = dst.objects@;
        let key = copy_bytes(&d[i].0);
        let c = copy_object(src, index, &d[i].1, ids, dst);
        proof {
            lemma_step_trans(*src, old(ids)@, m1, ids@, old(dst).objects@, d1, dst.objects@);
            assert forall|k: ObjectId| #[trigger] ids@.contains_key(k) && !old(ids)@.contains_key(k)
                implies (exists|j: int| 0 <= j < i + 1 && mentions((#[trigger] d[j]).1, k)) || has_earlier(*src, old(ids)@, ids@, k) by {
                if m1.contains_key(k) {
                    if has_earlier(*src, old(ids)@, m1, k) {
                        lemma_earlier_widen(*src, old(ids)@, old(ids)@, m1, ids@, k);
                    }
                } else if !mentions(d[i as int].1, k) {
                    lemma_earlier_widen(*src, old(ids)@, m1, ids@, ids@, k);
                }
            }
            assert forall|j: int| 0 <= j < i implies (#[trigger] out[j]).0@ == d[j].0@ && is_image(out[j].1, d[j].1, *src, ids@) by {
                lemma_image_grow(out[j].1, d[j].1, *src, m1, ids@);
            }
        }
        out.push((key, c));
        i += 1;
    }
    out
}

} // verus!
