use vstd::prelude::*;
use crate::copier::{
    copy_object, copy_step, has_earlier, is_image, lemma_earlier_widen, lemma_image_grow,
    lemma_step_refl, lemma_unmapped_empty, lemma_unmapped_strict, mentions, new_slot_of,
    reached_from, table_ok, unmapped,
};
use crate::document::{seq_id, Document};
use crate::idmap::{IdMap, StoreIndex};
use crate::names::{parent_key, parent_name, same_name};
use crate::object::{copy_bytes, Entry, Object, ObjectId};

verus! {

broadcast use vstd::std_specs::vec::group_vec_axioms;

/// Some entry of `d` has the key `k`.
pub open spec fn has_key(d: Seq<Entry>, k: Seq<u8>) -> bool {
    exists|i: int| 0 <= i < d.len() && (#[trigger] d[i]).0@ == k
}

/// `x` is the copy of the page object `o` under `m`, attached to the page
/// tree node `pages_id`: a page dictionary keeps its keys in order, its
/// `Parent` entry (added at the end where it had none) refers to
/// `pages_id`, and every other value is copied as `is_image` says.
pub open spec fn is_page_image(
    x: Object,
    o: Object,
    src: Document,
    m: Map<ObjectId, ObjectId>,
    pages_id: ObjectId,
) -> bool {
    match o {
        Object::Dictionary(d) => x is Dictionary && {
            let e = x->Dictionary_0;
            &&& e.len() == d.len() + if has_key(d@, parent_name()) {
                0int
            } else {
                1int
            }
            &&& forall|i: int|
                0 <= i < d.len() ==> (#[trigger] e[i]).0@ == d[i].0@ && if d[i].0@ == parent_name() {
                    e[i].1 == Object::Reference(pages_id)
                } else {
                    is_image(e[i].1, d[i].1, src, m)
                }
            &&& !has_key(d@, parent_name()) ==> e[d.len() as int].0@ == parent_name()
                && e[d.len() as int].1 == Object::Reference(pages_id)
        },
        _ => is_image(x, o, src, m),
    }
}

pub proof fn lemma_page_image_grow(
    x: Object,
    o: Object,
    src: Document,
    m: Map<ObjectId, ObjectId>,
    m2: Map<ObjectId, ObjectId>,
    pages_id: ObjectId,
)
    requires
        is_page_image(x, o, src, m, pages_id),
        forall|k: ObjectId| #[trigger] m.contains_key(k) ==> m2.contains_key(k) && m2[k] == m[k],
        forall|k: ObjectId| #[trigger] m2.contains_key(k) ==> src.has(k),
    ensures
        is_page_image(x, o, src, m2, pages_id),
{
    match o {
        Object::Dictionary(d) => {
            let e = x->Dictionary_0;
            assert forall|i: int| 0 <= i < d.len() && d[i].0@ != parent_name() implies is_image(
                (#[trigger] e[i]).1,
                d[i].1,
                src,
                m2,
            ) by {
                lemma_image_grow(e[i].1, d[i].1, src, m, m2);
            }
        },
        _ => {
            lemma_image_grow(x, o, src, m, m2);
        },
    }
}

/// Copies a page object as `is_page_image` says: its `Parent` is pointed at
/// the new page tree node instead of being copied, and everything else is
/// deep-copied with `copy_object`.
pub fn copy_page_object(
    src: &Document,
    index: &StoreIndex,
    o: &Object,
    pages_id: ObjectId,
    ids: &mut IdMap,
    dst: &mut Document,
) -> (r: Object)
    requires
        src.unique_ids(),
        index.indexes(*src),
        old(ids).wf(),
        old(dst).sequential(),
        table_ok(*src, *old(dst), old(ids)@),
        old(dst).objects.len() + unmapped(src.objects@, old(ids)@) <= u32::MAX,
    ensures
        final(ids).wf(),
        final(dst).sequential(),
        table_ok(*src, *final(dst), final(ids)@),
        copy_step(*src, old(ids)@, final(ids)@, old(dst).objects@, final(dst).objects@),
        is_page_image(r, *o, *src, final(ids)@, pages_id),
        reached_from(*src, *o, old(ids)@, final(ids)@),
        final(dst).trailer == old(dst).trailer,
        final(dst).pages == old(dst).pages,
{
    match o {
        Object::Dictionary(d) => {
            let pk = parent_key();
            let mut out: Vec<Entry> = Vec::new();
            let mut seen = false;
            let mut i: usize = 0;
            proof {
                lemma_step_refl(*src, ids@, dst.objects@);
            }
            while i < d.len()
                invariant
                    src.unique_ids(),
                    index.indexes(*src),
                    ids.wf(),
                    dst.sequential(),
                    table_ok(*src, *dst, ids@),
                    copy_step(*src, old(ids)@, ids@, old(dst).objects@, dst.objects@),
                    old(dst).objects.len() + unmapped(src.objects@, old(ids)@) <= u32::MAX,
                    dst.trailer == old(dst).trailer,
                    dst.pages == old(dst).pages,
                    pk@ == parent_name(),
                    i <= d.len(),
                    out.len() == i,
                    seen == has_key(d@.subrange(0, i as int), parent_name()),
                    forall|j: int|
                        0 <= j < i ==> (#[trigger] out[j]).0@ == d[j].0@ && if d[j].0@ == parent_name() {
                            out[j].1 == Object::Reference(pages_id)
                        } else {
                            is_image(out[j].1, d[j].1, *src, ids@)
                        },
                    forall|k: ObjectId| #[trigger] ids@.contains_key(k) && !old(ids)@.contains_key(k)
                        ==> (exists|j: int| 0 <= j < i && mentions((#[trigger] d[j]).1, k)) || has_earlier(*src, old(ids)@, ids@, k),
                decreases d.len() - i,
            {
                let key = copy_bytes(&d[i].0);
                if same_name(&d[i].0, &pk) {
                    out.push((key, Object::Reference(pages_id)));
                    seen = true;
                    proof {
                        lemma_step_refl(*src, ids@, dst.objects@);
                        assert(d@.subrange(0, i + 1)[i as int] == d@[i as int]);
                    }
                } else {
                    let ghost m1 = ids@;
                    let ghost d1 = dst.objects@;
                    let c = copy_object(src, index, &d[i].1, ids, dst);
                    proof {
                        crate::copier::lemma_step_trans(*src, old(ids)@, m1, ids@, old(dst).objects@, d1, dst.objects@);
                        assert forall|j: int| 0 <= j < i && d[j].0@ != parent_name() implies is_image(
                            (#[trigger] out[j]).1,
                            d[j].1,
                            *src,
                            ids@,
                        ) by {
                            lemma_image_grow(out[j].1, d[j].1, *src, m1, ids@);
                        }
                        assert forall|k: ObjectId| #[trigger] ids@.contains_key(k) && !old(ids)@.contains_key(k)
                            implies (exists|j: int| 0 <= j < i + 1 && mentions((#[trigger] d[j]).1, k)) || has_earlier(*src, old(ids)@, ids@, k) by {
                            if m1.contains_key(k) {
                                if has_earlier(*src, old(ids)@, m1, k) {
                                    lemma_earlier_widen(*src, old(ids)@, old(ids)@, m1, ids@, k);
                                }
                            } else if !mentions(d[i as int].1, k) {
                                lemma_earlier_widen(*src, old(ids)@, m1, ids@, ids@, k);
                            }
                        }
                    }
                    out.push((key, c));
                }
                proof {
                    let s0 = d@.subrange(0, i as int);
                    let s1 = d@.subrange(0, i + 1);
                    if has_key(s1, parent_name()) && !seen {
                        let t = choose|t: int| 0 <= t < s1.len() && (#[trigger] s1[t]).0@ == parent_name();
                        assert(s0[t] == s1[t]);
                    }
                    if has_key(s0, parent_name()) {
                        let t = choose|t: int| 0 <= t < s0.len() && (#[trigger] s0[t]).0@ == parent_name();
                        assert(s0[t] == s1[t]);
                    }
                }
                i += 1;
            }
            assert(d@.subrange(0, d.len() as int) =~= d@);
            assert forall|k: ObjectId| #[trigger] ids@.contains_key(k) && !old(ids)@.contains_key(k)
                implies mentions(*o, k) || has_earlier(*src, old(ids)@, ids@, k) by {
                if exists|j: int| 0 <= j < d.len() && mentions((#[trigger] d[j]).1, k) {
                    let j = choose|j: int| 0 <= j < d.len() && mentions((#[trigger] d[j]).1, k);
                    assert(mentions(o->Dictionary_0[j].1, k));
                }
            }
            if !seen {
                out.push((pk, Object::Reference(pages_id)));
            }
            Object::Dictionary(out)
        },
        _ => copy_object(src, index, o, ids, dst),
    }
}

/// `out` holds the copies of the pages `sel` of `src`, and of everything
/// they reference, under the table `m` of one copy pass: pages as
/// `is_page_image` says, other objects as `is_image` says.
pub open spec fn scope_in(
    out: Document,
    src: Document,
    sel: Seq<ObjectId>,
    m: Map<ObjectId, ObjectId>,
    pages_id: ObjectId,
) -> bool {
    &&& table_ok(src, out, m)
    &&& forall|j: int| 0 <= j < sel.len() ==> m.contains_key(#[trigger] sel[j])
    &&& forall|k: ObjectId| #[trigger] m.contains_key(k) ==> if sel.contains(k) {
        is_page_image(out.at(m[k]), src.get(k), src, m, pages_id)
    } else {
        is_image(out.at(m[k]), src.get(k), src, m)
    }
}

/// A copy pass survives changes of `out` that leave the slots of its
/// table alone.
pub proof fn lemma_scope_frame(
    out: Document,
    out2: Document,
    src: Document,
    sel: Seq<ObjectId>,
    m: Map<ObjectId, ObjectId>,
    pages_id: ObjectId,
)
    requires
        scope_in(out, src, sel, m, pages_id),
        out.objects.len() <= out2.objects.len(),
        forall|k: ObjectId| #[trigger] m.contains_key(k) ==> out2.at(m[k]) == out.at(m[k]),
    ensures
        scope_in(out2, src, sel, m, pages_id),
{
}

/// The ids in `sel` are distinct, and each names an object of `src`.
pub open spec fn valid_selection(src: Document, sel: Seq<ObjectId>) -> bool {
    &&& forall|j: int| 0 <= j < sel.len() ==> src.has(#[trigger] sel[j])
    &&& forall|i: int, j: int| 0 <= i < sel.len() && 0 <= j < sel.len() && i != j ==> #[trigger] sel[i] != #[trigger] sel[j]
}

/// Copies the pages `sel` of `src` into `dst` in one copy pass with a table
/// of its own, and returns their new ids in the order of `sel`.
///
/// Each page gets its id, and its entry in the table, before any page is
/// copied, so that references between the selected pages land on the
/// copies. Every page's `Parent` refers to `pages_id`.
pub fn copy_pages(src: &Document, index: &StoreIndex, sel: &Vec<ObjectId>, pages_id: ObjectId, dst: &mut Document) -> (kids: Vec<ObjectId>)
    requires
        src.unique_ids(),
        index.indexes(*src),
        valid_selection(*src, sel@),
        old(dst).sequential(),
        old(dst).objects.len() + src.objects.len() <= u32::MAX,
    ensures
        final(dst).sequential(),
        final(dst).trailer == old(dst).trailer,
        final(dst).pages == old(dst).pages,
        kids.len() == sel.len(),
        forall|j: int| 0 <= j < kids.len() ==> #[trigger] kids@[j] == seq_id(old(dst).objects.len() + j),
        old(dst).objects.len() + kids.len() <= final(dst).objects.len() <= old(dst).objects.len() + src.objects.len(),
        forall|j: int| 0 <= j < old(dst).objects.len() ==> #[trigger] final(dst).objects@[j] == old(dst).objects@[j],
        exists|m: Map<ObjectId, ObjectId>| {
            &&& scope_in(*final(dst), *src, sel@, m, pages_id)
            &&& forall|j: int| 0 <= j < sel.len() ==> m[#[trigger] sel@[j]] == kids@[j]
            &&& forall|k: ObjectId| #[trigger] m.contains_key(k) ==> old(dst).objects.len() < m[k].num
            &&& forall|j: int| old(dst).objects.len() <= j < final(dst).objects.len() ==> #[trigger] new_slot_of(Map::empty(), m, j)
            &&& forall|k: ObjectId| #[trigger] m.contains_key(k) ==> sel@.contains(k) || has_earlier(*src, Map::empty(), m, k)
        },
{
    let ghost d0 = dst.objects@;
    let ghost base = d0.len() as int;
    let mut ids = IdMap::new();
    let mut kids: Vec<ObjectId> = Vec::new();
    let mut i: usize = 0;
    proof {
        lemma_unmapped_empty(src.objects@);
    }
    while i < sel.len()
        invariant
            src.unique_ids(),
            index.indexes(*src),
            valid_selection(*src, sel@),
            ids.wf(),
            dst.sequential(),
            dst.trailer == old(dst).trailer,
            dst.pages == old(dst).pages,
            d0 == old(dst).objects@,
            base == d0.len(),
            base + src.objects.len() <= u32::MAX,
            table_ok(*src, *dst, ids@),
            i <= sel.len(),
            kids.len() == i,
            dst.objects.len() == base + i,
            forall|j: int| 0 <= j < base ==> #[trigger] dst.objects@[j] == d0[j],
            forall|j: int| 0 <= j < i ==> #[trigger] kids@[j] == seq_id(base + j),
            forall|j: int| 0 <= j < i ==> ids@.contains_key(#[trigger] sel@[j]) && ids@[sel@[j]] == kids@[j],
            forall|k: ObjectId| #[trigger] ids@.contains_key(k) ==> exists|j: int| 0 <= j < i && sel@[j] == k,
            dst.objects.len() + unmapped(src.objects@, ids@) <= base + src.objects.len(),
        decreases sel.len() - i,
    {
        let p = sel[i];
        proof {
            if ids@.contains_key(p) {
                let j = choose|j: int| 0 <= j < i && sel@[j] == p;
                assert(sel@[j] != sel@[i as int]);
            }
            let t = choose|t: int| 0 <= t < src.objects.len() && (#[trigger] src.objects@[t]).0 == p;
            lemma_unmapped_strict(src.objects@, ids@, ids@.insert(p, seq_id(dst.objects.len() as int)), t);
        }
        let ghost m0 = ids@;
        let n = dst.reserve();
        ids.insert(p, n);
        proof {
            let m1 = ids@;
            assert forall|k: ObjectId| #[trigger] m1.contains_key(k) implies src.has(k) && dst.slot(m1[k]) by {
                if k != p {
                    assert(m0.contains_key(k));
                }
            }
            assert forall|k1: ObjectId, k2: ObjectId|
                #[trigger] m1.contains_key(k1) && #[trigger] m1.contains_key(k2) && k1 != k2
                    implies m1[k1] != m1[k2] by {
                if k1 != p {
                    assert(m0.contains_key(k1));
                }
                if k2 != p {
                    assert(m0.contains_key(k2));
                }
            }
            assert forall|k: ObjectId| #[trigger] m1.contains_key(k) implies exists|j: int| 0 <= j < i + 1 && sel@[j] == k by {
                if k == p {
                    assert(sel@[i as int] == k);
                } else {
                    assert(m0.contains_key(k));
                    let j = choose|j: int| 0 <= j < i && sel@[j] == k;
                    assert(sel@[j] == k);
                }
            }
            assert forall|j: int| 0 <= j < base implies #[trigger] dst.objects@[j] == d0[j] by {
                assert(dst.objects@[j] == old(dst).objects@[j]);
            }
        }
        kids.push(n);
        i += 1;
    }
    let ghost m1 = ids@;
    let ghost d1 = dst.objects@;
    let ghost top = d1.len() as int;
    let mut i: usize = 0;
    while i < sel.len()
        invariant
            src.unique_ids(),
            index.indexes(*src),
            valid_selection(*src, sel@),
            ids.wf(),
            dst.sequential(),
            dst.trailer == old(dst).trailer,
            dst.pages == old(dst).pages,
            d0 == old(dst).objects@,
            base == d0.len(),
            base + src.objects.len() <= u32::MAX,
            top == base + sel.len(),
            table_ok(*src, *dst, ids@),
            i <= sel.len(),
            kids.len() == sel.len(),
            top <= dst.objects.len(),
            forall|j: int| 0 <= j < base ==> #[trigger] dst.objects@[j] == d0[j],
            forall|j: int| 0 <= j < sel.len() ==> #[trigger] kids@[j] == seq_id(base + j),
            forall|j: int| 0 <= j < sel.len() ==> m1.contains_key(#[trigger] sel@[j]) && m1[sel@[j]] == kids@[j],
            forall|k: ObjectId| #[trigger] m1.contains_key(k) ==> exists|j: int| 0 <= j < sel.len() && sel@[j] == k,
            forall|k: ObjectId| #[trigger] m1.contains_key(k) ==> ids@.contains_key(k) && ids@[k] == m1[k],
            forall|j: int| 0 <= j < i ==> is_page_image(
                dst.at(#[trigger] kids@[j]),
                src.get(sel@[j]),
                *src,
                ids@,
                pages_id,
            ),
            forall|k: ObjectId| #[trigger] ids@.contains_key(k) && !m1.contains_key(k) ==> {
                &&& top < ids@[k].num <= dst.objects.len()
                &&& is_image(dst.at(ids@[k]), src.get(k), *src, ids@)
            },
            forall|j: int| top <= j < dst.objects.len() ==> #[trigger] new_slot_of(m1, ids@, j),
            forall|k: ObjectId| #[trigger] ids@.contains_key(k) ==> m1.contains_key(k) || has_earlier(*src, Map::empty(), ids@, k),
            dst.objects.len() + unmapped(src.objects@, ids@) <= base + src.objects.len(),
        decreases sel.len() - i,
    {
        let p = sel[i];
        let n = kids[i];
        proof {
            assert(src.has(p));
        }
        let target = index.lookup(src, p);
        match target {
            Some(o) => {
                let ghost m2 = ids@;
                let ghost d2 = dst.objects@;
                let c = copy_page_object(src, index, o, pages_id, &mut ids, dst);
                let ghost m3 = ids@;
                let ghost d3 = dst.objects@;
                assert(dst.slot(n));
                dst.put(n, c);
                proof {
                    let d4 = dst.objects@;
                    let idx = n.num - 1;
                    assert(idx == base + i);
                    assert forall|j: int| 0 <= j < base implies #[trigger] dst.objects@[j] == d0[j] by {
                        assert(d3[j] == d2[j]);
                    }
                    assert forall|j: int| 0 <= j < i + 1 implies is_page_image(
                        dst.at(#[trigger] kids@[j]),
                        src.get(sel@[j]),
                        *src,
                        ids@,
                        pages_id,
                    ) by {
                        if j < i {
                            assert(kids@[j] == seq_id(base + j));
                            assert(d3[base + j] == d2[base + j]);
                            assert(d4[base + j] == d3[base + j]);
                            lemma_page_image_grow(d2[base + j].1, src.get(sel@[j]), *src, m2, m3, pages_id);
                        }
                    }
                    assert forall|k: ObjectId| #[trigger] m3.contains_key(k) && !m1.contains_key(k) implies {
                        &&& top < m3[k].num <= d4.len()
                        &&& is_image(dst.at(m3[k]), src.get(k), *src, m3)
                    } by {
                        if m2.contains_key(k) {
                            let x = m2[k].num - 1;
                            assert(d3[x] == d2[x]);
                            lemma_image_grow(d2[x].1, src.get(k), *src, m2, m3);
                        } else {
                            assert(m3.contains_key(k) && !m2.contains_key(k));
                        }
                    }
                    assert forall|j: int| top <= j < d4.len() implies #[trigger] new_slot_of(m1, m3, j) by {
                        if j < d2.len() {
                            assert(new_slot_of(m1, m2, j));
                            let k = choose|k: ObjectId| #[trigger] m2.contains_key(k) && !m1.contains_key(k) && m2[k] == seq_id(j);
                            assert(m3.contains_key(k) && !m1.contains_key(k) && m3[k] == seq_id(j));
                        } else {
                            assert(new_slot_of(m2, m3, j));
                            let k = choose|k: ObjectId| #[trigger] m3.contains_key(k) && !m2.contains_key(k) && m3[k] == seq_id(j);
                            assert(m3.contains_key(k) && !m1.contains_key(k) && m3[k] == seq_id(j));
                        }
                    }
                    assert forall|k: ObjectId| #[trigger] m1.contains_key(k) implies m3.contains_key(k) && m3[k] == m1[k] by {
                        assert(m2.contains_key(k));
                    }
                    assert forall|k: ObjectId| #[trigger] m3.contains_key(k) implies m1.contains_key(k) || has_earlier(*src, Map::empty(), m3, k) by {
                        if m2.contains_key(k) {
                            if !m1.contains_key(k) {
                                lemma_earlier_widen(*src, Map::empty(), Map::empty(), m2, m3, k);
                            }
                        } else if mentions(*o, k) {
                            assert(m2.contains_key(p) && m2[p] == n);
                            assert(m3.contains_key(p) && !Map::<ObjectId, ObjectId>::empty().contains_key(p) && m3[p].num < m3[k].num && mentions(src.get(p), k));
                        } else {
                            lemma_earlier_widen(*src, Map::empty(), m2, m3, m3, k);
                        }
                    }
                }
            },
            None => {},
        }
        i += 1;
    }
    proof {
        let m = ids@;
        let d = dst.objects@;
        assert forall|k: ObjectId| #[trigger] m.contains_key(k) implies if sel@.contains(k) {
            is_page_image(dst.at(m[k]), src.get(k), *src, m, pages_id)
        } else {
            is_image(dst.at(m[k]), src.get(k), *src, m)
        } by {
            if sel@.contains(k) {
                let j = choose|j: int| 0 <= j < sel.len() && sel@[j] == k;
                assert(m1.contains_key(sel@[j]));
                assert(kids@[j] == m[k]);
            } else if m1.contains_key(k) {
                let j = choose|j: int| 0 <= j < sel.len() && sel@[j] == k;
                assert(sel@.contains(k));
            }
        }
        assert forall|j: int| 0 <= j < sel.len() implies m.contains_key(#[trigger] sel@[j]) by {
            assert(m1.contains_key(sel@[j]));
        }
        assert forall|j: int| 0 <= j < sel.len() implies m[#[trigger] sel@[j]] == kids@[j] by {
            assert(m1.contains_key(sel@[j]));
        }
        assert forall|k: ObjectId| #[trigger] m.contains_key(k) implies base < m[k].num by {
            if m1.contains_key(k) {
                let j = choose|j: int| 0 <= j < sel.len() && sel@[j] == k;
                assert(m1.contains_key(sel@[j]));
                assert(kids@[j] == seq_id(base + j));
            }
        }
        assert forall|j: int| base <= j < d.len() implies #[trigger] new_slot_of(Map::empty(), m, j) by {
            if j < top {
                let q = j - base;
                assert(kids@[q] == seq_id(base + q));
                assert(m1.contains_key(sel@[q]));
                assert(m.contains_key(sel@[q]) && !Map::<ObjectId, ObjectId>::empty().contains_key(sel@[q]) && m[sel@[q]] == seq_id(j));
            } else {
                assert(new_slot_of(m1, m, j));
                let k = choose|k: ObjectId| #[trigger] m.contains_key(k) && !m1.contains_key(k) && m[k] == seq_id(j);
                assert(m.contains_key(k) && !Map::<ObjectId, ObjectId>::empty().contains_key(k) && m[k] == seq_id(j));
            }
        }
        assert(scope_in(*dst, *src, sel@, m, pages_id));
        assert forall|k: ObjectId| #[trigger] m.contains_key(k) implies sel@.contains(k) || has_earlier(*src, Map::empty(), m, k) by {
            if m1.contains_key(k) {
                let j = choose|j: int| 0 <= j < sel.len() && sel@[j] == k;
                assert(sel@.contains(k));
            }
        }
    }
    kids
}

} // verus!
