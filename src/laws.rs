use vstd::prelude::*;
use crate::copier::{copy_step, is_image, table_ok};
use crate::document::{seq_id, Document};
use crate::names::parent_name;
use crate::object::{Object, ObjectId};
use crate::copier::{has_earlier, mentions, new_slot_of, reached_from};
use crate::ops::{copies_of, extracted, merged, page_offset, pass_bounds, scope_kept, total_pages, tree_id};
use crate::pages::{has_key, is_page_image, scope_in};

verus! {

/// Copying a reference to a dictionary that refers to itself, directly or
/// through an array, ends with the reference pointing at one new copy,
/// whose self-reference points at that same copy; no other source id is
/// mapped to that copy, so the object is copied once.
pub proof fn law_self_reference_copied_once(
    src: Document,
    k: ObjectId,
    a: int,
    b: int,
    m0: Map<ObjectId, ObjectId>,
    m1: Map<ObjectId, ObjectId>,
    dst0: Document,
    dst1: Document,
    r: Object,
)
    requires
        src.has(k),
        !m0.contains_key(k),
        src.get(k) is Dictionary,
        0 <= a < src.get(k)->Dictionary_0.len(),
        ({
            let v = src.get(k)->Dictionary_0[a].1;
            v == Object::Reference(k) || (v is Array && 0 <= b < v->Array_0.len() && v->Array_0[b] == Object::Reference(k))
        }),
        table_ok(src, dst1, m1),
        copy_step(src, m0, m1, dst0.objects@, dst1.objects@),
        is_image(r, Object::Reference(k), src, m1),
    ensures
        ({
            let t = m1[k];
            &&& r == Object::Reference(t)
            &&& dst0.objects.len() < t.num <= dst1.objects.len()
            &&& dst1.at(t) is Dictionary
            &&& dst1.at(t)->Dictionary_0.len() == src.get(k)->Dictionary_0.len()
            &&& {
                let w = dst1.at(t)->Dictionary_0[a].1;
                w == Object::Reference(t) || (w is Array && w->Array_0[b] == Object::Reference(t))
            }
            &&& forall|k2: ObjectId| #[trigger] m1.contains_key(k2) && m1[k2] == t ==> k2 == k
        }),
{
    let t = m1[k];
    assert(m1.contains_key(k));
    let x = dst1.objects@[t.num - 1].1;
    assert(is_image(x, src.get(k), src, m1));
    let v = src.get(k)->Dictionary_0[a].1;
    assert(is_image(x->Dictionary_0[a].1, v, src, m1));
    if v is Array && v != Object::Reference(k) {
        assert(is_image(x->Dictionary_0[a].1->Array_0[b], v->Array_0[b], src, m1));
    }
}

/// A document that `split_pdf` makes from one page has one page.
pub proof fn law_split_part_has_one_page(doc: Document, part: Document, p: int)
    requires
        0 <= p < doc.pages.len(),
        extracted(part, doc, seq![doc.pages@[p]]),
    ensures
        part.pages.len() == 1,
{
}

/// Within a merge, an object that two pages of the same source document
/// both refer to (each by an entry other than `Parent`) is copied once: the
/// two copied pages refer to the same destination id.
pub proof fn law_shared_object_copied_once(
    docs: Seq<Document>,
    out: Document,
    i: int,
    p: int,
    q: int,
    a: int,
    b: int,
    k: ObjectId,
)
    requires
        merged(docs, out),
        0 <= i < docs.len(),
        0 <= p < docs[i].pages.len(),
        0 <= q < docs[i].pages.len(),
        p != q,
        docs[i].has(k),
        docs[i].get(docs[i].pages@[p]) is Dictionary,
        docs[i].get(docs[i].pages@[q]) is Dictionary,
        0 <= a < docs[i].get(docs[i].pages@[p])->Dictionary_0.len(),
        0 <= b < docs[i].get(docs[i].pages@[q])->Dictionary_0.len(),
        docs[i].get(docs[i].pages@[p])->Dictionary_0[a].0@ != parent_name(),
        docs[i].get(docs[i].pages@[q])->Dictionary_0[b].0@ != parent_name(),
        docs[i].get(docs[i].pages@[p])->Dictionary_0[a].1 == Object::Reference(k),
        docs[i].get(docs[i].pages@[q])->Dictionary_0[b].1 == Object::Reference(k),
    ensures
        ({
            let pp = out.at(out.pages@[page_offset(docs, i) + p]);
            let qq = out.at(out.pages@[page_offset(docs, i) + q]);
            &&& pp is Dictionary && qq is Dictionary
            &&& pp->Dictionary_0[a].1 is Reference
            &&& pp->Dictionary_0[a].1 == qq->Dictionary_0[b].1
            &&& out.slot(pp->Dictionary_0[a].1->Reference_0)
        }),
{
    let src = docs[i];
    let sel = src.pages@;
    let off = page_offset(docs, i);
    let bb = choose|b: Seq<int>| {
        &&& pass_bounds(b, docs.len() as int, out)
        &&& forall|i: int| 0 <= i < docs.len() ==> #[trigger] scope_kept(
            out,
            docs[i],
            docs[i].pages@,
            out.pages@,
            page_offset(docs, i),
            b[i],
            b[i + 1],
        )
    };
    let lo = bb[i];
    let hi = bb[i + 1];
    assert(scope_kept(out, src, sel, out.pages@, off, lo, hi));
    let m = choose|m: Map<ObjectId, ObjectId>| {
        &&& scope_in(out, src, sel, m, tree_id())
        &&& forall|t: int| 0 <= t < sel.len() ==> m[#[trigger] sel[t]] == out.pages@[off + t]
        &&& forall|k2: ObjectId| #[trigger] m.contains_key(k2) ==> lo < m[k2].num <= hi
        &&& forall|k2: ObjectId| #[trigger] m.contains_key(k2) ==> sel.contains(k2) || has_earlier(src, Map::empty(), m, k2)
        &&& forall|j: int| lo <= j < hi ==> #[trigger] new_slot_of(Map::empty(), m, j)
    };
    let kp = sel[p];
    let kq = sel[q];
    assert(m.contains_key(kp) && m.contains_key(kq));
    assert(sel.contains(kp) && sel.contains(kq));
    assert(m[kp] == out.pages@[off + p]);
    assert(m[kq] == out.pages@[off + q]);
    assert(is_page_image(out.at(m[kp]), src.get(kp), src, m, tree_id()));
    assert(is_page_image(out.at(m[kq]), src.get(kq), src, m, tree_id()));
    let dp = src.get(kp)->Dictionary_0;
    let dq = src.get(kq)->Dictionary_0;
    assert(is_image(out.at(m[kp])->Dictionary_0[a].1, dp[a].1, src, m));
    assert(is_image(out.at(m[kq])->Dictionary_0[b].1, dq[b].1, src, m));
}

/// The table of two copy passes made one after the other.
pub open spec fn compose(m1: Map<ObjectId, ObjectId>, m2: Map<ObjectId, ObjectId>) -> Map<ObjectId, ObjectId> {
    Map::new(|k: ObjectId| m1.contains_key(k) && m2.contains_key(m1[k]), |k: ObjectId| m2[m1[k]])
}

/// A copy of a copy is a copy under the composed table.
pub proof fn lemma_image_compose(
    x: Object,
    o: Object,
    y: Object,
    src: Document,
    mid: Document,
    m1: Map<ObjectId, ObjectId>,
    m2: Map<ObjectId, ObjectId>,
)
    requires
        is_image(x, o, src, m1),
        is_image(y, x, mid, m2),
        forall|k: ObjectId| #[trigger] m1.contains_key(k) ==> mid.has(m1[k]),
    ensures
        is_image(y, o, src, compose(m1, m2)),
    decreases o,
{
    let m = compose(m1, m2);
    match o {
        Object::Reference(k) => {
            if m1.contains_key(k) {
                assert(mid.has(m1[k]));
                assert(m.contains_key(k));
            }
        },
        Object::Array(a) => {
            assert forall|i: int| 0 <= i < a.len() implies is_image(#[trigger] y->Array_0[i], a[i], src, m) by {
                lemma_image_compose(x->Array_0[i], a[i], y->Array_0[i], src, mid, m1, m2);
            }
        },
        Object::Dictionary(d) => {
            assert forall|i: int| 0 <= i < d.len() implies (#[trigger] y->Dictionary_0[i]).0@ == d[i].0@
                && is_image(y->Dictionary_0[i].1, d[i].1, src, m) by {
                lemma_image_compose(x->Dictionary_0[i].1, d[i].1, y->Dictionary_0[i].1, src, mid, m1, m2);
            }
        },
        Object::Stream(d, c) => {
            assert forall|i: int| 0 <= i < d.len() implies (#[trigger] y->Stream_0[i]).0@ == d[i].0@
                && is_image(y->Stream_0[i].1, d[i].1, src, m) by {
                lemma_image_compose(x->Stream_0[i].1, d[i].1, y->Stream_0[i].1, src, mid, m1, m2);
            }
        },
        _ => {},
    }
}

/// A page copy of a page copy is a page copy under the composed table,
/// attached to the last page tree node.
pub proof fn lemma_page_image_compose(
    x: Object,
    o: Object,
    y: Object,
    src: Document,
    mid: Document,
    m1: Map<ObjectId, ObjectId>,
    m2: Map<ObjectId, ObjectId>,
    t1: ObjectId,
    t2: ObjectId,
)
    requires
        is_page_image(x, o, src, m1, t1),
        is_page_image(y, x, mid, m2, t2),
        forall|k: ObjectId| #[trigger] m1.contains_key(k) ==> mid.has(m1[k]),
    ensures
        is_page_image(y, o, src, compose(m1, m2), t2),
{
    let m = compose(m1, m2);
    match o {
        Object::Dictionary(d) => {
            let e = x->Dictionary_0;
            let f = y->Dictionary_0;
            if has_key(d@, parent_name()) {
                let i = choose|i: int| 0 <= i < d.len() && (#[trigger] d@[i]).0@ == parent_name();
                assert(e[i].0@ == parent_name());
                assert(has_key(e@, parent_name()));
            } else {
                assert(e@[d.len() as int].0@ == parent_name());
                assert(has_key(e@, parent_name()));
            }
            assert forall|i: int| 0 <= i < d.len() implies (#[trigger] f[i]).0@ == d[i].0@ && if d[i].0@ == parent_name() {
                f[i].1 == Object::Reference(t2)
            } else {
                is_image(f[i].1, d[i].1, src, m)
            } by {
                assert(e[i].0@ == d[i].0@);
                if d[i].0@ != parent_name() {
                    lemma_image_compose(e[i].1, d[i].1, f[i].1, src, mid, m1, m2);
                }
            }
        },
        _ => {
            lemma_image_compose(x, o, y, src, mid, m1, m2);
        },
    }
}

proof fn lemma_single_pages(parts: Seq<Document>, p: int)
    requires
        0 <= p <= parts.len(),
        forall|t: int| 0 <= t < parts.len() ==> (#[trigger] parts[t]).pages.len() == 1,
    ensures
        total_pages(parts.subrange(0, p)) == p,
    decreases p,
{
    if p > 0 {
        assert(parts.subrange(0, p).drop_last() =~= parts.subrange(0, p - 1));
        lemma_single_pages(parts, p - 1);
    }
}

/// Splitting a document into single pages and merging the parts in order
/// gives back its page sequence: page `p` of the merge, with everything it
/// refers to, is a copy of page `p` of the document made in one copy pass.
pub proof fn law_split_then_merge(doc: Document, parts: Seq<Document>, out: Document)
    requires
        doc.wf(),
        parts.len() == doc.pages.len(),
        forall|p: int| 0 <= p < parts.len() ==> #[trigger] extracted(parts[p], doc, seq![doc.pages@[p]]),
        merged(parts, out),
    ensures
        out.pages.len() == doc.pages.len(),
        forall|p: int| 0 <= p < doc.pages.len() ==> #[trigger] copies_of(out, doc, seq![doc.pages@[p]], out.pages@, p),
{
    assert forall|t: int| 0 <= t < parts.len() implies (#[trigger] parts[t]).pages.len() == 1 by {
        assert(extracted(parts[t], doc, seq![doc.pages@[t]]));
    }
    lemma_single_pages(parts, parts.len() as int);
    assert(parts.subrange(0, parts.len() as int) =~= parts);
    assert forall|p: int| 0 <= p < doc.pages.len() implies #[trigger] copies_of(out, doc, seq![doc.pages@[p]], out.pages@, p) by {
        let part = parts[p];
        let dp = doc.pages@[p];
        let sel1 = seq![dp];
        assert(extracted(part, doc, sel1));
        let phi = part.objects.len() - 1;
        assert(scope_kept(part, doc, sel1, part.pages@, 0, 1, phi));
        let m1 = choose|m: Map<ObjectId, ObjectId>| {
            &&& scope_in(part, doc, sel1, m, tree_id())
            &&& forall|t: int| 0 <= t < sel1.len() ==> m[#[trigger] sel1[t]] == part.pages@[0 + t]
            &&& forall|k: ObjectId| #[trigger] m.contains_key(k) ==> 1 < m[k].num <= phi
            &&& forall|k: ObjectId| #[trigger] m.contains_key(k) ==> sel1.contains(k) || has_earlier(doc, Map::empty(), m, k)
            &&& forall|j: int| 1 <= j < phi ==> #[trigger] new_slot_of(Map::empty(), m, j)
        };
        lemma_single_pages(parts, p);
        assert(page_offset(parts, p) == p);
        let bb = choose|b: Seq<int>| {
            &&& pass_bounds(b, parts.len() as int, out)
            &&& forall|i: int| 0 <= i < parts.len() ==> #[trigger] scope_kept(
                out,
                parts[i],
                parts[i].pages@,
                out.pages@,
                page_offset(parts, i),
                b[i],
                b[i + 1],
            )
        };
        let lo = bb[p];
        let hi = bb[p + 1];
        assert(scope_kept(out, part, part.pages@, out.pages@, p, lo, hi));
        let m2 = choose|m: Map<ObjectId, ObjectId>| {
            &&& scope_in(out, part, part.pages@, m, tree_id())
            &&& forall|t: int| 0 <= t < part.pages@.len() ==> m[#[trigger] part.pages@[t]] == out.pages@[p + t]
            &&& forall|k: ObjectId| #[trigger] m.contains_key(k) ==> lo < m[k].num <= hi
            &&& forall|k: ObjectId| #[trigger] m.contains_key(k) ==> part.pages@.contains(k) || has_earlier(part, Map::empty(), m, k)
            &&& forall|j: int| lo <= j < hi ==> #[trigger] new_slot_of(Map::empty(), m, j)
        };
        let kid = part.pages@[0];
        assert(sel1[0] == dp);
        assert(m1.contains_key(dp) && m1[dp] == kid);
        assert(part.pages@.contains(kid));
        assert(m2.contains_key(kid));
        assert(m2[kid] == out.pages@[p + 0]);
        let m = compose(m1, m2);
        assert forall|k: ObjectId| #[trigger] m1.contains_key(k) implies part.has(m1[k]) by {
            part.lemma_sequential(m1[k]);
        }
        assert forall|k: ObjectId| #[trigger] m1.contains_key(k) implies part.get(m1[k]) == part.at(m1[k]) by {
            part.lemma_sequential(m1[k]);
        }
        assert forall|k: ObjectId| #[trigger] m.contains_key(k) implies if sel1.contains(k) {
            is_page_image(out.at(m[k]), doc.get(k), doc, m, tree_id())
        } else {
            is_image(out.at(m[k]), doc.get(k), doc, m)
        } by {
            let j = m1[k];
            assert(m1.contains_key(k));
            if sel1.contains(k) {
                assert(k == dp);
                assert(is_page_image(part.at(j), doc.get(k), doc, m1, tree_id()));
                assert(is_page_image(out.at(m2[j]), part.get(j), part, m2, tree_id()));
                lemma_page_image_compose(part.at(j), doc.get(k), out.at(m2[j]), doc, part, m1, m2, tree_id(), tree_id());
            } else {
                assert(k != dp);
                assert(j != kid);
                assert(!part.pages@.contains(j));
                assert(is_image(part.at(j), doc.get(k), doc, m1));
                assert(is_image(out.at(m2[j]), part.get(j), part, m2));
                lemma_image_compose(part.at(j), doc.get(k), out.at(m2[j]), doc, part, m1, m2);
            }
        }
        assert forall|k1: ObjectId, k2: ObjectId|
            #[trigger] m.contains_key(k1) && #[trigger] m.contains_key(k2) && k1 != k2 implies m[k1] != m[k2] by {
            assert(m1.contains_key(k1) && m1.contains_key(k2));
            assert(m2.contains_key(m1[k1]) && m2.contains_key(m1[k2]));
        }
        assert forall|k: ObjectId| #[trigger] m.contains_key(k) implies doc.has(k) && out.slot(m[k]) by {
            assert(m1.contains_key(k));
            assert(m2.contains_key(m1[k]));
        }
        assert(m.contains_key(dp));
        assert forall|t: int| 0 <= t < sel1.len() implies m.contains_key(#[trigger] sel1[t]) by {}
        assert(scope_in(out, doc, sel1, m, tree_id()));
        assert forall|t: int| 0 <= t < sel1.len() implies m[#[trigger] sel1[t]] == out.pages@[p + t] by {}
    }
}

proof fn lemma_only_self(
    src: Document,
    k: ObjectId,
    m0: Map<ObjectId, ObjectId>,
    m1: Map<ObjectId, ObjectId>,
    k1: ObjectId,
)
    requires
        m1.contains_key(k1),
        !m0.contains_key(k1),
        reached_from(src, Object::Reference(k), m0, m1),
        forall|k2: ObjectId| #[trigger] mentions(src.get(k), k2) ==> k2 == k,
    ensures
        k1 == k,
    decreases m1[k1].num,
{
    if k1 != k {
        assert(!mentions(Object::Reference(k), k1));
        assert(has_earlier(src, m0, m1, k1));
        let k2 = choose|k2: ObjectId|
            #[trigger] m1.contains_key(k2) && !m0.contains_key(k2) && m1[k2].num < m1[k1].num && mentions(src.get(k2), k1);
        lemma_only_self(src, k, m0, m1, k2);
    }
}

/// Copying a reference to an object that refers to nothing but itself adds
/// exactly one object to the destination, and maps only that object's id.
pub proof fn law_self_contained_cycle_adds_one_object(
    src: Document,
    k: ObjectId,
    m0: Map<ObjectId, ObjectId>,
    m1: Map<ObjectId, ObjectId>,
    dst0: Document,
    dst1: Document,
)
    requires
        src.has(k),
        !m0.contains_key(k),
        forall|k2: ObjectId| #[trigger] mentions(src.get(k), k2) ==> k2 == k,
        copy_step(src, m0, m1, dst0.objects@, dst1.objects@),
        reached_from(src, Object::Reference(k), m0, m1),
        m1.contains_key(k),
        dst1.sequential(),
    ensures
        dst1.objects.len() == dst0.objects.len() + 1,
        forall|k2: ObjectId| #[trigger] m1.contains_key(k2) && !m0.contains_key(k2) ==> k2 == k,
{
    assert forall|k2: ObjectId| #[trigger] m1.contains_key(k2) && !m0.contains_key(k2) implies k2 == k by {
        lemma_only_self(src, k, m0, m1, k2);
    }
    let n0 = dst0.objects.len() as int;
    assert(m1[k].num <= dst1.objects.len());
    if dst1.objects.len() > n0 + 1 {
        assert(new_slot_of(m0, m1, n0));
        assert(new_slot_of(m0, m1, n0 + 1));
        let a = choose|a: ObjectId| #[trigger] m1.contains_key(a) && !m0.contains_key(a) && m1[a] == seq_id(n0);
        let b = choose|b: ObjectId| #[trigger] m1.contains_key(b) && !m0.contains_key(b) && m1[b] == seq_id(n0 + 1);
        assert(seq_id(n0).num != seq_id(n0 + 1).num);
        assert(a == k && b == k);
    }
}

} // verus!
