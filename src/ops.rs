use vstd::prelude::*;
use crate::assemble::{assemble, tree_ok};
use crate::copier::{has_earlier, new_slot_of};
use crate::document::{seq_id, Document};
use crate::idmap::StoreIndex;
use crate::object::{Object, ObjectId, PdfError};
use crate::pages::{copy_pages, lemma_scope_frame, scope_in, valid_selection};
use crate::ranges::{lemma_selection_in_range, parse_page_ranges, selection, sorted_set};
use vstd::string::StringSliceAdditionalSpecFns;

verus! {

/// The id of the page tree node of every document this library assembles:
/// it is reserved first.
pub open spec fn tree_id() -> ObjectId {
    seq_id(0)
}

/// `out` holds copies of the pages `sel` of `src`, in one copy pass whose
/// new page ids are `kids[off]`, `kids[off + 1]`, and so on, in order; the
/// pass copied only the pages and what they reach; its copies fill exactly
/// the slots `lo..hi` of `out`, one slot per copied source id.
pub open spec fn scope_kept(
    out: Document,
    src: Document,
    sel: Seq<ObjectId>,
    kids: Seq<ObjectId>,
    off: int,
    lo: int,
    hi: int,
) -> bool {
    exists|m: Map<ObjectId, ObjectId>| {
        &&& scope_in(out, src, sel, m, tree_id())
        &&& forall|p: int| 0 <= p < sel.len() ==> m[#[trigger] sel[p]] == kids[off + p]
        &&& forall|k: ObjectId| #[trigger] m.contains_key(k) ==> lo < m[k].num <= hi
        &&& forall|k: ObjectId| #[trigger] m.contains_key(k) ==> sel.contains(k) || has_earlier(src, Map::empty(), m, k)
        &&& forall|j: int| lo <= j < hi ==> #[trigger] new_slot_of(Map::empty(), m, j)
    }
}

/// `out` holds copies of the pages `sel` of `src`, with everything they
/// refer to, under one table, the new page ids being `kids[off]`,
/// `kids[off + 1]`, and so on, in order.
pub open spec fn copies_of(out: Document, src: Document, sel: Seq<ObjectId>, kids: Seq<ObjectId>, off: int) -> bool {
    exists|m: Map<ObjectId, ObjectId>| {
        &&& scope_in(out, src, sel, m, tree_id())
        &&& forall|p: int| 0 <= p < sel.len() ==> m[#[trigger] sel[p]] == kids[off + p]
    }
}

/// `out` is a complete document whose pages are the copies of the pages
/// `sel` of `src`, in that order, made in one copy pass: the page tree node
/// comes first, then the pages with ids 2, 3, ..., then the other copied
/// objects, and the catalog last; nothing else is stored.
pub open spec fn extracted(out: Document, src: Document, sel: Seq<ObjectId>) -> bool {
    &&& out.sequential()
    &&& tree_ok(out, tree_id())
    &&& out.trailer@[0].1 == Object::Reference(seq_id(out.objects.len() - 1))
    &&& out.pages.len() == sel.len()
    &&& forall|j: int| 0 <= j < sel.len() ==> #[trigger] out.pages@[j] == seq_id(1 + j)
    &&& scope_kept(out, src, sel, out.pages@, 0, 1, out.objects.len() - 1)
}

/// The number of pages of all the documents.
pub open spec fn total_pages(docs: Seq<Document>) -> nat
    decreases docs.len(),
{
    if docs.len() == 0 {
        0
    } else {
        (total_pages(docs.drop_last()) + docs.last().pages.len()) as nat
    }
}

/// The number of stored objects of all the documents.
pub open spec fn total_objects(docs: Seq<Document>) -> nat
    decreases docs.len(),
{
    if docs.len() == 0 {
        0
    } else {
        (total_objects(docs.drop_last()) + docs.last().objects.len()) as nat
    }
}

/// Where the pages of `docs[i]` start in a merge of `docs`.
pub open spec fn page_offset(docs: Seq<Document>, i: int) -> int {
    total_pages(docs.subrange(0, i)) as int
}

/// Slot boundaries for the copy passes of a merge: they start after the page
/// tree node, never go down, and end before the catalog of `out`.
pub open spec fn pass_bounds(b: Seq<int>, n: int, out: Document) -> bool {
    &&& b.len() == n + 1
    &&& b[0] == 1
    &&& b[n] == out.objects.len() - 1
    &&& forall|i: int| 0 <= i < n ==> #[trigger] b[i] <= b[i + 1]
}

/// `out` is the merge of `docs`: a complete document whose pages are the
/// pages of each document in turn, in document order then page order,
/// each document copied in a copy pass of its own. The passes fill disjoint
/// runs of slots, between the page tree node and the catalog, so nothing is
/// shared across documents and nothing else is stored; no page is listed
/// twice.
pub open spec fn merged(docs: Seq<Document>, out: Document) -> bool {
    &&& out.sequential()
    &&& tree_ok(out, tree_id())
    &&& out.trailer@[0].1 == Object::Reference(seq_id(out.objects.len() - 1))
    &&& out.pages.len() == total_pages(docs)
    &&& forall|a: int, c: int| 0 <= a < c < out.pages.len() ==> out.pages@[a] != out.pages@[c]
    &&& exists|b: Seq<int>| {
        &&& pass_bounds(b, docs.len() as int, out)
        &&& forall|i: int| 0 <= i < docs.len() ==> #[trigger] scope_kept(
            out,
            docs[i],
            docs[i].pages@,
            out.pages@,
            page_offset(docs, i),
            b[i],
            b[i + 1],
        )
    }
}

/// Every document is well formed.
pub open spec fn all_wf(docs: Seq<Document>) -> bool {
    forall|i: int| 0 <= i < docs.len() ==> (#[trigger] docs[i]).wf()
}

pub proof fn lemma_total_objects_prefix(docs: Seq<Document>, i: int)
    requires
        0 <= i <= docs.len(),
    ensures
        0 <= total_objects(docs.subrange(0, i)) <= total_objects(docs),
    decreases docs.len(),
{
    if docs.len() > 0 {
        if i == docs.len() {
            assert(docs.subrange(0, i) =~= docs);
            lemma_total_objects_prefix(docs.drop_last(), i - 1);
        } else {
            assert(docs.drop_last().subrange(0, i) =~= docs.subrange(0, i));
            lemma_total_objects_prefix(docs.drop_last(), i);
        }
    }
}

pub proof fn lemma_prefix_step(docs: Seq<Document>, i: int)
    requires
        0 <= i < docs.len(),
    ensures
        total_pages(docs.subrange(0, i + 1)) == total_pages(docs.subrange(0, i)) + docs[i].pages.len(),
        total_objects(docs.subrange(0, i + 1)) == total_objects(docs.subrange(0, i)) + docs[i].objects.len(),
{
    assert(docs.subrange(0, i + 1).drop_last() =~= docs.subrange(0, i));
}

/// Re-establishes a kept copy pass on a document whose slots from position
/// 1 on, up to the length of `out`, are unchanged.
proof fn lemma_kept_frame(
    out: Document,
    out2: Document,
    src: Document,
    sel: Seq<ObjectId>,
    kids: Seq<ObjectId>,
    kids2: Seq<ObjectId>,
    off: int,
    lo: int,
    hi: int,
)
    requires
        scope_kept(out, src, sel, kids, off, lo, hi),
        1 <= lo,
        out.objects.len() <= out2.objects.len(),
        forall|j: int| 1 <= j < out.objects.len() ==> #[trigger] out2.objects@[j] == out.objects@[j],
        0 <= off,
        off + sel.len() <= kids.len(),
        forall|j: int| 0 <= j < kids.len() ==> kids2[j] == kids[j],
    ensures
        scope_kept(out2, src, sel, kids2, off, lo, hi),
{
    let m = choose|m: Map<ObjectId, ObjectId>| {
        &&& scope_in(out, src, sel, m, tree_id())
        &&& forall|p: int| 0 <= p < sel.len() ==> m[#[trigger] sel[p]] == kids[off + p]
        &&& forall|k: ObjectId| #[trigger] m.contains_key(k) ==> lo < m[k].num <= hi
        &&& forall|k: ObjectId| #[trigger] m.contains_key(k) ==> sel.contains(k) || has_earlier(src, Map::empty(), m, k)
        &&& forall|j: int| lo <= j < hi ==> #[trigger] new_slot_of(Map::empty(), m, j)
    };
    assert forall|k: ObjectId| #[trigger] m.contains_key(k) implies out2.at(m[k]) == out.at(m[k]) by {
        assert(out2.objects@[m[k].num - 1] == out.objects@[m[k].num - 1]);
    }
    lemma_scope_frame(out, out2, src, sel, m, tree_id());
    assert forall|p: int| 0 <= p < sel.len() implies m[#[trigger] sel[p]] == kids2[off + p] by {
        assert(kids2[off + p] == kids[off + p]);
    }
}

/// Builds one complete document from the pages `sel` of `src`, in that
/// order, copied in one copy pass.
pub fn extract_pages(src: &Document, index: &StoreIndex, sel: &Vec<ObjectId>) -> (r: Document)
    requires
        src.unique_ids(),
        index.indexes(*src),
        valid_selection(*src, sel@),
        src.objects.len() + 2 <= u32::MAX,
    ensures
        extracted(r, *src, sel@),
{
    let mut dst = Document::new_empty();
    let pages_id = dst.reserve();
    let ghost d1 = dst;
    let kids = copy_pages(src, index, sel, pages_id, &mut dst);
    let ghost d2 = dst;
    let r = assemble(dst, pages_id, kids);
    proof {
        let m = choose|m: Map<ObjectId, ObjectId>| {
            &&& scope_in(d2, *src, sel@, m, pages_id)
            &&& forall|j: int| 0 <= j < sel.len() ==> m[#[trigger] sel@[j]] == kids@[j]
            &&& forall|k: ObjectId| #[trigger] m.contains_key(k) ==> d1.objects.len() < m[k].num
            &&& forall|j: int| d1.objects.len() <= j < d2.objects.len() ==> #[trigger] new_slot_of(Map::empty(), m, j)
            &&& forall|k: ObjectId| #[trigger] m.contains_key(k) ==> sel@.contains(k) || has_earlier(*src, Map::empty(), m, k)
        };
        assert forall|p: int| 0 <= p < sel.len() implies m[#[trigger] sel@[p]] == kids@[0 + p] by {}
        assert(scope_in(d2, *src, sel@, m, tree_id()));
        assert(scope_kept(d2, *src, sel@, kids@, 0, 1, d2.objects.len() as int));
        lemma_kept_frame(d2, r, *src, sel@, kids@, r.pages@, 0, 1, d2.objects.len() as int);
    }
    r
}

/// Merges `docs` into one document: the pages of each document in turn, in
/// document order then page order. Each document is copied in a copy pass
/// of its own, so objects are shared within one document's pages and never
/// across documents. Fails with `EmptyInput` on an empty list.
pub fn merge_pdfs(docs: &Vec<Document>) -> (r: Result<Document, PdfError>)
    requires
        all_wf(docs@),
        total_objects(docs@) + 2 <= u32::MAX,
    ensures
        docs.len() == 0 ==> r == Err::<Document, PdfError>(PdfError::EmptyInput),
        docs.len() > 0 ==> r is Ok && merged(docs@, r->Ok_0),
{
    if docs.len() == 0 {
        return Err(PdfError::EmptyInput);
    }
    let mut dst = Document::new_empty();
    let pages_id = dst.reserve();
    let mut all: Vec<ObjectId> = Vec::new();
    let ghost mut bounds: Seq<int> = seq![1int];
    let mut i: usize = 0;
    while i < docs.len()
        invariant
            all_wf(docs@),
            total_objects(docs@) + 2 <= u32::MAX,
            pages_id == tree_id(),
            dst.sequential(),
            1 <= dst.objects.len() <= 1 + total_objects(docs@.subrange(0, i as int)),
            all.len() + 1 <= dst.objects.len(),
            i <= docs.len(),
            all.len() == total_pages(docs@.subrange(0, i as int)),
            bounds.len() == i + 1,
            bounds[0] == 1,
            bounds[i as int] == dst.objects.len(),
            forall|q: int| 0 <= q <= i ==> 1 <= #[trigger] bounds[q],
            forall|q: int| 0 <= q < i ==> #[trigger] bounds[q] <= bounds[q + 1],
            forall|q: int| 0 <= q < i ==> #[trigger] scope_kept(
                dst,
                docs@[q],
                docs@[q].pages@,
                all@,
                page_offset(docs@, q),
                bounds[q],
                bounds[q + 1],
            ),
            forall|q: int| 0 <= q < i ==> page_offset(docs@, q) + docs@[q].pages.len() <= all.len(),
            forall|t: int| 0 <= t < all.len() ==> 1 < (#[trigger] all@[t]).num <= dst.objects.len(),
            forall|a: int, c: int| 0 <= a < c < all.len() ==> all@[a] != all@[c],
        decreases docs.len() - i,
    {
        let ghost before = dst;
        let ghost all0 = all@;
        let src = &docs[i];
        proof {
            assert(docs@[i as int].wf());
            lemma_prefix_step(docs@, i as int);
            lemma_total_objects_prefix(docs@, i + 1);
        }
        let index = StoreIndex::build(src);
        let kids = copy_pages(src, &index, &src.pages, pages_id, &mut dst);
        let ghost after = dst;
        let mut j: usize = 0;
        while j < kids.len()
            invariant
                j <= kids.len(),
                all.len() == all0.len() + j,
                forall|t: int| 0 <= t < all0.len() ==> #[trigger] all@[t] == all0[t],
                forall|t: int| 0 <= t < j ==> #[trigger] all@[all0.len() + t] == kids@[t],
            decreases kids.len() - j,
        {
            all.push(kids[j]);
            j += 1;
        }
        proof {
            let off = all0.len() as int;
            assert(off == page_offset(docs@, i as int));
            let b0 = bounds;
            bounds = bounds.push(after.objects.len() as int);
            assert forall|q: int| 0 <= q < i + 1 implies #[trigger] scope_kept(
                dst,
                docs@[q],
                docs@[q].pages@,
                all@,
                page_offset(docs@, q),
                bounds[q],
                bounds[q + 1],
            ) by {
                if q < i {
                    assert(bounds[q] == b0[q] && bounds[q + 1] == b0[q + 1]);
                    assert(scope_kept(before, docs@[q], docs@[q].pages@, all0, page_offset(docs@, q), b0[q], b0[q + 1]));
                    lemma_kept_frame(before, dst, docs@[q], docs@[q].pages@, all0, all@, page_offset(docs@, q), b0[q], b0[q + 1]);
                } else {
                    let m = choose|m: Map<ObjectId, ObjectId>| {
                        &&& scope_in(after, *src, src.pages@, m, pages_id)
                        &&& forall|t: int| 0 <= t < src.pages.len() ==> m[#[trigger] src.pages@[t]] == kids@[t]
                        &&& forall|k: ObjectId| #[trigger] m.contains_key(k) ==> before.objects.len() < m[k].num
                        &&& forall|t: int| before.objects.len() <= t < after.objects.len() ==> #[trigger] new_slot_of(Map::empty(), m, t)
                        &&& forall|k: ObjectId| #[trigger] m.contains_key(k) ==> src.pages@.contains(k) || has_earlier(*src, Map::empty(), m, k)
                    };
                    assert forall|t: int| 0 <= t < src.pages.len() implies m[#[trigger] src.pages@[t]] == all@[off + t] by {
                        assert(all@[off + t] == kids@[t]);
                    }
                    assert forall|k: ObjectId| #[trigger] m.contains_key(k) implies bounds[q] < m[k].num <= bounds[q + 1] by {
                        assert(dst.slot(m[k]));
                    }
                    assert(bounds[q] == before.objects.len() && bounds[q + 1] == after.objects.len());
                }
            }
            assert forall|q: int| 0 <= q <= i + 1 implies 1 <= #[trigger] bounds[q] by {
                if q <= i {
                    assert(bounds[q] == b0[q]);
                }
            }
            assert forall|q: int| 0 <= q < i + 1 implies #[trigger] bounds[q] <= bounds[q + 1] by {
                if q < i {
                    assert(bounds[q] == b0[q] && bounds[q + 1] == b0[q + 1]);
                }
            }
            assert forall|q: int| 0 <= q < i + 1 implies page_offset(docs@, q) + docs@[q].pages.len() <= all.len() by {}
            assert forall|t: int| 0 <= t < all.len() implies 1 < (#[trigger] all@[t]).num <= dst.objects.len() by {
                if t >= off {
                    let u = t - off;
                    assert(all@[all0.len() + u] == kids@[u]);
                    assert(kids@[t - off] == seq_id(before.objects.len() + (t - off)));
                } else {
                    assert(all@[t] == all0[t]);
                }
            }
            assert forall|a: int, c: int| 0 <= a < c < all.len() implies all@[a] != all@[c] by {
                if a >= off {
                    let (u, w) = (a - off, c - off);
                    assert(all@[all0.len() + u] == kids@[u] && all@[all0.len() + w] == kids@[w]);
                    assert(kids@[a - off] == seq_id(before.objects.len() + (a - off)));
                    assert(kids@[c - off] == seq_id(before.objects.len() + (c - off)));
                } else if c >= off {
                    assert(all@[a] == all0[a]);
                    let w = c - off;
                    assert(all@[all0.len() + w] == kids@[w]);
                    assert(kids@[c - off] == seq_id(before.objects.len() + (c - off)));
                } else {
                    assert(all@[a] == all0[a] && all@[c] == all0[c]);
                }
            }
        }
        i += 1;
    }
    proof {
        assert(docs@.subrange(0, docs.len() as int) =~= docs@);
        lemma_total_objects_prefix(docs@, docs.len() as int);
    }
    let ghost before = dst;
    let ghost all0 = all@;
    let r = assemble(dst, pages_id, all);
    proof {
        assert forall|q: int| 0 <= q < docs.len() implies #[trigger] scope_kept(
            r,
            docs@[q],
            docs@[q].pages@,
            r.pages@,
            page_offset(docs@, q),
            bounds[q],
            bounds[q + 1],
        ) by {
            lemma_kept_frame(before, r, docs@[q], docs@[q].pages@, all0, r.pages@, page_offset(docs@, q), bounds[q], bounds[q + 1]);
        }
        assert(pass_bounds(bounds, docs.len() as int, r));
    }
    Ok(r)
}

/// Splits `doc` into one single-page document per page, in page order, each
/// copied in a copy pass of its own.
pub fn split_pdf(doc: &Document) -> (r: Vec<Document>)
    requires
        doc.wf(),
        doc.objects.len() + 2 <= u32::MAX,
    ensures
        r.len() == doc.pages.len(),
        forall|p: int| 0 <= p < r.len() ==> #[trigger] extracted(r[p], *doc, seq![doc.pages@[p]]),
{
    let index = StoreIndex::build(doc);
    let mut out: Vec<Document> = Vec::new();
    let mut p: usize = 0;
    while p < doc.pages.len()
        invariant
            doc.wf(),
            index.indexes(*doc),
            doc.objects.len() + 2 <= u32::MAX,
            p <= doc.pages.len(),
            out.len() == p,
            forall|q: int| 0 <= q < p ==> #[trigger] extracted(out[q], *doc, seq![doc.pages@[q]]),
        decreases doc.pages.len() - p,
    {
        let mut sel: Vec<ObjectId> = Vec::new();
        sel.push(doc.pages[p]);
        proof {
            assert(sel@ =~= seq![doc.pages@[p as int]]);
            assert(doc.has(doc.pages@[p as int]));
        }
        let one = extract_pages(doc, &index, &sel);
        out.push(one);
        p += 1;
    }
    out
}

/// The number of pages of `doc`.
pub fn get_pdf_page_count(doc: &Document) -> (r: usize)
    ensures
        r == doc.pages.len(),
{
    doc.pages.len()
}

/// The page ids of `doc` at the 0-based indices `idx`.
pub open spec fn pages_at(doc: Document, idx: Seq<usize>) -> Seq<ObjectId> {
    idx.map_values(|k: usize| doc.pages@[k as int])
}

/// The page ids of `doc` at the indices `idx`, which are ascending and in range.
fn select_pages(doc: &Document, idx: &Vec<usize>) -> (r: Vec<ObjectId>)
    requires
        doc.wf(),
        forall|i: int, j: int| 0 <= i < j < idx.len() ==> idx@[i] < idx@[j],
        forall|t: int| 0 <= t < idx.len() ==> #[trigger] idx@[t] < doc.pages.len(),
    ensures
        r@ == pages_at(*doc, idx@),
        valid_selection(*doc, r@),
{
    let mut r: Vec<ObjectId> = Vec::new();
    let mut t: usize = 0;
    while t < idx.len()
        invariant
            t <= idx.len(),
            forall|t2: int| 0 <= t2 < idx.len() ==> #[trigger] idx@[t2] < doc.pages.len(),
            r@ == pages_at(*doc, idx@.subrange(0, t as int)),
        decreases idx.len() - t,
    {
        r.push(doc.pages[idx[t]]);
        t += 1;
        assert(r@ =~= pages_at(*doc, idx@.subrange(0, t as int)));
    }
    assert(idx@.subrange(0, idx.len() as int) =~= idx@);
    proof {
        assert forall|i: int, j: int| 0 <= i < r.len() && 0 <= j < r.len() && i != j implies #[trigger] r@[i] != #[trigger] r@[j] by {
            if i < j {
                assert(idx@[i] < idx@[j]);
            } else {
                assert(idx@[j] < idx@[i]);
            }
        }
        assert forall|j: int| 0 <= j < r.len() implies doc.has(#[trigger] r@[j]) by {}
    }
    r
}

/// Extracts the pages that the range expression `page_ranges` selects
/// into one document, in ascending page order, copied in one copy pass.
/// Fails as `parse_page_ranges` does, or with `NoPagesSelected` where
/// nothing is selected.
pub fn split_pdf_by_range(doc: &Document, page_ranges: &str) -> (r: Result<Document, PdfError>)
    requires
        doc.wf(),
        doc.objects.len() + 2 <= u32::MAX,
    ensures
        match selection(page_ranges.spec_bytes(), doc.pages.len() as int) {
            Err(e) => r == Err::<Document, PdfError>(e),
            Ok(set) => if set =~= Set::empty() {
                r == Err::<Document, PdfError>(PdfError::NoPagesSelected)
            } else {
                r is Ok && exists|v: Seq<usize>| sorted_set(v, set) && extracted(r->Ok_0, *doc, pages_at(*doc, v))
            },
        },
{
    let idx = match parse_page_ranges(page_ranges, doc.pages.len()) {
        Ok(v) => v,
        Err(e) => {
            return Err(e);
        },
    };
    let ghost set = selection(page_ranges.spec_bytes(), doc.pages.len() as int)->Ok_0;
    if idx.len() == 0 {
        proof {
            assert forall|k: int| !set.contains(k) by {}
            assert(set =~= Set::empty());
        }
        return Err(PdfError::NoPagesSelected);
    }
    proof {
        lemma_selection_in_range(page_ranges.spec_bytes(), doc.pages.len() as int);
        assert(set.contains(idx@[0] as int));
        assert forall|t: int| 0 <= t < idx.len() implies #[trigger] idx@[t] < doc.pages.len() by {
            assert(set.contains(idx@[t] as int));
        }
    }
    let sel = select_pages(doc, &idx);
    let index = StoreIndex::build(doc);
    let out = extract_pages(doc, &index, &sel);
    Ok(out)
}

/// Extracts each page that the range expression `page_ranges` selects into
/// a document of its own, in ascending page order, each copied in a copy
/// pass of its own. Fails as `split_pdf_by_range` does.
pub fn split_pdf_by_pages(doc: &Document, page_ranges: &str) -> (r: Result<Vec<Document>, PdfError>)
    requires
        doc.wf(),
        doc.objects.len() + 2 <= u32::MAX,
    ensures
        match selection(page_ranges.spec_bytes(), doc.pages.len() as int) {
            Err(e) => r == Err::<Vec<Document>, PdfError>(e),
            Ok(set) => if set =~= Set::empty() {
                r == Err::<Vec<Document>, PdfError>(PdfError::NoPagesSelected)
            } else {
                r is Ok && exists|v: Seq<usize>| {
                    &&& sorted_set(v, set)
                    &&& r->Ok_0.len() == v.len()
                    &&& forall|t: int| 0 <= t < v.len() ==> v[t] < doc.pages.len() && #[trigger] extracted(r->Ok_0@[t], *doc, seq![doc.pages@[v[t] as int]])
                }
            },
        },
{
    let idx = match parse_page_ranges(page_ranges, doc.pages.len()) {
        Ok(v) => v,
        Err(e) => {
            return Err(e);
        },
    };
    let ghost set = selection(page_ranges.spec_bytes(), doc.pages.len() as int)->Ok_0;
    if idx.len() == 0 {
        proof {
            assert forall|k: int| !set.contains(k) by {}
            assert(set =~= Set::empty());
        }
        return Err(PdfError::NoPagesSelected);
    }
    proof {
        lemma_selection_in_range(page_ranges.spec_bytes(), doc.pages.len() as int);
        assert(set.contains(idx@[0] as int));
        assert forall|t: int| 0 <= t < idx.len() implies #[trigger] idx@[t] < doc.pages.len() by {
            assert(set.contains(idx@[t] as int));
        }
    }
    let index = StoreIndex::build(doc);
    let mut out: Vec<Document> = Vec::new();
    let mut t: usize = 0;
    while t < idx.len()
        invariant
            doc.wf(),
            index.indexes(*doc),
            doc.objects.len() + 2 <= u32::MAX,
            forall|t2: int| 0 <= t2 < idx.len() ==> #[trigger] idx@[t2] < doc.pages.len(),
            t <= idx.len(),
            out.len() == t,
            forall|q: int| 0 <= q < t ==> #[trigger] extracted(out@[q], *doc, seq![doc.pages@[idx@[q] as int]]),
        decreases idx.len() - t,
    {
        let mut sel: Vec<ObjectId> = Vec::new();
        sel.push(doc.pages[idx[t]]);
        proof {
            assert(sel@ =~= seq![doc.pages@[idx@[t as int] as int]]);
            assert(doc.has(doc.pages@[idx@[t as int] as int]));
        }
        let one = extract_pages(doc, &index, &sel);
        out.push(one);
        t += 1;
    }
    Ok(out)
}

} // verus!
