use vstd::prelude::*;
use crate::document::{seq_id, Document};
use crate::names::{
    catalog_key, catalog_name, count_key, count_name, kids_key, kids_name, kind_name, pages_key,
    pages_name, root_key, root_name, type_key,
};
use crate::object::{Entry, Object, ObjectId};

verus! {

/// The catalog object: `Type` is `Catalog` and `Pages` refers to `pages_id`.
pub open spec fn is_catalog(x: Object, pages_id: ObjectId) -> bool {
    x is Dictionary && {
        let e = x->Dictionary_0;
        &&& e.len() == 2
        &&& e[0].0@ == kind_name() && e[0].1 is Name && e[0].1->Name_0@ == catalog_name()
        &&& e[1].0@ == pages_name() && e[1].1 == Object::Reference(pages_id)
    }
}

/// The page tree node: `Type` is `Pages`, `Kids` refers to `kids` in order,
/// and `Count` is their number.
pub open spec fn is_pages_node(x: Object, kids: Seq<ObjectId>) -> bool {
    x is Dictionary && {
        let e = x->Dictionary_0;
        &&& e.len() == 3
        &&& e[0].0@ == kind_name() && e[0].1 is Name && e[0].1->Name_0@ == pages_name()
        &&& e[1].0@ == kids_name() && e[1].1 is Array && e[1].1->Array_0.len() == kids.len()
            && forall|i: int| 0 <= i < kids.len() ==> #[trigger] e[1].1->Array_0[i] == Object::Reference(kids[i])
        &&& e[2].0@ == count_name() && e[2].1 == Object::Integer(kids.len() as i64)
    }
}

/// The structure of an assembled document: the trailer's only entry is
/// `Root`, which refers to the catalog; the catalog refers to the page tree
/// node `pages_id`; that node lists the document's pages.
pub open spec fn tree_ok(doc: Document, pages_id: ObjectId) -> bool {
    &&& doc.trailer.len() == 1
    &&& doc.trailer[0].0@ == root_name()
    &&& doc.trailer[0].1 is Reference
    &&& doc.slot(doc.trailer[0].1->Reference_0)
    &&& is_catalog(doc.at(doc.trailer[0].1->Reference_0), pages_id)
    &&& doc.slot(pages_id)
    &&& doc.trailer[0].1->Reference_0 != pages_id
    &&& is_pages_node(doc.at(pages_id), doc.pages@)
}

/// Completes a document whose pages `kids` are copied: writes the page tree
/// node at its reserved id `pages_id`, adds the catalog, and points the
/// trailer's `Root` at it.
pub fn assemble(dst: Document, pages_id: ObjectId, kids: Vec<ObjectId>) -> (r: Document)
    requires
        dst.sequential(),
        dst.slot(pages_id),
        dst.objects.len() < u32::MAX,
        kids.len() <= dst.objects.len(),
    ensures
        r.sequential(),
        r.pages@ == kids@,
        tree_ok(r, pages_id),
        r.trailer[0].1 == Object::Reference(seq_id(dst.objects.len() as int)),
        r.objects.len() == dst.objects.len() + 1,
        forall|j: int| 0 <= j < dst.objects.len() && j != pages_id.num - 1 ==> #[trigger] r.objects@[j] == dst.objects@[j],
{
    let mut dst = dst;
    let mut refs: Vec<Object> = Vec::new();
    let mut i: usize = 0;
    while i < kids.len()
        invariant
            i <= kids.len(),
            refs.len() == i,
            forall|j: int| 0 <= j < i ==> #[trigger] refs[j] == Object::Reference(kids[j]),
        decreases kids.len() - i,
    {
        refs.push(Object::Reference(kids[i]));
        i += 1;
    }
    let count = kids.len() as i64;
    let mut node: Vec<Entry> = Vec::new();
    node.push((type_key(), Object::Name(pages_key())));
    node.push((kids_key(), Object::Array(refs)));
    node.push((count_key(), Object::Integer(count)));
    let ghost d0 = dst.objects@;
    dst.put(pages_id, Object::Dictionary(node));
    let ghost d1 = dst.objects@;
    let mut catalog: Vec<Entry> = Vec::new();
    catalog.push((type_key(), Object::Name(catalog_key())));
    catalog.push((pages_key(), Object::Reference(pages_id)));
    let catalog_id = dst.reserve();
    dst.put(catalog_id, Object::Dictionary(catalog));
    let mut trailer: Vec<Entry> = Vec::new();
    trailer.push((root_key(), Object::Reference(catalog_id)));
    let r = Document { objects: dst.objects, trailer, pages: kids };
    proof {
        assert(r.objects@[pages_id.num - 1] == d1[pages_id.num - 1]);
        assert forall|j: int| 0 <= j < d0.len() && j != pages_id.num - 1 implies #[trigger] r.objects@[j] == d0[j] by {
            assert(r.objects@[j] == d1[j]);
        }
    }
    r
}

} // verus!
