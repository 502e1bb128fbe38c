use pdf_tools::document::Document;
use pdf_tools::object::{Object, ObjectId, PdfError, StringFormat};
use pdf_tools::ops::{get_pdf_page_count, merge_pdfs, split_pdf, split_pdf_by_pages, split_pdf_by_range};

fn oid(num: u32) -> ObjectId {
    ObjectId { num, gen: 0 }
}

fn name(s: &str) -> Vec<u8> {
    s.as_bytes().to_vec()
}

fn dict(entries: Vec<(&str, Object)>) -> Object {
    Object::Dictionary(entries.into_iter().map(|(k, v)| (name(k), v)).collect())
}

fn get(doc: &Document, id: ObjectId) -> &Object {
    &doc.objects.iter().find(|(i, _)| *i == id).expect("object present").1
}

fn entry<'a>(o: &'a Object, key: &str) -> &'a Object {
    match o {
        Object::Dictionary(d) | Object::Stream(d, _) => {
            &d.iter().find(|(k, _)| k.as_slice() == key.as_bytes()).expect("key present").1
        }
        _ => panic!("not a dictionary"),
    }
}

fn reference(o: &Object) -> ObjectId {
    match o {
        Object::Reference(id) => *id,
        _ => panic!("not a reference"),
    }
}

/// Two pages sharing a font; the first also has a content stream.
fn two_page_doc() -> Document {
    let font = dict(vec![("Type", Object::Name(name("Font"))), ("BaseFont", Object::Name(name("Helvetica")))]);
    let page1 = dict(vec![
        ("Type", Object::Name(name("Page"))),
        ("Parent", Object::Reference(oid(4))),
        ("Font", Object::Reference(oid(1))),
        ("Contents", Object::Reference(oid(5))),
    ]);
    let page2 = dict(vec![
        ("Type", Object::Name(name("Page"))),
        ("Parent", Object::Reference(oid(4))),
        ("Font", Object::Reference(oid(1))),
        ("Title", Object::String(name("two"), StringFormat::Literal)),
    ]);
    let pages = dict(vec![
        ("Type", Object::Name(name("Pages"))),
        ("Kids", Object::Array(vec![Object::Reference(oid(2)), Object::Reference(oid(3))])),
        ("Count", Object::Integer(2)),
    ]);
    let stream = Object::Stream(vec![(name("Length"), Object::Integer(3))], vec![1, 2, 3]);
    Document {
        objects: vec![(oid(1), font), (oid(2), page1), (oid(3), page2), (oid(4), pages), (oid(5), stream)],
        trailer: vec![],
        pages: vec![oid(2), oid(3)],
    }
}

fn empty_doc() -> Document {
    Document { objects: vec![], trailer: vec![], pages: vec![] }
}

/// Checks the page tree of an assembled document and returns its page ids.
fn check_tree(doc: &Document) -> Vec<ObjectId> {
    assert_eq!(doc.trailer.len(), 1);
    assert_eq!(doc.trailer[0].0, name("Root"));
    let catalog = get(doc, reference(&doc.trailer[0].1));
    assert!(matches!(entry(catalog, "Type"), Object::Name(n) if *n == name("Catalog")));
    let node = get(doc, reference(entry(catalog, "Pages")));
    let kids: Vec<ObjectId> = match entry(node, "Kids") {
        Object::Array(a) => a.iter().map(reference).collect(),
        _ => panic!("Kids is not an array"),
    };
    assert!(matches!(entry(node, "Count"), Object::Integer(c) if *c == kids.len() as i64));
    assert_eq!(kids, doc.pages);
    for k in &kids {
        assert_eq!(reference(entry(get(doc, *k), "Parent")), reference(entry(catalog, "Pages")));
    }
    kids
}

#[test]
fn merge_of_nothing_is_empty_input() {
    assert_eq!(merge_pdfs(&vec![]).err(), Some(PdfError::EmptyInput));
}

#[test]
fn merge_counts_pages_in_document_order() {
    let a = two_page_doc();
    let b = two_page_doc();
    let out = merge_pdfs(&vec![a, empty_doc(), b]).unwrap();
    let kids = check_tree(&out);
    assert_eq!(get_pdf_page_count(&out), 4);
    let titles: Vec<bool> = kids.iter().map(|k| match get(&out, *k) {
        Object::Dictionary(d) => d.iter().any(|(key, _)| key.as_slice() == b"Title"),
        _ => false,
    }).collect();
    assert_eq!(titles, vec![false, true, false, true]);
}

#[test]
fn shared_font_copied_once_per_document() {
    let out = merge_pdfs(&vec![two_page_doc(), two_page_doc()]).unwrap();
    let kids = check_tree(&out);
    let fonts: Vec<ObjectId> = kids.iter().map(|k| reference(entry(get(&out, *k), "Font"))).collect();
    assert_eq!(fonts[0], fonts[1]);
    assert_eq!(fonts[2], fonts[3]);
    assert_ne!(fonts[0], fonts[2]);
    assert!(matches!(entry(get(&out, fonts[0]), "BaseFont"), Object::Name(n) if *n == name("Helvetica")));
}

#[test]
fn split_gives_one_document_per_page() {
    let parts = split_pdf(&two_page_doc());
    assert_eq!(parts.len(), 2);
    for part in &parts {
        assert_eq!(get_pdf_page_count(part), 1);
        check_tree(part);
    }
    // page tree node, page, font, content stream, catalog: the source page tree is not copied
    assert_eq!(parts[0].objects.len(), 5);
    assert_eq!(parts[1].objects.len(), 4);
}

#[test]
fn split_keeps_stream_bytes() {
    let parts = split_pdf(&two_page_doc());
    let page = get(&parts[0], parts[0].pages[0]);
    match get(&parts[0], reference(entry(page, "Contents"))) {
        Object::Stream(d, content) => {
            assert_eq!(content, &vec![1u8, 2, 3]);
            assert!(matches!(d[0].1, Object::Integer(3)));
        }
        _ => panic!("not a stream"),
    }
}

#[test]
fn split_then_merge_keeps_page_sequence() {
    let doc = two_page_doc();
    let parts = split_pdf(&doc);
    let out = merge_pdfs(&parts).unwrap();
    let kids = check_tree(&out);
    assert_eq!(kids.len(), 2);
    assert!(matches!(entry(get(&out, kids[1]), "Title"), Object::String(s, StringFormat::Literal) if *s == name("two")));
    assert!(matches!(entry(get(&out, kids[0]), "Contents"), Object::Reference(_)));
}

#[test]
fn self_reference_is_copied_once() {
    let cyclic = dict(vec![
        ("Me", Object::Reference(oid(1))),
        ("Via", Object::Array(vec![Object::Integer(7), Object::Reference(oid(1))])),
    ]);
    let page = dict(vec![("Type", Object::Name(name("Page"))), ("Loop", Object::Reference(oid(1)))]);
    let doc = Document { objects: vec![(oid(1), cyclic), (oid(2), page)], trailer: vec![], pages: vec![oid(2)] };
    let parts = split_pdf(&doc);
    let out = &parts[0];
    // page tree node, page, the one copy, catalog
    assert_eq!(out.objects.len(), 4);
    let copy = reference(entry(get(out, out.pages[0]), "Loop"));
    let obj = get(out, copy);
    assert_eq!(reference(entry(obj, "Me")), copy);
    match entry(obj, "Via") {
        Object::Array(a) => {
            assert!(matches!(a[0], Object::Integer(7)));
            assert_eq!(reference(&a[1]), copy);
        }
        _ => panic!("not an array"),
    }
}

#[test]
fn broken_reference_becomes_null() {
    let page = dict(vec![("Type", Object::Name(name("Page"))), ("Gone", Object::Reference(oid(99)))]);
    let doc = Document { objects: vec![(oid(1), page)], trailer: vec![], pages: vec![oid(1)] };
    let parts = split_pdf(&doc);
    assert!(matches!(entry(get(&parts[0], parts[0].pages[0]), "Gone"), Object::Null));
}

#[test]
fn page_without_parent_gets_one() {
    let page = dict(vec![("Type", Object::Name(name("Page")))]);
    let doc = Document { objects: vec![(oid(1), page)], trailer: vec![], pages: vec![oid(1)] };
    let parts = split_pdf(&doc);
    check_tree(&parts[0]);
}

#[test]
fn range_split_combines_selected_pages() {
    let out = split_pdf_by_range(&two_page_doc(), "2, 1").unwrap();
    let kids = check_tree(&out);
    assert_eq!(kids.len(), 2);
    assert!(matches!(entry(get(&out, kids[1]), "Title"), Object::String(..)));
    let one = split_pdf_by_range(&two_page_doc(), "2").unwrap();
    assert_eq!(get_pdf_page_count(&one), 1);
}

#[test]
fn range_split_reports_parse_errors() {
    assert_eq!(split_pdf_by_range(&two_page_doc(), "3").err(), Some(PdfError::RangeOutOfBounds));
    assert_eq!(split_pdf_by_range(&two_page_doc(), "x").err(), Some(PdfError::InvalidSyntax));
    assert_eq!(split_pdf_by_pages(&two_page_doc(), "2-1").err(), Some(PdfError::RangeOutOfBounds));
}

#[test]
fn page_split_gives_one_document_per_selected_page() {
    let parts = split_pdf_by_pages(&two_page_doc(), "1-2,2").unwrap();
    assert_eq!(parts.len(), 2);
    for part in &parts {
        assert_eq!(get_pdf_page_count(part), 1);
    }
    assert!(matches!(entry(get(&parts[1], parts[1].pages[0]), "Title"), Object::String(..)));
}

#[test]
fn extracted_pages_take_the_first_ids() {
    let out = split_pdf_by_range(&two_page_doc(), "1,2").unwrap();
    assert_eq!(out.pages, vec![oid(2), oid(3)]);
    let parts = split_pdf_by_pages(&two_page_doc(), "1-2").unwrap();
    let whole = split_pdf(&two_page_doc());
    for (a, b) in parts.iter().zip(whole.iter()) {
        assert_eq!(a.pages, b.pages);
        assert_eq!(a.objects.len(), b.objects.len());
        let ids_a: Vec<ObjectId> = a.objects.iter().map(|(i, _)| *i).collect();
        let ids_b: Vec<ObjectId> = b.objects.iter().map(|(i, _)| *i).collect();
        assert_eq!(ids_a, ids_b);
    }
}

#[test]
fn merge_stores_nothing_twice_and_resolves_every_reference() {
    let out = merge_pdfs(&vec![two_page_doc(), two_page_doc()]).unwrap();
    // per document: two pages, one font, one stream; plus the page tree node and the catalog
    assert_eq!(out.objects.len(), 2 * 4 + 2);
    fn refs(o: &Object, acc: &mut Vec<ObjectId>) {
        match o {
            Object::Reference(id) => acc.push(*id),
            Object::Array(a) => a.iter().for_each(|x| refs(x, acc)),
            Object::Dictionary(d) | Object::Stream(d, _) => d.iter().for_each(|(_, x)| refs(x, acc)),
            _ => {}
        }
    }
    let mut all = Vec::new();
    for (_, o) in &out.objects {
        refs(o, &mut all);
    }
    for id in all {
        assert!(out.objects.iter().any(|(i, _)| *i == id));
    }
}
