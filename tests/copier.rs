use pdf_tools::copier::copy_object;
use pdf_tools::document::Document;
use pdf_tools::idmap::{IdMap, StoreIndex};
use pdf_tools::object::{Object, ObjectId};

fn oid(num: u32) -> ObjectId {
    ObjectId { num, gen: 0 }
}

fn source() -> Document {
    let cyclic = Object::Dictionary(vec![
        (b"Me".to_vec(), Object::Reference(oid(7))),
        (b"Other".to_vec(), Object::Reference(oid(3))),
    ]);
    let leaf = Object::Integer(42);
    Document { objects: vec![(oid(7), cyclic), (oid(3), leaf), (oid(9), Object::Boolean(true))], trailer: vec![], pages: vec![] }
}

#[test]
fn cycle_copied_once_and_repointed() {
    let src = source();
    let index = StoreIndex::build(&src);
    let mut ids = IdMap::new();
    let mut dst = Document::new_empty();
    let r = copy_object(&src, &index, &Object::Reference(oid(7)), &mut ids, &mut dst);
    // the cyclic dictionary and the integer it refers to; the unreachable object stays behind
    assert_eq!(dst.objects.len(), 2);
    let new_id = match r {
        Object::Reference(id) => id,
        _ => panic!("not a reference"),
    };
    assert_eq!(new_id, oid(1));
    match &dst.objects[0].1 {
        Object::Dictionary(d) => {
            assert!(matches!(d[0].1, Object::Reference(id) if id == new_id));
            assert!(matches!(d[1].1, Object::Reference(id) if id == oid(2)));
        }
        _ => panic!("not a dictionary"),
    }
    assert!(matches!(dst.objects[1].1, Object::Integer(42)));
}

#[test]
fn second_reference_reuses_the_copy() {
    let src = source();
    let index = StoreIndex::build(&src);
    let mut ids = IdMap::new();
    let mut dst = Document::new_empty();
    let first = copy_object(&src, &index, &Object::Reference(oid(3)), &mut ids, &mut dst);
    let both = Object::Array(vec![Object::Reference(oid(3)), Object::Reference(oid(3)), Object::Reference(oid(5))]);
    let again = copy_object(&src, &index, &both, &mut ids, &mut dst);
    assert_eq!(dst.objects.len(), 1);
    match again {
        Object::Array(a) => {
            assert!(matches!((&first, &a[0]), (Object::Reference(x), Object::Reference(y)) if x == y));
            assert!(matches!((&first, &a[1]), (Object::Reference(x), Object::Reference(y)) if x == y));
            assert!(matches!(a[2], Object::Null));
        }
        _ => panic!("not an array"),
    }
}
