use lopdf::{Dictionary, Document, Object, ObjectId};
use pdftrim::crop::crop_pdf;
use pdftrim::error::TrimError;

fn name(s: &str) -> Object {
    Object::Name(s.as_bytes().to_vec())
}

fn rect(v: [f32; 4]) -> Object {
    Object::Array(v.iter().map(|&x| Object::Real(x)).collect())
}

/// A document with `n` pages under one page-tree node, and the pages' ids.
fn document(n: usize) -> (Document, Vec<ObjectId>) {
    let mut doc = Document::with_version("1.5");
    let pages_id = doc.new_object_id();
    let mut ids = Vec::new();
    for _ in 0..n {
        let mut page = Dictionary::new();
        page.set("Type", name("Page"));
        page.set("Parent", Object::Reference(pages_id));
        page.set("MediaBox", rect([0.0, 0.0, 612.0, 792.0]));
        page.set("Rotate", Object::Integer(90));
        ids.push(doc.add_object(page));
    }
    let mut pages = Dictionary::new();
    pages.set("Type", name("Pages"));
    pages.set("Kids", Object::Array(ids.iter().map(|&id| Object::Reference(id)).collect()));
    pages.set("Count", Object::Integer(n as i64));
    doc.objects.insert(pages_id, Object::Dictionary(pages));
    let mut catalog = Dictionary::new();
    catalog.set("Type", name("Catalog"));
    catalog.set("Pages", Object::Reference(pages_id));
    let catalog_id = doc.add_object(catalog);
    doc.trailer.set("Root", Object::Reference(catalog_id));
    (doc, ids)
}

#[test]
fn every_page_gets_its_positional_crop() {
    let (mut doc, ids) = document(2);
    let crops = vec![rect([1.5, 2.5, 3.5, 4.5]), rect([5.0, 6.0, 7.0, 8.0])];
    assert_eq!(crop_pdf(&mut doc, crops.clone()), Ok(()));
    for (id, crop) in ids.iter().zip(crops.iter()) {
        let page = doc.get_dictionary(*id).unwrap();
        assert_eq!(page.get(b"CropBox").unwrap(), crop);
        assert_eq!(page.get(b"MediaBox").unwrap(), &rect([0.0, 0.0, 612.0, 792.0]));
        assert_eq!(page.get(b"Rotate").unwrap(), &Object::Integer(90));
        assert_eq!(page.len(), 5);
    }
}

#[test]
fn page_count_mismatch_leaves_the_document_alone() {
    let (mut doc, ids) = document(2);
    let crops = vec![rect([1.0, 2.0, 3.0, 4.0])];
    assert_eq!(
        crop_pdf(&mut doc, crops),
        Err(TrimError::PageCountMismatch { pages: 2, boxes: 1 })
    );
    for id in ids {
        assert!(!doc.get_dictionary(id).unwrap().has(b"CropBox"));
    }
}

#[test]
fn page_that_is_no_dictionary_is_malformed() {
    let (mut doc, ids) = document(1);
    let page = doc.objects.remove(&ids[0]).unwrap();
    let moved = doc.add_object(page);
    doc.objects.insert(ids[0], Object::Reference(moved));
    assert_eq!(
        crop_pdf(&mut doc, vec![rect([1.0, 2.0, 3.0, 4.0])]),
        Err(TrimError::MalformedPageObject { page: 0 })
    );
}

#[test]
fn cropping_twice_with_the_same_rectangles_changes_nothing() {
    let (mut doc, ids) = document(2);
    let crops = vec![rect([1.5, 2.5, 3.5, 4.5]), rect([5.0, 6.0, 7.0, 8.0])];
    assert_eq!(crop_pdf(&mut doc, crops.clone()), Ok(()));
    let once: Vec<Dictionary> = ids.iter().map(|id| doc.get_dictionary(*id).unwrap().clone()).collect();
    assert_eq!(crop_pdf(&mut doc, crops), Ok(()));
    for (id, page) in ids.iter().zip(once.iter()) {
        assert_eq!(doc.get_dictionary(*id).unwrap(), page);
    }
}

#[test]
fn objects_other_than_pages_keep_their_entries() {
    let (mut doc, _) = document(1);
    let before = doc.catalog().unwrap().clone();
    assert_eq!(crop_pdf(&mut doc, vec![rect([1.0, 2.0, 3.0, 4.0])]), Ok(()));
    assert_eq!(doc.catalog().unwrap(), &before);
}

#[test]
fn page_tree_with_an_absurd_count_is_walked_page_by_page() {
    let mut doc = Document::with_version("1.5");
    let root_id = doc.new_object_id();
    let inner_id = doc.new_object_id();
    let mut first = Dictionary::new();
    first.set("Type", name("Page"));
    first.set("Parent", Object::Reference(root_id));
    let first_id = doc.add_object(first);
    let mut second = Dictionary::new();
    second.set("Type", name("Page"));
    second.set("Parent", Object::Reference(inner_id));
    let second_id = doc.add_object(second);
    let mut inner = Dictionary::new();
    inner.set("Type", name("Pages"));
    inner.set("Parent", Object::Reference(root_id));
    inner.set("Kids", Object::Array(vec![Object::Reference(second_id)]));
    inner.set("Count", Object::Integer(4611686018427387904));
    doc.objects.insert(inner_id, Object::Dictionary(inner));
    let mut root = Dictionary::new();
    root.set("Type", name("Pages"));
    root.set(
        "Kids",
        Object::Array(vec![Object::Reference(first_id), Object::Reference(inner_id)]),
    );
    root.set("Count", Object::Integer(2));
    doc.objects.insert(root_id, Object::Dictionary(root));
    let mut catalog = Dictionary::new();
    catalog.set("Type", name("Catalog"));
    catalog.set("Pages", Object::Reference(root_id));
    let catalog_id = doc.add_object(catalog);
    doc.trailer.set("Root", Object::Reference(catalog_id));

    let crops = vec![rect([1.0, 2.0, 3.0, 4.0]), rect([5.0, 6.0, 7.0, 8.0])];
    assert_eq!(crop_pdf(&mut doc, crops.clone()), Ok(()));
    assert_eq!(doc.get_dictionary(first_id).unwrap().get(b"CropBox").unwrap(), &crops[0]);
    assert_eq!(doc.get_dictionary(second_id).unwrap().get(b"CropBox").unwrap(), &crops[1]);
}
