//! Writing the authoritative rectangles into the pages' crop rectangles.
//!
//! Pages and rectangles are paired by position only: the rasterizer tags
//! its records with no page identifier, so a page it skipped would shift
//! every later rectangle by one while the counts could still agree.
use vstd::prelude::*;

use crate::error::TrimError;

verus! {

#[verifier::external_type_specification]
#[verifier::external_body]
pub struct ExDocument(lopdf::Document);

#[verifier::external_type_specification]
#[verifier::external_body]
pub struct ExObject(lopdf::Object);

/// The identifiers of a document's pages, in the order of its page tree.
pub uninterp spec fn page_list(d: lopdf::Document) -> Seq<(u32, u16)>;

/// The `CropBox` entry of each object of a document that is a dictionary
/// holding one.
pub uninterp spec fn crop_entries(d: lopdf::Document) -> Map<(u32, u16), lopdf::Object>;

/// The identifiers whose object in the document's object table is itself a
/// dictionary (not a reference to one).
pub uninterp spec fn dict_ids(d: lopdf::Document) -> Set<(u32, u16)>;

/// The document with the `CropBox` entry taken out of every dictionary
/// object, the other entries kept in their order.
pub uninterp spec fn without_crops(d: lopdf::Document) -> lopdf::Document;

/// Relies on `lopdf::Document::page_iter`: the pages of the page tree, in
/// order. They are pushed one by one: the iterator's size hint adds up the
/// tree's `/Count` entries, which a malformed file can set to anything.
#[verifier::external_body]
fn page_ids(doc: &lopdf::Document) -> (r: Vec<(u32, u16)>)
    ensures
        r@ == page_list(*doc),
{
    let mut r = Vec::new();
    for id in doc.page_iter() {
        r.push(id);
    }
    r
}

/// Relies on `lopdf::Object::as_dict_mut` and `lopdf::Dictionary::set`: when
/// the object stored under `id` is a dictionary, its `CropBox` entry becomes
/// `crop` and nothing else changes (the page tree reads no `CropBox`);
/// otherwise the document is left as it was. `as_dict_mut` fails exactly on
/// an object that is not a dictionary.
#[verifier::external_body]
fn set_crop_box(doc: &mut lopdf::Document, id: (u32, u16), crop: lopdf::Object) -> (r: bool)
    ensures
        r == dict_ids(*old(doc)).contains(id),
        r ==> crop_entries(*final(doc)) == crop_entries(*old(doc)).insert(id, crop),
        page_list(*final(doc)) == page_list(*old(doc)),
        dict_ids(*final(doc)) == dict_ids(*old(doc)),
        without_crops(*final(doc)) == without_crops(*old(doc)),
        !r ==> *final(doc) == *old(doc),
{
    match doc.objects.get_mut(&id).map(lopdf::Object::as_dict_mut) {
        Some(Ok(page)) => {
            page.set("CropBox", crop);
            true
        },
        _ => false,
    }
}

/// The crop entries after giving page `pages[i]` the crop `crops[i]`, one
/// page after the other.
pub open spec fn with_crops(
    entries: Map<(u32, u16), lopdf::Object>,
    pages: Seq<(u32, u16)>,
    crops: Seq<lopdf::Object>,
) -> Map<(u32, u16), lopdf::Object>
    decreases pages.len(),
{
    if pages.len() == 0 || crops.len() == 0 {
        entries
    } else {
        with_crops(entries, pages.drop_last(), crops.drop_last()).insert(
            pages.last(),
            crops.last(),
        )
    }
}

/// When the page list names no page twice and there are as many crops as
/// pages, each page ends with the crop at its own position, and every other
/// object keeps the crop entry it had.
pub proof fn lemma_positional_crops(
    entries: Map<(u32, u16), lopdf::Object>,
    pages: Seq<(u32, u16)>,
    crops: Seq<lopdf::Object>,
)
    requires
        pages.len() == crops.len(),
        pages.no_duplicates(),
    ensures
        forall|i: int|
            0 <= i < pages.len() ==> with_crops(entries, pages, crops).contains_key(#[trigger] pages[i])
                && with_crops(entries, pages, crops)[pages[i]] == crops[i],
        forall|id: (u32, u16)|
            !pages.contains(id) ==> with_crops(entries, pages, crops).contains_key(id)
                == entries.contains_key(id) && with_crops(entries, pages, crops).index(id)
                == entries.index(id),
    decreases pages.len(),
{
    if pages.len() > 0 {
        let front = pages.drop_last();
        let fc = crops.drop_last();
        assert(front.no_duplicates());
        lemma_positional_crops(entries, front, fc);
        assert forall|i: int| 0 <= i < pages.len() implies with_crops(entries, pages, crops).contains_key(
            #[trigger] pages[i],
        ) && with_crops(entries, pages, crops)[pages[i]] == crops[i] by {
            if i < pages.len() - 1 {
                assert(pages[i] == front[i]);
                assert(pages[i] != pages.last());
            }
        }
        assert forall|id: (u32, u16)| !pages.contains(id) implies with_crops(
            entries,
            pages,
            crops,
        ).contains_key(id) == entries.contains_key(id) && with_crops(entries, pages, crops).index(id)
            == entries.index(id) by {
            if front.contains(id) {
                let j = choose|j: int| 0 <= j < front.len() && front[j] == id;
                assert(pages[j] == id);
            }
            assert(id != pages[pages.len() - 1]);
        }
    }
}

/// The crop entries after a pass are the old ones overridden by the pass's
/// own assignments.
proof fn lemma_crops_override(
    entries: Map<(u32, u16), lopdf::Object>,
    pages: Seq<(u32, u16)>,
    crops: Seq<lopdf::Object>,
)
    ensures
        with_crops(entries, pages, crops) == entries.union_prefer_right(
            with_crops(Map::empty(), pages, crops),
        ),
    decreases pages.len(),
{
    if pages.len() == 0 || crops.len() == 0 {
        assert(entries.union_prefer_right(Map::empty()) =~= entries);
    } else {
        lemma_crops_override(entries, pages.drop_last(), crops.drop_last());
        let own = with_crops(Map::empty(), pages.drop_last(), crops.drop_last());
        assert(entries.union_prefer_right(own).insert(pages.last(), crops.last()) =~= entries.union_prefer_right(
            own.insert(pages.last(), crops.last()),
        ));
    }
}

/// Giving the same pages the same crops a second time changes no crop entry.
pub proof fn lemma_crops_idempotent(
    entries: Map<(u32, u16), lopdf::Object>,
    pages: Seq<(u32, u16)>,
    crops: Seq<lopdf::Object>,
)
    ensures
        with_crops(with_crops(entries, pages, crops), pages, crops) == with_crops(
            entries,
            pages,
            crops,
        ),
{
    let own = with_crops(Map::empty(), pages, crops);
    lemma_crops_override(entries, pages, crops);
    lemma_crops_override(with_crops(entries, pages, crops), pages, crops);
    assert(entries.union_prefer_right(own).union_prefer_right(own) =~= entries.union_prefer_right(own));
}

/// After a successful cropping of a page list that names no page twice,
/// each page holds the crop at its own position and every object that is no
/// page keeps the crop entry it had.
pub proof fn lemma_cropped_document(
    before: lopdf::Document,
    after: lopdf::Document,
    crops: Seq<lopdf::Object>,
)
    requires
        page_list(before).len() == crops.len(),
        page_list(before).no_duplicates(),
        crop_entries(after) == with_crops(crop_entries(before), page_list(before), crops),
    ensures
        forall|i: int|
            0 <= i < page_list(before).len() ==> crop_entries(after).contains_key(
                #[trigger] page_list(before)[i],
            ) && crop_entries(after)[page_list(before)[i]] == crops[i],
        forall|id: (u32, u16)|
            !page_list(before).contains(id) ==> crop_entries(after).contains_key(id)
                == crop_entries(before).contains_key(id) && crop_entries(after).index(id)
                == crop_entries(before).index(id),
{
    lemma_positional_crops(crop_entries(before), page_list(before), crops);
}

/// After a successful cropping, every page is still a dictionary, so
/// cropping again with the same rectangles succeeds; and that second pass
/// leaves the crop entries, the page list and everything besides the crop
/// entries as the first pass left them.
pub proof fn lemma_recrop_changes_nothing(
    before: lopdf::Document,
    once: lopdf::Document,
    twice: lopdf::Document,
    crops: Seq<lopdf::Object>,
)
    requires
        crop_entries(once) == with_crops(crop_entries(before), page_list(before), crops),
        crop_entries(twice) == with_crops(crop_entries(once), page_list(once), crops),
        page_list(once) == page_list(before),
        page_list(twice) == page_list(once),
        without_crops(once) == without_crops(before),
        without_crops(twice) == without_crops(once),
        dict_ids(once) == dict_ids(before),
        forall|i: int|
            0 <= i < page_list(before).len() ==> dict_ids(before).contains(
                #[trigger] page_list(before)[i],
            ),
    ensures
        forall|i: int|
            0 <= i < page_list(once).len() ==> dict_ids(once).contains(
                #[trigger] page_list(once)[i],
            ),
        crop_entries(twice) == crop_entries(once),
        page_list(twice) == page_list(once),
        without_crops(twice) == without_crops(once),
{
    lemma_crops_idempotent(crop_entries(before), page_list(before), crops);
}

/// Gives each page of `doc` the crop rectangle at its position in
/// `crop_boxes`; every entry but `CropBox` stays as it was. Fails, leaving
/// the document as it was, when the counts differ; fails on the first page
/// whose object is not a dictionary, and succeeds when every page is one.
pub fn crop_pdf(doc: &mut lopdf::Document, crop_boxes: Vec<lopdf::Object>) -> (r: Result<
    (),
    TrimError,
>)
    ensures
        page_list(*old(doc)).len() != crop_boxes@.len() <==> r == Err::<(), TrimError>(
            TrimError::PageCountMismatch {
                pages: page_list(*old(doc)).len() as usize,
                boxes: crop_boxes@.len() as usize,
            },
        ),
        page_list(*old(doc)).len() != crop_boxes@.len() ==> *final(doc) == *old(doc),
        page_list(*old(doc)).len() == crop_boxes@.len() && (forall|i: int|
            0 <= i < page_list(*old(doc)).len() ==> dict_ids(*old(doc)).contains(
                #[trigger] page_list(*old(doc))[i],
            )) ==> r is Ok,
        r is Ok ==> forall|i: int|
            0 <= i < page_list(*old(doc)).len() ==> dict_ids(*old(doc)).contains(
                #[trigger] page_list(*old(doc))[i],
            ),
        r is Ok ==> page_list(*final(doc)) == page_list(*old(doc)) && crop_entries(*final(doc))
            == with_crops(crop_entries(*old(doc)), page_list(*old(doc)), crop_boxes@)
            && without_crops(*final(doc)) == without_crops(*old(doc)) && dict_ids(*final(doc))
            == dict_ids(*old(doc)),
        r matches Err(TrimError::MalformedPageObject { page }) ==> page < page_list(
            *old(doc),
        ).len() && !dict_ids(*old(doc)).contains(page_list(*old(doc))[page as int]),
        r is Ok || r matches Err(TrimError::PageCountMismatch { .. }) || r matches Err(
            TrimError::MalformedPageObject { .. },
        ),
{
    let ids = page_ids(doc);
    if ids.len() != crop_boxes.len() {
        return Err(TrimError::PageCountMismatch { pages: ids.len(), boxes: crop_boxes.len() });
    }
    let ghost pages = ids@;
    let ghost crops = crop_boxes@;
    let ghost start = crop_entries(*doc);
    let mut rest = crop_boxes;
    let mut i: usize = 0;
    while i < ids.len()
        invariant
            pages == ids@,
            pages == page_list(*old(doc)),
            pages.len() == crops.len(),
            crops == crop_boxes@,
            start == crop_entries(*old(doc)),
            i <= pages.len(),
            rest@ == crops.subrange(i as int, crops.len() as int),
            page_list(*doc) == pages,
            dict_ids(*doc) == dict_ids(*old(doc)),
            forall|j: int| 0 <= j < i ==> dict_ids(*old(doc)).contains(#[trigger] pages[j]),
            without_crops(*doc) == without_crops(*old(doc)),
            crop_entries(*doc) == with_crops(
                start,
                pages.subrange(0, i as int),
                crops.subrange(0, i as int),
            ),
        decreases pages.len() - i,
    {
        let crop = rest.remove(0);
        if !set_crop_box(doc, ids[i], crop) {
            return Err(TrimError::MalformedPageObject { page: i });
        }
        proof {
            assert(pages.subrange(0, i + 1).drop_last() =~= pages.subrange(0, i as int));
            assert(crops.subrange(0, i + 1).drop_last() =~= crops.subrange(0, i as int));
            assert(rest@ =~= crops.subrange(i + 1, crops.len() as int));
        }
        i = i + 1;
    }
    proof {
        assert(pages.subrange(0, i as int) =~= pages);
        assert(crops.subrange(0, i as int) =~= crops);
    }
    Ok(())
}

} // verus!
