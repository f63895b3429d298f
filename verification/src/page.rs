//! Loading a document and finding the box that a viewer shows for a page.
use crate::document::{
    lopdf_error_text,
    dictionary_at, document_max_id, document_objects, document_pages, document_trailer, encrypt_key,
    entry_reference, err, is_encrypted, load_document, page_ids,
};
use crate::object::{
    dict_get, find_key, ids_at_most, keys_distinct, reference_of, resolve_dict, Entries, ObjectId,
    PdfObject,
};
use crate::names::{
    crop_box_key, crop_box_name, media_box_key, media_box_name, parent_key, parent_name,
};
use vstd::prelude::*;

verus! {

/// How many levels of the page tree are searched for a box.
pub open spec fn tree_depth_limit() -> nat {
    16
}

/// An integer or a real.
pub open spec fn is_number(o: PdfObject) -> bool {
    o is Integer || o is Real
}

/// The box stored under the key: an array of exactly four numbers.
pub open spec fn box_of(d: Seq<(Vec<u8>, PdfObject)>, key: Seq<u8>) -> Option<Vec<PdfObject>> {
    match dict_get(d, key) {
        Some(PdfObject::Array(v)) => if v@.len() == 4 && forall|i: int|
            0 <= i < 4 ==> is_number(#[trigger] v@[i]) {
            Some(v)
        } else {
            None
        },
        _ => None,
    }
}

/// What the search for a page's box comes to.
pub enum BoxSearch {
    /// The box, from the first node on the way up that has a usable one.
    Found(Vec<PdfObject>),
    /// A node on the way is not a dictionary, or has no box and no parent that
    /// it refers to.
    Broken,
    /// No box within the searched levels.
    Exhausted,
}

/// The nearest usable box under the key on the way up from the node `id`: the
/// node's own, else its parent's, and so on, through at most `levels` nodes.
pub open spec fn inherited_box(
    objects: Map<ObjectId, PdfObject>,
    id: ObjectId,
    levels: nat,
    key: Seq<u8>,
) -> BoxSearch
    decreases levels,
{
    if levels == 0 {
        BoxSearch::Exhausted
    } else {
        match resolve_dict(objects, id) {
            None => BoxSearch::Broken,
            Some(d) => match box_of(d, key) {
                Some(b) => BoxSearch::Found(b),
                None => match reference_of(dict_get(d, parent_key())) {
                    Some(parent) => inherited_box(objects, parent, (levels - 1) as nat, key),
                    None => BoxSearch::Broken,
                },
            },
        }
    }
}

/// The box that a viewer shows for the node `id`, searching it and up to
/// `levels - 1` of its ancestors: the nearest usable `CropBox` (a `CropBox` is
/// inherited down the page tree), and where there is none on the way, the
/// nearest usable `MediaBox`.
pub open spec fn page_box(objects: Map<ObjectId, PdfObject>, id: ObjectId, levels: nat) -> BoxSearch {
    match inherited_box(objects, id, levels, crop_box_key()) {
        BoxSearch::Found(b) => BoxSearch::Found(b),
        _ => inherited_box(objects, id, levels, media_box_key()),
    }
}

/// A `CropBox` that the node inherits from its parent wins over the node's own
/// `MediaBox`: where the node has no usable `CropBox` of its own and refers to a
/// parent that has one, that is the box shown.
pub proof fn lemma_inherited_crop_box(
    objects: Map<ObjectId, PdfObject>,
    id: ObjectId,
    parent: ObjectId,
    levels: nat,
)
    requires
        levels >= 2,
        resolve_dict(objects, id) matches Some(d) && box_of(d, crop_box_key()) is None
            && reference_of(dict_get(d, parent_key())) == Some(parent),
        resolve_dict(objects, parent) matches Some(p) && box_of(p, crop_box_key()) is Some,
    ensures
        page_box(objects, id, levels) == BoxSearch::Found(
            box_of(resolve_dict(objects, parent).unwrap(), crop_box_key()).unwrap(),
        ),
{
    assert(inherited_box(objects, parent, (levels - 1) as nat, crop_box_key()) == BoxSearch::Found(
        box_of(resolve_dict(objects, parent).unwrap(), crop_box_key()).unwrap(),
    ));
}

/// The `MediaBox` counts only where no node on the way has a usable `CropBox`;
/// then the box shown is the nearest usable `MediaBox`, and the search fails as
/// that one does.
pub proof fn lemma_media_box_fallback(objects: Map<ObjectId, PdfObject>, id: ObjectId, levels: nat)
    requires
        !(inherited_box(objects, id, levels, crop_box_key()) is Found),
    ensures
        page_box(objects, id, levels) == inherited_box(objects, id, levels, media_box_key()),
{
}

/// Along a chain of nodes, each the parent of the one before, with no usable
/// `CropBox` anywhere and no usable `MediaBox` before the last, which has one and
/// no parent: from the node at `i`, within `levels` nodes, the `CropBox` search
/// breaks off and the `MediaBox` search finds the last node's box.
proof fn lemma_chain_boxes(
    objects: Map<ObjectId, PdfObject>,
    chain: Seq<ObjectId>,
    b: Vec<PdfObject>,
    i: int,
    levels: nat,
)
    requires
        0 <= i < chain.len(),
        levels >= chain.len() - i,
        forall|k: int|
            0 <= k < chain.len() - 1 ==> (#[trigger] resolve_dict(objects, chain[k]) matches Some(d) && box_of(
                d,
                crop_box_key(),
            ) is None && box_of(d, media_box_key()) is None && reference_of(dict_get(d, parent_key()))
                == Some(chain[k + 1])),
        resolve_dict(objects, chain.last()) matches Some(d) && box_of(d, crop_box_key()) is None
            && box_of(d, media_box_key()) == Some(b) && reference_of(dict_get(d, parent_key())) is None,
    ensures
        inherited_box(objects, chain[i], levels, crop_box_key()) is Broken,
        inherited_box(objects, chain[i], levels, media_box_key()) == BoxSearch::Found(b),
    decreases chain.len() - i,
{
    if i < chain.len() - 1 {
        assert(resolve_dict(objects, chain[i]) is Some);
        lemma_chain_boxes(objects, chain, b, i + 1, (levels - 1) as nat);
    } else {
        assert(chain[i] == chain.last());
    }
}

/// The box of a page whose own box is inherited from far up the page tree: where
/// the page is the first of a chain of at most 16 nodes, each the parent of the
/// one before, none with a usable `CropBox`, none but the last with a usable
/// `MediaBox`, and the last (the root, with no parent) holding the usable
/// `MediaBox` `b`, the page's box is `b`.
pub proof fn lemma_inherited_media_box(objects: Map<ObjectId, PdfObject>, chain: Seq<ObjectId>, b: Vec<PdfObject>)
    requires
        1 <= chain.len() <= 16,
        forall|k: int|
            0 <= k < chain.len() - 1 ==> (#[trigger] resolve_dict(objects, chain[k]) matches Some(d) && box_of(
                d,
                crop_box_key(),
            ) is None && box_of(d, media_box_key()) is None && reference_of(dict_get(d, parent_key()))
                == Some(chain[k + 1])),
        resolve_dict(objects, chain.last()) matches Some(d) && box_of(d, crop_box_key()) is None
            && box_of(d, media_box_key()) == Some(b) && reference_of(dict_get(d, parent_key())) is None,
    ensures
        page_box(objects, chain[0], tree_depth_limit()) == BoxSearch::Found(b),
{
    lemma_chain_boxes(objects, chain, b, 0, tree_depth_limit());
}

/// Takes the box stored under the key out of the entries, if it is usable;
/// otherwise leaves them as they are.
fn take_box(d: &mut Entries, key: &[u8]) -> (r: Option<Vec<PdfObject>>)
    requires
        keys_distinct(old(d)@),
    ensures
        r == box_of(old(d)@, key@),
        r is None ==> final(d)@ == old(d)@,
{
    let i = match find_key(d, key) {
        None => return None,
        Some(i) => i,
    };
    let usable = match &d[i].1 {
        PdfObject::Array(v) => {
            if v.len() != 4 {
                false
            } else {
                let mut all_numbers = true;
                let mut j: usize = 0;
                while j < 4
                    invariant
                        v@.len() == 4,
                        j <= 4,
                        all_numbers == forall|k: int| 0 <= k < j ==> is_number(#[trigger] v@[k]),
                    decreases 4 - j,
                {
                    let number = match &v[j] {
                        PdfObject::Integer(_) => true,
                        PdfObject::Real(_) => true,
                        _ => false,
                    };
                    all_numbers = all_numbers && number;
                    j = j + 1;
                }
                all_numbers
            }
        },
        _ => false,
    };
    if !usable {
        return None;
    }
    let (_, value) = d.remove(i);
    match value {
        PdfObject::Array(v) => Some(v),
        _ => None,
    }
}

/// Searches the node `page_id` and the ancestors above it, through at most 16
/// nodes, for the nearest usable box under the key. lopdf's error met on the way
/// comes back as `Err(Some(..))`; `Err(None)` where the levels run out.
fn search_box(doc: &lopdf::Document, page_id: ObjectId, key: &[u8]) -> (r: Result<
    Vec<PdfObject>,
    Option<lopdf::Error>,
>)
    ensures
        match inherited_box(document_objects(*doc), page_id, tree_depth_limit(), key@) {
            BoxSearch::Found(b) => r == Ok::<Vec<PdfObject>, Option<lopdf::Error>>(b),
            BoxSearch::Broken => r matches Err(Some(_)),
            BoxSearch::Exhausted => r matches Err(None),
        },
{
    let ghost objects = document_objects(*doc);
    let mut id = page_id;
    let mut level: usize = 0;
    while level < 16
        invariant
            objects == document_objects(*doc),
            level <= 16,
            inherited_box(objects, page_id, tree_depth_limit(), key@) == inherited_box(
                objects,
                id,
                (16 - level) as nat,
                key@,
            ),
        decreases 16 - level,
    {
        let mut dict = match dictionary_at(doc, id) {
            Ok(d) => d,
            Err(e) => return Err(Some(e)),
        };
        if let Some(b) = take_box(&mut dict, key) {
            return Ok(b);
        }
        let parent = parent_name();
        id = match entry_reference(dict, parent.as_slice()) {
            Ok(p) => p,
            Err(e) => return Err(Some(e)),
        };
        level = level + 1;
    }
    Err(None)
}

/// The box that a viewer shows for the page: the nearest usable `CropBox` on the
/// page or an ancestor, else the nearest usable `MediaBox`, searching the page
/// and 15 levels above it. Each of the four numbers is an integer or a real. Where
/// the search for the `MediaBox` meets a node that is not a dictionary, or one
/// without a parent it refers to, the error is lopdf's.
pub fn mediabox(doc: &lopdf::Document, page_id: ObjectId) -> (r: Result<Vec<PdfObject>, String>)
    ensures
        match page_box(document_objects(*doc), page_id, tree_depth_limit()) {
            BoxSearch::Found(b) => r == Ok::<Vec<PdfObject>, String>(b),
            BoxSearch::Broken => r is Err,
            BoxSearch::Exhausted => r matches Err(text) && text@ == "no MediaBox found in page tree"@,
        },
        r matches Err(text) ==> text@ == "no MediaBox found in page tree"@ || lopdf_error_text(text),
{
    let crop = crop_box_name();
    if let Ok(b) = search_box(doc, page_id, crop.as_slice()) {
        return Ok(b);
    }
    let media = media_box_name();
    match search_box(doc, page_id, media.as_slice()) {
        Ok(b) => Ok(b),
        Err(Some(e)) => Err(err(e)),
        Err(None) => Err("no MediaBox found in page tree".to_owned()),
    }
}

/// The value of an inheritable attribute of the node `id`: its own entry under
/// the key, or else the nearest one up the page tree, through at most `levels`
/// nodes; `None` where no node on the way has the key, or the way breaks off (a
/// node that is not a dictionary, or has no parent that it refers to).
pub open spec fn inherited_entry(
    objects: Map<ObjectId, PdfObject>,
    id: ObjectId,
    levels: nat,
    key: Seq<u8>,
) -> Option<PdfObject>
    decreases levels,
{
    if levels == 0 {
        None
    } else {
        match resolve_dict(objects, id) {
            None => None,
            Some(d) => match dict_get(d, key) {
                Some(v) => Some(v),
                None => match reference_of(dict_get(d, parent_key())) {
                    Some(parent) => inherited_entry(objects, parent, (levels - 1) as nat, key),
                    None => None,
                },
            },
        }
    }
}

/// The value of the inheritable attribute under the key for the node `node`,
/// searching it and the ancestors above it, through at most `levels` nodes.
pub fn inherited_value(doc: &lopdf::Document, node: ObjectId, key: &[u8], levels: usize) -> (r: Option<
    PdfObject,
>)
    ensures
        r == inherited_entry(document_objects(*doc), node, levels as nat, key@),
        r matches Some(v) ==> v.wf(),
{
    let ghost objects = document_objects(*doc);
    let mut id = node;
    let mut level: usize = 0;
    while level < levels
        invariant
            objects == document_objects(*doc),
            level <= levels,
            inherited_entry(objects, node, levels as nat, key@) == inherited_entry(
                objects,
                id,
                (levels - level) as nat,
                key@,
            ),
        decreases levels - level,
    {
        let mut dict = match dictionary_at(doc, id) {
            Ok(d) => d,
            Err(_) => return None,
        };
        if let Some(i) = find_key(&dict, key) {
            let ghost before = dict@;
            let (_, v) = dict.remove(i);
            proof {
                assert(before[i as int].1.wf());
            }
            return Some(v);
        }
        let parent = parent_name();
        id = match entry_reference(dict, parent.as_slice()) {
            Ok(p) => p,
            Err(_) => return None,
        };
        level = level + 1;
    }
    None
}

/// Refuses an encrypted document.
pub fn reject_encrypted(doc: lopdf::Document) -> (r: Result<lopdf::Document, String>)
    ensures
        ({
            let encrypted = reference_of(dict_get(document_trailer(doc), encrypt_key())) matches Some(
                id,
            ) && resolve_dict(document_objects(doc), id) is Some;
            &&& encrypted ==> (r matches Err(text) && text@ == "PDF is encrypted"@)
            &&& !encrypted ==> r == Ok::<lopdf::Document, String>(doc)
        }),
{
    if is_encrypted(&doc) {
        return Err("PDF is encrypted".to_owned());
    }
    Ok(doc)
}

/// Parses a PDF file and refuses it if it is encrypted.
pub fn load(bytes: &[u8]) -> (r: Result<lopdf::Document, String>)
    ensures
        r matches Err(text) ==> text@ == "PDF is encrypted"@ || lopdf_error_text(text),
        r matches Ok(doc) ==> !(reference_of(dict_get(document_trailer(doc), encrypt_key())) matches Some(
            id,
        ) && resolve_dict(document_objects(doc), id) is Some),
        r matches Ok(doc) ==> ids_at_most(document_objects(doc), document_max_id(doc)),
{
    let doc = match load_document(bytes) {
        Ok(d) => d,
        Err(e) => return Err(err(e)),
    };
    reject_encrypted(doc)
}

/// The pages of the document, in page order.
pub fn page_list(doc: &lopdf::Document) -> (r: Vec<ObjectId>)
    ensures
        r@ == document_pages(document_objects(*doc), document_trailer(*doc)),
{
    page_ids(doc)
}

/// The pages of the document in order; an error where it has none.
pub fn document_page_list(doc: &lopdf::Document) -> (r: Result<Vec<ObjectId>, String>)
    ensures
        ({
            let pages = document_pages(document_objects(*doc), document_trailer(*doc));
            &&& pages.len() == 0 ==> (r matches Err(text) && text@ == "PDF has no pages"@)
            &&& pages.len() > 0 ==> (r matches Ok(p) && p@ == pages)
        }),
{
    let pages = page_list(doc);
    if pages.len() == 0 {
        return Err("PDF has no pages".to_owned());
    }
    Ok(pages)
}

} // verus!
