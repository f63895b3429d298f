//! Cutting one page out of a document for the preview: the page becomes the only
//! child of a new page tree node, which the catalog takes as its page tree.
use crate::document::{
    lopdf_error_text,
    add_object, document_max_id, document_objects, document_pages, document_trailer,
    entry_reference, err, object_at, page_ids, save_document, saved_pdf, set_entry, trailer_entries,
};
use crate::encoding::{base64_len, base64_standard, encoded_len_fits, is_base64_char, pdf_bytes_b64};
use crate::names::{
    count_key, count_name, kids_key, kids_name, media_box_key, media_box_name, pages_key, pages_name,
    parent_key, parent_name, resources_key, resources_name, root_key, root_name, rotate_key,
    rotate_name, type_entry_key, type_entry_name,
};
use crate::object::{
    dict_get, entries_wf, entry_set, has_key, keys_distinct, lemma_push_entry,
    lemma_resolve_after_set, reference_of, resolve, resolve_dict, Entries, ObjectId, PdfObject,
};
use crate::page::{inherited_entry, inherited_value, tree_depth_limit};
use crate::watermark::{is_name, lemma_dict_get_at, next_id_free, next_object_id};
use vstd::prelude::*;
use vstd::string::StringExecFns;

verus! {

/// The decimal digits of `n`, as text.
pub open spec fn decimal_text(n: nat) -> Seq<char>
    decreases n,
{
    if n < 10 {
        seq![(48 + n) as char]
    } else {
        decimal_text(n / 10).push((48 + n % 10) as char)
    }
}

/// The message for a page number that the document does not have.
pub open spec fn out_of_range_text(number: nat) -> Seq<char> {
    "page "@ + decimal_text(number) + " out of range"@
}

/// The text of one decimal digit.
fn digit_text(d: u32) -> (r: &'static str)
    requires
        d < 10,
    ensures
        r@ == seq![(48 + d) as char],
{
    match d {
        0 => {
            proof {
                reveal_strlit("0");
            }
            "0"
        },
        1 => {
            proof {
                reveal_strlit("1");
            }
            "1"
        },
        2 => {
            proof {
                reveal_strlit("2");
            }
            "2"
        },
        3 => {
            proof {
                reveal_strlit("3");
            }
            "3"
        },
        4 => {
            proof {
                reveal_strlit("4");
            }
            "4"
        },
        5 => {
            proof {
                reveal_strlit("5");
            }
            "5"
        },
        6 => {
            proof {
                reveal_strlit("6");
            }
            "6"
        },
        7 => {
            proof {
                reveal_strlit("7");
            }
            "7"
        },
        8 => {
            proof {
                reveal_strlit("8");
            }
            "8"
        },
        _ => {
            proof {
                reveal_strlit("9");
            }
            "9"
        },
    }
}

/// Appends the decimal digits of `n`.
fn push_decimal(out: &mut String, n: u32)
    ensures
        final(out)@ == old(out)@ + decimal_text(n as nat),
    decreases n,
{
    if n >= 10 {
        push_decimal(out, n / 10);
    }
    let digit = digit_text(n % 10);
    out.append(digit);
    proof {
        if n < 10 {
            assert(decimal_text(n as nat) =~= seq![(48 + n) as char]);
        } else {
            assert(decimal_text(n as nat) == decimal_text((n / 10) as nat).push((48 + n % 10) as char));
        }
    }
}

/// The message for a page number that the document does not have.
fn out_of_range_message(number: u32) -> (r: String)
    ensures
        r@ == out_of_range_text(number as nat),
{
    let mut text = String::from_str("page ");
    push_decimal(&mut text, number);
    text.append(" out of range");
    proof {
        reveal_strlit("page ");
        reveal_strlit(" out of range");
    }
    text
}

/// The page with the number (counting from 1) in page order; an error where the
/// document has no such page.
pub fn locate_page(doc: &lopdf::Document, number: u32) -> (r: Result<ObjectId, String>)
    ensures
        ({
            let pages = document_pages(document_objects(*doc), document_trailer(*doc));
            &&& 1 <= number <= pages.len() ==> r == Ok::<ObjectId, String>(pages[number - 1])
            &&& !(1 <= number <= pages.len()) ==> (r matches Err(text) && text@ == out_of_range_text(
                number as nat,
            ))
        }),
{
    let pages = page_ids(doc);
    if number < 1 || number as usize > pages.len() {
        return Err(out_of_range_message(number));
    }
    Ok(pages[(number - 1) as usize])
}

/// The new page tree node: of type `Pages`, with the page as its only kid, a
/// count of 1, the box, and the page's `Resources` and `Rotate` where it has them
/// (of its own or inherited), so that the page looks as it did; nothing else.
pub open spec fn single_page_node(
    o: PdfObject,
    page: ObjectId,
    media_box: Seq<PdfObject>,
    resources: Option<PdfObject>,
    rotate: Option<PdfObject>,
) -> bool {
    o matches PdfObject::Dictionary(d) && {
        &&& d@.len() == 4 + (if resources is Some { 1int } else { 0 }) + (if rotate is Some { 1int } else { 0 })
        &&& keys_distinct(d@)
        &&& is_name(dict_get(d@, type_entry_key()), pages_key())
        &&& dict_get(d@, kids_key()) matches Some(PdfObject::Array(kids)) && kids@ == seq![
            PdfObject::Reference(page.0, page.1),
        ]
        &&& dict_get(d@, count_key()) == Some(PdfObject::Integer(1))
        &&& dict_get(d@, media_box_key()) matches Some(PdfObject::Array(b)) && b@ == media_box
        &&& dict_get(d@, resources_key()) == resources
        &&& dict_get(d@, rotate_key()) == rotate
        &&& dict_get(d@, parent_key()) is None
    }
}

/// What `isolate_page` did: stored the new node `node`, carrying the page's
/// `Resources` and `Rotate` as they were found before, made it the page's
/// parent, then the catalog `root`'s page tree.
pub open spec fn isolated(
    before: Map<ObjectId, PdfObject>,
    after: Map<ObjectId, PdfObject>,
    page: ObjectId,
    root: ObjectId,
    node: ObjectId,
    media_box: Seq<PdfObject>,
) -> bool {
    exists|n: PdfObject, mid: Map<ObjectId, PdfObject>|
        #![trigger entry_set(before.insert(node, n), mid, page, parent_key(), PdfObject::Reference(node.0, node.1))]
        {
            &&& single_page_node(
                n,
                page,
                media_box,
                inherited_entry(before, page, tree_depth_limit(), resources_key()),
                inherited_entry(before, page, tree_depth_limit(), rotate_key()),
            )
            &&& keys_distinct(resolve_dict(before.insert(node, n), page).unwrap())
            &&& keys_distinct(resolve_dict(mid, root).unwrap())
            &&& entry_set(
                before.insert(node, n),
                mid,
                page,
                parent_key(),
                PdfObject::Reference(node.0, node.1),
            )
            &&& entry_set(mid, after, root, pages_key(), PdfObject::Reference(node.0, node.1))
        }
}

fn single_page_dictionary(
    page: ObjectId,
    media_box: Vec<PdfObject>,
    resources: Option<PdfObject>,
    rotate: Option<PdfObject>,
) -> (r: Entries)
    requires
        forall|i: int| 0 <= i < media_box@.len() ==> (#[trigger] media_box@[i]).wf(),
        resources matches Some(v) ==> v.wf(),
        rotate matches Some(v) ==> v.wf(),
    ensures
        single_page_node(PdfObject::Dictionary(r), page, media_box@, resources, rotate),
        entries_wf(r@),
{
    let ghost box_view = media_box@;
    let mut kids: Vec<PdfObject> = Vec::new();
    kids.push(PdfObject::Reference(page.0, page.1));
    let ghost kids_view = kids@;
    let mut d: Entries = Vec::new();
    d.push((type_entry_name(), PdfObject::Name(pages_name())));
    d.push((kids_name(), PdfObject::Array(kids)));
    d.push((count_name(), PdfObject::Integer(1)));
    d.push((media_box_name(), PdfObject::Array(media_box)));
    let ghost s = d@;
    proof {
        assert(s[0].0@ == type_entry_key());
        assert(s[1].0@ == kids_key());
        assert(s[2].0@ == count_key());
        assert(s[3].0@ == media_box_key());
        assert(type_entry_key()[0] == 84);
        assert(kids_key()[0] == 75);
        assert(count_key()[0] == 67);
        assert(media_box_key()[0] == 77);
        assert(keys_distinct(s));
        lemma_dict_get_at(s, 0);
        lemma_dict_get_at(s, 1);
        lemma_dict_get_at(s, 2);
        lemma_dict_get_at(s, 3);
        assert(kids_view =~= seq![PdfObject::Reference(page.0, page.1)]);
        assert(forall|i: int| 0 <= i < kids_view.len() ==> (#[trigger] kids_view[i]).wf());
        assert(forall|i: int| 0 <= i < s.len() ==> (#[trigger] s[i]).1.wf());
        // Only keys beginning with `T`, `K`, `C` or `M` are there so far.
        assert(forall|k: Seq<u8>| #[trigger] has_key(s, k) ==> k.len() > 0 && (k[0] == 84 || k[0] == 75
            || k[0] == 67 || k[0] == 77));
        assert(resources_key()[0] == 82);
        assert(rotate_key()[0] == 82);
        assert(!has_key(s, resources_key()));
        assert(!has_key(s, rotate_key()));
        assert(parent_key()[0] == 80);
        assert(!has_key(s, parent_key()));
    }
    if let Some(v) = resources {
        let ghost before = d@;
        let k = resources_name();
        let ghost kv = k@;
        proof {
            lemma_push_entry(before, k, v);
        }
        d.push((k, v));
        proof {
            assert(d@ == before.push((k, v)));
            assert(resources_key() != parent_key());
            assert(resources_key()[1] != rotate_key()[1]);
            assert(!has_key(d@, rotate_key())) by {
                if has_key(d@, rotate_key()) {
                    let j: int = crate::object::key_index(d@, rotate_key());
                    if j < before.len() {
                        assert(before[j] == d@[j]);
                        assert(has_key(before, rotate_key()));
                    }
                }
            }
            assert(forall|i: int| 0 <= i < d@.len() ==> (#[trigger] d@[i]).1.wf()) by {
                assert forall|i: int| 0 <= i < d@.len() implies (#[trigger] d@[i]).1.wf() by {
                    if i < before.len() {
                        assert(d@[i] == before[i]);
                    }
                }
            }
        }
    }
    proof {
        assert(!has_key(d@, rotate_key()));
        assert(dict_get(d@, parent_key()) is None) by {
            if resources is None {
                assert(d@ == s);
            }
        }
        assert(dict_get(d@, resources_key()) == resources) by {
            if resources is None {
                assert(d@ == s);
            }
        }
    }
    if let Some(v) = rotate {
        let ghost before = d@;
        let k = rotate_name();
        proof {
            lemma_push_entry(before, k, v);
        }
        d.push((k, v));
        proof {
            assert(d@ == before.push((k, v)));
            assert(rotate_key() != parent_key());
            assert(forall|i: int| 0 <= i < d@.len() ==> (#[trigger] d@[i]).1.wf()) by {
                assert forall|i: int| 0 <= i < d@.len() implies (#[trigger] d@[i]).1.wf() by {
                    if i < before.len() {
                        assert(d@[i] == before[i]);
                    }
                }
            }
        }
    }
    d
}

/// Makes the page the only page of the document: a new page tree node holds it,
/// the box, and the `Resources` and `Rotate` that the page has of its own or
/// inherits, the page's `Parent` refers to that node, and so does the catalog's
/// `Pages`. The other pages stay in the file but are no longer reached. An error
/// is lopdf's text, or says that the page or the catalog is not a dictionary.
pub fn isolate_page(doc: &mut lopdf::Document, page_id: ObjectId, media_box: Vec<PdfObject>) -> (r:
    Result<(), String>)
    requires
        forall|i: int| 0 <= i < media_box@.len() ==> (#[trigger] media_box@[i]).wf(),
    ensures
        document_trailer(*final(doc)) == document_trailer(*old(doc)),
        reference_of(dict_get(document_trailer(*old(doc)), root_key())) is None ==> r is Err,
        r is Ok ==> isolated(
            document_objects(*old(doc)),
            document_objects(*final(doc)),
            page_id,
            reference_of(dict_get(document_trailer(*old(doc)), root_key())).unwrap(),
            next_object_id(document_max_id(*old(doc))),
            media_box@,
        ),
        ({
            let before = document_objects(*old(doc));
            let root = reference_of(dict_get(document_trailer(*old(doc)), root_key()));
            (next_id_free(before, document_max_id(*old(doc))) && resolve_dict(before, page_id) is Some
                && root is Some && resolve_dict(before, root.unwrap()) is Some) ==> r is Ok
        }),
        document_max_id(*final(doc)) == document_max_id(*old(doc)) || document_max_id(*final(doc))
            == document_max_id(*old(doc)) + 1,
        ({
            let before = document_objects(*old(doc));
            next_id_free(before, document_max_id(*old(doc))) ==> ((resolve(before, page_id) matches Some(
                (_, o),
            ) && !(o is Dictionary)) ==> (r matches Err(text) && text@ == "page object is not a dictionary"@))
        }),
        ({
            let before = document_objects(*old(doc));
            let root = reference_of(dict_get(document_trailer(*old(doc)), root_key()));
            (next_id_free(before, document_max_id(*old(doc))) && resolve_dict(before, page_id) is Some)
                ==> ((root matches Some(c) && resolve(before, c) matches Some((_, o)) && !(o is Dictionary))
                ==> (r matches Err(text) && text@ == "catalog is not a dictionary"@))
        }),
        r matches Err(text) ==> text@ == "page object is not a dictionary"@ || text@
            == "catalog is not a dictionary"@ || lopdf_error_text(text),
{
    let ghost before = document_objects(*doc);
    let ghost box_view = media_box@;
    let resources_key_bytes = resources_name();
    let resources = inherited_value(doc, page_id, resources_key_bytes.as_slice(), 16);
    let rotate_key_bytes = rotate_name();
    let rotate = inherited_value(doc, page_id, rotate_key_bytes.as_slice(), 16);
    let node_dict = single_page_dictionary(page_id, media_box, resources, rotate);
    let node_obj = PdfObject::Dictionary(node_dict);
    let ghost node_view = node_obj;
    let node = match add_object(doc, node_obj) {
        Ok(id) => id,
        Err(e) => return Err(err(e)),
    };
    let ghost mid0 = document_objects(*doc);
    let ghost trailer0 = document_trailer(*doc);
    proof {
        if !before.dom().contains(node) {
            if resolve(before, page_id) is Some {
                crate::object::lemma_follow_insert_fresh(before, page_id, 0, node, node_view);
            }
            if let Some(root) = reference_of(dict_get(trailer0, root_key())) {
                if resolve(before, root) is Some {
                    crate::object::lemma_follow_insert_fresh(before, root, 0, node, node_view);
                }
            }
        }
    }
    match object_at(doc, page_id) {
        Ok(PdfObject::Dictionary(d)) => {
            proof {
                assert(keys_distinct(d@));
            }
        },
        Ok(_) => return Err("page object is not a dictionary".to_owned()),
        Err(e) => return Err(err(e)),
    }
    set_entry(doc, page_id, parent_name(), PdfObject::Reference(node.0, node.1));
    let ghost mid = document_objects(*doc);
    proof {
        // The catalog is still found where it was.
        if let Some(root) = reference_of(dict_get(trailer0, root_key())) {
            if resolve(mid0, root) is Some {
                crate::object::lemma_follow_result(mid0, page_id, 0);
                crate::object::lemma_follow_result(mid0, root, 0);
                let tp = resolve(mid0, page_id).unwrap().0;
                if resolve(mid0, root).unwrap().0 == tp {
                    crate::object::lemma_follow_stable(mid0, mid, root, 0, tp);
                } else {
                    crate::object::lemma_follow_unchanged(mid0, mid, root, 0, tp);
                }
            }
        }
    }
    let trailer = trailer_entries(doc);
    let root_key_bytes = root_name();
    let root = match entry_reference(trailer, root_key_bytes.as_slice()) {
        Ok(id) => id,
        Err(e) => return Err(err(e)),
    };
    match object_at(doc, root) {
        Ok(PdfObject::Dictionary(d)) => {
            proof {
                assert(keys_distinct(d@));
            }
        },
        Ok(_) => return Err("catalog is not a dictionary".to_owned()),
        Err(e) => return Err(err(e)),
    }
    set_entry(doc, root, pages_name(), PdfObject::Reference(node.0, node.1));
    proof {
        assert(entry_set(
            before.insert(node, node_view),
            mid,
            page_id,
            parent_key(),
            PdfObject::Reference(node.0, node.1),
        ));
        assert(isolated(before, document_objects(*doc), page_id, root, node, box_view));
    }
    Ok(())
}

/// The base64 text of the bytes (padded standard alphabet), or an error where
/// it would be too long for memory.
pub open spec fn encoded_ok(bytes: Seq<u8>, r: Result<String, String>) -> bool {
    if base64_len(bytes.len()) <= usize::MAX {
        r matches Ok(text) && text@ == base64_standard(bytes) && text@.len() == base64_len(bytes.len())
            && forall|i: int| 0 <= i < text@.len() ==> is_base64_char(#[trigger] text@[i])
    } else {
        r matches Err(text) && text@ == "PDF is too large to encode"@
    }
}

/// The base64 text of a saved PDF file: the error of a failed save as it is,
/// and an error where the text would be too long for memory.
pub fn encode_saved(saved: Result<Vec<u8>, String>) -> (r: Result<String, String>)
    ensures
        match saved {
            Ok(bytes) => encoded_ok(bytes@, r),
            Err(e) => r == Err::<String, String>(e),
        },
{
    let bytes = match saved {
        Ok(b) => b,
        Err(e) => return Err(e),
    };
    if !encoded_len_fits(bytes.len()) {
        return Err("PDF is too large to encode".to_owned());
    }
    Ok(pdf_bytes_b64(bytes.as_slice()))
}

/// The document as a PDF file in base64, for the preview: the base64 text of the
/// file that saving the document makes; an error where saving fails.
pub fn encoded_document(doc: &mut lopdf::Document) -> (r: Result<String, String>)
    ensures
        match saved_pdf(*old(doc)) {
            Some(bytes) => encoded_ok(bytes, r),
            None => r is Err,
        },
{
    encode_saved(save_document(doc))
}

/// The page tree of the cut-out document: after `isolate_page` (with a node id
/// that was not used yet, and a page and catalog that resolved), the catalog's
/// page tree is the new node, that node is the single-page node holding just
/// the page and the box, and the page's parent is that node.
pub proof fn lemma_isolated_tree(
    before: Map<ObjectId, PdfObject>,
    after: Map<ObjectId, PdfObject>,
    page: ObjectId,
    root: ObjectId,
    node: ObjectId,
    media_box: Seq<PdfObject>,
)
    requires
        isolated(before, after, page, root, node, media_box),
        !before.dom().contains(node),
        resolve(before, page) is Some,
        resolve(before, root) is Some,
    ensures
        resolve_dict(after, root) matches Some(c) && dict_get(c, pages_key()) == Some(
            PdfObject::Reference(node.0, node.1),
        ),
        resolve_dict(after, page) matches Some(p) && dict_get(p, parent_key()) == Some(
            PdfObject::Reference(node.0, node.1),
        ),
        after.dom().contains(node),
        forall|k: Seq<u8>|
            k != parent_key() && k != pages_key() ==> #[trigger] dict_get(resolve_dict(after, page).unwrap(), k)
                == dict_get(resolve_dict(before, page).unwrap(), k),
        single_page_node(
            after[node],
            page,
            media_box,
            inherited_entry(before, page, tree_depth_limit(), resources_key()),
            inherited_entry(before, page, tree_depth_limit(), rotate_key()),
        ),
{
    let (n, mid) = choose|n: PdfObject, mid: Map<ObjectId, PdfObject>|
        #![trigger entry_set(before.insert(node, n), mid, page, parent_key(), PdfObject::Reference(node.0, node.1))]
        {
            &&& single_page_node(
                n,
                page,
                media_box,
                inherited_entry(before, page, tree_depth_limit(), resources_key()),
                inherited_entry(before, page, tree_depth_limit(), rotate_key()),
            )
            &&& keys_distinct(resolve_dict(before.insert(node, n), page).unwrap())
            &&& keys_distinct(resolve_dict(mid, root).unwrap())
            &&& entry_set(
                before.insert(node, n),
                mid,
                page,
                parent_key(),
                PdfObject::Reference(node.0, node.1),
            )
            &&& entry_set(mid, after, root, pages_key(), PdfObject::Reference(node.0, node.1))
        };
    let r = PdfObject::Reference(node.0, node.1);
    let mid0 = before.insert(node, n);
    // Storing the node leaves the page and the catalog where they were.
    crate::object::lemma_follow_insert_fresh(before, page, 0, node, n);
    crate::object::lemma_follow_insert_fresh(before, root, 0, node, n);
    crate::object::lemma_follow_result(before, page, 0);
    crate::object::lemma_follow_result(before, root, 0);
    let tp = resolve(before, page).unwrap().0;
    let tr0 = resolve(before, root).unwrap().0;
    assert(resolve(mid0, page) == resolve(before, page));
    assert(resolve(mid0, root) == resolve(before, root));
    // The page's parent.
    lemma_resolve_after_set(mid0, mid, page, parent_key(), r);
    let ep = mid[tp]->Dictionary_0;
    crate::object::lemma_set_entry_get(ep@, resolve_dict(mid0, page).unwrap(), parent_key(), r);
    assert(mid[node] == n);
    // The catalog, found in `mid`.
    crate::object::lemma_follow_result(mid0, root, 0);
    if tr0 == tp {
        crate::object::lemma_follow_stable(mid0, mid, root, 0, tp);
    } else {
        crate::object::lemma_follow_unchanged(mid0, mid, root, 0, tp);
    }
    let tr = resolve(mid, root).unwrap().0;
    assert(tr == tr0);
    lemma_resolve_after_set(mid, after, root, pages_key(), r);
    let ec = after[tr]->Dictionary_0;
    crate::object::lemma_set_entry_get(ec@, resolve_dict(mid, root).unwrap(), pages_key(), r);
    assert(after[node] == n);
    // The page, found in `after`.
    crate::object::lemma_follow_result(mid, page, 0);
    assert(pages_key().len() != parent_key().len());
    if tr == tp {
        crate::object::lemma_follow_stable(mid, after, page, 0, tp);
        assert(dict_get(ec@, parent_key()) == dict_get(ep@, parent_key()));
    } else {
        crate::object::lemma_follow_result(mid, root, 0);
        crate::object::lemma_follow_unchanged(mid, after, page, 0, tr);
        assert(after[tp] == mid[tp]);
    }
    assert(resolve_dict(mid0, page) == resolve_dict(before, page));
    assert forall|k: Seq<u8>| k != parent_key() && k != pages_key() implies #[trigger] dict_get(
        resolve_dict(after, page).unwrap(),
        k,
    ) == dict_get(resolve_dict(before, page).unwrap(), k) by {
        assert(dict_get(ep@, k) == dict_get(resolve_dict(mid0, page).unwrap(), k));
        if tr == tp {
            assert(resolve_dict(mid, root).unwrap() == ep@);
            assert(dict_get(ec@, k) == dict_get(ep@, k));
        }
    }
}

/// The cut-out page looks as it did: after `isolate_page` (with a node id that
/// was not used yet, and a page and catalog that resolved), the `Resources` and
/// the `Rotate` that the page has of its own or inherits are what they were.
pub proof fn lemma_isolated_attributes(
    before: Map<ObjectId, PdfObject>,
    after: Map<ObjectId, PdfObject>,
    page: ObjectId,
    root: ObjectId,
    node: ObjectId,
    media_box: Seq<PdfObject>,
    key: Seq<u8>,
)
    requires
        isolated(before, after, page, root, node, media_box),
        !before.dom().contains(node),
        resolve(before, page) is Some,
        resolve(before, root) is Some,
        key == resources_key() || key == rotate_key(),
    ensures
        inherited_entry(after, page, tree_depth_limit(), key) == inherited_entry(
            before,
            page,
            tree_depth_limit(),
            key,
        ),
{
    lemma_isolated_tree(before, after, page, root, node, media_box);
    assert(key != parent_key() && key != pages_key()) by {
        assert(parent_key()[0] == 80 && pages_key()[0] == 80);
        assert(resources_key()[1] == 101 && rotate_key()[1] == 111);
        assert(parent_key()[1] == 97 && pages_key()[1] == 97);
    }
    let n = after[node];
    assert(n is Dictionary);
    assert(resolve(after, node) == Some((node, n)));
    assert(resolve_dict(after, node) == Some(n->Dictionary_0@));
    let level = (tree_depth_limit() - 1) as nat;
    if key == resources_key() {
        assert(dict_get(n->Dictionary_0@, key) == inherited_entry(before, page, tree_depth_limit(), key));
    } else {
        assert(dict_get(n->Dictionary_0@, key) == inherited_entry(before, page, tree_depth_limit(), key));
    }
    let x = inherited_entry(before, page, tree_depth_limit(), key);
    assert(dict_get(n->Dictionary_0@, parent_key()) is None);
    assert(inherited_entry(after, node, level, key) == x);
    // The page itself.
    let (nv, mid) = choose|nv: PdfObject, mid: Map<ObjectId, PdfObject>|
        #![trigger entry_set(before.insert(node, nv), mid, page, parent_key(), PdfObject::Reference(node.0, node.1))]
        {
            &&& single_page_node(
                nv,
                page,
                media_box,
                inherited_entry(before, page, tree_depth_limit(), resources_key()),
                inherited_entry(before, page, tree_depth_limit(), rotate_key()),
            )
            &&& keys_distinct(resolve_dict(before.insert(node, nv), page).unwrap())
            &&& keys_distinct(resolve_dict(mid, root).unwrap())
            &&& entry_set(
                before.insert(node, nv),
                mid,
                page,
                parent_key(),
                PdfObject::Reference(node.0, node.1),
            )
            &&& entry_set(mid, after, root, pages_key(), PdfObject::Reference(node.0, node.1))
        };
    crate::object::lemma_follow_insert_fresh(before, page, 0, node, nv);
    assert(resolve_dict(before, page) is Some);
    let d = resolve_dict(before, page).unwrap();
    let p = resolve_dict(after, page).unwrap();
    assert(dict_get(p, key) == dict_get(d, key));
    assert(dict_get(p, parent_key()) == Some(PdfObject::Reference(node.0, node.1)));
    assert(reference_of(dict_get(p, parent_key())) == Some(node));
    if dict_get(d, key) is None {
        assert(inherited_entry(after, page, tree_depth_limit(), key) == inherited_entry(after, node, level, key));
    }
}

} // verus!
