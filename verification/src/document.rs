//! The lopdf document, seen through the objects it holds.
//!
//! `document_objects` names what a `lopdf::Document` holds, each object taken as
//! a `PdfObject` (by `object_from_lopdf` below), and `document_trailer` names its
//! trailer dictionary the same way. Every call into lopdf stands in one function
//! of this file, whose contract says over these names what the call reads and
//! what it changes.
use crate::object::{
    dict_get, entries_wf, entry_set, ids_at_most, keys_distinct, reference_of, resolve, resolve_dict,
    set_entry_of, Entries, ObjectId, PdfObject, PdfReal, PdfStream,
};
use lopdf::{Object, StringFormat};
use vstd::prelude::*;

verus! {

#[verifier::external_type_specification]
#[verifier::external_body]
pub struct ExDocument(lopdf::Document);

#[verifier::external_type_specification]
#[verifier::external_body]
pub struct ExLopdfError(lopdf::Error);

#[verifier::external_type_specification]
#[verifier::external_body]
pub struct ExDictionary(lopdf::Dictionary);

#[verifier::external_type_specification]
#[verifier::external_body]
pub struct ExStream(lopdf::Stream);

/// The objects that the document holds, by id.
pub uninterp spec fn document_objects(doc: lopdf::Document) -> Map<ObjectId, PdfObject>;

/// The entries of the document's trailer dictionary.
pub uninterp spec fn document_trailer(doc: lopdf::Document) -> Seq<(Vec<u8>, PdfObject)>;

/// The highest object number that the document has handed out (its `max_id`).
pub uninterp spec fn document_max_id(doc: lopdf::Document) -> u32;

/// The pages that `Document::get_pages` finds by walking the page tree from the
/// catalog, in page order.
pub uninterp spec fn document_pages(
    objects: Map<ObjectId, PdfObject>,
    trailer: Seq<(Vec<u8>, PdfObject)>,
) -> Seq<ObjectId>;

/// The text is what `Display` writes for some error of lopdf.
pub open spec fn lopdf_error_text(text: String) -> bool {
    exists|e: lopdf::Error| vstd::string::to_string_from_display_ensures(&e, text)
}

/// The text of an error, as `Display` writes it.
pub fn err(e: impl std::fmt::Display) -> (text: String)
    ensures
        vstd::string::to_string_from_display_ensures(&e, text),
{
    e.to_string()
}

/// The `Length` key that `Stream::new` sets.
pub open spec fn length_key() -> Seq<u8> {
    seq![76u8, 101, 110, 103, 116, 104]
}

/// The `Encrypt` key of the trailer.
pub open spec fn encrypt_key() -> Seq<u8> {
    seq![69u8, 110, 99, 114, 121, 112, 116]
}

/// A lopdf object as a `PdfObject`, variant for variant.
#[verifier::external_body]
fn object_from_lopdf(o: &lopdf::Object) -> PdfObject {
    match o {
        Object::Null => PdfObject::Null,
        Object::Boolean(b) => PdfObject::Boolean(*b),
        Object::Integer(i) => PdfObject::Integer(*i),
        Object::Real(_) => PdfObject::Real(PdfReal { value: o.clone() }),
        Object::Name(n) => PdfObject::Name(n.clone()),
        Object::String(t, f) => PdfObject::String(t.clone(), *f == StringFormat::Hexadecimal),
        Object::Array(a) => PdfObject::Array(a.iter().map(object_from_lopdf).collect()),
        Object::Dictionary(d) => PdfObject::Dictionary(entries_from_lopdf(d)),
        Object::Stream(s) => PdfObject::Stream(stream_from_lopdf(s)),
        Object::Reference(id) => PdfObject::Reference(id.0, id.1),
    }
}

/// A lopdf stream as a `PdfStream`, field for field.
#[verifier::external_body]
fn stream_from_lopdf(s: &lopdf::Stream) -> PdfStream {
    PdfStream {
        dict: entries_from_lopdf(&s.dict),
        content: s.content.clone(),
        allows_compression: s.allows_compression,
        start_position: s.start_position,
    }
}

/// The entries of a lopdf dictionary, in its order.
#[verifier::external_body]
fn entries_from_lopdf(d: &lopdf::Dictionary) -> Entries {
    d.iter().map(|(k, v)| (k.clone(), object_from_lopdf(v))).collect()
}

/// A `PdfObject` as the lopdf object it stands for, variant for variant.
#[verifier::external_body]
fn object_to_lopdf(o: PdfObject) -> lopdf::Object {
    match o {
        PdfObject::Null => Object::Null,
        PdfObject::Boolean(b) => Object::Boolean(b),
        PdfObject::Integer(i) => Object::Integer(i),
        PdfObject::Real(r) => r.value,
        PdfObject::Name(n) => Object::Name(n),
        PdfObject::String(t, true) => Object::String(t, StringFormat::Hexadecimal),
        PdfObject::String(t, false) => Object::String(t, StringFormat::Literal),
        PdfObject::Array(a) => Object::Array(a.into_iter().map(object_to_lopdf).collect()),
        PdfObject::Dictionary(d) => Object::Dictionary(entries_to_lopdf(d)),
        PdfObject::Stream(s) => Object::Stream(stream_to_lopdf(s)),
        PdfObject::Reference(number, generation) => Object::Reference((number, generation)),
    }
}

/// A `PdfStream` as the lopdf stream it stands for, field for field.
#[verifier::external_body]
fn stream_to_lopdf(s: PdfStream) -> lopdf::Stream {
    lopdf::Stream {
        dict: entries_to_lopdf(s.dict),
        content: s.content,
        allows_compression: s.allows_compression,
        start_position: s.start_position,
    }
}

/// A lopdf dictionary with the entries, in their order.
#[verifier::external_body]
fn entries_to_lopdf(d: Entries) -> lopdf::Dictionary {
    d.into_iter().map(|(k, v)| (k, object_to_lopdf(v))).collect()
}

/// `Document::load_mem`: parses a PDF file held in memory. Of the document it
/// yields only this is stated: no object number in use is above its `max_id`
/// (the reader raises `max_id` to the highest object it loaded). Which objects
/// the parse yields, and whether it succeeds, is lopdf's parser, which may merge
/// object streams in an order that varies from run to run; it is not stated.
#[verifier::external_body]
pub(crate) fn load_document(bytes: &[u8]) -> (r: Result<lopdf::Document, lopdf::Error>)
    ensures
        r matches Ok(doc) ==> ids_at_most(document_objects(doc), document_max_id(doc)),
{
    lopdf::Document::load_mem(bytes)
}

/// `Document::is_encrypted`: the trailer's `Encrypt` entry refers to an object that
/// resolves to a dictionary.
#[verifier::external_body]
pub(crate) fn is_encrypted(doc: &lopdf::Document) -> (r: bool)
    ensures
        r == (reference_of(dict_get(document_trailer(*doc), encrypt_key())) matches Some(id)
            && resolve_dict(document_objects(*doc), id) is Some),
{
    doc.is_encrypted()
}

/// `Document::get_pages`: the ids of the pages, in page order (the map it returns
/// is keyed by the page numbers 1, 2, ...).
#[verifier::external_body]
pub(crate) fn page_ids(doc: &lopdf::Document) -> (r: Vec<ObjectId>)
    ensures
        r@ == document_pages(document_objects(*doc), document_trailer(*doc)),
{
    doc.get_pages().into_values().collect()
}

/// `Document::get_object`: the object under the id, after following references;
/// an error where the id or a reference on the way is missing or the chain is
/// too long.
#[verifier::external_body]
pub(crate) fn object_at(doc: &lopdf::Document, id: ObjectId) -> (r: Result<PdfObject, lopdf::Error>)
    ensures
        match resolve(document_objects(*doc), id) {
            Some((_, o)) => r == Ok::<PdfObject, lopdf::Error>(o),
            None => r is Err,
        },
        r matches Ok(o) ==> o.wf(),
{
    doc.get_object(id).map(object_from_lopdf)
}

/// `Document::get_dictionary`: as `object_at`, and an error where the object
/// reached is not a dictionary.
#[verifier::external_body]
pub(crate) fn dictionary_at(doc: &lopdf::Document, id: ObjectId) -> (r: Result<Entries, lopdf::Error>)
    ensures
        match resolve_dict(document_objects(*doc), id) {
            Some(d) => r matches Ok(e) && e@ == d,
            None => r is Err,
        },
        r matches Ok(e) ==> entries_wf(e@),
{
    doc.get_dictionary(id).map(entries_from_lopdf)
}

/// The trailer dictionary of the document.
#[verifier::external_body]
pub(crate) fn trailer_entries(doc: &lopdf::Document) -> (r: Entries)
    ensures
        r@ == document_trailer(*doc),
        entries_wf(r@),
{
    entries_from_lopdf(&doc.trailer)
}

/// The document's `max_id`: the highest object number it has handed out.
#[verifier::external_body]
pub(crate) fn max_id(doc: &lopdf::Document) -> (r: u32)
    ensures
        r == document_max_id(*doc),
{
    doc.max_id
}

/// lopdf's error for object numbers that are used up (`Error::ObjectIdOverflow`).
#[verifier::external_body]
pub(crate) fn id_overflow() -> lopdf::Error {
    lopdf::Error::ObjectIdOverflow
}

/// `Dictionary::get` followed by `Object::as_reference`: the id that the entry
/// under the key refers to; an error where the key is missing or its value is not
/// a reference.
#[verifier::external_body]
pub(crate) fn entry_reference(entries: Entries, key: &[u8]) -> (r: Result<ObjectId, lopdf::Error>)
    requires
        keys_distinct(entries@),
    ensures
        match reference_of(dict_get(entries@, key@)) {
            Some(id) => r == Ok::<ObjectId, lopdf::Error>(id),
            None => r is Err,
        },
{
    entries_to_lopdf(entries).get(key).and_then(Object::as_reference)
}

/// `Document::get_dictionary_mut` followed by `Dictionary::set`: stores the value
/// under the key in the dictionary that the id resolves to. Nothing else in the
/// document changes.
#[verifier::external_body]
pub(crate) fn set_entry(doc: &mut lopdf::Document, id: ObjectId, key: Vec<u8>, value: PdfObject)
    requires
        resolve_dict(document_objects(*old(doc)), id) matches Some(d) && keys_distinct(d),
        value.wf(),
    ensures
        entry_set(document_objects(*old(doc)), document_objects(*final(doc)), id, key@, value),
        document_trailer(*final(doc)) == document_trailer(*old(doc)),
        document_max_id(*final(doc)) == document_max_id(*old(doc)),
{
    if let Ok(d) = doc.get_dictionary_mut(id) {
        d.set(key, object_to_lopdf(value));
    }
}

/// `Document::try_add_object`: stores the value under the next object number,
/// with generation 0; fails, changing nothing, where the object numbers are used
/// up.
#[verifier::external_body]
pub(crate) fn add_object(doc: &mut lopdf::Document, value: PdfObject) -> (r: Result<ObjectId, lopdf::Error>)
    requires
        value.wf(),
    ensures
        document_max_id(*old(doc)) < u32::MAX ==> {
            &&& r == Ok::<ObjectId, lopdf::Error>(((document_max_id(*old(doc)) + 1) as u32, 0u16))
            &&& document_objects(*final(doc)) == document_objects(*old(doc)).insert(
                ((document_max_id(*old(doc)) + 1) as u32, 0u16),
                value,
            )
            &&& document_max_id(*final(doc)) == document_max_id(*old(doc)) + 1
        },
        document_max_id(*old(doc)) == u32::MAX ==> {
            &&& r is Err
            &&& document_objects(*final(doc)) == document_objects(*old(doc))
            &&& document_max_id(*final(doc)) == document_max_id(*old(doc))
        },
        document_trailer(*final(doc)) == document_trailer(*old(doc)),
{
    doc.try_add_object(object_to_lopdf(value))
}

/// `Stream::new`: a stream over the content whose dictionary is the given one with
/// `Length` set to the content's length; it may be compressed and has no position
/// in a file.
#[verifier::external_body]
pub(crate) fn new_stream(dict: Entries, content: Vec<u8>) -> (r: PdfStream)
    requires
        entries_wf(dict@),
    ensures
        set_entry_of(r.dict@, dict@, length_key(), PdfObject::Integer(content@.len() as i64)),
        entries_wf(r.dict@),
        r.content@ == content@,
        r.allows_compression,
        r.start_position is None,
{
    stream_from_lopdf(&lopdf::Stream::new(entries_to_lopdf(dict), content))
}

/// The PDF file that lopdf's writer makes of the document, or `None` where
/// writing it fails.
pub uninterp spec fn saved_pdf(doc: lopdf::Document) -> Option<Seq<u8>>;

/// `Document::save_to` into memory: the PDF file that lopdf's writer makes of the
/// document as it was (`saved_pdf`); a failure comes back as the text of lopdf's
/// error. Saving may also change what lopdf keeps for writing (such as the
/// trailer's `Size`); that is not stated.
#[verifier::external_body]
pub(crate) fn save_document(doc: &mut lopdf::Document) -> (r: Result<Vec<u8>, String>)
    ensures
        match saved_pdf(*old(doc)) {
            Some(bytes) => r matches Ok(v) && v@ == bytes,
            None => r is Err,
        },
{
    let mut out = Vec::new();
    doc.save_to(&mut out).map(|_| out).map_err(|e| e.to_string())
}

} // verus!
