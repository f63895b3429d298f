//! Stamping the composed images onto the pages of a document.
use crate::document::{
    add_object, dictionary_at, document_max_id, document_objects, document_trailer, entry_reference,
    err, id_overflow, length_key, lopdf_error_text, max_id, new_stream, object_at, set_entry,
};
use crate::names::{
    bits_per_component_key, bits_per_component_name, color_space_key, color_space_name, contents_key,
    device_gray_key, device_gray_name, device_rgb_key, device_rgb_name, height_key,
    height_name, image_key, image_name, image_prefix_key, image_prefix_name, parent_key,
    parent_name, resources_key,
    resources_name, smask_key, smask_name, subtype_key, subtype_name, type_entry_key,
    type_entry_name, width_key, width_name, xobject_key, xobject_name,
};
use crate::object::{
    dict_get, entries_wf, entry_set, follow, has_key, ids_at_most, kept_but, kept_except, key_index,
    keys_distinct, lemma_except_get, lemma_except_insert, lemma_except_resolve, lemma_except_set,
    lemma_except_to_kept, lemma_except_trans, lemma_except_weaken, lemma_ids_after_add,
    lemma_kept_resolve, lemma_kept_trans, lemma_resolve_after_set, resolve, resolve_dict,
    reference_of, set_entry_of, take_entry, Entries, ObjectId, PdfObject,
};
use crate::page::{inherited_entry, inherited_value};
use crate::raster::Stamp;
use vstd::prelude::*;

verus! {

/// How the lines of a text are aligned within their block.
#[derive(Clone, Copy, PartialEq, Eq, Structural)]
pub enum Align {
    Left,
    Center,
    Right,
}

/// The alignment that a text item asks for: `left`, `right`, and anything else
/// (or nothing) centred.
pub open spec fn align_of(align: Option<Seq<char>>) -> Align {
    match align {
        Some(s) => if s == "left"@ {
            Align::Left
        } else if s == "right"@ {
            Align::Right
        } else {
            Align::Center
        },
        None => Align::Center,
    }
}

/// The view of an optional text.
pub open spec fn text_of(align: Option<String>) -> Option<Seq<char>> {
    match align {
        Some(s) => Some(s@),
        None => None,
    }
}

/// Reads the alignment of a text item.
pub fn parse_align(align: &Option<String>) -> (r: Align)
    ensures
        r == align_of(text_of(*align)),
{
    match align {
        Some(s) => {
            let left = "left".to_owned();
            let right = "right".to_owned();
            if *s == left {
                Align::Left
            } else if *s == right {
                Align::Right
            } else {
                Align::Center
            }
        },
        None => Align::Center,
    }
}

/// Checks a watermarking request before any work: the document must have at
/// least three pages (the first and the last are never stamped) and there must
/// be a text.
pub fn check_request(page_count: usize, text_count: usize) -> (r: Result<(), String>)
    ensures
        page_count < 3 ==> (r matches Err(text) && text@
            == "PDF needs at least 3 pages (first and last are skipped)"@),
        page_count >= 3 && text_count == 0 ==> (r matches Err(text) && text@
            == "no watermark texts provided"@),
        page_count >= 3 && text_count > 0 ==> r is Ok,
{
    if page_count < 3 {
        return Err("PDF needs at least 3 pages (first and last are skipped)".to_owned());
    }
    if text_count == 0 {
        return Err("no watermark texts provided".to_owned());
    }
    Ok(())
}

/// The pages that get the watermark: all but the first and the last.
pub fn watermark_pages(pages: &Vec<ObjectId>) -> (r: Vec<ObjectId>)
    ensures
        pages@.len() >= 2 ==> r@ == pages@.subrange(1, pages@.len() - 1),
        pages@.len() < 2 ==> r@.len() == 0,
{
    let mut r: Vec<ObjectId> = Vec::new();
    if pages.len() < 2 {
        return r;
    }
    let last: usize = pages.len() - 1;
    let mut i: usize = 1;
    while i < last
        invariant
            last == pages@.len() - 1,
            1 <= i <= last,
            r@ == pages@.subrange(1, i as int),
        decreases last - i,
    {
        r.push(pages[i]);
        i = i + 1;
    }
    r
}

/// The decimal digits of `n`, in ASCII.
pub open spec fn decimal(n: nat) -> Seq<u8>
    decreases n,
{
    if n < 10 {
        seq![(48 + n) as u8]
    } else {
        decimal(n / 10).push((48 + n % 10) as u8)
    }
}

fn decimal_digits(n: usize) -> (r: Vec<u8>)
    ensures
        r@ == decimal(n as nat),
    decreases n,
{
    if n < 10 {
        vec![48u8 + n as u8]
    } else {
        let mut v = decimal_digits(n / 10);
        v.push(48u8 + (n % 10) as u8);
        v
    }
}

/// `pad` underscores.
pub open spec fn underscores(pad: nat) -> Seq<u8> {
    Seq::new(pad, |_j: int| 95u8)
}

/// The name under which the `i`th image is listed in a page's resources: `pad`
/// underscores, `Im`, and `i` in decimal. A page whose XObject dictionary already
/// uses names beginning with `Im` gets its images under names padded to be longer
/// than any name it uses.
pub open spec fn image_entry_key(pad: nat, i: nat) -> Seq<u8> {
    underscores(pad) + image_prefix_key() + decimal(i)
}

/// Appends the bytes.
fn append_bytes(out: &mut Vec<u8>, bytes: &Vec<u8>)
    ensures
        final(out)@ == old(out)@ + bytes@,
{
    let ghost start = out@;
    let mut k: usize = 0;
    while k < bytes.len()
        invariant
            k <= bytes@.len(),
            out@ == start + bytes@.subrange(0, k as int),
        decreases bytes@.len() - k,
    {
        out.push(bytes[k]);
        k = k + 1;
        proof {
            assert(bytes@.subrange(0, k as int) == bytes@.subrange(0, k - 1).push(bytes@[k - 1]));
        }
    }
    proof {
        assert(bytes@.subrange(0, bytes@.len() as int) == bytes@);
    }
}

pub fn image_entry_name(pad: usize, i: usize) -> (r: Vec<u8>)
    ensures
        r@ == image_entry_key(pad as nat, i as nat),
{
    let mut name: Vec<u8> = Vec::new();
    let mut k: usize = 0;
    while k < pad
        invariant
            k <= pad,
            name@ == underscores(k as nat),
        decreases pad - k,
    {
        name.push(95u8);
        k = k + 1;
        proof {
            assert(name@ =~= underscores(k as nat));
        }
    }
    let prefix = image_prefix_name();
    append_bytes(&mut name, &prefix);
    let digits = decimal_digits(i);
    append_bytes(&mut name, &digits);
    name
}

proof fn lemma_decimal_nonempty(n: nat)
    ensures
        decimal(n).len() >= 1,
    decreases n,
{
    if n >= 10 {
        lemma_decimal_nonempty(n / 10);
    }
}

/// Different numbers are written with different digits.
proof fn lemma_decimal_injective(a: nat, b: nat)
    requires
        decimal(a) == decimal(b),
    ensures
        a == b,
    decreases a,
{
    if a < 10 && b < 10 {
        assert(decimal(a)[0] == (48 + a) as u8);
        assert(decimal(b)[0] == (48 + b) as u8);
        assert(decimal(a)[0] == decimal(b)[0]);
    } else if a < 10 {
        lemma_decimal_nonempty(b / 10);
        assert(decimal(b).len() >= 2);
    } else if b < 10 {
        lemma_decimal_nonempty(a / 10);
        assert(decimal(a).len() >= 2);
    } else {
        assert(decimal(a).drop_last() == decimal(a / 10));
        assert(decimal(b).drop_last() == decimal(b / 10));
        assert(decimal(a).last() == (48 + a % 10) as u8);
        assert(decimal(b).last() == (48 + b % 10) as u8);
        assert(decimal(a).last() == decimal(b).last());
        assert(a % 10 == b % 10);
        lemma_decimal_injective(a / 10, b / 10);
        assert(a == 10 * (a / 10) + a % 10);
        assert(b == 10 * (b / 10) + b % 10);
    }
}

/// The names of two different images with the same padding differ, and none is
/// a key that stamping or the page tree uses otherwise.
pub proof fn lemma_image_keys(pad: nat, i: nat, j: nat)
    ensures
        i != j ==> image_entry_key(pad, i) != image_entry_key(pad, j),
        image_entry_key(pad, i) != contents_key(),
        image_entry_key(pad, i) != resources_key(),
        image_entry_key(pad, i) != xobject_key(),
        image_entry_key(pad, i) != parent_key(),
{
    lemma_decimal_nonempty(i);
    let k = image_entry_key(pad, i);
    assert(k[0] == 73 || k[0] == 95) by {
        if pad > 0 {
            assert(k[0] == underscores(pad)[0]);
        } else {
            assert(underscores(pad) =~= Seq::<u8>::empty());
            assert(k[0] == image_prefix_key()[0]);
        }
    }
    assert(contents_key()[0] == 67);
    assert(resources_key()[0] == 82);
    assert(xobject_key()[0] == 88);
    assert(parent_key()[0] == 80);
    if i != j && image_entry_key(pad, i) == image_entry_key(pad, j) {
        lemma_decimal_nonempty(j);
        let n = pad + 2;
        assert(decimal(i) =~= image_entry_key(pad, i).subrange(n as int, image_entry_key(pad, i).len() as int));
        assert(decimal(j) =~= image_entry_key(pad, j).subrange(n as int, image_entry_key(pad, j).len() as int));
        lemma_decimal_injective(i, j);
    }
}

/// Names with different paddings or indices differ.
pub proof fn lemma_image_key_injective(p: nat, i: nat, q: nat, j: nat)
    requires
        image_entry_key(p, i) == image_entry_key(q, j),
    ensures
        p == q,
        i == j,
{
    let a = image_entry_key(p, i);
    let b = image_entry_key(q, j);
    if p < q {
        assert(a[p as int] == 73);
        assert(b[p as int] == 95);
    } else if q < p {
        assert(b[q as int] == 73);
        assert(a[q as int] == 95);
    } else {
        lemma_image_keys(p, i, j);
    }
}

/// The XObject dictionary of the resources `res`: the one their `XObject` entry
/// refers to or holds written into it; none where there is none.
pub open spec fn xobject_entries(objects: Map<ObjectId, PdfObject>, res: ObjectId) -> Seq<(Vec<u8>, PdfObject)> {
    match resolve_dict(objects, res) {
        Some(r) => match dict_get(r, xobject_key()) {
            Some(PdfObject::Reference(n, g)) => match resolve_dict(objects, (n, g)) {
                Some(x) => x,
                None => Seq::empty(),
            },
            Some(PdfObject::Dictionary(e)) => e@,
            _ => Seq::empty(),
        },
        None => Seq::empty(),
    }
}

/// None of the names under which the images are to be listed is used yet.
pub open spec fn names_fresh(entries: Seq<(Vec<u8>, PdfObject)>, pad: nat) -> bool {
    forall|i: nat| !has_key(entries, #[trigger] image_entry_key(pad, i))
}

/// The padding for the image names of a page whose XObject dictionary holds the
/// entries: none where no name there begins with `Im`, else as long as the
/// longest name there.
fn fresh_padding(entries: &Entries) -> (pad: usize)
    ensures
        names_fresh(entries@, pad as nat),
{
    let mut clash = false;
    let mut longest: usize = 0;
    let mut k: usize = 0;
    while k < entries.len()
        invariant
            k <= entries@.len(),
            forall|j: int| 0 <= j < k ==> (#[trigger] entries@[j]).0@.len() <= longest,
            !clash ==> forall|j: int| 0 <= j < k ==> !((#[trigger] entries@[j]).0@.len() >= 2
                && entries@[j].0@[0] == 73 && entries@[j].0@[1] == 109),
        decreases entries@.len() - k,
    {
        let key = &entries[k].0;
        if key.len() > longest {
            longest = key.len();
        }
        if key.len() >= 2 && key[0] == 73 && key[1] == 109 {
            clash = true;
        }
        k = k + 1;
    }
    let pad = if clash { longest } else { 0 };
    proof {
        assert forall|i: nat| !has_key(entries@, #[trigger] image_entry_key(pad as nat, i)) by {
            lemma_decimal_nonempty(i);
            let name = image_entry_key(pad as nat, i);
            if has_key(entries@, name) {
                let j: int = key_index(entries@, name);
                assert(entries@[j].0@ == name);
                if clash {
                    assert(name.len() > longest);
                } else {
                    assert(underscores(0) =~= Seq::<u8>::empty());
                    assert(name[0] == 73 && name[1] == 109);
                }
            }
        }
    }
    pad
}

/// The operators that draw the images: for each, its placement (the operators
/// that set up where it goes) followed by `/`, the name under which it is listed,
/// and ` Do Q` and a line break.
pub open spec fn draw_ops(placements: Seq<Seq<u8>>, pad: nat) -> Seq<u8>
    decreases placements.len(),
{
    if placements.len() == 0 {
        Seq::empty()
    } else {
        let i = placements.len() - 1;
        draw_ops(placements.drop_last(), pad) + placements[i] + seq![47u8] + image_entry_key(pad, i as nat)
            + seq![32u8, 68, 111, 32, 81, 10]
    }
}

/// The views of the placements.
pub open spec fn placement_views(placements: Seq<Vec<u8>>) -> Seq<Seq<u8>> {
    placements.map_values(|p: Vec<u8>| p@)
}

/// Builds the operators that draw the images listed with the padding.
fn draw_operators(placements: &Vec<Vec<u8>>, pad: usize) -> (r: Vec<u8>)
    ensures
        r@ == draw_ops(placement_views(placements@), pad as nat),
{
    let ghost all = placement_views(placements@);
    let mut out: Vec<u8> = Vec::new();
    let mut i: usize = 0;
    while i < placements.len()
        invariant
            i <= placements@.len(),
            all == placement_views(placements@),
            out@ == draw_ops(all.take(i as int), pad as nat),
        decreases placements@.len() - i,
    {
        append_bytes(&mut out, &placements[i]);
        out.push(47u8);
        let name = image_entry_name(pad, i);
        append_bytes(&mut out, &name);
        let call_end: Vec<u8> = vec![32u8, 68, 111, 32, 81, 10];
        append_bytes(&mut out, &call_end);
        proof {
            let t = all.take(i + 1);
            assert(t.drop_last() =~= all.take(i as int));
            assert(t[i as int] == placements@[i as int]@);
            assert(out@ =~= draw_ops(t, pad as nat));
        }
        i = i + 1;
    }
    proof {
        assert(all.take(placements@.len() as int) =~= all);
    }
    out
}

/// The id that the next object stored gets, after `max` has been handed out.
pub open spec fn next_object_id(max: u32) -> ObjectId {
    ((max + 1) as u32, 0u16)
}

/// The next object id is still free: the object numbers are not used up, and no
/// object is stored under that id yet.
pub open spec fn next_id_free(objects: Map<ObjectId, PdfObject>, max: u32) -> bool {
    max < u32::MAX && !objects.dom().contains(next_object_id(max))
}

/// A name object with the given bytes.
pub open spec fn is_name(o: Option<PdfObject>, name: Seq<u8>) -> bool {
    o matches Some(PdfObject::Name(n)) && n@ == name
}

/// The entries of an image XObject's dictionary: `w` by `h` pixels of 8 bits in
/// the colour space, with the soft mask if one is given.
pub open spec fn image_entries(
    d: Seq<(Vec<u8>, PdfObject)>,
    w: usize,
    h: usize,
    color_space: Seq<u8>,
    smask: Option<ObjectId>,
) -> bool {
    &&& keys_distinct(d)
    &&& is_name(dict_get(d, type_entry_key()), xobject_key())
    &&& is_name(dict_get(d, subtype_key()), image_key())
    &&& dict_get(d, width_key()) == Some(PdfObject::Integer(w as i64))
    &&& dict_get(d, height_key()) == Some(PdfObject::Integer(h as i64))
    &&& is_name(dict_get(d, color_space_key()), color_space)
    &&& dict_get(d, bits_per_component_key()) == Some(PdfObject::Integer(8))
    &&& match smask {
        Some(id) => d.len() == 7 && dict_get(d, smask_key()) == Some(PdfObject::Reference(id.0, id.1)),
        None => d.len() == 6 && !has_key(d, smask_key()),
    }
}

/// An image XObject stream as `add_stamp_images` stores it: the entries of
/// `image_entries` and the stream's `Length`, over the given pixel bytes.
pub open spec fn image_stream(
    o: PdfObject,
    w: usize,
    h: usize,
    color_space: Seq<u8>,
    smask: Option<ObjectId>,
    content: Seq<u8>,
) -> bool {
    o matches PdfObject::Stream(s) && {
        &&& s.content@ == content
        &&& exists|d: Seq<(Vec<u8>, PdfObject)>|
            #![auto]
            image_entries(d, w, h, color_space, smask) && set_entry_of(
                s.dict@,
                d,
                length_key(),
                PdfObject::Integer(content.len() as i64),
            )
    }
}

/// The number of colour components of a colour space named in an image: 3 for
/// `DeviceRGB`, 1 for `DeviceGray`, none for anything else.
pub open spec fn components(cs: Option<PdfObject>) -> int {
    match cs {
        Some(PdfObject::Name(n)) => if n@ == seq![68u8, 101, 118, 105, 99, 101, 82, 71, 66] {
            3
        } else if n@ == seq![68u8, 101, 118, 105, 99, 101, 71, 114, 97, 121] {
            1
        } else {
            0
        },
        _ => 0,
    }
}

/// A stored image whose samples fill its content exactly: it is a stream whose
/// `Width`, `Height` and `BitsPerComponent` are integers and whose colour space
/// is `DeviceRGB` or `DeviceGray`, and its content holds `Width * Height *
/// components * BitsPerComponent / 8` bytes.
pub open spec fn samples_fill(o: PdfObject) -> bool {
    match o {
        PdfObject::Stream(st) => match (
            dict_get(st.dict@, width_key()),
            dict_get(st.dict@, height_key()),
            dict_get(st.dict@, bits_per_component_key()),
        ) {
            (
                Some(PdfObject::Integer(w)),
                Some(PdfObject::Integer(h)),
                Some(PdfObject::Integer(bits)),
            ) => {
                let n = components(dict_get(st.dict@, color_space_key()));
                &&& n > 0
                &&& st.content@.len() * 8 == w * h * n * bits
            },
            _ => false,
        },
        _ => false,
    }
}

/// An image stored as `add_stamp_images` stores it, over an RGB plane of three
/// bytes a pixel or a grey plane of one byte a pixel, has samples that fill its
/// content exactly: one byte to a sample, eight bits to a component.
pub proof fn lemma_image_samples(
    o: PdfObject,
    w: usize,
    h: usize,
    color_space: Seq<u8>,
    smask: Option<ObjectId>,
    content: Seq<u8>,
)
    requires
        image_stream(o, w, h, color_space, smask, content),
        w <= i64::MAX,
        h <= i64::MAX,
        (color_space == device_rgb_key() && content.len() == 3 * (w * h)) || (color_space
            == device_gray_key() && content.len() == w * h),
    ensures
        samples_fill(o),
{
    let st = o->Stream_0;
    let d = choose|d: Seq<(Vec<u8>, PdfObject)>|
        #![auto]
        image_entries(d, w, h, color_space, smask) && set_entry_of(
            st.dict@,
            d,
            length_key(),
            PdfObject::Integer(content.len() as i64),
        );
    crate::object::lemma_set_entry_get(st.dict@, d, length_key(), PdfObject::Integer(content.len() as i64));
    assert(width_key() != length_key());
    assert(height_key() != length_key());
    assert(bits_per_component_key() != length_key());
    assert(color_space_key() != length_key());
    assert(dict_get(st.dict@, width_key()) == Some(PdfObject::Integer(w as i64)));
    assert(dict_get(st.dict@, height_key()) == Some(PdfObject::Integer(h as i64)));
    assert((w as i64) as int == w as int);
    assert((h as i64) as int == h as int);
    let n = components(dict_get(st.dict@, color_space_key()));
    if color_space == device_rgb_key() {
        assert(n == 3);
        assert(content.len() * 8 == w * h * 3 * 8) by (nonlinear_arith)
            requires
                content.len() == 3 * (w * h),
        ;
    } else {
        assert(n == 1);
        assert(content.len() * 8 == w * h * 1 * 8) by (nonlinear_arith)
            requires
                content.len() == w * h,
        ;
    }
}

/// The value stored under the key of an entry that the entries hold.
pub proof fn lemma_dict_get_at(d: Seq<(Vec<u8>, PdfObject)>, i: int)
    requires
        keys_distinct(d),
        0 <= i < d.len(),
    ensures
        dict_get(d, d[i].0@) == Some(d[i].1),
{
    assert(has_key(d, d[i].0@));
    let k: int = key_index(d, d[i].0@);
    if k != i {
        assert(d[k].0@ != d[i].0@);
    }
}

/// The dictionary of an image XObject (before `Stream::new` adds `Length`).
fn image_dictionary(w: usize, h: usize, color_space: Vec<u8>, smask: Option<ObjectId>) -> (r: Entries)
    ensures
        image_entries(r@, w, h, color_space@, smask),
        entries_wf(r@),
{
    let mut d: Entries = Vec::new();
    d.push((type_entry_name(), PdfObject::Name(xobject_name())));
    d.push((subtype_name(), PdfObject::Name(image_name())));
    d.push((width_name(), PdfObject::Integer(w as i64)));
    d.push((height_name(), PdfObject::Integer(h as i64)));
    d.push((color_space_name(), PdfObject::Name(color_space)));
    d.push((bits_per_component_name(), PdfObject::Integer(8)));
    match smask {
        Some(id) => d.push((smask_name(), PdfObject::Reference(id.0, id.1))),
        None => {},
    }
    proof {
        let s = d@;
        assert(s[0].0@ == type_entry_key());
        assert(s[1].0@ == subtype_key());
        assert(s[2].0@ == width_key());
        assert(s[3].0@ == height_key());
        assert(s[4].0@ == color_space_key());
        assert(s[5].0@ == bits_per_component_key());
        assert(smask is Some ==> s[6].0@ == smask_key());
        assert(type_entry_key()[0] == 84);
        assert(subtype_key()[0] == 83 && subtype_key()[1] == 117);
        assert(width_key()[0] == 87);
        assert(height_key()[0] == 72);
        assert(color_space_key()[0] == 67);
        assert(bits_per_component_key()[0] == 66);
        assert(smask_key()[0] == 83 && smask_key()[1] == 77);
        assert(keys_distinct(s));
        lemma_dict_get_at(s, 0);
        lemma_dict_get_at(s, 1);
        lemma_dict_get_at(s, 2);
        lemma_dict_get_at(s, 3);
        lemma_dict_get_at(s, 4);
        lemma_dict_get_at(s, 5);
        if smask is Some {
            lemma_dict_get_at(s, 6);
        } else {
            if has_key(s, smask_key()) {
                let k: int = key_index(s, smask_key());
                assert(s[k].0@ == smask_key());
            }
        }
        assert(forall|i: int| 0 <= i < s.len() ==> (#[trigger] s[i]).1.wf());
    }
    d
}

/// Adds the stamp to the document as two image XObjects: its alpha plane as a
/// grey soft mask, then its RGB plane, which refers to the mask. Yields the id
/// of the RGB image.
pub fn add_stamp_images(doc: &mut lopdf::Document, stamp: Stamp) -> (r: Result<ObjectId, String>)
    ensures
        document_trailer(*final(doc)) == document_trailer(*old(doc)),
        document_max_id(*old(doc)) < u32::MAX - 1 ==> {
            let mask = next_object_id(document_max_id(*old(doc)));
            let image = next_object_id((document_max_id(*old(doc)) + 1) as u32);
            &&& r == Ok::<ObjectId, String>(image)
            &&& document_max_id(*final(doc)) == document_max_id(*old(doc)) + 2
            &&& exists|mask_obj: PdfObject, image_obj: PdfObject|
                #![trigger image_stream(mask_obj, stamp.w, stamp.h, device_gray_key(), None, stamp.alpha@), image_stream(image_obj, stamp.w, stamp.h, device_rgb_key(), Some(mask), stamp.rgb@)]
                {
                    &&& document_objects(*final(doc)) == document_objects(*old(doc)).insert(
                        mask,
                        mask_obj,
                    ).insert(image, image_obj)
                    &&& image_stream(
                        mask_obj,
                        stamp.w,
                        stamp.h,
                        device_gray_key(),
                        None,
                        stamp.alpha@,
                    )
                    &&& image_stream(
                        image_obj,
                        stamp.w,
                        stamp.h,
                        device_rgb_key(),
                        Some(mask),
                        stamp.rgb@,
                    )
                }
        },
        document_max_id(*old(doc)) >= u32::MAX - 1 ==> r is Err,
        document_max_id(*old(doc)) < u32::MAX - 1 && stamp.w <= i64::MAX && stamp.h <= i64::MAX
            && stamp.alpha@.len() == stamp.w * stamp.h && stamp.rgb@.len() == 3 * (stamp.w * stamp.h) ==> {
            let mask = next_object_id(document_max_id(*old(doc)));
            let image = next_object_id((document_max_id(*old(doc)) + 1) as u32);
            &&& samples_fill(document_objects(*final(doc))[mask])
            &&& samples_fill(document_objects(*final(doc))[image])
        },
{
    let ghost objects0 = document_objects(*doc);
    let ghost max0 = document_max_id(*doc);
    let Stamp { rgb, alpha, w, h } = stamp;
    let mask_dict = image_dictionary(w, h, device_gray_name(), None);
    let mask_stream = new_stream(mask_dict, alpha);
    let ghost mask_obj = PdfObject::Stream(mask_stream);
    let mask = match add_object(doc, PdfObject::Stream(mask_stream)) {
        Ok(id) => id,
        Err(e) => return Err(err(e)),
    };
    let image_dict = image_dictionary(w, h, device_rgb_name(), Some(mask));
    let image_stream_value = new_stream(image_dict, rgb);
    let ghost image_obj = PdfObject::Stream(image_stream_value);
    let image = match add_object(doc, PdfObject::Stream(image_stream_value)) {
        Ok(id) => id,
        Err(e) => return Err(err(e)),
    };
    proof {
        assert(w == stamp.w && h == stamp.h && rgb@ == stamp.rgb@ && alpha@ == stamp.alpha@);
        assert(objects0 == document_objects(*old(doc)));
        assert(max0 == document_max_id(*old(doc)));
        assert(mask == next_object_id(max0));
        assert(image == next_object_id((max0 + 1) as u32));
        assert(document_objects(*doc) == document_objects(*old(doc)).insert(mask, mask_obj).insert(
            image,
            image_obj,
        ));
        assert(image_stream(mask_obj, stamp.w, stamp.h, device_gray_key(), None, stamp.alpha@));
        assert(image_stream(image_obj, stamp.w, stamp.h, device_rgb_key(), Some(mask), stamp.rgb@));
        if stamp.w <= i64::MAX && stamp.h <= i64::MAX && stamp.alpha@.len() == stamp.w * stamp.h
            && stamp.rgb@.len() == 3 * (stamp.w * stamp.h) {
            lemma_image_samples(mask_obj, stamp.w, stamp.h, device_gray_key(), None, stamp.alpha@);
            lemma_image_samples(image_obj, stamp.w, stamp.h, device_rgb_key(), Some(mask), stamp.rgb@);
            assert(mask != image);
            assert(document_objects(*doc)[mask] == mask_obj);
            assert(document_objects(*doc)[image] == image_obj);
        }
    }
    Ok(image)
}

/// A dictionary with no entries.
pub open spec fn is_empty_dict(v: PdfObject) -> bool {
    v matches PdfObject::Dictionary(e) && e@.len() == 0
}

/// A value stored in well-formed entries is well formed.
proof fn lemma_dict_get_wf(d: Seq<(Vec<u8>, PdfObject)>, key: Seq<u8>)
    requires
        entries_wf(d),
        dict_get(d, key) is Some,
    ensures
        dict_get(d, key).unwrap().wf(),
{
    let k: int = key_index(d, key);
    assert(d[k].1.wf());
}

/// How many levels above a page its inherited `Resources` are searched for.
pub open spec fn resources_search_levels() -> nat {
    15
}

/// The resources that a page with the entries `d` and no usable `Resources` of
/// its own inherits: those of the nearest ancestor that has a `Resources` entry,
/// written into it or stored as a dictionary that it refers to; none where no
/// ancestor within 15 levels has one.
pub open spec fn inherited_resources(objects: Map<ObjectId, PdfObject>, d: Seq<(Vec<u8>, PdfObject)>) -> Seq<
    (Vec<u8>, PdfObject),
> {
    match reference_of(dict_get(d, parent_key())) {
        Some(parent) => match inherited_entry(objects, parent, resources_search_levels(), resources_key()) {
            Some(PdfObject::Dictionary(e)) => e@,
            Some(PdfObject::Reference(n, g)) => match resolve_dict(objects, (n, g)) {
                Some(r) => r,
                None => Seq::empty(),
            },
            _ => Seq::empty(),
        },
        None => Seq::empty(),
    }
}

/// The resources dictionary of a page with the entries `d`: the dictionary that
/// its `Resources` entry refers to, or the one written into that entry, or else
/// the resources it inherits.
pub open spec fn page_resources(objects: Map<ObjectId, PdfObject>, d: Seq<(Vec<u8>, PdfObject)>) -> Option<
    Seq<(Vec<u8>, PdfObject)>,
> {
    match dict_get(d, resources_key()) {
        Some(PdfObject::Reference(n, g)) => resolve_dict(objects, (n, g)),
        Some(PdfObject::Dictionary(e)) => Some(e@),
        _ => Some(inherited_resources(objects, d)),
    }
}

/// A copy of the resources that the page, stored as a dictionary with the
/// entries `d`, inherits.
fn inherited_resources_of(doc: &lopdf::Document, page: ObjectId) -> (r: Entries)
    requires
        resolve_dict(document_objects(*doc), page) is Some,
    ensures
        r@ == inherited_resources(document_objects(*doc), resolve_dict(document_objects(*doc), page).unwrap()),
        entries_wf(r@),
{
    let d = match dictionary_at(doc, page) {
        Ok(d) => d,
        Err(_) => return Vec::new(),
    };
    let parent_key_bytes = parent_name();
    let parent = match entry_reference(d, parent_key_bytes.as_slice()) {
        Ok(p) => p,
        Err(_) => return Vec::new(),
    };
    let key = resources_name();
    match inherited_value(doc, parent, key.as_slice(), 15) {
        Some(PdfObject::Dictionary(e)) => e,
        Some(PdfObject::Reference(n, g)) => match dictionary_at(doc, (n, g)) {
            Ok(e) => e,
            Err(_) => Vec::new(),
        },
        _ => Vec::new(),
    }
}

/// What `ensure_resources` did to the objects, having yielded `res`: where the
/// page's `Resources` entry refers to an object, that object, with nothing
/// changed; where it is a dictionary written into the page, that dictionary moved
/// into the new object `res`; otherwise a new dictionary `res` holding a copy of
/// the resources the page inherits; in the two latter cases the page's
/// `Resources` now refers to `res`.
pub open spec fn resources_ready(
    before: Map<ObjectId, PdfObject>,
    after: Map<ObjectId, PdfObject>,
    page: ObjectId,
    res: ObjectId,
) -> bool {
    match resolve(before, page) {
        Some((_, PdfObject::Dictionary(d))) => match dict_get(d@, resources_key()) {
            Some(PdfObject::Reference(n, g)) => res == (n, g) && after == before,
            Some(PdfObject::Dictionary(e)) => {
                &&& keys_distinct(resolve_dict(before.insert(res, PdfObject::Dictionary(e)), page).unwrap())
                &&& entry_set(
                    before.insert(res, PdfObject::Dictionary(e)),
                    after,
                    page,
                    resources_key(),
                    PdfObject::Reference(res.0, res.1),
                )
            },
            _ => exists|v: PdfObject|
                #![trigger before.insert(res, v)]
                {
                    &&& v matches PdfObject::Dictionary(e) && e@ == inherited_resources(before, d@)
                    &&& keys_distinct(resolve_dict(before.insert(res, v), page).unwrap())
                    &&& entry_set(
                        before.insert(res, v),
                        after,
                        page,
                        resources_key(),
                        PdfObject::Reference(res.0, res.1),
                    )
                },
        },
        _ => false,
    }
}

/// Finds the page's resources dictionary, giving the page one of its own if it
/// has none that is stored as an object (a copy of the resources it inherits,
/// where it has none written into it); yields the id of that object. An error is
/// lopdf's text, or says that the page is not a dictionary.
pub fn ensure_resources(doc: &mut lopdf::Document, page_id: ObjectId) -> (r: Result<ObjectId, String>)
    ensures
        document_trailer(*final(doc)) == document_trailer(*old(doc)),
        r matches Err(text) ==> text@ == "page not a dictionary"@ || lopdf_error_text(text),
        r matches Ok(res) ==> resources_ready(
            document_objects(*old(doc)),
            document_objects(*final(doc)),
            page_id,
            res,
        ),
        resolve(document_objects(*old(doc)), page_id) is None ==> r is Err,
        (resolve(document_objects(*old(doc)), page_id) matches Some((_, o)) && !(o is Dictionary)) ==> (
        r matches Err(text) && text@ == "page not a dictionary"@),
        resolve(document_objects(*old(doc)), page_id) matches Some((_, PdfObject::Dictionary(d)))
            ==> (dict_get(d@, resources_key()) matches Some(PdfObject::Reference(n, g)) ==> r == Ok::<
            ObjectId,
            String,
        >((n, g))),
        resolve(document_objects(*old(doc)), page_id) matches Some((_, PdfObject::Dictionary(d)))
            ==> (!(dict_get(d@, resources_key()) matches Some(PdfObject::Reference(_, _))) ==> (
        next_id_free(document_objects(*old(doc)), document_max_id(*old(doc))) ==> r == Ok::<
            ObjectId,
            String,
        >(next_object_id(document_max_id(*old(doc)))))),
        !(resolve(document_objects(*old(doc)), page_id) matches Some((_, PdfObject::Dictionary(_))))
            ==> document_objects(*final(doc)) == document_objects(*old(doc)) && document_max_id(
            *final(doc),
        ) == document_max_id(*old(doc)),
        resolve(document_objects(*old(doc)), page_id) matches Some((_, PdfObject::Dictionary(d)))
            ==> (dict_get(d@, resources_key()) matches Some(PdfObject::Reference(_, _)) ==> (
        document_objects(*final(doc)) == document_objects(*old(doc)) && document_max_id(*final(doc))
            == document_max_id(*old(doc)))),
        document_max_id(*final(doc)) == document_max_id(*old(doc)) || document_max_id(*final(doc))
            == document_max_id(*old(doc)) + 1,
        ids_at_most(document_objects(*old(doc)), document_max_id(*old(doc))) ==> {
            &&& ids_at_most(document_objects(*final(doc)), document_max_id(*final(doc)))
            &&& r matches Ok(res) ==> resolve_dict(document_objects(*final(doc)), res) == page_resources(
                document_objects(*old(doc)),
                resolve_dict(document_objects(*old(doc)), page_id).unwrap(),
            )
            &&& kept_except(
                document_objects(*old(doc)),
                document_objects(*final(doc)),
                set![(resolve(document_objects(*old(doc)), page_id).unwrap().0, resources_key())],
            )
        },
{
    let ghost before = document_objects(*doc);
    let ghost max0 = document_max_id(*doc);
    let ghost writes = set![(resolve(before, page_id).unwrap().0, resources_key())];
    let page = match object_at(doc, page_id) {
        Ok(o) => o,
        Err(e) => return Err(err(e)),
    };
    let entries = match page {
        PdfObject::Dictionary(d) => d,
        _ => return Err("page not a dictionary".to_owned()),
    };
    let ghost page_entries = entries@;
    let key = resources_name();
    let found = take_entry(entries, key.as_slice());
    let ghost found_view = found;
    proof {
        if found is Some {
            lemma_dict_get_wf(page_entries, resources_key());
        }
    }
    let value = match found {
        Some(PdfObject::Reference(n, g)) => return Ok((n, g)),
        Some(PdfObject::Dictionary(d)) => PdfObject::Dictionary(d),
        _ => PdfObject::Dictionary(inherited_resources_of(doc, page_id)),
    };
    let ghost value_view = value;
    let res = match add_object(doc, value) {
        Ok(id) => id,
        Err(e) => return Err(err(e)),
    };
    let ghost mid = document_objects(*doc);
    proof {
        if !before.dom().contains(res) {
            crate::object::lemma_follow_insert_fresh(before, page_id, 0, res, value_view);
        }
        if ids_at_most(before, max0) {
            lemma_ids_after_add(before, max0, value_view);
            lemma_except_insert(before, res, value_view, writes);
        }
    }
    match object_at(doc, page_id) {
        Ok(PdfObject::Dictionary(_)) => {},
        Ok(_) => return Err("page not a dictionary".to_owned()),
        Err(e) => return Err(err(e)),
    }
    set_entry(doc, page_id, resources_name(), PdfObject::Reference(res.0, res.1));
    proof {

        if ids_at_most(before, max0) {
            lemma_except_set(mid, document_objects(*doc), page_id, resources_key(), PdfObject::Reference(res.0, res.1));
            assert(resolve(mid, page_id) == resolve(before, page_id));
            lemma_except_trans(before, mid, document_objects(*doc), writes, writes);
            assert(writes.union(writes) =~= writes);
            // The new resources object is not the page, which was stored before.
            crate::object::lemma_follow_result(before, page_id, 0);
            let after = document_objects(*doc);
            assert(after[res] == value_view);
            assert(resolve(after, res) == Some((res, value_view)));
            assert(value_view matches PdfObject::Dictionary(e) && e@ == page_resources(before, page_entries).unwrap());
        }
    }
    Ok(res)
}

/// Where the resources' XObject dictionary `xo` stands in `mid`: the object that
/// their `XObject` entry refers to, with nothing changed; or a new object `xo`
/// holding the dictionary written into that entry, or else an empty one.
pub open spec fn xobjects_ready(
    before: Map<ObjectId, PdfObject>,
    d: Seq<(Vec<u8>, PdfObject)>,
    xo: ObjectId,
    mid: Map<ObjectId, PdfObject>,
) -> bool {
    match dict_get(d, xobject_key()) {
        Some(PdfObject::Reference(n, g)) => xo == (n, g) && mid == before,
        Some(PdfObject::Dictionary(e)) => mid == before.insert(xo, PdfObject::Dictionary(e)),
        _ => exists|v: PdfObject| #![trigger before.insert(xo, v)] is_empty_dict(v) && mid == before.insert(xo, v),
    }
}

/// What `attach_image` did: found or made the XObject dictionary of the
/// resources `res`, listed the image under its name (padded by `pad`) in it, and
/// made the resources' `XObject` entry refer to it.
pub open spec fn attached(
    before: Map<ObjectId, PdfObject>,
    after: Map<ObjectId, PdfObject>,
    res: ObjectId,
    pad: nat,
    index: nat,
    image: ObjectId,
) -> bool {
    match resolve(before, res) {
        Some((_, PdfObject::Dictionary(d))) => exists|
            xo: ObjectId,
            mid: Map<ObjectId, PdfObject>,
            mid2: Map<ObjectId, PdfObject>,
        |
            #![trigger entry_set(mid, mid2, xo, image_entry_key(pad, index), PdfObject::Reference(image.0, image.1))]
            {
                &&& xobjects_ready(before, d@, xo, mid)
                &&& keys_distinct(resolve_dict(mid, xo).unwrap())
                &&& keys_distinct(resolve_dict(mid2, res).unwrap())
                &&& entry_set(
                    mid,
                    mid2,
                    xo,
                    image_entry_key(pad, index),
                    PdfObject::Reference(image.0, image.1),
                )
                &&& entry_set(mid2, after, res, xobject_key(), PdfObject::Reference(xo.0, xo.1))
            },
        _ => false,
    }
}

/// The entries that attaching the image with the index to the resources stored
/// under `t` may write: the image's entry, and the `XObject` entry of those
/// resources.
pub open spec fn attach_writes(pad: nat, index: nat, t: ObjectId) -> Set<(ObjectId, Seq<u8>)> {
    Set::new(|w: (ObjectId, Seq<u8>)| w.1 == image_entry_key(pad, index) || w == (t, xobject_key()))
}

/// Every `XObject` entry of a dictionary stored in `before` either kept its value
/// in `after` or now refers to an object that resolves to a dictionary.
pub open spec fn xobjects_sound(before: Map<ObjectId, PdfObject>, after: Map<ObjectId, PdfObject>) -> bool {
    forall|id: ObjectId|
        #![trigger after[id]]
        before.dom().contains(id) && before[id] is Dictionary ==> {
            let x = dict_get(after[id]->Dictionary_0@, xobject_key());
            ||| x == dict_get(before[id]->Dictionary_0@, xobject_key())
            ||| x matches Some(PdfObject::Reference(n, g)) && resolve_dict(after, (n, g)) is Some
        }
}

/// Where no `XObject` entry was written, every one kept its value.
proof fn lemma_sound_from_kept(
    before: Map<ObjectId, PdfObject>,
    after: Map<ObjectId, PdfObject>,
    writes: Set<(ObjectId, Seq<u8>)>,
)
    requires
        kept_except(before, after, writes),
        forall|w: (ObjectId, Seq<u8>)| #[trigger] writes.contains(w) ==> w.1 != xobject_key(),
    ensures
        xobjects_sound(before, after),
{
    assert forall|id: ObjectId| before.dom().contains(id) && before[id] is Dictionary implies {
        let x = dict_get((#[trigger] after[id])->Dictionary_0@, xobject_key());
        ||| x == dict_get(before[id]->Dictionary_0@, xobject_key())
        ||| x matches Some(PdfObject::Reference(n, g)) && resolve_dict(after, (n, g)) is Some
    } by {
        assert(!writes.contains((id, xobject_key())));
        assert(dict_get(after[id]->Dictionary_0@, xobject_key()) == dict_get(
            before[id]->Dictionary_0@,
            xobject_key(),
        ));
    }
}

/// Soundness of the `XObject` entries carries through two changes that keep
/// what they do not write.
proof fn lemma_sound_trans(
    a: Map<ObjectId, PdfObject>,
    b: Map<ObjectId, PdfObject>,
    c: Map<ObjectId, PdfObject>,
    first: Set<(ObjectId, Seq<u8>)>,
    second: Set<(ObjectId, Seq<u8>)>,
)
    requires
        xobjects_sound(a, b),
        xobjects_sound(b, c),
        kept_except(a, b, first),
        kept_except(b, c, second),
    ensures
        xobjects_sound(a, c),
{
    assert forall|id: ObjectId| a.dom().contains(id) && a[id] is Dictionary implies {
        let x = dict_get((#[trigger] c[id])->Dictionary_0@, xobject_key());
        ||| x == dict_get(a[id]->Dictionary_0@, xobject_key())
        ||| x matches Some(PdfObject::Reference(n, g)) && resolve_dict(c, (n, g)) is Some
    } by {
        assert(b.dom().contains(id) && b[id] is Dictionary);
        let xb = dict_get(b[id]->Dictionary_0@, xobject_key());
        let xc = dict_get(c[id]->Dictionary_0@, xobject_key());
        if xc == xb {
            if let Some(PdfObject::Reference(n, g)) = xb {
                if resolve_dict(b, (n, g)) is Some {
                    lemma_except_resolve(b, c, second, (n, g));
                }
            }
        }
    }
}

/// After `attach_image`, the resources' `XObject` entry refers to a dictionary,
/// and no other `XObject` entry changed.
proof fn lemma_attach_sound(
    before: Map<ObjectId, PdfObject>,
    after: Map<ObjectId, PdfObject>,
    res: ObjectId,
    pad: nat,
    index: nat,
    image: ObjectId,
)
    requires
        attached(before, after, res, pad, index, image),
        kept_except(before, after, attach_writes(pad, index, resolve(before, res).unwrap().0)),
    ensures
        xobjects_sound(before, after),
{
    let t = resolve(before, res).unwrap().0;
    let w = attach_writes(pad, index, t);
    lemma_attached_lists_image(before, after, res, pad, index, image);
    let xo = choose|xo: ObjectId|
        #![trigger resolve_dict(after, xo)]
        {
            &&& resolve_dict(after, res) matches Some(d) && dict_get(d, xobject_key()) == Some(
                PdfObject::Reference(xo.0, xo.1),
            )
            &&& resolve_dict(after, xo) matches Some(x) && dict_get(x, image_entry_key(pad, index)) == Some(
                PdfObject::Reference(image.0, image.1),
            )
        };
    assert(resolve_dict(before, res) is Some);
    lemma_except_resolve(before, after, w, res);
    crate::object::lemma_follow_result(after, res, 0);
    assert(resolve_dict(after, (xo.0, xo.1)) is Some);
    assert forall|id: ObjectId| before.dom().contains(id) && before[id] is Dictionary implies {
        let x = dict_get((#[trigger] after[id])->Dictionary_0@, xobject_key());
        ||| x == dict_get(before[id]->Dictionary_0@, xobject_key())
        ||| x matches Some(PdfObject::Reference(n, g)) && resolve_dict(after, (n, g)) is Some
    } by {
        if id != t {
            lemma_image_keys(pad, index, index);
            assert(!w.contains((id, xobject_key())));
            assert(dict_get(after[id]->Dictionary_0@, xobject_key()) == dict_get(
                before[id]->Dictionary_0@,
                xobject_key(),
            ));
        } else {
            assert(after[t]->Dictionary_0@ == resolve_dict(after, res).unwrap());
        }
    }
}

/// Every entry under an image's name in a dictionary stored in `before` either
/// kept its value in `after`, or is the entry under the name padded by `pad`
/// for the index, now referring to the image.
pub open spec fn image_entry_written(
    before: Map<ObjectId, PdfObject>,
    after: Map<ObjectId, PdfObject>,
    pad: nat,
    index: nat,
    image: ObjectId,
) -> bool {
    forall|id: ObjectId, p: nat, j: nat|
        #![trigger dict_get(after[id]->Dictionary_0@, image_entry_key(p, j))]
        before.dom().contains(id) && before[id] is Dictionary ==> {
            ||| dict_get(after[id]->Dictionary_0@, image_entry_key(p, j)) == dict_get(
                before[id]->Dictionary_0@,
                image_entry_key(p, j),
            )
            ||| p == pad && j == index && dict_get(after[id]->Dictionary_0@, image_entry_key(p, j))
                == Some(PdfObject::Reference(image.0, image.1))
        }
}

/// Every `XObject` entry of a dictionary stored in `before` that referred to an
/// object still refers to it in `after`.
pub open spec fn xobject_refs_kept(before: Map<ObjectId, PdfObject>, after: Map<ObjectId, PdfObject>) -> bool {
    forall|id: ObjectId|
        #![trigger after[id]]
        before.dom().contains(id) && before[id] is Dictionary && (dict_get(
            before[id]->Dictionary_0@,
            xobject_key(),
        ) matches Some(PdfObject::Reference(_, _))) ==> dict_get(after[id]->Dictionary_0@, xobject_key())
            == dict_get(before[id]->Dictionary_0@, xobject_key())
}

/// The two writes of `attach_image`, after storing the XObject dictionary `xo`
/// where it was not stored yet, change no image entry but the new one, and no
/// `XObject` entry that referred to an object.
proof fn lemma_attach_entries(
    before: Map<ObjectId, PdfObject>,
    mid: Map<ObjectId, PdfObject>,
    mid2: Map<ObjectId, PdfObject>,
    after: Map<ObjectId, PdfObject>,
    res: ObjectId,
    xo: ObjectId,
    pad: nat,
    index: nat,
    image: ObjectId,
)
    requires
        resolve_dict(before, res) is Some,
        dict_get(resolve_dict(before, res).unwrap(), xobject_key()) matches Some(PdfObject::Reference(n, g))
            ==> xo == (n, g) && mid == before,
        !(dict_get(resolve_dict(before, res).unwrap(), xobject_key()) matches Some(PdfObject::Reference(_, _)))
            ==> !before.dom().contains(xo) && mid == before.insert(xo, mid[xo]) && mid[xo] is Dictionary
            && mid[xo]->Dictionary_0@ == xobject_entries(before, res),
        keys_distinct(resolve_dict(mid, xo).unwrap()),
        keys_distinct(resolve_dict(mid2, res).unwrap()),
        entry_set(mid, mid2, xo, image_entry_key(pad, index), PdfObject::Reference(image.0, image.1)),
        entry_set(mid2, after, res, xobject_key(), PdfObject::Reference(xo.0, xo.1)),
    ensures
        image_entry_written(before, after, pad, index, image),
        xobject_refs_kept(before, after),
        forall|k: Seq<u8>|
            k != xobject_key() ==> #[trigger] dict_get(xobject_entries(after, res), k) == if k
                == image_entry_key(pad, index) {
                Some(PdfObject::Reference(image.0, image.1))
            } else {
                dict_get(xobject_entries(before, res), k)
            },
{
    let im = PdfObject::Reference(image.0, image.1);
    let xr = PdfObject::Reference(xo.0, xo.1);
    let name = image_entry_key(pad, index);
    crate::object::lemma_follow_result(before, res, 0);
    let tr = resolve(before, res).unwrap().0;
    if mid != before {
        crate::object::lemma_follow_insert_fresh(before, res, 0, xo, mid[xo]);
    }
    assert(resolve(mid, res) == resolve(before, res));
    crate::object::lemma_follow_result(mid, xo, 0);
    let tx = resolve(mid, xo).unwrap().0;
    let e1 = mid2[tx]->Dictionary_0;
    crate::object::lemma_set_entry_get(e1@, resolve_dict(mid, xo).unwrap(), name, im);
    crate::object::lemma_follow_result(mid, res, 0);
    if tx == tr {
        crate::object::lemma_follow_stable(mid, mid2, res, 0, tx);
    } else {
        crate::object::lemma_follow_unchanged(mid, mid2, res, 0, tx);
    }
    assert(resolve(mid2, res).unwrap().0 == tr);
    crate::object::lemma_follow_result(mid2, res, 0);
    let e2 = after[tr]->Dictionary_0;
    crate::object::lemma_set_entry_get(e2@, resolve_dict(mid2, res).unwrap(), xobject_key(), xr);
    assert forall|id: ObjectId, p: nat, j: nat|
        before.dom().contains(id) && before[id] is Dictionary implies {
            ||| #[trigger] dict_get(after[id]->Dictionary_0@, image_entry_key(p, j)) == dict_get(
                before[id]->Dictionary_0@,
                image_entry_key(p, j),
            )
            ||| p == pad && j == index && dict_get(after[id]->Dictionary_0@, image_entry_key(p, j))
                == Some(im)
        } by {
        let k = image_entry_key(p, j);
        lemma_image_keys(p, j, j);
        assert(mid[id] == before[id]);
        if image_entry_key(p, j) == name {
            lemma_image_key_injective(p, j, pad, index);
        }
        if id == tr {
            assert(dict_get(e2@, k) == dict_get(mid2[tr]->Dictionary_0@, k));
        }
        if id == tx {
            assert(dict_get(mid2[tx]->Dictionary_0@, k) == dict_get(e1@, k));
        }
    }
    assert forall|id: ObjectId|
        before.dom().contains(id) && before[id] is Dictionary && (dict_get(
            before[id]->Dictionary_0@,
            xobject_key(),
        ) matches Some(PdfObject::Reference(_, _))) implies dict_get(
        (#[trigger] after[id])->Dictionary_0@,
        xobject_key(),
    ) == dict_get(before[id]->Dictionary_0@, xobject_key()) by {
        lemma_image_keys(pad, index, index);
        assert(mid[id] == before[id]);
        if id == tx {
            assert(dict_get(mid2[tx]->Dictionary_0@, xobject_key()) == dict_get(e1@, xobject_key()));
        }
        if id == tr {
            assert(before[tr]->Dictionary_0@ == resolve_dict(before, res).unwrap());
        }
    }
    // The XObject dictionary, as `after` reaches it from the resources.
    crate::object::lemma_resolve_after_set(mid, mid2, xo, name, im);
    crate::object::lemma_resolve_after_set(mid2, after, res, xobject_key(), xr);
    assert(dict_get(resolve_dict(after, res).unwrap(), xobject_key()) == Some(xr));
    if tx == tr {
        crate::object::lemma_follow_stable(mid2, after, xo, 0, tr);
    } else {
        crate::object::lemma_follow_unchanged(mid2, after, xo, 0, tr);
    }
    assert(resolve_dict(after, xo) == Some(after[tx]->Dictionary_0@));
    assert(resolve_dict(mid, xo).unwrap() == xobject_entries(before, res));
    assert forall|k: Seq<u8>| k != xobject_key() implies #[trigger] dict_get(xobject_entries(after, res), k)
        == if k == name {
        Some(im)
    } else {
        dict_get(xobject_entries(before, res), k)
    } by {
        assert(xobject_entries(after, res) == after[tx]->Dictionary_0@);
        if tx == tr {
            assert(resolve_dict(mid2, res).unwrap() == e1@);
            assert(dict_get(e2@, k) == dict_get(e1@, k));
        } else {
            assert(after[tx] == mid2[tx]);
        }
    }
}

/// Lists the image under its name (`pad_len` underscores, `Im` and the index) in
/// the XObject dictionary of the resources `res`, making that dictionary an
/// object of its own if it is not one yet. An error is lopdf's text, or says that
/// the resources are not a dictionary.
pub fn attach_image(
    doc: &mut lopdf::Document,
    res: ObjectId,
    pad_len: usize,
    index: usize,
    image: ObjectId,
) -> (r: Result<(), String>)
    ensures
        document_trailer(*final(doc)) == document_trailer(*old(doc)),
        r is Ok ==> attached(
            document_objects(*old(doc)),
            document_objects(*final(doc)),
            res,
            pad_len as nat,
            index as nat,
            image,
        ),
        r matches Err(text) ==> text@ == "resources not a dictionary"@ || lopdf_error_text(text),
        resolve(document_objects(*old(doc)), res) is None ==> r is Err,
        (resolve(document_objects(*old(doc)), res) matches Some((_, o)) && !(o is Dictionary)) ==> (
        r matches Err(text) && text@ == "resources not a dictionary"@),
        resolve(document_objects(*old(doc)), res) matches Some((_, PdfObject::Dictionary(d))) ==> (
        dict_get(d@, xobject_key()) matches Some(PdfObject::Reference(n, g)) ==> (resolve_dict(
            document_objects(*old(doc)),
            (n, g),
        ) is Some ==> r is Ok)),
        resolve(document_objects(*old(doc)), res) matches Some((_, PdfObject::Dictionary(d))) ==> (
        !(dict_get(d@, xobject_key()) matches Some(PdfObject::Reference(_, _))) ==> (next_id_free(
            document_objects(*old(doc)),
            document_max_id(*old(doc)),
        ) ==> r is Ok)),
        document_max_id(*final(doc)) == document_max_id(*old(doc)) || document_max_id(*final(doc))
            == document_max_id(*old(doc)) + 1,
        resolve(document_objects(*old(doc)), res) matches Some((_, PdfObject::Dictionary(d))) ==> (
        dict_get(d@, xobject_key()) matches Some(PdfObject::Reference(_, _)) ==> document_max_id(
            *final(doc),
        ) == document_max_id(*old(doc))),
        ids_at_most(document_objects(*old(doc)), document_max_id(*old(doc))) ==> {
            &&& ids_at_most(document_objects(*final(doc)), document_max_id(*final(doc)))
            &&& kept_except(
                document_objects(*old(doc)),
                document_objects(*final(doc)),
                attach_writes(pad_len as nat, index as nat, resolve(document_objects(*old(doc)), res).unwrap().0),
            )
        },
        r is Ok && ids_at_most(document_objects(*old(doc)), document_max_id(*old(doc))) ==> xobjects_sound(
            document_objects(*old(doc)),
            document_objects(*final(doc)),
        ),
        r is Ok && ids_at_most(document_objects(*old(doc)), document_max_id(*old(doc))) ==> {
            &&& image_entry_written(
                document_objects(*old(doc)),
                document_objects(*final(doc)),
                pad_len as nat,
                index as nat,
                image,
            )
            &&& xobject_refs_kept(document_objects(*old(doc)), document_objects(*final(doc)))
            &&& forall|k: Seq<u8>|
                k != xobject_key() ==> #[trigger] dict_get(xobject_entries(document_objects(*final(doc)), res), k)
                    == if k == image_entry_key(pad_len as nat, index as nat) {
                    Some(PdfObject::Reference(image.0, image.1))
                } else {
                    dict_get(xobject_entries(document_objects(*old(doc)), res), k)
                }
        },
{
    let ghost before = document_objects(*doc);
    let ghost max0 = document_max_id(*doc);
    let ghost pad = pad_len as nat;
    let ghost aw = attach_writes(pad, index as nat, resolve(before, res).unwrap().0);
    let resources = match object_at(doc, res) {
        Ok(o) => o,
        Err(e) => return Err(err(e)),
    };
    let entries = match resources {
        PdfObject::Dictionary(d) => d,
        _ => return Err("resources not a dictionary".to_owned()),
    };
    let ghost res_entries = entries@;
    let key = xobject_name();
    let found = take_entry(entries, key.as_slice());
    proof {
        if found is Some {
            lemma_dict_get_wf(res_entries, xobject_key());
        }
    }
    let xo = match found {
        Some(PdfObject::Reference(n, g)) => (n, g),
        Some(PdfObject::Dictionary(d)) => {
            let moved = PdfObject::Dictionary(d);
            let ghost moved_view = moved;
            let id = match add_object(doc, moved) {
                Ok(id) => id,
                Err(e) => return Err(err(e)),
            };
            proof {
                assert(document_objects(*doc) == before.insert(id, moved_view));
                assert(follow(document_objects(*doc), id, moved_view, 0) == Some((id, moved_view)));
                if ids_at_most(before, max0) {
                    assert(!before.dom().contains(id));
                    lemma_ids_after_add(before, max0, moved_view);
                    lemma_except_insert(before, id, moved_view, aw);
                }
            }
            id
        },
        _ => {
            let empty = PdfObject::Dictionary(Vec::new());
            let ghost empty_view = empty;
            let id = match add_object(doc, empty) {
                Ok(id) => id,
                Err(e) => return Err(err(e)),
            };
            proof {
                assert(is_empty_dict(empty_view));
                assert(document_objects(*doc) == before.insert(id, empty_view));
                assert(follow(document_objects(*doc), id, empty_view, 0) == Some((id, empty_view)));
                if ids_at_most(before, max0) {
                    assert(!before.dom().contains(id));
                    lemma_ids_after_add(before, max0, empty_view);
                    lemma_except_insert(before, id, empty_view, aw);
                }
            }
            id
        },
    };
    let ghost mid = document_objects(*doc);
    proof {
        assert(xobjects_ready(before, res_entries, xo, mid));
    }
    match dictionary_at(doc, xo) {
        Ok(e) => {
            proof {
                assert(keys_distinct(resolve_dict(mid, xo).unwrap()));
            }
        },
        Err(e) => return Err(err(e)),
    }
    set_entry(doc, xo, image_entry_name(pad_len, index), PdfObject::Reference(image.0, image.1));
    let ghost mid2 = document_objects(*doc);
    proof {
        if ids_at_most(before, max0) {
            lemma_except_set(mid, mid2, xo, image_entry_key(pad, index as nat), PdfObject::Reference(image.0, image.1));
            lemma_except_weaken(
                mid,
                mid2,
                set![(resolve(mid, xo).unwrap().0, image_entry_key(pad, index as nat))],
                aw,
            );
            lemma_except_trans(before, mid, mid2, aw, aw);
            assert(aw.union(aw) =~= aw);
        }
        // The resources are still found where they were.
        crate::object::lemma_follow_result(before, res, 0);
        let t_res = resolve(before, res).unwrap().0;
        if mid != before && !before.dom().contains(xo) {
            crate::object::lemma_follow_insert_fresh(before, res, 0, xo, mid[xo]);
        }
        if resolve(mid, res) == resolve(before, res) {
            crate::object::lemma_follow_result(mid, xo, 0);
            let t_xo = resolve(mid, xo).unwrap().0;
            if t_xo == t_res {
                crate::object::lemma_follow_stable(mid, mid2, res, 0, t_xo);
            } else {
                crate::object::lemma_follow_unchanged(mid, mid2, res, 0, t_xo);
            }
        }
    }
    match dictionary_at(doc, res) {
        Ok(e) => {
            proof {
                assert(keys_distinct(resolve_dict(mid2, res).unwrap()));
            }
        },
        Err(e) => return Err(err(e)),
    }
    set_entry(doc, res, xobject_name(), PdfObject::Reference(xo.0, xo.1));
    proof {
        if ids_at_most(before, max0) {
            lemma_except_set(mid2, document_objects(*doc), res, xobject_key(), PdfObject::Reference(xo.0, xo.1));
            lemma_except_weaken(
                mid2,
                document_objects(*doc),
                set![(resolve(mid2, res).unwrap().0, xobject_key())],
                aw,
            );
            lemma_except_trans(before, mid2, document_objects(*doc), aw, aw);
        }
        assert(entry_set(
            mid,
            mid2,
            xo,
            image_entry_key(pad, index as nat),
            PdfObject::Reference(image.0, image.1),
        ));
    }
    proof {
        if ids_at_most(before, max0) {
            lemma_attach_sound(before, document_objects(*doc), res, pad, index as nat, image);
            assert(res_entries == resolve_dict(before, res).unwrap());
            lemma_attach_entries(before, mid, mid2, document_objects(*doc), res, xo, pad, index as nat, image);
        }
    }
    Ok(())
}

/// The content streams a page lists: its `Contents` reference, or the items of
/// its `Contents` array, or none.
pub open spec fn contents_list(d: Seq<(Vec<u8>, PdfObject)>) -> Seq<PdfObject> {
    match dict_get(d, contents_key()) {
        Some(PdfObject::Reference(n, g)) => seq![PdfObject::Reference(n, g)],
        Some(PdfObject::Array(a)) => a@,
        _ => seq![],
    }
}

/// A content stream as `Stream::new` makes it from an empty dictionary and the
/// bytes.
pub open spec fn content_stream(s: PdfObject, content: Seq<u8>) -> bool {
    s matches PdfObject::Stream(st) && {
        &&& st.content@ == content
        &&& set_entry_of(
            st.dict@,
            Seq::empty(),
            length_key(),
            PdfObject::Integer(content.len() as i64),
        )
    }
}

/// What `append_page_content` did: stored a new stream `n` over the content and
/// set the page's `Contents` to the streams it listed, followed by `n`.
pub open spec fn appended(
    before: Map<ObjectId, PdfObject>,
    after: Map<ObjectId, PdfObject>,
    page: ObjectId,
    content: Seq<u8>,
) -> bool {
    &&& resolve_dict(before, page) is Some
    &&& exists|n: ObjectId, s: PdfObject, list: PdfObject|
        #![trigger entry_set(before.insert(n, s), after, page, contents_key(), list)]
        {
            &&& content_stream(s, content)
            &&& list matches PdfObject::Array(l) && l@ == contents_list(
                resolve_dict(before, page).unwrap(),
            ).push(PdfObject::Reference(n.0, n.1))
            &&& keys_distinct(resolve_dict(before.insert(n, s), page).unwrap())
            &&& entry_set(before.insert(n, s), after, page, contents_key(), list)
        }
}

/// `Document::add_page_contents`: reads the page's `Contents` (a reference, an
/// array, or nothing), stores a stream over the content (`Stream::new` with an
/// empty dictionary) under the next object number, and sets the page's `Contents`
/// to the streams it listed followed by the new one. It fails, changing nothing,
/// where the page is no dictionary; it fails after storing the stream where the
/// page no longer resolves to a dictionary then. Object numbers must be left:
/// lopdf's `add_object` panics where they are used up.
#[verifier::external_body]
fn add_page_contents(doc: &mut lopdf::Document, page_id: ObjectId, content: Vec<u8>) -> (r: Result<
    (),
    lopdf::Error,
>)
    requires
        document_max_id(*old(doc)) < u32::MAX,
    ensures
        document_trailer(*final(doc)) == document_trailer(*old(doc)),
        match resolve_dict(document_objects(*old(doc)), page_id) {
            None => {
                &&& r is Err
                &&& document_objects(*final(doc)) == document_objects(*old(doc))
                &&& document_max_id(*final(doc)) == document_max_id(*old(doc))
            },
            Some(d) => {
                let id = next_object_id(document_max_id(*old(doc)));
                &&& document_max_id(*final(doc)) == document_max_id(*old(doc)) + 1
                &&& exists|s: PdfObject, list: PdfObject|
                    #![trigger content_stream(s, content@), list_of(list)]
                    {
                        let mid = document_objects(*old(doc)).insert(id, s);
                        &&& content_stream(s, content@)
                        &&& s.wf()
                        &&& list_of(list) == contents_list(d).push(PdfObject::Reference(id.0, id.1))
                        &&& match resolve_dict(mid, page_id) {
                            Some(p) => {
                                &&& r is Ok
                                &&& keys_distinct(p)
                                &&& entry_set(mid, document_objects(*final(doc)), page_id, contents_key(), list)
                            },
                            None => r is Err && document_objects(*final(doc)) == mid,
                        }
                    }
            },
        },
{
    doc.add_page_contents(page_id, content)
}

/// The items of an array (none for anything else).
pub open spec fn list_of(o: PdfObject) -> Seq<PdfObject> {
    match o {
        PdfObject::Array(a) => a@,
        _ => Seq::empty(),
    }
}

/// Adds the content as a new stream at the end of the page's content streams,
/// with `Document::add_page_contents`; where the object numbers are used up, it
/// fails with lopdf's error for that instead.
pub fn append_page_content(doc: &mut lopdf::Document, page_id: ObjectId, content: Vec<u8>) -> (r:
    Result<(), String>)
    ensures
        document_trailer(*final(doc)) == document_trailer(*old(doc)),
        r matches Err(text) ==> lopdf_error_text(text),
        resolve_dict(document_objects(*old(doc)), page_id) is None ==> r is Err,
        r is Ok ==> appended(
            document_objects(*old(doc)),
            document_objects(*final(doc)),
            page_id,
            content@,
        ),
        resolve_dict(document_objects(*old(doc)), page_id) is Some && next_id_free(
            document_objects(*old(doc)),
            document_max_id(*old(doc)),
        ) ==> r is Ok,
        document_max_id(*final(doc)) == document_max_id(*old(doc)) || document_max_id(*final(doc))
            == document_max_id(*old(doc)) + 1,
        ids_at_most(document_objects(*old(doc)), document_max_id(*old(doc))) ==> {
            &&& ids_at_most(document_objects(*final(doc)), document_max_id(*final(doc)))
            &&& kept_except(
                document_objects(*old(doc)),
                document_objects(*final(doc)),
                set![(resolve(document_objects(*old(doc)), page_id).unwrap().0, contents_key())],
            )
        },
{
    let ghost before = document_objects(*doc);
    let ghost max0 = document_max_id(*doc);
    let ghost writes = set![(resolve(before, page_id).unwrap().0, contents_key())];
    match dictionary_at(doc, page_id) {
        Ok(_) => {},
        Err(e) => return Err(err(e)),
    }
    if max_id(doc) == u32::MAX {
        return Err(err(id_overflow()));
    }
    let ghost content_view = content@;
    let added = add_page_contents(doc, page_id, content);
    proof {
        let d = resolve_dict(before, page_id).unwrap();
        let id = next_object_id(max0);
        let (s, list) = choose|s: PdfObject, list: PdfObject|
            #![trigger content_stream(s, content_view), list_of(list)]
            {
                let mid = before.insert(id, s);
                &&& content_stream(s, content_view)
                &&& s.wf()
                &&& list_of(list) == contents_list(d).push(PdfObject::Reference(id.0, id.1))
                &&& match resolve_dict(mid, page_id) {
                    Some(p) => {
                        &&& added is Ok
                        &&& keys_distinct(p)
                        &&& entry_set(mid, document_objects(*doc), page_id, contents_key(), list)
                    },
                    None => added is Err && document_objects(*doc) == mid,
                }
            };
        let mid = before.insert(id, s);
        if !before.dom().contains(id) {
            crate::object::lemma_follow_insert_fresh(before, page_id, 0, id, s);
        }
        if added is Ok {
            assert(list matches PdfObject::Array(l) && l@ == contents_list(d).push(
                PdfObject::Reference(id.0, id.1),
            )) by {
                if !(list is Array) {
                    assert(list_of(list).len() == 0);
                }
            }
            assert(appended(before, document_objects(*doc), page_id, content_view));
        }
        if ids_at_most(before, max0) {
            lemma_ids_after_add(before, max0, s);
            lemma_except_insert(before, id, s, writes);
            if added is Ok {
                assert(resolve(mid, page_id) == resolve(before, page_id));
                lemma_except_set(mid, document_objects(*doc), page_id, contents_key(), list);
                lemma_except_trans(before, mid, document_objects(*doc), writes, writes);
                assert(writes.union(writes) =~= writes);
            }
        }
    }
    match added {
        Ok(()) => Ok(()),
        Err(e) => Err(err(e)),
    }
}

/// The page's content streams end with a stream holding exactly `content`: the
/// last item of its `Contents` array refers to such a stream.
pub open spec fn ends_with_ops(objects: Map<ObjectId, PdfObject>, page: ObjectId, content: Seq<u8>) -> bool {
    exists|n: ObjectId|
        #![trigger objects[n]]
        {
            &&& objects.dom().contains(n)
            &&& content_stream(objects[n], content)
            &&& resolve_dict(objects, page) matches Some(d) && dict_get(d, contents_key()) matches Some(
                PdfObject::Array(l),
            ) && l@.len() > 0 && l@.last() == PdfObject::Reference(n.0, n.1)
        }
}

/// After `append_page_content`, the page's content streams end with a stream
/// holding exactly the appended bytes.
pub proof fn lemma_appended_content(
    before: Map<ObjectId, PdfObject>,
    after: Map<ObjectId, PdfObject>,
    page: ObjectId,
    content: Seq<u8>,
)
    requires
        appended(before, after, page, content),
    ensures
        ends_with_ops(after, page, content),
{
    let (n, s, list) = choose|n: ObjectId, s: PdfObject, list: PdfObject|
        #![trigger entry_set(before.insert(n, s), after, page, contents_key(), list)]
        {
            &&& content_stream(s, content)
            &&& list matches PdfObject::Array(l) && l@ == contents_list(
                resolve_dict(before, page).unwrap(),
            ).push(PdfObject::Reference(n.0, n.1))
            &&& keys_distinct(resolve_dict(before.insert(n, s), page).unwrap())
            &&& entry_set(before.insert(n, s), after, page, contents_key(), list)
        };
    let mid = before.insert(n, s);
    let t = resolve(mid, page).unwrap().0;
    lemma_resolve_after_set(mid, after, page, contents_key(), list);
    let old_page = resolve_dict(mid, page).unwrap();
    let (_, page_obj) = resolve(mid, page).unwrap();
    crate::object::lemma_follow_result(mid, page, 0);
    assert(t != n);
    assert(after[n] == s);
    let e = after[t];
    if let PdfObject::Dictionary(entries) = e {
        crate::object::lemma_set_entry_get(entries@, old_page, contents_key(), list);
    }
}

/// The steps of stamping a page, through the object maps `states`: the page's
/// resources `res` made ready (where there is an image at all), each image
/// attached to them in turn under its name padded by `pad`, none of which names
/// their XObject dictionary used, then the operators that draw the images at
/// their placements appended to the page.
pub open spec fn stamp_steps(
    before: Map<ObjectId, PdfObject>,
    after: Map<ObjectId, PdfObject>,
    page: ObjectId,
    images: Seq<ObjectId>,
    placements: Seq<Seq<u8>>,
    res: ObjectId,
    states: Seq<Map<ObjectId, PdfObject>>,
    pad: nat,
) -> bool {
    &&& states.len() == images.len() + 1
    &&& if images.len() == 0 {
        states[0] == before
    } else {
        &&& resources_ready(before, states[0], page, res)
        &&& names_fresh(xobject_entries(states[0], res), pad)
    }
    &&& forall|i: int|
        0 <= i < images.len() ==> #[trigger] attached(
            states[i],
            states[i + 1],
            res,
            pad,
            i as nat,
            images[i],
        )
    &&& appended(states[images.len() as int], after, page, draw_ops(placements, pad))
}

/// The page was stamped with the images at the placements.
pub open spec fn stamped(
    before: Map<ObjectId, PdfObject>,
    after: Map<ObjectId, PdfObject>,
    page: ObjectId,
    images: Seq<ObjectId>,
    placements: Seq<Seq<u8>>,
) -> bool {
    exists|res: ObjectId, states: Seq<Map<ObjectId, PdfObject>>, pad: nat|
        #![trigger stamp_steps(before, after, page, images, placements, res, states, pad)]
        stamp_steps(before, after, page, images, placements, res, states, pad)
}

/// The `XObject` entry of the resources `r` can take the images: where it refers
/// to an object, that object is a dictionary.
pub open spec fn xobjects_usable(objects: Map<ObjectId, PdfObject>, r: Seq<(Vec<u8>, PdfObject)>) -> bool {
    dict_get(r, xobject_key()) matches Some(PdfObject::Reference(n, g)) ==> resolve_dict(objects, (n, g)) is Some
}

/// The page has resources of its own: its `Resources` entry refers to an object
/// or is a dictionary written into it.
pub open spec fn has_own_resources(d: Seq<(Vec<u8>, PdfObject)>) -> bool {
    match dict_get(d, resources_key()) {
        Some(PdfObject::Reference(_, _)) => true,
        Some(PdfObject::Dictionary(_)) => true,
        _ => false,
    }
}

/// The search for inherited `Resources` from the node `id` meets only nodes
/// that are dictionaries, through `levels` nodes or until one has a `Resources`
/// entry or no parent that it refers to.
pub open spec fn resources_chain_ok(objects: Map<ObjectId, PdfObject>, id: ObjectId, levels: nat) -> bool
    decreases levels,
{
    if levels == 0 {
        true
    } else {
        match resolve_dict(objects, id) {
            None => false,
            Some(d) => match dict_get(d, resources_key()) {
                Some(_) => true,
                None => match reference_of(dict_get(d, parent_key())) {
                    Some(parent) => resources_chain_ok(objects, parent, (levels - 1) as nat),
                    None => true,
                },
            },
        }
    }
}

/// A `Resources` value that can take the images: a dictionary written into the
/// entry, or one that the entry refers to, whose `XObject` entry is usable.
pub open spec fn resources_value_ok(objects: Map<ObjectId, PdfObject>, v: Option<PdfObject>) -> bool {
    match v {
        Some(PdfObject::Dictionary(e)) => xobjects_usable(objects, e@),
        Some(PdfObject::Reference(n, g)) => match resolve_dict(objects, (n, g)) {
            Some(r) => xobjects_usable(objects, r),
            None => false,
        },
        _ => true,
    }
}

/// The resources that the page with the entries `d` inherits are found through
/// dictionaries only and can take the images.
pub open spec fn inheritance_ok(objects: Map<ObjectId, PdfObject>, d: Seq<(Vec<u8>, PdfObject)>) -> bool {
    match reference_of(dict_get(d, parent_key())) {
        Some(parent) => resources_chain_ok(objects, parent, resources_search_levels())
            && resources_value_ok(
            objects,
            inherited_entry(objects, parent, resources_search_levels(), resources_key()),
        ),
        None => true,
    }
}

/// The page can be stamped: it is a dictionary, and, where there are images, its
/// resources are a dictionary whose `XObject` entry can take them; where it has
/// no resources of its own, those it inherits are found through dictionaries.
pub open spec fn page_stampable(objects: Map<ObjectId, PdfObject>, page: ObjectId, with_images: bool) -> bool {
    resolve_dict(objects, page) matches Some(d) && (with_images ==> (page_resources(objects, d) matches Some(r)
        && xobjects_usable(objects, r) && (!has_own_resources(d) ==> inheritance_ok(objects, d))))
}

/// Stamping another page keeps the inherited resources found from `id` usable:
/// each node on the way keeps its `Parent` and, but for the stamped page's own
/// dictionary (whose `Resources` now refer to resources listing the images), its
/// `Resources`; resources referred to stay dictionaries and their `XObject` entry
/// either stays or refers to a dictionary.
proof fn lemma_chain_kept(
    before: Map<ObjectId, PdfObject>,
    after: Map<ObjectId, PdfObject>,
    stamped_page: ObjectId,
    images: Seq<ObjectId>,
    id: ObjectId,
    levels: nat,
)
    requires
        images.len() > 0,
        resolve_dict(before, stamped_page) is Some,
        kept_except(before, after, stamp_writes(page_target(before, stamped_page))),
        xobjects_sound(before, after),
        images_listed(after, stamped_page, images),
        resources_chain_ok(before, id, levels),
        resources_value_ok(before, inherited_entry(before, id, levels, resources_key())),
    ensures
        resources_chain_ok(after, id, levels),
        resources_value_ok(after, inherited_entry(after, id, levels, resources_key())),
    decreases levels,
{
    if levels > 0 {
        let tq = page_target(before, stamped_page);
        let w = stamp_writes(tq);
        let d = resolve_dict(before, id).unwrap();
        let tx = page_target(before, id);
        lemma_except_resolve(before, after, w, id);
        lemma_except_resolve(before, after, w, stamped_page);
        crate::object::lemma_follow_result(before, id, 0);
        crate::object::lemma_follow_result(after, id, 0);
        crate::object::lemma_follow_result(after, stamped_page, 0);
        let d2 = resolve_dict(after, id).unwrap();
        assert(parent_key() != resources_key() && parent_key() != contents_key()
            && parent_key() != xobject_key());
        if is_image_key(parent_key()) {
            let (kp, k) = choose|kp: nat, k: nat| parent_key() == #[trigger] image_entry_key(kp, k);
            lemma_image_keys(kp, k, k);
        }
        assert(!w.contains((tx, parent_key())));
        lemma_except_get(before, after, w, id, parent_key());
        if tx == tq {
            let (res, pad) = choose|res: ObjectId, pad: nat|
                #![trigger lists_images(after, res, pad, images, images.len() as int)]
                {
                    &&& resolve_dict(after, stamped_page) matches Some(p) && dict_get(p, resources_key())
                        == Some(PdfObject::Reference(res.0, res.1))
                    &&& lists_images(after, res, pad, images, images.len() as int)
                };
            assert(d2 == resolve_dict(after, stamped_page).unwrap());
            let xo = choose|xo: ObjectId|
                #![trigger resolve_dict(after, xo)]
                {
                    &&& resolve_dict(after, res) matches Some(r) && dict_get(r, xobject_key()) == Some(
                        PdfObject::Reference(xo.0, xo.1),
                    )
                    &&& resolve_dict(after, xo) matches Some(x) && forall|j: int|
                        0 <= j < images.len() ==> dict_get(x, #[trigger] image_entry_key(pad, j as nat))
                            == Some(PdfObject::Reference(images[j].0, images[j].1))
                };
            assert(resolve_dict(after, (xo.0, xo.1)) is Some);
        } else {
            if is_image_key(resources_key()) {
                let (kp, k) = choose|kp: nat, k: nat| resources_key() == #[trigger] image_entry_key(kp, k);
                lemma_image_keys(kp, k, k);
            }
            assert(resources_key() != contents_key());
            assert(resources_key() != xobject_key());
            assert(!w.contains((tx, resources_key())));
            lemma_except_get(before, after, w, id, resources_key());
            match dict_get(d, resources_key()) {
                Some(PdfObject::Reference(n, g)) => {
                    let r = resolve_dict(before, (n, g)).unwrap();
                    lemma_except_resolve(before, after, w, (n, g));
                    crate::object::lemma_follow_result(before, (n, g), 0);
                    crate::object::lemma_follow_result(after, (n, g), 0);
                    let tr = page_target(before, (n, g));
                    assert(before[tr]->Dictionary_0@ == r);
                    let r2 = resolve_dict(after, (n, g)).unwrap();
                    assert(after[tr]->Dictionary_0@ == r2);
                    if let Some(PdfObject::Reference(m, h)) = dict_get(r2, xobject_key()) {
                        if dict_get(r2, xobject_key()) == dict_get(r, xobject_key()) {
                            lemma_except_resolve(before, after, w, (m, h));
                        }
                    }
                },
                Some(PdfObject::Dictionary(e)) => {
                    if let Some(PdfObject::Reference(m, h)) = dict_get(e@, xobject_key()) {
                        lemma_except_resolve(before, after, w, (m, h));
                    }
                },
                Some(_) => {},
                None => {
                    if let Some(parent) = reference_of(dict_get(d, parent_key())) {
                        lemma_chain_kept(before, after, stamped_page, images, parent, (levels - 1) as nat);
                    }
                },
            }
        }
    }
}

/// The key names an image: underscores, `Im` and a number.
pub open spec fn is_image_key(k: Seq<u8>) -> bool {
    exists|pad: nat, i: nat| k == #[trigger] image_entry_key(pad, i)
}

/// The entries that stamping the page stored under `t` may write: that page's
/// `Resources` and `Contents` entries, and the `XObject` and image entries of any
/// dictionary.
pub open spec fn stamp_writes(t: ObjectId) -> Set<(ObjectId, Seq<u8>)> {
    Set::new(
        |w: (ObjectId, Seq<u8>)|
            w == (t, resources_key()) || w == (t, contents_key()) || w.1 == xobject_key() || is_image_key(
                w.1,
            ),
    )
}

/// The resources `res` have an `XObject` entry that refers to a dictionary listing
/// the first `count` images, each under its name padded by `pad`.
pub open spec fn lists_images(
    objects: Map<ObjectId, PdfObject>,
    res: ObjectId,
    pad: nat,
    images: Seq<ObjectId>,
    count: int,
) -> bool {
    exists|xo: ObjectId|
        #![trigger resolve_dict(objects, xo)]
        {
            &&& resolve_dict(objects, res) matches Some(r) && dict_get(r, xobject_key()) == Some(
                PdfObject::Reference(xo.0, xo.1),
            )
            &&& resolve_dict(objects, xo) matches Some(x) && forall|j: int|
                0 <= j < count ==> dict_get(x, #[trigger] image_entry_key(pad, j as nat)) == Some(
                    PdfObject::Reference(images[j].0, images[j].1),
                )
        }
}

/// The page's resources list all the images (where there is any): its `Resources`
/// entry refers to resources whose `XObject` dictionary lists each image under
/// its name, with some padding.
pub open spec fn images_listed(
    objects: Map<ObjectId, PdfObject>,
    page: ObjectId,
    images: Seq<ObjectId>,
) -> bool {
    images.len() > 0 ==> exists|res: ObjectId, pad: nat|
        #![trigger lists_images(objects, res, pad, images, images.len() as int)]
        {
            &&& resolve_dict(objects, page) matches Some(p) && dict_get(p, resources_key()) == Some(
                PdfObject::Reference(res.0, res.1),
            )
            &&& lists_images(objects, res, pad, images, images.len() as int)
        }
}

/// A listing of the images stays where neither the resources' `XObject` entry nor
/// an image entry was written.
proof fn lemma_lists_images_kept(
    before: Map<ObjectId, PdfObject>,
    after: Map<ObjectId, PdfObject>,
    writes: Set<(ObjectId, Seq<u8>)>,
    res: ObjectId,
    pad: nat,
    images: Seq<ObjectId>,
    count: int,
)
    requires
        lists_images(before, res, pad, images, count),
        kept_except(before, after, writes),
        forall|w: (ObjectId, Seq<u8>)| #[trigger] writes.contains(w) ==> w.1 != xobject_key() && !is_image_key(w.1),
    ensures
        lists_images(after, res, pad, images, count),
{
    let xo = choose|xo: ObjectId|
        #![trigger resolve_dict(before, xo)]
        {
            &&& resolve_dict(before, res) matches Some(r) && dict_get(r, xobject_key()) == Some(
                PdfObject::Reference(xo.0, xo.1),
            )
            &&& resolve_dict(before, xo) matches Some(x) && forall|j: int|
                0 <= j < count ==> dict_get(x, #[trigger] image_entry_key(pad, j as nat)) == Some(
                    PdfObject::Reference(images[j].0, images[j].1),
                )
        };
    lemma_except_get(before, after, writes, res, xobject_key());
    assert forall|j: int| 0 <= j < count implies dict_get(
        resolve_dict(after, xo).unwrap(),
        #[trigger] image_entry_key(pad, j as nat),
    ) == Some(PdfObject::Reference(images[j].0, images[j].1)) by {
        assert(!writes.contains((resolve(before, xo).unwrap().0, image_entry_key(pad, j as nat))));
        lemma_except_get(before, after, writes, xo, image_entry_key(pad, j as nat));
    }
    lemma_except_get(before, after, writes, xo, xobject_key());
    assert(resolve_dict(after, xo) is Some);
}

/// An error that stamping a page reports: lopdf's text, or that the page or its
/// resources are not a dictionary.
pub open spec fn stamping_error(text: String) -> bool {
    ||| text@ == "page not a dictionary"@
    ||| text@ == "resources not a dictionary"@
    ||| lopdf_error_text(text)
}

/// Every entry under an image's name in a dictionary stored in `before` either
/// kept its value in `after` or refers to the image of the entry's index.
pub open spec fn image_entries_consistent(
    before: Map<ObjectId, PdfObject>,
    after: Map<ObjectId, PdfObject>,
    images: Seq<ObjectId>,
) -> bool {
    forall|id: ObjectId, p: nat, j: nat|
        #![trigger dict_get(after[id]->Dictionary_0@, image_entry_key(p, j))]
        before.dom().contains(id) && before[id] is Dictionary ==> {
            ||| dict_get(after[id]->Dictionary_0@, image_entry_key(p, j)) == dict_get(
                before[id]->Dictionary_0@,
                image_entry_key(p, j),
            )
            ||| j < images.len() && dict_get(after[id]->Dictionary_0@, image_entry_key(p, j)) == Some(
                PdfObject::Reference(images[j as int].0, images[j as int].1),
            )
        }
}

/// An image entry written for the index of one of the images refers to that
/// image.
proof fn lemma_written_consistent(
    before: Map<ObjectId, PdfObject>,
    after: Map<ObjectId, PdfObject>,
    pad: nat,
    index: nat,
    images: Seq<ObjectId>,
)
    requires
        index < images.len(),
        image_entry_written(before, after, pad, index, images[index as int]),
    ensures
        image_entries_consistent(before, after, images),
{
}

/// Where no `XObject` entry and no image entry was written, both kinds of entry
/// keep their values.
proof fn lemma_entries_from_kept(
    before: Map<ObjectId, PdfObject>,
    after: Map<ObjectId, PdfObject>,
    writes: Set<(ObjectId, Seq<u8>)>,
    images: Seq<ObjectId>,
)
    requires
        kept_except(before, after, writes),
        forall|w: (ObjectId, Seq<u8>)| #[trigger] writes.contains(w) ==> w.1 != xobject_key() && !is_image_key(w.1),
    ensures
        image_entries_consistent(before, after, images),
        xobject_refs_kept(before, after),
{
    assert forall|id: ObjectId, p: nat, j: nat| before.dom().contains(id) && before[id] is Dictionary implies {
        ||| #[trigger] dict_get(after[id]->Dictionary_0@, image_entry_key(p, j)) == dict_get(
            before[id]->Dictionary_0@,
            image_entry_key(p, j),
        )
        ||| j < images.len() && dict_get(after[id]->Dictionary_0@, image_entry_key(p, j)) == Some(
            PdfObject::Reference(images[j as int].0, images[j as int].1),
        )
    } by {
        assert(is_image_key(image_entry_key(p, j)));
        assert(!writes.contains((id, image_entry_key(p, j))));
    }
    assert forall|id: ObjectId|
        before.dom().contains(id) && before[id] is Dictionary && (dict_get(
            before[id]->Dictionary_0@,
            xobject_key(),
        ) matches Some(PdfObject::Reference(_, _))) implies dict_get(
        (#[trigger] after[id])->Dictionary_0@,
        xobject_key(),
    ) == dict_get(before[id]->Dictionary_0@, xobject_key()) by {
        assert(!writes.contains((id, xobject_key())));
    }
}

/// Both kinds of keeping carry through two changes, the first of which keeps
/// what it does not write.
proof fn lemma_entries_trans(
    a: Map<ObjectId, PdfObject>,
    b: Map<ObjectId, PdfObject>,
    c: Map<ObjectId, PdfObject>,
    writes: Set<(ObjectId, Seq<u8>)>,
    images: Seq<ObjectId>,
)
    requires
        kept_except(a, b, writes),
        image_entries_consistent(a, b, images),
        image_entries_consistent(b, c, images),
        xobject_refs_kept(a, b),
        xobject_refs_kept(b, c),
    ensures
        image_entries_consistent(a, c, images),
        xobject_refs_kept(a, c),
{
    assert forall|id: ObjectId, p: nat, j: nat| a.dom().contains(id) && a[id] is Dictionary implies {
        ||| #[trigger] dict_get(c[id]->Dictionary_0@, image_entry_key(p, j)) == dict_get(
            a[id]->Dictionary_0@,
            image_entry_key(p, j),
        )
        ||| j < images.len() && dict_get(c[id]->Dictionary_0@, image_entry_key(p, j)) == Some(
            PdfObject::Reference(images[j as int].0, images[j as int].1),
        )
    } by {
        assert(b.dom().contains(id) && b[id] is Dictionary);
        assert(dict_get(b[id]->Dictionary_0@, image_entry_key(p, j)) == dict_get(
            a[id]->Dictionary_0@,
            image_entry_key(p, j),
        ) || j < images.len() && dict_get(b[id]->Dictionary_0@, image_entry_key(p, j)) == Some(
            PdfObject::Reference(images[j as int].0, images[j as int].1),
        ));
    }
    assert forall|id: ObjectId|
        a.dom().contains(id) && a[id] is Dictionary && (dict_get(
            a[id]->Dictionary_0@,
            xobject_key(),
        ) matches Some(PdfObject::Reference(_, _))) implies dict_get(
        (#[trigger] c[id])->Dictionary_0@,
        xobject_key(),
    ) == dict_get(a[id]->Dictionary_0@, xobject_key()) by {
        assert(b.dom().contains(id) && b[id] is Dictionary);
        assert(dict_get(b[id]->Dictionary_0@, xobject_key()) == dict_get(a[id]->Dictionary_0@, xobject_key()));
    }
}

/// The XObject dictionary of a page with the entries `d`, before it is stamped:
/// that of its resources (its own, or those it inherits); none where they have
/// none.
pub open spec fn page_xobject_entries(objects: Map<ObjectId, PdfObject>, d: Seq<(Vec<u8>, PdfObject)>) -> Seq<
    (Vec<u8>, PdfObject),
> {
    match page_resources(objects, d) {
        Some(r) => match dict_get(r, xobject_key()) {
            Some(PdfObject::Reference(n, g)) => match resolve_dict(objects, (n, g)) {
                Some(x) => x,
                None => Seq::empty(),
            },
            Some(PdfObject::Dictionary(e)) => e@,
            _ => Seq::empty(),
        },
        None => Seq::empty(),
    }
}

/// The page's `Resources` refer to resources whose XObject dictionary still
/// holds every entry that the page's XObject dictionary held in `before` (but
/// under the keys `XObject`, `Resources` and `Contents`, which stamping writes).
pub open spec fn page_xobjects_kept(
    before: Map<ObjectId, PdfObject>,
    after: Map<ObjectId, PdfObject>,
    page: ObjectId,
) -> bool {
    let old_entries = page_xobject_entries(before, resolve_dict(before, page).unwrap());
    resolve_dict(after, page) matches Some(p) && dict_get(p, resources_key()) matches Some(
        PdfObject::Reference(n, g),
    ) && forall|k: Seq<u8>|
        #![trigger dict_get(xobject_entries(after, (n, g)), k)]
        k != xobject_key() && k != resources_key() && k != contents_key() && dict_get(old_entries, k) is Some
            ==> dict_get(xobject_entries(after, (n, g)), k) == dict_get(old_entries, k)
}

/// After `ensure_resources`, the XObject dictionary of the resources it yielded
/// holds what the page's XObject dictionary held, but for `Resources`.
proof fn lemma_entries_after_resources(
    before: Map<ObjectId, PdfObject>,
    after: Map<ObjectId, PdfObject>,
    page: ObjectId,
    res: ObjectId,
    pxo: Seq<(Vec<u8>, PdfObject)>,
)
    requires
        resolve_dict(before, page) is Some,
        pxo == page_xobject_entries(before, resolve_dict(before, page).unwrap()),
        kept_except(before, after, set![(resolve(before, page).unwrap().0, resources_key())]),
        resolve_dict(after, res) == page_resources(before, resolve_dict(before, page).unwrap()),
    ensures
        forall|k: Seq<u8>|
            k != xobject_key() && k != resources_key() && dict_get(pxo, k) is Some ==> #[trigger] dict_get(
                xobject_entries(after, res),
                k,
            ) == dict_get(pxo, k),
{
    let written = set![(resolve(before, page).unwrap().0, resources_key())];
    let r0 = page_resources(before, resolve_dict(before, page).unwrap());
    assert forall|k: Seq<u8>|
        k != xobject_key() && k != resources_key() && dict_get(pxo, k) is Some implies #[trigger] dict_get(
        xobject_entries(after, res),
        k,
    ) == dict_get(pxo, k) by {
        if let Some(PdfObject::Reference(n, g)) = dict_get(r0.unwrap(), xobject_key()) {
            if resolve_dict(before, (n, g)) is Some {
                assert(!written.contains((resolve(before, (n, g)).unwrap().0, k)));
                lemma_except_get(before, after, written, (n, g), k);
            }
        }
    }
}

/// Attaching an image under a name that the XObject dictionary did not hold at
/// first keeps every entry it held then.
proof fn lemma_entries_after_attach(
    first: Map<ObjectId, PdfObject>,
    cur: Map<ObjectId, PdfObject>,
    next: Map<ObjectId, PdfObject>,
    res: ObjectId,
    pad: nat,
    index: nat,
    image: ObjectId,
    pxo: Seq<(Vec<u8>, PdfObject)>,
)
    requires
        names_fresh(xobject_entries(first, res), pad),
        forall|k: Seq<u8>|
            k != xobject_key() && k != resources_key() && dict_get(pxo, k) is Some ==> #[trigger] dict_get(
                xobject_entries(first, res),
                k,
            ) == dict_get(pxo, k),
        forall|k: Seq<u8>|
            k != xobject_key() && k != resources_key() && dict_get(pxo, k) is Some ==> #[trigger] dict_get(
                xobject_entries(cur, res),
                k,
            ) == dict_get(pxo, k),
        forall|k: Seq<u8>|
            k != xobject_key() ==> #[trigger] dict_get(xobject_entries(next, res), k) == if k
                == image_entry_key(pad, index) {
                Some(PdfObject::Reference(image.0, image.1))
            } else {
                dict_get(xobject_entries(cur, res), k)
            },
    ensures
        forall|k: Seq<u8>|
            k != xobject_key() && k != resources_key() && dict_get(pxo, k) is Some ==> #[trigger] dict_get(
                xobject_entries(next, res),
                k,
            ) == dict_get(pxo, k),
{
    assert forall|k: Seq<u8>|
        k != xobject_key() && k != resources_key() && dict_get(pxo, k) is Some implies #[trigger] dict_get(
        xobject_entries(next, res),
        k,
    ) == dict_get(pxo, k) by {
        assert(dict_get(xobject_entries(first, res), k) == dict_get(pxo, k));
        assert(!has_key(xobject_entries(first, res), image_entry_key(pad, index)));
        assert(dict_get(xobject_entries(cur, res), k) == dict_get(pxo, k));
    }
}

/// Appending the operators keeps every entry of the XObject dictionary that the
/// resources list the images in, but for `Contents`.
proof fn lemma_entries_after_append(
    cur: Map<ObjectId, PdfObject>,
    fin: Map<ObjectId, PdfObject>,
    writes: Set<(ObjectId, Seq<u8>)>,
    res: ObjectId,
    pad: nat,
    images: Seq<ObjectId>,
    pxo: Seq<(Vec<u8>, PdfObject)>,
)
    requires
        images.len() > 0,
        kept_except(cur, fin, writes),
        forall|w: (ObjectId, Seq<u8>)| #[trigger] writes.contains(w) ==> w.1 == contents_key(),
        lists_images(cur, res, pad, images, images.len() as int),
        forall|k: Seq<u8>|
            k != xobject_key() && k != resources_key() && dict_get(pxo, k) is Some ==> #[trigger] dict_get(
                xobject_entries(cur, res),
                k,
            ) == dict_get(pxo, k),
    ensures
        forall|k: Seq<u8>|
            k != xobject_key() && k != resources_key() && k != contents_key() && dict_get(pxo, k) is Some
                ==> #[trigger] dict_get(xobject_entries(fin, res), k) == dict_get(pxo, k),
{
    let xo = choose|xo: ObjectId|
        #![trigger resolve_dict(cur, xo)]
        {
            &&& resolve_dict(cur, res) matches Some(r) && dict_get(r, xobject_key()) == Some(
                PdfObject::Reference(xo.0, xo.1),
            )
            &&& resolve_dict(cur, xo) matches Some(x) && forall|j: int|
                0 <= j < images.len() ==> dict_get(x, #[trigger] image_entry_key(pad, j as nat)) == Some(
                    PdfObject::Reference(images[j].0, images[j].1),
                )
        };
    assert(xobject_key() != contents_key());
    lemma_except_get(cur, fin, writes, res, xobject_key());
    assert forall|k: Seq<u8>|
        k != xobject_key() && k != resources_key() && k != contents_key() && dict_get(pxo, k) is Some implies #[trigger] dict_get(
        xobject_entries(fin, res),
        k,
    ) == dict_get(pxo, k) by {
        lemma_except_get(cur, fin, writes, xo, k);
        assert(dict_get(xobject_entries(cur, res), k) == dict_get(pxo, k));
    }
}

/// The padding that keeps the image names clear of every name in the XObject
/// dictionary of the resources `res`.
fn xobject_padding(doc: &lopdf::Document, res: ObjectId) -> (pad: usize)
    ensures
        names_fresh(xobject_entries(document_objects(*doc), res), pad as nat),
{
    let r = match dictionary_at(doc, res) {
        Ok(r) => r,
        Err(_) => return 0,
    };
    let key = xobject_name();
    match take_entry(r, key.as_slice()) {
        Some(PdfObject::Reference(n, g)) => match dictionary_at(doc, (n, g)) {
            Ok(x) => fresh_padding(&x),
            Err(_) => 0,
        },
        Some(PdfObject::Dictionary(e)) => fresh_padding(&e),
        _ => 0,
    }
}

/// Stamps one page: lists each image in the page's resources under a name that
/// their XObject dictionary does not use yet, keeping every entry it had, and
/// appends to the page's content the operators that draw each image at its
/// placement. An error is lopdf's text, or says that the page or its resources
/// are not a dictionary.
pub fn stamp_page(
    doc: &mut lopdf::Document,
    page_id: ObjectId,
    images: &Vec<ObjectId>,
    placements: &Vec<Vec<u8>>,
) -> (r: Result<(), String>)
    requires
        placements@.len() == images@.len(),
    ensures
        document_trailer(*final(doc)) == document_trailer(*old(doc)),
        r matches Err(text) ==> stamping_error(text),
        r is Ok ==> stamped(
            document_objects(*old(doc)),
            document_objects(*final(doc)),
            page_id,
            images@,
            placement_views(placements@),
        ),
        resolve_dict(document_objects(*old(doc)), page_id) is None ==> r is Err,
        page_stampable(document_objects(*old(doc)), page_id, images@.len() > 0) && ids_at_most(
            document_objects(*old(doc)),
            document_max_id(*old(doc)),
        ) && document_max_id(*old(doc)) + 3 <= u32::MAX ==> r is Ok,
        ids_at_most(document_objects(*old(doc)), document_max_id(*old(doc))) ==> {
            &&& ids_at_most(document_objects(*final(doc)), document_max_id(*final(doc)))
            &&& kept_except(
                document_objects(*old(doc)),
                document_objects(*final(doc)),
                stamp_writes(resolve(document_objects(*old(doc)), page_id).unwrap().0),
            )
        },
        document_max_id(*final(doc)) <= document_max_id(*old(doc)) + 3,
        r is Ok && ids_at_most(document_objects(*old(doc)), document_max_id(*old(doc))) ==> {
            &&& xobjects_sound(document_objects(*old(doc)), document_objects(*final(doc)))
            &&& stamp_step(
                document_objects(*old(doc)),
                document_objects(*final(doc)),
                page_id,
                images@,
                placement_views(placements@),
            )
            &&& images_listed(document_objects(*final(doc)), page_id, images@)
        },
        r is Ok && ids_at_most(document_objects(*old(doc)), document_max_id(*old(doc))) && images@.len() > 0
            ==> page_xobjects_kept(document_objects(*old(doc)), document_objects(*final(doc)), page_id),
{
    let ghost before = document_objects(*doc);
    let ghost trailer = document_trailer(*doc);
    let ghost max0 = document_max_id(*doc);
    let ghost ids_ok = ids_at_most(before, max0);
    let ghost good = page_stampable(before, page_id, images@.len() > 0) && ids_ok && max0 + 3
        <= u32::MAX;
    let ghost t_page = resolve(before, page_id).unwrap().0;
    let ghost pxo = page_xobject_entries(before, resolve_dict(before, page_id).unwrap());
    let ghost writes = stamp_writes(t_page);
    let mut res: ObjectId = (0, 0);
    let mut pad_len: usize = 0;
    if images.len() > 0 {
        let found = ensure_resources(doc, page_id);
        proof {
            if ids_ok {
                lemma_except_weaken(
                    before,
                    document_objects(*doc),
                    set![(t_page, resources_key())],
                    writes,
                );
            }
        }
        res = match found {
            Ok(id) => id,
            Err(e) => return Err(e),
        };
        proof {
            lemma_resources_refer(before, document_objects(*doc), page_id, res);
            if ids_ok {
                lemma_sound_from_kept(before, document_objects(*doc), set![(t_page, resources_key())]);
                let written = set![(t_page, resources_key())];
                assert forall|w: (ObjectId, Seq<u8>)| #[trigger] written.contains(w) implies w.1
                    != xobject_key() && !is_image_key(w.1) by {
                    if is_image_key(w.1) {
                        let (kp, k) = choose|kp: nat, k: nat| w.1 == #[trigger] image_entry_key(kp, k);
                        lemma_image_keys(kp, k, k);
                    }
                }
                lemma_entries_from_kept(before, document_objects(*doc), written, images@);
                lemma_entries_after_resources(before, document_objects(*doc), page_id, res, pxo);
            }
            if good {
                let d = resolve_dict(before, page_id).unwrap();
                let r0 = page_resources(before, d).unwrap();
                let s0 = document_objects(*doc);
                assert(resolve_dict(s0, res) == Some(r0));
                let written = set![(t_page, resources_key())];
                if let Some(PdfObject::Reference(n, g)) = dict_get(r0, xobject_key()) {
                    assert(resolve_dict(before, (n, g)) is Some);
                    lemma_except_resolve(before, s0, written, (n, g));
                }
                assert(xobjects_usable(s0, r0));
                lemma_except_resolve(before, s0, written, page_id);
            }
        }
    }
    if images.len() > 0 {
        pad_len = xobject_padding(doc, res);
    }
    let ghost pad = pad_len as nat;
    let ghost mut states: Seq<Map<ObjectId, PdfObject>> = seq![document_objects(*doc)];
    let mut i: usize = 0;
    while i < images.len()
        invariant
            i <= images@.len(),
            trailer == document_trailer(*doc),
            trailer == document_trailer(*old(doc)),
            before == document_objects(*old(doc)),
            max0 == document_max_id(*old(doc)),
            ids_ok == ids_at_most(before, max0),
            good == (page_stampable(before, page_id, images@.len() > 0) && ids_ok && max0 + 3
                <= u32::MAX),
            t_page == resolve(before, page_id).unwrap().0,
            writes == stamp_writes(t_page),
            states.len() == i + 1,
            states[i as int] == document_objects(*doc),
            images@.len() == 0 ==> states[0] == before,
            images@.len() > 0 ==> resources_ready(before, states[0], page_id, res),
            images@.len() > 0 ==> names_fresh(xobject_entries(states[0], res), pad),
            pad == pad_len as nat,
            images@.len() > 0 ==> resolve_dict(before, page_id) is Some,
            ids_ok && images@.len() > 0 ==> (resolve_dict(document_objects(*doc), page_id) matches Some(
                p,
            ) && dict_get(p, resources_key()) == Some(PdfObject::Reference(res.0, res.1))),
            forall|j: int|
                0 <= j < i ==> #[trigger] attached(
                    states[j],
                    states[j + 1],
                    res,
                    pad,
                    j as nat,
                    images@[j],
                ),
            ids_ok ==> ids_at_most(document_objects(*doc), document_max_id(*doc)),
            ids_ok ==> kept_except(before, document_objects(*doc), writes),
            ids_ok && i > 0 ==> lists_images(document_objects(*doc), res, pad, images@, i as int),
            good ==> resolve_dict(document_objects(*doc), page_id) is Some,
            good && images@.len() > 0 ==> (resolve_dict(document_objects(*doc), res) matches Some(rd)
                && xobjects_usable(document_objects(*doc), rd)),
            i == 0 ==> document_max_id(*doc) <= max0 + 1,
            i > 0 ==> document_max_id(*doc) <= max0 + 2,
            i > 0 ==> (resolve_dict(document_objects(*doc), res) matches Some(rd) && dict_get(
                rd,
                xobject_key(),
            ) matches Some(PdfObject::Reference(_, _))),
            ids_ok ==> xobjects_sound(before, document_objects(*doc)),
            ids_ok ==> image_entries_consistent(before, document_objects(*doc), images@),
            ids_ok ==> xobject_refs_kept(before, document_objects(*doc)),
            pxo == page_xobject_entries(before, resolve_dict(before, page_id).unwrap()),
            ids_ok && images@.len() > 0 ==> forall|k: Seq<u8>|
                k != xobject_key() && k != resources_key() && dict_get(pxo, k) is Some ==> #[trigger] dict_get(
                    xobject_entries(states[0], res),
                    k,
                ) == dict_get(pxo, k),
            ids_ok && images@.len() > 0 ==> forall|k: Seq<u8>|
                k != xobject_key() && k != resources_key() && dict_get(pxo, k) is Some ==> #[trigger] dict_get(
                    xobject_entries(document_objects(*doc), res),
                    k,
                ) == dict_get(pxo, k),
        decreases images@.len() - i,
    {
        let ghost cur = document_objects(*doc);
        let listed = attach_image(doc, res, pad_len, i, images[i]);
        proof {
            if ids_ok {
                let next = document_objects(*doc);
                assert(attach_writes(pad, i as nat, resolve(cur, res).unwrap().0).subset_of(writes)) by {
                    assert forall|w: (ObjectId, Seq<u8>)| #[trigger] attach_writes(pad, i as nat, resolve(cur, res).unwrap().0).contains(w) implies writes.contains(w) by {
                        if w.1 == image_entry_key(pad, i as nat) {
                            assert(is_image_key(w.1));
                        }
                    }
                }
                lemma_except_weaken(cur, next, attach_writes(pad, i as nat, resolve(cur, res).unwrap().0), writes);
                lemma_except_trans(before, cur, next, writes, writes);
                assert(writes.union(writes) =~= writes);
            }
        }
        match listed {
            Ok(()) => {},
            Err(e) => return Err(e),
        }
        proof {
            let next = document_objects(*doc);
            lemma_attached_lists_image(cur, next, res, pad, i as nat, images@[i as int]);
            lemma_image_keys(pad, i as nat, i as nat);
            if ids_ok {
                lemma_sound_trans(
                    before,
                    cur,
                    next,
                    writes,
                    attach_writes(pad, i as nat, resolve(cur, res).unwrap().0),
                );
                lemma_written_consistent(cur, next, pad, i as nat, images@);
                lemma_entries_trans(before, cur, next, writes, images@);
                if images@.len() > 0 {
                    lemma_entries_after_attach(states[0], cur, next, res, pad, i as nat, images@[i as int], pxo);
                }
            }
            if ids_ok {
                // The page still refers to its resources.
                assert(!attach_writes(pad, i as nat, resolve(cur, res).unwrap().0).contains((resolve(cur, page_id).unwrap().0, resources_key())));
                lemma_except_get(cur, next, attach_writes(pad, i as nat, resolve(cur, res).unwrap().0), page_id, resources_key());
                // The images listed before stay listed, in the same dictionary.
                let xo = choose|xo: ObjectId|
                    #![trigger resolve_dict(next, xo)]
                    {
                        &&& resolve_dict(next, res) matches Some(d) && dict_get(d, xobject_key())
                            == Some(PdfObject::Reference(xo.0, xo.1))
                        &&& resolve_dict(next, xo) matches Some(x) && dict_get(
                            x,
                            image_entry_key(pad, i as nat),
                        ) == Some(PdfObject::Reference(images@[i as int].0, images@[i as int].1))
                    };
                if i > 0 {
                    let xo0 = choose|xo: ObjectId|
                        #![trigger resolve_dict(cur, xo)]
                        {
                            &&& resolve_dict(cur, res) matches Some(r) && dict_get(r, xobject_key())
                                == Some(PdfObject::Reference(xo.0, xo.1))
                            &&& resolve_dict(cur, xo) matches Some(x) && forall|j: int|
                                0 <= j < i ==> dict_get(x, #[trigger] image_entry_key(pad, j as nat))
                                    == Some(PdfObject::Reference(images@[j].0, images@[j].1))
                        };
                    assert(xo == xo0);
                    assert forall|j: int| 0 <= j < i + 1 implies dict_get(
                        resolve_dict(next, xo).unwrap(),
                        #[trigger] image_entry_key(pad, j as nat),
                    ) == Some(PdfObject::Reference(images@[j].0, images@[j].1)) by {
                        if j < i {
                            lemma_image_keys(pad, j as nat, i as nat);
                            assert(!attach_writes(pad, i as nat, resolve(cur, res).unwrap().0).contains(
                                (resolve(cur, xo).unwrap().0, image_entry_key(pad, j as nat)),
                            ));
                            lemma_except_get(cur, next, attach_writes(pad, i as nat, resolve(cur, res).unwrap().0), xo, image_entry_key(pad, j as nat));
                        }
                    }
                } else {
                    assert forall|j: int| 0 <= j < i + 1 implies dict_get(
                        resolve_dict(next, xo).unwrap(),
                        #[trigger] image_entry_key(pad, j as nat),
                    ) == Some(PdfObject::Reference(images@[j].0, images@[j].1)) by {
                        assert(j == 0);
                    }
                }
                assert(lists_images(next, res, pad, images@, i + 1));
            }
            if good {
                let xo = choose|xo: ObjectId|
                    #![trigger resolve_dict(next, xo)]
                    {
                        &&& resolve_dict(next, res) matches Some(d) && dict_get(d, xobject_key())
                            == Some(PdfObject::Reference(xo.0, xo.1))
                        &&& resolve_dict(next, xo) matches Some(x) && dict_get(
                            x,
                            image_entry_key(pad, i as nat),
                        ) == Some(PdfObject::Reference(images@[i as int].0, images@[i as int].1))
                    };
                assert(resolve_dict(next, (xo.0, xo.1)) is Some);
                lemma_except_resolve(cur, next, attach_writes(pad, i as nat, resolve(cur, res).unwrap().0), page_id);
            }
            states = states.push(document_objects(*doc));
        }
        i = i + 1;
    }
    let ghost cur = document_objects(*doc);
    let ops = draw_operators(placements, pad_len);
    let ghost ops_view = ops@;
    let added = append_page_content(doc, page_id, ops);
    proof {
        if ids_ok {
            let fin = document_objects(*doc);
            let appended_writes = set![(resolve(cur, page_id).unwrap().0, contents_key())];
            if resolve_dict(before, page_id) is Some {
                lemma_except_resolve(before, cur, writes, page_id);
            } else {
                assert(cur == before);
            }
            assert(appended_writes.subset_of(writes));
            lemma_except_weaken(cur, fin, appended_writes, writes);
            lemma_except_trans(before, cur, fin, writes, writes);
            assert(writes.union(writes) =~= writes);
        }
    }
    match added {
        Ok(()) => {},
        Err(e) => return Err(e),
    }
    proof {
        let fin = document_objects(*doc);
        assert(stamp_steps(before, fin, page_id, images@, placement_views(placements@), res, states, pad));
        if ids_ok {
            let appended_writes = set![(resolve(cur, page_id).unwrap().0, contents_key())];
            lemma_sound_from_kept(cur, fin, appended_writes);
            lemma_sound_trans(before, cur, fin, writes, appended_writes);
            assert forall|w: (ObjectId, Seq<u8>)| #[trigger] appended_writes.contains(w) implies w.1
                != xobject_key() && !is_image_key(w.1) by {
                if is_image_key(w.1) {
                    let (kp, k) = choose|kp: nat, k: nat| w.1 == #[trigger] image_entry_key(kp, k);
                    lemma_image_keys(kp, k, k);
                }
            }
            lemma_entries_from_kept(cur, fin, appended_writes, images@);
            lemma_entries_trans(before, cur, fin, writes, images@);
            assert forall|t: ObjectId| #[trigger] writes.contains((t, resources_key())) implies set![
                t_page,
            ].contains(t) by {
                assert(resources_key() != xobject_key());
                if is_image_key(resources_key()) {
                    let (kp, k) = choose|kp: nat, k: nat| resources_key() == #[trigger] image_entry_key(kp, k);
                    lemma_image_keys(kp, k, k);
                }
                assert(resources_key() != contents_key());
            }
            lemma_except_to_kept(before, fin, writes, resources_key(), set![t_page]);
            // Only the page's own `Contents` entry was written.
            assert forall|t: ObjectId| #[trigger] writes.contains((t, contents_key())) implies set![
                t_page,
            ].contains(t) by {
                assert(contents_key() != xobject_key());
                if is_image_key(contents_key()) {
                    let (kp, k) = choose|kp: nat, k: nat| contents_key() == #[trigger] image_entry_key(kp, k);
                    lemma_image_keys(kp, k, k);
                }
                assert(contents_key() != resources_key());
            }
            lemma_except_to_kept(before, fin, writes, contents_key(), set![t_page]);
            if images@.len() > 0 {
                let appended_writes = set![(resolve(cur, page_id).unwrap().0, contents_key())];
                assert(!appended_writes.contains((resolve(cur, page_id).unwrap().0, resources_key())));
                lemma_except_get(cur, fin, appended_writes, page_id, resources_key());
                assert forall|w: (ObjectId, Seq<u8>)| #[trigger] appended_writes.contains(w) implies w.1
                    != xobject_key() && !is_image_key(w.1) by {
                    if is_image_key(w.1) {
                        let (kp, k) = choose|kp: nat, k: nat| w.1 == #[trigger] image_entry_key(kp, k);
                        lemma_image_keys(kp, k, k);
                    }
                }
                lemma_lists_images_kept(cur, fin, appended_writes, res, pad, images@, images@.len() as int);
                assert(lists_images(fin, res, pad, images@, images@.len() as int));
                lemma_entries_after_append(cur, fin, appended_writes, res, pad, images@, pxo);
                assert(page_xobjects_kept(before, fin, page_id));
            }
        }
    }
    Ok(())
}

/// After `ensure_resources` has yielded `res`, the page's `Resources` entry
/// refers to `res`.
pub proof fn lemma_resources_refer(
    before: Map<ObjectId, PdfObject>,
    after: Map<ObjectId, PdfObject>,
    page: ObjectId,
    res: ObjectId,
)
    requires
        resources_ready(before, after, page, res),
    ensures
        resolve_dict(after, page) matches Some(d) && dict_get(d, resources_key()) == Some(
            PdfObject::Reference(res.0, res.1),
        ),
{
    if let Some((_, PdfObject::Dictionary(d))) = resolve(before, page) {
        match dict_get(d@, resources_key()) {
            Some(PdfObject::Reference(n, g)) => {},
            Some(PdfObject::Dictionary(e)) => {
                let mid = before.insert(res, PdfObject::Dictionary(e));
                lemma_resolve_after_set(mid, after, page, resources_key(), PdfObject::Reference(res.0, res.1));
                let t = resolve(mid, page).unwrap().0;
                if let PdfObject::Dictionary(ent) = after[t] {
                    crate::object::lemma_set_entry_get(
                        ent@,
                        resolve_dict(mid, page).unwrap(),
                        resources_key(),
                        PdfObject::Reference(res.0, res.1),
                    );
                }
            },
            _ => {
                let v = choose|v: PdfObject|
                    #![trigger before.insert(res, v)]
                    {
                        &&& v matches PdfObject::Dictionary(e) && e@ == inherited_resources(before, d@)
                        &&& keys_distinct(resolve_dict(before.insert(res, v), page).unwrap())
                        &&& entry_set(
                            before.insert(res, v),
                            after,
                            page,
                            resources_key(),
                            PdfObject::Reference(res.0, res.1),
                        )
                    };
                let mid = before.insert(res, v);
                lemma_resolve_after_set(mid, after, page, resources_key(), PdfObject::Reference(res.0, res.1));
                let t = resolve(mid, page).unwrap().0;
                if let PdfObject::Dictionary(ent) = after[t] {
                    crate::object::lemma_set_entry_get(
                        ent@,
                        resolve_dict(mid, page).unwrap(),
                        resources_key(),
                        PdfObject::Reference(res.0, res.1),
                    );
                }
            },
        }
    }
}

/// After `attach_image`, the resources' `XObject` entry refers to a dictionary
/// that lists the image under its name; where that entry
/// already referred to an object, it still refers to the same one.
pub proof fn lemma_attached_lists_image(
    before: Map<ObjectId, PdfObject>,
    after: Map<ObjectId, PdfObject>,
    res: ObjectId,
    pad: nat,
    index: nat,
    image: ObjectId,
)
    requires
        attached(before, after, res, pad, index, image),
    ensures
        resolve_dict(before, res) matches Some(d) && dict_get(d, xobject_key()) matches Some(
            PdfObject::Reference(n, g),
        ) ==> (resolve_dict(after, res) matches Some(d2) && dict_get(d2, xobject_key()) == Some(
            PdfObject::Reference(n, g),
        )),
        exists|xo: ObjectId|
            #![trigger resolve_dict(after, xo)]
            {
                &&& resolve_dict(after, res) matches Some(d) && dict_get(d, xobject_key()) == Some(
                    PdfObject::Reference(xo.0, xo.1),
                )
                &&& resolve_dict(after, xo) matches Some(x) && dict_get(x, image_entry_key(pad, index))
                    == Some(PdfObject::Reference(image.0, image.1))
            },
{
    let d = resolve(before, res).unwrap().1->Dictionary_0;
    let (xo, mid, mid2) = choose|
        xo: ObjectId,
        mid: Map<ObjectId, PdfObject>,
        mid2: Map<ObjectId, PdfObject>,
    |
        #![trigger entry_set(mid, mid2, xo, image_entry_key(pad, index), PdfObject::Reference(image.0, image.1))]
        {
            &&& xobjects_ready(before, d@, xo, mid)
            &&& keys_distinct(resolve_dict(mid, xo).unwrap())
            &&& keys_distinct(resolve_dict(mid2, res).unwrap())
            &&& entry_set(
                mid,
                mid2,
                xo,
                image_entry_key(pad, index),
                PdfObject::Reference(image.0, image.1),
            )
            &&& entry_set(mid2, after, res, xobject_key(), PdfObject::Reference(xo.0, xo.1))
        };
    let im = PdfObject::Reference(image.0, image.1);
    let xr = PdfObject::Reference(xo.0, xo.1);
    // The image entry, once set in the XObject dictionary.
    lemma_resolve_after_set(mid, mid2, xo, image_entry_key(pad, index), im);
    let t1 = resolve(mid, xo).unwrap().0;
    let e1 = mid2[t1]->Dictionary_0;
    crate::object::lemma_set_entry_get(e1@, resolve_dict(mid, xo).unwrap(), image_entry_key(pad, index), im);
    // The XObject entry, once set in the resources.
    lemma_resolve_after_set(mid2, after, res, xobject_key(), xr);
    let t2 = resolve(mid2, res).unwrap().0;
    let e2 = after[t2]->Dictionary_0;
    crate::object::lemma_set_entry_get(e2@, resolve_dict(mid2, res).unwrap(), xobject_key(), xr);
    assert(image_entry_key(pad, index)[0] != xobject_key()[0]);
    assert(image_entry_key(pad, index) != xobject_key());
    // The XObject dictionary is still where it was, holding the image entry.
    crate::object::lemma_follow_result(mid2, xo, 0);
    crate::object::lemma_follow_result(mid2, res, 0);
    if t1 == t2 {
        crate::object::lemma_follow_stable(mid2, after, xo, 0, t1);
        assert(dict_get(e2@, image_entry_key(pad, index)) == dict_get(e1@, image_entry_key(pad, index)));
    } else {
        crate::object::lemma_follow_unchanged(mid2, after, xo, 0, t2);
        assert(after[t1] == mid2[t1]);
    }
    assert(resolve_dict(after, xo) matches Some(x) && dict_get(x, image_entry_key(pad, index)) == Some(im));
}

/// The page's content streams end with a stream holding exactly the operators
/// that draw the images at the placements, under names with some padding.
pub open spec fn ends_with_drawing(
    objects: Map<ObjectId, PdfObject>,
    page: ObjectId,
    placements: Seq<Seq<u8>>,
) -> bool {
    exists|pad: nat| #[trigger] ends_with_ops(objects, page, draw_ops(placements, pad))
}

/// After `stamp_page`, the page's content streams end with a stream holding
/// exactly the operators that draw the images at the placements, under the names
/// they were listed with.
pub proof fn lemma_stamped_content(
    before: Map<ObjectId, PdfObject>,
    after: Map<ObjectId, PdfObject>,
    page: ObjectId,
    images: Seq<ObjectId>,
    placements: Seq<Seq<u8>>,
)
    requires
        stamped(before, after, page, images, placements),
    ensures
        ends_with_drawing(after, page, placements),
{
    let (res, states, pad) = choose|res: ObjectId, states: Seq<Map<ObjectId, PdfObject>>, pad: nat|
        #![trigger stamp_steps(before, after, page, images, placements, res, states, pad)]
        stamp_steps(before, after, page, images, placements, res, states, pad);
    lemma_appended_content(states[images.len() as int], after, page, draw_ops(placements, pad));
}

/// The id under which the dictionary that `page` resolves to is stored.
pub open spec fn page_target(objects: Map<ObjectId, PdfObject>, page: ObjectId) -> ObjectId {
    resolve(objects, page).unwrap().0
}

/// One page stamped as `stamp_page` stamps it, on a document whose object numbers
/// stay at most its `max_id`: the page took the images and the operators, and
/// its resources list the images; the page's `Contents` and `Resources` changed
/// only in the page's own dictionary, no `XObject` entry that referred to an
/// object changed, and an entry under an image's name changed only to refer to
/// the image of its index.
pub open spec fn stamp_step(
    before: Map<ObjectId, PdfObject>,
    after: Map<ObjectId, PdfObject>,
    page: ObjectId,
    images: Seq<ObjectId>,
    placements: Seq<Seq<u8>>,
) -> bool {
    &&& stamped(before, after, page, images, placements)
    &&& kept_but(before, after, contents_key(), set![page_target(before, page)])
    &&& kept_but(before, after, resources_key(), set![page_target(before, page)])
    &&& image_entries_consistent(before, after, images)
    &&& xobject_refs_kept(before, after)
    &&& images_listed(after, page, images)
}

/// Pages stamped one after another through the object maps `states`, each page
/// being a dictionary to begin with.
pub open spec fn stamped_in_turn(
    states: Seq<Map<ObjectId, PdfObject>>,
    pages: Seq<ObjectId>,
    images: Seq<ObjectId>,
    ops: Seq<Seq<Seq<u8>>>,
) -> bool {
    &&& states.len() == pages.len() + 1
    &&& ops.len() == pages.len()
    &&& forall|i: int|
        0 <= i < pages.len() ==> #[trigger] stamp_step(states[i], states[i + 1], pages[i], images, ops[i])
    &&& forall|i: int| 0 <= i < pages.len() ==> #[trigger] resolve_dict(states[0], pages[i]) is Some
}

/// The ids of the dictionaries of the pages from `a` up to, not including, `b`.
pub open spec fn page_targets(
    objects: Map<ObjectId, PdfObject>,
    pages: Seq<ObjectId>,
    a: int,
    b: int,
) -> Set<ObjectId> {
    Set::new(|t: ObjectId| exists|k: int| a <= k < b && t == #[trigger] page_target(objects, pages[k]))
}

/// From state `a` to state `b`, only the `Contents` entries of the dictionaries of
/// the pages stamped in between changed.
proof fn lemma_kept_from(
    states: Seq<Map<ObjectId, PdfObject>>,
    pages: Seq<ObjectId>,
    images: Seq<ObjectId>,
    ops: Seq<Seq<Seq<u8>>>,
    a: int,
    b: int,
)
    requires
        stamped_in_turn(states, pages, images, ops),
        0 <= a <= b <= pages.len(),
    ensures
        kept_but(states[a], states[b], contents_key(), page_targets(states[0], pages, a, b)),
    decreases b,
{
    if b == a {
        assert(page_targets(states[0], pages, a, b) =~= Set::empty());
    } else {
        let k = b - 1;
        lemma_kept_from(states, pages, images, ops, a, k);
        lemma_kept_from(states, pages, images, ops, 0, k);
        assert(resolve_dict(states[0], pages[k]) is Some);
        lemma_kept_resolve(states[0], states[k], contents_key(), page_targets(states[0], pages, 0, k), pages[k]);
        assert(stamp_step(states[k], states[k + 1], pages[k], images, ops[k]));
        assert(page_target(states[k], pages[k]) == page_target(states[0], pages[k]));
        lemma_kept_trans(
            states[a],
            states[k],
            states[b],
            contents_key(),
            page_targets(states[0], pages, a, k),
            set![page_target(states[0], pages[k])],
        );
        assert(page_targets(states[0], pages, a, k).union(set![page_target(states[0], pages[k])])
            =~= page_targets(states[0], pages, a, b));
    }
}

/// A page that could be stamped still can after another page was stamped: its
/// dictionary and its resources stay, and an `XObject` entry either stays or is
/// made to refer to a dictionary.
proof fn lemma_stampable_kept(
    before: Map<ObjectId, PdfObject>,
    after: Map<ObjectId, PdfObject>,
    page: ObjectId,
    stamped_page: ObjectId,
    images: Seq<ObjectId>,
)
    requires
        page_stampable(before, page, images.len() > 0),
        resolve_dict(before, stamped_page) is Some,
        kept_except(before, after, stamp_writes(page_target(before, stamped_page))),
        xobjects_sound(before, after),
        images_listed(after, stamped_page, images),
    ensures
        page_stampable(after, page, images.len() > 0),
{
    let tq = page_target(before, stamped_page);
    let w = stamp_writes(tq);
    let tp = page_target(before, page);
    lemma_except_resolve(before, after, w, page);
    lemma_except_resolve(before, after, w, stamped_page);
    crate::object::lemma_follow_result(before, page, 0);
    crate::object::lemma_follow_result(after, page, 0);
    crate::object::lemma_follow_result(after, stamped_page, 0);
    if images.len() > 0 {
        let d = resolve_dict(before, page).unwrap();
        let d2 = resolve_dict(after, page).unwrap();
        if tp == tq {
            let (res, pad) = choose|res: ObjectId, pad: nat|
                #![trigger lists_images(after, res, pad, images, images.len() as int)]
                {
                    &&& resolve_dict(after, stamped_page) matches Some(p) && dict_get(p, resources_key())
                        == Some(PdfObject::Reference(res.0, res.1))
                    &&& lists_images(after, res, pad, images, images.len() as int)
                };
            assert(d2 == resolve_dict(after, stamped_page).unwrap());
            let xo = choose|xo: ObjectId|
                #![trigger resolve_dict(after, xo)]
                {
                    &&& resolve_dict(after, res) matches Some(r) && dict_get(r, xobject_key()) == Some(
                        PdfObject::Reference(xo.0, xo.1),
                    )
                    &&& resolve_dict(after, xo) matches Some(x) && forall|j: int|
                        0 <= j < images.len() ==> dict_get(x, #[trigger] image_entry_key(pad, j as nat))
                            == Some(PdfObject::Reference(images[j].0, images[j].1))
                };
            assert(resolve_dict(after, (xo.0, xo.1)) is Some);
        } else {
            if is_image_key(resources_key()) {
                let (kp, k) = choose|kp: nat, k: nat| resources_key() == #[trigger] image_entry_key(kp, k);
                lemma_image_keys(kp, k, k);
            }
            assert(resources_key() != contents_key());
            assert(resources_key() != xobject_key());
            assert(!w.contains((tp, resources_key())));
            lemma_except_get(before, after, w, page, resources_key());
            match dict_get(d, resources_key()) {
                Some(PdfObject::Reference(n, g)) => {
                    let r = resolve_dict(before, (n, g)).unwrap();
                    lemma_except_resolve(before, after, w, (n, g));
                    crate::object::lemma_follow_result(before, (n, g), 0);
                    crate::object::lemma_follow_result(after, (n, g), 0);
                    let tr = page_target(before, (n, g));
                    assert(before[tr]->Dictionary_0@ == r);
                    let r2 = resolve_dict(after, (n, g)).unwrap();
                    assert(after[tr]->Dictionary_0@ == r2);
                    if let Some(PdfObject::Reference(m, h)) = dict_get(r2, xobject_key()) {
                        if dict_get(r2, xobject_key()) == dict_get(r, xobject_key()) {
                            lemma_except_resolve(before, after, w, (m, h));
                        }
                    }
                },
                Some(PdfObject::Dictionary(e)) => {
                    if let Some(PdfObject::Reference(m, h)) = dict_get(e@, xobject_key()) {
                        lemma_except_resolve(before, after, w, (m, h));
                    }
                },
                _ => {
                    assert(parent_key() != resources_key() && parent_key() != contents_key()
                        && parent_key() != xobject_key());
                    if is_image_key(parent_key()) {
                        let (kp, k) = choose|kp: nat, k: nat| parent_key() == #[trigger] image_entry_key(kp, k);
                        lemma_image_keys(kp, k, k);
                    }
                    assert(!w.contains((tp, parent_key())));
                    lemma_except_get(before, after, w, page, parent_key());
                    if let Some(parent) = reference_of(dict_get(d, parent_key())) {
                        lemma_chain_kept(
                            before,
                            after,
                            stamped_page,
                            images,
                            parent,
                            resources_search_levels(),
                        );
                        let v = inherited_entry(after, parent, resources_search_levels(), resources_key());
                        if let Some(PdfObject::Reference(n, g)) = v {
                            assert(resolve_dict(after, (n, g)) is Some);
                        }
                        assert(xobjects_usable(after, inherited_resources(after, d2)));
                    }
                },
            }
        }
    }
}

/// Stamps every page but the first and the last, in order: the page after the
/// first with the first placements, and so on, each page with all the images.
/// An error is the first one that stamping a page reports.
pub fn stamp_pages(
    doc: &mut lopdf::Document,
    pages: &Vec<ObjectId>,
    images: &Vec<ObjectId>,
    ops: &Vec<Vec<Vec<u8>>>,
) -> (r: Result<(), String>)
    requires
        ops@.len() + 2 == pages@.len(),
        forall|k: int| 0 <= k < ops@.len() ==> (#[trigger] ops@[k])@.len() == images@.len(),
    ensures
        document_trailer(*final(doc)) == document_trailer(*old(doc)),
        r matches Err(text) ==> stamping_error(text),
        ids_at_most(document_objects(*old(doc)), document_max_id(*old(doc))) ==> ids_at_most(
            document_objects(*final(doc)),
            document_max_id(*final(doc)),
        ),
        r is Ok && ids_at_most(document_objects(*old(doc)), document_max_id(*old(doc))) && (forall|
            i: int,
        |
            1 <= i < pages@.len() - 1 ==> #[trigger] resolve_dict(document_objects(*old(doc)), pages@[i])
                is Some) ==> exists|states: Seq<Map<ObjectId, PdfObject>>|
            {
                &&& stamped_in_turn(
                    states,
                    pages@.subrange(1, pages@.len() - 1),
                    images@,
                    ops@.map_values(|o: Vec<Vec<u8>>| placement_views(o@)),
                )
                &&& states[0] == document_objects(*old(doc))
                &&& states.last() == document_objects(*final(doc))
            },
        ids_at_most(document_objects(*old(doc)), document_max_id(*old(doc))) && document_max_id(*old(doc))
            + 3 * ops@.len() <= u32::MAX && (forall|i: int|
            #![trigger pages@[i]]
            1 <= i < pages@.len() - 1 ==> page_stampable(
                document_objects(*old(doc)),
                pages@[i],
                images@.len() > 0,
            )) ==> r is Ok,
{
    let ghost before = document_objects(*doc);
    let ghost ids_ok = ids_at_most(before, document_max_id(*doc));
    let ghost middle = pages@.subrange(1, pages@.len() - 1);
    let ghost opsv = ops@.map_values(|o: Vec<Vec<u8>>| placement_views(o@));
    let ghost max0 = document_max_id(*doc);
    let ghost good = ids_ok && max0 + 3 * ops@.len() <= u32::MAX && (forall|i: int|
        #![trigger pages@[i]]
        1 <= i < pages@.len() - 1 ==> page_stampable(before, pages@[i], images@.len() > 0));
    let ghost mut states: Seq<Map<ObjectId, PdfObject>> = seq![before];
    let mut k: usize = 0;
    while k < ops.len()
        invariant
            ops@.len() + 2 == pages@.len(),
            forall|k: int| 0 <= k < ops@.len() ==> (#[trigger] ops@[k])@.len() == images@.len(),
            k <= ops@.len(),
            middle == pages@.subrange(1, pages@.len() - 1),
            opsv == ops@.map_values(|o: Vec<Vec<u8>>| placement_views(o@)),
            states.len() == k + 1,
            states[0] == before,
            states[k as int] == document_objects(*doc),
            before == document_objects(*old(doc)),
            ids_ok == ids_at_most(before, document_max_id(*old(doc))),
            document_trailer(*doc) == document_trailer(*old(doc)),
            ids_ok ==> ids_at_most(document_objects(*doc), document_max_id(*doc)),
            ids_ok ==> forall|i: int|
                0 <= i < k ==> #[trigger] stamp_step(states[i], states[i + 1], middle[i], images@, opsv[i]),
            max0 == document_max_id(*old(doc)),
            good == (ids_ok && max0 + 3 * ops@.len() <= u32::MAX && (forall|i: int|
                #![trigger pages@[i]]
                1 <= i < pages@.len() - 1 ==> page_stampable(before, pages@[i], images@.len() > 0))),
            document_max_id(*doc) <= max0 + 3 * k,
            good ==> forall|j: int|
                #![trigger middle[j]]
                k <= j < middle.len() ==> page_stampable(
                    document_objects(*doc),
                    middle[j],
                    images@.len() > 0,
                ),
        decreases ops@.len() - k,
    {
        let page = pages[k + 1];
        let page_ops = &ops[k];
        let ghost cur = document_objects(*doc);
        proof {
            assert(page_ops@ == ops@[k as int]@);
            assert(page_ops@.len() == images@.len());
            assert(middle[k as int] == page);
            assert(opsv[k as int] == placement_views(page_ops@));
            if good {
                assert(page_stampable(cur, middle[k as int], images@.len() > 0));
            }
        }
        match stamp_page(doc, page, images, page_ops) {
            Ok(()) => {},
            Err(e) => return Err(e),
        }
        proof {
            let next = document_objects(*doc);
            if good {
                assert forall|j: int| #![trigger middle[j]] k + 1 <= j < middle.len() implies page_stampable(
                    next,
                    middle[j],
                    images@.len() > 0,
                ) by {
                    assert(page_stampable(cur, middle[j], images@.len() > 0));
                    lemma_stampable_kept(cur, next, middle[j], page, images@);
                }
            }
            states = states.push(next);
        }
        k = k + 1;
    }
    proof {
        if ids_ok && forall|i: int|
            1 <= i < pages@.len() - 1 ==> #[trigger] resolve_dict(before, pages@[i]) is Some {
            assert forall|i: int| 0 <= i < middle.len() implies #[trigger] resolve_dict(states[0], middle[i])
                is Some by {
                assert(middle[i] == pages@[i + 1]);
            }
            assert(stamped_in_turn(states, middle, images@, opsv));
            assert(states.last() == document_objects(*doc));
        }
    }
    Ok(())
}

/// What the page's content streams end with stays where nothing changed the
/// page's `Contents` entry.
proof fn lemma_ends_with_kept(
    before: Map<ObjectId, PdfObject>,
    after: Map<ObjectId, PdfObject>,
    page: ObjectId,
    ops: Seq<u8>,
    changed: Set<ObjectId>,
)
    requires
        ends_with_ops(before, page, ops),
        kept_but(before, after, contents_key(), changed),
        !changed.contains(page_target(before, page)),
    ensures
        ends_with_ops(after, page, ops),
{
    let n = choose|n: ObjectId|
        #![trigger before[n]]
        {
            &&& before.dom().contains(n)
            &&& content_stream(before[n], ops)
            &&& resolve_dict(before, page) matches Some(d) && dict_get(d, contents_key()) matches Some(
                PdfObject::Array(l),
            ) && l@.len() > 0 && l@.last() == PdfObject::Reference(n.0, n.1)
        };
    lemma_kept_resolve(before, after, contents_key(), changed, page);
    crate::object::lemma_follow_result(before, page, 0);
    let t = page_target(before, page);
    assert(after.dom().contains(n));
    assert(after[n] == before[n]);
    assert(after[t] is Dictionary);
    assert(dict_get(after[t]->Dictionary_0@, contents_key()) == dict_get(
        before[t]->Dictionary_0@,
        contents_key(),
    ));
}

/// Stamping pages one after another, each with its own drawing operators, where
/// no two of the pages are the same dictionary: at the end, the content streams
/// of every one of them end with a stream holding exactly its operators.
pub proof fn lemma_pages_stamped(
    states: Seq<Map<ObjectId, PdfObject>>,
    pages: Seq<ObjectId>,
    images: Seq<ObjectId>,
    ops: Seq<Seq<Seq<u8>>>,
)
    requires
        stamped_in_turn(states, pages, images, ops),
        forall|i: int, j: int|
            0 <= i < j < pages.len() ==> #[trigger] page_target(states[0], pages[i]) != #[trigger] page_target(
                states[0],
                pages[j],
            ),
    ensures
        forall|i: int|
            0 <= i < pages.len() ==> #[trigger] ends_with_drawing(states[pages.len() as int], pages[i], ops[i]),
{
    let n: int = pages.len() as int;
    assert forall|i: int| 0 <= i < n implies #[trigger] ends_with_drawing(states[n], pages[i], ops[i]) by {
        assert(stamp_step(states[i], states[i + 1], pages[i], images, ops[i]));
        lemma_stamped_content(states[i], states[i + 1], pages[i], images, ops[i]);
        let pad = choose|pad: nat| #[trigger] ends_with_ops(states[i + 1], pages[i], draw_ops(ops[i], pad));
        assert(resolve_dict(states[0], pages[i]) is Some);
        lemma_kept_from(states, pages, images, ops, 0, i + 1);
        lemma_kept_resolve(states[0], states[i + 1], contents_key(), page_targets(states[0], pages, 0, i + 1), pages[i]);
        lemma_kept_from(states, pages, images, ops, i + 1, n);
        let later = page_targets(states[0], pages, i + 1, n);
        if later.contains(page_target(states[0], pages[i])) {
            let k = choose|k: int| i + 1 <= k < n && page_target(states[0], pages[i]) == #[trigger] page_target(states[0], pages[k]);
            assert(page_target(states[0], pages[i]) != page_target(states[0], pages[k]));
        }
        lemma_ends_with_kept(states[i + 1], states[n], pages[i], draw_ops(ops[i], pad), later);
    }
}

/// A page whose resources list the images still lists them after another page,
/// stored apart from it, was stamped.
proof fn lemma_listed_after_step(
    before: Map<ObjectId, PdfObject>,
    after: Map<ObjectId, PdfObject>,
    page: ObjectId,
    stamped_page: ObjectId,
    images: Seq<ObjectId>,
    placements: Seq<Seq<u8>>,
)
    requires
        stamp_step(before, after, stamped_page, images, placements),
        images_listed(before, page, images),
        resolve_dict(before, page) is Some,
        page_target(before, page) != page_target(before, stamped_page),
    ensures
        images_listed(after, page, images),
{
    if images.len() > 0 {
        let changed = set![page_target(before, stamped_page)];
        let (res, pad) = choose|res: ObjectId, pad: nat|
            #![trigger lists_images(before, res, pad, images, images.len() as int)]
            {
                &&& resolve_dict(before, page) matches Some(p) && dict_get(p, resources_key()) == Some(
                    PdfObject::Reference(res.0, res.1),
                )
                &&& lists_images(before, res, pad, images, images.len() as int)
            };
        let xo = choose|xo: ObjectId|
            #![trigger resolve_dict(before, xo)]
            {
                &&& resolve_dict(before, res) matches Some(r) && dict_get(r, xobject_key()) == Some(
                    PdfObject::Reference(xo.0, xo.1),
                )
                &&& resolve_dict(before, xo) matches Some(x) && forall|j: int|
                    0 <= j < images.len() ==> dict_get(x, #[trigger] image_entry_key(pad, j as nat))
                        == Some(PdfObject::Reference(images[j].0, images[j].1))
            };
        // The page keeps its `Resources`.
        lemma_kept_resolve(before, after, resources_key(), changed, page);
        crate::object::lemma_follow_result(before, page, 0);
        let tp = page_target(before, page);
        assert(after[tp]->Dictionary_0@ == resolve_dict(after, page).unwrap());
        // The resources keep their `XObject` reference.
        lemma_kept_resolve(before, after, resources_key(), changed, res);
        crate::object::lemma_follow_result(before, res, 0);
        let tr = page_target(before, res);
        assert(before[tr]->Dictionary_0@ == resolve_dict(before, res).unwrap());
        assert(after[tr]->Dictionary_0@ == resolve_dict(after, res).unwrap());
        assert(after[tr] == after[tr]);
        // The XObject dictionary keeps the images' entries.
        lemma_kept_resolve(before, after, resources_key(), changed, xo);
        crate::object::lemma_follow_result(before, xo, 0);
        let tx = page_target(before, xo);
        assert(before[tx]->Dictionary_0@ == resolve_dict(before, xo).unwrap());
        assert(after[tx]->Dictionary_0@ == resolve_dict(after, xo).unwrap());
        assert forall|j: int| 0 <= j < images.len() implies dict_get(
            resolve_dict(after, xo).unwrap(),
            #[trigger] image_entry_key(pad, j as nat),
        ) == Some(PdfObject::Reference(images[j].0, images[j].1)) by {
            assert(dict_get(after[tx]->Dictionary_0@, image_entry_key(pad, j as nat)) == dict_get(
                before[tx]->Dictionary_0@,
                image_entry_key(pad, j as nat),
            ) || (j as nat) < images.len() && dict_get(after[tx]->Dictionary_0@, image_entry_key(pad, j as nat))
                == Some(PdfObject::Reference(images[j].0, images[j].1)));
        }
        assert(lists_images(after, res, pad, images, images.len() as int));
    }
}

/// A page stamped in turn still lists the images after every later step.
proof fn lemma_listed_from(
    states: Seq<Map<ObjectId, PdfObject>>,
    pages: Seq<ObjectId>,
    images: Seq<ObjectId>,
    ops: Seq<Seq<Seq<u8>>>,
    i: int,
    k: int,
)
    requires
        stamped_in_turn(states, pages, images, ops),
        forall|a: int, b: int|
            0 <= a < b < pages.len() ==> #[trigger] page_target(states[0], pages[a]) != #[trigger] page_target(
                states[0],
                pages[b],
            ),
        0 <= i < k <= pages.len(),
    ensures
        images_listed(states[k], pages[i], images),
    decreases k,
{
    assert(stamp_step(states[i], states[i + 1], pages[i], images, ops[i]));
    if k > i + 1 {
        let m = k - 1;
        lemma_listed_from(states, pages, images, ops, i, m);
        assert(resolve_dict(states[0], pages[i]) is Some);
        assert(resolve_dict(states[0], pages[m]) is Some);
        lemma_kept_from(states, pages, images, ops, 0, m);
        lemma_kept_resolve(states[0], states[m], contents_key(), page_targets(states[0], pages, 0, m), pages[i]);
        lemma_kept_resolve(states[0], states[m], contents_key(), page_targets(states[0], pages, 0, m), pages[m]);
        assert(page_target(states[0], pages[i]) != page_target(states[0], pages[m]));
        assert(stamp_step(states[m], states[m + 1], pages[m], images, ops[m]));
        lemma_listed_after_step(states[m], states[k], pages[i], pages[m], images, ops[m]);
    }
}

/// Stamping pages one after another, where no two of the pages are the same
/// dictionary: at the end, the resources of every one of them still list all
/// the images.
pub proof fn lemma_pages_listed(
    states: Seq<Map<ObjectId, PdfObject>>,
    pages: Seq<ObjectId>,
    images: Seq<ObjectId>,
    ops: Seq<Seq<Seq<u8>>>,
)
    requires
        stamped_in_turn(states, pages, images, ops),
        forall|i: int, j: int|
            0 <= i < j < pages.len() ==> #[trigger] page_target(states[0], pages[i]) != #[trigger] page_target(
                states[0],
                pages[j],
            ),
    ensures
        forall|i: int| 0 <= i < pages.len() ==> #[trigger] images_listed(states[pages.len() as int], pages[i], images),
{
    assert forall|i: int| 0 <= i < pages.len() implies #[trigger] images_listed(
        states[pages.len() as int],
        pages[i],
        images,
    ) by {
        lemma_listed_from(states, pages, images, ops, i, pages.len() as int);
    }
}

/// Stamping pages one after another leaves every page that is not one of them
/// (stored apart from all of them) with the `Contents` entry it had.
pub proof fn lemma_other_pages_kept(
    states: Seq<Map<ObjectId, PdfObject>>,
    pages: Seq<ObjectId>,
    images: Seq<ObjectId>,
    ops: Seq<Seq<Seq<u8>>>,
    other: ObjectId,
)
    requires
        stamped_in_turn(states, pages, images, ops),
        resolve_dict(states[0], other) is Some,
        forall|i: int| 0 <= i < pages.len() ==> page_target(states[0], other) != #[trigger] page_target(states[0], pages[i]),
    ensures
        resolve_dict(states[pages.len() as int], other) matches Some(d) && dict_get(d, contents_key())
            == dict_get(resolve_dict(states[0], other).unwrap(), contents_key()),
{
    let n: int = pages.len() as int;
    lemma_kept_from(states, pages, images, ops, 0, n);
    let all = page_targets(states[0], pages, 0, n);
    if all.contains(page_target(states[0], other)) {
        let k = choose|k: int| 0 <= k < n && page_target(states[0], other) == #[trigger] page_target(states[0], pages[k]);
        assert(page_target(states[0], other) != page_target(states[0], pages[k]));
    }
    lemma_kept_resolve(states[0], states[n], contents_key(), all, other);
    crate::object::lemma_follow_result(states[0], other, 0);
}

} // verus!
