use base64::Engine;
use lopdf::{Dictionary, Document, Object, Stream};
use watermark::document::err;
use watermark::encoding::{encoded_len_fits, pdf_bytes_b64};
use watermark::object::{ObjectId, PdfObject, PdfReal};
use watermark::page::{document_page_list, load, mediabox, reject_encrypted};
use watermark::preview::{encode_saved, encoded_document, isolate_page, locate_page};
use watermark::raster::{compose_stamp, GlyphBitmap};
use watermark::watermark::{
    add_stamp_images, append_page_content, attach_image, check_request, ensure_resources,
    image_entry_name, parse_align, stamp_page, stamp_pages, watermark_pages, Align,
};

fn media_box(w: i64, h: i64) -> Object {
    Object::Array(vec![
        Object::Integer(0),
        Object::Integer(0),
        Object::Integer(w),
        Object::Integer(h),
    ])
}

/// A document of `n_pages` pages of 612 x 792 points, the box on the page tree node.
fn make_pdf(n_pages: u32) -> Vec<u8> {
    let mut doc = Document::with_version("1.5");
    let pages_id = doc.add_object(Object::Dictionary({
        let mut d = Dictionary::new();
        d.set("Type", Object::Name(b"Pages".to_vec()));
        d.set("Count", Object::Integer(n_pages as i64));
        d.set("MediaBox", media_box(612, 792));
        d
    }));
    let mut kids = Vec::new();
    for i in 0..n_pages {
        let content_id = doc.add_object(Object::Stream(Stream::new(
            Dictionary::new(),
            format!("BT /F1 12 Tf 72 72 Td (page {i}) Tj ET").into_bytes(),
        )));
        let page_id = doc.add_object(Object::Dictionary({
            let mut d = Dictionary::new();
            d.set("Type", Object::Name(b"Page".to_vec()));
            d.set("Parent", Object::Reference(pages_id));
            d.set("Contents", Object::Reference(content_id));
            d
        }));
        kids.push(Object::Reference(page_id));
    }
    doc.get_object_mut(pages_id)
        .unwrap()
        .as_dict_mut()
        .unwrap()
        .set("Kids", Object::Array(kids));
    let catalog_id = doc.add_object(Object::Dictionary({
        let mut d = Dictionary::new();
        d.set("Type", Object::Name(b"Catalog".to_vec()));
        d.set("Pages", Object::Reference(pages_id));
        d
    }));
    doc.trailer.set("Root", Object::Reference(catalog_id));
    let mut out = Vec::new();
    doc.save_to(&mut out).unwrap();
    out
}

/// A two-page document whose pages carry boxes of different sizes.
fn make_mixed_pdf() -> Vec<u8> {
    let mut doc = Document::with_version("1.5");
    let pages_id = doc.add_object(Object::Dictionary({
        let mut d = Dictionary::new();
        d.set("Type", Object::Name(b"Pages".to_vec()));
        d.set("Count", Object::Integer(2));
        d
    }));
    let mut kids = Vec::new();
    for (w, h) in [(612, 792), (300, 400)] {
        let content_id = doc.add_object(Object::Stream(Stream::new(
            Dictionary::new(),
            b"1 0 0 1".to_vec(),
        )));
        let page_id = doc.add_object(Object::Dictionary({
            let mut d = Dictionary::new();
            d.set("Type", Object::Name(b"Page".to_vec()));
            d.set("Parent", Object::Reference(pages_id));
            d.set("MediaBox", media_box(w, h));
            d.set("Contents", Object::Reference(content_id));
            d
        }));
        kids.push(Object::Reference(page_id));
    }
    doc.get_object_mut(pages_id)
        .unwrap()
        .as_dict_mut()
        .unwrap()
        .set("Kids", Object::Array(kids));
    let catalog_id = doc.add_object(Object::Dictionary({
        let mut d = Dictionary::new();
        d.set("Type", Object::Name(b"Catalog".to_vec()));
        d.set("Pages", Object::Reference(pages_id));
        d
    }));
    doc.trailer.set("Root", Object::Reference(catalog_id));
    let mut out = Vec::new();
    doc.save_to(&mut out).unwrap();
    out
}

/// The number a box entry stands for, as the front end computes it.
fn number(o: &PdfObject) -> f64 {
    match o {
        PdfObject::Integer(i) => *i as f32 as f64,
        PdfObject::Real(r) => r.to_object().as_float().unwrap() as f64,
        _ => panic!("not a number"),
    }
}

fn box_size(b: &[PdfObject]) -> (f64, f64) {
    (
        (number(&b[2]) - number(&b[0])).abs(),
        (number(&b[3]) - number(&b[1])).abs(),
    )
}

/// The box as reals, as the preview stores it.
fn real_box(b: Vec<PdfObject>) -> Vec<PdfObject> {
    b.iter()
        .map(|o| PdfObject::Real(PdfReal::from_object(Object::Real(number(o) as f32)).unwrap()))
        .collect()
}

/// A glyph of `w` by `h` pixels, all fully covered.
fn solid_glyph(left: i32, bottom: i32, w: usize, h: usize) -> GlyphBitmap {
    GlyphBitmap {
        left,
        bottom,
        width: w,
        height: h,
        coverage: vec![255; w * h],
    }
}

/// Stamps every page but the first and the last with one image per text, each
/// placed as the application places it.
fn watermark_all(bytes: &[u8], texts: usize) -> Vec<u8> {
    let mut doc = load(bytes).unwrap();
    let pages = document_page_list(&doc).unwrap();
    check_request(pages.len(), texts).unwrap();
    let mut images = Vec::new();
    for t in 0..texts {
        let glyphs = vec![solid_glyph(0, 0, 4 + t, 3)];
        let stamp = compose_stamp(&glyphs, 255, 0, 0, 128).unwrap();
        images.push(add_stamp_images(&mut doc, stamp).unwrap());
    }
    let mut page_ops = Vec::new();
    for page in watermark_pages(&pages) {
        let b = mediabox(&doc, page).unwrap();
        let (w, h) = box_size(&b);
        let mut placements = Vec::new();
        for _ in 0..texts {
            placements.push(format!("\nq 10 0 0 5 {} {} cm ", w / 2.0, h / 2.0).into_bytes());
        }
        page_ops.push(placements);
    }
    stamp_pages(&mut doc, &pages, &images, &page_ops).unwrap();
    let mut out = Vec::new();
    doc.save_to(&mut out).unwrap();
    out
}

#[test]
fn test_load_pdf() {
    let bytes = make_pdf(4);
    let doc = load(&bytes).unwrap();
    let pages = document_page_list(&doc).unwrap();
    assert_eq!(pages.len(), 4);
    for page in &pages {
        let b = mediabox(&doc, *page).unwrap();
        assert_eq!(b.len(), 4);
        let (w, h) = box_size(&b);
        assert_eq!(w, 612.0);
        assert_eq!(h, 792.0);
    }
}

#[test]
fn mediabox_differs_between_pages_of_mixed_sizes() {
    let doc = load(&make_mixed_pdf()).unwrap();
    let pages = document_page_list(&doc).unwrap();
    assert_eq!(pages.len(), 2);
    let first = box_size(&mediabox(&doc, pages[0]).unwrap());
    let second = box_size(&mediabox(&doc, pages[1]).unwrap());
    assert_eq!(first, (612.0, 792.0));
    assert_eq!(second, (300.0, 400.0));
}

#[test]
fn test_preview_pdf_single_page() {
    let mut doc = load(&make_pdf(4)).unwrap();
    let page = locate_page(&doc, 1).unwrap();
    let b = real_box(mediabox(&doc, page).unwrap());
    isolate_page(&mut doc, page, b).unwrap();
    let b64 = encoded_document(&mut doc).unwrap();
    let bytes = base64::engine::general_purpose::STANDARD
        .decode(b64)
        .unwrap();
    let doc = Document::load_mem(&bytes).unwrap();
    assert_eq!(doc.get_pages().len(), 1);
}

#[test]
fn preview_keeps_the_chosen_page() {
    let mut doc = load(&make_pdf(4)).unwrap();
    let page = locate_page(&doc, 3).unwrap();
    let b = real_box(mediabox(&doc, page).unwrap());
    isolate_page(&mut doc, page, b).unwrap();
    let b64 = encoded_document(&mut doc).unwrap();
    let bytes = base64::engine::general_purpose::STANDARD
        .decode(b64)
        .unwrap();
    let doc = Document::load_mem(&bytes).unwrap();
    let pages = doc.get_pages();
    let only = pages[&1];
    let content = String::from_utf8_lossy(&doc.get_page_content(only)).into_owned();
    assert!(content.contains("(page 2)"));
    let dict = doc.get_dictionary(only).unwrap();
    let parent = dict.get(b"Parent").unwrap().as_reference().unwrap();
    let node = doc.get_dictionary(parent).unwrap();
    assert_eq!(node.get(b"Count").unwrap().as_i64().unwrap(), 1);
    let mb = node.get(b"MediaBox").unwrap().as_array().unwrap();
    assert_eq!(mb[2].as_float().unwrap(), 612.0);
    assert_eq!(mb[3].as_float().unwrap(), 792.0);
}

#[test]
fn locate_page_out_of_range() {
    let doc = load(&make_pdf(4)).unwrap();
    assert_eq!(locate_page(&doc, 0), Err("page 0 out of range".to_string()));
    assert_eq!(locate_page(&doc, 5), Err("page 5 out of range".to_string()));
    assert_eq!(locate_page(&doc, 123), Err("page 123 out of range".to_string()));
    let pages = document_page_list(&doc).unwrap();
    assert_eq!(locate_page(&doc, 4), Ok(pages[3]));
}

#[test]
fn test_apply_watermark_skips_first_and_last() {
    let out = watermark_all(&make_pdf(4), 1);
    let doc = Document::load_mem(&out).unwrap();
    let pages = doc.get_pages();
    assert_eq!(pages.len(), 4);
    for (n, id) in &pages {
        let content = doc.get_page_content(*id);
        let content = String::from_utf8_lossy(&content);
        let has_wm = content.contains("/Im0 Do");
        assert_eq!(has_wm, n > &1 && n < &4, "page {n} watermark wrong");
    }
}

#[test]
fn test_apply_watermark_multiple_texts() {
    let out = watermark_all(&make_pdf(4), 2);
    let doc = Document::load_mem(&out).unwrap();
    let pages = doc.get_pages();
    for (n, id) in &pages {
        let content = String::from_utf8_lossy(&doc.get_page_content(*id)).into_owned();
        let stamped = content.contains("/Im0 Do") && content.contains("/Im1 Do");
        assert_eq!(stamped, n > &1 && n < &4, "page {n} watermarks wrong");
    }
}

#[test]
fn watermarked_pages_list_the_images_in_their_resources() {
    let out = watermark_all(&make_pdf(5), 2);
    let doc = Document::load_mem(&out).unwrap();
    for (n, id) in doc.get_pages() {
        let page = doc.get_dictionary(id).unwrap();
        let listed = match page.get(b"Resources") {
            Ok(Object::Reference(r)) => {
                let res = doc.get_dictionary(*r).unwrap();
                let xo = res.get(b"XObject").unwrap().as_reference().unwrap();
                let xo = doc.get_dictionary(xo).unwrap();
                xo.has(b"Im0") && xo.has(b"Im1")
            }
            _ => false,
        };
        assert_eq!(listed, n > 1 && n < 5, "page {n}");
    }
}

#[test]
fn watermark_needs_three_pages_and_a_text() {
    assert_eq!(
        check_request(2, 1),
        Err("PDF needs at least 3 pages (first and last are skipped)".to_string())
    );
    assert_eq!(
        check_request(0, 0),
        Err("PDF needs at least 3 pages (first and last are skipped)".to_string())
    );
    assert_eq!(check_request(3, 0), Err("no watermark texts provided".to_string()));
    assert_eq!(check_request(3, 1), Ok(()));
}

#[test]
fn watermark_pages_are_all_but_first_and_last() {
    let ids: Vec<ObjectId> = (1..=5).map(|i| (i, 0)).collect();
    assert_eq!(watermark_pages(&ids), vec![(2, 0), (3, 0), (4, 0)]);
    assert_eq!(watermark_pages(&ids[..2].to_vec()), Vec::<ObjectId>::new());
    assert_eq!(watermark_pages(&ids[..1].to_vec()), Vec::<ObjectId>::new());
    assert_eq!(watermark_pages(&Vec::new()), Vec::<ObjectId>::new());
    assert_eq!(watermark_pages(&ids[..3].to_vec()), vec![(2, 0)]);
}

#[test]
fn align_is_read_from_the_text_item() {
    assert!(parse_align(&Some("left".to_string())) == Align::Left);
    assert!(parse_align(&Some("right".to_string())) == Align::Right);
    assert!(parse_align(&Some("center".to_string())) == Align::Center);
    assert!(parse_align(&Some("Left".to_string())) == Align::Center);
    assert!(parse_align(&None) == Align::Center);
}

#[test]
fn image_names_are_im_and_the_index() {
    assert_eq!(image_entry_name(0, 0), b"Im0".to_vec());
    assert_eq!(image_entry_name(0, 7), b"Im7".to_vec());
    assert_eq!(image_entry_name(0, 10), b"Im10".to_vec());
    assert_eq!(image_entry_name(0, 305), b"Im305".to_vec());
    assert_eq!(image_entry_name(3, 1), b"___Im1".to_vec());
}

#[test]
fn compose_places_glyphs_in_the_ink_box() {
    // Two glyphs side by side; the second sits one pixel higher.
    let glyphs = vec![
        GlyphBitmap {
            left: 0,
            bottom: 0,
            width: 2,
            height: 2,
            coverage: vec![255, 0, 0, 255],
        },
        GlyphBitmap {
            left: 3,
            bottom: 1,
            width: 1,
            height: 1,
            coverage: vec![51],
        },
    ];
    let s = compose_stamp(&glyphs, 10, 20, 30, 200).unwrap();
    assert_eq!((s.w, s.h), (4, 2));
    // Row 0 is the top of the ink: the first glyph's first row, and the second glyph.
    assert_eq!(s.alpha, vec![200, 0, 0, 40, 0, 200, 0, 0]);
    assert_eq!(&s.rgb[0..3], &[10, 20, 30]);
    assert_eq!(&s.rgb[3..6], &[0, 0, 0]);
    assert_eq!(&s.rgb[9..12], &[10, 20, 30]);
    assert_eq!(&s.rgb[15..18], &[10, 20, 30]);
}

#[test]
fn compose_draws_later_glyphs_over_earlier_ones() {
    let glyphs = vec![solid_glyph(0, 0, 2, 1), GlyphBitmap {
        left: 1,
        bottom: 0,
        width: 1,
        height: 1,
        coverage: vec![102],
    }];
    let s = compose_stamp(&glyphs, 1, 2, 3, 255).unwrap();
    assert_eq!((s.w, s.h), (2, 1));
    assert_eq!(s.alpha, vec![255, 102]);
    assert_eq!(s.rgb, vec![1, 2, 3, 1, 2, 3]);
}

#[test]
fn compose_is_the_same_wherever_the_text_sits() {
    let at = |dx: i32, dy: i32| {
        vec![
            GlyphBitmap {
                left: 0 + dx,
                bottom: -2 + dy,
                width: 3,
                height: 2,
                coverage: vec![1, 2, 3, 4, 5, 6],
            },
            GlyphBitmap {
                left: 4 + dx,
                bottom: 0 + dy,
                width: 1,
                height: 3,
                coverage: vec![7, 8, 9],
            },
        ]
    };
    let a = compose_stamp(&at(0, 0), 9, 8, 7, 255).unwrap();
    let b = compose_stamp(&at(-40, 13), 9, 8, 7, 255).unwrap();
    assert_eq!((a.w, a.h), (b.w, b.h));
    assert_eq!(a.alpha, b.alpha);
    assert_eq!(a.rgb, b.rgb);
}

#[test]
fn compose_refuses_an_empty_or_oversized_ink_box() {
    let msg = Err("watermark text rasterized to an invalid bitmap".to_string());
    let blank = vec![solid_glyph(5, 5, 0, 0)];
    assert_eq!(compose_stamp(&blank, 0, 0, 0, 255).map(|s| s.w), msg);
    let wide = vec![solid_glyph(0, 0, 1, 1), solid_glyph(16000, 0, 1, 1)];
    assert_eq!(compose_stamp(&wide, 0, 0, 0, 255).map(|s| s.w), msg);
    let widest_allowed = vec![solid_glyph(0, 0, 1, 1), solid_glyph(15999, 0, 1, 1)];
    assert_eq!(compose_stamp(&widest_allowed, 0, 0, 0, 255).map(|s| s.w), Ok(16000));
}

/// A one-page document whose page is `page`, its tree node `node`.
fn single_page_doc(page: Dictionary, node: Dictionary) -> (Document, ObjectId) {
    let mut doc = Document::with_version("1.5");
    let node_id = doc.add_object(Object::Dictionary(node));
    let mut page = page;
    page.set("Type", Object::Name(b"Page".to_vec()));
    page.set("Parent", Object::Reference(node_id));
    let page_id = doc.add_object(Object::Dictionary(page));
    let n = doc.get_dictionary_mut(node_id).unwrap();
    n.set("Type", Object::Name(b"Pages".to_vec()));
    n.set("Kids", Object::Array(vec![Object::Reference(page_id)]));
    n.set("Count", Object::Integer(1));
    let catalog = doc.add_object(Object::Dictionary({
        let mut d = Dictionary::new();
        d.set("Type", Object::Name(b"Catalog".to_vec()));
        d.set("Pages", Object::Reference(node_id));
        d
    }));
    doc.trailer.set("Root", Object::Reference(catalog));
    (doc, page_id)
}

#[test]
fn mediabox_prefers_the_crop_box() {
    let mut page = Dictionary::new();
    page.set("MediaBox", media_box(612, 792));
    page.set(
        "CropBox",
        Object::Array(vec![
            Object::Real(10.5),
            Object::Integer(20),
            Object::Integer(500),
            Object::Integer(700),
        ]),
    );
    let (doc, page_id) = single_page_doc(page, Dictionary::new());
    let b = mediabox(&doc, page_id).unwrap();
    assert_eq!(number(&b[0]), 10.5);
    assert_eq!(box_size(&b), (489.5, 680.0));
}

#[test]
fn mediabox_skips_an_unusable_crop_box_and_inherits() {
    let mut page = Dictionary::new();
    page.set("CropBox", Object::Array(vec![Object::Integer(0), Object::Integer(0)]));
    let mut node = Dictionary::new();
    node.set("MediaBox", media_box(100, 200));
    let (doc, page_id) = single_page_doc(page, node);
    let b = mediabox(&doc, page_id).unwrap();
    assert_eq!(box_size(&b), (100.0, 200.0));
}

#[test]
fn mediabox_fails_without_a_box_or_parent() {
    let (mut doc, page_id) = single_page_doc(Dictionary::new(), Dictionary::new());
    // The tree node has no box and no parent.
    assert!(mediabox(&doc, page_id).is_err());
    // A chain of 20 nodes, each the parent of the one before: the search gives up.
    let mut child = page_id;
    for _ in 0..20 {
        let parent = doc.add_object(Object::Dictionary(Dictionary::new()));
        doc.get_dictionary_mut(child)
            .unwrap()
            .set("Parent", Object::Reference(parent));
        child = parent;
    }
    doc.get_dictionary_mut(child)
        .unwrap()
        .set("MediaBox", media_box(1, 1));
    assert_eq!(
        mediabox(&doc, page_id).err(),
        Some("no MediaBox found in page tree".to_string())
    );
}

#[test]
fn mediabox_error_names_the_missing_parent() {
    let (doc, page_id) = single_page_doc(Dictionary::new(), Dictionary::new());
    let e = mediabox(&doc, page_id).err().unwrap();
    assert_eq!(e, err(lopdf::Error::DictKey("Parent".to_string())));
}

#[test]
fn encrypted_documents_are_refused() {
    let (mut doc, _) = single_page_doc(Dictionary::new(), Dictionary::new());
    let enc = doc.add_object(Object::Dictionary(Dictionary::new()));
    doc.trailer.set("Encrypt", Object::Reference(enc));
    assert_eq!(reject_encrypted(doc).err(), Some("PDF is encrypted".to_string()));
    let (plain, _) = single_page_doc(Dictionary::new(), Dictionary::new());
    assert!(reject_encrypted(plain).is_ok());
}

#[test]
fn unreadable_bytes_are_refused() {
    assert!(load(b"not a pdf").is_err());
    assert!(load(b"").is_err());
}

#[test]
fn documents_without_pages_are_refused() {
    let mut doc = Document::with_version("1.5");
    let catalog = doc.add_object(Object::Dictionary(Dictionary::new()));
    doc.trailer.set("Root", Object::Reference(catalog));
    assert_eq!(document_page_list(&doc), Err("PDF has no pages".to_string()));
}

#[test]
fn resources_by_reference_are_kept() {
    let (mut doc, page_id) = single_page_doc(Dictionary::new(), Dictionary::new());
    let res = doc.add_object(Object::Dictionary(Dictionary::new()));
    doc.get_dictionary_mut(page_id)
        .unwrap()
        .set("Resources", Object::Reference(res));
    let before = doc.objects.len();
    assert_eq!(ensure_resources(&mut doc, page_id), Ok(res));
    assert_eq!(doc.objects.len(), before);
}

#[test]
fn written_in_resources_become_an_object() {
    let mut inner = Dictionary::new();
    inner.set("ProcSet", Object::Array(vec![Object::Name(b"PDF".to_vec())]));
    let mut page = Dictionary::new();
    page.set("Resources", Object::Dictionary(inner.clone()));
    let (mut doc, page_id) = single_page_doc(page, Dictionary::new());
    let res = ensure_resources(&mut doc, page_id).unwrap();
    assert_eq!(doc.get_dictionary(res).unwrap(), &inner);
    let page = doc.get_dictionary(page_id).unwrap();
    assert_eq!(page.get(b"Resources").unwrap().as_reference().unwrap(), res);
}

#[test]
fn missing_resources_are_created_empty() {
    let (mut doc, page_id) = single_page_doc(Dictionary::new(), Dictionary::new());
    let res = ensure_resources(&mut doc, page_id).unwrap();
    assert_eq!(doc.get_dictionary(res).unwrap().len(), 0);
    let page = doc.get_dictionary(page_id).unwrap();
    assert_eq!(page.get(b"Resources").unwrap().as_reference().unwrap(), res);
}

#[test]
fn resources_of_a_non_dictionary_are_refused() {
    let mut doc = Document::with_version("1.5");
    let id = doc.add_object(Object::Integer(3));
    assert_eq!(ensure_resources(&mut doc, id), Err("page not a dictionary".to_string()));
    assert_eq!(
        attach_image(&mut doc, id, 0, 0, (1, 0)),
        Err("resources not a dictionary".to_string())
    );
    assert!(ensure_resources(&mut doc, (99, 0)).is_err());
}

#[test]
fn attach_image_lists_it_under_its_name() {
    let (mut doc, page_id) = single_page_doc(Dictionary::new(), Dictionary::new());
    let res = ensure_resources(&mut doc, page_id).unwrap();
    attach_image(&mut doc, res, 0, 0, (77, 0)).unwrap();
    attach_image(&mut doc, res, 0, 12, (78, 0)).unwrap();
    attach_image(&mut doc, res, 2, 3, (79, 0)).unwrap();
    let xo = doc
        .get_dictionary(res)
        .unwrap()
        .get(b"XObject")
        .unwrap()
        .as_reference()
        .unwrap();
    let xo = doc.get_dictionary(xo).unwrap();
    assert_eq!(xo.get(b"Im0").unwrap().as_reference().unwrap(), (77, 0));
    assert_eq!(xo.get(b"Im12").unwrap().as_reference().unwrap(), (78, 0));
    assert_eq!(xo.get(b"__Im3").unwrap().as_reference().unwrap(), (79, 0));
}

#[test]
fn append_page_content_adds_a_stream() {
    let (mut doc, page_id) = single_page_doc(Dictionary::new(), Dictionary::new());
    append_page_content(&mut doc, page_id, b"first".to_vec()).unwrap();
    append_page_content(&mut doc, page_id, b"second".to_vec()).unwrap();
    let list = doc
        .get_dictionary(page_id)
        .unwrap()
        .get(b"Contents")
        .unwrap()
        .as_array()
        .unwrap()
        .clone();
    assert_eq!(list.len(), 2);
    let last = doc.get_object(list[1].as_reference().unwrap()).unwrap();
    let s = last.as_stream().unwrap();
    assert_eq!(s.content, b"second".to_vec());
    assert_eq!(s.dict.get(b"Length").unwrap().as_i64().unwrap(), 6);
}

#[test]
fn stamp_images_are_an_rgb_image_with_a_grey_mask() {
    let (mut doc, _) = single_page_doc(Dictionary::new(), Dictionary::new());
    let stamp = compose_stamp(&vec![solid_glyph(0, 0, 3, 2)], 1, 2, 3, 4).unwrap();
    let image = add_stamp_images(&mut doc, stamp).unwrap();
    let image = doc.get_object(image).unwrap().as_stream().unwrap();
    assert_eq!(image.dict.get(b"Width").unwrap().as_i64().unwrap(), 3);
    assert_eq!(image.dict.get(b"Height").unwrap().as_i64().unwrap(), 2);
    assert_eq!(image.dict.get(b"ColorSpace").unwrap().as_name().unwrap(), b"DeviceRGB");
    assert_eq!(image.content, vec![1, 2, 3, 1, 2, 3, 1, 2, 3, 1, 2, 3, 1, 2, 3, 1, 2, 3]);
    let mask = image.dict.get(b"SMask").unwrap().as_reference().unwrap();
    let mask = doc.get_object(mask).unwrap().as_stream().unwrap();
    assert_eq!(mask.dict.get(b"ColorSpace").unwrap().as_name().unwrap(), b"DeviceGray");
    assert_eq!(mask.content, vec![4; 6]);
}

#[test]
fn base64_of_the_file() {
    assert_eq!(pdf_bytes_b64(b"Man"), "TWFu");
    assert_eq!(pdf_bytes_b64(b"Ma"), "TWE=");
    assert_eq!(pdf_bytes_b64(b""), "");
    assert_eq!(pdf_bytes_b64(&[0xff, 0xfe, 0x00, 0x01]), "//4AAQ==");
}

#[test]
fn error_text_is_the_display_text() {
    assert_eq!(err("page not a dictionary"), "page not a dictionary");
    assert_eq!(
        err(lopdf::Error::ObjectNotFound((4, 0))),
        "object ID 4 0 not found"
    );
}

#[test]
fn stamp_page_refuses_what_is_no_page_dictionary() {
    let mut doc = Document::with_version("1.5");
    let id = doc.add_object(Object::Integer(3));
    assert!(stamp_page(&mut doc, id, &vec![(1, 0)], &vec![b"q ".to_vec()]).is_err());
    assert!(stamp_page(&mut doc, id, &vec![], &vec![]).is_err());
    assert!(stamp_page(&mut doc, (99, 0), &vec![], &vec![]).is_err());
}

#[test]
fn stamp_page_keeps_the_xobjects_written_into_the_resources() {
    let mut xobjects = Dictionary::new();
    xobjects.set("Logo", Object::Reference((50, 0)));
    let mut resources = Dictionary::new();
    resources.set("XObject", Object::Dictionary(xobjects));
    let mut page = Dictionary::new();
    page.set("Resources", Object::Dictionary(resources));
    let (mut doc, page_id) = single_page_doc(page, Dictionary::new());
    let placements = vec![b"\nq 1 0 0 1 2 3 cm ".to_vec(), b"\nq 4 0 0 5 6 7 cm ".to_vec()];
    stamp_page(&mut doc, page_id, &vec![(77, 0), (78, 0)], &placements).unwrap();
    let page = doc.get_dictionary(page_id).unwrap();
    let res = page.get(b"Resources").unwrap().as_reference().unwrap();
    let xo = doc
        .get_dictionary(res)
        .unwrap()
        .get(b"XObject")
        .unwrap()
        .as_reference()
        .unwrap();
    let xo = doc.get_dictionary(xo).unwrap();
    assert_eq!(xo.get(b"Logo").unwrap().as_reference().unwrap(), (50, 0));
    assert_eq!(xo.get(b"Im0").unwrap().as_reference().unwrap(), (77, 0));
    assert_eq!(xo.get(b"Im1").unwrap().as_reference().unwrap(), (78, 0));
    let list = page.get(b"Contents").unwrap().as_array().unwrap();
    let last = doc.get_object(list[list.len() - 1].as_reference().unwrap()).unwrap();
    assert_eq!(
        last.as_stream().unwrap().content,
        b"\nq 1 0 0 1 2 3 cm /Im0 Do Q\n\nq 4 0 0 5 6 7 cm /Im1 Do Q\n".to_vec()
    );
}

#[test]
fn stamp_page_without_images_only_appends_the_operators() {
    let (mut doc, page_id) = single_page_doc(Dictionary::new(), Dictionary::new());
    stamp_page(&mut doc, page_id, &vec![], &vec![]).unwrap();
    let page = doc.get_dictionary(page_id).unwrap();
    assert!(page.get(b"Resources").is_err());
    let list = page.get(b"Contents").unwrap().as_array().unwrap();
    assert_eq!(list.len(), 1);
}

#[test]
fn the_first_and_last_pages_keep_their_content() {
    let source = load(&make_pdf(4)).unwrap();
    let before: Vec<Object> = document_page_list(&source)
        .unwrap()
        .iter()
        .map(|p| source.get_dictionary(*p).unwrap().get(b"Contents").unwrap().clone())
        .collect();
    let out = watermark_all(&make_pdf(4), 1);
    let doc = load(&out).unwrap();
    let pages = document_page_list(&doc).unwrap();
    let first = doc.get_dictionary(pages[0]).unwrap().get(b"Contents").unwrap();
    let last = doc.get_dictionary(pages[3]).unwrap().get(b"Contents").unwrap();
    assert_eq!(first, &before[0]);
    assert_eq!(last, &before[3]);
    for middle in &pages[1..3] {
        let list = doc.get_dictionary(*middle).unwrap().get(b"Contents").unwrap();
        assert_eq!(list.as_array().unwrap().len(), 2);
    }
}

#[test]
fn the_encoded_length_must_fit_in_usize() {
    assert!(encoded_len_fits(0));
    assert!(encoded_len_fits(4));
    assert!(encoded_len_fits(usize::MAX / 4 * 3));
    assert!(!encoded_len_fits(usize::MAX / 4 * 3 + 1));
    assert!(!encoded_len_fits(usize::MAX));
}

#[test]
fn isolate_page_refuses_a_page_or_catalog_that_is_no_dictionary() {
    let (mut doc, _) = single_page_doc(Dictionary::new(), Dictionary::new());
    let not_a_page = doc.add_object(Object::Integer(7));
    assert_eq!(
        isolate_page(&mut doc, not_a_page, vec![]),
        Err("page object is not a dictionary".to_string())
    );

    let (mut doc, page_id) = single_page_doc(Dictionary::new(), Dictionary::new());
    let not_a_catalog = doc.add_object(Object::Integer(7));
    doc.trailer.set("Root", Object::Reference(not_a_catalog));
    assert_eq!(
        isolate_page(&mut doc, page_id, vec![]),
        Err("catalog is not a dictionary".to_string())
    );

    let (mut doc, page_id) = single_page_doc(Dictionary::new(), Dictionary::new());
    doc.trailer.remove(b"Root");
    assert!(isolate_page(&mut doc, page_id, vec![]).is_err());
}

#[test]
fn a_saved_file_is_encoded_and_a_failed_save_passed_on() {
    assert_eq!(encode_saved(Ok(b"Man".to_vec())), Ok("TWFu".to_string()));
    assert_eq!(encode_saved(Ok(vec![])), Ok(String::new()));
    assert_eq!(
        encode_saved(Err("IO error".to_string())),
        Err("IO error".to_string())
    );
}

#[test]
fn stamp_page_does_not_replace_the_page_images() {
    let mut xobjects = Dictionary::new();
    xobjects.set("Im0", Object::Reference((50, 0)));
    let mut resources = Dictionary::new();
    resources.set("XObject", Object::Dictionary(xobjects));
    let mut page = Dictionary::new();
    page.set("Resources", Object::Dictionary(resources));
    let (mut doc, page_id) = single_page_doc(page, Dictionary::new());
    let placements = vec![b"\nq 1 0 0 1 0 0 cm ".to_vec(), b"\nq 2 0 0 2 0 0 cm ".to_vec()];
    stamp_page(&mut doc, page_id, &vec![(77, 0), (78, 0)], &placements).unwrap();
    let page = doc.get_dictionary(page_id).unwrap();
    let res = page.get(b"Resources").unwrap().as_reference().unwrap();
    let xo = doc.get_dictionary(res).unwrap().get(b"XObject").unwrap().as_reference().unwrap();
    let xo = doc.get_dictionary(xo).unwrap();
    assert_eq!(xo.get(b"Im0").unwrap().as_reference().unwrap(), (50, 0));
    assert_eq!(xo.get(b"___Im0").unwrap().as_reference().unwrap(), (77, 0));
    assert_eq!(xo.get(b"___Im1").unwrap().as_reference().unwrap(), (78, 0));
    let list = page.get(b"Contents").unwrap().as_array().unwrap();
    let last = doc.get_object(list[list.len() - 1].as_reference().unwrap()).unwrap();
    assert_eq!(
        last.as_stream().unwrap().content,
        b"\nq 1 0 0 1 0 0 cm /___Im0 Do Q\n\nq 2 0 0 2 0 0 cm /___Im1 Do Q\n".to_vec()
    );
}

#[test]
fn mediabox_prefers_an_inherited_crop_box() {
    let mut page = Dictionary::new();
    page.set("MediaBox", media_box(612, 792));
    let mut node = Dictionary::new();
    node.set(
        "CropBox",
        Object::Array(vec![
            Object::Integer(10),
            Object::Integer(20),
            Object::Integer(500),
            Object::Integer(700),
        ]),
    );
    let (doc, page_id) = single_page_doc(page, node);
    let b = mediabox(&doc, page_id).unwrap();
    assert_eq!(number(&b[0]), 10.0);
    assert_eq!(box_size(&b), (490.0, 680.0));
}

#[test]
fn mediabox_takes_the_page_media_box_where_no_crop_box_is_inherited() {
    let mut page = Dictionary::new();
    page.set("MediaBox", media_box(300, 400));
    let mut node = Dictionary::new();
    node.set("MediaBox", media_box(612, 792));
    let (doc, page_id) = single_page_doc(page, node);
    let b = mediabox(&doc, page_id).unwrap();
    assert_eq!(box_size(&b), (300.0, 400.0));
}

#[test]
fn inherited_resources_are_copied_for_the_page() {
    let mut fonts = Dictionary::new();
    fonts.set("F1", Object::Reference((40, 0)));
    let mut inherited = Dictionary::new();
    inherited.set("Font", Object::Dictionary(fonts));
    let mut node = Dictionary::new();
    node.set("Resources", Object::Dictionary(inherited.clone()));
    let (mut doc, page_id) = single_page_doc(Dictionary::new(), node);
    let res = ensure_resources(&mut doc, page_id).unwrap();
    assert_eq!(doc.get_dictionary(res).unwrap(), &inherited);
    let page = doc.get_dictionary(page_id).unwrap();
    assert_eq!(page.get(b"Resources").unwrap().as_reference().unwrap(), res);
}

#[test]
fn inherited_resources_by_reference_are_copied_for_the_page() {
    let mut shared = Dictionary::new();
    shared.set("ProcSet", Object::Array(vec![Object::Name(b"PDF".to_vec())]));
    let (mut doc, page_id) = single_page_doc(Dictionary::new(), Dictionary::new());
    let shared_id = doc.add_object(Object::Dictionary(shared.clone()));
    let node = doc
        .get_dictionary(page_id)
        .unwrap()
        .get(b"Parent")
        .unwrap()
        .as_reference()
        .unwrap();
    doc.get_dictionary_mut(node)
        .unwrap()
        .set("Resources", Object::Reference(shared_id));
    let res = ensure_resources(&mut doc, page_id).unwrap();
    assert_ne!(res, shared_id);
    assert_eq!(doc.get_dictionary(res).unwrap(), &shared);
    // Stamping the page leaves the shared resources as they were.
    stamp_page(&mut doc, page_id, &vec![(77, 0)], &vec![b"q ".to_vec()]).unwrap();
    assert_eq!(doc.get_dictionary(shared_id).unwrap(), &shared);
}

#[test]
fn preview_node_carries_the_inherited_resources_and_rotation() {
    let mut inherited = Dictionary::new();
    inherited.set("Font", Object::Reference((40, 0)));
    let mut node = Dictionary::new();
    node.set("Resources", Object::Dictionary(inherited.clone()));
    node.set("Rotate", Object::Integer(90));
    node.set("MediaBox", media_box(612, 792));
    let (mut doc, page_id) = single_page_doc(Dictionary::new(), node);
    let b = real_box(mediabox(&doc, page_id).unwrap());
    isolate_page(&mut doc, page_id, b).unwrap();
    let parent = doc
        .get_dictionary(page_id)
        .unwrap()
        .get(b"Parent")
        .unwrap()
        .as_reference()
        .unwrap();
    let new_node = doc.get_dictionary(parent).unwrap();
    assert_eq!(new_node.get(b"Count").unwrap().as_i64().unwrap(), 1);
    assert_eq!(new_node.get(b"Rotate").unwrap().as_i64().unwrap(), 90);
    assert_eq!(new_node.get(b"Resources").unwrap().as_dict().unwrap(), &inherited);
}

#[test]
fn preview_node_has_no_attributes_the_page_lacks() {
    let (mut doc, page_id) = single_page_doc(Dictionary::new(), Dictionary::new());
    isolate_page(&mut doc, page_id, vec![]).unwrap();
    let parent = doc
        .get_dictionary(page_id)
        .unwrap()
        .get(b"Parent")
        .unwrap()
        .as_reference()
        .unwrap();
    let new_node = doc.get_dictionary(parent).unwrap();
    assert_eq!(new_node.len(), 4);
    assert!(new_node.get(b"Rotate").is_err());
    assert!(new_node.get(b"Resources").is_err());
}

/// Four pages whose tree node gives them shared resources, whose XObject
/// dictionary already lists an image under `Im0`.
fn shared_resources_doc() -> (Document, Vec<ObjectId>, ObjectId) {
    let mut doc = Document::with_version("1.5");
    let mut listed = Dictionary::new();
    listed.set("Im0", Object::Reference((50, 0)));
    let xo = doc.add_object(Object::Dictionary(listed));
    let mut shared = Dictionary::new();
    shared.set("XObject", Object::Reference(xo));
    let shared = doc.add_object(Object::Dictionary(shared));
    let node = doc.add_object(Object::Dictionary({
        let mut d = Dictionary::new();
        d.set("Type", Object::Name(b"Pages".to_vec()));
        d.set("Count", Object::Integer(4));
        d.set("MediaBox", media_box(612, 792));
        d.set("Resources", Object::Reference(shared));
        d
    }));
    let mut kids = Vec::new();
    let mut pages = Vec::new();
    for _ in 0..4 {
        let page = doc.add_object(Object::Dictionary({
            let mut d = Dictionary::new();
            d.set("Type", Object::Name(b"Page".to_vec()));
            d.set("Parent", Object::Reference(node));
            d
        }));
        kids.push(Object::Reference(page));
        pages.push(page);
    }
    doc.get_dictionary_mut(node).unwrap().set("Kids", Object::Array(kids));
    let catalog = doc.add_object(Object::Dictionary({
        let mut d = Dictionary::new();
        d.set("Type", Object::Name(b"Catalog".to_vec()));
        d.set("Pages", Object::Reference(node));
        d
    }));
    doc.trailer.set("Root", Object::Reference(catalog));
    (doc, pages, xo)
}

/// The name that the last content stream of the page draws, and what the page's
/// XObject dictionary lists under it.
fn drawn_image(doc: &Document, page: ObjectId) -> (Vec<u8>, ObjectId) {
    let dict = doc.get_dictionary(page).unwrap();
    let list = dict.get(b"Contents").unwrap().as_array().unwrap();
    let last = doc.get_object(list[list.len() - 1].as_reference().unwrap()).unwrap();
    let content = last.as_stream().unwrap().content.clone();
    let start = content.iter().position(|b| *b == b'/').unwrap() + 1;
    let end = content.len() - b" Do Q\n".len();
    let name = content[start..end].to_vec();
    let res = dict.get(b"Resources").unwrap().as_reference().unwrap();
    let xo = doc.get_dictionary(res).unwrap().get(b"XObject").unwrap().as_reference().unwrap();
    let image = doc.get_dictionary(xo).unwrap().get(&name).unwrap().as_reference().unwrap();
    (name, image)
}

#[test]
fn pages_sharing_an_xobject_dictionary_keep_their_stamps() {
    let (mut doc, pages, xo) = shared_resources_doc();
    let placements = vec![vec![b"q ".to_vec()], vec![b"q ".to_vec()]];
    stamp_pages(&mut doc, &pages, &vec![(77, 0)], &placements).unwrap();
    let (first_name, first_image) = drawn_image(&doc, pages[1]);
    let (second_name, second_image) = drawn_image(&doc, pages[2]);
    assert_eq!(first_name, b"___Im0".to_vec());
    assert_eq!(second_name, b"______Im0".to_vec());
    assert_eq!(first_image, (77, 0));
    assert_eq!(second_image, (77, 0));
    let listed = doc.get_dictionary(xo).unwrap();
    assert_eq!(listed.get(b"Im0").unwrap().as_reference().unwrap(), (50, 0));
    assert!(doc.get_dictionary(pages[0]).unwrap().get(b"Contents").is_err());
    assert!(doc.get_dictionary(pages[3]).unwrap().get(b"Contents").is_err());
}

#[test]
fn preview_node_takes_the_page_own_rotation_over_an_inherited_one() {
    let mut page = Dictionary::new();
    page.set("Rotate", Object::Integer(180));
    let mut node = Dictionary::new();
    node.set("Rotate", Object::Integer(90));
    let (mut doc, page_id) = single_page_doc(page, node);
    isolate_page(&mut doc, page_id, vec![]).unwrap();
    let page = doc.get_dictionary(page_id).unwrap();
    assert_eq!(page.get(b"Rotate").unwrap().as_i64().unwrap(), 180);
    let parent = page.get(b"Parent").unwrap().as_reference().unwrap();
    let new_node = doc.get_dictionary(parent).unwrap();
    assert_eq!(new_node.get(b"Rotate").unwrap().as_i64().unwrap(), 180);
    assert_eq!(new_node.len(), 5);
}
