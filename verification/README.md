# watermark

Stamps text watermarks onto the pages of a PDF (every page but the first and the
last), previews single pages, and hands PDF files to a front end as base64.

The library in `src/` is verified with Verus:

- `object.rs` models lopdf's object graph (`PdfObject`), how references are
  followed, and what setting a dictionary entry does.
- `document.rs` holds every call into lopdf, each with the contract that the
  rest of the library relies on.
- `page.rs` loads a document, refuses encrypted ones, finds the box a viewer
  shows for a page (the nearest `CropBox` on the page or up its page tree, else
  the nearest `MediaBox`), and finds inherited page attributes.
- `preview.rs` cuts one page out of a document for the preview, carrying the
  `Resources` and `Rotate` that the page inherits.
- `layout.rs` splits a text into lines and assigns glyphs to lines.
- `raster.rs` composes rasterized glyphs into an RGB image with an alpha plane.
- `watermark.rs` stores the images, gives a page resources of its own (copying
  the ones it inherits), lists the images there under names the page does not
  use yet, and appends the operators that draw them to the page's content; it
  also states what stamping several pages in turn leaves behind.
- `encoding.rs` is the base64 encoding of a file.

`app/` holds the commands the front end calls: file access, the serde types,
font rasterization with fontdue, and the floating-point parts (page sizes,
positions, alignment shifts).
