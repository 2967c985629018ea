# pulpit-render

The rendering side of a presentation program: PDF documents and folders of
pictures behind one interface, bookmarks and signatures appended to documents,
overlays unpacked from bundles, and the messages between a supervisor and its
workers.

- `src/` is the library. Everything in it is verified with Verus: the contracts
  say what each function returns, over spec functions that say what a value is.
- `src/pdfread`, `src/pdfwrite`, `src/pdftext.rs`, `src/pdfoutline.rs`: reading
  objects and cross-references, and appending updates that leave every byte of
  the document in place and are read back as they were written, with a
  cross-reference table or stream (`src/pdfwrite/reopen`,
  `src/pdfwrite/readback`, `src/outlineread.rs`).
- `src/sign`: credentials, signatures, and the revision that carries one.
- `src/images`: pictures as pages — listing, order, decoding, caching, scaling.
- `src/pdf`: backends, routing, search, capabilities, overlays, and small
  documents made to order, which are read back too (`src/pdf/synthread.rs`).
- `src/protocol.rs`, `src/shm.rs`: messages and shared memory.
- `tests/` holds the tests, `app/` what touches files, processes and the drawing
  library.

Lengths that a document gives in fractions are held as integers: parts of a page
in millionths, sizes in thousandths of a point.
