# lightpolars

A headless HTML renderer that speaks a subset of the Chrome DevTools
Protocol, so that an existing Puppeteer client can produce PDFs and
screenshots without Chromium: no JavaScript engine, no navigation, no
network. Every resource in the HTML must be a `data:` URI.

The logic that can be stated over integers and text is a Verus library in
`src/`, each function proved against its contract:

- `session` — the DevTools session: open pages, the replies to the
  commands, print streams; with the laws that every command gets exactly one
  answer tagged with its session and that pages are found by the names they
  were opened under. `Page.getLayoutMetrics` alone is answered by `app/`:
  its result is the viewport's floating-point sizes.
- `streams`, `registry`, `layouts` — the stream store drained by
  `IO.read`, the keyed list the pages live in, and each page's cache of
  layouts by width.
- `svg`, `fonts`, `resource` — rewriting inline `<svg>` into `<img>`,
  collecting `@font-face` payloads, resolving `data:` URIs (and nothing
  else).
- `ir`, `pixels` — paint order, the document font table, the integer
  pixel arithmetic of the raster renderer and the PNG/JPEG encoding of its
  pixels.
- `lifecycle`, `health` — the lines of the lifecycle log and the boot's
  reading of them; the plain-HTTP health check.
- `codec`, `text` — the calls into `base64`, `percent-encoding`, `wuff`,
  `tiny-skia`, `png` and `image`, and shared character scanning.

`app/` is the server around it: sockets and the WebSocket, JSON, files and
the clock, and the floating-point layout (blitz), pagination and drawing
(`printpdf`, `tiny-skia`, `swash`).
