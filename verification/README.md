# webby

The verified core of a small, deterministic web-page pipeline: HTML
tokenizing and tree building, the DOM and its mutations, extraction of
text, links, scripts and images, CSS selectors and keyword values,
stylesheet scanning (comments, rule blocks, selector lists and
declarations, with byte offsets for every diagnostic), media queries
and the structure of the `border`, `margin`/`padding` and `transition`
shorthands,
script loading and ordering, resource metadata (charsets, sniffing,
downloads, HTTP Basic authentication, `data:` URLs), origins and CORS,
and the integer parts of layout (grid placement, form controls, colors).

Every function in `src/` carries a contract that Verus proves; laws that
relate several functions are public proof functions next to them.
Calls into outside crates (`url`, `base64`, `urlencoding`, `image`,
`boa_engine`) go through small trusted wrappers whose contracts say what
the crates document. URLs are held as plain values (`weburl::WebUrl`:
text, scheme, host, port, path segments, always those of one URL that
the `url` crate gave), so every decision on a URL is stated over its
parts.

- `src/` — the library, checked by Verus.
- `tests/` — tests run against the compiled library.
- `app/` — HTTP and file loading with `reqwest`, the Boa engine's
  preludes and the reading back of what scripts recorded (the runs with
  DOM bindings take the DOM bindings script as an argument, and use the
  library's steps to decide what runs and what is reported), JSON forms
  of the library's values, and CSS declarations whose values are
  floating-point lengths.
