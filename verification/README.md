# mdx_format

Formatting of MDX documents (markdown with JSX, `import`/`export` statements
and `{expression}` blocks) with a markdown formatter that knows nothing of
MDX: every MDX-specific part of the document is swapped for an HTML-comment
placeholder, the markdown is formatted, and the original MDX text is put back
in place of each placeholder. Import/export blocks are handed to a code
formatter (under the tag `tsx`) and restored as it formatted them. The
library is written in Verus and verified.

Layout:

- `src/spans.rs`: the document tree, the spans of the nodes to protect,
  sorting and merging them.
- `src/placeholders.rs`: the nonce, the numbered placeholders, and ignore
  directives (`{/* dprint-ignore */}`) shown to the formatter as HTML comments.
- `src/regions.rs`: replacing regions by placeholders and restoring them.
- `src/braces.rs`: the brace check that tells the MDX parser whether an
  expression or ESM block may be complete.
- `src/mdx.rs`: the formatting pipeline (`format_mdx_text`), including the
  code formatting of import/export blocks.
- `src/roundtrip.rs`: why a formatter that changes nothing leaves the document
  unchanged. Without ignore directives this holds of every document. Ignore
  directives share one placeholder (`<!-- dprint-ignore -->`), so there it is
  proved for documents whose placeholdered text holds placeholders only where
  they were inserted (which is so of valid MDX, where an HTML comment cannot
  be written).
- `src/text.rs`: UTF-8 facts and string helpers.
- `app/lib.rs`: parsing with `markdown-rs` (guarded against its panics) and
  converting its tree into the library's tree.
