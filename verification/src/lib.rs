//! Formatting of MDX documents: the MDX-specific parts of a document are
//! swapped for placeholders that a markdown formatter leaves alone, and put
//! back once the markdown around them has been formatted.
pub mod text;
pub mod regions;
pub mod placeholders;
pub mod spans;
pub mod braces;
pub mod mdx;
pub mod roundtrip;

pub use mdx::format_mdx_text;
