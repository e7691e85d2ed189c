//! The rendering boundary: markdown source text to HTML markup.
//!
//! Rendering is treated as a pure function of the source text.  The
//! conversion itself is done by the `markdown` crate; this module gives
//! its result a name, `html_of`, that the store's contracts are stated
//! over, and detects the marker that rendered diagram blocks leave in
//! the output.

use crate::text::contains_seq;
use vstd::prelude::*;
use vstd::string::*;

verus! {

/// The HTML markup the renderer produces for a markdown source text.
pub uninterp spec fn html_of(source: Seq<char>) -> Seq<char>;

/// Relies on `markdown::to_html_with_options` with fixed options (GitHub
/// flavor, raw HTML allowed, frontmatter on): a pure function of the
/// source text, named `html_of`.  Without the MDX syntax it cannot fail;
/// the error fallback keeps the renderer total either way.
#[verifier::external_body]
pub(crate) fn render_markdown(content: &str) -> (r: String)
    ensures
        r@ == html_of(content@),
{
    let mut options = markdown::Options::gfm();
    options.compile.allow_dangerous_html = true;
    options.parse.constructs.frontmatter = true;
    markdown::to_html_with_options(content, &options).unwrap_or_else(
        |_| "Error parsing markdown".to_string(),
    )
}

/// The byte run a rendered fenced `mermaid` code block leaves in the HTML.
pub open spec fn mermaid_marker() -> Seq<u8> {
    "class=\"language-mermaid\"".spec_bytes()
}

/// Whether rendered HTML contains a mermaid diagram block, so the serving
/// layer knows to inject the diagram script.
pub fn html_has_mermaid(html: &str) -> (r: bool)
    ensures
        r == contains_seq(html.spec_bytes(), mermaid_marker()),
{
    crate::text::contains_bytes(html.as_bytes(), "class=\"language-mermaid\"".as_bytes())
}

} // verus!
