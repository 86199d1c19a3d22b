//! Markdown rendering, behind a trusted wrapper.

use vstd::prelude::*;

verus! {

/// What rendering a markdown body to HTML returns.  The rendering depends on
/// the text alone; its value is pulldown-cmark's.
pub uninterp spec fn html_of(s: Seq<char>) -> Seq<char>;

/// Relies on pulldown-cmark: `Parser::new` with default options and
/// `html::push_html` render a markdown text to HTML deterministically, from
/// the text alone.
#[verifier::external_body]
pub fn render_markdown(body: &str) -> (r: String)
    ensures
        r@ == html_of(body@),
{
    let parser = pulldown_cmark::Parser::new(body);
    let mut out = String::new();
    pulldown_cmark::html::push_html(&mut out, parser);
    out
}

} // verus!
