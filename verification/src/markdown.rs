//! Markdown rendering through `pulldown_cmark`.
use vstd::prelude::*;

verus! {

/// The HTML text that `pulldown_cmark` renders for the Markdown text `md`,
/// with the default (empty) set of parser options.
pub uninterp spec fn markdown_html(md: Seq<char>) -> Seq<char>;

/// Appends the rendering of `md` to `buf`, by `pulldown_cmark::html::push_html`
/// over the events of `pulldown_cmark::Parser::new(md)`.
///
/// Trusted: `push_html` writes the HTML onto the end of the string it is
/// given and keeps what was there; `Parser::new` parses with the empty option
/// set, so what is written depends on `md` alone, and is named
/// `markdown_html`. Writing into a `String` cannot fail, so the `unwrap`
/// inside `push_html` does not panic.
#[verifier::external_body]
fn push_markdown_html(buf: &mut String, md: &str)
    ensures
        final(buf)@ == old(buf)@ + markdown_html(md@),
{
    pulldown_cmark::html::push_html(buf, pulldown_cmark::Parser::new(md));
}

/// Renders a Markdown document to HTML.
pub fn render_markdown(markdown: String) -> (html: String)
    ensures
        html@ == markdown_html(markdown@),
{
    let mut html_buf = String::new();
    push_markdown_html(&mut html_buf, markdown.as_str());
    assert(html_buf@ =~= markdown_html(markdown@));
    html_buf
}

} // verus!
