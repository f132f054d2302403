//! The invocation context: a small read-only value constructed once per output
//! document and threaded unchanged through every nested expansion.

use vstd::prelude::*;

verus! {

/// Per-document context for template expansion.
#[derive(Debug)]
pub struct PageContext {
    /// The title of the page.
    pub title: String,
    /// The last part of the title of the page, without the extension; the
    /// value of the magic sub-page name.
    pub sub_page_name: String,
}

/// The mathematical model of a `PageContext`.
pub struct PageContextView {
    pub title: Seq<char>,
    pub sub_page_name: Seq<char>,
}

impl View for PageContext {
    type V = PageContextView;

    open spec fn view(&self) -> PageContextView {
        PageContextView { title: self.title@, sub_page_name: self.sub_page_name@ }
    }
}

} // verus!
