//! Text extraction from downloaded document bytes, bounded to the leading
//! pages.  The parsing is the `lopdf` crate's work, reached through one
//! trusted call per extraction; on malformed documents lopdf's parallel
//! loading may hand back different content for the same bytes, so nothing
//! names its result — the verified code takes the returned pages as plain
//! values, and the page bound, the joining and the emptiness gate are
//! proved for every value of them.

use vstd::prelude::*;

use crate::text::{blank, is_blank};

verus! {

/// Relies on `lopdf::Document::load_mem`, `get_pages` and `extract_text`:
/// parses the bytes once and hands back the leading pages' texts, one
/// entry per page read, `None` for a page that would not decode.  The
/// document never crosses this boundary, and no clause claims the result
/// is a function of the bytes: two calls on the same malformed bytes may
/// differ.
#[verifier::external_body]
fn pdf_leading_pages(content: &Vec<u8>, limit: usize) -> (r: Result<Vec<Option<String>>, String>)
    ensures
        r matches Ok(pages) ==> pages@.len() <= limit,
{
    let doc = match lopdf::Document::load_mem(content) {
        Ok(d) => d,
        Err(e) => return Err(e.to_string()),
    };
    let mut pages = Vec::new();
    for page in doc.get_pages().keys().take(limit) {
        pages.push(doc.extract_text(&[*page]).ok());
    }
    Ok(pages)
}

/// How many leading pages are read at most.
pub const MAX_EXTRACT_PAGES: usize = 5;

/// The text the pages handed back assemble to: each decoded page's text
/// followed by a line break, in page order; undecodable pages contribute
/// nothing.
pub open spec fn joined_pages(pages: Seq<Option<Seq<char>>>) -> Seq<char>
    decreases pages.len(),
{
    if pages.len() == 0 {
        Seq::empty()
    } else {
        joined_pages(pages.drop_last()) + match pages.last() {
            Some(t) => t + "\n"@,
            None => Seq::empty(),
        }
    }
}

/// Assembles the extraction result from the pages the parser handed back:
/// exactly their joined text, and a failure — never an empty success —
/// when that text is blank throughout.  Verified for every value of
/// `pages`, however the parser behaved.
pub fn assemble_extracted(pages: &Vec<Option<String>>) -> (r: Result<String, String>)
    ensures
        r is Ok <==> !blank(joined_pages(pages.deep_view())),
        r matches Ok(t) ==> t@ == joined_pages(pages.deep_view()),
        r matches Err(e) ==> e@ == "No text extracted from PDF"@,
{
    let mut text = String::new();
    let mut i: usize = 0;
    proof {
        assert(text@ =~= joined_pages(pages.deep_view().take(0)));
    }
    while i < pages.len()
        invariant
            i <= pages@.len(),
            pages.deep_view().len() == pages@.len(),
            forall|j: int| 0 <= j < pages@.len() ==> pages.deep_view()[j] == pages@[j].deep_view(),
            text@ == joined_pages(pages.deep_view().take(i as int)),
        decreases pages.len() - i,
    {
        proof {
            assert(pages.deep_view().take(i + 1).drop_last() =~= pages.deep_view().take(i as int));
            assert(pages.deep_view().take(i + 1).last() == pages@[i as int].deep_view());
        }
        match &pages[i] {
            Some(page_text) => {
                text.append(page_text.as_str());
                text.append("\n");
            },
            None => {},
        }
        proof {
            assert(text@ =~= joined_pages(pages.deep_view().take(i + 1)));
        }
        i = i + 1;
    }
    proof {
        assert(pages.deep_view().take(pages@.len() as int) =~= pages.deep_view());
    }
    if is_blank(text.as_str()) {
        return Err(String::from_str("No text extracted from PDF"));
    }
    Ok(text)
}

/// Derives plain text from document bytes: whatever the parser read of the
/// leading [`MAX_EXTRACT_PAGES`] pages, joined with line breaks; bytes the
/// parser refuses fail with its error, and blank text is a failure, never
/// an empty success.
pub fn extract_text(content: &Vec<u8>) -> (r: Result<String, String>)
    ensures
        r matches Ok(t) ==> !blank(t@) && exists|pages: Seq<Option<Seq<char>>>|
            pages.len() <= MAX_EXTRACT_PAGES && t@ == #[trigger] joined_pages(pages),
{
    let pages = match pdf_leading_pages(content, MAX_EXTRACT_PAGES) {
        Ok(p) => p,
        Err(e) => {
            return Err(e);
        },
    };
    let r = assemble_extracted(&pages);
    proof {
        if r is Ok {
            assert(pages.deep_view().len() <= MAX_EXTRACT_PAGES);
        }
    }
    r
}

} // verus!
