use vstd::prelude::*;

use crate::text::{trim_trailing_blank_lines, trim_trailing_blanks};

verus! {

/// Holds the cleaned content of a textual graph description: the raw text
/// with its trailing blank (whitespace-only) lines removed.  Reading the
/// text from disk is the caller's business; this type owns only the
/// cleaning step and the cleaned content.
pub struct FileProcessor {
    content: String,
}

impl View for FileProcessor {
    type V = Seq<char>;

    closed spec fn view(&self) -> Seq<char> {
        self.content@
    }
}

impl FileProcessor {
    /// Build from raw text, trimming the trailing blank lines.
    pub fn from_text(raw: &str) -> (fp: FileProcessor)
        ensures
            fp@ == trim_trailing_blank_lines(raw@),
    {
        FileProcessor { content: trim_trailing_blanks(raw) }
    }

    /// A copy of the cleaned content.
    pub fn content(&self) -> (r: String)
        ensures
            r@ == self@,
    {
        self.content.clone()
    }
}

} // verus!
