//! The dialog that imports subscriptions from another application.
use vstd::prelude::*;
use crate::text::same_text;

verus! {

/// Where subscriptions are imported from.
#[derive(PartialEq, Eq, Structural, Clone, Copy, Debug)]
pub enum ImportSource {
    /// A NewPipe export (JSON).
    NewPipe,
    /// A YouTube takeout (CSV).
    Youtube,
}

/// The file type that the file chooser offers for a source.
pub open spec fn mime_type_of(source: ImportSource) -> Seq<char> {
    match source {
        ImportSource::NewPipe => "application/json"@,
        ImportSource::Youtube => "text/csv"@,
    }
}

/// The title of the file chooser for a source, in English (the caller
/// localises it).
pub open spec fn chooser_title_of(source: ImportSource) -> Seq<char> {
    match source {
        ImportSource::NewPipe => "Select NewPipe subscriptions file"@,
        ImportSource::Youtube => "Select YouTube subscription file"@,
    }
}

/// The source that the dialog's response picks: `newpipe` or `youtube`;
/// nothing for any other response.
pub fn handle_response(response: &str) -> (source: Option<ImportSource>)
    ensures
        source == (if response@ == "newpipe"@ {
            Some(ImportSource::NewPipe)
        } else if response@ == "youtube"@ {
            Some(ImportSource::Youtube)
        } else {
            None
        }),
{
    if same_text(response, "newpipe") {
        Some(ImportSource::NewPipe)
    } else if same_text(response, "youtube") {
        Some(ImportSource::Youtube)
    } else {
        None
    }
}

impl ImportSource {
    /// The file type that the file chooser offers.
    pub fn mime_type(&self) -> (mime: String)
        ensures
            mime@ == mime_type_of(*self),
    {
        match self {
            ImportSource::NewPipe => String::from_str("application/json"),
            ImportSource::Youtube => String::from_str("text/csv"),
        }
    }

    /// The title of the file chooser, in English (the caller localises it).
    pub fn chooser_title(&self) -> (title: String)
        ensures
            title@ == chooser_title_of(*self),
    {
        match self {
            ImportSource::NewPipe => String::from_str("Select NewPipe subscriptions file"),
            ImportSource::Youtube => String::from_str("Select YouTube subscription file"),
        }
    }
}

} // verus!
