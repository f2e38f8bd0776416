//! Media types, held in the canonical written form their grammar gives
//! them, so that a stored content type re-parses to exactly the same value.

use vstd::prelude::*;

verus! {

/// Canonical written form of a media type, or `None` where the text does
/// not parse as one. The mime grammar is deterministic, so this is a
/// function of the text alone.
pub uninterp spec fn mime_canonical(s: Seq<char>) -> Option<Seq<char>>;

/// Relies on `mime::Mime`'s `FromStr` and `Display`: parsing is a function
/// of the text alone; the displayed form is the accepted text with its
/// ASCII letters lowered, which the same grammar accepts again unchanged.
#[verifier::external_body]
fn parse_media_type(s: &str) -> (r: Option<String>)
    ensures
        match r {
            Some(c) => mime_canonical(s@) == Some(c@) && mime_canonical(c@) == Some(c@),
            None => mime_canonical(s@) is None,
        },
{
    match s.parse::<mime::Mime>() {
        Ok(m) => Some(m.to_string()),
        Err(_) => None,
    }
}

/// A media type as the storage layer holds it: its canonical written form.
#[derive(Debug)]
pub struct MediaType {
    canon: String,
}

impl View for MediaType {
    type V = Seq<char>;

    closed spec fn view(&self) -> Seq<char> {
        self.canon@
    }
}

impl MediaType {
    /// The held form is canonical: it parses, to itself. Decoding relies on
    /// this to give a stored content type back unchanged.
    pub open spec fn wf(&self) -> bool {
        mime_canonical(self@) == Some(self@)
    }

    /// Parses a media type; `None` exactly where the grammar refuses the
    /// text.
    pub fn parse(s: &str) -> (r: Option<MediaType>)
        ensures
            match r {
                Some(m) => mime_canonical(s@) == Some(m@) && m.wf(),
                None => mime_canonical(s@) is None,
            },
    {
        match parse_media_type(s) {
            Some(c) => Some(MediaType { canon: c }),
            None => None,
        }
    }

    /// The canonical written form.
    pub fn as_str(&self) -> (r: &str)
        ensures
            r@ == self@,
    {
        self.canon.as_str()
    }

    /// A copy holding the same media type.
    pub fn duplicate(&self) -> (r: MediaType)
        ensures
            r@ == self@,
            self.wf() ==> r.wf(),
    {
        MediaType { canon: self.canon.clone() }
    }
}

} // verus!
