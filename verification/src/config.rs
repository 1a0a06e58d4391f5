use vstd::prelude::*;

verus! {

/// The configuration of one list, loaded once at start from the
/// `config` section of the document at its storage root and immutable
/// for the life of the process. The two optional flags default to
/// off.
pub struct Config {
    pub name: String,
    pub slug: String,
    pub open_posting: Option<bool>,
    pub tag_subject: Option<bool>,
}

impl Config {
    /// Bind the four configured fields.
    pub fn new(name: String, slug: String, open_posting: Option<bool>, tag_subject: Option<
        bool,
    >) -> (r: Config)
        ensures
            r.name@ == name@,
            r.slug@ == slug@,
            r.open_posting == open_posting,
            r.tag_subject == tag_subject,
    {
        Config { name, slug, open_posting, tag_subject }
    }

    /// Whether outgoing subjects are tagged: the flag, defaulted off.
    pub fn tag_subject_on(&self) -> (r: bool)
        ensures
            r == (self.tag_subject == Some(true)),
    {
        match self.tag_subject {
            Some(b) => b,
            None => false,
        }
    }

    /// Whether non-subscribers may post: the flag, defaulted off.
    pub fn open_posting_on(&self) -> (r: bool)
        ensures
            r == (self.open_posting == Some(true)),
    {
        match self.open_posting {
            Some(b) => b,
            None => false,
        }
    }
}

} // verus!
