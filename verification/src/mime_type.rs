//! Media types, parsed by the `mime` crate and held as plain text.
use vstd::prelude::*;

use crate::text::{chars_of, string_of};

verus! {

/// What `mime::Mime::from_str` makes of a string: `None` where it refuses it,
/// else the parsed type's source text (`Mime::as_ref`) and its top-level
/// type (`Mime::type_`).
pub uninterp spec fn parsed_mime(s: Seq<char>) -> Option<(Seq<char>, Seq<char>)>;

/// A parsed type's text and top-level type as the parser leaves them: the
/// text holds no line break, and a text without parameters (no `=`) parses
/// again to itself with the same top-level type.
pub open spec fn reads_back(text: Seq<char>, top: Seq<char>) -> bool {
    &&& !text.contains('\n')
    &&& (!text.contains('=') ==> parsed_mime(text) == Some((text, top)))
}

/// A type text that reads back as the parser left it, whatever its top-level
/// type: no line break, and without `=` it parses again to itself.
pub open spec fn text_reads_back(text: Seq<char>) -> bool {
    &&& !text.contains('\n')
    &&& (!text.contains('=') ==> (parsed_mime(text) matches Some((u, _)) && u == text))
}

/// Calls `mime::Mime::from_str` and hands back, for a parsed type, its source
/// text and its top-level type. The contract claims that the result is the
/// one named by `parsed_mime` on the argument, and two facts that the
/// parser's source shows: every byte it accepts is a token byte, `/`, `;`,
/// a space, `=` or a printable byte of a quoted value, so its text never
/// holds a line break; and a text without `=` has no parameters, is the
/// lower-cased type and subtype joined by `/`, and parses again to itself.
#[verifier::external_body]
fn mime_from_str(s: &str) -> (res: Option<(String, String)>)
    ensures
        match res {
            Some((text, top)) => parsed_mime(s@) == Some((text@, top@)) && reads_back(text@, top@),
            None => parsed_mime(s@) is None,
        },
{
    match s.parse::<mime::Mime>() {
        Ok(m) => Some((m.as_ref().to_string(), m.type_().as_str().to_string())),
        Err(_) => None,
    }
}

/// A media type such as `text/html`, as the `mime` crate parsed it.
///
/// Two media types are the same key when their source texts are equal; the
/// `mime` crate hashes a type by that text.
pub struct MimeType {
    text: String,
    top: String,
}

impl View for MimeType {
    type V = Seq<char>;

    /// The source text of the parsed type.
    closed spec fn view(&self) -> Seq<char> {
        self.text@
    }
}

impl MimeType {
    /// Every parsed type reads back as the parser left it.
    #[verifier::type_invariant]
    pub(crate) open spec fn well_formed(self) -> bool {
        reads_back(self@, self.top_level())
    }

    /// The top-level type, such as `text` in `text/html`.
    pub closed spec fn top_level(self) -> Seq<char> {
        self.top@
    }

    /// Parses a media type (`Mime::from_str`).
    pub fn parse(s: &str) -> (res: Option<MimeType>)
        ensures
            match res {
                Some(m) => parsed_mime(s@) == Some((m@, m.top_level())) && reads_back(m@, m.top_level()),
                None => parsed_mime(s@) is None,
            },
    {
        match mime_from_str(s) {
            Some((text, top)) => Some(MimeType { text, top }),
            None => None,
        }
    }

    /// The source text of the type (`Mime::as_ref`).
    pub fn as_str(&self) -> (res: &str)
        ensures
            res@ == self@,
    {
        self.text.as_str()
    }

    /// The top-level type (`Mime::type_`).
    pub fn type_(&self) -> (res: &str)
        ensures
            res@ == self.top_level(),
    {
        self.top.as_str()
    }

    /// A copy of this type.
    pub fn duplicate(&self) -> (res: MimeType)
        ensures
            res@ == self@,
            res.top_level() == self.top_level(),
    {
        proof {
            use_type_invariant(self);
        }
        MimeType { text: self.text.clone(), top: self.top.clone() }
    }

    /// Whether two types are the same key.
    pub fn same(&self, other: &MimeType) -> (res: bool)
        ensures
            res == (self@ == other@),
    {
        self.text == other.text
    }
}

/// The text of the wildcard type of a top-level type: `text` gives `text/*`.
pub open spec fn wildcard_text(top: Seq<char>) -> Seq<char> {
    top + seq!['/', '*']
}

/// The wildcard type that covers `mime`, such as `text/*` for `text/html`.
pub fn wildcard_of(mime: &MimeType) -> (res: Option<MimeType>)
    ensures
        match res {
            Some(w) => parsed_mime(wildcard_text(mime.top_level())) == Some((w@, w.top_level())),
            None => parsed_mime(wildcard_text(mime.top_level())) is None,
        },
{
    let mut t = chars_of(mime.type_());
    t.push('/');
    t.push('*');
    assert(t@ =~= wildcard_text(mime.top_level()));
    let s = string_of(t.as_slice());
    MimeType::parse(s.as_str())
}

} // verus!
