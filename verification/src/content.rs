//! Clipboard content and its text representation: text and HTML cross the
//! wire as they are, images as base64 text.
use vstd::prelude::*;

verus! {

/// What the base64 crate's standard-alphabet encoder returns for a byte
/// string; a pure function of the bytes.
pub uninterp spec fn b64_of(bs: Seq<u8>) -> Seq<char>;

/// Relies on the base64 crate's `STANDARD` engine encode (standard alphabet
/// with padding): the result depends on the input bytes alone, and empty
/// input encodes to the empty string.
#[verifier::external_body]
fn b64_encode(data: &[u8]) -> (r: String)
    ensures
        r@ == b64_of(data@),
        data@.len() == 0 ==> r@.len() == 0,
{
    base64::Engine::encode(&base64::engine::general_purpose::STANDARD, data)
}

/// Relies on the base64 crate's `STANDARD` engine decode: it requires
/// canonical padding and refuses non-zero trailing bits, so it accepts
/// exactly the canonical encodings and inverts the encoder.
#[verifier::external_body]
pub(crate) fn b64_decode(data: &str) -> (r: Option<Vec<u8>>)
    ensures
        r matches Some(v) ==> data@ == b64_of(v@),
        r is None ==> forall|b: Seq<u8>| data@ != b64_of(b),
{
    match base64::Engine::decode(&base64::engine::general_purpose::STANDARD, data) {
        Ok(v) => Some(v),
        Err(_) => None,
    }
}

/// What `char::is_alphanumeric` returns; a pure function of the character.
pub uninterp spec fn alphanumeric(c: char) -> bool;

/// Relies on `char::is_alphanumeric`: a pure character classification.
#[verifier::external_body]
fn char_alphanumeric(c: char) -> (r: bool)
    ensures
        r == alphanumeric(c),
{
    c.is_alphanumeric()
}

/// Content read from or written to the clipboard.
#[derive(Clone, Debug)]
pub enum ClipboardContent {
    Text(String),
    /// PNG-encoded image bytes.
    Image(Vec<u8>),
    Html(String),
}

/// Why a wire representation was rejected.
#[derive(Clone, Copy, Debug, PartialEq, Eq, Structural)]
pub enum ContentError {
    /// The content-type name is not one this client handles.
    UnknownType,
    /// The payload is not a canonical base64 text.
    BadEncoding,
}

impl ClipboardContent {
    /// The wire name of this content's type.
    pub open spec fn spec_type_str(self) -> Seq<char> {
        match self {
            ClipboardContent::Text(_) => "text"@,
            ClipboardContent::Image(_) => "image"@,
            ClipboardContent::Html(_) => "html"@,
        }
    }

    pub fn content_type_str(&self) -> (r: &str)
        ensures
            r@ == self.spec_type_str(),
    {
        match self {
            ClipboardContent::Text(_) => "text",
            ClipboardContent::Image(_) => "image",
            ClipboardContent::Html(_) => "html",
        }
    }

    /// The text representation that crosses the wire: text and HTML as they
    /// are, image bytes in base64.
    pub fn to_base64(&self) -> (r: String)
        ensures
            self matches ClipboardContent::Text(t) ==> r@ == t@,
            self matches ClipboardContent::Html(t) ==> r@ == t@,
            self matches ClipboardContent::Image(d) ==> r@ == b64_of(d@),
    {
        match self {
            ClipboardContent::Text(t) => t.clone(),
            ClipboardContent::Image(d) => b64_encode(d.as_slice()),
            ClipboardContent::Html(t) => t.clone(),
        }
    }

    /// Rebuild content from its wire form.  Text and HTML are taken as they
    /// are; an image payload must be a canonical base64 text; any other type
    /// name is rejected.
    pub fn from_base64(content_type: &str, data: &str) -> (r: Result<ClipboardContent, ContentError>)
        ensures
            content_type@ == "text"@ ==> (r matches Ok(c) && c matches ClipboardContent::Text(t)
                && t@ == data@),
            content_type@ == "html"@ && content_type@ != "text"@ ==> (r matches Ok(c)
                && c matches ClipboardContent::Html(t) && t@ == data@),
            content_type@ == "image"@ && content_type@ != "text"@ ==> match r {
                Ok(c) => c matches ClipboardContent::Image(v) && data@ == b64_of(v@),
                Err(e) => e == ContentError::BadEncoding && (forall|b: Seq<u8>| data@ != b64_of(b)),
            },
            content_type@ != "text"@ && content_type@ != "image"@ && content_type@ != "html"@
                ==> r == Err::<ClipboardContent, ContentError>(ContentError::UnknownType),
    {
        proof {
            reveal_strlit("text");
            reveal_strlit("image");
            reveal_strlit("html");
            assert("text"@[0] == 't' && "html"@[0] == 'h');
        }
        if crate::codec::str_eq(content_type, "text") {
            Ok(ClipboardContent::Text(String::from_str(data)))
        } else if crate::codec::str_eq(content_type, "image") {
            match b64_decode(data) {
                Some(v) => Ok(ClipboardContent::Image(v)),
                None => Err(ContentError::BadEncoding),
            }
        } else if crate::codec::str_eq(content_type, "html") {
            Ok(ClipboardContent::Html(String::from_str(data)))
        } else {
            Err(ContentError::UnknownType)
        }
    }
}

/// Is a raw clipboard read worth keeping?  Empty text is not; a single
/// character only if it is alphanumeric, which filters the error markers
/// some clipboard tools print.
pub fn is_meaningful_text(s: &str) -> (r: bool)
    ensures
        s@.len() == 0 ==> r == false,
        s@.len() > 1 ==> r == true,
        s@.len() == 1 ==> r == alphanumeric(s@[0]),
{
    let n = s.unicode_len();
    if n == 0 {
        false
    } else if n > 1 {
        true
    } else {
        char_alphanumeric(s.get_char(0))
    }
}

} // verus!
