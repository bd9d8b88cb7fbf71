//! The stored data model: content types, clipboard entries, and search
//! queries over the history.
use crate::checksum::{checksum_of_str, spec_checksum};
use crate::codec::str_eq;
use vstd::prelude::*;

verus! {

/// The kind of content an entry carries.
#[derive(Clone, Copy, Debug, PartialEq, Eq, Structural)]
pub enum ClipboardContentType {
    Text,
    Image,
    Html,
    Rtf,
    Files,
}

impl ClipboardContentType {
    /// The wire name of this content type.
    pub open spec fn spec_str(self) -> Seq<char> {
        match self {
            ClipboardContentType::Text => "text"@,
            ClipboardContentType::Image => "image"@,
            ClipboardContentType::Html => "html"@,
            ClipboardContentType::Rtf => "rtf"@,
            ClipboardContentType::Files => "files"@,
        }
    }

    /// The content type named by a string, if any.
    pub open spec fn spec_of_str(s: Seq<char>) -> Option<ClipboardContentType> {
        if s == "text"@ {
            Some(ClipboardContentType::Text)
        } else if s == "image"@ {
            Some(ClipboardContentType::Image)
        } else if s == "html"@ {
            Some(ClipboardContentType::Html)
        } else if s == "rtf"@ {
            Some(ClipboardContentType::Rtf)
        } else if s == "files"@ {
            Some(ClipboardContentType::Files)
        } else {
            None
        }
    }

    pub fn as_str(&self) -> (r: &str)
        ensures
            r@ == self.spec_str(),
    {
        match self {
            ClipboardContentType::Text => "text",
            ClipboardContentType::Image => "image",
            ClipboardContentType::Html => "html",
            ClipboardContentType::Rtf => "rtf",
            ClipboardContentType::Files => "files",
        }
    }

    pub fn from_str(s: &str) -> (r: Option<Self>)
        ensures
            r == Self::spec_of_str(s@),
    {
        if str_eq(s, "text") {
            Some(ClipboardContentType::Text)
        } else if str_eq(s, "image") {
            Some(ClipboardContentType::Image)
        } else if str_eq(s, "html") {
            Some(ClipboardContentType::Html)
        } else if str_eq(s, "rtf") {
            Some(ClipboardContentType::Rtf)
        } else if str_eq(s, "files") {
            Some(ClipboardContentType::Files)
        } else {
            None
        }
    }
}

/// One clipboard entry: the unit of replication.  The checksum over the
/// content is the deduplication key; the timestamp is UTC seconds.
#[derive(Clone)]
pub struct ClipboardEntry {
    pub id: Option<i64>,
    pub content_type: ClipboardContentType,
    pub content: String,
    pub metadata: Option<String>,
    pub source: String,
    pub timestamp: i64,
    pub checksum: String,
}

/// Spec-level image of an entry.
pub ghost struct ClipboardEntryV {
    pub id: Option<int>,
    pub content_type: ClipboardContentType,
    pub content: Seq<char>,
    pub metadata: Option<Seq<char>>,
    pub source: Seq<char>,
    pub timestamp: int,
    pub checksum: Seq<char>,
}

impl View for ClipboardEntry {
    type V = ClipboardEntryV;

    open spec fn view(&self) -> ClipboardEntryV {
        ClipboardEntryV {
            id: match self.id {
                Some(v) => Some(v as int),
                None => None,
            },
            content_type: self.content_type,
            content: self.content@,
            metadata: match self.metadata {
                Some(ref m) => Some(m@),
                None => None,
            },
            source: self.source@,
            timestamp: self.timestamp as int,
            checksum: self.checksum@,
        }
    }
}

impl ClipboardEntry {
    /// A fresh, unpersisted entry captured at `timestamp`, with its checksum
    /// computed from the content.
    pub fn new(content_type: ClipboardContentType, content: String, source: String, timestamp: i64) -> (
        r: ClipboardEntry)
        ensures
            r@.id is None,
            r@.content_type == content_type,
            r@.content == content@,
            r@.metadata is None,
            r@.source == source@,
            r@.timestamp == timestamp as int,
            r@.checksum == spec_checksum(content@),
    {
        let checksum = checksum_of_str(content.as_str());
        ClipboardEntry { id: None, content_type, content, metadata: None, source, timestamp, checksum }
    }

    /// A copy whose view is the same.
    pub fn clone_entry(&self) -> (r: Self)
        ensures
            r@ == self@,
    {
        ClipboardEntry {
            id: self.id,
            content_type: self.content_type,
            content: self.content.clone(),
            metadata: match &self.metadata {
                Some(m) => Some(m.clone()),
                None => None,
            },
            source: self.source.clone(),
            timestamp: self.timestamp,
            checksum: self.checksum.clone(),
        }
    }

    /// The same entry with metadata attached.
    pub fn with_metadata(self, metadata: String) -> (r: ClipboardEntry)
        ensures
            r@ == (ClipboardEntryV { metadata: Some(metadata@), ..self@ }),
    {
        let mut e = self;
        e.metadata = Some(metadata);
        e
    }
}

/// A filter over the stored history; all present predicates are combined
/// with AND, and results are paged with `limit` and `offset`.
pub struct ClipboardSearchQuery {
    pub content_type: Option<ClipboardContentType>,
    pub source: Option<String>,
    pub search_text: Option<String>,
    pub limit: usize,
    pub offset: usize,
}

/// Spec-level image of a search query.
pub ghost struct ClipboardSearchQueryV {
    pub content_type: Option<ClipboardContentType>,
    pub source: Option<Seq<char>>,
    pub search_text: Option<Seq<char>>,
    pub limit: nat,
    pub offset: nat,
}

impl View for ClipboardSearchQuery {
    type V = ClipboardSearchQueryV;

    open spec fn view(&self) -> ClipboardSearchQueryV {
        ClipboardSearchQueryV {
            content_type: self.content_type,
            source: match self.source {
                Some(ref s) => Some(s@),
                None => None,
            },
            search_text: match self.search_text {
                Some(ref s) => Some(s@),
                None => None,
            },
            limit: self.limit as nat,
            offset: self.offset as nat,
        }
    }
}

impl Default for ClipboardSearchQuery {
    /// No filters, first hundred results.
    fn default() -> (r: Self)
        ensures
            r.content_type is None,
            r.source is None,
            r.search_text is None,
            r.limit == 100,
            r.offset == 0,
    {
        ClipboardSearchQuery {
            content_type: None,
            source: None,
            search_text: None,
            limit: 100,
            offset: 0,
        }
    }
}

} // verus!
