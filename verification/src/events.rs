//! The lexical events the conversion consumes, and their model.
//!
//! The event source (the `quick-xml` reader behind a trusted boundary)
//! delivers these as plain decoded values: element names, attribute pairs,
//! text and CDATA content are owned strings. `Skip` stands for anything the
//! conversion ignores: comments, declarations, processing instructions and
//! fragments that failed to decode.
use vstd::prelude::*;

verus! {

/// One lexical event, with entities decoded and names and attributes turned
/// into plain strings.
pub enum XmlEvent {
    /// An element opens; empty elements arrive expanded into an open/close
    /// pair, so no separate empty-element event exists.
    Open { name: String, attrs: Vec<(String, String)> },
    /// A run of character data.
    Text { text: String },
    /// One CDATA section's content.
    CData { data: String },
    /// The innermost open element closes.
    Close,
    /// End of the document.
    Eof,
    /// An event the conversion ignores.
    Skip,
}

/// The model of one event.
#[verifier::ext_equal]
pub enum Ev {
    Open(Seq<char>, Seq<(Seq<char>, Seq<char>)>),
    Text(Seq<char>),
    CData(Seq<char>),
    Close,
    Eof,
    Skip,
}

/// Model of an attribute list.
pub open spec fn attrs_view(s: Seq<(String, String)>) -> Seq<(Seq<char>, Seq<char>)> {
    s.map_values(|p: (String, String)| (p.0@, p.1@))
}

/// The model of one event.
pub open spec fn ev_view(e: XmlEvent) -> Ev {
    match e {
        XmlEvent::Open { name, attrs } => Ev::Open(name@, attrs_view(attrs@)),
        XmlEvent::Text { text } => Ev::Text(text@),
        XmlEvent::CData { data } => Ev::CData(data@),
        XmlEvent::Close => Ev::Close,
        XmlEvent::Eof => Ev::Eof,
        XmlEvent::Skip => Ev::Skip,
    }
}

/// The model of an event list.
pub open spec fn evs_view(s: Seq<XmlEvent>) -> Seq<Ev> {
    s.map_values(|e: XmlEvent| ev_view(e))
}

} // verus!
