//! The XML event stream the loaders consume: a flat sequence of element
//! starts with their attributes, element ends, and character data.
use crate::wordnet::WordNetLoadError;
use vstd::prelude::*;

verus! {

/// One event of a document, in document order. Markup the loaders ignore
/// (declarations, comments, processing instructions, whitespace runs) comes
/// through as `Skip` so that the stream keeps its shape.
pub enum XmlTok {
    Start { name: String, attrs: Vec<(String, String)> },
    End { name: String },
    Text { text: String },
    Skip,
}

/// The event sequence of an XML document; pull parsing is a function of the
/// text alone.
pub uninterp spec fn xml_events_of(doc: Seq<char>) -> Seq<XmlTok>;

/// Whether a document parses as well-formed markup; like the event sequence
/// itself, this is a function of the text alone.
pub uninterp spec fn xml_wf(doc: Seq<char>) -> bool;

/// Relies on xml::reader::EventReader: pull-parses the whole document held
/// in memory, yielding elements with their local names and attribute values,
/// character data, and an error on malformed markup. The reader works on the
/// text alone, with a fixed configuration, so whether it succeeds and what
/// events it yields are both functions of the document.
#[verifier::external_body]
pub fn parse_xml(doc: &str) -> (r: Result<Vec<XmlTok>, WordNetLoadError>)
    ensures
        r is Ok <==> xml_wf(doc@),
        r matches Ok(evs) ==> evs@ == xml_events_of(doc@),
        r matches Err(e) ==> e is Xml,
{
    let mut out = Vec::new();
    for ev in xml::reader::EventReader::from_str(doc) {
        match ev {
            Ok(xml::reader::XmlEvent::StartElement { name, attributes, .. }) => {
                let attrs = attributes.into_iter().map(|a| (a.name.local_name, a.value)).collect();
                out.push(XmlTok::Start { name: name.local_name, attrs })
            },
            Ok(xml::reader::XmlEvent::EndElement { name }) => out.push(XmlTok::End { name: name.local_name }),
            Ok(xml::reader::XmlEvent::Characters(text)) => out.push(XmlTok::Text { text }),
            Ok(_) => out.push(XmlTok::Skip),
            Err(e) => return Err(WordNetLoadError::Xml(e.to_string())),
        }
    }
    Ok(out)
}

} // verus!
