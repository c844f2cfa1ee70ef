//! The events that a parser of XML text reports.
use vstd::prelude::*;

verus! {

/// Events returned by the `Parser`
#[derive(PartialEq, Eq, Debug)]
pub enum Event {
    /// Event indicating processing information was found
    PI(String),
    /// Event indicating a start tag was found
    ElementStart(StartTag),
    /// Event indicating a end tag was found
    ElementEnd(EndTag),
    /// Event indicating character data was found
    Characters(String),
    /// Event indicating CDATA was found
    CDATA(String),
    /// Event indicating a comment was found
    Comment(String),
}

/// Structure describing an opening tag
#[derive(Debug)]
pub struct StartTag {
    /// The tag's name
    pub name: String,
    /// The tag's namespace
    pub ns: Option<String>,
    /// The tag's prefix
    pub prefix: Option<String>,
    /// The tag's attributes, as ((name, namespace), value) pairs
    pub attributes: Vec<((String, Option<String>), String)>,
}

/// Structure describing a closing tag
#[derive(PartialEq, Eq, Debug)]
pub struct EndTag {
    /// The tag's name
    pub name: String,
    /// The tag's namespace
    pub ns: Option<String>,
    /// The tag's prefix
    pub prefix: Option<String>,
}

} // verus!
