//! An XML library: escaping and unescaping of character data, a tree of
//! elements and nodes, and its serialization to text.
use vstd::prelude::*;

pub mod assoc;
pub mod text;
pub mod element;
pub mod display;
pub mod event;
pub mod laws;
pub mod equality;

pub use text::{escape, unescape};
pub use element::{Element, Xml};
pub use event::{EndTag, Event, StartTag};
