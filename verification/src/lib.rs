#![verifier::loop_isolation(false)]
//! A verified core for turning a semi-structured feed document into a small
//! set of typed records: a menu of named sections, each holding named, priced
//! items.
//!
//! The crate reconstructs a document tree from a flat stream of start/end/text
//! events ([`etree`]), selects the entry matching a reference date and groups
//! its list items under their preceding headings ([`menu`]), and parses each
//! freeform item description into a typed record ([`meal`]).
//!
//! Network retrieval, the byte-level tokenizer producing the events, clock
//! access and rendering are the caller's business; the core works on plain
//! values and is verified.

pub mod etree;
pub mod meal;
pub mod menu;
pub mod text;
