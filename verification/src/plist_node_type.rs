//! The type tag that the codec attaches to every node.

use vstd::prelude::*;

verus! {

/// The kind of a node as the codec numbers it.
#[derive(Debug, Clone, Copy, PartialEq, Eq, Structural)]
pub enum PlistNodeType {
    Boolean,
    UInt,
    Real,
    String,
    Array,
    Dictionary,
    Date,
    Data,
    Key,
    UID,
    Null,
    /// The tag of a handle that reaches no node.
    NoNode,
}

/// The number of tags that the codec knows.
pub const KNOWN_TAGS: u32 = 12;

impl PlistNodeType {
    /// The kind that a tag number stands for; tags are numbered in the order
    /// of the variants, from zero.
    pub open spec fn of_tag(tag: u32) -> PlistNodeType {
        if tag == 0 {
            PlistNodeType::Boolean
        } else if tag == 1 {
            PlistNodeType::UInt
        } else if tag == 2 {
            PlistNodeType::Real
        } else if tag == 3 {
            PlistNodeType::String
        } else if tag == 4 {
            PlistNodeType::Array
        } else if tag == 5 {
            PlistNodeType::Dictionary
        } else if tag == 6 {
            PlistNodeType::Date
        } else if tag == 7 {
            PlistNodeType::Data
        } else if tag == 8 {
            PlistNodeType::Key
        } else if tag == 9 {
            PlistNodeType::UID
        } else if tag == 10 {
            PlistNodeType::Null
        } else {
            PlistNodeType::NoNode
        }
    }

    /// Maps a tag number of the codec to its kind. A number outside the known
    /// tags signals a corrupted node and is not accepted.
    pub fn from(plist_type: u32) -> (r: PlistNodeType)
        requires
            plist_type < KNOWN_TAGS,
        ensures
            r == Self::of_tag(plist_type),
    {
        if plist_type == 0 {
            PlistNodeType::Boolean
        } else if plist_type == 1 {
            PlistNodeType::UInt
        } else if plist_type == 2 {
            PlistNodeType::Real
        } else if plist_type == 3 {
            PlistNodeType::String
        } else if plist_type == 4 {
            PlistNodeType::Array
        } else if plist_type == 5 {
            PlistNodeType::Dictionary
        } else if plist_type == 6 {
            PlistNodeType::Date
        } else if plist_type == 7 {
            PlistNodeType::Data
        } else if plist_type == 8 {
            PlistNodeType::Key
        } else if plist_type == 9 {
            PlistNodeType::UID
        } else if plist_type == 10 {
            PlistNodeType::Null
        } else {
            PlistNodeType::NoNode
        }
    }
}

} // verus!
