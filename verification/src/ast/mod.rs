//! Rust representations of ASTs in a format that Sapling can work with.

pub mod display_token;
pub mod json;
pub mod test_json;

use vstd::prelude::*;
use vstd::string::*;

use crate::base::key_display::{decimal, push_decimal};

verus! {

/// The possible ways an insertion could fail
#[derive(Debug, Clone, PartialEq, Eq, Hash)]
pub enum InsertError {
    /// Inserting the node would cause the child count to exceed the limit for that node type
    TooManyChildren {
        /// The name of the node who's child count has been exceeded
        name: String,
        /// The maximum number of children that the node being inserted into could have
        max_children: usize,
    },
}

/// The possible ways a deletion could fail
#[derive(Debug, Clone, PartialEq, Eq, Hash)]
pub enum DeleteError {
    /// Deleting the requested node(s) would cause the parent to have too few children
    TooFewChildren {
        /// The display name of the node who's minimum child count constraint has been violated
        name: String,
        /// The minimum number of children that the node in question could have had
        min_children: usize,
    },
    /// The requsted node doesn't exist.
    IndexOutOfRange {
        /// The length of the current child array
        len: usize,
        /// The index of the child that was attempted to be removed
        index: usize,
    },
}

impl InsertError {
    /// The message that describes this error.
    pub fn to_string(&self) -> (s: String)
        ensures
            s@ == match self {
                InsertError::TooManyChildren { name, max_children } => "Can't exceed child count limit of "@
                    + decimal(*max_children as nat) + " in "@ + name@,
            },
    {
        match self {
            InsertError::TooManyChildren { name, max_children } => {
                let mut s = String::from_str("Can't exceed child count limit of ");
                push_decimal(&mut s, *max_children);
                s.append(" in ");
                s.append(name.as_str());
                s
            },
        }
    }
}

impl DeleteError {
    /// The message that describes this error.
    pub fn to_string(&self) -> (s: String)
        ensures
            s@ == match self {
                DeleteError::TooFewChildren { name, min_children } => "Node type "@ + name@
                    + " can't have fewer than "@ + decimal(*min_children as nat) + " children."@,
                DeleteError::IndexOutOfRange { len, index } => "Deleting child index "@ + decimal(
                    *index as nat,
                ) + " is out of range 0.."@ + decimal(*len as nat),
            },
    {
        match self {
            DeleteError::TooFewChildren { name, min_children } => {
                let mut s = String::from_str("Node type ");
                s.append(name.as_str());
                s.append(" can't have fewer than ");
                push_decimal(&mut s, *min_children);
                s.append(" children.");
                s
            },
            DeleteError::IndexOutOfRange { len, index } => {
                let mut s = String::from_str("Deleting child index ");
                push_decimal(&mut s, *index);
                s.append(" is out of range 0..");
                push_decimal(&mut s, *len);
                s
            },
        }
    }
}

} // verus!
