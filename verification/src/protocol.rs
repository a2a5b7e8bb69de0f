//! Argument types handed down by the protocol layer above the store.
use vstd::prelude::*;

verus! {

/// Parsed arguments of a mailbox-creation command: the request tag, the name
/// of the mailbox to create, and an optional special-use role attribute.
#[derive(Debug, Clone, PartialEq, Eq)]
pub struct Arguments {
    pub tag: String,
    pub mailbox_name: String,
    pub mailbox_role: Option<&'static str>,
}

} // verus!
