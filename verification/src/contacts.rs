//! CardDAV contacts, kept for one purpose: suggesting people in the
//! attendee field. One row per address, not per card.

use vstd::prelude::*;

verus! {

/// One address from an address book, ready to store.
#[derive(Debug, Clone, PartialEq)]
pub struct StoredContact {
    /// The card's URL on the server. With `email` it identifies the row.
    pub href: String,
    /// The card's own `UID`, when it has one.
    pub uid: Option<String>,
    pub display_name: Option<String>,
    /// Lowercased, which is the identity the suggestions dedup on.
    pub email: String,
}

/// One person the attendee field can offer, from an address book.
#[derive(Debug, Clone, PartialEq)]
pub struct KnownContact {
    pub email: String,
    pub display_name: Option<String>,
}

} // verus!
