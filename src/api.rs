//! Response envelopes, error classification and the state of a paged walk.
//! The requests themselves are made outside the library.

use vstd::prelude::*;
use vstd::string::*;

verus! {

/// An error body of the old Fanbox API.
pub struct APIResponseError {
    pub error: String,
}

/// A Fanbox response: the payload under `body`.
pub struct FanboxAPIResponse<T> {
    pub body: T,
}

/// A Fanbox error body.
pub struct FanboxAPIResponseError {
    pub error: String,
}

/// How a failed request is handled.
#[derive(PartialEq, Eq, Structural, Clone, Copy)]
pub enum FailureKind {
    /// The session is invalid or expired: no later request can succeed, so
    /// the whole run stops.
    Session,
    /// Only the item being fetched fails.
    Item,
}

impl FanboxAPIResponseError {
    /// Fanbox answers `general_error` when the session is not accepted.
    pub fn kind(&self) -> (r: FailureKind)
        ensures
            r == if self.error@ == "general_error"@ {
                FailureKind::Session
            } else {
                FailureKind::Item
            },
    {
        if self.error == String::from_str("general_error") {
            FailureKind::Session
        } else {
            FailureKind::Item
        }
    }
}

/// A walk over a paged listing: the items seen so far and the next page to
/// fetch. A failed page ends the walk and its items are discarded.
pub struct Pages<T> {
    pub items: Vec<T>,
    pub next: Option<String>,
}

impl<T> Pages<T> {
    /// A walk that starts at `first`.
    pub fn new(first: String) -> (r: Self)
        ensures
            r.items@.len() == 0,
            r.next == Some(first),
    {
        Pages { items: Vec::new(), next: Some(first) }
    }

    /// Takes in one page: its items follow those seen, and its link to the
    /// next page replaces the current one.
    pub fn accept(&mut self, items: Vec<T>, next: Option<String>)
        ensures
            final(self).items@ == old(self).items@ + items@,
            final(self).next == next,
    {
        let mut items = items;
        self.items.append(&mut items);
        self.next = next;
    }

    /// The page to fetch next; none when the walk is complete.
    pub fn next_url(&self) -> (r: Option<&String>)
        ensures
            match r {
                Some(u) => self.next == Some(*u),
                None => self.next is None,
            },
    {
        match &self.next {
            Some(u) => Some(u),
            None => None,
        }
    }

    /// The items of a complete walk.
    pub fn finish(self) -> (r: Vec<T>)
        ensures
            r@ == self.items@,
    {
        self.items
    }
}

} // verus!
