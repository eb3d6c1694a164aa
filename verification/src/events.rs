//! What happens in the network, and what is asked about it.
use crate::records::{Did, Text};
use vstd::prelude::*;

verus! {

/// What a link points to.
#[derive(Debug, PartialEq, Eq)]
pub enum Link {
    AtUri(String),
    Uri(String),
    Did(String),
}

impl View for Link {
    type V = Text;

    /// What the link points to, whatever its kind.
    open spec fn view(&self) -> Text {
        match self {
            Link::AtUri(s) => s@,
            Link::Uri(s) => s@,
            Link::Did(s) => s@,
        }
    }
}

impl Clone for Link {
    fn clone(&self) -> (r: Self)
        ensures
            r@ == self@,
            match *self {
                Link::AtUri(s) => r matches Link::AtUri(t) && t@ == s@,
                Link::Uri(s) => r matches Link::Uri(t) && t@ == s@,
                Link::Did(s) => r matches Link::Did(t) && t@ == s@,
            },
    {
        match self {
            Link::AtUri(s) => Link::AtUri(s.clone()),
            Link::Uri(s) => Link::Uri(s.clone()),
            Link::Did(s) => Link::Did(s.clone()),
        }
    }
}

impl Link {
    /// What the link points to, whatever its kind.
    pub fn into_string(self) -> (r: String)
        ensures
            r@ == self@,
            match self {
                Link::AtUri(s) => r@ == s@,
                Link::Uri(s) => r@ == s@,
                Link::Did(s) => r@ == s@,
            },
    {
        match self {
            Link::AtUri(s) => s,
            Link::Uri(s) => s,
            Link::Did(s) => s,
        }
    }
}

/// A link, and where in its record it stands.
#[derive(Debug, PartialEq, Eq)]
pub struct CollectedLink {
    pub target: Link,
    pub path: String,
}

impl View for CollectedLink {
    type V = (Text, Text);

    /// The target and the path.
    open spec fn view(&self) -> (Text, Text) {
        (self.target@, self.path@)
    }
}

/// The content of links.
pub open spec fn links_view(links: Seq<CollectedLink>) -> Seq<(Text, Text)> {
    links.map_values(|l: CollectedLink| l@)
}

/// A record: the account that has it, its collection, and its key there.
#[derive(Debug, PartialEq, Eq)]
pub struct RecordId {
    pub did: Did,
    pub collection: String,
    pub rkey: String,
}

impl View for RecordId {
    type V = (Text, Text, Text);

    open spec fn view(&self) -> (Text, Text, Text) {
        (self.did@, self.collection@, self.rkey@)
    }
}

impl RecordId {
    pub fn did(&self) -> (r: Did)
        ensures
            r@ == self@.0,
            r.0@ == self.did.0@,
    {
        self.did.clone()
    }

    pub fn collection(&self) -> (r: String)
        ensures
            r@ == self@.1,
            r@ == self.collection@,
    {
        self.collection.clone()
    }

    pub fn rkey(&self) -> (r: String)
        ensures
            r@ == self@.2,
            r@ == self.rkey@,
    {
        self.rkey.clone()
    }
}

/// The content of records.
pub open spec fn records_view(records: Seq<RecordId>) -> Seq<(Text, Text, Text)> {
    records.map_values(|r: RecordId| r@)
}

/// Something that changes what is stored.
#[derive(Debug, PartialEq, Eq)]
pub enum ActionableEvent {
    CreateLinks { record_id: RecordId, links: Vec<CollectedLink> },
    UpdateLinks { record_id: RecordId, new_links: Vec<CollectedLink> },
    DeleteRecord(RecordId),
    ActivateAccount(Did),
    DeactivateAccount(Did),
    DeleteAccount(Did),
}

/// The content of an event.
pub enum Event {
    CreateLinks { record: (Text, Text, Text), links: Seq<(Text, Text)> },
    UpdateLinks { record: (Text, Text, Text), links: Seq<(Text, Text)> },
    DeleteRecord { record: (Text, Text, Text) },
    ActivateAccount { did: Text },
    DeactivateAccount { did: Text },
    DeleteAccount { did: Text },
}

impl View for ActionableEvent {
    type V = Event;

    open spec fn view(&self) -> Event {
        match self {
            ActionableEvent::CreateLinks { record_id, links } => Event::CreateLinks {
                record: record_id@,
                links: links_view(links@),
            },
            ActionableEvent::UpdateLinks { record_id, new_links } => Event::UpdateLinks {
                record: record_id@,
                links: links_view(new_links@),
            },
            ActionableEvent::DeleteRecord(record_id) => Event::DeleteRecord { record: record_id@ },
            ActionableEvent::ActivateAccount(did) => Event::ActivateAccount { did: did@ },
            ActionableEvent::DeactivateAccount(did) => Event::DeactivateAccount { did: did@ },
            ActionableEvent::DeleteAccount(did) => Event::DeleteAccount { did: did@ },
        }
    }
}

/// A part of a list that grows at its end and is read from there.
#[derive(Debug, PartialEq, Eq)]
pub struct PagedAppendingCollection<T> {
    /// How many entries the list has, and how many of them are gone.
    pub version: (u64, u64),
    /// The entries of this part that are there, newest first.
    pub items: Vec<T>,
    /// Where the next part ends, if there is one.
    pub next: Option<u64>,
}

}
