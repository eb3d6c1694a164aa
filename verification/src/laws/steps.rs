//! What each event does, said of the event as it comes in and of what is stored.
use crate::db::{apply_all, row, Cf, Db};
use crate::error::Error;
use crate::events::{links_view, ActionableEvent, CollectedLink, Event, Link, RecordId};
use crate::id_table::{first_seq, seq_key};
use crate::laws::accounts::law_set_account;
use crate::laws::consistency::{consistent, follows, in_order, links_to, listed};
use crate::laws::creating::{
    copies, created, entries, ids_left, kept_or_given, law_create, linkers_to, links_fit, lists,
    record_fits, roomy, times,
};
use crate::laws::deleting::{
    account_gone, law_account_gone_record, law_delete_account, links_from, swept, Record,
};
use crate::laws::histories::{event_fits, law_empty, law_push, law_reopen, links_in, space_left};
use crate::laws::keys::id_limit;
use crate::laws::merging::occurrences;
use crate::laws::pieces::law_newest_goes;
use crate::laws::reading::lemma_linkers_to;
use crate::laws::removing::{
    law_delete_record, law_update_as_two, lemma_can_unlink, stored_key, stored_targets,
};
use crate::linkers::alive;
use crate::model::{
    cursor_of, did_of_id, did_value, linkers_of, pushed, record_targets, records_of, target_id,
    Pushed, Seqs,
};
use crate::records::{Did, Linker, RecordLinkKey, Stored, TargetKey, Text};
use vstd::prelude::*;
use vstd::utf8::encode_utf8;

verus! {

/// A database in order, with the sequences of a store over it, after no more than `n` events and
/// links.
pub open spec fn sound(db: Db, seqs: Seqs, n: nat) -> bool {
    &&& consistent(db)
    &&& follows(db, seqs)
    &&& seqs.did <= n + 1
    &&& seqs.target <= n + 1
    &&& forall|id: u64| (#[trigger] linkers_of(db, id))->Ok_0.len() <= n
}

/// All is in order where nothing has happened yet.
pub proof fn law_sound_start()
    ensures
        sound(Map::empty(), Seqs { did: 1, target: 1 }, 0),
{
    law_empty();
    let db: Db = Map::empty();
    assert forall|id: u64| (#[trigger] linkers_of(db, id))->Ok_0.len() <= 0 by {}
}

/// All stays in order where a store is opened again, with the sequences that it starts with.
pub proof fn law_sound_reopened(db: Db, seqs: Seqs, n: nat)
    requires
        sound(db, seqs, n),
        n < u64::MAX - 2,
    ensures
        ({
            let did = first_seq(row(db, Cf::Default, seq_key(Cf::DidIds)));
            let target = first_seq(row(db, Cf::Default, seq_key(Cf::TargetIds)));
            &&& did is Ok
            &&& target is Ok
            &&& sound(db, Seqs { did: did->Ok_0, target: target->Ok_0 }, n + 1)
            &&& seqs.did <= did->Ok_0
            &&& seqs.target <= target->Ok_0
        }),
{
    law_reopen(db);
}

/// All is in order where a database is.
pub proof fn law_sound_consistent(db: Db, seqs: Seqs, n: nat)
    requires
        sound(db, seqs, n),
    ensures
        consistent(db),
{
}

/// Any event can happen, whatever its texts, and all stays in order; the cursor is the one that
/// came with the event. (The lengths of the texts are numbers of 64 bits, and there have been
/// fewer events and links than there are ids for accounts.)
pub proof fn law_sound_event(db: Db, seqs: Seqs, n: nat, event: ActionableEvent, cursor: u64)
    requires
        sound(db, seqs, n),
        match event {
            ActionableEvent::CreateLinks { record_id, links } => {
                &&& n + links@.len() + 3 < 0x0700_0000_0000_0000
                &&& encode_utf8(record_id.did.0@).len() <= u64::MAX
                &&& encode_utf8(record_id.collection@).len() <= u64::MAX
                &&& encode_utf8(record_id.rkey@).len() <= u64::MAX
                &&& forall|i: int|
                    0 <= i < links@.len() ==> encode_utf8(
                        match (#[trigger] links@[i]).target {
                            Link::AtUri(s) => s@,
                            Link::Uri(s) => s@,
                            Link::Did(s) => s@,
                        },
                    ).len() <= u64::MAX && encode_utf8(links@[i].path@).len() <= u64::MAX
            },
            ActionableEvent::UpdateLinks { record_id, new_links } => {
                &&& n + new_links@.len() + 3 < 0x0700_0000_0000_0000
                &&& encode_utf8(record_id.did.0@).len() <= u64::MAX
                &&& encode_utf8(record_id.collection@).len() <= u64::MAX
                &&& encode_utf8(record_id.rkey@).len() <= u64::MAX
                &&& forall|i: int|
                    0 <= i < new_links@.len() ==> encode_utf8(
                        match (#[trigger] new_links@[i]).target {
                            Link::AtUri(s) => s@,
                            Link::Uri(s) => s@,
                            Link::Did(s) => s@,
                        },
                    ).len() <= u64::MAX && encode_utf8(new_links@[i].path@).len() <= u64::MAX
            },
            ActionableEvent::DeleteRecord(record_id) => {
                &&& encode_utf8(record_id.did.0@).len() <= u64::MAX
                &&& encode_utf8(record_id.collection@).len() <= u64::MAX
                &&& encode_utf8(record_id.rkey@).len() <= u64::MAX
            },
            ActionableEvent::ActivateAccount(did) => encode_utf8(did.0@).len() <= u64::MAX,
            ActionableEvent::DeactivateAccount(did) => encode_utf8(did.0@).len() <= u64::MAX,
            ActionableEvent::DeleteAccount(did) => encode_utf8(did.0@).len() <= u64::MAX,
        },
    ensures
        ({
            let p = pushed(db, event@, cursor, seqs);
            let after = apply_all(db, p->Ok_0.batches);
            let links = match event {
                ActionableEvent::CreateLinks { links, .. } => links@.len(),
                ActionableEvent::UpdateLinks { new_links, .. } => new_links@.len(),
                _ => 0,
            };
            &&& p is Ok
            &&& sound(after, p->Ok_0.seqs, n + links + 1)
            &&& cursor_of(after) == Ok::<Option<u64>, Error>(Some(cursor))
            &&& seqs.did <= p->Ok_0.seqs.did <= seqs.did + 1
            &&& seqs.target <= p->Ok_0.seqs.target <= seqs.target + links
        }),
{
    match event {
        ActionableEvent::CreateLinks { record_id, links } => {
            lemma_links_fit(links@);
            lemma_room(db, seqs, n, links@.len());
        },
        ActionableEvent::UpdateLinks { record_id, new_links } => {
            lemma_links_fit(new_links@);
            lemma_room(db, seqs, n, new_links@.len());
        },
        _ => {},
    }
    assert(event_fits(event@));
    assert(space_left(db, event@, seqs));
    law_push(db, event@, cursor, seqs);
    let p = pushed(db, event@, cursor, seqs)->Ok_0;
    let after = apply_all(db, p.batches);
    assert forall|id: u64| (#[trigger] linkers_of(after, id))->Ok_0.len() <= n + links_in(event@)
        + 1 by {
        assert(linkers_of(db, id)->Ok_0.len() <= n);
    }
}

/// Links whose texts have lengths of 64 bits fit the byte format.
proof fn lemma_links_fit(links: Seq<CollectedLink>)
    requires
        forall|i: int|
            0 <= i < links.len() ==> encode_utf8(
                match (#[trigger] links[i]).target {
                    Link::AtUri(s) => s@,
                    Link::Uri(s) => s@,
                    Link::Did(s) => s@,
                },
            ).len() <= u64::MAX && encode_utf8(links[i].path@).len() <= u64::MAX,
    ensures
        links_fit(links_view(links)),
        links_view(links).len() == links.len(),
{
    let view = links_view(links);
    assert forall|i: int| 0 <= i < view.len() implies encode_utf8((#[trigger] view[i]).0).len()
        <= u64::MAX && encode_utf8(view[i].1).len() <= u64::MAX by {
        assert(view[i] == links[i]@);
    }
}

/// There is room left after few events and links.
proof fn lemma_room(db: Db, seqs: Seqs, n: nat, m: nat)
    requires
        sound(db, seqs, n),
        n + m + 3 < id_limit(),
    ensures
        ids_left(seqs, m),
        roomy(db, m),
{
    assert forall|id: u64| (#[trigger] linkers_of(db, id))->Ok_0.len() + m <= u64::MAX by {
        assert(linkers_of(db, id)->Ok_0.len() <= n);
    }
}

/// How often links go to a target, said of the links as they come in.
proof fn lemma_times(links: Seq<CollectedLink>, collection: Text, key: (Text, Text, Text))
    ensures
        key.1 != collection ==> times(links_view(links), collection, key) == 0,
        key.1 == collection ==> times(links_view(links), collection, key) == links.filter(
            |l: CollectedLink|
                (match l.target {
                    Link::AtUri(s) => s@,
                    Link::Uri(s) => s@,
                    Link::Did(s) => s@,
                }) == key.0 && l.path@ == key.2,
        ).len(),
    decreases links.len(),
{
    reveal(Seq::filter);
    if links.len() > 0 {
        lemma_times(links.drop_last(), collection, key);
        assert(links_view(links).drop_last() =~= links_view(links.drop_last()));
    }
}

// ---------------------------------------------------------------------------------------------
// a record comes

/// A record that comes with links stores its account, if it is new, as an active one with the next
/// id, and leaves all other accounts as they were.
pub proof fn law_create_accounts(
    db: Db,
    seqs: Seqs,
    n: nat,
    record_id: RecordId,
    links: Vec<CollectedLink>,
    cursor: u64,
)
    requires
        sound(db, seqs, n),
        n + links@.len() + 3 < 0x0700_0000_0000_0000,
        encode_utf8(record_id.did.0@).len() <= u64::MAX,
        encode_utf8(record_id.collection@).len() <= u64::MAX,
        encode_utf8(record_id.rkey@).len() <= u64::MAX,
        forall|i: int|
            0 <= i < links@.len() ==> encode_utf8(
                match (#[trigger] links@[i]).target {
                    Link::AtUri(s) => s@,
                    Link::Uri(s) => s@,
                    Link::Did(s) => s@,
                },
            ).len() <= u64::MAX && encode_utf8(links@[i].path@).len() <= u64::MAX,
    ensures
        ({
            let event = ActionableEvent::CreateLinks { record_id, links };
            let p = pushed(db, event@, cursor, seqs);
            let after = apply_all(db, p->Ok_0.batches);
            let did = record_id.did.0@;
            &&& p is Ok
            &&& match did_value(db, did)->Ok_0 {
                Some((id, active)) => {
                    &&& did_value(after, did) == Ok::<Option<(u64, bool)>, Error>(
                        Some((id, active)),
                    )
                    &&& did_of_id(after, id) == Ok::<Option<Text>, Error>(Some(did))
                    &&& forall|other: u64|
                        other < 0x0700_0000_0000_0000 && other != id ==> #[trigger] did_of_id(
                            after,
                            other,
                        ) == did_of_id(db, other)
                },
                None => {
                    let id = (seqs.did + 1) as u64;
                    &&& did_value(after, did) == Ok::<Option<(u64, bool)>, Error>(Some((id, true)))
                    &&& did_of_id(after, id) == Ok::<Option<Text>, Error>(Some(did))
                    &&& forall|other: u64|
                        other < 0x0700_0000_0000_0000 && other != id ==> #[trigger] did_of_id(
                            after,
                            other,
                        ) == did_of_id(db, other)
                },
            }
            &&& forall|other: Text|
                encode_utf8(other).len() <= u64::MAX && other != did ==> #[trigger] did_value(
                    after,
                    other,
                ) == did_value(db, other)
        }),
{
    lemma_created(db, seqs, n, record_id, links, cursor);
    let p = pushed(db, ActionableEvent::CreateLinks { record_id, links }@, cursor, seqs);
    let after = apply_all(db, p->Ok_0.batches);
    assert forall|other: Text|
        encode_utf8(other).len() <= u64::MAX && other != record_id.did.0@ implies #[trigger] did_value(
        after,
        other,
    ) == did_value(db, other) by {
        assert(Did::fits(other));
    }
}

/// What comes of a record with links.
pub proof fn lemma_created(
    db: Db,
    seqs: Seqs,
    n: nat,
    record_id: RecordId,
    links: Vec<CollectedLink>,
    cursor: u64,
)
    requires
        sound(db, seqs, n),
        n + links@.len() + 3 < id_limit(),
        encode_utf8(record_id.did.0@).len() <= u64::MAX,
        encode_utf8(record_id.collection@).len() <= u64::MAX,
        encode_utf8(record_id.rkey@).len() <= u64::MAX,
        forall|i: int|
            0 <= i < links@.len() ==> encode_utf8(
                match (#[trigger] links@[i]).target {
                    Link::AtUri(s) => s@,
                    Link::Uri(s) => s@,
                    Link::Did(s) => s@,
                },
            ).len() <= u64::MAX && encode_utf8(links@[i].path@).len() <= u64::MAX,
    ensures
        ({
            let record = (record_id.did.0@, record_id.collection@, record_id.rkey@);
            let p = pushed(
                db,
                ActionableEvent::CreateLinks { record_id, links }@,
                cursor,
                seqs,
            );
            let after = apply_all(db, p->Ok_0.batches);
            &&& p is Ok
            &&& consistent(after)
            &&& follows(after, p->Ok_0.seqs)
            &&& record_fits(record)
            &&& links_fit(links_view(links@))
            &&& links_view(links@).len() == links@.len()
            &&& ids_left(seqs, links@.len())
            &&& roomy(db, links@.len())
            &&& created(db, record, links_view(links@), seqs, after, p->Ok_0.seqs)
            &&& p == pushed(
                db,
                Event::CreateLinks { record, links: links_view(links@) },
                cursor,
                seqs,
            )
        }),
{
    lemma_links_fit(links@);
    lemma_room(db, seqs, n, links@.len());
    law_create(db, record_id@, links_view(links@), cursor, seqs);
}

/// A record that comes with links puts itself behind the linkers of each target that they go to,
/// once for every link; a target that is not stored is given a new id and has the record as its
/// only linker. All other targets are as they were.
pub proof fn law_create_targets(
    db: Db,
    seqs: Seqs,
    n: nat,
    record_id: RecordId,
    links: Vec<CollectedLink>,
    cursor: u64,
    key: (Text, Text, Text),
)
    requires
        sound(db, seqs, n),
        n + links@.len() + 3 < 0x0700_0000_0000_0000,
        encode_utf8(record_id.did.0@).len() <= u64::MAX,
        encode_utf8(record_id.collection@).len() <= u64::MAX,
        encode_utf8(record_id.rkey@).len() <= u64::MAX,
        forall|i: int|
            0 <= i < links@.len() ==> encode_utf8(
                match (#[trigger] links@[i]).target {
                    Link::AtUri(s) => s@,
                    Link::Uri(s) => s@,
                    Link::Did(s) => s@,
                },
            ).len() <= u64::MAX && encode_utf8(links@[i].path@).len() <= u64::MAX,
        encode_utf8(key.0).len() <= u64::MAX,
        encode_utf8(key.1).len() <= u64::MAX,
        encode_utf8(key.2).len() <= u64::MAX,
    ensures
        ({
            let event = ActionableEvent::CreateLinks { record_id, links };
            let p = pushed(db, event@, cursor, seqs);
            let after = apply_all(db, p->Ok_0.batches);
            let did_id = did_value(after, record_id.did.0@)->Ok_0.unwrap().0;
            let times = if key.1 != record_id.collection@ {
                0
            } else {
                links@.filter(
                    |l: CollectedLink|
                        (match l.target {
                            Link::AtUri(s) => s@,
                            Link::Uri(s) => s@,
                            Link::Did(s) => s@,
                        }) == key.0 && l.path@ == key.2,
                ).len()
            };
            &&& p is Ok
            &&& target_id(db, key) is Ok
            &&& match target_id(db, key)->Ok_0 {
                Some(id) => {
                    &&& target_id(after, key) == Ok::<Option<u64>, Error>(Some(id))
                    &&& linkers_of(db, id) is Ok
                    &&& linkers_of(after, id) == Ok::<Seq<Linker>, Error>(
                        linkers_of(db, id)->Ok_0 + Seq::new(
                            times,
                            |i: int| (did_id, record_id.rkey@),
                        ),
                    )
                },
                None => if times == 0 {
                    target_id(after, key) == Ok::<Option<u64>, Error>(None)
                } else {
                    &&& target_id(after, key) is Ok
                    &&& target_id(after, key)->Ok_0 matches Some(id) && seqs.target < id
                        <= p->Ok_0.seqs.target && linkers_of(after, id) == Ok::<
                        Seq<Linker>,
                        Error,
                    >(Seq::empty().push((did_id, record_id.rkey@)))
                },
            }
        }),
{
    lemma_created(db, seqs, n, record_id, links, cursor);
    let p = pushed(db, ActionableEvent::CreateLinks { record_id, links }@, cursor, seqs)->Ok_0;
    let after = apply_all(db, p.batches);
    let ls = links_view(links@);
    let did_id = did_value(after, record_id.did.0@)->Ok_0.unwrap().0;
    let linker = (did_id, record_id.rkey@);
    lemma_times(links@, record_id.collection@, key);
    assert(TargetKey::fits(key));
    assert(kept_or_given(
        target_id(db, key),
        target_id(after, key),
        times(ls, record_id.collection@, key),
        seqs.target,
        p.seqs.target,
    ));
    lemma_linkers_to(db, key);
    lemma_linkers_to(after, key);
    let m = entries(db, ls, record_id.collection@, key);
    assert(linkers_to(after, key) == linkers_to(db, key) + copies(linker, m));
    assert(copies(linker, m) =~= Seq::new(m, |i: int| (did_id, record_id.rkey@)));
    if target_id(db, key)->Ok_0 is None && m == 1 {
        assert(Seq::<Linker>::empty() + copies(linker, 1) =~= Seq::empty().push(linker));
    }
}

/// A record that came with links has them, each with its path, in their order; it lists the id of
/// each target that they go to as often as it has put itself behind the linkers of the target, and
/// no other id of a target. All other records are as they were.
pub proof fn law_create_records(
    db: Db,
    seqs: Seqs,
    n: nat,
    record_id: RecordId,
    links: Vec<CollectedLink>,
    cursor: u64,
    key: (Text, Text, Text),
)
    requires
        sound(db, seqs, n),
        n + links@.len() + 3 < 0x0700_0000_0000_0000,
        encode_utf8(record_id.did.0@).len() <= u64::MAX,
        encode_utf8(record_id.collection@).len() <= u64::MAX,
        encode_utf8(record_id.rkey@).len() <= u64::MAX,
        forall|i: int|
            0 <= i < links@.len() ==> encode_utf8(
                match (#[trigger] links@[i]).target {
                    Link::AtUri(s) => s@,
                    Link::Uri(s) => s@,
                    Link::Did(s) => s@,
                },
            ).len() <= u64::MAX && encode_utf8(links@[i].path@).len() <= u64::MAX,
        encode_utf8(key.0).len() <= u64::MAX,
        encode_utf8(key.1).len() <= u64::MAX,
        encode_utf8(key.2).len() <= u64::MAX,
    ensures
        ({
            let event = ActionableEvent::CreateLinks { record_id, links };
            let p = pushed(db, event@, cursor, seqs);
            let after = apply_all(db, p->Ok_0.batches);
            let did_id = did_value(after, record_id.did.0@)->Ok_0.unwrap().0;
            let stored = (did_id, record_id.collection@, record_id.rkey@);
            let times = if key.1 != record_id.collection@ {
                0
            } else {
                links@.filter(
                    |l: CollectedLink|
                        (match l.target {
                            Link::AtUri(s) => s@,
                            Link::Uri(s) => s@,
                            Link::Did(s) => s@,
                        }) == key.0 && l.path@ == key.2,
                ).len()
            };
            &&& p is Ok
            &&& record_targets(after, stored) matches Ok(Some(targets)) && targets.len()
                == links@.len() && (forall|i: int|
                0 <= i < links@.len() ==> (#[trigger] targets[i]).0 == links@[i].path@) && (
            target_id(after, key)->Ok_0 matches Some(id) ==> targets.filter(
                |t: (Text, u64)| t.1 == id,
            ).len() == if times > 1 && target_id(db, key)->Ok_0 is None {
                1
            } else {
                times
            })
            &&& forall|other: (u64, Text, Text)|
                encode_utf8(other.1).len() <= u64::MAX && encode_utf8(other.2).len() <= u64::MAX
                    && other != stored ==> #[trigger] record_targets(after, other)
                    == record_targets(db, other)
        }),
{
    lemma_created(db, seqs, n, record_id, links, cursor);
    let p = pushed(db, ActionableEvent::CreateLinks { record_id, links }@, cursor, seqs)->Ok_0;
    let after = apply_all(db, p.batches);
    let ls = links_view(links@);
    let did_id = did_value(after, record_id.did.0@)->Ok_0.unwrap().0;
    let stored = (did_id, record_id.collection@, record_id.rkey@);
    lemma_times(links@, record_id.collection@, key);
    assert(TargetKey::fits(key));
    let targets = record_targets(after, stored)->Ok_0.unwrap();
    assert(lists(target_id(after, key), targets, entries(db, ls, record_id.collection@, key)));
    lemma_linkers_to(db, key);
    lemma_linkers_to(after, key);
    if let Some(id) = target_id(after, key)->Ok_0 {
        lemma_listed_filter(targets, id);
    }
    assert forall|i: int| 0 <= i < links@.len() implies (#[trigger] targets[i]).0
        == links@[i].path@ by {
        assert(ls[i] == links@[i]@);
    }
    assert forall|other: (u64, Text, Text)|
        encode_utf8(other.1).len() <= u64::MAX && encode_utf8(other.2).len() <= u64::MAX && other
            != stored implies #[trigger] record_targets(after, other) == record_targets(
        db,
        other,
    ) by {
        assert(RecordLinkKey::fits(other));
    }
}

/// How often links list a target is how many of them do.
pub proof fn lemma_listed_filter(targets: Seq<(Text, u64)>, id: u64)
    ensures
        listed(targets, id) == targets.filter(|t: (Text, u64)| t.1 == id).len(),
    decreases targets.len(),
{
    reveal(Seq::filter);
    if targets.len() > 0 {
        lemma_listed_filter(targets.drop_last(), id);
    }
}

// ---------------------------------------------------------------------------------------------
// a record goes

/// A record that goes changes no account and no id.
pub proof fn law_delete_ids(db: Db, seqs: Seqs, n: nat, record_id: RecordId, cursor: u64)
    requires
        sound(db, seqs, n),
        encode_utf8(record_id.did.0@).len() <= u64::MAX,
        encode_utf8(record_id.collection@).len() <= u64::MAX,
        encode_utf8(record_id.rkey@).len() <= u64::MAX,
    ensures
        ({
            let p = pushed(db, ActionableEvent::DeleteRecord(record_id)@, cursor, seqs);
            let after = apply_all(db, p->Ok_0.batches);
            &&& p is Ok
            &&& p->Ok_0.seqs == seqs
            &&& forall|did: Text| #[trigger] did_value(after, did) == did_value(db, did)
            &&& forall|id: u64| #[trigger] did_of_id(after, id) == did_of_id(db, id)
            &&& forall|key: (Text, Text, Text)| #[trigger]
                target_id(after, key) == target_id(db, key)
        }),
{
    law_delete_record(db, record_id@, cursor, seqs);
}

/// A record that goes is not stored any more, and each target that one of its links went to has
/// lost the newest entry of the record, where an empty entry stays. All other records and all
/// other entries are as they were. Where the record was not stored, nothing changes.
pub proof fn law_delete_links(db: Db, seqs: Seqs, n: nat, record_id: RecordId, cursor: u64, id: u64)
    requires
        sound(db, seqs, n),
        encode_utf8(record_id.did.0@).len() <= u64::MAX,
        encode_utf8(record_id.collection@).len() <= u64::MAX,
        encode_utf8(record_id.rkey@).len() <= u64::MAX,
    ensures
        ({
            let p = pushed(db, ActionableEvent::DeleteRecord(record_id)@, cursor, seqs);
            let after = apply_all(db, p->Ok_0.batches);
            let old = linkers_of(db, id)->Ok_0;
            let new = linkers_of(after, id)->Ok_0;
            &&& p is Ok
            &&& linkers_of(db, id) is Ok
            &&& linkers_of(after, id) is Ok
            &&& match did_value(db, record_id.did.0@)->Ok_0 {
                None => {
                    &&& new == old
                    &&& forall|other: (u64, Text, Text)|
                        encode_utf8(other.1).len() <= u64::MAX && encode_utf8(other.2).len()
                            <= u64::MAX ==> #[trigger] record_targets(after, other)
                            == record_targets(db, other)
                },
                Some((did_id, _)) => {
                    let stored = (did_id, record_id.collection@, record_id.rkey@);
                    let linker = (did_id, record_id.rkey@);
                    &&& record_targets(after, stored) == Ok::<Option<Seq<(Text, u64)>>, Error>(None)
                    &&& forall|other: (u64, Text, Text)|
                        encode_utf8(other.1).len() <= u64::MAX && encode_utf8(other.2).len()
                            <= u64::MAX && other != stored ==> #[trigger] record_targets(
                            after,
                            other,
                        ) == record_targets(db, other)
                    &&& if record_targets(db, stored)->Ok_0 matches Some(targets) && exists|i: int|
                        0 <= i < targets.len() && (#[trigger] targets[i]).1 == id {
                        new.len() == old.len() && exists|i: int|
                            {
                                &&& 0 <= i < old.len()
                                &&& #[trigger] old[i] == linker
                                &&& new[i].0 == 0
                                &&& new[i].1.len() == 0
                                &&& forall|j: int| i < j < old.len() ==> #[trigger] old[j] != linker
                                &&& forall|j: int|
                                    0 <= j < old.len() && j != i ==> #[trigger] new[j] == old[j]
                            }
                    } else {
                        new == old
                    }
                },
            }
        }),
{
    let record = (record_id.did.0@, record_id.collection@, record_id.rkey@);
    law_delete_record(db, record, cursor, seqs);
    let own = choose|own: Map<u64, Text>| in_order(db, own);
    let p = pushed(db, ActionableEvent::DeleteRecord(record_id)@, cursor, seqs)->Ok_0;
    let after = apply_all(db, p.batches);
    assert(did_value(db, record.0) is Ok);
    assert(linkers_of(db, id) is Ok);
    assert forall|other: (u64, Text, Text)|
        encode_utf8(other.1).len() <= u64::MAX && encode_utf8(other.2).len()
            <= u64::MAX implies #[trigger] record_targets(after, other) == if stored_key(db, record)
        == Some(other) {
        Ok::<Option<Seq<(Text, u64)>>, Error>(None)
    } else {
        record_targets(db, other)
    } by {
        assert(RecordLinkKey::fits(other));
    }
    let targets = stored_targets(db, record);
    if links_to(targets, id) {
        let stored = stored_key(db, record).unwrap();
        assert(RecordLinkKey::fits(stored));
        assert(record_targets(db, stored) is Ok);
        lemma_can_unlink(db, own, stored, targets);
        let i = choose|i: int| 0 <= i < targets.len() && (#[trigger] targets[i]).1 == id;
        assert(linkers_of(db, targets[i].1)->Ok_0.contains((stored.0, stored.2)));
        law_newest_goes(linkers_of(db, id)->Ok_0, (stored.0, stored.2));
    } else {
        assert(linkers_of(after, id) == linkers_of(db, id));
        if let Some((did_id, _)) = did_value(db, record.0)->Ok_0 {
            let stored = (did_id, record.1, record.2);
            assert(RecordLinkKey::fits(stored));
            assert(record_targets(db, stored) is Ok);
        }
    }
}

/// A record that changes its links leaves the very database behind, and the very sequences, that
/// it leaves where it goes and comes again with its new links. It cannot do so exactly where one
/// of the two cannot be done, and for the same reason.
#[verifier::rlimit(40)]
pub proof fn law_update_event(
    db: Db,
    record_id: RecordId,
    new_links: Vec<CollectedLink>,
    earlier: u64,
    cursor: u64,
    seqs: Seqs,
)
    ensures
        ({
            let p = pushed(
                db,
                ActionableEvent::UpdateLinks { record_id, new_links }@,
                cursor,
                seqs,
            );
            match pushed(db, ActionableEvent::DeleteRecord(record_id)@, earlier, seqs) {
                Err(e) => p == Err::<Pushed, Error>(e),
                Ok(gone) => {
                    let between = apply_all(db, gone.batches);
                    match pushed(
                        between,
                        ActionableEvent::CreateLinks { record_id, links: new_links }@,
                        cursor,
                        gone.seqs,
                    ) {
                        Err(e) => p == Err::<Pushed, Error>(e),
                        Ok(come) => {
                            &&& p is Ok
                            &&& p->Ok_0.seqs == come.seqs
                            &&& apply_all(db, p->Ok_0.batches) == apply_all(between, come.batches)
                        },
                    }
                },
            }
        }),
{
    law_update_as_two(db, record_id@, links_view(new_links@), earlier, cursor, seqs);
}

// ---------------------------------------------------------------------------------------------
// an account changes

/// An account that is activated or deactivated keeps its id and is active or not; one that is not
/// stored is still not stored. All else is as it was.
pub proof fn law_switch_event(
    db: Db,
    seqs: Seqs,
    n: nat,
    did: Did,
    active: bool,
    cursor: u64,
)
    requires
        sound(db, seqs, n),
        encode_utf8(did.0@).len() <= u64::MAX,
    ensures
        ({
            let event = if active {
                ActionableEvent::ActivateAccount(did)
            } else {
                ActionableEvent::DeactivateAccount(did)
            };
            let p = pushed(db, event@, cursor, seqs);
            let after = apply_all(db, p->Ok_0.batches);
            &&& p is Ok
            &&& p->Ok_0.seqs == seqs
            &&& match did_value(db, did.0@)->Ok_0 {
                Some((id, _)) => did_value(after, did.0@) == Ok::<Option<(u64, bool)>, Error>(
                    Some((id, active)),
                ),
                None => did_value(after, did.0@) == Ok::<Option<(u64, bool)>, Error>(None),
            }
            &&& forall|other: Text|
                encode_utf8(other).len() <= u64::MAX && other != did.0@ ==> #[trigger] did_value(
                    after,
                    other,
                ) == did_value(db, other)
            &&& forall|id: u64|
                id < 0x0700_0000_0000_0000 ==> #[trigger] did_of_id(after, id) == did_of_id(db, id)
            &&& forall|key: (Text, Text, Text)| #[trigger]
                target_id(after, key) == target_id(db, key)
            &&& forall|id: u64| #[trigger] linkers_of(after, id) == linkers_of(db, id)
            &&& forall|key: (u64, Text, Text)| #[trigger]
                record_targets(after, key) == record_targets(db, key)
        }),
{
    law_set_account(db, did.0@, active, cursor, seqs);
    let event = if active {
        ActionableEvent::ActivateAccount(did)
    } else {
        ActionableEvent::DeactivateAccount(did)
    };
    let after = apply_all(db, pushed(db, event@, cursor, seqs)->Ok_0.batches);
    assert forall|other: Text| encode_utf8(other).len() <= u64::MAX && other
        != did.0@ implies #[trigger] did_value(after, other) == did_value(db, other) by {
        assert(Did::fits(other));
    }
}

/// An account that goes is not stored any more. All other accounts, all ids and, where the account
/// was not stored, all records and linkers are as they were.
pub proof fn law_delete_account_ids(db: Db, seqs: Seqs, n: nat, did: Did, cursor: u64)
    requires
        sound(db, seqs, n),
        encode_utf8(did.0@).len() <= u64::MAX,
    ensures
        ({
            let p = pushed(db, ActionableEvent::DeleteAccount(did)@, cursor, seqs);
            let after = apply_all(db, p->Ok_0.batches);
            &&& p is Ok
            &&& p->Ok_0.seqs == seqs
            &&& account_gone(db, did.0@, after)
            &&& did_value(after, did.0@) == Ok::<Option<(u64, bool)>, Error>(None)
            &&& forall|other: Text|
                encode_utf8(other).len() <= u64::MAX && other != did.0@ ==> #[trigger] did_value(
                    after,
                    other,
                ) == did_value(db, other)
            &&& forall|id: u64|
                id < 0x0700_0000_0000_0000 ==> #[trigger] did_of_id(after, id) == did_of_id(db, id)
            &&& forall|key: (Text, Text, Text)| #[trigger]
                target_id(after, key) == target_id(db, key)
            &&& did_value(db, did.0@)->Ok_0 is None ==> {
                &&& forall|key: (u64, Text, Text)|
                    encode_utf8(key.1).len() <= u64::MAX && encode_utf8(key.2).len() <= u64::MAX
                        ==> #[trigger] record_targets(after, key) == record_targets(db, key)
                &&& forall|id: u64| #[trigger] linkers_of(after, id) == linkers_of(db, id)
            }
        }),
{
    law_delete_account(db, did.0@, cursor, seqs);
    let after = apply_all(
        db,
        pushed(db, ActionableEvent::DeleteAccount(did)@, cursor, seqs)->Ok_0.batches,
    );
    assert forall|other: Text| encode_utf8(other).len() <= u64::MAX && other
        != did.0@ implies #[trigger] did_value(after, other) == did_value(db, other) by {
        assert(Did::fits(other));
    }
    if did_value(db, did.0@)->Ok_0 is None {
        assert forall|key: (u64, Text, Text)|
            encode_utf8(key.1).len() <= u64::MAX && encode_utf8(key.2).len()
                <= u64::MAX implies #[trigger] record_targets(after, key) == record_targets(
            db,
            key,
        ) by {
            assert(RecordLinkKey::fits(key));
        }
    }
}

/// An account that goes takes all its records along, and all their links: there are as many links
/// less to a target as the records of the account had to it, each of them has left an empty entry,
/// and no other entry has changed.
#[verifier::rlimit(40)]
pub proof fn law_delete_account_links(
    db: Db,
    seqs: Seqs,
    n: nat,
    did: Did,
    cursor: u64,
    did_id: u64,
    active: bool,
    id: u64,
)
    requires
        sound(db, seqs, n),
        encode_utf8(did.0@).len() <= u64::MAX,
        did_value(db, did.0@) == Ok::<Option<(u64, bool)>, Error>(Some((did_id, active))),
    ensures
        ({
            let p = pushed(db, ActionableEvent::DeleteAccount(did)@, cursor, seqs);
            let after = apply_all(db, p->Ok_0.batches);
            let old = linkers_of(db, id)->Ok_0;
            let new = linkers_of(after, id)->Ok_0;
            let records = records_of(db, did_id);
            &&& p is Ok
            &&& linkers_of(after, id) is Ok
            &&& forall|key: (u64, Text, Text)|
                encode_utf8(key.1).len() <= u64::MAX && encode_utf8(key.2).len() <= u64::MAX
                    ==> #[trigger] record_targets(after, key) == if key.0 == did_id {
                    Ok::<Option<Seq<(Text, u64)>>, Error>(None)
                } else {
                    record_targets(db, key)
                }
            &&& new.len() == old.len()
            &&& forall|i: int|
                0 <= i < old.len() ==> #[trigger] new[i] == old[i] || (old[i].0 == did_id && new[i].0
                    == 0 && new[i].1.len() == 0)
            &&& old.filter(|e: Linker| e.0 != 0).len() == new.filter(|e: Linker| e.0 != 0).len()
                + records.map_values(
                |r: ((u64, Text, Text), Seq<(Text, u64)>)|
                    r.1.filter(|t: (Text, u64)| t.1 == id).len() as int,
            ).fold_left(0int, |sum: int, m: int| sum + m)
            &&& forall|j: int|
                0 <= j < records.len() && (exists|i: int|
                    0 <= i < records[j].1.len() && (#[trigger] records[j].1[i]).1 == id)
                    ==> old.filter(|e: Linker| e == (did_id, (#[trigger] records[j]).0.2)).len()
                    == new.filter(|e: Linker| e == (did_id, records[j].0.2)).len()
                    + records[j].1.filter(|t: (Text, u64)| t.1 == id).len()
        }),
{
    law_delete_account(db, did.0@, cursor, seqs);
    let after = apply_all(
        db,
        pushed(db, ActionableEvent::DeleteAccount(did)@, cursor, seqs)->Ok_0.batches,
    );
    let records = records_of(db, did_id);
    let old = linkers_of(db, id)->Ok_0;
    let new = linkers_of(after, id)->Ok_0;
    assert(linkers_of(after, id) is Ok && swept(old, new, did_id, records, id));
    lemma_links_from_sum(records, id);
    assert(alive(old) == old.filter(|e: Linker| e.0 != 0).len());
    assert(alive(new) == new.filter(|e: Linker| e.0 != 0).len());
    assert forall|key: (u64, Text, Text)|
        encode_utf8(key.1).len() <= u64::MAX && encode_utf8(key.2).len()
            <= u64::MAX implies #[trigger] record_targets(after, key) == if key.0 == did_id {
        Ok::<Option<Seq<(Text, u64)>>, Error>(None)
    } else {
        record_targets(db, key)
    } by {
        assert(RecordLinkKey::fits(key));
    }
    assert forall|j: int|
        0 <= j < records.len() && (exists|i: int|
            0 <= i < records[j].1.len() && (#[trigger] records[j].1[i]).1 == id)
            implies old.filter(|e: Linker| e == (did_id, (#[trigger] records[j]).0.2)).len()
        == new.filter(|e: Linker| e == (did_id, records[j].0.2)).len() + records[j].1.filter(
        |t: (Text, u64)| t.1 == id,
    ).len() by {
        let i = choose|i: int|
            0 <= i < records[j].1.len() && (#[trigger] records[j].1[i]).1 == id;
        let targets = records[j].1;
        assert(targets[i].1 == id);
        assert(links_to(targets, id));
        law_account_gone_record(db, did.0@, after, j, id);
        lemma_listed_filter(targets, id);
        lemma_occurrences_filter(old, (did_id, records[j].0.2));
        lemma_occurrences_filter(new, (did_id, records[j].0.2));
    }
}

/// The links that records have to a target are those of each of them.
proof fn lemma_links_from_sum(records: Seq<Record>, id: u64)
    ensures
        links_from(records, id) == records.map_values(
            |r: ((u64, Text, Text), Seq<(Text, u64)>)|
                r.1.filter(|t: (Text, u64)| t.1 == id).len() as int,
        ).fold_left(0int, |sum: int, m: int| sum + m),
    decreases records.len(),
{
    let f = |r: ((u64, Text, Text), Seq<(Text, u64)>)|
        r.1.filter(|t: (Text, u64)| t.1 == id).len() as int;
    let ns = records.map_values(f);
    if records.len() > 0 {
        let front = records.drop_last();
        lemma_links_from_sum(front, id);
        lemma_listed_filter(records.last().1, id);
        assert(ns.drop_last() =~= front.map_values(f));
        assert(ns.last() == f(records.last()));
    }
}

/// How often an entry stands among linkers is how many of them are that entry.
pub proof fn lemma_occurrences_filter(linkers: Seq<Linker>, e: Linker)
    ensures
        occurrences(linkers, e) == linkers.filter(|x: Linker| x == e).len(),
    decreases linkers.len(),
{
    reveal(Seq::filter);
    if linkers.len() > 0 {
        lemma_occurrences_filter(linkers.drop_last(), e);
    }
}

}
