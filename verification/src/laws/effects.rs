//! What events do to the answers, said of the events as they come in and of the answers as they are
//! given.
use crate::db::{apply_all, Db};
use crate::error::Error;
use crate::events::{
    links_view, ActionableEvent, CollectedLink, Link, PagedAppendingCollection, RecordId,
};
use crate::laws::accounts::law_set_account;
use crate::laws::answers::law_count_answer;
use crate::laws::consistency::in_order;
use crate::laws::creating::{copies, entries, linkers_to};
use crate::laws::deleting::law_delete_account;
use crate::laws::histories::{
    goes_to, law_account_gone_hidden, law_create_count, law_create_then_delete_counts,
    lemma_times_once, links_differ,
};
use crate::laws::keys::id_limit;
use crate::laws::reading::{
    law_count, law_deactivated, law_page, lemma_linkers_to, lemma_page_part, lemma_shown_all_concat,
    lemma_shown_all_same, of_others, page_part,
};
use crate::laws::steps::{
    law_delete_account_links, law_sound_event, law_update_event, lemma_created, sound,
};
use crate::model::{
    count_of, did_of_id, did_value, page_of, pushed, records_of, shown, shown_all, target_id, Page,
    Seqs,
};
use crate::records::{Did, Linker, Stored, TargetKey, Text};
use crate::storage::reader::page_view;
use vstd::prelude::*;
use vstd::utf8::encode_utf8;

verus! {

/// Links that differ in their text or their path differ.
proof fn lemma_links_differ(links: Seq<CollectedLink>)
    requires
        forall|i: int, j: int|
            0 <= i < j < links.len() ==> (match (#[trigger] links[i]).target {
                Link::AtUri(s) => s@,
                Link::Uri(s) => s@,
                Link::Did(s) => s@,
            }) != (match (#[trigger] links[j]).target {
                Link::AtUri(s) => s@,
                Link::Uri(s) => s@,
                Link::Did(s) => s@,
            }) || links[i].path@ != links[j].path@,
    ensures
        links_differ(links_view(links)),
{
    let view = links_view(links);
    assert forall|i: int, j: int| 0 <= i < j < view.len() implies (#[trigger] view[i]) != (
    #[trigger] view[j]) by {
        assert(view[i] == links[i]@ && view[j] == links[j]@);
    }
}

/// A link goes to a target where its text, its path and the collection of its record are those of
/// the target.
proof fn lemma_goes_to(links: Seq<CollectedLink>, collection: Text, key: (Text, Text, Text))
    ensures
        goes_to(links_view(links), collection, key) <==> key.1 == collection && exists|i: int|
            0 <= i < links.len() && (match (#[trigger] links[i]).target {
                Link::AtUri(s) => s@,
                Link::Uri(s) => s@,
                Link::Did(s) => s@,
            }) == key.0 && links[i].path@ == key.2,
{
    let view = links_view(links);
    if goes_to(view, collection, key) {
        let i = choose|i: int|
            0 <= i < view.len() && key == ((#[trigger] view[i]).0, collection, view[i].1);
        assert(view[i] == links[i]@);
    }
    if key.1 == collection && exists|i: int|
        0 <= i < links.len() && (match (#[trigger] links[i]).target {
            Link::AtUri(s) => s@,
            Link::Uri(s) => s@,
            Link::Did(s) => s@,
        }) == key.0 && links[i].path@ == key.2 {
        let i = choose|i: int|
            0 <= i < links.len() && (match (#[trigger] links[i]).target {
                Link::AtUri(s) => s@,
                Link::Uri(s) => s@,
                Link::Did(s) => s@,
            }) == key.0 && links[i].path@ == key.2;
        assert(view[i] == links[i]@);
        assert(key == (view[i].0, collection, view[i].1));
    }
}

/// Where a record comes with links of which none comes twice, the count of each target that one of
/// them goes to, under its whole text, its path and the collection of the record, is one more;
/// every other count is what it was.
pub proof fn law_create_event_count(
    db: Db,
    seqs: Seqs,
    n: nat,
    record_id: RecordId,
    links: Vec<CollectedLink>,
    cursor: u64,
    key: (Text, Text, Text),
)
    requires
        sound(db, seqs, n),
        n + links@.len() + 3 < 0x0700_0000_0000_0000,
        encode_utf8(record_id.did.0@).len() <= u64::MAX,
        encode_utf8(record_id.collection@).len() <= u64::MAX,
        encode_utf8(record_id.rkey@).len() <= u64::MAX,
        forall|i: int|
            0 <= i < links@.len() ==> encode_utf8(
                match (#[trigger] links@[i]).target {
                    Link::AtUri(s) => s@,
                    Link::Uri(s) => s@,
                    Link::Did(s) => s@,
                },
            ).len() <= u64::MAX && encode_utf8(links@[i].path@).len() <= u64::MAX,
        forall|i: int, j: int|
            0 <= i < j < links@.len() ==> (match (#[trigger] links@[i]).target {
                Link::AtUri(s) => s@,
                Link::Uri(s) => s@,
                Link::Did(s) => s@,
            }) != (match (#[trigger] links@[j]).target {
                Link::AtUri(s) => s@,
                Link::Uri(s) => s@,
                Link::Did(s) => s@,
            }) || links@[i].path@ != links@[j].path@,
        encode_utf8(key.0).len() <= u64::MAX,
        encode_utf8(key.1).len() <= u64::MAX,
        encode_utf8(key.2).len() <= u64::MAX,
    ensures
        ({
            let event = ActionableEvent::CreateLinks { record_id, links };
            let p = pushed(db, event@, cursor, seqs);
            let after = apply_all(db, p->Ok_0.batches);
            &&& p is Ok
            &&& count_of(db, key) is Ok
            &&& count_of(after, key) is Ok
            &&& count_of(after, key)->Ok_0 == count_of(db, key)->Ok_0 + if key.1
                == record_id.collection@ && exists|i: int|
                0 <= i < links@.len() && (match (#[trigger] links@[i]).target {
                    Link::AtUri(s) => s@,
                    Link::Uri(s) => s@,
                    Link::Did(s) => s@,
                }) == key.0 && links@[i].path@ == key.2 {
                1int
            } else {
                0
            }
        }),
{
    lemma_created(db, seqs, n, record_id, links, cursor);
    lemma_links_differ(links@);
    lemma_goes_to(links@, record_id.collection@, key);
    law_create_count(db, record_id@, links_view(links@), cursor, seqs, key);
}

/// Where a record comes with links of which none comes twice, and goes again, every count is what
/// it was.
#[verifier::rlimit(40)]
pub proof fn law_create_delete_event_count(
    db: Db,
    seqs: Seqs,
    n: nat,
    record_id: RecordId,
    links: Vec<CollectedLink>,
    earlier: u64,
    cursor: u64,
    key: (Text, Text, Text),
)
    requires
        sound(db, seqs, n),
        n + links@.len() + 3 < 0x0700_0000_0000_0000,
        encode_utf8(record_id.did.0@).len() <= u64::MAX,
        encode_utf8(record_id.collection@).len() <= u64::MAX,
        encode_utf8(record_id.rkey@).len() <= u64::MAX,
        forall|i: int|
            0 <= i < links@.len() ==> encode_utf8(
                match (#[trigger] links@[i]).target {
                    Link::AtUri(s) => s@,
                    Link::Uri(s) => s@,
                    Link::Did(s) => s@,
                },
            ).len() <= u64::MAX && encode_utf8(links@[i].path@).len() <= u64::MAX,
        forall|i: int, j: int|
            0 <= i < j < links@.len() ==> (match (#[trigger] links@[i]).target {
                Link::AtUri(s) => s@,
                Link::Uri(s) => s@,
                Link::Did(s) => s@,
            }) != (match (#[trigger] links@[j]).target {
                Link::AtUri(s) => s@,
                Link::Uri(s) => s@,
                Link::Did(s) => s@,
            }) || links@[i].path@ != links@[j].path@,
        encode_utf8(key.0).len() <= u64::MAX,
        encode_utf8(key.1).len() <= u64::MAX,
        encode_utf8(key.2).len() <= u64::MAX,
    ensures
        ({
            let come = pushed(
                db,
                ActionableEvent::CreateLinks { record_id, links }@,
                earlier,
                seqs,
            );
            let between = apply_all(db, come->Ok_0.batches);
            let gone = pushed(
                between,
                ActionableEvent::DeleteRecord(record_id)@,
                cursor,
                come->Ok_0.seqs,
            );
            let after = apply_all(between, gone->Ok_0.batches);
            &&& come is Ok
            &&& gone is Ok
            &&& count_of(db, key) is Ok
            &&& count_of(after, key) == count_of(db, key)
        }),
{
    lemma_created(db, seqs, n, record_id, links, earlier);
    lemma_links_differ(links@);
    assert(TargetKey::fits(key));
    law_count(db, key);
    law_create_then_delete_counts(
        db,
        record_id@,
        links_view(links@),
        earlier,
        cursor,
        seqs,
        key,
        1,
        None,
    );
}

/// Where a record comes with links, and then changes them, none coming twice before or after, every
/// count is as if the record had come with the new links alone: the old ones do not count any more.
#[verifier::rlimit(40)]
pub proof fn law_create_update_event_count(
    db: Db,
    seqs: Seqs,
    n: nat,
    record_id: RecordId,
    links: Vec<CollectedLink>,
    new_links: Vec<CollectedLink>,
    earlier: u64,
    cursor: u64,
    key: (Text, Text, Text),
)
    requires
        sound(db, seqs, n),
        n + links@.len() + new_links@.len() + 5 < 0x0700_0000_0000_0000,
        encode_utf8(record_id.did.0@).len() <= u64::MAX,
        encode_utf8(record_id.collection@).len() <= u64::MAX,
        encode_utf8(record_id.rkey@).len() <= u64::MAX,
        forall|i: int|
            0 <= i < links@.len() ==> encode_utf8(
                match (#[trigger] links@[i]).target {
                    Link::AtUri(s) => s@,
                    Link::Uri(s) => s@,
                    Link::Did(s) => s@,
                },
            ).len() <= u64::MAX && encode_utf8(links@[i].path@).len() <= u64::MAX,
        forall|i: int, j: int|
            0 <= i < j < links@.len() ==> (match (#[trigger] links@[i]).target {
                Link::AtUri(s) => s@,
                Link::Uri(s) => s@,
                Link::Did(s) => s@,
            }) != (match (#[trigger] links@[j]).target {
                Link::AtUri(s) => s@,
                Link::Uri(s) => s@,
                Link::Did(s) => s@,
            }) || links@[i].path@ != links@[j].path@,
        forall|i: int|
            0 <= i < new_links@.len() ==> encode_utf8(
                match (#[trigger] new_links@[i]).target {
                    Link::AtUri(s) => s@,
                    Link::Uri(s) => s@,
                    Link::Did(s) => s@,
                },
            ).len() <= u64::MAX && encode_utf8(new_links@[i].path@).len() <= u64::MAX,
        forall|i: int, j: int|
            0 <= i < j < new_links@.len() ==> (match (#[trigger] new_links@[i]).target {
                Link::AtUri(s) => s@,
                Link::Uri(s) => s@,
                Link::Did(s) => s@,
            }) != (match (#[trigger] new_links@[j]).target {
                Link::AtUri(s) => s@,
                Link::Uri(s) => s@,
                Link::Did(s) => s@,
            }) || new_links@[i].path@ != new_links@[j].path@,
        encode_utf8(key.0).len() <= u64::MAX,
        encode_utf8(key.1).len() <= u64::MAX,
        encode_utf8(key.2).len() <= u64::MAX,
    ensures
        ({
            let come = pushed(
                db,
                ActionableEvent::CreateLinks { record_id, links }@,
                earlier,
                seqs,
            );
            let between = apply_all(db, come->Ok_0.batches);
            let changed = pushed(
                between,
                ActionableEvent::UpdateLinks { record_id, new_links }@,
                cursor,
                come->Ok_0.seqs,
            );
            let after = apply_all(between, changed->Ok_0.batches);
            &&& come is Ok
            &&& changed is Ok
            &&& count_of(db, key) is Ok
            &&& count_of(after, key) is Ok
            &&& count_of(after, key)->Ok_0 == count_of(db, key)->Ok_0 + if key.1
                == record_id.collection@ && exists|i: int|
                0 <= i < new_links@.len() && (match (#[trigger] new_links@[i]).target {
                    Link::AtUri(s) => s@,
                    Link::Uri(s) => s@,
                    Link::Did(s) => s@,
                }) == key.0 && new_links@[i].path@ == key.2 {
                1int
            } else {
                0
            }
        }),
{
    let first = ActionableEvent::CreateLinks { record_id, links };
    law_sound_event(db, seqs, n, first, earlier);
    let come = pushed(db, first@, earlier, seqs)->Ok_0;
    let between = apply_all(db, come.batches);
    law_create_delete_event_count(db, seqs, n, record_id, links, earlier, cursor, key);
    lemma_update_count(
        between,
        come.seqs,
        n + links@.len() + 1,
        record_id,
        new_links,
        cursor,
        key,
    );
}

/// Where a record changes its links, every count is what it would be had the record gone, and one
/// more for each target that a new link goes to.
#[verifier::rlimit(40)]
proof fn lemma_update_count(
    db: Db,
    seqs: Seqs,
    n: nat,
    record_id: RecordId,
    new_links: Vec<CollectedLink>,
    cursor: u64,
    key: (Text, Text, Text),
)
    requires
        sound(db, seqs, n),
        n + new_links@.len() + 4 < id_limit(),
        encode_utf8(record_id.did.0@).len() <= u64::MAX,
        encode_utf8(record_id.collection@).len() <= u64::MAX,
        encode_utf8(record_id.rkey@).len() <= u64::MAX,
        forall|i: int|
            0 <= i < new_links@.len() ==> encode_utf8(
                match (#[trigger] new_links@[i]).target {
                    Link::AtUri(s) => s@,
                    Link::Uri(s) => s@,
                    Link::Did(s) => s@,
                },
            ).len() <= u64::MAX && encode_utf8(new_links@[i].path@).len() <= u64::MAX,
        forall|i: int, j: int|
            0 <= i < j < new_links@.len() ==> (match (#[trigger] new_links@[i]).target {
                Link::AtUri(s) => s@,
                Link::Uri(s) => s@,
                Link::Did(s) => s@,
            }) != (match (#[trigger] new_links@[j]).target {
                Link::AtUri(s) => s@,
                Link::Uri(s) => s@,
                Link::Did(s) => s@,
            }) || new_links@[i].path@ != new_links@[j].path@,
        encode_utf8(key.0).len() <= u64::MAX,
        encode_utf8(key.1).len() <= u64::MAX,
        encode_utf8(key.2).len() <= u64::MAX,
    ensures
        ({
            let gone = pushed(db, ActionableEvent::DeleteRecord(record_id)@, cursor, seqs);
            let without = apply_all(db, gone->Ok_0.batches);
            let changed = pushed(
                db,
                ActionableEvent::UpdateLinks { record_id, new_links }@,
                cursor,
                seqs,
            );
            let after = apply_all(db, changed->Ok_0.batches);
            &&& changed is Ok
            &&& count_of(after, key) is Ok
            &&& count_of(after, key)->Ok_0 == count_of(without, key)->Ok_0 + if key.1
                == record_id.collection@ && exists|i: int|
                0 <= i < new_links@.len() && (match (#[trigger] new_links@[i]).target {
                    Link::AtUri(s) => s@,
                    Link::Uri(s) => s@,
                    Link::Did(s) => s@,
                }) == key.0 && new_links@[i].path@ == key.2 {
                1int
            } else {
                0
            }
        }),
{
    let second = ActionableEvent::DeleteRecord(record_id);
    law_sound_event(db, seqs, n, second, cursor);
    let gone = pushed(db, second@, cursor, seqs)->Ok_0;
    let without = apply_all(db, gone.batches);
    law_create_event_count(without, gone.seqs, n + 1, record_id, new_links, cursor, key);
    law_update_event(db, record_id, new_links, cursor, cursor, seqs);
}

/// Where an account goes, the count of a target falls by the links that the records of the account
/// had to it, and no page shows the account any more.
pub proof fn law_delete_account_event_count(
    db: Db,
    seqs: Seqs,
    n: nat,
    did: Did,
    cursor: u64,
    did_id: u64,
    active: bool,
    key: (Text, Text, Text),
)
    requires
        sound(db, seqs, n),
        encode_utf8(did.0@).len() <= u64::MAX,
        did_value(db, did.0@) == Ok::<Option<(u64, bool)>, Error>(Some((did_id, active))),
        encode_utf8(key.0).len() <= u64::MAX,
        encode_utf8(key.1).len() <= u64::MAX,
        encode_utf8(key.2).len() <= u64::MAX,
    ensures
        ({
            let p = pushed(db, ActionableEvent::DeleteAccount(did)@, cursor, seqs);
            let after = apply_all(db, p->Ok_0.batches);
            &&& p is Ok
            &&& count_of(db, key) is Ok
            &&& count_of(after, key) is Ok
            &&& target_id(db, key) is Ok
            &&& match target_id(db, key)->Ok_0 {
                None => count_of(after, key) == count_of(db, key),
                Some(id) => count_of(db, key)->Ok_0 == count_of(after, key)->Ok_0 + records_of(
                    db,
                    did_id,
                ).map_values(
                    |r: ((u64, Text, Text), Seq<(Text, u64)>)|
                        r.1.filter(|t: (Text, u64)| t.1 == id).len() as int,
                ).fold_left(0int, |sum: int, m: int| sum + m),
            }
        }),
{
    let event = ActionableEvent::DeleteAccount(did);
    law_sound_event(db, seqs, n, event, cursor);
    law_delete_account(db, did.0@, cursor, seqs);
    let after = apply_all(db, pushed(db, event@, cursor, seqs)->Ok_0.batches);
    assert(TargetKey::fits(key));
    lemma_linkers_to(db, key);
    law_count(db, key);
    law_count(after, key);
    law_count_answer(db, key);
    law_count_answer(after, key);
    assert(target_id(after, key) == target_id(db, key));
    if let Some(id) = target_id(db, key)->Ok_0 {
        law_delete_account_links(db, seqs, n, did, cursor, did_id, active, id);
    }
}

/// An account that went is on no page.
#[verifier::rlimit(40)]
pub proof fn law_delete_account_event_pages(
    db: Db,
    seqs: Seqs,
    n: nat,
    did: Did,
    cursor: u64,
    key: (Text, Text, Text),
    limit: u64,
    until: Option<u64>,
    page: PagedAppendingCollection<RecordId>,
)
    requires
        sound(db, seqs, n),
        encode_utf8(did.0@).len() <= u64::MAX,
        encode_utf8(key.0).len() <= u64::MAX,
        encode_utf8(key.1).len() <= u64::MAX,
        encode_utf8(key.2).len() <= u64::MAX,
        page_of(
            apply_all(
                db,
                pushed(db, ActionableEvent::DeleteAccount(did)@, cursor, seqs)->Ok_0.batches,
            ),
            key,
            limit,
            until,
        ) == Ok::<Page, Error>(page_view(page)),
    ensures
        forall|i: int| 0 <= i < page.items@.len() ==> (#[trigger] page.items@[i]).did.0@ != did.0@,
{
    let event = ActionableEvent::DeleteAccount(did);
    law_sound_event(db, seqs, n, event, cursor);
    law_delete_account(db, did.0@, cursor, seqs);
    let after = apply_all(db, pushed(db, event@, cursor, seqs)->Ok_0.batches);
    law_account_gone_hidden(db, did.0@, after, key, limit, until);
    assert forall|i: int| 0 <= i < page.items@.len() implies (#[trigger] page.items@[i]).did.0@
        != did.0@ by {
        assert(page_view(page).items[i].0 == page.items@[i].did.0@);
    }
}

/// Where an account is deactivated, a page shows what it showed before but for the records of the
/// account, in the same order; its version and what is behind it are the same, and so is every
/// count.
pub proof fn law_deactivate_event(
    db: Db,
    seqs: Seqs,
    n: nat,
    did: Did,
    cursor: u64,
    key: (Text, Text, Text),
    limit: u64,
    until: Option<u64>,
    old: PagedAppendingCollection<RecordId>,
    new: PagedAppendingCollection<RecordId>,
)
    requires
        sound(db, seqs, n),
        encode_utf8(did.0@).len() <= u64::MAX,
        encode_utf8(key.0).len() <= u64::MAX,
        encode_utf8(key.1).len() <= u64::MAX,
        encode_utf8(key.2).len() <= u64::MAX,
        page_of(db, key, limit, until) == Ok::<Page, Error>(page_view(old)),
        page_of(
            apply_all(
                db,
                pushed(db, ActionableEvent::DeactivateAccount(did)@, cursor, seqs)->Ok_0.batches,
            ),
            key,
            limit,
            until,
        ) == Ok::<Page, Error>(page_view(new)),
    ensures
        new.version == old.version,
        new.next == old.next,
        new.items@.map_values(
            |r: RecordId| (r.did.0@, r.collection@, r.rkey@),
        ) == old.items@.map_values(|r: RecordId| (r.did.0@, r.collection@, r.rkey@)).filter(
            |r: (Text, Text, Text)| r.0 != did.0@,
        ),
        count_of(
            apply_all(
                db,
                pushed(db, ActionableEvent::DeactivateAccount(did)@, cursor, seqs)->Ok_0.batches,
            ),
            key,
        ) == count_of(db, key),
{
    let event = ActionableEvent::DeactivateAccount(did);
    law_sound_event(db, seqs, n, event, cursor);
    law_set_account(db, did.0@, false, cursor, seqs);
    let after = apply_all(db, pushed(db, event@, cursor, seqs)->Ok_0.batches);
    law_deactivated(db, did.0@, after, key, limit, until);
    let f = |r: RecordId| (r.did.0@, r.collection@, r.rkey@);
    assert(page_view(new).items =~= new.items@.map_values(f));
    assert(page_view(old).items =~= old.items@.map_values(f));
    assert(of_others(did.0@) =~= |r: (Text, Text, Text)| r.0 != did.0@);
}

/// Where an account that is stored and active has a record come with links of which none comes
/// twice, a page of everything shows that record first and then what it showed before, for each
/// target that one of the links goes to; for every other target it shows what it showed. Where the
/// account is not active, pages show what they showed.
#[verifier::rlimit(40)]
pub proof fn law_create_event_page(
    db: Db,
    seqs: Seqs,
    n: nat,
    record_id: RecordId,
    links: Vec<CollectedLink>,
    cursor: u64,
    key: (Text, Text, Text),
    did_id: u64,
    active: bool,
    old: PagedAppendingCollection<RecordId>,
    new: PagedAppendingCollection<RecordId>,
)
    requires
        sound(db, seqs, n),
        n + links@.len() + 3 < 0x0700_0000_0000_0000,
        encode_utf8(record_id.did.0@).len() <= u64::MAX,
        encode_utf8(record_id.collection@).len() <= u64::MAX,
        encode_utf8(record_id.rkey@).len() <= u64::MAX,
        forall|i: int|
            0 <= i < links@.len() ==> encode_utf8(
                match (#[trigger] links@[i]).target {
                    Link::AtUri(s) => s@,
                    Link::Uri(s) => s@,
                    Link::Did(s) => s@,
                },
            ).len() <= u64::MAX && encode_utf8(links@[i].path@).len() <= u64::MAX,
        forall|i: int, j: int|
            0 <= i < j < links@.len() ==> (match (#[trigger] links@[i]).target {
                Link::AtUri(s) => s@,
                Link::Uri(s) => s@,
                Link::Did(s) => s@,
            }) != (match (#[trigger] links@[j]).target {
                Link::AtUri(s) => s@,
                Link::Uri(s) => s@,
                Link::Did(s) => s@,
            }) || links@[i].path@ != links@[j].path@,
        encode_utf8(key.0).len() <= u64::MAX,
        encode_utf8(key.1).len() <= u64::MAX,
        encode_utf8(key.2).len() <= u64::MAX,
        did_value(db, record_id.did.0@) == Ok::<Option<(u64, bool)>, Error>(
            Some((did_id, active)),
        ),
        page_of(db, key, u64::MAX, None) == Ok::<Page, Error>(page_view(old)),
        page_of(
            apply_all(
                db,
                pushed(
                    db,
                    ActionableEvent::CreateLinks { record_id, links }@,
                    cursor,
                    seqs,
                )->Ok_0.batches,
            ),
            key,
            u64::MAX,
            None,
        ) == Ok::<Page, Error>(page_view(new)),
    ensures
        ({
            let before = old.items@.map_values(|r: RecordId| (r.did.0@, r.collection@, r.rkey@));
            let after = new.items@.map_values(|r: RecordId| (r.did.0@, r.collection@, r.rkey@));
            if active && key.1 == record_id.collection@ && exists|i: int|
                0 <= i < links@.len() && (match (#[trigger] links@[i]).target {
                    Link::AtUri(s) => s@,
                    Link::Uri(s) => s@,
                    Link::Did(s) => s@,
                }) == key.0 && links@[i].path@ == key.2 {
                after == seq![(record_id.did.0@, record_id.collection@, record_id.rkey@)] + before
            } else {
                after == before
            }
        }),
{
    lemma_created(db, seqs, n, record_id, links, cursor);
    lemma_links_differ(links@);
    lemma_goes_to(links@, record_id.collection@, key);
    let ls = links_view(links@);
    let collection = record_id.collection@;
    let p = pushed(db, ActionableEvent::CreateLinks { record_id, links }@, cursor, seqs)->Ok_0;
    let after = apply_all(db, p.batches);
    let own = choose|own: Map<u64, Text>| in_order(db, own);
    assert(TargetKey::fits(key));
    lemma_times_once(ls, collection, key);
    let m = entries(db, ls, collection, key);
    let linker = (did_id, record_id.rkey@);
    let was = linkers_to(db, key);
    assert(linkers_to(after, key) == was + copies(linker, m));
    assert(did_of_id(db, did_id) == Ok::<Option<Text>, Error>(Some(record_id.did.0@)));
    assert forall|d: Text| Did::fits(d) implies #[trigger] did_value(after, d) == did_value(
        db,
        d,
    ) by {}
    assert forall|id: u64| id < id_limit() implies #[trigger] did_of_id(after, id) == did_of_id(
        db,
        id,
    ) by {}
    lemma_linkers_to(db, key);
    lemma_linkers_to(after, key);
    law_page(db, key, u64::MAX, None);
    law_page(after, key, u64::MAX, None);
    lemma_page_part(db, key, u64::MAX, None);
    assert(page_part(db, key, u64::MAX, None) =~= was);
    assert(page_part(after, key, u64::MAX, None) =~= linkers_to(after, key));
    lemma_shown_all_same(db, after, key.1, was);
    let f = |r: RecordId| (r.did.0@, r.collection@, r.rkey@);
    assert(page_view(new).items =~= new.items@.map_values(f));
    assert(page_view(old).items =~= old.items@.map_values(f));
    if m == 0 {
        assert(was + copies(linker, 0) =~= was);
    } else {
        let one = seq![linker];
        assert(copies(linker, m) =~= one);
        assert(one.skip(1) =~= Seq::empty());
        let none = Seq::<(Text, Text, Text)>::empty();
        assert(shown_all(after, key.1, Seq::<Linker>::empty()) == Ok::<
            Seq<(Text, Text, Text)>,
            Error,
        >(none));
        let record = (record_id.did.0@, collection, record_id.rkey@);
        assert(did_id != 0);
        if active {
            assert(shown(after, key.1, linker) == Ok::<Option<(Text, Text, Text)>, Error>(
                Some(record),
            ));
            assert(none.push(record) =~= seq![record]);
        } else {
            assert(shown(after, key.1, linker) == Ok::<Option<(Text, Text, Text)>, Error>(None));
        }
        lemma_shown_all_concat(after, key.1, was, one);
        if !active {
            assert(none + page_view(old).items =~= page_view(old).items);
        }
    }
}

}
