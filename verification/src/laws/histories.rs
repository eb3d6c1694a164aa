//! What holds over several events, and what events have to do with what is read.
use crate::db::{apply, apply_all, row, Cf, Db};
use crate::error::Error;
use crate::events::Event;
use crate::id_table::{first_seq, seq_key};
use crate::laws::accounts::law_set_account;
use crate::laws::consistency::{
    consistent, dids_ok, follows, in_order, linkers_ok, links_to, owned, records_ok, targets_ok,
};
use crate::laws::creating::{
    copies, created, entries, ids_left, kept_or_given, law_create, linkers_to, links_fit, points,
    record_fits, roomy, times,
};
use crate::laws::deleting::{account_gone, law_delete_account, links_from};
use crate::laws::keys::id_limit;
use crate::laws::merging::{
    law_alive_push, law_merge_sequence, law_push_unlinked, law_unlinked, one_if,
};
use crate::laws::reading::{is_active, law_count, law_newest_first, law_page, lemma_linkers_to};
use crate::laws::removing::{
    forgotten, law_delete_record, law_update, lemma_can_unlink, lemma_forgotten_len, stored_key,
    stored_targets,
};
use crate::laws::rows::{lemma_one_linker_fits, next_did, next_target};
use crate::linkers::{alive, extended, merged, tombstone, unlinked, within};
use crate::model::{
    count_of, cursor_of, did_of_id, did_value, linkers_of, page_of, pushed, record_targets,
    records_of, removed, target_id, Seqs,
};
use crate::records::{Did, Linker, RecordLinkKey, Stored, TargetId, TargetKey, TargetLinkers, Text};
use crate::wire::Wire;
use vstd::prelude::*;

verus! {

/// An empty database is in order, and a store over it starts with sequences of one.
pub proof fn law_empty()
    ensures
        consistent(Map::empty()),
        next_did(Map::empty()) == Ok::<u64, Error>(1),
        next_target(Map::empty()) == Ok::<u64, Error>(1),
        cursor_of(Map::empty()) == Ok::<Option<u64>, Error>(None),
{
    let db: Db = Map::empty();
    let own: Map<u64, Text> = Map::empty();
    assert(dids_ok(db));
    assert(targets_ok(db));
    assert(linkers_ok(db)) by {
        assert forall|id: u64| #[trigger] linkers_of(db, id) == Ok::<Seq<Linker>, Error>(
            Seq::empty(),
        ) by {}
    }
    assert(records_ok(db, own));
    assert(owned(db, own));
    assert(in_order(db, own));
}

/// A store that is opened over a database that is in order is not behind the ids that were given
/// out: no id is given out again.
pub proof fn law_reopen(db: Db)
    requires
        consistent(db),
    ensures
        first_seq(row(db, Cf::Default, seq_key(Cf::DidIds))) is Ok,
        first_seq(row(db, Cf::Default, seq_key(Cf::TargetIds))) is Ok,
        follows(db, Seqs { did: next_did(db)->Ok_0, target: next_target(db)->Ok_0 }),
{
}

/// Two accounts do not have the same id.
pub proof fn law_account_ids(db: Db, a: Text, b: Text)
    requires
        consistent(db),
        Did::fits(a),
        Did::fits(b),
        did_value(db, a)->Ok_0 is Some,
        did_value(db, b)->Ok_0 is Some,
        did_value(db, a)->Ok_0.unwrap().0 == did_value(db, b)->Ok_0.unwrap().0,
    ensures
        a == b,
{
    let own = choose|own: Map<u64, Text>| in_order(db, own);
    assert(did_value(db, a) is Ok && did_value(db, b) is Ok);
}

/// Two targets do not have the same id.
pub proof fn law_target_ids(db: Db, a: (Text, Text, Text), b: (Text, Text, Text))
    requires
        consistent(db),
        TargetKey::fits(a),
        TargetKey::fits(b),
        target_id(db, a)->Ok_0 is Some,
        target_id(db, a) == target_id(db, b),
    ensures
        a == b,
{
    let own = choose|own: Map<u64, Text>| in_order(db, own);
}

/// Whether an event fits the byte format.
pub open spec fn event_fits(event: Event) -> bool {
    match event {
        Event::CreateLinks { record, links } => record_fits(record) && links_fit(links),
        Event::UpdateLinks { record, links } => record_fits(record) && links_fit(links),
        Event::DeleteRecord { record } => record_fits(record),
        Event::ActivateAccount { did } => Did::fits(did),
        Event::DeactivateAccount { did } => Did::fits(did),
        Event::DeleteAccount { did } => Did::fits(did),
    }
}

/// How many links an event brings.
pub open spec fn links_in(event: Event) -> nat {
    match event {
        Event::CreateLinks { links, .. } => links.len(),
        Event::UpdateLinks { links, .. } => links.len(),
        _ => 0,
    }
}

/// Whether there are ids and room left for what an event brings.
pub open spec fn space_left(db: Db, event: Event, seqs: Seqs) -> bool {
    match event {
        Event::CreateLinks { links, .. } => ids_left(seqs, links.len()) && roomy(db, links.len()),
        Event::UpdateLinks { links, .. } => ids_left(seqs, links.len()) && roomy(db, links.len()),
        _ => true,
    }
}

/// Whatever happens, the database stays in order: no event fails, the sequences of the store stay
/// ahead of the ids that were given out, no target gets more linkers than there are new links, and
/// the cursor is read back as it was set.
pub proof fn law_push(db: Db, event: Event, cursor: u64, seqs: Seqs)
    requires
        consistent(db),
        follows(db, seqs),
        event_fits(event),
        space_left(db, event, seqs),
    ensures
        ({
            let p = pushed(db, event, cursor, seqs);
            let after = apply_all(db, p->Ok_0.batches);
            &&& p is Ok
            &&& consistent(after)
            &&& follows(after, p->Ok_0.seqs)
            &&& seqs.did <= p->Ok_0.seqs.did <= seqs.did + 1
            &&& seqs.target <= p->Ok_0.seqs.target <= seqs.target + links_in(event)
            &&& forall|id: u64|
                (#[trigger] linkers_of(after, id))->Ok_0.len() <= linkers_of(db, id)->Ok_0.len()
                    + links_in(event)
            &&& cursor_of(after) == Ok::<Option<u64>, Error>(Some(cursor))
        }),
{
    let own = choose|own: Map<u64, Text>| in_order(db, own);
    let after = apply_all(db, pushed(db, event, cursor, seqs)->Ok_0.batches);
    match event {
        Event::CreateLinks { record, links } => {
            law_create(db, record, links, cursor, seqs);
        },
        Event::UpdateLinks { record, links } => {
            law_update(db, record, links, cursor, seqs);
            let between = apply(db, removed(db, record)->Ok_0);
            assert forall|id: u64|
                (#[trigger] linkers_of(after, id))->Ok_0.len() <= linkers_of(db, id)->Ok_0.len()
                    + links_in(event) by {
                lemma_forgotten_len(db, own, record, between, id);
            }
        },
        Event::DeleteRecord { record } => {
            law_delete_record(db, record, cursor, seqs);
            assert forall|id: u64|
                (#[trigger] linkers_of(after, id))->Ok_0.len() <= linkers_of(db, id)->Ok_0.len()
                    + links_in(event) by {
                lemma_forgotten_len(db, own, record, after, id);
            }
        },
        Event::ActivateAccount { did } => {
            law_set_account(db, did, true, cursor, seqs);
        },
        Event::DeactivateAccount { did } => {
            law_set_account(db, did, false, cursor, seqs);
        },
        Event::DeleteAccount { did } => {
            law_delete_account(db, did, cursor, seqs);
            assert(did_value(db, did) is Ok);
        },
    }
}

/// Something that happens to a store: an event is pushed, or the store is opened again.
pub enum Step {
    Push { event: Event, cursor: u64 },
    Reopen,
}

/// The database and the sequences after steps that begin with an empty database.
pub open spec fn run(steps: Seq<Step>) -> Result<(Db, Seqs), Error>
    decreases steps.len(),
{
    if steps.len() == 0 {
        Ok((Map::empty(), Seqs { did: 1, target: 1 }))
    } else {
        match run(steps.drop_last()) {
            Err(e) => Err(e),
            Ok((db, seqs)) => match steps.last() {
                Step::Push { event, cursor } => match pushed(db, event, cursor, seqs) {
                    Err(e) => Err(e),
                    Ok(p) => Ok((apply_all(db, p.batches), p.seqs)),
                },
                Step::Reopen => match (next_did(db), next_target(db)) {
                    (Ok(did), Ok(target)) => Ok((db, Seqs { did, target })),
                    (Err(e), _) => Err(e),
                    (_, Err(e)) => Err(e),
                },
            },
        }
    }
}

/// How many steps there are, with the links that they bring.
pub open spec fn weight(steps: Seq<Step>) -> nat
    decreases steps.len(),
{
    if steps.len() == 0 {
        0
    } else {
        weight(steps.drop_last()) + 1 + match steps.last() {
            Step::Push { event, .. } => links_in(event),
            Step::Reopen => 0,
        }
    }
}

/// Whether all events of a history fit the byte format, and there are ids left for it.
pub open spec fn bounded(steps: Seq<Step>) -> bool {
    &&& weight(steps) + 3 < id_limit()
    &&& forall|i: int|
        0 <= i < steps.len() ==> ((#[trigger] steps[i]) matches Step::Push { event, .. }
            ==> event_fits(event))
}

/// Whether sequences are not behind others.
pub open spec fn rise(old: Seqs, new: Seqs) -> bool {
    old.did <= new.did && old.target <= new.target
}

/// Whatever happens to a store that began with an empty database, in whatever order and however
/// often it is opened again, no event fails and the database is in order at the end. The cursor is
/// that of the last event. (All steps and links together are fewer than the ids of accounts.)
pub proof fn law_history(steps: Seq<Step>)
    requires
        bounded(steps),
    ensures
        run(steps) is Ok,
        ({
            let (db, seqs) = run(steps)->Ok_0;
            &&& consistent(db)
            &&& follows(db, seqs)
            &&& seqs.did <= weight(steps) + 1
            &&& seqs.target <= weight(steps) + 1
            &&& forall|id: u64| (#[trigger] linkers_of(db, id))->Ok_0.len() <= weight(steps)
            &&& steps.len() > 0 ==> run(steps.drop_last()) is Ok && rise(
                run(steps.drop_last())->Ok_0.1,
                seqs,
            )
            &&& steps.len() > 0 ==> (steps.last() matches Step::Push { cursor, .. } ==> cursor_of(
                db,
            ) == Ok::<Option<u64>, Error>(Some(cursor)))
        }),
    decreases steps.len(),
{
    if steps.len() == 0 {
        law_empty();
        assert forall|id: u64| (#[trigger] linkers_of(
            Map::<(Cf, Seq<u8>), Seq<u8>>::empty(),
            id,
        ))->Ok_0.len() <= 0 by {}
    } else {
        let front = steps.drop_last();
        assert forall|i: int| 0 <= i < front.len() implies ((#[trigger] front[i]) matches
            Step::Push { event, .. } ==> event_fits(event)) by {
            assert(front[i] == steps[i]);
        }
        law_history(front);
        let (db, seqs) = run(front)->Ok_0;
        assert(steps[steps.len() - 1] == steps.last());
        match steps.last() {
            Step::Push { event, cursor } => {
                assert(roomy(db, links_in(event))) by {
                    assert forall|id: u64| (#[trigger] linkers_of(db, id))->Ok_0.len() + links_in(
                        event,
                    ) <= u64::MAX by {}
                }
                law_push(db, event, cursor, seqs);
                let after = apply_all(db, pushed(db, event, cursor, seqs)->Ok_0.batches);
                assert forall|id: u64| (#[trigger] linkers_of(after, id))->Ok_0.len() <= weight(
                    steps,
                ) by {
                    assert(linkers_of(db, id)->Ok_0.len() <= weight(front));
                }
            },
            Step::Reopen => {
                law_reopen(db);
            },
        }
    }
}

// ---------------------------------------------------------------------------------------------
// records that come

proof fn lemma_alive_copies(linkers: Seq<Linker>, linker: Linker, n: nat)
    requires
        linker.0 != 0,
    ensures
        alive(linkers + copies(linker, n)) == alive(linkers) + n,
    decreases n,
{
    if n == 0 {
        assert(linkers + copies(linker, 0) =~= linkers);
    } else {
        let m = (n - 1) as nat;
        lemma_alive_copies(linkers, linker, m);
        assert(linkers + copies(linker, n) =~= (linkers + copies(linker, m)).push(linker));
        law_alive_push(linkers + copies(linker, m), linker);
    }
}

/// The id of an account that is stored is not zero.
proof fn lemma_id_given(db: Db, did: Text)
    requires
        consistent(db),
        Did::fits(did),
        did_value(db, did)->Ok_0 is Some,
    ensures
        did_value(db, did)->Ok_0.unwrap().0 != 0,
        did_of_id(db, did_value(db, did)->Ok_0.unwrap().0) == Ok::<Option<Text>, Error>(Some(did)),
{
    let own = choose|own: Map<u64, Text>| in_order(db, own);
    assert(did_value(db, did) is Ok);
}

/// A record that came with links counts for each of its targets, and for no other. (A target that
/// was not stored and is linked to more than once counts once.)
pub proof fn law_created_count(
    db: Db,
    record: (Text, Text, Text),
    links: Seq<(Text, Text)>,
    seqs: Seqs,
    after: Db,
    new_seqs: Seqs,
    key: (Text, Text, Text),
)
    requires
        consistent(db),
        consistent(after),
        record_fits(record),
        TargetKey::fits(key),
        created(db, record, links, seqs, after, new_seqs),
    ensures
        count_of(after, key)->Ok_0 == count_of(db, key)->Ok_0 + entries(
            db,
            links,
            record.1,
            key,
        ),
{
    law_count(db, key);
    law_count(after, key);
    lemma_id_given(after, record.0);
    let linker = (did_value(after, record.0)->Ok_0.unwrap().0, record.2);
    lemma_alive_copies(linkers_to(db, key), linker, entries(db, links, record.1, key));
}

/// Whether no link comes twice.
pub open spec fn links_differ(links: Seq<(Text, Text)>) -> bool {
    forall|i: int, j: int|
        0 <= i < j < links.len() ==> (#[trigger] links[i]) != (#[trigger] links[j])
}

/// Whether one of the links from a collection goes to a target.
pub open spec fn goes_to(
    links: Seq<(Text, Text)>,
    collection: Text,
    key: (Text, Text, Text),
) -> bool {
    exists|i: int|
        0 <= i < links.len() && key == ((#[trigger] links[i]).0, collection, links[i].1)
}

/// Where no link comes twice, a target is linked to once or not at all.
pub proof fn lemma_times_once(links: Seq<(Text, Text)>, collection: Text, key: (Text, Text, Text))
    requires
        links_differ(links),
    ensures
        times(links, collection, key) == one_if(goes_to(links, collection, key)),
    decreases links.len(),
{
    if links.len() > 0 {
        let front = links.drop_last();
        assert(links_differ(front)) by {
            assert forall|i: int, j: int| 0 <= i < j < front.len() implies (#[trigger] front[i])
                != (#[trigger] front[j]) by {
                assert(links[i] != links[j]);
            }
        }
        lemma_times_once(front, collection, key);
        let last = links.last();
        assert(links[links.len() - 1] == last);
        if goes_to(front, collection, key) {
            let i = choose|i: int|
                0 <= i < front.len() && key == ((#[trigger] front[i]).0, collection, front[i].1);
            assert(links[i] == front[i]);
            assert(links[i] != links[links.len() - 1]);
        }
        if goes_to(links, collection, key) && key != (last.0, collection, last.1) {
            let i = choose|i: int|
                0 <= i < links.len() && key == ((#[trigger] links[i]).0, collection, links[i].1);
            assert(front[i] == links[i]);
        }
    }
}

/// Where a record comes with links of which none comes twice, the count of each target that it
/// links to is one more, and no other count changes.
pub proof fn law_create_count(
    db: Db,
    record: (Text, Text, Text),
    links: Seq<(Text, Text)>,
    cursor: u64,
    seqs: Seqs,
    key: (Text, Text, Text),
)
    requires
        consistent(db),
        follows(db, seqs),
        record_fits(record),
        links_fit(links),
        links_differ(links),
        ids_left(seqs, links.len()),
        roomy(db, links.len()),
        TargetKey::fits(key),
    ensures
        ({
            let p = pushed(db, Event::CreateLinks { record, links }, cursor, seqs);
            let after = apply_all(db, p->Ok_0.batches);
            &&& p is Ok
            &&& count_of(db, key) is Ok
            &&& count_of(after, key) is Ok
            &&& count_of(after, key)->Ok_0 == count_of(db, key)->Ok_0 + one_if(
                goes_to(links, record.1, key),
            )
        }),
{
    law_create(db, record, links, cursor, seqs);
    let p = pushed(db, Event::CreateLinks { record, links }, cursor, seqs)->Ok_0;
    let after = apply_all(db, p.batches);
    law_created_count(db, record, links, seqs, after, p.seqs, key);
    lemma_times_once(links, record.1, key);
    law_count(db, key);
    law_count(after, key);
}

/// Where a record comes with links of which none comes twice, and goes again, every count is what
/// it was. Each target that it linked to has one entry more, which is empty; every other target has
/// the entries that it had.
pub proof fn law_create_then_delete_counts(
    db: Db,
    record: (Text, Text, Text),
    links: Seq<(Text, Text)>,
    earlier: u64,
    cursor: u64,
    seqs: Seqs,
    key: (Text, Text, Text),
    limit: u64,
    until: Option<u64>,
)
    requires
        consistent(db),
        follows(db, seqs),
        record_fits(record),
        links_fit(links),
        links_differ(links),
        ids_left(seqs, links.len()),
        roomy(db, links.len()),
        TargetKey::fits(key),
    ensures
        ({
            let come = pushed(db, Event::CreateLinks { record, links }, earlier, seqs);
            let between = apply_all(db, come->Ok_0.batches);
            let gone = pushed(between, Event::DeleteRecord { record }, cursor, come->Ok_0.seqs);
            let after = apply_all(between, gone->Ok_0.batches);
            let old = page_of(db, key, limit, until);
            let new = page_of(after, key, limit, until);
            let n = one_if(goes_to(links, record.1, key));
            &&& come is Ok
            &&& gone is Ok
            &&& count_of(after, key) == count_of(db, key)
            &&& old is Ok
            &&& new is Ok
            &&& new->Ok_0.version.0 == old->Ok_0.version.0 + n
            &&& new->Ok_0.version.1 == old->Ok_0.version.1 + n
        }),
{
    law_create(db, record, links, earlier, seqs);
    let come = pushed(db, Event::CreateLinks { record, links }, earlier, seqs)->Ok_0;
    let between = apply_all(db, come.batches);
    law_delete_record(between, record, cursor, come.seqs);
    let gone = pushed(between, Event::DeleteRecord { record }, cursor, come.seqs)->Ok_0;
    let after = apply_all(between, gone.batches);
    law_create_then_delete(db, record, links, seqs, between, come.seqs, after, key);
    lemma_times_once(links, record.1, key);
    law_page(db, key, limit, until);
    law_page(after, key, limit, until);
    if goes_to(links, record.1, key) {
        let linker = (did_value(between, record.0)->Ok_0.unwrap().0, record.2);
        assert(linkers_to(db, key) + copies(linker, 0) =~= linkers_to(db, key));
        assert(linkers_to(after, key).len() == linkers_to(db, key).len() + 1);
    }
}

/// A record that came with links is what is shown first of each of its targets, if its account is
/// active.
pub proof fn law_created_shown(
    db: Db,
    record: (Text, Text, Text),
    links: Seq<(Text, Text)>,
    seqs: Seqs,
    after: Db,
    new_seqs: Seqs,
    i: int,
    limit: u64,
)
    requires
        consistent(db),
        consistent(after),
        record_fits(record),
        links_fit(links),
        created(db, record, links, seqs, after, new_seqs),
        is_active(after, record.0),
        0 <= i < links.len(),
        limit > 0,
    ensures
        ({
            let key = (links[i].0, record.1, links[i].1);
            let page = page_of(after, key, limit, None);
            &&& page is Ok
            &&& page->Ok_0.items.len() > 0
            &&& page->Ok_0.items[0] == record
        }),
{
    let key = (links[i].0, record.1, links[i].1);
    lemma_times(links, record.1, i);
    let n = entries(db, links, record.1, key);
    let did_id = did_value(after, record.0)->Ok_0.unwrap().0;
    let linker = (did_id, record.2);
    lemma_id_given(after, record.0);
    assert(linkers_to(after, key) == linkers_to(db, key) + copies(linker, n));
    assert(linkers_to(after, key).last() == linker);
    law_page(after, key, limit, None);
    law_newest_first(after, key, limit, record.0);
}

/// A link counts for its target.
proof fn lemma_times(links: Seq<(Text, Text)>, collection: Text, i: int)
    requires
        0 <= i < links.len(),
    ensures
        times(links, collection, (links[i].0, collection, links[i].1)) > 0,
    decreases links.len(),
{
    if i < links.len() - 1 {
        assert(links.drop_last()[i] == links[i]);
        lemma_times(links.drop_last(), collection, i);
    }
}

// ---------------------------------------------------------------------------------------------
// records that go

/// A record that went counts for none of its targets any more.
pub proof fn law_forgotten_count(
    db: Db,
    record: (Text, Text, Text),
    after: Db,
    key: (Text, Text, Text),
)
    requires
        consistent(db),
        consistent(after),
        record_fits(record),
        TargetKey::fits(key),
        forgotten(db, record, after),
    ensures
        ({
            let linked = target_id(db, key) matches Ok(Some(id)) && links_to(
                stored_targets(db, record),
                id,
            );
            &&& count_of(after, key)->Ok_0 == count_of(db, key)->Ok_0 - (if linked {
                1int
            } else {
                0
            })
            &&& linkers_to(after, key).len() == linkers_to(db, key).len()
        }),
{
    law_count(db, key);
    law_count(after, key);
    lemma_linkers_to(db, key);
    assert(target_id(after, key) == target_id(db, key));
    if let Ok(Some(id)) = target_id(db, key) {
        let targets = stored_targets(db, record);
        assert(linkers_of(after, id) == if links_to(targets, id) {
            Ok::<Seq<Linker>, Error>(
                unlinked(
                    linkers_of(db, id)->Ok_0,
                    (stored_key(db, record).unwrap().0, record.2),
                ).unwrap(),
            )
        } else {
            linkers_of(db, id)
        });
        if links_to(targets, id) {
            let own = choose|own: Map<u64, Text>| in_order(db, own);
            assert(did_value(db, record.0) is Ok);
            let stored = stored_key(db, record).unwrap();
            lemma_can_unlink(db, own, stored, targets);
            let i = choose|i: int| 0 <= i < targets.len() && (#[trigger] targets[i]).1 == id;
            assert(linkers_of(db, targets[i].1)->Ok_0.contains((stored.0, stored.2)));
            law_unlinked(linkers_of(db, id)->Ok_0, (stored.0, stored.2));
        }
    }
}

/// A record that came and went leaves the linkers of every target as they were, but for an empty
/// entry behind those that it linked to. (A target that was stored and is linked to more than
/// once keeps all but one of the links.)
pub proof fn law_create_then_delete(
    db: Db,
    record: (Text, Text, Text),
    links: Seq<(Text, Text)>,
    seqs: Seqs,
    between: Db,
    new_seqs: Seqs,
    after: Db,
    key: (Text, Text, Text),
)
    requires
        consistent(db),
        consistent(between),
        consistent(after),
        record_fits(record),
        links_fit(links),
        TargetKey::fits(key),
        created(db, record, links, seqs, between, new_seqs),
        forgotten(between, record, after),
    ensures
        ({
            let n = entries(db, links, record.1, key);
            let linker = (did_value(between, record.0)->Ok_0.unwrap().0, record.2);
            linkers_to(after, key) == if n == 0 {
                linkers_to(db, key)
            } else {
                (linkers_to(db, key) + copies(linker, (n - 1) as nat)).push(tombstone())
            }
        }),
        entries(db, links, record.1, key) <= 1 ==> count_of(after, key) == count_of(db, key),
{
    let n = entries(db, links, record.1, key);
    let did_id = did_value(between, record.0)->Ok_0.unwrap().0;
    let linker = (did_id, record.2);
    let stored = (did_id, record.1, record.2);
    let targets = record_targets(between, stored)->Ok_0.unwrap();
    assert(stored_key(between, record) == Some(stored));
    assert(stored_targets(between, record) == targets);
    assert(points(target_id(between, key), targets, times(links, record.1, key)));
    assert(target_id(after, key) == target_id(between, key));
    assert(linkers_to(between, key) == linkers_to(db, key) + copies(linker, n));
    lemma_linkers_to(between, key);
    law_count(db, key);
    law_count(after, key);
    if n == 0 {
        assert(linkers_to(db, key) + copies(linker, 0) =~= linkers_to(db, key));
        if let Ok(Some(id)) = target_id(between, key) {
            assert(linkers_of(after, id) == linkers_of(between, id));
        }
    } else {
        let id = target_id(between, key)->Ok_0.unwrap();
        let front = linkers_to(db, key) + copies(linker, (n - 1) as nat);
        assert(linkers_to(between, key) =~= front.push(linker));
        law_push_unlinked(front, linker);
        assert(linkers_of(after, id) == Ok::<Seq<Linker>, Error>(
            unlinked(linkers_of(between, id)->Ok_0, linker).unwrap(),
        ));
        if n == 1 {
            assert(front =~= linkers_to(db, key));
            law_alive_push(front, tombstone());
        }
    }
}

// ---------------------------------------------------------------------------------------------
// accounts that go

/// An account that went is on no page.
pub proof fn law_account_gone_hidden(
    db: Db,
    did: Text,
    after: Db,
    key: (Text, Text, Text),
    limit: u64,
    until: Option<u64>,
)
    requires
        consistent(after),
        TargetKey::fits(key),
        account_gone(db, did, after),
    ensures
        forall|i: int|
            0 <= i < page_of(after, key, limit, until)->Ok_0.items.len() ==> (#[trigger] page_of(
                after,
                key,
                limit,
                until,
            )->Ok_0.items[i]).0 != did,
{
    law_page(after, key, limit, until);
    assert(!is_active(after, did));
}

/// An account that went counts for nothing any more: the count of a target has fallen by the links
/// that the records of the account had to it, and the account has left as many empty entries.
pub proof fn law_account_gone_count(
    db: Db,
    did: Text,
    after: Db,
    key: (Text, Text, Text),
)
    requires
        consistent(db),
        consistent(after),
        Did::fits(did),
        TargetKey::fits(key),
        account_gone(db, did, after),
    ensures
        count_of(after, key)->Ok_0 == count_of(db, key)->Ok_0 - links_of_account(db, did, key),
        linkers_to(after, key).len() == linkers_to(db, key).len(),
{
    law_count(db, key);
    law_count(after, key);
    lemma_linkers_to(db, key);
    lemma_linkers_to(after, key);
    assert(target_id(after, key) == target_id(db, key));
    if let Ok(Some(id)) = target_id(db, key) {
        assert(linkers_of(after, id) is Ok);
    }
}

/// How many links the records of an account have to a target from a path of a collection.
pub open spec fn links_of_account(db: Db, did: Text, key: (Text, Text, Text)) -> nat {
    match (did_value(db, did)->Ok_0, target_id(db, key)->Ok_0) {
        (Some((did_id, _)), Some(id)) => links_from(records_of(db, did_id), id),
        _ => 0,
    }
}

// ---------------------------------------------------------------------------------------------
// ids

/// The id that the next account will be given has not been given to any account: it leads nowhere,
/// no account has it, no record and no entry among the linkers names it.
pub proof fn law_next_account_id(
    db: Db,
    seqs: Seqs,
    did: Text,
    record: (u64, Text, Text),
    target: u64,
    i: int,
)
    requires
        consistent(db),
        follows(db, seqs),
        seqs.did + 1 < id_limit(),
        Did::fits(did),
        RecordLinkKey::fits(record),
    ensures
        ({
            let next = (seqs.did + 1) as u64;
            &&& did_of_id(db, next) == Ok::<Option<Text>, Error>(None)
            &&& did_value(db, did)->Ok_0 matches Some(value) ==> value.0 != next
            &&& record.0 == next ==> record_targets(db, record)->Ok_0 is None
            &&& 0 <= i < linkers_of(db, target)->Ok_0.len() ==> linkers_of(db, target)->Ok_0[i].0
                != next
        }),
{
    let own = choose|own: Map<u64, Text>| in_order(db, own);
    let next = (seqs.did + 1) as u64;
    assert(did_of_id(db, next) is Ok);
    assert(did_value(db, did) is Ok);
    assert(record_targets(db, record) is Ok);
    assert(linkers_of(db, target) is Ok);
}

/// The id that the next target will be given has not been given to any target: no target has it,
/// and it has no linkers.
pub proof fn law_next_target_id(db: Db, seqs: Seqs, key: (Text, Text, Text))
    requires
        consistent(db),
        follows(db, seqs),
        seqs.target < u64::MAX,
        TargetKey::fits(key),
    ensures
        ({
            let next = (seqs.target + 1) as u64;
            &&& target_id(db, key)->Ok_0 != Some(next)
            &&& linkers_of(db, next) == Ok::<Seq<Linker>, Error>(Seq::empty())
        }),
{
    let own = choose|own: Map<u64, Text>| in_order(db, own);
    let next = (seqs.target + 1) as u64;
    assert(target_id(db, key) is Ok);
    assert(linkers_of(db, next) is Ok);
    assert(linkers_of(db, next)->Ok_0 =~= Seq::empty());
}

/// A linker of an account that has been given its id is accepted where it is merged, and the row
/// becomes what it would become without a sequence to hold it against.
pub proof fn law_merge_accepted(db: Db, seqs: Seqs, id: u64, linker: Linker)
    requires
        consistent(db),
        follows(db, seqs),
        linker.0 <= seqs.did,
        <String as Wire>::fits(linker.1),
    ensures
        ({
            let existing = row(db, Cf::TargetLinks, TargetId::bytes(id));
            let operands = seq![TargetLinkers::bytes(seq![linker])];
            &&& merged(existing, operands, seqs.did) is Ok
            &&& merged(existing, operands, 0) == merged(existing, operands, seqs.did)
        }),
{
    let own = choose|own: Map<u64, Text>| in_order(db, own);
    let one = seq![linker];
    let operands = seq![TargetLinkers::bytes(one)];
    let existing = row(db, Cf::TargetLinks, TargetId::bytes(id));
    assert(linkers_of(db, id) is Ok);
    let linkers = linkers_of(db, id)->Ok_0;
    assert(within(linkers, seqs.did)) by {
        assert forall|i: int| 0 <= i < linkers.len() implies (#[trigger] linkers[i]).0
            <= seqs.did by {
            assert(linkers[i].0 < next_did(db)->Ok_0);
        }
    }
    lemma_one_linker_fits(linker);
    TargetLinkers::lemma_parsed_bytes(one);
    assert(within(one, seqs.did));
    assert(operands.drop_last() =~= Seq::empty());
    assert(extended(linkers, operands.drop_last(), seqs.did) == Ok::<Seq<Linker>, Error>(linkers));
    law_merge_sequence(existing, operands, seqs.did);
}

/// The record that comes with an event, if one does.
pub open spec fn record_of(event: Event) -> Option<(Text, Text, Text)> {
    match event {
        Event::CreateLinks { record, .. } => Some(record),
        Event::UpdateLinks { record, .. } => Some(record),
        _ => None,
    }
}

/// A history that is cut short is no heavier.
proof fn lemma_bounded(steps: Seq<Step>, more: Seq<Step>)
    requires
        bounded(steps + more),
    ensures
        bounded(steps),
    decreases more.len(),
{
    let all = steps + more;
    if more.len() == 0 {
        assert(all =~= steps);
    } else {
        let less = more.drop_last();
        assert(all.drop_last() =~= steps + less);
        assert forall|i: int| 0 <= i < (steps + less).len() implies ((#[trigger] (steps + less)[i])
            matches Step::Push { event, .. } ==> event_fits(event)) by {
            assert((steps + less)[i] == all[i]);
        }
        lemma_bounded(steps, less);
    }
}

/// However a history goes on, and however often the store is opened again, its sequences do not
/// fall back.
#[verifier::rlimit(40)]
pub proof fn law_sequences_rise(steps: Seq<Step>, more: Seq<Step>)
    requires
        bounded(steps + more),
    ensures
        run(steps) is Ok,
        run(steps + more) is Ok,
        1 <= run(steps)->Ok_0.1.did,
        1 <= run(steps)->Ok_0.1.target,
        rise(run(steps)->Ok_0.1, run(steps + more)->Ok_0.1),
    decreases more.len(),
{
    let all = steps + more;
    lemma_last_rises(all);
    if more.len() == 0 {
        assert(all =~= steps);
    } else {
        let less = more.drop_last();
        assert(all.drop_last() =~= steps + less);
        assert(bounded(steps + less)) by {
            assert(all =~= (steps + less) + seq![more.last()]);
            lemma_bounded(steps + less, seq![more.last()]);
        }
        law_sequences_rise(steps, less);
    }
}

/// The sequences do not fall back in the last step.
proof fn lemma_last_rises(steps: Seq<Step>)
    requires
        bounded(steps),
    ensures
        run(steps) is Ok,
        1 <= run(steps)->Ok_0.1.did,
        1 <= run(steps)->Ok_0.1.target,
        steps.len() > 0 ==> rise(run(steps.drop_last())->Ok_0.1, run(steps)->Ok_0.1),
{
    law_history(steps);
}

/// There are ids and room left for an event at the end of a history.
proof fn lemma_space(steps: Seq<Step>, event: Event, cursor: u64)
    requires
        bounded(steps.push(Step::Push { event, cursor })),
    ensures
        bounded(steps),
        event_fits(event),
        run(steps) is Ok,
        consistent(run(steps)->Ok_0.0),
        follows(run(steps)->Ok_0.0, run(steps)->Ok_0.1),
        space_left(run(steps)->Ok_0.0, event, run(steps)->Ok_0.1),
{
    let all = steps.push(Step::Push { event, cursor });
    assert(all =~= steps + seq![Step::Push { event, cursor }]);
    lemma_bounded(steps, seq![Step::Push { event, cursor }]);
    assert(all.drop_last() =~= steps);
    assert(all[steps.len() as int] == Step::Push { event, cursor });
    law_history(steps);
    let db = run(steps)->Ok_0.0;
    assert(roomy(db, links_in(event))) by {
        assert forall|id: u64| (#[trigger] linkers_of(db, id))->Ok_0.len() + links_in(event)
            <= u64::MAX by {}
    }
}

/// The id that a new account is given is above every id that an account has had before: no id is
/// given twice, neither when its account has gone nor when the store has been opened again. It is
/// never below two.
#[verifier::rlimit(40)]
pub proof fn law_account_ids_rise(
    steps: Seq<Step>,
    more: Seq<Step>,
    event: Event,
    cursor: u64,
    other: Text,
)
    requires
        bounded((steps + more).push(Step::Push { event, cursor })),
        record_of(event) is Some,
        did_value(run(steps + more)->Ok_0.0, record_of(event).unwrap().0)->Ok_0 is None,
        Did::fits(other),
    ensures
        ({
            let did = record_of(event).unwrap().0;
            let (old, _) = run(steps)->Ok_0;
            let (db, seqs) = run(steps + more)->Ok_0;
            let (after, new_seqs) = run((steps + more).push(Step::Push { event, cursor }))->Ok_0;
            let value = did_value(after, did);
            &&& run((steps + more).push(Step::Push { event, cursor })) is Ok
            &&& value == Ok::<Option<(u64, bool)>, Error>(Some((new_seqs.did, true)))
            &&& new_seqs.did == seqs.did + 1
            &&& new_seqs.did >= 2
            &&& did_value(old, other)->Ok_0 matches Some((id, _)) ==> id < new_seqs.did
        }),
{
    let all = steps + more;
    let step = Step::Push { event, cursor };
    lemma_space(all, event, cursor);
    law_sequences_rise(steps, more);
    assert(all.push(step).drop_last() =~= all);
    lemma_bounded(steps, more);
    law_history(steps);
    let (old, old_seqs) = run(steps)->Ok_0;
    let (db, seqs) = run(all)->Ok_0;
    let own = choose|own: Map<u64, Text>| in_order(old, own);
    assert(did_value(old, other) is Ok);
    lemma_brought(db, event, cursor, seqs);
    law_history(all.push(step));
}

/// Whether ids are what they were, or new.
pub open spec fn ids_new(db: Db, did: Text, seqs: Seqs, after: Db, new_seqs: Seqs) -> bool {
    &&& did_value(db, did)->Ok_0 is None ==> did_value(after, did) == Ok::<
        Option<(u64, bool)>,
        Error,
    >(Some((new_seqs.did, true))) && new_seqs.did == seqs.did + 1
    &&& forall|key: (Text, Text, Text)|
        TargetKey::fits(key) ==> #[trigger] target_id(after, key) == target_id(db, key) || (
        target_id(after, key) is Ok && target_id(after, key)->Ok_0 is Some && seqs.target
            < target_id(after, key)->Ok_0.unwrap() <= new_seqs.target)
}

/// What a record that comes does to the ids.
proof fn lemma_ids_new(
    db: Db,
    record: (Text, Text, Text),
    links: Seq<(Text, Text)>,
    seqs: Seqs,
    after: Db,
    new_seqs: Seqs,
)
    requires
        consistent(after),
        record_fits(record),
        ids_left(seqs, links.len()),
        created(db, record, links, seqs, after, new_seqs),
    ensures
        ids_new(db, record.0, seqs, after, new_seqs),
{
    let own = choose|own: Map<u64, Text>| in_order(after, own);
    assert(did_value(after, record.0) is Ok);
    assert forall|key: (Text, Text, Text)| TargetKey::fits(key) implies #[trigger] target_id(
        after,
        key,
    ) == target_id(db, key) || (target_id(after, key) is Ok && target_id(after, key)->Ok_0 is Some
        && seqs.target < target_id(after, key)->Ok_0.unwrap() <= new_seqs.target) by {
        assert(kept_or_given(
            target_id(db, key),
            target_id(after, key),
            times(links, record.1, key),
            seqs.target,
            new_seqs.target,
        ));
    }
}

/// What an event that brings a record does to the ids.
proof fn lemma_brought(db: Db, event: Event, cursor: u64, seqs: Seqs)
    requires
        consistent(db),
        follows(db, seqs),
        event_fits(event),
        space_left(db, event, seqs),
        record_of(event) is Some,
    ensures
        ({
            let p = pushed(db, event, cursor, seqs);
            let after = apply_all(db, p->Ok_0.batches);
            &&& p is Ok
            &&& ids_new(db, record_of(event).unwrap().0, seqs, after, p->Ok_0.seqs)
        }),
{
    let p = pushed(db, event, cursor, seqs)->Ok_0;
    let after = apply_all(db, p.batches);
    match event {
        Event::CreateLinks { record, links } => {
            law_create(db, record, links, cursor, seqs);
            lemma_ids_new(db, record, links, seqs, after, p.seqs);
        },
        Event::UpdateLinks { record, links } => {
            law_update(db, record, links, cursor, seqs);
            let between = apply(db, removed(db, record)->Ok_0);
            lemma_ids_new(between, record, links, seqs, after, p.seqs);
            lemma_ids_new_behind(db, record, between, seqs, after, p.seqs);
        },
        _ => {},
    }
}

/// A record that goes changes no id.
proof fn lemma_ids_new_behind(
    db: Db,
    record: (Text, Text, Text),
    between: Db,
    seqs: Seqs,
    after: Db,
    new_seqs: Seqs,
)
    requires
        forgotten(db, record, between),
        ids_new(between, record.0, seqs, after, new_seqs),
    ensures
        ids_new(db, record.0, seqs, after, new_seqs),
{
    assert(did_value(between, record.0) == did_value(db, record.0));
    assert forall|key: (Text, Text, Text)| TargetKey::fits(key) implies #[trigger] target_id(
        after,
        key,
    ) == target_id(db, key) || (target_id(after, key) is Ok && target_id(after, key)->Ok_0 is Some
        && seqs.target < target_id(after, key)->Ok_0.unwrap() <= new_seqs.target) by {
        assert(target_id(between, key) == target_id(db, key));
    }
}

/// The id that a new target is given is above every id that a target has had before: no id is given
/// twice, however often the store has been opened again. It is never below two.
#[verifier::rlimit(40)]
pub proof fn law_target_ids_rise(
    steps: Seq<Step>,
    more: Seq<Step>,
    event: Event,
    cursor: u64,
    key: (Text, Text, Text),
    other: (Text, Text, Text),
)
    requires
        bounded((steps + more).push(Step::Push { event, cursor })),
        record_of(event) is Some,
        TargetKey::fits(key),
        TargetKey::fits(other),
        target_id(run(steps + more)->Ok_0.0, key)->Ok_0 is None,
    ensures
        ({
            let (old, _) = run(steps)->Ok_0;
            let (db, seqs) = run(steps + more)->Ok_0;
            let (after, new_seqs) = run((steps + more).push(Step::Push { event, cursor }))->Ok_0;
            &&& run((steps + more).push(Step::Push { event, cursor })) is Ok
            &&& target_id(after, key)->Ok_0 matches Some(id) ==> {
                &&& 2 <= id
                &&& seqs.target < id <= new_seqs.target
                &&& target_id(old, other)->Ok_0 matches Some(earlier) ==> earlier < id
            }
        }),
{
    let all = steps + more;
    let step = Step::Push { event, cursor };
    lemma_space(all, event, cursor);
    law_sequences_rise(steps, more);
    assert(all.push(step).drop_last() =~= all);
    lemma_bounded(steps, more);
    law_history(steps);
    let (old, old_seqs) = run(steps)->Ok_0;
    let (db, seqs) = run(all)->Ok_0;
    let own = choose|own: Map<u64, Text>| in_order(old, own);
    assert(target_id(old, other) is Ok);
    let db_own = choose|own: Map<u64, Text>| in_order(db, own);
    assert(target_id(db, key) is Ok);
    lemma_brought(db, event, cursor, seqs);
    law_history(all.push(step));
}

}
