//! Accounts that become active or not, and accounts that go.
use crate::db::{apply, apply_all, apply_op, before, lemma_apply_one, row, scan, Cf, Db};
use crate::error::Error;
use crate::events::Event;
use crate::laws::consistency::{
    consistent, dids_ok, follows, in_order, lemma_accounts_changed, lemma_cursor_keeps,
    same_but_cursor, same_links,
};
use crate::laws::creating::lemma_one_batch;
use crate::laws::keys::{id_limit, law_bytes_differ, law_record_prefix};
use crate::laws::rows::{lemma_put_did, lemma_same_but, next_did, next_target};
use crate::laws::scans::{law_before_irreflexive, law_decoded, law_scan};
use crate::model::{
    account_set, cursor_of, did_of_id, did_value, linkers_of, pushed, put_did_op, record_targets,
    records_of, target_id, Seqs,
};
use crate::records::{Did, RecordLinkKey, RecordLinkKeyDidIdPrefix, RecordLinkTargets, Stored, Text};
use vstd::prelude::*;

verus! {

/// What an account that became active or not leaves behind: it has kept its id, and all else is
/// as it was. An account that is not stored is still not stored.
pub open spec fn switched(db: Db, did: Text, active: bool, after: Db) -> bool {
    &&& next_did(after) == next_did(db)
    &&& next_target(after) == next_target(db)
    &&& did_value(after, did) == match did_value(db, did)->Ok_0 {
        Some((id, _)) => Ok::<Option<(u64, bool)>, Error>(Some((id, active))),
        None => Ok(None),
    }
    &&& forall|other: Text|
        Did::fits(other) && other != did ==> #[trigger] did_value(after, other) == did_value(
            db,
            other,
        )
    &&& forall|id: u64| id < id_limit() ==> #[trigger] did_of_id(after, id) == did_of_id(db, id)
    &&& forall|key: (Text, Text, Text)| #[trigger] target_id(after, key) == target_id(db, key)
    &&& forall|id: u64| #[trigger] linkers_of(after, id) == linkers_of(db, id)
    &&& forall|key: (u64, Text, Text)| #[trigger]
        record_targets(after, key) == record_targets(db, key)
}

/// An account that becomes active or not leaves all in order.
proof fn lemma_switched(db: Db, own: Map<u64, Text>, did: Text, active: bool)
    requires
        in_order(db, own),
        Did::fits(did),
    ensures
        account_set(db, did, active) is Ok,
        in_order(apply(db, account_set(db, did, active)->Ok_0), own),
        switched(db, did, active, apply(db, account_set(db, did, active)->Ok_0)),
{
    assert(did_value(db, did) is Ok);
    assert(apply(db, Seq::empty()) == db);
    if let Ok(Some((id, was))) = did_value(db, did) {
        let op = put_did_op(did, (id, active));
        let after = apply_op(db, op);
        lemma_apply_one(db, op);
        lemma_put_did(db, did, (id, active));
        lemma_same_but(db, op);
        assert(same_links(db, after));
        assert(dids_ok(after)) by {
            assert forall|other: Text| Did::fits(other) implies match #[trigger] did_value(
                after,
                other,
            ) {
                Ok(None) => true,
                Ok(Some(value)) => 0 < value.0 < next_did(after)->Ok_0 && did_of_id(after, value.0)
                    == Ok::<Option<Text>, Error>(Some(other)),
                Err(_) => false,
            } by {
                assert(did_value(db, other) is Ok);
                if let Ok(Some(value)) = did_value(db, other) {
                    assert(did_of_id(after, value.0) == did_of_id(db, value.0));
                }
            }
            assert forall|id: u64| id < id_limit() implies match #[trigger] did_of_id(after, id) {
                Ok(None) => true,
                Ok(Some(did)) => Did::fits(did) && 0 < id < next_did(after)->Ok_0,
                Err(_) => false,
            } by {
                assert(did_of_id(after, id) == did_of_id(db, id));
            }
        }
        lemma_accounts_changed(db, after, own);
    }
}

/// The event by which an account becomes active or not.
pub open spec fn switch_event(did: Text, active: bool) -> Event {
    if active {
        Event::ActivateAccount { did }
    } else {
        Event::DeactivateAccount { did }
    }
}

/// An account can always become active or not, and leaves the database in order.
pub proof fn law_set_account(db: Db, did: Text, active: bool, cursor: u64, seqs: Seqs)
    requires
        consistent(db),
        follows(db, seqs),
        Did::fits(did),
    ensures
        ({
            let p = pushed(db, switch_event(did, active), cursor, seqs);
            let after = apply_all(db, p->Ok_0.batches);
            &&& p is Ok
            &&& consistent(after)
            &&& follows(after, p->Ok_0.seqs)
            &&& p->Ok_0.seqs == seqs
            &&& switched(db, did, active, after)
            &&& cursor_of(after) == Ok::<Option<u64>, Error>(Some(cursor))
        }),
{
    let own = choose|own: Map<u64, Text>| in_order(db, own);
    lemma_switched(db, own, did, active);
    let ops = account_set(db, did, active)->Ok_0;
    let mid = apply(db, ops);
    lemma_one_batch(db, ops, cursor, seqs);
    lemma_cursor_keeps(mid, own, cursor);
    let p = pushed(db, switch_event(did, active), cursor, seqs)->Ok_0;
    let after = apply_all(db, p.batches);
    assert(same_but_cursor(mid, after));
    assert(did_value(after, did) == did_value(mid, did));
    assert forall|other: Text| Did::fits(other) && other != did implies #[trigger] did_value(
        after,
        other,
    ) == did_value(db, other) by {
        assert(did_value(after, other) == did_value(mid, other));
    }
    assert forall|id: u64| id < id_limit() implies #[trigger] did_of_id(after, id) == did_of_id(
        db,
        id,
    ) by {
        assert(did_of_id(after, id) == did_of_id(mid, id));
    }
    assert forall|key: (Text, Text, Text)| #[trigger] target_id(after, key) == target_id(
        db,
        key,
    ) by {
        assert(target_id(after, key) == target_id(mid, key));
    }
    assert forall|id: u64| #[trigger] linkers_of(after, id) == linkers_of(db, id) by {
        assert(linkers_of(after, id) == linkers_of(mid, id));
    }
    assert forall|key: (u64, Text, Text)| #[trigger] record_targets(after, key) == record_targets(
        db,
        key,
    ) by {
        assert(record_targets(after, key) == record_targets(mid, key));
    }
}

/// The records of an account are listed once each: those that are stored, and no others.
pub proof fn law_records_of(db: Db, did_id: u64)
    requires
        consistent(db),
    ensures
        ({
            let records = records_of(db, did_id);
            &&& forall|i: int|
                0 <= i < records.len() ==> {
                    let key = (#[trigger] records[i]).0;
                    &&& RecordLinkKey::fits(key)
                    &&& key.0 == did_id
                    &&& record_targets(db, key) == Ok::<Option<Seq<(Text, u64)>>, Error>(
                        Some(records[i].1),
                    )
                }
            &&& forall|key: (u64, Text, Text)|
                RecordLinkKey::fits(key) && key.0 == did_id && (#[trigger] record_targets(
                    db,
                    key,
                ))->Ok_0 is Some ==> exists|i: int|
                    0 <= i < records.len() && (#[trigger] records[i]).0 == key
            &&& forall|i: int, j: int|
                0 <= i < j < records.len() ==> (#[trigger] records[i]).0 != (
                #[trigger] records[j]).0
        }),
{
    let own = choose|own: Map<u64, Text>| in_order(db, own);
    let prefix = RecordLinkKeyDidIdPrefix::bytes(did_id);
    let rows = scan(db, Cf::LinkTargets, prefix);
    law_scan(db, Cf::LinkTargets, prefix);
    assert forall|i: int| 0 <= i < rows.len() implies scanned(db, did_id, #[trigger] rows[i]) by {
        let bytes = rows[i].0;
        assert(db.contains_key((Cf::LinkTargets, bytes)));
        let key = choose|k: (u64, Text, Text)|
            RecordLinkKey::fits(k) && bytes == #[trigger] RecordLinkKey::bytes(k);
        RecordLinkKey::lemma_parsed_bytes(key);
        law_record_prefix(did_id, key);
        assert(record_targets(db, key) is Ok);
    }
    assert forall|i: int| 0 <= i < rows.len() implies RecordLinkKey::parsed(
        (#[trigger] rows[i]).0,
    ) is Some && RecordLinkTargets::parsed(rows[i].1) is Some by {
        assert(scanned(db, did_id, rows[i]));
    }
    law_decoded::<RecordLinkKey, RecordLinkTargets>(rows);
    let records = records_of(db, did_id);
    assert forall|i: int| 0 <= i < records.len() implies {
        let key = (#[trigger] records[i]).0;
        &&& RecordLinkKey::fits(key)
        &&& key.0 == did_id
        &&& RecordLinkKey::bytes(key) == rows[i].0
        &&& record_targets(db, key) == Ok::<Option<Seq<(Text, u64)>>, Error>(Some(records[i].1))
    } by {
        assert(scanned(db, did_id, rows[i]));
    }
    assert forall|key: (u64, Text, Text)|
        RecordLinkKey::fits(key) && key.0 == did_id && (#[trigger] record_targets(
            db,
            key,
        ))->Ok_0 is Some implies exists|i: int|
        0 <= i < records.len() && (#[trigger] records[i]).0 == key by {
        assert(record_targets(db, key) is Ok);
        let bytes = RecordLinkKey::bytes(key);
        assert(db.contains_key((Cf::LinkTargets, bytes)));
        law_record_prefix(did_id, key);
        let i = choose|i: int| 0 <= i < rows.len() && (#[trigger] rows[i]).0 == bytes;
        law_bytes_differ::<RecordLinkKey>(records[i].0, key);
    }
    assert forall|i: int, j: int| 0 <= i < j < records.len() implies (#[trigger] records[i]).0 != (
    #[trigger] records[j]).0 by {
        assert(before(rows[i].0, rows[j].0));
        law_before_irreflexive(rows[i].0);
    }
}

/// Whether a row is that of a record of an account.
spec fn scanned(db: Db, did_id: u64, r: (Seq<u8>, Seq<u8>)) -> bool {
    &&& RecordLinkKey::parsed(r.0) is Some
    &&& RecordLinkTargets::parsed(r.1) is Some
    &&& ({
        let key = RecordLinkKey::parsed(r.0).unwrap();
        &&& RecordLinkKey::fits(key)
        &&& RecordLinkKey::bytes(key) == r.0
        &&& key.0 == did_id
        &&& record_targets(db, key) == Ok::<Option<Seq<(Text, u64)>>, Error>(
            RecordLinkTargets::parsed(r.1),
        )
    })
}

}
