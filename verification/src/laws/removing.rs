//! Records that go: what is left of them.
use crate::db::{apply, apply_all, apply_op, lemma_apply_concat, lemma_apply_push, row, Cf, Db, Op};
use crate::error::Error;
use crate::events::Event;
use crate::id_table::given;
use crate::laws::consistency::{
    consistent, dids_ok, follows, in_order, is_record_key, lemma_cursor_keeps, lemma_listed,
    link_ok, linkers_given, linkers_ok, links_to, owned, records_ok, same_but_cursor, targets_ok,
};
use crate::laws::creating::{
    created, ids_left, lemma_added, lemma_created_cursor, lemma_one_batch, links_fit, record_fits,
    roomy,
};
use crate::laws::merging::{law_unlinked, lemma_occurrences_contains, occurrences};
use crate::laws::rows::{
    lemma_delete_record, lemma_put_linkers, lemma_same_but, next_did, next_target, same_but,
};
use crate::linkers::{tombstone, unlinked};
use crate::model::{
    added, cursor_key, cursor_of, cursor_op, delete_record_op, did_of_id, did_value, linkers_of,
    new_links, pushed, record_targets, removed, target_id, unlink_op, unlink_ops, Pushed, Seqs,
};
use crate::records::{
    Did, DidIdValue, Linker, RecordLinkKey, RecordLinkTargets, Stored, TargetKey, TargetLinkers,
    Text,
};
use crate::wire::{items_fit, Wire};
use vstd::prelude::*;
use vstd::utf8::encode_utf8;

verus! {

/// Whether linkers have lost one entry or more to empty ones, and no other.
pub open spec fn lighter(old: Seq<Linker>, new: Seq<Linker>, e: Linker) -> bool {
    &&& new.len() == old.len()
    &&& forall|i: int|
        0 <= i < old.len() ==> (#[trigger] new[i] == old[i] || (old[i] == e && new[i]
            == tombstone()))
    &&& forall|other: Linker|
        other != e && other != tombstone() ==> #[trigger] occurrences(new, other) == occurrences(
            old,
            other,
        )
}

/// Linkers that have lost an entry fit their format as they did.
pub proof fn lemma_lighter_fits(old: Seq<Linker>, new: Seq<Linker>, e: Linker)
    requires
        TargetLinkers::fits(old),
        lighter(old, new, e),
    ensures
        TargetLinkers::fits(new),
{
    assert(encode_utf8(tombstone().1).len() == 0);
    assert(items_fit::<(u64, String)>(new)) by {
        assert forall|i: int| 0 <= i < new.len() implies <(u64, String) as Wire>::fits(
            #[trigger] new[i],
        ) by {
            assert(<(u64, String) as Wire>::fits(old[i]));
            assert(new[i] == tombstone() || new[i] == old[i]);
        }
    }
}

/// Whether links can leave their targets.
pub open spec fn can_unlink(base: Db, linker: Linker, targets: Seq<(Text, u64)>) -> bool {
    forall|i: int|
        0 <= i < targets.len() ==> {
            let linkers = linkers_of(base, (#[trigger] targets[i]).1);
            &&& linkers is Ok
            &&& TargetLinkers::fits(linkers->Ok_0)
            &&& linkers->Ok_0.contains(linker)
        }
}

/// Links that leave their targets, each as it is stored in `base`, leave these linkers behind.
#[verifier::rlimit(30)]
pub proof fn lemma_unlink_ops(
    base: Db,
    start: Db,
    linker: Linker,
    targets: Seq<(Text, u64)>,
)
    requires
        linker.0 != 0,
        can_unlink(base, linker, targets),
    ensures
        unlink_ops(base, linker, targets) is Ok,
        ({
            let cur = apply(start, unlink_ops(base, linker, targets)->Ok_0);
            &&& same_but(start, cur, Cf::TargetLinks)
            &&& start.dom().finite() ==> cur.dom().finite()
            &&& forall|id: u64| #[trigger]
                linkers_of(cur, id) == if links_to(targets, id) {
                    Ok::<Seq<Linker>, Error>(unlinked(linkers_of(base, id)->Ok_0, linker).unwrap())
                } else {
                    linkers_of(start, id)
                }
        }),
    decreases targets.len(),
{
    if targets.len() == 0 {
        assert(apply(start, Seq::empty()) == start);
    } else {
        let front = targets.drop_last();
        let id = targets.last().1;
        assert(targets[targets.len() - 1].1 == id);
        assert(can_unlink(base, linker, front)) by {
            assert forall|i: int| 0 <= i < front.len() implies {
                let linkers = linkers_of(base, (#[trigger] front[i]).1);
                &&& linkers is Ok
                &&& TargetLinkers::fits(linkers->Ok_0)
                &&& linkers->Ok_0.contains(linker)
            } by {
                assert(front[i] == targets[i]);
            }
        }
        lemma_unlink_ops(base, start, linker, front);
        let front_ops = unlink_ops(base, linker, front)->Ok_0;
        let mid = apply(start, front_ops);
        let old = linkers_of(base, id)->Ok_0;
        law_unlinked(old, linker);
        lemma_lighter_fits(old, unlinked(old, linker).unwrap(), linker);
        let rest = unlinked(old, linker).unwrap();
        let op = unlink_op(base, linker, id, true)->Ok_0;
        lemma_apply_push(start, front_ops, op);
        let cur = apply_op(mid, op);
        lemma_put_linkers(mid, id, rest);
        lemma_same_but(mid, op);
        assert(same_but(start, cur, Cf::TargetLinks));
        assert forall|other: u64| #[trigger] linkers_of(cur, other) == if links_to(targets, other) {
            Ok::<Seq<Linker>, Error>(unlinked(linkers_of(base, other)->Ok_0, linker).unwrap())
        } else {
            linkers_of(start, other)
        } by {
            if other != id {
                assert(linkers_of(cur, other) == linkers_of(mid, other));
                if links_to(targets, other) {
                    let i = choose|i: int|
                        0 <= i < targets.len() && (#[trigger] targets[i]).1 == other;
                    assert(front[i].1 == other);
                }
                if links_to(front, other) {
                    let i = choose|i: int|
                        0 <= i < front.len() && (#[trigger] front[i]).1 == other;
                    assert(targets[i].1 == other);
                }
            }
        }
    }
}

/// Whether all but the records and the linkers is the same.
pub open spec fn same_ids(a: Db, b: Db) -> bool {
    &&& next_did(b) == next_did(a)
    &&& next_target(b) == next_target(a)
    &&& cursor_of(b) == cursor_of(a)
    &&& forall|did: Text| #[trigger] did_value(b, did) == did_value(a, did)
    &&& forall|id: u64| #[trigger] did_of_id(b, id) == did_of_id(a, id)
    &&& forall|key: (Text, Text, Text)| #[trigger] target_id(b, key) == target_id(a, key)
    &&& forall|key: Seq<u8>| #[trigger]
        b.contains_key((Cf::TargetIds, key)) == a.contains_key((Cf::TargetIds, key))
}

/// Whether a record has gone, and targets that it linked to have lost its link, and nothing else
/// has changed.
pub open spec fn one_gone(
    db: Db,
    key: (u64, Text, Text),
    targets: Seq<(Text, u64)>,
    after: Db,
) -> bool {
    &&& same_ids(db, after)
    &&& after.dom().finite()
    &&& forall|k: (u64, Text, Text)|
        RecordLinkKey::fits(k) ==> #[trigger] record_targets(after, k) == if k == key {
            Ok::<Option<Seq<(Text, u64)>>, Error>(None)
        } else {
            record_targets(db, k)
        }
    &&& forall|k: Seq<u8>| #[trigger]
        after.contains_key((Cf::LinkTargets, k)) ==> db.contains_key((Cf::LinkTargets, k))
    &&& forall|id: u64|
        #![trigger linkers_of(after, id)]
        linkers_of(after, id) == linkers_of(db, id) || (links_to(targets, id) && linkers_of(
            after,
            id,
        ) is Ok && lighter(
            linkers_of(db, id)->Ok_0,
            linkers_of(after, id)->Ok_0,
            (key.0, key.2),
        ))
}

/// The linkers of a target stay in order when a record goes.
proof fn lemma_one_gone_linkers(
    db: Db,
    own: Map<u64, Text>,
    key: (u64, Text, Text),
    targets: Seq<(Text, u64)>,
    after: Db,
)
    requires
        in_order(db, own),
        one_gone(db, key, targets, after),
    ensures
        linkers_ok(after),
{
    assert forall|id: u64|
        match #[trigger] linkers_of(after, id) {
            Ok(linkers) => {
                &&& TargetLinkers::fits(linkers)
                &&& linkers_given(linkers, next_did(after)->Ok_0)
                &&& id >= next_target(after)->Ok_0 ==> linkers.len() == 0
            },
            Err(_) => false,
        } by {
        assert(linkers_of(db, id) is Ok);
        if linkers_of(after, id) != linkers_of(db, id) {
            let old = linkers_of(db, id)->Ok_0;
            let rest = linkers_of(after, id)->Ok_0;
            lemma_lighter_fits(old, rest, (key.0, key.2));
            assert forall|i: int| 0 <= i < rest.len() implies (#[trigger] rest[i]).0 < next_did(
                after,
            )->Ok_0 by {
                assert(old[i].0 < next_did(db)->Ok_0);
            }
        }
    }
}

/// A record that went has left all in order.
pub proof fn lemma_one_gone_keeps(
    db: Db,
    own: Map<u64, Text>,
    key: (u64, Text, Text),
    targets: Seq<(Text, u64)>,
    after: Db,
)
    requires
        in_order(db, own),
        RecordLinkKey::fits(key),
        key.0 != 0,
        forall|i: int|
            0 <= i < targets.len() ==> link_ok(db, own, key, targets, (#[trigger] targets[i]).1),
        one_gone(db, key, targets, after),
    ensures
        in_order(after, own),
{
    assert(dids_ok(after));
    assert(targets_ok(after));
    assert(owned(after, own));
    lemma_one_gone_linkers(db, own, key, targets, after);
    assert(records_ok(after, own)) by {
        assert forall|k: (u64, Text, Text)| RecordLinkKey::fits(k) implies match #[trigger] record_targets(
            after,
            k,
        ) {
            Ok(None) => true,
            Ok(Some(others)) => {
                &&& 0 < k.0 < next_did(after)->Ok_0
                &&& RecordLinkTargets::fits(others)
                &&& forall|i: int|
                    0 <= i < others.len() ==> link_ok(after, own, k, others, (#[trigger] others[i]).1)
            },
            Err(_) => false,
        } by {
            assert(record_targets(db, k) is Ok);
            if let Ok(Some(others)) = record_targets(after, k) {
                assert(k != key);
                assert forall|i: int| 0 <= i < others.len() implies link_ok(
                    after,
                    own,
                    k,
                    others,
                    (#[trigger] others[i]).1,
                ) by {
                    let id = others[i].1;
                    assert(link_ok(db, own, k, others, id));
                    assert(linkers_of(after, id) is Ok);
                    if linkers_of(after, id) != linkers_of(db, id) {
                        let j = choose|j: int|
                            0 <= j < targets.len() && (#[trigger] targets[j]).1 == id;
                        assert(link_ok(db, own, key, targets, targets[j].1));
                        assert((k.0, k.2) != (key.0, key.2));
                    }
                }
            }
        }
        assert forall|k: Seq<u8>| #[trigger]
            after.contains_key((Cf::LinkTargets, k)) implies is_record_key(k) by {
            assert(db.contains_key((Cf::LinkTargets, k)));
        }
    }
}

/// The record that a question is about, if its account is stored.
pub open spec fn stored_key(db: Db, record: (Text, Text, Text)) -> Option<(u64, Text, Text)> {
    match did_value(db, record.0) {
        Ok(Some((did_id, _))) => Some((did_id, record.1, record.2)),
        _ => None,
    }
}

/// The links that a record has.
pub open spec fn stored_targets(db: Db, record: (Text, Text, Text)) -> Seq<(Text, u64)> {
    match stored_key(db, record) {
        Some(key) => match record_targets(db, key) {
            Ok(Some(targets)) => targets,
            _ => Seq::empty(),
        },
        None => Seq::empty(),
    }
}

/// What a record that went leaves behind: it has no links; each target that it linked to has lost
/// the newest link of the record; and all else is as it was.
pub open spec fn forgotten(db: Db, record: (Text, Text, Text), after: Db) -> bool {
    &&& next_did(after) == next_did(db)
    &&& next_target(after) == next_target(db)
    &&& forall|did: Text| #[trigger] did_value(after, did) == did_value(db, did)
    &&& forall|id: u64| #[trigger] did_of_id(after, id) == did_of_id(db, id)
    &&& forall|key: (Text, Text, Text)| #[trigger] target_id(after, key) == target_id(db, key)
    &&& forall|key: (u64, Text, Text)|
        RecordLinkKey::fits(key) ==> #[trigger] record_targets(after, key) == if stored_key(
            db,
            record,
        ) == Some(key) {
            Ok::<Option<Seq<(Text, u64)>>, Error>(None)
        } else {
            record_targets(db, key)
        }
    &&& forall|id: u64| #[trigger]
        linkers_of(after, id) == if links_to(stored_targets(db, record), id) {
            Ok::<Seq<Linker>, Error>(
                unlinked(
                    linkers_of(db, id)->Ok_0,
                    (stored_key(db, record).unwrap().0, record.2),
                ).unwrap(),
            )
        } else {
            linkers_of(db, id)
        }
}

/// What a record that is stored and goes leaves behind.
pub open spec fn record_gone(
    db: Db,
    key: (u64, Text, Text),
    targets: Seq<(Text, u64)>,
    after: Db,
) -> bool {
    &&& same_ids(db, after)
    &&& forall|k: (u64, Text, Text)|
        RecordLinkKey::fits(k) ==> #[trigger] record_targets(after, k) == if k == key {
            Ok::<Option<Seq<(Text, u64)>>, Error>(None)
        } else {
            record_targets(db, k)
        }
    &&& forall|k: Seq<u8>| #[trigger]
        after.contains_key((Cf::LinkTargets, k)) ==> db.contains_key((Cf::LinkTargets, k))
    &&& forall|id: u64| #[trigger]
        linkers_of(after, id) == if links_to(targets, id) {
            Ok::<Seq<Linker>, Error>(
                unlinked(linkers_of(db, id)->Ok_0, (key.0, key.2)).unwrap(),
            )
        } else {
            linkers_of(db, id)
        }
}

/// A record whose links can leave their targets goes.
proof fn lemma_record_gone(
    db: Db,
    key: (u64, Text, Text),
    targets: Seq<(Text, u64)>,
)
    requires
        db.dom().finite(),
        key.0 != 0,
        RecordLinkKey::fits(key),
        can_unlink(db, (key.0, key.2), targets),
    ensures
        unlink_ops(db, (key.0, key.2), targets) is Ok,
        ({
            let ops = unlink_ops(db, (key.0, key.2), targets)->Ok_0.push(
                delete_record_op(key),
            );
            &&& record_gone(db, key, targets, apply(db, ops))
            &&& apply(db, ops).dom().finite()
        }),
{
    let linker = (key.0, key.2);
    lemma_unlink_ops(db, db, linker, targets);
    let ops = unlink_ops(db, linker, targets)->Ok_0;
    let cur = apply(db, ops);
    let after = apply_op(cur, delete_record_op(key));
    lemma_apply_push(db, ops, delete_record_op(key));
    lemma_delete_record(cur, key);
    lemma_same_but(cur, delete_record_op(key));
    assert forall|id: u64| #[trigger] linkers_of(after, id) == if links_to(targets, id) {
        Ok::<Seq<Linker>, Error>(unlinked(linkers_of(db, id)->Ok_0, linker).unwrap())
    } else {
        linkers_of(db, id)
    } by {
        assert(linkers_of(after, id) == linkers_of(cur, id));
    }
    assert(same_ids(db, after));
    assert forall|k: (u64, Text, Text)| RecordLinkKey::fits(k) implies #[trigger] record_targets(
        after,
        k,
    )
        == if k == key {
        Ok::<Option<Seq<(Text, u64)>>, Error>(None)
    } else {
        record_targets(db, k)
    } by {
        if k != key {
            assert(record_targets(after, k) == record_targets(cur, k));
            assert(record_targets(cur, k) == record_targets(db, k));
        }
    }
}

/// Links that are in order can leave their targets.
pub proof fn lemma_can_unlink(
    db: Db,
    own: Map<u64, Text>,
    key: (u64, Text, Text),
    targets: Seq<(Text, u64)>,
)
    requires
        in_order(db, own),
        RecordLinkKey::fits(key),
        record_targets(db, key) == Ok::<Option<Seq<(Text, u64)>>, Error>(Some(targets)),
    ensures
        0 < key.0 < next_did(db)->Ok_0,
        can_unlink(db, (key.0, key.2), targets),
        forall|i: int|
            0 <= i < targets.len() ==> link_ok(db, own, key, targets, (#[trigger] targets[i]).1),
{
    assert forall|i: int| 0 <= i < targets.len() implies {
        let linkers = linkers_of(db, (#[trigger] targets[i]).1);
        &&& linkers is Ok
        &&& TargetLinkers::fits(linkers->Ok_0)
        &&& linkers->Ok_0.contains((key.0, key.2))
    } by {
        let id = targets[i].1;
        assert(link_ok(db, own, key, targets, id));
        assert(links_to(targets, id));
        lemma_listed(targets, id);
        lemma_occurrences_contains(linkers_of(db, id)->Ok_0, (key.0, key.2));
    }
}

/// A record that went has left all in order.
proof fn lemma_record_gone_keeps(
    db: Db,
    own: Map<u64, Text>,
    key: (u64, Text, Text),
    targets: Seq<(Text, u64)>,
    after: Db,
)
    requires
        in_order(db, own),
        RecordLinkKey::fits(key),
        record_targets(db, key) == Ok::<Option<Seq<(Text, u64)>>, Error>(Some(targets)),
        record_gone(db, key, targets, after),
        after.dom().finite(),
    ensures
        in_order(after, own),
{
    lemma_can_unlink(db, own, key, targets);
    assert forall|id: u64|
        #![trigger linkers_of(after, id)]
        linkers_of(after, id) == linkers_of(db, id) || (links_to(targets, id) && linkers_of(
            after,
            id,
        ) is Ok && lighter(
            linkers_of(db, id)->Ok_0,
            linkers_of(after, id)->Ok_0,
            (key.0, key.2),
        )) by {
        if links_to(targets, id) {
            let i = choose|i: int| 0 <= i < targets.len() && (#[trigger] targets[i]).1 == id;
            assert(linkers_of(db, targets[i].1)->Ok_0.contains((key.0, key.2)));
            law_unlinked(linkers_of(db, id)->Ok_0, (key.0, key.2));
        }
    }
    lemma_one_gone_keeps(db, own, key, targets, after);
}

/// A record that goes leaves all in order.
proof fn lemma_removed(db: Db, own: Map<u64, Text>, record: (Text, Text, Text))
    requires
        in_order(db, own),
        record_fits(record),
    ensures
        removed(db, record) is Ok,
        in_order(apply(db, removed(db, record)->Ok_0), own),
        cursor_of(apply(db, removed(db, record)->Ok_0)) == cursor_of(db),
        forgotten(db, record, apply(db, removed(db, record)->Ok_0)),
{
    assert(did_value(db, record.0) is Ok);
    assert(apply(db, Seq::empty()) == db);
    if let Ok(Some((did_id, _))) = did_value(db, record.0) {
        let key = (did_id, record.1, record.2);
        assert(record_targets(db, key) is Ok);
        if let Ok(Some(targets)) = record_targets(db, key) {
            lemma_can_unlink(db, own, key, targets);
            lemma_record_gone(db, key, targets);
            let after = apply(db, removed(db, record)->Ok_0);
            lemma_record_gone_keeps(db, own, key, targets, after);
            assert(stored_targets(db, record) == targets);
            assert(forgotten(db, record, after));
        } else {
            assert forall|id: u64| !links_to(stored_targets(db, record), id) by {}
        }
    }
}

/// A record that goes leaves the rows of accounts and targets alone.
proof fn lemma_removed_rows(db: Db, record: (Text, Text, Text))
    requires
        removed(db, record) is Ok,
    ensures
        forall|cf: Cf, key: Seq<u8>|
            cf != Cf::TargetLinks && cf != Cf::LinkTargets ==> #[trigger] row(
                apply(db, removed(db, record)->Ok_0),
                cf,
                key,
            ) == row(db, cf, key),
{
    assert(apply(db, Seq::empty()) == db);
    if let Ok(Some((did_id, _))) = did_value(db, record.0) {
        let key = (did_id, record.1, record.2);
        if let Ok(Some(targets)) = record_targets(db, key) {
            let linker = (did_id, record.2);
            let ops = unlink_ops(db, linker, targets)->Ok_0;
            lemma_unlink_ops_rows(db, db, linker, targets);
            lemma_apply_push(db, ops, delete_record_op(key));
            let cur = apply(db, ops);
            let after = apply_op(cur, delete_record_op(key));
            assert forall|cf: Cf, k: Seq<u8>|
                cf != Cf::TargetLinks && cf != Cf::LinkTargets implies #[trigger] row(after, cf, k)
                == row(db, cf, k) by {
                assert(row(after, cf, k) == row(cur, cf, k));
            }
        }
    }
}

/// Links that leave their targets leave the rows of other tables alone.
proof fn lemma_unlink_ops_rows(
    base: Db,
    start: Db,
    linker: Linker,
    targets: Seq<(Text, u64)>,
)
    requires
        unlink_ops(base, linker, targets) is Ok,
    ensures
        forall|cf: Cf, key: Seq<u8>|
            cf != Cf::TargetLinks ==> #[trigger] row(
                apply(start, unlink_ops(base, linker, targets)->Ok_0),
                cf,
                key,
            ) == row(start, cf, key),
    decreases targets.len(),
{
    if targets.len() == 0 {
        assert(apply(start, Seq::empty()) == start);
    } else {
        let front = targets.drop_last();
        lemma_unlink_ops_rows(base, start, linker, front);
        let front_ops = unlink_ops(base, linker, front)->Ok_0;
        let op = unlink_op(base, linker, targets.last().1, true)->Ok_0;
        let mid = apply(start, front_ops);
        lemma_apply_push(start, front_ops, op);
        assert forall|cf: Cf, key: Seq<u8>| cf != Cf::TargetLinks implies #[trigger] row(
            apply_op(mid, op),
            cf,
            key,
        ) == row(start, cf, key) by {
            assert(row(mid, cf, key) == row(start, cf, key));
        }
    }
}

/// A record can always go, and leaves the database in order. One that is not stored leaves it as
/// it was but for the cursor.
pub proof fn law_delete_record(db: Db, record: (Text, Text, Text), cursor: u64, seqs: Seqs)
    requires
        consistent(db),
        follows(db, seqs),
        record_fits(record),
    ensures
        ({
            let p = pushed(db, Event::DeleteRecord { record }, cursor, seqs);
            let after = apply_all(db, p->Ok_0.batches);
            &&& p is Ok
            &&& consistent(after)
            &&& follows(after, p->Ok_0.seqs)
            &&& p->Ok_0.seqs == seqs
            &&& forgotten(db, record, after)
            &&& cursor_of(after) == Ok::<Option<u64>, Error>(Some(cursor))
        }),
{
    let own = choose|own: Map<u64, Text>| in_order(db, own);
    lemma_removed(db, own, record);
    let ops = removed(db, record)->Ok_0;
    let mid = apply(db, ops);
    lemma_one_batch(db, ops, cursor, seqs);
    lemma_cursor_keeps(mid, own, cursor);
    let p = pushed(db, Event::DeleteRecord { record }, cursor, seqs)->Ok_0;
    let after = apply_all(db, p.batches);
    assert(same_but_cursor(mid, after));
    lemma_forgotten_cursor(db, record, mid, after);
}

proof fn lemma_forgotten_cursor(db: Db, record: (Text, Text, Text), mid: Db, after: Db)
    requires
        forgotten(db, record, mid),
        same_but_cursor(mid, after),
    ensures
        forgotten(db, record, after),
{
    assert forall|did: Text| #[trigger] did_value(after, did) == did_value(db, did) by {
        assert(did_value(after, did) == did_value(mid, did));
    }
    assert forall|id: u64| #[trigger] did_of_id(after, id) == did_of_id(db, id) by {
        assert(did_of_id(after, id) == did_of_id(mid, id));
    }
    assert forall|key: (Text, Text, Text)| #[trigger] target_id(after, key) == target_id(
        db,
        key,
    ) by {
        assert(target_id(after, key) == target_id(mid, key));
    }
    assert forall|key: (u64, Text, Text)| RecordLinkKey::fits(key) implies #[trigger] record_targets(
        after,
        key,
    )
        == if stored_key(db, record) == Some(key) {
        Ok::<Option<Seq<(Text, u64)>>, Error>(None)
    } else {
        record_targets(db, key)
    } by {
        assert(record_targets(after, key) == record_targets(mid, key));
    }
    assert forall|id: u64| #[trigger] linkers_of(after, id) == if links_to(
        stored_targets(db, record),
        id,
    ) {
        Ok::<Seq<Linker>, Error>(
            unlinked(
                linkers_of(db, id)->Ok_0,
                (stored_key(db, record).unwrap().0, record.2),
            ).unwrap(),
        )
    } else {
        linkers_of(db, id)
    } by {
        assert(linkers_of(after, id) == linkers_of(mid, id));
    }
}

/// New links only depend on the rows of the targets.
proof fn lemma_new_links_same(
    a: Db,
    b: Db,
    linker: Linker,
    collection: Text,
    links: Seq<(Text, Text)>,
    seq: u64,
)
    requires
        forall|key: Seq<u8>| #[trigger] row(b, Cf::TargetIds, key) == row(a, Cf::TargetIds, key),
    ensures
        new_links(b, linker, collection, links, seq) == new_links(
            a,
            linker,
            collection,
            links,
            seq,
        ),
    decreases links.len(),
{
    if links.len() > 0 {
        lemma_new_links_same(a, b, linker, collection, links.drop_last(), seq);
        let key = TargetKey::bytes((links.last().0, collection, links.last().1));
        assert(row(b, Cf::TargetIds, key) == row(a, Cf::TargetIds, key));
    }
}

/// Changes act alike on databases that differ in one row, but for that row.
proof fn lemma_apply_but(a: Db, b: Db, r: (Cf, Seq<u8>), ops: Seq<Op>)
    requires
        a.remove(r) == b.remove(r),
    ensures
        apply(a, ops).remove(r) == apply(b, ops).remove(r),
    decreases ops.len(),
{
    if ops.len() > 0 {
        lemma_apply_but(a, b, r, ops.drop_last());
        let x = apply(a, ops.drop_last());
        let y = apply(b, ops.drop_last());
        let changed = match ops.last() {
            Op::Put { cf, key, .. } => (cf, key),
            Op::Merge { cf, key, .. } => (cf, key),
            Op::Delete { cf, key } => (cf, key),
        };
        assert forall|q: (Cf, Seq<u8>)| q != r implies (#[trigger] x.contains_key(q)
            <==> y.contains_key(q)) && (x.contains_key(q) ==> x[q] == y[q]) by {
            assert(x.remove(r).contains_key(q) == y.remove(r).contains_key(q));
            assert(x.remove(r)[q] == y.remove(r)[q]);
        }
        if changed != r {
            assert(row(x, changed.0, changed.1) == row(y, changed.0, changed.1));
        }
        assert(apply_op(x, ops.last()).remove(r) =~= apply_op(y, ops.last()).remove(r));
    }
}

/// A record that changes its links leaves the very database behind that it would leave if it went
/// and came again with its new links: all reads are the same. It fails where one of the two would,
/// as that one would.
#[verifier::rlimit(40)]
pub proof fn law_update_as_two(
    db: Db,
    record: (Text, Text, Text),
    links: Seq<(Text, Text)>,
    earlier: u64,
    cursor: u64,
    seqs: Seqs,
)
    ensures
        ({
            let p = pushed(db, Event::UpdateLinks { record, links }, cursor, seqs);
            match pushed(db, Event::DeleteRecord { record }, earlier, seqs) {
                Err(e) => p == Err::<Pushed, Error>(e),
                Ok(gone) => {
                    let between = apply_all(db, gone.batches);
                    match pushed(between, Event::CreateLinks { record, links }, cursor, gone.seqs) {
                        Err(e) => p == Err::<Pushed, Error>(e),
                        Ok(come) => {
                            &&& p is Ok
                            &&& p->Ok_0.seqs == come.seqs
                            &&& apply_all(db, p->Ok_0.batches) == apply_all(between, come.batches)
                        },
                    }
                },
            }
        }),
{
    if let Ok(ops) = removed(db, record) {
        lemma_removed_rows(db, record);
        lemma_one_batch(db, ops, earlier, seqs);
        let without = apply(db, ops);
        let between = apply_op(without, cursor_op(earlier));
        assert forall|key: Seq<u8>| #[trigger] row(between, Cf::DidIds, key) == row(
            db,
            Cf::DidIds,
            key,
        ) by {
            assert(row(without, Cf::DidIds, key) == row(db, Cf::DidIds, key));
        }
        assert forall|key: Seq<u8>| #[trigger] row(between, Cf::TargetIds, key) == row(
            db,
            Cf::TargetIds,
            key,
        ) by {
            assert(row(without, Cf::TargetIds, key) == row(db, Cf::TargetIds, key));
        }
        lemma_added_same(db, between, record, links, seqs);
        if let Ok(effect) = added(db, record, links, seqs) {
            lemma_cursor_between(db, ops, effect.ops, earlier, cursor);
            lemma_one_batch(db, ops + effect.ops, cursor, effect.seqs);
            lemma_one_batch(between, effect.ops, cursor, effect.seqs);
        }
    }
}

/// Where the cursor moves at the end, it does not matter that it moved before.
proof fn lemma_cursor_between(db: Db, a: Seq<Op>, b: Seq<Op>, earlier: u64, cursor: u64)
    ensures
        apply_op(apply(db, a + b), cursor_op(cursor)) == apply_op(
            apply(apply_op(apply(db, a), cursor_op(earlier)), b),
            cursor_op(cursor),
        ),
{
    let without = apply(db, a);
    let between = apply_op(without, cursor_op(earlier));
    lemma_apply_concat(db, a, b);
    let r = (Cf::Default, cursor_key());
    assert(without.remove(r) =~= between.remove(r));
    lemma_apply_but(without, between, r, b);
    let x = apply(without, b);
    let y = apply(between, b);
    let op = cursor_op(cursor);
    assert(apply_op(x, op) =~= apply_op(x.remove(r), op));
    assert(apply_op(y, op) =~= apply_op(y.remove(r), op));
}

/// What a record that comes does only depends on the rows of accounts and targets.
proof fn lemma_added_same(
    a: Db,
    b: Db,
    record: (Text, Text, Text),
    links: Seq<(Text, Text)>,
    seqs: Seqs,
)
    requires
        forall|key: Seq<u8>| #[trigger] row(b, Cf::DidIds, key) == row(a, Cf::DidIds, key),
        forall|key: Seq<u8>| #[trigger] row(b, Cf::TargetIds, key) == row(a, Cf::TargetIds, key),
    ensures
        added(b, record, links, seqs) == added(a, record, links, seqs),
{
    let (did, collection, rkey) = record;
    assert(row(b, Cf::DidIds, Did::bytes(did)) == row(a, Cf::DidIds, Did::bytes(did)));
    if let Ok(g) = given::<DidIdValue>(
        row(a, Cf::DidIds, Did::bytes(did)),
        Cf::DidIds,
        Did::bytes(did),
        seqs.did,
        true,
    ) {
        lemma_new_links_same(a, b, (g.value.0, rkey), collection, links, seqs.target);
    }
}

/// A record that is not stored and changes its links comes with them.
pub proof fn law_update_unstored(
    db: Db,
    record: (Text, Text, Text),
    links: Seq<(Text, Text)>,
    cursor: u64,
    seqs: Seqs,
)
    requires
        match did_value(db, record.0) {
            Err(_) => false,
            Ok(None) => true,
            Ok(Some((did_id, _))) => record_targets(db, (did_id, record.1, record.2)) == Ok::<
                Option<Seq<(Text, u64)>>,
                Error,
            >(None),
        },
    ensures
        pushed(db, Event::UpdateLinks { record, links }, cursor, seqs) == pushed(
            db,
            Event::CreateLinks { record, links },
            cursor,
            seqs,
        ),
{
    assert(removed(db, record) == Ok::<Seq<Op>, Error>(Seq::empty()));
    if let Ok(effect) = added(db, record, links, seqs) {
        assert(Seq::<Op>::empty() + effect.ops =~= effect.ops);
    }
}

/// A record that changes its links can always do so, and leaves the database in order: it is as
/// if the record had gone and come again with its new links.
pub proof fn law_update(
    db: Db,
    record: (Text, Text, Text),
    links: Seq<(Text, Text)>,
    cursor: u64,
    seqs: Seqs,
)
    requires
        consistent(db),
        follows(db, seqs),
        record_fits(record),
        links_fit(links),
        ids_left(seqs, links.len()),
        roomy(db, links.len()),
    ensures
        ({
            let p = pushed(db, Event::UpdateLinks { record, links }, cursor, seqs);
            let between = apply(db, removed(db, record)->Ok_0);
            let after = apply_all(db, p->Ok_0.batches);
            &&& p is Ok
            &&& consistent(after)
            &&& forgotten(db, record, between)
            &&& created(between, record, links, seqs, after, p->Ok_0.seqs)
            &&& cursor_of(after) == Ok::<Option<u64>, Error>(Some(cursor))
        }),
{
    let own = choose|own: Map<u64, Text>| in_order(db, own);
    lemma_removed(db, own, record);
    lemma_removed_rows(db, record);
    let ops = removed(db, record)->Ok_0;
    let between = apply(db, ops);
    lemma_added_same(db, between, record, links, seqs);
    assert(roomy(between, links.len())) by {
        assert forall|id: u64| (#[trigger] linkers_of(between, id))->Ok_0.len() + links.len()
            <= u64::MAX by {
            lemma_forgotten_len(db, own, record, between, id);
            assert(linkers_of(db, id)->Ok_0.len() + links.len() <= u64::MAX);
        }
    }
    let new_own = lemma_added(between, own, record, links, seqs);
    let effect = added(between, record, links, seqs)->Ok_0;
    let mid = apply(between, effect.ops);
    lemma_apply_concat(db, ops, effect.ops);
    let p = pushed(db, Event::UpdateLinks { record, links }, cursor, seqs)->Ok_0;
    let after = apply_all(db, p.batches);
    lemma_one_batch(db, ops + effect.ops, cursor, effect.seqs);
    lemma_cursor_keeps(mid, new_own, cursor);
    lemma_created_cursor(between, record, links, seqs, mid, after, effect.seqs);
}

/// The linkers of a target are as many as they were.
pub proof fn lemma_forgotten_len(
    db: Db,
    own: Map<u64, Text>,
    record: (Text, Text, Text),
    after: Db,
    id: u64,
)
    requires
        in_order(db, own),
        record_fits(record),
        forgotten(db, record, after),
    ensures
        linkers_of(after, id)->Ok_0.len() == linkers_of(db, id)->Ok_0.len(),
{
    assert(linkers_of(db, id) is Ok);
    let targets = stored_targets(db, record);
    if links_to(targets, id) {
        let key = stored_key(db, record).unwrap();
        assert(did_value(db, record.0) is Ok);
        lemma_can_unlink(db, own, key, targets);
        let i = choose|i: int| 0 <= i < targets.len() && (#[trigger] targets[i]).1 == id;
        assert(linkers_of(db, targets[i].1)->Ok_0.contains((key.0, key.2)));
        law_unlinked(linkers_of(db, id)->Ok_0, (key.0, key.2));
    }
}

}
