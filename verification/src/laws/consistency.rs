//! What holds of the database between events.
use crate::bytes::le_bytes;
use crate::db::{apply, apply_op, lemma_apply_one, lemma_apply_push, row, Cf, Db, Op};
use crate::error::Error;
use crate::id_table::{given, reverse_op, seq_key};
use crate::laws::keys::id_limit;
use crate::laws::merging::{lemma_occurrences_push, occurrences, one_if};
use crate::laws::rows::{
    lemma_merge_linker, lemma_put_cursor, lemma_put_did, lemma_put_record, lemma_put_reverse,
    lemma_put_seq, lemma_put_target, lemma_same_but, next_did, next_target,
};
use crate::model::{
    cursor_of, cursor_op, did_of_id, did_value, linkers_of, merge_op, put_did_op, record_targets,
    target_id, Seqs,
};
use crate::records::{
    Did, DidIdValue, Linker, RecordLinkKey, RecordLinkTargets, Stored, TargetId, TargetKey,
    TargetLinkers, Text,
};
use crate::wire::Wire;
use vstd::prelude::*;

verus! {

/// Whether some bytes are the key of a target.
pub open spec fn is_target_key(key: Seq<u8>) -> bool {
    exists|k: (Text, Text, Text)| TargetKey::fits(k) && key == #[trigger] TargetKey::bytes(k)
}

/// Whether some bytes are the key of a record.
pub open spec fn is_record_key(key: Seq<u8>) -> bool {
    exists|k: (u64, Text, Text)| RecordLinkKey::fits(k) && key == #[trigger] RecordLinkKey::bytes(
        k,
    )
}

/// Both id tables can start, and the ids of accounts have not run into their keys.
pub open spec fn seqs_ok(db: Db) -> bool {
    &&& next_did(db) is Ok
    &&& next_target(db) is Ok
    &&& next_did(db)->Ok_0 <= id_limit()
}

/// Every account that is stored has an id that was given out and that leads back to it, and an id
/// that was not given out leads nowhere.
pub open spec fn dids_ok(db: Db) -> bool {
    &&& forall|did: Text|
        Did::fits(did) ==> match #[trigger] did_value(db, did) {
            Ok(None) => true,
            Ok(Some(value)) => 0 < value.0 < next_did(db)->Ok_0 && did_of_id(db, value.0) == Ok::<
                Option<Text>,
                Error,
            >(Some(did)),
            Err(_) => false,
        }
    &&& forall|id: u64|
        id < id_limit() ==> match #[trigger] did_of_id(db, id) {
            Ok(None) => true,
            Ok(Some(did)) => Did::fits(did) && 0 < id < next_did(db)->Ok_0,
            Err(_) => false,
        }
}

/// Every target that is stored has an id that was given out and that no other target has.
pub open spec fn targets_ok(db: Db) -> bool {
    &&& forall|key: (Text, Text, Text)|
        TargetKey::fits(key) ==> match #[trigger] target_id(db, key) {
            Ok(None) => true,
            Ok(Some(id)) => 0 < id < next_target(db)->Ok_0,
            Err(_) => false,
        }
    &&& forall|a: (Text, Text, Text), b: (Text, Text, Text)|
        TargetKey::fits(a) && TargetKey::fits(b) && (#[trigger] target_id(db, a))->Ok_0 is Some
            && target_id(db, a) == #[trigger] target_id(db, b) ==> a == b
    &&& forall|key: Seq<u8>| #[trigger]
        db.contains_key((Cf::TargetIds, key)) ==> is_target_key(key)
}

/// Whether linkers name only accounts whose ids were given out.
pub open spec fn linkers_given(linkers: Seq<Linker>, next: u64) -> bool {
    forall|i: int| 0 <= i < linkers.len() ==> (#[trigger] linkers[i]).0 < next
}

/// The linkers of every target can be read, and an id that was not given out has none.
pub open spec fn linkers_ok(db: Db) -> bool {
    forall|id: u64|
        match #[trigger] linkers_of(db, id) {
            Ok(linkers) => {
                &&& TargetLinkers::fits(linkers)
                &&& linkers_given(linkers, next_did(db)->Ok_0)
                &&& id >= next_target(db)->Ok_0 ==> linkers.len() == 0
            },
            Err(_) => false,
        }
}

/// How often the links of a record list a target.
pub open spec fn listed(targets: Seq<(Text, u64)>, id: u64) -> nat
    decreases targets.len(),
{
    if targets.len() == 0 {
        0
    } else {
        listed(targets.drop_last(), id) + one_if(targets.last().1 == id)
    }
}

/// Whether one of the links of a record goes to a target.
pub open spec fn links_to(targets: Seq<(Text, u64)>, id: u64) -> bool {
    exists|i: int| 0 <= i < targets.len() && (#[trigger] targets[i]).1 == id
}

/// A target that is linked to is listed, and no other.
pub proof fn lemma_listed(targets: Seq<(Text, u64)>, id: u64)
    ensures
        links_to(targets, id) <==> listed(targets, id) > 0,
    decreases targets.len(),
{
    if targets.len() > 0 {
        let front = targets.drop_last();
        lemma_listed(front, id);
        if links_to(front, id) {
            let i = choose|i: int| 0 <= i < front.len() && (#[trigger] front[i]).1 == id;
            assert(targets[i].1 == id);
        }
        if targets.last().1 == id {
            assert(targets[targets.len() - 1].1 == id);
        }
        if links_to(targets, id) && targets.last().1 != id {
            let i = choose|i: int| 0 <= i < targets.len() && (#[trigger] targets[i]).1 == id;
            assert(front[i].1 == id);
        }
    }
}

/// How often the links of a record list a target when one more comes.
pub proof fn lemma_listed_push(targets: Seq<(Text, u64)>, target: (Text, u64), id: u64)
    ensures
        listed(targets.push(target), id) == listed(targets, id) + one_if(target.1 == id),
{
    assert(targets.push(target).drop_last() =~= targets);
}

/// A link that a record has is among the linkers of its target, as often as the record has it; the
/// id of the target was given out and belongs to the collection of the record.
pub open spec fn link_ok(
    db: Db,
    own: Map<u64, Text>,
    key: (u64, Text, Text),
    targets: Seq<(Text, u64)>,
    id: u64,
) -> bool {
    &&& 0 < id < next_target(db)->Ok_0
    &&& own[id] == key.1
    &&& linkers_of(db, id) is Ok
    &&& occurrences(linkers_of(db, id)->Ok_0, (key.0, key.2)) >= listed(targets, id)
}

/// Every record that is stored belongs to an account whose id was given out, and its links are in
/// order.
pub open spec fn records_ok(db: Db, own: Map<u64, Text>) -> bool {
    &&& forall|key: (u64, Text, Text)|
        RecordLinkKey::fits(key) ==> match #[trigger] record_targets(db, key) {
            Ok(None) => true,
            Ok(Some(targets)) => {
                &&& 0 < key.0 < next_did(db)->Ok_0
                &&& RecordLinkTargets::fits(targets)
                &&& forall|i: int|
                    0 <= i < targets.len() ==> link_ok(db, own, key, targets, (#[trigger] targets[i]).1)
            },
            Err(_) => false,
        }
    &&& forall|key: Seq<u8>| #[trigger]
        db.contains_key((Cf::LinkTargets, key)) ==> is_record_key(key)
}

/// The id of a target belongs to the collection that the target is linked from.
pub open spec fn owned(db: Db, own: Map<u64, Text>) -> bool {
    forall|key: (Text, Text, Text)|
        TargetKey::fits(key) ==> match #[trigger] target_id(db, key) {
            Ok(Some(id)) => own[id] == key.1,
            _ => true,
        }
}

/// The database is in order, with each id of a target belonging to the collection that `own`
/// says.
pub open spec fn in_order(db: Db, own: Map<u64, Text>) -> bool {
    &&& db.dom().finite()
    &&& seqs_ok(db)
    &&& cursor_of(db) is Ok
    &&& dids_ok(db)
    &&& targets_ok(db)
    &&& linkers_ok(db)
    &&& records_ok(db, own)
    &&& owned(db, own)
}

/// The database is in order: all rows can be read, ids lead back to their accounts, and every link
/// that a record has is among the linkers of its target.
pub open spec fn consistent(db: Db) -> bool {
    exists|own: Map<u64, Text>| in_order(db, own)
}

/// The sequences of a store are those of a store over the database: not behind the ids that were
/// given out, and no further ahead of them than opening it puts them.
pub open spec fn follows(db: Db, seqs: Seqs) -> bool {
    &&& 1 <= seqs.did <= next_did(db)->Ok_0 <= seqs.did + 1
    &&& 1 <= seqs.target <= next_target(db)->Ok_0 <= seqs.target + 1
}

// ---------------------------------------------------------------------------------------------
// accounts

/// Whether all but the accounts is the same.
pub open spec fn same_links(a: Db, b: Db) -> bool {
    &&& next_target(b) == next_target(a)
    &&& cursor_of(b) == cursor_of(a)
    &&& forall|key: (Text, Text, Text)| #[trigger] target_id(b, key) == target_id(a, key)
    &&& forall|key: Seq<u8>| #[trigger]
        b.contains_key((Cf::TargetIds, key)) == a.contains_key((Cf::TargetIds, key))
    &&& forall|id: u64| #[trigger] linkers_of(b, id) == linkers_of(a, id)
    &&& forall|key: (u64, Text, Text)| #[trigger] record_targets(b, key) == record_targets(a, key)
    &&& forall|key: Seq<u8>| #[trigger]
        b.contains_key((Cf::LinkTargets, key)) == a.contains_key((Cf::LinkTargets, key))
}

/// Where only accounts change, and are in order, all is in order.
pub proof fn lemma_accounts_changed(a: Db, b: Db, own: Map<u64, Text>)
    requires
        in_order(a, own),
        same_links(a, b),
        b.dom().finite(),
        seqs_ok(b),
        next_did(b)->Ok_0 >= next_did(a)->Ok_0,
        dids_ok(b),
    ensures
        in_order(b, own),
{
    assert(targets_ok(b));
    assert(linkers_ok(b)) by {
        assert forall|id: u64|
            match #[trigger] linkers_of(b, id) {
                Ok(linkers) => {
                    &&& TargetLinkers::fits(linkers)
                    &&& linkers_given(linkers, next_did(b)->Ok_0)
                    &&& id >= next_target(b)->Ok_0 ==> linkers.len() == 0
                },
                Err(_) => false,
            } by {
            assert(linkers_of(b, id) == linkers_of(a, id));
        }
    }
    assert(records_ok(b, own)) by {
        assert forall|key: (u64, Text, Text)| RecordLinkKey::fits(key) implies match #[trigger] record_targets(
            b,
            key,
        ) {
            Ok(None) => true,
            Ok(Some(targets)) => {
                &&& 0 < key.0 < next_did(b)->Ok_0
                &&& RecordLinkTargets::fits(targets)
                &&& forall|i: int|
                    0 <= i < targets.len() ==> link_ok(b, own, key, targets, (#[trigger] targets[i]).1)
            },
            Err(_) => false,
        } by {
            assert(record_targets(b, key) == record_targets(a, key));
            if let Ok(Some(targets)) = record_targets(a, key) {
                assert forall|i: int| 0 <= i < targets.len() implies link_ok(
                    b,
                    own,
                    key,
                    targets,
                    (#[trigger] targets[i]).1,
                ) by {
                    assert(link_ok(a, own, key, targets, targets[i].1));
                    assert(linkers_of(b, targets[i].1) == linkers_of(a, targets[i].1));
                }
            }
        }
    }
    assert(owned(b, own));
}

/// An account that comes with a record has an id behind it.
pub proof fn lemma_give_did(db: Db, own: Map<u64, Text>, did: Text, seq: u64)
    requires
        in_order(db, own),
        Did::fits(did),
        next_did(db)->Ok_0 <= seq + 1,
        seq + 1 < id_limit(),
    ensures
        ({
            let key = Did::bytes(did);
            let g = given::<DidIdValue>(row(db, Cf::DidIds, key), Cf::DidIds, key, seq, true);
            let after = apply(db, g->Ok_0.ops);
            &&& g is Ok
            &&& in_order(after, own)
            &&& same_links(db, after)
            &&& did_value(after, did) == Ok::<Option<(u64, bool)>, Error>(Some(g->Ok_0.value))
            &&& did_of_id(after, g->Ok_0.value.0) == Ok::<Option<Text>, Error>(Some(did))
            &&& forall|other: Text|
                Did::fits(other) && other != did ==> #[trigger] did_value(after, other)
                    == did_value(db, other)
            &&& forall|id: u64|
                id < id_limit() && id != g->Ok_0.value.0 ==> #[trigger] did_of_id(after, id)
                    == did_of_id(db, id)
            &&& next_did(after)->Ok_0 <= g->Ok_0.seq + 1
            &&& seq <= g->Ok_0.seq
            &&& did_value(db, did) matches Ok(Some(value)) ==> g->Ok_0.value == value
                && g->Ok_0.seq == seq && next_did(after) == next_did(db)
            &&& did_value(db, did) matches Ok(None) ==> g->Ok_0.value == ((seq + 1) as u64, true)
                && g->Ok_0.seq == seq + 1 && next_did(after) == Ok::<u64, Error>((seq + 2) as u64)
        }),
{
    let key = Did::bytes(did);
    let g = given::<DidIdValue>(row(db, Cf::DidIds, key), Cf::DidIds, key, seq, true);
    assert(did_value(db, did) is Ok);
    match did_value(db, did) {
        Ok(Some(value)) => {
            let op = reverse_op(Cf::DidIds, value.0, key);
            lemma_apply_one(db, op);
            lemma_put_reverse(db, value.0, did);
            lemma_same_but(db, op);
            let after = apply_op(db, op);
            assert(did_of_id(db, value.0) == Ok::<Option<Text>, Error>(Some(did)));
            assert forall|id: u64| #[trigger] did_of_id(after, id) == did_of_id(db, id) by {}
            assert(dids_ok(after));
            lemma_accounts_changed(db, after, own);
        },
        _ => {
            let next = (seq + 1) as u64;
            let op1 = Op::Put { cf: Cf::Default, key: seq_key(Cf::DidIds), value: le_bytes(next) };
            let op2 = put_did_op(did, (next, true));
            let op3 = reverse_op(Cf::DidIds, next, key);
            let db1 = apply_op(db, op1);
            let db2 = apply_op(db1, op2);
            let after = apply_op(db2, op3);
            assert(g->Ok_0.ops =~= seq![op1].push(op2).push(op3));
            lemma_apply_one(db, op1);
            lemma_apply_push(db, seq![op1], op2);
            lemma_apply_push(db, seq![op1].push(op2), op3);
            lemma_put_seq(db, Cf::DidIds, next);
            lemma_put_did(db1, did, (next, true));
            lemma_put_reverse(db2, next, did);
            lemma_same_but(db, op1);
            lemma_same_but(db1, op2);
            lemma_same_but(db2, op3);
            assert(same_links(db, after));
            assert(next_did(after) == Ok::<u64, Error>((seq + 2) as u64));
            assert(dids_ok(after)) by {
                assert forall|other: Text| Did::fits(other) implies match #[trigger] did_value(
                    after,
                    other,
                ) {
                    Ok(None) => true,
                    Ok(Some(value)) => 0 < value.0 < next_did(after)->Ok_0 && did_of_id(
                        after,
                        value.0,
                    ) == Ok::<Option<Text>, Error>(Some(other)),
                    Err(_) => false,
                } by {
                    assert(did_value(after, other) == did_value(db2, other));
                    if other != did {
                        assert(did_value(db2, other) == did_value(db1, other));
                        assert(did_value(db1, other) == did_value(db, other));
                        if let Ok(Some(value)) = did_value(db, other) {
                            assert(value.0 != next);
                            assert(did_of_id(after, value.0) == did_of_id(db2, value.0));
                            assert(did_of_id(db2, value.0) == did_of_id(db1, value.0));
                        }
                    }
                }
                assert forall|id: u64| id < id_limit() implies match #[trigger] did_of_id(
                    after,
                    id,
                ) {
                    Ok(None) => true,
                    Ok(Some(did)) => Did::fits(did) && 0 < id < next_did(after)->Ok_0,
                    Err(_) => false,
                } by {
                    if id != next {
                        assert(did_of_id(after, id) == did_of_id(db2, id));
                        assert(did_of_id(db2, id) == did_of_id(db1, id));
                    }
                }
            }
            lemma_accounts_changed(db, after, own);
        },
    }
}

// ---------------------------------------------------------------------------------------------
// targets and their linkers

/// Whether the accounts, the records and the cursor are the same.
pub open spec fn same_accounts_and_records(a: Db, b: Db) -> bool {
    &&& next_did(b) == next_did(a)
    &&& cursor_of(b) == cursor_of(a)
    &&& forall|did: Text| #[trigger] did_value(b, did) == did_value(a, did)
    &&& forall|id: u64| #[trigger] did_of_id(b, id) == did_of_id(a, id)
    &&& forall|key: (u64, Text, Text)| #[trigger] record_targets(b, key) == record_targets(a, key)
    &&& forall|key: Seq<u8>| #[trigger]
        b.contains_key((Cf::LinkTargets, key)) == a.contains_key((Cf::LinkTargets, key))
}

/// Links stay in order where linkers only come.
proof fn lemma_records_kept(a: Db, b: Db, own: Map<u64, Text>, new_own: Map<u64, Text>)
    requires
        in_order(a, own),
        same_accounts_and_records(a, b),
        next_target(b)->Ok_0 >= next_target(a)->Ok_0,
        forall|id: u64| 0 < id < next_target(a)->Ok_0 ==> #[trigger] new_own[id] == own[id],
        forall|id: u64| (#[trigger] linkers_of(b, id)) is Ok,
        forall|id: u64, linker: Linker| #[trigger]
            occurrences(linkers_of(b, id)->Ok_0, linker) >= occurrences(
                linkers_of(a, id)->Ok_0,
                linker,
            ),
    ensures
        records_ok(b, new_own),
{
    assert forall|key: (u64, Text, Text)| RecordLinkKey::fits(key) implies match #[trigger] record_targets(
            b,
            key,
        ) {
        Ok(None) => true,
        Ok(Some(targets)) => {
            &&& 0 < key.0 < next_did(b)->Ok_0
            &&& RecordLinkTargets::fits(targets)
            &&& forall|i: int|
                0 <= i < targets.len() ==> link_ok(b, new_own, key, targets, (#[trigger] targets[i]).1)
        },
        Err(_) => false,
    } by {
        assert(record_targets(b, key) == record_targets(a, key));
        if let Ok(Some(targets)) = record_targets(a, key) {
            assert forall|i: int| 0 <= i < targets.len() implies link_ok(
                b,
                new_own,
                key,
                targets,
                (#[trigger] targets[i]).1,
            ) by {
                let id = targets[i].1;
                assert(link_ok(a, own, key, targets, id));
                assert(linkers_of(b, id) is Ok);
                assert(occurrences(linkers_of(b, id)->Ok_0, (key.0, key.2)) >= occurrences(
                    linkers_of(a, id)->Ok_0,
                    (key.0, key.2),
                ));
                assert(new_own[id] == own[id]);
            }
        }
    }
}

/// A linker that comes to a target leaves all in order.
pub proof fn lemma_merge_keeps(db: Db, own: Map<u64, Text>, id: u64, linker: Linker)
    requires
        in_order(db, own),
        0 < id < next_target(db)->Ok_0,
        linker.0 < next_did(db)->Ok_0,
        <String as Wire>::fits(linker.1),
        linkers_of(db, id)->Ok_0.len() < u64::MAX,
    ensures
        ({
            let after = apply_op(db, merge_op(id, linker));
            &&& in_order(after, own)
            &&& same_accounts_and_records(db, after)
            &&& next_target(after) == next_target(db)
            &&& forall|key: (Text, Text, Text)| #[trigger]
                target_id(after, key) == target_id(db, key)
            &&& linkers_of(after, id) == Ok::<Seq<Linker>, Error>(
                linkers_of(db, id)->Ok_0.push(linker),
            )
            &&& forall|other: u64|
                other != id ==> #[trigger] linkers_of(after, other) == linkers_of(db, other)
        }),
{
    let after = apply_op(db, merge_op(id, linker));
    let old = linkers_of(db, id)->Ok_0;
    assert(linkers_of(db, id) is Ok);
    lemma_merge_linker(db, id, linker);
    lemma_same_but(db, merge_op(id, linker));
    assert(dids_ok(after));
    assert(targets_ok(after));
    assert(owned(after, own));
    assert(linkers_ok(after)) by {
        assert forall|other: u64|
            match #[trigger] linkers_of(after, other) {
                Ok(linkers) => {
                    &&& TargetLinkers::fits(linkers)
                    &&& linkers_given(linkers, next_did(after)->Ok_0)
                    &&& other >= next_target(after)->Ok_0 ==> linkers.len() == 0
                },
                Err(_) => false,
            } by {
            assert(linkers_of(db, other) is Ok);
            if other == id {
                assert forall|i: int| 0 <= i < old.push(linker).len() implies (
                #[trigger] old.push(linker)[i]).0 < next_did(after)->Ok_0 by {
                    if i < old.len() {
                        assert(old[i].0 < next_did(db)->Ok_0);
                    }
                }
            }
        }
    }
    assert forall|other: u64, l: Linker| #[trigger]
        occurrences(linkers_of(after, other)->Ok_0, l) >= occurrences(
            linkers_of(db, other)->Ok_0,
            l,
        ) by {
        if other == id {
            lemma_occurrences_push(old, linker, l);
        } else {
            assert(linkers_of(after, other) == linkers_of(db, other));
        }
    }
    lemma_records_kept(db, after, own, own);
}

/// A target that is given a new id leaves all in order.
pub proof fn lemma_fresh_target(db: Db, own: Map<u64, Text>, key: (Text, Text, Text), next: u64)
    requires
        in_order(db, own),
        TargetKey::fits(key),
        0 < next,
        next_target(db)->Ok_0 <= next < u64::MAX,
    ensures
        ({
            let ops = seq![
                Op::Put { cf: Cf::Default, key: seq_key(Cf::TargetIds), value: le_bytes(next) },
                Op::Put {
                    cf: Cf::TargetIds,
                    key: TargetKey::bytes(key),
                    value: TargetId::bytes(next),
                },
            ];
            let after = apply(db, ops);
            &&& in_order(after, own.insert(next, key.1))
            &&& same_accounts_and_records(db, after)
            &&& next_target(after) == Ok::<u64, Error>((next + 1) as u64)
            &&& target_id(after, key) == Ok::<Option<u64>, Error>(Some(next))
            &&& forall|other: (Text, Text, Text)|
                TargetKey::fits(other) && other != key ==> #[trigger] target_id(after, other)
                    == target_id(db, other)
            &&& forall|id: u64| #[trigger] linkers_of(after, id) == linkers_of(db, id)
            &&& linkers_of(after, next)->Ok_0.len() == 0
        }),
{
    let op1 = Op::Put { cf: Cf::Default, key: seq_key(Cf::TargetIds), value: le_bytes(next) };
    let op2 = Op::Put {
        cf: Cf::TargetIds,
        key: TargetKey::bytes(key),
        value: TargetId::bytes(next),
    };
    let db1 = apply_op(db, op1);
    let after = apply_op(db1, op2);
    let new_own = own.insert(next, key.1);
    assert(seq![op1, op2] =~= seq![op1].push(op2));
    lemma_apply_one(db, op1);
    lemma_apply_push(db, seq![op1], op2);
    lemma_put_seq(db, Cf::TargetIds, next);
    lemma_put_target(db1, key, next);
    lemma_same_but(db, op1);
    lemma_same_but(db1, op2);
    assert(same_accounts_and_records(db, after));
    assert forall|other: (Text, Text, Text)| TargetKey::fits(other) && other
        != key implies #[trigger] target_id(after, other) == target_id(db, other) by {
        assert(target_id(after, other) == target_id(db1, other));
    }
    assert forall|id: u64| #[trigger] linkers_of(after, id) == linkers_of(db, id) by {
        assert(linkers_of(after, id) == linkers_of(db1, id));
    }
    assert(linkers_of(db, next) is Ok);
    assert(dids_ok(after));
    assert(targets_ok(after)) by {
        assert forall|k: (Text, Text, Text)| TargetKey::fits(k) implies match #[trigger] target_id(
            after,
            k,
        ) {
            Ok(None) => true,
            Ok(Some(id)) => 0 < id < next_target(after)->Ok_0,
            Err(_) => false,
        } by {
            assert(target_id(db, k) is Ok);
        }
        assert forall|a: (Text, Text, Text), b: (Text, Text, Text)|
            TargetKey::fits(a) && TargetKey::fits(b) && (#[trigger] target_id(after, a))->Ok_0 is Some
                && target_id(after, a) == #[trigger] target_id(after, b) implies a == b by {
            assert(target_id(db, a) is Ok && target_id(db, b) is Ok);
        }
        assert forall|k: Seq<u8>| #[trigger]
            after.contains_key((Cf::TargetIds, k)) implies is_target_key(k) by {
            if k != TargetKey::bytes(key) {
                assert(db1.contains_key((Cf::TargetIds, k)));
                assert(db.contains_key((Cf::TargetIds, k)));
            }
        }
    }
    assert(linkers_ok(after)) by {
        assert forall|id: u64|
            match #[trigger] linkers_of(after, id) {
                Ok(linkers) => {
                    &&& TargetLinkers::fits(linkers)
                    &&& linkers_given(linkers, next_did(after)->Ok_0)
                    &&& id >= next_target(after)->Ok_0 ==> linkers.len() == 0
                },
                Err(_) => false,
            } by {
            assert(linkers_of(after, id) == linkers_of(db, id));
        }
    }
    assert(owned(after, new_own)) by {
        assert forall|k: (Text, Text, Text)| TargetKey::fits(k) implies match #[trigger] target_id(
            after,
            k,
        ) {
            Ok(Some(id)) => new_own[id] == k.1,
            _ => true,
        } by {
            assert(target_id(db, k) is Ok);
        }
    }
    assert forall|other: u64, l: Linker| #[trigger]
        occurrences(linkers_of(after, other)->Ok_0, l) >= occurrences(
            linkers_of(db, other)->Ok_0,
            l,
        ) by {
        assert(linkers_of(after, other) == linkers_of(db, other));
    }
    lemma_records_kept(db, after, own, new_own);
}

// ---------------------------------------------------------------------------------------------
// records and the cursor

/// Whether all but the records is the same.
pub open spec fn same_but_records(a: Db, b: Db) -> bool {
    &&& next_did(b) == next_did(a)
    &&& next_target(b) == next_target(a)
    &&& cursor_of(b) == cursor_of(a)
    &&& forall|did: Text| #[trigger] did_value(b, did) == did_value(a, did)
    &&& forall|id: u64| #[trigger] did_of_id(b, id) == did_of_id(a, id)
    &&& forall|key: (Text, Text, Text)| #[trigger] target_id(b, key) == target_id(a, key)
    &&& forall|key: Seq<u8>| #[trigger]
        b.contains_key((Cf::TargetIds, key)) == a.contains_key((Cf::TargetIds, key))
    &&& forall|id: u64| #[trigger] linkers_of(b, id) == linkers_of(a, id)
}

/// Whether all that is stored is the same, but for the cursor.
pub open spec fn same_but_cursor(a: Db, b: Db) -> bool {
    &&& next_did(b) == next_did(a)
    &&& forall|did: Text| #[trigger] did_value(b, did) == did_value(a, did)
    &&& forall|id: u64| #[trigger] did_of_id(b, id) == did_of_id(a, id)
    &&& next_target(b) == next_target(a)
    &&& forall|key: (Text, Text, Text)| #[trigger] target_id(b, key) == target_id(a, key)
    &&& forall|key: Seq<u8>| #[trigger]
        b.contains_key((Cf::TargetIds, key)) == a.contains_key((Cf::TargetIds, key))
    &&& forall|id: u64| #[trigger] linkers_of(b, id) == linkers_of(a, id)
    &&& forall|key: (u64, Text, Text)| #[trigger] record_targets(b, key) == record_targets(a, key)
    &&& forall|key: Seq<u8>| #[trigger]
        b.contains_key((Cf::LinkTargets, key)) == a.contains_key((Cf::LinkTargets, key))
}

/// Links that are in order stay so where only records change.
proof fn lemma_link_kept(
    a: Db,
    b: Db,
    own: Map<u64, Text>,
    key: (u64, Text, Text),
    targets: Seq<(Text, u64)>,
    id: u64,
)
    requires
        link_ok(a, own, key, targets, id),
        next_target(b) == next_target(a),
        linkers_of(b, id) == linkers_of(a, id),
    ensures
        link_ok(b, own, key, targets, id),
{
}

/// A record whose links are in order leaves all in order.
pub proof fn lemma_put_record_keeps(
    db: Db,
    own: Map<u64, Text>,
    key: (u64, Text, Text),
    targets: Seq<(Text, u64)>,
)
    requires
        in_order(db, own),
        RecordLinkKey::fits(key),
        RecordLinkTargets::fits(targets),
        0 < key.0 < next_did(db)->Ok_0,
        forall|i: int|
            0 <= i < targets.len() ==> link_ok(db, own, key, targets, (#[trigger] targets[i]).1),
    ensures
        ({
            let after = apply_op(
                db,
                Op::Put {
                    cf: Cf::LinkTargets,
                    key: RecordLinkKey::bytes(key),
                    value: RecordLinkTargets::bytes(targets),
                },
            );
            &&& in_order(after, own)
            &&& same_but_records(db, after)
            &&& record_targets(after, key) == Ok::<Option<Seq<(Text, u64)>>, Error>(Some(targets))
            &&& forall|other: (u64, Text, Text)|
                RecordLinkKey::fits(other) && other != key ==> #[trigger] record_targets(
                    after,
                    other,
                ) == record_targets(db, other)
        }),
{
    let op = Op::Put {
        cf: Cf::LinkTargets,
        key: RecordLinkKey::bytes(key),
        value: RecordLinkTargets::bytes(targets),
    };
    let after = apply_op(db, op);
    lemma_put_record(db, key, targets);
    lemma_same_but(db, op);
    assert(dids_ok(after));
    assert(targets_ok(after));
    assert(linkers_ok(after)) by {
        assert forall|id: u64|
            match #[trigger] linkers_of(after, id) {
                Ok(linkers) => {
                    &&& TargetLinkers::fits(linkers)
                    &&& linkers_given(linkers, next_did(after)->Ok_0)
                    &&& id >= next_target(after)->Ok_0 ==> linkers.len() == 0
                },
                Err(_) => false,
            } by {
            assert(linkers_of(after, id) == linkers_of(db, id));
        }
    }
    assert(owned(after, own));
    assert(records_ok(after, own)) by {
        assert forall|k: (u64, Text, Text)| RecordLinkKey::fits(k) implies match #[trigger] record_targets(
            after,
            k,
        ) {
            Ok(None) => true,
            Ok(Some(ts)) => {
                &&& 0 < k.0 < next_did(after)->Ok_0
                &&& RecordLinkTargets::fits(ts)
                &&& forall|i: int|
                    0 <= i < ts.len() ==> link_ok(after, own, k, ts, (#[trigger] ts[i]).1)
            },
            Err(_) => false,
        } by {
            assert(record_targets(db, k) is Ok);
            if let Ok(Some(ts)) = record_targets(after, k) {
                assert forall|i: int| 0 <= i < ts.len() implies link_ok(
                    after,
                    own,
                    k,
                    ts,
                    (#[trigger] ts[i]).1,
                ) by {
                    lemma_link_kept(db, after, own, k, ts, ts[i].1);
                }
            }
        }
        assert forall|k: Seq<u8>| #[trigger]
            after.contains_key((Cf::LinkTargets, k)) implies is_record_key(k) by {
            if k != RecordLinkKey::bytes(key) {
                assert(db.contains_key((Cf::LinkTargets, k)));
            }
        }
    }
}

/// A cursor that moves leaves all in order.
pub proof fn lemma_cursor_keeps(db: Db, own: Map<u64, Text>, cursor: u64)
    requires
        in_order(db, own),
    ensures
        in_order(apply_op(db, cursor_op(cursor)), own),
        same_but_cursor(db, apply_op(db, cursor_op(cursor))),
        cursor_of(apply_op(db, cursor_op(cursor))) == Ok::<Option<u64>, Error>(Some(cursor)),
{
    let after = apply_op(db, cursor_op(cursor));
    lemma_put_cursor(db, cursor);
    lemma_same_but(db, cursor_op(cursor));
    assert(dids_ok(after));
    assert(targets_ok(after));
    assert(linkers_ok(after)) by {
        assert forall|id: u64|
            match #[trigger] linkers_of(after, id) {
                Ok(linkers) => {
                    &&& TargetLinkers::fits(linkers)
                    &&& linkers_given(linkers, next_did(after)->Ok_0)
                    &&& id >= next_target(after)->Ok_0 ==> linkers.len() == 0
                },
                Err(_) => false,
            } by {
            assert(linkers_of(after, id) == linkers_of(db, id));
        }
    }
    assert(owned(after, own));
    assert(records_ok(after, own)) by {
        assert forall|k: (u64, Text, Text)| RecordLinkKey::fits(k) implies match #[trigger] record_targets(
            after,
            k,
        ) {
            Ok(None) => true,
            Ok(Some(ts)) => {
                &&& 0 < k.0 < next_did(after)->Ok_0
                &&& RecordLinkTargets::fits(ts)
                &&& forall|i: int|
                    0 <= i < ts.len() ==> link_ok(after, own, k, ts, (#[trigger] ts[i]).1)
            },
            Err(_) => false,
        } by {
            assert(record_targets(after, k) == record_targets(db, k));
            if let Ok(Some(ts)) = record_targets(after, k) {
                assert forall|i: int| 0 <= i < ts.len() implies link_ok(
                    after,
                    own,
                    k,
                    ts,
                    (#[trigger] ts[i]).1,
                ) by {
                    lemma_link_kept(db, after, own, k, ts, ts[i].1);
                }
            }
        }
    }
}

}
