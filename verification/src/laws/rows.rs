//! What a single change does to what is stored.
use crate::bytes::le_bytes;
use crate::db::{apply_op, row, Cf, Db, Op};
use crate::error::Error;
use crate::id_table::{first_seq, reverse_op, seq_key};
use crate::laws::keys::{
    id_limit, law_bytes_differ, law_reverse_rows, law_reverse_rows_differ, law_single_rows,
};
use crate::linkers::{extended, merged};
use crate::model::{
    cursor_of, cursor_op, delete_record_op, did_of_id, did_value, linkers_of, merge_op, put_did_op,
    record_targets, target_id,
};
use crate::records::{
    Did, DidIdValue, Linker, RecordLinkKey, RecordLinkTargets, Stored, TargetId, TargetKey,
    TargetLinkers, Text,
};
use crate::wire::{
    be_bytes, items_fit, lemma_be_bounds, lemma_be_bytes_len, lemma_be_value_bytes, Wire,
};
use vstd::prelude::*;

verus! {

/// The sequence with which the table of accounts would start, if it can.
pub open spec fn next_did(db: Db) -> Result<u64, Error> {
    first_seq(row(db, Cf::Default, seq_key(Cf::DidIds)))
}

/// The sequence with which the table of targets would start, if it can.
pub open spec fn next_target(db: Db) -> Result<u64, Error> {
    first_seq(row(db, Cf::Default, seq_key(Cf::TargetIds)))
}

/// The table that a change is made in.
pub open spec fn cf_of(op: Op) -> Cf {
    match op {
        Op::Put { cf, .. } => cf,
        Op::Merge { cf, .. } => cf,
        Op::Delete { cf, .. } => cf,
    }
}

/// Whether what is stored in all tables but one is the same.
pub open spec fn same_but(a: Db, b: Db, cf: Cf) -> bool {
    &&& cf != Cf::Default ==> {
        &&& next_did(b) == next_did(a)
        &&& next_target(b) == next_target(a)
        &&& cursor_of(b) == cursor_of(a)
    }
    &&& cf != Cf::DidIds ==> {
        &&& forall|did: Text| #[trigger] did_value(b, did) == did_value(a, did)
        &&& forall|id: u64| #[trigger] did_of_id(b, id) == did_of_id(a, id)
    }
    &&& cf != Cf::TargetIds ==> {
        &&& forall|key: (Text, Text, Text)| #[trigger] target_id(b, key) == target_id(a, key)
        &&& forall|key: Seq<u8>| #[trigger]
            b.contains_key((Cf::TargetIds, key)) == a.contains_key((Cf::TargetIds, key))
    }
    &&& cf != Cf::TargetLinks ==> {
        &&& forall|id: u64| #[trigger] linkers_of(b, id) == linkers_of(a, id)
    }
    &&& cf != Cf::LinkTargets ==> {
        &&& forall|key: (u64, Text, Text)| #[trigger]
            record_targets(b, key) == record_targets(a, key)
        &&& forall|key: Seq<u8>| #[trigger]
            b.contains_key((Cf::LinkTargets, key)) == a.contains_key((Cf::LinkTargets, key))
    }
}

/// A change in one table leaves the others as they are.
pub proof fn lemma_same_but(db: Db, op: Op)
    ensures
        same_but(db, apply_op(db, op), cf_of(op)),
        db.dom().finite() ==> apply_op(db, op).dom().finite(),
{
    let after = apply_op(db, op);
    let cf = cf_of(op);
    assert forall|other: Cf, key: Seq<u8>| other != cf implies #[trigger] row(after, other, key)
        == row(db, other, key) && after.contains_key((other, key)) == db.contains_key(
        (other, key),
    ) by {}
}

// ---------------------------------------------------------------------------------------------
// single values

/// The number in the row of a sequence comes back as the number with which the table starts.
proof fn lemma_first_seq(n: u64)
    requires
        n < u64::MAX,
    ensures
        first_seq(Some(le_bytes(n))) == Ok::<u64, Error>((n + 1) as u64),
{
    lemma_be_bytes_len(n as nat, 8);
    assert(le_bytes(n).reverse() =~= be_bytes(n as nat, 8));
    lemma_be_bounds();
    lemma_be_value_bytes(n as nat, 8);
}

/// A new id is the newest of its table, and leaves the other table and the cursor alone.
pub proof fn lemma_put_seq(db: Db, cf: Cf, n: u64)
    requires
        cf == Cf::DidIds || cf == Cf::TargetIds,
        n < u64::MAX,
    ensures
        ({
            let after = apply_op(
                db,
                Op::Put { cf: Cf::Default, key: seq_key(cf), value: le_bytes(n) },
            );
            &&& same_but(db, after, Cf::Default)
            &&& cursor_of(after) == cursor_of(db)
            &&& next_did(after) == if cf == Cf::DidIds {
                Ok::<u64, Error>((n + 1) as u64)
            } else {
                next_did(db)
            }
            &&& next_target(after) == if cf == Cf::TargetIds {
                Ok::<u64, Error>((n + 1) as u64)
            } else {
                next_target(db)
            }
        }),
{
    law_single_rows();
    lemma_first_seq(n);
    lemma_same_but(db, Op::Put { cf: Cf::Default, key: seq_key(cf), value: le_bytes(n) });
}

/// The cursor is what it was set to, and leaves the sequences alone.
pub proof fn lemma_put_cursor(db: Db, cursor: u64)
    ensures
        ({
            let after = apply_op(db, cursor_op(cursor));
            &&& same_but(db, after, Cf::Default)
            &&& cursor_of(after) == Ok::<Option<u64>, Error>(Some(cursor))
            &&& next_did(after) == next_did(db)
            &&& next_target(after) == next_target(db)
        }),
{
    law_single_rows();
    <u64 as Stored>::lemma_parsed_bytes(cursor);
    lemma_same_but(db, cursor_op(cursor));
}

// ---------------------------------------------------------------------------------------------
// accounts

/// What is stored of an account is what was put there.
pub proof fn lemma_put_did(db: Db, did: Text, value: (u64, bool))
    requires
        Did::fits(did),
    ensures
        ({
            let after = apply_op(db, put_did_op(did, value));
            &&& same_but(db, after, Cf::DidIds)
            &&& did_value(after, did) == Ok::<Option<(u64, bool)>, Error>(Some(value))
            &&& forall|other: Text|
                Did::fits(other) && other != did ==> #[trigger] did_value(after, other)
                    == did_value(db, other)
            &&& forall|id: u64|
                id < id_limit() ==> #[trigger] did_of_id(after, id) == did_of_id(db, id)
        }),
{
    let after = apply_op(db, put_did_op(did, value));
    DidIdValue::lemma_parsed_bytes(value);
    lemma_same_but(db, put_did_op(did, value));
    assert forall|other: Text| Did::fits(other) && other != did implies #[trigger] did_value(
        after,
        other,
    ) == did_value(db, other) by {
        if Did::bytes(other) == Did::bytes(did) {
            law_bytes_differ::<Did>(other, did);
        }
    }
    assert forall|id: u64| id < id_limit() implies #[trigger] did_of_id(after, id) == did_of_id(
        db,
        id,
    ) by {
        law_reverse_rows(id, did);
    }
}

/// An account that was forgotten is not stored, but its id still leads to it.
pub proof fn lemma_delete_did(db: Db, did: Text)
    requires
        Did::fits(did),
    ensures
        ({
            let after = apply_op(db, Op::Delete { cf: Cf::DidIds, key: Did::bytes(did) });
            &&& same_but(db, after, Cf::DidIds)
            &&& did_value(after, did) == Ok::<Option<(u64, bool)>, Error>(None)
            &&& forall|other: Text|
                Did::fits(other) && other != did ==> #[trigger] did_value(after, other)
                    == did_value(db, other)
            &&& forall|id: u64|
                id < id_limit() ==> #[trigger] did_of_id(after, id) == did_of_id(db, id)
        }),
{
    let op = Op::Delete { cf: Cf::DidIds, key: Did::bytes(did) };
    let after = apply_op(db, op);
    lemma_same_but(db, op);
    assert forall|other: Text| Did::fits(other) && other != did implies #[trigger] did_value(
        after,
        other,
    ) == did_value(db, other) by {
        if Did::bytes(other) == Did::bytes(did) {
            law_bytes_differ::<Did>(other, did);
        }
    }
    assert forall|id: u64| id < id_limit() implies #[trigger] did_of_id(after, id) == did_of_id(
        db,
        id,
    ) by {
        law_reverse_rows(id, did);
    }
}

/// An id leads to the account that was put there.
pub proof fn lemma_put_reverse(db: Db, id: u64, did: Text)
    requires
        Did::fits(did),
        id < id_limit(),
    ensures
        ({
            let after = apply_op(db, reverse_op(Cf::DidIds, id, Did::bytes(did)));
            &&& same_but(db, after, Cf::DidIds)
            &&& did_of_id(after, id) == Ok::<Option<Text>, Error>(Some(did))
            &&& forall|other: u64|
                other != id ==> #[trigger] did_of_id(after, other) == did_of_id(db, other)
            &&& forall|other: Text|
                Did::fits(other) ==> #[trigger] did_value(after, other) == did_value(db, other)
        }),
{
    let op = reverse_op(Cf::DidIds, id, Did::bytes(did));
    let after = apply_op(db, op);
    Did::lemma_parsed_bytes(did);
    lemma_same_but(db, op);
    assert forall|other: u64| other != id implies #[trigger] did_of_id(after, other) == did_of_id(
        db,
        other,
    ) by {
        if be_bytes(other as nat, 8) == be_bytes(id as nat, 8) {
            law_reverse_rows_differ(other, id);
        }
    }
    assert forall|other: Text| Did::fits(other) implies #[trigger] did_value(after, other)
        == did_value(db, other) by {
        law_reverse_rows(id, other);
    }
}

// ---------------------------------------------------------------------------------------------
// targets

/// A target has the id that was put there.
pub proof fn lemma_put_target(db: Db, key: (Text, Text, Text), id: u64)
    requires
        TargetKey::fits(key),
    ensures
        ({
            let after = apply_op(
                db,
                Op::Put {
                    cf: Cf::TargetIds,
                    key: TargetKey::bytes(key),
                    value: TargetId::bytes(id),
                },
            );
            &&& same_but(db, after, Cf::TargetIds)
            &&& target_id(after, key) == Ok::<Option<u64>, Error>(Some(id))
            &&& forall|other: (Text, Text, Text)|
                TargetKey::fits(other) && other != key ==> #[trigger] target_id(after, other)
                    == target_id(db, other)
            &&& forall|k: Seq<u8>| #[trigger]
                after.contains_key((Cf::TargetIds, k)) ==> db.contains_key((Cf::TargetIds, k)) || k
                    == TargetKey::bytes(key)
        }),
{
    let op = Op::Put { cf: Cf::TargetIds, key: TargetKey::bytes(key), value: TargetId::bytes(id) };
    let after = apply_op(db, op);
    TargetId::lemma_parsed_bytes(id);
    lemma_same_but(db, op);
    assert forall|other: (Text, Text, Text)|
        TargetKey::fits(other) && other != key implies #[trigger] target_id(after, other)
        == target_id(db, other) by {
        if TargetKey::bytes(other) == TargetKey::bytes(key) {
            law_bytes_differ::<TargetKey>(other, key);
        }
    }
}

/// The linkers of a target are those that were put there.
pub proof fn lemma_put_linkers(db: Db, id: u64, linkers: Seq<Linker>)
    requires
        TargetLinkers::fits(linkers),
    ensures
        ({
            let after = apply_op(
                db,
                Op::Put {
                    cf: Cf::TargetLinks,
                    key: TargetId::bytes(id),
                    value: TargetLinkers::bytes(linkers),
                },
            );
            &&& same_but(db, after, Cf::TargetLinks)
            &&& linkers_of(after, id) == Ok::<Seq<Linker>, Error>(linkers)
            &&& forall|other: u64|
                other != id ==> #[trigger] linkers_of(after, other) == linkers_of(db, other)
        }),
{
    let op = Op::Put {
        cf: Cf::TargetLinks,
        key: TargetId::bytes(id),
        value: TargetLinkers::bytes(linkers),
    };
    let after = apply_op(db, op);
    TargetLinkers::lemma_parsed_bytes(linkers);
    lemma_same_but(db, op);
    assert forall|other: u64| other != id implies #[trigger] linkers_of(after, other) == linkers_of(
        db,
        other,
    ) by {
        if TargetId::bytes(other) == TargetId::bytes(id) {
            law_bytes_differ::<TargetId>(other, id);
        }
    }
}

/// A linker of its own fits its format.
pub proof fn lemma_one_linker_fits(linker: Linker)
    requires
        <String as Wire>::fits(linker.1),
    ensures
        TargetLinkers::fits(seq![linker]),
{
    let one = seq![linker];
    assert(items_fit::<(u64, String)>(one)) by {
        assert forall|i: int| 0 <= i < one.len() implies <(u64, String) as Wire>::fits(
            #[trigger] one[i],
        ) by {}
    }
}

/// A linker that was merged into those of a target stands behind them.
pub proof fn lemma_merge_linker(db: Db, id: u64, linker: Linker)
    requires
        linkers_of(db, id) is Ok,
        TargetLinkers::fits(linkers_of(db, id)->Ok_0),
        linkers_of(db, id)->Ok_0.len() < u64::MAX,
        <String as Wire>::fits(linker.1),
    ensures
        ({
            let after = apply_op(db, merge_op(id, linker));
            let linkers = linkers_of(db, id)->Ok_0.push(linker);
            &&& same_but(db, after, Cf::TargetLinks)
            &&& TargetLinkers::fits(linkers)
            &&& linkers_of(after, id) == Ok::<Seq<Linker>, Error>(linkers)
            &&& forall|other: u64|
                other != id ==> #[trigger] linkers_of(after, other) == linkers_of(db, other)
        }),
{
    let old = linkers_of(db, id)->Ok_0;
    let new = old.push(linker);
    let one = seq![linker];
    let operands = seq![TargetLinkers::bytes(one)];
    lemma_one_linker_fits(linker);
    TargetLinkers::lemma_parsed_bytes(one);
    assert(items_fit::<(u64, String)>(new)) by {
        assert forall|i: int| 0 <= i < new.len() implies <(u64, String) as Wire>::fits(
            #[trigger] new[i],
        ) by {
            if i < old.len() {
                assert(<(u64, String) as Wire>::fits(old[i]));
            }
        }
    }
    assert(operands.drop_last() =~= Seq::empty());
    assert(extended(old, operands.drop_last(), 0) == Ok::<Seq<Linker>, Error>(old));
    assert(old + one =~= new);
    assert(merged(row(db, Cf::TargetLinks, TargetId::bytes(id)), operands, 0) == Ok::<
        Seq<u8>,
        Error,
    >(TargetLinkers::bytes(new)));
    lemma_put_linkers(db, id, new);
    assert(apply_op(db, merge_op(id, linker)) == apply_op(
        db,
        Op::Put {
            cf: Cf::TargetLinks,
            key: TargetId::bytes(id),
            value: TargetLinkers::bytes(new),
        },
    ));
}

// ---------------------------------------------------------------------------------------------
// records

/// The links of a record are those that were put there.
pub proof fn lemma_put_record(db: Db, key: (u64, Text, Text), targets: Seq<(Text, u64)>)
    requires
        RecordLinkKey::fits(key),
        RecordLinkTargets::fits(targets),
    ensures
        ({
            let after = apply_op(
                db,
                Op::Put {
                    cf: Cf::LinkTargets,
                    key: RecordLinkKey::bytes(key),
                    value: RecordLinkTargets::bytes(targets),
                },
            );
            &&& same_but(db, after, Cf::LinkTargets)
            &&& record_targets(after, key) == Ok::<Option<Seq<(Text, u64)>>, Error>(Some(targets))
            &&& forall|other: (u64, Text, Text)|
                RecordLinkKey::fits(other) && other != key ==> #[trigger] record_targets(
                    after,
                    other,
                ) == record_targets(db, other)
            &&& forall|k: Seq<u8>| #[trigger]
                after.contains_key((Cf::LinkTargets, k)) ==> db.contains_key((Cf::LinkTargets, k))
                    || k == RecordLinkKey::bytes(key)
        }),
{
    let op = Op::Put {
        cf: Cf::LinkTargets,
        key: RecordLinkKey::bytes(key),
        value: RecordLinkTargets::bytes(targets),
    };
    let after = apply_op(db, op);
    RecordLinkTargets::lemma_parsed_bytes(targets);
    lemma_same_but(db, op);
    assert forall|other: (u64, Text, Text)|
        RecordLinkKey::fits(other) && other != key implies #[trigger] record_targets(after, other)
        == record_targets(db, other) by {
        if RecordLinkKey::bytes(other) == RecordLinkKey::bytes(key) {
            law_bytes_differ::<RecordLinkKey>(other, key);
        }
    }
}

/// A record that was forgotten has no links.
pub proof fn lemma_delete_record(db: Db, key: (u64, Text, Text))
    requires
        RecordLinkKey::fits(key),
    ensures
        ({
            let after = apply_op(db, delete_record_op(key));
            &&& same_but(db, after, Cf::LinkTargets)
            &&& record_targets(after, key) == Ok::<Option<Seq<(Text, u64)>>, Error>(None)
            &&& forall|other: (u64, Text, Text)|
                RecordLinkKey::fits(other) && other != key ==> #[trigger] record_targets(
                    after,
                    other,
                ) == record_targets(db, other)
            &&& forall|k: Seq<u8>| #[trigger]
                after.contains_key((Cf::LinkTargets, k)) ==> db.contains_key((Cf::LinkTargets, k))
        }),
{
    let op = delete_record_op(key);
    let after = apply_op(db, op);
    lemma_same_but(db, op);
    assert forall|other: (u64, Text, Text)|
        RecordLinkKey::fits(other) && other != key implies #[trigger] record_targets(after, other)
        == record_targets(db, other) by {
        if RecordLinkKey::bytes(other) == RecordLinkKey::bytes(key) {
            law_bytes_differ::<RecordLinkKey>(other, key);
        }
    }
}

}
