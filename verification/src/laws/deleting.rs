//! Accounts that go, with all their records.
use crate::db::{
    apply, apply_all, apply_op, lemma_apply_concat, lemma_apply_one, lemma_apply_push, Cf, Db, Op,
};
use crate::error::Error;
use crate::events::Event;
use crate::laws::accounts::law_records_of;
use crate::laws::consistency::{
    consistent, dids_ok, follows, in_order, lemma_accounts_changed, lemma_cursor_keeps,
    lemma_listed, link_ok, links_to, listed, same_but_cursor, same_links,
};
use crate::laws::keys::id_limit;
use crate::laws::merging::{law_taken_out, occurrences, taken_out};
use crate::laws::removing::{
    lemma_can_unlink, lemma_lighter_fits, lemma_one_gone_keeps, lighter, one_gone, same_ids,
};
use crate::laws::rows::{
    lemma_delete_did, lemma_delete_record, lemma_put_linkers, lemma_same_but, next_did, next_target,
    same_but,
};
use crate::linkers::{alive, tombstone, unlinked};
use crate::model::{
    account_deleted, chunk, chunk_batches, chunk_count, chunk_ops, cursor_of, cursor_op,
    delete_record_op, did_of_id, did_value, linkers_of, pushed, record_targets, records_of,
    target_id, unlink_each, unlink_op, CHUNK, Seqs,
};
use crate::records::{Did, Linker, RecordLinkKey, Stored, TargetLinkers, Text};
use vstd::prelude::*;

verus! {

/// A record with its links.
pub type Record = ((u64, Text, Text), Seq<(Text, u64)>);

/// Whether a record is among records.
pub open spec fn among(records: Seq<Record>, key: (u64, Text, Text)) -> bool {
    exists|i: int| 0 <= i < records.len() && (#[trigger] records[i]).0 == key
}

/// Whether records are stored, and belong to an account.
pub open spec fn stored(db: Db, did_id: u64, records: Seq<Record>) -> bool {
    forall|i: int|
        0 <= i < records.len() ==> {
            let key = (#[trigger] records[i]).0;
            &&& RecordLinkKey::fits(key)
            &&& key.0 == did_id
            &&& record_targets(db, key) == Ok::<Option<Seq<(Text, u64)>>, Error>(
                Some(records[i].1),
            )
        }
}

/// Whether no record comes twice.
pub open spec fn distinct(records: Seq<Record>) -> bool {
    forall|i: int, j: int|
        0 <= i < j < records.len() ==> (#[trigger] records[i]).0 != (#[trigger] records[j]).0
}

/// How many links records have to a target.
pub open spec fn links_from(records: Seq<Record>, id: u64) -> nat
    decreases records.len(),
{
    if records.len() == 0 {
        0
    } else {
        links_from(records.drop_last(), id) + listed(records.last().1, id)
    }
}

/// How many links records with one record key have to a target.
pub open spec fn links_under(records: Seq<Record>, rkey: Text, id: u64) -> nat
    decreases records.len(),
{
    if records.len() == 0 {
        0
    } else {
        links_under(records.drop_last(), rkey, id) + if records.last().0.2 == rkey {
            listed(records.last().1, id)
        } else {
            0
        }
    }
}

/// Linkers of a target once records have gone: all their links have been taken out, one after the
/// other.
pub open spec fn cleared(linkers: Seq<Linker>, did_id: u64, records: Seq<Record>, id: u64) -> Seq<
    Linker,
>
    decreases records.len(),
{
    if records.len() == 0 {
        linkers
    } else {
        taken_out(
            cleared(linkers, did_id, records.drop_last(), id),
            (did_id, records.last().0.2),
            listed(records.last().1, id),
        )
    }
}

/// Whether linkers are the same but for entries of an account that are empty now.
pub open spec fn thinned(old: Seq<Linker>, new: Seq<Linker>, did_id: u64) -> bool {
    &&& new.len() == old.len()
    &&& forall|i: int|
        0 <= i < old.len() ==> #[trigger] new[i] == old[i] || (old[i].0 == did_id && new[i]
            == tombstone())
}

/// Whether the linkers of a target have lost the links of records of an account: as many of them
/// as there were, and nothing else.
pub open spec fn swept(
    old: Seq<Linker>,
    new: Seq<Linker>,
    did_id: u64,
    records: Seq<Record>,
    id: u64,
) -> bool {
    &&& new == cleared(old, did_id, records, id)
    &&& thinned(old, new, did_id)
    &&& alive(new) + links_from(records, id) == alive(old)
    &&& forall|rkey: Text| #[trigger]
        occurrences(new, (did_id, rkey)) + links_under(records, rkey, id) == occurrences(
            old,
            (did_id, rkey),
        )
}

/// What records of an account leave behind when they go.
pub open spec fn records_gone(db: Db, did_id: u64, records: Seq<Record>, after: Db) -> bool {
    &&& same_ids(db, after)
    &&& forall|key: (u64, Text, Text)|
        RecordLinkKey::fits(key) ==> #[trigger] record_targets(after, key) == if among(
            records,
            key,
        ) {
            Ok::<Option<Seq<(Text, u64)>>, Error>(None)
        } else {
            record_targets(db, key)
        }
    &&& forall|id: u64|
        (#[trigger] linkers_of(after, id)) is Ok && swept(
            linkers_of(db, id)->Ok_0,
            linkers_of(after, id)->Ok_0,
            did_id,
            records,
            id,
        )
}

/// Whether links can leave their targets one after the other.
spec fn can_clear(start: Db, linker: Linker, targets: Seq<(Text, u64)>) -> bool {
    forall|id: u64|
        {
            let linkers = #[trigger] linkers_of(start, id);
            &&& linkers is Ok
            &&& TargetLinkers::fits(linkers->Ok_0)
            &&& occurrences(linkers->Ok_0, linker) >= listed(targets, id)
        }
}

/// Links that leave their targets one after the other leave these linkers behind.
proof fn lemma_unlink_each(start: Db, linker: Linker, targets: Seq<(Text, u64)>)
    requires
        linker.0 != 0,
        can_clear(start, linker, targets),
    ensures
        unlink_each(start, linker, targets) is Ok,
        ({
            let cur = apply(start, unlink_each(start, linker, targets)->Ok_0);
            &&& same_but(start, cur, Cf::TargetLinks)
            &&& start.dom().finite() ==> cur.dom().finite()
            &&& forall|id: u64| #[trigger]
                linkers_of(cur, id) == Ok::<Seq<Linker>, Error>(
                    taken_out(linkers_of(start, id)->Ok_0, linker, listed(targets, id)),
                )
        }),
    decreases targets.len(),
{
    if targets.len() == 0 {
        assert(apply(start, Seq::empty()) == start);
        assert forall|id: u64| #[trigger] linkers_of(start, id) == Ok::<Seq<Linker>, Error>(
            taken_out(linkers_of(start, id)->Ok_0, linker, listed(targets, id)),
        ) by {}
    } else {
        let front = targets.drop_last();
        let id = targets.last().1;
        assert(can_clear(start, linker, front)) by {
            assert forall|other: u64|
                {
                    let linkers = #[trigger] linkers_of(start, other);
                    &&& linkers is Ok
                    &&& TargetLinkers::fits(linkers->Ok_0)
                    &&& occurrences(linkers->Ok_0, linker) >= listed(front, other)
                } by {
                assert(occurrences(linkers_of(start, other)->Ok_0, linker) >= listed(
                    targets,
                    other,
                ));
            }
        }
        lemma_unlink_each(start, linker, front);
        let front_ops = unlink_each(start, linker, front)->Ok_0;
        let mid = apply(start, front_ops);
        let old = linkers_of(start, id)->Ok_0;
        let n = listed(front, id);
        assert(occurrences(old, linker) >= listed(targets, id));
        law_taken_out(old, linker, n);
        law_taken_out(old, linker, n + 1);
        assert(linkers_of(mid, id) == Ok::<Seq<Linker>, Error>(taken_out(old, linker, n)));
        let rest = taken_out(old, linker, n + 1);
        assert(rest == unlinked(taken_out(old, linker, n), linker).unwrap());
        lemma_lighter_fits(old, rest, linker);
        let op = unlink_op(mid, linker, id, false)->Ok_0;
        lemma_apply_push(start, front_ops, op);
        let cur = apply_op(mid, op);
        lemma_put_linkers(mid, id, rest);
        lemma_same_but(mid, op);
        assert(same_but(start, cur, Cf::TargetLinks));
        assert forall|other: u64| #[trigger] linkers_of(cur, other) == Ok::<Seq<Linker>, Error>(
            taken_out(linkers_of(start, other)->Ok_0, linker, listed(targets, other)),
        ) by {
            if other != id {
                assert(linkers_of(cur, other) == linkers_of(mid, other));
            }
        }
    }
}

/// A record goes, and its links leave their targets one after the other.
proof fn lemma_one_record(
    mid: Db,
    own: Map<u64, Text>,
    key: (u64, Text, Text),
    targets: Seq<(Text, u64)>,
)
    requires
        in_order(mid, own),
        RecordLinkKey::fits(key),
        record_targets(mid, key) == Ok::<Option<Seq<(Text, u64)>>, Error>(Some(targets)),
    ensures
        key.0 != 0,
        ({
            let start = apply_op(mid, delete_record_op(key));
            let ops = unlink_each(start, (key.0, key.2), targets);
            let after = apply(start, ops->Ok_0);
            &&& ops is Ok
            &&& in_order(after, own)
            &&& one_gone(mid, key, targets, after)
            &&& forall|id: u64|
                occurrences(linkers_of(mid, id)->Ok_0, (key.0, key.2)) >= #[trigger] listed(
                    targets,
                    id,
                )
            &&& forall|id: u64| #[trigger]
                linkers_of(after, id) == Ok::<Seq<Linker>, Error>(
                    taken_out(linkers_of(mid, id)->Ok_0, (key.0, key.2), listed(targets, id)),
                )
        }),
{
    let linker = (key.0, key.2);
    let del = delete_record_op(key);
    let start = apply_op(mid, del);
    lemma_can_unlink(mid, own, key, targets);
    lemma_delete_record(mid, key);
    lemma_same_but(mid, del);
    assert forall|id: u64| occurrences(
        linkers_of(mid, id)->Ok_0,
        linker,
    ) >= #[trigger] listed(targets, id) by {
        lemma_listed(targets, id);
        if links_to(targets, id) {
            let i = choose|i: int| 0 <= i < targets.len() && (#[trigger] targets[i]).1 == id;
            assert(link_ok(mid, own, key, targets, targets[i].1));
        }
    }
    assert forall|id: u64| #[trigger] linkers_of(start, id) == linkers_of(mid, id) by {}
    assert(can_clear(start, linker, targets)) by {
        assert forall|id: u64|
            {
                let linkers = #[trigger] linkers_of(start, id);
                &&& linkers is Ok
                &&& TargetLinkers::fits(linkers->Ok_0)
                &&& occurrences(linkers->Ok_0, linker) >= listed(targets, id)
            } by {
            assert(linkers_of(mid, id) is Ok);
            assert(occurrences(linkers_of(mid, id)->Ok_0, linker) >= listed(targets, id));
        }
    }
    lemma_unlink_each(start, linker, targets);
    let after = apply(start, unlink_each(start, linker, targets)->Ok_0);
    assert forall|id: u64| #[trigger] linkers_of(after, id) == Ok::<Seq<Linker>, Error>(
        taken_out(linkers_of(mid, id)->Ok_0, linker, listed(targets, id)),
    ) by {
        assert(linkers_of(start, id) == linkers_of(mid, id));
    }
    lemma_one_record_gone(mid, own, key, targets, start, after);
    lemma_one_gone_keeps(mid, own, key, targets, after);
}

proof fn lemma_one_record_gone(
    mid: Db,
    own: Map<u64, Text>,
    key: (u64, Text, Text),
    targets: Seq<(Text, u64)>,
    start: Db,
    after: Db,
)
    requires
        in_order(mid, own),
        key.0 != 0,
        RecordLinkKey::fits(key),
        start == apply_op(mid, delete_record_op(key)),
        after.dom().finite(),
        same_but(start, after, Cf::TargetLinks),
        forall|id: u64|
            occurrences(linkers_of(mid, id)->Ok_0, (key.0, key.2)) >= #[trigger] listed(
                targets,
                id,
            ),
        forall|id: u64| #[trigger]
            linkers_of(after, id) == Ok::<Seq<Linker>, Error>(
                taken_out(linkers_of(mid, id)->Ok_0, (key.0, key.2), listed(targets, id)),
            ),
    ensures
        one_gone(mid, key, targets, after),
{
    let linker = (key.0, key.2);
    lemma_delete_record(mid, key);
    lemma_same_but(mid, delete_record_op(key));
    assert(same_ids(mid, start));
    lemma_same_ids(mid, start, after);
    assert forall|k: (u64, Text, Text)| RecordLinkKey::fits(k) implies #[trigger] record_targets(
        after,
        k,
    ) == if k == key {
        Ok::<Option<Seq<(Text, u64)>>, Error>(None)
    } else {
        record_targets(mid, k)
    } by {
        assert(record_targets(after, k) == record_targets(start, k));
    }
    assert forall|k: Seq<u8>| #[trigger]
        after.contains_key((Cf::LinkTargets, k)) implies mid.contains_key((Cf::LinkTargets, k)) by {
        assert(start.contains_key((Cf::LinkTargets, k)));
    }
    assert forall|id: u64|
        #![trigger linkers_of(after, id)]
        linkers_of(after, id) == linkers_of(mid, id) || (links_to(targets, id) && linkers_of(
            after,
            id,
        ) is Ok && lighter(linkers_of(mid, id)->Ok_0, linkers_of(after, id)->Ok_0, linker)) by {
        assert(linkers_of(mid, id) is Ok);
        lemma_listed(targets, id);
        law_taken_out(linkers_of(mid, id)->Ok_0, linker, listed(targets, id));
    }
}

/// What stays the same twice stays the same.
proof fn lemma_same_ids(a: Db, b: Db, c: Db)
    requires
        same_ids(a, b),
        same_ids(b, c),
    ensures
        same_ids(a, c),
{
    assert forall|did: Text| #[trigger] did_value(c, did) == did_value(a, did) by {
        assert(did_value(c, did) == did_value(b, did));
    }
    assert forall|id: u64| #[trigger] did_of_id(c, id) == did_of_id(a, id) by {
        assert(did_of_id(c, id) == did_of_id(b, id));
    }
    assert forall|k: (Text, Text, Text)| #[trigger] target_id(c, k) == target_id(a, k) by {
        assert(target_id(c, k) == target_id(b, k));
    }
    assert forall|k: Seq<u8>| #[trigger]
        c.contains_key((Cf::TargetIds, k)) == a.contains_key((Cf::TargetIds, k)) by {
        assert(c.contains_key((Cf::TargetIds, k)) == b.contains_key((Cf::TargetIds, k)));
    }
}

/// One more record goes.
proof fn lemma_one_more(
    db: Db,
    own: Map<u64, Text>,
    did_id: u64,
    front: Seq<Record>,
    record: Record,
    mid: Db,
    after: Db,
)
    requires
        in_order(db, own),
        did_id != 0,
        record.0.0 == did_id,
        records_gone(db, did_id, front, mid),
        one_gone(mid, record.0, record.1, after),
        forall|id: u64|
            occurrences(linkers_of(mid, id)->Ok_0, (did_id, record.0.2)) >= #[trigger] listed(
                record.1,
                id,
            ),
        forall|id: u64| #[trigger]
            linkers_of(after, id) == Ok::<Seq<Linker>, Error>(
                taken_out(linkers_of(mid, id)->Ok_0, (did_id, record.0.2), listed(record.1, id)),
            ),
    ensures
        records_gone(db, did_id, front.push(record), after),
{
    let records = front.push(record);
    assert(records.drop_last() =~= front);
    lemma_same_ids(db, mid, after);
    assert forall|k: (u64, Text, Text)| RecordLinkKey::fits(k) implies #[trigger] record_targets(
        after,
        k,
    ) == if among(records, k) {
        Ok::<Option<Seq<(Text, u64)>>, Error>(None)
    } else {
        record_targets(db, k)
    } by {
        assert(records[front.len() as int] == record);
        assert(record_targets(mid, k) == if among(front, k) {
            Ok::<Option<Seq<(Text, u64)>>, Error>(None)
        } else {
            record_targets(db, k)
        });
        if among(front, k) {
            let i = choose|i: int| 0 <= i < front.len() && (#[trigger] front[i]).0 == k;
            assert(records[i].0 == k);
        }
        if among(records, k) && k != record.0 {
            let i = choose|i: int| 0 <= i < records.len() && (#[trigger] records[i]).0 == k;
            assert(front[i].0 == k);
        }
    }
    assert forall|id: u64|
        (#[trigger] linkers_of(after, id)) is Ok && swept(
            linkers_of(db, id)->Ok_0,
            linkers_of(after, id)->Ok_0,
            did_id,
            records,
            id,
        ) by {
        let linker = (did_id, record.0.2);
        let old = linkers_of(db, id)->Ok_0;
        let between = linkers_of(mid, id)->Ok_0;
        let new = linkers_of(after, id)->Ok_0;
        assert(linkers_of(mid, id) is Ok && swept(old, between, did_id, front, id));
        assert(occurrences(between, linker) >= listed(record.1, id));
        law_taken_out(between, linker, listed(record.1, id));
        assert(thinned(old, new, did_id)) by {
            assert forall|i: int| 0 <= i < old.len() implies #[trigger] new[i] == old[i] || (
            old[i].0 == did_id && new[i] == tombstone()) by {
                assert(between[i] == old[i] || (old[i].0 == did_id && between[i] == tombstone()));
                assert(new[i] == between[i] || (between[i] == linker && new[i] == tombstone()));
            }
        }
        assert forall|rkey: Text| #[trigger]
            occurrences(new, (did_id, rkey)) + links_under(records, rkey, id) == occurrences(
            old,
            (did_id, rkey),
        ) by {
            assert(occurrences(between, (did_id, rkey)) + links_under(front, rkey, id)
                == occurrences(old, (did_id, rkey)));
        }
    }
}

/// Records of an account can go together, behind others that have gone before them.
proof fn lemma_chunk_ops(
    db: Db,
    own: Map<u64, Text>,
    did_id: u64,
    earlier: Seq<Record>,
    records: Seq<Record>,
    base: Db,
)
    requires
        in_order(db, own),
        in_order(base, own),
        did_id != 0,
        records_gone(db, did_id, earlier, base),
        stored(base, did_id, records),
        distinct(records),
    ensures
        chunk_ops(base, did_id, records) is Ok,
        ({
            let after = apply(base, chunk_ops(base, did_id, records)->Ok_0);
            &&& in_order(after, own)
            &&& records_gone(db, did_id, earlier + records, after)
        }),
    decreases records.len(),
{
    if records.len() == 0 {
        assert(apply(base, Seq::empty()) == base);
        assert(earlier + records =~= earlier);
    } else {
        let front = records.drop_last();
        let (key, targets) = records.last();
        assert(records[records.len() - 1] == (key, targets));
        assert(stored(base, did_id, front)) by {
            assert forall|i: int| 0 <= i < front.len() implies {
                let key = (#[trigger] front[i]).0;
                &&& RecordLinkKey::fits(key)
                &&& key.0 == did_id
                &&& record_targets(base, key) == Ok::<Option<Seq<(Text, u64)>>, Error>(
                    Some(front[i].1),
                )
            } by {
                assert(front[i] == records[i]);
            }
        }
        assert(distinct(front)) by {
            assert forall|i: int, j: int| 0 <= i < j < front.len() implies (#[trigger] front[i]).0
                != (#[trigger] front[j]).0 by {
                assert(records[i].0 != records[j].0);
            }
        }
        lemma_chunk_ops(db, own, did_id, earlier, front, base);
        let front_ops = chunk_ops(base, did_id, front)->Ok_0;
        let mid = apply(base, front_ops);
        let gone = earlier + front;
        assert(record_targets(base, key)->Ok_0 is Some);
        assert(!among(gone, key)) by {
            if among(gone, key) {
                let i = choose|i: int| 0 <= i < gone.len() && (#[trigger] gone[i]).0 == key;
                if i < earlier.len() {
                    assert(earlier[i].0 == key);
                    assert(among(earlier, key));
                } else {
                    assert(records[i - earlier.len()].0 == key);
                }
            }
        }
        assert(!among(earlier, key));
        assert(record_targets(mid, key) == record_targets(db, key));
        assert(record_targets(base, key) == record_targets(db, key));
        lemma_one_record(mid, own, key, targets);
        let del = delete_record_op(key);
        lemma_apply_push(base, front_ops, del);
        let start = apply_op(mid, del);
        let ops = unlink_each(start, (did_id, key.2), targets)->Ok_0;
        lemma_apply_concat(base, front_ops.push(del), ops);
        let after = apply(start, ops);
        lemma_one_more(db, own, did_id, gone, (key, targets), mid, after);
        assert(gone.push((key, targets)) =~= earlier + records);
    }
}

/// How many records the first `n` chunks hold.
pub open spec fn chunked(records: Seq<Record>, n: nat) -> int {
    if n * CHUNK <= records.len() {
        n * CHUNK
    } else {
        records.len() as int
    }
}

proof fn lemma_none_gone(db: Db, own: Map<u64, Text>, did_id: u64)
    requires
        in_order(db, own),
    ensures
        records_gone(db, did_id, Seq::empty(), db),
{
    assert forall|id: u64|
        (#[trigger] linkers_of(db, id)) is Ok && swept(
            linkers_of(db, id)->Ok_0,
            linkers_of(db, id)->Ok_0,
            did_id,
            Seq::empty(),
            id,
        ) by {}
}

/// Records that have not gone are still there.
proof fn lemma_part_stored(
    db: Db,
    did_id: u64,
    records: Seq<Record>,
    a: int,
    b: int,
    mid: Db,
)
    requires
        0 <= a <= b <= records.len(),
        stored(db, did_id, records),
        distinct(records),
        records_gone(db, did_id, records.take(a), mid),
    ensures
        stored(mid, did_id, records.subrange(a, b)),
        distinct(records.subrange(a, b)),
{
    let part = records.subrange(a, b);
    assert forall|i: int| 0 <= i < part.len() implies {
        let key = (#[trigger] part[i]).0;
        &&& RecordLinkKey::fits(key)
        &&& key.0 == did_id
        &&& record_targets(mid, key) == Ok::<Option<Seq<(Text, u64)>>, Error>(Some(part[i].1))
    } by {
        assert(part[i] == records[a + i]);
        let key = part[i].0;
        if among(records.take(a), key) {
            let j = choose|j: int|
                0 <= j < records.take(a).len() && (#[trigger] records.take(a)[j]).0 == key;
            assert(records[j].0 == key);
            assert(false);
        }
        assert(record_targets(mid, key) == record_targets(db, key));
    }
    assert forall|i: int, j: int| 0 <= i < j < part.len() implies (#[trigger] part[i]).0 != (
    #[trigger] part[j]).0 by {
        assert(records[a + i].0 != records[a + j].0);
    }
}

/// All chunks of the records of an account can go, one after the other.
proof fn lemma_chunk_batches(
    db: Db,
    own: Map<u64, Text>,
    did_id: u64,
    records: Seq<Record>,
    n: nat,
)
    requires
        in_order(db, own),
        did_id != 0,
        stored(db, did_id, records),
        distinct(records),
        n <= chunk_count(records.len()),
    ensures
        chunk_batches(db, did_id, records, n) is Ok,
        ({
            let after = apply_all(db, chunk_batches(db, did_id, records, n)->Ok_0);
            &&& in_order(after, own)
            &&& records_gone(db, did_id, records.take(chunked(records, n)), after)
        }),
    decreases n,
{
    if n == 0 {
        assert(apply_all(db, Seq::<Seq<Op>>::empty()) == db);
        assert(records.take(0) =~= Seq::empty());
        lemma_none_gone(db, own, did_id);
    } else {
        let m = (n - 1) as nat;
        lemma_chunk_batches(db, own, did_id, records, m);
        let front = chunk_batches(db, did_id, records, m)->Ok_0;
        let mid = apply_all(db, front);
        let a = chunked(records, m);
        let b = chunked(records, n);
        let part = chunk(records, m);
        assert(a == m * CHUNK);
        assert(part =~= records.subrange(a, b));
        lemma_part_stored(db, did_id, records, a, b, mid);
        lemma_chunk_ops(db, own, did_id, records.take(a), part, mid);
        let ops = chunk_ops(mid, did_id, part)->Ok_0;
        assert(front.push(ops).drop_last() =~= front);
        assert(records.take(a) + part =~= records.take(b));
    }
}

/// What an account that went leaves behind. It is not stored; it has no records; all the links of
/// its records have left the linkers of their targets; all else is as it was. An account that is
/// not stored changes nothing.
pub open spec fn account_gone(db: Db, did: Text, after: Db) -> bool {
    &&& next_did(after) == next_did(db)
    &&& next_target(after) == next_target(db)
    &&& did_value(after, did) == Ok::<Option<(u64, bool)>, Error>(None)
    &&& forall|other: Text|
        Did::fits(other) && other != did ==> #[trigger] did_value(after, other) == did_value(
            db,
            other,
        )
    &&& forall|id: u64| id < id_limit() ==> #[trigger] did_of_id(after, id) == did_of_id(db, id)
    &&& forall|key: (Text, Text, Text)| #[trigger] target_id(after, key) == target_id(db, key)
    &&& match did_value(db, did)->Ok_0 {
        None => {
            &&& forall|key: (u64, Text, Text)|
                RecordLinkKey::fits(key) ==> #[trigger] record_targets(after, key)
                    == record_targets(db, key)
            &&& forall|id: u64| #[trigger] linkers_of(after, id) == linkers_of(db, id)
        },
        Some((did_id, _)) => {
            let records = records_of(db, did_id);
            &&& forall|key: (u64, Text, Text)|
                RecordLinkKey::fits(key) ==> #[trigger] record_targets(after, key) == if key.0
                    == did_id {
                    Ok::<Option<Seq<(Text, u64)>>, Error>(None)
                } else {
                    record_targets(db, key)
                }
            &&& forall|id: u64|
                (#[trigger] linkers_of(after, id)) is Ok && swept(
                    linkers_of(db, id)->Ok_0,
                    linkers_of(after, id)->Ok_0,
                    did_id,
                    records,
                    id,
                )
        },
    }
}

/// An account that is forgotten leaves all in order.
proof fn lemma_did_gone(db: Db, own: Map<u64, Text>, did: Text)
    requires
        in_order(db, own),
        Did::fits(did),
    ensures
        ({
            let after = apply_op(db, Op::Delete { cf: Cf::DidIds, key: Did::bytes(did) });
            &&& in_order(after, own)
            &&& same_links(db, after)
            &&& next_did(after) == next_did(db)
            &&& did_value(after, did) == Ok::<Option<(u64, bool)>, Error>(None)
            &&& forall|other: Text|
                Did::fits(other) && other != did ==> #[trigger] did_value(after, other)
                    == did_value(db, other)
            &&& forall|id: u64|
                id < id_limit() ==> #[trigger] did_of_id(after, id) == did_of_id(db, id)
        }),
{
    let op = Op::Delete { cf: Cf::DidIds, key: Did::bytes(did) };
    let after = apply_op(db, op);
    lemma_delete_did(db, did);
    lemma_same_but(db, op);
    assert(same_links(db, after));
    assert(dids_ok(after)) by {
        assert forall|other: Text| Did::fits(other) implies match #[trigger] did_value(
            after,
            other,
        ) {
            Ok(None) => true,
            Ok(Some(value)) => 0 < value.0 < next_did(after)->Ok_0 && did_of_id(after, value.0)
                == Ok::<Option<Text>, Error>(Some(other)),
            Err(_) => false,
        } by {
            assert(did_value(db, other) is Ok);
            if let Ok(Some(value)) = did_value(db, other) {
                assert(did_of_id(after, value.0) == did_of_id(db, value.0));
            }
        }
        assert forall|id: u64| id < id_limit() implies match #[trigger] did_of_id(after, id) {
            Ok(None) => true,
            Ok(Some(did)) => Did::fits(did) && 0 < id < next_did(after)->Ok_0,
            Err(_) => false,
        } by {
            assert(did_of_id(after, id) == did_of_id(db, id));
        }
    }
    lemma_accounts_changed(db, after, own);
}

/// An account that goes leaves all in order.
proof fn lemma_account_gone(db: Db, own: Map<u64, Text>, did: Text)
    requires
        in_order(db, own),
        Did::fits(did),
    ensures
        account_deleted(db, did) is Ok,
        ({
            let (batches, ops) = account_deleted(db, did)->Ok_0;
            let after = apply(apply_all(db, batches), ops);
            &&& in_order(after, own)
            &&& account_gone(db, did, after)
        }),
{
    assert(did_value(db, did) is Ok);
    match did_value(db, did)->Ok_0 {
        None => {
            assert(apply_all(db, Seq::<Seq<Op>>::empty()) == db);
            assert(apply(db, Seq::<Op>::empty()) == db);
        },
        Some((did_id, active)) => {
            let records = records_of(db, did_id);
            law_records_of(db, did_id);
            let n = chunk_count(records.len());
            lemma_chunk_batches(db, own, did_id, records, n);
            assert(chunked(records, n) == records.len());
            assert(records.take(records.len() as int) =~= records);
            let batches = chunk_batches(db, did_id, records, n)->Ok_0;
            let mid = apply_all(db, batches);
            let op = Op::Delete { cf: Cf::DidIds, key: Did::bytes(did) };
            let after = apply_op(mid, op);
            lemma_apply_one(mid, op);
            lemma_did_gone(mid, own, did);
            lemma_account_gone_all(db, own, did, did_id, mid, after);
        },
    }
}

/// All that an account leaves behind, once its records and itself are gone.
proof fn lemma_account_gone_all(
    db: Db,
    own: Map<u64, Text>,
    did: Text,
    did_id: u64,
    mid: Db,
    after: Db,
)
    requires
        in_order(db, own),
        did_value(db, did)->Ok_0 is Some,
        did_value(db, did)->Ok_0.unwrap().0 == did_id,
        records_gone(db, did_id, records_of(db, did_id), mid),
        same_links(mid, after),
        next_did(after) == next_did(mid),
        did_value(after, did) == Ok::<Option<(u64, bool)>, Error>(None),
        forall|other: Text|
            Did::fits(other) && other != did ==> #[trigger] did_value(after, other) == did_value(
                mid,
                other,
            ),
        forall|id: u64| id < id_limit() ==> #[trigger] did_of_id(after, id) == did_of_id(mid, id),
    ensures
        account_gone(db, did, after),
{
    let records = records_of(db, did_id);
    law_records_of(db, did_id);
    assert forall|other: Text| Did::fits(other) && other != did implies #[trigger] did_value(
        after,
        other,
    ) == did_value(db, other) by {
        assert(did_value(after, other) == did_value(mid, other));
    }
    assert forall|id: u64| id < id_limit() implies #[trigger] did_of_id(after, id) == did_of_id(
        db,
        id,
    ) by {
        assert(did_of_id(after, id) == did_of_id(mid, id));
    }
    assert forall|key: (Text, Text, Text)| #[trigger] target_id(after, key) == target_id(
        db,
        key,
    ) by {
        assert(target_id(after, key) == target_id(mid, key));
    }
    assert forall|key: (u64, Text, Text)| RecordLinkKey::fits(key) implies #[trigger] record_targets(
        after,
        key,
    )
        == if key.0 == did_id {
        Ok::<Option<Seq<(Text, u64)>>, Error>(None)
    } else {
        record_targets(db, key)
    } by {
        assert(record_targets(after, key) == record_targets(mid, key));
        assert(record_targets(db, key) is Ok);
        if key.0 == did_id && record_targets(db, key)->Ok_0 is Some {
            assert(among(records, key));
        }
        if among(records, key) {
            let i = choose|i: int| 0 <= i < records.len() && (#[trigger] records[i]).0 == key;
            assert(records[i].0.0 == did_id);
        }
    }
    assert forall|id: u64|
        (#[trigger] linkers_of(after, id)) is Ok && swept(
            linkers_of(db, id)->Ok_0,
            linkers_of(after, id)->Ok_0,
            did_id,
            records,
            id,
        ) by {
        assert(linkers_of(after, id) == linkers_of(mid, id));
    }
}

/// An account can always go, and leaves the database in order.
pub proof fn law_delete_account(db: Db, did: Text, cursor: u64, seqs: Seqs)
    requires
        consistent(db),
        follows(db, seqs),
        Did::fits(did),
    ensures
        ({
            let p = pushed(db, Event::DeleteAccount { did }, cursor, seqs);
            let after = apply_all(db, p->Ok_0.batches);
            &&& p is Ok
            &&& consistent(after)
            &&& follows(after, p->Ok_0.seqs)
            &&& p->Ok_0.seqs == seqs
            &&& account_gone(db, did, after)
            &&& cursor_of(after) == Ok::<Option<u64>, Error>(Some(cursor))
        }),
{
    let own = choose|own: Map<u64, Text>| in_order(db, own);
    lemma_account_gone(db, own, did);
    let (batches, ops) = account_deleted(db, did)->Ok_0;
    let mid = apply(apply_all(db, batches), ops);
    let last = ops.push(cursor_op(cursor));
    assert(batches.push(last).drop_last() =~= batches);
    lemma_apply_push(apply_all(db, batches), ops, cursor_op(cursor));
    let p = pushed(db, Event::DeleteAccount { did }, cursor, seqs)->Ok_0;
    let after = apply_all(db, p.batches);
    lemma_cursor_keeps(mid, own, cursor);
    assert(same_but_cursor(mid, after));
    lemma_account_gone_cursor(db, did, mid, after);
}

proof fn lemma_account_gone_cursor(db: Db, did: Text, mid: Db, after: Db)
    requires
        account_gone(db, did, mid),
        same_but_cursor(mid, after),
    ensures
        account_gone(db, did, after),
{
    assert(did_value(after, did) == did_value(mid, did));
    assert forall|other: Text| Did::fits(other) && other != did implies #[trigger] did_value(
        after,
        other,
    ) == did_value(db, other) by {
        assert(did_value(after, other) == did_value(mid, other));
    }
    assert forall|id: u64| id < id_limit() implies #[trigger] did_of_id(after, id) == did_of_id(
        db,
        id,
    ) by {
        assert(did_of_id(after, id) == did_of_id(mid, id));
    }
    assert forall|key: (Text, Text, Text)| #[trigger] target_id(after, key) == target_id(
        db,
        key,
    ) by {
        assert(target_id(after, key) == target_id(mid, key));
    }
    assert forall|key: (u64, Text, Text)| #[trigger] record_targets(after, key) == record_targets(
        mid,
        key,
    ) by {}
    assert forall|id: u64| #[trigger] linkers_of(after, id) == linkers_of(mid, id) by {}
}

/// Records of an account that share a record key do not link to the same target.
proof fn lemma_links_under(
    db: Db,
    own: Map<u64, Text>,
    did_id: u64,
    records: Seq<Record>,
    j: int,
    id: u64,
    n: int,
)
    requires
        in_order(db, own),
        stored(db, did_id, records),
        distinct(records),
        0 <= j < records.len(),
        links_to(records[j].1, id),
        0 <= n <= records.len(),
    ensures
        links_under(records.take(n), records[j].0.2, id) == if j < n {
            listed(records[j].1, id)
        } else {
            0
        },
    decreases n,
{
    if n == 0 {
        assert(records.take(0) =~= Seq::empty());
    } else {
        let i = n - 1;
        lemma_links_under(db, own, did_id, records, j, id, i);
        assert(records.take(n).drop_last() =~= records.take(i));
        assert(records.take(n).last() == records[i]);
        if i != j && records[i].0.2 == records[j].0.2 {
            lemma_listed(records[i].1, id);
            if links_to(records[i].1, id) {
                let a = records[i].1;
                let b = records[j].1;
                lemma_can_unlink(db, own, records[i].0, a);
                lemma_can_unlink(db, own, records[j].0, b);
                let x = choose|x: int| 0 <= x < a.len() && (#[trigger] a[x]).1 == id;
                let y = choose|y: int| 0 <= y < b.len() && (#[trigger] b[y]).1 == id;
                assert(link_ok(db, own, records[i].0, a, a[x].1));
                assert(link_ok(db, own, records[j].0, b, b[y].1));
                assert(records[i].0 == records[j].0);
                if i < j {
                    assert(records[i].0 != records[j].0);
                } else {
                    assert(records[j].0 != records[i].0);
                }
            }
        }
    }
}

/// An account that went takes with it each link that a record of its had to a target: the entries
/// of the record among the linkers of the target are fewer by as many as the record had links to
/// it.
pub proof fn law_account_gone_record(db: Db, did: Text, after: Db, j: int, id: u64)
    requires
        consistent(db),
        Did::fits(did),
        did_value(db, did)->Ok_0 is Some,
        account_gone(db, did, after),
        0 <= j < records_of(db, did_value(db, did)->Ok_0.unwrap().0).len(),
        links_to(records_of(db, did_value(db, did)->Ok_0.unwrap().0)[j].1, id),
    ensures
        ({
            let did_id = did_value(db, did)->Ok_0.unwrap().0;
            let (key, targets) = records_of(db, did_id)[j];
            occurrences(linkers_of(after, id)->Ok_0, (did_id, key.2)) == occurrences(
                linkers_of(db, id)->Ok_0,
                (did_id, key.2),
            ) - listed(targets, id)
        }),
{
    let own = choose|own: Map<u64, Text>| in_order(db, own);
    let did_id = did_value(db, did)->Ok_0.unwrap().0;
    let records = records_of(db, did_id);
    law_records_of(db, did_id);
    lemma_links_under(db, own, did_id, records, j, id, records.len() as int);
    assert(records.take(records.len() as int) =~= records);
    assert(linkers_of(after, id) is Ok);
    let new = linkers_of(after, id)->Ok_0;
    let rkey = records[j].0.2;
    assert(occurrences(new, (did_id, rkey)) + links_under(records, rkey, id) == occurrences(
        linkers_of(db, id)->Ok_0,
        (did_id, rkey),
    ));
}

}
