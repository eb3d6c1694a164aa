//! Counting the links to a target over all collections and paths.
use crate::db::{before, scan, Cf, Db};
use crate::error::Error;
use crate::laws::consistency::{consistent, in_order};
use crate::laws::keys::{law_bytes_differ, law_target_prefix};
use crate::laws::scans::{law_before_irreflexive, law_decoded, law_scan};
use crate::model::{
    all_counts, count_of, counts_in, ids_of_target, linkers_of, target_id, with_count,
};
use crate::records::{Stored, TargetId, TargetIdTargetPrefix, TargetKey, Text};
use vstd::prelude::*;

verus! {

/// Whether a row is that of a target.
spec fn scanned(db: Db, target: Text, r: (Seq<u8>, Seq<u8>)) -> bool {
    &&& TargetKey::parsed(r.0) is Some
    &&& TargetId::parsed(r.1) is Some
    &&& ({
        let key = TargetKey::parsed(r.0).unwrap();
        &&& TargetKey::fits(key)
        &&& TargetKey::bytes(key) == r.0
        &&& key.0 == target
        &&& target_id(db, key) == Ok::<Option<u64>, Error>(TargetId::parsed(r.1))
    })
}

/// Whether ids are those of a target, for each collection and path once.
pub open spec fn ids_listed(db: Db, target: Text, ids: Seq<((Text, Text, Text), u64)>) -> bool {
    &&& forall|i: int|
        0 <= i < ids.len() ==> {
            let key = (#[trigger] ids[i]).0;
            &&& TargetKey::fits(key)
            &&& key.0 == target
            &&& target_id(db, key) == Ok::<Option<u64>, Error>(Some(ids[i].1))
        }
    &&& forall|i: int, j: int|
        0 <= i < j < ids.len() ==> (#[trigger] ids[i]).0 != (#[trigger] ids[j]).0
}

/// The ids of a target are listed once for each collection and path from which it is linked to:
/// those that are stored, and no others.
pub proof fn law_ids_of_target(db: Db, target: Text)
    requires
        consistent(db),
        TargetIdTargetPrefix::fits(target),
    ensures
        ids_listed(db, target, ids_of_target(db, target)),
        forall|key: (Text, Text, Text)|
            TargetKey::fits(key) && key.0 == target && (#[trigger] target_id(db, key))->Ok_0 is Some
                ==> exists|i: int|
                0 <= i < ids_of_target(db, target).len() && (#[trigger] ids_of_target(
                    db,
                    target,
                )[i]).0 == key,
{
    let own = choose|own: Map<u64, Text>| in_order(db, own);
    let prefix = TargetIdTargetPrefix::bytes(target);
    let rows = scan(db, Cf::TargetIds, prefix);
    law_scan(db, Cf::TargetIds, prefix);
    assert forall|i: int| 0 <= i < rows.len() implies scanned(db, target, #[trigger] rows[i]) by {
        let bytes = rows[i].0;
        assert(db.contains_key((Cf::TargetIds, bytes)));
        let key = choose|k: (Text, Text, Text)|
            TargetKey::fits(k) && bytes == #[trigger] TargetKey::bytes(k);
        TargetKey::lemma_parsed_bytes(key);
        law_target_prefix(target, key);
        assert(target_id(db, key) is Ok);
    }
    assert forall|i: int| 0 <= i < rows.len() implies TargetKey::parsed(
        (#[trigger] rows[i]).0,
    ) is Some && TargetId::parsed(rows[i].1) is Some by {
        assert(scanned(db, target, rows[i]));
    }
    law_decoded::<TargetKey, TargetId>(rows);
    let ids = ids_of_target(db, target);
    assert forall|i: int| 0 <= i < ids.len() implies {
        let key = (#[trigger] ids[i]).0;
        &&& TargetKey::fits(key)
        &&& key.0 == target
        &&& TargetKey::bytes(key) == rows[i].0
        &&& target_id(db, key) == Ok::<Option<u64>, Error>(Some(ids[i].1))
    } by {
        assert(scanned(db, target, rows[i]));
    }
    assert forall|key: (Text, Text, Text)|
        TargetKey::fits(key) && key.0 == target && (#[trigger] target_id(db, key))->Ok_0 is Some
            implies exists|i: int| 0 <= i < ids.len() && (#[trigger] ids[i]).0 == key by {
        assert(target_id(db, key) is Ok);
        let bytes = TargetKey::bytes(key);
        assert(db.contains_key((Cf::TargetIds, bytes)));
        law_target_prefix(target, key);
        let i = choose|i: int| 0 <= i < rows.len() && (#[trigger] rows[i]).0 == bytes;
        law_bytes_differ::<TargetKey>(ids[i].0, key);
    }
    assert forall|i: int, j: int| 0 <= i < j < ids.len() implies (#[trigger] ids[i]).0 != (
    #[trigger] ids[j]).0 by {
        assert(before(rows[i].0, rows[j].0));
        law_before_irreflexive(rows[i].0);
    }
}

/// The number for a path of a collection, if there is one.
pub open spec fn number(
    counts: Map<Text, Map<Text, u64>>,
    collection: Text,
    path: Text,
) -> Option<u64> {
    if counts.contains_key(collection) && counts[collection].contains_key(path) {
        Some(counts[collection][path])
    } else {
        None
    }
}

/// Counts have a number for each of the ids, and for nothing else.
proof fn lemma_counts_in(db: Db, target: Text, ids: Seq<((Text, Text, Text), u64)>)
    requires
        consistent(db),
        ids_listed(db, target, ids),
    ensures
        counts_in(db, ids) is Ok,
        forall|i: int|
            0 <= i < ids.len() ==> number(
                counts_in(db, ids)->Ok_0,
                (#[trigger] ids[i]).0.1,
                ids[i].0.2,
            ) == Some(count_of(db, ids[i].0)->Ok_0) && count_of(db, ids[i].0) is Ok,
        forall|collection: Text, path: Text|
            (#[trigger] number(counts_in(db, ids)->Ok_0, collection, path)) is Some ==> exists|
                i: int,
            |
                0 <= i < ids.len() && (#[trigger] ids[i]).0 == (target, collection, path),
    decreases ids.len(),
{
    let own = choose|own: Map<u64, Text>| in_order(db, own);
    if ids.len() > 0 {
        let front = ids.drop_last();
        let (key, id) = ids.last();
        assert(ids[ids.len() - 1] == (key, id));
        assert(ids_listed(db, target, front)) by {
            assert forall|i: int| 0 <= i < front.len() implies {
                let key = (#[trigger] front[i]).0;
                &&& TargetKey::fits(key)
                &&& key.0 == target
                &&& target_id(db, key) == Ok::<Option<u64>, Error>(Some(front[i].1))
            } by {
                assert(front[i] == ids[i]);
            }
            assert forall|i: int, j: int| 0 <= i < j < front.len() implies (#[trigger] front[i]).0
                != (#[trigger] front[j]).0 by {
                assert(ids[i].0 != ids[j].0);
            }
        }
        lemma_counts_in(db, target, front);
        assert(linkers_of(db, id) is Ok);
        let old = counts_in(db, front)->Ok_0;
        let n = count_of(db, key)->Ok_0;
        let new = with_count(old, key.1, key.2, n);
        assert(counts_in(db, ids) == Ok::<Map<Text, Map<Text, u64>>, Error>(new));
        assert forall|collection: Text, path: Text| #[trigger] number(new, collection, path) == if (
        collection, path) == (key.1, key.2) {
            Some(n)
        } else {
            number(old, collection, path)
        } by {}
        assert forall|i: int| 0 <= i < ids.len() implies number(
            new,
            (#[trigger] ids[i]).0.1,
            ids[i].0.2,
        ) == Some(count_of(db, ids[i].0)->Ok_0) && count_of(db, ids[i].0) is Ok by {
            if i < front.len() {
                assert(front[i] == ids[i]);
                assert(ids[i].0 != key);
                assert(number(old, front[i].0.1, front[i].0.2) is Some);
            }
        }
        assert forall|collection: Text, path: Text|
            (#[trigger] number(new, collection, path)) is Some implies exists|i: int|
            0 <= i < ids.len() && (#[trigger] ids[i]).0 == (target, collection, path) by {
            if (collection, path) == (key.1, key.2) {
                assert(ids[ids.len() - 1].0 == (target, collection, path));
            } else {
                assert(number(old, collection, path) is Some);
                let i = choose|i: int|
                    0 <= i < front.len() && (#[trigger] front[i]).0 == (target, collection, path);
                assert(ids[i].0 == (target, collection, path));
            }
        }
    }
}

/// The counts of a target can always be read. They have a number for each collection and path
/// from which the target was ever linked to, and it is the count for that collection and path. They
/// have no collection without a path.
pub proof fn law_all_counts(db: Db, target: Text, collection: Text, path: Text)
    requires
        consistent(db),
        TargetKey::fits((target, collection, path)),
    ensures
        all_counts(db, target) is Ok,
        number(all_counts(db, target)->Ok_0, collection, path) == match target_id(
            db,
            (target, collection, path),
        )->Ok_0 {
            Some(_) => Some(count_of(db, (target, collection, path))->Ok_0),
            None => None,
        },
        all_counts(db, target)->Ok_0.contains_key(collection) ==> exists|p: Text| #[trigger]
            all_counts(db, target)->Ok_0[collection].contains_key(p),
{
    let key = (target, collection, path);
    let own = choose|own: Map<u64, Text>| in_order(db, own);
    assert(target_id(db, key) is Ok);
    law_ids_of_target(db, target);
    let ids = ids_of_target(db, target);
    lemma_counts_in(db, target, ids);
    law_all_counts_linked(db, target);
    if target_id(db, key)->Ok_0 is Some {
        let i = choose|i: int| 0 <= i < ids.len() && (#[trigger] ids[i]).0 == key;
        assert(number(counts_in(db, ids)->Ok_0, ids[i].0.1, ids[i].0.2) is Some);
    } else if number(all_counts(db, target)->Ok_0, collection, path) is Some {
        let i = choose|i: int|
            0 <= i < ids.len() && (#[trigger] ids[i]).0 == (target, collection, path);
        assert(target_id(db, ids[i].0) is Ok);
    }
}

/// A number is there only for a collection and a path from which the target was linked to.
pub proof fn law_number_stored(db: Db, target: Text, c: Text, p: Text)
    requires
        consistent(db),
        TargetIdTargetPrefix::fits(target),
        all_counts(db, target)->Ok_0.contains_key(c),
        all_counts(db, target)->Ok_0[c].contains_key(p),
    ensures
        TargetKey::fits((target, c, p)),
        target_id(db, (target, c, p))->Ok_0 is Some,
{
    law_ids_of_target(db, target);
    let ids = ids_of_target(db, target);
    lemma_counts_in(db, target, ids);
    assert(number(counts_in(db, ids)->Ok_0, c, p) is Some);
    let i = choose|i: int| 0 <= i < ids.len() && (#[trigger] ids[i]).0 == (target, c, p);
    assert(TargetKey::fits(ids[i].0));
}

/// Every collection in counts has a path.
proof fn lemma_no_empty_counts(db: Db, ids: Seq<((Text, Text, Text), u64)>)
    requires
        counts_in(db, ids) is Ok,
    ensures
        forall|c: Text| #[trigger]
            counts_in(db, ids)->Ok_0.contains_key(c) ==> exists|p: Text| #[trigger]
                counts_in(db, ids)->Ok_0[c].contains_key(p),
    decreases ids.len(),
{
    if ids.len() > 0 {
        let front = ids.drop_last();
        lemma_no_empty_counts(db, front);
        let old = counts_in(db, front)->Ok_0;
        let new = counts_in(db, ids)->Ok_0;
        let key = ids.last().0;
        assert forall|c: Text| #[trigger] new.contains_key(c) implies exists|p: Text| #[trigger]
            new[c].contains_key(p) by {
            if c == key.1 {
                assert(new[c].contains_key(key.2));
            } else {
                assert(old.contains_key(c));
                let p = choose|p: Text| #[trigger] old[c].contains_key(p);
                assert(new[c].contains_key(p));
            }
        }
    }
}

/// The counts of a target have a collection only where the target was linked to from one of its
/// paths. Those of a target that was never linked to are empty.
pub proof fn law_all_counts_linked(db: Db, target: Text)
    requires
        consistent(db),
        TargetIdTargetPrefix::fits(target),
    ensures
        all_counts(db, target) is Ok,
        forall|c: Text| #[trigger]
            all_counts(db, target)->Ok_0.contains_key(c) ==> exists|p: Text| #[trigger]
                all_counts(db, target)->Ok_0[c].contains_key(p) && TargetKey::fits((target, c, p))
                    && target_id(db, (target, c, p))->Ok_0 is Some,
        (forall|c: Text, p: Text|
            TargetKey::fits((target, c, p)) ==> #[trigger] target_id(db, (target, c, p)) == Ok::<
                Option<u64>,
                Error,
            >(None)) ==> all_counts(db, target)->Ok_0 == Map::<Text, Map<Text, u64>>::empty(),
{
    law_ids_of_target(db, target);
    let ids = ids_of_target(db, target);
    lemma_counts_in(db, target, ids);
    lemma_no_empty_counts(db, ids);
    let counts = all_counts(db, target)->Ok_0;
    assert forall|c: Text| #[trigger] counts.contains_key(c) implies exists|p: Text| #[trigger]
        counts[c].contains_key(p) && TargetKey::fits((target, c, p)) && target_id(
            db,
            (target, c, p),
        )->Ok_0 is Some by {
        let p = choose|p: Text| #[trigger] counts_in(db, ids)->Ok_0[c].contains_key(p);
        assert(number(counts, c, p) is Some);
        let i = choose|i: int| 0 <= i < ids.len() && (#[trigger] ids[i]).0 == (target, c, p);
        assert(TargetKey::fits(ids[i].0));
        assert(counts[c].contains_key(p));
    }
    if forall|c: Text, p: Text|
        TargetKey::fits((target, c, p)) ==> #[trigger] target_id(db, (target, c, p)) == Ok::<
            Option<u64>,
            Error,
        >(None) {
        assert forall|c: Text| !#[trigger] counts.contains_key(c) by {
            if counts.contains_key(c) {
                let p = choose|p: Text| #[trigger]
                    counts[c].contains_key(p) && TargetKey::fits((target, c, p)) && target_id(
                        db,
                        (target, c, p),
                    )->Ok_0 is Some;
                assert(target_id(db, (target, c, p)) == Ok::<Option<u64>, Error>(None));
            }
        }
        assert(counts =~= Map::empty());
    }
}

}
