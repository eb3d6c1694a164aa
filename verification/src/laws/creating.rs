//! Records that come with links: what is read of them afterwards.
use crate::bytes::le_bytes;
use crate::db::{apply, apply_all, apply_op, lemma_apply_concat, lemma_apply_push, row, Cf, Db, Op};
use crate::error::Error;
use crate::events::Event;
use crate::id_table::{given, seq_key};
use crate::laws::consistency::{
    consistent, follows, in_order, lemma_cursor_keeps, lemma_fresh_target, lemma_give_did,
    lemma_listed, lemma_listed_push, lemma_merge_keeps, lemma_put_record_keeps, link_ok, links_to,
    listed, same_accounts_and_records, same_but_cursor, same_links, targets_ok,
};
use crate::laws::keys::id_limit;
use crate::laws::merging::lemma_occurrences_push;
use crate::laws::rows::{next_did, next_target};
use crate::model::{
    added, cursor_of, cursor_op, did_of_id, did_value, linkers_of, merge_op, new_links, one_batch,
    pushed, record_targets, target_id, NewLinks, Seqs,
};
use crate::records::{
    Did, DidIdValue, Linker, RecordLinkKey, RecordLinkTargets, Stored, TargetId, TargetKey, Text,
};
use crate::wire::Wire;
use vstd::prelude::*;

verus! {

/// The linkers of a target, which has none where it is not stored.
pub open spec fn linkers_to(db: Db, key: (Text, Text, Text)) -> Seq<Linker> {
    match target_id(db, key) {
        Ok(Some(id)) => linkers_of(db, id)->Ok_0,
        _ => Seq::empty(),
    }
}

/// How often a target is linked to by links from a collection.
pub open spec fn times(
    links: Seq<(Text, Text)>,
    collection: Text,
    key: (Text, Text, Text),
) -> nat
    decreases links.len(),
{
    if links.len() == 0 {
        0
    } else {
        times(links.drop_last(), collection, key) + (if (
            links.last().0,
            collection,
            links.last().1,
        ) == key {
            1nat
        } else {
            0
        })
    }
}

/// How many entries come to the linkers of a target: one for each link, but only one where the
/// target is new.
pub open spec fn entries(
    db: Db,
    links: Seq<(Text, Text)>,
    collection: Text,
    key: (Text, Text, Text),
) -> nat {
    let n = times(links, collection, key);
    if target_id(db, key) == Ok::<Option<u64>, Error>(None) && n > 1 {
        1
    } else {
        n
    }
}

/// The same linker, several times.
pub open spec fn copies(linker: Linker, n: nat) -> Seq<Linker> {
    Seq::new(n, |i: int| linker)
}

/// Whether links fit the byte format.
pub open spec fn links_fit(links: Seq<(Text, Text)>) -> bool {
    forall|i: int|
        0 <= i < links.len() ==> <String as Wire>::fits((#[trigger] links[i]).0)
            && <String as Wire>::fits(links[i].1)
}

/// Whether the linkers of every target have room for `n` more.
pub open spec fn roomy(db: Db, n: nat) -> bool {
    forall|id: u64| (#[trigger] linkers_of(db, id))->Ok_0.len() + n <= u64::MAX
}

/// Whether a target that is linked to has an id, and its id is among the links of the record
/// exactly where it is linked to.
pub open spec fn points(
    id: Result<Option<u64>, Error>,
    targets: Seq<(Text, u64)>,
    n: nat,
) -> bool {
    match id {
        Ok(Some(id)) => links_to(targets, id) <==> n > 0,
        _ => n == 0,
    }
}

/// Whether an id, if there is one, was given out between two states of a sequence.
pub open spec fn id_within(id: Result<Option<u64>, Error>, seq: u64, new_seq: u64) -> bool {
    id matches Ok(Some(id)) ==> seq < id <= new_seq
}

/// Whether the id of a target, if it has one, is listed `n` times among the links of a record.
pub open spec fn lists(
    id: Result<Option<u64>, Error>,
    targets: Seq<(Text, u64)>,
    n: nat,
) -> bool {
    id matches Ok(Some(id)) ==> listed(targets, id) == n
}

/// What new links leave behind.
pub open spec fn linked(
    start: Db,
    own: Map<u64, Text>,
    linker: Linker,
    collection: Text,
    links: Seq<(Text, Text)>,
    seq: u64,
    new: NewLinks,
    new_own: Map<u64, Text>,
) -> bool {
    let cur = apply(start, new.ops);
    &&& in_order(cur, new_own)
    &&& same_accounts_and_records(start, cur)
    &&& next_target(start)->Ok_0 <= next_target(cur)->Ok_0
    &&& new.seq <= next_target(cur)->Ok_0 <= new.seq + 1
    &&& seq <= new.seq <= seq + links.len()
    &&& forall|key: (Text, Text, Text)|
        TargetKey::fits(key) && target_id(start, key)->Ok_0 is None ==> id_within(
            #[trigger] target_id(cur, key),
            seq,
            new.seq,
        )
    &&& forall|key: (Text, Text, Text)|
        TargetKey::fits(key) ==> lists(
            #[trigger] target_id(cur, key),
            new.targets,
            entries(start, links, collection, key),
        )
    &&& new.targets.len() == links.len()
    &&& forall|i: int|
        0 <= i < links.len() ==> (#[trigger] new.targets[i]).0 == links[i].1 && link_ok(
            cur,
            new_own,
            (linker.0, collection, linker.1),
            new.targets,
            new.targets[i].1,
        )
    &&& forall|id: u64|
        (#[trigger] linkers_of(cur, id))->Ok_0.len() <= linkers_of(start, id)->Ok_0.len()
            + links.len()
    &&& forall|key: (Text, Text, Text)|
        TargetKey::fits(key) ==> {
            &&& target_id(start, key)->Ok_0 is Some ==> #[trigger] target_id(cur, key)
                == target_id(start, key)
            &&& target_id(start, key)->Ok_0 is None && times(links, collection, key) == 0
                ==> target_id(cur, key) == target_id(start, key)
        }
    &&& forall|key: (Text, Text, Text)|
        TargetKey::fits(key) ==> points(#[trigger] target_id(cur, key), new.targets, times(
            links,
            collection,
            key,
        ))
    &&& forall|key: (Text, Text, Text)|
        TargetKey::fits(key) ==> #[trigger] linkers_to(cur, key) == linkers_to(start, key) + copies(
            linker,
            entries(start, links, collection, key),
        )
}

/// New links leave all in order, and each is behind the linkers of its target.
pub proof fn lemma_new_links(
    base: Db,
    start: Db,
    own: Map<u64, Text>,
    linker: Linker,
    collection: Text,
    links: Seq<(Text, Text)>,
    seq: u64,
) -> (new_own: Map<u64, Text>)
    requires
        in_order(start, own),
        same_links(base, start),
        0 < linker.0 < next_did(start)->Ok_0,
        <String as Wire>::fits(linker.1),
        <String as Wire>::fits(collection),
        links_fit(links),
        seq <= next_target(start)->Ok_0 <= seq + 1,
        seq + links.len() < u64::MAX,
        roomy(start, links.len()),
    ensures
        new_links(base, linker, collection, links, seq) is Ok,
        linked(
            start,
            own,
            linker,
            collection,
            links,
            seq,
            new_links(base, linker, collection, links, seq)->Ok_0,
            new_own,
        ),
    decreases links.len(),
{
    if links.len() == 0 {
        let new = new_links(base, linker, collection, links, seq)->Ok_0;
        assert(apply(start, new.ops) == start);
        assert forall|key: (Text, Text, Text)| TargetKey::fits(key) implies points(
            #[trigger] target_id(start, key),
            new.targets,
            times(links, collection, key),
        ) by {}
        assert forall|key: (Text, Text, Text)| TargetKey::fits(key) implies lists(
            #[trigger] target_id(start, key),
            new.targets,
            entries(start, links, collection, key),
        ) by {}
        assert forall|key: (Text, Text, Text)| TargetKey::fits(key) implies #[trigger] linkers_to(
            start,
            key,
        ) == linkers_to(start, key) + copies(linker, entries(start, links, collection, key)) by {
            assert(copies(linker, 0) =~= Seq::empty());
        }
        own
    } else {
        let front_links = links.drop_last();
        let link = links.last();
        let key = (link.0, collection, link.1);
        assert(links[links.len() - 1] == link);
        assert(TargetKey::fits(key));
        assert(links_fit(front_links)) by {
            assert forall|i: int| 0 <= i < front_links.len() implies <String as Wire>::fits(
                (#[trigger] front_links[i]).0,
            ) && <String as Wire>::fits(front_links[i].1) by {
                assert(front_links[i] == links[i]);
            }
        }
        let front_own = lemma_new_links(base, start, own, linker, collection, front_links, seq);
        let front = new_links(base, linker, collection, front_links, seq)->Ok_0;
        let new = new_links(base, linker, collection, links, seq)->Ok_0;
        let mid = apply(start, front.ops);
        assert(target_id(base, key) == target_id(start, key));
        assert(target_id(start, key) is Ok);
        assert(target_id(mid, key) is Ok);
        assert(new_links(base, linker, collection, links, seq) is Ok);
        let bytes = TargetKey::bytes(key);
        let g = given::<TargetId>(
            row(base, Cf::TargetIds, bytes),
            Cf::TargetIds,
            bytes,
            front.seq,
            false,
        )->Ok_0;
        let id = g.value;
        let ready = apply(mid, g.ops);
        let cur = apply_op(ready, merge_op(id, linker));
        lemma_apply_concat(start, front.ops, g.ops.push(merge_op(id, linker)));
        lemma_apply_push(mid, g.ops, merge_op(id, linker));
        assert(apply(start, new.ops) == cur);
        let new_own = lemma_ready(start, mid, front_own, key, g.ops, id, front.seq, g.seq);
        assert(linkers_of(mid, id)->Ok_0.len() <= linkers_of(start, id)->Ok_0.len()
            + front_links.len());
        assert(linkers_of(start, id)->Ok_0.len() + links.len() <= u64::MAX);
        assert(linkers_of(ready, id) == linkers_of(mid, id));
        lemma_merge_keeps(ready, new_own, id, linker);
        assert forall|other: u64| other != id implies #[trigger] linkers_of(cur, other)
            == linkers_of(mid, other) by {
            assert(linkers_of(cur, other) == linkers_of(ready, other));
        }
        assert forall|other: (Text, Text, Text)| TargetKey::fits(other) && other
            != key implies #[trigger] target_id(cur, other) == target_id(mid, other) by {
            assert(target_id(cur, other) == target_id(ready, other));
        }
        assert(target_id(cur, key) == target_id(ready, key));
        lemma_linked(
            start,
            own,
            linker,
            collection,
            links,
            seq,
            front,
            new,
            front_own,
            new_own,
            mid,
            cur,
            id,
        );
        new_own
    }
}

/// A target that is linked to has an id, an old one or a new one.
proof fn lemma_ready(
    start: Db,
    mid: Db,
    own: Map<u64, Text>,
    key: (Text, Text, Text),
    ops: Seq<Op>,
    id: u64,
    seq: u64,
    next_seq: u64,
) -> (new_own: Map<u64, Text>)
    requires
        in_order(mid, own),
        TargetKey::fits(key),
        target_id(start, key) is Ok,
        seq <= next_target(mid)->Ok_0 <= seq + 1,
        seq + 1 < u64::MAX,
        match target_id(start, key)->Ok_0 {
            Some(old) => target_id(mid, key) == target_id(start, key) && id == old && ops
                == Seq::<Op>::empty() && next_seq == seq,
            None => id == seq + 1 && next_seq == seq + 1 && ops == seq![
                Op::Put { cf: Cf::Default, key: seq_key(Cf::TargetIds), value: le_bytes(id) },
                Op::Put {
                    cf: Cf::TargetIds,
                    key: TargetKey::bytes(key),
                    value: TargetId::bytes(id),
                },
            ],
        },
    ensures
        ({
            let ready = apply(mid, ops);
            &&& in_order(ready, new_own)
            &&& same_accounts_and_records(mid, ready)
            &&& next_target(mid)->Ok_0 <= next_target(ready)->Ok_0
            &&& next_seq <= next_target(ready)->Ok_0 <= next_seq + 1
            &&& target_id(start, key)->Ok_0 is None ==> id == next_seq
            &&& 0 < id < next_target(ready)->Ok_0
            &&& new_own[id] == key.1
            &&& target_id(ready, key) == Ok::<Option<u64>, Error>(Some(id))
            &&& forall|other: (Text, Text, Text)|
                TargetKey::fits(other) && other != key ==> #[trigger] target_id(ready, other)
                    == target_id(mid, other)
            &&& forall|other: u64| #[trigger] linkers_of(ready, other) == linkers_of(mid, other)
            &&& target_id(start, key)->Ok_0 is None ==> linkers_of(mid, id)->Ok_0.len() == 0
            &&& forall|other: u64|
                0 < other < next_target(mid)->Ok_0 ==> #[trigger] new_own[other] == own[other]
        }),
{
    match target_id(start, key)->Ok_0 {
        Some(old) => {
            assert(apply(mid, ops) == mid);
            own
        },
        None => {
            lemma_fresh_target(mid, own, key, id);
            let ready = apply(mid, ops);
            assert(linkers_of(ready, id) == linkers_of(mid, id));
            own.insert(id, key.1)
        },
    }
}

/// One more link leaves the targets of the record in order.
proof fn lemma_targets_linked(
    linker: Linker,
    collection: Text,
    targets: Seq<(Text, u64)>,
    target: (Text, u64),
    own: Map<u64, Text>,
    new_own: Map<u64, Text>,
    mid: Db,
    cur: Db,
)
    requires
        forall|i: int|
            0 <= i < targets.len() ==> link_ok(
                mid,
                own,
                (linker.0, collection, linker.1),
                targets,
                (#[trigger] targets[i]).1,
            ),
        next_target(mid)->Ok_0 <= next_target(cur)->Ok_0,
        0 < target.1 < next_target(cur)->Ok_0,
        new_own[target.1] == collection,
        forall|other: u64|
            0 < other < next_target(mid)->Ok_0 ==> #[trigger] new_own[other] == own[other],
        linkers_of(cur, target.1) == Ok::<Seq<Linker>, Error>(
            linkers_of(mid, target.1)->Ok_0.push(linker),
        ),
        forall|other: u64|
            other != target.1 ==> #[trigger] linkers_of(cur, other) == linkers_of(mid, other),
    ensures
        forall|i: int|
            0 <= i < targets.len() + 1 ==> link_ok(
                cur,
                new_own,
                (linker.0, collection, linker.1),
                targets.push(target),
                (#[trigger] targets.push(target)[i]).1,
            ),
{
    let record = (linker.0, collection, linker.1);
    let new = targets.push(target);
    assert forall|i: int| 0 <= i < targets.len() + 1 implies link_ok(
        cur,
        new_own,
        record,
        new,
        (#[trigger] new[i]).1,
    ) by {
        let id = new[i].1;
        let old = linkers_of(mid, id)->Ok_0;
        lemma_listed_push(targets, target, id);
        lemma_listed(targets, id);
        if links_to(targets, id) {
            let j = choose|j: int| 0 <= j < targets.len() && (#[trigger] targets[j]).1 == id;
            assert(link_ok(mid, own, record, targets, targets[j].1));
            assert(new_own[id] == own[id]);
        }
        if i < targets.len() {
            assert(new[i] == targets[i]);
        }
        if id == target.1 {
            lemma_occurrences_push(old, linker, linker);
        } else {
            assert(linkers_of(cur, id) == linkers_of(mid, id));
        }
    }
}

/// One more link changes the linkers of its target, and of no other.
proof fn lemma_linkers_to_linked(
    start: Db,
    linker: Linker,
    collection: Text,
    links: Seq<(Text, Text)>,
    mid: Db,
    cur: Db,
    id: u64,
    k: (Text, Text, Text),
)
    requires
        links.len() > 0,
        TargetKey::fits(k),
        TargetKey::fits((links.last().0, collection, links.last().1)),
        targets_ok(start),
        targets_ok(mid),
        targets_ok(cur),
        linkers_to(mid, k) == linkers_to(start, k) + copies(
            linker,
            entries(start, links.drop_last(), collection, k),
        ),
        ({
            let key = (links.last().0, collection, links.last().1);
            &&& target_id(cur, key) == Ok::<Option<u64>, Error>(Some(id))
            &&& target_id(start, key)->Ok_0 is Some ==> target_id(mid, key) == target_id(
                start,
                key,
            ) && target_id(start, key)->Ok_0 == Some(id)
            &&& target_id(start, key)->Ok_0 is None ==> linkers_of(mid, id)->Ok_0.len() == 0
            &&& k != key ==> target_id(cur, k) == target_id(mid, k)
        }),
        linkers_of(cur, id) == Ok::<Seq<Linker>, Error>(linkers_of(mid, id)->Ok_0.push(linker)),
        forall|other: u64|
            other != id ==> #[trigger] linkers_of(cur, other) == linkers_of(mid, other),
    ensures
        linkers_to(cur, k) == linkers_to(start, k) + copies(
            linker,
            entries(start, links, collection, k),
        ),
{
    let key = (links.last().0, collection, links.last().1);
    let front = links.drop_last();
    assert(target_id(start, k) is Ok);
    assert(target_id(mid, k) is Ok);
    assert(target_id(cur, k) is Ok);
    if k == key {
        let old = linkers_of(mid, id)->Ok_0;
        if target_id(start, k)->Ok_0 is Some {
            let n = entries(start, front, collection, k);
            assert(copies(linker, n + 1) =~= copies(linker, n).push(linker));
            assert((linkers_to(start, k) + copies(linker, n)).push(linker) =~= linkers_to(start, k)
                + copies(linker, n + 1));
        } else {
            assert(linkers_to(start, k) =~= Seq::empty());
            assert(old =~= Seq::empty());
            assert(entries(start, links, collection, k) == 1);
            assert(old.push(linker) =~= linkers_to(start, k) + copies(linker, 1));
        }
    } else if let Some(other) = target_id(mid, k)->Ok_0 {
        if other == id {
            assert(target_id(cur, k) == target_id(cur, key));
            assert(false);
        }
        assert(linkers_of(cur, other) == linkers_of(mid, other));
    }
}

/// One more link has the id of its target, and of no other.
proof fn lemma_points(
    linker: Linker,
    collection: Text,
    links: Seq<(Text, Text)>,
    targets: Seq<(Text, u64)>,
    mid: Db,
    cur: Db,
    id: u64,
    k: (Text, Text, Text),
)
    requires
        links.len() > 0,
        TargetKey::fits(k),
        TargetKey::fits((links.last().0, collection, links.last().1)),
        targets_ok(cur),
        points(target_id(mid, k), targets, times(links.drop_last(), collection, k)),
        ({
            let key = (links.last().0, collection, links.last().1);
            &&& target_id(cur, key) == Ok::<Option<u64>, Error>(Some(id))
            &&& k != key ==> target_id(cur, k) == target_id(mid, k)
        }),
    ensures
        points(
            target_id(cur, k),
            targets.push((links.last().1, id)),
            times(links, collection, k),
        ),
{
    let key = (links.last().0, collection, links.last().1);
    let new = targets.push((links.last().1, id));
    if k == key {
        assert(new[targets.len() as int].1 == id);
    } else if let Ok(Some(other)) = target_id(cur, k) {
        if other == id {
            assert(target_id(cur, k) == target_id(cur, key));
            assert(false);
        }
        if links_to(targets, other) {
            let i = choose|i: int| 0 <= i < targets.len() && (#[trigger] targets[i]).1 == other;
            assert(new[i].1 == other);
        }
        if links_to(new, other) {
            let i = choose|i: int| 0 <= i < new.len() && (#[trigger] new[i]).1 == other;
            assert(targets[i].1 == other);
        }
    }
}

/// One more link lists the id of its target once more, or for the first time, and no other.
proof fn lemma_lists(
    start: Db,
    collection: Text,
    links: Seq<(Text, Text)>,
    targets: Seq<(Text, u64)>,
    mid: Db,
    cur: Db,
    id: u64,
    k: (Text, Text, Text),
)
    requires
        links.len() > 0,
        TargetKey::fits(k),
        TargetKey::fits((links.last().0, collection, links.last().1)),
        targets_ok(start),
        targets_ok(cur),
        lists(target_id(mid, k), targets, entries(start, links.drop_last(), collection, k)),
        ({
            let key = (links.last().0, collection, links.last().1);
            &&& target_id(cur, key) == Ok::<Option<u64>, Error>(Some(id))
            &&& target_id(start, key)->Ok_0 is Some ==> target_id(mid, key) == target_id(cur, key)
            &&& target_id(start, key)->Ok_0 is None ==> !links_to(targets, id)
            &&& k != key ==> target_id(cur, k) == target_id(mid, k)
        }),
    ensures
        lists(
            target_id(cur, k),
            targets.push((links.last().1, id)),
            entries(start, links, collection, k),
        ),
{
    let key = (links.last().0, collection, links.last().1);
    assert(target_id(start, k) is Ok);
    if let Ok(Some(other)) = target_id(cur, k) {
        lemma_listed_push(targets, (links.last().1, id), other);
        lemma_listed(targets, other);
        if k != key && other == id {
            assert(target_id(cur, k) == target_id(cur, key));
            assert(false);
        }
    }
}

/// One more link is behind the linkers of its target.
proof fn lemma_linked(
    start: Db,
    own: Map<u64, Text>,
    linker: Linker,
    collection: Text,
    links: Seq<(Text, Text)>,
    seq: u64,
    front: NewLinks,
    new: NewLinks,
    front_own: Map<u64, Text>,
    new_own: Map<u64, Text>,
    mid: Db,
    cur: Db,
    id: u64,
)
    requires
        links.len() > 0,
        mid == apply(start, front.ops),
        cur == apply(start, new.ops),
        linked(start, own, linker, collection, links.drop_last(), seq, front, front_own),
        new.targets == front.targets.push((links.last().1, id)),
        front.seq <= new.seq <= front.seq + 1,
        target_id(start, (links.last().0, collection, links.last().1))->Ok_0 is None ==> id
            == new.seq && front.seq < new.seq,
        TargetKey::fits((links.last().0, collection, links.last().1)),
        in_order(start, own),
        in_order(cur, new_own),
        same_accounts_and_records(mid, cur),
        next_target(mid)->Ok_0 <= next_target(cur)->Ok_0,
        new.seq <= next_target(cur)->Ok_0 <= new.seq + 1,
        0 < id < next_target(cur)->Ok_0,
        new_own[id] == collection,
        ({
            let key = (links.last().0, collection, links.last().1);
            &&& target_id(cur, key) == Ok::<Option<u64>, Error>(Some(id))
            &&& target_id(start, key)->Ok_0 is Some ==> target_id(start, key)->Ok_0 == Some(id)
            &&& target_id(start, key)->Ok_0 is None ==> linkers_of(mid, id)->Ok_0.len() == 0
            &&& forall|other: (Text, Text, Text)|
                TargetKey::fits(other) && other != key ==> #[trigger] target_id(cur, other)
                    == target_id(mid, other)
        }),
        forall|other: u64|
            0 < other < next_target(mid)->Ok_0 ==> #[trigger] new_own[other] == front_own[other],
        linkers_of(cur, id) == Ok::<Seq<Linker>, Error>(linkers_of(mid, id)->Ok_0.push(linker)),
        forall|other: u64|
            other != id ==> #[trigger] linkers_of(cur, other) == linkers_of(mid, other),
    ensures
        linked(start, own, linker, collection, links, seq, new, new_own),
{
    let key = (links.last().0, collection, links.last().1);
    let front_links = links.drop_last();
    let record = (linker.0, collection, linker.1);
    assert forall|i: int| 0 <= i < front.targets.len() implies link_ok(
        mid,
        front_own,
        record,
        front.targets,
        (#[trigger] front.targets[i]).1,
    ) by {}
    lemma_targets_linked(
        linker,
        collection,
        front.targets,
        (links.last().1, id),
        front_own,
        new_own,
        mid,
        cur,
    );
    assert forall|i: int| 0 <= i < links.len() implies (#[trigger] new.targets[i]).0 == links[i].1
        && link_ok(cur, new_own, record, new.targets, new.targets[i].1) by {
        if i < front_links.len() {
            assert(new.targets[i] == front.targets[i]);
            assert(front_links[i] == links[i]);
        }
    }
    assert forall|other: u64|
        (#[trigger] linkers_of(cur, other))->Ok_0.len() <= linkers_of(start, other)->Ok_0.len()
            + links.len() by {
        assert(linkers_of(mid, other)->Ok_0.len() <= linkers_of(start, other)->Ok_0.len()
            + front_links.len());
        if other != id {
            assert(linkers_of(cur, other) == linkers_of(mid, other));
        }
    }
    assert forall|k: (Text, Text, Text)| TargetKey::fits(k) implies {
        &&& target_id(start, k)->Ok_0 is Some ==> #[trigger] target_id(cur, k) == target_id(
            start,
            k,
        )
        &&& target_id(start, k)->Ok_0 is None && times(links, collection, k) == 0 ==> target_id(
            cur,
            k,
        ) == target_id(start, k)
    } by {
        assert(target_id(start, k) is Ok);
        if k != key {
            assert(target_id(cur, k) == target_id(mid, k));
        }
    }
    assert forall|k: (Text, Text, Text)|
        TargetKey::fits(k) && target_id(start, k)->Ok_0 is None implies id_within(
        #[trigger] target_id(cur, k),
        seq,
        new.seq,
    ) by {
        if k != key {
            assert(target_id(cur, k) == target_id(mid, k));
        }
    }
    assert forall|k: (Text, Text, Text)| TargetKey::fits(k) implies points(
        #[trigger] target_id(cur, k),
        new.targets,
        times(links, collection, k),
    ) by {
        lemma_points(linker, collection, links, front.targets, mid, cur, id, k);
    }
    assert(target_id(start, key)->Ok_0 is None ==> !links_to(front.targets, id)) by {
        if links_to(front.targets, id) {
            let i = choose|i: int|
                0 <= i < front.targets.len() && (#[trigger] front.targets[i]).1 == id;
            assert(link_ok(mid, front_own, record, front.targets, front.targets[i].1));
        }
    }
    assert(target_id(start, key)->Ok_0 is Some ==> target_id(mid, key) == target_id(start, key));
    assert forall|k: (Text, Text, Text)| TargetKey::fits(k) implies lists(
        #[trigger] target_id(cur, k),
        new.targets,
        entries(start, links, collection, k),
    ) by {
        if k != key {
            assert(target_id(cur, k) == target_id(mid, k));
        }
        assert(lists(
            target_id(mid, k),
            front.targets,
            entries(start, front_links, collection, k),
        ));
        lemma_lists(start, collection, links, front.targets, mid, cur, id, k);
    }
    assert forall|k: (Text, Text, Text)| TargetKey::fits(k) implies #[trigger] linkers_to(cur, k)
        == linkers_to(start, k) + copies(linker, entries(start, links, collection, k)) by {
        assert(linkers_to(mid, k) == linkers_to(start, k) + copies(
            linker,
            entries(start, front_links, collection, k),
        ));
        if k != key {
            assert(target_id(cur, k) == target_id(mid, k));
        }
        assert(target_id(start, key)->Ok_0 is Some ==> target_id(mid, key) == target_id(
            start,
            key,
        ));
        lemma_linkers_to_linked(start, linker, collection, links, mid, cur, id, k);
    }
}

/// Whether a record fits the byte format.
pub open spec fn record_fits(record: (Text, Text, Text)) -> bool {
    <String as Wire>::fits(record.0) && <String as Wire>::fits(record.1) && <String as Wire>::fits(
        record.2,
    )
}

/// Whether there are ids left for an account and for `n` targets.
pub open spec fn ids_left(seqs: Seqs, n: nat) -> bool {
    &&& seqs.did + 1 < id_limit()
    &&& seqs.target + n < u64::MAX
}

/// What a record that came with links leaves behind.
pub open spec fn created(
    db: Db,
    record: (Text, Text, Text),
    links: Seq<(Text, Text)>,
    seqs: Seqs,
    after: Db,
    new_seqs: Seqs,
) -> bool {
    let (did, collection, rkey) = record;
    &&& follows(after, new_seqs)
    &&& seqs.did <= new_seqs.did <= seqs.did + 1
    &&& seqs.target <= new_seqs.target <= seqs.target + links.len()
    &&& did_value(db, did)->Ok_0 is Some ==> did_value(after, did) == did_value(db, did)
    &&& did_value(db, did)->Ok_0 is None ==> did_value(after, did) == Ok::<
        Option<(u64, bool)>,
        Error,
    >(Some(((seqs.did + 1) as u64, true)))
    &&& forall|other: Text|
        Did::fits(other) && other != did ==> #[trigger] did_value(after, other) == did_value(
            db,
            other,
        )
    &&& ({
        let did_id = did_value(after, did)->Ok_0.unwrap().0;
        &&& did_of_id(after, did_id) == Ok::<Option<Text>, Error>(Some(did))
        &&& forall|id: u64|
            id < id_limit() && id != did_id ==> #[trigger] did_of_id(after, id) == did_of_id(db, id)
        &&& record_targets(after, (did_id, collection, rkey)) matches Ok(Some(targets))
            && targets.len() == links.len() && (forall|i: int|
            0 <= i < links.len() ==> (#[trigger] targets[i]).0 == links[i].1) && (forall|
            key: (Text, Text, Text),
        |
            TargetKey::fits(key) ==> points(
                #[trigger] target_id(after, key),
                targets,
                times(links, collection, key),
            ) && lists(
                target_id(after, key),
                targets,
                entries(db, links, collection, key),
            ))
        &&& forall|other: (u64, Text, Text)|
            RecordLinkKey::fits(other) && other != (did_id, collection, rkey)
                ==> #[trigger] record_targets(after, other) == record_targets(db, other)
        &&& forall|key: (Text, Text, Text)|
            TargetKey::fits(key) ==> #[trigger] linkers_to(after, key) == linkers_to(db, key)
                + copies((did_id, rkey), entries(db, links, collection, key))
        &&& forall|id: u64|
            (#[trigger] linkers_of(after, id))->Ok_0.len() <= linkers_of(db, id)->Ok_0.len()
                + links.len()
        &&& forall|key: (Text, Text, Text)|
            TargetKey::fits(key) ==> kept_or_given(
                target_id(db, key),
                #[trigger] target_id(after, key),
                times(links, collection, key),
                seqs.target,
                new_seqs.target,
            )
    })
}

/// Whether a target that was stored has kept its id, one that was not stored and is linked to has a
/// new one, and one that was neither stored nor linked to is still not stored.
pub open spec fn kept_or_given(
    old: Result<Option<u64>, Error>,
    new: Result<Option<u64>, Error>,
    n: nat,
    seq: u64,
    new_seq: u64,
) -> bool {
    if old->Ok_0 is Some || n == 0 {
        new == old
    } else {
        new is Ok && new->Ok_0 is Some && seq < new->Ok_0.unwrap() <= new_seq
    }
}

/// A record that comes with links leaves all in order.
pub proof fn lemma_added(
    db: Db,
    own: Map<u64, Text>,
    record: (Text, Text, Text),
    links: Seq<(Text, Text)>,
    seqs: Seqs,
) -> (new_own: Map<u64, Text>)
    requires
        in_order(db, own),
        follows(db, seqs),
        record_fits(record),
        links_fit(links),
        ids_left(seqs, links.len()),
        roomy(db, links.len()),
    ensures
        added(db, record, links, seqs) is Ok,
        in_order(apply(db, added(db, record, links, seqs)->Ok_0.ops), new_own),
        cursor_of(apply(db, added(db, record, links, seqs)->Ok_0.ops)) == cursor_of(db),
        created(
            db,
            record,
            links,
            seqs,
            apply(db, added(db, record, links, seqs)->Ok_0.ops),
            added(db, record, links, seqs)->Ok_0.seqs,
        ),
{
    let (did, collection, rkey) = record;
    lemma_give_did(db, own, did, seqs.did);
    let bytes = Did::bytes(did);
    let g = given::<DidIdValue>(row(db, Cf::DidIds, bytes), Cf::DidIds, bytes, seqs.did, true)->Ok_0;
    let start = apply(db, g.ops);
    let did_id = g.value.0;
    let linker = (did_id, rkey);
    assert(did_value(start, did) == Ok::<Option<(u64, bool)>, Error>(Some(g.value)));
    assert(roomy(start, links.len())) by {
        assert forall|id: u64| (#[trigger] linkers_of(start, id))->Ok_0.len() + links.len()
            <= u64::MAX by {
            assert(linkers_of(start, id) == linkers_of(db, id));
        }
    }
    let new_own = lemma_new_links(db, start, own, linker, collection, links, seqs.target);
    let new = new_links(db, linker, collection, links, seqs.target)->Ok_0;
    let cur = apply(start, new.ops);
    let key = (did_id, collection, rkey);
    let put = Op::Put {
        cf: Cf::LinkTargets,
        key: RecordLinkKey::bytes(key),
        value: RecordLinkTargets::bytes(new.targets),
    };
    let after = apply_op(cur, put);
    lemma_apply_concat(db, g.ops, new.ops);
    lemma_apply_push(db, g.ops + new.ops, put);
    assert(did_value(cur, did) == did_value(start, did));
    assert(RecordLinkTargets::fits(new.targets)) by {
        assert forall|i: int| 0 <= i < new.targets.len() implies <(String, u64) as Wire>::fits(
            #[trigger] new.targets[i],
        ) by {
            assert(<String as Wire>::fits(links[i].1));
        }
    }
    lemma_put_record_keeps(cur, new_own, key, new.targets);
    assert forall|other: Text| Did::fits(other) && other != did implies #[trigger] did_value(
        after,
        other,
    ) == did_value(db, other) by {
        assert(did_value(after, other) == did_value(cur, other));
        assert(did_value(cur, other) == did_value(start, other));
    }
    assert forall|id: u64| id < id_limit() && id != did_id implies #[trigger] did_of_id(after, id)
        == did_of_id(db, id) by {
        assert(did_of_id(after, id) == did_of_id(cur, id));
        assert(did_of_id(cur, id) == did_of_id(start, id));
    }
    assert(did_of_id(after, did_id) == did_of_id(cur, did_id));
    assert(did_value(after, did) == did_value(cur, did));
    assert forall|other: (u64, Text, Text)|
        RecordLinkKey::fits(other) && other != key implies #[trigger] record_targets(
        after,
        other,
    )
        == record_targets(db, other) by {
        assert(record_targets(after, other) == record_targets(cur, other));
        assert(record_targets(cur, other) == record_targets(start, other));
    }
    assert forall|k: (Text, Text, Text)| TargetKey::fits(k) implies points(
        #[trigger] target_id(after, k),
        new.targets,
        times(links, collection, k),
    ) && lists(target_id(after, k), new.targets, entries(db, links, collection, k)) by {
        assert(target_id(after, k) == target_id(cur, k));
        assert(target_id(start, k) == target_id(db, k));
    }
    assert forall|id: u64|
        (#[trigger] linkers_of(after, id))->Ok_0.len() <= linkers_of(db, id)->Ok_0.len()
            + links.len() by {
        assert(linkers_of(after, id) == linkers_of(cur, id));
        assert(linkers_of(start, id) == linkers_of(db, id));
    }
    assert forall|k: (Text, Text, Text)| TargetKey::fits(k) implies kept_or_given(
        target_id(db, k),
        #[trigger] target_id(after, k),
        times(links, collection, k),
        seqs.target,
        new.seq,
    ) by {
        assert(target_id(after, k) == target_id(cur, k));
        assert(target_id(start, k) == target_id(db, k));
        assert(target_id(db, k) is Ok);
        assert(target_id(cur, k) is Ok);
    }
    assert forall|k: (Text, Text, Text)| TargetKey::fits(k) implies #[trigger] linkers_to(after, k)
        == linkers_to(db, k) + copies(linker, entries(db, links, collection, k)) by {
        assert(target_id(after, k) == target_id(cur, k));
        if let Ok(Some(id)) = target_id(cur, k) {
            assert(linkers_of(after, id) == linkers_of(cur, id));
        }
        assert(linkers_to(after, k) == linkers_to(cur, k));
        assert(target_id(start, k) == target_id(db, k));
        if let Ok(Some(id)) = target_id(start, k) {
            assert(linkers_of(start, id) == linkers_of(db, id));
        }
        assert(linkers_to(start, k) == linkers_to(db, k));
    }
    new_own
}

/// A record that comes with links can always come, and leaves the database in order. Its account
/// is stored; the record has its links; each of them is behind the linkers of its target; and
/// nothing else has changed but the cursor.
pub proof fn law_create(
    db: Db,
    record: (Text, Text, Text),
    links: Seq<(Text, Text)>,
    cursor: u64,
    seqs: Seqs,
)
    requires
        consistent(db),
        follows(db, seqs),
        record_fits(record),
        links_fit(links),
        ids_left(seqs, links.len()),
        roomy(db, links.len()),
    ensures
        ({
            let p = pushed(db, Event::CreateLinks { record, links }, cursor, seqs);
            let after = apply_all(db, p->Ok_0.batches);
            &&& p is Ok
            &&& consistent(after)
            &&& created(db, record, links, seqs, after, p->Ok_0.seqs)
            &&& cursor_of(after) == Ok::<Option<u64>, Error>(Some(cursor))
        }),
{
    let own = choose|own: Map<u64, Text>| in_order(db, own);
    let new_own = lemma_added(db, own, record, links, seqs);
    let effect = added(db, record, links, seqs)->Ok_0;
    let mid = apply(db, effect.ops);
    let p = pushed(db, Event::CreateLinks { record, links }, cursor, seqs)->Ok_0;
    let after = apply_all(db, p.batches);
    lemma_one_batch(db, effect.ops, cursor, effect.seqs);
    lemma_cursor_keeps(mid, new_own, cursor);
    lemma_created_cursor(db, record, links, seqs, mid, after, effect.seqs);
}

/// One batch is written as its changes and the cursor.
pub proof fn lemma_one_batch(db: Db, ops: Seq<Op>, cursor: u64, seqs: Seqs)
    ensures
        apply_all(db, one_batch(ops, cursor, seqs).batches) == apply_op(
            apply(db, ops),
            cursor_op(cursor),
        ),
{
    let batch = ops.push(cursor_op(cursor));
    assert(seq![batch].drop_last() =~= Seq::empty());
    assert(apply_all(db, Seq::<Seq<Op>>::empty()) == db);
    lemma_apply_push(db, ops, cursor_op(cursor));
}

/// What a record leaves behind does not depend on the cursor.
pub proof fn lemma_created_cursor(
    db: Db,
    record: (Text, Text, Text),
    links: Seq<(Text, Text)>,
    seqs: Seqs,
    mid: Db,
    after: Db,
    new_seqs: Seqs,
)
    requires
        created(db, record, links, seqs, mid, new_seqs),
        same_but_cursor(mid, after),
    ensures
        created(db, record, links, seqs, after, new_seqs),
{
    let (did, collection, rkey) = record;
    let did_id = did_value(mid, did)->Ok_0.unwrap().0;
    assert(did_value(after, did) == did_value(mid, did));
    assert(did_of_id(after, did_id) == did_of_id(mid, did_id));
    assert(record_targets(after, (did_id, collection, rkey)) == record_targets(
        mid,
        (did_id, collection, rkey),
    ));
    let targets = record_targets(mid, (did_id, collection, rkey))->Ok_0.unwrap();
    assert forall|key: (Text, Text, Text)| TargetKey::fits(key) implies points(
        #[trigger] target_id(after, key),
        targets,
        times(links, collection, key),
    ) && lists(target_id(after, key), targets, entries(db, links, collection, key)) by {
        assert(target_id(after, key) == target_id(mid, key));
    }
    assert forall|other: Text| Did::fits(other) && other != did implies #[trigger] did_value(
        after,
        other,
    ) == did_value(db, other) by {
        assert(did_value(after, other) == did_value(mid, other));
    }
    assert forall|id: u64| id < id_limit() && id != did_id implies #[trigger] did_of_id(after, id)
        == did_of_id(db, id) by {
        assert(did_of_id(after, id) == did_of_id(mid, id));
    }
    assert forall|other: (u64, Text, Text)|
        RecordLinkKey::fits(other) && other != (did_id, collection, rkey) implies #[trigger] record_targets(
        after,
        other,
    )
        == record_targets(db, other) by {
        assert(record_targets(after, other) == record_targets(mid, other));
    }
    assert forall|key: (Text, Text, Text)| TargetKey::fits(key) implies #[trigger] linkers_to(
        after,
        key,
    ) == linkers_to(db, key) + copies((did_id, rkey), entries(db, links, collection, key)) by {
        lemma_linkers_to_same(mid, after, key);
    }
    assert forall|id: u64|
        (#[trigger] linkers_of(after, id))->Ok_0.len() <= linkers_of(db, id)->Ok_0.len()
            + links.len() by {
        assert(linkers_of(after, id) == linkers_of(mid, id));
    }
    assert forall|key: (Text, Text, Text)| TargetKey::fits(key) implies kept_or_given(
        target_id(db, key),
        #[trigger] target_id(after, key),
        times(links, collection, key),
        seqs.target,
        new_seqs.target,
    ) by {
        assert(target_id(after, key) == target_id(mid, key));
    }
}

/// The linkers of a target are the same where the targets and the linkers are.
pub proof fn lemma_linkers_to_same(a: Db, b: Db, key: (Text, Text, Text))
    requires
        forall|key: (Text, Text, Text)| #[trigger] target_id(b, key) == target_id(a, key),
        forall|id: u64| #[trigger] linkers_of(b, id) == linkers_of(a, id),
    ensures
        linkers_to(b, key) == linkers_to(a, key),
{
    assert(target_id(b, key) == target_id(a, key));
    if let Ok(Some(id)) = target_id(a, key) {
        assert(linkers_of(b, id) == linkers_of(a, id));
    }
}

}
