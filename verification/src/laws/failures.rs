//! When events cannot happen, and how the changes of those that can are written.
use crate::db::{
    apply, apply_all, apply_op, lemma_apply_concat, lemma_apply_one, lemma_apply_push, row, Cf, Db,
    Op,
};
use crate::error::Error;
use crate::events::{links_view, ActionableEvent, CollectedLink, Link, RecordId};
use crate::id_table::given;
use crate::laws::asking::lemma_linkers_len;
use crate::laws::creating::lemma_one_batch;
use crate::laws::deleting::Record;
use crate::laws::merging::law_unlinked;
use crate::laws::removing::{lemma_lighter_fits, lighter};
use crate::laws::rows::{lemma_put_linkers, lemma_same_but};
use crate::linkers::{tombstone, unlinked};
use crate::model::{
    account_set, chunk, chunk_batches, chunk_count, chunk_ops, cursor_op, delete_record_op,
    did_value, linkers_of, new_links, pushed, record_targets, records_of, target_id, unlink_each,
    unlink_op, unlink_ops, CHUNK, Pushed, Seqs,
};
use crate::records::{Did, DidIdValue, Linker, Stored, Text};
use vstd::prelude::*;
use vstd::utf8::encode_utf8;

verus! {

// ---------------------------------------------------------------------------------------------
// records that come

/// Which of the links are new, and how far they move the sequence.
proof fn lemma_new_links_ok(
    db: Db,
    linker: Linker,
    collection: Text,
    links: Seq<CollectedLink>,
    seq: u64,
)
    ensures
        new_links(db, linker, collection, links_view(links), seq) is Ok <==> (forall|i: int|
            0 <= i < links.len() ==> target_id(
                db,
                (
                    match (#[trigger] links[i]).target {
                        Link::AtUri(s) => s@,
                        Link::Uri(s) => s@,
                        Link::Did(s) => s@,
                    },
                    collection,
                    links[i].path@,
                ),
            ) is Ok) && seq + links.filter(
            |l: CollectedLink|
                target_id(
                    db,
                    (
                        match l.target {
                            Link::AtUri(s) => s@,
                            Link::Uri(s) => s@,
                            Link::Did(s) => s@,
                        },
                        collection,
                        l.path@,
                    ),
                ) == Ok::<Option<u64>, Error>(None),
        ).len() <= u64::MAX,
        new_links(db, linker, collection, links_view(links), seq) matches Ok(new) ==> new.seq == seq
            + links.filter(
            |l: CollectedLink|
                target_id(
                    db,
                    (
                        match l.target {
                            Link::AtUri(s) => s@,
                            Link::Uri(s) => s@,
                            Link::Did(s) => s@,
                        },
                        collection,
                        l.path@,
                    ),
                ) == Ok::<Option<u64>, Error>(None),
        ).len(),
    decreases links.len(),
{
    reveal(Seq::filter);
    let fresh = |l: CollectedLink|
        target_id(
            db,
            (
                match l.target {
                    Link::AtUri(s) => s@,
                    Link::Uri(s) => s@,
                    Link::Did(s) => s@,
                },
                collection,
                l.path@,
            ),
        ) == Ok::<Option<u64>, Error>(None);
    if links.len() > 0 {
        let front = links.drop_last();
        lemma_new_links_ok(db, linker, collection, front, seq);
        assert(links_view(links).drop_last() =~= links_view(front));
        let last = links.last();
        assert(links_view(links).last() == last@);
        assert(links[links.len() - 1] == last);
        let key = (last@.0, collection, last@.1);
        assert(links.filter(fresh).len() == front.filter(fresh).len() + if fresh(last) {
            1int
        } else {
            0
        });
        assert forall|i: int| 0 <= i < front.len() implies #[trigger] front[i] == links[i] by {}
        if new_links(db, linker, collection, links_view(front), seq) is Ok {
            assert(forall|i: int|
                0 <= i < front.len() ==> target_id(
                    db,
                    (
                        match (#[trigger] links[i]).target {
                            Link::AtUri(s) => s@,
                            Link::Uri(s) => s@,
                            Link::Did(s) => s@,
                        },
                        collection,
                        links[i].path@,
                    ),
                ) is Ok) by {
                assert forall|i: int| 0 <= i < front.len() implies target_id(
                    db,
                    (
                        match (#[trigger] links[i]).target {
                            Link::AtUri(s) => s@,
                            Link::Uri(s) => s@,
                            Link::Did(s) => s@,
                        },
                        collection,
                        links[i].path@,
                    ),
                ) is Ok by {
                    assert(front[i] == links[i]);
                }
            }
            if target_id(db, key) is Ok {
                assert forall|i: int| 0 <= i < links.len() implies target_id(
                    db,
                    (
                        match (#[trigger] links[i]).target {
                            Link::AtUri(s) => s@,
                            Link::Uri(s) => s@,
                            Link::Did(s) => s@,
                        },
                        collection,
                        links[i].path@,
                    ),
                ) is Ok by {}
            }
        } else if forall|i: int|
            0 <= i < links.len() ==> target_id(
                db,
                (
                    match (#[trigger] links[i]).target {
                        Link::AtUri(s) => s@,
                        Link::Uri(s) => s@,
                        Link::Did(s) => s@,
                    },
                    collection,
                    links[i].path@,
                ),
            ) is Ok {
            assert forall|i: int| 0 <= i < front.len() implies target_id(
                db,
                (
                    match (#[trigger] front[i]).target {
                        Link::AtUri(s) => s@,
                        Link::Uri(s) => s@,
                        Link::Did(s) => s@,
                    },
                    collection,
                    front[i].path@,
                ),
            ) is Ok by {
                assert(front[i] == links[i]);
            }
        }
    } else {
        assert(links_view(links) =~= Seq::empty());
    }
}

/// A record can come with its links exactly where what is stored of its account and of its targets
/// can be read and there are ids left: one for the account where it is new, and one for each link
/// to a target that is not stored. It takes as many.
pub proof fn law_create_possible(
    db: Db,
    record_id: RecordId,
    links: Vec<CollectedLink>,
    cursor: u64,
    seqs: Seqs,
)
    ensures
        ({
            let p = pushed(db, ActionableEvent::CreateLinks { record_id, links }@, cursor, seqs);
            let fresh = links@.filter(
                |l: CollectedLink|
                    target_id(
                        db,
                        (
                            match l.target {
                                Link::AtUri(s) => s@,
                                Link::Uri(s) => s@,
                                Link::Did(s) => s@,
                            },
                            record_id.collection@,
                            l.path@,
                        ),
                    ) == Ok::<Option<u64>, Error>(None),
            ).len();
            let new_did = did_value(db, record_id.did.0@) == Ok::<Option<(u64, bool)>, Error>(None);
            &&& p is Ok <==> {
                &&& did_value(db, record_id.did.0@) is Ok
                &&& new_did ==> seqs.did < u64::MAX
                &&& seqs.target + fresh <= u64::MAX
                &&& forall|i: int|
                    0 <= i < links@.len() ==> target_id(
                        db,
                        (
                            match (#[trigger] links@[i]).target {
                                Link::AtUri(s) => s@,
                                Link::Uri(s) => s@,
                                Link::Did(s) => s@,
                            },
                            record_id.collection@,
                            links@[i].path@,
                        ),
                    ) is Ok
            }
            &&& p is Ok ==> {
                &&& p->Ok_0.seqs.target == seqs.target + fresh
                &&& p->Ok_0.seqs.did == if new_did {
                    seqs.did + 1
                } else {
                    seqs.did as int
                }
            }
            &&& did_value(db, record_id.did.0@) matches Err(e) ==> p == Err::<Pushed, Error>(e)
            &&& new_did && seqs.did == u64::MAX ==> p == Err::<Pushed, Error>(
                Error::SequenceExhausted,
            )
        }),
{
    let did = record_id.did.0@;
    if let Ok(g) = given::<DidIdValue>(
        row(db, Cf::DidIds, Did::bytes(did)),
        Cf::DidIds,
        Did::bytes(did),
        seqs.did,
        true,
    ) {
        lemma_new_links_ok(
            db,
            (g.value.0, record_id.rkey@),
            record_id.collection@,
            links@,
            seqs.target,
        );
    }
}

// ---------------------------------------------------------------------------------------------
// records that go

/// Links can leave their targets exactly where each of them is among the linkers of its target.
proof fn lemma_unlink_ops_ok(db: Db, linker: Linker, targets: Seq<(Text, u64)>)
    ensures
        unlink_ops(db, linker, targets) is Ok <==> forall|i: int|
            0 <= i < targets.len() ==> (linkers_of(db, (#[trigger] targets[i]).1) matches Ok(l)
                && l.contains(linker)),
        forall|i: int|
            0 <= i < targets.len() && (forall|j: int|
                0 <= j < i ==> (linkers_of(db, (#[trigger] targets[j]).1) matches Ok(l)
                    && l.contains(linker))) ==> match linkers_of(db, (#[trigger] targets[i]).1) {
                Err(e) => unlink_ops(db, linker, targets) == Err::<Seq<Op>, Error>(e),
                Ok(l) => l.contains(linker) || unlink_ops(db, linker, targets) == Err::<
                    Seq<Op>,
                    Error,
                >(
                    if l.len() == 0 {
                        Error::EmptyTarget
                    } else {
                        Error::MissingLinker
                    },
                ),
            },
    decreases targets.len(),
{
    if targets.len() > 0 {
        let front = targets.drop_last();
        lemma_unlink_ops_ok(db, linker, front);
        let m = targets.len() - 1;
        assert(targets[m] == targets.last());
        assert forall|i: int| 0 <= i < front.len() implies #[trigger] front[i] == targets[i] by {}
        if forall|j: int|
            0 <= j < m ==> (linkers_of(db, (#[trigger] targets[j]).1) matches Ok(l) && l.contains(
                linker,
            )) {
            assert forall|j: int| 0 <= j < front.len() implies (linkers_of(
                db,
                (#[trigger] front[j]).1,
            ) matches Ok(l) && l.contains(linker)) by {
                assert(front[j] == targets[j]);
            }
        } else {
            let j = choose|j: int|
                0 <= j < m && !(linkers_of(db, (#[trigger] targets[j]).1) matches Ok(l)
                    && l.contains(linker));
            assert(front[j] == targets[j]);
        }
        assert forall|i: int|
            0 <= i < targets.len() && (forall|j: int|
                0 <= j < i ==> (linkers_of(db, (#[trigger] targets[j]).1) matches Ok(l)
                    && l.contains(linker))) implies match linkers_of(db, (#[trigger] targets[i]).1) {
            Err(e) => unlink_ops(db, linker, targets) == Err::<Seq<Op>, Error>(e),
            Ok(l) => l.contains(linker) || unlink_ops(db, linker, targets) == Err::<
                Seq<Op>,
                Error,
            >(
                if l.len() == 0 {
                    Error::EmptyTarget
                } else {
                    Error::MissingLinker
                },
            ),
        } by {
            if i < m {
                assert(front[i] == targets[i]);
                assert forall|j: int| 0 <= j < i implies (linkers_of(
                    db,
                    (#[trigger] front[j]).1,
                ) matches Ok(l) && l.contains(linker)) by {
                    assert(front[j] == targets[j]);
                }
            }
        }
    }
}

/// A record that is not stored can go, and changes nothing but the cursor. One that is stored can
/// go exactly where each of its links is among the linkers of its target; where one is not, the
/// first such link says why.
pub proof fn law_delete_possible(db: Db, record_id: RecordId, cursor: u64, seqs: Seqs)
    ensures
        ({
            let p = pushed(db, ActionableEvent::DeleteRecord(record_id)@, cursor, seqs);
            let same = db.insert(
                (Cf::Default, encode_utf8("jetstream_cursor"@)),
                <u64 as Stored>::bytes(cursor),
            );
            &&& p is Ok ==> p->Ok_0.seqs == seqs
            &&& match did_value(db, record_id.did.0@) {
                Err(e) => p == Err::<Pushed, Error>(e),
                Ok(None) => p is Ok && apply_all(db, p->Ok_0.batches) == same,
                Ok(Some((did_id, _))) => match record_targets(
                    db,
                    (did_id, record_id.collection@, record_id.rkey@),
                ) {
                    Err(e) => p == Err::<Pushed, Error>(e),
                    Ok(None) => p is Ok && apply_all(db, p->Ok_0.batches) == same,
                    Ok(Some(targets)) => {
                        let linker = (did_id, record_id.rkey@);
                        &&& p is Ok <==> forall|i: int|
                            0 <= i < targets.len() ==> (linkers_of(db, (#[trigger] targets[i]).1)
                                matches Ok(l) && l.contains(linker))
                        &&& forall|i: int|
                            0 <= i < targets.len() && (forall|j: int|
                                0 <= j < i ==> (linkers_of(db, (#[trigger] targets[j]).1)
                                    matches Ok(l) && l.contains(linker))) ==> match linkers_of(
                                db,
                                (#[trigger] targets[i]).1,
                            ) {
                                Err(e) => p == Err::<Pushed, Error>(e),
                                Ok(l) => l.contains(linker) || p == Err::<Pushed, Error>(
                                    if l.len() == 0 {
                                        Error::EmptyTarget
                                    } else {
                                        Error::MissingLinker
                                    },
                                ),
                            }
                    },
                },
            }
        }),
{
    let p = pushed(db, ActionableEvent::DeleteRecord(record_id)@, cursor, seqs);
    if let Ok(Some((did_id, _))) = did_value(db, record_id.did.0@) {
        if let Ok(Some(targets)) = record_targets(
            db,
            (did_id, record_id.collection@, record_id.rkey@),
        ) {
            lemma_unlink_ops_ok(db, (did_id, record_id.rkey@), targets);
        }
    }
    lemma_one_batch(db, Seq::empty(), cursor, seqs);
    assert(apply(db, Seq::empty()) == db);
}

/// An account that is not stored changes nothing but the cursor, whatever becomes of it. One whose
/// row cannot be read cannot change.
pub proof fn law_account_possible(db: Db, did: Did, active: bool, cursor: u64, seqs: Seqs)
    ensures
        ({
            let switch = if active {
                ActionableEvent::ActivateAccount(did)
            } else {
                ActionableEvent::DeactivateAccount(did)
            };
            let p = pushed(db, switch@, cursor, seqs);
            let q = pushed(db, ActionableEvent::DeleteAccount(did)@, cursor, seqs);
            let same = db.insert(
                (Cf::Default, encode_utf8("jetstream_cursor"@)),
                <u64 as Stored>::bytes(cursor),
            );
            match did_value(db, did.0@) {
                Err(e) => p == Err::<Pushed, Error>(e) && q == Err::<Pushed, Error>(e),
                Ok(None) => {
                    &&& p is Ok
                    &&& p->Ok_0.seqs == seqs
                    &&& apply_all(db, p->Ok_0.batches) == same
                    &&& q is Ok
                    &&& q->Ok_0.seqs == seqs
                    &&& apply_all(db, q->Ok_0.batches) == same
                },
                Ok(Some((id, _))) => p is Ok && p->Ok_0.seqs == seqs && apply_all(
                    db,
                    p->Ok_0.batches,
                ) == same.insert(
                    (Cf::DidIds, Did::bytes(did.0@)),
                    DidIdValue::bytes((id, active)),
                ),
            }
        }),
{
    let switch = if active {
        ActionableEvent::ActivateAccount(did)
    } else {
        ActionableEvent::DeactivateAccount(did)
    };
    assert(apply(db, Seq::empty()) == db);
    match did_value(db, did.0@) {
        Err(e) => {},
        Ok(None) => {
            lemma_one_batch(db, Seq::empty(), cursor, seqs);
            let last = Seq::<Op>::empty().push(cursor_op(cursor));
            let batches = Seq::<Seq<Op>>::empty().push(last);
            assert(batches.drop_last() =~= Seq::empty());
            assert(apply_all(db, Seq::<Seq<Op>>::empty()) == db);
            lemma_apply_push(db, Seq::empty(), cursor_op(cursor));
        },
        Ok(Some((id, _))) => {
            let ops = account_set(db, did.0@, active)->Ok_0;
            lemma_one_batch(db, ops, cursor, seqs);
            lemma_apply_one(db, ops[0]);
            assert(ops =~= seq![ops[0]]);
            let key = (Cf::DidIds, Did::bytes(did.0@));
            let value = DidIdValue::bytes((id, active));
            let row = (Cf::Default, encode_utf8("jetstream_cursor"@));
            let n = <u64 as Stored>::bytes(cursor);
            assert(db.insert(key, value).insert(row, n) =~= db.insert(row, n).insert(key, value));
        },
    }
}

// ---------------------------------------------------------------------------------------------
// accounts that go

/// Whether linkers that can be read could be read before, and had all links that they have.
spec fn no_more(old: Result<Seq<Linker>, Error>, new: Result<Seq<Linker>, Error>) -> bool {
    new is Ok ==> old is Ok && forall|e: Linker|
        e.0 != 0 && #[trigger] new->Ok_0.contains(e) ==> old->Ok_0.contains(e)
}

/// Whether no target has a link that it did not have.
spec fn fewer(a: Db, b: Db) -> bool {
    forall|id: u64| no_more(linkers_of(a, id), #[trigger] linkers_of(b, id))
}

/// Links that could leave their targets one after the other were among their linkers.
proof fn lemma_unlink_each_had(start: Db, linker: Linker, targets: Seq<(Text, u64)>)
    requires
        linker.0 != 0,
        unlink_each(start, linker, targets) is Ok,
    ensures
        fewer(start, apply(start, unlink_each(start, linker, targets)->Ok_0)),
        forall|i: int|
            0 <= i < targets.len() ==> (linkers_of(start, (#[trigger] targets[i]).1) matches Ok(l)
                && l.contains(linker)),
    decreases targets.len(),
{
    if targets.len() == 0 {
        assert(apply(start, Seq::empty()) == start);
    } else {
        let front = targets.drop_last();
        lemma_unlink_each_had(start, linker, front);
        let front_ops = unlink_each(start, linker, front)->Ok_0;
        let mid = apply(start, front_ops);
        let id = targets.last().1;
        let op = unlink_op(mid, linker, id, false)->Ok_0;
        lemma_apply_push(start, front_ops, op);
        let cur = apply_op(mid, op);
        lemma_linkers_len(mid, id);
        let old = linkers_of(mid, id)->Ok_0;
        law_unlinked(old, linker);
        let rest = unlinked(old, linker).unwrap();
        assert(lighter(old, rest, linker));
        lemma_lighter_fits(old, rest, linker);
        lemma_put_linkers(mid, id, rest);
        assert forall|other: u64| no_more(
            linkers_of(start, other),
            #[trigger] linkers_of(cur, other),
        ) by {
            assert(no_more(linkers_of(start, other), linkers_of(mid, other)));
            if other == id {
                let was = linkers_of(start, id)->Ok_0;
                assert forall|e: Linker| e.0 != 0 && #[trigger] rest.contains(e) implies was.contains(
                    e,
                ) by {
                    let i = rest.index_of(e);
                    assert(rest[i] == old[i] || (old[i] == linker && rest[i] == tombstone()));
                    assert(old[i] == e);
                    assert(old.contains(e));
                }
            } else {
                assert(linkers_of(cur, other) == linkers_of(mid, other));
            }
        }
        assert forall|i: int| 0 <= i < targets.len() implies (linkers_of(
            start,
            (#[trigger] targets[i]).1,
        ) matches Ok(l) && l.contains(linker)) by {
            if i < front.len() {
                assert(front[i] == targets[i]);
            } else {
                assert(no_more(linkers_of(start, id), linkers_of(mid, id)));
                assert(old.contains(linker));
            }
        }
    }
}

/// Records that could go together had their links among the linkers of their targets.
proof fn lemma_chunk_had(base: Db, did_id: u64, records: Seq<Record>)
    requires
        did_id != 0,
        chunk_ops(base, did_id, records) is Ok,
    ensures
        fewer(base, apply(base, chunk_ops(base, did_id, records)->Ok_0)),
        forall|k: int, i: int|
            #![trigger records[k].1[i]]
            0 <= k < records.len() && 0 <= i < records[k].1.len() ==> (linkers_of(
                base,
                records[k].1[i].1,
            ) matches Ok(l) && l.contains((did_id, records[k].0.2))),
    decreases records.len(),
{
    if records.len() == 0 {
        assert(apply(base, Seq::empty()) == base);
    } else {
        let front = records.drop_last();
        lemma_chunk_had(base, did_id, front);
        let front_ops = chunk_ops(base, did_id, front)->Ok_0;
        let mid = apply(base, front_ops);
        let (key, targets) = records.last();
        let del = delete_record_op(key);
        lemma_apply_push(base, front_ops, del);
        let start = apply_op(mid, del);
        lemma_same_but(mid, del);
        let linker = (did_id, key.2);
        lemma_unlink_each_had(start, linker, targets);
        let ops = unlink_each(start, linker, targets)->Ok_0;
        lemma_apply_concat(base, front_ops.push(del), ops);
        let after = apply(start, ops);
        lemma_fewer(base, mid, start, after);
        assert forall|k: int, i: int|
            #![trigger records[k].1[i]]
            0 <= k < records.len() && 0 <= i < records[k].1.len() implies (linkers_of(
            base,
            records[k].1[i].1,
        ) matches Ok(l) && l.contains((did_id, records[k].0.2))) by {
            if k < front.len() {
                assert(front[k] == records[k]);
                assert(front[k].1[i] == records[k].1[i]);
            } else {
                let id = targets[i].1;
                assert(linkers_of(start, id) is Ok);
                assert(linkers_of(start, id) == linkers_of(mid, id));
                assert(no_more(linkers_of(base, id), linkers_of(mid, id)));
                assert(linkers_of(mid, id)->Ok_0.contains(linker));
            }
        }
    }
}

proof fn lemma_fewer(base: Db, mid: Db, start: Db, after: Db)
    requires
        fewer(base, mid),
        forall|id: u64| #[trigger] linkers_of(start, id) == linkers_of(mid, id),
        fewer(start, after),
    ensures
        fewer(base, after),
{
    assert forall|id: u64| no_more(linkers_of(base, id), #[trigger] linkers_of(after, id)) by {
        assert(linkers_of(start, id) == linkers_of(mid, id));
        assert(no_more(linkers_of(base, id), linkers_of(mid, id)));
        assert(no_more(linkers_of(start, id), linkers_of(after, id)));
    }
}

/// Chunks that could go had their links among the linkers of their targets.
proof fn lemma_batches_had(db: Db, did_id: u64, records: Seq<Record>, n: nat)
    requires
        did_id != 0,
        n <= chunk_count(records.len()),
        chunk_batches(db, did_id, records, n) is Ok,
    ensures
        fewer(db, apply_all(db, chunk_batches(db, did_id, records, n)->Ok_0)),
        forall|k: int, i: int|
            #![trigger records[k].1[i]]
            0 <= k < records.len() && k < n * CHUNK && 0 <= i < records[k].1.len() ==> (linkers_of(
                db,
                records[k].1[i].1,
            ) matches Ok(l) && l.contains((did_id, records[k].0.2))),
    decreases n,
{
    if n == 0 {
        assert(apply_all(db, Seq::<Seq<Op>>::empty()) == db);
    } else {
        let m = (n - 1) as nat;
        lemma_batches_had(db, did_id, records, m);
        let front = chunk_batches(db, did_id, records, m)->Ok_0;
        let mid = apply_all(db, front);
        let part = chunk(records, m);
        lemma_chunk_had(mid, did_id, part);
        let ops = chunk_ops(mid, did_id, part)->Ok_0;
        assert(front.push(ops).drop_last() =~= front);
        lemma_fewer(db, mid, mid, apply(mid, ops));
        let begin = m * CHUNK;
        assert forall|k: int, i: int|
            #![trigger records[k].1[i]]
            0 <= k < records.len() && k < n * CHUNK && 0 <= i < records[k].1.len() implies (
        linkers_of(db, records[k].1[i].1) matches Ok(l) && l.contains(
            (did_id, records[k].0.2),
        )) by {
            if k >= begin {
                assert(part[k - begin] == records[k]);
                assert(part[k - begin].1[i] == records[k].1[i]);
                let id = records[k].1[i].1;
                assert(no_more(linkers_of(db, id), linkers_of(mid, id)));
                assert(linkers_of(mid, id)->Ok_0.contains((did_id, records[k].0.2)));
            }
        }
    }
}

/// An account can go only where each link of each of its records is among the linkers of its
/// target.
pub proof fn law_delete_account_possible(
    db: Db,
    did: Did,
    cursor: u64,
    seqs: Seqs,
    did_id: u64,
    active: bool,
)
    requires
        did_value(db, did.0@) == Ok::<Option<(u64, bool)>, Error>(Some((did_id, active))),
        did_id != 0,
        pushed(db, ActionableEvent::DeleteAccount(did)@, cursor, seqs) is Ok,
    ensures
        pushed(db, ActionableEvent::DeleteAccount(did)@, cursor, seqs)->Ok_0.seqs == seqs,
        forall|k: int, i: int|
            #![trigger records_of(db, did_id)[k].1[i]]
            0 <= k < records_of(db, did_id).len() && 0 <= i < records_of(db, did_id)[k].1.len()
                ==> (linkers_of(db, records_of(db, did_id)[k].1[i].1) matches Ok(l) && exists|
                j: int,
            |
                0 <= j < l.len() && #[trigger] l[j] == (
                    did_id,
                    records_of(db, did_id)[k].0.2,
                )),
{
    let records = records_of(db, did_id);
    lemma_batches_had(db, did_id, records, chunk_count(records.len()));
    assert forall|k: int, i: int|
        #![trigger records_of(db, did_id)[k].1[i]]
        0 <= k < records_of(db, did_id).len() && 0 <= i < records_of(db, did_id)[k].1.len()
            implies (linkers_of(db, records_of(db, did_id)[k].1[i].1) matches Ok(l) && exists|
        j: int,
    |
        0 <= j < l.len() && #[trigger] l[j] == (did_id, records_of(db, did_id)[k].0.2)) by {
        assert(k < chunk_count(records.len()) * CHUNK);
        let l = linkers_of(db, records[k].1[i].1)->Ok_0;
        assert(l.contains((did_id, records[k].0.2)));
        assert(l[l.index_of((did_id, records[k].0.2))] == (did_id, records[k].0.2));
    }
}

/// An account that cannot go has a link that is not among the linkers of its target, or something
/// of it cannot be read.
pub proof fn law_delete_account_fails(db: Db, did: Did, cursor: u64, seqs: Seqs)
    ensures
        pushed(db, ActionableEvent::DeleteAccount(did)@, cursor, seqs) matches Err(e) ==> e
            == Error::MissingLinker || e == Error::Codec,
{
    if let Ok(Some((did_id, _))) = did_value(db, did.0@) {
        let records = records_of(db, did_id);
        lemma_batches_fail(db, did_id, records, chunk_count(records.len()));
    }
}

proof fn lemma_batches_fail(db: Db, did_id: u64, records: Seq<Record>, n: nat)
    ensures
        chunk_batches(db, did_id, records, n) matches Err(e) ==> e == Error::MissingLinker || e
            == Error::Codec,
    decreases n,
{
    if n > 0 {
        let m = (n - 1) as nat;
        lemma_batches_fail(db, did_id, records, m);
        if let Ok(front) = chunk_batches(db, did_id, records, m) {
            lemma_chunk_fails(apply_all(db, front), did_id, chunk(records, m));
        }
    }
}

proof fn lemma_chunk_fails(db: Db, did_id: u64, records: Seq<Record>)
    ensures
        chunk_ops(db, did_id, records) matches Err(e) ==> e == Error::MissingLinker || e
            == Error::Codec,
    decreases records.len(),
{
    if records.len() > 0 {
        lemma_chunk_fails(db, did_id, records.drop_last());
        if let Ok(front) = chunk_ops(db, did_id, records.drop_last()) {
            let (key, targets) = records.last();
            lemma_unlink_each_fails(
                apply(db, front.push(delete_record_op(key))),
                (did_id, key.2),
                targets,
            );
        }
    }
}

proof fn lemma_unlink_each_fails(db: Db, linker: Linker, targets: Seq<(Text, u64)>)
    ensures
        unlink_each(db, linker, targets) matches Err(e) ==> e == Error::MissingLinker || e
            == Error::Codec,
    decreases targets.len(),
{
    if targets.len() > 0 {
        lemma_unlink_each_fails(db, linker, targets.drop_last());
    }
}

// ---------------------------------------------------------------------------------------------
// batches

/// The changes of records that go together: one row of a record less for each of them, and linkers.
proof fn lemma_chunk_shape(base: Db, did_id: u64, records: Seq<Record>)
    requires
        chunk_ops(base, did_id, records) is Ok,
    ensures
        ({
            let ops = chunk_ops(base, did_id, records)->Ok_0;
            &&& ops.filter(|op: Op| op is Delete).len() == records.len()
            &&& forall|i: int|
                0 <= i < ops.len() ==> match #[trigger] ops[i] {
                    Op::Put { cf, .. } => cf == Cf::TargetLinks,
                    Op::Merge { .. } => false,
                    Op::Delete { cf, .. } => cf == Cf::LinkTargets,
                }
        }),
    decreases records.len(),
{
    reveal(Seq::filter);
    if records.len() > 0 {
        let front = records.drop_last();
        lemma_chunk_shape(base, did_id, front);
        let front_ops = chunk_ops(base, did_id, front)->Ok_0;
        let (key, targets) = records.last();
        let so_far = front_ops.push(delete_record_op(key));
        let is_delete = |op: Op| op is Delete;
        assert(so_far.drop_last() =~= front_ops);
        assert(so_far.filter(is_delete).len() == records.len());
        lemma_unlink_shape(apply(base, so_far), (did_id, key.2), targets, so_far);
    }
}

/// Links that leave their targets only put linkers.
proof fn lemma_unlink_shape(
    start: Db,
    linker: Linker,
    targets: Seq<(Text, u64)>,
    before: Seq<Op>,
)
    requires
        unlink_each(start, linker, targets) is Ok,
    ensures
        ({
            let ops = unlink_each(start, linker, targets)->Ok_0;
            &&& (before + ops).filter(|op: Op| op is Delete).len() == before.filter(
                |op: Op| op is Delete,
            ).len()
            &&& forall|i: int|
                0 <= i < ops.len() ==> ((#[trigger] ops[i]) matches Op::Put { cf, .. } && cf
                    == Cf::TargetLinks)
        }),
    decreases targets.len(),
{
    reveal(Seq::filter);
    let ops = unlink_each(start, linker, targets)->Ok_0;
    if targets.len() == 0 {
        assert(before + ops =~= before);
    } else {
        lemma_unlink_shape(start, linker, targets.drop_last(), before);
        let front = unlink_each(start, linker, targets.drop_last())->Ok_0;
        assert((before + ops).drop_last() =~= before + front);
        assert((before + ops).last() == ops.last());
    }
}

proof fn lemma_batches_shape(db: Db, did_id: u64, records: Seq<Record>, n: nat)
    requires
        n <= chunk_count(records.len()),
        chunk_batches(db, did_id, records, n) is Ok,
    ensures
        ({
            let batches = chunk_batches(db, did_id, records, n)->Ok_0;
            &&& batches.len() == n
            &&& forall|b: int|
                0 <= b < batches.len() ==> (#[trigger] batches[b]).filter(
                    |op: Op| op is Delete,
                ).len() <= 1024
            &&& forall|b: int, i: int|
                0 <= b < batches.len() && 0 <= i < batches[b].len()
                    ==> match #[trigger] batches[b][i] {
                    Op::Put { cf, .. } => cf == Cf::TargetLinks,
                    Op::Merge { .. } => false,
                    Op::Delete { cf, .. } => cf == Cf::LinkTargets,
                }
        }),
    decreases n,
{
    if n > 0 {
        let m = (n - 1) as nat;
        lemma_batches_shape(db, did_id, records, m);
        let front = chunk_batches(db, did_id, records, m)->Ok_0;
        let part = chunk(records, m);
        lemma_chunk_shape(apply_all(db, front), did_id, part);
        let batches = chunk_batches(db, did_id, records, n)->Ok_0;
        assert forall|b: int, i: int|
            0 <= b < batches.len() && 0 <= i < batches[b].len() implies match #[trigger] batches[b][i] {
            Op::Put { cf, .. } => cf == Cf::TargetLinks,
            Op::Merge { .. } => false,
            Op::Delete { cf, .. } => cf == Cf::LinkTargets,
        } by {
            if b < front.len() {
                assert(batches[b] == front[b]);
                assert(batches[b][i] == front[b][i]);
            }
        }
        assert forall|b: int| 0 <= b < batches.len() implies (#[trigger] batches[b]).filter(
            |op: Op| op is Delete,
        ).len() <= 1024 by {
            if b < front.len() {
                assert(batches[b] == front[b]);
            }
        }
    }
}

/// The cursor moves with the last change of the last batch. An event that is not about an account
/// that goes is one batch. An account that goes is a batch for every 1024 of its records, which
/// change nothing but records and linkers, and one more behind them, which forgets the account and
/// moves the cursor: as long as that one is not written, the account is stored as it was.
#[verifier::rlimit(40)]
pub proof fn law_batches(db: Db, event: ActionableEvent, cursor: u64, seqs: Seqs)
    requires
        pushed(db, event@, cursor, seqs) is Ok,
    ensures
        ({
            let batches = pushed(db, event@, cursor, seqs)->Ok_0.batches;
            &&& batches.len() > 0
            &&& batches.last().len() > 0
            &&& batches.last().last() == (Op::Put {
                cf: Cf::Default,
                key: encode_utf8("jetstream_cursor"@),
                value: <u64 as Stored>::bytes(cursor),
            })
            &&& event is DeleteAccount || batches.len() == 1
            &&& event matches ActionableEvent::DeleteAccount(did) ==> match did_value(
                db,
                did.0@,
            ) {
                Ok(Some((did_id, _))) => {
                    let records = records_of(db, did_id).len();
                    &&& batches.len() == (records + 1023) / 1024 + 1
                    &&& batches.last().len() == 2
                    &&& batches.last()[0] == (Op::Delete {
                        cf: Cf::DidIds,
                        key: Did::bytes(did.0@),
                    })
                    &&& forall|b: int|
                        0 <= b < batches.len() - 1 ==> (#[trigger] batches[b]).filter(
                            |op: Op| op is Delete,
                        ).len() <= 1024
                    &&& forall|b: int, i: int|
                        0 <= b < batches.len() - 1 && 0 <= i < batches[b].len()
                            ==> match #[trigger] batches[b][i] {
                            Op::Put { cf, .. } => cf == Cf::TargetLinks,
                            Op::Merge { .. } => false,
                            Op::Delete { cf, .. } => cf == Cf::LinkTargets,
                        }
                },
                _ => batches.len() == 1,
            }
        }),
{
    if let ActionableEvent::DeleteAccount(did) = event {
        if let Ok(Some((did_id, _))) = did_value(db, did.0@) {
            let records = records_of(db, did_id);
            let n = chunk_count(records.len());
            lemma_batches_shape(db, did_id, records, n);
            let front = chunk_batches(db, did_id, records, n)->Ok_0;
            let batches = pushed(db, event@, cursor, seqs)->Ok_0.batches;
            assert forall|b: int| 0 <= b < front.len() implies #[trigger] batches[b]
                == front[b] by {}
            assert forall|b: int, i: int|
                0 <= b < batches.len() - 1 && 0 <= i < batches[b].len()
                    implies match #[trigger] batches[b][i] {
                Op::Put { cf, .. } => cf == Cf::TargetLinks,
                Op::Merge { .. } => false,
                Op::Delete { cf, .. } => cf == Cf::LinkTargets,
            } by {
                assert(batches[b][i] == front[b][i]);
            }
        }
    }
}

}
