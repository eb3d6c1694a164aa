//! Accounts that go, with all their records.
use crate::bytes::copy_bytes;
use crate::db::{
    apply, apply_all, apply_op, batches_view, lemma_apply_concat, row, Batch, BatchOp, Cf, Db, Op,
};
use crate::error::Error;
use crate::known::{ask_rows, asks, lemma_one_ask, rows_view, Ask, Facts, Halt, Known, Read};
use crate::model::{
    account_deleted, account_deleted_needs, chunk, chunk_batches, chunk_count, chunk_ops, decoded,
    did_ask, linkers_ask, records_ask, records_of, unlink_each, unlink_needs, wants, CHUNK,
};
use crate::records::{
    AsRocksKeyPrefix, Did, DidId, KeyFromRocks, RKey, RecordLinkKey, RecordLinkKeyDidIdPrefix,
    RecordLinkTargets, Stored, Target, TargetId, TargetIdTargetPrefix, TargetKey, Text,
    ValueFromRocks, _kr, _rk, _rkp, _vr,
};
use super::RocksStorage;
use vstd::prelude::*;

verus! {

/// The content of pairs.
pub open spec fn pairs_view<K: View, V: View>(pairs: Seq<(K, V)>) -> Seq<(K::V, V::V)> {
    pairs.map_values(|p: (K, V)| (p.0@, p.1@))
}

/// A record with its links.
pub type RecordLinks = (RecordLinkKey, RecordLinkTargets);

impl RocksStorage {
    /// The rows of a table whose keys begin with a prefix, in the order of their keys, up to the
    /// first that cannot be read.
    pub fn prefix_iter_cf<K: KeyFromRocks, V: ValueFromRocks, P: AsRocksKeyPrefix<K>>(
        &self,
        known: &Known,
        cf: Cf,
        pre: &P,
    ) -> (r: Result<Vec<(K, V)>, Halt>)
        ensures
            ({
                let at = (cf, P::bytes(pre@));
                match r {
                    Ok(pairs) => {
                        &&& known@.scans.contains_key(at)
                        &&& pairs_view(pairs@) == decoded::<K, V>(known@.scans[at])
                    },
                    Err(Halt::Fail(_)) => false,
                    Err(Halt::Read(reads)) => {
                        &&& !known@.scans.contains_key(at)
                        &&& asks(reads@) == seq![Ask::Rows { cf, prefix: at.1 }]
                    },
                }
            }),
    {
        let prefix = _rkp::<K, P>(pre);
        match known.rows(cf, prefix.as_slice()) {
            Some(rows) => Ok(Self::decode_rows(rows)),
            None => Err(ask_rows(cf, prefix)),
        }
    }

    /// The rows that can be read, up to the first that cannot.
    pub(crate) fn decode_rows<K: KeyFromRocks, V: ValueFromRocks>(rows: &Vec<(Vec<u8>, Vec<u8>)>) -> (r: Vec<
        (K, V),
    >)
        ensures
            pairs_view(r@) == decoded::<K, V>(rows_view(rows@)),
    {
        let ghost all = rows_view(rows@);
        let mut r: Vec<(K, V)> = Vec::new();
        let mut i: usize = 0;
        assert(all.skip(0) =~= all);
        assert(pairs_view(r@) + decoded::<K, V>(all) =~= decoded::<K, V>(all));
        while i < rows.len()
            invariant
                i <= rows.len(),
                all == rows_view(rows@),
                pairs_view(r@) + decoded::<K, V>(all.skip(i as int)) == decoded::<K, V>(all),
            decreases rows.len() - i,
        {
            let ghost rest = all.skip(i as int);
            assert(rest[0] == (rows@[i as int].0@, rows@[i as int].1@));
            match (_kr::<K>(rows[i].0.as_slice()), _vr::<V>(rows[i].1.as_slice())) {
                (Ok(k), Ok(v)) => {
                    let ghost before = pairs_view(r@);
                    let ghost pair = (k@, v@);
                    r.push((k, v));
                    proof {
                        assert(pairs_view(r@) =~= before.push(pair));
                        assert(rest.skip(1) =~= all.skip(i + 1));
                        assert(decoded::<K, V>(rest) == seq![pair] + decoded::<K, V>(rest.skip(1)));
                        assert(before.push(pair) + decoded::<K, V>(rest.skip(1)) =~= before + (
                        seq![pair] + decoded::<K, V>(rest.skip(1))));
                    }
                },
                _ => {
                    assert(decoded::<K, V>(rest) =~= Seq::empty());
                    assert(pairs_view(r@) =~= decoded::<K, V>(all));
                    return r;
                },
            }
            i += 1;
        }
        assert(decoded::<K, V>(all.skip(i as int)) =~= Seq::empty());
        assert(pairs_view(r@) =~= decoded::<K, V>(all));
        r
    }

    /// The records of an account, each with its links.
    pub fn iter_links_for_did_id(&self, known: &Known, did_id: &DidId) -> (r: Result<
        Vec<RecordLinks>,
        Halt,
    >)
        ensures
            ({
                let at = (Cf::LinkTargets, RecordLinkKeyDidIdPrefix::bytes(did_id@));
                match r {
                    Ok(pairs) => {
                        &&& known@.scans.contains_key(at)
                        &&& pairs_view(pairs@) == decoded::<RecordLinkKey, RecordLinkTargets>(
                            known@.scans[at],
                        )
                    },
                    Err(Halt::Fail(_)) => false,
                    Err(Halt::Read(reads)) => {
                        &&& !known@.scans.contains_key(at)
                        &&& asks(reads@) == seq![records_ask(did_id@)]
                    },
                }
            }),
    {
        self.prefix_iter_cf::<RecordLinkKey, RecordLinkTargets, RecordLinkKeyDidIdPrefix>(
            known,
            Cf::LinkTargets,
            &RecordLinkKeyDidIdPrefix(*did_id),
        )
    }

    /// The ids of a target, whatever the collection and the path.
    pub fn iter_targets_for_target(&self, known: &Known, target: &Target) -> (r: Result<
        Vec<(TargetKey, TargetId)>,
        Halt,
    >)
        ensures
            ({
                let at = (Cf::TargetIds, TargetIdTargetPrefix::bytes(target@));
                match r {
                    Ok(pairs) => {
                        &&& known@.scans.contains_key(at)
                        &&& pairs_view(pairs@) == decoded::<TargetKey, TargetId>(known@.scans[at])
                    },
                    Err(Halt::Fail(_)) => false,
                    Err(Halt::Read(reads)) => {
                        &&& !known@.scans.contains_key(at)
                        &&& asks(reads@) == seq![Ask::Rows { cf: at.0, prefix: at.1 }]
                    },
                }
            }),
    {
        self.prefix_iter_cf::<TargetKey, TargetId, TargetIdTargetPrefix>(
            known,
            Cf::TargetIds,
            &TargetIdTargetPrefix(target.clone()),
        )
    }

    /// The linkers of the targets of some records that are not known.
    fn missing_for_records(known: &Known, records: &Vec<RecordLinks>) -> (r: Vec<Read>)
        ensures
            forall|i: int|
                0 <= i < r.len() ==> !known@.has((#[trigger] r[i])@) && records_need(
                    records@,
                    r[i]@,
                ),
            r.len() == 0 ==> forall|n: int| #[trigger] linkers_known(known@, records@, n),
    {
        let mut r: Vec<Read> = Vec::new();
        for n in 0..records.len()
            invariant
                forall|i: int|
                    0 <= i < r.len() ==> !known@.has((#[trigger] r[i])@) && records_need(
                        records@,
                        r[i]@,
                    ),
                r.len() == 0 ==> forall|j: int|
                    j < n ==> #[trigger] linkers_known(known@, records@, j),
        {
            let ghost before = r@;
            let mut more = Self::missing_linkers(known, &records[n].1);
            let ghost new = more@;
            r.append(&mut more);
            assert forall|i: int| 0 <= i < r.len() implies !known@.has((#[trigger] r[i])@)
                && records_need(records@, r[i]@) by {
                if i < before.len() {
                    assert(r@[i] == before[i]);
                } else {
                    assert(r@[i] == new[i - before.len()]);
                    assert(unlink_needs(records@[n as int].1@, r[i]@));
                }
            }
            if r.len() == 0 {
                assert(new.len() == 0 && before.len() == 0);
                assert(linkers_known(known@, records@, n as int));
            }
        }
        r
    }

    /// The links of a record leave the linkers of their targets one after the other. What is known
    /// in `now`, which learns each change, goes before what is in `known`.
    fn unlink_each(
        &self,
        now: &mut Known,
        known: &Known,
        batch: &mut Batch,
        did_id: &DidId,
        rkey: &RKey,
        targets: &RecordLinkTargets,
    ) -> (r: Result<(), Error>)
        requires
            forall|i: int|
                0 <= i < targets@.len() ==> known@.has(linkers_ask((#[trigger] targets@[i]).1)),
        ensures
            forall|db: Db| #[trigger]
                old(now)@.over(known@).agrees(db) ==> {
                    let ops = unlink_each(db, (did_id@, rkey@), targets@);
                    match r {
                        Ok(()) => {
                            &&& ops is Ok
                            &&& final(batch)@ == old(batch)@ + ops->Ok_0
                            &&& final(now)@.over(known@).agrees(apply(db, ops->Ok_0))
                        },
                        Err(e) => ops == Err::<Seq<Op>, Error>(e),
                    }
                },
    {
        let ghost linker = (did_id@, rkey@);
        let ghost first = now@.over(known@);
        let mut i: usize = 0;
        assert(targets@.take(0) =~= Seq::empty());
        assert(batch@ + Seq::<Op>::empty() =~= batch@);
        while i < targets.0.len()
            invariant
                i <= targets.0.len(),
                linker == (did_id@, rkey@),
                first == old(now)@.over(known@),
                forall|i: int|
                    0 <= i < targets@.len() ==> known@.has(linkers_ask((#[trigger] targets@[i]).1)),
                forall|db: Db| #[trigger]
                    first.agrees(db) ==> {
                        let ops = unlink_each(db, linker, targets@.take(i as int));
                        &&& ops is Ok
                        &&& batch@ == old(batch)@ + ops->Ok_0
                        &&& now@.over(known@).agrees(apply(db, ops->Ok_0))
                    },
            decreases targets.0.len() - i,
        {
            let target_id = &targets.0[i].1;
            let ghost facts = now@.over(known@);
            let ghost at = (Cf::TargetLinks, TargetId::bytes(targets@[i as int].1));
            assert(known@.has(linkers_ask(targets@[i as int].1)));
            assert(facts.rows.contains_key(at));
            let key = _rk(target_id);
            let source: &Known = if now.row(Cf::TargetLinks, key.as_slice()).is_some() {
                &*now
            } else {
                known
            };
            assert(source@.rows.contains_key(at) && source@.rows[at] == facts.rows[at]);
            proof {
                assert(targets@.take(i + 1).drop_last() =~= targets@.take(i as int));
                assert forall|db: Db| #[trigger] first.agrees(db) implies facts.rows[at] == row(
                    apply(db, unlink_each(db, linker, targets@.take(i as int))->Ok_0),
                    at.0,
                    at.1,
                ) by {}
            }
            let ghost before = batch@;
            match self.unlink(source, batch, did_id, rkey, target_id, false) {
                Ok(()) => {
                    assert(batch@.len() == batch.ops.len());
                    let last: usize = batch.ops.len() - 1;
                    let ghost op = batch@.last();
                    assert(batch.ops[last as int]@ == op);
                    note(now, &batch.ops[last]);
                    proof {
                        assert forall|db: Db| #[trigger] first.agrees(db) implies ({
                            let ops = unlink_each(db, linker, targets@.take(i + 1));
                            &&& ops is Ok
                            &&& batch@ == old(batch)@ + ops->Ok_0
                            &&& now@.over(known@).agrees(apply(db, ops->Ok_0))
                        }) by {
                            let front = unlink_each(db, linker, targets@.take(i as int))->Ok_0;
                            let ops = unlink_each(db, linker, targets@.take(i + 1))->Ok_0;
                            assert(ops == front.push(op));
                            assert(batch@ =~= old(batch)@ + ops);
                            assert(ops.drop_last() =~= front);
                            assert(facts.agrees(apply(db, front)));
                        }
                    }
                },
                Err(Halt::Fail(e)) => {
                    proof {
                        assert forall|db: Db| #[trigger] first.agrees(db) implies unlink_each(
                            db,
                            linker,
                            targets@,
                        ) == Err::<Seq<Op>, Error>(e) by {
                            lemma_unlink_each_fail(db, linker, targets@, i + 1);
                        }
                    }
                    return Err(e);
                },
                Err(Halt::Read(_)) => {
                    return Err(Error::Codec);
                },
            }
            i += 1;
        }
        assert(targets@.take(i as int) =~= targets@);
        Ok(())
    }

    /// Some records of an account go. What is known in `now`, which learns each change, goes before
    /// what is in `known`.
    fn delete_chunk(
        &self,
        now: &mut Known,
        known: &Known,
        did_id: &DidId,
        records: &Vec<RecordLinks>,
        begin: usize,
        end: usize,
    ) -> (r: Result<Batch, Error>)
        requires
            begin <= end <= records.len(),
            forall|n: int| #[trigger] linkers_known(known@, records@, n),
        ensures
            forall|db: Db| #[trigger]
                old(now)@.over(known@).agrees(db) ==> {
                    let ops = chunk_ops(
                        db,
                        did_id@,
                        pairs_view(records@).subrange(begin as int, end as int),
                    );
                    match r {
                        Ok(batch) => {
                            &&& ops == Ok::<Seq<Op>, Error>(batch@)
                            &&& final(now)@.over(known@).agrees(apply(db, batch@))
                        },
                        Err(e) => ops == Err::<Seq<Op>, Error>(e),
                    }
                },
    {
        let ghost all = pairs_view(records@);
        let ghost first = now@.over(known@);
        let mut batch = Batch::new();
        let mut i: usize = begin;
        assert(all.subrange(begin as int, begin as int) =~= Seq::empty());
        while i < end
            invariant
                begin <= i <= end <= records.len(),
                all == pairs_view(records@),
                first == old(now)@.over(known@),
                forall|n: int| #[trigger] linkers_known(known@, records@, n),
                forall|db: Db| #[trigger]
                    first.agrees(db) ==> {
                        &&& chunk_ops(db, did_id@, all.subrange(begin as int, i as int)) == Ok::<
                            Seq<Op>,
                            Error,
                        >(batch@)
                        &&& now@.over(known@).agrees(apply(db, batch@))
                    },
            decreases end - i,
        {
            let ghost front = all.subrange(begin as int, i as int);
            let ghost next = all.subrange(begin as int, i + 1);
            assert(next.drop_last() =~= front);
            assert(next.last() == (records[i as int].0@, records[i as int].1@));
            assert(linkers_known(known@, records@, i as int));
            let (record_link_key, links) = &records[i];
            let ghost before = batch@;
            let ghost facts = now@.over(known@);
            self.delete_record_link(&mut batch, record_link_key);
            let ghost so_far = batch@;
            assert(batch@.len() == batch.ops.len());
            let last: usize = batch.ops.len() - 1;
            assert(batch.ops[last as int]@ == so_far.last());
            note(now, &batch.ops[last]);
            proof {
                assert(so_far.drop_last() =~= before);
                assert forall|db: Db| #[trigger] first.agrees(db) implies now@.over(known@).agrees(
                    apply(db, so_far),
                ) by {
                    assert(facts.agrees(apply(db, before)));
                }
            }
            let ghost noted = now@.over(known@);
            match self.unlink_each(now, known, &mut batch, did_id, &record_link_key.2, links) {
                Ok(()) => {
                    proof {
                        assert forall|db: Db| #[trigger] first.agrees(db) implies ({
                            &&& chunk_ops(db, did_id@, next) == Ok::<Seq<Op>, Error>(batch@)
                            &&& now@.over(known@).agrees(apply(db, batch@))
                        }) by {
                            let start = apply(db, so_far);
                            assert(noted.agrees(start));
                            let ops = unlink_each(
                                start,
                                (did_id@, record_link_key@.2),
                                links@,
                            )->Ok_0;
                            lemma_apply_concat(db, so_far, ops);
                        }
                    }
                },
                Err(e) => {
                    proof {
                        assert forall|db: Db| #[trigger] first.agrees(db) implies chunk_ops(
                            db,
                            did_id@,
                            all.subrange(begin as int, end as int),
                        ) == Err::<Seq<Op>, Error>(e) by {
                            assert(noted.agrees(apply(db, so_far)));
                            let whole = all.subrange(begin as int, end as int);
                            assert(whole.take(i + 1 - begin) =~= next);
                            lemma_chunk_ops_fail(db, did_id@, whole, i + 1 - begin);
                        }
                    }
                    return Err(e);
                },
            }
            i += 1;
        }
        Ok(batch)
    }

    /// An account goes, with its records, out of a database that has their links among the linkers of
    /// their targets. Gives the batches for its records, which are to be written before `batch`, one
    /// after the other. An account that is not stored changes nothing.
    pub fn delete_account(&self, known: &Known, did: &Did, batch: &mut Batch) -> (r: Result<
        Vec<Batch>,
        Halt,
    >)
        requires
            self.wf(),
            exists|db: Db| #[trigger] known@.agrees(db) && account_deleted(db, did@) is Ok,
        ensures
            r is Err ==> final(batch)@ == old(batch)@,
            forall|db: Db| #[trigger]
                known@.agrees(db) ==> {
                    let effect = account_deleted(db, did@);
                    match r {
                        Ok(minis) => {
                            &&& effect is Ok
                            &&& batches_view(minis@) == effect->Ok_0.0
                            &&& final(batch)@ == old(batch)@ + effect->Ok_0.1
                        },
                        Err(Halt::Fail(_)) => false,
                        Err(Halt::Read(reads)) => wants(
                            reads@,
                            known@,
                            |ask: Ask| account_deleted_needs(db, did@, ask),
                        ),
                    }
                },
    {
        let r = self.try_delete_account(known, did, batch);
        proof {
            let db = choose|db: Db| #[trigger] known@.agrees(db) && account_deleted(db, did@) is Ok;
            assert(known@.agrees(db));
        }
        r
    }

    /// An account goes, with its records, out of whatever database. Fails where a row cannot be read,
    /// or where a link is not among the linkers of its target.
    pub fn try_delete_account(&self, known: &Known, did: &Did, batch: &mut Batch) -> (r: Result<
        Vec<Batch>,
        Halt,
    >)
        requires
            self.wf(),
        ensures
            r is Err ==> final(batch)@ == old(batch)@,
            forall|db: Db| #[trigger]
                known@.agrees(db) ==> {
                    let effect = account_deleted(db, did@);
                    match r {
                        Ok(minis) => {
                            &&& effect is Ok
                            &&& batches_view(minis@) == effect->Ok_0.0
                            &&& final(batch)@ == old(batch)@ + effect->Ok_0.1
                        },
                        Err(Halt::Fail(e)) => effect == Err::<(Seq<Seq<Op>>, Seq<Op>), Error>(e),
                        Err(Halt::Read(reads)) => wants(
                            reads@,
                            known@,
                            |ask: Ask| account_deleted_needs(db, did@, ask),
                        ),
                    }
                },
    {
        let did_id: DidId = match self.did_id_table.get_id_val(known, did) {
            Ok(Some(v)) => v.did_id(),
            Ok(None) => {
                let minis: Vec<Batch> = Vec::new();
                assert(batches_view(minis@) =~= Seq::empty());
                assert(batch@ + Seq::<Op>::empty() =~= batch@);
                return Ok(minis);
            },
            Err(e) => {
                proof {
                    if e is Read {
                        lemma_one_ask(e->Read_0@, did_ask(did@));
                    }
                }
                return Err(e);
            },
        };
        let stuff = match self.iter_links_for_did_id(known, &did_id) {
            Ok(stuff) => stuff,
            Err(e) => {
                proof {
                    lemma_one_ask(e->Read_0@, records_ask(did_id@));
                }
                return Err(e);
            },
        };
        let ghost records = pairs_view(stuff@);
        proof {
            let at = (Cf::LinkTargets, RecordLinkKeyDidIdPrefix::bytes(did_id@));
            assert forall|db: Db| #[trigger] known@.agrees(db) implies records_of(db, did_id@)
                == records by {
                assert(known@.scans.contains_key((at.0, at.1)));
            }
        }
        let reads = Self::missing_for_records(known, &stuff);
        if reads.len() > 0 {
            proof {
                assert forall|db: Db| #[trigger] known@.agrees(db) implies wants(
                    reads@,
                    known@,
                    |ask: Ask| account_deleted_needs(db, did@, ask),
                ) by {
                    assert forall|i: int| 0 <= i < reads.len() implies account_deleted_needs(
                        db,
                        did@,
                        (#[trigger] reads@[i])@,
                    ) by {
                        let n = choose|n: int|
                            0 <= n < stuff@.len() && unlink_needs(
                                (#[trigger] stuff@[n]).1@,
                                reads[i]@,
                            );
                        assert(unlink_needs(records_of(db, did_id@)[n].1, reads[i]@));
                    }
                }
            }
            return Err(Halt::Read(reads));
        }
        match self.delete_records(known, &did_id, &stuff) {
            Ok(minis) => {
                self.delete_did_id_value(batch, did);
                Ok(minis)
            },
            Err(e) => Err(Halt::Fail(e)),
        }
    }

    /// The records of an account go, a batch for each chunk of them.
    fn delete_records(&self, known: &Known, did_id: &DidId, stuff: &Vec<RecordLinks>) -> (r: Result<
        Vec<Batch>,
        Error,
    >)
        requires
            forall|n: int| #[trigger] linkers_known(known@, stuff@, n),
        ensures
            forall|db: Db| #[trigger]
                known@.agrees(db) ==> {
                    let records = pairs_view(stuff@);
                    let batches = chunk_batches(db, did_id@, records, chunk_count(records.len()));
                    match r {
                        Ok(minis) => batches == Ok::<Seq<Seq<Op>>, Error>(batches_view(minis@)),
                        Err(e) => batches == Err::<Seq<Seq<Op>>, Error>(e),
                    }
                },
    {
        let ghost records = pairs_view(stuff@);
        let ghost count = chunk_count(records.len());
        let mut now = Known::new();
        let mut minis: Vec<Batch> = Vec::new();
        let mut begin: usize = 0;
        proof {
            assert(batches_view(minis@) =~= Seq::empty());
            assert(now@.over(known@).rows =~= known@.rows);
        }
        while begin < stuff.len()
            invariant
                records == pairs_view(stuff@),
                count == chunk_count(records.len()),
                forall|n: int| #[trigger] linkers_known(known@, stuff@, n),
                begin <= stuff.len(),
                begin == minis.len() * 1024 || (begin == stuff.len() && begin < minis.len() * 1024),
                minis.len() > 0 ==> (minis.len() - 1) * 1024 < stuff.len(),
                forall|db: Db| #[trigger]
                    known@.agrees(db) ==> {
                        &&& chunk_batches(db, did_id@, records, minis.len() as nat) == Ok::<
                            Seq<Seq<Op>>,
                            Error,
                        >(batches_view(minis@))
                        &&& now@.over(known@).agrees(apply_all(db, batches_view(minis@)))
                    },
            decreases stuff.len() - begin,
        {
            let ghost n = minis.len() as nat;
            let end: usize = if stuff.len() - begin > CHUNK {
                begin + CHUNK
            } else {
                stuff.len()
            };
            assert(chunk(records, n) =~= records.subrange(begin as int, end as int));
            let ghost facts = now@.over(known@);
            let mini = match self.delete_chunk(&mut now, known, did_id, stuff, begin, end) {
                Ok(mini) => mini,
                Err(e) => {
                    proof {
                        assert forall|db: Db| #[trigger] known@.agrees(db) implies chunk_batches(
                            db,
                            did_id@,
                            records,
                            count,
                        ) == Err::<Seq<Seq<Op>>, Error>(e) by {
                            assert(facts.agrees(apply_all(db, batches_view(minis@))));
                            assert(chunk_batches(db, did_id@, records, n + 1) == Err::<
                                Seq<Seq<Op>>,
                                Error,
                            >(e));
                            lemma_chunk_batches_fail(db, did_id@, records, n + 1, count);
                        }
                    }
                    return Err(e);
                },
            };
            let ghost before = batches_view(minis@);
            let ghost ops = mini@;
            minis.push(mini);
            proof {
                assert(batches_view(minis@) =~= before.push(ops));
                assert(before.push(ops).drop_last() =~= before);
                assert forall|db: Db| #[trigger] known@.agrees(db) implies ({
                    &&& chunk_batches(db, did_id@, records, minis.len() as nat) == Ok::<
                        Seq<Seq<Op>>,
                        Error,
                    >(batches_view(minis@))
                    &&& now@.over(known@).agrees(apply_all(db, batches_view(minis@)))
                }) by {
                    let mid = apply_all(db, before);
                    assert(facts.agrees(mid));
                    assert(chunk_ops(mid, did_id@, chunk(records, n)) == Ok::<Seq<Op>, Error>(ops));
                    assert(now@.over(known@).agrees(apply(mid, ops)));
                    assert(apply_all(db, before.push(ops)) == apply(mid, ops));
                    assert(chunk_batches(db, did_id@, records, n) == Ok::<Seq<Seq<Op>>, Error>(
                        before,
                    ));
                }
            }
            begin = end;
        }
        assert(minis.len() == count);
        Ok(minis)
    }
}

/// Whether one of the records needs what `ask` asks for when its links leave their targets.
pub open spec fn records_need(records: Seq<RecordLinks>, ask: Ask) -> bool {
    exists|n: int| 0 <= n < records.len() && unlink_needs((#[trigger] records[n]).1@, ask)
}

/// Whether the linkers of all targets of a record are known.
pub open spec fn linkers_known(facts: Facts, records: Seq<RecordLinks>, n: int) -> bool {
    0 <= n < records.len() ==> forall|i: int|
        0 <= i < records[n].1@.len() ==> facts.has(linkers_ask((#[trigger] records[n].1@[i]).1))
}

/// What a change will have put or deleted is now known.
fn note(now: &mut Known, op: &BatchOp)
    requires
        !(op@ is Merge),
    ensures
        forall|below: Facts, db: Db| #[trigger]
            old(now)@.over(below).agrees(db) ==> final(now)@.over(below).agrees(apply_op(db, op@)),
{
    let ghost before = now@;
    match op {
        BatchOp::Put { cf, key, value } => {
            now.learn_row(*cf, copy_bytes(key.as_slice()), Some(copy_bytes(value.as_slice())));
        },
        BatchOp::Delete { cf, key } => {
            now.learn_row(*cf, copy_bytes(key.as_slice()), None);
        },
        BatchOp::Merge { .. } => {},
    }
    proof {
        assert forall|below: Facts, db: Db| #[trigger]
            old(now)@.over(below).agrees(db) implies now@.over(below).agrees(apply_op(db, op@)) by {
            lemma_noted(before.over(below), db, op@, now@.over(below));
        }
    }
}

/// What is known agrees with the database behind a change once the change is known.
proof fn lemma_noted(facts: Facts, db: Db, op: Op, new: Facts)
    requires
        facts.agrees(db),
        new.scans == Map::<(Cf, Seq<u8>), Seq<(Seq<u8>, Seq<u8>)>>::empty(),
        match op {
            Op::Put { cf, key, value } => new.rows =~= facts.rows.insert((cf, key), Some(value)),
            Op::Delete { cf, key } => new.rows =~= facts.rows.insert((cf, key), None),
            Op::Merge { .. } => false,
        },
    ensures
        new.agrees(apply_op(db, op)),
{
}

/// What fails on the first targets fails on all of them.
proof fn lemma_unlink_each_fail(db: Db, linker: (u64, Text), targets: Seq<(Text, u64)>, n: int)
    requires
        0 <= n <= targets.len(),
        unlink_each(db, linker, targets.take(n)) is Err,
    ensures
        unlink_each(db, linker, targets) == unlink_each(db, linker, targets.take(n)),
    decreases targets.len(),
{
    if n == targets.len() {
        assert(targets.take(n) =~= targets);
    } else {
        assert(targets.drop_last().take(n) =~= targets.take(n));
        lemma_unlink_each_fail(db, linker, targets.drop_last(), n);
    }
}

/// What fails on the first records fails on all of them.
proof fn lemma_chunk_ops_fail(
    db: Db,
    did_id: u64,
    records: Seq<((u64, Text, Text), Seq<(Text, u64)>)>,
    n: int,
)
    requires
        0 <= n <= records.len(),
        chunk_ops(db, did_id, records.take(n)) is Err,
    ensures
        chunk_ops(db, did_id, records) == chunk_ops(db, did_id, records.take(n)),
    decreases records.len(),
{
    if n == records.len() {
        assert(records.take(n) =~= records);
    } else {
        assert(records.drop_last().take(n) =~= records.take(n));
        lemma_chunk_ops_fail(db, did_id, records.drop_last(), n);
    }
}

/// What fails on the first chunks fails on all of them.
proof fn lemma_chunk_batches_fail(
    db: Db,
    did_id: u64,
    records: Seq<((u64, Text, Text), Seq<(Text, u64)>)>,
    n: nat,
    count: nat,
)
    requires
        n <= count,
        chunk_batches(db, did_id, records, n) is Err,
    ensures
        chunk_batches(db, did_id, records, count) == chunk_batches(db, did_id, records, n),
    decreases count - n,
{
    if n < count {
        lemma_chunk_batches_fail(db, did_id, records, n + 1, count);
    }
}

}
