//! The store of links: what each event changes.
use crate::bytes::{copy_bytes, maybe};
use crate::db::{batches_view, row, Batch, Cf, Db, Op};
use crate::error::Error;
use crate::events::{links_view, ActionableEvent, CollectedLink, RecordId};
use crate::id_table::{first_seq, given, maybe_view, row_value, Given, IdTable};
use crate::known::{ask_row, asks, lemma_one_ask, missing_rows, Ask, Halt, Known, Read};
use crate::linkers::unlinked;
use crate::model::{
    account_set, added, added_needs, cursor_key, delete_record_op, did_ask, linkers_ask, linkers_in,
    merge_op, new_links, no_link, pushed, pushed_needs, put_did_op, record_ask, removed,
    removed_needs, target_ask, unlink_in, unlink_needs, unlink_ops, updated, wants, Effect, Pushed,
    Seqs,
};
use crate::records::{
    Collection, Did, DidId, DidIdValue, Linker, RKey, RPath, RecordLinkKey, RecordLinkTarget,
    RecordLinkTargets, Stored, Target, TargetId, TargetKey, TargetLinkers, Text, _rk, _rv, _vr,
};
use vstd::prelude::*;

pub mod accounts;
pub mod dups;
pub mod notices;
pub mod reader;

verus! {

/// The store of links, but for the rows, which are in the database.
pub struct RocksStorage {
    did_id_table: IdTable<Did, DidIdValue, true>,
    target_id_table: IdTable<TargetKey, TargetId, false>,
    is_writer: bool,
}

impl Clone for RocksStorage {
    fn clone(&self) -> (r: Self)
        ensures
            r.seqs() == self.seqs(),
            r.wf() == self.wf(),
            r.writes() == self.writes(),
    {
        RocksStorage {
            did_id_table: self.did_id_table.clone(),
            target_id_table: self.target_id_table.clone(),
            is_writer: self.is_writer,
        }
    }
}

impl RocksStorage {
    /// The sequences of the two id tables.
    pub closed spec fn seqs(&self) -> Seqs {
        Seqs { did: self.did_id_table.seq(), target: self.target_id_table.seq() }
    }

    /// Whether this is the store that writes.
    pub closed spec fn writes(&self) -> bool {
        self.is_writer
    }

    /// The id tables go by their column families.
    pub closed spec fn wf(&self) -> bool {
        &&& self.did_id_table.wf()
        &&& self.did_id_table.spec_cf() == Cf::DidIds
        &&& self.target_id_table.wf()
        &&& self.target_id_table.spec_cf() == Cf::TargetIds
    }

    /// The store over a database. Of each id table, accounts first, it is told whether the
    /// database has its column family, and the row with its sequence.
    pub fn new(
        did_cf_found: bool,
        did_stored: Option<&[u8]>,
        target_cf_found: bool,
        target_stored: Option<&[u8]>,
    ) -> (r: Result<Self, Error>)
        ensures
            match r {
                Ok(store) => {
                    &&& store.wf()
                    &&& store.writes()
                    &&& did_cf_found && target_cf_found
                    &&& first_seq(maybe(did_stored)) == Ok::<u64, Error>(store.seqs().did)
                    &&& first_seq(maybe(target_stored)) == Ok::<u64, Error>(store.seqs().target)
                },
                Err(e) => if !did_cf_found {
                    e == Error::NoColumnFamily
                } else if first_seq(maybe(did_stored)) is Err {
                    first_seq(maybe(did_stored)) == Err::<u64, Error>(e)
                } else if !target_cf_found {
                    e == Error::NoColumnFamily
                } else {
                    first_seq(maybe(target_stored)) == Err::<u64, Error>(e)
                },
            },
    {
        let did_id_table = IdTable::<Did, DidIdValue, true>::setup(Cf::DidIds);
        let target_id_table = IdTable::<TargetKey, TargetId, false>::setup(Cf::TargetIds);
        let did_id_table = match did_id_table.init::<true>(did_cf_found, did_stored) {
            Ok(table) => table,
            Err(e) => {
                return Err(e);
            },
        };
        let target_id_table = match target_id_table.init::<false>(target_cf_found, target_stored) {
            Ok(table) => table,
            Err(e) => {
                return Err(e);
            },
        };
        Ok(RocksStorage { did_id_table, target_id_table, is_writer: true })
    }

    /// A copy of the store that only reads.
    pub fn to_readable(&self) -> (r: Self)
        ensures
            r.seqs() == self.seqs(),
            r.wf() == self.wf(),
            !r.writes(),
    {
        let mut readable = self.clone();
        readable.is_writer = false;
        readable
    }

    /// Whether this is the store that writes.
    pub fn is_writer(&self) -> (r: bool)
        ensures
            r == self.writes(),
    {
        self.is_writer
    }

    /// The newest id given to an account.
    pub fn did_seq(&self) -> (r: u64)
        requires
            self.wf(),
        ensures
            r == self.seqs().did,
    {
        self.did_id_table.id_seq()
    }

    /// The newest id given to a target.
    pub fn target_seq(&self) -> (r: u64)
        requires
            self.wf(),
        ensures
            r == self.seqs().target,
    {
        self.target_id_table.id_seq()
    }

    // -----------------------------------------------------------------------------------------
    // single rows

    /// Changes what is stored of an account, if it is stored. Says whether it was changed.
    pub fn update_did_id_value<F: FnOnce(DidIdValue) -> Option<DidIdValue>>(
        &self,
        known: &Known,
        batch: &mut Batch,
        did: &Did,
        update: F,
    ) -> (r: Result<bool, Halt>)
        requires
            self.wf(),
            forall|v: DidIdValue| #[trigger] call_requires(update, (v,)),
        ensures
            ({
                let at = (Cf::DidIds, Did::bytes(did@));
                match r {
                    Ok(changed) => {
                        &&& known@.rows.contains_key(at)
                        &&& match row_value::<DidIdValue>(known@.rows[at]) {
                            Ok(Some(value)) => exists|v: DidIdValue, new: Option<DidIdValue>|
                                {
                                    &&& v@ == value
                                    &&& #[trigger] call_ensures(update, (v,), new)
                                    &&& changed == new is Some
                                    &&& final(batch)@ == match new {
                                        Some(new) => old(batch)@.push(put_did_op(did@, new@)),
                                        None => old(batch)@,
                                    }
                                },
                            Ok(None) => !changed && final(batch)@ == old(batch)@,
                            Err(_) => false,
                        }
                    },
                    Err(Halt::Fail(e)) => {
                        &&& known@.rows.contains_key(at)
                        &&& row_value::<DidIdValue>(known@.rows[at]) == Err::<
                            Option<(u64, bool)>,
                            Error,
                        >(e)
                        &&& final(batch)@ == old(batch)@
                    },
                    Err(Halt::Read(reads)) => {
                        &&& !known@.rows.contains_key(at)
                        &&& asks(reads@) == seq![did_ask(did@)]
                        &&& final(batch)@ == old(batch)@
                    },
                }
            }),
    {
        match self.did_id_table.get_id_val(known, did) {
            Ok(Some(did_id_value)) => match update(did_id_value) {
                Some(new_did_id_value) => {
                    batch.put_cf(Cf::DidIds, _rk(did), _rv(&new_did_id_value));
                    assert(call_ensures(update, (did_id_value,), Some(new_did_id_value)));
                    Ok(true)
                },
                None => {
                    assert(call_ensures(update, (did_id_value,), None::<DidIdValue>));
                    Ok(false)
                },
            },
            Ok(None) => Ok(false),
            Err(e) => Err(e),
        }
    }

    /// Forgets an account.
    pub fn delete_did_id_value(&self, batch: &mut Batch, did: &Did)
        ensures
            final(batch)@ == old(batch)@.push(
                Op::Delete { cf: Cf::DidIds, key: Did::bytes(did@) },
            ),
    {
        batch.delete_cf(Cf::DidIds, _rk(did));
    }

    /// The linkers of a target.
    pub fn get_target_linkers(&self, known: &Known, target_id: &TargetId) -> (r: Result<
        TargetLinkers,
        Halt,
    >)
        ensures
            ({
                let at = (Cf::TargetLinks, TargetId::bytes(target_id@));
                match r {
                    Ok(linkers) => {
                        &&& known@.rows.contains_key(at)
                        &&& linkers_in(known@.rows[at]) == Ok::<Seq<(u64, Text)>, Error>(linkers@)
                    },
                    Err(Halt::Fail(e)) => {
                        &&& known@.rows.contains_key(at)
                        &&& linkers_in(known@.rows[at]) == Err::<Seq<(u64, Text)>, Error>(e)
                    },
                    Err(Halt::Read(reads)) => {
                        &&& !known@.rows.contains_key(at)
                        &&& asks(reads@) == seq![linkers_ask(target_id@)]
                    },
                }
            }),
    {
        let key = _rk(target_id);
        match known.row(Cf::TargetLinks, key.as_slice()) {
            Some(Some(linkers_bytes)) => match _vr::<TargetLinkers>(linkers_bytes.as_slice()) {
                Ok(linkers) => Ok(linkers),
                Err(e) => Err(Halt::Fail(e)),
            },
            Some(None) => Ok(TargetLinkers::default()),
            None => Err(ask_row(Cf::TargetLinks, key)),
        }
    }

    /// Puts a linker behind those of a target.
    pub fn merge_target_linker(
        &self,
        batch: &mut Batch,
        target_id: &TargetId,
        linker_did_id: &DidId,
        linker_rkey: &RKey,
    )
        ensures
            final(batch)@ == old(batch)@.push(
                merge_op(target_id@, (linker_did_id@, linker_rkey@)),
            ),
    {
        let linkers = TargetLinkers(vec![(*linker_did_id, linker_rkey.clone())]);
        assert(linkers@ =~= seq![(linker_did_id@, linker_rkey@)]);
        batch.merge_cf(Cf::TargetLinks, _rk(target_id), _rv(&linkers));
    }

    /// Changes the linkers of a target, if `update` gives new ones. Says whether it did.
    pub fn update_target_linkers<
        F: FnOnce(TargetLinkers) -> Result<Option<TargetLinkers>, Error>,
    >(&self, known: &Known, batch: &mut Batch, target_id: &TargetId, update: F) -> (r: Result<
        bool,
        Halt,
    >)
        requires
            forall|l: TargetLinkers| #[trigger] call_requires(update, (l,)),
        ensures
            ({
                let at = (Cf::TargetLinks, TargetId::bytes(target_id@));
                match r {
                    Ok(changed) => {
                        &&& known@.rows.contains_key(at)
                        &&& exists|l: TargetLinkers, new: Option<TargetLinkers>|
                            {
                                &&& linkers_in(known@.rows[at]) == Ok::<Seq<(u64, Text)>, Error>(l@)
                                &&& #[trigger] call_ensures(update, (l,), Ok(new))
                                &&& changed == new is Some
                                &&& final(batch)@ == match new {
                                    Some(new) => old(batch)@.push(
                                        Op::Put {
                                            cf: at.0,
                                            key: at.1,
                                            value: TargetLinkers::bytes(new@),
                                        },
                                    ),
                                    None => old(batch)@,
                                }
                            }
                    },
                    Err(Halt::Fail(e)) => {
                        &&& known@.rows.contains_key(at)
                        &&& match linkers_in(known@.rows[at]) {
                            Ok(linkers) => exists|l: TargetLinkers|
                                l@ == linkers && #[trigger] call_ensures(update, (l,), Err(e)),
                            Err(e2) => e == e2,
                        }
                        &&& final(batch)@ == old(batch)@
                    },
                    Err(Halt::Read(reads)) => {
                        &&& !known@.rows.contains_key(at)
                        &&& asks(reads@) == seq![linkers_ask(target_id@)]
                        &&& final(batch)@ == old(batch)@
                    },
                }
            }),
    {
        match self.get_target_linkers(known, target_id) {
            Ok(existing_linkers) => {
                let ghost l = existing_linkers;
                match update(existing_linkers) {
                    Ok(Some(new_linkers)) => {
                        batch.put_cf(Cf::TargetLinks, _rk(target_id), _rv(&new_linkers));
                        assert(call_ensures(update, (l,), Ok(Some(new_linkers))));
                        Ok(true)
                    },
                    Ok(None) => {
                        assert(call_ensures(update, (l,), Ok(None::<TargetLinkers>)));
                        Ok(false)
                    },
                    Err(e) => {
                        assert(call_ensures(update, (l,), Err(e)));
                        Err(Halt::Fail(e))
                    },
                }
            },
            Err(e) => Err(e),
        }
    }

    /// Stores the links of a record, in place of those that it had.
    pub fn put_link_targets(
        &self,
        batch: &mut Batch,
        record_link_key: &RecordLinkKey,
        targets: &RecordLinkTargets,
    )
        ensures
            final(batch)@ == old(batch)@.push(
                Op::Put {
                    cf: Cf::LinkTargets,
                    key: RecordLinkKey::bytes(record_link_key@),
                    value: RecordLinkTargets::bytes(targets@),
                },
            ),
    {
        batch.put_cf(Cf::LinkTargets, _rk(record_link_key), _rv(targets));
    }

    /// The links of a record.
    pub fn get_record_link_targets(&self, known: &Known, record_link_key: &RecordLinkKey) -> (r:
        Result<Option<RecordLinkTargets>, Halt>)
        ensures
            ({
                let at = (Cf::LinkTargets, RecordLinkKey::bytes(record_link_key@));
                match r {
                    Ok(targets) => {
                        &&& known@.rows.contains_key(at)
                        &&& row_value::<RecordLinkTargets>(known@.rows[at]) == Ok::<
                            Option<Seq<(Text, u64)>>,
                            Error,
                        >(maybe_view(targets))
                    },
                    Err(Halt::Fail(e)) => {
                        &&& known@.rows.contains_key(at)
                        &&& row_value::<RecordLinkTargets>(known@.rows[at]) == Err::<
                            Option<Seq<(Text, u64)>>,
                            Error,
                        >(e)
                    },
                    Err(Halt::Read(reads)) => {
                        &&& !known@.rows.contains_key(at)
                        &&& asks(reads@) == seq![record_ask(record_link_key@)]
                    },
                }
            }),
    {
        let key = _rk(record_link_key);
        match known.row(Cf::LinkTargets, key.as_slice()) {
            Some(Some(bytes)) => match _vr::<RecordLinkTargets>(bytes.as_slice()) {
                Ok(targets) => Ok(Some(targets)),
                Err(e) => Err(Halt::Fail(e)),
            },
            Some(None) => Ok(None),
            None => Err(ask_row(Cf::LinkTargets, key)),
        }
    }

    /// Forgets the links of a record.
    pub fn delete_record_link(&self, batch: &mut Batch, record_link_key: &RecordLinkKey)
        ensures
            final(batch)@ == old(batch)@.push(delete_record_op(record_link_key@)),
    {
        batch.delete_cf(Cf::LinkTargets, _rk(record_link_key));
    }

    // -----------------------------------------------------------------------------------------
    // what events change

    /// The rows that a record with links needs and that are not known.
    fn missing_for_links(known: &Known, record_id: &RecordId, links: &[CollectedLink]) -> (r: Vec<
        Read,
    >)
        ensures
            r.len() > 0 ==> wants(
                r@,
                known@,
                |ask: Ask| added_needs(record_id@, links_view(links@), ask),
            ),
            r.len() == 0 ==> {
                &&& known@.has(did_ask(record_id@.0))
                &&& forall|i: int|
                    0 <= i < links.len() ==> known@.has(
                        target_ask(
                            (links_view(links@)[i].0, record_id@.1, (#[trigger] links_view(
                                links@,
                            )[i]).1),
                        ),
                    )
            },
    {
        let mut keys: Vec<Vec<u8>> = Vec::with_capacity(links.len());
        for i in 0..links.len()
            invariant
                keys.len() == i,
                forall|j: int|
                    0 <= j < i ==> (#[trigger] keys[j])@ == TargetKey::bytes(
                        (links@[j]@.0, record_id@.1, links@[j]@.1),
                    ),
        {
            keys.push(_rk(&Self::target_key(record_id, &links[i])));
        }
        let mut r = missing_rows(known, Cf::TargetIds, &keys);
        let ghost targets = r@;
        proof {
            assert forall|i: int| 0 <= i < r.len() implies !known@.has((#[trigger] r@[i])@)
                && added_needs(record_id@, links_view(links@), r@[i]@) by {
                let j = choose|j: int|
                    0 <= j < keys.len() && r[i]@ == (Ask::Row {
                        cf: Cf::TargetIds,
                        key: (#[trigger] keys[j])@,
                    });
                let l = links_view(links@)[j];
                assert(r@[i]@ == target_ask((l.0, record_id@.1, l.1)));
            }
        }
        let key = _rk(&record_id.did);
        if known.row(Cf::DidIds, key.as_slice()).is_none() {
            let read = Read::Row { cf: Cf::DidIds, key };
            assert(read@ == did_ask(record_id@.0));
            r.push(read);
            assert forall|i: int| 0 <= i < r.len() implies !known@.has((#[trigger] r@[i])@)
                && added_needs(record_id@, links_view(links@), r@[i]@) by {
                if i < targets.len() {
                    assert(r@[i] == targets[i]);
                }
            }
        } else if r.len() == 0 {
            assert forall|i: int| 0 <= i < links.len() implies known@.has(
                target_ask(
                    (links_view(links@)[i].0, record_id@.1, (#[trigger] links_view(links@)[i]).1),
                ),
            ) by {
                assert(known@.rows.contains_key((Cf::TargetIds, keys[i]@)));
            }
        }
        r
    }

    /// The target of a link of a record, as the reverse index has it.
    fn target_key(record_id: &RecordId, link: &CollectedLink) -> (r: TargetKey)
        ensures
            r@ == (link@.0, record_id@.1, link@.1),
    {
        TargetKey(
            Target(link.target.clone().into_string()),
            Collection(record_id.collection()),
            RPath(link.path.clone()),
        )
    }

    /// A record comes with a link.
    fn add_link(
        &mut self,
        known: &Known,
        record_id: &RecordId,
        link: &CollectedLink,
        did_id: &DidId,
        batch: &mut Batch,
        targets: &mut RecordLinkTargets,
    ) -> (r: Result<(), Halt>)
        requires
            old(self).wf(),
        ensures
            final(self).wf(),
            final(self).writes() == old(self).writes(),
            final(self).seqs().did == old(self).seqs().did,
            ({
                let at = (Cf::TargetIds, TargetKey::bytes((link@.0, record_id@.1, link@.1)));
                let g = given::<TargetId>(
                    known@.rows[at],
                    at.0,
                    at.1,
                    old(self).seqs().target,
                    false,
                );
                match r {
                    Ok(()) => {
                        &&& known@.rows.contains_key(at)
                        &&& g is Ok
                        &&& final(batch)@ == old(batch)@ + g->Ok_0.ops.push(
                            merge_op(g->Ok_0.value, (did_id@, record_id@.2)),
                        )
                        &&& final(targets)@ == old(targets)@.push((link@.1, g->Ok_0.value))
                        &&& final(self).seqs().target == g->Ok_0.seq
                    },
                    Err(Halt::Fail(e)) => known@.rows.contains_key(at) && g == Err::<
                        Given<u64>,
                        Error,
                    >(e),
                    Err(Halt::Read(_)) => !known@.rows.contains_key(at),
                }
            }),
    {
        let target_key = Self::target_key(record_id, link);
        let target_id = match self.target_id_table.get_or_create_id_val(known, batch, &target_key) {
            Ok(id) => id,
            Err(e) => {
                return Err(e);
            },
        };
        self.merge_target_linker(batch, &target_id, did_id, &RKey(record_id.rkey()));
        targets.add(RecordLinkTarget(RPath(link.path.clone()), target_id));
        proof {
            let at = (Cf::TargetIds, TargetKey::bytes(target_key@));
            let g = given::<TargetId>(
                known@.rows[at],
                at.0,
                at.1,
                old(self).seqs().target,
                false,
            )->Ok_0;
            assert(batch@ =~= old(batch)@ + g.ops.push(
                merge_op(g.value, (did_id@, record_id@.2)),
            ));
        }
        Ok(())
    }

    /// A record comes with its links, into a database that can take it.
    pub fn add_links(
        &mut self,
        known: &Known,
        record_id: &RecordId,
        links: &[CollectedLink],
        batch: &mut Batch,
    ) -> (r: Result<(), Halt>)
        requires
            old(self).wf(),
            exists|db: Db| #[trigger] known@.agrees(db) && added(db, record_id@, links_view(links@), old(self).seqs()) is Ok,
        ensures
            final(self).wf(),
            final(self).writes() == old(self).writes(),
            r is Err ==> final(self).seqs() == old(self).seqs() && final(batch)@ == old(batch)@,
            r matches Err(Halt::Read(reads)) ==> wants(
                reads@,
                known@,
                |ask: Ask| added_needs(record_id@, links_view(links@), ask),
            ),
            forall|db: Db| #[trigger]
                known@.agrees(db) ==> {
                    let effect = added(db, record_id@, links_view(links@), old(self).seqs());
                    match r {
                        Ok(()) => {
                            &&& effect is Ok
                            &&& final(batch)@ == old(batch)@ + effect->Ok_0.ops
                            &&& final(self).seqs() == effect->Ok_0.seqs
                        },
                        Err(Halt::Fail(_)) => false,
                        Err(Halt::Read(_)) => true,
                    }
                },
    {
        let r = self.try_add_links(known, record_id, links, batch);
        proof {
            let db = choose|db: Db| #[trigger] known@.agrees(db) && added(db, record_id@, links_view(links@), old(self).seqs()) is Ok;
            assert(known@.agrees(db));
        }
        r
    }

    /// A record comes with its links, into whatever database. Fails where a row cannot be read, or
    /// where there are no ids left.
    pub fn try_add_links(
        &mut self,
        known: &Known,
        record_id: &RecordId,
        links: &[CollectedLink],
        batch: &mut Batch,
    ) -> (r: Result<(), Halt>)
        requires
            old(self).wf(),
        ensures
            final(self).wf(),
            final(self).writes() == old(self).writes(),
            r is Err ==> final(self).seqs() == old(self).seqs() && final(batch)@ == old(batch)@,
            r matches Err(Halt::Read(reads)) ==> wants(
                reads@,
                known@,
                |ask: Ask| added_needs(record_id@, links_view(links@), ask),
            ),
            forall|db: Db| #[trigger]
                known@.agrees(db) ==> {
                    let effect = added(db, record_id@, links_view(links@), old(self).seqs());
                    match r {
                        Ok(()) => {
                            &&& effect is Ok
                            &&& final(batch)@ == old(batch)@ + effect->Ok_0.ops
                            &&& final(self).seqs() == effect->Ok_0.seqs
                        },
                        Err(Halt::Fail(e)) => effect == Err::<Effect, Error>(e),
                        Err(Halt::Read(_)) => true,
                    }
                },
    {
        let reads = Self::missing_for_links(known, record_id, links);
        if reads.len() > 0 {
            return Err(Halt::Read(reads));
        }
        let ghost all = links_view(links@);
        let ghost seqs = self.seqs();
        let mut store = self.clone();
        let mut new = Batch::new();
        let did_id: DidId = match store.did_id_table.get_or_create_id_val(
            known,
            &mut new,
            &record_id.did,
        ) {
            Ok(v) => v.did_id(),
            Err(e) => {
                return Err(e);
            },
        };
        let ghost did_ops = new@;
        let ghost linker = (did_id@, record_id@.2);
        let record_link_key = RecordLinkKey(
            did_id,
            Collection(record_id.collection()),
            RKey(record_id.rkey()),
        );
        let mut record_link_targets = RecordLinkTargets::with_capacity(links.len());
        let mut i: usize = 0;
        let ghost did_seq = store.seqs().did;
        assert(all.take(0) =~= Seq::empty());
        assert(did_ops + Seq::<Op>::empty() =~= did_ops);
        while i < links.len()
            invariant
                i <= links.len(),
                all == links_view(links@),
                linker == (did_id@, record_id@.2),
                store.wf(),
                store.writes() == self.writes(),
                store.seqs().did == did_seq,
                self == old(self),
                self.wf(),
                batch == old(batch),
                forall|j: int|
                    0 <= j < all.len() ==> known@.has(
                        target_ask(((#[trigger] all[j]).0, record_id@.1, all[j].1)),
                    ),
                forall|db: Db| #[trigger]
                    known@.agrees(db) ==> {
                        let front = new_links(
                            db,
                            linker,
                            record_id@.1,
                            all.take(i as int),
                            seqs.target,
                        );
                        &&& front is Ok
                        &&& new@ == did_ops + front->Ok_0.ops
                        &&& record_link_targets@ == front->Ok_0.targets
                        &&& store.seqs().target == front->Ok_0.seq
                    },
                forall|db: Db| #[trigger]
                    known@.agrees(db) ==> added_did(db, record_id@.0, seqs.did, did_id@, did_seq, did_ops),
                seqs == old(self).seqs(),
            decreases links.len() - i,
        {
            let link = &links[i];
            assert(all[i as int] == link@);
            assert(known@.has(target_ask((all[i as int].0, record_id@.1, all[i as int].1))));
            assert(all.take(i + 1).drop_last() =~= all.take(i as int));
            assert(all.take(i + 1).last() == link@);
            let ghost at = (
                Cf::TargetIds,
                TargetKey::bytes((all[i as int].0, record_id@.1, all[i as int].1)),
            );
            let ghost seq = store.seqs().target;
            let step = store.add_link(
                known,
                record_id,
                link,
                &did_id,
                &mut new,
                &mut record_link_targets,
            );
            proof {
                assert forall|db: Db| #[trigger] known@.agrees(db) implies known@.rows[at] == row(
                    db,
                    at.0,
                    at.1,
                ) by {}
            }
            if let Err(e) = step {
                proof {
                    assert forall|db: Db| #[trigger] known@.agrees(db) implies e is Fail && added(
                        db,
                        record_id@,
                        all,
                        seqs,
                    ) == Err::<Effect, Error>(e->Fail_0) by {
                        lemma_new_links_fail(db, linker, record_id@.1, all, seqs.target, i + 1);
                    }
                }
                return Err(e);
            }
            proof {
                assert forall|db: Db| #[trigger] known@.agrees(db) implies ({
                    let front = new_links(
                        db,
                        linker,
                        record_id@.1,
                        all.take(i + 1),
                        seqs.target,
                    );
                    &&& front is Ok
                    &&& new@ == did_ops + front->Ok_0.ops
                    &&& record_link_targets@ == front->Ok_0.targets
                    &&& store.seqs().target == front->Ok_0.seq
                }) by {
                    let next = new_links(
                        db,
                        linker,
                        record_id@.1,
                        all.take(i + 1),
                        seqs.target,
                    )->Ok_0;
                    assert(new@ =~= did_ops + next.ops);
                }
            }
            i += 1;
        }
        assert(all.take(i as int) =~= all);
        self.put_link_targets(&mut new, &record_link_key, &record_link_targets);
        batch.append(new);
        *self = store;
        Ok(())
    }

    /// The linkers without the newest link of a record, which has to be there.
    fn take_out(linkers: TargetLinkers, did_id: &DidId, rkey: &RKey, of_record: bool) -> (r: Result<
        Option<TargetLinkers>,
        Error,
    >)
        ensures
            match r {
                Ok(rest) => {
                    &&& rest is Some
                    &&& unlinked(linkers@, (did_id@, rkey@)) == Some(rest->Some_0@)
                },
                Err(e) => {
                    &&& unlinked(linkers@, (did_id@, rkey@)) is None
                    &&& e == no_link(linkers@, of_record)
                },
            },
    {
        let mut linkers = linkers;
        if of_record && linkers.0.len() == 0 {
            assert(!linkers@.contains((did_id@, rkey@)));
            return Err(Error::EmptyTarget);
        }
        if !linkers.remove_linker(did_id, rkey) {
            return Err(Error::MissingLinker);
        }
        Ok(Some(linkers))
    }

    /// A link of a record leaves the linkers of its target.
    fn unlink(
        &self,
        known: &Known,
        batch: &mut Batch,
        did_id: &DidId,
        rkey: &RKey,
        target_id: &TargetId,
        of_record: bool,
    ) -> (r: Result<(), Halt>)
        ensures
            r is Err ==> final(batch)@ == old(batch)@,
            ({
                let at = (Cf::TargetLinks, TargetId::bytes(target_id@));
                let op = unlink_in(known@.rows[at], (did_id@, rkey@), target_id@, of_record);
                match r {
                    Ok(()) => {
                        &&& known@.rows.contains_key(at)
                        &&& op is Ok
                        &&& final(batch)@ == old(batch)@.push(op->Ok_0)
                    },
                    Err(Halt::Fail(e)) => known@.rows.contains_key(at) && op == Err::<Op, Error>(e),
                    Err(Halt::Read(_)) => !known@.rows.contains_key(at),
                }
            }),
    {
        let update = |linkers: TargetLinkers| -> (out: Result<Option<TargetLinkers>, Error>)
            ensures
                match out {
                    Ok(rest) => {
                        &&& rest is Some
                        &&& unlinked(linkers@, (did_id@, rkey@)) == Some(rest->Some_0@)
                    },
                    Err(e) => {
                        &&& unlinked(linkers@, (did_id@, rkey@)) is None
                        &&& e == no_link(linkers@, of_record)
                    },
                },
            { Self::take_out(linkers, did_id, rkey, of_record) };
        match self.update_target_linkers(known, batch, target_id, update) {
            Ok(_) => Ok(()),
            Err(e) => Err(e),
        }
    }

    /// The linkers of the targets of a record that are not known.
    fn missing_linkers(known: &Known, targets: &RecordLinkTargets) -> (r: Vec<Read>)
        ensures
            forall|i: int|
                0 <= i < r.len() ==> !known@.has((#[trigger] r[i])@) && unlink_needs(
                    targets@,
                    r[i]@,
                ),
            r.len() == 0 ==> forall|i: int|
                0 <= i < targets@.len() ==> known@.has(linkers_ask((#[trigger] targets@[i]).1)),
    {
        let mut keys: Vec<Vec<u8>> = Vec::with_capacity(targets.0.len());
        for i in 0..targets.0.len()
            invariant
                keys.len() == i,
                forall|j: int|
                    0 <= j < i ==> (#[trigger] keys[j])@ == TargetId::bytes(targets@[j].1),
        {
            keys.push(_rk(&targets.0[i].1));
        }
        let r = missing_rows(known, Cf::TargetLinks, &keys);
        proof {
            assert forall|i: int| 0 <= i < r.len() implies unlink_needs(
                targets@,
                (#[trigger] r[i])@,
            ) by {
                let j = choose|j: int|
                    0 <= j < keys.len() && r[i]@ == (Ask::Row {
                        cf: Cf::TargetLinks,
                        key: (#[trigger] keys[j])@,
                    });
                assert(r[i]@ == linkers_ask(targets@[j].1));
            }
            if r.len() == 0 {
                assert forall|i: int| 0 <= i < targets@.len() implies known@.has(
                    linkers_ask((#[trigger] targets@[i]).1),
                ) by {
                    assert(known@.rows.contains_key((Cf::TargetLinks, keys[i]@)));
                }
            }
        }
        r
    }

    /// The links of a record leave the linkers of their targets, each as it is stored.
    fn unlink_all(
        &self,
        known: &Known,
        batch: &mut Batch,
        did_id: &DidId,
        rkey: &RKey,
        targets: &RecordLinkTargets,
    ) -> (r: Result<(), Error>)
        requires
            forall|i: int|
                0 <= i < targets@.len() ==> known@.has(linkers_ask((#[trigger] targets@[i]).1)),
        ensures
            forall|db: Db| #[trigger]
                known@.agrees(db) ==> {
                    let ops = unlink_ops(db, (did_id@, rkey@), targets@);
                    match r {
                        Ok(()) => ops is Ok && final(batch)@ == old(batch)@ + ops->Ok_0,
                        Err(e) => ops == Err::<Seq<Op>, Error>(e),
                    }
                },
    {
        let ghost linker = (did_id@, rkey@);
        let mut i: usize = 0;
        assert(targets@.take(0) =~= Seq::empty());
        assert(batch@ + Seq::<Op>::empty() =~= batch@);
        while i < targets.0.len()
            invariant
                i <= targets.0.len(),
                linker == (did_id@, rkey@),
                forall|i: int|
                    0 <= i < targets@.len() ==> known@.has(linkers_ask((#[trigger] targets@[i]).1)),
                forall|db: Db| #[trigger]
                    known@.agrees(db) ==> {
                        let ops = unlink_ops(db, linker, targets@.take(i as int));
                        ops is Ok && batch@ == old(batch)@ + ops->Ok_0
                    },
            decreases targets.0.len() - i,
        {
            let target_id = &targets.0[i].1;
            let ghost at = (Cf::TargetLinks, TargetId::bytes(targets@[i as int].1));
            assert(known@.has(linkers_ask(targets@[i as int].1)));
            proof {
                assert(targets@.take(i + 1).drop_last() =~= targets@.take(i as int));
                assert forall|db: Db| #[trigger] known@.agrees(db) implies known@.rows[at] == row(
                    db,
                    at.0,
                    at.1,
                ) by {}
            }
            match self.unlink(known, batch, did_id, rkey, target_id, true) {
                Ok(()) => {
                    proof {
                        assert forall|db: Db| #[trigger] known@.agrees(db) implies ({
                            let ops = unlink_ops(db, linker, targets@.take(i + 1));
                            ops is Ok && batch@ == old(batch)@ + ops->Ok_0
                        }) by {
                            let ops = unlink_ops(db, linker, targets@.take(i + 1))->Ok_0;
                            assert(batch@ =~= old(batch)@ + ops);
                        }
                    }
                },
                Err(Halt::Fail(e)) => {
                    proof {
                        assert forall|db: Db| #[trigger] known@.agrees(db) implies unlink_ops(
                            db,
                            linker,
                            targets@,
                        ) == Err::<Seq<Op>, Error>(e) by {
                            lemma_unlink_ops_fail(db, linker, targets@, i + 1);
                        }
                    }
                    return Err(e);
                },
                Err(Halt::Read(_)) => {
                    return Err(Error::Codec);
                },
            }
            i += 1;
        }
        assert(targets@.take(i as int) =~= targets@);
        Ok(())
    }

    /// A record goes, with its links, out of a database that has them among the linkers of their
    /// targets. One that is not stored changes nothing.
    pub fn remove_links(&self, known: &Known, record_id: &RecordId, batch: &mut Batch) -> (r: Result<
        (),
        Halt,
    >)
        requires
            self.wf(),
            exists|db: Db| #[trigger] known@.agrees(db) && removed(db, record_id@) is Ok,
        ensures
            r is Err ==> final(batch)@ == old(batch)@,
            forall|db: Db| #[trigger]
                known@.agrees(db) ==> {
                    let ops = removed(db, record_id@);
                    match r {
                        Ok(()) => ops is Ok && final(batch)@ == old(batch)@ + ops->Ok_0,
                        Err(Halt::Fail(_)) => false,
                        Err(Halt::Read(reads)) => wants(
                            reads@,
                            known@,
                            |ask: Ask| removed_needs(db, record_id@, ask),
                        ),
                    }
                },
    {
        let r = self.try_remove_links(known, record_id, batch);
        proof {
            let db = choose|db: Db| #[trigger] known@.agrees(db) && removed(db, record_id@) is Ok;
            assert(known@.agrees(db));
        }
        r
    }

    /// A record goes, with its links, out of whatever database. Fails where a row cannot be read, or
    /// where one of the links is not among the linkers of its target.
    pub fn try_remove_links(&self, known: &Known, record_id: &RecordId, batch: &mut Batch) -> (r: Result<
        (),
        Halt,
    >)
        requires
            self.wf(),
        ensures
            r is Err ==> final(batch)@ == old(batch)@,
            forall|db: Db| #[trigger]
                known@.agrees(db) ==> {
                    let ops = removed(db, record_id@);
                    match r {
                        Ok(()) => ops is Ok && final(batch)@ == old(batch)@ + ops->Ok_0,
                        Err(Halt::Fail(e)) => ops == Err::<Seq<Op>, Error>(e),
                        Err(Halt::Read(reads)) => wants(
                            reads@,
                            known@,
                            |ask: Ask| removed_needs(db, record_id@, ask),
                        ),
                    }
                },
    {
        assert(batch@ + Seq::<Op>::empty() =~= batch@);
        let linking_did_id: DidId = match self.did_id_table.get_id_val(known, &record_id.did) {
            Ok(Some(v)) => v.did_id(),
            Ok(None) => {
                return Ok(());
            },
            Err(e) => {
                proof {
                    if e is Read {
                        lemma_one_ask(e->Read_0@, did_ask(record_id@.0));
                    }
                }
                return Err(e);
            },
        };
        let rkey = RKey(record_id.rkey());
        let record_link_key = RecordLinkKey(
            linking_did_id,
            Collection(record_id.collection()),
            RKey(record_id.rkey()),
        );
        let record_link_targets = match self.get_record_link_targets(known, &record_link_key) {
            Ok(Some(targets)) => targets,
            Ok(None) => {
                return Ok(());
            },
            Err(e) => {
                proof {
                    if e is Read {
                        lemma_one_ask(e->Read_0@, record_ask(record_link_key@));
                    }
                }
                return Err(e);
            },
        };
        let reads = Self::missing_linkers(known, &record_link_targets);
        if reads.len() > 0 {
            return Err(Halt::Read(reads));
        }
        let mut new = Batch::new();
        if let Err(e) = self.unlink_all(
            known,
            &mut new,
            &linking_did_id,
            &rkey,
            &record_link_targets,
        ) {
            return Err(Halt::Fail(e));
        }
        self.delete_record_link(&mut new, &record_link_key);
        batch.append(new);
        Ok(())
    }

    /// A record changes its links: the old ones go, the new ones come. Both have to be possible.
    pub fn update_links(
        &mut self,
        known: &Known,
        record_id: &RecordId,
        new_links: &[CollectedLink],
        batch: &mut Batch,
    ) -> (r: Result<(), Halt>)
        requires
            old(self).wf(),
            exists|db: Db| #[trigger] known@.agrees(db) && updated(db, record_id@, links_view(new_links@), old(self).seqs()) is Ok,
        ensures
            final(self).wf(),
            final(self).writes() == old(self).writes(),
            r is Err ==> final(self).seqs() == old(self).seqs() && final(batch)@ == old(batch)@,
            forall|db: Db| #[trigger]
                known@.agrees(db) ==> {
                    let links = links_view(new_links@);
                    let effect = updated(db, record_id@, links, old(self).seqs());
                    match r {
                        Ok(()) => {
                            &&& effect is Ok
                            &&& final(batch)@ == old(batch)@ + effect->Ok_0.ops
                            &&& final(self).seqs() == effect->Ok_0.seqs
                        },
                        Err(Halt::Fail(_)) => false,
                        Err(Halt::Read(reads)) => wants(
                            reads@,
                            known@,
                            |ask: Ask|
                                removed_needs(db, record_id@, ask) || added_needs(
                                    record_id@,
                                    links,
                                    ask,
                                ),
                        ),
                    }
                },
    {
        let r = self.try_update_links(known, record_id, new_links, batch);
        proof {
            let db = choose|db: Db| #[trigger] known@.agrees(db) && updated(db, record_id@, links_view(new_links@), old(self).seqs()) is Ok;
            assert(known@.agrees(db));
        }
        r
    }

    /// A record changes its links, in whatever database. Fails where the old ones cannot go, or the
    /// new ones cannot come.
    pub fn try_update_links(
        &mut self,
        known: &Known,
        record_id: &RecordId,
        new_links: &[CollectedLink],
        batch: &mut Batch,
    ) -> (r: Result<(), Halt>)
        requires
            old(self).wf(),
        ensures
            final(self).wf(),
            final(self).writes() == old(self).writes(),
            r is Err ==> final(self).seqs() == old(self).seqs() && final(batch)@ == old(batch)@,
            forall|db: Db| #[trigger]
                known@.agrees(db) ==> {
                    let links = links_view(new_links@);
                    let effect = updated(db, record_id@, links, old(self).seqs());
                    match r {
                        Ok(()) => {
                            &&& effect is Ok
                            &&& final(batch)@ == old(batch)@ + effect->Ok_0.ops
                            &&& final(self).seqs() == effect->Ok_0.seqs
                        },
                        Err(Halt::Fail(e)) => effect == Err::<Effect, Error>(e),
                        Err(Halt::Read(reads)) => wants(
                            reads@,
                            known@,
                            |ask: Ask|
                                removed_needs(db, record_id@, ask) || added_needs(
                                    record_id@,
                                    links,
                                    ask,
                                ),
                        ),
                    }
                },
    {
        let mut new = Batch::new();
        if let Err(e) = self.try_remove_links(known, record_id, &mut new) {
            proof {
                assert forall|db: Db| #[trigger] known@.agrees(db) implies (e is Fail ==> removed(
                    db,
                    record_id@,
                ) == Err::<Seq<Op>, Error>(e->Fail_0)) by {}
            }
            return Err(e);
        }
        let ghost removes = new@;
        match self.try_add_links(known, record_id, new_links, &mut new) {
            Ok(()) => {
                let ghost before = batch@;
                batch.append(new);
                proof {
                    assert forall|db: Db| #[trigger] known@.agrees(db) implies batch@ == before
                        + updated(
                        db,
                        record_id@,
                        links_view(new_links@),
                        old(self).seqs(),
                    )->Ok_0.ops by {
                        assert(removed(db, record_id@) is Ok);
                        assert(Seq::<Op>::empty() + removed(db, record_id@)->Ok_0 =~= removes);
                    }
                }
                Ok(())
            },
            Err(e) => Err(e),
        }
    }

    /// An account becomes active or not, in a database that can tell what it was. One that is not
    /// stored changes nothing.
    pub fn set_account(&self, known: &Known, did: &Did, active: bool, batch: &mut Batch) -> (r:
        Result<(), Halt>)
        requires
            self.wf(),
            exists|db: Db| #[trigger] known@.agrees(db) && account_set(db, did@, active) is Ok,
        ensures
            r is Err ==> final(batch)@ == old(batch)@,
            forall|db: Db| #[trigger]
                known@.agrees(db) ==> {
                    let ops = account_set(db, did@, active);
                    match r {
                        Ok(()) => ops is Ok && final(batch)@ == old(batch)@ + ops->Ok_0,
                        Err(Halt::Fail(_)) => false,
                        Err(Halt::Read(reads)) => wants(
                            reads@,
                            known@,
                            |ask: Ask| ask == did_ask(did@),
                        ),
                    }
                },
    {
        let r = self.try_set_account(known, did, active, batch);
        proof {
            let db = choose|db: Db| #[trigger] known@.agrees(db) && account_set(db, did@, active) is Ok;
            assert(known@.agrees(db));
        }
        r
    }

    /// An account becomes active or not, in whatever database. Fails where its row cannot be read.
    pub fn try_set_account(&self, known: &Known, did: &Did, active: bool, batch: &mut Batch) -> (r:
        Result<(), Halt>)
        requires
            self.wf(),
        ensures
            r is Err ==> final(batch)@ == old(batch)@,
            forall|db: Db| #[trigger]
                known@.agrees(db) ==> {
                    let ops = account_set(db, did@, active);
                    match r {
                        Ok(()) => ops is Ok && final(batch)@ == old(batch)@ + ops->Ok_0,
                        Err(Halt::Fail(e)) => ops == Err::<Seq<Op>, Error>(e),
                        Err(Halt::Read(reads)) => wants(
                            reads@,
                            known@,
                            |ask: Ask| ask == did_ask(did@),
                        ),
                    }
                },
    {
        let update = |current_value: DidIdValue| -> (new: Option<DidIdValue>)
            ensures
                new is Some,
                new->Some_0@ == (current_value@.0, active),
            { Some(DidIdValue(current_value.did_id(), active)) };
        match self.update_did_id_value(known, batch, did, update) {
            Ok(_) => {
                proof {
                    assert forall|db: Db| #[trigger] known@.agrees(db) implies ({
                        let ops = account_set(db, did@, active);
                        ops is Ok && batch@ == old(batch)@ + ops->Ok_0
                    }) by {
                        assert(batch@ =~= old(batch)@ + account_set(db, did@, active)->Ok_0);
                    }
                }
                Ok(())
            },
            Err(e) => {
                proof {
                    if e is Read {
                        lemma_one_ask(e->Read_0@, did_ask(did@));
                    }
                }
                Err(e)
            },
        }
    }

    /// An event happens to a database in which it can: gives the batches to be written, one after
    /// the other. The cursor moves with the last of them.
    pub fn push(&mut self, known: &Known, event: &ActionableEvent, cursor: u64) -> (r: Result<
        Vec<Batch>,
        Halt,
    >)
        requires
            old(self).wf(),
            exists|db: Db| #[trigger] known@.agrees(db) && pushed(db, event@, cursor, old(self).seqs()) is Ok,
        ensures
            final(self).wf(),
            final(self).writes() == old(self).writes(),
            r is Err ==> final(self).seqs() == old(self).seqs(),
            forall|db: Db| #[trigger]
                known@.agrees(db) ==> {
                    let effect = pushed(db, event@, cursor, old(self).seqs());
                    match r {
                        Ok(batches) => {
                            &&& effect is Ok
                            &&& batches_view(batches@) == effect->Ok_0.batches
                            &&& final(self).seqs() == effect->Ok_0.seqs
                        },
                        Err(Halt::Fail(_)) => false,
                        Err(Halt::Read(reads)) => wants(
                            reads@,
                            known@,
                            |ask: Ask| pushed_needs(db, event@, ask),
                        ),
                    }
                },
    {
        let r = self.try_push(known, event, cursor);
        proof {
            let db = choose|db: Db| #[trigger] known@.agrees(db) && pushed(db, event@, cursor, old(self).seqs()) is Ok;
            assert(known@.agrees(db));
        }
        r
    }

    /// An event happens to whatever database: gives the batches to be written, one after the other,
    /// or says why the event cannot happen.
    #[verifier::rlimit(30)]
    pub fn try_push(&mut self, known: &Known, event: &ActionableEvent, cursor: u64) -> (r: Result<
        Vec<Batch>,
        Halt,
    >)
        requires
            old(self).wf(),
        ensures
            final(self).wf(),
            final(self).writes() == old(self).writes(),
            r is Err ==> final(self).seqs() == old(self).seqs(),
            forall|db: Db| #[trigger]
                known@.agrees(db) ==> {
                    let effect = pushed(db, event@, cursor, old(self).seqs());
                    match r {
                        Ok(batches) => {
                            &&& effect is Ok
                            &&& batches_view(batches@) == effect->Ok_0.batches
                            &&& final(self).seqs() == effect->Ok_0.seqs
                        },
                        Err(Halt::Fail(e)) => effect == Err::<Pushed, Error>(e),
                        Err(Halt::Read(reads)) => wants(
                            reads@,
                            known@,
                            |ask: Ask| pushed_needs(db, event@, ask),
                        ),
                    }
                },
    {
        let mut batch = Batch::new();
        let mut batches: Vec<Batch> = Vec::new();
        let done = match event {
            ActionableEvent::CreateLinks { record_id, links } => self.try_add_links(
                known,
                record_id,
                links.as_slice(),
                &mut batch,
            ),
            ActionableEvent::UpdateLinks { record_id, new_links } => self.try_update_links(
                known,
                record_id,
                new_links.as_slice(),
                &mut batch,
            ),
            ActionableEvent::DeleteRecord(record_id) => self.try_remove_links(
                known,
                record_id,
                &mut batch,
            ),
            ActionableEvent::ActivateAccount(did) => self.try_set_account(
                known,
                did,
                true,
                &mut batch,
            ),
            ActionableEvent::DeactivateAccount(did) => self.try_set_account(
                known,
                did,
                false,
                &mut batch,
            ),
            ActionableEvent::DeleteAccount(did) => match self.try_delete_account(
                known,
                did,
                &mut batch,
            ) {
                Ok(minis) => {
                    batches = minis;
                    Ok(())
                },
                Err(e) => Err(e),
            },
        };
        if let Err(e) = done {
            return Err(e);
        }
        let ghost minis = batches_view(batches@);
        batch.put_cf(Cf::Default, Self::cursor_key(), _rv(&cursor));
        let ghost last = batch@;
        batches.push(batch);
        proof {
            assert(batches_view(batches@) =~= minis.push(last));
            assert forall|db: Db| #[trigger] known@.agrees(db) implies ({
                let effect = pushed(db, event@, cursor, old(self).seqs());
                &&& effect is Ok
                &&& batches_view(batches@) == effect->Ok_0.batches
                &&& self.seqs() == effect->Ok_0.seqs
            }) by {
                let effect = pushed(db, event@, cursor, old(self).seqs())->Ok_0;
                assert(batches_view(batches@) =~= effect.batches);
            }
        }
        Ok(batches)
    }

    /// The key of the row that holds the cursor.
    pub fn cursor_key() -> (r: Vec<u8>)
        ensures
            r@ == cursor_key(),
    {
        copy_bytes("jetstream_cursor".as_bytes())
    }
}

/// The account of a record that comes with links has been given its id.
spec fn added_did(db: Db, did: Text, seq: u64, id: u64, next: u64, ops: Seq<Op>) -> bool {
    given::<DidIdValue>(
        row(db, Cf::DidIds, Did::bytes(did)),
        Cf::DidIds,
        Did::bytes(did),
        seq,
        true,
    ) matches Ok(g) && g.value.0 == id && g.seq == next && g.ops == ops
}

/// What fails on the first links fails on all of them.
proof fn lemma_new_links_fail(
    db: Db,
    linker: Linker,
    collection: Text,
    links: Seq<(Text, Text)>,
    seq: u64,
    n: int,
)
    requires
        0 <= n <= links.len(),
        new_links(db, linker, collection, links.take(n), seq) is Err,
    ensures
        new_links(db, linker, collection, links, seq) == new_links(
            db,
            linker,
            collection,
            links.take(n),
            seq,
        ),
    decreases links.len(),
{
    if n == links.len() {
        assert(links.take(n) =~= links);
    } else {
        assert(links.drop_last().take(n) =~= links.take(n));
        lemma_new_links_fail(db, linker, collection, links.drop_last(), seq, n);
    }
}

/// What fails on the first targets fails on all of them.
proof fn lemma_unlink_ops_fail(db: Db, linker: Linker, targets: Seq<(Text, u64)>, n: int)
    requires
        0 <= n <= targets.len(),
        unlink_ops(db, linker, targets.take(n)) is Err,
    ensures
        unlink_ops(db, linker, targets) == unlink_ops(db, linker, targets.take(n)),
    decreases targets.len(),
{
    if n == targets.len() {
        assert(targets.take(n) =~= targets);
    } else {
        assert(targets.drop_last().take(n) =~= targets.take(n));
        lemma_unlink_ops_fail(db, linker, targets.drop_last(), n);
    }
}

}
