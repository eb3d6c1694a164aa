//! What is asked about the links.
use crate::counts::Counts;
use crate::db::{row, Cf, Db};
use crate::error::Error;
use crate::events::{records_view, PagedAppendingCollection, RecordId};
use crate::id_table::{maybe_view, row_value};
use crate::known::{ask_row, lemma_one_ask, missing_rows, Ask, Facts, Halt, Known, Read};
use crate::linkers::alive;
use crate::model::{
    all_counts, all_counts_needs, count_needs, count_of, counts_in, cursor_key, cursor_of, did_ask,
    id_ask, ids_ask, ids_of_target, linkers_ask, page_begin, page_needs, page_of, shown, shown_all,
    shown_all_needs, shown_needs, target_ask, target_id, wants, Page,
};
use crate::records::{
    Collection, Did, DidId, Linker, RKey, RPath, Stored, Target, TargetId, TargetIdTargetPrefix,
    TargetKey, TargetLinkers, Text, _rk, _vr,
};
use crate::wire::be_bytes;
use super::RocksStorage;
use super::accounts::pairs_view;
use vstd::prelude::*;

verus! {

/// The target that a question is about.
pub(crate) fn asked_key(target: &str, collection: &str, path: &str) -> (r: TargetKey)
    ensures
        r@ == (target@, collection@, path@),
{
    TargetKey(
        Target(target.to_string()),
        Collection(collection.to_string()),
        RPath(path.to_string()),
    )
}

/// Whether enough is known to tell if an entry of the linkers of a target is to be shown.
pub open spec fn settled(facts: Facts, linker: Linker) -> bool {
    linker.0 != 0 ==> {
        let at = (Cf::DidIds, be_bytes(linker.0 as nat, 8));
        &&& facts.rows.contains_key(at)
        &&& row_value::<Did>(facts.rows[at]) matches Ok(Some(did)) ==> facts.has(did_ask(did))
    }
}

/// What a page holds.
pub open spec fn page_view(page: PagedAppendingCollection<RecordId>) -> Page {
    Page { version: page.version, items: records_view(page.items@), next: page.next }
}

impl RocksStorage {
    /// The cursor.
    pub fn get_cursor(&self, known: &Known) -> (r: Result<Option<u64>, Halt>)
        ensures
            forall|db: Db| #[trigger]
                known@.agrees(db) ==> match r {
                    Ok(cursor) => cursor_of(db) == Ok::<Option<u64>, Error>(cursor),
                    Err(Halt::Fail(e)) => cursor_of(db) == Err::<Option<u64>, Error>(e),
                    Err(Halt::Read(reads)) => wants(
                        reads@,
                        known@,
                        |ask: Ask| ask == (Ask::Row { cf: Cf::Default, key: cursor_key() }),
                    ),
                },
    {
        let key = Self::cursor_key();
        match known.row(Cf::Default, key.as_slice()) {
            Some(Some(b)) => match _vr::<u64>(b.as_slice()) {
                Ok(cursor) => Ok(Some(cursor)),
                Err(e) => Err(Halt::Fail(e)),
            },
            Some(None) => Ok(None),
            None => {
                let halt = ask_row(Cf::Default, key);
                proof {
                    lemma_one_ask(
                        halt->Read_0@,
                        Ask::Row { cf: Cf::Default, key: cursor_key() },
                    );
                }
                Err(halt)
            },
        }
    }

    /// How many links there are to a target from a path of a collection.
    pub fn get_count(&self, known: &Known, target: &str, collection: &str, path: &str) -> (r: Result<
        u64,
        Halt,
    >)
        requires
            self.wf(),
        ensures
            forall|db: Db| #[trigger]
                known@.agrees(db) ==> {
                    let key = (target@, collection@, path@);
                    match r {
                        Ok(n) => count_of(db, key) == Ok::<u64, Error>(n),
                        Err(Halt::Fail(e)) => count_of(db, key) == Err::<u64, Error>(e),
                        Err(Halt::Read(reads)) => wants(
                            reads@,
                            known@,
                            |ask: Ask| count_needs(db, key, ask),
                        ),
                    }
                },
    {
        let target_key = asked_key(target, collection, path);
        match self.target_id_table.get_id_val(known, &target_key) {
            Ok(Some(target_id)) => match self.get_target_linkers(known, &target_id) {
                Ok(linkers) => {
                    let (alive, _gone) = linkers.count();
                    Ok(alive)
                },
                Err(e) => {
                    proof {
                        if e is Read {
                            lemma_one_ask(e->Read_0@, linkers_ask(target_id@));
                        }
                    }
                    Err(e)
                },
            },
            Ok(None) => Ok(0),
            Err(e) => {
                proof {
                    if e is Read {
                        lemma_one_ask(e->Read_0@, target_ask(target_key@));
                    }
                }
                Err(e)
            },
        }
    }

    /// The record behind an entry of the linkers of a target, if it is to be shown.
    fn show(&self, known: &Known, collection: &str, linker: &(DidId, RKey)) -> (r:
        Result<Option<RecordId>, Halt>)
        requires
            self.wf(),
        ensures
            r matches Err(Halt::Read(_)) <==> !settled(known@, (linker.0@, linker.1@)),
            r matches Err(Halt::Read(reads)) ==> reads.len() > 0,
            forall|db: Db| #[trigger]
                known@.agrees(db) ==> {
                    let is_shown = shown(db, collection@, (linker.0@, linker.1@));
                    match r {
                        Ok(record) => is_shown == Ok::<Option<(Text, Text, Text)>, Error>(
                            maybe_view(record),
                        ),
                        Err(Halt::Fail(e)) => is_shown == Err::<
                            Option<(Text, Text, Text)>,
                            Error,
                        >(e),
                        Err(Halt::Read(reads)) => wants(
                            reads@,
                            known@,
                            |ask: Ask| shown_needs(db, (linker.0@, linker.1@), ask),
                        ),
                    }
                },
    {
        let (did_id, rkey) = linker;
        if did_id.is_empty() {
            return Ok(None);
        }
        let did: Did = match self.did_id_table.get_val_from_id(known, did_id.0) {
            Ok(Some(did)) => did,
            Ok(None) => {
                return Ok(None);
            },
            Err(e) => {
                proof {
                    if e is Read {
                        lemma_one_ask(e->Read_0@, id_ask(did_id@));
                    }
                }
                return Err(e);
            },
        };
        match self.did_id_table.get_id_val(known, &did) {
            Ok(Some(value)) => if value.1 {
                let record = RecordId {
                    did,
                    collection: collection.to_string(),
                    rkey: rkey.0.clone(),
                };
                Ok(Some(record))
            } else {
                Ok(None)
            },
            Ok(None) => Ok(None),
            Err(e) => {
                proof {
                    if e is Read {
                        lemma_one_ask(e->Read_0@, did_ask(did@));
                    }
                }
                Err(e)
            },
        }
    }

    /// What is not known of the accounts of linkers.
    pub(crate) fn missing_accounts(
        &self,
        known: &Known,
        collection: &str,
        linkers: &TargetLinkers,
        begin: usize,
        end: usize,
    ) -> (r: Vec<Read>)
        requires
            self.wf(),
            begin <= end <= linkers@.len(),
        ensures
            forall|db: Db| #[trigger]
                known@.agrees(db) ==> forall|i: int|
                    0 <= i < r.len() ==> shown_all_needs(
                        db,
                        linkers@.subrange(begin as int, end as int),
                        (#[trigger] r@[i])@,
                    ) && !known@.has(r@[i]@),
            r.len() == 0 ==> forall|i: int|
                begin <= i < end ==> settled(known@, #[trigger] linkers@[i]),
    {
        let ghost page = linkers@.subrange(begin as int, end as int);
        let mut r: Vec<Read> = Vec::new();
        let mut i: usize = begin;
        while i < end
            invariant
                begin <= i <= end <= linkers@.len(),
                self.wf(),
                page == linkers@.subrange(begin as int, end as int),
                forall|db: Db| #[trigger]
                    known@.agrees(db) ==> forall|j: int|
                        0 <= j < r.len() ==> shown_all_needs(db, page, (#[trigger] r@[j])@)
                            && !known@.has(r@[j]@),
                r.len() == 0 ==> forall|j: int|
                    begin <= j < i ==> settled(known@, #[trigger] linkers@[j]),
            decreases end - i,
        {
            let ghost linker = linkers@[i as int];
            assert(page[i - begin] == linker);
            if let Err(Halt::Read(reads)) = self.show(known, collection, &linkers.0[i]) {
                let mut reads = reads;
                let ghost before = r@;
                let ghost new = reads@;
                r.append(&mut reads);
                proof {
                    assert forall|db: Db| #[trigger] known@.agrees(db) implies forall|j: int|
                        0 <= j < r.len() ==> shown_all_needs(db, page, (#[trigger] r@[j])@)
                            && !known@.has(r@[j]@) by {
                        assert forall|j: int| 0 <= j < r.len() implies shown_all_needs(
                            db,
                            page,
                            (#[trigger] r@[j])@,
                        ) && !known@.has(r@[j]@) by {
                            if j < before.len() {
                                assert(r@[j] == before[j]);
                            } else {
                                assert(r@[j] == new[j - before.len()]);
                                assert(shown_needs(db, page[i - begin], r@[j]@));
                            }
                        }
                    }
                }
            }
            i += 1;
        }
        r
    }

    /// The records behind linkers that are to be shown, newest first.
    fn show_all(
        &self,
        known: &Known,
        collection: &str,
        linkers: &TargetLinkers,
        begin: usize,
        end: usize,
    ) -> (r: Result<Vec<RecordId>, Error>)
        requires
            self.wf(),
            begin <= end <= linkers@.len(),
            forall|i: int| begin <= i < end ==> settled(known@, #[trigger] linkers@[i]),
        ensures
            forall|db: Db| #[trigger]
                known@.agrees(db) ==> {
                    let all = shown_all(
                        db,
                        collection@,
                        linkers@.subrange(begin as int, end as int),
                    );
                    match r {
                        Ok(items) => all == Ok::<Seq<(Text, Text, Text)>, Error>(
                            records_view(items@),
                        ),
                        Err(e) => all == Err::<Seq<(Text, Text, Text)>, Error>(e),
                    }
                },
    {
        let mut items: Vec<RecordId> = Vec::with_capacity(end - begin);
        let mut i: usize = end;
        assert(linkers@.subrange(end as int, end as int) =~= Seq::empty());
        assert(records_view(items@) =~= Seq::empty());
        while i > begin
            invariant
                begin <= i <= end <= linkers@.len(),
                self.wf(),
                forall|i: int| begin <= i < end ==> settled(known@, #[trigger] linkers@[i]),
                forall|db: Db| #[trigger]
                    known@.agrees(db) ==> shown_all(
                        db,
                        collection@,
                        linkers@.subrange(i as int, end as int),
                    ) == Ok::<Seq<(Text, Text, Text)>, Error>(records_view(items@)),
            decreases i,
        {
            i -= 1;
            let ghost part = linkers@.subrange(i as int, end as int);
            assert(part.skip(1) =~= linkers@.subrange(i + 1, end as int));
            assert(part[0] == linkers@[i as int]);
            assert(settled(known@, linkers@[i as int]));
            match self.show(known, collection, &linkers.0[i]) {
                Ok(Some(record)) => {
                    let ghost before = records_view(items@);
                    let ghost new = record@;
                    items.push(record);
                    assert(records_view(items@) =~= before.push(new));
                },
                Ok(None) => {},
                Err(e) => {
                    proof {
                        assert forall|db: Db| #[trigger] known@.agrees(db) implies e is Fail
                            && shown_all(
                            db,
                            collection@,
                            linkers@.subrange(begin as int, end as int),
                        ) == Err::<Seq<(Text, Text, Text)>, Error>(e->Fail_0) by {
                            let whole = linkers@.subrange(begin as int, end as int);
                            assert(whole.skip(i - begin) =~= part);
                            lemma_shown_all_fail(db, collection@, whole, i - begin);
                        }
                    }
                    return match e {
                        Halt::Fail(e) => Err(e),
                        Halt::Read(_) => Err(Error::Codec),
                    };
                },
            }
        }
        Ok(items)
    }

    /// The links to a target from a path of a collection, newest first: at most `limit` entries
    /// of the list of its linkers, which end at `until`.
    pub fn get_links(
        &self,
        known: &Known,
        target: &str,
        collection: &str,
        path: &str,
        limit: u64,
        until: Option<u64>,
    ) -> (r: Result<PagedAppendingCollection<RecordId>, Halt>)
        requires
            self.wf(),
        ensures
            forall|db: Db| #[trigger]
                known@.agrees(db) ==> {
                    let key = (target@, collection@, path@);
                    let asked = page_of(db, key, limit, until);
                    match r {
                        Ok(page) => asked == Ok::<Page, Error>(page_view(page)),
                        Err(Halt::Fail(e)) => asked == Err::<Page, Error>(e),
                        Err(Halt::Read(reads)) => wants(
                            reads@,
                            known@,
                            |ask: Ask| page_needs(db, key, limit, until, ask),
                        ),
                    }
                },
    {
        let target_key = asked_key(target, collection, path);
        let target_id = match self.target_id_table.get_id_val(known, &target_key) {
            Ok(Some(target_id)) => target_id,
            Ok(None) => {
                let page = PagedAppendingCollection {
                    version: (0, 0),
                    items: Vec::new(),
                    next: None,
                };
                assert(records_view(page.items@) =~= Seq::empty());
                return Ok(page);
            },
            Err(e) => {
                proof {
                    if e is Read {
                        lemma_one_ask(e->Read_0@, target_ask(target_key@));
                    }
                }
                return Err(e);
            },
        };
        let linkers = match self.get_target_linkers(known, &target_id) {
            Ok(linkers) => linkers,
            Err(e) => {
                proof {
                    if e is Read {
                        lemma_one_ask(e->Read_0@, linkers_ask(target_id@));
                    }
                }
                return Err(e);
            },
        };
        let (alive, gone) = linkers.count();
        assert(linkers@.len() == linkers.0.len());
        let total: u64 = alive + gone;
        let end: u64 = match until {
            Some(u) => if u <= total {
                u
            } else {
                total
            },
            None => total,
        };
        let begin: u64 = end.saturating_sub(limit);
        let next = if begin == 0 {
            None
        } else {
            Some(begin)
        };
        assert(begin == page_begin(end, limit));
        let reads = self.missing_accounts(
            known,
            collection,
            &linkers,
            begin as usize,
            end as usize,
        );
        if reads.len() > 0 {
            return Err(Halt::Read(reads));
        }
        match self.show_all(known, collection, &linkers, begin as usize, end as usize) {
            Ok(items) => Ok(PagedAppendingCollection { version: (total, gone), items, next }),
            Err(e) => Err(Halt::Fail(e)),
        }
    }

    /// How many links there are to a target, by collection and path.
    pub fn get_all_counts(&self, known: &Known, target: &str) -> (r: Result<Counts, Halt>)
        ensures
            r matches Ok(counts) ==> counts.wf(),
            forall|db: Db| #[trigger]
                known@.agrees(db) ==> {
                    let asked = all_counts(db, target@);
                    match r {
                        Ok(counts) => asked == Ok::<Map<Text, Map<Text, u64>>, Error>(counts@),
                        Err(Halt::Fail(e)) => asked == Err::<Map<Text, Map<Text, u64>>, Error>(e),
                        Err(Halt::Read(reads)) => wants(
                            reads@,
                            known@,
                            |ask: Ask| all_counts_needs(db, target@, ask),
                        ),
                    }
                },
    {
        let ids = match self.iter_targets_for_target(known, &Target(target.to_string())) {
            Ok(ids) => ids,
            Err(e) => {
                proof {
                    lemma_one_ask(e->Read_0@, ids_ask(target@));
                }
                return Err(e);
            },
        };
        let ghost all = pairs_view(ids@);
        proof {
            let at = (Cf::TargetIds, TargetIdTargetPrefix::bytes(target@));
            assert forall|db: Db| #[trigger] known@.agrees(db) implies ids_of_target(db, target@)
                == all by {
                assert(known@.scans.contains_key((at.0, at.1)));
            }
        }
        let mut keys: Vec<Vec<u8>> = Vec::with_capacity(ids.len());
        for i in 0..ids.len()
            invariant
                keys.len() == i,
                forall|j: int| 0 <= j < i ==> (#[trigger] keys[j])@ == TargetId::bytes(ids[j].1@),
        {
            keys.push(_rk(&ids[i].1));
        }
        let reads = missing_rows(known, Cf::TargetLinks, &keys);
        if reads.len() > 0 {
            proof {
                assert forall|db: Db| #[trigger] known@.agrees(db) implies wants(
                    reads@,
                    known@,
                    |ask: Ask| all_counts_needs(db, target@, ask),
                ) by {
                    assert forall|i: int| 0 <= i < reads.len() implies all_counts_needs(
                        db,
                        target@,
                        (#[trigger] reads@[i])@,
                    ) by {
                        let j = choose|j: int|
                            0 <= j < keys.len() && reads[i]@ == (Ask::Row {
                                cf: Cf::TargetLinks,
                                key: (#[trigger] keys[j])@,
                            });
                        assert(reads@[i]@ == linkers_ask(ids_of_target(db, target@)[j].1));
                    }
                }
            }
            return Err(Halt::Read(reads));
        }
        let mut counts = Counts::new();
        let mut i: usize = 0;
        assert(all.take(0) =~= Seq::empty());
        while i < ids.len()
            invariant
                i <= ids.len(),
                keys.len() == ids.len(),
                all == pairs_view(ids@),
                counts.wf(),
                forall|j: int|
                    0 <= j < ids.len() ==> (#[trigger] keys[j])@ == TargetId::bytes(ids[j].1@),
                forall|j: int|
                    0 <= j < keys.len() ==> known@.rows.contains_key(
                        (Cf::TargetLinks, (#[trigger] keys[j])@),
                    ),
                forall|db: Db| #[trigger]
                    known@.agrees(db) ==> ids_of_target(db, target@) == all,
                forall|db: Db| #[trigger]
                    known@.agrees(db) ==> counts_in(db, all.take(i as int)) == Ok::<
                        Map<Text, Map<Text, u64>>,
                        Error,
                    >(counts@),
            decreases ids.len() - i,
        {
            assert(all.take(i + 1).drop_last() =~= all.take(i as int));
            assert(all.take(i + 1).last() == (ids[i as int].0@, ids[i as int].1@));
            assert(known@.rows.contains_key((Cf::TargetLinks, keys[i as int]@)));
            match self.get_target_linkers(known, &ids[i].1) {
                Ok(linkers) => {
                    let (count, _gone) = linkers.count();
                    let target_key = &ids[i].0;
                    counts.insert(target_key.1.0.clone(), target_key.2.0.clone(), count);
                },
                Err(e) => {
                    proof {
                        assert forall|db: Db| #[trigger] known@.agrees(db) implies e is Fail
                            && all_counts(db, target@) == Err::<Map<Text, Map<Text, u64>>, Error>(
                            e->Fail_0,
                        ) by {
                            lemma_counts_in_fail(db, all, i + 1);
                        }
                    }
                    return Err(e);
                },
            }
            i += 1;
        }
        assert(all.take(i as int) =~= all);
        Ok(counts)
    }
}

/// What fails on the newer linkers fails on all of them.
proof fn lemma_shown_all_fail(db: Db, collection: Text, linkers: Seq<Linker>, n: int)
    requires
        0 <= n <= linkers.len(),
        shown_all(db, collection, linkers.skip(n)) is Err,
    ensures
        shown_all(db, collection, linkers) == shown_all(db, collection, linkers.skip(n)),
    decreases linkers.len(),
{
    if n == 0 {
        assert(linkers.skip(0) =~= linkers);
    } else {
        assert(linkers.skip(1).skip(n - 1) =~= linkers.skip(n));
        lemma_shown_all_fail(db, collection, linkers.skip(1), n - 1);
    }
}

/// What fails on the first ids fails on all of them.
proof fn lemma_counts_in_fail(db: Db, ids: Seq<((Text, Text, Text), u64)>, n: int)
    requires
        0 <= n <= ids.len(),
        counts_in(db, ids.take(n)) is Err,
    ensures
        counts_in(db, ids) == counts_in(db, ids.take(n)),
    decreases ids.len(),
{
    if n == ids.len() {
        assert(ids.take(n) =~= ids);
    } else {
        assert(ids.drop_last().take(n) =~= ids.take(n));
        lemma_counts_in_fail(db, ids.drop_last(), n);
    }
}

}
