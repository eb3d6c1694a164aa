//! What is worth saying of an operation beside what it gives.
use crate::db::Db;
use crate::error::Error;
use crate::events::RecordId;
use crate::id_table::maybe_view;
use crate::known::{lemma_one_ask, Ask, Halt, Known, Read};
use crate::model::{
    did_ask, did_of_id, did_value, linkers_ask, linkers_of, page_begin, page_end, page_needs,
    target_ask, target_id, wants,
};
use crate::records::{Did, DidId, Linker, RKey, Stored, Text};
use super::RocksStorage;
use super::reader::{asked_key, settled};
use vstd::prelude::*;

verus! {

/// An account behind an entry of the linkers of a target that could not be looked up.
#[derive(Debug, PartialEq, Eq)]
pub enum Lost {
    /// The id leads to no account.
    Did { did_id: DidId },
    /// The id leads to an account that is not stored.
    Value { did_id: DidId, did: Did },
}

/// The content of an account that could not be looked up.
pub enum LostView {
    Did { did_id: u64 },
    Value { did_id: u64, did: Text },
}

impl View for Lost {
    type V = LostView;

    open spec fn view(&self) -> LostView {
        match self {
            Lost::Did { did_id } => LostView::Did { did_id: did_id@ },
            Lost::Value { did_id, did } => LostView::Value { did_id: did_id@, did: did@ },
        }
    }
}

/// The content of accounts that could not be looked up.
pub open spec fn lost_view(lost: Seq<Lost>) -> Seq<LostView> {
    lost.map_values(|l: Lost| l@)
}

/// What is lost of the account behind an entry of the linkers of a target.
pub open spec fn lost_of(db: Db, linker: Linker) -> Result<Option<LostView>, Error> {
    if linker.0 == 0 {
        Ok(None)
    } else {
        match did_of_id(db, linker.0) {
            Err(e) => Err(e),
            Ok(None) => Ok(Some(LostView::Did { did_id: linker.0 })),
            Ok(Some(did)) => match did_value(db, did) {
                Err(e) => Err(e),
                Ok(None) => Ok(Some(LostView::Value { did_id: linker.0, did })),
                Ok(Some(_)) => Ok(None),
            },
        }
    }
}

/// What is lost of the accounts behind linkers, newest first, and whether all of them could be
/// read: it stops at the first that cannot.
pub open spec fn lost_all(db: Db, linkers: Seq<Linker>) -> (Seq<LostView>, bool)
    decreases linkers.len(),
{
    if linkers.len() == 0 {
        (Seq::empty(), true)
    } else {
        let newer = lost_all(db, linkers.skip(1));
        if !newer.1 {
            newer
        } else {
            match lost_of(db, linkers[0]) {
                Err(_) => (newer.0, false),
                Ok(Some(l)) => (newer.0.push(l), true),
                Ok(None) => newer,
            }
        }
    }
}

/// What is lost of the accounts behind a page.
pub open spec fn page_lost(
    db: Db,
    key: (Text, Text, Text),
    limit: u64,
    until: Option<u64>,
) -> Seq<LostView> {
    match target_id(db, key) {
        Ok(Some(id)) => match linkers_of(db, id) {
            Ok(linkers) => {
                let end = page_end(linkers.len() as u64, until);
                let begin = page_begin(end, limit);
                lost_all(db, linkers.subrange(begin as int, end as int)).0
            },
            Err(_) => Seq::empty(),
        },
        _ => Seq::empty(),
    }
}

impl RocksStorage {
    /// Whether a record that goes belongs to an account that is stored and not active.
    pub fn is_inactive(&self, known: &Known, record_id: &RecordId) -> (r: Result<bool, Halt>)
        requires
            self.wf(),
        ensures
            forall|db: Db| #[trigger]
                known@.agrees(db) ==> {
                    let value = did_value(db, record_id@.0);
                    match r {
                        Ok(inactive) => value is Ok && inactive == (value matches Ok(
                            Some((_, false)),
                        )),
                        Err(Halt::Fail(e)) => value == Err::<Option<(u64, bool)>, Error>(e),
                        Err(Halt::Read(reads)) => wants(
                            reads@,
                            known@,
                            |ask: Ask| ask == did_ask(record_id@.0),
                        ),
                    }
                },
    {
        match self.did_id_table.get_id_val(known, &record_id.did) {
            Ok(Some(value)) => Ok(!value.1),
            Ok(None) => Ok(false),
            Err(e) => {
                proof {
                    if e is Read {
                        lemma_one_ask(e->Read_0@, did_ask(record_id@.0));
                    }
                }
                Err(e)
            },
        }
    }

    /// What is lost of the account behind an entry of the linkers of a target.
    fn look_up(&self, known: &Known, linker: &(DidId, RKey)) -> (r: Result<Option<Lost>, Halt>)
        requires
            self.wf(),
            settled(known@, (linker.0@, linker.1@)),
        ensures
            !(r matches Err(Halt::Read(_))),
            forall|db: Db| #[trigger]
                known@.agrees(db) ==> {
                    let lost = lost_of(db, (linker.0@, linker.1@));
                    match r {
                        Ok(l) => lost == Ok::<Option<LostView>, Error>(maybe_view(l)),
                        Err(Halt::Fail(e)) => lost == Err::<Option<LostView>, Error>(e),
                        Err(Halt::Read(_)) => false,
                    }
                },
    {
        let did_id = DidId(linker.0.0);
        if did_id.is_empty() {
            return Ok(None);
        }
        let did: Did = match self.did_id_table.get_val_from_id(known, did_id.0) {
            Ok(Some(did)) => did,
            Ok(None) => {
                return Ok(Some(Lost::Did { did_id }));
            },
            Err(e) => {
                return Err(e);
            },
        };
        match self.did_id_table.get_id_val(known, &did) {
            Ok(Some(_)) => Ok(None),
            Ok(None) => Ok(Some(Lost::Value { did_id, did })),
            Err(e) => Err(e),
        }
    }

    /// The accounts behind a page that could not be looked up, newest first. It stops at the first
    /// that cannot be read, where the page itself fails.
    pub fn get_links_lost(
        &self,
        known: &Known,
        target: &str,
        collection: &str,
        path: &str,
        limit: u64,
        until: Option<u64>,
    ) -> (r: Result<Vec<Lost>, Halt>)
        requires
            self.wf(),
        ensures
            forall|db: Db| #[trigger]
                known@.agrees(db) ==> {
                    let key = (target@, collection@, path@);
                    match r {
                        Ok(lost) => lost_view(lost@) == page_lost(db, key, limit, until),
                        Err(Halt::Fail(_)) => false,
                        Err(Halt::Read(reads)) => wants(
                            reads@,
                            known@,
                            |ask: Ask| page_needs(db, key, limit, until, ask),
                        ),
                    }
                },
    {
        let mut lost: Vec<Lost> = Vec::new();
        assert(lost_view(lost@) =~= Seq::empty());
        let target_key = asked_key(target, collection, path);
        let target_id = match self.target_id_table.get_id_val(known, &target_key) {
            Ok(Some(target_id)) => target_id,
            Ok(None) | Err(Halt::Fail(_)) => {
                return Ok(lost);
            },
            Err(Halt::Read(reads)) => {
                proof {
                    lemma_one_ask(reads@, target_ask(target_key@));
                }
                return Err(Halt::Read(reads));
            },
        };
        let linkers = match self.get_target_linkers(known, &target_id) {
            Ok(linkers) => linkers,
            Err(Halt::Fail(_)) => {
                return Ok(lost);
            },
            Err(Halt::Read(reads)) => {
                proof {
                    lemma_one_ask(reads@, linkers_ask(target_id@));
                }
                return Err(Halt::Read(reads));
            },
        };
        let total: u64 = linkers.0.len() as u64;
        assert(linkers@.len() == linkers.0.len());
        let end: u64 = match until {
            Some(u) => if u <= total {
                u
            } else {
                total
            },
            None => total,
        };
        let begin: u64 = end.saturating_sub(limit);
        assert(begin == page_begin(end, limit));
        let (begin, end): (usize, usize) = (begin as usize, end as usize);
        let reads = self.missing_accounts(known, collection, &linkers, begin, end);
        if reads.len() > 0 {
            return Err(Halt::Read(reads));
        }
        let ghost page = linkers@.subrange(begin as int, end as int);
        let mut i: usize = end;
        assert(linkers@.subrange(end as int, end as int) =~= Seq::empty());
        while i > begin
            invariant
                begin <= i <= end <= linkers@.len(),
                self.wf(),
                linkers@.len() == linkers.0.len(),
                page == linkers@.subrange(begin as int, end as int),
                forall|i: int| begin <= i < end ==> settled(known@, #[trigger] linkers@[i]),
                forall|db: Db| #[trigger]
                    known@.agrees(db) ==> page_lost(
                        db,
                        (target@, collection@, path@),
                        limit,
                        until,
                    ) == lost_all(db, page).0,
                forall|db: Db| #[trigger]
                    known@.agrees(db) ==> lost_all(
                        db,
                        linkers@.subrange(i as int, end as int),
                    ) == (lost_view(lost@), true),
            decreases i,
        {
            i -= 1;
            let ghost part = linkers@.subrange(i as int, end as int);
            assert(part.skip(1) =~= linkers@.subrange(i + 1, end as int));
            assert(part[0] == linkers@[i as int]);
            assert(settled(known@, linkers@[i as int]));
            match self.look_up(known, &linkers.0[i]) {
                Ok(Some(l)) => {
                    let ghost before = lost_view(lost@);
                    let ghost new = l@;
                    lost.push(l);
                    assert(lost_view(lost@) =~= before.push(new));
                },
                Ok(None) => {},
                Err(_) => {
                    proof {
                        assert forall|db: Db| #[trigger] known@.agrees(db) implies lost_all(
                            db,
                            page,
                        ).0 == lost_view(lost@) by {
                            assert(page.skip(i - begin) =~= part);
                            lemma_lost_all_stops(db, page, i - begin);
                        }
                    }
                    return Ok(lost);
                },
            }
        }
        Ok(lost)
    }
}

/// Nothing more is noticed behind what cannot be read.
proof fn lemma_lost_all_stops(db: Db, linkers: Seq<Linker>, n: int)
    requires
        0 <= n <= linkers.len(),
        !lost_all(db, linkers.skip(n)).1,
    ensures
        lost_all(db, linkers) == lost_all(db, linkers.skip(n)),
    decreases linkers.len(),
{
    if n == 0 {
        assert(linkers.skip(0) =~= linkers);
    } else {
        assert(linkers.skip(1).skip(n - 1) =~= linkers.skip(n));
        lemma_lost_all_stops(db, linkers.skip(1), n - 1);
    }
}

}
