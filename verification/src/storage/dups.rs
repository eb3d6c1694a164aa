//! Looking for accounts that share an id.
use crate::db::{scan, Cf, Db};
use crate::known::{ask_rows, lemma_one_ask, rows_view, Ask, Halt, Known};
use crate::model::{decoded, wants};
use crate::records::{Did, DidId, DidIdValue, Text};
use std::collections::HashMap;
use super::RocksStorage;
use super::accounts::pairs_view;
use vstd::prelude::*;

verus! {

/// Something that was noticed of an account.
#[derive(Debug, PartialEq, Eq)]
pub enum Notice {
    /// Others have its id too.
    Dup { is_problem: bool, did_id: DidId, dids: Vec<Did>, did: Did },
    /// It is the first that has the id that is looked for.
    Friend { did: Did, did_id: DidId },
}

/// The content of a notice.
pub enum Noticed {
    Dup { is_problem: bool, did_id: u64, dids: Seq<Text>, did: Text },
    Friend { did: Text, did_id: u64 },
}

/// The content of accounts.
pub open spec fn dids_view(dids: Seq<Did>) -> Seq<Text> {
    dids.map_values(|d: Did| d@)
}

impl View for Notice {
    type V = Noticed;

    open spec fn view(&self) -> Noticed {
        match self {
            Notice::Dup { is_problem, did_id, dids, did } => Noticed::Dup {
                is_problem: *is_problem,
                did_id: did_id@,
                dids: dids_view(dids@),
                did: did@,
            },
            Notice::Friend { did, did_id } => Noticed::Friend { did: did@, did_id: did_id@ },
        }
    }
}

/// The content of notices.
pub open spec fn notices_view(notices: Seq<Notice>) -> Seq<Noticed> {
    notices.map_values(|n: Notice| n@)
}

/// The accounts that have an id, in their order.
pub open spec fn dids_with(accounts: Seq<(Text, (u64, bool))>, id: u64) -> Seq<Text>
    decreases accounts.len(),
{
    if accounts.len() == 0 {
        Seq::empty()
    } else {
        let front = dids_with(accounts.drop_last(), id);
        if accounts.last().1.0 == id {
            front.push(accounts.last().0)
        } else {
            front
        }
    }
}

/// What is to be noticed of accounts: each that has the id of one before it, and the first that
/// has the id `problem`.
pub open spec fn noticed(accounts: Seq<(Text, (u64, bool))>, problem: u64) -> Seq<Noticed>
    decreases accounts.len(),
{
    if accounts.len() == 0 {
        Seq::empty()
    } else {
        let front = noticed(accounts.drop_last(), problem);
        let (did, (did_id, _)) = accounts.last();
        let dids = dids_with(accounts.drop_last(), did_id);
        if dids.len() > 0 {
            front.push(Noticed::Dup { is_problem: did_id == problem, did_id, dids, did })
        } else if did_id == problem {
            front.push(Noticed::Friend { did, did_id })
        } else {
            front
        }
    }
}

/// The rows of the table of accounts.
pub open spec fn accounts_ask() -> Ask {
    Ask::Rows { cf: Cf::DidIds, prefix: Seq::empty() }
}

/// Whether every row can be read as that of an account.
pub open spec fn all_accounts(rows: Seq<(Seq<u8>, Seq<u8>)>) -> bool {
    decoded::<Did, DidIdValue>(rows).len() == rows.len()
}

fn copy_dids(dids: &Vec<Did>) -> (r: Vec<Did>)
    ensures
        dids_view(r@) == dids_view(dids@),
{
    let mut r: Vec<Did> = Vec::with_capacity(dids.len());
    for i in 0..dids.len()
        invariant
            r.len() == i,
            forall|j: int| 0 <= j < i ==> (#[trigger] r[j])@ == dids[j]@,
    {
        r.push(dids[i].clone());
    }
    assert(dids_view(r@) =~= dids_view(dids@));
    r
}

impl RocksStorage {
    /// Looks for accounts that share an id, with an eye on the id `problem_did_id`. Every row of the
    /// table is that of an account. Gives what was noticed.
    pub fn check_for_did_dups(&self, known: &Known, problem_did_id: &DidId) -> (r: Result<
        Vec<Notice>,
        Halt,
    >)
        requires
            known@.has(accounts_ask()) ==> all_accounts(known@.scans[(Cf::DidIds, Seq::empty())]),
        ensures
            r is Ok <==> known@.has(accounts_ask()),
            forall|db: Db| #[trigger]
                known@.agrees(db) ==> match r {
                    Ok(notices) => notices_view(notices@) == noticed(
                        decoded::<Did, DidIdValue>(scan(db, Cf::DidIds, Seq::empty())),
                        problem_did_id@,
                    ),
                    Err(Halt::Fail(_)) => false,
                    Err(Halt::Read(reads)) => wants(
                        reads@,
                        known@,
                        |ask: Ask| ask == accounts_ask(),
                    ),
                },
    {
        let prefix: Vec<u8> = Vec::new();
        assert(prefix@ =~= Seq::<u8>::empty());
        match known.rows(Cf::DidIds, prefix.as_slice()) {
            Some(rows) => {
                let accounts = Self::decode_rows::<Did, DidIdValue>(rows);
                assert(known@.scans.contains_key((Cf::DidIds, prefix@)));
                Ok(notice_all(&accounts, problem_did_id))
            },
            None => {
                let halt = ask_rows(Cf::DidIds, prefix);
                proof {
                    lemma_one_ask(halt->Read_0@, accounts_ask());
                }
                Err(halt)
            },
        }
    }

    /// Looks for accounts that share an id in a table that may have other rows too. Gives what was
    /// noticed, and whether every row could be read as that of an account: it stops at the first
    /// that cannot.
    pub fn try_check_for_did_dups(&self, known: &Known, problem_did_id: &DidId) -> (r: Result<
        (Vec<Notice>, bool),
        Halt,
    >)
        ensures
            forall|db: Db| #[trigger]
                known@.agrees(db) ==> {
                    let rows = scan(db, Cf::DidIds, Seq::empty());
                    match r {
                        Ok((notices, complete)) => {
                            &&& notices_view(notices@) == noticed(
                                decoded::<Did, DidIdValue>(rows),
                                problem_did_id@,
                            )
                            &&& complete == all_accounts(rows)
                        },
                        Err(Halt::Fail(_)) => false,
                        Err(Halt::Read(reads)) => wants(
                            reads@,
                            known@,
                            |ask: Ask| ask == accounts_ask(),
                        ),
                    }
                },
    {
        let prefix: Vec<u8> = Vec::new();
        assert(prefix@ =~= Seq::<u8>::empty());
        if let Some(rows) = known.rows(Cf::DidIds, prefix.as_slice()) {
            let accounts = Self::decode_rows::<Did, DidIdValue>(rows);
            proof {
                assert(known@.scans.contains_key((Cf::DidIds, prefix@)));
                assert(rows_view(rows@).len() == rows.len());
                assert(pairs_view(accounts@).len() == accounts.len());
            }
            if accounts.len() != rows.len() {
                return Ok((notice_all(&accounts, problem_did_id), false));
            }
        }
        match self.check_for_did_dups(known, problem_did_id) {
            Ok(notices) => Ok((notices, true)),
            Err(halt) => Err(halt),
        }
    }
}

/// What is to be noticed of accounts.
fn notice_all(accounts: &Vec<(Did, DidIdValue)>, problem: &DidId) -> (r: Vec<Notice>)
    ensures
        notices_view(r@) == noticed(pairs_view(accounts@), problem@),
{
    broadcast use vstd::std_specs::hash::group_hash_axioms;

    let ghost all = pairs_view(accounts@);
    let mut r: Vec<Notice> = Vec::new();
    let mut seen_ids: HashMap<u64, Vec<Did>> = HashMap::new();
    let mut i: usize = 0;
    assert(all.take(0) =~= Seq::empty());
    assert(notices_view(r@) =~= Seq::empty());
    while i < accounts.len()
        invariant
            i <= accounts.len(),
            all == pairs_view(accounts@),
            notices_view(r@) == noticed(all.take(i as int), problem@),
            forall|id: u64| #[trigger]
                seen_ids@.contains_key(id) ==> dids_with(all.take(i as int), id).len() > 0
                    && dids_view(seen_ids@[id]@) == dids_with(all.take(i as int), id),
            forall|id: u64|
                (#[trigger] dids_with(all.take(i as int), id)).len() > 0
                    ==> seen_ids@.contains_key(id),
        decreases accounts.len() - i,
    {
        let did = &accounts[i].0;
        let did_id = accounts[i].1.did_id();
        let ghost front = all.take(i as int);
        let ghost next = all.take(i + 1);
        proof {
            assert(next.drop_last() =~= front);
            assert(next.last() == (did@, accounts[i as int].1@));
        }
        let ghost before = notices_view(r@);
        let ghost seen_before = seen_ids@;
        let mut dids: Vec<Did> = Vec::new();
        match seen_ids.remove(&did_id.0) {
            Some(earlier) => {
                let notice = Notice::Dup {
                    is_problem: did_id.0 == problem.0,
                    did_id,
                    dids: copy_dids(&earlier),
                    did: did.clone(),
                };
                let ghost n = notice@;
                r.push(notice);
                assert(notices_view(r@) =~= before.push(n));
                dids = earlier;
            },
            None => {
                assert(dids_with(front, did_id@).len() == 0);
                assert(dids_view(dids@) =~= Seq::empty());
                if did_id.0 == problem.0 {
                    let notice = Notice::Friend { did: did.clone(), did_id };
                    let ghost n = notice@;
                    r.push(notice);
                    assert(notices_view(r@) =~= before.push(n));
                }
            },
        }
        let ghost earlier = dids_view(dids@);
        assert(earlier =~= dids_with(front, did_id@));
        let same = did.clone();
        dids.push(same);
        assert(dids_view(dids@) =~= earlier.push(did@));
        seen_ids.insert(did_id.0, dids);
        proof {
            assert forall|id: u64| #[trigger] seen_ids@.contains_key(id) implies dids_with(
                next,
                id,
            ).len() > 0 && dids_view(seen_ids@[id]@) == dids_with(next, id) by {
                if id != did_id@ {
                    assert(seen_before.contains_key(id));
                }
            }
            assert forall|id: u64|
                (#[trigger] dids_with(next, id)).len() > 0 implies seen_ids@.contains_key(id) by {
                if id != did_id@ {
                    assert(dids_with(front, id).len() > 0);
                }
            }
        }
        i += 1;
    }
    assert(all.take(i as int) =~= all);
    r
}

}
