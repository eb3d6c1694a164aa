//! What operations may ask for, and what it is to know something.
use crate::db::{row, scan, Cf, Db};
use crate::events::Event;
use crate::known::{Ask, Facts, Read};
use crate::model::{
    account_deleted_needs, added_needs, all_counts_needs, count_needs, did_of_id, did_value,
    ids_of_target, linkers_ask, linkers_of, page_begin, page_end, page_needs, pushed_needs,
    record_targets, records_of, removed_needs, shown_all_needs, shown_needs, target_id,
    unlink_needs, wants,
};
use crate::records::{
    Did, RecordLinkKey, RecordLinkKeyDidIdPrefix, Stored, TargetId, TargetIdTargetPrefix, TargetKey,
    TargetLinkers, Text,
};
use crate::wire::be_bytes;
use vstd::prelude::*;

verus! {

/// What is known is true where every row that is known is as it is stored, and the rows behind each
/// prefix that are known are those that are stored.
pub proof fn law_agrees(facts: Facts, db: Db)
    ensures
        facts.agrees(db) <==> {
            &&& forall|at: (Cf, Seq<u8>)| #[trigger]
                facts.rows.contains_key(at) ==> facts.rows[at] == row(db, at.0, at.1)
            &&& forall|at: (Cf, Seq<u8>)| #[trigger]
                facts.scans.contains_key(at) ==> facts.scans[at] == scan(db, at.0, at.1)
        },
{
    if facts.agrees(db) {
        assert forall|at: (Cf, Seq<u8>)| #[trigger] facts.rows.contains_key(at) implies facts.rows[at]
            == row(db, at.0, at.1) by {
            assert(facts.rows.contains_key((at.0, at.1)));
        }
        assert forall|at: (Cf, Seq<u8>)| #[trigger]
            facts.scans.contains_key(at) implies facts.scans[at] == scan(db, at.0, at.1) by {
            assert(facts.scans.contains_key((at.0, at.1)));
        }
    }
}

/// An answer is known where its row is, or the rows behind its prefix are.
pub proof fn law_has(facts: Facts, cf: Cf, key: Seq<u8>)
    ensures
        facts.has(Ask::Row { cf, key }) <==> facts.rows.contains_key((cf, key)),
        facts.has(Ask::Rows { cf, prefix: key }) <==> facts.scans.contains_key((cf, key)),
{
}

/// What is known here goes over what is known below.
pub proof fn law_over(here: Facts, below: Facts, at: (Cf, Seq<u8>))
    ensures
        here.rows.contains_key(at) ==> here.over(below).rows.contains_key(at) && here.over(
            below,
        ).rows[at] == here.rows[at],
        !here.rows.contains_key(at) && below.rows.contains_key(at) ==> here.over(
            below,
        ).rows.contains_key(at) && here.over(below).rows[at] == below.rows[at],
        !here.rows.contains_key(at) && !below.rows.contains_key(at) ==> !here.over(
            below,
        ).rows.contains_key(at),
{
}

/// An operation that stops to read asks for something, and for nothing that is known or that it
/// does not need.
pub proof fn law_wants(reads: Seq<Read>, facts: Facts, needed: spec_fn(Ask) -> bool)
    requires
        wants(reads, facts, needed),
    ensures
        reads.len() > 0,
        forall|i: int|
            0 <= i < reads.len() ==> needed((#[trigger] reads[i])@) && match reads[i] {
                Read::Row { cf, key } => !facts.rows.contains_key((cf, key@)),
                Read::Rows { cf, prefix } => !facts.scans.contains_key((cf, prefix@)),
            },
{
    assert forall|i: int| 0 <= i < reads.len() implies needed((#[trigger] reads[i])@)
        && match reads[i] {
        Read::Row { cf, key } => !facts.rows.contains_key((cf, key@)),
        Read::Rows { cf, prefix } => !facts.scans.contains_key((cf, prefix@)),
    } by {
        assert(!facts.has(reads[i]@));
    }
}

/// A count needs no more than the id of the target and its linkers.
pub proof fn law_count_needs(db: Db, key: (Text, Text, Text), ask: Ask)
    requires
        count_needs(db, key, ask),
    ensures
        ask == (Ask::Row { cf: Cf::TargetIds, key: TargetKey::bytes(key) }) || (target_id(db, key)
            matches Ok(Some(id)) && ask == (Ask::Row {
            cf: Cf::TargetLinks,
            key: TargetId::bytes(id),
        })),
{
}

/// A page needs no more than a count does and, for entries from where it begins to where it ends,
/// the account of the entry.
pub proof fn law_page_needs(
    db: Db,
    key: (Text, Text, Text),
    limit: u64,
    until: Option<u64>,
    ask: Ask,
)
    requires
        page_needs(db, key, limit, until, ask),
    ensures
        ask == (Ask::Row { cf: Cf::TargetIds, key: TargetKey::bytes(key) }) || (target_id(db, key)
            matches Ok(Some(id)) && (ask == (Ask::Row {
            cf: Cf::TargetLinks,
            key: TargetId::bytes(id),
        }) || (linkers_of(db, id) matches Ok(linkers) && exists|i: int|
            0 <= i < linkers.len() && (#[trigger] linkers[i]).0 != 0 && (ask == (Ask::Row {
                cf: Cf::DidIds,
                key: be_bytes(linkers[i].0 as nat, 8),
            }) || (did_of_id(db, linkers[i].0) matches Ok(Some(did)) && ask == (Ask::Row {
                cf: Cf::DidIds,
                key: Did::bytes(did),
            })))))),
{
    if let Ok(Some(id)) = target_id(db, key) {
        if let Ok(linkers) = linkers_of(db, id) {
            lemma_linkers_len(db, id);
            let end = page_end(linkers.len() as u64, until);
            let begin = page_begin(end, limit);
            let part = linkers.subrange(begin as int, end as int);
            if shown_all_needs(db, part, ask) {
                let j = choose|j: int|
                    0 <= j < part.len() && shown_needs(db, #[trigger] part[j], ask);
                assert(part[j] == linkers[begin + j]);
            }
        }
    }
}

/// The counts of a target need no more than its ids and their linkers.
pub proof fn law_all_counts_needs(db: Db, target: Text, ask: Ask)
    requires
        all_counts_needs(db, target, ask),
    ensures
        ask == (Ask::Rows { cf: Cf::TargetIds, prefix: TargetIdTargetPrefix::bytes(target) })
            || exists|i: int|
            0 <= i < ids_of_target(db, target).len() && ask == (Ask::Row {
                cf: Cf::TargetLinks,
                key: TargetId::bytes((#[trigger] ids_of_target(db, target)[i]).1),
            }),
{
}

/// A record that comes needs no more than its account and the ids of its targets.
pub proof fn law_added_needs(record: (Text, Text, Text), links: Seq<(Text, Text)>, ask: Ask)
    requires
        added_needs(record, links, ask),
    ensures
        ask == (Ask::Row { cf: Cf::DidIds, key: Did::bytes(record.0) }) || exists|i: int|
            0 <= i < links.len() && ask == (Ask::Row {
                cf: Cf::TargetIds,
                key: TargetKey::bytes(((#[trigger] links[i]).0, record.1, links[i].1)),
            }),
{
}

/// A record that goes needs no more than its account, its links, and the linkers of their targets.
pub proof fn law_removed_needs(db: Db, record: (Text, Text, Text), ask: Ask)
    requires
        removed_needs(db, record, ask),
    ensures
        ask == (Ask::Row { cf: Cf::DidIds, key: Did::bytes(record.0) }) || (did_value(db, record.0)
            matches Ok(Some((did_id, _))) && (ask == (Ask::Row {
            cf: Cf::LinkTargets,
            key: RecordLinkKey::bytes((did_id, record.1, record.2)),
        }) || (record_targets(db, (did_id, record.1, record.2)) matches Ok(Some(targets))
            && exists|i: int|
            0 <= i < targets.len() && ask == (Ask::Row {
                cf: Cf::TargetLinks,
                key: TargetId::bytes((#[trigger] targets[i]).1),
            })))),
{
}

/// An account that goes needs no more than itself, its records, and the linkers of their targets.
pub proof fn law_account_deleted_needs(db: Db, did: Text, ask: Ask)
    requires
        account_deleted_needs(db, did, ask),
    ensures
        ask == (Ask::Row { cf: Cf::DidIds, key: Did::bytes(did) }) || (did_value(db, did) matches Ok(
            Some((did_id, _)),
        ) && (ask == (Ask::Rows {
            cf: Cf::LinkTargets,
            prefix: RecordLinkKeyDidIdPrefix::bytes(did_id),
        }) || exists|i: int, j: int|
            #![trigger records_of(db, did_id)[i].1[j]]
            0 <= i < records_of(db, did_id).len() && 0 <= j < records_of(db, did_id)[i].1.len()
                && ask == (Ask::Row {
                cf: Cf::TargetLinks,
                key: TargetId::bytes(records_of(db, did_id)[i].1[j].1),
            }))),
{
    if let Ok(Some((did_id, _))) = did_value(db, did) {
        let records = records_of(db, did_id);
        if exists|i: int|
            0 <= i < records.len() && unlink_needs((#[trigger] records[i]).1, ask) {
            let i = choose|i: int|
                0 <= i < records.len() && unlink_needs((#[trigger] records[i]).1, ask);
            let targets = records[i].1;
            let j = choose|j: int|
                0 <= j < targets.len() && ask == linkers_ask((#[trigger] targets[j]).1);
            assert(records_of(db, did_id)[i].1[j] == targets[j]);
        }
    }
}

/// An event needs no more than what it is made of.
pub proof fn law_pushed_needs(db: Db, event: Event, ask: Ask)
    requires
        pushed_needs(db, event, ask),
    ensures
        match event {
            Event::CreateLinks { record, links } => added_needs(record, links, ask),
            Event::UpdateLinks { record, links } => removed_needs(db, record, ask) || added_needs(
                record,
                links,
                ask,
            ),
            Event::DeleteRecord { record } => removed_needs(db, record, ask),
            Event::ActivateAccount { did } => ask == (Ask::Row {
                cf: Cf::DidIds,
                key: Did::bytes(did),
            }),
            Event::DeactivateAccount { did } => ask == (Ask::Row {
                cf: Cf::DidIds,
                key: Did::bytes(did),
            }),
            Event::DeleteAccount { did } => account_deleted_needs(db, did, ask),
        },
{
}

/// The linkers of a target that can be read are no more than a row can count.
pub proof fn lemma_linkers_len(db: Db, id: u64)
    ensures
        linkers_of(db, id) matches Ok(linkers) ==> linkers.len() <= u64::MAX
            && TargetLinkers::fits(linkers),
{
    if let Some(b) = row(db, Cf::TargetLinks, TargetId::bytes(id)) {
        if TargetLinkers::parsed(b) is Some {
            TargetLinkers::lemma_parsed_fits(b);
        }
    }
}

}
