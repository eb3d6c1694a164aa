//! What the operations mean, said of the rows of the database.
use crate::db::{apply, apply_all, row, scan, Cf, Db, Op};
use crate::error::Error;
use crate::events::Event;
use crate::id_table::{given, row_value};
use crate::known::{Ask, Facts, Read};
use crate::linkers::{alive, row_linkers, unlinked};
use crate::records::{
    Did, DidIdValue, Linker, RecordLinkKey, RecordLinkKeyDidIdPrefix, RecordLinkTargets, Stored,
    TargetId, TargetIdTargetPrefix, TargetKey, TargetLinkers, Text,
};
use crate::wire::be_bytes;
use vstd::prelude::*;
use vstd::utf8::encode_utf8;

verus! {

/// The sequences of the two id tables.
pub struct Seqs {
    /// The newest id given to an account.
    pub did: u64,
    /// The newest id given to a target.
    pub target: u64,
}

// ---------------------------------------------------------------------------------------------
// what is stored

/// What is stored of an account: its id, and whether it is active.
pub open spec fn did_value(db: Db, did: Text) -> Result<Option<(u64, bool)>, Error> {
    row_value::<DidIdValue>(row(db, Cf::DidIds, Did::bytes(did)))
}

/// The account that has an id.
pub open spec fn did_of_id(db: Db, id: u64) -> Result<Option<Text>, Error> {
    row_value::<Did>(row(db, Cf::DidIds, be_bytes(id as nat, 8)))
}

/// The id of a target as linked from a path of a collection.
pub open spec fn target_id(db: Db, key: (Text, Text, Text)) -> Result<Option<u64>, Error> {
    row_value::<TargetId>(row(db, Cf::TargetIds, TargetKey::bytes(key)))
}

/// The linkers that a row holds, or the reason for which it holds none.
pub open spec fn linkers_in(row: Option<Seq<u8>>) -> Result<Seq<Linker>, Error> {
    match row_linkers(row) {
        Some(linkers) => Ok(linkers),
        None => Err(Error::Codec),
    }
}

/// The linkers of a target.
pub open spec fn linkers_of(db: Db, id: u64) -> Result<Seq<Linker>, Error> {
    linkers_in(row(db, Cf::TargetLinks, TargetId::bytes(id)))
}

/// The links of a record.
pub open spec fn record_targets(db: Db, key: (u64, Text, Text)) -> Result<
    Option<Seq<(Text, u64)>>,
    Error,
> {
    row_value::<RecordLinkTargets>(row(db, Cf::LinkTargets, RecordLinkKey::bytes(key)))
}

/// The rows that can be read, up to the first that cannot.
pub open spec fn decoded<K: Stored, V: Stored>(rows: Seq<(Seq<u8>, Seq<u8>)>) -> Seq<(K::V, V::V)>
    decreases rows.len(),
{
    if rows.len() == 0 {
        Seq::empty()
    } else {
        match (K::parsed(rows[0].0), V::parsed(rows[0].1)) {
            (Some(k), Some(v)) => seq![(k, v)] + decoded::<K, V>(rows.skip(1)),
            _ => Seq::empty(),
        }
    }
}

/// The records of an account, each with its links.
pub open spec fn records_of(db: Db, did_id: u64) -> Seq<((u64, Text, Text), Seq<(Text, u64)>)> {
    decoded::<RecordLinkKey, RecordLinkTargets>(
        scan(db, Cf::LinkTargets, RecordLinkKeyDidIdPrefix::bytes(did_id)),
    )
}

/// The ids of a target, whatever the collection and the path.
pub open spec fn ids_of_target(db: Db, target: Text) -> Seq<((Text, Text, Text), u64)> {
    decoded::<TargetKey, TargetId>(scan(db, Cf::TargetIds, TargetIdTargetPrefix::bytes(target)))
}

// ---------------------------------------------------------------------------------------------
// what events change

/// Changes to be made together, and the sequences behind them.
pub struct Effect {
    pub ops: Seq<Op>,
    pub seqs: Seqs,
}

/// A link from a record of an account, to be put behind the other linkers of a target.
pub open spec fn merge_op(id: u64, linker: Linker) -> Op {
    Op::Merge {
        cf: Cf::TargetLinks,
        key: TargetId::bytes(id),
        operand: TargetLinkers::bytes(seq![linker]),
    }
}

/// New links of a record: the changes they need, the links as the record keeps them, and the
/// sequence of the target ids behind them.
pub struct NewLinks {
    pub ops: Seq<Op>,
    pub targets: Seq<(Text, u64)>,
    pub seq: u64,
}

/// New links of a record of `linker` in a collection, each a target and a path. Ids of targets
/// are looked up in what is stored, so a target that is new and comes twice gets two ids.
pub open spec fn new_links(
    db: Db,
    linker: Linker,
    collection: Text,
    links: Seq<(Text, Text)>,
    seq: u64,
) -> Result<NewLinks, Error>
    decreases links.len(),
{
    if links.len() == 0 {
        Ok(NewLinks { ops: Seq::empty(), targets: Seq::empty(), seq })
    } else {
        match new_links(db, linker, collection, links.drop_last(), seq) {
            Err(e) => Err(e),
            Ok(front) => {
                let (target, path) = links.last();
                let key = TargetKey::bytes((target, collection, path));
                match given::<TargetId>(
                    row(db, Cf::TargetIds, key),
                    Cf::TargetIds,
                    key,
                    front.seq,
                    false,
                ) {
                    Err(e) => Err(e),
                    Ok(g) => Ok(
                        NewLinks {
                            ops: front.ops + g.ops.push(merge_op(g.value, linker)),
                            targets: front.targets.push((path, g.value)),
                            seq: g.seq,
                        },
                    ),
                }
            },
        }
    }
}

/// A record comes with its links.
pub open spec fn added(
    db: Db,
    record: (Text, Text, Text),
    links: Seq<(Text, Text)>,
    seqs: Seqs,
) -> Result<Effect, Error> {
    let (did, collection, rkey) = record;
    match given::<DidIdValue>(
        row(db, Cf::DidIds, Did::bytes(did)),
        Cf::DidIds,
        Did::bytes(did),
        seqs.did,
        true,
    ) {
        Err(e) => Err(e),
        Ok(g) => {
            let did_id = g.value.0;
            match new_links(db, (did_id, rkey), collection, links, seqs.target) {
                Err(e) => Err(e),
                Ok(new) => Ok(
                    Effect {
                        ops: (g.ops + new.ops).push(
                            Op::Put {
                                cf: Cf::LinkTargets,
                                key: RecordLinkKey::bytes((did_id, collection, rkey)),
                                value: RecordLinkTargets::bytes(new.targets),
                            },
                        ),
                        seqs: Seqs { did: g.seq, target: new.seq },
                    },
                ),
            }
        },
    }
}

/// What to say where a link that a record has is not among the linkers of its target.
pub open spec fn no_link(linkers: Seq<Linker>, of_record: bool) -> Error {
    if of_record && linkers.len() == 0 {
        Error::EmptyTarget
    } else {
        Error::MissingLinker
    }
}

/// A link leaves the linkers of its target, which `row` holds.
pub open spec fn unlink_in(
    row: Option<Seq<u8>>,
    linker: Linker,
    id: u64,
    of_record: bool,
) -> Result<Op, Error> {
    match linkers_in(row) {
        Err(e) => Err(e),
        Ok(linkers) => match unlinked(linkers, linker) {
            Some(rest) => Ok(
                Op::Put {
                    cf: Cf::TargetLinks,
                    key: TargetId::bytes(id),
                    value: TargetLinkers::bytes(rest),
                },
            ),
            None => Err(no_link(linkers, of_record)),
        },
    }
}

/// A link leaves the linkers of its target.
pub open spec fn unlink_op(db: Db, linker: Linker, id: u64, of_record: bool) -> Result<Op, Error> {
    unlink_in(row(db, Cf::TargetLinks, TargetId::bytes(id)), linker, id, of_record)
}

/// The links of a record leave the linkers of their targets, each as it is stored.
pub open spec fn unlink_ops(db: Db, linker: Linker, targets: Seq<(Text, u64)>) -> Result<
    Seq<Op>,
    Error,
>
    decreases targets.len(),
{
    if targets.len() == 0 {
        Ok(Seq::empty())
    } else {
        match unlink_ops(db, linker, targets.drop_last()) {
            Err(e) => Err(e),
            Ok(front) => match unlink_op(db, linker, targets.last().1, true) {
                Err(e) => Err(e),
                Ok(op) => Ok(front.push(op)),
            },
        }
    }
}

/// The links of a record leave the linkers of their targets one after the other, each as those
/// before it have left them.
pub open spec fn unlink_each(db: Db, linker: Linker, targets: Seq<(Text, u64)>) -> Result<
    Seq<Op>,
    Error,
>
    decreases targets.len(),
{
    if targets.len() == 0 {
        Ok(Seq::empty())
    } else {
        match unlink_each(db, linker, targets.drop_last()) {
            Err(e) => Err(e),
            Ok(front) => match unlink_op(apply(db, front), linker, targets.last().1, false) {
                Err(e) => Err(e),
                Ok(op) => Ok(front.push(op)),
            },
        }
    }
}

/// A record leaves the records.
pub open spec fn delete_record_op(key: (u64, Text, Text)) -> Op {
    Op::Delete { cf: Cf::LinkTargets, key: RecordLinkKey::bytes(key) }
}

/// A record goes, with its links. One that is not stored changes nothing.
pub open spec fn removed(db: Db, record: (Text, Text, Text)) -> Result<Seq<Op>, Error> {
    let (did, collection, rkey) = record;
    match did_value(db, did) {
        Err(e) => Err(e),
        Ok(None) => Ok(Seq::empty()),
        Ok(Some((did_id, _))) => match record_targets(db, (did_id, collection, rkey)) {
            Err(e) => Err(e),
            Ok(None) => Ok(Seq::empty()),
            Ok(Some(targets)) => match unlink_ops(db, (did_id, rkey), targets) {
                Err(e) => Err(e),
                Ok(ops) => Ok(ops.push(delete_record_op((did_id, collection, rkey)))),
            },
        },
    }
}

/// A record changes its links: the old ones go, the new ones come.
pub open spec fn updated(
    db: Db,
    record: (Text, Text, Text),
    links: Seq<(Text, Text)>,
    seqs: Seqs,
) -> Result<Effect, Error> {
    match removed(db, record) {
        Err(e) => Err(e),
        Ok(ops) => match added(db, record, links, seqs) {
            Err(e) => Err(e),
            Ok(effect) => Ok(Effect { ops: ops + effect.ops, seqs: effect.seqs }),
        },
    }
}

/// What is stored of an account changes.
pub open spec fn put_did_op(did: Text, value: (u64, bool)) -> Op {
    Op::Put { cf: Cf::DidIds, key: Did::bytes(did), value: DidIdValue::bytes(value) }
}

/// An account becomes active or not. One that is not stored changes nothing.
pub open spec fn account_set(db: Db, did: Text, active: bool) -> Result<Seq<Op>, Error> {
    match did_value(db, did) {
        Err(e) => Err(e),
        Ok(None) => Ok(Seq::empty()),
        Ok(Some((id, _))) => Ok(seq![put_did_op(did, (id, active))]),
    }
}

/// Records of an account go together. Each link leaves the linkers of its target as the changes
/// before it have left them.
pub open spec fn chunk_ops(
    db: Db,
    did_id: u64,
    records: Seq<((u64, Text, Text), Seq<(Text, u64)>)>,
) -> Result<Seq<Op>, Error>
    decreases records.len(),
{
    if records.len() == 0 {
        Ok(Seq::empty())
    } else {
        match chunk_ops(db, did_id, records.drop_last()) {
            Err(e) => Err(e),
            Ok(front) => {
                let (key, targets) = records.last();
                let so_far = front.push(delete_record_op(key));
                match unlink_each(apply(db, so_far), (did_id, key.2), targets) {
                    Err(e) => Err(e),
                    Ok(ops) => Ok(so_far + ops),
                }
            },
        }
    }
}

/// How many records go together where an account goes.
pub const CHUNK: usize = 1024;

/// The records of the chunk with the number `n`.
pub open spec fn chunk<T>(records: Seq<T>, n: nat) -> Seq<T> {
    let begin = n * CHUNK as nat;
    let end = begin + CHUNK as nat;
    records.subrange(
        begin as int,
        if end <= records.len() {
            end as int
        } else {
            records.len() as int
        },
    )
}

/// How many chunks it takes to hold `len` records.
pub open spec fn chunk_count(len: nat) -> nat {
    ((len + CHUNK as nat - 1) / CHUNK as int) as nat
}

/// The first `n` chunks of the records of an account go, a batch for each. Each batch goes by
/// what is stored when the batches before it have been written.
pub open spec fn chunk_batches(
    db: Db,
    did_id: u64,
    records: Seq<((u64, Text, Text), Seq<(Text, u64)>)>,
    n: nat,
) -> Result<Seq<Seq<Op>>, Error>
    decreases n,
{
    if n == 0 {
        Ok(Seq::empty())
    } else {
        match chunk_batches(db, did_id, records, (n - 1) as nat) {
            Err(e) => Err(e),
            Ok(front) => match chunk_ops(
                apply_all(db, front),
                did_id,
                chunk(records, (n - 1) as nat),
            ) {
                Err(e) => Err(e),
                Ok(ops) => Ok(front.push(ops)),
            },
        }
    }
}

/// An account goes: batches for its records, which are written first, and what remains to be
/// changed behind them. An account that is not stored changes nothing.
pub open spec fn account_deleted(db: Db, did: Text) -> Result<(Seq<Seq<Op>>, Seq<Op>), Error> {
    match did_value(db, did) {
        Err(e) => Err(e),
        Ok(None) => Ok((Seq::empty(), Seq::empty())),
        Ok(Some((did_id, _))) => {
            let records = records_of(db, did_id);
            match chunk_batches(db, did_id, records, chunk_count(records.len())) {
                Err(e) => Err(e),
                Ok(batches) => Ok(
                    (batches, seq![Op::Delete { cf: Cf::DidIds, key: Did::bytes(did) }]),
                ),
            }
        },
    }
}

/// The key of the row that holds the cursor.
pub open spec fn cursor_key() -> Seq<u8> {
    encode_utf8("jetstream_cursor"@)
}

/// The cursor moves.
pub open spec fn cursor_op(cursor: u64) -> Op {
    Op::Put { cf: Cf::Default, key: cursor_key(), value: u64::bytes(cursor) }
}

/// Batches of changes to be written one after the other, and the sequences behind them.
pub struct Pushed {
    pub batches: Seq<Seq<Op>>,
    pub seqs: Seqs,
}

/// One batch that moves the cursor with its other changes.
pub open spec fn one_batch(ops: Seq<Op>, cursor: u64, seqs: Seqs) -> Pushed {
    Pushed { batches: seq![ops.push(cursor_op(cursor))], seqs }
}

/// What an event changes. The cursor moves with the last of the changes.
pub open spec fn pushed(db: Db, event: Event, cursor: u64, seqs: Seqs) -> Result<Pushed, Error> {
    match event {
        Event::CreateLinks { record, links } => match added(db, record, links, seqs) {
            Err(e) => Err(e),
            Ok(effect) => Ok(one_batch(effect.ops, cursor, effect.seqs)),
        },
        Event::UpdateLinks { record, links } => match updated(db, record, links, seqs) {
            Err(e) => Err(e),
            Ok(effect) => Ok(one_batch(effect.ops, cursor, effect.seqs)),
        },
        Event::DeleteRecord { record } => match removed(db, record) {
            Err(e) => Err(e),
            Ok(ops) => Ok(one_batch(ops, cursor, seqs)),
        },
        Event::ActivateAccount { did } => match account_set(db, did, true) {
            Err(e) => Err(e),
            Ok(ops) => Ok(one_batch(ops, cursor, seqs)),
        },
        Event::DeactivateAccount { did } => match account_set(db, did, false) {
            Err(e) => Err(e),
            Ok(ops) => Ok(one_batch(ops, cursor, seqs)),
        },
        Event::DeleteAccount { did } => match account_deleted(db, did) {
            Err(e) => Err(e),
            Ok((batches, ops)) => Ok(
                Pushed { batches: batches.push(ops.push(cursor_op(cursor))), seqs },
            ),
        },
    }
}

// ---------------------------------------------------------------------------------------------
// what events have to read

/// The row of an account.
pub open spec fn did_ask(did: Text) -> Ask {
    Ask::Row { cf: Cf::DidIds, key: Did::bytes(did) }
}

/// The row of a target.
pub open spec fn target_ask(key: (Text, Text, Text)) -> Ask {
    Ask::Row { cf: Cf::TargetIds, key: TargetKey::bytes(key) }
}

/// The linkers of a target.
pub open spec fn linkers_ask(id: u64) -> Ask {
    Ask::Row { cf: Cf::TargetLinks, key: TargetId::bytes(id) }
}

/// The links of a record.
pub open spec fn record_ask(key: (u64, Text, Text)) -> Ask {
    Ask::Row { cf: Cf::LinkTargets, key: RecordLinkKey::bytes(key) }
}

/// The records of an account.
pub open spec fn records_ask(did_id: u64) -> Ask {
    Ask::Rows { cf: Cf::LinkTargets, prefix: RecordLinkKeyDidIdPrefix::bytes(did_id) }
}

/// Whether `reads` ask for something, for nothing that is known, and for nothing that is not
/// needed.
pub open spec fn wants(reads: Seq<Read>, facts: Facts, needed: spec_fn(Ask) -> bool) -> bool {
    &&& reads.len() > 0
    &&& is_wanted(reads[0]@, facts, needed)
    &&& forall|i: int| 0 <= i < reads.len() ==> is_wanted((#[trigger] reads[i])@, facts, needed)
}

/// Whether an answer is needed and not known.
pub open spec fn is_wanted(ask: Ask, facts: Facts, needed: spec_fn(Ask) -> bool) -> bool {
    !facts.has(ask) && needed(ask)
}

/// Whether a record that comes with links needs what `ask` asks for.
pub open spec fn added_needs(
    record: (Text, Text, Text),
    links: Seq<(Text, Text)>,
    ask: Ask,
) -> bool {
    ||| ask == did_ask(record.0)
    ||| exists|i: int|
        0 <= i < links.len() && ask == target_ask(((#[trigger] links[i]).0, record.1, links[i].1))
}

/// Whether one of the targets needs what `ask` asks for when a link leaves it.
pub open spec fn unlink_needs(targets: Seq<(Text, u64)>, ask: Ask) -> bool {
    exists|i: int| 0 <= i < targets.len() && ask == linkers_ask((#[trigger] targets[i]).1)
}

/// Whether a record that goes needs what `ask` asks for.
pub open spec fn removed_needs(db: Db, record: (Text, Text, Text), ask: Ask) -> bool {
    ||| ask == did_ask(record.0)
    ||| did_value(db, record.0) matches Ok(Some((did_id, _))) && {
        let key = (did_id, record.1, record.2);
        ||| ask == record_ask(key)
        ||| record_targets(db, key) matches Ok(Some(targets)) && unlink_needs(targets, ask)
    }
}

/// Whether an account that goes needs what `ask` asks for.
pub open spec fn account_deleted_needs(db: Db, did: Text, ask: Ask) -> bool {
    ||| ask == did_ask(did)
    ||| did_value(db, did) matches Ok(Some((did_id, _))) && {
        ||| ask == records_ask(did_id)
        ||| exists|i: int|
            0 <= i < records_of(db, did_id).len() && unlink_needs(
                (#[trigger] records_of(db, did_id)[i]).1,
                ask,
            )
    }
}

/// Whether an event needs what `ask` asks for.
pub open spec fn pushed_needs(db: Db, event: Event, ask: Ask) -> bool {
    match event {
        Event::CreateLinks { record, links } => added_needs(record, links, ask),
        Event::UpdateLinks { record, links } => removed_needs(db, record, ask) || added_needs(
            record,
            links,
            ask,
        ),
        Event::DeleteRecord { record } => removed_needs(db, record, ask),
        Event::ActivateAccount { did } => ask == did_ask(did),
        Event::DeactivateAccount { did } => ask == did_ask(did),
        Event::DeleteAccount { did } => account_deleted_needs(db, did, ask),
    }
}

// ---------------------------------------------------------------------------------------------
// what is asked

/// The cursor.
pub open spec fn cursor_of(db: Db) -> Result<Option<u64>, Error> {
    row_value::<u64>(row(db, Cf::Default, cursor_key()))
}

/// How many links there are to a target from a path of a collection.
pub open spec fn count_of(db: Db, key: (Text, Text, Text)) -> Result<u64, Error> {
    match target_id(db, key) {
        Err(e) => Err(e),
        Ok(None) => Ok(0),
        Ok(Some(id)) => match linkers_of(db, id) {
            Err(e) => Err(e),
            Ok(linkers) => Ok(alive(linkers) as u64),
        },
    }
}

/// The record behind an entry of the linkers of a target, if it is to be shown: its account has
/// to be known by its id, and to be active.
pub open spec fn shown(db: Db, collection: Text, linker: Linker) -> Result<
    Option<(Text, Text, Text)>,
    Error,
> {
    if linker.0 == 0 {
        Ok(None)
    } else {
        match did_of_id(db, linker.0) {
            Err(e) => Err(e),
            Ok(None) => Ok(None),
            Ok(Some(did)) => match did_value(db, did) {
                Err(e) => Err(e),
                Ok(Some((_, true))) => Ok(Some((did, collection, linker.1))),
                Ok(_) => Ok(None),
            },
        }
    }
}

/// The records behind linkers that are to be shown, newest first.
pub open spec fn shown_all(db: Db, collection: Text, linkers: Seq<Linker>) -> Result<
    Seq<(Text, Text, Text)>,
    Error,
>
    decreases linkers.len(),
{
    if linkers.len() == 0 {
        Ok(Seq::empty())
    } else {
        match shown_all(db, collection, linkers.skip(1)) {
            Err(e) => Err(e),
            Ok(newer) => match shown(db, collection, linkers[0]) {
                Err(e) => Err(e),
                Ok(Some(record)) => Ok(newer.push(record)),
                Ok(None) => Ok(newer),
            },
        }
    }
}

/// A part of a list that is read from its end.
pub struct Page {
    pub version: (u64, u64),
    pub items: Seq<(Text, Text, Text)>,
    pub next: Option<u64>,
}

/// Where a page ends in a list of `total` entries.
pub open spec fn page_end(total: u64, until: Option<u64>) -> u64 {
    match until {
        Some(u) => if u <= total {
            u
        } else {
            total
        },
        None => total,
    }
}

/// Where a page that ends at `end` begins.
pub open spec fn page_begin(end: u64, limit: u64) -> u64 {
    if end >= limit {
        (end - limit) as u64
    } else {
        0
    }
}

/// The links to a target from a path of a collection: at most `limit` entries below `until`.
pub open spec fn page_of(
    db: Db,
    key: (Text, Text, Text),
    limit: u64,
    until: Option<u64>,
) -> Result<Page, Error> {
    match target_id(db, key) {
        Err(e) => Err(e),
        Ok(None) => Ok(Page { version: (0, 0), items: Seq::empty(), next: None }),
        Ok(Some(id)) => match linkers_of(db, id) {
            Err(e) => Err(e),
            Ok(linkers) => {
                let total = linkers.len() as u64;
                let end = page_end(total, until);
                let begin = page_begin(end, limit);
                match shown_all(db, key.1, linkers.subrange(begin as int, end as int)) {
                    Err(e) => Err(e),
                    Ok(items) => Ok(
                        Page {
                            version: (total, (total - alive(linkers)) as u64),
                            items,
                            next: if begin == 0 {
                                None
                            } else {
                                Some(begin)
                            },
                        },
                    ),
                }
            },
        },
    }
}

/// Numbers by collection and path, with one more.
pub open spec fn with_count(
    counts: Map<Text, Map<Text, u64>>,
    collection: Text,
    path: Text,
    n: u64,
) -> Map<Text, Map<Text, u64>> {
    let paths = if counts.contains_key(collection) {
        counts[collection]
    } else {
        Map::empty()
    };
    counts.insert(collection, paths.insert(path, n))
}

/// How many links there are to a target, by collection and path, from ids of the target.
pub open spec fn counts_in(db: Db, ids: Seq<((Text, Text, Text), u64)>) -> Result<
    Map<Text, Map<Text, u64>>,
    Error,
>
    decreases ids.len(),
{
    if ids.len() == 0 {
        Ok(Map::empty())
    } else {
        match counts_in(db, ids.drop_last()) {
            Err(e) => Err(e),
            Ok(front) => match linkers_of(db, ids.last().1) {
                Err(e) => Err(e),
                Ok(linkers) => Ok(
                    with_count(front, ids.last().0.1, ids.last().0.2, alive(linkers) as u64),
                ),
            },
        }
    }
}

/// How many links there are to a target, by collection and path.
pub open spec fn all_counts(db: Db, target: Text) -> Result<Map<Text, Map<Text, u64>>, Error> {
    counts_in(db, ids_of_target(db, target))
}

// ---------------------------------------------------------------------------------------------
// what questions have to read

/// The row of the account that has an id.
pub open spec fn id_ask(id: u64) -> Ask {
    Ask::Row { cf: Cf::DidIds, key: be_bytes(id as nat, 8) }
}

/// The ids of a target.
pub open spec fn ids_ask(target: Text) -> Ask {
    Ask::Rows { cf: Cf::TargetIds, prefix: TargetIdTargetPrefix::bytes(target) }
}

/// Whether a count needs what `ask` asks for.
pub open spec fn count_needs(db: Db, key: (Text, Text, Text), ask: Ask) -> bool {
    ||| ask == target_ask(key)
    ||| target_id(db, key) matches Ok(Some(id)) && ask == linkers_ask(id)
}

/// Whether showing an entry of the linkers of a target needs what `ask` asks for.
pub open spec fn shown_needs(db: Db, linker: Linker, ask: Ask) -> bool {
    linker.0 != 0 && {
        ||| ask == id_ask(linker.0)
        ||| did_of_id(db, linker.0) matches Ok(Some(did)) && ask == did_ask(did)
    }
}

/// Whether showing linkers needs what `ask` asks for.
pub open spec fn shown_all_needs(db: Db, linkers: Seq<Linker>, ask: Ask) -> bool {
    exists|i: int| 0 <= i < linkers.len() && shown_needs(db, #[trigger] linkers[i], ask)
}

/// Whether a page needs what `ask` asks for.
pub open spec fn page_needs(
    db: Db,
    key: (Text, Text, Text),
    limit: u64,
    until: Option<u64>,
    ask: Ask,
) -> bool {
    ||| count_needs(db, key, ask)
    ||| target_id(db, key) matches Ok(Some(id)) && linkers_of(db, id) matches Ok(linkers) && {
        let end = page_end(linkers.len() as u64, until);
        let begin = page_begin(end, limit);
        shown_all_needs(db, linkers.subrange(begin as int, end as int), ask)
    }
}

/// Whether the counts of a target need what `ask` asks for.
pub open spec fn all_counts_needs(db: Db, target: Text, ask: Ask) -> bool {
    ||| ask == ids_ask(target)
    ||| exists|i: int|
        0 <= i < ids_of_target(db, target).len() && ask == linkers_ask(
            (#[trigger] ids_of_target(db, target)[i]).1,
        )
}

}
