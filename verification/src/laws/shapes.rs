//! What values stand for, said of their fields.
use crate::bytes::{each, maybe};
use crate::counts::{Counts, Named};
use crate::db::{batches_view, Batch, BatchOp, Op};
use crate::events::{
    links_view, records_view, ActionableEvent, CollectedLink, Event, Link, PagedAppendingCollection,
    RecordId,
};
use crate::id_table::maybe_view;
use crate::known::{asks, maybe_vec, rows_view, Ask, Read};
use crate::records::{
    Collection, Did, DidId, DidIdValue, RKey, RPath, RecordLinkKey, RecordLinkKeyDidIdPrefix,
    RecordLinkTarget, RecordLinkTargets, Target, TargetId, TargetIdTargetPrefix, TargetKey,
    TargetLinkers, Text,
};
use crate::storage::accounts::pairs_view;
use crate::storage::dups::{dids_view, notices_view, Notice, Noticed};
use crate::storage::notices::{lost_view, Lost, LostView};
use crate::storage::reader::page_view;
use vstd::prelude::*;

verus! {

/// A link points to the very text that it was made of, whatever its kind.
pub proof fn law_link_text(s: String)
    ensures
        Link::AtUri(s)@ == s@,
        Link::Uri(s)@ == s@,
        Link::Did(s)@ == s@,
{
}

/// A link of a record stands for the whole text of its target and for its path.
pub proof fn law_collected_link(link: CollectedLink)
    ensures
        link@.0 == (match link.target {
            Link::AtUri(s) => s@,
            Link::Uri(s) => s@,
            Link::Did(s) => s@,
        }),
        link@.1 == link.path@,
{
}

/// Several links stand for what each of them stands for, in their order.
pub proof fn law_collected_links(links: Seq<CollectedLink>, i: int)
    requires
        0 <= i < links.len(),
    ensures
        links_view(links).len() == links.len(),
        links_view(links)[i].0 == (match links[i].target {
            Link::AtUri(s) => s@,
            Link::Uri(s) => s@,
            Link::Did(s) => s@,
        }),
        links_view(links)[i].1 == links[i].path@,
{
}

/// A record stands for its account, its collection and its key.
pub proof fn law_record_id(record: RecordId)
    ensures
        record@ == (record.did.0@, record.collection@, record.rkey@),
{
}

/// Several records stand for what each of them stands for, in their order.
pub proof fn law_record_ids(records: Seq<RecordId>)
    ensures
        records_view(records).len() == records.len(),
        forall|i: int|
            0 <= i < records.len() ==> #[trigger] records_view(records)[i] == (
                records[i].did.0@,
                records[i].collection@,
                records[i].rkey@,
            ),
{
}

/// An event about links of a record stands for the event of the same name, with the same record
/// and the same links.
pub proof fn law_link_events(record_id: RecordId, links: Vec<CollectedLink>)
    ensures
        (ActionableEvent::CreateLinks { record_id, links })@ matches Event::CreateLinks {
            record,
            links: ls,
        } && record == (record_id.did.0@, record_id.collection@, record_id.rkey@) && ls.len()
            == links@.len() && forall|i: int|
            0 <= i < links@.len() ==> (#[trigger] ls[i]) == (
                match links@[i].target {
                    Link::AtUri(s) => s@,
                    Link::Uri(s) => s@,
                    Link::Did(s) => s@,
                },
                links@[i].path@,
            ),
        (ActionableEvent::UpdateLinks { record_id, new_links: links })@ matches Event::UpdateLinks {
            record,
            links: ls,
        } && record == (record_id.did.0@, record_id.collection@, record_id.rkey@) && ls.len()
            == links@.len() && forall|i: int|
            0 <= i < links@.len() ==> (#[trigger] ls[i]) == (
                match links@[i].target {
                    Link::AtUri(s) => s@,
                    Link::Uri(s) => s@,
                    Link::Did(s) => s@,
                },
                links@[i].path@,
            ),
{
}

/// An event about a record or an account stands for the event of the same name, about the same
/// record or account.
pub proof fn law_other_events(record_id: RecordId, did: Did)
    ensures
        ActionableEvent::DeleteRecord(record_id)@ == (Event::DeleteRecord {
            record: (record_id.did.0@, record_id.collection@, record_id.rkey@),
        }),
        ActionableEvent::ActivateAccount(did)@ == (Event::ActivateAccount { did: did.0@ }),
        ActionableEvent::DeactivateAccount(did)@ == (Event::DeactivateAccount { did: did.0@ }),
        ActionableEvent::DeleteAccount(did)@ == (Event::DeleteAccount { did: did.0@ }),
{
}

/// Names and numbers stand for the text and the number in them.
pub proof fn law_plain(s: String, n: u64, active: bool)
    ensures
        Did(s)@ == s@,
        Collection(s)@ == s@,
        RPath(s)@ == s@,
        RKey(s)@ == s@,
        Target(s)@ == s@,
        TargetIdTargetPrefix(Target(s))@ == s@,
        DidId(n)@ == n,
        TargetId(n)@ == n,
        RecordLinkKeyDidIdPrefix(DidId(n))@ == n,
        DidIdValue(DidId(n), active)@ == (n, active),
{
}

/// A key stands for its parts.
pub proof fn law_key_parts(a: String, b: String, c: String, n: u64)
    ensures
        TargetKey(Target(a), Collection(b), RPath(c))@ == (a@, b@, c@),
        RecordLinkKey(DidId(n), Collection(b), RKey(c))@ == (n, b@, c@),
        RecordLinkTarget(RPath(a), TargetId(n))@ == (a@, n),
{
}

/// Linkers stand for their entries, each an account and the key of a record, in their order.
pub proof fn law_linkers_parts(linkers: TargetLinkers)
    ensures
        linkers@.len() == linkers.0@.len(),
        forall|i: int|
            0 <= i < linkers.0@.len() ==> #[trigger] linkers@[i] == (
                linkers.0@[i].0.0,
                linkers.0@[i].1.0@,
            ),
{
}

/// The links of a record stand for their paths and the ids of their targets, in their order.
pub proof fn law_targets_parts(targets: RecordLinkTargets)
    ensures
        targets@.len() == targets.0@.len(),
        forall|i: int|
            0 <= i < targets.0@.len() ==> #[trigger] targets@[i] == (
                targets.0@[i].0.0@,
                targets.0@[i].1.0,
            ),
{
}

/// A page stands for its version, for each of its records, in their order, and for where the next
/// one ends.
pub proof fn law_page_parts(page: PagedAppendingCollection<RecordId>)
    ensures
        page_view(page).version == page.version,
        page_view(page).next == page.next,
        page_view(page).items.len() == page.items@.len(),
        forall|i: int|
            0 <= i < page.items@.len() ==> #[trigger] page_view(page).items[i] == (
                page.items@[i].did.0@,
                page.items@[i].collection@,
                page.items@[i].rkey@,
            ),
{
}

/// A change stands for what it says.
pub proof fn law_change_parts(op: BatchOp)
    ensures
        match op {
            BatchOp::Put { cf, key, value } => op@ == (Op::Put { cf, key: key@, value: value@ }),
            BatchOp::Merge { cf, key, operand } => op@ == (Op::Merge {
                cf,
                key: key@,
                operand: operand@,
            }),
            BatchOp::Delete { cf, key } => op@ == (Op::Delete { cf, key: key@ }),
        },
{
}

/// Batches stand for their changes, all of them and in their order.
pub proof fn law_batch_parts(batches: Seq<Batch>)
    ensures
        batches_view(batches).len() == batches.len(),
        forall|i: int|
            0 <= i < batches.len() ==> (#[trigger] batches_view(batches)[i]).len()
                == batches[i].ops@.len(),
        forall|i: int, j: int|
            0 <= i < batches.len() && 0 <= j < batches[i].ops@.len()
                ==> #[trigger] batches_view(batches)[i][j] == batches[i].ops@[j]@,
        forall|i: int| 0 <= i < batches.len() ==> #[trigger] batches_view(batches)[i] == batches[i]@,
{
}

/// A read stands for what it asks for.
pub proof fn law_read_parts(read: Read)
    ensures
        match read {
            Read::Row { cf, key } => read@ == (Ask::Row { cf, key: key@ }),
            Read::Rows { cf, prefix } => read@ == (Ask::Rows { cf, prefix: prefix@ }),
        },
{
}

/// Several reads stand for what each of them asks for.
pub proof fn law_reads_parts(reads: Seq<Read>)
    ensures
        asks(reads).len() == reads.len(),
        forall|i: int| 0 <= i < reads.len() ==> #[trigger] asks(reads)[i] == reads[i]@,
{
}

/// Bytes stand for themselves, wherever they are kept.
pub proof fn law_bytes_parts(
    b: Vec<u8>,
    s: &[u8],
    runs: Seq<Vec<u8>>,
    rows: Seq<(Vec<u8>, Vec<u8>)>,
)
    ensures
        maybe_vec(Some(b)) == Some(b@),
        maybe_vec(None) == None::<Seq<u8>>,
        maybe(Some(s)) == Some(s@),
        maybe(None) == None::<Seq<u8>>,
        each(runs).len() == runs.len(),
        forall|i: int| 0 <= i < runs.len() ==> #[trigger] each(runs)[i] == runs[i]@,
        rows_view(rows).len() == rows.len(),
        forall|i: int|
            0 <= i < rows.len() ==> #[trigger] rows_view(rows)[i] == (rows[i].0@, rows[i].1@),
{
}

/// What may be there stands for itself, and pairs stand for their parts.
pub proof fn law_pair_parts<K: View, V: View>(v: V, pairs: Seq<(K, V)>)
    ensures
        maybe_view(Some(v)) == Some(v@),
        maybe_view(None::<V>) == None::<V::V>,
        pairs_view(pairs).len() == pairs.len(),
        forall|i: int|
            0 <= i < pairs.len() ==> #[trigger] pairs_view(pairs)[i] == (pairs[i].0@, pairs[i].1@),
{
}

/// A notice stands for what it says of an account.
pub proof fn law_notice_parts(notice: Notice)
    ensures
        match notice {
            Notice::Dup { is_problem, did_id, dids, did } => notice@ matches Noticed::Dup {
                is_problem: p,
                did_id: id,
                dids: others,
                did: d,
            } && p == is_problem && id == did_id.0 && d == did.0@ && others.len() == dids@.len()
                && forall|i: int|
                0 <= i < dids@.len() ==> (#[trigger] others[i]) == dids@[i].0@,
            Notice::Friend { did, did_id } => notice@ == (Noticed::Friend {
                did: did.0@,
                did_id: did_id.0,
            }),
        },
{
}

/// Several notices stand for what each of them says, in their order.
pub proof fn law_notices_parts(notices: Seq<Notice>, dids: Seq<Did>, lost: Seq<Lost>)
    ensures
        notices_view(notices).len() == notices.len(),
        forall|i: int| 0 <= i < notices.len() ==> #[trigger] notices_view(notices)[i] == notices[i]@,
        dids_view(dids).len() == dids.len(),
        forall|i: int| 0 <= i < dids.len() ==> #[trigger] dids_view(dids)[i] == dids[i].0@,
        lost_view(lost).len() == lost.len(),
        forall|i: int| 0 <= i < lost.len() ==> #[trigger] lost_view(lost)[i] == lost[i]@,
{
}

/// An account that could not be looked up stands for its id, and for itself where it is known.
pub proof fn law_lost_parts(lost: Lost)
    ensures
        match lost {
            Lost::Did { did_id } => lost@ == (LostView::Did { did_id: did_id.0 }),
            Lost::Value { did_id, did } => lost@ == (LostView::Value {
                did_id: did_id.0,
                did: did.0@,
            }),
        },
{
}

/// Counts stand for their numbers: each number is that of its collection and path, and there are no
/// others.
pub proof fn law_counts_parts(counts: Counts)
    requires
        counts.wf(),
    ensures
        forall|i: int, j: int|
            #![trigger counts.0.0@[i].1.0@[j]]
            0 <= i < counts.0.0@.len() && 0 <= j < counts.0.0@[i].1.0@.len() ==> {
                let collection = counts.0.0@[i].0@;
                let path = counts.0.0@[i].1.0@[j].0@;
                &&& counts@.contains_key(collection)
                &&& counts@[collection].contains_key(path)
                &&& counts@[collection][path] == counts.0.0@[i].1.0@[j].1
            },
        forall|collection: Text, path: Text|
            #![trigger counts@[collection].contains_key(path)]
            counts@.contains_key(collection) && counts@[collection].contains_key(path) ==> exists|
                i: int,
                j: int,
            |
                #![trigger counts.0.0@[i].1.0@[j]]
                0 <= i < counts.0.0@.len() && 0 <= j < counts.0.0@[i].1.0@.len()
                    && counts.0.0@[i].0@ == collection && counts.0.0@[i].1.0@[j].0@ == path,
        forall|i: int|
            0 <= i < counts.0.0@.len() ==> counts@.contains_key((#[trigger] counts.0.0@[i]).0@),
        forall|i: int, j: int|
            0 <= i < j < counts.0.0@.len() ==> (#[trigger] counts.0.0@[i]).0@ != (
            #[trigger] counts.0.0@[j]).0@,
        forall|i: int, j: int, k: int|
            #![trigger counts.0.0@[i].1.0@[j], counts.0.0@[i].1.0@[k]]
            0 <= i < counts.0.0@.len() && 0 <= j < k < counts.0.0@[i].1.0@.len()
                ==> counts.0.0@[i].1.0@[j].0@ != counts.0.0@[i].1.0@[k].0@,
{
    let outer = counts.0;
    assert forall|i: int| 0 <= i < outer.0@.len() implies counts@.contains_key(
        (#[trigger] outer.0@[i]).0@,
    ) && counts@[outer.0@[i].0@] == outer.0@[i].1.map() by {
        let name = outer.0@[i].0@;
        assert(outer.is_at(name, i));
        let p = outer.place(name);
        assert(outer.is_at(name, p));
        assert(p == i);
    }
    assert forall|i: int, j: int|
        #![trigger counts.0.0@[i].1.0@[j]]
        0 <= i < outer.0@.len() && 0 <= j < outer.0@[i].1.0@.len() implies {
        let collection = outer.0@[i].0@;
        let path = outer.0@[i].1.0@[j].0@;
        &&& counts@.contains_key(collection)
        &&& counts@[collection].contains_key(path)
        &&& counts@[collection][path] == outer.0@[i].1.0@[j].1
    } by {
        let inner = outer.0@[i].1;
        let path = inner.0@[j].0@;
        assert(inner.wf());
        assert(inner.is_at(path, j));
        let p = inner.place(path);
        assert(inner.is_at(path, p));
        assert(p == j);
        assert(counts@[outer.0@[i].0@] == inner.map());
    }
    assert forall|collection: Text, path: Text|
        #![trigger counts@[collection].contains_key(path)]
        counts@.contains_key(collection) && counts@[collection].contains_key(path) implies exists|
        i: int,
        j: int,
    |
        #![trigger counts.0.0@[i].1.0@[j]]
        0 <= i < counts.0.0@.len() && 0 <= j < counts.0.0@[i].1.0@.len() && counts.0.0@[i].0@
            == collection && counts.0.0@[i].1.0@[j].0@ == path by {
        let i = outer.place(collection);
        assert(outer.is_at(collection, i));
        let inner = outer.0@[i].1;
        assert(counts@[outer.0@[i].0@] == inner.map());
        let j = inner.place(path);
        assert(inner.is_at(path, j));
        assert(counts.0.0@[i].1.0@[j].0@ == path);
    }
    assert forall|i: int, j: int, k: int|
        #![trigger counts.0.0@[i].1.0@[j], counts.0.0@[i].1.0@[k]]
        0 <= i < counts.0.0@.len() && 0 <= j < k < counts.0.0@[i].1.0@.len() implies counts.0.0@[i].1.0@[j].0@
        != counts.0.0@[i].1.0@[k].0@ by {
        assert(outer.0@[i].1.wf());
    }
}

/// Names stand for their values: a name is at a place where the entry there has it, there where it
/// is at some place, and each name that comes once stands for the value of its entry.
pub proof fn law_named_parts<T>(named: Named<T>, name: Text, i: int)
    ensures
        named.is_at(name, i) <==> 0 <= i < named.0@.len() && named.0@[i].0@ == name,
        named.has(name) <==> exists|j: int|
            0 <= j < named.0@.len() && (#[trigger] named.0@[j]).0@ == name,
        named.wf() <==> forall|j: int, k: int|
            0 <= j < k < named.0@.len() ==> (#[trigger] named.0@[j]).0@ != (
            #[trigger] named.0@[k]).0@,
        named.map().contains_key(name) <==> exists|j: int|
            0 <= j < named.0@.len() && (#[trigger] named.0@[j]).0@ == name,
        (forall|j: int, k: int|
            0 <= j < k < named.0@.len() ==> (#[trigger] named.0@[j]).0@ != (
            #[trigger] named.0@[k]).0@) && 0 <= i < named.0@.len() ==> named.map()[named.0@[i].0@]
            == named.0@[i].1,
{
    if exists|j: int| 0 <= j < named.0@.len() && (#[trigger] named.0@[j]).0@ == name {
        let j = choose|j: int| 0 <= j < named.0@.len() && (#[trigger] named.0@[j]).0@ == name;
        assert(named.is_at(name, j));
    }
    if named.has(name) {
        let p = named.place(name);
        assert(named.is_at(name, p));
        assert(named.0@[p].0@ == name);
    }
    if named.wf() && 0 <= i < named.0@.len() {
        let own = named.0@[i].0@;
        assert(named.is_at(own, i));
        let p = named.place(own);
        assert(named.is_at(own, p));
        assert(p == i);
    }
}

}
