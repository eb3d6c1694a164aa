//! The parts that the operations are made of, each said in plain terms.
use crate::bytes::le_bytes;
use crate::db::{
    apply, apply_all, apply_op, before, lemma_apply_one, lemma_apply_push, row, scan, Cf, Db, Op,
};
use crate::error::Error;
use crate::events::{links_view, ActionableEvent, CollectedLink, RecordId};
use crate::id_table::{first_seq, given, reverse_op, row_value, seq_key, IdTableValue};
use crate::known::Ask;
use crate::laws::merging::{holds_linkers, law_alive_push, law_merge, lemma_last_place};
use crate::laws::scans::law_scan;
use crate::linkers::{alive, extended, merged, unlinked};
use crate::model::{
    account_deleted, account_set, added, all_counts, counts_in, cursor_key, cursor_op, decoded,
    delete_record_op, did_of_id, did_value, ids_of_target, linkers_in, linkers_of, merge_op, pushed,
    put_did_op, record_targets, records_of, removed, target_id, updated, with_count, Effect, Pushed,
    Seqs,
};
use crate::records::{
    Did, DidIdValue, Linker, RecordLinkKey, RecordLinkKeyDidIdPrefix, RecordLinkTargets, Stored,
    TargetId, TargetIdTargetPrefix, TargetKey, TargetLinkers, Text,
};
use crate::storage::dups::{accounts_ask, all_accounts, dids_with, noticed, Noticed};
use crate::storage::notices::{lost_all, lost_of, LostView};
use crate::wire::{be_bytes, lemma_be_bounds, lemma_be_bytes_len, lemma_be_value_bytes};
use vstd::prelude::*;
use vstd::utf8::encode_utf8;

verus! {

// ---------------------------------------------------------------------------------------------
// linkers

/// An entry counts where it has an account, and not where its account is zero.
pub proof fn law_entry_counts(linkers: Seq<Linker>, did_id: u64, rkey: Text)
    ensures
        alive(Seq::empty()) == 0,
        did_id != 0 ==> alive(linkers.push((did_id, rkey))) == alive(linkers) + 1,
        did_id == 0 ==> alive(linkers.push((did_id, rkey))) == alive(linkers),
{
    reveal(Seq::filter);
    law_alive_push(linkers, (did_id, rkey));
}

/// A link that is there is taken out at its last place, where an entry without account and key
/// stays; one that is not there is not taken out.
pub proof fn law_newest_goes(linkers: Seq<Linker>, e: Linker)
    ensures
        unlinked(linkers, e) is Some <==> exists|i: int|
            0 <= i < linkers.len() && #[trigger] linkers[i] == e,
        unlinked(linkers, e) matches Some(rest) ==> rest.len() == linkers.len() && exists|i: int|
            {
                &&& 0 <= i < linkers.len()
                &&& #[trigger] linkers[i] == e
                &&& rest[i].0 == 0
                &&& rest[i].1.len() == 0
                &&& forall|j: int| i < j < linkers.len() ==> #[trigger] linkers[j] != e
                &&& forall|j: int|
                    0 <= j < linkers.len() && j != i ==> #[trigger] rest[j] == linkers[j]
            },
{
    if linkers.contains(e) {
        let i = lemma_last_place(linkers, e);
        assert(linkers[i] == e);
    }
}

/// Merging lists of linkers into a row puts them behind those of the row, all of them and in their
/// order, unless one of them names an account above the sequence. (A sequence of zero holds nobody
/// back.)
pub proof fn law_lists_merge(
    existing: Option<Seq<u8>>,
    old: Seq<Linker>,
    operands: Seq<Seq<u8>>,
    lists: Seq<Seq<Linker>>,
    seq: u64,
)
    requires
        match existing {
            Some(row) => TargetLinkers::fits(old) && row == TargetLinkers::bytes(old),
            None => old.len() == 0,
        },
        operands.len() == lists.len(),
        forall|i: int|
            0 <= i < lists.len() ==> TargetLinkers::fits(lists[i]) && #[trigger] operands[i]
                == TargetLinkers::bytes(lists[i]),
    ensures
        seq > 0 && (exists|i: int| 0 <= i < old.len() && (#[trigger] old[i]).0 > seq) ==> merged(
            existing,
            operands,
            seq,
        ) == Err::<Seq<u8>, Error>(Error::ExistingAboveSequence),
        (seq == 0 || forall|i: int| 0 <= i < old.len() ==> (#[trigger] old[i]).0 <= seq) ==> merged(
            existing,
            operands,
            seq,
        ) == if seq == 0 || forall|i: int, j: int|
            0 <= i < lists.len() && 0 <= j < lists[i].len() ==> (#[trigger] lists[i][j]).0 <= seq {
            Ok::<Seq<u8>, Error>(TargetLinkers::bytes(old + lists.flatten()))
        } else {
            Err(Error::NewAboveSequence)
        },
{
    if existing is Some {
        TargetLinkers::lemma_parsed_bytes(old);
    } else {
        assert(old =~= Seq::empty());
    }
    assert forall|i: int| 0 <= i < lists.len() implies TargetLinkers::fits(
        #[trigger] lists[i],
    ) by {
        assert(operands[i] == TargetLinkers::bytes(lists[i]));
    }
    lemma_lists_extend(old, lists, seq);
    assert(operands =~= lists.map_values(|l: Seq<Linker>| TargetLinkers::bytes(l)));
}

proof fn lemma_lists_extend(old: Seq<Linker>, lists: Seq<Seq<Linker>>, seq: u64)
    requires
        forall|i: int| 0 <= i < lists.len() ==> TargetLinkers::fits(#[trigger] lists[i]),
    ensures
        extended(old, lists.map_values(|l: Seq<Linker>| TargetLinkers::bytes(l)), seq) == if seq
            == 0 || forall|i: int, j: int|
            0 <= i < lists.len() && 0 <= j < lists[i].len() ==> (#[trigger] lists[i][j]).0 <= seq {
            Ok::<Seq<Linker>, Error>(old + lists.flatten())
        } else {
            Err(Error::NewAboveSequence)
        },
    decreases lists.len(),
{
    let operands = lists.map_values(|l: Seq<Linker>| TargetLinkers::bytes(l));
    lists.lemma_flatten_and_flatten_alt_are_equivalent();
    if lists.len() == 0 {
        assert(old + lists.flatten() =~= old);
    } else {
        let front = lists.drop_last();
        assert forall|i: int| 0 <= i < front.len() implies TargetLinkers::fits(
            #[trigger] front[i],
        ) by {
            assert(front[i] == lists[i]);
        }
        lemma_lists_extend(old, front, seq);
        front.lemma_flatten_and_flatten_alt_are_equivalent();
        let last = lists.last();
        assert(lists[lists.len() - 1] == last);
        TargetLinkers::lemma_parsed_bytes(last);
        assert(operands.drop_last() =~= front.map_values(
            |l: Seq<Linker>| TargetLinkers::bytes(l),
        ));
        assert(operands.last() == TargetLinkers::bytes(last));
        assert(old + front.flatten() + last =~= old + lists.flatten());
        if seq > 0 {
            if forall|i: int, j: int|
                0 <= i < lists.len() && 0 <= j < lists[i].len() ==> (#[trigger] lists[i][j]).0
                    <= seq {
                assert forall|i: int, j: int|
                    0 <= i < front.len() && 0 <= j < front[i].len() implies (
                #[trigger] front[i][j]).0 <= seq by {
                    assert(lists[i][j].0 <= seq);
                }
                assert forall|j: int| 0 <= j < last.len() implies (#[trigger] last[j]).0 <= seq by {
                    assert(lists[lists.len() - 1][j].0 <= seq);
                }
            } else {
                let (i, j) = choose|i: int, j: int|
                    0 <= i < lists.len() && 0 <= j < lists[i].len() && (#[trigger] lists[i][j]).0
                        > seq;
                if i < front.len() {
                    assert(front[i][j].0 > seq);
                } else {
                    assert(last[j].0 > seq);
                }
            }
        }
    }
}

/// A merge fails where the row or one of the operands is not a list of linkers.
pub proof fn law_merge_unreadable(existing: Option<Seq<u8>>, operands: Seq<Seq<u8>>, seq: u64)
    ensures
        existing matches Some(b) && TargetLinkers::parsed(b) is None ==> merged(
            existing,
            operands,
            seq,
        ) == Err::<Seq<u8>, Error>(Error::Codec),
        (exists|i: int|
            0 <= i < operands.len() && TargetLinkers::parsed(#[trigger] operands[i]) is None)
            ==> merged(existing, operands, seq) is Err,
{
    law_merge(existing, operands, seq);
    if exists|i: int|
        0 <= i < operands.len() && TargetLinkers::parsed(#[trigger] operands[i]) is None {
        let i = choose|i: int|
            0 <= i < operands.len() && TargetLinkers::parsed(#[trigger] operands[i]) is None;
        assert(!holds_linkers(operands[i], seq));
    }
}

// ---------------------------------------------------------------------------------------------
// rows

/// A change is made to its row and to no other: a row that was put is there, one that was deleted
/// is not, and one that linkers were merged into has them behind its own.
pub proof fn law_change(db: Db, cf: Cf, key: Seq<u8>, value: Seq<u8>)
    ensures
        apply_op(db, Op::Put { cf, key, value }) == db.insert((cf, key), value),
        apply_op(db, Op::Delete { cf, key }) == db.remove((cf, key)),
        match merged(
            if db.contains_key((cf, key)) {
                Some(db[(cf, key)])
            } else {
                None
            },
            seq![value],
            0,
        ) {
            Ok(all) => apply_op(db, Op::Merge { cf, key, operand: value }) == db.insert(
                (cf, key),
                all,
            ),
            Err(_) => apply_op(db, Op::Merge { cf, key, operand: value }) == db,
        },
{
}

/// Changes are made one after the other, and so are batches.
pub proof fn law_changes_in_order(db: Db, ops: Seq<Op>, op: Op, batches: Seq<Seq<Op>>)
    ensures
        apply(db, Seq::empty()) == db,
        apply(db, ops.push(op)) == apply_op(apply(db, ops), op),
        apply_all(db, Seq::empty()) == db,
        apply_all(db, batches.push(ops)) == apply(apply_all(db, batches), ops),
{
    lemma_apply_push(db, ops, op);
    assert(batches.push(ops).drop_last() =~= batches);
}

/// What is stored is read from the row of its table that has its key.
pub proof fn law_rows_read(
    db: Db,
    did: Text,
    did_id: u64,
    key: (Text, Text, Text),
    id: u64,
    record: (u64, Text, Text),
)
    ensures
        row(db, Cf::DidIds, Did::bytes(did)) is None ==> did_value(db, did) == Ok::<
            Option<(u64, bool)>,
            Error,
        >(None),
        row(db, Cf::DidIds, Did::bytes(did)) matches Some(b) ==> did_value(db, did) == (
        match DidIdValue::parsed(b) {
            Some(v) => Ok::<Option<(u64, bool)>, Error>(Some(v)),
            None => Err(Error::Codec),
        }),
        row(db, Cf::DidIds, be_bytes(did_id as nat, 8)) is None ==> did_of_id(db, did_id) == Ok::<
            Option<Text>,
            Error,
        >(None),
        row(db, Cf::DidIds, be_bytes(did_id as nat, 8)) matches Some(b) ==> did_of_id(db, did_id)
            == (match Did::parsed(b) {
            Some(v) => Ok::<Option<Text>, Error>(Some(v)),
            None => Err(Error::Codec),
        }),
        row(db, Cf::TargetIds, TargetKey::bytes(key)) is None ==> target_id(db, key) == Ok::<
            Option<u64>,
            Error,
        >(None),
        row(db, Cf::TargetIds, TargetKey::bytes(key)) matches Some(b) ==> target_id(db, key) == (
        match TargetId::parsed(b) {
            Some(v) => Ok::<Option<u64>, Error>(Some(v)),
            None => Err(Error::Codec),
        }),
        row(db, Cf::TargetLinks, TargetId::bytes(id)) is None ==> linkers_of(db, id) == Ok::<
            Seq<Linker>,
            Error,
        >(Seq::empty()),
        row(db, Cf::TargetLinks, TargetId::bytes(id)) matches Some(b) ==> linkers_of(db, id) == (
        match TargetLinkers::parsed(b) {
            Some(v) => Ok::<Seq<Linker>, Error>(v),
            None => Err(Error::Codec),
        }),
        row(db, Cf::LinkTargets, RecordLinkKey::bytes(record)) is None ==> record_targets(
            db,
            record,
        ) == Ok::<Option<Seq<(Text, u64)>>, Error>(None),
        row(db, Cf::LinkTargets, RecordLinkKey::bytes(record)) matches Some(b) ==> record_targets(
            db,
            record,
        ) == (match RecordLinkTargets::parsed(b) {
            Some(v) => Ok::<Option<Seq<(Text, u64)>>, Error>(Some(v)),
            None => Err(Error::Codec),
        }),
{
}

/// A row is there where the database has it.
pub proof fn law_row(db: Db, cf: Cf, key: Seq<u8>)
    ensures
        db.contains_key((cf, key)) ==> row(db, cf, key) == Some(db[(cf, key)]),
        !db.contains_key((cf, key)) ==> row(db, cf, key) is None,
{
}

/// A value that may be in a row is there where the row is, and is what its bytes stand for.
pub proof fn law_row_value<T: Stored>(b: Seq<u8>, v: T::V)
    ensures
        row_value::<T>(None) == Ok::<Option<T::V>, Error>(None),
        T::fits(v) ==> row_value::<T>(Some(T::bytes(v))) == Ok::<Option<T::V>, Error>(Some(v)),
        T::parsed(b) is None ==> row_value::<T>(Some(b)) == Err::<Option<T::V>, Error>(
            Error::Codec,
        ),
        T::parsed(b) matches Some(w) ==> row_value::<T>(Some(b)) == Ok::<Option<T::V>, Error>(
            Some(w),
        ),
{
    if T::fits(v) {
        T::lemma_parsed_bytes(v);
    }
}

/// The changes that the operations make, each in its table and under its key.
pub proof fn law_single_changes(
    did: Text,
    value: (u64, bool),
    record: (u64, Text, Text),
    id: u64,
    linker: Linker,
    cursor: u64,
    cf: Cf,
    key: Seq<u8>,
)
    ensures
        put_did_op(did, value) == (Op::Put {
            cf: Cf::DidIds,
            key: Did::bytes(did),
            value: DidIdValue::bytes(value),
        }),
        delete_record_op(record) == (Op::Delete {
            cf: Cf::LinkTargets,
            key: RecordLinkKey::bytes(record),
        }),
        merge_op(id, linker) == (Op::Merge {
            cf: Cf::TargetLinks,
            key: TargetId::bytes(id),
            operand: TargetLinkers::bytes(Seq::empty().push(linker)),
        }),
        cursor_op(cursor) == (Op::Put {
            cf: Cf::Default,
            key: encode_utf8("jetstream_cursor"@),
            value: <u64 as Stored>::bytes(cursor),
        }),
        cursor_key() == encode_utf8("jetstream_cursor"@),
        reverse_op(cf, id, key) == (Op::Put { cf, key: be_bytes(id as nat, 8), value: key }),
{
    assert(seq![linker] =~= Seq::empty().push(linker));
}

/// Rows are read up to the first that cannot be read, each as what its key and its value stand for.
pub proof fn law_rows_decoded<K: Stored, V: Stored>(rows: Seq<(Seq<u8>, Seq<u8>)>)
    ensures
        decoded::<K, V>(rows).len() <= rows.len(),
        forall|i: int|
            0 <= i < decoded::<K, V>(rows).len() ==> K::parsed(rows[i].0) == Some(
                (#[trigger] decoded::<K, V>(rows)[i]).0,
            ) && V::parsed(rows[i].1) == Some(decoded::<K, V>(rows)[i].1),
        decoded::<K, V>(rows).len() < rows.len() ==> K::parsed(
            rows[decoded::<K, V>(rows).len() as int].0,
        ) is None || V::parsed(rows[decoded::<K, V>(rows).len() as int].1) is None,
    decreases rows.len(),
{
    if rows.len() > 0 {
        let tail = rows.skip(1);
        law_rows_decoded::<K, V>(tail);
        let all = decoded::<K, V>(rows);
        let rest = decoded::<K, V>(tail);
        if K::parsed(rows[0].0) is Some && V::parsed(rows[0].1) is Some {
            assert(all.len() == rest.len() + 1);
            assert forall|i: int| 0 <= i < all.len() implies K::parsed(rows[i].0) == Some(
                (#[trigger] all[i]).0,
            ) && V::parsed(rows[i].1) == Some(all[i].1) by {
                if i > 0 {
                    assert(all[i] == rest[i - 1]);
                    assert(tail[i - 1] == rows[i]);
                }
            }
            if all.len() < rows.len() {
                assert(tail[rest.len() as int] == rows[all.len() as int]);
            }
        }
    }
}

/// The rows behind a prefix are those of the table whose keys begin with it, each once and in the
/// order of their keys: where two keys differ first, the lower byte comes first.
pub proof fn law_rows_behind(db: Db, cf: Cf, prefix: Seq<u8>)
    requires
        db.dom().finite(),
    ensures
        ({
            let rows = scan(db, cf, prefix);
            &&& forall|i: int|
                0 <= i < rows.len() ==> {
                    &&& db.contains_key((cf, (#[trigger] rows[i]).0))
                    &&& db[(cf, rows[i].0)] == rows[i].1
                    &&& prefix.len() <= rows[i].0.len()
                    &&& forall|j: int| 0 <= j < prefix.len() ==> rows[i].0[j] == prefix[j]
                }
            &&& forall|key: Seq<u8>| #[trigger]
                db.contains_key((cf, key)) && prefix.len() <= key.len() && (forall|j: int|
                    0 <= j < prefix.len() ==> key[j] == prefix[j]) ==> exists|i: int|
                    0 <= i < rows.len() && (#[trigger] rows[i]).0 == key
            &&& forall|i: int, j: int|
                0 <= i < j < rows.len() ==> before((#[trigger] rows[i]).0, (#[trigger] rows[j]).0)
        }),
{
    law_scan(db, cf, prefix);
    let rows = scan(db, cf, prefix);
    assert forall|key: Seq<u8>| #[trigger]
        db.contains_key((cf, key)) && prefix.len() <= key.len() && (forall|j: int|
            0 <= j < prefix.len() ==> key[j] == prefix[j]) implies exists|i: int|
        0 <= i < rows.len() && (#[trigger] rows[i]).0 == key by {
        assert(prefix =~= key.subrange(0, prefix.len() as int));
    }
    assert forall|i: int| 0 <= i < rows.len() implies {
        &&& db.contains_key((cf, (#[trigger] rows[i]).0))
        &&& db[(cf, rows[i].0)] == rows[i].1
        &&& prefix.len() <= rows[i].0.len()
        &&& forall|j: int| 0 <= j < prefix.len() ==> rows[i].0[j] == prefix[j]
    } by {
        assert(row(db, cf, rows[i].0) == Some(rows[i].1));
        let key = rows[i].0;
        assert forall|j: int| 0 <= j < prefix.len() implies key[j] == prefix[j] by {
            assert(key.subrange(0, prefix.len() as int)[j] == prefix[j]);
        }
    }
}

/// One key comes before another where it has the lower byte at the first place at which they
/// differ, or ends there.
pub proof fn law_before(a: Seq<u8>, b: Seq<u8>)
    ensures
        before(a, b) <==> exists|n: int|
            {
                &&& 0 <= n <= a.len()
                &&& n < b.len()
                &&& #[trigger] a.take(n) == b.take(n)
                &&& (n == a.len() || a[n] < b[n])
            },
    decreases a.len(),
{
    if b.len() == 0 {
    } else if a.len() == 0 {
        assert(a.take(0) =~= b.take(0));
    } else if a[0] != b[0] {
        if a[0] < b[0] {
            assert(a.take(0) =~= b.take(0));
        }
        assert forall|n: int|
            0 <= n <= a.len() && n < b.len() && #[trigger] a.take(n) == b.take(n) && (n == a.len()
                || a[n] < b[n]) implies before(a, b) by {
            if n > 0 {
                assert(a.take(n)[0] == a[0] && b.take(n)[0] == b[0]);
            }
        }
    } else {
        let x = a.skip(1);
        let y = b.skip(1);
        law_before(x, y);
        if before(a, b) {
            let n = choose|n: int|
                0 <= n <= x.len() && n < y.len() && #[trigger] x.take(n) == y.take(n) && (n
                    == x.len() || x[n] < y[n]);
            assert(a.take(n + 1) =~= seq![a[0]] + x.take(n));
            assert(b.take(n + 1) =~= seq![b[0]] + y.take(n));
        }
        assert forall|n: int|
            0 <= n <= a.len() && n < b.len() && #[trigger] a.take(n) == b.take(n) && (n == a.len()
                || a[n] < b[n]) implies before(a, b) by {
            if n > 0 {
                assert(x.take(n - 1) =~= a.take(n).skip(1));
                assert(y.take(n - 1) =~= b.take(n).skip(1));
            }
        }
    }
}

// ---------------------------------------------------------------------------------------------
// ids

/// A table starts behind the newest id that was stored, or with one.
pub proof fn law_first_seq(n: u64, b: Seq<u8>)
    ensures
        first_seq(None) == Ok::<u64, Error>(1),
        n < u64::MAX ==> first_seq(Some(le_bytes(n))) == Ok::<u64, Error>((n + 1) as u64),
        n == u64::MAX ==> first_seq(Some(le_bytes(n))) == Err::<u64, Error>(
            Error::SequenceExhausted,
        ),
        b.len() != 8 ==> first_seq(Some(b)) == Err::<u64, Error>(Error::SequenceLength),
{
    lemma_be_bytes_len(n as nat, 8);
    assert(le_bytes(n).reverse() =~= be_bytes(n as nat, 8));
    lemma_be_bounds();
    lemma_be_value_bytes(n as nat, 8);
}

/// A value that has no row is given the id behind the sequence: its row holds it, the sequence is
/// stored, the id leads back to the value where the table keeps that, and no other row changes.
pub proof fn law_new_id<T: IdTableValue>(
    db: Db,
    cf: Cf,
    key: Seq<u8>,
    seq: u64,
    with_reverse: bool,
)
    requires
        row(db, cf, key) is None,
        cf != Cf::Default,
    ensures
        ({
            let r = given::<T>(row(db, cf, key), cf, key, seq, with_reverse);
            let after = apply(db, r->Ok_0.ops);
            let back = be_bytes((seq + 1) as nat, 8);
            &&& seq == u64::MAX ==> r is Err && r->Err_0 == Error::SequenceExhausted
            &&& seq < u64::MAX ==> {
                &&& r is Ok
                &&& r->Ok_0.seq == seq + 1
                &&& T::spec_id(r->Ok_0.value) == seq + 1
                &&& r->Ok_0.value == T::spec_new((seq + 1) as u64)
                &&& row(after, Cf::Default, seq_key(cf)) == Some(le_bytes((seq + 1) as u64))
                &&& with_reverse ==> row(after, cf, back) == Some(key)
                &&& !with_reverse || back != key ==> row(after, cf, key) == Some(
                    T::bytes(r->Ok_0.value),
                )
                &&& forall|t: Cf, k: Seq<u8>|
                    (t, k) != (Cf::Default, seq_key(cf)) && (t, k) != (cf, key) && (!with_reverse
                        || (t, k) != (cf, back)) ==> #[trigger] row(after, t, k) == row(db, t, k)
            }
        }),
{
    if seq < u64::MAX {
        let next = (seq + 1) as u64;
        T::lemma_new(next);
        let g = given::<T>(row(db, cf, key), cf, key, seq, with_reverse)->Ok_0;
        let first = Op::Put { cf: Cf::Default, key: seq_key(cf), value: le_bytes(next) };
        let second = Op::Put { cf, key, value: T::bytes(g.value) };
        let back = reverse_op(cf, next, key);
        lemma_apply_one(db, first);
        lemma_apply_push(db, seq![first], second);
        assert(seq![first].push(second) =~= seq![first, second]);
        lemma_apply_push(db, seq![first, second], back);
        if with_reverse {
            assert(g.ops =~= seq![first, second].push(back));
        } else {
            assert(g.ops =~= seq![first, second]);
        }
    }
}

/// A value that has a row keeps the id in it and what else is held of it, and the sequence stays:
/// no row changes but the one that leads back to the value, where the table keeps that.
pub proof fn law_old_id<T: IdTableValue>(
    db: Db,
    cf: Cf,
    key: Seq<u8>,
    seq: u64,
    with_reverse: bool,
)
    requires
        row(db, cf, key) is Some,
    ensures
        ({
            let r = given::<T>(row(db, cf, key), cf, key, seq, with_reverse);
            let after = apply(db, r->Ok_0.ops);
            match T::parsed(row(db, cf, key).unwrap()) {
                None => r is Err && r->Err_0 == Error::Codec,
                Some(value) => {
                    let back = be_bytes(T::spec_id(value) as nat, 8);
                    &&& r is Ok
                    &&& r->Ok_0.value == value
                    &&& r->Ok_0.seq == seq
                    &&& with_reverse ==> row(after, cf, back) == Some(key)
                    &&& forall|t: Cf, k: Seq<u8>|
                        !with_reverse || (t, k) != (cf, back) ==> #[trigger] row(after, t, k)
                            == row(db, t, k)
                },
            }
        }),
{
    let r = given::<T>(row(db, cf, key), cf, key, seq, with_reverse);
    if let Some(value) = T::parsed(row(db, cf, key).unwrap()) {
        if with_reverse {
            lemma_apply_one(db, reverse_op(cf, T::spec_id(value), key));
        } else {
            assert(apply(db, r->Ok_0.ops) == db);
        }
    }
}

/// An account that is new is active. What is held of a value begins with its id.
pub proof fn law_new_values(n: u64, active: bool)
    ensures
        <DidIdValue as IdTableValue>::spec_new(n) == (n, true),
        <DidIdValue as IdTableValue>::spec_id((n, active)) == n,
        <TargetId as IdTableValue>::spec_new(n) == n,
        <TargetId as IdTableValue>::spec_id(n) == n,
{
}

// ---------------------------------------------------------------------------------------------
// notices

/// The accounts that have an id are those of the accounts with that id, in their order.
pub proof fn law_dids_with(accounts: Seq<(Text, (u64, bool))>, id: u64)
    ensures
        dids_with(accounts, id) == accounts.filter(
            |a: (Text, (u64, bool))| a.1.0 == id,
        ).map_values(|a: (Text, (u64, bool))| a.0),
    decreases accounts.len(),
{
    reveal(Seq::filter);
    let same = |a: (Text, (u64, bool))| a.1.0 == id;
    let name = |a: (Text, (u64, bool))| a.0;
    if accounts.len() == 0 {
        assert(dids_with(accounts, id) =~= accounts.filter(same).map_values(name));
    } else {
        let front = accounts.drop_last();
        law_dids_with(front, id);
        assert(dids_with(accounts, id) =~= accounts.filter(same).map_values(name));
    }
}

/// An account is noticed where accounts before it have its id, with all of them; or where it is the
/// first that has the id that is looked for. No other account is.
pub proof fn law_noticed(
    accounts: Seq<(Text, (u64, bool))>,
    did: Text,
    id: u64,
    active: bool,
    problem: u64,
)
    ensures
        noticed(Seq::empty(), problem) == Seq::<Noticed>::empty(),
        ({
            let earlier = accounts.filter(|a: (Text, (u64, bool))| a.1.0 == id).map_values(
                |a: (Text, (u64, bool))| a.0,
            );
            noticed(accounts.push((did, (id, active))), problem) == if earlier.len() > 0 {
                noticed(accounts, problem).push(
                    Noticed::Dup { is_problem: id == problem, did_id: id, dids: earlier, did },
                )
            } else if id == problem {
                noticed(accounts, problem).push(Noticed::Friend { did, did_id: id })
            } else {
                noticed(accounts, problem)
            }
        }),
{
    law_dids_with(accounts, id);
    assert(accounts.push((did, (id, active))).drop_last() =~= accounts);
}

/// Behind an entry there is something lost where its account has an id that leads nowhere, or to an
/// account that is not stored.
pub proof fn law_lost(db: Db, linker: Linker)
    ensures
        linker.0 == 0 ==> lost_of(db, linker) == Ok::<Option<LostView>, Error>(None),
        linker.0 != 0 && did_of_id(db, linker.0) == Ok::<Option<Text>, Error>(None) ==> lost_of(
            db,
            linker,
        ) == Ok::<Option<LostView>, Error>(Some(LostView::Did { did_id: linker.0 })),
        linker.0 != 0 ==> (did_of_id(db, linker.0) matches Err(e) ==> lost_of(db, linker) == Err::<
            Option<LostView>,
            Error,
        >(e)),
        linker.0 != 0 ==> (did_of_id(db, linker.0) matches Ok(Some(did)) ==> match did_value(
            db,
            did,
        ) {
            Err(e) => lost_of(db, linker) == Err::<Option<LostView>, Error>(e),
            Ok(None) => lost_of(db, linker) == Ok::<Option<LostView>, Error>(
                Some(LostView::Value { did_id: linker.0, did }),
            ),
            Ok(Some(_)) => lost_of(db, linker) == Ok::<Option<LostView>, Error>(None),
        }),
{
}

/// What is lost behind linkers is what is lost behind each of them, from the last to the first;
/// what stands before an entry that cannot be read is not looked at.
pub proof fn law_lost_in_order(db: Db, linker: Linker, newer: Seq<Linker>)
    ensures
        lost_all(db, Seq::empty()) == (Seq::<LostView>::empty(), true),
        !lost_all(db, newer).1 ==> lost_all(db, seq![linker] + newer) == lost_all(db, newer),
        lost_all(db, newer).1 ==> match lost_of(db, linker) {
            Err(_) => lost_all(db, seq![linker] + newer) == (lost_all(db, newer).0, false),
            Ok(None) => lost_all(db, seq![linker] + newer) == lost_all(db, newer),
            Ok(Some(l)) => lost_all(db, seq![linker] + newer) == (
                lost_all(db, newer).0.push(l),
                true,
            ),
        },
{
    assert((seq![linker] + newer).skip(1) =~= newer);
}

/// Every row is that of an account where its key and its value can be read as such.
pub proof fn law_all_accounts(rows: Seq<(Seq<u8>, Seq<u8>)>)
    ensures
        all_accounts(rows) <==> forall|i: int|
            0 <= i < rows.len() ==> Did::parsed((#[trigger] rows[i]).0) is Some
                && DidIdValue::parsed(rows[i].1) is Some,
        accounts_ask() == (Ask::Rows { cf: Cf::DidIds, prefix: Seq::empty() }),
{
    law_rows_decoded::<Did, DidIdValue>(rows);
    let accounts = decoded::<Did, DidIdValue>(rows);
    if accounts.len() == rows.len() {
        assert forall|i: int| 0 <= i < rows.len() implies Did::parsed((#[trigger] rows[i]).0) is Some
            && DidIdValue::parsed(rows[i].1) is Some by {
            assert(accounts[i] == accounts[i]);
        }
    } else {
        let i = accounts.len() as int;
        assert(Did::parsed(rows[i].0) is None || DidIdValue::parsed(rows[i].1) is None);
    }
}

// ---------------------------------------------------------------------------------------------
// lists

/// The records of an account are what can be read of the rows behind its id, and the ids of a
/// target what can be read of the rows behind its text.
pub proof fn law_lists_read(db: Db, did_id: u64, target: Text)
    ensures
        records_of(db, did_id) == decoded::<RecordLinkKey, RecordLinkTargets>(
            scan(db, Cf::LinkTargets, RecordLinkKeyDidIdPrefix::bytes(did_id)),
        ),
        ids_of_target(db, target) == decoded::<TargetKey, TargetId>(
            scan(db, Cf::TargetIds, TargetIdTargetPrefix::bytes(target)),
        ),
{
}

/// The linkers that a row holds are those that its bytes stand for, or none where there is no row.
pub proof fn law_linkers_in(b: Seq<u8>)
    ensures
        linkers_in(None) == Ok::<Seq<Linker>, Error>(Seq::empty()),
        TargetLinkers::parsed(b) matches Some(l) ==> linkers_in(Some(b)) == Ok::<
            Seq<Linker>,
            Error,
        >(l),
        TargetLinkers::parsed(b) is None ==> linkers_in(Some(b)) == Err::<Seq<Linker>, Error>(
            Error::Codec,
        ),
{
}

/// A number goes under its path in its collection, and leaves all others as they were.
pub proof fn law_with_count(
    counts: Map<Text, Map<Text, u64>>,
    collection: Text,
    path: Text,
    n: u64,
    c: Text,
    p: Text,
)
    ensures
        ({
            let new = with_count(counts, collection, path, n);
            &&& new.contains_key(collection)
            &&& new[collection].contains_key(path)
            &&& new[collection][path] == n
            &&& c != collection ==> (new.contains_key(c) <==> counts.contains_key(c))
            &&& c != collection && counts.contains_key(c) ==> new[c] == counts[c]
            &&& p != path && counts.contains_key(collection) ==> (new[collection].contains_key(p)
                <==> counts[collection].contains_key(p)) && (counts[collection].contains_key(p)
                ==> new[collection][p] == counts[collection][p])
            &&& p != path && !counts.contains_key(collection)
                ==> !new[collection].contains_key(p)
        }),
{
}

/// The counts of a target come from its ids, one after the other: the number of entries with an
/// account goes under the path and the collection of each.
pub proof fn law_counts_in_order(
    db: Db,
    target: Text,
    ids: Seq<((Text, Text, Text), u64)>,
    key: (Text, Text, Text),
    id: u64,
)
    ensures
        all_counts(db, target) == counts_in(db, ids_of_target(db, target)),
        counts_in(db, Seq::empty()) == Ok::<Map<Text, Map<Text, u64>>, Error>(Map::empty()),
        counts_in(db, ids) matches Err(e) ==> counts_in(db, ids.push((key, id))) == Err::<
            Map<Text, Map<Text, u64>>,
            Error,
        >(e),
        counts_in(db, ids) matches Ok(counts) ==> match linkers_of(db, id) {
            Err(e) => counts_in(db, ids.push((key, id))) == Err::<Map<Text, Map<Text, u64>>, Error>(
                e,
            ),
            Ok(linkers) => counts_in(db, ids.push((key, id))) == Ok::<
                Map<Text, Map<Text, u64>>,
                Error,
            >(
                with_count(
                    counts,
                    key.1,
                    key.2,
                    linkers.filter(|e: Linker| e.0 != 0).len() as u64,
                ),
            ),
        },
{
    assert(ids.push((key, id)).drop_last() =~= ids);
    if let Ok(linkers) = linkers_of(db, id) {
        assert(alive(linkers) == linkers.filter(|e: Linker| e.0 != 0).len());
    }
}

// ---------------------------------------------------------------------------------------------
// events

/// A record comes by the changes of what is added, with the cursor behind them.
pub proof fn law_create_done(
    db: Db,
    record_id: RecordId,
    links: Vec<CollectedLink>,
    cursor: u64,
    seqs: Seqs,
)
    ensures
        ({
            let last = Op::Put {
                cf: Cf::Default,
                key: encode_utf8("jetstream_cursor"@),
                value: <u64 as Stored>::bytes(cursor),
            };
            let event = ActionableEvent::CreateLinks { record_id, links };
            let p = pushed(db, event@, cursor, seqs);
            let record = (record_id.did.0@, record_id.collection@, record_id.rkey@);
            match added(db, record, links_view(links@), seqs) {
                Err(e) => p == Err::<Pushed, Error>(e),
                Ok(effect) => p is Ok && p->Ok_0.seqs == effect.seqs
                    && p->Ok_0.batches =~= Seq::empty().push(
                    effect.ops.push(last),
                ),
            }
        }),
{
}

/// A record changes its links by the changes of what is updated, with the cursor behind them.
pub proof fn law_update_done(
    db: Db,
    record_id: RecordId,
    new_links: Vec<CollectedLink>,
    cursor: u64,
    seqs: Seqs,
)
    ensures
        ({
            let last = Op::Put {
                cf: Cf::Default,
                key: encode_utf8("jetstream_cursor"@),
                value: <u64 as Stored>::bytes(cursor),
            };
            let event = ActionableEvent::UpdateLinks { record_id, new_links };
            let p = pushed(db, event@, cursor, seqs);
            let record = (record_id.did.0@, record_id.collection@, record_id.rkey@);
            match updated(db, record, links_view(new_links@), seqs) {
                Err(e) => p == Err::<Pushed, Error>(e),
                Ok(effect) => p is Ok && p->Ok_0.seqs == effect.seqs
                    && p->Ok_0.batches =~= Seq::empty().push(
                    effect.ops.push(last),
                ),
            }
        }),
{
}

/// A record goes by the changes of what is removed, with the cursor behind them.
pub proof fn law_delete_done(db: Db, record_id: RecordId, cursor: u64, seqs: Seqs)
    ensures
        ({
            let last = Op::Put {
                cf: Cf::Default,
                key: encode_utf8("jetstream_cursor"@),
                value: <u64 as Stored>::bytes(cursor),
            };
            let p = pushed(db, ActionableEvent::DeleteRecord(record_id)@, cursor, seqs);
            match removed(db, (record_id.did.0@, record_id.collection@, record_id.rkey@)) {
                Err(e) => p == Err::<Pushed, Error>(e),
                Ok(ops) => p is Ok && p->Ok_0.seqs == seqs && p->Ok_0.batches =~= Seq::empty().push(
                    ops.push(last),
                ),
            }
        }),
{
}

/// An account becomes active by the changes of its being set so, with the cursor behind them.
pub proof fn law_activate_done(db: Db, did: Did, cursor: u64, seqs: Seqs)
    ensures
        ({
            let last = Op::Put {
                cf: Cf::Default,
                key: encode_utf8("jetstream_cursor"@),
                value: <u64 as Stored>::bytes(cursor),
            };
            let p = pushed(db, ActionableEvent::ActivateAccount(did)@, cursor, seqs);
            match account_set(db, did.0@, true) {
                Err(e) => p == Err::<Pushed, Error>(e),
                Ok(ops) => p is Ok && p->Ok_0.seqs == seqs && p->Ok_0.batches =~= Seq::empty().push(
                    ops.push(last),
                ),
            }
        }),
{
}

/// An account becomes inactive by the changes of its being set so, with the cursor behind them.
pub proof fn law_deactivate_done(db: Db, did: Did, cursor: u64, seqs: Seqs)
    ensures
        ({
            let last = Op::Put {
                cf: Cf::Default,
                key: encode_utf8("jetstream_cursor"@),
                value: <u64 as Stored>::bytes(cursor),
            };
            let p = pushed(db, ActionableEvent::DeactivateAccount(did)@, cursor, seqs);
            match account_set(db, did.0@, false) {
                Err(e) => p == Err::<Pushed, Error>(e),
                Ok(ops) => p is Ok && p->Ok_0.seqs == seqs && p->Ok_0.batches =~= Seq::empty().push(
                    ops.push(last),
                ),
            }
        }),
{
}

/// An account goes by the batches for its records and, behind them, its own changes with the
/// cursor.
pub proof fn law_delete_account_done(db: Db, did: Did, cursor: u64, seqs: Seqs)
    ensures
        ({
            let last = Op::Put {
                cf: Cf::Default,
                key: encode_utf8("jetstream_cursor"@),
                value: <u64 as Stored>::bytes(cursor),
            };
            let p = pushed(db, ActionableEvent::DeleteAccount(did)@, cursor, seqs);
            match account_deleted(db, did.0@) {
                Err(e) => p == Err::<Pushed, Error>(e),
                Ok((batches, ops)) => p is Ok && p->Ok_0.seqs == seqs && p->Ok_0.batches =~= batches.push(
                    ops.push(last),
                ),
            }
        }),
{
}

/// A record that changes its links makes the changes of one that goes, and then those of one that
/// comes with the new links.
pub proof fn law_updated(
    db: Db,
    record: (Text, Text, Text),
    links: Seq<(Text, Text)>,
    seqs: Seqs,
)
    ensures
        removed(db, record) matches Err(e) ==> updated(db, record, links, seqs) == Err::<
            Effect,
            Error,
        >(e),
        removed(db, record) matches Ok(ops) ==> match added(db, record, links, seqs) {
            Err(e) => updated(db, record, links, seqs) == Err::<Effect, Error>(e),
            Ok(effect) => updated(db, record, links, seqs) == Ok::<Effect, Error>(
                Effect { ops: ops + effect.ops, seqs: effect.seqs },
            ),
        },
{
}

/// The rows that hold the newest ids of the two tables.
pub proof fn law_seq_keys()
    ensures
        seq_key(Cf::DidIds) == encode_utf8("__id_seq_key_plz_be_unique:"@) + encode_utf8(
            "did_ids"@,
        ),
        seq_key(Cf::TargetIds) == encode_utf8("__id_seq_key_plz_be_unique:"@) + encode_utf8(
            "target_ids"@,
        ),
{
}

}
