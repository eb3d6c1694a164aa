//! An id table by itself: looking up both ways, and the ids that it gives out.
use crate::bytes::le_bytes;
use crate::db::{
    apply, apply_op, lemma_apply_concat, lemma_apply_one, lemma_apply_push, row, Cf, Db, Op,
};
use crate::error::Error;
use crate::id_table::{first_seq, given, reverse_op, row_value, seq_key, Given, IdTableValue};
use crate::laws::keys::{id_limit, law_bytes_differ, law_reverse_rows, law_reverse_rows_differ};
use crate::records::{AsRocksKey, Did, DidIdValue, KeyFromRocks, Stored, Text};
use crate::wire::{be_bytes, lemma_be_bounds, lemma_be_bytes_len, lemma_be_value_bytes};
use vstd::prelude::*;

verus! {

// ---------------------------------------------------------------------------------------------
// both ways

/// What a table holds of a value.
pub open spec fn id_val<Orig: KeyFromRocks + AsRocksKey, IdVal: IdTableValue>(
    db: Db,
    cf: Cf,
    orig: Orig::V,
) -> Result<Option<IdVal::V>, Error> {
    row_value::<IdVal>(row(db, cf, Orig::bytes(orig)))
}

/// The value to which an id of a table leads.
pub open spec fn val_from_id<Orig: KeyFromRocks + AsRocksKey>(db: Db, cf: Cf, id: u64) -> Result<
    Option<Orig::V>,
    Error,
> {
    row_value::<Orig>(row(db, cf, be_bytes(id as nat, 8)))
}

/// What comes of asking a table with reverse rows for the id of a value.
pub open spec fn given_to<Orig: KeyFromRocks + AsRocksKey, IdVal: IdTableValue>(
    db: Db,
    cf: Cf,
    orig: Orig::V,
    seq: u64,
) -> Result<Given<IdVal::V>, Error> {
    given::<IdVal>(row(db, cf, Orig::bytes(orig)), cf, Orig::bytes(orig), seq, true)
}

/// Whether the changes that stand in a batch before leave what is stored of a value alone.
pub open spec fn spares(db: Db, earlier: Seq<Op>, cf: Cf, key: Seq<u8>) -> bool {
    row(db, cf, key) is Some ==> row(apply(db, earlier), cf, key) == row(db, cf, key)
}

/// Once a table with reverse rows has been asked for the id of a value, and the changes have been
/// written with those that stood in the batch before, the value leads to its id and the id to its
/// value, for as long as nothing is written to their two rows. (The two rows are not the same one,
/// and the batch did not change the value before.)
pub proof fn law_lookups_inverse<Orig: KeyFromRocks + AsRocksKey, IdVal: IdTableValue>(
    db: Db,
    cf: Cf,
    orig: Orig::V,
    seq: u64,
    earlier: Seq<Op>,
    later: Db,
)
    requires
        Orig::fits(orig),
        given_to::<Orig, IdVal>(db, cf, orig, seq) is Ok,
        spares(db, earlier, cf, Orig::bytes(orig)),
        ({
            let g = given_to::<Orig, IdVal>(db, cf, orig, seq)->Ok_0;
            let back = be_bytes(IdVal::spec_id(g.value) as nat, 8);
            let after = apply(db, earlier + g.ops);
            &&& back != Orig::bytes(orig)
            &&& row(later, cf, Orig::bytes(orig)) == row(after, cf, Orig::bytes(orig))
            &&& row(later, cf, back) == row(after, cf, back)
        }),
    ensures
        ({
            let g = given_to::<Orig, IdVal>(db, cf, orig, seq)->Ok_0;
            let id = IdVal::spec_id(g.value);
            &&& id_val::<Orig, IdVal>(later, cf, orig) == Ok::<Option<IdVal::V>, Error>(
                Some(g.value),
            )
            &&& val_from_id::<Orig>(later, cf, id) == Ok::<Option<Orig::V>, Error>(Some(orig))
        }),
{
    let key = Orig::bytes(orig);
    let g = given_to::<Orig, IdVal>(db, cf, orig, seq)->Ok_0;
    let start = apply(db, earlier);
    lemma_apply_concat(db, earlier, g.ops);
    lemma_given_ops::<IdVal>(start, row(db, cf, key), cf, key, seq);
    Orig::lemma_parsed_bytes(orig);
    if row(db, cf, key) is None {
        IdVal::lemma_new((seq + 1) as u64);
        IdVal::lemma_parsed_bytes(g.value);
    }
}

/// The rows that asking for an id writes.
proof fn lemma_given_ops<T: IdTableValue>(
    start: Db,
    stored: Option<Seq<u8>>,
    cf: Cf,
    key: Seq<u8>,
    seq: u64,
)
    requires
        given::<T>(stored, cf, key, seq, true) is Ok,
    ensures
        ({
            let g = given::<T>(stored, cf, key, seq, true)->Ok_0;
            let back = be_bytes(T::spec_id(g.value) as nat, 8);
            let after = apply(start, g.ops);
            &&& row(after, cf, back) == Some(key)
            &&& back != key ==> row(after, cf, key) == if stored is Some {
                row(start, cf, key)
            } else {
                Some(T::bytes(g.value))
            }
            &&& forall|k: Seq<u8>|
                k != key && k != back && (cf, k) != (Cf::Default, seq_key(cf)) ==> #[trigger] row(
                    after,
                    cf,
                    k,
                ) == row(start, cf, k)
        }),
{
    let g = given::<T>(stored, cf, key, seq, true)->Ok_0;
    let back = reverse_op(cf, T::spec_id(g.value), key);
    if stored is Some {
        lemma_apply_one(start, back);
    } else {
        let first = Op::Put { cf: Cf::Default, key: seq_key(cf), value: le_bytes(g.seq) };
        let second = Op::Put { cf, key, value: T::bytes(g.value) };
        lemma_apply_one(start, first);
        lemma_apply_push(start, seq![first], second);
        assert(seq![first].push(second) =~= seq![first, second]);
        lemma_apply_push(start, seq![first, second], back);
        assert(g.ops =~= seq![first, second].push(back));
    }
}

/// Asking for the id of one value leaves the other values, and the values of the other ids, as they
/// were. (Rows that lead back are not those of values, and the tables are not kept among the single
/// values.)
pub proof fn law_lookups_apart<Orig: KeyFromRocks + AsRocksKey, IdVal: IdTableValue>(
    db: Db,
    cf: Cf,
    orig: Orig::V,
    seq: u64,
    other: Orig::V,
    other_id: u64,
)
    requires
        cf != Cf::Default,
        Orig::fits(orig),
        Orig::fits(other),
        other != orig,
        given_to::<Orig, IdVal>(db, cf, orig, seq) is Ok,
        ({
            let id = IdVal::spec_id(given_to::<Orig, IdVal>(db, cf, orig, seq)->Ok_0.value);
            &&& other_id != id
            &&& be_bytes(id as nat, 8) != Orig::bytes(other)
            &&& be_bytes(other_id as nat, 8) != Orig::bytes(orig)
        }),
    ensures
        ({
            let after = apply(db, given_to::<Orig, IdVal>(db, cf, orig, seq)->Ok_0.ops);
            &&& id_val::<Orig, IdVal>(after, cf, other) == id_val::<Orig, IdVal>(db, cf, other)
            &&& val_from_id::<Orig>(after, cf, other_id) == val_from_id::<Orig>(db, cf, other_id)
        }),
{
    let key = Orig::bytes(orig);
    let id = IdVal::spec_id(given_to::<Orig, IdVal>(db, cf, orig, seq)->Ok_0.value);
    lemma_given_ops::<IdVal>(db, row(db, cf, key), cf, key, seq);
    if Orig::bytes(other) == key {
        law_bytes_differ::<Orig>(other, orig);
    }
    if be_bytes(other_id as nat, 8) == be_bytes(id as nat, 8) {
        law_reverse_rows_differ(other_id, id);
    }
}

/// An id that has no row leads nowhere.
pub proof fn law_no_way_back<Orig: KeyFromRocks + AsRocksKey>(db: Db, cf: Cf, id: u64)
    requires
        row(db, cf, be_bytes(id as nat, 8)) is None,
    ensures
        val_from_id::<Orig>(db, cf, id) == Ok::<Option<Orig::V>, Error>(None),
{
}

/// Among the accounts, an id below the limit and its account lead to each other once the account
/// has been asked for and what came of it has been written.
pub proof fn law_accounts_inverse(db: Db, did: Text, seq: u64, earlier: Seq<Op>, later: Db)
    requires
        Did::fits(did),
        given_to::<Did, DidIdValue>(db, Cf::DidIds, did, seq) is Ok,
        given_to::<Did, DidIdValue>(db, Cf::DidIds, did, seq)->Ok_0.value.0 < id_limit(),
        spares(db, earlier, Cf::DidIds, Did::bytes(did)),
        ({
            let g = given_to::<Did, DidIdValue>(db, Cf::DidIds, did, seq)->Ok_0;
            let back = be_bytes(g.value.0 as nat, 8);
            let after = apply(db, earlier + g.ops);
            &&& row(later, Cf::DidIds, Did::bytes(did)) == row(after, Cf::DidIds, Did::bytes(did))
            &&& row(later, Cf::DidIds, back) == row(after, Cf::DidIds, back)
        }),
    ensures
        ({
            let value = given_to::<Did, DidIdValue>(db, Cf::DidIds, did, seq)->Ok_0.value;
            &&& id_val::<Did, DidIdValue>(later, Cf::DidIds, did) == Ok::<
                Option<(u64, bool)>,
                Error,
            >(Some(value))
            &&& val_from_id::<Did>(later, Cf::DidIds, value.0) == Ok::<Option<Text>, Error>(
                Some(did),
            )
        }),
{
    law_reverse_rows(given_to::<Did, DidIdValue>(db, Cf::DidIds, did, seq)->Ok_0.value.0, did);
    law_lookups_inverse::<Did, DidIdValue>(db, Cf::DidIds, did, seq, earlier, later);
}

// ---------------------------------------------------------------------------------------------
// ids that are given out

/// A table over a database, with changes that are still to be written.
pub struct Table {
    pub db: Db,
    pub batch: Seq<Op>,
    pub seq: u64,
}

/// Something that happens to a table.
pub enum Turn {
    /// It is asked for the id of the value with a key.
    Ask { key: Seq<u8> },
    /// Something else joins the changes that are to be written.
    Change { op: Op },
    /// The changes are written.
    Write,
    /// The changes are written, and the table is started again.
    Start,
}

/// The row that a change is made to.
pub open spec fn row_of(op: Op) -> (Cf, Seq<u8>) {
    match op {
        Op::Put { cf, key, .. } => (cf, key),
        Op::Merge { cf, key, .. } => (cf, key),
        Op::Delete { cf, key } => (cf, key),
    }
}

/// Whether nobody but the table itself changes the row that holds its newest id.
pub open spec fn undisturbed(turns: Seq<Turn>, cf: Cf) -> bool {
    forall|i: int|
        0 <= i < turns.len() ==> ((#[trigger] turns[i]) matches Turn::Change { op } ==> row_of(op)
            != (Cf::Default, seq_key(cf)))
}

/// A table that is started over a database.
pub open spec fn started(db: Db, cf: Cf) -> Result<Table, Error> {
    match first_seq(row(db, Cf::Default, seq_key(cf))) {
        Err(e) => Err(e),
        Ok(seq) => Ok(Table { db, batch: Seq::empty(), seq }),
    }
}

/// A table after something has happened to it.
pub open spec fn turned<T: IdTableValue>(
    table: Table,
    cf: Cf,
    with_reverse: bool,
    turn: Turn,
) -> Result<Table, Error> {
    match turn {
        Turn::Ask { key } => match given::<T>(
            row(table.db, cf, key),
            cf,
            key,
            table.seq,
            with_reverse,
        ) {
            Err(e) => Err(e),
            Ok(g) => Ok(Table { db: table.db, batch: table.batch + g.ops, seq: g.seq }),
        },
        Turn::Change { op } => Ok(
            Table { db: table.db, batch: table.batch.push(op), seq: table.seq },
        ),
        Turn::Write => Ok(
            Table {
                db: apply(table.db, table.batch),
                batch: Seq::empty(),
                seq: table.seq,
            },
        ),
        Turn::Start => started(apply(table.db, table.batch), cf),
    }
}

/// A table that is started over a database, after all that has happened to it.
pub open spec fn turned_all<T: IdTableValue>(
    db: Db,
    cf: Cf,
    with_reverse: bool,
    turns: Seq<Turn>,
) -> Result<Table, Error>
    decreases turns.len(),
{
    if turns.len() == 0 {
        started(db, cf)
    } else {
        match turned_all::<T>(db, cf, with_reverse, turns.drop_last()) {
            Err(e) => Err(e),
            Ok(table) => turned::<T>(table, cf, with_reverse, turns.last()),
        }
    }
}

/// The ids that were given to values without a row, in their order.
pub open spec fn ids_given<T: IdTableValue>(
    db: Db,
    cf: Cf,
    with_reverse: bool,
    turns: Seq<Turn>,
) -> Seq<u64>
    decreases turns.len(),
{
    if turns.len() == 0 {
        Seq::empty()
    } else {
        let front = ids_given::<T>(db, cf, with_reverse, turns.drop_last());
        let table = turned_all::<T>(db, cf, with_reverse, turns.drop_last())->Ok_0;
        match turns.last() {
            Turn::Ask { key } => if row(table.db, cf, key) is None {
                front.push(
                    T::spec_id(
                        given::<T>(None, cf, key, table.seq, with_reverse)->Ok_0.value,
                    ),
                )
            } else {
                front
            },
            _ => front,
        }
    }
}

/// Whether a table that would be started once all is written would not be behind this one.
spec fn kept_up(table: Table, cf: Cf) -> bool {
    first_seq(row(apply(table.db, table.batch), Cf::Default, seq_key(cf))) matches Ok(seq)
        ==> table.seq <= seq
}

/// A table stays where it is, or goes on by one with a new id, whatever happens to it.
proof fn lemma_turned<T: IdTableValue>(table: Table, cf: Cf, with_reverse: bool, turn: Turn)
    requires
        cf != Cf::Default,
        kept_up(table, cf),
        turned::<T>(table, cf, with_reverse, turn) is Ok,
        turn matches Turn::Change { op } ==> row_of(op) != (Cf::Default, seq_key(cf)),
    ensures
        kept_up(turned::<T>(table, cf, with_reverse, turn)->Ok_0, cf),
        table.seq <= turned::<T>(table, cf, with_reverse, turn)->Ok_0.seq,
        turn matches Turn::Ask { key } ==> row(table.db, cf, key) is None ==> {
            let seq = turned::<T>(table, cf, with_reverse, turn)->Ok_0.seq;
            &&& seq == table.seq + 1
            &&& T::spec_id(given::<T>(None, cf, key, table.seq, with_reverse)->Ok_0.value) == seq
        },
{
    let all = apply(table.db, table.batch);
    match turn {
        Turn::Ask { key } => {
            let stored = row(table.db, cf, key);
            let g = given::<T>(stored, cf, key, table.seq, with_reverse)->Ok_0;
            lemma_apply_concat(table.db, table.batch, g.ops);
            let back = reverse_op(cf, T::spec_id(g.value), key);
            if stored is Some {
                if with_reverse {
                    lemma_apply_one(all, back);
                } else {
                    assert(apply(all, g.ops) == all);
                }
            } else {
                let first = Op::Put { cf: Cf::Default, key: seq_key(cf), value: le_bytes(g.seq) };
                let second = Op::Put { cf, key, value: T::bytes(g.value) };
                T::lemma_new(g.seq);
                lemma_apply_one(all, first);
                lemma_apply_push(all, seq![first], second);
                assert(seq![first].push(second) =~= seq![first, second]);
                lemma_apply_push(all, seq![first, second], back);
                if with_reverse {
                    assert(g.ops =~= seq![first, second].push(back));
                } else {
                    assert(g.ops =~= seq![first, second]);
                }
                assert(row(apply(all, g.ops), Cf::Default, seq_key(cf)) == Some(le_bytes(g.seq)));
                lemma_stored_seq(g.seq);
            }
        },
        Turn::Change { op } => {
            lemma_apply_push(table.db, table.batch, op);
            assert(row(apply_op(all, op), Cf::Default, seq_key(cf)) == row(
                all,
                Cf::Default,
                seq_key(cf),
            ));
        },
        Turn::Write => {
            assert(apply(all, Seq::empty()) == all);
        },
        Turn::Start => {
            assert(apply(all, Seq::empty()) == all);
        },
    }
}

/// A table does not start behind the newest id that is stored.
proof fn lemma_stored_seq(n: u64)
    ensures
        first_seq(Some(le_bytes(n))) matches Ok(seq) ==> n <= seq,
{
    lemma_be_bytes_len(n as nat, 8);
    assert(le_bytes(n).reverse() =~= be_bytes(n as nat, 8));
    lemma_be_bounds();
    lemma_be_value_bytes(n as nat, 8);
}

/// The ids that a table gives out rise, however its changes are written, whatever else is changed
/// in the database (values that go among it), and however often the table is started again: no id
/// is given out twice. None is below two, and none is zero, which stands for a link that is gone.
pub proof fn law_ids_rise<T: IdTableValue>(db: Db, cf: Cf, with_reverse: bool, turns: Seq<Turn>)
    requires
        cf != Cf::Default,
        undisturbed(turns, cf),
        turned_all::<T>(db, cf, with_reverse, turns) is Ok,
    ensures
        ({
            let ids = ids_given::<T>(db, cf, with_reverse, turns);
            let first = first_seq(row(db, Cf::Default, seq_key(cf)))->Ok_0;
            &&& forall|i: int, j: int|
                0 <= i < j < ids.len() ==> (#[trigger] ids[i]) < (#[trigger] ids[j])
            &&& forall|i: int| 0 <= i < ids.len() ==> 2 <= #[trigger] ids[i]
            &&& forall|i: int|
                0 <= i < ids.len() ==> first < #[trigger] ids[i] <= turned_all::<T>(
                    db,
                    cf,
                    with_reverse,
                    turns,
                )->Ok_0.seq
        }),
{
    lemma_ids_rise::<T>(db, cf, with_reverse, turns);
}

proof fn lemma_ids_rise<T: IdTableValue>(db: Db, cf: Cf, with_reverse: bool, turns: Seq<Turn>)
    requires
        cf != Cf::Default,
        undisturbed(turns, cf),
        turned_all::<T>(db, cf, with_reverse, turns) is Ok,
    ensures
        ({
            let ids = ids_given::<T>(db, cf, with_reverse, turns);
            let first = first_seq(row(db, Cf::Default, seq_key(cf)));
            let table = turned_all::<T>(db, cf, with_reverse, turns)->Ok_0;
            &&& first is Ok
            &&& 1 <= first->Ok_0 <= table.seq
            &&& kept_up(table, cf)
            &&& forall|i: int, j: int|
                0 <= i < j < ids.len() ==> (#[trigger] ids[i]) < (#[trigger] ids[j])
            &&& forall|i: int|
                0 <= i < ids.len() ==> first->Ok_0 < #[trigger] ids[i] <= table.seq
        }),
    decreases turns.len(),
{
    if turns.len() == 0 {
        assert(apply(db, Seq::empty()) == db);
    } else {
        let front = turns.drop_last();
        assert(undisturbed(front, cf)) by {
            assert forall|i: int| 0 <= i < front.len() implies ((#[trigger] front[i]) matches
                Turn::Change { op } ==> row_of(op) != (Cf::Default, seq_key(cf))) by {
                assert(front[i] == turns[i]);
            }
        }
        lemma_ids_rise::<T>(db, cf, with_reverse, front);
        let table = turned_all::<T>(db, cf, with_reverse, front)->Ok_0;
        assert(turns[turns.len() - 1] == turns.last());
        lemma_turned::<T>(table, cf, with_reverse, turns.last());
        let new = turned_all::<T>(db, cf, with_reverse, turns)->Ok_0;
        assert(new == turned::<T>(table, cf, with_reverse, turns.last())->Ok_0);
        let old = ids_given::<T>(db, cf, with_reverse, front);
        let ids = ids_given::<T>(db, cf, with_reverse, turns);
        assert(ids == old || ids == old.push(new.seq) && new.seq == table.seq + 1);
        assert forall|i: int| 0 <= i < ids.len() implies first_seq(
            row(db, Cf::Default, seq_key(cf)),
        )->Ok_0 < #[trigger] ids[i] <= new.seq by {
            if i < old.len() {
                assert(ids[i] == old[i]);
            }
        }
        assert forall|i: int, j: int| 0 <= i < j < ids.len() implies (#[trigger] ids[i]) < (
        #[trigger] ids[j]) by {
            assert(ids[i] == old[i]);
            if j < old.len() {
                assert(ids[j] == old[j]);
            }
        }
    }
}

}
