//! The database as the operations see it: tables of rows, and batches of changes to them.
use crate::linkers::merged;
use vstd::prelude::*;

verus! {

/// The tables, each of which is a column family.
#[derive(Clone, Copy, Debug, PartialEq, Eq, Structural, Hash)]
pub enum Cf {
    /// Single values: the sequences of the id tables, and the cursor.
    Default,
    /// From accounts to their ids, and back.
    DidIds,
    /// From targets to their ids.
    TargetIds,
    /// From the id of a target to its linkers.
    TargetLinks,
    /// From a record to its links.
    LinkTargets,
}

impl Cf {
    pub open spec fn spec_name(self) -> Seq<char> {
        match self {
            Cf::Default => "default"@,
            Cf::DidIds => "did_ids"@,
            Cf::TargetIds => "target_ids"@,
            Cf::TargetLinks => "target_links"@,
            Cf::LinkTargets => "link_targets"@,
        }
    }

    /// The name of the column family.
    pub fn name(&self) -> (r: &'static str)
        ensures
            r@ == self.spec_name(),
    {
        match self {
            Cf::Default => "default",
            Cf::DidIds => "did_ids",
            Cf::TargetIds => "target_ids",
            Cf::TargetLinks => "target_links",
            Cf::LinkTargets => "link_targets",
        }
    }
}

/// The rows of all tables.
pub type Db = Map<(Cf, Seq<u8>), Seq<u8>>;

/// The value of a row, if the row is there.
pub open spec fn row(db: Db, cf: Cf, key: Seq<u8>) -> Option<Seq<u8>> {
    if db.contains_key((cf, key)) {
        Some(db[(cf, key)])
    } else {
        None
    }
}

/// Whether `a` comes before `b` in the order of the keys.
pub open spec fn before(a: Seq<u8>, b: Seq<u8>) -> bool
    decreases a.len(),
{
    if b.len() == 0 {
        false
    } else if a.len() == 0 {
        true
    } else if a[0] != b[0] {
        a[0] < b[0]
    } else {
        before(a.skip(1), b.skip(1))
    }
}

/// Whether `rows` are the rows of a table whose keys begin with `prefix`, in the order of their
/// keys.
pub open spec fn is_scan(db: Db, cf: Cf, prefix: Seq<u8>, rows: Seq<(Seq<u8>, Seq<u8>)>) -> bool {
    &&& forall|i: int|
        0 <= i < rows.len() ==> prefix.is_prefix_of((#[trigger] rows[i]).0) && row(
            db,
            cf,
            rows[i].0,
        ) == Some(rows[i].1)
    &&& forall|key: Seq<u8>| #[trigger]
        db.contains_key((cf, key)) && prefix.is_prefix_of(key) ==> exists|i: int|
            0 <= i < rows.len() && (#[trigger] rows[i]).0 == key
    &&& forall|i: int, j: int|
        0 <= i < j < rows.len() ==> before((#[trigger] rows[i]).0, (#[trigger] rows[j]).0)
}

/// The rows of a table whose keys begin with `prefix`, in the order of their keys.
pub open spec fn scan(db: Db, cf: Cf, prefix: Seq<u8>) -> Seq<(Seq<u8>, Seq<u8>)> {
    choose|rows: Seq<(Seq<u8>, Seq<u8>)>| is_scan(db, cf, prefix, rows)
}

/// A change to one row.
pub enum Op {
    Put { cf: Cf, key: Seq<u8>, value: Seq<u8> },
    /// Linkers to be put behind those in the row.
    Merge { cf: Cf, key: Seq<u8>, operand: Seq<u8> },
    Delete { cf: Cf, key: Seq<u8> },
}

/// The database after a change. A merge that cannot be done changes nothing.
pub open spec fn apply_op(db: Db, op: Op) -> Db {
    match op {
        Op::Put { cf, key, value } => db.insert((cf, key), value),
        Op::Merge { cf, key, operand } => match merged(row(db, cf, key), seq![operand], 0) {
            Ok(value) => db.insert((cf, key), value),
            Err(_) => db,
        },
        Op::Delete { cf, key } => db.remove((cf, key)),
    }
}

/// The database after changes, one after the other.
pub open spec fn apply(db: Db, ops: Seq<Op>) -> Db
    decreases ops.len(),
{
    if ops.len() == 0 {
        db
    } else {
        apply_op(apply(db, ops.drop_last()), ops.last())
    }
}

/// One more change.
pub proof fn lemma_apply_push(db: Db, ops: Seq<Op>, op: Op)
    ensures
        apply(db, ops.push(op)) == apply_op(apply(db, ops), op),
{
    assert(ops.push(op).drop_last() =~= ops);
}

/// Changes, and more changes.
pub proof fn lemma_apply_concat(db: Db, a: Seq<Op>, b: Seq<Op>)
    ensures
        apply(db, a + b) == apply(apply(db, a), b),
    decreases b.len(),
{
    if b.len() == 0 {
        assert(a + b =~= a);
    } else {
        assert((a + b).drop_last() =~= a + b.drop_last());
        lemma_apply_concat(db, a, b.drop_last());
    }
}

/// A single change.
pub proof fn lemma_apply_one(db: Db, op: Op)
    ensures
        apply(db, seq![op]) == apply_op(db, op),
{
    assert(seq![op].drop_last() =~= Seq::empty());
    assert(apply(db, Seq::empty()) == db);
}

/// The database after batches of changes, one after the other.
pub open spec fn apply_all(db: Db, batches: Seq<Seq<Op>>) -> Db
    decreases batches.len(),
{
    if batches.len() == 0 {
        db
    } else {
        apply(apply_all(db, batches.drop_last()), batches.last())
    }
}

/// A change to one row, to be made.
#[derive(Debug, PartialEq, Eq)]
pub enum BatchOp {
    Put { cf: Cf, key: Vec<u8>, value: Vec<u8> },
    Merge { cf: Cf, key: Vec<u8>, operand: Vec<u8> },
    Delete { cf: Cf, key: Vec<u8> },
}

impl View for BatchOp {
    type V = Op;

    open spec fn view(&self) -> Op {
        match self {
            BatchOp::Put { cf, key, value } => Op::Put { cf: *cf, key: key@, value: value@ },
            BatchOp::Merge { cf, key, operand } => Op::Merge {
                cf: *cf,
                key: key@,
                operand: operand@,
            },
            BatchOp::Delete { cf, key } => Op::Delete { cf: *cf, key: key@ },
        }
    }
}

/// Changes that are to be made together, in their order.
#[derive(Debug, PartialEq, Eq)]
pub struct Batch {
    pub ops: Vec<BatchOp>,
}

impl View for Batch {
    type V = Seq<Op>;

    open spec fn view(&self) -> Seq<Op> {
        self.ops@.map_values(|op: BatchOp| op@)
    }
}

/// The changes of each batch.
pub open spec fn batches_view(batches: Seq<Batch>) -> Seq<Seq<Op>> {
    batches.map_values(|b: Batch| b@)
}

impl Batch {
    /// No changes.
    pub fn new() -> (r: Self)
        ensures
            r@ == Seq::<Op>::empty(),
    {
        let r = Batch { ops: Vec::new() };
        assert(r@ =~= Seq::<Op>::empty());
        r
    }

    pub fn put_cf(&mut self, cf: Cf, key: Vec<u8>, value: Vec<u8>)
        ensures
            final(self)@ == old(self)@.push(Op::Put { cf, key: key@, value: value@ }),
    {
        let ghost before = self@;
        let op = BatchOp::Put { cf, key, value };
        let ghost op_view = op@;
        self.ops.push(op);
        assert(self@ =~= before.push(op_view));
    }

    pub fn merge_cf(&mut self, cf: Cf, key: Vec<u8>, operand: Vec<u8>)
        ensures
            final(self)@ == old(self)@.push(Op::Merge { cf, key: key@, operand: operand@ }),
    {
        let ghost before = self@;
        let op = BatchOp::Merge { cf, key, operand };
        let ghost op_view = op@;
        self.ops.push(op);
        assert(self@ =~= before.push(op_view));
    }

    pub fn delete_cf(&mut self, cf: Cf, key: Vec<u8>)
        ensures
            final(self)@ == old(self)@.push(Op::Delete { cf, key: key@ }),
    {
        let ghost before = self@;
        let op = BatchOp::Delete { cf, key };
        let ghost op_view = op@;
        self.ops.push(op);
        assert(self@ =~= before.push(op_view));
    }

    /// Puts the changes of another batch behind these.
    pub fn append(&mut self, other: Batch)
        ensures
            final(self)@ == old(self)@ + other@,
    {
        let ghost before = self@;
        let mut rest = other.ops;
        self.ops.append(&mut rest);
        assert(self@ =~= before + other@);
    }
}

}
