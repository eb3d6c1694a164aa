//! What whoever drives an operation can rely on.
use crate::db::{row, scan, Cf, Db};
use crate::known::{Ask, Facts, Read};
use crate::model::wants;
use vstd::prelude::*;

verus! {

/// Where nothing is known, nothing is wrong.
pub proof fn law_nothing_known(db: Db)
    ensures
        (Facts { rows: Map::empty(), scans: Map::empty() }).agrees(db),
{
}

/// What is known stays true when the value of a row is read and added to it.
pub proof fn law_learn_row(facts: Facts, db: Db, cf: Cf, key: Seq<u8>)
    requires
        facts.agrees(db),
    ensures
        (Facts { rows: facts.rows.insert((cf, key), row(db, cf, key)), scans: facts.scans }).agrees(
            db,
        ),
        (Facts { rows: facts.rows.insert((cf, key), row(db, cf, key)), scans: facts.scans }).has(
            Ask::Row { cf, key },
        ),
{
}

/// What is known stays true when the rows behind a prefix are read and added to it.
pub proof fn law_learn_rows(facts: Facts, db: Db, cf: Cf, prefix: Seq<u8>)
    requires
        facts.agrees(db),
    ensures
        (Facts {
            rows: facts.rows,
            scans: facts.scans.insert((cf, prefix), scan(db, cf, prefix)),
        }).agrees(db),
        (Facts {
            rows: facts.rows,
            scans: facts.scans.insert((cf, prefix), scan(db, cf, prefix)),
        }).has(Ask::Rows { cf, prefix }),
{
}

/// An operation that knows all that it needs does not stop to read.
pub proof fn law_reads_end(reads: Seq<Read>, facts: Facts, needed: spec_fn(Ask) -> bool)
    requires
        forall|ask: Ask| #[trigger] needed(ask) ==> facts.has(ask),
    ensures
        !wants(reads, facts, needed),
{
    if wants(reads, facts, needed) {
        assert(needed(reads[0]@) && !facts.has(reads[0]@));
    }
}

}
