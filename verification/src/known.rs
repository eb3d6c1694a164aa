//! What an operation has been told of the database.
//!
//! No operation reads the database itself. It works on what it knows; where it lacks something,
//! it stops and says what is to be read. Whoever drives it reads that, adds it to what is known,
//! and starts the operation again.
use crate::bytes::{copy_bytes, same_bytes};
use crate::db::{row, scan, Cf, Db};
use crate::error::Error;
use std::collections::HashMap;
use vstd::prelude::*;

verus! {

/// Something to be read.
pub enum Ask {
    /// The value of a row.
    Row { cf: Cf, key: Seq<u8> },
    /// The rows whose keys begin with a prefix.
    Rows { cf: Cf, prefix: Seq<u8> },
}

/// Something to be read from the database.
#[derive(Debug, PartialEq, Eq)]
pub enum Read {
    /// The value of a row.
    Row { cf: Cf, key: Vec<u8> },
    /// The rows whose keys begin with a prefix, in the order of their keys.
    Rows { cf: Cf, prefix: Vec<u8> },
}

impl View for Read {
    type V = Ask;

    open spec fn view(&self) -> Ask {
        match self {
            Read::Row { cf, key } => Ask::Row { cf: *cf, key: key@ },
            Read::Rows { cf, prefix } => Ask::Rows { cf: *cf, prefix: prefix@ },
        }
    }
}

/// What ends an operation early.
#[derive(Debug, PartialEq, Eq)]
pub enum Halt {
    /// These have to be read first.
    Read(Vec<Read>),
    /// The operation cannot be done.
    Fail(Error),
}

/// What several reads ask for.
pub open spec fn asks(reads: Seq<Read>) -> Seq<Ask> {
    reads.map_values(|r: Read| r@)
}

/// A single read.
pub proof fn lemma_one_ask(reads: Seq<Read>, ask: Ask)
    requires
        asks(reads) == seq![ask],
    ensures
        reads.len() == 1,
        reads[0]@ == ask,
{
    assert(asks(reads).len() == reads.len());
    assert(asks(reads)[0] == reads[0]@);
}

/// Stops to read a row.
pub fn ask_row(cf: Cf, key: Vec<u8>) -> (r: Halt)
    ensures
        r matches Halt::Read(reads) && asks(reads@) == seq![Ask::Row { cf, key: key@ }],
{
    let ghost k = key@;
    let reads: Vec<Read> = vec![Read::Row { cf, key }];
    assert(asks(reads@) =~= seq![Ask::Row { cf, key: k }]);
    Halt::Read(reads)
}

/// Stops to read the rows behind a prefix.
pub fn ask_rows(cf: Cf, prefix: Vec<u8>) -> (r: Halt)
    ensures
        r matches Halt::Read(reads) && asks(reads@) == seq![Ask::Rows { cf, prefix: prefix@ }],
{
    let ghost p = prefix@;
    let reads: Vec<Read> = vec![Read::Rows { cf, prefix }];
    assert(asks(reads@) =~= seq![Ask::Rows { cf, prefix: p }]);
    Halt::Read(reads)
}

/// What is known of the database: the value of some rows (or that they are not there), and the
/// rows behind some prefixes.
#[verifier::ext_equal]
pub struct Facts {
    pub rows: Map<(Cf, Seq<u8>), Option<Seq<u8>>>,
    pub scans: Map<(Cf, Seq<u8>), Seq<(Seq<u8>, Seq<u8>)>>,
}

impl Facts {
    /// Whether the answer to `ask` is known.
    pub open spec fn has(self, ask: Ask) -> bool {
        match ask {
            Ask::Row { cf, key } => self.rows.contains_key((cf, key)),
            Ask::Rows { cf, prefix } => self.scans.contains_key((cf, prefix)),
        }
    }

    /// The rows that are known here or, where they are not, below.
    pub open spec fn over(self, below: Facts) -> Facts {
        Facts { rows: below.rows.union_prefer_right(self.rows), scans: Map::empty() }
    }

    /// Whether all that is known is true of `db`.
    pub open spec fn agrees(self, db: Db) -> bool {
        &&& forall|cf: Cf, key: Seq<u8>| #[trigger]
            self.rows.contains_key((cf, key)) ==> self.rows[(cf, key)] == row(db, cf, key)
        &&& forall|cf: Cf, prefix: Seq<u8>| #[trigger]
            self.scans.contains_key((cf, prefix)) ==> self.scans[(cf, prefix)] == scan(
                db,
                cf,
                prefix,
            )
    }
}

/// A row whose value is known.
pub struct KnownRow {
    cf: Cf,
    key: Vec<u8>,
    value: Option<Vec<u8>>,
}

/// The rows behind a prefix.
pub struct KnownScan {
    cf: Cf,
    prefix: Vec<u8>,
    rows: Vec<(Vec<u8>, Vec<u8>)>,
}

pub open spec fn maybe_vec(value: Option<Vec<u8>>) -> Option<Seq<u8>> {
    match value {
        Some(b) => Some(b@),
        None => None,
    }
}

/// The content of rows.
pub open spec fn rows_view(rows: Seq<(Vec<u8>, Vec<u8>)>) -> Seq<(Seq<u8>, Seq<u8>)> {
    rows.map_values(|r: (Vec<u8>, Vec<u8>)| (r.0@, r.1@))
}

/// The newest value of a row among `rows`.
spec fn newest_row(rows: Seq<KnownRow>, cf: Cf, key: Seq<u8>) -> Option<Option<Seq<u8>>>
    decreases rows.len(),
{
    if rows.len() == 0 {
        None
    } else if rows.last().cf == cf && rows.last().key@ == key {
        Some(maybe_vec(rows.last().value))
    } else {
        newest_row(rows.drop_last(), cf, key)
    }
}

/// The newest rows behind a prefix among `scans`.
spec fn newest_scan(scans: Seq<KnownScan>, cf: Cf, prefix: Seq<u8>) -> Option<
    Seq<(Seq<u8>, Seq<u8>)>,
>
    decreases scans.len(),
{
    if scans.len() == 0 {
        None
    } else if scans.last().cf == cf && scans.last().prefix@ == prefix {
        Some(rows_view(scans.last().rows@))
    } else {
        newest_scan(scans.drop_last(), cf, prefix)
    }
}

/// A number by which the rows are spread over buckets.
spec fn digest(key: Seq<u8>) -> u64
    decreases key.len(),
{
    if key.len() == 0 {
        7
    } else {
        ((digest(key.drop_last()) as int * 31 + key.last() as int) % 0x1_0000_0000) as u64
    }
}

fn digest_of(key: &[u8]) -> (r: u64)
    ensures
        r == digest(key@),
{
    let mut d: u64 = 7;
    let mut i: usize = 0;
    assert(key@.take(0) =~= Seq::<u8>::empty());
    while i < key.len()
        invariant
            i <= key.len(),
            d == digest(key@.take(i as int)),
            d < 0x1_0000_0000,
        decreases key.len() - i,
    {
        assert(key@.take(i + 1).drop_last() =~= key@.take(i as int));
        d = (d * 31 + key[i] as u64) % 0x1_0000_0000;
        i += 1;
    }
    assert(key@.take(i as int) =~= key@);
    d
}

/// What is known of the database.
pub struct Known {
    buckets: HashMap<u64, Vec<KnownRow>>,
    scans: Vec<KnownScan>,
}

impl Known {
    closed spec fn find(&self, cf: Cf, key: Seq<u8>) -> Option<Option<Seq<u8>>> {
        if self.buckets@.contains_key(digest(key)) {
            newest_row(self.buckets@[digest(key)]@, cf, key)
        } else {
            None
        }
    }
}

impl View for Known {
    type V = Facts;

    closed spec fn view(&self) -> Facts {
        Facts {
            rows: Map::new(
                |k: (Cf, Seq<u8>)| self.find(k.0, k.1) is Some,
                |k: (Cf, Seq<u8>)| self.find(k.0, k.1).unwrap(),
            ),
            scans: Map::new(
                |k: (Cf, Seq<u8>)| newest_scan(self.scans@, k.0, k.1) is Some,
                |k: (Cf, Seq<u8>)| newest_scan(self.scans@, k.0, k.1).unwrap(),
            ),
        }
    }
}

impl Known {
    /// Nothing is known.
    pub fn new() -> (r: Self)
        ensures
            r@ == (Facts { rows: Map::empty(), scans: Map::empty() }),
    {
        broadcast use vstd::std_specs::hash::group_hash_axioms;

        let r = Known { buckets: HashMap::new(), scans: Vec::new() };
        assert(r@.rows =~= Map::empty());
        assert(r@.scans =~= Map::empty());
        r
    }

    /// The value of a row is now known.
    pub fn learn_row(&mut self, cf: Cf, key: Vec<u8>, value: Option<Vec<u8>>)
        ensures
            final(self)@ == (Facts {
                rows: old(self)@.rows.insert((cf, key@), maybe_vec(value)),
                scans: old(self)@.scans,
            }),
    {
        broadcast use vstd::std_specs::hash::group_hash_axioms;

        let d: u64 = digest_of(key.as_slice());
        let ghost k = key@;
        let ghost v = maybe_vec(value);
        let mut bucket: Vec<KnownRow> = match self.buckets.remove(&d) {
            Some(bucket) => bucket,
            None => Vec::new(),
        };
        let ghost old_bucket = bucket@;
        bucket.push(KnownRow { cf, key, value });
        assert(bucket@.drop_last() =~= old_bucket);
        let ghost new_bucket = bucket@;
        self.buckets.insert(d, bucket);
        proof {
            assert forall|c: Cf, q: Seq<u8>| self.find(c, q) == (if c == cf && q == k {
                Some(v)
            } else {
                old(self).find(c, q)
            }) by {
                if digest(q) == d {
                    assert(self.find(c, q) == newest_row(new_bucket, c, q));
                    assert(old(self).find(c, q) == newest_row(old_bucket, c, q));
                } else {
                    assert(q != k);
                    assert(self.buckets@.contains_key(digest(q)) == old(self).buckets@.contains_key(
                        digest(q),
                    ));
                }
            }
            assert(self@.rows =~= old(self)@.rows.insert((cf, k), v));
            assert(self@.scans =~= old(self)@.scans);
        }
    }

    /// The rows behind a prefix are now known.
    pub fn learn_rows(&mut self, cf: Cf, prefix: Vec<u8>, rows: Vec<(Vec<u8>, Vec<u8>)>)
        ensures
            final(self)@ == (Facts {
                rows: old(self)@.rows,
                scans: old(self)@.scans.insert((cf, prefix@), rows_view(rows@)),
            }),
    {
        let ghost p = prefix@;
        let ghost v = rows_view(rows@);
        let ghost old_scans = self.scans@;
        self.scans.push(KnownScan { cf, prefix, rows });
        proof {
            assert(self.scans@.drop_last() =~= old_scans);
            assert(self@.rows =~= old(self)@.rows);
            assert(self@.scans =~= old(self)@.scans.insert((cf, p), v));
        }
    }

    /// The value of a row, if it is known.
    pub fn row(&self, cf: Cf, key: &[u8]) -> (r: Option<Option<&Vec<u8>>>)
        ensures
            match r {
                Some(Some(b)) => self@.rows.contains_key((cf, key@)) && self@.rows[(cf, key@)]
                    == Some(b@),
                Some(None) => self@.rows.contains_key((cf, key@)) && self@.rows[(cf, key@)] is None,
                None => !self@.rows.contains_key((cf, key@)),
            },
    {
        broadcast use vstd::std_specs::hash::group_hash_axioms;

        let d: u64 = digest_of(key);
        match self.buckets.get(&d) {
            Some(bucket) => {
                let mut i: usize = bucket.len();
                assert(bucket@.take(i as int) =~= bucket@);
                while i > 0
                    invariant
                        i <= bucket.len(),
                        self.find(cf, key@) == newest_row(bucket@.take(i as int), cf, key@),
                    decreases i,
                {
                    i -= 1;
                    assert(bucket@.take(i + 1).drop_last() =~= bucket@.take(i as int));
                    if bucket[i].cf == cf && same_bytes(bucket[i].key.as_slice(), key) {
                        return match &bucket[i].value {
                            Some(b) => Some(Some(b)),
                            None => Some(None),
                        };
                    }
                }
                None
            },
            None => None,
        }
    }

    /// The rows behind a prefix, if they are known.
    pub fn rows(&self, cf: Cf, prefix: &[u8]) -> (r: Option<&Vec<(Vec<u8>, Vec<u8>)>>)
        ensures
            match r {
                Some(rows) => self@.scans.contains_key((cf, prefix@)) && self@.scans[(cf, prefix@)]
                    == rows_view(rows@),
                None => !self@.scans.contains_key((cf, prefix@)),
            },
    {
        let mut i: usize = self.scans.len();
        assert(self.scans@.take(i as int) =~= self.scans@);
        while i > 0
            invariant
                i <= self.scans.len(),
                newest_scan(self.scans@, cf, prefix@) == newest_scan(
                    self.scans@.take(i as int),
                    cf,
                    prefix@,
                ),
            decreases i,
        {
            i -= 1;
            assert(self.scans@.take(i + 1).drop_last() =~= self.scans@.take(i as int));
            if self.scans[i].cf == cf && same_bytes(self.scans[i].prefix.as_slice(), prefix) {
                return Some(&self.scans[i].rows);
            }
        }
        None
    }
}

/// Those of some rows that are not known.
pub fn missing_rows(known: &Known, cf: Cf, keys: &Vec<Vec<u8>>) -> (r: Vec<Read>)
    ensures
        forall|i: int|
            0 <= i < r.len() ==> !known@.has((#[trigger] r[i])@) && exists|j: int|
                0 <= j < keys.len() && r[i]@ == (Ask::Row { cf, key: (#[trigger] keys[j])@ }),
        r.len() == 0 ==> forall|j: int|
            0 <= j < keys.len() ==> known@.rows.contains_key((cf, (#[trigger] keys[j])@)),
{
    let mut r: Vec<Read> = Vec::new();
    let mut n: usize = 0;
    while n < keys.len()
        invariant
            n <= keys.len(),
            forall|i: int|
                0 <= i < r.len() ==> !known@.has((#[trigger] r[i])@) && exists|j: int|
                    0 <= j < keys.len() && r[i]@ == (Ask::Row { cf, key: (#[trigger] keys[j])@ }),
            r.len() == 0 ==> forall|j: int|
                0 <= j < n ==> known@.rows.contains_key((cf, (#[trigger] keys[j])@)),
        decreases keys.len() - n,
    {
        if known.row(cf, keys[n].as_slice()).is_none() {
            let read = Read::Row { cf, key: copy_bytes(keys[n].as_slice()) };
            assert(read@ == (Ask::Row { cf, key: keys[n as int]@ }));
            r.push(read);
        }
        n += 1;
    }
    r
}

}
