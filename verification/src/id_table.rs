//! Tables that give out numbers for values.
use crate::bytes::{from_le_bytes, le_bytes, maybe, to_be_bytes, to_le_bytes};
use crate::db::{Batch, Cf, Op};
use crate::error::Error;
use crate::known::{ask_row, asks, Ask, Halt, Known};
use crate::records::{
    AsRocksKey, AsRocksValue, DidId, DidIdValue, KeyFromRocks, Stored, TargetId, ValueFromRocks,
    _kr, _rk, _rv, _vr,
};
use crate::wire::{be_bytes, be_value};
use std::marker::PhantomData;
use vstd::prelude::*;
use vstd::utf8::encode_utf8;

verus! {

/// What an id table holds of a value: its id, and maybe more.
pub trait IdTableValue: ValueFromRocks + AsRocksValue {
    /// What is held of a value that has just been given the id `v`.
    spec fn spec_new(v: u64) -> Self::V;

    /// The id in what is held.
    spec fn spec_id(v: Self::V) -> u64;

    /// What is held of a new value can be stored, and has the id that was given.
    proof fn lemma_new(v: u64)
        ensures
            Self::fits(Self::spec_new(v)),
            Self::spec_id(Self::spec_new(v)) == v,
    ;

    fn new(v: u64) -> (r: Self)
        ensures
            r@ == Self::spec_new(v),
    ;

    fn id(&self) -> (r: u64)
        ensures
            r == Self::spec_id(self@),
    ;
}

impl IdTableValue for DidIdValue {
    /// A new account is active.
    open spec fn spec_new(v: u64) -> (u64, bool) {
        (v, true)
    }

    open spec fn spec_id(v: (u64, bool)) -> u64 {
        v.0
    }

    proof fn lemma_new(v: u64) {
    }

    fn new(v: u64) -> (r: Self) {
        DidIdValue(DidId(v), true)
    }

    fn id(&self) -> (r: u64) {
        self.0.0
    }
}

impl IdTableValue for TargetId {
    open spec fn spec_new(v: u64) -> u64 {
        v
    }

    open spec fn spec_id(v: u64) -> u64 {
        v
    }

    proof fn lemma_new(v: u64) {
    }

    fn new(v: u64) -> (r: Self) {
        TargetId(v)
    }

    fn id(&self) -> (r: u64) {
        self.0
    }
}

/// The key of the row that holds the newest id that a table has given out.
pub open spec fn seq_key(cf: Cf) -> Seq<u8> {
    encode_utf8("__id_seq_key_plz_be_unique:"@) + encode_utf8(cf.spec_name())
}

/// The sequence with which a table starts, from the row that holds the newest id given out.
pub open spec fn first_seq(stored: Option<Seq<u8>>) -> Result<u64, Error> {
    match stored {
        None => Ok(1),
        Some(b) => if b.len() != 8 {
            Err(Error::SequenceLength)
        } else if be_value(b.reverse()) >= u64::MAX {
            Err(Error::SequenceExhausted)
        } else {
            Ok((be_value(b.reverse()) + 1) as u64)
        },
    }
}

/// The value that a row holds, if the row is there.
pub open spec fn row_value<T: Stored>(row: Option<Seq<u8>>) -> Result<Option<T::V>, Error> {
    match row {
        None => Ok(None),
        Some(b) => match T::parsed(b) {
            Some(v) => Ok(Some(v)),
            None => Err(Error::Codec),
        },
    }
}

/// The content of a value that may not be there.
pub open spec fn maybe_view<T: View>(v: Option<T>) -> Option<T::V> {
    match v {
        Some(v) => Some(v@),
        None => None,
    }
}

/// What comes of asking a table for the id of a value.
pub struct Given<V> {
    /// What the table holds of the value.
    pub value: V,
    /// The sequence of the table behind it.
    pub seq: u64,
    /// The changes to be made.
    pub ops: Seq<Op>,
}

/// The row by which a value is found from its id.
pub open spec fn reverse_op(cf: Cf, id: u64, key: Seq<u8>) -> Op {
    Op::Put { cf, key: be_bytes(id as nat, 8), value: key }
}

/// What comes of asking a table for the id of the value with the key `key`: a value without a
/// row is given the id behind the sequence.
pub open spec fn given<T: IdTableValue>(
    row: Option<Seq<u8>>,
    cf: Cf,
    key: Seq<u8>,
    seq: u64,
    with_reverse: bool,
) -> Result<Given<T::V>, Error> {
    match row_value::<T>(row) {
        Err(e) => Err(e),
        Ok(Some(value)) => Ok(
            Given {
                value,
                seq,
                ops: if with_reverse {
                    seq![reverse_op(cf, T::spec_id(value), key)]
                } else {
                    Seq::empty()
                },
            },
        ),
        Ok(None) => if seq == u64::MAX {
            Err(Error::SequenceExhausted)
        } else {
            let next = (seq + 1) as u64;
            let value = T::spec_new(next);
            let puts = seq![
                Op::Put { cf: Cf::Default, key: seq_key(cf), value: le_bytes(next) },
                Op::Put { cf, key, value: T::bytes(value) },
            ];
            Ok(
                Given {
                    value,
                    seq: next,
                    ops: if with_reverse {
                        puts.push(reverse_op(cf, T::spec_id(value), key))
                    } else {
                        puts
                    },
                },
            )
        },
    }
}

/// An id table that has not seen the database yet.
pub struct IdTableBase<Orig: KeyFromRocks + AsRocksKey, IdVal: IdTableValue> {
    _key_marker: PhantomData<Orig>,
    _val_marker: PhantomData<IdVal>,
    did_init: bool,
    cf: Cf,
    /// The newest id given out, as told to others. Zero before it is known.
    id_seq: u64,
}

impl<Orig: KeyFromRocks + AsRocksKey, IdVal: IdTableValue> IdTableBase<Orig, IdVal> {
    /// The column family of the table.
    pub closed spec fn spec_cf(&self) -> Cf {
        self.cf
    }

    /// Whether the table has seen the database.
    pub closed spec fn ready(&self) -> bool {
        self.did_init
    }

    /// The newest id given out, as told to others.
    pub closed spec fn told(&self) -> u64 {
        self.id_seq
    }

    /// Whether the table has seen the database.
    pub fn did_init(&self) -> (r: bool)
        ensures
            r == self.ready(),
    {
        self.did_init
    }

    /// The column family of the table.
    pub fn cf(&self) -> (r: Cf)
        ensures
            r == self.spec_cf(),
    {
        self.cf
    }

    /// Starts the table. `cf_found` says whether the database has its column family, and
    /// `stored` is the row at `seq_key`.
    pub fn init<const WITH_REVERSE: bool>(self, cf_found: bool, stored: Option<&[u8]>) -> (r: Result<
        IdTable<Orig, IdVal, WITH_REVERSE>,
        Error,
    >)
        ensures
            match r {
                Ok(table) => {
                    &&& cf_found
                    &&& first_seq(maybe(stored)) == Ok::<u64, Error>(table.seq())
                    &&& table.wf()
                    &&& table.spec_cf() == self.spec_cf()
                },
                Err(e) => if cf_found {
                    first_seq(maybe(stored)) == Err::<u64, Error>(e)
                } else {
                    e == Error::NoColumnFamily
                },
            },
    {
        if !cf_found {
            return Err(Error::NoColumnFamily);
        }
        let priv_id_seq: u64 = match stored {
            Some(seq_bytes) => {
                if seq_bytes.len() != 8 {
                    return Err(Error::SequenceLength);
                }
                let last_seq: u64 = from_le_bytes(seq_bytes);
                if last_seq == u64::MAX {
                    return Err(Error::SequenceExhausted);
                }
                last_seq + 1
            },
            None => 1,
        };
        let mut base = self;
        base.id_seq = priv_id_seq;
        base.did_init = true;
        Ok(IdTable { base, priv_id_seq })
    }

    /// The key of the row that holds the newest id that the table has given out.
    pub fn seq_key(&self) -> (r: Vec<u8>)
        ensures
            r@ == seq_key(self.spec_cf()),
    {
        let mut k: Vec<u8> = Vec::new();
        k.extend_from_slice("__id_seq_key_plz_be_unique:".as_bytes());
        k.extend_from_slice(self.cf.name().as_bytes());
        assert(k@ =~= seq_key(self.spec_cf()));
        k
    }
}

impl<Orig: KeyFromRocks + AsRocksKey, IdVal: IdTableValue> Clone for IdTableBase<Orig, IdVal> {
    fn clone(&self) -> (r: Self)
        ensures
            r.spec_cf() == self.spec_cf(),
            r.ready() == self.ready(),
            r.told() == self.told(),
    {
        IdTableBase {
            _key_marker: PhantomData,
            _val_marker: PhantomData,
            did_init: self.did_init,
            cf: self.cf,
            id_seq: self.id_seq,
        }
    }
}

/// A table that gives each value of type `Orig` a number of its own. With `WITH_REVERSE`, the
/// value can be found from the number.
pub struct IdTable<Orig: KeyFromRocks + AsRocksKey, IdVal: IdTableValue, const WITH_REVERSE: bool> {
    base: IdTableBase<Orig, IdVal>,
    priv_id_seq: u64,
}

impl<Orig: KeyFromRocks + AsRocksKey, IdVal: IdTableValue, const WITH_REVERSE: bool> IdTable<
    Orig,
    IdVal,
    WITH_REVERSE,
> {
    /// The newest id given out.
    pub closed spec fn seq(&self) -> u64 {
        self.priv_id_seq
    }

    /// The column family of the table.
    pub closed spec fn spec_cf(&self) -> Cf {
        self.base.spec_cf()
    }

    /// What others were told is what the table itself goes by.
    pub closed spec fn wf(&self) -> bool {
        self.base.ready() && self.base.told() == self.priv_id_seq
    }

    /// A table over a column family.
    #[must_use]
    pub fn setup(cf: Cf) -> (r: IdTableBase<Orig, IdVal>)
        ensures
            r.spec_cf() == cf,
            !r.ready(),
            r.told() == 0,
    {
        IdTableBase {
            _key_marker: PhantomData,
            _val_marker: PhantomData,
            did_init: false,
            cf,
            id_seq: 0,
        }
    }

    /// The newest id given out, to be told to others.
    pub fn id_seq(&self) -> (r: u64)
        requires
            self.wf(),
        ensures
            r == self.seq(),
    {
        self.base.id_seq
    }

    /// What the table holds of a value.
    pub fn get_id_val(&self, known: &Known, orig: &Orig) -> (r: Result<Option<IdVal>, Halt>)
        ensures
            ({
                let at = (self.spec_cf(), Orig::bytes(orig@));
                match r {
                    Ok(v) => {
                        &&& known@.rows.contains_key(at)
                        &&& row_value::<IdVal>(known@.rows[at]) == Ok::<Option<IdVal::V>, Error>(
                            maybe_view(v),
                        )
                    },
                    Err(Halt::Fail(e)) => {
                        &&& known@.rows.contains_key(at)
                        &&& row_value::<IdVal>(known@.rows[at]) == Err::<Option<IdVal::V>, Error>(e)
                    },
                    Err(Halt::Read(reads)) => {
                        &&& !known@.rows.contains_key(at)
                        &&& asks(reads@) == seq![Ask::Row { cf: at.0, key: at.1 }]
                    },
                }
            }),
    {
        let key = _rk(orig);
        match known.row(self.base.cf, key.as_slice()) {
            Some(Some(id_bytes)) => match _vr::<IdVal>(id_bytes.as_slice()) {
                Ok(v) => Ok(Some(v)),
                Err(e) => Err(Halt::Fail(e)),
            },
            Some(None) => Ok(None),
            None => Err(ask_row(self.base.cf, key)),
        }
    }

    /// What the table holds of a value, which is given an id if it has none.
    fn __get_or_create_id_val(&mut self, known: &Known, batch: &mut Batch, orig: &Orig) -> (r: Result<
        IdVal,
        Halt,
    >)
        requires
            old(self).wf(),
        ensures
            final(self).wf(),
            final(self).spec_cf() == old(self).spec_cf(),
            r is Err ==> final(self).seq() == old(self).seq() && final(batch)@ == old(batch)@,
            ({
                let at = (old(self).spec_cf(), Orig::bytes(orig@));
                match r {
                    Ok(v) => {
                        &&& known@.rows.contains_key(at)
                        &&& given::<IdVal>(known@.rows[at], at.0, at.1, old(self).seq(), false) matches Ok(g)
                        &&& g.value == v@
                        &&& g.seq == final(self).seq()
                        &&& final(batch)@ == old(batch)@ + g.ops
                    },
                    Err(Halt::Fail(e)) => {
                        &&& known@.rows.contains_key(at)
                        &&& given::<IdVal>(known@.rows[at], at.0, at.1, old(self).seq(), false) == Err::<
                            Given<IdVal::V>,
                            Error,
                        >(e)
                    },
                    Err(Halt::Read(reads)) => {
                        &&& !known@.rows.contains_key(at)
                        &&& asks(reads@) == seq![Ask::Row { cf: at.0, key: at.1 }]
                    },
                }
            }),
    {
        match self.get_id_val(known, orig) {
            Ok(Some(v)) => {
                assert(batch@ =~= batch@ + Seq::<Op>::empty());
                Ok(v)
            },
            Ok(None) => {
                if self.priv_id_seq == u64::MAX {
                    return Err(Halt::Fail(Error::SequenceExhausted));
                }
                self.priv_id_seq = self.priv_id_seq + 1;
                self.base.id_seq = self.priv_id_seq;
                let id_value = IdVal::new(self.priv_id_seq);
                batch.put_cf(Cf::Default, self.base.seq_key(), to_le_bytes(self.priv_id_seq));
                batch.put_cf(self.base.cf, _rk(orig), _rv(&id_value));
                proof {
                    let at = (self.spec_cf(), Orig::bytes(orig@));
                    let g = given::<IdVal>(known@.rows[at], at.0, at.1, old(self).seq(), false)->Ok_0;
                    assert(batch@ =~= old(batch)@ + g.ops);
                }
                Ok(id_value)
            },
            Err(e) => Err(e),
        }
    }
}

impl<Orig: KeyFromRocks + AsRocksKey, IdVal: IdTableValue, const WITH_REVERSE: bool> Clone for IdTable<
    Orig,
    IdVal,
    WITH_REVERSE,
> {
    fn clone(&self) -> (r: Self)
        ensures
            r.spec_cf() == self.spec_cf(),
            r.seq() == self.seq(),
            r.wf() == self.wf(),
    {
        IdTable { base: self.base.clone(), priv_id_seq: self.priv_id_seq }
    }
}

impl<Orig: KeyFromRocks + AsRocksKey, IdVal: IdTableValue> IdTable<Orig, IdVal, true> {
    /// What the table holds of a value, which is given an id if it has none. The row by which
    /// the value is found from its id is written in any case.
    pub fn get_or_create_id_val(&mut self, known: &Known, batch: &mut Batch, orig: &Orig) -> (r: Result<
        IdVal,
        Halt,
    >)
        requires
            old(self).wf(),
        ensures
            final(self).wf(),
            final(self).spec_cf() == old(self).spec_cf(),
            r is Err ==> final(self).seq() == old(self).seq() && final(batch)@ == old(batch)@,
            ({
                let at = (old(self).spec_cf(), Orig::bytes(orig@));
                match r {
                    Ok(v) => {
                        &&& known@.rows.contains_key(at)
                        &&& given::<IdVal>(known@.rows[at], at.0, at.1, old(self).seq(), true) matches Ok(g)
                        &&& g.value == v@
                        &&& g.seq == final(self).seq()
                        &&& final(batch)@ == old(batch)@ + g.ops
                    },
                    Err(Halt::Fail(e)) => {
                        &&& known@.rows.contains_key(at)
                        &&& given::<IdVal>(known@.rows[at], at.0, at.1, old(self).seq(), true) == Err::<
                            Given<IdVal::V>,
                            Error,
                        >(e)
                    },
                    Err(Halt::Read(reads)) => {
                        &&& !known@.rows.contains_key(at)
                        &&& asks(reads@) == seq![Ask::Row { cf: at.0, key: at.1 }]
                    },
                }
            }),
    {
        match self.__get_or_create_id_val(known, batch, orig) {
            Ok(id_val) => {
                batch.put_cf(self.base.cf, to_be_bytes(id_val.id()), _rk(orig));
                proof {
                    let at = (self.spec_cf(), Orig::bytes(orig@));
                    let g = given::<IdVal>(known@.rows[at], at.0, at.1, old(self).seq(), true)->Ok_0;
                    assert(batch@ =~= old(batch)@ + g.ops);
                }
                Ok(id_val)
            },
            Err(e) => Err(e),
        }
    }

    /// The value that has the id `id`.
    pub fn get_val_from_id(&self, known: &Known, id: u64) -> (r: Result<Option<Orig>, Halt>)
        ensures
            ({
                let at = (self.spec_cf(), be_bytes(id as nat, 8));
                match r {
                    Ok(v) => {
                        &&& known@.rows.contains_key(at)
                        &&& row_value::<Orig>(known@.rows[at]) == Ok::<Option<Orig::V>, Error>(
                            maybe_view(v),
                        )
                    },
                    Err(Halt::Fail(e)) => {
                        &&& known@.rows.contains_key(at)
                        &&& row_value::<Orig>(known@.rows[at]) == Err::<Option<Orig::V>, Error>(e)
                    },
                    Err(Halt::Read(reads)) => {
                        &&& !known@.rows.contains_key(at)
                        &&& asks(reads@) == seq![Ask::Row { cf: at.0, key: at.1 }]
                    },
                }
            }),
    {
        let key = to_be_bytes(id);
        match known.row(self.base.cf, key.as_slice()) {
            Some(Some(orig_bytes)) => match _kr::<Orig>(orig_bytes.as_slice()) {
                Ok(v) => Ok(Some(v)),
                Err(e) => Err(Halt::Fail(e)),
            },
            Some(None) => Ok(None),
            None => Err(ask_row(self.base.cf, key)),
        }
    }
}

impl<Orig: KeyFromRocks + AsRocksKey, IdVal: IdTableValue> IdTable<Orig, IdVal, false> {
    /// What the table holds of a value, which is given an id if it has none.
    pub fn get_or_create_id_val(&mut self, known: &Known, batch: &mut Batch, orig: &Orig) -> (r: Result<
        IdVal,
        Halt,
    >)
        requires
            old(self).wf(),
        ensures
            final(self).wf(),
            final(self).spec_cf() == old(self).spec_cf(),
            r is Err ==> final(self).seq() == old(self).seq() && final(batch)@ == old(batch)@,
            ({
                let at = (old(self).spec_cf(), Orig::bytes(orig@));
                match r {
                    Ok(v) => {
                        &&& known@.rows.contains_key(at)
                        &&& given::<IdVal>(known@.rows[at], at.0, at.1, old(self).seq(), false) matches Ok(g)
                        &&& g.value == v@
                        &&& g.seq == final(self).seq()
                        &&& final(batch)@ == old(batch)@ + g.ops
                    },
                    Err(Halt::Fail(e)) => {
                        &&& known@.rows.contains_key(at)
                        &&& given::<IdVal>(known@.rows[at], at.0, at.1, old(self).seq(), false) == Err::<
                            Given<IdVal::V>,
                            Error,
                        >(e)
                    },
                    Err(Halt::Read(reads)) => {
                        &&& !known@.rows.contains_key(at)
                        &&& asks(reads@) == seq![Ask::Row { cf: at.0, key: at.1 }]
                    },
                }
            }),
    {
        self.__get_or_create_id_val(known, batch, orig)
    }
}

}
