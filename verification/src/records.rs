//! The records that the tables hold, and the events that change them.
use crate::error::Error;
use crate::wire::{deserialize, parse, serialize, Wire};
use vstd::prelude::*;

verus! {

/// The characters of a string.
pub type Text = Seq<char>;

/// A value that is kept in the database: as a key, or as a value, or as both.
///
/// `self@` is its content in plain form. The tables are keyed by `bytes`, so two values share a
/// row exactly where their bytes are equal.
pub trait Stored: View + Sized {
    /// Whether the lengths inside the value fit the byte format.
    spec fn fits(v: Self::V) -> bool;

    /// The bytes of a value.
    spec fn bytes(v: Self::V) -> Seq<u8>;

    /// The value that some bytes stand for, if there is one.
    spec fn parsed(bytes: Seq<u8>) -> Option<Self::V>;

    /// Parsing gives back what was encoded.
    proof fn lemma_parsed_bytes(v: Self::V)
        requires
            Self::fits(v),
        ensures
            Self::parsed(Self::bytes(v)) == Some(v),
    ;

    /// Bytes that are cut short, or have others behind them, stand for no value.
    proof fn lemma_parsed_whole(v: Self::V, bytes: Seq<u8>)
        requires
            Self::fits(v),
            bytes != Self::bytes(v),
            bytes.is_prefix_of(Self::bytes(v)) || Self::bytes(v).is_prefix_of(bytes),
        ensures
            Self::parsed(bytes) is None,
    ;

    /// What some bytes stand for fits the byte format.
    proof fn lemma_parsed_fits(bytes: Seq<u8>)
        requires
            Self::parsed(bytes) is Some,
        ensures
            Self::fits(Self::parsed(bytes).unwrap()),
    ;

    fn encode(&self) -> (bytes: Vec<u8>)
        ensures
            bytes@ == Self::bytes(self@),
    ;

    fn decode(bytes: &[u8]) -> (r: Result<Self, Error>)
        ensures
            match r {
                Ok(value) => Self::parsed(bytes@) == Some(value@),
                Err(e) => e == Error::Codec && Self::parsed(bytes@) is None,
            },
    ;
}

/// A key of some table.
pub trait AsRocksKey: Stored {

}

/// The front of the keys `K` of some table.
pub trait AsRocksKeyPrefix<K: KeyFromRocks>: Stored {

}

/// A value of some table.
pub trait AsRocksValue: Stored {

}

/// A key that can be read back.
pub trait KeyFromRocks: Stored {

}

/// A value that can be read back.
pub trait ValueFromRocks: Stored {

}

/// The bytes of a key.
pub fn _rk<K: AsRocksKey>(k: &K) -> (bytes: Vec<u8>)
    ensures
        bytes@ == K::bytes(k@),
{
    k.encode()
}

/// The bytes of the front of a key.
pub fn _rkp<K: KeyFromRocks, P: AsRocksKeyPrefix<K>>(kp: &P) -> (bytes: Vec<u8>)
    ensures
        bytes@ == P::bytes(kp@),
{
    kp.encode()
}

/// The bytes of a value.
pub fn _rv<V: AsRocksValue>(v: &V) -> (bytes: Vec<u8>)
    ensures
        bytes@ == V::bytes(v@),
{
    v.encode()
}

/// Reads a key back.
pub fn _kr<T: KeyFromRocks>(bytes: &[u8]) -> (r: Result<T, Error>)
    ensures
        match r {
            Ok(value) => T::parsed(bytes@) == Some(value@),
            Err(e) => e == Error::Codec && T::parsed(bytes@) is None,
        },
{
    T::decode(bytes)
}

/// Reads a value back.
pub fn _vr<T: ValueFromRocks>(bytes: &[u8]) -> (r: Result<T, Error>)
    ensures
        match r {
            Ok(value) => T::parsed(bytes@) == Some(value@),
            Err(e) => e == Error::Codec && T::parsed(bytes@) is None,
        },
{
    T::decode(bytes)
}

/// Encoding is parsed by what reads a whole value, with nothing behind it.
proof fn lemma_parse_bytes<T: Wire>(v: T::V)
    requires
        T::fits(v),
    ensures
        parse::<T>(T::bytes(v)) == Some(v),
{
    T::lemma_read_bytes(v, Seq::empty());
    assert(T::bytes(v) + Seq::<u8>::empty() =~= T::bytes(v));
}

/// Bytes that are cut short, or have others behind them, do not parse.
proof fn lemma_parse_whole<T: Wire>(v: T::V, bytes: Seq<u8>)
    requires
        T::fits(v),
        bytes != T::bytes(v),
        bytes.is_prefix_of(T::bytes(v)) || T::bytes(v).is_prefix_of(bytes),
    ensures
        parse::<T>(bytes) is None,
{
    let whole = T::bytes(v);
    T::lemma_read_bytes(v, Seq::empty());
    assert(whole + Seq::<u8>::empty() =~= whole);
    if whole.is_prefix_of(bytes) {
        let more = bytes.skip(whole.len() as int);
        assert(bytes =~= whole + more);
        T::lemma_read_bytes(v, more);
        if more.len() == 0 {
            assert(bytes =~= whole);
        }
    } else if T::read(bytes) is Some {
        let more = whole.skip(bytes.len() as int);
        assert(whole =~= bytes + more);
        T::lemma_read_more(bytes, more);
        let (_, rest) = T::read(bytes).unwrap();
        assert((rest + more).len() == 0);
        assert(bytes =~= whole);
    }
}

// ---------------------------------------------------------------------------------------------
// accounts

/// The identifier of an account.
#[derive(Debug, PartialEq, Eq)]
pub struct Did(pub String);

impl View for Did {
    type V = Text;

    open spec fn view(&self) -> Text {
        self.0@
    }
}

impl Clone for Did {
    fn clone(&self) -> (r: Self)
        ensures
            r@ == self@,
    {
        Did(self.0.clone())
    }
}

impl Stored for Did {
    open spec fn fits(v: Text) -> bool {
        <String as Wire>::fits(v)
    }

    open spec fn bytes(v: Text) -> Seq<u8> {
        <String as Wire>::bytes(v)
    }

    open spec fn parsed(bytes: Seq<u8>) -> Option<Text> {
        parse::<String>(bytes)
    }

    proof fn lemma_parsed_bytes(v: Text) {
        lemma_parse_bytes::<String>(v);
    }

    proof fn lemma_parsed_whole(v: Text, bytes: Seq<u8>) {
        lemma_parse_whole::<String>(v, bytes);
    }

    proof fn lemma_parsed_fits(bytes: Seq<u8>) {
        <String as Wire>::lemma_read_fits(bytes);
    }

    fn encode(&self) -> (bytes: Vec<u8>) {
        serialize(&self.0).unwrap()
    }

    fn decode(bytes: &[u8]) -> (r: Result<Self, Error>) {
        match deserialize::<String>(bytes) {
            Ok(s) => Ok(Did(s)),
            Err(_) => Err(Error::Codec),
        }
    }
}

impl AsRocksKey for Did {

}

impl KeyFromRocks for Did {

}

/// The number that stands for an account. Zero stands for none.
#[derive(Clone, Copy, Debug, PartialEq, Eq, Structural, Hash)]
pub struct DidId(pub u64);

impl View for DidId {
    type V = u64;

    open spec fn view(&self) -> u64 {
        self.0
    }
}

impl DidId {
    /// The id that stands for no account.
    pub fn empty() -> (r: Self)
        ensures
            r@ == 0,
    {
        DidId(0)
    }

    pub fn is_empty(&self) -> (r: bool)
        ensures
            r == (self@ == 0),
    {
        self.0 == 0
    }
}

impl Stored for DidId {
    open spec fn fits(v: u64) -> bool {
        <u64 as Wire>::fits(v)
    }

    open spec fn bytes(v: u64) -> Seq<u8> {
        <u64 as Wire>::bytes(v)
    }

    open spec fn parsed(bytes: Seq<u8>) -> Option<u64> {
        parse::<u64>(bytes)
    }

    proof fn lemma_parsed_bytes(v: u64) {
        lemma_parse_bytes::<u64>(v);
    }

    proof fn lemma_parsed_whole(v: u64, bytes: Seq<u8>) {
        lemma_parse_whole::<u64>(v, bytes);
    }

    proof fn lemma_parsed_fits(bytes: Seq<u8>) {
        <u64 as Wire>::lemma_read_fits(bytes);
    }

    fn encode(&self) -> (bytes: Vec<u8>) {
        serialize(&self.0).unwrap()
    }

    fn decode(bytes: &[u8]) -> (r: Result<Self, Error>) {
        match deserialize::<u64>(bytes) {
            Ok(n) => Ok(DidId(n)),
            Err(_) => Err(Error::Codec),
        }
    }
}

impl AsRocksKey for DidId {

}

/// What is kept of an account: its id, and whether it is active.
#[derive(Clone, Copy, Debug, PartialEq, Eq, Structural)]
pub struct DidIdValue(pub DidId, pub bool);

impl View for DidIdValue {
    type V = (u64, bool);

    open spec fn view(&self) -> (u64, bool) {
        (self.0@, self.1)
    }
}

impl DidIdValue {
    pub fn did_id(&self) -> (r: DidId)
        ensures
            r@ == self@.0,
    {
        self.0
    }
}

impl Stored for DidIdValue {
    open spec fn fits(v: (u64, bool)) -> bool {
        <(u64, bool) as Wire>::fits(v)
    }

    open spec fn bytes(v: (u64, bool)) -> Seq<u8> {
        <(u64, bool) as Wire>::bytes(v)
    }

    open spec fn parsed(bytes: Seq<u8>) -> Option<(u64, bool)> {
        parse::<(u64, bool)>(bytes)
    }

    proof fn lemma_parsed_bytes(v: (u64, bool)) {
        lemma_parse_bytes::<(u64, bool)>(v);
    }

    proof fn lemma_parsed_whole(v: (u64, bool), bytes: Seq<u8>) {
        lemma_parse_whole::<(u64, bool)>(v, bytes);
    }

    proof fn lemma_parsed_fits(bytes: Seq<u8>) {
        <(u64, bool) as Wire>::lemma_read_fits(bytes);
    }

    fn encode(&self) -> (bytes: Vec<u8>) {
        serialize(&(self.0.0, self.1)).unwrap()
    }

    fn decode(bytes: &[u8]) -> (r: Result<Self, Error>) {
        match deserialize::<(u64, bool)>(bytes) {
            Ok(p) => Ok(DidIdValue(DidId(p.0), p.1)),
            Err(_) => Err(Error::Codec),
        }
    }
}

impl AsRocksValue for DidIdValue {

}

impl ValueFromRocks for DidIdValue {

}

// ---------------------------------------------------------------------------------------------
// parts of records

/// The collection that a record is in.
#[derive(Debug, PartialEq, Eq)]
pub struct Collection(pub String);

impl View for Collection {
    type V = Text;

    open spec fn view(&self) -> Text {
        self.0@
    }
}

impl Clone for Collection {
    fn clone(&self) -> (r: Self)
        ensures
            r@ == self@,
    {
        Collection(self.0.clone())
    }
}

/// Where in a record a link stands.
#[derive(Debug, PartialEq, Eq)]
pub struct RPath(pub String);

impl View for RPath {
    type V = Text;

    open spec fn view(&self) -> Text {
        self.0@
    }
}

impl Clone for RPath {
    fn clone(&self) -> (r: Self)
        ensures
            r@ == self@,
    {
        RPath(self.0.clone())
    }
}

/// The key of a record in its collection.
#[derive(Debug, PartialEq, Eq)]
pub struct RKey(pub String);

impl View for RKey {
    type V = Text;

    open spec fn view(&self) -> Text {
        self.0@
    }
}

impl Clone for RKey {
    fn clone(&self) -> (r: Self)
        ensures
            r@ == self@,
    {
        RKey(self.0.clone())
    }
}

/// What a link points to.
#[derive(Debug, PartialEq, Eq)]
pub struct Target(pub String);

impl View for Target {
    type V = Text;

    open spec fn view(&self) -> Text {
        self.0@
    }
}

impl Clone for Target {
    fn clone(&self) -> (r: Self)
        ensures
            r@ == self@,
    {
        Target(self.0.clone())
    }
}

impl RKey {
    /// The key of no record.
    pub fn empty() -> (r: Self)
        ensures
            r@ == Text::empty(),
    {
        RKey(String::new())
    }
}

// ---------------------------------------------------------------------------------------------
// targets: the reverse index

/// The number that stands for a target as linked from one path of one collection.
#[derive(Clone, Copy, Debug, PartialEq, Eq, Structural)]
pub struct TargetId(pub u64);

impl View for TargetId {
    type V = u64;

    open spec fn view(&self) -> u64 {
        self.0
    }
}

impl Stored for TargetId {
    open spec fn fits(v: u64) -> bool {
        <u64 as Wire>::fits(v)
    }

    open spec fn bytes(v: u64) -> Seq<u8> {
        <u64 as Wire>::bytes(v)
    }

    open spec fn parsed(bytes: Seq<u8>) -> Option<u64> {
        parse::<u64>(bytes)
    }

    proof fn lemma_parsed_bytes(v: u64) {
        lemma_parse_bytes::<u64>(v);
    }

    proof fn lemma_parsed_whole(v: u64, bytes: Seq<u8>) {
        lemma_parse_whole::<u64>(v, bytes);
    }

    proof fn lemma_parsed_fits(bytes: Seq<u8>) {
        <u64 as Wire>::lemma_read_fits(bytes);
    }

    fn encode(&self) -> (bytes: Vec<u8>) {
        serialize(&self.0).unwrap()
    }

    fn decode(bytes: &[u8]) -> (r: Result<Self, Error>) {
        match deserialize::<u64>(bytes) {
            Ok(n) => Ok(TargetId(n)),
            Err(_) => Err(Error::Codec),
        }
    }
}

impl AsRocksKey for TargetId {

}

impl AsRocksValue for TargetId {

}

impl ValueFromRocks for TargetId {

}

/// A target as linked from one path of one collection.
#[derive(Debug, PartialEq, Eq)]
pub struct TargetKey(pub Target, pub Collection, pub RPath);

impl View for TargetKey {
    type V = (Text, Text, Text);

    open spec fn view(&self) -> (Text, Text, Text) {
        (self.0@, self.1@, self.2@)
    }
}

impl Stored for TargetKey {
    open spec fn fits(v: (Text, Text, Text)) -> bool {
        <(String, String, String) as Wire>::fits(v)
    }

    open spec fn bytes(v: (Text, Text, Text)) -> Seq<u8> {
        <(String, String, String) as Wire>::bytes(v)
    }

    open spec fn parsed(bytes: Seq<u8>) -> Option<(Text, Text, Text)> {
        parse::<(String, String, String)>(bytes)
    }

    proof fn lemma_parsed_bytes(v: (Text, Text, Text)) {
        lemma_parse_bytes::<(String, String, String)>(v);
    }

    proof fn lemma_parsed_whole(v: (Text, Text, Text), bytes: Seq<u8>) {
        lemma_parse_whole::<(String, String, String)>(v, bytes);
    }

    proof fn lemma_parsed_fits(bytes: Seq<u8>) {
        <(String, String, String) as Wire>::lemma_read_fits(bytes);
    }

    fn encode(&self) -> (bytes: Vec<u8>) {
        serialize(&(self.0.0.clone(), self.1.0.clone(), self.2.0.clone())).unwrap()
    }

    fn decode(bytes: &[u8]) -> (r: Result<Self, Error>) {
        match deserialize::<(String, String, String)>(bytes) {
            Ok(p) => Ok(TargetKey(Target(p.0), Collection(p.1), RPath(p.2))),
            Err(_) => Err(Error::Codec),
        }
    }
}

impl AsRocksKey for TargetKey {

}

impl KeyFromRocks for TargetKey {

}

/// The front of the keys of one target, whatever the collection and the path.
#[derive(Debug, PartialEq, Eq)]
pub struct TargetIdTargetPrefix(pub Target);

impl View for TargetIdTargetPrefix {
    type V = Text;

    open spec fn view(&self) -> Text {
        self.0@
    }
}

impl Stored for TargetIdTargetPrefix {
    open spec fn fits(v: Text) -> bool {
        <String as Wire>::fits(v)
    }

    open spec fn bytes(v: Text) -> Seq<u8> {
        <String as Wire>::bytes(v)
    }

    open spec fn parsed(bytes: Seq<u8>) -> Option<Text> {
        parse::<String>(bytes)
    }

    proof fn lemma_parsed_bytes(v: Text) {
        lemma_parse_bytes::<String>(v);
    }

    proof fn lemma_parsed_whole(v: Text, bytes: Seq<u8>) {
        lemma_parse_whole::<String>(v, bytes);
    }

    proof fn lemma_parsed_fits(bytes: Seq<u8>) {
        <String as Wire>::lemma_read_fits(bytes);
    }

    fn encode(&self) -> (bytes: Vec<u8>) {
        serialize(&self.0.0).unwrap()
    }

    fn decode(bytes: &[u8]) -> (r: Result<Self, Error>) {
        match deserialize::<String>(bytes) {
            Ok(s) => Ok(TargetIdTargetPrefix(Target(s))),
            Err(_) => Err(Error::Codec),
        }
    }
}

impl AsRocksKeyPrefix<TargetKey> for TargetIdTargetPrefix {

}

/// The records that link to a target, in the order in which the links came. A link that was
/// removed leaves an empty entry behind, so that the others keep their places.
#[derive(Debug, PartialEq, Eq)]
pub struct TargetLinkers(pub Vec<(DidId, RKey)>);

/// One entry of the linkers of a target: an account and the key of its record.
pub type Linker = (u64, Text);

impl View for TargetLinkers {
    type V = Seq<Linker>;

    open spec fn view(&self) -> Seq<Linker> {
        self.0@.map_values(|e: (DidId, RKey)| (e.0@, e.1@))
    }
}

impl Stored for TargetLinkers {
    open spec fn fits(v: Seq<Linker>) -> bool {
        <Vec<(u64, String)> as Wire>::fits(v)
    }

    open spec fn bytes(v: Seq<Linker>) -> Seq<u8> {
        <Vec<(u64, String)> as Wire>::bytes(v)
    }

    open spec fn parsed(bytes: Seq<u8>) -> Option<Seq<Linker>> {
        parse::<Vec<(u64, String)>>(bytes)
    }

    proof fn lemma_parsed_bytes(v: Seq<Linker>) {
        lemma_parse_bytes::<Vec<(u64, String)>>(v);
    }

    proof fn lemma_parsed_whole(v: Seq<Linker>, bytes: Seq<u8>) {
        lemma_parse_whole::<Vec<(u64, String)>>(v, bytes);
    }

    proof fn lemma_parsed_fits(bytes: Seq<u8>) {
        <Vec<(u64, String)> as Wire>::lemma_read_fits(bytes);
    }

    fn encode(&self) -> (bytes: Vec<u8>) {
        let mut plain: Vec<(u64, String)> = Vec::with_capacity(self.0.len());
        for i in 0..self.0.len()
            invariant
                plain.len() == i,
                forall|j: int|
                    0 <= j < i ==> (#[trigger] plain[j]).0 == self@[j].0 && plain[j].1@ == self@[j].1,
        {
            plain.push((self.0[i].0.0, self.0[i].1.0.clone()));
        }
        assert(plain.deep_view() =~= self@);
        serialize(&plain).unwrap()
    }

    fn decode(bytes: &[u8]) -> (r: Result<Self, Error>) {
        match deserialize::<Vec<(u64, String)>>(bytes) {
            Ok(plain) => {
                let mut linkers: Vec<(DidId, RKey)> = Vec::with_capacity(plain.len());
                for i in 0..plain.len()
                    invariant
                        linkers.len() == i,
                        forall|j: int|
                            0 <= j < i ==> (#[trigger] linkers[j]).0@ == plain[j].0 && linkers[j].1@
                                == plain[j].1@,
                {
                    linkers.push((DidId(plain[i].0), RKey(plain[i].1.clone())));
                }
                let r = TargetLinkers(linkers);
                assert(plain.deep_view() =~= r@);
                Ok(r)
            },
            Err(_) => Err(Error::Codec),
        }
    }
}

impl AsRocksValue for TargetLinkers {

}

impl ValueFromRocks for TargetLinkers {

}

// ---------------------------------------------------------------------------------------------
// records: the forward index, which tells what to undo when a record goes

/// A record of an account.
#[derive(Debug, PartialEq, Eq)]
pub struct RecordLinkKey(pub DidId, pub Collection, pub RKey);

impl View for RecordLinkKey {
    type V = (u64, Text, Text);

    open spec fn view(&self) -> (u64, Text, Text) {
        (self.0@, self.1@, self.2@)
    }
}

impl RecordLinkKey {
    pub fn collection(&self) -> (r: Collection)
        ensures
            r@ == self@.1,
    {
        self.1.clone()
    }
}

impl Stored for RecordLinkKey {
    open spec fn fits(v: (u64, Text, Text)) -> bool {
        <(u64, String, String) as Wire>::fits(v)
    }

    open spec fn bytes(v: (u64, Text, Text)) -> Seq<u8> {
        <(u64, String, String) as Wire>::bytes(v)
    }

    open spec fn parsed(bytes: Seq<u8>) -> Option<(u64, Text, Text)> {
        parse::<(u64, String, String)>(bytes)
    }

    proof fn lemma_parsed_bytes(v: (u64, Text, Text)) {
        lemma_parse_bytes::<(u64, String, String)>(v);
    }

    proof fn lemma_parsed_whole(v: (u64, Text, Text), bytes: Seq<u8>) {
        lemma_parse_whole::<(u64, String, String)>(v, bytes);
    }

    proof fn lemma_parsed_fits(bytes: Seq<u8>) {
        <(u64, String, String) as Wire>::lemma_read_fits(bytes);
    }

    fn encode(&self) -> (bytes: Vec<u8>) {
        serialize(&(self.0.0, self.1.0.clone(), self.2.0.clone())).unwrap()
    }

    fn decode(bytes: &[u8]) -> (r: Result<Self, Error>) {
        match deserialize::<(u64, String, String)>(bytes) {
            Ok(p) => Ok(RecordLinkKey(DidId(p.0), Collection(p.1), RKey(p.2))),
            Err(_) => Err(Error::Codec),
        }
    }
}

impl AsRocksKey for RecordLinkKey {

}

impl KeyFromRocks for RecordLinkKey {

}

/// The front of the keys of the records of one account.
#[derive(Clone, Copy, Debug, PartialEq, Eq, Structural)]
pub struct RecordLinkKeyDidIdPrefix(pub DidId);

impl View for RecordLinkKeyDidIdPrefix {
    type V = u64;

    open spec fn view(&self) -> u64 {
        self.0@
    }
}

impl Stored for RecordLinkKeyDidIdPrefix {
    open spec fn fits(v: u64) -> bool {
        <u64 as Wire>::fits(v)
    }

    open spec fn bytes(v: u64) -> Seq<u8> {
        <u64 as Wire>::bytes(v)
    }

    open spec fn parsed(bytes: Seq<u8>) -> Option<u64> {
        parse::<u64>(bytes)
    }

    proof fn lemma_parsed_bytes(v: u64) {
        lemma_parse_bytes::<u64>(v);
    }

    proof fn lemma_parsed_whole(v: u64, bytes: Seq<u8>) {
        lemma_parse_whole::<u64>(v, bytes);
    }

    proof fn lemma_parsed_fits(bytes: Seq<u8>) {
        <u64 as Wire>::lemma_read_fits(bytes);
    }

    fn encode(&self) -> (bytes: Vec<u8>) {
        serialize(&self.0.0).unwrap()
    }

    fn decode(bytes: &[u8]) -> (r: Result<Self, Error>) {
        match deserialize::<u64>(bytes) {
            Ok(n) => Ok(RecordLinkKeyDidIdPrefix(DidId(n))),
            Err(_) => Err(Error::Codec),
        }
    }
}

impl AsRocksKeyPrefix<RecordLinkKey> for RecordLinkKeyDidIdPrefix {

}

/// One link of a record: where it stands in the record, and the id of its target.
#[derive(Debug, PartialEq, Eq)]
pub struct RecordLinkTarget(pub RPath, pub TargetId);

impl View for RecordLinkTarget {
    type V = (Text, u64);

    open spec fn view(&self) -> (Text, u64) {
        (self.0@, self.1@)
    }
}

/// The links of a record.
#[derive(Debug, PartialEq, Eq)]
pub struct RecordLinkTargets(pub Vec<RecordLinkTarget>);

impl View for RecordLinkTargets {
    type V = Seq<(Text, u64)>;

    open spec fn view(&self) -> Seq<(Text, u64)> {
        self.0@.map_values(|t: RecordLinkTarget| t@)
    }
}

impl RecordLinkTargets {
    /// No links, with room for `cap` of them.
    pub fn with_capacity(cap: usize) -> (r: Self)
        ensures
            r@ == Seq::<(Text, u64)>::empty(),
    {
        let r = RecordLinkTargets(Vec::with_capacity(cap));
        assert(r@ =~= Seq::<(Text, u64)>::empty());
        r
    }

    pub fn add(&mut self, target: RecordLinkTarget)
        ensures
            final(self)@ == old(self)@.push(target@),
    {
        self.0.push(target);
        assert(self@ =~= old(self)@.push(target@));
    }
}

impl Stored for RecordLinkTargets {
    open spec fn fits(v: Seq<(Text, u64)>) -> bool {
        <Vec<(String, u64)> as Wire>::fits(v)
    }

    open spec fn bytes(v: Seq<(Text, u64)>) -> Seq<u8> {
        <Vec<(String, u64)> as Wire>::bytes(v)
    }

    open spec fn parsed(bytes: Seq<u8>) -> Option<Seq<(Text, u64)>> {
        parse::<Vec<(String, u64)>>(bytes)
    }

    proof fn lemma_parsed_bytes(v: Seq<(Text, u64)>) {
        lemma_parse_bytes::<Vec<(String, u64)>>(v);
    }

    proof fn lemma_parsed_whole(v: Seq<(Text, u64)>, bytes: Seq<u8>) {
        lemma_parse_whole::<Vec<(String, u64)>>(v, bytes);
    }

    proof fn lemma_parsed_fits(bytes: Seq<u8>) {
        <Vec<(String, u64)> as Wire>::lemma_read_fits(bytes);
    }

    fn encode(&self) -> (bytes: Vec<u8>) {
        let mut plain: Vec<(String, u64)> = Vec::with_capacity(self.0.len());
        for i in 0..self.0.len()
            invariant
                plain.len() == i,
                forall|j: int|
                    0 <= j < i ==> (#[trigger] plain[j]).0@ == self@[j].0 && plain[j].1 == self@[j].1,
        {
            plain.push((self.0[i].0.0.clone(), self.0[i].1.0));
        }
        assert(plain.deep_view() =~= self@);
        serialize(&plain).unwrap()
    }

    fn decode(bytes: &[u8]) -> (r: Result<Self, Error>) {
        match deserialize::<Vec<(String, u64)>>(bytes) {
            Ok(plain) => {
                let mut targets = RecordLinkTargets::with_capacity(plain.len());
                for i in 0..plain.len()
                    invariant
                        targets@.len() == i,
                        forall|j: int|
                            0 <= j < i ==> (#[trigger] targets@[j]).0 == plain[j].0@ && targets@[j].1
                                == plain[j].1,
                {
                    targets.add(RecordLinkTarget(RPath(plain[i].0.clone()), TargetId(plain[i].1)));
                }
                assert(plain.deep_view() =~= targets@);
                Ok(targets)
            },
            Err(_) => Err(Error::Codec),
        }
    }
}

impl AsRocksValue for RecordLinkTargets {

}

impl ValueFromRocks for RecordLinkTargets {

}

impl Stored for u64 {
    open spec fn fits(v: u64) -> bool {
        <u64 as Wire>::fits(v)
    }

    open spec fn bytes(v: u64) -> Seq<u8> {
        <u64 as Wire>::bytes(v)
    }

    open spec fn parsed(bytes: Seq<u8>) -> Option<u64> {
        parse::<u64>(bytes)
    }

    proof fn lemma_parsed_bytes(v: u64) {
        lemma_parse_bytes::<u64>(v);
    }

    proof fn lemma_parsed_whole(v: u64, bytes: Seq<u8>) {
        lemma_parse_whole::<u64>(v, bytes);
    }

    proof fn lemma_parsed_fits(bytes: Seq<u8>) {
        <u64 as Wire>::lemma_read_fits(bytes);
    }

    fn encode(&self) -> (bytes: Vec<u8>) {
        serialize(self).unwrap()
    }

    fn decode(bytes: &[u8]) -> (r: Result<Self, Error>) {
        match deserialize::<u64>(bytes) {
            Ok(n) => Ok(n),
            Err(_) => Err(Error::Codec),
        }
    }
}

impl AsRocksValue for u64 {

}

impl ValueFromRocks for u64 {

}

// ---------------------------------------------------------------------------------------------
// rows without meaning: two bytes, kept under the first of them, with nothing in them

impl Stored for (u8, u8) {
    open spec fn fits(v: (u8, u8)) -> bool {
        <(u8, u8) as Wire>::fits(v)
    }

    open spec fn bytes(v: (u8, u8)) -> Seq<u8> {
        <(u8, u8) as Wire>::bytes(v)
    }

    open spec fn parsed(bytes: Seq<u8>) -> Option<(u8, u8)> {
        parse::<(u8, u8)>(bytes)
    }

    proof fn lemma_parsed_bytes(v: (u8, u8)) {
        lemma_parse_bytes::<(u8, u8)>(v);
    }

    proof fn lemma_parsed_whole(v: (u8, u8), bytes: Seq<u8>) {
        lemma_parse_whole::<(u8, u8)>(v, bytes);
    }

    proof fn lemma_parsed_fits(bytes: Seq<u8>) {
        <(u8, u8) as Wire>::lemma_read_fits(bytes);
    }

    fn encode(&self) -> (bytes: Vec<u8>) {
        serialize(self).unwrap()
    }

    fn decode(bytes: &[u8]) -> (r: Result<Self, Error>) {
        match deserialize::<(u8, u8)>(bytes) {
            Ok(v) => Ok(v),
            Err(_) => Err(Error::Codec),
        }
    }
}

impl AsRocksKey for (u8, u8) {

}

impl KeyFromRocks for (u8, u8) {

}

impl Stored for u8 {
    open spec fn fits(v: u8) -> bool {
        <u8 as Wire>::fits(v)
    }

    open spec fn bytes(v: u8) -> Seq<u8> {
        <u8 as Wire>::bytes(v)
    }

    open spec fn parsed(bytes: Seq<u8>) -> Option<u8> {
        parse::<u8>(bytes)
    }

    proof fn lemma_parsed_bytes(v: u8) {
        lemma_parse_bytes::<u8>(v);
    }

    proof fn lemma_parsed_whole(v: u8, bytes: Seq<u8>) {
        lemma_parse_whole::<u8>(v, bytes);
    }

    proof fn lemma_parsed_fits(bytes: Seq<u8>) {
        <u8 as Wire>::lemma_read_fits(bytes);
    }

    fn encode(&self) -> (bytes: Vec<u8>) {
        serialize(self).unwrap()
    }

    fn decode(bytes: &[u8]) -> (r: Result<Self, Error>) {
        match deserialize::<u8>(bytes) {
            Ok(v) => Ok(v),
            Err(_) => Err(Error::Codec),
        }
    }
}

impl AsRocksKeyPrefix<(u8, u8)> for u8 {

}

impl Stored for () {
    open spec fn fits(v: ()) -> bool {
        <() as Wire>::fits(v)
    }

    open spec fn bytes(v: ()) -> Seq<u8> {
        <() as Wire>::bytes(v)
    }

    open spec fn parsed(bytes: Seq<u8>) -> Option<()> {
        parse::<()>(bytes)
    }

    proof fn lemma_parsed_bytes(v: ()) {
        lemma_parse_bytes::<()>(v);
    }

    proof fn lemma_parsed_whole(v: (), bytes: Seq<u8>) {
        lemma_parse_whole::<()>(v, bytes);
    }

    proof fn lemma_parsed_fits(bytes: Seq<u8>) {
        <() as Wire>::lemma_read_fits(bytes);
    }

    fn encode(&self) -> (bytes: Vec<u8>) {
        serialize(self).unwrap()
    }

    fn decode(bytes: &[u8]) -> (r: Result<Self, Error>) {
        match deserialize::<()>(bytes) {
            Ok(v) => Ok(v),
            Err(_) => Err(Error::Codec),
        }
    }
}

impl AsRocksValue for () {

}

impl ValueFromRocks for () {

}

}
