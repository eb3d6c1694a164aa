//! The byte format of the rows.
use bincode::Options;
use vstd::prelude::*;
use vstd::utf8::*;

verus! {

/// The last `width` base-256 digits of `n`, most significant first.
pub open spec fn be_bytes(n: nat, width: nat) -> Seq<u8>
    decreases width,
{
    if width == 0 {
        Seq::empty()
    } else {
        be_bytes(n / 256, (width - 1) as nat).push((n % 256) as u8)
    }
}

/// The number that `digits` write in base 256, most significant first.
pub open spec fn be_value(digits: Seq<u8>) -> nat
    decreases digits.len(),
{
    if digits.len() == 0 {
        0
    } else {
        be_value(digits.drop_last()) * 256 + digits.last() as nat
    }
}

/// An unsigned integer: one byte below 251, and otherwise a byte that tells the width (251 for
/// two bytes, 252 for four, 253 for eight) with the big-endian digits behind it.
pub open spec fn uint_bytes(n: u64) -> Seq<u8> {
    if n < 251 {
        seq![n as u8]
    } else if n < 0x1_0000 {
        seq![251u8] + be_bytes(n as nat, 2)
    } else if n < 0x1_0000_0000 {
        seq![252u8] + be_bytes(n as nat, 4)
    } else {
        seq![253u8] + be_bytes(n as nat, 8)
    }
}

/// How many digits stand behind the first byte of an unsigned integer, where that byte is one of
/// those that tell a width.
pub open spec fn uint_width(first: u8) -> nat {
    if first == 251 {
        2
    } else if first == 252 {
        4
    } else {
        8
    }
}

/// Reads an unsigned integer off the front of `bytes` and gives it with the bytes behind it.
/// A width that is larger than need be is accepted.
pub open spec fn read_uint(bytes: Seq<u8>) -> Option<(u64, Seq<u8>)> {
    if bytes.len() == 0 || bytes[0] > 253 {
        None
    } else if bytes[0] < 251 {
        Some((bytes[0] as u64, bytes.skip(1)))
    } else {
        let width = uint_width(bytes[0]) as int;
        if bytes.len() < 1 + width {
            None
        } else {
            Some((be_value(bytes.subrange(1, 1 + width)) as u64, bytes.skip(1 + width)))
        }
    }
}

/// A plain value with a byte format.
pub trait Wire: DeepView + Sized {
    /// Whether the lengths inside the value fit the format, which keeps them as 64-bit numbers.
    spec fn fits(v: Self::V) -> bool;

    /// The bytes of a value.
    spec fn bytes(v: Self::V) -> Seq<u8>;

    /// Reads a value off the front of `bytes` and gives it with the bytes behind it.
    spec fn read(bytes: Seq<u8>) -> Option<(Self::V, Seq<u8>)>;

    /// Reading gives back what was written, whatever stands behind it.
    proof fn lemma_read_bytes(v: Self::V, rest: Seq<u8>)
        requires
            Self::fits(v),
        ensures
            Self::read(Self::bytes(v) + rest) == Some((v, rest)),
    ;

    /// What is read does not depend on what stands behind it.
    proof fn lemma_read_more(bytes: Seq<u8>, more: Seq<u8>)
        requires
            Self::read(bytes) is Some,
        ensures
            Self::read(bytes + more) == Some(
                (Self::read(bytes).unwrap().0, Self::read(bytes).unwrap().1 + more),
            ),
    ;

    /// What is read fits the format.
    proof fn lemma_read_fits(bytes: Seq<u8>)
        requires
            Self::read(bytes) is Some,
        ensures
            Self::fits(Self::read(bytes).unwrap().0),
    ;
}

/// The value that all of `bytes` stands for, if there is one: nothing may be left over.
pub open spec fn parse<T: Wire>(bytes: Seq<u8>) -> Option<T::V> {
    match T::read(bytes) {
        Some((v, rest)) => if rest.len() == 0 {
            Some(v)
        } else {
            None
        },
        None => None,
    }
}

pub proof fn lemma_be_bytes_len(n: nat, width: nat)
    ensures
        be_bytes(n, width).len() == width,
    decreases width,
{
    if width > 0 {
        lemma_be_bytes_len(n / 256, (width - 1) as nat);
    }
}

/// `256^width`.
pub open spec fn be_bound(width: nat) -> nat
    decreases width,
{
    if width == 0 {
        1
    } else {
        256 * be_bound((width - 1) as nat)
    }
}

pub proof fn lemma_be_value_bytes(n: nat, width: nat)
    requires
        n < be_bound(width),
    ensures
        be_value(be_bytes(n, width)) == n,
    decreases width,
{
    if width > 0 {
        let w = (width - 1) as nat;
        assert(n / 256 < be_bound(w)) by (nonlinear_arith)
            requires
                n < 256 * be_bound(w),
        ;
        lemma_be_value_bytes(n / 256, w);
        assert(be_bytes(n, width).drop_last() =~= be_bytes(n / 256, w));
    }
}

pub proof fn lemma_be_bounds()
    ensures
        be_bound(2) == 0x1_0000,
        be_bound(4) == 0x1_0000_0000,
        be_bound(8) == 0x1_0000_0000_0000_0000,
{
    reveal_with_fuel(be_bound, 9);
}

impl Wire for u64 {
    open spec fn fits(v: u64) -> bool {
        true
    }

    open spec fn bytes(v: u64) -> Seq<u8> {
        uint_bytes(v)
    }

    open spec fn read(bytes: Seq<u8>) -> Option<(u64, Seq<u8>)> {
        read_uint(bytes)
    }

    proof fn lemma_read_bytes(v: u64, rest: Seq<u8>) {
        lemma_be_bounds();
        let b = uint_bytes(v) + rest;
        if v < 251 {
            assert(b[0] == v);
            assert(b.skip(1) =~= rest);
        } else {
            let width: nat = if v < 0x1_0000 {
                2
            } else if v < 0x1_0000_0000 {
                4
            } else {
                8
            };
            lemma_be_bytes_len(v as nat, width);
            lemma_be_value_bytes(v as nat, width);
            let mark: u8 = if v < 0x1_0000 {
                251
            } else if v < 0x1_0000_0000 {
                252
            } else {
                253
            };
            assert(b =~= seq![mark] + be_bytes(v as nat, width) + rest);
            assert(b[0] == mark && uint_width(mark) == width);
            assert(b.subrange(1, 1 + width as int) =~= be_bytes(v as nat, width));
            assert(b.skip(1 + width as int) =~= rest);
        }
        assert(read_uint(b) == Some((v, rest)));
        assert(Self::bytes(v) == uint_bytes(v));
        assert(Self::read(b) == read_uint(b));
    }

    proof fn lemma_read_more(bytes: Seq<u8>, more: Seq<u8>) {
        let all = bytes + more;
        assert(all[0] == bytes[0]);
        let width: int = if bytes[0] < 251 {
            0
        } else {
            uint_width(bytes[0]) as int
        };
        assert(all.subrange(1, 1 + width) =~= bytes.subrange(1, 1 + width));
        assert(all.skip(1 + width) =~= bytes.skip(1 + width) + more);
        assert(Self::read(all) == read_uint(all));
        assert(Self::read(bytes) == read_uint(bytes));
    }

    proof fn lemma_read_fits(bytes: Seq<u8>) {
    }
}

impl Wire for u8 {
    open spec fn fits(v: u8) -> bool {
        true
    }

    /// The byte itself.
    open spec fn bytes(v: u8) -> Seq<u8> {
        seq![v]
    }

    open spec fn read(bytes: Seq<u8>) -> Option<(u8, Seq<u8>)> {
        if bytes.len() == 0 {
            None
        } else {
            Some((bytes[0], bytes.skip(1)))
        }
    }

    proof fn lemma_read_bytes(v: u8, rest: Seq<u8>) {
        assert((Self::bytes(v) + rest).skip(1) =~= rest);
    }

    proof fn lemma_read_more(bytes: Seq<u8>, more: Seq<u8>) {
        assert((bytes + more)[0] == bytes[0]);
        assert((bytes + more).skip(1) =~= bytes.skip(1) + more);
    }

    proof fn lemma_read_fits(bytes: Seq<u8>) {
    }
}

impl Wire for () {
    open spec fn fits(v: ()) -> bool {
        true
    }

    open spec fn bytes(v: ()) -> Seq<u8> {
        Seq::empty()
    }

    open spec fn read(bytes: Seq<u8>) -> Option<((), Seq<u8>)> {
        Some(((), bytes))
    }

    proof fn lemma_read_bytes(v: (), rest: Seq<u8>) {
        assert(Self::bytes(v) + rest =~= rest);
    }

    proof fn lemma_read_more(bytes: Seq<u8>, more: Seq<u8>) {
    }

    proof fn lemma_read_fits(bytes: Seq<u8>) {
    }
}

impl Wire for bool {
    open spec fn fits(v: bool) -> bool {
        true
    }

    open spec fn bytes(v: bool) -> Seq<u8> {
        seq![
            if v {
                1u8
            } else {
                0u8
            },
        ]
    }

    open spec fn read(bytes: Seq<u8>) -> Option<(bool, Seq<u8>)> {
        if bytes.len() == 0 || bytes[0] > 1 {
            None
        } else {
            Some((bytes[0] == 1, bytes.skip(1)))
        }
    }

    proof fn lemma_read_bytes(v: bool, rest: Seq<u8>) {
        assert((Self::bytes(v) + rest).skip(1) =~= rest);
    }

    proof fn lemma_read_more(bytes: Seq<u8>, more: Seq<u8>) {
        assert((bytes + more)[0] == bytes[0]);
        assert((bytes + more).skip(1) =~= bytes.skip(1) + more);
    }

    proof fn lemma_read_fits(bytes: Seq<u8>) {
    }
}

impl Wire for String {
    open spec fn fits(v: Seq<char>) -> bool {
        encode_utf8(v).len() <= u64::MAX
    }

    /// The length in bytes, then the characters in UTF-8.
    open spec fn bytes(v: Seq<char>) -> Seq<u8> {
        uint_bytes(encode_utf8(v).len() as u64) + encode_utf8(v)
    }

    open spec fn read(bytes: Seq<u8>) -> Option<(Seq<char>, Seq<u8>)> {
        match read_uint(bytes) {
            Some((n, rest)) => if n <= rest.len() && valid_utf8(rest.take(n as int)) {
                Some((decode_utf8(rest.take(n as int)), rest.skip(n as int)))
            } else {
                None
            },
            None => None,
        }
    }

    proof fn lemma_read_bytes(v: Seq<char>, rest: Seq<u8>) {
        broadcast use {encode_utf8_valid_utf8, encode_utf8_decode_utf8};

        let text = encode_utf8(v);
        let n = text.len() as u64;
        assert(Self::bytes(v) + rest =~= uint_bytes(n) + (text + rest));
        u64::lemma_read_bytes(n, text + rest);
        assert((text + rest).take(n as int) =~= text);
        assert((text + rest).skip(n as int) =~= rest);
    }

    proof fn lemma_read_more(bytes: Seq<u8>, more: Seq<u8>) {
        <u64 as Wire>::lemma_read_more(bytes, more);
        let (n, rest) = read_uint(bytes).unwrap();
        assert((rest + more).take(n as int) =~= rest.take(n as int));
        assert((rest + more).skip(n as int) =~= rest.skip(n as int) + more);
    }

    proof fn lemma_read_fits(bytes: Seq<u8>) {
        let (n, rest) = read_uint(bytes).unwrap();
        decode_utf8_encode_utf8(rest.take(n as int));
    }
}

impl<A: Wire, B: Wire> Wire for (A, B) {
    open spec fn fits(v: (A::V, B::V)) -> bool {
        A::fits(v.0) && B::fits(v.1)
    }

    open spec fn bytes(v: (A::V, B::V)) -> Seq<u8> {
        A::bytes(v.0) + B::bytes(v.1)
    }

    open spec fn read(bytes: Seq<u8>) -> Option<((A::V, B::V), Seq<u8>)> {
        match A::read(bytes) {
            Some((a, rest)) => match B::read(rest) {
                Some((b, rest)) => Some(((a, b), rest)),
                None => None,
            },
            None => None,
        }
    }

    proof fn lemma_read_bytes(v: (A::V, B::V), rest: Seq<u8>) {
        assert(Self::bytes(v) + rest =~= A::bytes(v.0) + (B::bytes(v.1) + rest));
        A::lemma_read_bytes(v.0, B::bytes(v.1) + rest);
        B::lemma_read_bytes(v.1, rest);
    }

    proof fn lemma_read_more(bytes: Seq<u8>, more: Seq<u8>) {
        A::lemma_read_more(bytes, more);
        let (_, rest) = A::read(bytes).unwrap();
        B::lemma_read_more(rest, more);
    }

    proof fn lemma_read_fits(bytes: Seq<u8>) {
        A::lemma_read_fits(bytes);
        let (_, rest) = A::read(bytes).unwrap();
        B::lemma_read_fits(rest);
    }
}

impl<A: Wire, B: Wire, C: Wire> Wire for (A, B, C) {
    open spec fn fits(v: (A::V, B::V, C::V)) -> bool {
        A::fits(v.0) && B::fits(v.1) && C::fits(v.2)
    }

    open spec fn bytes(v: (A::V, B::V, C::V)) -> Seq<u8> {
        A::bytes(v.0) + (B::bytes(v.1) + C::bytes(v.2))
    }

    open spec fn read(bytes: Seq<u8>) -> Option<((A::V, B::V, C::V), Seq<u8>)> {
        match A::read(bytes) {
            Some((a, rest)) => match B::read(rest) {
                Some((b, rest)) => match C::read(rest) {
                    Some((c, rest)) => Some(((a, b, c), rest)),
                    None => None,
                },
                None => None,
            },
            None => None,
        }
    }

    proof fn lemma_read_bytes(v: (A::V, B::V, C::V), rest: Seq<u8>) {
        assert(Self::bytes(v) + rest =~= A::bytes(v.0) + (B::bytes(v.1) + (C::bytes(v.2) + rest)));
        A::lemma_read_bytes(v.0, B::bytes(v.1) + (C::bytes(v.2) + rest));
        B::lemma_read_bytes(v.1, C::bytes(v.2) + rest);
        C::lemma_read_bytes(v.2, rest);
    }

    proof fn lemma_read_more(bytes: Seq<u8>, more: Seq<u8>) {
        A::lemma_read_more(bytes, more);
        let (_, rest) = A::read(bytes).unwrap();
        B::lemma_read_more(rest, more);
        let (_, last) = B::read(rest).unwrap();
        C::lemma_read_more(last, more);
    }

    proof fn lemma_read_fits(bytes: Seq<u8>) {
        A::lemma_read_fits(bytes);
        let (_, rest) = A::read(bytes).unwrap();
        B::lemma_read_fits(rest);
        let (_, last) = B::read(rest).unwrap();
        C::lemma_read_fits(last);
    }
}

/// The bytes of the items of a list, one behind the other.
pub open spec fn items_bytes<A: Wire>(items: Seq<A::V>) -> Seq<u8>
    decreases items.len(),
{
    if items.len() == 0 {
        Seq::empty()
    } else {
        A::bytes(items[0]) + items_bytes::<A>(items.skip(1))
    }
}

/// Reads `n` items off the front of `bytes`.
pub open spec fn read_items<A: Wire>(n: nat, bytes: Seq<u8>) -> Option<(Seq<A::V>, Seq<u8>)>
    decreases n,
{
    if n == 0 {
        Some((Seq::empty(), bytes))
    } else {
        match A::read(bytes) {
            Some((item, rest)) => match read_items::<A>((n - 1) as nat, rest) {
                Some((items, rest)) => Some((seq![item] + items, rest)),
                None => None,
            },
            None => None,
        }
    }
}

pub open spec fn items_fit<A: Wire>(items: Seq<A::V>) -> bool {
    forall|i: int| 0 <= i < items.len() ==> A::fits(#[trigger] items[i])
}

pub proof fn lemma_read_items<A: Wire>(items: Seq<A::V>, rest: Seq<u8>)
    requires
        items_fit::<A>(items),
    ensures
        read_items::<A>(items.len(), items_bytes::<A>(items) + rest) == Some((items, rest)),
    decreases items.len(),
{
    if items.len() == 0 {
        assert(items_bytes::<A>(items) + rest =~= rest);
        assert(items =~= Seq::empty());
    } else {
        let tail = items.skip(1);
        assert(items_bytes::<A>(items) + rest =~= A::bytes(items[0]) + (items_bytes::<A>(tail)
            + rest));
        A::lemma_read_bytes(items[0], items_bytes::<A>(tail) + rest);
        assert forall|i: int| 0 <= i < tail.len() implies A::fits(#[trigger] tail[i]) by {
            assert(tail[i] == items[i + 1]);
        }
        lemma_read_items::<A>(tail, rest);
        assert(seq![items[0]] + tail =~= items);
    }
}

pub proof fn lemma_read_items_more<A: Wire>(n: nat, bytes: Seq<u8>, more: Seq<u8>)
    requires
        read_items::<A>(n, bytes) is Some,
    ensures
        read_items::<A>(n, bytes + more) == Some(
            (
                read_items::<A>(n, bytes).unwrap().0,
                read_items::<A>(n, bytes).unwrap().1 + more,
            ),
        ),
    decreases n,
{
    if n > 0 {
        A::lemma_read_more(bytes, more);
        let (_, rest) = A::read(bytes).unwrap();
        lemma_read_items_more::<A>((n - 1) as nat, rest, more);
    }
}

pub proof fn lemma_read_items_fit<A: Wire>(n: nat, bytes: Seq<u8>)
    requires
        read_items::<A>(n, bytes) is Some,
    ensures
        read_items::<A>(n, bytes).unwrap().0.len() == n,
        items_fit::<A>(read_items::<A>(n, bytes).unwrap().0),
    decreases n,
{
    if n > 0 {
        A::lemma_read_fits(bytes);
        let (item, rest) = A::read(bytes).unwrap();
        lemma_read_items_fit::<A>((n - 1) as nat, rest);
        let items = read_items::<A>((n - 1) as nat, rest).unwrap().0;
        let all = seq![item] + items;
        assert forall|i: int| 0 <= i < all.len() implies A::fits(#[trigger] all[i]) by {
            if i > 0 {
                assert(all[i] == items[i - 1]);
            }
        }
    }
}

/// What a list can hold: a value that takes at least one byte.
pub trait Item: Wire {

}

impl Item for (u64, String) {

}

impl Item for (String, u64) {

}

impl<A: Item> Wire for Vec<A> {
    open spec fn fits(v: Seq<A::V>) -> bool {
        v.len() <= u64::MAX && items_fit::<A>(v)
    }

    /// The number of items, then the items.
    open spec fn bytes(v: Seq<A::V>) -> Seq<u8> {
        uint_bytes(v.len() as u64) + items_bytes::<A>(v)
    }

    open spec fn read(bytes: Seq<u8>) -> Option<(Seq<A::V>, Seq<u8>)> {
        match read_uint(bytes) {
            Some((n, rest)) => read_items::<A>(n as nat, rest),
            None => None,
        }
    }

    proof fn lemma_read_bytes(v: Seq<A::V>, rest: Seq<u8>) {
        assert(Self::bytes(v) + rest =~= uint_bytes(v.len() as u64) + (items_bytes::<A>(v) + rest));
        u64::lemma_read_bytes(v.len() as u64, items_bytes::<A>(v) + rest);
        lemma_read_items::<A>(v, rest);
    }

    proof fn lemma_read_more(bytes: Seq<u8>, more: Seq<u8>) {
        <u64 as Wire>::lemma_read_more(bytes, more);
        let (n, rest) = read_uint(bytes).unwrap();
        lemma_read_items_more::<A>(n as nat, rest, more);
    }

    proof fn lemma_read_fits(bytes: Seq<u8>) {
        let (n, rest) = read_uint(bytes).unwrap();
        lemma_read_items_fit::<A>(n as nat, rest);
    }
}

/// The reason for which `bincode` refuses some bytes.
#[verifier::external_type_specification]
#[verifier::external_body]
pub struct ExErrorKind(bincode::ErrorKind);

/// The bytes of a plain value, by `bincode::Options::serialize` under the default options (integers
/// of variable width, no limit) with big-endian digits. Not proved, but taken from `bincode`: it
/// does not fail on any value that has a byte format here, and what it writes is that format.
#[verifier::external_body]
pub(crate) fn serialize<T: Wire + serde::Serialize>(value: &T) -> (r: Result<Vec<u8>, bincode::Error>)
    ensures
        r is Ok,
        r->Ok_0@ == T::bytes(value.deep_view()),
{
    bincode::DefaultOptions::new().with_big_endian().serialize(value)
}

/// The plain value that bytes stand for, by `bincode::Options::deserialize` under the same options,
/// which refuse bytes that are left over. Not proved, but taken from `bincode`: it gives the value
/// that the whole of the bytes stands for in the byte format, and fails where there is none.
#[verifier::external_body]
pub(crate) fn deserialize<T: Wire + serde::de::DeserializeOwned>(bytes: &[u8]) -> (r: Result<T, bincode::Error>)
    ensures
        r is Ok ==> parse::<T>(bytes@) == Some(r->Ok_0.deep_view()),
        r is Err ==> parse::<T>(bytes@) is None,
{
    bincode::DefaultOptions::new().with_big_endian().deserialize(bytes)
}

}
