//! Keys: no two things share one, and a prefix finds what begins with it.
use crate::db::{before, Cf};
use crate::id_table::seq_key;
use crate::model::cursor_key;
use crate::records::{
    Did, RecordLinkKey, RecordLinkKeyDidIdPrefix, Stored, TargetIdTargetPrefix, TargetKey, Text,
};
use crate::wire::{
    be_bound, be_bytes, lemma_be_bounds, lemma_be_bytes_len, lemma_be_value_bytes, uint_bytes, Wire,
};
use vstd::prelude::*;
use vstd::utf8::{encode_utf8, is_ascii_chars, is_ascii_chars_encode_utf8};

verus! {

/// Two values that are not the same do not have the same bytes.
pub proof fn law_bytes_differ<T: Stored>(a: T::V, b: T::V)
    requires
        T::fits(a),
        T::fits(b),
        T::bytes(a) == T::bytes(b),
    ensures
        a == b,
{
    T::lemma_parsed_bytes(a);
    T::lemma_parsed_bytes(b);
}

/// Bytes of a value that are cut short are refused.
pub proof fn law_cut_short<T: Stored>(v: T::V, n: int)
    requires
        T::fits(v),
        0 <= n < T::bytes(v).len(),
    ensures
        T::parsed(T::bytes(v).take(n)) is None,
{
    T::lemma_parsed_whole(v, T::bytes(v).take(n));
}

/// Bytes of a value with more bytes behind them are refused.
pub proof fn law_bytes_behind<T: Stored>(v: T::V, more: Seq<u8>)
    requires
        T::fits(v),
        more.len() > 0,
    ensures
        T::parsed(T::bytes(v) + more) is None,
{
    let bytes = T::bytes(v) + more;
    assert(T::bytes(v) =~= bytes.subrange(0, T::bytes(v).len() as int));
    T::lemma_parsed_whole(v, bytes);
}

/// What a value begins with tells its first part, if both have the format of that part.
proof fn lemma_front<A: Wire>(a: A::V, b: A::V, rest: Seq<u8>)
    requires
        A::fits(a),
        A::fits(b),
        A::bytes(a).is_prefix_of(A::bytes(b) + rest),
    ensures
        a == b,
{
    let whole = A::bytes(b) + rest;
    let behind = whole.skip(A::bytes(a).len() as int);
    assert(whole =~= A::bytes(a) + behind);
    A::lemma_read_bytes(a, behind);
    A::lemma_read_bytes(b, rest);
}

/// The keys that begin with the prefix of an account are those of its records.
pub proof fn law_record_prefix(did_id: u64, key: (u64, Text, Text))
    requires
        RecordLinkKey::fits(key),
    ensures
        RecordLinkKeyDidIdPrefix::bytes(did_id).is_prefix_of(RecordLinkKey::bytes(key)) <==> key.0
            == did_id,
{
    let rest = <String as Wire>::bytes(key.1) + <String as Wire>::bytes(key.2);
    let whole = <u64 as Wire>::bytes(key.0) + rest;
    assert(RecordLinkKey::bytes(key) == whole);
    if <u64 as Wire>::bytes(did_id).is_prefix_of(whole) {
        lemma_front::<u64>(did_id, key.0, rest);
    }
    if key.0 == did_id {
        assert(<u64 as Wire>::bytes(did_id) =~= whole.subrange(
            0,
            <u64 as Wire>::bytes(did_id).len() as int,
        ));
    }
}

/// The keys that begin with the prefix of a target are those of that target.
pub proof fn law_target_prefix(target: Text, key: (Text, Text, Text))
    requires
        TargetIdTargetPrefix::fits(target),
        TargetKey::fits(key),
    ensures
        TargetIdTargetPrefix::bytes(target).is_prefix_of(TargetKey::bytes(key)) <==> key.0
            == target,
{
    let rest = <String as Wire>::bytes(key.1) + <String as Wire>::bytes(key.2);
    let whole = <String as Wire>::bytes(key.0) + rest;
    assert(TargetKey::bytes(key) == whole);
    if <String as Wire>::bytes(target).is_prefix_of(whole) {
        lemma_front::<String>(target, key.0, rest);
    }
    if key.0 == target {
        assert(<String as Wire>::bytes(target) =~= whole.subrange(
            0,
            <String as Wire>::bytes(target).len() as int,
        ));
    }
}

/// The rows of single values do not share a key.
pub proof fn law_single_rows()
    ensures
        seq_key(Cf::DidIds) != seq_key(Cf::TargetIds),
        seq_key(Cf::DidIds) != cursor_key(),
        seq_key(Cf::TargetIds) != cursor_key(),
{
    broadcast use is_ascii_chars_encode_utf8;

    reveal_strlit("__id_seq_key_plz_be_unique:");
    reveal_strlit("did_ids");
    reveal_strlit("target_ids");
    reveal_strlit("jetstream_cursor");
    assert(is_ascii_chars("__id_seq_key_plz_be_unique:"@));
    assert(is_ascii_chars("did_ids"@));
    assert(is_ascii_chars("target_ids"@));
    assert(is_ascii_chars("jetstream_cursor"@));
    assert(seq_key(Cf::DidIds).len() == 34);
    assert(seq_key(Cf::TargetIds).len() == 37);
    assert(cursor_key().len() == 16);
}

/// The ids of accounts that are below this number have keys of their own among the accounts.
pub open spec fn id_limit() -> u64 {
    0x0700_0000_0000_0000
}

/// The first of eight digits is zero where the number is below the limit of the others.
proof fn lemma_first_digit(n: nat)
    requires
        n < id_limit(),
    ensures
        be_bytes(n, 8)[0] < 7,
{
    reveal_with_fuel(be_bytes, 9);
    let n7 = n / 256 / 256 / 256 / 256 / 256 / 256 / 256;
    assert(n7 < 7);
    assert(be_bytes(n, 8)[0] == (n7 % 256) as u8);
}

/// The row by which an account is found from its id is not the row of an account.
pub proof fn law_reverse_rows(id: u64, did: Text)
    requires
        id < id_limit(),
        Did::fits(did),
    ensures
        be_bytes(id as nat, 8) != Did::bytes(did),
{
    lemma_be_bytes_len(id as nat, 8);
    lemma_first_digit(id as nat);
    let n = encode_utf8(did).len();
    let front = <u64 as Wire>::bytes(n as u64);
    assert(Did::bytes(did) == front + encode_utf8(did));
    if n < 251 {
        assert(Did::bytes(did)[0] == n as u8);
    } else if Did::bytes(did).len() == 8 {
        assert(false);
    }
}

/// No two ids share the row by which their accounts are found.
pub proof fn law_reverse_rows_differ(a: u64, b: u64)
    requires
        be_bytes(a as nat, 8) == be_bytes(b as nat, 8),
    ensures
        a == b,
{
    lemma_be_bounds();
    lemma_be_value_bytes(a as nat, 8);
    lemma_be_value_bytes(b as nat, 8);
}

/// Digits are put in order by those in front.
proof fn lemma_before_push(a: Seq<u8>, b: Seq<u8>, x: u8, y: u8)
    requires
        a.len() == b.len(),
        before(a, b) || (a == b && x < y),
    ensures
        before(a.push(x), b.push(y)),
    decreases a.len(),
{
    if a.len() == 0 {
        assert(a.push(x)[0] == x && b.push(y)[0] == y);
    } else {
        assert(a.push(x)[0] == a[0] && b.push(y)[0] == b[0]);
        if a[0] == b[0] {
            assert(a.push(x).skip(1) =~= a.skip(1).push(x));
            assert(b.push(y).skip(1) =~= b.skip(1).push(y));
            lemma_before_push(a.skip(1), b.skip(1), x, y);
        }
    }
}

/// Digits of a fixed width are in the order of the numbers.
pub proof fn law_digits_order(a: nat, b: nat, width: nat)
    requires
        a < b < be_bound(width),
    ensures
        before(be_bytes(a, width), be_bytes(b, width)),
    decreases width,
{
    if width > 0 {
        let w = (width - 1) as nat;
        lemma_be_bytes_len(a / 256, w);
        lemma_be_bytes_len(b / 256, w);
        assert(b / 256 < be_bound(w)) by (nonlinear_arith)
            requires
                b < 256 * be_bound(w),
        ;
        if a / 256 < b / 256 {
            law_digits_order(a / 256, b / 256, w);
        }
        lemma_before_push(
            be_bytes(a / 256, w),
            be_bytes(b / 256, w),
            (a % 256) as u8,
            (b % 256) as u8,
        );
    }
}

/// Bytes that begin alike are in the order of what follows.
proof fn lemma_before_behind(first: u8, a: Seq<u8>, b: Seq<u8>)
    ensures
        before(seq![first] + a, seq![first] + b) == before(a, b),
{
    assert((seq![first] + a).skip(1) =~= a);
    assert((seq![first] + b).skip(1) =~= b);
}

/// The bytes of numbers are in the order of the numbers.
pub proof fn law_numbers_order(a: u64, b: u64)
    requires
        a < b,
    ensures
        before(uint_bytes(a), uint_bytes(b)),
{
    lemma_be_bounds();
    if b < 251 {
        assert(uint_bytes(a)[0] == a as u8 && uint_bytes(b)[0] == b as u8);
    } else if a < 251 {
        assert(uint_bytes(a)[0] == a as u8);
    } else if b < 0x1_0000 {
        law_digits_order(a as nat, b as nat, 2);
        lemma_before_behind(251, be_bytes(a as nat, 2), be_bytes(b as nat, 2));
    } else if 0x1_0000 <= a && b < 0x1_0000_0000 {
        law_digits_order(a as nat, b as nat, 4);
        lemma_before_behind(252, be_bytes(a as nat, 4), be_bytes(b as nat, 4));
    } else if 0x1_0000_0000 <= a {
        law_digits_order(a as nat, b as nat, 8);
        lemma_before_behind(253, be_bytes(a as nat, 8), be_bytes(b as nat, 8));
    }
}

/// Bytes that come before others, and are not what those begin with, come before them whatever
/// stands behind both.
proof fn lemma_before_extended(a: Seq<u8>, b: Seq<u8>, x: Seq<u8>, y: Seq<u8>)
    requires
        before(a, b),
        !a.is_prefix_of(b),
    ensures
        before(a + x, b + y),
    decreases a.len(),
{
    if a.len() == 0 {
        assert(a =~= b.subrange(0, 0));
    } else {
        assert((a + x)[0] == a[0] && (b + y)[0] == b[0]);
        if a[0] == b[0] {
            assert((a + x).skip(1) =~= a.skip(1) + x);
            assert((b + y).skip(1) =~= b.skip(1) + y);
            if a.skip(1).is_prefix_of(b.skip(1)) {
                assert(a =~= b.subrange(0, a.len() as int)) by {
                    assert forall|i: int| 0 <= i < a.len() implies a[i] == b[i] by {
                        if i > 0 {
                            assert(a.skip(1)[i - 1] == b.skip(1)[i - 1]);
                        }
                    }
                }
            }
            lemma_before_extended(a.skip(1), b.skip(1), x, y);
        }
    }
}

/// The records of accounts are in the order of the ids of the accounts.
pub proof fn law_records_order(a: (u64, Text, Text), b: (u64, Text, Text))
    requires
        a.0 < b.0,
    ensures
        before(RecordLinkKey::bytes(a), RecordLinkKey::bytes(b)),
{
    law_numbers_order(a.0, b.0);
    if uint_bytes(a.0).is_prefix_of(uint_bytes(b.0)) {
        assert(uint_bytes(b.0) + Seq::<u8>::empty() =~= uint_bytes(b.0));
        lemma_front::<u64>(a.0, b.0, Seq::empty());
    }
    lemma_before_extended(
        uint_bytes(a.0),
        uint_bytes(b.0),
        <String as Wire>::bytes(a.1) + <String as Wire>::bytes(a.2),
        <String as Wire>::bytes(b.1) + <String as Wire>::bytes(b.2),
    );
}

}
