//! The bytes of everything that is stored, digit by digit.
use crate::bytes::le_bytes;
use crate::records::{
    Did, DidId, DidIdValue, Linker, RecordLinkKey, RecordLinkKeyDidIdPrefix, RecordLinkTargets,
    Stored, TargetId, TargetIdTargetPrefix, TargetKey, TargetLinkers, Text,
};
use crate::wire::{be_bytes, be_value, items_bytes, parse, uint_bytes, Wire};
use vstd::prelude::*;
use vstd::utf8::encode_utf8;

verus! {

/// A number of fixed width is written by its eight digits to the base of 256.
pub proof fn law_fixed_width(n: u64)
    ensures
        be_bytes(n as nat, 8) == seq![
            (n / 0x100_0000_0000_0000) as u8,
            ((n / 0x1_0000_0000_0000) % 0x100) as u8,
            ((n / 0x100_0000_0000) % 0x100) as u8,
            ((n / 0x1_0000_0000) % 0x100) as u8,
            ((n / 0x100_0000) % 0x100) as u8,
            ((n / 0x1_0000) % 0x100) as u8,
            ((n / 0x100) % 0x100) as u8,
            (n % 0x100) as u8,
        ],
        le_bytes(n) == seq![
            (n % 0x100) as u8,
            ((n / 0x100) % 0x100) as u8,
            ((n / 0x1_0000) % 0x100) as u8,
            ((n / 0x100_0000) % 0x100) as u8,
            ((n / 0x1_0000_0000) % 0x100) as u8,
            ((n / 0x100_0000_0000) % 0x100) as u8,
            ((n / 0x1_0000_0000_0000) % 0x100) as u8,
            (n / 0x100_0000_0000_0000) as u8,
        ],
{
    reveal_with_fuel(be_bytes, 9);
    let be = be_bytes(n as nat, 8);
    assert(be =~= seq![
        (n / 0x100_0000_0000_0000) as u8,
        ((n / 0x1_0000_0000_0000) % 0x100) as u8,
        ((n / 0x100_0000_0000) % 0x100) as u8,
        ((n / 0x1_0000_0000) % 0x100) as u8,
        ((n / 0x100_0000) % 0x100) as u8,
        ((n / 0x1_0000) % 0x100) as u8,
        ((n / 0x100) % 0x100) as u8,
        (n % 0x100) as u8,
    ]);
    assert(le_bytes(n) =~= seq![
        (n % 0x100) as u8,
        ((n / 0x100) % 0x100) as u8,
        ((n / 0x1_0000) % 0x100) as u8,
        ((n / 0x100_0000) % 0x100) as u8,
        ((n / 0x1_0000_0000) % 0x100) as u8,
        ((n / 0x100_0000_0000) % 0x100) as u8,
        ((n / 0x1_0000_0000_0000) % 0x100) as u8,
        (n / 0x100_0000_0000_0000) as u8,
    ]);
}

/// A number takes one byte below 251, and otherwise a byte for its width and its digits.
pub proof fn law_number(n: u64)
    ensures
        <u64 as Stored>::bytes(n) == if n < 251 {
            seq![n as u8]
        } else if n < 0x1_0000 {
            seq![251u8, (n / 0x100) as u8, (n % 0x100) as u8]
        } else if n < 0x1_0000_0000 {
            seq![
                252u8,
                (n / 0x100_0000) as u8,
                ((n / 0x1_0000) % 0x100) as u8,
                ((n / 0x100) % 0x100) as u8,
                (n % 0x100) as u8,
            ]
        } else {
            seq![
                253u8,
                (n / 0x100_0000_0000_0000) as u8,
                ((n / 0x1_0000_0000_0000) % 0x100) as u8,
                ((n / 0x100_0000_0000) % 0x100) as u8,
                ((n / 0x1_0000_0000) % 0x100) as u8,
                ((n / 0x100_0000) % 0x100) as u8,
                ((n / 0x1_0000) % 0x100) as u8,
                ((n / 0x100) % 0x100) as u8,
                (n % 0x100) as u8,
            ]
        },
        DidId::bytes(n) == <u64 as Stored>::bytes(n),
        TargetId::bytes(n) == <u64 as Stored>::bytes(n),
        RecordLinkKeyDidIdPrefix::bytes(n) == <u64 as Stored>::bytes(n),
{
    reveal_with_fuel(be_bytes, 9);
    assert(<u64 as Stored>::bytes(n) == uint_bytes(n));
    if n < 251 {
    } else if n < 0x1_0000 {
        assert(uint_bytes(n) =~= seq![251u8, (n / 0x100) as u8, (n % 0x100) as u8]);
    } else if n < 0x1_0000_0000 {
        assert(uint_bytes(n) =~= seq![
            252u8,
            (n / 0x100_0000) as u8,
            ((n / 0x1_0000) % 0x100) as u8,
            ((n / 0x100) % 0x100) as u8,
            (n % 0x100) as u8,
        ]);
    } else {
        law_fixed_width(n);
        assert(uint_bytes(n) =~= seq![
            253u8,
            (n / 0x100_0000_0000_0000) as u8,
            ((n / 0x1_0000_0000_0000) % 0x100) as u8,
            ((n / 0x100_0000_0000) % 0x100) as u8,
            ((n / 0x1_0000_0000) % 0x100) as u8,
            ((n / 0x100_0000) % 0x100) as u8,
            ((n / 0x1_0000) % 0x100) as u8,
            ((n / 0x100) % 0x100) as u8,
            (n % 0x100) as u8,
        ]);
    }
}

/// A text is written as its length in bytes and its characters in UTF-8.
pub proof fn law_text(s: Text)
    ensures
        Did::bytes(s) == <u64 as Stored>::bytes(encode_utf8(s).len() as u64) + encode_utf8(s),
        TargetIdTargetPrefix::bytes(s) == Did::bytes(s),
{
}

/// A key is written as its parts, one behind the other, and so is what is held of an account.
pub proof fn law_parts(a: Text, b: Text, c: Text, n: u64, active: bool)
    ensures
        TargetKey::bytes((a, b, c)) == Did::bytes(a) + Did::bytes(b) + Did::bytes(c),
        RecordLinkKey::bytes((n, b, c)) == <u64 as Stored>::bytes(n) + Did::bytes(b) + Did::bytes(
            c,
        ),
        DidIdValue::bytes((n, active)) == <u64 as Stored>::bytes(n).push(
            if active {
                1u8
            } else {
                0u8
            },
        ),
{
    assert(TargetKey::bytes((a, b, c)) =~= Did::bytes(a) + Did::bytes(b) + Did::bytes(c));
    assert(RecordLinkKey::bytes((n, b, c)) =~= <u64 as Stored>::bytes(n) + Did::bytes(b)
        + Did::bytes(c));
    assert(DidIdValue::bytes((n, active)) =~= <u64 as Stored>::bytes(n).push(
        if active {
            1u8
        } else {
            0u8
        },
    ));
}

/// Bytes are written as they are.
pub proof fn law_plain_bytes(a: u8, b: u8)
    ensures
        <u8 as Stored>::bytes(a) == seq![a],
        <(u8, u8) as Stored>::bytes((a, b)) == seq![a, b],
        <() as Stored>::bytes(()) == Seq::<u8>::empty(),
{
    assert(<(u8, u8) as Stored>::bytes((a, b)) =~= seq![a, b]);
}

/// A list is written as its length and its entries, one behind the other.
pub proof fn law_lists(linkers: Seq<Linker>, targets: Seq<(Text, u64)>)
    ensures
        TargetLinkers::bytes(linkers) == <u64 as Stored>::bytes(linkers.len() as u64)
            + linkers.map_values(
            |e: Linker| <u64 as Stored>::bytes(e.0) + Did::bytes(e.1),
        ).flatten(),
        RecordLinkTargets::bytes(targets) == <u64 as Stored>::bytes(targets.len() as u64)
            + targets.map_values(
            |t: (Text, u64)| Did::bytes(t.0) + <u64 as Stored>::bytes(t.1),
        ).flatten(),
{
    lemma_linkers_flat(linkers);
    lemma_targets_flat(targets);
}

proof fn lemma_linkers_flat(linkers: Seq<Linker>)
    ensures
        items_bytes::<(u64, String)>(linkers) == linkers.map_values(
            |e: Linker| <u64 as Stored>::bytes(e.0) + Did::bytes(e.1),
        ).flatten(),
    decreases linkers.len(),
{
    let f = |e: Linker| <u64 as Stored>::bytes(e.0) + Did::bytes(e.1);
    if linkers.len() > 0 {
        lemma_linkers_flat(linkers.skip(1));
        assert(linkers.map_values(f).drop_first() =~= linkers.skip(1).map_values(f));
    }
}

proof fn lemma_targets_flat(targets: Seq<(Text, u64)>)
    ensures
        items_bytes::<(String, u64)>(targets) == targets.map_values(
            |t: (Text, u64)| Did::bytes(t.0) + <u64 as Stored>::bytes(t.1),
        ).flatten(),
    decreases targets.len(),
{
    let f = |t: (Text, u64)| Did::bytes(t.0) + <u64 as Stored>::bytes(t.1);
    if targets.len() > 0 {
        lemma_targets_flat(targets.skip(1));
        assert(targets.map_values(f).drop_first() =~= targets.skip(1).map_values(f));
    }
}

/// What can be written: everything whose lengths are numbers of 64 bits.
pub proof fn law_fits(
    a: Text,
    b: Text,
    c: Text,
    n: u64,
    active: bool,
    linkers: Seq<Linker>,
    targets: Seq<(Text, u64)>,
)
    ensures
        <u64 as Stored>::fits(n),
        DidId::fits(n),
        TargetId::fits(n),
        RecordLinkKeyDidIdPrefix::fits(n),
        DidIdValue::fits((n, active)),
        Did::fits(a) <==> encode_utf8(a).len() <= u64::MAX,
        TargetIdTargetPrefix::fits(a) <==> encode_utf8(a).len() <= u64::MAX,
        TargetKey::fits((a, b, c)) <==> encode_utf8(a).len() <= u64::MAX && encode_utf8(b).len()
            <= u64::MAX && encode_utf8(c).len() <= u64::MAX,
        RecordLinkKey::fits((n, b, c)) <==> encode_utf8(b).len() <= u64::MAX && encode_utf8(c).len()
            <= u64::MAX,
        TargetLinkers::fits(linkers) <==> linkers.len() <= u64::MAX && forall|i: int|
            0 <= i < linkers.len() ==> encode_utf8((#[trigger] linkers[i]).1).len() <= u64::MAX,
        RecordLinkTargets::fits(targets) <==> targets.len() <= u64::MAX && forall|i: int|
            0 <= i < targets.len() ==> encode_utf8((#[trigger] targets[i]).0).len() <= u64::MAX,
{
    if TargetLinkers::fits(linkers) {
        assert forall|i: int| 0 <= i < linkers.len() implies encode_utf8(
            (#[trigger] linkers[i]).1,
        ).len() <= u64::MAX by {
            assert(<(u64, String) as Wire>::fits(linkers[i]));
        }
    }
    if RecordLinkTargets::fits(targets) {
        assert forall|i: int| 0 <= i < targets.len() implies encode_utf8(
            (#[trigger] targets[i]).0,
        ).len() <= u64::MAX by {
            assert(<(String, u64) as Wire>::fits(targets[i]));
        }
    }
}

/// Bytes stand for what the whole of them is read as.
pub proof fn law_parsed(b: Seq<u8>)
    ensures
        <u64 as Stored>::parsed(b) == parse::<u64>(b),
        DidId::parsed(b) == parse::<u64>(b),
        TargetId::parsed(b) == parse::<u64>(b),
        DidIdValue::parsed(b) == parse::<(u64, bool)>(b),
        Did::parsed(b) == parse::<String>(b),
        TargetKey::parsed(b) == parse::<(String, String, String)>(b),
        RecordLinkKey::parsed(b) == parse::<(u64, String, String)>(b),
        TargetLinkers::parsed(b) == parse::<Vec<(u64, String)>>(b),
        RecordLinkTargets::parsed(b) == parse::<Vec<(String, u64)>>(b),
{
}

/// Eight digits write the number that they stand for.
pub proof fn law_eight_digits(a: u8, b: u8, c: u8, d: u8, e: u8, f: u8, g: u8, h: u8)
    ensures
        be_value(seq![a, b, c, d, e, f, g, h]) == a * 0x100_0000_0000_0000 + b * 0x1_0000_0000_0000
            + c * 0x100_0000_0000 + d * 0x1_0000_0000 + e * 0x100_0000 + f * 0x1_0000 + g * 0x100
            + h,
{
    let s0 = Seq::<u8>::empty();
    assert(be_value(s0) == 0);
    let s1 = s0.push(a);
    assert(s1.drop_last() =~= s0);
    assert(be_value(s1) == be_value(s0) * 256 + a);
    let s2 = s1.push(b);
    assert(s2.drop_last() =~= s1);
    assert(be_value(s2) == be_value(s1) * 256 + b);
    let s3 = s2.push(c);
    assert(s3.drop_last() =~= s2);
    assert(be_value(s3) == be_value(s2) * 256 + c);
    let s4 = s3.push(d);
    assert(s4.drop_last() =~= s3);
    assert(be_value(s4) == be_value(s3) * 256 + d);
    let s5 = s4.push(e);
    assert(s5.drop_last() =~= s4);
    assert(be_value(s5) == be_value(s4) * 256 + e);
    let s6 = s5.push(f);
    assert(s6.drop_last() =~= s5);
    assert(be_value(s6) == be_value(s5) * 256 + f);
    let s7 = s6.push(g);
    assert(s7.drop_last() =~= s6);
    assert(be_value(s7) == be_value(s6) * 256 + g);
    let s8 = s7.push(h);
    assert(s8.drop_last() =~= s7);
    assert(be_value(s8) == be_value(s7) * 256 + h);
    assert(s8 =~= seq![a, b, c, d, e, f, g, h]);
}

}
