//! Merging linkers, and taking them out.
use crate::error::Error;
use crate::linkers::{
    alive, extended, is_last_place, merged, row_linkers, tombstone, unlinked, within,
};
use crate::records::{Linker, Stored, TargetLinkers};
use crate::wire::items_fit;
use vstd::prelude::*;

verus! {

/// Operands can be put together one after the other.
proof fn lemma_extended_concat(linkers: Seq<Linker>, a: Seq<Seq<u8>>, b: Seq<Seq<u8>>, seq: u64)
    ensures
        extended(linkers, a + b, seq) == match extended(linkers, a, seq) {
            Ok(front) => extended(front, b, seq),
            Err(e) => Err(e),
        },
    decreases b.len(),
{
    if b.len() == 0 {
        assert(a + b =~= a);
    } else {
        assert((a + b).drop_last() =~= a + b.drop_last());
        assert((a + b).last() == b.last());
        lemma_extended_concat(linkers, a, b.drop_last(), seq);
    }
}

/// What operands put behind linkers does not depend on the linkers.
proof fn lemma_extended_front(linkers: Seq<Linker>, operands: Seq<Seq<u8>>, seq: u64)
    ensures
        extended(linkers, operands, seq) == match extended(Seq::empty(), operands, seq) {
            Ok(new) => Ok::<Seq<Linker>, Error>(linkers + new),
            Err(e) => Err(e),
        },
    decreases operands.len(),
{
    if operands.len() == 0 {
        assert(linkers + Seq::<Linker>::empty() =~= linkers);
    } else {
        lemma_extended_front(linkers, operands.drop_last(), seq);
        if let Ok(front) = extended(Seq::empty(), operands.drop_last(), seq) {
            if let Some(new) = TargetLinkers::parsed(operands.last()) {
                assert(linkers + (front + new) =~= linkers + front + new);
            }
        }
    }
}

/// Operands that are within the sequence put together linkers that are within it.
proof fn lemma_extended_within(linkers: Seq<Linker>, operands: Seq<Seq<u8>>, seq: u64)
    requires
        within(linkers, seq),
        extended(linkers, operands, seq) is Ok,
    ensures
        within(extended(linkers, operands, seq)->Ok_0, seq),
    decreases operands.len(),
{
    if operands.len() > 0 {
        lemma_extended_within(linkers, operands.drop_last(), seq);
    }
}

/// The linkers that some operands hold, one operand after the other.
pub open spec fn all_linkers(operands: Seq<Seq<u8>>) -> Seq<Linker>
    decreases operands.len(),
{
    if operands.len() == 0 {
        Seq::empty()
    } else {
        all_linkers(operands.drop_last()) + TargetLinkers::parsed(operands.last()).unwrap()
    }
}

/// Whether an operand holds linkers that are within the sequence.
pub open spec fn holds_linkers(operand: Seq<u8>, seq: u64) -> bool {
    TargetLinkers::parsed(operand) matches Some(linkers) && within(linkers, seq)
}

/// Merging puts the linkers of the operands behind those of the row, one operand after the other,
/// and it fails only where the row or an operand cannot be read or holds an account that is above
/// the sequence.
pub proof fn law_merge(existing: Option<Seq<u8>>, operands: Seq<Seq<u8>>, seq: u64)
    ensures
        merged(existing, operands, seq) is Ok <==> {
            &&& row_linkers(existing) matches Some(linkers) && within(linkers, seq)
            &&& forall|i: int| 0 <= i < operands.len() ==> holds_linkers(#[trigger] operands[i], seq)
        },
        merged(existing, operands, seq) is Ok ==> merged(existing, operands, seq) == Ok::<
            Seq<u8>,
            Error,
        >(TargetLinkers::bytes(row_linkers(existing).unwrap() + all_linkers(operands))),
{
    if let Some(linkers) = row_linkers(existing) {
        lemma_extended_all(linkers, operands, seq);
    }
}

proof fn lemma_extended_all(linkers: Seq<Linker>, operands: Seq<Seq<u8>>, seq: u64)
    ensures
        extended(linkers, operands, seq) is Ok <==> forall|i: int|
            0 <= i < operands.len() ==> holds_linkers(#[trigger] operands[i], seq),
        extended(linkers, operands, seq) is Ok ==> extended(linkers, operands, seq) == Ok::<
            Seq<Linker>,
            Error,
        >(linkers + all_linkers(operands)),
    decreases operands.len(),
{
    if operands.len() == 0 {
        assert(linkers + all_linkers(operands) =~= linkers);
    } else {
        let front = operands.drop_last();
        lemma_extended_all(linkers, front, seq);
        assert(operands[operands.len() - 1] == operands.last());
        assert forall|i: int| 0 <= i < front.len() implies #[trigger] front[i] == operands[i] by {}
        if extended(linkers, operands, seq) is Ok {
            assert forall|i: int| 0 <= i < operands.len() implies holds_linkers(
                #[trigger] operands[i],
                seq,
            ) by {
                if i < front.len() {
                    assert(holds_linkers(front[i], seq));
                }
            }
            let new = TargetLinkers::parsed(operands.last()).unwrap();
            assert(linkers + all_linkers(front) + new =~= linkers + (all_linkers(front) + new));
        } else if forall|i: int|
            0 <= i < operands.len() ==> holds_linkers(#[trigger] operands[i], seq) {
            assert forall|i: int| 0 <= i < front.len() implies holds_linkers(
                #[trigger] front[i],
                seq,
            ) by {
                assert(holds_linkers(operands[i], seq));
            }
            assert(holds_linkers(operands[operands.len() - 1], seq));
        }
    }
}

/// What operands put together fits its format where it is not too long.
proof fn lemma_extended_fits(linkers: Seq<Linker>, operands: Seq<Seq<u8>>, seq: u64)
    requires
        items_fit::<(u64, String)>(linkers),
        extended(linkers, operands, seq) is Ok,
    ensures
        items_fit::<(u64, String)>(extended(linkers, operands, seq)->Ok_0),
    decreases operands.len(),
{
    if operands.len() > 0 {
        lemma_extended_fits(linkers, operands.drop_last(), seq);
        TargetLinkers::lemma_parsed_fits(operands.last());
    }
}

/// Merging in two steps is merging in one: a row that has been merged takes more operands as if
/// they had come with the first. (The row in between holds no more linkers than a row can count.)
pub proof fn law_merge_in_steps(
    existing: Option<Seq<u8>>,
    a: Seq<Seq<u8>>,
    b: Seq<Seq<u8>>,
    seq: u64,
)
    requires
        merged(existing, a, seq) is Ok,
        row_linkers(existing).unwrap().len() + all_linkers(a).len() <= u64::MAX,
    ensures
        merged(Some(merged(existing, a, seq)->Ok_0), b, seq) == merged(existing, a + b, seq),
{
    let linkers = row_linkers(existing).unwrap();
    let all = extended(linkers, a, seq)->Ok_0;
    lemma_extended_all(linkers, a, seq);
    if let Some(bytes) = existing {
        TargetLinkers::lemma_parsed_fits(bytes);
    }
    lemma_extended_fits(linkers, a, seq);
    TargetLinkers::lemma_parsed_bytes(all);
    lemma_extended_concat(linkers, a, b, seq);
    lemma_extended_within(linkers, a, seq);
}

/// Operands can be merged with each other before they are merged into a row. (They hold together no
/// more linkers than a row can count.)
pub proof fn law_merge_operands_first(
    existing: Option<Seq<u8>>,
    a: Seq<Seq<u8>>,
    b: Seq<Seq<u8>>,
    c: Seq<Seq<u8>>,
    seq: u64,
)
    requires
        merged(None, b, seq) is Ok,
        all_linkers(b).len() <= u64::MAX,
    ensures
        merged(existing, a + seq![merged(None, b, seq)->Ok_0] + c, seq) == merged(
            existing,
            a + b + c,
            seq,
        ),
{
    let new = extended(Seq::empty(), b, seq)->Ok_0;
    let one = seq![TargetLinkers::bytes(new)];
    lemma_extended_all(Seq::empty(), b, seq);
    lemma_extended_fits(Seq::empty(), b, seq);
    TargetLinkers::lemma_parsed_bytes(new);
    lemma_extended_within(Seq::empty(), b, seq);
    if let Some(linkers) = row_linkers(existing) {
        lemma_extended_concat(linkers, a + one, c, seq);
        lemma_extended_concat(linkers, a, one, seq);
        lemma_extended_concat(linkers, a + b, c, seq);
        lemma_extended_concat(linkers, a, b, seq);
        if let Ok(front) = extended(linkers, a, seq) {
            lemma_extended_front(front, b, seq);
            assert(one.drop_last() =~= Seq::empty());
            assert(extended(front, one.drop_last(), seq) == Ok::<Seq<Linker>, Error>(front));
        }
    }
}

/// The sequence only decides whether linkers are accepted, not what becomes of them.
pub proof fn law_merge_sequence(existing: Option<Seq<u8>>, operands: Seq<Seq<u8>>, seq: u64)
    requires
        merged(existing, operands, seq) is Ok,
    ensures
        merged(existing, operands, 0) == merged(existing, operands, seq),
{
    lemma_extended_sequence(row_linkers(existing).unwrap(), operands, seq);
}

proof fn lemma_extended_sequence(linkers: Seq<Linker>, operands: Seq<Seq<u8>>, seq: u64)
    requires
        extended(linkers, operands, seq) is Ok,
    ensures
        extended(linkers, operands, 0) == extended(linkers, operands, seq),
    decreases operands.len(),
{
    if operands.len() > 0 {
        lemma_extended_sequence(linkers, operands.drop_last(), seq);
    }
}

/// How many links there are when one entry comes.
pub proof fn law_alive_push(linkers: Seq<Linker>, e: Linker)
    ensures
        alive(linkers.push(e)) == alive(linkers) + (if e.0 != 0 {
            1nat
        } else {
            0
        }),
{
    reveal(Seq::filter);
    assert(linkers.push(e).drop_last() =~= linkers);
}

/// There are no more links than entries.
pub proof fn law_alive_at_most(linkers: Seq<Linker>)
    ensures
        alive(linkers) <= linkers.len(),
    decreases linkers.len(),
{
    reveal(Seq::filter);
    if linkers.len() > 0 {
        law_alive_at_most(linkers.drop_last());
        assert(linkers.drop_last().push(linkers.last()) =~= linkers);
        law_alive_push(linkers.drop_last(), linkers.last());
    }
}

proof fn lemma_alive_update(linkers: Seq<Linker>, i: int, e: Linker)
    requires
        0 <= i < linkers.len(),
    ensures
        alive(linkers.update(i, e)) + (if linkers[i].0 != 0 {
            1nat
        } else {
            0
        }) == alive(linkers) + (if e.0 != 0 {
            1nat
        } else {
            0
        }),
    decreases linkers.len(),
{
    let front = linkers.drop_last();
    assert(front.push(linkers.last()) =~= linkers);
    law_alive_push(front, linkers.last());
    if i == front.len() {
        assert(front.push(e) =~= linkers.update(i, e));
        law_alive_push(front, e);
    } else {
        lemma_alive_update(front, i, e);
        assert(front.update(i, e).push(linkers.last()) =~= linkers.update(i, e));
        law_alive_push(front.update(i, e), linkers.last());
    }
}

/// There is a last place of what is there.
pub proof fn lemma_last_place(linkers: Seq<Linker>, e: Linker) -> (i: int)
    requires
        linkers.contains(e),
    ensures
        is_last_place(linkers, e, i),
        unlinked(linkers, e) == Some(linkers.update(i, tombstone())),
    decreases linkers.len(),
{
    let i = if linkers.last() == e {
        linkers.len() - 1
    } else {
        let front = linkers.drop_last();
        let j = linkers.index_of(e);
        assert(front[j] == e);
        let i = lemma_last_place(front, e);
        assert(front[i] == e);
        assert forall|k: int| i < k < linkers.len() implies linkers[k] != e by {
            if k < front.len() {
                assert(front[k] != e);
            }
        }
        i
    };
    assert(is_last_place(linkers, e, i));
    let k = choose|k: int| is_last_place(linkers, e, k);
    assert(k == i);
    i
}

/// How often an entry stands among linkers.
pub open spec fn occurrences(linkers: Seq<Linker>, e: Linker) -> nat
    decreases linkers.len(),
{
    if linkers.len() == 0 {
        0
    } else {
        occurrences(linkers.drop_last(), e) + one_if(linkers.last() == e)
    }
}

/// One or none.
pub open spec fn one_if(b: bool) -> nat {
    if b {
        1
    } else {
        0
    }
}

/// How often an entry stands there when another comes.
pub proof fn lemma_occurrences_push(linkers: Seq<Linker>, x: Linker, e: Linker)
    ensures
        occurrences(linkers.push(x), e) == occurrences(linkers, e) + one_if(x == e),
{
    assert(linkers.push(x).drop_last() =~= linkers);
}

/// What is there stands there at least once.
pub proof fn lemma_occurrences_contains(linkers: Seq<Linker>, e: Linker)
    ensures
        linkers.contains(e) <==> occurrences(linkers, e) > 0,
    decreases linkers.len(),
{
    if linkers.len() > 0 {
        let front = linkers.drop_last();
        lemma_occurrences_contains(front, e);
        if front.contains(e) {
            assert(linkers[front.index_of(e)] == e);
        }
        if linkers.last() == e {
            assert(linkers[linkers.len() - 1] == e);
        }
        if linkers.contains(e) && linkers.last() != e {
            assert(front[linkers.index_of(e)] == e);
        }
    }
}

proof fn lemma_occurrences_update(linkers: Seq<Linker>, i: int, x: Linker, e: Linker)
    requires
        0 <= i < linkers.len(),
    ensures
        occurrences(linkers.update(i, x), e) + one_if(linkers[i] == e) == occurrences(linkers, e)
            + one_if(x == e),
    decreases linkers.len(),
{
    let front = linkers.drop_last();
    assert(front.push(linkers.last()) =~= linkers);
    if i == front.len() {
        assert(front.push(x) =~= linkers.update(i, x));
        lemma_occurrences_push(front, x, e);
    } else {
        lemma_occurrences_update(front, i, x, e);
        assert(front.update(i, x).push(linkers.last()) =~= linkers.update(i, x));
        lemma_occurrences_push(front.update(i, x), linkers.last(), e);
    }
}

/// A link that is taken out leaves an empty entry: one link less, as many entries, and every other
/// entry is still there, in its place.
pub proof fn law_unlinked(linkers: Seq<Linker>, e: Linker)
    requires
        linkers.contains(e),
        e.0 != 0,
    ensures
        unlinked(linkers, e) is Some,
        ({
            let rest = unlinked(linkers, e).unwrap();
            &&& rest.len() == linkers.len()
            &&& alive(rest) == alive(linkers) - 1
            &&& forall|i: int|
                0 <= i < linkers.len() && linkers[i] != e ==> #[trigger] rest[i] == linkers[i]
            &&& forall|other: Linker|
                other != e && #[trigger] linkers.contains(other) ==> rest.contains(other)
            &&& forall|i: int|
                0 <= i < rest.len() ==> (#[trigger] rest[i] == linkers[i] || (linkers[i] == e
                    && rest[i] == tombstone()))
            &&& occurrences(rest, e) == occurrences(linkers, e) - 1
            &&& forall|other: Linker|
                other != e && other != tombstone() ==> #[trigger] occurrences(rest, other)
                    == occurrences(linkers, other)
        }),
{
    let i = lemma_last_place(linkers, e);
    let rest = linkers.update(i, tombstone());
    lemma_alive_update(linkers, i, tombstone());
    lemma_occurrences_update(linkers, i, tombstone(), e);
    assert forall|other: Linker| other != e && other
        != tombstone() implies #[trigger] occurrences(rest, other) == occurrences(
        linkers,
        other,
    ) by {
        lemma_occurrences_update(linkers, i, tombstone(), other);
    }
    assert forall|other: Linker|
        other != e && #[trigger] linkers.contains(other) implies rest.contains(other) by {
        let j = linkers.index_of(other);
        assert(rest[j] == other);
    }
}

/// A link that came last and is taken out again leaves the others as they were.
pub proof fn law_push_unlinked(linkers: Seq<Linker>, e: Linker)
    ensures
        unlinked(linkers.push(e), e) == Some(linkers.push(tombstone())),
{
    assert(linkers.push(e)[linkers.len() as int] == e);
    let i = lemma_last_place(linkers.push(e), e);
    assert(i == linkers.len());
    assert(linkers.push(e).update(i, tombstone()) =~= linkers.push(tombstone()));
}

/// Linkers when an entry has been taken out `n` times.
pub open spec fn taken_out(linkers: Seq<Linker>, e: Linker, n: nat) -> Seq<Linker>
    decreases n,
{
    if n == 0 {
        linkers
    } else {
        unlinked(taken_out(linkers, e, (n - 1) as nat), e).unwrap()
    }
}

/// A link can be taken out exactly as often as it stands there. Each time there is one link less
/// and one empty entry more, and the other entries are as they were, in their places.
pub proof fn law_taken_out(linkers: Seq<Linker>, e: Linker, n: nat)
    requires
        e.0 != 0,
        n <= occurrences(linkers, e),
    ensures
        ({
            let rest = taken_out(linkers, e, n);
            &&& unlinked(rest, e) is Some <==> n < occurrences(linkers, e)
            &&& rest.len() == linkers.len()
            &&& alive(rest) == alive(linkers) - n
            &&& occurrences(rest, e) == occurrences(linkers, e) - n
            &&& forall|other: Linker|
                other != e && other != tombstone() ==> #[trigger] occurrences(rest, other)
                    == occurrences(linkers, other)
            &&& forall|i: int|
                0 <= i < linkers.len() ==> (#[trigger] rest[i] == linkers[i] || (linkers[i] == e
                    && rest[i] == tombstone()))
        }),
    decreases n,
{
    let rest = taken_out(linkers, e, n);
    if n > 0 {
        let m = (n - 1) as nat;
        law_taken_out(linkers, e, m);
        let before = taken_out(linkers, e, m);
        lemma_occurrences_contains(before, e);
        law_unlinked(before, e);
        assert forall|i: int| 0 <= i < linkers.len() implies (#[trigger] rest[i] == linkers[i] || (
        linkers[i] == e && rest[i] == tombstone())) by {
            assert(rest[i] == before[i] || (before[i] == e && rest[i] == tombstone()));
        }
        assert forall|other: Linker| other != e && other
            != tombstone() implies #[trigger] occurrences(rest, other) == occurrences(
            linkers,
            other,
        ) by {
            assert(occurrences(rest, other) == occurrences(before, other));
        }
    }
    lemma_occurrences_contains(rest, e);
}

}
