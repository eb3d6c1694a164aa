//! The linkers of a target: counting, removing, merging.
use crate::bytes::{each, maybe};
use crate::error::Error;
use crate::records::{DidId, Linker, RKey, Stored, TargetLinkers, Text, _rv, _vr};
use vstd::prelude::*;

verus! {

/// An entry that a removed link leaves behind.
pub open spec fn tombstone() -> Linker {
    (0, Text::empty())
}

/// How many links are there: the entries that have an account.
pub open spec fn alive(linkers: Seq<Linker>) -> nat {
    linkers.filter(|e: Linker| e.0 != 0).len()
}

/// The last place at which `e` stands.
pub open spec fn is_last_place(linkers: Seq<Linker>, e: Linker, i: int) -> bool {
    &&& 0 <= i < linkers.len()
    &&& linkers[i] == e
    &&& forall|j: int| i < j < linkers.len() ==> linkers[j] != e
}

/// The linkers without the newest link `e`, or none where there is no such link.
pub open spec fn unlinked(linkers: Seq<Linker>, e: Linker) -> Option<Seq<Linker>> {
    if linkers.contains(e) {
        Some(linkers.update(choose|i: int| is_last_place(linkers, e, i), tombstone()))
    } else {
        None
    }
}

/// The linkers that a row holds. A row that is not there holds none.
pub open spec fn row_linkers(row: Option<Seq<u8>>) -> Option<Seq<Linker>> {
    match row {
        Some(bytes) => TargetLinkers::parsed(bytes),
        None => Some(Seq::empty()),
    }
}

/// Whether every account among the linkers is within the sequence. Zero is the sequence before
/// it is known, and then there is nothing to hold the accounts against.
pub open spec fn within(linkers: Seq<Linker>, seq: u64) -> bool {
    seq > 0 ==> forall|i: int| 0 <= i < linkers.len() ==> (#[trigger] linkers[i]).0 <= seq
}

/// `linkers` with the linkers of each operand behind them.
pub open spec fn extended(linkers: Seq<Linker>, operands: Seq<Seq<u8>>, seq: u64) -> Result<
    Seq<Linker>,
    Error,
>
    decreases operands.len(),
{
    if operands.len() == 0 {
        Ok(linkers)
    } else {
        match extended(linkers, operands.drop_last(), seq) {
            Ok(front) => match TargetLinkers::parsed(operands.last()) {
                Some(new) => if within(new, seq) {
                    Ok(front + new)
                } else {
                    Err(Error::NewAboveSequence)
                },
                None => Err(Error::Codec),
            },
            Err(e) => Err(e),
        }
    }
}

/// What a row of linkers becomes when operands are merged into it.
pub open spec fn merged(existing: Option<Seq<u8>>, operands: Seq<Seq<u8>>, seq: u64) -> Result<
    Seq<u8>,
    Error,
> {
    match row_linkers(existing) {
        Some(linkers) => if within(linkers, seq) {
            match extended(linkers, operands, seq) {
                Ok(all) => Ok(TargetLinkers::bytes(all)),
                Err(e) => Err(e),
            }
        } else {
            Err(Error::ExistingAboveSequence)
        },
        None => Err(Error::Codec),
    }
}

proof fn lemma_last_place_unique(linkers: Seq<Linker>, e: Linker, i: int)
    requires
        is_last_place(linkers, e, i),
    ensures
        unlinked(linkers, e) == Some(linkers.update(i, tombstone())),
{
    let k = choose|k: int| is_last_place(linkers, e, k);
    assert(k == i);
}

/// What fails on the first operands fails on all of them.
proof fn lemma_extended_fails(linkers: Seq<Linker>, operands: Seq<Seq<u8>>, n: int, seq: u64)
    requires
        0 <= n <= operands.len(),
        extended(linkers, operands.take(n), seq) is Err,
    ensures
        extended(linkers, operands, seq) == extended(linkers, operands.take(n), seq),
    decreases operands.len(),
{
    if n == operands.len() {
        assert(operands.take(n) =~= operands);
    } else {
        assert(operands.drop_last().take(n) =~= operands.take(n));
        lemma_extended_fails(linkers, operands.drop_last(), n, seq);
    }
}

impl Default for TargetLinkers {
    fn default() -> (r: Self)
        ensures
            r@ == Seq::<Linker>::empty(),
    {
        let r = TargetLinkers(Vec::new());
        assert(r@ =~= Seq::<Linker>::empty());
        r
    }
}

impl TargetLinkers {
    /// Takes the newest link of the record out. Says whether there was one.
    pub fn remove_linker(&mut self, did: &DidId, rkey: &RKey) -> (found: bool)
        ensures
            found == (unlinked(old(self)@, (did@, rkey@)) is Some),
            final(self)@ == unlinked(old(self)@, (did@, rkey@)).unwrap_or(old(self)@),
    {
        let ghost e: Linker = (did@, rkey@);
        let mut i: usize = self.0.len();
        while i > 0
            invariant
                i <= self.0.len(),
                self.0@ == old(self).0@,
                e == (did@, rkey@),
                forall|j: int| i <= j < self@.len() ==> self@[j] != e,
            decreases i,
        {
            i -= 1;
            let same: bool = self.0[i].0.0 == did.0 && self.0[i].1.0 == rkey.0;
            assert(same == (self@[i as int] == e));
            if same {
                proof {
                    assert(is_last_place(self@, e, i as int));
                    lemma_last_place_unique(self@, e, i as int);
                }
                let ghost before = self@;
                self.0.set(i, (DidId::empty(), RKey::empty()));
                assert(self@ =~= before.update(i as int, tombstone()));
                return true;
            }
        }
        assert(!old(self)@.contains(e)) by {
            assert(self@ =~= old(self)@);
        }
        false
    }

    /// How many links there are, and how many are gone.
    pub fn count(&self) -> (r: (u64, u64))
        ensures
            r.0 == alive(self@),
            r.1 == self@.len() - alive(self@),
    {
        let ghost has_account = |e: Linker| e.0 != 0;
        let mut alive_links: u64 = 0;
        let mut i: usize = 0;
        assert(self@.take(0) =~= Seq::<Linker>::empty());
        while i < self.0.len()
            invariant
                i <= self.0.len(),
                has_account == (|e: Linker| e.0 != 0),
                alive_links == self@.take(i as int).filter(has_account).len(),
                alive_links <= i,
            decreases self.0.len() - i,
        {
            proof {
                assert(self@.take(i + 1).drop_last() =~= self@.take(i as int));
                reveal(Seq::filter);
            }
            if self.0[i].0.0 != 0 {
                alive_links += 1;
            }
            i += 1;
        }
        assert(self@.take(i as int) =~= self@);
        let total: u64 = self.0.len() as u64;
        (alive_links, total - alive_links)
    }
}

/// Whether every account among the linkers is within the sequence.
fn all_within(linkers: &TargetLinkers, seq: u64) -> (r: bool)
    ensures
        r == within(linkers@, seq),
{
    if seq == 0 {
        return true;
    }
    let mut i: usize = 0;
    while i < linkers.0.len()
        invariant
            i <= linkers.0.len(),
            seq > 0,
            forall|j: int| 0 <= j < i ==> (#[trigger] linkers@[j]).0 <= seq,
        decreases linkers.0.len() - i,
    {
        if linkers.0[i].0.0 > seq {
            assert(linkers@[i as int].0 > seq);
            return false;
        }
        i += 1;
    }
    true
}

/// Puts more linkers behind those that are there.
fn extend(linkers: &mut TargetLinkers, new: TargetLinkers)
    ensures
        final(linkers)@ == old(linkers)@ + new@,
{
    let ghost before = linkers@;
    let mut rest = new.0;
    linkers.0.append(&mut rest);
    assert(linkers@ =~= before + new@);
}

/// Merges operands into a row of linkers: each operand holds linkers to be put behind those that
/// are there. All of them can be read, and name no account above `current_did_id_seq`, which is the
/// newest id that was given to an account.
pub fn merge_op_extend_did_ids(
    existing: Option<&[u8]>,
    operands: &Vec<Vec<u8>>,
    current_did_id_seq: u64,
) -> (row: Vec<u8>)
    requires
        merged(maybe(existing), each(operands@), current_did_id_seq) is Ok,
    ensures
        merged(maybe(existing), each(operands@), current_did_id_seq) == Ok::<Seq<u8>, Error>(row@),
{
    match try_merge_op_extend_did_ids(existing, operands, current_did_id_seq) {
        Ok(row) => row,
        Err(_) => Vec::new(),
    }
}

/// Merges operands of which nothing is known into a row of linkers. A link of an account above the
/// newest id that was given can only be a mistake, and is refused.
pub fn try_merge_op_extend_did_ids(
    existing: Option<&[u8]>,
    operands: &Vec<Vec<u8>>,
    current_did_id_seq: u64,
) -> (r: Result<Vec<u8>, Error>)
    ensures
        match r {
            Ok(row) => merged(maybe(existing), each(operands@), current_did_id_seq) == Ok::<
                Seq<u8>,
                Error,
            >(row@),
            Err(e) => merged(maybe(existing), each(operands@), current_did_id_seq) == Err::<
                Seq<u8>,
                Error,
            >(e),
        },
{
    let mut tls: TargetLinkers = match existing {
        Some(row) => match _vr::<TargetLinkers>(row) {
            Ok(tls) => tls,
            Err(e) => {
                return Err(e);
            },
        },
        None => TargetLinkers::default(),
    };
    if !all_within(&tls, current_did_id_seq) {
        return Err(Error::ExistingAboveSequence);
    }
    let ghost first = tls@;
    let ghost ops = each(operands@);
    let mut i: usize = 0;
    assert(ops.take(0) =~= Seq::<Seq<u8>>::empty());
    while i < operands.len()
        invariant
            i <= operands.len(),
            ops == each(operands@),
            row_linkers(maybe(existing)) == Some(first),
            within(first, current_did_id_seq),
            extended(first, ops.take(i as int), current_did_id_seq) == Ok::<Seq<Linker>, Error>(
                tls@,
            ),
        decreases operands.len() - i,
    {
        assert(ops.take(i + 1).drop_last() =~= ops.take(i as int));
        match _vr::<TargetLinkers>(operands[i].as_slice()) {
            Ok(new_linkers) => {
                if !all_within(&new_linkers, current_did_id_seq) {
                    proof {
                        lemma_extended_fails(first, ops, i + 1, current_did_id_seq);
                    }
                    return Err(Error::NewAboveSequence);
                }
                extend(&mut tls, new_linkers);
            },
            Err(e) => {
                proof {
                    lemma_extended_fails(first, ops, i + 1, current_did_id_seq);
                }
                return Err(e);
            },
        }
        i += 1;
    }
    assert(ops.take(i as int) =~= ops);
    Ok(_rv(&tls))
}

}
