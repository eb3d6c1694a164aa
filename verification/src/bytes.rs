//! Small helpers on bytes.
use crate::wire::{be_bytes, be_value, lemma_be_bytes_len};
use vstd::prelude::*;

verus! {

/// The content of bytes that may not be there.
pub open spec fn maybe(bytes: Option<&[u8]>) -> Option<Seq<u8>> {
    match bytes {
        Some(b) => Some(b@),
        None => None,
    }
}

/// The content of each of several runs of bytes.
pub open spec fn each(runs: Seq<Vec<u8>>) -> Seq<Seq<u8>> {
    runs.map_values(|b: Vec<u8>| b@)
}

/// Whether two runs of bytes are the same.
pub fn same_bytes(a: &[u8], b: &[u8]) -> (r: bool)
    ensures
        r == (a@ == b@),
{
    if a.len() != b.len() {
        return false;
    }
    let mut i: usize = 0;
    while i < a.len()
        invariant
            i <= a.len() == b.len(),
            forall|j: int| 0 <= j < i ==> a@[j] == b@[j],
        decreases a.len() - i,
    {
        if a[i] != b[i] {
            return false;
        }
        i += 1;
    }
    assert(a@ =~= b@);
    true
}

/// A copy of some bytes.
pub fn copy_bytes(a: &[u8]) -> (r: Vec<u8>)
    ensures
        r@ == a@,
{
    let mut r: Vec<u8> = Vec::with_capacity(a.len());
    let mut i: usize = 0;
    while i < a.len()
        invariant
            i <= a.len(),
            r@ == a@.take(i as int),
        decreases a.len() - i,
    {
        r.push(a[i]);
        i += 1;
        assert(r@ =~= a@.take(i as int));
    }
    assert(a@.take(i as int) =~= a@);
    r
}

/// The eight bytes of a number, least significant first.
pub open spec fn le_bytes(n: u64) -> Seq<u8> {
    be_bytes(n as nat, 8).reverse()
}

/// The eight bytes of a number, most significant first.
pub fn to_be_bytes(n: u64) -> (r: Vec<u8>)
    ensures
        r@ == be_bytes(n as nat, 8),
{
    let b7: u8 = (n % 256) as u8;
    let n6: u64 = n / 256;
    let b6: u8 = (n6 % 256) as u8;
    let n5: u64 = n6 / 256;
    let b5: u8 = (n5 % 256) as u8;
    let n4: u64 = n5 / 256;
    let b4: u8 = (n4 % 256) as u8;
    let n3: u64 = n4 / 256;
    let b3: u8 = (n3 % 256) as u8;
    let n2: u64 = n3 / 256;
    let b2: u8 = (n2 % 256) as u8;
    let n1: u64 = n2 / 256;
    let b1: u8 = (n1 % 256) as u8;
    let n0: u64 = n1 / 256;
    let b0: u8 = (n0 % 256) as u8;
    let r: Vec<u8> = vec![b0, b1, b2, b3, b4, b5, b6, b7];
    proof {
        reveal_with_fuel(be_bytes, 9);
        assert(r@ =~= be_bytes(n as nat, 8));
    }
    r
}

/// The eight bytes of a number, least significant first.
pub fn to_le_bytes(n: u64) -> (r: Vec<u8>)
    ensures
        r@ == le_bytes(n),
{
    let be = to_be_bytes(n);
    proof {
        lemma_be_bytes_len(n as nat, 8);
    }
    let r: Vec<u8> = vec![be[7], be[6], be[5], be[4], be[3], be[2], be[1], be[0]];
    assert(r@ =~= be@.reverse());
    r
}

/// The number that eight bytes write, least significant first.
pub fn from_le_bytes(b: &[u8]) -> (n: u64)
    requires
        b@.len() == 8,
    ensures
        n == be_value(b@.reverse()),
{
    let n: u128 = (((((((b[7] as u128 * 256 + b[6] as u128) * 256 + b[5] as u128) * 256
        + b[4] as u128) * 256 + b[3] as u128) * 256 + b[2] as u128) * 256 + b[1] as u128) * 256
        + b[0] as u128);
    proof {
        reveal_with_fuel(be_value, 9);
        let s = b@.reverse();
        assert(s.drop_last().drop_last().drop_last().drop_last().drop_last().drop_last().drop_last().drop_last().len() == 0);
        assert(n == be_value(s));
    }
    n as u64
}

}
