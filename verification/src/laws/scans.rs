//! Reading the rows behind a prefix: there is one answer.
use crate::db::{before, is_scan, row, scan, Cf, Db};
use crate::model::decoded;
use crate::records::Stored;
use vstd::prelude::*;

verus! {

/// No key comes before itself.
pub proof fn law_before_irreflexive(a: Seq<u8>)
    ensures
        !before(a, a),
    decreases a.len(),
{
    if a.len() > 0 {
        law_before_irreflexive(a.skip(1));
    }
}

/// Keys come one after the other.
pub proof fn law_before_transitive(a: Seq<u8>, b: Seq<u8>, c: Seq<u8>)
    requires
        before(a, b),
        before(b, c),
    ensures
        before(a, c),
    decreases a.len(),
{
    if a.len() > 0 && a[0] == b[0] && b[0] == c[0] {
        law_before_transitive(a.skip(1), b.skip(1), c.skip(1));
    }
}

/// Of two keys, one comes before the other.
pub proof fn law_before_total(a: Seq<u8>, b: Seq<u8>)
    ensures
        a == b || before(a, b) || before(b, a),
    decreases a.len(),
{
    if a.len() == 0 && b.len() == 0 {
        assert(a =~= b);
    } else if a.len() > 0 && b.len() > 0 && a[0] == b[0] {
        law_before_total(a.skip(1), b.skip(1));
        if a.skip(1) == b.skip(1) {
            assert(a =~= seq![a[0]] + a.skip(1));
            assert(b =~= seq![b[0]] + b.skip(1));
        }
    }
}

/// There is at most one way to list the rows behind a prefix.
pub proof fn law_scan_unique(
    db: Db,
    cf: Cf,
    prefix: Seq<u8>,
    a: Seq<(Seq<u8>, Seq<u8>)>,
    b: Seq<(Seq<u8>, Seq<u8>)>,
)
    requires
        is_scan(db, cf, prefix, a),
        is_scan(db, cf, prefix, b),
    ensures
        a == b,
{
    assert forall|i: int| 0 <= i < a.len() implies i < b.len() && #[trigger] a[i] == b[i] by {
        lemma_scans_match(db, cf, prefix, a, b, i);
    }
    assert forall|i: int| 0 <= i < b.len() implies i < a.len() && #[trigger] b[i] == a[i] by {
        lemma_scans_match(db, cf, prefix, b, a, i);
    }
    if a.len() < b.len() {
        assert(b[a.len() as int] == b[a.len() as int]);
    }
    if b.len() < a.len() {
        assert(a[b.len() as int] == a[b.len() as int]);
    }
    assert(a =~= b);
}

proof fn lemma_scans_match(
    db: Db,
    cf: Cf,
    prefix: Seq<u8>,
    a: Seq<(Seq<u8>, Seq<u8>)>,
    b: Seq<(Seq<u8>, Seq<u8>)>,
    i: int,
)
    requires
        is_scan(db, cf, prefix, a),
        is_scan(db, cf, prefix, b),
        0 <= i < a.len(),
    ensures
        i < b.len(),
        a[i] == b[i],
    decreases i,
{
    assert forall|j: int| 0 <= j < i implies j < b.len() && #[trigger] a[j] == b[j] by {
        lemma_scans_match(db, cf, prefix, a, b, j);
    }
    let key = a[i].0;
    assert(db.contains_key((cf, key)));
    let m = choose|m: int| 0 <= m < b.len() && (#[trigger] b[m]).0 == key;
    if m < i {
        assert(a[m] == b[m]);
        law_before_irreflexive(key);
    }
    if m > i {
        let other = b[i].0;
        assert(before(other, key));
        assert(db.contains_key((cf, other)));
        let n = choose|n: int| 0 <= n < a.len() && (#[trigger] a[n]).0 == other;
        if n < i {
            assert(a[n] == b[n]);
            law_before_irreflexive(other);
        } else if n == i {
            law_before_irreflexive(key);
        } else {
            law_before_transitive(other, key, other);
            law_before_irreflexive(other);
        }
    }
    assert(row(db, cf, key) == Some(a[i].1));
}

/// Whether keys come one after the other.
spec fn in_order(keys: Seq<Seq<u8>>) -> bool {
    forall|i: int, j: int|
        0 <= i < j < keys.len() ==> before(#[trigger] keys[i], #[trigger] keys[j])
}

/// A key among keys that are in order.
proof fn lemma_insert(keys: Seq<Seq<u8>>, x: Seq<u8>) -> (r: Seq<Seq<u8>>)
    requires
        in_order(keys),
        !keys.contains(x),
    ensures
        in_order(r),
        forall|k: Seq<u8>| #[trigger] r.contains(k) <==> keys.contains(k) || k == x,
    decreases keys.len(),
{
    if keys.len() == 0 {
        let r = seq![x];
        assert(r[0] == x);
        r
    } else if before(x, keys[0]) {
        let r = seq![x] + keys;
        assert forall|i: int, j: int| 0 <= i < j < r.len() implies before(
            #[trigger] r[i],
            #[trigger] r[j],
        ) by {
            if i == 0 {
                if j > 1 {
                    law_before_transitive(x, keys[0], keys[j - 1]);
                }
            } else {
                assert(before(keys[i - 1], keys[j - 1]));
            }
        }
        assert forall|k: Seq<u8>| #[trigger] r.contains(k) <==> keys.contains(k) || k == x by {
            if keys.contains(k) {
                assert(r[keys.index_of(k) + 1] == k);
            }
            if k == x {
                assert(r[0] == k);
            }
            if r.contains(k) && k != x {
                assert(keys[r.index_of(k) - 1] == k);
            }
        }
        r
    } else {
        law_before_total(x, keys[0]);
        assert(keys.contains(keys[0]));
        let tail = keys.skip(1);
        assert forall|k: Seq<u8>| #[trigger] tail.contains(k) implies keys.contains(k) by {
            assert(keys[tail.index_of(k) + 1] == k);
        }
        assert(in_order(tail)) by {
            assert forall|i: int, j: int| 0 <= i < j < tail.len() implies before(
                #[trigger] tail[i],
                #[trigger] tail[j],
            ) by {
                assert(before(keys[i + 1], keys[j + 1]));
            }
        }
        let rest = lemma_insert(tail, x);
        let r = seq![keys[0]] + rest;
        assert forall|i: int, j: int| 0 <= i < j < r.len() implies before(
            #[trigger] r[i],
            #[trigger] r[j],
        ) by {
            if i == 0 {
                let k = rest[j - 1];
                assert(rest.contains(k));
                if k != x {
                    let m = tail.index_of(k);
                    assert(before(keys[0], keys[m + 1]));
                }
            } else {
                assert(before(rest[i - 1], rest[j - 1]));
            }
        }
        assert forall|k: Seq<u8>| #[trigger] r.contains(k) <==> keys.contains(k) || k == x by {
            if r.contains(k) && k != keys[0] {
                assert(rest[r.index_of(k) - 1] == k);
                assert(rest.contains(k));
            }
            if keys.contains(k) && k != keys[0] {
                assert(tail[keys.index_of(k) - 1] == k);
                assert(rest.contains(k));
            }
            if rest.contains(k) {
                assert(r[rest.index_of(k) + 1] == k);
            }
            if k == keys[0] {
                assert(r[0] == k);
            }
        }
        r
    }
}

/// Finitely many keys can be put in order.
proof fn lemma_sorted(keys: Set<Seq<u8>>) -> (r: Seq<Seq<u8>>)
    requires
        keys.finite(),
    ensures
        in_order(r),
        forall|k: Seq<u8>| #[trigger] r.contains(k) <==> keys.contains(k),
    decreases keys.len(),
{
    if keys.len() == 0 {
        assert(keys =~= Set::empty());
        Seq::empty()
    } else {
        let x = keys.choose();
        let rest = lemma_sorted(keys.remove(x));
        assert(!rest.contains(x));
        let r = lemma_insert(rest, x);
        assert forall|k: Seq<u8>| #[trigger] r.contains(k) <==> keys.contains(k) by {
            assert(rest.contains(k) <==> keys.remove(x).contains(k));
        }
        r
    }
}

/// Of a database that has finitely many rows, the rows behind a prefix can be listed.
pub proof fn law_scan(db: Db, cf: Cf, prefix: Seq<u8>)
    requires
        db.dom().finite(),
    ensures
        is_scan(db, cf, prefix, scan(db, cf, prefix)),
{
    let found = db.dom().filter(|k: (Cf, Seq<u8>)| k.0 == cf && prefix.is_prefix_of(k.1));
    let keys = found.map(|k: (Cf, Seq<u8>)| k.1);
    db.dom().lemma_len_filter(|k: (Cf, Seq<u8>)| k.0 == cf && prefix.is_prefix_of(k.1));
    found.lemma_map_finite(|k: (Cf, Seq<u8>)| k.1);
    assert forall|k: Seq<u8>| keys.contains(k) <==> db.contains_key((cf, k))
        && prefix.is_prefix_of(k) by {
        if db.contains_key((cf, k)) && prefix.is_prefix_of(k) {
            assert(found.contains((cf, k)));
        }
    }
    let sorted = lemma_sorted(keys);
    let rows = sorted.map_values(|k: Seq<u8>| (k, db[(cf, k)]));
    assert forall|i: int| 0 <= i < rows.len() implies prefix.is_prefix_of((#[trigger] rows[i]).0)
        && row(db, cf, rows[i].0) == Some(rows[i].1) by {
        assert(sorted.contains(sorted[i]));
    }
    assert forall|key: Seq<u8>| #[trigger] db.contains_key((cf, key)) && prefix.is_prefix_of(
        key,
    ) implies exists|i: int| 0 <= i < rows.len() && (#[trigger] rows[i]).0 == key by {
        assert(sorted.contains(key));
        assert(rows[sorted.index_of(key)].0 == key);
    }
    assert forall|i: int, j: int| 0 <= i < j < rows.len() implies before(
        (#[trigger] rows[i]).0,
        (#[trigger] rows[j]).0,
    ) by {
        assert(before(sorted[i], sorted[j]));
    }
    assert(is_scan(db, cf, prefix, rows));
}

/// Rows that can all be read are all read.
pub proof fn law_decoded<K: Stored, V: Stored>(rows: Seq<(Seq<u8>, Seq<u8>)>)
    requires
        forall|i: int|
            0 <= i < rows.len() ==> K::parsed((#[trigger] rows[i]).0) is Some && V::parsed(
                rows[i].1,
            ) is Some,
    ensures
        decoded::<K, V>(rows).len() == rows.len(),
        forall|i: int|
            0 <= i < rows.len() ==> #[trigger] decoded::<K, V>(rows)[i] == (
                K::parsed(rows[i].0).unwrap(),
                V::parsed(rows[i].1).unwrap(),
            ),
    decreases rows.len(),
{
    if rows.len() > 0 {
        let tail = rows.skip(1);
        assert forall|i: int| 0 <= i < tail.len() implies K::parsed((#[trigger] tail[i]).0) is Some
            && V::parsed(tail[i].1) is Some by {
            assert(tail[i] == rows[i + 1]);
        }
        law_decoded::<K, V>(tail);
        assert(K::parsed(rows[0].0) is Some && V::parsed(rows[0].1) is Some);
        assert forall|i: int| 0 <= i < rows.len() implies #[trigger] decoded::<K, V>(rows)[i] == (
            K::parsed(rows[i].0).unwrap(),
            V::parsed(rows[i].1).unwrap(),
        ) by {
            if i > 0 {
                assert(decoded::<K, V>(rows)[i] == decoded::<K, V>(tail)[i - 1]);
            }
        }
    }
}

}
