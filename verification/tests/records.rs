use link_aggregator::bytes::{copy_bytes, from_le_bytes, same_bytes, to_be_bytes, to_le_bytes};
use link_aggregator::db::{Batch, BatchOp, Cf};
use link_aggregator::error::Error;
use link_aggregator::events::{Link, RecordId};
use link_aggregator::id_table::{IdTable, IdTableValue};
use link_aggregator::known::Known;
use link_aggregator::linkers::{merge_op_extend_did_ids, try_merge_op_extend_did_ids};
use link_aggregator::records::{
    Collection, Did, DidId, DidIdValue, RKey, RPath, RecordLinkKey, RecordLinkKeyDidIdPrefix,
    RecordLinkTarget, RecordLinkTargets, Target, TargetId, TargetIdTargetPrefix, TargetKey,
    TargetLinkers, _kr, _rk, _rkp, _rv, _vr,
};
use std::collections::BTreeMap;

fn s(text: &str) -> String {
    text.to_string()
}

fn linkers(entries: &[(u64, &str)]) -> TargetLinkers {
    TargetLinkers(entries.iter().map(|(d, r)| (DidId(*d), RKey(s(r)))).collect())
}

#[test]
fn numbers_take_as_many_bytes_as_they_need() {
    assert_eq!(_rv(&0u64), vec![0]);
    assert_eq!(_rv(&250u64), vec![250]);
    assert_eq!(_rv(&251u64), vec![251, 0, 251]);
    assert_eq!(_rv(&65535u64), vec![251, 255, 255]);
    assert_eq!(_rv(&65536u64), vec![252, 0, 1, 0, 0]);
    assert_eq!(_rv(&4294967295u64), vec![252, 255, 255, 255, 255]);
    assert_eq!(_rv(&4294967296u64), vec![253, 0, 0, 0, 1, 0, 0, 0, 0]);
    assert_eq!(
        _rv(&u64::MAX),
        vec![253, 255, 255, 255, 255, 255, 255, 255, 255]
    );
}

#[test]
fn numbers_are_read_back() {
    for n in [0u64, 1, 250, 251, 65535, 65536, 4294967295, 4294967296, u64::MAX] {
        assert_eq!(_vr::<u64>(&_rv(&n)), Ok(n));
    }
    // wider than need be
    assert_eq!(_vr::<u64>(&[251, 0, 5]), Ok(5));
    assert_eq!(_vr::<u64>(&[253, 0, 0, 0, 0, 0, 0, 0, 9]), Ok(9));
}

#[test]
fn numbers_that_cannot_be_read() {
    assert_eq!(_vr::<u64>(&[]), Err(Error::Codec));
    assert_eq!(_vr::<u64>(&[5, 0]), Err(Error::Codec));
    assert_eq!(_vr::<u64>(&[251, 0]), Err(Error::Codec));
    assert_eq!(
        _vr::<u64>(&[254, 0, 0, 0, 0, 0, 0, 0, 0, 0, 0, 0, 0, 0, 0, 0, 1]),
        Err(Error::Codec)
    );
    assert_eq!(_vr::<u64>(&[255]), Err(Error::Codec));
}

#[test]
fn accounts_as_rows() {
    assert_eq!(_rk(&Did(s("abc"))), vec![3, b'a', b'b', b'c']);
    assert_eq!(_rk(&Did(s("é"))), vec![2, 0xC3, 0xA9]);
    assert_eq!(_kr::<Did>(&[3, b'a', b'b', b'c']), Ok(Did(s("abc"))));
    assert_eq!(_kr::<Did>(&[3, b'a', b'b']), Err(Error::Codec));
    assert_eq!(_kr::<Did>(&[1, 0xFF]), Err(Error::Codec));
    assert_eq!(_rk(&DidId(300)), vec![251, 1, 44]);
    assert_eq!(_rv(&DidIdValue(DidId(5), true)), vec![5, 1]);
    assert_eq!(_rv(&DidIdValue(DidId(5), false)), vec![5, 0]);
    assert_eq!(_vr::<DidIdValue>(&[5, 1]), Ok(DidIdValue(DidId(5), true)));
    assert_eq!(_vr::<DidIdValue>(&[5, 2]), Err(Error::Codec));
    let long = "x".repeat(300);
    let bytes = _rk(&Did(long.clone()));
    assert_eq!(bytes[..3], [251, 1, 44]);
    assert_eq!(_kr::<Did>(&bytes), Ok(Did(long)));
}

#[test]
fn targets_as_rows() {
    let key = TargetKey(Target(s("t")), Collection(s("co")), RPath(s(".p")));
    assert_eq!(
        _rk(&key),
        vec![1, b't', 2, b'c', b'o', 2, b'.', b'p']
    );
    assert_eq!(_kr::<TargetKey>(&_rk(&key)), Ok(key));
    assert_eq!(_rk(&TargetId(7)), vec![7]);
    assert_eq!(_vr::<TargetId>(&[7]), Ok(TargetId(7)));
    assert_eq!(_rv(&linkers(&[(2, "k")])), vec![1, 2, 1, b'k']);
    assert_eq!(_vr::<TargetLinkers>(&[1, 2, 1, b'k']), Ok(linkers(&[(2, "k")])));
    assert_eq!(_vr::<TargetLinkers>(&[2, 2, 1, b'k']), Err(Error::Codec));
    assert_eq!(_rv(&linkers(&[])), vec![0]);
}

#[test]
fn records_as_rows() {
    let key = RecordLinkKey(DidId(2), Collection(s("c")), RKey(s("k")));
    assert_eq!(_rk(&key), vec![2, 1, b'c', 1, b'k']);
    assert_eq!(key.collection(), Collection(s("c")));
    assert_eq!(_kr::<RecordLinkKey>(&[2, 1, b'c', 1, b'k']), Ok(key));
    let mut targets = RecordLinkTargets::with_capacity(2);
    assert_eq!(targets, RecordLinkTargets(vec![]));
    targets.add(RecordLinkTarget(RPath(s(".p")), TargetId(9)));
    targets.add(RecordLinkTarget(RPath(s("")), TargetId(300)));
    let bytes = _rv(&targets);
    assert_eq!(bytes, vec![2, 2, b'.', b'p', 9, 0, 251, 1, 44]);
    assert_eq!(_vr::<RecordLinkTargets>(&bytes), Ok(targets));
}

#[test]
fn different_keys_have_different_bytes() {
    let a = TargetKey(Target(s("ab")), Collection(s("c")), RPath(s("d")));
    let b = TargetKey(Target(s("a")), Collection(s("bc")), RPath(s("d")));
    assert_ne!(_rk(&a), _rk(&b));
    let a = RecordLinkKey(DidId(2), Collection(s("ab")), RKey(s("")));
    let b = RecordLinkKey(DidId(2), Collection(s("a")), RKey(s("b")));
    assert_ne!(_rk(&a), _rk(&b));
}

#[test]
fn prefixes_find_what_begins_with_them() {
    let key = RecordLinkKey(DidId(251), Collection(s("c")), RKey(s("k")));
    let own = _rkp::<RecordLinkKey, _>(&RecordLinkKeyDidIdPrefix(DidId(251)));
    let other = _rkp::<RecordLinkKey, _>(&RecordLinkKeyDidIdPrefix(DidId(250)));
    assert!(_rk(&key).starts_with(&own));
    assert!(!_rk(&key).starts_with(&other));
    let key = TargetKey(Target(s("abc")), Collection(s("c")), RPath(s(".p")));
    let own = _rkp::<TargetKey, _>(&TargetIdTargetPrefix(Target(s("abc"))));
    let shorter = _rkp::<TargetKey, _>(&TargetIdTargetPrefix(Target(s("ab"))));
    assert!(_rk(&key).starts_with(&own));
    assert!(!_rk(&key).starts_with(&shorter));
}

#[test]
fn rows_without_meaning() {
    assert_eq!(_rk(&(1u8, 255u8)), vec![1, 255]);
    assert_eq!(_kr::<(u8, u8)>(&[1, 255]), Ok((1, 255)));
    assert_eq!(_kr::<(u8, u8)>(&[1]), Err(Error::Codec));
    assert_eq!(_rkp::<(u8, u8), u8>(&2u8), vec![2]);
    assert_eq!(_rv(&()), Vec::<u8>::new());
    assert_eq!(_vr::<()>(&[]), Ok(()));
    assert_eq!(_vr::<()>(&[0]), Err(Error::Codec));
}

#[test]
fn empty_ids() {
    assert_eq!(DidId::empty(), DidId(0));
    assert!(DidId::empty().is_empty());
    assert!(!DidId(1).is_empty());
    assert_eq!(RKey::empty(), RKey(s("")));
    assert_eq!(DidIdValue(DidId(8), false).did_id(), DidId(8));
}

#[test]
fn new_ids() {
    assert_eq!(<DidIdValue as IdTableValue>::new(4), DidIdValue(DidId(4), true));
    assert_eq!(DidIdValue(DidId(4), false).id(), 4);
    assert_eq!(<TargetId as IdTableValue>::new(4), TargetId(4));
    assert_eq!(TargetId(4).id(), 4);
}

#[test]
fn fixed_width_numbers() {
    assert_eq!(to_be_bytes(0x0102030405060708), vec![1, 2, 3, 4, 5, 6, 7, 8]);
    assert_eq!(to_le_bytes(0x0102030405060708), vec![8, 7, 6, 5, 4, 3, 2, 1]);
    assert_eq!(from_le_bytes(&[8, 7, 6, 5, 4, 3, 2, 1]), 0x0102030405060708);
    assert_eq!(from_le_bytes(&to_le_bytes(u64::MAX)), u64::MAX);
    assert!(same_bytes(&[1, 2], &[1, 2]));
    assert!(!same_bytes(&[1, 2], &[1, 3]));
    assert!(!same_bytes(&[1, 2], &[1]));
    assert_eq!(copy_bytes(&[4, 5]), vec![4, 5]);
}

#[test]
fn tables_start_behind_what_is_stored() {
    let table = IdTable::<Did, DidIdValue, true>::setup(Cf::DidIds);
    assert!(!table.did_init());
    assert_eq!(table.cf(), Cf::DidIds);
    assert_eq!(
        table.seq_key(),
        b"__id_seq_key_plz_be_unique:did_ids".to_vec()
    );
    let table = table.init::<true>(true, None).ok().unwrap();
    assert_eq!(table.id_seq(), 1);

    let table = IdTable::<TargetKey, TargetId, false>::setup(Cf::TargetIds);
    assert_eq!(
        table.seq_key(),
        b"__id_seq_key_plz_be_unique:target_ids".to_vec()
    );
    let stored = 41u64.to_le_bytes();
    let table = table.init::<false>(true, Some(&stored)).ok().unwrap();
    assert_eq!(table.id_seq(), 42);
}

#[test]
fn tables_that_cannot_start() {
    let table = || IdTable::<Did, DidIdValue, true>::setup(Cf::DidIds);
    assert_eq!(
        table().init::<true>(false, None).err(),
        Some(Error::NoColumnFamily)
    );
    assert_eq!(
        table().init::<true>(true, Some(&[1, 2, 3])).err(),
        Some(Error::SequenceLength)
    );
    assert_eq!(
        table().init::<true>(true, Some(&[255; 8])).err(),
        Some(Error::SequenceExhausted)
    );
}

/// Keeps the rows of a batch that only puts.
fn write(rows: &mut BTreeMap<(&'static str, Vec<u8>), Vec<u8>>, batch: Batch) {
    for op in batch.ops {
        match op {
            BatchOp::Put { cf, key, value } => {
                rows.insert((cf.name(), key), value);
            }
            other => panic!("{other:?}"),
        }
    }
}

#[test]
fn tables_lead_both_ways() {
    let mut rows = BTreeMap::new();
    let table = IdTable::<Did, DidIdValue, true>::setup(Cf::DidIds);
    let mut table = table.init::<true>(true, None).ok().unwrap();
    let a = Did(s("did:a"));
    let mut known = Known::new();
    known.learn_row(Cf::DidIds, _rk(&a), None);
    let mut batch = Batch::new();
    let value = table.get_or_create_id_val(&known, &mut batch, &a).unwrap();
    assert_eq!(value, DidIdValue(DidId(2), true));
    write(&mut rows, batch);

    let row = |cf: Cf, key: Vec<u8>| rows.get(&(cf.name(), key)).cloned();
    let mut known = Known::new();
    known.learn_row(Cf::DidIds, _rk(&a), row(Cf::DidIds, _rk(&a)));
    for id in [2u64, 3] {
        let key = to_be_bytes(id);
        known.learn_row(Cf::DidIds, key.clone(), row(Cf::DidIds, key));
    }
    assert_eq!(table.get_id_val(&known, &a), Ok(Some(value)));
    assert_eq!(table.get_val_from_id(&known, 2), Ok(Some(a)));
    assert_eq!(table.get_val_from_id(&known, 3), Ok(None));
}

#[test]
fn tables_do_not_give_an_id_twice() {
    let mut rows = BTreeMap::new();
    let mut ids = Vec::new();
    let seq_key = IdTable::<Did, DidIdValue, true>::setup(Cf::DidIds).seq_key();
    for _ in 0..3 {
        let stored: Option<Vec<u8>> = rows.get(&("default", seq_key.clone())).cloned();
        let table = IdTable::<Did, DidIdValue, true>::setup(Cf::DidIds);
        let mut table = table.init::<true>(true, stored.as_deref()).ok().unwrap();
        // the same values again, as if they had gone
        let mut batch = Batch::new();
        for name in ["did:a", "did:b"] {
            let did = Did(s(name));
            let mut known = Known::new();
            known.learn_row(Cf::DidIds, _rk(&did), None);
            ids.push(table.get_or_create_id_val(&known, &mut batch, &did).unwrap().id());
        }
        write(&mut rows, batch);
    }
    assert_eq!(ids, vec![2, 3, 5, 6, 8, 9]);
}

#[test]
fn links_are_counted() {
    assert_eq!(linkers(&[]).count(), (0, 0));
    assert_eq!(linkers(&[(2, "a"), (0, ""), (3, "b")]).count(), (2, 1));
}

#[test]
fn the_newest_link_is_taken_out() {
    let mut l = linkers(&[(2, "a"), (3, "a"), (2, "a"), (2, "b")]);
    assert!(l.remove_linker(&DidId(2), &RKey(s("a"))));
    assert_eq!(l, linkers(&[(2, "a"), (3, "a"), (0, ""), (2, "b")]));
    assert_eq!(l.count(), (3, 1));
    assert!(l.remove_linker(&DidId(2), &RKey(s("a"))));
    assert_eq!(l, linkers(&[(0, ""), (3, "a"), (0, ""), (2, "b")]));
    assert!(!l.remove_linker(&DidId(2), &RKey(s("a"))));
    assert_eq!(l, linkers(&[(0, ""), (3, "a"), (0, ""), (2, "b")]));
    assert!(!linkers(&[]).remove_linker(&DidId(2), &RKey(s("a"))));
}

#[test]
fn linkers_are_merged_in_order() {
    let a = _rv(&linkers(&[(2, "a")]));
    let b = _rv(&linkers(&[(3, "b"), (4, "c")]));
    let all = _rv(&linkers(&[(2, "a"), (3, "b"), (4, "c")]));
    assert_eq!(
        merge_op_extend_did_ids(None, &vec![a.clone(), b.clone()], 4),
        all.clone()
    );
    assert_eq!(
        merge_op_extend_did_ids(Some(&a), &vec![b.clone()], 4),
        all.clone()
    );
    assert_eq!(merge_op_extend_did_ids(Some(&all), &vec![], 4), all.clone());
    assert_eq!(merge_op_extend_did_ids(None, &vec![], 4), vec![0]);
}

#[test]
fn merging_in_steps_is_merging_at_once() {
    let row = _rv(&linkers(&[(9, "z")]));
    let a = _rv(&linkers(&[(2, "a")]));
    let b = _rv(&linkers(&[(3, "b")]));
    let at_once = merge_op_extend_did_ids(Some(&row), &vec![a.clone(), b.clone()], 9);
    let first = merge_op_extend_did_ids(Some(&row), &vec![a.clone()], 9);
    assert_eq!(
        merge_op_extend_did_ids(Some(&first), &vec![b.clone()], 9),
        at_once.clone()
    );
    let operands = merge_op_extend_did_ids(None, &vec![a, b], 9);
    assert_eq!(
        merge_op_extend_did_ids(Some(&row), &vec![operands], 9),
        at_once
    );
}

#[test]
fn linkers_above_the_sequence_are_refused() {
    let a = _rv(&linkers(&[(5, "a")]));
    let b = _rv(&linkers(&[(2, "b")]));
    assert_eq!(
        try_merge_op_extend_did_ids(Some(&a), &vec![b.clone()], 4),
        Err(Error::ExistingAboveSequence)
    );
    assert_eq!(
        try_merge_op_extend_did_ids(Some(&b), &vec![a.clone()], 4),
        Err(Error::NewAboveSequence)
    );
    // before the sequence is known, everything is accepted
    assert_eq!(
        try_merge_op_extend_did_ids(Some(&a), &vec![b.clone()], 0),
        try_merge_op_extend_did_ids(Some(&a), &vec![b], 5)
    );
}

#[test]
fn linkers_that_cannot_be_read_are_refused() {
    let a = _rv(&linkers(&[(5, "a")]));
    assert_eq!(
        try_merge_op_extend_did_ids(Some(&[7]), &vec![a.clone()], 9),
        Err(Error::Codec)
    );
    assert_eq!(
        try_merge_op_extend_did_ids(Some(&a), &vec![a.clone(), vec![7]], 9),
        Err(Error::Codec)
    );
}

#[test]
fn keys_are_read_whole() {
    let key = _rk(&RecordLinkKey(DidId(300), Collection(s("c")), RKey(s("k"))));
    assert!(_kr::<RecordLinkKey>(&key).is_ok());
    for n in 0..key.len() {
        assert_eq!(_kr::<RecordLinkKey>(&key[..n]), Err(Error::Codec));
    }
    let mut longer = key.clone();
    longer.push(0);
    assert_eq!(_kr::<RecordLinkKey>(&longer), Err(Error::Codec));
    let mut did = _rk(&Did(s("did:a")));
    did.push(b'a');
    assert_eq!(_kr::<Did>(&did), Err(Error::Codec));
}

#[test]
fn keys_are_in_the_order_of_their_ids() {
    let ids = [
        0,
        1,
        250,
        251,
        252,
        255,
        256,
        0xffff,
        0x1_0000,
        0xffff_ffff,
        0x1_0000_0000,
        u64::MAX,
    ];
    for pair in ids.windows(2) {
        assert!(_rv(&pair[0]) < _rv(&pair[1]));
        let low = RecordLinkKey(DidId(pair[0]), Collection(s("z")), RKey(s("z")));
        let high = RecordLinkKey(DidId(pair[1]), Collection(s("a")), RKey(s("")));
        assert!(_rk(&low) < _rk(&high));
    }
}

#[test]
fn parts_of_events() {
    let record = RecordId {
        did: Did(s("did:a")),
        collection: s("c"),
        rkey: s("k"),
    };
    assert_eq!(record.did(), Did(s("did:a")));
    assert_eq!(record.collection(), s("c"));
    assert_eq!(record.rkey(), s("k"));
    assert_eq!(Link::Uri(s("u")).into_string(), s("u"));
    assert_eq!(Link::AtUri(s("at://x")).into_string(), s("at://x"));
    assert_eq!(Link::Did(s("did:b")).clone().into_string(), s("did:b"));
    for link in [Link::AtUri(s("a")), Link::Uri(s("a")), Link::Did(s("a"))] {
        assert_eq!(link.clone(), link);
    }
}

#[test]
fn names_of_tables() {
    assert_eq!(Cf::Default.name(), "default");
    assert_eq!(Cf::DidIds.name(), "did_ids");
    assert_eq!(Cf::TargetIds.name(), "target_ids");
    assert_eq!(Cf::TargetLinks.name(), "target_links");
    assert_eq!(Cf::LinkTargets.name(), "link_targets");
}
