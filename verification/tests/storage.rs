use link_aggregator::counts::Counts;
use link_aggregator::db::{Batch, BatchOp, Cf};
use link_aggregator::error::Error;
use link_aggregator::events::{
    ActionableEvent, CollectedLink, Link, PagedAppendingCollection, RecordId,
};
use link_aggregator::known::{Halt, Known, Read};
use link_aggregator::linkers::try_merge_op_extend_did_ids;
use link_aggregator::records::{
    Collection, Did, DidId, DidIdValue, RKey, RPath, RecordLinkKey, Target, TargetId, TargetKey,
    TargetLinkers, _rk, _rv,
};
use link_aggregator::storage::dups::Notice;
use link_aggregator::storage::notices::Lost;
use link_aggregator::storage::RocksStorage;
use std::collections::BTreeMap;

/// A database in memory, with the store over it.
struct Mem {
    rows: BTreeMap<(&'static str, Vec<u8>), Vec<u8>>,
    store: RocksStorage,
    reads: usize,
}

fn seq_row(name: &str) -> Vec<u8> {
    let mut key = b"__id_seq_key_plz_be_unique:".to_vec();
    key.extend(name.as_bytes());
    key
}

impl Mem {
    fn new() -> Mem {
        Mem {
            rows: BTreeMap::new(),
            store: RocksStorage::new(true, None, true, None).unwrap(),
            reads: 0,
        }
    }

    fn get(&self, cf: Cf, key: &[u8]) -> Option<Vec<u8>> {
        self.rows.get(&(cf.name(), key.to_vec())).cloned()
    }

    fn reopen(&mut self) {
        let dids = self.get(Cf::Default, &seq_row("did_ids"));
        let targets = self.get(Cf::Default, &seq_row("target_ids"));
        self.store = RocksStorage::new(true, dids.as_deref(), true, targets.as_deref()).unwrap();
    }

    fn learn(&mut self, known: &mut Known, reads: Vec<Read>) {
        assert!(!reads.is_empty());
        for read in reads {
            self.reads += 1;
            match read {
                Read::Row { cf, key } => {
                    let value = self.get(cf, &key);
                    known.learn_row(cf, key, value);
                }
                Read::Rows { cf, prefix } => {
                    let rows = self
                        .rows
                        .iter()
                        .filter(|(k, _)| k.0 == cf.name() && k.1.starts_with(&prefix))
                        .map(|(k, v)| (k.1.clone(), v.clone()))
                        .collect();
                    known.learn_rows(cf, prefix, rows);
                }
            }
        }
    }

    fn write(&mut self, batch: Batch) {
        let seq = self.store.did_seq();
        for op in batch.ops {
            match op {
                BatchOp::Put { cf, key, value } => {
                    self.rows.insert((cf.name(), key), value);
                }
                BatchOp::Merge { cf, key, operand } => {
                    let existing = self.get(cf, &key);
                    let value =
                        try_merge_op_extend_did_ids(existing.as_deref(), &vec![operand], seq).unwrap();
                    self.rows.insert((cf.name(), key), value);
                }
                BatchOp::Delete { cf, key } => {
                    self.rows.remove(&(cf.name(), key));
                }
            }
        }
    }

    fn ask<T>(
        &mut self,
        mut f: impl FnMut(&mut RocksStorage, &Known) -> Result<T, Halt>,
    ) -> Result<T, Error> {
        let mut known = Known::new();
        loop {
            match f(&mut self.store, &known) {
                Ok(v) => return Ok(v),
                Err(Halt::Fail(e)) => return Err(e),
                Err(Halt::Read(reads)) => self.learn(&mut known, reads),
            }
        }
    }

    fn push(&mut self, event: &ActionableEvent, cursor: u64) -> Result<(), Error> {
        let batches = self.ask(|store, known| store.try_push(known, event, cursor))?;
        for batch in batches {
            self.write(batch);
        }
        Ok(())
    }

    /// Pages from the newest on, until there is nothing behind them.
    fn walk(
        &mut self,
        target: &str,
        collection: &str,
        path: &str,
        limit: u64,
    ) -> Vec<PagedAppendingCollection<RecordId>> {
        let mut pages = Vec::new();
        let mut until = None;
        loop {
            let page = self.links(target, collection, path, limit, until).unwrap();
            until = page.next;
            pages.push(page);
            if until.is_none() {
                return pages;
            }
        }
    }

    fn cursor(&mut self) -> Result<Option<u64>, Error> {
        self.ask(|store, known| store.get_cursor(known))
    }

    fn count(&mut self, target: &str, collection: &str, path: &str) -> Result<u64, Error> {
        self.ask(|store, known| store.get_count(known, target, collection, path))
    }

    fn links(
        &mut self,
        target: &str,
        collection: &str,
        path: &str,
        limit: u64,
        until: Option<u64>,
    ) -> Result<PagedAppendingCollection<RecordId>, Error> {
        self.ask(|store, known| store.get_links(known, target, collection, path, limit, until))
    }

    fn counts(&mut self, target: &str) -> Result<Counts, Error> {
        self.ask(|store, known| store.get_all_counts(known, target))
    }
}

fn did(s: &str) -> Did {
    Did(s.to_string())
}

fn record(d: &str, collection: &str, rkey: &str) -> RecordId {
    RecordId {
        did: did(d),
        collection: collection.to_string(),
        rkey: rkey.to_string(),
    }
}

fn link(target: &str, path: &str) -> CollectedLink {
    CollectedLink {
        target: Link::Uri(target.to_string()),
        path: path.to_string(),
    }
}

fn create(d: &str, collection: &str, rkey: &str, links: &[(&str, &str)]) -> ActionableEvent {
    ActionableEvent::CreateLinks {
        record_id: record(d, collection, rkey),
        links: links.iter().map(|(t, p)| link(t, p)).collect(),
    }
}

#[test]
fn rocks_delete_iterator_regression() -> Result<(), Error> {
    let mut store = Mem::new();

    // create a link from the deleter account
    store.push(
        &ActionableEvent::CreateLinks {
            record_id: RecordId {
                did: Did("did:plc:will-shortly-delete".into()),
                collection: "a.b.c".into(),
                rkey: "asdf".into(),
            },
            links: vec![CollectedLink {
                target: Link::Uri("example.com".into()),
                path: ".uri".into(),
            }],
        },
        0,
    )?;

    // and a different link from a separate, new account (later in didid prefix iteration)
    store.push(
        &ActionableEvent::CreateLinks {
            record_id: RecordId {
                did: Did("did:plc:someone-else".into()),
                collection: "a.b.c".into(),
                rkey: "asdf".into(),
            },
            links: vec![CollectedLink {
                target: Link::Uri("another.example.com".into()),
                path: ".uri".into(),
            }],
        },
        0,
    )?;

    // now delete the first account
    store.push(
        &ActionableEvent::DeleteAccount(Did("did:plc:will-shortly-delete".into())),
        0,
    )?;

    Ok(())
}

#[test]
fn rocks_prefix_iteration_helper() -> Result<(), Error> {
    let mut data = Mem::new();
    let cf = Cf::DidIds;
    let mut batch = Batch::new();

    // not our prefix
    batch.put_cf(cf, _rk(&(0x01u8, 0x00u8)), _rv(&()));
    batch.put_cf(cf, _rk(&(0x01u8, 0xFFu8)), _rv(&()));

    // our prefix!
    for i in 0..=0xFFu8 {
        batch.put_cf(cf, _rk(&(0x02u8, i)), _rv(&()));
    }

    // not our prefix
    batch.put_cf(cf, _rk(&(0x03u8, 0x00u8)), _rv(&()));
    batch.put_cf(cf, _rk(&(0x03u8, 0xFFu8)), _rv(&()));

    data.write(batch);

    let mut okays: [bool; 256] = [false; 256];
    let found = data.ask(|store, known| {
        store.prefix_iter_cf::<(u8, u8), (), u8>(known, cf, &0x02u8)
    })?;
    for (i, (k, ())) in found.into_iter().enumerate() {
        assert!(i < 256);
        assert_eq!(k.0, 0x02, "prefix iterated key has the right prefix");
        assert_eq!(k.1 as usize, i, "prefixed keys are iterated in exact order");
        okays[k.1 as usize] = true;
    }
    assert!(okays.iter().all(|b| *b), "every key was iterated");

    Ok(())
}

#[test]
fn create_then_read() {
    let mut m = Mem::new();
    assert_eq!(m.cursor(), Ok(None));
    m.push(&create("did:a", "c.d", "k1", &[("x", ".p")]), 300).unwrap();
    assert_eq!(m.cursor(), Ok(Some(300)));
    assert_eq!(m.count("x", "c.d", ".p"), Ok(1));
    assert_eq!(m.count("x", "c.d", ".q"), Ok(0));
    let page = m.links("x", "c.d", ".p", 10, None).unwrap();
    assert_eq!(page.version, (1, 0));
    assert_eq!(page.items, vec![record("did:a", "c.d", "k1")]);
    assert_eq!(page.next, None);
}

#[test]
fn what_is_not_stored() {
    let mut m = Mem::new();
    assert_eq!(m.count("x", "c", ".p"), Ok(0));
    let page = m.links("x", "c", ".p", 10, Some(5)).unwrap();
    assert_eq!(page.version, (0, 0));
    assert!(page.items.is_empty());
    assert_eq!(page.next, None);
    assert_eq!(m.counts("x").unwrap().0 .0, vec![]);
    // these change nothing but the cursor
    m.push(&ActionableEvent::DeleteRecord(record("did:a", "c", "k")), 1).unwrap();
    m.push(&ActionableEvent::ActivateAccount(did("did:a")), 2).unwrap();
    m.push(&ActionableEvent::DeactivateAccount(did("did:a")), 3).unwrap();
    m.push(&ActionableEvent::DeleteAccount(did("did:a")), 4).unwrap();
    assert_eq!(m.rows.len(), 1);
    assert_eq!(m.cursor(), Ok(Some(4)));
}

#[test]
fn changes_of_a_first_record() {
    let mut m = Mem::new();
    let event = create("did:a", "c", "k", &[("x", ".p"), ("y", ".q")]);
    let batches = m.ask(|store, known| store.try_push(known, &event, 7)).unwrap();
    let put = |cf: Cf, key: Vec<u8>, value: Vec<u8>| BatchOp::Put { cf, key, value };
    let x_key = _rk(&TargetKey(Target("x".into()), Collection("c".into()), RPath(".p".into())));
    let y_key = _rk(&TargetKey(Target("y".into()), Collection("c".into()), RPath(".q".into())));
    let did_key = _rk(&did("did:a"));
    let linker = _rv(&TargetLinkers(vec![(DidId(2), RKey("k".into()))]));
    let expected = vec![
        put(Cf::Default, seq_row("did_ids"), 2u64.to_le_bytes().to_vec()),
        put(Cf::DidIds, did_key.clone(), vec![2, 1]),
        put(Cf::DidIds, 2u64.to_be_bytes().to_vec(), did_key),
        put(Cf::Default, seq_row("target_ids"), 2u64.to_le_bytes().to_vec()),
        put(Cf::TargetIds, x_key, vec![2]),
        BatchOp::Merge {
            cf: Cf::TargetLinks,
            key: vec![2],
            operand: linker.clone(),
        },
        put(Cf::Default, seq_row("target_ids"), 3u64.to_le_bytes().to_vec()),
        put(Cf::TargetIds, y_key, vec![3]),
        BatchOp::Merge {
            cf: Cf::TargetLinks,
            key: vec![3],
            operand: linker,
        },
        put(
            Cf::LinkTargets,
            vec![2, 1, b'c', 1, b'k'],
            vec![2, 2, b'.', b'p', 2, 2, b'.', b'q', 3],
        ),
        put(Cf::Default, b"jetstream_cursor".to_vec(), vec![7]),
    ];
    assert_eq!(batches, vec![Batch { ops: expected }]);
    assert_eq!(m.store.did_seq(), 2);
    assert_eq!(m.store.target_seq(), 3);
}

#[test]
fn changes_of_a_second_record() {
    let mut m = Mem::new();
    m.push(&create("did:a", "c", "k", &[("x", ".p")]), 1).unwrap();
    let event = create("did:a", "c", "l", &[("x", ".p")]);
    let batches = m.ask(|store, known| store.try_push(known, &event, 2)).unwrap();
    let expected = vec![
        // the row that leads from the id to the account is written again
        BatchOp::Put {
            cf: Cf::DidIds,
            key: 2u64.to_be_bytes().to_vec(),
            value: _rk(&did("did:a")),
        },
        BatchOp::Merge {
            cf: Cf::TargetLinks,
            key: vec![2],
            operand: _rv(&TargetLinkers(vec![(DidId(2), RKey("l".into()))])),
        },
        BatchOp::Put {
            cf: Cf::LinkTargets,
            key: vec![2, 1, b'c', 1, b'l'],
            value: vec![1, 2, b'.', b'p', 2],
        },
        BatchOp::Put {
            cf: Cf::Default,
            key: b"jetstream_cursor".to_vec(),
            value: vec![2],
        },
    ];
    assert_eq!(batches, vec![Batch { ops: expected }]);
}

#[test]
fn reads_are_asked_for_together() {
    let mut store = RocksStorage::new(true, None, true, None).unwrap();
    let known = Known::new();
    let event = create("did:a", "c", "k", &[("x", ".p"), ("y", ".q")]);
    match store.try_push(&known, &event, 0) {
        Err(Halt::Read(reads)) => {
            assert_eq!(reads.len(), 3);
            assert!(reads.contains(&Read::Row {
                cf: Cf::DidIds,
                key: _rk(&did("did:a")),
            }));
        }
        other => panic!("{other:?}"),
    }
    // nothing has changed
    assert_eq!(store.did_seq(), 1);
    assert_eq!(store.target_seq(), 1);
}

#[test]
fn newest_links_come_first() {
    let mut m = Mem::new();
    for i in 0..5 {
        m.push(&create("did:a", "c", &format!("k{i}"), &[("x", ".p")]), i).unwrap();
    }
    let page = m.links("x", "c", ".p", 2, None).unwrap();
    assert_eq!(page.version, (5, 0));
    assert_eq!(
        page.items,
        vec![record("did:a", "c", "k4"), record("did:a", "c", "k3")]
    );
    assert_eq!(page.next, Some(3));
}

#[test]
fn pages_cover_everything() {
    let mut m = Mem::new();
    for i in 0..7 {
        m.push(&create("did:a", "c", &format!("k{i}"), &[("x", ".p")]), i).unwrap();
    }
    let whole = m.links("x", "c", ".p", u64::MAX, None).unwrap();
    assert_eq!(whole.items.len(), 7);
    assert_eq!(whole.next, None);
    for (limit, calls) in [(1, 7), (2, 4), (3, 3), (6, 2), (7, 1), (8, 1)] {
        let pages = m.walk("x", "c", ".p", limit);
        assert_eq!(pages.len(), calls);
        assert!(pages.iter().all(|page| page.version == whole.version));
        let items: Vec<RecordId> = pages.into_iter().flat_map(|page| page.items).collect();
        assert_eq!(items, whole.items);
    }
    // there is always one page
    assert_eq!(m.walk("y", "c", ".p", 3).len(), 1);
}

#[test]
fn edges_of_pages() {
    let mut m = Mem::new();
    for i in 0..3 {
        m.push(&create("did:a", "c", &format!("k{i}"), &[("x", ".p")]), i).unwrap();
    }
    // beyond the end
    let page = m.links("x", "c", ".p", 1, Some(99)).unwrap();
    assert_eq!(page.items, vec![record("did:a", "c", "k2")]);
    assert_eq!(page.next, Some(2));
    // in the middle
    let page = m.links("x", "c", ".p", 1, Some(2)).unwrap();
    assert_eq!(page.items, vec![record("did:a", "c", "k1")]);
    assert_eq!(page.next, Some(1));
    // at the front
    let page = m.links("x", "c", ".p", 1, Some(0)).unwrap();
    assert!(page.items.is_empty());
    assert_eq!(page.next, None);
    // nothing at a time
    let page = m.links("x", "c", ".p", 0, None).unwrap();
    assert!(page.items.is_empty());
    assert_eq!(page.next, Some(3));
}

#[test]
fn removed_links_leave_their_place() {
    let mut m = Mem::new();
    for i in 0..3 {
        m.push(&create("did:a", "c", &format!("k{i}"), &[("x", ".p")]), i).unwrap();
    }
    m.push(&ActionableEvent::DeleteRecord(record("did:a", "c", "k1")), 9).unwrap();
    assert_eq!(m.count("x", "c", ".p"), Ok(2));
    let page = m.links("x", "c", ".p", 2, None).unwrap();
    assert_eq!(page.version, (3, 1));
    assert_eq!(page.items, vec![record("did:a", "c", "k2")]);
    assert_eq!(page.next, Some(1));
    // again: it is not there any more
    m.push(&ActionableEvent::DeleteRecord(record("did:a", "c", "k1")), 10).unwrap();
    assert_eq!(m.count("x", "c", ".p"), Ok(2));
}

#[test]
fn created_and_deleted_is_as_before() {
    let mut m = Mem::new();
    m.push(&create("did:b", "c", "other", &[("x", ".p")]), 1).unwrap();
    let before = m.links("x", "c", ".p", 10, None).unwrap();
    m.push(&create("did:a", "c", "k", &[("x", ".p"), ("y", ".q")]), 2).unwrap();
    assert_eq!(m.count("x", "c", ".p"), Ok(2));
    m.push(&ActionableEvent::DeleteRecord(record("did:a", "c", "k")), 3).unwrap();
    let after = m.links("x", "c", ".p", 10, None).unwrap();
    assert_eq!(after.items, before.items);
    assert_eq!(after.version, (2, 1));
    assert_eq!(m.count("x", "c", ".p"), Ok(1));
    assert_eq!(m.count("y", "c", ".q"), Ok(0));
}

#[test]
fn same_record_key_in_two_collections() {
    let mut m = Mem::new();
    m.push(&create("did:a", "c1", "k", &[("x", ".p")]), 1).unwrap();
    m.push(&create("did:a", "c2", "k", &[("x", ".p")]), 2).unwrap();
    m.push(&ActionableEvent::DeleteRecord(record("did:a", "c1", "k")), 3).unwrap();
    assert_eq!(m.count("x", "c1", ".p"), Ok(0));
    assert_eq!(m.count("x", "c2", ".p"), Ok(1));
}

#[test]
fn updated_links_replace_the_old_ones() {
    let mut m = Mem::new();
    m.push(&create("did:a", "c", "k", &[("x", ".p"), ("y", ".p")]), 1).unwrap();
    m.push(
        &ActionableEvent::UpdateLinks {
            record_id: record("did:a", "c", "k"),
            new_links: vec![link("y", ".p"), link("z", ".p")],
        },
        2,
    )
    .unwrap();
    assert_eq!(m.count("x", "c", ".p"), Ok(0));
    assert_eq!(m.count("y", "c", ".p"), Ok(1));
    assert_eq!(m.count("z", "c", ".p"), Ok(1));
    assert_eq!(m.links("y", "c", ".p", 9, None).unwrap().version, (2, 1));
    m.push(&ActionableEvent::DeleteRecord(record("did:a", "c", "k")), 3).unwrap();
    assert_eq!(m.count("y", "c", ".p"), Ok(0));
    assert_eq!(m.count("z", "c", ".p"), Ok(0));
    assert_eq!(m.links("x", "c", ".p", 9, None).unwrap().version, (1, 1));
}

#[test]
fn an_update_can_be_the_first_of_a_record() {
    let mut m = Mem::new();
    m.push(
        &ActionableEvent::UpdateLinks {
            record_id: record("did:a", "c", "k"),
            new_links: vec![link("x", ".p")],
        },
        2,
    )
    .unwrap();
    assert_eq!(m.count("x", "c", ".p"), Ok(1));
}

#[test]
fn the_same_link_twice() {
    let mut m = Mem::new();
    // a new target gets two ids, and the second is the one that is found
    m.push(&create("did:a", "c", "k", &[("x", ".p"), ("x", ".p")]), 1).unwrap();
    assert_eq!(m.count("x", "c", ".p"), Ok(1));
    assert_eq!(m.store.target_seq(), 3);
    // an old target counts twice, and loses one when the record goes
    m.push(&create("did:a", "c", "l", &[("x", ".p"), ("x", ".p")]), 2).unwrap();
    assert_eq!(m.count("x", "c", ".p"), Ok(3));
    m.push(&ActionableEvent::DeleteRecord(record("did:a", "c", "l")), 3).unwrap();
    assert_eq!(m.count("x", "c", ".p"), Ok(2));
    m.push(&ActionableEvent::DeleteRecord(record("did:a", "c", "k")), 4).unwrap();
    assert_eq!(m.count("x", "c", ".p"), Ok(1));
}

#[test]
fn the_same_record_twice() {
    let mut m = Mem::new();
    m.push(&create("did:a", "c", "k", &[("x", ".p")]), 1).unwrap();
    m.push(&create("did:a", "c", "k", &[("x", ".p")]), 2).unwrap();
    assert_eq!(m.count("x", "c", ".p"), Ok(2));
    m.push(&ActionableEvent::DeleteRecord(record("did:a", "c", "k")), 3).unwrap();
    assert_eq!(m.count("x", "c", ".p"), Ok(1));
}

#[test]
fn inactive_accounts_are_hidden_but_counted() {
    let mut m = Mem::new();
    m.push(&create("did:a", "c", "k", &[("x", ".p")]), 1).unwrap();
    m.push(&create("did:b", "c", "l", &[("x", ".p")]), 2).unwrap();
    let before = m.links("x", "c", ".p", 10, None).unwrap();
    m.push(&ActionableEvent::DeactivateAccount(did("did:a")), 3).unwrap();
    let page = m.links("x", "c", ".p", 10, None).unwrap();
    assert_eq!(page.items, vec![record("did:b", "c", "l")]);
    assert_eq!(page.version, before.version);
    assert_eq!(m.count("x", "c", ".p"), Ok(2));
    // what is behind a page does not depend on what it shows
    let page = m.links("x", "c", ".p", 1, None).unwrap();
    assert_eq!(page.next, Some(1));
    let page = m.links("x", "c", ".p", 1, Some(1)).unwrap();
    assert!(page.items.is_empty());
    assert_eq!(page.next, None);
    // links that come while it is inactive are hidden too
    m.push(&create("did:a", "c", "m", &[("x", ".p")]), 4).unwrap();
    assert_eq!(m.links("x", "c", ".p", 10, None).unwrap().items.len(), 1);
    m.push(&ActionableEvent::DeleteRecord(record("did:a", "c", "m")), 5).unwrap();
    m.push(&ActionableEvent::ActivateAccount(did("did:a")), 6).unwrap();
    assert_eq!(m.links("x", "c", ".p", 10, None).unwrap().items, before.items);
}

#[test]
fn deleted_accounts_take_their_links_along() {
    let mut m = Mem::new();
    m.push(&create("did:a", "c", "k", &[("x", ".p")]), 1).unwrap();
    m.push(&create("did:b", "c", "l", &[("x", ".p")]), 2).unwrap();
    m.push(&create("did:a", "d", "k", &[("y", ".q")]), 3).unwrap();
    m.push(&ActionableEvent::DeleteAccount(did("did:a")), 4).unwrap();
    assert_eq!(m.count("x", "c", ".p"), Ok(1));
    assert_eq!(m.count("y", "d", ".q"), Ok(0));
    let page = m.links("x", "c", ".p", 10, None).unwrap();
    assert_eq!(page.items, vec![record("did:b", "c", "l")]);
    assert_eq!(page.version, (2, 1));
    assert_eq!(m.cursor(), Ok(Some(4)));
    // the account can come back, as a new one
    m.push(&create("did:a", "c", "k", &[("x", ".p")]), 5).unwrap();
    assert_eq!(m.store.did_seq(), 4);
    assert_eq!(m.count("x", "c", ".p"), Ok(2));
}

#[test]
fn records_that_share_a_target_go_together() {
    let mut m = Mem::new();
    m.push(&create("did:a", "c", "k", &[("x", ".p")]), 1).unwrap();
    m.push(&create("did:a", "c", "l", &[("x", ".p"), ("x", ".p")]), 2).unwrap();
    m.push(&create("did:b", "c", "k", &[("x", ".p")]), 3).unwrap();
    assert_eq!(m.count("x", "c", ".p"), Ok(4));
    m.push(&ActionableEvent::DeleteAccount(did("did:a")), 4).unwrap();
    let gone = || (DidId(0), RKey(String::new()));
    let left = TargetLinkers(vec![gone(), gone(), gone(), (DidId(3), RKey("k".into()))]);
    assert_eq!(m.get(Cf::TargetLinks, &[2]), Some(_rv(&left)));
    assert_eq!(m.count("x", "c", ".p"), Ok(1));
    assert_eq!(m.links("x", "c", ".p", 9, None).unwrap().version, (4, 3));
    m.push(&ActionableEvent::DeleteAccount(did("did:b")), 5).unwrap();
    assert_eq!(m.count("x", "c", ".p"), Ok(0));
}

#[test]
fn an_update_is_a_deletion_and_a_creation() {
    let mut one = Mem::new();
    let mut two = Mem::new();
    for m in [&mut one, &mut two] {
        m.push(&create("did:a", "c", "k", &[("x", ".p"), ("y", ".p")]), 1).unwrap();
        m.push(&create("did:b", "c", "k", &[("y", ".p")]), 2).unwrap();
    }
    let links = [("y", ".p"), ("z", ".q")];
    one.push(
        &ActionableEvent::UpdateLinks {
            record_id: record("did:a", "c", "k"),
            new_links: links.iter().map(|(t, p)| link(t, p)).collect(),
        },
        4,
    )
    .unwrap();
    two.push(&ActionableEvent::DeleteRecord(record("did:a", "c", "k")), 3).unwrap();
    two.push(&create("did:a", "c", "k", &links), 4).unwrap();
    assert_eq!(one.rows, two.rows);
    assert_eq!(one.store.target_seq(), two.store.target_seq());
}

#[test]
fn ids_are_not_given_again() {
    let mut m = Mem::new();
    let id_of = |m: &Mem, d: &str| m.get(Cf::DidIds, &_rk(&did(d))).unwrap()[0];
    m.push(&create("did:a", "c", "k", &[("x", ".p")]), 1).unwrap();
    assert_eq!(id_of(&m, "did:a"), 2);
    m.push(&create("did:b", "c", "k", &[("x", ".p")]), 2).unwrap();
    assert_eq!(id_of(&m, "did:b"), 3);
    m.push(&ActionableEvent::DeleteAccount(did("did:b")), 3).unwrap();
    m.reopen();
    m.push(&create("did:b", "c", "k", &[("x", ".p")]), 4).unwrap();
    assert_eq!(id_of(&m, "did:b"), 5);
    assert_eq!(id_of(&m, "did:a"), 2);
    // a target that is stored keeps its id, and one that is not linked to gets none
    let x = TargetKey(Target("x".into()), Collection("c".into()), RPath(".p".into()));
    let y = TargetKey(Target("y".into()), Collection("c".into()), RPath(".p".into()));
    assert_eq!(m.get(Cf::TargetIds, &_rk(&x)), Some(vec![2]));
    assert_eq!(m.get(Cf::TargetIds, &_rk(&y)), None);
    m.push(&create("did:a", "c", "l", &[("y", ".p")]), 5).unwrap();
    assert_eq!(m.get(Cf::TargetIds, &_rk(&y)), Some(vec![4]));
}

#[test]
fn an_event_that_can_happen() {
    let mut m = Mem::new();
    let event = create("did:a", "c", "k", &[("x", ".p")]);
    let batches = m.ask(|store, known| store.push(known, &event, 1)).unwrap();
    assert_eq!(batches.len(), 1);
    for batch in batches {
        m.write(batch);
    }
    let mut batch = Batch::new();
    let removed = m.ask(|store, known| {
        store.remove_links(known, &record("did:a", "c", "k"), &mut batch)
    });
    assert_eq!(removed, Ok(()));
    assert_eq!(
        batch.ops,
        vec![
            BatchOp::Put {
                cf: Cf::TargetLinks,
                key: vec![2],
                value: vec![1, 0, 0],
            },
            BatchOp::Delete {
                cf: Cf::LinkTargets,
                key: vec![2, 1, b'c', 1, b'k'],
            },
        ]
    );
}

#[test]
fn changes_of_an_account_that_goes() {
    let mut m = Mem::new();
    m.push(&create("did:a", "c", "k", &[("x", ".p")]), 1).unwrap();
    let event = ActionableEvent::DeleteAccount(did("did:a"));
    let batches = m.ask(|store, known| store.try_push(known, &event, 5)).unwrap();
    assert_eq!(
        batches,
        vec![
            Batch {
                ops: vec![
                    BatchOp::Delete {
                        cf: Cf::LinkTargets,
                        key: vec![2, 1, b'c', 1, b'k'],
                    },
                    BatchOp::Put {
                        cf: Cf::TargetLinks,
                        key: vec![2],
                        value: vec![1, 0, 0],
                    },
                ],
            },
            Batch {
                ops: vec![
                    BatchOp::Delete {
                        cf: Cf::DidIds,
                        key: _rk(&did("did:a")),
                    },
                    BatchOp::Put {
                        cf: Cf::Default,
                        key: b"jetstream_cursor".to_vec(),
                        value: vec![5],
                    },
                ],
            },
        ]
    );
}

#[test]
fn accounts_go_in_chunks() {
    let mut m = Mem::new();
    for i in 0..1500 {
        let own = format!("own{i}");
        m.push(
            &create("did:a", "c", &format!("k{i}"), &[(own.as_str(), ".p"), ("shared", ".p")]),
            i,
        )
        .unwrap();
    }
    assert_eq!(m.count("shared", "c", ".p"), Ok(1500));
    let event = ActionableEvent::DeleteAccount(did("did:a"));
    let batches = m.ask(|store, known| store.try_push(known, &event, 5)).unwrap();
    assert_eq!(batches.len(), 3);
    assert_eq!(batches[0].ops.len(), 3 * 1024);
    assert_eq!(batches[1].ops.len(), 3 * 476);
    assert_eq!(batches[2].ops.len(), 2);
    for batch in batches {
        m.write(batch);
    }
    for i in [0, 1, 1023, 1024, 1499] {
        assert_eq!(m.count(&format!("own{i}"), "c", ".p"), Ok(0));
    }
    // the target that they share has lost all of them
    assert_eq!(m.count("shared", "c", ".p"), Ok(0));
    let page = m.links("shared", "c", ".p", 10, None).unwrap();
    assert_eq!(page.version, (1500, 1500));
    assert!(m.links("shared", "c", ".p", 10, None).unwrap().items.is_empty());
}

#[test]
fn counts_by_collection_and_path() {
    let mut m = Mem::new();
    m.push(&create("did:a", "c", "k", &[("x", ".p"), ("x", ".q")]), 1).unwrap();
    m.push(&create("did:b", "c", "k", &[("x", ".p")]), 2).unwrap();
    m.push(&create("did:b", "d", "k", &[("x", ".p"), ("xy", ".p")]), 3).unwrap();
    m.push(&ActionableEvent::DeleteRecord(record("did:b", "d", "k")), 4).unwrap();
    let counts = m.counts("x").unwrap();
    let flat: Vec<(String, Vec<(String, u64)>)> =
        counts.0 .0.into_iter().map(|(c, paths)| (c, paths.0)).collect();
    assert_eq!(
        flat,
        vec![
            (
                "c".to_string(),
                vec![(".p".to_string(), 2), (".q".to_string(), 1)]
            ),
            ("d".to_string(), vec![(".p".to_string(), 0)]),
        ]
    );
    assert_eq!(m.count("x", "c", ".p"), Ok(2));
    assert_eq!(m.count("x", "c", ".q"), Ok(1));
    assert_eq!(m.count("x", "d", ".p"), Ok(0));
    // a target that was never linked to has no collections at all
    assert!(m.counts("y").unwrap().0 .0.is_empty());
}

#[test]
fn numbers_under_names() {
    let mut counts = Counts::new();
    counts.insert("c".into(), "p".into(), 1);
    counts.insert("d".into(), "p".into(), 2);
    counts.insert("c".into(), "q".into(), 3);
    counts.insert("c".into(), "p".into(), 4);
    let flat: Vec<(String, Vec<(String, u64)>)> =
        counts.0 .0.into_iter().map(|(c, paths)| (c, paths.0)).collect();
    assert_eq!(
        flat,
        vec![
            (
                "c".to_string(),
                vec![("p".to_string(), 4), ("q".to_string(), 3)]
            ),
            ("d".to_string(), vec![("p".to_string(), 2)]),
        ]
    );
}

#[test]
fn a_store_goes_on_where_it_was() {
    let mut m = Mem::new();
    assert_eq!(m.store.did_seq(), 1);
    m.push(&create("did:a", "c", "k", &[("x", ".p")]), 1).unwrap();
    assert_eq!(m.store.did_seq(), 2);
    m.reopen();
    assert_eq!(m.store.did_seq(), 3);
    assert_eq!(m.store.target_seq(), 3);
    m.push(&create("did:b", "c", "k", &[("y", ".p")]), 2).unwrap();
    assert_eq!(m.store.did_seq(), 4);
    assert_eq!(m.get(Cf::DidIds, &_rk(&did("did:a"))), Some(vec![2, 1]));
    assert_eq!(m.get(Cf::DidIds, &_rk(&did("did:b"))), Some(vec![4, 1]));
    assert_eq!(m.count("x", "c", ".p"), Ok(1));
}

#[test]
fn stores_that_cannot_start() {
    let bad: &[u8] = &[1, 2];
    let full: &[u8] = &[255; 8];
    assert_eq!(
        RocksStorage::new(false, None, true, None).err(),
        Some(Error::NoColumnFamily)
    );
    assert_eq!(
        RocksStorage::new(true, Some(bad), false, None).err(),
        Some(Error::SequenceLength)
    );
    assert_eq!(
        RocksStorage::new(true, None, false, Some(bad)).err(),
        Some(Error::NoColumnFamily)
    );
    assert_eq!(
        RocksStorage::new(true, None, true, Some(full)).err(),
        Some(Error::SequenceExhausted)
    );
}

#[test]
fn copies_that_only_read() {
    let store = RocksStorage::new(true, None, true, None).unwrap();
    assert!(store.is_writer());
    let readable = store.to_readable();
    assert!(!readable.is_writer());
    assert_eq!(readable.did_seq(), 1);
    assert!(store.is_writer());
}

#[test]
fn ids_run_out() {
    let almost = (u64::MAX - 1).to_le_bytes();
    let mut m = Mem::new();
    m.store = RocksStorage::new(true, Some(&almost), true, None).unwrap();
    assert_eq!(
        m.push(&create("did:a", "c", "k", &[("x", ".p")]), 1),
        Err(Error::SequenceExhausted)
    );
    assert_eq!(m.store.did_seq(), u64::MAX);
    assert_eq!(m.store.target_seq(), 1);
    assert!(m.rows.is_empty());
    // the first target takes the last id, and there is none for the second
    let last = (u64::MAX - 2).to_le_bytes();
    m.store = RocksStorage::new(true, None, true, Some(&last)).unwrap();
    assert_eq!(
        m.push(&create("did:a", "c", "k", &[("x", ".p"), ("y", ".p")]), 1),
        Err(Error::SequenceExhausted)
    );
    assert_eq!(m.store.did_seq(), 1);
    assert_eq!(m.store.target_seq(), u64::MAX - 1);
}

#[test]
fn a_target_without_linkers() {
    let mut m = Mem::new();
    m.push(&create("did:a", "c", "k", &[("x", ".p")]), 1).unwrap();
    m.rows.remove(&("target_links", vec![2]));
    let event = ActionableEvent::DeleteRecord(record("did:a", "c", "k"));
    assert_eq!(m.push(&event, 2), Err(Error::EmptyTarget));
    let event = ActionableEvent::DeleteAccount(did("did:a"));
    assert_eq!(m.push(&event, 2), Err(Error::MissingLinker));
    assert_eq!(m.cursor(), Ok(Some(1)));
}

#[test]
fn a_target_without_the_linker() {
    let mut m = Mem::new();
    m.push(&create("did:a", "c", "k", &[("x", ".p")]), 1).unwrap();
    let other = _rv(&TargetLinkers(vec![(DidId(9), RKey("k".into()))]));
    m.rows.insert(("target_links", vec![2]), other);
    let event = ActionableEvent::DeleteRecord(record("did:a", "c", "k"));
    assert_eq!(m.push(&event, 2), Err(Error::MissingLinker));
    let event = ActionableEvent::DeleteAccount(did("did:a"));
    assert_eq!(m.push(&event, 2), Err(Error::MissingLinker));
    let event = ActionableEvent::UpdateLinks {
        record_id: record("did:a", "c", "k"),
        new_links: vec![],
    };
    assert_eq!(m.push(&event, 2), Err(Error::MissingLinker));
}

#[test]
fn rows_that_cannot_be_read() {
    let mut m = Mem::new();
    m.push(&create("did:a", "c", "k", &[("x", ".p")]), 1).unwrap();
    let good = m.rows.clone();

    m.rows.insert(("default", b"jetstream_cursor".to_vec()), vec![]);
    assert_eq!(m.cursor(), Err(Error::Codec));

    m.rows = good.clone();
    m.rows.insert(("did_ids", _rk(&did("did:a"))), vec![9]);
    assert_eq!(m.push(&create("did:a", "c", "l", &[]), 2), Err(Error::Codec));
    assert_eq!(
        m.push(&ActionableEvent::ActivateAccount(did("did:a")), 2),
        Err(Error::Codec)
    );
    assert_eq!(m.links("x", "c", ".p", 9, None).err(), Some(Error::Codec));
    assert_eq!(m.count("x", "c", ".p"), Ok(1));

    m.rows = good.clone();
    m.rows.insert(("did_ids", 2u64.to_be_bytes().to_vec()), vec![9]);
    assert_eq!(m.links("x", "c", ".p", 9, None).err(), Some(Error::Codec));

    m.rows = good.clone();
    m.rows.insert(("target_links", vec![2]), vec![9]);
    assert_eq!(m.count("x", "c", ".p"), Err(Error::Codec));
    assert_eq!(m.counts("x").err(), Some(Error::Codec));
    assert_eq!(
        m.push(&ActionableEvent::DeleteRecord(record("did:a", "c", "k")), 2),
        Err(Error::Codec)
    );

    m.rows = good.clone();
    m.rows.insert(("link_targets", vec![2, 1, b'c', 1, b'k']), vec![9]);
    assert_eq!(
        m.push(&ActionableEvent::DeleteRecord(record("did:a", "c", "k")), 2),
        Err(Error::Codec)
    );
    // records behind one that cannot be read are not seen
    assert_eq!(m.push(&ActionableEvent::DeleteAccount(did("did:a")), 2), Ok(()));
    assert_eq!(m.count("x", "c", ".p"), Ok(1));
}

#[test]
fn an_id_that_leads_nowhere() {
    let mut m = Mem::new();
    m.push(&create("did:a", "c", "k", &[("x", ".p")]), 1).unwrap();
    m.rows.remove(&("did_ids", 2u64.to_be_bytes().to_vec()));
    let page = m.links("x", "c", ".p", 9, None).unwrap();
    assert!(page.items.is_empty());
    assert_eq!(page.version, (1, 0));
}

#[test]
fn accounts_that_cannot_be_looked_up() {
    let mut m = Mem::new();
    let lost = |m: &mut Mem, limit: u64, until: Option<u64>| {
        m.ask(|store, known| store.get_links_lost(known, "x", "c", ".p", limit, until))
    };
    assert_eq!(lost(&mut m, 9, None), Ok(vec![]));
    for (i, d) in ["did:a", "did:b", "did:c", "did:d"].iter().enumerate() {
        m.push(&create(d, "c", "k", &[("x", ".p")]), i as u64).unwrap();
    }
    m.push(&ActionableEvent::DeactivateAccount(did("did:d")), 9).unwrap();
    assert_eq!(lost(&mut m, 9, None), Ok(vec![]));
    m.rows.remove(&("did_ids", 2u64.to_be_bytes().to_vec()));
    m.rows.remove(&("did_ids", _rk(&did("did:c"))));
    let no_did = || Lost::Did { did_id: DidId(2) };
    let no_value = || Lost::Value {
        did_id: DidId(4),
        did: did("did:c"),
    };
    assert_eq!(lost(&mut m, 9, None), Ok(vec![no_value(), no_did()]));
    assert_eq!(lost(&mut m, 3, None), Ok(vec![no_value()]));
    assert_eq!(lost(&mut m, 3, Some(2)), Ok(vec![no_did()]));
    let page = m.links("x", "c", ".p", 9, None).unwrap();
    assert_eq!(page.items, vec![record("did:b", "c", "k")]);
    // it stops where the page fails
    m.rows.insert(("did_ids", _rk(&did("did:b"))), vec![9]);
    assert_eq!(lost(&mut m, 9, None), Ok(vec![no_value()]));
    assert_eq!(m.links("x", "c", ".p", 9, None).err(), Some(Error::Codec));
    m.rows.insert(("target_links", vec![2]), vec![9]);
    assert_eq!(lost(&mut m, 9, None), Ok(vec![]));
}

#[test]
fn records_of_inactive_accounts() {
    let mut m = Mem::new();
    let r = record("did:a", "c", "k");
    let inactive = |m: &mut Mem| m.ask(|store, known| store.is_inactive(known, &r));
    assert_eq!(inactive(&mut m), Ok(false));
    m.push(&create("did:a", "c", "k", &[("x", ".p")]), 1).unwrap();
    assert_eq!(inactive(&mut m), Ok(false));
    m.push(&ActionableEvent::DeactivateAccount(did("did:a")), 2).unwrap();
    assert_eq!(inactive(&mut m), Ok(true));
    m.rows.insert(("did_ids", _rk(&did("did:a"))), vec![9]);
    assert_eq!(inactive(&mut m), Err(Error::Codec));
}

#[test]
fn reading_stops_at_what_cannot_be_read() {
    let mut m = Mem::new();
    let mut batch = Batch::new();
    batch.put_cf(Cf::DidIds, vec![2, 1], vec![]);
    batch.put_cf(Cf::DidIds, vec![2, 2], vec![7]);
    batch.put_cf(Cf::DidIds, vec![2, 3], vec![]);
    m.write(batch);
    let found = m.ask(|store, known| {
        store.prefix_iter_cf::<(u8, u8), (), u8>(known, Cf::DidIds, &2u8)
    });
    assert_eq!(found, Ok(vec![((2, 1), ())]));
}

#[test]
fn records_and_targets_by_prefix() {
    let mut m = Mem::new();
    m.push(&create("did:a", "c", "k", &[("x", ".p")]), 1).unwrap();
    m.push(&create("did:b", "c", "k", &[("x", ".q")]), 2).unwrap();
    m.push(&create("did:a", "b", "k", &[("xx", ".p")]), 3).unwrap();
    let records = m
        .ask(|store, known| store.iter_links_for_did_id(known, &DidId(2)))
        .unwrap();
    let keys: Vec<RecordLinkKey> = records.into_iter().map(|(k, _)| k).collect();
    assert_eq!(
        keys,
        vec![
            RecordLinkKey(DidId(2), Collection("b".into()), RKey("k".into())),
            RecordLinkKey(DidId(2), Collection("c".into()), RKey("k".into())),
        ]
    );
    let ids = m
        .ask(|store, known| store.iter_targets_for_target(known, &Target("x".into())))
        .unwrap();
    let ids: Vec<TargetId> = ids.into_iter().map(|(_, id)| id).collect();
    assert_eq!(ids, vec![TargetId(2), TargetId(3)]);
}

#[test]
fn accounts_that_share_an_id() {
    let mut m = Mem::new();
    for (d, id) in [("a", 5u64), ("b", 6), ("c", 5), ("d", 5)] {
        let value = _rv(&DidIdValue(DidId(id), true));
        m.rows.insert(("did_ids", _rk(&did(d))), value);
    }
    let notices = m
        .ask(|store, known| store.check_for_did_dups(known, &DidId(5)))
        .unwrap();
    let tried = m.ask(|store, known| store.try_check_for_did_dups(known, &DidId(5)));
    assert!(tried.unwrap().1);
    assert_eq!(
        notices,
        vec![
            Notice::Friend {
                did: did("a"),
                did_id: DidId(5),
            },
            Notice::Dup {
                is_problem: true,
                did_id: DidId(5),
                dids: vec![did("a")],
                did: did("c"),
            },
            Notice::Dup {
                is_problem: true,
                did_id: DidId(5),
                dids: vec![did("a"), did("c")],
                did: did("d"),
            },
        ]
    );
}

#[test]
fn rows_that_lead_back_are_not_accounts() {
    let mut m = Mem::new();
    m.push(&create("did:a", "c", "k", &[]), 1).unwrap();
    let (notices, complete) = m
        .ask(|store, known| store.try_check_for_did_dups(known, &DidId(2)))
        .unwrap();
    assert!(!complete);
    assert!(notices.is_empty());
    // what came before a row that is not that of an account has been seen
    m.rows.clear();
    for (d, id) in [("a", 2u64), ("b", 2)] {
        let value = _rv(&DidIdValue(DidId(id), true));
        m.rows.insert(("did_ids", _rk(&did(d))), value);
    }
    m.rows.insert(("did_ids", vec![9]), vec![]);
    let (notices, complete) = m
        .ask(|store, known| store.try_check_for_did_dups(known, &DidId(7)))
        .unwrap();
    assert!(!complete);
    assert_eq!(
        notices,
        vec![Notice::Dup {
            is_problem: false,
            did_id: DidId(2),
            dids: vec![did("a")],
            did: did("b"),
        }]
    );
}

#[test]
fn what_is_known_is_not_asked_for_again() {
    let mut store = RocksStorage::new(true, None, true, None).unwrap();
    let mut known = Known::new();
    let event = create("did:a", "c", "k", &[("x", ".p")]);
    known.learn_row(Cf::DidIds, _rk(&did("did:a")), None);
    let target = TargetKey(Target("x".into()), Collection("c".into()), RPath(".p".into()));
    match store.try_push(&known, &event, 0) {
        Err(Halt::Read(reads)) => assert_eq!(
            reads,
            vec![Read::Row {
                cf: Cf::TargetIds,
                key: _rk(&target),
            }]
        ),
        other => panic!("{other:?}"),
    }
    known.learn_row(Cf::TargetIds, _rk(&target), None);
    assert!(store.try_push(&known, &event, 0).is_ok());
}

#[test]
fn the_newest_fact_counts() {
    let store = RocksStorage::new(true, None, true, None).unwrap();
    let mut known = Known::new();
    let key = b"jetstream_cursor".to_vec();
    assert!(matches!(store.get_cursor(&known), Err(Halt::Read(_))));
    known.learn_row(Cf::Default, key.clone(), None);
    assert_eq!(store.get_cursor(&known), Ok(None));
    known.learn_row(Cf::Default, key.clone(), Some(vec![5]));
    assert_eq!(store.get_cursor(&known), Ok(Some(5)));
    known.learn_rows(Cf::LinkTargets, vec![9], vec![]);
    assert!(known.rows(Cf::LinkTargets, &[9]).is_some());
    assert!(known.rows(Cf::LinkTargets, &[8]).is_none());
    assert!(known.row(Cf::DidIds, &key).is_none());
}

#[test]
fn nothing_fails_over_a_long_history() {
    let mut m = Mem::new();
    let mut state: u64 = 12345;
    let mut next = |n: u64| {
        state = state.wrapping_mul(6364136223846793005).wrapping_add(1442695040888963407);
        (state >> 33) % n
    };
    let dids = ["did:a", "did:b", "did:c"];
    let collections = ["c", "d"];
    let rkeys = ["k", "l", "m"];
    let targets = ["x", "y", "xy"];
    let paths = [".p", ".q"];
    for cursor in 0..1500 {
        let d = dids[next(3) as usize];
        let r = record(d, collections[next(2) as usize], rkeys[next(3) as usize]);
        let links: Vec<CollectedLink> = (0..next(4))
            .map(|_| link(targets[next(3) as usize], paths[next(2) as usize]))
            .collect();
        let event = match next(12) {
            0..=3 => ActionableEvent::CreateLinks {
                record_id: r,
                links,
            },
            4..=6 => ActionableEvent::UpdateLinks {
                record_id: r,
                new_links: links,
            },
            7..=8 => ActionableEvent::DeleteRecord(r),
            9 => ActionableEvent::ActivateAccount(did(d)),
            10 => ActionableEvent::DeactivateAccount(did(d)),
            _ => ActionableEvent::DeleteAccount(did(d)),
        };
        assert_eq!(m.push(&event, cursor), Ok(()), "{event:?}");
        if next(50) == 0 {
            m.reopen();
        }
        assert_eq!(m.cursor(), Ok(Some(cursor)));
    }
    for target in targets {
        let counts = m.counts(target).unwrap();
        for (collection, by_path) in &counts.0 .0 {
            for (path, n) in &by_path.0 {
                assert_eq!(m.count(target, collection, path), Ok(*n));
                let page = m.links(target, collection, path, u64::MAX, None).unwrap();
                assert_eq!(page.version.0 - page.version.1, *n);
                assert!(page.items.len() as u64 <= *n);
            }
        }
    }
}
