//! What is read of a database that is in order.
use crate::db::Db;
use crate::error::Error;
use crate::laws::accounts::switched;
use crate::laws::consistency::{consistent, in_order, linkers_given};
use crate::laws::creating::linkers_to;
use crate::laws::keys::id_limit;
use crate::laws::merging::law_alive_at_most;
use crate::laws::rows::next_did;
use crate::linkers::alive;
use crate::model::{
    count_of, did_of_id, did_value, linkers_of, page_begin, page_end, page_of, shown, shown_all,
    target_id, Page,
};
use crate::records::{Did, Linker, Stored, TargetKey, Text};
use crate::storage::notices::lost_all;
use vstd::arithmetic::div_mod::{lemma_div_plus_one, lemma_fundamental_div_mod_converse};
use vstd::prelude::*;

verus! {

/// Whether an account is stored and active.
pub open spec fn is_active(db: Db, did: Text) -> bool {
    did_value(db, did) matches Ok(Some((_, true)))
}

/// The linkers of a target can be read, and are in order.
pub proof fn lemma_linkers_to(db: Db, key: (Text, Text, Text))
    requires
        consistent(db),
        TargetKey::fits(key),
    ensures
        target_id(db, key) is Ok,
        target_id(db, key) matches Ok(Some(id)) ==> linkers_of(db, id) == Ok::<Seq<Linker>, Error>(
            linkers_to(db, key),
        ),
        linkers_to(db, key).len() <= u64::MAX,
        linkers_given(linkers_to(db, key), next_did(db)->Ok_0),
        next_did(db)->Ok_0 <= id_limit(),
{
    let own = choose|own: Map<u64, Text>| in_order(db, own);
    assert(target_id(db, key) is Ok);
    if let Ok(Some(id)) = target_id(db, key) {
        assert(linkers_of(db, id) is Ok);
    }
}

/// A count is the number of links among the linkers of the target. It can always be read.
pub proof fn law_count(db: Db, key: (Text, Text, Text))
    requires
        consistent(db),
        TargetKey::fits(key),
    ensures
        count_of(db, key) is Ok,
        count_of(db, key)->Ok_0 == alive(linkers_to(db, key)),
{
    lemma_linkers_to(db, key);
    law_alive_at_most(linkers_to(db, key));
    assert(alive(Seq::<Linker>::empty()) == 0) by {
        law_alive_at_most(Seq::empty());
    }
}

/// Whether an entry is to be shown can always be told.
proof fn lemma_shown(db: Db, collection: Text, linker: Linker)
    requires
        consistent(db),
        linker.0 < id_limit(),
    ensures
        shown(db, collection, linker) is Ok,
        shown(db, collection, linker)->Ok_0 matches Some(record) ==> {
            &&& record.1 == collection
            &&& record.2 == linker.1
            &&& is_active(db, record.0)
            &&& Did::fits(record.0)
            &&& did_of_id(db, linker.0) == Ok::<Option<Text>, Error>(Some(record.0))
        },
{
    let own = choose|own: Map<u64, Text>| in_order(db, own);
    assert(did_of_id(db, linker.0) is Ok);
    if let Ok(Some(did)) = did_of_id(db, linker.0) {
        assert(did_value(db, did) is Ok);
    }
}

/// What is shown of linkers is shown of the newer ones first.
pub proof fn lemma_shown_all_concat(db: Db, collection: Text, a: Seq<Linker>, b: Seq<Linker>)
    requires
        shown_all(db, collection, a) is Ok,
        shown_all(db, collection, b) is Ok,
    ensures
        shown_all(db, collection, a + b) == Ok::<Seq<(Text, Text, Text)>, Error>(
            shown_all(db, collection, b)->Ok_0 + shown_all(db, collection, a)->Ok_0,
        ),
    decreases a.len(),
{
    if a.len() == 0 {
        assert(a + b =~= b);
        assert(shown_all(db, collection, b)->Ok_0 + Seq::<(Text, Text, Text)>::empty() =~= shown_all(
            db,
            collection,
            b,
        )->Ok_0);
    } else {
        assert((a + b).skip(1) =~= a.skip(1) + b);
        assert((a + b)[0] == a[0]);
        lemma_shown_all_concat(db, collection, a.skip(1), b);
        let newer = shown_all(db, collection, a.skip(1))->Ok_0;
        let newest = shown_all(db, collection, b)->Ok_0;
        if let Ok(Some(record)) = shown(db, collection, a[0]) {
            assert((newest + newer).push(record) =~= newest + newer.push(record));
        }
    }
}

/// What is to be shown of linkers can always be told.
pub proof fn lemma_shown_all(db: Db, collection: Text, linkers: Seq<Linker>)
    requires
        consistent(db),
        linkers_given(linkers, id_limit()),
    ensures
        shown_all(db, collection, linkers) is Ok,
        forall|i: int|
            0 <= i < shown_all(db, collection, linkers)->Ok_0.len() ==> is_active(
                db,
                (#[trigger] shown_all(db, collection, linkers)->Ok_0[i]).0,
            ) && shown_all(db, collection, linkers)->Ok_0[i].1 == collection,
        shown_all(db, collection, linkers)->Ok_0.len() <= linkers.len(),
    decreases linkers.len(),
{
    if linkers.len() > 0 {
        let tail = linkers.skip(1);
        assert forall|i: int| 0 <= i < tail.len() implies (#[trigger] tail[i]).0 < id_limit() by {
            assert(tail[i] == linkers[i + 1]);
        }
        lemma_shown_all(db, collection, tail);
        lemma_shown(db, collection, linkers[0]);
    }
}

/// The part of the linkers of a target that a page is about.
pub open spec fn page_part(
    db: Db,
    key: (Text, Text, Text),
    limit: u64,
    until: Option<u64>,
) -> Seq<Linker> {
    let linkers = linkers_to(db, key);
    let end = page_end(linkers.len() as u64, until);
    linkers.subrange(page_begin(end, limit) as int, end as int)
}

/// A page can always be read. It tells how many entries the linkers of the target have and how
/// many of them are empty, so that the others are as many as the count; it has at most `limit`
/// records, all of active accounts and of the collection that was asked for; and it tells where the
/// entries before it end.
pub proof fn law_page(db: Db, key: (Text, Text, Text), limit: u64, until: Option<u64>)
    requires
        consistent(db),
        TargetKey::fits(key),
    ensures
        ({
            let page = page_of(db, key, limit, until);
            let linkers = linkers_to(db, key);
            let end = page_end(linkers.len() as u64, until);
            let begin = page_begin(end, limit);
            &&& page is Ok
            &&& page->Ok_0.version.0 == linkers.len()
            &&& page->Ok_0.version.1 == linkers.len() - alive(linkers)
            &&& count_of(db, key)->Ok_0 == page->Ok_0.version.0 - page->Ok_0.version.1
            &&& shown_all(db, key.1, page_part(db, key, limit, until)) == Ok::<
                Seq<(Text, Text, Text)>,
                Error,
            >(page->Ok_0.items)
            &&& page->Ok_0.items.len() <= limit
            &&& forall|i: int|
                0 <= i < page->Ok_0.items.len() ==> is_active(
                    db,
                    (#[trigger] page->Ok_0.items[i]).0,
                ) && page->Ok_0.items[i].1 == key.1
            &&& page->Ok_0.next == if begin == 0 {
                None
            } else {
                Some(begin)
            }
        }),
{
    lemma_linkers_to(db, key);
    law_count(db, key);
    let linkers = linkers_to(db, key);
    law_alive_at_most(linkers);
    let part = page_part(db, key, limit, until);
    lemma_page_part(db, key, limit, until);
    lemma_shown_all(db, key.1, part);
    if target_id(db, key)->Ok_0 is None {
        assert(linkers =~= Seq::empty());
        assert(part =~= Seq::empty());
        assert(alive(linkers) == 0);
    }
}

/// Where a page says that there is more, the page before it begins where this one ends, so that
/// pages read one after the other show what one page of everything would show. Where it does not,
/// there is nothing more.
pub proof fn law_pages_cover(db: Db, key: (Text, Text, Text), limit: u64, until: Option<u64>)
    requires
        consistent(db),
        TargetKey::fits(key),
    ensures
        ({
            let page = page_of(db, key, limit, until)->Ok_0;
            let whole = page_of(db, key, u64::MAX, until)->Ok_0;
            match page.next {
                None => whole.items == page.items,
                Some(n) => whole.items == page.items + page_of(
                    db,
                    key,
                    u64::MAX,
                    Some(n),
                )->Ok_0.items,
            }
        }),
        ({
            let page = page_of(db, key, limit, until)->Ok_0;
            page.next matches Some(n) ==> (limit > 0 ==> n < page_end(
                linkers_to(db, key).len() as u64,
                until,
            ))
        }),
{
    law_page(db, key, limit, until);
    law_page(db, key, u64::MAX, until);
    lemma_linkers_to(db, key);
    let linkers = linkers_to(db, key);
    let end = page_end(linkers.len() as u64, until);
    let begin = page_begin(end, limit);
    let part = page_part(db, key, limit, until);
    let whole = page_part(db, key, u64::MAX, until);
    assert(page_begin(end, u64::MAX) == 0);
    if begin == 0 {
        assert(whole =~= part);
    } else {
        law_page(db, key, u64::MAX, Some(begin));
        let rest = page_part(db, key, u64::MAX, Some(begin));
        assert(page_end(linkers.len() as u64, Some(begin)) == begin);
        assert(page_begin(begin, u64::MAX) == 0);
        assert(whole =~= rest + part);
        lemma_shown_all_concat(db, key.1, rest, part);
    }
}

/// A page that can be read.
#[verifier::opaque]
pub open spec fn page_at(db: Db, key: (Text, Text, Text), limit: u64, until: Option<u64>) -> Page {
    page_of(db, key, limit, until)->Ok_0
}

/// The pages of a target that are read one after the other: each from where the one before it says
/// that there is more, and no more than `most` of them.
pub open spec fn walk(
    db: Db,
    key: (Text, Text, Text),
    limit: u64,
    until: Option<u64>,
    most: nat,
) -> Seq<Page>
    decreases most,
{
    if most == 0 {
        Seq::empty()
    } else {
        let page = page_at(db, key, limit, until);
        match page.next {
            None => seq![page],
            Some(n) => seq![page] + walk(db, key, limit, Some(n), (most - 1) as nat),
        }
    }
}

/// The records of pages, one page after the other.
pub open spec fn joined(pages: Seq<Page>) -> Seq<(Text, Text, Text)>
    decreases pages.len(),
{
    if pages.len() == 0 {
        Seq::empty()
    } else {
        pages[0].items + joined(pages.skip(1))
    }
}

/// How many pages of up to `limit` entries it takes to show `len` entries. There is always one.
#[verifier::opaque]
pub open spec fn page_count(len: nat, limit: nat) -> nat {
    if len == 0 {
        1
    } else {
        ((len + limit - 1) / limit as int) as nat
    }
}

/// One page less is left behind each page.
proof fn lemma_page_count(len: nat, limit: nat)
    requires
        limit >= 1,
    ensures
        len <= limit ==> page_count(len, limit) == 1,
        len > limit ==> page_count(len, limit) == page_count((len - limit) as nat, limit) + 1,
{
    reveal(page_count);
    if 0 < len <= limit {
        lemma_fundamental_div_mod_converse(len + limit - 1, limit as int, 1, len - 1);
    }
    if len > limit {
        lemma_div_plus_one(len - 1, limit as int);
    }
}

/// Whoever reads a target page by page comes to an end after as many pages as its entries take,
/// sees what one page of everything would show, each record in its place, and sees the same version
/// on every page.
pub proof fn law_walk(
    db: Db,
    key: (Text, Text, Text),
    limit: u64,
    until: Option<u64>,
    most: nat,
)
    requires
        consistent(db),
        TargetKey::fits(key),
        limit >= 1,
        most >= page_count(page_end(linkers_to(db, key).len() as u64, until) as nat, limit as nat),
    ensures
        ({
            let pages = walk(db, key, limit, until, most);
            let whole = page_of(db, key, u64::MAX, until)->Ok_0;
            &&& pages.len() == page_count(
                page_end(linkers_to(db, key).len() as u64, until) as nat,
                limit as nat,
            )
            &&& pages.last().next is None
            &&& joined(pages) == whole.items
            &&& forall|i: int|
                0 <= i < pages.len() ==> (#[trigger] pages[i]).version == whole.version
        }),
    decreases most,
{
    reveal(page_at);
    lemma_walk(db, key, limit, until, most);
}

proof fn lemma_walk(db: Db, key: (Text, Text, Text), limit: u64, until: Option<u64>, most: nat)
    requires
        consistent(db),
        TargetKey::fits(key),
        limit >= 1,
        most >= page_count(page_end(linkers_to(db, key).len() as u64, until) as nat, limit as nat),
    ensures
        ({
            let pages = walk(db, key, limit, until, most);
            let whole = page_at(db, key, u64::MAX, until);
            &&& pages.len() == page_count(
                page_end(linkers_to(db, key).len() as u64, until) as nat,
                limit as nat,
            )
            &&& pages.last().next is None
            &&& joined(pages) == whole.items
            &&& forall|i: int|
                0 <= i < pages.len() ==> (#[trigger] pages[i]).version == whole.version
        }),
    decreases most,
{
    let end = page_end(linkers_to(db, key).len() as u64, until);
    lemma_page_count(end as nat, limit as nat);
    lemma_page_at(db, key, limit, until);
    let page = page_at(db, key, limit, until);
    let whole = page_at(db, key, u64::MAX, until);
    assert(most >= 1);
    let pages = walk(db, key, limit, until, most);
    match page.next {
        None => {
            assert(pages == seq![page]);
            lemma_walk_end(page, whole);
        },
        Some(n) => {
            let less = (most - 1) as nat;
            assert(pages == seq![page] + walk(db, key, limit, Some(n), less));
            assert(page_end(linkers_to(db, key).len() as u64, Some(n)) == n);
            lemma_page_count(n as nat, limit as nat);
            lemma_walk(db, key, limit, Some(n), less);
            lemma_walk_on(
                page,
                walk(db, key, limit, Some(n), less),
                whole,
                page_at(db, key, u64::MAX, Some(n)),
            );
        },
    }
}

/// A page with nothing behind it is the whole.
proof fn lemma_walk_end(page: Page, whole: Page)
    requires
        whole.items == page.items,
        whole.version == page.version,
    ensures
        joined(seq![page]) == whole.items,
        forall|i: int| 0 <= i < 1 ==> (#[trigger] seq![page][i]).version == whole.version,
        seq![page].last() == page,
{
    assert(seq![page].skip(1) =~= Seq::empty());
    assert(joined(seq![page].skip(1)) =~= Seq::empty());
    assert(joined(seq![page]) =~= page.items);
}

/// A page and those behind it are the whole.
proof fn lemma_walk_on(page: Page, rest: Seq<Page>, whole: Page, behind: Page)
    requires
        rest.len() > 0,
        whole.items == page.items + behind.items,
        whole.version == page.version,
        behind.version == page.version,
        joined(rest) == behind.items,
        forall|i: int| 0 <= i < rest.len() ==> (#[trigger] rest[i]).version == behind.version,
    ensures
        joined(seq![page] + rest) == whole.items,
        (seq![page] + rest).last() == rest.last(),
        forall|i: int|
            0 <= i < rest.len() + 1 ==> (#[trigger] (seq![page] + rest)[i]).version
                == whole.version,
{
    let pages = seq![page] + rest;
    assert(pages.skip(1) =~= rest);
    assert forall|i: int| 0 <= i < rest.len() + 1 implies (#[trigger] pages[i]).version
        == whole.version by {
        if i > 0 {
            assert(pages[i] == rest[i - 1]);
        }
    }
}

/// What a page tells of what is behind it, and of its version.
proof fn lemma_page_at(db: Db, key: (Text, Text, Text), limit: u64, until: Option<u64>)
    requires
        consistent(db),
        TargetKey::fits(key),
    ensures
        linkers_to(db, key).len() <= u64::MAX,
        ({
            let begin = page_begin(page_end(linkers_to(db, key).len() as u64, until), limit);
            let page = page_at(db, key, limit, until);
            let whole = page_at(db, key, u64::MAX, until);
            &&& page.next == if begin == 0 {
                None
            } else {
                Some(begin)
            }
            &&& whole.version == page.version
            &&& begin == 0 ==> whole.items == page.items
            &&& begin > 0 ==> {
                let behind = page_at(db, key, u64::MAX, Some(begin));
                &&& whole.items == page.items + behind.items
                &&& behind.version == page.version
            }
        }),
{
    reveal(page_at);
    let begin = page_begin(page_end(linkers_to(db, key).len() as u64, until), limit);
    lemma_linkers_to(db, key);
    law_page(db, key, limit, until);
    law_page(db, key, u64::MAX, until);
    law_page(db, key, u64::MAX, Some(begin));
    law_pages_cover(db, key, limit, until);
}

/// An entry that stands last among the linkers of a target, and whose account is stored under its
/// id and active, is what a page shows first.
pub proof fn law_newest_first(
    db: Db,
    key: (Text, Text, Text),
    limit: u64,
    did: Text,
)
    requires
        consistent(db),
        TargetKey::fits(key),
        limit > 0,
        linkers_to(db, key).len() > 0,
        linkers_to(db, key).last().0 != 0,
        did_of_id(db, linkers_to(db, key).last().0) == Ok::<Option<Text>, Error>(Some(did)),
        is_active(db, did),
    ensures
        page_of(db, key, limit, None)->Ok_0.items.len() > 0,
        page_of(db, key, limit, None)->Ok_0.items[0] == (
            did,
            key.1,
            linkers_to(db, key).last().1,
        ),
{
    law_page(db, key, limit, None);
    lemma_linkers_to(db, key);
    let linkers = linkers_to(db, key);
    let part = page_part(db, key, limit, None);
    let x = linkers.last();
    assert(part.last() == x);
    let front = part.drop_last();
    let begin = page_begin(linkers.len() as u64, limit);
    assert(linkers_given(front, id_limit())) by {
        assert forall|i: int| 0 <= i < front.len() implies (#[trigger] front[i]).0 < id_limit() by {
            assert(front[i] == linkers[begin + i]);
        }
    }
    lemma_shown_all(db, key.1, front);
    assert(part =~= front + seq![x]);
    assert(seq![x].skip(1) =~= Seq::empty());
    assert(shown_all(db, key.1, Seq::<Linker>::empty()) == Ok::<Seq<(Text, Text, Text)>, Error>(
        Seq::empty(),
    ));
    let record = (did, key.1, x.1);
    assert(shown(db, key.1, x) == Ok::<Option<(Text, Text, Text)>, Error>(Some(record)));
    assert(shown_all(db, key.1, seq![x]) == Ok::<Seq<(Text, Text, Text)>, Error>(
        Seq::<(Text, Text, Text)>::empty().push(record),
    ));
    lemma_shown_all_concat(db, key.1, front, seq![x]);
}

/// What is shown of linkers only depends on the accounts.
pub proof fn lemma_shown_all_same(a: Db, b: Db, collection: Text, linkers: Seq<Linker>)
    requires
        consistent(a),
        linkers_given(linkers, id_limit()),
        forall|did: Text| Did::fits(did) ==> #[trigger] did_value(b, did) == did_value(a, did),
        forall|id: u64| id < id_limit() ==> #[trigger] did_of_id(b, id) == did_of_id(a, id),
    ensures
        shown_all(b, collection, linkers) == shown_all(a, collection, linkers),
    decreases linkers.len(),
{
    if linkers.len() > 0 {
        let tail = linkers.skip(1);
        assert forall|i: int| 0 <= i < tail.len() implies (#[trigger] tail[i]).0 < id_limit() by {
            assert(tail[i] == linkers[i + 1]);
        }
        lemma_shown_all_same(a, b, collection, tail);
        let own = choose|own: Map<u64, Text>| in_order(a, own);
        let id = linkers[0].0;
        assert(did_of_id(b, id) == did_of_id(a, id));
        if let Ok(Some(did)) = did_of_id(a, id) {
            assert(did_value(b, did) == did_value(a, did));
        }
    }
}

/// Whether a record is of another account.
pub open spec fn of_others(did: Text) -> spec_fn((Text, Text, Text)) -> bool {
    |record: (Text, Text, Text)| record.0 != did
}

/// What is shown of linkers once an account is not active is what was shown, without the records
/// of the account.
proof fn lemma_shown_all_without(
    db: Db,
    did: Text,
    after: Db,
    collection: Text,
    linkers: Seq<Linker>,
)
    requires
        consistent(db),
        linkers_given(linkers, id_limit()),
        Did::fits(did),
        switched(db, did, false, after),
    ensures
        shown_all(after, collection, linkers) == Ok::<Seq<(Text, Text, Text)>, Error>(
            shown_all(db, collection, linkers)->Ok_0.filter(of_others(did)),
        ),
    decreases linkers.len(),
{
    reveal(Seq::filter);
    if linkers.len() > 0 {
        let tail = linkers.skip(1);
        assert forall|i: int| 0 <= i < tail.len() implies (#[trigger] tail[i]).0 < id_limit() by {
            assert(tail[i] == linkers[i + 1]);
        }
        lemma_shown_all_without(db, did, after, collection, tail);
        lemma_shown_all(db, collection, tail);
        let newer = shown_all(db, collection, tail)->Ok_0;
        let own = choose|own: Map<u64, Text>| in_order(db, own);
        let id = linkers[0].0;
        assert(did_of_id(after, id) == did_of_id(db, id));
        if let Ok(Some(other)) = did_of_id(db, id) {
            assert(did_value(db, other) is Ok);
        }
        if let Ok(Some(record)) = shown(db, collection, linkers[0]) {
            assert(newer.push(record).drop_last() =~= newer);
            assert(newer.push(record).last() == record);
        }
    } else {
        assert(Seq::<(Text, Text, Text)>::empty().filter(of_others(did)) =~= Seq::empty());
    }
}

/// An account that is not active is on no page: a page is what it was without the records of the
/// account, in the same order, and what is behind it is the same. The links of the account count as
/// before.
pub proof fn law_deactivated(
    db: Db,
    did: Text,
    after: Db,
    key: (Text, Text, Text),
    limit: u64,
    until: Option<u64>,
)
    requires
        consistent(db),
        consistent(after),
        Did::fits(did),
        TargetKey::fits(key),
        switched(db, did, false, after),
    ensures
        count_of(after, key) == count_of(db, key),
        ({
            let old = page_of(db, key, limit, until);
            let new = page_of(after, key, limit, until);
            &&& old is Ok
            &&& new is Ok
            &&& new->Ok_0.version == old->Ok_0.version
            &&& new->Ok_0.next == old->Ok_0.next
            &&& new->Ok_0.items == old->Ok_0.items.filter(of_others(did))
            &&& forall|i: int|
                0 <= i < new->Ok_0.items.len() ==> (#[trigger] new->Ok_0.items[i]).0 != did
        }),
{
    lemma_linkers_to_switched(db, did, false, after, key);
    law_count(db, key);
    law_count(after, key);
    law_page(db, key, limit, until);
    law_page(after, key, limit, until);
    lemma_page_part(db, key, limit, until);
    lemma_shown_all_without(db, did, after, key.1, page_part(db, key, limit, until));
    assert(!is_active(after, did));
}

/// The part of the linkers of a target that a page is about names accounts whose ids were given
/// out.
pub proof fn lemma_page_part(db: Db, key: (Text, Text, Text), limit: u64, until: Option<u64>)
    requires
        consistent(db),
        TargetKey::fits(key),
    ensures
        linkers_given(page_part(db, key, limit, until), id_limit()),
{
    lemma_linkers_to(db, key);
    let linkers = linkers_to(db, key);
    let end = page_end(linkers.len() as u64, until);
    let begin = page_begin(end, limit);
    let part = page_part(db, key, limit, until);
    assert forall|i: int| 0 <= i < part.len() implies (#[trigger] part[i]).0 < id_limit() by {
        assert(part[i] == linkers[begin + i]);
    }
}

proof fn lemma_linkers_to_switched(
    db: Db,
    did: Text,
    active: bool,
    after: Db,
    key: (Text, Text, Text),
)
    requires
        switched(db, did, active, after),
    ensures
        linkers_to(after, key) == linkers_to(db, key),
{
    assert(target_id(after, key) == target_id(db, key));
    if let Ok(Some(id)) = target_id(db, key) {
        assert(linkers_of(after, id) == linkers_of(db, id));
    }
}

/// An account that was active, became inactive and active again has all its links shown as if
/// nothing had happened.
pub proof fn law_reactivated(
    db: Db,
    did: Text,
    between: Db,
    after: Db,
    key: (Text, Text, Text),
    limit: u64,
    until: Option<u64>,
)
    requires
        consistent(db),
        consistent(between),
        consistent(after),
        Did::fits(did),
        TargetKey::fits(key),
        is_active(db, did),
        switched(db, did, false, between),
        switched(between, did, true, after),
    ensures
        page_of(after, key, limit, until) == page_of(db, key, limit, until),
        count_of(after, key) == count_of(db, key),
{
    lemma_linkers_to_switched(db, did, false, between, key);
    lemma_linkers_to_switched(between, did, true, after, key);
    law_count(db, key);
    law_count(after, key);
    law_page(db, key, limit, until);
    law_page(after, key, limit, until);
    lemma_linkers_to(db, key);
    assert forall|other: Text| Did::fits(other) implies #[trigger] did_value(after, other)
        == did_value(db, other) by {
        if other != did {
            assert(did_value(after, other) == did_value(between, other));
        }
    }
    assert forall|id: u64| id < id_limit() implies #[trigger] did_of_id(after, id) == did_of_id(
        db,
        id,
    ) by {
        assert(did_of_id(after, id) == did_of_id(between, id));
    }
    let part = page_part(db, key, limit, until);
    lemma_page_part(db, key, limit, until);
    lemma_shown_all_same(db, after, key.1, part);
}

/// What is lost behind linkers is noticed up to where showing them fails: all of it where they can
/// be shown.
pub proof fn law_lost_all(db: Db, collection: Text, linkers: Seq<Linker>)
    ensures
        lost_all(db, linkers).1 <==> shown_all(db, collection, linkers) is Ok,
    decreases linkers.len(),
{
    if linkers.len() > 0 {
        law_lost_all(db, collection, linkers.skip(1));
    }
}

}
