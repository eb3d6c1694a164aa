//! What answers say, in numbers and entries.
use crate::counts::Counts;
use crate::db::{row, Cf, Db};
use crate::error::Error;
use crate::events::{PagedAppendingCollection, RecordId};
use crate::laws::asking::lemma_linkers_len;
use crate::laws::consistency::{consistent, in_order};
use crate::laws::counting::{law_all_counts, law_all_counts_linked, law_number_stored, number};
use crate::laws::merging::{law_alive_at_most, law_alive_push};
use crate::laws::shapes::law_counts_parts;
use crate::linkers::alive;
use crate::model::{
    all_counts, count_of, cursor_of, did_of_id, did_value, linkers_of, page_begin, page_end,
    page_of, shown, shown_all, target_id, Page,
};
use crate::records::{Linker, Stored, Text};
use crate::storage::notices::{lost_all, page_lost, LostView};
use crate::storage::reader::page_view;
use vstd::prelude::*;
use vstd::utf8::encode_utf8;

verus! {

// ---------------------------------------------------------------------------------------------
// counts

/// A count is the number of entries among the linkers of the target that have an account. A target
/// that is not stored has none.
pub proof fn law_count_answer(db: Db, key: (Text, Text, Text))
    ensures
        match target_id(db, key) {
            Err(e) => count_of(db, key) == Err::<u64, Error>(e),
            Ok(None) => count_of(db, key) == Ok::<u64, Error>(0),
            Ok(Some(id)) => match linkers_of(db, id) {
                Err(e) => count_of(db, key) == Err::<u64, Error>(e),
                Ok(linkers) => count_of(db, key) is Ok && count_of(db, key)->Ok_0
                    == linkers.filter(|e: Linker| e.0 != 0).len(),
            },
        },
{
    if let Ok(Some(id)) = target_id(db, key) {
        lemma_linkers_len(db, id);
        if let Ok(linkers) = linkers_of(db, id) {
            law_alive_at_most(linkers);
            assert(alive(linkers) == linkers.filter(|e: Linker| e.0 != 0).len());
        }
    }
}

/// The counts of a target as they are given: every number is the count for its collection and path,
/// every collection and path from which the target was ever linked to has one, no collection and no
/// path comes twice, and no collection is empty.
pub proof fn law_counts_answer(db: Db, target: Text, counts: Counts)
    requires
        consistent(db),
        encode_utf8(target).len() <= u64::MAX,
        counts.wf(),
        all_counts(db, target) == Ok::<Map<Text, Map<Text, u64>>, Error>(counts@),
    ensures
        forall|i: int, j: int|
            #![trigger counts.0.0@[i].1.0@[j]]
            0 <= i < counts.0.0@.len() && 0 <= j < counts.0.0@[i].1.0@.len() ==> count_of(
                db,
                (target, counts.0.0@[i].0@, counts.0.0@[i].1.0@[j].0@),
            ) == Ok::<u64, Error>(counts.0.0@[i].1.0@[j].1),
        forall|c: Text, p: Text|
            encode_utf8(c).len() <= u64::MAX && encode_utf8(p).len() <= u64::MAX
                && (#[trigger] target_id(db, (target, c, p)))->Ok_0 is Some ==> exists|
                i: int,
                j: int,
            |
                #![trigger counts.0.0@[i].1.0@[j]]
                0 <= i < counts.0.0@.len() && 0 <= j < counts.0.0@[i].1.0@.len()
                    && counts.0.0@[i].0@ == c && counts.0.0@[i].1.0@[j].0@ == p,
        forall|i: int, j: int|
            #![trigger counts.0.0@[i].1.0@[j]]
            0 <= i < counts.0.0@.len() && 0 <= j < counts.0.0@[i].1.0@.len() ==> target_id(
                db,
                (target, counts.0.0@[i].0@, counts.0.0@[i].1.0@[j].0@),
            )->Ok_0 is Some,
        forall|i: int| 0 <= i < counts.0.0@.len() ==> (#[trigger] counts.0.0@[i]).1.0@.len() > 0,
        forall|i: int, j: int|
            0 <= i < j < counts.0.0@.len() ==> (#[trigger] counts.0.0@[i]).0@ != (
            #[trigger] counts.0.0@[j]).0@,
        forall|i: int, j: int, k: int|
            #![trigger counts.0.0@[i].1.0@[j], counts.0.0@[i].1.0@[k]]
            0 <= i < counts.0.0@.len() && 0 <= j < k < counts.0.0@[i].1.0@.len()
                ==> counts.0.0@[i].1.0@[j].0@ != counts.0.0@[i].1.0@[k].0@,
{
    law_counts_parts(counts);
    law_all_counts_linked(db, target);
    assert forall|i: int, j: int|
        #![trigger counts.0.0@[i].1.0@[j]]
        0 <= i < counts.0.0@.len() && 0 <= j < counts.0.0@[i].1.0@.len() implies count_of(
        db,
        (target, counts.0.0@[i].0@, counts.0.0@[i].1.0@[j].0@),
    ) == Ok::<u64, Error>(counts.0.0@[i].1.0@[j].1) && target_id(
        db,
        (target, counts.0.0@[i].0@, counts.0.0@[i].1.0@[j].0@),
    )->Ok_0 is Some by {
        lemma_number(db, target, counts.0.0@[i].0@, counts.0.0@[i].1.0@[j].0@);
    }
    assert forall|c: Text, p: Text|
        encode_utf8(c).len() <= u64::MAX && encode_utf8(p).len() <= u64::MAX && (
        #[trigger] target_id(db, (target, c, p)))->Ok_0 is Some implies exists|i: int, j: int|
        #![trigger counts.0.0@[i].1.0@[j]]
        0 <= i < counts.0.0@.len() && 0 <= j < counts.0.0@[i].1.0@.len() && counts.0.0@[i].0@ == c
            && counts.0.0@[i].1.0@[j].0@ == p by {
        law_all_counts(db, target, c, p);
        assert(counts@[c].contains_key(p));
    }
    assert forall|i: int| 0 <= i < counts.0.0@.len() implies (#[trigger] counts.0.0@[i]).1.0@.len()
        > 0 by {
        let c = counts.0.0@[i].0@;
        assert(all_counts(db, target)->Ok_0.contains_key(c));
        let p = choose|p: Text| #[trigger] all_counts(db, target)->Ok_0[c].contains_key(p);
        assert(counts@[c].contains_key(p));
        let (k, j) = choose|k: int, j: int|
            #![trigger counts.0.0@[k].1.0@[j]]
            0 <= k < counts.0.0@.len() && 0 <= j < counts.0.0@[k].1.0@.len() && counts.0.0@[k].0@
                == c && counts.0.0@[k].1.0@[j].0@ == p;
        if k < i {
            assert(counts.0.0@[k].0@ != counts.0.0@[i].0@);
        } else if i < k {
            assert(counts.0.0@[i].0@ != counts.0.0@[k].0@);
        }
    }
}

/// A number among the counts of a target is the count for its collection and path.
proof fn lemma_number(db: Db, target: Text, c: Text, p: Text)
    requires
        consistent(db),
        encode_utf8(target).len() <= u64::MAX,
        all_counts(db, target) is Ok,
        number(all_counts(db, target)->Ok_0, c, p) is Some,
    ensures
        count_of(db, (target, c, p)) == Ok::<u64, Error>(
            number(all_counts(db, target)->Ok_0, c, p).unwrap(),
        ),
        target_id(db, (target, c, p))->Ok_0 is Some,
{
    law_number_stored(db, target, c, p);
    law_all_counts(db, target, c, p);
    law_count_answer(db, (target, c, p));
    let own = choose|own: Map<u64, Text>| in_order(db, own);
    let id = target_id(db, (target, c, p))->Ok_0.unwrap();
    assert(target_id(db, (target, c, p)) is Ok);
    assert(linkers_of(db, id) is Ok);
}

// ---------------------------------------------------------------------------------------------
// pages

/// A page as it is given covers exactly as many entries as were asked for, or all that there are
/// below where it ends: it ends at `until`, or at the number of entries where that is lower or
/// nothing is said, and it says where the rest ends.
pub proof fn law_page_extent(
    db: Db,
    key: (Text, Text, Text),
    limit: u64,
    until: Option<u64>,
    page: PagedAppendingCollection<RecordId>,
)
    requires
        page_of(db, key, limit, until) == Ok::<Page, Error>(page_view(page)),
    ensures
        ({
            let total = page.version.0;
            let end = match until {
                None => total,
                Some(u) => if u < total {
                    u
                } else {
                    total
                },
            };
            let rest = match page.next {
                None => 0,
                Some(n) => n,
            };
            &&& page.next != Some(0u64)
            &&& rest <= end
            &&& end - rest == if limit < end {
                limit
            } else {
                end
            }
            &&& page.items@.len() <= end - rest
        }),
        match target_id(db, key)->Ok_0 {
            None => page.version == (0u64, 0u64),
            Some(id) => {
                let linkers = linkers_of(db, id)->Ok_0;
                &&& page.version.0 == linkers.len()
                &&& page.version.1 == linkers.filter(|e: Linker| e.0 == 0).len()
            },
        },
{
    if let Ok(Some(id)) = target_id(db, key) {
        lemma_linkers_len(db, id);
        let linkers = linkers_of(db, id)->Ok_0;
        law_alive_at_most(linkers);
        lemma_gone(linkers);
        let end = page_end(linkers.len() as u64, until);
        let begin = page_begin(end, limit);
        lemma_shown_filter(db, key.1, linkers.subrange(begin as int, end as int));
    }
    assert(page_view(page).items.len() == page.items@.len());
}

/// Entries have an account or are gone.
proof fn lemma_gone(linkers: Seq<Linker>)
    ensures
        linkers.len() - alive(linkers) == linkers.filter(|e: Linker| e.0 == 0).len(),
    decreases linkers.len(),
{
    reveal(Seq::filter);
    if linkers.len() > 0 {
        let front = linkers.drop_last();
        lemma_gone(front);
        law_alive_push(front, linkers.last());
        assert(front.push(linkers.last()) =~= linkers);
    }
}

/// What is shown of linkers are those entries, from the last to the first, that have an account
/// whose id leads to it and that is active.
proof fn lemma_shown_filter(db: Db, collection: Text, linkers: Seq<Linker>)
    requires
        shown_all(db, collection, linkers) is Ok,
    ensures
        shown_all(db, collection, linkers)->Ok_0 == linkers.reverse().filter(
            |e: Linker|
                e.0 != 0 && (did_of_id(db, e.0) matches Ok(Some(did)) && (did_value(db, did)
                    matches Ok(Some((_, true))))),
        ).map_values(
            |e: Linker| (did_of_id(db, e.0)->Ok_0.unwrap(), collection, e.1),
        ),
        shown_all(db, collection, linkers)->Ok_0.len() <= linkers.len(),
    decreases linkers.len(),
{
    broadcast use {Seq::lemma_filter_push, Seq::lemma_push_map_commute};

    reveal(Seq::filter);
    let seen = |e: Linker|
        e.0 != 0 && (did_of_id(db, e.0) matches Ok(Some(did)) && (did_value(db, did) matches Ok(
            Some((_, true)),
        )));
    let record = |e: Linker| (did_of_id(db, e.0)->Ok_0.unwrap(), collection, e.1);
    if linkers.len() == 0 {
        assert(linkers.reverse().filter(seen).map_values(record) =~= Seq::empty());
    } else {
        let tail = linkers.skip(1);
        lemma_shown_filter(db, collection, tail);
        assert(linkers.reverse() =~= tail.reverse().push(linkers[0]));
        let all = shown_all(db, collection, linkers)->Ok_0;
        assert(all =~= linkers.reverse().filter(seen).map_values(record));
    }
}

/// A page as it is given holds, for the entries that it covers, from the newest to the oldest, the
/// records of those that have an account whose id leads to it and that is active; and no others.
pub proof fn law_page_items(
    db: Db,
    key: (Text, Text, Text),
    limit: u64,
    until: Option<u64>,
    page: PagedAppendingCollection<RecordId>,
)
    requires
        page_of(db, key, limit, until) == Ok::<Page, Error>(page_view(page)),
    ensures
        target_id(db, key)->Ok_0 is None ==> page.items@.len() == 0,
        target_id(db, key)->Ok_0 matches Some(id) ==> {
            let linkers = linkers_of(db, id)->Ok_0;
            let end = match until {
                None => linkers.len() as int,
                Some(u) => if u < linkers.len() {
                    u as int
                } else {
                    linkers.len() as int
                },
            };
            let begin = if limit < end {
                end - limit
            } else {
                0
            };
            let shown = linkers.subrange(begin, end).reverse().filter(
                |e: Linker|
                    e.0 != 0 && (did_of_id(db, e.0) matches Ok(Some(did)) && (did_value(db, did)
                        matches Ok(Some((_, true))))),
            );
            &&& page.items@.len() == shown.len()
            &&& forall|i: int|
                0 <= i < shown.len() ==> {
                    &&& Some((#[trigger] page.items@[i]).did.0@) == did_of_id(
                        db,
                        shown[i].0,
                    )->Ok_0
                    &&& page.items@[i].collection@ == key.1
                    &&& page.items@[i].rkey@ == shown[i].1
                }
        },
{
    let items = page_view(page).items;
    assert(items.len() == page.items@.len());
    assert forall|i: int| 0 <= i < items.len() implies #[trigger] items[i] == (
        page.items@[i].did.0@,
        page.items@[i].collection@,
        page.items@[i].rkey@,
    ) by {}
    if let Ok(Some(id)) = target_id(db, key) {
        lemma_linkers_len(db, id);
        let linkers = linkers_of(db, id)->Ok_0;
        let end = page_end(linkers.len() as u64, until);
        let begin = page_begin(end, limit);
        let part = linkers.subrange(begin as int, end as int);
        lemma_shown_filter(db, key.1, part);
        let seen = |e: Linker|
            e.0 != 0 && (did_of_id(db, e.0) matches Ok(Some(did)) && (did_value(db, did)
                matches Ok(Some((_, true)))));
        let shown = part.reverse().filter(seen);
        assert(items == shown.map_values(
            |e: Linker| (did_of_id(db, e.0)->Ok_0.unwrap(), key.1, e.1),
        ));
        assert forall|i: int| 0 <= i < shown.len() implies {
            &&& Some((#[trigger] page.items@[i]).did.0@) == did_of_id(db, shown[i].0)->Ok_0
            &&& page.items@[i].collection@ == key.1
            &&& page.items@[i].rkey@ == shown[i].1
        } by {
            part.reverse().lemma_filter_pred(seen, i);
            assert(items[i] == (
                page.items@[i].did.0@,
                page.items@[i].collection@,
                page.items@[i].rkey@,
            ));
        }
    }
}

/// Where every entry below the end of a page is shown and there are more of them than were asked
/// for, the page has exactly as many records as were asked for.
pub proof fn law_full_page(
    db: Db,
    key: (Text, Text, Text),
    id: u64,
    limit: u64,
    until: Option<u64>,
    page: PagedAppendingCollection<RecordId>,
)
    requires
        page_of(db, key, limit, until) == Ok::<Page, Error>(page_view(page)),
        target_id(db, key)->Ok_0 == Some(id),
        forall|i: int|
            0 <= i < linkers_of(db, id)->Ok_0.len() ==> {
                let e = #[trigger] linkers_of(db, id)->Ok_0[i];
                &&& e.0 != 0
                &&& did_of_id(db, e.0) matches Ok(Some(did)) && (did_value(db, did) matches Ok(
                    Some((_, true)),
                ))
            },
        limit <= page.version.0,
        until matches Some(u) ==> limit <= u,
    ensures
        page.items@.len() == limit,
{
    lemma_linkers_len(db, id);
    let linkers = linkers_of(db, id)->Ok_0;
    let end = page_end(linkers.len() as u64, until);
    let begin = page_begin(end, limit);
    let part = linkers.subrange(begin as int, end as int);
    assert forall|i: int| 0 <= i < part.len() implies {
        let e = #[trigger] part[i];
        &&& e.0 != 0
        &&& did_of_id(db, e.0) matches Ok(Some(did)) && (did_value(db, did) matches Ok(
            Some((_, true)),
        ))
    } by {
        assert(part[i] == linkers_of(db, id)->Ok_0[begin + i]);
    }
    lemma_all_shown(db, key.1, part);
    assert(page_view(page).items.len() == page.items@.len());
}

proof fn lemma_all_shown(db: Db, collection: Text, linkers: Seq<Linker>)
    requires
        forall|i: int|
            0 <= i < linkers.len() ==> {
                let e = #[trigger] linkers[i];
                &&& e.0 != 0
                &&& did_of_id(db, e.0) matches Ok(Some(did)) && (did_value(db, did) matches Ok(
                    Some((_, true)),
                ))
            },
    ensures
        shown_all(db, collection, linkers) is Ok,
        shown_all(db, collection, linkers)->Ok_0.len() == linkers.len(),
    decreases linkers.len(),
{
    if linkers.len() > 0 {
        let tail = linkers.skip(1);
        assert forall|i: int| 0 <= i < tail.len() implies {
            let e = #[trigger] tail[i];
            &&& e.0 != 0
            &&& did_of_id(db, e.0) matches Ok(Some(did)) && (did_value(db, did) matches Ok(
                Some((_, true)),
            ))
        } by {
            assert(tail[i] == linkers[i + 1]);
        }
        lemma_all_shown(db, collection, tail);
        assert(linkers[0].0 != 0);
    }
}

/// A page fails where the id of the target, its linkers, or the account of an entry that it covers
/// cannot be read, and nowhere else.
pub proof fn law_page_fails(db: Db, key: (Text, Text, Text), limit: u64, until: Option<u64>)
    ensures
        match target_id(db, key) {
            Err(e) => page_of(db, key, limit, until) == Err::<Page, Error>(e),
            Ok(None) => page_of(db, key, limit, until) is Ok,
            Ok(Some(id)) => match linkers_of(db, id) {
                Err(e) => page_of(db, key, limit, until) == Err::<Page, Error>(e),
                Ok(linkers) => {
                    let end = match until {
                        None => linkers.len() as int,
                        Some(u) => if u < linkers.len() {
                            u as int
                        } else {
                            linkers.len() as int
                        },
                    };
                    let begin = if limit < end {
                        end - limit
                    } else {
                        0
                    };
                    page_of(db, key, limit, until) is Ok <==> forall|i: int|
                        begin <= i < end && (#[trigger] linkers[i]).0 != 0 ==> (did_of_id(
                            db,
                            linkers[i].0,
                        ) matches Ok(found) && (found matches Some(did) ==> did_value(
                            db,
                            did,
                        ) is Ok))
                },
            },
        },
{
    if let Ok(Some(id)) = target_id(db, key) {
        lemma_linkers_len(db, id);
        if let Ok(linkers) = linkers_of(db, id) {
            let end = page_end(linkers.len() as u64, until) as int;
            let begin = page_begin(end as u64, limit) as int;
            let part = linkers.subrange(begin, end);
            lemma_readable(db, key.1, part);
            assert forall|i: int| begin <= i < end implies #[trigger] linkers[i] == part[
                i - begin
            ] by {}
            if shown_all(db, key.1, part) is Ok {
                assert forall|i: int| begin <= i < end && (#[trigger] linkers[i]).0 != 0 implies (
                did_of_id(db, linkers[i].0) matches Ok(found) && (found matches Some(did)
                    ==> did_value(db, did) is Ok)) by {
                    assert(part[i - begin].0 != 0);
                }
            } else {
                let j = choose|j: int|
                    0 <= j < part.len() && (#[trigger] part[j]).0 != 0 && !(did_of_id(
                        db,
                        part[j].0,
                    ) matches Ok(found) && (found matches Some(did) ==> did_value(db, did) is Ok));
                assert(linkers[begin + j] == part[j]);
            }
        }
    }
}

proof fn lemma_readable(db: Db, collection: Text, linkers: Seq<Linker>)
    ensures
        shown_all(db, collection, linkers) is Ok <==> forall|i: int|
            0 <= i < linkers.len() && (#[trigger] linkers[i]).0 != 0 ==> (did_of_id(
                db,
                linkers[i].0,
            ) matches Ok(found) && (found matches Some(did) ==> did_value(db, did) is Ok)),
    decreases linkers.len(),
{
    if linkers.len() > 0 {
        let tail = linkers.skip(1);
        lemma_readable(db, collection, tail);
        assert forall|i: int| 0 <= i < tail.len() implies #[trigger] tail[i] == linkers[i + 1] by {}
        let e = linkers[0];
        let first = e.0 != 0 ==> (did_of_id(db, e.0) matches Ok(found) && (found matches Some(did)
            ==> did_value(db, did) is Ok));
        assert(shown(db, collection, e) is Ok <==> first);
        if first && shown_all(db, collection, tail) is Ok {
            assert forall|i: int| 0 <= i < linkers.len() && (#[trigger] linkers[i]).0
                != 0 implies (did_of_id(db, linkers[i].0) matches Ok(found) && (found matches Some(
                did,
            ) ==> did_value(db, did) is Ok)) by {
                if i > 0 {
                    assert(tail[i - 1] == linkers[i]);
                }
            }
        } else if forall|i: int|
            0 <= i < linkers.len() && (#[trigger] linkers[i]).0 != 0 ==> (did_of_id(
                db,
                linkers[i].0,
            ) matches Ok(found) && (found matches Some(did) ==> did_value(db, did) is Ok)) {
            assert forall|i: int| 0 <= i < tail.len() && (#[trigger] tail[i]).0 != 0 implies (
            did_of_id(db, tail[i].0) matches Ok(found) && (found matches Some(did) ==> did_value(
                db,
                did,
            ) is Ok)) by {
                assert(linkers[i + 1].0 != 0);
            }
            assert(first);
        }
    }
}

/// What is lost behind a page is what is lost behind the entries that it covers.
pub proof fn law_page_lost(db: Db, key: (Text, Text, Text), limit: u64, until: Option<u64>)
    ensures
        match target_id(db, key) {
            Ok(Some(id)) => match linkers_of(db, id) {
                Ok(linkers) => {
                    let end = match until {
                        None => linkers.len() as int,
                        Some(u) => if u < linkers.len() {
                            u as int
                        } else {
                            linkers.len() as int
                        },
                    };
                    let begin = if limit < end {
                        end - limit
                    } else {
                        0
                    };
                    page_lost(db, key, limit, until) == lost_all(
                        db,
                        linkers.subrange(begin, end),
                    ).0
                },
                Err(_) => page_lost(db, key, limit, until) == Seq::<LostView>::empty(),
            },
            _ => page_lost(db, key, limit, until) == Seq::<LostView>::empty(),
        },
{
    if let Ok(Some(id)) = target_id(db, key) {
        lemma_linkers_len(db, id);
    }
}

/// The cursor is the number in its row, if the row is there.
pub proof fn law_cursor_answer(db: Db, n: u64)
    ensures
        row(db, Cf::Default, encode_utf8("jetstream_cursor"@)) is None ==> cursor_of(db) == Ok::<
            Option<u64>,
            Error,
        >(None),
        row(db, Cf::Default, encode_utf8("jetstream_cursor"@)) == Some(<u64 as Stored>::bytes(n))
            ==> cursor_of(db) == Ok::<Option<u64>, Error>(Some(n)),
        row(db, Cf::Default, encode_utf8("jetstream_cursor"@)) matches Some(b) ==> (
        <u64 as Stored>::parsed(b) is None ==> cursor_of(db) == Err::<Option<u64>, Error>(
            Error::Codec,
        )),
{
    <u64 as Stored>::lemma_parsed_bytes(n);
}

}
