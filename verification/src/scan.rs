//! Folding the entries of a scan into an aggregate.

use vstd::prelude::*;
use crate::entry::{contribution, contribution_of, valid_key, Entry, EntryKind, Mode};
use crate::totals::{SizeAggregate, TraversalError};

verus! {

/// The bytes that `entry` adds to the bucket `key`.
pub open spec fn share(entry: Entry, mode: Mode, key: int) -> nat {
    match contribution(entry, mode) {
        Some(c) => if c.0 == key {
            c.1
        } else {
            0
        },
        None => 0,
    }
}

/// The bytes that `entry` adds to an aggregate, whatever the bucket.
pub open spec fn counted(entry: Entry, mode: Mode) -> nat {
    match contribution(entry, mode) {
        Some(c) => c.1,
        None => 0,
    }
}

/// The bytes that the entries add to the bucket `key`.
pub open spec fn bucket_total(entries: Seq<Entry>, mode: Mode, key: int) -> nat
    decreases entries.len(),
{
    if entries.len() == 0 {
        0
    } else {
        bucket_total(entries.drop_last(), mode, key) + share(entries.last(), mode, key)
    }
}

/// The bytes that the entries add to all buckets together.
pub open spec fn counted_bytes(entries: Seq<Entry>, mode: Mode) -> nat
    decreases entries.len(),
{
    if entries.len() == 0 {
        0
    } else {
        counted_bytes(entries.drop_last(), mode) + counted(entries.last(), mode)
    }
}

/// `entry` falls in the bucket `key`.
pub open spec fn falls_in(entry: Entry, mode: Mode, key: int) -> bool {
    match contribution(entry, mode) {
        Some(c) => c.0 == key,
        None => false,
    }
}

/// Some entry falls in the bucket `key`.
pub open spec fn bucket_hit(entries: Seq<Entry>, mode: Mode, key: int) -> bool {
    exists|i: int|
        0 <= i < entries.len() && #[trigger] falls_in(entries[i], mode, key)
}

/// The aggregate of the entries: a bucket for each key that some entry falls
/// in, holding the bytes of all entries that fall in it.
pub open spec fn totals(entries: Seq<Entry>, mode: Mode) -> Map<int, nat> {
    Map::new(
        |k: int| bucket_hit(entries, mode, k),
        |k: int| bucket_total(entries, mode, k),
    )
}

/// The sizes of all entries whose size was read.
pub open spec fn size_sum(entries: Seq<Entry>) -> nat
    decreases entries.len(),
{
    if entries.len() == 0 {
        0
    } else {
        size_sum(entries.drop_last()) + match entries.last().size {
            Some(size) => size as nat,
            None => 0,
        }
    }
}

/// A bucket that no entry falls in has no bytes.
pub proof fn lemma_unhit_is_empty(entries: Seq<Entry>, mode: Mode, key: int)
    requires
        !bucket_hit(entries, mode, key),
    ensures
        bucket_total(entries, mode, key) == 0,
    decreases entries.len(),
{
    if entries.len() > 0 {
        let rest = entries.drop_last();
        let n = entries.len() - 1;
        assert(!falls_in(entries[n], mode, key));
        assert forall|i: int| 0 <= i < rest.len() implies !#[trigger] falls_in(
            rest[i],
            mode,
            key,
        ) by {
            assert(rest[i] == entries[i]);
        }
        lemma_unhit_is_empty(rest, mode, key);
    }
}

/// What one more entry does to the aggregate.
pub proof fn lemma_totals_push(entries: Seq<Entry>, entry: Entry, mode: Mode)
    ensures
        totals(entries.push(entry), mode) == match contribution(entry, mode) {
            Some(c) => totals(entries, mode).insert(c.0, bucket_total(entries, mode, c.0) + c.1),
            None => totals(entries, mode),
        },
        counted_bytes(entries.push(entry), mode) == counted_bytes(entries, mode) + counted(
            entry,
            mode,
        ),
{
    let more = entries.push(entry);
    assert(more.drop_last() =~= entries);
    assert(more.last() == entry);
    let m1 = totals(more, mode);
    let old_map = totals(entries, mode);
    assert forall|k: int| bucket_hit(more, mode, k) <==> bucket_hit(entries, mode, k) || falls_in(
        entry,
        mode,
        k,
    ) by {
        if bucket_hit(more, mode, k) {
            let i = choose|i: int| 0 <= i < more.len() && #[trigger] falls_in(more[i], mode, k);
            if i < entries.len() {
                assert(more[i] == entries[i]);
            }
        }
        if bucket_hit(entries, mode, k) {
            let i = choose|i: int|
                0 <= i < entries.len() && #[trigger] falls_in(entries[i], mode, k);
            assert(more[i] == entries[i]);
        }
        if falls_in(entry, mode, k) {
            assert(falls_in(more[entries.len() as int], mode, k));
        }
    }
    assert forall|k: int| bucket_total(more, mode, k) == bucket_total(entries, mode, k) + share(
        entry,
        mode,
        k,
    ) by {}
    match contribution(entry, mode) {
        Some(c) => {
            assert(m1 =~= old_map.insert(c.0, bucket_total(entries, mode, c.0) + c.1));
        },
        None => {
            assert(m1 =~= old_map);
        },
    }
}

/// Entries never take bytes from a bucket: the total of a prefix is no
/// greater than the total of the whole.
pub proof fn lemma_total_grows(entries: Seq<Entry>, mode: Mode, key: int, n: int)
    requires
        0 <= n <= entries.len(),
    ensures
        bucket_total(entries.take(n), mode, key) <= bucket_total(entries, mode, key),
    decreases entries.len(),
{
    if n == entries.len() {
        assert(entries.take(n) =~= entries);
    } else {
        assert(entries.drop_last().take(n) =~= entries.take(n));
        lemma_total_grows(entries.drop_last(), mode, key, n);
    }
}

/// Folds the entries of a scan into an aggregate.
///
/// Each regular file whose size and timestamp are known counts under the
/// bucket of its date; every other entry is passed over. The fold fails
/// where, and only where, the bytes of some bucket do not fit in 64 bits.
pub fn aggregate(entries: &Vec<Entry>, mode: Mode) -> (r: Result<SizeAggregate, TraversalError>)
    ensures
        match r {
            Ok(found) => {
                &&& found.wf()
                &&& found@ == totals(entries@, mode)
                &&& found.sum() == counted_bytes(entries@, mode)
                &&& forall|k: int| found@.contains_key(k) ==> valid_key(mode, k)
            },
            Err(e) => e == TraversalError::TotalOverflow,
        },
        r.is_err() <==> exists|k: int| #[trigger] bucket_total(entries@, mode, k) > u64::MAX,
{
    let mut found = SizeAggregate::new();
    let n: usize = entries.len();
    let mut i: usize = 0;
    proof {
        assert(totals(entries@.take(0), mode) =~= Map::<int, nat>::empty());
    }
    while i < n
        invariant
            n == entries@.len(),
            0 <= i <= n,
            found.wf(),
            found@ == totals(entries@.take(i as int), mode),
            found.sum() == counted_bytes(entries@.take(i as int), mode),
            forall|k: int| found@.contains_key(k) ==> valid_key(mode, k),
        decreases n - i,
    {
        let entry = &entries[i];
        let ghost seen = entries@.take(i as int);
        proof {
            assert(entries@.take(i + 1) =~= seen.push(*entry));
            lemma_totals_push(seen, *entry, mode);
        }
        match contribution_of(entry, mode) {
            Some((key, size)) => {
                proof {
                    if !bucket_hit(seen, mode, key as int) {
                        lemma_unhit_is_empty(seen, mode, key as int);
                    }
                }
                match found.add(key, size) {
                    Ok(()) => {},
                    Err(e) => {
                        proof {
                            assert(seen.push(*entry).drop_last() =~= seen);
                            assert(bucket_total(seen.push(*entry), mode, key as int) > u64::MAX);
                            lemma_total_grows(entries@, mode, key as int, i + 1);
                        }
                        return Err(e);
                    },
                }
            },
            None => {},
        }
        i += 1;
    }
    proof {
        assert(entries@.take(n as int) =~= entries@);
        assert forall|k: int| #[trigger] bucket_total(entries@, mode, k) <= u64::MAX by {
            if bucket_hit(entries@, mode, k) {
                found.lemma_total_fits(k);
            } else {
                lemma_unhit_is_empty(entries@, mode, k);
            }
        }
    }
    Ok(found)
}

/// Where every entry is a regular file whose size and timestamp were read
/// and whose date exists, grouping by year counts every byte: the buckets
/// together hold the sum of the sizes.
pub proof fn lemma_every_file_counted(entries: Seq<Entry>)
    requires
        forall|i: int|
            0 <= i < entries.len() ==> (#[trigger] contribution(entries[i], Mode::ByYear))
                .is_some(),
    ensures
        counted_bytes(entries, Mode::ByYear) == size_sum(entries),
    decreases entries.len(),
{
    if entries.len() > 0 {
        let rest = entries.drop_last();
        assert forall|i: int| 0 <= i < rest.len() implies (#[trigger] contribution(
            rest[i],
            Mode::ByYear,
        )).is_some() by {
            assert(rest[i] == entries[i]);
        }
        lemma_every_file_counted(rest);
        assert(contribution(entries[entries.len() - 1], Mode::ByYear).is_some());
    }
}

/// The month buckets of a year together hold what the year's bucket holds
/// when grouping by year: files of other years add nothing to them.
pub proof fn lemma_months_make_the_year(entries: Seq<Entry>, year: i32)
    ensures
        counted_bytes(entries, Mode::ByMonth { year }) == bucket_total(
            entries,
            Mode::ByYear,
            year as int,
        ),
    decreases entries.len(),
{
    if entries.len() > 0 {
        lemma_months_make_the_year(entries.drop_last(), year);
    }
}

/// An entry that is not a regular file adds nothing, whatever size it
/// reports and wherever it stands among the entries.
pub proof fn lemma_non_file_adds_nothing(entries: Seq<Entry>, at: int, entry: Entry, mode: Mode)
    requires
        0 <= at <= entries.len(),
        entry.kind != EntryKind::RegularFile,
    ensures
        contribution(entry, mode).is_none(),
        totals(entries.insert(at, entry), mode) == totals(entries, mode),
        counted_bytes(entries.insert(at, entry), mode) == counted_bytes(entries, mode),
{
    let more = entries.insert(at, entry);
    lemma_counted_insert(entries, at, entry, mode);
    assert forall|k: int| bucket_hit(more, mode, k) <==> bucket_hit(entries, mode, k) by {
        if bucket_hit(more, mode, k) {
            let i = choose|i: int|
                0 <= i < more.len() && #[trigger] falls_in(more[i], mode, k);
            let j = if i < at { i } else { i - 1 };
            assert(more[i] == entries[j]);
        }
        if bucket_hit(entries, mode, k) {
            let j = choose|j: int|
                0 <= j < entries.len() && #[trigger] falls_in(entries[j], mode, k);
            let i = if j < at { j } else { j + 1 };
            assert(more[i] == entries[j]);
        }
    }
    assert forall|k: int| bucket_total(more, mode, k) == bucket_total(entries, mode, k) by {
        lemma_total_insert(entries, at, entry, mode, k);
    }
    assert(totals(more, mode) =~= totals(entries, mode));
}

/// An entry adds its share to a bucket wherever it stands among the entries.
pub proof fn lemma_total_insert(entries: Seq<Entry>, at: int, entry: Entry, mode: Mode, key: int)
    requires
        0 <= at <= entries.len(),
    ensures
        bucket_total(entries.insert(at, entry), mode, key) == bucket_total(entries, mode, key)
            + share(entry, mode, key),
    decreases entries.len(),
{
    let more = entries.insert(at, entry);
    if at == entries.len() {
        assert(more.drop_last() =~= entries);
    } else {
        assert(more.drop_last() =~= entries.drop_last().insert(at, entry));
        assert(more.last() == entries.last());
        lemma_total_insert(entries.drop_last(), at, entry, mode, key);
    }
}

/// An entry adds its bytes to the whole wherever it stands among the entries.
pub proof fn lemma_counted_insert(entries: Seq<Entry>, at: int, entry: Entry, mode: Mode)
    requires
        0 <= at <= entries.len(),
    ensures
        counted_bytes(entries.insert(at, entry), mode) == counted_bytes(entries, mode) + counted(
            entry,
            mode,
        ),
    decreases entries.len(),
{
    let more = entries.insert(at, entry);
    if at == entries.len() {
        assert(more.drop_last() =~= entries);
    } else {
        assert(more.drop_last() =~= entries.drop_last().insert(at, entry));
        assert(more.last() == entries.last());
        lemma_counted_insert(entries.drop_last(), at, entry, mode);
    }
}

/// The order in which the entries come does not matter: the same entries in
/// another order give the same bucket totals and the same bytes counted.
pub proof fn lemma_order_is_immaterial(first: Seq<Entry>, second: Seq<Entry>, mode: Mode)
    requires
        first.to_multiset() == second.to_multiset(),
    ensures
        totals(first, mode) == totals(second, mode),
        counted_bytes(first, mode) == counted_bytes(second, mode),
        forall|k: int| bucket_total(first, mode, k) == bucket_total(second, mode, k),
    decreases first.len(),
{
    broadcast use vstd::seq_lib::group_to_multiset_ensures;

    if first.len() == 0 {
        assert(second.to_multiset().len() == 0);
        assert(second.len() == 0);
        assert(first =~= second);
    } else {
        let e = first.last();
        let n = first.len() - 1;
        assert(first[n] == e);
        assert(first.contains(e));
        assert(first.to_multiset().count(e) > 0);
        assert(second.contains(e));
        let i = choose|i: int| 0 <= i < second.len() && second[i] == e;
        let less = second.remove(i);
        assert(first.drop_last() =~= first.remove(n));
        vstd::seq_lib::to_multiset_remove(first, n);
        vstd::seq_lib::to_multiset_remove(second, i);
        lemma_order_is_immaterial(first.drop_last(), less, mode);
        assert(less.insert(i, e) =~= second);
        lemma_counted_insert(less, i, e, mode);
        assert forall|k: int| bucket_total(first, mode, k) == bucket_total(second, mode, k) by {
            lemma_total_insert(less, i, e, mode, k);
        }
        assert forall|k: int| bucket_hit(first, mode, k) <==> bucket_hit(second, mode, k) by {
            if bucket_hit(first, mode, k) {
                let j = choose|j: int| 0 <= j < first.len() && #[trigger] falls_in(first[j], mode, k);
                lemma_same_members(first, second, first[j]);
                let t = choose|t: int| 0 <= t < second.len() && second[t] == first[j];
                assert(falls_in(second[t], mode, k));
            }
            if bucket_hit(second, mode, k) {
                let j = choose|j: int|
                    0 <= j < second.len() && #[trigger] falls_in(second[j], mode, k);
                lemma_same_members(second, first, second[j]);
                let t = choose|t: int| 0 <= t < first.len() && first[t] == second[j];
                assert(falls_in(first[t], mode, k));
            }
        }
        assert(totals(first, mode) =~= totals(second, mode));
    }
}

/// The same entries in another order have the same members.
proof fn lemma_same_members(first: Seq<Entry>, second: Seq<Entry>, entry: Entry)
    requires
        first.to_multiset() == second.to_multiset(),
        first.contains(entry),
    ensures
        second.contains(entry),
{
    broadcast use vstd::seq_lib::group_to_multiset_ensures;

    assert(first.to_multiset().count(entry) > 0);
}

/// Where nothing was scanned there is no bucket.
pub proof fn lemma_no_entries_no_buckets(mode: Mode)
    ensures
        totals(Seq::<Entry>::empty(), mode) == Map::<int, nat>::empty(),
        counted_bytes(Seq::<Entry>::empty(), mode) == 0,
{
    assert(totals(Seq::<Entry>::empty(), mode) =~= Map::<int, nat>::empty());
}

} // verus!
