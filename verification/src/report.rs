//! The rows of a report: which buckets are shown, and in what order.

use vstd::prelude::*;
use crate::entry::{Entry, Mode};
use crate::scan::{lemma_order_is_immaterial, totals};
use crate::totals::{
    as_map, ascending, holds_key, lemma_ascending_unique, lemma_map_at, position, Bucket,
    SizeAggregate,
};

verus! {

/// A year is shown only where it holds more bytes than this: 100 MiB.
pub const YEAR_THRESHOLD: u64 = 104_857_600;

/// A bucket of `bytes` bytes is shown: a year where it holds more than
/// 100 MiB, a month always.
pub open spec fn shown(mode: Mode, bytes: nat) -> bool {
    match mode {
        Mode::ByYear => bytes > 104_857_600,
        Mode::ByMonth { .. } => true,
    }
}

/// The buckets of `s` that are shown, in the order of `s`.
pub open spec fn selected(s: Seq<Bucket>, mode: Mode) -> Seq<Bucket>
    decreases s.len(),
{
    if s.len() == 0 {
        Seq::empty()
    } else if shown(mode, s.last().bytes as nat) {
        selected(s.drop_last(), mode).push(s.last())
    } else {
        selected(s.drop_last(), mode)
    }
}

/// The selected buckets are those of `s` that are shown.
pub proof fn lemma_selected_members(s: Seq<Bucket>, mode: Mode)
    ensures
        forall|b: Bucket|
            #![trigger selected(s, mode).contains(b)]
            #![trigger s.contains(b)]
            selected(s, mode).contains(b) <==> s.contains(b) && shown(mode, b.bytes as nat),
    decreases s.len(),
{
    let out = selected(s, mode);
    if s.len() > 0 {
        let rest = s.drop_last();
        let last = s.last();
        let inner = selected(rest, mode);
        lemma_selected_members(rest, mode);
        assert forall|b: Bucket|
            #![trigger out.contains(b)]
            #![trigger s.contains(b)]
            out.contains(b) <==> s.contains(b) && shown(mode, b.bytes as nat) by {
            if out.contains(b) {
                let i = choose|i: int| 0 <= i < out.len() && out[i] == b;
                if i < inner.len() {
                    assert(inner[i] == b);
                    assert(inner.contains(b));
                    let j = choose|j: int| 0 <= j < rest.len() && rest[j] == b;
                    assert(s[j] == b);
                } else {
                    assert(s[s.len() - 1] == b);
                }
            }
            if s.contains(b) && shown(mode, b.bytes as nat) {
                let j = choose|j: int| 0 <= j < s.len() && s[j] == b;
                if j < rest.len() {
                    assert(rest[j] == b);
                    assert(rest.contains(b));
                    let i = choose|i: int| 0 <= i < inner.len() && inner[i] == b;
                    assert(out[i] == b);
                } else {
                    assert(out[out.len() - 1] == b);
                }
            }
        }
    }
}

/// Selecting keeps the order: of ascending buckets the selected ones ascend.
pub proof fn lemma_selected_ascending(s: Seq<Bucket>, mode: Mode)
    requires
        ascending(s),
    ensures
        ascending(selected(s, mode)),
    decreases s.len(),
{
    let out = selected(s, mode);
    if s.len() > 0 {
        let rest = s.drop_last();
        let inner = selected(rest, mode);
        assert forall|i: int, j: int| 0 <= i < j < rest.len() implies (#[trigger] rest[i]).key < (
        #[trigger] rest[j]).key by {
            assert(s[i].key < s[j].key);
        }
        lemma_selected_ascending(rest, mode);
        lemma_selected_members(rest, mode);
        assert forall|i: int, j: int| 0 <= i < j < out.len() implies (#[trigger] out[i]).key < (
        #[trigger] out[j]).key by {
            if j < inner.len() {
                assert(inner[i].key < inner[j].key);
            } else {
                assert(inner.contains(inner[i]));
                let p = choose|p: int| 0 <= p < rest.len() && rest[p] == inner[i];
                assert(s[p].key < s[s.len() - 1].key);
            }
        }
    }
}

/// Read as a mapping, the selected buckets are the shown part of the
/// mapping that `s` holds.
pub proof fn lemma_selected_map(s: Seq<Bucket>, mode: Mode)
    requires
        ascending(s),
    ensures
        forall|k: int|
            holds_key(selected(s, mode), k) <==> as_map(s).contains_key(k) && shown(
                mode,
                as_map(s)[k],
            ),
        forall|i: int|
            0 <= i < selected(s, mode).len() ==> {
                let row = #[trigger] selected(s, mode)[i];
                &&& shown(mode, row.bytes as nat)
                &&& as_map(s).contains_key(row.key as int)
                &&& as_map(s)[row.key as int] == row.bytes
            },
{
    let out = selected(s, mode);
    lemma_selected_members(s, mode);
    assert forall|i: int| 0 <= i < out.len() implies as_map(s).contains_key(
        (#[trigger] out[i]).key as int,
    ) && as_map(s)[out[i].key as int] == out[i].bytes && shown(mode, out[i].bytes as nat) by {
        assert(out.contains(out[i]));
        let p = choose|p: int| 0 <= p < s.len() && s[p] == out[i];
        lemma_map_at(s, p);
    }
    assert forall|k: int| holds_key(out, k) <==> as_map(s).contains_key(k) && shown(
        mode,
        as_map(s)[k],
    ) by {
        if holds_key(out, k) {
            let i = position(out, k);
            assert(out[i].key == k);
        }
        if as_map(s).contains_key(k) && shown(mode, as_map(s)[k]) {
            let p = position(s, k);
            lemma_map_at(s, p);
            assert(s.contains(s[p]));
            assert(out.contains(s[p]));
            let i = choose|i: int| 0 <= i < out.len() && out[i] == s[p];
            assert(out[i].key == k);
        }
    }
}

/// Two aggregates of the same entries, in whatever order each run met them,
/// hold the same buckets and give the same rows.
pub proof fn lemma_runs_agree(
    first: Seq<Entry>,
    second: Seq<Entry>,
    mode: Mode,
    one: SizeAggregate,
    other: SizeAggregate,
)
    requires
        first.to_multiset() == second.to_multiset(),
        one.wf(),
        other.wf(),
        one@ == totals(first, mode),
        other@ == totals(second, mode),
    ensures
        one.buckets() == other.buckets(),
        selected(one.buckets(), mode) == selected(other.buckets(), mode),
{
    lemma_order_is_immaterial(first, second, mode);
    lemma_ascending_unique(one.buckets(), other.buckets());
}

/// Decides whether a bucket of `bytes` bytes is shown.
pub fn is_shown(mode: Mode, bytes: u64) -> (r: bool)
    ensures
        r == shown(mode, bytes as nat),
{
    match mode {
        Mode::ByYear => bytes > YEAR_THRESHOLD,
        Mode::ByMonth { .. } => true,
    }
}

/// The rows of the report on `found`: its buckets in ascending order of key,
/// without the years of 100 MiB or less when grouping by year.
pub fn report_rows(found: &SizeAggregate, mode: Mode) -> (rows: Vec<Bucket>)
    requires
        found.wf(),
    ensures
        rows@ == selected(found.buckets(), mode),
        ascending(rows@),
        forall|k: int|
            holds_key(rows@, k) <==> found@.contains_key(k) && shown(mode, found@[k]),
        forall|i: int|
            0 <= i < rows@.len() ==> {
                let row = #[trigger] rows@[i];
                &&& shown(mode, row.bytes as nat)
                &&& found@.contains_key(row.key as int)
                &&& found@[row.key as int] == row.bytes
            },
{
    let mut rows: Vec<Bucket> = Vec::new();
    let n: usize = found.len();
    let mut i: usize = 0;
    proof {
        assert(found.buckets().take(0) =~= Seq::<Bucket>::empty());
    }
    while i < n
        invariant
            n == found.buckets().len(),
            0 <= i <= n,
            rows@ == selected(found.buckets().take(i as int), mode),
        decreases n - i,
    {
        let b = found.bucket(i);
        proof {
            let next = found.buckets().take(i + 1);
            assert(next.drop_last() =~= found.buckets().take(i as int));
            assert(next.last() == b);
        }
        if is_shown(mode, b.bytes) {
            rows.push(b);
        }
        i += 1;
    }
    proof {
        assert(found.buckets().take(n as int) =~= found.buckets());
        lemma_selected_ascending(found.buckets(), mode);
        lemma_selected_map(found.buckets(), mode);
    }
    rows
}

} // verus!
