//! The aggregate: one byte total per bucket, kept in ascending order of key.

use vstd::prelude::*;

verus! {

/// A bucket and the bytes counted under it.
#[derive(Clone, Copy, Debug, PartialEq, Eq, Structural)]
pub struct Bucket {
    pub key: i32,
    pub bytes: u64,
}

/// Why an aggregate could not be built.
#[derive(Clone, Copy, Debug, PartialEq, Eq, Structural)]
pub enum TraversalError {
    /// The bytes of one bucket do not fit in 64 bits.
    TotalOverflow,
}

/// The keys rise strictly from each bucket to the next.
pub open spec fn ascending(s: Seq<Bucket>) -> bool {
    forall|i: int, j: int| 0 <= i < j < s.len() ==> (#[trigger] s[i]).key < (#[trigger] s[j]).key
}

/// Some bucket of `s` has the key `key`.
pub open spec fn holds_key(s: Seq<Bucket>, key: int) -> bool {
    exists|i: int| 0 <= i < s.len() && (#[trigger] s[i]).key == key
}

/// Where `key` stands in `s`.
pub open spec fn position(s: Seq<Bucket>, key: int) -> int {
    choose|i: int| 0 <= i < s.len() && (#[trigger] s[i]).key == key
}

/// The buckets as a mapping from key to bytes.
pub open spec fn as_map(s: Seq<Bucket>) -> Map<int, nat> {
    Map::new(|k: int| holds_key(s, k), |k: int| s[position(s, k)].bytes as nat)
}

/// The bytes of all buckets together.
pub open spec fn bytes_sum(s: Seq<Bucket>) -> nat
    decreases s.len(),
{
    if s.len() == 0 {
        0
    } else {
        bytes_sum(s.drop_last()) + s.last().bytes as nat
    }
}

/// In an ascending sequence a key is found where it stands.
pub proof fn lemma_map_at(s: Seq<Bucket>, i: int)
    requires
        ascending(s),
        0 <= i < s.len(),
    ensures
        as_map(s).contains_key(s[i].key as int),
        as_map(s)[s[i].key as int] == s[i].bytes,
        position(s, s[i].key as int) == i,
{
    let k = s[i].key as int;
    assert(holds_key(s, k));
    let p = position(s, k);
    assert(0 <= p < s.len() && s[p].key == k);
    if p < i {
        assert(s[p].key < s[i].key);
    }
    if i < p {
        assert(s[i].key < s[p].key);
    }
}

/// A bucket put in anywhere adds its bytes to the sum.
proof fn lemma_sum_insert(s: Seq<Bucket>, i: int, b: Bucket)
    requires
        0 <= i <= s.len(),
    ensures
        bytes_sum(s.insert(i, b)) == bytes_sum(s) + b.bytes,
    decreases s.len() - i,
{
    let t = s.insert(i, b);
    if i == s.len() {
        assert(t.drop_last() =~= s);
    } else {
        assert(t.drop_last() =~= s.drop_last().insert(i, b));
        assert(t.last() == s.last());
        lemma_sum_insert(s.drop_last(), i, b);
    }
}

/// A bucket replaced changes the sum by the difference of the bytes.
proof fn lemma_sum_update(s: Seq<Bucket>, i: int, b: Bucket)
    requires
        0 <= i < s.len(),
    ensures
        bytes_sum(s.update(i, b)) + s[i].bytes == bytes_sum(s) + b.bytes,
    decreases s.len() - i,
{
    let t = s.update(i, b);
    if i == s.len() - 1 {
        assert(t.drop_last() =~= s.drop_last());
    } else {
        assert(t.drop_last() =~= s.drop_last().update(i, b));
        assert(t.last() == s.last());
        lemma_sum_update(s.drop_last(), i, b);
    }
}

/// Ascending buckets that hold the same mapping are the same buckets.
pub proof fn lemma_ascending_unique(s: Seq<Bucket>, t: Seq<Bucket>)
    requires
        ascending(s),
        ascending(t),
        as_map(s) == as_map(t),
    ensures
        s == t,
    decreases s.len(),
{
    if s.len() == 0 {
        if t.len() > 0 {
            lemma_map_at(t, 0);
            assert(holds_key(s, t[0].key as int));
        }
        assert(s =~= t);
    } else if t.len() == 0 {
        lemma_map_at(s, 0);
        assert(holds_key(t, s[0].key as int));
    } else {
        let ls = s.len() - 1;
        let lt = t.len() - 1;
        lemma_map_at(s, ls);
        lemma_map_at(t, lt);
        let ps = position(t, s[ls].key as int);
        let pt = position(s, t[lt].key as int);
        assert(holds_key(t, s[ls].key as int));
        assert(holds_key(s, t[lt].key as int));
        assert(t[ps].key == s[ls].key);
        assert(s[pt].key == t[lt].key);
        if ps < lt {
            assert(t[ps].key < t[lt].key);
        }
        if pt < ls {
            assert(s[pt].key < s[ls].key);
        }
        assert(s[ls].key == t[lt].key);
        assert(s[ls] == t[lt]);
        let s0 = s.drop_last();
        let t0 = t.drop_last();
        lemma_drop_last_map(s);
        lemma_drop_last_map(t);
        lemma_ascending_unique(s0, t0);
        assert(s =~= s0.push(s[ls]));
        assert(t =~= t0.push(t[lt]));
    }
}

/// Without its last bucket an ascending sequence holds the same mapping but
/// for that bucket's key.
proof fn lemma_drop_last_map(s: Seq<Bucket>)
    requires
        ascending(s),
        s.len() > 0,
    ensures
        ascending(s.drop_last()),
        as_map(s.drop_last()) == as_map(s).remove(s.last().key as int),
{
    let s0 = s.drop_last();
    let m0 = as_map(s0);
    let m1 = as_map(s).remove(s.last().key as int);
    assert forall|i: int, j: int| 0 <= i < j < s0.len() implies (#[trigger] s0[i]).key < (
    #[trigger] s0[j]).key by {
        assert(s[i].key < s[j].key);
    }
    assert forall|k: int| m0.contains_key(k) implies m1.contains_key(k) && m0[k] == m1[k] by {
        let p = position(s0, k);
        assert(s[p] == s0[p]);
        lemma_map_at(s0, p);
        lemma_map_at(s, p);
        assert(s[p].key < s[s.len() - 1].key);
    }
    assert forall|k: int| m1.contains_key(k) implies m0.contains_key(k) by {
        let p = position(s, k);
        assert(s[p].key == k);
        assert(p < s.len() - 1);
        assert(s0[p] == s[p]);
    }
    assert(m0 =~= m1);
}

/// Byte totals by bucket.
#[derive(Debug)]
pub struct SizeAggregate {
    rows: Vec<Bucket>,
}

impl SizeAggregate {
    /// The buckets, in the order in which they are kept.
    pub closed spec fn buckets(&self) -> Seq<Bucket> {
        self.rows@
    }

    /// The buckets are in strictly ascending order of key, so no key occurs
    /// twice.
    pub open spec fn wf(&self) -> bool {
        ascending(self.buckets())
    }

    /// The mapping from bucket to bytes.
    pub open spec fn view(&self) -> Map<int, nat> {
        as_map(self.buckets())
    }

    /// The bytes of all buckets together.
    pub open spec fn sum(&self) -> nat {
        bytes_sum(self.buckets())
    }

    /// The bytes counted under `key` so far: zero where it has no bucket.
    pub open spec fn total_at(&self, key: int) -> nat {
        if self@.contains_key(key) {
            self@[key]
        } else {
            0
        }
    }

    /// A bucket's total fits in 64 bits.
    pub proof fn lemma_total_fits(&self, key: int)
        requires
            self.wf(),
        ensures
            self.total_at(key) <= u64::MAX,
    {
        if self@.contains_key(key) {
            let p = position(self.buckets(), key);
            lemma_map_at(self.buckets(), p);
        }
    }

    /// An aggregate without buckets.
    pub fn new() -> (r: Self)
        ensures
            r.wf(),
            r.buckets() == Seq::<Bucket>::empty(),
            r@ == Map::<int, nat>::empty(),
            r.sum() == 0,
    {
        let r = SizeAggregate { rows: Vec::new() };
        assert(r@ =~= Map::<int, nat>::empty());
        r
    }

    /// Adds `size` bytes to the bucket `key`, which is made if it is not
    /// there. Fails, and changes nothing, where the bucket's total would
    /// pass `u64::MAX`.
    pub fn add(&mut self, key: i32, size: u64) -> (r: Result<(), TraversalError>)
        requires
            old(self).wf(),
        ensures
            final(self).wf(),
            r.is_err() <==> old(self).total_at(key as int) + size > u64::MAX,
            r.is_err() ==> r == Err::<(), TraversalError>(TraversalError::TotalOverflow)
                && final(self).buckets() == old(self).buckets(),
            r.is_ok() ==> final(self)@ == old(self)@.insert(
                key as int,
                (old(self).total_at(key as int) + size) as nat,
            ) && final(self).sum() == old(self).sum() + size,
    {
        let ghost before = self.rows@;
        let n: usize = self.rows.len();
        let mut i: usize = 0;
        while i < n && self.rows[i].key < key
            invariant
                self.rows@ == before,
                n == before.len(),
                0 <= i <= n,
                forall|j: int| 0 <= j < i ==> (#[trigger] before[j]).key < key,
            decreases n - i,
        {
            i += 1;
        }
        if i < n && self.rows[i].key == key {
            let current: u64 = self.rows[i].bytes;
            proof {
                lemma_map_at(before, i as int);
            }
            if size > u64::MAX - current {
                return Err(TraversalError::TotalOverflow);
            }
            let grown = Bucket { key, bytes: current + size };
            self.rows.set(i, grown);
            proof {
                let after = self.rows@;
                assert(after == before.update(i as int, grown));
                assert forall|a: int, b: int| 0 <= a < b < after.len() implies (
                #[trigger] after[a]).key < (#[trigger] after[b]).key by {
                    assert(before[a].key < before[b].key);
                }
                lemma_sum_update(before, i as int, grown);
                let m0 = as_map(before).insert(key as int, (current + size) as nat);
                let m1 = as_map(after);
                assert forall|k: int| m1.contains_key(k) implies m0.contains_key(k) && m0[k]
                    == m1[k] by {
                    let p = position(after, k);
                    lemma_map_at(after, p);
                    assert(before[p].key == after[p].key);
                    lemma_map_at(before, p);
                }
                assert forall|k: int| m0.contains_key(k) implies m1.contains_key(k) by {
                    if k != key {
                        let p = position(before, k);
                        assert(after[p].key == k);
                    } else {
                        assert(after[i as int].key == k);
                    }
                }
                assert(m0 =~= m1);
            }
            Ok(())
        } else {
            let fresh = Bucket { key, bytes: size };
            self.rows.insert(i, fresh);
            proof {
                let after = self.rows@;
                assert(after == before.insert(i as int, fresh));
                assert forall|j: int| 0 <= j < before.len() implies (#[trigger] before[j]).key
                    != key by {
                    if j >= i {
                        if j > i {
                            assert(before[i as int].key < before[j].key);
                        }
                    }
                }
                assert(!holds_key(before, key as int));
                assert forall|a: int, b: int| 0 <= a < b < after.len() implies (
                #[trigger] after[a]).key < (#[trigger] after[b]).key by {
                    let a0 = if a < i { a } else { a - 1 };
                    let b0 = if b < i { b } else { b - 1 };
                    if a != i && b != i {
                        assert(before[a0].key < before[b0].key);
                    } else if a == i {
                        assert(after[b] == before[b0]);
                        if b0 > i {
                            assert(before[i as int].key < before[b0].key);
                        }
                        assert(before[b0].key != key);
                    } else {
                        assert(after[a] == before[a0]);
                    }
                }
                lemma_sum_insert(before, i as int, fresh);
                let m0 = as_map(before).insert(key as int, size as nat);
                let m1 = as_map(after);
                assert forall|k: int| m1.contains_key(k) implies m0.contains_key(k) && m0[k]
                    == m1[k] by {
                    let p = position(after, k);
                    lemma_map_at(after, p);
                    if p != i {
                        let p0 = if p < i { p } else { p - 1 };
                        assert(after[p] == before[p0]);
                        lemma_map_at(before, p0);
                    }
                }
                assert forall|k: int| m0.contains_key(k) implies m1.contains_key(k) by {
                    if k != key {
                        let p = position(before, k);
                        let p1 = if p < i { p } else { p + 1 };
                        assert(after[p1] == before[p]);
                    } else {
                        assert(after[i as int].key == k);
                    }
                }
                assert(m0 =~= m1);
            }
            Ok(())
        }
    }

    /// The bytes counted under `key`, if it has a bucket.
    pub fn get(&self, key: i32) -> (r: Option<u64>)
        requires
            self.wf(),
        ensures
            match r {
                Some(bytes) => self@.contains_key(key as int) && self@[key as int] == bytes,
                None => !self@.contains_key(key as int),
            },
    {
        let n: usize = self.rows.len();
        let mut i: usize = 0;
        while i < n
            invariant
                n == self.rows@.len(),
                0 <= i <= n,
                self.wf(),
                forall|j: int| 0 <= j < i ==> (#[trigger] self.rows@[j]).key != key,
            decreases n - i,
        {
            if self.rows[i].key == key {
                proof {
                    lemma_map_at(self.rows@, i as int);
                }
                return Some(self.rows[i].bytes);
            }
            i += 1;
        }
        None
    }

    /// The number of buckets.
    pub fn len(&self) -> (r: usize)
        ensures
            r == self.buckets().len(),
    {
        self.rows.len()
    }

    /// The bucket at `index`, counted in ascending order of key.
    pub fn bucket(&self, index: usize) -> (r: Bucket)
        requires
            index < self.buckets().len(),
        ensures
            r == self.buckets()[index as int],
    {
        self.rows[index]
    }
}

} // verus!
