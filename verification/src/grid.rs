//! The bucket grid: an ordered collection of time buckets, each holding up
//! to four source prices and one consolidated price.
//!
//! Buckets are kept sorted by their start timestamp, oldest first, and keys
//! are unique, so the chronological order that consolidation and
//! interpolation need is an invariant rather than a sorting step.

use vstd::prelude::*;
use crate::rounding::{Granularity, round_spec, round_timestamp};

verus! {

/// Largest price the grid accepts, in fixed-point units (a price of one
/// million). Keeps every later sum and square inside machine integers.
pub const PRICE_MAX: i64 = 1_000_000_000_000_000;

/// One of the four source feeds, in consolidation order.
#[derive(Clone, Copy, Debug, PartialEq, Eq, Structural)]
pub enum FeedSlot {
    FeedA,
    FeedB,
    FeedC,
    FeedD,
}

/// One time bucket: up to four source prices and one consolidated price,
/// all in fixed-point units.
#[derive(Clone, Copy, Debug)]
pub struct Bucket {
    pub feed_a: Option<i64>,
    pub feed_b: Option<i64>,
    pub feed_c: Option<i64>,
    pub feed_d: Option<i64>,
    pub consolidated: Option<i64>,
}

/// Whether an optional price lies inside the representable range.
pub open spec fn price_opt_valid(p: Option<i64>) -> bool {
    p is Some ==> 0 <= p->0 <= PRICE_MAX
}

impl Bucket {
    /// A bucket with all five fields unset.
    pub open spec fn empty_spec() -> Bucket {
        Bucket { feed_a: None, feed_b: None, feed_c: None, feed_d: None, consolidated: None }
    }

    /// A bucket with all five fields unset.
    pub fn empty() -> (b: Bucket)
        ensures
            b == Bucket::empty_spec(),
    {
        Bucket { feed_a: None, feed_b: None, feed_c: None, feed_d: None, consolidated: None }
    }

    /// The price this bucket holds for a feed.
    pub open spec fn slot_spec(self, s: FeedSlot) -> Option<i64> {
        match s {
            FeedSlot::FeedA => self.feed_a,
            FeedSlot::FeedB => self.feed_b,
            FeedSlot::FeedC => self.feed_c,
            FeedSlot::FeedD => self.feed_d,
        }
    }

    /// This bucket with one feed's price replaced.
    pub open spec fn with_slot_spec(self, s: FeedSlot, p: i64) -> Bucket {
        match s {
            FeedSlot::FeedA => Bucket { feed_a: Some(p), ..self },
            FeedSlot::FeedB => Bucket { feed_b: Some(p), ..self },
            FeedSlot::FeedC => Bucket { feed_c: Some(p), ..self },
            FeedSlot::FeedD => Bucket { feed_d: Some(p), ..self },
        }
    }

    /// This bucket with the consolidated price replaced.
    pub open spec fn with_consolidated_spec(self, c: Option<i64>) -> Bucket {
        Bucket { consolidated: c, ..self }
    }

    /// The price this bucket holds for a feed.
    pub fn slot(&self, s: FeedSlot) -> (r: Option<i64>)
        ensures
            r == self.slot_spec(s),
    {
        match s {
            FeedSlot::FeedA => self.feed_a,
            FeedSlot::FeedB => self.feed_b,
            FeedSlot::FeedC => self.feed_c,
            FeedSlot::FeedD => self.feed_d,
        }
    }

    /// Writes one feed's price, overwriting any prior value for that slot.
    pub fn set_slot(&mut self, s: FeedSlot, p: i64)
        ensures
            *final(self) == old(self).with_slot_spec(s, p),
    {
        match s {
            FeedSlot::FeedA => self.feed_a = Some(p),
            FeedSlot::FeedB => self.feed_b = Some(p),
            FeedSlot::FeedC => self.feed_c = Some(p),
            FeedSlot::FeedD => self.feed_d = Some(p),
        }
    }

    /// All five fields lie inside the representable price range.
    pub open spec fn valid(self) -> bool {
        &&& price_opt_valid(self.feed_a)
        &&& price_opt_valid(self.feed_b)
        &&& price_opt_valid(self.feed_c)
        &&& price_opt_valid(self.feed_d)
        &&& price_opt_valid(self.consolidated)
    }
}

/// The mapping a sequence of keyed buckets stands for; a later entry for the
/// same key wins.
pub open spec fn map_of(s: Seq<(i64, Bucket)>) -> Map<int, Bucket>
    decreases s.len(),
{
    if s.len() == 0 {
        Map::empty()
    } else {
        map_of(s.drop_last()).insert(s.last().0 as int, s.last().1)
    }
}

/// Whether some entry of the sequence carries this key.
pub open spec fn has_key(s: Seq<(i64, Bucket)>, k: int) -> bool {
    exists|i: int| 0 <= i < s.len() && (#[trigger] s[i]).0 == k
}

/// No two entries carry the same key.
pub open spec fn unique_keys(s: Seq<(i64, Bucket)>) -> bool {
    forall|i: int, j: int| 0 <= i < j < s.len() ==> s[i].0 != s[j].0
}

/// The domain of the mapping is exactly the set of keys that occur.
pub proof fn lemma_map_of_dom(s: Seq<(i64, Bucket)>)
    ensures
        forall|k: int| #[trigger] map_of(s).dom().contains(k) <==> has_key(s, k),
    decreases s.len(),
{
    if s.len() > 0 {
        let dl = s.drop_last();
        lemma_map_of_dom(dl);
        let lk = s.last().0 as int;
        assert forall|k: int| #[trigger] map_of(s).dom().contains(k) implies has_key(s, k) by {
            if k == lk {
                assert(s[s.len() - 1].0 == k);
            } else {
                assert(map_of(dl).dom().contains(k));
                assert(has_key(dl, k));
                let i = choose|i: int| 0 <= i < dl.len() && (#[trigger] dl[i]).0 == k;
                assert(s[i] == dl[i]);
                assert(s[i].0 == k);
            }
        }
        assert forall|k: int| has_key(s, k) implies #[trigger] map_of(s).dom().contains(k) by {
            let i = choose|i: int| 0 <= i < s.len() && (#[trigger] s[i]).0 == k;
            if i < s.len() - 1 {
                assert(dl[i] == s[i]);
                assert(has_key(dl, k));
                assert(map_of(dl).dom().contains(k));
            } else {
                assert(k == lk);
            }
        }
    }
}

/// With unique keys, the mapping sends each occurring key to its entry's
/// bucket.
pub proof fn lemma_map_of_index(s: Seq<(i64, Bucket)>, i: int)
    requires
        unique_keys(s),
        0 <= i < s.len(),
    ensures
        map_of(s).dom().contains(s[i].0 as int),
        map_of(s)[s[i].0 as int] == s[i].1,
    decreases s.len(),
{
    lemma_map_of_dom(s);
    if i == s.len() - 1 {
    } else {
        lemma_map_of_index(s.drop_last(), i);
        assert(s.drop_last()[i] == s[i]);
    }
}

/// Replacing the bucket of the entry at `i` updates the mapping at that
/// entry's key and nothing else.
pub proof fn lemma_map_of_update(s: Seq<(i64, Bucket)>, i: int, b: Bucket)
    requires
        unique_keys(s),
        0 <= i < s.len(),
    ensures
        map_of(s.update(i, (s[i].0, b))) == map_of(s).insert(s[i].0 as int, b),
    decreases s.len(),
{
    let s2 = s.update(i, (s[i].0, b));
    if i == s.len() - 1 {
        assert(s2.drop_last() =~= s.drop_last());
        assert(map_of(s2) =~= map_of(s).insert(s[i].0 as int, b));
    } else {
        assert(s2.drop_last() =~= s.drop_last().update(i, (s[i].0, b)));
        lemma_map_of_update(s.drop_last(), i, b);
        assert(s.drop_last()[i] == s[i]);
        // the two inserted keys differ, so the inserts commute
        assert(s[i].0 != s.last().0);
        assert(map_of(s2) =~= map_of(s).insert(s[i].0 as int, b));
    }
}

/// Inserting an entry with a fresh key adds exactly that key to the mapping.
pub proof fn lemma_map_of_insert(s: Seq<(i64, Bucket)>, i: int, k: i64, b: Bucket)
    requires
        0 <= i <= s.len(),
        !has_key(s, k as int),
    ensures
        map_of(s.insert(i, (k, b))) == map_of(s).insert(k as int, b),
    decreases s.len(),
{
    let s2 = s.insert(i, (k, b));
    if i == s.len() {
        assert(s2.drop_last() =~= s);
        assert(s2.last() == (k, b));
        assert(map_of(s2) == map_of(s).insert(k as int, b));
    } else {
        assert(s2.last() == s.last());
        assert(s2.drop_last() =~= s.drop_last().insert(i, (k, b)));
        assert(!has_key(s.drop_last(), k as int)) by {
            if has_key(s.drop_last(), k as int) {
                let j = choose|j: int|
                    0 <= j < s.drop_last().len() && (#[trigger] s.drop_last()[j]).0 == k;
                assert(s[j].0 == k);
            }
        }
        lemma_map_of_insert(s.drop_last(), i, k, b);
        // k is not the last entry's key, so the inserts commute
        assert(s[s.len() - 1].0 != k);
        assert(map_of(s2) =~= map_of(s).insert(k as int, b));
    }
}

/// The bucket a mapping holds at a key, or the empty bucket where the key is
/// absent.
pub open spec fn bucket_at(m: Map<int, Bucket>, k: int) -> Bucket {
    if m.dom().contains(k) {
        m[k]
    } else {
        Bucket::empty_spec()
    }
}

/// One observation merged into the mapping: the price lands in the feed's
/// slot of the bucket at `k`, which is created when absent.
pub open spec fn merge_one(m: Map<int, Bucket>, k: int, s: FeedSlot, p: i64) -> Map<int, Bucket> {
    m.insert(k, bucket_at(m, k).with_slot_spec(s, p))
}

/// A feed's observations merged into the mapping, in sequence order; for two
/// observations rounding into the same bucket the later one wins.
pub open spec fn merge_obs(
    m: Map<int, Bucket>,
    obs: Seq<(i64, i64)>,
    s: FeedSlot,
    g: Granularity,
) -> Map<int, Bucket>
    decreases obs.len(),
{
    if obs.len() == 0 {
        m
    } else {
        merge_one(
            merge_obs(m, obs.drop_last(), s, g),
            round_spec(obs.last().0 as int, g),
            s,
            obs.last().1,
        )
    }
}

/// Merging one observation is idempotent: applying it a second time leaves
/// the grid unchanged, since the later write lands on the same bucket and
/// slot.
pub proof fn lemma_merge_one_idempotent(m: Map<int, Bucket>, k: int, s: FeedSlot, p: i64)
    ensures
        merge_one(merge_one(m, k, s, p), k, s, p) == merge_one(m, k, s, p),
{
    assert(merge_one(merge_one(m, k, s, p), k, s, p) =~= merge_one(m, k, s, p));
}

/// Writing two different slots commutes, whether or not the two
/// observations land in the same bucket.
proof fn lemma_merge_one_commutes(
    m: Map<int, Bucket>,
    k1: int,
    s1: FeedSlot,
    p1: i64,
    k2: int,
    s2: FeedSlot,
    p2: i64,
)
    requires
        s1 != s2,
    ensures
        merge_one(merge_one(m, k1, s1, p1), k2, s2, p2) == merge_one(
            merge_one(m, k2, s2, p2),
            k1,
            s1,
            p1,
        ),
{
    if k1 == k2 {
        assert(bucket_at(m, k1).with_slot_spec(s1, p1).with_slot_spec(s2, p2) == bucket_at(
            m,
            k1,
        ).with_slot_spec(s2, p2).with_slot_spec(s1, p1));
        assert(merge_one(merge_one(m, k1, s1, p1), k2, s2, p2) =~= merge_one(
            merge_one(m, k2, s2, p2),
            k1,
            s1,
            p1,
        ));
    } else {
        assert(merge_one(merge_one(m, k1, s1, p1), k2, s2, p2) =~= merge_one(
            merge_one(m, k2, s2, p2),
            k1,
            s1,
            p1,
        ));
    }
}

/// One observation for one slot commutes with a whole run of another slot's
/// observations.
proof fn lemma_merge_one_obs_commutes(
    m: Map<int, Bucket>,
    obs: Seq<(i64, i64)>,
    s1: FeedSlot,
    g: Granularity,
    k: int,
    s2: FeedSlot,
    p: i64,
)
    requires
        s1 != s2,
    ensures
        merge_one(merge_obs(m, obs, s1, g), k, s2, p) == merge_obs(
            merge_one(m, k, s2, p),
            obs,
            s1,
            g,
        ),
    decreases obs.len(),
{
    if obs.len() > 0 {
        let dl = obs.drop_last();
        let lk = round_spec(obs.last().0 as int, g);
        let lp = obs.last().1;
        lemma_merge_one_commutes(merge_obs(m, dl, s1, g), lk, s1, lp, k, s2, p);
        lemma_merge_one_obs_commutes(m, dl, s1, g, k, s2, p);
    }
}

/// Merging feed A then feed B yields, bucket for bucket and slot for slot,
/// the same grid as merging feed B then feed A, for any two distinct slots.
pub proof fn lemma_merge_commutes(
    m: Map<int, Bucket>,
    obs_a: Seq<(i64, i64)>,
    slot_a: FeedSlot,
    obs_b: Seq<(i64, i64)>,
    slot_b: FeedSlot,
    g: Granularity,
)
    requires
        slot_a != slot_b,
    ensures
        merge_obs(merge_obs(m, obs_a, slot_a, g), obs_b, slot_b, g) == merge_obs(
            merge_obs(m, obs_b, slot_b, g),
            obs_a,
            slot_a,
            g,
        ),
    decreases obs_b.len(),
{
    if obs_b.len() > 0 {
        let dl = obs_b.drop_last();
        let lk = round_spec(obs_b.last().0 as int, g);
        let lp = obs_b.last().1;
        lemma_merge_commutes(m, obs_a, slot_a, dl, slot_b, g);
        lemma_merge_one_obs_commutes(
            merge_obs(m, dl, slot_b, g),
            obs_a,
            slot_a,
            g,
            lk,
            slot_b,
            lp,
        );
    }
}

/// The mapping from bucket start timestamp to bucket.
pub struct Grid {
    entries: Vec<(i64, Bucket)>,
}

impl View for Grid {
    type V = Seq<(i64, Bucket)>;

    closed spec fn view(&self) -> Seq<(i64, Bucket)> {
        self.entries@
    }
}

impl Grid {
    /// Buckets are sorted by start timestamp, keys are unique and
    /// timestamps and prices lie in range.
    pub open spec fn wf(self) -> bool {
        &&& forall|i: int, j: int| 0 <= i < j < self@.len() ==> self@[i].0 < self@[j].0
        &&& forall|i: int| 0 <= i < self@.len() ==> (#[trigger] self@[i]).1.valid()
    }

    /// An empty grid.
    pub fn new() -> (grid: Grid)
        ensures
            grid.wf(),
            grid@ == Seq::<(i64, Bucket)>::empty(),
    {
        Grid { entries: Vec::new() }
    }

    /// Number of buckets.
    pub fn len(&self) -> (n: usize)
        ensures
            n == self@.len(),
    {
        self.entries.len()
    }

    /// The bucket at a chronological position, oldest first.
    pub fn entry_at(&self, i: usize) -> (e: (i64, Bucket))
        requires
            i < self@.len(),
        ensures
            e == self@[i as int],
    {
        (self.entries[i].0, self.entries[i].1)
    }

    /// Builds the grid of `no_of_periods` buckets, stepping backward one
    /// period at a time from `now` and rounding each step to its period
    /// start; every field of every bucket starts unset.
    pub fn initialize(now: i64, no_of_periods: usize, g: Granularity) -> (grid: Grid)
        requires
            1 <= no_of_periods,
            no_of_periods * g.period_len() <= now,
        ensures
            grid.wf(),
            grid@.len() == no_of_periods,
            forall|i: int|
                0 <= i < no_of_periods ==> (#[trigger] grid@[i]).0 == round_spec(now as int, g)
                    - (no_of_periods - 1 - i) * g.period_len(),
            forall|i: int| 0 <= i < no_of_periods ==> (#[trigger] grid@[i]).1 == Bucket::empty_spec(),
    {
        let p = g.period_seconds();
        proof {
            assert(no_of_periods * g.period_len() >= 1 * g.period_len()) by (nonlinear_arith)
                requires
                    no_of_periods >= 1,
                    g.period_len() >= 1,
            ;
        }
        let rounded_now = round_timestamp(now, g);
        let n_i64: i64 = no_of_periods as i64;
        proof {
            assert(no_of_periods <= no_of_periods * g.period_len()) by (nonlinear_arith)
                requires
                    g.period_len() >= 1,
                    no_of_periods >= 0,
            ;
            assert((n_i64 - 1) * p <= no_of_periods * g.period_len() - 1 * g.period_len())
                by (nonlinear_arith)
                requires
                    n_i64 == no_of_periods,
                    p == g.period_len(),
                    no_of_periods >= 1,
                    g.period_len() >= 1,
            ;
            assert(rounded_now > now - p);
        }
        let start: i64 = rounded_now - (n_i64 - 1) * p;
        let mut entries: Vec<(i64, Bucket)> = Vec::new();
        let mut i: usize = 0;
        while i < no_of_periods
            invariant
                i <= no_of_periods,
                entries@.len() == i,
                0 < start,
                start + (no_of_periods - 1) * p == rounded_now,
                rounded_now <= now,
                p == g.period_len(),
                1 <= p,
                rounded_now == round_spec(now as int, g),
                forall|j: int|
                    0 <= j < i ==> (#[trigger] entries@[j]).0 == start + j * p,
                forall|j: int| 0 <= j < i ==> (#[trigger] entries@[j]).1 == Bucket::empty_spec(),
            decreases no_of_periods - i,
        {
            proof {
                assert(0 <= i * p <= (no_of_periods - 1) * p) by (nonlinear_arith)
                    requires
                        0 <= i <= no_of_periods - 1,
                        p >= 1,
                ;
            }
            let key: i64 = start + (i as i64) * p;
            entries.push((key, Bucket::empty()));
            i += 1;
        }
        proof {
            assert forall|a: int, b: int| 0 <= a < b < entries@.len() implies entries@[a].0
                < entries@[b].0 by {
                assert(a * p < b * p) by (nonlinear_arith)
                    requires
                        a < b,
                        p >= 1,
                ;
            }
            assert forall|j: int| 0 <= j < no_of_periods implies (#[trigger] entries@[j]).0
                == round_spec(now as int, g) - (no_of_periods - 1 - j) * g.period_len() by {
                assert(start + j * p == rounded_now - (no_of_periods - 1 - j) * p)
                    by (nonlinear_arith)
                    requires
                        start + (no_of_periods - 1) * p == rounded_now,
                ;
            }
        }
        Grid { entries }
    }

    /// Removes all but the chronologically most recent `no_of_periods`
    /// buckets.
    pub fn prune(&mut self, no_of_periods: usize)
        requires
            old(self).wf(),
        ensures
            final(self).wf(),
            old(self)@.len() <= no_of_periods ==> final(self)@ == old(self)@,
            old(self)@.len() > no_of_periods ==> final(self)@ == old(self)@.subrange(
                old(self)@.len() - no_of_periods,
                old(self)@.len() as int,
            ),
    {
        let len = self.entries.len();
        if len > no_of_periods {
            let tail = self.entries.split_off(len - no_of_periods);
            self.entries = tail;
        } else {
            proof {
                assert(self@ =~= old(self)@);
            }
        }
    }

    /// Writes the consolidated price of the bucket at chronological
    /// position `i`, leaving its key and source slots unchanged.
    pub fn set_consolidated_at(&mut self, i: usize, c: Option<i64>)
        requires
            old(self).wf(),
            i < old(self)@.len(),
            price_opt_valid(c),
        ensures
            final(self).wf(),
            final(self)@ == old(self)@.update(
                i as int,
                (old(self)@[i as int].0, old(self)@[i as int].1.with_consolidated_spec(c)),
            ),
    {
        let key = self.entries[i].0;
        let mut b = self.entries[i].1;
        b.consolidated = c;
        self.entries[i] = (key, b);
    }

    /// Where a key sits in the sorted entries: its position when present,
    /// else the position at which it would keep the order.
    fn find_position(&self, key: i64) -> (r: (usize, bool))
        requires
            self.wf(),
        ensures
            r.1 ==> r.0 < self@.len() && self@[r.0 as int].0 == key,
            !r.1 ==> r.0 <= self@.len() && (forall|j: int| 0 <= j < r.0 ==> self@[j].0 < key) && (
            forall|j: int| r.0 <= j < self@.len() ==> key < self@[j].0),
    {
        let len = self.entries.len();
        let mut i: usize = 0;
        while i < len && self.entries[i].0 < key
            invariant
                i <= len,
                len == self@.len(),
                self.wf(),
                forall|j: int| 0 <= j < i ==> self@[j].0 < key,
            decreases len - i,
        {
            i += 1;
        }
        if i < len && self.entries[i].0 == key {
            (i, true)
        } else {
            proof {
                if i < len {
                    assert forall|j: int| i <= j < self@.len() implies key < self@[j].0 by {
                        if i < j {
                            assert(self@[i as int].0 < self@[j].0);
                        }
                    }
                }
            }
            (i, false)
        }
    }

    /// Merges one feed's observations into the grid: each observation's
    /// timestamp is rounded to its period start, and the price is written
    /// into that feed's slot of the matching bucket, creating the bucket
    /// when the grid does not already contain it. A later observation that
    /// rounds into the same bucket overwrites an earlier one.
    pub fn merge(&mut self, observations: &Vec<(i64, i64)>, slot: FeedSlot, g: Granularity)
        requires
            old(self).wf(),
            forall|i: int|
                0 <= i < observations@.len() ==> i64::MIN + 86400 < (
                #[trigger] observations@[i]).0 && 0 <= observations@[i].1 <= PRICE_MAX,
        ensures
            final(self).wf(),
            map_of(final(self)@) == merge_obs(map_of(old(self)@), observations@, slot, g),
    {
        let n = observations.len();
        let mut idx: usize = 0;
        while idx < n
            invariant
                idx <= n,
                n == observations@.len(),
                self.wf(),
                forall|i: int|
                    0 <= i < observations@.len() ==> i64::MIN + 86400 < (
                    #[trigger] observations@[i]).0 && 0 <= observations@[i].1 <= PRICE_MAX,
                map_of(self@) == merge_obs(
                    map_of(old(self)@),
                    observations@.subrange(0, idx as int),
                    slot,
                    g,
                ),
            decreases n - idx,
        {
            let ghost pre = self@;
            let (ts, price) = observations[idx];
            let key = round_timestamp(ts, g);
            let (pos, found) = self.find_position(key);
            if found {
                let mut b = self.entries[pos].1;
                proof {
                    lemma_map_of_index(pre, pos as int);
                }
                b.set_slot(slot, price);
                self.entries[pos] = (key, b);
                proof {
                    lemma_map_of_update(pre, pos as int, b);
                }
            } else {
                proof {
                    lemma_map_of_dom(pre);
                }
                let mut b = Bucket::empty();
                b.set_slot(slot, price);
                self.entries.insert(pos, (key, b));
                proof {
                    lemma_map_of_insert(pre, pos as int, key, b);
                    assert forall|i: int, j: int| 0 <= i < j < self@.len() implies self@[i].0
                        < self@[j].0 by {
                        if j < pos {
                            assert(pre[i] == self@[i] && pre[j] == self@[j]);
                        } else if i > pos {
                            assert(pre[i - 1] == self@[i] && pre[j - 1] == self@[j]);
                        } else if i < pos && j == pos {
                            assert(pre[i] == self@[i]);
                        } else if i == pos && j > pos {
                            assert(pre[j - 1] == self@[j]);
                        } else if i < pos && j > pos {
                            assert(pre[i] == self@[i] && pre[j - 1] == self@[j]);
                        }
                    }
                }
            }
            proof {
                assert(observations@.subrange(0, idx + 1).drop_last() =~= observations@.subrange(
                    0,
                    idx as int,
                ));
                assert(observations@.subrange(0, idx + 1).last() == observations@[idx as int]);
            }
            idx += 1;
        }
        proof {
            assert(observations@.subrange(0, n as int) =~= observations@);
        }
    }
}

} // verus!
