//! Fleet availability: one timestamp per interchangeable vehicle slot, the
//! time at which the vehicle is back at the nest and launchable again.

use vstd::prelude::*;

verus! {

/// The number of slots in `s` available at time `t` (those with
/// `available_at <= t`).
pub open spec fn avail_count(s: Seq<u64>, t: int) -> int
    decreases s.len(),
{
    if s.len() == 0 {
        0
    } else {
        avail_count(s.drop_last(), t) + if s.last() <= t { 1int } else { 0int }
    }
}

/// The number of slots in `s` still out at time `t` (those with
/// `available_at > t`).
pub open spec fn busy_count(s: Seq<u64>, t: int) -> int {
    s.len() - avail_count(s, t)
}

/// `avail_count` counts a subset of the slots.
pub proof fn lemma_avail_count_bounds(s: Seq<u64>, t: int)
    ensures
        0 <= avail_count(s, t) <= s.len(),
    decreases s.len(),
{
    if s.len() > 0 {
        lemma_avail_count_bounds(s.drop_last(), t);
    }
}

/// Fleet bound: at any time, the number of vehicle slots still out never
/// exceeds the fleet size.
pub proof fn lemma_fleet_bound(s: Seq<u64>, t: int)
    ensures
        0 <= busy_count(s, t) <= s.len(),
{
    lemma_avail_count_bounds(s, t);
}

/// If every slot is out, none is available.
pub proof fn lemma_avail_count_none(s: Seq<u64>, t: int)
    requires
        forall|i: int| 0 <= i < s.len() ==> #[trigger] s[i] > t,
    ensures
        avail_count(s, t) == 0,
    decreases s.len(),
{
    if s.len() > 0 {
        assert(forall|i: int| 0 <= i < s.drop_last().len()
            ==> #[trigger] s.drop_last()[i] == s[i]);
        lemma_avail_count_none(s.drop_last(), t);
    }
}

/// How `avail_count` changes when one slot's time is replaced.
pub proof fn lemma_avail_count_update(s: Seq<u64>, t: int, i: int, v: u64)
    requires
        0 <= i < s.len(),
    ensures
        avail_count(s.update(i, v), t) == avail_count(s, t)
            - (if s[i] <= t { 1int } else { 0int })
            + (if v <= t { 1int } else { 0int }),
    decreases s.len(),
{
    let su = s.update(i, v);
    if i == s.len() - 1 {
        assert(su.drop_last() =~= s.drop_last());
        assert(su.last() == v);
    } else {
        assert(su.drop_last() =~= s.drop_last().update(i, v));
        assert(su.last() == s.last());
        lemma_avail_count_update(s.drop_last(), t, i, v);
        assert(s.drop_last()[i] == s[i]);
    }
}

/// Tracks, per vehicle slot, when it is next available for launch.
pub struct FleetState {
    pub available_at: Vec<u64>,
}

impl FleetState {
    /// A fleet of `num_zips` slots, all available from time zero.
    pub fn new(num_zips: usize) -> (f: Self)
        ensures
            f.available_at@.len() == num_zips,
            forall|i: int| 0 <= i < num_zips ==> #[trigger] f.available_at@[i] == 0,
    {
        let mut v: Vec<u64> = Vec::new();
        let mut i: usize = 0;
        while i < num_zips
            invariant
                i <= num_zips,
                v@.len() == i,
                forall|j: int| 0 <= j < i ==> #[trigger] v@[j] == 0,
            decreases num_zips - i,
        {
            v.push(0);
            i += 1;
        }
        FleetState { available_at: v }
    }

    /// The number of vehicle slots available at time `t`.
    pub fn available_count(&self, t: u64) -> (n: usize)
        ensures
            n == avail_count(self.available_at@, t as int),
    {
        let ghost s = self.available_at@;
        let mut n: usize = 0;
        let mut i: usize = 0;
        proof {
            lemma_avail_count_bounds(s, t as int);
        }
        while i < self.available_at.len()
            invariant
                i <= s.len(),
                self.available_at@ == s,
                n == avail_count(s.take(i as int), t as int),
                n <= i,
            decreases s.len() - i,
        {
            proof {
                assert(s.take(i as int + 1).drop_last() =~= s.take(i as int));
                assert(s.take(i as int + 1).last() == s[i as int]);
            }
            if self.available_at[i] <= t {
                n += 1;
            }
            i += 1;
        }
        proof {
            assert(s.take(s.len() as int) =~= s);
        }
        n
    }

    /// Marks one currently available slot busy until `current_time +
    /// duration` and returns it; among available slots the lowest index wins,
    /// so the choice is deterministic. Callers must have checked
    /// `available_count` first: exhaustion is a bookkeeping bug, ruled out by
    /// the precondition.
    pub fn reserve(&mut self, current_time: u64, duration: u64) -> (slot: usize)
        requires
            avail_count(old(self).available_at@, current_time as int) > 0,
            current_time + duration <= u64::MAX,
        ensures
            slot < old(self).available_at@.len(),
            old(self).available_at@[slot as int] <= current_time,
            forall|j: int| 0 <= j < slot ==> #[trigger] old(self).available_at@[j] > current_time,
            final(self).available_at@ == old(self).available_at@.update(
                slot as int, (current_time + duration) as u64),
    {
        let ghost s = self.available_at@;
        let mut i: usize = 0;
        loop
            invariant
                i <= s.len(),
                s == old(self).available_at@,
                self.available_at@ == s,
                avail_count(s, current_time as int) > 0,
                current_time + duration <= u64::MAX,
                forall|j: int| 0 <= j < i ==> #[trigger] s[j] > current_time,
            decreases s.len() - i,
        {
            if i >= self.available_at.len() {
                proof {
                    lemma_avail_count_none(s, current_time as int);
                }
                // unreachable: some slot is available by the precondition
                proof {
                    assert(false);
                }
            } else if self.available_at[i] <= current_time {
                self.available_at.set(i, current_time + duration);
                return i;
            } else {
                i += 1;
            }
        }
    }
}

} // verus!
