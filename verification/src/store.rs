//! The pending-order store: two priority lanes, each a FIFO ordered by
//! arrival, plus the bulk-removal primitive the planner uses to pull the
//! oldest orders bound for one hospital out of a lane.

use vstd::prelude::*;
use vstd::multiset::Multiset;
use vstd::seq_lib::lemma_multiset_commutative;
use crate::types::{Priority, QueuedOrder};

verus! {

/// Holds the pending orders in two lanes, one per priority, each ordered by
/// arrival (oldest first).
pub struct OrderStore {
    pub emergency: Vec<QueuedOrder>,
    pub resupply: Vec<QueuedOrder>,
}

impl OrderStore {
    /// All pending orders, regardless of lane.
    pub open spec fn pending(&self) -> Multiset<QueuedOrder> {
        self.emergency@.to_multiset().add(self.resupply@.to_multiset())
    }

    /// Every pending order resolves to a hospital below `n_hospitals` and
    /// sits in the lane of its own priority.
    pub open spec fn wf(&self, n_hospitals: int) -> bool {
        &&& forall|i: int| 0 <= i < self.emergency@.len() ==> {
            &&& (#[trigger] self.emergency@[i]).hospital < n_hospitals
            &&& self.emergency@[i].priority == Priority::Emergency
        }
        &&& forall|i: int| 0 <= i < self.resupply@.len() ==> {
            &&& (#[trigger] self.resupply@[i]).hospital < n_hospitals
            &&& self.resupply@[i].priority == Priority::Resupply
        }
    }

    /// An empty store.
    pub fn new() -> (s: Self)
        ensures
            s.emergency@ == Seq::<QueuedOrder>::empty(),
            s.resupply@ == Seq::<QueuedOrder>::empty(),
    {
        OrderStore { emergency: Vec::new(), resupply: Vec::new() }
    }

    /// Appends the order to the lane of its priority, leaving the other lane
    /// untouched; within a lane, arrival order is preserved.
    pub fn insert(&mut self, o: QueuedOrder)
        ensures
            o.priority == Priority::Emergency ==> final(self).emergency@
                == old(self).emergency@.push(o) && final(self).resupply@ == old(self).resupply@,
            o.priority == Priority::Resupply ==> final(self).resupply@
                == old(self).resupply@.push(o) && final(self).emergency@ == old(self).emergency@,
    {
        match o.priority {
            Priority::Emergency => self.emergency.push(o),
            Priority::Resupply => self.resupply.push(o),
        }
    }

    /// The number of pending orders across both lanes.
    pub fn len(&self) -> (n: usize)
        requires
            self.emergency@.len() + self.resupply@.len() <= usize::MAX,
        ensures
            n == self.emergency@.len() + self.resupply@.len(),
    {
        self.emergency.len() + self.resupply.len()
    }
}

/// The first (oldest) orders of `s` destined for hospital `h`, at most `k` of
/// them, in lane order.
pub open spec fn taken_matching(s: Seq<QueuedOrder>, h: int, k: int) -> Seq<QueuedOrder>
    decreases s.len(),
{
    if s.len() == 0 || k <= 0 {
        Seq::empty()
    } else if s[0].hospital == h {
        seq![s[0]] + taken_matching(s.drop_first(), h, k - 1)
    } else {
        taken_matching(s.drop_first(), h, k)
    }
}

/// What remains of `s` after removing `taken_matching(s, h, k)`, in the
/// original relative order.
pub open spec fn kept_matching(s: Seq<QueuedOrder>, h: int, k: int) -> Seq<QueuedOrder>
    decreases s.len(),
{
    if s.len() == 0 || k <= 0 {
        s
    } else if s[0].hospital == h {
        kept_matching(s.drop_first(), h, k - 1)
    } else {
        seq![s[0]] + kept_matching(s.drop_first(), h, k)
    }
}

/// The split into taken and kept orders loses and duplicates nothing.
pub proof fn lemma_matching_conserves(s: Seq<QueuedOrder>, h: int, k: int)
    ensures
        s.to_multiset() == taken_matching(s, h, k).to_multiset().add(
            kept_matching(s, h, k).to_multiset()),
    decreases s.len(),
{
    broadcast use vstd::seq_lib::group_to_multiset_ensures;

    if s.len() == 0 || k <= 0 {
        assert(taken_matching(s, h, k).to_multiset() =~= Multiset::<QueuedOrder>::empty());
        assert(s.to_multiset() =~= Multiset::<QueuedOrder>::empty().add(s.to_multiset()));
    } else {
        let tail = s.drop_first();
        if s[0].hospital == h {
            lemma_matching_conserves(tail, h, k - 1);
            let t2 = taken_matching(tail, h, k - 1);
            let k2 = kept_matching(tail, h, k - 1);
            lemma_multiset_commutative(seq![s[0]], t2);
            assert(seq![s[0]].to_multiset() =~= Multiset::<QueuedOrder>::empty().insert(s[0]));
            assert(seq![s[0]] =~= Seq::<QueuedOrder>::empty().push(s[0]));
            assert((seq![s[0]] + t2).to_multiset() =~= t2.to_multiset().insert(s[0]));
            assert(seq![s[0]] + tail =~= s);
            lemma_multiset_commutative(seq![s[0]], tail);
            assert(s.to_multiset() =~= tail.to_multiset().insert(s[0]));
            assert(s.to_multiset() =~= taken_matching(s, h, k).to_multiset().add(
                kept_matching(s, h, k).to_multiset()));
        } else {
            lemma_matching_conserves(tail, h, k);
            let t2 = taken_matching(tail, h, k);
            let k2 = kept_matching(tail, h, k);
            lemma_multiset_commutative(seq![s[0]], k2);
            assert(seq![s[0]] =~= Seq::<QueuedOrder>::empty().push(s[0]));
            assert((seq![s[0]] + k2).to_multiset() =~= k2.to_multiset().insert(s[0]));
            assert(seq![s[0]] + tail =~= s);
            lemma_multiset_commutative(seq![s[0]], tail);
            assert(s.to_multiset() =~= tail.to_multiset().insert(s[0]));
            assert(s.to_multiset() =~= taken_matching(s, h, k).to_multiset().add(
                kept_matching(s, h, k).to_multiset()));
        }
    }
}

/// What the split takes and keeps: at most `k` orders are taken, all bound
/// for `h`; at least one is taken when one is there to take; every order on
/// either side comes from `s`.
pub proof fn lemma_matching_props(s: Seq<QueuedOrder>, h: int, k: int)
    ensures
        taken_matching(s, h, k).len() <= k || taken_matching(s, h, k).len() == 0,
        forall|j: int| 0 <= j < taken_matching(s, h, k).len()
            ==> (#[trigger] taken_matching(s, h, k)[j]).hospital == h,
        (k >= 1 && exists|j: int| 0 <= j < s.len() && (#[trigger] s[j]).hospital == h)
            ==> taken_matching(s, h, k).len() >= 1,
        forall|j: int| 0 <= j < taken_matching(s, h, k).len()
            ==> s.contains(#[trigger] taken_matching(s, h, k)[j]),
        forall|j: int| 0 <= j < kept_matching(s, h, k).len()
            ==> s.contains(#[trigger] kept_matching(s, h, k)[j]),
        taken_matching(s, h, k).len() + kept_matching(s, h, k).len() == s.len(),
    decreases s.len(),
{
    if s.len() == 0 || k <= 0 {
    } else {
        let tail = s.drop_first();
        lemma_matching_props(tail, h, k - 1);
        lemma_matching_props(tail, h, k);
        assert(forall|j: int| 0 <= j < tail.len() ==> s.contains(#[trigger] tail[j])) by {
            assert(forall|j: int| 0 <= j < tail.len() ==> tail[j] == s[j + 1]);
        }
        if s[0].hospital == h {
            let t2 = taken_matching(tail, h, k - 1);
            assert(taken_matching(s, h, k) == seq![s[0]] + t2);
            assert((seq![s[0]] + t2)[0] == s[0]);
            assert(forall|j: int| 1 <= j < (seq![s[0]] + t2).len()
                ==> (seq![s[0]] + t2)[j] == t2[j - 1]);
            assert(s.contains(s[0]));
        } else {
            let k2 = kept_matching(tail, h, k);
            assert(kept_matching(s, h, k) == seq![s[0]] + k2);
            assert((seq![s[0]] + k2)[0] == s[0]);
            assert(forall|j: int| 1 <= j < (seq![s[0]] + k2).len()
                ==> (seq![s[0]] + k2)[j] == k2[j - 1]);
            assert(s.contains(s[0]));
            if k >= 1 && exists|j: int| 0 <= j < s.len() && (#[trigger] s[j]).hospital == h {
                let j = choose|j: int| 0 <= j < s.len() && (#[trigger] s[j]).hospital == h;
                assert(j >= 1);
                assert(tail[j - 1].hospital == h);
            }
        }
    }
}

/// Removes from `lane` the oldest orders destined for hospital `h`, at most
/// `k` of them: returns `(taken, kept)` where `taken` is those orders in
/// lane order and `kept` is the rest, in the original relative order.
pub fn extract_matching(lane: &Vec<QueuedOrder>, h: usize, k: usize)
    -> (r: (Vec<QueuedOrder>, Vec<QueuedOrder>))
    ensures
        r.0@ == taken_matching(lane@, h as int, k as int),
        r.1@ == kept_matching(lane@, h as int, k as int),
{
    let ghost s = lane@;
    let mut taken: Vec<QueuedOrder> = Vec::new();
    let mut kept: Vec<QueuedOrder> = Vec::new();
    let mut i: usize = 0;
    proof {
        assert(s.skip(0) =~= s);
        assert(taken@ + taken_matching(s, h as int, k as int)
            =~= taken_matching(s, h as int, k as int));
        assert(kept@ + kept_matching(s, h as int, k as int)
            =~= kept_matching(s, h as int, k as int));
    }
    while i < lane.len()
        invariant
            i <= s.len(),
            lane@ == s,
            taken@.len() <= k,
            taken_matching(s, h as int, k as int)
                == taken@ + taken_matching(s.skip(i as int), h as int, k - taken@.len()),
            kept_matching(s, h as int, k as int)
                == kept@ + kept_matching(s.skip(i as int), h as int, k - taken@.len()),
        decreases s.len() - i,
    {
        let o = lane[i];
        let ghost rem = s.skip(i as int);
        let ghost kr = k - taken@.len();
        proof {
            assert(rem[0] == s[i as int]);
            assert(rem.drop_first() =~= s.skip(i as int + 1));
        }
        if o.hospital == h && taken.len() < k {
            proof {
                assert(taken_matching(rem, h as int, kr)
                    == seq![o] + taken_matching(rem.drop_first(), h as int, kr - 1));
                assert(taken@.push(o) =~= taken@ + seq![o]);
                assert((taken@ + seq![o]) + taken_matching(rem.drop_first(), h as int, kr - 1)
                    =~= taken@ + (seq![o] + taken_matching(rem.drop_first(), h as int, kr - 1)));
                assert(kept_matching(rem, h as int, kr)
                    == kept_matching(rem.drop_first(), h as int, kr - 1));
            }
            taken.push(o);
        } else {
            proof {
                if kr <= 0 {
                    assert(taken_matching(rem, h as int, kr) == Seq::<QueuedOrder>::empty());
                    assert(kept_matching(rem, h as int, kr) == rem);
                    assert(rem =~= seq![o] + rem.drop_first());
                    assert(kept_matching(rem.drop_first(), h as int, kr) == rem.drop_first());
                } else {
                    assert(o.hospital != h);
                    assert(taken_matching(rem, h as int, kr)
                        == taken_matching(rem.drop_first(), h as int, kr));
                    assert(kept_matching(rem, h as int, kr)
                        == seq![o] + kept_matching(rem.drop_first(), h as int, kr));
                }
                assert(kept@.push(o) =~= kept@ + seq![o]);
                assert((kept@ + seq![o]) + kept_matching(rem.drop_first(), h as int, kr)
                    =~= kept@ + (seq![o] + kept_matching(rem.drop_first(), h as int, kr)));
            }
            kept.push(o);
        }
        i += 1;
    }
    proof {
        assert(s.skip(s.len() as int) =~= Seq::<QueuedOrder>::empty());
        assert(taken@ + Seq::<QueuedOrder>::empty() =~= taken@);
        assert(kept@ + Seq::<QueuedOrder>::empty() =~= kept@);
    }
    (taken, kept)
}

/// `a` is a subsequence of `b`: `a` is `b` with zero or more elements removed,
/// the rest in their original relative order.
pub open spec fn subseq_of(a: Seq<QueuedOrder>, b: Seq<QueuedOrder>) -> bool
    decreases b.len(), a.len(),
{
    if a.len() == 0 {
        true
    } else if b.len() == 0 {
        false
    } else if a[0] == b[0] {
        subseq_of(a.drop_first(), b.drop_first())
    } else {
        subseq_of(a, b.drop_first())
    }
}

/// Every sequence is a subsequence of itself.
pub proof fn lemma_subseq_refl(a: Seq<QueuedOrder>)
    ensures
        subseq_of(a, a),
    decreases a.len(),
{
    if a.len() > 0 {
        lemma_subseq_refl(a.drop_first());
    }
}

/// Dropping the head of a subsequence keeps it one.
pub proof fn lemma_subseq_drop_first(a: Seq<QueuedOrder>, b: Seq<QueuedOrder>)
    requires
        subseq_of(a, b),
        a.len() > 0,
    ensures
        subseq_of(a.drop_first(), b),
    decreases b.len(),
{
    let at = a.drop_first();
    if a[0] == b[0] {
        if at.len() > 0 {
            if at[0] == b[0] {
                lemma_subseq_drop_first(at, b.drop_first());
            }
        }
    } else {
        lemma_subseq_drop_first(a, b.drop_first());
        if at.len() > 0 && at[0] == b[0] {
            lemma_subseq_drop_first(at, b.drop_first());
        }
    }
}

/// A subsequence of `b` is a subsequence of `b` with one more element in
/// front.
pub proof fn lemma_subseq_grow(a: Seq<QueuedOrder>, e: QueuedOrder, b: Seq<QueuedOrder>)
    requires
        subseq_of(a, b),
    ensures
        subseq_of(a, seq![e] + b),
{
    let eb = seq![e] + b;
    assert(eb[0] == e);
    assert(eb.drop_first() =~= b);
    if a.len() > 0 && a[0] == e {
        lemma_subseq_drop_first(a, b);
    }
}

/// What `kept_matching` keeps is a subsequence of the lane.
pub proof fn lemma_kept_subseq(s: Seq<QueuedOrder>, h: int, k: int)
    ensures
        subseq_of(kept_matching(s, h, k), s),
    decreases s.len(),
{
    if s.len() == 0 || k <= 0 {
        lemma_subseq_refl(s);
    } else {
        let tail = s.drop_first();
        if s[0].hospital == h {
            lemma_kept_subseq(tail, h, k - 1);
            lemma_subseq_grow(kept_matching(tail, h, k - 1), s[0], tail);
            assert(seq![s[0]] + tail =~= s);
        } else {
            lemma_kept_subseq(tail, h, k);
            let kp = kept_matching(s, h, k);
            assert(kp == seq![s[0]] + kept_matching(tail, h, k));
            assert(kp[0] == s[0]);
            assert(kp.drop_first() =~= kept_matching(tail, h, k));
        }
    }
}

/// Every element of a subsequence occurs in the longer sequence.
pub proof fn lemma_subseq_contains(a: Seq<QueuedOrder>, b: Seq<QueuedOrder>)
    requires
        subseq_of(a, b),
    ensures
        forall|i: int| 0 <= i < a.len() ==> b.contains(#[trigger] a[i]),
    decreases b.len(),
{
    if a.len() == 0 || b.len() == 0 {
    } else if a[0] == b[0] {
        lemma_subseq_contains(a.drop_first(), b.drop_first());
        assert forall|i: int| 0 <= i < a.len() implies b.contains(#[trigger] a[i]) by {
            if i == 0 {
                assert(b[0] == a[0]);
            } else {
                assert(a.drop_first()[i - 1] == a[i]);
                assert(b.drop_first().contains(a[i]));
                let ix = choose|ix: int| 0 <= ix < b.drop_first().len()
                    && b.drop_first()[ix] == a[i];
                assert(b[ix + 1] == a[i]);
            }
        }
    } else {
        lemma_subseq_contains(a, b.drop_first());
        assert forall|i: int| 0 <= i < a.len() implies b.contains(#[trigger] a[i]) by {
            assert(b.drop_first().contains(a[i]));
            let ix = choose|ix: int| 0 <= ix < b.drop_first().len()
                && b.drop_first()[ix] == a[i];
            assert(b[ix + 1] == a[i]);
        }
    }
}

/// Being a subsequence is transitive.
pub proof fn lemma_subseq_trans(a: Seq<QueuedOrder>, b: Seq<QueuedOrder>, c: Seq<QueuedOrder>)
    requires
        subseq_of(a, b),
        subseq_of(b, c),
    ensures
        subseq_of(a, c),
    decreases c.len(),
{
    if a.len() == 0 || b.len() == 0 || c.len() == 0 {
    } else if b[0] == c[0] {
        if a[0] == b[0] {
            lemma_subseq_trans(a.drop_first(), b.drop_first(), c.drop_first());
        } else {
            lemma_subseq_trans(a, b.drop_first(), c.drop_first());
        }
    } else {
        lemma_subseq_trans(a, b, c.drop_first());
        if a[0] == c[0] {
            lemma_subseq_drop_first(a, c.drop_first());
        }
    }
}

} // verus!
