//! The flight planner: builds feasible flights from the pending orders.
//!
//! One call builds one flight. The emergency pass anchors a flight on the
//! oldest routable emergency order and fills it with further orders bound for
//! the same hospital. The resupply pass batches hospital groups into one
//! multi-stop route by nearest-neighbor insertion from the nest, appending
//! whichever group adds the least round-trip length (ties go to the
//! lexicographically smaller hospital name), until the package cap is reached
//! or no group fits within range. Orders whose hospital is out of range stay
//! pending; they never consume a vehicle.

use vstd::prelude::*;
use vstd::multiset::Multiset;
use vstd::seq_lib::lemma_multiset_commutative;
use vstd::string::StrSliceExecFns;
use crate::geometry::{dist, nest, round_trip_len, lemma_round_trip_push, lemma_dist_symmetric};
use crate::geometry::distance_m;
use crate::types::{Hospital, QueuedOrder, Stop, hospital_pos, stop_positions, stops_orders,
    stops_package_count, stops_wf, routable};
use crate::types::Priority;
use crate::store::{OrderStore, taken_matching, kept_matching, extract_matching,
    lemma_matching_conserves, lemma_matching_props, subseq_of, lemma_subseq_refl,
    lemma_kept_subseq, lemma_subseq_trans};

verus! {

/// Strict lexicographic order on character sequences, by code point; a proper
/// prefix comes first.
pub open spec fn lex_lt(a: Seq<char>, b: Seq<char>) -> bool
    decreases a.len(),
{
    if b.len() == 0 {
        false
    } else if a.len() == 0 {
        true
    } else if a[0] != b[0] {
        (a[0] as u32) < (b[0] as u32)
    } else {
        lex_lt(a.drop_first(), b.drop_first())
    }
}

/// Whether `a` comes strictly before `b` in lexicographic order.
pub fn str_lt(a: &str, b: &str) -> (r: bool)
    ensures
        r == lex_lt(a@, b@),
{
    let alen = a.unicode_len();
    let blen = b.unicode_len();
    let mut i: usize = 0;
    proof {
        assert(a@.skip(0) =~= a@);
        assert(b@.skip(0) =~= b@);
    }
    while i < alen && i < blen
        invariant
            i <= alen,
            i <= blen,
            alen == a@.len(),
            blen == b@.len(),
            lex_lt(a@, b@) == lex_lt(a@.skip(i as int), b@.skip(i as int)),
        decreases alen - i,
    {
        let ca = a.get_char(i);
        let cb = b.get_char(i);
        proof {
            assert(a@.skip(i as int)[0] == a@[i as int]);
            assert(b@.skip(i as int)[0] == b@[i as int]);
            assert(a@.skip(i as int).drop_first() =~= a@.skip(i as int + 1));
            assert(b@.skip(i as int).drop_first() =~= b@.skip(i as int + 1));
        }
        if ca != cb {
            return (ca as u32) < (cb as u32);
        }
        i += 1;
    }
    proof {
        if i >= alen {
            assert(a@.skip(i as int) =~= Seq::<char>::empty());
        }
        if i >= blen {
            assert(b@.skip(i as int) =~= Seq::<char>::empty());
        }
    }
    alen < blen
}

/// The round trip of `stops` extended by one more stop at hospital `h`.
pub open spec fn appended_trip(hospitals: Seq<Hospital>, stops: Seq<Stop>, h: int) -> int {
    round_trip_len(stop_positions(hospitals, stops).push(hospital_pos(hospitals[h])))
}

/// A route in spec form: for each stop, the hospital index and the orders
/// set down there.
pub open spec fn stops_view(stops: Seq<Stop>) -> Seq<(int, Seq<QueuedOrder>)> {
    stops.map(|i: int, s: Stop| (s.hospital as int, s.orders@))
}

/// The positions a spec-form route visits, in order.
pub open spec fn route_positions(
    hospitals: Seq<Hospital>,
    route: Seq<(int, Seq<QueuedOrder>)>,
) -> Seq<(int, int)> {
    route.map(|i: int, r: (int, Seq<QueuedOrder>)| hospital_pos(hospitals[r.0]))
}

/// The number of orders a spec-form route carries.
pub open spec fn route_packages(route: Seq<(int, Seq<QueuedOrder>)>) -> int
    decreases route.len(),
{
    if route.len() == 0 {
        0
    } else {
        route_packages(route.drop_last()) + route.last().1.len()
    }
}

/// The round trip of a spec-form route extended by one more stop at `h`.
pub open spec fn route_appended_trip(
    hospitals: Seq<Hospital>,
    route: Seq<(int, Seq<QueuedOrder>)>,
    h: int,
) -> int {
    round_trip_len(route_positions(hospitals, route).push(hospital_pos(hospitals[h])))
}

/// The spec form of a route carries as many orders as its stops do.
pub proof fn lemma_stops_view_packages(stops: Seq<Stop>)
    ensures
        route_packages(stops_view(stops)) == stops_package_count(stops),
    decreases stops.len(),
{
    if stops.len() > 0 {
        lemma_stops_view_packages(stops.drop_last());
        assert(stops_view(stops).drop_last() =~= stops_view(stops.drop_last()));
        assert(stops_view(stops).last() == (stops.last().hospital as int, stops.last().orders@));
    }
}

/// Candidate hospital `c` beats `b` for the next stop: a strictly shorter
/// appended round trip, or an equal one and a lexicographically smaller name.
pub open spec fn better_candidate(
    hospitals: Seq<Hospital>,
    route: Seq<(int, Seq<QueuedOrder>)>,
    c: int,
    b: int,
) -> bool {
    ||| route_appended_trip(hospitals, route, c) < route_appended_trip(hospitals, route, b)
    ||| (route_appended_trip(hospitals, route, c) == route_appended_trip(hospitals, route, b)
        && lex_lt(hospitals[c].name@, hospitals[b].name@))
}

/// The planner's choice among the first `j` lane orders: the hospital whose
/// appended round trip fits the range and is least, ties going to the
/// lexicographically smaller name, the earliest occurrence winning further
/// ties.
pub open spec fn scan_best(
    hospitals: Seq<Hospital>,
    range_m: int,
    route: Seq<(int, Seq<QueuedOrder>)>,
    lane: Seq<QueuedOrder>,
    j: int,
) -> Option<int>
    decreases j,
{
    if j <= 0 {
        None
    } else {
        let prev = scan_best(hospitals, range_m, route, lane, j - 1);
        let c = lane[j - 1].hospital as int;
        if route_appended_trip(hospitals, route, c) <= range_m {
            match prev {
                Option::None => Some(c),
                Option::Some(b) => if better_candidate(hospitals, route, c, b) {
                    Some(c)
                } else {
                    Some(b)
                },
            }
        } else {
            prev
        }
    }
}

/// The resupply route the planner builds, starting from `route` with `lane`
/// pending: repeatedly append the best fitting candidate group and take its
/// oldest orders up to the package cap, until the cap is reached or no
/// remaining group fits within range. Returns the finished route and the
/// residual lane.
pub open spec fn resupply_plan(
    hospitals: Seq<Hospital>,
    max_packages: int,
    range_m: int,
    route: Seq<(int, Seq<QueuedOrder>)>,
    lane: Seq<QueuedOrder>,
) -> (Seq<(int, Seq<QueuedOrder>)>, Seq<QueuedOrder>)
    decreases max_packages - route_packages(route),
    via resupply_plan_decreases
{
    if route_packages(route) >= max_packages {
        (route, lane)
    } else {
        match scan_best(hospitals, range_m, route, lane, lane.len() as int) {
            Option::None => (route, lane),
            Option::Some(h) => {
                let taken = taken_matching(lane, h, max_packages - route_packages(route));
                if taken.len() == 0 {
                    (route, lane)
                } else {
                    resupply_plan(
                        hospitals,
                        max_packages,
                        range_m,
                        route.push((h, taken)),
                        kept_matching(lane, h, max_packages - route_packages(route)),
                    )
                }
            },
        }
    }
}

#[via_fn]
proof fn resupply_plan_decreases(
    hospitals: Seq<Hospital>,
    max_packages: int,
    range_m: int,
    route: Seq<(int, Seq<QueuedOrder>)>,
    lane: Seq<QueuedOrder>,
) {
    if route_packages(route) < max_packages {
        match scan_best(hospitals, range_m, route, lane, lane.len() as int) {
            Option::None => {},
            Option::Some(h) => {
                let cap = max_packages - route_packages(route);
                let taken = taken_matching(lane, h, cap);
                if taken.len() != 0 {
                    lemma_matching_props(lane, h, cap);
                    let r2 = route.push((h, taken));
                    assert(r2.drop_last() =~= route);
                    assert(route_packages(r2) == route_packages(route) + taken.len());
                }
            },
        }
    }
}

/// Every order of every stop is a resupply order.
pub open spec fn stops_all_resupply(stops: Seq<Stop>) -> bool {
    forall|k: int, j: int| 0 <= k < stops.len() && 0 <= j < stops[k].orders@.len()
        ==> (#[trigger] stops[k].orders@[j]).priority == Priority::Resupply
}

/// Builds at most one single-stop emergency flight: the anchor is the oldest
/// emergency order whose hospital is within range; the flight is filled with
/// further orders (emergency first, then resupply, each oldest first) bound
/// for the same hospital, up to the package cap. Returns the stops and the
/// round-trip length, or `None` when no emergency order is routable — then
/// the store is left untouched.
pub fn plan_emergency_flight(
    hospitals: &Vec<Hospital>,
    store: &mut OrderStore,
    max_packages: usize,
    range_m: u32,
) -> (r: Option<(Vec<Stop>, u64)>)
    requires
        old(store).wf(hospitals@.len() as int),
        max_packages >= 1,
    ensures
        final(store).wf(hospitals@.len() as int),
        r is None ==> final(store).emergency@ == old(store).emergency@
            && final(store).resupply@ == old(store).resupply@
            && forall|j: int| 0 <= j < old(store).emergency@.len()
                ==> !routable(hospitals@, range_m as int, #[trigger] old(store).emergency@[j]),
        r matches Some(p) ==> {
            &&& p.0@.len() == 1
            &&& stops_wf(hospitals@.len() as int, p.0@)
            &&& 1 <= stops_package_count(p.0@) <= max_packages
            &&& p.1 == round_trip_len(stop_positions(hospitals@, p.0@))
            &&& p.1 <= range_m
            &&& old(store).pending() == final(store).pending().add(stops_orders(p.0@))
        },
        // the anchor is the oldest routable emergency order; the flight takes
        // the oldest orders for its hospital, emergencies first, and leaves
        // both lanes otherwise untouched, in their original order
        r matches Some(p) ==> exists|idx: int| {
            let h = (#[trigger] old(store).emergency@[idx]).hospital as int;
            let cap = max_packages - taken_matching(old(store).emergency@, h,
                max_packages as int).len();
            &&& 0 <= idx < old(store).emergency@.len()
            &&& routable(hospitals@, range_m as int, old(store).emergency@[idx])
            &&& (forall|j: int| 0 <= j < idx ==> !routable(hospitals@, range_m as int,
                #[trigger] old(store).emergency@[j]))
            &&& p.0@[0].hospital as int == h
            &&& p.0@[0].orders@ == taken_matching(old(store).emergency@, h, max_packages as int)
                + taken_matching(old(store).resupply@, h, cap)
            &&& final(store).emergency@ == kept_matching(old(store).emergency@, h,
                max_packages as int)
            &&& final(store).resupply@ == kept_matching(old(store).resupply@, h, cap)
        },
        subseq_of(final(store).emergency@, old(store).emergency@),
        subseq_of(final(store).resupply@, old(store).resupply@),
        r matches Some(p) ==> p.0@[0].orders@.len() >= 1
            && p.0@[0].orders@[0].priority == Priority::Emergency,
{
    let ghost n_h = hospitals@.len() as int;
    let n = store.emergency.len();
    let mut idx: usize = 0;
    let mut found = false;
    while idx < n && !found
        invariant
            idx <= n,
            n == store.emergency@.len(),
            store == old(store),
            store.wf(n_h),
            n_h == hospitals@.len(),
            forall|j: int| 0 <= j < idx
                ==> !routable(hospitals@, range_m as int, #[trigger] store.emergency@[j]),
            found ==> idx < n && routable(hospitals@, range_m as int, store.emergency@[idx as int]),
        decreases n - idx, (if found { 0int } else { 1int }),
    {
        let o = store.emergency[idx];
        let p = (hospitals[o.hospital].north_m, hospitals[o.hospital].east_m);
        let d = distance_m((0, 0), p);
        if 2 * d <= range_m as u64 {
            found = true;
        } else {
            idx += 1;
        }
    }
    if !found {
        proof {
            lemma_subseq_refl(store.emergency@);
            lemma_subseq_refl(store.resupply@);
        }
        return None;
    }

    let anchor = store.emergency[idx];
    let h = anchor.hospital;
    let p = (hospitals[h].north_m, hospitals[h].east_m);
    let d = distance_m((0, 0), p);

    let ghost em0 = store.emergency@;
    let ghost rs0 = store.resupply@;
    proof {
        lemma_matching_conserves(em0, h as int, max_packages as int);
        lemma_matching_props(em0, h as int, max_packages as int);
    }
    let (taken_e, kept_e) = extract_matching(&store.emergency, h, max_packages);
    let cap_left = max_packages - taken_e.len();
    proof {
        lemma_matching_conserves(rs0, h as int, cap_left as int);
        lemma_matching_props(rs0, h as int, cap_left as int);
    }
    let (taken_r, kept_r) = extract_matching(&store.resupply, h, cap_left);
    store.emergency = kept_e;
    store.resupply = kept_r;

    let mut orders = taken_e;
    let ghost te = orders@;
    let ghost tr = taken_r@;
    let mut orders_rest = taken_r;
    orders.append(&mut orders_rest);

    let stop = Stop { hospital: h, orders };
    let mut stops: Vec<Stop> = Vec::new();
    stops.push(stop);
    let trip = 2 * d;

    proof {
        broadcast use vstd::seq_lib::group_to_multiset_ensures;

        // the stop's orders, as a multiset, are exactly what left the lanes
        lemma_multiset_commutative(te, tr);
        assert(stops@.drop_last() =~= Seq::<Stop>::empty());
        assert(stops_orders(Seq::<Stop>::empty()) == Multiset::<QueuedOrder>::empty());
        assert(stops@.last() == stop);
        assert(stop.orders@ == te + tr);
        assert(stops_orders(stops@) =~= (te + tr).to_multiset());
        assert(old(store).pending() =~= store.pending().add(stops_orders(stops@)));

        // the round trip of the single stop is out and back
        let pos = hospital_pos(hospitals@[h as int]);
        assert(stop_positions(hospitals@, stops@) =~= Seq::<(int, int)>::empty().push(pos));
        lemma_round_trip_push(Seq::<(int, int)>::empty(), pos);
        lemma_dist_symmetric(nest(), pos);

        // the lanes keep only orders they already held
        assert forall|j: int| 0 <= j < store.emergency@.len() implies {
            &&& (#[trigger] store.emergency@[j]).hospital < n_h
            &&& store.emergency@[j].priority == crate::types::Priority::Emergency
        } by {
            assert(em0.contains(store.emergency@[j]));
            let i = choose|i: int| 0 <= i < em0.len() && em0[i] == store.emergency@[j];
        }
        assert forall|j: int| 0 <= j < store.resupply@.len() implies {
            &&& (#[trigger] store.resupply@[j]).hospital < n_h
            &&& store.resupply@[j].priority == crate::types::Priority::Resupply
        } by {
            assert(rs0.contains(store.resupply@[j]));
            let i = choose|i: int| 0 <= i < rs0.len() && rs0[i] == store.resupply@[j];
        }

        // the anchor is among the taken, so the stop is not empty
        assert(em0[idx as int].hospital == h as int);
        assert(te.len() >= 1);
        assert(forall|j: int| 0 <= j < te.len() ==> (#[trigger] te[j]).hospital == h);
        assert(forall|j: int| 0 <= j < tr.len() ==> (#[trigger] tr[j]).hospital == h);
        assert(stops_package_count(Seq::<Stop>::empty()) == 0);
        assert(stops_package_count(stops@) == te.len() + tr.len());

        // the residual lanes are the old lanes with the taken orders removed
        lemma_kept_subseq(em0, h as int, max_packages as int);
        lemma_kept_subseq(rs0, h as int, cap_left as int);
        // the anchor, first among the taken emergencies, is an emergency order
        assert((te + tr)[0] == te[0]);
        assert(em0.contains(te[0]));
        let i0 = choose|i0: int| 0 <= i0 < em0.len() && em0[i0] == te[0];

        // the witness for the anchor: the index the scan stopped at
        assert(stops@[0].hospital == h);
        assert(cap_left as int == max_packages - taken_matching(em0, h as int,
            max_packages as int).len());
    }
    Some((stops, trip))
}

/// There is only one "oldest routable emergency order": the anchor position
/// in the contract of `plan_emergency_flight` is unique, so the planned
/// emergency flight and the residual lanes are fully determined by the store
/// and the configuration — the pass is deterministic.
pub proof fn lemma_emergency_anchor_unique(
    hospitals: Seq<Hospital>,
    range_m: int,
    emergency: Seq<QueuedOrder>,
    i1: int,
    i2: int,
)
    requires
        0 <= i1 < emergency.len(),
        routable(hospitals, range_m, emergency[i1]),
        forall|j: int| 0 <= j < i1 ==> !routable(hospitals, range_m, #[trigger] emergency[j]),
        0 <= i2 < emergency.len(),
        routable(hospitals, range_m, emergency[i2]),
        forall|j: int| 0 <= j < i2 ==> !routable(hospitals, range_m, #[trigger] emergency[j]),
    ensures
        i1 == i2,
{
    if i1 < i2 {
        assert(!routable(hospitals, range_m, emergency[i1]));
    }
    if i2 < i1 {
        assert(!routable(hospitals, range_m, emergency[i2]));
    }
}

/// Builds at most one multi-stop resupply flight by nearest-neighbor
/// insertion, as described at the top of this module. Returns the stops in
/// visit order and the round-trip length, or `None` when no pending resupply
/// order is routable — then the store is left untouched. The emergency lane
/// is never touched.
pub fn plan_resupply_flight(
    hospitals: &Vec<Hospital>,
    store: &mut OrderStore,
    max_packages: usize,
    range_m: u32,
) -> (r: Option<(Vec<Stop>, u64)>)
    requires
        old(store).wf(hospitals@.len() as int),
        max_packages >= 1,
    ensures
        final(store).wf(hospitals@.len() as int),
        final(store).emergency@ == old(store).emergency@,
        r is None ==> final(store).resupply@ == old(store).resupply@
            && forall|j: int| 0 <= j < old(store).resupply@.len()
                ==> !routable(hospitals@, range_m as int, #[trigger] old(store).resupply@[j]),
        r matches Some(p) ==> {
            &&& p.0@.len() >= 1
            &&& stops_wf(hospitals@.len() as int, p.0@)
            &&& 1 <= stops_package_count(p.0@) <= max_packages
            &&& p.1 == round_trip_len(stop_positions(hospitals@, p.0@))
            &&& p.1 <= range_m
            &&& old(store).pending() == final(store).pending().add(stops_orders(p.0@))
        },
        // the route starts at the routable hospital group whose single-stop
        // round trip is shortest among those with pending resupply orders
        r matches Some(p) ==> forall|i: int| 0 <= i < old(store).resupply@.len() ==> {
            let hi = (#[trigger] old(store).resupply@[i]).hospital as int;
            appended_trip(hospitals@, Seq::<Stop>::empty(), hi) > range_m
                || appended_trip(hospitals@, Seq::<Stop>::empty(), p.0@[0].hospital as int)
                    <= appended_trip(hospitals@, Seq::<Stop>::empty(), hi)
        },
        subseq_of(final(store).resupply@, old(store).resupply@),
        r matches Some(p) ==> stops_all_resupply(p.0@),
        // the whole route and the residual lane are pinned: at every step the
        // fitting group of least added length (ties to the lexicographically
        // smaller name), its oldest orders first, until the cap is reached or
        // no remaining group fits
        r matches Some(p) ==> (stops_view(p.0@), final(store).resupply@)
            == resupply_plan(hospitals@, max_packages as int, range_m as int,
                Seq::<(int, Seq<QueuedOrder>)>::empty(), old(store).resupply@),
        // the flight is grown until the package cap is reached or no
        // remaining group can be added within range
        r matches Some(p) ==> stops_package_count(p.0@) == max_packages
            || forall|i: int| 0 <= i < final(store).resupply@.len()
                ==> appended_trip(hospitals@, p.0@,
                    (#[trigger] final(store).resupply@[i]).hospital as int) > range_m,
{
    let ghost n_h = hospitals@.len() as int;
    let ghost rs0 = store.resupply@;
    let mut stops: Vec<Stop> = Vec::new();
    let mut trip: u64 = 0;
    let mut last_pos: (i32, i32) = (0, 0);
    let mut last_to_nest: u64 = 0;
    let mut packages: usize = 0;

    proof {
        assert(stops@ =~= Seq::<Stop>::empty());
        assert(stop_positions(hospitals@, stops@) =~= Seq::<(int, int)>::empty());
        assert(rs0.to_multiset() =~= store.resupply@.to_multiset().add(stops_orders(stops@)));
        crate::geometry::lemma_sqrt_floor_exists(0);
        crate::geometry::lemma_sqrt_floor_unique(0, 0, crate::geometry::sqrt_floor(0));
        assert(dist(nest(), nest()) == 0);
        assert(stops_view(stops@) =~= Seq::<(int, Seq<QueuedOrder>)>::empty());
        lemma_subseq_refl(rs0);
    }

    loop
        invariant
            store.wf(n_h),
            n_h == hospitals@.len(),
            store.emergency@ == old(store).emergency@,
            rs0 == old(store).resupply@,
            packages == stops_package_count(stops@),
            packages <= max_packages,
            max_packages >= 1,
            stops_wf(n_h, stops@),
            trip == round_trip_len(stop_positions(hospitals@, stops@)),
            trip <= range_m,
            trip >= last_to_nest,
            stops@.len() == 0 ==> last_pos == (0i32, 0i32) && last_to_nest == 0 && trip == 0
                && store.resupply@ == rs0,
            stops@.len() > 0 ==> (last_pos.0 as int, last_pos.1 as int)
                == hospital_pos(hospitals@[stops@.last().hospital as int])
                && stops_package_count(stops@) >= 1,
            last_to_nest == dist((last_pos.0 as int, last_pos.1 as int), nest()),
            rs0.to_multiset() == store.resupply@.to_multiset().add(stops_orders(stops@)),
            stops@.len() > 0 ==> forall|i: int| 0 <= i < rs0.len() ==> {
                let hi = (#[trigger] rs0[i]).hospital as int;
                appended_trip(hospitals@, Seq::<Stop>::empty(), hi) > range_m
                    || appended_trip(hospitals@, Seq::<Stop>::empty(),
                        stops@[0].hospital as int)
                        <= appended_trip(hospitals@, Seq::<Stop>::empty(), hi)
            },
            subseq_of(store.resupply@, rs0),
            stops_all_resupply(stops@),
            resupply_plan(hospitals@, max_packages as int, range_m as int,
                stops_view(stops@), store.resupply@)
                == resupply_plan(hospitals@, max_packages as int, range_m as int,
                    Seq::<(int, Seq<QueuedOrder>)>::empty(), rs0),
        ensures
            store.wf(n_h),
            store.emergency@ == old(store).emergency@,
            stops_package_count(stops@) <= max_packages,
            stops_wf(n_h, stops@),
            trip == round_trip_len(stop_positions(hospitals@, stops@)),
            trip <= range_m,
            stops@.len() == 0 ==> store.resupply@ == rs0
                && forall|i: int| 0 <= i < rs0.len()
                    ==> appended_trip(hospitals@, Seq::<Stop>::empty(),
                        (#[trigger] rs0[i]).hospital as int) > range_m,
            stops@.len() > 0 ==> stops_package_count(stops@) >= 1,
            rs0.to_multiset() == store.resupply@.to_multiset().add(stops_orders(stops@)),
            stops@.len() > 0 ==> forall|i: int| 0 <= i < rs0.len() ==> {
                let hi = (#[trigger] rs0[i]).hospital as int;
                appended_trip(hospitals@, Seq::<Stop>::empty(), hi) > range_m
                    || appended_trip(hospitals@, Seq::<Stop>::empty(),
                        stops@[0].hospital as int)
                        <= appended_trip(hospitals@, Seq::<Stop>::empty(), hi)
            },
            subseq_of(store.resupply@, rs0),
            stops_all_resupply(stops@),
            (stops_view(stops@), store.resupply@)
                == resupply_plan(hospitals@, max_packages as int, range_m as int,
                    Seq::<(int, Seq<QueuedOrder>)>::empty(), rs0),
            stops_package_count(stops@) == max_packages
                || forall|i: int| 0 <= i < store.resupply@.len()
                    ==> appended_trip(hospitals@, stops@,
                        (#[trigger] store.resupply@[i]).hospital as int) > range_m,
        decreases max_packages - packages,
    {
        if packages >= max_packages {
            proof {
                lemma_stops_view_packages(stops@);
                assert(resupply_plan(hospitals@, max_packages as int, range_m as int,
                    stops_view(stops@), store.resupply@)
                    == (stops_view(stops@), store.resupply@));
            }
            break;
        }
        // scan the lane for the fitting hospital whose insertion costs least
        let mut best: Option<(usize, u64, u64)> = None;
        let mut j: usize = 0;
        while j < store.resupply.len()
            invariant
                j <= store.resupply@.len(),
                store.wf(n_h),
                n_h == hospitals@.len(),
                trip <= range_m,
                trip >= last_to_nest,
                trip == round_trip_len(stop_positions(hospitals@, stops@)),
                stops@.len() == 0 ==> last_pos == (0i32, 0i32) && last_to_nest == 0 && trip == 0,
                stops@.len() > 0 ==> (last_pos.0 as int, last_pos.1 as int)
                    == hospital_pos(hospitals@[stops@.last().hospital as int]),
                last_to_nest == dist((last_pos.0 as int, last_pos.1 as int), nest()),
                best is None ==> scan_best(hospitals@, range_m as int, stops_view(stops@),
                    store.resupply@, j as int) is None,
                best matches Some(b2) ==> scan_best(hospitals@, range_m as int,
                    stops_view(stops@), store.resupply@, j as int) == Some(b2.0 as int),
                best is None ==> forall|i: int| 0 <= i < j
                    ==> appended_trip(hospitals@, stops@,
                        (#[trigger] store.resupply@[i]).hospital as int) > range_m,
                best matches Some(b) ==> {
                    &&& b.0 < n_h
                    &&& (exists|i: int| 0 <= i < store.resupply@.len()
                        && (#[trigger] store.resupply@[i]).hospital == b.0)
                    &&& b.1 == appended_trip(hospitals@, stops@, b.0 as int)
                    &&& b.1 <= range_m
                    &&& b.2 == dist(hospital_pos(hospitals@[b.0 as int]), nest())
                    &&& b.1 >= b.2
                    &&& forall|i: int| 0 <= i < j ==> {
                        let hi = (#[trigger] store.resupply@[i]).hospital as int;
                        appended_trip(hospitals@, stops@, hi) > range_m
                            || b.1 <= appended_trip(hospitals@, stops@, hi)
                    }
                },
            decreases store.resupply@.len() - j,
        {
            let o = store.resupply[j];
            let hc = o.hospital;
            let ph = (hospitals[hc].north_m, hospitals[hc].east_m);
            let dlh = distance_m(last_pos, ph);
            let dhn = distance_m(ph, (0, 0));
            let nt = trip - last_to_nest + dlh + dhn;
            proof {
                let ghost ps = stop_positions(hospitals@, stops@);
                lemma_round_trip_push(ps, hospital_pos(hospitals@[hc as int]));
                if stops@.len() > 0 {
                    assert(ps.last() == hospital_pos(hospitals@[stops@.last().hospital as int]));
                }
                assert(nt == appended_trip(hospitals@, stops@, hc as int));
                assert forall|x: int| route_appended_trip(hospitals@, stops_view(stops@), x)
                    == appended_trip(hospitals@, stops@, x) by {
                    assert(route_positions(hospitals@, stops_view(stops@))
                        =~= stop_positions(hospitals@, stops@));
                }
            }
            if nt <= range_m as u64 {
                let replace = match best {
                    None => true,
                    Some(b) => {
                        if nt < b.1 {
                            true
                        } else if nt == b.1 {
                            str_lt(hospitals[hc].name.as_str(), hospitals[b.0].name.as_str())
                        } else {
                            false
                        }
                    },
                };
                if replace {
                    best = Some((hc, nt, dhn));
                }
            }
            j += 1;
        }
        match best {
            None => {
                proof {
                    if stops@.len() == 0 {
                        assert(stops@ =~= Seq::<Stop>::empty());
                    }
                    lemma_stops_view_packages(stops@);
                    assert(resupply_plan(hospitals@, max_packages as int, range_m as int,
                        stops_view(stops@), store.resupply@)
                        == (stops_view(stops@), store.resupply@));
                }
                break;
            },
            Some(b) => {
                let (h, nt, dhn) = b;
                let ghost lane = store.resupply@;
                let ghost cap0 = (max_packages - packages) as int;
                proof {
                    lemma_matching_conserves(lane, h as int, (max_packages - packages) as int);
                    lemma_matching_props(lane, h as int, (max_packages - packages) as int);
                }
                let (taken, kept) = extract_matching(&store.resupply, h, max_packages - packages);
                store.resupply = kept;
                let ghost tk = taken@;
                let tlen = taken.len();
                let st = Stop { hospital: h, orders: taken };
                let ghost old_stops = stops@;
                stops.push(st);
                packages += tlen;
                trip = nt;
                last_pos = (hospitals[h].north_m, hospitals[h].east_m);
                last_to_nest = dhn;
                proof {
                    broadcast use vstd::seq_lib::group_to_multiset_ensures;

                    assert(tk.len() >= 1);
                    assert(stops@.drop_last() =~= old_stops);
                    assert(stops@.last() == st);
                    assert(stops_package_count(stops@)
                        == stops_package_count(old_stops) + tk.len());
                    assert(stops_orders(stops@)
                        =~= stops_orders(old_stops).add(tk.to_multiset()));
                    assert(stop_positions(hospitals@, stops@)
                        =~= stop_positions(hospitals@, old_stops).push(
                            hospital_pos(hospitals@[h as int])));
                    assert(rs0.to_multiset()
                        =~= store.resupply@.to_multiset().add(stops_orders(stops@)));
                    // the kept lane only holds orders it already held
                    assert forall|i: int| 0 <= i < store.resupply@.len() implies {
                        &&& (#[trigger] store.resupply@[i]).hospital < n_h
                        &&& store.resupply@[i].priority == crate::types::Priority::Resupply
                    } by {
                        assert(lane.contains(store.resupply@[i]));
                        let ix = choose|ix: int| 0 <= ix < lane.len()
                            && lane[ix] == store.resupply@[i];
                    }
                    // the new stop is well-formed
                    assert(forall|i: int| 0 <= i < tk.len()
                        ==> (#[trigger] tk[i]).hospital == h);
                    assert(stops_wf(n_h, stops@));
                    // one unfolding of the plan matches this step exactly
                    lemma_stops_view_packages(old_stops);
                    lemma_stops_view_packages(stops@);
                    assert(stops_view(stops@) =~= stops_view(old_stops).push((h as int, tk)));
                    assert forall|x: int| route_appended_trip(hospitals@,
                        stops_view(old_stops), x)
                        == appended_trip(hospitals@, old_stops, x) by {
                        assert(route_positions(hospitals@, stops_view(old_stops))
                            =~= stop_positions(hospitals@, old_stops));
                    }
                    assert(resupply_plan(hospitals@, max_packages as int, range_m as int,
                        stops_view(old_stops), lane)
                        == resupply_plan(hospitals@, max_packages as int, range_m as int,
                            stops_view(stops@), store.resupply@));
                    // the lane only shrinks, keeping its order
                    lemma_kept_subseq(lane, h as int, cap0);
                    lemma_subseq_trans(store.resupply@, lane, rs0);
                    // the new stop carries only resupply orders
                    assert forall|j2: int| 0 <= j2 < tk.len()
                        implies (#[trigger] tk[j2]).priority == Priority::Resupply by {
                        assert(lane.contains(tk[j2]));
                        let ix = choose|ix: int| 0 <= ix < lane.len() && lane[ix] == tk[j2];
                    }
                    assert(stops_all_resupply(stops@));
                    // the first stop of the route is the cheapest fitting one
                    if old_stops.len() == 0 {
                        assert(old_stops =~= Seq::<Stop>::empty());
                        assert(lane == rs0);
                        assert(stops@[0] == st);
                    } else {
                        assert(stops@[0] == old_stops[0]);
                    }
                }
            },
        }
    }

    if stops.len() == 0 {
        proof {
            assert(store.resupply@ == rs0);
            assert forall|j: int| 0 <= j < rs0.len()
                implies !routable(hospitals@, range_m as int, #[trigger] rs0[j]) by {
                let hi = rs0[j].hospital as int;
                assert(appended_trip(hospitals@, Seq::<Stop>::empty(), hi) > range_m);
                let pos = hospital_pos(hospitals@[hi]);
                assert(stop_positions(hospitals@, Seq::<Stop>::empty()) =~= Seq::<(int, int)>::empty());
                lemma_round_trip_push(Seq::<(int, int)>::empty(), pos);
                lemma_dist_symmetric(nest(), pos);
            }
        }
        None
    } else {
        Some((stops, trip))
    }
}

} // verus!
