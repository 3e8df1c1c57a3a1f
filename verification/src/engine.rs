//! The dispatch engine: owns the order store and the fleet state, accepts
//! arriving orders, and once a tick decides which flights launch now.

use vstd::prelude::*;
use vstd::multiset::Multiset;
use crate::types::{Hospital, Order, QueuedOrder, Priority, Stop, Flight, SchedulerError,
    stop_positions, stops_orders, stops_package_count, flights_orders, stops_wf, routable,
    count_unroutable, is_emergency_flight, flight_carries_emergency, lemma_stops_orders_member};
use crate::geometry::distance_m;
use crate::store::{OrderStore, subseq_of, lemma_subseq_refl, lemma_subseq_trans,
    lemma_subseq_contains};
use crate::planner::appended_trip;
use crate::fleet::{FleetState, avail_count, busy_count, lemma_fleet_bound,
    lemma_avail_count_update, lemma_avail_count_bounds};
use crate::geometry::round_trip_len;
use crate::planner::{plan_emergency_flight, plan_resupply_flight};

verus! {

/// The index of the first hospital in `hospitals` named `name`, or
/// `hospitals.len()` when none is.
pub open spec fn first_index(hospitals: Seq<Hospital>, name: Seq<char>) -> int
    decreases hospitals.len(),
{
    if hospitals.len() == 0 {
        0
    } else if hospitals[0].name@ == name {
        0
    } else {
        1 + first_index(hospitals.drop_first(), name)
    }
}

/// Some hospital in the table is named `name`.
pub open spec fn known_hospital(hospitals: Seq<Hospital>, name: Seq<char>) -> bool {
    exists|i: int| 0 <= i < hospitals.len() && (#[trigger] hospitals[i]).name@ == name
}

/// `first_index` finds the first match exactly when one exists.
pub proof fn lemma_first_index(hospitals: Seq<Hospital>, name: Seq<char>)
    ensures
        0 <= first_index(hospitals, name) <= hospitals.len(),
        first_index(hospitals, name) < hospitals.len()
            ==> hospitals[first_index(hospitals, name)].name@ == name,
        forall|j: int| 0 <= j < first_index(hospitals, name)
            ==> (#[trigger] hospitals[j]).name@ != name,
        known_hospital(hospitals, name) <==> first_index(hospitals, name) < hospitals.len(),
    decreases hospitals.len(),
{
    if hospitals.len() == 0 {
    } else if hospitals[0].name@ == name {
    } else {
        let tail = hospitals.drop_first();
        lemma_first_index(tail, name);
        assert(forall|j: int| 0 <= j < tail.len() ==> #[trigger] tail[j] == hospitals[j + 1]);
        if known_hospital(hospitals, name) {
            let i = choose|i: int| 0 <= i < hospitals.len()
                && (#[trigger] hospitals[i]).name@ == name;
            assert(i >= 1);
            assert(tail[i - 1].name@ == name);
            assert(known_hospital(tail, name));
        }
        if first_index(hospitals, name) < hospitals.len() {
            assert(hospitals[1 + first_index(tail, name)] == tail[first_index(tail, name)]);
        }
        assert forall|j: int| 0 <= j < first_index(hospitals, name)
            implies (#[trigger] hospitals[j]).name@ != name by {
            if j >= 1 {
                assert(tail[j - 1] == hospitals[j]);
                assert(tail[j - 1].name@ != name);
            }
        }
    }
}

/// Finds the first hospital of that name.
pub fn find_hospital(hospitals: &Vec<Hospital>, name: &String) -> (r: Option<usize>)
    ensures
        r matches Some(i) ==> i as int == first_index(hospitals@, name@)
            && i < hospitals@.len() && hospitals@[i as int].name@ == name@,
        (r is Some) <==> known_hospital(hospitals@, name@),
{
    let mut i: usize = 0;
    while i < hospitals.len()
        invariant
            i <= hospitals@.len(),
            forall|j: int| 0 <= j < i ==> (#[trigger] hospitals@[j]).name@ != name@,
        decreases hospitals@.len() - i,
    {
        if hospitals[i].name == *name {
            proof {
                lemma_first_index(hospitals@, name@);
            }
            return Some(i);
        }
        i += 1;
    }
    proof {
        lemma_first_index(hospitals@, name@);
    }
    None
}

/// The dispatch engine: configuration, reference data, the pending orders,
/// and the fleet, owned as one aggregate.
pub struct ZipScheduler {
    /// The hospital reference table, loaded once, never mutated.
    pub hospitals: Vec<Hospital>,
    /// The fleet size.
    pub num_zips: usize,
    /// The largest number of packages one flight may carry.
    pub max_packages_per_zip: usize,
    /// The constant ground speed, in meters per second.
    pub zip_speed_mps: u32,
    /// The farthest total round-trip distance one flight may fly, in meters.
    pub zip_max_cumulative_range_m: u32,
    /// The pending orders.
    pub store: OrderStore,
    /// Per-slot availability times.
    pub fleet: FleetState,
}

impl ZipScheduler {
    /// The engine's invariant: one fleet slot per configured vehicle, sane
    /// configuration, and every pending order validated.
    pub open spec fn wf(&self) -> bool {
        &&& self.fleet.available_at@.len() == self.num_zips
        &&& self.max_packages_per_zip >= 1
        &&& self.zip_speed_mps >= 1
        &&& self.store.wf(self.hospitals@.len() as int)
    }

    /// All orders accepted but not yet launched.
    pub open spec fn pending(&self) -> Multiset<QueuedOrder> {
        self.store.pending()
    }

    /// Configuration and reference data agree between two engine states.
    pub open spec fn same_config(a: &ZipScheduler, b: &ZipScheduler) -> bool {
        &&& a.hospitals@ == b.hospitals@
        &&& a.num_zips == b.num_zips
        &&& a.max_packages_per_zip == b.max_packages_per_zip
        &&& a.zip_speed_mps == b.zip_speed_mps
        &&& a.zip_max_cumulative_range_m == b.zip_max_cumulative_range_m
    }

    /// What holds of every launched flight: stamped with the launch tick, a
    /// real vehicle slot, nonempty well-formed stops, the package cap, and a
    /// round trip within range.
    pub open spec fn flight_ok(&self, current_time: u32, f: Flight) -> bool {
        &&& f.launch_time == current_time
        &&& f.zip < self.num_zips
        &&& f.stops@.len() >= 1
        &&& stops_wf(self.hospitals@.len() as int, f.stops@)
        &&& 1 <= stops_package_count(f.stops@) <= self.max_packages_per_zip
        &&& f.total_distance_m == round_trip_len(stop_positions(self.hospitals@, f.stops@))
        &&& f.total_distance_m <= self.zip_max_cumulative_range_m
    }

    /// A fresh engine: the given configuration, no pending orders, and every
    /// vehicle at the nest, available from time zero.
    pub fn new(
        hospitals: Vec<Hospital>,
        num_zips: usize,
        max_packages_per_zip: usize,
        zip_speed_mps: u32,
        zip_max_cumulative_range_m: u32,
    ) -> (s: Self)
        requires
            max_packages_per_zip >= 1,
            zip_speed_mps >= 1,
        ensures
            s.wf(),
            s.hospitals@ == hospitals@,
            s.num_zips == num_zips,
            s.max_packages_per_zip == max_packages_per_zip,
            s.zip_speed_mps == zip_speed_mps,
            s.zip_max_cumulative_range_m == zip_max_cumulative_range_m,
            s.pending() == Multiset::<QueuedOrder>::empty(),
            s.store.emergency@.len() == 0,
            s.store.resupply@.len() == 0,
            forall|i: int| 0 <= i < num_zips ==> #[trigger] s.fleet.available_at@[i] == 0,
    {
        let store = OrderStore::new();
        let fleet = FleetState::new(num_zips);
        proof {
            broadcast use vstd::seq_lib::group_to_multiset_ensures;

            assert(store.pending() =~= Multiset::<QueuedOrder>::empty());
        }
        ZipScheduler {
            hospitals,
            num_zips,
            max_packages_per_zip,
            zip_speed_mps,
            zip_max_cumulative_range_m,
            store,
            fleet,
        }
    }

    /// Accepts one arriving order. The destination must name a known
    /// hospital: then the order joins the pending set (its lane, at the
    /// back), else it is rejected with `UnknownHospital` and nothing is
    /// stored. The fleet is untouched either way.
    pub fn queue_order(&mut self, order: Order) -> (r: Result<(), SchedulerError>)
        requires
            old(self).wf(),
        ensures
            final(self).wf(),
            Self::same_config(old(self), final(self)),
            final(self).fleet.available_at@ == old(self).fleet.available_at@,
            (r is Ok) <==> known_hospital(old(self).hospitals@, order.hospital@),
            r is Ok ==> {
                let q = (QueuedOrder {
                    time: order.time,
                    hospital: first_index(old(self).hospitals@, order.hospital@) as usize,
                    priority: order.priority,
                });
                &&& final(self).pending() == old(self).pending().insert(q)
                &&& (order.priority == Priority::Emergency ==> final(self).store.emergency@
                    == old(self).store.emergency@.push(q)
                    && final(self).store.resupply@ == old(self).store.resupply@)
                &&& (order.priority == Priority::Resupply ==> final(self).store.resupply@
                    == old(self).store.resupply@.push(q)
                    && final(self).store.emergency@ == old(self).store.emergency@)
            },
            r is Err ==> r == Err::<(), SchedulerError>(SchedulerError::UnknownHospital)
                && final(self).store.emergency@ == old(self).store.emergency@
                && final(self).store.resupply@ == old(self).store.resupply@,
    {
        match find_hospital(&self.hospitals, &order.hospital) {
            Some(i) => {
                let q = QueuedOrder { time: order.time, hospital: i, priority: order.priority };
                self.store.insert(q);
                proof {
                    broadcast use vstd::seq_lib::group_to_multiset_ensures;

                    assert(self.pending() =~= old(self).pending().insert(q));
                }
                Ok(())
            },
            None => Err(SchedulerError::UnknownHospital),
        }
    }

    /// The duration one flight keeps its vehicle out: the round trip at
    /// constant speed, in whole seconds rounded up, and at least one second,
    /// so a launched vehicle is never still available on the launch tick.
    pub open spec fn flight_duration(trip: int, speed: int) -> int
        recommends
            speed >= 1,
    {
        let d = if trip % speed == 0 { trip / speed } else { trip / speed + 1 };
        if d == 0 { 1 } else { d }
    }

    /// Computes the flight duration and marks one available vehicle slot busy
    /// until the vehicle is back.
    fn commit_flight(&mut self, current_time: u32, stops: Vec<Stop>, trip: u64) -> (f: Flight)
        requires
            old(self).wf(),
            avail_count(old(self).fleet.available_at@, current_time as int) > 0,
            trip <= old(self).zip_max_cumulative_range_m,
            stops@.len() >= 1,
            stops_wf(old(self).hospitals@.len() as int, stops@),
            1 <= stops_package_count(stops@) <= old(self).max_packages_per_zip,
            trip == round_trip_len(stop_positions(old(self).hospitals@, stops@)),
        ensures
            final(self).wf(),
            Self::same_config(old(self), final(self)),
            final(self).store.emergency@ == old(self).store.emergency@,
            final(self).store.resupply@ == old(self).store.resupply@,
            f.zip < old(self).fleet.available_at@.len(),
            old(self).fleet.available_at@[f.zip as int] <= current_time,
            final(self).fleet.available_at@ == old(self).fleet.available_at@.update(
                f.zip as int, (current_time + Self::flight_duration(trip as int,
                    old(self).zip_speed_mps as int)) as u64),
            final(self).fleet.available_at@[f.zip as int] > current_time,
            forall|i: int| 0 <= i < old(self).fleet.available_at@.len()
                ==> #[trigger] final(self).fleet.available_at@[i]
                    >= old(self).fleet.available_at@[i],
            avail_count(final(self).fleet.available_at@, current_time as int)
                == avail_count(old(self).fleet.available_at@, current_time as int) - 1,
            final(self).flight_ok(current_time, f),
            f.stops@ == stops@,
            f.total_distance_m == trip,
    {
        let ghost t = current_time as int;
        let ghost fleet_before = self.fleet.available_at@;
        let speed = self.zip_speed_mps as u64;
        let q = trip / speed;
        let rem = trip % speed;
        let rounded_up = if rem > 0 { q + 1 } else { q };
        let duration = if rounded_up == 0 { 1 } else { rounded_up };
        proof {
            assert(q <= q * speed) by (nonlinear_arith)
                requires speed >= 1, q >= 0;
            assert(duration <= trip + 1);
            assert(duration as int == Self::flight_duration(trip as int, speed as int));
        }
        let slot = self.fleet.reserve(current_time as u64, duration);
        proof {
            lemma_avail_count_update(fleet_before, t, slot as int,
                (current_time as u64 + duration) as u64);
        }
        Flight { launch_time: current_time, zip: slot, stops, total_distance_m: trip }
    }

    /// One tick: launches as many feasible flights as there are available
    /// vehicles and eligible orders. Emergencies are served first, oldest
    /// first, one hospital per flight; remaining vehicles fly batched
    /// resupply routes. Orders out of range stay pending and never consume a
    /// vehicle. Launched orders leave the pending set; nothing else does
    /// (conservation); each flight respects the package cap and the range
    /// cap; vehicle availability only moves forward; and a routable order can
    /// be left pending only when every vehicle free this tick was consumed.
    #[verifier::rlimit(100)]
    #[verifier::spinoff_prover]
    pub fn launch_flights(&mut self, current_time: u32) -> (flights: Vec<Flight>)
        requires
            old(self).wf(),
        ensures
            final(self).wf(),
            Self::same_config(old(self), final(self)),
            old(self).pending() == final(self).pending().add(flights_orders(flights@)),
            forall|k: int| 0 <= k < flights@.len()
                ==> final(self).flight_ok(current_time, #[trigger] flights@[k]),
            final(self).fleet.available_at@.len() == old(self).fleet.available_at@.len(),
            forall|i: int| 0 <= i < old(self).fleet.available_at@.len()
                ==> #[trigger] final(self).fleet.available_at@[i]
                    >= old(self).fleet.available_at@[i],
            flights@.len() <= avail_count(old(self).fleet.available_at@, current_time as int),
            ((exists|j: int| 0 <= j < final(self).store.emergency@.len()
                && routable(old(self).hospitals@, old(self).zip_max_cumulative_range_m as int,
                    #[trigger] final(self).store.emergency@[j]))
            || (exists|j: int| 0 <= j < final(self).store.resupply@.len()
                && routable(old(self).hospitals@, old(self).zip_max_cumulative_range_m as int,
                    #[trigger] final(self).store.resupply@[j])))
                ==> flights@.len()
                    == avail_count(old(self).fleet.available_at@, current_time as int),
            // one vehicle per flight, each its own slot
            forall|k1: int, k2: int| 0 <= k1 < k2 < flights@.len()
                ==> (#[trigger] flights@[k1]).zip != (#[trigger] flights@[k2]).zip,
            avail_count(final(self).fleet.available_at@, current_time as int)
                == avail_count(old(self).fleet.available_at@, current_time as int)
                    - flights@.len(),
            // each consumed slot was free and is out until its vehicle returns
            forall|k: int| 0 <= k < flights@.len() ==> {
                let f = #[trigger] flights@[k];
                &&& f.zip < old(self).fleet.available_at@.len()
                &&& old(self).fleet.available_at@[f.zip as int] <= current_time
                &&& final(self).fleet.available_at@[f.zip as int] == current_time
                    + Self::flight_duration(f.total_distance_m as int,
                        old(self).zip_speed_mps as int)
            },
            // slots not consumed by a flight keep their times
            forall|i: int| 0 <= i < old(self).fleet.available_at@.len()
                ==> (#[trigger] final(self).fleet.available_at@[i])
                    == old(self).fleet.available_at@[i]
                    || exists|k: int| 0 <= k < flights@.len()
                        && (#[trigger] flights@[k]).zip == i,
            // a tick that launches nothing changes nothing
            flights@.len() == 0 ==> final(self).store.emergency@ == old(self).store.emergency@
                && final(self).store.resupply@ == old(self).store.resupply@
                && final(self).fleet.available_at@ == old(self).fleet.available_at@,
            // emergencies are never passed over for resupply: while a routable
            // emergency is left pending, every launched flight is a
            // single-stop flight anchored on an emergency order
            (exists|j: int| 0 <= j < final(self).store.emergency@.len()
                && routable(old(self).hospitals@, old(self).zip_max_cumulative_range_m as int,
                    #[trigger] final(self).store.emergency@[j]))
                ==> forall|k: int| 0 <= k < flights@.len()
                    ==> is_emergency_flight(#[trigger] flights@[k]),
            // only the emergency pass carries emergencies, one hospital each
            forall|k: int| 0 <= k < flights@.len()
                && flight_carries_emergency(#[trigger] flights@[k])
                ==> flights@[k].stops@.len() == 1,
            // what stays pending stays in its original relative order
            subseq_of(final(self).store.emergency@, old(self).store.emergency@),
            subseq_of(final(self).store.resupply@, old(self).store.resupply@),
            // a resupply flight leaves the nest short of the package cap only
            // when everything later launched or still pending would have
            // pushed its round trip past the range cap
            forall|k1: int, k2: int| 0 <= k1 < k2 < flights@.len()
                && !flight_carries_emergency(#[trigger] flights@[k1])
                ==> stops_package_count(flights@[k1].stops@)
                    == old(self).max_packages_per_zip as int
                    || forall|i: int| 0 <= i < (#[trigger] flights@[k2]).stops@.len()
                        ==> appended_trip(old(self).hospitals@, flights@[k1].stops@,
                            flights@[k2].stops@[i].hospital as int)
                            > old(self).zip_max_cumulative_range_m as int,
            forall|k: int| 0 <= k < flights@.len()
                && !flight_carries_emergency(#[trigger] flights@[k])
                ==> stops_package_count(flights@[k].stops@)
                    == old(self).max_packages_per_zip as int
                    || forall|i: int| 0 <= i < final(self).store.resupply@.len()
                        ==> appended_trip(old(self).hospitals@, flights@[k].stops@,
                            (#[trigger] final(self).store.resupply@[i]).hospital as int)
                            > old(self).zip_max_cumulative_range_m as int,
    {
        let ghost t = current_time as int;
        let ghost fleet0 = self.fleet.available_at@;
        let mut flights: Vec<Flight> = Vec::new();
        let mut budget = self.fleet.available_count(current_time as u64);
        let ghost avail0 = avail_count(fleet0, t);
        proof {
            assert(flights@ =~= Seq::<Flight>::empty());
            assert(old(self).pending() =~= self.pending().add(flights_orders(flights@)));
            lemma_avail_count_bounds(fleet0, t);
            lemma_subseq_refl(self.store.emergency@);
            lemma_subseq_refl(self.store.resupply@);
        }

        let mut emergencies_left = true;
        while budget > 0 && emergencies_left
            invariant
                self.wf(),
                Self::same_config(old(self), self),
                t == current_time as int,
                fleet0 == old(self).fleet.available_at@,
                avail0 == avail_count(fleet0, t),
                budget + flights@.len() == avail0,
                avail_count(self.fleet.available_at@, t) == budget,
                self.fleet.available_at@.len() == fleet0.len(),
                forall|i: int| 0 <= i < fleet0.len()
                    ==> #[trigger] self.fleet.available_at@[i] >= fleet0[i],
                old(self).pending() == self.pending().add(flights_orders(flights@)),
                forall|k: int| 0 <= k < flights@.len()
                    ==> self.flight_ok(current_time, #[trigger] flights@[k]),
                subseq_of(self.store.emergency@, old(self).store.emergency@),
                subseq_of(self.store.resupply@, old(self).store.resupply@),
                flights@.len() == 0 ==> self.store.emergency@ == old(self).store.emergency@
                    && self.store.resupply@ == old(self).store.resupply@
                    && self.fleet.available_at@ == fleet0,
                forall|k: int| 0 <= k < flights@.len() ==> {
                    let f = #[trigger] flights@[k];
                    &&& f.zip < fleet0.len()
                    &&& fleet0[f.zip as int] <= t
                    &&& self.fleet.available_at@[f.zip as int] == t + Self::flight_duration(
                        f.total_distance_m as int, self.zip_speed_mps as int)
                    &&& self.fleet.available_at@[f.zip as int] > t
                },
                forall|i: int| 0 <= i < fleet0.len()
                    ==> (#[trigger] self.fleet.available_at@[i]) == fleet0[i]
                        || exists|k: int| 0 <= k < flights@.len()
                            && (#[trigger] flights@[k]).zip == i,
                forall|k1: int, k2: int| 0 <= k1 < k2 < flights@.len()
                    ==> (#[trigger] flights@[k1]).zip != (#[trigger] flights@[k2]).zip,
                forall|k: int| 0 <= k < flights@.len()
                    ==> is_emergency_flight(#[trigger] flights@[k]),
                !emergencies_left ==> forall|j: int| 0 <= j < self.store.emergency@.len()
                    ==> !routable(self.hospitals@, self.zip_max_cumulative_range_m as int,
                        #[trigger] self.store.emergency@[j]),
            decreases budget, (if emergencies_left { 1int } else { 0int }),
        {
            let ghost flights_before = flights@;
            let ghost em_before = self.store.emergency@;
            let ghost rs_before = self.store.resupply@;
            match plan_emergency_flight(&self.hospitals, &mut self.store,
                self.max_packages_per_zip, self.zip_max_cumulative_range_m) {
                None => {
                    emergencies_left = false;
                },
                Some(pl) => {
                    let (stops, trip) = pl;
                    let f = self.commit_flight(current_time, stops, trip);
                    flights.push(f);
                    budget -= 1;
                    proof {
                        assert(flights@.drop_last() =~= flights_before);
                        assert(flights@.last() == f);
                        assert(old(self).pending()
                            =~= self.pending().add(flights_orders(flights@)));
                        lemma_subseq_trans(self.store.emergency@, em_before,
                            old(self).store.emergency@);
                        lemma_subseq_trans(self.store.resupply@, rs_before,
                            old(self).store.resupply@);
                        assert(is_emergency_flight(f));
                    }
                },
            }
        }

        proof {
            assert forall|k: int| 0 <= k < flights@.len()
                implies flight_carries_emergency(#[trigger] flights@[k]) by {
                let f = flights@[k];
                assert(f.stops@[0].orders@[0].priority == Priority::Emergency);
            }
        }

        let mut resupply_left = true;
        while budget > 0 && resupply_left
            invariant
                self.wf(),
                Self::same_config(old(self), self),
                t == current_time as int,
                fleet0 == old(self).fleet.available_at@,
                avail0 == avail_count(fleet0, t),
                budget + flights@.len() == avail0,
                avail_count(self.fleet.available_at@, t) == budget,
                self.fleet.available_at@.len() == fleet0.len(),
                forall|i: int| 0 <= i < fleet0.len()
                    ==> #[trigger] self.fleet.available_at@[i] >= fleet0[i],
                old(self).pending() == self.pending().add(flights_orders(flights@)),
                forall|k: int| 0 <= k < flights@.len()
                    ==> self.flight_ok(current_time, #[trigger] flights@[k]),
                subseq_of(self.store.emergency@, old(self).store.emergency@),
                subseq_of(self.store.resupply@, old(self).store.resupply@),
                flights@.len() == 0 ==> self.store.emergency@ == old(self).store.emergency@
                    && self.store.resupply@ == old(self).store.resupply@
                    && self.fleet.available_at@ == fleet0,
                forall|k: int| 0 <= k < flights@.len() ==> {
                    let f = #[trigger] flights@[k];
                    &&& f.zip < fleet0.len()
                    &&& fleet0[f.zip as int] <= t
                    &&& self.fleet.available_at@[f.zip as int] == t + Self::flight_duration(
                        f.total_distance_m as int, self.zip_speed_mps as int)
                    &&& self.fleet.available_at@[f.zip as int] > t
                },
                forall|i: int| 0 <= i < fleet0.len()
                    ==> (#[trigger] self.fleet.available_at@[i]) == fleet0[i]
                        || exists|k: int| 0 <= k < flights@.len()
                            && (#[trigger] flights@[k]).zip == i,
                forall|k1: int, k2: int| 0 <= k1 < k2 < flights@.len()
                    ==> (#[trigger] flights@[k1]).zip != (#[trigger] flights@[k2]).zip,
                forall|k: int| 0 <= k < flights@.len()
                    && !flight_carries_emergency(#[trigger] flights@[k])
                    ==> stops_package_count(flights@[k].stops@)
                        == self.max_packages_per_zip as int
                        || forall|i: int| 0 <= i < self.store.resupply@.len()
                            ==> appended_trip(self.hospitals@, flights@[k].stops@,
                                (#[trigger] self.store.resupply@[i]).hospital as int)
                                > self.zip_max_cumulative_range_m as int,
                forall|k1: int, k2: int| 0 <= k1 < k2 < flights@.len()
                    && !flight_carries_emergency(#[trigger] flights@[k1])
                    ==> stops_package_count(flights@[k1].stops@)
                        == self.max_packages_per_zip as int
                        || forall|i: int| 0 <= i < (#[trigger] flights@[k2]).stops@.len()
                            ==> appended_trip(self.hospitals@, flights@[k1].stops@,
                                flights@[k2].stops@[i].hospital as int)
                                > self.zip_max_cumulative_range_m as int,
                (exists|j: int| 0 <= j < self.store.emergency@.len()
                    && routable(self.hospitals@, self.zip_max_cumulative_range_m as int,
                        #[trigger] self.store.emergency@[j]))
                    ==> forall|k: int| 0 <= k < flights@.len()
                        ==> is_emergency_flight(#[trigger] flights@[k]),
                forall|k: int| 0 <= k < flights@.len()
                    && flight_carries_emergency(#[trigger] flights@[k])
                    ==> flights@[k].stops@.len() == 1,
                budget > 0 ==> forall|j: int| 0 <= j < self.store.emergency@.len()
                    ==> !routable(self.hospitals@, self.zip_max_cumulative_range_m as int,
                        #[trigger] self.store.emergency@[j]),
                !resupply_left ==> forall|j: int| 0 <= j < self.store.resupply@.len()
                    ==> !routable(self.hospitals@, self.zip_max_cumulative_range_m as int,
                        #[trigger] self.store.resupply@[j]),
            decreases budget, (if resupply_left { 1int } else { 0int }),
        {
            let ghost flights_before = flights@;
            let ghost rs_before = self.store.resupply@;
            match plan_resupply_flight(&self.hospitals, &mut self.store,
                self.max_packages_per_zip, self.zip_max_cumulative_range_m) {
                None => {
                    resupply_left = false;
                },
                Some(pl) => {
                    let (stops, trip) = pl;
                    let f = self.commit_flight(current_time, stops, trip);
                    flights.push(f);
                    budget -= 1;
                    proof {
                        assert(flights@.drop_last() =~= flights_before);
                        assert(flights@.last() == f);
                        assert(old(self).pending()
                            =~= self.pending().add(flights_orders(flights@)));
                        lemma_subseq_trans(self.store.resupply@, rs_before,
                            old(self).store.resupply@);
                        // a resupply flight carries no emergency order
                        assert(!flight_carries_emergency(f)) by {
                            if flight_carries_emergency(f) {
                                let (k2, j2) = choose|k2: int, j2: int|
                                    0 <= k2 < f.stops@.len()
                                    && 0 <= j2 < f.stops@[k2].orders@.len()
                                    && (#[trigger] f.stops@[k2].orders@[j2]).priority
                                        == Priority::Emergency;
                            }
                        }
                        broadcast use vstd::seq_lib::group_to_multiset_ensures;

                        // the lane only shrank, so an earlier non-full flight
                        // already ruled out everything still in it
                        lemma_subseq_contains(self.store.resupply@, rs_before);
                        assert forall|k: int, i: int| 0 <= k < flights_before.len()
                            && !flight_carries_emergency(#[trigger] flights_before[k])
                            && stops_package_count(flights_before[k].stops@)
                                != self.max_packages_per_zip as int
                            && 0 <= i < self.store.resupply@.len()
                            implies appended_trip(self.hospitals@, flights_before[k].stops@,
                                (#[trigger] self.store.resupply@[i]).hospital as int)
                                > self.zip_max_cumulative_range_m as int by {
                            assert(rs_before.contains(self.store.resupply@[i]));
                            let ix = choose|ix: int| 0 <= ix < rs_before.len()
                                && rs_before[ix] == self.store.resupply@[i];
                            assert(rs_before[ix].hospital == self.store.resupply@[i].hospital);
                        }
                        // each hospital the new flight visits had an order in
                        // the lane the earlier flights saw, so they ruled it
                        // out as well
                        assert(self.store.emergency@.to_multiset().add(rs_before.to_multiset())
                            =~= self.store.emergency@.to_multiset().add(
                                self.store.resupply@.to_multiset().add(stops_orders(f.stops@))));
                        assert forall|o: QueuedOrder| rs_before.to_multiset().count(o)
                            == self.store.resupply@.to_multiset().add(
                                stops_orders(f.stops@)).count(o) by {
                            assert(self.store.emergency@.to_multiset().add(
                                rs_before.to_multiset()).count(o)
                                == self.store.emergency@.to_multiset().add(
                                    self.store.resupply@.to_multiset().add(
                                        stops_orders(f.stops@))).count(o));
                        }
                        assert(rs_before.to_multiset() =~= self.store.resupply@.to_multiset()
                            .add(stops_orders(f.stops@)));
                        assert forall|k: int, i: int| 0 <= k < flights_before.len()
                            && !flight_carries_emergency(#[trigger] flights_before[k])
                            && stops_package_count(flights_before[k].stops@)
                                != self.max_packages_per_zip as int
                            && 0 <= i < f.stops@.len()
                            implies appended_trip(self.hospitals@, flights_before[k].stops@,
                                (#[trigger] f.stops@[i]).hospital as int)
                                > self.zip_max_cumulative_range_m as int by {
                            lemma_stops_orders_member(f.stops@, i, 0);
                            assert(rs_before.to_multiset().count(f.stops@[i].orders@[0]) >= 1);
                            assert(rs_before.contains(f.stops@[i].orders@[0]));
                            let ix = choose|ix: int| 0 <= ix < rs_before.len()
                                && rs_before[ix] == f.stops@[i].orders@[0];
                            assert(rs_before[ix].hospital == f.stops@[i].hospital);
                        }
                        assert(forall|k: int| 0 <= k < flights_before.len()
                            ==> #[trigger] flights@[k] == flights_before[k]);
                    }
                },
            }
        }
        flights
    }

    /// The number of orders still pending, for end-of-day reporting.
    pub fn pending_len(&self) -> (n: usize)
        requires
            self.store.emergency@.len() + self.store.resupply@.len() <= usize::MAX,
        ensures
            n == self.store.emergency@.len() + self.store.resupply@.len(),
    {
        self.store.len()
    }

    /// The number of vehicles free to launch at `current_time`.
    pub fn available_zips(&self, current_time: u32) -> (n: usize)
        ensures
            n == avail_count(self.fleet.available_at@, current_time as int),
    {
        self.fleet.available_count(current_time as u64)
    }
}

/// Counts how many orders of `lane` are out of range.
fn count_lane_unroutable(hospitals: &Vec<Hospital>, lane: &Vec<QueuedOrder>, range_m: u32)
    -> (n: usize)
    requires
        forall|i: int| 0 <= i < lane@.len()
            ==> (#[trigger] lane@[i]).hospital < hospitals@.len(),
    ensures
        n == count_unroutable(hospitals@, range_m as int, lane@),
        n <= lane@.len(),
{
    let ghost s = lane@;
    let mut n: usize = 0;
    let mut i: usize = 0;
    while i < lane.len()
        invariant
            i <= s.len(),
            lane@ == s,
            forall|j: int| 0 <= j < s.len() ==> (#[trigger] s[j]).hospital < hospitals@.len(),
            n == count_unroutable(hospitals@, range_m as int, s.take(i as int)),
            n <= i,
        decreases s.len() - i,
    {
        let o = lane[i];
        let p = (hospitals[o.hospital].north_m, hospitals[o.hospital].east_m);
        let d = distance_m((0, 0), p);
        proof {
            assert(s.take(i as int + 1).drop_last() =~= s.take(i as int));
            assert(s.take(i as int + 1).last() == s[i as int]);
        }
        if 2 * d > range_m as u64 {
            n += 1;
        }
        i += 1;
    }
    proof {
        assert(s.take(s.len() as int) =~= s);
    }
    n
}

impl ZipScheduler {
    /// The number of pending orders that no feasible flight can serve: their
    /// single-stop round trip alone exceeds the range cap. They stay pending
    /// indefinitely; this count lets an operator detect a structurally
    /// undeliverable hospital.
    pub fn unroutable_pending(&self) -> (n: usize)
        requires
            self.wf(),
            self.store.emergency@.len() + self.store.resupply@.len() <= usize::MAX,
        ensures
            n == count_unroutable(self.hospitals@, self.zip_max_cumulative_range_m as int,
                    self.store.emergency@)
                + count_unroutable(self.hospitals@, self.zip_max_cumulative_range_m as int,
                    self.store.resupply@),
    {
        let a = count_lane_unroutable(&self.hospitals, &self.store.emergency,
            self.zip_max_cumulative_range_m);
        let b = count_lane_unroutable(&self.hospitals, &self.store.resupply,
            self.zip_max_cumulative_range_m);
        a + b
    }
}

/// Fleet bound: however the engine is driven, at any time the number of
/// vehicle slots still out never exceeds the configured fleet size.
pub proof fn lemma_fleet_never_exceeds(s: &ZipScheduler, t: int)
    requires
        s.wf(),
    ensures
        busy_count(s.fleet.available_at@, t) <= s.num_zips,
{
    lemma_fleet_bound(s.fleet.available_at@, t);
}

} // verus!
