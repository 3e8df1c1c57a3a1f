//! The data model: hospitals, orders, flights, and the spec-level views the
//! engine's contracts are stated over.

use vstd::prelude::*;
use vstd::multiset::Multiset;
use crate::geometry::{dist, nest};

verus! {

/// Delivery urgency of an order.
#[derive(Clone, Copy, Debug, PartialEq, Eq, Structural)]
pub enum Priority {
    Emergency,
    Resupply,
}

/// Reference data for one delivery site: a name (unique across the table)
/// and its position as (north, east) offsets in meters from the nest.
#[derive(Clone, Debug, PartialEq)]
pub struct Hospital {
    pub name: String,
    pub north_m: i32,
    pub east_m: i32,
}

/// An order as handed to the engine: arrival time in seconds since midnight,
/// destination hospital by name, and priority. Carries exactly one package.
#[derive(Clone, Debug, PartialEq)]
pub struct Order {
    pub time: u32,
    pub hospital: String,
    pub priority: Priority,
}

/// A pending order after intake validation: the destination resolved to an
/// index into the hospital table.
#[derive(Clone, Copy, Debug, PartialEq, Eq, Structural)]
pub struct QueuedOrder {
    pub time: u32,
    pub hospital: usize,
    pub priority: Priority,
}

/// One stop of a flight: a hospital and the orders delivered there.
#[derive(Clone, Debug, PartialEq)]
pub struct Stop {
    pub hospital: usize,
    pub orders: Vec<QueuedOrder>,
}

/// A launched flight: an immutable record of one launch decision.
#[derive(Clone, Debug, PartialEq)]
pub struct Flight {
    /// The tick at which the flight left the nest.
    pub launch_time: u32,
    /// The vehicle slot the flight consumes, below the fleet size.
    pub zip: usize,
    /// The stops, in visit order; each delivers at least one order.
    pub stops: Vec<Stop>,
    /// Total round-trip path length in meters, within the range cap.
    pub total_distance_m: u64,
}

/// The error surfaced by order intake.
#[derive(Clone, Copy, Debug, PartialEq, Eq, Structural)]
pub enum SchedulerError {
    /// The order names a hospital absent from the reference table; the order
    /// is rejected and not queued.
    UnknownHospital,
}

/// The position of a hospital as a spec-level point.
pub open spec fn hospital_pos(h: Hospital) -> (int, int) {
    (h.north_m as int, h.east_m as int)
}

/// The positions visited by a sequence of stops, in visit order.
pub open spec fn stop_positions(hospitals: Seq<Hospital>, stops: Seq<Stop>) -> Seq<(int, int)> {
    stops.map(|i: int, s: Stop| hospital_pos(hospitals[s.hospital as int]))
}

/// The multiset of orders carried by a sequence of stops.
pub open spec fn stops_orders(stops: Seq<Stop>) -> Multiset<QueuedOrder>
    decreases stops.len(),
{
    if stops.len() == 0 {
        Multiset::empty()
    } else {
        stops_orders(stops.drop_last()).add(stops.last().orders@.to_multiset())
    }
}

/// The number of packages (one per order) carried by a sequence of stops.
pub open spec fn stops_package_count(stops: Seq<Stop>) -> int
    decreases stops.len(),
{
    if stops.len() == 0 {
        0
    } else {
        stops_package_count(stops.drop_last()) + stops.last().orders@.len()
    }
}

/// The multiset of orders carried by a sequence of flights.
pub open spec fn flights_orders(flights: Seq<Flight>) -> Multiset<QueuedOrder>
    decreases flights.len(),
{
    if flights.len() == 0 {
        Multiset::empty()
    } else {
        flights_orders(flights.drop_last()).add(stops_orders(flights.last().stops@))
    }
}

/// A queued order is routable when a single-stop round trip to its hospital
/// fits within the range cap.
pub open spec fn routable(hospitals: Seq<Hospital>, range_m: int, o: QueuedOrder) -> bool {
    &&& o.hospital < hospitals.len()
    &&& 2 * dist(nest(), hospital_pos(hospitals[o.hospital as int])) <= range_m
}

/// The number of orders in `s` that are not routable: structurally
/// undeliverable under the range cap.
pub open spec fn count_unroutable(hospitals: Seq<Hospital>, range_m: int, s: Seq<QueuedOrder>) -> int
    decreases s.len(),
{
    if s.len() == 0 {
        0
    } else {
        count_unroutable(hospitals, range_m, s.drop_last())
            + if routable(hospitals, range_m, s.last()) { 0int } else { 1int }
    }
}

/// Every stop is a valid hospital index and delivers at least one order,
/// each destined for that very hospital.
pub open spec fn stops_wf(n_hospitals: int, stops: Seq<Stop>) -> bool {
    forall|k: int| 0 <= k < stops.len() ==> {
        &&& (#[trigger] stops[k]).hospital < n_hospitals
        &&& stops[k].orders@.len() >= 1
        &&& forall|j: int| 0 <= j < stops[k].orders@.len()
            ==> (#[trigger] stops[k].orders@[j]).hospital == stops[k].hospital
    }
}

/// An order delivered at some stop counts in the stops' order multiset.
pub proof fn lemma_stops_orders_member(stops: Seq<Stop>, k: int, j: int)
    requires
        0 <= k < stops.len(),
        0 <= j < stops[k].orders@.len(),
    ensures
        stops_orders(stops).count(stops[k].orders@[j]) >= 1,
    decreases stops.len(),
{
    broadcast use vstd::seq_lib::group_to_multiset_ensures;

    if k == stops.len() - 1 {
        assert(stops.last().orders@.contains(stops[k].orders@[j]));
    } else {
        assert(stops.drop_last()[k] == stops[k]);
        lemma_stops_orders_member(stops.drop_last(), k, j);
    }
}

/// A single-stop flight anchored on an emergency order: the shape every
/// flight of the emergency pass has.
pub open spec fn is_emergency_flight(f: Flight) -> bool {
    &&& f.stops@.len() == 1
    &&& f.stops@[0].orders@.len() >= 1
    &&& f.stops@[0].orders@[0].priority == Priority::Emergency
}

/// The flight carries at least one emergency order.
pub open spec fn flight_carries_emergency(f: Flight) -> bool {
    exists|k: int, j: int| 0 <= k < f.stops@.len() && 0 <= j < f.stops@[k].orders@.len()
        && (#[trigger] f.stops@[k].orders@[j]).priority == Priority::Emergency
}

} // verus!
