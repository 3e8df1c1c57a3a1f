use zip_scheduler::engine::ZipScheduler;
use zip_scheduler::types::{Hospital, Order, Priority, SchedulerError};

fn hospital(name: &str, north_m: i32, east_m: i32) -> Hospital {
    Hospital { name: name.to_string(), north_m, east_m }
}

fn order(time: u32, hospital: &str, priority: Priority) -> Order {
    Order { time, hospital: hospital.to_string(), priority }
}

fn default_engine(hospitals: Vec<Hospital>) -> ZipScheduler {
    ZipScheduler::new(hospitals, 10, 3, 30, 160 * 1000)
}

#[test]
fn scenario_single_emergency() {
    // One hospital at (1000, 2000): 2236 m out, 4472 m round trip.
    let mut s = default_engine(vec![hospital("kigali", 1000, 2000)]);
    s.queue_order(order(500, "kigali", Priority::Emergency)).unwrap();
    let flights = s.launch_flights(540);
    assert_eq!(flights.len(), 1);
    assert_eq!(flights[0].launch_time, 540);
    assert_eq!(flights[0].stops.len(), 1);
    assert_eq!(flights[0].stops[0].orders.len(), 1);
    assert_eq!(flights[0].stops[0].orders[0].time, 500);
    assert_eq!(flights[0].total_distance_m, 4472);
    assert_eq!(s.pending_len(), 0);
}

#[test]
fn scenario_resupply_batch_one_flight() {
    // Three resupply orders to the same hospital ride one flight together.
    let mut s = default_engine(vec![hospital("butaro", 3000, 4000)]);
    for t in [10, 20, 30] {
        s.queue_order(order(t, "butaro", Priority::Resupply)).unwrap();
    }
    let flights = s.launch_flights(60);
    assert_eq!(flights.len(), 1);
    assert_eq!(flights[0].stops.len(), 1);
    assert_eq!(flights[0].stops[0].orders.len(), 3);
    let times: Vec<u32> = flights[0].stops[0].orders.iter().map(|o| o.time).collect();
    assert_eq!(times, vec![10, 20, 30]);
    assert_eq!(s.pending_len(), 0);
}

#[test]
fn scenario_out_of_range_stays_pending() {
    // 85 km out: the 170 km round trip exceeds the 160 km range cap, so the
    // order is never launched and is still pending at day end.
    let mut s = default_engine(vec![hospital("far", 85000, 0)]);
    s.queue_order(order(0, "far", Priority::Resupply)).unwrap();
    let mut current_time: u32 = 0;
    while current_time < 24 * 60 * 60 {
        let flights = s.launch_flights(current_time);
        assert!(flights.is_empty());
        current_time += 60;
    }
    assert_eq!(s.pending_len(), 1);
}

#[test]
fn scenario_ten_emergencies_ten_vehicles() {
    // Ten simultaneous emergencies to ten reachable hospitals: ten flights on
    // one tick, and no vehicle left.
    let mut hospitals = Vec::new();
    let mut names = Vec::new();
    for i in 0..10 {
        let name = format!("h{}", i);
        hospitals.push(hospital(&name, 1000 + 100 * i, 2000));
        names.push(name);
    }
    let mut s = default_engine(hospitals);
    for name in &names {
        s.queue_order(order(100, name, Priority::Emergency)).unwrap();
    }
    assert_eq!(s.available_zips(120), 10);
    let flights = s.launch_flights(120);
    assert_eq!(flights.len(), 10);
    for f in &flights {
        assert_eq!(f.stops.len(), 1);
        assert_eq!(f.stops[0].orders.len(), 1);
    }
    assert_eq!(s.available_zips(120), 0);
    assert_eq!(s.pending_len(), 0);
}

#[test]
fn unknown_hospital_is_rejected() {
    let mut s = default_engine(vec![hospital("known", 100, 100)]);
    let r = s.queue_order(order(5, "unknown", Priority::Emergency));
    assert_eq!(r, Err(SchedulerError::UnknownHospital));
    assert_eq!(s.pending_len(), 0);
    // a rejected order never shows up in a flight
    assert!(s.launch_flights(60).is_empty());
}

#[test]
fn conservation_across_a_day() {
    let hospitals = vec![
        hospital("a", 4000, 3000),
        hospital("b", -2000, 7000),
        hospital("c", 12000, -5000),
        hospital("far", 90000, 0),
    ];
    let mut s = ZipScheduler::new(hospitals, 2, 3, 30, 160 * 1000);
    let orders = [
        (60, "a", Priority::Resupply),
        (60, "b", Priority::Emergency),
        (70, "c", Priority::Resupply),
        (80, "far", Priority::Resupply),
        (90, "a", Priority::Resupply),
        (95, "b", Priority::Resupply),
        (100, "c", Priority::Emergency),
    ];
    let mut queued: usize = 0;
    let mut launched: usize = 0;
    let mut next = 0;
    let mut current_time: u32 = 60;
    while current_time < 4000 {
        while next < orders.len() && orders[next].0 <= current_time {
            let (t, h, p) = orders[next];
            s.queue_order(order(t, h, p)).unwrap();
            queued += 1;
            next += 1;
        }
        if current_time % 60 == 0 {
            for f in s.launch_flights(current_time) {
                for stop in &f.stops {
                    launched += stop.orders.len();
                }
            }
        }
        // every order is exactly one of pending or launched, at every step
        assert_eq!(queued, launched + s.pending_len());
        current_time += 10;
    }
    // only the out-of-range order is left
    assert_eq!(s.pending_len(), 1);
    assert_eq!(launched, 6);
}

#[test]
fn determinism_two_runs_agree() {
    let build = || {
        let hospitals = vec![
            hospital("a", 4000, 3000),
            hospital("b", -2000, 7000),
            hospital("c", 12000, -5000),
        ];
        ZipScheduler::new(hospitals, 3, 3, 30, 160 * 1000)
    };
    let run = |mut s: ZipScheduler| {
        let mut all = Vec::new();
        for (t, h, p) in [
            (10, "a", Priority::Resupply),
            (20, "b", Priority::Emergency),
            (30, "c", Priority::Resupply),
            (40, "a", Priority::Resupply),
        ] {
            s.queue_order(order(t, h, p)).unwrap();
        }
        for tick in [60, 120, 180] {
            all.extend(s.launch_flights(tick));
        }
        all
    };
    let first = run(build());
    let second = run(build());
    assert_eq!(first, second);
}

#[test]
fn emergency_served_before_older_resupply() {
    // One vehicle, an older resupply order and a younger emergency: the
    // emergency flies, the resupply waits.
    let hospitals = vec![hospital("r", 5000, 0), hospital("e", 0, 5000)];
    let mut s = ZipScheduler::new(hospitals, 1, 3, 30, 160 * 1000);
    s.queue_order(order(10, "r", Priority::Resupply)).unwrap();
    s.queue_order(order(50, "e", Priority::Emergency)).unwrap();
    let flights = s.launch_flights(60);
    assert_eq!(flights.len(), 1);
    assert_eq!(flights[0].stops.len(), 1);
    assert_eq!(flights[0].stops[0].hospital, 1);
    assert_eq!(flights[0].stops[0].orders[0].priority, Priority::Emergency);
    assert_eq!(s.pending_len(), 1);
}

#[test]
fn emergency_flight_fills_with_same_hospital_orders() {
    // The emergency anchors the flight; resupply orders to the same hospital
    // top it up to the package cap, oldest first.
    let hospitals = vec![hospital("a", 3000, 0), hospital("b", 0, 3000)];
    let mut s = default_engine(hospitals);
    s.queue_order(order(10, "a", Priority::Resupply)).unwrap();
    s.queue_order(order(20, "b", Priority::Resupply)).unwrap();
    s.queue_order(order(30, "a", Priority::Resupply)).unwrap();
    s.queue_order(order(40, "a", Priority::Emergency)).unwrap();
    let flights = s.launch_flights(60);
    // first flight: the emergency to "a" plus the two resupply orders to "a";
    // second flight: the resupply to "b"
    assert_eq!(flights.len(), 2);
    assert_eq!(flights[0].stops[0].hospital, 0);
    let f0: Vec<(u32, Priority)> =
        flights[0].stops[0].orders.iter().map(|o| (o.time, o.priority)).collect();
    assert_eq!(f0, vec![
        (40, Priority::Emergency),
        (10, Priority::Resupply),
        (30, Priority::Resupply),
    ]);
    assert_eq!(flights[1].stops[0].hospital, 1);
    assert_eq!(s.pending_len(), 0);
}

#[test]
fn resupply_route_visits_nearest_first() {
    let hospitals = vec![hospital("far", 20000, 0), hospital("near", 10000, 0)];
    let mut s = default_engine(hospitals);
    s.queue_order(order(10, "far", Priority::Resupply)).unwrap();
    s.queue_order(order(20, "near", Priority::Resupply)).unwrap();
    let flights = s.launch_flights(60);
    assert_eq!(flights.len(), 1);
    let stops: Vec<usize> = flights[0].stops.iter().map(|st| st.hospital).collect();
    assert_eq!(stops, vec![1, 0]); // near, then far
    assert_eq!(flights[0].total_distance_m, 40000);
}

#[test]
fn resupply_tie_breaks_on_name() {
    // Equidistant hospitals: the lexicographically smaller name is visited
    // first, regardless of arrival order.
    let hospitals = vec![hospital("beta", 0, 5000), hospital("alpha", 5000, 0)];
    let mut s = default_engine(hospitals);
    s.queue_order(order(10, "beta", Priority::Resupply)).unwrap();
    s.queue_order(order(20, "alpha", Priority::Resupply)).unwrap();
    let flights = s.launch_flights(60);
    assert_eq!(flights.len(), 1);
    let stops: Vec<usize> = flights[0].stops.iter().map(|st| st.hospital).collect();
    assert_eq!(stops, vec![1, 0]); // alpha first
}

#[test]
fn capacity_cap_splits_flights() {
    // Four resupply orders to one hospital with a cap of three: two flights.
    let mut s = default_engine(vec![hospital("a", 3000, 4000)]);
    for t in [10, 20, 30, 40] {
        s.queue_order(order(t, "a", Priority::Resupply)).unwrap();
    }
    let flights = s.launch_flights(60);
    assert_eq!(flights.len(), 2);
    assert_eq!(flights[0].stops[0].orders.len(), 3);
    assert_eq!(flights[1].stops[0].orders.len(), 1);
    let times: Vec<u32> = flights[0].stops[0].orders.iter().map(|o| o.time).collect();
    assert_eq!(times, vec![10, 20, 30]);
}

#[test]
fn vehicle_returns_after_round_trip_duration() {
    // 4472 m at 30 m/s is 150 s rounded up: busy through 689, back at 690.
    let mut s = default_engine(vec![hospital("kigali", 1000, 2000)]);
    s.queue_order(order(500, "kigali", Priority::Emergency)).unwrap();
    let flights = s.launch_flights(540);
    assert_eq!(flights.len(), 1);
    assert_eq!(s.available_zips(540), 9);
    assert_eq!(s.available_zips(689), 9);
    assert_eq!(s.available_zips(690), 10);
}

#[test]
fn unroutable_does_not_block_routable() {
    // An out-of-range group is skipped without consuming a vehicle; a
    // reachable group still flies on the same tick.
    let hospitals = vec![hospital("far", 90000, 0), hospital("near", 1000, 0)];
    let mut s = ZipScheduler::new(hospitals, 1, 3, 30, 160 * 1000);
    s.queue_order(order(10, "far", Priority::Resupply)).unwrap();
    s.queue_order(order(20, "near", Priority::Resupply)).unwrap();
    let flights = s.launch_flights(60);
    assert_eq!(flights.len(), 1);
    assert_eq!(flights[0].stops[0].hospital, 1);
    assert_eq!(s.pending_len(), 1);
}

#[test]
fn second_tick_without_new_orders_is_empty() {
    let mut s = default_engine(vec![hospital("a", 1000, 2000)]);
    s.queue_order(order(10, "a", Priority::Emergency)).unwrap();
    let first = s.launch_flights(60);
    assert_eq!(first.len(), 1);
    let second = s.launch_flights(60);
    assert!(second.is_empty());
}

#[test]
fn multi_stop_route_respects_range() {
    // Hospitals laid out so that not all groups fit in one trip: the route
    // stops growing before the range cap is crossed.
    let hospitals = vec![
        hospital("a", 40000, 0),
        hospital("b", 0, 40000),
        hospital("c", 70000, 0),
    ];
    let mut s = ZipScheduler::new(hospitals, 5, 10, 30, 160 * 1000);
    s.queue_order(order(10, "a", Priority::Resupply)).unwrap();
    s.queue_order(order(20, "b", Priority::Resupply)).unwrap();
    s.queue_order(order(30, "c", Priority::Resupply)).unwrap();
    let flights = s.launch_flights(60);
    for f in &flights {
        assert!(f.total_distance_m <= 160 * 1000);
    }
    // every order was either launched or is still pending
    let launched: usize = flights.iter()
        .map(|f| f.stops.iter().map(|st| st.orders.len()).sum::<usize>())
        .sum();
    assert_eq!(launched + s.pending_len(), 3);
}

#[test]
fn unroutable_orders_are_counted() {
    // Orders beyond the range cap stay pending and show up in the count an
    // operator can watch.
    let hospitals = vec![hospital("far", 90000, 0), hospital("near", 1000, 0)];
    let mut s = default_engine(hospitals);
    s.queue_order(order(10, "far", Priority::Resupply)).unwrap();
    s.queue_order(order(20, "far", Priority::Emergency)).unwrap();
    s.queue_order(order(30, "near", Priority::Resupply)).unwrap();
    assert_eq!(s.unroutable_pending(), 2);
    let flights = s.launch_flights(60);
    assert_eq!(flights.len(), 1);
    assert_eq!(s.unroutable_pending(), 2);
    assert_eq!(s.pending_len(), 2);
}

#[test]
fn zero_distance_flight_still_occupies_its_vehicle() {
    // A hospital at the nest itself: the round trip is 0 m, but the vehicle
    // is out for at least one second, so the tick cannot reuse its slot.
    let mut s = ZipScheduler::new(vec![hospital("atnest", 0, 0)], 1, 3, 30, 160 * 1000);
    s.queue_order(order(5, "atnest", Priority::Emergency)).unwrap();
    s.queue_order(order(6, "atnest", Priority::Emergency)).unwrap();
    s.queue_order(order(7, "atnest", Priority::Emergency)).unwrap();
    s.queue_order(order(8, "atnest", Priority::Emergency)).unwrap();
    let flights = s.launch_flights(60);
    // the one vehicle flies once, carrying the cap of three
    assert_eq!(flights.len(), 1);
    assert_eq!(flights[0].total_distance_m, 0);
    assert_eq!(flights[0].stops[0].orders.len(), 3);
    assert_eq!(s.available_zips(60), 0);
    assert_eq!(s.available_zips(61), 1);
    assert_eq!(s.pending_len(), 1);
    // an immediate repeat call at the same tick launches nothing more
    assert!(s.launch_flights(60).is_empty());
}
