use velos::bus_spawner::{BusSchedule, BusSpawner, StopTime};

fn make_schedule(trip_id: &str, route_id: &str, departure_s: u32) -> BusSchedule {
    BusSchedule {
        trip_id: trip_id.to_string(),
        route_id: route_id.to_string(),
        stop_times: vec![
            StopTime { stop_id: "S1".to_string(), arrival_s: departure_s, departure_s, stop_sequence: 1 },
            StopTime {
                stop_id: "S2".to_string(),
                arrival_s: departure_s + 300,
                departure_s: departure_s + 300,
                stop_sequence: 2,
            },
            StopTime {
                stop_id: "S3".to_string(),
                arrival_s: departure_s + 600,
                departure_s: departure_s + 600,
                stop_sequence: 3,
            },
        ],
    }
}

fn make_route_stop_ids() -> Vec<(String, Vec<String>)> {
    vec![("R1".to_string(), vec!["S1".to_string(), "S2".to_string(), "S3".to_string()])]
}

fn make_stop_id_to_index() -> Vec<(String, usize)> {
    vec![("S1".to_string(), 0), ("S2".to_string(), 1), ("S3".to_string(), 2)]
}

#[test]
fn new_builds_route_stops_mapping() {
    let schedules = vec![make_schedule("T1", "R1", 21600)];
    let spawner = BusSpawner::new(&make_route_stop_ids(), &make_stop_id_to_index(), schedules);
    assert_eq!(spawner.stops_for(&"R1".to_string()), vec![0, 1, 2], "route R1 should map to stop indices [0, 1, 2]");
}

#[test]
fn generate_before_any_departure_returns_empty() {
    let schedules = vec![make_schedule("T1", "R1", 21600)];
    let mut spawner = BusSpawner::new(&make_route_stop_ids(), &make_stop_id_to_index(), schedules);
    let requests = spawner.spawns_due(18000);
    assert!(requests.is_empty(), "no trips should spawn before departure");
}

#[test]
fn generate_at_departure_returns_one_request() {
    let schedules = vec![make_schedule("T1", "R1", 21600)];
    let mut spawner = BusSpawner::new(&make_route_stop_ids(), &make_stop_id_to_index(), schedules);
    let requests = spawner.spawns_due(21600);
    assert_eq!(requests.len(), 1);
    assert_eq!(requests[0].route_id, "R1");
    assert_eq!(requests[0].trip_id, "T1");
    assert_eq!(requests[0].stop_indices, vec![0, 1, 2]);
}

#[test]
fn generate_advances_cursor_no_double_spawn() {
    let schedules = vec![make_schedule("T1", "R1", 21600)];
    let mut spawner = BusSpawner::new(&make_route_stop_ids(), &make_stop_id_to_index(), schedules);
    let r1 = spawner.spawns_due(21600);
    assert_eq!(r1.len(), 1);
    let r2 = spawner.spawns_due(21600);
    assert!(r2.is_empty(), "same trip must not spawn twice");
    assert_eq!(spawner.remaining_trips(), 0);
}

#[test]
fn generate_multiple_trips_at_once() {
    let schedules = vec![
        make_schedule("T3", "R1", 25200),
        make_schedule("T1", "R1", 21600),
        make_schedule("T2", "R1", 22200),
    ];
    let mut spawner = BusSpawner::new(&make_route_stop_ids(), &make_stop_id_to_index(), schedules);
    assert_eq!(spawner.remaining_trips(), 3);
    let requests = spawner.spawns_due(22500);
    assert_eq!(requests.len(), 2, "T1 and T2 should spawn");
    assert_eq!(requests[0].trip_id, "T1");
    assert_eq!(requests[1].trip_id, "T2");
    let requests2 = spawner.spawns_due(25260);
    assert_eq!(requests2.len(), 1);
    assert_eq!(requests2[0].trip_id, "T3");
    assert_eq!(spawner.remaining_trips(), 0);
}

#[test]
fn spawn_request_has_correct_stop_indices() {
    let route_stop_ids = vec![("R2".to_string(), vec!["SA".to_string(), "SB".to_string()])];
    let stop_id_to_index = vec![("SA".to_string(), 5), ("SB".to_string(), 12)];
    let schedules = vec![BusSchedule {
        trip_id: "TX".to_string(),
        route_id: "R2".to_string(),
        stop_times: vec![StopTime { stop_id: "SA".to_string(), arrival_s: 3600, departure_s: 3600, stop_sequence: 1 }],
    }];
    let mut spawner = BusSpawner::new(&route_stop_ids, &stop_id_to_index, schedules);
    let requests = spawner.spawns_due(3600);
    assert_eq!(requests.len(), 1);
    assert_eq!(requests[0].stop_indices, vec![5, 12]);
}

#[test]
fn unknown_stops_skipped_and_unknown_route_empty() {
    let route_stop_ids = vec![("R1".to_string(), vec!["S1".to_string(), "NOPE".to_string(), "S3".to_string()])];
    let schedules = vec![make_schedule("T1", "R9", 100), make_schedule("T2", "R1", 100)];
    let mut spawner = BusSpawner::new(&route_stop_ids, &make_stop_id_to_index(), schedules);
    let requests = spawner.spawns_due(100);
    assert_eq!(requests.len(), 2);
    assert_eq!(requests[0].trip_id, "T1");
    assert!(requests[0].stop_indices.is_empty());
    assert_eq!(requests[1].stop_indices, vec![0, 2]);
}

#[test]
fn trip_without_stops_never_spawns_before_end_of_range() {
    let schedules = vec![
        BusSchedule { trip_id: "EMPTY".to_string(), route_id: "R1".to_string(), stop_times: Vec::new() },
        make_schedule("T1", "R1", 86399),
    ];
    let mut spawner = BusSpawner::new(&make_route_stop_ids(), &make_stop_id_to_index(), schedules);
    let requests = spawner.spawns_due(86399);
    assert_eq!(requests.len(), 1);
    assert_eq!(requests[0].trip_id, "T1");
    assert_eq!(spawner.remaining_trips(), 1);
}
