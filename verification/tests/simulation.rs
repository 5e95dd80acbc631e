use metro::geometry::{Position, INF_DIST};
use metro::metro::{passenger_from_draw, station_from_draws, Metro, MetroResources, Passenger, Station, Train};

/// The initial world: three stations of distinct kinds, no connections, no
/// trains, default resource pool.
#[test]
fn initial_world_defaults() {
    let m = Metro::new();
    assert_eq!(m.stations.len(), 3);
    assert_eq!(m.stations[0].kind, 0);
    assert_eq!(m.stations[1].kind, 1);
    assert_eq!(m.stations[2].kind, 2);
    assert!(m.trains.is_empty());
    for a in 0..3 {
        for b in 0..3 {
            assert_eq!(m.distance(a, b), INF_DIST);
        }
    }
    let r = MetroResources::new();
    assert_eq!(r.total_trains, 3);
    assert_eq!(r.available_lines, 3);
    assert_eq!(r.max_lines, 9);
}

/// A running train advances by the tick delta and stops, clamped, at the
/// end of its edge; a stopped train does not move.
#[test]
fn trains_advance_and_clamp() {
    let mut m = Metro::new();
    m.add_connection(0, 1, 0);
    m.trains.push(Train::new(0, 1));
    // A fresh train is stopped: a tick leaves it in place.
    m.move_trains(1_000);
    assert_eq!(m.trains[0].traveled_distance, 0);

    m.trains[0].stopped = false;
    m.move_trains(1_000);
    assert_eq!(m.trains[0].traveled_distance, 1_000);
    assert!(!m.trains[0].stopped);

    // The edge from 0 to 1 is 50_000 long: overshooting clamps and stops.
    m.move_trains(60_000);
    assert_eq!(m.trains[0].traveled_distance, 50_000);
    assert!(m.trains[0].stopped);

    // Stopped again: further ticks change nothing.
    m.move_trains(1_000);
    assert_eq!(m.trains[0].traveled_distance, 50_000);
}

/// An enormous delta saturates instead of wrapping and still clamps.
#[test]
fn train_advance_saturates() {
    let mut m = Metro::new();
    m.add_connection(1, 2, 0);
    let mut t = Train::new(1, 2);
    t.stopped = false;
    m.trains.push(t);
    m.move_trains(u64::MAX);
    assert_eq!(m.trains[0].traveled_distance, 72_111);
    assert!(m.trains[0].stopped);
}

/// Builds a straight line of stations 3 (kind 9), 4 (kind 8) and
/// 5 (kind 8), connected in both directions as one line.
fn line_world() -> Metro {
    let mut m = Metro::new();
    m.add_station(Station::new(9, Position { x: 0, y: 0 }));
    m.add_station(Station::new(8, Position { x: 10_000, y: 0 }));
    m.add_station(Station::new(8, Position { x: 20_000, y: 0 }));
    for (a, b) in [(3, 4), (4, 3), (4, 5), (5, 4)] {
        m.add_connection(a, b, 0);
    }
    m
}

/// A passenger boards only when the forward hop strictly shortens the
/// distance to the first station of its kind: here the train at the far
/// terminal heads toward the destination, so it boards.
#[test]
fn boarding_when_forward_hop_helps() {
    let mut m = line_world();
    // Train stopped at station 5 (terminal); its only direction is 4,
    // which brings a kind-9 passenger closer to station 3.
    m.trains.push(Train::new(4, 5));
    m.stations[5].passengers.push(Passenger { target: 9 });

    assert_eq!(m.distance(5, 3), 20_000);
    assert_eq!(m.distance(4, 3), 10_000);

    m.onboard_passengers();
    assert_eq!(m.trains[0].passengers.len(), 1);
    assert_eq!(m.trains[0].passengers[0].target, 9);
    assert!(m.stations[5].passengers.is_empty());
    // Boarding paces one passenger per invocation: the train waits.
    assert!(m.trains[0].stopped);

    // No passenger benefits any more: the train departs toward 4.
    m.onboard_passengers();
    assert!(!m.trains[0].stopped);
    assert_eq!(m.trains[0].last_station, 5);
    assert_eq!(m.trains[0].next_station, 4);
    assert_eq!(m.trains[0].traveled_distance, 0);
}

/// The same passenger stays on the platform when the train's forward hop
/// would take it farther from its destination.
#[test]
fn no_boarding_when_forward_hop_hurts() {
    let mut m = line_world();
    // Train stopped at through-station 4, having come from 3: its forward
    // direction is 5, away from the kind-9 station 3.
    m.trains.push(Train::new(3, 4));
    m.stations[4].passengers.push(Passenger { target: 9 });

    m.onboard_passengers();
    assert!(m.trains[0].passengers.is_empty());
    assert_eq!(m.stations[4].passengers.len(), 1);
    // The train departs empty-handed toward the forward neighbor.
    assert!(!m.trains[0].stopped);
    assert_eq!(m.trains[0].last_station, 4);
    assert_eq!(m.trains[0].next_station, 5);
}

/// A passenger whose kind exists nowhere is never boarded.
#[test]
fn no_boarding_without_destination() {
    let mut m = line_world();
    m.trains.push(Train::new(4, 5));
    m.stations[5].passengers.push(Passenger { target: 7 });
    m.onboard_passengers();
    assert!(m.trains[0].passengers.is_empty());
    assert_eq!(m.stations[5].passengers.len(), 1);
    assert!(!m.trains[0].stopped);
}

/// With no stopped train the call changes nothing.
#[test]
fn onboard_without_stopped_trains() {
    let mut m = line_world();
    let mut t = Train::new(4, 5);
    t.stopped = false;
    m.trains.push(t);
    m.stations[5].passengers.push(Passenger { target: 9 });
    m.onboard_passengers();
    assert_eq!(m.stations[5].passengers.len(), 1);
    assert!(m.trains[0].passengers.is_empty());
}

/// A spawned station lands inside the world extent with a valid kind, a
/// bounded intensity and an empty platform.
#[test]
fn spawn_random_station_bounds() {
    let mut m = Metro::new();
    for _ in 0..20 {
        m.spawn_random_station();
    }
    assert_eq!(m.stations.len(), 23);
    for s in &m.stations[3..] {
        assert!(s.kind < 3);
        assert!((100..=200).contains(&s.intensity));
        assert!((-100_000..=100_000).contains(&s.position.x));
        assert!((-100_000..=100_000).contains(&s.position.y));
        assert!(s.passengers.is_empty());
    }
}

/// The draw-to-station mapping is exact: kind thresholds at 200 and 500
/// per mille, position offset by the world extent, intensity offset by
/// 100 per mille.
#[test]
fn station_from_draws_exact() {
    let s = station_from_draws(0, 200_000, 199, 0);
    assert_eq!(s.kind, 0);
    assert_eq!(s.position, Position { x: -100_000, y: 100_000 });
    assert_eq!(s.intensity, 100);
    assert!(s.passengers.is_empty());

    assert_eq!(station_from_draws(100_000, 100_000, 200, 50).kind, 1);
    assert_eq!(station_from_draws(100_000, 100_000, 499, 50).kind, 1);
    assert_eq!(station_from_draws(100_000, 100_000, 500, 100).kind, 2);
    assert_eq!(station_from_draws(100_000, 100_000, 999, 100).kind, 2);
    assert_eq!(station_from_draws(100_000, 100_000, 0, 100).intensity, 200);
}

/// A station of full intensity always gains a passenger per tick; one of
/// zero intensity never does; every target kind is valid.
#[test]
fn spawn_random_passengers_follow_intensity() {
    let mut m = Metro::new();
    m.stations[0].intensity = 1000;
    m.stations[1].intensity = 0;
    for _ in 0..10 {
        m.spawn_random_passengers();
    }
    assert_eq!(m.stations[0].passengers.len(), 10);
    assert!(m.stations[1].passengers.is_empty());
    for p in &m.stations[0].passengers {
        assert!(p.target < 3);
    }
}

/// The draw-to-target mapping is exact and a permutation of the kinds.
#[test]
fn passenger_from_draw_exact() {
    assert_eq!(passenger_from_draw(0).target, 2);
    assert_eq!(passenger_from_draw(1).target, 1);
    assert_eq!(passenger_from_draw(2).target, 0);
}
