use metrosim::{parse_request, PassengerIds, Request, Simulator};

fn three_stations() -> Simulator {
    let names = vec![
        "station_0".to_string(),
        "station_1".to_string(),
        "station_2".to_string(),
    ];
    Simulator::new(names, "output.txt")
}

#[test]
fn test_new_sim() {
    let simulator = three_stations();
    let expected_sim = "\
Passengers on train: {}
TRAIN: [0] station_0 {}
       [1] station_1 {}
       [2] station_2 {}\n"
        .to_string();
    let recieved_sim = simulator.to_text();
    assert_eq!(expected_sim, recieved_sim);
}

#[test]
fn test_add_passenger() {
    let mut ids = PassengerIds::new();
    let mut simulator = three_stations();
    simulator.add_passenger(&mut ids, 0, 2);
    let p = match simulator.waiting_at(0).front() {
        Some(p) => *p,
        None => panic!("no passenger found on train with departure station 1"),
    };
    let expected_sim = format!(
        "\
Passengers on train: {{}}
TRAIN: [0] station_0 {{[{}, 0->2]}}
       [1] station_1 {{}}
       [2] station_2 {{}}\n",
        p.id
    );
    let recieved_sim = simulator.to_text();
    assert_eq!(expected_sim, recieved_sim);
}

#[test]
fn test_move_train() {
    let mut ids = PassengerIds::new();
    let mut simulator = three_stations();
    simulator.add_passenger(&mut ids, 0, 2);
    simulator.move_train();
    let p = match simulator.train_car(2).front() {
        Some(p) => *p,
        None => panic!("no passenger found on train with departure station 1"),
    };
    let expected_sim = format!(
        "\
Passengers on train: {{[{}, 0->2]}}
       [0] station_0 {{}}
TRAIN: [1] station_1 {{}}
       [2] station_2 {{}}\n",
        p.id
    );
    let recieved_sim = simulator.to_text();
    assert_eq!(expected_sim, recieved_sim);
    assert_eq!(simulator.current_station(), 1);
}

#[test]
fn test_move_train_and_leave() {
    let mut ids = PassengerIds::new();
    let mut simulator = three_stations();
    simulator.add_passenger(&mut ids, 0, 1);
    simulator.move_train();
    simulator.move_train();
    let expected_sim = "\
Passengers on train: {}
       [0] station_0 {}
       [1] station_1 {}
TRAIN: [2] station_2 {}\n"
        .to_string();
    let recieved_sim = simulator.to_text();
    assert_eq!(expected_sim, recieved_sim);
}

#[test]
fn test_move_train_around_track() {
    let mut simulator = three_stations();
    simulator.move_train();
    simulator.move_train();
    simulator.move_train();
    let expected_sim = "\
Passengers on train: {}
TRAIN: [0] station_0 {}
       [1] station_1 {}
       [2] station_2 {}\n"
        .to_string();
    let recieved_sim = simulator.to_text();
    assert_eq!(expected_sim, recieved_sim);
}

#[test]
fn alighting_writes_one_log_line() {
    let mut ids = PassengerIds::new();
    let mut simulator = three_stations();
    let p = simulator.add_passenger(&mut ids, 0, 1);
    assert!(simulator.move_train().is_empty());
    let log = simulator.move_train();
    assert_eq!(log, vec![format!("Passenger {} left the train at station station_1\n", p.id)]);
    assert_eq!(simulator.current_station(), 2);
    for s in 0..3 {
        assert_eq!(simulator.waiting_at(s).size(), 0);
        assert_eq!(simulator.train_car(s).size(), 0);
    }
}

#[test]
fn alight_log_keeps_boarding_order() {
    let mut ids = PassengerIds::new();
    let mut simulator = three_stations();
    for _ in 0..12 {
        simulator.add_passenger(&mut ids, 0, 2);
    }
    simulator.move_train();
    simulator.move_train();
    let log = simulator.move_train();
    let expected: Vec<String> = (1..=12)
        .map(|id| format!("Passenger {} left the train at station station_2\n", id))
        .collect();
    assert_eq!(log, expected);
}

#[test]
fn passengers_are_conserved() {
    let mut ids = PassengerIds::new();
    let mut simulator = three_stations();
    let mut added = 0usize;
    let mut alighted = 0usize;
    let trips = [(0u32, 1u32), (1, 0), (2, 2), (0, 0), (1, 2), (2, 1)];
    for (k, (a, d)) in trips.iter().enumerate() {
        simulator.add_passenger(&mut ids, *a, *d);
        added += 1;
        if k % 2 == 1 {
            alighted += simulator.move_train().len();
        }
        let mut held = 0usize;
        for s in 0..3 {
            held += simulator.waiting_at(s).size() + simulator.train_car(s).size();
        }
        assert_eq!(held + alighted, added);
    }
    for _ in 0..6 {
        alighted += simulator.move_train().len();
    }
    assert_eq!(alighted, added);
}

#[test]
fn empty_line_wraps_around_unchanged() {
    let mut simulator = three_stations();
    let before = simulator.to_text();
    for _ in 0..3 {
        assert!(simulator.move_train().is_empty());
    }
    assert_eq!(simulator.current_station(), 0);
    assert_eq!(simulator.to_text(), before);
}

#[test]
fn same_station_trip_alights_one_round_later() {
    let mut ids = PassengerIds::new();
    let mut simulator = three_stations();
    let p = simulator.add_passenger(&mut ids, 0, 0);
    assert!(simulator.move_train().is_empty());
    assert_eq!(simulator.train_car(0).size(), 1);
    assert!(simulator.move_train().is_empty());
    assert!(simulator.move_train().is_empty());
    let log = simulator.move_train();
    assert_eq!(log, vec![format!("Passenger {} left the train at station station_0\n", p.id)]);
}

#[test]
fn single_station_line_stays_at_its_station() {
    let mut ids = PassengerIds::new();
    let mut simulator = Simulator::new(vec!["hub".to_string()], "log.txt");
    simulator.add_passenger(&mut ids, 0, 0);
    assert!(simulator.move_train().is_empty());
    assert_eq!(simulator.current_station(), 0);
    assert_eq!(simulator.move_train().len(), 1);
    assert_eq!(simulator.output_file(), "log.txt");
    assert_eq!(simulator.station_count(), 1);
}

#[test]
fn commands_are_read() {
    assert!(parse_request("m m\n") == Some(Request::MoveTrain));
    assert!(parse_request("m m") == Some(Request::MoveTrain));
    assert!(parse_request("m f\n") == Some(Request::Finish));
    assert!(
        parse_request("p 0 2\n")
            == Some(Request::AddPassenger { arrival: 0, departure: 2 })
    );
    assert!(
        parse_request("a +12 4294967295 extra")
            == Some(Request::AddPassenger { arrival: 12, departure: 4294967295 })
    );
    assert!(parse_request("a 1 4294967296").is_none());
    assert!(parse_request("a 1").is_none());
    assert!(parse_request("a x 2").is_none());
    assert!(parse_request("a  1 2").is_none());
    assert!(parse_request("a + 2").is_none());
    assert!(parse_request("").is_none());
    assert!(parse_request("m m\n\n").is_none());
}
