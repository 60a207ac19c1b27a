use metrosim::{Passenger, PassengerIds, PassengerQueue};

#[test]
fn passenger_test_display() {
    let mut ids = PassengerIds::new();
    let passenger = Passenger::new(&mut ids, 0, 1);
    let output_string = passenger.to_text();
    let expected_string = format!(
        "[{}, {}->{}]",
        passenger.id, passenger.arrival, passenger.departure,
    );
    assert_eq!(output_string, expected_string);
}

#[test]
fn passenger_text_with_multi_digit_fields() {
    let mut ids = PassengerIds::new();
    let mut last = Passenger::new(&mut ids, 0, 0);
    for _ in 0..11 {
        last = Passenger::new(&mut ids, 10, 305);
    }
    assert_eq!(last.id, 12);
    assert_eq!(last.to_text(), "[12, 10->305]");
}

#[test]
fn ids_start_at_one_and_strictly_increase() {
    let mut ids = PassengerIds::new();
    let mut previous = 0u32;
    for k in 0..50u32 {
        let p = Passenger::new(&mut ids, k, k + 1);
        assert!(p.id > previous);
        previous = p.id;
    }
    assert_eq!(previous, 50);
    assert!(ids.has_next());
}

#[test]
fn test_enqueue() {
    let mut ids = PassengerIds::new();
    let passenger = Passenger::new(&mut ids, 0, 1);

    let mut passengers = PassengerQueue::new();
    passengers.enqueue(passenger);
    assert_eq!(passengers.size(), 1);
}

#[test]
fn test_front() {
    let mut ids = PassengerIds::new();
    let passenger = Passenger::new(&mut ids, 0, 1);

    let mut passengers = PassengerQueue::new();
    passengers.enqueue(passenger);
    match passengers.front() {
        Some(p) => {
            let expected_passenger = passenger.to_text();
            let recieved_passenger = p.to_text();
            assert_eq!(expected_passenger, recieved_passenger);
        }
        None => {
            panic!("call to get front of passenger call failed")
        }
    }
}

#[test]
fn test_dequeue() {
    let mut ids = PassengerIds::new();
    let passenger = Passenger::new(&mut ids, 0, 1);

    let mut passengers = PassengerQueue::new();
    passengers.enqueue(passenger);
    passengers.dequeue();
    assert_eq!(passengers.size(), 0);
}

#[test]
fn passenger_queue_test_display() {
    let mut ids = PassengerIds::new();
    let passenger_1 = Passenger::new(&mut ids, 0, 1);
    let passenger_2 = Passenger::new(&mut ids, 3, 4);
    let passenger_3 = Passenger::new(&mut ids, 6, 7);

    let mut passengers = PassengerQueue::new();
    passengers.enqueue(passenger_1);
    passengers.enqueue(passenger_2);
    passengers.enqueue(passenger_3);

    let expected_queue = format!(
        "{}{}{}",
        passenger_1.to_text(),
        passenger_2.to_text(),
        passenger_3.to_text(),
    );
    let recieved_queue = passengers.to_text();
    assert_eq!(expected_queue, recieved_queue);
    assert_eq!(recieved_queue, "[1, 0->1][2, 3->4][3, 6->7]");
}

#[test]
fn queue_dequeues_in_enqueue_order() {
    let mut ids = PassengerIds::new();
    let mut queue = PassengerQueue::new();
    let mut added = Vec::new();
    for k in 0..5u32 {
        let p = Passenger::new(&mut ids, k, 4 - k);
        added.push(p);
        queue.enqueue(p);
    }
    let mut removed = Vec::new();
    while let Some(p) = queue.dequeue() {
        removed.push(p);
    }
    assert!(added == removed);
    assert_eq!(queue.size(), 0);
}

#[test]
fn empty_queue_has_no_front_and_dequeues_nothing() {
    let mut queue = PassengerQueue::new();
    assert!(queue.front().is_none());
    assert!(queue.dequeue().is_none());
    assert_eq!(queue.size(), 0);
    assert_eq!(queue.to_text(), "");
}
