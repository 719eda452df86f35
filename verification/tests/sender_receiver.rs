use longboy::{CounterSource, MaxCounterSink, Receiver, Sender};

fn pair(
    size: usize,
    window_size: usize,
    key: u64,
    period: u64,
) -> (Sender<CounterSource>, Receiver<MaxCounterSink>) {
    let sender = Sender::new(size, window_size, key, CounterSource::new(period)).unwrap();
    let receiver = Receiver::new(size, window_size, key, MaxCounterSink::new()).unwrap();
    (sender, receiver)
}

#[test]
fn golden() {
    let size = 8;
    let window_size = 3;
    let key = 0xDEADBEEFDEADBEEF;

    let timestamp = 0;

    let (mut sender, mut receiver) = pair(size, window_size, key, 1);

    assert_eq!(sender.cycle(), 0);
    assert_eq!(receiver.cycle(), 0);

    for n in 1..=6u64 {
        let datagram = sender.poll_datagram(timestamp).unwrap();
        assert_eq!(sender.cycle(), n as usize);
        assert_eq!(receiver.cycle(), (n - 1) as usize);
        assert_eq!(sender.source().count(), n);
        assert_eq!(receiver.sink().count(), n - 1);

        receiver.handle_datagram(timestamp, &datagram);
        assert_eq!(sender.cycle(), n as usize);
        assert_eq!(receiver.cycle(), n as usize);
        assert_eq!(sender.source().count(), n);
        assert_eq!(receiver.sink().count(), n);
        assert_eq!(receiver.sink().handled(), n);
    }
}

#[test]
fn mirroring() {
    let size = 8;
    let window_size = 3;
    let key = 0xDEADBEEFDEADBEEF;

    let timestamp = 0;

    let (mut sender, mut receiver) = pair(size, window_size, key, 1);

    assert_eq!(sender.cycle(), 0);
    assert_eq!(receiver.cycle(), 0);

    let datagram_1 = sender.poll_datagram(timestamp).unwrap();
    let datagram_2 = sender.poll_datagram(timestamp).unwrap();
    let datagram_3 = sender.poll_datagram(timestamp).unwrap();
    assert_eq!(sender.cycle(), 3);
    assert_eq!(receiver.cycle(), 0);
    assert_eq!(sender.source().count(), 3);
    assert_eq!(receiver.sink().count(), 0);

    receiver.handle_datagram(timestamp, &datagram_1);
    receiver.handle_datagram(timestamp, &datagram_1);
    receiver.handle_datagram(timestamp, &datagram_1);
    assert_eq!(sender.cycle(), 3);
    assert_eq!(receiver.cycle(), 1);
    assert_eq!(sender.source().count(), 3);
    assert_eq!(receiver.sink().count(), 1);
    assert_eq!(receiver.sink().handled(), 1);

    receiver.handle_datagram(timestamp, &datagram_2);
    receiver.handle_datagram(timestamp, &datagram_2);
    receiver.handle_datagram(timestamp, &datagram_2);
    assert_eq!(sender.cycle(), 3);
    assert_eq!(receiver.cycle(), 2);
    assert_eq!(sender.source().count(), 3);
    assert_eq!(receiver.sink().count(), 2);

    receiver.handle_datagram(timestamp, &datagram_3);
    receiver.handle_datagram(timestamp, &datagram_3);
    receiver.handle_datagram(timestamp, &datagram_3);
    assert_eq!(sender.cycle(), 3);
    assert_eq!(receiver.cycle(), 3);
    assert_eq!(sender.source().count(), 3);
    assert_eq!(receiver.sink().count(), 3);
    assert_eq!(receiver.sink().handled(), 3);
}

#[test]
fn out_of_order() {
    let size = 8;
    let window_size = 3;
    let key = 0xDEADBEEFDEADBEEF;

    let timestamp = 0;

    let (mut sender, mut receiver) = pair(size, window_size, key, 1);

    assert_eq!(sender.cycle(), 0);
    assert_eq!(receiver.cycle(), 0);

    // Inside of window.
    let datagram_1 = sender.poll_datagram(timestamp).unwrap();
    let datagram_2 = sender.poll_datagram(timestamp).unwrap();
    let datagram_3 = sender.poll_datagram(timestamp).unwrap();
    assert_eq!(sender.cycle(), 3);
    assert_eq!(receiver.cycle(), 0);
    assert_eq!(sender.source().count(), 3);
    assert_eq!(receiver.sink().count(), 0);

    receiver.handle_datagram(timestamp, &datagram_3);
    assert_eq!(sender.cycle(), 3);
    assert_eq!(receiver.cycle(), 3);
    assert_eq!(sender.source().count(), 3);
    assert_eq!(receiver.sink().count(), 3);

    receiver.handle_datagram(timestamp, &datagram_2);
    assert_eq!(sender.cycle(), 3);
    assert_eq!(receiver.cycle(), 3);
    assert_eq!(sender.source().count(), 3);
    assert_eq!(receiver.sink().count(), 3);

    receiver.handle_datagram(timestamp, &datagram_1);
    assert_eq!(sender.cycle(), 3);
    assert_eq!(receiver.cycle(), 3);
    assert_eq!(sender.source().count(), 3);
    assert_eq!(receiver.sink().count(), 3);

    // Outside of window.
    let datagram_4 = sender.poll_datagram(timestamp).unwrap();
    let datagram_5 = sender.poll_datagram(timestamp).unwrap();
    let datagram_6 = sender.poll_datagram(timestamp).unwrap();
    let datagram_7 = sender.poll_datagram(timestamp).unwrap();
    let datagram_8 = sender.poll_datagram(timestamp).unwrap();
    let datagram_9 = sender.poll_datagram(timestamp).unwrap();
    let datagram_10 = sender.poll_datagram(timestamp).unwrap();
    let datagram_11 = sender.poll_datagram(timestamp).unwrap();

    receiver.handle_datagram(timestamp, &datagram_11);
    assert_eq!(sender.cycle(), 11);
    assert_eq!(receiver.cycle(), 3);
    assert_eq!(sender.source().count(), 11);
    assert_eq!(receiver.sink().count(), 11);

    receiver.handle_datagram(timestamp, &datagram_10);
    assert_eq!(sender.cycle(), 11);
    assert_eq!(receiver.cycle(), 3);
    assert_eq!(sender.source().count(), 11);
    assert_eq!(receiver.sink().count(), 11);

    receiver.handle_datagram(timestamp, &datagram_9);
    assert_eq!(sender.cycle(), 11);
    assert_eq!(receiver.cycle(), 3);
    assert_eq!(sender.source().count(), 11);
    assert_eq!(receiver.sink().count(), 11);

    receiver.handle_datagram(timestamp, &datagram_8);
    assert_eq!(sender.cycle(), 11);
    assert_eq!(receiver.cycle(), 3);
    assert_eq!(sender.source().count(), 11);
    assert_eq!(receiver.sink().count(), 11);

    receiver.handle_datagram(timestamp, &datagram_7);
    assert_eq!(sender.cycle(), 11);
    assert_eq!(receiver.cycle(), 3);
    assert_eq!(sender.source().count(), 11);
    assert_eq!(receiver.sink().count(), 11);

    receiver.handle_datagram(timestamp, &datagram_6);
    assert_eq!(sender.cycle(), 11);
    assert_eq!(receiver.cycle(), 11);
    assert_eq!(sender.source().count(), 11);
    assert_eq!(receiver.sink().count(), 11);

    receiver.handle_datagram(timestamp, &datagram_5);
    assert_eq!(sender.cycle(), 11);
    assert_eq!(receiver.cycle(), 11);
    assert_eq!(sender.source().count(), 11);
    assert_eq!(receiver.sink().count(), 11);

    receiver.handle_datagram(timestamp, &datagram_4);
    assert_eq!(sender.cycle(), 11);
    assert_eq!(receiver.cycle(), 11);
    assert_eq!(sender.source().count(), 11);
    assert_eq!(receiver.sink().count(), 11);
}

#[test]
fn lost_in_transmission() {
    let size = 8;
    let window_size = 3;
    let key = 0xDEADBEEFDEADBEEF;

    let timestamp = 0;

    let (mut sender, mut receiver) = pair(size, window_size, key, 1);

    assert_eq!(sender.cycle(), 0);
    assert_eq!(receiver.cycle(), 0);

    for _ in 0..128 {
        sender.poll_datagram(timestamp).unwrap();
    }
    assert_eq!(sender.cycle(), 128);
    assert_eq!(receiver.cycle(), 0);
    assert_eq!(sender.source().count(), 128);
    assert_eq!(receiver.sink().count(), 0);

    let datagram = sender.poll_datagram(timestamp).unwrap();
    assert_eq!(sender.cycle(), 129);
    assert_eq!(receiver.cycle(), 0);
    assert_eq!(sender.source().count(), 129);
    assert_eq!(receiver.sink().count(), 0);

    receiver.handle_datagram(timestamp, &datagram);
    assert_eq!(sender.cycle(), 129);
    assert_eq!(receiver.cycle(), 121);
    assert_eq!(sender.source().count(), 129);
    assert_eq!(receiver.sink().count(), 129);
    assert_eq!(receiver.sink().handled(), 3);
}

#[test]
fn cycle_wrapping() {
    let size = 8;
    let window_size = 3;
    let key = 0xDEADBEEFDEADBEEF;

    let timestamp = 0;

    let (mut sender, mut receiver) = pair(size, window_size, key, 1);

    assert_eq!(sender.cycle(), 0);
    assert_eq!(receiver.cycle(), 0);

    for _ in 0..(65535 - 1) {
        let datagram = sender.poll_datagram(timestamp).unwrap();
        receiver.handle_datagram(timestamp, &datagram);
    }
    assert_eq!(sender.cycle(), 65534);
    assert_eq!(receiver.cycle(), 65534);
    assert_eq!(sender.source().count(), 65534);
    assert_eq!(receiver.sink().count(), 65534);

    let datagram = sender.poll_datagram(timestamp).unwrap();
    assert_eq!(sender.cycle(), 0);
    assert_eq!(receiver.cycle(), 65534);
    assert_eq!(sender.source().count(), 65535);
    assert_eq!(receiver.sink().count(), 65534);

    receiver.handle_datagram(timestamp, &datagram);
    assert_eq!(sender.cycle(), 0);
    assert_eq!(receiver.cycle(), 0);
    assert_eq!(sender.source().count(), 65535);
    assert_eq!(receiver.sink().count(), 65535);

    let datagram = sender.poll_datagram(timestamp).unwrap();
    assert_eq!(sender.cycle(), 1);
    assert_eq!(receiver.cycle(), 0);
    assert_eq!(sender.source().count(), 65536);
    assert_eq!(receiver.sink().count(), 65535);

    receiver.handle_datagram(timestamp, &datagram);
    assert_eq!(sender.cycle(), 1);
    assert_eq!(receiver.cycle(), 1);
    assert_eq!(sender.source().count(), 65536);
    assert_eq!(receiver.sink().count(), 65536);
}

#[test]
fn sparse() {
    let size = 8;
    let window_size = 3;
    let key = 0xDEADBEEFDEADBEEF;

    let period = 300;

    let timestamp = 0;

    let (mut sender, mut receiver) = pair(size, window_size, key, period);

    assert_eq!(sender.cycle(), 0);
    assert_eq!(receiver.cycle(), 0);

    let mut accumulator = 0;

    while accumulator < (period - 1) {
        accumulator += 1;

        let datagram = sender.poll_datagram(timestamp);
        assert!(datagram.is_none());
        assert_eq!(sender.cycle(), 0);
        assert_eq!(receiver.cycle(), 0);
        assert_eq!(sender.source().count(), 0);
        assert_eq!(receiver.sink().count(), 0);
    }

    for i in 0..window_size {
        accumulator += 1;

        let datagram = sender.poll_datagram(timestamp).unwrap();
        receiver.handle_datagram(timestamp, &datagram);
        assert_eq!(sender.cycle(), 1 + i);
        assert_eq!(receiver.cycle(), 1 + i);
        assert_eq!(sender.source().count(), 1);
        assert_eq!(receiver.sink().count(), 1);
    }

    while accumulator < ((period * 2) - 1) {
        accumulator += 1;

        let datagram = sender.poll_datagram(timestamp);
        assert!(datagram.is_none());
        assert_eq!(sender.cycle(), window_size);
        assert_eq!(receiver.cycle(), window_size);
        assert_eq!(sender.source().count(), 1);
        assert_eq!(receiver.sink().count(), 1);
    }

    for i in 0..window_size {
        accumulator += 1;

        let datagram = sender.poll_datagram(timestamp).unwrap();
        receiver.handle_datagram(timestamp, &datagram);
        assert_eq!(sender.source().count(), 2);
        assert_eq!(receiver.sink().count(), 2);
        assert_eq!(sender.cycle(), window_size + 1 + i);
        assert_eq!(receiver.cycle(), window_size + 1 + i);
    }
}

#[test]
fn all_supported_parameter_pairs() {
    for &size in &[8usize, 16, 32, 64, 128] {
        for &window_size in &[1usize, 3] {
            let (mut sender, mut receiver) = pair(size, window_size, 7, 1);
            for n in 1..=4u64 {
                let datagram = sender.poll_datagram(0).unwrap();
                assert_eq!(datagram.len(), 4 + size * window_size);
                receiver.handle_datagram(0, &datagram);
                assert_eq!(receiver.cycle(), sender.cycle());
                assert_eq!(receiver.sink().count(), n);
            }
        }
    }
}

#[test]
fn stale_datagram_dropped() {
    let (mut sender, mut receiver) = pair(8, 3, 42, 1);

    let datagram = sender.poll_datagram(0).unwrap();
    receiver.handle_datagram(0, &datagram);
    assert_eq!(receiver.cycle(), 1);
    assert_eq!(receiver.sink().count(), 1);

    // A timestamp more than 2048 ms ahead of the datagram's is refused.
    let datagram_2 = sender.poll_datagram(0).unwrap();
    receiver.handle_datagram(3000, &datagram_2);
    assert_eq!(receiver.cycle(), 1);
    assert_eq!(receiver.sink().count(), 1);

    // The same datagram at a plausible timestamp is accepted.
    receiver.handle_datagram(0, &datagram_2);
    assert_eq!(receiver.cycle(), 2);
    assert_eq!(receiver.sink().count(), 2);
}

#[test]
fn in_window_redundancy() {
    let (mut sender, mut receiver) = pair(8, 3, 0xDEADBEEFDEADBEEF, 1);

    // Eight datagrams; the first five (max_buffered - window_size) are
    // lost in transit.
    let mut datagrams = Vec::new();
    for _ in 0..8 {
        datagrams.push(sender.poll_datagram(0).unwrap());
    }

    // The sixth datagram recovers the window: its three slots carry the
    // messages of cycles 3, 4 and 5 (counters 4, 5, 6).
    receiver.handle_datagram(0, &datagrams[5]);
    assert_eq!(receiver.sink().handled(), 3);
    assert_eq!(receiver.sink().count(), 6);
    // Cycles 0..2 were lost and the receiver still waits at the gap.
    assert_eq!(receiver.cycle(), 0);

    // Each following datagram adds exactly its one new message.
    receiver.handle_datagram(0, &datagrams[6]);
    assert_eq!(receiver.sink().handled(), 4);
    assert_eq!(receiver.sink().count(), 7);

    receiver.handle_datagram(0, &datagrams[7]);
    assert_eq!(receiver.sink().handled(), 5);
    assert_eq!(receiver.sink().count(), 8);
    assert_eq!(receiver.cycle(), 0);
}
