use replay_logger::LogError;
use replay_logger::Logger;

fn drain_one(player: &mut Logger, cap: usize, elapsed: u64) -> (Option<usize>, Vec<u8>) {
    let mut buf = vec![0u8; cap];
    let r = player
        .read_replay(&mut buf, elapsed)
        .expect("unexpected capacity error");
    (r, buf)
}

#[test]
fn ordering_invariant() {
    let mut lg = Logger::new();
    lg.log(&[1], 5);
    lg.log(&[2], 0);
    lg.log(&[3], 3);
    let decoded = replay_logger::decode_log_file(&lg.save_logs()).unwrap();
    let times: Vec<u64> = decoded.logs.iter().map(|l| l.time).collect();
    assert_eq!(times, vec![5, 5, 8]);
    for w in times.windows(2) {
        assert!(w[0] <= w[1]);
    }
}

#[test]
fn round_trip_through_save_and_load() {
    let mut lg = Logger::new();
    lg.log(&[0x01, 0x02], 0);
    lg.log(&[], 7);
    lg.log(&[0xAA, 0xBB, 0xCC], 100);
    let bytes = lg.save_logs();

    let decoded = replay_logger::decode_log_file(&bytes).unwrap();
    assert_eq!(decoded.logs.len(), 3);
    assert_eq!(decoded.logs[0].item, vec![0x01, 0x02]);
    assert_eq!(decoded.logs[0].time, 0);
    assert_eq!(decoded.logs[1].item, Vec::<u8>::new());
    assert_eq!(decoded.logs[1].time, 7);
    assert_eq!(decoded.logs[2].item, vec![0xAA, 0xBB, 0xCC]);
    assert_eq!(decoded.logs[2].time, 107);

    // and loading the same bytes drives a player through the same entries
    let mut player = Logger::new();
    player.load_replay(&bytes).unwrap();
    let (r, buf) = drain_one(&mut player, 8, u64::MAX / 2);
    assert_eq!(r, Some(2));
    assert_eq!(&buf[..2], &[0x01, 0x02]);
    let (r, _) = drain_one(&mut player, 8, 0);
    assert_eq!(r, Some(0));
    let (r, buf) = drain_one(&mut player, 8, 0);
    assert_eq!(r, Some(3));
    assert_eq!(&buf[..3], &[0xAA, 0xBB, 0xCC]);
}

#[test]
fn byte_order_fidelity() {
    let payload = [0x01u8, 0xFF, 0x80, 0x00, 0x7F];
    let mut lg = Logger::new();
    lg.log(&payload, 1);
    let mut player = Logger::new();
    player.load_replay(&lg.save_logs()).unwrap();
    let (r, buf) = drain_one(&mut player, payload.len(), 1);
    assert_eq!(r, Some(payload.len()));
    assert_eq!(&buf[..], &payload[..]);
}

#[test]
fn single_entry_per_poll() {
    let mut lg = Logger::new();
    lg.log(&[10], 2);
    lg.log(&[20], 0);
    let mut player = Logger::new();
    player.load_replay(&lg.save_logs()).unwrap();
    // both entries are due at clock 5, yet one poll yields exactly one
    let (r, buf) = drain_one(&mut player, 4, 5);
    assert_eq!(r, Some(1));
    assert_eq!(buf[0], 10);
    let (r, buf) = drain_one(&mut player, 4, 0);
    assert_eq!(r, Some(1));
    assert_eq!(buf[0], 20);
}

#[test]
fn exhaustion() {
    let mut lg = Logger::new();
    lg.log(&[42], 0);
    let mut player = Logger::new();
    let bytes = lg.save_logs();
    player.load_replay(&bytes).unwrap();
    let (r, _) = drain_one(&mut player, 1, 1);
    assert_eq!(r, Some(1));
    for _ in 0..5 {
        let (r, _) = drain_one(&mut player, 1, 1000);
        assert_eq!(r, None);
    }
    // a fresh load starts the single pass over again
    player.load_replay(&bytes).unwrap();
    let (r, _) = drain_one(&mut player, 1, 1);
    assert_eq!(r, Some(1));
}

#[test]
fn capacity_rejection() {
    let mut lg = Logger::new();
    lg.log(&[1, 2, 3], 0);
    let mut player = Logger::new();
    player.load_replay(&lg.save_logs()).unwrap();
    let mut small = vec![9u8, 9];
    let r = player.read_replay(&mut small, 1);
    assert_eq!(r, Err(LogError::Capacity));
    // nothing was written into the buffer
    assert_eq!(small, vec![9, 9]);
    // the entry was not consumed: a big enough buffer still receives it
    let (r, buf) = drain_one(&mut player, 3, 0);
    assert_eq!(r, Some(3));
    assert_eq!(&buf[..], &[1, 2, 3]);
}

#[test]
fn not_yet_due_leaves_cursor_in_place() {
    let mut lg = Logger::new();
    lg.log(&[5], 100);
    let mut player = Logger::new();
    player.load_replay(&lg.save_logs()).unwrap();
    let (r, _) = drain_one(&mut player, 1, 99);
    assert_eq!(r, None);
    let (r, buf) = drain_one(&mut player, 1, 1);
    assert_eq!(r, Some(1));
    assert_eq!(buf[0], 5);
}

#[test]
fn load_rejects_malformed_bytes() {
    let mut player = Logger::new();
    assert_eq!(player.load_replay(&vec![1, 2, 3]), Err(LogError::Malformed));
    // a failed load leaves the player able to load good bytes afterwards
    let mut lg = Logger::new();
    lg.log(&[8], 0);
    player.load_replay(&lg.save_logs()).unwrap();
    let (r, buf) = drain_one(&mut player, 1, 0);
    assert_eq!(r, Some(1));
    assert_eq!(buf[0], 8);
}

#[test]
fn recorded_scenario_replays_at_cadence() {
    // a controllable clock: one millisecond of measured overhead before the
    // first item, then forty-nine more milliseconds before the second
    const MS: u64 = 1_000_000;
    let mut lg = Logger::new();
    lg.log(&[0x01, 0x02], MS);
    lg.log(&[0x03], 49 * MS);
    let bytes = lg.save_logs();

    let mut player = Logger::new();
    player.load_replay(&bytes).unwrap();

    // at t = 0ms nothing is available yet
    let (r, _) = drain_one(&mut player, 2, 0);
    assert_eq!(r, None);

    // at t = 60ms both entries are due: two successive reads return them
    // in order, and a third returns nothing
    let (r, buf) = drain_one(&mut player, 2, 60 * MS);
    assert_eq!(r, Some(2));
    assert_eq!(&buf[..], &[0x01, 0x02]);
    let (r, buf) = drain_one(&mut player, 2, 0);
    assert_eq!(r, Some(1));
    assert_eq!(buf[0], 0x03);
    let (r, _) = drain_one(&mut player, 2, 0);
    assert_eq!(r, None);
}
