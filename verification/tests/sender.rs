use arp::protocol::{build_bye, build_heartbeat_ack, build_hello_ack, parse, Codec, Packet};
use arp::rng::Rng;
use arp::sender::{
    codec_by_name, heartbeat_ack_time, request, Handshake, HandshakeStep, SendQueue, Sender,
    BYE_COUNT, HELLO_ATTEMPTS, HELLO_TIMEOUT_MS,
};

#[test]
fn random_numbers_are_repeatable() {
    let mut a = Rng::new(1);
    assert_eq!(a.next_u64(), 5180492295206395165);
    let mut b = Rng::new(0);
    let mut c = Rng::new(1);
    for _ in 0..10 {
        assert_eq!(b.next_u64(), c.next_u64());
    }
    let mut d = Rng::new(7);
    let mut e = Rng::new(7);
    let mut f = Rng::new(7);
    for _ in 0..10 {
        let x = d.next_u64();
        assert_eq!(e.next_unit53(), x >> 11);
        assert_eq!(f.next_u32() as u64, x >> 32);
    }
}

#[test]
fn codecs_by_name() {
    assert_eq!(codec_by_name("opus"), Some(Codec::Opus));
    assert_eq!(codec_by_name("pcm"), Some(Codec::Pcm16));
    assert_eq!(codec_by_name("Opus"), None);
    assert_eq!(codec_by_name(""), None);
    assert_eq!(request(3, Codec::Opus).frame_ms, 20);
    assert_eq!(request(3, Codec::Pcm16).frame_ms, 10);
    let h = request(3, Codec::Pcm16);
    assert_eq!((h.session, h.sample_rate, h.channels, h.codec), (3, 48000, 1, Codec::Pcm16));
}

#[test]
fn handshake_gives_up_after_ten_attempts() {
    assert_eq!((HELLO_ATTEMPTS, HELLO_TIMEOUT_MS, BYE_COUNT), (10, 300, 3));
    let mut h = Handshake::new(5);
    for _ in 0..3 {
        assert_eq!(h.answer(None), HandshakeStep::AskAgain);
        assert_eq!(h.answer(Some(&build_hello_ack(6))), HandshakeStep::AskAgain);
        assert_eq!(h.answer(Some(&build_bye(5))), HandshakeStep::AskAgain);
    }
    let mut late = h;
    assert_eq!(h.answer(None), HandshakeStep::GiveUp);
    assert_eq!(late.answer(Some(&build_hello_ack(5))), HandshakeStep::Connected);
}

#[test]
fn heartbeat_acknowledgements() {
    assert_eq!(heartbeat_ack_time(&build_heartbeat_ack(5, 77), 5), Some(77));
    assert_eq!(heartbeat_ack_time(&build_heartbeat_ack(6, 77), 5), None);
    assert_eq!(heartbeat_ack_time(&build_bye(5), 5), None);
    assert_eq!(heartbeat_ack_time(b"xx", 5), None);
}

#[test]
fn queue_sends_by_time_then_in_order() {
    let mut q = SendQueue::new();
    assert!(q.is_empty());
    for (when, name) in [(30u64, "c"), (10, "a"), (30, "d"), (20, "b")] {
        q.push(when, name.as_bytes().to_vec());
    }
    assert_eq!(q.len(), 4);
    assert_eq!(q.pop_due(9), None);
    assert_eq!(q.pop_due(25), Some(b"a".to_vec()));
    assert_eq!(q.pop_due(25), Some(b"b".to_vec()));
    assert_eq!(q.pop_due(25), None);
    assert_eq!(q.pop_due(30), Some(b"c".to_vec()));
    assert_eq!(q.pop_due(30), Some(b"d".to_vec()));
    assert_eq!(q.pop_due(u64::MAX), None);
}

#[test]
fn frames_come_when_they_are_due() {
    let mut s = Sender::new(5, 960, 20, 3);
    assert!(s.frame_due(0));
    s.queue_frame(&[1, 2], 0, 50);
    assert!(!s.frame_due(19));
    assert!(s.frame_due(20));
    s.lose_frame();
    assert!(s.frame_due(40));
    s.queue_frame(&[3], 40, 0);
    assert!(!s.frame_due(1000));
    assert!(!s.finished());
    match parse(&s.pop_due(40).unwrap()) {
        Some(Packet::Audio { session: 5, seq: 2, timestamp: 1920, payload }) => {
            assert_eq!(payload, &[3])
        }
        other => panic!("{other:?}"),
    }
    assert!(s.pop_due(49).is_none());
    match parse(&s.pop_due(50).unwrap()) {
        Some(Packet::Audio { session: 5, seq: 0, timestamp: 0, payload }) => {
            assert_eq!(payload, &[1, 2])
        }
        other => panic!("{other:?}"),
    }
    assert!(s.finished());
    assert_eq!((s.sent(), s.dropped()), (2, 1));
}

#[test]
fn heartbeats_every_half_second() {
    let mut s = Sender::new(5, 960, 20, 3);
    assert!(s.heartbeat(499_999_999).is_none());
    assert!(matches!(
        parse(&s.heartbeat(500_000_000).unwrap()),
        Some(Packet::Heartbeat { session: 5, time_ms: 500 })
    ));
    assert!(s.heartbeat(999_999_999).is_none());
    assert!(matches!(
        parse(&s.heartbeat(1_234_567_890).unwrap()),
        Some(Packet::Heartbeat { session: 5, time_ms: 1234 })
    ));
}
