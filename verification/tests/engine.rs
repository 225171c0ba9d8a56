use arp::decoder::{pcm_payload, PcmDec, PcmLevel};
use arp::engine::{servo_speed, Engine, Outcome, PullStart, Supervision};
use arp::protocol::{
    build_audio, build_bye, build_discover, build_heartbeat, build_hello, build_hello_ack,
    build_sound_list_req, build_sound_play, build_sound_stop, parse, Codec, Hello, Packet,
};

type E = Engine<u16, PcmLevel, PcmDec>;

const SECOND: u64 = 1_000_000_000;

fn hello(session: u32) -> Hello {
    Hello { session, sample_rate: 48000, channels: 1, codec: Codec::Pcm16, frame_ms: 10 }
}

fn handle(e: &mut E, bytes: &[u8], src: u16, now: u64) -> Outcome {
    let pkt = parse(bytes).unwrap();
    e.handle(&pkt, src, now, 48222, "pc", &vec!["zil".to_string()])
}

fn opened(session: u32) -> E {
    let mut e = E::default();
    let ack = e.open_session(&hello(session), 1, PcmDec::new(), 0, 30);
    assert_eq!(ack, build_hello_ack(session));
    e
}

fn audio(session: u32, seq: u32, value: i16) -> Vec<u8> {
    build_audio(session, seq, seq.wrapping_mul(480), &pcm_payload(&[value; 480]))
}

#[test]
fn search_is_announced() {
    let mut e = E::default();
    match handle(&mut e, &build_discover(77), 1, 0) {
        Outcome::Announce(b) => match parse(&b) {
            Some(Packet::DiscoverReply { nonce: 77, port: 48222, name }) => assert_eq!(name, "pc"),
            other => panic!("{other:?}"),
        },
        _ => panic!("not announced"),
    }
    assert!(e.session.is_none());
}

#[test]
fn hello_opens_then_only_acknowledges() {
    let mut e = E::default();
    assert!(matches!(
        handle(&mut e, &build_hello(&hello(5)), 1, 0),
        Outcome::NewSession(h) if h == hello(5)
    ));
    let _ = e.open_session(&hello(5), 1, PcmDec::new(), 0, 60);
    handle(&mut e, &audio(5, 0, 1), 1, 0);
    match handle(&mut e, &build_hello(&hello(5)), 2, 1) {
        Outcome::Reply(b) => assert_eq!(b, build_hello_ack(5)),
        _ => panic!("not acknowledged"),
    }
    let s = e.session.as_ref().unwrap();
    assert_eq!(s.jb.stats.pushed, 1);
    assert_eq!(s.epoch, 1);
    assert_eq!(s.peer, 1);
}

#[test]
fn unsupported_formats_are_refused() {
    let mut e = E::default();
    let bad = Hello { sample_rate: 44100, ..hello(5) };
    assert!(matches!(
        handle(&mut e, &build_hello(&bad), 1, 0),
        Outcome::Unsupported { sample_rate: 44100, channels: 1 }
    ));
    let bad = Hello { channels: 2, ..hello(5) };
    assert!(matches!(
        handle(&mut e, &build_hello(&bad), 1, 0),
        Outcome::Unsupported { sample_rate: 48000, channels: 2 }
    ));
}

#[test]
fn new_client_takes_over() {
    let mut e = opened(5);
    handle(&mut e, &audio(5, 0, 1), 1, 0);
    assert!(matches!(handle(&mut e, &build_hello(&hello(6)), 2, 1), Outcome::NewSession(_)));
    let _ = e.open_session(&hello(6), 2, PcmDec::new(), 1, 60);
    let s = e.session.as_ref().unwrap();
    assert_eq!((s.id, s.peer, s.epoch), (6, 2, 2));
    assert_eq!(s.jb.stats.pushed, 0);
    assert!(matches!(handle(&mut e, &audio(5, 1, 1), 1, 2), Outcome::Ignored));
}

#[test]
fn audio_is_stored_and_moves_the_peer() {
    let mut e = opened(5);
    assert!(matches!(handle(&mut e, &audio(5, 0, 1), 9, 3), Outcome::Stored));
    assert!(matches!(handle(&mut e, &audio(4, 0, 1), 8, 4), Outcome::Ignored));
    let s = e.session.as_ref().unwrap();
    assert_eq!((s.peer, s.last_packet, s.jb.stats.pushed), (9, 3, 1));
}

#[test]
fn heartbeat_of_known_session_only() {
    let mut e = opened(5);
    match handle(&mut e, &build_heartbeat(5, 1234), 1, 7) {
        Outcome::Reply(b) => {
            assert!(matches!(parse(&b), Some(Packet::HeartbeatAck { session: 5, time_ms: 1234 })))
        }
        _ => panic!("not answered"),
    }
    assert_eq!(e.session.as_ref().unwrap().last_packet, 7);
    assert!(matches!(handle(&mut e, &build_heartbeat(6, 1), 1, 8), Outcome::Ignored));
    assert_eq!(e.session.as_ref().unwrap().last_packet, 7);
}

#[test]
fn farewell_closes_own_session_only() {
    let mut e = opened(5);
    assert!(matches!(handle(&mut e, &build_bye(6), 1, 0), Outcome::Ignored));
    assert!(e.knows(5));
    assert!(matches!(handle(&mut e, &build_bye(5), 1, 0), Outcome::Left));
    assert!(e.session.is_none());
}

#[test]
fn sounds_of_known_session_only() {
    let mut e = opened(5);
    match handle(&mut e, &build_sound_list_req(5), 1, 1) {
        Outcome::Reply(b) => match parse(&b) {
            Some(Packet::SoundList { sounds }) => {
                assert_eq!(sounds.len(), 1);
                assert_eq!(sounds[0].name, "zil");
            }
            other => panic!("{other:?}"),
        },
        _ => panic!("not answered"),
    }
    assert!(matches!(handle(&mut e, &build_sound_play(5, 3), 1, 2), Outcome::PlaySound(3)));
    assert!(matches!(handle(&mut e, &build_sound_stop(5), 1, 3), Outcome::StopSounds));
    assert_eq!(e.session.as_ref().unwrap().last_packet, 3);
    assert!(matches!(handle(&mut e, &build_sound_list_req(6), 1, 4), Outcome::Ignored));
    assert!(matches!(handle(&mut e, &build_sound_play(6, 3), 1, 4), Outcome::Ignored));
    assert!(matches!(handle(&mut e, &build_sound_stop(6), 1, 4), Outcome::Ignored));
}

#[test]
fn replies_of_receivers_are_ignored() {
    let mut e = opened(5);
    assert!(matches!(handle(&mut e, &build_hello_ack(5), 1, 1), Outcome::Ignored));
    assert_eq!(e.session.as_ref().unwrap().last_packet, 0);
}

#[test]
fn silent_session_is_closed_after_five_seconds() {
    let mut e = opened(5);
    assert_eq!(e.supervise(5 * SECOND), Supervision::Buffering);
    handle(&mut e, &build_heartbeat(5, 0), 1, SECOND);
    assert_eq!(e.supervise(6 * SECOND), Supervision::Buffering);
    assert_eq!(e.supervise(6 * SECOND + 1), Supervision::TimedOut);
    assert!(e.session.is_none());
    assert_eq!(e.supervise(7 * SECOND), Supervision::Idle);
    assert!(matches!(handle(&mut e, &build_heartbeat(5, 0), 1, 7 * SECOND), Outcome::Ignored));
    assert!(matches!(handle(&mut e, &build_hello(&hello(5)), 1, 7 * SECOND), Outcome::NewSession(_)));
}

#[test]
fn servo_follows_the_buffer() {
    assert_eq!(servo_speed(60, 60), 0);
    assert_eq!(servo_speed(65, 60), 500);
    assert_eq!(servo_speed(50, 60), -1000);
    assert_eq!(servo_speed(400, 60), 3000);
    assert_eq!(servo_speed(0, 300), -3000);
    let mut e = opened(5);
    for k in 0..8 {
        handle(&mut e, &audio(5, k, 1), 1, 0);
    }
    let mut out = [PcmLevel::default(); 480];
    assert_eq!(e.pull(&mut out).unwrap().silence_samples, 0);
    assert_eq!(e.supervise(1), Supervision::Playing { servo_ppm: 3000 });
}

#[test]
fn snapshot_shows_the_session() {
    let mut e = E::default();
    assert!(e.snapshot().is_none());
    e = opened(5);
    handle(&mut e, &audio(5, 0, 1), 3, 0);
    handle(&mut e, &audio(5, 1, 1), 3, 0);
    let s = e.snapshot().unwrap();
    assert_eq!((s.peer, s.playing, s.fill_ms, s.target_ms, s.stats.pushed), (3, false, 20, 30, 2));
    handle(&mut e, &audio(5, 2, 1), 3, 0);
    let mut out = [PcmLevel::default(); 480];
    let _ = e.pull(&mut out);
    let s = e.snapshot().unwrap();
    assert_eq!((s.playing, s.fill_ms), (true, 20));
}

#[test]
fn consumers_notice_new_sessions() {
    let mut seen = 0u64;
    let mut e = E::default();
    assert_eq!(e.begin_pull(&mut seen), PullStart::NoSession);
    let _ = e.open_session(&hello(5), 1, PcmDec::new(), 0, 30);
    assert_eq!(e.begin_pull(&mut seen), PullStart::Restarted);
    assert_eq!(seen, 1);
    assert_eq!(e.begin_pull(&mut seen), PullStart::Continuing);
    let _ = e.open_session(&hello(6), 1, PcmDec::new(), 0, 30);
    assert_eq!(e.begin_pull(&mut seen), PullStart::Restarted);
    assert_eq!(seen, 2);
}

#[test]
fn pulled_samples_are_those_of_the_client() {
    let mut e = opened(5);
    let mut out = [PcmLevel { raw: 7, halvings: 0 }; 4];
    let mut idle = E::default();
    assert!(idle.pull(&mut out).is_none());
    assert_eq!(out[0].raw, 7);
    for k in 0..3 {
        handle(&mut e, &audio(5, k, 100 + k as i16), 1, 0);
    }
    let mut out = [PcmLevel::default(); 480 * 3];
    assert_eq!(e.pull(&mut out).unwrap().silence_samples, 0);
    assert_eq!((out[0].raw, out[480].raw, out[1439].raw), (100, 101, 102));
    assert!(e.has_room(480));
}
