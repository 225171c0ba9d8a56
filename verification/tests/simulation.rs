use arp::engine::{Engine, Outcome, Supervision};
use arp::jitter::FrameDecoder;
use arp::protocol::{build_hello, parse, Codec};
use arp::rng::Rng;
use arp::sender::{request, Handshake, HandshakeStep, Sender};

/// Every frame is audible, also a rebuilt or a concealed one.
struct Audible;

impl FrameDecoder<f32> for Audible {
    fn decode(&mut self, _payload: &[u8], out: &mut [f32]) {
        out.fill(0.5);
    }

    fn decode_fec(&mut self, _next_payload: &[u8], out: &mut [f32]) {
        out.fill(0.4);
    }

    fn conceal(&mut self, out: &mut [f32]) {
        out.fill(0.3);
    }
}

const MS: u64 = 1_000_000;

fn unit(rng: &mut Rng) -> f64 {
    rng.next_unit53() as f64 / (1u64 << 53) as f64
}

/// Sends for 15 seconds and returns what was heard, in portions of 10 ms, and the engine.
fn run(loss: f64, jitter_ms: f64, drift_ppm: f64) -> (Vec<f32>, Engine<u8, f32, Audible>) {
    let mut rng = Rng::new(1);
    let session = rng.next_u32();
    let mut engine: Engine<u8, f32, Audible> = Engine::default();
    let mut hs = Handshake::new(session);
    let ack = match engine.handle(
        &parse(&build_hello(&request(session, Codec::Opus))).unwrap(),
        1,
        0,
        48222,
        "pc",
        &vec![],
    ) {
        Outcome::NewSession(h) => engine.open_session(&h, 1, Audible, 0, 60),
        _ => panic!("refused"),
    };
    assert_eq!(hs.answer(Some(&ack)), HandshakeStep::Connected);

    let interval = (20.0 * MS as f64 * (1.0 - drift_ppm * 1e-6)) as u64;
    let mut sender = Sender::new(session, 960, interval, 750);
    let mut heard = Vec::new();
    let mut now = 0u64;
    while !sender.finished() {
        while sender.frame_due(now) {
            if unit(&mut rng) * 100.0 < loss {
                sender.lose_frame();
            } else {
                let delay = (unit(&mut rng) * jitter_ms * MS as f64) as u64;
                sender.queue_frame(&[1, 2, 3], now, delay);
            }
        }
        while let Some(pkt) = sender.pop_due(now) {
            assert!(engine.has_room(0));
            let pkt = parse(&pkt).unwrap();
            assert!(matches!(
                engine.handle(&pkt, 1, now, 48222, "pc", &vec![]),
                Outcome::Stored
            ));
        }
        if now % (10 * MS) == 0 {
            let mut out = [0f32; 480];
            engine.pull(&mut out);
            heard.extend(out);
        }
        assert!(engine.supervise(now) != Supervision::TimedOut);
        now += 2 * MS;
    }
    assert_eq!(sender.sent() + sender.dropped(), 750);
    (heard, engine)
}

#[test]
fn no_interruption_on_a_bad_network() {
    let (heard, engine) = run(10.0, 80.0, 200.0);
    let tail = heard.len() - 300 * 48;
    let silent = heard[48000..tail].iter().filter(|&&s| s == 0.0).count();
    assert_eq!(silent, 0);
    let stats = engine.snapshot().unwrap().stats;
    assert!(stats.fec_recovered > 0);
}

#[test]
fn good_network_is_played_untouched() {
    let (heard, engine) = run(0.0, 0.0, 0.0);
    let start = heard.iter().position(|&s| s != 0.0).unwrap();
    assert!(start <= 60 * 48, "{start}");
    assert!(heard[start..].iter().all(|&s| s == 0.5));
    let stats = engine.snapshot().unwrap().stats;
    assert_eq!(stats.plc_frames + stats.fec_recovered + stats.late + stats.underruns, 0);
}
