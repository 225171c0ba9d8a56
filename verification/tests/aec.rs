use arp::aec::{EchoBlock, EchoFramer, RefRing, FRAME, RING_CAP, TAIL};

fn filled(n: usize) -> RefRing {
    let mut r = RefRing::new();
    for i in 0..n {
        assert!(r.offer((i % 1000) as i16));
    }
    r
}

#[test]
fn ring_is_bounded() {
    assert_eq!((FRAME, TAIL, RING_CAP), (480, 480 * 24, 48000));
    let mut r = filled(RING_CAP);
    assert!(!r.offer(1));
    assert_eq!(r.len(), RING_CAP);
}

#[test]
fn blocks_keep_the_order_of_the_microphone() {
    let mut f: EchoFramer<f32> = EchoFramer::new();
    let mut ring = RefRing::new();
    let mic: Vec<i16> = (0..1000).collect();
    f.push_mic(&mic[..479]);
    assert!(f.next_block(&mut ring).is_none());
    f.push_mic(&mic[479..]);
    assert_eq!(f.next_block(&mut ring).unwrap().mic, mic[..480].to_vec());
    assert_eq!(f.next_block(&mut ring).unwrap().mic, mic[480..960].to_vec());
    assert!(f.next_block(&mut ring).is_none());
}

#[test]
fn reference_waits_for_thirty_milliseconds() {
    let mut f: EchoFramer<f32> = EchoFramer::new();
    f.push_mic(&[1; 480 * 5]);
    let mut ring = filled(1439);
    assert_eq!(f.next_block(&mut ring).unwrap().echo, vec![0; 480]);
    assert_eq!(ring.len(), 1439);
    assert!(ring.offer(439));
    let b = f.next_block(&mut ring).unwrap();
    assert_eq!((b.echo.len(), b.echo[0], b.echo[479]), (480, 0, 479));
    let b = f.next_block(&mut ring).unwrap();
    assert_eq!((b.echo[0], b.echo[479]), (480, 959));
    assert_eq!(f.next_block(&mut ring).unwrap().echo[0], 960);
    assert_eq!(ring.len(), 0);
    assert_eq!(f.next_block(&mut ring).unwrap().echo, vec![0; 480]);
}

#[test]
fn full_ring_catches_up() {
    let mut f: EchoFramer<f32> = EchoFramer::new();
    f.push_mic(&[1; 960]);
    let mut ring = filled(48000);
    assert_eq!(f.next_block(&mut ring).unwrap().echo[0], 0);
    assert_eq!(ring.len(), 24000);
    assert_eq!(f.next_block(&mut ring).unwrap().echo[1], 1);
    assert_eq!(ring.len(), 24000 - 480);
}

#[test]
fn delay_stays_below_a_block() {
    let mut f: EchoFramer<i16> = EchoFramer::new();
    let mut ring = RefRing::new();
    let mut next = 1i16;
    let mut heard: Vec<i16> = Vec::new();
    for n in [100usize, 480, 7, 960, 333, 480, 1, 700] {
        let mic: Vec<i16> = (0..n).map(|i| next + i as i16).collect();
        next += n as i16;
        let mut out = vec![-1i16; n];
        f.process(&mut ring, &mic, &mut out, |b: EchoBlock| {
            assert_eq!((b.mic.len(), b.echo.len()), (FRAME, FRAME));
            b.mic
        });
        heard.extend(out);
    }
    let silent = heard.iter().filter(|&&s| s == 0).count();
    assert!(silent < FRAME, "{silent}");
    let sound: Vec<i16> = heard.into_iter().filter(|&s| s != 0).collect();
    for (i, &s) in sound.iter().enumerate() {
        assert_eq!(s, i as i16 + 1);
    }
}

#[test]
fn less_than_a_block_is_silence() {
    let mut f: EchoFramer<i16> = EchoFramer::new();
    let mut ring = RefRing::new();
    for n in [100usize, 200, 179] {
        let mut out = vec![-1i16; n];
        f.process(&mut ring, &vec![5; n], &mut out, |b: EchoBlock| b.mic);
        assert_eq!(out, vec![0; n]);
    }
    let mut out = vec![-1i16; 1];
    f.process(&mut ring, &[6], &mut out, |b: EchoBlock| b.mic);
    assert_eq!(out, vec![5]);
}

#[test]
fn canceller_gets_the_reference_of_each_block() {
    let mut f: EchoFramer<i16> = EchoFramer::new();
    let mut ring = filled(1440);
    let mut out = vec![-1i16; 960];
    f.process(&mut ring, &[7; 960], &mut out, |b: EchoBlock| b.echo);
    let expected: Vec<i16> = (0..960).collect();
    assert_eq!(out, expected);
    assert_eq!(ring.len(), 480);
}

#[test]
fn calls_one_by_one_make_a_round() {
    let mut whole: EchoFramer<i16> = EchoFramer::new();
    let mut parts: EchoFramer<i16> = EchoFramer::new();
    let mut ring1 = filled(2000);
    let mut ring2 = filled(2000);
    for n in [300usize, 500, 1000] {
        let mic: Vec<i16> = (0..n as i16).collect();
        let mut out1 = vec![-1i16; n];
        let mut out2 = vec![-1i16; n];
        whole.process(&mut ring1, &mic, &mut out1, |b: EchoBlock| b.echo);
        parts.push_mic(&mic);
        while let Some(b) = parts.next_block(&mut ring2) {
            parts.push_clean(&b.echo);
        }
        parts.take_clean(&mut out2);
        assert_eq!(out1, out2);
        assert_eq!(ring1.len(), ring2.len());
    }
}
