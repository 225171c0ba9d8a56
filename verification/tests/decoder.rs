use arp::decoder::{pcm_payload, OpusAttempt, PcmDec, PcmLevel};
use arp::jitter::FrameDecoder;

fn level(raw: i16, halvings: u32) -> PcmLevel {
    PcmLevel { raw, halvings }
}

#[test]
fn pcm_samples_are_little_endian() {
    assert_eq!(pcm_payload(&[0x0102, -2]), vec![0x02, 0x01, 0xFE, 0xFF]);
    let mut dec = PcmDec::new();
    let mut out = [PcmLevel::default(); 4];
    dec.decode(&[0x02, 0x01, 0xFE, 0xFF, 0x00, 0x80], &mut out);
    assert_eq!(out, [level(0x0102, 0), level(-2, 0), level(-32768, 0), level(0, 0)]);
}

#[test]
fn pcm_payload_roundtrip() {
    let samples = [0i16, 1, -1, 255, 256, -256, i16::MAX, i16::MIN];
    let mut dec = PcmDec::new();
    let mut out = [PcmLevel::default(); 8];
    dec.decode(&pcm_payload(&samples), &mut out);
    for i in 0..8 {
        assert_eq!(out[i], level(samples[i], 0));
    }
}

#[test]
fn pcm_extra_bytes_are_ignored() {
    let mut dec = PcmDec::new();
    let mut out = [PcmLevel::default(); 2];
    dec.decode(&[1, 0, 2, 0, 3, 0], &mut out);
    assert_eq!(out, [level(1, 0), level(2, 0)]);
    dec.decode(&[5, 0, 9], &mut out);
    assert_eq!(out, [level(5, 0), level(0, 0)]);
}

#[test]
fn pcm_concealment_fades() {
    let mut dec = PcmDec::default();
    let mut out = [level(9, 9); 2];
    dec.conceal(&mut out);
    assert_eq!(out, [PcmLevel::default(); 2]);
    dec.decode(&[100, 0, 200, 0], &mut out);
    dec.conceal(&mut out);
    assert_eq!(out, [level(100, 1), level(200, 1)]);
    dec.decode_fec(&[7, 7, 7, 7], &mut out);
    assert_eq!(out, [level(100, 2), level(200, 2)]);
    let mut longer = [level(9, 9); 3];
    dec.conceal(&mut longer);
    assert_eq!(longer, [PcmLevel::default(); 3]);
}

#[test]
fn opus_failures_end_in_silence() {
    assert_eq!(OpusAttempt::Payload.after_error(), OpusAttempt::Silence);
    assert_eq!(OpusAttempt::Redundancy.after_error(), OpusAttempt::Lost);
    assert_eq!(OpusAttempt::Lost.after_error(), OpusAttempt::Silence);
}
