use arp::jitter::{FrameDecoder, JitterBuffer, JitterConfig, PullInfo, State};

/// Decodes to the first byte of the payload, rebuilds to the first byte of the next payload less
/// 0.75, conceals with -1: the samples tell which way was taken.
struct Mock;

impl FrameDecoder<f32> for Mock {
    fn decode(&mut self, payload: &[u8], out: &mut [f32]) {
        out.fill(payload[0] as f32);
    }

    fn decode_fec(&mut self, next_payload: &[u8], out: &mut [f32]) {
        out.fill(next_payload[0] as f32 - 1.0 + 0.25);
    }

    fn conceal(&mut self, out: &mut [f32]) {
        out.fill(-1.0);
    }
}

const F: usize = 960;

/// 80 ms are four frames.
fn cfg() -> JitterConfig {
    JitterConfig { start_target_ms: 80, ..Default::default() }
}

fn pkt(k: u32) -> Vec<u8> {
    vec![k as u8; 4]
}

/// Pulls one frame and returns its first sample.
fn pull_frame(jb: &mut JitterBuffer<f32>, dec: &mut Mock) -> f32 {
    let mut buf = vec![9.9f32; F];
    jb.pull(&mut buf, dec);
    buf[0]
}

#[test]
fn in_order_playback() {
    let mut jb = JitterBuffer::new(cfg());
    let mut dec = Mock;
    for k in 0..8u32 {
        jb.push(k, pkt(k));
    }
    for k in 0..8u32 {
        assert_eq!(pull_frame(&mut jb, &mut dec), k as f32, "çerçeve {k}");
    }
    assert_eq!(jb.stats.plc_frames, 0);
    assert_eq!(jb.stats.fec_recovered, 0);
    assert_eq!(jb.stats.underruns, 0);
}

#[test]
fn buffering_until_target() {
    let mut jb = JitterBuffer::new(cfg());
    let mut dec = Mock;
    jb.push(0, pkt(10));
    assert_eq!(pull_frame(&mut jb, &mut dec), 0.0);
    assert_eq!(jb.state(), State::Buffering);
    for k in 1..4u32 {
        jb.push(k, pkt(k + 10));
    }
    assert_eq!(pull_frame(&mut jb, &mut dec), 10.0);
    assert_eq!(jb.state(), State::Playing);
    assert_eq!(pull_frame(&mut jb, &mut dec), 11.0);
}

#[test]
fn single_loss_recovered_via_fec() {
    let mut jb = JitterBuffer::new(cfg());
    let mut dec = Mock;
    for k in 0..10u32 {
        if k != 5 {
            jb.push(k, pkt(k));
        }
    }
    let mut got = Vec::new();
    for _ in 0..9 {
        got.push(pull_frame(&mut jb, &mut dec));
    }
    assert_eq!(got[5], 5.25);
    assert_eq!(jb.stats.fec_recovered, 1);
    assert_eq!(jb.stats.plc_frames, 0);
}

#[test]
fn dry_buffer_plc_then_late_drop() {
    let mut jb = JitterBuffer::new(cfg());
    let mut dec = Mock;
    for k in 0..5u32 {
        jb.push(k, pkt(k));
    }
    for k in 0..5 {
        assert_eq!(pull_frame(&mut jb, &mut dec), k as f32);
    }
    assert_eq!(pull_frame(&mut jb, &mut dec), -1.0);
    assert!(jb.stats.plc_frames >= 1);
    jb.push(5, pkt(5));
    assert_eq!(jb.stats.late, 1);
    for k in 6..10u32 {
        jb.push(k, pkt(k));
    }
    assert_eq!(pull_frame(&mut jb, &mut dec), 6.0);
}

#[test]
fn small_gap_concealed() {
    let mut jb = JitterBuffer::new(cfg());
    let mut dec = Mock;
    for k in 0..12u32 {
        if k != 4 && k != 5 {
            jb.push(k, pkt(k));
        }
    }
    let mut got = Vec::new();
    for _ in 0..10 {
        got.push(pull_frame(&mut jb, &mut dec));
    }
    assert_eq!(got[4], -1.0);
    assert_eq!(got[5], 5.25);
    assert_eq!(got[6], 6.0);
    assert_eq!(jb.stats.plc_frames, 1);
    assert_eq!(jb.stats.fec_recovered, 1);
    assert_eq!(jb.stats.resyncs, 0);
}

#[test]
fn big_gap_fast_forwards() {
    let mut jb = JitterBuffer::new(cfg());
    let mut dec = Mock;
    for k in 0..4u32 {
        jb.push(k, pkt(k));
    }
    for k in 8..14u32 {
        jb.push(k, pkt(k));
    }
    let mut got = Vec::new();
    for _ in 0..6 {
        got.push(pull_frame(&mut jb, &mut dec));
    }
    assert_eq!(&got[0..4], &[0.0, 1.0, 2.0, 3.0]);
    assert_eq!(got[4], 8.0, "ileri sarmalıydı");
    assert_eq!(jb.stats.resyncs, 1);
    assert_eq!(jb.stats.lost_skipped, 4);
}

#[test]
fn huge_span_jumps_to_live_edge() {
    let mut jb = JitterBuffer::new(cfg());
    let mut dec = Mock;
    for k in 0..4u32 {
        jb.push(k, pkt(k));
    }
    for k in 30..40u32 {
        jb.push(k, pkt(k));
    }
    assert!(jb.fill_ms() <= 400);
    let v = pull_frame(&mut jb, &mut dec);
    assert!(v >= 30.0 || v == -1.0 || v.fract() == 0.25, "canlı uca atlamalıydı, geldi: {v}");
    assert!(jb.stats.resyncs >= 1);
}

#[test]
fn underrun_rebuffers_and_raises_target() {
    let mut jb = JitterBuffer::new(cfg());
    let mut dec = Mock;
    let t0 = jb.target_ms();
    for k in 0..4u32 {
        jb.push(k, pkt(k));
    }
    for _ in 0..12 {
        pull_frame(&mut jb, &mut dec);
    }
    assert_eq!(jb.state(), State::Buffering);
    assert_eq!(jb.stats.underruns, 1);
    assert!(jb.target_ms() > t0, "hedef artmalıydı: {} → {}", t0, jb.target_ms());
    for k in 30..40u32 {
        jb.push(k, pkt(k));
    }
    let v = pull_frame(&mut jb, &mut dec);
    assert_eq!(v, 30.0);
    assert_eq!(jb.state(), State::Playing);
}

#[test]
fn target_decreases_after_clean_run() {
    let mut c = cfg();
    c.decrease_after_s = 1;
    let mut jb = JitterBuffer::new(c);
    let mut dec = Mock;
    let t0 = jb.target_ms();
    let mut next_push = 0u32;
    for _ in 0..8u32 {
        jb.push(next_push, pkt(next_push));
        next_push += 1;
    }
    for _ in 0..120 {
        jb.push(next_push, pkt(next_push));
        next_push += 1;
        pull_frame(&mut jb, &mut dec);
    }
    assert!(jb.target_ms() < t0, "hedef düşmeliydi: {} → {}", t0, jb.target_ms());
    assert_eq!(jb.stats.underruns, 0);
}

#[test]
fn hard_cap_limits_fill() {
    let mut jb: JitterBuffer<f32> = JitterBuffer::new(cfg());
    for k in 0..2000u32 {
        jb.push(k, pkt(k));
    }
    assert!(jb.fill_ms() <= 400, "doluluk {}ms > 400ms", jb.fill_ms());
    assert!(jb.stats.resyncs > 0);
}

#[test]
fn seq_wraparound_survives() {
    let mut jb = JitterBuffer::new(cfg());
    let mut dec = Mock;
    let start = u32::MAX - 3;
    for i in 0..8u32 {
        let seq = start.wrapping_add(i);
        jb.push(seq, pkt(i + 100));
    }
    for i in 0..8u32 {
        assert_eq!(pull_frame(&mut jb, &mut dec), (i + 100) as f32);
    }
    assert_eq!(jb.stats.resyncs, 0);
    assert_eq!(jb.stats.late, 0);
}

#[test]
fn default_settings() {
    let c = JitterConfig::default();
    assert_eq!(c.sample_rate, 48000);
    assert_eq!(c.frame_samples, 960);
    assert_eq!((c.start_target_ms, c.min_target_ms, c.max_target_ms), (60, 30, 300));
    assert_eq!((c.plc_limit_frames, c.small_gap_frames), (6, 3));
    assert_eq!((c.decrease_after_s, c.hard_cap_ms), (10, 400));
    let jb: JitterBuffer<f32> = JitterBuffer::new(c);
    assert_eq!(jb.target_ms(), 60);
    assert_eq!(jb.fill_samples(), 0);
    assert_eq!(jb.fill_ms(), 0);
    assert!(jb.has_room(480));
    assert_eq!(jb.stats().pushed, 0);
}

#[test]
fn reordered_packets_play_in_order() {
    let mut jb = JitterBuffer::new(cfg());
    let mut dec = Mock;
    for k in [0u32, 3, 1, 2, 5, 4, 7, 6] {
        jb.push(k, pkt(k));
    }
    for k in 0..8u32 {
        assert_eq!(pull_frame(&mut jb, &mut dec), k as f32);
    }
    assert_eq!(jb.stats.late, 0);
    assert_eq!(jb.stats.fec_recovered + jb.stats.plc_frames, 0);
}

#[test]
fn repeated_packet_counts_but_plays_once() {
    let mut jb = JitterBuffer::new(cfg());
    let mut dec = Mock;
    for k in [0u32, 1, 1, 2, 3] {
        jb.push(k, pkt(k));
    }
    assert_eq!(jb.stats.pushed, 5);
    assert_eq!(jb.fill_samples(), 4 * F);
    for k in 0..4u32 {
        assert_eq!(pull_frame(&mut jb, &mut dec), k as f32);
    }
    assert_eq!(pull_frame(&mut jb, &mut dec), -1.0);
}

#[test]
fn pull_reports_silence() {
    let mut jb = JitterBuffer::new(cfg());
    let mut dec = Mock;
    let mut buf = vec![9.9f32; 100];
    let info: PullInfo = jb.pull(&mut buf, &mut dec);
    assert_eq!(info.silence_samples, 100);
    assert!(buf.iter().all(|&s| s == 0.0));
    assert_eq!(jb.stats.silence_samples, 100);
    assert_eq!(jb.stats.pulled_samples, 100);
    for k in 0..4u32 {
        jb.push(k, pkt(k + 1));
    }
    let info: PullInfo = jb.pull(&mut buf, &mut dec);
    assert_eq!(info.silence_samples, 0);
    assert!(buf.iter().all(|&s| s == 1.0));
}

#[test]
fn concealment_ends_after_six_frames() {
    let mut jb = JitterBuffer::new(cfg());
    let mut dec = Mock;
    for k in 0..4u32 {
        jb.push(k, pkt(k));
    }
    for k in 0..4u32 {
        assert_eq!(pull_frame(&mut jb, &mut dec), k as f32);
    }
    for _ in 0..6 {
        assert_eq!(pull_frame(&mut jb, &mut dec), -1.0);
    }
    assert_eq!(jb.stats.plc_frames, 6);
    assert_eq!(jb.state(), State::Playing);
    assert_eq!(pull_frame(&mut jb, &mut dec), 0.0);
    assert_eq!(jb.state(), State::Buffering);
    assert_eq!(jb.target_ms(), 110);
}

#[test]
fn target_stays_within_bounds() {
    let mut jb = JitterBuffer::new(JitterConfig { start_target_ms: 290, ..Default::default() });
    let mut dec = Mock;
    for k in 0..15u32 {
        jb.push(k, pkt(k));
    }
    for _ in 0..22 {
        pull_frame(&mut jb, &mut dec);
    }
    assert_eq!(jb.stats.underruns, 1);
    assert_eq!(jb.target_ms(), 300);
    let low: JitterBuffer<f32> =
        JitterBuffer::new(JitterConfig { start_target_ms: 5, ..Default::default() });
    assert_eq!(low.target_ms(), 30);
    let high: JitterBuffer<f32> =
        JitterBuffer::new(JitterConfig { start_target_ms: 5000, ..Default::default() });
    assert_eq!(high.target_ms(), 300);
}

#[test]
fn far_jump_starts_afresh() {
    let mut jb = JitterBuffer::new(cfg());
    let mut dec = Mock;
    for k in 0..4u32 {
        jb.push(k, pkt(k));
    }
    for k in 100_000..100_004u32 {
        jb.push(k, pkt(k - 100_000 + 50));
    }
    assert!(jb.stats.resyncs >= 1);
    for k in 0..4u32 {
        assert_eq!(pull_frame(&mut jb, &mut dec), (k + 50) as f32);
    }
}

#[test]
fn late_copy_is_not_played_again() {
    let mut jb = JitterBuffer::new(cfg());
    let mut dec = Mock;
    for k in 0..6u32 {
        jb.push(k, pkt(k));
    }
    assert_eq!(pull_frame(&mut jb, &mut dec), 0.0);
    assert_eq!(pull_frame(&mut jb, &mut dec), 1.0);
    jb.push(1, pkt(99));
    assert_eq!(jb.stats.late, 1);
    for k in 2..6u32 {
        assert_eq!(pull_frame(&mut jb, &mut dec), k as f32);
    }
}

#[test]
fn delay_never_exceeds_the_cap() {
    let mut jb = JitterBuffer::new(cfg());
    let mut dec = Mock;
    let mut seq = 0u32;
    for round in 0..200u32 {
        for _ in 0..(round % 7) {
            jb.push(seq, pkt(seq));
            seq += 1 + round % 3;
            assert!(jb.fill_ms() <= 400);
        }
        let mut buf = vec![0f32; 700];
        jb.pull(&mut buf, &mut dec);
        assert!(jb.fill_ms() <= 400);
        assert!((30..=300).contains(&jb.target_ms()));
    }
}

#[test]
fn portions_of_a_pull_do_not_matter() {
    let filled = || {
        let mut jb = JitterBuffer::new(cfg());
        for k in [0u32, 1, 2, 4, 5, 8, 9] {
            jb.push(k, pkt(k + 1));
        }
        jb
    };
    let total = 20 * F;
    let mut once = filled();
    let mut whole = vec![9.9f32; total];
    let silence = once.pull(&mut whole, &mut Mock).silence_samples;
    assert!(silence > 0);
    for sizes in [vec![1usize, 0, 959, 961, 7], vec![480], vec![3000, 1], vec![20_000]] {
        let mut parts = filled();
        let mut out: Vec<f32> = Vec::new();
        let mut silent = 0;
        let mut i = 0;
        while out.len() < total {
            let n = sizes[i % sizes.len()].min(total - out.len());
            i += 1;
            let mut buf = vec![9.9f32; n];
            silent += parts.pull(&mut buf, &mut Mock).silence_samples;
            out.extend(buf);
        }
        assert_eq!(out, whole);
        assert_eq!(silent, silence);
        assert_eq!(parts.state(), once.state());
        assert_eq!(parts.fill_samples(), once.fill_samples());
        assert_eq!(parts.stats.plc_frames, once.stats.plc_frames);
        assert_eq!(parts.stats.fec_recovered, once.stats.fec_recovered);
    }
}

#[test]
fn late_packet_before_a_wrap_is_late() {
    let mut jb = JitterBuffer::new(cfg());
    let mut dec = Mock;
    for seq in [u32::MAX - 1, u32::MAX, 0, 1, 2] {
        jb.push(seq, pkt(seq.wrapping_add(10)));
    }
    for k in 8..11u32 {
        assert_eq!(pull_frame(&mut jb, &mut dec), k as f32);
    }
    jb.push(u32::MAX, pkt(99));
    assert_eq!(jb.stats.late, 1);
    jb.push(3, pkt(13));
    for k in 11..14u32 {
        assert_eq!(pull_frame(&mut jb, &mut dec), k as f32);
    }
    assert_eq!(jb.stats.resyncs, 0);
}
