use arp::soundpad::{
    choose_files, choose_lowered, is_sound_extension, read_on, DecodeEvent, Soundpad, MAX_SAMPLES, MAX_SOUNDS,
};

fn add(a: i32, b: i32) -> i32 {
    a + b
}

fn same(a: i32) -> i32 {
    a
}

fn pad(lengths: &[usize]) -> Soundpad<i32> {
    let mut p = Soundpad::empty();
    for (i, &n) in lengths.iter().enumerate() {
        assert!(p.add_sound(format!("ses-{i}"), vec![10i32.pow(i as u32); n]));
    }
    p
}

#[test]
fn soft_mix_of_a_resampled_sound() {
    let wave: Vec<f32> = (0..24000)
        .map(|i| (i as f32 * 2.0 * std::f32::consts::PI * 1000.0 / 48000.0).sin() * 12000.0 / 32768.0)
        .collect();
    let mut pad: Soundpad<f32> = Soundpad::empty();
    assert!(pad.add_sound("test-sesi".to_string(), wave));
    assert_eq!(pad.names(), vec!["test-sesi".to_string()]);
    let mix = |o: f32, d: f32| o + d * 0.9;
    let limit = |s: f32| {
        let x = s.clamp(-1.5, 1.5);
        x - x * x * x / 6.75
    };

    let mut out = vec![0f32; 960];
    pad.mix_into(&mut out, mix, limit);
    assert!(out.iter().all(|&s| s == 0.0), "çalınmadan ses karışmamalı");

    pad.play(0);
    assert!(pad.playing());
    let mut heard = 0f32;
    for _ in 0..30 {
        out.fill(0.0);
        pad.mix_into(&mut out, mix, limit);
        heard = heard.max(out.iter().fold(0f32, |m, &s| m.max(s.abs())));
    }
    assert!(heard > 0.1, "ses duyulmalıydı, tepe={heard}");

    pad.stop_all();
    assert!(!pad.playing());
}

#[test]
fn empty_and_overlong_sounds() {
    let mut p: Soundpad<u8> = Soundpad::empty();
    assert!(p.is_empty());
    assert!(!p.add_sound("boş".to_string(), Vec::new()));
    assert!(p.is_empty());
    assert!(p.add_sound("uzun".to_string(), vec![1; MAX_SAMPLES + 5]));
    assert!(!p.is_empty());
    p.play(0);
    let mut out = vec![0u8; MAX_SAMPLES + 5];
    p.mix_into(&mut out, |a, b| a + b, |a| a);
    assert_eq!(out.iter().filter(|&&s| s == 1).count(), MAX_SAMPLES);
    assert!(!p.playing());
}

#[test]
fn sounds_play_once_without_a_break() {
    let mut p: Soundpad<i32> = Soundpad::empty();
    assert!(p.add_sound("a".to_string(), (1..=10).collect()));
    p.play(0);
    let mut heard = Vec::new();
    for n in [3usize, 4, 3, 2] {
        let mut out = vec![0; n];
        p.mix_into(&mut out, add, same);
        heard.extend(out);
    }
    assert_eq!(heard, vec![1, 2, 3, 4, 5, 6, 7, 8, 9, 10, 0, 0]);
    assert!(!p.playing());
}

#[test]
fn voices_add_up_and_end_apart() {
    let mut p = pad(&[2, 4]);
    p.play(0);
    p.play(1);
    let mut out = vec![100; 3];
    p.mix_into(&mut out, add, same);
    assert_eq!(out, vec![111, 111, 110]);
    assert!(p.playing());
    let mut out = vec![0; 3];
    p.mix_into(&mut out, add, same);
    assert_eq!(out, vec![10, 0, 0]);
    assert!(!p.playing());
}

#[test]
fn fifth_voice_drops_the_oldest() {
    let mut p = pad(&[9, 9, 9, 9, 9]);
    for id in 0..5 {
        p.play(id);
    }
    let mut out = vec![0; 1];
    p.mix_into(&mut out, add, same);
    assert_eq!(out, vec![11110]);
}

#[test]
fn unknown_sound_is_ignored() {
    let mut p = pad(&[9]);
    p.play(1);
    assert!(!p.playing());
}

#[test]
fn limiter_runs_only_while_playing() {
    let mut p = pad(&[1]);
    let mut out = vec![50; 2];
    p.mix_into(&mut out, add, |a| a.min(20));
    assert_eq!(out, vec![50, 50]);
    p.play(0);
    p.mix_into(&mut out, add, |a| a.min(20));
    assert_eq!(out, vec![20, 20]);
}

#[test]
fn sound_files_are_chosen_by_extension() {
    assert!(is_sound_extension("flac"));
    assert!(!is_sound_extension("FLAC"));
    assert!(!is_sound_extension("txt"));
    let exts = vec![
        Some("MP3".to_string()),
        None,
        Some("txt".to_string()),
        Some("ogg".to_string()),
        Some("Wav".to_string()),
        Some("fLaC".to_string()),
    ];
    assert_eq!(choose_files(&exts), vec![0, 3, 4, 5]);
    assert_eq!(choose_lowered(&exts), vec![3]);
}

#[test]
fn at_most_thirty_two_files_are_chosen() {
    let mut exts = vec![None];
    for _ in 0..40 {
        exts.push(Some("mp3".to_string()));
    }
    let chosen = choose_files(&exts);
    assert_eq!(chosen.len(), MAX_SOUNDS);
    assert_eq!((chosen[0], chosen[31]), (1, 32));
}

#[test]
fn reading_a_file_goes_on_past_bad_packets() {
    assert!(!read_on(DecodeEvent::NoPacket));
    assert!(read_on(DecodeEvent::OtherTrack));
    assert!(read_on(DecodeEvent::Damaged));
    assert!(!read_on(DecodeEvent::Failed));
    assert!(read_on(DecodeEvent::Decoded { gathered: 5_760_000 }));
    assert!(!read_on(DecodeEvent::Decoded { gathered: 5_760_001 }));
}
