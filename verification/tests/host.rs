use arp::host::{
    choose_rate, default_name, first_holding, first_name, lists_device, lower_all, next_mic_step,
    pick_device,
    MicAction, MicEvent, RateRange, VIRTUAL_SINK, VIRTUAL_SOURCE,
};
use arp::text::{characters, contains_text, decode_text, is_whitespace, same_text, trim_text};

fn named(names: &[&str]) -> Vec<Option<String>> {
    names.iter().map(|n| Some(n.to_string())).collect()
}

#[test]
fn host_names() {
    assert_eq!(default_name(Some("masaüstü\n"), Some("env".to_string())), "masaüstü");
    assert_eq!(default_name(Some(" \t\n"), Some("env".to_string())), "env");
    assert_eq!(default_name(None, Some("env".to_string())), "env");
    assert_eq!(default_name(Some(""), None), "PC");
    assert_eq!(default_name(None, None), "PC");
    assert_eq!(first_name(Some("a".to_string()), Some("b".to_string())), "a");
    assert_eq!(first_name(Some(String::new()), Some("b".to_string())), "b");
}

#[test]
fn devices_match_without_case() {
    let names = named(&["Speakers", "CABLE Input", "cable output"]);
    assert_eq!(pick_device(&names, "cable"), Some(1));
    assert_eq!(pick_device(&names, "CABLE OUT"), Some(2));
    assert_eq!(pick_device(&names, "pulse"), None);
    assert_eq!(pick_device(&names, ""), Some(0));
    let names = vec![None, Some("ÇIKIŞ".to_string())];
    assert_eq!(pick_device(&names, "çı"), None);
    assert_eq!(pick_device(&names, "Çik"), Some(1));
    assert_eq!(lower_all(&vec![Some("AbÇ".to_string()), None]), vec![Some("abç".to_string()), None]);
    assert_eq!(first_holding(&named(&["Pulse", "pulse"]), "pulse"), Some(1));
}

#[test]
fn rates_fit_the_stream() {
    let r = |min, max, default_format| RateRange { min, max, default_format };
    let ranges = vec![r(8000, 44100, true), r(8000, 96000, false), r(48000, 48000, true), r(1, 99999, true)];
    assert_eq!(choose_rate(44100, &ranges), Some(2));
    assert_eq!(choose_rate(48000, &ranges), None);
    assert_eq!(choose_rate(44100, &ranges[..2].to_vec()), None);
}

#[test]
fn listings_are_read_by_their_second_word() {
    let listing = "0\talsa_output\tmodule-alsa\r\n 12  arp_sink\tmodule-null-sink\n\n13 x arp_mic\n";
    assert!(lists_device(listing, "arp_sink"));
    assert!(lists_device(listing, "alsa_output"));
    assert!(!lists_device(listing, "arp_mic"));
    assert!(!lists_device(listing, "arp"));
    assert!(!lists_device(listing, ""));
    assert!(!lists_device("", "arp_sink"));
    assert!(lists_device("1 arp_mic", "arp_mic"));
    assert!(!lists_device("1\narp_mic", "arp_mic"));
}

#[test]
fn virtual_microphone_steps() {
    assert_eq!((VIRTUAL_SINK, VIRTUAL_SOURCE), ("arp_sink", "arp_mic"));
    let step = |e| next_mic_step(&e);
    assert_eq!(step(MicEvent::SinksListed("")), MicAction::LoadSink);
    assert_eq!(step(MicEvent::SinksListed("1 arp_sink x")), MicAction::ListSources);
    assert_eq!(step(MicEvent::SinkLoaded { ok: true }), MicAction::ListSources);
    assert_eq!(step(MicEvent::SinkLoaded { ok: false }), MicAction::GiveUp);
    assert_eq!(step(MicEvent::SourcesListed("1 arp_sink.monitor x")), MicAction::LoadSource);
    assert_eq!(step(MicEvent::SourcesListed("1 arp_mic x")), MicAction::Ready);
    assert_eq!(step(MicEvent::SourceLoaded { ok: false }), MicAction::Ready);
    assert_eq!(step(MicEvent::SourceLoaded { ok: true }), MicAction::Ready);
}

#[test]
fn texts() {
    assert_eq!(trim_text("\u{2003} a b \r\n"), "a b");
    assert_eq!(trim_text("   "), "");
    assert_eq!(trim_text("çğ"), "çğ");
    assert!(contains_text("abcabd", "abd"));
    assert!(contains_text("abc", ""));
    assert!(!contains_text("ab", "abc"));
    assert!(!contains_text("acb", "ab"));
    assert!(same_text("ş", "ş"));
    assert!(!same_text("a", "A"));
    assert_eq!(characters("aş"), vec!['a', 'ş']);
    assert_eq!(decode_text("aş".as_bytes()), "aş");
    assert_eq!(decode_text(&[0x61, 0xFF]), "a\u{FFFD}");
}

#[test]
fn whitespace_is_that_of_unicode() {
    for n in 0..=0x10FFFFu32 {
        if let Some(c) = char::from_u32(n) {
            assert_eq!(is_whitespace(c), c.is_whitespace(), "{n:x}");
        }
    }
}
