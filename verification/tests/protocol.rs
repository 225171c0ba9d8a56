use arp::protocol::{
    build_audio, build_bye, build_discover, build_discover_reply, build_heartbeat,
    build_heartbeat_ack, build_hello, build_hello_ack, build_sound_list, build_sound_list_req,
    build_sound_play, build_sound_stop, parse, tcp_frame, tcp_frame_len, Codec, Hello, Packet,
    DEFAULT_PORT, SAMPLE_RATE,
};

#[test]
fn roundtrip_audio() {
    let pkt = build_audio(7, 42, 40320, &[1, 2, 3]);
    match parse(&pkt) {
        Some(Packet::Audio { session: 7, seq: 42, timestamp: 40320, payload }) => {
            assert_eq!(payload, &[1, 2, 3]);
        }
        other => panic!("beklenmeyen: {other:?}"),
    }
}

#[test]
fn roundtrip_hello_and_reply() {
    let h = Hello { session: 9, sample_rate: 48000, channels: 1, codec: Codec::Opus, frame_ms: 20 };
    match parse(&build_hello(&h)) {
        Some(Packet::Hello(g)) => assert_eq!(g, h),
        other => panic!("beklenmeyen: {other:?}"),
    }
    match parse(&build_discover_reply(5, 48222, "Bilgisayarım")) {
        Some(Packet::DiscoverReply { nonce: 5, port: 48222, name }) => {
            assert_eq!(name, "Bilgisayarım");
        }
        other => panic!("beklenmeyen: {other:?}"),
    }
}

#[test]
fn rejects_garbage() {
    assert!(parse(b"XX\x01\x05aaaa").is_none());
    assert!(parse(b"AR\x02\x05aaaa").is_none());
    assert!(parse(b"AR").is_none());
    assert!(parse(&build_hello_ack(1)[..5]).is_none());
}

#[test]
fn packet_layouts() {
    assert_eq!(DEFAULT_PORT, 48222);
    assert_eq!(SAMPLE_RATE, 48000);
    assert_eq!(build_discover(0x01020304), b"AR\x01\x01\x01\x02\x03\x04");
    assert_eq!(
        build_discover_reply(1, 0xBC5E, "ab"),
        b"AR\x01\x02\x00\x00\x00\x01\xBC\x5E\x02ab"
    );
    let h = Hello { session: 9, sample_rate: 48000, channels: 1, codec: Codec::Pcm16, frame_ms: 10 };
    assert_eq!(build_hello(&h), b"AR\x01\x03\x00\x00\x00\x09\x00\x00\xBB\x80\x01\x00\x0A");
    assert_eq!(build_hello_ack(2), b"AR\x01\x04\x00\x00\x00\x02");
    assert_eq!(
        build_audio(1, 2, 3, b"xy"),
        b"AR\x01\x05\x00\x00\x00\x01\x00\x00\x00\x02\x00\x00\x00\x03xy"
    );
    assert_eq!(build_heartbeat(1, 258), b"AR\x01\x06\x00\x00\x00\x01\x00\x00\x01\x02");
    assert_eq!(build_heartbeat_ack(1, 258), b"AR\x01\x07\x00\x00\x00\x01\x00\x00\x01\x02");
    assert_eq!(build_bye(3), b"AR\x01\x08\x00\x00\x00\x03");
    assert_eq!(build_sound_list_req(3), b"AR\x01\x09\x00\x00\x00\x03");
    assert_eq!(
        build_sound_list(&vec!["a".to_string(), "bc".to_string()]),
        b"AR\x01\x0A\x02\x00\x01a\x01\x02bc"
    );
    assert_eq!(build_sound_play(3, 7), b"AR\x01\x0B\x00\x00\x00\x03\x07");
    assert_eq!(build_sound_stop(3), b"AR\x01\x0C\x00\x00\x00\x03");
}

#[test]
fn every_short_packet_parses_back() {
    assert!(matches!(parse(&build_discover(77)), Some(Packet::Discover { nonce: 77 })));
    assert!(matches!(parse(&build_hello_ack(4)), Some(Packet::HelloAck { session: 4 })));
    assert!(matches!(
        parse(&build_heartbeat(4, 5)),
        Some(Packet::Heartbeat { session: 4, time_ms: 5 })
    ));
    assert!(matches!(
        parse(&build_heartbeat_ack(4, 5)),
        Some(Packet::HeartbeatAck { session: 4, time_ms: 5 })
    ));
    assert!(matches!(parse(&build_bye(4)), Some(Packet::Bye { session: 4 })));
    assert!(matches!(parse(&build_sound_list_req(4)), Some(Packet::SoundListReq { session: 4 })));
    assert!(matches!(parse(&build_sound_play(4, 31)), Some(Packet::SoundPlay { session: 4, id: 31 })));
    assert!(matches!(parse(&build_sound_stop(4)), Some(Packet::SoundStop { session: 4 })));
}

#[test]
fn sound_list_is_bounded() {
    let long = "ğ".repeat(30);
    let mut names = vec![long];
    for i in 0..40 {
        names.push(format!("ses-{i}"));
    }
    match parse(&build_sound_list(&names)) {
        Some(Packet::SoundList { sounds }) => {
            assert_eq!(sounds.len(), 32);
            assert_eq!(sounds[0].id, 0);
            assert_eq!(sounds[0].name, "ğ".repeat(20));
            assert_eq!(sounds[31].id, 31);
            assert_eq!(sounds[31].name, "ses-30");
        }
        other => panic!("{other:?}"),
    }
}

#[test]
fn long_receiver_name_is_cut() {
    let name = "x".repeat(300);
    match parse(&build_discover_reply(1, 2, &name)) {
        Some(Packet::DiscoverReply { name: got, .. }) => assert_eq!(got, "x".repeat(255)),
        other => panic!("{other:?}"),
    }
}

#[test]
fn long_receiver_name_is_cut_at_a_whole_character() {
    let pkt = build_discover_reply(5, 48222, &"ı".repeat(128));
    assert_eq!(pkt[10], 254);
    assert_eq!(core::str::from_utf8(&pkt[11..]), Ok("ı".repeat(127).as_str()));
    match parse(&pkt) {
        Some(Packet::DiscoverReply { nonce: 5, port: 48222, name }) => {
            assert_eq!(name, "ı".repeat(127))
        }
        other => panic!("{other:?}"),
    }
    let odd = format!("x{}", "ı".repeat(127));
    match parse(&build_discover_reply(5, 48222, &odd)) {
        Some(Packet::DiscoverReply { name, .. }) => assert_eq!(name, odd),
        other => panic!("{other:?}"),
    }
    let wide = "🎙".repeat(64);
    let pkt = build_discover_reply(5, 48222, &wide);
    assert_eq!(core::str::from_utf8(&pkt[11..]), Ok("🎙".repeat(63).as_str()));
}

#[test]
fn broken_name_is_replaced() {
    let mut pkt = build_discover_reply(1, 2, "ab");
    let last = pkt.len() - 1;
    pkt[last] = 0xFF;
    match parse(&pkt) {
        Some(Packet::DiscoverReply { name, .. }) => assert_eq!(name, "a\u{FFFD}"),
        other => panic!("{other:?}"),
    }
}

#[test]
fn unknown_types_and_codecs_are_ignored() {
    assert!(parse(b"AR\x01\x00aaaaaaaa").is_none());
    assert!(parse(b"AR\x01\x0Daaaaaaaa").is_none());
    assert!(Codec::from_u8(2).is_none());
    assert_eq!(Codec::from_u8(0), Some(Codec::Pcm16));
    assert_eq!(Codec::from_u8(1), Some(Codec::Opus));
    assert_eq!(Codec::Pcm16.frame_samples(), 480);
    assert_eq!(Codec::Opus.frame_samples(), 960);
    let h = Hello { session: 9, sample_rate: 48000, channels: 1, codec: Codec::Opus, frame_ms: 20 };
    let mut pkt = build_hello(&h);
    pkt[13] = 9;
    assert!(parse(&pkt).is_none());
}

#[test]
fn every_cut_is_rejected() {
    let h = Hello { session: 9, sample_rate: 48000, channels: 1, codec: Codec::Opus, frame_ms: 20 };
    let whole = [
        build_discover(1),
        build_discover_reply(1, 2, ""),
        build_hello(&h),
        build_hello_ack(1),
        build_audio(1, 2, 3, &[]),
        build_heartbeat(1, 2),
        build_heartbeat_ack(1, 2),
        build_bye(1),
        build_sound_list_req(1),
        build_sound_play(1, 2),
        build_sound_stop(1),
    ];
    for pkt in &whole {
        assert!(parse(pkt).is_some());
        for n in 0..pkt.len() {
            assert!(parse(&pkt[..n]).is_none(), "{pkt:?} cut to {n}");
        }
    }
}

#[test]
fn tcp_frames() {
    let pkt = build_bye(3);
    let framed = tcp_frame(&pkt);
    assert_eq!(&framed[..2], &[0, 8]);
    assert_eq!(&framed[2..], &pkt[..]);
    assert_eq!(tcp_frame_len(&framed[..2], 512), Some(8));
    assert_eq!(tcp_frame_len(&[2, 1], 512), None);
    assert_eq!(tcp_frame_len(&[2, 0], 512), Some(512));
}
