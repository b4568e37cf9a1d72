use synfone::client::{art_param_name, plan_command, Action};
use synfone::proto::{Command, ALL_VOICES, PACKET_SIZE};

#[test]
fn it_works() {}

#[test]
fn ping_round_trip() {
    let bytes = Command::Ping { data: [0u8; 32] }.encode();
    assert_eq!(bytes.len(), PACKET_SIZE);
    assert_eq!(&bytes[..4], &[0, 0, 0, 1]);
    match Command::decode(&bytes) {
        Command::Ping { data } => assert!(data.iter().all(|&b| b == 0)),
        other => panic!("decoded {:?}", other),
    }
}

#[test]
fn caps_reply_announces_voices() {
    let query = Command::Caps { voices: 0, tp: [0; 4], ident: [0; 24] };
    let reply = match plan_command(&query, 3) {
        Action::Reply { packet } => Command::decode(&packet),
        other => panic!("planned {:?}", other),
    };
    assert_eq!(reply, Command::Caps { voices: 3, tp: *b"SYNF", ident: [0; 24] });
}

#[test]
fn ping_is_echoed() {
    let mut data = [0u8; 32];
    data[5] = 9;
    let ping = Command::Ping { data };
    assert_eq!(plan_command(&ping, 2), Action::Reply { packet: ping.encode() });
}

#[test]
fn play_layout_is_big_endian() {
    let amp = 0.5f32.to_bits();
    let cmd = Command::Play { sec: 1, usec: 2, freq: 440, amp, voice: 7 };
    let b = cmd.encode();
    assert_eq!(&b[0..4], &[0, 0, 0, 3]);
    assert_eq!(&b[4..8], &[0, 0, 0, 1]);
    assert_eq!(&b[8..12], &[0, 0, 0, 2]);
    assert_eq!(&b[12..16], &[0, 0, 1, 184]);
    assert_eq!(&b[16..20], &0.5f32.to_be_bytes());
    assert_eq!(&b[20..24], &[0, 0, 0, 7]);
    assert!(b[24..].iter().all(|&x| x == 0));
    assert_eq!(Command::decode(&b), cmd);
}

#[test]
fn pcm_samples_are_little_endian() {
    let mut samples = [0i16; 16];
    samples[0] = 0x0102;
    samples[15] = -2;
    let b = Command::PCM { samples }.encode();
    assert_eq!(&b[0..4], &[0, 0, 0, 5]);
    assert_eq!(&b[4..6], &[0x02, 0x01]);
    assert_eq!(&b[34..36], &[0xfe, 0xff]);
    assert_eq!(Command::decode(&b), Command::PCM { samples });
}

#[test]
fn art_param_broadcast_value() {
    let mut b = [0u8; 36];
    b[3] = 7;
    b[4..8].copy_from_slice(&ALL_VOICES.to_be_bytes());
    b[8..12].copy_from_slice(&3u32.to_be_bytes());
    b[12..16].copy_from_slice(&1.25f32.to_be_bytes());
    let cmd = Command::decode(&b);
    assert_eq!(cmd, Command::ArtParam { voice: None, index: 3, value: 1.25f32.to_bits() });
    assert_eq!(cmd.encode(), b);
}

#[test]
fn pcm_syn_and_quit_decode() {
    let mut b = [0u8; 36];
    b[3] = 6;
    b[7] = 12;
    assert_eq!(Command::decode(&b), Command::PCMSyn { buffered: 12 });
    let mut q = [0u8; 36];
    q[3] = 2;
    assert_eq!(Command::decode(&q), Command::Quit);
    assert_eq!(Command::decode(&[0u8; 36]), Command::KeepAlive);
}

#[test]
fn unknown_opcode_keeps_bytes() {
    let mut b = [0xabu8; 36];
    b[0] = 0;
    b[1] = 0;
    b[2] = 0;
    b[3] = 8;
    assert_eq!(Command::decode(&b), Command::Unknown { data: b });
    assert_eq!(Command::Unknown { data: b }.encode(), b);
}

#[test]
fn play_duration_in_microseconds() {
    let cmd = Command::Play { sec: 2, usec: 500, freq: 1, amp: 0, voice: 0 };
    assert_eq!(cmd.duration(), Some(2_000_500));
    assert_eq!(Command::Quit.duration(), None);
}

#[test]
fn play_needs_an_existing_voice() {
    let cmd = Command::Play { sec: 0, usec: 1, freq: 440, amp: 5, voice: 2 };
    assert_eq!(
        plan_command(&cmd, 3),
        Action::Play { voice: 2, freq: 440, amp: 5, duration_us: 1 }
    );
    assert_eq!(plan_command(&cmd, 2), Action::Ignore);
}

#[test]
fn art_param_targets() {
    let all = Command::ArtParam { voice: None, index: 4, value: 9 };
    assert_eq!(
        plan_command(&all, 3),
        Action::Articulate { first: 0, end: 3, index: 4, value: 9 }
    );
    let one = Command::ArtParam { voice: Some(1), index: 4, value: 9 };
    assert_eq!(
        plan_command(&one, 3),
        Action::Articulate { first: 1, end: 2, index: 4, value: 9 }
    );
    let missing = Command::ArtParam { voice: Some(3), index: 4, value: 9 };
    assert_eq!(plan_command(&missing, 3), Action::Ignore);
}

#[test]
fn quit_and_ignored_commands() {
    assert_eq!(plan_command(&Command::Quit, 1), Action::Quit);
    assert_eq!(plan_command(&Command::KeepAlive, 1), Action::Ignore);
    assert_eq!(plan_command(&Command::PCMSyn { buffered: 3 }, 1), Action::Ignore);
    assert_eq!(plan_command(&Command::PCM { samples: [1; 16] }, 1), Action::Ignore);
}

#[test]
fn articulation_variable_names() {
    assert_eq!(art_param_name(0), "artp0");
    assert_eq!(art_param_name(12), "artp12");
    assert_eq!(art_param_name(4294967295), "artp4294967295");
}
