use voidproto::error::ProtoError;
use voidproto::nbt::{NamedTag, NBT};
use voidproto::packet::PacketBuilder;
use voidproto::protocol::read_generic_packet;
use voidproto::session::{handle_auth, handle_exists, handle_register, Outcome, State};
use voidproto::store::StoreModel;
use voidproto::varint::VarInt;

fn registry() -> NamedTag {
    NamedTag::new(Vec::new(), NBT::Compound(vec![]))
}

fn string_payload(s: &str) -> Vec<u8> {
    let mut out = VarInt::new(s.len() as i32).to_bytes();
    out.extend_from_slice(s.as_bytes());
    out
}

fn handshake_payload(next: i32) -> Vec<u8> {
    let mut out = VarInt::new(763).to_bytes();
    out.extend_from_slice(&string_payload("localhost"));
    out.extend_from_slice(&[0x63, 0xdd]);
    out.extend_from_slice(&VarInt::new(next).to_bytes());
    out
}

fn contains(haystack: &[u8], needle: &[u8]) -> bool {
    haystack.windows(needle.len()).any(|w| w == needle)
}

#[test]
fn handshake_sets_next_state() {
    let reg = registry();
    let mut st = State::new();
    let r = st
        .receive_packet(0, &handshake_payload(1), b"{}", &reg)
        .unwrap();
    match r {
        Outcome::Continue(frames) => assert!(frames.is_empty()),
        _ => panic!("unexpected outcome"),
    }
    assert_eq!(st.state, 1);
}

#[test]
fn status_request_and_ping() {
    let reg = registry();
    let mut st = State::new();
    st.receive_packet(0, &handshake_payload(1), b"{}", &reg).unwrap();

    let status = b"{\"version\":{}}";
    let r = st.receive_packet(0, &[], status, &reg).unwrap();
    match r {
        Outcome::Continue(frames) => {
            assert_eq!(frames.len(), 1);
            let expected = PacketBuilder::new(0x00).with_string_bytes(status).build();
            assert_eq!(frames[0], expected);
        }
        _ => panic!("unexpected outcome"),
    }

    let ping = [1u8, 2, 3, 4, 5, 6, 7, 8];
    let r = st.receive_packet(1, &ping, status, &reg).unwrap();
    match r {
        Outcome::Continue(frames) => {
            assert_eq!(frames.len(), 1);
            let (id, payload, _) = read_generic_packet(&frames[0], 0).unwrap();
            assert_eq!(id, 0x01);
            assert_eq!(payload, ping);
        }
        _ => panic!("unexpected outcome"),
    }
    assert_eq!(st.state, 1);
}

#[test]
fn fresh_user_login_sequence() {
    let reg = registry();
    let mut st = State::new();
    st.receive_packet(0, &handshake_payload(2), b"{}", &reg).unwrap();
    assert_eq!(st.state, 2);

    let r = st
        .receive_packet(0, &string_payload("alice"), b"{}", &reg)
        .unwrap();
    let (frames, name) = match r {
        Outcome::QueryExists(frames, name) => (frames, name),
        _ => panic!("unexpected outcome"),
    };
    assert_eq!(name, b"alice");
    assert_eq!(st.state, 3);
    assert_eq!(st.username.as_deref(), Some(b"alice" as &[u8]));

    // the scripted sequence, in exact order
    assert_eq!(frames.len(), 35);
    let mut ids = Vec::new();
    for f in &frames {
        let (id, _, used) = read_generic_packet(f, 0).unwrap();
        assert_eq!(used, f.len());
        ids.push(id);
    }
    let mut expected_ids = vec![0x02, 0x25, 0x4a, 0x6a, 0x6b, 0x1a, 0x39, 0x37, 0x4b];
    expected_ids.extend(std::iter::repeat(0x21).take(25));
    expected_ids.push(0x39);
    assert_eq!(ids, expected_ids);

    // login success carries the zero UUID, the username and an empty
    // properties list
    let expected_login = PacketBuilder::new(0x02)
        .with_uuid(0)
        .with_string("alice")
        .with_var_int(0)
        .build();
    assert_eq!(frames[0], expected_login);

    // the store says the user is unknown: the register prompt follows
    let r = handle_exists(Some(false));
    match r {
        Outcome::Continue(frames) => {
            assert_eq!(frames.len(), 1);
            let expected = PacketBuilder::new(0x5d)
                .with_string("{\"text\":\"/register [password] [password]\"}")
                .build();
            assert_eq!(frames[0], expected);
        }
        _ => panic!("unexpected outcome"),
    }

    // a known user gets the login prompt instead
    match handle_exists(Some(true)) {
        Outcome::Continue(frames) => {
            let expected = PacketBuilder::new(0x5d)
                .with_string("{\"text\":\"/login [password]\"}")
                .build();
            assert_eq!(frames[0], expected);
        }
        _ => panic!("unexpected outcome"),
    }

    // a store failure kicks with the generic message
    match handle_exists(None) {
        Outcome::Kick(frame) => {
            assert!(contains(&frame, b"Database error. Please contact one of the admins."));
        }
        _ => panic!("unexpected outcome"),
    }
}

fn session_in_play(name: &str) -> State {
    let reg = registry();
    let mut st = State::new();
    st.receive_packet(0, &handshake_payload(2), b"{}", &reg).unwrap();
    st.receive_packet(0, &string_payload(name), b"{}", &reg).unwrap();
    st
}

#[test]
fn registration_flow() {
    let reg = registry();
    let mut store = StoreModel::new();
    let mut st = session_in_play("alice");

    let r = st
        .receive_packet(0x04, &string_payload("register secret secret"), b"{}", &reg)
        .unwrap();
    let (user, pass) = match r {
        Outcome::QueryRegister(u, p) => (u, p),
        _ => panic!("unexpected outcome"),
    };
    assert_eq!(user, b"alice");
    assert_eq!(pass, b"secret");
    assert!(store.register(&user, &pass));
    match handle_register(Some(true)) {
        Outcome::Continue(frames) => {
            assert_eq!(frames.len(), 1);
            assert!(contains(&frames[0], b"BungeeCord"));
            assert!(contains(&frames[0], b"Connect"));
            assert!(contains(&frames[0], b"main"));
        }
        _ => panic!("unexpected outcome"),
    }

    // a repeat registration for the same username fails and kicks
    let r = st
        .receive_packet(0x04, &string_payload("register secret secret"), b"{}", &reg)
        .unwrap();
    let (user, pass) = match r {
        Outcome::QueryRegister(u, p) => (u, p),
        _ => panic!("unexpected outcome"),
    };
    assert!(!store.register(&user, &pass));
    match handle_register(Some(false)) {
        Outcome::Kick(frame) => {
            assert!(contains(&frame, b"This user is already registered."));
        }
        _ => panic!("unexpected outcome"),
    }
}

#[test]
fn bad_login_is_kicked() {
    let reg = registry();
    let mut store = StoreModel::new();
    assert!(store.register(b"alice", b"secret"));

    let mut st = session_in_play("alice");
    let r = st
        .receive_packet(0x04, &string_payload("login wrongpass"), b"{}", &reg)
        .unwrap();
    let (user, pass) = match r {
        Outcome::QueryAuth(u, p) => (u, p),
        _ => panic!("unexpected outcome"),
    };
    assert_eq!(user, b"alice");
    assert!(!store.authenticate(&user, &pass));
    match handle_auth(Some(false)) {
        Outcome::Kick(frame) => {
            assert!(contains(&frame, b"Invalid password or user not registered."));
        }
        _ => panic!("unexpected outcome"),
    }
}

#[test]
fn good_login_hands_off() {
    let mut store = StoreModel::new();
    assert!(store.register(b"alice", b"secret"));
    assert!(store.authenticate(b"alice", b"secret"));
    match handle_auth(Some(true)) {
        Outcome::Continue(frames) => {
            assert!(contains(&frames[0], b"BungeeCord"));
        }
        _ => panic!("unexpected outcome"),
    }
}

#[test]
fn command_syntax_errors_kick() {
    let reg = registry();
    let mut st = session_in_play("alice");
    let r = st.receive_packet(0x04, &string_payload("login"), b"{}", &reg).unwrap();
    match r {
        Outcome::Kick(frame) => assert!(contains(&frame, b"Invalid syntax. Usage: /login [password]")),
        _ => panic!("unexpected outcome"),
    }
    let r = st.receive_packet(0x04, &string_payload("register a"), b"{}", &reg).unwrap();
    match r {
        Outcome::Kick(frame) => {
            assert!(contains(&frame, b"Invalid syntax. Usage: /register [password] [password]"))
        }
        _ => panic!("unexpected outcome"),
    }
    let r = st
        .receive_packet(0x04, &string_payload("register one two"), b"{}", &reg)
        .unwrap();
    match r {
        Outcome::Kick(frame) => assert!(contains(&frame, b"Passwords do not match.")),
        _ => panic!("unexpected outcome"),
    }
    let r = st.receive_packet(0x04, &string_payload("fly"), b"{}", &reg).unwrap();
    match r {
        Outcome::Kick(frame) => assert!(contains(&frame, b"Invalid command.")),
        _ => panic!("unexpected outcome"),
    }
}

#[test]
fn keepalives_echo_with_matching_width() {
    let reg = registry();
    let mut st = session_in_play("alice");

    let payload32 = [0x11u8, 0x22, 0x33, 0x44];
    let r = st.receive_packet(0x20, &payload32, b"{}", &reg).unwrap();
    match r {
        Outcome::Continue(frames) => {
            let (id, payload, _) = read_generic_packet(&frames[0], 0).unwrap();
            assert_eq!(id, 0x2f);
            assert_eq!(payload, payload32);
        }
        _ => panic!("unexpected outcome"),
    }

    let payload64 = [1u8, 2, 3, 4, 5, 6, 7, 8];
    let r = st.receive_packet(0x12, &payload64, b"{}", &reg).unwrap();
    match r {
        Outcome::Continue(frames) => {
            let (id, payload, _) = read_generic_packet(&frames[0], 0).unwrap();
            assert_eq!(id, 0x20);
            assert_eq!(payload, payload64);
        }
        _ => panic!("unexpected outcome"),
    }
}

#[test]
fn unknown_packets_are_ignored_and_unknown_phase_is_fatal() {
    let reg = registry();
    let mut st = session_in_play("alice");
    match st.receive_packet(0x33, &[], b"{}", &reg).unwrap() {
        Outcome::Continue(frames) => assert!(frames.is_empty()),
        _ => panic!("unexpected outcome"),
    }
    // chat is read and dropped
    match st
        .receive_packet(0x05, &string_payload("hello"), b"{}", &reg)
        .unwrap()
    {
        Outcome::Continue(frames) => assert!(frames.is_empty()),
        _ => panic!("unexpected outcome"),
    }

    let mut bad = State::new();
    bad.receive_packet(0, &handshake_payload(7), b"{}", &reg).unwrap();
    assert_eq!(bad.state, 7);
    assert_eq!(
        bad.receive_packet(0, &[], b"{}", &reg),
        Err(ProtoError::UnknownPhase)
    );
}

#[test]
fn malformed_and_truncated_payloads_are_fatal() {
    let reg = registry();
    let mut st = State::new();
    let bad = [0x80u8, 0x80, 0x80, 0x80, 0x80, 0x80];
    assert_eq!(
        st.receive_packet(0, &bad, b"{}", &reg),
        Err(ProtoError::MalformedVarInt)
    );
    let mut st = session_in_play("alice");
    // string field that claims more bytes than the payload holds
    assert_eq!(
        st.receive_packet(0x04, &[0x05, b'a'], b"{}", &reg),
        Err(ProtoError::Truncated)
    );
    // string field with invalid UTF-8
    assert_eq!(
        st.receive_packet(0x04, &[0x02, 0xff, 0xfe], b"{}", &reg),
        Err(ProtoError::InvalidUtf8)
    );
}
