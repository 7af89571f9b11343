use secure_transport::channel::accept_ciphertext;
use secure_transport::client::Client3;
use secure_transport::connection::Connection;
use secure_transport::connection::Inbound;
use secure_transport::errors::Fault;
use secure_transport::frame::serialize_frame;
use secure_transport::handshake::Handshake;
use secure_transport::handshake::HandshakeState;

fn toy_encrypt(plain: &[u8], key: &[u8]) -> Vec<u8> {
    plain.iter().enumerate().map(|(i, b)| b ^ key[i % key.len()]).collect()
}

fn toy_decrypt(cipher: &[u8], key: &[u8]) -> Vec<u8> {
    toy_encrypt(cipher, key)
}

fn toy_mac(data: &[u8], key: &[u8]) -> Vec<u8> {
    let mut tag = vec![0u8; 32];
    for i in 0..32 {
        tag[i] = key[i % key.len()].wrapping_add(i as u8);
    }
    for (j, b) in data.iter().enumerate() {
        tag[j % 32] = tag[j % 32].wrapping_add(b.wrapping_mul(13)).rotate_left(1);
    }
    tag
}

fn key(seed: u8) -> Vec<u8> {
    (0..32u8).map(|i| i.wrapping_mul(7).wrapping_add(seed)).collect()
}

fn establish(conn: &mut Connection, k: &[u8]) {
    let items = conn.on_bytes(&serialize_frame(b"peer public value")).unwrap();
    assert_eq!(items.len(), 1);
    assert!(matches!(items[0], Inbound::PeerKey(_)));
    conn.install_key(k.to_vec()).unwrap();
    assert_eq!(conn.state(), HandshakeState::Established);
}

#[test]
fn first_frame_is_the_peer_public_value() {
    let mut conn = Connection::new();
    assert_eq!(conn.state(), HandshakeState::AwaitingPeerPublicKey);
    let items = conn.on_bytes(&serialize_frame(b"g^b mod p")).unwrap();
    match &items[..] {
        [Inbound::PeerKey(pv)] => assert_eq!(pv, &b"g^b mod p".to_vec()),
        other => panic!("expected one peer key, got {} items", other.len()),
    }
    assert_eq!(conn.state(), HandshakeState::AwaitingPeerPublicKey);
}

#[test]
fn message_before_handshake_is_rejected_and_never_delivered() {
    // Two frames arrive before any key is installed: the first is taken as
    // the handshake frame, the second is an application message sent too
    // early. It must fault the connection, not reach the sink.
    let mut conn = Connection::new();
    let mut wire = serialize_frame(b"peer public value");
    wire.extend(serialize_frame(&[0u8; 40]));
    let r = conn.on_bytes(&wire);
    assert_eq!(r, Err(Fault::Protocol));
    assert_eq!(conn.state(), HandshakeState::Failed);
}

#[test]
fn failed_connection_admits_nothing() {
    let mut conn = Connection::new();
    conn.fail();
    let r = conn.on_bytes(&serialize_frame(b"anything"));
    assert_eq!(r, Err(Fault::Protocol));
}

#[test]
fn session_key_is_write_once() {
    let mut conn = Connection::new();
    conn.on_bytes(&serialize_frame(b"pv")).unwrap();
    assert!(conn.install_key(key(1)).is_ok());
    assert_eq!(conn.install_key(key(2)), Err(Fault::Protocol));
    assert_eq!(conn.session_key(), Some(key(1)));
}

#[test]
fn key_install_needs_peer_value_first() {
    let mut conn = Connection::new();
    assert_eq!(conn.install_key(key(1)), Err(Fault::Protocol));
    assert_eq!(conn.state(), HandshakeState::AwaitingPeerPublicKey);
}

#[test]
fn key_must_be_thirty_two_bytes() {
    let mut conn = Connection::new();
    conn.on_bytes(&serialize_frame(b"pv")).unwrap();
    assert_eq!(conn.install_key(vec![1, 2, 3]), Err(Fault::Protocol));
}

#[test]
fn seal_is_refused_until_established() {
    let conn = Connection::new();
    let k = key(1);
    let c = toy_encrypt(b"too early", &k);
    let t = toy_mac(&c, &k);
    assert_eq!(conn.seal(&c, &t), Err(Fault::Protocol));
}

#[test]
fn sealed_message_round_trips_between_two_connections() {
    let k = key(4);
    let mut alice = Connection::new();
    let mut bob = Connection::new();
    establish(&mut alice, &k);
    establish(&mut bob, &k);

    let text = b"hello over the secure channel";
    let c = toy_encrypt(text, &k);
    let t = toy_mac(&c, &k);
    let wire = alice.seal(&c, &t).unwrap();

    let items = bob.on_bytes(&wire).unwrap();
    match &items[..] {
        [Inbound::Secure { ciphertext, tag }] => {
            let computed = toy_mac(ciphertext, &k);
            let released = accept_ciphertext(ciphertext.clone(), tag, &computed).unwrap();
            assert_eq!(toy_decrypt(&released, &k), text.to_vec());
        },
        other => panic!("expected one secure message, got {} items", other.len()),
    }
}

#[test]
fn short_secure_frame_faults_the_connection() {
    let mut conn = Connection::new();
    establish(&mut conn, &key(6));
    let r = conn.on_bytes(&serialize_frame(&[1u8; 31]));
    assert_eq!(r, Err(Fault::Protocol));
    assert_eq!(conn.state(), HandshakeState::Failed);
    assert_eq!(conn.session_key(), None);
}

#[test]
fn malformed_length_prefix_faults_the_connection() {
    let mut conn = Connection::new();
    let r = conn.on_bytes(&[0, 0, 0, 2]);
    assert_eq!(r, Err(Fault::Protocol));
    assert_eq!(conn.state(), HandshakeState::Failed);
}

#[test]
fn handshake_coordinator_runs_exactly_once() {
    let mut h = Handshake::new();
    assert!(!h.peer_key_seen());
    assert_eq!(h.install_key(key(1)), Err(Fault::Protocol));
    h.note_peer_key();
    assert!(h.install_key(key(1)).is_ok());
    assert_eq!(h.state(), HandshakeState::Established);
    assert_eq!(h.install_key(key(1)), Err(Fault::Protocol));
    assert_eq!(h.session_key(), Some(key(1)));
}

#[test]
fn client_session_drives_the_same_protocol() {
    let k = key(8);
    let mut client = Client3::new();
    let hello = client.hello_frame(b"g^a mod p").unwrap();
    assert_eq!(hello, serialize_frame(b"g^a mod p"));

    let items = client.handle_server(&serialize_frame(b"g^b mod p")).unwrap();
    assert!(matches!(&items[..], [Inbound::PeerKey(_)]));
    client.install_key(k.clone()).unwrap();
    assert_eq!(client.state(), HandshakeState::Established);

    let text = b"hi server";
    let c = toy_encrypt(text, &k);
    let t = toy_mac(&c, &k);
    let wire = client.seal(&c, &t).unwrap();

    let mut server = Connection::new();
    establish(&mut server, &k);
    let items = server.on_bytes(&wire).unwrap();
    match &items[..] {
        [Inbound::Secure { ciphertext, tag }] => {
            let computed = toy_mac(ciphertext, &k);
            let released = accept_ciphertext(ciphertext.clone(), tag, &computed).unwrap();
            assert_eq!(toy_decrypt(&released, &k), text.to_vec());
        },
        other => panic!("expected one secure message, got {} items", other.len()),
    }
}

#[test]
fn chunked_delivery_does_not_change_what_is_delivered() {
    let k = key(7);
    let mut conn = Connection::new();
    establish(&mut conn, &k);
    let c = toy_encrypt(b"drip fed", &k);
    let t = toy_mac(&c, &k);
    let wire = conn.seal(&c, &t).unwrap();
    let mut delivered = Vec::new();
    for b in &wire {
        delivered.extend(conn.on_bytes(&[*b]).unwrap());
    }
    match &delivered[..] {
        [Inbound::Secure { ciphertext, tag }] => {
            assert_eq!(ciphertext, &c);
            assert_eq!(tag, &t);
        },
        other => panic!("expected one secure message, got {} items", other.len()),
    }
}
