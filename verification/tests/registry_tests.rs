use secure_transport::channel::accept_ciphertext;
use secure_transport::channel::seal_message;
use secure_transport::connection::Connection;
use secure_transport::connection::Inbound;
use secure_transport::frame::serialize_frame;
use secure_transport::registry::Registry;

fn toy_encrypt(plain: &[u8], key: &[u8]) -> Vec<u8> {
    plain.iter().enumerate().map(|(i, b)| b ^ key[i % key.len()]).collect()
}

fn toy_decrypt(cipher: &[u8], key: &[u8]) -> Vec<u8> {
    toy_encrypt(cipher, key)
}

fn toy_mac(data: &[u8], key: &[u8]) -> Vec<u8> {
    let mut tag = vec![0u8; 32];
    for i in 0..32 {
        tag[i] = key[i % key.len()].wrapping_add(i as u8);
    }
    for (j, b) in data.iter().enumerate() {
        tag[j % 32] = tag[j % 32].wrapping_add(b.wrapping_mul(13)).rotate_left(1);
    }
    tag
}

fn key(seed: u8) -> Vec<u8> {
    (0..32u8).map(|i| i.wrapping_mul(7).wrapping_add(seed)).collect()
}

#[test]
fn insert_is_unique_and_counted() {
    let mut reg = Registry::new();
    assert_eq!(reg.len(), 0);
    assert!(reg.insert(1));
    assert!(reg.insert(2));
    assert!(!reg.insert(1));
    assert_eq!(reg.len(), 2);
    assert!(reg.contains(1) && reg.contains(2) && !reg.contains(3));
}

#[test]
fn key_is_set_exactly_once() {
    let mut reg = Registry::new();
    reg.insert(7);
    assert_eq!(reg.get_key(7), None);
    assert!(reg.set_key(7, key(1)));
    assert!(!reg.set_key(7, key(2)));
    assert_eq!(reg.get_key(7), Some(key(1)));
    assert!(!reg.set_key(8, key(3)));
}

#[test]
fn remove_evicts_exactly_once() {
    let mut reg = Registry::new();
    reg.insert(1);
    reg.insert(2);
    assert!(reg.remove(1));
    assert!(!reg.remove(1));
    assert_eq!(reg.len(), 1);
    assert!(!reg.contains(1) && reg.contains(2));
    assert_eq!(reg.get_key(1), None);
}

#[test]
fn outbound_queue_is_first_in_first_out() {
    let mut reg = Registry::new();
    reg.insert(4);
    assert!(reg.push_outbound(4, b"one".to_vec()));
    assert!(reg.push_outbound(4, b"two".to_vec()));
    assert!(!reg.push_outbound(5, b"lost".to_vec()));
    assert_eq!(reg.pop_outbound(4), Some(b"one".to_vec()));
    assert_eq!(reg.pop_outbound(4), Some(b"two".to_vec()));
    assert_eq!(reg.pop_outbound(4), None);
    assert_eq!(reg.pop_outbound(5), None);
}

#[test]
fn interleaved_inserts_and_removes_keep_the_directory_consistent() {
    let mut reg = Registry::new();
    for id in 1..=5u64 {
        assert!(reg.insert(id));
    }
    assert!(reg.remove(2));
    assert!(reg.remove(4));
    assert!(reg.insert(6));
    assert!(!reg.insert(3));
    assert_eq!(reg.len(), 4);
    let mut ids = reg.ids();
    ids.sort();
    assert_eq!(ids, vec![1, 3, 5, 6]);
    for id in [1u64, 3, 5, 6] {
        assert!(reg.contains(id));
    }
    for id in [2u64, 4] {
        assert!(!reg.contains(id));
    }
}

#[test]
fn snapshot_never_names_an_evicted_connection() {
    let mut reg = Registry::new();
    for id in 0..20u64 {
        reg.insert(id);
        if id % 3 == 0 {
            reg.remove(id);
        }
    }
    let ids = reg.ids();
    assert_eq!(ids.len(), reg.len());
    for id in &ids {
        assert!(id % 3 != 0);
        assert!(reg.contains(*id));
    }
}

#[test]
fn broadcast_reaches_every_established_connection() {
    // Three connections past the handshake, each with its own key. One
    // broadcast input must reach all three as three different ciphertexts,
    // each of which decrypts back to the input.
    let mut reg = Registry::new();
    let keys = [key(11), key(22), key(33)];
    for (i, k) in keys.iter().enumerate() {
        let id = i as u64 + 1;
        reg.insert(id);
        assert!(reg.set_key(id, k.clone()));
    }

    let input = b"broadcast to everyone";
    let mut ciphertexts = Vec::new();
    for id in reg.ids() {
        let k = reg.get_key(id).expect("every connection here is established");
        let c = toy_encrypt(input, &k);
        let t = toy_mac(&c, &k);
        ciphertexts.push(c.clone());
        let wire = seal_message(&c, &t).unwrap();
        assert!(reg.push_outbound(id, wire));
    }

    assert_ne!(ciphertexts[0], ciphertexts[1]);
    assert_ne!(ciphertexts[0], ciphertexts[2]);
    assert_ne!(ciphertexts[1], ciphertexts[2]);

    for (i, k) in keys.iter().enumerate() {
        let id = i as u64 + 1;
        let wire = reg.pop_outbound(id).expect("one frame was queued");
        assert_eq!(reg.pop_outbound(id), None);

        let mut conn = Connection::new();
        conn.on_bytes(&serialize_frame(b"pv")).unwrap();
        conn.install_key(k.clone()).unwrap();
        let items = conn.on_bytes(&wire).unwrap();
        match &items[..] {
            [Inbound::Secure { ciphertext, tag }] => {
                let computed = toy_mac(ciphertext, k);
                let released = accept_ciphertext(ciphertext.clone(), tag, &computed).unwrap();
                assert_eq!(toy_decrypt(&released, k), input.to_vec());
            },
            other => panic!("expected one secure message, got {} items", other.len()),
        }
    }
}
