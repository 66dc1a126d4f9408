use dh_protocol::client::ClientSession;
use dh_protocol::frame::{DHLayer, ToBytes, DATA_TRANSMISSION, HAND_SHAKE_REPLY, HAND_SHAKE_REQUEST};
use dh_protocol::keystream::{decrypt, encrypt};
use dh_protocol::number_theory::{generate_key, get_primitive_root, mod_power};
use dh_protocol::server::{ServerAction, ServerSession};
use dh_protocol::session::{DhError, PeerAddr};

fn addr(port: u16) -> PeerAddr {
    PeerAddr { ip: 0x7f00_0001, port }
}

fn reply_bytes(action: ServerAction) -> (PeerAddr, Vec<u8>) {
    match action {
        ServerAction::Reply { to, bytes } => (to, bytes),
        ServerAction::Deliver { .. } => panic!("expected a handshake reply"),
    }
}

#[test]
fn mod_power_small_values() {
    assert_eq!(mod_power(5, 6, 23), 8);
    assert_eq!(mod_power(5, 15, 23), 19);
    assert_eq!(mod_power(19, 6, 23), 2);
    assert_eq!(mod_power(8, 15, 23), 2);
    assert_eq!(mod_power(7, 0, 23), 1);
    assert_eq!(mod_power(30, 1, 23), 7);
    assert_eq!(mod_power(2, 10, 1_000_000_007), 1024);
}

#[test]
fn mod_power_large_modulus() {
    let p: u128 = 18_446_744_073_709_551_557; // the largest prime below 2^64
    assert_eq!(mod_power(3, p - 1, p), 1);
    assert_eq!(mod_power(p + 5, 1, p), 5);
    let m: u128 = 1 << 64;
    assert_eq!(mod_power(m - 1, 2, m), 1);
}

#[test]
fn primitive_root_search_descends() {
    assert_eq!(get_primitive_root(23), Some(10));
    let g = get_primitive_root(23).unwrap();
    assert_eq!(mod_power(g, 22, 23), 1);
    assert_ne!(mod_power(g, 11, 23), 1);
    assert_eq!(get_primitive_root(5), None);
    assert_eq!(get_primitive_root(2), None);
}

#[test]
fn root_of_generated_prime_passes_fermat() {
    let p = generate_key(32);
    assert!(p >= 1 << 31);
    let g = get_primitive_root(p).unwrap();
    assert_eq!(mod_power(g, p - 1, p), 1);
    assert_ne!(mod_power(g, (p - 1) / 2, p), 1);
}

#[test]
fn generated_key_is_a_probable_prime() {
    let p = generate_key(64);
    assert_ne!(p, 64);
    assert!(p >= 1 << 63);
    assert_eq!(p % 2, 1);
    if p < 1 << 64 {
        assert_eq!(mod_power(2, p - 1, p), 1);
        assert_eq!(mod_power(3, p - 1, p), 1);
    }
}

#[test]
fn new_client_has_found_root() {
    let c = ClientSession::new().unwrap();
    assert_eq!(c.key, 0);
    assert!(c.established_connection.is_none());
    assert!(c.p >= 1 << 63);
    assert!(c.g >= 2 && c.g < c.p / 2);
    assert_ne!(mod_power(c.g, (c.p - 1) / 2, c.p), 1);
    assert!(c.a >= 1 && c.a < c.p);
}

#[test]
fn client_from_draws() {
    let c = ClientSession::from_draws(23, 6).unwrap();
    assert_eq!(c, ClientSession::with_parameters(23, 10, 7));
    let d = ClientSession::from_draws(23, 21).unwrap();
    assert_eq!(d.a, 22);
    let e = ClientSession::from_draws(23, 22).unwrap();
    assert_eq!(e.a, 1);
    assert_eq!(ClientSession::from_draws(1, 5), Err(DhError::Setup));
    assert_eq!(ClientSession::from_draws(0, 5), Err(DhError::Setup));
    assert_eq!(ClientSession::from_draws((1 << 64) + 13, 5), Err(DhError::Setup));
    assert_eq!(ClientSession::from_draws(7, 5), Err(DhError::Setup));
    assert_eq!(ClientSession::from_draws(5, 5), Err(DhError::Setup));
}

#[test]
fn keystream_exact_bytes() {
    let key: u128 = 0x0201;
    assert_eq!(encrypt(&[0, 0, 0], key), vec![1, 2, 0]);
    let data = vec![0u8; 18];
    let out = encrypt(&data, 0xAB | (0xCD << 120));
    assert_eq!(out[0], 0xAB);
    assert_eq!(out[15], 0xCD);
    assert_eq!(out[16], 0xAB);
    assert_eq!(out[17], 0);
    assert_eq!(encrypt(&[], key), Vec::<u8>::new());
}

#[test]
fn keystream_is_involution() {
    let data = b"hello client, this is server".to_vec();
    let key: u128 = 0x0123_4567_89ab_cdef_fedc_ba98_7654_3210;
    let once = encrypt(&data, key);
    assert_ne!(once, data);
    assert_eq!(decrypt(&once, key), data);
}

#[test]
fn frame_encoding_exact_bytes() {
    let f = DHLayer::new_data_transmission(&[9, 8, 7]);
    assert_eq!(f.to_bytes(), vec![0x44, 0x48, 3, 3, 0, 0, 0, 9, 8, 7]);
    let r = DHLayer::new_handshake_reply(0x0102);
    let b = r.to_bytes();
    assert_eq!(b.len(), 7 + 16);
    assert_eq!(&b[..7], &[0x44, 0x48, 2, 16, 0, 0, 0]);
    assert_eq!(b[7], 2);
    assert_eq!(b[8], 1);
    let q = DHLayer::new_handshake_request(23, 5, 8);
    assert_eq!(q.length, 48);
    assert_eq!(q.payload.len(), 48);
    assert_eq!(q.payload[0], 23);
    assert_eq!(q.payload[16], 5);
    assert_eq!(q.payload[32], 8);
}

#[test]
fn frame_round_trip() {
    let f = DHLayer::new_data_transmission(b"abc");
    let g = DHLayer::from(&f.to_bytes()).unwrap();
    assert_eq!(g.dh_identifier, [b'D', b'H']);
    assert_eq!(g.content_type, DATA_TRANSMISSION);
    assert_eq!(g.length, 3);
    assert_eq!(g.payload, b"abc".to_vec());
    let q = DHLayer::new_handshake_request(23, 5, 8);
    let back = DHLayer::from(&q.to_bytes()).unwrap();
    assert_eq!(back.content_type, HAND_SHAKE_REQUEST);
    assert_eq!(back.get_pg_ua(), Some([23, 5, 8]));
    let big: u128 = u128::MAX - 7;
    let r = DHLayer::from(&DHLayer::new_handshake_reply(big).to_bytes()).unwrap();
    assert_eq!(r.content_type, HAND_SHAKE_REPLY);
    assert_eq!(r.get_ub(), Some(big));
}

#[test]
fn decode_truncated_buffer() {
    assert!(DHLayer::from(&[]).is_none());
    assert!(DHLayer::from(&[0x44, 0x48, 3]).is_none());
    assert!(DHLayer::from(&[0x44, 0x48, 3, 0, 0, 0]).is_none());
}

#[test]
fn decode_rejects_bad_headers() {
    assert!(DHLayer::from(&[0x44, 0x49, 3, 0, 0, 0, 0]).is_none());
    assert!(DHLayer::from(&[0x44, 0x48, 0, 0, 0, 0, 0]).is_none());
    assert!(DHLayer::from(&[0x44, 0x48, 4, 0, 0, 0, 0]).is_none());
    assert!(DHLayer::from(&[0x44, 0x48, 3, 2, 0, 0, 0, 1]).is_none());
    assert!(DHLayer::from(&[0x44, 0x48, 3, 1, 0, 0, 0, 1, 2]).is_none());
    let empty = DHLayer::from(&[0x44, 0x48, 3, 0, 0, 0, 0]).unwrap();
    assert_eq!(empty.length, 0);
    assert!(empty.payload.is_empty());
}

#[test]
fn extractors_check_type_and_length() {
    let d = DHLayer::new_data_transmission(&[0u8; 48]);
    assert_eq!(d.get_pg_ua(), None);
    assert_eq!(d.get_ub(), None);
    let short = DHLayer::from(&[0x44, 0x48, 1, 1, 0, 0, 0, 5]).unwrap();
    assert_eq!(short.get_pg_ua(), None);
    let short_reply = DHLayer::from(&[0x44, 0x48, 2, 1, 0, 0, 0, 5]).unwrap();
    assert_eq!(short_reply.get_ub(), None);
    let r = DHLayer::new_handshake_reply(19);
    assert_eq!(r.get_pg_ua(), None);
    assert_eq!(r.get_ub(), Some(19));
}

#[test]
fn to_bytes_trait_lends_bytes() {
    let v = vec![1u8, 2, 3];
    assert_eq!(ToBytes::to_bytes(&v), &[1, 2, 3]);
    let s: &[u8] = &[4, 5];
    assert_eq!(ToBytes::to_bytes(&s), &[4, 5]);
}

#[test]
fn handshake_with_small_numbers() {
    let mut client = ClientSession::with_parameters(23, 5, 6);
    let mut server = ServerSession::new();
    let server_addr = addr(23334);
    let client_addr = addr(23333);
    let request = client.handshake_request();
    let req_frame = DHLayer::from(&request).unwrap();
    assert_eq!(req_frame.get_pg_ua(), Some([23, 5, 8]));
    let (to, reply) = reply_bytes(server.handle_datagram(client_addr, &request, 15).unwrap());
    assert_eq!(to, client_addr);
    assert_eq!(DHLayer::from(&reply).unwrap().get_ub(), Some(19));
    assert_eq!(server.key, 2);
    assert_eq!(server.established_connection, Some(client_addr));
    assert_eq!(client.on_handshake_reply(server_addr, server_addr, &reply), Ok(()));
    assert_eq!(client.key, 2);
    assert_eq!(client.established_connection, Some(server_addr));
}

#[test]
fn data_exchange_after_handshake() {
    let mut client = ClientSession::with_parameters(23, 5, 6);
    let mut server = ServerSession::new();
    let server_addr = addr(23334);
    let client_addr = addr(23333);
    let request = client.handshake_request();
    let (_, reply) = reply_bytes(server.handle_datagram(client_addr, &request, 15).unwrap());
    client.on_handshake_reply(server_addr, server_addr, &reply).unwrap();
    let (bytes, to) = client.send_to(b"hi there").unwrap();
    assert_eq!(to, server_addr);
    let on_wire = DHLayer::from(&bytes).unwrap();
    assert_eq!(on_wire.payload, encrypt(b"hi there", 2));
    match server.handle_datagram(client_addr, &bytes, 0).unwrap() {
        ServerAction::Deliver { from, data } => {
            assert_eq!(from, client_addr);
            assert_eq!(data, b"hi there".to_vec());
        }
        ServerAction::Reply { .. } => panic!("expected delivery"),
    }
    let (echo, back_to) = server.send_to(b"hello client, this is server").unwrap();
    assert_eq!(back_to, client_addr);
    assert_eq!(client.receive(&echo), Ok(b"hello client, this is server".to_vec()));
    assert_eq!(client.receive(&request), Err(DhError::Protocol));
}

#[test]
fn data_before_handshake_is_protocol_error() {
    let mut server = ServerSession::new();
    let frame = DHLayer::new_data_transmission(b"early").to_bytes();
    assert!(matches!(server.handle_datagram(addr(1), &frame, 3), Err(DhError::Protocol)));
    assert_eq!(server.established_connection, None);
    assert_eq!(server.key, 0);
    assert!(matches!(server.recv_pkt(addr(1), &frame), Err(DhError::Protocol)));
    assert_eq!(server.established_connection, None);
}

#[test]
fn reply_from_other_address_is_mismatch() {
    let mut client = ClientSession::with_parameters(23, 5, 6);
    let reply = DHLayer::new_handshake_reply(19).to_bytes();
    assert_eq!(client.on_handshake_reply(addr(23334), addr(4000), &reply), Err(DhError::AddressMismatch));
    assert_eq!(client.key, 0);
    assert_eq!(client.established_connection, None);
}

#[test]
fn client_rejects_bad_replies() {
    let mut client = ClientSession::with_parameters(23, 5, 6);
    let dst = addr(23334);
    assert_eq!(client.on_handshake_reply(dst, dst, &[1, 2, 3]), Err(DhError::Protocol));
    let data = DHLayer::new_data_transmission(&[0u8; 16]).to_bytes();
    assert_eq!(client.on_handshake_reply(dst, dst, &data), Err(DhError::Protocol));
    assert_eq!(client.key, 0);
    let reply = DHLayer::new_handshake_reply(19).to_bytes();
    assert_eq!(client.on_handshake_reply(dst, dst, &reply), Ok(()));
    assert_eq!(client.key, 2);
    assert_eq!(client.on_handshake_reply(dst, dst, &reply), Err(DhError::Protocol));
    assert_eq!(client.established_connection, Some(dst));
}

#[test]
fn send_before_handshake_is_not_established() {
    let client = ClientSession::with_parameters(23, 5, 6);
    assert_eq!(client.send_to(b"x"), Err(DhError::NotEstablished));
    assert_eq!(client.receive(&DHLayer::new_data_transmission(b"x").to_bytes()), Err(DhError::NotEstablished));
    let server = ServerSession::new();
    assert_eq!(server.send_to(b"x"), Err(DhError::NotEstablished));
}

#[test]
fn second_handshake_replaces_peer() {
    let mut server = ServerSession::new();
    let first = addr(1111);
    let second = addr(2222);
    let c1 = ClientSession::with_parameters(23, 5, 6);
    let c2 = ClientSession::with_parameters(23, 5, 9);
    assert!(server.handle_datagram(first, &c1.handshake_request(), 15).is_ok());
    assert_eq!(server.established_connection, Some(first));
    assert!(server.handle_datagram(second, &c2.handshake_request(), 4).is_ok());
    assert_eq!(server.established_connection, Some(second));
    assert_eq!(server.key, mod_power(mod_power(5, 9, 23), 4, 23));
    let stale = DHLayer::new_data_transmission(&encrypt(b"old", server.key)).to_bytes();
    assert!(matches!(server.handle_datagram(first, &stale, 0), Err(DhError::UnexpectedPeer)));
    assert_eq!(server.established_connection, Some(second));
}

#[test]
fn server_rejects_unusable_requests() {
    let mut server = ServerSession::new();
    let bad_modulus = DHLayer::new_handshake_request(1, 5, 8).to_bytes();
    assert!(matches!(server.handle_datagram(addr(1), &bad_modulus, 3), Err(DhError::Protocol)));
    let reply = DHLayer::new_handshake_reply(8).to_bytes();
    assert!(matches!(server.handle_datagram(addr(1), &reply, 3), Err(DhError::Protocol)));
    assert!(matches!(server.handle_datagram(addr(1), &[0x44], 3), Err(DhError::Protocol)));
    assert_eq!(server.established_connection, None);
}

#[test]
fn recv_pkt_completes_handshake() {
    let mut server = ServerSession::new();
    let mut client = ClientSession::with_parameters(23, 5, 6);
    let (to, reply) = reply_bytes(server.recv_pkt(addr(7), &client.handshake_request()).unwrap());
    assert_eq!(to, addr(7));
    client.on_handshake_reply(addr(9), addr(9), &reply).unwrap();
    assert_eq!(client.key, server.key);
}
