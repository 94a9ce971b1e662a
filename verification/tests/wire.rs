use gossipnet::address::{parse_multiaddr, render_multiaddr, Host, Multiaddr};
use gossipnet::codec::{decode_frame, encode_frame, Frame};
use gossipnet::errors::NodeError;
use gossipnet::gossip::PeerId;
use gossipnet::identity::LocalIdentity;
use gossipnet::service::Service;
use gossipnet::transport::{
    apply_resolution, handshake_outcome, negotiate_muxer, upgrade_deadline, Candidate, Composer,
    MuxProtocol, UPGRADE_TIMEOUT_MS,
};

#[test]
fn malformed_address_is_a_recoverable_error() {
    let r = parse_multiaddr(&b"not-an-address".to_vec());
    assert_eq!(r.err(), Some(NodeError::AddressParse));
}

#[test]
fn tcp_address_parses_to_its_fields() {
    let a = parse_multiaddr(&b"/ip4/127.0.0.1/tcp/9000".to_vec()).unwrap();
    match a.host {
        Host::Ip4(o1, o2, o3, o4) => assert_eq!((o1, o2, o3, o4), (127, 0, 0, 1)),
        Host::Dns4(_) => panic!("a literal address must not parse as a name"),
    }
    assert_eq!(a.port, 9000);
    assert!(!a.ws);
}

#[test]
fn dns_websocket_address_round_trips() {
    let text = b"/dns4/example.org/tcp/443/ws".to_vec();
    let a = parse_multiaddr(&text).unwrap();
    match &a.host {
        Host::Dns4(name) => assert_eq!(name, &b"example.org".to_vec()),
        Host::Ip4(_, _, _, _) => panic!("a name must not parse as a literal address"),
    }
    assert_eq!(a.port, 443);
    assert!(a.ws);
    assert_eq!(render_multiaddr(&a), text);
}

#[test]
fn listening_address_renders_canonically() {
    let a = Multiaddr { host: Host::Ip4(0, 0, 0, 0), port: 0, ws: true };
    assert_eq!(render_multiaddr(&a), b"/ip4/0.0.0.0/tcp/0/ws".to_vec());
}

#[test]
fn non_canonical_numbers_are_rejected() {
    assert!(parse_multiaddr(&b"/ip4/007.0.0.1/tcp/9000".to_vec()).is_err());
    assert!(parse_multiaddr(&b"/ip4/256.0.0.1/tcp/9000".to_vec()).is_err());
    assert!(parse_multiaddr(&b"/ip4/1.2.3.4/tcp/70000".to_vec()).is_err());
    assert!(parse_multiaddr(&b"/ip4/1.2.3.4/tcp/9000/extra".to_vec()).is_err());
    assert!(parse_multiaddr(&b"/dns4//tcp/9000".to_vec()).is_err());
    assert!(parse_multiaddr(&b"".to_vec()).is_err());
}

#[test]
fn native_tcp_wins_over_injected_transport() {
    let both = Composer { injected: true, native: true };
    let a = parse_multiaddr(&b"/ip4/127.0.0.1/tcp/9000".to_vec()).unwrap();
    assert_eq!(both.select_candidate(&a), Ok(Candidate::NativeStream));
    // end to end: the canonical text must dial, through the native candidate
    let local = PeerId { digest: 3 };
    let svc = Service::new(local, both, false, b"rnges.us".to_vec(), 1000);
    let (_, c) = svc.dial_plan(&b"/ip4/127.0.0.1/tcp/9000".to_vec()).unwrap();
    assert_eq!(c, Candidate::NativeStream);
}

#[test]
fn websocket_addresses_prefer_the_injected_transport() {
    let both = Composer { injected: true, native: true };
    let native_only = Composer { injected: false, native: true };
    let neither = Composer { injected: false, native: false };
    let ws = parse_multiaddr(&b"/ip4/127.0.0.1/tcp/9000/ws".to_vec()).unwrap();
    assert_eq!(both.select_candidate(&ws), Ok(Candidate::Injected));
    assert_eq!(native_only.select_candidate(&ws), Ok(Candidate::NativeStreamWithFraming));
    assert_eq!(neither.select_candidate(&ws), Err(NodeError::TransportDial));
    assert!(native_only.can_listen());
    let hosted = Composer { injected: true, native: false };
    assert!(!hosted.can_listen());
}

#[test]
fn dial_plan_reports_parse_and_scheme_errors() {
    let local = PeerId { digest: 4 };
    let svc = Service::new(
        local,
        Composer { injected: true, native: false },
        false,
        b"rnges.us".to_vec(),
        1000,
    );
    assert_eq!(svc.dial_plan(&b"nonsense".to_vec()).err(), Some(NodeError::AddressParse));
    // a hosted, injected-only node cannot dial plain TCP
    assert_eq!(
        svc.dial_plan(&b"/ip4/127.0.0.1/tcp/9000".to_vec()).err(),
        Some(NodeError::TransportDial)
    );
    let (a, c) = svc.dial_plan(&b"/ip4/127.0.0.1/tcp/9000/ws".to_vec()).unwrap();
    assert_eq!(c, Candidate::Injected);
    assert_eq!(a.port, 9000);
}

#[test]
fn dns_resolution_failure_keeps_the_address() {
    let a = parse_multiaddr(&b"/dns4/example.org/tcp/443".to_vec()).unwrap();
    let kept = apply_resolution(a, None);
    assert_eq!(render_multiaddr(&kept), b"/dns4/example.org/tcp/443".to_vec());
    let b = parse_multiaddr(&b"/dns4/example.org/tcp/443".to_vec()).unwrap();
    let rewritten = apply_resolution(b, Some((93, 184, 216, 34)));
    assert_eq!(render_multiaddr(&rewritten), b"/ip4/93.184.216.34/tcp/443".to_vec());
}

#[test]
fn upgrade_is_abandoned_at_the_deadline() {
    assert_eq!(upgrade_deadline(0, UPGRADE_TIMEOUT_MS - 1, false), None);
    assert_eq!(upgrade_deadline(0, UPGRADE_TIMEOUT_MS, false), Some(NodeError::UpgradeTimeout));
    assert_eq!(upgrade_deadline(0, UPGRADE_TIMEOUT_MS + 5000, false), Some(NodeError::UpgradeTimeout));
    // a completed upgrade is never reported late
    assert_eq!(upgrade_deadline(0, UPGRADE_TIMEOUT_MS * 2, true), None);
}

#[test]
fn muxer_negotiation_takes_first_common_protocol() {
    let ours = vec![MuxProtocol::Yamux, MuxProtocol::Mplex];
    assert_eq!(negotiate_muxer(&ours, &vec![MuxProtocol::Mplex]), Ok(MuxProtocol::Mplex));
    assert_eq!(
        negotiate_muxer(&ours, &vec![MuxProtocol::Mplex, MuxProtocol::Yamux]),
        Ok(MuxProtocol::Yamux)
    );
    assert_eq!(negotiate_muxer(&ours, &vec![]), Err(NodeError::MultiplexNegotiation));
}

#[test]
fn handshake_is_judged_strictly() {
    let p = PeerId { digest: 8 };
    let q = PeerId { digest: 9 };
    assert_eq!(handshake_outcome(true, true, Some(p), None), Ok(p));
    assert_eq!(handshake_outcome(true, true, Some(p), Some(p)), Ok(p));
    assert_eq!(handshake_outcome(true, true, Some(p), Some(q)), Err(NodeError::Handshake));
    assert_eq!(handshake_outcome(false, true, Some(p), None), Err(NodeError::Handshake));
    assert_eq!(handshake_outcome(true, false, Some(p), None), Err(NodeError::Handshake));
    assert_eq!(handshake_outcome(true, true, None, None), Err(NodeError::Handshake));
}

#[test]
fn frames_round_trip_through_the_codec() {
    let sub = Frame::Subscribe(b"rnges.us".to_vec());
    let bytes = encode_frame(&sub);
    assert_eq!(bytes[0], 1);
    match decode_frame(&bytes).unwrap() {
        Frame::Subscribe(t) => assert_eq!(t, b"rnges.us".to_vec()),
        _ => panic!("a subscribe frame must decode as one"),
    }
    let data = Frame::Data { topic: b"rnges.us".to_vec(), payload: b"hello".to_vec() };
    let bytes = encode_frame(&data);
    assert_eq!(bytes[0], 5);
    match decode_frame(&bytes).unwrap() {
        Frame::Data { topic, payload } => {
            assert_eq!(topic, b"rnges.us".to_vec());
            assert_eq!(payload, b"hello".to_vec());
        },
        _ => panic!("a data frame must decode as one"),
    }
    for (mk, tag) in [
        (Frame::Unsubscribe(b"t".to_vec()), 2u8),
        (Frame::Graft(b"t".to_vec()), 3u8),
        (Frame::Prune(b"t".to_vec()), 4u8),
    ] {
        let bytes = encode_frame(&mk);
        assert_eq!(bytes[0], tag);
        assert!(decode_frame(&bytes).is_ok());
    }
}

#[test]
fn malformed_frames_are_per_peer_errors() {
    assert_eq!(decode_frame(&vec![]).err(), Some(NodeError::PerPeerProtocol));
    assert_eq!(decode_frame(&vec![1, 0]).err(), Some(NodeError::PerPeerProtocol));
    // unknown tag
    assert_eq!(decode_frame(&vec![6, 0, 0]).err(), Some(NodeError::PerPeerProtocol));
    // control frame with trailing bytes
    assert_eq!(decode_frame(&vec![1, 0, 0, 42]).err(), Some(NodeError::PerPeerProtocol));
    // topic length running past the end
    assert_eq!(decode_frame(&vec![5, 0, 4, 1, 2]).err(), Some(NodeError::PerPeerProtocol));
}

#[test]
fn identity_derives_a_stable_peer_digest() {
    let id = LocalIdentity::generate();
    assert!(id.public_protobuf.len() > 0);
    assert!(id.label.len() > 0);
    // the overlay identifier is the digest of the stored public key bytes
    let recomputed = gossipnet::gossip::hash_bytes(&id.public_protobuf);
    assert_eq!(id.peer.digest, recomputed);
    // two nodes draw different keys (with overwhelming probability)
    let other = LocalIdentity::generate();
    assert_ne!(id.peer, other.peer);
}
