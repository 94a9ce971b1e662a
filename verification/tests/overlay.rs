use gossipnet::errors::NodeError;
use gossipnet::gossip::{message_id, Overlay, PeerId};
use gossipnet::service::{heartbeat_due, on_input_closed, tick_plan, FrameOutcome, Service, StepKind};
use gossipnet::transport::Composer;

fn topic(s: &str) -> Vec<u8> {
    s.as_bytes().to_vec()
}

fn service_with_peer() -> (Service, PeerId) {
    let local = PeerId { digest: 1 };
    let peer = PeerId { digest: 2 };
    let composer = Composer { injected: false, native: true };
    let mut svc = Service::new(local, composer, true, topic("rnges.us"), 1000);
    assert!(svc.overlay.peer_connected(peer));
    (svc, peer)
}

#[test]
fn message_id_is_deterministic() {
    let p1 = b"hello gossip".to_vec();
    let p2 = b"hello gossip".to_vec();
    assert_eq!(message_id(&p1), message_id(&p2));
}

#[test]
fn message_id_separates_different_payloads() {
    let p1 = b"payload one".to_vec();
    let p2 = b"payload two".to_vec();
    assert_ne!(message_id(&p1), message_id(&p2));
}

#[test]
fn publish_twice_forwards_once() {
    let (mut svc, peer) = service_with_peer();
    // the peer announces interest and a heartbeat grafts it into the mesh
    assert!(svc.overlay.set_peer_interest(peer, &topic("rnges.us"), true));
    svc.overlay.heartbeat();
    let payload = b"a line".to_vec();
    let first = svc.overlay.publish(&topic("rnges.us"), &payload, 10);
    assert!(first.fresh);
    assert_eq!(first.forwards.len(), 1);
    assert_eq!(first.forwards[0], peer);
    let second = svc.overlay.publish(&topic("rnges.us"), &payload, 20);
    assert!(!second.fresh);
    assert_eq!(second.forwards.len(), 0);
    assert_eq!(first.id, second.id);
}

#[test]
fn inbound_duplicate_is_delivered_once() {
    let (mut svc, peer) = service_with_peer();
    let payload = b"gossiped".to_vec();
    let first = svc.overlay.on_inbound_message(peer, &topic("rnges.us"), &payload, 0);
    assert!(first.fresh);
    let second = svc.overlay.on_inbound_message(peer, &topic("rnges.us"), &payload, 1);
    assert!(!second.fresh);
    assert_eq!(second.forwards.len(), 0);
}

#[test]
fn seen_entries_expire_after_horizon() {
    let (mut svc, _) = service_with_peer();
    let payload = b"short memory".to_vec();
    let first = svc.overlay.publish(&topic("rnges.us"), &payload, 0);
    assert!(first.fresh);
    // inside the 1000-tick horizon: suppressed
    let again = svc.overlay.publish(&topic("rnges.us"), &payload, 999);
    assert!(!again.fresh);
    // past the horizon: fresh again
    let later = svc.overlay.publish(&topic("rnges.us"), &payload, 1000);
    assert!(later.fresh);
}

#[test]
fn no_echo_to_the_sender() {
    let local = PeerId { digest: 1 };
    let sender = PeerId { digest: 2 };
    let other = PeerId { digest: 3 };
    let mut overlay = Overlay::new(local, 1000);
    overlay.subscribe(topic("T"));
    assert!(overlay.peer_connected(sender));
    assert!(overlay.peer_connected(other));
    assert!(overlay.set_peer_interest(sender, &topic("T"), true));
    assert!(overlay.set_peer_interest(other, &topic("T"), true));
    overlay.heartbeat();
    let d = overlay.on_inbound_message(sender, &topic("T"), &b"m".to_vec(), 0);
    assert!(d.fresh);
    assert_eq!(d.forwards, vec![other]);
    assert!(!d.forwards.contains(&sender));
}

#[test]
fn subscription_starts_with_empty_mesh() {
    let local = PeerId { digest: 9 };
    let mut overlay = Overlay::new(local, 1000);
    let announce = overlay.subscribe(topic("T"));
    // zero connected peers: nobody to announce to, nothing in the mesh
    assert_eq!(announce.len(), 0);
    let deltas = overlay.heartbeat();
    assert_eq!(deltas.len(), 1);
    assert_eq!(deltas[0].topic, topic("T"));
    assert_eq!(deltas[0].grafts.len(), 0);
    assert_eq!(deltas[0].prunes.len(), 0);
    let d = overlay.publish(&topic("T"), &b"x".to_vec(), 0);
    assert!(d.fresh);
    assert_eq!(d.forwards.len(), 0);
}

#[test]
fn heartbeat_grafts_announced_peer() {
    let (mut svc, peer) = service_with_peer();
    // the peer announces its subscription before the next heartbeat
    assert!(svc.overlay.set_peer_interest(peer, &topic("rnges.us"), true));
    let deltas = svc.overlay.heartbeat();
    assert_eq!(deltas.len(), 1);
    assert_eq!(deltas[0].grafts, vec![peer]);
    assert_eq!(deltas[0].prunes.len(), 0);
    // after exactly one heartbeat the mesh pushes to that peer
    let d = svc.overlay.publish(&topic("rnges.us"), &b"m".to_vec(), 0);
    assert_eq!(d.forwards, vec![peer]);
    // a second heartbeat changes nothing
    let deltas2 = svc.overlay.heartbeat();
    assert_eq!(deltas2[0].grafts.len(), 0);
    assert_eq!(deltas2[0].prunes.len(), 0);
}

#[test]
fn disconnect_prunes_the_mesh() {
    let (mut svc, peer) = service_with_peer();
    assert!(svc.overlay.set_peer_interest(peer, &topic("rnges.us"), true));
    svc.overlay.heartbeat();
    svc.overlay.peer_disconnected(peer);
    let d = svc.overlay.publish(&topic("rnges.us"), &b"m".to_vec(), 0);
    assert!(d.fresh);
    assert_eq!(d.forwards.len(), 0);
}

#[test]
fn unsubscribe_clears_the_topic() {
    let (mut svc, peer) = service_with_peer();
    assert!(svc.overlay.set_peer_interest(peer, &topic("rnges.us"), true));
    svc.overlay.heartbeat();
    assert!(svc.overlay.unsubscribe(&topic("rnges.us")));
    assert!(!svc.overlay.unsubscribe(&topic("rnges.us")));
    let d = svc.overlay.publish(&topic("rnges.us"), &b"m".to_vec(), 0);
    assert_eq!(d.forwards.len(), 0);
}

#[test]
fn subscribe_announces_to_connected_peers() {
    let (mut svc, peer) = service_with_peer();
    let announce = svc.overlay.subscribe(topic("extra"));
    assert_eq!(announce, vec![peer]);
    // repeated subscription announces to nobody
    let again = svc.overlay.subscribe(topic("extra"));
    assert_eq!(again.len(), 0);
}

#[test]
fn tick_order_is_input_then_network_then_housekeeping() {
    let plan = tick_plan();
    assert_eq!(
        plan,
        vec![StepKind::LocalInput, StepKind::OverlayEvents, StepKind::Housekeeping]
    );
}

#[test]
fn input_loss_is_fatal_only_interactively() {
    assert_eq!(on_input_closed(true), Some(NodeError::FatalInput));
    assert_eq!(on_input_closed(false), None);
    assert!(NodeError::FatalInput.is_fatal());
    assert!(!NodeError::PerPeerProtocol.is_fatal());
}

#[test]
fn listeners_are_reported_exactly_once() {
    let (mut svc, _) = service_with_peer();
    let addrs = vec![b"/ip4/0.0.0.0/tcp/0/ws".to_vec(), b"/ip4/0.0.0.0/tcp/0/ws".to_vec()];
    let fresh = svc.report_listeners(&addrs);
    assert_eq!(fresh, vec![b"/ip4/0.0.0.0/tcp/0/ws".to_vec()]);
    let fresh2 = svc.report_listeners(&addrs);
    assert_eq!(fresh2.len(), 0);
}

#[test]
fn handle_frame_dispatches_and_isolates_errors() {
    let (mut svc, peer) = service_with_peer();
    // malformed bytes: a per-peer error, nothing else affected
    match svc.handle_frame(peer, &vec![9, 9], 0) {
        Err(e) => assert_eq!(e, NodeError::PerPeerProtocol),
        Ok(_) => panic!("malformed bytes must be refused"),
    }
    // a subscription announcement from a known peer
    let mut sub = vec![1u8, 0, 8];
    sub.extend_from_slice(b"rnges.us");
    match svc.handle_frame(peer, &sub, 0) {
        Ok(FrameOutcome::Control(known)) => assert!(known),
        _ => panic!("subscription frame must be a control outcome"),
    }
    // control traffic from an unknown peer is ignored
    let stranger = PeerId { digest: 77 };
    match svc.handle_frame(stranger, &sub, 0) {
        Ok(FrameOutcome::Control(known)) => assert!(!known),
        _ => panic!("subscription frame must be a control outcome"),
    }
    // a data frame goes through duplicate suppression
    svc.overlay.heartbeat();
    let mut data = vec![5u8, 0, 8];
    data.extend_from_slice(b"rnges.us");
    data.extend_from_slice(b"payload");
    match svc.handle_frame(peer, &data, 1) {
        Ok(FrameOutcome::Delivered(d)) => {
            assert!(d.fresh);
            assert!(!d.forwards.contains(&peer));
        },
        _ => panic!("data frame must be delivered"),
    }
    match svc.handle_frame(peer, &data, 2) {
        Ok(FrameOutcome::Delivered(d)) => assert!(!d.fresh),
        _ => panic!("data frame must be delivered"),
    }
}

#[test]
fn heartbeat_timing_is_decided_by_the_library() {
    assert!(!heartbeat_due(0, 9_999));
    assert!(heartbeat_due(0, 10_000));
    assert!(heartbeat_due(5, 10_006));
    assert!(!heartbeat_due(10_000, 19_999));
}

#[test]
fn pruning_evicts_only_expired_entries() {
    let (mut svc, _) = service_with_peer();
    let stale = b"early line".to_vec();
    let live = b"late line".to_vec();
    assert!(svc.overlay.publish(&topic("rnges.us"), &stale, 0).fresh);
    assert!(svc.overlay.publish(&topic("rnges.us"), &live, 900).fresh);
    // horizon is 1000: the first entry expired at 1000, the second lives to 1900
    svc.overlay.prune_seen(1500);
    assert!(!svc.overlay.publish(&topic("rnges.us"), &live, 1600).fresh);
    assert!(svc.overlay.publish(&topic("rnges.us"), &stale, 1600).fresh);
}
