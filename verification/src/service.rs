use vstd::prelude::*;

use crate::address::{is_address_text, parse_multiaddr, render, Multiaddr};
use crate::codec::{decode_frame, frame_bytes_wf, lemma_wire_fields, wire_payload, wire_topic, Frame};
use crate::errors::NodeError;
use crate::gossip::{contains_name, copy_bytes, names_of, Delivery, Overlay, PeerId};
use crate::transport::{Candidate, Composer};

verus! {

/// The three phases of one poll-loop tick, in their fixed priority order:
/// drain local input, drain the overlay events that are ready now, then do
/// housekeeping (heartbeat, listener reporting) — and yield.
#[derive(Clone, Copy, Debug, PartialEq, Eq, Structural)]
pub enum StepKind {
    LocalInput,
    OverlayEvents,
    Housekeeping,
}

/// The fixed order of one tick. The ordering is a contract of the loop,
/// not an accident of code order: local input first, then ready network
/// events, then housekeeping.
pub fn tick_plan() -> (plan: Vec<StepKind>)
    ensures
        plan@ == seq![StepKind::LocalInput, StepKind::OverlayEvents, StepKind::Housekeeping],
{
    let mut plan: Vec<StepKind> = Vec::new();
    plan.push(StepKind::LocalInput);
    plan.push(StepKind::OverlayEvents);
    plan.push(StepKind::Housekeeping);
    proof {
        assert(plan@ =~= seq![
            StepKind::LocalInput,
            StepKind::OverlayEvents,
            StepKind::Housekeeping,
        ]);
    }
    plan
}

/// The interval between two heartbeats: mesh upkeep runs every ten
/// seconds.
pub const HEARTBEAT_INTERVAL_MS: u64 = 10000;

/// Whether the periodic mesh upkeep is due: exactly when a full interval
/// has passed since the last heartbeat. The loop performs the tick; when
/// it runs is decided here.
pub fn heartbeat_due(last: u64, now: u64) -> (r: bool)
    requires
        last <= now,
    ensures
        r == (now - last >= HEARTBEAT_INTERVAL_MS),
{
    now - last >= HEARTBEAT_INTERVAL_MS
}

/// What the loss of the local input channel means: fatal exactly in
/// interactive mode, where the process has lost its control channel; a
/// hosted deployment has no local input and carries on.
pub fn on_input_closed(interactive: bool) -> (r: Option<NodeError>)
    ensures
        r == (if interactive {
            Some(NodeError::FatalInput)
        } else {
            None::<NodeError>
        }),
{
    if interactive {
        Some(NodeError::FatalInput)
    } else {
        None
    }
}

/// What one inbound frame did to the node.
pub enum FrameOutcome {
    /// A control frame: whether its sender was a known peer (an unknown
    /// sender's control traffic is ignored).
    Control(bool),
    /// A data frame, with its delivery record.
    Delivered(Delivery),
}

/// The state one node drives through the poll loop: its overlay, its
/// transport composer, the listening addresses already announced, and
/// whether an operator's input channel exists.
pub struct Service {
    pub overlay: Overlay,
    pub composer: Composer,
    pub reported: Vec<Vec<u8>>,
    pub interactive: bool,
}

impl Service {
    pub open spec fn wf(self) -> bool {
        self.overlay.wf()
    }

    /// A fresh node around a freshly derived identity, subscribed to the
    /// default topic it will publish operator lines on.
    pub fn new(
        local: PeerId,
        composer: Composer,
        interactive: bool,
        default_topic: Vec<u8>,
        horizon: u64,
    ) -> (r: Service)
        ensures
            r.wf(),
            r.overlay.local == local,
            r.overlay.subscribed(default_topic@),
            r.overlay.mesh_of(default_topic@) == Seq::<PeerId>::empty(),
            r.overlay.peers@.len() == 0,
            r.overlay.seen.horizon_spec() == horizon,
            r.composer == composer,
            r.reported@.len() == 0,
            r.interactive == interactive,
    {
        let mut overlay = Overlay::new(local, horizon);
        overlay.subscribe(default_topic);
        Service { overlay, composer, reported: Vec::new(), interactive }
    }

    /// Work out how a dial target is reached: parse the operator's text,
    /// then route it to a transport candidate by scheme. `AddressParse`
    /// comes exactly on a text that is no well-formed address's canonical
    /// form, `TransportDial` exactly when the text names an address whose
    /// scheme no configured candidate covers; both are reported and the
    /// node carries on.
    pub fn dial_plan(&self, text: &Vec<u8>) -> (r: Result<(Multiaddr, Candidate), NodeError>)
        ensures
            match r {
                Ok(p) => p.0.wf() && render(p.0) == text@ && self.composer.selected(p.0) == Some(
                    p.1,
                ),
                Err(e) => {
                    ||| (e == NodeError::AddressParse && !is_address_text(text@))
                    ||| (e == NodeError::TransportDial && exists|a: Multiaddr|
                        a.wf() && render(a) == text@ && (#[trigger] self.composer.selected(
                            a,
                        )) is None)
                },
            },
    {
        match parse_multiaddr(text) {
            Ok(addr) => {
                match self.composer.select_candidate(&addr) {
                    Ok(c) => Ok((addr, c)),
                    Err(e) => {
                        proof {
                            assert(addr.wf() && render(addr) == text@ && self.composer.selected(
                                addr,
                            ) is None);
                        }
                        Err(e)
                    },
                }
            },
            Err(e) => Err(e),
        }
    }

    /// Report newly active listening addresses, each exactly once over the
    /// node's lifetime: the returned addresses are those never announced
    /// before, and they join the announced set.
    #[verifier::loop_isolation(false)]
    pub fn report_listeners(&mut self, addrs: &Vec<Vec<u8>>) -> (fresh: Vec<Vec<u8>>)
        ensures
            final(self).overlay == old(self).overlay,
            final(self).composer == old(self).composer,
            final(self).interactive == old(self).interactive,
            names_of(final(self).reported@) == names_of(old(self).reported@) + names_of(fresh@),
            forall|m: Seq<u8>|
                names_of(fresh@).contains(m) ==> !names_of(old(self).reported@).contains(m)
                    && names_of(addrs@).contains(m),
            forall|m: Seq<u8>|
                names_of(addrs@).contains(m) ==> names_of(final(self).reported@).contains(m),
            forall|a: int, b: int|
                0 <= a < b < fresh@.len() ==> fresh@[a]@ != fresh@[b]@,
    {
        let ghost pre = *self;
        let mut fresh: Vec<Vec<u8>> = Vec::new();
        let mut i: usize = 0;
        while i < addrs.len()
            invariant
                0 <= i <= addrs@.len(),
                self.overlay == pre.overlay,
                self.composer == pre.composer,
                self.interactive == pre.interactive,
                names_of(self.reported@) == names_of(pre.reported@) + names_of(fresh@),
                forall|m: Seq<u8>|
                    names_of(fresh@).contains(m) ==> !names_of(pre.reported@).contains(m),
                forall|k: int|
                    0 <= k < i ==> names_of(self.reported@).contains(#[trigger] addrs@[k]@),
                forall|m: Seq<u8>|
                    names_of(fresh@).contains(m) ==> exists|k: int|
                        0 <= k < i && #[trigger] addrs@[k]@ == m,
                forall|a: int, b: int| 0 <= a < b < fresh@.len() ==> fresh@[a]@ != fresh@[b]@,
            decreases addrs@.len() - i,
        {
            if !contains_name(&self.reported, &addrs[i]) {
                let ghost fresh0 = fresh@;
                let ghost rep0 = self.reported@;
                let ghost x = addrs@[i as int]@;
                proof {
                    lemma_names_concat(names_of(pre.reported@), names_of(fresh0), x);
                    assert(!names_of(pre.reported@).contains(x) && !names_of(fresh0).contains(x));
                }
                fresh.push(copy_bytes(&addrs[i]));
                self.reported.push(copy_bytes(&addrs[i]));
                proof {
                    assert(names_of(fresh@) =~= names_of(fresh0).push(x));
                    assert(names_of(self.reported@) =~= names_of(rep0).push(x));
                    assert(names_of(self.reported@) =~= names_of(pre.reported@) + names_of(
                        fresh@,
                    ));
                    assert forall|m: Seq<u8>| names_of(fresh@).contains(m) implies !names_of(
                        pre.reported@,
                    ).contains(m) by {
                        let k = choose|k: int|
                            0 <= k < names_of(fresh@).len() && names_of(fresh@)[k] == m;
                        if k < names_of(fresh0).len() {
                            assert(names_of(fresh0).contains(m));
                        }
                    }
                    assert forall|m: Seq<u8>| names_of(fresh@).contains(m) implies exists|k: int|
                        0 <= k < i + 1 && #[trigger] addrs@[k]@ == m by {
                        let k = choose|k: int|
                            0 <= k < names_of(fresh@).len() && names_of(fresh@)[k] == m;
                        if k < names_of(fresh0).len() {
                            assert(names_of(fresh0).contains(m));
                        } else {
                            assert(addrs@[i as int]@ == m);
                        }
                    }
                    assert forall|a: int, b: int| 0 <= a < b < fresh@.len() implies fresh@[a]@
                        != fresh@[b]@ by {
                        if b == fresh@.len() - 1 {
                            assert(names_of(fresh0)[a] == fresh@[a]@);
                            assert(names_of(fresh0).contains(fresh@[a]@));
                        } else {
                            assert(fresh0[a]@ != fresh0[b]@);
                        }
                    }
                    assert forall|k: int| 0 <= k < i + 1 implies names_of(
                        self.reported@,
                    ).contains(#[trigger] addrs@[k]@) by {
                        if k < i {
                            assert(names_of(rep0).contains(addrs@[k]@));
                            let j = choose|j: int|
                                0 <= j < names_of(rep0).len() && names_of(rep0)[j] == addrs@[k]@;
                            assert(names_of(self.reported@)[j] == addrs@[k]@);
                        } else {
                            assert(names_of(self.reported@).last() == x);
                        }
                    }
                }
            }
            i += 1;
        }
        proof {
            assert forall|m: Seq<u8>| names_of(addrs@).contains(m) implies names_of(
                self.reported@,
            ).contains(m) by {
                let k = choose|k: int| 0 <= k < names_of(addrs@).len() && names_of(addrs@)[k] == m;
                assert(names_of(self.reported@).contains(addrs@[k]@));
            }
            assert forall|m: Seq<u8>| names_of(fresh@).contains(m) implies names_of(
                addrs@,
            ).contains(m) by {
                let k = choose|k: int| 0 <= k < i && addrs@[k]@ == m;
                assert(names_of(addrs@)[k] == m);
            }
        }
        fresh
    }

    /// Take one frame from peer `from`'s control stream and apply it to
    /// the overlay. Malformed bytes are the per-peer `PerPeerProtocol`
    /// error: the message is dropped, the node's state is untouched and no
    /// other peer is affected. Subscription and graft frames record the
    /// sender's interest, unsubscription and prune frames withdraw it, and
    /// a data frame goes through duplicate suppression and forwarding,
    /// never echoing to `from`.
    pub fn handle_frame(&mut self, from: PeerId, bytes: &Vec<u8>, now: u64) -> (r: Result<
        FrameOutcome,
        NodeError,
    >)
        requires
            old(self).wf(),
            now <= u64::MAX - old(self).overlay.seen.horizon_spec(),
        ensures
            final(self).wf(),
            final(self).composer == old(self).composer,
            final(self).reported == old(self).reported,
            final(self).interactive == old(self).interactive,
            final(self).overlay.local == old(self).overlay.local,
            final(self).overlay.topic_names() == old(self).overlay.topic_names(),
            match r {
                Err(e) => e == NodeError::PerPeerProtocol && !frame_bytes_wf(bytes@)
                    && *final(self) == *old(self),
                Ok(out) => frame_bytes_wf(bytes@) && match out {
                    FrameOutcome::Control(known) => {
                        &&& bytes@[0] != 5
                        &&& known == old(self).overlay.connected(from)
                        &&& final(self).overlay.topics == old(self).overlay.topics
                        &&& final(self).overlay.seen == old(self).overlay.seen
                        &&& forall|q: PeerId|
                            final(self).overlay.connected(q) == old(self).overlay.connected(q)
                        &&& (!known ==> *final(self) == *old(self))
                        &&& (known ==> final(self).overlay.interested(from, wire_topic(bytes@))
                            == (bytes@[0] == 1 || bytes@[0] == 3))
                        &&& (known ==> forall|m: Seq<u8>|
                            m != wire_topic(bytes@) ==> final(self).overlay.interested(from, m)
                                == old(self).overlay.interested(from, m))
                        &&& forall|q: PeerId|
                            q != from ==> final(self).overlay.interests_of(q) == old(
                                self,
                            ).overlay.interests_of(q)
                    },
                    FrameOutcome::Delivered(d) => {
                        &&& bytes@[0] == 5
                        &&& d.id == crate::gossip::payload_id(wire_payload(bytes@))
                        &&& d.fresh == !old(self).overlay.seen.seen(d.id, now)
                        &&& !d.forwards@.contains(from)
                        &&& (!d.fresh ==> *final(self) == *old(self) && d.forwards@.len() == 0)
                        &&& (d.fresh ==> {
                            &&& final(self).overlay.peers == old(self).overlay.peers
                            &&& final(self).overlay.topics == old(self).overlay.topics
                            &&& final(self).overlay.seen.horizon_spec() == old(
                                self,
                            ).overlay.seen.horizon_spec()
                            &&& final(self).overlay.seen.entries_spec() == old(
                                self,
                            ).overlay.seen.entries_spec().insert(
                                d.id,
                                (now + old(self).overlay.seen.horizon_spec()) as u64,
                            )
                            &&& d.forwards@ == old(self).overlay.mesh_of(
                                wire_topic(bytes@),
                            ).filter(|q: PeerId| q != from)
                        })
                    },
                },
            },
    {
        match decode_frame(bytes) {
            Err(e) => Err(e),
            Ok(frame) => {
                proof {
                    lemma_wire_fields(frame, bytes@);
                }
                match frame {
                    Frame::Subscribe(t) => {
                        proof {
                            assert(t@ == wire_topic(bytes@));
                        }
                        let known = self.overlay.set_peer_interest(from, &t, true);
                        Ok(FrameOutcome::Control(known))
                    },
                    Frame::Graft(t) => {
                        proof {
                            assert(t@ == wire_topic(bytes@));
                        }
                        let known = self.overlay.set_peer_interest(from, &t, true);
                        Ok(FrameOutcome::Control(known))
                    },
                    Frame::Unsubscribe(t) => {
                        proof {
                            assert(t@ == wire_topic(bytes@));
                        }
                        let known = self.overlay.set_peer_interest(from, &t, false);
                        Ok(FrameOutcome::Control(known))
                    },
                    Frame::Prune(t) => {
                        proof {
                            assert(t@ == wire_topic(bytes@));
                        }
                        let known = self.overlay.set_peer_interest(from, &t, false);
                        Ok(FrameOutcome::Control(known))
                    },
                    Frame::Data { topic, payload } => {
                        proof {
                            assert(topic@ == wire_topic(bytes@));
                            assert(payload@ == wire_payload(bytes@));
                        }
                        let d = self.overlay.on_inbound_message(from, &topic, &payload, now);
                        Ok(FrameOutcome::Delivered(d))
                    },
                }
            },
        }
    }
}

/// Membership in a concatenation is membership in one of its parts.
pub proof fn lemma_names_concat(a: Seq<Seq<u8>>, b: Seq<Seq<u8>>, m: Seq<u8>)
    ensures
        (a + b).contains(m) == (a.contains(m) || b.contains(m)),
{
    if (a + b).contains(m) {
        let k = choose|k: int| 0 <= k < (a + b).len() && (a + b)[k] == m;
        if k < a.len() {
            assert(a[k] == m);
        } else {
            assert(b[k - a.len()] == m);
        }
    }
    if a.contains(m) {
        let k = choose|k: int| 0 <= k < a.len() && a[k] == m;
        assert((a + b)[k] == m);
    }
    if b.contains(m) {
        let k = choose|k: int| 0 <= k < b.len() && b[k] == m;
        assert((a + b)[a.len() + k] == m);
    }
}

/// Exactly-once listener reporting: an address announced by one call is in
/// the announced set afterwards, and a later call never announces a member
/// of that set again.
pub proof fn lemma_report_once(r0: Seq<Seq<u8>>, f1: Seq<Seq<u8>>, r1: Seq<Seq<u8>>, f2: Seq<
    Seq<u8>,
>, m: Seq<u8>)
    requires
        r1 == r0 + f1,
        forall|x: Seq<u8>| f2.contains(x) ==> !r1.contains(x),
        f1.contains(m),
    ensures
        r1.contains(m),
        !f2.contains(m),
{
    lemma_names_concat(r0, f1, m);
}

} // verus!
