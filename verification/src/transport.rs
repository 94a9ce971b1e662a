use vstd::prelude::*;

use crate::address::{Host, Multiaddr};
use crate::errors::NodeError;

verus! {

/// How long a connection may take to finish the whole transport, security
/// and multiplexer upgrade chain, in milliseconds.
pub const UPGRADE_TIMEOUT_MS: u64 = 20000;

/// One way the composed transport can carry a connection: the injected
/// external transport (hosted environments without raw sockets, WebSocket
/// framing only), the native stream transport, or the native transport with
/// WebSocket framing on top.
#[derive(Clone, Copy, Debug, PartialEq, Eq, Structural)]
pub enum Candidate {
    Injected,
    NativeStream,
    NativeStreamWithFraming,
}

/// The transport composer: which candidates were configured. An injected
/// transport is one candidate; a platform with native sockets adds the
/// native ones. Candidates are routed by address scheme in a fixed declared
/// order — injected first — never by trying and retrying.
pub struct Composer {
    pub injected: bool,
    pub native: bool,
}

impl Candidate {
    /// Whether a candidate's scheme covers an address. The injected
    /// transport dials WebSocket addresses only; the native stream
    /// transport covers plain TCP; framing on top covers TCP+WebSocket.
    pub open spec fn matches(self, a: Multiaddr) -> bool {
        match self {
            Candidate::Injected => a.wants_framing(),
            Candidate::NativeStream => !a.wants_framing(),
            Candidate::NativeStreamWithFraming => a.wants_framing(),
        }
    }
}

impl Composer {
    /// The candidate a dial of `a` uses: the first configured candidate, in
    /// declared order, whose scheme matches `a`.
    pub open spec fn selected(self, a: Multiaddr) -> Option<Candidate> {
        if self.injected && Candidate::Injected.matches(a) {
            Some(Candidate::Injected)
        } else if self.native && Candidate::NativeStreamWithFraming.matches(a) {
            Some(Candidate::NativeStreamWithFraming)
        } else if self.native && Candidate::NativeStream.matches(a) {
            Some(Candidate::NativeStream)
        } else {
            None
        }
    }

    /// Route a dial to a transport candidate by address scheme. No
    /// configured candidate covering the scheme is a recoverable
    /// `TransportDial` error: the dial is reported and the node carries on.
    pub fn select_candidate(&self, a: &Multiaddr) -> (r: Result<Candidate, NodeError>)
        ensures
            match r {
                Ok(c) => self.selected(*a) == Some(c),
                Err(e) => self.selected(*a) is None && e == NodeError::TransportDial,
            },
    {
        if self.injected && a.ws {
            Ok(Candidate::Injected)
        } else if self.native && a.ws {
            Ok(Candidate::NativeStreamWithFraming)
        } else if self.native && !a.ws {
            Ok(Candidate::NativeStream)
        } else {
            Err(NodeError::TransportDial)
        }
    }

    /// Listening is supported only where native sockets are: on an
    /// injected-only (hosted) composer `listen` is a no-op, not an error,
    /// since such nodes are dial-only.
    pub fn can_listen(&self) -> (r: bool)
        ensures
            r == self.native,
    {
        self.native
    }
}

/// Fallback ordering: a plain TCP address on a platform with native sockets
/// dials through the native stream candidate, never through the injected
/// transport, even when both are configured.
pub proof fn lemma_native_tcp_not_injected(c: Composer, a: Multiaddr)
    requires
        c.native,
        !a.wants_framing(),
    ensures
        c.selected(a) == Some(Candidate::NativeStream),
        c.selected(a) != Some(Candidate::Injected),
{
}

/// Resolution fallback: a DNS address whose name resolved is rewritten to
/// the resolved literal address; a failed resolution keeps the original
/// address and dials on (it must not abort the dial), so literal addresses
/// still work without DNS.
pub fn apply_resolution(a: Multiaddr, resolved: Option<(u8, u8, u8, u8)>) -> (r: Multiaddr)
    ensures
        a.is_dns() ==> match resolved {
            Some(ip) => r == (Multiaddr {
                host: Host::Ip4(ip.0, ip.1, ip.2, ip.3),
                port: a.port,
                ws: a.ws,
            }),
            None => r == a,
        },
        !a.is_dns() ==> r == a,
        r.port == a.port && r.ws == a.ws,
{
    let dns = match &a.host {
        Host::Dns4(_) => true,
        Host::Ip4(_, _, _, _) => false,
    };
    if dns {
        match resolved {
            Some(ip) => Multiaddr {
                host: Host::Ip4(ip.0, ip.1, ip.2, ip.3),
                port: a.port,
                ws: a.ws,
            },
            None => a,
        }
    } else {
        a
    }
}

/// Timeout enforcement: whether an upgrade chain begun at `started` and not
/// yet complete must be abandoned at `now`. An attempt is abandoned and
/// reported as `UpgradeTimeout` exactly when the deadline has passed; it is
/// never left pending beyond it.
pub fn upgrade_deadline(started: u64, now: u64, complete: bool) -> (r: Option<NodeError>)
    requires
        started <= now,
    ensures
        r == (if !complete && now - started >= UPGRADE_TIMEOUT_MS {
            Some(NodeError::UpgradeTimeout)
        } else {
            None::<NodeError>
        }),
{
    if !complete && now - started >= UPGRADE_TIMEOUT_MS {
        Some(NodeError::UpgradeTimeout)
    } else {
        None
    }
}

/// A stream-multiplexing protocol the node can negotiate.
#[derive(Clone, Copy, Debug, PartialEq, Eq, Structural)]
pub enum MuxProtocol {
    Yamux,
    Mplex,
}

/// Negotiate the stream multiplexer for a secured connection: the first of
/// our preferences the remote side also supports. No common protocol drops
/// the connection with `MultiplexNegotiation`.
#[verifier::loop_isolation(false)]
pub fn negotiate_muxer(ours: &Vec<MuxProtocol>, theirs: &Vec<MuxProtocol>) -> (r: Result<
    MuxProtocol,
    NodeError,
>)
    ensures
        match r {
            Ok(m) => exists|i: int|
                0 <= i < ours@.len() && ours@[i] == m && theirs@.contains(m) && (forall|j: int|
                    0 <= j < i ==> !theirs@.contains(#[trigger] ours@[j])),
            Err(e) => e == NodeError::MultiplexNegotiation && (forall|j: int|
                0 <= j < ours@.len() ==> !theirs@.contains(#[trigger] ours@[j])),
        },
{
    let mut i: usize = 0;
    while i < ours.len()
        invariant
            0 <= i <= ours@.len(),
            forall|j: int| 0 <= j < i ==> !theirs@.contains(#[trigger] ours@[j]),
        decreases ours@.len() - i,
    {
        let cand = ours[i];
        let mut k: usize = 0;
        while k < theirs.len()
            invariant
                0 <= k <= theirs@.len(),
                forall|j: int| 0 <= j < k ==> theirs@[j] != cand,
            decreases theirs@.len() - k,
        {
            let same = match (theirs[k], cand) {
                (MuxProtocol::Yamux, MuxProtocol::Yamux) => true,
                (MuxProtocol::Mplex, MuxProtocol::Mplex) => true,
                _ => false,
            };
            if same {
                proof {
                    assert(theirs@[k as int] == cand);
                    assert(theirs@.contains(cand));
                    assert((i as int) < ours@.len() && ours@[i as int] == cand);
                }
                return Ok(cand);
            }
            k += 1;
        }
        i += 1;
    }
    Err(NodeError::MultiplexNegotiation)
}

/// Judge a finished authenticated key exchange. `proven` is the remote
/// identity the handshake proved, if it completed with well-formed
/// messages; `expected` is the dialled peer's known identity, if any. The
/// connection is accepted exactly when the exchange completed, its messages
/// were well formed, an identity was proven, and it matches any expected
/// one; everything else is a `Handshake` error and the connection is
/// dropped, the peer never joining a mesh.
pub fn handshake_outcome(
    completed: bool,
    wellformed: bool,
    proven: Option<crate::gossip::PeerId>,
    expected: Option<crate::gossip::PeerId>,
) -> (r: Result<crate::gossip::PeerId, NodeError>)
    ensures
        match r {
            Ok(p) => completed && wellformed && proven == Some(p) && (expected is None || expected
                == Some(p)),
            Err(e) => e == NodeError::Handshake && (!completed || !wellformed || proven is None
                || (expected is Some && proven != expected)),
        },
{
    if !completed || !wellformed {
        return Err(NodeError::Handshake);
    }
    match proven {
        None => Err(NodeError::Handshake),
        Some(p) => {
            match expected {
                None => Ok(p),
                Some(e) => {
                    if e.digest == p.digest {
                        Ok(p)
                    } else {
                        Err(NodeError::Handshake)
                    }
                },
            }
        },
    }
}

} // verus!
