use vstd::prelude::*;

use crate::gossip::{bytes_digest, hash_bytes, PeerId};

verus! {

#[verifier::external_type_specification]
#[verifier::external_body]
pub struct ExKeypair(libp2p::identity::Keypair);

#[verifier::external_type_specification]
#[verifier::external_body]
pub struct ExPublicKey(libp2p::identity::PublicKey);

/// Relies on libp2p::identity::Keypair::generate_ed25519: a freshly drawn
/// Ed25519 keypair. The draw is random, so nothing is claimed of the value.
#[verifier::external_body]
fn generate_ed25519() -> (r: libp2p::identity::Keypair) {
    libp2p::identity::Keypair::generate_ed25519()
}

/// Relies on libp2p::identity::Keypair::public: the public half of the
/// keypair. The keypair is opaque here, so nothing is claimed of the value.
#[verifier::external_body]
fn public_of(k: &libp2p::identity::Keypair) -> (r: libp2p::identity::PublicKey) {
    k.public()
}

/// Relies on libp2p::identity::PublicKey::encode_protobuf: the key's
/// protobuf encoding, the bytes peer identifiers are derived from.
#[verifier::external_body]
fn encode_public(k: &libp2p::identity::PublicKey) -> (r: Vec<u8>) {
    k.encode_protobuf()
}

/// Relies on libp2p's peer identifier derivation: `from_public_key` (a
/// multihash of the encoded key) followed by `to_base58`, which converts
/// the identifier to its text for the operator.
#[verifier::external_body]
fn peer_label_of(k: &libp2p::identity::PublicKey) -> (r: String) {
    libp2p::identity::PeerId::from_public_key(k).to_base58()
}

/// The node's identity: the keypair (the private half never leaves this
/// process), the encoded public key, the fixed-size digest of it the
/// overlay uses as the local `PeerId`, and the base58 label shown to the
/// operator.
pub struct LocalIdentity {
    pub keypair: libp2p::identity::Keypair,
    pub public_protobuf: Vec<u8>,
    pub peer: PeerId,
    pub label: String,
}

impl LocalIdentity {
    /// The overlay peer identifier is exactly the digest of the stored
    /// public key bytes.
    pub open spec fn wf(self) -> bool {
        self.peer.digest == bytes_digest(self.public_protobuf@)
    }

    /// Create the process identity once at startup: generate an Ed25519
    /// keypair and derive the stable peer identifier from its public key.
    /// The keypair is random, so only the derivation is promised.
    pub fn generate() -> (r: LocalIdentity)
        ensures
            r.wf(),
    {
        let keypair = generate_ed25519();
        let public = public_of(&keypair);
        let public_protobuf = encode_public(&public);
        let digest = hash_bytes(&public_protobuf);
        let label = peer_label_of(&public);
        LocalIdentity { keypair, public_protobuf, peer: PeerId { digest }, label }
    }
}

} // verus!
