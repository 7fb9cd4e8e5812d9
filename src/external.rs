use vstd::prelude::*;

use amplify::confinement::Confined;
use bp::ConsensusDecode;
use commit_verify::mpc;
use commit_verify::{CommitId, TryCommitVerify};
use std::collections::BTreeMap;

use crate::tx_bytes::input_count_fits;
use crate::types::{CloseMethod, ContractId, OpId};

verus! {

/// rgbstd's state transition, carried through unopened.
#[verifier::external_type_specification]
#[verifier::external_body]
pub struct ExTransition(rgbstd::Transition);

/// rgbstd's transition bundle, carried through unopened.
#[verifier::external_type_specification]
#[verifier::external_body]
pub struct ExTransitionBundle(rgbstd::TransitionBundle);

/// commit_verify's multi-protocol commitment tree, carried through unopened.
#[verifier::external_type_specification]
#[verifier::external_body]
pub struct ExMerkleTree(commit_verify::mpc::MerkleTree);

/// rgbstd's anchor set, carried through unopened.
#[verifier::external_type_specification]
#[verifier::external_body]
pub struct ExAnchorSet(rgbstd::containers::AnchorSet);

/// rgbstd's finished commitment, handed to the caller unopened.
#[verifier::external_type_specification]
#[verifier::external_body]
pub struct ExFascia(rgbstd::containers::Fascia);

/// bp's transaction, carried through unopened.
#[verifier::external_type_specification]
#[verifier::external_body]
pub struct ExTx(bp::Tx);

/// Relies on the derived `Clone` of rgbstd's `Transition`; nothing is
/// claimed of the copy.
pub assume_specification[ <rgbstd::Transition as Clone>::clone ](t: &rgbstd::Transition) -> rgbstd::Transition;

/// The identifier of a bundle with the given closing method and input map,
/// as (input index, operation id bytes) entries.
pub uninterp spec fn bundle_id_of(method: CloseMethod, input_map: Seq<(u32, Seq<u8>)>) -> Seq<u8>;

/// The root of the multi-protocol commitment tree of minimal depth 3 over
/// the given (protocol id, message) entries, with the given entropy.
pub uninterp spec fn mpc_commitment_of(messages: Seq<(Seq<u8>, Seq<u8>)>, entropy: u64) -> Seq<u8>;

/// Whether commit_verify lays out a commitment tree of minimal depth 3 over
/// the given (protocol id, message) entries.
pub uninterp spec fn mpc_fits(messages: Seq<(Seq<u8>, Seq<u8>)>) -> bool;

/// Whether the bytes are one consensus-encoded transaction.
pub uninterp spec fn tx_decodes(bytes: Seq<u8>) -> bool;

pub open spec fn input_map_bytes(m: Seq<(u32, OpId)>) -> Seq<(u32, Seq<u8>)> {
    m.map_values(|e: (u32, OpId)| (e.0, e.1.0@))
}

pub open spec fn message_bytes(m: Seq<(ContractId, [u8; 32])>) -> Seq<(Seq<u8>, Seq<u8>)> {
    m.map_values(|e: (ContractId, [u8; 32])| (e.0.0@, e.1@))
}

/// Relies on rgbstd's `TransitionBundle` and its `bundle_id`, which commits
/// to the closing method and the input map alone (its `commit_encode`); the
/// confined maps accept from 1 to 65535 entries.
#[verifier::external_body]
pub(crate) fn make_bundle(method: CloseMethod, input_map: Vec<(u32, OpId)>, known: Vec<(OpId, rgbstd::Transition)>) -> (r: (rgbstd::TransitionBundle, [u8; 32]))
    requires
        1 <= input_map@.len() <= 65535,
        1 <= known@.len() <= 65535,
    ensures
        r.1@ == bundle_id_of(method, input_map_bytes(input_map@)),
{
    let close_method = match method {
        CloseMethod::OpretFirst => bp::seals::txout::CloseMethod::OpretFirst,
        CloseMethod::TapretFirst => bp::seals::txout::CloseMethod::TapretFirst,
    };
    let im: BTreeMap<_, _> = input_map.into_iter().map(|(v, id)| (bp::Vout::from_u32(v), rgbstd::OpId::from(id.0))).collect();
    let kt: BTreeMap<_, _> = known.into_iter().map(|(id, t)| (rgbstd::OpId::from(id.0), t)).collect();
    let bundle = rgbstd::TransitionBundle {
        close_method,
        input_map: rgbstd::InputMap::from(Confined::try_from(im).expect("1 to 65535 entries")),
        known_transitions: Confined::try_from(kt).expect("1 to 65535 entries"),
    };
    let id = bundle.bundle_id().to_byte_array();
    (bundle, id)
}

/// Relies on commit_verify's `MerkleTree::try_commit` over a `MultiSource`
/// of minimal depth 3 with static entropy, whose success depends on the
/// messages alone (the entropy only fills the tree) and is certain for a
/// single message, which takes the first slot of a depth-3 tree; and on its
/// `commit_id`. The message map accepts up to 2^24 - 1 entries.
#[verifier::external_body]
pub(crate) fn mpc_commit(messages: &Vec<(ContractId, [u8; 32])>, entropy: u64) -> (r: Option<(commit_verify::mpc::MerkleTree, [u8; 32])>)
    requires
        messages@.len() <= 0xFFFFFF,
    ensures
        r is Some == mpc_fits(message_bytes(messages@)),
        messages@.len() == 1 ==> r is Some,
        r matches Some(t) ==> t.1@ == mpc_commitment_of(message_bytes(messages@), entropy),
{
    let map: BTreeMap<_, _> = messages.iter().map(|(c, b)| (mpc::ProtocolId::from(c.0), mpc::Message::from(*b))).collect();
    let source = mpc::MultiSource {
        min_depth: mpc::MPC_MINIMAL_DEPTH,
        messages: Confined::try_from(map).expect("up to 2^24 - 1 entries"),
        static_entropy: Some(entropy),
    };
    let tree = mpc::MerkleTree::try_commit(&source).ok()?;
    let root = tree.commit_id().to_byte_array();
    Some((tree, root))
}

/// Relies on bp-dbc's `Anchor::new` and commit_verify's `MerkleBlock` made
/// from a tree: the anchor of an OP_RETURN commitment.
#[verifier::external_body]
pub(crate) fn opret_anchor(tree: commit_verify::mpc::MerkleTree) -> rgbstd::containers::AnchorSet {
    let block = commit_verify::mpc::MerkleBlock::from(tree);
    rgbstd::containers::AnchorSet::Opret(bp::dbc::Anchor::new(block, bp::dbc::opret::OpretProof::default()))
}

/// Relies on bp's `Tx::consensus_deserialize`: `None` when the bytes are
/// not one consensus-encoded transaction. Before it reads the inputs of a
/// transaction without segwit marker it reserves room for as many inputs as
/// the leading count says, which panics on a huge count; the `requires`
/// keeps that count within what the bytes can hold (41 bytes an input).
#[verifier::external_body]
pub(crate) fn decode_tx(bytes: &[u8]) -> (r: Option<bp::Tx>)
    requires
        input_count_fits(bytes@),
    ensures
        r is Some == tx_decodes(bytes@),
{
    bp::Tx::consensus_deserialize(bytes).ok()
}

/// Relies on rgbstd's `Fascia`, whose bundle map accepts from 1 to 2^24 - 1
/// contracts, each with one bundle.
#[verifier::external_body]
pub(crate) fn make_fascia(tx: bp::Tx, anchor: rgbstd::containers::AnchorSet, bundles: Vec<(ContractId, rgbstd::TransitionBundle)>) -> rgbstd::containers::Fascia
    requires
        1 <= bundles@.len() <= 0xFFFFFF,
{
    let map: BTreeMap<_, _> = bundles.into_iter().map(|(c, b)| (rgbstd::ContractId::from(c.0), rgbstd::containers::BundleDichotomy::with(b, None))).collect();
    rgbstd::containers::Fascia {
        witness: rgbstd::XChain::Bitcoin(rgbstd::containers::PubWitness::with(tx)),
        anchor,
        bundles: Confined::try_from(map).expect("1 to 2^24 - 1 contracts"),
    }
}

} // verus!
