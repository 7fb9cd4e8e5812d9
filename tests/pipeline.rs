use bp::ConsensusEncode;
use commit_verify::Digest;
use rand_chacha::rand_core::{RngCore, SeedableRng};
use strict_encoding::StrictDumb;

use rgb_lib_core::assignments::{OverflowError, RgbAssignments};
use rgb_lib_core::blinding::blinding_at;
use rgb_lib_core::commit::{rgb_commit, CommitError, TransitionInfo};
use rgb_lib_core::compose::{
    rgb_compose, AllocState, Allocation, ComposeError, Opout, OutputState, TransitionPlan,
};
use rgb_lib_core::seed::{derive_coloring_key, encode_coloring};
use rgb_lib_core::select::{rgb_balance, rgb_coin_select, Holding};
use rgb_lib_core::invoice::invoice_expiry;
use rgb_lib_core::types::{
    Beneficiary, BlindedSeal, CloseMethod, ContractId, OpId, Outpoint, ToRaw, Txid,
};

const ASSET_SLOT: u16 = 4000;

fn outpoint(b: u8, vout: u32) -> Outpoint {
    Outpoint::new(Txid([b; 32]), vout)
}

fn contract(b: u8) -> ContractId {
    ContractId([b; 32])
}

fn allocation(c: ContractId, o: Outpoint, op: u8, ty: u16, state: AllocState) -> Allocation {
    Allocation { contract_id: c, output: o, opout: Opout { op: OpId([op; 32]), ty, no: 0 }, state }
}

fn fungible_total(p: &TransitionPlan) -> u128 {
    p.outputs
        .iter()
        .map(|o| match o.state {
            OutputState::Fungible { amount, .. } => amount as u128,
            OutputState::Forward(_) => 0,
        })
        .sum()
}

fn distribution(c: ContractId, recips: &[(Beneficiary, u64)]) -> RgbAssignments {
    let mut a = RgbAssignments::new();
    for (b, v) in recips {
        a.add_recipient_for(c, *b, *v).unwrap();
    }
    a
}

fn info(c: ContractId, id: u8, inputs: Vec<Outpoint>) -> TransitionInfo {
    TransitionInfo { contract_id: c, id: OpId([id; 32]), inputs, transition: rgbstd::Transition::strict_dumb() }
}

#[test]
fn end_to_end_select_compose_commit() {
    let a = contract(0xA1);
    let x = outpoint(1, 0);
    let y = outpoint(2, 0);
    let holdings = vec![Holding { contract_id: a, output: x, amount: 100 }];
    let dist = distribution(
        a,
        &[(Beneficiary::new_witness(0), 50), (Beneficiary::new_witness(1), 50)],
    );
    let selected = rgb_coin_select(&vec![x, y], &holdings, &dist);
    assert_eq!(selected, vec![x]);

    let allocs = vec![allocation(a, x, 7, ASSET_SLOT, AllocState::Fungible(100))];
    let plans = rgb_compose(&selected, &allocs, &vec![(a, ASSET_SLOT)], dist, None, 7).unwrap();
    assert_eq!(plans.len(), 1);
    let p = &plans[0];
    assert_eq!(p.contract_id, a);
    assert_eq!(p.consumed, vec![x]);
    assert_eq!(p.inputs, vec![allocs[0].opout]);
    assert_eq!(p.outputs.len(), 2);
    assert_eq!(p.priority, u64::MAX);
    for (o, vout) in p.outputs.iter().zip([0u32, 1]) {
        assert_eq!(o.seal.beneficiary, Beneficiary::WitnessVout(vout));
        assert!(matches!(o.state, OutputState::Fungible { amount: 50, .. }));
    }

    let infos = vec![info(a, 9, p.consumed.clone())];
    let (_root, pf) = rgb_commit(&vec![x], infos, 1).unwrap();
    let maps = pf.input_maps();
    assert_eq!(maps, vec![(a, vec![(0u32, OpId([9; 32]))])]);
    assert_eq!(pf.known_transitions(), vec![(a, vec![OpId([9; 32])])]);
    assert_eq!(pf.close_method(), CloseMethod::OpretFirst);
}

#[test]
fn compose_is_deterministic() {
    let a = contract(3);
    let x = outpoint(1, 1);
    let allocs = vec![allocation(a, x, 7, ASSET_SLOT, AllocState::Fungible(100))];
    let dist = distribution(a, &[(Beneficiary::new_witness(0), 60)]);
    let change = Some(Beneficiary::new_witness(1));
    let slots = vec![(a, ASSET_SLOT)];
    let first = rgb_compose(&vec![x], &allocs, &slots, dist.clone(), change, 42).unwrap();
    let second = rgb_compose(&vec![x], &allocs, &slots, dist.clone(), change, 42).unwrap();
    assert_eq!(first, second);
    let other = rgb_compose(&vec![x], &allocs, &slots, dist, change, 43).unwrap();
    assert_ne!(first[0].outputs[0].seal.blinding, other[0].outputs[0].seal.blinding);
}

#[test]
fn change_output_conserves_amount() {
    let a = contract(4);
    let x = outpoint(1, 0);
    let allocs = vec![allocation(a, x, 7, ASSET_SLOT, AllocState::Fungible(100))];
    let dist = distribution(a, &[(Beneficiary::new_witness(0), 30)]);
    let change = Beneficiary::new_witness(5);
    let plans = rgb_compose(&vec![x], &allocs, &vec![(a, ASSET_SLOT)], dist, Some(change), 1).unwrap();
    let p = &plans[0];
    assert_eq!(fungible_total(p), 100);
    assert_eq!(p.outputs.len(), 2);
    assert_eq!(p.outputs[1].seal.beneficiary, change);
    assert!(matches!(p.outputs[1].state, OutputState::Fungible { amount: 70, .. }));
}

#[test]
fn untargeted_contract_gets_blank_transition() {
    let a = contract(5);
    let b = contract(6);
    let x = outpoint(1, 0);
    let allocs = vec![
        allocation(a, x, 7, ASSET_SLOT, AllocState::Fungible(100)),
        allocation(b, x, 8, ASSET_SLOT, AllocState::Fungible(40)),
    ];
    let dist = distribution(a, &[(Beneficiary::new_witness(0), 100)]);
    let change = Beneficiary::new_witness(2);
    let plans = rgb_compose(&vec![x], &allocs, &vec![(a, ASSET_SLOT), (b, ASSET_SLOT)], dist, Some(change), 1)
        .unwrap();
    assert_eq!(plans.len(), 2);
    assert_eq!(plans[0].contract_id, a);
    assert_eq!(fungible_total(&plans[0]), 100);
    let blank = &plans[1];
    assert_eq!(blank.contract_id, b);
    assert_eq!(blank.inputs, vec![allocs[1].opout]);
    assert_eq!(blank.outputs.len(), 1);
    assert_eq!(blank.outputs[0].state, OutputState::Forward(allocs[1].opout));
    assert_eq!(blank.outputs[0].seal.beneficiary, change);
    assert_eq!(blank.priority, u64::MAX);
}

#[test]
fn other_slot_state_is_forwarded() {
    let a = contract(7);
    let x = outpoint(1, 0);
    let allocs = vec![
        allocation(a, x, 7, ASSET_SLOT, AllocState::Fungible(10)),
        allocation(a, x, 8, 4001, AllocState::NonFungible),
    ];
    let dist = distribution(a, &[(Beneficiary::new_witness(0), 10)]);
    let plans = rgb_compose(&vec![x], &allocs, &vec![(a, ASSET_SLOT)], dist, Some(Beneficiary::new_witness(3)), 1)
        .unwrap();
    assert_eq!(plans[0].inputs.len(), 2);
    assert_eq!(plans[0].outputs[0].state, OutputState::Forward(allocs[1].opout));
    assert_eq!(plans[0].outputs[0].ty, 4001);
}

#[test]
fn shortfall_is_reported() {
    let a = contract(8);
    let x = outpoint(1, 0);
    let allocs = vec![allocation(a, x, 7, ASSET_SLOT, AllocState::Fungible(100))];
    let dist = distribution(a, &[(Beneficiary::new_witness(0), 150)]);
    let r = rgb_compose(&vec![x], &allocs, &vec![(a, ASSET_SLOT)], dist, Some(Beneficiary::new_witness(1)), 1);
    assert_eq!(r, Err(ComposeError::Shortfall(a)));
}

#[test]
fn allocations_off_the_spent_outputs_are_ignored() {
    let a = contract(9);
    let x = outpoint(1, 0);
    let y = outpoint(2, 0);
    let allocs = vec![allocation(a, y, 7, ASSET_SLOT, AllocState::Fungible(100))];
    let dist = distribution(a, &[(Beneficiary::new_witness(0), 1)]);
    let r = rgb_compose(&vec![x], &allocs, &vec![(a, ASSET_SLOT)], dist, None, 1);
    assert_eq!(r, Err(ComposeError::Shortfall(a)));
}

#[test]
fn missing_change_is_reported() {
    let a = contract(10);
    let x = outpoint(1, 0);
    let allocs = vec![allocation(a, x, 7, ASSET_SLOT, AllocState::Fungible(100))];
    let dist = distribution(a, &[(Beneficiary::new_witness(0), 30)]);
    let r = rgb_compose(&vec![x], &allocs, &vec![(a, ASSET_SLOT)], dist, None, 1);
    assert_eq!(r, Err(ComposeError::NoChangeSeal(a)));
}

#[test]
fn unsupported_state_is_reported() {
    let a = contract(11);
    let x = outpoint(1, 0);
    let allocs = vec![allocation(a, x, 7, ASSET_SLOT, AllocState::NonFungible)];
    let dist = distribution(a, &[(Beneficiary::new_witness(0), 30)]);
    let r = rgb_compose(&vec![x], &allocs, &vec![(a, ASSET_SLOT)], dist, None, 1);
    assert_eq!(r, Err(ComposeError::UnsupportedState(a)));
}

#[test]
fn unknown_slot_is_reported() {
    let a = contract(12);
    let x = outpoint(1, 0);
    let allocs = vec![allocation(a, x, 7, ASSET_SLOT, AllocState::Fungible(100))];
    let dist = distribution(a, &[(Beneficiary::new_witness(0), 30)]);
    let r = rgb_compose(&vec![x], &allocs, &vec![], dist, None, 1);
    assert_eq!(r, Err(ComposeError::InvalidAssignment(a)));
}

#[test]
fn input_overflow_is_reported() {
    let a = contract(13);
    let x = outpoint(1, 0);
    let allocs = vec![
        allocation(a, x, 7, ASSET_SLOT, AllocState::Fungible(u64::MAX)),
        allocation(a, x, 8, ASSET_SLOT, AllocState::Fungible(1)),
    ];
    let dist = distribution(a, &[(Beneficiary::new_witness(0), 30)]);
    let r = rgb_compose(&vec![x], &allocs, &vec![(a, ASSET_SLOT)], dist, None, 1);
    assert_eq!(r, Err(ComposeError::Overflow(a)));
}

#[test]
fn distribution_accumulates_and_checks_overflow() {
    let a = contract(14);
    let b = Beneficiary::new_outpoint(outpoint(3, 2));
    let mut d = RgbAssignments::new();
    assert!(d.is_empty());
    d.add_recipient_for(a, b, 0).unwrap();
    assert!(d.is_empty());
    d.add_recipient_for(a, b, 5).unwrap();
    d.add_recipient_for(a, b, 7).unwrap();
    assert_eq!(d.contracts(), vec![a]);
    assert_eq!(d.recipients_at(0), (a, vec![(b, 12)]));
    d.add_recipient_for(a, Beneficiary::new_witness(0), u64::MAX - 12).unwrap();
    assert_eq!(d.add_recipient_for(a, Beneficiary::new_witness(0), 13), Err(OverflowError));
    assert_eq!(d.recipients_at(0).1, vec![(Beneficiary::new_witness(0), u64::MAX - 12), (b, 12)]);
    d.add_recipient_for(a, b, 1).unwrap();
    assert_eq!(d.recipients_at(0).1, vec![(Beneficiary::new_witness(0), u64::MAX - 12), (b, 13)]);
}

#[test]
fn coin_select_takes_largest_first() {
    let a = contract(15);
    let (x, y, z) = (outpoint(1, 0), outpoint(2, 0), outpoint(3, 0));
    let holdings = vec![
        Holding { contract_id: a, output: x, amount: 30 },
        Holding { contract_id: a, output: y, amount: 50 },
        Holding { contract_id: a, output: x, amount: 30 },
        Holding { contract_id: a, output: z, amount: 10 },
    ];
    let dist = distribution(a, &[(Beneficiary::new_witness(0), 70)]);
    assert_eq!(rgb_coin_select(&vec![x, y, z], &holdings, &dist), vec![x, y]);
    let small = distribution(a, &[(Beneficiary::new_witness(0), 40)]);
    assert_eq!(rgb_coin_select(&vec![x, y, z], &holdings, &small), vec![x]);
    assert_eq!(rgb_coin_select(&vec![y, z], &holdings, &dist), vec![y, z]);
}

#[test]
fn commit_rejects_unknown_input() {
    let a = contract(16);
    let x = outpoint(1, 0);
    let r = rgb_commit(&vec![outpoint(2, 0)], vec![info(a, 1, vec![x])], 0);
    assert!(matches!(r, Err(CommitError::Resolution(o)) if o == x));
    assert!(matches!(rgb_commit(&vec![x], vec![], 0), Err(CommitError::NoTransitions)));
    assert!(matches!(rgb_commit(&vec![x], vec![info(a, 1, vec![])], 0), Err(CommitError::NoBundle(c)) if c == a));
}

#[test]
fn commit_root_depends_on_entropy_and_bundles() {
    let a = contract(17);
    let b = contract(18);
    let (x, y) = (outpoint(1, 0), outpoint(2, 0));
    let infos = || vec![info(a, 1, vec![x]), info(b, 2, vec![y])];
    let (r1, pf) = rgb_commit(&vec![y, x], infos(), 5).unwrap();
    let (r2, _) = rgb_commit(&vec![y, x], infos(), 5).unwrap();
    let (r3, _) = rgb_commit(&vec![y, x], infos(), 6).unwrap();
    let (r4, _) = rgb_commit(&vec![x, y], infos(), 5).unwrap();
    assert_eq!(r1, r2);
    assert_ne!(r1, r3);
    assert_ne!(r1, r4);
    assert_eq!(
        pf.input_maps(),
        vec![(a, vec![(1u32, OpId([1; 32]))]), (b, vec![(0u32, OpId([2; 32]))])]
    );
}

#[test]
fn complete_rejects_bad_transaction_bytes() {
    let a = contract(19);
    let x = outpoint(1, 0);
    let (_, pf) = rgb_commit(&vec![x], vec![info(a, 1, vec![x])], 0).unwrap();
    assert!(matches!(pf.complete(&[1, 2, 3]), Err(CommitError::InvalidTransaction)));
}

#[test]
fn complete_pairs_the_transaction() {
    let a = contract(20);
    let x = outpoint(1, 0);
    let (root, pf) = rgb_commit(&vec![x], vec![info(a, 1, vec![x])], 0).unwrap();
    let tx = bp::Tx {
        version: bp::TxVer::V2,
        lock_time: bp::LockTime::from_height(0).unwrap(),
        inputs: bp::VarIntArray::from_iter_checked([bp::TxIn {
            prev_output: bp::Outpoint::new(bp::Txid::from([1u8; 32]), 0),
            sig_script: bp::SigScript::new(),
            sequence: bp::SeqNo::from_consensus_u32(u32::MAX),
            witness: bp::Witness::new(),
        }]),
        outputs: bp::VarIntArray::from_iter_checked([bp::TxOut {
            value: bp::Sats::ZERO,
            script_pubkey: bp::ScriptPubkey::op_return(&root),
        }]),
    };
    let fascia = pf.complete(&tx.consensus_serialize()).unwrap();
    assert_eq!(fascia.bundles.len(), 1);
}

#[test]
fn blinding_stream_follows_chacha20() {
    let key = [9u8; 32];
    let mut rng = rand_chacha::ChaCha20Rng::from_seed(key);
    for k in 0..20u64 {
        assert_eq!(blinding_at(&key, k), rng.next_u64());
    }
}

#[test]
fn coloring_key_is_sha256_of_request() {
    let a = contract(21);
    let prev = vec![outpoint(1, 2)];
    let dist = distribution(a, &[(Beneficiary::new_witness(0), 5)]);
    let bytes = encode_coloring(&prev, &dist, Some(Beneficiary::new_witness(1)), 77);
    assert_eq!(bytes.len(), 8 + 36 + 8 + 32 + 8 + 5 + 8 + 1 + 5 + 8);
    assert_eq!(&bytes[0..8], &1u64.to_le_bytes());
    assert_eq!(&bytes[bytes.len() - 8..], &77u64.to_le_bytes());
    let key = derive_coloring_key(&prev, &dist, Some(Beneficiary::new_witness(1)), 77);
    let want: [u8; 32] = commit_verify::Sha256::digest(&bytes).into();
    assert_eq!(key, want);
}

#[test]
fn raw_forms() {
    let o = outpoint(4, 9);
    assert_eq!(o.to_raw(), ([4u8; 32], 9));
    assert_eq!(contract(5).to_raw(), [5u8; 32]);
    assert_eq!(contract(5).as_bytes(), &[5u8; 32]);
    assert_eq!(Txid([6; 32]).to_raw(), [6u8; 32]);
    let seal = Beneficiary::new_witness(3).to_raw_with_blinding(11);
    assert_eq!(seal, BlindedSeal { beneficiary: Beneficiary::WitnessVout(3), blinding: 11 });
}

#[test]
fn balance_sums_holdings_at_outputs() {
    let a = contract(22);
    let b = contract(23);
    let (x, y) = (outpoint(1, 0), outpoint(2, 0));
    let holdings = vec![
        Holding { contract_id: a, output: x, amount: 50 },
        Holding { contract_id: b, output: x, amount: 7 },
        Holding { contract_id: a, output: y, amount: 50 },
    ];
    assert_eq!(rgb_balance(&holdings, a, &vec![x]), Some(50));
    assert_eq!(rgb_balance(&holdings, a, &vec![x, y]), Some(100));
    assert_eq!(rgb_balance(&holdings, b, &vec![y]), Some(0));
    let big = vec![
        Holding { contract_id: a, output: x, amount: u64::MAX },
        Holding { contract_id: a, output: y, amount: 1 },
    ];
    assert_eq!(rgb_balance(&big, a, &vec![x, y]), None);
}

#[test]
fn distribution_order_does_not_depend_on_insertion() {
    let (a, b) = (contract(0x30), contract(0x20));
    let w0 = Beneficiary::new_witness(0);
    let w1 = Beneficiary::new_witness(1);
    let o = Beneficiary::new_outpoint(outpoint(9, 1));
    let entries = [(a, o, 5u64), (b, w1, 6), (a, w1, 7), (b, w0, 8), (a, w0, 9)];
    let mut d1 = RgbAssignments::new();
    for (c, r, v) in entries {
        d1.add_recipient_for(c, r, v).unwrap();
    }
    let mut d2 = RgbAssignments::new();
    for (c, r, v) in entries.iter().rev() {
        d2.add_recipient_for(*c, *r, *v).unwrap();
    }
    assert_eq!(d1.contracts(), vec![b, a]);
    assert_eq!(d2.contracts(), vec![b, a]);
    assert_eq!(d1.recipients_at(1).1, vec![(w0, 9), (w1, 7), (o, 5)]);
    assert_eq!(d1.recipients_at(0), d2.recipients_at(0));
    assert_eq!(d1.recipients_at(1), d2.recipients_at(1));

    let x = outpoint(1, 0);
    let allocs = vec![
        allocation(a, x, 7, ASSET_SLOT, AllocState::Fungible(100)),
        allocation(b, x, 8, ASSET_SLOT, AllocState::Fungible(100)),
    ];
    let slots = vec![(a, ASSET_SLOT), (b, ASSET_SLOT)];
    let change = Some(Beneficiary::new_witness(3));
    let first = rgb_compose(&vec![x], &allocs, &slots, d1, change, 3).unwrap();
    let second = rgb_compose(&vec![x], &allocs, &slots, d2, change, 3).unwrap();
    assert_eq!(first, second);
    assert_eq!(first[0].contract_id, b);
}

#[test]
fn requested_total_overflow_is_reported() {
    let a = contract(24);
    let x = outpoint(1, 0);
    let allocs = vec![allocation(a, x, 7, ASSET_SLOT, AllocState::Fungible(100))];
    let dist = distribution(a, &[(Beneficiary::new_witness(0), u64::MAX), (Beneficiary::new_witness(1), 1)]);
    let r = rgb_compose(&vec![x], &allocs, &vec![(a, ASSET_SLOT)], dist, None, 1);
    assert_eq!(r, Err(ComposeError::Overflow(a)));
}

#[test]
fn coin_select_takes_everything_for_an_unreachable_total() {
    let a = contract(25);
    let (x, y) = (outpoint(1, 0), outpoint(2, 0));
    let holdings = vec![
        Holding { contract_id: a, output: x, amount: 10 },
        Holding { contract_id: a, output: y, amount: 20 },
    ];
    let dist = distribution(a, &[(Beneficiary::new_witness(0), u64::MAX), (Beneficiary::new_witness(1), 1)]);
    assert_eq!(rgb_coin_select(&vec![x, y], &holdings, &dist), vec![y, x]);
}

#[test]
fn commit_resolves_every_input_first() {
    let (a, b) = (contract(26), contract(27));
    let (x, missing) = (outpoint(1, 0), outpoint(9, 9));
    let infos = vec![info(a, 1, vec![]), info(b, 2, vec![missing])];
    let r = rgb_commit(&vec![x], infos, 0);
    assert!(matches!(r, Err(CommitError::Resolution(o)) if o == missing));
}

#[test]
fn complete_rejects_an_impossible_input_count() {
    let a = contract(28);
    let x = outpoint(1, 0);
    let (_, pf) = rgb_commit(&vec![x], vec![info(a, 1, vec![x])], 0).unwrap();
    let bytes = [1u8, 0, 0, 0, 0xFF, 0xFF, 0xFF, 0xFF, 0xFF, 0xFF, 0xFF, 0xFF, 0xFF];
    assert!(matches!(pf.complete(&bytes), Err(CommitError::InvalidTransaction)));
}

#[test]
fn invoice_expiry_adds_seconds() {
    assert_eq!(invoice_expiry(1000, None), Some(1600));
    assert_eq!(invoice_expiry(1000, Some(5)), Some(1005));
    assert_eq!(invoice_expiry(i64::MAX as u64, Some(1)), None);
}
