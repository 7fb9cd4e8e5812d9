use std::collections::HashMap;
use std::str::FromStr;

use amplify::{ByteArray, Wrapper};
use bp::seals::txout::CloseMethod;
use bp::{ConsensusEncode, Tx};
use ifaces::IssuerWrapper;
use rgbstd::containers::{BuilderSeal, ConsignmentExt, ValidContract, ValidKit, ValidTransfer};
use rgbstd::interface::{ContractBuilder, IfaceClass, TransitionBuilder};
use rgbstd::persistence::{PersistedState, Stock};
use rgbstd::stl::{AssetSpec, ContractTerms, RicardianContract};
use rgbstd::validation::{ResolveWitness, WitnessResolverError};
use rgbstd::vm::{WitnessOrd, WitnessPos, XWitnessTx};
use rgbstd::{
    Amount, GenesisSeal, GraphSeal, Identity, Layer1, Operation, OutputSeal, Precision, XChain,
    XOutpoint, XOutputSeal, XWitnessId,
};
use schemata::NonInflatableAsset;
use strict_types::encoding::TypeName;

use rgb_lib_core::assignments::RgbAssignments;
use rgb_lib_core::commit::{rgb_commit, TransitionInfo};
use rgb_lib_core::compose::{rgb_compose, AllocState, Allocation, Opout, OutputState};
use rgb_lib_core::select::{rgb_balance, rgb_coin_select, Holding};
use rgb_lib_core::types::{Beneficiary, BlindedSeal, ContractId, OpId, Outpoint, Txid};

const GENESIS_TIMESTAMP: i64 = 1231006505;
const IFACE: &str = "RGB20Fixed";

#[derive(Default)]
struct ChainResolver {
    txs: HashMap<bp::Txid, (Tx, WitnessPos)>,
}

impl ChainResolver {
    fn add(&mut self, tx: &Tx, height: u32, timestamp: i64) {
        self.txs.insert(tx.txid(), (tx.clone(), WitnessPos::new(height, timestamp).unwrap()));
    }
}

impl ResolveWitness for ChainResolver {
    fn resolve_pub_witness(&self, witness_id: XWitnessId) -> Result<XWitnessTx, WitnessResolverError> {
        match self.txs.get(witness_id.as_reduced_unsafe()) {
            Some((tx, _)) => Ok(XChain::Bitcoin(tx.clone())),
            None => Err(WitnessResolverError::Unknown(witness_id)),
        }
    }

    fn resolve_pub_witness_ord(&self, witness_id: XWitnessId) -> Result<WitnessOrd, WitnessResolverError> {
        match self.txs.get(witness_id.as_reduced_unsafe()) {
            Some((_, pos)) => Ok(WitnessOrd::Mined(*pos)),
            None => Err(WitnessResolverError::Unknown(witness_id)),
        }
    }
}

fn tx_with(inputs: Vec<bp::Outpoint>, outputs: Vec<bp::TxOut>) -> Tx {
    let inputs: Vec<bp::TxIn> = inputs
        .into_iter()
        .map(|prev_output| bp::TxIn {
            prev_output,
            sig_script: bp::SigScript::new(),
            sequence: bp::SeqNo::from_consensus_u32(u32::MAX),
            witness: bp::Witness::new(),
        })
        .collect();
    Tx {
        version: bp::TxVer::V2,
        lock_time: bp::LockTime::from_height(0).unwrap(),
        inputs: bp::VarIntArray::from_iter_checked(inputs),
        outputs: bp::VarIntArray::from_iter_checked(outputs),
    }
}

fn get_first_tx() -> Tx {
    let output = bp::TxOut { value: bp::Sats::from_btc(1), script_pubkey: bp::ScriptPubkey::new() };
    tx_with(vec![bp::Outpoint::new(bp::Txid::coinbase(), 0)], vec![output; 3])
}

fn build_rgb_tx(inputs: &[Outpoint], outputs_num: usize, commitment: &[u8; 32]) -> Tx {
    let inputs = inputs.iter().map(|o| bp::Outpoint::new(bp::Txid::from(o.txid.0), o.vout)).collect();
    let mut outputs =
        vec![bp::TxOut { value: bp::Sats::from_sats(546u64), script_pubkey: bp::ScriptPubkey::new() }; outputs_num];
    outputs.push(bp::TxOut { value: bp::Sats::ZERO, script_pubkey: bp::ScriptPubkey::op_return(commitment) });
    tx_with(inputs, outputs)
}

fn get_stock(kit: &ValidKit) -> Stock {
    let mut stock = Stock::in_memory();
    stock.import_kit(kit.clone()).unwrap();
    stock
}

fn rgb_issue(allocations: &[(String, u64)], is_testnet: bool) -> ValidContract {
    let spec = AssetSpec::with("TEST", "TestCoin", Precision::try_from(8).unwrap(), Some("For tests")).unwrap();
    let terms = ContractTerms { text: RicardianContract::default(), media: None };
    let mut builder = ContractBuilder::with(
        Identity::from_str("test").unwrap(),
        NonInflatableAsset::FEATURES.iface(),
        NonInflatableAsset::schema(),
        NonInflatableAsset::issue_impl(),
        NonInflatableAsset::types(),
        NonInflatableAsset::scripts(),
    )
    .add_global_state("spec", spec)
    .unwrap();
    let mut issued = 0u64;
    for (seal, amount) in allocations {
        issued += amount;
        let seal = OutputSeal::from_str(seal).unwrap();
        let seal = GenesisSeal::new_random(seal.method, seal.txid, seal.vout);
        builder = builder.add_fungible_state("assetOwner", BuilderSeal::Revealed(XChain::Bitcoin(seal)), *amount).unwrap();
    }
    builder = builder
        .add_global_state("issuedSupply", Amount::from(issued))
        .unwrap()
        .add_global_state("terms", terms)
        .unwrap();
    if !is_testnet {
        builder = builder.set_mainnet();
    }
    builder.issue_contract().unwrap()
}

fn raw_outpoint(o: Outpoint) -> XOutpoint {
    XOutpoint::from(XChain::<rgbstd::Outpoint>::with(Layer1::Bitcoin, rgbstd::Outpoint::new(bp::Txid::from(o.txid.0), o.vout)))
}

fn raw_seal(o: Outpoint) -> XOutputSeal {
    XChain::Bitcoin(OutputSeal::with(CloseMethod::OpretFirst, bp::Txid::from(o.txid.0), o.vout))
}

fn from_seal(s: XOutputSeal) -> Outpoint {
    let x = s.to_outpoint();
    let o = x.as_reduced_unsafe();
    Outpoint::new(Txid(o.txid.to_byte_array()), o.vout.to_u32())
}

fn our_txid(t: bp::Txid) -> Txid {
    Txid(t.to_byte_array())
}

fn raw_opout(o: Opout) -> rgbstd::Opout {
    rgbstd::Opout::new(rgbstd::OpId::from(o.op.0), rgbstd::AssignmentType::with(o.ty), o.no)
}

fn raw_beneficiary(s: BlindedSeal) -> BuilderSeal<GraphSeal> {
    let seal = match s.beneficiary {
        Beneficiary::WitnessVout(vout) => GraphSeal::with_blinded_vout(CloseMethod::OpretFirst, vout, s.blinding),
        Beneficiary::Outpoint(o) => {
            GraphSeal::with_blinding(CloseMethod::OpretFirst, bp::Txid::from(o.txid.0), o.vout, s.blinding)
        },
    };
    BuilderSeal::from(XChain::<GraphSeal>::with(Layer1::Bitcoin, seal))
}

fn raw_blinding(b: u64) -> rgbstd::BlindingFactor {
    let mut bytes = [0u8; 32];
    bytes[..8].copy_from_slice(&b.to_le_bytes());
    rgbstd::BlindingFactor::try_from(bytes).unwrap()
}

fn holdings(stock: &Stock, contract_id: ContractId, utxos: &[Outpoint]) -> Vec<Holding> {
    let raw: Vec<XOutpoint> = utxos.iter().copied().map(raw_outpoint).collect();
    let contract = stock.contract_iface(rgbstd::ContractId::from(contract_id.0), TypeName::from(IFACE)).unwrap();
    contract
        .fungible("assetOwner", &raw[..])
        .unwrap()
        .map(|a| Holding { contract_id, output: from_seal(a.seal), amount: a.state.value() })
        .collect()
}

fn balance(stock: &Stock, contract_id: ContractId, utxos: &[Outpoint]) -> u64 {
    rgb_balance(&holdings(stock, contract_id, utxos), contract_id, &utxos.to_vec()).unwrap()
}

fn builder_for(stock: &Stock, contract_id: rgbstd::ContractId, blank: bool) -> TransitionBuilder {
    if blank {
        return stock.blank_builder(contract_id, TypeName::from(IFACE)).unwrap();
    }
    let operation = stock.iface(TypeName::from(IFACE)).unwrap().default_operation.clone();
    stock.transition_builder(contract_id, TypeName::from(IFACE), operation).unwrap()
}

/// Selects, composes and builds the transitions of a transfer.
fn compose_with_store(
    stock: &Stock,
    available: &[Outpoint],
    assignments: RgbAssignments,
    change: Option<Beneficiary>,
    seed: u64,
) -> (Vec<Outpoint>, Vec<TransitionInfo>) {
    let requested = assignments.contracts();
    let mut found = Vec::new();
    for c in &requested {
        found.extend(holdings(stock, *c, available));
    }
    let prev = rgb_coin_select(&available.to_vec(), &found, &assignments);

    let seals: Vec<XOutputSeal> = prev.iter().copied().map(raw_seal).collect();
    let mut allocations = Vec::new();
    let mut states: HashMap<rgbstd::Opout, PersistedState> = HashMap::new();
    let contracts: Vec<rgbstd::ContractId> = stock.contracts_assigning(seals.iter().copied()).unwrap().collect();
    for id in contracts {
        for (seal, assigns) in stock.contract_assignments_for(id, prev.iter().copied().map(raw_outpoint)).unwrap() {
            for (opout, state) in assigns {
                let kind = match state {
                    PersistedState::Amount(v, _, _) => AllocState::Fungible(v.value()),
                    _ => AllocState::NonFungible,
                };
                allocations.push(Allocation {
                    contract_id: ContractId(id.to_byte_array()),
                    output: from_seal(seal),
                    opout: Opout { op: OpId(opout.op.to_byte_array()), ty: opout.ty.into_inner(), no: opout.no },
                    state: kind,
                });
                states.insert(opout, state);
            }
        }
    }
    allocations.sort_by_key(|a| (a.contract_id.0, a.output.txid.0, a.output.vout, a.opout.op.0, a.opout.ty, a.opout.no));

    let mut slots = Vec::new();
    for c in &requested {
        let b = builder_for(stock, rgbstd::ContractId::from(c.0), false);
        let name = b.default_assignment().unwrap().clone();
        slots.push((*c, b.assignments_type(&name).unwrap().into_inner()));
    }

    let plans = rgb_compose(&prev, &allocations, &slots, assignments, change, seed).unwrap();
    let mut infos = Vec::new();
    for (i, plan) in plans.into_iter().enumerate() {
        let mut b = builder_for(stock, rgbstd::ContractId::from(plan.contract_id.0), i >= requested.len());
        for o in &plan.inputs {
            b = b.add_input(raw_opout(*o), states[&raw_opout(*o)].clone()).unwrap();
        }
        for out in &plan.outputs {
            let ty = rgbstd::AssignmentType::with(out.ty);
            b = match out.state {
                OutputState::Forward(o) => {
                    b.add_owned_state_raw(ty, raw_beneficiary(out.seal), states[&raw_opout(o)].clone()).unwrap()
                },
                OutputState::Fungible { amount, blinding } => b
                    .add_fungible_state_raw(ty, raw_beneficiary(out.seal), amount, raw_blinding(blinding))
                    .unwrap(),
            };
        }
        let mut transition = b.complete_transition().unwrap();
        transition.nonce = plan.priority;
        infos.push(TransitionInfo {
            contract_id: plan.contract_id,
            id: OpId(transition.id().to_byte_array()),
            inputs: plan.consumed,
            transition,
        });
    }
    (prev, infos)
}

fn distribution(contract_id: ContractId, recipients: &[(Beneficiary, u64)]) -> RgbAssignments {
    let mut a = RgbAssignments::new();
    for (b, v) in recipients {
        a.add_recipient_for(contract_id, *b, *v).unwrap();
    }
    a
}

#[test]
fn test_rgb_workflow() {
    let is_testnet = true;
    let tx = get_first_tx();
    let txid = tx.txid();
    let contract = rgb_issue(&[(format!("opret1st:{txid}:0"), 100)], is_testnet);
    let contract_id = ContractId(contract.contract_id().to_byte_array());

    let mut resolver = ChainResolver::default();
    resolver.add(&tx, 1, GENESIS_TIMESTAMP);
    let mut stock = get_stock(&NonInflatableAsset::kit());
    stock.import_contract(contract.clone(), &resolver).unwrap();

    let available_utxos = [Outpoint::new(our_txid(txid), 0)];
    let assignments = distribution(
        contract_id,
        &[(Beneficiary::new_witness(0), 50), (Beneficiary::new_witness(1), 50)],
    );
    let (coins, ti_list) =
        compose_with_store(&stock, &available_utxos, assignments, Some(Beneficiary::WitnessVout(2)), 0);
    assert_eq!(coins, available_utxos.to_vec());
    assert_eq!(ti_list.len(), 1);

    let (commitment, partial_fascia) = rgb_commit(&available_utxos.to_vec(), ti_list, 0).unwrap();
    let spending = build_rgb_tx(&available_utxos, 3, &commitment);
    let fascia = partial_fascia.complete(&spending.consensus_serialize()).unwrap();
    let spending_txid = spending.txid();
    resolver.add(&spending, 2, GENESIS_TIMESTAMP + 1);
    stock.consume_fascia(fascia, &resolver).unwrap();

    let out0 = Outpoint::new(our_txid(spending_txid), 0);
    let out1 = Outpoint::new(our_txid(spending_txid), 1);
    let consign = stock.transfer(rgbstd::ContractId::from(contract_id.0), [raw_seal(out1)], None).unwrap();
    consign.validate(&resolver, is_testnet).unwrap();
    assert_eq!(balance(&stock, contract_id, &[out0]), 50);
    assert_eq!(balance(&stock, contract_id, &[out1]), 50);
}

fn basic_transfer(
    kit: &ValidKit,
    genesis_tx: Tx,
    contract: ValidContract,
    blinding_seed: u64,
    is_testnet: bool,
) -> ([u8; 32], ValidTransfer) {
    let genesis_txid = genesis_tx.txid();
    let contract_id = ContractId(contract.contract_id().to_byte_array());
    let mut resolver = ChainResolver::default();
    resolver.add(&genesis_tx, 1, GENESIS_TIMESTAMP);
    let mut stock = get_stock(kit);
    stock.import_contract(contract.clone(), &resolver).unwrap();

    let assignments = distribution(
        contract_id,
        &[(Beneficiary::new_witness(0), 20), (Beneficiary::new_witness(1), 80)],
    );
    let available_utxos = [Outpoint::new(our_txid(genesis_txid), 0)];
    let (_, ti_list) =
        compose_with_store(&stock, &available_utxos, assignments, Some(Beneficiary::WitnessVout(2)), blinding_seed);
    let (commitment, partial_fascia) = rgb_commit(&available_utxos.to_vec(), ti_list, blinding_seed).unwrap();

    let spending_tx = build_rgb_tx(&available_utxos, 3, &commitment);
    let spending_txid = spending_tx.txid();
    let fascia = partial_fascia.complete(&spending_tx.consensus_serialize()).unwrap();
    resolver.add(&spending_tx, 2, GENESIS_TIMESTAMP + 1);
    stock.consume_fascia(fascia, &resolver).unwrap();

    let out0 = Outpoint::new(our_txid(spending_txid), 0);
    let transfer = stock.transfer(rgbstd::ContractId::from(contract_id.0), [raw_seal(out0)], None).unwrap();
    let valid_transfer = transfer.validate(&resolver, is_testnet).unwrap();
    assert_eq!(balance(&stock, contract_id, &[out0]), 20);

    let out1 = Outpoint::new(our_txid(spending_txid), 1);
    let mut other = get_stock(kit);
    other.accept_transfer(valid_transfer.clone(), &resolver).unwrap();
    assert_eq!(balance(&other, contract_id, &[out1]), 80);

    (commitment, valid_transfer)
}

#[test]
fn test_coloring_consistency() {
    let is_testnet = true;
    let genesis_tx = get_first_tx();
    let genesis_txid = genesis_tx.txid();
    let contract = rgb_issue(&[(format!("opret1st:{genesis_txid}:0"), 100)], is_testnet);
    let kit = NonInflatableAsset::kit();

    for blinding_seed in 0..10 {
        let (first_commitment, first_consignment) =
            basic_transfer(&kit, genesis_tx.clone(), contract.clone(), blinding_seed, is_testnet);
        let (second_commitment, second_consignment) =
            basic_transfer(&kit, genesis_tx.clone(), contract.clone(), blinding_seed, is_testnet);
        assert_eq!(first_commitment, second_commitment);
        assert_eq!(first_consignment.consignment_id(), second_consignment.consignment_id());
    }
}
