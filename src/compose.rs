use vstd::prelude::*;

use crate::assignments::{
    distribution_wf, lemma_total_prefix, sum_amounts, sum_wide, total_recipients, RgbAssignments,
};
use crate::blinding::{blinding_at, draw};
use crate::seed::{coloring_key, derive_coloring_key};
use crate::types::{find_entry, find_key, lemma_find_key, BlindedSeal, Beneficiary, ContractId, OpId, Outpoint, SameKey};

verus! {

/// Reference to one output of a contract operation: the operation, the
/// state slot (assignment type) and the output number.
#[derive(Clone, Copy, PartialEq, Eq, Debug, Hash)]
pub struct Opout {
    pub op: OpId,
    pub ty: u16,
    pub no: u16,
}

/// What the store reports of an allocation's state: a fungible amount, or a
/// state of another kind that can only be carried over unchanged.
#[derive(Clone, Copy, PartialEq, Eq, Debug)]
pub enum AllocState {
    Fungible(u64),
    NonFungible,
}

/// Contract state recorded by the store against an output.
#[derive(Clone, Copy, PartialEq, Eq, Debug)]
pub struct Allocation {
    pub contract_id: ContractId,
    pub output: Outpoint,
    pub opout: Opout,
    pub state: AllocState,
}

/// The state of a new output: a fungible amount with its blinding value, or
/// the state of a consumed output carried over verbatim.
#[derive(Clone, Copy, PartialEq, Eq, Debug)]
pub enum OutputState {
    Fungible { amount: u64, blinding: u64 },
    Forward(Opout),
}

/// A new output of a transition.
#[derive(Clone, Copy, PartialEq, Eq, Debug)]
pub struct PlannedOutput {
    pub ty: u16,
    pub seal: BlindedSeal,
    pub state: OutputState,
}

/// A transition of one contract: the state it consumes, the state it
/// creates, the outputs it spends and its priority.
#[derive(Clone, PartialEq, Eq, Debug)]
pub struct TransitionPlan {
    pub contract_id: ContractId,
    pub inputs: Vec<Opout>,
    pub outputs: Vec<PlannedOutput>,
    pub consumed: Vec<Outpoint>,
    pub priority: u64,
}

pub struct PlanV {
    pub contract_id: ContractId,
    pub inputs: Seq<Opout>,
    pub outputs: Seq<PlannedOutput>,
    pub consumed: Seq<Outpoint>,
    pub priority: u64,
}

impl View for TransitionPlan {
    type V = PlanV;

    open spec fn view(&self) -> PlanV {
        PlanV {
            contract_id: self.contract_id,
            inputs: self.inputs@,
            outputs: self.outputs@,
            consumed: self.consumed@,
            priority: self.priority,
        }
    }
}

/// Why a transfer could not be composed; each names the contract at fault.
#[derive(Clone, Copy, PartialEq, Eq, Debug)]
pub enum ComposeError {
    /// Less of the contract is held on the spent outputs than is requested.
    Shortfall(ContractId),
    /// No state slot is known for the contract's asset.
    InvalidAssignment(ContractId),
    /// The asset slot holds state that is not a fungible amount.
    UnsupportedState(ContractId),
    /// The contract's amounts on the spent outputs, or the amounts requested
    /// of it, add up to more than 64 bits.
    Overflow(ContractId),
    /// The transition spends more outputs than a closing method can express.
    TooManyInputs(ContractId),
    /// State must go to change, but no change beneficiary was given.
    NoChangeSeal(ContractId),
}

/// `s` with `x` appended unless it is already there.
pub open spec fn push_unique<T>(s: Seq<T>, x: T) -> Seq<T> {
    if s.contains(x) {
        s
    } else {
        s.push(x)
    }
}

/// What one contract holds on the spent outputs.
pub struct ScanV {
    pub inputs: Seq<Opout>,
    pub consumed: Seq<Outpoint>,
    pub forwards: Seq<Opout>,
    pub sum: int,
    pub unsupported: bool,
}

/// Whether an allocation's state is carried over rather than counted, given
/// the asset slot (none: everything is carried over).
pub open spec fn forwarded(a: Allocation, slot: Option<u16>) -> bool {
    slot is None || a.opout.ty != slot->Some_0
}

/// Walks the allocations of contract `cid` on the spent outputs `prev`:
/// every one is an input; those outside the asset slot are carried over; the
/// amounts in the slot are summed.
pub open spec fn scan(allocs: Seq<Allocation>, prev: Seq<Outpoint>, cid: ContractId, slot: Option<u16>) -> ScanV
    decreases allocs.len(),
{
    if allocs.len() == 0 {
        ScanV {
            inputs: seq![],
            consumed: seq![],
            forwards: seq![],
            sum: 0,
            unsupported: false,
        }
    } else {
        let r = scan(allocs.drop_last(), prev, cid, slot);
        let a = allocs.last();
        if a.contract_id != cid || !prev.contains(a.output) {
            r
        } else {
            let fwd = forwarded(a, slot);
            ScanV {
                inputs: r.inputs.push(a.opout),
                consumed: push_unique(r.consumed, a.output),
                forwards: if fwd {
                    r.forwards.push(a.opout)
                } else {
                    r.forwards
                },
                sum: if !fwd && a.state is Fungible {
                    r.sum + a.state->Fungible_0
                } else {
                    r.sum
                },
                unsupported: r.unsupported || (!fwd && a.state is NonFungible),
            }
        }
    }
}

/// Outputs that carry the forwarded states over to the change seal.
pub open spec fn forward_outputs(fw: Seq<Opout>, cs: BlindedSeal) -> Seq<PlannedOutput> {
    Seq::new(
        fw.len(),
        |j: int| PlannedOutput { ty: fw[j].ty, seal: cs, state: OutputState::Forward(fw[j]) },
    )
}

/// One output per recipient: its seal blinding is draw `seal_off + j`, its
/// amount blinding draw `k + j`.
pub open spec fn recipient_outputs(
    recips: Seq<(Beneficiary, u64)>,
    slot: u16,
    key: Seq<u8>,
    seal_off: int,
    k: int,
) -> Seq<PlannedOutput> {
    Seq::new(
        recips.len(),
        |j: int|
            PlannedOutput {
                ty: slot,
                seal: BlindedSeal { beneficiary: recips[j].0, blinding: draw(key, seal_off + j) },
                state: OutputState::Fungible { amount: recips[j].1, blinding: draw(key, k + j) },
            },
    )
}

/// The change output for `amount`, none when it is zero.
pub open spec fn change_output(amount: int, cs: BlindedSeal, slot: u16, key: Seq<u8>, k: int) -> Seq<
    PlannedOutput,
> {
    if amount > 0 {
        seq![
            PlannedOutput {
                ty: slot,
                seal: cs,
                state: OutputState::Fungible { amount: amount as u64, blinding: draw(key, k) },
            },
        ]
    } else {
        seq![]
    }
}

/// The transition of a requested contract, and the next free draw.
pub open spec fn targeted_plan(
    allocs: Seq<Allocation>,
    prev: Seq<Outpoint>,
    cid: ContractId,
    recips: Seq<(Beneficiary, u64)>,
    slot: u16,
    change: Option<BlindedSeal>,
    key: Seq<u8>,
    seal_off: int,
    k: int,
) -> Result<(PlanV, int), ComposeError> {
    let sc = scan(allocs, prev, cid, Some(slot));
    let req = sum_amounts(recips);
    if sc.unsupported {
        Err(ComposeError::UnsupportedState(cid))
    } else if sc.sum > u64::MAX || req > u64::MAX {
        Err(ComposeError::Overflow(cid))
    } else if sc.sum < req {
        Err(ComposeError::Shortfall(cid))
    } else if (sc.forwards.len() > 0 || sc.sum > req) && change is None {
        Err(ComposeError::NoChangeSeal(cid))
    } else if sc.consumed.len() > u16::MAX {
        Err(ComposeError::TooManyInputs(cid))
    } else {
        let cs = change->Some_0;
        let kc = k + recips.len();
        Ok(
            (
                PlanV {
                    contract_id: cid,
                    inputs: sc.inputs,
                    outputs: forward_outputs(sc.forwards, cs) + recipient_outputs(
                        recips,
                        slot,
                        key,
                        seal_off,
                        k,
                    ) + change_output(sc.sum - req, cs, slot, key, kc),
                    consumed: sc.consumed,
                    priority: u64::MAX,
                },
                if sc.sum > req {
                    kc + 1
                } else {
                    kc
                },
            ),
        )
    }
}

/// The transitions of the requested contracts, in order, and the next free
/// draw; the first contract that fails decides the error.
pub open spec fn targeted_all(
    allocs: Seq<Allocation>,
    prev: Seq<Outpoint>,
    assign: Seq<(ContractId, Seq<(Beneficiary, u64)>)>,
    slots: Seq<(ContractId, u16)>,
    change: Option<BlindedSeal>,
    key: Seq<u8>,
    k0: int,
) -> Result<(Seq<PlanV>, int), ComposeError>
    decreases assign.len(),
{
    if assign.len() == 0 {
        Ok((seq![], k0))
    } else {
        match targeted_all(allocs, prev, assign.drop_last(), slots, change, key, k0) {
            Err(e) => Err(e),
            Ok((ps, k)) => {
                let cid = assign.last().0;
                let si = find_key(slots, cid);
                if si < 0 {
                    Err(ComposeError::InvalidAssignment(cid))
                } else {
                    match targeted_plan(
                        allocs,
                        prev,
                        cid,
                        assign.last().1,
                        slots[si].1,
                        change,
                        key,
                        total_recipients(assign.drop_last()),
                        k,
                    ) {
                        Err(e) => Err(e),
                        Ok((p, k2)) => Ok((ps.push(p), k2)),
                    }
                }
            },
        }
    }
}

/// The contracts found on the spent outputs that the distribution does not
/// name, in order of first appearance.
pub open spec fn blank_ids(allocs: Seq<Allocation>, prev: Seq<Outpoint>, requested: Seq<ContractId>) -> Seq<ContractId>
    decreases allocs.len(),
{
    if allocs.len() == 0 {
        seq![]
    } else {
        let r = blank_ids(allocs.drop_last(), prev, requested);
        let a = allocs.last();
        if prev.contains(a.output) && !requested.contains(a.contract_id) {
            push_unique(r, a.contract_id)
        } else {
            r
        }
    }
}

/// The blank transition of an untargeted contract: all its state on the
/// spent outputs goes over to the change seal unchanged.
pub open spec fn blank_plan(allocs: Seq<Allocation>, prev: Seq<Outpoint>, cid: ContractId, change: Option<BlindedSeal>) -> Result<PlanV, ComposeError> {
    let sc = scan(allocs, prev, cid, None);
    if change is None {
        Err(ComposeError::NoChangeSeal(cid))
    } else if sc.consumed.len() > u16::MAX {
        Err(ComposeError::TooManyInputs(cid))
    } else {
        Ok(
            PlanV {
                contract_id: cid,
                inputs: sc.inputs,
                outputs: forward_outputs(sc.forwards, change->Some_0),
                consumed: sc.consumed,
                priority: u64::MAX,
            },
        )
    }
}

pub open spec fn blanks_all(allocs: Seq<Allocation>, prev: Seq<Outpoint>, ids: Seq<ContractId>, change: Option<BlindedSeal>) -> Result<Seq<PlanV>, ComposeError>
    decreases ids.len(),
{
    if ids.len() == 0 {
        Ok(seq![])
    } else {
        match blanks_all(allocs, prev, ids.drop_last(), change) {
            Err(e) => Err(e),
            Ok(ps) => match blank_plan(allocs, prev, ids.last(), change) {
                Err(e) => Err(e),
                Ok(p) => Ok(ps.push(p)),
            },
        }
    }
}

pub open spec fn contract_ids(assign: Seq<(ContractId, Seq<(Beneficiary, u64)>)>) -> Seq<ContractId> {
    assign.map_values(|e: (ContractId, Seq<(Beneficiary, u64)>)| e.0)
}

/// The change seal: its blinding is the draw after all recipient seals.
pub open spec fn change_blinded(
    assign: Seq<(ContractId, Seq<(Beneficiary, u64)>)>,
    change: Option<Beneficiary>,
    key: Seq<u8>,
) -> Option<BlindedSeal> {
    match change {
        None => None,
        Some(b) => Some(
            BlindedSeal { beneficiary: b, blinding: draw(key, total_recipients(assign)) },
        ),
    }
}

/// All transitions of a transfer: one per requested contract, then one blank
/// transition per other contract found on the spent outputs.
pub open spec fn compose_spec(
    prev: Seq<Outpoint>,
    allocs: Seq<Allocation>,
    slots: Seq<(ContractId, u16)>,
    assign: Seq<(ContractId, Seq<(Beneficiary, u64)>)>,
    change: Option<Beneficiary>,
    key: Seq<u8>,
) -> Result<Seq<PlanV>, ComposeError> {
    let cb = change_blinded(assign, change, key);
    let k0 = total_recipients(assign) + if change is Some {
        1int
    } else {
        0
    };
    match targeted_all(allocs, prev, assign, slots, cb, key, k0) {
        Err(e) => Err(e),
        Ok((ps, _)) => match blanks_all(
            allocs,
            prev,
            blank_ids(allocs, prev, contract_ids(assign)),
            cb,
        ) {
            Err(e) => Err(e),
            Ok(bs) => Ok(ps + bs),
        },
    }
}


/// Whether `k` occurs in `s`.
pub fn contains_key<K: SameKey>(s: &Vec<K>, k: &K) -> (r: bool)
    ensures
        r == s@.contains(*k),
{
    let mut i: usize = 0;
    while i < s.len()
        invariant
            i <= s@.len(),
            forall|j: int| 0 <= j < i ==> s@[j] != *k,
        decreases s@.len() - i,
    {
        if s[i].same(k) {
            assert(s@[i as int] == *k);
            return true;
        }
        i = i + 1;
    }
    false
}

fn push_unique_exec<K: SameKey>(s: &mut Vec<K>, x: K)
    ensures
        final(s)@ == push_unique(old(s)@, x),
{
    if !contains_key(s, &x) {
        s.push(x);
    }
}

/// What one contract holds on the spent outputs; `overflow` says that the
/// amounts in the asset slot exceed 64 bits, and then `sum` means nothing.
pub struct Scan {
    pub inputs: Vec<Opout>,
    pub consumed: Vec<Outpoint>,
    pub forwards: Vec<Opout>,
    pub sum: u64,
    pub overflow: bool,
    pub unsupported: bool,
}

pub open spec fn scan_matches(s: Scan, v: ScanV) -> bool {
    &&& s.inputs@ == v.inputs
    &&& s.consumed@ == v.consumed
    &&& s.forwards@ == v.forwards
    &&& s.unsupported == v.unsupported
    &&& s.overflow == (v.sum > u64::MAX)
    &&& !s.overflow ==> s.sum == v.sum
}

/// Walks the allocations of contract `cid` on the spent outputs `prev`.
pub fn scan_contract(allocs: &Vec<Allocation>, prev: &Vec<Outpoint>, cid: &ContractId, slot: Option<u16>) -> (r: Scan)
    ensures
        scan_matches(r, scan(allocs@, prev@, *cid, slot)),
{
    let mut acc = Scan {
        inputs: Vec::new(),
        consumed: Vec::new(),
        forwards: Vec::new(),
        sum: 0,
        overflow: false,
        unsupported: false,
    };
    let mut i: usize = 0;
    proof {
        assert(acc.inputs@ =~= seq![]);
        assert(acc.consumed@ =~= seq![]);
        assert(acc.forwards@ =~= seq![]);
    }
    while i < allocs.len()
        invariant
            i <= allocs@.len(),
            scan_matches(acc, scan(allocs@.take(i as int), prev@, *cid, slot)),
        decreases allocs@.len() - i,
    {
        let a = allocs[i];
        proof {
            assert(allocs@.take(i + 1).drop_last() =~= allocs@.take(i as int));
        }
        if a.contract_id.same(cid) && contains_key(prev, &a.output) {
            acc.inputs.push(a.opout);
            push_unique_exec(&mut acc.consumed, a.output);
            let fwd = match slot {
                None => true,
                Some(t) => a.opout.ty != t,
            };
            if fwd {
                acc.forwards.push(a.opout);
            } else {
                match a.state {
                    AllocState::Fungible(v) => {
                        if !acc.overflow {
                            if acc.sum > u64::MAX - v {
                                acc.overflow = true;
                            } else {
                                acc.sum = acc.sum + v;
                            }
                        }
                    },
                    AllocState::NonFungible => {
                        acc.unsupported = true;
                    },
                }
            }
        }
        i = i + 1;
    }
    assert(allocs@.take(i as int) =~= allocs@);
    acc
}


fn push_forwards(outs: &mut Vec<PlannedOutput>, fw: &Vec<Opout>, cs: BlindedSeal)
    requires
        old(outs)@.len() == 0,
    ensures
        final(outs)@ == forward_outputs(fw@, cs),
{
    let mut j: usize = 0;
    while j < fw.len()
        invariant
            j <= fw@.len(),
            outs@ =~= forward_outputs(fw@, cs).take(j as int),
        decreases fw@.len() - j,
    {
        let o = fw[j];
        outs.push(PlannedOutput { ty: o.ty, seal: cs, state: OutputState::Forward(o) });
        j = j + 1;
    }
    assert(forward_outputs(fw@, cs).take(j as int) =~= forward_outputs(fw@, cs));
}

fn push_recipients(
    outs: &mut Vec<PlannedOutput>,
    recips: &Vec<(Beneficiary, u64)>,
    slot: u16,
    key: &[u8; 32],
    seal_off: u64,
    k: u64,
)
    requires
        seal_off + recips@.len() <= u64::MAX,
        k + recips@.len() <= u64::MAX,
    ensures
        final(outs)@ == old(outs)@ + recipient_outputs(recips@, slot, key@, seal_off as int, k as int),
{
    let ghost base = old(outs)@;
    let ghost want = recipient_outputs(recips@, slot, key@, seal_off as int, k as int);
    let mut j: usize = 0;
    while j < recips.len()
        invariant
            j <= recips@.len(),
            seal_off + recips@.len() <= u64::MAX,
            k + recips@.len() <= u64::MAX,
            want == recipient_outputs(recips@, slot, key@, seal_off as int, k as int),
            outs@ =~= base + want.take(j as int),
        decreases recips@.len() - j,
    {
        let (b, amount) = recips[j];
        let seal_blinding = blinding_at(key, seal_off + j as u64);
        let amount_blinding = blinding_at(key, k + j as u64);
        outs.push(
            PlannedOutput {
                ty: slot,
                seal: BlindedSeal { beneficiary: b, blinding: seal_blinding },
                state: OutputState::Fungible { amount, blinding: amount_blinding },
            },
        );
        j = j + 1;
        assert(outs@ =~= base + want.take(j as int));
    }
    assert(want.take(j as int) =~= want);
}

/// The transition of requested contract `cid`, and the next free draw.
pub fn plan_targeted(
    allocs: &Vec<Allocation>,
    prev: &Vec<Outpoint>,
    cid: ContractId,
    recips: &Vec<(Beneficiary, u64)>,
    slot: u16,
    change: Option<BlindedSeal>,
    key: &[u8; 32],
    seal_off: u64,
    k: u64,
) -> (r: Result<(TransitionPlan, u64), ComposeError>)
    requires
        seal_off + recips@.len() <= u64::MAX,
        k + recips@.len() + 1 <= u64::MAX,
    ensures
        match r {
            Ok((p, k2)) => targeted_plan(allocs@, prev@, cid, recips@, slot, change, key@, seal_off as int, k as int)
                == Ok::<(PlanV, int), ComposeError>((p@, k2 as int)),
            Err(e) => targeted_plan(allocs@, prev@, cid, recips@, slot, change, key@, seal_off as int, k as int)
                == Err::<(PlanV, int), ComposeError>(e),
        },
{
    let sc = scan_contract(allocs, prev, &cid, Some(slot));
    let ghost v = scan(allocs@, prev@, cid, Some(slot));
    let wide = sum_wide(recips);
    if sc.unsupported {
        return Err(ComposeError::UnsupportedState(cid));
    }
    if sc.overflow || wide > u64::MAX as u128 {
        return Err(ComposeError::Overflow(cid));
    }
    let req = wide as u64;
    if sc.sum < req {
        return Err(ComposeError::Shortfall(cid));
    }
    let needs_change = sc.forwards.len() > 0 || sc.sum > req;
    let cs = match change {
        Some(c) => c,
        None => {
            if needs_change {
                return Err(ComposeError::NoChangeSeal(cid));
            }
            // Nothing goes to change, so this seal is never used.
            BlindedSeal { beneficiary: Beneficiary::WitnessVout(0), blinding: 0 }
        },
    };
    if sc.consumed.len() > 65535 {
        return Err(ComposeError::TooManyInputs(cid));
    }
    let ghost csv = change->Some_0;
    let mut outs: Vec<PlannedOutput> = Vec::new();
    push_forwards(&mut outs, &sc.forwards, cs);
    assert(change is None ==> sc.forwards@.len() == 0);
    assert(outs@ =~= forward_outputs(v.forwards, csv));
    push_recipients(&mut outs, recips, slot, key, seal_off, k);
    let kc = k + recips.len() as u64;
    let mut k2 = kc;
    if sc.sum > req {
        let blinding = blinding_at(key, kc);
        outs.push(
            PlannedOutput {
                ty: slot,
                seal: cs,
                state: OutputState::Fungible { amount: sc.sum - req, blinding },
            },
        );
        k2 = kc + 1;
    }
    let ghost want = forward_outputs(v.forwards, csv) + recipient_outputs(
        recips@,
        slot,
        key@,
        seal_off as int,
        k as int,
    ) + change_output(v.sum - sum_amounts(recips@), csv, slot, key@, kc as int);
    assert(outs@ =~= want);
    let p = TransitionPlan {
        contract_id: cid,
        inputs: sc.inputs,
        outputs: outs,
        consumed: sc.consumed,
        priority: u64::MAX,
    };
    Ok((p, k2))
}


/// An error of the transitions of a prefix of the requested contracts is
/// the error of all of them.
pub proof fn lemma_targeted_err(
    allocs: Seq<Allocation>,
    prev: Seq<Outpoint>,
    assign: Seq<(ContractId, Seq<(Beneficiary, u64)>)>,
    slots: Seq<(ContractId, u16)>,
    change: Option<BlindedSeal>,
    key: Seq<u8>,
    k0: int,
    i: int,
)
    requires
        0 <= i <= assign.len(),
        targeted_all(allocs, prev, assign.take(i), slots, change, key, k0) is Err,
    ensures
        targeted_all(allocs, prev, assign, slots, change, key, k0) == targeted_all(
            allocs,
            prev,
            assign.take(i),
            slots,
            change,
            key,
            k0,
        ),
    decreases assign.len(),
{
    if i == assign.len() {
        assert(assign.take(i) =~= assign);
    } else {
        assert(assign.drop_last().take(i) =~= assign.take(i));
        lemma_targeted_err(allocs, prev, assign.drop_last(), slots, change, key, k0, i);
    }
}

proof fn lemma_blanks_err(
    allocs: Seq<Allocation>,
    prev: Seq<Outpoint>,
    ids: Seq<ContractId>,
    change: Option<BlindedSeal>,
    i: int,
)
    requires
        0 <= i <= ids.len(),
        blanks_all(allocs, prev, ids.take(i), change) is Err,
    ensures
        blanks_all(allocs, prev, ids, change) == blanks_all(allocs, prev, ids.take(i), change),
    decreases ids.len(),
{
    if i == ids.len() {
        assert(ids.take(i) =~= ids);
    } else {
        assert(ids.drop_last().take(i) =~= ids.take(i));
        lemma_blanks_err(allocs, prev, ids.drop_last(), change, i);
    }
}

/// The contracts found on the spent outputs that `requested` does not name.
pub fn find_blank_ids(allocs: &Vec<Allocation>, prev: &Vec<Outpoint>, requested: &Vec<ContractId>) -> (r: Vec<ContractId>)
    ensures
        r@ == blank_ids(allocs@, prev@, requested@),
{
    let mut ids: Vec<ContractId> = Vec::new();
    let mut i: usize = 0;
    assert(ids@ =~= blank_ids(allocs@.take(0), prev@, requested@));
    while i < allocs.len()
        invariant
            i <= allocs@.len(),
            ids@ == blank_ids(allocs@.take(i as int), prev@, requested@),
        decreases allocs@.len() - i,
    {
        let a = allocs[i];
        proof {
            assert(allocs@.take(i + 1).drop_last() =~= allocs@.take(i as int));
        }
        if contains_key(prev, &a.output) && !contains_key(requested, &a.contract_id) {
            push_unique_exec(&mut ids, a.contract_id);
        }
        i = i + 1;
    }
    assert(allocs@.take(i as int) =~= allocs@);
    ids
}

/// The blank transition of untargeted contract `cid`.
pub fn plan_blank(allocs: &Vec<Allocation>, prev: &Vec<Outpoint>, cid: ContractId, change: Option<BlindedSeal>) -> (r: Result<TransitionPlan, ComposeError>)
    ensures
        match r {
            Ok(p) => blank_plan(allocs@, prev@, cid, change) == Ok::<PlanV, ComposeError>(p@),
            Err(e) => blank_plan(allocs@, prev@, cid, change) == Err::<PlanV, ComposeError>(e),
        },
{
    let sc = scan_contract(allocs, prev, &cid, None);
    let cs = match change {
        None => {
            return Err(ComposeError::NoChangeSeal(cid));
        },
        Some(c) => c,
    };
    if sc.consumed.len() > 65535 {
        return Err(ComposeError::TooManyInputs(cid));
    }
    let mut outs: Vec<PlannedOutput> = Vec::new();
    push_forwards(&mut outs, &sc.forwards, cs);
    Ok(
        TransitionPlan {
            contract_id: cid,
            inputs: sc.inputs,
            outputs: outs,
            consumed: sc.consumed,
            priority: u64::MAX,
        },
    )
}

pub open spec fn plan_views(v: Seq<TransitionPlan>) -> Seq<PlanV> {
    v.map_values(|p: TransitionPlan| p@)
}

/// All transitions of a transfer, with blinding values drawn from the stream
/// keyed by `key`.
pub fn compose_with_key(
    prev: &Vec<Outpoint>,
    allocs: &Vec<Allocation>,
    slots: &Vec<(ContractId, u16)>,
    assignments: &RgbAssignments,
    change_seal: Option<Beneficiary>,
    key: &[u8; 32],
) -> (r: Result<Vec<TransitionPlan>, ComposeError>)
    requires
        assignments.wf(),
        3 * total_recipients(assignments@) + 1 <= u64::MAX,
    ensures
        match r {
            Ok(v) => compose_spec(prev@, allocs@, slots@, assignments@, change_seal, key@) == Ok::<
                Seq<PlanV>,
                ComposeError,
            >(plan_views(v@)),
            Err(e) => compose_spec(prev@, allocs@, slots@, assignments@, change_seal, key@) == Err::<
                Seq<PlanV>,
                ComposeError,
            >(e),
        },
{
    let ghost a = assignments@;
    let n_recips = assignments.recipient_count();
    let cb = match change_seal {
        None => None,
        Some(b) => Some(BlindedSeal { beneficiary: b, blinding: blinding_at(key, n_recips) }),
    };
    let k0: u64 = match change_seal {
        None => n_recips,
        Some(_) => n_recips + 1,
    };
    assert(cb == change_blinded(a, change_seal, key@));
    let mut plans: Vec<TransitionPlan> = Vec::new();
    let mut k: u64 = k0;
    let mut seal_off: u64 = 0;
    let mut i: usize = 0;
    let n = assignments.contracts().len();
    proof {
        assert(a.take(0) =~= Seq::<(ContractId, Seq<(Beneficiary, u64)>)>::empty());
        assert(plan_views(plans@) =~= seq![]);
    }
    while i < n
        invariant
            n == a.len(),
            a == assignments@,
            distribution_wf(a),
            3 * total_recipients(a) + 1 <= u64::MAX,
            n_recips == total_recipients(a),
            k0 == total_recipients(a) + if change_seal is Some {
                1int
            } else {
                0
            },
            cb == change_blinded(a, change_seal, key@),
            i <= n,
            seal_off == total_recipients(a.take(i as int)),
            k <= k0 + 2 * total_recipients(a.take(i as int)),
            targeted_all(allocs@, prev@, a.take(i as int), slots@, cb, key@, k0 as int) == Ok::<
                (Seq<PlanV>, int),
                ComposeError,
            >((plan_views(plans@), k as int)),
        decreases n - i,
    {
        proof {
            lemma_total_prefix(a, i as int);
            lemma_total_prefix(a, i + 1);
            assert(a.take(i + 1).drop_last() =~= a.take(i as int));
            assert(a[i as int].1.len() > 0);
        }
        let (cid, recips) = assignments.recipients_at(i);
        proof {
            lemma_find_key(slots@, cid);
            assert(a.take(i + 1).last() == a[i as int]);
        }
        match find_entry(slots, &cid) {
            None => {
                proof {
                    lemma_targeted_err(allocs@, prev@, a, slots@, cb, key@, k0 as int, i + 1);
                }
                return Err(ComposeError::InvalidAssignment(cid));
            },
            Some(si) => {
                let slot = slots[si].1;
                match plan_targeted(allocs, prev, cid, &recips, slot, cb, key, seal_off, k) {
                    Err(e) => {
                        proof {
                            lemma_targeted_err(allocs@, prev@, a, slots@, cb, key@, k0 as int, i + 1);
                        }
                        return Err(e);
                    },
                    Ok((p, k2)) => {
                        let ghost before = plans@;
                        proof {
                            assert(slots@[si as int].1 == slot);
                            assert(a.take(i + 1).last().1 == recips@);
                            assert(a.take(i + 1).last().0 == cid);
                            assert(targeted_all(allocs@, prev@, a.take(i + 1), slots@, cb, key@, k0 as int)
                                == Ok::<(Seq<PlanV>, int), ComposeError>(
                                (plan_views(before).push(p@), k2 as int),
                            ));
                        }
                        plans.push(p);
                        proof {
                            assert(plan_views(plans@) =~= plan_views(before).push(p@));
                        }
                        k = k2;
                        seal_off = seal_off + recips.len() as u64;
                    },
                }
            },
        }
        i = i + 1;
    }
    assert(a.take(i as int) =~= a);
    let ghost ps = plan_views(plans@);
    let requested = assignments.contracts();
    assert(requested@ =~= contract_ids(a));
    let ids = find_blank_ids(allocs, prev, &requested);
    let mut j: usize = 0;
    assert(ids@.take(0) =~= Seq::<ContractId>::empty());
    assert(plan_views(plans@) =~= ps + seq![]);
    while j < ids.len()
        invariant
            j <= ids@.len(),
            a == assignments@,
            cb == change_blinded(a, change_seal, key@),
            k0 == total_recipients(a) + if change_seal is Some {
                1int
            } else {
                0
            },
            targeted_all(allocs@, prev@, a, slots@, cb, key@, k0 as int) == Ok::<
                (Seq<PlanV>, int),
                ComposeError,
            >((ps, k as int)),
            ids@ == blank_ids(allocs@, prev@, contract_ids(a)),
            blanks_all(allocs@, prev@, ids@.take(j as int), cb) is Ok,
            plan_views(plans@) == ps + blanks_all(allocs@, prev@, ids@.take(j as int), cb)->Ok_0,
        decreases ids@.len() - j,
    {
        proof {
            assert(ids@.take(j + 1).drop_last() =~= ids@.take(j as int));
        }
        match plan_blank(allocs, prev, ids[j], cb) {
            Err(e) => {
                proof {
                    lemma_blanks_err(allocs@, prev@, ids@, cb, j + 1);
                }
                return Err(e);
            },
            Ok(p) => {
                proof {
                    assert(ids@.take(j + 1).last() == ids@[j as int]);
                    let prior = blanks_all(allocs@, prev@, ids@.take(j as int), cb)->Ok_0;
                    assert(ps + prior.push(p@) =~= (ps + prior).push(p@));
                }
                plans.push(p);
            },
        }
        j = j + 1;
        proof {
            assert(plan_views(plans@) =~= plan_views(plans@.drop_last()).push(plans@.last()@));
        }
    }
    assert(ids@.take(j as int) =~= ids@);
    Ok(plans)
}


/// Composes the transitions of a transfer that spends `prev_outputs`.
///
/// `allocations` is what the store reports on those outputs, and
/// `asset_slots` the asset slot of each contract. Each requested contract
/// gets one transition paying its recipients, with any surplus to the
/// change beneficiary; each other contract found on the spent outputs gets a
/// blank transition that moves its state to the change beneficiary. All
/// blinding values come from one ChaCha20 stream keyed by the SHA-256 of the
/// request and `seed`: recipient seals first, then the change seal, then
/// amounts in the order the outputs are made. Every transition carries the
/// maximum priority.
pub fn rgb_compose(
    prev_outputs: &Vec<Outpoint>,
    allocations: &Vec<Allocation>,
    asset_slots: &Vec<(ContractId, u16)>,
    rgb_assignments: RgbAssignments,
    change_seal: Option<Beneficiary>,
    seed: u64,
) -> (r: Result<Vec<TransitionPlan>, ComposeError>)
    requires
        rgb_assignments.wf(),
        3 * total_recipients(rgb_assignments@) + 1 <= u64::MAX,
    ensures
        ({
            let key = coloring_key(prev_outputs@, rgb_assignments@, change_seal, seed);
            let want = compose_spec(
                prev_outputs@,
                allocations@,
                asset_slots@,
                rgb_assignments@,
                change_seal,
                key,
            );
            match r {
                Ok(v) => want == Ok::<Seq<PlanV>, ComposeError>(plan_views(v@)),
                Err(e) => want == Err::<Seq<PlanV>, ComposeError>(e),
            }
        }),
{
    let key = derive_coloring_key(prev_outputs, &rgb_assignments, change_seal, seed);
    compose_with_key(prev_outputs, allocations, asset_slots, &rgb_assignments, change_seal, &key)
}

} // verus!
