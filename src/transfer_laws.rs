use vstd::prelude::*;

use crate::assignments::{
    distribution_wf, law_distribution_canonical, lemma_sum_nonneg, owed, sum_amounts,
    total_recipients,
};
use crate::compose::{
    blank_ids, blanks_all, change_blinded, lemma_targeted_err, change_output, compose_spec, contract_ids,
    forward_outputs, recipient_outputs, scan, targeted_all, targeted_plan, Allocation, ComposeError,
    Opout, OutputState, PlanV, PlannedOutput,
};
use crate::blinding::draw;
use crate::commit::{
    bundle_maps, contracts_of, entries_of, input_map_of, lemma_first_index, messages_of,
    InfoV,
};
use crate::external::mpc_commitment_of;
use crate::seed::coloring_key;
use crate::types::{OpId, find_key, lemma_find_key, BlindedSeal, Beneficiary, ContractId, Outpoint};

verus! {

/// Sum of the fungible amounts that a list of new outputs creates.
pub open spec fn fungible_total(outs: Seq<PlannedOutput>) -> int
    decreases outs.len(),
{
    if outs.len() == 0 {
        0
    } else {
        fungible_total(outs.drop_last()) + match outs.last().state {
            OutputState::Fungible { amount, blinding: _ } => amount as int,
            OutputState::Forward(_) => 0,
        }
    }
}

/// The consumed states that a list of new outputs carries over, in order.
pub open spec fn forwarded_states(outs: Seq<PlannedOutput>) -> Seq<Opout>
    decreases outs.len(),
{
    if outs.len() == 0 {
        seq![]
    } else {
        let r = forwarded_states(outs.drop_last());
        match outs.last().state {
            OutputState::Forward(o) => r.push(o),
            OutputState::Fungible { .. } => r,
        }
    }
}

proof fn lemma_concat(a: Seq<PlannedOutput>, b: Seq<PlannedOutput>)
    ensures
        fungible_total(a + b) == fungible_total(a) + fungible_total(b),
        forwarded_states(a + b) == forwarded_states(a) + forwarded_states(b),
    decreases b.len(),
{
    if b.len() == 0 {
        assert(a + b =~= a);
        assert(forwarded_states(a) + forwarded_states(b) =~= forwarded_states(a));
    } else {
        assert((a + b).drop_last() =~= a + b.drop_last());
        assert((a + b).last() == b.last());
        lemma_concat(a, b.drop_last());
        let fa = forwarded_states(a);
        let fb = forwarded_states(b.drop_last());
        assert((fa + fb).push(b.last().state->Forward_0) =~= fa + fb.push(b.last().state->Forward_0));
    }
}

proof fn lemma_forward_outputs(fw: Seq<Opout>, cs: BlindedSeal)
    ensures
        fungible_total(forward_outputs(fw, cs)) == 0,
        forwarded_states(forward_outputs(fw, cs)) == fw,
    decreases fw.len(),
{
    if fw.len() == 0 {
        assert(forward_outputs(fw, cs) =~= seq![]);
        assert(fw =~= seq![]);
    } else {
        assert(forward_outputs(fw, cs).drop_last() =~= forward_outputs(fw.drop_last(), cs));
        lemma_forward_outputs(fw.drop_last(), cs);
        assert(fw.drop_last().push(fw.last()) =~= fw);
    }
}

proof fn lemma_recipient_outputs(recips: Seq<(Beneficiary, u64)>, slot: u16, key: Seq<u8>, so: int, k: int)
    ensures
        fungible_total(recipient_outputs(recips, slot, key, so, k)) == sum_amounts(recips),
        forwarded_states(recipient_outputs(recips, slot, key, so, k)) == Seq::<Opout>::empty(),
    decreases recips.len(),
{
    if recips.len() == 0 {
        assert(recipient_outputs(recips, slot, key, so, k) =~= seq![]);
        assert(fungible_total(seq![]) == 0);
    } else {
        assert(recipient_outputs(recips, slot, key, so, k).drop_last() =~= recipient_outputs(
            recips.drop_last(),
            slot,
            key,
            so,
            k,
        ));
        lemma_recipient_outputs(recips.drop_last(), slot, key, so, k);
        let rs = recipient_outputs(recips, slot, key, so, k);
        assert(rs.last().state == OutputState::Fungible {
            amount: recips.last().1,
            blinding: draw(key, k + recips.len() - 1),
        });
        assert(fungible_total(rs) == fungible_total(rs.drop_last()) + recips.last().1);
    }
}

proof fn lemma_change_output(amount: int, cs: BlindedSeal, slot: u16, key: Seq<u8>, k: int)
    requires
        0 <= amount <= u64::MAX,
    ensures
        fungible_total(change_output(amount, cs, slot, key, k)) == amount,
        forwarded_states(change_output(amount, cs, slot, key, k)) == Seq::<Opout>::empty(),
{
    let c = change_output(amount, cs, slot, key, k);
    let e = Seq::<PlannedOutput>::empty();
    assert(fungible_total(e) == 0);
    assert(forwarded_states(e) == Seq::<Opout>::empty());
    if amount > 0 {
        assert(c.len() == 1);
        assert(c.drop_last() =~= e);
        assert(c.last().state is Fungible);
    } else {
        assert(c =~= e);
    }
}

/// What holds of the transition of a requested contract, whatever draws it
/// used.
pub open spec fn targeted_facts(
    p: PlanV,
    allocs: Seq<Allocation>,
    prev: Seq<Outpoint>,
    cid: ContractId,
    recips: Seq<(Beneficiary, u64)>,
    slot: u16,
) -> bool {
    let sc = scan(allocs, prev, cid, Some(slot));
    &&& p.contract_id == cid
    &&& p.inputs == sc.inputs
    &&& p.consumed == sc.consumed
    &&& p.priority == u64::MAX
    &&& !sc.unsupported
    &&& sum_amounts(recips) <= sc.sum <= u64::MAX
    &&& fungible_total(p.outputs) == sc.sum
    &&& forwarded_states(p.outputs) == sc.forwards
}

proof fn lemma_targeted_plan(
    allocs: Seq<Allocation>,
    prev: Seq<Outpoint>,
    cid: ContractId,
    recips: Seq<(Beneficiary, u64)>,
    slot: u16,
    change: Option<BlindedSeal>,
    key: Seq<u8>,
    so: int,
    k: int,
)
    requires
        targeted_plan(allocs, prev, cid, recips, slot, change, key, so, k) is Ok,
    ensures
        targeted_facts(
            targeted_plan(allocs, prev, cid, recips, slot, change, key, so, k)->Ok_0.0,
            allocs,
            prev,
            cid,
            recips,
            slot,
        ),
{
    let sc = scan(allocs, prev, cid, Some(slot));
    let req = sum_amounts(recips);
    lemma_sum_nonneg(recips);
    assert(!sc.unsupported && sc.sum <= u64::MAX && sc.sum >= req);
    let cs = change->Some_0;
    let f = forward_outputs(sc.forwards, cs);
    let r = recipient_outputs(recips, slot, key, so, k);
    let c = change_output(sc.sum - req, cs, slot, key, k + recips.len());
    lemma_forward_outputs(sc.forwards, cs);
    lemma_recipient_outputs(recips, slot, key, so, k);
    lemma_change_output(sc.sum - req, cs, slot, key, k + recips.len());
    lemma_concat(f, r);
    lemma_concat(f + r, c);
    assert(sc.forwards + Seq::<Opout>::empty() + Seq::<Opout>::empty() =~= sc.forwards);
}

proof fn lemma_targeted_all(
    allocs: Seq<Allocation>,
    prev: Seq<Outpoint>,
    assign: Seq<(ContractId, Seq<(Beneficiary, u64)>)>,
    slots: Seq<(ContractId, u16)>,
    change: Option<BlindedSeal>,
    key: Seq<u8>,
    k0: int,
)
    requires
        targeted_all(allocs, prev, assign, slots, change, key, k0) is Ok,
    ensures
        ({
            let ps = targeted_all(allocs, prev, assign, slots, change, key, k0)->Ok_0.0;
            &&& ps.len() == assign.len()
            &&& forall|i: int| 0 <= i < assign.len() ==> #[trigger] find_key(slots, assign[i].0) >= 0
            &&& forall|i: int|
                0 <= i < assign.len() ==> targeted_facts(
                    #[trigger] ps[i],
                    allocs,
                    prev,
                    assign[i].0,
                    assign[i].1,
                    slots[find_key(slots, assign[i].0)].1,
                )
        }),
    decreases assign.len(),
{
    if assign.len() > 0 {
        let d = assign.drop_last();
        lemma_targeted_all(allocs, prev, d, slots, change, key, k0);
        let (ps0, k) = targeted_all(allocs, prev, d, slots, change, key, k0)->Ok_0;
        let cid = assign.last().0;
        let si = find_key(slots, cid);
        lemma_find_key(slots, cid);
        assert(si >= 0) by {
            if si < 0 {
                assert(targeted_all(allocs, prev, assign, slots, change, key, k0) is Err);
            }
        }
        lemma_targeted_plan(allocs, prev, cid, assign.last().1, slots[si].1, change, key, total_recipients(d), k);
        let ps = targeted_all(allocs, prev, assign, slots, change, key, k0)->Ok_0.0;
        assert forall|i: int| 0 <= i < assign.len() implies #[trigger] find_key(slots, assign[i].0) >= 0 by {
            if i < assign.len() - 1 {
                assert(assign[i] == d[i]);
            }
        }
        assert forall|i: int| 0 <= i < assign.len() implies targeted_facts(
            #[trigger] ps[i],
            allocs,
            prev,
            assign[i].0,
            assign[i].1,
            slots[find_key(slots, assign[i].0)].1,
        ) by {
            let p = targeted_plan(allocs, prev, cid, assign.last().1, slots[si].1, change, key, total_recipients(d), k)->Ok_0.0;
            assert(ps == ps0.push(p));
            if i < assign.len() - 1 {
                assert(ps[i] == ps0[i]);
                assert(assign[i] == d[i]);
                assert(find_key(slots, d[i].0) >= 0);
                assert(find_key(slots, assign[i].0) >= 0);
            } else {
                assert(assign[i] == assign.last());
                assert(ps[i] == p);
            }
        }
    }
}

/// What holds of the blank transition of an untargeted contract.
pub open spec fn blank_facts(p: PlanV, allocs: Seq<Allocation>, prev: Seq<Outpoint>, cid: ContractId) -> bool {
    let sc = scan(allocs, prev, cid, None);
    &&& p.contract_id == cid
    &&& p.inputs == sc.inputs
    &&& p.consumed == sc.consumed
    &&& p.priority == u64::MAX
    &&& fungible_total(p.outputs) == 0
    &&& forwarded_states(p.outputs) == p.inputs
}

proof fn lemma_scan_none(allocs: Seq<Allocation>, prev: Seq<Outpoint>, cid: ContractId)
    ensures
        scan(allocs, prev, cid, None).forwards == scan(allocs, prev, cid, None).inputs,
    decreases allocs.len(),
{
    if allocs.len() > 0 {
        lemma_scan_none(allocs.drop_last(), prev, cid);
    }
}

proof fn lemma_blanks_all(allocs: Seq<Allocation>, prev: Seq<Outpoint>, ids: Seq<ContractId>, change: Option<BlindedSeal>)
    requires
        blanks_all(allocs, prev, ids, change) is Ok,
    ensures
        ({
            let bs = blanks_all(allocs, prev, ids, change)->Ok_0;
            &&& bs.len() == ids.len()
            &&& forall|j: int| 0 <= j < ids.len() ==> blank_facts(#[trigger] bs[j], allocs, prev, ids[j])
        }),
    decreases ids.len(),
{
    if ids.len() > 0 {
        let d = ids.drop_last();
        lemma_blanks_all(allocs, prev, d, change);
        let bs0 = blanks_all(allocs, prev, d, change)->Ok_0;
        let bs = blanks_all(allocs, prev, ids, change)->Ok_0;
        let cid = ids.last();
        lemma_scan_none(allocs, prev, cid);
        lemma_forward_outputs(scan(allocs, prev, cid, None).forwards, change->Some_0);
        assert forall|j: int| 0 <= j < ids.len() implies blank_facts(#[trigger] bs[j], allocs, prev, ids[j]) by {
            if j < ids.len() - 1 {
                assert(bs[j] == bs0[j]);
                assert(ids[j] == d[j]);
            }
        }
    }
}

proof fn lemma_blank_ids_member(allocs: Seq<Allocation>, prev: Seq<Outpoint>, requested: Seq<ContractId>, x: Allocation)
    requires
        allocs.contains(x),
        prev.contains(x.output),
        !requested.contains(x.contract_id),
    ensures
        blank_ids(allocs, prev, requested).contains(x.contract_id),
    decreases allocs.len(),
{
    let b = blank_ids(allocs, prev, requested);
    if allocs.last() == x {
        if !blank_ids(allocs.drop_last(), prev, requested).contains(x.contract_id) {
            assert(b.last() == x.contract_id);
        }
    } else {
        let i = choose|i: int| 0 <= i < allocs.len() && allocs[i] == x;
        assert(allocs.drop_last()[i] == x);
        lemma_blank_ids_member(allocs.drop_last(), prev, requested, x);
        let r = blank_ids(allocs.drop_last(), prev, requested);
        let j = choose|j: int| 0 <= j < r.len() && r[j] == x.contract_id;
        if b != r {
            assert(b[j] == x.contract_id);
        }
    }
}

/// Conservation: every requested contract gets a transition whose new
/// fungible amounts add up to exactly the amounts it consumes in the asset
/// slot, at least the requested total, and which carries every other
/// consumed state over unchanged.
pub proof fn law_conservation(
    prev: Seq<Outpoint>,
    allocs: Seq<Allocation>,
    slots: Seq<(ContractId, u16)>,
    assign: Seq<(ContractId, Seq<(Beneficiary, u64)>)>,
    change: Option<Beneficiary>,
    key: Seq<u8>,
    i: int,
)
    requires
        compose_spec(prev, allocs, slots, assign, change, key) is Ok,
        0 <= i < assign.len(),
    ensures
        ({
            let ps = compose_spec(prev, allocs, slots, assign, change, key)->Ok_0;
            let cid = assign[i].0;
            let sc = scan(allocs, prev, cid, Some(slots[find_key(slots, cid)].1));
            &&& find_key(slots, cid) >= 0
            &&& ps[i].contract_id == cid
            &&& ps[i].inputs == sc.inputs
            &&& fungible_total(ps[i].outputs) == sc.sum
            &&& sum_amounts(assign[i].1) <= sc.sum
            &&& forwarded_states(ps[i].outputs) == sc.forwards
        }),
{
    let cb = change_blinded(assign, change, key);
    let k0 = total_recipients(assign) + if change is Some {
        1int
    } else {
        0
    };
    lemma_targeted_all(allocs, prev, assign, slots, cb, key, k0);
    let ps = targeted_all(allocs, prev, assign, slots, cb, key, k0)->Ok_0.0;
    let bs = blanks_all(allocs, prev, blank_ids(allocs, prev, contract_ids(assign)), cb)->Ok_0;
    assert((ps + bs)[i] == ps[i]);
}

/// Multi-asset safety: when the spent outputs carry a requested contract
/// and another one, the transfer holds a transition of the requested
/// contract and a blank transition of the other, which consumes all of its
/// state there, `x` included, and carries every state over unchanged, so
/// that its total stays the same.
pub proof fn law_multi_asset(
    prev: Seq<Outpoint>,
    allocs: Seq<Allocation>,
    slots: Seq<(ContractId, u16)>,
    assign: Seq<(ContractId, Seq<(Beneficiary, u64)>)>,
    change: Option<Beneficiary>,
    key: Seq<u8>,
    i: int,
    x: Allocation,
)
    requires
        compose_spec(prev, allocs, slots, assign, change, key) is Ok,
        0 <= i < assign.len(),
        allocs.contains(x),
        prev.contains(x.output),
        !contract_ids(assign).contains(x.contract_id),
    ensures
        ({
            let ps = compose_spec(prev, allocs, slots, assign, change, key)->Ok_0;
            &&& ps[i].contract_id == assign[i].0
            &&& exists|j: int|
                assign.len() <= j < ps.len() && #[trigger] blank_facts(ps[j], allocs, prev, x.contract_id)
                    && ps[j].inputs.contains(x.opout)
        }),
{
    let cb = change_blinded(assign, change, key);
    let k0 = total_recipients(assign) + if change is Some {
        1int
    } else {
        0
    };
    lemma_targeted_all(allocs, prev, assign, slots, cb, key, k0);
    let ps = targeted_all(allocs, prev, assign, slots, cb, key, k0)->Ok_0.0;
    let ids = blank_ids(allocs, prev, contract_ids(assign));
    lemma_blank_ids_member(allocs, prev, contract_ids(assign), x);
    lemma_blanks_all(allocs, prev, ids, cb);
    let bs = blanks_all(allocs, prev, ids, cb)->Ok_0;
    let all = ps + bs;
    assert(all[i] == ps[i]);
    let m = choose|m: int| 0 <= m < ids.len() && ids[m] == x.contract_id;
    let j = assign.len() + m;
    assert(all[j] == bs[m]);
    lemma_scan_has_input(allocs, prev, x.contract_id, x);
    assert(blank_facts(all[j], allocs, prev, x.contract_id));
}

proof fn lemma_scan_has_input(allocs: Seq<Allocation>, prev: Seq<Outpoint>, cid: ContractId, x: Allocation)
    requires
        allocs.contains(x),
        prev.contains(x.output),
        x.contract_id == cid,
    ensures
        scan(allocs, prev, cid, None).inputs.contains(x.opout),
    decreases allocs.len(),
{
    let r = scan(allocs.drop_last(), prev, cid, None);
    if allocs.last() == x {
        assert(scan(allocs, prev, cid, None).inputs.last() == x.opout);
    } else {
        let i = choose|i: int| 0 <= i < allocs.len() && allocs[i] == x;
        assert(allocs.drop_last()[i] == x);
        lemma_scan_has_input(allocs.drop_last(), prev, cid, x);
        let j = choose|j: int| 0 <= j < r.inputs.len() && r.inputs[j] == x.opout;
        assert(scan(allocs, prev, cid, None).inputs[j] == x.opout);
    }
}

/// Shortfall: when a requested contract holds less on the spent outputs
/// than is requested of it (a request that fits in 64 bits), no transfer is
/// composed; when every contract before it composes, the error is the
/// shortfall of that contract.
pub proof fn law_shortfall(
    prev: Seq<Outpoint>,
    allocs: Seq<Allocation>,
    slots: Seq<(ContractId, u16)>,
    assign: Seq<(ContractId, Seq<(Beneficiary, u64)>)>,
    change: Option<Beneficiary>,
    key: Seq<u8>,
    i: int,
)
    requires
        distribution_wf(assign),
        0 <= i < assign.len(),
        sum_amounts(assign[i].1) <= u64::MAX,
        find_key(slots, assign[i].0) >= 0,
        ({
            let sc = scan(allocs, prev, assign[i].0, Some(slots[find_key(slots, assign[i].0)].1));
            !sc.unsupported && sc.sum < sum_amounts(assign[i].1)
        }),
    ensures
        compose_spec(prev, allocs, slots, assign, change, key) is Err,
        targeted_all(
            allocs,
            prev,
            assign.take(i),
            slots,
            change_blinded(assign, change, key),
            key,
            total_recipients(assign) + if change is Some {
                1int
            } else {
                0
            },
        ) is Ok ==> compose_spec(prev, allocs, slots, assign, change, key) == Err::<
            Seq<PlanV>,
            ComposeError,
        >(ComposeError::Shortfall(assign[i].0)),
{
    let cb = change_blinded(assign, change, key);
    let k0 = total_recipients(assign) + if change is Some {
        1int
    } else {
        0
    };
    if compose_spec(prev, allocs, slots, assign, change, key) is Ok {
        lemma_targeted_all(allocs, prev, assign, slots, cb, key, k0);
        let ps = targeted_all(allocs, prev, assign, slots, cb, key, k0)->Ok_0.0;
        assert(targeted_facts(ps[i], allocs, prev, assign[i].0, assign[i].1, slots[find_key(slots, assign[i].0)].1));
    }
    if targeted_all(allocs, prev, assign.take(i), slots, cb, key, k0) is Ok {
        assert(assign.take(i + 1).drop_last() =~= assign.take(i));
        assert(assign.take(i + 1).last() == assign[i]);
        assert(targeted_all(allocs, prev, assign.take(i + 1), slots, cb, key, k0) is Err);
        lemma_targeted_err(allocs, prev, assign, slots, cb, key, k0, i + 1);
    }
}

proof fn lemma_entries_faithful(inputs: Seq<Outpoint>, txins: Seq<Outpoint>, id: OpId)
    requires
        entries_of(inputs, txins, id) is Ok,
        txins.len() <= u32::MAX,
    ensures
        ({
            let es = entries_of(inputs, txins, id)->Ok_0;
            forall|j: int|
                0 <= j < es.len() ==> (#[trigger] es[j]).1 == id && 0 <= es[j].0 < txins.len()
                    && inputs.contains(txins[es[j].0 as int])
        }),
    decreases inputs.len(),
{
    if inputs.len() > 0 {
        let d = inputs.drop_last();
        lemma_entries_faithful(d, txins, id);
        lemma_first_index(txins, inputs.last());
        let es0 = entries_of(d, txins, id)->Ok_0;
        let es = entries_of(inputs, txins, id)->Ok_0;
        assert forall|j: int| 0 <= j < es.len() implies (#[trigger] es[j]).1 == id && 0 <= es[j].0
            < txins.len() && inputs.contains(txins[es[j].0 as int]) by {
            if j < es0.len() {
                assert(es[j] == es0[j]);
                let k = choose|k: int| 0 <= k < d.len() && d[k] == txins[es[j].0 as int];
                assert(inputs[k] == d[k]);
            } else {
                assert(inputs[inputs.len() - 1] == inputs.last());
            }
        }
    }
}

proof fn lemma_input_map_faithful(infos: Seq<InfoV>, txins: Seq<Outpoint>, cid: ContractId)
    requires
        input_map_of(infos, txins, cid) is Ok,
        txins.len() <= u32::MAX,
    ensures
        ({
            let m = input_map_of(infos, txins, cid)->Ok_0;
            forall|j: int|
                0 <= j < m.len() ==> exists|t: int|
                    0 <= t < infos.len() && #[trigger] infos[t].contract_id == cid && infos[t].id == (
                    #[trigger] m[j]).1 && 0 <= m[j].0 < txins.len() && infos[t].inputs.contains(
                        txins[m[j].0 as int],
                    )
        }),
    decreases infos.len(),
{
    if infos.len() > 0 {
        let d = infos.drop_last();
        lemma_input_map_faithful(d, txins, cid);
        let m0 = input_map_of(d, txins, cid)->Ok_0;
        let m = input_map_of(infos, txins, cid)->Ok_0;
        let f = infos.last();
        if f.contract_id == cid {
            lemma_entries_faithful(f.inputs, txins, f.id);
        }
        assert forall|j: int| 0 <= j < m.len() implies exists|t: int|
            0 <= t < infos.len() && #[trigger] infos[t].contract_id == cid && infos[t].id == (
            #[trigger] m[j]).1 && 0 <= m[j].0 < txins.len() && infos[t].inputs.contains(
                txins[m[j].0 as int],
            ) by {
            if j < m0.len() {
                assert(m[j] == m0[j]);
                let t = choose|t: int|
                    0 <= t < d.len() && #[trigger] d[t].contract_id == cid && d[t].id == m0[j].1 && 0
                        <= m0[j].0 < txins.len() && d[t].inputs.contains(txins[m0[j].0 as int]);
                assert(infos[t] == d[t]);
            } else {
                let es = entries_of(f.inputs, txins, f.id)->Ok_0;
                assert(m[j] == es[j - m0.len()]);
                assert(infos[infos.len() - 1] == f);
            }
        }
    }
}

proof fn lemma_bundle_maps(infos: Seq<InfoV>, txins: Seq<Outpoint>, cids: Seq<ContractId>)
    requires
        bundle_maps(infos, txins, cids) is Ok,
    ensures
        ({
            let bs = bundle_maps(infos, txins, cids)->Ok_0;
            &&& bs.len() == cids.len()
            &&& forall|b: int|
                0 <= b < bs.len() ==> (#[trigger] bs[b]).0 == cids[b] && input_map_of(
                    infos,
                    txins,
                    cids[b],
                ) == Ok::<Seq<(u32, OpId)>, Outpoint>(bs[b].1)
        }),
    decreases cids.len(),
{
    if cids.len() > 0 {
        let d = cids.drop_last();
        lemma_bundle_maps(infos, txins, d);
        let bs0 = bundle_maps(infos, txins, d)->Ok_0;
        let bs = bundle_maps(infos, txins, cids)->Ok_0;
        assert forall|b: int| 0 <= b < bs.len() implies (#[trigger] bs[b]).0 == cids[b] && input_map_of(
            infos,
            txins,
            cids[b],
        ) == Ok::<Seq<(u32, OpId)>, Outpoint>(bs[b].1) by {
            if b < bs0.len() {
                assert(bs[b] == bs0[b]);
                assert(cids[b] == d[b]);
            }
        }
    }
}

/// Input-index faithfulness: every entry of a bundle's input map names a
/// transition of that bundle's contract, and a position in the transaction
/// inputs that holds one of the outputs this transition spends.
pub proof fn law_input_index(infos: Seq<InfoV>, txins: Seq<Outpoint>, b: int, e: int)
    requires
        txins.len() <= u32::MAX,
        bundle_maps(infos, txins, contracts_of(infos)) is Ok,
        0 <= b < bundle_maps(infos, txins, contracts_of(infos))->Ok_0.len(),
        0 <= e < bundle_maps(infos, txins, contracts_of(infos))->Ok_0[b].1.len(),
    ensures
        ({
            let bundle = bundle_maps(infos, txins, contracts_of(infos))->Ok_0[b];
            let entry = bundle.1[e];
            &&& 0 <= entry.0 < txins.len()
            &&& exists|t: int|
                0 <= t < infos.len() && #[trigger] infos[t].contract_id == bundle.0 && infos[t].id
                    == entry.1 && infos[t].inputs.contains(txins[entry.0 as int])
        }),
{
    let cids = contracts_of(infos);
    lemma_bundle_maps(infos, txins, cids);
    let bs = bundle_maps(infos, txins, cids)->Ok_0;
    assert(bs[b].0 == cids[b]);
    lemma_input_map_faithful(infos, txins, cids[b]);
    let m = bs[b].1;
    let m2 = input_map_of(infos, txins, cids[b])->Ok_0;
    assert(m2 == m);
    let entry = m2[e];
    let t = choose|t: int|
        0 <= t < infos.len() && #[trigger] infos[t].contract_id == cids[b] && infos[t].id == entry.1
            && 0 <= entry.0 < txins.len() && infos[t].inputs.contains(txins[entry.0 as int]);
    assert(infos[t].contract_id == bs[b].0);
}

/// Determinism: the same spent outputs, allocations, asset slots,
/// change beneficiary and seed, with distributions that owe the same
/// amounts to the same beneficiaries, give the same transitions, blinding
/// values included; the same transitions and transaction inputs give the
/// same bundles, and with the same entropy the same commitment root.
pub proof fn law_determinism(
    prev: Seq<Outpoint>,
    prev2: Seq<Outpoint>,
    allocs: Seq<Allocation>,
    allocs2: Seq<Allocation>,
    slots: Seq<(ContractId, u16)>,
    slots2: Seq<(ContractId, u16)>,
    assign: Seq<(ContractId, Seq<(Beneficiary, u64)>)>,
    assign2: Seq<(ContractId, Seq<(Beneficiary, u64)>)>,
    change: Option<Beneficiary>,
    change2: Option<Beneficiary>,
    seed: u64,
    seed2: u64,
    infos: Seq<InfoV>,
    infos2: Seq<InfoV>,
    txins: Seq<Outpoint>,
    txins2: Seq<Outpoint>,
    entropy: u64,
    entropy2: u64,
)
    requires
        prev == prev2,
        allocs == allocs2,
        slots == slots2,
        distribution_wf(assign),
        distribution_wf(assign2),
        forall|c: ContractId, b: Beneficiary| #[trigger] owed(assign, c, b) == owed(assign2, c, b),
        change == change2,
        seed == seed2,
        infos == infos2,
        txins == txins2,
        entropy == entropy2,
    ensures
        compose_spec(prev, allocs, slots, assign, change, coloring_key(prev, assign, change, seed))
            == compose_spec(
            prev2,
            allocs2,
            slots2,
            assign2,
            change2,
            coloring_key(prev2, assign2, change2, seed2),
        ),
        bundle_maps(infos, txins, contracts_of(infos)) == bundle_maps(
            infos2,
            txins2,
            contracts_of(infos2),
        ),
        bundle_maps(infos, txins, contracts_of(infos)) is Ok ==> mpc_commitment_of(
            messages_of(bundle_maps(infos, txins, contracts_of(infos))->Ok_0),
            entropy,
        ) == mpc_commitment_of(
            messages_of(bundle_maps(infos2, txins2, contracts_of(infos2))->Ok_0),
            entropy2,
        ),
{
    law_distribution_canonical(assign, assign2);
}

} // verus!
