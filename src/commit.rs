use vstd::prelude::*;

use crate::compose::push_unique;
use crate::compose::contains_key;
use crate::external::{
    bundle_id_of, decode_tx, input_map_bytes, make_bundle, make_fascia, message_bytes, mpc_commit,
    mpc_commitment_of, mpc_fits, opret_anchor, tx_decodes,
};
use crate::tx_bytes::{check_input_count, input_count_fits};
use crate::types::{CloseMethod, ContractId, OpId, Outpoint, SameKey};

verus! {

/// A composed transition, its operation id and the outputs it spends.
#[derive(Clone, Debug)]
pub struct TransitionInfo {
    pub contract_id: ContractId,
    pub id: OpId,
    pub inputs: Vec<Outpoint>,
    pub transition: rgbstd::Transition,
}

pub struct InfoV {
    pub contract_id: ContractId,
    pub id: OpId,
    pub inputs: Seq<Outpoint>,
}

impl View for TransitionInfo {
    type V = InfoV;

    open spec fn view(&self) -> InfoV {
        InfoV { contract_id: self.contract_id, id: self.id, inputs: self.inputs@ }
    }
}

pub open spec fn info_views(v: Seq<TransitionInfo>) -> Seq<InfoV> {
    v.map_values(|t: TransitionInfo| t@)
}

/// Why a commitment could not be built.
#[derive(Clone, Copy, PartialEq, Eq, Debug)]
pub enum CommitError {
    /// A transition spends an output that is not among the transaction's
    /// inputs.
    Resolution(Outpoint),
    /// A contract's transitions spend nothing, so it has no bundle.
    NoBundle(ContractId),
    /// A contract's bundle would map more than 65535 inputs or transitions.
    TooManyInputs(ContractId),
    /// There are no transitions to commit to.
    NoTransitions,
    /// More contracts than a commitment tree holds.
    TooManyContracts,
    /// No commitment tree could be laid out for these contracts.
    Tree,
    /// The spending transaction does not decode.
    InvalidTransaction,
}

/// Index of the first occurrence of `x` in `s`, or -1.
pub open spec fn first_index(s: Seq<Outpoint>, x: Outpoint) -> int
    decreases s.len(),
{
    if s.len() == 0 {
        -1
    } else {
        let r = first_index(s.drop_last(), x);
        if r >= 0 {
            r
        } else if s.last() == x {
            s.len() - 1
        } else {
            -1
        }
    }
}

/// The input-map entries of one transition: each spent output's position
/// among the transaction inputs, paired with the operation id; the first
/// output that is not an input is the error.
pub open spec fn entries_of(inputs: Seq<Outpoint>, txins: Seq<Outpoint>, id: OpId) -> Result<Seq<(u32, OpId)>, Outpoint>
    decreases inputs.len(),
{
    if inputs.len() == 0 {
        Ok(seq![])
    } else {
        match entries_of(inputs.drop_last(), txins, id) {
            Err(o) => Err(o),
            Ok(es) => {
                let p = first_index(txins, inputs.last());
                if p < 0 {
                    Err(inputs.last())
                } else {
                    Ok(es.push((p as u32, id)))
                }
            },
        }
    }
}

/// The input map of contract `cid`: the entries of its transitions, in order.
pub open spec fn input_map_of(infos: Seq<InfoV>, txins: Seq<Outpoint>, cid: ContractId) -> Result<Seq<(u32, OpId)>, Outpoint>
    decreases infos.len(),
{
    if infos.len() == 0 {
        Ok(seq![])
    } else {
        match input_map_of(infos.drop_last(), txins, cid) {
            Err(o) => Err(o),
            Ok(m) => {
                let f = infos.last();
                if f.contract_id != cid {
                    Ok(m)
                } else {
                    match entries_of(f.inputs, txins, f.id) {
                        Err(o) => Err(o),
                        Ok(es) => Ok(m + es),
                    }
                }
            },
        }
    }
}

/// The operation ids of the transitions of contract `cid` that spend
/// something, in order.
pub open spec fn known_of(infos: Seq<InfoV>, cid: ContractId) -> Seq<OpId>
    decreases infos.len(),
{
    if infos.len() == 0 {
        seq![]
    } else {
        let r = known_of(infos.drop_last(), cid);
        if infos.last().contract_id == cid && infos.last().inputs.len() > 0 {
            r.push(infos.last().id)
        } else {
            r
        }
    }
}

/// The first spent output, in order, that is not among the transaction
/// inputs.
pub open spec fn first_missing(inputs: Seq<Outpoint>, txins: Seq<Outpoint>) -> Option<Outpoint>
    decreases inputs.len(),
{
    if inputs.len() == 0 {
        None
    } else {
        match first_missing(inputs.drop_last(), txins) {
            Some(o) => Some(o),
            None => if txins.contains(inputs.last()) {
                None
            } else {
                Some(inputs.last())
            },
        }
    }
}

/// The first output, over the transitions in order, that a transition
/// spends and that is not among the transaction inputs.
pub open spec fn first_unresolved(infos: Seq<InfoV>, txins: Seq<Outpoint>) -> Option<Outpoint>
    decreases infos.len(),
{
    if infos.len() == 0 {
        None
    } else {
        match first_unresolved(infos.drop_last(), txins) {
            Some(o) => Some(o),
            None => first_missing(infos.last().inputs, txins),
        }
    }
}

/// Each contract with the operation ids of its bundle's transitions.
pub open spec fn known_maps(infos: Seq<InfoV>, cids: Seq<ContractId>) -> Seq<(ContractId, Seq<OpId>)> {
    cids.map_values(|c: ContractId| (c, known_of(infos, c)))
}

/// The contracts of the transitions, in order of first appearance.
pub open spec fn contracts_of(infos: Seq<InfoV>) -> Seq<ContractId>
    decreases infos.len(),
{
    if infos.len() == 0 {
        seq![]
    } else {
        push_unique(contracts_of(infos.drop_last()), infos.last().contract_id)
    }
}

/// The input map of each contract, in order; the first contract that fails
/// decides the error.
pub open spec fn bundle_maps(infos: Seq<InfoV>, txins: Seq<Outpoint>, cids: Seq<ContractId>) -> Result<
    Seq<(ContractId, Seq<(u32, OpId)>)>,
    CommitError,
>
    decreases cids.len(),
{
    if cids.len() == 0 {
        Ok(seq![])
    } else {
        match bundle_maps(infos, txins, cids.drop_last()) {
            Err(e) => Err(e),
            Ok(bs) => {
                let c = cids.last();
                match input_map_of(infos, txins, c) {
                    Err(o) => Err(CommitError::Resolution(o)),
                    Ok(m) => if m.len() == 0 {
                        Err(CommitError::NoBundle(c))
                    } else if m.len() > 65535 || known_of(infos, c).len() > 65535 {
                        Err(CommitError::TooManyInputs(c))
                    } else {
                        Ok(bs.push((c, m)))
                    },
                }
            },
        }
    }
}

/// The closing method of every bundle this library builds.
pub const CLOSE_METHOD: CloseMethod = CloseMethod::OpretFirst;

/// The commitment-tree messages: each contract with the id of its bundle.
pub open spec fn messages_of(bs: Seq<(ContractId, Seq<(u32, OpId)>)>) -> Seq<(Seq<u8>, Seq<u8>)> {
    bs.map_values(
        |b: (ContractId, Seq<(u32, OpId)>)|
            (b.0.0@, bundle_id_of(CloseMethod::OpretFirst, input_map_bytes(b.1))),
    )
}

pub open spec fn maps_view(v: Seq<(ContractId, Vec<(u32, OpId)>)>) -> Seq<(ContractId, Seq<(u32, OpId)>)> {
    v.map_values(|e: (ContractId, Vec<(u32, OpId)>)| (e.0, e.1@))
}

/// A commitment built before its spending transaction exists: the anchor
/// and one bundle per contract, with the input map of each.
pub struct PartialFascia {
    anchor_set: rgbstd::containers::AnchorSet,
    bundles: Vec<(ContractId, rgbstd::TransitionBundle)>,
    maps: Vec<(ContractId, Vec<(u32, OpId)>)>,
    known: Vec<(ContractId, Vec<OpId>)>,
    close_method: CloseMethod,
}

impl PartialFascia {
    pub closed spec fn input_maps_view(&self) -> Seq<(ContractId, Seq<(u32, OpId)>)> {
        maps_view(self.maps@)
    }

    /// Each contract with the operation ids of its bundle's transitions.
    pub closed spec fn known_view(&self) -> Seq<(ContractId, Seq<OpId>)> {
        self.known@.map_values(|e: (ContractId, Vec<OpId>)| (e.0, e.1@))
    }

    /// The closing method of every bundle.
    pub closed spec fn close_method_view(&self) -> CloseMethod {
        self.close_method
    }

    /// The closing method of every bundle.
    pub fn close_method(&self) -> (r: CloseMethod)
        ensures
            r == self.close_method_view(),
    {
        self.close_method
    }

    /// Each contract with the operation ids of its bundle's transitions.
    pub fn known_transitions(&self) -> (r: Vec<(ContractId, Vec<OpId>)>)
        ensures
            r@.map_values(|e: (ContractId, Vec<OpId>)| (e.0, e.1@)) == self.known_view(),
    {
        let mut r: Vec<(ContractId, Vec<OpId>)> = Vec::new();
        let mut i: usize = 0;
        while i < self.known.len()
            invariant
                i <= self.known@.len(),
                r@.map_values(|e: (ContractId, Vec<OpId>)| (e.0, e.1@)) =~= self.known_view().take(
                    i as int,
                ),
            decreases self.known@.len() - i,
        {
            let c = self.known[i].0;
            let ids = copy_ids(&self.known[i].1);
            let ghost before = r@;
            r.push((c, ids));
            proof {
                assert(r@.map_values(|e: (ContractId, Vec<OpId>)| (e.0, e.1@)) =~= before.map_values(
                    |e: (ContractId, Vec<OpId>)| (e.0, e.1@),
                ).push((c, ids@)));
                assert(self.known_view().take(i + 1) =~= self.known_view().take(i as int).push(
                    self.known_view()[i as int],
                ));
            }
            i = i + 1;
        }
        assert(self.known_view().take(i as int) =~= self.known_view());
        r
    }

    pub closed spec fn wf(&self) -> bool {
        1 <= self.bundles@.len() <= 0xFFFFFF
    }

    /// The input map of each contract's bundle, in order.
    pub fn input_maps(&self) -> (r: Vec<(ContractId, Vec<(u32, OpId)>)>)
        ensures
            maps_view(r@) == self.input_maps_view(),
    {
        let mut r: Vec<(ContractId, Vec<(u32, OpId)>)> = Vec::new();
        let mut i: usize = 0;
        while i < self.maps.len()
            invariant
                i <= self.maps@.len(),
                maps_view(r@) =~= maps_view(self.maps@).take(i as int),
            decreases self.maps@.len() - i,
        {
            let c = self.maps[i].0;
            let m = copy_entries(&self.maps[i].1);
            let ghost before = r@;
            r.push((c, m));
            proof {
                assert(maps_view(r@) =~= maps_view(before).push((c, m@)));
                assert(maps_view(self.maps@).take(i + 1) =~= maps_view(self.maps@).take(i as int).push(
                    maps_view(self.maps@)[i as int],
                ));
            }
            i = i + 1;
        }
        assert(maps_view(self.maps@).take(i as int) =~= maps_view(self.maps@));
        r
    }

    /// Pairs the commitment with the transaction that spends the inputs and
    /// embeds the commitment; fails when the bytes are not a transaction,
    /// among them bytes whose leading input count the rest cannot hold.
    pub fn complete(self, consensus_serialized_tx: &[u8]) -> (r: Result<rgbstd::containers::Fascia, CommitError>)
        requires
            self.wf(),
        ensures
            input_count_fits(consensus_serialized_tx@) ==> (r is Ok == tx_decodes(
                consensus_serialized_tx@,
            )),
            !input_count_fits(consensus_serialized_tx@) ==> r is Err,
            r matches Err(e) ==> e == CommitError::InvalidTransaction,
    {
        // More inputs than the bytes can hold: no transaction decodes.
        if !check_input_count(consensus_serialized_tx) {
            return Err(CommitError::InvalidTransaction);
        }
        match decode_tx(consensus_serialized_tx) {
            None => Err(CommitError::InvalidTransaction),
            Some(tx) => Ok(make_fascia(tx, self.anchor_set, self.bundles)),
        }
    }
}

fn copy_ids(v: &Vec<OpId>) -> (r: Vec<OpId>)
    ensures
        r@ == v@,
{
    let mut r: Vec<OpId> = Vec::new();
    let mut i: usize = 0;
    while i < v.len()
        invariant
            i <= v@.len(),
            r@ =~= v@.take(i as int),
        decreases v@.len() - i,
    {
        r.push(v[i]);
        i = i + 1;
    }
    assert(v@.take(i as int) =~= v@);
    r
}

fn copy_entries(v: &Vec<(u32, OpId)>) -> (r: Vec<(u32, OpId)>)
    ensures
        r@ == v@,
{
    let mut r: Vec<(u32, OpId)> = Vec::new();
    let mut i: usize = 0;
    while i < v.len()
        invariant
            i <= v@.len(),
            r@ =~= v@.take(i as int),
        decreases v@.len() - i,
    {
        r.push(v[i]);
        i = i + 1;
    }
    assert(v@.take(i as int) =~= v@);
    r
}

proof fn lemma_first_index_prefix(s: Seq<Outpoint>, x: Outpoint, n: int)
    requires
        0 <= n <= s.len(),
        first_index(s.take(n), x) >= 0,
    ensures
        first_index(s, x) == first_index(s.take(n), x),
    decreases s.len(),
{
    if n == s.len() {
        assert(s.take(n) =~= s);
    } else {
        assert(s.drop_last().take(n) =~= s.take(n));
        lemma_first_index_prefix(s.drop_last(), x, n);
    }
}

pub proof fn lemma_first_index(s: Seq<Outpoint>, x: Outpoint)
    ensures
        -1 <= first_index(s, x) < s.len(),
        first_index(s, x) >= 0 ==> s[first_index(s, x)] == x,
        first_index(s, x) == -1 ==> !s.contains(x),
    decreases s.len(),
{
    if s.len() > 0 {
        lemma_first_index(s.drop_last(), x);
        if first_index(s, x) == -1 {
            assert forall|i: int| 0 <= i < s.len() implies s[i] != x by {
                if i < s.len() - 1 {
                    assert(s[i] == s.drop_last()[i]);
                }
            }
        }
    }
}

/// Position of the first transaction input equal to `o`.
fn position_of(txins: &Vec<Outpoint>, o: &Outpoint) -> (r: Option<usize>)
    ensures
        match r {
            Some(p) => p as int == first_index(txins@, *o),
            None => first_index(txins@, *o) == -1,
        },
{
    let mut i: usize = 0;
    assert(txins@.take(0) =~= Seq::<Outpoint>::empty());
    while i < txins.len()
        invariant
            i <= txins@.len(),
            first_index(txins@.take(i as int), *o) == -1,
        decreases txins@.len() - i,
    {
        proof {
            assert(txins@.take(i + 1).drop_last() =~= txins@.take(i as int));
        }
        if txins[i].same(o) {
            proof {
                lemma_first_index_prefix(txins@, *o, i + 1);
            }
            return Some(i);
        }
        i = i + 1;
    }
    assert(txins@.take(i as int) =~= txins@);
    None
}

fn push_entries(out: &mut Vec<(u32, OpId)>, inputs: &Vec<Outpoint>, txins: &Vec<Outpoint>, id: OpId) -> (r: Result<(), Outpoint>)
    requires
        txins@.len() <= u32::MAX,
    ensures
        match entries_of(inputs@, txins@, id) {
            Ok(es) => r is Ok && final(out)@ == old(out)@ + es,
            Err(o) => r == Err::<(), Outpoint>(o),
        },
{
    let ghost base = old(out)@;
    let mut i: usize = 0;
    assert(base + seq![] =~= base);
    while i < inputs.len()
        invariant
            i <= inputs@.len(),
            txins@.len() <= u32::MAX,
            entries_of(inputs@.take(i as int), txins@, id) is Ok,
            out@ == base + entries_of(inputs@.take(i as int), txins@, id)->Ok_0,
        decreases inputs@.len() - i,
    {
        proof {
            assert(inputs@.take(i + 1).drop_last() =~= inputs@.take(i as int));
            lemma_first_index(txins@, inputs@[i as int]);
        }
        match position_of(txins, &inputs[i]) {
            None => {
                proof {
                    lemma_entries_err(inputs@, txins@, id, i + 1);
                }
                return Err(inputs[i]);
            },
            Some(p) => {
                proof {
                    let es = entries_of(inputs@.take(i as int), txins@, id)->Ok_0;
                    assert(base + es.push((p as u32, id)) =~= (base + es).push((p as u32, id)));
                }
                out.push((p as u32, id));
            },
        }
        i = i + 1;
    }
    assert(inputs@.take(i as int) =~= inputs@);
    Ok(())
}

proof fn lemma_entries_err(inputs: Seq<Outpoint>, txins: Seq<Outpoint>, id: OpId, i: int)
    requires
        0 <= i <= inputs.len(),
        entries_of(inputs.take(i), txins, id) is Err,
    ensures
        entries_of(inputs, txins, id) == entries_of(inputs.take(i), txins, id),
    decreases inputs.len(),
{
    if i == inputs.len() {
        assert(inputs.take(i) =~= inputs);
    } else {
        assert(inputs.drop_last().take(i) =~= inputs.take(i));
        lemma_entries_err(inputs.drop_last(), txins, id, i);
    }
}

proof fn lemma_input_map_err(infos: Seq<InfoV>, txins: Seq<Outpoint>, cid: ContractId, i: int)
    requires
        0 <= i <= infos.len(),
        input_map_of(infos.take(i), txins, cid) is Err,
    ensures
        input_map_of(infos, txins, cid) == input_map_of(infos.take(i), txins, cid),
    decreases infos.len(),
{
    if i == infos.len() {
        assert(infos.take(i) =~= infos);
    } else {
        assert(infos.drop_last().take(i) =~= infos.take(i));
        lemma_input_map_err(infos.drop_last(), txins, cid, i);
    }
}

/// The input map of contract `cid` and its transitions that spend something.
fn contract_input_map(infos: &Vec<TransitionInfo>, txins: &Vec<Outpoint>, cid: ContractId) -> (r: Result<(Vec<(u32, OpId)>, Vec<(OpId, rgbstd::Transition)>), Outpoint>)
    requires
        txins@.len() <= u32::MAX,
    ensures
        match r {
            Ok((m, k)) => input_map_of(info_views(infos@), txins@, cid) == Ok::<
                Seq<(u32, OpId)>,
                Outpoint,
            >(m@) && k@.map_values(|e: (OpId, rgbstd::Transition)| e.0) == known_of(
                info_views(infos@),
                cid,
            ),
            Err(o) => input_map_of(info_views(infos@), txins@, cid) == Err::<
                Seq<(u32, OpId)>,
                Outpoint,
            >(o),
        },
{
    let ghost v = info_views(infos@);
    let mut m: Vec<(u32, OpId)> = Vec::new();
    let mut k: Vec<(OpId, rgbstd::Transition)> = Vec::new();
    let mut i: usize = 0;
    assert(v.take(0) =~= Seq::<InfoV>::empty());
    assert(m@ =~= seq![]);
    assert(k@.map_values(|e: (OpId, rgbstd::Transition)| e.0) =~= seq![]);
    while i < infos.len()
        invariant
            v == info_views(infos@),
            i <= infos@.len(),
            txins@.len() <= u32::MAX,
            input_map_of(v.take(i as int), txins@, cid) == Ok::<Seq<(u32, OpId)>, Outpoint>(m@),
            k@.map_values(|e: (OpId, rgbstd::Transition)| e.0) == known_of(v.take(i as int), cid),
        decreases infos@.len() - i,
    {
        proof {
            assert(v.take(i + 1).drop_last() =~= v.take(i as int));
            assert(v.take(i + 1).last() == infos@[i as int]@);
        }
        let info = &infos[i];
        if info.contract_id.same(&cid) {
            match push_entries(&mut m, &info.inputs, txins, info.id) {
                Err(o) => {
                    proof {
                        lemma_input_map_err(v, txins@, cid, i + 1);
                    }
                    return Err(o);
                },
                Ok(()) => {},
            }
            if info.inputs.len() > 0 {
                let ghost before = k@;
                k.push((info.id, info.transition.clone()));
                assert(k@.map_values(|e: (OpId, rgbstd::Transition)| e.0) =~= before.map_values(
                    |e: (OpId, rgbstd::Transition)| e.0,
                ).push(info.id));
            }
        }
        i = i + 1;
    }
    assert(v.take(i as int) =~= v);
    Ok((m, k))
}

/// The contracts of the transitions, in order of first appearance.
fn contracts_exec(infos: &Vec<TransitionInfo>) -> (r: Vec<ContractId>)
    ensures
        r@ == contracts_of(info_views(infos@)),
{
    let ghost v = info_views(infos@);
    let mut r: Vec<ContractId> = Vec::new();
    let mut i: usize = 0;
    assert(r@ =~= contracts_of(v.take(0)));
    while i < infos.len()
        invariant
            v == info_views(infos@),
            i <= infos@.len(),
            r@ == contracts_of(v.take(i as int)),
        decreases infos@.len() - i,
    {
        proof {
            assert(v.take(i + 1).drop_last() =~= v.take(i as int));
        }
        let c = infos[i].contract_id;
        if !contains_key(&r, &c) {
            r.push(c);
        }
        i = i + 1;
    }
    assert(v.take(i as int) =~= v);
    r
}

proof fn lemma_bundle_maps_err(infos: Seq<InfoV>, txins: Seq<Outpoint>, cids: Seq<ContractId>, i: int)
    requires
        0 <= i <= cids.len(),
        bundle_maps(infos, txins, cids.take(i)) is Err,
    ensures
        bundle_maps(infos, txins, cids) == bundle_maps(infos, txins, cids.take(i)),
    decreases cids.len(),
{
    if i == cids.len() {
        assert(cids.take(i) =~= cids);
    } else {
        assert(cids.drop_last().take(i) =~= cids.take(i));
        lemma_bundle_maps_err(infos, txins, cids.drop_last(), i);
    }
}

/// When every spent output is an input, every transition's entries resolve.
proof fn lemma_entries_ok(inputs: Seq<Outpoint>, txins: Seq<Outpoint>, id: OpId)
    requires
        first_missing(inputs, txins) is None,
    ensures
        entries_of(inputs, txins, id) is Ok,
    decreases inputs.len(),
{
    if inputs.len() > 0 {
        lemma_entries_ok(inputs.drop_last(), txins, id);
        lemma_first_index(txins, inputs.last());
    }
}

/// When every spent output is an input, every contract's input map resolves.
proof fn lemma_input_map_ok(infos: Seq<InfoV>, txins: Seq<Outpoint>, cid: ContractId)
    requires
        first_unresolved(infos, txins) is None,
    ensures
        input_map_of(infos, txins, cid) is Ok,
    decreases infos.len(),
{
    if infos.len() > 0 {
        lemma_input_map_ok(infos.drop_last(), txins, cid);
        lemma_entries_ok(infos.last().inputs, txins, infos.last().id);
    }
}

fn known_ids(k: &Vec<(OpId, rgbstd::Transition)>) -> (r: Vec<OpId>)
    ensures
        r@ == k@.map_values(|e: (OpId, rgbstd::Transition)| e.0),
{
    let mut r: Vec<OpId> = Vec::new();
    let mut i: usize = 0;
    while i < k.len()
        invariant
            i <= k@.len(),
            r@ =~= k@.map_values(|e: (OpId, rgbstd::Transition)| e.0).take(i as int),
        decreases k@.len() - i,
    {
        r.push(k[i].0);
        i = i + 1;
    }
    assert(k@.map_values(|e: (OpId, rgbstd::Transition)| e.0).take(i as int) =~= k@.map_values(
        |e: (OpId, rgbstd::Transition)| e.0,
    ));
    r
}

proof fn lemma_missing_prefix(inputs: Seq<Outpoint>, txins: Seq<Outpoint>, j: int)
    requires
        0 <= j <= inputs.len(),
        first_missing(inputs.take(j), txins) is Some,
    ensures
        first_missing(inputs, txins) == first_missing(inputs.take(j), txins),
    decreases inputs.len(),
{
    if j == inputs.len() {
        assert(inputs.take(j) =~= inputs);
    } else {
        assert(inputs.drop_last().take(j) =~= inputs.take(j));
        lemma_missing_prefix(inputs.drop_last(), txins, j);
    }
}

proof fn lemma_unresolved_prefix(infos: Seq<InfoV>, txins: Seq<Outpoint>, i: int)
    requires
        0 <= i <= infos.len(),
        first_unresolved(infos.take(i), txins) is Some,
    ensures
        first_unresolved(infos, txins) == first_unresolved(infos.take(i), txins),
    decreases infos.len(),
{
    if i == infos.len() {
        assert(infos.take(i) =~= infos);
    } else {
        assert(infos.drop_last().take(i) =~= infos.take(i));
        lemma_unresolved_prefix(infos.drop_last(), txins, i);
    }
}

/// The first spent output of one transition that is not an input.
fn find_missing(inputs: &Vec<Outpoint>, txins: &Vec<Outpoint>) -> (r: Option<Outpoint>)
    ensures
        r == first_missing(inputs@, txins@),
{
    let mut j: usize = 0;
    assert(inputs@.take(0) =~= Seq::<Outpoint>::empty());
    while j < inputs.len()
        invariant
            j <= inputs@.len(),
            first_missing(inputs@.take(j as int), txins@) is None,
        decreases inputs@.len() - j,
    {
        proof {
            assert(inputs@.take(j + 1).drop_last() =~= inputs@.take(j as int));
            assert(inputs@.take(j + 1).last() == inputs@[j as int]);
        }
        if !contains_key(txins, &inputs[j]) {
            proof {
                lemma_missing_prefix(inputs@, txins@, j + 1);
            }
            return Some(inputs[j]);
        }
        j = j + 1;
    }
    assert(inputs@.take(j as int) =~= inputs@);
    None
}

/// The first output, over all transitions, that is spent and is not an
/// input.
fn find_unresolved(infos: &Vec<TransitionInfo>, txins: &Vec<Outpoint>) -> (r: Option<Outpoint>)
    ensures
        r == first_unresolved(info_views(infos@), txins@),
{
    let ghost v = info_views(infos@);
    let mut i: usize = 0;
    assert(v.take(0) =~= Seq::<InfoV>::empty());
    while i < infos.len()
        invariant
            v == info_views(infos@),
            i <= infos@.len(),
            first_unresolved(v.take(i as int), txins@) is None,
        decreases infos@.len() - i,
    {
        proof {
            assert(v.take(i + 1).drop_last() =~= v.take(i as int));
            assert(v.take(i + 1).last() == infos@[i as int]@);
        }
        if let Some(o) = find_missing(&infos[i].inputs, txins) {
            proof {
                lemma_unresolved_prefix(v, txins@, i + 1);
            }
            return Some(o);
        }
        i = i + 1;
    }
    assert(v.take(i as int) =~= v);
    None
}

/// Binds the transitions to the inputs of the spending transaction, whose
/// order must not change afterwards, and commits to them.
///
/// Each contract, in order of first appearance, gets one bundle closed by
/// the first OP_RETURN output, whose input map sends the position of every
/// output a transition spends to that transition's id. The result is the
/// root of the commitment tree over (contract, bundle id), to embed in the
/// transaction, and the partial commitment.
pub fn rgb_commit(finalized_txins: &Vec<Outpoint>, transition_info_list: Vec<TransitionInfo>, entropy: u64) -> (r: Result<([u8; 32], PartialFascia), CommitError>)
    requires
        finalized_txins@.len() <= u32::MAX,
    ensures
        ({
            let infos = info_views(transition_info_list@);
            let cids = contracts_of(infos);
            let miss = first_unresolved(infos, finalized_txins@);
            let maps = bundle_maps(infos, finalized_txins@, cids);
            &&& miss matches Some(o) ==> r == Err::<([u8; 32], PartialFascia), CommitError>(
                CommitError::Resolution(o),
            )
            &&& miss is None && cids.len() == 0 ==> r == Err::<([u8; 32], PartialFascia), CommitError>(
                CommitError::NoTransitions,
            )
            &&& miss is None && cids.len() > 0xFFFFFF ==> r == Err::<
                ([u8; 32], PartialFascia),
                CommitError,
            >(CommitError::TooManyContracts)
            &&& miss is None && 0 < cids.len() <= 0xFFFFFF && maps is Err ==> r == Err::<
                ([u8; 32], PartialFascia),
                CommitError,
            >(maps->Err_0)
            &&& miss is None && 0 < cids.len() <= 0xFFFFFF && maps is Ok ==> if mpc_fits(
                messages_of(maps->Ok_0),
            ) {
                r is Ok
            } else {
                r == Err::<([u8; 32], PartialFascia), CommitError>(CommitError::Tree)
            }
            &&& miss is None && cids.len() == 1 && maps is Ok ==> r is Ok
            &&& r matches Ok((d, pf)) ==> {
                &&& pf.wf()
                &&& maps == Ok::<Seq<(ContractId, Seq<(u32, OpId)>)>, CommitError>(
                    pf.input_maps_view(),
                )
                &&& pf.known_view() == known_maps(infos, cids)
                &&& pf.close_method_view() == CloseMethod::OpretFirst
                &&& d@ == mpc_commitment_of(messages_of(pf.input_maps_view()), entropy)
            }
        }),
{
    let ghost infos = info_views(transition_info_list@);
    if let Some(o) = find_unresolved(&transition_info_list, finalized_txins) {
        return Err(CommitError::Resolution(o));
    }
    let cids = contracts_exec(&transition_info_list);
    if cids.len() == 0 {
        return Err(CommitError::NoTransitions);
    }
    if cids.len() > 0xFFFFFF {
        return Err(CommitError::TooManyContracts);
    }
    let mut bundles: Vec<(ContractId, rgbstd::TransitionBundle)> = Vec::new();
    let mut maps: Vec<(ContractId, Vec<(u32, OpId)>)> = Vec::new();
    let mut known: Vec<(ContractId, Vec<OpId>)> = Vec::new();
    let mut messages: Vec<(ContractId, [u8; 32])> = Vec::new();
    let mut i: usize = 0;
    assert(cids@.take(0) =~= Seq::<ContractId>::empty());
    assert(maps_view(maps@) =~= seq![]);
    assert(message_bytes(messages@) =~= seq![]);
    assert(known@.map_values(|e: (ContractId, Vec<OpId>)| (e.0, e.1@)) =~= known_maps(
        infos,
        cids@.take(0),
    ));
    while i < cids.len()
        invariant
            infos == info_views(transition_info_list@),
            first_unresolved(infos, finalized_txins@) is None,
            cids@ == contracts_of(infos),
            cids@.len() <= 0xFFFFFF,
            finalized_txins@.len() <= u32::MAX,
            i <= cids@.len(),
            bundles@.len() == i,
            messages@.len() == i,
            bundle_maps(infos, finalized_txins@, cids@.take(i as int)) == Ok::<
                Seq<(ContractId, Seq<(u32, OpId)>)>,
                CommitError,
            >(maps_view(maps@)),
            message_bytes(messages@) == messages_of(maps_view(maps@)),
            known@.map_values(|e: (ContractId, Vec<OpId>)| (e.0, e.1@)) == known_maps(
                infos,
                cids@.take(i as int),
            ),
        decreases cids@.len() - i,
    {
        proof {
            assert(cids@.take(i + 1).drop_last() =~= cids@.take(i as int));
            assert(cids@.take(i + 1).last() == cids@[i as int]);
        }
        let c = cids[i];
        match contract_input_map(&transition_info_list, finalized_txins, c) {
            Err(o) => {
                proof {
                    lemma_input_map_ok(infos, finalized_txins@, c);
                }
                return Err(CommitError::Resolution(o));
            },
            Ok((m, k)) => {
                if m.len() == 0 {
                    proof {
                        lemma_bundle_maps_err(infos, finalized_txins@, cids@, i + 1);
                    }
                    return Err(CommitError::NoBundle(c));
                }
                if m.len() > 65535 || k.len() > 65535 {
                    proof {
                        lemma_bundle_maps_err(infos, finalized_txins@, cids@, i + 1);
                    }
                    return Err(CommitError::TooManyInputs(c));
                }
                if k.len() == 0 {
                    proof {
                        lemma_known_pos(infos, finalized_txins@, c);
                    }
                    return Err(CommitError::NoBundle(c));
                }
                let ghost mv = m@;
                let copy = copy_entries(&m);
                let ids = known_ids(&k);
                let ghost before_known = known@;
                known.push((c, ids));
                proof {
                    let f = |e: (ContractId, Vec<OpId>)| (e.0, e.1@);
                    assert(known@.map_values(f) =~= before_known.map_values(f).push(
                        (c, known_of(infos, c)),
                    ));
                    assert(known_maps(infos, cids@.take(i + 1)) =~= known_maps(
                        infos,
                        cids@.take(i as int),
                    ).push((c, known_of(infos, c))));
                }
                let (bundle, id) = make_bundle(CLOSE_METHOD, m, k);
                bundles.push((c, bundle));
                let ghost before = maps@;
                let ghost before_msgs = messages@;
                maps.push((c, copy));
                messages.push((c, id));
                proof {
                    assert(maps_view(maps@) =~= maps_view(before).push((c, mv)));
                    assert(message_bytes(messages@) =~= message_bytes(before_msgs).push(
                        (c.0@, id@),
                    ));
                    assert(messages_of(maps_view(maps@)) =~= messages_of(maps_view(before)).push(
                        (c.0@, bundle_id_of(CloseMethod::OpretFirst, input_map_bytes(mv))),
                    ));
                }
            },
        }
        i = i + 1;
    }
    assert(cids@.take(i as int) =~= cids@);
    match mpc_commit(&messages, entropy) {
        None => Err(CommitError::Tree),
        Some((tree, root)) => {
            let anchor_set = opret_anchor(tree);
            Ok((root, PartialFascia { anchor_set, bundles, maps, known, close_method: CLOSE_METHOD }))
        },
    }
}

/// A contract whose input map is not empty has a transition that spends
/// something.
proof fn lemma_known_pos(infos: Seq<InfoV>, txins: Seq<Outpoint>, cid: ContractId)
    requires
        input_map_of(infos, txins, cid) is Ok,
        input_map_of(infos, txins, cid)->Ok_0.len() > 0,
    ensures
        known_of(infos, cid).len() > 0,
    decreases infos.len(),
{
    let m = input_map_of(infos.drop_last(), txins, cid);
    if m->Ok_0.len() > 0 {
        lemma_known_pos(infos.drop_last(), txins, cid);
    } else {
        let f = infos.last();
        lemma_entries_len(f.inputs, txins, f.id);
    }
}

proof fn lemma_entries_len(inputs: Seq<Outpoint>, txins: Seq<Outpoint>, id: OpId)
    requires
        entries_of(inputs, txins, id) is Ok,
    ensures
        entries_of(inputs, txins, id)->Ok_0.len() == inputs.len(),
    decreases inputs.len(),
{
    if inputs.len() > 0 {
        lemma_entries_len(inputs.drop_last(), txins, id);
    }
}

} // verus!
