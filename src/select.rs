use vstd::prelude::*;

use crate::assignments::{sum_amounts, sum_wide, RgbAssignments};
use crate::compose::{contains_key, push_unique};
use crate::types::{find_entry, find_key, lemma_find_key, ContractId, Outpoint, SameKey};

verus! {

/// A fungible amount of a contract's asset slot held at an output, as the
/// store reports it.
#[derive(Clone, Copy, PartialEq, Eq, Debug)]
pub struct Holding {
    pub contract_id: ContractId,
    pub output: Outpoint,
    pub amount: u64,
}

/// The holdings of contract `cid` at available outputs, summed per output,
/// in order of first appearance.
pub open spec fn groups_of(hs: Seq<Holding>, avail: Seq<Outpoint>, cid: ContractId) -> Seq<(Outpoint, int)>
    decreases hs.len(),
{
    if hs.len() == 0 {
        seq![]
    } else {
        let g = groups_of(hs.drop_last(), avail, cid);
        let h = hs.last();
        if h.contract_id != cid || !avail.contains(h.output) {
            g
        } else {
            let i = find_key(g, h.output);
            if i < 0 {
                g.push((h.output, h.amount as int))
            } else {
                g.update(i, (h.output, g[i].1 + h.amount))
            }
        }
    }
}

/// Index of the first group with the largest sum.
pub open spec fn max_index(g: Seq<(Outpoint, int)>) -> int
    decreases g.len(),
{
    if g.len() <= 1 {
        0
    } else {
        let m = max_index(g.drop_last());
        if g.last().1 > g[m].1 {
            g.len() - 1
        } else {
            m
        }
    }
}

proof fn lemma_max_index(g: Seq<(Outpoint, int)>)
    requires
        g.len() > 0,
    ensures
        0 <= max_index(g) < g.len(),
    decreases g.len(),
{
    if g.len() > 1 {
        lemma_max_index(g.drop_last());
    }
}

/// Takes whole groups, largest first, until they hold at least `need`.
pub open spec fn greedy(g: Seq<(Outpoint, int)>, need: int) -> Seq<Outpoint>
    decreases g.len(),
{
    if need <= 0 || g.len() == 0 {
        seq![]
    } else {
        let m = max_index(g);
        if 0 <= m < g.len() {
            seq![g[m].0] + greedy(g.remove(m), need - g[m].1)
        } else {
            seq![]
        }
    }
}

/// `s` followed by those of `xs` that are not already there.
pub open spec fn push_all_unique(s: Seq<Outpoint>, xs: Seq<Outpoint>) -> Seq<Outpoint>
    decreases xs.len(),
{
    if xs.len() == 0 {
        s
    } else {
        push_unique(push_all_unique(s, xs.drop_last()), xs.last())
    }
}

/// The selected outputs: for each requested contract in order, the greedy
/// choice among its groups for the requested total, without repeats.
pub open spec fn select_spec(
    hs: Seq<Holding>,
    avail: Seq<Outpoint>,
    assign: Seq<(ContractId, Seq<(crate::types::Beneficiary, u64)>)>,
) -> Seq<Outpoint>
    decreases assign.len(),
{
    if assign.len() == 0 {
        seq![]
    } else {
        push_all_unique(
            select_spec(hs, avail, assign.drop_last()),
            greedy(groups_of(hs, avail, assign.last().0), sum_amounts(assign.last().1)),
        )
    }
}

pub open spec fn group_view(v: Seq<(Outpoint, u128)>) -> Seq<(Outpoint, int)> {
    v.map_values(|e: (Outpoint, u128)| (e.0, e.1 as int))
}

/// Groups the holdings of contract `cid` at available outputs.
fn group_holdings(hs: &Vec<Holding>, avail: &Vec<Outpoint>, cid: &ContractId) -> (r: Vec<(Outpoint, u128)>)
    ensures
        group_view(r@) == groups_of(hs@, avail@, *cid),
        forall|k: int| 0 <= k < r@.len() ==> r@[k].1 <= hs@.len() * u64::MAX,
{
    let mut g: Vec<(Outpoint, u128)> = Vec::new();
    let mut i: usize = 0;
    assert(group_view(g@) =~= groups_of(hs@.take(0), avail@, *cid));
    while i < hs.len()
        invariant
            i <= hs@.len(),
            group_view(g@) == groups_of(hs@.take(i as int), avail@, *cid),
            forall|k: int| 0 <= k < g@.len() ==> g@[k].1 <= i * u64::MAX,
        decreases hs@.len() - i,
    {
        proof {
            assert(hs@.take(i + 1).drop_last() =~= hs@.take(i as int));
            assert((i + 1) * u64::MAX == i * u64::MAX + u64::MAX) by (nonlinear_arith);
            assert(i * u64::MAX <= (i + 1) * u64::MAX) by (nonlinear_arith);
            assert(hs@.len() <= usize::MAX);
            assert((i + 1) * u64::MAX <= 0xFFFF_FFFF_FFFF_FFFF * 0xFFFF_FFFF_FFFF_FFFFu128) by (nonlinear_arith)
                requires i + 1 <= 0xFFFF_FFFF_FFFF_FFFF;
        }
        let h = hs[i];
        if h.contract_id.same(cid) && contains_key(avail, &h.output) {
            proof {
                lemma_find_key(group_view(g@), h.output);
                lemma_find_key(g@, h.output);
                assert(g@.map_values(|e: (Outpoint, u128)| e.0) =~= group_view(g@).map_values(|e: (Outpoint, int)| e.0));
                lemma_find_key_same(g@, h.output);
            }
            match find_entry(&g, &h.output) {
                None => {
                    g.push((h.output, h.amount as u128));
                    assert(group_view(g@) =~= groups_of(hs@.take(i + 1), avail@, *cid));
                },
                Some(j) => {
                    let cur = g[j].1;
                    g[j] = (h.output, cur + h.amount as u128);
                    assert(group_view(g@) =~= groups_of(hs@.take(i + 1), avail@, *cid));
                },
            }
        }
        i = i + 1;
    }
    assert(hs@.take(i as int) =~= hs@);
    g
}

proof fn lemma_find_key_same(g: Seq<(Outpoint, u128)>, k: Outpoint)
    ensures
        find_key(g, k) == find_key(group_view(g), k),
    decreases g.len(),
{
    if g.len() > 0 {
        assert(group_view(g).drop_last() =~= group_view(g.drop_last()));
        lemma_find_key_same(g.drop_last(), k);
    }
}

/// Index of the first group with the largest sum.
fn max_index_exec(g: &Vec<(Outpoint, u128)>) -> (r: usize)
    requires
        g@.len() > 0,
    ensures
        r as int == max_index(group_view(g@)),
        r < g@.len(),
{
    let ghost v = group_view(g@);
    let mut m: usize = 0;
    let mut j: usize = 1;
    assert(v.take(1).len() == 1);
    while j < g.len()
        invariant
            v == group_view(g@),
            1 <= j <= g@.len(),
            m < j,
            m as int == max_index(v.take(j as int)),
        decreases g@.len() - j,
    {
        proof {
            assert(v.take(j + 1).drop_last() =~= v.take(j as int));
            assert(v.take(j as int)[m as int] == v[m as int]);
        }
        if g[j].1 > g[m].1 {
            m = j;
        }
        j = j + 1;
    }
    assert(v.take(j as int) =~= v);
    m
}

/// Takes whole groups, largest first, until they hold at least `need`.
fn greedy_exec(groups: Vec<(Outpoint, u128)>, need: u128) -> (r: Vec<Outpoint>)
    ensures
        r@ == greedy(group_view(groups@), need as int),
{
    let ghost want = greedy(group_view(groups@), need as int);
    let mut g = groups;
    let mut sel: Vec<Outpoint> = Vec::new();
    let mut remaining: u128 = need;
    assert(sel@ + greedy(group_view(g@), remaining as int) =~= want);
    while remaining > 0 && g.len() > 0
        invariant
            sel@ + greedy(group_view(g@), remaining as int) == want,
        decreases g@.len(),
    {
        let m = max_index_exec(&g);
        let ghost v = group_view(g@);
        proof {
            lemma_max_index(v);
        }
        let (o, amount) = g.remove(m);
        proof {
            assert(group_view(g@) =~= v.remove(m as int));
            assert(greedy(v, remaining as int) == seq![v[m as int].0] + greedy(
                v.remove(m as int),
                remaining - v[m as int].1,
            ));
        }
        let ghost before = sel@;
        sel.push(o);
        if amount >= remaining {
            proof {
                assert(greedy(group_view(g@), remaining - amount) =~= seq![]);
                assert(sel@ =~= before + seq![o]);
            }
            remaining = 0;
            assert(greedy(group_view(g@), 0) =~= seq![]);
            assert(sel@ + greedy(group_view(g@), remaining as int) =~= want);
        } else {
            remaining = remaining - amount;
            assert(sel@ + greedy(group_view(g@), remaining as int) =~= want);
        }
    }
    proof {
        assert(greedy(group_view(g@), remaining as int) =~= seq![]);
    }
    assert(sel@ =~= want);
    sel
}

fn push_all_unique_exec(s: &mut Vec<Outpoint>, xs: &Vec<Outpoint>)
    ensures
        final(s)@ == push_all_unique(old(s)@, xs@),
{
    let ghost base = old(s)@;
    let mut i: usize = 0;
    assert(xs@.take(0) =~= Seq::<Outpoint>::empty());
    while i < xs.len()
        invariant
            i <= xs@.len(),
            s@ == push_all_unique(base, xs@.take(i as int)),
        decreases xs@.len() - i,
    {
        proof {
            assert(xs@.take(i + 1).drop_last() =~= xs@.take(i as int));
        }
        if !contains_key(s, &xs[i]) {
            s.push(xs[i]);
        }
        i = i + 1;
    }
    assert(xs@.take(i as int) =~= xs@);
}

/// Picks the outputs that a transfer spends.
///
/// `holdings` are the fungible amounts of the requested contracts' asset
/// slots that the store reports at the candidate outputs. For each
/// requested contract, in order, the holdings at available outputs are
/// summed per output and whole outputs are taken, largest sum first (the
/// earlier on ties), until they hold the requested total. Outputs are listed
/// once, in order of selection. A shortfall is not detected here.
pub fn rgb_coin_select(available_utxos: &Vec<Outpoint>, holdings: &Vec<Holding>, rgb_assignments: &RgbAssignments) -> (r: Vec<Outpoint>)
    requires
        rgb_assignments.wf(),
    ensures
        r@ == select_spec(holdings@, available_utxos@, rgb_assignments@),
{
    let ghost a = rgb_assignments@;
    let n = rgb_assignments.contracts().len();
    let mut sel: Vec<Outpoint> = Vec::new();
    let mut i: usize = 0;
    assert(sel@ =~= select_spec(holdings@, available_utxos@, a.take(0)));
    while i < n
        invariant
            n == a.len(),
            a == rgb_assignments@,
            rgb_assignments.wf(),
            i <= n,
            sel@ == select_spec(holdings@, available_utxos@, a.take(i as int)),
        decreases n - i,
    {
        proof {
            assert(a.take(i + 1).drop_last() =~= a.take(i as int));
            assert(a.take(i + 1).last() == a[i as int]);
        }
        let (cid, recips) = rgb_assignments.recipients_at(i);
        let need = sum_wide(&recips);
        let groups = group_holdings(holdings, available_utxos, &cid);
        let chosen = greedy_exec(groups, need);
        push_all_unique_exec(&mut sel, &chosen);
        i = i + 1;
    }
    assert(a.take(i as int) =~= a);
    sel
}


/// Total amount of contract `cid` among the holdings at outputs `utxos`.
pub open spec fn balance_spec(hs: Seq<Holding>, cid: ContractId, utxos: Seq<Outpoint>) -> int
    decreases hs.len(),
{
    if hs.len() == 0 {
        0
    } else {
        balance_spec(hs.drop_last(), cid, utxos) + if hs.last().contract_id == cid && utxos.contains(
            hs.last().output,
        ) {
            hs.last().amount as int
        } else {
            0
        }
    }
}

proof fn lemma_balance_monotone(hs: Seq<Holding>, cid: ContractId, utxos: Seq<Outpoint>, n: int)
    requires
        0 <= n <= hs.len(),
    ensures
        0 <= balance_spec(hs.take(n), cid, utxos) <= balance_spec(hs, cid, utxos),
    decreases hs.len(),
{
    if n < hs.len() {
        assert(hs.drop_last().take(n) =~= hs.take(n));
        lemma_balance_monotone(hs.drop_last(), cid, utxos, n);
    } else {
        assert(hs.take(n) =~= hs);
        if hs.len() > 0 {
            lemma_balance_monotone(hs.drop_last(), cid, utxos, 0);
        }
    }
}

/// The balance of contract `contract_id` at outputs `utxos`: the sum of
/// its holdings there, `None` when that exceeds 64 bits.
pub fn rgb_balance(holdings: &Vec<Holding>, contract_id: ContractId, utxos: &Vec<Outpoint>) -> (r: Option<u64>)
    ensures
        match r {
            Some(v) => v == balance_spec(holdings@, contract_id, utxos@),
            None => balance_spec(holdings@, contract_id, utxos@) > u64::MAX,
        },
{
    let mut acc: u64 = 0;
    let mut i: usize = 0;
    while i < holdings.len()
        invariant
            i <= holdings@.len(),
            acc == balance_spec(holdings@.take(i as int), contract_id, utxos@),
        decreases holdings@.len() - i,
    {
        proof {
            assert(holdings@.take(i + 1).drop_last() =~= holdings@.take(i as int));
        }
        let h = holdings[i];
        if h.contract_id.same(&contract_id) && contains_key(utxos, &h.output) {
            if acc > u64::MAX - h.amount {
                proof {
                    lemma_balance_monotone(holdings@, contract_id, utxos@, i + 1);
                }
                return None;
            }
            acc = acc + h.amount;
        }
        i = i + 1;
    }
    assert(holdings@.take(i as int) =~= holdings@);
    Some(acc)
}

} // verus!
