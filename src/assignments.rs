use vstd::prelude::*;

use crate::order::{
    find_insert_pos, insert_pos, lemma_insert_pos, lemma_sorted_distinct, lemma_sorted_insert,
    lemma_sorted_unique, lemma_sorted_update, sorted_keys,
};
use crate::types::{find_entry, find_key, lemma_find_key, Beneficiary, ContractId};

verus! {

/// Sum of the amounts of a list of (key, amount) entries.
pub open spec fn sum_amounts<K>(s: Seq<(K, u64)>) -> int
    decreases s.len(),
{
    if s.len() == 0 {
        0
    } else {
        sum_amounts(s.drop_last()) + s.last().1
    }
}

/// No two entries share a key.
pub open spec fn distinct_keys<K, V>(s: Seq<(K, V)>) -> bool {
    forall|i: int, j: int| 0 <= i < j < s.len() ==> s[i].0 != s[j].0
}

/// Adds `amount` for beneficiary `b`: an existing entry grows, a new one
/// takes its place in beneficiary order.
pub open spec fn add_amount(s: Seq<(Beneficiary, u64)>, b: Beneficiary, amount: u64) -> Seq<
    (Beneficiary, u64),
> {
    let i = find_key(s, b);
    if i < 0 {
        s.insert(insert_pos(s, b), (b, amount))
    } else {
        s.update(i, (b, (s[i].1 + amount) as u64))
    }
}

/// Adds `amount` for beneficiary `b` under contract `cid`.
pub open spec fn add_recipient(
    s: Seq<(ContractId, Seq<(Beneficiary, u64)>)>,
    cid: ContractId,
    b: Beneficiary,
    amount: u64,
) -> Seq<(ContractId, Seq<(Beneficiary, u64)>)> {
    let i = find_key(s, cid);
    if i < 0 {
        s.insert(insert_pos(s, cid), (cid, seq![(b, amount)]))
    } else {
        s.update(i, (cid, add_amount(s[i].1, b, amount)))
    }
}

/// Well-formed distribution: contracts and, per contract, beneficiaries are
/// distinct and in increasing order; each contract has a recipient; amounts
/// are positive.
pub open spec fn distribution_wf(s: Seq<(ContractId, Seq<(Beneficiary, u64)>)>) -> bool {
    &&& distinct_keys(s)
    &&& sorted_keys(s)
    &&& forall|i: int|
        0 <= i < s.len() ==> {
            &&& distinct_keys(#[trigger] s[i].1)
            &&& sorted_keys(s[i].1)
            &&& s[i].1.len() > 0
            &&& forall|j: int| 0 <= j < s[i].1.len() ==> s[i].1[j].1 > 0
        }
}

pub proof fn lemma_sum_update<K>(s: Seq<(K, u64)>, i: int, v: (K, u64))
    requires
        0 <= i < s.len(),
    ensures
        sum_amounts(s.update(i, v)) == sum_amounts(s) - s[i].1 + v.1,
    decreases s.len(),
{
    if i == s.len() - 1 {
        assert(s.update(i, v).drop_last() =~= s.drop_last());
    } else {
        assert(s.update(i, v).drop_last() =~= s.drop_last().update(i, v));
        lemma_sum_update(s.drop_last(), i, v);
    }
}

pub proof fn lemma_sum_insert<K>(s: Seq<(K, u64)>, p: int, x: (K, u64))
    requires
        0 <= p <= s.len(),
    ensures
        sum_amounts(s.insert(p, x)) == sum_amounts(s) + x.1,
    decreases s.len(),
{
    if p == s.len() {
        assert(s.insert(p, x).drop_last() =~= s);
    } else {
        assert(s.insert(p, x).drop_last() =~= s.drop_last().insert(p, x));
        lemma_sum_insert(s.drop_last(), p, x);
    }
}

pub proof fn lemma_sum_nonneg<K>(s: Seq<(K, u64)>)
    ensures
        sum_amounts(s) >= 0,
    decreases s.len(),
{
    if s.len() > 0 {
        lemma_sum_nonneg(s.drop_last());
    }
}

/// The prefix sums of a list never exceed its total.
pub proof fn lemma_sum_prefix<K>(s: Seq<(K, u64)>, n: int)
    requires
        0 <= n <= s.len(),
    ensures
        sum_amounts(s.take(n)) <= sum_amounts(s),
    decreases s.len(),
{
    if n < s.len() {
        assert(s.drop_last().take(n) =~= s.take(n));
        lemma_sum_prefix(s.drop_last(), n);
    } else {
        assert(s.take(n) =~= s);
    }
}

/// Number of recipients over all contracts of a distribution.
pub open spec fn total_recipients(assign: Seq<(ContractId, Seq<(Beneficiary, u64)>)>) -> int
    decreases assign.len(),
{
    if assign.len() == 0 {
        0
    } else {
        total_recipients(assign.drop_last()) + assign.last().1.len()
    }
}

pub proof fn lemma_total_prefix(assign: Seq<(ContractId, Seq<(Beneficiary, u64)>)>, n: int)
    requires
        0 <= n <= assign.len(),
    ensures
        0 <= total_recipients(assign.take(n)) <= total_recipients(assign),
        n < assign.len() ==> total_recipients(assign.take(n + 1)) == total_recipients(
            assign.take(n),
        ) + assign[n].1.len(),
    decreases assign.len(),
{
    if n < assign.len() {
        assert(assign.take(n + 1).drop_last() =~= assign.take(n));
        assert(assign.drop_last().take(n) =~= assign.take(n));
        lemma_total_prefix(assign.drop_last(), n);
    } else {
        assert(assign.take(n) =~= assign);
        lemma_total_nonneg(assign);
    }
}

pub proof fn lemma_total_nonneg(assign: Seq<(ContractId, Seq<(Beneficiary, u64)>)>)
    ensures
        total_recipients(assign) >= 0,
    decreases assign.len(),
{
    if assign.len() > 0 {
        lemma_total_nonneg(assign.drop_last());
    }
}

/// The amount that distribution `s` owes to beneficiary `b` of contract
/// `cid`.
pub open spec fn owed(s: Seq<(ContractId, Seq<(Beneficiary, u64)>)>, cid: ContractId, b: Beneficiary) -> int {
    let i = find_key(s, cid);
    if i < 0 {
        0
    } else {
        let j = find_key(s[i].1, b);
        if j < 0 {
            0
        } else {
            s[i].1[j].1 as int
        }
    }
}

/// A distribution is determined by what it owes: two well-formed
/// distributions that owe the same amount to every beneficiary of every
/// contract are equal, however they were built.
pub proof fn law_distribution_canonical(
    a1: Seq<(ContractId, Seq<(Beneficiary, u64)>)>,
    a2: Seq<(ContractId, Seq<(Beneficiary, u64)>)>,
)
    requires
        distribution_wf(a1),
        distribution_wf(a2),
        forall|c: ContractId, b: Beneficiary| #[trigger] owed(a1, c, b) == owed(a2, c, b),
    ensures
        a1 == a2,
{
    assert forall|c: ContractId| (find_key(a1, c) >= 0) == (find_key(a2, c) >= 0) by {
        lemma_contract_present(a1, c);
        lemma_contract_present(a2, c);
        if find_key(a1, c) >= 0 {
            let b = a1[find_key(a1, c)].1[0].0;
            assert(owed(a1, c, b) == owed(a2, c, b));
        }
        if find_key(a2, c) >= 0 {
            let b = a2[find_key(a2, c)].1[0].0;
            assert(owed(a1, c, b) == owed(a2, c, b));
        }
    }
    assert forall|c: ContractId| find_key(a1, c) >= 0 implies a1[find_key(a1, c)].1 == a2[find_key(
        a2,
        c,
    )].1 by {
        lemma_find_key(a1, c);
        lemma_find_key(a2, c);
        let t1 = a1[find_key(a1, c)].1;
        let t2 = a2[find_key(a2, c)].1;
        assert forall|b: Beneficiary| (find_key(t1, b) >= 0) == (find_key(t2, b) >= 0) && (find_key(
            t1,
            b,
        ) >= 0 ==> t1[find_key(t1, b)].1 == t2[find_key(t2, b)].1) by {
            lemma_find_key(t1, b);
            lemma_find_key(t2, b);
            assert(owed(a1, c, b) == owed(a2, c, b));
        }
        lemma_sorted_unique(t1, t2);
    }
    lemma_sorted_unique(a1, a2);
}

/// A contract is present exactly when it owes its first recipient
/// something.
proof fn lemma_contract_present(a: Seq<(ContractId, Seq<(Beneficiary, u64)>)>, c: ContractId)
    requires
        distribution_wf(a),
    ensures
        find_key(a, c) >= 0 ==> owed(a, c, a[find_key(a, c)].1[0].0) > 0,
        find_key(a, c) < 0 ==> forall|b: Beneficiary| owed(a, c, b) == 0,
{
    lemma_find_key(a, c);
    if find_key(a, c) >= 0 {
        let t = a[find_key(a, c)].1;
        lemma_find_key(t, t[0].0);
    }
}

/// Overflow of a 64-bit amount.
#[derive(Clone, Copy, PartialEq, Eq, Debug)]
pub struct OverflowError;

/// The requested distribution: per contract, the amount owed to each
/// beneficiary, contracts and beneficiaries each in increasing order.
#[derive(Clone, Debug)]
pub struct RgbAssignments {
    entries: Vec<(ContractId, Vec<(Beneficiary, u64)>)>,
}

impl View for RgbAssignments {
    type V = Seq<(ContractId, Seq<(Beneficiary, u64)>)>;

    closed spec fn view(&self) -> Self::V {
        self.entries@.map_values(|e: (ContractId, Vec<(Beneficiary, u64)>)| (e.0, e.1@))
    }
}

impl RgbAssignments {
    pub open spec fn wf(&self) -> bool {
        distribution_wf(self@)
    }

    pub fn new() -> (r: RgbAssignments)
        ensures
            r.wf(),
            r@.len() == 0,
    {
        let r = RgbAssignments { entries: Vec::new() };
        assert(r@ =~= Seq::empty());
        r
    }

    pub fn is_empty(&self) -> (r: bool)
        ensures
            r == (self@.len() == 0),
    {
        self.entries.len() == 0
    }

    /// The contracts of the distribution, in order.
    pub fn contracts(&self) -> (r: Vec<ContractId>)
        ensures
            r@ == self@.map_values(|e: (ContractId, Seq<(Beneficiary, u64)>)| e.0),
    {
        let mut r: Vec<ContractId> = Vec::new();
        let mut i: usize = 0;
        while i < self.entries.len()
            invariant
                i <= self.entries@.len(),
                r@ == self@.take(i as int).map_values(
                    |e: (ContractId, Seq<(Beneficiary, u64)>)| e.0,
                ),
            decreases self.entries@.len() - i,
        {
            r.push(self.entries[i].0);
            i = i + 1;
            assert(r@ =~= self@.take(i as int).map_values(
                |e: (ContractId, Seq<(Beneficiary, u64)>)| e.0,
            ));
        }
        assert(self@.take(i as int) =~= self@);
        r
    }

    /// Number of recipients over all contracts.
    pub fn recipient_count(&self) -> (r: u64)
        requires
            total_recipients(self@) <= u64::MAX,
        ensures
            r == total_recipients(self@),
    {
        let mut acc: u64 = 0;
        let mut i: usize = 0;
        while i < self.entries.len()
            invariant
                i <= self@.len(),
                total_recipients(self@) <= u64::MAX,
                acc == total_recipients(self@.take(i as int)),
            decreases self@.len() - i,
        {
            proof {
                lemma_total_prefix(self@, i + 1);
                lemma_total_prefix(self@, i as int);
            }
            acc = acc + self.entries[i].1.len() as u64;
            i = i + 1;
        }
        assert(self@.take(i as int) =~= self@);
        acc
    }

    /// The recipients of contract number `i`, in order.
    pub fn recipients_at(&self, i: usize) -> (r: (ContractId, Vec<(Beneficiary, u64)>))
        requires
            i < self@.len(),
        ensures
            r.0 == self@[i as int].0,
            r.1@ == self@[i as int].1,
    {
        let c = self.entries[i].0;
        let mut v: Vec<(Beneficiary, u64)> = Vec::new();
        let mut j: usize = 0;
        while j < self.entries[i].1.len()
            invariant
                i < self.entries@.len(),
                j <= self.entries@[i as int].1@.len(),
                v@ == self.entries@[i as int].1@.take(j as int),
            decreases self.entries@[i as int].1@.len() - j,
        {
            v.push(self.entries[i].1[j]);
            j = j + 1;
            assert(v@ =~= self.entries@[i as int].1@.take(j as int));
        }
        assert(v@ =~= self.entries@[i as int].1@);
        (c, v)
    }

    /// Owes `amount` more of contract `contract_id` to `recipient`; a zero
    /// amount changes nothing. Fails, changing nothing, when what is owed to
    /// that recipient would no longer fit in 64 bits.
    pub fn add_recipient_for(&mut self, contract_id: ContractId, recipient: Beneficiary, amount: u64) -> (r: Result<(), OverflowError>)
        requires
            old(self).wf(),
        ensures
            final(self).wf(),
            amount == 0 ==> r is Ok && final(self)@ == old(self)@,
            amount > 0 && owed(old(self)@, contract_id, recipient) + amount > u64::MAX ==> r is Err
                && final(self)@ == old(self)@,
            amount > 0 && owed(old(self)@, contract_id, recipient) + amount <= u64::MAX ==> r is Ok
                && final(self)@ == add_recipient(old(self)@, contract_id, recipient, amount),
    {
        if amount == 0 {
            return Ok(());
        }
        let ghost s = self@;
        proof {
            lemma_find_key(s, contract_id);
            lemma_find_key(self.entries@, contract_id);
            assert(self.entries@.map_values(
                |e: (ContractId, Vec<(Beneficiary, u64)>)| e.0,
            ) =~= s.map_values(|e: (ContractId, Seq<(Beneficiary, u64)>)| e.0));
            lemma_find_key_views(self.entries@, contract_id);
        }
        match find_entry(&self.entries, &contract_id) {
            None => {
                let pos = find_insert_pos(&self.entries, &contract_id);
                proof {
                    lemma_insert_pos_map(self.entries@, contract_id);
                    lemma_insert_pos(s, contract_id);
                }
                let mut v: Vec<(Beneficiary, u64)> = Vec::new();
                v.push((recipient, amount));
                self.entries.insert(pos, (contract_id, v));
                proof {
                    let t = seq![(recipient, amount)];
                    assert(self@ =~= s.insert(pos as int, (contract_id, t)));
                    lemma_sorted_insert(s, contract_id, t);
                    lemma_sorted_distinct(s.insert(pos as int, (contract_id, t)));
                    assert(sorted_keys(t));
                    assert(t.len() == 1 && t[0].1 == amount);
                }
                Ok(())
            },
            Some(i) => {
                let (cid, mut inner) = self.entries.remove(i);
                let ghost t = inner@;
                assert(t == s[i as int].1);
                proof {
                    lemma_find_key(t, recipient);
                }
                match find_entry(&inner, &recipient) {
                    None => {
                        let pos = find_insert_pos(&inner, &recipient);
                        proof {
                            lemma_insert_pos(t, recipient);
                        }
                        inner.insert(pos, (recipient, amount));
                    },
                    Some(j) => {
                        let old_amount = inner[j].1;
                        if old_amount > u64::MAX - amount {
                            self.entries.insert(i, (cid, inner));
                            proof {
                                assert(self.entries@ =~= old(self).entries@);
                            }
                            return Err(OverflowError);
                        }
                        inner[j] = (recipient, old_amount + amount);
                    },
                }
                proof {
                    assert(inner@ =~= add_amount(t, recipient, amount));
                    lemma_add_amount_wf(t, recipient, amount);
                }
                self.entries.insert(i, (cid, inner));
                proof {
                    assert(self@ =~= s.update(i as int, (contract_id, add_amount(t, recipient, amount))));
                    lemma_sorted_update(s, i as int, add_amount(t, recipient, amount));
                }
                Ok(())
            },
        }
    }
}

/// Sum of the amounts of `v`, in 128 bits.
pub fn sum_wide(v: &Vec<(Beneficiary, u64)>) -> (r: u128)
    ensures
        r == sum_amounts(v@),
{
    let mut acc: u128 = 0;
    let mut i: usize = 0;
    while i < v.len()
        invariant
            i <= v@.len(),
            acc == sum_amounts(v@.take(i as int)),
            acc <= i * u64::MAX,
        decreases v@.len() - i,
    {
        proof {
            assert(v@.take(i + 1).drop_last() =~= v@.take(i as int));
            assert((i + 1) * u64::MAX == i * u64::MAX + u64::MAX) by (nonlinear_arith);
            assert(v@.len() <= usize::MAX);
            assert((i + 1) * u64::MAX <= 0xFFFF_FFFF_FFFF_FFFF * 0xFFFF_FFFF_FFFF_FFFFu128) by (nonlinear_arith)
                requires i + 1 <= 0xFFFF_FFFF_FFFF_FFFF;
        }
        acc = acc + v[i].1 as u128;
        i = i + 1;
    }
    assert(v@.take(i as int) =~= v@);
    acc
}

proof fn lemma_insert_pos_map(e: Seq<(ContractId, Vec<(Beneficiary, u64)>)>, k: ContractId)
    ensures
        insert_pos(e, k) == insert_pos(
            e.map_values(|x: (ContractId, Vec<(Beneficiary, u64)>)| (x.0, x.1@)),
            k,
        ),
    decreases e.len(),
{
    let f = |x: (ContractId, Vec<(Beneficiary, u64)>)| (x.0, x.1@);
    if e.len() > 0 {
        assert(e.map_values(f).drop_last() =~= e.drop_last().map_values(f));
        lemma_insert_pos_map(e.drop_last(), k);
    }
}

/// The contract keys of the stored entries are those of the view.
proof fn lemma_find_key_views(e: Seq<(ContractId, Vec<(Beneficiary, u64)>)>, k: ContractId)
    ensures
        find_key(e, k) == find_key(
            e.map_values(|x: (ContractId, Vec<(Beneficiary, u64)>)| (x.0, x.1@)),
            k,
        ),
    decreases e.len(),
{
    let f = |x: (ContractId, Vec<(Beneficiary, u64)>)| (x.0, x.1@);
    if e.len() > 0 {
        assert(e.map_values(f).drop_last() =~= e.drop_last().map_values(f));
        lemma_find_key_views(e.drop_last(), k);
    }
}

proof fn lemma_add_amount_wf(t: Seq<(Beneficiary, u64)>, b: Beneficiary, amount: u64)
    requires
        distinct_keys(t),
        sorted_keys(t),
        amount > 0,
        forall|j: int| 0 <= j < t.len() ==> t[j].1 > 0,
        find_key(t, b) >= 0 ==> t[find_key(t, b)].1 + amount <= u64::MAX,
    ensures
        distinct_keys(add_amount(t, b, amount)),
        sorted_keys(add_amount(t, b, amount)),
        add_amount(t, b, amount).len() > 0,
        forall|j: int|
            0 <= j < add_amount(t, b, amount).len() ==> add_amount(t, b, amount)[j].1 > 0,
{
    lemma_find_key(t, b);
    let i = find_key(t, b);
    if i < 0 {
        lemma_insert_pos(t, b);
        lemma_sorted_insert(t, b, amount);
        lemma_sorted_distinct(t.insert(insert_pos(t, b), (b, amount)));
    } else {
        lemma_sorted_update(t, i, (t[i].1 + amount) as u64);
    }
}

} // verus!
