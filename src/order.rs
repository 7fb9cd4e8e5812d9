use vstd::prelude::*;

use crate::types::{find_key, lemma_find_key, Beneficiary, ContractId, SameKey};

verus! {

/// Keys with a strict total order that verified code can test.
pub trait KeyOrder: SameKey + Copy {
    spec fn key_lt(self, o: Self) -> bool;

    fn less(&self, o: &Self) -> (r: bool)
        ensures
            r == self.key_lt(*o),
    ;

    proof fn lemma_irreflexive(a: Self)
        ensures
            !a.key_lt(a),
    ;

    proof fn lemma_transitive(a: Self, b: Self, c: Self)
        requires
            a.key_lt(b),
            b.key_lt(c),
        ensures
            a.key_lt(c),
    ;

    proof fn lemma_total(a: Self, b: Self)
        ensures
            a == b || a.key_lt(b) || b.key_lt(a),
    ;
}

/// Lexicographic order of byte strings.
pub open spec fn bytes_lt(a: Seq<u8>, b: Seq<u8>) -> bool
    decreases a.len(),
{
    if a.len() == 0 || b.len() == 0 {
        false
    } else if a[0] != b[0] {
        a[0] < b[0]
    } else {
        bytes_lt(a.drop_first(), b.drop_first())
    }
}

proof fn lemma_bytes_irreflexive(a: Seq<u8>)
    ensures
        !bytes_lt(a, a),
    decreases a.len(),
{
    if a.len() > 0 {
        lemma_bytes_irreflexive(a.drop_first());
    }
}

proof fn lemma_bytes_transitive(a: Seq<u8>, b: Seq<u8>, c: Seq<u8>)
    requires
        a.len() == b.len() == c.len(),
        bytes_lt(a, b),
        bytes_lt(b, c),
    ensures
        bytes_lt(a, c),
    decreases a.len(),
{
    if a[0] == b[0] && b[0] == c[0] {
        lemma_bytes_transitive(a.drop_first(), b.drop_first(), c.drop_first());
    }
}

proof fn lemma_bytes_total(a: Seq<u8>, b: Seq<u8>)
    requires
        a.len() == b.len(),
    ensures
        a == b || bytes_lt(a, b) || bytes_lt(b, a),
    decreases a.len(),
{
    if a.len() == 0 {
        assert(a =~= b);
    } else if a[0] == b[0] {
        lemma_bytes_total(a.drop_first(), b.drop_first());
        if a.drop_first() == b.drop_first() {
            assert(a =~= b) by {
                assert forall|i: int| 0 <= i < a.len() implies a[i] == b[i] by {
                    if i > 0 {
                        assert(a[i] == a.drop_first()[i - 1]);
                        assert(b[i] == b.drop_first()[i - 1]);
                    }
                }
            }
        }
    }
}

/// Compares two 32-byte strings lexicographically.
pub fn bytes32_lt(a: &[u8; 32], b: &[u8; 32]) -> (r: bool)
    ensures
        r == bytes_lt(a@, b@),
{
    let mut i: usize = 0;
    assert(a@.subrange(0, 32) =~= a@);
    assert(b@.subrange(0, 32) =~= b@);
    while i < 32
        invariant
            i <= 32,
            a@.len() == 32,
            b@.len() == 32,
            bytes_lt(a@, b@) == bytes_lt(a@.subrange(i as int, 32), b@.subrange(i as int, 32)),
        decreases 32 - i,
    {
        proof {
            assert(a@.subrange(i as int, 32)[0] == a@[i as int]);
            assert(b@.subrange(i as int, 32)[0] == b@[i as int]);
            assert(a@.subrange(i as int, 32).drop_first() =~= a@.subrange(i + 1, 32));
            assert(b@.subrange(i as int, 32).drop_first() =~= b@.subrange(i + 1, 32));
        }
        if a[i] != b[i] {
            return a[i] < b[i];
        }
        i = i + 1;
    }
    false
}

impl KeyOrder for ContractId {
    open spec fn key_lt(self, o: Self) -> bool {
        bytes_lt(self.0@, o.0@)
    }

    fn less(&self, o: &Self) -> (r: bool) {
        bytes32_lt(&self.0, &o.0)
    }

    proof fn lemma_irreflexive(a: Self) {
        lemma_bytes_irreflexive(a.0@);
    }

    proof fn lemma_transitive(a: Self, b: Self, c: Self) {
        lemma_bytes_transitive(a.0@, b.0@, c.0@);
    }

    proof fn lemma_total(a: Self, b: Self) {
        lemma_bytes_total(a.0@, b.0@);
        if a.0@ == b.0@ {
            assert(a.0 =~= b.0);
        }
    }
}

/// The order of beneficiaries: outputs of the new transaction first, by
/// index; then existing outputs, by transaction id bytes and index.
pub open spec fn beneficiary_lt(a: Beneficiary, b: Beneficiary) -> bool {
    match (a, b) {
        (Beneficiary::WitnessVout(x), Beneficiary::WitnessVout(y)) => x < y,
        (Beneficiary::WitnessVout(_), Beneficiary::Outpoint(_)) => true,
        (Beneficiary::Outpoint(_), Beneficiary::WitnessVout(_)) => false,
        (Beneficiary::Outpoint(p), Beneficiary::Outpoint(q)) => bytes_lt(p.txid.0@, q.txid.0@) || (
        p.txid == q.txid && p.vout < q.vout),
    }
}

impl KeyOrder for Beneficiary {
    open spec fn key_lt(self, o: Self) -> bool {
        beneficiary_lt(self, o)
    }

    fn less(&self, o: &Self) -> (r: bool) {
        match (self, o) {
            (Beneficiary::WitnessVout(x), Beneficiary::WitnessVout(y)) => *x < *y,
            (Beneficiary::WitnessVout(_), Beneficiary::Outpoint(_)) => true,
            (Beneficiary::Outpoint(_), Beneficiary::WitnessVout(_)) => false,
            (Beneficiary::Outpoint(p), Beneficiary::Outpoint(q)) => {
                bytes32_lt(&p.txid.0, &q.txid.0) || (p.txid.same(&q.txid) && p.vout < q.vout)
            },
        }
    }

    proof fn lemma_irreflexive(a: Self) {
        if let Beneficiary::Outpoint(p) = a {
            lemma_bytes_irreflexive(p.txid.0@);
        }
    }

    proof fn lemma_transitive(a: Self, b: Self, c: Self) {
        match (a, b, c) {
            (Beneficiary::Outpoint(p), Beneficiary::Outpoint(q), Beneficiary::Outpoint(r)) => {
                if bytes_lt(p.txid.0@, q.txid.0@) && bytes_lt(q.txid.0@, r.txid.0@) {
                    lemma_bytes_transitive(p.txid.0@, q.txid.0@, r.txid.0@);
                }
            },
            _ => {},
        }
    }

    proof fn lemma_total(a: Self, b: Self) {
        match (a, b) {
            (Beneficiary::Outpoint(p), Beneficiary::Outpoint(q)) => {
                lemma_bytes_total(p.txid.0@, q.txid.0@);
                if p.txid.0@ == q.txid.0@ {
                    assert(p.txid.0 =~= q.txid.0);
                }
            },
            _ => {},
        }
    }
}

/// Entries in strictly increasing key order.
pub open spec fn sorted_keys<K: KeyOrder, V>(s: Seq<(K, V)>) -> bool {
    forall|i: int, j: int| 0 <= i < j < s.len() ==> (#[trigger] s[i].0).key_lt(#[trigger] s[j].0)
}

/// Where key `k` goes in sorted entries `s`: after every entry whose key is
/// smaller.
pub open spec fn insert_pos<K: KeyOrder, V>(s: Seq<(K, V)>, k: K) -> int
    decreases s.len(),
{
    if s.len() == 0 {
        0
    } else if s.last().0.key_lt(k) {
        s.len() as int
    } else {
        insert_pos(s.drop_last(), k)
    }
}

pub proof fn lemma_insert_pos<K: KeyOrder, V>(s: Seq<(K, V)>, k: K)
    requires
        sorted_keys(s),
    ensures
        0 <= insert_pos(s, k) <= s.len(),
        forall|i: int| 0 <= i < insert_pos(s, k) ==> (#[trigger] s[i].0).key_lt(k),
        forall|i: int| insert_pos(s, k) <= i < s.len() ==> !(#[trigger] s[i].0).key_lt(k),
    decreases s.len(),
{
    if s.len() > 0 {
        let d = s.drop_last();
        assert(sorted_keys(d)) by {
            assert forall|i: int, j: int| 0 <= i < j < d.len() implies (#[trigger] d[i].0).key_lt(
                #[trigger] d[j].0,
            ) by {
                assert(d[i] == s[i] && d[j] == s[j]);
            }
        }
        lemma_insert_pos(d, k);
        if s.last().0.key_lt(k) {
            assert forall|i: int| 0 <= i < s.len() implies (#[trigger] s[i].0).key_lt(k) by {
                if i < s.len() - 1 {
                    K::lemma_transitive(s[i].0, s.last().0, k);
                }
            }
        } else {
            assert forall|i: int| insert_pos(s, k) <= i < s.len() implies !(#[trigger] s[i].0).key_lt(k) by {
                if i < s.len() - 1 {
                    assert(s[i] == d[i]);
                }
            }
            assert forall|i: int| 0 <= i < insert_pos(s, k) implies (#[trigger] s[i].0).key_lt(k) by {
                assert(s[i] == d[i]);
            }
        }
    }
}

/// Sorted keys are distinct.
pub proof fn lemma_sorted_distinct<K: KeyOrder, V>(s: Seq<(K, V)>)
    requires
        sorted_keys(s),
    ensures
        forall|i: int, j: int| 0 <= i < j < s.len() ==> s[i].0 != s[j].0,
{
    assert forall|i: int, j: int| 0 <= i < j < s.len() implies s[i].0 != s[j].0 by {
        K::lemma_irreflexive(s[i].0);
        assert(s[i].0.key_lt(s[j].0));
    }
}

/// Inserting an absent key at its place keeps the keys sorted.
pub proof fn lemma_sorted_insert<K: KeyOrder, V>(s: Seq<(K, V)>, k: K, v: V)
    requires
        sorted_keys(s),
        forall|i: int| 0 <= i < s.len() ==> s[i].0 != k,
    ensures
        sorted_keys(s.insert(insert_pos(s, k), (k, v))),
{
    lemma_insert_pos(s, k);
    let p = insert_pos(s, k);
    let t = s.insert(p, (k, v));
    assert forall|i: int| p <= i < s.len() implies k.key_lt(#[trigger] s[i].0) by {
        K::lemma_total(k, s[i].0);
    }
    assert forall|i: int, j: int| 0 <= i < j < t.len() implies (#[trigger] t[i].0).key_lt(
        #[trigger] t[j].0,
    ) by {
        if j < p {
            assert(t[i] == s[i] && t[j] == s[j]);
        } else if j == p {
            assert(t[i] == s[i]);
        } else if i < p {
            assert(t[i] == s[i] && t[j] == s[j - 1]);
            K::lemma_transitive(s[i].0, k, s[j - 1].0);
        } else if i == p {
            assert(t[j] == s[j - 1]);
        } else {
            assert(t[i] == s[i - 1] && t[j] == s[j - 1]);
        }
    }
}

/// Changing the value of an entry keeps the keys sorted.
pub proof fn lemma_sorted_update<K: KeyOrder, V>(s: Seq<(K, V)>, i: int, v: V)
    requires
        sorted_keys(s),
        0 <= i < s.len(),
    ensures
        sorted_keys(s.update(i, (s[i].0, v))),
{
    let t = s.update(i, (s[i].0, v));
    assert forall|a: int, b: int| 0 <= a < b < t.len() implies (#[trigger] t[a].0).key_lt(
        #[trigger] t[b].0,
    ) by {
        assert(t[a].0 == s[a].0 && t[b].0 == s[b].0);
    }
}

/// Two sorted entry lists that hold the same keys, each with the same
/// value, are equal.
pub proof fn lemma_sorted_unique<K: KeyOrder, V>(s1: Seq<(K, V)>, s2: Seq<(K, V)>)
    requires
        sorted_keys(s1),
        sorted_keys(s2),
        forall|k: K| (find_key(s1, k) >= 0) == (find_key(s2, k) >= 0),
        forall|k: K| find_key(s1, k) >= 0 ==> s1[find_key(s1, k)].1 == s2[find_key(s2, k)].1,
    ensures
        s1 == s2,
    decreases s1.len() + s2.len(),
{
    if s1.len() == 0 || s2.len() == 0 {
        if s1.len() > 0 {
            lemma_find_key(s1, s1.last().0);
            lemma_find_key(s2, s1.last().0);
        }
        if s2.len() > 0 {
            lemma_find_key(s2, s2.last().0);
            lemma_find_key(s1, s2.last().0);
        }
        assert(s1 =~= s2);
    } else {
        let m1 = s1.last().0;
        let m2 = s2.last().0;
        lemma_find_key(s1, m1);
        lemma_find_key(s2, m2);
        lemma_find_key(s1, m2);
        lemma_find_key(s2, m1);
        lemma_last_is_max(s1, m2);
        lemma_last_is_max(s2, m1);
        if m1 != m2 {
            K::lemma_transitive(m1, m2, m1);
            K::lemma_irreflexive(m1);
        }
        let d1 = s1.drop_last();
        let d2 = s2.drop_last();
        lemma_sorted_prefix(s1);
        lemma_sorted_prefix(s2);
        assert forall|k: K| (find_key(d1, k) >= 0) == (find_key(d2, k) >= 0) && (find_key(d1, k) >= 0
            ==> d1[find_key(d1, k)].1 == d2[find_key(d2, k)].1) by {
            lemma_find_key(d1, k);
            lemma_find_key(d2, k);
            lemma_find_key(s1, k);
            lemma_find_key(s2, k);
            if k == m1 {
                lemma_absent_below_max(s1);
                lemma_absent_below_max(s2);
            }
        }
        lemma_sorted_unique(d1, d2);
        assert(s1 =~= d1.push(s1.last()));
        assert(s2 =~= d2.push(s2.last()));
    }
}

proof fn lemma_sorted_prefix<K: KeyOrder, V>(s: Seq<(K, V)>)
    requires
        sorted_keys(s),
        s.len() > 0,
    ensures
        sorted_keys(s.drop_last()),
{
    let d = s.drop_last();
    assert forall|i: int, j: int| 0 <= i < j < d.len() implies (#[trigger] d[i].0).key_lt(#[trigger] d[j].0) by {
        assert(d[i] == s[i] && d[j] == s[j]);
    }
}

/// In sorted entries, every key present is at most the last one.
proof fn lemma_last_is_max<K: KeyOrder, V>(s: Seq<(K, V)>, k: K)
    requires
        sorted_keys(s),
        s.len() > 0,
        find_key(s, k) >= 0,
    ensures
        k == s.last().0 || k.key_lt(s.last().0),
{
    lemma_find_key(s, k);
    let i = find_key(s, k);
    if i < s.len() - 1 {
        assert(s[i].0.key_lt(s[s.len() - 1].0));
    }
}

/// In sorted entries, the last key does not occur earlier.
proof fn lemma_absent_below_max<K: KeyOrder, V>(s: Seq<(K, V)>)
    requires
        sorted_keys(s),
        s.len() > 0,
    ensures
        find_key(s.drop_last(), s.last().0) == -1,
{
    let d = s.drop_last();
    lemma_find_key(d, s.last().0);
    if find_key(d, s.last().0) >= 0 {
        let i = find_key(d, s.last().0);
        assert(s[i].0.key_lt(s[s.len() - 1].0));
        K::lemma_irreflexive(s.last().0);
    }
}

/// Where key `k` goes in sorted entries `s`.
pub fn find_insert_pos<K: KeyOrder, V>(s: &Vec<(K, V)>, k: &K) -> (r: usize)
    ensures
        r as int == insert_pos(s@, *k),
{
    let mut j: usize = s.len();
    assert(s@.take(j as int) =~= s@);
    while j > 0
        invariant
            j <= s@.len(),
            insert_pos(s@, *k) == insert_pos(s@.take(j as int), *k),
        decreases j,
    {
        if s[j - 1].0.less(k) {
            return j;
        }
        assert(s@.take(j as int).drop_last() =~= s@.take(j - 1));
        j = j - 1;
    }
    j
}

} // verus!
