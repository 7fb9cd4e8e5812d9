use vstd::prelude::*;

verus! {

/// Keys that verified code can compare for equality.
pub trait SameKey: Sized {
    fn same(&self, o: &Self) -> (r: bool)
        ensures
            r == (*self == *o),
    ;
}

/// Compares two 32-byte values byte by byte.
pub fn bytes32_eq(a: &[u8; 32], b: &[u8; 32]) -> (r: bool)
    ensures
        r == (*a == *b),
{
    let mut i: usize = 0;
    while i < 32
        invariant
            i <= 32,
            forall|j: int| 0 <= j < i ==> a[j] == b[j],
        decreases 32 - i,
    {
        if a[i] != b[i] {
            return false;
        }
        i = i + 1;
    }
    assert(*a =~= *b);
    true
}

/// Identifier of a settlement-layer transaction, as its 32 raw bytes.
#[derive(Clone, Copy, PartialEq, Eq, Debug, Hash)]
pub struct Txid(pub [u8; 32]);

/// Identifier of a contract, as its 32 raw bytes.
#[derive(Clone, Copy, PartialEq, Eq, Debug, Hash)]
pub struct ContractId(pub [u8; 32]);

/// Identifier of a contract operation, as its 32 raw bytes.
#[derive(Clone, Copy, PartialEq, Eq, Debug, Hash)]
pub struct OpId(pub [u8; 32]);

impl SameKey for Txid {
    fn same(&self, o: &Self) -> (r: bool) {
        bytes32_eq(&self.0, &o.0)
    }
}

impl SameKey for ContractId {
    fn same(&self, o: &Self) -> (r: bool) {
        bytes32_eq(&self.0, &o.0)
    }
}

impl SameKey for OpId {
    fn same(&self, o: &Self) -> (r: bool) {
        bytes32_eq(&self.0, &o.0)
    }
}

impl ContractId {
    /// The raw bytes of the identifier.
    pub fn as_bytes(&self) -> (r: &[u8; 32])
        ensures
            *r == self.0,
    {
        &self.0
    }
}

/// A spendable transaction output: transaction id and output index.
#[derive(Clone, Copy, PartialEq, Eq, Debug, Hash)]
pub struct Outpoint {
    pub txid: Txid,
    pub vout: u32,
}

impl Outpoint {
    pub fn new(txid: Txid, vout: u32) -> (r: Outpoint)
        ensures
            r.txid == txid,
            r.vout == vout,
    {
        Outpoint { txid, vout }
    }
}

impl SameKey for Outpoint {
    fn same(&self, o: &Self) -> (r: bool) {
        self.vout == o.vout && self.txid.same(&o.txid)
    }
}

/// Who receives new state: an output of the transaction being built, or an
/// existing output.
#[derive(Clone, Copy, PartialEq, Eq, Debug, Hash)]
pub enum Beneficiary {
    WitnessVout(u32),
    Outpoint(Outpoint),
}

impl Beneficiary {
    pub fn new_witness(vout: u32) -> (r: Beneficiary)
        ensures
            r == Beneficiary::WitnessVout(vout),
    {
        Beneficiary::WitnessVout(vout)
    }

    pub fn new_outpoint(outpoint: Outpoint) -> (r: Beneficiary)
        ensures
            r == Beneficiary::Outpoint(outpoint),
    {
        Beneficiary::Outpoint(outpoint)
    }

    /// The seal that binds state to this beneficiary, hidden by `blinding`.
    pub fn to_raw_with_blinding(self, blinding: u64) -> (r: BlindedSeal)
        ensures
            r == (BlindedSeal { beneficiary: self, blinding }),
    {
        BlindedSeal { beneficiary: self, blinding }
    }
}

impl SameKey for Beneficiary {
    fn same(&self, o: &Self) -> (r: bool) {
        match (self, o) {
            (Beneficiary::WitnessVout(a), Beneficiary::WitnessVout(b)) => *a == *b,
            (Beneficiary::Outpoint(a), Beneficiary::Outpoint(b)) => a.same(b),
            _ => false,
        }
    }
}

/// How a seal is closed: by the first OP_RETURN output, or by a taproot
/// commitment in the first taproot output.
#[derive(Clone, Copy, PartialEq, Eq, Debug, Hash)]
pub enum CloseMethod {
    OpretFirst,
    TapretFirst,
}

/// A seal closed by the first OP_RETURN output, pointing at a beneficiary and
/// hidden by a blinding value until disclosed.
#[derive(Clone, Copy, PartialEq, Eq, Debug, Hash)]
pub struct BlindedSeal {
    pub beneficiary: Beneficiary,
    pub blinding: u64,
}

/// Conversion into the plain raw form of a value.
pub trait ToRaw: Sized {
    type RawType;

    fn to_raw(self) -> Self::RawType;
}

impl ToRaw for Txid {
    type RawType = [u8; 32];

    fn to_raw(self) -> [u8; 32] {
        self.0
    }
}

impl ToRaw for ContractId {
    type RawType = [u8; 32];

    fn to_raw(self) -> [u8; 32] {
        self.0
    }
}

impl ToRaw for Outpoint {
    type RawType = ([u8; 32], u32);

    fn to_raw(self) -> ([u8; 32], u32) {
        (self.txid.0, self.vout)
    }
}

/// Index of the last entry of `s` whose key is `k`, or -1 when there is none.
pub open spec fn find_key<K, V>(s: Seq<(K, V)>, k: K) -> int
    decreases s.len(),
{
    if s.len() == 0 {
        -1
    } else if s.last().0 == k {
        s.len() - 1
    } else {
        find_key(s.drop_last(), k)
    }
}

pub proof fn lemma_find_key<K, V>(s: Seq<(K, V)>, k: K)
    ensures
        -1 <= find_key(s, k) < s.len(),
        find_key(s, k) >= 0 ==> s[find_key(s, k)].0 == k,
        forall|j: int| find_key(s, k) < j < s.len() ==> s[j].0 != k,
    decreases s.len(),
{
    if s.len() > 0 && s.last().0 != k {
        lemma_find_key(s.drop_last(), k);
        assert forall|j: int| find_key(s, k) < j < s.len() implies s[j].0 != k by {
            if j < s.len() - 1 {
                assert(s[j] == s.drop_last()[j]);
            }
        }
    }
}

/// Finds the last entry of `s` whose key is `k`.
pub fn find_entry<K: SameKey, V>(s: &Vec<(K, V)>, k: &K) -> (r: Option<usize>)
    ensures
        match r {
            Some(i) => i as int == find_key(s@, *k),
            None => find_key(s@, *k) == -1,
        },
{
    let mut j: usize = s.len();
    assert(s@.take(j as int) =~= s@);
    while j > 0
        invariant
            j <= s@.len(),
            find_key(s@, *k) == find_key(s@.take(j as int), *k),
        decreases j,
    {
        if s[j - 1].0.same(k) {
            return Some(j - 1);
        }
        assert(s@.take(j as int).drop_last() =~= s@.take(j - 1));
        j = j - 1;
    }
    None
}

} // verus!
