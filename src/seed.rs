use vstd::prelude::*;

use crate::assignments::RgbAssignments;
use crate::blinding::{sha256, sha256_of};
use crate::types::{Beneficiary, Outpoint};

verus! {

pub open spec fn u32_le(v: u32) -> Seq<u8> {
    seq![
        (v % 256) as u8,
        ((v / 256) % 256) as u8,
        ((v / 65536) % 256) as u8,
        ((v / 16777216) % 256) as u8,
    ]
}

pub open spec fn u64_le(v: u64) -> Seq<u8> {
    u32_le((v % 4294967296) as u32) + u32_le((v / 4294967296) as u32)
}

pub open spec fn outpoint_bytes(o: Outpoint) -> Seq<u8> {
    o.txid.0@ + u32_le(o.vout)
}

pub open spec fn beneficiary_bytes(b: Beneficiary) -> Seq<u8> {
    match b {
        Beneficiary::WitnessVout(v) => seq![0u8] + u32_le(v),
        Beneficiary::Outpoint(o) => seq![1u8] + outpoint_bytes(o),
    }
}

pub open spec fn outpoints_bytes(s: Seq<Outpoint>) -> Seq<u8>
    decreases s.len(),
{
    if s.len() == 0 {
        seq![]
    } else {
        outpoints_bytes(s.drop_last()) + outpoint_bytes(s.last())
    }
}

pub open spec fn recipients_bytes(s: Seq<(Beneficiary, u64)>) -> Seq<u8>
    decreases s.len(),
{
    if s.len() == 0 {
        seq![]
    } else {
        recipients_bytes(s.drop_last()) + beneficiary_bytes(s.last().0) + u64_le(s.last().1)
    }
}

pub open spec fn distribution_bytes(s: Seq<(crate::types::ContractId, Seq<(Beneficiary, u64)>)>) -> Seq<u8>
    decreases s.len(),
{
    if s.len() == 0 {
        seq![]
    } else {
        distribution_bytes(s.drop_last()) + s.last().0.0@ + u64_le(s.last().1.len() as u64)
            + recipients_bytes(s.last().1)
    }
}

pub open spec fn change_bytes(change: Option<Beneficiary>) -> Seq<u8> {
    match change {
        None => seq![0u8],
        Some(b) => seq![1u8] + beneficiary_bytes(b),
    }
}

/// The canonical encoding of a composition request: spent outputs,
/// distribution, change beneficiary and caller seed, each list prefixed by
/// its length.
pub open spec fn coloring_bytes(
    prev: Seq<Outpoint>,
    assign: Seq<(crate::types::ContractId, Seq<(Beneficiary, u64)>)>,
    change: Option<Beneficiary>,
    seed: u64,
) -> Seq<u8> {
    u64_le(prev.len() as u64) + outpoints_bytes(prev) + u64_le(assign.len() as u64)
        + distribution_bytes(assign) + change_bytes(change) + u64_le(seed)
}

/// The key of the blinding stream of a composition request.
pub open spec fn coloring_key(
    prev: Seq<Outpoint>,
    assign: Seq<(crate::types::ContractId, Seq<(Beneficiary, u64)>)>,
    change: Option<Beneficiary>,
    seed: u64,
) -> Seq<u8> {
    sha256_of(coloring_bytes(prev, assign, change, seed))
}

fn put_u32(buf: &mut Vec<u8>, v: u32)
    ensures
        final(buf)@ == old(buf)@ + u32_le(v),
{
    buf.push((v % 256) as u8);
    buf.push(((v / 256) % 256) as u8);
    buf.push(((v / 65536) % 256) as u8);
    buf.push(((v / 16777216) % 256) as u8);
    assert(final(buf)@ =~= old(buf)@ + u32_le(v));
}

fn put_u64(buf: &mut Vec<u8>, v: u64)
    ensures
        final(buf)@ == old(buf)@ + u64_le(v),
{
    put_u32(buf, (v % 4294967296) as u32);
    put_u32(buf, (v / 4294967296) as u32);
    assert(final(buf)@ =~= old(buf)@ + u64_le(v));
}

fn put_bytes32(buf: &mut Vec<u8>, b: &[u8; 32])
    ensures
        final(buf)@ == old(buf)@ + b@,
{
    let ghost base = old(buf)@;
    let mut i: usize = 0;
    while i < 32
        invariant
            i <= 32,
            b@.len() == 32,
            buf@ =~= base + b@.take(i as int),
        decreases 32 - i,
    {
        buf.push(b[i]);
        i = i + 1;
        assert(buf@ =~= base + b@.take(i as int));
    }
    assert(b@.take(32) =~= b@);
}

fn put_outpoint(buf: &mut Vec<u8>, o: &Outpoint)
    ensures
        final(buf)@ == old(buf)@ + outpoint_bytes(*o),
{
    put_bytes32(buf, &o.txid.0);
    put_u32(buf, o.vout);
    assert(final(buf)@ =~= old(buf)@ + outpoint_bytes(*o));
}

fn put_beneficiary(buf: &mut Vec<u8>, b: &Beneficiary)
    ensures
        final(buf)@ == old(buf)@ + beneficiary_bytes(*b),
{
    match b {
        Beneficiary::WitnessVout(v) => {
            buf.push(0u8);
            put_u32(buf, *v);
        },
        Beneficiary::Outpoint(o) => {
            buf.push(1u8);
            put_outpoint(buf, o);
        },
    }
    assert(final(buf)@ =~= old(buf)@ + beneficiary_bytes(*b));
}

fn put_recipients(buf: &mut Vec<u8>, s: &Vec<(Beneficiary, u64)>)
    ensures
        final(buf)@ == old(buf)@ + recipients_bytes(s@),
{
    let ghost base = old(buf)@;
    let mut i: usize = 0;
    assert(base + recipients_bytes(s@.take(0)) =~= base);
    while i < s.len()
        invariant
            i <= s@.len(),
            buf@ == base + recipients_bytes(s@.take(i as int)),
        decreases s@.len() - i,
    {
        proof {
            assert(s@.take(i + 1).drop_last() =~= s@.take(i as int));
        }
        put_beneficiary(buf, &s[i].0);
        put_u64(buf, s[i].1);
        i = i + 1;
        assert(buf@ =~= base + recipients_bytes(s@.take(i as int)));
    }
    assert(s@.take(i as int) =~= s@);
}

/// The canonical encoding of a composition request.
pub fn encode_coloring(
    prev: &Vec<Outpoint>,
    assignments: &RgbAssignments,
    change: Option<Beneficiary>,
    seed: u64,
) -> (r: Vec<u8>)
    ensures
        r@ == coloring_bytes(prev@, assignments@, change, seed),
{
    let mut buf: Vec<u8> = Vec::new();
    put_u64(&mut buf, prev.len() as u64);
    let ghost b0 = buf@;
    let mut i: usize = 0;
    assert(b0 + outpoints_bytes(prev@.take(0)) =~= b0);
    while i < prev.len()
        invariant
            i <= prev@.len(),
            buf@ == b0 + outpoints_bytes(prev@.take(i as int)),
        decreases prev@.len() - i,
    {
        proof {
            assert(prev@.take(i + 1).drop_last() =~= prev@.take(i as int));
        }
        put_outpoint(&mut buf, &prev[i]);
        i = i + 1;
        assert(buf@ =~= b0 + outpoints_bytes(prev@.take(i as int)));
    }
    assert(prev@.take(i as int) =~= prev@);
    let n = assignments.contracts().len();
    put_u64(&mut buf, n as u64);
    let ghost b1 = buf@;
    let ghost a = assignments@;
    let mut j: usize = 0;
    assert(b1 + distribution_bytes(a.take(0)) =~= b1);
    while j < n
        invariant
            n == a.len(),
            a == assignments@,
            j <= n,
            buf@ == b1 + distribution_bytes(a.take(j as int)),
        decreases n - j,
    {
        proof {
            assert(a.take(j + 1).drop_last() =~= a.take(j as int));
        }
        let (cid, recips) = assignments.recipients_at(j);
        put_bytes32(&mut buf, &cid.0);
        put_u64(&mut buf, recips.len() as u64);
        put_recipients(&mut buf, &recips);
        j = j + 1;
        assert(buf@ =~= b1 + distribution_bytes(a.take(j as int)));
    }
    assert(a.take(j as int) =~= a);
    match change {
        None => buf.push(0u8),
        Some(b) => {
            buf.push(1u8);
            put_beneficiary(&mut buf, &b);
        },
    }
    put_u64(&mut buf, seed);
    assert(buf@ =~= coloring_bytes(prev@, assignments@, change, seed));
    buf
}

/// The key of the blinding stream of a composition request.
pub fn derive_coloring_key(
    prev: &Vec<Outpoint>,
    assignments: &RgbAssignments,
    change: Option<Beneficiary>,
    seed: u64,
) -> (r: [u8; 32])
    ensures
        r@ == coloring_key(prev@, assignments@, change, seed),
{
    let bytes = encode_coloring(prev, assignments, change, seed);
    sha256(&bytes)
}

} // verus!
