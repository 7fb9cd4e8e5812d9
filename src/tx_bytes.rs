use vstd::prelude::*;

verus! {

pub open spec fn le2(b: Seq<u8>, s: int) -> int {
    b[s] + 256 * b[s + 1]
}

pub open spec fn le4(b: Seq<u8>, s: int) -> int {
    le2(b, s) + 65536 * le2(b, s + 2)
}

/// Little-endian value of the `w` bytes of `b` from `s`, for `w` of 2, 4
/// or 8.
pub open spec fn le_value(b: Seq<u8>, s: int, w: int) -> int {
    if w == 2 {
        le2(b, s)
    } else if w == 4 {
        le4(b, s)
    } else {
        le4(b, s) + 4294967296 * le4(b, s + 4)
    }
}

/// Number of bytes that follow the first byte `tag` of a compact-size
/// integer.
pub open spec fn compact_width(tag: u8) -> int {
    if tag < 0xFD {
        0
    } else if tag == 0xFD {
        2
    } else if tag == 0xFE {
        4
    } else {
        8
    }
}

/// Whether the input count that follows the 4-byte version of a
/// transaction's bytes can be met: it is zero (a segwit marker follows), it
/// cannot be read at all, or it asks for at most one input per 41 remaining
/// bytes, the least that an input takes.
pub open spec fn input_count_fits(b: Seq<u8>) -> bool {
    if b.len() < 5 {
        true
    } else {
        let w = compact_width(b[4]);
        if b.len() < 5 + w {
            true
        } else {
            let count = if w == 0 {
                b[4] as int
            } else {
                le_value(b, 5, w)
            };
            count == 0 || count * 41 <= b.len() - (5 + w)
        }
    }
}

/// Whether the leading input count of a transaction's bytes can be met.
pub fn check_input_count(b: &[u8]) -> (r: bool)
    ensures
        r == input_count_fits(b@),
{
    let n = b.len();
    if n < 5 {
        return true;
    }
    let tag = b[4];
    let w: usize = if tag < 0xFD {
        0
    } else if tag == 0xFD {
        2
    } else if tag == 0xFE {
        4
    } else {
        8
    };
    if n < 5 + w {
        return true;
    }
    let count: u128 = if w == 0 {
        tag as u128
    } else if w == 2 {
        b[5] as u128 + 256 * (b[6] as u128)
    } else if w == 4 {
        b[5] as u128 + 256 * (b[6] as u128) + 65536 * (b[7] as u128 + 256 * (b[8] as u128))
    } else {
        let lo: u128 = b[5] as u128 + 256 * (b[6] as u128) + 65536 * (b[7] as u128 + 256 * (
        b[8] as u128));
        let hi: u128 = b[9] as u128 + 256 * (b[10] as u128) + 65536 * (b[11] as u128 + 256 * (
        b[12] as u128));
        lo + 4294967296 * hi
    };
    count == 0 || count * 41 <= (n - (5 + w)) as u128
}

} // verus!
