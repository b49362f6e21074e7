//! Variable-length integers.

use vstd::prelude::*;

use crate::error::{corrupt, Error};

verus! {

/// `v` in groups of seven bits, least significant first; every byte but the
/// last has its high bit set.
pub open spec fn uvarint_bytes(v: nat) -> Seq<u8>
    decreases v,
{
    if v < 128 {
        seq![v as u8]
    } else {
        seq![(v % 128 + 128) as u8] + uvarint_bytes(v / 128)
    }
}

/// What reading a variable-length integer at `pos` gives, when `k` bytes of it
/// were read before: its value and where it ends. `None` if the bytes run out,
/// or if the value does not fit in 64 bits.
pub open spec fn uvarint_at(buf: Seq<u8>, pos: int, k: nat) -> Option<(nat, int)>
    decreases 10 - k,
{
    if k >= 10 || pos < 0 || pos >= buf.len() || (k == 9 && buf[pos] > 1) {
        None
    } else if buf[pos] < 128 {
        Some((buf[pos] as nat, pos + 1))
    } else {
        match uvarint_at(buf, pos + 1, k + 1) {
            None => None,
            Some((v, end)) => Some(((buf[pos] - 128) as nat + 128 * v, end)),
        }
    }
}

/// `128` to the power `n`.
pub open spec fn group_range(n: nat) -> nat
    decreases n,
{
    if n == 0 {
        1
    } else {
        128 * group_range((n - 1) as nat)
    }
}

proof fn lemma_group_range()
    ensures
        group_range(9) == 0x8000_0000_0000_0000,
        group_range(10) == 0x40_0000_0000_0000_0000,
{
    reveal_with_fuel(group_range, 11);
}

/// A written integer reads back, wherever it stands.
pub proof fn lemma_uvarint_round_trip(v: nat, pre: Seq<u8>, post: Seq<u8>, k: nat)
    requires
        k <= 9,
        v * group_range(k) <= u64::MAX,
    ensures
        uvarint_at(pre + uvarint_bytes(v) + post, pre.len() as int, k) == Some(
            (v, (pre.len() + uvarint_bytes(v).len()) as int),
        ),
        uvarint_bytes(v).len() >= 1,
    decreases v,
{
    let buf = pre + uvarint_bytes(v) + post;
    let pos = pre.len() as int;
    lemma_group_range();
    if k == 9 && v > 1 {
        assert(v * group_range(9) > u64::MAX) by (nonlinear_arith)
            requires
                v > 1,
                group_range(9) == 0x8000_0000_0000_0000,
        ;
    }
    if v < 128 {
        assert(buf[pos] == v as u8);
    } else {
        let b = (v % 128 + 128) as u8;
        assert(uvarint_bytes(v)[0] == b);
        assert(buf[pos] == b);
        assert((v / 128) * group_range(k + 1) <= u64::MAX) by (nonlinear_arith)
            requires
                v * group_range(k) <= u64::MAX,
                group_range(k + 1) == 128 * group_range(k),
        ;
        let pre2 = pre.push(b);
        lemma_uvarint_round_trip(v / 128, pre2, post, k + 1);
        assert(buf =~= pre2 + uvarint_bytes(v / 128) + post);
    }
}

/// Appends `v` as a variable-length integer.
pub fn put_uvarint(buf: &mut Vec<u8>, v: u64)
    ensures
        final(buf)@ == old(buf)@ + uvarint_bytes(v as nat),
        final(buf)@.len() >= old(buf)@.len() + 1,
{
    let mut rest: u64 = v;
    while rest >= 128
        invariant
            buf@ + uvarint_bytes(rest as nat) == old(buf)@ + uvarint_bytes(v as nat),
            buf@.len() >= old(buf)@.len(),
        decreases rest,
    {
        let ghost before = buf@;
        let b: u8 = (rest % 128 + 128) as u8;
        buf.push(b);
        assert(before + uvarint_bytes(rest as nat) =~= buf@ + uvarint_bytes(rest as nat / 128));
        rest = rest / 128;
    }
    let ghost before = buf@;
    buf.push(rest as u8);
    assert(buf@ =~= before + uvarint_bytes(rest as nat));
}

/// Reads the variable-length integer at `pos` and moves `pos` behind it.
pub fn get_uvarint(buf: &[u8], pos: &mut usize) -> (r: Result<u64, Error>)
    ensures
        match uvarint_at(buf@, *old(pos) as int, 0) {
            Some((v, end)) => r is Ok && r->Ok_0 as nat == v && *final(pos) == end && end
                <= buf@.len() && *old(pos) < end,
            None => r is Err && r->Err_0 is Corrupt && *old(pos) <= *final(pos),
        },
{
    let start: usize = *pos;
    let mut result: u64 = 0;
    let mut scale: u64 = 1;
    let mut k: usize = 0;
    while k < 10
        invariant
            k <= 10,
            start == *old(pos),
            start <= *pos,
            *pos == start + k,
            k < 10 ==> scale as nat == group_range(k as nat),
            k < 10 ==> result < scale,
            uvarint_at(buf@, start as int, 0) == (match uvarint_at(buf@, *pos as int, k as nat) {
                None => None,
                Some((v, end)) => Some((result as nat + scale as nat * v, end)),
            }),
        decreases 10 - k,
    {
        proof {
            lemma_group_range();
        }
        if *pos >= buf.len() {
            return Err(corrupt("sst varint truncated"));
        }
        let byte: u8 = buf[*pos];
        *pos = *pos + 1;
        if k == 9 && byte > 1 {
            return Err(corrupt("sst varint overflow"));
        }
        let low: u64 = (byte % 128) as u64;
        proof {
            lemma_group_bound(k as nat);
            assert(low * scale == scale as nat * low as nat) by (nonlinear_arith);
            assert(low * scale <= 127 * scale) by (nonlinear_arith)
                requires
                    low <= 127,
                    scale >= 0,
            ;
            if k == 9 {
                assert(low * scale <= scale) by (nonlinear_arith)
                    requires
                        low <= 1,
                        scale >= 0,
                ;
            }
        }
        result = result + low * scale;
        if byte < 128 {
            return Ok(result);
        }
        proof {
            let next = uvarint_at(buf@, *pos as int, (k + 1) as nat);
            if let Some((v, end)) = next {
                let s = scale as nat;
                assert(s * (low as nat + 128 * v) == low * s + (128 * s) * v) by (nonlinear_arith);
            }
        }
        if k < 9 {
            proof {
                lemma_group_bound((k + 1) as nat);
            }
            scale = scale * 128;
        }
        k = k + 1;
    }
    Err(corrupt("sst varint overflow"))
}

proof fn lemma_group_bound(k: nat)
    requires
        k <= 9,
    ensures
        1 <= group_range(k) <= 0x8000_0000_0000_0000,
        k < 9 ==> 128 * group_range(k) <= 0x8000_0000_0000_0000,
    decreases 9 - k,
{
    lemma_group_range();
    if k < 9 {
        lemma_group_bound(k + 1);
        assert(group_range(k + 1) == 128 * group_range(k));
        lemma_group_positive(k);
    }
}

proof fn lemma_group_positive(k: nat)
    ensures
        group_range(k) >= 1,
    decreases k,
{
    if k > 0 {
        lemma_group_positive((k - 1) as nat);
    }
}

pub proof fn lemma_uvarint_advances(buf: Seq<u8>, pos: int, k: nat)
    ensures
        uvarint_at(buf, pos, k) matches Some((v, end)) ==> pos < end <= buf.len(),
    decreases 10 - k,
{
    if k < 10 && 0 <= pos < buf.len() {
        lemma_uvarint_advances(buf, pos + 1, k + 1);
    }
}

} // verus!
