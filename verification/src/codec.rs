//! Fixed-width integers as bytes, and the few operations on byte vectors that
//! the formats are written with.

use vstd::prelude::*;


use crate::order;
verus! {

/// The `n` low bytes of `x`, least significant first.
pub open spec fn le_bytes(x: nat, n: nat) -> Seq<u8>
    decreases n,
{
    if n == 0 {
        Seq::empty()
    } else {
        seq![(x % 256) as u8] + le_bytes(x / 256, (n - 1) as nat)
    }
}

/// The `n` low bytes of `x`, most significant first.
pub open spec fn be_bytes(x: nat, n: nat) -> Seq<u8>
    decreases n,
{
    if n == 0 {
        Seq::empty()
    } else {
        be_bytes(x / 256, (n - 1) as nat).push((x % 256) as u8)
    }
}

/// The number that bytes stand for, least significant first.
pub open spec fn le_value(s: Seq<u8>) -> nat
    decreases s.len(),
{
    if s.len() == 0 {
        0
    } else {
        s[0] as nat + 256 * le_value(s.drop_first())
    }
}

/// The number that bytes stand for, most significant first.
pub open spec fn be_value(s: Seq<u8>) -> nat
    decreases s.len(),
{
    if s.len() == 0 {
        0
    } else {
        256 * be_value(s.drop_last()) + s.last() as nat
    }
}

/// `256` to the power `n`: how many numbers fit in `n` bytes.
pub open spec fn byte_range(n: nat) -> nat
    decreases n,
{
    if n == 0 {
        1
    } else {
        256 * byte_range((n - 1) as nat)
    }
}

pub proof fn lemma_byte_range()
    ensures
        byte_range(4) == 0x1_0000_0000,
        byte_range(8) == 0x1_0000_0000_0000_0000,
        byte_range(16) == 0x1_0000_0000_0000_0000_0000_0000_0000_0000,
{
    reveal_with_fuel(byte_range, 17);
}

/// Reading back little-endian bytes gives the number that was written.
pub proof fn lemma_le_round_trip(x: nat, n: nat)
    requires
        x < byte_range(n),
    ensures
        le_bytes(x, n).len() == n,
        le_value(le_bytes(x, n)) == x,
    decreases n,
{
    if n > 0 {
        lemma_le_round_trip(x / 256, (n - 1) as nat);
        let s = le_bytes(x, n);
        assert(s.drop_first() =~= le_bytes(x / 256, (n - 1) as nat));
    }
}

pub proof fn lemma_le_len(x: nat, n: nat)
    ensures
        le_bytes(x, n).len() == n,
    decreases n,
{
    if n > 0 {
        lemma_le_len(x / 256, (n - 1) as nat);
    }
}

pub proof fn lemma_be_len(x: nat, n: nat)
    ensures
        be_bytes(x, n).len() == n,
    decreases n,
{
    if n > 0 {
        lemma_be_len(x / 256, (n - 1) as nat);
    }
}

/// Writing back the number that bytes stand for gives the same bytes.
pub proof fn lemma_le_value_bytes(s: Seq<u8>)
    ensures
        le_value(s) < byte_range(s.len()),
        le_bytes(le_value(s), s.len()) == s,
    decreases s.len(),
{
    if s.len() > 0 {
        lemma_le_value_bytes(s.drop_first());
        let v = le_value(s.drop_first());
        assert((s[0] as nat + 256 * v) % 256 == s[0] as nat);
        assert((s[0] as nat + 256 * v) / 256 == v);
        assert(le_bytes(le_value(s), s.len()) =~= s);
    }
}

/// Reading back big-endian bytes gives the number that was written.
pub proof fn lemma_be_round_trip(x: nat, n: nat)
    requires
        x < byte_range(n),
    ensures
        be_bytes(x, n).len() == n,
        be_value(be_bytes(x, n)) == x,
    decreases n,
{
    if n > 0 {
        lemma_be_round_trip(x / 256, (n - 1) as nat);
        let s = be_bytes(x, n);
        assert(s.drop_last() =~= be_bytes(x / 256, (n - 1) as nat));
    }
}

/// Writing back the number that big-endian bytes stand for gives the same bytes.
pub proof fn lemma_be_value_bytes(s: Seq<u8>)
    ensures
        be_value(s) < byte_range(s.len()),
        be_bytes(be_value(s), s.len()) == s,
    decreases s.len(),
{
    if s.len() > 0 {
        lemma_be_value_bytes(s.drop_last());
        let v = be_value(s.drop_last());
        assert((256 * v + s.last() as nat) % 256 == s.last() as nat);
        assert((256 * v + s.last() as nat) / 256 == v);
        assert(be_bytes(be_value(s), s.len()) =~= s);
    }
}

/// Big-endian bytes of one width sort as the numbers do.
pub proof fn lemma_be_order(x: nat, y: nat, n: nat)
    requires
        x < y,
        y < byte_range(n),
    ensures
        order::lex_lt(be_bytes(x, n), be_bytes(y, n)),
        order::shared_len(be_bytes(x, n), be_bytes(y, n)) < n,
    decreases n,
{
    lemma_be_len(x, n);
    lemma_be_len(y, n);
    let m = (n - 1) as nat;
    let p = be_bytes(x / 256, m);
    let q = be_bytes(y / 256, m);
    let a = seq![(x % 256) as u8];
    let b = seq![(y % 256) as u8];
    assert(be_bytes(x, n) =~= p + a);
    assert(be_bytes(y, n) =~= q + b);
    if x / 256 == y / 256 {
        order::lemma_lex_prefix(p, a, b);
        assert(order::shared_len(a, b) == 0);
    } else {
        lemma_be_order(x / 256, y / 256, m);
        lemma_be_len(x / 256, m);
        lemma_be_len(y / 256, m);
        order::lemma_lex_suffix(p, q, a, b);
    }
    order::lemma_shared_len(be_bytes(x, n), be_bytes(y, n));
    lemma_be_round_trip(x, n);
    lemma_be_round_trip(y, n);
    if order::shared_len(be_bytes(x, n), be_bytes(y, n)) == n {
        assert(be_bytes(x, n) =~= be_bytes(y, n));
    }
}

/// Appends `s` to `out`.
pub fn append(out: &mut Vec<u8>, s: &[u8])
    ensures
        final(out)@ == old(out)@ + s@,
{
    out.extend_from_slice(s);
    assert(out@ =~= old(out)@ + s@);
}

/// The bytes of `s` from `from` up to, but without, `to`.
pub fn slice_of(s: &[u8], from: usize, to: usize) -> (r: &[u8])
    requires
        from <= to <= s@.len(),
    ensures
        r@ == s@.subrange(from as int, to as int),
{
    vstd::slice::slice_subrange(s, from, to)
}

/// A vector with the bytes of `s`.
pub fn to_vec(s: &[u8]) -> (v: Vec<u8>)
    ensures
        v@ == s@,
{
    let mut v: Vec<u8> = Vec::new();
    append(&mut v, s);
    assert(v@ =~= s@);
    v
}

/// Appends the `n` low bytes of `x`, least significant first.
fn put_le(out: &mut Vec<u8>, x: u64, n: usize)
    ensures
        final(out)@ == old(out)@ + le_bytes(x as nat, n as nat),
{
    let mut rest: u64 = x;
    let mut i: usize = 0;
    assert(out@ =~= old(out)@ + le_bytes(x as nat, 0));
    while i < n
        invariant
            i <= n,
            out@ + le_bytes(rest as nat, (n - i) as nat) == old(out)@ + le_bytes(
                x as nat,
                n as nat,
            ),
        decreases n - i,
    {
        let ghost before = out@;
        out.push((rest % 256) as u8);
        assert(before + le_bytes(rest as nat, (n - i) as nat) =~= out@ + le_bytes(
            rest as nat / 256,
            (n - i - 1) as nat,
        ));
        rest = rest / 256;
        i = i + 1;
    }
    assert(out@ =~= out@ + le_bytes(rest as nat, 0));
}

/// Appends `x` as four bytes, least significant first.
pub fn put_u32_le(out: &mut Vec<u8>, x: u32)
    ensures
        final(out)@ == old(out)@ + le_bytes(x as nat, 4),
{
    put_le(out, x as u64, 4);
}

/// Appends `x` as eight bytes, least significant first.
pub fn put_u64_le(out: &mut Vec<u8>, x: u64)
    ensures
        final(out)@ == old(out)@ + le_bytes(x as nat, 8),
{
    put_le(out, x, 8);
}

/// The number in the `n` bytes at `pos`, least significant first.
fn get_le(s: &[u8], pos: usize, n: usize) -> (x: u64)
    requires
        n <= 8,
        pos + n <= s@.len(),
    ensures
        x as nat == le_value(s@.subrange(pos as int, pos + n)),
{
    let len: usize = s.len();
    let mut x: u64 = 0;
    let mut i: usize = n;
    proof {
        lemma_byte_range();
        assert(s@.subrange(pos + n, pos + n) =~= Seq::<u8>::empty());
    }
    while i > 0
        invariant
            i <= n <= 8,
            pos + n <= len,
            len == s@.len(),
            x as nat == le_value(s@.subrange(pos + i, pos + n)),
        decreases i,
    {
        let ghost tail = s@.subrange(pos + i, pos + n);
        i = i - 1;
        let ghost whole = s@.subrange(pos + i, pos + n);
        assert(whole.drop_first() =~= tail);
        proof {
            lemma_le_value_bytes(whole);
            lemma_byte_range_mono(whole.len(), 8);
            lemma_byte_range();
        }
        x = s[pos + i] as u64 + 256 * x;
    }
    x
}

pub proof fn lemma_byte_range_mono(m: nat, n: nat)
    requires
        m <= n,
    ensures
        byte_range(m) <= byte_range(n),
        byte_range(m) >= 1,
    decreases n,
{
    if m < n {
        lemma_byte_range_mono(m, (n - 1) as nat);
    } else if n > 0 {
        lemma_byte_range_mono((m - 1) as nat, (n - 1) as nat);
    }
}

/// The number in the four bytes at `pos`, least significant first.
pub fn get_u32_le(s: &[u8], pos: usize) -> (x: u32)
    requires
        pos + 4 <= s@.len(),
    ensures
        x as nat == le_value(s@.subrange(pos as int, pos + 4)),
{
    let x = get_le(s, pos, 4);
    proof {
        lemma_le_value_bytes(s@.subrange(pos as int, pos + 4));
        lemma_byte_range();
    }
    x as u32
}

/// The number in the eight bytes at `pos`, least significant first.
pub fn get_u64_le(s: &[u8], pos: usize) -> (x: u64)
    requires
        pos + 8 <= s@.len(),
    ensures
        x as nat == le_value(s@.subrange(pos as int, pos + 8)),
{
    get_le(s, pos, 8)
}

/// Appends the `n` low bytes of `x`, most significant first.
fn put_be(out: &mut Vec<u8>, x: u64, n: usize)
    ensures
        final(out)@ == old(out)@ + be_bytes(x as nat, n as nat),
    decreases n,
{
    if n > 0 {
        put_be(out, x / 256, n - 1);
        out.push((x % 256) as u8);
    }
    assert(out@ =~= old(out)@ + be_bytes(x as nat, n as nat));
}

/// Appends `x` as four bytes, most significant first.
pub fn put_u32_be(out: &mut Vec<u8>, x: u32)
    ensures
        final(out)@ == old(out)@ + be_bytes(x as nat, 4),
{
    put_be(out, x as u64, 4);
}

/// Appends the four low bytes of a length, most significant first.
pub fn put_len_be(out: &mut Vec<u8>, len: usize)
    ensures
        final(out)@ == old(out)@ + be_bytes(len as nat, 4),
{
    put_be(out, len as u64, 4);
}

/// Appends `x` as eight bytes, most significant first.
pub fn put_u64_be(out: &mut Vec<u8>, x: u64)
    ensures
        final(out)@ == old(out)@ + be_bytes(x as nat, 8),
{
    put_be(out, x, 8);
}

/// The number in the `n` bytes at `pos`, most significant first.
fn get_be(s: &[u8], pos: usize, n: usize) -> (x: u64)
    requires
        n <= 8,
        pos + n <= s@.len(),
    ensures
        x as nat == be_value(s@.subrange(pos as int, pos + n)),
{
    let len: usize = s.len();
    let mut x: u64 = 0;
    let mut i: usize = 0;
    assert(s@.subrange(pos as int, pos as int) =~= Seq::<u8>::empty());
    while i < n
        invariant
            i <= n <= 8,
            pos + n <= len,
            len == s@.len(),
            x as nat == be_value(s@.subrange(pos as int, pos + i)),
        decreases n - i,
    {
        let ghost part = s@.subrange(pos as int, pos + i);
        let ghost whole = s@.subrange(pos as int, pos + i + 1);
        assert(whole.drop_last() =~= part);
        proof {
            lemma_be_value_bytes(whole);
            lemma_byte_range_mono(whole.len(), 8);
            lemma_byte_range();
        }
        x = 256 * x + s[pos + i] as u64;
        i = i + 1;
    }
    x
}

/// The number in the eight bytes at `pos`, most significant first.
pub fn get_u64_be(s: &[u8], pos: usize) -> (x: u64)
    requires
        pos + 8 <= s@.len(),
    ensures
        x as nat == be_value(s@.subrange(pos as int, pos + 8)),
{
    get_be(s, pos, 8)
}

/// The bytes of a number are its digits to the base 256: from the lowest on, or, the other
/// way round, from the highest on.
pub proof fn law_bytes_are_digits(x: nat, n: nat, i: int)
    requires
        0 <= i < n,
    ensures
        le_bytes(x, n).len() == n,
        be_bytes(x, n).len() == n,
        le_bytes(x, n)[i] == (x / byte_range(i as nat)) % 256,
        be_bytes(x, n)[n - 1 - i] == (x / byte_range(i as nat)) % 256,
    decreases n,
{
    lemma_le_len(x, n);
    lemma_be_len(x, n);
    lemma_le_len(x / 256, (n - 1) as nat);
    lemma_be_len(x / 256, (n - 1) as nat);
    if i > 0 {
        law_bytes_are_digits(x / 256, (n - 1) as nat, i - 1);
        let r = byte_range((i - 1) as nat);
        lemma_range_positive((i - 1) as nat);
        assert((x / 256) / r == x / (256 * r)) by {
            vstd::arithmetic::div_mod::lemma_div_denominator(x as int, 256, r as int);
        }
    }
}

proof fn lemma_range_positive(n: nat)
    ensures
        byte_range(n) > 0,
    decreases n,
{
    if n > 0 {
        lemma_range_positive((n - 1) as nat);
    }
}

} // verus!
