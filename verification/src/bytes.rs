//! Big-endian byte encodings of unsigned integers, plus small helpers for
//! reading and padding byte buffers. These are the primitives that the
//! storage wire format is built from.

use vstd::prelude::*;

verus! {

/// 256 raised to the power n: the number of values an n-byte field can hold.
pub open spec fn pow256(n: nat) -> nat
    decreases n,
{
    if n == 0 {
        1
    } else {
        256 * pow256((n - 1) as nat)
    }
}

/// The unsigned integer denoted by a big-endian byte string.
pub open spec fn be_value(s: Seq<u8>) -> nat
    decreases s.len(),
{
    if s.len() == 0 {
        0
    } else {
        be_value(s.drop_last()) * 256 + s.last() as nat
    }
}

/// The n-byte big-endian encoding of x (reduced mod 256^n), most significant
/// byte first.
pub open spec fn be_bytes(x: nat, n: nat) -> Seq<u8>
    decreases n,
{
    if n == 0 {
        Seq::empty()
    } else {
        be_bytes(x / 256, (n - 1) as nat).push((x % 256) as u8)
    }
}

pub proof fn lemma_be_bytes_len(x: nat, n: nat)
    ensures
        be_bytes(x, n).len() == n,
    decreases n,
{
    if n > 0 {
        lemma_be_bytes_len(x / 256, (n - 1) as nat);
    }
}

pub proof fn lemma_pow256_pos(n: nat)
    ensures
        pow256(n) >= 1,
    decreases n,
{
    if n > 0 {
        lemma_pow256_pos((n - 1) as nat);
    }
}

pub proof fn lemma_pow256_monotone(i: nat, j: nat)
    requires
        i <= j,
    ensures
        pow256(i) <= pow256(j),
        pow256(i) >= 1,
    decreases j,
{
    lemma_pow256_pos(i);
    if j > 0 && i < j {
        lemma_pow256_monotone(i, (j - 1) as nat);
    }
}

pub proof fn lemma_pow256_16()
    ensures
        pow256(8) == 0x1_0000_0000_0000_0000,
        pow256(16) == 0x1_0000_0000_0000_0000_0000_0000_0000_0000,
{
    reveal_with_fuel(pow256, 17);
}

/// A byte string denotes a value below 256^len.
pub proof fn lemma_be_value_bound(s: Seq<u8>)
    ensures
        be_value(s) < pow256(s.len()),
    decreases s.len(),
{
    if s.len() > 0 {
        lemma_be_value_bound(s.drop_last());
    }
}

/// Decoding inverts encoding for values that fit in the field.
pub proof fn lemma_be_value_of_be_bytes(x: nat, n: nat)
    requires
        x < pow256(n),
    ensures
        be_value(be_bytes(x, n)) == x,
    decreases n,
{
    if n > 0 {
        let m = (n - 1) as nat;
        assert(x / 256 < pow256(m)) by (nonlinear_arith)
            requires
                x < 256 * pow256(m),
        ;
        lemma_be_value_of_be_bytes(x / 256, m);
        lemma_be_bytes_len(x / 256, m);
        let b = be_bytes(x, n);
        assert(b.drop_last() =~= be_bytes(x / 256, m));
        assert(b.last() == (x % 256) as u8);
        assert((x / 256) * 256 + x % 256 == x) by (nonlinear_arith);
    }
}

/// Big-endian encoding of x into n bytes. Values are taken mod 256^n, and
/// every caller passes a value that fits.
pub fn u128_to_be_bytes(x: u128, n: usize) -> (r: Vec<u8>)
    ensures
        r@ == be_bytes(x as nat, n as nat),
        r@.len() == n,
    decreases n,
{
    if n == 0 {
        Vec::new()
    } else {
        let mut r = u128_to_be_bytes(x / 256, n - 1);
        r.push((x % 256) as u8);
        r
    }
}

/// Reads the n-byte big-endian integer at `start`.
pub fn u128_from_be_bytes(bytes: &Vec<u8>, start: usize, n: usize) -> (x: u128)
    requires
        start + n <= bytes@.len(),
        n <= 16,
    ensures
        x as nat == be_value(bytes@.subrange(start as int, start + n)),
{
    let blen: usize = bytes.len();
    let mut x: u128 = 0;
    let mut i: usize = 0;
    proof {
        assert(bytes@.subrange(start as int, start as int) =~= Seq::<u8>::empty());
    }
    while i < n
        invariant
            i <= n,
            n <= 16,
            blen == bytes@.len(),
            start + n <= blen,
            x as nat == be_value(bytes@.subrange(start as int, start + i)),
            (x as nat) < pow256(i as nat),
        decreases n - i,
    {
        proof {
            lemma_pow256_monotone((i + 1) as nat, 16);
            lemma_pow256_16();
            assert(bytes@.subrange(start as int, start + i + 1).drop_last() =~= bytes@.subrange(
                start as int,
                start + i,
            ));
            assert(bytes@.subrange(start as int, start + i + 1).last() == bytes@[start + i]);
        }
        x = x * 256 + (bytes[start + i] as u128);
        i = i + 1;
    }
    x
}

/// Copies `length` bytes at the cursor and advances it, as a sequential
/// reader over a byte buffer.
pub fn read(bytes: &Vec<u8>, cursor: &mut usize, length: usize) -> (data: Vec<u8>)
    requires
        *old(cursor) + length <= bytes@.len(),
    ensures
        data@ == bytes@.subrange(*old(cursor) as int, *old(cursor) + length),
        *final(cursor) == *old(cursor) + length,
{
    let mut data: Vec<u8> = Vec::new();
    let blen: usize = bytes.len();
    let base: usize = *cursor;
    let mut i: usize = 0;
    while i < length
        invariant
            i <= length,
            blen == bytes@.len(),
            base + length <= blen,
            data@ =~= bytes@.subrange(base as int, base + i),
        decreases length - i,
    {
        data.push(bytes[base + i]);
        i = i + 1;
    }
    *cursor = base + length;
    data
}

/// A byte string cut or zero-padded to exactly n bytes: the shape of the
/// fixed-capacity fields of the commit header.
pub open spec fn spec_fixed(s: Seq<u8>, n: nat) -> Seq<u8> {
    Seq::new(
        n,
        |i: int|
            if i < s.len() {
                s[i]
            } else {
                0u8
            },
    )
}

/// Truncates or zero-pads `src` to exactly n bytes.
pub fn to_fixed_bytes(src: &Vec<u8>, n: usize) -> (r: Vec<u8>)
    ensures
        r@ == spec_fixed(src@, n as nat),
{
    let mut r: Vec<u8> = Vec::new();
    let mut i: usize = 0;
    while i < n
        invariant
            i <= n,
            r@ =~= spec_fixed(src@, n as nat).subrange(0, i as int),
        decreases n - i,
    {
        if i < src.len() {
            r.push(src[i]);
        } else {
            r.push(0u8);
        }
        proof {
            assert(r@ =~= spec_fixed(src@, n as nat).subrange(0, i + 1));
        }
        i = i + 1;
    }
    proof {
        assert(spec_fixed(src@, n as nat).subrange(0, n as int) =~= spec_fixed(src@, n as nat));
    }
    r
}

} // verus!
