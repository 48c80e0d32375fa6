//! The block codec: bytes to blocks of bits and back.
//!
//! A byte string becomes its bits, most significant first, cut into blocks of
//! `n` bits; the last block is zero-padded. Decoding regroups the bits of all
//! blocks into bytes and drops the zero bytes at the end, so a message that
//! itself ends in a zero byte does not survive the round trip.

use vstd::prelude::*;
use crate::poly_spec::coeff;
use crate::polynomial::ints;

verus! {

/// `2^e` for the eight places of a byte.
pub open spec fn place(e: int) -> int {
    if e <= 0 {
        1
    } else if e == 1 {
        2
    } else if e == 2 {
        4
    } else if e == 3 {
        8
    } else if e == 4 {
        16
    } else if e == 5 {
        32
    } else if e == 6 {
        64
    } else {
        128
    }
}

/// Bit `i` of the byte `b`, counting from the most significant.
pub open spec fn bit_of_byte(b: u8, i: int) -> int {
    (b as int / place(7 - i)) % 2
}

/// All bits of `bytes`, byte by byte, most significant bit first.
pub open spec fn bits_of(bytes: Seq<u8>) -> Seq<int> {
    Seq::new(8 * bytes.len(), |t: int| bit_of_byte(bytes[t / 8], t % 8))
}

/// Number of blocks of `n` bits that hold `len` bits.
pub open spec fn block_count(len: nat, n: nat) -> nat {
    if n == 0 {
        0
    } else {
        (len / n + (if len % n == 0 { 0int } else { 1int })) as nat
    }
}

/// Block `b` of `bits`: `n` bits from position `b * n`, zero-padded.
pub open spec fn message_block(bits: Seq<int>, n: nat, b: nat) -> Seq<int> {
    Seq::new(n, |j: int| coeff(bits, b * n + j))
}

/// The number that the `count` bits from position `start` spell in binary.
pub open spec fn bits_value(bits: Seq<int>, start: int, count: nat) -> int
    decreases count,
{
    if count == 0 {
        0
    } else {
        2 * bits_value(bits, start, (count - 1) as nat) + bits[start + count - 1]
    }
}

/// Number of bytes that `len` bits regroup into: a last group of fewer than
/// eight bits counts as a byte.
pub open spec fn byte_count(len: nat) -> nat {
    ((len + 7) / 8) as nat
}

/// Number of bits in group `i` when `len` bits are cut into groups of eight.
pub open spec fn group_len(len: nat, i: int) -> nat {
    if 8 * i + 8 <= len {
        8
    } else {
        (len - 8 * i) as nat
    }
}

/// The bytes that `bits` regroup into.
pub open spec fn bytes_of(bits: Seq<int>) -> Seq<u8> {
    Seq::new(
        byte_count(bits.len()),
        |i: int| bits_value(bits, 8 * i, group_len(bits.len(), i)) as u8,
    )
}

/// `bytes` without the zero bytes at its end.
pub open spec fn strip_zeros(bytes: Seq<u8>) -> Seq<u8>
    decreases bytes.len(),
{
    if bytes.len() == 0 {
        bytes
    } else if bytes.last() == 0 {
        strip_zeros(bytes.drop_last())
    } else {
        bytes
    }
}

/// Every entry is `0` or `1`.
pub open spec fn all_bits(m: Seq<int>) -> bool {
    forall|i: int| 0 <= i < m.len() ==> #[trigger] m[i] == 0 || m[i] == 1
}

/// The blocks of a bit string cover it: there are at least as many places as
/// bits, and fewer than `n` more.
pub proof fn lemma_block_count(len: nat, n: nat)
    requires
        n >= 1,
    ensures
        len <= block_count(len, n) * n < len + n,
        len == 0 ==> block_count(len, n) == 0,
{
    vstd::arithmetic::div_mod::lemma_fundamental_div_mod(len as int, n as int);
    let d = len as int / n as int;
    let m = len as int % n as int;
    assert(n * d == d * n) by (nonlinear_arith);
    assert((d + 1) * n == d * n + n) by (nonlinear_arith);
    if len == 0 {
        assert(0 * n == 0) by (nonlinear_arith);
    }
    assert(d >= 0) by (nonlinear_arith)
        requires
            len == n * d + m,
            0 <= m < n,
            n >= 1,
            len >= 0,
    ;
}

/// Up to eight bits spell a number below `2^count`.
pub proof fn lemma_bits_value_bound(bits: Seq<int>, start: int, count: nat)
    requires
        count <= 8,
        0 <= start,
        start + count <= bits.len(),
        all_bits(bits),
    ensures
        0 <= bits_value(bits, start, count) < place(count as int) * (if count == 8 {
            2int
        } else {
            1int
        }),
    decreases count,
{
    if count > 0 {
        lemma_bits_value_bound(bits, start, (count - 1) as nat);
    }
}

/// The first `count` bits of a byte spell its leading part.
pub proof fn lemma_byte_prefix(bytes: Seq<u8>, i: int, count: nat)
    requires
        0 <= i < bytes.len(),
        count <= 8,
    ensures
        bits_value(bits_of(bytes), 8 * i, count) == (bytes[i] as int) / (if count == 0 {
            256int
        } else {
            place(8 - count)
        }),
    decreases count,
{
    if count > 0 {
        lemma_byte_prefix(bytes, i, (count - 1) as nat);
    }
}

/// The bits of a byte string, most significant bit of each byte first.
pub fn bytes_to_bits(bytes: &Vec<u8>) -> (r: Vec<i64>)
    ensures
        ints(r@) == bits_of(bytes@),
        all_bits(ints(r@)),
        r.len() == 8 * bytes.len(),
{
    let mut bits: Vec<i64> = Vec::new();
    let mut i: usize = 0;
    while i < bytes.len()
        invariant
            i <= bytes.len(),
            bits.len() == 8 * i,
            forall|t: int|
                0 <= t < 8 * i ==> #[trigger] bits[t] as int == bit_of_byte(bytes[t / 8], t % 8),
        decreases bytes.len() - i,
    {
        let byte: u8 = bytes[i];
        let mut weight: u8 = 128;
        let mut j: usize = 0;
        while j < 8
            invariant
                j <= 8,
                i < bytes.len(),
                byte == bytes[i as int],
                j < 8 ==> weight as int == place(7 - j),
                bits.len() == 8 * i + j,
                forall|t: int|
                    0 <= t < 8 * i + j ==> #[trigger] bits[t] as int == bit_of_byte(
                        bytes[t / 8],
                        t % 8,
                    ),
            decreases 8 - j,
        {
            let bit: u8 = (byte / weight) % 2;
            bits.push(bit as i64);
            weight = weight / 2;
            j += 1;
        }
        i += 1;
    }
    bits
}

/// Block `b` of `bits`: `n` bits, zero-padded where `bits` ends.
pub fn block_at(bits: &Vec<i64>, n: usize, b: usize) -> (r: Vec<i64>)
    requires
        b * n + n <= usize::MAX,
    ensures
        r.len() == n,
        ints(r@) == message_block(ints(bits@), n as nat, b as nat),
{
    proof {
        assert(0 <= b * n) by (nonlinear_arith)
            requires
                b >= 0,
                n >= 0,
        ;
    }
    let start: usize = b * n;
    let mut block: Vec<i64> = Vec::new();
    let mut j: usize = 0;
    while j < n
        invariant
            j <= n,
            start == b * n,
            start + n <= usize::MAX,
            block.len() == j,
            forall|t: int| 0 <= t < j ==> #[trigger] block[t] as int == coeff(ints(bits@), start + t),
        decreases n - j,
    {
        let idx: usize = start + j;
        let bit: i64 = if idx < bits.len() {
            bits[idx]
        } else {
            0
        };
        block.push(bit);
        j += 1;
    }
    block
}

/// Regroups bits into bytes, eight to a byte; a shorter last group is read
/// as the binary number it spells.
pub fn bits_to_bytes(bits: &Vec<i64>) -> (r: Vec<u8>)
    requires
        all_bits(ints(bits@)),
    ensures
        r@ == bytes_of(ints(bits@)),
{
    let ghost all = ints(bits@);
    let full: usize = bits.len() / 8;
    let rest: usize = bits.len() % 8;
    let total: usize = if rest > 0 {
        full + 1
    } else {
        full
    };
    let mut bytes: Vec<u8> = Vec::new();
    let mut i: usize = 0;
    while i < total
        invariant
            all == ints(bits@),
            all_bits(all),
            full == bits.len() / 8,
            rest == bits.len() % 8,
            total == byte_count(bits.len() as nat),
            total == full + (if rest > 0 { 1int } else { 0int }),
            i <= total,
            bytes.len() == i,
            forall|t: int|
                0 <= t < i ==> #[trigger] bytes[t] as int == bits_value(
                    all,
                    8 * t,
                    group_len(all.len(), t),
                ),
        decreases total - i,
    {
        let start: usize = 8 * i;
        let count: usize = if i < full {
            8
        } else {
            rest
        };
        let mut value: u8 = 0;
        let mut j: usize = 0;
        while j < count
            invariant
                j <= count,
                count <= 8,
                start + count <= bits.len(),
                all == ints(bits@),
                all_bits(all),
                value as int == bits_value(all, start as int, j as nat),
            decreases count - j,
        {
            proof {
                lemma_bits_value_bound(all, start as int, j as nat);
            }
            let bit: u8 = if bits[start + j] == 1 {
                1
            } else {
                0
            };
            value = 2 * value + bit;
            j += 1;
        }
        bytes.push(value);
        i += 1;
    }
    proof {
        assert(bytes@ =~= bytes_of(all));
    }
    bytes
}

/// Drops the zero bytes at the end of `bytes`.
pub fn strip_trailing_zeros(bytes: Vec<u8>) -> (r: Vec<u8>)
    ensures
        r@ == strip_zeros(bytes@),
{
    let mut kept = bytes;
    while kept.len() > 0 && kept[kept.len() - 1] == 0
        invariant
            strip_zeros(kept@) == strip_zeros(bytes@),
        decreases kept.len(),
    {
        kept.pop();
    }
    kept
}

} // verus!
