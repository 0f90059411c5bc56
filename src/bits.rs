use vstd::prelude::*;

verus! {

/// Bit `k` of a byte buffer, counting from bit 0 of byte 0, least significant
/// bit of each byte first.
pub open spec fn bit_of(bytes: Seq<u8>, k: int) -> bool {
    ((bytes[k / 8] >> ((k % 8) as u8)) & 1u8) == 1u8
}

/// `bytes` holds `start` bytes that are left alone, then `bits` packed least
/// significant bit first, the last byte padded with zero bits.
pub open spec fn packs(bytes: Seq<u8>, start: int, bits: Seq<bool>) -> bool {
    &&& 0 <= start <= bytes.len()
    &&& bytes.len() - start == (bits.len() + 7) / 8
    &&& forall|k: int|
        8 * start <= k < 8 * bytes.len() ==> #[trigger] bit_of(bytes, k) == (k - 8 * start
            < bits.len() && bits[k - 8 * start])
}

proof fn lemma_set_bit(b: u8, j: u8, jj: u8)
    by (bit_vector)
    requires
        j < 8,
        jj < 8,
    ensures
        (((b | (1u8 << j)) >> jj) & 1u8 == 1u8) == (jj == j || (b >> jj) & 1u8 == 1u8),
{
}

proof fn lemma_zero_byte(jj: u8)
    by (bit_vector)
    ensures
        (0u8 >> jj) & 1u8 != 1u8,
{
}

/// A byte is fixed by its eight bits.
pub proof fn lemma_byte_from_bits(a: u8, b: u8)
    by (bit_vector)
    requires
        (a >> 0u8) & 1u8 == (b >> 0u8) & 1u8,
        (a >> 1u8) & 1u8 == (b >> 1u8) & 1u8,
        (a >> 2u8) & 1u8 == (b >> 2u8) & 1u8,
        (a >> 3u8) & 1u8 == (b >> 3u8) & 1u8,
        (a >> 4u8) & 1u8 == (b >> 4u8) & 1u8,
        (a >> 5u8) & 1u8 == (b >> 5u8) & 1u8,
        (a >> 6u8) & 1u8 == (b >> 6u8) & 1u8,
        (a >> 7u8) & 1u8 == (b >> 7u8) & 1u8,
    ensures
        a == b,
{
}

pub proof fn lemma_bit_is_01(a: u8, j: u8)
    by (bit_vector)
    ensures
        (a >> j) & 1u8 == 1u8 || (a >> j) & 1u8 == 0u8,
{
}

/// Two buffers that pack the same bits after the same untouched prefix are equal.
pub proof fn lemma_packs_unique(x: Seq<u8>, y: Seq<u8>, start: int, bits: Seq<bool>)
    requires
        packs(x, start, bits),
        packs(y, start, bits),
        x.subrange(0, start) == y.subrange(0, start),
    ensures
        x == y,
{
    assert forall|i: int| 0 <= i < x.len() implies x[i] == y[i] by {
        if i < start {
            assert(x[i] == x.subrange(0, start)[i]);
            assert(y[i] == y.subrange(0, start)[i]);
        } else {
            let k0 = 8 * i;
            assert forall|j: u8| j < 8 implies #[trigger] ((x[i] >> j) & 1u8) == (y[i] >> j) & 1u8 by {
                let k = k0 + j as int;
                assert(k / 8 == i);
                assert(k % 8 == j as int);
                assert(bit_of(x, k) == bit_of(y, k));
                lemma_bit_is_01(x[i], j);
                lemma_bit_is_01(y[i], j);
            }
            assert((x[i] >> 0u8) & 1u8 == (y[i] >> 0u8) & 1u8);
            assert((x[i] >> 1u8) & 1u8 == (y[i] >> 1u8) & 1u8);
            assert((x[i] >> 2u8) & 1u8 == (y[i] >> 2u8) & 1u8);
            assert((x[i] >> 3u8) & 1u8 == (y[i] >> 3u8) & 1u8);
            assert((x[i] >> 4u8) & 1u8 == (y[i] >> 4u8) & 1u8);
            assert((x[i] >> 5u8) & 1u8 == (y[i] >> 5u8) & 1u8);
            assert((x[i] >> 6u8) & 1u8 == (y[i] >> 6u8) & 1u8);
            assert((x[i] >> 7u8) & 1u8 == (y[i] >> 7u8) & 1u8);
            lemma_byte_from_bits(x[i], y[i]);
        }
    }
    assert(x =~= y);
}

/// Appends `bits` to `out`, least significant bit of each byte first, and pads
/// the last byte with zero bits.
pub fn write_bits(out: &mut Vec<u8>, bits: &Vec<bool>)
    requires
        old(out).len() + (bits.len() + 7) / 8 <= usize::MAX,
    ensures
        packs(final(out)@, old(out)@.len() as int, bits@),
        final(out)@.subrange(0, old(out)@.len() as int) == old(out)@,
{
    let ghost start = out.len() as int;
    let n = bits.len();
    let nbytes: usize = n / 8 + if n % 8 == 0 {
        0
    } else {
        1
    };
    assert(nbytes == (n + 7) / 8);
    let mut q: usize = 0;
    while q < nbytes
        invariant
            n == bits.len(),
            nbytes == (n + 7) / 8,
            start == old(out)@.len(),
            out@.len() == start + q,
            q <= (n + 7) / 8,
            start + (n + 7) / 8 <= usize::MAX,
            out@.subrange(0, start) == old(out)@,
            forall|k: int|
                8 * start <= k < 8 * (start + q) ==> #[trigger] bit_of(out@, k) == (k - 8 * start
                    < n && bits@[k - 8 * start]),
        decreases nbytes - q,
    {
        let mut b: u8 = 0;
        let mut j: u8 = 0;
        proof {
            assert forall|jj: u8| jj < 8 implies ((#[trigger] (b >> jj) & 1u8) == 1u8) == (jj < j
                && 8 * q + jj < n && bits@[8 * q + jj]) by {
                lemma_zero_byte(jj);
            }
        }
        while j < 8
            invariant
                n == bits.len(),
                q < (n + 7) / 8,
                j <= 8,
                forall|jj: u8|
                    jj < 8 ==> ((#[trigger] (b >> jj) & 1u8) == 1u8) == (jj < j && 8 * q + jj < n
                        && bits@[8 * q + jj]),
            decreases 8 - j,
        {
            let idx = 8 * q + j as usize;
            if idx < n && bits[idx] {
                proof {
                    assert forall|jj: u8| jj < 8 implies ((#[trigger] ((b | (1u8 << j)) >> jj) & 1u8)
                        == 1u8) == (jj < j + 1 && 8 * q + jj < n && bits@[8 * q + jj]) by {
                        lemma_set_bit(b, j, jj);
                    }
                }
                b = b | (1u8 << j);
            }
            j = j + 1;
        }
        let ghost prev = out@;
        out.push(b);
        proof {
            assert forall|k: int|
                8 * start <= k < 8 * (start + q + 1) implies #[trigger] bit_of(out@, k) == (k - 8
                * start < n && bits@[k - 8 * start]) by {
                if k < 8 * (start + q) {
                    assert(out@[k / 8] == prev[k / 8]);
                    assert(bit_of(prev, k) == bit_of(out@, k));
                } else {
                    let jj = (k % 8) as u8;
                    assert(k / 8 == start + q);
                    assert(k - 8 * start == 8 * q + jj);
                    assert(out@[k / 8] == b);
                }
            }
            assert(out@.subrange(0, start) =~= prev.subrange(0, start));
        }
        q = q + 1;
    }
}

/// Reads bit `k` of `bytes`.
pub fn read_bit(bytes: &[u8], k: usize) -> (r: bool)
    requires
        k < 8 * bytes@.len(),
    ensures
        r == bit_of(bytes@, k as int),
{
    let sh = (k % 8) as u8;
    (bytes[k / 8] >> sh) & 1u8 == 1u8
}

} // verus!
