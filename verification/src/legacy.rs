//! The sound-unit layout of the legacy codec path: a fixed header, selectors
//! from a bit allocation, scale factors and fixed-length mantissas.
use vstd::prelude::*;
use vstd::arithmetic::power2::{pow2, lemma_pow2_pos};
use vstd::arithmetic::div_mod::{lemma_mod_multiples_vanish, lemma_small_mod, lemma_fundamental_div_mod};
use vstd::bits::{lemma_u32_shl_is_mul, lemma_u32_pow2_no_overflow, lemma_u32_low_bits_mask_is_mod, low_bits_mask};
use crate::huffman::{BitWriter, bits_msb, packs};
use crate::sound_unit::{
    concat_fields, lemma_concat_fields_prefix, spec_clc_bits, clc_bits, spec_pair_code,
    mantissa_to_clc_idx,
};

verus! {

/// One past the last block with a nonzero allocation, and at least one.
pub open spec fn legacy_num_blocks(alloc: Seq<u8>) -> nat
    decreases alloc.len(),
{
    if alloc.len() == 0 {
        1
    } else if alloc.last() > 0 {
        alloc.len()
    } else {
        legacy_num_blocks(alloc.drop_last())
    }
}

/// The table selector of each sent block of a legacy unit: its allocation,
/// at most 7.
pub open spec fn legacy_selectors_spec(alloc: Seq<u8>) -> Seq<u32> {
    Seq::new(
        legacy_num_blocks(alloc),
        |i: int|
            if alloc[i] <= 7 {
                alloc[i] as u32
            } else {
                7u32
            },
    )
}

/// `last` is one past the last nonzero allocation before `i` (0 for none).
pub open spec fn legacy_last_from(alloc: Seq<u8>, i: nat, last: nat) -> bool {
    &&& last <= i
    &&& (last > 0 ==> alloc[last - 1] > 0)
    &&& forall|j: int| last <= j < i ==> #[trigger] alloc[j] == 0
}

proof fn lemma_legacy_tail(alloc: Seq<u8>, n: nat, last: nat)
    requires
        n <= alloc.len(),
        legacy_last_from(alloc, n, last),
    ensures
        legacy_num_blocks(alloc.take(n as int)) == if last == 0 {
            1
        } else {
            last
        },
    decreases n,
{
    if n > 0 && n != last {
        assert(alloc.take(n as int).drop_last() =~= alloc.take(n - 1));
        assert(alloc.take(n as int).last() == alloc[n - 1]);
        lemma_legacy_tail(alloc, (n - 1) as nat, last);
    } else if n > 0 {
        assert(alloc.take(n as int).last() == alloc[n - 1]);
    }
}

/// The table selector of each sent block of a legacy unit for `bit_alloc`.
pub fn legacy_selectors(bit_alloc: &[u8; 32]) -> (sels: Vec<u32>)
    ensures
        sels@ == legacy_selectors_spec(bit_alloc@),
        1 <= sels@.len() <= 32,
{
    let mut num_coded: usize = 0;
    let mut i: usize = 0;
    while i < 32
        invariant
            i <= 32,
            bit_alloc@.len() == 32,
            legacy_last_from(bit_alloc@, i as nat, num_coded as nat),
        decreases 32 - i,
    {
        if bit_alloc[i] > 0 {
            num_coded = i + 1;
        }
        i += 1;
    }
    proof {
        lemma_legacy_tail(bit_alloc@, 32, num_coded as nat);
        assert(bit_alloc@.take(32) =~= bit_alloc@);
    }
    if num_coded == 0 {
        num_coded = 1;
    }
    let mut sels: Vec<u32> = Vec::new();
    let mut k: usize = 0;
    while k < num_coded
        invariant
            k <= num_coded <= 32,
            bit_alloc@.len() == 32,
            num_coded == legacy_num_blocks(bit_alloc@),
            sels@ == legacy_selectors_spec(bit_alloc@).take(k as int),
        decreases num_coded - k,
    {
        let a = bit_alloc[k];
        sels.push(
            if a <= 7 {
                a as u32
            } else {
                7
            },
        );
        k += 1;
        assert(sels@ =~= legacy_selectors_spec(bit_alloc@).take(k as int));
    }
    assert(sels@ =~= legacy_selectors_spec(bit_alloc@));
    sels
}

/// The low `w` bits of the two's complement form of `m`.
fn low_bits_i32(m: i32, w: usize) -> (r: u32)
    requires
        1 <= w <= 31,
    ensures
        r == (m as int) % (pow2(w as nat) as int),
{
    let b = w as u32;
    proof {
        lemma_u32_pow2_no_overflow(w as nat);
        lemma_u32_shl_is_mul(1, b);
        lemma_pow2_pos(w as nat);
    }
    let mask = (1u32 << b) - 1;
    assert(mask == low_bits_mask(w as nat) as u32);
    if m >= 0 {
        let x = m as u32;
        proof {
            lemma_u32_low_bits_mask_is_mod(x, w as nat);
        }
        x & mask
    } else {
        let mag = (-(m as i64)) as u32;
        let t = (mag - 1) & mask;
        proof {
            lemma_u32_low_bits_mask_is_mod((mag - 1) as u32, w as nat);
            let p = pow2(w as nat) as int;
            let k = (mag - 1) as int / p;
            lemma_fundamental_div_mod((mag - 1) as int, p);
            assert(t as int == (mag - 1) as int % p);
            assert((mag - 1) as int == p * k + t);
            assert(p * (-k - 1) == -(p * k) - p) by (nonlinear_arith);
            assert(m as int == p * (-k - 1) + (p - 1 - t));
            lemma_mod_multiples_vanish(-k - 1, p - 1 - t, p);
            lemma_small_mod((p - 1 - t) as nat, p as nat);
        }
        mask - t
    }
}

/// The table-1 code of a legacy mantissa clamped to -2..=1.
pub open spec fn legacy_pair_code(m: int) -> int {
    spec_pair_code(
        if m < -2 {
            -2
        } else if m > 1 {
            1
        } else {
            m
        },
    )
}

/// The `w`-bit code of one legacy mantissa.
pub open spec fn legacy_value_field(m: i32, w: nat) -> Seq<u8> {
    bits_msb(((m as int) % (pow2(w) as int)) as u32, w)
}

/// The 4-bit code of the `k`-th pair of table-1 legacy mantissas; a missing
/// second mantissa counts as 0.
pub open spec fn legacy_pair_field(ms: Seq<i32>, k: int) -> Seq<u8> {
    let b: int = if 2 * k + 1 < ms.len() {
        ms[2 * k + 1] as int
    } else {
        0
    };
    bits_msb((4 * legacy_pair_code(ms[2 * k] as int) + legacy_pair_code(b)) as u32, 4)
}

/// The mantissa codes of a legacy block coded with table `sel`.
pub open spec fn legacy_block_bits(sel: int, ms: Seq<i32>) -> Seq<u8> {
    if sel > 1 {
        concat_fields(|j: int| legacy_value_field(ms[j], spec_clc_bits(sel)), ms.len())
    } else {
        concat_fields(|k: int| legacy_pair_field(ms, k), (ms.len() + 1) / 2)
    }
}

/// The fixed start of a legacy unit: unit id 0x28, four QMF bands, no gain
/// points, no tonal groups.
pub open spec fn legacy_head_bits() -> Seq<u8> {
    bits_msb(0x28, 6) + bits_msb(3, 2) + bits_msb(0, 3) + bits_msb(0, 3) + bits_msb(0, 3) + bits_msb(
        0,
        3,
    ) + bits_msb(0, 5)
}

/// Selector fields of the first `n` blocks.
pub open spec fn legacy_selector_fields(sels: Seq<u32>, n: nat) -> Seq<u8> {
    concat_fields(|i: int| bits_msb(sels[i], 3), n)
}

/// Scale-factor fields of the coded blocks among the first `n`.
pub open spec fn legacy_sf_fields(sels: Seq<u32>, sfs: Seq<u32>, n: nat) -> Seq<u8> {
    concat_fields(
        |i: int|
            if sels[i] != 0 {
                bits_msb(sfs[i], 6)
            } else {
                Seq::empty()
            },
        n,
    )
}

/// Mantissa codes of the coded blocks among the first `n`.
pub open spec fn legacy_mantissa_fields(sels: Seq<u32>, ms: Seq<Vec<i32>>, n: nat) -> Seq<u8> {
    concat_fields(
        |i: int|
            if sels[i] != 0 {
                legacy_block_bits(sels[i] as int, ms[i]@)
            } else {
                Seq::empty()
            },
        n,
    )
}

/// The bits of a legacy unit with these selectors, scale factors and
/// quantized mantissas: the fixed start, the block count less one (at most
/// 31), fixed-length coding, selectors, scale factors of coded blocks and
/// their mantissa codes.
pub open spec fn legacy_unit_bits(sels: Seq<u32>, sfs: Seq<u32>, ms: Seq<Vec<i32>>) -> Seq<u8> {
    let n = sels.len();
    legacy_head_bits() + bits_msb(
        if n - 1 <= 31 {
            (n - 1) as u32
        } else {
            31u32
        },
        5,
    ) + bits_msb(1, 1) + legacy_selector_fields(sels, n) + legacy_sf_fields(sels, sfs, n)
        + legacy_mantissa_fields(sels, ms, n)
}

/// The mantissas of the coded table-1 blocks can be clamped without overflow.
pub open spec fn legacy_mantissas_ok(sels: Seq<u32>, ms: Seq<Vec<i32>>) -> bool {
    forall|i: int, j: int|
        0 <= i < sels.len() && sels[i] == 1 && 0 <= j < ms[i]@.len() ==> #[trigger] ms[i]@[j]
            <= i32::MAX - 2
}

/// Writes the mantissa codes of one legacy block.
fn write_legacy_block(sel: u32, ms: &Vec<i32>, bw: &mut BitWriter)
    requires
        1 <= sel <= 7,
        sel == 1 ==> forall|j: int| 0 <= j < ms@.len() ==> #[trigger] ms@[j] <= i32::MAX - 2,
        old(bw).wf(),
        old(bw).written().len() + legacy_block_bits(sel as int, ms@).len() <= usize::MAX,
    ensures
        final(bw).wf(),
        final(bw).written() == old(bw).written() + legacy_block_bits(sel as int, ms@),
{
    let ghost w0 = bw.written();
    let ghost s = ms@;
    let n = ms.len();
    if sel > 1 {
        let w = clc_bits(sel);
        let mut j: usize = 0;
        while j < n
            invariant
                s == ms@,
                n == s.len(),
                2 <= sel <= 7,
                w == spec_clc_bits(sel as int),
                3 <= w <= 6,
                j <= n,
                bw.wf(),
                w0.len() + legacy_block_bits(sel as int, s).len() <= usize::MAX,
                bw.written() == w0 + concat_fields(|j: int| legacy_value_field(s[j], w as nat), j as nat),
            decreases n - j,
        {
            proof {
                lemma_concat_fields_prefix(|j: int| legacy_value_field(s[j], w as nat), (j + 1) as nat, n as nat);
            }
            let code = low_bits_i32(ms[j], w);
            bw.write_bits(code, w);
            j += 1;
            assert(bw.written() =~= w0 + concat_fields(|j: int| legacy_value_field(s[j], w as nat), j as nat));
        }
    } else {
        let pairs = n / 2 + n % 2;
        let mut k: usize = 0;
        while k < pairs
            invariant
                s == ms@,
                n == s.len(),
                sel == 1,
                forall|j: int| 0 <= j < s.len() ==> #[trigger] s[j] <= i32::MAX - 2,
                pairs == (n + 1) / 2,
                k <= pairs,
                bw.wf(),
                w0.len() + legacy_block_bits(1, s).len() <= usize::MAX,
                bw.written() == w0 + concat_fields(|k: int| legacy_pair_field(s, k), k as nat),
            decreases pairs - k,
        {
            proof {
                lemma_concat_fields_prefix(|k: int| legacy_pair_field(s, k), (k + 1) as nat, pairs as nat);
            }
            let a = mantissa_to_clc_idx(ms[2 * k]);
            let b = if 2 * k + 1 < n {
                mantissa_to_clc_idx(ms[2 * k + 1])
            } else {
                mantissa_to_clc_idx(0)
            };
            assert((a << 2u32) | b == 4 * a + b) by (bit_vector)
                requires
                    a < 4,
                    b < 4,
            ;
            bw.write_bits((a << 2) | b, 4);
            k += 1;
            assert(bw.written() =~= w0 + concat_fields(|k: int| legacy_pair_field(s, k), k as nat));
        }
    }
}

/// Packs a legacy unit with `selectors` (1 to 32 blocks), the scale factor of
/// each block and the quantized mantissas of each block.
pub fn pack_legacy_unit(selectors: &[u32], sf_indices: &[u32], mantissas: &[Vec<i32>]) -> (bytes: Vec<u8>)
    requires
        1 <= selectors@.len() <= 32,
        sf_indices@.len() == selectors@.len(),
        mantissas@.len() == selectors@.len(),
        forall|i: int| 0 <= i < selectors@.len() ==> #[trigger] selectors@[i] <= 7,
        legacy_mantissas_ok(selectors@, mantissas@),
        legacy_unit_bits(selectors@, sf_indices@, mantissas@).len() <= usize::MAX,
    ensures
        packs(bytes@, legacy_unit_bits(selectors@, sf_indices@, mantissas@)),
{
    let ghost sels = selectors@;
    let ghost sfs = sf_indices@;
    let ghost mss = mantissas@;
    let ghost total = legacy_unit_bits(sels, sfs, mss);
    let n = selectors.len();
    let mut bw = BitWriter::new();
    bw.write_bits(0x28, 6);
    bw.write_bits(3, 2);
    bw.write_bits(0, 3);
    bw.write_bits(0, 3);
    bw.write_bits(0, 3);
    bw.write_bits(0, 3);
    bw.write_bits(0, 5);
    let num_subbands: u32 = if n - 1 <= 31 {
        (n - 1) as u32
    } else {
        31
    };
    bw.write_bits(num_subbands, 5);
    bw.write_bits(1, 1);
    let ghost w1 = bw.written();
    let ghost sel_part = legacy_selector_fields(sels, n as nat);
    let ghost sf_part = legacy_sf_fields(sels, sfs, n as nat);
    let ghost m_part = legacy_mantissa_fields(sels, mss, n as nat);
    assert(total =~= w1 + sel_part + sf_part + m_part);
    let mut i: usize = 0;
    while i < n
        invariant
            sels == selectors@,
            n == sels.len(),
            sel_part == legacy_selector_fields(sels, n as nat),
            i <= n,
            bw.wf(),
            w1.len() + sel_part.len() <= usize::MAX,
            bw.written() == w1 + legacy_selector_fields(sels, i as nat),
        decreases n - i,
    {
        proof {
            lemma_concat_fields_prefix(|i: int| bits_msb(sels[i], 3), (i + 1) as nat, n as nat);
        }
        bw.write_bits(selectors[i], 3);
        i += 1;
        assert(bw.written() =~= w1 + legacy_selector_fields(sels, i as nat));
    }
    let ghost w2 = bw.written();
    let mut i: usize = 0;
    while i < n
        invariant
            sels == selectors@,
            sfs == sf_indices@,
            n == sels.len(),
            sfs.len() == n,
            sf_part == legacy_sf_fields(sels, sfs, n as nat),
            i <= n,
            bw.wf(),
            w2.len() + sf_part.len() <= usize::MAX,
            bw.written() == w2 + legacy_sf_fields(sels, sfs, i as nat),
        decreases n - i,
    {
        proof {
            lemma_concat_fields_prefix(
                |i: int|
                    if sels[i] != 0 {
                        bits_msb(sfs[i], 6)
                    } else {
                        Seq::empty()
                    },
                (i + 1) as nat,
                n as nat,
            );
        }
        if selectors[i] != 0 {
            bw.write_bits(sf_indices[i], 6);
        }
        i += 1;
        assert(bw.written() =~= w2 + legacy_sf_fields(sels, sfs, i as nat));
    }
    let ghost w3 = bw.written();
    let mut i: usize = 0;
    while i < n
        invariant
            sels == selectors@,
            mss == mantissas@,
            n == sels.len(),
            mss.len() == n,
            forall|k: int| 0 <= k < n ==> #[trigger] sels[k] <= 7,
            legacy_mantissas_ok(sels, mss),
            m_part == legacy_mantissa_fields(sels, mss, n as nat),
            i <= n,
            bw.wf(),
            w3.len() + m_part.len() <= usize::MAX,
            bw.written() == w3 + legacy_mantissa_fields(sels, mss, i as nat),
        decreases n - i,
    {
        proof {
            lemma_concat_fields_prefix(
                |i: int|
                    if sels[i] != 0 {
                        legacy_block_bits(sels[i] as int, mss[i]@)
                    } else {
                        Seq::empty()
                    },
                (i + 1) as nat,
                n as nat,
            );
        }
        if selectors[i] != 0 {
            assert forall|j: int| 0 <= j < mss[i as int]@.len() && sels[i as int] == 1 implies #[trigger] mss[i as int]@[j]
                <= i32::MAX - 2 by {}
            write_legacy_block(selectors[i], &mantissas[i], &mut bw);
        }
        i += 1;
        assert(bw.written() =~= w3 + legacy_mantissa_fields(sels, mss, i as nat));
    }
    assert(bw.written() =~= total);
    let bytes = bw.flush();
    vstd::slice::slice_to_vec(bytes)
}

} // verus!
