//! The ATRAC3 sound-unit syntax: mantissa codes, per-channel coding decisions
//! and the bit layout of one channel's sound unit.
use vstd::prelude::*;
use vstd::arithmetic::power2::{pow2, lemma_pow2_pos, lemma2_to64};
use vstd::arithmetic::div_mod::{lemma_mod_multiples_vanish, lemma_small_mod};
use vstd::bits::{lemma_u32_shl_is_mul, lemma_u32_pow2_no_overflow, lemma_u32_low_bits_mask_is_mod, low_bits_mask};
use crate::huffman::{BitWriter, VlcTable, bits_msb, is_spectral_vlc, spec_huff_codes, huff_tab_size, lemma_spectral_code_lens};

verus! {

/// The largest quantized magnitude of spectral table `selector` (0 for an
/// unused selector).
pub open spec fn spec_quant_limit(selector: int) -> int {
    if selector == 1 {
        1
    } else if selector == 2 {
        2
    } else if selector == 3 {
        3
    } else if selector == 4 {
        4
    } else if selector == 5 {
        7
    } else if selector == 6 {
        15
    } else if selector == 7 {
        31
    } else {
        0
    }
}

/// The largest quantized magnitude of spectral table `selector`.
pub fn selector_quant_limit(selector: u32) -> (r: i16)
    ensures
        r == spec_quant_limit(selector as int),
{
    match selector {
        1 => 1,
        2 => 2,
        3 => 3,
        4 => 4,
        5 => 7,
        6 => 15,
        7 => 31,
        _ => 0,
    }
}

/// Bits per fixed-length mantissa code of table `selector`; table 1 codes
/// mantissas in pairs, 4 bits per pair.
pub open spec fn spec_clc_bits(selector: int) -> nat {
    if selector == 1 {
        4
    } else if selector == 2 || selector == 3 {
        3
    } else if selector == 4 || selector == 5 {
        4
    } else if selector == 6 {
        5
    } else if selector == 7 {
        6
    } else {
        0
    }
}

/// Bits per fixed-length mantissa code of table `selector`.
pub fn clc_bits(selector: u32) -> (r: usize)
    ensures
        r == spec_clc_bits(selector as int),
{
    match selector {
        1 => 4,
        2 | 3 => 3,
        4 | 5 => 4,
        6 => 5,
        7 => 6,
        _ => 0,
    }
}

/// The mantissa that a 2-bit code of table 1 stands for.
pub open spec fn spec_pair_value(code: int) -> int {
    if code == 1 {
        1
    } else if code == 2 {
        -2
    } else if code == 3 {
        -1
    } else {
        0
    }
}

/// The 2-bit code of a table-1 mantissa; mantissas outside -2..=1 are sent as 0.
pub open spec fn spec_pair_code(mantissa: int) -> int {
    if mantissa == -2 {
        2
    } else if mantissa == -1 {
        3
    } else if mantissa == 1 {
        1
    } else {
        0
    }
}

/// The mantissa that a 2-bit code of table 1 stands for.
pub fn clc_pair_value(code: u32) -> (r: i16)
    ensures
        r == spec_pair_value(code as int),
{
    match code {
        0 => 0,
        1 => 1,
        2 => -2,
        3 => -1,
        _ => 0,
    }
}

/// The 2-bit code of a table-1 mantissa.
pub fn clc_pair_code(mantissa: i16) -> (r: u32)
    ensures
        r == spec_pair_code(mantissa as int),
{
    match mantissa {
        -2 => 2,
        -1 => 3,
        0 => 0,
        1 => 1,
        _ => 0,
    }
}

/// The 4-bit code of a pair of table-1 mantissas, first mantissa in the high bits.
pub fn selector1_clc_pair_bits(a: i16, b: i16) -> (r: u32)
    ensures
        r == 4 * spec_pair_code(a as int) + spec_pair_code(b as int),
        r < 16,
{
    let ca = clc_pair_code(a);
    let cb = clc_pair_code(b);
    assert((ca << 2u32) | cb == 4 * ca + cb) by (bit_vector)
        requires
            ca < 4,
            cb < 4,
    ;
    (ca << 2) | cb
}

/// The table-1 code of a mantissa clamped to -2..=1.
pub fn mantissa_to_clc_idx(mantissa: i32) -> (r: u32)
    requires
        mantissa <= i32::MAX - 2,
    ensures
        r == spec_pair_code(
            if mantissa < -2 {
                -2
            } else if mantissa > 1 {
                1
            } else {
                mantissa as int
            },
        ),
{
    let rtab: [u32; 4] = [2, 3, 0, 1];
    let shifted = mantissa + 2;
    let idx: usize = if shifted < 0 {
        0
    } else if shifted > 3 {
        3
    } else {
        shifted as usize
    };
    rtab[idx]
}

/// Decoding a table-1 code gives back every mantissa in -2..=1.
pub proof fn lemma_pair_code_roundtrip(mantissa: int)
    requires
        -2 <= mantissa <= 1,
    ensures
        spec_pair_value(spec_pair_code(mantissa)) == mantissa,
{
}

/// Encoding the mantissa of a 2-bit table-1 code gives back the code.
pub proof fn lemma_pair_value_roundtrip(code: int)
    requires
        0 <= code < 4,
    ensures
        spec_pair_code(spec_pair_value(code)) == code,
{
}

/// Huffman symbol of a pair of table-1 mantissas (0 for a pair outside -1..=1).
pub open spec fn spec_selector1_symbol(a: int, b: int) -> int {
    if a == 0 && b == 0 {
        0
    } else if a == 0 && b == 1 {
        1
    } else if a == 0 && b == -1 {
        2
    } else if a == 1 && b == 0 {
        3
    } else if a == -1 && b == 0 {
        4
    } else if a == 1 && b == 1 {
        5
    } else if a == 1 && b == -1 {
        6
    } else if a == -1 && b == 1 {
        7
    } else if a == -1 && b == -1 {
        8
    } else {
        0
    }
}

/// Huffman symbol of a pair of table-1 mantissas.
pub fn selector1_vlc_symbol(a: i16, b: i16) -> (r: u8)
    ensures
        r == spec_selector1_symbol(a as int, b as int),
{
    match (a, b) {
        (0, 0) => 0,
        (0, 1) => 1,
        (0, -1) => 2,
        (1, 0) => 3,
        (-1, 0) => 4,
        (1, 1) => 5,
        (1, -1) => 6,
        (-1, 1) => 7,
        (-1, -1) => 8,
        _ => 0,
    }
}

/// The pairs that the symbols of the first spectral code table stand for, as
/// an ATRAC3 decoder reads them: symbol `s` is the pair `selector1_pairs()[s]`.
pub open spec fn selector1_pairs() -> Seq<(int, int)> {
    seq![(0, 0), (0, 1), (0, -1), (1, 0), (-1, 0), (1, 1), (1, -1), (-1, 1), (-1, -1)]
}

/// Every pair of table-1 mantissas in -1..=1 is sent as a symbol of the first
/// spectral code table that a decoder reads back as that very pair; a pair
/// outside that range is sent as symbol 0.
pub proof fn lemma_selector1_symbol_decodes(a: int, b: int)
    ensures
        0 <= spec_selector1_symbol(a, b) < selector1_pairs().len(),
        -1 <= a <= 1 && -1 <= b <= 1 ==> selector1_pairs()[spec_selector1_symbol(a, b)] == (a, b),
        !(-1 <= a <= 1 && -1 <= b <= 1) ==> spec_selector1_symbol(a, b) == 0,
{
}

/// Huffman symbol of one mantissa of tables 2 to 7: positive values map to odd
/// positions, negative ones to even positions, kept to 8 bits.
pub open spec fn spec_scalar_symbol(q: int) -> int {
    let raw = if q < 0 {
        (-2 * q + 1) % 256
    } else {
        (2 * q) % 256
    };
    if raw != 0 {
        raw - 1
    } else {
        0
    }
}

/// Huffman symbol of one mantissa of tables 2 to 7.
pub fn scalar_vlc_symbol(q: i16) -> (r: u8)
    requires
        q != i16::MIN,
    ensures
        r == spec_scalar_symbol(q as int),
{
    let mut sym: u8 = if q < 0 {
        let m = (-q) as u16;
        let low = (m % 256) as u8;
        proof {
            assert(((low << 1u8) | 1u8) as int == (2 * low + 1) % 256) by (bit_vector);
            assert((2 * (m % 256) + 1) % 256 == (2 * m + 1) % 256) by (nonlinear_arith);
        }
        (low << 1) | 1
    } else {
        let m = q as u16;
        let low = (m % 256) as u8;
        proof {
            assert((low << 1u8) as int == (2 * low) % 256) by (bit_vector);
            assert((2 * (m % 256)) % 256 == (2 * m) % 256) by (nonlinear_arith);
        }
        low << 1
    };
    if sym != 0 {
        sym -= 1;
    }
    sym
}

/// The low `bits` bits of the two's complement form of `val`.
pub open spec fn spec_signed_bits(val: int, bits: nat) -> int {
    val % (pow2(bits) as int)
}

/// The low `bits` bits of the two's complement form of `val`.
pub fn make_signed_bits(val: i16, bits: usize) -> (r: u32)
    requires
        1 <= bits <= 31,
    ensures
        r == spec_signed_bits(val as int, bits as nat),
{
    let b = bits as u32;
    proof {
        lemma_u32_pow2_no_overflow(bits as nat);
        lemma_u32_shl_is_mul(1, b);
        lemma_pow2_pos(bits as nat);
    }
    let pw = 1u32 << b;
    let mask = pw - 1;
    assert(mask == low_bits_mask(bits as nat) as u32);
    if val >= 0 {
        let x = val as u32;
        proof {
            lemma_u32_low_bits_mask_is_mod(x, bits as nat);
        }
        x & mask
    } else {
        let mag = (-(val as i32)) as u32;
        let t = (mag - 1) & mask;
        proof {
            lemma_u32_low_bits_mask_is_mod((mag - 1) as u32, bits as nat);
            let m = pow2(bits as nat) as int;
            let k = (mag - 1) as int / m;
            vstd::arithmetic::div_mod::lemma_fundamental_div_mod((mag - 1) as int, m);
            assert(t as int == (mag - 1) as int % m);
            assert((mag - 1) as int == m * k + t);
            assert(val as int == -(mag as int));
            assert(m * (-k - 1) == -(m * k) - m) by (nonlinear_arith);
            assert(val as int == m * (-k - 1) + (m - 1 - t));
            lemma_mod_multiples_vanish(-k - 1, m - 1 - t, m);
            lemma_small_mod((m - 1 - t) as nat, m as nat);
        }
        mask - t
    }
}

/// A value of `bits` two's complement bits read as a signed number.
pub open spec fn spec_sign_extend(raw: int, bits: nat) -> int {
    if raw >= pow2((bits - 1) as nat) {
        raw - pow2(bits)
    } else {
        raw
    }
}

/// Reading back a mantissa written in `bits` two's complement bits gives the
/// mantissa, for every mantissa that fits in those bits.
pub proof fn lemma_signed_bits_roundtrip(val: int, bits: nat)
    requires
        1 <= bits,
        -pow2((bits - 1) as nat) <= val < pow2((bits - 1) as nat),
    ensures
        0 <= spec_signed_bits(val, bits) < pow2(bits),
        spec_sign_extend(spec_signed_bits(val, bits), bits) == val,
{
    vstd::arithmetic::power2::lemma_pow2_unfold(bits);
    lemma_pow2_pos((bits - 1) as nat);
    let m = pow2(bits) as int;
    if val >= 0 {
        lemma_small_mod(val as nat, m as nat);
    } else {
        lemma_mod_multiples_vanish(-1, m + val, m);
        lemma_small_mod((m + val) as nat, m as nat);
    }
}


/// Coding of one block of spectral coefficients (a BFU): its table selector,
/// scale-factor index, quantized mantissas, their Huffman symbols and the bit
/// cost of each coding mode.
pub struct BfuCoding {
    pub block: usize,
    pub table_idx: usize,
    pub sf_idx: usize,
    pub mantissas: Vec<i16>,
    pub vlc_symbols: Vec<u8>,
    pub vlc_bits: usize,
    pub clc_bits: usize,
    pub bit_count: usize,
}

impl BfuCoding {
    /// An uncoded plan for `block` with `block_len` zero mantissas.
    pub fn new(block: usize, table_idx: usize, block_len: usize) -> (p: Self)
        ensures
            p.block == block,
            p.table_idx == table_idx,
            p.sf_idx == 0,
            p.mantissas@ == Seq::new(block_len as nat, |i: int| 0i16),
            p.vlc_symbols@ == Seq::new(block_len as nat, |i: int| 0u8),
            p.vlc_bits == 0,
            p.clc_bits == 0,
            p.bit_count == 0,
    {
        let mut mantissas: Vec<i16> = Vec::new();
        let mut vlc_symbols: Vec<u8> = Vec::new();
        let mut i: usize = 0;
        while i < block_len
            invariant
                i <= block_len,
                mantissas@ == Seq::new(i as nat, |k: int| 0i16),
                vlc_symbols@ == Seq::new(i as nat, |k: int| 0u8),
            decreases block_len - i,
        {
            mantissas.push(0);
            vlc_symbols.push(0);
            i += 1;
            assert(mantissas@ =~= Seq::new(i as nat, |k: int| 0i16));
            assert(vlc_symbols@ =~= Seq::new(i as nat, |k: int| 0u8));
        }
        Self {
            block,
            table_idx,
            sf_idx: 0,
            mantissas,
            vlc_symbols,
            vlc_bits: 0,
            clc_bits: 0,
            bit_count: 0,
        }
    }
}

/// The encoder settings that decide the layout of a sound unit.
pub struct SyntaxConfig {
    pub force_clc: bool,
    pub disable_vlc: bool,
    pub vlc_max_selector: Option<usize>,
    pub static_qmf_bands: bool,
}

impl SyntaxConfig {
    /// Whether Huffman coding of mantissas may be chosen.
    pub fn vlc_enabled(&self) -> (r: bool)
        ensures
            r == (!self.force_clc && !self.disable_vlc),
    {
        !self.force_clc && !self.disable_vlc
    }
}

/// The QMF band that spectral block `block` lies in; blocks past the last band
/// count as the last band.
pub open spec fn spec_block_band(block: int) -> int {
    if block < 18 {
        0
    } else if block < 26 {
        1
    } else if block < 30 {
        2
    } else {
        3
    }
}

/// The QMF band that spectral block `block` lies in.
pub fn block_band(block: usize) -> (r: usize)
    ensures
        r == spec_block_band(block as int),
{
    if block < 18 {
        0
    } else if block < 26 {
        1
    } else if block < 30 {
        2
    } else {
        3
    }
}

/// The number of QMF bands a sound unit announces for `num_blocks` coded
/// blocks: the fewest bands that hold them, or always 4 when the band count
/// is fixed.
pub open spec fn spec_qmf_band_count(num_blocks: int, static_qmf_bands: bool) -> int {
    if static_qmf_bands {
        4
    } else if num_blocks <= 18 {
        1
    } else if num_blocks <= 26 {
        2
    } else if num_blocks <= 30 {
        3
    } else {
        4
    }
}

/// The number of QMF bands a sound unit announces for `num_blocks` coded blocks.
pub fn header_qmf_band_count(num_blocks: usize, config: &SyntaxConfig) -> (r: usize)
    ensures
        r == spec_qmf_band_count(num_blocks as int, config.static_qmf_bands),
        1 <= r <= 4,
{
    if config.static_qmf_bands {
        return 4;
    }
    if num_blocks <= 18 {
        1
    } else if num_blocks <= 26 {
        2
    } else if num_blocks <= 30 {
        3
    } else {
        4
    }
}

/// One past the last plan with a nonzero table selector (0 when there is none).
pub open spec fn coded_prefix_len(plans: Seq<BfuCoding>) -> nat
    decreases plans.len(),
{
    if plans.len() == 0 {
        0
    } else if plans.last().table_idx != 0 {
        plans.len()
    } else {
        coded_prefix_len(plans.drop_last())
    }
}

/// The number of blocks a sound unit sends: up to the last coded block, and
/// at least one.
pub open spec fn spec_num_blocks(plans: Seq<BfuCoding>) -> nat {
    let c = coded_prefix_len(plans);
    if c == 0 {
        1
    } else {
        c
    }
}

/// The plans that a sound unit sends: the first `spec_num_blocks` of them, or
/// all of them where there are fewer.
pub open spec fn sent_count(plans: Seq<BfuCoding>) -> nat {
    if spec_num_blocks(plans) <= plans.len() {
        spec_num_blocks(plans)
    } else {
        plans.len()
    }
}

pub(crate) proof fn lemma_coded_prefix_len(plans: Seq<BfuCoding>)
    ensures
        coded_prefix_len(plans) <= plans.len(),
        coded_prefix_len(plans) > 0 ==> plans[coded_prefix_len(plans) - 1].table_idx != 0,
        forall|i: int|
            coded_prefix_len(plans) <= i < plans.len() ==> (#[trigger] plans[i]).table_idx == 0,
    decreases plans.len(),
{
    if plans.len() > 0 && plans.last().table_idx == 0 {
        lemma_coded_prefix_len(plans.drop_last());
        assert forall|i: int|
            coded_prefix_len(plans) <= i < plans.len() implies (#[trigger] plans[i]).table_idx
            == 0 by {
            if i < plans.len() - 1 {
                assert(plans.drop_last()[i] == plans[i]);
            }
        }
    }
}

/// The number of blocks a sound unit sends for `plans`: one past the last
/// plan with a nonzero selector, and at least one.
pub fn num_coded_blocks(plans: &[BfuCoding]) -> (r: usize)
    ensures
        r == spec_num_blocks(plans@),
        1 <= r,
        r <= plans@.len() || plans@.len() == 0,
{
    proof {
        lemma_coded_prefix_len(plans@);
    }
    let mut i: usize = plans.len();
    assert(plans@.take(i as int) =~= plans@);
    while i > 0
        invariant
            i <= plans@.len(),
            coded_prefix_len(plans@) == coded_prefix_len(plans@.take(i as int)),
        decreases i,
    {
        if plans[i - 1].table_idx != 0 {
            assert(plans@.take(i as int).last() == plans@[i - 1]);
            return i;
        }
        assert(plans@.take(i as int).drop_last() =~= plans@.take(i - 1));
        i -= 1;
    }
    assert(plans@.take(0) =~= Seq::<BfuCoding>::empty());
    1
}

/// Sum of the CLC bit costs of the coded plans among the first `n`.
pub open spec fn sum_clc_bits(plans: Seq<BfuCoding>, n: nat) -> nat
    decreases n,
{
    if n == 0 {
        0
    } else {
        sum_clc_bits(plans, (n - 1) as nat) + if plans[n - 1].table_idx != 0 {
            plans[n - 1].clc_bits as nat
        } else {
            0
        }
    }
}

/// Sum of the VLC bit costs of the coded plans among the first `n`.
pub open spec fn sum_vlc_bits(plans: Seq<BfuCoding>, n: nat) -> nat
    decreases n,
{
    if n == 0 {
        0
    } else {
        sum_vlc_bits(plans, (n - 1) as nat) + if plans[n - 1].table_idx != 0 {
            plans[n - 1].vlc_bits as nat
        } else {
            0
        }
    }
}

/// Sum over the coded plans among the first `n` of a scale factor (6 bits)
/// and the mantissa bits of the chosen mode.
pub open spec fn sum_coded_cost(plans: Seq<BfuCoding>, n: nat) -> nat
    decreases n,
{
    if n == 0 {
        0
    } else {
        sum_coded_cost(plans, (n - 1) as nat) + if plans[n - 1].table_idx != 0 {
            6 + plans[n - 1].bit_count as nat
        } else {
            0
        }
    }
}

/// Bits a sound unit takes for `plans`, without gain control and tonal
/// components: header, block count, coding mode, selectors, scale factors and
/// mantissas.
pub open spec fn spec_plan_bits(plans: Seq<BfuCoding>, static_qmf_bands: bool) -> nat {
    let nb = spec_num_blocks(plans);
    (6 + 2 + spec_qmf_band_count(nb as int, static_qmf_bands) * 3 + 5 + 5 + 1 + nb * 3
        + sum_coded_cost(plans, sent_count(plans))) as nat
}

/// Bits a sound unit takes for `plans`, without gain control and tonal components.
pub fn bfu_plan_bits(plans: &[BfuCoding], config: &SyntaxConfig) -> (r: usize)
    requires
        spec_plan_bits(plans@, config.static_qmf_bands) <= usize::MAX,
    ensures
        r == spec_plan_bits(plans@, config.static_qmf_bands),
{
    let num_blocks = num_coded_blocks(plans);
    let qmf_bands = header_qmf_band_count(num_blocks, config);
    let limit = if num_blocks <= plans.len() {
        num_blocks
    } else {
        plans.len()
    };
    let ghost head: int = 6 + 2 + qmf_bands * 3 + 5 + 5 + 1 + num_blocks * 3;
    assert(head + sum_coded_cost(plans@, limit as nat) <= usize::MAX);
    let mut total: usize = 6 + 2 + qmf_bands * 3 + 5 + 5 + 1 + num_blocks * 3;
    let mut i: usize = 0;
    while i < limit
        invariant
            limit <= plans@.len(),
            i <= limit,
            head + sum_coded_cost(plans@, limit as nat) <= usize::MAX,
            total == head + sum_coded_cost(plans@, i as nat),
        decreases limit - i,
    {
        proof {
            lemma_sum_coded_cost_mono(plans@, (i + 1) as nat, limit as nat);
        }
        if plans[i].table_idx != 0 {
            total += 6 + plans[i].bit_count;
        }
        i += 1;
    }
    total
}

proof fn lemma_sum_coded_cost_mono(plans: Seq<BfuCoding>, a: nat, b: nat)
    requires
        a <= b,
    ensures
        sum_coded_cost(plans, a) <= sum_coded_cost(plans, b),
    decreases b - a,
{
    if a < b {
        lemma_sum_coded_cost_mono(plans, a, (b - 1) as nat);
    }
}

proof fn lemma_sum_bits_mono(plans: Seq<BfuCoding>, a: nat, b: nat)
    requires
        a <= b,
    ensures
        sum_clc_bits(plans, a) <= sum_clc_bits(plans, b),
        sum_vlc_bits(plans, a) <= sum_vlc_bits(plans, b),
    decreases b - a,
{
    if a < b {
        lemma_sum_bits_mono(plans, a, (b - 1) as nat);
    }
}

/// Some coded plan uses a table above `max_selector`.
pub open spec fn uses_table_above(plans: Seq<BfuCoding>, max_selector: usize) -> bool {
    exists|i: int|
        0 <= i < plans.len() && (#[trigger] plans[i]).table_idx != 0 && plans[i].table_idx
            > max_selector
}

/// The channel is coded with Huffman codes: Huffman coding is allowed, no coded
/// plan uses a table above the configured limit, and the coded plans that are
/// sent take fewer bits that way than with fixed-length codes.
pub open spec fn spec_prefers_vlc(plans: Seq<BfuCoding>, config: SyntaxConfig) -> bool {
    if config.force_clc || config.disable_vlc {
        false
    } else if config.vlc_max_selector is Some && uses_table_above(
        plans,
        config.vlc_max_selector->0,
    ) {
        false
    } else {
        sum_vlc_bits(plans, sent_count(plans)) < sum_clc_bits(plans, sent_count(plans))
    }
}

/// The bit-cost sums that the coding-mode decision adds up fit in `usize`.
pub open spec fn cost_sums_fit(plans: Seq<BfuCoding>) -> bool {
    &&& sum_vlc_bits(plans, sent_count(plans)) <= usize::MAX
    &&& sum_clc_bits(plans, sent_count(plans)) <= usize::MAX
}

/// Whether the channel's mantissas are sent with Huffman codes.
pub fn channel_prefers_vlc(plans: &[BfuCoding], config: &SyntaxConfig) -> (r: bool)
    requires
        cost_sums_fit(plans@),
    ensures
        r == spec_prefers_vlc(plans@, *config),
{
    if config.force_clc {
        return false;
    }
    if !config.vlc_enabled() {
        return false;
    }
    if let Some(max_selector) = config.vlc_max_selector {
        let mut k: usize = 0;
        while k < plans.len()
            invariant
                k <= plans@.len(),
                config.vlc_max_selector == Some(max_selector),
                forall|j: int|
                    0 <= j < k ==> !((#[trigger] plans@[j]).table_idx != 0 && plans@[j].table_idx
                        > max_selector),
            decreases plans@.len() - k,
        {
            if plans[k].table_idx != 0 && plans[k].table_idx > max_selector {
                return false;
            }
            k += 1;
        }
    }
    let num_blocks = num_coded_blocks(plans);
    let limit = if num_blocks <= plans.len() {
        num_blocks
    } else {
        plans.len()
    };
    assert(limit == sent_count(plans@));
    let mut spectral_clc_bits: usize = 0;
    let mut spectral_vlc_bits: usize = 0;
    let mut i: usize = 0;
    while i < limit
        invariant
            limit == sent_count(plans@),
            limit <= plans@.len(),
            i <= limit,
            cost_sums_fit(plans@),
            spectral_clc_bits == sum_clc_bits(plans@, i as nat),
            spectral_vlc_bits == sum_vlc_bits(plans@, i as nat),
        decreases limit - i,
    {
        proof {
            lemma_sum_bits_mono(plans@, (i + 1) as nat, limit as nat);
        }
        if plans[i].table_idx != 0 {
            spectral_clc_bits += plans[i].clc_bits;
            spectral_vlc_bits += plans[i].vlc_bits;
        }
        i += 1;
    }
    spectral_vlc_bits < spectral_clc_bits
}

/// Sets each plan's bit count to the cost of the coding mode the channel uses.
pub fn apply_channel_coding_mode(plans: &mut Vec<BfuCoding>, config: &SyntaxConfig)
    requires
        cost_sums_fit(old(plans)@),
    ensures
        final(plans)@.len() == old(plans)@.len(),
        forall|i: int|
            0 <= i < old(plans)@.len() ==> {
                let p = #[trigger] final(plans)@[i];
                let q = old(plans)@[i];
                &&& p.block == q.block
                &&& p.table_idx == q.table_idx
                &&& p.sf_idx == q.sf_idx
                &&& p.mantissas == q.mantissas
                &&& p.vlc_symbols == q.vlc_symbols
                &&& p.vlc_bits == q.vlc_bits
                &&& p.clc_bits == q.clc_bits
                &&& p.bit_count == if spec_prefers_vlc(old(plans)@, *config) {
                    q.vlc_bits
                } else {
                    q.clc_bits
                }
            },
{
    let use_vlc = channel_prefers_vlc(plans.as_slice(), config);
    let mut i: usize = 0;
    while i < plans.len()
        invariant
            i <= plans@.len(),
            plans@.len() == old(plans)@.len(),
            use_vlc == spec_prefers_vlc(old(plans)@, *config),
            forall|j: int|
                0 <= j < old(plans)@.len() ==> {
                    let p = #[trigger] plans@[j];
                    let q = old(plans)@[j];
                    &&& p.block == q.block
                    &&& p.table_idx == q.table_idx
                    &&& p.sf_idx == q.sf_idx
                    &&& p.mantissas == q.mantissas
                    &&& p.vlc_symbols == q.vlc_symbols
                    &&& p.vlc_bits == q.vlc_bits
                    &&& p.clc_bits == q.clc_bits
                    &&& (j < i ==> p.bit_count == if use_vlc {
                        q.vlc_bits
                    } else {
                        q.clc_bits
                    })
                },
        decreases old(plans)@.len() - i,
    {
        let count = if use_vlc {
            plans[i].vlc_bits
        } else {
            plans[i].clc_bits
        };
        plans[i].bit_count = count;
        i += 1;
    }
}

/// A plan with its selector, scale factor, mantissas, symbols and costs cleared.
pub open spec fn cleared_plan(p: BfuCoding) -> BfuCoding {
    BfuCoding {
        block: p.block,
        table_idx: 0,
        sf_idx: 0,
        mantissas: p.mantissas,
        vlc_symbols: p.vlc_symbols,
        vlc_bits: 0,
        clc_bits: 0,
        bit_count: 0,
    }
}

/// The plans with every plan from `first_block` on cleared.
pub open spec fn cleared_from(plans: Seq<BfuCoding>, first_block: int) -> Seq<BfuCoding> {
    Seq::new(plans.len(), |i: int| if i < first_block { plans[i] } else { cleared_plan(plans[i]) })
}

proof fn lemma_coded_prefix_dominated(a: Seq<BfuCoding>, b: Seq<BfuCoding>)
    requires
        a.len() == b.len(),
        forall|i: int| 0 <= i < a.len() && (#[trigger] a[i]).table_idx != 0 ==> b[i].table_idx != 0,
    ensures
        coded_prefix_len(a) <= coded_prefix_len(b),
    decreases a.len(),
{
    lemma_coded_prefix_len(a);
    lemma_coded_prefix_len(b);
    if a.len() > 0 {
        let a1 = a.drop_last();
        let b1 = b.drop_last();
        assert forall|i: int| 0 <= i < a1.len() && (#[trigger] a1[i]).table_idx != 0 implies b1[i].table_idx
            != 0 by {
            assert(a1[i] == a[i]);
            assert(b1[i] == b[i]);
        }
        lemma_coded_prefix_dominated(a1, b1);
        lemma_coded_prefix_len(b1);
    }
}

proof fn lemma_sums_dominated(a: Seq<BfuCoding>, b: Seq<BfuCoding>, n: nat)
    requires
        a.len() == b.len(),
        n <= a.len(),
        forall|i: int|
            0 <= i < a.len() && (#[trigger] a[i]).table_idx != 0 ==> {
                &&& b[i].table_idx != 0
                &&& a[i].clc_bits <= b[i].clc_bits
                &&& a[i].vlc_bits <= b[i].vlc_bits
            },
    ensures
        sum_clc_bits(a, n) <= sum_clc_bits(b, n),
        sum_vlc_bits(a, n) <= sum_vlc_bits(b, n),
    decreases n,
{
    if n > 0 {
        lemma_sums_dominated(a, b, (n - 1) as nat);
        let k = n - 1;
        if a[k].table_idx != 0 {
            assert(b[k].table_idx != 0);
        }
    }
}

/// Clears every plan from `first_block` on (no selector, no scale factor, zero
/// mantissas and symbols, no cost) and then sets each plan's bit count to the
/// cost of the coding mode the channel uses.
pub fn clear_high_bfus(plans: &mut Vec<BfuCoding>, first_block: usize, config: &SyntaxConfig)
    requires
        cost_sums_fit(old(plans)@),
    ensures
        final(plans)@.len() == old(plans)@.len(),
        forall|i: int|
            0 <= i < old(plans)@.len() ==> {
                let p = #[trigger] final(plans)@[i];
                let q = cleared_from(old(plans)@, first_block as int)[i];
                &&& p.block == q.block
                &&& p.table_idx == q.table_idx
                &&& p.sf_idx == q.sf_idx
                &&& (i < first_block ==> p.mantissas == q.mantissas && p.vlc_symbols
                    == q.vlc_symbols)
                &&& (i >= first_block ==> p.mantissas@ == Seq::new(q.mantissas@.len(), |k: int| 0i16)
                    && p.vlc_symbols@ == Seq::new(q.vlc_symbols@.len(), |k: int| 0u8))
                &&& p.vlc_bits == q.vlc_bits
                &&& p.clc_bits == q.clc_bits
                &&& p.bit_count == if spec_prefers_vlc(
                    cleared_from(old(plans)@, first_block as int),
                    *config,
                ) {
                    q.vlc_bits
                } else {
                    q.clc_bits
                }
            },
{
    let ghost c = cleared_from(old(plans)@, first_block as int);
    let mut i: usize = first_block;
    while i < plans.len()
        invariant
            first_block <= i,
            plans@.len() == old(plans)@.len(),
            forall|j: int|
                0 <= j < old(plans)@.len() ==> {
                    let p = #[trigger] plans@[j];
                    let q = old(plans)@[j];
                    &&& (j < first_block || j >= i ==> p == q)
                    &&& (first_block <= j < i ==> {
                        &&& p.block == q.block
                        &&& p.table_idx == 0
                        &&& p.sf_idx == 0
                        &&& p.mantissas@ == Seq::new(q.mantissas@.len(), |k: int| 0i16)
                        &&& p.vlc_symbols@ == Seq::new(q.vlc_symbols@.len(), |k: int| 0u8)
                        &&& p.vlc_bits == 0
                        &&& p.clc_bits == 0
                        &&& p.bit_count == 0
                    })
                },
        decreases old(plans)@.len() - i,
    {
        let n_m = plans[i].mantissas.len();
        let n_s = plans[i].vlc_symbols.len();
        let cleared = BfuCoding::new(plans[i].block, 0, n_m);
        let mut symbols: Vec<u8> = Vec::new();
        let mut k: usize = 0;
        while k < n_s
            invariant
                k <= n_s,
                symbols@ == Seq::new(k as nat, |t: int| 0u8),
            decreases n_s - k,
        {
            symbols.push(0);
            k += 1;
            assert(symbols@ =~= Seq::new(k as nat, |t: int| 0u8));
        }
        let ghost before = plans@;
        let ghost q = old(plans)@[i as int];
        plans.set(i, BfuCoding { vlc_symbols: symbols, ..cleared });
        proof {
            assert(before[i as int] == q);
            assert(plans@ == before.update(i as int, plans@[i as int]));
        }
        i += 1;
    }
    proof {
        assert(plans@.len() == c.len());
        assert forall|j: int| 0 <= j < c.len() && (#[trigger] plans@[j]).table_idx != 0 implies {
            &&& old(plans)@[j].table_idx != 0
            &&& plans@[j].clc_bits <= old(plans)@[j].clc_bits
            &&& plans@[j].vlc_bits <= old(plans)@[j].vlc_bits
        } by {}
        lemma_coded_prefix_dominated(plans@, old(plans)@);
        lemma_coded_prefix_len(plans@);
        lemma_coded_prefix_len(old(plans)@);
        lemma_sums_dominated(plans@, old(plans)@, sent_count(plans@));
        lemma_sum_bits_mono(old(plans)@, sent_count(plans@), sent_count(old(plans)@));
        assert forall|j: int| 0 <= j < c.len() implies (#[trigger] plans@[j]).table_idx == c[j].table_idx
            && plans@[j].clc_bits == c[j].clc_bits && plans@[j].vlc_bits == c[j].vlc_bits by {}
        lemma_same_costs_same_choice(plans@, c, *config);
    }
    apply_channel_coding_mode(plans, config);
}

proof fn lemma_same_costs_same_choice(a: Seq<BfuCoding>, b: Seq<BfuCoding>, config: SyntaxConfig)
    requires
        a.len() == b.len(),
        forall|j: int|
            0 <= j < a.len() ==> (#[trigger] a[j]).table_idx == b[j].table_idx && a[j].clc_bits
                == b[j].clc_bits && a[j].vlc_bits == b[j].vlc_bits,
    ensures
        spec_prefers_vlc(a, config) == spec_prefers_vlc(b, config),
        cost_sums_fit(a) == cost_sums_fit(b),
{
    assert forall|i: int| 0 <= i < b.len() && (#[trigger] b[i]).table_idx != 0 implies {
        &&& a[i].table_idx != 0
        &&& b[i].clc_bits <= a[i].clc_bits
        &&& b[i].vlc_bits <= a[i].vlc_bits
    } by {
        assert(a[i].table_idx == b[i].table_idx);
    }
    lemma_coded_prefix_dominated(a, b);
    lemma_coded_prefix_dominated(b, a);
    lemma_coded_prefix_len(a);
    lemma_sums_dominated(a, b, sent_count(a));
    lemma_sums_dominated(b, a, sent_count(a));
    if config.vlc_max_selector is Some {
        let m = config.vlc_max_selector->0;
        if uses_table_above(a, m) {
            let i = choose|i: int| 0 <= i < a.len() && (#[trigger] a[i]).table_idx != 0 && a[i].table_idx > m;
            assert(b[i].table_idx == a[i].table_idx);
        }
        if uses_table_above(b, m) {
            let i = choose|i: int| 0 <= i < b.len() && (#[trigger] b[i]).table_idx != 0 && b[i].table_idx > m;
            assert(b[i].table_idx == a[i].table_idx);
        }
    }
}


/// `floor(log2(v))` for a positive `v`: the exponent of the highest set bit.
pub fn floor_log2_u32(v: u32) -> (r: u8)
    ensures
        r < 32,
        r == floor_log2_of(v as nat),
        v > 0 ==> pow2(r as nat) <= v < pow2(r as nat + 1),
{
    if v == 0 {
        return 0;
    }
    let mut x: u32 = v;
    let mut r: u8 = 0;
    proof {
        lemma2_to64();
    }
    while x > 1
        invariant
            1 <= x <= v,
            r < 32,
            x < pow2((32 - r) as nat),
            pow2(r as nat) * x <= v,
            v < pow2(r as nat) * (x + 1),
            r + floor_log2_of(x as nat) == floor_log2_of(v as nat),
        decreases x,
    {
        let ghost p = pow2(r as nat);
        let ghost x0 = x;
        proof {
            lemma_pow2_pos(r as nat);
            vstd::arithmetic::power2::lemma_pow2_adds(r as nat, 1);
            vstd::arithmetic::power2::lemma_pow2_adds((31 - r) as nat, 1);
            assert(pow2(1) == 2) by {
                lemma2_to64();
            }
            if r == 31 {
                assert(pow2(0) == 1) by {
                    lemma2_to64();
                }
            }
        }
        x = x / 2;
        r = r + 1;
        proof {
            assert(pow2(r as nat) == p * 2);
            assert(p * 2 * x <= p * x0) by (nonlinear_arith)
                requires
                    x == x0 / 2,
                    p > 0,
            ;
            assert(p * (x0 + 1) <= p * 2 * (x + 1)) by (nonlinear_arith)
                requires
                    x == x0 / 2,
                    p > 0,
            ;
        }
    }
    proof {
        assert(pow2(r as nat + 1) == pow2(r as nat) * 2) by {
            vstd::arithmetic::power2::lemma_pow2_adds(r as nat, 1);
            lemma2_to64();
        }
    }
    r
}

/// The gain level index for an envelope ratio whose integer part is
/// `magnitude`: for a ratio at most one half, `magnitude` is the integer part of
/// its inverse and the index rises above 4 (at most 15); otherwise it falls
/// below 4 (at least 0).
pub fn relation_gain_index(below_half: bool, magnitude: u32) -> (r: u8)
    ensures
        ({
            let f = floor_log2_of(magnitude as nat);
            if below_half {
                r == if 4 + f <= 15 {
                    4 + f
                } else {
                    15
                }
            } else {
                r == if f <= 4 {
                    4 - f
                } else {
                    0
                }
            }
        }),
{
    let f = floor_log2_u32(magnitude);
    if below_half {
        let up = 4 + f;
        if up <= 15 {
            up
        } else {
            15
        }
    } else {
        if f <= 4 {
            4 - f
        } else {
            0
        }
    }
}

/// The exponent of the highest set bit of `v`, and 0 for 0 and 1.
pub open spec fn floor_log2_of(v: nat) -> nat
    decreases v,
{
    if v <= 1 {
        0
    } else {
        1 + floor_log2_of(v / 2)
    }
}

/// The Huffman table selector for a block from its allocation level: at most
/// 7, never negative, and at least 1 for a level of 0.
pub fn selector_from_level(level: i32) -> (r: usize)
    ensures
        r == if level > 7 {
            7
        } else if level < 0 {
            0
        } else if level == 0 {
            1
        } else {
            level as int
        },
{
    if level > 7 {
        7
    } else if level < 0 {
        0
    } else if level == 0 {
        1
    } else {
        level as usize
    }
}

/// Whether the bit-cost sums of the sent plans fit in `usize`.
pub fn costs_fit(plans: &[BfuCoding]) -> (r: bool)
    ensures
        r == cost_sums_fit(plans@),
{
    let n = num_coded_blocks(plans);
    let limit = if n <= plans.len() {
        n
    } else {
        plans.len()
    };
    assert(limit == sent_count(plans@));
    let mut clc: usize = 0;
    let mut vlc: usize = 0;
    let mut i: usize = 0;
    while i < limit
        invariant
            limit == sent_count(plans@),
            limit <= plans@.len(),
            i <= limit,
            clc == sum_clc_bits(plans@, i as nat),
            vlc == sum_vlc_bits(plans@, i as nat),
        decreases limit - i,
    {
        proof {
            lemma_sum_bits_mono(plans@, (i + 1) as nat, limit as nat);
        }
        if plans[i].table_idx != 0 {
            match clc.checked_add(plans[i].clc_bits) {
                Some(v) => clc = v,
                None => return false,
            }
            match vlc.checked_add(plans[i].vlc_bits) {
                Some(v) => vlc = v,
                None => return false,
            }
        }
        i += 1;
    }
    true
}

/// Number of entries of spectral code table `t`.
fn spectral_table_size(t: usize) -> (r: usize)
    ensures
        r == huff_tab_size(t as int),
{
    if t == 0 {
        9
    } else if t == 1 {
        5
    } else if t == 2 {
        7
    } else if t == 3 {
        9
    } else if t == 4 {
        15
    } else if t == 5 {
        31
    } else {
        63
    }
}

/// Whether quantized values can be coded with table `table_idx`: for tables
/// 2 and up every value has a symbol in the table.
pub fn quantized_is_codable(table_idx: usize, quantized: &[i16]) -> (r: bool)
    ensures
        r == quantized_codable(table_idx as int, quantized@),
{
    if table_idx < 2 {
        return true;
    }
    let size = spectral_table_size(table_idx - 1);
    let mut i: usize = 0;
    while i < quantized.len()
        invariant
            2 <= table_idx,
            size == huff_tab_size(table_idx - 1),
            i <= quantized@.len(),
            forall|j: int|
                0 <= j < i ==> #[trigger] quantized@[j] != i16::MIN && spec_scalar_symbol(
                    quantized@[j] as int,
                ) < huff_tab_size(table_idx - 1),
        decreases quantized@.len() - i,
    {
        let q = quantized[i];
        if q == i16::MIN {
            return false;
        }
        let sym = scalar_vlc_symbol(q);
        if sym as usize >= size {
            return false;
        }
        i += 1;
    }
    true
}

/// Whether the symbols of a block of `n` mantissas exist in table `table`.
pub fn symbols_are_ok(table: usize, n: usize, syms: &[u8]) -> (r: bool)
    ensures
        r == vlc_symbols_ok(table as int, n as nat, syms@),
{
    if table == 1 {
        let m = 2 * (n / 2);
        if m > syms.len() && m - syms.len() > 1 {
            return false;
        }
        let mut k: usize = 0;
        while k < n / 2
            invariant
                table == 1,
                2 * (n / 2) <= syms@.len() + 1,
                k <= n / 2,
                forall|j: int| 0 <= j < k ==> #[trigger] pair_symbol(syms@, j) < 9,
            decreases n / 2 - k,
        {
            if syms[2 * k] >= 9 {
                assert(pair_symbol(syms@, k as int) >= 9);
                return false;
            }
            k += 1;
        }
        true
    } else {
        if n > syms.len() {
            return false;
        }
        let size = if table == 0 {
            spectral_table_size(usize::MAX)
        } else {
            spectral_table_size(table - 1)
        };
        assert(size == huff_tab_size(table - 1));
        let mut k: usize = 0;
        while k < n
            invariant
                n <= syms@.len(),
                table != 1,
                size == huff_tab_size(table - 1),
                k <= n,
                forall|j: int| 0 <= j < k ==> #[trigger] syms@[j] < huff_tab_size(table - 1),
            decreases n - k,
        {
            if syms[k] as usize >= size {
                return false;
            }
            k += 1;
        }
        true
    }
}

/// Bits that gain control adds to a sound unit: 9 per gain point in the
/// first `qmf_bands` bands.
pub open spec fn spec_gain_extra_bits(gains: Seq<Vec<(u8, u8)>>, n: nat) -> nat
    decreases n,
{
    if n == 0 || n > gains.len() {
        0
    } else {
        spec_gain_extra_bits(gains, (n - 1) as nat) + 9 * gains[n - 1]@.len()
    }
}

/// Bits that gain control adds to a sound unit with `qmf_bands` bands.
pub fn gain_extra_bits(gains: &[Vec<(u8, u8)>], qmf_bands: usize) -> (r: usize)
    requires
        spec_gain_extra_bits(
            gains@,
            if qmf_bands <= gains@.len() {
                qmf_bands as nat
            } else {
                gains@.len()
            },
        ) <= usize::MAX,
    ensures
        r == spec_gain_extra_bits(
            gains@,
            if qmf_bands <= gains@.len() {
                qmf_bands as nat
            } else {
                gains@.len()
            },
        ),
{
    let limit = if qmf_bands <= gains.len() {
        qmf_bands
    } else {
        gains.len()
    };
    let mut total: usize = 0;
    let mut i: usize = 0;
    while i < limit
        invariant
            limit <= gains@.len(),
            i <= limit,
            spec_gain_extra_bits(gains@, limit as nat) <= usize::MAX,
            total == spec_gain_extra_bits(gains@, i as nat),
        decreases limit - i,
    {
        proof {
            lemma_gain_bits_mono(gains@, (i + 1) as nat, limit as nat);
        }
        total += gains[i].len() * 9;
        i += 1;
    }
    total
}

proof fn lemma_gain_bits_mono(gains: Seq<Vec<(u8, u8)>>, a: nat, b: nat)
    requires
        a <= b <= gains.len(),
    ensures
        spec_gain_extra_bits(gains, a) <= spec_gain_extra_bits(gains, b),
    decreases b - a,
{
    if a < b {
        lemma_gain_bits_mono(gains, a, (b - 1) as nat);
    }
}

/// Number of quantized values at or above `limit` in magnitude.
pub open spec fn count_saturated(q: Seq<i16>, limit: int) -> nat
    decreases q.len(),
{
    if q.len() == 0 {
        0
    } else {
        count_saturated(q.drop_last(), limit) + if q.last() >= limit || q.last() <= -limit {
            1nat
        } else {
            0nat
        }
    }
}

/// A block in the upper bands coded with tables 1 to 3 needs a larger scale
/// factor when more than 12 (table 2) or 10 (tables 1 and 3) of its quantized
/// values sit at the table's limit.
pub open spec fn spec_needs_headroom(block: int, table_idx: int, q: Seq<i16>, limit: int) -> bool {
    if block < 16 || table_idx > 3 || limit <= 0 {
        false
    } else {
        count_saturated(q, limit) > if table_idx == 2 {
            12nat
        } else {
            10nat
        }
    }
}

/// Whether a block needs a larger scale factor because too many of its
/// quantized values saturate.
pub fn tail_sf_needs_headroom(plan: &BfuCoding, quantized: &[i16], quant_limit: i16) -> (r: bool)
    requires
        !(plan.block < 16 || plan.table_idx > 3 || quant_limit <= 0) ==> forall|i: int|
            0 <= i < quantized@.len() ==> #[trigger] quantized@[i] != i16::MIN,
    ensures
        r == spec_needs_headroom(plan.block as int, plan.table_idx as int, quantized@, quant_limit as int),
{
    if plan.block < 16 || plan.table_idx > 3 || quant_limit <= 0 {
        return false;
    }
    let mut saturated: usize = 0;
    let mut i: usize = 0;
    while i < quantized.len()
        invariant
            i <= quantized@.len(),
            quant_limit > 0,
            forall|k: int| 0 <= k < quantized@.len() ==> #[trigger] quantized@[k] != i16::MIN,
            saturated == count_saturated(quantized@.take(i as int), quant_limit as int),
            saturated <= i,
        decreases quantized@.len() - i,
    {
        let q = quantized[i];
        assert(quantized@.take(i + 1).drop_last() =~= quantized@.take(i as int));
        if q >= quant_limit || q <= -quant_limit {
            saturated += 1;
        }
        i += 1;
    }
    assert(quantized@.take(quantized@.len() as int) =~= quantized@);
    let threshold: usize = if plan.table_idx == 2 {
        12
    } else {
        10
    };
    saturated > threshold
}


/// The fields `f(0)`, ..., `f(n - 1)` one after another.
pub open spec fn concat_fields(f: spec_fn(int) -> Seq<u8>, n: nat) -> Seq<u8>
    decreases n,
{
    if n == 0 {
        Seq::empty()
    } else {
        concat_fields(f, (n - 1) as nat) + f(n - 1)
    }
}

/// The first `a` fields are a prefix of the first `b` fields.
pub proof fn lemma_concat_fields_prefix(f: spec_fn(int) -> Seq<u8>, a: nat, b: nat)
    requires
        a <= b,
    ensures
        concat_fields(f, a).len() <= concat_fields(f, b).len(),
        concat_fields(f, b).subrange(0, concat_fields(f, a).len() as int) == concat_fields(f, a),
    decreases b - a,
{
    if a < b {
        lemma_concat_fields_prefix(f, a, (b - 1) as nat);
        let pa = concat_fields(f, a);
        let pb1 = concat_fields(f, (b - 1) as nat);
        assert(concat_fields(f, b).subrange(0, pa.len() as int) =~= pb1.subrange(0, pa.len() as int));
    } else {
        assert(concat_fields(f, b).subrange(0, concat_fields(f, a).len() as int) =~= concat_fields(f, a));
    }
}

/// Fields of one width `w` take `n * w` bits, field `k` at bit `k * w`.
pub proof fn lemma_concat_fields_uniform(f: spec_fn(int) -> Seq<u8>, n: nat, w: nat)
    requires
        forall|k: int| 0 <= k < n ==> (#[trigger] f(k)).len() == w,
    ensures
        concat_fields(f, n).len() == n * w,
        forall|k: int|
            0 <= k < n ==> concat_fields(f, n).subrange(k * w, k * w + w) == #[trigger] f(k),
    decreases n,
{
    if n > 0 {
        let m = (n - 1) as nat;
        lemma_concat_fields_uniform(f, m, w);
        assert(m * w + w == n * w) by (nonlinear_arith)
            requires
                m == n - 1,
        ;
        let prev = concat_fields(f, m);
        let all = concat_fields(f, n);
        assert(all == prev + f(m as int));
        assert(f(m as int).len() == w);
        assert forall|k: int| 0 <= k < n implies all.subrange(k * w, k * w + w) == #[trigger] f(k) by {
            if k < m {
                assert(k * w + w <= m * w) by (nonlinear_arith)
                    requires
                        k < m,
                        0 <= k,
                ;
                assert(0 <= k * w) by (nonlinear_arith)
                    requires
                        0 <= k,
                ;
                assert(all.subrange(k * w, k * w + w) =~= prev.subrange(k * w, k * w + w));
            } else {
                assert(k * w == m * w);
                assert(all.subrange(k * w, k * w + w) =~= f(k));
            }
        }
    } else {
        assert(n * w == 0) by (nonlinear_arith)
            requires
                n == 0,
        ;
    }
}

/// The 4-bit code of the `k`-th pair of table-1 mantissas.
pub open spec fn pair_code_field(ms: Seq<i16>, k: int) -> Seq<u8> {
    bits_msb(
        (4 * spec_pair_code(ms[2 * k] as int) + spec_pair_code(ms[2 * k + 1] as int)) as u32,
        4,
    )
}

/// The `w`-bit two's complement code of mantissa `m`.
pub open spec fn signed_field(m: i16, w: nat) -> Seq<u8> {
    bits_msb(spec_signed_bits(m as int, w) as u32, w)
}

/// Table-1 pair codes of the first `npairs` pairs of `ms`.
pub open spec fn pair_code_fields(ms: Seq<i16>, npairs: nat) -> Seq<u8> {
    concat_fields(|k: int| pair_code_field(ms, k), npairs)
}

/// `w`-bit codes of the first `n` mantissas of `ms`.
pub open spec fn signed_fields(ms: Seq<i16>, n: nat, w: nat) -> Seq<u8> {
    concat_fields(|k: int| signed_field(ms[k], w), n)
}

/// Fixed-length mantissa codes of a block coded with table `table`.
pub open spec fn clc_mantissa_bits(table: int, ms: Seq<i16>) -> Seq<u8> {
    if table == 1 {
        pair_code_fields(ms, ms.len() / 2)
    } else if 2 <= table <= 7 {
        signed_fields(ms, ms.len(), spec_clc_bits(table))
    } else {
        Seq::empty()
    }
}

/// Writes the fixed-length mantissa codes of a block.
pub fn write_bfu_clc(plan: &BfuCoding, bw: &mut BitWriter)
    requires
        old(bw).wf(),
        old(bw).written().len() + clc_mantissa_bits(plan.table_idx as int, plan.mantissas@).len()
            <= usize::MAX,
    ensures
        final(bw).wf(),
        final(bw).written() == old(bw).written() + clc_mantissa_bits(
            plan.table_idx as int,
            plan.mantissas@,
        ),
{
    let ghost ms = plan.mantissas@;
    let ghost w0 = bw.written();
    if plan.table_idx == 1 {
        let npairs = plan.mantissas.len() / 2;
        let mut pair: usize = 0;
        while pair < npairs
            invariant
                ms == plan.mantissas@,
                npairs == ms.len() / 2,
                npairs * 2 <= ms.len(),
                ms.len() <= usize::MAX,
                pair <= npairs,
                bw.wf(),
                w0.len() + pair_code_fields(ms, npairs as nat).len() <= usize::MAX,
                bw.written() == w0 + pair_code_fields(ms, pair as nat),
            decreases npairs - pair,
        {
            proof {
                lemma_concat_fields_prefix(|k: int| pair_code_field(ms, k), (pair + 1) as nat, npairs as nat);
            }
            let code = selector1_clc_pair_bits(plan.mantissas[pair * 2], plan.mantissas[pair * 2 + 1]);
            bw.write_bits(code, 4);
            pair += 1;
            assert(bw.written() =~= w0 + pair_code_fields(ms, pair as nat));
        }
    } else if plan.table_idx >= 2 && plan.table_idx <= 7 {
        let w = clc_bits(plan.table_idx as u32);
        let n = plan.mantissas.len();
        let mut i: usize = 0;
        while i < n
            invariant
                ms == plan.mantissas@,
                n == ms.len(),
                2 <= plan.table_idx <= 7,
                w == spec_clc_bits(plan.table_idx as int),
                3 <= w <= 6,
                i <= n,
                bw.wf(),
                w0.len() + signed_fields(ms, n as nat, w as nat).len() <= usize::MAX,
                bw.written() == w0 + signed_fields(ms, i as nat, w as nat),
            decreases n - i,
        {
            proof {
                lemma_concat_fields_prefix(|k: int| signed_field(ms[k], w as nat), (i + 1) as nat, n as nat);
            }
            let code = make_signed_bits(plan.mantissas[i], w);
            bw.write_bits(code, w);
            i += 1;
            assert(bw.written() =~= w0 + signed_fields(ms, i as nat, w as nat));
        }
    } else {
        assert(bw.written() =~= w0 + clc_mantissa_bits(plan.table_idx as int, ms));
    }
}

/// The Huffman code of symbol `sym` of spectral table `t`.
pub open spec fn vlc_code_field(t: int, sym: int) -> Seq<u8> {
    bits_msb(spec_huff_codes(t)[sym].0, spec_huff_codes(t)[sym].1 as nat)
}

/// Huffman codes of table 1 for the first `npairs` pairs, each pair's symbol
/// read at its first position.
pub open spec fn vlc_pair_fields(syms: Seq<u8>, npairs: nat) -> Seq<u8> {
    concat_fields(|k: int| vlc_code_field(0, syms[2 * k] as int), npairs)
}

/// Huffman codes of table `t + 1` for the first `n` symbols.
pub open spec fn vlc_scalar_fields(t: int, syms: Seq<u8>, n: nat) -> Seq<u8> {
    concat_fields(|k: int| vlc_code_field(t, syms[k] as int), n)
}

/// Huffman codes of a block of `n` mantissas coded with table `table` (1 to 7).
pub open spec fn vlc_mantissa_bits(table: int, n: nat, syms: Seq<u8>) -> Seq<u8> {
    if table == 1 {
        vlc_pair_fields(syms, n / 2)
    } else {
        vlc_scalar_fields(table - 1, syms, n)
    }
}

/// The symbol of the `k`-th pair of a table-1 block.
pub open spec fn pair_symbol(syms: Seq<u8>, k: int) -> u8 {
    syms[2 * k]
}

/// The symbols that the Huffman coding of a block of `n` mantissas reads
/// exist in its table.
pub open spec fn vlc_symbols_ok(table: int, n: nat, syms: Seq<u8>) -> bool {
    if table == 1 {
        &&& 2 * (n / 2) <= syms.len() + 1
        &&& forall|k: int| 0 <= k < n / 2 ==> #[trigger] pair_symbol(syms, k) < 9
    } else {
        &&& n <= syms.len()
        &&& forall|k: int| 0 <= k < n ==> #[trigger] syms[k] < huff_tab_size(table - 1)
    }
}

/// Writes the Huffman codes of a block.
pub fn write_bfu_vlc(plan: &BfuCoding, tables: &[VlcTable], bw: &mut BitWriter)
    requires
        1 <= plan.table_idx <= 7,
        is_spectral_vlc(tables@),
        vlc_symbols_ok(plan.table_idx as int, plan.mantissas@.len(), plan.vlc_symbols@),
        old(bw).wf(),
        old(bw).written().len() + vlc_mantissa_bits(
            plan.table_idx as int,
            plan.mantissas@.len(),
            plan.vlc_symbols@,
        ).len() <= usize::MAX,
    ensures
        final(bw).wf(),
        final(bw).written() == old(bw).written() + vlc_mantissa_bits(
            plan.table_idx as int,
            plan.mantissas@.len(),
            plan.vlc_symbols@,
        ),
{
    let ghost syms = plan.vlc_symbols@;
    let ghost w0 = bw.written();
    let t = plan.table_idx - 1;
    let table = &tables[t];
    if plan.table_idx == 1 {
        let npairs = plan.mantissas.len() / 2;
        let mut pair: usize = 0;
        while pair < npairs
            invariant
                syms == plan.vlc_symbols@,
                npairs == plan.mantissas@.len() / 2,
                npairs * 2 <= plan.mantissas@.len(),
                t == 0,
                *table == tables@[0],
                is_spectral_vlc(tables@),
                vlc_symbols_ok(1, plan.mantissas@.len(), syms),
                pair <= npairs,
                bw.wf(),
                plan.mantissas@.len() <= usize::MAX,
                w0.len() + vlc_pair_fields(syms, npairs as nat).len() <= usize::MAX,
                bw.written() == w0 + vlc_pair_fields(syms, pair as nat),
            decreases npairs - pair,
        {
            proof {
                lemma_concat_fields_prefix(
                    |k: int| vlc_code_field(0, syms[2 * k] as int),
                    (pair + 1) as nat,
                    npairs as nat,
                );
            }
            assert(2 * pair < syms.len() && pair_symbol(syms, pair as int) < 9);
            let symbol = plan.vlc_symbols[pair * 2] as usize;
            let entry = &table.entries[symbol];
            proof {
                lemma_spectral_code_lens(0, symbol as int);
            }
            assert(entry.len == spec_huff_codes(0)[symbol as int].1 && entry.code
                == spec_huff_codes(0)[symbol as int].0);
            bw.write_bits(entry.code, entry.len as usize);
            pair += 1;
            assert(bw.written() =~= w0 + vlc_pair_fields(syms, pair as nat));
        }
    } else {
        let n = plan.mantissas.len();
        let mut i: usize = 0;
        while i < n
            invariant
                syms == plan.vlc_symbols@,
                n == plan.mantissas@.len(),
                t == plan.table_idx - 1,
                1 <= t < 7,
                *table == tables@[t as int],
                is_spectral_vlc(tables@),
                vlc_symbols_ok(plan.table_idx as int, n as nat, syms),
                i <= n,
                bw.wf(),
                w0.len() + vlc_scalar_fields(t as int, syms, n as nat).len() <= usize::MAX,
                bw.written() == w0 + vlc_scalar_fields(t as int, syms, i as nat),
            decreases n - i,
        {
            proof {
                lemma_concat_fields_prefix(
                    |k: int| vlc_code_field(t as int, syms[k] as int),
                    (i + 1) as nat,
                    n as nat,
                );
            }
            let symbol = plan.vlc_symbols[i] as usize;
            assert(symbol < huff_tab_size(t as int));
            let entry = &table.entries[symbol];
            proof {
                lemma_spectral_code_lens(t as int, symbol as int);
            }
            assert(entry.len == spec_huff_codes(t as int)[symbol as int].1 && entry.code
                == spec_huff_codes(t as int)[symbol as int].0);
            bw.write_bits(entry.code, entry.len as usize);
            i += 1;
            assert(bw.written() =~= w0 + vlc_scalar_fields(t as int, syms, i as nat));
        }
    }
}


/// Length of the Huffman code of symbol `sym` of spectral table `t`.
pub open spec fn huff_len(t: int, sym: int) -> nat {
    spec_huff_codes(t)[sym].1 as nat
}

/// Total Huffman code length of the first `npairs` pairs of `q` in table 1.
pub open spec fn pair_vlc_len(q: Seq<i16>, npairs: nat) -> nat
    decreases npairs,
{
    if npairs == 0 {
        0
    } else {
        pair_vlc_len(q, (npairs - 1) as nat) + huff_len(
            0,
            spec_selector1_symbol(q[2 * npairs - 2] as int, q[2 * npairs - 1] as int),
        )
    }
}

/// Total Huffman code length of the first `n` values of `q` in table `t + 1`.
pub open spec fn scalar_vlc_len(t: int, q: Seq<i16>, n: nat) -> nat
    decreases n,
{
    if n == 0 {
        0
    } else {
        scalar_vlc_len(t, q, (n - 1) as nat) + huff_len(t, spec_scalar_symbol(q[n - 1] as int))
    }
}

/// The mantissas a block holds once `q` is coded with table `table` (1 to 7):
/// table 1 codes whole pairs, so an odd last value stays 0.
pub open spec fn coded_mantissas(table: int, q: Seq<i16>) -> Seq<i16> {
    if table == 1 {
        Seq::new(q.len(), |i: int| if i < 2 * (q.len() / 2) { q[i] } else { 0i16 })
    } else {
        q
    }
}

/// The Huffman symbols a block holds once `q` is coded with table `table`:
/// table 1 keeps one symbol per pair at the pair's first position.
pub open spec fn coded_symbols(table: int, q: Seq<i16>) -> Seq<u8> {
    if table == 1 {
        Seq::new(
            q.len(),
            |i: int|
                if i % 2 == 0 && i + 1 < q.len() {
                    spec_selector1_symbol(q[i] as int, q[i + 1] as int) as u8
                } else {
                    0u8
                },
        )
    } else {
        Seq::new(q.len(), |i: int| spec_scalar_symbol(q[i] as int) as u8)
    }
}

/// Total Huffman code length of `q` coded with table `table`.
pub open spec fn coded_vlc_bits(table: int, q: Seq<i16>) -> nat {
    if table == 1 {
        pair_vlc_len(q, q.len() / 2)
    } else {
        scalar_vlc_len(table - 1, q, q.len())
    }
}

/// Total fixed-length code size of `q` coded with table `table`.
pub open spec fn coded_clc_bits(table: int, q: Seq<i16>) -> nat {
    if table == 1 {
        4 * (q.len() / 2)
    } else {
        spec_clc_bits(table) * q.len()
    }
}

/// The quantized values can be coded with table `table`: each has a Huffman
/// symbol in the table (table 1 always has one).
pub open spec fn quantized_codable(table: int, q: Seq<i16>) -> bool {
    table >= 2 ==> forall|i: int|
        0 <= i < q.len() ==> #[trigger] q[i] != i16::MIN && spec_scalar_symbol(q[i] as int)
            < huff_tab_size(table - 1)
}

proof fn lemma_pair_vlc_len_bound(q: Seq<i16>, npairs: nat)
    requires
        2 * npairs <= q.len(),
    ensures
        pair_vlc_len(q, npairs) <= 8 * npairs,
    decreases npairs,
{
    if npairs > 0 {
        lemma_pair_vlc_len_bound(q, (npairs - 1) as nat);
        lemma_spectral_code_lens(
            0,
            spec_selector1_symbol(q[2 * npairs - 2] as int, q[2 * npairs - 1] as int),
        );
    }
}

proof fn lemma_scalar_vlc_len_bound(t: int, q: Seq<i16>, n: nat)
    requires
        1 <= t < 7,
        n <= q.len(),
        forall|i: int|
            0 <= i < n ==> #[trigger] spec_scalar_symbol(q[i] as int) < huff_tab_size(t),
    ensures
        scalar_vlc_len(t, q, n) <= 8 * n,
    decreases n,
{
    if n > 0 {
        lemma_scalar_vlc_len_bound(t, q, (n - 1) as nat);
        assert(spec_scalar_symbol(q[n - 1] as int) >= 0);
        lemma_spectral_code_lens(t, spec_scalar_symbol(q[n - 1] as int));
    }
}

/// Stores the quantized values `quantized` of a block in its plan: the
/// mantissas, their Huffman symbols and the bit cost of both coding modes;
/// the bit count is set to the fixed-length cost. A plan with table 0 is
/// cleared.
pub fn code_quantized_mantissas(plan: &mut BfuCoding, quantized: &[i16], tables: &[VlcTable])
    requires
        old(plan).table_idx <= 7,
        quantized@.len() == old(plan).mantissas@.len(),
        quantized@.len() == old(plan).vlc_symbols@.len(),
        quantized@.len() <= usize::MAX / 8,
        is_spectral_vlc(tables@),
        quantized_codable(old(plan).table_idx as int, quantized@),
    ensures
        final(plan).block == old(plan).block,
        final(plan).table_idx == old(plan).table_idx,
        final(plan).sf_idx == old(plan).sf_idx,
        old(plan).table_idx == 0 ==> {
            &&& final(plan).mantissas@ == Seq::new(quantized@.len(), |i: int| 0i16)
            &&& final(plan).vlc_symbols@ == Seq::new(quantized@.len(), |i: int| 0u8)
            &&& final(plan).vlc_bits == 0
            &&& final(plan).clc_bits == 0
            &&& final(plan).bit_count == 0
        },
        old(plan).table_idx != 0 ==> {
            &&& final(plan).mantissas@ == coded_mantissas(old(plan).table_idx as int, quantized@)
            &&& final(plan).vlc_symbols@ == coded_symbols(old(plan).table_idx as int, quantized@)
            &&& final(plan).vlc_bits == coded_vlc_bits(old(plan).table_idx as int, quantized@)
            &&& final(plan).clc_bits == coded_clc_bits(old(plan).table_idx as int, quantized@)
            &&& final(plan).bit_count == final(plan).clc_bits
        },
{
    let ghost q = quantized@;
    let n = quantized.len();
    plan.bit_count = 0;
    plan.vlc_bits = 0;
    plan.clc_bits = 0;
    let mut i: usize = 0;
    while i < n
        invariant
            n == q.len(),
            i <= n,
            plan.mantissas@.len() == n,
            plan.vlc_symbols@.len() == n,
            forall|j: int| 0 <= j < i ==> #[trigger] plan.mantissas@[j] == 0i16,
            forall|j: int| 0 <= j < i ==> #[trigger] plan.vlc_symbols@[j] == 0u8,
            plan.block == old(plan).block,
            plan.table_idx == old(plan).table_idx,
            plan.sf_idx == old(plan).sf_idx,
            plan.vlc_bits == 0,
            plan.clc_bits == 0,
            plan.bit_count == 0,
        decreases n - i,
    {
        plan.mantissas[i] = 0;
        plan.vlc_symbols[i] = 0;
        i += 1;
    }
    if plan.table_idx == 0 {
        assert(plan.mantissas@ =~= Seq::new(n as nat, |j: int| 0i16));
        assert(plan.vlc_symbols@ =~= Seq::new(n as nat, |j: int| 0u8));
        return;
    }
    if plan.table_idx == 1 {
        let table = &tables[0];
        let npairs = n / 2;
        let mut pair: usize = 0;
        while pair < npairs
            invariant
                q == quantized@,
                n == q.len(),
                npairs == n / 2,
                npairs * 2 <= n,
                n <= usize::MAX / 8,
                pair <= npairs,
                *table == tables@[0],
                is_spectral_vlc(tables@),
                plan.table_idx == 1,
                plan.block == old(plan).block,
                plan.sf_idx == old(plan).sf_idx,
                plan.mantissas@.len() == n,
                plan.vlc_symbols@.len() == n,
                forall|j: int|
                    0 <= j < n ==> #[trigger] plan.mantissas@[j] == if j < 2 * pair {
                        q[j]
                    } else {
                        0i16
                    },
                forall|j: int|
                    0 <= j < n ==> #[trigger] plan.vlc_symbols@[j] == if j < 2 * pair && j % 2
                        == 0 {
                        spec_selector1_symbol(q[j] as int, q[j + 1] as int) as u8
                    } else {
                        0u8
                    },
                plan.vlc_bits == pair_vlc_len(q, pair as nat),
                pair_vlc_len(q, pair as nat) <= 8 * pair,
                plan.clc_bits == 0,
            decreases npairs - pair,
        {
            let qa = quantized[pair * 2];
            let qb = quantized[pair * 2 + 1];
            let symbol = selector1_vlc_symbol(qa, qb);
            plan.mantissas[pair * 2] = qa;
            plan.mantissas[pair * 2 + 1] = qb;
            plan.vlc_symbols[pair * 2] = symbol;
            proof {
                lemma_spectral_code_lens(0, symbol as int);
                lemma_pair_vlc_len_bound(q, (pair + 1) as nat);
            }
            assert(table.entries@[symbol as int].len == spec_huff_codes(0)[symbol as int].1);
            plan.vlc_bits += table.entries[symbol as usize].len as usize;
            pair += 1;
        }
        plan.clc_bits = 4 * npairs;
        assert(plan.mantissas@ =~= coded_mantissas(1, q));
        assert(plan.vlc_symbols@ =~= coded_symbols(1, q));
    } else {
        let t = plan.table_idx - 1;
        let table = &tables[t];
        let w = clc_bits(plan.table_idx as u32);
        let mut k: usize = 0;
        while k < n
            invariant
                q == quantized@,
                n == q.len(),
                n <= usize::MAX / 8,
                k <= n,
                t == plan.table_idx - 1,
                1 <= t < 7,
                *table == tables@[t as int],
                is_spectral_vlc(tables@),
                quantized_codable(plan.table_idx as int, q),
                plan.block == old(plan).block,
                plan.table_idx == old(plan).table_idx,
                plan.sf_idx == old(plan).sf_idx,
                plan.mantissas@.len() == n,
                plan.vlc_symbols@.len() == n,
                forall|j: int|
                    0 <= j < n ==> #[trigger] plan.mantissas@[j] == if j < k {
                        q[j]
                    } else {
                        0i16
                    },
                forall|j: int|
                    0 <= j < n ==> #[trigger] plan.vlc_symbols@[j] == if j < k {
                        spec_scalar_symbol(q[j] as int) as u8
                    } else {
                        0u8
                    },
                plan.vlc_bits == scalar_vlc_len(t as int, q, k as nat),
                scalar_vlc_len(t as int, q, k as nat) <= 8 * k,
                plan.clc_bits == 0,
            decreases n - k,
        {
            let v = quantized[k];
            assert(v != i16::MIN);
            let symbol = scalar_vlc_symbol(v);
            plan.mantissas[k] = v;
            plan.vlc_symbols[k] = symbol;
            assert(spec_scalar_symbol(q[k as int] as int) < huff_tab_size(t as int));
            proof {
                lemma_spectral_code_lens(t as int, symbol as int);
                lemma_scalar_vlc_len_bound(t as int, q, (k + 1) as nat);
            }
            assert(table.entries@[symbol as int].len == spec_huff_codes(t as int)[symbol as int].1);
            plan.vlc_bits += table.entries[symbol as usize].len as usize;
            k += 1;
        }
        assert(w * n <= 6 * n) by (nonlinear_arith)
            requires
                w <= 6,
        ;
        plan.clc_bits = w * n;
        assert(plan.mantissas@ =~= coded_mantissas(plan.table_idx as int, q));
        assert(plan.vlc_symbols@ =~= coded_symbols(plan.table_idx as int, q));
    }
    plan.bit_count = plan.clc_bits;
}

} // verus!
