//! The bit layout of one channel's ATRAC3 sound unit and its writer.
use vstd::prelude::*;
use crate::huffman::{BitWriter, VlcTable, bits_msb, bit_at, packs, is_spectral_vlc, spectral_vlc};
use crate::sound_unit::{
    BfuCoding, SyntaxConfig, concat_fields, lemma_concat_fields_prefix, clc_mantissa_bits,
    vlc_mantissa_bits, vlc_symbols_ok, spec_num_blocks, spec_qmf_band_count, sent_count,
    spec_prefers_vlc, cost_sums_fit, num_coded_blocks, header_qmf_band_count, channel_prefers_vlc,
    write_bfu_clc, write_bfu_vlc, symbols_are_ok,
};
use crate::tonal::{TonalComponent, tonal_bits, tonal_writable, write_tonal_components};

verus! {

/// The smaller of `a` and `b`.
pub open spec fn min_nat(a: nat, b: nat) -> nat {
    if a <= b {
        a
    } else {
        b
    }
}

/// One gain point: a 4-bit level and a 5-bit location, each kept to its field.
pub open spec fn gain_point_field(p: (u8, u8)) -> Seq<u8> {
    bits_msb(min_nat(p.0 as nat, 15) as u32, 4) + bits_msb(min_nat(p.1 as nat, 31) as u32, 5)
}

/// The first `n` gain points of `points`.
pub open spec fn gain_point_fields(points: Seq<(u8, u8)>, n: nat) -> Seq<u8> {
    concat_fields(|k: int| gain_point_field(points[k]), n)
}

/// Gain control of one QMF band: a 3-bit point count and at most 7 points.
pub open spec fn band_gain_bits(points: Seq<(u8, u8)>) -> Seq<u8> {
    bits_msb(min_nat(points.len(), 7) as u32, 3) + gain_point_fields(points, min_nat(points.len(), 7))
}

/// Gain control of the first `n` QMF bands.
pub open spec fn gain_fields(gains: Seq<Vec<(u8, u8)>>, n: nat) -> Seq<u8> {
    concat_fields(|b: int| band_gain_bits(gains[b]@), n)
}

/// Gain control of a unit with `qmf` bands (bands without a list send nothing).
pub open spec fn gain_bits(gains: Seq<Vec<(u8, u8)>>, qmf: nat) -> Seq<u8> {
    gain_fields(gains, min_nat(qmf, gains.len()))
}

/// 3-bit table selectors of the first `n` plans.
pub open spec fn selector_fields(plans: Seq<BfuCoding>, n: nat) -> Seq<u8> {
    concat_fields(|k: int| bits_msb(plans[k].table_idx as u32, 3), n)
}

/// The 6-bit scale factor of a coded plan; nothing for an uncoded one.
pub open spec fn sf_field(p: BfuCoding) -> Seq<u8> {
    if p.table_idx != 0 {
        bits_msb(p.sf_idx as u32, 6)
    } else {
        Seq::empty()
    }
}

/// Scale factors of the first `n` plans.
pub open spec fn sf_fields(plans: Seq<BfuCoding>, n: nat) -> Seq<u8> {
    concat_fields(|k: int| sf_field(plans[k]), n)
}

/// The mantissa codes of a plan: none for an uncoded plan, else Huffman or
/// fixed-length codes.
pub open spec fn spectral_field(p: BfuCoding, vlc: bool) -> Seq<u8> {
    if p.table_idx == 0 {
        Seq::empty()
    } else if vlc {
        vlc_mantissa_bits(p.table_idx as int, p.mantissas@.len(), p.vlc_symbols@)
    } else {
        clc_mantissa_bits(p.table_idx as int, p.mantissas@)
    }
}

/// Mantissa codes of the first `n` plans.
pub open spec fn spectral_fields(plans: Seq<BfuCoding>, n: nat, vlc: bool) -> Seq<u8> {
    concat_fields(|k: int| spectral_field(plans[k], vlc), n)
}

/// The header of a sound unit: the 6-bit unit id 0x28, the number of QMF
/// bands less one, gain control and tonal components.
pub open spec fn unit_head_bits(
    plans: Seq<BfuCoding>,
    gains: Seq<Vec<(u8, u8)>>,
    tonal: Seq<TonalComponent>,
    config: SyntaxConfig,
) -> Seq<u8> {
    let qmf = spec_qmf_band_count(spec_num_blocks(plans) as int, config.static_qmf_bands) as nat;
    bits_msb(0x28, 6) + bits_msb((qmf - 1) as u32, 2) + gain_bits(gains, qmf) + tonal_bits(tonal, qmf)
}

/// The spectral part of a sound unit: the number of blocks less one, the
/// coding mode (0: Huffman, 1: fixed length), the selectors, the scale factors
/// of coded blocks and their mantissa codes.
pub open spec fn unit_spectrum_bits(plans: Seq<BfuCoding>, config: SyntaxConfig) -> Seq<u8> {
    let nb = spec_num_blocks(plans);
    let vlc = spec_prefers_vlc(plans, config);
    let sent = sent_count(plans);
    bits_msb((nb - 1) as u32, 5) + bits_msb(
        if vlc {
            0u32
        } else {
            1u32
        },
        1,
    ) + selector_fields(plans, sent) + sf_fields(plans, sent) + spectral_fields(plans, sent, vlc)
}

/// The bits of one channel's sound unit.
pub open spec fn unit_bits(
    plans: Seq<BfuCoding>,
    gains: Seq<Vec<(u8, u8)>>,
    tonal: Seq<TonalComponent>,
    config: SyntaxConfig,
) -> Seq<u8> {
    unit_head_bits(plans, gains, tonal, config) + unit_spectrum_bits(plans, config)
}

/// The plans can be written: in Huffman mode every sent coded plan uses a
/// table 1 to 7 whose symbols it holds.
pub open spec fn plans_writable(plans: Seq<BfuCoding>, config: SyntaxConfig) -> bool {
    spec_prefers_vlc(plans, config) ==> forall|k: int|
        0 <= k < sent_count(plans) && #[trigger] plans[k].table_idx != 0 ==> {
            &&& plans[k].table_idx <= 7
            &&& vlc_symbols_ok(plans[k].table_idx as int, plans[k].mantissas@.len(), plans[k].vlc_symbols@)
        }
}

/// Whether the plans can be written (see `plans_writable`).
pub fn plans_are_writable(plans: &[BfuCoding], config: &SyntaxConfig) -> (r: bool)
    requires
        cost_sums_fit(plans@),
    ensures
        r == plans_writable(plans@, *config),
{
    if !channel_prefers_vlc(plans, config) {
        return true;
    }
    let n = num_coded_blocks(plans);
    let limit = if n <= plans.len() {
        n
    } else {
        plans.len()
    };
    assert(limit == sent_count(plans@));
    let mut k: usize = 0;
    while k < limit
        invariant
            spec_prefers_vlc(plans@, *config),
            limit == sent_count(plans@),
            limit <= plans@.len(),
            k <= limit,
            forall|j: int|
                0 <= j < k && #[trigger] plans@[j].table_idx != 0 ==> {
                    &&& plans@[j].table_idx <= 7
                    &&& vlc_symbols_ok(
                        plans@[j].table_idx as int,
                        plans@[j].mantissas@.len(),
                        plans@[j].vlc_symbols@,
                    )
                },
        decreases limit - k,
    {
        let p = &plans[k];
        if p.table_idx != 0 {
            if p.table_idx > 7 {
                return false;
            }
            if !symbols_are_ok(p.table_idx, p.mantissas.len(), p.vlc_symbols.as_slice()) {
                return false;
            }
        }
        k += 1;
    }
    true
}

/// Writes the gain control of one QMF band.
fn write_band_gains(points: &Vec<(u8, u8)>, bw: &mut BitWriter)
    requires
        old(bw).wf(),
        old(bw).written().len() + band_gain_bits(points@).len() <= usize::MAX,
    ensures
        final(bw).wf(),
        final(bw).written() == old(bw).written() + band_gain_bits(points@),
{
    let ghost w0 = bw.written();
    let ghost ps = points@;
    let n: usize = if points.len() <= 7 {
        points.len()
    } else {
        7
    };
    bw.write_bits(n as u32, 3);
    let ghost w1 = bw.written();
    let mut k: usize = 0;
    while k < n
        invariant
            ps == points@,
            n == min_nat(ps.len(), 7),
            k <= n,
            bw.wf(),
            w1.len() + gain_point_fields(ps, n as nat).len() <= usize::MAX,
            bw.written() == w1 + gain_point_fields(ps, k as nat),
        decreases n - k,
    {
        proof {
            lemma_concat_fields_prefix(|k: int| gain_point_field(ps[k]), (k + 1) as nat, n as nat);
        }
        let (level, location) = points[k];
        let lv: u8 = if level <= 15 {
            level
        } else {
            15
        };
        let loc: u8 = if location <= 31 {
            location
        } else {
            31
        };
        bw.write_bits(lv as u32, 4);
        bw.write_bits(loc as u32, 5);
        k += 1;
        assert(bw.written() =~= w1 + gain_point_fields(ps, k as nat));
    }
}

/// Writes the gain control of the first `qmf_bands` bands.
fn write_gain_control(gains: &[Vec<(u8, u8)>], qmf_bands: usize, bw: &mut BitWriter)
    requires
        old(bw).wf(),
        old(bw).written().len() + gain_bits(gains@, qmf_bands as nat).len() <= usize::MAX,
    ensures
        final(bw).wf(),
        final(bw).written() == old(bw).written() + gain_bits(gains@, qmf_bands as nat),
{
    let ghost w0 = bw.written();
    let ghost gs = gains@;
    let n: usize = if qmf_bands <= gains.len() {
        qmf_bands
    } else {
        gains.len()
    };
    let mut b: usize = 0;
    while b < n
        invariant
            gs == gains@,
            n == min_nat(qmf_bands as nat, gs.len()),
            b <= n,
            bw.wf(),
            w0.len() + gain_fields(gs, n as nat).len() <= usize::MAX,
            bw.written() == w0 + gain_fields(gs, b as nat),
        decreases n - b,
    {
        proof {
            lemma_concat_fields_prefix(|b: int| band_gain_bits(gs[b]@), (b + 1) as nat, n as nat);
        }
        write_band_gains(&gains[b], bw);
        b += 1;
        assert(bw.written() =~= w0 + gain_fields(gs, b as nat));
    }
}

/// The bytes `out` hold `bits` from the first bit on, cut or padded with zero
/// bits to `len` bytes.
pub open spec fn holds_bits(out: Seq<u8>, bits: Seq<u8>, len: nat) -> bool {
    &&& out.len() == len
    &&& forall|i: int|
        0 <= i < len * 8 ==> #[trigger] bit_at(out, i) == if i < bits.len() {
            bits[i]
        } else {
            0
        }
}

/// Writes one channel's sound unit into `budget_bytes` bytes: the unit's bits,
/// cut or padded with zero bits to the budget.
pub fn write_channel_sound_unit(
    plans: &[BfuCoding],
    gains: &[Vec<(u8, u8)>],
    tonal_components: &[TonalComponent],
    budget_bytes: usize,
    config: &SyntaxConfig,
) -> (out: Vec<u8>)
    requires
        cost_sums_fit(plans@),
        plans_writable(plans@, *config),
        tonal_writable(tonal_components@),
        unit_bits(plans@, gains@, tonal_components@, *config).len() <= usize::MAX,
    ensures
        holds_bits(
            out@,
            unit_bits(plans@, gains@, tonal_components@, *config),
            budget_bytes as nat,
        ),
{
    let ghost ps = plans@;
    let ghost total = unit_bits(ps, gains@, tonal_components@, *config);
    let ghost head = unit_head_bits(ps, gains@, tonal_components@, *config);
    let mut bw = BitWriter::new();
    bw.write_bits(0x28, 6);
    let num_blocks = num_coded_blocks(plans);
    let qmf_bands = header_qmf_band_count(num_blocks, config);
    bw.write_bits((qmf_bands - 1) as u32, 2);
    write_gain_control(gains, qmf_bands, &mut bw);
    write_tonal_components(tonal_components, qmf_bands, &mut bw);
    assert(bw.written() =~= head);
    let use_vlc = channel_prefers_vlc(plans, config);
    let coding_mode: u32 = if use_vlc {
        0
    } else {
        1
    };
    bw.write_bits((num_blocks - 1) as u32, 5);
    bw.write_bits(coding_mode, 1);
    let sent: usize = if num_blocks <= plans.len() {
        num_blocks
    } else {
        plans.len()
    };
    assert(sent == sent_count(ps));
    let ghost w1 = bw.written();
    let ghost sels = selector_fields(ps, sent as nat);
    let ghost sfs = sf_fields(ps, sent as nat);
    let ghost specs = spectral_fields(ps, sent as nat, use_vlc);
    assert(total =~= w1 + sels + sfs + specs);
    let mut k: usize = 0;
    while k < sent
        invariant
            ps == plans@,
            sent <= ps.len(),
            sels == selector_fields(ps, sent as nat),
            k <= sent,
            bw.wf(),
            w1.len() + sels.len() <= usize::MAX,
            bw.written() == w1 + selector_fields(ps, k as nat),
        decreases sent - k,
    {
        proof {
            lemma_concat_fields_prefix(|k: int| bits_msb(ps[k].table_idx as u32, 3), (k + 1) as nat, sent as nat);
        }
        bw.write_bits(plans[k].table_idx as u32, 3);
        k += 1;
        assert(bw.written() =~= w1 + selector_fields(ps, k as nat));
    }
    let ghost w2 = bw.written();
    let mut k: usize = 0;
    while k < sent
        invariant
            ps == plans@,
            sent <= ps.len(),
            sfs == sf_fields(ps, sent as nat),
            k <= sent,
            bw.wf(),
            w2.len() + sfs.len() <= usize::MAX,
            bw.written() == w2 + sf_fields(ps, k as nat),
        decreases sent - k,
    {
        proof {
            lemma_concat_fields_prefix(|k: int| sf_field(ps[k]), (k + 1) as nat, sent as nat);
        }
        if plans[k].table_idx != 0 {
            bw.write_bits(plans[k].sf_idx as u32, 6);
        }
        k += 1;
        assert(bw.written() =~= w2 + sf_fields(ps, k as nat));
    }
    let ghost w3 = bw.written();
    let tables: Vec<VlcTable> = if use_vlc {
        spectral_vlc()
    } else {
        Vec::new()
    };
    let mut k: usize = 0;
    while k < sent
        invariant
            ps == plans@,
            sent <= ps.len(),
            sent == sent_count(ps),
            use_vlc == spec_prefers_vlc(ps, *config),
            plans_writable(ps, *config),
            use_vlc ==> is_spectral_vlc(tables@),
            specs == spectral_fields(ps, sent as nat, use_vlc),
            k <= sent,
            bw.wf(),
            w3.len() + specs.len() <= usize::MAX,
            bw.written() == w3 + spectral_fields(ps, k as nat, use_vlc),
        decreases sent - k,
    {
        proof {
            lemma_concat_fields_prefix(|k: int| spectral_field(ps[k], use_vlc), (k + 1) as nat, sent as nat);
        }
        let plan = &plans[k];
        if plan.table_idx != 0 {
            if use_vlc {
                assert(plans_writable(ps, *config));
                assert(ps[k as int].table_idx != 0);
                write_bfu_vlc(plan, tables.as_slice(), &mut bw);
            } else {
                write_bfu_clc(plan, &mut bw);
            }
        }
        k += 1;
        assert(bw.written() =~= w3 + spectral_fields(ps, k as nat, use_vlc));
    }
    assert(bw.written() =~= total);
    let bytes = bw.flush();
    let ghost packed = bytes@;
    assert(packs(packed, total));
    let mut out: Vec<u8> = Vec::new();
    let mut i: usize = 0;
    while i < budget_bytes
        invariant
            packed == bytes@,
            packs(packed, total),
            i <= budget_bytes,
            out@.len() == i,
            forall|j: int|
                0 <= j < i ==> #[trigger] out@[j] == if j < packed.len() {
                    packed[j]
                } else {
                    0u8
                },
        decreases budget_bytes - i,
    {
        if i < bytes.len() {
            out.push(bytes[i]);
        } else {
            out.push(0);
        }
        i += 1;
    }
    proof {
        assert forall|b: int| 0 <= b < budget_bytes * 8 implies #[trigger] bit_at(out@, b) == if b
            < total.len() {
            total[b]
        } else {
            0
        } by {
            let byte = b / 8;
            if byte < packed.len() {
                assert(out@[byte] == packed[byte]);
                assert(bit_at(out@, b) == bit_at(packed, b));
            } else {
                assert(out@[byte] == 0u8);
                assert(b >= packed.len() * 8);
                assert(b >= total.len());
                crate::huffman::lemma_byte_bit_zero(7 - b % 8);
            }
        }
    }
    out
}

} // verus!
