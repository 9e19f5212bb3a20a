//! Reading back a written sound unit: the unit reader recovers the header,
//! gain control, tonal component layout, block selectors, scale factors and
//! fixed-length mantissas that the unit writer put down.
use vstd::prelude::*;
use vstd::arithmetic::power2::{pow2, lemma_pow2_pos, lemma2_to64};
use vstd::arithmetic::div_mod::lemma_small_mod;
use crate::huffman::{bit_at, bits_msb, bits_value, lemma_bits_value_msb, packs};
use crate::sound_unit::{
    BfuCoding, SyntaxConfig, concat_fields, lemma_concat_fields_prefix, lemma_concat_fields_uniform,
    spec_num_blocks, spec_qmf_band_count, sent_count, spec_prefers_vlc, clc_mantissa_bits,
    pair_code_field, signed_field, spec_clc_bits, spec_pair_code, spec_pair_value,
    spec_signed_bits, spec_sign_extend, lemma_signed_bits_roundtrip, coded_prefix_len,
    lemma_coded_prefix_len, lemma_pair_code_roundtrip,
};
use crate::channel_unit::{
    unit_bits, unit_head_bits, unit_spectrum_bits, gain_bits, gain_fields, band_gain_bits,
    gain_point_fields, gain_point_field, selector_fields, sf_fields, sf_field, spectral_fields,
    spectral_field, holds_bits, min_nat,
};
use crate::tonal::{
    TonalComponent, tonal_bits, spec_tonal_groups, block_members, block_sent, block_bits, block_fields,
    band_bits, band_fields, band_flag, flag_field, flag_fields, group_bits, group_fields, member_fields,
    component_bits, component_mantissa_bits, chunk_pair_field, sent_values, lemma_tonal_groups_shape,
    group_member_ok, lemma_block_members_valid,
};
use crate::unit_parse::{
    rd, lemma_rd_bound, gain_pos, parsed_gain_band, parsed_selectors, coded_before, parsed_sf,
    data_offset, block_data_len, band_len, parsed_mantissas, spec_read_signed,
    lemma_read_signed_small, lemma_subband_tab, ParsedUnit, UnitTail, SpectrumDump,
    spectrum_dump_ok, spectrum_data_start, tail_is_spectrum, unit_parse_ok, TonalEvent,
    components_parse, block_parse, blocks_parse, bands_parse, group_parse, groups_parse, tonal_parse,
    parsed_flags, flag_events, values_skip, bfu_dump_ok,
};
use crate::legacy::{
    legacy_unit_bits, legacy_head_bits, legacy_selector_fields, legacy_sf_fields, legacy_mantissa_fields,
    legacy_block_bits, legacy_pair_field, legacy_value_field, legacy_pair_code,
};

verus! {

/// The bits of `d` from bit `q` on are `s`.
pub open spec fn bits_match(d: Seq<u8>, q: int, s: Seq<u8>) -> bool {
    forall|i: int| 0 <= i < s.len() ==> #[trigger] bit_at(d, q + i) == s[i]
}

/// A field of `n` bits read where the `n`-bit pattern of `v` lies gives `v`
/// modulo 2^n.
proof fn lemma_read_field(d: Seq<u8>, q: int, v: u32, n: nat)
    requires
        n <= 32,
        bits_match(d, q, bits_msb(v, n)),
    ensures
        rd(d, q, n) == (v as nat) % pow2(n),
{
    assert forall|j: int| 0 <= j < n implies bit_at(d, q + j) == #[trigger] bits_msb(v, n)[j] by {
    }
    lemma_bits_value_msb(d, q, v, n);
    lemma_rd_bound(d, q, n);
}

proof fn lemma_match_split(d: Seq<u8>, q: int, a: Seq<u8>, b: Seq<u8>)
    requires
        bits_match(d, q, a + b),
    ensures
        bits_match(d, q, a),
        bits_match(d, q + a.len(), b),
{
    assert forall|i: int| 0 <= i < a.len() implies #[trigger] bit_at(d, q + i) == a[i] by {
        assert((a + b)[i] == a[i]);
    }
    assert forall|i: int| 0 <= i < b.len() implies #[trigger] bit_at(d, q + a.len() + i) == b[i] by {
        assert((a + b)[a.len() + i] == b[i]);
        assert(q + a.len() + i == q + (a.len() + i));
    }
}

proof fn lemma_match_field_k(d: Seq<u8>, q: int, f: spec_fn(int) -> Seq<u8>, n: nat, k: nat)
    requires
        k < n,
        bits_match(d, q, concat_fields(f, n)),
    ensures
        bits_match(d, q + concat_fields(f, k).len(), f(k as int)),
{
    lemma_concat_fields_prefix(f, k + 1, n);
    let pre = concat_fields(f, k + 1);
    assert forall|i: int| 0 <= i < pre.len() implies #[trigger] bit_at(d, q + i) == pre[i] by {
        assert(concat_fields(f, n).subrange(0, pre.len() as int)[i] == concat_fields(f, n)[i]);
    }
    assert(pre == concat_fields(f, k as nat) + f(k as int));
    lemma_match_split(d, q, concat_fields(f, k as nat), f(k as int));
}


proof fn lemma_match_sub(d: Seq<u8>, q: int, s: Seq<u8>, a: int, b: int, t: Seq<u8>)
    requires
        bits_match(d, q, s),
        0 <= a <= b <= s.len(),
        s.subrange(a, b) == t,
    ensures
        bits_match(d, q + a, t),
{
    assert forall|i: int| 0 <= i < t.len() implies #[trigger] bit_at(d, q + a + i) == t[i] by {
        assert(s.subrange(a, b)[i] == s[a + i]);
        assert(q + a + i == q + (a + i));
    }
}

/// The gain points a band sends: at most 7, each kept to its field widths.
pub open spec fn sent_gain_points(points: Seq<(u8, u8)>) -> Seq<(u32, u32)> {
    Seq::new(
        min_nat(points.len(), 7),
        |k: int| (min_nat(points[k].0 as nat, 15) as u32, min_nat(points[k].1 as nat, 31) as u32),
    )
}

proof fn lemma_band_gains_roundtrip(d: Seq<u8>, q: int, points: Seq<(u8, u8)>)
    requires
        bits_match(d, q, band_gain_bits(points)),
    ensures
        rd(d, q, 3) == min_nat(points.len(), 7),
        band_gain_bits(points).len() == 3 + 9 * min_nat(points.len(), 7),
        parsed_gain_band(d, q) == sent_gain_points(points),
{
    lemma2_to64();
    let n = min_nat(points.len(), 7);
    let head = bits_msb(n as u32, 3);
    let body = gain_point_fields(points, n);
    lemma_match_split(d, q, head, body);
    lemma_read_field(d, q, n as u32, 3);
    lemma_small_mod(n, 8);
    let f = |k: int| gain_point_field(points[k]);
    assert forall|k: int| 0 <= k < n implies (#[trigger] f(k)).len() == 9 by {}
    lemma_concat_fields_uniform(f, n, 9);
    assert forall|k: int| 0 <= k < n implies #[trigger] parsed_gain_band(d, q)[k] == sent_gain_points(points)[k] by {
        assert(body.subrange(k * 9, k * 9 + 9) == f(k));
        assert(0 <= k * 9 && k * 9 + 9 <= n * 9) by (nonlinear_arith)
            requires
                0 <= k < n,
        ;
        lemma_match_sub(d, q + 3, body, k * 9, k * 9 + 9, f(k));
        let lv = min_nat(points[k].0 as nat, 15);
        let lc = min_nat(points[k].1 as nat, 31);
        lemma_match_split(d, q + 3 + k * 9, bits_msb(lv as u32, 4), bits_msb(lc as u32, 5));
        lemma_read_field(d, q + 3 + k * 9, lv as u32, 4);
        lemma_read_field(d, q + 3 + k * 9 + 4, lc as u32, 5);
        lemma_small_mod(lv, 16);
        lemma_small_mod(lc, 32);
        assert(9 * k == k * 9) by (nonlinear_arith);
    }
    assert(parsed_gain_band(d, q) =~= sent_gain_points(points));
}

proof fn lemma_gains_roundtrip(d: Seq<u8>, q: int, gains: Seq<Vec<(u8, u8)>>, qmf: nat, b: nat)
    requires
        b <= qmf <= gains.len(),
        bits_match(d, q, gain_fields(gains, qmf)),
    ensures
        gain_pos(d, q, b) == q + gain_fields(gains, b).len(),
        forall|c: int| 0 <= c < b ==> parsed_gain_band(d, #[trigger] gain_pos(d, q, c as nat)) == sent_gain_points(gains[c]@),
    decreases b,
{
    if b > 0 {
        let c = (b - 1) as nat;
        lemma_gains_roundtrip(d, q, gains, qmf, c);
        let f = |k: int| band_gain_bits(gains[k]@);
        lemma_match_field_k(d, q, f, qmf, c);
        lemma_band_gains_roundtrip(d, q + gain_fields(gains, c).len(), gains[c as int]@);
        assert(gain_fields(gains, b) == gain_fields(gains, c) + band_gain_bits(gains[c as int]@));
    }
}

/// Scale factors of the first `k` plans take 6 bits per coded plan.
proof fn lemma_sf_fields_len(plans: Seq<BfuCoding>, sels: Seq<u32>, k: nat)
    requires
        k <= sels.len(),
        k <= plans.len(),
        forall|j: int| 0 <= j < sels.len() && j < plans.len() ==> #[trigger] sels[j] == plans[j].table_idx,
    ensures
        sf_fields(plans, k).len() == 6 * coded_before(sels, k),
    decreases k,
{
    if k > 0 {
        lemma_sf_fields_len(plans, sels, (k - 1) as nat);
        assert(sf_fields(plans, k) == sf_fields(plans, (k - 1) as nat) + sf_field(plans[k - 1]));
        assert(sels[k - 1] == plans[k - 1].table_idx);
    }
}

/// The block can be read back from its fixed-length codes: a table-1 block
/// holds mantissas in -2..=1, another table's block mantissas that fit its
/// code width; the block has the length of its spectral block.
pub open spec fn clc_block_fits(p: BfuCoding, k: int) -> bool {
    &&& p.mantissas@.len() == band_len(k)
    &&& p.table_idx == 1 ==> forall|i: int| 0 <= i < p.mantissas@.len() ==> -2 <= #[trigger] p.mantissas@[i] <= 1
    &&& p.table_idx >= 2 ==> forall|i: int|
        0 <= i < p.mantissas@.len() ==> -pow2((spec_clc_bits(p.table_idx as int) - 1) as nat)
            <= #[trigger] p.mantissas@[i] < pow2((spec_clc_bits(p.table_idx as int) - 1) as nat)
}

proof fn lemma_clc_block_len(p: BfuCoding, k: int)
    requires
        0 <= k < 32,
        1 <= p.table_idx <= 7,
        clc_block_fits(p, k),
    ensures
        clc_mantissa_bits(p.table_idx as int, p.mantissas@).len() == block_data_len(p.table_idx as int, band_len(k)),
{
    let ms = p.mantissas@;
    lemma_subband_tab(k);
    if p.table_idx == 1 {
        let f = |j: int| pair_code_field(ms, j);
        assert forall|j: int| 0 <= j < ms.len() / 2 implies (#[trigger] f(j)).len() == 4 by {}
        lemma_concat_fields_uniform(f, ms.len() / 2, 4);
    } else {
        let w = spec_clc_bits(p.table_idx as int);
        let f = |j: int| signed_field(ms[j], w);
        assert forall|j: int| 0 <= j < ms.len() implies (#[trigger] f(j)).len() == w by {}
        lemma_concat_fields_uniform(f, ms.len(), w);
        assert(ms.len() * w == w * ms.len()) by (nonlinear_arith);
    }
}

proof fn lemma_clc_mantissas_roundtrip(d: Seq<u8>, q: int, p: BfuCoding, k: int)
    requires
        0 <= k < 32,
        1 <= p.table_idx <= 7,
        clc_block_fits(p, k),
        bits_match(d, q, clc_mantissa_bits(p.table_idx as int, p.mantissas@)),
    ensures
        parsed_mantissas(d, q, p.table_idx as int, band_len(k)) == p.mantissas@,
{
    let ms = p.mantissas@;
    let len = band_len(k);
    lemma_subband_tab(k);
    lemma2_to64();
    let s = clc_mantissa_bits(p.table_idx as int, ms);
    if p.table_idx == 1 {
        let f = |j: int| pair_code_field(ms, j);
        assert forall|j: int| 0 <= j < ms.len() / 2 implies (#[trigger] f(j)).len() == 4 by {}
        lemma_concat_fields_uniform(f, ms.len() / 2, 4);
        assert forall|i: int| 0 <= i < len implies #[trigger] parsed_mantissas(d, q, 1, len)[i] == ms[i] by {
            let j = i / 2;
            assert(0 <= j * 4 && j * 4 + 4 <= (ms.len() / 2) * 4) by (nonlinear_arith)
                requires
                    0 <= j < ms.len() / 2,
            ;
            lemma_match_sub(d, q, s, j * 4, j * 4 + 4, f(j));
            let ca = spec_pair_code(ms[2 * j] as int);
            let cb = spec_pair_code(ms[2 * j + 1] as int);
            lemma_read_field(d, q + j * 4, (4 * ca + cb) as u32, 4);
            lemma_small_mod((4 * ca + cb) as nat, 16);
            assert(4 * j == j * 4) by (nonlinear_arith);
            let x = rd(d, q + 4 * j, 4);
            assert(x == 4 * ca + cb);
            assert(x / 4 == ca);
            assert(x % 4 == cb);
        }
        assert(parsed_mantissas(d, q, 1, len) =~= ms);
    } else {
        let w = spec_clc_bits(p.table_idx as int);
        let f = |j: int| signed_field(ms[j], w);
        assert forall|j: int| 0 <= j < ms.len() implies (#[trigger] f(j)).len() == w by {}
        lemma_concat_fields_uniform(f, ms.len(), w);
        assert forall|i: int| 0 <= i < len implies #[trigger] parsed_mantissas(d, q, p.table_idx as int, len)[i] == ms[i] by {
            assert(0 <= i * w && i * w + w <= ms.len() * w) by (nonlinear_arith)
                requires
                    0 <= i < ms.len(),
                    w >= 0,
            ;
            lemma_match_sub(d, q, s, i * w, i * w + w, f(i));
            lemma_signed_bits_roundtrip(ms[i] as int, w);
            let sb = spec_signed_bits(ms[i] as int, w);
            lemma_read_field(d, q + i * w, sb as u32, w);
            lemma_small_mod(sb as nat, pow2(w));
            assert(w * i == i * w) by (nonlinear_arith);
            let raw = rd(d, q + w * i, w);
            assert(raw == sb);
            lemma_read_signed_small(raw, w);
            lemma_small_mod(raw, pow2(w));
        }
        assert(parsed_mantissas(d, q, p.table_idx as int, len) =~= ms);
    }
}


/// A sound unit of `plans` can be read back: at least one plan, at most 32
/// blocks sent, and among the sent blocks tables up to 7, 6-bit scale factors
/// for coded blocks and, with fixed-length codes, mantissas that fit their codes.
pub open spec fn unit_readable(plans: Seq<BfuCoding>, config: SyntaxConfig) -> bool {
    &&& 1 <= plans.len()
    &&& spec_num_blocks(plans) <= 32
    &&& forall|k: int|
        0 <= k < spec_num_blocks(plans) ==> (#[trigger] plans[k]).table_idx <= 7 && (plans[k].table_idx
            != 0 ==> plans[k].sf_idx < 64)
    &&& !spec_prefers_vlc(plans, config) ==> forall|k: int|
        0 <= k < spec_num_blocks(plans) && (#[trigger] plans[k]).table_idx != 0 ==> clc_block_fits(plans[k], k)
}

/// The spectral part read back, `sd`, holds what `plans` sent: block count,
/// coding mode, selectors, scale factors and, with fixed-length codes, the
/// mantissas of each coded block.
pub open spec fn spectrum_recovers(sd: SpectrumDump, plans: Seq<BfuCoding>, config: SyntaxConfig) -> bool {
    let nb = spec_num_blocks(plans);
    let vlc = spec_prefers_vlc(plans, config);
    &&& sd.num_bfu == nb
    &&& sd.coding_mode == if vlc {
        0u32
    } else {
        1u32
    }
    &&& sd.selectors@ == Seq::new(nb, |k: int| plans[k].table_idx as u32)
    &&& sd.sf@ == Seq::new(
        nb,
        |k: int|
            if plans[k].table_idx != 0 {
                Some(plans[k].sf_idx as u32)
            } else {
                None
            },
    )
    &&& !vlc ==> forall|k: int|
        0 <= k < nb && (#[trigger] plans[k]).table_idx != 0 ==> sd.bfus@[k].mantissas@ == plans[k].mantissas@
}

proof fn lemma_spectral_fields_len(plans: Seq<BfuCoding>, sels: Seq<u32>, k: nat)
    requires
        k <= sels.len(),
        sels.len() <= plans.len(),
        sels.len() <= 32,
        forall|j: int| 0 <= j < sels.len() ==> #[trigger] sels[j] == plans[j].table_idx,
        forall|j: int| 0 <= j < sels.len() ==> (#[trigger] plans[j]).table_idx <= 7,
        forall|j: int|
            0 <= j < sels.len() && (#[trigger] plans[j]).table_idx != 0 ==> clc_block_fits(plans[j], j),
    ensures
        spectral_fields(plans, k, false).len() == data_offset(sels, k),
    decreases k,
{
    if k > 0 {
        let j = (k - 1) as nat;
        lemma_spectral_fields_len(plans, sels, j);
        assert(spectral_fields(plans, k, false) == spectral_fields(plans, j, false) + spectral_field(plans[j as int], false));
        if plans[j as int].table_idx != 0 {
            lemma_clc_block_len(plans[j as int], j as int);
        }
    }
}

proof fn lemma_selectors_roundtrip(d: Seq<u8>, q: int, plans: Seq<BfuCoding>, nb: nat)
    requires
        nb <= plans.len(),
        forall|k: int| 0 <= k < nb ==> (#[trigger] plans[k]).table_idx <= 7,
        bits_match(d, q, selector_fields(plans, nb)),
    ensures
        selector_fields(plans, nb).len() == 3 * nb,
        parsed_selectors(d, q, nb) == Seq::new(nb, |k: int| plans[k].table_idx as u32),
{
    lemma2_to64();
    let sel_bits = selector_fields(plans, nb);
    let fsel = |k: int| bits_msb(plans[k].table_idx as u32, 3);
    assert forall|k: int| 0 <= k < nb implies (#[trigger] fsel(k)).len() == 3 by {}
    lemma_concat_fields_uniform(fsel, nb, 3);
    let sels = parsed_selectors(d, q, nb);
    assert forall|k: int| 0 <= k < nb implies #[trigger] sels[k] == plans[k].table_idx by {
        assert(0 <= k * 3 && k * 3 + 3 <= nb * 3) by (nonlinear_arith)
            requires
                0 <= k < nb,
        ;
        lemma_match_sub(d, q, sel_bits, k * 3, k * 3 + 3, fsel(k));
        lemma_read_field(d, q + k * 3, plans[k].table_idx as u32, 3);
        lemma_small_mod(plans[k].table_idx as nat, 8);
        assert(3 * k == k * 3) by (nonlinear_arith);
    }
    assert(sels =~= Seq::new(nb, |k: int| plans[k].table_idx as u32));
}

proof fn lemma_sf_roundtrip(d: Seq<u8>, q: int, plans: Seq<BfuCoding>, nb: nat, sels: Seq<u32>)
    requires
        nb <= plans.len(),
        sels.len() == nb,
        forall|k: int| 0 <= k < nb ==> #[trigger] sels[k] == plans[k].table_idx,
        forall|k: int| 0 <= k < nb && (#[trigger] plans[k]).table_idx != 0 ==> plans[k].sf_idx < 64,
        bits_match(d, q, sf_fields(plans, nb)),
    ensures
        sf_fields(plans, nb).len() == 6 * coded_before(sels, nb),
        parsed_sf(d, q, sels) == Seq::new(
            nb,
            |k: int|
                if plans[k].table_idx != 0 {
                    Some(plans[k].sf_idx as u32)
                } else {
                    None
                },
        ),
{
    lemma2_to64();
    lemma_sf_fields_len(plans, sels, nb);
    let fsf = |k: int| sf_field(plans[k]);
    assert forall|k: int| 0 <= k < nb && plans[k].table_idx != 0 implies #[trigger] parsed_sf(d, q, sels)[k]
        == Some(plans[k].sf_idx as u32) by {
        lemma_sf_fields_len(plans, sels, k as nat);
        lemma_match_field_k(d, q, fsf, nb, k as nat);
        lemma_read_field(d, q + sf_fields(plans, k as nat).len(), plans[k].sf_idx as u32, 6);
        lemma_small_mod(plans[k].sf_idx as nat, 64);
    }
    assert(parsed_sf(d, q, sels) =~= Seq::new(
        nb,
        |k: int|
            if plans[k].table_idx != 0 {
                Some(plans[k].sf_idx as u32)
            } else {
                None
            },
    ));
}

proof fn lemma_block_mantissas_roundtrip(d: Seq<u8>, m: int, plans: Seq<BfuCoding>, nb: nat, sels: Seq<u32>, k: int)
    requires
        nb <= plans.len(),
        nb <= 32,
        sels.len() == nb,
        0 <= k < nb,
        plans[k].table_idx != 0,
        forall|j: int| 0 <= j < nb ==> #[trigger] sels[j] == plans[j].table_idx,
        forall|j: int| 0 <= j < nb ==> (#[trigger] plans[j]).table_idx <= 7,
        forall|j: int| 0 <= j < nb && (#[trigger] plans[j]).table_idx != 0 ==> clc_block_fits(plans[j], j),
        bits_match(d, m, spectral_fields(plans, nb, false)),
    ensures
        parsed_mantissas(d, m + data_offset(sels, k as nat), plans[k].table_idx as int, band_len(k))
            == plans[k].mantissas@,
{
    let fsp = |j: int| spectral_field(plans[j], false);
    lemma_spectral_fields_len(plans, sels, k as nat);
    lemma_match_field_k(d, m, fsp, nb, k as nat);
    lemma_clc_mantissas_roundtrip(d, m + data_offset(sels, k as nat), plans[k], k);
}

proof fn lemma_spectrum_roundtrip(d: Seq<u8>, s: int, plans: Seq<BfuCoding>, config: SyntaxConfig, sd: SpectrumDump)
    requires
        unit_readable(plans, config),
        bits_match(d, s, unit_spectrum_bits(plans, config)),
        spectrum_dump_ok(sd, d, s),
    ensures
        spectrum_recovers(sd, plans, config),
{
    lemma2_to64();
    lemma_coded_prefix_len(plans);
    let nb = spec_num_blocks(plans);
    assert(nb <= plans.len() && 1 <= nb <= 32);
    assert(sent_count(plans) == nb);
    let vlc = spec_prefers_vlc(plans, config);
    let mode: u32 = if vlc {
        0
    } else {
        1
    };
    let a = bits_msb((nb - 1) as u32, 5);
    let b = bits_msb(mode, 1);
    let sel_bits = selector_fields(plans, nb);
    let sf_bits = sf_fields(plans, nb);
    let spec_bits = spectral_fields(plans, nb, vlc);
    assert(unit_spectrum_bits(plans, config) == a + b + sel_bits + sf_bits + spec_bits);
    lemma_match_split(d, s, a + b + sel_bits + sf_bits, spec_bits);
    lemma_match_split(d, s, a + b + sel_bits, sf_bits);
    lemma_match_split(d, s, a + b, sel_bits);
    lemma_match_split(d, s, a, b);
    lemma_read_field(d, s, (nb - 1) as u32, 5);
    lemma_small_mod((nb - 1) as nat, 32);
    lemma_read_field(d, s + 5, mode, 1);
    lemma_small_mod(mode as nat, 2);
    assert(rd(d, s, 5) + 1 == nb);
    lemma_selectors_roundtrip(d, s + 6, plans, nb);
    let sels = parsed_selectors(d, s + 6, nb);
    assert forall|k: int| 0 <= k < nb implies #[trigger] sels[k] == plans[k].table_idx by {
        assert(sels[k] == Seq::new(nb, |j: int| plans[j].table_idx as u32)[k]);
    }
    lemma_sf_roundtrip(d, s + 6 + 3 * nb, plans, nb, sels);
    if !vlc {
        let m = spectrum_data_start(d, s);
        assert(m == s + 6 + sel_bits.len() + sf_bits.len());
        assert forall|k: int| 0 <= k < nb && (#[trigger] plans[k]).table_idx != 0 implies sd.bfus@[k].mantissas@
            == plans[k].mantissas@ by {
            lemma_block_mantissas_roundtrip(d, m, plans, nb, sels, k);
        }
    }
}

/// A tonal component the reader can skip exactly: a table 1 to 7, 1 to 8
/// coded values with one mantissa each, and a 6-bit scale factor.
pub open spec fn component_readable(c: TonalComponent) -> bool {
    &&& 1 <= c.quant_selector <= 7
    &&& 1 <= c.coded_values <= 8
    &&& c.mantissas@.len() == c.coded_values
    &&& c.sf_idx < 64
}

/// Every component of `cs` can be skipped exactly by the reader.
pub open spec fn tonal_readable(cs: Seq<TonalComponent>) -> bool {
    &&& cs.len() <= usize::MAX
    &&& forall|i: int| 0 <= i < cs.len() ==> #[trigger] component_readable(cs[i])
}

/// Every member of group `g` is a readable component with `cv` values and
/// table `qs`.
pub open spec fn group_ok(cs: Seq<TonalComponent>, g: Seq<usize>, cv: nat, qs: nat) -> bool {
    forall|j: int|
        0 <= j < g.len() ==> {
            &&& #[trigger] g[j] < cs.len()
            &&& component_readable(cs[g[j] as int])
            &&& cs[g[j] as int].coded_values == cv
            &&& cs[g[j] as int].quant_selector == qs
        }
}

/// The event the reader gives for the `k`-th component written in spectral
/// block `sb` of group `g`.
pub open spec fn member_event(cs: Seq<TonalComponent>, g: Seq<usize>, sb: int, k: int) -> TonalEvent {
    let x = cs[block_members(cs, g, sb)[k] as int];
    TonalEvent::Component {
        index: k as usize,
        sf_idx: x.sf_idx as u32,
        rel_pos: (x.abs_pos % 64) as u32,
        abs_pos: (sb * 64 + x.abs_pos % 64) as usize,
    }
}

/// The events of spectral block `sb` of group `g`: its component count where
/// it is not zero, then one event per written component.
pub open spec fn written_block_events(cs: Seq<TonalComponent>, g: Seq<usize>, sb: int) -> Seq<TonalEvent> {
    let n = block_sent(cs, g, sb);
    (if n != 0 {
        seq![TonalEvent::BlockCount { spec_block: sb as usize, count: n as usize }]
    } else {
        Seq::empty()
    }) + Seq::new(n, |k: int| member_event(cs, g, sb, k))
}

/// The events of blocks `local` to 3 of QMF band `b` of group `g`.
pub open spec fn written_blocks_events(cs: Seq<TonalComponent>, g: Seq<usize>, b: int, local: nat) -> Seq<
    TonalEvent,
>
    decreases 4 - local,
{
    if local >= 4 {
        Seq::empty()
    } else {
        written_block_events(cs, g, 4 * b + local) + written_blocks_events(cs, g, b, local + 1)
    }
}

/// The components written in blocks `local` to 3 of QMF band `b` of group `g`.
pub open spec fn written_blocks_count(cs: Seq<TonalComponent>, g: Seq<usize>, b: int, local: nat) -> nat
    decreases 4 - local,
{
    if local >= 4 {
        0
    } else {
        block_sent(cs, g, 4 * b + local) + written_blocks_count(cs, g, b, local + 1)
    }
}

/// The events of the flagged bands of group `g` from `band` to `qmf - 1`.
pub open spec fn written_bands_events(cs: Seq<TonalComponent>, g: Seq<usize>, qmf: nat, band: nat) -> Seq<
    TonalEvent,
>
    decreases qmf - band,
{
    if band >= qmf {
        Seq::empty()
    } else if !band_flag(cs, g, band as int) {
        written_bands_events(cs, g, qmf, band + 1)
    } else {
        written_blocks_events(cs, g, band as int, 0) + written_bands_events(cs, g, qmf, band + 1)
    }
}

/// The components written in the flagged bands of group `g` from `band` to
/// `qmf - 1`.
pub open spec fn written_bands_count(cs: Seq<TonalComponent>, g: Seq<usize>, qmf: nat, band: nat) -> nat
    decreases qmf - band,
{
    if band >= qmf {
        0
    } else if !band_flag(cs, g, band as int) {
        written_bands_count(cs, g, qmf, band + 1)
    } else {
        written_blocks_count(cs, g, band as int, 0) + written_bands_count(cs, g, qmf, band + 1)
    }
}

/// The band flags of group `g` in a unit with `qmf` bands.
pub open spec fn band_flags(cs: Seq<TonalComponent>, g: Seq<usize>, qmf: nat) -> Seq<bool> {
    Seq::new(qmf, |b: int| band_flag(cs, g, b))
}

/// The events of group `gi`, `g`, whose bits end at `end`: its band flags, its
/// value count and table, its flagged bands and its end.
pub open spec fn written_group_events(cs: Seq<TonalComponent>, g: Seq<usize>, qmf: nat, gi: nat, end: int) -> Seq<
    TonalEvent,
> {
    flag_events(band_flags(cs, g, qmf)) + seq![
        TonalEvent::GroupStart {
            group: gi as u32,
            coded_values: cs[g[0] as int].coded_values,
            quant_selector: cs[g[0] as int].quant_selector as u32,
        },
    ] + written_bands_events(cs, g, qmf, 0) + seq![
        TonalEvent::GroupEnd {
            group: gi as u32,
            total_components: written_bands_count(cs, g, qmf, 0) as usize,
            bit_pos: end as usize,
        },
    ]
}

/// The events of groups `gi` on of `gs`, the first of them written from bit `p`.
pub open spec fn written_groups_events(
    cs: Seq<TonalComponent>,
    gs: Seq<Seq<usize>>,
    qmf: nat,
    p: int,
    gi: nat,
) -> Seq<TonalEvent>
    decreases gs.len() - gi,
{
    if gi >= gs.len() {
        Seq::empty()
    } else {
        let e = p + group_bits(cs, gs[gi as int], qmf).len();
        written_group_events(cs, gs[gi as int], qmf, gi, e) + written_groups_events(cs, gs, qmf, e, gi + 1)
    }
}

proof fn lemma_component_roundtrip(d: Seq<u8>, p: int, x: TonalComponent)
    requires
        component_readable(x),
        bits_match(d, p, component_bits(x)),
    ensures
        rd(d, p, 6) == x.sf_idx,
        rd(d, p + 6, 6) == x.abs_pos % 64,
        values_skip(d, p + 12, 1, x.quant_selector as nat, x.coded_values as nat) == (
            p + component_bits(x).len(),
            Seq::<TonalEvent>::empty(),
            true,
        ),
{
    lemma2_to64();
    let a = bits_msb(x.sf_idx as u32, 6);
    let b = bits_msb((x.abs_pos % 64) as u32, 6);
    let m = component_mantissa_bits(x);
    assert(component_bits(x) == a + b + m);
    lemma_match_split(d, p, a + b, m);
    lemma_match_split(d, p, a, b);
    lemma_read_field(d, p, x.sf_idx as u32, 6);
    lemma_small_mod(x.sf_idx as nat, 64);
    lemma_read_field(d, p + 6, (x.abs_pos % 64) as u32, 6);
    lemma_small_mod((x.abs_pos % 64) as nat, 64);
    let ms = x.mantissas@;
    if x.quant_selector == 1 {
        let f = |k: int| chunk_pair_field(ms, k);
        assert forall|k: int| 0 <= k < (ms.len() + 1) / 2 implies (#[trigger] f(k)).len() == 4 by {}
        lemma_concat_fields_uniform(f, ((ms.len() + 1) / 2) as nat, 4);
        assert(m.len() == 4 * ((x.coded_values as nat + 1) / 2));
    } else {
        let w = spec_clc_bits(x.quant_selector as int);
        assert(w > 0);
        assert(sent_values(x) == x.coded_values);
        let f = |k: int| signed_field(ms[k], w);
        assert forall|k: int| 0 <= k < x.coded_values implies (#[trigger] f(k)).len() == w by {}
        lemma_concat_fields_uniform(f, x.coded_values as nat, w);
        assert(m.len() == x.coded_values * w);
        assert(x.coded_values * w == w * x.coded_values) by (nonlinear_arith);
    }
}

/// The members of `g` in block `sb` are readable with the group's values and table.
proof fn lemma_block_members_ok(cs: Seq<TonalComponent>, g: Seq<usize>, sb: int, cv: nat, qs: nat)
    requires
        group_ok(cs, g, cv, qs),
    ensures
        group_ok(cs, block_members(cs, g, sb), cv, qs),
        block_sent(cs, g, sb) <= block_members(cs, g, sb).len(),
        block_sent(cs, g, sb) <= 7,
{
    assert forall|j: int| 0 <= j < g.len() implies #[trigger] g[j] < cs.len() by {}
    lemma_block_members_valid(cs, g, sb);
    let ms = block_members(cs, g, sb);
    assert forall|k: int| 0 <= k < ms.len() implies {
        &&& #[trigger] ms[k] < cs.len()
        &&& component_readable(cs[ms[k] as int])
        &&& cs[ms[k] as int].coded_values == cv
        &&& cs[ms[k] as int].quant_selector == qs
    } by {
        let j = choose|j: int| 0 <= j < g.len() && g[j] == ms[k];
        assert(g[j] < cs.len());
    }
}

proof fn lemma_components_roundtrip(
    d: Seq<u8>,
    q: int,
    cs: Seq<TonalComponent>,
    g: Seq<usize>,
    sb: nat,
    cv: nat,
    qs: nat,
    count: nat,
    c: nat,
)
    requires
        c <= count <= block_members(cs, g, sb as int).len(),
        group_ok(cs, block_members(cs, g, sb as int), cv, qs),
        bits_match(d, q, member_fields(cs, block_members(cs, g, sb as int), count)),
    ensures
        components_parse(
            d,
            q + member_fields(cs, block_members(cs, g, sb as int), c).len(),
            1,
            cv,
            qs,
            sb,
            count,
            c,
        ) == (
            q + member_fields(cs, block_members(cs, g, sb as int), count).len(),
            Seq::new((count - c) as nat, |k: int| member_event(cs, g, sb as int, c + k)),
            true,
        ),
    decreases count - c,
{
    let ms = block_members(cs, g, sb as int);
    if c < count {
        let f = |k: int| component_bits(cs[ms[k] as int]);
        lemma_match_field_k(d, q, f, count, c);
        let p = q + member_fields(cs, ms, c).len();
        let x = cs[ms[c as int] as int];
        assert(component_readable(x) && x.coded_values == cv && x.quant_selector == qs);
        lemma_component_roundtrip(d, p, x);
        assert(member_fields(cs, ms, c + 1) == member_fields(cs, ms, c) + component_bits(x));
        lemma_components_roundtrip(d, q, cs, g, sb, cv, qs, count, c + 1);
        let ev0 = seq![
            TonalEvent::Component {
                index: c as usize,
                sf_idx: rd(d, p, 6) as u32,
                rel_pos: rd(d, p + 6, 6) as u32,
                abs_pos: (sb * 64 + rd(d, p + 6, 6)) as usize,
            },
        ];
        assert(ev0 == seq![member_event(cs, g, sb as int, c as int)]);
        let rest = Seq::new((count - (c + 1)) as nat, |k: int| member_event(cs, g, sb as int, c + 1 + k));
        assert(ev0 + Seq::<TonalEvent>::empty() + rest =~= Seq::new(
            (count - c) as nat,
            |k: int| member_event(cs, g, sb as int, c + k),
        ));
    } else {
        assert(Seq::new((count - c) as nat, |k: int| member_event(cs, g, sb as int, c + k)) =~= Seq::<
            TonalEvent,
        >::empty());
    }
}

proof fn lemma_block_roundtrip(d: Seq<u8>, p: int, cs: Seq<TonalComponent>, g: Seq<usize>, sb: nat, cv: nat, qs: nat)
    requires
        group_ok(cs, g, cv, qs),
        bits_match(d, p, block_bits(cs, g, sb as int)),
    ensures
        block_parse(d, p, 1, cv, qs, sb) == (
            p + block_bits(cs, g, sb as int).len(),
            written_block_events(cs, g, sb as int),
            true,
            block_sent(cs, g, sb as int),
        ),
{
    lemma2_to64();
    lemma_block_members_ok(cs, g, sb as int, cv, qs);
    let n = block_sent(cs, g, sb as int);
    let ms = block_members(cs, g, sb as int);
    let head = bits_msb(n as u32, 3);
    let body = member_fields(cs, ms, n);
    assert(block_bits(cs, g, sb as int) == head + body);
    lemma_match_split(d, p, head, body);
    lemma_read_field(d, p, n as u32, 3);
    lemma_small_mod(n, 8);
    assert(member_fields(cs, ms, 0).len() == 0);
    lemma_components_roundtrip(d, p + 3, cs, g, sb, cv, qs, n, 0);
    assert(Seq::new((n - 0) as nat, |k: int| member_event(cs, g, sb as int, 0 + k)) =~= Seq::new(
        n,
        |k: int| member_event(cs, g, sb as int, k),
    ));
}

proof fn lemma_blocks_roundtrip(
    d: Seq<u8>,
    q: int,
    cs: Seq<TonalComponent>,
    g: Seq<usize>,
    b: nat,
    cv: nat,
    qs: nat,
    local: nat,
)
    requires
        local <= 4,
        group_ok(cs, g, cv, qs),
        bits_match(d, q, block_fields(cs, g, b as int, 4)),
    ensures
        blocks_parse(d, q + block_fields(cs, g, b as int, local).len(), 1, cv, qs, b, local) == (
            q + block_fields(cs, g, b as int, 4).len(),
            written_blocks_events(cs, g, b as int, local),
            true,
            written_blocks_count(cs, g, b as int, local),
        ),
    decreases 4 - local,
{
    if local < 4 {
        let f = |l: int| block_bits(cs, g, 4 * b + l);
        lemma_match_field_k(d, q, f, 4, local);
        let p = q + block_fields(cs, g, b as int, local).len();
        assert(b * 4 + local == 4 * b + local);
        lemma_block_roundtrip(d, p, cs, g, b * 4 + local, cv, qs);
        assert(block_fields(cs, g, b as int, local + 1) == block_fields(cs, g, b as int, local) + f(
            local as int,
        ));
        lemma_blocks_roundtrip(d, q, cs, g, b, cv, qs, local + 1);
    }
}

proof fn lemma_bands_roundtrip(
    d: Seq<u8>,
    q: int,
    cs: Seq<TonalComponent>,
    g: Seq<usize>,
    qmf: nat,
    cv: nat,
    qs: nat,
    band: nat,
)
    requires
        band <= qmf,
        group_ok(cs, g, cv, qs),
        bits_match(d, q, band_fields(cs, g, qmf)),
    ensures
        bands_parse(d, q + band_fields(cs, g, band).len(), 1, cv, qs, band_flags(cs, g, qmf), band) == (
            q + band_fields(cs, g, qmf).len(),
            written_bands_events(cs, g, qmf, band),
            true,
            written_bands_count(cs, g, qmf, band),
        ),
    decreases qmf - band,
{
    if band < qmf {
        let f = |b: int| band_bits(cs, g, b);
        lemma_match_field_k(d, q, f, qmf, band);
        let p = q + band_fields(cs, g, band).len();
        assert(band_fields(cs, g, band + 1) == band_fields(cs, g, band) + f(band as int));
        assert(band_flags(cs, g, qmf)[band as int] == band_flag(cs, g, band as int));
        if band_flag(cs, g, band as int) {
            assert(f(band as int) == block_fields(cs, g, band as int, 4));
            assert(block_fields(cs, g, band as int, 0).len() == 0);
            lemma_blocks_roundtrip(d, p, cs, g, band, cv, qs, 0);
        } else {
            assert(f(band as int).len() == 0);
        }
        lemma_bands_roundtrip(d, q, cs, g, qmf, cv, qs, band + 1);
    }
}

proof fn lemma_group_roundtrip(d: Seq<u8>, p: int, cs: Seq<TonalComponent>, g: Seq<usize>, qmf: nat, gi: nat)
    requires
        g.len() > 0,
        group_ok(cs, g, cs[g[0] as int].coded_values as nat, cs[g[0] as int].quant_selector as nat),
        bits_match(d, p, group_bits(cs, g, qmf)),
    ensures
        group_parse(d, p, 1, qmf, gi) == (
            p + group_bits(cs, g, qmf).len(),
            written_group_events(cs, g, qmf, gi, p + group_bits(cs, g, qmf).len()),
            true,
        ),
{
    reveal(group_parse);
    lemma2_to64();
    let x = cs[g[0] as int];
    assert(component_readable(x));
    let cv = x.coded_values as nat;
    let qs = x.quant_selector as nat;
    let fl = flag_fields(cs, g, qmf);
    let a = bits_msb((cv - 1) as u32, 3);
    let b = bits_msb(qs as u32, 3);
    let bands = band_fields(cs, g, qmf);
    assert(group_bits(cs, g, qmf) == fl + a + b + bands);
    lemma_match_split(d, p, fl + a + b, bands);
    lemma_match_split(d, p, fl + a, b);
    lemma_match_split(d, p, fl, a);
    let ff = |k: int| flag_field(cs, g, k);
    assert forall|k: int| 0 <= k < qmf implies (#[trigger] ff(k)).len() == 1 by {}
    lemma_concat_fields_uniform(ff, qmf, 1);
    assert(fl.len() == qmf);
    assert(parsed_flags(d, p, qmf) =~= band_flags(cs, g, qmf)) by {
        assert forall|k: int| 0 <= k < qmf implies #[trigger] parsed_flags(d, p, qmf)[k] == band_flags(
            cs,
            g,
            qmf,
        )[k] by {
            assert(0 <= k * 1 && k * 1 + 1 <= qmf * 1);
            lemma_match_sub(d, p, fl, k * 1, k * 1 + 1, ff(k));
            let v: u32 = if band_flag(cs, g, k) {
                1
            } else {
                0
            };
            lemma_read_field(d, p + k, v, 1);
            lemma_small_mod(v as nat, 2);
        }
    }
    lemma_read_field(d, p + qmf, (cv - 1) as u32, 3);
    lemma_small_mod((cv - 1) as nat, 8);
    lemma_read_field(d, p + qmf + 3, qs as u32, 3);
    lemma_small_mod(qs, 8);
    assert(band_fields(cs, g, 0).len() == 0);
    lemma_bands_roundtrip(d, p + qmf + 6, cs, g, qmf, cv, qs, 0);
}

proof fn lemma_groups_roundtrip(d: Seq<u8>, q: int, cs: Seq<TonalComponent>, gs: Seq<Seq<usize>>, qmf: nat, gi: nat)
    requires
        gi <= gs.len(),
        forall|i: int|
            0 <= i < gs.len() ==> (#[trigger] gs[i]).len() > 0 && group_ok(
                cs,
                gs[i],
                cs[gs[i][0] as int].coded_values as nat,
                cs[gs[i][0] as int].quant_selector as nat,
            ),
        bits_match(d, q, group_fields(cs, gs, qmf, gs.len())),
    ensures
        groups_parse(d, q + group_fields(cs, gs, qmf, gi).len(), 1, qmf, gs.len(), gi) == (
            q + group_fields(cs, gs, qmf, gs.len()).len(),
            written_groups_events(cs, gs, qmf, q + group_fields(cs, gs, qmf, gi).len(), gi),
            true,
        ),
    decreases gs.len() - gi,
{
    if gi < gs.len() {
        let f = |i: int| group_bits(cs, gs[i], qmf);
        lemma_match_field_k(d, q, f, gs.len(), gi);
        let p = q + group_fields(cs, gs, qmf, gi).len();
        let g = gs[gi as int];
        assert(g.len() > 0);
        lemma_group_roundtrip(d, p, cs, g, qmf, gi);
        assert(group_fields(cs, gs, qmf, gi + 1) == group_fields(cs, gs, qmf, gi) + f(gi as int));
        lemma_groups_roundtrip(d, q, cs, gs, qmf, gi + 1);
    }
}

/// The groups of readable components are non-empty and share their first
/// member's values and table.
proof fn lemma_readable_groups(cs: Seq<TonalComponent>)
    requires
        tonal_readable(cs),
    ensures
        spec_tonal_groups(cs).len() <= 31,
        cs.len() > 0 ==> spec_tonal_groups(cs).len() > 0,
        forall|i: int|
            0 <= i < spec_tonal_groups(cs).len() ==> (#[trigger] spec_tonal_groups(cs)[i]).len() > 0
                && group_ok(
                cs,
                spec_tonal_groups(cs)[i],
                cs[spec_tonal_groups(cs)[i][0] as int].coded_values as nat,
                cs[spec_tonal_groups(cs)[i][0] as int].quant_selector as nat,
            ),
{
    lemma_tonal_groups_shape(cs);
    let gs = spec_tonal_groups(cs);
    assert forall|i: int| 0 <= i < gs.len() implies (#[trigger] gs[i]).len() > 0 && group_ok(
        cs,
        gs[i],
        cs[gs[i][0] as int].coded_values as nat,
        cs[gs[i][0] as int].quant_selector as nat,
    ) by {
        assert forall|j: int| 0 <= j < gs[i].len() implies {
            &&& #[trigger] gs[i][j] < cs.len()
            &&& component_readable(cs[gs[i][j] as int])
            &&& cs[gs[i][j] as int].coded_values == cs[gs[i][0] as int].coded_values as nat
            &&& cs[gs[i][j] as int].quant_selector == cs[gs[i][0] as int].quant_selector as nat
        } by {
            assert(group_member_ok(cs, gs[i], j));
        }
    }
}

proof fn lemma_tonal_roundtrip(d: Seq<u8>, q: int, cs: Seq<TonalComponent>, qmf: nat)
    requires
        tonal_readable(cs),
        cs.len() > 0,
        bits_match(d, q, tonal_bits(cs, qmf)),
    ensures
        rd(d, q, 5) == spec_tonal_groups(cs).len(),
        tonal_parse(d, q + 5, qmf, spec_tonal_groups(cs).len()) == (
            1nat,
            q + tonal_bits(cs, qmf).len(),
            written_groups_events(cs, spec_tonal_groups(cs), qmf, q + 7, 0),
            true,
        ),
{
    lemma2_to64();
    lemma_readable_groups(cs);
    let gs = spec_tonal_groups(cs);
    let n = gs.len();
    let a = bits_msb(n as u32, 5);
    let b = bits_msb(1, 2);
    let body = group_fields(cs, gs, qmf, n);
    assert(tonal_bits(cs, qmf) == a + b + body);
    lemma_match_split(d, q, a + b, body);
    lemma_match_split(d, q, a, b);
    lemma_read_field(d, q, n as u32, 5);
    lemma_small_mod(n, 32);
    lemma_read_field(d, q + 5, 1, 2);
    assert(group_fields(cs, gs, qmf, 0).len() == 0);
    lemma_groups_roundtrip(d, q + 7, cs, gs, qmf, 0);
}

/// Reading back a written sound unit gives what was written: for a unit whose
/// plans can be read back (see `unit_readable`) and whose tonal components the
/// reader can skip exactly (see `tonal_readable`), with a gain list for every
/// announced band and bytes that hold all its bits, the reader finds the unit
/// id 0x28, the band count, each band's gain points as sent, the tonal group
/// count, the events of every written group and component (fixed-length
/// coding mode), and the block count, coding mode, selectors, scale factors
/// and fixed-length mantissas of the plans.
pub proof fn lemma_sound_unit_roundtrip(
    plans: Seq<BfuCoding>,
    gains: Seq<Vec<(u8, u8)>>,
    tonal: Seq<TonalComponent>,
    config: SyntaxConfig,
    out: Seq<u8>,
    budget: nat,
    r: ParsedUnit,
)
    requires
        unit_readable(plans, config),
        tonal_readable(tonal),
        spec_qmf_band_count(spec_num_blocks(plans) as int, config.static_qmf_bands) <= gains.len(),
        holds_bits(out, unit_bits(plans, gains, tonal, config), budget),
        unit_bits(plans, gains, tonal, config).len() <= budget * 8,
        unit_parse_ok(r, out),
    ensures
        ({
            let qmf = spec_qmf_band_count(spec_num_blocks(plans) as int, config.static_qmf_bands);
            let tonal_start = 8 + gain_bits(gains, qmf as nat).len();
            &&& r.unit_id == 0x28
            &&& r.subbands == qmf - 1
            &&& r.gains@.len() == qmf
            &&& forall|b: int| 0 <= b < qmf ==> (#[trigger] r.gains@[b])@ == sent_gain_points(gains[b]@)
            &&& r.tonal_groups == spec_tonal_groups(tonal).len()
            &&& tonal.len() == 0 ==> r.tonal is None
            &&& tonal.len() > 0 ==> (r.tonal matches Some(tp) && {
                &&& tp.tonal_mode == 1
                &&& tp.ok
                &&& tp.events@ == written_groups_events(
                    tonal,
                    spec_tonal_groups(tonal),
                    qmf as nat,
                    (tonal_start + 7) as int,
                    0,
                )
            })
            &&& r.tail matches UnitTail::Spectrum(sd) && spectrum_recovers(sd, plans, config)
        }),
{
    lemma2_to64();
    let d = out;
    let total = unit_bits(plans, gains, tonal, config);
    assert forall|i: int| 0 <= i < total.len() implies #[trigger] bit_at(d, 0 + i) == total[i] by {
        assert(bit_at(out, i) == total[i]);
    }
    assert(bits_match(d, 0, total));
    let qmf = spec_qmf_band_count(spec_num_blocks(plans) as int, config.static_qmf_bands) as nat;
    assert(1 <= qmf <= 4);
    let h1 = bits_msb(0x28, 6);
    let h2 = bits_msb((qmf - 1) as u32, 2);
    let g = gain_bits(gains, qmf);
    let t = tonal_bits(tonal, qmf);
    let sp = unit_spectrum_bits(plans, config);
    assert(total == h1 + h2 + g + t + sp);
    lemma_match_split(d, 0, h1 + h2 + g + t, sp);
    lemma_match_split(d, 0, h1 + h2 + g, t);
    lemma_match_split(d, 0, h1 + h2, g);
    lemma_match_split(d, 0, h1, h2);
    lemma_read_field(d, 0, 0x28, 6);
    lemma_read_field(d, 6, (qmf - 1) as u32, 2);
    lemma_small_mod((qmf - 1) as nat, 4);
    assert(rd(d, 6, 2) + 1 == qmf);
    assert(g == gain_fields(gains, qmf));
    lemma_gains_roundtrip(d, 8, gains, qmf, qmf);
    let tp = gain_pos(d, 8, qmf);
    assert(tp == 8 + g.len());
    assert forall|b: int| 0 <= b < qmf implies (#[trigger] r.gains@[b])@ == sent_gain_points(gains[b]@) by {
        assert(r.gains@[b]@ == parsed_gain_band(d, gain_pos(d, 8, b as nat)));
    }
    let spectrum_start = tp + t.len();
    if tonal.len() == 0 {
        assert(spec_tonal_groups(tonal).len() == 0);
        assert(t == bits_msb(0, 5));
        lemma_read_field(d, tp, 0, 5);
        assert(rd(d, tp, 5) == 0);
        assert(tail_is_spectrum(r.tail, d, tp + 5));
    } else {
        lemma_tonal_roundtrip(d, tp, tonal, qmf);
        assert(tail_is_spectrum(r.tail, d, spectrum_start));
    }
    match r.tail {
        UnitTail::Spectrum(sd) => {
            lemma_spectrum_roundtrip(d, spectrum_start, plans, config, sd);
        },
        UnitTail::TonalFailed { .. } => {},
    }
}

/// A table-1 legacy mantissa as sent: clamped to -2..=1.
pub open spec fn legacy_clamp(m: int) -> int {
    if m < -2 {
        -2
    } else if m > 1 {
        1
    } else {
        m
    }
}

/// The mantissas the reader gets back for a legacy block coded with table
/// `sel`: table-1 values clamped to -2..=1, the others as they are.
pub open spec fn legacy_read_back(sel: u32, ms: Seq<i32>) -> Seq<i16> {
    Seq::new(
        ms.len(),
        |j: int|
            if sel == 1 {
                legacy_clamp(ms[j] as int) as i16
            } else {
                ms[j] as i16
            },
    )
}

/// A legacy unit can be read back: 1 to 32 blocks, tables up to 7, 6-bit
/// scale factors, and each coded block with the length of its spectral block
/// and, above table 1, values that fit its code width.
pub open spec fn legacy_readable(sels: Seq<u32>, sfs: Seq<u32>, ms: Seq<Vec<i32>>) -> bool {
    &&& 1 <= sels.len() <= 32
    &&& sfs.len() == sels.len()
    &&& ms.len() == sels.len()
    &&& forall|k: int| 0 <= k < sels.len() ==> #[trigger] sels[k] <= 7
    &&& forall|k: int|
        0 <= k < sels.len() && #[trigger] sels[k] != 0 ==> {
            &&& sfs[k] < 64
            &&& ms[k]@.len() == band_len(k)
            &&& sels[k] >= 2 ==> forall|j: int|
                0 <= j < ms[k]@.len() ==> -pow2((spec_clc_bits(sels[k] as int) - 1) as nat) <= #[trigger] ms[k]@[j]
                    < pow2((spec_clc_bits(sels[k] as int) - 1) as nat)
        }
}

proof fn lemma_legacy_selectors_roundtrip(d: Seq<u8>, q: int, sels: Seq<u32>)
    requires
        forall|k: int| 0 <= k < sels.len() ==> #[trigger] sels[k] <= 7,
        bits_match(d, q, legacy_selector_fields(sels, sels.len())),
    ensures
        legacy_selector_fields(sels, sels.len()).len() == 3 * sels.len(),
        parsed_selectors(d, q, sels.len()) == sels,
{
    lemma2_to64();
    let n = sels.len();
    let bits = legacy_selector_fields(sels, n);
    let f = |k: int| bits_msb(sels[k], 3);
    assert forall|k: int| 0 <= k < n implies (#[trigger] f(k)).len() == 3 by {}
    lemma_concat_fields_uniform(f, n, 3);
    assert forall|k: int| 0 <= k < n implies #[trigger] parsed_selectors(d, q, n)[k] == sels[k] by {
        assert(0 <= k * 3 && k * 3 + 3 <= n * 3) by (nonlinear_arith)
            requires
                0 <= k < n,
        ;
        lemma_match_sub(d, q, bits, k * 3, k * 3 + 3, f(k));
        lemma_read_field(d, q + k * 3, sels[k], 3);
        lemma_small_mod(sels[k] as nat, 8);
        assert(3 * k == k * 3) by (nonlinear_arith);
    }
    assert(parsed_selectors(d, q, n) =~= sels);
}

proof fn lemma_legacy_sf_len(sels: Seq<u32>, sfs: Seq<u32>, k: nat)
    requires
        k <= sels.len(),
    ensures
        legacy_sf_fields(sels, sfs, k).len() == 6 * coded_before(sels, k),
    decreases k,
{
    if k > 0 {
        lemma_legacy_sf_len(sels, sfs, (k - 1) as nat);
    }
}

proof fn lemma_legacy_sf_roundtrip(d: Seq<u8>, q: int, sels: Seq<u32>, sfs: Seq<u32>)
    requires
        forall|k: int| 0 <= k < sels.len() && #[trigger] sels[k] != 0 ==> sfs[k] < 64,
        bits_match(d, q, legacy_sf_fields(sels, sfs, sels.len())),
    ensures
        legacy_sf_fields(sels, sfs, sels.len()).len() == 6 * coded_before(sels, sels.len()),
        parsed_sf(d, q, sels) == Seq::new(
            sels.len(),
            |k: int|
                if sels[k] != 0 {
                    Some(sfs[k])
                } else {
                    None
                },
        ),
{
    lemma2_to64();
    let n = sels.len();
    lemma_legacy_sf_len(sels, sfs, n);
    let f = |i: int|
        if sels[i] != 0 {
            bits_msb(sfs[i], 6)
        } else {
            Seq::empty()
        };
    assert forall|k: int| 0 <= k < n && sels[k] != 0 implies #[trigger] parsed_sf(d, q, sels)[k] == Some(
        sfs[k],
    ) by {
        lemma_legacy_sf_len(sels, sfs, k as nat);
        lemma_match_field_k(d, q, f, n, k as nat);
        lemma_read_field(d, q + legacy_sf_fields(sels, sfs, k as nat).len(), sfs[k], 6);
        lemma_small_mod(sfs[k] as nat, 64);
    }
    assert(parsed_sf(d, q, sels) =~= Seq::new(
        n,
        |k: int|
            if sels[k] != 0 {
                Some(sfs[k])
            } else {
                None
            },
    ));
}

proof fn lemma_legacy_block_len(sel: u32, ms: Seq<i32>, k: int)
    requires
        0 <= k < 32,
        1 <= sel <= 7,
        ms.len() == band_len(k),
    ensures
        legacy_block_bits(sel as int, ms).len() == block_data_len(sel as int, band_len(k)),
{
    lemma_subband_tab(k);
    if sel == 1 {
        let f = |j: int| legacy_pair_field(ms, j);
        assert forall|j: int| 0 <= j < (ms.len() + 1) / 2 implies (#[trigger] f(j)).len() == 4 by {}
        lemma_concat_fields_uniform(f, ((ms.len() + 1) / 2) as nat, 4);
    } else {
        let w = spec_clc_bits(sel as int);
        let f = |j: int| legacy_value_field(ms[j], w);
        assert forall|j: int| 0 <= j < ms.len() implies (#[trigger] f(j)).len() == w by {}
        lemma_concat_fields_uniform(f, ms.len(), w);
        assert(ms.len() * w == w * ms.len()) by (nonlinear_arith);
    }
}

proof fn lemma_legacy_offsets(sels: Seq<u32>, ms: Seq<Vec<i32>>, k: nat)
    requires
        k <= sels.len() <= 32,
        ms.len() == sels.len(),
        forall|j: int| 0 <= j < sels.len() ==> #[trigger] sels[j] <= 7,
        forall|j: int| 0 <= j < sels.len() && #[trigger] sels[j] != 0 ==> ms[j]@.len() == band_len(j),
    ensures
        legacy_mantissa_fields(sels, ms, k).len() == data_offset(sels, k),
    decreases k,
{
    if k > 0 {
        let j = (k - 1) as nat;
        lemma_legacy_offsets(sels, ms, j);
        if sels[j as int] != 0 {
            lemma_legacy_block_len(sels[j as int], ms[j as int]@, j as int);
        }
    }
}

proof fn lemma_legacy_block_roundtrip(d: Seq<u8>, q: int, sel: u32, ms: Seq<i32>, k: int)
    requires
        0 <= k < 32,
        1 <= sel <= 7,
        ms.len() == band_len(k),
        sel >= 2 ==> forall|j: int|
            0 <= j < ms.len() ==> -pow2((spec_clc_bits(sel as int) - 1) as nat) <= #[trigger] ms[j] < pow2(
                (spec_clc_bits(sel as int) - 1) as nat,
            ),
        bits_match(d, q, legacy_block_bits(sel as int, ms)),
    ensures
        parsed_mantissas(d, q, sel as int, band_len(k)) == legacy_read_back(sel, ms),
{
    lemma_subband_tab(k);
    lemma2_to64();
    let len = band_len(k);
    let s = legacy_block_bits(sel as int, ms);
    if sel == 1 {
        let f = |j: int| legacy_pair_field(ms, j);
        assert forall|j: int| 0 <= j < (ms.len() + 1) / 2 implies (#[trigger] f(j)).len() == 4 by {}
        lemma_concat_fields_uniform(f, ((ms.len() + 1) / 2) as nat, 4);
        assert((ms.len() + 1) / 2 == ms.len() / 2);
        assert forall|i: int| 0 <= i < len implies #[trigger] parsed_mantissas(d, q, 1, len)[i] == legacy_read_back(
            sel,
            ms,
        )[i] by {
            let j = i / 2;
            assert(0 <= j * 4 && j * 4 + 4 <= (ms.len() / 2) * 4) by (nonlinear_arith)
                requires
                    0 <= j < ms.len() / 2,
            ;
            lemma_match_sub(d, q, s, j * 4, j * 4 + 4, f(j));
            let ca = legacy_pair_code(ms[2 * j] as int);
            let cb = legacy_pair_code(ms[2 * j + 1] as int);
            lemma_read_field(d, q + j * 4, (4 * ca + cb) as u32, 4);
            lemma_small_mod((4 * ca + cb) as nat, 16);
            assert(4 * j == j * 4) by (nonlinear_arith);
            let x = rd(d, q + 4 * j, 4);
            assert(x == 4 * ca + cb);
            assert(x / 4 == ca);
            assert(x % 4 == cb);
            lemma_pair_code_roundtrip(legacy_clamp(ms[2 * j] as int));
            lemma_pair_code_roundtrip(legacy_clamp(ms[2 * j + 1] as int));
            if i % 2 == 0 {
                assert(i == 2 * j);
            } else {
                assert(i == 2 * j + 1);
            }
        }
        assert(parsed_mantissas(d, q, 1, len) =~= legacy_read_back(sel, ms));
    } else {
        let w = spec_clc_bits(sel as int);
        let f = |j: int| legacy_value_field(ms[j], w);
        assert forall|j: int| 0 <= j < ms.len() implies (#[trigger] f(j)).len() == w by {}
        lemma_concat_fields_uniform(f, ms.len(), w);
        assert forall|i: int| 0 <= i < len implies #[trigger] parsed_mantissas(d, q, sel as int, len)[i]
            == legacy_read_back(sel, ms)[i] by {
            assert(0 <= i * w && i * w + w <= ms.len() * w) by (nonlinear_arith)
                requires
                    0 <= i < ms.len(),
                    w >= 0,
            ;
            lemma_match_sub(d, q, s, i * w, i * w + w, f(i));
            lemma_signed_bits_roundtrip(ms[i] as int, w);
            let sb = spec_signed_bits(ms[i] as int, w);
            lemma_read_field(d, q + i * w, sb as u32, w);
            lemma_small_mod(sb as nat, pow2(w));
            assert(w * i == i * w) by (nonlinear_arith);
            let raw = rd(d, q + w * i, w);
            assert(raw == sb);
            lemma_read_signed_small(raw, w);
            lemma_small_mod(raw, pow2(w));
            vstd::arithmetic::power2::lemma_pow2_strictly_increases((w - 1) as nat, 15);
        }
        assert(parsed_mantissas(d, q, sel as int, len) =~= legacy_read_back(sel, ms));
    }
}

/// Reading back a packed legacy unit gives what was packed: for a legacy unit
/// that can be read back (see `legacy_readable`) and bytes that hold exactly its
/// bits, the reader finds unit id 0x28, four QMF bands without gain points, no
/// tonal group, the announced blocks in fixed-length coding, their selectors and
/// scale factors, and each coded block's mantissas (table-1 values clamped to
/// -2..=1).
pub proof fn lemma_legacy_unit_roundtrip(
    sels: Seq<u32>,
    sfs: Seq<u32>,
    ms: Seq<Vec<i32>>,
    bytes: Seq<u8>,
    r: ParsedUnit,
)
    requires
        legacy_readable(sels, sfs, ms),
        packs(bytes, legacy_unit_bits(sels, sfs, ms)),
        unit_parse_ok(r, bytes),
    ensures
        r.unit_id == 0x28,
        r.subbands == 3,
        r.gains@.len() == 4,
        forall|b: int| 0 <= b < 4 ==> (#[trigger] r.gains@[b])@.len() == 0,
        r.tonal_groups == 0,
        r.tonal is None,
        r.tail matches UnitTail::Spectrum(sd) && {
            &&& sd.num_bfu == sels.len()
            &&& sd.coding_mode == 1
            &&& sd.selectors@ == sels
            &&& sd.sf@ == Seq::new(
                sels.len(),
                |k: int|
                    if sels[k] != 0 {
                        Some(sfs[k])
                    } else {
                        None
                    },
            )
            &&& forall|k: int|
                0 <= k < sels.len() && #[trigger] sels[k] != 0 ==> sd.bfus@[k].mantissas@ == legacy_read_back(
                    sels[k],
                    ms[k]@,
                )
        },
{
    lemma2_to64();
    let d = bytes;
    let n = sels.len();
    let bits = legacy_unit_bits(sels, sfs, ms);
    assert forall|i: int| 0 <= i < bits.len() implies #[trigger] bit_at(d, 0 + i) == bits[i] by {
        assert(bit_at(d, i) == bits[i]);
    }
    let h = legacy_head_bits();
    let cnt = bits_msb((n - 1) as u32, 5);
    let mode = bits_msb(1, 1);
    let sel_bits = legacy_selector_fields(sels, n);
    let sf_bits = legacy_sf_fields(sels, sfs, n);
    let mant = legacy_mantissa_fields(sels, ms, n);
    assert(bits == h + cnt + mode + sel_bits + sf_bits + mant);
    lemma_match_split(d, 0, h + cnt + mode + sel_bits + sf_bits, mant);
    lemma_match_split(d, 0, h + cnt + mode + sel_bits, sf_bits);
    lemma_match_split(d, 0, h + cnt + mode, sel_bits);
    lemma_match_split(d, 0, h + cnt, mode);
    lemma_match_split(d, 0, h, cnt);
    let z3 = bits_msb(0, 3);
    let h1 = bits_msb(0x28, 6);
    let h2 = bits_msb(3, 2);
    let z5 = bits_msb(0, 5);
    assert(h == h1 + h2 + z3 + z3 + z3 + z3 + z5);
    lemma_match_split(d, 0, h1 + h2 + z3 + z3 + z3 + z3, z5);
    lemma_match_split(d, 0, h1 + h2 + z3 + z3 + z3, z3);
    lemma_match_split(d, 0, h1 + h2 + z3 + z3, z3);
    lemma_match_split(d, 0, h1 + h2 + z3, z3);
    lemma_match_split(d, 0, h1 + h2, z3);
    lemma_match_split(d, 0, h1, h2);
    lemma_read_field(d, 0, 0x28, 6);
    lemma_read_field(d, 6, 3, 2);
    lemma_read_field(d, 8, 0, 3);
    lemma_read_field(d, 11, 0, 3);
    lemma_read_field(d, 14, 0, 3);
    lemma_read_field(d, 17, 0, 3);
    lemma_read_field(d, 20, 0, 5);
    assert(gain_pos(d, 8, 0) == 8);
    assert(gain_pos(d, 8, 1) == 11);
    assert(gain_pos(d, 8, 2) == 14);
    assert(gain_pos(d, 8, 3) == 17);
    assert(gain_pos(d, 8, 4) == 20);
    assert forall|b: int| 0 <= b < 4 implies (#[trigger] r.gains@[b])@.len() == 0 by {
        assert(r.gains@[b]@ == parsed_gain_band(d, gain_pos(d, 8, b as nat)));
        assert(rd(d, gain_pos(d, 8, b as nat), 3) == 0);
    }
    assert(tail_is_spectrum(r.tail, d, 25));
    lemma_read_field(d, 25, (n - 1) as u32, 5);
    lemma_small_mod((n - 1) as nat, 32);
    lemma_read_field(d, 30, 1, 1);
    lemma_legacy_selectors_roundtrip(d, 31, sels);
    lemma_legacy_sf_roundtrip(d, (31 + 3 * n) as int, sels, sfs);
    let m: int = (31 + 3 * n + 6 * coded_before(sels, n)) as int;
    lemma_legacy_offsets(sels, ms, n);
    match r.tail {
        UnitTail::Spectrum(sd) => {
            assert(spectrum_data_start(d, 25) == m);
            assert forall|k: int| 0 <= k < n && #[trigger] sels[k] != 0 implies sd.bfus@[k].mantissas@
                == legacy_read_back(sels[k], ms[k]@) by {
                let f = |i: int|
                    if sels[i] != 0 {
                        legacy_block_bits(sels[i] as int, ms[i]@)
                    } else {
                        Seq::empty()
                    };
                lemma_legacy_offsets(sels, ms, k as nat);
                lemma_match_field_k(d, m, f, n, k as nat);
                lemma_legacy_block_roundtrip(d, m + data_offset(sels, k as nat), sels[k], ms[k]@, k);
                assert(bfu_dump_ok(sd.bfus@[k], d, m, sels, parsed_sf(d, (31 + 3 * n) as int, sels), k));
            }
        },
        UnitTail::TonalFailed { .. } => {},
    }
}

} // verus!
