//! The size of a sound unit: the bits the encoder budgets for plans, gain
//! control and tonal components are the bits the unit writer puts down.
use vstd::prelude::*;
use vstd::arithmetic::div_mod::lemma_fundamental_div_mod_converse;
use crate::huffman::bits_msb;
use crate::sound_unit::{
    BfuCoding, SyntaxConfig, concat_fields, lemma_concat_fields_uniform, spec_num_blocks,
    spec_qmf_band_count, sent_count, spec_prefers_vlc, clc_mantissa_bits, vlc_mantissa_bits,
    sum_coded_cost, spec_plan_bits, spec_gain_extra_bits, lemma_coded_prefix_len, coded_mantissas,
    coded_symbols, coded_clc_bits, coded_vlc_bits, pair_vlc_len, scalar_vlc_len,
    spec_scalar_symbol, spec_selector1_symbol, pair_code_field, signed_field, spec_clc_bits,
};
use crate::channel_unit::{
    unit_bits, unit_head_bits, unit_spectrum_bits, gain_bits, gain_fields, band_gain_bits,
    gain_point_field, gain_point_fields, selector_fields, sf_field, sf_fields, spectral_field,
    spectral_fields, min_nat,
};
use crate::tonal::{
    TonalComponent, tonal_bits, spec_tonal_groups, spec_tonal_extra_bits, groups_cost, group_cost,
    members_cost, tonal_mantissa_bits, active_bands, band_flag, block_members, block_sent, block_bits,
    block_fields, band_bits, band_fields, flag_field, flag_fields, group_bits, group_fields,
    member_fields, component_bits, chunk_pair_field, sent_values,
    lemma_tonal_groups_block_cap, lemma_block_members_in_block,
};

verus! {

/// The costs recorded in the sent coded plans are those of their codes, and
/// each bit count is the cost of the coding mode the channel uses.
pub open spec fn plans_costs_exact(plans: Seq<BfuCoding>, config: SyntaxConfig) -> bool {
    forall|k: int|
        0 <= k < sent_count(plans) && #[trigger] plans[k].table_idx != 0 ==> {
            &&& plans[k].table_idx <= 7
            &&& plans[k].clc_bits == clc_mantissa_bits(plans[k].table_idx as int, plans[k].mantissas@).len()
            &&& plans[k].vlc_bits == vlc_mantissa_bits(
                plans[k].table_idx as int,
                plans[k].mantissas@.len(),
                plans[k].vlc_symbols@,
            ).len()
            &&& plans[k].bit_count == if spec_prefers_vlc(plans, config) {
                plans[k].vlc_bits
            } else {
                plans[k].clc_bits
            }
        }
}

/// Tonal components as the encoder makes them: as many mantissas as coded
/// values, and each in one of the unit's `qmf` bands.
pub open spec fn tonal_fits(cs: Seq<TonalComponent>, qmf: nat) -> bool {
    &&& cs.len() <= usize::MAX
    &&& forall|i: int|
        0 <= i < cs.len() ==> (#[trigger] cs[i]).mantissas@.len() == cs[i].coded_values && cs[i].abs_pos
            < 256 * qmf
}

// ---------------------------------------------------------------- spectral part

proof fn lemma_coded_fields_len(plans: Seq<BfuCoding>, config: SyntaxConfig, k: nat)
    requires
        k <= sent_count(plans),
        sent_count(plans) <= plans.len(),
        plans_costs_exact(plans, config),
    ensures
        sf_fields(plans, k).len() + spectral_fields(plans, k, spec_prefers_vlc(plans, config)).len()
            == sum_coded_cost(plans, k),
    decreases k,
{
    if k > 0 {
        let j = (k - 1) as nat;
        lemma_coded_fields_len(plans, config, j);
        let vlc = spec_prefers_vlc(plans, config);
        assert(sf_fields(plans, k) == sf_fields(plans, j) + sf_field(plans[j as int]));
        assert(spectral_fields(plans, k, vlc) == spectral_fields(plans, j, vlc) + spectral_field(
            plans[j as int],
            vlc,
        ));
        if plans[j as int].table_idx != 0 {
            assert(plans[j as int].table_idx <= 7);
        }
    }
}

proof fn lemma_spectrum_len(plans: Seq<BfuCoding>, config: SyntaxConfig)
    requires
        plans.len() >= 1,
        plans_costs_exact(plans, config),
    ensures
        sent_count(plans) == spec_num_blocks(plans),
        unit_spectrum_bits(plans, config).len() == 6 + 3 * spec_num_blocks(plans) + sum_coded_cost(
            plans,
            sent_count(plans),
        ),
{
    lemma_coded_prefix_len(plans);
    let n = sent_count(plans);
    let f = |k: int| bits_msb(plans[k].table_idx as u32, 3);
    assert forall|k: int| 0 <= k < n implies (#[trigger] f(k)).len() == 3 by {}
    lemma_concat_fields_uniform(f, n, 3);
    assert(selector_fields(plans, n) == concat_fields(f, n));
    lemma_coded_fields_len(plans, config, n);
}

// ---------------------------------------------------------------- gain control

proof fn lemma_gain_fields_len(gains: Seq<Vec<(u8, u8)>>, n: nat)
    requires
        n <= gains.len(),
        forall|b: int| 0 <= b < n ==> (#[trigger] gains[b])@.len() <= 7,
    ensures
        gain_fields(gains, n).len() == 3 * n + spec_gain_extra_bits(gains, n),
    decreases n,
{
    if n > 0 {
        let b = (n - 1) as nat;
        lemma_gain_fields_len(gains, b);
        let points = gains[b as int]@;
        let m = min_nat(points.len(), 7);
        let f = |k: int| gain_point_field(points[k]);
        assert forall|k: int| 0 <= k < m implies (#[trigger] f(k)).len() == 9 by {}
        lemma_concat_fields_uniform(f, m, 9);
        assert(gain_point_fields(points, m) == concat_fields(f, m));
        assert(band_gain_bits(points).len() == 3 + 9 * points.len());
        assert(gain_fields(gains, n) == gain_fields(gains, b) + band_gain_bits(gains[b as int]@));
    }
}

// ---------------------------------------------------------------- tonal components

proof fn lemma_component_bits_len(c: TonalComponent)
    requires
        c.mantissas@.len() == c.coded_values,
    ensures
        component_bits(c).len() == 12 + tonal_mantissa_bits(c.quant_selector as int, c.coded_values as nat),
{
    let ms = c.mantissas@;
    if c.quant_selector == 1 {
        let f = |k: int| chunk_pair_field(ms, k);
        assert forall|k: int| 0 <= k < (ms.len() + 1) / 2 implies (#[trigger] f(k)).len() == 4 by {}
        lemma_concat_fields_uniform(f, ((ms.len() + 1) / 2) as nat, 4);
    } else {
        let w = spec_clc_bits(c.quant_selector as int);
        assert(sent_values(c) == c.coded_values);
        let f = |k: int| signed_field(ms[k], w);
        assert forall|k: int| 0 <= k < c.coded_values implies (#[trigger] f(k)).len() == w by {}
        lemma_concat_fields_uniform(f, c.coded_values as nat, w);
        assert(c.coded_values * w == w * c.coded_values) by (nonlinear_arith);
    }
}

proof fn lemma_member_fields_len(cs: Seq<TonalComponent>, ms: Seq<usize>, n: nat)
    requires
        n <= ms.len(),
        forall|k: int|
            0 <= k < ms.len() ==> (#[trigger] cs[ms[k] as int]).mantissas@.len() == cs[ms[k] as int].coded_values,
    ensures
        member_fields(cs, ms, n).len() == members_cost(cs, ms.take(n as int)),
    decreases n,
{
    if n > 0 {
        let j = (n - 1) as nat;
        lemma_member_fields_len(cs, ms, j);
        assert(ms.take(n as int).drop_last() =~= ms.take(j as int));
        assert(ms.take(n as int).last() == ms[j as int]);
        let x = cs[ms[j as int] as int];
        lemma_component_bits_len(x);
    } else {
        assert(ms.take(0) =~= Seq::<usize>::empty());
    }
}

/// Budgeted bits of the members of `g` in the first `nb` spectral blocks.
spec fn blocks_cost(cs: Seq<TonalComponent>, g: Seq<usize>, nb: nat) -> nat
    decreases nb,
{
    if nb == 0 {
        0
    } else {
        blocks_cost(cs, g, (nb - 1) as nat) + members_cost(cs, block_members(cs, g, nb - 1))
    }
}

proof fn lemma_blocks_cost_empty(cs: Seq<TonalComponent>, nb: nat)
    ensures
        blocks_cost(cs, Seq::<usize>::empty(), nb) == 0,
    decreases nb,
{
    if nb > 0 {
        lemma_blocks_cost_empty(cs, (nb - 1) as nat);
    }
}

proof fn lemma_blocks_cost_step(cs: Seq<TonalComponent>, g: Seq<usize>, nb: nat)
    requires
        g.len() > 0,
    ensures
        blocks_cost(cs, g, nb) == blocks_cost(cs, g.drop_last(), nb) + if cs[g.last() as int].abs_pos / 64
            < nb {
            12 + tonal_mantissa_bits(
                cs[g.last() as int].quant_selector as int,
                cs[g.last() as int].coded_values as nat,
            )
        } else {
            0
        },
    decreases nb,
{
    if nb > 0 {
        lemma_blocks_cost_step(cs, g, (nb - 1) as nat);
        let sb = nb - 1;
        let m1 = block_members(cs, g.drop_last(), sb);
        if cs[g.last() as int].abs_pos / 64 == sb {
            assert(block_members(cs, g, sb) == m1.push(g.last()));
            assert(m1.push(g.last()).drop_last() =~= m1);
        } else {
            assert(block_members(cs, g, sb) =~= m1);
        }
    }
}

proof fn lemma_blocks_cost_partition(cs: Seq<TonalComponent>, g: Seq<usize>, nb: nat)
    requires
        forall|j: int| 0 <= j < g.len() ==> cs[#[trigger] g[j] as int].abs_pos / 64 < nb,
    ensures
        blocks_cost(cs, g, nb) == members_cost(cs, g),
    decreases g.len(),
{
    if g.len() == 0 {
        lemma_blocks_cost_empty(cs, nb);
        assert(g =~= Seq::<usize>::empty());
    } else {
        let g1 = g.drop_last();
        assert forall|j: int| 0 <= j < g1.len() implies cs[#[trigger] g1[j] as int].abs_pos / 64 < nb by {
            assert(g1[j] == g[j]);
        }
        lemma_blocks_cost_partition(cs, g1, nb);
        lemma_blocks_cost_step(cs, g, nb);
        assert(g.last() == g[g.len() - 1]);
    }
}

/// A band without a member of `g` holds no member in any of its blocks.
proof fn lemma_unflagged_band_empty(cs: Seq<TonalComponent>, g: Seq<usize>, b: int, l: int)
    requires
        0 <= l < 4,
        !band_flag(cs, g, b),
    ensures
        block_members(cs, g, 4 * b + l).len() == 0,
{
    lemma_block_members_in_block(cs, g, 4 * b + l);
    let ms = block_members(cs, g, 4 * b + l);
    if ms.len() > 0 {
        let j = choose|j: int| 0 <= j < g.len() && g[j] == ms[0];
        let a = cs[g[j] as int].abs_pos as int;
        assert(a / 64 == 4 * b + l);
        lemma_fundamental_div_mod_converse(a, 64, a / 64, a % 64);
        lemma_fundamental_div_mod_converse(a, 256, b, 64 * l + a % 64);
        assert(cs[g[j] as int].abs_pos / 256 == b);
    }
}

proof fn lemma_band_fields_len(cs: Seq<TonalComponent>, g: Seq<usize>, n: nat)
    requires
        forall|j: int|
            0 <= j < g.len() ==> (#[trigger] cs[g[j] as int]).mantissas@.len() == cs[g[j] as int].coded_values,
        forall|sb: int| #[trigger] block_members(cs, g, sb).len() <= 7,
    ensures
        band_fields(cs, g, n).len() == 12 * active_bands(cs, g, n) + blocks_cost(cs, g, 4 * n),
    decreases n,
{
    if n > 0 {
        let bn = (n - 1) as nat;
        let b = bn as int;
        lemma_band_fields_len(cs, g, bn);
        assert(band_fields(cs, g, n) == band_fields(cs, g, bn) + band_bits(cs, g, b));
        assert(4 * n == 4 * b + 4);
        let c0 = members_cost(cs, block_members(cs, g, 4 * b + 0));
        let c1 = members_cost(cs, block_members(cs, g, 4 * b + 1));
        let c2 = members_cost(cs, block_members(cs, g, 4 * b + 2));
        let c3 = members_cost(cs, block_members(cs, g, 4 * b + 3));
        assert(blocks_cost(cs, g, 4 * n) == blocks_cost(cs, g, (4 * b) as nat) + c0 + c1 + c2 + c3) by {
            assert(blocks_cost(cs, g, (4 * b + 1) as nat) == blocks_cost(cs, g, (4 * b) as nat) + c0);
            assert(blocks_cost(cs, g, (4 * b + 2) as nat) == blocks_cost(cs, g, (4 * b + 1) as nat) + c1);
            assert(blocks_cost(cs, g, (4 * b + 3) as nat) == blocks_cost(cs, g, (4 * b + 2) as nat) + c2);
            assert(blocks_cost(cs, g, (4 * b + 4) as nat) == blocks_cost(cs, g, (4 * b + 3) as nat) + c3);
        }
        if band_flag(cs, g, b) {
            let f = |l: int| block_bits(cs, g, 4 * b + l);
            assert forall|l: int| 0 <= l < 4 implies (#[trigger] f(l)).len() == 3 + members_cost(
                cs,
                block_members(cs, g, 4 * b + l),
            ) by {
                let ms = block_members(cs, g, 4 * b + l);
                lemma_block_members_in_block(cs, g, 4 * b + l);
                assert forall|k: int| 0 <= k < ms.len() implies (#[trigger] cs[ms[k] as int]).mantissas@.len()
                    == cs[ms[k] as int].coded_values by {
                    let j = choose|j: int| 0 <= j < g.len() && g[j] == ms[k];
                    assert(cs[g[j] as int].mantissas@.len() == cs[g[j] as int].coded_values);
                }
                assert(ms.len() <= 7);
                assert(block_sent(cs, g, 4 * b + l) == ms.len());
                lemma_member_fields_len(cs, ms, ms.len());
                assert(ms.take(ms.len() as int) =~= ms);
            }
            assert(block_fields(cs, g, b, 0).len() == 0);
            assert(block_fields(cs, g, b, 1) == block_fields(cs, g, b, 0) + block_bits(cs, g, 4 * b + 0));
            assert(block_fields(cs, g, b, 2) == block_fields(cs, g, b, 1) + block_bits(cs, g, 4 * b + 1));
            assert(block_fields(cs, g, b, 3) == block_fields(cs, g, b, 2) + block_bits(cs, g, 4 * b + 2));
            assert(block_fields(cs, g, b, 4) == block_fields(cs, g, b, 3) + block_bits(cs, g, 4 * b + 3));
            assert(f(0) == block_bits(cs, g, 4 * b + 0));
            assert(f(1) == block_bits(cs, g, 4 * b + 1));
            assert(f(2) == block_bits(cs, g, 4 * b + 2));
            assert(f(3) == block_bits(cs, g, 4 * b + 3));
            assert(active_bands(cs, g, n) == active_bands(cs, g, bn) + 1);
        } else {
            lemma_unflagged_band_empty(cs, g, b, 0);
            lemma_unflagged_band_empty(cs, g, b, 1);
            lemma_unflagged_band_empty(cs, g, b, 2);
            lemma_unflagged_band_empty(cs, g, b, 3);
            assert(block_members(cs, g, 4 * b + 0) =~= Seq::<usize>::empty());
            assert(block_members(cs, g, 4 * b + 1) =~= Seq::<usize>::empty());
            assert(block_members(cs, g, 4 * b + 2) =~= Seq::<usize>::empty());
            assert(block_members(cs, g, 4 * b + 3) =~= Seq::<usize>::empty());
            assert(active_bands(cs, g, n) == active_bands(cs, g, bn));
        }
    }
}

proof fn lemma_group_bits_len(cs: Seq<TonalComponent>, g: Seq<usize>, qmf: nat)
    requires
        forall|j: int|
            0 <= j < g.len() ==> (#[trigger] cs[g[j] as int]).mantissas@.len() == cs[g[j] as int].coded_values
                && cs[g[j] as int].abs_pos < 256 * qmf,
        forall|sb: int| #[trigger] block_members(cs, g, sb).len() <= 7,
    ensures
        group_bits(cs, g, qmf).len() == group_cost(cs, g, qmf),
{
    let ff = |b: int| flag_field(cs, g, b);
    assert forall|b: int| 0 <= b < qmf implies (#[trigger] ff(b)).len() == 1 by {}
    lemma_concat_fields_uniform(ff, qmf, 1);
    assert(flag_fields(cs, g, qmf) == concat_fields(ff, qmf));
    lemma_band_fields_len(cs, g, qmf);
    assert forall|j: int| 0 <= j < g.len() implies cs[#[trigger] g[j] as int].abs_pos / 64 < 4 * qmf by {
        let a = cs[g[j] as int].abs_pos as int;
        assert(a / 64 < 4 * qmf) by (nonlinear_arith)
            requires
                0 <= a < 256 * qmf,
        ;
    }
    lemma_blocks_cost_partition(cs, g, 4 * qmf);
}

proof fn lemma_group_fields_len(cs: Seq<TonalComponent>, gs: Seq<Seq<usize>>, qmf: nat, n: nat)
    requires
        n <= gs.len(),
        forall|i: int| 0 <= i < gs.len() ==> #[trigger] group_bits(cs, gs[i], qmf).len() == group_cost(
            cs,
            gs[i],
            qmf,
        ),
    ensures
        group_fields(cs, gs, qmf, n).len() == groups_cost(cs, gs, qmf, n),
    decreases n,
{
    if n > 0 {
        lemma_group_fields_len(cs, gs, qmf, (n - 1) as nat);
        assert(group_bits(cs, gs[n - 1], qmf).len() == group_cost(cs, gs[n - 1], qmf));
    }
}

proof fn lemma_tonal_bits_len(cs: Seq<TonalComponent>, qmf: nat)
    requires
        tonal_fits(cs, qmf),
    ensures
        tonal_bits(cs, qmf).len() == 5 + spec_tonal_extra_bits(cs, qmf),
{
    let gs = spec_tonal_groups(cs);
    if cs.len() > 0 && gs.len() > 0 {
        crate::tonal::lemma_tonal_groups_shape(cs);
        lemma_tonal_groups_block_cap(cs);
        assert forall|i: int| 0 <= i < gs.len() implies #[trigger] group_bits(cs, gs[i], qmf).len()
            == group_cost(cs, gs[i], qmf) by {
            let g = gs[i];
            assert forall|j: int| 0 <= j < g.len() implies (#[trigger] cs[g[j] as int]).mantissas@.len()
                == cs[g[j] as int].coded_values && cs[g[j] as int].abs_pos < 256 * qmf by {
                assert(crate::tonal::group_member_ok(cs, gs[i], j));
            }
            assert forall|sb: int| #[trigger] block_members(cs, g, sb).len() <= 7 by {
                assert(block_members(cs, gs[i], sb).len() <= 7);
            }
            lemma_group_bits_len(cs, g, qmf);
        }
        lemma_group_fields_len(cs, gs, qmf, gs.len());
    }
}

// ---------------------------------------------------------------- the unit

/// The bits a sound unit takes are the bits the encoder budgets for it: the
/// plan's header, selectors, scale factors and mantissa costs, 9 bits per gain
/// point and the tonal components' cost, for a unit with at least one plan
/// whose recorded costs are those of its codes (see `plans_costs_exact`), a
/// gain list of at most 7 points for each announced band, and tonal components
/// made as the encoder makes them (see `tonal_fits`).
pub proof fn lemma_unit_bits_len(
    plans: Seq<BfuCoding>,
    gains: Seq<Vec<(u8, u8)>>,
    tonal: Seq<TonalComponent>,
    config: SyntaxConfig,
)
    requires
        plans.len() >= 1,
        plans_costs_exact(plans, config),
        spec_qmf_band_count(spec_num_blocks(plans) as int, config.static_qmf_bands) <= gains.len(),
        forall|b: int|
            0 <= b < spec_qmf_band_count(spec_num_blocks(plans) as int, config.static_qmf_bands)
                ==> (#[trigger] gains[b])@.len() <= 7,
        tonal_fits(tonal, spec_qmf_band_count(spec_num_blocks(plans) as int, config.static_qmf_bands) as nat),
    ensures
        ({
            let qmf = spec_qmf_band_count(spec_num_blocks(plans) as int, config.static_qmf_bands) as nat;
            unit_bits(plans, gains, tonal, config).len() == spec_plan_bits(plans, config.static_qmf_bands)
                + spec_gain_extra_bits(gains, qmf) + spec_tonal_extra_bits(tonal, qmf)
        }),
{
    let qmf = spec_qmf_band_count(spec_num_blocks(plans) as int, config.static_qmf_bands) as nat;
    assert(1 <= qmf <= 4);
    lemma_spectrum_len(plans, config);
    lemma_gain_fields_len(gains, qmf);
    assert(gain_bits(gains, qmf) == gain_fields(gains, qmf));
    lemma_tonal_bits_len(tonal, qmf);
    let head = unit_head_bits(plans, gains, tonal, config);
    assert(head.len() == 8 + gain_bits(gains, qmf).len() + tonal_bits(tonal, qmf).len());
}

// ---------------------------------------------------------------- the budget

proof fn lemma_blocks_cost_le(cs: Seq<TonalComponent>, g: Seq<usize>, nb: nat)
    ensures
        blocks_cost(cs, g, nb) <= members_cost(cs, g),
    decreases g.len(),
{
    if g.len() == 0 {
        lemma_blocks_cost_empty(cs, nb);
        assert(g =~= Seq::<usize>::empty());
    } else {
        lemma_blocks_cost_le(cs, g.drop_last(), nb);
        lemma_blocks_cost_step(cs, g, nb);
    }
}

proof fn lemma_active_bands_mono(cs: Seq<TonalComponent>, g: Seq<usize>, a: nat, b: nat)
    requires
        a <= b,
    ensures
        active_bands(cs, g, a) <= active_bands(cs, g, b),
    decreases b - a,
{
    if a < b {
        lemma_active_bands_mono(cs, g, a, (b - 1) as nat);
    }
}

proof fn lemma_groups_cost_bands_mono(cs: Seq<TonalComponent>, gs: Seq<Seq<usize>>, q1: nat, q2: nat, n: nat)
    requires
        q1 <= q2,
    ensures
        groups_cost(cs, gs, q1, n) <= groups_cost(cs, gs, q2, n),
    decreases n,
{
    if n > 0 {
        lemma_groups_cost_bands_mono(cs, gs, q1, q2, (n - 1) as nat);
        lemma_active_bands_mono(cs, gs[n - 1], q1, q2);
    }
}

proof fn lemma_group_fields_le(cs: Seq<TonalComponent>, gs: Seq<Seq<usize>>, qmf: nat, n: nat)
    requires
        n <= gs.len(),
        forall|i: int| 0 <= i < gs.len() ==> #[trigger] group_bits(cs, gs[i], qmf).len() <= group_cost(
            cs,
            gs[i],
            qmf,
        ),
    ensures
        group_fields(cs, gs, qmf, n).len() <= groups_cost(cs, gs, qmf, n),
    decreases n,
{
    if n > 0 {
        lemma_group_fields_le(cs, gs, qmf, (n - 1) as nat);
        assert(group_bits(cs, gs[n - 1], qmf).len() <= group_cost(cs, gs[n - 1], qmf));
    }
}

/// Tonal components budgeted for `budget_qmf` bands take at most their
/// budget in a unit with `qmf` bands, where each has as many mantissas as
/// coded values.
proof fn lemma_tonal_bits_le(cs: Seq<TonalComponent>, qmf: nat, budget_qmf: nat)
    requires
        qmf <= budget_qmf,
        cs.len() <= usize::MAX,
        forall|i: int| 0 <= i < cs.len() ==> (#[trigger] cs[i]).mantissas@.len() == cs[i].coded_values,
    ensures
        tonal_bits(cs, qmf).len() <= 5 + spec_tonal_extra_bits(cs, budget_qmf),
{
    let gs = spec_tonal_groups(cs);
    if cs.len() > 0 && gs.len() > 0 {
        crate::tonal::lemma_tonal_groups_shape(cs);
        lemma_tonal_groups_block_cap(cs);
        assert forall|i: int| 0 <= i < gs.len() implies #[trigger] group_bits(cs, gs[i], qmf).len()
            <= group_cost(cs, gs[i], qmf) by {
            let g = gs[i];
            assert forall|j: int| 0 <= j < g.len() implies (#[trigger] cs[g[j] as int]).mantissas@.len()
                == cs[g[j] as int].coded_values by {
                assert(crate::tonal::group_member_ok(cs, gs[i], j));
            }
            assert forall|sb: int| #[trigger] block_members(cs, g, sb).len() <= 7 by {
                assert(block_members(cs, gs[i], sb).len() <= 7);
            }
            let ff = |b: int| flag_field(cs, g, b);
            assert forall|b: int| 0 <= b < qmf implies (#[trigger] ff(b)).len() == 1 by {}
            lemma_concat_fields_uniform(ff, qmf, 1);
            assert(flag_fields(cs, g, qmf) == concat_fields(ff, qmf));
            lemma_band_fields_len(cs, g, qmf);
            lemma_blocks_cost_le(cs, g, 4 * qmf);
        }
        lemma_group_fields_le(cs, gs, qmf, gs.len());
        lemma_groups_cost_bands_mono(cs, gs, qmf, budget_qmf, gs.len());
    }
}

proof fn lemma_gain_fields_le(gains: Seq<Vec<(u8, u8)>>, n: nat)
    requires
        n <= gains.len(),
    ensures
        gain_fields(gains, n).len() <= 3 * n + spec_gain_extra_bits(gains, n),
    decreases n,
{
    if n > 0 {
        let b = (n - 1) as nat;
        lemma_gain_fields_le(gains, b);
        let points = gains[b as int]@;
        let m = min_nat(points.len(), 7);
        let f = |k: int| gain_point_field(points[k]);
        assert forall|k: int| 0 <= k < m implies (#[trigger] f(k)).len() == 9 by {}
        lemma_concat_fields_uniform(f, m, 9);
        assert(gain_point_fields(points, m) == concat_fields(f, m));
        assert(gain_fields(gains, n) == gain_fields(gains, b) + band_gain_bits(gains[b as int]@));
    }
}

proof fn lemma_gain_extra_mono(gains: Seq<Vec<(u8, u8)>>, a: nat, b: nat)
    requires
        a <= b <= gains.len(),
    ensures
        spec_gain_extra_bits(gains, a) <= spec_gain_extra_bits(gains, b),
    decreases b - a,
{
    if a < b {
        lemma_gain_extra_mono(gains, a, (b - 1) as nat);
    }
}

/// A unit that fits the encoder's budget is written whole: where the plan's
/// bits, the gain points of four bands and the tonal components budgeted for
/// four bands add up to at most `budget_bytes` bytes, the unit's bits fit
/// them, for a unit with at least one plan whose recorded costs are those of
/// its codes (see `plans_costs_exact`), four gain lists, and tonal components
/// with as many mantissas as coded values.
pub proof fn lemma_budget_covers_unit(
    plans: Seq<BfuCoding>,
    gains: Seq<Vec<(u8, u8)>>,
    tonal: Seq<TonalComponent>,
    config: SyntaxConfig,
    budget_bytes: nat,
)
    requires
        plans.len() >= 1,
        plans_costs_exact(plans, config),
        gains.len() == 4,
        tonal.len() <= usize::MAX,
        forall|i: int| 0 <= i < tonal.len() ==> (#[trigger] tonal[i]).mantissas@.len() == tonal[i].coded_values,
        spec_plan_bits(plans, config.static_qmf_bands) + spec_gain_extra_bits(gains, 4)
            + spec_tonal_extra_bits(tonal, 4) <= budget_bytes * 8,
    ensures
        unit_bits(plans, gains, tonal, config).len() <= budget_bytes * 8,
{
    let qmf = spec_qmf_band_count(spec_num_blocks(plans) as int, config.static_qmf_bands) as nat;
    assert(1 <= qmf <= 4);
    lemma_spectrum_len(plans, config);
    lemma_gain_fields_le(gains, qmf);
    lemma_gain_extra_mono(gains, qmf, 4);
    assert(gain_bits(gains, qmf) == gain_fields(gains, qmf));
    lemma_tonal_bits_le(tonal, qmf, 4);
    let head = unit_head_bits(plans, gains, tonal, config);
    assert(head.len() == 8 + gain_bits(gains, qmf).len() + tonal_bits(tonal, qmf).len());
}

// ---------------------------------------------------------------- coded blocks

proof fn lemma_pair_vlc_len(q: Seq<i16>, np: nat)
    requires
        2 * np <= q.len(),
    ensures
        crate::sound_unit::vlc_pair_fields(coded_symbols(1, q), np).len() == pair_vlc_len(q, np),
    decreases np,
{
    if np > 0 {
        lemma_pair_vlc_len(q, (np - 1) as nat);
        let k = np - 1;
        let syms = coded_symbols(1, q);
        assert(syms[2 * k] == spec_selector1_symbol(q[2 * k] as int, q[2 * k + 1] as int) as u8);
        assert(2 * k == 2 * np - 2 && 2 * k + 1 == 2 * np - 1);
        assert(0 <= spec_selector1_symbol(q[2 * k] as int, q[2 * k + 1] as int) < 256);
    }
}

proof fn lemma_scalar_vlc_len(t: int, q: Seq<i16>, n: nat)
    requires
        2 <= t <= 7,
        n <= q.len(),
    ensures
        crate::sound_unit::vlc_scalar_fields(t - 1, coded_symbols(t, q), n).len() == scalar_vlc_len(t - 1, q, n),
    decreases n,
{
    if n > 0 {
        lemma_scalar_vlc_len(t, q, (n - 1) as nat);
        let k = n - 1;
        let raw = if q[k] < 0 {
            (-2 * q[k] + 1) % 256
        } else {
            (2 * q[k]) % 256
        };
        assert(0 <= raw < 256);
        assert(0 <= spec_scalar_symbol(q[k] as int) < 256);
        assert(coded_symbols(t, q)[k] == spec_scalar_symbol(q[k] as int) as u8);
    }
}

/// The costs that coding quantized values records are the sizes of the codes
/// written for them: fixed-length and Huffman, for tables 1 to 7.
pub proof fn lemma_coded_costs_exact(table: int, q: Seq<i16>)
    requires
        1 <= table <= 7,
    ensures
        coded_clc_bits(table, q) == clc_mantissa_bits(table, coded_mantissas(table, q)).len(),
        coded_vlc_bits(table, q) == vlc_mantissa_bits(table, q.len(), coded_symbols(table, q)).len(),
{
    let ms = coded_mantissas(table, q);
    if table == 1 {
        let f = |j: int| pair_code_field(ms, j);
        assert forall|j: int| 0 <= j < ms.len() / 2 implies (#[trigger] f(j)).len() == 4 by {}
        lemma_concat_fields_uniform(f, ms.len() / 2, 4);
        lemma_pair_vlc_len(q, q.len() / 2);
    } else {
        let w = spec_clc_bits(table);
        let f = |j: int| signed_field(ms[j], w);
        assert forall|j: int| 0 <= j < ms.len() implies (#[trigger] f(j)).len() == w by {}
        lemma_concat_fields_uniform(f, ms.len(), w);
        assert(ms.len() * w == w * q.len()) by (nonlinear_arith)
            requires
                ms.len() == q.len(),
        ;
        lemma_scalar_vlc_len(table, q, q.len());
    }
}

} // verus!
