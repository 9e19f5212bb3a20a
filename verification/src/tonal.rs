//! Tonal components of an ATRAC3 sound unit: their grouping and their
//! coding in the bitstream.
use vstd::prelude::*;
use crate::huffman::{BitWriter, bits_msb};
use crate::sound_unit::{
    concat_fields, lemma_concat_fields_prefix, signed_field, spec_clc_bits, spec_pair_code,
    clc_bits, make_signed_bits, selector1_clc_pair_bits,
};

verus! {

/// One tonal component: `coded_values` quantized values from spectral line
/// `abs_pos` on, coded with table `quant_selector` and scale factor `sf_idx`.
pub struct TonalComponent {
    pub abs_pos: usize,
    pub coded_values: usize,
    pub quant_selector: usize,
    pub sf_idx: usize,
    pub mantissas: Vec<i16>,
}

/// `a` comes before `b` in the order of quantization table, number of coded
/// values and position.
pub open spec fn key_lt(a: TonalComponent, b: TonalComponent) -> bool {
    ||| a.quant_selector < b.quant_selector
    ||| a.quant_selector == b.quant_selector && a.coded_values < b.coded_values
    ||| a.quant_selector == b.quant_selector && a.coded_values == b.coded_values && a.abs_pos
        < b.abs_pos
}

/// In the stable sort of `cs`, component `i` comes before component `j`:
/// by key, and by index where the keys are equal.
pub open spec fn sorted_before(cs: Seq<TonalComponent>, i: int, j: int) -> bool {
    key_lt(cs[i], cs[j]) || (!key_lt(cs[j], cs[i]) && i < j)
}

/// Index `i` occurs in `ord`.
pub open spec fn lists(ord: Seq<usize>, i: int) -> bool {
    exists|p: int| 0 <= p < ord.len() && ord[p] == i
}

/// `ord` lists every index of `cs` once, in the order of the stable sort.
pub open spec fn is_stable_order(cs: Seq<TonalComponent>, ord: Seq<usize>) -> bool {
    &&& ord.len() == cs.len()
    &&& forall|p: int| 0 <= p < ord.len() ==> #[trigger] ord[p] < cs.len()
    &&& forall|i: int| 0 <= i < cs.len() ==> #[trigger] lists(ord, i)
    &&& forall|p: int, q: int|
        0 <= p < q < ord.len() ==> sorted_before(cs, #[trigger] ord[p] as int, #[trigger] ord[q] as int)
}

/// The stable sort order of `cs` (see `lemma_stable_order_unique`).
pub open spec fn spec_sorted_order(cs: Seq<TonalComponent>) -> Seq<usize> {
    choose|ord: Seq<usize>| is_stable_order(cs, ord)
}

/// There is one stable sort order: two orders of `cs` that both list every
/// index once, sorted, are equal.
pub proof fn lemma_stable_order_unique(cs: Seq<TonalComponent>, o1: Seq<usize>, o2: Seq<usize>)
    requires
        is_stable_order(cs, o1),
        is_stable_order(cs, o2),
    ensures
        o1 == o2,
{
    assert forall|p: int| 0 <= p < o1.len() implies o1[p] == o2[p] by {
        lemma_stable_order_agree(cs, o1, o2, p);
    }
    assert(o1 =~= o2);
}

proof fn lemma_stable_order_agree(cs: Seq<TonalComponent>, o1: Seq<usize>, o2: Seq<usize>, p: int)
    requires
        is_stable_order(cs, o1),
        is_stable_order(cs, o2),
        0 <= p < o1.len(),
    ensures
        o1[p] == o2[p],
    decreases p,
{
    if p > 0 {
        lemma_stable_order_agree(cs, o1, o2, p - 1);
    }
    assert forall|r: int| 0 <= r < p implies o1[r] == o2[r] by {
        lemma_stable_order_agree(cs, o1, o2, r);
    }
    let a = o1[p];
    let b = o2[p];
    if a != b {
        assert(o1[p] < cs.len());
        assert(o2[p] < cs.len());
        assert(lists(o2, a as int));
        assert(lists(o1, b as int));
        let qa = choose|q: int| 0 <= q < o2.len() && o2[q] == a;
        let qb = choose|q: int| 0 <= q < o1.len() && o1[q] == b;
        if qa < p {
            assert(o1[qa] == a);
            assert(sorted_before(cs, o1[qa] as int, o1[p] as int));
        } else if qb < p {
            assert(o2[qb] == b);
            assert(sorted_before(cs, o2[qb] as int, o2[p] as int));
        } else {
            assert(sorted_before(cs, o2[p] as int, o2[qa] as int));
            assert(sorted_before(cs, o1[p] as int, o1[qb] as int));
        }
    }
}

proof fn lemma_insert_pos(cs: Seq<TonalComponent>, o: Seq<usize>, x: int, pos: nat) -> (r: nat)
    requires
        pos <= o.len(),
        forall|q: int| pos <= q < o.len() ==> key_lt(cs[x], cs[#[trigger] o[q] as int]),
    ensures
        r <= pos,
        forall|q: int| r <= q < o.len() ==> key_lt(cs[x], cs[#[trigger] o[q] as int]),
        r == 0 || !key_lt(cs[x], cs[o[r - 1] as int]),
    decreases pos,
{
    if pos > 0 && key_lt(cs[x], cs[o[pos - 1] as int]) {
        lemma_insert_pos(cs, o, x, (pos - 1) as nat)
    } else {
        pos
    }
}

proof fn lemma_insertion_order(cs: Seq<TonalComponent>, i: nat) -> (ord: Seq<usize>)
    requires
        i <= cs.len(),
        cs.len() <= usize::MAX,
    ensures
        ord.len() == i,
        forall|p: int| 0 <= p < ord.len() ==> #[trigger] ord[p] < i,
        forall|x: int| 0 <= x < i ==> #[trigger] lists(ord, x),
        forall|p: int, q: int|
            0 <= p < q < ord.len() ==> sorted_before(cs, #[trigger] ord[p] as int, #[trigger] ord[q] as int),
    decreases i,
{
    if i == 0 {
        Seq::empty()
    } else {
        let n = (i - 1) as nat;
        let old_ord = lemma_insertion_order(cs, n);
        let pos = lemma_insert_pos(cs, old_ord, n as int, old_ord.len());
        let new_ord = old_ord.insert(pos as int, n as usize);
        old_ord.insert_ensures(pos as int, n as usize);
        assert forall|p: int| 0 <= p < new_ord.len() implies #[trigger] new_ord[p] < i by {
            if p < pos {
                assert(new_ord[p] == old_ord[p]);
            } else if p > pos {
                assert(new_ord[p] == old_ord[p - 1]);
            }
        }
        assert forall|x: int| 0 <= x < i implies #[trigger] lists(new_ord, x) by {
            if x == n {
                assert(new_ord[pos as int] == x);
            } else {
                assert(lists(old_ord, x));
                let p0 = choose|p: int| 0 <= p < old_ord.len() && old_ord[p] == x;
                if p0 < pos {
                    assert(new_ord[p0] == x);
                } else {
                    assert(new_ord[p0 + 1] == x);
                }
            }
        }
        assert forall|p: int, q: int| 0 <= p < q < new_ord.len() implies sorted_before(
            cs,
            #[trigger] new_ord[p] as int,
            #[trigger] new_ord[q] as int,
        ) by {
            if q < pos {
                assert(new_ord[p] == old_ord[p] && new_ord[q] == old_ord[q]);
            } else if p > pos {
                assert(new_ord[p] == old_ord[p - 1] && new_ord[q] == old_ord[q - 1]);
            } else if p < pos && q > pos {
                assert(new_ord[p] == old_ord[p] && new_ord[q] == old_ord[q - 1]);
            } else if p == pos {
                assert(new_ord[q] == old_ord[q - 1]);
                assert(key_lt(cs[n as int], cs[old_ord[q - 1] as int]));
            } else {
                assert(q == pos);
                assert(new_ord[p] == old_ord[p]);
                assert(old_ord[p] < n);
                let last = old_ord[pos - 1];
                assert(!key_lt(cs[n as int], cs[last as int]));
                if p < pos - 1 {
                    assert(sorted_before(cs, old_ord[p] as int, old_ord[pos - 1] as int));
                }
            }
        }
        new_ord
    }
}

/// Every list of components has its stable sort order.
pub proof fn lemma_stable_order_exists(cs: Seq<TonalComponent>)
    requires
        cs.len() <= usize::MAX,
    ensures
        is_stable_order(cs, spec_sorted_order(cs)),
{
    let o = lemma_insertion_order(cs, cs.len());
    assert(is_stable_order(cs, o));
}

/// `a` comes before `b` in the order of quantization table, number of coded
/// values and position.
pub fn key_less(a: &TonalComponent, b: &TonalComponent) -> (r: bool)
    ensures
        r == key_lt(*a, *b),
{
    if a.quant_selector != b.quant_selector {
        a.quant_selector < b.quant_selector
    } else if a.coded_values != b.coded_values {
        a.coded_values < b.coded_values
    } else {
        a.abs_pos < b.abs_pos
    }
}

/// The indices of `components` in the order of a stable sort by quantization
/// table, number of coded values and position.
pub fn tonal_sort_order(components: &[TonalComponent]) -> (ord: Vec<usize>)
    ensures
        is_stable_order(components@, ord@),
        ord@ == spec_sorted_order(components@),
{
    let ghost cs = components@;
    let n = components.len();
    let mut ord: Vec<usize> = Vec::new();
    let mut i: usize = 0;
    while i < n
        invariant
            cs == components@,
            n == cs.len(),
            i <= n,
            ord@.len() == i,
            forall|p: int| 0 <= p < ord@.len() ==> #[trigger] ord@[p] < i,
            forall|x: int| 0 <= x < i ==> #[trigger] lists(ord@, x),
            forall|p: int, q: int|
                0 <= p < q < ord@.len() ==> sorted_before(
                    cs,
                    #[trigger] ord@[p] as int,
                    #[trigger] ord@[q] as int,
                ),
        decreases n - i,
    {
        let mut pos: usize = ord.len();
        while pos > 0 && key_less(&components[i], &components[ord[pos - 1]])
            invariant
                cs == components@,
                n == cs.len(),
                i < n,
                pos <= ord@.len(),
                ord@.len() == i,
                forall|p: int| 0 <= p < ord@.len() ==> #[trigger] ord@[p] < i,
                forall|q: int| pos <= q < ord@.len() ==> key_lt(cs[i as int], cs[#[trigger] ord@[q] as int]),
            decreases pos,
        {
            pos -= 1;
        }
        let ghost old_ord = ord@;
        ord.insert(pos, i);
        proof {
            old_ord.insert_ensures(pos as int, i);
            let new_ord = ord@;
            assert forall|p: int| 0 <= p < new_ord.len() implies #[trigger] new_ord[p] < i + 1 by {
                if p < pos {
                    assert(new_ord[p] == old_ord[p]);
                } else if p > pos {
                    assert(new_ord[p] == old_ord[p - 1]);
                }
            }
            assert forall|x: int| 0 <= x < i + 1 implies #[trigger] lists(new_ord, x) by {
                if x == i {
                    assert(new_ord[pos as int] == x);
                } else {
                    assert(lists(old_ord, x));
                    let p0 = choose|p: int| 0 <= p < old_ord.len() && old_ord[p] == x;
                    if p0 < pos {
                        assert(new_ord[p0] == x);
                    } else {
                        assert(new_ord[p0 + 1] == x);
                    }
                }
            }
            assert forall|p: int, q: int| 0 <= p < q < new_ord.len() implies sorted_before(
                cs,
                #[trigger] new_ord[p] as int,
                #[trigger] new_ord[q] as int,
            ) by {
                if q < pos {
                    assert(new_ord[p] == old_ord[p] && new_ord[q] == old_ord[q]);
                } else if p > pos {
                    assert(new_ord[p] == old_ord[p - 1] && new_ord[q] == old_ord[q - 1]);
                } else if p < pos && q > pos {
                    assert(new_ord[p] == old_ord[p] && new_ord[q] == old_ord[q - 1]);
                } else if p == pos {
                    assert(new_ord[q] == old_ord[q - 1]);
                    assert(key_lt(cs[i as int], cs[old_ord[q - 1] as int]));
                } else {
                    assert(q == pos);
                    assert(new_ord[p] == old_ord[p]);
                    assert(old_ord[p] < i);
                    let last = old_ord[pos - 1];
                    assert(!key_lt(cs[i as int], cs[last as int]));
                    if p < pos - 1 {
                        assert(sorted_before(cs, old_ord[p] as int, old_ord[pos - 1] as int));
                    }
                }
            }
        }
        i += 1;
    }
    proof {
        assert(is_stable_order(cs, ord@));
        lemma_stable_order_unique(cs, ord@, spec_sorted_order(cs));
    }
    ord
}


/// The members of `g`, in order, whose component lies in spectral block `sb`
/// (64 lines per block).
pub open spec fn block_members(cs: Seq<TonalComponent>, g: Seq<usize>, sb: int) -> Seq<usize>
    decreases g.len(),
{
    if g.len() == 0 {
        Seq::empty()
    } else {
        block_members(cs, g.drop_last(), sb) + if cs[g.last() as int].abs_pos / 64 == sb {
            seq![g.last()]
        } else {
            Seq::empty()
        }
    }
}

/// Component `c` may join group `g`: same table and number of coded values as
/// the group's first component, and fewer than 7 members in its spectral block.
pub open spec fn can_join(cs: Seq<TonalComponent>, g: Seq<usize>, c: usize) -> bool {
    &&& g.len() > 0
    &&& cs[g[0] as int].quant_selector == cs[c as int].quant_selector
    &&& cs[g[0] as int].coded_values == cs[c as int].coded_values
    &&& block_members(cs, g, (cs[c as int].abs_pos / 64) as int).len() < 7
}

/// Groups built from the first `n` components of `ord`: each joins the last
/// group where it may, else starts a new one; once there are 31 groups the
/// rest are left out.
pub open spec fn greedy_groups(cs: Seq<TonalComponent>, ord: Seq<usize>, n: nat) -> Seq<
    Seq<usize>,
>
    decreases n,
{
    if n == 0 {
        Seq::empty()
    } else {
        let g = greedy_groups(cs, ord, (n - 1) as nat);
        if g.len() >= 31 {
            g
        } else if g.len() > 0 && can_join(cs, g.last(), ord[n - 1]) {
            g.update(g.len() - 1, g.last().push(ord[n - 1]))
        } else {
            g.push(seq![ord[n - 1]])
        }
    }
}

/// The groups of tonal components that a sound unit sends, as indices into
/// `cs`: the components in stable sort order, grouped greedily.
pub open spec fn spec_tonal_groups(cs: Seq<TonalComponent>) -> Seq<Seq<usize>> {
    greedy_groups(cs, spec_sorted_order(cs), cs.len())
}

/// Member `j` of group `g` is a component of `cs` with the table and value
/// count of the group's first member.
pub open spec fn group_member_ok(cs: Seq<TonalComponent>, g: Seq<usize>, j: int) -> bool {
    &&& g[j] < cs.len()
    &&& cs[g[j] as int].quant_selector == cs[g[0] as int].quant_selector
    &&& cs[g[j] as int].coded_values == cs[g[0] as int].coded_values
}

proof fn lemma_greedy_groups_shape(cs: Seq<TonalComponent>, ord: Seq<usize>, n: nat)
    requires
        n <= ord.len(),
        forall|p: int| 0 <= p < ord.len() ==> #[trigger] ord[p] < cs.len(),
    ensures
        greedy_groups(cs, ord, n).len() <= 31,
        n > 0 ==> greedy_groups(cs, ord, n).len() > 0,
        forall|i: int|
            0 <= i < greedy_groups(cs, ord, n).len() ==> (#[trigger] greedy_groups(cs, ord, n)[i]).len()
                > 0,
        forall|i: int, j: int|
            0 <= i < greedy_groups(cs, ord, n).len() && 0 <= j < greedy_groups(cs, ord, n)[i].len()
                ==> #[trigger] group_member_ok(cs, greedy_groups(cs, ord, n)[i], j),
    decreases n,
{
    if n > 0 {
        lemma_greedy_groups_shape(cs, ord, (n - 1) as nat);
        let g = greedy_groups(cs, ord, (n - 1) as nat);
        let c = ord[n - 1];
        let r = greedy_groups(cs, ord, n);
        if g.len() >= 31 {
        } else if g.len() > 0 && can_join(cs, g.last(), c) {
            let last = g.last().push(c);
            assert(r == g.update(g.len() - 1, last));
            assert forall|i: int, j: int| 0 <= i < r.len() && 0 <= j < r[i].len() implies #[trigger] group_member_ok(
                cs,
                r[i],
                j,
            ) by {
                if i == g.len() - 1 {
                    assert(r[i] == last);
                    assert(g[i] == g.last());
                    assert(last[0] == g.last()[0]);
                    assert(group_member_ok(cs, g[i], 0));
                    if j < g.last().len() {
                        assert(last[j] == g.last()[j]);
                        assert(group_member_ok(cs, g[i], j));
                    } else {
                        assert(last[j] == c);
                    }
                } else {
                    assert(r[i] == g[i]);
                    assert(group_member_ok(cs, g[i], j));
                }
            }
        } else {
            assert(r == g.push(seq![c]));
            assert forall|i: int, j: int| 0 <= i < r.len() && 0 <= j < r[i].len() implies #[trigger] group_member_ok(
                cs,
                r[i],
                j,
            ) by {
                if i < g.len() {
                    assert(r[i] == g[i]);
                    assert(group_member_ok(cs, g[i], j));
                }
            }
        }
    }
}

/// The groups of a list of components: at most 31, at least one where there
/// are components, none empty, every member a component of the list sharing
/// the table and value count of the group's first member.
pub proof fn lemma_tonal_groups_shape(cs: Seq<TonalComponent>)
    requires
        cs.len() <= usize::MAX,
    ensures
        spec_tonal_groups(cs).len() <= 31,
        cs.len() > 0 ==> spec_tonal_groups(cs).len() > 0,
        forall|i: int| 0 <= i < spec_tonal_groups(cs).len() ==> (#[trigger] spec_tonal_groups(cs)[i]).len() > 0,
        forall|i: int, j: int|
            0 <= i < spec_tonal_groups(cs).len() && 0 <= j < spec_tonal_groups(cs)[i].len()
                ==> #[trigger] group_member_ok(cs, spec_tonal_groups(cs)[i], j),
{
    lemma_stable_order_exists(cs);
    lemma_greedy_groups_shape(cs, spec_sorted_order(cs), cs.len());
}

proof fn lemma_greedy_block_cap(cs: Seq<TonalComponent>, ord: Seq<usize>, n: nat)
    requires
        n <= ord.len(),
    ensures
        forall|i: int, sb: int|
            0 <= i < greedy_groups(cs, ord, n).len() ==> #[trigger] block_members(
                cs,
                greedy_groups(cs, ord, n)[i],
                sb,
            ).len() <= 7,
    decreases n,
{
    if n > 0 {
        lemma_greedy_block_cap(cs, ord, (n - 1) as nat);
        let g = greedy_groups(cs, ord, (n - 1) as nat);
        let c = ord[n - 1];
        let r = greedy_groups(cs, ord, n);
        if g.len() >= 31 {
        } else if g.len() > 0 && can_join(cs, g.last(), c) {
            let last = g.last().push(c);
            assert(r == g.update(g.len() - 1, last));
            assert forall|i: int, sb: int| 0 <= i < r.len() implies #[trigger] block_members(cs, r[i], sb).len()
                <= 7 by {
                if i == g.len() - 1 {
                    assert(r[i] == last);
                    assert(last.drop_last() =~= g.last());
                    assert(last.last() == c);
                    assert(g[i] == g.last());
                    assert(block_members(cs, g[i], sb).len() <= 7);
                    if cs[c as int].abs_pos / 64 == sb {
                        assert(block_members(cs, g.last(), (cs[c as int].abs_pos / 64) as int).len() < 7);
                    }
                } else {
                    assert(r[i] == g[i]);
                    assert(block_members(cs, g[i], sb).len() <= 7);
                }
            }
        } else {
            assert(r == g.push(seq![c]));
            assert forall|i: int, sb: int| 0 <= i < r.len() implies #[trigger] block_members(cs, r[i], sb).len()
                <= 7 by {
                if i < g.len() {
                    assert(r[i] == g[i]);
                    assert(block_members(cs, g[i], sb).len() <= 7);
                } else {
                    let s1 = seq![c];
                    assert(r[i] == s1);
                    assert(s1.drop_last() =~= Seq::<usize>::empty());
                    assert(block_members(cs, s1.drop_last(), sb).len() == 0);
                    assert(block_members(cs, s1, sb).len() <= 1);
                }
            }
        }
    }
}

/// No group of a list of components holds more than 7 members in one
/// spectral block.
pub proof fn lemma_tonal_groups_block_cap(cs: Seq<TonalComponent>)
    requires
        cs.len() <= usize::MAX,
    ensures
        forall|i: int, sb: int|
            0 <= i < spec_tonal_groups(cs).len() ==> #[trigger] block_members(cs, spec_tonal_groups(cs)[i], sb).len()
                <= 7,
{
    lemma_stable_order_exists(cs);
    lemma_greedy_block_cap(cs, spec_sorted_order(cs), cs.len());
}

/// Between two neighbouring groups, the first member of the later group could
/// not have joined the earlier one: it has another table or another number of
/// coded values, or the earlier group already holds 7 members in its own
/// 64-line spectral block (members in other blocks do not count).
spec fn starts_new_group(cs: Seq<TonalComponent>, prev: Seq<usize>, c: usize) -> bool {
    ||| cs[c as int].quant_selector != cs[prev[0] as int].quant_selector
    ||| cs[c as int].coded_values != cs[prev[0] as int].coded_values
    ||| block_members(cs, prev, (cs[c as int].abs_pos / 64) as int).len() >= 7
}

proof fn lemma_greedy_boundaries(cs: Seq<TonalComponent>, ord: Seq<usize>, n: nat)
    requires
        n <= ord.len(),
        forall|p: int| 0 <= p < ord.len() ==> #[trigger] ord[p] < cs.len(),
    ensures
        forall|i: int|
            0 < i < greedy_groups(cs, ord, n).len() ==> starts_new_group(
                cs,
                greedy_groups(cs, ord, n)[i - 1],
                #[trigger] greedy_groups(cs, ord, n)[i][0],
            ),
    decreases n,
{
    if n > 0 {
        lemma_greedy_boundaries(cs, ord, (n - 1) as nat);
        lemma_greedy_groups_shape(cs, ord, (n - 1) as nat);
        let g = greedy_groups(cs, ord, (n - 1) as nat);
        let c = ord[n - 1];
        let r = greedy_groups(cs, ord, n);
        if g.len() >= 31 {
        } else if g.len() > 0 && can_join(cs, g.last(), c) {
            let last = g.last().push(c);
            assert(r == g.update(g.len() - 1, last));
            assert forall|i: int| 0 < i < r.len() implies starts_new_group(cs, r[i - 1], #[trigger] r[i][0]) by {
                if i == g.len() - 1 {
                    assert(r[i] == last);
                    assert(last[0] == g[i][0]);
                    assert(r[i - 1] == g[i - 1]);
                    assert(starts_new_group(cs, g[i - 1], g[i][0]));
                } else {
                    assert(r[i] == g[i]);
                    assert(r[i - 1] == g[i - 1]);
                    assert(starts_new_group(cs, g[i - 1], g[i][0]));
                }
            }
        } else {
            assert(r == g.push(seq![c]));
            assert forall|i: int| 0 < i < r.len() implies starts_new_group(cs, r[i - 1], #[trigger] r[i][0]) by {
                if i < g.len() {
                    assert(r[i] == g[i]);
                    assert(r[i - 1] == g[i - 1]);
                    assert(starts_new_group(cs, g[i - 1], g[i][0]));
                } else {
                    assert(r[i] == seq![c]);
                    assert(r[i - 1] == g.last());
                    assert(g.last().len() > 0);
                    assert(!can_join(cs, g.last(), c));
                }
            }
        }
    }
}

/// Components are grouped greedily: a group ends only where the next sorted
/// component may not join it, because it has another table or another number
/// of coded values, or because the group already holds 7 members in that
/// component's own 64-line spectral block; a group's members in other blocks
/// do not count toward the cap.
pub proof fn lemma_tonal_groups_boundaries(cs: Seq<TonalComponent>)
    requires
        cs.len() <= usize::MAX,
    ensures
        forall|i: int|
            0 < i < spec_tonal_groups(cs).len() ==> {
                let prev = spec_tonal_groups(cs)[i - 1];
                let c = #[trigger] spec_tonal_groups(cs)[i][0];
                ||| cs[c as int].quant_selector != cs[prev[0] as int].quant_selector
                ||| cs[c as int].coded_values != cs[prev[0] as int].coded_values
                ||| block_members(cs, prev, (cs[c as int].abs_pos / 64) as int).len() >= 7
            },
{
    lemma_stable_order_exists(cs);
    lemma_greedy_boundaries(cs, spec_sorted_order(cs), cs.len());
}

/// The members of `g` listed for block `sb` lie in that block and are
/// members of `g`.
pub proof fn lemma_block_members_in_block(cs: Seq<TonalComponent>, g: Seq<usize>, sb: int)
    ensures
        forall|k: int|
            0 <= k < block_members(cs, g, sb).len() ==> cs[#[trigger] block_members(cs, g, sb)[k] as int].abs_pos
                / 64 == sb && exists|j: int| 0 <= j < g.len() && g[j] == block_members(cs, g, sb)[k],
    decreases g.len(),
{
    if g.len() > 0 {
        let g1 = g.drop_last();
        lemma_block_members_in_block(cs, g1, sb);
        let ms = block_members(cs, g, sb);
        let ms1 = block_members(cs, g1, sb);
        assert forall|k: int| 0 <= k < ms.len() implies cs[#[trigger] ms[k] as int].abs_pos / 64 == sb
            && exists|j: int| 0 <= j < g.len() && g[j] == ms[k] by {
            if k < ms1.len() {
                assert(ms[k] == ms1[k]);
                let j = choose|j: int| 0 <= j < g1.len() && g1[j] == ms1[k];
                assert(g[j] == g1[j]);
            } else {
                assert(ms[k] == g.last());
                assert(g[g.len() - 1] == g.last());
            }
        }
    }
}

/// The index lists held in `groups`.
pub open spec fn groups_view(groups: Seq<Vec<usize>>) -> Seq<Seq<usize>> {
    groups.map_values(|v: Vec<usize>| v@)
}

proof fn lemma_greedy_groups_stop(cs: Seq<TonalComponent>, ord: Seq<usize>, k: nat, m: nat)
    requires
        k <= m,
        greedy_groups(cs, ord, k).len() >= 31,
    ensures
        greedy_groups(cs, ord, m) == greedy_groups(cs, ord, k),
    decreases m - k,
{
    if k < m {
        lemma_greedy_groups_stop(cs, ord, k, (m - 1) as nat);
    }
}

/// Number of members of `group` whose component lies in spectral block `sb`.
pub fn count_in_block(components: &[TonalComponent], group: &Vec<usize>, sb: usize) -> (r: usize)
    requires
        forall|j: int| 0 <= j < group@.len() ==> #[trigger] group@[j] < components@.len(),
    ensures
        r == block_members(components@, group@, sb as int).len(),
{
    let mut count: usize = 0;
    let mut j: usize = 0;
    while j < group.len()
        invariant
            j <= group@.len(),
            forall|k: int| 0 <= k < group@.len() ==> #[trigger] group@[k] < components@.len(),
            count == block_members(components@, group@.take(j as int), sb as int).len(),
            count <= j,
        decreases group@.len() - j,
    {
        assert(group@.take(j + 1).drop_last() =~= group@.take(j as int));
        if components[group[j]].abs_pos / 64 == sb {
            count += 1;
        }
        j += 1;
    }
    assert(group@.take(group@.len() as int) =~= group@);
    count
}

/// The groups of tonal components that a sound unit sends, as indices into
/// `components`.
pub fn tonal_component_groups(components: &[TonalComponent]) -> (groups: Vec<Vec<usize>>)
    ensures
        groups_view(groups@) == spec_tonal_groups(components@),
        groups@.len() <= 31,
        forall|g: int| 0 <= g < groups@.len() ==> (#[trigger] groups@[g])@.len() > 0,
        forall|g: int, j: int|
            0 <= g < groups@.len() && 0 <= j < groups@[g]@.len() ==> #[trigger] groups@[g]@[j]
                < components@.len(),
{
    let ghost cs = components@;
    let ord = tonal_sort_order(components);
    let n = components.len();
    let mut groups: Vec<Vec<usize>> = Vec::new();
    let mut k: usize = 0;
    while k < n && groups.len() < 31
        invariant
            cs == components@,
            n == cs.len(),
            is_stable_order(cs, ord@),
            ord@ == spec_sorted_order(cs),
            k <= n,
            groups@.len() <= 31,
            groups_view(groups@) == greedy_groups(cs, ord@, k as nat),
            forall|g: int| 0 <= g < groups@.len() ==> (#[trigger] groups@[g])@.len() > 0,
            forall|g: int, j: int|
                0 <= g < groups@.len() && 0 <= j < groups@[g]@.len() ==> #[trigger] groups@[g]@[j]
                    < n,
        decreases n - k,
    {
        let idx = ord[k];
        assert(idx < n);
        let spec_block = components[idx].abs_pos / 64;
        let mut can_extend = false;
        if groups.len() > 0 {
            let li = groups.len() - 1;
            assert(groups@[li as int]@.len() > 0);
            let first = groups[li][0];
            if components[first].quant_selector == components[idx].quant_selector
                && components[first].coded_values == components[idx].coded_values {
                let cnt = count_in_block(components, &groups[li], spec_block);
                can_extend = cnt < 7;
            }
        }
        let ghost before = groups@;
        proof {
            let gv = groups_view(before);
            if gv.len() > 0 {
                assert(gv.last() == before[gv.len() - 1]@);
            }
            assert(can_extend == (gv.len() > 0 && can_join(cs, gv.last(), ord@[k as int])));
        }
        if can_extend {
            let li = groups.len() - 1;
            groups[li].push(idx);
            proof {
                let gv = groups_view(before);
                assert(groups_view(groups@) =~= gv.update(gv.len() - 1, gv.last().push(idx)));
            }
        } else {
            let mut fresh: Vec<usize> = Vec::new();
            fresh.push(idx);
            groups.push(fresh);
            proof {
                let gv = groups_view(before);
                assert(groups_view(groups@) =~= gv.push(seq![idx]));
            }
        }
        k += 1;
    }
    proof {
        if k < n {
            lemma_greedy_groups_stop(cs, ord@, k as nat, n as nat);
        }
    }
    groups
}


/// Mantissa bits of a tonal component with table `qs` and `cv` coded values,
/// as counted when budgeting a sound unit.
pub open spec fn tonal_mantissa_bits(qs: int, cv: nat) -> nat {
    if qs == 1 {
        4 * ((cv + 1) / 2)
    } else {
        spec_clc_bits(qs) * cv
    }
}

/// Budgeted bits of the members of `g`: scale factor, position and mantissas.
pub open spec fn members_cost(cs: Seq<TonalComponent>, g: Seq<usize>) -> nat
    decreases g.len(),
{
    if g.len() == 0 {
        0
    } else {
        let c = cs[g.last() as int];
        members_cost(cs, g.drop_last()) + 12 + tonal_mantissa_bits(
            c.quant_selector as int,
            c.coded_values as nat,
        )
    }
}

/// Some member of `g` lies in QMF band `band` (256 lines per band).
pub open spec fn band_flag(cs: Seq<TonalComponent>, g: Seq<usize>, band: int) -> bool {
    exists|j: int| 0 <= j < g.len() && #[trigger] cs[g[j] as int].abs_pos / 256 == band
}

/// Number of the first `n` QMF bands that hold a member of `g`.
pub open spec fn active_bands(cs: Seq<TonalComponent>, g: Seq<usize>, n: nat) -> nat
    decreases n,
{
    if n == 0 {
        0
    } else {
        active_bands(cs, g, (n - 1) as nat) + if band_flag(cs, g, n - 1) {
            1nat
        } else {
            0nat
        }
    }
}

/// Budgeted bits of group `g` in a unit with `qmf` bands: band flags, value
/// count, table, 3-bit component counts of each flagged band's 4 blocks and
/// the members.
pub open spec fn group_cost(cs: Seq<TonalComponent>, g: Seq<usize>, qmf: nat) -> nat {
    qmf + 3 + 3 + active_bands(cs, g, qmf) * 4 * 3 + members_cost(cs, g)
}

/// Budgeted bits of the first `n` groups.
pub open spec fn groups_cost(cs: Seq<TonalComponent>, gs: Seq<Seq<usize>>, qmf: nat, n: nat) -> nat
    decreases n,
{
    if n == 0 {
        0
    } else {
        groups_cost(cs, gs, qmf, (n - 1) as nat) + group_cost(cs, gs[n - 1], qmf)
    }
}

/// Bits that tonal components add to a sound unit with `qmf` bands: none
/// without components, else a 2-bit mode and the cost of each group.
pub open spec fn spec_tonal_extra_bits(cs: Seq<TonalComponent>, qmf: nat) -> nat {
    let gs = spec_tonal_groups(cs);
    if cs.len() == 0 || gs.len() == 0 {
        0
    } else {
        2 + groups_cost(cs, gs, qmf, gs.len())
    }
}

proof fn lemma_groups_cost_mono(cs: Seq<TonalComponent>, gs: Seq<Seq<usize>>, qmf: nat, a: nat, b: nat)
    requires
        a <= b,
    ensures
        groups_cost(cs, gs, qmf, a) <= groups_cost(cs, gs, qmf, b),
    decreases b - a,
{
    if a < b {
        lemma_groups_cost_mono(cs, gs, qmf, a, (b - 1) as nat);
    }
}

proof fn lemma_members_cost_prefix(cs: Seq<TonalComponent>, g: Seq<usize>, j: int)
    requires
        0 <= j <= g.len(),
    ensures
        members_cost(cs, g.take(j)) <= members_cost(cs, g),
    decreases g.len() - j,
{
    if j < g.len() {
        lemma_members_cost_prefix(cs, g, j + 1);
        assert(g.take(j + 1).drop_last() =~= g.take(j));
    } else {
        assert(g.take(j) =~= g);
    }
}

proof fn lemma_active_bands_bound(cs: Seq<TonalComponent>, g: Seq<usize>, n: nat)
    ensures
        active_bands(cs, g, n) <= n,
    decreases n,
{
    if n > 0 {
        lemma_active_bands_bound(cs, g, (n - 1) as nat);
    }
}

/// Whether some member of `group` lies in QMF band `band`.
fn group_has_band(components: &[TonalComponent], group: &Vec<usize>, band: usize) -> (r: bool)
    requires
        forall|j: int| 0 <= j < group@.len() ==> #[trigger] group@[j] < components@.len(),
    ensures
        r == band_flag(components@, group@, band as int),
{
    let mut j: usize = 0;
    while j < group.len()
        invariant
            j <= group@.len(),
            forall|k: int| 0 <= k < group@.len() ==> #[trigger] group@[k] < components@.len(),
            forall|k: int|
                0 <= k < j ==> #[trigger] components@[group@[k] as int].abs_pos / 256 != band,
        decreases group@.len() - j,
    {
        if components[group[j]].abs_pos / 256 == band {
            return true;
        }
        j += 1;
    }
    proof {
        if band_flag(components@, group@, band as int) {
            let k = choose|k: int|
                0 <= k < group@.len() && #[trigger] components@[group@[k] as int].abs_pos / 256
                    == band;
            assert(components@[group@[k] as int].abs_pos / 256 != band);
        }
    }
    false
}

/// Bits that tonal components add to a sound unit with `qmf_bands` bands.
pub fn tonal_components_extra_bits(components: &[TonalComponent], qmf_bands: usize) -> (r: usize)
    requires
        spec_tonal_extra_bits(components@, qmf_bands as nat) <= usize::MAX,
    ensures
        r == spec_tonal_extra_bits(components@, qmf_bands as nat),
{
    let ghost cs = components@;
    if components.len() == 0 {
        return 0;
    }
    let groups = tonal_component_groups(components);
    let ghost gs = groups_view(groups@);
    if groups.len() == 0 {
        return 0;
    }
    let mut bits: usize = 2;
    let mut i: usize = 0;
    while i < groups.len()
        invariant
            cs == components@,
            gs == groups_view(groups@),
            gs == spec_tonal_groups(cs),
            cs.len() > 0,
            gs.len() > 0,
            i <= groups@.len(),
            forall|g: int, j: int|
                0 <= g < groups@.len() && 0 <= j < groups@[g]@.len() ==> #[trigger] groups@[g]@[j]
                    < components@.len(),
            2 + groups_cost(cs, gs, qmf_bands as nat, gs.len()) <= usize::MAX,
            bits == 2 + groups_cost(cs, gs, qmf_bands as nat, i as nat),
        decreases groups@.len() - i,
    {
        let group = &groups[i];
        let ghost g = group@;
        assert(g == gs[i as int]);
        proof {
            lemma_groups_cost_mono(cs, gs, qmf_bands as nat, (i + 1) as nat, gs.len());
            lemma_active_bands_bound(cs, g, qmf_bands as nat);
        }
        let mut active: usize = 0;
        let mut band: usize = 0;
        while band < qmf_bands
            invariant
                g == group@,
                forall|j: int| 0 <= j < group@.len() ==> #[trigger] group@[j] < components@.len(),
                band <= qmf_bands,
                active == active_bands(components@, g, band as nat),
                active <= band,
            decreases qmf_bands - band,
        {
            if group_has_band(components, group, band) {
                active += 1;
            }
            band += 1;
        }
        let mut component_bits: usize = 0;
        let mut j: usize = 0;
        while j < group.len()
            invariant
                g == group@,
                cs == components@,
                forall|k: int| 0 <= k < group@.len() ==> #[trigger] group@[k] < components@.len(),
                j <= group@.len(),
                component_bits == members_cost(cs, g.take(j as int)),
                members_cost(cs, g) <= usize::MAX,
            decreases group@.len() - j,
        {
            proof {
                lemma_members_cost_prefix(cs, g, j + 1);
                assert(g.take(j + 1).drop_last() =~= g.take(j as int));
            }
            let c = &components[group[j]];
            let mantissa_bits: usize = if c.quant_selector == 1 {
                4 * ((c.coded_values + 1) / 2)
            } else {
                let w: usize = if c.quant_selector > 7 {
                    0
                } else {
                    clc_bits(c.quant_selector as u32)
                };
                w * c.coded_values
            };
            component_bits += 6 + 6 + mantissa_bits;
            j += 1;
        }
        assert(g.take(g.len() as int) =~= g);
        bits += qmf_bands + 3 + 3 + active * 4 * 3 + component_bits;
        i += 1;
    }
    bits
}


/// The 4-bit code of the `k`-th chunk of two mantissas of a table-1 tonal
/// component; a missing second mantissa counts as 0.
pub open spec fn chunk_pair_field(ms: Seq<i16>, k: int) -> Seq<u8> {
    let b: i16 = if 2 * k + 1 < ms.len() {
        ms[2 * k + 1]
    } else {
        0i16
    };
    bits_msb((4 * spec_pair_code(ms[2 * k] as int) + spec_pair_code(b as int)) as u32, 4)
}

/// Table-1 codes of the first `n` chunks of two mantissas of `ms`.
pub open spec fn chunk_fields(ms: Seq<i16>, n: nat) -> Seq<u8> {
    concat_fields(|k: int| chunk_pair_field(ms, k), n)
}

/// `w`-bit codes of the first `n` mantissas of `ms`.
pub open spec fn value_fields(ms: Seq<i16>, n: nat, w: nat) -> Seq<u8> {
    concat_fields(|k: int| signed_field(ms[k], w), n)
}

/// Number of mantissas a tonal component of a table other than 1 sends: its
/// coded values, as far as it holds mantissas.
pub open spec fn sent_values(c: TonalComponent) -> nat {
    if c.coded_values <= c.mantissas@.len() {
        c.coded_values as nat
    } else {
        c.mantissas@.len()
    }
}

/// Mantissa codes of a tonal component: chunks of two for table 1, else one
/// fixed-length code per sent value.
pub open spec fn component_mantissa_bits(c: TonalComponent) -> Seq<u8> {
    if c.quant_selector == 1 {
        chunk_fields(c.mantissas@, (c.mantissas@.len() + 1) / 2)
    } else {
        value_fields(c.mantissas@, sent_values(c), spec_clc_bits(c.quant_selector as int))
    }
}

/// The bits of one tonal component: scale factor, position in its block and
/// mantissa codes.
pub open spec fn component_bits(c: TonalComponent) -> Seq<u8> {
    bits_msb(c.sf_idx as u32, 6) + bits_msb((c.abs_pos % 64) as u32, 6) + component_mantissa_bits(c)
}

/// A tonal component can be written: its table has a code width, or it sends
/// no value.
pub open spec fn component_writable(c: TonalComponent) -> bool {
    1 <= c.quant_selector <= 7 || sent_values(c) == 0
}

/// The bits of the first `n` components listed in `ms`.
pub open spec fn member_fields(cs: Seq<TonalComponent>, ms: Seq<usize>, n: nat) -> Seq<u8> {
    concat_fields(|k: int| component_bits(cs[ms[k] as int]), n)
}

/// How many members of `g` a block `sb` sends: at most 7.
pub open spec fn block_sent(cs: Seq<TonalComponent>, g: Seq<usize>, sb: int) -> nat {
    let n = block_members(cs, g, sb).len();
    if n <= 7 {
        n
    } else {
        7
    }
}

/// The bits of spectral block `sb` of group `g`: a 3-bit component count and
/// the first 7 members in the block.
pub open spec fn block_bits(cs: Seq<TonalComponent>, g: Seq<usize>, sb: int) -> Seq<u8> {
    bits_msb(block_sent(cs, g, sb) as u32, 3) + member_fields(
        cs,
        block_members(cs, g, sb),
        block_sent(cs, g, sb),
    )
}

/// The bits of the first `n` spectral blocks of QMF band `b`.
pub open spec fn block_fields(cs: Seq<TonalComponent>, g: Seq<usize>, b: int, n: nat) -> Seq<u8> {
    concat_fields(|l: int| block_bits(cs, g, 4 * b + l), n)
}

/// The bits of QMF band `b` of group `g`: its 4 blocks where the band is
/// flagged, else nothing.
pub open spec fn band_bits(cs: Seq<TonalComponent>, g: Seq<usize>, b: int) -> Seq<u8> {
    if band_flag(cs, g, b) {
        block_fields(cs, g, b, 4)
    } else {
        Seq::empty()
    }
}

/// The flag bit of QMF band `b` of group `g`.
pub open spec fn flag_field(cs: Seq<TonalComponent>, g: Seq<usize>, b: int) -> Seq<u8> {
    bits_msb(
        if band_flag(cs, g, b) {
            1u32
        } else {
            0u32
        },
        1,
    )
}

/// Flag bits of the first `n` QMF bands of group `g`.
pub open spec fn flag_fields(cs: Seq<TonalComponent>, g: Seq<usize>, n: nat) -> Seq<u8> {
    concat_fields(|b: int| flag_field(cs, g, b), n)
}

/// Band bits of the first `n` QMF bands of group `g`.
pub open spec fn band_fields(cs: Seq<TonalComponent>, g: Seq<usize>, n: nat) -> Seq<u8> {
    concat_fields(|b: int| band_bits(cs, g, b), n)
}

/// The bits of group `g` in a unit with `qmf` bands: band flags, value count
/// less one, table, then the flagged bands.
pub open spec fn group_bits(cs: Seq<TonalComponent>, g: Seq<usize>, qmf: nat) -> Seq<u8> {
    flag_fields(cs, g, qmf) + bits_msb((cs[g[0] as int].coded_values - 1) as u32, 3) + bits_msb(
        cs[g[0] as int].quant_selector as u32,
        3,
    ) + band_fields(cs, g, qmf)
}

/// The bits of the first `n` groups of `gs`.
pub open spec fn group_fields(cs: Seq<TonalComponent>, gs: Seq<Seq<usize>>, qmf: nat, n: nat) -> Seq<
    u8,
> {
    concat_fields(|i: int| group_bits(cs, gs[i], qmf), n)
}

/// The tonal-component part of a sound unit with `qmf` bands: a 5-bit group
/// count (0 without components), then a 2-bit coding mode (1: fixed-length
/// codes) and the groups.
pub open spec fn tonal_bits(cs: Seq<TonalComponent>, qmf: nat) -> Seq<u8> {
    let gs = spec_tonal_groups(cs);
    if cs.len() == 0 || gs.len() == 0 {
        bits_msb(0, 5)
    } else {
        bits_msb(gs.len() as u32, 5) + bits_msb(1, 2) + group_fields(cs, gs, qmf, gs.len())
    }
}

/// The grouped components of `cs` can be written: each group's value count
/// is at least 1 and each member can be written.
pub open spec fn tonal_writable(cs: Seq<TonalComponent>) -> bool {
    let gs = spec_tonal_groups(cs);
    forall|i: int, j: int|
        0 <= i < gs.len() && 0 <= j < gs[i].len() ==> {
            &&& cs[gs[i][0] as int].coded_values >= 1
            &&& component_writable(#[trigger] cs[gs[i][j] as int])
        }
}

/// Whether the components can be written (see `tonal_writable`).
pub fn tonal_is_writable(components: &[TonalComponent]) -> (r: bool)
    ensures
        r == tonal_writable(components@),
{
    let ghost cs = components@;
    let groups = tonal_component_groups(components);
    let ghost gs = spec_tonal_groups(cs);
    assert(gs.len() == groups@.len());
    let mut i: usize = 0;
    while i < groups.len()
        invariant
            cs == components@,
            gs == spec_tonal_groups(cs),
            groups_view(groups@) == gs,
            i <= groups@.len(),
            forall|g: int, j: int|
                0 <= g < groups@.len() && 0 <= j < groups@[g]@.len() ==> #[trigger] groups@[g]@[j]
                    < components@.len(),
            forall|a: int, b: int|
                0 <= a < i && 0 <= b < gs[a].len() ==> {
                    &&& cs[gs[a][0] as int].coded_values >= 1
                    &&& component_writable(#[trigger] cs[gs[a][b] as int])
                },
        decreases groups@.len() - i,
    {
        let group = &groups[i];
        assert(gs[i as int] == group@);
        let mut j: usize = 0;
        while j < group.len()
            invariant
                cs == components@,
                gs == spec_tonal_groups(cs),
                groups_view(groups@) == gs,
                i < groups@.len(),
                group == groups@[i as int],
                gs[i as int] == group@,
                j <= group@.len(),
                forall|g: int, j: int|
                    0 <= g < groups@.len() && 0 <= j < groups@[g]@.len() ==> #[trigger] groups@[g]@[j]
                        < components@.len(),
                forall|b: int|
                    0 <= b < j ==> {
                        &&& cs[gs[i as int][0] as int].coded_values >= 1
                        &&& component_writable(#[trigger] cs[gs[i as int][b] as int])
                    },
            decreases group@.len() - j,
        {
            assert(group@[0] < components@.len());
            assert(group@[j as int] < components@.len());
            let first = &components[group[0]];
            if first.coded_values < 1 {
                return false;
            }
            let c = &components[group[j]];
            let sent = if c.coded_values <= c.mantissas.len() {
                c.coded_values
            } else {
                c.mantissas.len()
            };
            if !((1 <= c.quant_selector && c.quant_selector <= 7) || sent == 0) {
                assert(!component_writable(cs[gs[i as int][j as int] as int]));
                return false;
            }
            j += 1;
        }
        i += 1;
    }
    true
}

/// Writes one tonal component.
pub fn write_tonal_component(c: &TonalComponent, bw: &mut BitWriter)
    requires
        component_writable(*c),
        old(bw).wf(),
        old(bw).written().len() + component_bits(*c).len() <= usize::MAX,
    ensures
        final(bw).wf(),
        final(bw).written() == old(bw).written() + component_bits(*c),
{
    let ghost w0 = bw.written();
    let ghost ms = c.mantissas@;
    bw.write_bits(c.sf_idx as u32, 6);
    bw.write_bits((c.abs_pos % 64) as u32, 6);
    let ghost w1 = bw.written();
    assert(w1 == w0 + bits_msb(c.sf_idx as u32, 6) + bits_msb((c.abs_pos % 64) as u32, 6));
    let len = c.mantissas.len();
    if c.quant_selector == 1 {
        let chunks = len / 2 + len % 2;
        let mut k: usize = 0;
        while k < chunks
            invariant
                ms == c.mantissas@,
                len == ms.len(),
                chunks == (len + 1) / 2,
                k <= chunks,
                bw.wf(),
                w1.len() + chunk_fields(ms, chunks as nat).len() <= usize::MAX,
                bw.written() == w1 + chunk_fields(ms, k as nat),
            decreases chunks - k,
        {
            proof {
                lemma_concat_fields_prefix(|k: int| chunk_pair_field(ms, k), (k + 1) as nat, chunks as nat);
            }
            let a = c.mantissas[2 * k];
            let b: i16 = if 2 * k + 1 < len {
                c.mantissas[2 * k + 1]
            } else {
                0
            };
            bw.write_bits(selector1_clc_pair_bits(a, b), 4);
            k += 1;
            assert(bw.written() =~= w1 + chunk_fields(ms, k as nat));
        }
        assert(bw.written() =~= w0 + component_bits(*c));
    } else {
        let count = if c.coded_values <= len {
            c.coded_values
        } else {
            len
        };
        let w: usize = if c.quant_selector > 7 {
            0
        } else {
            clc_bits(c.quant_selector as u32)
        };
        assert(w == spec_clc_bits(c.quant_selector as int));
        let mut k: usize = 0;
        while k < count
            invariant
                ms == c.mantissas@,
                count == sent_values(*c),
                count <= ms.len(),
                w == spec_clc_bits(c.quant_selector as int),
                count > 0 ==> 3 <= w <= 6,
                k <= count,
                bw.wf(),
                w1.len() + value_fields(ms, count as nat, w as nat).len() <= usize::MAX,
                bw.written() == w1 + value_fields(ms, k as nat, w as nat),
            decreases count - k,
        {
            proof {
                lemma_concat_fields_prefix(|k: int| signed_field(ms[k], w as nat), (k + 1) as nat, count as nat);
            }
            let code = make_signed_bits(c.mantissas[k], w);
            bw.write_bits(code, w);
            k += 1;
            assert(bw.written() =~= w1 + value_fields(ms, k as nat, w as nat));
        }
        assert(bw.written() =~= w0 + component_bits(*c));
    }
}

/// The members of `g` in block `sb`, taken from a prefix of `g`, are a prefix
/// of those taken from all of `g`.
proof fn lemma_block_members_prefix(cs: Seq<TonalComponent>, g: Seq<usize>, sb: int, j: int)
    requires
        0 <= j <= g.len(),
    ensures
        block_members(cs, g.take(j), sb).len() <= block_members(cs, g, sb).len(),
        block_members(cs, g, sb).take(block_members(cs, g.take(j), sb).len() as int)
            == block_members(cs, g.take(j), sb),
    decreases g.len() - j,
{
    if j < g.len() {
        lemma_block_members_prefix(cs, g, sb, j + 1);
        assert(g.take(j + 1).drop_last() =~= g.take(j));
        let a = block_members(cs, g.take(j), sb);
        let b = block_members(cs, g.take(j + 1), sb);
        let full = block_members(cs, g, sb);
        assert(full.take(a.len() as int) =~= b.take(a.len() as int));
        assert(b.take(a.len() as int) =~= a);
    } else {
        assert(g.take(j) =~= g);
        assert(block_members(cs, g, sb).take(block_members(cs, g, sb).len() as int)
            =~= block_members(cs, g, sb));
    }
}

pub(crate) proof fn lemma_block_members_valid(cs: Seq<TonalComponent>, g: Seq<usize>, sb: int)
    requires
        forall|j: int| 0 <= j < g.len() ==> #[trigger] g[j] < cs.len(),
    ensures
        forall|k: int|
            0 <= k < block_members(cs, g, sb).len() ==> #[trigger] block_members(cs, g, sb)[k]
                < cs.len() && exists|j: int| 0 <= j < g.len() && g[j] == block_members(cs, g, sb)[k],
    decreases g.len(),
{
    if g.len() > 0 {
        let h = g.drop_last();
        assert forall|j: int| 0 <= j < h.len() implies #[trigger] h[j] < cs.len() by {
            assert(h[j] == g[j]);
        }
        lemma_block_members_valid(cs, h, sb);
        let a = block_members(cs, h, sb);
        let full = block_members(cs, g, sb);
        assert forall|k: int| 0 <= k < full.len() implies #[trigger] full[k] < cs.len() && exists|j: int|
            0 <= j < g.len() && g[j] == full[k] by {
            if k < a.len() {
                assert(full[k] == a[k]);
                let j0 = choose|j: int| 0 <= j < h.len() && h[j] == a[k];
                assert(g[j0] == full[k]);
            } else {
                assert(full[k] == g.last());
                assert(g[g.len() - 1] == full[k]);
            }
        }
    }
}

/// Writes spectral block `sb` of group `group`.
fn write_tonal_block(components: &[TonalComponent], group: &Vec<usize>, sb: usize, bw: &mut BitWriter)
    requires
        forall|j: int| 0 <= j < group@.len() ==> #[trigger] group@[j] < components@.len(),
        forall|j: int|
            0 <= j < group@.len() ==> component_writable(#[trigger] components@[group@[j] as int]),
        old(bw).wf(),
        old(bw).written().len() + block_bits(components@, group@, sb as int).len() <= usize::MAX,
    ensures
        final(bw).wf(),
        final(bw).written() == old(bw).written() + block_bits(components@, group@, sb as int),
{
    let ghost cs = components@;
    let ghost g = group@;
    let ghost ms = block_members(cs, g, sb as int);
    let ghost w0 = bw.written();
    let n = count_in_block(components, group, sb);
    let sent: usize = if n <= 7 {
        n
    } else {
        7
    };
    bw.write_bits(sent as u32, 3);
    let ghost w1 = bw.written();
    proof {
        lemma_block_members_valid(cs, g, sb as int);
    }
    let mut taken: usize = 0;
    let mut j: usize = 0;
    while j < group.len()
        invariant
            cs == components@,
            g == group@,
            ms == block_members(cs, g, sb as int),
            forall|k: int| 0 <= k < group@.len() ==> #[trigger] group@[k] < components@.len(),
            forall|k: int|
                0 <= k < group@.len() ==> component_writable(#[trigger] components@[group@[k] as int]),
            sent == block_sent(cs, g, sb as int),
            j <= g.len(),
            taken == if block_members(cs, g.take(j as int), sb as int).len() <= 7 {
                block_members(cs, g.take(j as int), sb as int).len()
            } else {
                7
            },
            bw.wf(),
            w1.len() + member_fields(cs, ms, sent as nat).len() <= usize::MAX,
            bw.written() == w1 + member_fields(cs, ms, taken as nat),
        decreases g.len() - j,
    {
        proof {
            lemma_block_members_prefix(cs, g, sb as int, j as int);
            lemma_block_members_prefix(cs, g, sb as int, j + 1);
            assert(g.take(j + 1).drop_last() =~= g.take(j as int));
        }
        let idx = group[j];
        if components[idx].abs_pos / 64 == sb && taken < 7 {
            proof {
                let a = block_members(cs, g.take(j as int), sb as int);
                assert(g.take(j + 1).last() == idx);
                let b = block_members(cs, g.take(j + 1), sb as int);
                assert(b == a.push(idx));
                assert(ms.take(b.len() as int) == b);
                assert(ms.take(b.len() as int)[a.len() as int] == ms[a.len() as int]);
                assert(ms[a.len() as int] == idx);
                assert(taken == a.len());
                lemma_concat_fields_prefix(|k: int| component_bits(cs[ms[k] as int]), (taken + 1) as nat, sent as nat);
            }
            write_tonal_component(&components[idx], bw);
            taken += 1;
            assert(bw.written() =~= w1 + member_fields(cs, ms, taken as nat));
        }
        j += 1;
    }
    assert(g.take(g.len() as int) =~= g);
    assert(bw.written() =~= w0 + block_bits(cs, g, sb as int));
}


/// Writes group `group` of a unit with `qmf_bands` bands.
fn write_tonal_group(
    components: &[TonalComponent],
    group: &Vec<usize>,
    qmf_bands: usize,
    bw: &mut BitWriter,
)
    requires
        group@.len() > 0,
        components@[group@[0] as int].coded_values >= 1,
        forall|j: int| 0 <= j < group@.len() ==> #[trigger] group@[j] < components@.len(),
        forall|j: int|
            0 <= j < group@.len() ==> component_writable(#[trigger] components@[group@[j] as int]),
        old(bw).wf(),
        old(bw).written().len() + group_bits(components@, group@, qmf_bands as nat).len()
            <= usize::MAX,
    ensures
        final(bw).wf(),
        final(bw).written() == old(bw).written() + group_bits(components@, group@, qmf_bands as nat),
{
    let ghost cs = components@;
    let ghost g = group@;
    let ghost w0 = bw.written();
    let ghost total = group_bits(cs, g, qmf_bands as nat);
    let ghost flags = flag_fields(cs, g, qmf_bands as nat);
    let ghost bands = band_fields(cs, g, qmf_bands as nat);
    let first = &components[group[0]];
    let ghost head = bits_msb((first.coded_values - 1) as u32, 3) + bits_msb(
        first.quant_selector as u32,
        3,
    );
    assert(total == flags + head + bands);
    let mut b: usize = 0;
    while b < qmf_bands
        invariant
            cs == components@,
            g == group@,
            flags == flag_fields(cs, g, qmf_bands as nat),
            forall|j: int| 0 <= j < group@.len() ==> #[trigger] group@[j] < components@.len(),
            b <= qmf_bands,
            bw.wf(),
            w0.len() + flags.len() <= usize::MAX,
            bw.written() == w0 + flag_fields(cs, g, b as nat),
        decreases qmf_bands - b,
    {
        proof {
            lemma_concat_fields_prefix(|b: int| flag_field(cs, g, b), (b + 1) as nat, qmf_bands as nat);
        }
        let flag = group_has_band(components, group, b);
        bw.write_bits(if flag {
            1
        } else {
            0
        }, 1);
        b += 1;
        assert(bw.written() =~= w0 + flag_fields(cs, g, b as nat));
    }
    bw.write_bits((first.coded_values - 1) as u32, 3);
    bw.write_bits(first.quant_selector as u32, 3);
    let ghost w1 = bw.written();
    assert(w1 =~= w0 + flags + head);
    let mut band: usize = 0;
    while band < qmf_bands
        invariant
            cs == components@,
            g == group@,
            bands == band_fields(cs, g, qmf_bands as nat),
            forall|j: int| 0 <= j < group@.len() ==> #[trigger] group@[j] < components@.len(),
            forall|j: int|
                0 <= j < group@.len() ==> component_writable(#[trigger] components@[group@[j] as int]),
            band <= qmf_bands,
            qmf_bands <= usize::MAX,
            bw.wf(),
            w1.len() + bands.len() <= usize::MAX,
            bw.written() == w1 + band_fields(cs, g, band as nat),
        decreases qmf_bands - band,
    {
        proof {
            lemma_concat_fields_prefix(|b: int| band_bits(cs, g, b), (band + 1) as nat, qmf_bands as nat);
        }
        let ghost wb = bw.written();
        if group_has_band(components, group, band) {
            assert(band_bits(cs, g, band as int) == block_fields(cs, g, band as int, 4));
            proof {
                let j = choose|j: int|
                    0 <= j < g.len() && #[trigger] cs[g[j] as int].abs_pos / 256 == band;
                assert(cs[g[j] as int].abs_pos <= usize::MAX);
            }
            assert(band <= usize::MAX / 256);
            let mut local: usize = 0;
            while local < 4
                invariant
                    cs == components@,
                    g == group@,
                    forall|j: int| 0 <= j < group@.len() ==> #[trigger] group@[j] < components@.len(),
                    forall|j: int|
                        0 <= j < group@.len() ==> component_writable(
                            #[trigger] components@[group@[j] as int],
                        ),
                    band < qmf_bands,
                    band <= usize::MAX / 256,
                    local <= 4,
                    bw.wf(),
                    wb.len() + block_fields(cs, g, band as int, 4).len() <= usize::MAX,
                    bw.written() == wb + block_fields(cs, g, band as int, local as nat),
                decreases 4 - local,
            {
                proof {
                    lemma_concat_fields_prefix(
                        |l: int| block_bits(cs, g, 4 * (band as int) + l),
                        (local + 1) as nat,
                        4,
                    );
                }
                let sb = band * 4 + local;
                write_tonal_block(components, group, sb, bw);
                local += 1;
                assert(bw.written() =~= wb + block_fields(cs, g, band as int, local as nat));
            }
        } else {
            assert(band_bits(cs, g, band as int) == Seq::<u8>::empty());
        }
        band += 1;
        assert(bw.written() =~= w1 + band_fields(cs, g, band as nat));
    }
    assert(bw.written() =~= w0 + total);
}

/// Writes the tonal-component part of a sound unit with `qmf_bands` bands.
pub fn write_tonal_components(components: &[TonalComponent], qmf_bands: usize, bw: &mut BitWriter)
    requires
        tonal_writable(components@),
        old(bw).wf(),
        old(bw).written().len() + tonal_bits(components@, qmf_bands as nat).len() <= usize::MAX,
    ensures
        final(bw).wf(),
        final(bw).written() == old(bw).written() + tonal_bits(components@, qmf_bands as nat),
{
    let ghost cs = components@;
    let ghost w0 = bw.written();
    if components.len() == 0 {
        bw.write_bits(0, 5);
        return;
    }
    let groups = tonal_component_groups(components);
    let ghost gs = groups_view(groups@);
    if groups.len() == 0 {
        bw.write_bits(0, 5);
        return;
    }
    let count: u32 = if groups.len() <= 31 {
        groups.len() as u32
    } else {
        31
    };
    bw.write_bits(count, 5);
    bw.write_bits(1, 2);
    let ghost w1 = bw.written();
    let ghost all = group_fields(cs, gs, qmf_bands as nat, gs.len());
    assert(w1 =~= w0 + bits_msb(gs.len() as u32, 5) + bits_msb(1, 2));
    let mut i: usize = 0;
    while i < groups.len()
        invariant
            cs == components@,
            gs == groups_view(groups@),
            gs == spec_tonal_groups(cs),
            tonal_writable(cs),
            all == group_fields(cs, gs, qmf_bands as nat, gs.len()),
            forall|g: int| 0 <= g < groups@.len() ==> (#[trigger] groups@[g])@.len() > 0,
            forall|g: int, j: int|
                0 <= g < groups@.len() && 0 <= j < groups@[g]@.len() ==> #[trigger] groups@[g]@[j]
                    < components@.len(),
            i <= groups@.len(),
            bw.wf(),
            w1.len() + all.len() <= usize::MAX,
            bw.written() == w1 + group_fields(cs, gs, qmf_bands as nat, i as nat),
        decreases groups@.len() - i,
    {
        proof {
            lemma_concat_fields_prefix(
                |i: int| group_bits(cs, gs[i], qmf_bands as nat),
                (i + 1) as nat,
                gs.len(),
            );
        }
        let group = &groups[i];
        assert(group@ == gs[i as int]);
        assert(group@.len() > 0);
        assert forall|j: int| 0 <= j < group@.len() implies component_writable(
            #[trigger] components@[group@[j] as int],
        ) by {
            assert(gs[i as int][j] == group@[j]);
        }
        assert(cs[gs[i as int][0] as int].coded_values >= 1);
        write_tonal_group(components, group, qmf_bands, bw);
        i += 1;
        assert(bw.written() =~= w1 + group_fields(cs, gs, qmf_bands as nat, i as nat));
    }
    assert(bw.written() =~= w0 + tonal_bits(cs, qmf_bands as nat));
}

} // verus!
