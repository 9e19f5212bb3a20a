//! Reading an ATRAC3 sound unit back: the fields of its header, gain control,
//! tonal components, block selectors, scale factors and fixed-length mantissas.
use vstd::prelude::*;
use vstd::arithmetic::power2::{pow2, lemma_pow2_pos, lemma_pow2_unfold, lemma2_to64, lemma_pow2_adds};
use vstd::arithmetic::div_mod::{lemma_mod_multiples_vanish, lemma_small_mod};
use vstd::bits::{lemma_u32_shl_is_mul, lemma_u32_pow2_no_overflow};
use crate::huffman::{
    bit_at, bits_value, byte_bit, lemma_bits_value_bound, lemma_byte_bit_range, lemma_shift_in_bit,
    lemma_mod_shift_in,
};
use crate::sound_unit::{
    spec_sign_extend, spec_clc_bits, clc_bits, spec_pair_value, clc_pair_value, spec_quant_limit,
    selector_quant_limit,
};
use crate::huffman::{spec_huff_codes, huff_tab_size, atrac3_huff_codes};

verus! {

/// `n` bits of `d` read at bit `p` as a number, kept to 32 bits.
pub open spec fn rd(d: Seq<u8>, p: int, n: nat) -> nat {
    bits_value(d, p, n) % 0x1_0000_0000
}

/// An `n`-bit two's complement field holding `raw`, read as a signed number
/// and kept to 16 bits.
pub open spec fn spec_read_signed(raw: nat, n: nat) -> int {
    let v = spec_sign_extend((raw % pow2(n)) as int, n);
    let t = v % 65536;
    if t >= 32768 {
        t - 65536
    } else {
        t
    }
}

/// Sequential reader of MSB-first bits with a visible position; bits past the
/// end read as zero.
pub struct Bits<'a> {
    data: &'a [u8],
    pos: usize,
}

impl<'a> Bits<'a> {
    /// The bytes being read.
    pub closed spec fn bytes(&self) -> Seq<u8> {
        self.data@
    }

    /// The position of the next bit.
    pub closed spec fn position(&self) -> nat {
        self.pos as nat
    }

    /// A reader at the first bit of `data`.
    pub fn new(data: &'a [u8]) -> (r: Self)
        ensures
            r.bytes() == data@,
            r.position() == 0,
    {
        Self { data, pos: 0 }
    }

    /// Reads the next `n` bits as a big-endian number, keeping its low 32 bits;
    /// bits past the end read as 0.
    pub fn read(&mut self, n: usize) -> (out: u32)
        requires
            old(self).position() + n <= usize::MAX,
        ensures
            final(self).bytes() == old(self).bytes(),
            final(self).position() == old(self).position() + n,
            out == rd(old(self).bytes(), old(self).position() as int, n as nat),
    {
        let ghost p0 = self.pos as int;
        let mut out = 0u32;
        let mut i: usize = 0;
        while i < n
            invariant
                i <= n,
                self.data@ == old(self).bytes(),
                self.pos == p0 + i,
                p0 == old(self).position(),
                p0 + n <= usize::MAX,
                out as nat == bits_value(self.data@, p0, i as nat) % 0x1_0000_0000,
            decreases n - i,
        {
            let byte = self.pos / 8;
            let bit = (7 - (self.pos % 8)) as u8;
            let mut v = 0u32;
            if byte < self.data.len() {
                v = ((self.data[byte] >> bit) & 1) as u32;
                proof {
                    lemma_byte_bit_range(self.data@[byte as int], bit as int);
                }
            }
            assert(v == bit_at(self.data@, p0 + i));
            proof {
                lemma_shift_in_bit(out, v);
                lemma_mod_shift_in(bits_value(self.data@, p0, i as nat), v as nat);
            }
            out = (out << 1) | v;
            self.pos += 1;
            i += 1;
        }
        out
    }

    /// The position of the next bit.
    pub fn pos(&self) -> (r: usize)
        ensures
            r == self.position(),
    {
        self.pos
    }

    /// Bits left before the end of the data (0 once past it); the data's bit
    /// count is kept to `usize::MAX`.
    pub fn remaining(&self) -> (r: usize)
        ensures
            r == if self.bytes().len() * 8 <= usize::MAX {
                if self.bytes().len() * 8 >= self.position() {
                    self.bytes().len() * 8 - self.position()
                } else {
                    0
                }
            } else {
                usize::MAX - self.position()
            },
    {
        let total: usize = if self.data.len() > usize::MAX / 8 {
            usize::MAX
        } else {
            self.data.len() * 8
        };
        if total >= self.pos {
            total - self.pos
        } else {
            0
        }
    }

    /// Reads the next `n` bits as an `n`-bit two's complement number, kept to 16 bits.
    pub fn read_signed(&mut self, n: usize) -> (r: i16)
        requires
            1 <= n <= 32,
            old(self).position() + n <= usize::MAX,
        ensures
            final(self).bytes() == old(self).bytes(),
            final(self).position() == old(self).position() + n,
            r == spec_read_signed(rd(old(self).bytes(), old(self).position() as int, n as nat), n as nat),
    {
        let ghost d = self.data@;
        let ghost p = self.pos as int;
        let raw = self.read(n);
        proof {
            lemma2_to64();
            lemma_bits_value_bound(d, p, n as nat);
            lemma_pow2_pos(n as nat);
            if n < 32 {
                vstd::arithmetic::power2::lemma_pow2_strictly_increases(n as nat, 32);
            }
            lemma_small_mod(bits_value(d, p, n as nat), 0x1_0000_0000);
            lemma_small_mod(raw as nat, pow2(n as nat));
            lemma_pow2_unfold(n as nat);
        }
        assert(raw < pow2(n as nat));
        if n <= 16 {
            proof {
                lemma_u32_pow2_no_overflow(n as nat);
                lemma_u32_shl_is_mul(1, (n - 1) as u32);
                lemma_u32_shl_is_mul(1, n as u32);
                if n < 16 {
                    vstd::arithmetic::power2::lemma_pow2_strictly_increases(n as nat, 16);
                }
                lemma_read_signed_small(raw as nat, n as nat);
            }
            let half = 1u32 << ((n - 1) as u32);
            let full = 1u32 << (n as u32);
            if raw >= half {
                ((raw as i32) - (full as i32)) as i16
            } else {
                raw as i16
            }
        } else {
            let low = raw % 65536;
            proof {
                lemma_read_signed_wide(raw as nat, n as nat);
            }
            if low >= 32768 {
                ((low as i32) - 65536) as i16
            } else {
                low as i16
            }
        }
    }
}

pub(crate) proof fn lemma_read_signed_small(raw: nat, n: nat)
    requires
        1 <= n <= 16,
        raw < pow2(n),
    ensures
        spec_read_signed(raw, n) == spec_sign_extend(raw as int, n),
        -32768 <= spec_sign_extend(raw as int, n) < 32768,
{
    lemma_pow2_unfold(n);
    lemma_pow2_pos((n - 1) as nat);
    if n - 1 < 15 {
        vstd::arithmetic::power2::lemma_pow2_strictly_increases((n - 1) as nat, 15);
    }
    lemma2_to64();
    lemma_small_mod(raw, pow2(n));
    let v = spec_sign_extend(raw as int, n);
    if v >= 0 {
        lemma_small_mod(v as nat, 65536);
    } else {
        lemma_mod_multiples_vanish(-1, v + 65536, 65536);
        lemma_small_mod((v + 65536) as nat, 65536);
    }
}

proof fn lemma_read_signed_wide(raw: nat, n: nat)
    requires
        16 < n <= 32,
        raw < pow2(n),
    ensures
        spec_read_signed(raw, n) == if raw % 65536 >= 32768 {
            raw % 65536 - 65536
        } else {
            (raw % 65536) as int
        },
{
    lemma2_to64();
    lemma_small_mod(raw, pow2(n));
    lemma_pow2_adds(16, (n - 16) as nat);
    lemma_pow2_pos((n - 16) as nat);
    let v = spec_sign_extend(raw as int, n);
    if v != raw {
        assert(v == raw - pow2(n));
        lemma_mod_multiples_vanish(-(pow2((n - 16) as nat) as int), raw as int, 65536);
        assert(65536 * (-(pow2((n - 16) as nat) as int)) + raw == v) by (nonlinear_arith)
            requires
                v == raw - pow2(n),
                pow2(n) == pow2(16) * pow2((n - 16) as nat),
                pow2(16) == 65536,
        ;
    }
}


/// Some code of spectral table `t` has length `l` and the value `code`.
pub open spec fn code_in_table(t: int, l: nat, code: nat) -> bool {
    exists|i: int|
        0 <= i < huff_tab_size(t) && #[trigger] spec_huff_codes(t)[i].1 == l && spec_huff_codes(
            t,
        )[i].0 == code
}

/// The length of the shortest code of table `t` that the bits at `p` start
/// with, trying lengths from `l` up to 16.
pub open spec fn vlc_skip_len(t: int, d: Seq<u8>, p: int, l: nat) -> Option<nat>
    decreases 17 - l,
{
    if l > 16 {
        None
    } else if code_in_table(t, l, bits_value(d, p, l)) {
        Some(l)
    } else {
        vlc_skip_len(t, d, p, l + 1)
    }
}

/// What skipping one Huffman-coded value found.
#[derive(Clone, Copy, Debug, PartialEq, Eq, Structural)]
pub enum VlcSkip {
    /// A code was found and skipped.
    Skipped,
    /// The selector names no table (it is not 1 to 7).
    NoTable,
    /// No code of up to 16 bits matched the bits from `start` on.
    NoCode { start: usize },
}

/// Skips one value coded with the Huffman table of `selector`.
pub fn skip_vlc_value(br: &mut Bits, selector: u32) -> (r: VlcSkip)
    requires
        old(br).position() + 16 <= usize::MAX,
    ensures
        final(br).bytes() == old(br).bytes(),
        selector < 1 || selector > 7 ==> r == VlcSkip::NoTable && final(br).position() == old(
            br,
        ).position(),
        1 <= selector <= 7 ==> match vlc_skip_len(
            selector - 1,
            old(br).bytes(),
            old(br).position() as int,
            1,
        ) {
            Some(l) => r == VlcSkip::Skipped && final(br).position() == old(br).position() + l,
            None => r == (VlcSkip::NoCode { start: old(br).position() as usize })
                && final(br).position() == old(br).position() + 16,
        },
{
    if selector < 1 || selector > 7 {
        return VlcSkip::NoTable;
    }
    let ghost t = selector - 1;
    let ghost d = br.bytes();
    let table = atrac3_huff_codes((selector - 1) as usize);
    let start = br.pos();
    let mut code = 0u32;
    let mut len: usize = 1;
    proof {
        lemma2_to64();
    }
    while len <= 16
        invariant
            1 <= selector <= 7,
            t == selector - 1,
            table@ == spec_huff_codes(t),
            table@.len() == huff_tab_size(t),
            br.bytes() == d,
            d == old(br).bytes(),
            start == old(br).position(),
            start + 16 <= usize::MAX,
            1 <= len <= 17,
            br.position() == start + len - 1,
            code as nat == bits_value(d, start as int, (len - 1) as nat),
            code < pow2((len - 1) as nat),
            pow2(16) == 0x10000,
            vlc_skip_len(t, d, start as int, 1) == vlc_skip_len(t, d, start as int, len as nat),
        decreases 17 - len,
    {
        let bit = br.read(1);
        proof {
            assert(bits_value(d, (start + len - 1) as int, 0) == 0);
            assert(bits_value(d, (start + len - 1) as int, 1) == bit_at(d, (start + len - 1) as int));
            crate::huffman::lemma_bit_at_range(d, (start + len - 1) as int);
            lemma_shift_in_bit(code, bit);
            lemma_pow2_unfold(len as nat);
            if len < 16 {
                vstd::arithmetic::power2::lemma_pow2_strictly_increases(len as nat, 16);
            }
            lemma_small_mod((2 * code + bit) as nat, 0x1_0000_0000);
        }
        code = (code << 1) | bit;
        assert(code as nat == bits_value(d, start as int, len as nat));
        let mut found = false;
        let mut i: usize = 0;
        while i < table.len()
            invariant
                table@.len() == huff_tab_size(t),
                table@ == spec_huff_codes(t),
                i <= table@.len(),
                found == exists|k: int|
                    0 <= k < i && #[trigger] spec_huff_codes(t)[k].1 == len && spec_huff_codes(
                        t,
                    )[k].0 == code,
            decreases table@.len() - i,
        {
            if table[i].1 as usize == len && table[i].0 == code {
                found = true;
            }
            i += 1;
        }
        assert(found == code_in_table(t, len as nat, bits_value(d, start as int, len as nat)));
        if found {
            return VlcSkip::Skipped;
        }
        len += 1;
    }
    VlcSkip::NoCode { start }
}

/// Bits that the fixed-length codes of `count` values of table `selector`
/// take; no table for selectors past 7.
pub open spec fn clc_skip_len(selector: int, count: nat) -> Option<nat> {
    if selector == 0 {
        Some(0)
    } else if selector == 1 {
        Some(4 * ((count + 1) / 2))
    } else if spec_clc_bits(selector) == 0 {
        None
    } else {
        Some(spec_clc_bits(selector) * count)
    }
}

/// Skips `count` fixed-length coded values of table `selector`; false where
/// the selector names no table.
pub fn skip_clc_values(br: &mut Bits, selector: u32, count: usize) -> (ok: bool)
    requires
        selector == 1 ==> count < usize::MAX,
        match clc_skip_len(selector as int, count as nat) {
            Some(l) => old(br).position() + l <= usize::MAX,
            None => true,
        },
    ensures
        final(br).bytes() == old(br).bytes(),
        match clc_skip_len(selector as int, count as nat) {
            Some(l) => ok && final(br).position() == old(br).position() + l,
            None => !ok && final(br).position() == old(br).position(),
        },
{
    if selector == 0 {
        return true;
    }
    if selector == 1 {
        let pairs = (count + 1) / 2;
        br.read(4 * pairs);
        return true;
    }
    let bits = clc_bits(selector);
    if bits == 0 {
        return false;
    }
    assert(bits * count == spec_clc_bits(selector as int) * count);
    br.read(bits * count);
    true
}


/// One thing that reading the tonal components met, in reading order.
#[derive(Clone, Copy, Debug, PartialEq, Eq, Structural)]
pub enum TonalEvent {
    /// The flag of one QMF band of the group being read.
    Flag { active: bool },
    /// A group's value count and table (after its band flags).
    GroupStart { group: u32, coded_values: usize, quant_selector: u32 },
    /// A spectral block holds `count` (nonzero) components.
    BlockCount { spec_block: usize, count: usize },
    /// One component of the current block.
    Component { index: usize, sf_idx: u32, rel_pos: u32, abs_pos: usize },
    /// No Huffman code matched at bit `bit`.
    VlcFailure { selector: u32, bit: usize },
    /// A component announced a coding mode other than 0 and 1.
    UnsupportedMode { mode: u32 },
    /// A group was read completely; the reader stands at `bit_pos`.
    GroupEnd { group: u32, total_components: usize, bit_pos: usize },
}

/// Skipping `k` Huffman-coded values of table `qs` from `p`: the position
/// reached, the failure met (if any) and whether all were skipped.
pub open spec fn vlc_skip_n(d: Seq<u8>, p: int, qs: nat, k: nat) -> (int, Seq<TonalEvent>, bool)
    decreases k,
{
    if k == 0 {
        (p, Seq::empty(), true)
    } else {
        let (p1, ev1, ok1) = vlc_skip_n(d, p, qs, (k - 1) as nat);
        if !ok1 {
            (p1, ev1, false)
        } else if qs < 1 || qs > 7 {
            (p1, ev1, false)
        } else {
            match vlc_skip_len(qs - 1, d, p1, 1) {
                Some(l) => (p1 + l, ev1, true),
                None => (
                    p1 + 16,
                    ev1.push(TonalEvent::VlcFailure { selector: qs as u32, bit: p1 as usize }),
                    false,
                ),
            }
        }
    }
}

/// Skipping the `cv` values of one component coded in `mode` (0: Huffman,
/// 1: fixed length) with table `qs`.
pub open spec fn values_skip(d: Seq<u8>, p: int, mode: nat, qs: nat, cv: nat) -> (int, Seq<TonalEvent>, bool) {
    if mode == 0 {
        vlc_skip_n(d, p, qs, cv)
    } else if mode == 1 {
        match clc_skip_len(qs as int, cv) {
            Some(l) => (p + l, Seq::empty(), true),
            None => (p, Seq::empty(), false),
        }
    } else {
        (p, seq![TonalEvent::UnsupportedMode { mode: mode as u32 }], false)
    }
}

/// Reading components `c` to `count - 1` of spectral block `sb` from `p`:
/// 6-bit scale factor, 6-bit position, a mode bit where the tonal mode is 3,
/// then the values.
pub open spec fn components_parse(
    d: Seq<u8>,
    p: int,
    tm: nat,
    cv: nat,
    qs: nat,
    sb: nat,
    count: nat,
    c: nat,
) -> (int, Seq<TonalEvent>, bool)
    decreases count - c,
{
    if c >= count {
        (p, Seq::empty(), true)
    } else {
        let sf = rd(d, p, 6);
        let rel = rd(d, p + 6, 6);
        let ev0 = seq![
            TonalEvent::Component {
                index: c as usize,
                sf_idx: sf as u32,
                rel_pos: rel as u32,
                abs_pos: (sb * 64 + rel) as usize,
            },
        ];
        let p1 = if tm == 3 {
            p + 13
        } else {
            p + 12
        };
        let mode = if tm == 3 {
            rd(d, p + 12, 1)
        } else {
            tm
        };
        let (p2, ev2, ok2) = values_skip(d, p1, mode, qs, cv);
        if !ok2 {
            (p2, ev0 + ev2, false)
        } else {
            let (p3, ev3, ok3) = components_parse(d, p2, tm, cv, qs, sb, count, c + 1);
            (p3, ev0 + ev2 + ev3, ok3)
        }
    }
}

/// Reading spectral block `sb`: a 3-bit component count, then the components.
pub open spec fn block_parse(d: Seq<u8>, p: int, tm: nat, cv: nat, qs: nat, sb: nat) -> (
    int,
    Seq<TonalEvent>,
    bool,
    nat,
) {
    let count = rd(d, p, 3);
    let ev0 = if count != 0 {
        seq![TonalEvent::BlockCount { spec_block: sb as usize, count: count as usize }]
    } else {
        Seq::empty()
    };
    let (p1, ev1, ok1) = components_parse(d, p + 3, tm, cv, qs, sb, count, 0);
    (p1, ev0 + ev1, ok1, count)
}

/// Reading the blocks `local` to 3 of QMF band `band`; the last value counts
/// the components announced.
pub open spec fn blocks_parse(d: Seq<u8>, p: int, tm: nat, cv: nat, qs: nat, band: nat, local: nat) -> (
    int,
    Seq<TonalEvent>,
    bool,
    nat,
)
    decreases 4 - local,
{
    if local >= 4 {
        (p, Seq::empty(), true, 0)
    } else {
        let (p1, ev1, ok1, n1) = block_parse(d, p, tm, cv, qs, band * 4 + local);
        if !ok1 {
            (p1, ev1, false, n1)
        } else {
            let (p2, ev2, ok2, n2) = blocks_parse(d, p1, tm, cv, qs, band, local + 1);
            (p2, ev1 + ev2, ok2, n1 + n2)
        }
    }
}

/// Reading the flagged bands from `band` on.
pub open spec fn bands_parse(
    d: Seq<u8>,
    p: int,
    tm: nat,
    cv: nat,
    qs: nat,
    flags: Seq<bool>,
    band: nat,
) -> (int, Seq<TonalEvent>, bool, nat)
    decreases flags.len() - band,
{
    if band >= flags.len() {
        (p, Seq::empty(), true, 0)
    } else if !flags[band as int] {
        bands_parse(d, p, tm, cv, qs, flags, band + 1)
    } else {
        let (p1, ev1, ok1, n1) = blocks_parse(d, p, tm, cv, qs, band, 0);
        if !ok1 {
            (p1, ev1, false, n1)
        } else {
            let (p2, ev2, ok2, n2) = bands_parse(d, p1, tm, cv, qs, flags, band + 1);
            (p2, ev1 + ev2, ok2, n1 + n2)
        }
    }
}

/// The band flags of a group read at `p`.
pub open spec fn parsed_flags(d: Seq<u8>, p: int, qmf: nat) -> Seq<bool> {
    Seq::new(qmf, |b: int| rd(d, p + b, 1) != 0)
}

/// The flag events of a group's band flags.
pub open spec fn flag_events(flags: Seq<bool>) -> Seq<TonalEvent> {
    Seq::new(flags.len(), |b: int| TonalEvent::Flag { active: flags[b] })
}

/// Reading one group `g`: band flags, value count less one, table, the
/// flagged bands, and an end event once the group is read.
#[verifier::opaque]
pub open spec fn group_parse(d: Seq<u8>, p: int, tm: nat, qmf: nat, g: nat) -> (
    int,
    Seq<TonalEvent>,
    bool,
) {
    let flags = parsed_flags(d, p, qmf);
    let cv = rd(d, p + qmf, 3) + 1;
    let qs = rd(d, p + qmf + 3, 3);
    let ev0 = flag_events(flags) + seq![
        TonalEvent::GroupStart {
            group: g as u32,
            coded_values: cv as usize,
            quant_selector: qs as u32,
        },
    ];
    let (p1, ev1, ok1, n1) = bands_parse(d, p + qmf + 6, tm, cv, qs, flags, 0);
    if !ok1 {
        (p1, ev0 + ev1, false)
    } else {
        (
            p1,
            ev0 + ev1 + seq![
                TonalEvent::GroupEnd {
                    group: g as u32,
                    total_components: n1 as usize,
                    bit_pos: p1 as usize,
                },
            ],
            true,
        )
    }
}

/// Reading groups `g` to `ngroups - 1`, stopping at the first that fails.
pub open spec fn groups_parse(d: Seq<u8>, p: int, tm: nat, qmf: nat, ngroups: nat, g: nat) -> (
    int,
    Seq<TonalEvent>,
    bool,
)
    decreases ngroups - g,
{
    if g >= ngroups {
        (p, Seq::empty(), true)
    } else {
        let (p1, ev1, ok1) = group_parse(d, p, tm, qmf, g);
        if !ok1 {
            (p1, ev1, false)
        } else {
            let (p2, ev2, ok2) = groups_parse(d, p1, tm, qmf, ngroups, g + 1);
            (p2, ev1 + ev2, ok2)
        }
    }
}

/// Reading the tonal components of a unit with `qmf` bands and `ngroups`
/// groups from `p`: the 2-bit tonal mode, then the groups.
pub open spec fn tonal_parse(d: Seq<u8>, p: int, qmf: nat, ngroups: nat) -> (nat, int, Seq<TonalEvent>, bool) {
    let tm = rd(d, p, 2);
    let (p1, ev, ok) = groups_parse(d, p + 2, tm, qmf, ngroups, 0);
    (tm, p1, ev, ok)
}

/// Bits that reading `ngroups` groups of a unit with `qmf` bands may take at most.
pub open spec fn tonal_read_bound(qmf: nat, ngroups: nat) -> nat {
    2 + ngroups * (6 + qmf * 3961)
}

proof fn lemma_vlc_skip_n_bound(d: Seq<u8>, p: int, qs: nat, k: nat)
    ensures
        p <= vlc_skip_n(d, p, qs, k).0 <= p + 16 * k,
    decreases k,
{
    if k > 0 {
        lemma_vlc_skip_n_bound(d, p, qs, (k - 1) as nat);
        let (p1, ev1, ok1) = vlc_skip_n(d, p, qs, (k - 1) as nat);
        if ok1 && 1 <= qs <= 7 {
            lemma_vlc_skip_len_bound(qs - 1, d, p1, 1);
        }
    }
}

proof fn lemma_vlc_skip_len_bound(t: int, d: Seq<u8>, p: int, l: nat)
    ensures
        match vlc_skip_len(t, d, p, l) {
            Some(m) => m <= 16,
            None => true,
        },
    decreases 17 - l,
{
    if l <= 16 && !code_in_table(t, l, bits_value(d, p, l)) {
        lemma_vlc_skip_len_bound(t, d, p, l + 1);
    }
}

proof fn lemma_values_skip_bound(d: Seq<u8>, p: int, mode: nat, qs: nat, cv: nat)
    requires
        cv <= 8,
    ensures
        p <= values_skip(d, p, mode, qs, cv).0 <= p + 128,
{
    if mode == 0 {
        lemma_vlc_skip_n_bound(d, p, qs, cv);
        assert(16 * cv <= 128) by (nonlinear_arith)
            requires
                cv <= 8,
        ;
    } else if mode == 1 {
        let w = spec_clc_bits(qs as int);
        assert(w <= 6);
        assert(w * cv <= 48) by (nonlinear_arith)
            requires
                w <= 6,
                cv <= 8,
        ;
        assert(4 * ((cv + 1) / 2) <= 20);
    }
}

proof fn lemma_components_parse_bound(
    d: Seq<u8>,
    p: int,
    tm: nat,
    cv: nat,
    qs: nat,
    sb: nat,
    count: nat,
    c: nat,
)
    requires
        cv <= 8,
        c <= count,
    ensures
        p <= components_parse(d, p, tm, cv, qs, sb, count, c).0 <= p + 141 * (count - c),
    decreases count - c,
{
    if c < count {
        let p1 = if tm == 3 {
            p + 13
        } else {
            p + 12
        };
        let mode = if tm == 3 {
            rd(d, p + 12, 1)
        } else {
            tm
        };
        lemma_values_skip_bound(d, p1, mode, qs, cv);
        let (p2, ev2, ok2) = values_skip(d, p1, mode, qs, cv);
        if ok2 {
            lemma_components_parse_bound(d, p2, tm, cv, qs, sb, count, c + 1);
        }
    }
}

proof fn lemma_block_parse_bound(d: Seq<u8>, p: int, tm: nat, cv: nat, qs: nat, sb: nat)
    requires
        cv <= 8,
    ensures
        p <= block_parse(d, p, tm, cv, qs, sb).0 <= p + 990,
        block_parse(d, p, tm, cv, qs, sb).3 <= 7,
{
    lemma_rd_bound(d, p, 3);
    lemma2_to64();
    lemma_components_parse_bound(d, p + 3, tm, cv, qs, sb, rd(d, p, 3), 0);
}

proof fn lemma_blocks_parse_bound(d: Seq<u8>, p: int, tm: nat, cv: nat, qs: nat, band: nat, local: nat)
    requires
        cv <= 8,
        local <= 4,
    ensures
        p <= blocks_parse(d, p, tm, cv, qs, band, local).0 <= p + (4 - local) * 990,
        blocks_parse(d, p, tm, cv, qs, band, local).3 <= 7 * (4 - local),
    decreases 4 - local,
{
    if local < 4 {
        let count = rd(d, p, 3);
        lemma_rd_bound(d, p, 3);
        lemma2_to64();
        assert(count <= 7);
        lemma_components_parse_bound(d, p + 3, tm, cv, qs, band * 4 + local, count, 0);
        let (p1, ev1, ok1, n1) = block_parse(d, p, tm, cv, qs, band * 4 + local);
        if ok1 {
            lemma_blocks_parse_bound(d, p1, tm, cv, qs, band, local + 1);
        }
    }
}

proof fn lemma_bands_parse_bound(
    d: Seq<u8>,
    p: int,
    tm: nat,
    cv: nat,
    qs: nat,
    flags: Seq<bool>,
    band: nat,
)
    requires
        cv <= 8,
        band <= flags.len(),
    ensures
        p <= bands_parse(d, p, tm, cv, qs, flags, band).0 <= p + (flags.len() - band) * 3960,
        bands_parse(d, p, tm, cv, qs, flags, band).3 <= 28 * (flags.len() - band),
    decreases flags.len() - band,
{
    if band < flags.len() {
        lemma_bands_parse_bound(d, p, tm, cv, qs, flags, band + 1);
        if flags[band as int] {
            lemma_blocks_parse_bound(d, p, tm, cv, qs, band, 0);
            let (p1, ev1, ok1, n1) = blocks_parse(d, p, tm, cv, qs, band, 0);
            if ok1 {
                lemma_bands_parse_bound(d, p1, tm, cv, qs, flags, band + 1);
            }
        }
    }
}

/// A field of `n` bits holds less than 2^n.
pub proof fn lemma_rd_bound(d: Seq<u8>, p: int, n: nat)
    requires
        n <= 32,
    ensures
        rd(d, p, n) == bits_value(d, p, n),
        rd(d, p, n) < pow2(n),
{
    lemma_bits_value_bound(d, p, n);
    lemma2_to64();
    if n < 32 {
        vstd::arithmetic::power2::lemma_pow2_strictly_increases(n, 32);
    }
    lemma_small_mod(bits_value(d, p, n), 0x1_0000_0000);
}

proof fn lemma_group_parse_bound(d: Seq<u8>, p: int, tm: nat, qmf: nat, g: nat)
    ensures
        p <= group_parse(d, p, tm, qmf, g).0 <= p + 6 + qmf * 3961,
{
    reveal(group_parse);
    let flags = parsed_flags(d, p, qmf);
    let cv = rd(d, p + qmf, 3) + 1;
    lemma_rd_bound(d, p + qmf, 3);
    lemma2_to64();
    let qs = rd(d, p + qmf + 3, 3);
    lemma_bands_parse_bound(d, p + qmf + 6, tm, cv, qs, flags, 0);
    assert(qmf + 6 + qmf * 3960 == 6 + qmf * 3961) by (nonlinear_arith);
}

proof fn lemma_groups_parse_bound(d: Seq<u8>, p: int, tm: nat, qmf: nat, ngroups: nat, g: nat)
    requires
        g <= ngroups,
    ensures
        p <= groups_parse(d, p, tm, qmf, ngroups, g).0 <= p + (ngroups - g) * (6 + qmf * 3961),
    decreases ngroups - g,
{
    if g < ngroups {
        lemma_group_parse_bound(d, p, tm, qmf, g);
        let (p1, ev1, ok1) = group_parse(d, p, tm, qmf, g);
        if ok1 {
            lemma_groups_parse_bound(d, p1, tm, qmf, ngroups, g + 1);
            assert((ngroups - g) * (6 + qmf * 3961) == (6 + qmf * 3961) + (ngroups - (g + 1)) * (6
                + qmf * 3961)) by (nonlinear_arith)
                requires
                    g < ngroups,
            ;
        } else {
            assert((ngroups - g) * (6 + qmf * 3961) >= (6 + qmf * 3961)) by (nonlinear_arith)
                requires
                    g < ngroups,
            ;
        }
    }
}


proof fn lemma_vlc_skip_n_stops(d: Seq<u8>, p: int, qs: nat, k: nat, m: nat)
    requires
        k <= m,
        !vlc_skip_n(d, p, qs, k).2,
    ensures
        vlc_skip_n(d, p, qs, m) == vlc_skip_n(d, p, qs, k),
    decreases m - k,
{
    if k < m {
        lemma_vlc_skip_n_stops(d, p, qs, k, (m - 1) as nat);
    }
}

/// Skips the `cv` values of one tonal component coded in `mode` with table
/// `qs`, recording a failure in `events`.
fn skip_component_values(
    br: &mut Bits,
    mode: u32,
    qs: u32,
    cv: usize,
    events: &mut Vec<TonalEvent>,
) -> (ok: bool)
    requires
        cv <= 8,
        old(br).position() + 128 <= usize::MAX,
    ensures
        final(br).bytes() == old(br).bytes(),
        ({
            let (p2, ev, ok2) = values_skip(
                old(br).bytes(),
                old(br).position() as int,
                mode as nat,
                qs as nat,
                cv as nat,
            );
            &&& final(br).position() == p2
            &&& final(events)@ == old(events)@ + ev
            &&& ok == ok2
        }),
{
    let ghost d = br.bytes();
    let ghost p = br.position() as int;
    if mode == 0 {
        let mut k: usize = 0;
        while k < cv
            invariant
                mode == 0,
                d == old(br).bytes(),
                p == old(br).position(),
                p + 128 <= usize::MAX,
                br.bytes() == d,
                events@ == old(events)@,
                k <= cv <= 8,
                vlc_skip_n(d, p, qs as nat, k as nat).2,
                vlc_skip_n(d, p, qs as nat, k as nat).1 == Seq::<TonalEvent>::empty(),
                br.position() == vlc_skip_n(d, p, qs as nat, k as nat).0,
            decreases cv - k,
        {
            proof {
                lemma_vlc_skip_n_bound(d, p, qs as nat, k as nat);
                assert(16 * k <= 112) by (nonlinear_arith)
                    requires
                        k < 8,
                ;
            }
            let ghost pk = br.position() as int;
            let r = skip_vlc_value(br, qs);
            match r {
                VlcSkip::Skipped => {
                    assert(vlc_skip_n(d, p, qs as nat, (k + 1) as nat) == (
                        br.position() as int,
                        Seq::<TonalEvent>::empty(),
                        true,
                    ));
                },
                VlcSkip::NoTable => {
                    assert(vlc_skip_n(d, p, qs as nat, (k + 1) as nat) == (
                        pk,
                        Seq::<TonalEvent>::empty(),
                        false,
                    ));
                    proof {
                        lemma_vlc_skip_n_stops(d, p, qs as nat, (k + 1) as nat, cv as nat);
                    }
                    assert(events@ =~= old(events)@ + Seq::<TonalEvent>::empty());
                    return false;
                },
                VlcSkip::NoCode { start } => {
                    events.push(TonalEvent::VlcFailure { selector: qs, bit: start });
                    assert(vlc_skip_n(d, p, qs as nat, (k + 1) as nat) == (
                        pk + 16,
                        seq![TonalEvent::VlcFailure { selector: qs, bit: start }],
                        false,
                    ));
                    proof {
                        lemma_vlc_skip_n_stops(d, p, qs as nat, (k + 1) as nat, cv as nat);
                    }
                    assert(events@ =~= old(events)@ + seq![TonalEvent::VlcFailure { selector: qs, bit: start }]);
                    return false;
                },
            }
            k += 1;
        }
        assert(old(events)@ + Seq::<TonalEvent>::empty() =~= old(events)@);
        true
    } else if mode == 1 {
        proof {
            lemma2_to64();
        }
        let ok = skip_clc_values(br, qs, cv);
        assert(events@ =~= old(events)@ + Seq::<TonalEvent>::empty());
        ok
    } else {
        events.push(TonalEvent::UnsupportedMode { mode });
        assert(events@ =~= old(events)@ + seq![TonalEvent::UnsupportedMode { mode }]);
        false
    }
}

/// Reads spectral block `sb` of a tonal group: its component count and its
/// components; returns whether all were read and the announced count.
#[verifier::rlimit(60)]
fn parse_tonal_block(
    br: &mut Bits,
    tm: u32,
    cv: usize,
    qs: u32,
    sb: usize,
    events: &mut Vec<TonalEvent>,
) -> (r: (bool, usize))
    requires
        cv <= 8,
        sb * 64 + 64 <= usize::MAX,
        old(br).position() + 990 <= usize::MAX,
    ensures
        final(br).bytes() == old(br).bytes(),
        ({
            let (p1, ev, ok1, n1) = block_parse(
                old(br).bytes(),
                old(br).position() as int,
                tm as nat,
                cv as nat,
                qs as nat,
                sb as nat,
            );
            &&& final(br).position() == p1
            &&& final(events)@ == old(events)@ + ev
            &&& r.0 == ok1
            &&& r.1 == n1
        }),
{
    let ghost d = br.bytes();
    let ghost p = br.position() as int;
    let count = br.read(3) as usize;
    proof {
        lemma_rd_bound(d, p, 3);
        lemma2_to64();
    }
    if count != 0 {
        events.push(TonalEvent::BlockCount { spec_block: sb, count });
    }
    let ghost ev0 = events@;
    let ghost head = if count != 0 {
        seq![TonalEvent::BlockCount { spec_block: sb, count }]
    } else {
        Seq::<TonalEvent>::empty()
    };
    assert(ev0 =~= old(events)@ + head);
    let ghost p3 = p + 3;
    let ghost total = components_parse(d, p3, tm as nat, cv as nat, qs as nat, sb as nat, count as nat, 0);
    assert(block_parse(d, p, tm as nat, cv as nat, qs as nat, sb as nat) == (total.0, head + total.1, total.2, count as nat));
    let ghost mut acc: Seq<TonalEvent> = Seq::empty();
    proof {
        lemma_components_parse_bound(d, p3, tm as nat, cv as nat, qs as nat, sb as nat, count as nat, 0);
        assert(total.1 =~= acc + total.1);
    }
    let mut c: usize = 0;
    while c < count
        invariant
            d == old(br).bytes(),
            br.bytes() == d,
            cv <= 8,
            count <= 7,
            c <= count,
            sb * 64 + 64 <= usize::MAX,
            p3 + 990 <= usize::MAX + 3,
            total == components_parse(d, p3, tm as nat, cv as nat, qs as nat, sb as nat, count as nat, 0),
            events@ == ev0 + acc,
            ev0 == old(events)@ + head,
            p == old(br).position(),
            block_parse(d, p, tm as nat, cv as nat, qs as nat, sb as nat) == (total.0, head + total.1, total.2, count as nat),
            ({
                let rest = components_parse(d, br.position() as int, tm as nat, cv as nat, qs as nat, sb as nat, count as nat, c as nat);
                &&& total.0 == rest.0
                &&& total.2 == rest.2
                &&& total.1 == acc + rest.1
            }),
            p3 <= br.position(),
            br.position() + 141 * (count - c) <= p3 + 141 * count,
        decreases count - c,
    {
        let ghost pc = br.position() as int;
        proof {
            lemma_components_parse_bound(d, pc, tm as nat, cv as nat, qs as nat, sb as nat, count as nat, c as nat);
        }
        let sf = br.read(6);
        let rel = br.read(6);
        proof {
            lemma_rd_bound(d, pc + 6, 6);
            lemma2_to64();
        }
        let ev_c = TonalEvent::Component { index: c, sf_idx: sf, rel_pos: rel, abs_pos: sb * 64 + rel as usize };
        events.push(ev_c);
        let mode = if tm == 3 {
            br.read(1)
        } else {
            tm
        };
        let ghost p1 = br.position() as int;
        let ghost ev_mid = events@;
        let ghost vs = values_skip(d, p1, mode as nat, qs as nat, cv as nat);
        proof {
            lemma_values_skip_bound(d, p1, mode as nat, qs as nat, cv as nat);
        }
        let ok = skip_component_values(br, mode, qs, cv, events);
        let ghost rest = components_parse(d, pc, tm as nat, cv as nat, qs as nat, sb as nat, count as nat, c as nat);
        if !ok {
            proof {
                assert(rest == (vs.0, seq![ev_c] + vs.1, false));
                assert(total.1 =~= acc + (seq![ev_c] + vs.1));
                assert(events@ =~= ev0 + acc + seq![ev_c] + vs.1);
                assert(events@ =~= old(events)@ + (head + total.1));
            }
            return (false, count);
        }
        proof {
            let next = components_parse(d, br.position() as int, tm as nat, cv as nat, qs as nat, sb as nat, count as nat, (c + 1) as nat);
            assert(rest == (next.0, seq![ev_c] + vs.1 + next.1, next.2));
            assert(total.1 =~= (acc + seq![ev_c] + vs.1) + next.1);
            acc = acc + seq![ev_c] + vs.1;
            assert(events@ =~= ev0 + acc);
        }
        c += 1;
    }
    proof {
        let rest = components_parse(d, br.position() as int, tm as nat, cv as nat, qs as nat, sb as nat, count as nat, c as nat);
        assert(rest.1 == Seq::<TonalEvent>::empty());
        assert(total.1 =~= acc);
        assert(events@ =~= old(events)@ + (head + total.1));
    }
    (true, count)
}


/// Reads the four spectral blocks of flagged QMF band `band`; returns whether
/// all were read and the components they announce.
#[verifier::rlimit(60)]
fn parse_tonal_band(
    br: &mut Bits,
    tm: u32,
    cv: usize,
    qs: u32,
    band: usize,
    events: &mut Vec<TonalEvent>,
) -> (r: (bool, usize))
    requires
        cv <= 8,
        band * 256 + 256 <= usize::MAX,
        old(br).position() + 3960 <= usize::MAX,
    ensures
        final(br).bytes() == old(br).bytes(),
        ({
            let (p1, ev, ok1, n1) = blocks_parse(
                old(br).bytes(),
                old(br).position() as int,
                tm as nat,
                cv as nat,
                qs as nat,
                band as nat,
                0,
            );
            &&& final(br).position() == p1
            &&& final(events)@ == old(events)@ + ev
            &&& r.0 == ok1
            &&& r.1 == n1
        }),
{
    let ghost d = br.bytes();
    let ghost p = br.position() as int;
    let ghost total = blocks_parse(d, p, tm as nat, cv as nat, qs as nat, band as nat, 0);
    let ghost ev0 = events@;
    let ghost mut acc: Seq<TonalEvent> = Seq::empty();
    proof {
        lemma_blocks_parse_bound(d, p, tm as nat, cv as nat, qs as nat, band as nat, 0);
        assert(total.1 =~= acc + total.1);
        assert(ev0 =~= ev0 + acc);
    }
    let mut n: usize = 0;
    let mut local: usize = 0;
    while local < 4
        invariant
            d == old(br).bytes(),
            p == old(br).position(),
            ev0 == old(events)@,
            br.bytes() == d,
            cv <= 8,
            local <= 4,
            band * 256 + 256 <= usize::MAX,
            total == blocks_parse(d, p, tm as nat, cv as nat, qs as nat, band as nat, 0),
            events@ == ev0 + acc,
            ({
                let rest = blocks_parse(d, br.position() as int, tm as nat, cv as nat, qs as nat, band as nat, local as nat);
                &&& total.0 == rest.0
                &&& total.2 == rest.2
                &&& total.1 == acc + rest.1
                &&& total.3 == n + rest.3
            }),
            n <= 7 * local,
            br.position() + 990 * (4 - local) <= p + 3960,
            p + 3960 <= usize::MAX,
        decreases 4 - local,
    {
        let ghost pl = br.position() as int;
        proof {
            lemma_blocks_parse_bound(d, pl, tm as nat, cv as nat, qs as nat, band as nat, local as nat);
        }
        let ghost bp = block_parse(d, pl, tm as nat, cv as nat, qs as nat, (band * 4 + local) as nat);
        proof {
            lemma_block_parse_bound(d, pl, tm as nat, cv as nat, qs as nat, (band * 4 + local) as nat);
        }
        let (ok, count) = parse_tonal_block(br, tm, cv, qs, band * 4 + local, events);
        let ghost rest = blocks_parse(d, pl, tm as nat, cv as nat, qs as nat, band as nat, local as nat);
        proof {
            lemma_rd_bound(d, pl, 3);
            lemma2_to64();
        }
        if !ok {
            proof {
                assert(rest == (bp.0, bp.1, false, bp.3));
                assert(events@ =~= ev0 + (acc + bp.1));
            }
            return (false, n + count);
        }
        proof {
            let next = blocks_parse(d, br.position() as int, tm as nat, cv as nat, qs as nat, band as nat, (local + 1) as nat);
            assert(rest == (next.0, bp.1 + next.1, next.2, bp.3 + next.3));
            assert(total.1 =~= (acc + bp.1) + next.1);
            acc = acc + bp.1;
            assert(events@ =~= ev0 + acc);
        }
        n += count;
        local += 1;
    }
    proof {
        let rest = blocks_parse(d, br.position() as int, tm as nat, cv as nat, qs as nat, band as nat, local as nat);
        assert(total.1 =~= acc);
    }
    (true, n)
}


proof fn lemma_bands_parse_skip(d: Seq<u8>, p: int, tm: nat, cv: nat, qs: nat, flags: Seq<bool>, band: nat)
    requires
        band < flags.len(),
        !flags[band as int],
    ensures
        bands_parse(d, p, tm, cv, qs, flags, band) == bands_parse(d, p, tm, cv, qs, flags, band + 1),
{
}

/// Reads one tonal group `g` of a unit with `qmf` bands; false where a
/// component's values could not be skipped.
#[verifier::rlimit(60)]
fn parse_tonal_group(br: &mut Bits, tm: u32, qmf: usize, g: u32, events: &mut Vec<TonalEvent>) -> (ok: bool)
    requires
        old(br).position() + 6 + qmf * 3961 <= usize::MAX,
    ensures
        final(br).bytes() == old(br).bytes(),
        ({
            let (p1, ev, ok1) = group_parse(old(br).bytes(), old(br).position() as int, tm as nat, qmf as nat, g as nat);
            &&& final(br).position() == p1
            &&& final(events)@ == old(events)@ + ev
            &&& ok == ok1
        }),
{
    reveal(group_parse);
    let ghost d = br.bytes();
    let ghost p = br.position() as int;
    let ghost spec_flags = parsed_flags(d, p, qmf as nat);
    proof {
        lemma_group_parse_bound(d, p, tm as nat, qmf as nat, g as nat);
        assert(qmf * 3961 >= qmf) by (nonlinear_arith);
    }
    let mut flags: Vec<bool> = Vec::new();
    let mut b: usize = 0;
    while b < qmf
        invariant
            d == old(br).bytes(),
            p == old(br).position(),
            br.bytes() == d,
            b <= qmf,
            p + 6 + qmf * 3961 <= usize::MAX,
            qmf * 3961 >= qmf,
            br.position() == p + b,
            spec_flags == parsed_flags(d, p, qmf as nat),
            flags@ == spec_flags.take(b as int),
            events@ == old(events)@ + flag_events(spec_flags.take(b as int)),
        decreases qmf - b,
    {
        let v = br.read(1) != 0;
        flags.push(v);
        events.push(TonalEvent::Flag { active: v });
        b += 1;
        assert(flags@ =~= spec_flags.take(b as int));
        assert(events@ =~= old(events)@ + flag_events(spec_flags.take(b as int)));
    }
    assert(spec_flags.take(qmf as int) =~= spec_flags);
    proof {
        lemma_rd_bound(d, p + qmf, 3);
        lemma2_to64();
    }
    let cv = br.read(3) as usize + 1;
    let qs = br.read(3);
    let start = TonalEvent::GroupStart { group: g, coded_values: cv, quant_selector: qs };
    events.push(start);
    let ghost ev0 = events@;
    let ghost head = flag_events(spec_flags) + seq![start];
    assert(ev0 =~= old(events)@ + head);
    let ghost p6 = p + qmf + 6;
    let ghost total = bands_parse(d, p6, tm as nat, cv as nat, qs as nat, spec_flags, 0);
    let ghost mut acc: Seq<TonalEvent> = Seq::empty();
    proof {
        lemma_bands_parse_bound(d, p6, tm as nat, cv as nat, qs as nat, spec_flags, 0);
        assert(total.1 =~= acc + total.1);
        assert(ev0 =~= ev0 + acc);
    }
    let mut n: usize = 0;
    let mut band: usize = 0;
    while band < qmf
        invariant
            d == old(br).bytes(),
            p == old(br).position(),
            br.bytes() == d,
            cv <= 8,
            band <= qmf,
            flags@ == spec_flags,
            spec_flags.len() == qmf,
            p6 == p + qmf + 6,
            p + 6 + qmf * 3961 <= usize::MAX,
            total == bands_parse(d, p6, tm as nat, cv as nat, qs as nat, spec_flags, 0),
            ev0 == old(events)@ + head,
            group_parse(d, p, tm as nat, qmf as nat, g as nat) == (if !total.2 {
                (total.0, head + total.1, false)
            } else {
                (total.0, head + total.1 + seq![TonalEvent::GroupEnd { group: g, total_components: total.3 as usize, bit_pos: total.0 as usize }], true)
            }),
            events@ == ev0 + acc,
            ({
                let rest = bands_parse(d, br.position() as int, tm as nat, cv as nat, qs as nat, spec_flags, band as nat);
                &&& total.0 == rest.0
                &&& total.2 == rest.2
                &&& total.1 == acc + rest.1
                &&& total.3 == n + rest.3
            }),
            n <= 28 * band,
            br.position() + 3960 * (qmf - band) <= p6 + 3960 * qmf,
            p6 <= br.position(),
        decreases qmf - band,
    {
        let ghost pb = br.position() as int;
        proof {
            lemma_bands_parse_bound(d, pb, tm as nat, cv as nat, qs as nat, spec_flags, band as nat);
        }
        if !flags[band] {
            proof {
                lemma_bands_parse_skip(d, pb, tm as nat, cv as nat, qs as nat, spec_flags, band as nat);
            }
            band += 1;
            continue;
        }
        proof {
            lemma_blocks_parse_bound(d, pb, tm as nat, cv as nat, qs as nat, band as nat, 0);
            assert(band * 256 + 256 <= qmf * 3961) by (nonlinear_arith)
                requires
                    band < qmf,
            ;
            assert(3960 * (qmf - band) >= 3960) by (nonlinear_arith)
                requires
                    band < qmf,
            ;
        }
        let ghost bp = blocks_parse(d, pb, tm as nat, cv as nat, qs as nat, band as nat, 0);
        let (ok, count) = parse_tonal_band(br, tm, cv, qs, band, events);
        let ghost rest = bands_parse(d, pb, tm as nat, cv as nat, qs as nat, spec_flags, band as nat);
        if !ok {
            proof {
                assert(rest == (bp.0, bp.1, false, bp.3));
                assert(events@ =~= ev0 + (acc + bp.1));
                assert(events@ =~= old(events)@ + (head + total.1));
            }
            return false;
        }
        proof {
            let next = bands_parse(d, br.position() as int, tm as nat, cv as nat, qs as nat, spec_flags, (band + 1) as nat);
            assert(rest == (next.0, bp.1 + next.1, next.2, bp.3 + next.3));
            assert(total.1 =~= (acc + bp.1) + next.1);
            acc = acc + bp.1;
            assert(events@ =~= ev0 + acc);
            assert(28 * band + 28 == 28 * (band + 1));
        }
        n += count;
        band += 1;
    }
    proof {
        assert(total.1 =~= acc);
    }
    let end = TonalEvent::GroupEnd { group: g, total_components: n, bit_pos: br.pos() };
    events.push(end);
    assert(events@ =~= old(events)@ + (head + total.1 + seq![end]));
    true
}

/// What reading the tonal components of a sound unit found: the tonal coding
/// mode, the events met in reading order and whether every group was read.
pub struct TonalParse {
    pub tonal_mode: u32,
    pub events: Vec<TonalEvent>,
    pub ok: bool,
}

/// Reads the tonal components of a sound unit with `qmf_bands` bands and
/// `tonal_groups` groups.
#[verifier::rlimit(80)]
pub fn parse_tonal_components(br: &mut Bits, qmf_bands: usize, tonal_groups: u32) -> (r: TonalParse)
    requires
        old(br).position() + tonal_read_bound(qmf_bands as nat, tonal_groups as nat) <= usize::MAX,
    ensures
        final(br).bytes() == old(br).bytes(),
        ({
            let (tm, p1, ev, ok) = tonal_parse(old(br).bytes(), old(br).position() as int, qmf_bands as nat, tonal_groups as nat);
            &&& r.tonal_mode == tm
            &&& r.events@ == ev
            &&& r.ok == ok
            &&& final(br).position() == p1
        }),
{
    let ghost d = br.bytes();
    let ghost p = br.position() as int;
    let tonal_mode = br.read(2);
    let ghost p2 = p + 2;
    let ghost total = groups_parse(d, p2, tonal_mode as nat, qmf_bands as nat, tonal_groups as nat, 0);
    let ghost mut acc: Seq<TonalEvent> = Seq::empty();
    proof {
        lemma_groups_parse_bound(d, p2, tonal_mode as nat, qmf_bands as nat, tonal_groups as nat, 0);
        assert(total.1 =~= acc + total.1);
    }
    let mut events: Vec<TonalEvent> = Vec::new();
    let mut group: u32 = 0;
    while group < tonal_groups
        invariant
            d == old(br).bytes(),
            p == old(br).position(),
            p2 == p + 2,
            tonal_mode == rd(d, p, 2),
            br.bytes() == d,
            group <= tonal_groups,
            total == groups_parse(d, p2, tonal_mode as nat, qmf_bands as nat, tonal_groups as nat, 0),
            events@ == acc,
            ({
                let rest = groups_parse(d, br.position() as int, tonal_mode as nat, qmf_bands as nat, tonal_groups as nat, group as nat);
                &&& total.0 == rest.0
                &&& total.2 == rest.2
                &&& total.1 == acc + rest.1
            }),
            br.position() + (tonal_groups - group) * (6 + qmf_bands * 3961) <= p2 + tonal_groups * (6 + qmf_bands * 3961),
            p2 + tonal_groups * (6 + qmf_bands * 3961) <= usize::MAX,
            p2 <= br.position(),
        decreases tonal_groups - group,
    {
        let ghost pg = br.position() as int;
        proof {
            lemma_groups_parse_bound(d, pg, tonal_mode as nat, qmf_bands as nat, tonal_groups as nat, group as nat);
            lemma_group_parse_bound(d, pg, tonal_mode as nat, qmf_bands as nat, group as nat);
            assert((tonal_groups - group) * (6 + qmf_bands * 3961) == (6 + qmf_bands * 3961) + (tonal_groups - (group + 1)) * (6 + qmf_bands * 3961)) by (nonlinear_arith)
                requires
                    group < tonal_groups,
            ;
        }
        let ghost gp = group_parse(d, pg, tonal_mode as nat, qmf_bands as nat, group as nat);
        let ok = parse_tonal_group(br, tonal_mode, qmf_bands, group, &mut events);
        let ghost rest = groups_parse(d, pg, tonal_mode as nat, qmf_bands as nat, tonal_groups as nat, group as nat);
        if !ok {
            proof {
                assert(rest == (gp.0, gp.1, false));
                assert(events@ =~= acc + gp.1);
            }
            return TonalParse { tonal_mode, events, ok: false };
        }
        proof {
            let next = groups_parse(d, br.position() as int, tonal_mode as nat, qmf_bands as nat, tonal_groups as nat, (group + 1) as nat);
            assert(rest == (next.0, gp.1 + next.1, next.2));
            assert(total.1 =~= (acc + gp.1) + next.1);
            acc = acc + gp.1;
        }
        group += 1;
    }
    proof {
        assert(total.1 =~= acc);
    }
    TonalParse { tonal_mode, events, ok: true }
}


/// First spectral line of each of the 32 ATRAC3 blocks, and the end of the last.
pub open spec fn subband_tab() -> Seq<int> {
    seq![
        0, 8, 16, 24, 32, 40, 48, 56, 64, 80, 96, 112, 128, 144, 160, 176, 192, 224, 256, 288,
        320, 352, 384, 416, 448, 480, 512, 576, 640, 704, 768, 896, 1024,
    ]
}

/// Number of spectral lines in block `k`.
pub open spec fn band_len(k: int) -> nat {
    (subband_tab()[k + 1] - subband_tab()[k]) as nat
}

/// The 3-bit table selectors of `nbfu` blocks read from `p` on.
pub open spec fn parsed_selectors(d: Seq<u8>, p: int, nbfu: nat) -> Seq<u32> {
    Seq::new(nbfu, |k: int| rd(d, p + 3 * k, 3) as u32)
}

/// Number of nonzero selectors among the first `k`.
pub open spec fn coded_before(sels: Seq<u32>, k: nat) -> nat
    decreases k,
{
    if k == 0 || k > sels.len() {
        0
    } else {
        coded_before(sels, (k - 1) as nat) + if sels[k - 1] != 0 {
            1nat
        } else {
            0nat
        }
    }
}

/// The scale factors read from `p` on: a 6-bit index for each block with a
/// nonzero selector, in order.
pub open spec fn parsed_sf(d: Seq<u8>, p: int, sels: Seq<u32>) -> Seq<Option<u32>> {
    Seq::new(
        sels.len(),
        |k: int|
            if sels[k] == 0 {
                None
            } else {
                Some(rd(d, p + 6 * coded_before(sels, k as nat), 6) as u32)
            },
    )
}

/// Bits of fixed-length mantissa codes of a block of `len` lines coded with
/// table `sel`.
pub open spec fn block_data_len(sel: int, len: nat) -> nat {
    if sel == 0 {
        0
    } else if sel == 1 {
        4 * (len / 2)
    } else {
        spec_clc_bits(sel) * len
    }
}

/// Bits of fixed-length mantissa codes of the first `k` blocks.
pub open spec fn data_offset(sels: Seq<u32>, k: nat) -> nat
    decreases k,
{
    if k == 0 || k > sels.len() {
        0
    } else {
        data_offset(sels, (k - 1) as nat) + block_data_len(sels[k - 1] as int, band_len(k - 1))
    }
}

/// The mantissas of a block of `len` lines coded with table `sel` read from
/// `p`: table 1 as pairs of 2-bit codes, the others as two's complement codes.
pub open spec fn parsed_mantissas(d: Seq<u8>, p: int, sel: int, len: nat) -> Seq<i16> {
    if sel == 1 {
        Seq::new(
            2 * (len / 2),
            |i: int|
                {
                    let x = rd(d, p + 4 * (i / 2), 4);
                    if i % 2 == 0 {
                        spec_pair_value((x / 4) as int) as i16
                    } else {
                        spec_pair_value((x % 4) as int) as i16
                    }
                },
        )
    } else {
        let w = spec_clc_bits(sel);
        Seq::new(len, |i: int| spec_read_signed(rd(d, p + w * i, w), w) as i16)
    }
}

/// Number of nonzero mantissas.
pub open spec fn count_nonzero(ms: Seq<i16>) -> nat
    decreases ms.len(),
{
    if ms.len() == 0 {
        0
    } else {
        count_nonzero(ms.drop_last()) + if ms.last() != 0 {
            1nat
        } else {
            0nat
        }
    }
}

/// The largest magnitude among the mantissas (0 for none).
pub open spec fn max_magnitude(ms: Seq<i16>) -> int
    decreases ms.len(),
{
    if ms.len() == 0 {
        0
    } else {
        let m = max_magnitude(ms.drop_last());
        let a = if ms.last() < 0 {
            -ms.last()
        } else {
            ms.last() as int
        };
        if a > m {
            a
        } else {
            m
        }
    }
}

/// A mantissa sits at the limit of table `sel`: -2 or 1 for table 1, else a
/// magnitude at least the table's largest.
pub open spec fn at_limit(sel: int, q: int) -> bool {
    if sel == 1 {
        q == -2 || q == 1
    } else {
        q >= spec_quant_limit(sel) || -q >= spec_quant_limit(sel)
    }
}

/// Number of mantissas at the limit of table `sel`.
pub open spec fn count_at_limit(sel: int, ms: Seq<i16>) -> nat
    decreases ms.len(),
{
    if ms.len() == 0 {
        0
    } else {
        count_at_limit(sel, ms.drop_last()) + if at_limit(sel, ms.last() as int) {
            1nat
        } else {
            0nat
        }
    }
}

/// What was read of one block's fixed-length mantissas, with their statistics.
pub struct BfuDump {
    pub block: usize,
    pub len: usize,
    pub selector: u32,
    pub sf: Option<u32>,
    pub nonzero: usize,
    pub max_abs: i16,
    pub saturated: usize,
    pub mantissas: Vec<i16>,
}

/// Reads the fixed-length mantissas of block `block` coded with table `sel`.
fn read_block_mantissas(br: &mut Bits, sel: u32, len: usize) -> (ms: Vec<i16>)
    requires
        1 <= sel <= 7,
        len <= 128,
        old(br).position() + 768 <= usize::MAX,
    ensures
        final(br).bytes() == old(br).bytes(),
        final(br).position() == old(br).position() + block_data_len(sel as int, len as nat),
        ms@ == parsed_mantissas(old(br).bytes(), old(br).position() as int, sel as int, len as nat),
{
    let ghost d = br.bytes();
    let ghost p = br.position() as int;
    let mut ms: Vec<i16> = Vec::new();
    proof {
        lemma2_to64();
    }
    if sel == 1 {
        let npairs = len / 2;
        let mut k: usize = 0;
        while k < npairs
            invariant
                d == old(br).bytes(),
                br.bytes() == d,
                sel == 1,
                npairs == len / 2,
                len <= 128,
                k <= npairs,
                p == old(br).position(),
                p + 768 <= usize::MAX,
                br.position() == p + 4 * k,
                ms@ == parsed_mantissas(d, p, 1, len as nat).take(2 * k),
            decreases npairs - k,
        {
            let packed = br.read(4);
            proof {
                lemma_rd_bound(d, p + 4 * k, 4);
                lemma2_to64();
            }
            let a = clc_pair_value((packed >> 2) & 3);
            let b = clc_pair_value(packed & 3);
            assert((packed >> 2u32) & 3u32 == packed / 4) by (bit_vector)
                requires
                    packed < 16,
            ;
            assert(packed & 3u32 == packed % 4) by (bit_vector);
            ms.push(a);
            ms.push(b);
            k += 1;
            proof {
                let full = parsed_mantissas(d, p, 1, len as nat);
                assert((2 * k - 2) / 2 == k - 1);
                assert((2 * k - 1) / 2 == k - 1);
                assert(ms@ =~= full.take(2 * k));
            }
        }
        assert(ms@ =~= parsed_mantissas(d, p, 1, len as nat));
    } else {
        let w = clc_bits(sel);
        assert(w * len <= 768) by (nonlinear_arith)
            requires
                w <= 6,
                len <= 128,
        ;
        assert(w * 0 == 0);
        let mut i: usize = 0;
        while i < len
            invariant
                d == old(br).bytes(),
                br.bytes() == d,
                2 <= sel <= 7,
                w == spec_clc_bits(sel as int),
                3 <= w <= 6,
                len <= 128,
                i <= len,
                p == old(br).position(),
                p + 768 <= usize::MAX,
                br.position() == p + w * i,
                w * i <= w * len,
                w * len <= 768,
                ms@ == parsed_mantissas(d, p, sel as int, len as nat).take(i as int),
            decreases len - i,
        {
            proof {
                assert(w * i + w <= w * len) by (nonlinear_arith)
                    requires
                        i < len,
                ;
            }
            let q = br.read_signed(w);
            ms.push(q);
            i += 1;
            proof {
                assert(w * (i - 1) + w == w * i) by (nonlinear_arith);
                assert(w * i <= w * len) by (nonlinear_arith)
                    requires
                        i <= len,
                ;
                let full = parsed_mantissas(d, p, sel as int, len as nat);
                assert(ms@ =~= full.take(i as int));
            }
        }
        assert(ms@ =~= parsed_mantissas(d, p, sel as int, len as nat));
    }
    ms
}

/// Counts the nonzero mantissas, those at the table's limit and the largest
/// magnitude.
fn mantissa_stats(sel: u32, ms: &Vec<i16>) -> (r: (usize, i16, usize))
    requires
        forall|i: int| 0 <= i < ms@.len() ==> -32 <= #[trigger] ms@[i] <= 31,
    ensures
        r.0 == count_nonzero(ms@),
        r.1 == max_magnitude(ms@),
        r.2 == count_at_limit(sel as int, ms@),
{
    let limit = selector_quant_limit(sel);
    let mut nonzero: usize = 0;
    let mut max_abs: i16 = 0;
    let mut saturated: usize = 0;
    let mut i: usize = 0;
    while i < ms.len()
        invariant
            i <= ms@.len(),
            limit == spec_quant_limit(sel as int),
            forall|k: int| 0 <= k < ms@.len() ==> -32 <= #[trigger] ms@[k] <= 31,
            nonzero == count_nonzero(ms@.take(i as int)),
            max_abs == max_magnitude(ms@.take(i as int)),
            0 <= max_abs <= 32,
            saturated == count_at_limit(sel as int, ms@.take(i as int)),
            nonzero <= i,
            saturated <= i,
        decreases ms@.len() - i,
    {
        let q = ms[i];
        assert(ms@.take(i + 1).drop_last() =~= ms@.take(i as int));
        let a: i16 = if q < 0 {
            -q
        } else {
            q
        };
        if a > max_abs {
            max_abs = a;
        }
        let hit = if sel == 1 {
            q == -2 || q == 1
        } else {
            q >= limit || -q >= limit
        };
        if hit {
            saturated += 1;
        }
        if q != 0 {
            nonzero += 1;
        }
        i += 1;
    }
    assert(ms@.take(ms@.len() as int) =~= ms@);
    (nonzero, max_abs, saturated)
}


/// Every block has 8 to 128 lines, and the blocks before `k` hold
/// `subband_tab()[k]` lines.
pub proof fn lemma_subband_tab(k: int)
    requires
        0 <= k < 32,
    ensures
        8 <= band_len(k) <= 128,
        band_len(k) % 2 == 0,
        subband_tab()[k] + band_len(k) == subband_tab()[k + 1],
        0 <= subband_tab()[k] < subband_tab()[k + 1] <= 1024,
{
}

proof fn lemma_data_offset_bound(sels: Seq<u32>, k: nat)
    requires
        k <= 32,
        k <= sels.len(),
        forall|j: int| 0 <= j < sels.len() ==> #[trigger] sels[j] <= 7,
    ensures
        data_offset(sels, k) <= 6 * subband_tab()[k as int],
    decreases k,
{
    if k > 0 {
        lemma_data_offset_bound(sels, (k - 1) as nat);
        lemma_subband_tab(k - 1);
        let len = band_len(k - 1);
        let sel = sels[k - 1] as int;
        if sel >= 2 {
            let w = spec_clc_bits(sel);
            assert(w <= 6);
            assert(w * len <= 6 * len) by (nonlinear_arith)
                requires
                    w <= 6,
            ;
        }
    }
}

proof fn lemma_coded_before_bound(sels: Seq<u32>, k: nat)
    ensures
        coded_before(sels, k) <= k,
    decreases k,
{
    if k > 0 && k <= sels.len() {
        lemma_coded_before_bound(sels, (k - 1) as nat);
    }
}

proof fn lemma_parsed_mantissas_range(d: Seq<u8>, p: int, sel: int, len: nat)
    requires
        1 <= sel <= 7,
    ensures
        forall|i: int|
            0 <= i < parsed_mantissas(d, p, sel, len).len() ==> -32 <= #[trigger] parsed_mantissas(
                d,
                p,
                sel,
                len,
            )[i] <= 31,
{
    lemma2_to64();
    if sel != 1 {
        let w = spec_clc_bits(sel);
        assert forall|i: int| 0 <= i < len implies -32 <= #[trigger] parsed_mantissas(d, p, sel, len)[i]
            <= 31 by {
            let raw = rd(d, p + w * i, w);
            lemma_rd_bound(d, p + w * i, w);
            lemma_read_signed_small(raw, w);
            lemma_pow2_unfold(w);
            if w < 6 {
                vstd::arithmetic::power2::lemma_pow2_strictly_increases((w - 1) as nat, 5);
            }
        }
    }
}

/// What was read of the spectral part of a sound unit: the number of blocks,
/// the coding mode, the selectors and scale factors of all blocks and, in
/// fixed-length mode, the mantissas of each block (uncoded blocks hold none).
pub struct SpectrumDump {
    pub num_bfu: usize,
    pub coding_mode: u32,
    pub selectors: Vec<u32>,
    pub sf: Vec<Option<u32>>,
    pub bfus: Vec<BfuDump>,
}

/// `r` holds block `k` of a spectrum whose selectors are `sels`, scale factors
/// `sfs` and mantissa data from `m` on.
pub open spec fn bfu_dump_ok(r: BfuDump, d: Seq<u8>, m: int, sels: Seq<u32>, sfs: Seq<Option<u32>>, k: int) -> bool {
    let sel = sels[k];
    &&& r.block == k
    &&& r.len == band_len(k)
    &&& r.selector == sel
    &&& r.sf == sfs[k]
    &&& sel == 0 ==> r.mantissas@.len() == 0 && r.nonzero == 0 && r.max_abs == 0 && r.saturated == 0
    &&& sel != 0 ==> {
        let ms = parsed_mantissas(d, m + data_offset(sels, k as nat), sel as int, band_len(k));
        &&& r.mantissas@ == ms
        &&& r.nonzero == count_nonzero(ms)
        &&& r.max_abs == max_magnitude(ms)
        &&& r.saturated == count_at_limit(sel as int, ms)
    }
}

/// Where the mantissa data of the spectral part of a unit at bit `s` begins.
pub open spec fn spectrum_data_start(d: Seq<u8>, s: int) -> int {
    let nbfu = rd(d, s, 5) + 1;
    let sels = parsed_selectors(d, s + 6, nbfu);
    s + 6 + 3 * nbfu + 6 * coded_before(sels, nbfu)
}

/// Where reading the spectral part of a unit at bit `s` stops.
pub open spec fn spectrum_end(d: Seq<u8>, s: int) -> int {
    let nbfu = rd(d, s, 5) + 1;
    let sels = parsed_selectors(d, s + 6, nbfu);
    if rd(d, s + 5, 1) == 1 {
        spectrum_data_start(d, s) + data_offset(sels, nbfu)
    } else {
        spectrum_data_start(d, s)
    }
}

/// `r` is what reading the spectral part of a unit at bit `s` of `d` gives.
pub open spec fn spectrum_dump_ok(r: SpectrumDump, d: Seq<u8>, s: int) -> bool {
    let nbfu = rd(d, s, 5) + 1;
    let mode = rd(d, s + 5, 1);
    let sels = parsed_selectors(d, s + 6, nbfu);
    let sfs = parsed_sf(d, s + 6 + 3 * nbfu, sels);
    let m = spectrum_data_start(d, s);
    &&& r.num_bfu == nbfu
    &&& r.coding_mode == mode
    &&& r.selectors@ == sels
    &&& r.sf@ == sfs
    &&& mode != 1 ==> r.bfus@.len() == 0
    &&& mode == 1 ==> {
        &&& r.bfus@.len() == nbfu
        &&& forall|k: int| 0 <= k < nbfu ==> bfu_dump_ok(#[trigger] r.bfus@[k], d, m, sels, sfs, k)
    }
}

/// Reads the spectral part of a sound unit: block count, coding mode,
/// selectors, scale factors and, in fixed-length mode, the mantissas.
#[verifier::rlimit(60)]
pub fn parse_unit_spectrum(br: &mut Bits) -> (r: SpectrumDump)
    requires
        old(br).position() + 8192 <= usize::MAX,
    ensures
        final(br).bytes() == old(br).bytes(),
        spectrum_dump_ok(r, old(br).bytes(), old(br).position() as int),
        final(br).position() == spectrum_end(old(br).bytes(), old(br).position() as int),
{
    let ghost d = br.bytes();
    let ghost s = br.position() as int;
    proof {
        lemma2_to64();
        lemma_rd_bound(d, s, 5);
        lemma_rd_bound(d, s + 5, 1);
    }
    let num_bfu = br.read(5) as usize + 1;
    let coding_mode = br.read(1);
    let ghost sels = parsed_selectors(d, s + 6, num_bfu as nat);
    let mut selectors: Vec<u32> = Vec::new();
    let mut k: usize = 0;
    while k < num_bfu
        invariant
            d == old(br).bytes(),
            br.bytes() == d,
            s == old(br).position(),
            s + 8192 <= usize::MAX,
            1 <= num_bfu <= 32,
            k <= num_bfu,
            sels == parsed_selectors(d, s + 6, num_bfu as nat),
            br.position() == s + 6 + 3 * k,
            selectors@ == sels.take(k as int),
        decreases num_bfu - k,
    {
        let v = br.read(3);
        selectors.push(v);
        k += 1;
        proof {
            lemma_rd_bound(d, s + 6 + 3 * (k - 1), 3);
            assert(selectors@ =~= sels.take(k as int));
        }
    }
    assert(selectors@ =~= sels);
    proof {
        assert forall|j: int| 0 <= j < sels.len() implies #[trigger] sels[j] <= 7 by {
            lemma_rd_bound(d, s + 6 + 3 * j, 3);
            lemma2_to64();
        }
    }
    let ghost sf_start = s + 6 + 3 * num_bfu;
    let ghost sfs = parsed_sf(d, sf_start, sels);
    let mut sf: Vec<Option<u32>> = Vec::new();
    let mut k: usize = 0;
    while k < num_bfu
        invariant
            d == old(br).bytes(),
            br.bytes() == d,
            s + 8192 <= usize::MAX,
            1 <= num_bfu <= 32,
            k <= num_bfu,
            selectors@ == sels,
            sels.len() == num_bfu,
            sf_start == s + 6 + 3 * num_bfu,
            sfs == parsed_sf(d, sf_start, sels),
            br.position() == sf_start + 6 * coded_before(sels, k as nat),
            coded_before(sels, k as nat) <= k,
            sf@ == sfs.take(k as int),
        decreases num_bfu - k,
    {
        if selectors[k] == 0 {
            sf.push(None);
        } else {
            let v = br.read(6);
            sf.push(Some(v));
        }
        k += 1;
        assert(sf@ =~= sfs.take(k as int));
    }
    assert(sf@ =~= sfs);
    let ghost m = sf_start + 6 * coded_before(sels, num_bfu as nat);
    let mut bfus: Vec<BfuDump> = Vec::new();
    if coding_mode == 1 {
        let tab: [usize; 33] = [
            0, 8, 16, 24, 32, 40, 48, 56, 64, 80, 96, 112, 128, 144, 160, 176, 192, 224, 256, 288,
            320, 352, 384, 416, 448, 480, 512, 576, 640, 704, 768, 896, 1024,
        ];
        assert(tab@.map_values(|x: usize| x as int) =~= subband_tab());
        let mut block: usize = 0;
        while block < num_bfu
            invariant
                d == old(br).bytes(),
                br.bytes() == d,
                s + 8192 <= usize::MAX,
                1 <= num_bfu <= 32,
                block <= num_bfu,
                tab@.map_values(|x: usize| x as int) == subband_tab(),
                tab@.len() == 33,
                selectors@ == sels,
                sf@ == sfs,
                sfs.len() == num_bfu,
                sels.len() == num_bfu,
                forall|j: int| 0 <= j < sels.len() ==> #[trigger] sels[j] <= 7,
                m == s + 6 + 3 * num_bfu + 6 * coded_before(sels, num_bfu as nat),
                coded_before(sels, num_bfu as nat) <= num_bfu,
                br.position() == m + data_offset(sels, block as nat),
                bfus@.len() == block,
                forall|j: int| 0 <= j < block ==> bfu_dump_ok(#[trigger] bfus@[j], d, m, sels, sfs, j),
            decreases num_bfu - block,
        {
            proof {
                lemma_subband_tab(block as int);
                lemma_data_offset_bound(sels, block as nat);
                assert(tab@.map_values(|x: usize| x as int)[block as int] == tab@[block as int] as int);
                assert(tab@.map_values(|x: usize| x as int)[block + 1] == tab@[block + 1] as int);
            }
            let selector = selectors[block];
            let len = tab[block + 1] - tab[block];
            if selector == 0 {
                bfus.push(BfuDump {
                    block,
                    len,
                    selector,
                    sf: sf[block],
                    nonzero: 0,
                    max_abs: 0,
                    saturated: 0,
                    mantissas: Vec::new(),
                });
            } else {
                let ms = read_block_mantissas(br, selector, len);
                proof {
                    lemma_parsed_mantissas_range(d, m + data_offset(sels, block as nat), selector as int, len as nat);
                }
                let (nonzero, max_abs, saturated) = mantissa_stats(selector, &ms);
                bfus.push(BfuDump { block, len, selector, sf: sf[block], nonzero, max_abs, saturated, mantissas: ms });
            }
            block += 1;
        }
    }
    SpectrumDump { num_bfu, coding_mode, selectors, sf, bfus }
}


/// Where the gain control of QMF band `b` begins, the bands being read from `p`:
/// each holds a 3-bit point count and 9 bits per point.
pub open spec fn gain_pos(d: Seq<u8>, p: int, b: nat) -> int
    decreases b,
{
    if b == 0 {
        p
    } else {
        let q = gain_pos(d, p, (b - 1) as nat);
        q + 3 + 9 * rd(d, q, 3)
    }
}

/// The gain points of the band read at `q`: (4-bit level, 5-bit location).
pub open spec fn parsed_gain_band(d: Seq<u8>, q: int) -> Seq<(u32, u32)> {
    Seq::new(
        rd(d, q, 3),
        |k: int| (rd(d, q + 3 + 9 * k, 4) as u32, rd(d, q + 3 + 9 * k + 4, 5) as u32),
    )
}

/// What `Bits::remaining` reports for `len` bytes read up to bit `pos`.
pub open spec fn remaining_bits(len: nat, pos: int) -> int {
    if len * 8 <= usize::MAX {
        if len * 8 >= pos {
            len * 8 - pos
        } else {
            0
        }
    } else {
        usize::MAX - pos
    }
}

/// How reading a sound unit ended after its tonal components.
pub enum UnitTail {
    /// The tonal components could not be read; the reader stopped at
    /// `bit_pos` with `bits_remaining` bits left.
    TonalFailed { bit_pos: usize, bits_remaining: usize },
    /// The spectral part that followed.
    Spectrum(SpectrumDump),
}

/// What reading one channel's sound unit found.
pub struct ParsedUnit {
    pub unit_id: u32,
    pub subbands: usize,
    pub gains: Vec<Vec<(u32, u32)>>,
    pub tonal_groups: u32,
    pub tonal: Option<TonalParse>,
    pub tail: UnitTail,
}

/// `tail` holds the spectral part read at `s` of `d`.
pub open spec fn tail_is_spectrum(tail: UnitTail, d: Seq<u8>, s: int) -> bool {
    match tail {
        UnitTail::Spectrum(sd) => spectrum_dump_ok(sd, d, s),
        UnitTail::TonalFailed { .. } => false,
    }
}

/// `r` is what reading the sound unit `d` gives: unit id, QMF band count less
/// one, gain points of each band, tonal group count, the tonal components
/// where there are groups, then the spectral part unless they failed.
pub open spec fn unit_parse_ok(r: ParsedUnit, d: Seq<u8>) -> bool {
    let qmf = rd(d, 6, 2) + 1;
    let t = gain_pos(d, 8, qmf);
    let ng = rd(d, t, 5);
    &&& r.unit_id == rd(d, 0, 6)
    &&& r.subbands == rd(d, 6, 2)
    &&& r.gains@.len() == qmf
    &&& forall|b: int| 0 <= b < qmf ==> (#[trigger] r.gains@[b])@ == parsed_gain_band(d, gain_pos(d, 8, b as nat))
    &&& r.tonal_groups == ng
    &&& ng == 0 ==> r.tonal is None && tail_is_spectrum(r.tail, d, t + 5)
    &&& ng != 0 ==> {
        let (tm, p1, ev, ok) = tonal_parse(d, t + 5, qmf, ng);
        &&& r.tonal matches Some(tp) && tp.tonal_mode == tm && tp.events@ == ev && tp.ok == ok
        &&& ok ==> tail_is_spectrum(r.tail, d, p1)
        &&& !ok ==> r.tail == (UnitTail::TonalFailed {
            bit_pos: p1 as usize,
            bits_remaining: remaining_bits(d.len(), p1) as usize,
        })
    }
}

proof fn lemma_gain_pos_bound(d: Seq<u8>, p: int, b: nat)
    ensures
        p <= gain_pos(d, p, b) <= p + 66 * b,
    decreases b,
{
    if b > 0 {
        lemma_gain_pos_bound(d, p, (b - 1) as nat);
        let q = gain_pos(d, p, (b - 1) as nat);
        lemma_rd_bound(d, q, 3);
        lemma2_to64();
    }
}

/// Reads one channel's sound unit.
pub fn parse_sound_unit(unit: &[u8]) -> (r: ParsedUnit)
    ensures
        unit_parse_ok(r, unit@),
{
    let ghost d = unit@;
    let mut br = Bits::new(unit);
    proof {
        lemma2_to64();
        lemma_rd_bound(d, 6, 2);
    }
    let unit_id = br.read(6);
    let subbands = br.read(2) as usize;
    let qmf_bands = subbands + 1;
    let mut gains: Vec<Vec<(u32, u32)>> = Vec::new();
    let mut b: usize = 0;
    while b < qmf_bands
        invariant
            d == unit@,
            br.bytes() == d,
            1 <= qmf_bands <= 4,
            qmf_bands == rd(d, 6, 2) + 1,
            b <= qmf_bands,
            br.position() == gain_pos(d, 8, b as nat),
            br.position() <= 8 + 66 * b,
            gains@.len() == b,
            forall|k: int| 0 <= k < b ==> (#[trigger] gains@[k])@ == parsed_gain_band(d, gain_pos(d, 8, k as nat)),
        decreases qmf_bands - b,
    {
        let ghost q = br.position() as int;
        proof {
            lemma_rd_bound(d, q, 3);
            lemma2_to64();
        }
        let count = br.read(3);
        let mut points: Vec<(u32, u32)> = Vec::new();
        let mut k: u32 = 0;
        while k < count
            invariant
                br.bytes() == d,
                count == rd(d, q, 3),
                count <= 7,
                q <= 8 + 66 * b,
                b < 4,
                k <= count,
                br.position() == q + 3 + 9 * k,
                points@ == parsed_gain_band(d, q).take(k as int),
            decreases count - k,
        {
            let level = br.read(4);
            let location = br.read(5);
            points.push((level, location));
            k += 1;
            assert(points@ =~= parsed_gain_band(d, q).take(k as int));
        }
        assert(points@ =~= parsed_gain_band(d, q));
        gains.push(points);
        b += 1;
    }
    let ghost t = br.position() as int;
    let tonal_groups = br.read(5);
    proof {
        lemma_rd_bound(d, t, 5);
    }
    if tonal_groups != 0 {
        assert(tonal_read_bound(qmf_bands as nat, tonal_groups as nat) <= 2 + 31 * (6 + 4 * 3961)) by (nonlinear_arith)
            requires
                qmf_bands <= 4,
                tonal_groups <= 31,
        ;
        let tonal = parse_tonal_components(&mut br, qmf_bands, tonal_groups);
        proof {
            lemma_groups_parse_bound(d, t + 7, tonal.tonal_mode as nat, qmf_bands as nat, tonal_groups as nat, 0);
        }
        if !tonal.ok {
            let bit_pos = br.pos();
            let bits_remaining = br.remaining();
            return ParsedUnit {
                unit_id,
                subbands,
                gains,
                tonal_groups,
                tonal: Some(tonal),
                tail: UnitTail::TonalFailed { bit_pos, bits_remaining },
            };
        }
        let spectrum = parse_unit_spectrum(&mut br);
        return ParsedUnit {
            unit_id,
            subbands,
            gains,
            tonal_groups,
            tonal: Some(tonal),
            tail: UnitTail::Spectrum(spectrum),
        };
    }
    let spectrum = parse_unit_spectrum(&mut br);
    ParsedUnit { unit_id, subbands, gains, tonal_groups, tonal: None, tail: UnitTail::Spectrum(spectrum) }
}


/// The two channel units of frame `frame` of `block_align` bytes in `data`:
/// each half of the frame; `None` where the frame lies past the data.
pub fn frame_units(data: &[u8], block_align: usize, frame: usize) -> (r: Option<(&[u8], &[u8])>)
    requires
        frame * block_align + block_align <= usize::MAX,
    ensures
        ({
            let start = frame * block_align;
            let half = block_align / 2;
            if start + block_align > data@.len() {
                r is None
            } else {
                r matches Some((a, b)) && a@ == data@.subrange(start, start + half) && b@
                    == data@.subrange(start + half, start + 2 * half)
            }
        }),
{
    assert(frame * block_align <= frame * block_align + block_align);
    let start = frame * block_align;
    let end = start + block_align;
    if end > data.len() {
        return None;
    }
    let half = block_align / 2;
    Some((&data[start..start + half], &data[start + half..start + 2 * half]))
}

} // verus!
