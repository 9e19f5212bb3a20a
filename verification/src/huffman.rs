//! MSB-first bit packing and variable-length code tables. Bits are numbered
//! from the most significant bit of the first byte on.
use vstd::prelude::*;
use vstd::arithmetic::power2::{pow2, lemma_pow2_unfold, lemma_pow2_pos, lemma2_to64};
use vstd::arithmetic::div_mod::{lemma_mod_breakdown, lemma_add_mod_noop, lemma_mul_mod_noop_right};

verus! {

/// Bit `j` of `b`, counting from the least significant bit.
pub open spec fn byte_bit(b: u8, j: int) -> u8 {
    (b >> (j as u8)) & 1u8
}

/// Bit `i` of `data` in MSB-first order; bits past the end read as 0.
pub open spec fn bit_at(data: Seq<u8>, i: int) -> u8 {
    if 0 <= i && i / 8 < data.len() {
        byte_bit(data[i / 8], 7 - i % 8)
    } else {
        0
    }
}

/// The `n` bits of `data` from position `p` on, read as a big-endian number.
pub open spec fn bits_value(data: Seq<u8>, p: int, n: nat) -> nat
    decreases n,
{
    if n == 0 {
        0
    } else {
        2 * bits_value(data, p, (n - 1) as nat) + bit_at(data, p + n - 1) as nat
    }
}

/// What `BitReader::read_bits` builds from the `n` bits of `data` from position
/// `p` on: the bits that lie inside `data`, in order, read as a big-endian
/// number; positions past the end are skipped and add no digit.
pub open spec fn read_value(data: Seq<u8>, p: int, n: nat) -> nat
    decreases n,
{
    if n == 0 {
        0
    } else if 0 <= p + n - 1 && (p + n - 1) / 8 < data.len() {
        2 * read_value(data, p, (n - 1) as nat) + bit_at(data, p + n - 1) as nat
    } else {
        read_value(data, p, (n - 1) as nat)
    }
}

/// The low `n` bits of `val`, most significant first, each as 0 or 1.
pub open spec fn bits_msb(val: u32, n: nat) -> Seq<u8> {
    Seq::new(n, |j: int| ((val >> ((n - 1 - j) as u32)) & 1u32) as u8)
}

/// `data` holds exactly the bits `bits`, padded with zero bits to a whole byte.
pub open spec fn packs(data: Seq<u8>, bits: Seq<u8>) -> bool {
    &&& data.len() == (bits.len() + 7) / 8
    &&& forall|i: int|
        0 <= i < data.len() * 8 ==> #[trigger] bit_at(data, i) == if i < bits.len() {
            bits[i]
        } else {
            0
        }
}

pub(crate) proof fn lemma_byte_bit_range(b: u8, j: int)
    requires
        0 <= j < 8,
    ensures
        byte_bit(b, j) <= 1,
{
    let jj = j as u8;
    assert((b >> jj) & 1u8 <= 1u8) by (bit_vector);
}

pub(crate) proof fn lemma_byte_bit_zero(j: int)
    requires
        0 <= j < 8,
    ensures
        byte_bit(0u8, j) == 0,
{
    let jj = j as u8;
    assert((0u8 >> jj) & 1u8 == 0u8) by (bit_vector);
}

proof fn lemma_byte_bit_set(b: u8, k: int, j: int)
    requires
        0 <= k < 8,
        0 <= j < 8,
    ensures
        byte_bit(b | (1u8 << (k as u8)), j) == if j == k {
            1u8
        } else {
            byte_bit(b, j)
        },
{
    let kk = k as u8;
    let jj = j as u8;
    assert(((b | (1u8 << kk)) >> jj) & 1u8 == if jj == kk {
        1u8
    } else {
        (b >> jj) & 1u8
    }) by (bit_vector)
        requires
            kk < 8,
            jj < 8,
    ;
}

pub(crate) proof fn lemma_shift_in_bit(val: u32, b: u32)
    requires
        b <= 1,
    ensures
        ((val << 1u32) | b) as nat == (2 * val + b) % 0x1_0000_0000,
{
    assert(((val << 1u32) | b) == ((2 * val + b) % 0x1_0000_0000) as u32) by (bit_vector)
        requires
            b <= 1,
    ;
}

pub(crate) proof fn lemma_mod_shift_in(x: nat, b: nat)
    ensures
        (2 * (x % 0x1_0000_0000) + b) % 0x1_0000_0000 == (2 * x + b) % 0x1_0000_0000,
{
    let m: int = 0x1_0000_0000;
    lemma_mul_mod_noop_right(2, x as int, m);
    lemma_add_mod_noop(2 * ((x as int) % m), b as int, m);
    lemma_add_mod_noop(2 * (x as int), b as int, m);
}

/// Reading back `n` bits that were packed from the low bits of `val` gives
/// `val` modulo 2^n.
pub proof fn lemma_bits_value_msb(data: Seq<u8>, p: int, val: u32, n: nat)
    requires
        n <= 32,
        forall|j: int| 0 <= j < n ==> bit_at(data, p + j) == #[trigger] bits_msb(val, n)[j],
    ensures
        bits_value(data, p, n) == (val as nat) % pow2(n),
    decreases n,
{
    lemma2_to64();
    if n == 0 {
    } else {
        let half = val >> 1u32;
        assert forall|j: int| 0 <= j < n - 1 implies bit_at(data, p + j) == #[trigger] bits_msb(
            half,
            (n - 1) as nat,
        )[j] by {
            assert(bits_msb(val, n)[j] == bit_at(data, p + j));
            let s = (n - 2 - j) as u32;
            assert((val >> (s + 1)) == ((val >> 1u32) >> s)) by (bit_vector)
                requires
                    s < 31,
            ;
        }
        lemma_bits_value_msb(data, p, half, (n - 1) as nat);
        assert(bits_msb(val, n)[n - 1] == bit_at(data, p + n - 1));
        assert(((val >> 0u32) & 1u32) == val % 2) by (bit_vector);
        assert((val >> 1u32) == val / 2) by (bit_vector);
        lemma_pow2_unfold(n);
        lemma_pow2_pos((n - 1) as nat);
        lemma_mod_breakdown(val as int, 2, pow2((n - 1) as nat) as int);
    }
}

/// Bits written by `BitWriter::write_bits` are read back by `BitReader::read_bits`:
/// where the packed bits hold the `n`-bit pattern of `val` at position `p`,
/// reading `n` bits there gives `val` modulo 2^n.
pub proof fn lemma_write_then_read(data: Seq<u8>, bits: Seq<u8>, p: int, val: u32, n: nat)
    requires
        packs(data, bits),
        n <= 32,
        0 <= p,
        p + n <= bits.len(),
        bits.subrange(p, p + n) == bits_msb(val, n),
    ensures
        read_value(data, p, n) % 0x1_0000_0000 == (val as nat) % pow2(n),
{
    assert forall|j: int| 0 <= j < n implies bit_at(data, p + j) == #[trigger] bits_msb(val, n)[j] by {
        assert(bits.subrange(p, p + n)[j] == bits[p + j]);
        assert(p + j < data.len() * 8);
    }
    assert(bits.len() <= data.len() * 8);
    lemma_read_value_in_range(data, p, n);
    lemma_bits_value_msb(data, p, val, n);
    lemma2_to64();
    assert((val as nat) % pow2(n) < 0x1_0000_0000) by {
        lemma_pow2_pos(n);
        if n < 32 {
            vstd::arithmetic::power2::lemma_pow2_strictly_increases(n, 32);
        }
    }
}

/// Sequential reader of MSB-first bits; positions past the end add no bits.
pub struct BitReader<'a> {
    data: &'a [u8],
    bit_ptr: usize,
}

impl<'a> BitReader<'a> {
    /// The bytes being read.
    pub closed spec fn bytes(&self) -> Seq<u8> {
        self.data@
    }

    /// The number of bits consumed so far.
    pub closed spec fn consumed(&self) -> nat {
        self.bit_ptr as nat
    }

    /// A reader at the first bit of `data`.
    pub fn new(data: &'a [u8]) -> (r: Self)
        ensures
            r.bytes() == data@,
            r.consumed() == 0,
    {
        Self { data, bit_ptr: 0 }
    }

    /// Reads the next `n` bits as a big-endian number, keeping its low 32 bits.
    /// Positions past the end of the data are passed over: they add no digit,
    /// though the reader still moves past them.
    pub fn read_bits(&mut self, n: usize) -> (val: u32)
        requires
            old(self).consumed() + n <= usize::MAX,
        ensures
            final(self).bytes() == old(self).bytes(),
            final(self).consumed() == old(self).consumed() + n,
            val as nat == read_value(old(self).bytes(), old(self).consumed() as int, n as nat)
                % 0x1_0000_0000,
    {
        let ghost p0 = self.bit_ptr as int;
        let mut val = 0u32;
        let mut i: usize = 0;
        while i < n
            invariant
                i <= n,
                self.data@ == old(self).bytes(),
                self.bit_ptr == p0 + i,
                p0 == old(self).consumed(),
                p0 + n <= usize::MAX,
                val as nat == read_value(self.data@, p0, i as nat) % 0x1_0000_0000,
            decreases n - i,
        {
            let byte_idx = self.bit_ptr / 8;
            let bit_idx = (7 - (self.bit_ptr % 8)) as u8;
            if byte_idx < self.data.len() {
                let bit = ((self.data[byte_idx] >> bit_idx) & 1) as u32;
                proof {
                    lemma_byte_bit_range(self.data@[byte_idx as int], bit_idx as int);
                    assert(bit == bit_at(self.data@, p0 + i));
                    lemma_shift_in_bit(val, bit);
                    lemma_mod_shift_in(read_value(self.data@, p0, i as nat), bit as nat);
                }
                val = (val << 1) | bit;
            }
            self.bit_ptr += 1;
            i += 1;
        }
        val
    }
}

/// Accumulates MSB-first bits into bytes; the last byte is padded with zero bits.
pub struct BitWriter {
    pub data: Vec<u8>,
    bit_ptr: usize,
}

impl BitWriter {
    /// The bytes held so far.
    pub closed spec fn bytes(&self) -> Seq<u8> {
        self.data@
    }

    /// The bits written so far.
    pub closed spec fn written(&self) -> Seq<u8> {
        Seq::new(self.bit_ptr as nat, |i: int| bit_at(self.data@, i))
    }

    /// `data` holds exactly the bits written, padded with zero bits.
    pub closed spec fn wf(&self) -> bool {
        &&& self.data@.len() == (self.bit_ptr + 7) / 8
        &&& forall|i: int|
            self.bit_ptr <= i < self.data@.len() * 8 ==> #[trigger] bit_at(self.data@, i) == 0
    }

    /// An empty writer.
    pub fn new() -> (w: Self)
        ensures
            w.wf(),
            w.written() == Seq::<u8>::empty(),
    {
        let w = Self { data: Vec::new(), bit_ptr: 0 };
        assert(w.written() =~= Seq::<u8>::empty());
        w
    }

    /// Appends the low `n` bits of `val`, most significant first.
    pub fn write_bits(&mut self, val: u32, n: usize)
        requires
            old(self).wf(),
            n <= 32,
            old(self).written().len() + n <= usize::MAX,
        ensures
            final(self).wf(),
            final(self).written() == old(self).written() + bits_msb(val, n as nat),
    {
        let ghost w0 = self.written();
        let mut i: usize = 0;
        while i < n
            invariant
                i <= n <= 32,
                self.wf(),
                w0 == old(self).written(),
                w0.len() + n <= usize::MAX,
                self.bit_ptr == w0.len() + i,
                self.written() =~= w0 + bits_msb(val, n as nat).take(i as int),
            decreases n - i,
        {
            let ghost before = self.data@;
            let ghost old_ptr = self.bit_ptr as int;
            let ghost old_written = self.written();
            let bit_idx = (7 - (self.bit_ptr % 8)) as u8;
            let byte_idx = self.bit_ptr / 8;
            if byte_idx >= self.data.len() {
                self.data.push(0);
            }
            let ghost mid = self.data@;
            proof {
                assert forall|j: int| self.bit_ptr <= j < mid.len() * 8 implies #[trigger] bit_at(
                    mid,
                    j,
                ) == 0 by {
                    if j / 8 < before.len() {
                        assert(bit_at(before, j) == 0);
                        assert(mid[j / 8] == before[j / 8]);
                    } else {
                        assert(mid[j / 8] == 0);
                        lemma_byte_bit_zero(7 - j % 8);
                    }
                }
            }
            let bit = (val >> ((n - 1 - i) as u32)) & 1;
            proof {
                let sh = (n - 1 - i) as u32;
                assert((val >> sh) & 1u32 <= 1u32) by (bit_vector);
            }
            if bit == 1 {
                let old_byte = self.data[byte_idx];
                self.data.set(byte_idx, old_byte | (1u8 << bit_idx));
                proof {
                    assert forall|k: int| 0 <= k < 8 implies #[trigger] byte_bit(
                        self.data@[byte_idx as int],
                        k,
                    ) == if k == bit_idx {
                        1u8
                    } else {
                        byte_bit(old_byte, k)
                    } by {
                        lemma_byte_bit_set(old_byte, bit_idx as int, k);
                    }
                }
            }
            proof {
                assert(bits_msb(val, n as nat)[i as int] == bit as u8);
                assert forall|j: int| 0 <= j < mid.len() * 8 implies #[trigger] bit_at(
                    self.data@,
                    j,
                ) == if j == self.bit_ptr {
                    bit as u8
                } else {
                    bit_at(mid, j)
                } by {
                    if j / 8 != byte_idx as int {
                        assert(self.data@[j / 8] == mid[j / 8]);
                    } else {
                        assert(bit_at(mid, self.bit_ptr as int) == 0);
                        if bit != 1 {
                            assert(self.data@ == mid);
                        } else {
                            let k = 7 - j % 8;
                            assert(byte_bit(self.data@[byte_idx as int], k) == if k == bit_idx {
                                1u8
                            } else {
                                byte_bit(mid[byte_idx as int], k)
                            });
                            assert((k == bit_idx) == (j == self.bit_ptr));
                        }
                    }
                }
            }
            self.bit_ptr += 1;
            i += 1;
            proof {
                assert forall|j: int|
                    self.bit_ptr <= j < self.data@.len() * 8 implies #[trigger] bit_at(
                    self.data@,
                    j,
                ) == 0 by {
                    assert(bit_at(mid, j) == 0);
                    assert(j != self.bit_ptr - 1);
                }
                assert forall|k: int| 0 <= k < old_ptr implies #[trigger] bit_at(self.data@, k)
                    == bit_at(before, k) by {
                    assert(k < mid.len() * 8);
                    assert(mid[k / 8] == before[k / 8]);
                    assert(bit_at(self.data@, k) == bit_at(mid, k));
                }
                assert(self.written() =~= old_written.push(bit as u8));
                assert(bits_msb(val, n as nat).take(i as int) =~= bits_msb(val, n as nat).take(
                    i - 1,
                ).push(bit as u8));
            }
        }
        assert(bits_msb(val, n as nat).take(n as int) =~= bits_msb(val, n as nat));
    }

    /// The bytes written so far.
    pub fn flush(&self) -> (d: &[u8])
        requires
            self.wf(),
        ensures
            d@ == self.bytes(),
            packs(d@, self.written()),
    {
        self.data.as_slice()
    }

    /// The number of bits written so far.
    pub fn bits_written(&self) -> (r: usize)
        ensures
            r == self.written().len(),
    {
        self.bit_ptr
    }
}

} // verus!

verus! {

pub(crate) proof fn lemma_bit_at_range(data: Seq<u8>, i: int)
    ensures
        bit_at(data, i) <= 1,
{
    if 0 <= i && i / 8 < data.len() {
        lemma_byte_bit_range(data[i / 8], 7 - i % 8);
    }
}

/// `n` bits read as a number stay below 2^n.
pub proof fn lemma_bits_value_bound(data: Seq<u8>, p: int, n: nat)
    ensures
        bits_value(data, p, n) < pow2(n),
    decreases n,
{
    lemma2_to64();
    if n > 0 {
        lemma_bits_value_bound(data, p, (n - 1) as nat);
        lemma_bit_at_range(data, p + n - 1);
        lemma_pow2_unfold(n);
    }
}

/// The bits that the writes `(val, n)` of `writes`, made in order, append.
pub open spec fn bits_of_writes(writes: Seq<(u32, nat)>) -> Seq<u8>
    decreases writes.len(),
{
    if writes.len() == 0 {
        Seq::empty()
    } else {
        bits_of_writes(writes.drop_last()) + bits_msb(writes.last().0, writes.last().1)
    }
}

/// The sum of the bit counts of `writes`.
pub open spec fn total_bits(writes: Seq<(u32, nat)>) -> nat
    decreases writes.len(),
{
    if writes.len() == 0 {
        0
    } else {
        total_bits(writes.drop_last()) + writes.last().1
    }
}

/// A writer that holds the bits of a run of writes has written as many bits as
/// the writes sum to, and holds that many bits rounded up to whole bytes.
pub proof fn lemma_writer_counts(w: BitWriter, writes: Seq<(u32, nat)>)
    requires
        w.wf(),
        w.written() == bits_of_writes(writes),
    ensures
        w.written().len() == total_bits(writes),
        w.bytes().len() == (total_bits(writes) + 7) / 8,
{
    lemma_bits_of_writes_len(writes);
}

/// One more write appends its bits to those of the earlier writes.
pub proof fn lemma_bits_of_writes_push(writes: Seq<(u32, nat)>, val: u32, n: nat)
    ensures
        bits_of_writes(writes.push((val, n))) == bits_of_writes(writes) + bits_msb(val, n),
{
    assert(writes.push((val, n)).drop_last() =~= writes);
}

proof fn lemma_bits_of_writes_len(writes: Seq<(u32, nat)>)
    ensures
        bits_of_writes(writes).len() == total_bits(writes),
    decreases writes.len(),
{
    if writes.len() > 0 {
        lemma_bits_of_writes_len(writes.drop_last());
    }
}

/// What `read_bits` builds from `n` bits stays below 2^n.
pub proof fn lemma_read_value_bound(data: Seq<u8>, p: int, n: nat)
    ensures
        read_value(data, p, n) < pow2(n),
    decreases n,
{
    lemma2_to64();
    if n > 0 {
        lemma_read_value_bound(data, p, (n - 1) as nat);
        lemma_bit_at_range(data, p + n - 1);
        lemma_pow2_unfold(n);
    }
}

/// Where all `n` bits lie inside `data`, `read_bits` reads them all: its value
/// is the big-endian number of those bits.
pub proof fn lemma_read_value_in_range(data: Seq<u8>, p: int, n: nat)
    requires
        0 <= p,
        p + n <= data.len() * 8,
    ensures
        read_value(data, p, n) == bits_value(data, p, n),
    decreases n,
{
    if n > 0 {
        lemma_read_value_in_range(data, p, (n - 1) as nat);
        assert((p + n - 1) / 8 < data.len());
    }
}

/// Two reads in a row, of `a` and then `b` bits, give the digits of one read of
/// `a + b` bits, as long as the bits read lie inside `data`.
pub proof fn lemma_read_value_concat(data: Seq<u8>, p: int, a: nat, b: nat)
    requires
        0 <= p,
        p + a + b <= data.len() * 8,
    ensures
        read_value(data, p, a + b) == read_value(data, p, a) * pow2(b) + read_value(
            data,
            p + a,
            b,
        ),
    decreases b,
{
    lemma2_to64();
    let x = read_value(data, p, a) as int;
    if b == 0 {
        assert(x * 1 == x);
    } else {
        let b1 = (b - 1) as nat;
        lemma_read_value_concat(data, p, a, b1);
        let i = p + a + b - 1;
        assert(i / 8 < data.len());
        assert(((a + b) - 1) as nat == a + b1);
        assert(read_value(data, p, a + b) == 2 * read_value(data, p, a + b1) + bit_at(data, i));
        assert(read_value(data, p + a, b) == 2 * read_value(data, p + a, b1) + bit_at(data, i));
        lemma_pow2_unfold(b);
        let y = pow2(b1) as int;
        assert(2 * (x * y) == x * (2 * y)) by (nonlinear_arith);
    }
}

/// One variable-length code: `symbol` is sent as the `len`-bit pattern `code`.
pub struct VlcEntry {
    pub symbol: i16,
    pub len: u8,
    pub code: u32,
}

/// A table of variable-length codes, searched in order.
pub struct VlcTable {
    pub entries: Vec<VlcEntry>,
}

/// `i` is the first entry for `symbol`.
pub open spec fn is_first_for_symbol(entries: Seq<VlcEntry>, symbol: i16, i: int) -> bool {
    &&& 0 <= i < entries.len()
    &&& entries[i].symbol == symbol
    &&& forall|k: int| 0 <= k < i ==> #[trigger] entries[k].symbol != symbol
}

/// Some entry is for `symbol`.
pub open spec fn has_symbol(entries: Seq<VlcEntry>, symbol: i16) -> bool {
    exists|i: int| 0 <= i < entries.len() && #[trigger] entries[i].symbol == symbol
}

/// The first entry for `symbol` (meaningful when there is one).
pub open spec fn first_for_symbol(entries: Seq<VlcEntry>, symbol: i16) -> int {
    choose|i: int| is_first_for_symbol(entries, symbol, i)
}

/// Entry `e` sends the `l`-bit pattern `code`.
pub open spec fn code_matches(e: VlcEntry, l: nat, code: nat) -> bool {
    e.len == l && e.code == code
}

/// `i` is the first entry that sends the `l`-bit pattern `code`.
pub open spec fn is_first_code_match(entries: Seq<VlcEntry>, l: nat, code: nat, i: int) -> bool {
    &&& 0 <= i < entries.len()
    &&& code_matches(entries[i], l, code)
    &&& forall|k: int| 0 <= k < i ==> !code_matches(#[trigger] entries[k], l, code)
}

/// Decoding at bit position `p`, trying code lengths from `l` up to 16: the
/// symbol of the first entry that matches the shortest matching prefix, and the
/// number of bits it takes.
pub open spec fn vlc_decode_from(entries: Seq<VlcEntry>, data: Seq<u8>, p: int, l: nat) -> Option<
    (i16, nat),
>
    decreases 17 - l,
{
    if l > 16 {
        None
    } else if exists|i: int| is_first_code_match(entries, l, read_value(data, p, l), i) {
        let i = choose|i: int| is_first_code_match(entries, l, read_value(data, p, l), i);
        Some((entries[i].symbol, l))
    } else {
        vlc_decode_from(entries, data, p, l + 1)
    }
}

/// How many bits from its start a decode reads before it stops: the length of
/// the code found, or all 16 when none matches.
pub open spec fn vlc_decode_reach(r: Option<(i16, nat)>) -> nat {
    match r {
        Some((_, l)) => l,
        None => 16,
    }
}

/// A decode that starts trying at length `l` finds a code of `l` to 16 bits.
pub proof fn lemma_vlc_decode_from_len(entries: Seq<VlcEntry>, data: Seq<u8>, p: int, l: nat)
    requires
        1 <= l,
    ensures
        match vlc_decode_from(entries, data, p, l) {
            Some((_, m)) => l <= m <= 16,
            None => true,
        },
    decreases 17 - l,
{
    if l <= 16 && !exists|i: int| is_first_code_match(entries, l, read_value(data, p, l), i) {
        lemma_vlc_decode_from_len(entries, data, p, l + 1);
    }
}

/// The running state of canonical code assignment after the first `i`
/// lengths: the next code and the last nonzero length.
pub open spec fn canonical_state(lens: Seq<u8>, i: nat) -> (u32, u8)
    decreases i,
{
    if i == 0 || i > lens.len() {
        (0, 0)
    } else {
        let (code, last) = canonical_state(lens, (i - 1) as nat);
        let len = lens[i - 1];
        if len > 0 {
            ((canonical_shift(code, last, len) + 1) as u32, len)
        } else {
            (code, last)
        }
    }
}

/// The next code widened from `last` to `len` bits.
pub open spec fn canonical_shift(code: u32, last: u8, len: u8) -> u32 {
    code << ((len - last) as u8)
}

/// The code that canonical assignment gives length `lens[i]`.
pub open spec fn canonical_code(lens: Seq<u8>, i: int) -> u32 {
    if lens[i] > 0 {
        let (code, last) = canonical_state(lens, i as nat);
        canonical_shift(code, last, lens[i])
    } else {
        0
    }
}

/// Canonical assignment runs without error: nonzero lengths never decrease,
/// grow by less than 32 bits at a step, and the codes never reach `u32::MAX`.
pub open spec fn canonical_ok(lens: Seq<u8>) -> bool {
    forall|i: int|
        0 <= i < lens.len() && lens[i] > 0 ==> {
            let (code, last) = #[trigger] canonical_state(lens, i as nat);
            &&& last <= lens[i]
            &&& lens[i] - last < 32
            &&& canonical_shift(code, last, lens[i]) < u32::MAX
        }
}

/// The lengths of `raw`.
pub open spec fn raw_lens(raw: Seq<(i16, u8)>) -> Seq<u8> {
    raw.map_values(|x: (i16, u8)| x.1)
}

/// Every code has 1 to 16 bits, fits in its length, and no code is a prefix of
/// (or equal to) another.
pub open spec fn prefix_free(entries: Seq<VlcEntry>) -> bool {
    &&& forall|i: int|
        0 <= i < entries.len() ==> 1 <= #[trigger] entries[i].len <= 16 && entries[i].code < pow2(
            entries[i].len as nat,
        )
    &&& forall|i: int, j: int|
        0 <= i < entries.len() && 0 <= j < entries.len() && i != j && entries[j].len
            <= entries[i].len ==> (#[trigger] entries[i].code as nat) / pow2(
            (entries[i].len - entries[j].len) as nat,
        ) != #[trigger] entries[j].code as nat
}

impl VlcTable {
    /// Assigns canonical codes to `(symbol, length)` pairs given in order of
    /// nondecreasing length; entries of length 0 get no code.
    pub fn new(raw_tabs: &[(i16, u8)]) -> (t: Self)
        requires
            canonical_ok(raw_lens(raw_tabs@)),
        ensures
            t.entries@.len() == raw_tabs@.len(),
            forall|i: int|
                0 <= i < raw_tabs@.len() ==> (#[trigger] t.entries@[i]).symbol == raw_tabs@[i].0
                    && t.entries@[i].len == raw_tabs@[i].1 && t.entries@[i].code == canonical_code(
                    raw_lens(raw_tabs@),
                    i,
                ),
    {
        let ghost lens = raw_lens(raw_tabs@);
        let mut entries: Vec<VlcEntry> = Vec::new();
        let mut current_code = 0u32;
        let mut last_len = 0u8;
        let mut i: usize = 0;
        while i < raw_tabs.len()
            invariant
                lens == raw_lens(raw_tabs@),
                canonical_ok(lens),
                i <= raw_tabs@.len(),
                entries@.len() == i,
                (current_code, last_len) == canonical_state(lens, i as nat),
                forall|k: int|
                    0 <= k < i ==> (#[trigger] entries@[k]).symbol == raw_tabs@[k].0
                        && entries@[k].len == raw_tabs@[k].1 && entries@[k].code == canonical_code(
                        lens,
                        k,
                    ),
            decreases raw_tabs@.len() - i,
        {
            let (s, l) = raw_tabs[i];
            assert(lens[i as int] == l);
            let mut code = 0u32;
            if l > 0 {
                proof {
                    let ii: int = i as int;
                    assert(lens[ii] > 0);
                    let st = canonical_state(lens, ii as nat);
                    assert(st == (current_code, last_len));
                }
                current_code <<= l - last_len;
                code = current_code;
                current_code += 1;
                last_len = l;
            }
            entries.push(VlcEntry { symbol: s, len: l, code });
            i += 1;
        }
        Self { entries }
    }

    /// Builds a table from `(code, length)` pairs; the symbol of each entry is its index.
    pub fn from_codes(raw_tabs: &[(u32, u8)]) -> (t: Self)
        ensures
            t.entries@.len() == raw_tabs@.len(),
            forall|i: int|
                0 <= i < raw_tabs@.len() ==> (#[trigger] t.entries@[i]).symbol == i as i16
                    && t.entries@[i].len == raw_tabs@[i].1 && t.entries@[i].code == raw_tabs@[i].0,
    {
        let mut entries: Vec<VlcEntry> = Vec::new();
        let mut i: usize = 0;
        while i < raw_tabs.len()
            invariant
                i <= raw_tabs@.len(),
                entries@.len() == i,
                forall|k: int|
                    0 <= k < i ==> (#[trigger] entries@[k]).symbol == k as i16 && entries@[k].len
                        == raw_tabs@[k].1 && entries@[k].code == raw_tabs@[k].0,
            decreases raw_tabs@.len() - i,
        {
            let (code, len) = raw_tabs[i];
            entries.push(VlcEntry { symbol: i as i16, len, code });
            i += 1;
        }
        Self { entries }
    }

    /// Decodes one symbol at the reader's position; on failure the reader is
    /// left 16 bits further on.
    pub fn decode(&self, reader: &mut BitReader) -> (r: Option<i16>)
        requires
            old(reader).consumed() + vlc_decode_reach(
                vlc_decode_from(
                    self.entries@,
                    old(reader).bytes(),
                    old(reader).consumed() as int,
                    1,
                ),
            ) <= usize::MAX,
        ensures
            final(reader).bytes() == old(reader).bytes(),
            match vlc_decode_from(self.entries@, old(reader).bytes(), old(reader).consumed() as int, 1) {
                Some((sym, l)) => r == Some(sym) && final(reader).consumed() == old(reader).consumed() + l,
                None => r is None && final(reader).consumed() == old(reader).consumed() + 16,
            },
    {
        let ghost entries = self.entries@;
        let ghost data = reader.bytes();
        let start_bit = reader.bit_ptr;
        let mut bit_len: u8 = 1;
        while bit_len <= 16
            invariant
                1 <= bit_len <= 17,
                entries == self.entries@,
                reader.data@ == data,
                data == old(reader).bytes(),
                start_bit == old(reader).consumed(),
                start_bit + vlc_decode_reach(vlc_decode_from(entries, data, start_bit as int, 1))
                    <= usize::MAX,
                vlc_decode_from(entries, data, start_bit as int, 1) == vlc_decode_from(
                    entries,
                    data,
                    start_bit as int,
                    bit_len as nat,
                ),
                bit_len > 1 ==> reader.bit_ptr == start_bit + bit_len - 1,
            decreases 17 - bit_len,
        {
            proof {
                lemma_vlc_decode_from_len(entries, data, start_bit as int, bit_len as nat);
            }
            reader.bit_ptr = start_bit;
            let code = reader.read_bits(bit_len as usize);
            proof {
                lemma_read_value_bound(data, start_bit as int, bit_len as nat);
                lemma2_to64();
                vstd::arithmetic::power2::lemma_pow2_strictly_increases(bit_len as nat, 32);
            }
            let ghost want = read_value(data, start_bit as int, bit_len as nat);
            assert(code as nat == want);
            let mut idx: usize = 0;
            while idx < self.entries.len()
                invariant
                    entries == self.entries@,
                    idx <= entries.len(),
                    code as nat == want,
                    1 <= bit_len <= 16,
                    reader.data@ == data,
                    data == old(reader).bytes(),
                    start_bit == old(reader).consumed(),
                    reader.bit_ptr == start_bit + bit_len,
                    want == read_value(data, start_bit as int, bit_len as nat),
                    vlc_decode_from(entries, data, start_bit as int, 1) == vlc_decode_from(
                        entries,
                        data,
                        start_bit as int,
                        bit_len as nat,
                    ),
                    forall|k: int| 0 <= k < idx ==> !code_matches(#[trigger] entries[k], bit_len as nat, want),
                decreases entries.len() - idx,
            {
                let entry = &self.entries[idx];
                if entry.len == bit_len && entry.code == code {
                    proof {
                        assert(is_first_code_match(entries, bit_len as nat, want, idx as int));
                        let j = choose|j: int| is_first_code_match(entries, bit_len as nat, want, j);
                        if j < idx {
                            assert(!code_matches(entries[j], bit_len as nat, want));
                        }
                        if j > idx {
                            assert(!code_matches(entries[idx as int], bit_len as nat, want));
                        }
                    }
                    return Some(entry.symbol);
                }
                idx += 1;
            }
            assert(!exists|i: int| is_first_code_match(entries, bit_len as nat, want, i));
            bit_len += 1;
        }
        None
    }

    /// Writes the code of `symbol` (its first entry); false, writing nothing,
    /// when the table has no entry for it.
    pub fn encode(&self, symbol: i16, writer: &mut BitWriter) -> (r: bool)
        requires
            old(writer).wf(),
            has_symbol(self.entries@, symbol) ==> self.entries@[first_for_symbol(
                self.entries@,
                symbol,
            )].len <= 32 && old(writer).written().len() + self.entries@[first_for_symbol(
                self.entries@,
                symbol,
            )].len <= usize::MAX,
        ensures
            final(writer).wf(),
            r == has_symbol(self.entries@, symbol),
            r ==> final(writer).written() == old(writer).written() + bits_msb(
                self.entries@[first_for_symbol(self.entries@, symbol)].code,
                self.entries@[first_for_symbol(self.entries@, symbol)].len as nat,
            ),
            !r ==> final(writer).written() == old(writer).written(),
    {
        let ghost entries = self.entries@;
        let mut idx: usize = 0;
        while idx < self.entries.len()
            invariant
                entries == self.entries@,
                idx <= entries.len(),
                forall|k: int| 0 <= k < idx ==> #[trigger] entries[k].symbol != symbol,
                *writer == *old(writer),
                has_symbol(entries, symbol) ==> entries[first_for_symbol(entries, symbol)].len
                    <= 32 && writer.written().len() + entries[first_for_symbol(
                    entries,
                    symbol,
                )].len <= usize::MAX,
                writer.wf(),
                writer.written() == old(writer).written(),
            decreases entries.len() - idx,
        {
            let entry = &self.entries[idx];
            if entry.symbol == symbol {
                proof {
                    assert(is_first_for_symbol(entries, symbol, idx as int));
                    let j = first_for_symbol(entries, symbol);
                    if j < idx {
                        assert(entries[j].symbol != symbol);
                    }
                    if j > idx {
                        assert(entries[idx as int].symbol != symbol);
                    }
                }
                writer.write_bits(entry.code, entry.len as usize);
                return true;
            }
            idx += 1;
        }
        false
    }

    /// The code length of `symbol` (its first entry), if the table has one.
    pub fn bit_len(&self, symbol: i16) -> (r: Option<usize>)
        ensures
            match r {
                Some(l) => has_symbol(self.entries@, symbol) && l == self.entries@[first_for_symbol(
                    self.entries@,
                    symbol,
                )].len,
                None => !has_symbol(self.entries@, symbol),
            },
    {
        let ghost entries = self.entries@;
        let mut idx: usize = 0;
        while idx < self.entries.len()
            invariant
                entries == self.entries@,
                idx <= entries.len(),
                forall|k: int| 0 <= k < idx ==> #[trigger] entries[k].symbol != symbol,
            decreases entries.len() - idx,
        {
            if self.entries[idx].symbol == symbol {
                proof {
                    assert(is_first_for_symbol(entries, symbol, idx as int));
                    let j = first_for_symbol(entries, symbol);
                    if j < idx {
                        assert(entries[j].symbol != symbol);
                    }
                    if j > idx {
                        assert(entries[idx as int].symbol != symbol);
                    }
                }
                return Some(self.entries[idx].len as usize);
            }
            idx += 1;
        }
        None
    }
}

/// When some entry is for `symbol`, there is a first one.
pub proof fn lemma_first_for_symbol(entries: Seq<VlcEntry>, symbol: i16)
    requires
        has_symbol(entries, symbol),
    ensures
        is_first_for_symbol(entries, symbol, first_for_symbol(entries, symbol)),
{
    let k = choose|k: int| 0 <= k < entries.len() && #[trigger] entries[k].symbol == symbol;
    lemma_first_below(entries, symbol, k);
}

proof fn lemma_first_below(entries: Seq<VlcEntry>, symbol: i16, k: int)
    requires
        0 <= k < entries.len(),
        entries[k].symbol == symbol,
    ensures
        exists|i: int| is_first_for_symbol(entries, symbol, i),
    decreases k,
{
    if exists|j: int| 0 <= j < k && #[trigger] entries[j].symbol == symbol {
        let j = choose|j: int| 0 <= j < k && #[trigger] entries[j].symbol == symbol;
        lemma_first_below(entries, symbol, j);
    } else {
        assert(is_first_for_symbol(entries, symbol, k));
    }
}

/// The first `l` of the `len` bits of `code` read as a number: `code` without
/// its low `len - l` bits.
proof fn lemma_msb_prefix(data: Seq<u8>, p: int, code: u32, len: nat, l: nat)
    requires
        1 <= l <= len <= 16,
        (code as nat) < pow2(len),
        forall|j: int| 0 <= j < len ==> bit_at(data, p + j) == #[trigger] bits_msb(code, len)[j],
    ensures
        bits_value(data, p, l) == (code as nat) / pow2((len - l) as nat),
{
    let d = (len - l) as u32;
    let hi = code >> d;
    assert forall|j: int| 0 <= j < l implies bit_at(data, p + j) == #[trigger] bits_msb(hi, l)[j] by {
        assert(bits_msb(code, len)[j] == bit_at(data, p + j));
        let a = (l - 1 - j) as u32;
        assert((code >> (d + a)) == ((code >> d) >> a)) by (bit_vector)
            requires
                d + a < 32,
        ;
    }
    lemma_bits_value_msb(data, p, hi, l);
    vstd::bits::lemma_u32_shr_is_div(code, d);
    lemma_pow2_pos((len - l) as nat);
    lemma_pow2_pos(l);
    vstd::arithmetic::power2::lemma_pow2_adds((len - l) as nat, l);
    assert((code as nat) / pow2((len - l) as nat) < pow2(l)) by {
        vstd::arithmetic::div_mod::lemma_div_by_multiple_is_strongly_ordered(
            code as int,
            pow2(len) as int,
            pow2(l) as int,
            pow2((len - l) as nat) as int,
        );
        vstd::arithmetic::div_mod::lemma_div_by_multiple(
            pow2(l) as int,
            pow2((len - l) as nat) as int,
        );
    }
    vstd::arithmetic::div_mod::lemma_small_mod(
        ((code as nat) / pow2((len - l) as nat)) as nat,
        pow2(l),
    );
}

proof fn lemma_vlc_decode_reaches(
    entries: Seq<VlcEntry>,
    data: Seq<u8>,
    p: int,
    i: int,
    l: nat,
)
    requires
        prefix_free(entries),
        0 <= i < entries.len(),
        forall|k: int| 0 <= k < i ==> #[trigger] entries[k].symbol != entries[i].symbol,
        1 <= l <= entries[i].len,
        0 <= p,
        p + entries[i].len <= data.len() * 8,
        forall|j: int|
            0 <= j < entries[i].len ==> bit_at(data, p + j) == #[trigger] bits_msb(
                entries[i].code,
                entries[i].len as nat,
            )[j],
    ensures
        vlc_decode_from(entries, data, p, l) == Some((entries[i].symbol, entries[i].len as nat)),
    decreases entries[i].len - l,
{
    let e = entries[i];
    let len = e.len as nat;
    lemma_msb_prefix(data, p, e.code, len, l);
    lemma_read_value_in_range(data, p, l);
    let want = read_value(data, p, l);
    vstd::arithmetic::power2::lemma_pow2_pos(0);
    assert(pow2(0) == 1) by {
        lemma2_to64();
    }
    if l == len {
        assert((len - l) as nat == 0);
        assert((e.code as nat) / 1 == e.code as nat);
        assert(want == e.code);
        assert(is_first_code_match(entries, l, want, i)) by {
            assert forall|k: int| 0 <= k < i implies !code_matches(#[trigger] entries[k], l, want) by {
                if code_matches(entries[k], l, want) {
                    assert((entries[i].code as nat) / pow2((entries[i].len - entries[k].len) as nat)
                        != entries[k].code as nat);
                }
            }
        }
        let j = choose|j: int| is_first_code_match(entries, l, want, j);
        if j < i {
            assert(!code_matches(entries[j], l, want));
        }
        if j > i {
            assert(!code_matches(entries[i], l, want));
        }
    } else {
        assert forall|j: int| !is_first_code_match(entries, l, want, j) by {
            if is_first_code_match(entries, l, want, j) {
                assert(entries[j].len == l);
                assert(j != i);
                assert((entries[i].code as nat) / pow2((entries[i].len - entries[j].len) as nat)
                    != entries[j].code as nat);
            }
        }
        lemma_vlc_decode_reaches(entries, data, p, i, l + 1);
    }
}

/// In a prefix-free table, decoding where `encode` wrote the code of `symbol`
/// gives `symbol` back and consumes exactly the bits of that code.
pub proof fn lemma_vlc_roundtrip(
    entries: Seq<VlcEntry>,
    data: Seq<u8>,
    bits: Seq<u8>,
    p: int,
    symbol: i16,
)
    requires
        prefix_free(entries),
        has_symbol(entries, symbol),
        packs(data, bits),
        0 <= p,
        p + entries[first_for_symbol(entries, symbol)].len <= bits.len(),
        bits.subrange(p, p + entries[first_for_symbol(entries, symbol)].len) == bits_msb(
            entries[first_for_symbol(entries, symbol)].code,
            entries[first_for_symbol(entries, symbol)].len as nat,
        ),
    ensures
        vlc_decode_from(entries, data, p, 1) == Some(
            (symbol, entries[first_for_symbol(entries, symbol)].len as nat),
        ),
{
    lemma_first_for_symbol(entries, symbol);
    let i = first_for_symbol(entries, symbol);
    let e = entries[i];
    assert forall|j: int| 0 <= j < e.len implies bit_at(data, p + j) == #[trigger] bits_msb(
        e.code,
        e.len as nat,
    )[j] by {
        assert(bits.subrange(p, p + e.len)[j] == bits[p + j]);
        assert(p + j < data.len() * 8);
    }
    assert(bits.len() <= data.len() * 8);
    lemma_vlc_decode_reaches(entries, data, p, i, 1);
}

/// Number of entries of ATRAC3 spectral code table `t`.
pub open spec fn huff_tab_size(t: int) -> nat {
    if t == 0 {
        9
    } else if t == 1 {
        5
    } else if t == 2 {
        7
    } else if t == 3 {
        9
    } else if t == 4 {
        15
    } else if t == 5 {
        31
    } else {
        63
    }
}

/// The `(code, length)` pairs of ATRAC3 spectral code table `t`; the symbol of
/// each code is its index.
pub open spec fn spec_huff_codes(t: int) -> Seq<(u32, u8)> {
    if t == 0 {
        seq![
            (0x0, 1), (0x4, 3), (0x5, 3), (0xC, 4), (0xD, 4), (0x1C, 5), (0x1D, 5), (0x1E, 5),
            (0x1F, 5),
        ]
    } else if t == 1 {
        seq![
            (0x0, 1), (0x4, 3), (0x5, 3), (0x6, 3), (0x7, 3),
        ]
    } else if t == 2 {
        seq![
            (0x0, 1), (0x4, 3), (0x5, 3), (0xC, 4), (0xD, 4), (0xE, 4), (0xF, 4),
        ]
    } else if t == 3 {
        seq![
            (0x0, 1), (0x4, 3), (0x5, 3), (0xC, 4), (0xD, 4), (0x1C, 5), (0x1D, 5), (0x1E, 5),
            (0x1F, 5),
        ]
    } else if t == 4 {
        seq![
            (0x0, 2), (0x2, 3), (0x3, 3), (0x8, 4), (0x9, 4), (0xA, 4), (0xB, 4), (0x1C, 5),
            (0x1D, 5), (0x3C, 6), (0x3D, 6), (0x3E, 6), (0x3F, 6), (0xC, 4), (0xD, 4),
        ]
    } else if t == 5 {
        seq![
            (0x0, 3), (0x2, 4), (0x3, 4), (0x4, 4), (0x5, 4), (0x6, 4), (0x7, 4), (0x14, 5),
            (0x15, 5), (0x16, 5), (0x17, 5), (0x18, 5), (0x19, 5), (0x34, 6), (0x35, 6), (0x36, 6),
            (0x37, 6), (0x38, 6), (0x39, 6), (0x3A, 6), (0x3B, 6), (0x78, 7), (0x79, 7), (0x7A, 7),
            (0x7B, 7), (0x7C, 7), (0x7D, 7), (0x7E, 7), (0x7F, 7), (0x8, 4), (0x9, 4),
        ]
    } else {
        seq![
            (0x0, 3), (0x8, 5), (0x9, 5), (0xA, 5), (0xB, 5), (0xC, 5), (0xD, 5), (0xE, 5),
            (0xF, 5), (0x10, 5), (0x11, 5), (0x24, 6), (0x25, 6), (0x26, 6), (0x27, 6), (0x28, 6),
            (0x29, 6), (0x2A, 6), (0x2B, 6), (0x2C, 6), (0x2D, 6), (0x2E, 6), (0x2F, 6), (0x30, 6),
            (0x31, 6), (0x32, 6), (0x33, 6), (0x68, 7), (0x69, 7), (0x6A, 7), (0x6B, 7), (0x6C, 7),
            (0x6D, 7), (0x6E, 7), (0x6F, 7), (0x70, 7), (0x71, 7), (0x72, 7), (0x73, 7), (0x74, 7),
            (0x75, 7), (0xEC, 8), (0xED, 8), (0xEE, 8), (0xEF, 8), (0xF0, 8), (0xF1, 8), (0xF2, 8),
            (0xF3, 8), (0xF4, 8), (0xF5, 8), (0xF6, 8), (0xF7, 8), (0xF8, 8), (0xF9, 8), (0xFA, 8),
            (0xFB, 8), (0xFC, 8), (0xFD, 8), (0xFE, 8), (0xFF, 8), (0x2, 4), (0x3, 4),
        ]
    }
}

/// Every code of the spectral tables has 1 to 8 bits.
pub proof fn lemma_spectral_code_lens(t: int, i: int)
    requires
        0 <= t < 7,
        0 <= i < huff_tab_size(t),
    ensures
        1 <= spec_huff_codes(t)[i].1 <= 8,
{
    let s = spec_huff_codes(t);
    assert(s[i].1 >= 1 && s[i].1 <= 8);
}

/// The 8-bit window `x` begins with the `len`-bit pattern `code` (1 <= len <= 8).
spec fn window_has_code(x: int, code: int, len: int) -> bool {
    if len == 1 {
        x / 128 == code
    } else if len == 2 {
        x / 64 == code
    } else if len == 3 {
        x / 32 == code
    } else if len == 4 {
        x / 16 == code
    } else if len == 5 {
        x / 8 == code
    } else if len == 6 {
        x / 4 == code
    } else if len == 7 {
        x / 2 == code
    } else if len == 8 {
        x == code
    } else {
        false
    }
}

/// `code` fits in `len` bits (1 <= len <= 8).
spec fn code_fits(code: int, len: int) -> bool {
    if len == 1 {
        code < 2
    } else if len == 2 {
        code < 4
    } else if len == 3 {
        code < 8
    } else if len == 4 {
        code < 16
    } else if len == 5 {
        code < 32
    } else if len == 6 {
        code < 64
    } else if len == 7 {
        code < 128
    } else if len == 8 {
        code < 256
    } else {
        false
    }
}

proof fn lemma_window_has_code(x: int, code: int, len: int)
    requires
        1 <= len <= 8,
    ensures
        window_has_code(x, code, len) == (x / pow2((8 - len) as nat) as int == code),
        code_fits(code, len) == (code < pow2(len as nat)),
{
    lemma2_to64();
    let k = (8 - len) as nat;
    let d = pow2(k) as int;
    assert(d == if len == 1 {
        128int
    } else if len == 2 {
        64
    } else if len == 3 {
        32
    } else if len == 4 {
        16
    } else if len == 5 {
        8
    } else if len == 6 {
        4
    } else if len == 7 {
        2
    } else {
        1
    });
    assert(window_has_code(x, code, len) == (x / d == code));
}

/// The entry of spectral table `t` whose code begins the 8-bit window `x`.
spec fn spectral_owner(t: int, x: int) -> int {
    if t == 0 || t == 3 {
        if x < 128 {
            0
        } else if x < 192 {
            (x - 128) / 32 + 1
        } else if x < 224 {
            (x - 192) / 16 + 3
        } else {
            (x - 224) / 8 + 5
        }
    } else if t == 1 {
        if x < 128 {
            0
        } else {
            (x - 128) / 32 + 1
        }
    } else if t == 2 {
        if x < 128 {
            0
        } else if x < 192 {
            (x - 128) / 32 + 1
        } else {
            (x - 192) / 16 + 3
        }
    } else if t == 4 {
        if x < 64 {
            0
        } else if x < 128 {
            (x - 64) / 32 + 1
        } else if x < 192 {
            (x - 128) / 16 + 3
        } else if x < 224 {
            (x - 192) / 16 + 13
        } else if x < 240 {
            (x - 224) / 8 + 7
        } else {
            (x - 240) / 4 + 9
        }
    } else if t == 5 {
        if x < 32 {
            0
        } else if x < 128 {
            (x - 32) / 16 + 1
        } else if x < 160 {
            (x - 128) / 16 + 29
        } else if x < 208 {
            (x - 160) / 8 + 7
        } else if x < 240 {
            (x - 208) / 4 + 13
        } else {
            (x - 240) / 2 + 21
        }
    } else {
        if x < 32 {
            0
        } else if x < 64 {
            (x - 32) / 16 + 61
        } else if x < 144 {
            (x - 64) / 8 + 1
        } else if x < 208 {
            (x - 144) / 4 + 11
        } else if x < 236 {
            (x - 208) / 2 + 27
        } else {
            x - 195
        }
    }
}

/// The length of the code that begins the 8-bit window `x` in spectral table `t`.
spec fn spectral_owner_len(t: int, x: int) -> int {
    if t == 0 || t == 3 {
        if x < 128 {
            1
        } else if x < 192 {
            3
        } else if x < 224 {
            4
        } else {
            5
        }
    } else if t == 1 {
        if x < 128 {
            1
        } else {
            3
        }
    } else if t == 2 {
        if x < 128 {
            1
        } else if x < 192 {
            3
        } else {
            4
        }
    } else if t == 4 {
        if x < 64 {
            2
        } else if x < 128 {
            3
        } else if x < 224 {
            4
        } else if x < 240 {
            5
        } else {
            6
        }
    } else if t == 5 {
        if x < 32 {
            3
        } else if x < 160 {
            4
        } else if x < 208 {
            5
        } else if x < 240 {
            6
        } else {
            7
        }
    } else {
        if x < 32 {
            3
        } else if x < 64 {
            4
        } else if x < 144 {
            5
        } else if x < 208 {
            6
        } else if x < 236 {
            7
        } else {
            8
        }
    }
}

/// Every 8-bit window begins with the code of the entry `spectral_owner` names.
#[verifier::spinoff_prover]
#[verifier::rlimit(100)]
proof fn lemma_spectral_owner_covers(t: int, x: int)
    requires
        0 <= t < 7,
        0 <= x < 256,
    ensures
        0 <= spectral_owner(t, x) < huff_tab_size(t),
        spec_huff_codes(t)[spectral_owner(t, x)].1 == spectral_owner_len(t, x),
        window_has_code(
            x,
            spec_huff_codes(t)[spectral_owner(t, x)].0 as int,
            spec_huff_codes(t)[spectral_owner(t, x)].1 as int,
        ),
{
    let c = spec_huff_codes(t);
    let k = spectral_owner(t, x);
    assert(0 <= k < huff_tab_size(t));
    assert(c[k].1 == spectral_owner_len(t, x));
    assert(window_has_code(x, c[k].0 as int, c[k].1 as int));
}

/// Going up through the 8-bit windows, the entries that begin them come in the
/// order of code length, then of symbol.
proof fn lemma_spectral_owner_ordered(t: int, x: int, y: int)
    requires
        0 <= t < 7,
        0 <= x <= y < 256,
    ensures
        spectral_owner_len(t, x) * 64 + spectral_owner(t, x) <= spectral_owner_len(t, y) * 64
            + spectral_owner(t, y),
{
}

/// Each code of spectral table `t` fits in its length, and the windows it
/// begins belong to its own entry.
#[verifier::rlimit(100)]
proof fn lemma_spectral_owner(t: int, i: int, x: int)
    requires
        0 <= t < 7,
        0 <= i < huff_tab_size(t),
    ensures
        code_fits(spec_huff_codes(t)[i].0 as int, spec_huff_codes(t)[i].1 as int),
        0 <= x < 256 && window_has_code(
            x,
            spec_huff_codes(t)[i].0 as int,
            spec_huff_codes(t)[i].1 as int,
        ) ==> spectral_owner(t, x) == i,
{
    let c = spec_huff_codes(t);
    assert(code_fits(c[i].0 as int, c[i].1 as int));
}

/// Two codes of spectral table `t` where the `len_j`-bit code `j` is a prefix of
/// the `len_i`-bit code `i` begin a common 8-bit window, so they are one entry.
proof fn lemma_spectral_prefix_is_self(t: int, i: int, j: int)
    requires
        0 <= t < 7,
        0 <= i < huff_tab_size(t),
        0 <= j < huff_tab_size(t),
        spec_huff_codes(t)[j].1 <= spec_huff_codes(t)[i].1,
        (spec_huff_codes(t)[i].0 as nat) / pow2(
            (spec_huff_codes(t)[i].1 - spec_huff_codes(t)[j].1) as nat,
        ) == spec_huff_codes(t)[j].0 as nat,
    ensures
        i == j,
{
    let c = spec_huff_codes(t);
    lemma_spectral_code_lens(t, i);
    lemma_spectral_code_lens(t, j);
    let li = c[i].1 as int;
    let lj = c[j].1 as int;
    let ci = c[i].0 as int;
    let cj = c[j].0 as int;
    let ai = pow2((8 - li) as nat) as int;
    let dij = pow2((li - lj) as nat) as int;
    lemma_pow2_pos((8 - li) as nat);
    lemma_pow2_pos((li - lj) as nat);
    lemma_spectral_owner(t, i, 0);
    lemma_window_has_code(0, ci, li);
    let x = ai * ci;
    assert(0 <= x < 256) by {
        vstd::arithmetic::mul::lemma_mul_strict_inequality(ci, pow2(li as nat) as int, ai);
        vstd::arithmetic::power2::lemma_pow2_adds(li as nat, (8 - li) as nat);
        lemma2_to64();
        vstd::arithmetic::mul::lemma_mul_nonnegative(ai, ci);
        assert(ci * ai == ai * ci) by (nonlinear_arith);
    }
    vstd::arithmetic::div_mod::lemma_div_multiples_vanish(ci, ai);
    lemma_window_has_code(x, ci, li);
    lemma_spectral_owner(t, i, x);
    vstd::arithmetic::power2::lemma_pow2_adds((8 - li) as nat, (li - lj) as nat);
    assert(((8 - li) as nat + (li - lj) as nat) == (8 - lj) as nat);
    vstd::arithmetic::div_mod::lemma_div_denominator(x, ai, dij);
    assert(x / (pow2((8 - lj) as nat) as int) == cj);
    lemma_window_has_code(x, cj, lj);
    lemma_spectral_owner(t, j, x);
}

/// Each of the seven spectral code tables is prefix free: every code has 1 to
/// 16 bits and fits in them, and no code is a prefix of another.
pub proof fn lemma_spectral_prefix_free(tables: Seq<VlcTable>, t: int)
    requires
        is_spectral_vlc(tables),
        0 <= t < 7,
    ensures
        prefix_free(tables[t].entries@),
{
    let e = tables[t].entries@;
    let c = spec_huff_codes(t);
    assert forall|i: int| 0 <= i < e.len() implies 1 <= #[trigger] e[i].len <= 16 && e[i].code
        < pow2(e[i].len as nat) by {
        assert(e[i] == tables[t].entries@[i]);
        lemma_spectral_code_lens(t, i);
        lemma_spectral_owner(t, i, 0);
        lemma_window_has_code(0, c[i].0 as int, c[i].1 as int);
    }
    assert forall|i: int, j: int|
        0 <= i < e.len() && 0 <= j < e.len() && i != j && e[j].len <= e[i].len implies (
        #[trigger] e[i].code as nat) / pow2((e[i].len - e[j].len) as nat)
        != #[trigger] e[j].code as nat by {
        assert(e[i] == tables[t].entries@[i]);
        assert(e[j] == tables[t].entries@[j]);
        if (e[i].code as nat) / pow2((e[i].len - e[j].len) as nat) == e[j].code as nat {
            lemma_spectral_prefix_is_self(t, i, j);
        }
    }
}

/// Entry `i` comes before entry `j` of spectral table `t` in canonical order: the
/// shorter code first, and by symbol between codes of one length.
proof fn lemma_spectral_canonical_pair(t: int, i: int, j: int)
    requires
        0 <= t < 7,
        0 <= i < huff_tab_size(t),
        0 <= j < huff_tab_size(t),
        spec_huff_codes(t)[i].1 < spec_huff_codes(t)[j].1 || (spec_huff_codes(t)[i].1
            == spec_huff_codes(t)[j].1 && i < j),
    ensures
        (spec_huff_codes(t)[i].0 as nat + 1) * pow2(
            (spec_huff_codes(t)[j].1 - spec_huff_codes(t)[i].1) as nat,
        ) <= spec_huff_codes(t)[j].0 as nat,
{
    let c = spec_huff_codes(t);
    lemma_spectral_code_lens(t, i);
    lemma_spectral_code_lens(t, j);
    let li = c[i].1 as int;
    let lj = c[j].1 as int;
    let ci = c[i].0 as int;
    let cj = c[j].0 as int;
    let di = pow2((8 - li) as nat) as int;
    let dj = pow2((8 - lj) as nat) as int;
    let dji = pow2((lj - li) as nat) as int;
    lemma_pow2_pos((8 - li) as nat);
    lemma_pow2_pos((8 - lj) as nat);
    lemma_pow2_pos((lj - li) as nat);
    lemma2_to64();
    lemma_spectral_owner(t, i, 0);
    lemma_spectral_owner(t, j, 0);
    lemma_window_has_code(0, ci, li);
    lemma_window_has_code(0, cj, lj);
    vstd::arithmetic::power2::lemma_pow2_adds(li as nat, (8 - li) as nat);
    vstd::arithmetic::power2::lemma_pow2_adds(lj as nat, (8 - lj) as nat);
    vstd::arithmetic::power2::lemma_pow2_adds((8 - lj) as nat, (lj - li) as nat);
    assert(((8 - lj) as nat + (lj - li) as nat) == (8 - li) as nat);
    assert(di == dj * dji);
    // The first window of entry j.
    let x = cj * dj;
    assert(0 <= x < 256) by {
        vstd::arithmetic::mul::lemma_mul_strict_inequality(cj, pow2(lj as nat) as int, dj);
        vstd::arithmetic::mul::lemma_mul_nonnegative(cj, dj);
    }
    vstd::arithmetic::div_mod::lemma_fundamental_div_mod_converse(x, dj, cj, 0);
    lemma_window_has_code(x, cj, lj);
    lemma_spectral_owner(t, j, x);
    lemma_spectral_owner_covers(t, x);
    // The last window of entry i.
    let y = ci * di + (di - 1);
    assert(0 <= y < 256) by {
        vstd::arithmetic::mul::lemma_mul_inequality(ci + 1, pow2(li as nat) as int, di);
        vstd::arithmetic::mul::lemma_mul_nonnegative(ci, di);
        assert((ci + 1) * di == ci * di + di) by (nonlinear_arith);
    }
    vstd::arithmetic::div_mod::lemma_fundamental_div_mod_converse(y, di, ci, di - 1);
    lemma_window_has_code(y, ci, li);
    lemma_spectral_owner(t, i, y);
    lemma_spectral_owner_covers(t, y);
    if x <= y {
        lemma_spectral_owner_ordered(t, x, y);
        assert(false);
    }
    assert((ci + 1) * di == ci * di + di) by (nonlinear_arith);
    assert((ci + 1) * dji * dj == (ci + 1) * (dj * dji)) by (nonlinear_arith);
    assert(cj * dj == x);
    vstd::arithmetic::mul::lemma_mul_inequality_converse((ci + 1) * dji, cj, dj);
}

/// The 8-bit string `x` begins with the code of some entry of `entries` (codes
/// of at most 8 bits).
pub open spec fn begins_with_some_code(entries: Seq<VlcEntry>, x: int) -> bool {
    exists|i: int|
        0 <= i < entries.len() && x / (pow2((8 - entries[i].len) as nat) as int)
            == #[trigger] entries[i].code
}

/// Each spectral table is the canonical code of its code lengths: taken in
/// order of length, and by symbol within one length, every code lies past the
/// one before it (`(code_i + 1) * 2^(len_j - len_i) <= code_j`), and the codes
/// leave no gap: every 8-bit string begins with some code. So the codes follow
/// from the lengths alone.
pub proof fn lemma_spectral_canonical(tables: Seq<VlcTable>, t: int)
    requires
        is_spectral_vlc(tables),
        0 <= t < 7,
    ensures
        forall|i: int, j: int|
            0 <= i < tables[t].entries@.len() && 0 <= j < tables[t].entries@.len() && (
            tables[t].entries@[i].len < tables[t].entries@[j].len || (tables[t].entries@[i].len
                == tables[t].entries@[j].len && i < j)) ==> (#[trigger] tables[t].entries@[i].code
                as nat + 1) * pow2((tables[t].entries@[j].len - tables[t].entries@[i].len) as nat)
                <= #[trigger] tables[t].entries@[j].code as nat,
        forall|x: int| 0 <= x < 256 ==> #[trigger] begins_with_some_code(tables[t].entries@, x),
{
    let e = tables[t].entries@;
    let c = spec_huff_codes(t);
    assert forall|i: int, j: int|
        0 <= i < e.len() && 0 <= j < e.len() && (e[i].len < e[j].len || (e[i].len == e[j].len
            && i < j)) implies (#[trigger] e[i].code as nat + 1) * pow2(
        (e[j].len - e[i].len) as nat,
    ) <= #[trigger] e[j].code as nat by {
        assert(e[i] == tables[t].entries@[i]);
        assert(e[j] == tables[t].entries@[j]);
        lemma_spectral_canonical_pair(t, i, j);
    }
    assert forall|x: int| 0 <= x < 256 implies #[trigger] begins_with_some_code(e, x) by {
        lemma_spectral_owner_covers(t, x);
        let k = spectral_owner(t, x);
        assert(e[k] == tables[t].entries@[k]);
        lemma_spectral_code_lens(t, k);
        lemma_window_has_code(x, c[k].0 as int, c[k].1 as int);
    }
}

/// In each spectral table, symbol `s` has its own entry, entry `s`; decoding
/// where `encode` wrote it gives `s` back and takes exactly the bits of its code.
pub proof fn lemma_spectral_roundtrip(
    tables: Seq<VlcTable>,
    t: int,
    s: int,
    data: Seq<u8>,
    bits: Seq<u8>,
    p: int,
)
    requires
        is_spectral_vlc(tables),
        0 <= t < 7,
        0 <= s < huff_tab_size(t),
        packs(data, bits),
        0 <= p,
        p + spec_huff_codes(t)[s].1 <= bits.len(),
        bits.subrange(p, p + spec_huff_codes(t)[s].1) == bits_msb(
            spec_huff_codes(t)[s].0,
            spec_huff_codes(t)[s].1 as nat,
        ),
    ensures
        has_symbol(tables[t].entries@, s as i16),
        first_for_symbol(tables[t].entries@, s as i16) == s,
        vlc_decode_from(tables[t].entries@, data, p, 1) == Some(
            (s as i16, spec_huff_codes(t)[s].1 as nat),
        ),
{
    let e = tables[t].entries@;
    let sym = s as i16;
    assert(e[s].symbol == sym);
    assert(has_symbol(e, sym));
    lemma_first_for_symbol(e, sym);
    let k = first_for_symbol(e, sym);
    if k < s {
        assert(e[k].symbol == k as i16);
    }
    if k > s {
        assert(e[s].symbol != sym);
    }
    lemma_spectral_prefix_free(tables, t);
    lemma_vlc_roundtrip(e, data, bits, p, sym);
}

/// The `(code, length)` pairs of ATRAC3 spectral code table `table`.
pub fn atrac3_huff_codes(table: usize) -> (codes: Vec<(u32, u8)>)
    requires
        table < 7,
    ensures
        codes@ == spec_huff_codes(table as int),
        codes@.len() == huff_tab_size(table as int),
{
    let codes: Vec<(u32, u8)> = if table == 0 {
        vec![
            (0x0, 1), (0x4, 3), (0x5, 3), (0xC, 4), (0xD, 4), (0x1C, 5), (0x1D, 5), (0x1E, 5),
            (0x1F, 5),
        ]
    } else if table == 1 {
        vec![
            (0x0, 1), (0x4, 3), (0x5, 3), (0x6, 3), (0x7, 3),
        ]
    } else if table == 2 {
        vec![
            (0x0, 1), (0x4, 3), (0x5, 3), (0xC, 4), (0xD, 4), (0xE, 4), (0xF, 4),
        ]
    } else if table == 3 {
        vec![
            (0x0, 1), (0x4, 3), (0x5, 3), (0xC, 4), (0xD, 4), (0x1C, 5), (0x1D, 5), (0x1E, 5),
            (0x1F, 5),
        ]
    } else if table == 4 {
        vec![
            (0x0, 2), (0x2, 3), (0x3, 3), (0x8, 4), (0x9, 4), (0xA, 4), (0xB, 4), (0x1C, 5),
            (0x1D, 5), (0x3C, 6), (0x3D, 6), (0x3E, 6), (0x3F, 6), (0xC, 4), (0xD, 4),
        ]
    } else if table == 5 {
        vec![
            (0x0, 3), (0x2, 4), (0x3, 4), (0x4, 4), (0x5, 4), (0x6, 4), (0x7, 4), (0x14, 5),
            (0x15, 5), (0x16, 5), (0x17, 5), (0x18, 5), (0x19, 5), (0x34, 6), (0x35, 6), (0x36, 6),
            (0x37, 6), (0x38, 6), (0x39, 6), (0x3A, 6), (0x3B, 6), (0x78, 7), (0x79, 7), (0x7A, 7),
            (0x7B, 7), (0x7C, 7), (0x7D, 7), (0x7E, 7), (0x7F, 7), (0x8, 4), (0x9, 4),
        ]
    } else {
        vec![
            (0x0, 3), (0x8, 5), (0x9, 5), (0xA, 5), (0xB, 5), (0xC, 5), (0xD, 5), (0xE, 5),
            (0xF, 5), (0x10, 5), (0x11, 5), (0x24, 6), (0x25, 6), (0x26, 6), (0x27, 6), (0x28, 6),
            (0x29, 6), (0x2A, 6), (0x2B, 6), (0x2C, 6), (0x2D, 6), (0x2E, 6), (0x2F, 6), (0x30, 6),
            (0x31, 6), (0x32, 6), (0x33, 6), (0x68, 7), (0x69, 7), (0x6A, 7), (0x6B, 7), (0x6C, 7),
            (0x6D, 7), (0x6E, 7), (0x6F, 7), (0x70, 7), (0x71, 7), (0x72, 7), (0x73, 7), (0x74, 7),
            (0x75, 7), (0xEC, 8), (0xED, 8), (0xEE, 8), (0xEF, 8), (0xF0, 8), (0xF1, 8), (0xF2, 8),
            (0xF3, 8), (0xF4, 8), (0xF5, 8), (0xF6, 8), (0xF7, 8), (0xF8, 8), (0xF9, 8), (0xFA, 8),
            (0xFB, 8), (0xFC, 8), (0xFD, 8), (0xFE, 8), (0xFF, 8), (0x2, 4), (0x3, 4),
        ]
    };
    proof {
        if table == 0 {
            assert(codes@ =~= spec_huff_codes(0));
        } else if table == 1 {
            assert(codes@ =~= spec_huff_codes(1));
        } else if table == 2 {
            assert(codes@ =~= spec_huff_codes(2));
        } else if table == 3 {
            assert(codes@ =~= spec_huff_codes(3));
        } else if table == 4 {
            assert(codes@ =~= spec_huff_codes(4));
        } else if table == 5 {
            assert(codes@ =~= spec_huff_codes(5));
        } else {
            assert(codes@ =~= spec_huff_codes(6));
        }
    }
    codes
}

/// `tables` are the seven ATRAC3 spectral code tables: entry `i` of table `t`
/// sends symbol `i` with the code and length of `spec_huff_codes(t)[i]`.
pub open spec fn is_spectral_vlc(tables: Seq<VlcTable>) -> bool {
    &&& tables.len() == 7
    &&& forall|t: int| 0 <= t < 7 ==> #[trigger] tables[t].entries@.len() == huff_tab_size(t)
    &&& forall|t: int, i: int|
        0 <= t < 7 && 0 <= i < huff_tab_size(t) ==> {
            &&& (#[trigger] tables[t].entries@[i]).symbol == i as i16
            &&& tables[t].entries@[i].code == spec_huff_codes(t)[i].0
            &&& tables[t].entries@[i].len == spec_huff_codes(t)[i].1
        }
}

/// The seven ATRAC3 spectral code tables.
pub fn spectral_vlc() -> (tables: Vec<VlcTable>)
    ensures
        is_spectral_vlc(tables@),
{
    let mut tables: Vec<VlcTable> = Vec::new();
    let mut t: usize = 0;
    while t < 7
        invariant
            t <= 7,
            tables@.len() == t,
            forall|u: int| 0 <= u < t ==> #[trigger] tables@[u].entries@.len() == huff_tab_size(u),
            forall|u: int, i: int|
                0 <= u < t && 0 <= i < huff_tab_size(u) ==> {
                    &&& (#[trigger] tables@[u].entries@[i]).symbol == i as i16
                    &&& tables@[u].entries@[i].code == spec_huff_codes(u)[i].0
                    &&& tables@[u].entries@[i].len == spec_huff_codes(u)[i].1
                },
        decreases 7 - t,
    {
        let codes = atrac3_huff_codes(t);
        tables.push(VlcTable::from_codes(codes.as_slice()));
        t += 1;
    }
    tables
}

} // verus!
