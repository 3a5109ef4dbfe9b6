//! 32-bit arithmetic range decoder reading bits MSB-first.
use vstd::prelude::*;
use vstd::arithmetic::power2::pow2;

verus! {

const MSB: u64 = 0x8000_0000;
const SMSB: u64 = 0x4000_0000;
const MASK: u64 = 0xFFFF_FFFF;

/// Byte `j` of the input, reading past the end as zero.
pub open spec fn stream_byte(data: Seq<u8>, j: int) -> u8 {
    if 0 <= j < data.len() {
        data[j]
    } else {
        0
    }
}

/// Bit `k` of the input, most significant bit of each byte first, reading
/// past the end as zero.
pub open spec fn stream_bit(data: Seq<u8>, k: int) -> u8 {
    (stream_byte(data, k / 8) >> ((7 - k % 8) as u8)) & 1u8
}

/// The number of input bytes fetched once `k` bits have been read.
pub open spec fn bytes_fetched(k: nat) -> nat {
    (k + 7) / 8
}

/// The value of the `n` bits of the input from bit `k` on, most significant first.
pub open spec fn stream_value(data: Seq<u8>, k: int, n: nat) -> int
    decreases n,
{
    if n == 0 {
        0
    } else {
        2 * stream_value(data, k, (n - 1) as nat) + stream_bit(data, k + n - 1)
    }
}

/// Reads the input one bit at a time, MSB first; past the end it reads zeros.
pub struct BitReader<'a> {
    data: &'a [u8],
    pos: usize,
    /// Bits remaining in the current byte (8..1), or 0 before a fetch.
    bit_pos: u8,
    current: u8,
    consumed: Ghost<nat>,
}

impl<'a> BitReader<'a> {
    /// The input.
    pub closed spec fn data(&self) -> Seq<u8> {
        self.data@
    }

    /// The number of bits read so far.
    pub closed spec fn consumed(&self) -> nat {
        self.consumed@
    }

    /// The reader's bookkeeping agrees with the number of bits read.
    pub closed spec fn wf(&self) -> bool {
        let n = (self.consumed@ + self.bit_pos) / 8;
        &&& self.bit_pos < 8
        &&& (self.consumed@ + self.bit_pos) % 8 == 0
        &&& self.pos == if n < self.data@.len() {
            n
        } else {
            self.data@.len() as int
        }
        &&& self.bit_pos > 0 ==> self.current == stream_byte(self.data@, n - 1)
    }

    /// Whether every input byte has been fetched.
    pub fn fetched_all(&self) -> (r: bool)
        requires
            self.wf(),
        ensures
            r == (bytes_fetched(self.consumed()) >= self.data().len()),
    {
        assert((self.consumed@ + self.bit_pos) / 8 == bytes_fetched(self.consumed@));
        self.pos == self.data.len()
    }

    /// A reader at the start of `data`.
    pub fn new(data: &'a [u8]) -> (r: Self)
        ensures
            r.wf(),
            r.data() == data@,
            r.consumed() == 0,
    {
        BitReader { data, pos: 0, bit_pos: 0, current: 0, consumed: Ghost(0) }
    }

    /// The next bit of the input; zero past its end.
    pub fn read_bit(&mut self) -> (b: u8)
        requires
            old(self).wf(),
        ensures
            final(self).wf(),
            final(self).data() == old(self).data(),
            final(self).consumed() == old(self).consumed() + 1,
            b == stream_bit(old(self).data(), old(self).consumed() as int),
            b <= 1,
    {
        if self.bit_pos == 0 {
            if self.pos < self.data.len() {
                self.current = self.data[self.pos];
                self.pos += 1;
            } else {
                self.current = 0;
            }
            self.bit_pos = 8;
        }
        let ghost k = self.consumed@;
        self.bit_pos -= 1;
        self.consumed = Ghost(self.consumed@ + 1);
        let ghost n = (k + self.bit_pos + 1) / 8;
        assert(k / 8 == n - 1 && 7 - k % 8 == self.bit_pos);
        let cur = self.current;
        let sh = self.bit_pos;
        assert(((cur >> sh) & 1u8) <= 1u8) by (bit_vector);
        (self.current >> self.bit_pos) & 1
    }
}

/// The abstract state of the range decoder: the input, the interval
/// `[low, up]`, the code value `tag`, and the number of input bits read.
pub struct CoderState {
    pub data: Seq<u8>,
    pub low: int,
    pub up: int,
    pub tag: int,
    pub bits: nat,
}

/// Renormalisation, first phase: while both ends of the interval lie in the
/// same half, shift that half out and a new input bit in.
pub open spec fn renorm_shift(s: CoderState) -> CoderState
    decreases 0x1_0000_0000 - (s.up - s.low),
{
    if 0 <= s.low <= s.up < 0x1_0000_0000 && s.low / 0x8000_0000 == s.up / 0x8000_0000 {
        renorm_shift(
            CoderState {
                data: s.data,
                low: (2 * s.low) % 0x1_0000_0000,
                up: (2 * s.up + 1) % 0x1_0000_0000,
                tag: (2 * s.tag + stream_bit(s.data, s.bits as int)) % 0x1_0000_0000,
                bits: s.bits + 1,
            },
        )
    } else {
        s
    }
}

/// Renormalisation, second phase: while the interval straddles the middle
/// within its second and third quarters, expand it about the middle.
pub open spec fn renorm_underflow(s: CoderState) -> CoderState
    decreases 0x1_0000_0000 - (s.up - s.low),
{
    if 0 <= s.low < 0x8000_0000 <= s.up < 0x1_0000_0000 && (s.low / 0x4000_0000) % 2 == 1 && (
    s.up / 0x4000_0000) % 2 == 0 {
        renorm_underflow(
            CoderState {
                data: s.data,
                low: 2 * (s.low - 0x4000_0000),
                up: 2 * (s.up - 0x4000_0000) + 1,
                tag: (2 * s.tag + stream_bit(s.data, s.bits as int) + 0x8000_0000)
                    % 0x1_0000_0000,
                bits: s.bits + 1,
            },
        )
    } else {
        s
    }
}

/// Full renormalisation.
pub open spec fn renorm(s: CoderState) -> CoderState {
    renorm_underflow(renorm_shift(s))
}

/// The state between two decodes: `low` in the lower half, `up` in the
/// upper half, not both in the middle quarters.
pub open spec fn coder_wf(s: CoderState) -> bool {
    &&& 0 <= s.low < 0x8000_0000 <= s.up < 0x1_0000_0000
    &&& !((s.low / 0x4000_0000) % 2 == 1 && (s.up / 0x4000_0000) % 2 == 0)
    &&& 0 <= s.tag < 0x1_0000_0000
}

/// The width of one step of a `total_bit`-bit scale over the interval (at least 1).
pub open spec fn step_width(s: CoderState, total_bit: nat) -> int {
    let t = (s.up - s.low + 1) / pow2(total_bit) as int;
    if t < 1 {
        1
    } else {
        t
    }
}

/// The code value's offset into the interval, modulo 2^64.
pub open spec fn tag_offset(s: CoderState) -> int {
    (s.tag - s.low) % 0x1_0000_0000_0000_0000
}

/// Decoding a binary symbol whose zero has `cum_count` of the `2^total_bit`
/// scale: the symbol, and the state after renormalisation.
pub open spec fn boolean_step(s: CoderState, cum_count: int, total_bit: nat) -> (u32, CoderState) {
    let t = step_width(s, total_bit);
    if tag_offset(s) / t >= cum_count {
        (1, renorm(CoderState { low: s.low + t * cum_count, ..s }))
    } else {
        (0, renorm(CoderState { up: s.low + t * cum_count - 1, ..s }))
    }
}

/// The symbol a uniform `total_bit`-bit decode yields (clamped to the scale).
pub open spec fn uniform_symbol(s: CoderState, total_bit: nat) -> int {
    let v = tag_offset(s) / step_width(s, total_bit);
    if v < pow2(total_bit) - 1 {
        v
    } else {
        pow2(total_bit) - 1
    }
}

/// Decoding a uniform `total_bit`-bit symbol: the symbol, and the state after
/// renormalisation.
pub open spec fn uniform_step(s: CoderState, total_bit: nat) -> (u32, CoderState) {
    let t = step_width(s, total_bit);
    let v = uniform_symbol(s, total_bit);
    (v as u32, renorm(CoderState { low: s.low + t * v, up: s.low + t * (v + 1) - 1, ..s }))
}

/// Arithmetic range decoder over a byte slice.
pub struct RangeDecoder<'a> {
    reader: BitReader<'a>,
    low: u64,
    up: u64,
    tag: u64,
}

proof fn lemma_shift_step(low: u64, up: u64, tag: u64, b: u64)
    requires
        low < 0x1_0000_0000,
        up < 0x1_0000_0000,
        tag < 0x1_0000_0000,
        b < 2,
    ensures
        ((low & MSB) == (up & MSB)) == (low / 0x8000_0000 == up / 0x8000_0000),
        ((tag << 1u64) & MASK) | b == (2 * tag + b) % 0x1_0000_0000,
        (low << 1u64) & MASK == (2 * low) % 0x1_0000_0000,
        ((up << 1u64) & MASK) | 1 == (2 * up + 1) % 0x1_0000_0000,
        ((low & SMSB) != 0) == ((low / 0x4000_0000) % 2 == 1),
        ((up & SMSB) == 0) == ((up / 0x4000_0000) % 2 == 0),
        (((tag << 1u64) | b) ^ MSB) & MASK == (2 * tag + b + 0x8000_0000) % 0x1_0000_0000,
{
    assert(((low & MSB) == (up & MSB)) == (low / 0x8000_0000 == up / 0x8000_0000))
        by (bit_vector)
        requires
            low < 0x1_0000_0000u64,
            up < 0x1_0000_0000u64,
    ;
    assert(((tag << 1u64) & MASK) | b == (2 * tag + b) % 0x1_0000_0000) by (bit_vector)
        requires
            tag < 0x1_0000_0000u64,
            b < 2u64,
    ;
    assert((low << 1u64) & MASK == (2 * low) % 0x1_0000_0000) by (bit_vector)
        requires
            low < 0x1_0000_0000u64,
    ;
    assert(((up << 1u64) & MASK) | 1 == (2 * up + 1) % 0x1_0000_0000) by (bit_vector)
        requires
            up < 0x1_0000_0000u64,
    ;
    assert(((low & SMSB) != 0) == ((low / 0x4000_0000) % 2 == 1)) by (bit_vector);
    assert(((up & SMSB) == 0) == ((up / 0x4000_0000) % 2 == 0)) by (bit_vector);
    assert((((tag << 1u64) | b) ^ MSB) & MASK == (2 * tag + b + 0x8000_0000) % 0x1_0000_0000)
        by (bit_vector)
        requires
            tag < 0x1_0000_0000u64,
            b < 2u64,
    ;
}

proof fn lemma_underflow_step(low: u64, up: u64)
    requires
        0x4000_0000 <= low < 0x8000_0000,
        0x8000_0000 <= up < 0xC000_0000,
    ensures
        (low << 1u64) & (MASK >> 1u64) == 2 * (low - 0x4000_0000),
        ((up << 1u64) | 1 | MSB) & MASK == 2 * (up - 0x4000_0000) + 1,
{
    assert((low << 1u64) & (MASK >> 1u64) == 2 * (low - 0x4000_0000)) by (bit_vector)
        requires
            0x4000_0000u64 <= low < 0x8000_0000u64,
    ;
    assert(((up << 1u64) | 1 | MSB) & MASK == 2 * (up - 0x4000_0000) + 1) by (bit_vector)
        requires
            0x8000_0000u64 <= up < 0xC000_0000u64,
    ;
}

/// The state after one step of the first renormalisation phase.
pub open spec fn shift_next(s: CoderState) -> CoderState {
    CoderState {
        data: s.data,
        low: (2 * s.low) % 0x1_0000_0000,
        up: (2 * s.up + 1) % 0x1_0000_0000,
        tag: (2 * s.tag + stream_bit(s.data, s.bits as int)) % 0x1_0000_0000,
        bits: s.bits + 1,
    }
}

proof fn lemma_shift_next(s: CoderState)
    requires
        0 <= s.low <= s.up < 0x1_0000_0000,
        s.low / 0x8000_0000 == s.up / 0x8000_0000,
    ensures
        renorm_shift(s) == renorm_shift(shift_next(s)),
        shift_next(s).up - shift_next(s).low == 2 * (s.up - s.low) + 1,
        0 <= shift_next(s).low <= shift_next(s).up < 0x1_0000_0000,
{
    let h = s.low / 0x8000_0000;
    assert(0 <= h <= 1);
    vstd::arithmetic::div_mod::lemma_fundamental_div_mod_converse(
        2 * s.low,
        0x1_0000_0000,
        h,
        2 * s.low - h * 0x1_0000_0000,
    );
    vstd::arithmetic::div_mod::lemma_fundamental_div_mod_converse(
        2 * s.up + 1,
        0x1_0000_0000,
        h,
        2 * s.up + 1 - h * 0x1_0000_0000,
    );
}

/// After the first phase the two ends lie in different halves.
proof fn lemma_renorm_shift(s: CoderState)
    requires
        0 <= s.low <= s.up < 0x1_0000_0000,
        0 <= s.tag < 0x1_0000_0000,
    ensures
        0 <= renorm_shift(s).low < 0x8000_0000 <= renorm_shift(s).up < 0x1_0000_0000,
        0 <= renorm_shift(s).tag < 0x1_0000_0000,
        renorm_shift(s).data == s.data,
        renorm_shift(s).bits >= s.bits,
    decreases 0x1_0000_0000 - (s.up - s.low),
{
    if s.low / 0x8000_0000 == s.up / 0x8000_0000 {
        lemma_shift_next(s);
        lemma_renorm_shift(shift_next(s));
    }
}

/// After the second phase the state is ready for the next decode.
proof fn lemma_renorm_underflow(s: CoderState)
    requires
        0 <= s.low < 0x8000_0000 <= s.up < 0x1_0000_0000,
        0 <= s.tag < 0x1_0000_0000,
    ensures
        coder_wf(renorm_underflow(s)),
        renorm_underflow(s).data == s.data,
        renorm_underflow(s).bits >= s.bits,
    decreases 0x1_0000_0000 - (s.up - s.low),
{
    if (s.low / 0x4000_0000) % 2 == 1 && (s.up / 0x4000_0000) % 2 == 0 {
        let n = CoderState {
            data: s.data,
            low: 2 * (s.low - 0x4000_0000),
            up: 2 * (s.up - 0x4000_0000) + 1,
            tag: (2 * s.tag + stream_bit(s.data, s.bits as int) + 0x8000_0000) % 0x1_0000_0000,
            bits: s.bits + 1,
        };
        lemma_renorm_underflow(n);
    }
}

/// Every input bit is 0 or 1.
pub proof fn lemma_stream_bit_is_bit(data: Seq<u8>, k: int)
    ensures
        stream_bit(data, k) <= 1,
{
    let byte = stream_byte(data, k / 8);
    let sh = (7 - k % 8) as u8;
    assert((byte >> sh) & 1u8 <= 1u8) by (bit_vector);
}

proof fn lemma_renorm_shift_tag(s: CoderState)
    requires
        0 <= s.low <= s.tag <= s.up < 0x1_0000_0000,
    ensures
        renorm_shift(s).low <= renorm_shift(s).tag <= renorm_shift(s).up,
    decreases 0x1_0000_0000 - (s.up - s.low),
{
    if s.low / 0x8000_0000 == s.up / 0x8000_0000 {
        lemma_shift_next(s);
        let h = s.low / 0x8000_0000;
        let b = stream_bit(s.data, s.bits as int);
        lemma_stream_bit_is_bit(s.data, s.bits as int);
        vstd::arithmetic::div_mod::lemma_fundamental_div_mod_converse(
            2 * s.tag + b,
            0x1_0000_0000,
            h,
            2 * s.tag + b - h * 0x1_0000_0000,
        );
        lemma_renorm_shift_tag(shift_next(s));
    }
}

proof fn lemma_renorm_underflow_tag(s: CoderState)
    requires
        0 <= s.low <= s.tag <= s.up < 0x1_0000_0000,
        s.low < 0x8000_0000 <= s.up,
    ensures
        renorm_underflow(s).low <= renorm_underflow(s).tag <= renorm_underflow(s).up,
    decreases 0x1_0000_0000 - (s.up - s.low),
{
    if (s.low / 0x4000_0000) % 2 == 1 && (s.up / 0x4000_0000) % 2 == 0 {
        let b = stream_bit(s.data, s.bits as int);
        lemma_stream_bit_is_bit(s.data, s.bits as int);
        let n = CoderState {
            data: s.data,
            low: 2 * (s.low - 0x4000_0000),
            up: 2 * (s.up - 0x4000_0000) + 1,
            tag: (2 * s.tag + b + 0x8000_0000) % 0x1_0000_0000,
            bits: s.bits + 1,
        };
        vstd::arithmetic::div_mod::lemma_fundamental_div_mod_converse(
            2 * s.tag + b + 0x8000_0000,
            0x1_0000_0000,
            1,
            2 * s.tag + b - 0x8000_0000,
        );
        lemma_renorm_underflow_tag(n);
    }
}

/// Law: renormalisation keeps the code value inside the interval.
pub proof fn lemma_renorm_keeps_tag(s: CoderState)
    requires
        0 <= s.low <= s.tag <= s.up < 0x1_0000_0000,
    ensures
        renorm(s).low <= renorm(s).tag <= renorm(s).up,
{
    lemma_renorm_shift_tag(s);
    lemma_renorm_shift(s);
    lemma_renorm_underflow_tag(renorm_shift(s));
}

/// Law: renormalising an interval inside the 32-bit range gives a state
/// ready for the next decode, over the same input.
pub proof fn lemma_renorm_wf(s: CoderState)
    requires
        0 <= s.low <= s.up < 0x1_0000_0000,
        0 <= s.tag < 0x1_0000_0000,
    ensures
        coder_wf(renorm(s)),
        renorm(s).data == s.data,
        renorm(s).bits >= s.bits,
{
    lemma_renorm_shift(s);
    lemma_renorm_underflow(renorm_shift(s));
}

/// Between decodes the interval is wider than a quarter of the range.
pub proof fn lemma_wf_width(s: CoderState)
    requires
        coder_wf(s),
    ensures
        s.up - s.low + 1 > 0x4000_0000,
{
}

proof fn lemma_step_width(s: CoderState, total_bit: nat)
    requires
        coder_wf(s),
        total_bit <= 32,
    ensures
        ({
            let w = s.up - s.low + 1;
            let t = w / pow2(total_bit) as int;
            &&& t >= 0
            &&& step_width(s, total_bit) == if t < 1 {
                1
            } else {
                t
            }
            &&& t * pow2(total_bit) <= w
            &&& total_bit <= 30 ==> t >= 1
            &&& t == 0 ==> total_bit >= 31
            &&& t <= 1 || total_bit <= 31
            &&& ((s.up - s.low + 1) as u64 >> (total_bit as u64)) == t
            &&& (s.tag as u64).wrapping_sub(s.low as u64) == tag_offset(s)
            &&& s.low <= s.tag ==> tag_offset(s) == s.tag - s.low
        }),
{
    let w = s.up - s.low + 1;
    let p = pow2(total_bit) as int;
    vstd::arithmetic::power2::lemma2_to64();
    vstd::arithmetic::power2::lemma_pow2_pos(total_bit);
    if total_bit < 30 {
        vstd::arithmetic::power2::lemma_pow2_strictly_increases(total_bit, 30);
    }
    vstd::arithmetic::div_mod::lemma_fundamental_div_mod(w, p);
    vstd::arithmetic::div_mod::lemma_div_pos_is_pos(w, p);
    if total_bit <= 30 {
        vstd::arithmetic::div_mod::lemma_div_is_ordered(p, w, p);
        vstd::arithmetic::div_mod::lemma_div_by_self(p);
    }
    if total_bit == 32 {
        vstd::arithmetic::div_mod::lemma_div_is_ordered(w, p, p);
        vstd::arithmetic::div_mod::lemma_div_by_self(p);
    }
    vstd::bits::lemma_u64_shr_is_div(w as u64, total_bit as u64);
    assert(p * (w / p) == (w / p) * p) by (nonlinear_arith);
    vstd::arithmetic::div_mod::lemma_mod_pos_bound(w, p);
}

/// Bounds of the uniform step, for overflow and for the interval.
proof fn lemma_uniform_bounds(s: CoderState, total_bit: nat)
    requires
        coder_wf(s),
        total_bit <= 32,
        total_bit == 32 ==> s.low <= s.tag,
    ensures
        ({
            let t = step_width(s, total_bit);
            let v = uniform_symbol(s, total_bit);
            &&& t >= 1
            &&& 0 <= v < pow2(total_bit)
            &&& 1 <= t * (v + 1)
            &&& t * v <= t * (v + 1) - 1
            &&& s.low + t * (v + 1) - 1 < 0x1_0000_0000
        }),
{
    lemma_step_width(s, total_bit);
    vstd::arithmetic::power2::lemma2_to64();
    let w = s.up - s.low + 1;
    let p = pow2(total_bit) as int;
    let t = step_width(s, total_bit);
    let v = uniform_symbol(s, total_bit);
    vstd::arithmetic::div_mod::lemma_div_pos_is_pos(tag_offset(s), t);
    assert(0 <= v < p);
    assert(t * v <= t * (v + 1) - 1) by (nonlinear_arith)
        requires
            t >= 1,
    ;
    assert(1 <= t * (v + 1)) by (nonlinear_arith)
        requires
            t >= 1,
            v >= 0,
    ;
    if w / p >= 1 {
        assert(t * (v + 1) <= t * p) by (nonlinear_arith)
            requires
                v + 1 <= p,
                t >= 1,
        ;
    } else {
        assert(t == 1);
        if total_bit == 32 {
            assert(tag_offset(s) == s.tag - s.low);
            assert(tag_offset(s) / 1 == tag_offset(s));
            assert(v <= s.tag - s.low);
        }
    }
}

/// The split point of a binary decode lies inside the interval. On scales
/// of up to 30 bits it always does; on wider ones the step width can
/// saturate at 1 and the scale outgrow the interval.
pub open spec fn split_inside(s: CoderState, cum_count: int, total_bit: nat) -> bool {
    total_bit <= 30 || cum_count * step_width(s, total_bit) < s.up - s.low + 1
}

proof fn lemma_split_inside(s: CoderState, cum_count: int, total_bit: nat)
    requires
        coder_wf(s),
        0 <= cum_count < pow2(total_bit),
        total_bit <= 32,
        split_inside(s, cum_count, total_bit),
    ensures
        step_width(s, total_bit) >= 1,
        0 <= step_width(s, total_bit) * cum_count < s.up - s.low + 1,
{
    lemma_step_width(s, total_bit);
    let t = step_width(s, total_bit);
    if total_bit <= 30 {
        let p = pow2(total_bit) as int;
        assert(t * cum_count <= t * (p - 1)) by (nonlinear_arith)
            requires
                cum_count <= p - 1,
                t >= 1,
        ;
        assert(t * (p - 1) == t * p - t) by (nonlinear_arith);
    } else {
        assert(cum_count * t == t * cum_count) by (nonlinear_arith);
    }
    assert(0 <= t * cum_count) by (nonlinear_arith)
        requires
            t >= 1,
            cum_count >= 0,
    ;
}

/// Law: a binary decode keeps the code value inside the interval.
pub proof fn lemma_boolean_keeps_tag(s: CoderState, cum_count: int, total_bit: nat)
    requires
        coder_wf(s),
        s.low <= s.tag <= s.up,
        0 <= cum_count < pow2(total_bit),
        total_bit <= 32,
        split_inside(s, cum_count, total_bit),
    ensures
        ({
            let n = boolean_step(s, cum_count, total_bit).1;
            n.low <= n.tag <= n.up
        }),
{
    lemma_step_width(s, total_bit);
    lemma_split_inside(s, cum_count, total_bit);
    let t = step_width(s, total_bit);
    let off = s.tag - s.low;
    let v = off / t;
    vstd::arithmetic::div_mod::lemma_fundamental_div_mod(off, t);
    vstd::arithmetic::div_mod::lemma_mod_pos_bound(off, t);
    if v >= cum_count {
        assert(t * cum_count <= t * v) by (nonlinear_arith)
            requires
                cum_count <= v,
                t >= 1,
        ;
        lemma_renorm_keeps_tag(CoderState { low: s.low + t * cum_count, ..s });
    } else {
        assert(t * (v + 1) <= t * cum_count) by (nonlinear_arith)
            requires
                v + 1 <= cum_count,
                t >= 1,
        ;
        assert(t * v + t == t * (v + 1)) by (nonlinear_arith);
        lemma_renorm_keeps_tag(CoderState { up: s.low + t * cum_count - 1, ..s });
    }
}

/// Law: a uniform decode whose quotient needed no clamping keeps the code
/// value inside the interval.
pub proof fn lemma_uniform_keeps_tag(s: CoderState, total_bit: nat)
    requires
        coder_wf(s),
        s.low <= s.tag <= s.up,
        total_bit <= 32,
        tag_offset(s) / step_width(s, total_bit) < pow2(total_bit),
    ensures
        ({
            let n = uniform_step(s, total_bit).1;
            n.low <= n.tag <= n.up
        }),
{
    lemma_step_width(s, total_bit);
    lemma_uniform_bounds(s, total_bit);
    let t = step_width(s, total_bit);
    let off = s.tag - s.low;
    let v = off / t;
    vstd::arithmetic::div_mod::lemma_fundamental_div_mod(off, t);
    vstd::arithmetic::div_mod::lemma_mod_pos_bound(off, t);
    assert(uniform_symbol(s, total_bit) == v);
    assert(t * v + t == t * (v + 1)) by (nonlinear_arith);
    assert(t * v == v * t) by (nonlinear_arith);
    lemma_renorm_keeps_tag(CoderState { low: s.low + t * v, up: s.low + t * (v + 1) - 1, ..s });
}

impl<'a> RangeDecoder<'a> {
    /// The abstract state.
    pub closed spec fn state(&self) -> CoderState {
        CoderState {
            data: self.reader.data(),
            low: self.low as int,
            up: self.up as int,
            tag: self.tag as int,
            bits: self.reader.consumed(),
        }
    }

    /// The decoder is ready for the next decode.
    pub closed spec fn wf(&self) -> bool {
        &&& self.reader.wf()
        &&& coder_wf(self.state())
    }

    /// A decoder over `data`, before its code value is read.
    pub fn new(data: &'a [u8]) -> (r: Self)
        ensures
            r.wf(),
            r.state() == (CoderState { data: data@, low: 0, up: 0xFFFF_FFFF, tag: 0, bits: 0 }),
    {
        RangeDecoder { reader: BitReader::new(data), low: 0, up: MASK, tag: 0 }
    }

    /// The current code value.
    pub fn tag(&self) -> (r: u64)
        ensures
            r == self.state().tag,
    {
        self.tag
    }

    /// Read the first 32 bits into the code value.
    pub fn initialize(&mut self)
        requires
            old(self).wf(),
        ensures
            final(self).wf(),
            final(self).state() == (CoderState {
                tag: stream_value(old(self).state().data, old(self).state().bits as int, 32),
                bits: old(self).state().bits + 32,
                ..old(self).state()
            }),
            bytes_fetched(old(self).state().bits) >= old(self).state().data.len() ==> bytes_fetched(
                final(self).state().bits,
            ) >= final(self).state().data.len(),
    {
        self.tag = 0;
        let mut i: u32 = 0;
        proof {
            vstd::arithmetic::power2::lemma2_to64();
        }
        let ghost k0 = self.reader.consumed();
        while i < 32
            invariant
                i <= 32,
                self.reader.wf(),
                self.reader.data() == old(self).state().data,
                self.reader.consumed() == k0 + i,
                k0 == old(self).state().bits,
                self.low == old(self).low,
                self.up == old(self).up,
                self.tag == stream_value(self.reader.data(), k0 as int, i as nat),
                0 <= stream_value(self.reader.data(), k0 as int, i as nat) < pow2(i as nat),
            decreases 32 - i,
        {
            let bit = self.reader.read_bit() as u64;
            proof {
                vstd::arithmetic::power2::lemma2_to64();
                vstd::arithmetic::power2::lemma_pow2_unfold((i + 1) as nat);
                let t = self.tag;
                assert(((t << 1u64) | bit) & MASK == 2 * t + bit) by (bit_vector)
                    requires
                        t < 0x8000_0000u64,
                        bit < 2u64,
                ;
                assert(stream_value(self.reader.data(), k0 as int, (i + 1) as nat) == 2
                    * stream_value(self.reader.data(), k0 as int, i as nat) + stream_bit(
                    self.reader.data(),
                    k0 + i,
                ));
            }
            self.tag = ((self.tag << 1) | bit) & MASK;
            i += 1;
        }
        proof {
            vstd::arithmetic::power2::lemma2_to64();
        }
    }

    /// Whether the bit reader fetched every input byte. Reads past the end
    /// do not count, so a code-value lookahead past the end still counts as
    /// fully consumed.
    pub fn fully_consumed(&self) -> (r: bool)
        requires
            self.wf(),
        ensures
            r == (bytes_fetched(self.state().bits) >= self.state().data.len()),
    {
        self.reader.fetched_all()
    }

    /// Decode a uniform symbol with `total_bit` bits.
    ///
    /// On a 32-bit scale the step width is 1 and the symbol is the code
    /// value's whole offset into the interval, so that scale needs the code
    /// value at or above the interval's low end (where it is below, the
    /// offset `tag - low` has no value).
    pub fn decode_uniform(&mut self, total_bit: u32) -> (r: u32)
        requires
            old(self).wf(),
            total_bit <= 32,
            total_bit == 32 ==> old(self).state().low <= old(self).state().tag,
        ensures
            final(self).wf(),
            (r, final(self).state()) == uniform_step(old(self).state(), total_bit as nat),
            r < pow2(total_bit as nat),
            final(self).state().data == old(self).state().data,
            final(self).state().bits >= old(self).state().bits,
            bytes_fetched(old(self).state().bits) >= old(self).state().data.len() ==> bytes_fetched(
                final(self).state().bits,
            ) >= final(self).state().data.len(),
            ({
                let s = old(self).state();
                s.low <= s.tag <= s.up && tag_offset(s) / step_width(s, total_bit as nat) < pow2(
                    total_bit as nat,
                ) ==> final(self).state().low <= final(self).state().tag
                    <= final(self).state().up
            }),
    {
        let ghost s = self.state();
        proof {
            lemma_step_width(s, total_bit as nat);
            lemma_uniform_bounds(s, total_bit as nat);
            if s.low <= s.tag <= s.up && tag_offset(s) / step_width(s, total_bit as nat) < pow2(
                total_bit as nat,
            ) {
                lemma_uniform_keeps_tag(s, total_bit as nat);
            }
        }
        // `t` is at least 1 while the interval is wider than a quarter of the
        // range; the guard keeps the division safe regardless.
        let mut t = (self.up - self.low + 1) >> total_bit;
        if t < 1 {
            t = 1;
        }
        // Clamp to `total_bit` bits: `t` is floored, so a crafted stream can
        // drive the quotient past `2^total_bit`.
        let mut value = self.tag.wrapping_sub(self.low) / t;
        proof {
            vstd::bits::lemma_u64_pow2_no_overflow(total_bit as nat);
            vstd::bits::lemma_u64_shl_is_mul(1, total_bit as u64);
        }
        let cap = (1u64 << total_bit) - 1;
        if value > cap {
            value = cap;
        }
        self.up = self.low + t * (value + 1) - 1;
        self.low += t * value;
        self.rescale();
        value as u32
    }

    /// Decode a binary symbol whose zero has `cum_count` of the
    /// `2^total_bit` scale.
    ///
    /// On scales wider than 30 bits the split point must lie inside the
    /// interval: past it the interval's low end would pass its upper end,
    /// and the next decode's width `up - low + 1` would have no value.
    pub fn decode_boolean(&mut self, cum_count: u32, total_bit: u32) -> (r: u32)
        requires
            old(self).wf(),
            total_bit <= 32,
            cum_count < pow2(total_bit as nat),
            split_inside(old(self).state(), cum_count as int, total_bit as nat),
        ensures
            final(self).wf(),
            final(self).state().data == old(self).state().data,
            final(self).state().bits >= old(self).state().bits,
            bytes_fetched(old(self).state().bits) >= old(self).state().data.len() ==> bytes_fetched(
                final(self).state().bits,
            ) >= final(self).state().data.len(),
            ({
                let s = old(self).state();
                s.low <= s.tag <= s.up ==> final(self).state().low <= final(self).state().tag
                    <= final(self).state().up
            }),
            (r, final(self).state()) == boolean_step(
                old(self).state(),
                cum_count as int,
                total_bit as nat,
            ),
            r <= 1,
    {
        let ghost s = self.state();
        proof {
            lemma_step_width(s, total_bit as nat);
            lemma_split_inside(s, cum_count as int, total_bit as nat);
            if s.low <= s.tag <= s.up {
                lemma_boolean_keeps_tag(s, cum_count as int, total_bit as nat);
            }
        }
        let mut t = (self.up - self.low + 1) >> total_bit;
        if t < 1 {
            t = 1;
        }
        let v = self.tag.wrapping_sub(self.low) / t;
        if v >= cum_count as u64 {
            self.low += t * cum_count as u64;
            self.rescale();
            1
        } else {
            proof {
                assert(t * cum_count >= 1) by (nonlinear_arith)
                    requires
                        t >= 1,
                        cum_count >= 1,
                ;
            }
            self.up = self.low + t * cum_count as u64 - 1;
            self.rescale();
            0
        }
    }

    /// One step of the first renormalisation phase.
    fn shift_out(&mut self)
        requires
            old(self).reader.wf(),
            0 <= old(self).low <= old(self).up < 0x1_0000_0000,
            old(self).tag < 0x1_0000_0000,
        ensures
            final(self).reader.wf(),
            final(self).state() == (CoderState {
                data: old(self).state().data,
                low: (2 * old(self).low) % 0x1_0000_0000,
                up: (2 * old(self).up + 1) % 0x1_0000_0000,
                tag: (2 * old(self).tag + stream_bit(
                    old(self).state().data,
                    old(self).state().bits as int,
                )) % 0x1_0000_0000,
                bits: old(self).state().bits + 1,
            }),
    {
        let bit = self.reader.read_bit() as u64;
        proof {
            lemma_shift_step(self.low, self.up, self.tag, bit);
        }
        self.tag = ((self.tag << 1) & MASK) | bit;
        self.low = (self.low << 1) & MASK;
        self.up = ((self.up << 1) & MASK) | 1;
    }

    /// One step of the second renormalisation phase.
    fn expand_middle(&mut self)
        requires
            old(self).reader.wf(),
            0x4000_0000 <= old(self).low < 0x8000_0000 <= old(self).up < 0xC000_0000,
            old(self).tag < 0x1_0000_0000,
        ensures
            final(self).reader.wf(),
            final(self).state() == (CoderState {
                data: old(self).state().data,
                low: 2 * (old(self).low - 0x4000_0000),
                up: 2 * (old(self).up - 0x4000_0000) + 1,
                tag: (2 * old(self).tag + stream_bit(
                    old(self).state().data,
                    old(self).state().bits as int,
                ) + 0x8000_0000) % 0x1_0000_0000,
                bits: old(self).state().bits + 1,
            }),
    {
        let bit = self.reader.read_bit() as u64;
        proof {
            lemma_shift_step(self.low, self.up, self.tag, bit);
            lemma_underflow_step(self.low, self.up);
        }
        self.tag = (((self.tag << 1) | bit) ^ MSB) & MASK;
        self.low = (self.low << 1) & (MASK >> 1);
        self.up = ((self.up << 1) | 1 | MSB) & MASK;
    }

    fn rescale(&mut self)
        requires
            old(self).reader.wf(),
            0 <= old(self).low <= old(self).up < 0x1_0000_0000,
            old(self).tag < 0x1_0000_0000,
        ensures
            final(self).wf(),
            final(self).state() == renorm(old(self).state()),
            final(self).state().data == old(self).state().data,
            final(self).state().bits >= old(self).state().bits,
            bytes_fetched(old(self).state().bits) >= old(self).state().data.len() ==> bytes_fetched(
                final(self).state().bits,
            ) >= final(self).state().data.len(),
    {
        let ghost s0 = self.state();
        proof {
            lemma_renorm_wf(s0);
        }
        // Phase 1: MSB convergence
        while (self.low & MSB) == (self.up & MSB)
            invariant
                self.reader.wf(),
                0 <= self.low <= self.up < 0x1_0000_0000,
                self.tag < 0x1_0000_0000,
                renorm_shift(self.state()) == renorm_shift(s0),
            decreases 0x1_0000_0000 - (self.up - self.low),
        {
            proof {
                lemma_shift_step(self.low, self.up, self.tag, 0);
                lemma_shift_next(self.state());
            }
            self.shift_out();
        }
        proof {
            lemma_shift_step(self.low, self.up, self.tag, 0);
            lemma_renorm_shift(s0);
        }
        // Phase 2: Underflow resolution
        while (self.low & SMSB) != 0 && (self.up & SMSB) == 0
            invariant
                self.reader.wf(),
                0 <= self.low < 0x8000_0000 <= self.up < 0x1_0000_0000,
                self.tag < 0x1_0000_0000,
                renorm_underflow(self.state()) == renorm(s0),
            decreases 0x1_0000_0000 - (self.up - self.low),
        {
            proof {
                lemma_shift_step(self.low, self.up, self.tag, 0);
            }
            self.expand_middle();
        }
        proof {
            lemma_shift_step(self.low, self.up, self.tag, 0);
        }
    }
}

/// Law: past the end of the input every bit reads as zero.
pub proof fn lemma_read_past_end(data: Seq<u8>, k: int)
    requires
        k >= 8 * data.len(),
    ensures
        stream_bit(data, k) == 0,
{
    let sh = (7 - k % 8) as u8;
    assert((0u8 >> sh) & 1u8 == 0u8) by (bit_vector);
}

/// Law: the eight bits of byte `j`, read most significant first, make up
/// the byte.
pub proof fn lemma_stream_byte(data: Seq<u8>, j: int)
    requires
        j >= 0,
    ensures
        stream_value(data, 8 * j, 8) == stream_byte(data, j),
{
    reveal_with_fuel(stream_value, 9);
    let b = stream_byte(data, j);
    assert forall|m: int| 0 <= m < 8 implies #[trigger] stream_bit(data, 8 * j + m) == (b >> ((7
        - m) as u8)) & 1u8 by {
        assert((8 * j + m) / 8 == j);
        assert((8 * j + m) % 8 == m);
    }
    assert(stream_bit(data, 8 * j + 0) == (b >> 7u8) & 1u8);
    assert(stream_bit(data, 8 * j + 1) == (b >> 6u8) & 1u8);
    assert(stream_bit(data, 8 * j + 2) == (b >> 5u8) & 1u8);
    assert(stream_bit(data, 8 * j + 3) == (b >> 4u8) & 1u8);
    assert(stream_bit(data, 8 * j + 4) == (b >> 3u8) & 1u8);
    assert(stream_bit(data, 8 * j + 5) == (b >> 2u8) & 1u8);
    assert(stream_bit(data, 8 * j + 6) == (b >> 1u8) & 1u8);
    assert(stream_bit(data, 8 * j + 7) == (b >> 0u8) & 1u8);
    assert(2 * (2 * (2 * (2 * (2 * (2 * (2 * ((b >> 7u8) & 1u8) + ((b >> 6u8) & 1u8)) + ((b
        >> 5u8) & 1u8)) + ((b >> 4u8) & 1u8)) + ((b >> 3u8) & 1u8)) + ((b >> 2u8) & 1u8)) + ((b
        >> 1u8) & 1u8)) + ((b >> 0u8) & 1u8) == b) by (bit_vector);
}

/// Law: right after the first `initialize` (32 bits read from a fresh
/// decoder), every input byte has been fetched exactly when the input has at
/// most four bytes.
pub proof fn lemma_consumed_after_first_initialize(len: nat)
    ensures
        (bytes_fetched(0 + 32) >= len) == (len <= 4),
{
}

/// Reading `n + 1` bits is the first bit, weighted `2^n`, then the rest.
proof fn lemma_stream_value_front(data: Seq<u8>, k: int, n: nat)
    ensures
        stream_value(data, k, n + 1) == stream_bit(data, k) * pow2(n) + stream_value(
            data,
            k + 1,
            n,
        ),
    decreases n,
{
    vstd::arithmetic::power2::lemma_pow2_unfold(n + 1);
    if n == 0 {
        vstd::arithmetic::power2::lemma2_to64();
        assert(stream_value(data, k, 1) == 2 * stream_value(data, k, 0) + stream_bit(data, k));
    } else {
        lemma_stream_value_front(data, k, (n - 1) as nat);
        vstd::arithmetic::power2::lemma_pow2_unfold(n);
        assert(stream_value(data, k, n + 1) == 2 * stream_value(data, k, n) + stream_bit(
            data,
            k + n,
        ));
        assert(stream_value(data, k + 1, n) == 2 * stream_value(data, k + 1, (n - 1) as nat)
            + stream_bit(data, k + 1 + n - 1));
        let b = stream_bit(data, k) as int;
        let p = pow2((n - 1) as nat) as int;
        assert(2 * (b * p) == b * (2 * p)) by (nonlinear_arith);
    }
}

/// An interval that is an aligned block of `2^m` values is shifted out
/// until it is the full range: `32 - m` input bits shift into the code value.
proof fn lemma_renorm_aligned(s: CoderState, m: nat, a: int)
    requires
        m <= 32,
        0 <= a < pow2((32 - m) as nat),
        s.low == a * pow2(m),
        s.up == s.low + pow2(m) - 1,
        0 <= s.tag < 0x1_0000_0000,
    ensures
        renorm_shift(s) == (CoderState {
            data: s.data,
            low: 0,
            up: 0xFFFF_FFFF,
            tag: (s.tag * pow2((32 - m) as nat) + stream_value(s.data, s.bits as int, (32 - m) as nat))
                % 0x1_0000_0000,
            bits: s.bits + (32 - m) as nat,
        }),
    decreases 32 - m,
{
    vstd::arithmetic::power2::lemma2_to64();
    if m == 32 {
        assert(a == 0);
        assert(s.low == 0);
        vstd::arithmetic::div_mod::lemma_small_mod(s.tag as nat, 0x1_0000_0000);
        assert(s.tag * pow2(0) + stream_value(s.data, s.bits as int, 0) == s.tag);
        assert(renorm_shift(s) == s);
    } else {
        let q = pow2((31 - m) as nat) as int;
        let pm = pow2(m) as int;
        vstd::arithmetic::power2::lemma_pow2_adds((31 - m) as nat, m);
        assert(((31 - m) as nat + m) as nat == 31);
        assert(q * pm == 0x8000_0000);
        vstd::arithmetic::power2::lemma_pow2_pos(m);
        vstd::arithmetic::power2::lemma_pow2_pos((31 - m) as nat);
        vstd::arithmetic::power2::lemma_pow2_unfold((32 - m) as nat);
        assert(((32 - m) as nat - 1) as nat == (31 - m) as nat);
        assert(pow2((32 - m) as nat) == 2 * q);
        vstd::arithmetic::power2::lemma_pow2_unfold(m + 1);
        assert(((m + 1) as nat - 1) as nat == m);
        let h = a / q;
        let a2 = a % q;
        vstd::arithmetic::div_mod::lemma_fundamental_div_mod(a, q);
        vstd::arithmetic::div_mod::lemma_mod_pos_bound(a, q);
        vstd::arithmetic::div_mod::lemma_div_pos_is_pos(a, q);
        assert(h <= 1) by (nonlinear_arith)
            requires
                a == q * h + a2,
                a2 >= 0,
                a < 2 * q,
                q > 0,
        ;
        assert(s.low == h * 0x8000_0000 + a2 * pm && 0 <= a2 * pm && a2 * pm + pm - 1
            < 0x8000_0000 && s.up == h * 0x8000_0000 + a2 * pm + pm - 1) by (nonlinear_arith)
            requires
                s.low == a * pm,
                s.up == s.low + pm - 1,
                a == q * h + a2,
                0 <= a2 < q,
                q * pm == 0x8000_0000,
                pm >= 1,
        ;
        // Both ends lie in half h.
        vstd::arithmetic::div_mod::lemma_fundamental_div_mod_converse(
            s.low,
            0x8000_0000,
            h,
            a2 * pm,
        );
        vstd::arithmetic::div_mod::lemma_fundamental_div_mod_converse(
            s.up,
            0x8000_0000,
            h,
            a2 * pm + pm - 1,
        );
        lemma_shift_next(s);
        let n = shift_next(s);
        assert(2 * s.low == h * 0x1_0000_0000 + a2 * (2 * pm) && a2 * (2 * pm) < 0x1_0000_0000)
            by (nonlinear_arith)
            requires
                s.low == h * 0x8000_0000 + a2 * pm,
                0 <= a2 < q,
                q * pm == 0x8000_0000,
        ;
        vstd::arithmetic::div_mod::lemma_fundamental_div_mod_converse(
            2 * s.low,
            0x1_0000_0000,
            h,
            a2 * (2 * pm),
        );
        assert(n.low == a2 * pow2(m + 1));
        lemma_renorm_aligned(n, m + 1, a2);
        // The code value: the shifted bit joins the bits read after it.
        let big = 0x1_0000_0000int;
        let b = stream_bit(s.data, s.bits as int) as int;
        lemma_stream_value_front(s.data, s.bits as int, (31 - m) as nat);
        assert(((31 - m) as nat + 1) as nat == (32 - m) as nat);
        let rest = stream_value(s.data, s.bits as int + 1, (31 - m) as nat);
        vstd::arithmetic::div_mod::lemma_mul_mod_noop_left(2 * s.tag + b, q, big);
        vstd::arithmetic::div_mod::lemma_add_mod_noop((2 * s.tag + b) % big * q, rest, big);
        vstd::arithmetic::div_mod::lemma_add_mod_noop((2 * s.tag + b) * q, rest, big);
        vstd::arithmetic::div_mod::lemma_mod_mod((2 * s.tag + b) % big * q, big, 1);
        assert((2 * s.tag + b) * q + rest == s.tag * (2 * q) + (b * q + rest)) by (nonlinear_arith);
        assert(n.bits + (32 - (m + 1)) as nat == s.bits + (32 - m) as nat);
        assert(n.tag == (2 * s.tag + b) % big);
        assert(((32 - (m + 1)) as nat) == (31 - m) as nat);
        assert(stream_value(s.data, s.bits as int, (32 - m) as nat) == b * q + rest);
        assert(renorm_shift(s).tag == ((2 * s.tag + b) % big * q + rest) % big);
        assert(renorm_shift(s).tag == (s.tag * pow2((32 - m) as nat) + stream_value(
            s.data,
            s.bits as int,
            (32 - m) as nat,
        )) % big);
    }
}

/// Law: on the full interval, a uniform decode of `b` bits yields the top
/// `b` bits of the code value, and leaves the full interval with the next
/// `b` input bits shifted into the code value.
pub proof fn lemma_uniform_full_interval(s: CoderState, b: nat)
    requires
        s.low == 0,
        s.up == 0xFFFF_FFFF,
        0 <= s.tag < 0x1_0000_0000,
        1 <= b <= 32,
    ensures
        uniform_step(s, b).0 == s.tag / pow2((32 - b) as nat) as int,
        uniform_step(s, b).1 == (CoderState {
            data: s.data,
            low: 0,
            up: 0xFFFF_FFFF,
            tag: (s.tag * pow2(b) + stream_value(s.data, s.bits as int, b)) % 0x1_0000_0000,
            bits: s.bits + b,
        }),
{
    vstd::arithmetic::power2::lemma2_to64();
    let m = (32 - b) as nat;
    let t = pow2(m) as int;
    let pb = pow2(b) as int;
    vstd::arithmetic::power2::lemma_pow2_adds(b, m);
    assert((b + m) as nat == 32);
    assert(pb * t == 0x1_0000_0000);
    vstd::arithmetic::power2::lemma_pow2_pos(m);
    vstd::arithmetic::power2::lemma_pow2_pos(b);
    vstd::arithmetic::div_mod::lemma_div_multiples_vanish(t, pb);
    assert(0x1_0000_0000int / pb == t) by {
        assert(pb * t == 0x1_0000_0000);
    }
    assert(step_width(s, b) == t);
    vstd::arithmetic::div_mod::lemma_small_mod(s.tag as nat, 0x1_0000_0000_0000_0000);
    assert(tag_offset(s) == s.tag);
    let v = s.tag / t;
    vstd::arithmetic::div_mod::lemma_fundamental_div_mod(s.tag, t);
    vstd::arithmetic::div_mod::lemma_mod_pos_bound(s.tag, t);
    vstd::arithmetic::div_mod::lemma_div_pos_is_pos(s.tag, t);
    assert(v < pb) by (nonlinear_arith)
        requires
            s.tag == t * v + s.tag % t,
            s.tag % t >= 0,
            s.tag < pb * t,
            t > 0,
    ;
    assert(uniform_symbol(s, b) == v);
    assert(t * v == v * t && t * (v + 1) - 1 == v * t + t - 1) by (nonlinear_arith);
    let n = CoderState { low: s.low + t * v, up: s.low + t * (v + 1) - 1, ..s };
    lemma_renorm_aligned(n, m, v);
    assert((32 - m) as nat == b);
    assert(renorm_underflow(renorm_shift(n)) == renorm_shift(n));
}

/// Renormalising an interval that lies in one half reads at least one bit.
proof fn lemma_renorm_reads(n: CoderState)
    requires
        0 <= n.low <= n.up < 0x1_0000_0000,
        0 <= n.tag < 0x1_0000_0000,
        n.low / 0x8000_0000 == n.up / 0x8000_0000,
    ensures
        renorm(n).bits > n.bits,
{
    lemma_shift_next(n);
    let n1 = shift_next(n);
    lemma_stream_bit_is_bit(n.data, n.bits as int);
    assert(0 <= n1.tag < 0x1_0000_0000);
    lemma_renorm_shift(n1);
    lemma_renorm_underflow(renorm_shift(n1));
}

/// Law: on the full interval, a binary decode on a `tb`-bit scale whose zero
/// has `c` of it yields 1 exactly when the code value lies at or above the
/// split point `c * 2^(32 - tb)`; when the decoded symbol's part is at most
/// half the range, decoding it reads input.
pub proof fn lemma_boolean_full_interval(s: CoderState, c: int, tb: nat)
    requires
        s.low == 0,
        s.up == 0xFFFF_FFFF,
        0 <= s.tag < 0x1_0000_0000,
        1 <= tb <= 32,
        0 < c < pow2(tb),
    ensures
        boolean_step(s, c, tb).0 == if s.tag >= c * pow2((32 - tb) as nat) {
            1u32
        } else {
            0u32
        },
        boolean_step(s, c, tb).0 == 0 && 2 * c <= pow2(tb) ==> boolean_step(s, c, tb).1.bits
            > s.bits,
        boolean_step(s, c, tb).0 == 1 && 2 * c >= pow2(tb) ==> boolean_step(s, c, tb).1.bits
            > s.bits,
{
    vstd::arithmetic::power2::lemma2_to64();
    let m = (32 - tb) as nat;
    let t = pow2(m) as int;
    let pb = pow2(tb) as int;
    vstd::arithmetic::power2::lemma_pow2_adds(tb, m);
    assert((tb + m) as nat == 32);
    assert(pb * t == 0x1_0000_0000);
    vstd::arithmetic::power2::lemma_pow2_pos(m);
    vstd::arithmetic::power2::lemma_pow2_pos(tb);
    vstd::arithmetic::div_mod::lemma_div_multiples_vanish(t, pb);
    assert(step_width(s, tb) == t);
    vstd::arithmetic::div_mod::lemma_small_mod(s.tag as nat, 0x1_0000_0000_0000_0000);
    assert(tag_offset(s) == s.tag);
    let v = s.tag / t;
    vstd::arithmetic::div_mod::lemma_fundamental_div_mod(s.tag, t);
    vstd::arithmetic::div_mod::lemma_mod_pos_bound(s.tag, t);
    assert((v >= c) == (s.tag >= c * t)) by (nonlinear_arith)
        requires
            s.tag == t * v + s.tag % t,
            0 <= s.tag % t < t,
    ;
    assert(c * t < 0x1_0000_0000 && c * t >= t) by (nonlinear_arith)
        requires
            0 < c < pb,
            pb * t == 0x1_0000_0000,
            t > 0,
    ;
    if v >= c {
        if 2 * c >= pb {
            assert(c * t >= 0x8000_0000) by (nonlinear_arith)
                requires
                    2 * c >= pb,
                    pb * t == 0x1_0000_0000,
                    t > 0,
            ;
            lemma_renorm_reads(CoderState { low: s.low + t * c, ..s });
        }
    } else {
        if 2 * c <= pb {
            assert(c * t <= 0x8000_0000) by (nonlinear_arith)
                requires
                    2 * c <= pb,
                    pb * t == 0x1_0000_0000,
                    t > 0,
            ;
            lemma_renorm_reads(CoderState { up: s.low + t * c - 1, ..s });
        }
    }
}

/// Law: once every input byte has been fetched, reading on keeps it so.
pub proof fn lemma_fetched_stays(k: nat, extra: nat, len: nat)
    requires
        bytes_fetched(k) >= len,
    ensures
        bytes_fetched(k + extra) >= len,
{
}

} // verus!
