//! Adaptive probability models.
use vstd::prelude::*;
use vstd::arithmetic::power2::pow2;
use crate::range::{CoderState, RangeDecoder, boolean_step, coder_wf};

verus! {

pub const BOOL_TOTAL_BIT: u32 = 12;
pub const BOOL_TOTAL_COUNT: u32 = 4096;
pub const BOOL_SHIFT_BIT: u32 = 6;

pub const EBP_TOTAL_BIT: u32 = 10;
pub const EBP_TOTAL_COUNT: u32 = 1024;
pub const EBP_SHIFT_BIT: u32 = 4;

/// The range a binary model's probabilities stay in: adaptation stops
/// moving a probability once its step rounds to zero.
pub const BOOL_MIN_PROB: u32 = 63;
pub const BOOL_MAX_PROB: u32 = 4033;
/// The range a tree model's probabilities stay in.
pub const TREE_MIN_PROB: u32 = 15;
pub const TREE_MAX_PROB: u32 = 1009;

/// A vector of `n` copies of `value`.
pub fn filled(value: u32, n: usize) -> (v: Vec<u32>)
    ensures
        v@ == Seq::new(n as nat, |i: int| value),
{
    let mut v: Vec<u32> = Vec::new();
    while v.len() < n
        invariant
            v@.len() <= n,
            forall|i: int| 0 <= i < v@.len() ==> v@[i] == value,
        decreases n - v@.len(),
    {
        v.push(value);
    }
    assert(v@ =~= Seq::new(n as nat, |i: int| value));
    v
}

// ---------------------------------------------------------------------------
// BoolState

/// The abstract state of a context-modelled binary decoder: the context
/// (the last `n_bits` decoded bits), and one probability of zero per context.
pub struct BoolModel {
    pub state: int,
    pub prob: Seq<u32>,
    pub n_bits: nat,
}

/// A probability of zero (out of 4096) after seeing `bit`.
pub open spec fn adapt_bool(p: u32, bit: u32) -> u32 {
    if bit == 0 {
        (p + (BOOL_TOTAL_COUNT - p) / 64) as u32
    } else {
        (p - p / 64) as u32
    }
}

pub open spec fn bool_model_wf(m: BoolModel) -> bool {
    &&& m.n_bits < 32
    &&& m.prob.len() == pow2(m.n_bits)
    &&& 0 <= m.state < pow2(m.n_bits)
    &&& forall|i: int| 0 <= i < m.prob.len() ==> BOOL_MIN_PROB <= #[trigger] m.prob[i] <= BOOL_MAX_PROB
}

/// Decoding one bit with the model: the bit, the adapted model, and the
/// decoder state after it.
pub open spec fn bool_decode(m: BoolModel, s: CoderState) -> (u32, BoolModel, CoderState) {
    let p = m.prob[m.state];
    let (bit, s1) = boolean_step(s, p as int, BOOL_TOTAL_BIT as nat);
    (
        bit,
        BoolModel {
            state: (2 * m.state + bit) % (pow2(m.n_bits) as int),
            prob: m.prob.update(m.state, adapt_bool(p, bit)),
            n_bits: m.n_bits,
        },
        s1,
    )
}

/// Law: decoding keeps a binary model well formed.
pub proof fn lemma_bool_decode_wf(m: BoolModel, s: CoderState)
    requires
        bool_model_wf(m),
        coder_wf(s),
        bool_decode(m, s).0 <= 1,
    ensures
        bool_model_wf(bool_decode(m, s).1),
{
    vstd::arithmetic::power2::lemma_pow2_pos(m.n_bits);
}

/// Law: decoding one bit with a binary model reads it with the probability
/// of the current context, raises that probability after a 0 and lowers it
/// after a 1, leaves every other context's probability alone, and moves to
/// the context made of the previous context's low bits followed by the bit.
pub proof fn lemma_bool_decode_law(m: BoolModel, s: CoderState)
    requires
        bool_model_wf(m),
        m.n_bits >= 1,
    ensures
        ({
            let (bit, m2, s2) = bool_decode(m, s);
            let half = pow2((m.n_bits - 1) as nat) as int;
            &&& bit <= 1
            &&& (bit, s2) == boolean_step(s, m.prob[m.state] as int, BOOL_TOTAL_BIT as nat)
            &&& bit == 0 ==> m2.prob[m.state] >= m.prob[m.state]
            &&& bit == 1 ==> m2.prob[m.state] <= m.prob[m.state]
            &&& m2.prob.len() == m.prob.len()
            &&& forall|k: int| 0 <= k < m.prob.len() && k != m.state ==> m2.prob[k] == m.prob[k]
            &&& m2.state % 2 == bit
            &&& m2.state / 2 == m.state % half
            &&& m2.n_bits == m.n_bits
        }),
{
    let (bit, m2, s2) = bool_decode(m, s);
    let half = pow2((m.n_bits - 1) as nat) as int;
    vstd::arithmetic::power2::lemma_pow2_unfold(m.n_bits);
    vstd::arithmetic::power2::lemma_pow2_pos((m.n_bits - 1) as nat);
    lemma_bool_prob_bounds(m.prob[m.state], bit);
    let x = 2 * m.state + bit;
    vstd::arithmetic::div_mod::lemma_mod_breakdown(x, 2, half);
    assert(pow2(m.n_bits) == 2 * half);
    vstd::arithmetic::div_mod::lemma_fundamental_div_mod_converse(x, 2, m.state, bit as int);
    vstd::arithmetic::div_mod::lemma_mod_pos_bound(m.state, half);
    let y = m.state % half;
    vstd::arithmetic::div_mod::lemma_fundamental_div_mod_converse(2 * y + bit, 2, y, bit as int);
}

/// A context-modelled adaptive binary decoder.
pub struct BoolState {
    state: usize,
    prob: Vec<u32>,
    n_bits: u32,
}

impl View for BoolState {
    type V = BoolModel;

    closed spec fn view(&self) -> BoolModel {
        BoolModel { state: self.state as int, prob: self.prob@, n_bits: self.n_bits as nat }
    }
}

proof fn lemma_bool_prob_bounds(p: u32, bit: u32)
    requires
        BOOL_MIN_PROB <= p <= BOOL_MAX_PROB,
    ensures
        BOOL_MIN_PROB <= adapt_bool(p, bit) <= BOOL_MAX_PROB,
        (p >> 6u32) == p / 64,
        (((BOOL_TOTAL_COUNT - p) as u32) >> 6u32) == (BOOL_TOTAL_COUNT - p) / 64,
{
    assert((p >> 6u32) == p / 64) by (bit_vector);
    let q = (BOOL_TOTAL_COUNT - p) as u32;
    assert((q >> 6u32) == q / 64) by (bit_vector);
}

proof fn lemma_next_context(state: usize, bit: u32, n_bits: u32)
    requires
        n_bits < 32,
        state < pow2(n_bits as nat),
        bit <= 1,
    ensures
        (1usize << n_bits) as int == pow2(n_bits as nat),
        pow2(n_bits as nat) >= 1,
        (((state << 1usize) | bit as usize) & ((1usize << n_bits) - 1) as usize) as int == (2
            * state + bit) % (pow2(n_bits as nat) as int),
{
    vstd::arithmetic::power2::lemma2_to64();
    vstd::arithmetic::power2::lemma_pow2_strictly_increases(n_bits as nat, 32);
    vstd::bits::lemma_usize_pow2_no_overflow(n_bits as nat);
    vstd::bits::lemma_usize_shl_is_mul(1, n_bits as usize);
    let x = (state << 1usize) | bit as usize;
    assert(x as int == 2 * state + bit || (x as int == (2 * state + bit) % 0x1_0000_0000 && (
    usize::BITS == 32))) by (bit_vector)
        requires
            state < 0x8000_0000usize,
            bit <= 1u32,
            x == (state << 1usize) | bit as usize,
    ;
    vstd::bits::lemma_usize_low_bits_mask_is_mod(x, n_bits as nat);
    vstd::arithmetic::power2::lemma_pow2_pos(n_bits as nat);
    if x as int != 2 * state + bit {
        vstd::arithmetic::div_mod::lemma_mod_mod(2 * state + bit, pow2(n_bits as nat) as int, pow2(
            (32 - n_bits) as nat,
        ) as int);
        vstd::arithmetic::power2::lemma_pow2_adds(n_bits as nat, (32 - n_bits) as nat);
        vstd::arithmetic::power2::lemma_pow2_pos((32 - n_bits) as nat);
        vstd::arithmetic::power2::lemma_pow2_pos(n_bits as nat);
        assert(pow2(n_bits as nat) * pow2((32 - n_bits) as nat) == 0x1_0000_0000);
    }
}

impl BoolState {
    /// The model is well formed: one probability per context, each within
    /// `[BOOL_MIN_PROB, BOOL_MAX_PROB]`.
    pub open spec fn wf(&self) -> bool {
        bool_model_wf(self@)
    }

    /// A model with `2^n_bits` contexts, each at even odds.
    pub fn new(n_bits: u32) -> (r: Self)
        requires
            n_bits < 32,
        ensures
            r.wf(),
            r@ == (BoolModel {
                state: 0,
                prob: Seq::new(pow2(n_bits as nat), |i: int| BOOL_TOTAL_COUNT / 2),
                n_bits: n_bits as nat,
            }),
    {
        proof {
            vstd::bits::lemma_usize_pow2_no_overflow(n_bits as nat);
            vstd::bits::lemma_usize_shl_is_mul(1, n_bits as usize);
            vstd::arithmetic::power2::lemma_pow2_pos(n_bits as nat);
        }
        let size: usize = 1 << n_bits;
        BoolState { state: 0, prob: filled(BOOL_TOTAL_COUNT / 2, size), n_bits }
    }

    /// Decode one bit in the current context and adapt to it.
    pub fn decode(&mut self, entropy: &mut RangeDecoder) -> (r: u32)
        requires
            old(self).wf(),
            old(entropy).wf(),
        ensures
            final(self).wf(),
            final(entropy).wf(),
            (r, final(self)@, final(entropy).state()) == bool_decode(old(self)@, old(entropy).state()),
            r <= 1,
    {
        let p = self.prob[self.state];
        proof {
            vstd::arithmetic::power2::lemma2_to64();
        }
        let bit = entropy.decode_boolean(p, BOOL_TOTAL_BIT);
        proof {
            lemma_bool_prob_bounds(p, bit);
        }
        if bit == 0 {
            self.prob.set(self.state, p + ((BOOL_TOTAL_COUNT - p) >> BOOL_SHIFT_BIT));
        } else {
            self.prob.set(self.state, p - (p >> BOOL_SHIFT_BIT));
        }
        proof {
            lemma_next_context(self.state, bit, self.n_bits);
        }
        let mask = (1usize << self.n_bits) - 1;
        self.state = ((self.state << 1) | bit as usize) & mask;
        bit
    }
}

// ---------------------------------------------------------------------------
// EntropyBitProb

/// The abstract state of a binary-tree symbol model: one probability of zero
/// (out of 1024) per tree node, for symbols of `bit_n` bits.
pub struct TreeModel {
    pub prob: Seq<u32>,
    pub bit_n: nat,
}

pub open spec fn tree_model_wf(m: TreeModel) -> bool {
    &&& m.bit_n <= 30
    &&& m.prob.len() == pow2(m.bit_n)
    &&& forall|i: int| 0 <= i < m.prob.len() ==> TREE_MIN_PROB <= #[trigger] m.prob[i] <= TREE_MAX_PROB
}

/// A probability of zero (out of 1024) after seeing `bit`.
pub open spec fn adapt_tree(p: u32, bit: u32) -> u32 {
    if bit == 0 {
        (p + (EBP_TOTAL_COUNT - p) / 16) as u32
    } else {
        (p - p / 16) as u32
    }
}

/// Bit `k` of `value`.
pub open spec fn bit_of(value: u32, k: nat) -> u32 {
    ((value as int / pow2(k) as int) % 2) as u32
}

/// Walking `left` more levels down the tree from `node`, decoding one bit per
/// level and adapting that node: the leaf reached, the probabilities after,
/// and the decoder state after.
pub open spec fn tree_decode(prob: Seq<u32>, node: int, left: nat, s: CoderState) -> (
    int,
    Seq<u32>,
    CoderState,
)
    decreases left,
{
    if left == 0 {
        (node, prob, s)
    } else {
        let (bit, s1) = boolean_step(s, prob[node] as int, EBP_TOTAL_BIT as nat);
        tree_decode(
            prob.update(node, adapt_tree(prob[node], bit)),
            2 * node + bit,
            (left - 1) as nat,
            s1,
        )
    }
}

/// Walking `left` more levels down the tree from `node` along the bits of
/// `value`, adapting each node passed: the probabilities after.
pub open spec fn tree_update(prob: Seq<u32>, node: int, value: u32, left: nat) -> Seq<u32>
    decreases left,
{
    if left == 0 {
        prob
    } else {
        let bit = bit_of(value, (left - 1) as nat);
        tree_update(
            prob.update(node, adapt_tree(prob[node], bit)),
            2 * node + bit,
            value,
            (left - 1) as nat,
        )
    }
}

/// Decoding one `bit_n`-bit symbol: the symbol, the adapted model, and the
/// decoder state after it.
pub open spec fn tree_symbol(m: TreeModel, s: CoderState) -> (u32, TreeModel, CoderState) {
    let (leaf, prob, s1) = tree_decode(m.prob, 1, m.bit_n, s);
    ((leaf - pow2(m.bit_n)) as u32, TreeModel { prob, bit_n: m.bit_n }, s1)
}

/// Scaled products of the probabilities two models give the bits of `value`
/// below the node, rescaled by 1024 whenever either reaches 2^22.
pub open spec fn likelihoods(
    p1: Seq<u32>,
    p2: Seq<u32>,
    node: int,
    value: u32,
    left: nat,
    a: int,
    b: int,
) -> (int, int)
    decreases left,
{
    if left == 0 {
        (a, b)
    } else {
        let big = a >= 0x40_0000 || b >= 0x40_0000;
        let a0 = if big {
            a / 1024
        } else {
            a
        };
        let b0 = if big {
            b / 1024
        } else {
            b
        };
        let bit = bit_of(value, (left - 1) as nat);
        let f1 = if bit == 1 {
            EBP_TOTAL_COUNT - p1[node]
        } else {
            p1[node] as int
        };
        let f2 = if bit == 1 {
            EBP_TOTAL_COUNT - p2[node]
        } else {
            p2[node] as int
        };
        likelihoods(p1, p2, 2 * node + bit, value, (left - 1) as nat, a0 * f1, b0 * f2)
    }
}

/// Which of two models gave `value` the higher likelihood: 1 for the first,
/// -1 for the second, 0 for a tie.
pub open spec fn compare_models(m1: TreeModel, m2: TreeModel, value: u32) -> i32 {
    let (a, b) = likelihoods(m1.prob, m2.prob, 1, value, m1.bit_n, 1, 1);
    if a > b {
        1
    } else if a < b {
        -1i32
    } else {
        0
    }
}

/// The smallest `r` with `n <= 2^r`.
pub open spec fn is_ceil_log2(n: int, r: nat) -> bool {
    n <= pow2(r) && (r == 0 || pow2((r - 1) as nat) < n)
}

/// The smallest `r` with `n <= 2^r`.
fn ceil_log2(n: usize) -> (r: u32)
    ensures
        is_ceil_log2(n as int, r as nat),
        r <= 64,
{
    proof {
        vstd::arithmetic::power2::lemma2_to64();
        vstd::arithmetic::power2::lemma2_to64_rest();
    }
    let mut r: u32 = 0;
    let mut p: u128 = 1;
    while p < n as u128
        invariant
            r <= 64,
            p == pow2(r as nat),
            r == 0 || pow2((r - 1) as nat) < n,
        decreases 64 - r,
    {
        proof {
            vstd::arithmetic::power2::lemma2_to64();
            vstd::arithmetic::power2::lemma2_to64_rest();
            vstd::arithmetic::power2::lemma_pow2_unfold((r + 1) as nat);
            if r >= 64 {
                assert(n < 0x1_0000_0000_0000_0000);
            }
        }
        p = p * 2;
        r = r + 1;
    }
    r
}

/// A binary-tree model of `bit_n`-bit symbols.
pub struct EntropyBitProb {
    prob: Vec<u32>,
    bit_n: u32,
}

impl View for EntropyBitProb {
    type V = TreeModel;

    closed spec fn view(&self) -> TreeModel {
        TreeModel { prob: self.prob@, bit_n: self.bit_n as nat }
    }
}

proof fn lemma_tree_prob_bounds(p: u32, bit: u32)
    requires
        TREE_MIN_PROB <= p <= TREE_MAX_PROB,
    ensures
        TREE_MIN_PROB <= adapt_tree(p, bit) <= TREE_MAX_PROB,
        (p >> 4u32) == p / 16,
        (((EBP_TOTAL_COUNT - p) as u32) >> 4u32) == (EBP_TOTAL_COUNT - p) / 16,
{
    assert((p >> 4u32) == p / 16) by (bit_vector);
    let q = (EBP_TOTAL_COUNT - p) as u32;
    assert((q >> 4u32) == q / 16) by (bit_vector);
}

proof fn lemma_bit_of(value: u32, k: u32)
    requires
        k < 32,
    ensures
        (value >> k) & 1 == bit_of(value, k as nat),
        bit_of(value, k as nat) <= 1,
{
    vstd::bits::lemma_u32_shr_is_div(value, k);
    let x = value >> k;
    assert(x & 1 == x % 2) by (bit_vector);
}

proof fn lemma_or_bit(value: u32, k: u32, q: int)
    requires
        k < 31,
        q >= 0,
        value == q * pow2((k + 1) as nat),
    ensures
        value | (1u32 << k) == value + pow2(k as nat),
        (1u32 << k) == pow2(k as nat),
{
    vstd::bits::lemma_u32_pow2_no_overflow(k as nat);
    vstd::bits::lemma_u32_shl_is_mul(1, k);
    vstd::arithmetic::power2::lemma_pow2_unfold((k + 1) as nat);
    vstd::bits::lemma_u32_shr_is_div(value, k);
    let pk = pow2(k as nat) as int;
    vstd::arithmetic::power2::lemma_pow2_pos(k as nat);
    assert(value == (2 * q) * pk) by (nonlinear_arith)
        requires
            value == q * (2 * pk),
    ;
    vstd::arithmetic::div_mod::lemma_div_multiples_vanish(2 * q, pk);
    assert(value as int / pk == 2 * q) by (nonlinear_arith)
        requires
            value == (2 * q) * pk,
            pk * (2 * q) / pk == 2 * q,
    ;
    let x = value >> k;
    assert(x % 2 == 0);
    assert(value | (1u32 << k) == value + (1u32 << k)) by (bit_vector)
        requires
            k < 31u32,
            x == value >> k,
            x % 2 == 0,
    ;
}

/// A node `d` levels down a tree of depth `bit_n` is a valid index.
proof fn lemma_walk_bounds(pre: int, d: nat, bit_n: nat)
    requires
        d < bit_n <= 30,
        pow2(d) <= pre < pow2(d + 1),
    ensures
        pre < pow2(bit_n) <= 0x4000_0000,
        pre < 0x4000_0000,
{
    vstd::arithmetic::power2::lemma2_to64();
    if d + 1 < bit_n {
        vstd::arithmetic::power2::lemma_pow2_strictly_increases(d + 1, bit_n);
    }
    if bit_n < 30 {
        vstd::arithmetic::power2::lemma_pow2_strictly_increases(bit_n, 30);
    }
}

/// One level of a tree walk: the node and the partial symbol after `bit`.
proof fn lemma_walk_value(value: u32, pre: int, d: nat, i: nat, bit: u32)
    requires
        i >= 1,
        d + i <= 30,
        pow2(d) <= pre < pow2(d + 1),
        value == (pre - pow2(d)) * pow2(i),
        bit <= 1,
    ensures
        ((pre as usize) << 1usize) | (bit as usize) == 2 * pre + bit,
        pow2(d + 1) <= 2 * pre + bit < pow2(d + 2),
        bit != 0 ==> value | (1u32 << ((i - 1) as u32)) == value + pow2((i - 1) as nat),
        bit != 0 ==> (1u32 << ((i - 1) as u32)) == pow2((i - 1) as nat),
        (if bit != 0 {
            value + pow2((i - 1) as nat)
        } else {
            value as int
        }) == (2 * pre + bit - pow2(d + 1)) * pow2((i - 1) as nat),
{
    vstd::arithmetic::power2::lemma2_to64();
    vstd::arithmetic::power2::lemma_pow2_unfold(d + 1);
    vstd::arithmetic::power2::lemma_pow2_unfold(d + 2);
    vstd::arithmetic::power2::lemma_pow2_unfold(i);
    lemma_walk_bounds(pre, d, d + 1);
    let pu = pre as usize;
    assert((pu << 1usize) | bit as usize == 2 * pu + bit) by (bit_vector)
        requires
            pu < 0x4000_0000usize,
            bit <= 1u32,
    ;
    let pi = pow2((i - 1) as nat) as int;
    let q = pre - pow2(d);
    assert(value == q * (2 * pi)) by (nonlinear_arith)
        requires
            value == q * pow2(i),
            pow2(i) == 2 * pi,
    ;
    assert(2 * pre + bit - pow2(d + 1) == 2 * q + bit);
    if bit != 0 {
        lemma_or_bit(value, (i - 1) as u32, q);
        assert((2 * q + 1) * pi == q * (2 * pi) + pi) by (nonlinear_arith);
    } else {
        assert((2 * q) * pi == q * (2 * pi)) by (nonlinear_arith);
    }
}

impl EntropyBitProb {
    /// The model is well formed: one probability per node, each within
    /// `[TREE_MIN_PROB, TREE_MAX_PROB]`.
    pub open spec fn wf(&self) -> bool {
        tree_model_wf(self@)
    }

    /// A model for symbols below `n`, every node at even odds.
    ///
    /// `n` is at most 2^30: the model holds one 4-byte probability per
    /// node, 2^bits of them, so a wider range would ask 4 GiB or more for a
    /// single model (past what a 32-bit target can address), and the nodes
    /// of a walk are numbered in `usize`.
    pub fn new(n: usize) -> (r: Self)
        requires
            n <= 0x4000_0000,
        ensures
            r.wf(),
            is_ceil_log2(n as int, r@.bit_n),
            r@.prob == Seq::new(pow2(r@.bit_n), |i: int| EBP_TOTAL_COUNT / 2),
    {
        let bit_n = ceil_log2(n);
        proof {
            lemma_bits_for_bound(n as int);
            lemma_ceil_log2_unique(n as int, bit_n as nat);
            vstd::bits::lemma_usize_pow2_no_overflow(bit_n as nat);
            vstd::bits::lemma_usize_shl_is_mul(1, bit_n as usize);
        }
        let array_n: usize = 1 << bit_n;
        EntropyBitProb { prob: filled(EBP_TOTAL_COUNT / 2, array_n), bit_n }
    }

    fn update_prob(&mut self, idx: usize, bit: u32)
        requires
            old(self).wf(),
            idx < old(self)@.prob.len(),
        ensures
            final(self).wf(),
            final(self)@ == (TreeModel {
                prob: old(self)@.prob.update(idx as int, adapt_tree(old(self)@.prob[idx as int], bit)),
                ..old(self)@
            }),
    {
        let p = self.prob[idx];
        proof {
            lemma_tree_prob_bounds(p, bit);
        }
        if bit == 0 {
            self.prob.set(idx, p + ((EBP_TOTAL_COUNT - p) >> EBP_SHIFT_BIT));
        } else {
            self.prob.set(idx, p - (p >> EBP_SHIFT_BIT));
        }
    }

    /// Decode one symbol, adapting each node passed: the model ends as
    /// `update` with the decoded symbol would leave it.
    pub fn decode(&mut self, entropy: &mut RangeDecoder) -> (r: u32)
        requires
            old(self).wf(),
            old(entropy).wf(),
        ensures
            final(self).wf(),
            final(entropy).wf(),
            (r, final(self)@, final(entropy).state()) == tree_symbol(old(self)@, old(entropy).state()),
            r < pow2(old(self)@.bit_n),
            final(self)@ == tree_updated(old(self)@, r),
    {
        let ghost m0 = self@;
        let ghost s0 = entropy.state();
        proof {
            lemma_update_after_decode(m0, s0);
        }
        let mut value = 0u32;
        let mut pre = 1usize;
        let mut i = self.bit_n;
        proof {
            vstd::arithmetic::power2::lemma2_to64();
            assert(0 == (1 - 1) * pow2(i as nat)) by (nonlinear_arith);
        }
        while i > 0
            invariant
                self.wf(),
                entropy.wf(),
                self@.bit_n == m0.bit_n,
                i <= self.bit_n,
                pow2((self.bit_n - i) as nat) <= pre < pow2((self.bit_n - i + 1) as nat),
                value == (pre - pow2((self.bit_n - i) as nat)) * pow2(i as nat),
                tree_decode(self@.prob, pre as int, i as nat, entropy.state()) == tree_decode(
                    m0.prob,
                    1,
                    m0.bit_n,
                    s0,
                ),
            decreases i,
        {
            let ghost prob0 = self@.prob;
            let ghost st0 = entropy.state();
            proof {
                lemma_walk_bounds(pre as int, (self.bit_n - i) as nat, self.bit_n as nat);
                vstd::arithmetic::power2::lemma2_to64();
            }
            let p = self.prob[pre];
            let bit = entropy.decode_boolean(p, EBP_TOTAL_BIT);
            self.update_prob(pre, bit);
            proof {
                lemma_walk_value(value, pre as int, (self.bit_n - i) as nat, i as nat, bit);
            }
            if bit != 0 {
                value |= 1 << (i - 1);
            }
            pre = (pre << 1) | bit as usize;
            i -= 1;
            assert(tree_decode(prob0, (pre - bit) / 2, (i + 1) as nat, st0) == tree_decode(
                self@.prob,
                pre as int,
                i as nat,
                entropy.state(),
            ));
        }
        proof {
            // The walk has reached a leaf: the symbol is the leaf's offset.
            vstd::arithmetic::power2::lemma2_to64();
            let n = self.bit_n as nat;
            vstd::arithmetic::power2::lemma_pow2_unfold(n + 1);
            assert(pow2((self.bit_n - i) as nat) == pow2(n));
            assert(pow2((self.bit_n - i + 1) as nat) == pow2(n + 1));
            let x = pre - pow2(n);
            assert(value == x * 1);
            assert(x * 1 == x) by (nonlinear_arith);
            assert(tree_decode(self@.prob, pre as int, 0, entropy.state()) == (
                pre as int,
                self@.prob,
                entropy.state(),
            ));
        }
        value
    }

    /// Adapt the model to a known symbol without decoding.
    pub fn update(&mut self, value: u32)
        requires
            old(self).wf(),
        ensures
            final(self).wf(),
            final(self)@ == (TreeModel {
                prob: tree_update(old(self)@.prob, 1, value, old(self)@.bit_n),
                bit_n: old(self)@.bit_n,
            }),
    {
        let ghost m0 = self@;
        let mut pre = 1usize;
        let mut i = self.bit_n;
        proof {
            vstd::arithmetic::power2::lemma2_to64();
        }
        while i > 0
            invariant
                self.wf(),
                self@.bit_n == m0.bit_n,
                i <= self.bit_n,
                pow2((self.bit_n - i) as nat) <= pre < pow2((self.bit_n - i + 1) as nat),
                tree_update(self@.prob, pre as int, value, i as nat) == tree_update(
                    m0.prob,
                    1,
                    value,
                    m0.bit_n,
                ),
            decreases i,
        {
            let ghost d = (self.bit_n - i) as nat;
            proof {
                vstd::arithmetic::power2::lemma2_to64();
                vstd::arithmetic::power2::lemma_pow2_unfold(d + 1);
                if d + 1 < self.bit_n {
                    vstd::arithmetic::power2::lemma_pow2_strictly_increases(
                        d + 1,
                        self.bit_n as nat,
                    );
                }
                if self.bit_n < 30 {
                    vstd::arithmetic::power2::lemma_pow2_strictly_increases(self.bit_n as nat, 30);
                }
                lemma_bit_of(value, (i - 1) as u32);
            }
            let ghost prob0 = self@.prob;
            let v = (value >> (i - 1)) & 1;
            self.update_prob(pre, v);
            proof {
                let pu = pre;
                assert((pu << 1usize) | v as usize == 2 * pu + v) by (bit_vector)
                    requires
                        pu < 0x4000_0000usize,
                        v <= 1u32,
                ;
            }
            pre = (pre << 1) | v as usize;
            i -= 1;
            assert(tree_update(prob0, (pre - v) / 2, value, (i + 1) as nat) == tree_update(
                self@.prob,
                pre as int,
                value,
                i as nat,
            ));
        }
    }

    /// Compare which model better predicted `value`: 1 for `m1`, -1 for
    /// `m2`, 0 for a tie.
    pub fn compare_with(m1: &EntropyBitProb, m2: &EntropyBitProb, value: u32) -> (r: i32)
        requires
            m1.wf(),
            m2.wf(),
            m1@.bit_n <= m2@.bit_n,
        ensures
            r == compare_models(m1@, m2@, value),
    {
        let mut prod1 = 1u32;
        let mut prod2 = 1u32;
        let mut pre = 1usize;
        let overflow_mask = (EBP_TOTAL_COUNT - 1) << (32 - EBP_TOTAL_BIT);
        assert(overflow_mask == 0xFFC0_0000u32) by (bit_vector)
            requires
                overflow_mask == 1023u32 << 22u32,
        ;
        let mut i = m1.bit_n;
        proof {
            vstd::arithmetic::power2::lemma2_to64();
        }
        while i > 0
            invariant
                m1.wf(),
                m2.wf(),
                m1@.bit_n <= m2@.bit_n,
                overflow_mask == 0xFFC0_0000u32,
                i <= m1.bit_n,
                pow2((m1.bit_n - i) as nat) <= pre < pow2((m1.bit_n - i + 1) as nat),
                likelihoods(m1@.prob, m2@.prob, pre as int, value, i as nat, prod1 as int, prod2 as int)
                    == likelihoods(m1@.prob, m2@.prob, 1, value, m1@.bit_n, 1, 1),
            decreases i,
        {
            let ghost d = (m1.bit_n - i) as nat;
            proof {
                vstd::arithmetic::power2::lemma2_to64();
                vstd::arithmetic::power2::lemma_pow2_unfold(d + 1);
                if d + 1 < m1.bit_n {
                    vstd::arithmetic::power2::lemma_pow2_strictly_increases(d + 1, m1.bit_n as nat);
                }
                if m1.bit_n < 30 {
                    vstd::arithmetic::power2::lemma_pow2_strictly_increases(m1.bit_n as nat, 30);
                }
                if m1@.bit_n < m2@.bit_n {
                    vstd::arithmetic::power2::lemma_pow2_strictly_increases(m1@.bit_n, m2@.bit_n);
                }
                lemma_bit_of(value, (i - 1) as u32);
            }
            let p1 = m1.prob[pre];
            let p2 = m2.prob[pre];
            let v = (value >> (i - 1)) & 1;
            let big = (prod1 | prod2) & overflow_mask != 0;
            proof {
                let x = prod1;
                let y = prod2;
                assert(((x | y) & 0xFFC0_0000u32 != 0) == (x >= 0x40_0000u32 || y >= 0x40_0000u32))
                    by (bit_vector);
                assert((x >> 10u32) == x / 1024) by (bit_vector);
                assert((y >> 10u32) == y / 1024) by (bit_vector);
            }
            if big {
                prod1 >>= EBP_TOTAL_BIT;
                prod2 >>= EBP_TOTAL_BIT;
            }
            let f1 = if v != 0 {
                EBP_TOTAL_COUNT - p1
            } else {
                p1
            };
            let f2 = if v != 0 {
                EBP_TOTAL_COUNT - p2
            } else {
                p2
            };
            proof {
                assert(prod1 < 0x40_0000);
                assert(prod2 < 0x40_0000);
                assert(prod1 * f1 < 0x1_0000_0000) by (nonlinear_arith)
                    requires
                        prod1 < 0x40_0000,
                        f1 <= 1024,
                ;
                assert(prod2 * f2 < 0x1_0000_0000) by (nonlinear_arith)
                    requires
                        prod2 < 0x40_0000,
                        f2 <= 1024,
                ;
                vstd::arithmetic::div_mod::lemma_small_mod(
                    (prod1 * f1) as nat,
                    0x1_0000_0000,
                );
                vstd::arithmetic::div_mod::lemma_small_mod(
                    (prod2 * f2) as nat,
                    0x1_0000_0000,
                );
            }
            prod1 = prod1.wrapping_mul(f1);
            prod2 = prod2.wrapping_mul(f2);
            proof {
                let pu = pre;
                assert((pu << 1usize) | v as usize == 2 * pu + v) by (bit_vector)
                    requires
                        pu < 0x4000_0000usize,
                        v <= 1u32,
                ;
            }
            pre = (pre << 1) | v as usize;
            i -= 1;
        }
        if prod1 > prod2 {
            1
        } else if prod1 < prod2 {
            -1
        } else {
            0
        }
    }
}

/// The number of bits `ceil_log2` gives for `n`.
pub open spec fn bits_for(n: int) -> nat {
    choose|r: nat| is_ceil_log2(n, r)
}

/// A fresh tree model for symbols below `n`.
pub open spec fn fresh_tree(n: int) -> TreeModel {
    TreeModel {
        prob: Seq::new(pow2(bits_for(n)), |i: int| EBP_TOTAL_COUNT / 2),
        bit_n: bits_for(n),
    }
}

/// `bits_for` names the one `r` that `is_ceil_log2` admits.
pub proof fn lemma_ceil_log2_unique(n: int, r: nat)
    requires
        is_ceil_log2(n, r),
    ensures
        bits_for(n) == r,
{
    let q = bits_for(n);
    assert(is_ceil_log2(n, q));
    if q < r {
        if q < (r - 1) as nat {
            vstd::arithmetic::power2::lemma_pow2_strictly_increases(q, (r - 1) as nat);
        }
    } else if r < q {
        if r < (q - 1) as nat {
            vstd::arithmetic::power2::lemma_pow2_strictly_increases(r, (q - 1) as nat);
        }
    }
}

proof fn lemma_find_ceil_log2(n: int, r: nat) -> (q: nat)
    requires
        r <= 30,
        n <= 0x4000_0000,
        r == 0 || pow2((r - 1) as nat) < n,
    ensures
        is_ceil_log2(n, q),
        q <= 30,
    decreases 30 - r,
{
    vstd::arithmetic::power2::lemma2_to64();
    if n <= pow2(r) {
        r
    } else {
        lemma_find_ceil_log2(n, r + 1)
    }
}

/// `bits_for` stays within 30 bits for sizes up to 2^30.
pub proof fn lemma_bits_for_bound(n: int)
    requires
        n <= 0x4000_0000,
    ensures
        bits_for(n) <= 30,
        is_ceil_log2(n, bits_for(n)),
{
    let q = lemma_find_ceil_log2(n, 0);
    lemma_ceil_log2_unique(n, q);
}

/// A tree model adapted to a known symbol.
pub open spec fn tree_updated(m: TreeModel, value: u32) -> TreeModel {
    TreeModel { prob: tree_update(m.prob, 1, value, m.bit_n), bit_n: m.bit_n }
}

// ---------------------------------------------------------------------------
// PredictProb

/// The abstract state of a two-level context model: a fine model per
/// context, a coarse model per `2^shift` contexts, and per context a score of
/// which of the two has predicted better.
pub struct PredictModel {
    pub prob1: Seq<TreeModel>,
    pub prob2: Seq<TreeModel>,
    pub lucky: Seq<i32>,
    pub shift: nat,
}

/// The score after a comparison result `r`.
pub open spec fn rescore(score: i32, r: i32) -> i32 {
    if r > 0 {
        (score + 1) as i32
    } else if r < 0 {
        (score - 1) as i32
    } else {
        score
    }
}

/// Decoding one symbol in context `ctx`: the model that has predicted better
/// so far decodes it, the other adapts to it, and the score follows which of
/// the two, after adapting, gives it the higher likelihood.
#[verifier::opaque]
pub open spec fn predict_decode(m: PredictModel, ctx: int, s: CoderState) -> (
    u32,
    PredictModel,
    CoderState,
) {
    let c = ctx / pow2(m.shift) as int;
    let (v, fine, coarse, s1) = if m.lucky[ctx] >= 0 {
        let (v, t1, s1) = tree_symbol(m.prob1[ctx], s);
        (v, t1, tree_updated(m.prob2[c], v), s1)
    } else {
        let (v, t2, s1) = tree_symbol(m.prob2[c], s);
        (v, tree_updated(m.prob1[ctx], v), t2, s1)
    };
    let r = compare_models(fine, coarse, v);
    (
        v,
        PredictModel {
            prob1: m.prob1.update(ctx, fine),
            prob2: m.prob2.update(c, coarse),
            lucky: m.lucky.update(ctx, rescore(m.lucky[ctx], r)),
            shift: m.shift,
        },
        s1,
    )
}

/// A two-level context model.
pub struct PredictProb {
    prob1: Vec<EntropyBitProb>,
    prob2: Vec<EntropyBitProb>,
    lucky: Vec<i32>,
    shift: u32,
    bits: Ghost<nat>,
    decodes: Ghost<nat>,
}

impl View for PredictProb {
    type V = PredictModel;

    closed spec fn view(&self) -> PredictModel {
        PredictModel {
            prob1: self.prob1@.map_values(|e: EntropyBitProb| e@),
            prob2: self.prob2@.map_values(|e: EntropyBitProb| e@),
            lucky: self.lucky@,
            shift: self.shift as nat,
        }
    }
}

/// A vector of `count` fresh tree models for symbols below `n`.
fn fresh_models(count: usize, n: usize) -> (v: Vec<EntropyBitProb>)
    requires
        n <= 0x4000_0000,
    ensures
        v@.len() == count,
        forall|i: int| 0 <= i < count ==> (#[trigger] v@[i]).wf() && v@[i]@ == fresh_tree(n as int),
{
    let mut v: Vec<EntropyBitProb> = Vec::new();
    while v.len() < count
        invariant
            v@.len() <= count,
            n <= 0x4000_0000,
            forall|i: int| 0 <= i < v@.len() ==> (#[trigger] v@[i]).wf() && v@[i]@ == fresh_tree(
                n as int,
            ),
        decreases count - v@.len(),
    {
        let e = EntropyBitProb::new(n);
        proof {
            lemma_ceil_log2_unique(n as int, e@.bit_n);
        }
        v.push(e);
    }
    v
}

fn zeros(n: usize) -> (v: Vec<i32>)
    ensures
        v@ == Seq::new(n as nat, |i: int| 0i32),
{
    let mut v: Vec<i32> = Vec::new();
    while v.len() < n
        invariant
            v@.len() <= n,
            forall|i: int| 0 <= i < v@.len() ==> v@[i] == 0i32,
        decreases n - v@.len(),
    {
        v.push(0);
    }
    assert(v@ =~= Seq::new(n as nat, |i: int| 0i32));
    v
}

impl PredictProb {
    /// The model is well formed: every tree model for the same symbol width,
    /// and every score bounded by the number of decodes so far.
    pub closed spec fn wf(&self) -> bool {
        &&& self.lucky@.len() == self.prob1@.len()
        &&& self.shift < 32
        &&& self.bits@ <= 30
        &&& forall|i: int| 0 <= i < self.prob1@.len() ==> (#[trigger] self.prob1@[i]).wf()
        &&& forall|i: int| 0 <= i < self.prob2@.len() ==> (#[trigger] self.prob2@[i]).wf()
        &&& forall|i: int|
            0 <= i < self.prob1@.len() ==> (#[trigger] self.prob1@[i])@.bit_n == self.bits@
        &&& forall|i: int|
            0 <= i < self.prob2@.len() ==> (#[trigger] self.prob2@[i])@.bit_n == self.bits@
        &&& forall|i: int|
            0 <= i < self.lucky@.len() ==> -(self.decodes@ as int) <= #[trigger] self.lucky@[i]
                <= self.decodes@
    }

    /// The number of bits of each symbol.
    pub closed spec fn symbol_bits(&self) -> nat {
        self.bits@
    }

    /// The number of symbols decoded so far.
    pub closed spec fn decodes(&self) -> nat {
        self.decodes@
    }

    /// Every tree of a well-formed model has `symbol_bits` bits, at most 30.
    pub proof fn lemma_trees(&self)
        requires
            self.wf(),
        ensures
            predict_trees_have(self@, self.symbol_bits()),
            self.symbol_bits() <= 30,
    {
    }

    /// A model with `key` contexts (and `key >> shift` coarse ones) for
    /// symbols below `n`; `n` is bounded as for `EntropyBitProb::new`, and
    /// the shift stays below the width of `usize` on every target.
    pub fn new(key: usize, n: usize, shift: u32) -> (r: Self)
        requires
            n <= 0x4000_0000,
            shift < 32,
        ensures
            r.wf(),
            r.decodes() == 0,
            r.symbol_bits() == bits_for(n as int),
            r@ == (PredictModel {
                prob1: Seq::new(key as nat, |i: int| fresh_tree(n as int)),
                prob2: Seq::new((key as int / pow2(shift as nat) as int) as nat, |i: int| fresh_tree(n as int)),
                lucky: Seq::new(key as nat, |i: int| 0i32),
                shift: shift as nat,
            }),
    {
        proof {
            vstd::bits::lemma_usize_pow2_no_overflow(shift as nat);
            vstd::bits::lemma_usize_shr_is_div(key, shift as usize);
        }
        let coarse_size = key >> shift;
        proof {
            lemma_bits_for_bound(n as int);
        }
        let r = PredictProb {
            prob1: fresh_models(key, n),
            prob2: fresh_models(coarse_size, n),
            lucky: zeros(key),
            shift,
            bits: Ghost(bits_for(n as int)),
            decodes: Ghost(0),
        };
        assert(r@.prob1 =~= Seq::new(key as nat, |i: int| fresh_tree(n as int)));
        assert(r@.prob2 =~= Seq::new(coarse_size as nat, |i: int| fresh_tree(n as int)));
        r
    }

    /// Decode a symbol in context `context`.
    pub fn decode(&mut self, entropy: &mut RangeDecoder, context: usize) -> (r: u32)
        requires
            old(self).wf(),
            old(entropy).wf(),
            context < old(self)@.prob1.len(),
            (context as int) / (pow2(old(self)@.shift) as int) < old(self)@.prob2.len(),
            old(self).decodes() < 0x7FFF_FFFF,
        ensures
            final(self).wf(),
            final(entropy).wf(),
            final(self).decodes() == old(self).decodes() + 1,
            (r, final(self)@, final(entropy).state()) == predict_decode(
                old(self)@,
                context as int,
                old(entropy).state(),
            ),
            final(self).symbol_bits() == old(self).symbol_bits(),
            r < pow2(old(self).symbol_bits()),
            final(self)@.prob1.len() == old(self)@.prob1.len(),
            final(self)@.prob2.len() == old(self)@.prob2.len(),
            final(self)@.shift == old(self)@.shift,
    {
        proof {
            vstd::bits::lemma_usize_pow2_no_overflow(self.shift as nat);
            vstd::bits::lemma_usize_shr_is_div(context, self.shift as usize);
        }
        let ghost m0 = self@;
        let ghost s0 = entropy.state();
        proof {
            reveal(predict_decode);
        }
        let coarse = context >> self.shift;
        assert(self.prob1@[context as int].wf());
        assert(self.prob2@[coarse as int].wf());
        let value = if self.lucky[context] >= 0 {
            let v = self.prob1[context].decode(entropy);
            self.prob2[coarse].update(v);
            v
        } else {
            let v = self.prob2[coarse].decode(entropy);
            self.prob1[context].update(v);
            v
        };
        let ghost fine = self.prob1@[context as int]@;
        let ghost crs = self.prob2@[coarse as int]@;
        proof {
            let c = context as int / pow2(m0.shift) as int;
            assert(c == coarse);
            if m0.lucky[context as int] >= 0 {
                let (v, t1, s1) = tree_symbol(m0.prob1[context as int], s0);
                assert(v == value && t1 == fine && s1 == entropy.state());
                assert(crs == tree_updated(m0.prob2[c], v));
            } else {
                let (v, t2, s1) = tree_symbol(m0.prob2[c], s0);
                assert(v == value && t2 == crs && s1 == entropy.state());
                assert(fine == tree_updated(m0.prob1[context as int], v));
            }
            assert(self@.prob1 =~= m0.prob1.update(context as int, fine));
            assert(self@.prob2 =~= m0.prob2.update(c, crs));
        }
        let r = EntropyBitProb::compare_with(&self.prob1[context], &self.prob2[coarse], value);
        if r > 0 {
            self.lucky.set(context, self.lucky[context] + 1);
        }
        if r < 0 {
            self.lucky.set(context, self.lucky[context] - 1);
        }
        assert(self.lucky@ =~= m0.lucky.update(context as int, rescore(m0.lucky[context as int], r)));
        self.decodes = Ghost(self.decodes@ + 1);
        value
    }
}

/// The leaf a tree walk reaches lies below the node it started from.
pub proof fn lemma_tree_decode_range(prob: Seq<u32>, node: int, left: nat, s: CoderState)
    requires
        node >= 0,
    ensures
        node * pow2(left) <= tree_decode(prob, node, left, s).0 < (node + 1) * pow2(left),
    decreases left,
{
    vstd::arithmetic::power2::lemma2_to64();
    if left > 0 {
        let (bit, s1) = boolean_step(s, prob[node] as int, EBP_TOTAL_BIT as nat);
        let next = 2 * node + bit;
        lemma_tree_decode_range(
            prob.update(node, adapt_tree(prob[node], bit)),
            next,
            (left - 1) as nat,
            s1,
        );
        vstd::arithmetic::power2::lemma_pow2_unfold(left);
        let p = pow2((left - 1) as nat) as int;
        assert(next * p >= node * (2 * p)) by (nonlinear_arith)
            requires
                next == 2 * node + bit,
                bit >= 0,
                p >= 0,
        ;
        assert((next + 1) * p <= (node + 1) * (2 * p)) by (nonlinear_arith)
            requires
                next == 2 * node + bit,
                bit <= 1,
                p >= 0,
        ;
    }
}

/// A decoded symbol has the model's number of bits.
pub proof fn lemma_tree_symbol_range(m: TreeModel, s: CoderState)
    requires
        m.bit_n <= 30,
    ensures
        tree_symbol(m, s).0 < pow2(m.bit_n),
        tree_symbol(m, s).0 == tree_decode(m.prob, 1, m.bit_n, s).0 - pow2(m.bit_n),
{
    lemma_tree_decode_range(m.prob, 1, m.bit_n, s);
    vstd::arithmetic::power2::lemma2_to64();
    if m.bit_n < 30 {
        vstd::arithmetic::power2::lemma_pow2_strictly_increases(m.bit_n, 30);
    }
}

/// Walking down from `node` with `left` levels to go, the walk that decoding
/// takes and the walk that updating with the symbol decoded take adapt the
/// same nodes the same way.
proof fn lemma_update_follows_decode(prob: Seq<u32>, node: int, left: nat, s: CoderState, v: u32)
    requires
        node >= 0,
        tree_decode(prob, node, left, s).0 == node * pow2(left) + (v as int) % (pow2(left) as int),
    ensures
        tree_update(prob, node, v, left) == tree_decode(prob, node, left, s).1,
    decreases left,
{
    if left > 0 {
        let l1 = (left - 1) as nat;
        let (bit, s1) = boolean_step(s, prob[node] as int, EBP_TOTAL_BIT as nat);
        let prob1 = prob.update(node, adapt_tree(prob[node], bit));
        let next = 2 * node + bit;
        let leaf = tree_decode(prob, node, left, s).0;
        assert(leaf == tree_decode(prob1, next, l1, s1).0);
        lemma_tree_decode_range(prob1, next, l1, s1);
        lemma_path_bit(leaf, node, next, left, v);
        lemma_update_follows_decode(prob1, next, l1, s1, v);
    }
}

/// The next node of a walk that ends at `leaf = node * 2^left + (v mod
/// 2^left)` follows bit `left - 1` of `v`.
proof fn lemma_path_bit(leaf: int, node: int, next: int, left: nat, v: u32)
    requires
        left >= 1,
        node >= 0,
        leaf == node * pow2(left) + (v as int) % (pow2(left) as int),
        next * pow2((left - 1) as nat) <= leaf < (next + 1) * pow2((left - 1) as nat),
    ensures
        next == 2 * node + bit_of(v, (left - 1) as nat),
        leaf == next * pow2((left - 1) as nat) + (v as int) % (pow2((left - 1) as nat) as int),
{
    let l1 = (left - 1) as nat;
    let p = pow2(l1) as int;
    vstd::arithmetic::power2::lemma_pow2_pos(l1);
    vstd::arithmetic::power2::lemma_pow2_unfold(left);
    vstd::arithmetic::div_mod::lemma_mod_breakdown(v as int, p, 2);
    let b = bit_of(v, l1);
    let r = (v as int) % p;
    assert(p * 2 == pow2(left));
    assert((v as int) % (pow2(left) as int) == p * b + r);
    vstd::arithmetic::div_mod::lemma_mod_pos_bound(v as int, p);
    assert(leaf == (2 * node + b) * p + r) by (nonlinear_arith)
        requires
            leaf == node * (p * 2) + (p * b + r),
    ;
    assert((next + 1) * p == next * p + p) by (nonlinear_arith);
    vstd::arithmetic::div_mod::lemma_fundamental_div_mod_converse(leaf, p, 2 * node + b, r);
    vstd::arithmetic::div_mod::lemma_fundamental_div_mod_converse(leaf, p, next, leaf - next * p);
}

/// Law: adapting a tree model to the symbol it has just decoded adapts it
/// exactly as decoding that symbol did.
pub proof fn lemma_update_after_decode(m: TreeModel, s: CoderState)
    requires
        tree_model_wf(m),
    ensures
        tree_updated(m, tree_symbol(m, s).0) == tree_symbol(m, s).1,
{
    lemma_tree_symbol_range(m, s);
    let v = tree_symbol(m, s).0;
    vstd::arithmetic::div_mod::lemma_small_mod(v as nat, pow2(m.bit_n));
    lemma_update_follows_decode(m.prob, 1, m.bit_n, s, v);
}

/// The node a walk from `node` along the low `left` bits of `value` passes
/// `k` levels down.
pub open spec fn walk_node(node: int, value: u32, left: nat, k: nat) -> int {
    node * pow2(k) + ((value as int) % (pow2(left) as int)) / (pow2((left - k) as nat) as int)
}

/// One level down, the walk from the next node is the same walk.
proof fn lemma_walk_node_next(node: int, value: u32, left: nat, k: nat)
    requires
        left >= 1,
        k < left,
    ensures
        walk_node(2 * node + bit_of(value, (left - 1) as nat), value, (left - 1) as nat, k)
            == walk_node(node, value, left, k + 1),
        walk_node(node, value, left, 0) == node,
{
    let l1 = (left - 1) as nat;
    let b = bit_of(value, l1);
    let p = pow2(l1) as int;
    let d = pow2((l1 - k) as nat) as int;
    let pk = pow2(k) as int;
    vstd::arithmetic::power2::lemma_pow2_pos(l1);
    vstd::arithmetic::power2::lemma_pow2_pos((l1 - k) as nat);
    vstd::arithmetic::power2::lemma_pow2_pos(k);
    vstd::arithmetic::power2::lemma_pow2_pos(left);
    vstd::arithmetic::power2::lemma_pow2_unfold(left);
    vstd::arithmetic::power2::lemma_pow2_unfold(k + 1);
    vstd::arithmetic::power2::lemma_pow2_adds(k, (l1 - k) as nat);
    vstd::arithmetic::div_mod::lemma_mod_breakdown(value as int, p, 2);
    let r = (value as int) % p;
    vstd::arithmetic::div_mod::lemma_mod_pos_bound(value as int, p);
    assert((value as int) % (pow2(left) as int) == p * b + r) by {
        assert(p * 2 == pow2(left));
    }
    let q = r / d;
    let m = r % d;
    vstd::arithmetic::div_mod::lemma_fundamental_div_mod(r, d);
    vstd::arithmetic::div_mod::lemma_mod_pos_bound(r, d);
    assert(p * b + r == (b * pk + q) * d + m) by (nonlinear_arith)
        requires
            p == pk * d,
            r == d * q + m,
    ;
    vstd::arithmetic::div_mod::lemma_fundamental_div_mod_converse(p * b + r, d, b * pk + q, m);
    assert((left - (k + 1)) as nat == (l1 - k) as nat);
    assert((2 * node + b) * pk + q == node * (2 * pk) + (b * pk + q)) by (nonlinear_arith);
    vstd::arithmetic::power2::lemma2_to64();
    assert(((value as int) % (pow2(left) as int)) / (pow2(left) as int) == 0) by {
        vstd::arithmetic::div_mod::lemma_mod_pos_bound(value as int, pow2(left) as int);
        vstd::arithmetic::div_mod::lemma_basic_div(
            (value as int) % (pow2(left) as int),
            pow2(left) as int,
        );
    }
}

/// A walk that fits the table before a step still fits it after.
proof fn lemma_walk_fits(node: int, b: u32, left: nat, len: int)
    requires
        node >= 0,
        b <= 1,
        left >= 1,
        (node + 1) * pow2((left - 1) as nat) <= len,
    ensures
        0 <= node < len,
        left >= 2 ==> (2 * node + b + 1) * pow2((left - 2) as nat) <= len,
{
    vstd::arithmetic::power2::lemma_pow2_pos((left - 1) as nat);
    assert(node + 1 <= (node + 1) * pow2((left - 1) as nat)) by (nonlinear_arith)
        requires
            node >= 0,
            pow2((left - 1) as nat) >= 1,
    ;
    if left >= 2 {
        vstd::arithmetic::power2::lemma_pow2_unfold((left - 1) as nat);
        let q = pow2((left - 2) as nat) as int;
        assert((2 * node + b + 1) * q <= (node + 1) * (2 * q)) by (nonlinear_arith)
            requires
                b <= 1,
                q >= 0,
                node >= 0,
        ;
    }
}

/// Updating along a walk adapts each node passed to the bit it passes with
/// and leaves every other entry as it was.
proof fn lemma_tree_update_frame(prob: Seq<u32>, node: int, value: u32, left: nat)
    requires
        node >= 1,
        left >= 1 ==> (node + 1) * pow2((left - 1) as nat) <= prob.len(),
    ensures
        tree_update(prob, node, value, left).len() == prob.len(),
        forall|i: int|
            0 <= i < prob.len() && (forall|k: nat| k < left ==> i != walk_node(node, value, left, k))
                ==> #[trigger] tree_update(prob, node, value, left)[i] == prob[i],
        forall|k: nat|
            k < left && 0 <= #[trigger] walk_node(node, value, left, k) < prob.len() ==> tree_update(
                prob,
                node,
                value,
                left,
            )[walk_node(node, value, left, k)] == adapt_tree(
                prob[walk_node(node, value, left, k)],
                bit_of(value, (left - 1 - k) as nat),
            ),
    decreases left,
{
    if left > 0 {
        let l1 = (left - 1) as nat;
        let b = bit_of(value, l1);
        let prob1 = prob.update(node, adapt_tree(prob[node], b));
        let next = 2 * node + b;
        let res = tree_update(prob, node, value, left);
        assert(res == tree_update(prob1, next, value, l1));
        lemma_walk_fits(node, b, left, prob.len() as int);
        lemma_tree_update_frame(prob1, next, value, l1);
        assert forall|k: nat| k < left implies walk_node(node, value, left, k) >= node * pow2(k) by {
            vstd::arithmetic::power2::lemma_pow2_pos((left - k) as nat);
            vstd::arithmetic::power2::lemma_pow2_pos(left);
            vstd::arithmetic::div_mod::lemma_mod_pos_bound(value as int, pow2(left) as int);
            vstd::arithmetic::div_mod::lemma_div_pos_is_pos(
                (value as int) % (pow2(left) as int),
                pow2((left - k) as nat) as int,
            );
        }
        assert forall|k: nat| k < l1 implies walk_node(next, value, l1, k) == walk_node(
            node,
            value,
            left,
            k + 1,
        ) && walk_node(next, value, l1, k) > node by {
            lemma_walk_node_next(node, value, left, k);
            vstd::arithmetic::power2::lemma_pow2_pos(k + 1);
            vstd::arithmetic::power2::lemma_pow2_unfold(k + 1);
            assert(node * pow2(k + 1) > node) by (nonlinear_arith)
                requires
                    node >= 1,
                    pow2(k + 1) == 2 * pow2(k),
                    pow2(k) >= 1,
            ;
        }
        lemma_walk_node_next(node, value, left, 0);
        assert forall|i: int|
            0 <= i < prob.len() && (forall|k: nat| k < left ==> i != walk_node(node, value, left, k))
                implies #[trigger] res[i] == prob[i] by {
            assert(i != walk_node(node, value, left, 0));
            assert forall|k: nat| k < l1 implies i != walk_node(next, value, l1, k) by {
                assert(i != walk_node(node, value, left, k + 1));
            }
        }
        assert forall|k: nat|
            k < left && 0 <= #[trigger] walk_node(node, value, left, k) < prob.len() implies res[walk_node(
            node,
            value,
            left,
            k,
        )] == adapt_tree(prob[walk_node(node, value, left, k)], bit_of(value, (left - 1 - k) as nat)) by {
            if k == 0 {
                assert forall|j: nat| j < l1 implies node != walk_node(next, value, l1, j) by {}
            } else {
                let j = (k - 1) as nat;
                assert(walk_node(next, value, l1, j) == walk_node(node, value, left, k));
                assert((l1 - 1 - j) as nat == (left - 1 - k) as nat);
            }
        }
    }
}

/// Updating along any walk keeps every probability within its range.
proof fn lemma_tree_update_bounds(prob: Seq<u32>, node: int, value: u32, left: nat)
    requires
        node >= 0,
        left >= 1 ==> (node + 1) * pow2((left - 1) as nat) <= prob.len(),
        forall|i: int| 0 <= i < prob.len() ==> TREE_MIN_PROB <= #[trigger] prob[i] <= TREE_MAX_PROB,
    ensures
        tree_update(prob, node, value, left).len() == prob.len(),
        forall|i: int|
            0 <= i < prob.len() ==> TREE_MIN_PROB <= #[trigger] tree_update(prob, node, value, left)[i]
                <= TREE_MAX_PROB,
    decreases left,
{
    if left > 0 {
        let b = bit_of(value, (left - 1) as nat);
        lemma_walk_fits(node, b, left, prob.len() as int);
        lemma_tree_prob_bounds(prob[node], b);
        let prob1 = prob.update(node, adapt_tree(prob[node], b));
        lemma_tree_update_bounds(prob1, 2 * node + b, value, (left - 1) as nat);
    }
}

/// Two symbols that agree on the low `left` bits update alike.
proof fn lemma_tree_update_low_bits(prob: Seq<u32>, node: int, v: u32, w: u32, left: nat)
    requires
        forall|k: nat| k < left ==> #[trigger] bit_of(v, k) == bit_of(w, k),
    ensures
        tree_update(prob, node, v, left) == tree_update(prob, node, w, left),
    decreases left,
{
    if left > 0 {
        let b = bit_of(v, (left - 1) as nat);
        assert(b == bit_of(w, (left - 1) as nat));
        lemma_tree_update_low_bits(
            prob.update(node, adapt_tree(prob[node], b)),
            2 * node + b,
            v,
            w,
            (left - 1) as nat,
        );
    }
}

/// Reducing a value modulo 2^n keeps its low `n` bits.
proof fn lemma_bit_of_mod(v: u32, n: nat, k: nat)
    requires
        k < n,
        n <= 32,
    ensures
        bit_of(((v as int) % (pow2(n) as int)) as u32, k) == bit_of(v, k),
{
    let pk = pow2(k) as int;
    let d = pow2((n - k) as nat) as int;
    vstd::arithmetic::power2::lemma_pow2_pos(k);
    vstd::arithmetic::power2::lemma_pow2_pos((n - k) as nat);
    vstd::arithmetic::power2::lemma_pow2_adds(k, (n - k) as nat);
    vstd::arithmetic::power2::lemma_pow2_unfold((n - k) as nat);
    let x = (v as int) % (pow2(n) as int);
    vstd::arithmetic::power2::lemma_pow2_pos(n);
    vstd::arithmetic::div_mod::lemma_mod_pos_bound(v as int, pow2(n) as int);
    vstd::arithmetic::div_mod::lemma_mod_breakdown(v as int, pk, d);
    let q = (v as int / pk) % d;
    let m = (v as int) % pk;
    vstd::arithmetic::div_mod::lemma_mod_pos_bound(v as int, pk);
    vstd::arithmetic::div_mod::lemma_fundamental_div_mod_converse(x, pk, q, m);
    vstd::arithmetic::div_mod::lemma_mod_mod(v as int / pk, 2, pow2((n - k - 1) as nat) as int);
    assert(d == 2 * pow2((n - k - 1) as nat));
    assert(x < 0x1_0000_0000) by {
        vstd::arithmetic::power2::lemma2_to64();
        if n < 32 {
            vstd::arithmetic::power2::lemma_pow2_strictly_increases(n, 32);
        }
    }
}

/// Law: adapting a well-formed tree model to a symbol keeps every
/// probability within its range, changes only the node at each level of the
/// walk along the symbol's low `bit_n` bits (raising it for a zero bit and
/// lowering it for a one), leaves every other node as it was, and depends
/// on those low bits alone.
pub proof fn lemma_update_law(m: TreeModel, value: u32)
    requires
        tree_model_wf(m),
    ensures
        tree_model_wf(tree_updated(m, value)),
        forall|k: nat|
            k < m.bit_n ==> 0 < #[trigger] walk_node(1, value, m.bit_n, k) < m.prob.len(),
        forall|k: nat|
            k < m.bit_n ==> tree_updated(m, value).prob[#[trigger] walk_node(1, value, m.bit_n, k)]
                == adapt_tree(
                m.prob[walk_node(1, value, m.bit_n, k)],
                bit_of(value, (m.bit_n - 1 - k) as nat),
            ),
        forall|i: int|
            0 <= i < m.prob.len() && (forall|k: nat| k < m.bit_n ==> i != walk_node(1, value, m.bit_n, k))
                ==> #[trigger] tree_updated(m, value).prob[i] == m.prob[i],
        tree_updated(m, value) == tree_updated(
            m,
            ((value as int) % (pow2(m.bit_n) as int)) as u32,
        ),
{
    let n = m.bit_n;
    if n >= 1 {
        vstd::arithmetic::power2::lemma_pow2_unfold(n);
    }
    lemma_tree_update_bounds(m.prob, 1, value, n);
    lemma_tree_update_frame(m.prob, 1, value, n);
    assert forall|k: nat| k < n implies 0 < #[trigger] walk_node(1, value, n, k) < m.prob.len() by {
        let pk = pow2(k) as int;
        let d = pow2((n - k) as nat) as int;
        let x = (value as int) % (pow2(n) as int);
        vstd::arithmetic::power2::lemma_pow2_pos(k);
        vstd::arithmetic::power2::lemma_pow2_pos((n - k) as nat);
        vstd::arithmetic::power2::lemma_pow2_pos(n);
        vstd::arithmetic::power2::lemma_pow2_adds(k, (n - k) as nat);
        vstd::arithmetic::div_mod::lemma_mod_pos_bound(value as int, pow2(n) as int);
        vstd::arithmetic::div_mod::lemma_fundamental_div_mod(x, d);
        vstd::arithmetic::div_mod::lemma_mod_pos_bound(x, d);
        vstd::arithmetic::div_mod::lemma_div_pos_is_pos(x, d);
        assert(x / d < pk) by (nonlinear_arith)
            requires
                x == d * (x / d) + x % d,
                x % d >= 0,
                x < pk * d,
                d > 0,
        ;
        if k + 1 < n {
            vstd::arithmetic::power2::lemma_pow2_strictly_increases(k + 1, n);
        }
        vstd::arithmetic::power2::lemma_pow2_unfold(k + 1);
        assert(1 * pk == pk);
    }
    assert forall|k: nat| k < n implies #[trigger] bit_of(value, k) == bit_of(
        ((value as int) % (pow2(n) as int)) as u32,
        k,
    ) by {
        lemma_bit_of_mod(value, n, k);
    }
    lemma_tree_update_low_bits(m.prob, 1, value, ((value as int) % (pow2(n) as int)) as u32, n);
}

/// Law: a two-level model decodes a symbol in context `ctx` with the fine
/// model of that context while the context's score is not negative (a
/// context never decoded before has score 0), and with its coarse model
/// otherwise; the decoder moves on as the decoding model's read leaves it.
/// Both models end adapted to the symbol, as `update` with it would adapt
/// them, other contexts are untouched, and the score moves by one toward the
/// model that, so adapted, gives the symbol the higher likelihood.
pub proof fn lemma_predict_decode_law(m: PredictModel, ctx: int, s: CoderState)
    requires
        0 <= ctx < m.prob1.len(),
        m.lucky.len() == m.prob1.len(),
        ctx / (pow2(m.shift) as int) < m.prob2.len(),
        tree_model_wf(m.prob1[ctx]),
        tree_model_wf(m.prob2[ctx / (pow2(m.shift) as int)]),
        i32::MIN < m.lucky[ctx] < i32::MAX,
    ensures
        ({
            let c = ctx / (pow2(m.shift) as int);
            let (v, m2, s2) = predict_decode(m, ctx, s);
            let fine = tree_updated(m.prob1[ctx], v);
            let coarse = tree_updated(m.prob2[c], v);
            let r = compare_models(fine, coarse, v);
            &&& m.lucky[ctx] >= 0 ==> v == tree_symbol(m.prob1[ctx], s).0 && s2 == tree_symbol(
                m.prob1[ctx],
                s,
            ).2
            &&& m.lucky[ctx] < 0 ==> v == tree_symbol(m.prob2[c], s).0 && s2 == tree_symbol(
                m.prob2[c],
                s,
            ).2
            &&& m2.prob1 == m.prob1.update(ctx, fine)
            &&& m2.prob2 == m.prob2.update(c, coarse)
            &&& m2.shift == m.shift
            &&& m2.lucky.len() == m.lucky.len()
            &&& forall|k: int| 0 <= k < m.lucky.len() && k != ctx ==> m2.lucky[k] == m.lucky[k]
            &&& m2.lucky[ctx] == m.lucky[ctx] + if r > 0 {
                1int
            } else if r < 0 {
                -1int
            } else {
                0int
            }
        }),
{
    reveal(predict_decode);
    let c = ctx / (pow2(m.shift) as int);
    lemma_update_after_decode(m.prob1[ctx], s);
    lemma_update_after_decode(m.prob2[c], s);
}

/// Every tree of a two-level model has `bits` bits per symbol.
pub open spec fn predict_trees_have(m: PredictModel, bits: nat) -> bool {
    &&& forall|i: int| 0 <= i < m.prob1.len() ==> (#[trigger] m.prob1[i]).bit_n == bits
    &&& forall|i: int| 0 <= i < m.prob2.len() ==> (#[trigger] m.prob2[i]).bit_n == bits
}

/// A symbol a two-level model decodes has its trees' number of bits.
pub proof fn lemma_predict_value_range(m: PredictModel, ctx: int, s: CoderState, bits: nat)
    requires
        predict_trees_have(m, bits),
        bits <= 30,
        0 <= ctx < m.prob1.len(),
        ctx / (pow2(m.shift) as int) < m.prob2.len(),
    ensures
        predict_decode(m, ctx, s).0 < pow2(bits),
{
    reveal(predict_decode);
    let c = ctx / pow2(m.shift) as int;
    vstd::arithmetic::power2::lemma_pow2_pos(m.shift);
    vstd::arithmetic::div_mod::lemma_div_pos_is_pos(ctx, pow2(m.shift) as int);
    lemma_tree_symbol_range(m.prob1[ctx], s);
    lemma_tree_symbol_range(m.prob2[c], s);
}

/// Law: a binary model's probability of zero rises after a zero and falls
/// after a one, staying within `[BOOL_MIN_PROB, BOOL_MAX_PROB]`.
pub proof fn lemma_adapt_bool(p: u32)
    requires
        BOOL_MIN_PROB <= p <= BOOL_MAX_PROB,
    ensures
        p <= adapt_bool(p, 0) <= BOOL_MAX_PROB,
        BOOL_MIN_PROB <= adapt_bool(p, 1) <= p,
        adapt_bool(p, 1) <= p,
{
}

/// Law: a tree node's probability of zero rises after a zero and falls
/// after a one, staying within `[TREE_MIN_PROB, TREE_MAX_PROB]`.
pub proof fn lemma_adapt_tree(p: u32)
    requires
        TREE_MIN_PROB <= p <= TREE_MAX_PROB,
    ensures
        p <= adapt_tree(p, 0) <= TREE_MAX_PROB,
        TREE_MIN_PROB <= adapt_tree(p, 1) <= p,
        adapt_tree(p, 1) <= p,
{
}

} // verus!
