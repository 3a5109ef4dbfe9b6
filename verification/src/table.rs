//! Code tables for AZO distance and length coding.
use vstd::prelude::*;
use vstd::arithmetic::power2::pow2;

verus! {

pub const MATCH_MIN_LENGTH: u32 = 2;
pub const MATCH_MIN_DIST: u32 = 1;
pub const MATCH_LENGTH_SGAP: u32 = 32;
pub const MATCH_LENGTH_GAP: u32 = 8;
pub const MATCH_DIST_SGAP: u32 = 16;
pub const MATCH_DIST_GAP: u32 = 4;
/// The number of codes in each table.
pub const CODE_SIZE: usize = 128;

/// Extra bits of code `i`: none for the first `sgap` codes, then one more for
/// every `gap` codes.
pub open spec fn code_extra_bits(i: int, sgap: int, gap: int) -> nat {
    if i < sgap {
        0
    } else {
        ((i - sgap) / gap) as nat
    }
}

/// Base value of code `i`: `min` for code 0, then each code starts where the
/// range of the one before it ends.
pub open spec fn code_base(i: int, min: int, sgap: int, gap: int) -> int
    decreases i,
{
    if i <= 0 {
        min
    } else {
        code_base(i - 1, min, sgap, gap) + pow2(code_extra_bits(i - 1, sgap, gap))
    }
}

/// Whether `s` never decreases.
pub open spec fn is_sorted(s: Seq<u32>) -> bool {
    forall|i: int, j: int| 0 <= i <= j < s.len() ==> s[i] <= s[j]
}

/// Whether `s` strictly increases.
pub open spec fn is_strictly_increasing(s: Seq<u32>) -> bool {
    forall|i: int, j: int| 0 <= i < j < s.len() ==> s[i] < s[j]
}

/// The index of the last of the first `n` entries that does not exceed
/// `value`, or 0 when there is none.
pub open spec fn last_at_most(base: Seq<u32>, value: u32, n: int) -> int
    decreases n,
{
    if n <= 0 {
        0
    } else if base[n - 1] <= value {
        n - 1
    } else {
        last_at_most(base, value, n - 1)
    }
}

/// The code whose bucket holds `value`.
pub open spec fn code_index(base: Seq<u32>, value: u32) -> int {
    last_at_most(base, value, base.len() as int)
}

/// A table of code bases and their extra-bit counts.
pub struct CodeTable {
    pub base: Vec<u32>,
    pub extra_bits: Vec<u32>,
}

impl CodeTable {
    /// Whether the table is the one built from `min`, `sgap` and `gap`.
    pub open spec fn is_table(&self, min: int, sgap: int, gap: int) -> bool {
        &&& self.base@.len() == CODE_SIZE
        &&& self.extra_bits@.len() == CODE_SIZE
        &&& forall|i: int| 0 <= i < CODE_SIZE ==> self.base@[i] == code_base(i, min, sgap, gap)
        &&& forall|i: int|
            0 <= i < CODE_SIZE ==> self.extra_bits@[i] == code_extra_bits(i, sgap, gap)
    }

    /// Whether the table is the match-length table.
    pub open spec fn is_length_table(&self) -> bool {
        self.is_table(MATCH_MIN_LENGTH as int, MATCH_LENGTH_SGAP as int, MATCH_LENGTH_GAP as int)
    }

    /// Whether the table is the match-distance table.
    pub open spec fn is_dist_table(&self) -> bool {
        self.is_table(MATCH_MIN_DIST as int, MATCH_DIST_SGAP as int, MATCH_DIST_GAP as int)
    }

    /// The match-length table.
    pub fn build_length_table() -> (t: Self)
        ensures
            t.is_length_table(),
    {
        proof {
            vstd::arithmetic::power2::lemma2_to64();
        }
        build(MATCH_MIN_LENGTH, MATCH_LENGTH_SGAP, MATCH_LENGTH_GAP)
    }

    /// The match-distance table.
    pub fn build_dist_table() -> (t: Self)
        ensures
            t.is_dist_table(),
    {
        proof {
            vstd::arithmetic::power2::lemma2_to64();
        }
        build(MATCH_MIN_DIST, MATCH_DIST_SGAP, MATCH_DIST_GAP)
    }

    /// Code index whose bucket contains `value`: the last entry of `base` that
    /// does not exceed it (0 when every entry exceeds it).
    pub fn code_for(&self, value: u32) -> (r: usize)
        requires
            is_sorted(self.base@),
        ensures
            r == code_index(self.base@, value),
    {
        // Find the first entry that exceeds `value`.
        let mut lo: usize = 0;
        let mut hi: usize = self.base.len();
        while lo < hi
            invariant
                lo <= hi <= self.base@.len(),
                is_sorted(self.base@),
                forall|j: int| 0 <= j < lo ==> self.base@[j] <= value,
                forall|j: int| hi <= j < self.base@.len() ==> self.base@[j] > value,
            decreases hi - lo,
        {
            let mid = lo + (hi - lo) / 2;
            if self.base[mid] <= value {
                lo = mid + 1;
            } else {
                hi = mid;
            }
        }
        proof {
            lemma_last_at_most_split(self.base@, value, lo as int, self.base@.len() as int);
        }
        if lo == 0 {
            0
        } else {
            lo - 1
        }
    }
}

proof fn lemma_last_at_most_split(base: Seq<u32>, value: u32, p: int, n: int)
    requires
        0 <= p <= n <= base.len(),
        forall|j: int| 0 <= j < p ==> base[j] <= value,
        forall|j: int| p <= j < base.len() ==> base[j] > value,
    ensures
        last_at_most(base, value, n) == if p == 0 {
            0
        } else {
            p - 1
        },
    decreases n,
{
    if n > p {
        lemma_last_at_most_split(base, value, p, n - 1);
    }
}

/// Closed form of the base values.
proof fn lemma_code_base_closed(i: int, min: int, sgap: int, gap: int)
    requires
        0 <= i,
        1 <= sgap,
        1 <= gap,
    ensures
        i <= sgap ==> code_base(i, min, sgap, gap) == min + i,
        i >= sgap ==> code_base(i, min, sgap, gap) == min + sgap + gap * (pow2(
            code_extra_bits(i, sgap, gap),
        ) - 1) + ((i - sgap) % gap) * pow2(code_extra_bits(i, sgap, gap)),
    decreases i,
{
    vstd::arithmetic::power2::lemma2_to64();
    if i > 0 {
        lemma_code_base_closed(i - 1, min, sgap, gap);
        if i == sgap {
            assert(code_extra_bits(i - 1, sgap, gap) == 0);
            assert(code_extra_bits(i, sgap, gap) == 0) by {
                vstd::arithmetic::div_mod::lemma_fundamental_div_mod_converse(0, gap, 0, 0);
            }
            assert(((i - sgap) % gap) == 0) by {
                vstd::arithmetic::div_mod::lemma_fundamental_div_mod_converse(0, gap, 0, 0);
            }
        } else if i > sgap {
            let x = i - 1 - sgap;
            let k = x / gap;
            let r = x % gap;
            vstd::arithmetic::div_mod::lemma_fundamental_div_mod(x, gap);
            assert(0 <= r < gap);
            assert(k >= 0) by {
                vstd::arithmetic::div_mod::lemma_div_pos_is_pos(x, gap);
            }
            let pk = pow2(k as nat);
            assert(code_extra_bits(i - 1, sgap, gap) == k);
            if r + 1 < gap {
                assert(x + 1 == k * gap + (r + 1)) by (nonlinear_arith)
                    requires
                        x == gap * k + r,
                ;
                vstd::arithmetic::div_mod::lemma_fundamental_div_mod_converse(x + 1, gap, k, r + 1);
                assert(code_extra_bits(i, sgap, gap) == k);
                assert(r * pk + pk == (r + 1) * pk) by (nonlinear_arith);
            } else {
                assert(x + 1 == (k + 1) * gap + 0) by (nonlinear_arith)
                    requires
                        x == gap * k + r,
                        r + 1 == gap,
                ;
                vstd::arithmetic::div_mod::lemma_fundamental_div_mod_converse(x + 1, gap, k + 1, 0);
                assert(code_extra_bits(i, sgap, gap) == k + 1);
                vstd::arithmetic::power2::lemma_pow2_unfold((k + 1) as nat);
                assert(gap * (pk - 1) + r * pk + pk == gap * (2 * pk - 1) + 0 * (2 * pk))
                    by (nonlinear_arith)
                    requires
                        r + 1 == gap,
                ;
            }
        }
    }
}

/// Bound on the base values, for overflow.
pub proof fn lemma_code_base_bound(i: int, min: int, sgap: int, gap: int)
    requires
        0 <= i,
        1 <= sgap,
        1 <= gap,
        0 <= min,
    ensures
        min <= code_base(i, min, sgap, gap) <= min + sgap + 2 * gap * pow2(
            code_extra_bits(i, sgap, gap),
        ),
{
    lemma_code_base_closed(i, min, sgap, gap);
    let e = code_extra_bits(i, sgap, gap);
    vstd::arithmetic::power2::lemma_pow2_pos(e);
    if i >= sgap {
        let r = (i - sgap) % gap;
        let pk = pow2(e);
        assert(gap * (pk - 1) + r * pk <= 2 * gap * pk) by (nonlinear_arith)
            requires
                0 <= r < gap,
                pk >= 1,
        ;
        assert(gap * (pk - 1) + r * pk >= 0) by (nonlinear_arith)
            requires
                0 <= r < gap,
                pk >= 1,
        ;
    }
}

/// Later codes never have fewer extra bits.
pub proof fn lemma_extra_bits_monotone(i: int, j: int, sgap: int, gap: int)
    requires
        i <= j,
        1 <= gap,
    ensures
        code_extra_bits(i, sgap, gap) <= code_extra_bits(j, sgap, gap),
{
    if i >= sgap {
        vstd::arithmetic::div_mod::lemma_div_is_ordered(i - sgap, j - sgap, gap);
    }
}

/// Build the table for `min`, `sgap` and `gap`.
fn build(min: u32, sgap: u32, gap: u32) -> (t: CodeTable)
    requires
        1 <= sgap <= 127,
        1 <= gap,
        code_extra_bits(127, sgap as int, gap as int) < 31,
        min + sgap + 2 * gap * pow2(code_extra_bits(127, sgap as int, gap as int)) < 0x1_0000_0000,
    ensures
        t.is_table(min as int, sgap as int, gap as int),
{
    let mut base: Vec<u32> = Vec::new();
    let mut extra_bits: Vec<u32> = Vec::new();
    base.push(min);
    extra_bits.push(0);
    let mut i: usize = 1;
    while i < CODE_SIZE
        invariant
            1 <= i <= CODE_SIZE,
            1 <= sgap <= 127,
            1 <= gap,
            code_extra_bits(127, sgap as int, gap as int) < 31,
            min + sgap + 2 * gap * pow2(code_extra_bits(127, sgap as int, gap as int))
                < 0x1_0000_0000,
            base@.len() == i,
            extra_bits@.len() == i,
            forall|j: int|
                0 <= j < i ==> base@[j] == code_base(j, min as int, sgap as int, gap as int)
                    && extra_bits@[j] == code_extra_bits(j, sgap as int, gap as int),
        decreases CODE_SIZE - i,
    {
        let eb = if (i as u32) < sgap {
            0
        } else {
            ((i as u32) - sgap) / gap
        };
        let prev_eb = extra_bits[i - 1];
        proof {
            lemma_extra_bits_monotone(i - 1, 127, sgap as int, gap as int);
            lemma_extra_bits_monotone(i as int, 127, sgap as int, gap as int);
            lemma_code_base_bound(i as int, min as int, sgap as int, gap as int);
            if code_extra_bits(i as int, sgap as int, gap as int) < code_extra_bits(
                127,
                sgap as int,
                gap as int,
            ) {
                vstd::arithmetic::power2::lemma_pow2_strictly_increases(
                    code_extra_bits(i as int, sgap as int, gap as int),
                    code_extra_bits(127, sgap as int, gap as int),
                );
            }
            vstd::bits::lemma_u32_pow2_no_overflow(prev_eb as nat);
            vstd::bits::lemma_u32_shl_is_mul(1, prev_eb);
            assert(2 * gap * pow2(code_extra_bits(i as int, sgap as int, gap as int)) <= 2 * gap * pow2(
                code_extra_bits(127, sgap as int, gap as int),
            )) by (nonlinear_arith)
                requires
                    pow2(code_extra_bits(i as int, sgap as int, gap as int)) <= pow2(
                        code_extra_bits(127, sgap as int, gap as int),
                    ),
                    gap >= 1,
            ;
        }
        extra_bits.push(eb);
        let b = base[i - 1] + (1u32 << prev_eb);
        base.push(b);
        i += 1;
    }
    CodeTable { base, extra_bits }
}

/// Law: each table's bases strictly increase.
pub proof fn lemma_code_base_increasing(i: int, j: int, min: int, sgap: int, gap: int)
    requires
        0 <= i < j,
    ensures
        code_base(i, min, sgap, gap) < code_base(j, min, sgap, gap),
    decreases j,
{
    vstd::arithmetic::power2::lemma_pow2_pos(code_extra_bits(j - 1, sgap, gap));
    if i < j - 1 {
        lemma_code_base_increasing(i, j - 1, min, sgap, gap);
    }
}

/// Every code's range ends at or before the end of the last code's range:
/// `base(i) + 2^extra(i) <= base(128)`.
pub proof fn lemma_code_range_end(i: int, min: int, sgap: int, gap: int)
    requires
        0 <= i < CODE_SIZE,
    ensures
        code_base(i, min, sgap, gap) + pow2(code_extra_bits(i, sgap, gap)) <= code_base(
            CODE_SIZE as int,
            min,
            sgap,
            gap,
        ),
{
    assert(code_base(i + 1, min, sgap, gap) == code_base(i, min, sgap, gap) + pow2(
        code_extra_bits(i, sgap, gap),
    ));
    if i + 1 < CODE_SIZE {
        lemma_code_base_increasing(i + 1, CODE_SIZE as int, min, sgap, gap);
    }
}

/// Where the length table's and the distance table's ranges end.
pub proof fn lemma_table_ends()
    ensures
        code_base(
            CODE_SIZE as int,
            MATCH_MIN_LENGTH as int,
            MATCH_LENGTH_SGAP as int,
            MATCH_LENGTH_GAP as int,
        ) == 32794,
        code_base(
            CODE_SIZE as int,
            MATCH_MIN_DIST as int,
            MATCH_DIST_SGAP as int,
            MATCH_DIST_GAP as int,
        ) == 0x4000_000D,
{
    vstd::arithmetic::power2::lemma2_to64();
    lemma_code_base_closed(128, 2, 32, 8);
    lemma_code_base_closed(128, 1, 16, 4);
    assert(code_extra_bits(128, 32, 8) == 12);
    assert(code_extra_bits(128, 16, 4) == 28);
    assert((128 - 32) % 8 == 0);
    assert((128 - 16) % 4 == 0);
}

/// Law: a built table's bases strictly increase, so it is sorted.
pub proof fn lemma_table_increasing(t: &CodeTable, min: int, sgap: int, gap: int)
    requires
        t.is_table(min, sgap, gap),
    ensures
        is_strictly_increasing(t.base@),
        is_sorted(t.base@),
{
    assert forall|i: int, j: int| 0 <= i < j < t.base@.len() implies t.base@[i] < t.base@[j] by {
        lemma_code_base_increasing(i, j, min, sgap, gap);
    }
}

/// Law: in a strictly increasing table, the code for a base value is that
/// base's own index.
pub proof fn lemma_code_index_of_base(base: Seq<u32>, i: int)
    requires
        is_strictly_increasing(base),
        0 <= i < base.len(),
    ensures
        code_index(base, base[i]) == i,
{
    lemma_last_at_most_split(base, base[i], i + 1, base.len() as int);
}

/// Law: the code found for a value is the bucket that holds it: its base
/// does not exceed the value, and no later base does.
pub proof fn lemma_code_index_bucket(base: Seq<u32>, value: u32)
    requires
        base.len() > 0,
        base[0] <= value,
    ensures
        0 <= code_index(base, value) < base.len(),
        base[code_index(base, value)] <= value,
        forall|j: int| code_index(base, value) < j < base.len() ==> value < base[j],
{
    lemma_last_at_most_props(base, value, base.len() as int);
}

proof fn lemma_last_at_most_props(base: Seq<u32>, value: u32, n: int)
    requires
        1 <= n <= base.len(),
        base[0] <= value,
    ensures
        0 <= last_at_most(base, value, n) < n,
        base[last_at_most(base, value, n)] <= value,
        forall|j: int| last_at_most(base, value, n) < j < n ==> value < base[j],
    decreases n,
{
    if n > 1 && base[n - 1] > value {
        lemma_last_at_most_props(base, value, n - 1);
    }
}

/// The code found for any value indexes the table.
pub proof fn lemma_code_index_range(base: Seq<u32>, value: u32)
    ensures
        0 <= code_index(base, value),
        base.len() > 0 ==> code_index(base, value) < base.len(),
{
    lemma_last_at_most_range(base, value, base.len() as int);
}

proof fn lemma_last_at_most_range(base: Seq<u32>, value: u32, n: int)
    ensures
        0 <= last_at_most(base, value, n),
        n > 0 ==> last_at_most(base, value, n) < n,
    decreases n,
{
    if n > 0 {
        lemma_last_at_most_range(base, value, n - 1);
    }
}

} // verus!
