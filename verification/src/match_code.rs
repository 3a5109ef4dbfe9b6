//! Match model for AZO decompression.
use vstd::prelude::*;
use vstd::arithmetic::power2::pow2;
use crate::model::{
    BoolModel,
    BoolState,
    EntropyBitProb,
    PredictModel,
    PredictProb,
    TreeModel,
    bool_decode,
    filled,
    fresh_tree,
    lemma_ceil_log2_unique,
    predict_decode,
    predict_trees_have,
    lemma_predict_value_range,
    lemma_tree_symbol_range,
    tree_symbol,
    BOOL_TOTAL_COUNT,
};
use crate::range::{CoderState, RangeDecoder, uniform_step, uniform_symbol, step_width, tag_offset};
use crate::recent::{RecentList, promoted, pushed};
use crate::table::{
    CodeTable,
    code_base,
    code_extra_bits,
    code_index,
    lemma_code_base_bound,
    lemma_extra_bits_monotone,
    lemma_code_range_end,
    lemma_table_ends,
    lemma_table_increasing,
    CODE_SIZE,
    MATCH_DIST_GAP,
    MATCH_DIST_SGAP,
    MATCH_LENGTH_GAP,
    MATCH_LENGTH_SGAP,
    MATCH_MIN_DIST,
    MATCH_MIN_LENGTH,
};

verus! {

pub const RECENT_DIST_SLOTS: usize = 2;
pub const MATCH_SLOTS: usize = 128;
pub const MIN_DISTANCE: u32 = 1;
pub const MIN_LENGTH: u32 = 2;
/// The longest match a length code gives: the end of the last code's range.
pub const MAX_MATCH_LENGTH: u32 = 32793;
/// The farthest distance a distance code gives.
pub const MAX_MATCH_DISTANCE: u32 = 0x4000_000C;

/// The abstract state of the match model.
pub struct MatchModel {
    pub reuse_flag: BoolModel,
    pub dist_recent_flag: BoolModel,
    pub match_recent_flag: BoolModel,
    pub dist_recent_sel: TreeModel,
    pub dist_code_model: TreeModel,
    pub match_recent_sel: TreeModel,
    pub match_id_model: TreeModel,
    pub length_model: PredictModel,
    pub recent_dists: Seq<u32>,
    pub recent_matches: Seq<u32>,
    pub match_lengths: Seq<u32>,
    pub match_starts: Seq<u32>,
}

/// Base distance of distance code `code`.
pub open spec fn dist_base(code: int) -> int {
    code_base(code, MATCH_MIN_DIST as int, MATCH_DIST_SGAP as int, MATCH_DIST_GAP as int)
}

/// Extra bits of distance code `code`.
pub open spec fn dist_extra(code: int) -> nat {
    code_extra_bits(code, MATCH_DIST_SGAP as int, MATCH_DIST_GAP as int)
}

/// Base length of length code `code`.
pub open spec fn length_base(code: int) -> int {
    code_base(code, MATCH_MIN_LENGTH as int, MATCH_LENGTH_SGAP as int, MATCH_LENGTH_GAP as int)
}

/// Extra bits of length code `code`.
pub open spec fn length_extra(code: int) -> nat {
    code_extra_bits(code, MATCH_LENGTH_SGAP as int, MATCH_LENGTH_GAP as int)
}

/// The distance table's bases.
pub open spec fn dist_bases() -> Seq<u32> {
    Seq::new(CODE_SIZE as nat, |i: int| dist_base(i) as u32)
}

/// The uniform extra bits of a code with `eb` of them (none when `eb` is 0).
pub open spec fn extra_value(s: CoderState, eb: nat) -> (u32, CoderState) {
    if eb > 0 {
        uniform_step(s, eb)
    } else {
        (0, s)
    }
}

/// `a - b` modulo 2^32.
pub open spec fn wrapping_diff(a: u32, b: u32) -> u32 {
    ((a - b) % 0x1_0000_0000) as u32
}

/// Reusing a remembered match: pick its id (a recent one, or any, by id),
/// and derive the distance from the output position and the match's start.
pub open spec fn reuse_match(m: MatchModel, write_pos: u32, s: CoderState) -> (
    (u32, u32),
    MatchModel,
    CoderState,
) {
    let (flag, f, s1) = bool_decode(m.match_recent_flag, s);
    let (id, m2, s2) = if flag != 0 {
        let (slot, t, s2) = tree_symbol(m.match_recent_sel, s1);
        (
            m.recent_matches[slot as int],
            MatchModel {
                match_recent_flag: f,
                match_recent_sel: t,
                recent_matches: promoted(m.recent_matches, slot as int),
                ..m
            },
            s2,
        )
    } else {
        let (id, t, s2) = tree_symbol(m.match_id_model, s1);
        (
            id,
            MatchModel {
                match_recent_flag: f,
                match_id_model: t,
                recent_matches: pushed(m.recent_matches, id),
                ..m
            },
            s2,
        )
    };
    (
        (wrapping_diff(write_pos, m2.match_starts[id as int]), m2.match_lengths[id as int]),
        MatchModel {
            match_lengths: promoted(m2.match_lengths, id as int),
            match_starts: promoted(m2.match_starts, id as int),
            ..m2
        },
        s2,
    )
}

/// Decoding a distance: a recent one, or a code with its extra bits.
pub open spec fn decode_distance(m: MatchModel, s: CoderState) -> (u32, MatchModel, CoderState) {
    let (flag, f, s1) = bool_decode(m.dist_recent_flag, s);
    if flag != 0 {
        let (slot, t, s2) = tree_symbol(m.dist_recent_sel, s1);
        (
            m.recent_dists[slot as int],
            MatchModel {
                dist_recent_flag: f,
                dist_recent_sel: t,
                recent_dists: promoted(m.recent_dists, slot as int),
                ..m
            },
            s2,
        )
    } else {
        let (code, t, s2) = tree_symbol(m.dist_code_model, s1);
        let (extra, s3) = extra_value(s2, dist_extra(code as int));
        let d = (dist_base(code as int) + extra) as u32;
        (
            d,
            MatchModel {
                dist_recent_flag: f,
                dist_code_model: t,
                recent_dists: pushed(m.recent_dists, d),
                ..m
            },
            s3,
        )
    }
}

/// Decoding a length, in the context of the distance's code.
pub open spec fn decode_length(m: MatchModel, distance: u32, s: CoderState) -> (
    u32,
    MatchModel,
    CoderState,
) {
    let dist_code = code_index(dist_bases(), distance);
    let (code, pm, s1) = predict_decode(m.length_model, dist_code, s);
    let (extra, s2) = extra_value(s1, length_extra(code as int));
    ((length_base(code as int) + extra) as u32, MatchModel { length_model: pm, ..m }, s2)
}

/// Decoding a match at output position `write_pos`: `(distance, length)`,
/// the model after, and the decoder state after.
#[verifier::opaque]
pub open spec fn match_decode(m: MatchModel, write_pos: u32, s: CoderState) -> (
    (u32, u32),
    MatchModel,
    CoderState,
) {
    let (reuse, f, s1) = bool_decode(m.reuse_flag, s);
    let m1 = MatchModel { reuse_flag: f, ..m };
    if reuse == 1 {
        reuse_match(m1, write_pos, s1)
    } else {
        let (distance, m2, s2) = decode_distance(m1, s1);
        let (length, m3, s3) = decode_length(m2, distance, s2);
        (
            (distance, length),
            MatchModel {
                match_lengths: pushed(m3.match_lengths, length),
                match_starts: pushed(m3.match_starts, write_pos),
                ..m3
            },
            s3,
        )
    }
}

/// The model before the first match.
pub open spec fn initial_match_model() -> MatchModel {
    MatchModel {
        reuse_flag: BoolModel {
            state: 0,
            prob: Seq::new(pow2(8), |i: int| BOOL_TOTAL_COUNT / 2),
            n_bits: 8,
        },
        dist_recent_flag: BoolModel {
            state: 0,
            prob: Seq::new(pow2(8), |i: int| BOOL_TOTAL_COUNT / 2),
            n_bits: 8,
        },
        match_recent_flag: BoolModel {
            state: 0,
            prob: Seq::new(pow2(8), |i: int| BOOL_TOTAL_COUNT / 2),
            n_bits: 8,
        },
        dist_recent_sel: fresh_tree(RECENT_DIST_SLOTS as int),
        dist_code_model: fresh_tree(CODE_SIZE as int),
        match_recent_sel: fresh_tree(RECENT_DIST_SLOTS as int),
        match_id_model: fresh_tree(MATCH_SLOTS as int),
        length_model: PredictModel {
            prob1: Seq::new(CODE_SIZE as nat, |i: int| fresh_tree(CODE_SIZE as int)),
            prob2: Seq::new(8, |i: int| fresh_tree(CODE_SIZE as int)),
            lucky: Seq::new(CODE_SIZE as nat, |i: int| 0i32),
            shift: 4,
        },
        recent_dists: seq![MIN_DISTANCE, (MIN_DISTANCE + 1) as u32],
        recent_matches: seq![0u32, 1u32],
        match_lengths: Seq::new(MATCH_SLOTS as nat, |i: int| (MIN_LENGTH + i) as u32),
        match_starts: Seq::new(MATCH_SLOTS as nat, |i: int| 0u32),
    }
}

/// The match model.
pub struct MatchCode {
    reuse_flag: BoolState,
    dist_recent_flag: BoolState,
    match_recent_flag: BoolState,
    dist_recent_sel: EntropyBitProb,
    dist_code_model: EntropyBitProb,
    match_recent_sel: EntropyBitProb,
    match_id_model: EntropyBitProb,
    length_model: PredictProb,
    recent_dists: RecentList<u32>,
    recent_matches: RecentList<u32>,
    match_lengths: RecentList<u32>,
    match_starts: RecentList<u32>,
    dist_table: CodeTable,
    length_table: CodeTable,
}

impl View for MatchCode {
    type V = MatchModel;

    closed spec fn view(&self) -> MatchModel {
        MatchModel {
            reuse_flag: self.reuse_flag@,
            dist_recent_flag: self.dist_recent_flag@,
            match_recent_flag: self.match_recent_flag@,
            dist_recent_sel: self.dist_recent_sel@,
            dist_code_model: self.dist_code_model@,
            match_recent_sel: self.match_recent_sel@,
            match_id_model: self.match_id_model@,
            length_model: self.length_model@,
            recent_dists: self.recent_dists@,
            recent_matches: self.recent_matches@,
            match_lengths: self.match_lengths@,
            match_starts: self.match_starts@,
        }
    }
}

/// Sizes and ranges that keep every index of the match model in bounds.
pub open spec fn match_model_shape(m: MatchModel) -> bool {
    &&& m.reuse_flag.n_bits == 8
    &&& m.dist_recent_flag.n_bits == 8
    &&& m.match_recent_flag.n_bits == 8
    &&& m.dist_recent_sel.bit_n == 1
    &&& m.dist_code_model.bit_n == 7
    &&& m.match_recent_sel.bit_n == 1
    &&& m.match_id_model.bit_n == 7
    &&& m.length_model.prob1.len() == CODE_SIZE
    &&& m.length_model.prob2.len() == 8
    &&& m.length_model.shift == 4
    &&& predict_trees_have(m.length_model, 7)
    &&& m.recent_dists.len() == RECENT_DIST_SLOTS
    &&& m.recent_matches.len() == RECENT_DIST_SLOTS
    &&& m.match_lengths.len() == MATCH_SLOTS
    &&& m.match_starts.len() == MATCH_SLOTS
    &&& forall|i: int| 0 <= i < m.recent_matches.len() ==> m.recent_matches[i] < MATCH_SLOTS
    &&& forall|i: int|
        0 <= i < m.recent_dists.len() ==> #[trigger] m.recent_dists[i] <= MAX_MATCH_DISTANCE
    &&& forall|i: int|
        0 <= i < m.match_lengths.len() ==> MIN_LENGTH <= #[trigger] m.match_lengths[i]
            <= MAX_MATCH_LENGTH
}

proof fn lemma_dist_code_bounds(code: int)
    requires
        0 <= code < CODE_SIZE,
    ensures
        dist_extra(code) <= 27,
        1 <= dist_base(code),
        dist_base(code) + pow2(dist_extra(code)) <= MAX_MATCH_DISTANCE + 1,
{
    vstd::arithmetic::power2::lemma2_to64();
    lemma_table_ends();
    lemma_code_range_end(code, MATCH_MIN_DIST as int, MATCH_DIST_SGAP as int, MATCH_DIST_GAP as int);
    lemma_extra_bits_monotone(code, 127, MATCH_DIST_SGAP as int, MATCH_DIST_GAP as int);
    lemma_code_base_bound(code, MATCH_MIN_DIST as int, MATCH_DIST_SGAP as int, MATCH_DIST_GAP as int);
    if dist_extra(code) < 27 {
        vstd::arithmetic::power2::lemma_pow2_strictly_increases(dist_extra(code), 27);
    }
}

proof fn lemma_length_code_bounds(code: int)
    requires
        0 <= code < CODE_SIZE,
    ensures
        length_extra(code) <= 11,
        2 <= length_base(code),
        length_base(code) + pow2(length_extra(code)) <= MAX_MATCH_LENGTH + 1,
{
    vstd::arithmetic::power2::lemma2_to64();
    lemma_table_ends();
    lemma_code_range_end(
        code,
        MATCH_MIN_LENGTH as int,
        MATCH_LENGTH_SGAP as int,
        MATCH_LENGTH_GAP as int,
    );
    lemma_extra_bits_monotone(code, 127, MATCH_LENGTH_SGAP as int, MATCH_LENGTH_GAP as int);
    lemma_code_base_bound(
        code,
        MATCH_MIN_LENGTH as int,
        MATCH_LENGTH_SGAP as int,
        MATCH_LENGTH_GAP as int,
    );
    if length_extra(code) < 11 {
        vstd::arithmetic::power2::lemma_pow2_strictly_increases(length_extra(code), 11);
    }
}

fn ramp(first: u32, n: u32) -> (v: Vec<u32>)
    requires
        first + n <= 0x1_0000_0000,
    ensures
        v@ == Seq::new(n as nat, |i: int| (first + i) as u32),
{
    let mut v: Vec<u32> = Vec::new();
    let mut i: u32 = 0;
    while i < n
        invariant
            i <= n,
            first + n <= 0x1_0000_0000,
            v@ == Seq::new(i as nat, |k: int| (first + k) as u32),
        decreases n - i,
    {
        v.push(first + i);
        i += 1;
        assert(v@ =~= Seq::new(i as nat, |k: int| (first + k) as u32));
    }
    v
}

impl Default for MatchCode {
    fn default() -> (r: Self)
        ensures
            r.wf(),
            r.decodes() == 0,
            r@ == initial_match_model(),
    {
        Self::new()
    }
}

impl MatchCode {
    /// The model is well formed.
    pub closed spec fn wf(&self) -> bool {
        &&& self.reuse_flag.wf()
        &&& self.dist_recent_flag.wf()
        &&& self.match_recent_flag.wf()
        &&& self.dist_recent_sel.wf()
        &&& self.dist_code_model.wf()
        &&& self.match_recent_sel.wf()
        &&& self.match_id_model.wf()
        &&& self.length_model.wf()
        &&& self.length_model.symbol_bits() == 7
        &&& self.dist_table.is_dist_table()
        &&& self.length_table.is_length_table()
        &&& match_model_shape(self@)
    }

    /// A well-formed model has the shape of the match model.
    pub proof fn lemma_shape(&self)
        requires
            self.wf(),
        ensures
            match_model_shape(self@),
    {
    }

    /// The number of lengths decoded by code so far.
    pub closed spec fn decodes(&self) -> nat {
        self.length_model.decodes()
    }

    /// A model before the first match.
    pub fn new() -> (r: Self)
        ensures
            r.wf(),
            r.decodes() == 0,
            r@ == initial_match_model(),
    {
        proof {
            vstd::arithmetic::power2::lemma2_to64();
            lemma_ceil_log2_unique(RECENT_DIST_SLOTS as int, 1);
            lemma_ceil_log2_unique(CODE_SIZE as int, 7);
        }
        let recent_dists = ramp(MIN_DISTANCE, RECENT_DIST_SLOTS as u32);
        let recent_matches = ramp(0, RECENT_DIST_SLOTS as u32);
        let match_lengths = ramp(MIN_LENGTH, MATCH_SLOTS as u32);
        let starts = filled(0, MATCH_SLOTS);
        let r = MatchCode {
            reuse_flag: BoolState::new(8),
            dist_recent_flag: BoolState::new(8),
            match_recent_flag: BoolState::new(8),
            dist_recent_sel: EntropyBitProb::new(RECENT_DIST_SLOTS),
            dist_code_model: EntropyBitProb::new(CODE_SIZE),
            match_recent_sel: EntropyBitProb::new(RECENT_DIST_SLOTS),
            match_id_model: EntropyBitProb::new(MATCH_SLOTS),
            length_model: PredictProb::new(CODE_SIZE, CODE_SIZE, 4),
            recent_dists: RecentList::new(recent_dists),
            recent_matches: RecentList::new(recent_matches),
            match_lengths: RecentList::new(match_lengths),
            match_starts: RecentList::new(starts),
            dist_table: CodeTable::build_dist_table(),
            length_table: CodeTable::build_length_table(),
        };
        proof {
            lemma_ceil_log2_unique(RECENT_DIST_SLOTS as int, r.dist_recent_sel@.bit_n);
            lemma_ceil_log2_unique(RECENT_DIST_SLOTS as int, r.match_recent_sel@.bit_n);
            lemma_ceil_log2_unique(CODE_SIZE as int, r.dist_code_model@.bit_n);
            lemma_ceil_log2_unique(MATCH_SLOTS as int, r.match_id_model@.bit_n);
            lemma_ceil_log2_unique(CODE_SIZE as int, r.length_model.symbol_bits());
            r.length_model.lemma_trees();
        }
        assert(r@.recent_dists =~= seq![MIN_DISTANCE, (MIN_DISTANCE + 1) as u32]);
        assert(r@.recent_matches =~= seq![0u32, 1u32]);
        assert(r@.match_starts =~= Seq::new(MATCH_SLOTS as nat, |i: int| 0u32));
        assert(r@.length_model.prob2 =~= Seq::new(8, |i: int| fresh_tree(CODE_SIZE as int)));
        r
    }

    /// Decode a match at output position `write_pos`; returns `(distance, length)`.
    pub fn decode(&mut self, entropy: &mut RangeDecoder, write_pos: u32) -> (r: (u32, u32))
        requires
            old(self).wf(),
            old(entropy).wf(),
            old(self).decodes() < 0x7FFF_FFFF,
        ensures
            final(self).wf(),
            final(entropy).wf(),
            final(self).decodes() <= old(self).decodes() + 1,
            (r, final(self)@, final(entropy).state()) == match_decode(
                old(self)@,
                write_pos,
                old(entropy).state(),
            ),
            MIN_LENGTH <= r.1 <= MAX_MATCH_LENGTH,
            (forall|k: int|
                0 <= k < old(self)@.match_starts.len() ==> #[trigger] old(self)@.match_starts[k]
                    <= write_pos) ==> r.0 <= MAX_MATCH_DISTANCE || r.0 <= write_pos,
    {
        proof {
            reveal(match_decode);
            lemma_match_decode_bounds(self@, write_pos, entropy.state());
        }
        if self.reuse_flag.decode(entropy) == 1 {
            self.reuse_recent_match(entropy, write_pos)
        } else {
            let distance = self.decode_distance(entropy);
            let length = self.decode_length(entropy, distance);
            self.match_lengths.push(length);
            self.match_starts.push(write_pos);
            (distance, length)
        }
    }

    /// Reuse a remembered `(length, start)` pair, deriving the distance from the
    /// current output position.
    fn reuse_recent_match(&mut self, entropy: &mut RangeDecoder, write_pos: u32) -> (r: (u32, u32))
        requires
            old(self).wf(),
            old(entropy).wf(),
        ensures
            final(self).wf(),
            final(entropy).wf(),
            final(self).decodes() == old(self).decodes(),
            (r, final(self)@, final(entropy).state()) == reuse_match(
                old(self)@,
                write_pos,
                old(entropy).state(),
            ),
            MIN_LENGTH <= r.1 <= MAX_MATCH_LENGTH,
    {
        let ghost m0 = self@;
        proof {
            vstd::arithmetic::power2::lemma2_to64();
        }
        let match_id = if self.match_recent_flag.decode(entropy) != 0 {
            let slot = self.match_recent_sel.decode(entropy) as usize;
            self.recent_matches.promote(slot)
        } else {
            let id = self.match_id_model.decode(entropy);
            self.recent_matches.push(id);
            id
        } as usize;
        proof {
            let rm = self.recent_matches@;
            assert forall|i: int| 0 <= i < rm.len() implies rm[i] < MATCH_SLOTS by {
                if i > 0 {
                    assert(rm[i] == m0.recent_matches[i - 1] || rm[i] == m0.recent_matches[i]);
                }
            }
        }
        let length = self.match_lengths.promote(match_id);
        let start = self.match_starts.promote(match_id);
        let distance = write_pos.wrapping_sub(start);
        proof {
            let ml = self.match_lengths@;
            assert forall|i: int| 0 <= i < ml.len() implies MIN_LENGTH <= #[trigger] ml[i]
                <= MAX_MATCH_LENGTH by {
                let old_ml = m0.match_lengths;
                if 0 < i <= match_id {
                    assert(ml[i] == old_ml[i - 1]);
                } else if i > match_id {
                    assert(ml[i] == old_ml[i]);
                }
            }
            assert(distance == wrapping_diff(write_pos, start));
        }
        (distance, length)
    }

    fn decode_distance(&mut self, entropy: &mut RangeDecoder) -> (r: u32)
        requires
            old(self).wf(),
            old(entropy).wf(),
        ensures
            final(self).wf(),
            final(entropy).wf(),
            final(self).decodes() == old(self).decodes(),
            (r, final(self)@, final(entropy).state()) == decode_distance(
                old(self)@,
                old(entropy).state(),
            ),
            r <= MAX_MATCH_DISTANCE,
    {
        let ghost m0 = self@;
        proof {
            vstd::arithmetic::power2::lemma2_to64();
        }
        if self.dist_recent_flag.decode(entropy) != 0 {
            let slot = self.dist_recent_sel.decode(entropy) as usize;
            let d = self.recent_dists.promote(slot);
            proof {
                let rd = self.recent_dists@;
                assert forall|i: int| 0 <= i < rd.len() implies #[trigger] rd[i]
                    <= MAX_MATCH_DISTANCE by {
                    if 0 < i <= slot {
                        assert(rd[i] == m0.recent_dists[i - 1]);
                    } else if i > slot {
                        assert(rd[i] == m0.recent_dists[i]);
                    }
                }
            }
            d
        } else {
            let code = self.dist_code_model.decode(entropy) as usize;
            proof {
                lemma_dist_code_bounds(code as int);
            }
            let mut distance = self.dist_table.base[code];
            let ghost s2 = entropy.state();
            if self.dist_table.extra_bits[code] > 0 {
                distance += entropy.decode_uniform(self.dist_table.extra_bits[code]);
            }
            proof {
                let (extra, s3) = extra_value(s2, dist_extra(code as int));
                assert(distance == dist_base(code as int) + extra);
            }
            self.recent_dists.push(distance);
            proof {
                let rd = self.recent_dists@;
                assert forall|i: int| 0 <= i < rd.len() implies #[trigger] rd[i]
                    <= MAX_MATCH_DISTANCE by {
                    if i > 0 {
                        assert(rd[i] == m0.recent_dists[i - 1]);
                    }
                }
            }
            distance
        }
    }

    fn decode_length(&mut self, entropy: &mut RangeDecoder, distance: u32) -> (r: u32)
        requires
            old(self).wf(),
            old(entropy).wf(),
            old(self).decodes() < 0x7FFF_FFFF,
        ensures
            final(self).wf(),
            final(entropy).wf(),
            final(self).decodes() == old(self).decodes() + 1,
            (r, final(self)@, final(entropy).state()) == decode_length(
                old(self)@,
                distance,
                old(entropy).state(),
            ),
            MIN_LENGTH <= r <= MAX_MATCH_LENGTH,
    {
        proof {
            vstd::arithmetic::power2::lemma2_to64();
            lemma_table_increasing(
                &self.dist_table,
                MATCH_MIN_DIST as int,
                MATCH_DIST_SGAP as int,
                MATCH_DIST_GAP as int,
            );
            assert(self.dist_table.base@ =~= dist_bases());
            crate::table::lemma_code_index_range(dist_bases(), distance);
        }
        let dist_code = self.dist_table.code_for(distance);
        let code = self.length_model.decode(entropy, dist_code) as usize;
        proof {
            self.length_model.lemma_trees();
            lemma_length_code_bounds(code as int);
        }
        let mut length = self.length_table.base[code];
        let ghost s1 = entropy.state();
        if self.length_table.extra_bits[code] > 0 {
            length += entropy.decode_uniform(self.length_table.extra_bits[code]);
        }
        proof {
            let (extra, s2) = extra_value(s1, length_extra(code as int));
            assert(length == length_base(code as int) + extra);
        }
        length
    }
}

/// The extra bits of a code lie below `2^eb`.
pub proof fn lemma_extra_value_range(s: CoderState, eb: nat)
    ensures
        extra_value(s, eb).0 < pow2(eb),
{
    vstd::arithmetic::power2::lemma_pow2_pos(eb);
    if eb > 0 {
        let t = step_width(s, eb);
        vstd::arithmetic::div_mod::lemma_div_pos_is_pos(tag_offset(s), t);
        assert(0 <= uniform_symbol(s, eb) < pow2(eb));
    }
}

/// A reused match has a remembered length, and its distance is no more
/// than the output position once every remembered start lies at or before it.
proof fn lemma_reuse_bounds(m: MatchModel, write_pos: u32, s: CoderState)
    requires
        match_model_shape(m),
    ensures
        MIN_LENGTH <= reuse_match(m, write_pos, s).0.1 <= MAX_MATCH_LENGTH,
        (forall|k: int| 0 <= k < m.match_starts.len() ==> #[trigger] m.match_starts[k] <= write_pos)
            ==> reuse_match(m, write_pos, s).0.0 <= write_pos,
{
    vstd::arithmetic::power2::lemma2_to64();
    let (flag, f, s1) = bool_decode(m.match_recent_flag, s);
    lemma_tree_symbol_range(m.match_recent_sel, s1);
    lemma_tree_symbol_range(m.match_id_model, s1);
    let id: int = if flag != 0 {
        m.recent_matches[tree_symbol(m.match_recent_sel, s1).0 as int] as int
    } else {
        tree_symbol(m.match_id_model, s1).0 as int
    };
    assert(0 <= id < MATCH_SLOTS);
    assert(reuse_match(m, write_pos, s).0 == (
        wrapping_diff(write_pos, m.match_starts[id]),
        m.match_lengths[id],
    ));
    if forall|k: int| 0 <= k < m.match_starts.len() ==> #[trigger] m.match_starts[k] <= write_pos {
        assert(m.match_starts[id] <= write_pos);
        vstd::arithmetic::div_mod::lemma_small_mod(
            (write_pos - m.match_starts[id]) as nat,
            0x1_0000_0000,
        );
    }
}

/// A decoded distance is at most `MAX_MATCH_DISTANCE`.
proof fn lemma_decode_distance_bound(m: MatchModel, s: CoderState)
    requires
        match_model_shape(m),
    ensures
        decode_distance(m, s).0 <= MAX_MATCH_DISTANCE,
        decode_distance(m, s).1.length_model == m.length_model,
{
    vstd::arithmetic::power2::lemma2_to64();
    let (flag, f, s1) = bool_decode(m.dist_recent_flag, s);
    lemma_tree_symbol_range(m.dist_recent_sel, s1);
    lemma_tree_symbol_range(m.dist_code_model, s1);
    let (code, t, s2) = tree_symbol(m.dist_code_model, s1);
    lemma_dist_code_bounds(code as int);
    lemma_extra_value_range(s2, dist_extra(code as int));
}

/// Law: every match the model decodes is between `MIN_LENGTH` and
/// `MAX_MATCH_LENGTH` long; its distance is at most `MAX_MATCH_DISTANCE`, or,
/// for a remembered match, no more than the output position, once every
/// remembered start lies at or before that position.
pub proof fn lemma_match_decode_bounds(m: MatchModel, write_pos: u32, s: CoderState)
    requires
        match_model_shape(m),
    ensures
        MIN_LENGTH <= match_decode(m, write_pos, s).0.1 <= MAX_MATCH_LENGTH,
        (forall|k: int| 0 <= k < m.match_starts.len() ==> #[trigger] m.match_starts[k] <= write_pos)
            ==> match_decode(m, write_pos, s).0.0 <= MAX_MATCH_DISTANCE || match_decode(
            m,
            write_pos,
            s,
        ).0.0 <= write_pos,
{
    reveal(match_decode);
    vstd::arithmetic::power2::lemma2_to64();
    let (reuse, f, s1) = bool_decode(m.reuse_flag, s);
    let m1 = MatchModel { reuse_flag: f, ..m };
    if reuse == 1 {
        lemma_reuse_bounds(m1, write_pos, s1);
    } else {
        lemma_decode_distance_bound(m1, s1);
        let (distance, m2, s2) = decode_distance(m1, s1);
        let dist_code = code_index(dist_bases(), distance);
        crate::table::lemma_code_index_range(dist_bases(), distance);
        lemma_predict_value_range(m2.length_model, dist_code, s2, 7);
        let (code, pm, s3) = predict_decode(m2.length_model, dist_code, s2);
        lemma_length_code_bounds(code as int);
        lemma_extra_value_range(s3, length_extra(code as int));
    }
}

/// Law: reusing a remembered match. The match is picked either through the
/// recent list, whose slot holds the match's id, or by its id directly; the
/// result is that match's remembered length and its distance back from the
/// output position (modulo 2^32), the picked id moves to the front of the
/// recent list, and the match's (length, start) pair to the front of the
/// remembered pairs.
pub proof fn lemma_match_reuse_law(m: MatchModel, write_pos: u32, s: CoderState)
    requires
        match_model_shape(m),
    ensures
        ({
            let (reuse, f, s1) = bool_decode(m.reuse_flag, s);
            let (flag, f2, s2) = bool_decode(m.match_recent_flag, s1);
            let slot = tree_symbol(m.match_recent_sel, s2).0 as int;
            let id: int = if flag != 0 {
                m.recent_matches[slot] as int
            } else {
                tree_symbol(m.match_id_model, s2).0 as int
            };
            let (r, m3, s3) = match_decode(m, write_pos, s);
            reuse == 1 ==> {
                &&& 0 <= id < MATCH_SLOTS
                &&& r.1 == m.match_lengths[id]
                &&& r.0 as int == (write_pos - m.match_starts[id]) % 0x1_0000_0000
                &&& m3.recent_matches[0] == id
                &&& m3.recent_matches == if flag != 0 {
                    promoted(m.recent_matches, slot)
                } else {
                    pushed(m.recent_matches, id as u32)
                }
                &&& m3.match_lengths[0] == m.match_lengths[id]
                &&& m3.match_starts[0] == m.match_starts[id]
            }
        }),
{
    reveal(match_decode);
    vstd::arithmetic::power2::lemma2_to64();
    let (reuse, f, s1) = bool_decode(m.reuse_flag, s);
    let m1 = MatchModel { reuse_flag: f, ..m };
    let (flag, f2, s2) = bool_decode(m.match_recent_flag, s1);
    lemma_tree_symbol_range(m.match_recent_sel, s2);
    lemma_tree_symbol_range(m.match_id_model, s2);
    let slot = tree_symbol(m.match_recent_sel, s2).0 as int;
    if reuse == 1 && flag != 0 {
        assert(0 <= slot < 2);
        assert(m.recent_matches[slot] < MATCH_SLOTS);
    }
}

/// The remembered matches as (length, start) pairs.
pub open spec fn match_pairs(m: MatchModel) -> Seq<(u32, u32)> {
    Seq::new(m.match_lengths.len(), |i: int| (m.match_lengths[i], m.match_starts[i]))
}

/// Law: the remembered lengths and starts stay paired. A new match puts its
/// (length, output position) pair in front; reusing a remembered match
/// gives that pair's length, and its distance back from the output
/// position, and moves the pair to the front.
pub proof fn lemma_match_pairs(m: MatchModel, write_pos: u32, s: CoderState)
    requires
        match_model_shape(m),
    ensures
        ({
            let (r, m2, s2) = match_decode(m, write_pos, s);
            let reused = bool_decode(m.reuse_flag, s).0 == 1;
            &&& m2.match_lengths.len() == MATCH_SLOTS
            &&& m2.match_starts.len() == MATCH_SLOTS
            &&& !reused ==> match_pairs(m2) == pushed(match_pairs(m), (r.1, write_pos))
            &&& reused ==> exists|id: int|
                0 <= id < MATCH_SLOTS && match_pairs(m2) == promoted(match_pairs(m), id) && r == (
                    wrapping_diff(write_pos, m.match_starts[id]),
                    m.match_lengths[id],
                )
        }),
{
    reveal(match_decode);
    vstd::arithmetic::power2::lemma2_to64();
    let (r, m2, s2) = match_decode(m, write_pos, s);
    let (reuse, f, s1) = bool_decode(m.reuse_flag, s);
    let m1 = MatchModel { reuse_flag: f, ..m };
    if reuse == 1 {
        let (flag, f2, s3) = bool_decode(m1.match_recent_flag, s1);
        lemma_tree_symbol_range(m1.match_recent_sel, s3);
        lemma_tree_symbol_range(m1.match_id_model, s3);
        let id: int = if flag != 0 {
            m.recent_matches[tree_symbol(m1.match_recent_sel, s3).0 as int] as int
        } else {
            tree_symbol(m1.match_id_model, s3).0 as int
        };
        assert(0 <= id < MATCH_SLOTS);
        assert(match_pairs(m2) =~= promoted(match_pairs(m), id));
    } else {
        assert(match_pairs(m2) =~= pushed(match_pairs(m), (r.1, write_pos)));
    }
}

} // verus!
